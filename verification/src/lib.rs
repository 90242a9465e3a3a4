//! A grammar-notation engine: parses Backus-Naur-Form-style grammar text into
//! structured values (`Term`, `Expression`, `Production`, `Grammar`) and
//! renders those values back to canonical text.
//!
//! Surface syntax (fixed by this implementation):
//! - a nonterminal is a nonempty name in angle brackets: `<name>`; the name may
//!   hold any character except `>`;
//! - a terminal is a nonempty literal in double or single quotes: `"text"` or
//!   `'text'`; the literal may hold any character except its own quote, and
//!   there is no escape sequence;
//! - terms within an expression are separated by spaces or tabs;
//! - the assignment marker is `::=`, on the same line as the left-hand side;
//! - alternatives are separated by `|`; a `|` may start a new line, but each
//!   alternative must follow its `|` on the same line;
//! - productions are separated by line boundaries; blank lines are skipped.
//!
//! Parse failures are classified: `ParseError` (malformed, never recoverable
//! by more input) against `ParseIncomplete` (a valid prefix that ended early).

pub mod error;
pub mod expression;
pub mod grammar;
pub mod parsers;
pub mod production;
pub mod roundtrip;
pub mod term;
pub mod text;
pub mod util;
