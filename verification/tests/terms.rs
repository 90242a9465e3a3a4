use std::collections::hash_map::DefaultHasher;
use std::hash::{Hash, Hasher};

use bnf::error::Error;
use bnf::expression::Expression;
use bnf::term::Term;

fn hash_of(t: &Term) -> u64 {
    let mut h = DefaultHasher::new();
    t.hash(&mut h);
    h.finish()
}

#[test]
fn term_parse_nonterminal() {
    assert_eq!(
        Ok(Term::Nonterminal(String::from("dna"))),
        Term::from_str("<dna>")
    );
}

#[test]
fn term_parse_terminal_with_padding() {
    assert_eq!(Ok(Term::Terminal(String::from("A"))), Term::from_str("  \"A\"\t"));
}

#[test]
fn term_parse_single_quoted() {
    assert_eq!(
        Ok(Term::Terminal(String::from("say \"hi\""))),
        Term::from_str("'say \"hi\"'")
    );
}

#[test]
fn term_parse_empty_name_is_malformed() {
    assert!(matches!(Term::from_str("<>"), Err(Error::ParseError(_))));
    assert!(matches!(Term::from_str("\"\""), Err(Error::ParseError(_))));
}

#[test]
fn term_parse_unterminated_is_malformed() {
    assert!(matches!(Term::from_str("<dna"), Err(Error::ParseError(_))));
    assert!(matches!(Term::from_str("\"A"), Err(Error::ParseError(_))));
}

#[test]
fn term_parse_empty_is_incomplete() {
    assert!(matches!(Term::from_str(""), Err(Error::ParseIncomplete(_))));
    assert!(matches!(Term::from_str("   "), Err(Error::ParseIncomplete(_))));
}

#[test]
fn term_parse_trailing_input_is_malformed() {
    assert!(matches!(Term::from_str("<a> <b>"), Err(Error::ParseError(_))));
}

#[test]
fn term_render_forms() {
    assert_eq!(
        Term::Nonterminal(String::from("dna")).render(),
        String::from("<dna>")
    );
    assert_eq!(Term::Terminal(String::from("A")).render(), String::from("\"A\""));
    assert_eq!(
        Term::Terminal(String::from("say \"hi\"")).render(),
        String::from("'say \"hi\"'")
    );
}

#[test]
fn equal_terms_hash_equal() {
    let a = Term::Terminal(String::from("A"));
    let b = Term::Terminal(String::from("A"));
    assert_eq!(a, b);
    assert_eq!(hash_of(&a), hash_of(&b));
    let n = Term::Nonterminal(String::from("A"));
    assert_ne!(a, n);
}

#[test]
fn error_message_carries_position() {
    let err = Expression::from_str("<base> <dna").unwrap_err();
    assert!(matches!(err, Error::ParseError(_)));
    // the unterminated bracket opens at character 7
    assert!(err.message().contains('7'), "{:?}", err);
}

#[test]
fn expression_render_matches_parse() {
    let parsed = Expression::from_str("<base> <dna>").unwrap();
    let mut it = parsed.terms_iter();
    assert_eq!(it.next(), Some(&Term::Nonterminal(String::from("base"))));
    assert_eq!(it.next(), Some(&Term::Nonterminal(String::from("dna"))));
    assert_eq!(it.next(), None);
    assert_eq!(parsed.render(), String::from("<base> <dna>"));
}

#[test]
fn empty_expression_renders_empty() {
    assert_eq!(Expression::new().render(), String::from(""));
}
