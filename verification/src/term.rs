use vstd::prelude::*;
use crate::text::no_char;

verus! {

/// The mathematical shape of a [`Term`]: one atomic grammar symbol, either a
/// literal (terminal) or a named reference to another rule (nonterminal).
pub ghost enum SpecTerm {
    Terminal(Seq<char>),
    Nonterminal(Seq<char>),
}

/// A term is well formed when its name or literal is nonempty and can be
/// rendered so that parsing reads it back: a nonterminal name holds no `>`,
/// and a terminal literal spares at least one of the two quote characters.
pub open spec fn wf_term(t: SpecTerm) -> bool {
    match t {
        SpecTerm::Nonterminal(n) => n.len() > 0 && no_char(n, '>'),
        SpecTerm::Terminal(x) => x.len() > 0 && (no_char(x, '"') || no_char(x, '\'')),
    }
}

/// The canonical text of a term: `<name>` for a nonterminal; the literal in
/// double quotes for a terminal, or in single quotes if the literal itself
/// holds a double quote.
pub open spec fn term_text(t: SpecTerm) -> Seq<char> {
    match t {
        SpecTerm::Nonterminal(n) => seq!['<'] + n + seq!['>'],
        SpecTerm::Terminal(x) => if no_char(x, '"') {
            seq!['"'] + x + seq!['"']
        } else {
            seq!['\''] + x + seq!['\'']
        },
    }
}

/// One atomic grammar symbol: a literal string (terminal), or the name of
/// another rule (nonterminal).
#[derive(Debug, Clone, Hash)]
pub enum Term {
    /// A literal symbol, not further expandable.
    Terminal(String),
    /// A named reference to a production.
    Nonterminal(String),
}

impl View for Term {
    type V = SpecTerm;

    open spec fn view(&self) -> SpecTerm {
        match self {
            Term::Terminal(s) => SpecTerm::Terminal(s@),
            Term::Nonterminal(s) => SpecTerm::Nonterminal(s@),
        }
    }
}

impl Term {
    /// Parse a term from a whole string, as classified by
    /// [`crate::parsers::spec_from_str_term`]: leading and trailing
    /// whitespace is tolerated, any other unconsumed input is malformed.
    pub fn from_str(s: &str) -> (r: Result<Term, crate::error::Error>)
        ensures
            crate::parsers::spec_from_str_term(s@) matches Ok(t) ==> (r matches Ok(x) && x@ == t),
            crate::parsers::spec_from_str_term(s@) matches Err(k) ==> (r matches Err(e) && e.kind()
                == k),
            r matches Ok(x) ==> wf_term(x@),
    {
        let v = crate::text::chars_of(s);
        let i = crate::parsers::exec_skip_all(&v, 0);
        proof {
            crate::parsers::lemma_parse_term_wf(v@, i as int);
        }
        match crate::parsers::exec_parse_term(&v, i) {
            Err(e) => Err(e),
            Ok((t, j)) => {
                let e2 = crate::parsers::exec_skip_all(&v, j);
                if e2 == v.len() {
                    Ok(t)
                } else {
                    Err(crate::parsers::trailing_input_error(e2))
                }
            },
        }
    }

    /// The canonical grammar-notation text of this term.
    pub fn render(&self) -> (r: String)
        ensures
            r@ == term_text(self@),
    {
        match self {
            Term::Nonterminal(n) => {
                let mut r = String::new();
                crate::text::push_char(&mut r, '<');
                r.append(n.as_str());
                crate::text::push_char(&mut r, '>');
                proof {
                    assert(r@ =~= term_text(self@));
                }
                r
            },
            Term::Terminal(x) => {
                let q: char = if crate::text::contains_char(x, '"') {
                    '\''
                } else {
                    '"'
                };
                let mut r = String::new();
                crate::text::push_char(&mut r, q);
                r.append(x.as_str());
                crate::text::push_char(&mut r, q);
                proof {
                    assert(r@ =~= term_text(self@));
                }
                r
            },
        }
    }
}

impl PartialEq for Term {
    /// Equality is structural: the variant and the wrapped string must both
    /// match exactly, with no normalization.
    fn eq(&self, other: &Term) -> (r: bool) {
        match (self, other) {
            (Term::Terminal(a), Term::Terminal(b)) => *a == *b,
            (Term::Nonterminal(a), Term::Nonterminal(b)) => *a == *b,
            _ => false,
        }
    }
}

impl vstd::std_specs::cmp::PartialEqSpecImpl for Term {
    open spec fn obeys_eq_spec() -> bool {
        true
    }

    open spec fn eq_spec(&self, other: &Term) -> bool {
        self@ == other@
    }
}

impl Eq for Term {

}

} // verus!
