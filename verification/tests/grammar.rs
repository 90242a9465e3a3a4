use bnf::error::Error;
use bnf::expression::Expression;
use bnf::grammar::Grammar;
use bnf::production::Production;
use bnf::term::Term;

fn dna_grammar_text() -> &'static str {
    "<dna> ::= <base>\n| <base> <dna>\n<base> ::= \"A\"\n| \"C\"\n| \"G\"\n| \"T\""
}

#[test]
fn production_parse_and_accessors() {
    let p = Production::from_str("<dna> ::= <base> | <base> <dna>").unwrap();
    assert_eq!(*p.lhs(), Term::Nonterminal(String::from("dna")));
    assert_eq!(p.rhs_len(), 2);
    assert_eq!(
        *p.rhs_get(0),
        Expression::from_parts(vec![Term::Nonterminal(String::from("base"))])
    );
    assert_eq!(
        *p.rhs_get(1),
        Expression::from_parts(vec![
            Term::Nonterminal(String::from("base")),
            Term::Nonterminal(String::from("dna")),
        ])
    );
    assert_eq!(p.render(), String::from("<dna> ::= <base>\n| <base> <dna>"));
}

#[test]
fn production_round_trip() {
    let p = Production::from_str("<dna> ::= <base>\n| <base> <dna>").unwrap();
    assert_eq!(Ok(p.clone()), Production::from_str(&p.render()));
}

#[test]
fn production_errors() {
    // the input ends inside the assignment marker: more input could mend it
    assert!(matches!(Production::from_str("<dna> ::"), Err(Error::ParseIncomplete(_))));
    // the input ends right after the marker, where an alternative is owed
    assert!(matches!(Production::from_str("<dna> ::="), Err(Error::ParseIncomplete(_))));
    // the input ends right after an alternation marker
    assert!(matches!(Production::from_str("<a> ::= <b> |"), Err(Error::ParseIncomplete(_))));
    // a wrong character inside the marker can never be mended
    assert!(matches!(Production::from_str("<dna> :x= <base>"), Err(Error::ParseError(_))));
    // the left-hand side must be a nonterminal
    assert!(matches!(Production::from_str("\"x\" ::= <a>"), Err(Error::ParseError(_))));
}

#[test]
fn grammar_parse_structure() {
    let g = Grammar::from_str(dna_grammar_text()).unwrap();
    assert_eq!(g.len(), 2);
    assert_eq!(*g.get(0).lhs(), Term::Nonterminal(String::from("dna")));
    assert_eq!(*g.get(1).lhs(), Term::Nonterminal(String::from("base")));
    assert_eq!(g.get(1).rhs_len(), 4);
}

#[test]
fn grammar_round_trip() {
    let g = Grammar::from_str(dna_grammar_text()).unwrap();
    let rendered = g.render();
    assert_eq!(rendered, String::from(dna_grammar_text()));
    let again = Grammar::from_str(&rendered).unwrap();
    assert_eq!(g, again);
    // rendering is idempotent
    assert_eq!(again.render(), rendered);
}

#[test]
fn grammar_parse_normalizes_layout() {
    let loose = "<dna> ::= <base> | <base> <dna>\n\n   <base> ::= \"A\" | \"C\" | \"G\" | \"T\"\n";
    let g = Grammar::from_str(loose).unwrap();
    let canonical = Grammar::from_str(dna_grammar_text()).unwrap();
    assert_eq!(g, canonical);
    assert_eq!(g.render(), String::from(dna_grammar_text()));
}

#[test]
fn grammar_empty_input_is_empty_grammar() {
    assert_eq!(Grammar::from_str("").unwrap().len(), 0);
    assert_eq!(Grammar::from_str(" \n\t\n").unwrap().len(), 0);
    assert_eq!(Grammar::from_str("").unwrap().render(), String::from(""));
}

#[test]
fn grammar_error_kinds() {
    // a production cut short is incomplete
    assert!(matches!(Grammar::from_str("<a>"), Err(Error::ParseIncomplete(_))));
    // a second production that cannot begin is malformed
    assert!(matches!(Grammar::from_str("<a> ::= <b>\n???"), Err(Error::ParseError(_))));
    // an unterminated bracket is malformed
    assert!(matches!(Grammar::from_str("<a> ::= <b"), Err(Error::ParseError(_))));
}

#[test]
fn grammar_build_and_remove() {
    let p1 = Production::from_str("<a> ::= \"x\"").unwrap();
    let p2 = Production::from_str("<b> ::= <a>").unwrap();
    let mut g = Grammar::new();
    g.add_production(p1.clone());
    g.add_production(p2.clone());
    assert_eq!(g, Grammar::from_parts(vec![p1.clone(), p2.clone()]));
    assert_eq!(g.len(), 2);

    // removing an absent production changes nothing
    let absent = Production::from_str("<c> ::= \"y\"").unwrap();
    assert_eq!(g.remove_production(&absent), None);
    assert_eq!(g.len(), 2);

    // removing a present production returns it and shrinks the grammar
    let removed = g.remove_production(&p1);
    assert_eq!(removed, Some(p1));
    assert_eq!(g.len(), 1);
    assert_eq!(*g.get(0), p2);
}
