use bnf::error::Error;
use bnf::expression::Expression;
use bnf::term::Term;

fn iter_count(e: &Expression) -> usize {
    let mut it = e.terms_iter();
    let mut count: usize = 0;
    while let Some(_) = it.next() {
        count += 1;
    }
    count
}

fn iter_find(e: &Expression, needle: &Term) -> Option<Term> {
    let mut it = e.terms_iter();
    while let Some(t) = it.next() {
        if *t == *needle {
            return Some(t.clone());
        }
    }
    None
}

#[test]
fn to_string_and_back() {
    let cases: Vec<Expression> = vec![
        Expression::from_parts(vec![Term::Nonterminal(String::from("dna"))]),
        Expression::from_parts(vec![
            Term::Terminal(String::from("A")),
            Term::Nonterminal(String::from("dna")),
        ]),
        Expression::from_parts(vec![
            Term::Terminal(String::from("say \"hi\"")),
            Term::Terminal(String::from("it's")),
        ]),
        Expression::from_parts(vec![
            Term::Nonterminal(String::from("a b")),
            Term::Terminal(String::from(" ")),
        ]),
    ];
    for expr in cases {
        let to_string = expr.render();
        let from_str = Expression::from_str(&to_string);
        assert_eq!(Ok(expr), from_str);
    }
}

#[test]
fn new_expressions() {
    let t1: Term = Term::Terminal(String::from("terminal"));
    let nt1: Term = Term::Nonterminal(String::from("nonterminal"));
    let t2: Term = Term::Terminal(String::from("terminal"));
    let nt2: Term = Term::Nonterminal(String::from("nonterminal"));

    let e1: Expression = Expression::from_parts(vec![nt1, t1]);
    let mut e2: Expression = Expression::new();
    e2.add_term(nt2);
    e2.add_term(t2);

    assert_eq!(e1, e2);
}

#[test]
fn add_term() {
    let mut terms = vec![
        Term::Terminal(String::from("A")),
        Term::Terminal(String::from("C")),
        Term::Terminal(String::from("G")),
    ];

    let mut dna_expression = Expression::from_parts(terms.clone());
    assert_eq!(iter_count(&dna_expression), terms.len());

    // oops forgot "T"
    let forgotten = Term::Terminal(String::from("T"));
    dna_expression.add_term(forgotten.clone());
    terms.push(forgotten);
    assert_eq!(iter_count(&dna_expression), terms.len());

    // check all terms are there
    let mut it = dna_expression.terms_iter();
    while let Some(term) = it.next() {
        assert!(terms.contains(term), "{:?} was not in terms", term);
    }
}

#[test]
fn remove_term() {
    let terms = vec![
        Term::Terminal(String::from("A")),
        Term::Terminal(String::from("C")),
        Term::Terminal(String::from("G")),
        Term::Terminal(String::from("T")),
        Term::Terminal(String::from("Z")),
    ];

    let mut dna_expression = Expression::from_parts(terms.clone());
    assert_eq!(iter_count(&dna_expression), terms.len());

    // oops "Z" isn't a dna base
    let accident = Term::Terminal(String::from("Z"));
    let removed = dna_expression.remove_term(&accident);

    // the removed element should be the accident
    assert_eq!(Some(accident.clone()), removed);
    // number of terms should have decreased
    assert_eq!(iter_count(&dna_expression), terms.len() - 1);
    // the accident should no longer be found in the terms
    assert_eq!(iter_find(&dna_expression, &accident), None);
}

#[test]
fn remove_nonexistent_term() {
    let terms = vec![
        Term::Terminal(String::from("A")),
        Term::Terminal(String::from("C")),
        Term::Terminal(String::from("G")),
        Term::Terminal(String::from("T")),
    ];

    let mut dna_expression = Expression::from_parts(terms.clone());
    assert_eq!(iter_count(&dna_expression), terms.len());

    // oops "Z" isn't a dna base
    let nonexistent = Term::Terminal(String::from("Z"));
    let removed = dna_expression.remove_term(&nonexistent);

    // the nonexistent term should not be found in the terms
    assert_eq!(iter_find(&dna_expression, &nonexistent), None);
    // no term should have been removed
    assert_eq!(None, removed);
    // number of terms should not have decreased
    assert_eq!(iter_count(&dna_expression), terms.len());
}

#[test]
fn parse_complete() {
    let expression = Expression::from_parts(vec![
        Term::Nonterminal(String::from("base")),
        Term::Nonterminal(String::from("dna")),
    ]);
    assert_eq!(Ok(expression), Expression::from_str("<base> <dna>"));
}

#[test]
fn parse_error() {
    let expression = Expression::from_str("<base> <dna");
    assert!(expression.is_err(), "{:?} should be error", expression);

    let error = expression.unwrap_err();
    match error {
        Error::ParseError(_) => (),
        _ => panic!("{:?} should be should be error", error),
    }
}

#[test]
fn parse_incomplete() {
    let result = Expression::from_str("");
    assert!(result.is_err(), "{:?} should be err", result);
    match result {
        Err(e) => match e {
            Error::ParseIncomplete(_) => (),
            e => panic!("should should be Error::ParseIncomplete: {:?}", e),
        },
        Ok(s) => panic!("should should be Error::ParseIncomplete: {:?}", s),
    }
}
