use vstd::prelude::*;
use crate::error::{Error, ErrorKind};
use crate::expression::{terms_view, Expression};
use crate::grammar::{prods_view, Grammar};
use crate::production::{exprs_view, Production, SpecProduction};
use crate::term::{wf_term, SpecTerm, Term};

verus! {

/// Whitespace between tokens: space, tab, or a line boundary.
pub open spec fn is_ws(c: char) -> bool {
    c == ' ' || c == '\t' || c == '\n' || c == '\r'
}

/// Whitespace within one line: the separator between terms of an expression.
pub open spec fn is_st(c: char) -> bool {
    c == ' ' || c == '\t'
}

/// Whether a character can open a term: a bracket or a quote.
pub open spec fn begins_term(c: char) -> bool {
    c == '<' || c == '"' || c == '\''
}

/// The first position at or after `i` whose character is not whitespace, or
/// the end of the input.
pub open spec fn skip_all(s: Seq<char>, i: int) -> int
    decreases s.len() - i,
{
    if 0 <= i < s.len() && is_ws(s[i]) {
        skip_all(s, i + 1)
    } else {
        i
    }
}

/// The first position at or after `i` whose character is not a space or tab,
/// or the end of the input.
pub open spec fn skip_st(s: Seq<char>, i: int) -> int
    decreases s.len() - i,
{
    if 0 <= i < s.len() && is_st(s[i]) {
        skip_st(s, i + 1)
    } else {
        i
    }
}

/// The first position at or after `i` holding the character `c`, or the
/// length of the input if there is none.
pub open spec fn find_char(s: Seq<char>, i: int, c: char) -> int
    decreases s.len() - i,
{
    if 0 <= i < s.len() {
        if s[i] == c {
            i
        } else {
            find_char(s, i + 1, c)
        }
    } else {
        s.len() as int
    }
}

/// Parse one term at position `i`: `<name>`, `"literal"` or `'literal'`.
/// An unterminated bracket or quote, or an empty name or literal, is
/// malformed; input that ends where a term is required is incomplete.
pub open spec fn parse_term(s: Seq<char>, i: int) -> Result<(SpecTerm, int), ErrorKind> {
    if i < 0 {
        Err(ErrorKind::Malformed)
    } else if i >= s.len() {
        Err(ErrorKind::Incomplete)
    } else if s[i] == '<' {
        let j = find_char(s, i + 1, '>');
        if j >= s.len() {
            Err(ErrorKind::Malformed)
        } else if j == i + 1 {
            Err(ErrorKind::Malformed)
        } else {
            Ok((SpecTerm::Nonterminal(s.subrange(i + 1, j)), j + 1))
        }
    } else if s[i] == '"' || s[i] == '\'' {
        let j = find_char(s, i + 1, s[i]);
        if j >= s.len() {
            Err(ErrorKind::Malformed)
        } else if j == i + 1 {
            Err(ErrorKind::Malformed)
        } else {
            Ok((SpecTerm::Terminal(s.subrange(i + 1, j)), j + 1))
        }
    } else {
        Err(ErrorKind::Malformed)
    }
}

pub proof fn lemma_find_char_range(s: Seq<char>, i: int, c: char)
    requires
        0 <= i <= s.len(),
    ensures
        i <= find_char(s, i, c) <= s.len(),
    decreases s.len() - i,
{
    if i < s.len() && s[i] != c {
        lemma_find_char_range(s, i + 1, c);
    }
}

pub proof fn lemma_skip_all_range(s: Seq<char>, i: int)
    requires
        0 <= i <= s.len(),
    ensures
        i <= skip_all(s, i) <= s.len(),
    decreases s.len() - i,
{
    if i < s.len() && is_ws(s[i]) {
        lemma_skip_all_range(s, i + 1);
    }
}

pub proof fn lemma_skip_st_range(s: Seq<char>, i: int)
    requires
        0 <= i <= s.len(),
    ensures
        i <= skip_st(s, i) <= s.len(),
    decreases s.len() - i,
{
    if i < s.len() && is_st(s[i]) {
        lemma_skip_st_range(s, i + 1);
    }
}

/// A successful term parse always advances the cursor and stays in bounds.
pub proof fn lemma_parse_term_range(s: Seq<char>, i: int)
    ensures
        parse_term(s, i) matches Ok((t, j)) ==> i < j <= s.len(),
{
    if 0 <= i < s.len() && (s[i] == '<' || s[i] == '"' || s[i] == '\'') {
        let c: char = if s[i] == '<' {
            '>'
        } else {
            s[i]
        };
        lemma_find_char_range(s, i + 1, c);
    }
}

/// Parse the remaining terms of an expression after its first term: a
/// (space-or-tab separated) term is appended as long as one begins after
/// required separating whitespace on the same line.
pub open spec fn parse_terms_more(s: Seq<char>, j: int) -> Result<(Seq<SpecTerm>, int), ErrorKind>
    decreases s.len() - j via parse_terms_more_decreases
{
    let k = skip_st(s, j);
    if k > j && k < s.len() && begins_term(s[k]) {
        match parse_term(s, k) {
            Ok((t, j2)) => match parse_terms_more(s, j2) {
                Ok((ts, e)) => Ok((seq![t] + ts, e)),
                Err(kind) => Err(kind),
            },
            Err(kind) => Err(kind),
        }
    } else {
        Ok((Seq::empty(), j))
    }
}

#[via_fn]
proof fn parse_terms_more_decreases(s: Seq<char>, j: int) {
    let k = skip_st(s, j);
    if 0 <= j <= s.len() {
        lemma_skip_st_range(s, j);
    }
    if k > j && k < s.len() && begins_term(s[k]) {
        lemma_parse_term_range(s, k);
    }
}

/// A successful parse of the remaining terms never retreats the cursor.
pub proof fn lemma_parse_terms_more_range(s: Seq<char>, j: int)
    ensures
        parse_terms_more(s, j) matches Ok((ts, e)) ==> j <= e <= s.len() || e == j,
    decreases s.len() - j,
{
    let k = skip_st(s, j);
    if 0 <= j <= s.len() {
        lemma_skip_st_range(s, j);
    }
    if k > j && k < s.len() && begins_term(s[k]) {
        lemma_parse_term_range(s, k);
        if parse_term(s, k) is Ok {
            let (t, j2) = parse_term(s, k)->Ok_0;
            lemma_parse_terms_more_range(s, j2);
        }
    }
}

/// Parse one expression at position `i`: optional leading spaces or tabs,
/// then one or more terms separated by required whitespace.
pub open spec fn parse_expression(s: Seq<char>, i: int) -> Result<(Seq<SpecTerm>, int), ErrorKind> {
    let i0 = skip_st(s, i);
    match parse_term(s, i0) {
        Ok((t, j)) => match parse_terms_more(s, j) {
            Ok((ts, e)) => Ok((seq![t] + ts, e)),
            Err(kind) => Err(kind),
        },
        Err(kind) => Err(kind),
    }
}

/// A successful expression parse advances the cursor and stays in bounds.
pub proof fn lemma_parse_expression_range(s: Seq<char>, i: int)
    ensures
        parse_expression(s, i) matches Ok((ts, e)) ==> i < e <= s.len(),
{
    let i0 = skip_st(s, i);
    if 0 <= i <= s.len() {
        lemma_skip_st_range(s, i);
    }
    lemma_parse_term_range(s, i0);
    if parse_term(s, i0) is Ok {
        let (t, j) = parse_term(s, i0)->Ok_0;
        lemma_parse_terms_more_range(s, j);
    }
}

/// Parse the remaining alternatives of a production after its first one: an
/// alternative is appended as long as a `|` follows, possibly on a new line.
pub open spec fn parse_alts_more(s: Seq<char>, j: int) -> Result<
    (Seq<Seq<SpecTerm>>, int),
    ErrorKind,
>
    decreases s.len() - j via parse_alts_more_decreases
{
    let k = skip_all(s, j);
    if 0 <= j && k < s.len() && s[k] == '|' {
        match parse_expression(s, k + 1) {
            Ok((ts, e)) => match parse_alts_more(s, e) {
                Ok((alts, e2)) => Ok((seq![ts] + alts, e2)),
                Err(kind) => Err(kind),
            },
            Err(kind) => Err(kind),
        }
    } else {
        Ok((Seq::empty(), j))
    }
}

#[via_fn]
proof fn parse_alts_more_decreases(s: Seq<char>, j: int) {
    let k = skip_all(s, j);
    if 0 <= j <= s.len() {
        lemma_skip_all_range(s, j);
    }
    if 0 <= j && k < s.len() && s[k] == '|' {
        lemma_parse_expression_range(s, k + 1);
    }
}

/// A successful parse of the remaining alternatives never retreats the cursor.
pub proof fn lemma_parse_alts_more_range(s: Seq<char>, j: int)
    ensures
        parse_alts_more(s, j) matches Ok((alts, e)) ==> j <= e && (e <= s.len() || e == j),
    decreases s.len() - j,
{
    let k = skip_all(s, j);
    if 0 <= j <= s.len() {
        lemma_skip_all_range(s, j);
    }
    if 0 <= j && k < s.len() && s[k] == '|' {
        lemma_parse_expression_range(s, k + 1);
        if parse_expression(s, k + 1) is Ok {
            let (ts, e) = parse_expression(s, k + 1)->Ok_0;
            lemma_parse_alts_more_range(s, e);
        }
    }
}

/// Parse one production at position `i`: a nonterminal left-hand side, the
/// assignment marker `::=`, then one or more alternatives separated by `|`.
/// Input that ends inside the marker, or right after it, is incomplete.
pub open spec fn parse_production(s: Seq<char>, i: int) -> Result<
    (SpecProduction, int),
    ErrorKind,
> {
    match parse_term(s, i) {
        Err(kind) => Err(kind),
        Ok((lhs, j)) => if !(lhs is Nonterminal) {
            Err(ErrorKind::Malformed)
        } else {
            let k = skip_st(s, j);
            if k >= s.len() {
                Err(ErrorKind::Incomplete)
            } else if s[k] != ':' {
                Err(ErrorKind::Malformed)
            } else if k + 1 >= s.len() {
                Err(ErrorKind::Incomplete)
            } else if s[k + 1] != ':' {
                Err(ErrorKind::Malformed)
            } else if k + 2 >= s.len() {
                Err(ErrorKind::Incomplete)
            } else if s[k + 2] != '=' {
                Err(ErrorKind::Malformed)
            } else {
                match parse_expression(s, k + 3) {
                    Err(kind) => Err(kind),
                    Ok((first, j1)) => match parse_alts_more(s, j1) {
                        Err(kind) => Err(kind),
                        Ok((alts, j2)) => Ok(
                            (SpecProduction { lhs, rhs: seq![first] + alts }, j2),
                        ),
                    },
                }
            }
        },
    }
}

/// A successful production parse advances the cursor and stays in bounds.
pub proof fn lemma_parse_production_range(s: Seq<char>, i: int)
    ensures
        parse_production(s, i) matches Ok((p, j)) ==> i < j <= s.len(),
{
    lemma_parse_term_range(s, i);
    if parse_production(s, i) matches Ok((p, j2)) {
        let (lhs, j) = parse_term(s, i)->Ok_0;
        let k = skip_st(s, j);
        lemma_skip_st_range(s, j);
        lemma_parse_expression_range(s, k + 3);
        let (first, j1) = parse_expression(s, k + 3)->Ok_0;
        lemma_parse_alts_more_range(s, j1);
    }
}

/// Parse a whole grammar from position `i`: zero or more productions
/// separated by whitespace, until the input is exhausted.
pub open spec fn parse_grammar(s: Seq<char>, i: int) -> Result<
    (Seq<SpecProduction>, int),
    ErrorKind,
>
    decreases s.len() - i via parse_grammar_decreases
{
    let k = skip_all(s, i);
    if k >= s.len() {
        Ok((Seq::empty(), k))
    } else {
        match parse_production(s, k) {
            Err(kind) => Err(kind),
            Ok((p, j)) => match parse_grammar(s, j) {
                Ok((ps, e)) => Ok((seq![p] + ps, e)),
                Err(kind) => Err(kind),
            },
        }
    }
}

#[via_fn]
proof fn parse_grammar_decreases(s: Seq<char>, i: int) {
    let k = skip_all(s, i);
    if 0 <= i <= s.len() {
        lemma_skip_all_range(s, i);
    }
    if k < s.len() {
        lemma_parse_production_range(s, k);
    }
}

/// A whole-grammar parse consumes the input up to its end.
pub proof fn lemma_parse_grammar_range(s: Seq<char>, i: int)
    requires
        0 <= i <= s.len(),
    ensures
        parse_grammar(s, i) matches Ok((ps, e)) ==> i <= e <= s.len(),
    decreases s.len() - i,
{
    let k = skip_all(s, i);
    lemma_skip_all_range(s, i);
    if k < s.len() {
        lemma_parse_production_range(s, k);
        if parse_production(s, k) is Ok {
            let (p, j) = parse_production(s, k)->Ok_0;
            lemma_parse_grammar_range(s, j);
        }
    }
}

/// Parse a term from a whole string: leading and trailing whitespace is
/// tolerated, but any other unconsumed trailing input is malformed.
pub open spec fn spec_from_str_term(s: Seq<char>) -> Result<SpecTerm, ErrorKind> {
    match parse_term(s, skip_all(s, 0)) {
        Err(kind) => Err(kind),
        Ok((t, j)) => if skip_all(s, j) == s.len() {
            Ok(t)
        } else {
            Err(ErrorKind::Malformed)
        },
    }
}

/// Parse an expression from a whole string; see [`spec_from_str_term`].
pub open spec fn spec_from_str_expression(s: Seq<char>) -> Result<Seq<SpecTerm>, ErrorKind> {
    match parse_expression(s, skip_all(s, 0)) {
        Err(kind) => Err(kind),
        Ok((ts, j)) => if skip_all(s, j) == s.len() {
            Ok(ts)
        } else {
            Err(ErrorKind::Malformed)
        },
    }
}

/// Parse a production from a whole string; see [`spec_from_str_term`].
pub open spec fn spec_from_str_production(s: Seq<char>) -> Result<SpecProduction, ErrorKind> {
    match parse_production(s, skip_all(s, 0)) {
        Err(kind) => Err(kind),
        Ok((p, j)) => if skip_all(s, j) == s.len() {
            Ok(p)
        } else {
            Err(ErrorKind::Malformed)
        },
    }
}

/// Parse a grammar from a whole string: the grammar parse itself consumes
/// every production and all whitespace up to the end of the input.
pub open spec fn spec_from_str_grammar(s: Seq<char>) -> Result<Seq<SpecProduction>, ErrorKind> {
    match parse_grammar(s, 0) {
        Err(kind) => Err(kind),
        Ok((ps, e)) => Ok(ps),
    }
}

fn exec_is_ws(c: char) -> (r: bool)
    ensures
        r == is_ws(c),
{
    c == ' ' || c == '\t' || c == '\n' || c == '\r'
}

fn exec_is_st(c: char) -> (r: bool)
    ensures
        r == is_st(c),
{
    c == ' ' || c == '\t'
}

pub(crate) fn exec_skip_all(s: &Vec<char>, i: usize) -> (r: usize)
    requires
        i <= s@.len(),
    ensures
        r as int == skip_all(s@, i as int),
        i <= r <= s@.len(),
{
    let mut j = i;
    while j < s.len()
        invariant
            i <= j <= s@.len(),
            skip_all(s@, i as int) == skip_all(s@, j as int),
        decreases s@.len() - j,
    {
        if !exec_is_ws(s[j]) {
            return j;
        }
        j = j + 1;
    }
    j
}

fn exec_skip_st(s: &Vec<char>, i: usize) -> (r: usize)
    requires
        i <= s@.len(),
    ensures
        r as int == skip_st(s@, i as int),
        i <= r <= s@.len(),
{
    let mut j = i;
    while j < s.len()
        invariant
            i <= j <= s@.len(),
            skip_st(s@, i as int) == skip_st(s@, j as int),
        decreases s@.len() - j,
    {
        if !exec_is_st(s[j]) {
            return j;
        }
        j = j + 1;
    }
    j
}

fn exec_find_char(s: &Vec<char>, i: usize, c: char) -> (r: usize)
    requires
        i <= s@.len(),
    ensures
        r as int == find_char(s@, i as int, c),
        i <= r <= s@.len(),
{
    let mut j = i;
    while j < s.len()
        invariant
            i <= j <= s@.len(),
            find_char(s@, i as int, c) == find_char(s@, j as int, c),
        decreases s@.len() - j,
    {
        if s[j] == c {
            return j;
        }
        j = j + 1;
    }
    j
}

fn malformed_at(what: &str, pos: usize) -> (e: Error)
    ensures
        e.kind() == ErrorKind::Malformed,
{
    Error::ParseError(crate::text::context_message(what, pos))
}

fn incomplete_at(what: &str, pos: usize) -> (e: Error)
    ensures
        e.kind() == ErrorKind::Incomplete,
{
    Error::ParseIncomplete(crate::text::context_message(what, pos))
}

/// Parse one term of the input, from position `i`; on success the advanced
/// cursor is returned beside the term.
pub(crate) fn exec_parse_term(s: &Vec<char>, i: usize) -> (r: Result<(Term, usize), Error>)
    requires
        i <= s@.len(),
    ensures
        parse_term(s@, i as int) matches Ok(p) ==> (r matches Ok(q) && q.0@ == p.0 && q.1 as int
            == p.1 && q.1 <= s@.len()),
        parse_term(s@, i as int) matches Err(k) ==> (r matches Err(e) && e.kind() == k),
{
    if i >= s.len() {
        return Err(incomplete_at("a term is expected, but the input ends, at character ", i));
    }
    let c = s[i];
    if c == '<' {
        let j = exec_find_char(s, i + 1, '>');
        if j >= s.len() {
            return Err(malformed_at("an unterminated bracket opens at character ", i));
        }
        if j == i + 1 {
            return Err(malformed_at("an empty nonterminal name stands at character ", i));
        }
        let name = crate::text::string_from_range(s, i + 1, j);
        Ok((Term::Nonterminal(name), j + 1))
    } else if c == '"' || c == '\'' {
        let j = exec_find_char(s, i + 1, c);
        if j >= s.len() {
            return Err(malformed_at("an unterminated quote opens at character ", i));
        }
        if j == i + 1 {
            return Err(malformed_at("an empty terminal literal stands at character ", i));
        }
        let lit = crate::text::string_from_range(s, i + 1, j);
        Ok((Term::Terminal(lit), j + 1))
    } else {
        Err(malformed_at("no term can begin at character ", i))
    }
}

/// Parse one expression of the input, from position `i`; on success the
/// advanced cursor is returned beside the expression.
pub(crate) fn exec_parse_expression(s: &Vec<char>, i: usize) -> (r: Result<
    (Expression, usize),
    Error,
>)
    requires
        i <= s@.len(),
    ensures
        parse_expression(s@, i as int) matches Ok(p) ==> (r matches Ok(q) && q.0@ == p.0 && q.1
            as int == p.1 && q.1 <= s@.len()),
        parse_expression(s@, i as int) matches Err(k) ==> (r matches Err(e) && e.kind() == k),
{
    let ghost goal = parse_expression(s@, i as int);
    let i0 = exec_skip_st(s, i);
    let first = match exec_parse_term(s, i0) {
        Ok(p) => p,
        Err(e) => {
            return Err(e);
        },
    };
    let mut terms: Vec<Term> = Vec::new();
    terms.push(first.0);
    let mut cur: usize = first.1;
    proof {
        assert(terms_view(terms@) =~= seq![first.0@]);
    }
    loop
        invariant
            cur <= s@.len(),
            goal == parse_expression(s@, i as int),
            match parse_terms_more(s@, cur as int) {
                Ok(p) => goal == Ok::<(Seq<SpecTerm>, int), ErrorKind>(
                    (terms_view(terms@) + p.0, p.1),
                ),
                Err(kind) => goal == Err::<(Seq<SpecTerm>, int), ErrorKind>(kind),
            },
        ensures
            cur <= s@.len(),
            goal == Ok::<(Seq<SpecTerm>, int), ErrorKind>((terms_view(terms@), cur as int)),
        decreases s@.len() - cur,
    {
        let ghost cur0 = cur as int;
        let ghost tv0 = terms_view(terms@);
        let k = exec_skip_st(s, cur);
        if !(k > cur && k < s.len()) {
            proof {
                assert(parse_terms_more(s@, cur0) == Ok::<(Seq<SpecTerm>, int), ErrorKind>(
                    (Seq::empty(), cur0),
                ));
                assert(tv0 + Seq::<SpecTerm>::empty() =~= tv0);
            }
            break ;
        }
        let c = s[k];
        if !(c == '<' || c == '"' || c == '\'') {
            proof {
                assert(!begins_term(s@[k as int]));
                assert(parse_terms_more(s@, cur0) == Ok::<(Seq<SpecTerm>, int), ErrorKind>(
                    (Seq::empty(), cur0),
                ));
                assert(tv0 + Seq::<SpecTerm>::empty() =~= tv0);
            }
            break ;
        }
        proof {
            assert(begins_term(s@[k as int]));
            lemma_parse_term_range(s@, k as int);
        }
        match exec_parse_term(s, k) {
            Ok((t, j2)) => {
                proof {
                    assert(parse_term(s@, k as int) == Ok::<(SpecTerm, int), ErrorKind>(
                        (t@, j2 as int),
                    ));
                    match parse_terms_more(s@, j2 as int) {
                        Ok(p) => {
                            assert(parse_terms_more(s@, cur0) == Ok::<
                                (Seq<SpecTerm>, int),
                                ErrorKind,
                            >((seq![t@] + p.0, p.1)));
                            assert(tv0 + (seq![t@] + p.0) =~= tv0.push(t@) + p.0);
                        },
                        Err(kind) => {
                            assert(parse_terms_more(s@, cur0) == Err::<
                                (Seq<SpecTerm>, int),
                                ErrorKind,
                            >(kind));
                        },
                    }
                }
                terms.push(t);
                cur = j2;
                proof {
                    assert(terms_view(terms@) =~= tv0.push(t@));
                }
            },
            Err(e) => {
                proof {
                    assert(parse_terms_more(s@, cur0) is Err);
                }
                return Err(e);
            },
        }
    }
    Ok((Expression::from_parts(terms), cur))
}

/// Parse one production of the input, from position `i`; on success the
/// advanced cursor is returned beside the production.
pub(crate) fn exec_parse_production(s: &Vec<char>, i: usize) -> (r: Result<
    (Production, usize),
    Error,
>)
    requires
        i <= s@.len(),
    ensures
        parse_production(s@, i as int) matches Ok(p) ==> (r matches Ok(q) && q.0@ == p.0 && q.1
            as int == p.1 && q.1 <= s@.len()),
        parse_production(s@, i as int) matches Err(k) ==> (r matches Err(e) && e.kind() == k),
{
    let ghost goal = parse_production(s@, i as int);
    let (lhs, j) = match exec_parse_term(s, i) {
        Ok(p) => p,
        Err(e) => {
            return Err(e);
        },
    };
    let lhs_is_nonterminal = match &lhs {
        Term::Nonterminal(_) => true,
        Term::Terminal(_) => false,
    };
    if !lhs_is_nonterminal {
        return Err(
            malformed_at("the left-hand side must be a nonterminal, at character ", i),
        );
    }
    let k = exec_skip_st(s, j);
    if k >= s.len() {
        return Err(
            incomplete_at("the input ends where the assignment marker is expected, at character ", k),
        );
    }
    if s[k] != ':' {
        return Err(malformed_at("the assignment marker is expected at character ", k));
    }
    if k + 1 >= s.len() {
        return Err(
            incomplete_at("the input ends inside the assignment marker, at character ", k),
        );
    }
    if s[k + 1] != ':' {
        return Err(malformed_at("the assignment marker is expected at character ", k));
    }
    if k + 2 >= s.len() {
        return Err(
            incomplete_at("the input ends inside the assignment marker, at character ", k),
        );
    }
    if s[k + 2] != '=' {
        return Err(malformed_at("the assignment marker is expected at character ", k));
    }
    let (first, j1) = match exec_parse_expression(s, k + 3) {
        Ok(p) => p,
        Err(e) => {
            return Err(e);
        },
    };
    let ghost fv = first@;
    let mut alts: Vec<Expression> = Vec::new();
    alts.push(first);
    let mut cur: usize = j1;
    proof {
        assert(exprs_view(alts@) =~= seq![fv]);
    }
    loop
        invariant
            cur <= s@.len(),
            goal == parse_production(s@, i as int),
            match parse_alts_more(s@, cur as int) {
                Ok(p) => goal == Ok::<(SpecProduction, int), ErrorKind>(
                    (SpecProduction { lhs: lhs@, rhs: exprs_view(alts@) + p.0 }, p.1),
                ),
                Err(kind) => goal == Err::<(SpecProduction, int), ErrorKind>(kind),
            },
        ensures
            cur <= s@.len(),
            goal == Ok::<(SpecProduction, int), ErrorKind>(
                (SpecProduction { lhs: lhs@, rhs: exprs_view(alts@) }, cur as int),
            ),
        decreases s@.len() - cur,
    {
        let ghost cur0 = cur as int;
        let ghost av0 = exprs_view(alts@);
        let k2 = exec_skip_all(s, cur);
        if k2 >= s.len() {
            proof {
                assert(parse_alts_more(s@, cur0) == Ok::<(Seq<Seq<SpecTerm>>, int), ErrorKind>(
                    (Seq::empty(), cur0),
                ));
                assert(av0 + Seq::<Seq<SpecTerm>>::empty() =~= av0);
            }
            break ;
        }
        if s[k2] != '|' {
            proof {
                assert(parse_alts_more(s@, cur0) == Ok::<(Seq<Seq<SpecTerm>>, int), ErrorKind>(
                    (Seq::empty(), cur0),
                ));
                assert(av0 + Seq::<Seq<SpecTerm>>::empty() =~= av0);
            }
            break ;
        }
        proof {
            lemma_parse_expression_range(s@, k2 as int + 1);
        }
        match exec_parse_expression(s, k2 + 1) {
            Ok((a, j2)) => {
                proof {
                    assert(parse_expression(s@, k2 as int + 1) == Ok::<
                        (Seq<SpecTerm>, int),
                        ErrorKind,
                    >((a@, j2 as int)));
                    match parse_alts_more(s@, j2 as int) {
                        Ok(p) => {
                            assert(parse_alts_more(s@, cur0) == Ok::<
                                (Seq<Seq<SpecTerm>>, int),
                                ErrorKind,
                            >((seq![a@] + p.0, p.1)));
                            assert(av0 + (seq![a@] + p.0) =~= av0.push(a@) + p.0);
                        },
                        Err(kind) => {
                            assert(parse_alts_more(s@, cur0) == Err::<
                                (Seq<Seq<SpecTerm>>, int),
                                ErrorKind,
                            >(kind));
                        },
                    }
                }
                alts.push(a);
                cur = j2;
                proof {
                    assert(exprs_view(alts@) =~= av0.push(a@));
                }
            },
            Err(e) => {
                proof {
                    assert(parse_alts_more(s@, cur0) is Err);
                }
                return Err(e);
            },
        }
    }
    let prod = Production::from_parts(lhs, alts);
    Ok((prod, cur))
}

/// Parse a whole grammar of the input, from position `i`: productions are
/// read until the input is exhausted.
pub(crate) fn exec_parse_grammar(s: &Vec<char>, i: usize) -> (r: Result<(Grammar, usize), Error>)
    requires
        i <= s@.len(),
    ensures
        parse_grammar(s@, i as int) matches Ok(p) ==> (r matches Ok(q) && q.0@ == p.0 && q.1 as int
            == p.1),
        parse_grammar(s@, i as int) matches Err(k) ==> (r matches Err(e) && e.kind() == k),
{
    let ghost goal = parse_grammar(s@, i as int);
    let mut prods: Vec<Production> = Vec::new();
    let mut cur: usize = i;
    proof {
        assert(prods_view(prods@) =~= Seq::<SpecProduction>::empty());
    }
    loop
        invariant
            cur <= s@.len(),
            goal == parse_grammar(s@, i as int),
            match parse_grammar(s@, cur as int) {
                Ok(p) => goal == Ok::<(Seq<SpecProduction>, int), ErrorKind>(
                    (prods_view(prods@) + p.0, p.1),
                ),
                Err(kind) => goal == Err::<(Seq<SpecProduction>, int), ErrorKind>(kind),
            },
        ensures
            goal == Ok::<(Seq<SpecProduction>, int), ErrorKind>(
                (prods_view(prods@), cur as int),
            ),
        decreases s@.len() - cur,
    {
        let ghost cur0 = cur as int;
        let ghost pv0 = prods_view(prods@);
        let k = exec_skip_all(s, cur);
        if k >= s.len() {
            proof {
                assert(parse_grammar(s@, cur0) == Ok::<(Seq<SpecProduction>, int), ErrorKind>(
                    (Seq::empty(), k as int),
                ));
                assert(pv0 + Seq::<SpecProduction>::empty() =~= pv0);
            }
            cur = k;
            break ;
        }
        proof {
            lemma_parse_production_range(s@, k as int);
        }
        match exec_parse_production(s, k) {
            Ok((p, j)) => {
                proof {
                    assert(parse_production(s@, k as int) == Ok::<(SpecProduction, int), ErrorKind>(
                        (p@, j as int),
                    ));
                    match parse_grammar(s@, j as int) {
                        Ok(rest) => {
                            assert(parse_grammar(s@, cur0) == Ok::<
                                (Seq<SpecProduction>, int),
                                ErrorKind,
                            >((seq![p@] + rest.0, rest.1)));
                            assert(pv0 + (seq![p@] + rest.0) =~= pv0.push(p@) + rest.0);
                        },
                        Err(kind) => {
                            assert(parse_grammar(s@, cur0) == Err::<
                                (Seq<SpecProduction>, int),
                                ErrorKind,
                            >(kind));
                        },
                    }
                }
                let ghost pview = p@;
                prods.push(p);
                cur = j;
                proof {
                    assert(prods_view(prods@) =~= pv0.push(pview));
                }
            },
            Err(e) => {
                proof {
                    assert(parse_grammar(s@, cur0) is Err);
                }
                return Err(e);
            },
        }
    }
    Ok((Grammar::from_parts(prods), cur))
}

/// No position strictly before the found one holds the sought character.
pub proof fn lemma_find_char_no_hit(s: Seq<char>, i: int, c: char)
    requires
        0 <= i <= s.len(),
    ensures
        forall|m: int| i <= m < find_char(s, i, c) ==> s[m] != c,
    decreases s.len() - i,
{
    if i < s.len() && s[i] != c {
        lemma_find_char_no_hit(s, i + 1, c);
    }
}

/// Any term produced by parsing is well formed: its name or literal is
/// nonempty, a name holds no `>`, and a literal spares its quote character.
pub proof fn lemma_parse_term_wf(s: Seq<char>, i: int)
    ensures
        parse_term(s, i) matches Ok(p) ==> wf_term(p.0),
{
    if 0 <= i < s.len() && (s[i] == '<' || s[i] == '"' || s[i] == '\'') {
        let c: char = if s[i] == '<' {
            '>'
        } else {
            s[i]
        };
        lemma_find_char_range(s, i + 1, c);
        lemma_find_char_no_hit(s, i + 1, c);
        let j = find_char(s, i + 1, c);
        if j < s.len() && j != i + 1 {
            let content = s.subrange(i + 1, j);
            assert forall|k: int| 0 <= k < content.len() implies content[k] != c by {
                assert(content[k] == s[i + 1 + k]);
            }
            assert(crate::text::no_char(content, c));
        }
    }
}

/// All terms produced while extending an expression are well formed.
pub proof fn lemma_parse_terms_more_wf(s: Seq<char>, j: int)
    ensures
        parse_terms_more(s, j) matches Ok(p) ==> forall|k: int|
            0 <= k < p.0.len() ==> wf_term(#[trigger] p.0[k]),
    decreases s.len() - j,
{
    let k = skip_st(s, j);
    if 0 <= j <= s.len() {
        lemma_skip_st_range(s, j);
    }
    if k > j && k < s.len() && begins_term(s[k]) {
        lemma_parse_term_wf(s, k);
        lemma_parse_term_range(s, k);
        if parse_term(s, k) is Ok {
            let (t, j2) = parse_term(s, k)->Ok_0;
            lemma_parse_terms_more_wf(s, j2);
        }
    }
}

/// Any expression produced by parsing is well formed: it holds at least one
/// term, and every term is well formed.
pub proof fn lemma_parse_expression_wf(s: Seq<char>, i: int)
    ensures
        parse_expression(s, i) matches Ok(p) ==> crate::expression::wf_expression(p.0),
{
    let i0 = skip_st(s, i);
    lemma_parse_term_wf(s, i0);
    if parse_term(s, i0) is Ok {
        let (t, j) = parse_term(s, i0)->Ok_0;
        lemma_parse_terms_more_wf(s, j);
    }
}

/// All alternatives produced while extending a production are well formed.
pub proof fn lemma_parse_alts_more_wf(s: Seq<char>, j: int)
    ensures
        parse_alts_more(s, j) matches Ok(p) ==> forall|k: int|
            0 <= k < p.0.len() ==> crate::expression::wf_expression(#[trigger] p.0[k]),
    decreases s.len() - j,
{
    let k = skip_all(s, j);
    if 0 <= j <= s.len() {
        lemma_skip_all_range(s, j);
    }
    if 0 <= j && k < s.len() && s[k] == '|' {
        lemma_parse_expression_wf(s, k + 1);
        lemma_parse_expression_range(s, k + 1);
        if parse_expression(s, k + 1) is Ok {
            let (ts, e) = parse_expression(s, k + 1)->Ok_0;
            lemma_parse_alts_more_wf(s, e);
        }
    }
}

/// Any production produced by parsing is well formed: a well-formed
/// nonterminal left-hand side and at least one well-formed alternative.
pub proof fn lemma_parse_production_wf(s: Seq<char>, i: int)
    ensures
        parse_production(s, i) matches Ok(p) ==> crate::production::wf_production(p.0),
{
    lemma_parse_term_wf(s, i);
    if parse_production(s, i) is Ok {
        let (lhs, j) = parse_term(s, i)->Ok_0;
        let k = skip_st(s, j);
        lemma_parse_expression_wf(s, k + 3);
        let (first, j1) = parse_expression(s, k + 3)->Ok_0;
        lemma_parse_alts_more_wf(s, j1);
    }
}

/// Any grammar produced by parsing is well formed: every production in it is.
pub proof fn lemma_parse_grammar_wf(s: Seq<char>, i: int)
    requires
        0 <= i <= s.len(),
    ensures
        parse_grammar(s, i) matches Ok(p) ==> crate::grammar::wf_grammar(p.0),
    decreases s.len() - i,
{
    let k = skip_all(s, i);
    lemma_skip_all_range(s, i);
    if k < s.len() {
        lemma_parse_production_wf(s, k);
        lemma_parse_production_range(s, k);
        if parse_production(s, k) is Ok {
            let (p, j) = parse_production(s, k)->Ok_0;
            lemma_parse_grammar_wf(s, j);
        }
    }
}

/// Report unconsumed trailing input: there is enough input, it is simply
/// wrong, so this is a malformed-input failure.
pub(crate) fn trailing_input_error(pos: usize) -> (e: Error)
    ensures
        e.kind() == ErrorKind::Malformed,
{
    malformed_at("unconsumed input remains at character ", pos)
}

} // verus!
