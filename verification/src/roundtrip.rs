use vstd::prelude::*;
use crate::error::ErrorKind;
use crate::expression::{expr_tail_text, expr_text, wf_expression};
use crate::grammar::{grammar_text, wf_grammar};
use crate::parsers::{
    begins_term, find_char, is_st, is_ws, lemma_skip_all_range, lemma_skip_st_range,
    parse_alts_more, parse_expression, parse_grammar, parse_production, parse_term,
    parse_terms_more, skip_all, skip_st, spec_from_str_expression, spec_from_str_grammar,
    spec_from_str_production, spec_from_str_term,
};
use crate::production::{alts_tail_text, prod_text, wf_production, SpecProduction};
use crate::term::{term_text, wf_term, SpecTerm};
use crate::text::no_char;

verus! {

/// A run of spaces and tabs ending at a boundary is skipped exactly.
pub proof fn lemma_skip_st_is(s: Seq<char>, i: int, m: int)
    requires
        0 <= i <= m <= s.len(),
        forall|j: int| i <= j < m ==> is_st(#[trigger] s[j]),
        m == s.len() || !is_st(s[m]),
    ensures
        skip_st(s, i) == m,
    decreases m - i,
{
    if i < m {
        lemma_skip_st_is(s, i + 1, m);
    }
}

/// A run of whitespace ending at a boundary is skipped exactly.
pub proof fn lemma_skip_all_is(s: Seq<char>, i: int, m: int)
    requires
        0 <= i <= m <= s.len(),
        forall|j: int| i <= j < m ==> is_ws(#[trigger] s[j]),
        m == s.len() || !is_ws(s[m]),
    ensures
        skip_all(s, i) == m,
    decreases m - i,
{
    if i < m {
        lemma_skip_all_is(s, i + 1, m);
    }
}

/// The first occurrence of a character is found exactly.
pub proof fn lemma_find_char_is(s: Seq<char>, i: int, m: int, c: char)
    requires
        0 <= i <= m <= s.len(),
        forall|j: int| i <= j < m ==> s[j] != c,
        m < s.len() ==> s[m] == c,
    ensures
        find_char(s, i, c) == m,
    decreases m - i,
{
    if i < m {
        lemma_find_char_is(s, i + 1, m, c);
    }
}

/// The first character of a well-formed term's text opens that term.
pub proof fn lemma_term_text_head(t: SpecTerm)
    requires
        wf_term(t),
    ensures
        term_text(t).len() >= 3,
        begins_term(term_text(t)[0]),
        !is_ws(term_text(t)[0]),
        !is_st(term_text(t)[0]),
        term_text(t)[0] != '|',
        t is Nonterminal ==> term_text(t)[0] == '<',
{
    match t {
        SpecTerm::Nonterminal(name) => {
            assert(term_text(t)[0] == '<');
        },
        SpecTerm::Terminal(x) => {
            if no_char(x, '"') {
                assert(term_text(t)[0] == '"');
            } else {
                assert(term_text(t)[0] == '\'');
            }
        },
    }
}

/// Parsing reads a well-formed term's canonical text back as that term:
/// wherever the text stands in a larger input, the parse returns the term
/// itself with the cursor advanced past the text.
pub proof fn lemma_parse_term_render(s: Seq<char>, i: int, t: SpecTerm)
    requires
        wf_term(t),
        0 <= i,
        i + term_text(t).len() <= s.len(),
        s.subrange(i, i + term_text(t).len() as int) == term_text(t),
    ensures
        parse_term(s, i) == Ok::<(SpecTerm, int), ErrorKind>((t, i + term_text(t).len() as int)),
{
    let txt = term_text(t);
    let n = txt.len() as int;
    assert forall|k: int| 0 <= k < n implies s[i + k] == txt[k] by {
        assert(s.subrange(i, i + n)[k] == s[i + k]);
    }
    match t {
        SpecTerm::Nonterminal(name) => {
            let ln = name.len() as int;
            assert(txt[0] == '<');
            assert(txt[ln + 1] == '>');
            assert forall|j: int| i + 1 <= j < i + 1 + ln implies s[j] != '>' by {
                assert(txt[j - i] == name[j - i - 1]);
                assert(name[j - i - 1] != '>');
            }
            assert(s[i + 1 + ln] == '>');
            lemma_find_char_is(s, i + 1, i + 1 + ln, '>');
            assert(s.subrange(i + 1, i + 1 + ln) =~= name) by {
                assert forall|k: int| 0 <= k < ln implies s.subrange(i + 1, i + 1 + ln)[k]
                    == name[k] by {
                    assert(s.subrange(i + 1, i + 1 + ln)[k] == s[i + 1 + k]);
                    assert(txt[1 + k] == name[k]);
                }
            }
        },
        SpecTerm::Terminal(x) => {
            let q: char = if no_char(x, '"') {
                '"'
            } else {
                '\''
            };
            let lx = x.len() as int;
            assert(txt[0] == q);
            assert(txt[lx + 1] == q);
            assert(s[i] == q);
            assert(s[i] != '<');
            assert forall|j: int| i + 1 <= j < i + 1 + lx implies s[j] != q by {
                assert(txt[j - i] == x[j - i - 1]);
                assert(no_char(x, q));
            }
            assert(s[i + 1 + lx] == q);
            lemma_find_char_is(s, i + 1, i + 1 + lx, q);
            assert(s.subrange(i + 1, i + 1 + lx) =~= x) by {
                assert forall|k: int| 0 <= k < lx implies s.subrange(i + 1, i + 1 + lx)[k]
                    == x[k] by {
                    assert(s.subrange(i + 1, i + 1 + lx)[k] == s[i + 1 + k]);
                    assert(txt[1 + k] == x[k]);
                }
            }
        },
    }
}

/// Parsing reads the canonical text of the terms after the first one back as
/// exactly those terms, stopping at the end of the text provided no space or
/// tab follows it.
pub proof fn lemma_parse_tail_render(s: Seq<char>, j: int, rest: Seq<SpecTerm>)
    requires
        forall|k: int| 0 <= k < rest.len() ==> wf_term(#[trigger] rest[k]),
        0 <= j,
        j + expr_tail_text(rest).len() <= s.len(),
        s.subrange(j, j + expr_tail_text(rest).len() as int) == expr_tail_text(rest),
        j + expr_tail_text(rest).len() == s.len() || !is_st(
            s[j + expr_tail_text(rest).len() as int],
        ),
    ensures
        parse_terms_more(s, j) == Ok::<(Seq<SpecTerm>, int), ErrorKind>(
            (rest, j + expr_tail_text(rest).len() as int),
        ),
    decreases rest.len(),
{
    let txt = expr_tail_text(rest);
    let n = txt.len() as int;
    assert forall|k: int| 0 <= k < n implies s[j + k] == txt[k] by {
        assert(s.subrange(j, j + n)[k] == s[j + k]);
    }
    if rest.len() == 0 {
        lemma_skip_st_is(s, j, j);
        assert(rest =~= Seq::<SpecTerm>::empty());
    } else {
        let t0 = rest[0];
        let tt = term_text(t0);
        let lt = tt.len() as int;
        let tl = expr_tail_text(rest.drop_first());
        lemma_term_text_head(t0);
        assert(txt[0] == ' ');
        assert(txt[1] == tt[0]);
        assert(s[j] == ' ');
        assert(s[j + 1] == tt[0]);
        lemma_skip_st_is(s, j, j + 1);
        assert(skip_st(s, j) == j + 1);
        assert(begins_term(s[j + 1]));
        assert(s.subrange(j + 1, j + 1 + lt) =~= tt) by {
            assert forall|k: int| 0 <= k < lt implies s.subrange(j + 1, j + 1 + lt)[k] == tt[k] by {
                assert(s.subrange(j + 1, j + 1 + lt)[k] == s[j + 1 + k]);
                assert(txt[1 + k] == tt[k]);
            }
        }
        lemma_parse_term_render(s, j + 1, t0);
        let e1 = j + 1 + lt;
        assert(s.subrange(e1, e1 + tl.len() as int) =~= tl) by {
            assert forall|k: int| 0 <= k < tl.len() implies s.subrange(e1, e1 + tl.len() as int)[k]
                == tl[k] by {
                assert(s.subrange(e1, e1 + tl.len() as int)[k] == s[e1 + k]);
                assert(txt[1 + lt + k] == tl[k]);
            }
        }
        lemma_parse_tail_render(s, e1, rest.drop_first());
        assert(seq![t0] + rest.drop_first() =~= rest);
    }
}

/// Parsing reads a well-formed expression's canonical text back as that
/// expression, stopping at the end of the text provided no space or tab
/// follows it.
pub proof fn lemma_parse_expression_render(s: Seq<char>, i: int, ts: Seq<SpecTerm>)
    requires
        wf_expression(ts),
        0 <= i <= s.len(),
        skip_st(s, i) + expr_text(ts).len() <= s.len(),
        s.subrange(skip_st(s, i), skip_st(s, i) + expr_text(ts).len() as int) == expr_text(ts),
        skip_st(s, i) + expr_text(ts).len() == s.len() || !is_st(
            s[skip_st(s, i) + expr_text(ts).len() as int],
        ),
    ensures
        parse_expression(s, i) == Ok::<(Seq<SpecTerm>, int), ErrorKind>(
            (ts, skip_st(s, i) + expr_text(ts).len() as int),
        ),
{
    let i0 = skip_st(s, i);
    lemma_skip_st_range(s, i);
    let txt = expr_text(ts);
    let n = txt.len() as int;
    assert forall|k: int| 0 <= k < n implies s[i0 + k] == txt[k] by {
        assert(s.subrange(i0, i0 + n)[k] == s[i0 + k]);
    }
    let t0 = ts[0];
    let tt = term_text(t0);
    let lt = tt.len() as int;
    let tl = expr_tail_text(ts.drop_first());
    lemma_term_text_head(t0);
    assert(s.subrange(i0, i0 + lt) =~= tt) by {
        assert forall|k: int| 0 <= k < lt implies s.subrange(i0, i0 + lt)[k] == tt[k] by {
            assert(s.subrange(i0, i0 + lt)[k] == s[i0 + k]);
            assert(txt[k] == tt[k]);
        }
    }
    lemma_parse_term_render(s, i0, t0);
    let e1 = i0 + lt;
    assert(s.subrange(e1, e1 + tl.len() as int) =~= tl) by {
        assert forall|k: int| 0 <= k < tl.len() implies s.subrange(e1, e1 + tl.len() as int)[k]
            == tl[k] by {
            assert(s.subrange(e1, e1 + tl.len() as int)[k] == s[e1 + k]);
            assert(txt[lt + k] == tl[k]);
        }
    }
    lemma_parse_tail_render(s, e1, ts.drop_first());
    assert(seq![t0] + ts.drop_first() =~= ts);
}

/// The first character of a well-formed expression's text opens its first
/// term.
pub proof fn lemma_expr_text_head(ts: Seq<SpecTerm>)
    requires
        wf_expression(ts),
    ensures
        expr_text(ts).len() >= 3,
        begins_term(expr_text(ts)[0]),
        !is_ws(expr_text(ts)[0]),
        !is_st(expr_text(ts)[0]),
        expr_text(ts)[0] != '|',
{
    lemma_term_text_head(ts[0]);
    assert(expr_text(ts)[0] == term_text(ts[0])[0]);
}

/// The first character of a well-formed production's text opens its
/// left-hand nonterminal.
pub proof fn lemma_prod_text_head(p: SpecProduction)
    requires
        wf_production(p),
    ensures
        prod_text(p).len() >= 9,
        prod_text(p)[0] == '<',
        !is_ws(prod_text(p)[0]),
{
    lemma_term_text_head(p.lhs);
    lemma_expr_text_head(p.rhs[0]);
    assert(prod_text(p)[0] == term_text(p.lhs)[0]);
}

/// Parsing reads the canonical text of the alternatives after the first one
/// back as exactly those alternatives, stopping at the end of the text
/// provided no space, tab or alternation marker follows it.
pub proof fn lemma_parse_alts_render(s: Seq<char>, j: int, rest: Seq<Seq<SpecTerm>>)
    requires
        forall|k: int| 0 <= k < rest.len() ==> wf_expression(#[trigger] rest[k]),
        0 <= j,
        j + alts_tail_text(rest).len() <= s.len(),
        s.subrange(j, j + alts_tail_text(rest).len() as int) == alts_tail_text(rest),
        j + alts_tail_text(rest).len() == s.len() || !is_st(
            s[j + alts_tail_text(rest).len() as int],
        ),
        skip_all(s, j + alts_tail_text(rest).len() as int) == s.len() || s[skip_all(
            s,
            j + alts_tail_text(rest).len() as int,
        )] != '|',
    ensures
        parse_alts_more(s, j) == Ok::<(Seq<Seq<SpecTerm>>, int), ErrorKind>(
            (rest, j + alts_tail_text(rest).len() as int),
        ),
    decreases rest.len(),
{
    let txt = alts_tail_text(rest);
    let n = txt.len() as int;
    assert forall|k: int| 0 <= k < n implies s[j + k] == txt[k] by {
        assert(s.subrange(j, j + n)[k] == s[j + k]);
    }
    if rest.len() == 0 {
        assert(rest =~= Seq::<Seq<SpecTerm>>::empty());
    } else {
        let a0 = rest[0];
        let et = expr_text(a0);
        let le = et.len() as int;
        let tl = alts_tail_text(rest.drop_first());
        lemma_expr_text_head(a0);
        assert(txt[0] == '\n');
        assert(txt[1] == '|');
        assert(txt[2] == ' ');
        assert(txt[3] == et[0]);
        assert(s[j] == '\n');
        assert(s[j + 1] == '|');
        assert(s[j + 2] == ' ');
        assert(s[j + 3] == et[0]);
        lemma_skip_all_is(s, j, j + 1);
        lemma_skip_st_is(s, j + 2, j + 3);
        assert(s.subrange(j + 3, j + 3 + le) =~= et) by {
            assert forall|k: int| 0 <= k < le implies s.subrange(j + 3, j + 3 + le)[k] == et[k] by {
                assert(s.subrange(j + 3, j + 3 + le)[k] == s[j + 3 + k]);
                assert(txt[3 + k] == et[k]);
            }
        }
        let e1 = j + 3 + le;
        if rest.len() > 1 {
            assert(tl[0] == '\n') by {
                assert(tl == seq!['\n', '|', ' '] + expr_text(rest.drop_first()[0]) + alts_tail_text(
                    rest.drop_first().drop_first(),
                ));
            }
            assert(s[e1] == txt[3 + le]);
            assert(txt[3 + le] == tl[0]);
            assert(!is_st(s[e1]));
        }
        lemma_parse_expression_render(s, j + 2, a0);
        assert(s.subrange(e1, e1 + tl.len() as int) =~= tl) by {
            assert forall|k: int| 0 <= k < tl.len() implies s.subrange(e1, e1 + tl.len() as int)[k]
                == tl[k] by {
                assert(s.subrange(e1, e1 + tl.len() as int)[k] == s[e1 + k]);
                assert(txt[3 + le + k] == tl[k]);
            }
        }
        assert forall|k: int| 0 <= k < rest.drop_first().len() implies wf_expression(
            #[trigger] rest.drop_first()[k],
        ) by {
            assert(rest.drop_first()[k] == rest[k + 1]);
        }
        lemma_parse_alts_render(s, e1, rest.drop_first());
        assert(seq![a0] + rest.drop_first() =~= rest);
    }
}

/// Parsing reads a well-formed production's canonical text back as that
/// production, stopping at the end of the text provided no space, tab or
/// alternation marker follows it.
pub proof fn lemma_parse_production_render(s: Seq<char>, i: int, p: SpecProduction)
    requires
        wf_production(p),
        0 <= i,
        i + prod_text(p).len() <= s.len(),
        s.subrange(i, i + prod_text(p).len() as int) == prod_text(p),
        i + prod_text(p).len() == s.len() || !is_st(s[i + prod_text(p).len() as int]),
        skip_all(s, i + prod_text(p).len() as int) == s.len() || s[skip_all(
            s,
            i + prod_text(p).len() as int,
        )] != '|',
    ensures
        parse_production(s, i) == Ok::<(SpecProduction, int), ErrorKind>(
            (p, i + prod_text(p).len() as int),
        ),
{
    let txt = prod_text(p);
    let n = txt.len() as int;
    assert forall|k: int| 0 <= k < n implies s[i + k] == txt[k] by {
        assert(s.subrange(i, i + n)[k] == s[i + k]);
    }
    let tt = term_text(p.lhs);
    let lt = tt.len() as int;
    lemma_term_text_head(p.lhs);
    let e0 = expr_text(p.rhs[0]);
    let le = e0.len() as int;
    lemma_expr_text_head(p.rhs[0]);
    let tl = alts_tail_text(p.rhs.drop_first());
    assert(s.subrange(i, i + lt) =~= tt) by {
        assert forall|k: int| 0 <= k < lt implies s.subrange(i, i + lt)[k] == tt[k] by {
            assert(s.subrange(i, i + lt)[k] == s[i + k]);
            assert(txt[k] == tt[k]);
        }
    }
    lemma_parse_term_render(s, i, p.lhs);
    let j = i + lt;
    assert(txt[lt] == ' ');
    assert(txt[lt + 1] == ':');
    assert(txt[lt + 2] == ':');
    assert(txt[lt + 3] == '=');
    assert(txt[lt + 4] == ' ');
    assert(txt[lt + 5] == e0[0]);
    lemma_skip_st_is(s, j, j + 1);
    lemma_skip_st_is(s, j + 4, j + 5);
    assert(s.subrange(j + 5, j + 5 + le) =~= e0) by {
        assert forall|k: int| 0 <= k < le implies s.subrange(j + 5, j + 5 + le)[k] == e0[k] by {
            assert(s.subrange(j + 5, j + 5 + le)[k] == s[j + 5 + k]);
            assert(txt[lt + 5 + k] == e0[k]);
        }
    }
    let e1 = j + 5 + le;
    if p.rhs.len() > 1 {
        assert(tl[0] == '\n') by {
            assert(tl == seq!['\n', '|', ' '] + expr_text(p.rhs.drop_first()[0]) + alts_tail_text(
                p.rhs.drop_first().drop_first(),
            ));
        }
        assert(s[e1] == txt[lt + 5 + le]);
        assert(txt[lt + 5 + le] == tl[0]);
        assert(!is_st(s[e1]));
    }
    lemma_parse_expression_render(s, j + 4, p.rhs[0]);
    assert(s.subrange(e1, e1 + tl.len() as int) =~= tl) by {
        assert forall|k: int| 0 <= k < tl.len() implies s.subrange(e1, e1 + tl.len() as int)[k]
            == tl[k] by {
            assert(s.subrange(e1, e1 + tl.len() as int)[k] == s[e1 + k]);
            assert(txt[lt + 5 + le + k] == tl[k]);
        }
    }
    assert forall|k: int| 0 <= k < p.rhs.drop_first().len() implies wf_expression(
        #[trigger] p.rhs.drop_first()[k],
    ) by {
        assert(p.rhs.drop_first()[k] == p.rhs[k + 1]);
    }
    lemma_parse_alts_render(s, e1, p.rhs.drop_first());
    assert(seq![p.rhs[0]] + p.rhs.drop_first() =~= p.rhs);
    assert(SpecProduction { lhs: p.lhs, rhs: seq![p.rhs[0]] + p.rhs.drop_first() } == p);
}

/// Parsing reads a well-formed grammar's canonical text, standing at the end
/// of the input, back as that grammar, production by production.
pub proof fn lemma_parse_grammar_render(s: Seq<char>, i: int, g: Seq<SpecProduction>)
    requires
        wf_grammar(g),
        0 <= i <= s.len(),
        skip_all(s, i) + grammar_text(g).len() == s.len(),
        s.subrange(skip_all(s, i), s.len() as int) == grammar_text(g),
    ensures
        parse_grammar(s, i) == Ok::<(Seq<SpecProduction>, int), ErrorKind>((g, s.len() as int)),
    decreases g.len(),
{
    let k = skip_all(s, i);
    lemma_skip_all_range(s, i);
    let txt = grammar_text(g);
    let n = txt.len() as int;
    assert forall|m: int| 0 <= m < n implies s[k + m] == txt[m] by {
        assert(s.subrange(k, k + n)[m] == s[k + m]);
    }
    if g.len() == 0 {
        assert(g =~= Seq::<SpecProduction>::empty());
    } else {
        let pt = prod_text(g[0]);
        let lp = pt.len() as int;
        lemma_prod_text_head(g[0]);
        assert(s.subrange(k, k + lp) =~= pt) by {
            assert forall|m: int| 0 <= m < lp implies s.subrange(k, k + lp)[m] == pt[m] by {
                assert(s.subrange(k, k + lp)[m] == s[k + m]);
                assert(txt[m] == pt[m]);
            }
        }
        let e1 = k + lp;
        if g.len() == 1 {
            lemma_parse_production_render(s, k, g[0]);
            assert(parse_grammar(s, e1) == Ok::<(Seq<SpecProduction>, int), ErrorKind>(
                (Seq::empty(), e1),
            ));
            assert(seq![g[0]] + Seq::<SpecProduction>::empty() =~= g);
        } else {
            let tl = grammar_text(g.drop_first());
            assert(g.drop_first().len() >= 1);
            lemma_prod_text_head(g.drop_first()[0]);
            assert(tl[0] == prod_text(g.drop_first()[0])[0]) by {
                assert(g.drop_first().len() >= 1);
            }
            assert(txt[lp] == '\n');
            assert(txt[lp + 1] == tl[0]);
            assert(s[e1] == '\n');
            assert(s[e1 + 1] == tl[0]);
            assert(s[e1 + 1] == '<');
            lemma_skip_all_is(s, e1, e1 + 1);
            lemma_parse_production_render(s, k, g[0]);
            assert(s.subrange(e1 + 1, s.len() as int) =~= tl) by {
                assert forall|m: int| 0 <= m < tl.len() implies s.subrange(
                    e1 + 1,
                    s.len() as int,
                )[m] == tl[m] by {
                    assert(s.subrange(e1 + 1, s.len() as int)[m] == s[e1 + 1 + m]);
                    assert(txt[lp + 1 + m] == tl[m]);
                }
            }
            assert forall|m: int| 0 <= m < g.drop_first().len() implies wf_production(
                #[trigger] g.drop_first()[m],
            ) by {
                assert(g.drop_first()[m] == g[m + 1]);
            }
            lemma_parse_grammar_render(s, e1, g.drop_first());
            assert(seq![g[0]] + g.drop_first() =~= g);
        }
    }
}

/// Round trip for a term: parsing the canonical text of any well-formed term
/// yields that term back, structurally equal.
pub proof fn lemma_term_round_trip(t: SpecTerm)
    requires
        wf_term(t),
    ensures
        spec_from_str_term(term_text(t)) == Ok::<SpecTerm, ErrorKind>(t),
{
    let s = term_text(t);
    lemma_term_text_head(t);
    lemma_skip_all_is(s, 0, 0);
    assert(s.subrange(0, s.len() as int) =~= s);
    lemma_parse_term_render(s, 0, t);
    lemma_skip_all_is(s, s.len() as int, s.len() as int);
}

/// Round trip for an expression: parsing the canonical text of any
/// well-formed expression yields that expression back, structurally equal,
/// terms in order.
pub proof fn lemma_expression_round_trip(ts: Seq<SpecTerm>)
    requires
        wf_expression(ts),
    ensures
        spec_from_str_expression(expr_text(ts)) == Ok::<Seq<SpecTerm>, ErrorKind>(ts),
{
    let s = expr_text(ts);
    lemma_term_text_head(ts[0]);
    assert(s[0] == term_text(ts[0])[0]);
    lemma_skip_all_is(s, 0, 0);
    lemma_skip_st_is(s, 0, 0);
    assert(s.subrange(0, s.len() as int) =~= s);
    lemma_parse_expression_render(s, 0, ts);
    lemma_skip_all_is(s, s.len() as int, s.len() as int);
}

/// Round trip for a production: parsing the canonical text of any
/// well-formed production yields that production back, structurally equal,
/// alternatives in order.
pub proof fn lemma_production_round_trip(p: SpecProduction)
    requires
        wf_production(p),
    ensures
        spec_from_str_production(prod_text(p)) == Ok::<SpecProduction, ErrorKind>(p),
{
    let s = prod_text(p);
    lemma_prod_text_head(p);
    lemma_skip_all_is(s, 0, 0);
    assert(s.subrange(0, s.len() as int) =~= s);
    lemma_parse_production_render(s, 0, p);
    lemma_skip_all_is(s, s.len() as int, s.len() as int);
}

/// Round trip for a grammar: parsing the canonical text of any well-formed
/// grammar yields that grammar back, structurally equal, productions,
/// alternatives and terms all in order.
pub proof fn lemma_grammar_round_trip(g: Seq<SpecProduction>)
    requires
        wf_grammar(g),
    ensures
        spec_from_str_grammar(grammar_text(g)) == Ok::<Seq<SpecProduction>, ErrorKind>(g),
{
    let s = grammar_text(g);
    if g.len() == 0 {
        assert(skip_all(s, 0) == 0);
        assert(s.subrange(0, 0) =~= grammar_text(g));
        lemma_parse_grammar_render(s, 0, g);
    } else {
        lemma_prod_text_head(g[0]);
        assert(s[0] == prod_text(g[0])[0]);
        lemma_skip_all_is(s, 0, 0);
        assert(s.subrange(0, s.len() as int) =~= s);
        lemma_parse_grammar_render(s, 0, g);
    }
}

/// Rendering is idempotent: rendering, parsing, and rendering again yields
/// the same canonical text as the first rendering.
pub proof fn lemma_render_idempotent(g: Seq<SpecProduction>)
    requires
        wf_grammar(g),
    ensures
        (spec_from_str_grammar(grammar_text(g)) matches Ok(g2) && grammar_text(g2) == grammar_text(
            g,
        )),
{
    lemma_grammar_round_trip(g);
}

} // verus!
