use vstd::prelude::*;
use crate::error::Error;
use crate::term::{SpecTerm, Term, term_text, wf_term};
use crate::util::first_hit;

verus! {

/// The views of a sequence of terms.
pub open spec fn terms_view(v: Seq<Term>) -> Seq<SpecTerm> {
    v.map_values(|t: Term| t@)
}

/// An expression is well formed when it holds at least one term and every
/// term is well formed; any expression produced by parsing is of this shape.
pub open spec fn wf_expression(ts: Seq<SpecTerm>) -> bool {
    ts.len() >= 1 && forall|k: int| 0 <= k < ts.len() ==> wf_term(#[trigger] ts[k])
}

/// The canonical text of the terms after the first one: each preceded by a
/// single separating space.
pub open spec fn expr_tail_text(ts: Seq<SpecTerm>) -> Seq<char>
    decreases ts.len(),
{
    if ts.len() == 0 {
        Seq::empty()
    } else {
        seq![' '] + term_text(ts[0]) + expr_tail_text(ts.drop_first())
    }
}

/// The canonical text of an expression: its terms' texts joined by single
/// spaces; an empty expression renders as the empty string.
pub open spec fn expr_text(ts: Seq<SpecTerm>) -> Seq<char> {
    if ts.len() == 0 {
        Seq::empty()
    } else {
        term_text(ts[0]) + expr_tail_text(ts.drop_first())
    }
}

/// Appending a term appends a separating space and the term's text (or, to an
/// empty tail, just the space and the text).
pub proof fn lemma_expr_tail_text_snoc(ts: Seq<SpecTerm>, t: SpecTerm)
    ensures
        expr_tail_text(ts.push(t)) == expr_tail_text(ts) + seq![' '] + term_text(t),
    decreases ts.len(),
{
    let p = ts.push(t);
    if ts.len() == 0 {
        assert(p[0] == t);
        assert(p.drop_first() =~= Seq::<SpecTerm>::empty());
        assert(expr_tail_text(p.drop_first()) == Seq::<char>::empty());
        assert(expr_tail_text(p) == seq![' '] + term_text(t) + Seq::<char>::empty());
        assert(expr_tail_text(ts.push(t)) =~= expr_tail_text(ts) + seq![' '] + term_text(t));
    } else {
        assert(p[0] == ts[0]);
        assert(p.drop_first() =~= ts.drop_first().push(t));
        lemma_expr_tail_text_snoc(ts.drop_first(), t);
        assert(expr_tail_text(p) == seq![' '] + term_text(ts[0]) + (expr_tail_text(ts.drop_first())
            + seq![' '] + term_text(t)));
        assert(expr_tail_text(ts.push(t)) =~= expr_tail_text(ts) + seq![' '] + term_text(t));
    }
}

/// Appending a term to a nonempty expression appends a space and the term's
/// text; to an empty expression, just the term's text.
pub proof fn lemma_expr_text_snoc(ts: Seq<SpecTerm>, t: SpecTerm)
    ensures
        ts.len() == 0 ==> expr_text(ts.push(t)) == term_text(t),
        ts.len() > 0 ==> expr_text(ts.push(t)) == expr_text(ts) + seq![' '] + term_text(t),
{
    if ts.len() == 0 {
        assert(ts.push(t).drop_first() =~= Seq::<SpecTerm>::empty());
        assert(expr_text(ts.push(t)) =~= term_text(t));
    } else {
        assert(ts.push(t).drop_first() =~= ts.drop_first().push(t));
        lemma_expr_tail_text_snoc(ts.drop_first(), t);
        assert(expr_text(ts.push(t)) =~= expr_text(ts) + seq![' '] + term_text(t));
    }
}

/// An ordered sequence of terms: one alternative right-hand side of a
/// production.
#[derive(Debug, Clone, Hash)]
pub struct Expression {
    terms: Vec<Term>,
}

impl View for Expression {
    type V = Seq<SpecTerm>;

    closed spec fn view(&self) -> Seq<SpecTerm> {
        terms_view(self.terms@)
    }
}

impl Expression {
    /// Construct a new, empty expression.
    pub fn new() -> (r: Expression)
        ensures
            r@ == Seq::<SpecTerm>::empty(),
    {
        let r = Expression { terms: Vec::new() };
        proof {
            assert(r@ =~= Seq::<SpecTerm>::empty());
        }
        r
    }

    /// Construct an expression from a vector of terms, in order.
    pub fn from_parts(v: Vec<Term>) -> (r: Expression)
        ensures
            r@ == terms_view(v@),
    {
        Expression { terms: v }
    }

    /// Parse an expression from a whole string, as classified by
    /// [`crate::parsers::spec_from_str_expression`]: leading and trailing
    /// whitespace is tolerated, any other unconsumed input is malformed.
    pub fn from_str(s: &str) -> (r: Result<Expression, Error>)
        ensures
            crate::parsers::spec_from_str_expression(s@) matches Ok(ts) ==> (r matches Ok(x) && x@
                == ts),
            crate::parsers::spec_from_str_expression(s@) matches Err(k) ==> (r matches Err(e)
                && e.kind() == k),
            r matches Ok(x) ==> wf_expression(x@),
    {
        let v = crate::text::chars_of(s);
        let i = crate::parsers::exec_skip_all(&v, 0);
        proof {
            crate::parsers::lemma_parse_expression_wf(v@, i as int);
        }
        match crate::parsers::exec_parse_expression(&v, i) {
            Err(e) => Err(e),
            Ok((x, j)) => {
                let e2 = crate::parsers::exec_skip_all(&v, j);
                if e2 == v.len() {
                    Ok(x)
                } else {
                    Err(crate::parsers::trailing_input_error(e2))
                }
            },
        }
    }

    /// Append a term; this always succeeds and never checks for duplicates.
    pub fn add_term(&mut self, term: Term)
        ensures
            final(self)@ == old(self)@.push(term@),
    {
        let ghost before = self@;
        self.terms.push(term);
        proof {
            assert(self@ =~= before.push(term@));
        }
    }

    /// The number of terms held.
    pub fn len(&self) -> (r: usize)
        ensures
            r == self@.len(),
    {
        self.terms.len()
    }

    /// The term at one position.
    pub fn get(&self, i: usize) -> (r: &Term)
        requires
            i < self@.len(),
        ensures
            r@ == self@[i as int],
    {
        &self.terms[i]
    }

    /// Remove the first term structurally equal to the given one, if any.
    /// An absent term is not an error: the result is `None` and the
    /// expression is unchanged. A present term is removed from its first
    /// position, the length shrinks by exactly one, and the removed value is
    /// returned.
    pub fn remove_term(&mut self, term: &Term) -> (r: Option<Term>)
        ensures
            !old(self)@.contains(term@) ==> r is None && final(self)@ == old(self)@,
            old(self)@.contains(term@) ==> (r matches Some(x) && x@ == term@ && final(self)@
                == old(self)@.remove(first_hit(old(self)@, term@))),
            old(self)@.contains(term@) ==> final(self)@.len() == old(self)@.len() - 1,
    {
        let ghost before = self@;
        let n = self.terms.len();
        let mut i: usize = 0;
        while i < n
            invariant
                i <= n,
                n == self.terms@.len(),
                before == old(self)@,
                self@ == before,
                self.terms@.len() == before.len(),
                forall|k: int| 0 <= k < i ==> before[k] != term@,
            decreases n - i,
        {
            let a = &self.terms[i];
            if *a == *term {
                proof {
                    assert(before[i as int] == self.terms@[i as int]@);
                    crate::util::lemma_first_hit(before, term@, i as int);
                    assert(before.contains(term@));
                }
                let ghost tv = self.terms@;
                let removed = self.terms.remove(i);
                proof {
                    tv.remove_ensures(i as int);
                    before.remove_ensures(i as int);
                    assert forall|k: int| 0 <= k < self@.len() implies self@[k] == before.remove(
                        i as int,
                    )[k] by {
                        assert(self@[k] == self.terms@[k]@);
                        assert(self.terms@ == tv.remove(i as int));
                        if k < i as int {
                            assert(tv.remove(i as int)[k] == tv[k]);
                            assert(before.remove(i as int)[k] == before[k]);
                            assert(before[k] == tv[k]@);
                        } else {
                            assert(tv.remove(i as int)[k] == tv[k + 1]);
                            assert(before.remove(i as int)[k] == before[k + 1]);
                            assert(before[k + 1] == tv[k + 1]@);
                        }
                    }
                    assert(self@ =~= before.remove(i as int));
                }
                return Some(removed);
            }
            i = i + 1;
        }
        proof {
            crate::util::lemma_first_hit(before, term@, n as int);
        }
        None
    }

    /// Replace the term at one position with the given one: the way to
    /// mutate a held term in place.
    pub fn set_term(&mut self, i: usize, term: Term)
        requires
            i < old(self)@.len(),
        ensures
            final(self)@ == old(self)@.update(i as int, term@),
    {
        let ghost before = self@;
        let ghost tv = self.terms@;
        self.terms[i] = term;
        proof {
            assert forall|k: int| 0 <= k < self@.len() implies self@[k] == before.update(
                i as int,
                term@,
            )[k] by {
                assert(self@[k] == self.terms@[k]@);
                assert(before[k] == tv[k]@);
            }
            assert(self@ =~= before.update(i as int, term@));
        }
    }

    /// An iterator over the terms, in insertion order.
    pub fn terms_iter<'a>(&'a self) -> (r: Iter<'a>)
        ensures
            r.remaining() == self@,
    {
        let r = Iter { expr: self, pos: 0 };
        proof {
            assert(r.remaining() =~= self@);
        }
        r
    }

    /// The canonical grammar-notation text of this expression.
    pub fn render(&self) -> (r: String)
        ensures
            r@ == expr_text(self@),
    {
        if self.terms.len() == 0 {
            let r = String::new();
            proof {
                assert(r@ =~= expr_text(self@));
            }
            return r;
        }
        let mut r = self.terms[0].render();
        let mut i: usize = 1;
        proof {
            assert(self@.take(1) =~= seq![self@[0]]);
            assert(seq![self@[0]].drop_first() =~= Seq::<SpecTerm>::empty());
            assert(r@ =~= expr_text(self@.take(1)));
        }
        while i < self.terms.len()
            invariant
                1 <= i <= self.terms@.len(),
                self.terms@.len() == self@.len(),
                r@ == expr_text(self@.take(i as int)),
            decreases self.terms@.len() - i,
        {
            let ghost prefix = self@.take(i as int);
            crate::text::push_char(&mut r, ' ');
            let t = self.terms[i].render();
            r.append(t.as_str());
            proof {
                lemma_expr_text_snoc(prefix, self@[i as int]);
                assert(self@.take(i as int + 1) =~= prefix.push(self@[i as int]));
                assert(r@ =~= expr_text(self@.take(i as int + 1)));
            }
            i = i + 1;
        }
        proof {
            assert(self@.take(self@.len() as int) =~= self@);
        }
        r
    }
}

impl PartialEq for Expression {
    /// Equality is structural: same number of terms, equal term by term.
    fn eq(&self, other: &Expression) -> (r: bool) {
        if self.terms.len() != other.terms.len() {
            proof {
                assert(self@.len() == self.terms@.len());
                assert(other@.len() == other.terms@.len());
            }
            return false;
        }
        let n = self.terms.len();
        let mut i: usize = 0;
        while i < n
            invariant
                i <= n,
                n == self.terms@.len(),
                n == other.terms@.len(),
                forall|k: int| 0 <= k < i ==> self@[k] == other@[k],
            decreases n - i,
        {
            let a = &self.terms[i];
            let b = &other.terms[i];
            if !(*a == *b) {
                proof {
                    assert(self@[i as int] == self.terms@[i as int]@);
                    assert(other@[i as int] == other.terms@[i as int]@);
                }
                return false;
            }
            i = i + 1;
        }
        proof {
            assert(self@ =~= other@);
        }
        true
    }
}

impl vstd::std_specs::cmp::PartialEqSpecImpl for Expression {
    open spec fn obeys_eq_spec() -> bool {
        true
    }

    open spec fn eq_spec(&self, other: &Expression) -> bool {
        self@ == other@
    }
}

impl Eq for Expression {

}

/// A read-only iterator over an expression's terms, in insertion order.
pub struct Iter<'a> {
    expr: &'a Expression,
    pos: usize,
}

impl<'a> Iter<'a> {
    /// The views of the terms not yet yielded, in order.
    pub closed spec fn remaining(&self) -> Seq<SpecTerm> {
        if self.pos as int <= self.expr@.len() {
            self.expr@.skip(self.pos as int)
        } else {
            Seq::empty()
        }
    }

    /// Yield the next term, or `None` when the traversal is finished.
    pub fn next(&mut self) -> (r: Option<&'a Term>)
        ensures
            old(self).remaining().len() > 0 ==> (r matches Some(t) && t@ == old(
                self,
            ).remaining()[0] && final(self).remaining() == old(self).remaining().drop_first()),
            old(self).remaining().len() == 0 ==> r is None && final(self).remaining() == old(
                self,
            ).remaining(),
    {
        let e = self.expr;
        if self.pos < e.terms.len() {
            let t = &e.terms[self.pos];
            proof {
                assert(t@ == self.remaining()[0]);
                assert(self.expr@.skip(self.pos as int + 1) =~= self.remaining().drop_first());
            }
            self.pos = self.pos + 1;
            Some(t)
        } else {
            None
        }
    }
}

} // verus!
