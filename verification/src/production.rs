use vstd::prelude::*;
use crate::expression::{expr_text, wf_expression, Expression};
use crate::term::{term_text, wf_term, SpecTerm, Term};

verus! {

/// The mathematical shape of a production: one rule binding a nonterminal
/// left-hand side to an ordered, nonempty sequence of alternatives, each an
/// ordered sequence of terms.
pub ghost struct SpecProduction {
    pub lhs: SpecTerm,
    pub rhs: Seq<Seq<SpecTerm>>,
}

/// A production is well formed when its left-hand side is a well-formed
/// nonterminal and it holds at least one well-formed alternative; any
/// production produced by parsing is of this shape.
pub open spec fn wf_production(p: SpecProduction) -> bool {
    &&& p.lhs is Nonterminal
    &&& wf_term(p.lhs)
    &&& p.rhs.len() >= 1
    &&& forall|k: int| 0 <= k < p.rhs.len() ==> wf_expression(#[trigger] p.rhs[k])
}

/// The views of a sequence of expressions.
pub open spec fn exprs_view(v: Seq<Expression>) -> Seq<Seq<SpecTerm>> {
    v.map_values(|e: Expression| e@)
}

/// The canonical text of the alternatives after the first one: each on its
/// own line, preceded by the alternation marker `| `.
pub open spec fn alts_tail_text(alts: Seq<Seq<SpecTerm>>) -> Seq<char>
    decreases alts.len(),
{
    if alts.len() == 0 {
        Seq::empty()
    } else {
        seq!['\n', '|', ' '] + expr_text(alts[0]) + alts_tail_text(alts.drop_first())
    }
}

/// Appending an alternative appends a line break, the alternation marker and
/// the alternative's text.
pub proof fn lemma_alts_tail_text_snoc(alts: Seq<Seq<SpecTerm>>, a: Seq<SpecTerm>)
    ensures
        alts_tail_text(alts.push(a)) == alts_tail_text(alts) + seq!['\n', '|', ' '] + expr_text(a),
    decreases alts.len(),
{
    let p = alts.push(a);
    if alts.len() == 0 {
        assert(p[0] == a);
        assert(p.drop_first() =~= Seq::<Seq<SpecTerm>>::empty());
        assert(alts_tail_text(p.drop_first()) == Seq::<char>::empty());
        assert(alts_tail_text(p) == seq!['\n', '|', ' '] + expr_text(a) + Seq::<char>::empty());
        assert(alts_tail_text(alts.push(a)) =~= alts_tail_text(alts) + seq!['\n', '|', ' ']
            + expr_text(a));
    } else {
        assert(p[0] == alts[0]);
        assert(p.drop_first() =~= alts.drop_first().push(a));
        lemma_alts_tail_text_snoc(alts.drop_first(), a);
        assert(alts_tail_text(p) == seq!['\n', '|', ' '] + expr_text(alts[0]) + (alts_tail_text(
            alts.drop_first(),
        ) + seq!['\n', '|', ' '] + expr_text(a)));
        assert(alts_tail_text(alts.push(a)) =~= alts_tail_text(alts) + seq!['\n', '|', ' ']
            + expr_text(a));
    }
}

/// The canonical text of a production: the left-hand side, the assignment
/// marker `::=`, then the alternatives, the first on the same line and each
/// further one on its own line after `| `.
pub open spec fn prod_text(p: SpecProduction) -> Seq<char> {
    if p.rhs.len() == 0 {
        term_text(p.lhs) + seq![' ', ':', ':', '=', ' ']
    } else {
        term_text(p.lhs) + seq![' ', ':', ':', '=', ' '] + expr_text(p.rhs[0]) + alts_tail_text(
            p.rhs.drop_first(),
        )
    }
}

/// One named rule: a nonterminal left-hand side bound to an ordered sequence
/// of alternative expressions.
#[derive(Debug, Clone, Hash)]
pub struct Production {
    lhs: Term,
    rhs: Vec<Expression>,
}

impl View for Production {
    type V = SpecProduction;

    closed spec fn view(&self) -> SpecProduction {
        SpecProduction { lhs: self.lhs@, rhs: exprs_view(self.rhs@) }
    }
}

impl Production {
    /// Construct a production from its left-hand side and its alternatives,
    /// in order.
    pub fn from_parts(lhs: Term, rhs: Vec<Expression>) -> (r: Production)
        ensures
            r@.lhs == lhs@,
            r@.rhs == exprs_view(rhs@),
    {
        Production { lhs, rhs }
    }

    /// Parse a production from a whole string, as classified by
    /// [`crate::parsers::spec_from_str_production`]: leading and trailing
    /// whitespace is tolerated, any other unconsumed input is malformed.
    pub fn from_str(s: &str) -> (r: Result<Production, crate::error::Error>)
        ensures
            crate::parsers::spec_from_str_production(s@) matches Ok(p) ==> (r matches Ok(x) && x@
                == p),
            crate::parsers::spec_from_str_production(s@) matches Err(k) ==> (r matches Err(e)
                && e.kind() == k),
            r matches Ok(x) ==> wf_production(x@),
    {
        let v = crate::text::chars_of(s);
        let i = crate::parsers::exec_skip_all(&v, 0);
        proof {
            crate::parsers::lemma_parse_production_wf(v@, i as int);
        }
        match crate::parsers::exec_parse_production(&v, i) {
            Err(e) => Err(e),
            Ok((p, j)) => {
                let e2 = crate::parsers::exec_skip_all(&v, j);
                if e2 == v.len() {
                    Ok(p)
                } else {
                    Err(crate::parsers::trailing_input_error(e2))
                }
            },
        }
    }

    /// The left-hand side.
    pub fn lhs(&self) -> (r: &Term)
        ensures
            r@ == self@.lhs,
    {
        &self.lhs
    }

    /// The number of alternatives held.
    pub fn rhs_len(&self) -> (r: usize)
        ensures
            r == self@.rhs.len(),
    {
        self.rhs.len()
    }

    /// The alternative at one position.
    pub fn rhs_get(&self, i: usize) -> (r: &Expression)
        requires
            i < self@.rhs.len(),
        ensures
            r@ == self@.rhs[i as int],
    {
        &self.rhs[i]
    }

    /// Replace the alternative at one position with the given one: the way
    /// to mutate a held alternative in place.
    pub fn set_rhs(&mut self, i: usize, expr: Expression)
        requires
            i < old(self)@.rhs.len(),
        ensures
            final(self)@.lhs == old(self)@.lhs,
            final(self)@.rhs == old(self)@.rhs.update(i as int, expr@),
    {
        let ghost before = self@;
        let ghost ev = self.rhs@;
        self.rhs[i] = expr;
        proof {
            assert forall|k: int| 0 <= k < self@.rhs.len() implies self@.rhs[k]
                == before.rhs.update(i as int, expr@)[k] by {
                assert(self@.rhs[k] == self.rhs@[k]@);
                assert(before.rhs[k] == ev[k]@);
            }
            assert(self@.rhs =~= before.rhs.update(i as int, expr@));
        }
    }

    /// The canonical grammar-notation text of this production.
    pub fn render(&self) -> (r: String)
        ensures
            r@ == prod_text(self@),
    {
        let mut r = self.lhs.render();
        r.append(" ::= ");
        proof {
            reveal_strlit(" ::= ");
            assert(r@ =~= term_text(self@.lhs) + seq![' ', ':', ':', '=', ' ']);
        }
        if self.rhs.len() == 0 {
            return r;
        }
        let first = self.rhs[0].render();
        r.append(first.as_str());
        let mut i: usize = 1;
        proof {
            assert(self@.rhs.take(1).drop_first() =~= Seq::<Seq<SpecTerm>>::empty());
            assert(self@.rhs[0] == self.rhs@[0]@);
            assert(r@ =~= term_text(self@.lhs) + seq![' ', ':', ':', '=', ' '] + expr_text(
                self@.rhs[0],
            ) + alts_tail_text(Seq::<Seq<SpecTerm>>::empty()));
        }
        while i < self.rhs.len()
            invariant
                1 <= i <= self.rhs@.len(),
                self.rhs@.len() == self@.rhs.len(),
                self@.rhs == exprs_view(self.rhs@),
                r@ == term_text(self@.lhs) + seq![' ', ':', ':', '=', ' '] + expr_text(
                    self@.rhs[0],
                ) + alts_tail_text(self@.rhs.subrange(1, i as int)),
            decreases self.rhs@.len() - i,
        {
            let ghost prefix = self@.rhs.subrange(1, i as int);
            crate::text::push_char(&mut r, '\n');
            crate::text::push_char(&mut r, '|');
            crate::text::push_char(&mut r, ' ');
            let a = self.rhs[i].render();
            r.append(a.as_str());
            proof {
                lemma_alts_tail_text_snoc(prefix, self@.rhs[i as int]);
                assert(self@.rhs[i as int] == self.rhs@[i as int]@);
                assert(self@.rhs.subrange(1, i as int + 1) =~= prefix.push(self@.rhs[i as int]));
                assert(r@ =~= term_text(self@.lhs) + seq![' ', ':', ':', '=', ' '] + expr_text(
                    self@.rhs[0],
                ) + alts_tail_text(self@.rhs.subrange(1, i as int + 1)));
            }
            i = i + 1;
        }
        proof {
            assert(self@.rhs.subrange(1, self@.rhs.len() as int) =~= self@.rhs.drop_first());
        }
        r
    }
}

impl PartialEq for Production {
    /// Equality is structural: equal left-hand sides and equal alternatives,
    /// alternative by alternative, in order.
    fn eq(&self, other: &Production) -> (r: bool) {
        if !(self.lhs == other.lhs) {
            return false;
        }
        if self.rhs.len() != other.rhs.len() {
            proof {
                assert(self@.rhs.len() == self.rhs@.len());
                assert(other@.rhs.len() == other.rhs@.len());
            }
            return false;
        }
        let n = self.rhs.len();
        let mut i: usize = 0;
        while i < n
            invariant
                i <= n,
                n == self.rhs@.len(),
                n == other.rhs@.len(),
                forall|k: int| 0 <= k < i ==> self@.rhs[k] == other@.rhs[k],
            decreases n - i,
        {
            let a = &self.rhs[i];
            let b = &other.rhs[i];
            if !(*a == *b) {
                proof {
                    assert(self@.rhs[i as int] == self.rhs@[i as int]@);
                    assert(other@.rhs[i as int] == other.rhs@[i as int]@);
                }
                return false;
            }
            i = i + 1;
        }
        proof {
            assert(self@.rhs =~= other@.rhs);
        }
        true
    }
}

impl vstd::std_specs::cmp::PartialEqSpecImpl for Production {
    open spec fn obeys_eq_spec() -> bool {
        true
    }

    open spec fn eq_spec(&self, other: &Production) -> bool {
        self@ == other@
    }
}

impl Eq for Production {

}

} // verus!
