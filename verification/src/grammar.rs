use vstd::prelude::*;
use crate::production::{prod_text, wf_production, Production, SpecProduction};
use crate::util::first_hit;

verus! {

/// A grammar is well formed when every production in it is; any grammar
/// produced by parsing is of this shape. Productions may freely reference
/// names defined elsewhere or nowhere: no existence or cycle check is made.
pub open spec fn wf_grammar(g: Seq<SpecProduction>) -> bool {
    forall|k: int| 0 <= k < g.len() ==> wf_production(#[trigger] g[k])
}

/// The views of a sequence of productions.
pub open spec fn prods_view(v: Seq<Production>) -> Seq<SpecProduction> {
    v.map_values(|p: Production| p@)
}

/// The canonical text of a grammar: its productions' texts joined by single
/// line breaks; an empty grammar renders as the empty string.
pub open spec fn grammar_text(g: Seq<SpecProduction>) -> Seq<char>
    decreases g.len(),
{
    if g.len() == 0 {
        Seq::empty()
    } else if g.len() == 1 {
        prod_text(g[0])
    } else {
        prod_text(g[0]) + seq!['\n'] + grammar_text(g.drop_first())
    }
}

/// Appending a production to a nonempty grammar appends a line break and the
/// production's text; to an empty grammar, just the production's text.
pub proof fn lemma_grammar_text_snoc(g: Seq<SpecProduction>, p: SpecProduction)
    ensures
        g.len() == 0 ==> grammar_text(g.push(p)) == prod_text(p),
        g.len() > 0 ==> grammar_text(g.push(p)) == grammar_text(g) + seq!['\n'] + prod_text(p),
    decreases g.len(),
{
    let w = g.push(p);
    if g.len() == 0 {
        assert(w[0] == p);
    } else {
        assert(w[0] == g[0]);
        assert(w.drop_first() =~= g.drop_first().push(p));
        lemma_grammar_text_snoc(g.drop_first(), p);
        if g.len() == 1 {
            assert(w.len() == 2);
            assert(grammar_text(w) == prod_text(g[0]) + seq!['\n'] + prod_text(p));
            assert(grammar_text(g.push(p)) =~= grammar_text(g) + seq!['\n'] + prod_text(p));
        } else {
            assert(grammar_text(w) == prod_text(g[0]) + seq!['\n'] + (grammar_text(g.drop_first())
                + seq!['\n'] + prod_text(p)));
            assert(grammar_text(g.push(p)) =~= grammar_text(g) + seq!['\n'] + prod_text(p));
        }
    }
}

/// An ordered sequence of productions forming a complete grammar document.
#[derive(Debug, Clone, Hash)]
pub struct Grammar {
    productions: Vec<Production>,
}

impl View for Grammar {
    type V = Seq<SpecProduction>;

    closed spec fn view(&self) -> Seq<SpecProduction> {
        prods_view(self.productions@)
    }
}

impl Grammar {
    /// Construct a new, empty grammar.
    pub fn new() -> (r: Grammar)
        ensures
            r@ == Seq::<SpecProduction>::empty(),
    {
        let r = Grammar { productions: Vec::new() };
        proof {
            assert(r@ =~= Seq::<SpecProduction>::empty());
        }
        r
    }

    /// Construct a grammar from a vector of productions, in order.
    pub fn from_parts(v: Vec<Production>) -> (r: Grammar)
        ensures
            r@ == prods_view(v@),
    {
        Grammar { productions: v }
    }

    /// Parse a grammar from a whole string, as classified by
    /// [`crate::parsers::spec_from_str_grammar`]: zero or more productions,
    /// with blank lines and surrounding whitespace tolerated.
    pub fn from_str(s: &str) -> (r: Result<Grammar, crate::error::Error>)
        ensures
            crate::parsers::spec_from_str_grammar(s@) matches Ok(g) ==> (r matches Ok(x) && x@
                == g),
            crate::parsers::spec_from_str_grammar(s@) matches Err(k) ==> (r matches Err(e)
                && e.kind() == k),
            r matches Ok(x) ==> wf_grammar(x@),
    {
        let v = crate::text::chars_of(s);
        proof {
            crate::parsers::lemma_parse_grammar_wf(v@, 0);
        }
        match crate::parsers::exec_parse_grammar(&v, 0) {
            Err(e) => Err(e),
            Ok((g, _consumed)) => Ok(g),
        }
    }

    /// Append a production; this always succeeds and never checks for
    /// duplicates.
    pub fn add_production(&mut self, prod: Production)
        ensures
            final(self)@ == old(self)@.push(prod@),
    {
        let ghost before = self@;
        self.productions.push(prod);
        proof {
            assert(self@ =~= before.push(prod@));
        }
    }

    /// The number of productions held.
    pub fn len(&self) -> (r: usize)
        ensures
            r == self@.len(),
    {
        self.productions.len()
    }

    /// The production at one position.
    pub fn get(&self, i: usize) -> (r: &Production)
        requires
            i < self@.len(),
        ensures
            r@ == self@[i as int],
    {
        &self.productions[i]
    }

    /// Replace the production at one position with the given one: the way to
    /// mutate a held production in place.
    pub fn set_production(&mut self, i: usize, prod: Production)
        requires
            i < old(self)@.len(),
        ensures
            final(self)@ == old(self)@.update(i as int, prod@),
    {
        let ghost before = self@;
        let ghost pv = self.productions@;
        self.productions[i] = prod;
        proof {
            assert forall|k: int| 0 <= k < self@.len() implies self@[k] == before.update(
                i as int,
                prod@,
            )[k] by {
                assert(self@[k] == self.productions@[k]@);
                assert(before[k] == pv[k]@);
            }
            assert(self@ =~= before.update(i as int, prod@));
        }
    }

    /// Remove the first production structurally equal to the given one, if
    /// any. An absent production is not an error: the result is `None` and
    /// the grammar is unchanged. A present production is removed from its
    /// first position, the length shrinks by exactly one, and the removed
    /// value is returned.
    pub fn remove_production(&mut self, prod: &Production) -> (r: Option<Production>)
        ensures
            !old(self)@.contains(prod@) ==> r is None && final(self)@ == old(self)@,
            old(self)@.contains(prod@) ==> (r matches Some(x) && x@ == prod@ && final(self)@ == old(
                self,
            )@.remove(first_hit(old(self)@, prod@))),
            old(self)@.contains(prod@) ==> final(self)@.len() == old(self)@.len() - 1,
    {
        let ghost before = self@;
        let n = self.productions.len();
        let mut i: usize = 0;
        while i < n
            invariant
                i <= n,
                n == self.productions@.len(),
                before == old(self)@,
                self@ == before,
                self.productions@.len() == before.len(),
                forall|k: int| 0 <= k < i ==> before[k] != prod@,
            decreases n - i,
        {
            let a = &self.productions[i];
            if *a == *prod {
                proof {
                    assert(before[i as int] == self.productions@[i as int]@);
                    crate::util::lemma_first_hit(before, prod@, i as int);
                    assert(before.contains(prod@));
                }
                let ghost pv = self.productions@;
                let removed = self.productions.remove(i);
                proof {
                    pv.remove_ensures(i as int);
                    before.remove_ensures(i as int);
                    assert forall|k: int| 0 <= k < self@.len() implies self@[k] == before.remove(
                        i as int,
                    )[k] by {
                        assert(self@[k] == self.productions@[k]@);
                        assert(self.productions@ == pv.remove(i as int));
                        if k < i as int {
                            assert(pv.remove(i as int)[k] == pv[k]);
                            assert(before.remove(i as int)[k] == before[k]);
                            assert(before[k] == pv[k]@);
                        } else {
                            assert(pv.remove(i as int)[k] == pv[k + 1]);
                            assert(before.remove(i as int)[k] == before[k + 1]);
                            assert(before[k + 1] == pv[k + 1]@);
                        }
                    }
                    assert(self@ =~= before.remove(i as int));
                }
                return Some(removed);
            }
            i = i + 1;
        }
        proof {
            crate::util::lemma_first_hit(before, prod@, n as int);
        }
        None
    }

    /// The canonical grammar-notation text of this grammar.
    pub fn render(&self) -> (r: String)
        ensures
            r@ == grammar_text(self@),
    {
        if self.productions.len() == 0 {
            let r = String::new();
            proof {
                assert(r@ =~= grammar_text(self@));
            }
            return r;
        }
        let mut r = self.productions[0].render();
        let mut i: usize = 1;
        proof {
            assert(self@.take(1) =~= seq![self@[0]]);
            assert(self@[0] == self.productions@[0]@);
            assert(r@ =~= grammar_text(self@.take(1)));
        }
        while i < self.productions.len()
            invariant
                1 <= i <= self.productions@.len(),
                self.productions@.len() == self@.len(),
                r@ == grammar_text(self@.take(i as int)),
            decreases self.productions@.len() - i,
        {
            let ghost prefix = self@.take(i as int);
            crate::text::push_char(&mut r, '\n');
            let p = self.productions[i].render();
            r.append(p.as_str());
            proof {
                lemma_grammar_text_snoc(prefix, self@[i as int]);
                assert(self@[i as int] == self.productions@[i as int]@);
                assert(self@.take(i as int + 1) =~= prefix.push(self@[i as int]));
                assert(r@ =~= grammar_text(self@.take(i as int + 1)));
            }
            i = i + 1;
        }
        proof {
            assert(self@.take(self@.len() as int) =~= self@);
        }
        r
    }
}

impl PartialEq for Grammar {
    /// Equality is structural: equal productions, production by production,
    /// in order.
    fn eq(&self, other: &Grammar) -> (r: bool) {
        if self.productions.len() != other.productions.len() {
            proof {
                assert(self@.len() == self.productions@.len());
                assert(other@.len() == other.productions@.len());
            }
            return false;
        }
        let n = self.productions.len();
        let mut i: usize = 0;
        while i < n
            invariant
                i <= n,
                n == self.productions@.len(),
                n == other.productions@.len(),
                forall|k: int| 0 <= k < i ==> self@[k] == other@[k],
            decreases n - i,
        {
            let a = &self.productions[i];
            let b = &other.productions[i];
            if !(*a == *b) {
                proof {
                    assert(self@[i as int] == self.productions@[i as int]@);
                    assert(other@[i as int] == other.productions@[i as int]@);
                }
                return false;
            }
            i = i + 1;
        }
        proof {
            assert(self@ =~= other@);
        }
        true
    }
}

impl vstd::std_specs::cmp::PartialEqSpecImpl for Grammar {
    open spec fn obeys_eq_spec() -> bool {
        true
    }

    open spec fn eq_spec(&self, other: &Grammar) -> bool {
        self@ == other@
    }
}

impl Eq for Grammar {

}

} // verus!
