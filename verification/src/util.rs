use vstd::prelude::*;

verus! {

/// The index of the first occurrence of `x` in `s`, or the length of `s` if
/// `x` does not occur.
pub open spec fn first_hit<T>(s: Seq<T>, x: T) -> int
    decreases s.len(),
{
    if s.len() == 0 {
        0
    } else if s[0] == x {
        0
    } else {
        1 + first_hit(s.drop_first(), x)
    }
}

/// `first_hit` is characterized by a prefix free of `x` followed by `x`
/// itself (or by the end of the sequence).
pub proof fn lemma_first_hit<T>(s: Seq<T>, x: T, i: int)
    requires
        0 <= i <= s.len(),
        forall|k: int| 0 <= k < i ==> s[k] != x,
        i < s.len() ==> s[i] == x,
    ensures
        first_hit(s, x) == i,
        i == s.len() ==> !s.contains(x),
        i < s.len() ==> s.contains(x),
    decreases s.len(),
{
    if i == s.len() {
        assert(forall|k: int| 0 <= k < s.len() ==> s[k] != x);
    }
    if s.len() == 0 {
    } else if i == 0 {
        assert(s.contains(x)) by {
            assert(s[0] == x);
        }
    } else {
        assert(s[0] != x);
        assert(forall|k: int| 0 <= k < i - 1 ==> s.drop_first()[k] != x);
        lemma_first_hit(s.drop_first(), x, i - 1);
        if i < s.len() {
            assert(s.contains(x)) by {
                assert(s[i] == x);
            }
        }
    }
}

} // verus!
