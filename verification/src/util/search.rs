//! Finding the first place of a value in a sequence.
use vstd::prelude::*;

verus! {

/// The first place at which `x` stands in `s`, or the length of `s` where it
/// stands nowhere.
pub open spec fn first_index<A>(s: Seq<A>, x: A) -> int
    decreases s.len(),
{
    if s.len() == 0 {
        0
    } else {
        let p = first_index(s.drop_last(), x);
        if p < s.len() - 1 {
            p
        } else if s.last() == x {
            s.len() - 1
        } else {
            s.len() as int
        }
    }
}

/// Whether `x` stands somewhere in `s`.
pub open spec fn occurs<A>(s: Seq<A>, x: A) -> bool {
    first_index(s, x) < s.len()
}

/// `first_index` is a place of `x` with no place of `x` before it, and it is
/// the length exactly where `x` stands nowhere.
pub proof fn lemma_first_index<A>(s: Seq<A>, x: A)
    ensures
        0 <= first_index(s, x) <= s.len(),
        first_index(s, x) < s.len() ==> s[first_index(s, x)] == x,
        forall|j: int| 0 <= j < first_index(s, x) ==> s[j] != x,
        occurs(s, x) <==> s.contains(x),
    decreases s.len(),
{
    if s.len() > 0 {
        lemma_first_index(s.drop_last(), x);
        let p = first_index(s.drop_last(), x);
        assert forall|j: int| 0 <= j < first_index(s, x) implies s[j] != x by {
            if j < s.len() - 1 {
                assert(s.drop_last()[j] == s[j]);
            }
        }
        if first_index(s, x) < s.len() {
            if p < s.len() - 1 {
                assert(s.drop_last()[p] == s[p]);
            }
            assert(s.contains(x));
        } else {
            assert(!s.contains(x)) by {
                if s.contains(x) {
                    let k = choose|k: int| 0 <= k < s.len() && s[k] == x;
                    assert(s[k] != x);
                }
            }
        }
    } else {
        assert(!s.contains(x));
    }
}

/// A place of `x` with no place of `x` before it is the first place of `x`.
pub proof fn lemma_first_index_is<A>(s: Seq<A>, x: A, i: int)
    requires
        0 <= i < s.len(),
        s[i] == x,
        forall|j: int| 0 <= j < i ==> s[j] != x,
    ensures
        first_index(s, x) == i,
{
    lemma_first_index(s, x);
    let p = first_index(s, x);
    if p < i {
        assert(s[p] != x);
    } else if p > i {
        assert(s[i] != x);
    }
}

/// Where no place holds `x`, the first place of `x` is the length.
pub proof fn lemma_first_index_none<A>(s: Seq<A>, x: A)
    requires
        forall|j: int| 0 <= j < s.len() ==> s[j] != x,
    ensures
        first_index(s, x) == s.len(),
{
    lemma_first_index(s, x);
    let p = first_index(s, x);
    if p < s.len() {
        assert(s[p] != x);
    }
}

/// Whether no value stands twice in `s`.
pub open spec fn distinct<A>(s: Seq<A>) -> bool {
    forall|i: int, j: int| 0 <= i < j < s.len() ==> s[i] != s[j]
}

} // verus!
