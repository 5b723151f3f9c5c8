//! Pervasion of concrete shapes.

use vstd::prelude::*;

verus! {

/// The length at position `k`, or 1 past the end.
pub open spec fn len_or_one(s: Seq<usize>, k: int) -> usize {
    if 0 <= k < s.len() { s[k] } else { 1 }
}

/// Two lengths agree under pervasion when one is 1 or they are equal; the result is
/// the other (or common) length.
pub open spec fn pervade_len(a: usize, b: usize) -> Option<usize> {
    if a == 1 || a == b { Some(b) } else if b == 1 { Some(a) } else { None }
}

/// The longer of the two lengths.
pub open spec fn max_len2(a: Seq<usize>, b: Seq<usize>) -> nat {
    if a.len() >= b.len() { a.len() } else { b.len() }
}

/// The shapes, padded with 1s to the same rank, agree at every position.
pub open spec fn pervadable(a: Seq<usize>, b: Seq<usize>) -> bool {
    forall|k: int| 0 <= k < max_len2(a, b) ==> #[trigger] pervade_len(len_or_one(a, k), len_or_one(b, k)) is Some
}

/// The shape that two shapes pervade to: aligned at their leading axes, the shorter
/// padded with 1s, each position taking the length that is not 1. `None` if some
/// position has two different lengths, neither of them 1.
pub fn pervade_shape(a: &[usize], b: &[usize]) -> (r: Option<Vec<usize>>)
    ensures
        r is Some <==> pervadable(a@, b@),
        r is Some ==> r->0@.len() == max_len2(a@, b@) && forall|k: int| 0 <= k < r->0@.len()
            ==> Some(#[trigger] r->0@[k]) == pervade_len(len_or_one(a@, k), len_or_one(b@, k)),
{
    let n = if a.len() >= b.len() { a.len() } else { b.len() };
    let mut out: Vec<usize> = Vec::new();
    let mut k: usize = 0;
    while k < n
        invariant
            n == max_len2(a@, b@),
            k <= n,
            out@.len() == k,
            forall|j: int| 0 <= j < k ==> Some(#[trigger] out@[j]) == pervade_len(len_or_one(a@, j), len_or_one(b@, j)),
        decreases n - k,
    {
        let x: usize = if k < a.len() { a[k] } else { 1 };
        let y: usize = if k < b.len() { b[k] } else { 1 };
        if x == 1 || x == y {
            out.push(y);
        } else if y == 1 {
            out.push(x);
        } else {
            proof {
                assert(pervade_len(len_or_one(a@, k as int), len_or_one(b@, k as int)) is None);
            }
            return None;
        }
        k += 1;
    }
    proof {
        assert forall|j: int| 0 <= j < max_len2(a@, b@) implies #[trigger] pervade_len(len_or_one(a@, j), len_or_one(b@, j)) is Some by {
            assert(Some(out@[j]) == pervade_len(len_or_one(a@, j), len_or_one(b@, j)));
        }
    }
    Some(out)
}

/// Pervasion does not depend on the order of the two shapes.
pub proof fn lemma_pervade_commutative(a: Seq<usize>, b: Seq<usize>)
    ensures
        pervadable(a, b) == pervadable(b, a),
        forall|k: int| #[trigger] pervade_len(len_or_one(a, k), len_or_one(b, k)) == pervade_len(len_or_one(b, k), len_or_one(a, k)),
{
    assert(max_len2(a, b) == max_len2(b, a));
    assert forall|k: int| #[trigger] pervade_len(len_or_one(a, k), len_or_one(b, k)) == pervade_len(len_or_one(b, k), len_or_one(a, k)) by {}
    if pervadable(a, b) {
        assert forall|k: int| 0 <= k < max_len2(b, a) implies #[trigger] pervade_len(len_or_one(b, k), len_or_one(a, k)) is Some by {
            assert(pervade_len(len_or_one(a, k), len_or_one(b, k)) is Some);
        }
    }
    if pervadable(b, a) {
        assert forall|k: int| 0 <= k < max_len2(a, b) implies #[trigger] pervade_len(len_or_one(a, k), len_or_one(b, k)) is Some by {
            assert(pervade_len(len_or_one(b, k), len_or_one(a, k)) is Some);
        }
    }
}

/// Pervading with the empty shape of a scalar gives the other shape back.
pub proof fn lemma_pervade_scalar(a: Seq<usize>)
    ensures
        pervadable(Seq::empty(), a),
        forall|k: int| 0 <= k < a.len() ==> #[trigger] pervade_len(len_or_one(Seq::empty(), k), len_or_one(a, k)) == Some(a[k]),
{
    assert forall|k: int| 0 <= k < max_len2(Seq::empty(), a) implies #[trigger] pervade_len(len_or_one(Seq::empty(), k), len_or_one(a, k)) is Some by {}
}

} // verus!
