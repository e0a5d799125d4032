//! A verified merge sort for 128-bit values: the trainer works on a
//! sorted copy of its input.

use vstd::prelude::*;
use vstd::seq_lib::lemma_multiset_commutative;

verus! {

/// `s` is in ascending order.
pub open spec fn sorted(s: Seq<u128>) -> bool {
    forall|i: int, j: int| 0 <= i <= j < s.len() ==> s[i] <= s[j]
}

/// The ascending rearrangement of `s`: the sorted sequence with the same
/// elements, unique among such sequences.
pub open spec fn sorted_of(s: Seq<u128>) -> Seq<u128> {
    s.sort_by(|x: u128, y: u128| x <= y)
}

/// A sorted sequence with the same elements as `s` is `sorted_of(s)`.
pub proof fn lemma_sorted_of_unique(s: Seq<u128>, r: Seq<u128>)
    requires
        sorted(r),
        r.to_multiset() == s.to_multiset(),
    ensures
        r == sorted_of(s),
{
    let leq = |x: u128, y: u128| x <= y;
    assert(vstd::relations::total_ordering(leq)) by {
        assert(vstd::relations::reflexive(leq));
        assert(vstd::relations::antisymmetric(leq));
        assert(vstd::relations::transitive(leq));
        assert(vstd::relations::strongly_connected(leq));
    }
    s.lemma_sort_by_ensures(leq);
    assert(vstd::relations::sorted_by(r, leq));
    assert(r.to_multiset() =~= sorted_of(s).to_multiset());
    vstd::seq_lib::lemma_sorted_unique(r, sorted_of(s), leq);
    assert(r =~= sorted_of(s));
}

/// Merges two ascending vectors into one ascending vector with the same
/// elements.
fn merge(a: Vec<u128>, b: Vec<u128>) -> (r: Vec<u128>)
    requires
        sorted(a@),
        sorted(b@),
    ensures
        sorted(r@),
        r@.to_multiset() == a@.to_multiset().add(b@.to_multiset()),
        r@.len() == a@.len() + b@.len(),
{
    broadcast use vstd::seq_lib::group_to_multiset_ensures;
    broadcast use vstd::multiset::group_multiset_axioms;

    let mut r: Vec<u128> = Vec::new();
    let mut i: usize = 0;
    let mut j: usize = 0;
    while i < a.len() || j < b.len()
        invariant
            sorted(a@),
            sorted(b@),
            i <= a.len(),
            j <= b.len(),
            r@.len() == i + j,
            sorted(r@),
            r@.to_multiset() == a@.subrange(0, i as int).to_multiset().add(
                b@.subrange(0, j as int).to_multiset(),
            ),
            forall|k: int| i <= k < a@.len() ==> r@.len() == 0 || r@.last() <= a@[k],
            forall|k: int| j <= k < b@.len() ==> r@.len() == 0 || r@.last() <= b@[k],
        decreases a@.len() + b@.len() - i - j,
    {
        let take_a: bool = if i >= a.len() {
            false
        } else if j >= b.len() {
            true
        } else {
            a[i] <= b[j]
        };
        let ghost r0 = r@;
        if take_a {
            let x = a[i];
            r.push(x);
            proof {
                broadcast use vstd::multiset::group_multiset_axioms;

                assert(r@ == r0.push(x));
                vstd::seq_lib::to_multiset_build(r0, x);
                assert(a@.subrange(0, i + 1) =~= a@.subrange(0, i as int).push(x));
                vstd::seq_lib::to_multiset_build(a@.subrange(0, i as int), x);
                assert(r@.to_multiset() =~= a@.subrange(0, i + 1).to_multiset().add(
                    b@.subrange(0, j as int).to_multiset(),
                ));
            }
            i = i + 1;
        } else {
            let x = b[j];
            r.push(x);
            proof {
                broadcast use vstd::multiset::group_multiset_axioms;

                assert(r@ == r0.push(x));
                vstd::seq_lib::to_multiset_build(r0, x);
                assert(b@.subrange(0, j + 1) =~= b@.subrange(0, j as int).push(x));
                vstd::seq_lib::to_multiset_build(b@.subrange(0, j as int), x);
                assert(r@.to_multiset() =~= a@.subrange(0, i as int).to_multiset().add(
                    b@.subrange(0, j + 1).to_multiset(),
                ));
            }
            j = j + 1;
        }
    }
    proof {
        assert(a@.subrange(0, a@.len() as int) =~= a@);
        assert(b@.subrange(0, b@.len() as int) =~= b@);
    }
    r
}

/// Sorts the vector ascending; the result is the unique ascending
/// rearrangement of the input.
pub fn merge_sort(v: Vec<u128>) -> (r: Vec<u128>)
    ensures
        sorted(r@),
        r@.to_multiset() == v@.to_multiset(),
        r@.len() == v@.len(),
        r@ == sorted_of(v@),
    decreases v@.len(),
{
    broadcast use vstd::seq_lib::group_to_multiset_ensures;

    if v.len() <= 1 {
        proof {
            lemma_sorted_of_unique(v@, v@);
        }
        return v;
    }
    let mid: usize = v.len() / 2;
    let mut left: Vec<u128> = Vec::new();
    let mut right: Vec<u128> = Vec::new();
    let mut i: usize = 0;
    while i < mid
        invariant
            mid <= v@.len(),
            i <= mid,
            left@ == v@.subrange(0, i as int),
        decreases mid - i,
    {
        left.push(v[i]);
        proof {
            assert(v@.subrange(0, i + 1) =~= v@.subrange(0, i as int).push(v@[i as int]));
        }
        i = i + 1;
    }
    let mut j: usize = mid;
    while j < v.len()
        invariant
            mid <= j <= v@.len(),
            right@ == v@.subrange(mid as int, j as int),
        decreases v@.len() - j,
    {
        right.push(v[j]);
        proof {
            assert(v@.subrange(mid as int, j + 1) =~= v@.subrange(mid as int, j as int).push(
                v@[j as int],
            ));
        }
        j = j + 1;
    }
    proof {
        assert(v@ =~= v@.subrange(0, mid as int) + v@.subrange(mid as int, v@.len() as int));
        lemma_multiset_commutative(left@, right@);
    }
    let ghost lv = left@;
    let ghost rv = right@;
    let ls = merge_sort(left);
    let rs = merge_sort(right);
    let r = merge(ls, rs);
    proof {
        assert(r@.to_multiset() =~= v@.to_multiset());
        lemma_sorted_of_unique(v@, r@);
    }
    r
}

} // verus!
