//! Digit-ordering strategies for the backtracking search, and the one
//! source of randomness: a shuffle of the numbers 0..n.

use vstd::prelude::*;

verus! {

broadcast use vstd::seq_lib::group_to_multiset_ensures;

/// The identity permutation 0, 1, ..., n-1 as a sequence.
pub open spec fn identity_perm(n: nat) -> Seq<usize> {
    Seq::new(n, |i: int| i as usize)
}

/// Relies on rand's `SliceRandom::shuffle`: a Fisher-Yates pass of
/// in-place swaps, so it reorders the elements of the slice and adds or
/// removes none.
#[verifier::external_body]
fn shuffle_in_place(v: &mut Vec<usize>)
    ensures
        final(v)@.to_multiset() == old(v)@.to_multiset(),
{
    rand::seq::SliceRandom::shuffle(&mut v[..], &mut rand::thread_rng());
}

/// Every value below `n` occurs somewhere in a reordering of 0..n.
pub proof fn lemma_perm_contains(s: Seq<usize>, n: nat, k: usize)
    requires
        s.to_multiset() == identity_perm(n).to_multiset(),
        k < n,
    ensures
        exists|j: int| 0 <= j < s.len() && s[j] == k,
{
    assert(identity_perm(n)[k as int] == k);
    assert(identity_perm(n).contains(k));
    assert(s.to_multiset().count(k) > 0);
    assert(s.contains(k));
}

/// A reordering of 0..n repeats no value.
pub proof fn lemma_perm_no_duplicates(s: Seq<usize>, n: nat)
    requires
        s.to_multiset() == identity_perm(n).to_multiset(),
        n <= usize::MAX,
    ensures
        s.no_duplicates(),
{
    assert forall|i: int, j: int|
        0 <= i < n && 0 <= j < n && i != j implies identity_perm(n)[i] != identity_perm(n)[j] by {
        assert(identity_perm(n)[i] == i as usize);
        assert(identity_perm(n)[j] == j as usize);
    }
    assert(identity_perm(n).no_duplicates());
    identity_perm(n).lemma_multiset_has_no_duplicates();
    s.lemma_multiset_has_no_duplicates_conv();
}

/// The numbers 0..n in an order drawn fresh from the process-global RNG.
pub fn shuffled(n: usize) -> (r: Vec<usize>)
    ensures
        r@.len() == n,
        r@.to_multiset() == identity_perm(n as nat).to_multiset(),
        forall|j: int| 0 <= j < n ==> #[trigger] r@[j] < n,
{
    let mut result: Vec<usize> = Vec::new();
    let mut i: usize = 0;
    while i < n
        invariant
            i <= n,
            result@.len() == i,
            forall|j: int| 0 <= j < i ==> #[trigger] result@[j] == j,
        decreases n - i,
    {
        result.push(i);
        i += 1;
    }
    proof {
        assert(result@ =~= identity_perm(n as nat));
    }
    shuffle_in_place(&mut result);
    proof {
        assert(result@.len() == result@.to_multiset().len());
        assert(identity_perm(n as nat).len() == identity_perm(n as nat).to_multiset().len());
        assert forall|j: int| 0 <= j < n implies #[trigger] result@[j] < n by {
            let x = result@[j];
            assert(result@.contains(x));
            assert(result@.to_multiset().count(x) > 0);
            assert(identity_perm(n as nat).contains(x));
            let i2 = choose|i2: int|
                0 <= i2 < identity_perm(n as nat).len() && identity_perm(n as nat)[i2] == x;
            assert(x == i2 as usize);
        }
    }
    result
}

/// A strategy that yields, once per call, the order in which the search
/// tries the digit indices 0..=8: always some permutation of them.
pub trait DigitOrdering {
    /// A permutation of the digit indices 0..=8.
    fn order(&self) -> (r: Vec<usize>)
        ensures
            r@.len() == 9,
            r@.to_multiset() == identity_perm(9).to_multiset(),
            forall|j: int| 0 <= j < 9 ==> #[trigger] r@[j] < 9,
    ;
}

/// Tries digits in increasing order: a deterministic search.
pub struct SequentialOrdering;

impl DigitOrdering for SequentialOrdering {
    fn order(&self) -> (r: Vec<usize>) {
        let mut result: Vec<usize> = Vec::new();
        let mut i: usize = 0;
        while i < 9
            invariant
                i <= 9,
                result@.len() == i,
                forall|j: int| 0 <= j < i ==> #[trigger] result@[j] == j,
            decreases 9 - i,
        {
            result.push(i);
            i += 1;
        }
        proof {
            assert(result@ =~= identity_perm(9));
        }
        result
    }
}

/// Draws a fresh random order of the digits at every call.
pub struct RandomOrdering;

impl DigitOrdering for RandomOrdering {
    fn order(&self) -> (r: Vec<usize>) {
        shuffled(9)
    }
}

} // verus!
