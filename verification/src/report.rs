//! The totals that a report of a comparison shows.

use vstd::prelude::*;

verus! {

/// The sum of the first `n` counts.
pub open spec fn counts_sum(counts: Seq<usize>, n: nat) -> nat
    decreases n,
{
    if n == 0 {
        0
    } else {
        counts_sum(counts, (n - 1) as nat) + counts[n - 1] as nat
    }
}

/// A sum of counts only grows.
pub proof fn lemma_sum_grows(counts: Seq<usize>, m: nat, n: nat)
    requires
        m <= n,
    ensures
        counts_sum(counts, m) <= counts_sum(counts, n),
    decreases n,
{
    if m < n {
        lemma_sum_grows(counts, m, (n - 1) as nat);
    }
}

/// Adds up the counts of all haplotypes.
///
/// Returns `None` exactly when the sum does not fit the machine's word.
pub fn grand_total(counts: &Vec<usize>) -> (res: Option<usize>)
    ensures
        res.is_some() == (counts_sum(counts@, counts@.len()) <= usize::MAX),
        res matches Some(sum) ==> sum == counts_sum(counts@, counts@.len()),
{
    let mut sum: usize = 0;
    let mut k: usize = 0;
    while k < counts.len()
        invariant
            k <= counts@.len(),
            sum == counts_sum(counts@, k as nat),
        decreases counts@.len() - k,
    {
        if counts[k] > usize::MAX - sum {
            proof {
                lemma_sum_grows(counts@, (k + 1) as nat, counts@.len());
            }
            return None;
        }
        sum += counts[k];
        k += 1;
    }
    Some(sum)
}

} // verus!
