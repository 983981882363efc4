//! The concordance accumulator: per-haplotype counts of compared windows and of
//! windows on which the reference call and the target call agree.

use vstd::prelude::*;
use crate::text::{byte_seqs, same_bytes};

verus! {

/// The counts of one comparison, one entry per reference haplotype.
pub struct ConcordanceTally {
    /// Windows that were counted and on which both runs made the same call.
    pub shared: Vec<usize>,
    /// Windows that were counted.
    pub total: Vec<usize>,
}

/// The rows of an optional filter matrix as sequences.
pub open spec fn flag_rows(filter: Option<&Vec<Vec<bool>>>) -> Option<Seq<Seq<bool>>> {
    match filter {
        None => None,
        Some(f) => Some(Seq::new(f@.len(), |w: int| f@[w]@)),
    }
}

/// How many window rows a comparison walks: the rows that every matrix has.
pub open spec fn compared_rows(
    reference: Seq<Seq<u8>>,
    target: Seq<Seq<u8>>,
    filter: Option<Seq<Seq<bool>>>,
) -> nat {
    let n = if reference.len() <= target.len() {
        reference.len()
    } else {
        target.len()
    };
    match filter {
        None => n,
        Some(f) => if f.len() <= n {
            f.len()
        } else {
            n
        },
    }
}

/// Row `w` of each matrix is wide enough for the alignment.
pub open spec fn row_fits(
    reference: Seq<Seq<u8>>,
    target: Seq<Seq<u8>>,
    alignment: Seq<usize>,
    filter: Option<Seq<Seq<bool>>>,
    w: int,
) -> bool {
    &&& reference[w].len() == alignment.len()
    &&& forall|i: int| 0 <= i < alignment.len() ==> (#[trigger] alignment[i]) < target[w].len()
    &&& match filter {
        None => true,
        Some(f) => f[w].len() == alignment.len(),
    }
}

/// Every compared row fits the alignment.
pub open spec fn shapes_fit(
    reference: Seq<Seq<u8>>,
    target: Seq<Seq<u8>>,
    alignment: Seq<usize>,
    filter: Option<Seq<Seq<bool>>>,
) -> bool {
    forall|w: int|
        0 <= w < compared_rows(reference, target, filter) ==> #[trigger] row_fits(
            reference,
            target,
            alignment,
            filter,
            w,
        )
}

/// Window `w` counts for haplotype `i`: there is no filter, or the filter accepts it.
pub open spec fn is_counted(filter: Option<Seq<Seq<bool>>>, w: int, i: int) -> bool {
    match filter {
        None => true,
        Some(f) => f[w][i],
    }
}

/// On window `w` the reference call of haplotype `i` equals the target call of
/// the haplotype it is aligned with.
pub open spec fn calls_agree(
    reference: Seq<Seq<u8>>,
    target: Seq<Seq<u8>>,
    alignment: Seq<usize>,
    w: int,
    i: int,
) -> bool {
    reference[w][i] == target[w][alignment[i] as int]
}

/// The number of counted windows among the first `n`, for haplotype `i`.
pub open spec fn total_count(filter: Option<Seq<Seq<bool>>>, i: int, n: nat) -> nat
    decreases n,
{
    if n == 0 {
        0
    } else {
        let before = total_count(filter, i, (n - 1) as nat);
        if is_counted(filter, n - 1, i) {
            before + 1
        } else {
            before
        }
    }
}

/// The number of counted windows among the first `n` on which the calls agree,
/// for haplotype `i`.
pub open spec fn shared_count(
    reference: Seq<Seq<u8>>,
    target: Seq<Seq<u8>>,
    alignment: Seq<usize>,
    filter: Option<Seq<Seq<bool>>>,
    i: int,
    n: nat,
) -> nat
    decreases n,
{
    if n == 0 {
        0
    } else {
        let before = shared_count(reference, target, alignment, filter, i, (n - 1) as nat);
        if is_counted(filter, n - 1, i) && calls_agree(reference, target, alignment, n - 1, i) {
            before + 1
        } else {
            before
        }
    }
}

/// A haplotype never shares more windows than were counted for it, and never
/// has more counted than were walked.
pub proof fn lemma_shared_at_most_total(
    reference: Seq<Seq<u8>>,
    target: Seq<Seq<u8>>,
    alignment: Seq<usize>,
    filter: Option<Seq<Seq<bool>>>,
    i: int,
    n: nat,
)
    ensures
        shared_count(reference, target, alignment, filter, i, n) <= total_count(filter, i, n),
        total_count(filter, i, n) <= n,
    decreases n,
{
    if n > 0 {
        lemma_shared_at_most_total(reference, target, alignment, filter, i, (n - 1) as nat);
    }
}

/// Without a filter every walked window is counted.
pub proof fn lemma_unfiltered_total_is_window_count(i: int, n: nat)
    ensures
        total_count(None, i, n) == n,
    decreases n,
{
    if n > 0 {
        lemma_unfiltered_total_is_window_count(i, (n - 1) as nat);
    }
}

/// A filter that accepts no cell that another rejects gives no larger total:
/// tightening the acceptance rule never adds a counted window.
pub proof fn lemma_stricter_filter_counts_no_more(
    loose: Seq<Seq<bool>>,
    strict: Seq<Seq<bool>>,
    i: int,
    n: nat,
)
    requires
        forall|w: int| 0 <= w < n && #[trigger] strict[w][i] ==> loose[w][i],
    ensures
        total_count(Some(strict), i, n) <= total_count(Some(loose), i, n),
    decreases n,
{
    if n > 0 {
        lemma_stricter_filter_counts_no_more(loose, strict, i, (n - 1) as nat);
        assert(strict[n - 1][i] ==> loose[n - 1][i]);
    }
}

/// Two target layouts that hold the same call under the same identifier give
/// the same counts, whatever the order of their columns: the comparison goes by
/// identifier, through the alignment of each layout.
pub proof fn lemma_counts_follow_identifiers(
    reference: Seq<Seq<u8>>,
    ids: Seq<Seq<u8>>,
    target_a: Seq<Seq<u8>>,
    ids_a: Seq<Seq<u8>>,
    alignment_a: Seq<usize>,
    target_b: Seq<Seq<u8>>,
    ids_b: Seq<Seq<u8>>,
    alignment_b: Seq<usize>,
    filter: Option<Seq<Seq<bool>>>,
    i: int,
    n: nat,
)
    requires
        0 <= i < ids.len(),
        is_alignment(ids, ids_a, alignment_a),
        is_alignment(ids, ids_b, alignment_b),
        forall|w: int, ja: int, jb: int|
            0 <= w < n && 0 <= ja < ids_a.len() && 0 <= jb < ids_b.len() && ids_a[ja] == ids_b[jb]
                ==> #[trigger] target_a[w][ja] == #[trigger] target_b[w][jb],
    ensures
        shared_count(reference, target_a, alignment_a, filter, i, n) == shared_count(
            reference,
            target_b,
            alignment_b,
            filter,
            i,
            n,
        ),
    decreases n,
{
    if n > 0 {
        lemma_counts_follow_identifiers(
            reference,
            ids,
            target_a,
            ids_a,
            alignment_a,
            target_b,
            ids_b,
            alignment_b,
            filter,
            i,
            (n - 1) as nat,
        );
        let ja = alignment_a[i] as int;
        let jb = alignment_b[i] as int;
        assert(ids_a[ja] == ids[i]);
        assert(ids_b[jb] == ids[i]);
        assert(target_a[n - 1][ja] == target_b[n - 1][jb]);
    }
}

/// `alignment` sends each reference column to the first target column that
/// carries the same identifier.
pub open spec fn is_alignment(
    reference_ids: Seq<Seq<u8>>,
    target_ids: Seq<Seq<u8>>,
    alignment: Seq<usize>,
) -> bool {
    &&& alignment.len() == reference_ids.len()
    &&& forall|i: int|
        0 <= i < reference_ids.len() ==> {
            &&& (#[trigger] alignment[i]) < target_ids.len()
            &&& target_ids[alignment[i] as int] == reference_ids[i]
            &&& forall|j: int| 0 <= j < alignment[i] ==> target_ids[j] != reference_ids[i]
        }
}

/// Two columns lists have one alignment only.
pub proof fn lemma_alignment_unique(
    reference_ids: Seq<Seq<u8>>,
    target_ids: Seq<Seq<u8>>,
    first: Seq<usize>,
    second: Seq<usize>,
)
    requires
        is_alignment(reference_ids, target_ids, first),
        is_alignment(reference_ids, target_ids, second),
    ensures
        first == second,
{
    assert forall|i: int| 0 <= i < first.len() implies first[i] == second[i] by {
        let a = first[i];
        let b = second[i];
        if a < b {
            assert(target_ids[a as int] == reference_ids[i]);
        } else if b < a {
            assert(target_ids[b as int] == reference_ids[i]);
        }
    }
    assert(first =~= second);
}

/// Maps each reference column to the target column of the same identifier.
///
/// Returns `None` exactly when some reference identifier is missing from the
/// target.
pub fn align_haplotypes(reference_ids: &Vec<Vec<u8>>, target_ids: &Vec<Vec<u8>>) -> (res: Option<
    Vec<usize>,
>)
    ensures
        res.is_some() <==> forall|i: int|
            0 <= i < reference_ids@.len() ==> byte_seqs(target_ids).contains(
                #[trigger] byte_seqs(reference_ids)[i],
            ),
        res matches Some(alignment) ==> is_alignment(
            byte_seqs(reference_ids),
            byte_seqs(target_ids),
            alignment@,
        ),
{
    let mut alignment: Vec<usize> = Vec::new();
    let mut i: usize = 0;
    while i < reference_ids.len()
        invariant
            i <= reference_ids@.len(),
            alignment@.len() == i,
            forall|k: int|
                0 <= k < i ==> {
                    &&& (#[trigger] alignment@[k]) < target_ids@.len()
                    &&& byte_seqs(target_ids)[alignment@[k] as int] == byte_seqs(reference_ids)[k]
                    &&& forall|j: int|
                        0 <= j < alignment@[k] ==> byte_seqs(target_ids)[j] != byte_seqs(
                            reference_ids,
                        )[k]
                },
            forall|k: int|
                0 <= k < i ==> byte_seqs(target_ids).contains(#[trigger] byte_seqs(reference_ids)[k]),
        decreases reference_ids@.len() - i,
    {
        let mut j: usize = 0;
        let mut found: bool = false;
        while j < target_ids.len() && !found
            invariant
                i < reference_ids@.len(),
                j <= target_ids@.len(),
                forall|m: int|
                    0 <= m < j - (if found { 1int } else { 0int }) ==> byte_seqs(target_ids)[m] != byte_seqs(reference_ids)[i as int],
                found ==> 0 < j && byte_seqs(target_ids)[j - 1] == byte_seqs(reference_ids)[i as int],
            decreases target_ids@.len() - j + (if found { 0int } else { 1int }),
        {
            if same_bytes(&reference_ids[i], &target_ids[j]) {
                found = true;
            }
            j += 1;
        }
        if !found {
            proof {
                let wanted = byte_seqs(reference_ids)[i as int];
                if byte_seqs(target_ids).contains(wanted) {
                    let m = choose|m: int|
                        0 <= m < byte_seqs(target_ids).len() && byte_seqs(target_ids)[m] == wanted;
                    assert(byte_seqs(target_ids)[m] != wanted);
                }
            }
            return None;
        }
        assert(byte_seqs(target_ids).contains(byte_seqs(reference_ids)[i as int])) by {
            assert(byte_seqs(target_ids)[j - 1] == byte_seqs(reference_ids)[i as int]);
        }
        alignment.push(j - 1);
        i += 1;
    }
    Some(alignment)
}

/// Counts, for each reference haplotype, the windows that are compared and the
/// windows on which the two runs agree.
///
/// Window `w` counts for haplotype `i` when there is no filter or the filter
/// holds `true` at `(w, i)`; it is shared when moreover the reference label at
/// `(w, i)` equals the target label at `(w, alignment[i])`. The rows walked are
/// those that every matrix has. Returns `None` exactly when some walked row is
/// not as wide as the alignment asks.
pub fn tally(
    reference: &Vec<Vec<u8>>,
    target: &Vec<Vec<u8>>,
    alignment: &Vec<usize>,
    filter: Option<&Vec<Vec<bool>>>,
) -> (res: Option<ConcordanceTally>)
    ensures
        res.is_some() <==> shapes_fit(
            byte_seqs(reference),
            byte_seqs(target),
            alignment@,
            flag_rows(filter),
        ),
        res matches Some(t) ==> t.shared@.len() == alignment@.len() && t.total@.len()
            == alignment@.len(),
        res matches Some(t) ==> forall|i: int|
            0 <= i < alignment@.len() ==> (#[trigger] t.shared@[i]) == shared_count(
                byte_seqs(reference),
                byte_seqs(target),
                alignment@,
                flag_rows(filter),
                i,
                compared_rows(byte_seqs(reference), byte_seqs(target), flag_rows(filter)),
            ),
        res matches Some(t) ==> forall|i: int|
            0 <= i < alignment@.len() ==> (#[trigger] t.total@[i]) == total_count(
                flag_rows(filter),
                i,
                compared_rows(byte_seqs(reference), byte_seqs(target), flag_rows(filter)),
            ),
        res matches Some(t) ==> forall|i: int|
            0 <= i < alignment@.len() ==> (#[trigger] t.shared@[i]) <= t.total@[i],
        res matches Some(t) ==> forall|i: int|
            0 <= i < alignment@.len() ==> (#[trigger] t.total@[i]) <= compared_rows(
                byte_seqs(reference),
                byte_seqs(target),
                flag_rows(filter),
            ),
        res matches Some(t) ==> filter.is_none() ==> forall|i: int|
            0 <= i < alignment@.len() ==> (#[trigger] t.total@[i]) == compared_rows(
                byte_seqs(reference),
                byte_seqs(target),
                flag_rows(filter),
            ),
{
    let ghost r = byte_seqs(reference);
    let ghost t = byte_seqs(target);
    let ghost f = flag_rows(filter);
    let width: usize = alignment.len();
    let mut rows: usize = if reference.len() <= target.len() {
        reference.len()
    } else {
        target.len()
    };
    match filter {
        Some(flags) => {
            if flags.len() < rows {
                rows = flags.len();
            }
        },
        None => {},
    }
    assert(rows == compared_rows(r, t, f));
    let mut shared: Vec<usize> = Vec::new();
    let mut total: Vec<usize> = Vec::new();
    let mut k: usize = 0;
    while k < width
        invariant
            k <= width,
            shared@.len() == k,
            total@.len() == k,
            forall|i: int| 0 <= i < k ==> shared@[i] == 0 && total@[i] == 0,
        decreases width - k,
    {
        shared.push(0);
        total.push(0);
        k += 1;
    }
    let mut w: usize = 0;
    while w < rows
        invariant
            r == byte_seqs(reference),
            t == byte_seqs(target),
            f == flag_rows(filter),
            rows == compared_rows(r, t, f),
            width == alignment@.len(),
            w <= rows,
            shared@.len() == width,
            total@.len() == width,
            forall|v: int| 0 <= v < w ==> row_fits(r, t, alignment@, f, v),
            forall|i: int|
                0 <= i < width ==> (#[trigger] shared@[i]) == shared_count(
                    r,
                    t,
                    alignment@,
                    f,
                    i,
                    w as nat,
                ),
            forall|i: int| 0 <= i < width ==> (#[trigger] total@[i]) == total_count(f, i, w as nat),
        decreases rows - w,
    {
        let reference_row = &reference[w];
        let target_row = &target[w];
        if reference_row.len() != width {
            assert(!row_fits(r, t, alignment@, f, w as int));
            return None;
        }
        match filter {
            Some(flags) => {
                if flags[w].len() != width {
                    assert(!row_fits(r, t, alignment@, f, w as int));
                    return None;
                }
            },
            None => {},
        }
        let mut i: usize = 0;
        while i < width
            invariant
                r == byte_seqs(reference),
                t == byte_seqs(target),
                f == flag_rows(filter),
                rows == compared_rows(r, t, f),
                width == alignment@.len(),
                w < rows,
                i <= width,
                reference_row@ == r[w as int],
                target_row@ == t[w as int],
                r[w as int].len() == width,
                f matches Some(ff) ==> ff[w as int].len() == width,
                shared@.len() == width,
                total@.len() == width,
                forall|m: int| 0 <= m < i ==> (#[trigger] alignment@[m]) < t[w as int].len(),
                forall|m: int|
                    0 <= m < i ==> (#[trigger] shared@[m]) == shared_count(
                        r,
                        t,
                        alignment@,
                        f,
                        m,
                        (w + 1) as nat,
                    ),
                forall|m: int|
                    0 <= m < i ==> (#[trigger] total@[m]) == total_count(f, m, (w + 1) as nat),
                forall|m: int|
                    i <= m < width ==> (#[trigger] shared@[m]) == shared_count(
                        r,
                        t,
                        alignment@,
                        f,
                        m,
                        w as nat,
                    ),
                forall|m: int|
                    i <= m < width ==> (#[trigger] total@[m]) == total_count(f, m, w as nat),
            decreases width - i,
        {
            let j: usize = alignment[i];
            if j >= target_row.len() {
                assert(!row_fits(r, t, alignment@, f, w as int));
                return None;
            }
            let counted: bool = match filter {
                Some(flags) => flags[w][i],
                None => true,
            };
            assert(counted == is_counted(f, w as int, i as int));
            proof {
                lemma_shared_at_most_total(r, t, alignment@, f, i as int, w as nat);
                assert(total@[i as int] <= w);
                assert(shared@[i as int] <= w);
            }
            if counted {
                let seen: usize = total[i];
                total.set(i, seen + 1);
                assert(calls_agree(r, t, alignment@, w as int, i as int) == (reference_row@[i as int]
                    == target_row@[j as int]));
                if reference_row[i] == target_row[j] {
                    let agreed: usize = shared[i];
                    shared.set(i, agreed + 1);
                }
            }
            i += 1;
        }
        assert(row_fits(r, t, alignment@, f, w as int));
        w += 1;
    }
    proof {
        assert forall|i: int| 0 <= i < width implies (#[trigger] shared@[i]) <= total@[i] by {
            assert(total@[i] == total_count(f, i, rows as nat));
            lemma_shared_at_most_total(r, t, alignment@, f, i, rows as nat);
        }
        assert forall|i: int| 0 <= i < width implies (#[trigger] total@[i]) <= rows by {
            lemma_shared_at_most_total(r, t, alignment@, f, i, rows as nat);
        }
        if filter.is_none() {
            assert forall|i: int| 0 <= i < width implies total@[i] == rows by {
                lemma_unfiltered_total_is_window_count(i, rows as nat);
            }
        }
    }
    Some(ConcordanceTally { shared, total })
}

} // verus!
