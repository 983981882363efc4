//! The sample index resolver: which columns of a file hold the requested
//! haplotypes.

use vstd::prelude::*;
use crate::error::CompareError;
use crate::samples::HaplotypeSet;
use crate::text::{byte_seqs, fields, fields_of, lines, lines_of};

verus! {

/// The number of fields that stand before the haplotype columns, in the header
/// line and in every window row.
pub const CALL_PREFIX: usize = 6;

/// The column labels of a header line: its fields after the leading ones.
pub open spec fn header_labels(header: Seq<u8>) -> Seq<Seq<u8>> {
    let f = fields_of(header);
    if f.len() >= CALL_PREFIX {
        f.skip(CALL_PREFIX as int)
    } else {
        Seq::empty()
    }
}

/// The offsets below `n` of the columns whose label is in `set`, in file order.
pub open spec fn resolved(labels: Seq<Seq<u8>>, set: Set<Seq<u8>>, n: nat) -> Seq<usize>
    decreases n,
{
    if n == 0 {
        Seq::empty()
    } else {
        let before = resolved(labels, set, (n - 1) as nat);
        if set.contains(labels[n - 1]) {
            before.push((n - 1) as usize)
        } else {
            before
        }
    }
}

/// The column offsets that a file's header gives for `set`.
pub open spec fn resolution_of(content: Seq<u8>, set: Set<Seq<u8>>) -> Seq<usize> {
    let labels = header_labels(lines_of(content)[1]);
    resolved(labels, set, labels.len())
}

/// `indices` lists, in rising order and each once, exactly the offsets of the
/// columns whose label is in `set`.
pub open spec fn is_resolution(labels: Seq<Seq<u8>>, set: Set<Seq<u8>>, indices: Seq<usize>) -> bool {
    &&& forall|k: int|
        0 <= k < indices.len() ==> (#[trigger] indices[k]) < labels.len() && set.contains(
            labels[indices[k] as int],
        )
    &&& forall|a: int, b: int| 0 <= a < b < indices.len() ==> indices[a] < indices[b]
    &&& forall|i: int|
        0 <= i < labels.len() && set.contains(#[trigger] labels[i]) ==> exists|k: int|
            0 <= k < indices.len() && #[trigger] indices[k] == i
}

/// What the resolver returns is a resolution, and it names no more columns
/// than there are.
pub proof fn lemma_resolved_is_resolution(labels: Seq<Seq<u8>>, set: Set<Seq<u8>>, n: nat)
    requires
        n <= labels.len() <= usize::MAX,
    ensures
        is_resolution(labels.take(n as int), set, resolved(labels, set, n)),
        resolved(labels, set, n).len() <= n,
    decreases n,
{
    if n > 0 {
        let before = resolved(labels, set, (n - 1) as nat);
        let after = resolved(labels, set, n);
        let part = labels.take(n as int);
        lemma_resolved_is_resolution(labels, set, (n - 1) as nat);
        assert forall|k: int| 0 <= k < after.len() implies (#[trigger] after[k]) < part.len()
            && set.contains(part[after[k] as int]) by {
            if k < before.len() {
                assert(after[k] == before[k]);
                assert(labels.take(n - 1)[before[k] as int] == part[before[k] as int]);
            }
        }
        assert forall|a: int, b: int| 0 <= a < b < after.len() implies after[a] < after[b] by {
            assert(after[a] == before[a]);
            if b < before.len() {
                assert(after[b] == before[b]);
            }
        }
        assert forall|i: int| 0 <= i < part.len() && set.contains(#[trigger] part[i]) implies exists|
            k: int,
        |
            0 <= k < after.len() && #[trigger] after[k] == i by {
            if i < n - 1 {
                assert(labels.take(n - 1)[i] == part[i]);
                let k = choose|k: int| 0 <= k < before.len() && #[trigger] before[k] == i;
                assert(after[k] == i);
            } else {
                assert(after[after.len() - 1] == i);
            }
        }
    }
}

/// A header has one resolution only: resolving again gives the same offsets.
pub proof fn lemma_resolution_unique(
    labels: Seq<Seq<u8>>,
    set: Set<Seq<u8>>,
    first: Seq<usize>,
    second: Seq<usize>,
)
    requires
        is_resolution(labels, set, first),
        is_resolution(labels, set, second),
    ensures
        first == second,
{
    lemma_common_prefix(labels, set, first, second, first.len());
    lemma_common_prefix(labels, set, second, first, second.len());
    if first.len() < second.len() {
        let i = second[first.len() as int];
        assert(set.contains(labels[i as int]));
        let k = choose|k: int| 0 <= k < first.len() && #[trigger] first[k] == i;
        assert(second[k] == first[k]);
    } else if second.len() < first.len() {
        let i = first[second.len() as int];
        assert(set.contains(labels[i as int]));
        let k = choose|k: int| 0 <= k < second.len() && #[trigger] second[k] == i;
        assert(first[k] == second[k]);
    }
    assert(first =~= second);
}

/// Two resolutions of one header agree on every place that both have.
proof fn lemma_common_prefix(
    labels: Seq<Seq<u8>>,
    set: Set<Seq<u8>>,
    first: Seq<usize>,
    second: Seq<usize>,
    n: nat,
)
    requires
        is_resolution(labels, set, first),
        is_resolution(labels, set, second),
        n <= first.len(),
    ensures
        forall|k: int| 0 <= k < n && k < second.len() ==> first[k] == second[k],
    decreases n,
{
    if n > 0 {
        lemma_common_prefix(labels, set, first, second, (n - 1) as nat);
        let m = n - 1;
        if m < second.len() {
            let a = first[m];
            let b = second[m];
            if a < b {
                assert(set.contains(labels[a as int]));
                let j = choose|j: int| 0 <= j < second.len() && #[trigger] second[j] == a;
                if j < m {
                    assert(first[j] == second[j]);
                    assert(first[j] < first[m]);
                } else if j > m {
                    assert(second[m] < second[j]);
                }
            } else if b < a {
                assert(set.contains(labels[b as int]));
                let j = choose|j: int| 0 <= j < first.len() && #[trigger] first[j] == b;
                if j < m {
                    assert(first[j] == second[j]);
                    assert(second[j] < second[m]);
                } else if j > m {
                    assert(first[m] < first[j]);
                }
            }
        }
    }
}

/// Resolves the haplotypes of `set` in a header line: the offsets, after the
/// leading fields and in file order, of the columns whose label is in `set`.
pub fn resolve_columns(header: &Vec<u8>, set: &HaplotypeSet) -> (indices: Vec<usize>)
    ensures
        indices@ == resolved(header_labels(header@), set@, header_labels(header@).len()),
        is_resolution(header_labels(header@), set@, indices@),
        indices@.len() <= header_labels(header@).len(),
{
    let f = fields(header);
    let ghost labels = header_labels(header@);
    let mut indices: Vec<usize> = Vec::new();
    if f.len() < CALL_PREFIX {
        proof {
            lemma_resolved_is_resolution(labels, set@, 0);
            assert(labels.take(0) =~= labels);
        }
        return indices;
    }
    let count: usize = f.len() - CALL_PREFIX;
    let mut i: usize = 0;
    while i < count
        invariant
            byte_seqs(&f) == fields_of(header@),
            labels == header_labels(header@),
            CALL_PREFIX <= f@.len() <= usize::MAX,
            count == f@.len() - CALL_PREFIX,
            count == labels.len(),
            i <= count,
            indices@ == resolved(labels, set@, i as nat),
        decreases count - i,
    {
        assert(labels[i as int] == f@[i + CALL_PREFIX]@) by {
            assert(byte_seqs(&f)[i + CALL_PREFIX] == f@[i + CALL_PREFIX]@);
        }
        if set.contains(&f[i + CALL_PREFIX]) {
            indices.push(i);
        }
        i += 1;
    }
    proof {
        lemma_resolved_is_resolution(labels, set@, count as nat);
        assert(labels.take(count as int) =~= labels);
    }
    indices
}

/// Resolves the haplotypes of `set` in a window-call file, whose second line
/// is the header.
///
/// Fails with `EmptyFile` exactly when the file has no second line.
pub fn first_line_id_indices(content: &Vec<u8>, set: &HaplotypeSet) -> (res: Result<
    Vec<usize>,
    CompareError,
>)
    ensures
        lines_of(content@).len() < 2 ==> res == Err::<Vec<usize>, CompareError>(
            CompareError::EmptyFile,
        ),
        lines_of(content@).len() >= 2 ==> (res matches Ok(indices) && indices@ == resolution_of(
            content@,
            set@,
        ) && is_resolution(header_labels(lines_of(content@)[1]), set@, indices@)),
{
    let all = lines(content);
    if all.len() < 2 {
        return Err(CompareError::EmptyFile);
    }
    assert(byte_seqs(&all)[1] == all@[1]@);
    Ok(resolve_columns(&all[1], set))
}

/// Checks that both files hold every requested haplotype: each must have
/// resolved as many columns as the set has identifiers.
///
/// Fails with `SampleMismatch` exactly when either count differs.
pub fn check_complete(set: &HaplotypeSet, reference: &Vec<usize>, target: &Vec<usize>) -> (res:
    Result<(), CompareError>)
    requires
        set.wf(),
    ensures
        (reference@.len() == set@.len() && target@.len() == set@.len()) ==> res is Ok,
        (reference@.len() != set@.len() || target@.len() != set@.len()) ==> res == Err::<
            (),
            CompareError,
        >(CompareError::SampleMismatch),
{
    let wanted: usize = set.len();
    if reference.len() != wanted || target.len() != wanted {
        Err(CompareError::SampleMismatch)
    } else {
        Ok(())
    }
}

} // verus!
