//! The comparison of two window-call files over the haplotypes of a sample
//! list.

use vstd::prelude::*;
use crate::calls::{
    columns_present,
    first_fault,
    picked_fields,
    process_msp,
    row_labels,
    window_rows,
};
use crate::concordance::{
    align_haplotypes,
    compared_rows,
    flag_rows,
    is_alignment,
    lemma_alignment_unique,
    row_fits,
    shapes_fit,
    shared_count,
    tally,
    total_count,
};
use crate::error::CompareError;
use crate::resolver::{
    check_complete,
    first_line_id_indices,
    header_labels,
    is_resolution,
    resolution_of,
    CALL_PREFIX,
};
use crate::samples::{haplotypes_of, sample_names, HaplotypeSet};
use crate::text::{byte_seqs, fields_of, lines_of};

verus! {

/// The result of a comparison: for each requested haplotype, in the order of
/// the reference file's columns, its identifier and its raw counts.
pub struct Comparison {
    pub ids: Vec<Vec<u8>>,
    pub shared: Vec<usize>,
    pub total: Vec<usize>,
}

/// The label matrix of a window-call file at the columns `indices`.
pub open spec fn labels_of(content: Seq<u8>, indices: Seq<usize>) -> Seq<Seq<u8>> {
    let rows = window_rows(content);
    Seq::new(rows.len(), |r: int| row_labels(fields_of(rows[r]), indices))
}

/// The identifiers of the columns `indices` of a window-call file.
pub open spec fn ids_of(content: Seq<u8>, indices: Seq<usize>) -> Seq<Seq<u8>> {
    picked_fields(fields_of(lines_of(content)[1]), indices)
}

/// The first fault among the window rows of a file.
pub open spec fn fault_of(content: Seq<u8>, indices: Seq<usize>) -> Option<CompareError> {
    first_fault(window_rows(content), indices, window_rows(content).len())
}

/// Every reference identifier is among the target identifiers.
pub open spec fn ids_covered(reference_ids: Seq<Seq<u8>>, target_ids: Seq<Seq<u8>>) -> bool {
    forall|i: int| 0 <= i < reference_ids.len() ==> target_ids.contains(#[trigger] reference_ids[i])
}

/// Every filter row that is walked has one flag per column.
pub open spec fn filter_fits(filter: Option<Seq<Seq<bool>>>, rows: nat, width: nat) -> bool {
    match filter {
        None => true,
        Some(f) => forall|w: int| 0 <= w < rows ==> (#[trigger] f[w]).len() == width,
    }
}

/// Why a comparison fails, if it does.
///
/// In this order: a file without a header line; a file that does not resolve
/// as many columns as there are requested haplotypes; the first fault of a
/// reference row, then of a target row; a reference identifier that the target
/// lacks; a filter row of the wrong width.
pub open spec fn comparison_error(
    samples: Seq<u8>,
    reference: Seq<u8>,
    target: Seq<u8>,
    filter: Option<Seq<Seq<bool>>>,
) -> Option<CompareError> {
    let set = haplotypes_of(sample_names(samples));
    if lines_of(reference).len() < 2 || lines_of(target).len() < 2 {
        Some(CompareError::EmptyFile)
    } else {
        let ri = resolution_of(reference, set);
        let ti = resolution_of(target, set);
        if ri.len() != set.len() || ti.len() != set.len() {
            Some(CompareError::SampleMismatch)
        } else if fault_of(reference, ri).is_some() {
            fault_of(reference, ri)
        } else if fault_of(target, ti).is_some() {
            fault_of(target, ti)
        } else if !ids_covered(ids_of(reference, ri), ids_of(target, ti)) {
            Some(CompareError::SampleMismatch)
        } else if !filter_fits(
            filter,
            compared_rows(labels_of(reference, ri), labels_of(target, ti), filter),
            ri.len(),
        ) {
            Some(CompareError::ShapeMismatch)
        } else {
            None
        }
    }
}

/// A resolution of a header names only columns that the header has.
pub proof fn lemma_resolution_present(header: Seq<u8>, set: Set<Seq<u8>>, indices: Seq<usize>)
    requires
        is_resolution(header_labels(header), set, indices),
    ensures
        columns_present(fields_of(header).len(), indices),
{
    assert forall|k: int| 0 <= k < indices.len() implies CALL_PREFIX + (#[trigger] indices[k])
        < fields_of(header).len() by {
        assert(indices[k] < header_labels(header).len());
    }
}

/// Compares the calls of two window-call files for the haplotypes of a sample
/// list, under an optional filter over the reference file's windows and
/// columns.
///
/// Window `w` counts for haplotype `i` when there is no filter or the filter
/// accepts `(w, i)`, and is shared when moreover the reference label equals the
/// target label of the column with the same identifier. The counts are raw:
/// no ratio is formed.
pub fn perform_comparison(
    samples: &Vec<u8>,
    reference: &Vec<u8>,
    target: &Vec<u8>,
    filter: Option<&Vec<Vec<bool>>>,
) -> (res: Result<Comparison, CompareError>)
    ensures
        match comparison_error(samples@, reference@, target@, flag_rows(filter)) {
            Some(e) => res == Err::<Comparison, CompareError>(e),
            None => res matches Ok(c) && ({
                let set = haplotypes_of(sample_names(samples@));
                let ri = resolution_of(reference@, set);
                let ti = resolution_of(target@, set);
                let r = labels_of(reference@, ri);
                let t = labels_of(target@, ti);
                let n = compared_rows(r, t, flag_rows(filter));
                &&& byte_seqs(&c.ids) == ids_of(reference@, ri)
                &&& c.ids@.len() == set.len()
                &&& exists|a: Seq<usize>|
                    is_alignment(ids_of(reference@, ri), ids_of(target@, ti), a)
                &&& c.shared@.len() == c.ids@.len()
                &&& c.total@.len() == c.ids@.len()
                &&& forall|a: Seq<usize>, i: int|
                    #![trigger a[i], c.shared@[i]]
                    is_alignment(ids_of(reference@, ri), ids_of(target@, ti), a) && 0 <= i
                        < c.ids@.len() ==> c.shared@[i] == shared_count(
                        r,
                        t,
                        a,
                        flag_rows(filter),
                        i,
                        n,
                    )
                &&& forall|i: int|
                    0 <= i < c.ids@.len() ==> (#[trigger] c.total@[i]) == total_count(
                        flag_rows(filter),
                        i,
                        n,
                    )
                &&& forall|i: int| 0 <= i < c.ids@.len() ==> (#[trigger] c.shared@[i]) <= c.total@[i]
                &&& filter.is_none() ==> forall|i: int|
                    0 <= i < c.ids@.len() ==> (#[trigger] c.total@[i]) == n
            }),
        },
{
    let set = HaplotypeSet::from_sample_list(samples);
    let reference_indices = match first_line_id_indices(reference, &set) {
        Ok(v) => v,
        Err(e) => {
            return Err(e);
        },
    };
    let target_indices = match first_line_id_indices(target, &set) {
        Ok(v) => v,
        Err(e) => {
            return Err(e);
        },
    };
    match check_complete(&set, &reference_indices, &target_indices) {
        Ok(_) => {},
        Err(e) => {
            return Err(e);
        },
    }
    proof {
        lemma_resolution_present(lines_of(reference@)[1], set@, reference_indices@);
        lemma_resolution_present(lines_of(target@)[1], set@, target_indices@);
    }
    let reference_calls = match process_msp(reference, &reference_indices) {
        Ok(c) => c,
        Err(e) => {
            return Err(e);
        },
    };
    let target_calls = match process_msp(target, &target_indices) {
        Ok(c) => c,
        Err(e) => {
            return Err(e);
        },
    };
    let ghost r = labels_of(reference@, reference_indices@);
    let ghost t = labels_of(target@, target_indices@);
    let ghost f = flag_rows(filter);
    let ghost n = compared_rows(r, t, f);
    assert(byte_seqs(&reference_calls.labels) =~= r);
    assert(byte_seqs(&target_calls.labels) =~= t);
    let alignment = match align_haplotypes(&reference_calls.ids, &target_calls.ids) {
        Some(a) => a,
        None => {
            return Err(CompareError::SampleMismatch);
        },
    };
    proof {
        if filter_fits(f, n, reference_indices@.len()) {
            assert forall|w: int| 0 <= w < n implies #[trigger] row_fits(
                r,
                t,
                alignment@,
                f,
                w,
            ) by {
                assert(r[w].len() == reference_indices@.len());
                assert(t[w].len() == target_indices@.len());
                if let Some(ff) = f {
                    assert(ff[w].len() == reference_indices@.len());
                }
            }
        } else {
            let ff = f.unwrap();
            let w = choose|w: int| 0 <= w < n && (#[trigger] ff[w]).len() != reference_indices@.len();
            assert(!row_fits(r, t, alignment@, f, w));
        }
    }
    match tally(&reference_calls.labels, &target_calls.labels, &alignment, filter) {
        None => Err(CompareError::ShapeMismatch),
        Some(counts) => {
            let c = Comparison {
                ids: reference_calls.ids,
                shared: counts.shared,
                total: counts.total,
            };
            proof {
                assert(is_alignment(
                    ids_of(reference@, reference_indices@),
                    ids_of(target@, target_indices@),
                    alignment@,
                ));
                assert forall|a: Seq<usize>, i: int|
                    #![trigger a[i], c.shared@[i]]
                    is_alignment(
                        ids_of(reference@, reference_indices@),
                        ids_of(target@, target_indices@),
                        a,
                    ) && 0 <= i < c.ids@.len() implies c.shared@[i] == shared_count(
                    r,
                    t,
                    a,
                    f,
                    i,
                    n,
                ) by {
                    lemma_alignment_unique(
                        ids_of(reference@, reference_indices@),
                        ids_of(target@, target_indices@),
                        a,
                        alignment@,
                    );
                }
            }
            Ok(c)
        },
    }
}

} // verus!
