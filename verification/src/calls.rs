//! The window-call parser: windows, called labels and column identifiers of a
//! window-call file, restricted to the resolved columns.

use vstd::prelude::*;
use crate::error::CompareError;
use crate::resolver::CALL_PREFIX;
use crate::text::{byte_seqs, copy_bytes, decimal_of, fields, fields_of, lines, lines_of, parse_decimal};
use crate::window::Window;

verus! {

/// The label code that stands for a cell that holds no label.
pub const UNKNOWN_LABEL: u8 = 255;

/// The label that a cell holds: its number, or the unknown code where it
/// holds none that fits.
pub open spec fn label_of(cell: Seq<u8>) -> u8 {
    match decimal_of(cell, UNKNOWN_LABEL as nat) {
        Some(v) => v as u8,
        None => UNKNOWN_LABEL,
    }
}

/// The window of a row: its second and third fields, read as numbers.
pub open spec fn window_of(f: Seq<Seq<u8>>) -> Option<Window> {
    if f.len() < 3 {
        None
    } else {
        match (decimal_of(f[1], u32::MAX as nat), decimal_of(f[2], u32::MAX as nat)) {
            (Some(a), Some(b)) => Some(Window { start: a as u32, end: b as u32 }),
            _ => None,
        }
    }
}

/// Every resolved column has a field in a line of `width` fields.
pub open spec fn columns_present(width: nat, indices: Seq<usize>) -> bool {
    forall|k: int| 0 <= k < indices.len() ==> CALL_PREFIX + (#[trigger] indices[k]) < width
}

/// The labels of a row at the resolved columns, in the order of the columns.
pub open spec fn row_labels(f: Seq<Seq<u8>>, indices: Seq<usize>) -> Seq<u8> {
    Seq::new(indices.len(), |k: int| label_of(f[CALL_PREFIX + indices[k]]))
}

/// The fields of a line at the resolved columns, in the order of the columns.
pub open spec fn picked_fields(f: Seq<Seq<u8>>, indices: Seq<usize>) -> Seq<Seq<u8>> {
    Seq::new(indices.len(), |k: int| f[CALL_PREFIX + indices[k]])
}

/// What is wrong with the window row of this number, if anything: it has no
/// three fields, a boundary is no number, or a resolved column is missing.
pub open spec fn row_error(line: Seq<u8>, indices: Seq<usize>, row: usize) -> Option<CompareError> {
    let f = fields_of(line);
    if f.len() < 3 {
        Some(CompareError::ShortRow { row })
    } else if window_of(f).is_none() {
        Some(CompareError::BadCoordinate { row })
    } else if !columns_present(f.len(), indices) {
        Some(CompareError::ShortRow { row })
    } else {
        None
    }
}

/// The first fault among the first `n` window rows.
pub open spec fn first_fault(rows: Seq<Seq<u8>>, indices: Seq<usize>, n: nat) -> Option<
    CompareError,
>
    decreases n,
{
    if n == 0 {
        None
    } else {
        match first_fault(rows, indices, (n - 1) as nat) {
            Some(e) => Some(e),
            None => row_error(rows[n - 1], indices, (n - 1) as usize),
        }
    }
}

/// The window rows of a window-call file: its lines after the comment line and
/// the header line.
pub open spec fn window_rows(content: Seq<u8>) -> Seq<Seq<u8>> {
    let all = lines_of(content);
    if all.len() >= 2 {
        all.skip(2)
    } else {
        Seq::empty()
    }
}

/// What a window-call file holds at the resolved columns.
pub struct WindowCalls {
    /// The windows, in file order.
    pub windows: Vec<Window>,
    /// For each window, the called label of each resolved column.
    pub labels: Vec<Vec<u8>>,
    /// The identifier of each resolved column.
    pub ids: Vec<Vec<u8>>,
}

impl WindowCalls {
    /// These are the calls that the file holds at the columns `indices`.
    pub open spec fn holds_calls_of(&self, content: Seq<u8>, indices: Seq<usize>) -> bool {
        let rows = window_rows(content);
        &&& byte_seqs(&self.ids) == picked_fields(fields_of(lines_of(content)[1]), indices)
        &&& self.windows@.len() == rows.len()
        &&& self.labels@.len() == rows.len()
        &&& forall|r: int|
            0 <= r < rows.len() ==> Some(#[trigger] self.windows@[r]) == window_of(
                fields_of(rows[r]),
            )
        &&& forall|r: int|
            0 <= r < rows.len() ==> (#[trigger] byte_seqs(&self.labels)[r]) == row_labels(
                fields_of(rows[r]),
                indices,
            )
    }
}

/// Reads the label of a cell; a cell that holds no label gives the unknown code.
pub fn parse_label(cell: &Vec<u8>) -> (label: u8)
    ensures
        label == label_of(cell@),
{
    match parse_decimal(cell, 255) {
        Some(v) => v as u8,
        None => UNKNOWN_LABEL,
    }
}

/// Whether a line of `width` fields has every resolved column.
pub fn has_columns(width: usize, indices: &Vec<usize>) -> (res: bool)
    ensures
        res == columns_present(width as nat, indices@),
{
    let mut k: usize = 0;
    while k < indices.len()
        invariant
            k <= indices@.len(),
            forall|m: int| 0 <= m < k ==> CALL_PREFIX + (#[trigger] indices@[m]) < width,
        decreases indices@.len() - k,
    {
        if width < CALL_PREFIX || indices[k] >= width - CALL_PREFIX {
            assert(!(CALL_PREFIX + indices@[k as int] < width));
            return false;
        }
        k += 1;
    }
    true
}

/// Parses one window row: its window and its labels at the resolved columns.
///
/// Fails exactly when the row is at fault, with the fault.
pub fn parse_row(line: &Vec<u8>, indices: &Vec<usize>, row: usize) -> (res: Result<
    (Window, Vec<u8>),
    CompareError,
>)
    ensures
        match row_error(line@, indices@, row) {
            Some(e) => res == Err::<(Window, Vec<u8>), CompareError>(e),
            None => res matches Ok(p) && Some(p.0) == window_of(fields_of(line@)) && p.1@
                == row_labels(fields_of(line@), indices@),
        },
{
    let f = fields(line);
    let ghost fs = fields_of(line@);
    if f.len() < 3 {
        return Err(CompareError::ShortRow { row });
    }
    assert(fs[1] == f@[1]@ && fs[2] == f@[2]@) by {
        assert(byte_seqs(&f)[1] == f@[1]@);
        assert(byte_seqs(&f)[2] == f@[2]@);
    }
    let start: u32 = match parse_decimal(&f[1], u32::MAX) {
        Some(v) => v,
        None => {
            return Err(CompareError::BadCoordinate { row });
        },
    };
    let end: u32 = match parse_decimal(&f[2], u32::MAX) {
        Some(v) => v,
        None => {
            return Err(CompareError::BadCoordinate { row });
        },
    };
    if !has_columns(f.len(), indices) {
        return Err(CompareError::ShortRow { row });
    }
    let mut labels: Vec<u8> = Vec::new();
    let mut k: usize = 0;
    while k < indices.len()
        invariant
            fs == byte_seqs(&f),
            f@.len() <= usize::MAX,
            columns_present(f@.len(), indices@),
            k <= indices@.len(),
            labels@.len() == k,
            forall|m: int|
                0 <= m < k ==> (#[trigger] labels@[m]) == label_of(fs[CALL_PREFIX + indices@[m]]),
        decreases indices@.len() - k,
    {
        let column: usize = indices[k];
        assert(CALL_PREFIX + indices@[k as int] < f@.len());
        assert(fs[CALL_PREFIX + column] == f@[CALL_PREFIX + column]@);
        labels.push(parse_label(&f[CALL_PREFIX + column]));
        k += 1;
    }
    assert(labels@ =~= row_labels(fs, indices@));
    Ok((Window { start, end }, labels))
}

/// Copies the identifiers of the resolved columns out of a header line.
///
/// Returns `None` exactly when the header lacks one of the columns.
pub fn column_ids(header: &Vec<u8>, indices: &Vec<usize>) -> (res: Option<Vec<Vec<u8>>>)
    ensures
        res.is_some() == columns_present(fields_of(header@).len(), indices@),
        res matches Some(ids) ==> byte_seqs(&ids) == picked_fields(fields_of(header@), indices@),
{
    let f = fields(header);
    let ghost fs = fields_of(header@);
    if !has_columns(f.len(), indices) {
        return None;
    }
    let mut ids: Vec<Vec<u8>> = Vec::new();
    let mut k: usize = 0;
    while k < indices.len()
        invariant
            fs == byte_seqs(&f),
            f@.len() <= usize::MAX,
            columns_present(f@.len(), indices@),
            k <= indices@.len(),
            ids@.len() == k,
            forall|m: int| 0 <= m < k ==> (#[trigger] ids@[m])@ == fs[CALL_PREFIX + indices@[m]],
        decreases indices@.len() - k,
    {
        let column: usize = indices[k];
        assert(CALL_PREFIX + indices@[k as int] < f@.len());
        assert(fs[CALL_PREFIX + column] == f@[CALL_PREFIX + column]@);
        ids.push(copy_bytes(&f[CALL_PREFIX + column]));
        k += 1;
    }
    assert(byte_seqs(&ids) =~= picked_fields(fs, indices@));
    Some(ids)
}

/// Parses a window-call file at the resolved columns.
///
/// Fails with `EmptyFile` when the file has no header line, else with
/// `SampleMismatch` when the header lacks a resolved column, else with the
/// first fault of a window row. Otherwise every label row has one label per
/// resolved column, in the order of the columns; a cell that holds no label
/// gives the unknown code.
pub fn process_msp(content: &Vec<u8>, indices: &Vec<usize>) -> (res: Result<
    WindowCalls,
    CompareError,
>)
    ensures
        lines_of(content@).len() < 2 ==> res == Err::<WindowCalls, CompareError>(
            CompareError::EmptyFile,
        ),
        lines_of(content@).len() >= 2 && !columns_present(
            fields_of(lines_of(content@)[1]).len(),
            indices@,
        ) ==> res == Err::<WindowCalls, CompareError>(CompareError::SampleMismatch),
        lines_of(content@).len() >= 2 && columns_present(
            fields_of(lines_of(content@)[1]).len(),
            indices@,
        ) ==> match first_fault(window_rows(content@), indices@, window_rows(content@).len()) {
            Some(e) => res == Err::<WindowCalls, CompareError>(e),
            None => res matches Ok(calls) && calls.holds_calls_of(content@, indices@),
        },
        res matches Ok(calls) ==> forall|r: int|
            0 <= r < calls.labels@.len() ==> (#[trigger] calls.labels@[r])@.len() == indices@.len(),
{
    let all = lines(content);
    if all.len() < 2 {
        return Err(CompareError::EmptyFile);
    }
    let ghost rows = window_rows(content@);
    assert(byte_seqs(&all)[1] == all@[1]@);
    let ids = match column_ids(&all[1], indices) {
        Some(ids) => ids,
        None => {
            return Err(CompareError::SampleMismatch);
        },
    };
    let mut windows: Vec<Window> = Vec::new();
    let mut labels: Vec<Vec<u8>> = Vec::new();
    let mut r: usize = 2;
    while r < all.len()
        invariant
            byte_seqs(&all) == lines_of(content@),
            rows == window_rows(content@),
            columns_present(fields_of(lines_of(content@)[1]).len(), indices@),
            2 <= r <= all@.len(),
            windows@.len() == r - 2,
            labels@.len() == r - 2,
            first_fault(rows, indices@, (r - 2) as nat).is_none(),
            forall|q: int|
                0 <= q < r - 2 ==> Some(#[trigger] windows@[q]) == window_of(fields_of(rows[q])),
            forall|q: int|
                0 <= q < r - 2 ==> (#[trigger] labels@[q])@ == row_labels(
                    fields_of(rows[q]),
                    indices@,
                ),
        decreases all@.len() - r,
    {
        assert(rows[r - 2] == all@[r as int]@) by {
            assert(byte_seqs(&all)[r as int] == all@[r as int]@);
        }
        match parse_row(&all[r], indices, r - 2) {
            Err(e) => {
                proof {
                    lemma_fault_stays(rows, indices@, (r - 1) as nat, rows.len());
                }
                return Err(e);
            },
            Ok(parsed) => {
                windows.push(parsed.0);
                labels.push(parsed.1);
            },
        }
        r += 1;
    }
    let calls = WindowCalls { windows, labels, ids };
    proof {
        assert forall|q: int| 0 <= q < rows.len() implies (#[trigger] byte_seqs(&calls.labels)[q])
            == row_labels(fields_of(rows[q]), indices@) by {
            assert(byte_seqs(&calls.labels)[q] == calls.labels@[q]@);
        }
    }
    Ok(calls)
}

/// The first fault stays the first, however many rows follow.
pub proof fn lemma_fault_stays(rows: Seq<Seq<u8>>, indices: Seq<usize>, m: nat, n: nat)
    requires
        m <= n,
        first_fault(rows, indices, m).is_some(),
    ensures
        first_fault(rows, indices, n) == first_fault(rows, indices, m),
    decreases n,
{
    if m < n {
        lemma_fault_stays(rows, indices, m, (n - 1) as nat);
    }
}

} // verus!
