//! The windowed probability aggregator: which posterior cells stand behind
//! each called label, and the filter that their confidence gives.
//!
//! The mean of the cells and its comparison with the threshold are made by
//! the caller; everything around them is decided here.

use vstd::prelude::*;
use crate::concordance::{lemma_stricter_filter_counts_no_more, total_count};
use crate::error::CompareError;
use crate::text::{byte_seqs, copy_bytes, fields, fields_of, lines, lines_of};
use crate::window::{index_seqs, plan_blocks, stream_after, Window};

verus! {

/// The number of fields that stand before the probabilities in a locus row.
pub const LOCUS_PREFIX: usize = 4;

/// The number of ancestry labels that a probability file tells apart: the
/// fields of its header, less one.
pub open spec fn label_types_of(header: Seq<u8>) -> nat {
    (fields_of(header).len() - 1) as nat
}

/// The locus rows of a probability file: its lines after the two header lines.
pub open spec fn locus_rows(content: Seq<u8>) -> Seq<Seq<u8>> {
    let all = lines_of(content);
    if all.len() >= 2 {
        all.skip(2)
    } else {
        Seq::empty()
    }
}

/// The field of a locus row that holds the posterior of `label` for the
/// haplotype at column offset `index`: probabilities are haplotype-major, one
/// per label. A label that the file does not know has no field.
pub open spec fn probability_column(index: usize, label: u8, label_types: usize) -> Option<usize> {
    if label < label_types && LOCUS_PREFIX + index * label_types + label <= usize::MAX {
        Some((LOCUS_PREFIX + index * label_types + label) as usize)
    } else {
        None
    }
}

/// The label matrix has one row per window and one label per resolved column.
pub open spec fn labels_fit(labels: Seq<Seq<u8>>, windows: nat, width: nat) -> bool {
    &&& labels.len() == windows
    &&& forall|w: int| 0 <= w < labels.len() ==> (#[trigger] labels[w]).len() == width
}

/// The cells of one locus row that the columns name; an empty cell where a
/// column is missing. `None` where the row is too short for one of them.
pub open spec fn row_cells_of(line: Seq<u8>, columns: Seq<Option<usize>>) -> Option<Seq<Seq<u8>>> {
    let f = fields_of(line);
    if forall|k: int|
        0 <= k < columns.len() ==> ((#[trigger] columns[k]) matches Some(c) ==> c < f.len()) {
        Some(
            Seq::new(
                columns.len(),
                |k: int|
                    match columns[k] {
                        Some(c) => f[c as int],
                        None => Seq::empty(),
                    },
            ),
        )
    } else {
        None
    }
}

/// What is wrong with row `row` of a block, if anything.
pub open spec fn row_fault(rows: Seq<Seq<u8>>, row: usize, columns: Seq<Option<usize>>) -> Option<
    CompareError,
> {
    if row >= rows.len() {
        Some(CompareError::ShapeMismatch)
    } else if row_cells_of(rows[row as int], columns).is_none() {
        Some(CompareError::ShortRow { row })
    } else {
        None
    }
}

/// The filter flag of window `w` and column `k`.
///
/// A window that was closed is accepted where the called label has a
/// probability field, the block holds at least one row, and the caller found
/// the mean confidence to reach the threshold. A closed window without rows is
/// rejected. A window that was never closed is accepted.
pub open spec fn filter_cell(
    blocks: Seq<Seq<usize>>,
    columns: Seq<Seq<Option<usize>>>,
    decisions: Seq<Seq<bool>>,
    w: int,
    k: int,
) -> bool {
    if w < blocks.len() {
        blocks[w].len() > 0 && columns[w][k].is_some() && decisions[w][k]
    } else {
        true
    }
}

/// What the aggregator has settled before any probability is read as a number.
pub struct FilterPlan {
    /// The number of ancestry labels of the file.
    pub label_types: usize,
    /// The locus rows.
    pub rows: Vec<Vec<u8>>,
    /// For each closed window, the numbers of the rows of its block.
    pub blocks: Vec<Vec<usize>>,
    /// For each closed window and each resolved column, the field that holds
    /// the posterior of the called label.
    pub columns: Vec<Vec<Option<usize>>>,
}

/// The columns of each closed window as sequences.
pub open spec fn column_seqs(v: &Vec<Vec<Option<usize>>>) -> Seq<Seq<Option<usize>>> {
    Seq::new(v@.len(), |k: int| v@[k]@)
}

/// The decisions of each closed window as sequences.
pub open spec fn flag_seqs(v: &Vec<Vec<bool>>) -> Seq<Seq<bool>> {
    Seq::new(v@.len(), |k: int| v@[k]@)
}

/// The rows of cells as sequences.
pub open spec fn cell_seqs(v: &Vec<Vec<Vec<u8>>>) -> Seq<Seq<Seq<u8>>> {
    Seq::new(v@.len(), |r: int| byte_seqs(&v@[r]))
}

impl FilterPlan {
    /// The plan is the one that the file, the columns, the windows and the
    /// labels give.
    pub open spec fn is_plan_of(
        &self,
        content: Seq<u8>,
        indices: Seq<usize>,
        windows: Seq<Window>,
        labels: Seq<Seq<u8>>,
    ) -> bool {
        let rows = locus_rows(content);
        &&& self.label_types == label_types_of(lines_of(content)[0])
        &&& byte_seqs(&self.rows) == rows
        &&& index_seqs(&self.blocks) == stream_after(windows, rows, rows.len()).closed
        &&& self.columns@.len() == self.blocks@.len()
        &&& forall|w: int|
            0 <= w < self.columns@.len() ==> (#[trigger] self.columns@[w])@.len() == indices.len()
        &&& forall|w: int, k: int|
            0 <= w < self.columns@.len() && 0 <= k < indices.len() ==> (
            #[trigger] self.columns@[w]@[k]) == probability_column(
                indices[k],
                labels[w][k],
                self.label_types,
            )
    }
}

/// Counts the ancestry labels that a header line announces.
pub fn label_type_count(header: &Vec<u8>) -> (res: usize)
    ensures
        res == label_types_of(header@),
{
    let f = fields(header);
    f.len() - 1
}

/// Finds the field that holds the posterior of a called label.
pub fn probability_column_of(index: usize, label: u8, label_types: usize) -> (res: Option<usize>)
    ensures
        res == probability_column(index, label, label_types),
{
    if label as usize >= label_types {
        return None;
    }
    assert(index * label_types <= 0xffff_ffff_ffff_ffff * 0xffff_ffff_ffff_ffff) by (nonlinear_arith)
        requires
            0 <= index <= 0xffff_ffff_ffff_ffff,
            0 <= label_types <= 0xffff_ffff_ffff_ffff,
    ;
    let wide: u128 = LOCUS_PREFIX as u128 + (index as u128) * (label_types as u128) + (
    label as u128);
    if wide > usize::MAX as u128 {
        None
    } else {
        Some(wide as usize)
    }
}

/// The fields that hold the posteriors of one window's called labels.
pub fn probability_columns(indices: &Vec<usize>, labels: &Vec<u8>, label_types: usize) -> (res:
    Vec<Option<usize>>)
    requires
        labels@.len() == indices@.len(),
    ensures
        res@.len() == indices@.len(),
        forall|k: int|
            0 <= k < indices@.len() ==> (#[trigger] res@[k]) == probability_column(
                indices@[k],
                labels@[k],
                label_types,
            ),
{
    let mut res: Vec<Option<usize>> = Vec::new();
    let mut k: usize = 0;
    while k < indices.len()
        invariant
            labels@.len() == indices@.len(),
            k <= indices@.len(),
            res@.len() == k,
            forall|m: int|
                0 <= m < k ==> (#[trigger] res@[m]) == probability_column(
                    indices@[m],
                    labels@[m],
                    label_types,
                ),
        decreases indices@.len() - k,
    {
        res.push(probability_column_of(indices[k], labels[k], label_types));
        k += 1;
    }
    res
}

/// Whether the label matrix has one row per window and one label per column.
pub fn check_labels(labels: &Vec<Vec<u8>>, windows: usize, width: usize) -> (res: bool)
    ensures
        res == labels_fit(byte_seqs(labels), windows as nat, width as nat),
{
    if labels.len() != windows {
        return false;
    }
    let mut w: usize = 0;
    while w < labels.len()
        invariant
            w <= labels@.len(),
            labels@.len() == windows,
            forall|v: int| 0 <= v < w ==> (#[trigger] byte_seqs(labels)[v]).len() == width,
        decreases labels@.len() - w,
    {
        if labels[w].len() != width {
            assert(byte_seqs(labels)[w as int].len() != width);
            return false;
        }
        w += 1;
    }
    true
}

/// Lays out the aggregation of a probability file: counts its label types,
/// streams its locus rows into the windows, and finds for every closed window
/// and resolved column the field behind the called label.
///
/// Fails with `EmptyFile` when the file has no line, else with `ShapeMismatch`
/// when the labels do not fit the windows and columns, else with
/// `BadCoordinate` at the first locus row that is read and has no position.
pub fn process_fb(
    content: &Vec<u8>,
    indices: &Vec<usize>,
    windows: &Vec<Window>,
    labels: &Vec<Vec<u8>>,
) -> (res: Result<FilterPlan, CompareError>)
    ensures
        lines_of(content@).len() == 0 ==> res == Err::<FilterPlan, CompareError>(
            CompareError::EmptyFile,
        ),
        lines_of(content@).len() > 0 && !labels_fit(
            byte_seqs(labels),
            windows@.len(),
            indices@.len(),
        ) ==> res == Err::<FilterPlan, CompareError>(CompareError::ShapeMismatch),
        lines_of(content@).len() > 0 && labels_fit(
            byte_seqs(labels),
            windows@.len(),
            indices@.len(),
        ) ==> match stream_after(
            windows@,
            locus_rows(content@),
            locus_rows(content@).len(),
        ).bad_row {
            Some(r) => res == Err::<FilterPlan, CompareError>(
                CompareError::BadCoordinate { row: r },
            ),
            None => res matches Ok(plan) && plan.is_plan_of(
                content@,
                indices@,
                windows@,
                byte_seqs(labels),
            ),
        },
{
    let mut rows = lines(content);
    if rows.len() == 0 {
        return Err(CompareError::EmptyFile);
    }
    if !check_labels(labels, windows.len(), indices.len()) {
        return Err(CompareError::ShapeMismatch);
    }
    let ghost all = byte_seqs(&rows);
    assert(all[0] == rows@[0]@);
    let label_types: usize = label_type_count(&rows[0]);
    rows.remove(0);
    if rows.len() > 0 {
        rows.remove(0);
    }
    assert(byte_seqs(&rows) =~= locus_rows(content@));
    let blocks = match plan_blocks(windows, &rows) {
        Err(e) => {
            return Err(e);
        },
        Ok(b) => b,
    };
    let mut columns: Vec<Vec<Option<usize>>> = Vec::new();
    let mut w: usize = 0;
    while w < blocks.len()
        invariant
            w <= blocks@.len(),
            blocks@.len() <= windows@.len(),
            labels_fit(byte_seqs(labels), windows@.len(), indices@.len()),
            columns@.len() == w,
            forall|v: int| 0 <= v < w ==> (#[trigger] columns@[v])@.len() == indices@.len(),
            forall|v: int, k: int|
                0 <= v < w && 0 <= k < indices@.len() ==> (#[trigger] columns@[v]@[k])
                    == probability_column(indices@[k], byte_seqs(labels)[v][k], label_types),
        decreases blocks@.len() - w,
    {
        assert(byte_seqs(labels)[w as int] == labels@[w as int]@);
        let row = probability_columns(indices, &labels[w], label_types);
        columns.push(row);
        w += 1;
    }
    Ok(FilterPlan { label_types, rows, blocks, columns })
}

/// Copies out of one locus row the cells that the columns name.
///
/// Returns `None` exactly when the row is too short for one of the columns.
pub fn row_cells(line: &Vec<u8>, columns: &Vec<Option<usize>>) -> (res: Option<Vec<Vec<u8>>>)
    ensures
        match row_cells_of(line@, columns@) {
            Some(cells) => res matches Some(v) && byte_seqs(&v) == cells,
            None => res.is_none(),
        },
{
    let f = fields(line);
    let mut cells: Vec<Vec<u8>> = Vec::new();
    let mut k: usize = 0;
    while k < columns.len()
        invariant
            byte_seqs(&f) == fields_of(line@),
            k <= columns@.len(),
            cells@.len() == k,
            forall|m: int|
                0 <= m < k ==> ((#[trigger] columns@[m]) matches Some(c) ==> c < f@.len()),
            forall|m: int|
                0 <= m < k ==> (#[trigger] cells@[m])@ == (match columns@[m] {
                    Some(c) => fields_of(line@)[c as int],
                    None => Seq::<u8>::empty(),
                }),
        decreases columns@.len() - k,
    {
        match columns[k] {
            Some(c) => {
                if c >= f.len() {
                    assert(byte_seqs(&f).len() == f@.len());
                    return None;
                }
                assert(byte_seqs(&f)[c as int] == f@[c as int]@);
                cells.push(copy_bytes(&f[c]));
            },
            None => {
                cells.push(Vec::new());
            },
        }
        k += 1;
    }
    assert(byte_seqs(&f).len() == f@.len());
    assert(byte_seqs(&cells) =~= row_cells_of(line@, columns@).unwrap());
    Some(cells)
}

/// Copies out of the rows of one block the cells behind the called labels, row
/// by row and, in each row, column by column.
///
/// Fails at the first row of the block that is at fault: with `ShapeMismatch`
/// where the block names a row that is not there, with `ShortRow` where the row
/// is too short for one of the columns.
pub fn block_cells(rows: &Vec<Vec<u8>>, block: &Vec<usize>, columns: &Vec<Option<usize>>) -> (res:
    Result<Vec<Vec<Vec<u8>>>, CompareError>)
    ensures
        (forall|r: int|
            0 <= r < block@.len() ==> row_fault(byte_seqs(rows), #[trigger] block@[r], columns@)
                .is_none()) ==> (res matches Ok(cells) && cells@.len() == block@.len()
            && forall|r: int|
            0 <= r < block@.len() ==> Some(#[trigger] cell_seqs(&cells)[r]) == row_cells_of(
                byte_seqs(rows)[block@[r] as int],
                columns@,
            )),
        forall|r: int|
            0 <= r < block@.len() && row_fault(byte_seqs(rows), #[trigger] block@[r], columns@)
                .is_some() && (forall|q: int|
                0 <= q < r ==> row_fault(byte_seqs(rows), #[trigger] block@[q], columns@).is_none())
                ==> res == Err::<Vec<Vec<Vec<u8>>>, CompareError>(
                row_fault(byte_seqs(rows), block@[r], columns@).unwrap(),
            ),
{
    let mut cells: Vec<Vec<Vec<u8>>> = Vec::new();
    let mut r: usize = 0;
    while r < block.len()
        invariant
            r <= block@.len(),
            cells@.len() == r,
            forall|q: int|
                0 <= q < r ==> row_fault(byte_seqs(rows), #[trigger] block@[q], columns@).is_none(),
            forall|q: int|
                0 <= q < r ==> Some(#[trigger] cell_seqs(&cells)[q]) == row_cells_of(
                    byte_seqs(rows)[block@[q] as int],
                    columns@,
                ),
        decreases block@.len() - r,
    {
        let row: usize = block[r];
        if row >= rows.len() {
            assert(row_fault(byte_seqs(rows), block@[r as int], columns@) == Some(
                CompareError::ShapeMismatch,
            ));
            return Err(CompareError::ShapeMismatch);
        }
        assert(byte_seqs(rows)[row as int] == rows@[row as int]@);
        match row_cells(&rows[row], columns) {
            None => {
                assert(row_fault(byte_seqs(rows), block@[r as int], columns@) == Some(
                    CompareError::ShortRow { row },
                ));
                return Err(CompareError::ShortRow { row });
            },
            Some(v) => {
                let ghost before = cell_seqs(&cells);
                let ghost added = byte_seqs(&v);
                cells.push(v);
                assert(cell_seqs(&cells) =~= before.push(added));
            },
        }
        r += 1;
    }
    Ok(cells)
}

/// The decisions fit the plan: one row per closed window, one flag per column.
pub open spec fn decisions_fit(
    blocks: Seq<Seq<usize>>,
    columns: Seq<Seq<Option<usize>>>,
    decisions: Seq<Seq<bool>>,
    windows: nat,
    width: nat,
) -> bool {
    &&& blocks.len() <= windows
    &&& columns.len() == blocks.len()
    &&& decisions.len() == blocks.len()
    &&& forall|w: int| 0 <= w < blocks.len() ==> (#[trigger] columns[w]).len() == width
    &&& forall|w: int| 0 <= w < blocks.len() ==> (#[trigger] decisions[w]).len() == width
}

/// Raising the threshold never adds a counted window: where every decision
/// at the higher threshold is also one at the lower, the filter built from
/// the higher gives no larger total.
pub proof fn lemma_raised_threshold_counts_no_more(
    blocks: Seq<Seq<usize>>,
    columns: Seq<Seq<Option<usize>>>,
    low: Seq<Seq<bool>>,
    high: Seq<Seq<bool>>,
    filter_low: Seq<Seq<bool>>,
    filter_high: Seq<Seq<bool>>,
    i: int,
    n: nat,
)
    requires
        forall|w: int| 0 <= w < n && 0 <= w < blocks.len() && #[trigger] high[w][i] ==> low[w][i],
        forall|w: int|
            0 <= w < n ==> #[trigger] filter_low[w][i] == filter_cell(blocks, columns, low, w, i),
        forall|w: int|
            0 <= w < n ==> #[trigger] filter_high[w][i] == filter_cell(blocks, columns, high, w, i),
    ensures
        total_count(Some(filter_high), i, n) <= total_count(Some(filter_low), i, n),
{
    assert forall|w: int| 0 <= w < n && #[trigger] filter_high[w][i] implies filter_low[w][i] by {
        assert(filter_high[w][i] == filter_cell(blocks, columns, high, w, i));
        assert(filter_low[w][i] == filter_cell(blocks, columns, low, w, i));
        if w < blocks.len() {
            assert(high[w][i] ==> low[w][i]);
        }
    }
    lemma_stricter_filter_counts_no_more(filter_low, filter_high, i, n);
}

/// Builds the filter matrix from the plan and from the caller's decisions:
/// `decisions[w][k]` says whether the mean confidence of window `w` at column
/// `k` reaches the threshold.
///
/// Returns `None` exactly when the decisions do not fit the plan.
pub fn build_filter(plan: &FilterPlan, decisions: &Vec<Vec<bool>>, windows: usize, width: usize) -> (res:
    Option<Vec<Vec<bool>>>)
    ensures
        res.is_some() <==> decisions_fit(
            index_seqs(&plan.blocks),
            column_seqs(&plan.columns),
            flag_seqs(decisions),
            windows as nat,
            width as nat,
        ),
        res matches Some(filter) ==> filter@.len() == windows && forall|w: int|
            0 <= w < windows ==> (#[trigger] filter@[w])@.len() == width,
        res matches Some(filter) ==> forall|w: int, k: int|
            0 <= w < windows && 0 <= k < width ==> (#[trigger] filter@[w]@[k]) == filter_cell(
                index_seqs(&plan.blocks),
                column_seqs(&plan.columns),
                flag_seqs(decisions),
                w,
                k,
            ),
{
    let ghost blocks = index_seqs(&plan.blocks);
    let ghost columns = column_seqs(&plan.columns);
    let ghost flags = flag_seqs(decisions);
    let closed: usize = plan.blocks.len();
    if closed > windows || plan.columns.len() != closed || decisions.len() != closed {
        return None;
    }
    let mut filter: Vec<Vec<bool>> = Vec::new();
    let mut w: usize = 0;
    while w < windows
        invariant
            blocks == index_seqs(&plan.blocks),
            columns == column_seqs(&plan.columns),
            flags == flag_seqs(decisions),
            closed == blocks.len(),
            closed <= windows,
            columns.len() == closed,
            flags.len() == closed,
            w <= windows,
            filter@.len() == w,
            forall|v: int| 0 <= v < w && v < closed ==> (#[trigger] columns[v]).len() == width,
            forall|v: int| 0 <= v < w && v < closed ==> (#[trigger] flags[v]).len() == width,
            forall|v: int| 0 <= v < w ==> (#[trigger] filter@[v])@.len() == width,
            forall|v: int, k: int|
                0 <= v < w && 0 <= k < width ==> (#[trigger] filter@[v]@[k]) == filter_cell(
                    blocks,
                    columns,
                    flags,
                    v,
                    k,
                ),
        decreases windows - w,
    {
        let mut row: Vec<bool> = Vec::new();
        if w < closed {
            if plan.columns[w].len() != width {
                assert(columns[w as int].len() != width);
                return None;
            }
            if decisions[w].len() != width {
                assert(flags[w as int].len() != width);
                return None;
            }
        }
        let mut k: usize = 0;
        while k < width
            invariant
                blocks == index_seqs(&plan.blocks),
                columns == column_seqs(&plan.columns),
                flags == flag_seqs(decisions),
                closed == blocks.len(),
                columns.len() == closed,
                flags.len() == closed,
                w < closed ==> columns[w as int].len() == width && flags[w as int].len() == width,
                k <= width,
                row@.len() == k,
                forall|m: int|
                    0 <= m < k ==> (#[trigger] row@[m]) == filter_cell(
                        blocks,
                        columns,
                        flags,
                        w as int,
                        m,
                    ),
            decreases width - k,
        {
            let flag: bool = if w < closed {
                plan.blocks[w].len() > 0 && plan.columns[w][k].is_some() && decisions[w][k]
            } else {
                true
            };
            row.push(flag);
            k += 1;
        }
        filter.push(row);
        w += 1;
    }
    Some(filter)
}

} // verus!
