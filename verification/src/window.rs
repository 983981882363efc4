//! Genomic windows and the streaming of loci into them.

use vstd::prelude::*;
use crate::error::CompareError;
use crate::text::{byte_seqs, decimal_of, fields, fields_of, parse_decimal};

verus! {

/// A genomic interval, both ends included.
#[derive(Clone, Copy, Debug, PartialEq, Eq, Structural)]
pub struct Window {
    pub start: u32,
    pub end: u32,
}

/// Where the aggregator stands in its input.
#[derive(Clone, Copy, Debug, PartialEq, Eq, Structural)]
pub enum AggregatorState {
    /// Nothing was read yet.
    AwaitingHeader,
    /// The block of the window with this number is being filled.
    Streaming(usize),
    /// Every window was closed, or the input ended.
    Closed,
}

/// What the reader met.
#[derive(Clone, Copy, Debug, PartialEq, Eq, Structural)]
pub enum StreamEvent {
    /// The header line.
    Header,
    /// A locus at this position.
    Row(u32),
    /// The end of the input.
    EndOfInput,
}

/// What becomes of the row that was just read.
#[derive(Clone, Copy, Debug, PartialEq, Eq, Structural)]
pub enum RowAction {
    /// The row belongs to no block.
    Ignore,
    /// The row joins the block of the current window.
    Append,
    /// The block of the current window is complete and goes to reduction; the
    /// row is the first of the next block.
    CloseBlock,
}

/// The state after `event`, and what to do with the row.
///
/// A locus beyond the end of the current window closes that window; one inside
/// it joins its block; one before its start is dropped.
pub open spec fn next_state(windows: Seq<Window>, state: AggregatorState, event: StreamEvent) -> (
    AggregatorState,
    RowAction,
) {
    match state {
        AggregatorState::AwaitingHeader => match event {
            StreamEvent::Header => (
                if windows.len() == 0 {
                    AggregatorState::Closed
                } else {
                    AggregatorState::Streaming(0)
                },
                RowAction::Ignore,
            ),
            StreamEvent::Row(_) => (AggregatorState::AwaitingHeader, RowAction::Ignore),
            StreamEvent::EndOfInput => (AggregatorState::Closed, RowAction::Ignore),
        },
        AggregatorState::Streaming(w) => match event {
            StreamEvent::Header => (state, RowAction::Ignore),
            StreamEvent::EndOfInput => (AggregatorState::Closed, RowAction::Ignore),
            StreamEvent::Row(pos) => if w >= windows.len() {
                (AggregatorState::Closed, RowAction::Ignore)
            } else if pos > windows[w as int].end {
                (
                    if w + 1 >= windows.len() {
                        AggregatorState::Closed
                    } else {
                        AggregatorState::Streaming((w + 1) as usize)
                    },
                    RowAction::CloseBlock,
                )
            } else if pos >= windows[w as int].start {
                (state, RowAction::Append)
            } else {
                (state, RowAction::Ignore)
            },
        },
        AggregatorState::Closed => (AggregatorState::Closed, RowAction::Ignore),
    }
}

/// One step of the aggregator: the state after `event`, and what to do with
/// the row.
pub fn step(windows: &Vec<Window>, state: AggregatorState, event: StreamEvent) -> (res: (
    AggregatorState,
    RowAction,
))
    ensures
        res == next_state(windows@, state, event),
{
    match state {
        AggregatorState::AwaitingHeader => match event {
            StreamEvent::Header => {
                if windows.len() == 0 {
                    (AggregatorState::Closed, RowAction::Ignore)
                } else {
                    (AggregatorState::Streaming(0), RowAction::Ignore)
                }
            },
            StreamEvent::Row(_) => (AggregatorState::AwaitingHeader, RowAction::Ignore),
            StreamEvent::EndOfInput => (AggregatorState::Closed, RowAction::Ignore),
        },
        AggregatorState::Streaming(w) => match event {
            StreamEvent::Header => (state, RowAction::Ignore),
            StreamEvent::EndOfInput => (AggregatorState::Closed, RowAction::Ignore),
            StreamEvent::Row(pos) => {
                if w >= windows.len() {
                    (AggregatorState::Closed, RowAction::Ignore)
                } else if pos > windows[w].end {
                    if w + 1 >= windows.len() {
                        (AggregatorState::Closed, RowAction::CloseBlock)
                    } else {
                        (AggregatorState::Streaming(w + 1), RowAction::CloseBlock)
                    }
                } else if pos >= windows[w].start {
                    (state, RowAction::Append)
                } else {
                    (state, RowAction::Ignore)
                }
            },
        },
        AggregatorState::Closed => (AggregatorState::Closed, RowAction::Ignore),
    }
}

/// The aggregator after some rows: its state, the blocks it has closed, the
/// block it is filling, and the first row whose position was no number.
pub struct Stream {
    pub state: AggregatorState,
    pub closed: Seq<Seq<usize>>,
    pub open: Seq<usize>,
    pub bad_row: Option<usize>,
}

/// The position of a locus row: its second field, read as a number.
pub open spec fn position_of(line: Seq<u8>) -> Option<u32> {
    let f = fields_of(line);
    if f.len() > 1 {
        match decimal_of(f[1], u32::MAX as nat) {
            Some(v) => Some(v as u32),
            None => None,
        }
    } else {
        None
    }
}

/// The aggregator after the header and the first `n` rows. It stops at the
/// first row without a position, and reads no row once it is closed.
pub open spec fn stream_after(windows: Seq<Window>, rows: Seq<Seq<u8>>, n: nat) -> Stream
    decreases n,
{
    if n == 0 {
        Stream {
            state: next_state(windows, AggregatorState::AwaitingHeader, StreamEvent::Header).0,
            closed: Seq::empty(),
            open: Seq::empty(),
            bad_row: None,
        }
    } else {
        let s = stream_after(windows, rows, (n - 1) as nat);
        if s.bad_row.is_some() || s.state == AggregatorState::Closed {
            s
        } else {
            match position_of(rows[n - 1]) {
                None => Stream { bad_row: Some((n - 1) as usize), ..s },
                Some(pos) => {
                    let next = next_state(windows, s.state, StreamEvent::Row(pos));
                    match next.1 {
                        RowAction::CloseBlock => Stream {
                            state: next.0,
                            closed: s.closed.push(s.open),
                            open: seq![(n - 1) as usize],
                            bad_row: None,
                        },
                        RowAction::Append => Stream {
                            state: next.0,
                            open: s.open.push((n - 1) as usize),
                            ..s
                        },
                        RowAction::Ignore => Stream { state: next.0, ..s },
                    }
                },
            }
        }
    }
}

/// Once the aggregator is closed or has failed, further rows change nothing.
pub proof fn lemma_stream_settled(windows: Seq<Window>, rows: Seq<Seq<u8>>, m: nat, n: nat)
    requires
        m <= n,
        stream_after(windows, rows, m).bad_row.is_some() || stream_after(windows, rows, m).state
            == AggregatorState::Closed,
    ensures
        stream_after(windows, rows, n) == stream_after(windows, rows, m),
    decreases n,
{
    if m < n {
        lemma_stream_settled(windows, rows, m, (n - 1) as nat);
    }
}

/// What holds of the aggregator after any number of rows: it has closed as
/// many blocks as its cursor has passed windows, every row it holds was read,
/// and every block but the first holds a row.
pub proof fn lemma_stream_shape(windows: Seq<Window>, rows: Seq<Seq<u8>>, n: nat)
    requires
        windows.len() <= usize::MAX,
        n <= rows.len(),
    ensures
        ({
            let s = stream_after(windows, rows, n);
            &&& s.closed.len() <= windows.len()
            &&& match s.state {
                AggregatorState::AwaitingHeader => false,
                AggregatorState::Streaming(w) => w == s.closed.len() && w < windows.len(),
                AggregatorState::Closed => s.closed.len() == windows.len(),
            }
            &&& forall|k: int| 0 <= k < s.open.len() ==> (#[trigger] s.open[k]) < n
            &&& forall|w: int, k: int|
                0 <= w < s.closed.len() && 0 <= k < s.closed[w].len() ==> (
                #[trigger] s.closed[w][k]) < n
            &&& forall|w: int| 1 <= w < s.closed.len() ==> (#[trigger] s.closed[w]).len() > 0
            &&& s.closed.len() > 0 ==> s.open.len() > 0
        }),
    decreases n,
{
    if n > 0 {
        lemma_stream_shape(windows, rows, (n - 1) as nat);
        let p = stream_after(windows, rows, (n - 1) as nat);
        let s = stream_after(windows, rows, n);
        if p.bad_row.is_some() || p.state == AggregatorState::Closed {
        } else {
            match position_of(rows[n - 1]) {
                None => {},
                Some(pos) => {
                    let next = next_state(windows, p.state, StreamEvent::Row(pos));
                    match next.1 {
                        RowAction::CloseBlock => {
                            assert forall|w: int, k: int|
                                0 <= w < s.closed.len() && 0 <= k < s.closed[w].len() implies (
                            #[trigger] s.closed[w][k]) < n by {
                                if w < p.closed.len() {
                                    assert(s.closed[w] == p.closed[w]);
                                    assert(p.closed[w][k] < n - 1);
                                } else {
                                    assert(s.closed[w] == p.open);
                                    assert(p.open[k] < n - 1);
                                }
                            }
                            assert forall|w: int| 1 <= w < s.closed.len() implies (
                            #[trigger] s.closed[w]).len() > 0 by {
                                if w < p.closed.len() {
                                    assert(s.closed[w] == p.closed[w]);
                                } else {
                                    assert(s.closed[w] == p.open);
                                }
                            }
                        },
                        RowAction::Append => {
                            assert forall|k: int| 0 <= k < s.open.len() implies (
                            #[trigger] s.open[k]) < n by {
                                if k < p.open.len() {
                                    assert(s.open[k] == p.open[k]);
                                }
                            }
                        },
                        RowAction::Ignore => {},
                    }
                },
            }
        }
    }
}

/// The row with number `r` has a position inside window `w`.
pub open spec fn row_in_window(windows: Seq<Window>, rows: Seq<Seq<u8>>, w: int, r: usize) -> bool {
    position_of(rows[r as int]) matches Some(p) && windows[w].start <= p <= windows[w].end
}

/// The row with number `r` has a position beyond the end of window `w`.
pub open spec fn row_beyond_window(windows: Seq<Window>, rows: Seq<Seq<u8>>, w: int, r: usize) -> bool {
    position_of(rows[r as int]) matches Some(p) && p > windows[w].end
}

/// `block` is as a block of window `w` must be: after the first window its
/// first row is the one that closed the window before, and every other row
/// lies inside window `w`.
pub open spec fn block_in_window(
    windows: Seq<Window>,
    rows: Seq<Seq<u8>>,
    w: int,
    block: Seq<usize>,
) -> bool {
    &&& forall|k: int|
        (if w == 0 {
            0int
        } else {
            1int
        }) <= k < block.len() ==> row_in_window(windows, rows, w, #[trigger] block[k])
    &&& (w > 0 && block.len() > 0) ==> row_beyond_window(windows, rows, w - 1, block[0])
}

/// A row joins the block of a window only while its position lies inside the
/// window, but for the row that closed the window before, which opens the
/// block of the next.
pub proof fn lemma_blocks_lie_in_windows(windows: Seq<Window>, rows: Seq<Seq<u8>>, n: nat)
    requires
        windows.len() <= usize::MAX,
        n <= rows.len() <= usize::MAX,
    ensures
        forall|w: int|
            0 <= w < stream_after(windows, rows, n).closed.len() ==> block_in_window(
                windows,
                rows,
                w,
                #[trigger] stream_after(windows, rows, n).closed[w],
            ),
        block_in_window(
            windows,
            rows,
            stream_after(windows, rows, n).closed.len() as int,
            stream_after(windows, rows, n).open,
        ),
    decreases n,
{
    if n > 0 {
        lemma_blocks_lie_in_windows(windows, rows, (n - 1) as nat);
        lemma_stream_shape(windows, rows, (n - 1) as nat);
        let p = stream_after(windows, rows, (n - 1) as nat);
        let s = stream_after(windows, rows, n);
        let c = p.closed.len() as int;
        if p.bad_row.is_some() || p.state == AggregatorState::Closed {
        } else {
            match position_of(rows[n - 1]) {
                None => {},
                Some(pos) => {
                    let next = next_state(windows, p.state, StreamEvent::Row(pos));
                    match next.1 {
                        RowAction::CloseBlock => {
                            assert forall|w: int| 0 <= w < s.closed.len() implies block_in_window(
                                windows,
                                rows,
                                w,
                                #[trigger] s.closed[w],
                            ) by {
                                if w < c {
                                    assert(s.closed[w] == p.closed[w]);
                                } else {
                                    assert(s.closed[w] == p.open);
                                }
                            }
                            assert(s.open[0] == (n - 1) as usize);
                            assert(row_beyond_window(windows, rows, c, s.open[0]));
                        },
                        RowAction::Append => {
                            assert forall|k: int|
                                (if c == 0 {
                                    0int
                                } else {
                                    1int
                                }) <= k < s.open.len() implies row_in_window(
                                windows,
                                rows,
                                c,
                                #[trigger] s.open[k],
                            ) by {
                                if k < p.open.len() {
                                    assert(s.open[k] == p.open[k]);
                                } else {
                                    assert(s.open[k] == (n - 1) as usize);
                                }
                            }
                            if c > 0 {
                                assert(s.open[0] == p.open[0]);
                            }
                        },
                        RowAction::Ignore => {},
                    }
                },
            }
        }
    }
}

/// The rows of each block as sequences.
pub open spec fn index_seqs(v: &Vec<Vec<usize>>) -> Seq<Seq<usize>> {
    Seq::new(v@.len(), |k: int| v@[k]@)
}

/// Reads the position of a locus row.
pub fn row_position(line: &Vec<u8>) -> (res: Option<u32>)
    ensures
        res == position_of(line@),
{
    let f = fields(line);
    if f.len() > 1 {
        assert(byte_seqs(&f)[1] == f@[1]@);
        parse_decimal(&f[1], u32::MAX)
    } else {
        None
    }
}

/// Streams the locus rows into the windows and returns the blocks of the
/// windows that were closed: for each, the numbers of its rows, in order.
///
/// A window that the input ends in is not closed and has no block. Fails with
/// `BadCoordinate` at the first row that is read and has no position; rows
/// after the last window was closed are not read.
pub fn plan_blocks(windows: &Vec<Window>, rows: &Vec<Vec<u8>>) -> (res: Result<
    Vec<Vec<usize>>,
    CompareError,
>)
    ensures
        match stream_after(windows@, byte_seqs(rows), rows@.len() as nat).bad_row {
            Some(r) => res == Err::<Vec<Vec<usize>>, CompareError>(
                CompareError::BadCoordinate { row: r },
            ),
            None => res matches Ok(blocks) && index_seqs(&blocks) == stream_after(
                windows@,
                byte_seqs(rows),
                rows@.len() as nat,
            ).closed,
        },
        res matches Ok(blocks) ==> blocks@.len() <= windows@.len(),
        res matches Ok(blocks) ==> forall|w: int, k: int|
            0 <= w < blocks@.len() && 0 <= k < blocks@[w]@.len() ==> (#[trigger] blocks@[w]@[k])
                < rows@.len(),
        res matches Ok(blocks) ==> forall|w: int|
            0 <= w < blocks@.len() ==> block_in_window(
                windows@,
                byte_seqs(rows),
                w,
                #[trigger] index_seqs(&blocks)[w],
            ),
{
    let total: usize = rows.len();
    let count: usize = windows.len();
    let ghost lines = byte_seqs(rows);
    let mut state: AggregatorState = step(
        windows,
        AggregatorState::AwaitingHeader,
        StreamEvent::Header,
    ).0;
    let mut blocks: Vec<Vec<usize>> = Vec::new();
    let mut open: Vec<usize> = Vec::new();
    let mut r: usize = 0;
    assert(index_seqs(&blocks) =~= Seq::<Seq<usize>>::empty());
    while r < rows.len()
        invariant
            lines == byte_seqs(rows),
            total == rows@.len(),
            count == windows@.len(),
            r <= rows@.len(),
            stream_after(windows@, lines, r as nat).bad_row.is_none(),
            stream_after(windows@, lines, r as nat).state == state,
            stream_after(windows@, lines, r as nat).closed == index_seqs(&blocks),
            stream_after(windows@, lines, r as nat).open == open@,
        decreases rows@.len() - r,
    {
        if state == AggregatorState::Closed {
            proof {
                lemma_stream_settled(windows@, lines, r as nat, rows@.len() as nat);
                lemma_stream_shape(windows@, lines, total as nat);
                lemma_blocks_lie_in_windows(windows@, lines, total as nat);
            }
            assert forall|w: int, k: int|
                0 <= w < blocks@.len() && 0 <= k < blocks@[w]@.len() implies (
            #[trigger] blocks@[w]@[k]) < rows@.len() by {
                assert(index_seqs(&blocks)[w][k] == blocks@[w]@[k]);
            }
            return Ok(blocks);
        }
        assert(lines[r as int] == rows@[r as int]@);
        match row_position(&rows[r]) {
            None => {
                proof {
                    lemma_stream_settled(windows@, lines, (r + 1) as nat, rows@.len() as nat);
                }
                return Err(CompareError::BadCoordinate { row: r });
            },
            Some(pos) => {
                let next = step(windows, state, StreamEvent::Row(pos));
                state = next.0;
                match next.1 {
                    RowAction::CloseBlock => {
                        let ghost before = index_seqs(&blocks);
                        let ghost done = open@;
                        blocks.push(open);
                        open = Vec::new();
                        open.push(r);
                        assert(index_seqs(&blocks) =~= before.push(done));
                        assert(open@ =~= seq![r]);
                    },
                    RowAction::Append => {
                        open.push(r);
                    },
                    RowAction::Ignore => {},
                }
            },
        }
        r += 1;
    }
    proof {
        lemma_stream_shape(windows@, lines, total as nat);
        lemma_blocks_lie_in_windows(windows@, lines, total as nat);
    }
    assert forall|w: int, k: int|
        0 <= w < blocks@.len() && 0 <= k < blocks@[w]@.len() implies (#[trigger] blocks@[w]@[k])
        < rows@.len() by {
        assert(index_seqs(&blocks)[w][k] == blocks@[w]@[k]);
    }
    Ok(blocks)
}

} // verus!
