use clonehort::error::CompareError;
use clonehort::window::{plan_blocks, row_position, step, AggregatorState, RowAction, StreamEvent, Window};

fn b(s: &str) -> Vec<u8> {
    s.as_bytes().to_vec()
}

fn rows(positions: &[&str]) -> Vec<Vec<u8>> {
    positions.iter().map(|p| b(&format!("chr1\t{}\t0.5\t3\t0.9\t0.1\n", p))).collect()
}

fn two_windows() -> Vec<Window> {
    vec![Window { start: 10, end: 20 }, Window { start: 21, end: 30 }]
}

#[test]
fn header_starts_the_stream() {
    let w = two_windows();
    assert_eq!(
        step(&w, AggregatorState::AwaitingHeader, StreamEvent::Header),
        (AggregatorState::Streaming(0), RowAction::Ignore)
    );
    assert_eq!(
        step(&vec![], AggregatorState::AwaitingHeader, StreamEvent::Header),
        (AggregatorState::Closed, RowAction::Ignore)
    );
    assert_eq!(
        step(&w, AggregatorState::AwaitingHeader, StreamEvent::Row(15)),
        (AggregatorState::AwaitingHeader, RowAction::Ignore)
    );
}

#[test]
fn rows_join_close_or_are_dropped() {
    let w = two_windows();
    let s = AggregatorState::Streaming(0);
    assert_eq!(step(&w, s, StreamEvent::Row(9)), (s, RowAction::Ignore));
    assert_eq!(step(&w, s, StreamEvent::Row(10)), (s, RowAction::Append));
    assert_eq!(step(&w, s, StreamEvent::Row(20)), (s, RowAction::Append));
    assert_eq!(
        step(&w, s, StreamEvent::Row(21)),
        (AggregatorState::Streaming(1), RowAction::CloseBlock)
    );
    assert_eq!(
        step(&w, AggregatorState::Streaming(1), StreamEvent::Row(31)),
        (AggregatorState::Closed, RowAction::CloseBlock)
    );
    assert_eq!(
        step(&w, AggregatorState::Streaming(5), StreamEvent::Row(31)),
        (AggregatorState::Closed, RowAction::Ignore)
    );
}

#[test]
fn end_of_input_closes() {
    let w = two_windows();
    for s in [AggregatorState::AwaitingHeader, AggregatorState::Streaming(1), AggregatorState::Closed] {
        assert_eq!(step(&w, s, StreamEvent::EndOfInput), (AggregatorState::Closed, RowAction::Ignore));
    }
    assert_eq!(
        step(&w, AggregatorState::Closed, StreamEvent::Row(1)),
        (AggregatorState::Closed, RowAction::Ignore)
    );
    assert_eq!(
        step(&w, AggregatorState::Streaming(1), StreamEvent::Header),
        (AggregatorState::Streaming(1), RowAction::Ignore)
    );
}

#[test]
fn position_is_the_second_field() {
    assert_eq!(row_position(&b("chr1\t1234\t0.5\t3\t0.9")), Some(1234));
    assert_eq!(row_position(&b("chr1")), None);
    assert_eq!(row_position(&b("chr1\tabc\t1")), None);
    assert_eq!(row_position(&b("")), None);
}

#[test]
fn blocks_follow_the_windows() {
    let blocks = plan_blocks(&two_windows(), &rows(&["5", "10", "15", "25", "28", "35", "40"]));
    assert_eq!(blocks, Ok(vec![vec![1, 2], vec![3, 4]]));
}

#[test]
fn the_closing_row_opens_the_next_block() {
    let w = vec![
        Window { start: 10, end: 20 },
        Window { start: 21, end: 30 },
        Window { start: 31, end: 40 },
    ];
    // The row at 35 closes the first window and is the first row of the second block,
    // which the row at 36 then closes.
    let blocks = plan_blocks(&w, &rows(&["12", "35", "36", "50"]));
    assert_eq!(blocks, Ok(vec![vec![0], vec![1], vec![2]]));
}

#[test]
fn a_window_that_the_input_ends_in_has_no_block() {
    let blocks = plan_blocks(&two_windows(), &rows(&["10", "22", "23"]));
    assert_eq!(blocks, Ok(vec![vec![0]]));
    assert_eq!(plan_blocks(&two_windows(), &rows(&[])), Ok(vec![]));
    assert_eq!(plan_blocks(&vec![], &rows(&["10"])), Ok(vec![]));
}

#[test]
fn the_first_block_may_be_empty() {
    let blocks = plan_blocks(&two_windows(), &rows(&["25", "40"]));
    assert_eq!(blocks, Ok(vec![vec![], vec![0]]));
}

#[test]
fn a_row_without_position_is_fatal_while_windows_are_open() {
    assert_eq!(
        plan_blocks(&two_windows(), &rows(&["10", "x", "40"])),
        Err(CompareError::BadCoordinate { row: 1 })
    );
    // Once every window is closed, no row is read.
    assert_eq!(
        plan_blocks(&two_windows(), &rows(&["10", "25", "40", "x"])),
        Ok(vec![vec![0], vec![1]])
    );
}
