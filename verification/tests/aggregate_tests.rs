use clonehort::aggregate::{
    block_cells, build_filter, check_labels, label_type_count, probability_column_of,
    probability_columns, process_fb, row_cells, FilterPlan,
};
use clonehort::error::CompareError;
use clonehort::window::Window;

fn b(s: &str) -> Vec<u8> {
    s.as_bytes().to_vec()
}

fn two_windows() -> Vec<Window> {
    vec![Window { start: 10, end: 20 }, Window { start: 21, end: 30 }]
}

const FB: &str = "#reference_panel_population:\tAFR\tEUR\n\
chromosome\tphysical_position\tgenetic_position\tgenetic_marker_index\tA:::hap1:::AFR\tA:::hap1:::EUR\tA:::hap2:::AFR\tA:::hap2:::EUR\n\
chr1\t10\t0.1\t0\t0.9\t0.1\t0.2\t0.8\n\
chr1\t15\t0.2\t1\t0.7\t0.3\t0.4\t0.6\n\
chr1\t25\t0.3\t2\t0.6\t0.4\t0.1\t0.9\n\
chr1\t35\t0.4\t3\t0.5\t0.5\t0.5\t0.5\n";

#[test]
fn label_types_are_the_header_fields_less_one() {
    assert_eq!(label_type_count(&b("#reference_panel_population:\tAFR\tEUR\tNAT\n")), 3);
    assert_eq!(label_type_count(&b("#reference_panel_population:")), 0);
    assert_eq!(label_type_count(&b("")), 0);
}

#[test]
fn probability_column_is_haplotype_major() {
    assert_eq!(probability_column_of(0, 0, 3), Some(4));
    assert_eq!(probability_column_of(2, 1, 3), Some(11));
    assert_eq!(probability_column_of(5, 2, 3), Some(21));
    assert_eq!(probability_columns(&vec![0, 3], &vec![1, 0], 2), vec![Some(5), Some(10)]);
}

#[test]
fn a_label_that_the_file_does_not_know_has_no_column() {
    assert_eq!(probability_column_of(2, 3, 3), None);
    assert_eq!(probability_column_of(2, 255, 3), None);
    assert_eq!(probability_column_of(0, 0, 0), None);
    assert_eq!(probability_column_of(usize::MAX, 1, 2), None);
    assert_eq!(probability_column_of(usize::MAX - 4, 0, 1), Some(usize::MAX));
    assert_eq!(probability_column_of(usize::MAX - 3, 0, 1), None);
}

#[test]
fn labels_must_fit_windows_and_columns() {
    assert!(check_labels(&vec![vec![0, 1], vec![1, 0]], 2, 2));
    assert!(!check_labels(&vec![vec![0, 1], vec![1, 0]], 3, 2));
    assert!(!check_labels(&vec![vec![0, 1], vec![1]], 2, 2));
    assert!(check_labels(&vec![], 0, 5));
}

#[test]
fn plan_lays_out_blocks_and_columns() {
    let labels = vec![vec![0, 1], vec![1, 1]];
    let plan = process_fb(&b(FB), &vec![0, 1], &two_windows(), &labels).unwrap();
    assert_eq!(plan.label_types, 2);
    assert_eq!(plan.rows.len(), 4);
    assert_eq!(plan.blocks, vec![vec![0, 1], vec![2]]);
    assert_eq!(plan.columns, vec![vec![Some(4), Some(7)], vec![Some(5), Some(7)]]);
    let cells = block_cells(&plan.rows, &plan.blocks[0], &plan.columns[0]).unwrap();
    assert_eq!(cells, vec![vec![b("0.9"), b("0.8")], vec![b("0.7"), b("0.6")]]);
    let cells = block_cells(&plan.rows, &plan.blocks[1], &plan.columns[1]).unwrap();
    assert_eq!(cells, vec![vec![b("0.4"), b("0.9")]]);
}

#[test]
fn plan_uses_the_file_offsets_of_the_resolved_columns() {
    let labels = vec![vec![1], vec![0]];
    let plan = process_fb(&b(FB), &vec![1], &two_windows(), &labels).unwrap();
    assert_eq!(plan.columns, vec![vec![Some(7)], vec![Some(6)]]);
}

#[test]
fn plan_fails_on_faulty_input() {
    let labels = vec![vec![0, 1], vec![1, 1]];
    assert_eq!(
        process_fb(&b(""), &vec![0, 1], &two_windows(), &labels).err(),
        Some(CompareError::EmptyFile)
    );
    assert_eq!(
        process_fb(&b(FB), &vec![0, 1], &two_windows(), &vec![vec![0, 1]]).err(),
        Some(CompareError::ShapeMismatch)
    );
    assert_eq!(
        process_fb(&b(FB), &vec![0], &two_windows(), &labels).err(),
        Some(CompareError::ShapeMismatch)
    );
    let bad = b("#p\tAFR\tEUR\nsecond\nchr1\t10\t0\t0\t0.9\t0.1\nchr1\tpos\t0\t0\t0.9\t0.1\n");
    assert_eq!(
        process_fb(&bad, &vec![0], &two_windows(), &vec![vec![0], vec![0]]).err(),
        Some(CompareError::BadCoordinate { row: 1 })
    );
}

#[test]
fn header_alone_closes_no_window() {
    let plan = process_fb(&b("#p\tAFR\tEUR\n"), &vec![0], &two_windows(), &vec![vec![0], vec![0]])
        .unwrap();
    assert_eq!(plan.label_types, 2);
    assert_eq!(plan.rows, Vec::<Vec<u8>>::new());
    assert_eq!(plan.blocks, Vec::<Vec<usize>>::new());
    assert_eq!(build_filter(&plan, &vec![], 2, 1), Some(vec![vec![true], vec![true]]));
}

#[test]
fn cells_of_a_row() {
    let line = b("chr1\t10\t0.1\t0\t0.9\t0.1\t0.2\t0.8\n");
    assert_eq!(
        row_cells(&line, &vec![Some(7), None, Some(4)]),
        Some(vec![b("0.8"), b(""), b("0.9")])
    );
    assert_eq!(row_cells(&line, &vec![Some(8)]), None);
    assert_eq!(row_cells(&line, &vec![]), Some(vec![]));
}

#[test]
fn cells_fail_at_the_first_faulty_row() {
    let rows = vec![b("chr1\t10\t0\t0\t0.9\t0.1"), b("chr1\t11\t0\t0\t0.9"), b("chr1\t12")];
    assert_eq!(
        block_cells(&rows, &vec![0, 1, 2], &vec![Some(5)]),
        Err(CompareError::ShortRow { row: 1 })
    );
    assert_eq!(
        block_cells(&rows, &vec![0, 7, 1], &vec![Some(5)]),
        Err(CompareError::ShapeMismatch)
    );
    assert_eq!(block_cells(&rows, &vec![], &vec![Some(5)]), Ok(vec![]));
    assert_eq!(
        block_cells(&rows, &vec![2, 0], &vec![None]),
        Ok(vec![vec![b("")], vec![b("")]])
    );
}

fn plan_of(blocks: Vec<Vec<usize>>, columns: Vec<Vec<Option<usize>>>) -> FilterPlan {
    FilterPlan { label_types: 2, rows: vec![], blocks, columns }
}

#[test]
fn filter_takes_the_decisions_of_closed_windows() {
    let plan = plan_of(vec![vec![0, 1], vec![2]], vec![vec![Some(4), Some(7)], vec![Some(5), Some(7)]]);
    let decisions = vec![vec![true, false], vec![false, true]];
    assert_eq!(
        build_filter(&plan, &decisions, 3, 2),
        Some(vec![vec![true, false], vec![false, true], vec![true, true]])
    );
}

#[test]
fn a_closed_window_without_rows_is_rejected() {
    let plan = plan_of(vec![vec![], vec![0]], vec![vec![Some(4)], vec![Some(4)]]);
    let decisions = vec![vec![true], vec![true]];
    assert_eq!(build_filter(&plan, &decisions, 2, 1), Some(vec![vec![false], vec![true]]));
}

#[test]
fn a_label_without_column_is_rejected() {
    let plan = plan_of(vec![vec![0]], vec![vec![None, Some(4)]]);
    assert_eq!(build_filter(&plan, &vec![vec![true, true]], 1, 2), Some(vec![vec![false, true]]));
}

#[test]
fn filter_needs_fitting_decisions() {
    let plan = plan_of(vec![vec![0]], vec![vec![Some(4)]]);
    assert_eq!(build_filter(&plan, &vec![], 1, 1), None);
    assert_eq!(build_filter(&plan, &vec![vec![true, true]], 1, 1), None);
    assert_eq!(build_filter(&plan, &vec![vec![true]], 0, 1), None);
    assert_eq!(build_filter(&plan, &vec![vec![true]], 1, 2), None);
    let odd = plan_of(vec![vec![0]], vec![]);
    assert_eq!(build_filter(&odd, &vec![vec![true]], 1, 1), None);
}
