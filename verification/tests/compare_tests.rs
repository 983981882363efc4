use clonehort::aggregate::{block_cells, build_filter, process_fb};
use clonehort::calls::process_msp;
use clonehort::compare::perform_comparison;
use clonehort::error::CompareError;
use clonehort::resolver::first_line_id_indices;
use clonehort::samples::HaplotypeSet;

fn b(s: &str) -> Vec<u8> {
    s.as_bytes().to_vec()
}

const WINDOWS: usize = 7;
const REFERENCE_COLUMNS: [&str; 8] = ["A.0", "A.1", "B.0", "B.1", "C.0", "C.1", "D.0", "D.1"];
const TARGET_COLUMNS: [&str; 10] =
    ["D.1", "X.0", "C.0", "A.1", "B.1", "X.1", "A.0", "D.0", "C.1", "B.0"];

fn toy_samples() -> Vec<u8> {
    b("A\nB\nC\nD\n")
}

fn reference_label(w: usize, i: usize) -> usize {
    (w + i) % 3
}

// The windows on which the target disagrees with the reference, per haplotype.
fn disagrees(w: usize, i: usize) -> bool {
    match i {
        2 => w == 1 || w == 4,
        3 => w == 6,
        4 => true,
        6 => w == 0 || w == 2 || w == 5,
        _ => false,
    }
}

fn target_label(w: usize, id: &str) -> usize {
    match REFERENCE_COLUMNS.iter().position(|c| *c == id) {
        Some(i) => {
            if disagrees(w, i) {
                (reference_label(w, i) + 1) % 3
            } else {
                reference_label(w, i)
            }
        }
        None => 2,
    }
}

fn msp(columns: &[&str], label: &dyn Fn(usize, usize) -> usize) -> Vec<u8> {
    let mut text = String::from("#Subpopulation order/codes: AFR=0\tEUR=1\tNAT=2\n");
    text.push_str("#chm\tspos\tepos\tsgpos\tegpos\tn snps");
    for c in columns {
        text.push_str(&format!("\t{}", c));
    }
    text.push('\n');
    for w in 0..WINDOWS {
        text.push_str(&format!("chr20\t{}\t{}\t0.00\t0.50\t40", 100 * w + 1, 100 * (w + 1)));
        for i in 0..columns.len() {
            text.push_str(&format!("\t{}", label(w, i)));
        }
        text.push('\n');
    }
    text.into_bytes()
}

fn toy_ref_msp() -> Vec<u8> {
    msp(&REFERENCE_COLUMNS, &|w, i| reference_label(w, i))
}

fn toy_target_msp() -> Vec<u8> {
    msp(&TARGET_COLUMNS, &|w, j| target_label(w, TARGET_COLUMNS[j]))
}

// Three loci in every window and one behind the last; the called label has
// the posterior `called`, the other two share the rest.
fn toy_ref_fb(called: &str, other: &str) -> Vec<u8> {
    let mut text = String::from("#reference_panel_population:\tAFR\tEUR\tNAT\n");
    text.push_str("chromosome\tphysical_position\tgenetic_position\tgenetic_marker_index\n");
    let mut marker = 0;
    for w in 0..=WINDOWS {
        for offset in [10, 40, 70] {
            if w == WINDOWS && offset > 10 {
                break;
            }
            text.push_str(&format!("chr20\t{}\t0.1\t{}", 100 * w + offset, marker));
            marker += 1;
            for i in 0..REFERENCE_COLUMNS.len() {
                for l in 0..3 {
                    let p = if w < WINDOWS && reference_label(w, i) == l { called } else { other };
                    text.push_str(&format!("\t{}", p));
                }
            }
            text.push('\n');
        }
    }
    text.into_bytes()
}

fn mean_reaches(cells: &Vec<Vec<Vec<u8>>>, k: usize, threshold: f32) -> bool {
    let mut sum = 0f32;
    for row in cells {
        let text = String::from_utf8_lossy(&row[k]);
        sum += text.parse::<f32>().unwrap_or(f32::MIN);
    }
    sum / cells.len() as f32 >= threshold
}

fn filter_at(threshold: f32, fb: &Vec<u8>) -> Vec<Vec<bool>> {
    let reference = toy_ref_msp();
    let set = HaplotypeSet::from_sample_list(&toy_samples());
    let indices = first_line_id_indices(&reference, &set).unwrap();
    let calls = process_msp(&reference, &indices).unwrap();
    let plan = process_fb(fb, &indices, &calls.windows, &calls.labels).unwrap();
    let mut decisions = Vec::new();
    for w in 0..plan.blocks.len() {
        let cells = block_cells(&plan.rows, &plan.blocks[w], &plan.columns[w]).unwrap();
        decisions.push((0..indices.len()).map(|k| mean_reaches(&cells, k, threshold)).collect());
    }
    build_filter(&plan, &decisions, calls.windows.len(), indices.len()).unwrap()
}

#[test]
fn toy_msp() {
    let c = perform_comparison(&toy_samples(), &toy_ref_msp(), &toy_target_msp(), None).unwrap();
    let n_shared_by_col = c.shared;

    assert_eq!(n_shared_by_col[0], 7);
    assert_eq!(n_shared_by_col[1], 7);
    assert_eq!(n_shared_by_col[2], 5);
    assert_eq!(n_shared_by_col[3], 6);
    assert_eq!(n_shared_by_col[4], 0);
    assert_eq!(n_shared_by_col[5], 7);
    assert_eq!(n_shared_by_col[6], 4);
    assert_eq!(n_shared_by_col[7], 7);
}

#[test]
fn toy_fb_point8() {
    let filter = filter_at(0.8, &toy_ref_fb("0.95", "0.025"));
    let c = perform_comparison(&toy_samples(), &toy_ref_msp(), &toy_target_msp(), Some(&filter))
        .unwrap();
    let n_shared_by_col = c.shared;

    assert_eq!(n_shared_by_col[0], 7);
    assert_eq!(n_shared_by_col[1], 7);
    assert_eq!(n_shared_by_col[2], 5);
    assert_eq!(n_shared_by_col[3], 6);
    assert_eq!(n_shared_by_col[4], 0);
    assert_eq!(n_shared_by_col[5], 7);
    assert_eq!(n_shared_by_col[6], 4);
    assert_eq!(n_shared_by_col[7], 7);
}

#[test]
fn comparison_names_the_reference_columns() {
    let c = perform_comparison(&toy_samples(), &toy_ref_msp(), &toy_target_msp(), None).unwrap();
    let ids: Vec<Vec<u8>> = REFERENCE_COLUMNS.iter().map(|c| b(c)).collect();
    assert_eq!(c.ids, ids);
    assert_eq!(c.total, vec![7; 8]);
}

#[test]
fn comparison_goes_by_identifier_in_either_direction() {
    let c = perform_comparison(&toy_samples(), &toy_target_msp(), &toy_ref_msp(), None).unwrap();
    let ids: Vec<Vec<u8>> =
        ["D.1", "C.0", "A.1", "B.1", "A.0", "D.0", "C.1", "B.0"].iter().map(|c| b(c)).collect();
    assert_eq!(c.ids, ids);
    assert_eq!(c.shared, vec![7, 0, 7, 6, 7, 4, 7, 5]);
}

#[test]
fn a_threshold_that_nothing_reaches_counts_nothing() {
    let filter = filter_at(0.99, &toy_ref_fb("0.95", "0.025"));
    assert_eq!(filter, vec![vec![false; 8]; 7]);
    let c = perform_comparison(&toy_samples(), &toy_ref_msp(), &toy_target_msp(), Some(&filter))
        .unwrap();
    assert_eq!(c.total, vec![0; 8]);
    assert_eq!(c.shared, vec![0; 8]);
}

#[test]
fn raising_the_threshold_never_adds_a_window() {
    let fb = toy_ref_fb("0.7", "0.15");
    let mut before = vec![usize::MAX; 8];
    for threshold in [0.0, 0.5, 0.7, 0.75, 1.0] {
        let filter = filter_at(threshold, &fb);
        let c =
            perform_comparison(&toy_samples(), &toy_ref_msp(), &toy_target_msp(), Some(&filter))
                .unwrap();
        for i in 0..8 {
            assert!(c.total[i] <= before[i]);
            assert!(c.shared[i] <= c.total[i]);
        }
        before = c.total;
    }
    assert_eq!(before, vec![0; 8]);
}

#[test]
fn a_missing_sample_is_a_mismatch() {
    let res = perform_comparison(&b("A\nB\nC\nD\nE\n"), &toy_ref_msp(), &toy_target_msp(), None);
    assert_eq!(res.err(), Some(CompareError::SampleMismatch));
    let res = perform_comparison(&b("A\nX\n"), &toy_ref_msp(), &toy_target_msp(), None);
    assert_eq!(res.err(), Some(CompareError::SampleMismatch));
}

#[test]
fn a_file_without_header_is_empty() {
    let res = perform_comparison(&toy_samples(), &b("#codes\n"), &toy_target_msp(), None);
    assert_eq!(res.err(), Some(CompareError::EmptyFile));
    let res = perform_comparison(&toy_samples(), &toy_ref_msp(), &b(""), None);
    assert_eq!(res.err(), Some(CompareError::EmptyFile));
}

#[test]
fn a_faulty_row_ends_the_comparison() {
    let mut reference = toy_ref_msp();
    reference.extend_from_slice(b"chr20\t701\t800\n");
    let res = perform_comparison(&toy_samples(), &reference, &toy_target_msp(), None);
    assert_eq!(res.err(), Some(CompareError::ShortRow { row: 7 }));
    let mut target = toy_target_msp();
    target.extend_from_slice(b"chr20\t701\tx\t0\t0\t4\t0\t0\t0\t0\t0\t0\t0\t0\t0\t0\n");
    let res = perform_comparison(&toy_samples(), &toy_ref_msp(), &target, None);
    assert_eq!(res.err(), Some(CompareError::BadCoordinate { row: 7 }));
}

#[test]
fn a_filter_of_the_wrong_width_is_refused() {
    let filter = vec![vec![true; 7]; 7];
    let res = perform_comparison(&toy_samples(), &toy_ref_msp(), &toy_target_msp(), Some(&filter));
    assert_eq!(res.err(), Some(CompareError::ShapeMismatch));
}

#[test]
fn a_repeated_column_is_a_mismatch() {
    let header = "#codes\n#chm\tspos\tepos\tsgpos\tegpos\tn snps\tA.0\tA.0\n";
    let reference = b("#codes\n#chm\tspos\tepos\tsgpos\tegpos\tn snps\tA.0\tA.1\nchr1\t1\t2\t0\t0\t1\t0\t0\n");
    let target = b(&format!("{}chr1\t1\t2\t0\t0\t1\t0\t0\n", header));
    let res = perform_comparison(&b("A"), &reference, &target, None);
    assert_eq!(res.err(), Some(CompareError::SampleMismatch));
}
