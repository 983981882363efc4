use clonehort::prepare::{count_alleles, join_alleles, process_variant_input, summarize_locus, Locus};

fn b(s: &str) -> Vec<u8> {
    s.as_bytes().to_vec()
}

#[test]
fn it_works() {
    assert!(process_variant_input(&vec![]).is_empty());
}

#[test]
fn alleles_are_counted_by_kind() {
    assert_eq!(count_alleles(&vec![Some(0), Some(1)]), (1, 1, 0));
    assert_eq!(count_alleles(&vec![Some(0), Some(0)]), (2, 0, 0));
    assert_eq!(count_alleles(&vec![None, Some(2), Some(3), None, None]), (0, 2, 3));
    assert_eq!(count_alleles(&vec![]), (0, 0, 0));
}

#[test]
fn alleles_are_written_with_a_space_after_each() {
    assert_eq!(join_alleles(&vec![b("A"), b("T")]), b("A T "));
    assert_eq!(join_alleles(&vec![b("ACG"), b(""), b("<DEL>")]), b("ACG  <DEL> "));
    assert_eq!(join_alleles(&vec![]), b(""));
}

#[test]
fn a_locus_is_reported_sample_by_sample() {
    let locus = Locus {
        position: 1233,
        alleles: vec![b("G"), b("A"), b("GT")],
        genotypes: vec![vec![Some(0), Some(0)], vec![Some(1), None], vec![Some(2), Some(1)], vec![]],
    };
    let report = summarize_locus(&locus);
    assert_eq!(report.position, 1233);
    assert_eq!(report.alleles, b("G A GT "));
    assert_eq!(report.reference, vec![2, 0, 0, 0]);
    assert_eq!(report.alternate, vec![0, 1, 2, 0]);
    assert_eq!(report.missing, vec![0, 1, 0, 0]);
}

#[test]
fn loci_are_reported_in_file_order() {
    let loci = vec![
        Locus { position: 9, alleles: vec![b("C"), b("T")], genotypes: vec![vec![Some(1), Some(1)]] },
        Locus { position: -1, alleles: vec![b("A")], genotypes: vec![vec![None, None]] },
    ];
    let reports = process_variant_input(&loci);
    assert_eq!(reports.len(), 2);
    assert_eq!(reports[0].position, 9);
    assert_eq!(reports[0].alternate, vec![2]);
    assert_eq!(reports[1].position, -1);
    assert_eq!(reports[1].alleles, b("A "));
    assert_eq!(reports[1].missing, vec![2]);
}
