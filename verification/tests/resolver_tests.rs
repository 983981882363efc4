use clonehort::error::CompareError;
use clonehort::resolver::{check_complete, first_line_id_indices, resolve_columns};
use clonehort::samples::HaplotypeSet;

fn b(s: &str) -> Vec<u8> {
    s.as_bytes().to_vec()
}

#[test]
fn sample_list_expands_to_two_haplotypes_each() {
    let set = HaplotypeSet::from_sample_list(&b("NA1\nNA2\n"));
    assert_eq!(set.len(), 4);
    assert!(set.contains(&b("NA1.0")));
    assert!(set.contains(&b("NA1.1")));
    assert!(set.contains(&b("NA2.0")));
    assert!(set.contains(&b("NA2.1")));
    assert!(!set.contains(&b("NA1")));
    assert!(!set.contains(&b("NA3.0")));
}

#[test]
fn sample_list_holds_each_haplotype_once() {
    let set = HaplotypeSet::from_sample_list(&b("\nNA1\nNA1\nNA2\n\n"));
    assert_eq!(set.len(), 4);
    let mut own = HaplotypeSet::new();
    assert_eq!(own.len(), 0);
    own.insert(b("x.0"));
    own.insert(b("x.0"));
    assert_eq!(own.len(), 1);
}

#[test]
fn resolver_skips_the_leading_fields() {
    let set = HaplotypeSet::from_sample_list(&b("A\nC"));
    let header = b("#chm\tspos\tepos\tsgpos\tegpos\tn snps\tA.0\tA.1\tB.0\tB.1\tC.0\tC.1\n");
    assert_eq!(resolve_columns(&header, &set), vec![0, 1, 4, 5]);
    // A label among the leading fields is not a column.
    let odd = b("A.0\tspos\tepos\tsgpos\tegpos\tn snps\tB.0\tC.1");
    assert_eq!(resolve_columns(&odd, &set), vec![1]);
    assert_eq!(resolve_columns(&b("a\tb"), &set), Vec::<usize>::new());
}

#[test]
fn resolver_reads_the_second_line() {
    let set = HaplotypeSet::from_sample_list(&b("B"));
    let content = b("#codes\n#chm\tspos\tepos\tsgpos\tegpos\tn snps\tA.0\tB.1\tB.0\nchr1\t1\t2\n");
    assert_eq!(first_line_id_indices(&content, &set), Ok(vec![1, 2]));
}

#[test]
fn resolver_fails_without_a_header() {
    let set = HaplotypeSet::from_sample_list(&b("B"));
    assert_eq!(first_line_id_indices(&b(""), &set), Err(CompareError::EmptyFile));
    assert_eq!(first_line_id_indices(&b("#codes\n"), &set), Err(CompareError::EmptyFile));
}

#[test]
fn resolving_twice_gives_the_same_columns() {
    let set = HaplotypeSet::from_sample_list(&b("A\nB"));
    let content = b("#codes\n#chm\tspos\tepos\tsgpos\tegpos\tn snps\tB.1\tA.0\tZ.0\tB.0\tA.1\n");
    let first = first_line_id_indices(&content, &set);
    let second = first_line_id_indices(&content, &set);
    assert_eq!(first, second);
    assert_eq!(first, Ok(vec![0, 1, 3, 4]));
}

#[test]
fn incomplete_resolution_is_a_sample_mismatch() {
    let set = HaplotypeSet::from_sample_list(&b("A\nB"));
    assert_eq!(check_complete(&set, &vec![0, 1, 2, 3], &vec![4, 5, 6, 7]), Ok(()));
    assert_eq!(
        check_complete(&set, &vec![0, 1, 2], &vec![4, 5, 6, 7]),
        Err(CompareError::SampleMismatch)
    );
    assert_eq!(
        check_complete(&set, &vec![0, 1, 2, 3], &vec![4, 5, 6, 7, 8]),
        Err(CompareError::SampleMismatch)
    );
}
