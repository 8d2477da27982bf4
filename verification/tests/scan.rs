use dicom_scanner::model::ModelDir;
use dicom_scanner::processor::DicomEntry;
use dicom_scanner::scan::{run_unit, scan};

fn matched(name: &str, id: &str) -> Option<DicomEntry> {
    Some(DicomEntry::new(Some(name.to_string()), Some(id.to_string())))
}

fn dir(readable: bool, subdirs: Vec<usize>, files: Vec<Option<DicomEntry>>) -> ModelDir {
    ModelDir { readable, subdirs, files }
}

#[test]
fn unit_scans_one_directory_without_recursing() {
    let tree = vec![
        dir(true, vec![1], vec![matched("A", "1"), None]),
        dir(true, vec![], vec![]),
    ];
    let o = run_unit(&tree, 0);
    assert_eq!(o.id, 0);
    assert_eq!(o.partial.total_file_count, 2);
    assert_eq!(o.partial.dicom_file_count, 1);
    assert_eq!(o.subdirs, vec![1]);
}

#[test]
fn unit_on_unreadable_directory_contributes_nothing() {
    let tree = vec![
        dir(true, vec![1], vec![]),
        dir(false, vec![], vec![matched("A", "1"), None, None]),
    ];
    let o = run_unit(&tree, 1);
    assert_eq!(o.partial.total_file_count, 0);
    assert_eq!(o.partial.dicom_file_count, 0);
    assert_eq!(o.subdirs.len(), 0);
}

#[test]
fn empty_root_counts_as_one_directory() {
    let tree = vec![dir(true, vec![], vec![])];
    let out = scan(&tree, 3).unwrap();
    assert_eq!(out.directory_count, 1);
    assert_eq!(out.result.total_file_count, 0);
    assert_eq!(out.result.dicom_file_count, 0);
    assert_eq!(out.listed, vec![0]);
}

#[test]
fn two_directories_three_files_two_matches() {
    // Root: two files, one matching; one subdirectory with one matching
    // file; one unit in flight at a time.
    let tree = vec![
        dir(true, vec![1], vec![matched("Doe^John", "P1"), None]),
        dir(true, vec![], vec![matched("Roe^Jane", "P2")]),
    ];
    let out = scan(&tree, 1).unwrap();
    assert_eq!(out.directory_count, 2);
    assert_eq!(out.result.total_file_count, 3);
    assert_eq!(out.result.dicom_file_count, 2);
    assert_eq!(out.result.dicom_entries.len(), 2);
}

#[test]
fn unreadable_root_is_fatal_and_yields_no_partial_results() {
    let tree = vec![dir(false, vec![], vec![matched("A", "1")])];
    assert!(scan(&tree, 4).is_none());
}

#[test]
fn missing_root_is_fatal() {
    let tree: Vec<ModelDir> = Vec::new();
    assert!(scan(&tree, 1).is_none());
}

#[test]
fn one_unreadable_directory_out_of_five_is_absorbed() {
    // Directory 3 cannot be listed: it is still dispatched and counted, but
    // its files contribute nothing and the scan completes normally.
    let tree = vec![
        dir(true, vec![1, 2, 3, 4], vec![matched("A", "1")]),
        dir(true, vec![], vec![None, None]),
        dir(true, vec![], vec![matched("B", "2")]),
        dir(false, vec![], vec![matched("C", "3"), None]),
        dir(true, vec![], vec![]),
    ];
    let out = scan(&tree, 2).unwrap();
    assert_eq!(out.directory_count, 5);
    assert_eq!(out.result.total_file_count, 4);
    assert_eq!(out.result.dicom_file_count, 2);
}

#[test]
fn files_are_counted_even_when_nothing_matches() {
    let tree = vec![
        dir(true, vec![1], vec![None, None, None]),
        dir(true, vec![], vec![None]),
    ];
    let out = scan(&tree, 2).unwrap();
    assert_eq!(out.result.total_file_count, 4);
    assert_eq!(out.result.dicom_file_count, 0);
    assert!(out.result.dicom_file_count <= out.result.total_file_count);
}

fn fifty_directory_tree() -> Vec<ModelDir> {
    // Directory 0 holds nine subdirectories, each of those holds four
    // (ids 10..=45), and directory 45 opens a chain 46 -> 47 -> 48 -> 49:
    // 1 + 9 + 36 + 4 = 50 directories in all.
    let mut tree: Vec<ModelDir> = Vec::new();
    tree.push(dir(true, (1..=9).collect(), vec![matched("Root", "0"), None]));
    for i in 1..=9usize {
        let kids: Vec<usize> = (0..4).map(|j| 10 + 4 * (i - 1) + j).collect();
        tree.push(dir(true, kids, vec![matched("Lvl1", &format!("D{}", i)), None]));
    }
    for i in 10..=45usize {
        let subdirs = if i == 45 { vec![46] } else { Vec::new() };
        tree.push(dir(true, subdirs, vec![matched("Lvl2", &format!("D{}", i))]));
    }
    tree.push(dir(true, vec![47], vec![None]));
    tree.push(dir(true, vec![48], vec![matched("Deep", "D47")]));
    tree.push(dir(true, vec![49], vec![]));
    tree.push(dir(true, vec![], vec![matched("Deep", "D49"), None]));
    assert_eq!(tree.len(), 50);
    tree
}

fn sorted_ids(out: &dicom_scanner::scan::ScanOutcome) -> Vec<String> {
    let mut ids: Vec<String> = out
        .result
        .dicom_entries
        .iter()
        .map(|e| e.patient_id.clone().unwrap_or_default())
        .collect();
    ids.sort();
    ids
}

#[test]
fn concurrency_limit_does_not_change_the_outcome() {
    let tree = fifty_directory_tree();
    let narrow = scan(&tree, 1).unwrap();
    let wide = scan(&tree, 100).unwrap();
    assert_eq!(narrow.directory_count, 50);
    assert_eq!(wide.directory_count, narrow.directory_count);
    assert_eq!(wide.result.total_file_count, narrow.result.total_file_count);
    assert_eq!(wide.result.dicom_file_count, narrow.result.dicom_file_count);
    assert_eq!(sorted_ids(&wide), sorted_ids(&narrow));
}

#[test]
fn scanning_twice_yields_the_same_report() {
    let tree = fifty_directory_tree();
    let first = scan(&tree, 3).unwrap();
    let second = scan(&tree, 3).unwrap();
    assert_eq!(first.directory_count, second.directory_count);
    assert_eq!(first.result.total_file_count, second.result.total_file_count);
    assert_eq!(first.result.dicom_file_count, second.result.dicom_file_count);
    assert_eq!(sorted_ids(&first), sorted_ids(&second));
}
