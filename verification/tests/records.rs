use dicom_scanner::processor::{DicomEntry, ScanResult};
use dicom_scanner::file_scanner::{classify_entries, assemble_result, EntryKind, FsEntry};

fn entry(name: &str, id: &str) -> DicomEntry {
    DicomEntry::new(Some(name.to_string()), Some(id.to_string()))
}

#[test]
fn new_entry_has_no_filepath() {
    let e = DicomEntry::new(Some("Doe^John".to_string()), None);
    assert_eq!(e.filepath, None);
    assert_eq!(e.patient_name, Some("Doe^John".to_string()));
    assert_eq!(e.patient_id, None);
}

#[test]
fn entry_with_all_attributes_absent_is_still_a_match() {
    let e = DicomEntry::new(None, None);
    assert_eq!(e.patient_name, None);
    assert_eq!(e.patient_id, None);
    let files = vec!["/a/x.dcm".to_string()];
    let outcomes = vec![Some(e)];
    let r = assemble_result(&files, &outcomes);
    assert_eq!(r.dicom_file_count, 1);
    assert_eq!(r.total_file_count, 1);
}

#[test]
fn default_result_is_empty() {
    let r = ScanResult::default();
    assert_eq!(r.dicom_entries.len(), 0);
    assert_eq!(r.dicom_file_count, 0);
    assert_eq!(r.total_file_count, 0);
}

#[test]
fn merge_adds_counts_and_concatenates_records() {
    let mut a = ScanResult {
        dicom_entries: vec![entry("A", "1")],
        dicom_file_count: 1,
        total_file_count: 3,
    };
    let b = ScanResult {
        dicom_entries: vec![entry("B", "2"), entry("C", "3")],
        dicom_file_count: 2,
        total_file_count: 5,
    };
    a.merge(b);
    assert_eq!(a.total_file_count, 8);
    assert_eq!(a.dicom_file_count, 3);
    assert_eq!(a.dicom_entries.len(), 3);
    assert_eq!(a.dicom_entries[0].patient_name, Some("A".to_string()));
    assert_eq!(a.dicom_entries[1].patient_name, Some("B".to_string()));
    assert_eq!(a.dicom_entries[2].patient_name, Some("C".to_string()));
}

#[test]
fn merge_with_empty_is_identity() {
    let mut a = ScanResult {
        dicom_entries: vec![entry("A", "1")],
        dicom_file_count: 1,
        total_file_count: 2,
    };
    a.merge(ScanResult::default());
    assert_eq!(a.total_file_count, 2);
    assert_eq!(a.dicom_file_count, 1);
    assert_eq!(a.dicom_entries.len(), 1);
}

#[test]
fn merge_either_way_keeps_counts() {
    let a = ScanResult {
        dicom_entries: vec![entry("A", "1")],
        dicom_file_count: 1,
        total_file_count: 4,
    };
    let b = ScanResult {
        dicom_entries: vec![entry("B", "2"), entry("C", "3")],
        dicom_file_count: 2,
        total_file_count: 6,
    };
    let mut ab = ScanResult {
        dicom_entries: a.dicom_entries.clone(),
        dicom_file_count: a.dicom_file_count,
        total_file_count: a.total_file_count,
    };
    ab.merge(ScanResult {
        dicom_entries: b.dicom_entries.clone(),
        dicom_file_count: b.dicom_file_count,
        total_file_count: b.total_file_count,
    });
    let mut ba = b;
    ba.merge(a);
    assert_eq!(ab.total_file_count, ba.total_file_count);
    assert_eq!(ab.dicom_file_count, ba.dicom_file_count);
    let mut names_ab: Vec<String> = ab
        .dicom_entries
        .iter()
        .map(|e| e.patient_name.clone().unwrap_or_default())
        .collect();
    let mut names_ba: Vec<String> = ba
        .dicom_entries
        .iter()
        .map(|e| e.patient_name.clone().unwrap_or_default())
        .collect();
    names_ab.sort();
    names_ba.sort();
    assert_eq!(names_ab, names_ba);
}

#[test]
fn classify_splits_files_and_directories_and_ignores_the_rest() {
    let entries = vec![
        FsEntry { path: "/r/a.dcm".to_string(), kind: EntryKind::File },
        FsEntry { path: "/r/sub".to_string(), kind: EntryKind::Directory },
        FsEntry { path: "/r/link".to_string(), kind: EntryKind::Other },
        FsEntry { path: "/r/b.dcm".to_string(), kind: EntryKind::File },
    ];
    let (files, dirs) = classify_entries(&entries);
    assert_eq!(files, vec!["/r/a.dcm".to_string(), "/r/b.dcm".to_string()]);
    assert_eq!(dirs, vec!["/r/sub".to_string()]);
}

#[test]
fn classify_empty_listing() {
    let (files, dirs) = classify_entries(&Vec::new());
    assert_eq!(files.len(), 0);
    assert_eq!(dirs.len(), 0);
}

#[test]
fn assemble_counts_every_file_and_attaches_paths() {
    let files = vec!["/r/a.dcm".to_string(), "/r/b.txt".to_string(), "/r/c.dcm".to_string()];
    let outcomes = vec![Some(entry("A", "1")), None, Some(entry("C", "3"))];
    let r = assemble_result(&files, &outcomes);
    assert_eq!(r.total_file_count, 3);
    assert_eq!(r.dicom_file_count, 2);
    assert_eq!(r.dicom_entries.len(), 2);
    assert_eq!(r.dicom_entries[0].filepath, Some("/r/a.dcm".to_string()));
    assert_eq!(r.dicom_entries[0].patient_name, Some("A".to_string()));
    assert_eq!(r.dicom_entries[1].filepath, Some("/r/c.dcm".to_string()));
    assert_eq!(r.dicom_entries[1].patient_id, Some("3".to_string()));
}

#[test]
fn assemble_with_no_matches_still_counts_files() {
    let files = vec!["/r/a".to_string(), "/r/b".to_string()];
    let outcomes = vec![None, None];
    let r = assemble_result(&files, &outcomes);
    assert_eq!(r.total_file_count, 2);
    assert_eq!(r.dicom_file_count, 0);
    assert_eq!(r.dicom_entries.len(), 0);
}
