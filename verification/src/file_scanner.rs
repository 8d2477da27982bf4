//! The compute half of a Directory Scan Unit.
//!
//! A scan unit looks at one directory's immediate children. The listing
//! itself is filesystem work and happens outside the library; it hands in the
//! children as plain `FsEntry` values. The unit classifies them — file paths
//! are kept and counted, subdirectory paths are reported back for later
//! dispatch, anything else is ignored — and then, once the extractor has been
//! asked about each file, assembles the directory's `ScanResult`, attaching
//! to every matched record the path of the file it came from.

use vstd::prelude::*;
use crate::processor::{DicomEntry, DicomEntryView, ScanResult};

verus! {

/// What one directory child is: a subdirectory, a regular file, or anything
/// else (symlink, socket, ...), which a scan unit ignores.
pub enum EntryKind {
    Directory,
    File,
    Other,
}

/// One immediate child of a directory, as the filesystem reports it.
pub struct FsEntry {
    pub path: String,
    pub kind: EntryKind,
}

/// The paths of the entries classified as regular files, in listing order.
pub open spec fn file_paths_of(s: Seq<FsEntry>) -> Seq<Seq<char>>
    decreases s.len(),
{
    if s.len() == 0 {
        Seq::empty()
    } else {
        let rest = file_paths_of(s.drop_last());
        if s.last().kind is File {
            rest.push(s.last().path@)
        } else {
            rest
        }
    }
}

/// The paths of the entries classified as subdirectories, in listing order.
pub open spec fn dir_paths_of(s: Seq<FsEntry>) -> Seq<Seq<char>>
    decreases s.len(),
{
    if s.len() == 0 {
        Seq::empty()
    } else {
        let rest = dir_paths_of(s.drop_last());
        if s.last().kind is Directory {
            rest.push(s.last().path@)
        } else {
            rest
        }
    }
}

/// Classify one directory's children: the file paths and the subdirectory
/// paths, each in listing order. Entries of any other kind appear in neither
/// list and in no count.
pub fn classify_entries(entries: &Vec<FsEntry>) -> (r: (Vec<String>, Vec<String>))
    ensures
        r.0.deep_view() == file_paths_of(entries@),
        r.1.deep_view() == dir_paths_of(entries@),
{
    let mut files: Vec<String> = Vec::new();
    let mut dirs: Vec<String> = Vec::new();
    let mut i: usize = 0;
    while i < entries.len()
        invariant
            i <= entries@.len(),
            files.deep_view() == file_paths_of(entries@.take(i as int)),
            dirs.deep_view() == dir_paths_of(entries@.take(i as int)),
        decreases entries@.len() - i,
    {
        proof {
            assert(entries@.take(i + 1).drop_last() =~= entries@.take(i as int));
            assert(entries@.take(i + 1).last() == entries@[i as int]);
        }
        match entries[i].kind {
            EntryKind::File => {
                files.push(entries[i].path.clone());
                proof {
                    assert(files.deep_view() =~= file_paths_of(entries@.take(i + 1)));
                    assert(dirs.deep_view() =~= dir_paths_of(entries@.take(i + 1)));
                }
            },
            EntryKind::Directory => {
                dirs.push(entries[i].path.clone());
                proof {
                    assert(files.deep_view() =~= file_paths_of(entries@.take(i + 1)));
                    assert(dirs.deep_view() =~= dir_paths_of(entries@.take(i + 1)));
                }
            },
            EntryKind::Other => {
                proof {
                    assert(files.deep_view() =~= file_paths_of(entries@.take(i + 1)));
                    assert(dirs.deep_view() =~= dir_paths_of(entries@.take(i + 1)));
                }
            },
        }
        i = i + 1;
    }
    proof {
        assert(entries@.take(entries@.len() as int) =~= entries@);
    }
    (files, dirs)
}

/// The records of a directory whose files got the given extraction outcomes:
/// for each file whose outcome is a record, that record with the file's path
/// attached, in file order.
pub open spec fn assembled_records(paths: Seq<Seq<char>>, outs: Seq<Option<DicomEntryView>>) -> Seq<
    DicomEntryView,
>
    decreases outs.len(),
{
    if outs.len() == 0 {
        Seq::empty()
    } else {
        let rest = assembled_records(paths.drop_last(), outs.drop_last());
        match outs.last() {
            Some(e) => rest.push(
                DicomEntryView {
                    filepath: Some(paths.last()),
                    patient_name: e.patient_name,
                    patient_id: e.patient_id,
                },
            ),
            None => rest,
        }
    }
}

/// Build one directory's `ScanResult` from its file paths and the extractor's
/// outcome for each file: every file is counted, every record gets its file's
/// path attached, and the matched count is the number of records.
pub fn assemble_result(files: &Vec<String>, outcomes: &Vec<Option<DicomEntry>>) -> (r: ScanResult)
    requires
        files@.len() == outcomes@.len(),
    ensures
        r.wf(),
        r@.total_file_count == files@.len(),
        r@.dicom_entries == assembled_records(files.deep_view(), outcomes.deep_view()),
{
    let mut entries: Vec<DicomEntry> = Vec::new();
    let mut matched: usize = 0;
    let mut i: usize = 0;
    while i < files.len()
        invariant
            i <= files@.len(),
            files@.len() == outcomes@.len(),
            matched == entries@.len(),
            matched <= i,
            entries.deep_view() == assembled_records(
                files.deep_view().take(i as int),
                outcomes.deep_view().take(i as int),
            ),
        decreases files@.len() - i,
    {
        proof {
            assert(files.deep_view().take(i + 1).drop_last() =~= files.deep_view().take(i as int));
            assert(outcomes.deep_view().take(i + 1).drop_last() =~= outcomes.deep_view().take(
                i as int,
            ));
            assert(outcomes.deep_view().take(i + 1).last() == outcomes@[i as int].deep_view());
            assert(files.deep_view().take(i + 1).last() == files@[i as int]@);
        }
        match &outcomes[i] {
            Some(e) => {
                let mut d = e.clone();
                d.filepath = Some(files[i].clone());
                entries.push(d);
                matched = matched + 1;
                proof {
                    assert(entries.deep_view() =~= assembled_records(
                        files.deep_view().take(i + 1),
                        outcomes.deep_view().take(i + 1),
                    ));
                }
            },
            None => {
                proof {
                    assert(entries.deep_view() =~= assembled_records(
                        files.deep_view().take(i + 1),
                        outcomes.deep_view().take(i + 1),
                    ));
                }
            },
        }
        i = i + 1;
    }
    proof {
        assert(files.deep_view().take(files@.len() as int) =~= files.deep_view());
        assert(outcomes.deep_view().take(outcomes@.len() as int) =~= outcomes.deep_view());
    }
    ScanResult { dicom_entries: entries, dicom_file_count: matched, total_file_count: files.len() }
}

} // verus!
