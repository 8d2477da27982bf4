//! Records and scan results.
//!
//! A `DicomEntry` is one file whose metadata extraction succeeded; a
//! `ScanResult` is the outcome of scanning one directory, and also the shape
//! of the final aggregate. Merging results is a commutative, associative fold
//! over the counters and the record sequences.

use vstd::prelude::*;
use vstd::seq_lib::lemma_multiset_commutative;

verus! {

/// One file recognized by the metadata extractor: its path (attached once the
/// scan unit knows it) and the optional patient attributes read from the file.
pub struct DicomEntry {
    pub filepath: Option<String>,
    pub patient_name: Option<String>,
    pub patient_id: Option<String>,
}

/// Mathematical image of a `DicomEntry`: each text field as a sequence of
/// characters.
#[verifier::ext_equal]
pub ghost struct DicomEntryView {
    pub filepath: Option<Seq<char>>,
    pub patient_name: Option<Seq<char>>,
    pub patient_id: Option<Seq<char>>,
}

impl View for DicomEntry {
    type V = DicomEntryView;

    open spec fn view(&self) -> DicomEntryView {
        DicomEntryView {
            filepath: self.filepath.deep_view(),
            patient_name: self.patient_name.deep_view(),
            patient_id: self.patient_id.deep_view(),
        }
    }
}

impl DeepView for DicomEntry {
    type V = DicomEntryView;

    open spec fn deep_view(&self) -> DicomEntryView {
        self.view()
    }
}

impl DicomEntry {
    /// A freshly extracted record: the attributes as the extractor reported
    /// them, no file path attached yet.
    pub fn new(patient_name: Option<String>, patient_id: Option<String>) -> (e: DicomEntry)
        ensures
            e@ == (DicomEntryView {
                filepath: None,
                patient_name: patient_name.deep_view(),
                patient_id: patient_id.deep_view(),
            }),
    {
        DicomEntry { filepath: None, patient_name, patient_id }
    }
}

impl Clone for DicomEntry {
    fn clone(&self) -> (r: Self)
        ensures
            r@ == self@,
    {
        DicomEntry {
            filepath: self.filepath.clone(),
            patient_name: self.patient_name.clone(),
            patient_id: self.patient_id.clone(),
        }
    }
}

/// The outcome of scanning one directory, and the shape of the aggregate of a
/// whole scan: the matched records, their count, and the number of entries
/// classified as files.
pub struct ScanResult {
    pub dicom_entries: Vec<DicomEntry>,
    pub dicom_file_count: usize,
    pub total_file_count: usize,
}

/// Mathematical image of a `ScanResult`. The matched-record count is not a
/// field of its own: well-formedness ties it to the sequence length.
#[verifier::ext_equal]
pub ghost struct ScanResultView {
    pub dicom_entries: Seq<DicomEntryView>,
    pub total_file_count: nat,
}

impl View for ScanResult {
    type V = ScanResultView;

    open spec fn view(&self) -> ScanResultView {
        ScanResultView {
            dicom_entries: self.dicom_entries.deep_view(),
            total_file_count: self.total_file_count as nat,
        }
    }
}

/// The result of folding zero partial results.
pub open spec fn empty_result() -> ScanResultView {
    ScanResultView { dicom_entries: Seq::empty(), total_file_count: 0 }
}

/// Merging two results concatenates the records and adds the counters.
pub open spec fn spec_merge(a: ScanResultView, b: ScanResultView) -> ScanResultView {
    ScanResultView {
        dicom_entries: a.dicom_entries + b.dicom_entries,
        total_file_count: a.total_file_count + b.total_file_count,
    }
}

impl ScanResult {
    /// The derived matched-record counter agrees with the record sequence.
    pub open spec fn wf(&self) -> bool {
        self.dicom_file_count == self.dicom_entries@.len()
    }

    /// Absorb one partial result into this one: counters add up, the other
    /// result's records follow this one's.
    pub fn merge(&mut self, other: ScanResult)
        requires
            old(self).wf(),
            other.wf(),
            old(self)@.total_file_count + other@.total_file_count <= usize::MAX,
            old(self)@.dicom_entries.len() + other@.dicom_entries.len() <= usize::MAX,
        ensures
            final(self).wf(),
            final(self)@ == spec_merge(old(self)@, other@),
    {
        let mut o = other;
        self.total_file_count = self.total_file_count + o.total_file_count;
        self.dicom_file_count = self.dicom_file_count + o.dicom_file_count;
        self.dicom_entries.append(&mut o.dicom_entries);
        proof {
            assert(self@.dicom_entries =~= spec_merge(old(self)@, other@).dicom_entries);
            assert(self@ =~= spec_merge(old(self)@, other@));
        }
    }
}

impl Default for ScanResult {
    /// The empty result: no records, nothing counted.
    fn default() -> (r: Self)
        ensures
            r.wf(),
            r@ == empty_result(),
    {
        let r = ScanResult { dicom_entries: Vec::new(), dicom_file_count: 0, total_file_count: 0 };
        proof {
            assert(r@ =~= empty_result());
        }
        r
    }
}

/// Law: the empty result is the identity of the merge.
pub proof fn lemma_merge_identity(a: ScanResultView)
    ensures
        spec_merge(empty_result(), a) == a,
        spec_merge(a, empty_result()) == a,
{
    assert(spec_merge(empty_result(), a).dicom_entries =~= a.dicom_entries);
    assert(spec_merge(a, empty_result()).dicom_entries =~= a.dicom_entries);
    assert(spec_merge(empty_result(), a) =~= a);
    assert(spec_merge(a, empty_result()) =~= a);
}

/// Law: the merge is associative, so folding partial results in groups makes
/// no difference.
pub proof fn lemma_merge_associative(a: ScanResultView, b: ScanResultView, c: ScanResultView)
    ensures
        spec_merge(spec_merge(a, b), c) == spec_merge(a, spec_merge(b, c)),
{
    assert(spec_merge(spec_merge(a, b), c).dicom_entries =~= spec_merge(
        a,
        spec_merge(b, c),
    ).dicom_entries);
    assert(spec_merge(spec_merge(a, b), c) =~= spec_merge(a, spec_merge(b, c)));
}

/// Law: the merge is commutative up to record order — swapping the operands
/// keeps every counter and the multiset of matched records, only the order in
/// which the records are emitted may differ.
pub proof fn lemma_merge_commutative(a: ScanResultView, b: ScanResultView)
    ensures
        spec_merge(a, b).total_file_count == spec_merge(b, a).total_file_count,
        spec_merge(a, b).dicom_entries.len() == spec_merge(b, a).dicom_entries.len(),
        spec_merge(a, b).dicom_entries.to_multiset() == spec_merge(b, a).dicom_entries.to_multiset(),
{
    lemma_multiset_commutative(a.dicom_entries, b.dicom_entries);
    lemma_multiset_commutative(b.dicom_entries, a.dicom_entries);
}

} // verus!
