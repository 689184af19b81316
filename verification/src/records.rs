//! The record types that flow through one directory's run: an image file
//! that decoded and hashed successfully, and its pairing with the
//! fingerprint the extractor computed for it.

use vstd::prelude::*;

verus! {

/// A successfully hashed image file: its path and its size in bytes.
pub struct ImageRecord {
    pub path: Vec<u8>,
    pub file_size: u64,
}

/// The mathematical image record.
pub struct RecordView {
    pub path: Seq<u8>,
    pub file_size: u64,
}

impl View for ImageRecord {
    type V = RecordView;

    open spec fn view(&self) -> RecordView {
        RecordView { path: self.path@, file_size: self.file_size }
    }
}

/// An image record together with its perceptual fingerprint.
pub struct HashedRecord {
    pub fingerprint: u64,
    pub record: ImageRecord,
}

/// The mathematical hashed record.
pub struct HashedRecordView {
    pub fingerprint: u64,
    pub record: RecordView,
}

impl View for HashedRecord {
    type V = HashedRecordView;

    open spec fn view(&self) -> HashedRecordView {
        HashedRecordView { fingerprint: self.fingerprint, record: self.record@ }
    }
}

/// The views of a sequence of hashed records.
pub open spec fn hashed_views(s: Seq<HashedRecord>) -> Seq<HashedRecordView> {
    s.map_values(|h: HashedRecord| h@)
}

/// The views of a sequence of records.
pub open spec fn record_views(s: Seq<ImageRecord>) -> Seq<RecordView> {
    s.map_values(|r: ImageRecord| r@)
}

/// A fresh copy of an image record.
pub fn copy_record(r: &ImageRecord) -> (c: ImageRecord)
    ensures
        c@ == r@,
{
    ImageRecord { path: crate::paths::copy_bytes(&r.path), file_size: r.file_size }
}

} // verus!
