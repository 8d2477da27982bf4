//! Bounded-concurrency directory-tree scanner.
//!
//! The crate verifies the coordination core of a DICOM file scanner: the
//! record and result types with their aggregation, the per-directory scan
//! unit's bookkeeping, the work queue and the scheduler that keeps at most a
//! fixed number of directory scans in flight, and a driver that runs a whole
//! scan over an in-memory directory tree. Filesystem access, the DICOM
//! metadata extractor and result presentation live outside the library and
//! hand it plain values.

pub mod file_scanner;
pub mod model;
pub mod processor;
pub mod scan;
pub mod scheduler;
