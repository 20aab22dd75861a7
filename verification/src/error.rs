//! Error taxonomy of the library.

use vstd::prelude::*;

use crate::util::FileType;

verus! {

/// Everything that can go wrong while ingesting overlaps, reading a
/// report back, or paging the on-disk store.
#[derive(Debug, Clone)]
pub enum Error {
    /// The named file cannot be opened for reading.
    CantReadFile { filename: String },
    /// The named file cannot be created or written.
    CantWriteFile { filename: String },
    /// No known extension occurs in the file name.
    UnableToDetectFileFormat { filename: String },
    /// The operation does not apply to files of this type.
    CantRunOperationOnFile { operation: String, filetype: FileType, filename: String },
    /// A record of the named file could not be read.
    ReadingError { filename: String, format: FileType },
    /// A record could not be read.
    ReadingErrorNoFilename { format: FileType },
    /// A record of the named file could not be written.
    WritingError { filename: String, format: FileType },
    /// A record could not be written.
    WritingErrorNoFilename { format: FileType },
    /// A directory for the on-disk store could not be created.
    PathCreationError { path: String },
    /// A directory of the on-disk store could not be removed.
    PathDestructionError { path: String },
    /// An internal invariant was broken.
    NotReachableCode { name: String },
    /// A field that should hold a number holds something else.
    CantParseNumber { value: String },
    /// A gap entry of a report line has too few fields.
    CorruptYacrdReportInPosition,
    /// A report line is malformed.
    CorruptYacrdReport { name: String, line: usize },
    /// The on-disk store could not be opened.
    OnDiskOpen,
    /// The on-disk store could not be read.
    OnDiskReadDatabase,
    /// A stored interval list could not be decoded.
    OnDiskDeserializeVec,
    /// An interval list could not be written to the on-disk store.
    OnDiskSerializeVec,
    /// A batch of writes to the on-disk store failed.
    OnDiskBatchApplication,
}

} // verus!
