//! What can go wrong, as values that contracts can speak of.

use vstd::prelude::*;

verus! {

/// The class of a fault, after the classes of I/O errors.
#[derive(Clone, Copy, Debug, PartialEq, Eq, Structural)]
pub enum ErrorKind {
    /// The archive is malformed or unsafe.
    InvalidData,
    /// The call does not fit the state or the arguments.
    InvalidInput,
    /// The input ended too early.
    UnexpectedEof,
    /// A name that had to be new is taken.
    AlreadyExists,
}

/// Everything that this library itself reports as an error.
#[derive(Clone, Copy, Debug, PartialEq, Eq, Structural)]
pub enum Fault {
    /// The input ended inside a header, a metadata payload or padding.
    TruncatedArchive,
    /// The input ended inside the data of an entry.
    TruncatedEntryData,
    /// The stored data ran out before the sparse map was served.
    TruncatedSparseData,
    /// The entry no longer is the one that the archive stands at.
    StaleEntry,
    /// Extraction needs an entry of which nothing was consumed.
    EntryConsumed,
    /// More metadata blocks in a row than a 64-bit counter counts.
    EndlessMetadata,
    /// A metadata member declares more than the accepted size.
    MetadataTooLarge,
    /// A second local PAX header came before the entry of the first.
    DuplicateLocalPax,
    /// A type `S` entry without the GNU magic.
    NotGnuSparse,
    /// A type `S` entry with sparse metadata of another format.
    ConflictingSparse,
    /// A sparse map above the accepted number of segments.
    TooManySegments,
    /// Sparse format 1.0 without its logical size.
    RealSizeMissing,
    /// A sparse 1.0 map longer than the entry that holds it.
    SparseMapExceedsEntry,
    /// A sparse version that is none of the known ones.
    UnsupportedSparseVersion,
    /// Sparse metadata without a logical size.
    SparseSizeMissing,
    /// Sparse metadata without a map.
    OrphanedSparse,
    /// A segment count that no machine word holds.
    SegmentCountTooLarge,
    /// A sparse 1.0 map whose padded length overflows.
    SparseMapOverflow,
    /// The entry ended inside its sparse 1.0 map.
    TruncatedSparseMap,
    /// A byte that is no digit, or too many digits, in a sparse 1.0 map.
    InvalidSparseDecimal,
    /// An empty line in a sparse 1.0 map.
    EmptySparseDecimal,
    /// A header mode above 32 bits.
    ModeTooLarge,
    /// A header that does not sum up to its checksum.
    ChecksumMismatch,
    /// A negative base-256 number in an unsigned field.
    NegativeNumber,
    /// A header number above 64 bits.
    NumericOverflow,
    /// A digit 8 or 9 in an octal field.
    InvalidOctal,
    /// A header number above the signed range.
    SignedOverflow,
    /// An empty decimal or one with a byte that is no digit.
    InvalidDecimal,
    /// A decimal above 64 bits.
    DecimalOverflow,
    /// A PAX record whose length cannot be read or ends within itself.
    PaxMalformedLength,
    /// A PAX record length that no machine word holds.
    PaxLengthTooLarge,
    /// A PAX record of no length or beyond the payload.
    PaxExceedsBody,
    /// A PAX record that does not end in a newline.
    PaxNoNewline,
    /// A PAX record without a key.
    PaxNoEquals,
    /// A PAX key that is no text.
    PaxKeyNotUtf8,
    /// A PAX record with an empty key.
    PaxKeyEmpty,
    /// A PAX mode above 32 bits.
    PaxModeTooLarge,
    /// A PAX modification time whose integral part is no 64-bit number.
    PaxMtimeInvalid,
    /// A PAX value that should be text and is not.
    PaxValueNotUtf8,
    /// A sparse 0.1 map with an offset that has no length.
    SparseMapOdd,
    /// Sparse 0.0 records that do not alternate.
    SparsePairsOutOfOrder,
    /// Sparse 0.0 records beyond the declared count.
    SparsePairsExcess,
    /// A segment that ends beyond 64 bits.
    SegmentOverflow,
    /// Segments out of order, overlapping or beyond the logical size.
    SegmentsOverlap,
    /// Segments whose lengths sum up beyond 64 bits.
    PackedSizeOverflow,
    /// Segments that do not account for the stored bytes.
    PackedSizeMismatch,
    /// An entry needs a path.
    EmptyPath,
    /// A link was appended under a header of another type.
    NotALink,
    /// A link needs a target.
    EmptyTarget,
    /// A path that no header field or GNU record holds.
    UnwritablePath,
    /// A link target that no header field or GNU record holds.
    UnwritableTarget,
    /// An earlier write failed part-way.
    PoisonedFinish,
    /// An earlier write failed part-way.
    PoisonedAppend,
    /// The terminating blocks were written already.
    FinishedAppend,
    /// A path or target that a reader would refuse as metadata.
    LongRecordTooLarge,
    /// A modification time before the epoch.
    NegativeMtime,
    /// The mode needs more octal digits than the field has.
    ModeTooWide,
    /// The user id needs more octal digits than the field has.
    UidTooWide,
    /// The group id needs more octal digits than the field has.
    GidTooWide,
    /// The size needs more octal digits than the field has.
    SizeTooWide,
    /// The modification time needs more octal digits than the field has.
    MtimeTooWide,
    /// The checksum needs more octal digits than the field has.
    ChecksumTooWide,
    /// The data ended before the declared size.
    ShortData,
    /// Extraction does not start at a symbolic link.
    DestinationIsSymlink,
    /// Extraction starts at a directory and at nothing else.
    DestinationNotADirectory,
    /// A member path that starts at the root.
    AbsolutePath,
    /// A member path with a parent-directory component.
    PathTraversal,
    /// A path that only a directory can have, on another type.
    DirectorySuffix,
    /// A hard link to a path that only a directory can have.
    HardlinkNeedsDirectory,
    /// A logical size above the signed 64-bit range.
    SparseTooLong,
    /// A directory member where a symbolic link stands.
    DirectoryIsSymlink,
    /// What was created for a directory member is none.
    NotADirectory,
    /// A symbolic link without a target.
    SymlinkLacksTarget,
    /// A hard link without a target.
    HardlinkLacksTarget,
    /// Component stripping removed the whole link target.
    HardlinkTargetStripped,
    /// A parent of the link target is no plain directory.
    UnsafeHardlinkParent,
    /// The link target is no regular file.
    HardlinkNotAFile,
    /// The link and its target are one path.
    HardlinkToItself,
    /// A parent of the output is a symbolic link.
    WriteThroughSymlink,
    /// A parent of the output is something else than a directory.
    ParentNotADirectory,
    /// A file or link member where a directory stands.
    FileOverDirectory,
    /// The answer does not fit what was asked of the file system.
    UnexpectedAnswer,
    /// Every temporary name that was tried is taken.
    NoTemporaryName,
    /// A deferred directory is no longer the one extracted.
    DirectoryChanged,
    /// The smallest 64-bit time cannot be restored.
    MtimeTooSmall,
}

impl Fault {
    /// The class of each fault: ends of input, a name that is taken, misuse of
    /// a call, and bad data for all the rest.
    pub open spec fn class(self) -> ErrorKind {
        match self {
            Fault::TruncatedArchive
            | Fault::TruncatedEntryData
            | Fault::TruncatedSparseData
            | Fault::ShortData => ErrorKind::UnexpectedEof,
            Fault::NoTemporaryName => ErrorKind::AlreadyExists,
            Fault::StaleEntry
            | Fault::EntryConsumed
            | Fault::EmptyPath
            | Fault::NotALink
            | Fault::EmptyTarget
            | Fault::UnwritablePath
            | Fault::UnwritableTarget
            | Fault::PoisonedFinish
            | Fault::PoisonedAppend
            | Fault::FinishedAppend
            | Fault::LongRecordTooLarge
            | Fault::NegativeMtime
            | Fault::ModeTooWide
            | Fault::UidTooWide
            | Fault::GidTooWide
            | Fault::SizeTooWide
            | Fault::MtimeTooWide
            | Fault::ChecksumTooWide
            | Fault::UnexpectedAnswer => ErrorKind::InvalidInput,
            _ => ErrorKind::InvalidData,
        }
    }

    /// The class of this fault.
    pub fn kind(self) -> (kind: ErrorKind)
        ensures
            kind == self.class(),
    {
        match self {
            Fault::TruncatedArchive
            | Fault::TruncatedEntryData
            | Fault::TruncatedSparseData
            | Fault::ShortData => ErrorKind::UnexpectedEof,
            Fault::NoTemporaryName => ErrorKind::AlreadyExists,
            Fault::StaleEntry
            | Fault::EntryConsumed
            | Fault::EmptyPath
            | Fault::NotALink
            | Fault::EmptyTarget
            | Fault::UnwritablePath
            | Fault::UnwritableTarget
            | Fault::PoisonedFinish
            | Fault::PoisonedAppend
            | Fault::FinishedAppend
            | Fault::LongRecordTooLarge
            | Fault::NegativeMtime
            | Fault::ModeTooWide
            | Fault::UidTooWide
            | Fault::GidTooWide
            | Fault::SizeTooWide
            | Fault::MtimeTooWide
            | Fault::ChecksumTooWide
            | Fault::UnexpectedAnswer => ErrorKind::InvalidInput,
            _ => ErrorKind::InvalidData,
        }
    }

    /// The wording of each fault.
    pub open spec fn wording(self) -> Seq<char> {
        match self {
            Fault::TruncatedArchive => "truncated tar archive"@,
            Fault::TruncatedEntryData => "truncated entry data"@,
            Fault::TruncatedSparseData => "truncated sparse data"@,
            Fault::StaleEntry => "entry is stale because iteration advanced"@,
            Fault::EntryConsumed => "entry was already read or extraction was started"@,
            Fault::EndlessMetadata => "tar metadata does not end"@,
            Fault::MetadataTooLarge => "tar metadata exceeds 1 MiB limit"@,
            Fault::DuplicateLocalPax => "two local PAX headers describe one entry"@,
            Fault::NotGnuSparse => "old GNU sparse entry lacks a GNU header"@,
            Fault::ConflictingSparse => "old GNU sparse entry has PAX sparse metadata"@,
            Fault::TooManySegments => "sparse map has too many segments"@,
            Fault::RealSizeMissing => "PAX sparse 1.0 lacks GNU.sparse.realsize"@,
            Fault::SparseMapExceedsEntry => "sparse map exceeds entry size"@,
            Fault::UnsupportedSparseVersion => "unsupported or contradictory GNU sparse PAX version"@,
            Fault::SparseSizeMissing => "GNU sparse PAX metadata lacks logical size"@,
            Fault::OrphanedSparse => "orphaned GNU sparse PAX metadata"@,
            Fault::SegmentCountTooLarge => "sparse segment count is too large"@,
            Fault::SparseMapOverflow => "sparse map overflow"@,
            Fault::TruncatedSparseMap => "truncated GNU sparse 1.0 map"@,
            Fault::InvalidSparseDecimal => "invalid decimal in GNU sparse 1.0 map"@,
            Fault::EmptySparseDecimal => "empty decimal in GNU sparse 1.0 map"@,
            Fault::ModeTooLarge => "mode is too large"@,
            Fault::ChecksumMismatch => "tar header checksum mismatch"@,
            Fault::NegativeNumber => "negative binary number where unsigned expected"@,
            Fault::NumericOverflow => "numeric field overflow"@,
            Fault::InvalidOctal => "invalid octal numeric field"@,
            Fault::SignedOverflow => "signed numeric field overflow"@,
            Fault::InvalidDecimal => "invalid decimal number"@,
            Fault::DecimalOverflow => "decimal number overflow"@,
            Fault::PaxMalformedLength => "malformed PAX record length"@,
            Fault::PaxLengthTooLarge => "PAX record length is too large"@,
            Fault::PaxExceedsBody => "PAX record exceeds extension body"@,
            Fault::PaxNoNewline => "PAX record lacks newline"@,
            Fault::PaxNoEquals => "PAX record lacks equals sign"@,
            Fault::PaxKeyNotUtf8 => "PAX key is not UTF-8"@,
            Fault::PaxKeyEmpty => "PAX key is empty"@,
            Fault::PaxModeTooLarge => "PAX mode is too large"@,
            Fault::PaxMtimeInvalid => "invalid PAX mtime"@,
            Fault::PaxValueNotUtf8 => "PAX numeric value is not UTF-8"@,
            Fault::SparseMapOdd => "GNU.sparse.map has an odd value count"@,
            Fault::SparsePairsOutOfOrder => "sparse offset/length records are missing or out of order"@,
            Fault::SparsePairsExcess => "sparse map has too many pairs"@,
            Fault::SegmentOverflow => "sparse segment overflows"@,
            Fault::SegmentsOverlap => "sparse segments overlap or exceed logical size"@,
            Fault::PackedSizeOverflow => "sparse packed size overflows"@,
            Fault::PackedSizeMismatch => "sparse map does not match packed entry size"@,
            Fault::EmptyPath => "tar entry path is empty"@,
            Fault::NotALink => "append_link requires a symlink or hardlink header"@,
            Fault::EmptyTarget => "tar link target is empty"@,
            Fault::UnwritablePath => "tar entry path cannot be represented"@,
            Fault::UnwritableTarget => "tar link target cannot be represented"@,
            Fault::PoisonedFinish => "cannot finish a poisoned tar archive"@,
            Fault::PoisonedAppend => "cannot append to a poisoned tar archive"@,
            Fault::FinishedAppend => "cannot append to a finished tar archive"@,
            Fault::LongRecordTooLarge => "GNU long-name record is too large"@,
            Fault::NegativeMtime => "negative mtimes require a PAX header"@,
            Fault::ModeTooWide => "tar mode does not fit in its header field"@,
            Fault::UidTooWide => "tar uid does not fit in its header field"@,
            Fault::GidTooWide => "tar gid does not fit in its header field"@,
            Fault::SizeTooWide => "tar size does not fit in its header field"@,
            Fault::MtimeTooWide => "tar mtime does not fit in its header field"@,
            Fault::ChecksumTooWide => "tar checksum does not fit in its header field"@,
            Fault::ShortData => "tar entry data is shorter than its header size"@,
            Fault::DestinationIsSymlink => "destination may not be a symlink"@,
            Fault::DestinationNotADirectory => "destination is not a directory"@,
            Fault::AbsolutePath => "absolute archive path rejected"@,
            Fault::PathTraversal => "archive path traversal rejected"@,
            Fault::DirectorySuffix => "only a directory may have a directory-required path suffix"@,
            Fault::HardlinkNeedsDirectory => "hardlink target requires a directory"@,
            Fault::SparseTooLong => "sparse output length exceeds the filesystem offset range"@,
            Fault::DirectoryIsSymlink => "archive directory collides with symlink"@,
            Fault::NotADirectory => "archive directory is not a directory"@,
            Fault::SymlinkLacksTarget => "symlink lacks target"@,
            Fault::HardlinkLacksTarget => "hardlink lacks target"@,
            Fault::HardlinkTargetStripped => "hardlink target was stripped away"@,
            Fault::UnsafeHardlinkParent => "hardlink target parent is not a safe directory"@,
            Fault::HardlinkNotAFile => "hardlink target must be an existing regular file"@,
            Fault::HardlinkToItself => "hardlink target resolves to its output path"@,
            Fault::WriteThroughSymlink => "archive attempted to write through a symlink"@,
            Fault::ParentNotADirectory => "archive parent is not a directory"@,
            Fault::FileOverDirectory => "archive file collides with existing directory"@,
            Fault::UnexpectedAnswer => "an operation was answered in a way that it cannot go"@,
            Fault::NoTemporaryName => "unable to reserve a temporary link name"@,
            Fault::DirectoryChanged => "archive directory changed before metadata restoration"@,
            Fault::MtimeTooSmall => "tar mtime is too small to restore safely"@,
        }
    }

    /// What to tell the user about this fault.
    pub fn message(self) -> (text: &'static str)
        ensures
            text@ == self.wording(),
    {
        match self {
            Fault::TruncatedArchive => "truncated tar archive",
            Fault::TruncatedEntryData => "truncated entry data",
            Fault::TruncatedSparseData => "truncated sparse data",
            Fault::StaleEntry => "entry is stale because iteration advanced",
            Fault::EntryConsumed => "entry was already read or extraction was started",
            Fault::EndlessMetadata => "tar metadata does not end",
            Fault::MetadataTooLarge => "tar metadata exceeds 1 MiB limit",
            Fault::DuplicateLocalPax => "two local PAX headers describe one entry",
            Fault::NotGnuSparse => "old GNU sparse entry lacks a GNU header",
            Fault::ConflictingSparse => "old GNU sparse entry has PAX sparse metadata",
            Fault::TooManySegments => "sparse map has too many segments",
            Fault::RealSizeMissing => "PAX sparse 1.0 lacks GNU.sparse.realsize",
            Fault::SparseMapExceedsEntry => "sparse map exceeds entry size",
            Fault::UnsupportedSparseVersion => "unsupported or contradictory GNU sparse PAX version",
            Fault::SparseSizeMissing => "GNU sparse PAX metadata lacks logical size",
            Fault::OrphanedSparse => "orphaned GNU sparse PAX metadata",
            Fault::SegmentCountTooLarge => "sparse segment count is too large",
            Fault::SparseMapOverflow => "sparse map overflow",
            Fault::TruncatedSparseMap => "truncated GNU sparse 1.0 map",
            Fault::InvalidSparseDecimal => "invalid decimal in GNU sparse 1.0 map",
            Fault::EmptySparseDecimal => "empty decimal in GNU sparse 1.0 map",
            Fault::ModeTooLarge => "mode is too large",
            Fault::ChecksumMismatch => "tar header checksum mismatch",
            Fault::NegativeNumber => "negative binary number where unsigned expected",
            Fault::NumericOverflow => "numeric field overflow",
            Fault::InvalidOctal => "invalid octal numeric field",
            Fault::SignedOverflow => "signed numeric field overflow",
            Fault::InvalidDecimal => "invalid decimal number",
            Fault::DecimalOverflow => "decimal number overflow",
            Fault::PaxMalformedLength => "malformed PAX record length",
            Fault::PaxLengthTooLarge => "PAX record length is too large",
            Fault::PaxExceedsBody => "PAX record exceeds extension body",
            Fault::PaxNoNewline => "PAX record lacks newline",
            Fault::PaxNoEquals => "PAX record lacks equals sign",
            Fault::PaxKeyNotUtf8 => "PAX key is not UTF-8",
            Fault::PaxKeyEmpty => "PAX key is empty",
            Fault::PaxModeTooLarge => "PAX mode is too large",
            Fault::PaxMtimeInvalid => "invalid PAX mtime",
            Fault::PaxValueNotUtf8 => "PAX numeric value is not UTF-8",
            Fault::SparseMapOdd => "GNU.sparse.map has an odd value count",
            Fault::SparsePairsOutOfOrder => "sparse offset/length records are missing or out of order",
            Fault::SparsePairsExcess => "sparse map has too many pairs",
            Fault::SegmentOverflow => "sparse segment overflows",
            Fault::SegmentsOverlap => "sparse segments overlap or exceed logical size",
            Fault::PackedSizeOverflow => "sparse packed size overflows",
            Fault::PackedSizeMismatch => "sparse map does not match packed entry size",
            Fault::EmptyPath => "tar entry path is empty",
            Fault::NotALink => "append_link requires a symlink or hardlink header",
            Fault::EmptyTarget => "tar link target is empty",
            Fault::UnwritablePath => "tar entry path cannot be represented",
            Fault::UnwritableTarget => "tar link target cannot be represented",
            Fault::PoisonedFinish => "cannot finish a poisoned tar archive",
            Fault::PoisonedAppend => "cannot append to a poisoned tar archive",
            Fault::FinishedAppend => "cannot append to a finished tar archive",
            Fault::LongRecordTooLarge => "GNU long-name record is too large",
            Fault::NegativeMtime => "negative mtimes require a PAX header",
            Fault::ModeTooWide => "tar mode does not fit in its header field",
            Fault::UidTooWide => "tar uid does not fit in its header field",
            Fault::GidTooWide => "tar gid does not fit in its header field",
            Fault::SizeTooWide => "tar size does not fit in its header field",
            Fault::MtimeTooWide => "tar mtime does not fit in its header field",
            Fault::ChecksumTooWide => "tar checksum does not fit in its header field",
            Fault::ShortData => "tar entry data is shorter than its header size",
            Fault::DestinationIsSymlink => "destination may not be a symlink",
            Fault::DestinationNotADirectory => "destination is not a directory",
            Fault::AbsolutePath => "absolute archive path rejected",
            Fault::PathTraversal => "archive path traversal rejected",
            Fault::DirectorySuffix => "only a directory may have a directory-required path suffix",
            Fault::HardlinkNeedsDirectory => "hardlink target requires a directory",
            Fault::SparseTooLong => "sparse output length exceeds the filesystem offset range",
            Fault::DirectoryIsSymlink => "archive directory collides with symlink",
            Fault::NotADirectory => "archive directory is not a directory",
            Fault::SymlinkLacksTarget => "symlink lacks target",
            Fault::HardlinkLacksTarget => "hardlink lacks target",
            Fault::HardlinkTargetStripped => "hardlink target was stripped away",
            Fault::UnsafeHardlinkParent => "hardlink target parent is not a safe directory",
            Fault::HardlinkNotAFile => "hardlink target must be an existing regular file",
            Fault::HardlinkToItself => "hardlink target resolves to its output path",
            Fault::WriteThroughSymlink => "archive attempted to write through a symlink",
            Fault::ParentNotADirectory => "archive parent is not a directory",
            Fault::FileOverDirectory => "archive file collides with existing directory",
            Fault::UnexpectedAnswer => "an operation was answered in a way that it cannot go",
            Fault::NoTemporaryName => "unable to reserve a temporary link name",
            Fault::DirectoryChanged => "archive directory changed before metadata restoration",
            Fault::MtimeTooSmall => "tar mtime is too small to restore safely",
        }
    }
}

/// Declares the error of the standard I/O traits, which inputs and outputs
/// report and which is handed on as it came.
#[verifier::external_type_specification]
#[verifier::external_body]
pub struct ExIoError(std::io::Error);

/// An error of a function that also reads from an input or writes to an output.
#[derive(Debug)]
pub enum Error {
    /// A fault that this library found.
    Tar(Fault),
    /// An error of the input or the output.
    Io(std::io::Error),
}

impl Error {
    /// The fault, unless the error came from the input or the output.
    pub fn fault(&self) -> (fault: Option<Fault>)
        ensures
            fault == (match *self {
                Error::Tar(found) => Some(found),
                Error::Io(_) => None,
            }),
    {
        match self {
            Error::Tar(found) => Some(*found),
            Error::Io(_) => None,
        }
    }
}

} // verus!
