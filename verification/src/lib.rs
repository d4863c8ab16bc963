//! A secure, synchronous, streaming tar reader, writer, and extractor.
//!
//! This crate reads already-decompressed tar streams and supports all GNU
//! sparse formats commonly found in release archives.
//!
//! - [`Archive`] and [`Entries`] find the entries of an archive, and an
//!   [`Entry`] reads as its logical contents. What a byte stream holds is
//!   defined in [`member`], and every entry is proved to be what comes next in
//!   the stream, see also [`streaming`], [`iteration`], [`records`] and
//!   [`strictness`]. What was written in each format is proved to be read as
//!   such in [`numerals`], [`header_form`], [`pax_form`], [`fields`] and
//!   [`sparse_form`].
//! - [`Builder`] writes an archive. What it writes is proved to be read back,
//!   see [`calls`] and [`roundtrip`].
//! - [`EntryUnpacker`] and [`Unpacking`] extract entries. They decide what is
//!   asked of the file system, and take the answers; what holds whatever the
//!   answers are is proved in [`safety`], [`beneath`], [`contents`] and
//!   [`accounting`]. Where paths lead is proved in [`path_form`], and what an
//!   extraction has done when it ends in [`outcomes`], [`restoring`], [`whole`]
//!   and [`reports`].
//!
//! Paths and link targets are byte strings throughout, as they are in archives.

pub mod accounting;
pub mod archive;
pub mod beneath;
pub mod builder;
pub mod bytes;
pub mod calls;
pub mod contents;
pub mod deferred;
pub mod error;
pub mod extract;
pub mod fields;
pub mod header;
pub mod header_form;
pub mod iteration;
pub mod layout;
pub mod member;
pub mod number;
pub mod numerals;
pub mod outcomes;
pub mod path;
pub mod path_form;
pub mod pax;
pub mod pax_form;
pub mod reader;
pub mod records;
pub mod reports;
pub mod restoring;
pub mod roundtrip;
pub mod safety;
pub mod sparse;
pub mod sparse_form;
pub mod streaming;
pub mod strictness;
pub mod unpack;
pub mod unpacking;
pub mod whole;

pub use archive::{Archive, Entries, Entry};
pub use builder::{Builder, Output};
pub use deferred::{DirectoryTasks, RestoreAsk};
pub use error::{Error, ErrorKind, Fault};
pub use extract::{Answer, Ask, FileId, FileKind, Place, SkipReason, Trouble};
pub use header::{EntryType, Header};
pub use path::Platform;
pub use reader::{Cursor, Input};
pub use sparse::SparseSegment;
pub use unpack::{
    EntryInfo, EntryJob, EntryUnpacker, Piece, Progress, ProgressReporter, SkippedEntry,
    UnpackOptions, UnpackSummary,
};
pub use unpacking::{Request, Unpacking};
