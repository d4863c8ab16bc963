//! How one entry is extracted: what is asked of the file system, and what each
//! answer leads to.

use vstd::prelude::*;

use crate::error::Fault;
use crate::header::EntryType;
use crate::path::Platform;

verus! {

/// Why an entry was skipped during extraction.
#[derive(Clone, Copy, Debug, PartialEq, Eq, Structural)]
#[non_exhaustive]
pub enum SkipReason {
    /// Component stripping removed the entire path.
    Stripped,
    /// The path is reserved by the target platform.
    ReservedName,
    /// The entry type is not extracted by this crate.
    UnsupportedType,
    /// An existing path was retained because overwrite is disabled.
    Exists,
    /// Symlink creation is unavailable or was denied.
    SymlinkUnavailable,
}

/// What stands at a place in the file system.
#[derive(Clone, Copy, Debug, PartialEq, Eq, Structural)]
pub enum FileKind {
    /// A regular file.
    File,
    /// A directory.
    Directory,
    /// A symbolic link.
    Symlink,
    /// Anything else.
    Other,
}

/// A place beneath the destination that extraction deals with.
#[derive(Clone, Copy, Debug, PartialEq, Eq, Structural)]
pub enum Place {
    /// Where the entry is extracted to.
    Output,
    /// The directory of this number on the way to the output, from the top.
    Parent(usize),
    /// The file that a hard link is made to.
    Source,
    /// The directory of this number on the way to that file, from the top.
    SourceParent(usize),
    /// A new name beside the output, another one for each number.
    Temporary(u8),
}

/// What extraction asks to be done.
#[derive(Clone, Copy, Debug, PartialEq, Eq, Structural)]
pub enum Ask {
    /// Tell the caller of the entry.
    Announce,
    /// Tell the caller how far the input was read.
    Report,
    /// Look what stands at a place, without following a symbolic link there.
    Stat(Place),
    /// Look whether anything stands at the output, following a symbolic link.
    Exists,
    /// Look whether output and source are one file under one path.
    SamePath,
    /// Make a directory at a place whose parent is there.
    CreateDir(Place),
    /// Make a directory at the output, if none is there.
    CreateDirAll,
    /// Remove what stands at the output.
    RemoveFile,
    /// Make a new file at the output and keep it open.
    CreateNew,
    /// Give the open file this length.
    SetLen(u64),
    /// Write the contents to the open file.
    Fill,
    /// Give the open file these permission bits.
    SetMode(u32),
    /// Give the open file this modification time.
    SetMtime(i64),
    /// Make the link of the entry at a place.
    Link(Place),
    /// Move a temporary name to the output.
    Rename(u8),
    /// Remove a temporary name, if it is there.
    DropTemporary(u8),
}

/// The trouble that an operation had.
#[derive(Clone, Copy, Debug, PartialEq, Eq, Structural)]
pub enum Trouble {
    /// Something stands there already.
    AlreadyExists,
    /// The operation is denied or not supported.
    Unavailable,
    /// Something else.
    Other,
}

/// How an operation went.
#[derive(Clone, Copy, Debug, PartialEq, Eq, Structural)]
pub enum Reply {
    /// It was done.
    Done,
    /// Something of this kind stands there.
    Found(FileKind),
    /// Nothing stands there.
    Missing,
    /// The question has this answer.
    Says(bool),
    /// It failed.
    Failed(Trouble),
}

/// What tells a directory from every other one.
#[derive(Clone, Copy, Debug, PartialEq, Eq, Structural)]
pub struct FileId {
    /// The device that it is on.
    pub device: u64,
    /// Its number on the device.
    pub inode: u64,
}

/// The answer to what was asked.
#[derive(Debug)]
pub enum Answer {
    /// It was done.
    Done,
    /// Something of this kind stands there, with what tells it from others.
    Found(FileKind, FileId),
    /// Nothing stands there, and looking for it gave this error.
    Missing(std::io::Error),
    /// The question has this answer.
    Says(bool),
    /// It failed with this error.
    Failed(Trouble, std::io::Error),
}

/// An answer without what only goes into a result.
pub open spec fn reply_of(answer: Answer) -> Reply {
    match answer {
        Answer::Done => Reply::Done,
        Answer::Found(kind, _) => Reply::Found(kind),
        Answer::Missing(_) => Reply::Missing,
        Answer::Says(yes) => Reply::Says(yes),
        Answer::Failed(trouble, _) => Reply::Failed(trouble),
    }
}

/// The error in an answer, if there is one.
pub open spec fn error_in(answer: Answer) -> Option<std::io::Error> {
    match answer {
        Answer::Missing(error) | Answer::Failed(_, error) => Some(error),
        _ => None,
    }
}

impl Answer {
    /// The error in this answer, if there is one.
    pub(crate) fn into_error(self) -> (error: Option<std::io::Error>)
        ensures
            error == error_in(self),
    {
        match self {
            Answer::Missing(error) | Answer::Failed(_, error) => Some(error),
            _ => None,
        }
    }
}

/// What the path of an entry allows.
#[derive(Clone, Copy, Debug, PartialEq, Eq, Structural)]
pub enum PathFact {
    /// The path is refused.
    Refused(Fault),
    /// Nothing is left of the path.
    Stripped,
    /// The path is reserved by the platform.
    Reserved,
    /// The path leads beneath the destination, past so many directories.
    Beneath(usize),
}

/// What is known of an entry and of the options before extraction.
#[derive(Clone, Copy, Debug, PartialEq, Eq, Structural)]
pub struct Facts {
    /// The kind of the entry.
    pub kind: EntryType,
    /// Whether the entry is sparse.
    pub sparse: bool,
    /// The size of its contents.
    pub size: u64,
    /// Its permission bits.
    pub mode: u32,
    /// Its modification time.
    pub mtime: i64,
    /// What its path allows.
    pub path: PathFact,
    /// Whether it has a link target.
    pub has_target: bool,
    /// What the link target allows as the path of an existing file.
    pub source: PathFact,
    /// Whether existing things are replaced.
    pub overwrite: bool,
    /// Whether modification times are restored.
    pub preserve_mtime: bool,
    /// Whether permission bits are restored.
    pub preserve_permissions: bool,
    /// The system that is extracted to.
    pub platform: Platform,
}

/// How far the extraction of an entry is. Each stage waits for one answer.
#[derive(Clone, Copy, Debug, PartialEq, Eq, Structural)]
pub enum Stage {
    /// The entry is announced.
    Announcing,
    /// Progress is reported before the entry.
    Reporting,
    /// Whether a link has to give way to what exists.
    OldOutput,
    /// The directory of this number on the way to the output, either for
    /// writing or for a link that gives way.
    Parents(usize, bool),
    /// The directory of this number is made.
    MakingParent(usize, bool),
    /// The directory of this number on the way to a hard link's file.
    SourceParents(usize),
    /// A hard link's file.
    SourceFile,
    /// What a hard link would replace.
    SourceOutput,
    /// Whether a hard link would replace its own file.
    SourceSame,
    /// Whether a file with a bad modification time is skipped anyway.
    MtimeOutput,
    /// Whether a file that is too long is skipped anyway.
    LengthOutput,
    /// Whether anything stands where a directory should be.
    DirectoryExists,
    /// What stands where a directory should be.
    DirectoryOutput,
    /// The directory is made.
    MakingDirectory,
    /// The directory is looked at once more.
    DirectoryMade,
    /// What stands where a file should be.
    FileOutput,
    /// What stood there is removed.
    RemovingFile,
    /// The file is made.
    MakingFile,
    /// The file gets its length.
    SizingFile,
    /// The file gets its contents.
    FillingFile,
    /// The file gets its permission bits.
    FileMode,
    /// The file gets its modification time.
    FileMtime,
    /// What stands where a link should be.
    LinkOutput,
    /// The link is made.
    MakingLink,
    /// The link is made under a temporary name.
    MakingTemporary(u8),
    /// The temporary name is moved to the output.
    MovingTemporary(u8),
    /// What may be left of the temporary name is removed, after it was moved or
    /// could not be moved.
    DroppingTemporary(u8, bool, Trouble),
    /// Progress is reported after the entry.
    LastReport(bool),
}

/// How extraction ended.
#[derive(Clone, Copy, Debug, PartialEq, Eq, Structural)]
pub enum End {
    /// It was refused.
    Refused(Fault),
    /// An operation failed.
    Failed,
    /// The entry was skipped.
    Skipped(SkipReason),
    /// The entry was extracted.
    Extracted,
}

/// What an answer leads to.
#[derive(Clone, Copy, Debug, PartialEq, Eq, Structural)]
pub enum Turn {
    /// Another question.
    Go(Stage),
    /// The end.
    Stop(End),
}

/// What is asked at a stage.
pub open spec fn ask_of(f: Facts, stage: Stage) -> Ask {
    match stage {
        Stage::Announcing => Ask::Announce,
        Stage::Reporting | Stage::LastReport(_) => Ask::Report,
        Stage::OldOutput
        | Stage::SourceOutput
        | Stage::MtimeOutput
        | Stage::LengthOutput
        | Stage::DirectoryOutput
        | Stage::DirectoryMade
        | Stage::FileOutput
        | Stage::LinkOutput => Ask::Stat(Place::Output),
        Stage::Parents(i, _) => Ask::Stat(Place::Parent(i)),
        Stage::MakingParent(i, _) => Ask::CreateDir(Place::Parent(i)),
        Stage::SourceParents(i) => Ask::Stat(Place::SourceParent(i)),
        Stage::SourceFile => Ask::Stat(Place::Source),
        Stage::SourceSame => Ask::SamePath,
        Stage::DirectoryExists => Ask::Exists,
        Stage::MakingDirectory => Ask::CreateDirAll,
        Stage::RemovingFile => Ask::RemoveFile,
        Stage::MakingFile => Ask::CreateNew,
        Stage::SizingFile => Ask::SetLen(f.size),
        Stage::FillingFile => Ask::Fill,
        Stage::FileMode => Ask::SetMode(f.mode & 0o7777),
        Stage::FileMtime => Ask::SetMtime(f.mtime),
        Stage::MakingLink => Ask::Link(Place::Output),
        Stage::MakingTemporary(k) => Ask::Link(Place::Temporary(k)),
        Stage::MovingTemporary(k) => Ask::Rename(k),
        Stage::DroppingTemporary(k, _, _) => Ask::DropTemporary(k),
    }
}

/// Whether an entry is a link.
pub open spec fn links(f: Facts) -> bool {
    f.kind is Symlink || f.kind is Hardlink
}

/// Whether an entry is extracted as a regular file.
pub open spec fn becomes_file(f: Facts) -> bool {
    f.kind is File || f.kind is Other
}

/// How many directories are on the way to the output.
pub open spec fn parent_count(path: PathFact) -> usize {
    match path {
        PathFact::Beneath(count) => count,
        _ => 0,
    }
}

/// What follows once the entry was announced and reported: its path, its name
/// and its kind have to be fit for extraction.
pub open spec fn judge(f: Facts) -> Turn {
    match f.path {
        PathFact::Refused(fault) => Turn::Stop(End::Refused(fault)),
        PathFact::Stripped => Turn::Stop(End::Skipped(SkipReason::Stripped)),
        PathFact::Reserved => Turn::Stop(End::Skipped(SkipReason::ReservedName)),
        PathFact::Beneath(_) => if f.kind is CharDevice || f.kind is BlockDevice || f.kind is Fifo {
            Turn::Stop(End::Skipped(SkipReason::UnsupportedType))
        } else if links(f) && !f.overwrite {
            Turn::Go(Stage::OldOutput)
        } else {
            check_source(f)
        },
    }
}

/// The file of a hard link is checked, if the entry is one.
pub open spec fn check_source(f: Facts) -> Turn {
    if f.kind is Hardlink {
        if !f.has_target {
            Turn::Stop(End::Refused(Fault::HardlinkLacksTarget))
        } else {
            match f.source {
                PathFact::Refused(fault) => Turn::Stop(End::Refused(fault)),
                PathFact::Beneath(count) => check_source_from(count, 0),
                _ => Turn::Stop(End::Refused(Fault::HardlinkTargetStripped)),
            }
        }
    } else {
        check_mtime(f)
    }
}

/// The directories on the way to the file of a hard link are checked, from one
/// on, and then the file.
pub open spec fn check_source_from(count: usize, i: int) -> Turn {
    if i < count {
        Turn::Go(Stage::SourceParents(i as usize))
    } else {
        Turn::Go(Stage::SourceFile)
    }
}

/// A modification time that cannot be restored is refused, unless the file is
/// skipped anyway.
pub open spec fn check_mtime(f: Facts) -> Turn {
    if f.preserve_mtime && f.mtime == i64::MIN && (f.kind is File || f.kind is Directory) {
        if f.kind is File && !f.overwrite {
            Turn::Go(Stage::MtimeOutput)
        } else {
            Turn::Stop(End::Refused(Fault::MtimeTooSmall))
        }
    } else {
        check_length(f)
    }
}

/// A sparse file that is too long is refused, unless it is skipped anyway.
pub open spec fn check_length(f: Facts) -> Turn {
    if f.kind is File && f.sparse && f.size > i64::MAX {
        if f.overwrite {
            Turn::Stop(End::Refused(Fault::SparseTooLong))
        } else {
            Turn::Go(Stage::LengthOutput)
        }
    } else {
        parents_from(f, 0, false)
    }
}

/// The directories on the way to the output are checked or made, from one on.
pub open spec fn parents_from(f: Facts, i: int, gives_way: bool) -> Turn {
    if i < parent_count(f.path) {
        Turn::Go(Stage::Parents(i as usize, gives_way))
    } else if gives_way {
        Turn::Stop(End::Skipped(SkipReason::Exists))
    } else {
        act(f)
    }
}

/// The entry is extracted, after its kind.
pub open spec fn act(f: Facts) -> Turn {
    match f.kind {
        EntryType::Directory => Turn::Go(Stage::DirectoryExists),
        EntryType::File | EntryType::Other(_) => Turn::Go(Stage::FileOutput),
        EntryType::Symlink => if f.has_target {
            Turn::Go(Stage::LinkOutput)
        } else {
            Turn::Stop(End::Refused(Fault::SymlinkLacksTarget))
        },
        EntryType::Hardlink => Turn::Go(Stage::LinkOutput),
        _ => Turn::Stop(End::Skipped(SkipReason::UnsupportedType)),
    }
}

/// A file that was made gets its length if it is sparse, and its contents.
pub open spec fn fill(f: Facts) -> Turn {
    if f.sparse {
        Turn::Go(Stage::SizingFile)
    } else {
        Turn::Go(Stage::FillingFile)
    }
}

/// A file that was filled gets its permission bits, where there are such.
pub open spec fn dress(f: Facts) -> Turn {
    if f.preserve_permissions && f.platform is Unix {
        Turn::Go(Stage::FileMode)
    } else {
        date(f)
    }
}

/// A file gets its modification time.
pub open spec fn date(f: Facts) -> Turn {
    if f.preserve_mtime {
        Turn::Go(Stage::FileMtime)
    } else {
        Turn::Go(Stage::LastReport(true))
    }
}

/// A link could not be made. Where links are a privilege the entry is skipped.
pub open spec fn link_failed(f: Facts, trouble: Trouble) -> Turn {
    if f.kind is Symlink && f.platform is Windows && trouble is Unavailable {
        Turn::Go(Stage::LastReport(false))
    } else {
        Turn::Stop(End::Failed)
    }
}

/// The next temporary name is tried, up to one hundred and twenty-eight.
pub open spec fn try_temporary(k: int) -> Turn {
    if k < 128 {
        Turn::Go(Stage::MakingTemporary(k as u8))
    } else {
        Turn::Stop(End::Refused(Fault::NoTemporaryName))
    }
}

/// Goes on if the operation was done.
pub open spec fn if_done(reply: Reply, next: Turn) -> Turn {
    if reply is Done {
        next
    } else {
        Turn::Stop(End::Failed)
    }
}

/// What the answer at a stage leads to.
pub open spec fn advance(f: Facts, stage: Stage, reply: Reply) -> Turn {
    match stage {
        Stage::Announcing => Turn::Go(Stage::Reporting),
        Stage::Reporting => judge(f),
        Stage::OldOutput => match reply {
            Reply::Found(_) => parents_from(f, 0, true),
            Reply::Missing => check_source(f),
            _ => Turn::Stop(End::Failed),
        },
        Stage::Parents(i, gives_way) => match reply {
            Reply::Found(FileKind::Symlink) => Turn::Stop(
                End::Refused(Fault::WriteThroughSymlink),
            ),
            Reply::Found(FileKind::Directory) => parents_from(f, i + 1, gives_way),
            Reply::Found(_) => Turn::Stop(End::Refused(Fault::ParentNotADirectory)),
            Reply::Missing => Turn::Go(Stage::MakingParent(i, gives_way)),
            _ => Turn::Stop(End::Failed),
        },
        Stage::MakingParent(i, gives_way) => if_done(reply, parents_from(f, i + 1, gives_way)),
        Stage::SourceParents(i) => match reply {
            Reply::Found(FileKind::Directory) => check_source_from(parent_count(f.source), i + 1),
            Reply::Found(_) => Turn::Stop(End::Refused(Fault::UnsafeHardlinkParent)),
            _ => Turn::Stop(End::Failed),
        },
        Stage::SourceFile => match reply {
            Reply::Found(FileKind::File) => Turn::Go(Stage::SourceOutput),
            Reply::Found(_) => Turn::Stop(End::Refused(Fault::HardlinkNotAFile)),
            _ => Turn::Stop(End::Failed),
        },
        Stage::SourceOutput => match reply {
            Reply::Found(FileKind::Symlink) | Reply::Missing => check_mtime(f),
            Reply::Found(_) => Turn::Go(Stage::SourceSame),
            _ => Turn::Stop(End::Failed),
        },
        Stage::SourceSame => match reply {
            Reply::Says(false) => check_mtime(f),
            Reply::Says(true) => Turn::Stop(End::Refused(Fault::HardlinkToItself)),
            _ => Turn::Stop(End::Failed),
        },
        Stage::MtimeOutput => match reply {
            Reply::Found(_) => check_length(f),
            _ => Turn::Stop(End::Refused(Fault::MtimeTooSmall)),
        },
        Stage::LengthOutput => match reply {
            Reply::Found(_) => parents_from(f, 0, false),
            _ => Turn::Stop(End::Refused(Fault::SparseTooLong)),
        },
        Stage::DirectoryExists => if reply == Reply::Says(true) {
            Turn::Go(Stage::DirectoryOutput)
        } else {
            Turn::Go(Stage::MakingDirectory)
        },
        Stage::DirectoryOutput => match reply {
            Reply::Found(FileKind::Symlink) => Turn::Stop(End::Refused(Fault::DirectoryIsSymlink)),
            Reply::Found(_) => Turn::Go(Stage::MakingDirectory),
            _ => Turn::Stop(End::Failed),
        },
        Stage::MakingDirectory => if_done(reply, Turn::Go(Stage::DirectoryMade)),
        Stage::DirectoryMade => match reply {
            Reply::Found(FileKind::Directory) => Turn::Go(Stage::LastReport(true)),
            Reply::Found(_) => Turn::Stop(End::Refused(Fault::NotADirectory)),
            _ => Turn::Stop(End::Failed),
        },
        Stage::FileOutput => match reply {
            Reply::Found(found) => if !f.overwrite {
                Turn::Stop(End::Skipped(SkipReason::Exists))
            } else if found is Directory {
                Turn::Stop(End::Refused(Fault::FileOverDirectory))
            } else {
                Turn::Go(Stage::RemovingFile)
            },
            Reply::Missing => Turn::Go(Stage::MakingFile),
            _ => Turn::Stop(End::Failed),
        },
        Stage::RemovingFile => if_done(reply, Turn::Go(Stage::MakingFile)),
        Stage::MakingFile => if_done(reply, fill(f)),
        Stage::SizingFile => if_done(reply, Turn::Go(Stage::FillingFile)),
        Stage::FillingFile => if_done(reply, dress(f)),
        Stage::FileMode => if_done(reply, date(f)),
        Stage::FileMtime => if_done(reply, Turn::Go(Stage::LastReport(true))),
        Stage::LinkOutput => match reply {
            Reply::Found(found) => if !f.overwrite {
                Turn::Stop(End::Skipped(SkipReason::Exists))
            } else if found is Directory {
                Turn::Stop(End::Refused(Fault::FileOverDirectory))
            } else {
                try_temporary(0)
            },
            Reply::Missing => Turn::Go(Stage::MakingLink),
            Reply::Failed(trouble) => link_failed(f, trouble),
            _ => Turn::Stop(End::Failed),
        },
        Stage::MakingLink => match reply {
            Reply::Done => Turn::Go(Stage::LastReport(true)),
            Reply::Failed(trouble) => link_failed(f, trouble),
            _ => Turn::Stop(End::Failed),
        },
        Stage::MakingTemporary(k) => match reply {
            Reply::Done => Turn::Go(Stage::MovingTemporary(k)),
            Reply::Failed(Trouble::AlreadyExists) => try_temporary(k + 1),
            Reply::Failed(trouble) => link_failed(f, trouble),
            _ => Turn::Stop(End::Failed),
        },
        Stage::MovingTemporary(k) => match reply {
            Reply::Done => Turn::Go(Stage::DroppingTemporary(k, true, Trouble::Other)),
            Reply::Failed(trouble) => Turn::Go(Stage::DroppingTemporary(k, false, trouble)),
            _ => Turn::Go(Stage::DroppingTemporary(k, false, Trouble::Other)),
        },
        Stage::DroppingTemporary(_, moved, trouble) => if moved {
            Turn::Go(Stage::LastReport(true))
        } else {
            link_failed(f, trouble)
        },
        Stage::LastReport(extracted) => if extracted {
            Turn::Stop(End::Extracted)
        } else {
            Turn::Stop(End::Skipped(SkipReason::SymlinkUnavailable))
        },
    }
}

/// Whether the numbers in a stage are those of something.
pub open spec fn stage_fits(f: Facts, stage: Stage) -> bool {
    match stage {
        Stage::Parents(i, _) | Stage::MakingParent(i, _) => i < parent_count(f.path),
        Stage::SourceParents(i) => i < parent_count(f.source),
        Stage::MakingTemporary(k)
        | Stage::MovingTemporary(k)
        | Stage::DroppingTemporary(k, _, _) => k < 128,
        _ => true,
    }
}

/// The numbers stay those of something.
pub proof fn lemma_stage_fits(f: Facts, stage: Stage, reply: Reply)
    requires
        stage_fits(f, stage),
    ensures
        advance(f, stage, reply) matches Turn::Go(next) ==> stage_fits(f, next),
{
}

impl Facts {
    /// What is asked at a stage.
    pub fn ask_of(self, stage: Stage) -> (asked: Ask)
        ensures
            asked == ask_of(self, stage),
    {
        match stage {
            Stage::Announcing => Ask::Announce,
            Stage::Reporting | Stage::LastReport(_) => Ask::Report,
            Stage::OldOutput
            | Stage::SourceOutput
            | Stage::MtimeOutput
            | Stage::LengthOutput
            | Stage::DirectoryOutput
            | Stage::DirectoryMade
            | Stage::FileOutput
            | Stage::LinkOutput => Ask::Stat(Place::Output),
            Stage::Parents(i, _) => Ask::Stat(Place::Parent(i)),
            Stage::MakingParent(i, _) => Ask::CreateDir(Place::Parent(i)),
            Stage::SourceParents(i) => Ask::Stat(Place::SourceParent(i)),
            Stage::SourceFile => Ask::Stat(Place::Source),
            Stage::SourceSame => Ask::SamePath,
            Stage::DirectoryExists => Ask::Exists,
            Stage::MakingDirectory => Ask::CreateDirAll,
            Stage::RemovingFile => Ask::RemoveFile,
            Stage::MakingFile => Ask::CreateNew,
            Stage::SizingFile => Ask::SetLen(self.size),
            Stage::FillingFile => Ask::Fill,
            Stage::FileMode => Ask::SetMode(self.mode & 0o7777),
            Stage::FileMtime => Ask::SetMtime(self.mtime),
            Stage::MakingLink => Ask::Link(Place::Output),
            Stage::MakingTemporary(k) => Ask::Link(Place::Temporary(k)),
            Stage::MovingTemporary(k) => Ask::Rename(k),
            Stage::DroppingTemporary(k, _, _) => Ask::DropTemporary(k),
        }
    }

    /// Whether the entry is a link.
    fn links(self) -> (yes: bool)
        ensures
            yes == links(self),
    {
        matches!(self.kind, EntryType::Symlink | EntryType::Hardlink)
    }

    /// What follows once the entry was announced and reported.
    fn judge(self) -> (turn: Turn)
        ensures
            turn == judge(self),
    {
        match self.path {
            PathFact::Refused(fault) => Turn::Stop(End::Refused(fault)),
            PathFact::Stripped => Turn::Stop(End::Skipped(SkipReason::Stripped)),
            PathFact::Reserved => Turn::Stop(End::Skipped(SkipReason::ReservedName)),
            PathFact::Beneath(_) => if matches!(
                self.kind,
                EntryType::CharDevice | EntryType::BlockDevice | EntryType::Fifo
            ) {
                Turn::Stop(End::Skipped(SkipReason::UnsupportedType))
            } else if self.links() && !self.overwrite {
                Turn::Go(Stage::OldOutput)
            } else {
                self.check_source()
            },
        }
    }

    /// Checks the file of a hard link, if the entry is one.
    fn check_source(self) -> (turn: Turn)
        ensures
            turn == check_source(self),
    {
        if matches!(self.kind, EntryType::Hardlink) {
            if !self.has_target {
                Turn::Stop(End::Refused(Fault::HardlinkLacksTarget))
            } else {
                match self.source {
                    PathFact::Refused(fault) => Turn::Stop(End::Refused(fault)),
                    PathFact::Beneath(count) => source_from(count, 0),
                    _ => Turn::Stop(End::Refused(Fault::HardlinkTargetStripped)),
                }
            }
        } else {
            self.check_mtime()
        }
    }

    /// Refuses a modification time that cannot be restored.
    fn check_mtime(self) -> (turn: Turn)
        ensures
            turn == check_mtime(self),
    {
        let is_file: bool = matches!(self.kind, EntryType::File);
        if self.preserve_mtime && self.mtime == i64::MIN && (is_file || matches!(
            self.kind,
            EntryType::Directory
        )) {
            if is_file && !self.overwrite {
                Turn::Go(Stage::MtimeOutput)
            } else {
                Turn::Stop(End::Refused(Fault::MtimeTooSmall))
            }
        } else {
            self.check_length()
        }
    }

    /// Refuses a sparse file that is too long.
    fn check_length(self) -> (turn: Turn)
        ensures
            turn == check_length(self),
    {
        if matches!(self.kind, EntryType::File) && self.sparse && self.size
            > 9_223_372_036_854_775_807 {
            if self.overwrite {
                Turn::Stop(End::Refused(Fault::SparseTooLong))
            } else {
                Turn::Go(Stage::LengthOutput)
            }
        } else {
            self.parents_from(0, false)
        }
    }

    /// Checks or makes the directories on the way to the output.
    fn parents_from(self, i: usize, gives_way: bool) -> (turn: Turn)
        ensures
            turn == parents_from(self, i as int, gives_way),
    {
        if i < count_parents(self.path) {
            Turn::Go(Stage::Parents(i, gives_way))
        } else if gives_way {
            Turn::Stop(End::Skipped(SkipReason::Exists))
        } else {
            self.act()
        }
    }

    /// Extracts the entry, after its kind.
    fn act(self) -> (turn: Turn)
        ensures
            turn == act(self),
    {
        match self.kind {
            EntryType::Directory => Turn::Go(Stage::DirectoryExists),
            EntryType::File | EntryType::Other(_) => Turn::Go(Stage::FileOutput),
            EntryType::Symlink => if self.has_target {
                Turn::Go(Stage::LinkOutput)
            } else {
                Turn::Stop(End::Refused(Fault::SymlinkLacksTarget))
            },
            EntryType::Hardlink => Turn::Go(Stage::LinkOutput),
            _ => Turn::Stop(End::Skipped(SkipReason::UnsupportedType)),
        }
    }

    /// Gives a file its length and contents.
    fn fill(self) -> (turn: Turn)
        ensures
            turn == fill(self),
    {
        if self.sparse {
            Turn::Go(Stage::SizingFile)
        } else {
            Turn::Go(Stage::FillingFile)
        }
    }

    /// Gives a file its permission bits.
    fn dress(self) -> (turn: Turn)
        ensures
            turn == dress(self),
    {
        if self.preserve_permissions && matches!(self.platform, Platform::Unix) {
            Turn::Go(Stage::FileMode)
        } else {
            self.date()
        }
    }

    /// Gives a file its modification time.
    fn date(self) -> (turn: Turn)
        ensures
            turn == date(self),
    {
        if self.preserve_mtime {
            Turn::Go(Stage::FileMtime)
        } else {
            Turn::Go(Stage::LastReport(true))
        }
    }

    /// Decides on a link that could not be made.
    fn link_failed(self, trouble: Trouble) -> (turn: Turn)
        ensures
            turn == link_failed(self, trouble),
    {
        if matches!(self.kind, EntryType::Symlink) && matches!(self.platform, Platform::Windows)
            && matches!(trouble, Trouble::Unavailable) {
            Turn::Go(Stage::LastReport(false))
        } else {
            Turn::Stop(End::Failed)
        }
    }

    /// What the answer at a stage leads to.
    pub fn advance(self, stage: Stage, reply: Reply) -> (turn: Turn)
        requires
            stage_fits(self, stage),
        ensures
            turn == advance(self, stage, reply),
    {
        match stage {
            Stage::Announcing => Turn::Go(Stage::Reporting),
            Stage::Reporting => self.judge(),
            Stage::OldOutput => match reply {
                Reply::Found(_) => self.parents_from(0, true),
                Reply::Missing => self.check_source(),
                _ => Turn::Stop(End::Failed),
            },
            Stage::Parents(i, gives_way) => match reply {
                Reply::Found(FileKind::Symlink) => Turn::Stop(
                    End::Refused(Fault::WriteThroughSymlink),
                ),
                Reply::Found(FileKind::Directory) => self.parents_from(i + 1, gives_way),
                Reply::Found(_) => Turn::Stop(End::Refused(Fault::ParentNotADirectory)),
                Reply::Missing => Turn::Go(Stage::MakingParent(i, gives_way)),
                _ => Turn::Stop(End::Failed),
            },
            Stage::MakingParent(i, gives_way) => done_then(
                reply,
                self.parents_from(i + 1, gives_way),
            ),
            Stage::SourceParents(i) => match reply {
                Reply::Found(FileKind::Directory) => source_from(count_parents(self.source), i + 1),
                Reply::Found(_) => Turn::Stop(End::Refused(Fault::UnsafeHardlinkParent)),
                _ => Turn::Stop(End::Failed),
            },
            Stage::SourceFile => match reply {
                Reply::Found(FileKind::File) => Turn::Go(Stage::SourceOutput),
                Reply::Found(_) => Turn::Stop(End::Refused(Fault::HardlinkNotAFile)),
                _ => Turn::Stop(End::Failed),
            },
            Stage::SourceOutput => match reply {
                Reply::Found(FileKind::Symlink) | Reply::Missing => self.check_mtime(),
                Reply::Found(_) => Turn::Go(Stage::SourceSame),
                _ => Turn::Stop(End::Failed),
            },
            Stage::SourceSame => match reply {
                Reply::Says(false) => self.check_mtime(),
                Reply::Says(true) => Turn::Stop(End::Refused(Fault::HardlinkToItself)),
                _ => Turn::Stop(End::Failed),
            },
            Stage::MtimeOutput => match reply {
                Reply::Found(_) => self.check_length(),
                _ => Turn::Stop(End::Refused(Fault::MtimeTooSmall)),
            },
            Stage::LengthOutput => match reply {
                Reply::Found(_) => self.parents_from(0, false),
                _ => Turn::Stop(End::Refused(Fault::SparseTooLong)),
            },
            Stage::DirectoryExists => if matches!(reply, Reply::Says(true)) {
                Turn::Go(Stage::DirectoryOutput)
            } else {
                Turn::Go(Stage::MakingDirectory)
            },
            Stage::DirectoryOutput => match reply {
                Reply::Found(FileKind::Symlink) => Turn::Stop(
                    End::Refused(Fault::DirectoryIsSymlink),
                ),
                Reply::Found(_) => Turn::Go(Stage::MakingDirectory),
                _ => Turn::Stop(End::Failed),
            },
            Stage::MakingDirectory => done_then(reply, Turn::Go(Stage::DirectoryMade)),
            Stage::DirectoryMade => match reply {
                Reply::Found(FileKind::Directory) => Turn::Go(Stage::LastReport(true)),
                Reply::Found(_) => Turn::Stop(End::Refused(Fault::NotADirectory)),
                _ => Turn::Stop(End::Failed),
            },
            Stage::FileOutput => match reply {
                Reply::Found(found) => if !self.overwrite {
                    Turn::Stop(End::Skipped(SkipReason::Exists))
                } else if matches!(found, FileKind::Directory) {
                    Turn::Stop(End::Refused(Fault::FileOverDirectory))
                } else {
                    Turn::Go(Stage::RemovingFile)
                },
                Reply::Missing => Turn::Go(Stage::MakingFile),
                _ => Turn::Stop(End::Failed),
            },
            Stage::RemovingFile => done_then(reply, Turn::Go(Stage::MakingFile)),
            Stage::MakingFile => done_then(reply, self.fill()),
            Stage::SizingFile => done_then(reply, Turn::Go(Stage::FillingFile)),
            Stage::FillingFile => done_then(reply, self.dress()),
            Stage::FileMode => done_then(reply, self.date()),
            Stage::FileMtime => done_then(reply, Turn::Go(Stage::LastReport(true))),
            Stage::LinkOutput => match reply {
                Reply::Found(found) => if !self.overwrite {
                    Turn::Stop(End::Skipped(SkipReason::Exists))
                } else if matches!(found, FileKind::Directory) {
                    Turn::Stop(End::Refused(Fault::FileOverDirectory))
                } else {
                    temporary(0)
                },
                Reply::Missing => Turn::Go(Stage::MakingLink),
                Reply::Failed(trouble) => self.link_failed(trouble),
                _ => Turn::Stop(End::Failed),
            },
            Stage::MakingLink => match reply {
                Reply::Done => Turn::Go(Stage::LastReport(true)),
                Reply::Failed(trouble) => self.link_failed(trouble),
                _ => Turn::Stop(End::Failed),
            },
            Stage::MakingTemporary(k) => match reply {
                Reply::Done => Turn::Go(Stage::MovingTemporary(k)),
                Reply::Failed(Trouble::AlreadyExists) => temporary(k + 1),
                Reply::Failed(trouble) => self.link_failed(trouble),
                _ => Turn::Stop(End::Failed),
            },
            Stage::MovingTemporary(k) => match reply {
                Reply::Done => Turn::Go(Stage::DroppingTemporary(k, true, Trouble::Other)),
                Reply::Failed(trouble) => Turn::Go(Stage::DroppingTemporary(k, false, trouble)),
                _ => Turn::Go(Stage::DroppingTemporary(k, false, Trouble::Other)),
            },
            Stage::DroppingTemporary(_, moved, trouble) => if moved {
                Turn::Go(Stage::LastReport(true))
            } else {
                self.link_failed(trouble)
            },
            Stage::LastReport(extracted) => if extracted {
                Turn::Stop(End::Extracted)
            } else {
                Turn::Stop(End::Skipped(SkipReason::SymlinkUnavailable))
            },
        }
    }
}

/// How many directories are on the way.
fn count_parents(path: PathFact) -> (found: usize)
    ensures
        found == parent_count(path),
{
    match path {
        PathFact::Beneath(count) => count,
        _ => 0,
    }
}

/// Checks the directories on the way to the file of a hard link.
fn source_from(count: usize, i: usize) -> (turn: Turn)
    ensures
        turn == check_source_from(count, i as int),
{
    if i < count {
        Turn::Go(Stage::SourceParents(i))
    } else {
        Turn::Go(Stage::SourceFile)
    }
}

/// Tries the next temporary name.
fn temporary(k: u8) -> (turn: Turn)
    ensures
        turn == try_temporary(k as int),
{
    if k < 128 {
        Turn::Go(Stage::MakingTemporary(k))
    } else {
        Turn::Stop(End::Refused(Fault::NoTemporaryName))
    }
}

/// Goes on if the operation was done.
fn done_then(reply: Reply, next: Turn) -> (turn: Turn)
    ensures
        turn == if_done(reply, next),
{
    if matches!(reply, Reply::Done) {
        next
    } else {
        Turn::Stop(End::Failed)
    }
}

} // verus!
