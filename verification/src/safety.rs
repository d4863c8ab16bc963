//! What holds of every extraction of an entry, whatever the file system answers.

use vstd::prelude::*;

use crate::extract::{
    advance, ask_of, becomes_file, parent_count, stage_fits, Ask, End, Facts, FileKind, Place,
    Reply, SkipReason, Stage, Trouble, Turn,
};

verus! {

/// Something that was asked and how it went.
pub struct Event {
    /// What was asked.
    pub ask: Ask,
    /// How it went.
    pub reply: Reply,
}

/// Where extraction stands after these events, in this order, if they can
/// happen in this order at all.
pub open spec fn after(f: Facts, events: Seq<Event>) -> Option<Turn>
    decreases events.len(),
{
    if events.len() == 0 {
        Some(Turn::Go(Stage::Announcing))
    } else {
        match after(f, events.drop_last()) {
            Some(Turn::Go(stage)) => if events.last().ask == ask_of(f, stage) {
                Some(advance(f, stage, events.last().reply))
            } else {
                None
            },
            _ => None,
        }
    }
}

/// Whether an event is among those that happened.
pub open spec fn happened(events: Seq<Event>, ask: Ask, reply: Reply) -> bool {
    exists|k: int|
        0 <= k < events.len() && (#[trigger] events[k]).ask == ask && events[k].reply == reply
}

/// What happened stays among what happened.
pub proof fn lemma_happened(events: Seq<Event>)
    requires
        events.len() > 0,
    ensures
        happened(events, events.last().ask, events.last().reply),
        forall|ask: Ask, reply: Reply|
            happened(events.drop_last(), ask, reply) ==> #[trigger] happened(events, ask, reply),
{
    assert(events[events.len() - 1] == events.last());
    let front = events.drop_last();
    assert forall|ask: Ask, reply: Reply| happened(front, ask, reply) implies #[trigger] happened(
        events,
        ask,
        reply,
    ) by {
        let k = choose|k: int|
            0 <= k < front.len() && (#[trigger] front[k]).ask == ask && front[k].reply == reply;
        assert(events[k] == front[k]);
    }
}

/// Whether the directory of this number on the way to the output was seen, and
/// was no symbolic link, or was made.
pub open spec fn parent_is_safe(events: Seq<Event>, i: usize) -> bool {
    happened(events, Ask::Stat(Place::Parent(i)), Reply::Found(FileKind::Directory)) || happened(
        events,
        Ask::CreateDir(Place::Parent(i)),
        Reply::Done,
    )
}

/// Whether the directory of this number on the way to the file of a hard link
/// was seen, and was no symbolic link.
pub open spec fn source_parent_is_safe(events: Seq<Event>, i: usize) -> bool {
    happened(events, Ask::Stat(Place::SourceParent(i)), Reply::Found(FileKind::Directory))
}

/// How many directories on the way to the output were seen or made at a stage.
pub open spec fn safe_parents(f: Facts, stage: Stage) -> int {
    match stage {
        Stage::Parents(i, _) | Stage::MakingParent(i, _) => i as int,
        Stage::Announcing
        | Stage::Reporting
        | Stage::OldOutput
        | Stage::SourceParents(_)
        | Stage::SourceFile
        | Stage::SourceOutput
        | Stage::SourceSame
        | Stage::MtimeOutput
        | Stage::LengthOutput => 0,
        _ => parent_count(f.path) as int,
    }
}

/// Whether a stage comes after the file of a hard link was checked.
pub open spec fn past_source(stage: Stage) -> bool {
    match stage {
        Stage::Announcing
        | Stage::Reporting
        | Stage::OldOutput
        | Stage::SourceParents(_)
        | Stage::SourceFile
        | Stage::Parents(_, true)
        | Stage::MakingParent(_, true) => false,
        _ => true,
    }
}

/// Whether a stage belongs to the making of a link.
pub open spec fn makes_link(stage: Stage) -> bool {
    match stage {
        Stage::LinkOutput
        | Stage::MakingLink
        | Stage::MakingTemporary(_)
        | Stage::MovingTemporary(_)
        | Stage::DroppingTemporary(_, _, _) => true,
        _ => false,
    }
}

/// Whether a file was made for the contents, at its length where it is sparse.
pub open spec fn file_is_new(f: Facts, events: Seq<Event>) -> bool {
    &&& happened(events, Ask::CreateNew, Reply::Done)
    &&& f.sparse ==> happened(events, Ask::SetLen(f.size), Reply::Done)
}

/// What is known of the file at a stage.
spec fn file_known(f: Facts, events: Seq<Event>, stage: Stage) -> bool {
    match stage {
        Stage::SizingFile => happened(events, Ask::CreateNew, Reply::Done),
        Stage::FillingFile => file_is_new(f, events),
        Stage::FileMode | Stage::FileMtime => happened(events, Ask::Fill, Reply::Done),
        Stage::LastReport(true) => becomes_file(f) ==> happened(events, Ask::Fill, Reply::Done),
        Stage::SourceParents(_)
        | Stage::SourceFile
        | Stage::SourceOutput
        | Stage::SourceSame
        | Stage::DirectoryExists
        | Stage::DirectoryOutput
        | Stage::MakingDirectory
        | Stage::DirectoryMade => !becomes_file(f),
        _ => makes_link(stage) ==> !becomes_file(f),
    }
}

/// What is known at a stage.
spec fn known(f: Facts, events: Seq<Event>, stage: Stage) -> bool {
    &&& stage_fits(f, stage)
    &&& file_known(f, events, stage)
    &&& forall|i: usize| i < safe_parents(f, stage) ==> #[trigger] parent_is_safe(events, i)
    &&& !(stage is Announcing || stage is Reporting) ==> f.path is Beneath && !(f.kind is CharDevice
        || f.kind is BlockDevice || f.kind is Fifo)
    &&& (stage is Announcing || stage is Reporting) ==> forall|k: int|
        0 <= k < events.len() ==> (#[trigger] events[k]).ask is Announce || events[k].ask is Report
    &&& f.kind is Hardlink && (past_source(stage) || stage is SourceFile) ==> f.source is Beneath
        && forall|i: usize|
        i < parent_count(f.source) ==> #[trigger] source_parent_is_safe(events, i)
    &&& f.kind is Hardlink && past_source(stage) ==> happened(
        events,
        Ask::Stat(Place::Source),
        Reply::Found(FileKind::File),
    )
    &&& stage matches Stage::SourceParents(n) ==> f.source is Beneath && forall|i: usize|
        i < n ==> #[trigger] source_parent_is_safe(events, i)
    &&& match stage {
        Stage::OldOutput => !f.overwrite,
        Stage::Parents(_, true) | Stage::MakingParent(_, true) => !f.overwrite && exists|
            kind: FileKind,
        | #[trigger] happened(events, Ask::Stat(Place::Output), Reply::Found(kind)),
        Stage::RemovingFile
        | Stage::MakingTemporary(_)
        | Stage::MovingTemporary(_)
        | Stage::DroppingTemporary(_, true, _) => f.overwrite,
        Stage::DroppingTemporary(k, false, trouble) => f.overwrite && (trouble is Other || happened(
            events,
            Ask::Rename(k),
            Reply::Failed(trouble),
        )),
        Stage::LastReport(false) => f.kind is Symlink && f.platform is Windows && exists|ask: Ask|
            #[trigger] happened(events, ask, Reply::Failed(Trouble::Unavailable)),
        _ => true,
    }
}

/// What is known at a stage holds whenever the stage is reached.
proof fn lemma_known(f: Facts, events: Seq<Event>)
    ensures
        after(f, events) matches Some(Turn::Go(stage)) ==> known(f, events, stage),
    decreases events.len(),
{
    if events.len() > 0 {
        let front = events.drop_last();
        lemma_known(f, front);
        lemma_happened(events);
        if let Some(Turn::Go(stage)) = after(f, front) {
            if let Some(Turn::Go(next)) = after(f, events) {
                lemma_known_step(f, events, stage, next);
            }
        }
    }
}

/// What is known at a stage is known at the next.
proof fn lemma_known_step(f: Facts, events: Seq<Event>, stage: Stage, next: Stage)
    requires
        events.len() > 0,
        known(f, events.drop_last(), stage),
        events.last().ask == ask_of(f, stage),
        advance(f, stage, events.last().reply) == Turn::Go(next),
        happened(events, events.last().ask, events.last().reply),
        forall|ask: Ask, reply: Reply|
            happened(events.drop_last(), ask, reply) ==> #[trigger] happened(events, ask, reply),
    ensures
        known(f, events, next),
{
    let front = events.drop_last();
    assert forall|i: usize| i < safe_parents(f, next) implies #[trigger] parent_is_safe(
        events,
        i,
    ) by {
        if i < safe_parents(f, stage) {
            assert(parent_is_safe(front, i));
        }
    }
    assert forall|i: usize| source_parent_is_safe(front, i) implies
        #[trigger] source_parent_is_safe(events, i) by {}
    let last = events.last();
    match last.reply {
        Reply::Found(kind) => {
            assert(happened(events, last.ask, Reply::Found(kind)));
        },
        Reply::Failed(trouble) => {
            assert(happened(events, last.ask, Reply::Failed(trouble)));
        },
        _ => {},
    }
    match stage {
        Stage::Parents(_, true) | Stage::MakingParent(_, true) => {
            let kind = choose|kind: FileKind| #[trigger]
                happened(front, Ask::Stat(Place::Output), Reply::Found(kind));
            assert(happened(events, Ask::Stat(Place::Output), Reply::Found(kind)));
        },
        Stage::DroppingTemporary(k, false, Trouble::Unavailable) => {
            assert(happened(events, Ask::Rename(k), Reply::Failed(Trouble::Unavailable)));
        },
        _ => {},
    }
    if next is Announcing || next is Reporting {
        assert forall|k: int| 0 <= k < events.len() implies (#[trigger] events[k]).ask is Announce
            || events[k].ask is Report by {
            if k < front.len() {
                assert(events[k] == front[k]);
            }
        }
    }
}

/// The entry is announced before anything else is done for it, and how far the
/// input was read is reported right after.
pub proof fn law_entries_are_announced_first(f: Facts, events: Seq<Event>)
    requires
        after(f, events) is Some,
    ensures
        events.len() > 0 ==> events[0].ask is Announce,
        events.len() > 1 ==> events[1].ask is Report,
        events.len() <= 1 ==> after(f, events) == Some(
            Turn::Go(
                if events.len() == 0 {
                    Stage::Announcing
                } else {
                    Stage::Reporting
                },
            ),
        ),
    decreases events.len(),
{
    if events.len() > 0 {
        let front = events.drop_last();
        law_entries_are_announced_first(f, front);
        if events.len() == 2 {
            assert(front.drop_last() =~= Seq::empty());
        }
        if events.len() > 1 {
            assert(front[0] == events[0]);
        }
        if events.len() > 2 {
            assert(front[1] == events[1]);
        }
    }
}

/// Whether something is changed at the output or beside it.
pub open spec fn changes_output(ask: Ask) -> bool {
    match ask {
        Ask::CreateDirAll
        | Ask::RemoveFile
        | Ask::CreateNew
        | Ask::SetLen(_)
        | Ask::Fill
        | Ask::SetMode(_)
        | Ask::SetMtime(_)
        | Ask::Link(_)
        | Ask::Rename(_)
        | Ask::DropTemporary(_) => true,
        _ => false,
    }
}

/// Nothing is written through a symbolic link: before anything is changed at
/// the output, every directory on the way to it was seen to be a directory, and
/// no symbolic link, or was made; and a directory on the way is made only when
/// this holds of those above it.
pub proof fn law_nothing_is_written_through_symlinks(f: Facts, events: Seq<Event>, stage: Stage)
    requires
        after(f, events) == Some(Turn::Go(stage)),
    ensures
        changes_output(ask_of(f, stage)) ==> forall|i: usize|
            i < parent_count(f.path) ==> #[trigger] parent_is_safe(events, i),
        ask_of(f, stage) matches Ask::CreateDir(place) ==> {
            &&& place matches Place::Parent(n)
            &&& n < parent_count(f.path)
            &&& forall|i: usize| i < n ==> #[trigger] parent_is_safe(events, i)
        },
{
    lemma_known(f, events);
}

/// What stands at the output is removed or replaced only where that is allowed.
pub proof fn law_nothing_is_replaced_unless_allowed(f: Facts, events: Seq<Event>, stage: Stage)
    requires
        after(f, events) == Some(Turn::Go(stage)),
        ask_of(f, stage) is RemoveFile || ask_of(f, stage) is Rename,
    ensures
        f.overwrite,
{
    lemma_known(f, events);
}

/// An entry whose path is refused, stripped away or reserved, or whose kind is
/// not extracted, leaves the file system alone: it is announced and reported,
/// and nothing else.
pub proof fn law_unfit_entries_touch_nothing(f: Facts, events: Seq<Event>)
    requires
        after(f, events) is Some,
        !(f.path is Beneath) || f.kind is CharDevice || f.kind is BlockDevice || f.kind is Fifo,
    ensures
        forall|k: int|
            0 <= k < events.len() ==> (#[trigger] events[k]).ask is Announce || events[k].ask
                is Report,
    decreases events.len(),
{
    if events.len() > 0 {
        let front = events.drop_last();
        law_unfit_entries_touch_nothing(f, front);
        lemma_known(f, front);
        assert forall|k: int| 0 <= k < events.len() implies (#[trigger] events[k]).ask is Announce
            || events[k].ask is Report by {
            if k < front.len() {
                assert(events[k] == front[k]);
            }
        }
    }
}

/// Contents are written only to a file that was made for them and, where it is
/// sparse, was given its length before. Permission bits and the modification
/// time are set only once the contents are written.
pub proof fn law_contents_go_to_a_new_file(f: Facts, events: Seq<Event>, stage: Stage)
    requires
        after(f, events) == Some(Turn::Go(stage)),
    ensures
        ask_of(f, stage) is Fill ==> file_is_new(f, events),
        ask_of(f, stage) is SetMode || ask_of(f, stage) is SetMtime ==> happened(
            events,
            Ask::Fill,
            Reply::Done,
        ),
{
    lemma_known(f, events);
}

/// A file counts as extracted only when its contents were written.
pub proof fn law_extracted_files_were_filled(f: Facts, events: Seq<Event>)
    requires
        after(f, events) == Some(Turn::Stop(End::Extracted)),
        becomes_file(f),
    ensures
        happened(events, Ask::Fill, Reply::Done),
{
    if events.len() > 0 {
        lemma_known(f, events.drop_last());
        lemma_happened(events);
    }
}

/// A hard link is made only to a regular file that was seen beneath the
/// destination, past directories that are no symbolic links.
pub proof fn law_hard_links_lead_to_checked_files(f: Facts, events: Seq<Event>, stage: Stage)
    requires
        after(f, events) == Some(Turn::Go(stage)),
        f.kind is Hardlink,
        ask_of(f, stage) is Link,
    ensures
        f.source is Beneath,
        happened(events, Ask::Stat(Place::Source), Reply::Found(FileKind::File)),
        forall|i: usize|
            i < parent_count(f.source) ==> #[trigger] source_parent_is_safe(events, i),
{
    lemma_known(f, events);
}

/// An entry is skipped for the reason that is given, and only for it.
pub proof fn law_skipped_for_the_reason_given(f: Facts, events: Seq<Event>, reason: SkipReason)
    requires
        after(f, events) == Some(Turn::Stop(End::Skipped(reason))),
    ensures
        match reason {
            SkipReason::Stripped => f.path is Stripped,
            SkipReason::ReservedName => f.path is Reserved,
            SkipReason::UnsupportedType => f.path is Beneath && (f.kind is CharDevice || f.kind
                is BlockDevice || f.kind is Fifo),
            SkipReason::Exists => !f.overwrite && exists|kind: FileKind| #[trigger]
                happened(events, Ask::Stat(Place::Output), Reply::Found(kind)),
            SkipReason::SymlinkUnavailable => f.kind is Symlink && f.platform is Windows && exists|
                ask: Ask,
            | #[trigger] happened(events, ask, Reply::Failed(Trouble::Unavailable)),
        },
{
    if events.len() > 0 {
        let front = events.drop_last();
        lemma_known(f, front);
        lemma_happened(events);
        if let Reply::Found(kind) = events.last().reply {
            assert(happened(events, events.last().ask, Reply::Found(kind)));
        }
        if let Some(Turn::Go(stage)) = after(f, front) {
            match stage {
                Stage::Parents(_, true) | Stage::MakingParent(_, true) => {
                    let kind = choose|kind: FileKind| #[trigger]
                        happened(front, Ask::Stat(Place::Output), Reply::Found(kind));
                    assert(happened(events, Ask::Stat(Place::Output), Reply::Found(kind)));
                },
                Stage::LastReport(false) => {
                    let ask = choose|ask: Ask| #[trigger]
                        happened(front, ask, Reply::Failed(Trouble::Unavailable));
                    assert(happened(events, ask, Reply::Failed(Trouble::Unavailable)));
                },
                _ => {},
            }
        }
    }
}

} // verus!
