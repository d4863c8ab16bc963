//! What was done to the file system where an entry counts as extracted, and what
//! stood against it where it does not.

use vstd::prelude::*;

use crate::error::Fault;
use crate::extract::{
    advance, ask_of, lemma_stage_fits, parent_count, stage_fits, Answer, Ask, End, Facts, FileKind,
    PathFact, Place, Reply, SkipReason, Stage, Trouble, Turn,
};
use crate::member::Member;
use crate::path::Platform;
use crate::safety::{after, happened, lemma_happened, past_source, Event};
use crate::unpack::{facts_of, job_of, put_off, turn_of, JobView, UnpackOptions};

verus! {

/// Whether an entry is one that becomes a file.
pub open spec fn is_file(f: Facts) -> bool {
    f.kind is File || f.kind is Other
}

/// Whether an entry is a link.
pub open spec fn is_link(f: Facts) -> bool {
    f.kind is Symlink || f.kind is Hardlink
}

/// Whether what is asked is something that is done for such an entry, with the
/// values that the entry has.
pub open spec fn fits_entry(f: Facts, ask: Ask) -> bool {
    match ask {
        Ask::Announce | Ask::Report => true,
        Ask::Stat(Place::Source) | Ask::Stat(Place::SourceParent(_)) | Ask::SamePath => f.kind
            is Hardlink,
        Ask::Stat(_) => true,
        Ask::CreateDir(place) => place is Parent,
        Ask::Exists | Ask::CreateDirAll => f.kind is Directory,
        Ask::RemoveFile => is_file(f) && f.overwrite,
        Ask::CreateNew | Ask::Fill => is_file(f),
        Ask::SetLen(len) => is_file(f) && f.sparse && len == f.size,
        Ask::SetMode(mode) => is_file(f) && f.preserve_permissions && f.platform is Unix && mode
            == f.mode % 4096,
        Ask::SetMtime(mtime) => is_file(f) && f.preserve_mtime && mtime == f.mtime,
        Ask::Link(place) => is_link(f) && f.has_target && (place is Output || place is Temporary),
        Ask::Rename(_) | Ask::DropTemporary(_) => is_link(f) && f.overwrite,
    }
}

/// Whether nothing stands in the way of a new file: nothing was there, or what
/// was there was no directory, may be replaced, and was removed.
pub open spec fn way_is_free(f: Facts, events: Seq<Event>) -> bool {
    ||| happened(events, Ask::Stat(Place::Output), Reply::Missing)
    ||| f.overwrite && happened(events, Ask::RemoveFile, Reply::Done) && exists|kind: FileKind|
        !(kind is Directory) && #[trigger] happened(
            events,
            Ask::Stat(Place::Output),
            Reply::Found(kind),
        )
}

/// Whether a file was made and has its contents.
pub open spec fn file_was_made(f: Facts, events: Seq<Event>) -> bool {
    &&& way_is_free(f, events)
    &&& happened(events, Ask::CreateNew, Reply::Done)
    &&& f.sparse ==> happened(events, Ask::SetLen(f.size), Reply::Done)
    &&& happened(events, Ask::Fill, Reply::Done)
}

/// Whether a file has its permission bits, where they are restored.
pub open spec fn mode_was_set(f: Facts, events: Seq<Event>) -> bool {
    f.preserve_permissions && f.platform is Unix ==> happened(
        events,
        Ask::SetMode((f.mode % 4096) as u32),
        Reply::Done,
    )
}

/// Whether a file has its modification time, where it is restored.
pub open spec fn mtime_was_set(f: Facts, events: Seq<Event>) -> bool {
    f.preserve_mtime ==> happened(events, Ask::SetMtime(f.mtime), Reply::Done)
}

/// Whether a directory was made or was there, and was then seen to be one.
pub open spec fn directory_was_made(events: Seq<Event>) -> bool {
    &&& happened(events, Ask::CreateDirAll, Reply::Done)
    &&& happened(events, Ask::Stat(Place::Output), Reply::Found(FileKind::Directory))
}

/// Whether a link was made: at the output, where nothing stood, or under a
/// temporary name that was moved there, in place of what is no directory.
pub open spec fn link_was_made(f: Facts, events: Seq<Event>) -> bool {
    ||| happened(events, Ask::Stat(Place::Output), Reply::Missing) && happened(
        events,
        Ask::Link(Place::Output),
        Reply::Done,
    )
    ||| f.overwrite && exists|k: u8| #[trigger]
        happened(events, Ask::Rename(k), Reply::Done) && happened(
            events,
            Ask::Link(Place::Temporary(k)),
            Reply::Done,
        )
}

/// Whether an entry has a modification time that cannot be restored.
pub open spec fn has_bad_mtime(f: Facts) -> bool {
    f.preserve_mtime && f.mtime == i64::MIN && (f.kind is File || f.kind is Directory)
}

/// Whether an entry is a sparse file that is too long.
pub open spec fn has_bad_length(f: Facts) -> bool {
    f.kind is File && f.sparse && f.size > i64::MAX
}

/// Whether a hard link would not replace its own file: nothing but a symbolic
/// link stands at the output, or it is another file.
pub open spec fn is_another_file(events: Seq<Event>) -> bool {
    ||| happened(events, Ask::Stat(Place::Output), Reply::Missing)
    ||| happened(events, Ask::Stat(Place::Output), Reply::Found(FileKind::Symlink))
    ||| happened(events, Ask::SamePath, Reply::Says(false))
}

/// Whether a directory is made where nothing was said to be, or where what was
/// seen is no symbolic link.
pub open spec fn no_symlink_was_seen(events: Seq<Event>) -> bool {
    ||| exists|reply: Reply|
        reply != Reply::Says(true) && #[trigger] happened(events, Ask::Exists, reply)
    ||| exists|kind: FileKind|
        !(kind is Symlink) && #[trigger] happened(
            events,
            Ask::Stat(Place::Output),
            Reply::Found(kind),
        )
}

/// Whether an entry that would be refused for its numbers is let pass, because
/// it may be skipped.
pub open spec fn numbers_pass(f: Facts) -> bool {
    f.overwrite || !(f.kind is File) ==> !has_bad_mtime(f) && !has_bad_length(f)
}

/// What was done at a stage.
spec fn was_done(f: Facts, events: Seq<Event>, stage: Stage) -> bool {
    &&& f.kind is Hardlink && past_source(stage) && !(stage is SourceOutput || stage is SourceSame)
        ==> is_another_file(events)
    &&& past_numbers(stage) ==> numbers_pass(f)
    &&& was_done_here(f, events, stage)
}

/// Whether a stage comes after the numbers of an entry were judged.
spec fn past_numbers(stage: Stage) -> bool {
    past_source(stage) && !(stage is SourceOutput || stage is SourceSame || stage is MtimeOutput
        || stage is LengthOutput)
}

/// What was done for a kind of entry at a stage.
spec fn was_done_here(f: Facts, events: Seq<Event>, stage: Stage) -> bool {
    match stage {
        Stage::SourceParents(_)
        | Stage::SourceFile
        | Stage::SourceOutput
        | Stage::SourceSame => f.kind is Hardlink && f.has_target,
        Stage::OldOutput => is_link(f) && !f.overwrite,
        Stage::MtimeOutput => has_bad_mtime(f) && f.kind is File && !f.overwrite,
        Stage::LengthOutput => has_bad_length(f) && !f.overwrite,
        Stage::Parents(_, true) | Stage::MakingParent(_, true) => is_link(f),
        Stage::DirectoryExists | Stage::DirectoryOutput => f.kind is Directory,
        Stage::MakingDirectory => f.kind is Directory && no_symlink_was_seen(events),
        Stage::DirectoryMade => f.kind is Directory && happened(
            events,
            Ask::CreateDirAll,
            Reply::Done,
        ),
        Stage::FileOutput => is_file(f),
        Stage::RemovingFile => is_file(f) && f.overwrite && exists|kind: FileKind|
            !(kind is Directory) && #[trigger] happened(
                events,
                Ask::Stat(Place::Output),
                Reply::Found(kind),
            ),
        Stage::MakingFile => is_file(f) && way_is_free(f, events),
        Stage::SizingFile => is_file(f) && f.sparse && way_is_free(f, events) && happened(
            events,
            Ask::CreateNew,
            Reply::Done,
        ),
        Stage::FillingFile => is_file(f) && way_is_free(f, events) && happened(
            events,
            Ask::CreateNew,
            Reply::Done,
        ) && (f.sparse ==> happened(events, Ask::SetLen(f.size), Reply::Done)),
        Stage::FileMode => is_file(f) && file_was_made(f, events) && f.preserve_permissions
            && f.platform is Unix,
        Stage::FileMtime => is_file(f) && file_was_made(f, events) && mode_was_set(f, events)
            && f.preserve_mtime,
        Stage::LinkOutput => is_link(f) && f.has_target,
        Stage::MakingLink => is_link(f) && f.has_target && happened(
            events,
            Ask::Stat(Place::Output),
            Reply::Missing,
        ),
        Stage::MakingTemporary(_) => is_link(f) && f.has_target && f.overwrite,
        Stage::MovingTemporary(k) => is_link(f) && f.has_target && f.overwrite && happened(
            events,
            Ask::Link(Place::Temporary(k)),
            Reply::Done,
        ),
        Stage::DroppingTemporary(k, moved, _) => is_link(f) && f.has_target && f.overwrite && (moved
            ==> link_was_made(f, events)),
        Stage::LastReport(true) => {
            &&& is_file(f) ==> file_was_made(f, events) && mode_was_set(f, events) && mtime_was_set(
                f,
                events,
            )
            &&& f.kind is Directory ==> directory_was_made(events)
            &&& is_link(f) ==> f.has_target && link_was_made(f, events)
            &&& is_file(f) || f.kind is Directory || is_link(f)
        },
        Stage::Parents(_, false) | Stage::MakingParent(_, false) => f.kind is Hardlink
            ==> f.has_target,
        _ => true,
    }
}

/// What holds of histories goes on to hold.
proof fn lemma_ways_stay(f: Facts, events: Seq<Event>)
    requires
        events.len() > 0,
    ensures
        way_is_free(f, events.drop_last()) ==> way_is_free(f, events),
        file_was_made(f, events.drop_last()) ==> file_was_made(f, events),
        mode_was_set(f, events.drop_last()) ==> mode_was_set(f, events),
        mtime_was_set(f, events.drop_last()) ==> mtime_was_set(f, events),
        directory_was_made(events.drop_last()) ==> directory_was_made(events),
        link_was_made(f, events.drop_last()) ==> link_was_made(f, events),
{
    let front = events.drop_last();
    lemma_happened(events);
    let place = Ask::Stat(Place::Output);
    if way_is_free(f, front) && !happened(front, place, Reply::Missing) {
        let kind = choose|kind: FileKind|
            !(kind is Directory) && #[trigger] happened(front, place, Reply::Found(kind));
        assert(happened(events, place, Reply::Found(kind)));
    }
    if link_was_made(f, front) {
        if f.overwrite && exists|k: u8| #[trigger]
            happened(front, Ask::Rename(k), Reply::Done) && happened(
                front,
                Ask::Link(Place::Temporary(k)),
                Reply::Done,
            ) {
            let k = choose|k: u8| #[trigger]
                happened(front, Ask::Rename(k), Reply::Done) && happened(
                    front,
                    Ask::Link(Place::Temporary(k)),
                    Reply::Done,
                );
            assert(happened(events, Ask::Rename(k), Reply::Done));
        }
    }
}

/// What was done at a stage was done at the next, with what was asked last.
proof fn lemma_done_step(f: Facts, events: Seq<Event>, stage: Stage, next: Stage)
    requires
        events.len() > 0,
        was_done(f, events.drop_last(), stage),
        events.last().ask == ask_of(f, stage),
        advance(f, stage, events.last().reply) == Turn::Go(next),
    ensures
        was_done(f, events, next),
{
    let front = events.drop_last();
    let last = events.last();
    lemma_happened(events);
    lemma_ways_stay(f, events);
    lemma_mode(f.mode);
    if let Reply::Found(kind) = last.reply {
        assert(happened(events, last.ask, Reply::Found(kind)));
    }
    match stage {
        Stage::RemovingFile => {
            let kind = choose|kind: FileKind|
                !(kind is Directory) && #[trigger] happened(
                    front,
                    Ask::Stat(Place::Output),
                    Reply::Found(kind),
                );
            assert(happened(events, Ask::Stat(Place::Output), Reply::Found(kind)));
        },
        Stage::MovingTemporary(k) => {
            if last.reply is Done {
                assert(happened(events, Ask::Rename(k), Reply::Done));
                assert(happened(events, Ask::Link(Place::Temporary(k)), Reply::Done));
            }
        },
        _ => {},
    }
}

/// The low twelve bits are the remainder.
proof fn lemma_mode(mode: u32)
    ensures
        mode & 0o7777 == mode % 4096,
{
    assert(mode & 0o7777 == mode % 4096) by (bit_vector);
}

/// What was done at a stage was done whenever the stage is reached, and all that
/// was asked fits the entry.
proof fn lemma_done(f: Facts, events: Seq<Event>)
    ensures
        after(f, events) matches Some(Turn::Go(stage)) ==> was_done(f, events, stage),
        after(f, events) is Some ==> forall|k: int|
            0 <= k < events.len() ==> fits_entry(f, (#[trigger] events[k]).ask),
    decreases events.len(),
{
    if events.len() > 0 {
        let front = events.drop_last();
        lemma_done(f, front);
        if let Some(Turn::Go(stage)) = after(f, front) {
            if let Some(turn) = after(f, events) {
                lemma_asked(f, front, stage);
                assert forall|k: int| 0 <= k < events.len() implies fits_entry(
                    f,
                    (#[trigger] events[k]).ask,
                ) by {
                    if k < front.len() {
                        assert(events[k] == front[k]);
                    }
                }
                if let Turn::Go(next) = turn {
                    lemma_done_step(f, events, stage, next);
                }
            }
        }
    }
}

/// What is asked at a stage that is reached fits the entry.
proof fn lemma_asked(f: Facts, events: Seq<Event>, stage: Stage)
    requires
        was_done(f, events, stage),
    ensures
        fits_entry(f, ask_of(f, stage)),
{
    lemma_mode(f.mode);
}

/// Everything that is asked for an entry is something that is done for such an
/// entry: a file is made only for a file, a directory only for a directory and a
/// link only for a link that has a target; the length, the permission bits and
/// the modification time are those of the entry, the bits all twelve of them;
/// and each of these is asked only where the options say so.
pub proof fn law_all_that_is_asked_fits_the_entry(f: Facts, events: Seq<Event>)
    requires
        after(f, events) is Some,
    ensures
        forall|k: int| 0 <= k < events.len() ==> fits_entry(f, (#[trigger] events[k]).ask),
        after(f, events) matches Some(Turn::Go(stage)) ==> fits_entry(f, ask_of(f, stage)),
{
    lemma_done(f, events);
    if let Some(Turn::Go(stage)) = after(f, events) {
        lemma_asked(f, events, stage);
    }
}

/// An entry counts as extracted only when all that belongs to it was done: for a
/// file, the new file, its length where it is sparse, its contents, and its
/// permission bits and modification time where they are restored; for a
/// directory, a directory; for a link, the link.
pub proof fn law_extracted_entries_are_complete(f: Facts, events: Seq<Event>)
    requires
        after(f, events) == Some(Turn::Stop(End::Extracted)),
    ensures
        is_file(f) || f.kind is Directory || is_link(f),
        is_file(f) ==> file_was_made(f, events) && mode_was_set(f, events) && mtime_was_set(
            f,
            events,
        ),
        f.kind is Directory ==> directory_was_made(events),
        is_link(f) ==> f.has_target && link_was_made(f, events),
{
    if events.len() > 0 {
        lemma_done(f, events.drop_last());
        lemma_ways_stay(f, events);
    }
}

/// What is known of a member before its extraction is what the archive and the
/// options say.
pub proof fn law_members_are_extracted_as_they_are(
    member: Member,
    options: UnpackOptions,
    platform: Platform,
)
    ensures
        ({
            let f = facts_of(member, options, platform);
            &&& f.kind == member.kind
            &&& f.sparse <==> member.sparse is Some
            &&& f.size == member.logical_size
            &&& f.mode == member.header.mode
            &&& f.mtime == member.header.mtime
            &&& f.has_target <==> member.header.link_name is Some
            &&& f.overwrite == options.overwrite
            &&& f.preserve_mtime == options.preserve_mtime
            &&& f.preserve_permissions == options.preserve_permissions
            &&& f.platform == platform
            &&& job_of(member, options, platform).facts == f
            &&& job_of(member, options, platform).path == member.header.path
            &&& member.header.link_name matches Some(target) ==> job_of(
                member,
                options,
                platform,
            ).target == target
        }),
{
}

/// A file that was extracted has, on Unix and where permissions are restored,
/// exactly the low twelve permission bits of its member, and where times are
/// restored the time of its member.
pub proof fn law_extracted_files_have_their_metadata(
    member: Member,
    options: UnpackOptions,
    platform: Platform,
    events: Seq<Event>,
)
    requires
        after(facts_of(member, options, platform), events) == Some(Turn::Stop(End::Extracted)),
        member.kind is File || member.kind is Other,
    ensures
        options.preserve_permissions && platform is Unix ==> exists|mode: u32| #[trigger]
            happened(events, Ask::SetMode(mode), Reply::Done) && mode < 4096 && forall|bit: u32|
            bit < 12 ==> #[trigger] (mode >> bit) & 1 == (member.header.mode >> bit) & 1,
        !(options.preserve_permissions && platform is Unix) ==> forall|k: int|
            0 <= k < events.len() ==> !((#[trigger] events[k]).ask is SetMode),
        options.preserve_mtime ==> happened(
            events,
            Ask::SetMtime(member.header.mtime),
            Reply::Done,
        ),
        !options.preserve_mtime ==> forall|k: int|
            0 <= k < events.len() ==> !((#[trigger] events[k]).ask is SetMtime),
{
    let f = facts_of(member, options, platform);
    law_extracted_entries_are_complete(f, events);
    law_all_that_is_asked_fits_the_entry(f, events);
    if options.preserve_permissions && platform is Unix {
        let whole = member.header.mode;
        let mode = (whole % 4096) as u32;
        assert(happened(events, Ask::SetMode(mode), Reply::Done));
        assert forall|bit: u32| bit < 12 implies #[trigger] (mode >> bit) & 1 == (whole >> bit)
            & 1 by {
            assert((mode >> bit) & 1 == (whole >> bit) & 1) by (bit_vector)
                requires
                    mode == whole % 4096,
                    bit < 12,
            ;
        }
    }
}

/// Why an entry may be refused while it is extracted: what its own path, target
/// and numbers forbid, and what was found in the file system.
pub open spec fn is_reason(f: Facts, last: Event, fault: Fault) -> bool {
    match fault {
        Fault::WriteThroughSymlink => last.reply == Reply::Found(FileKind::Symlink) && (
        last.ask matches Ask::Stat(place) && place is Parent),
        Fault::ParentNotADirectory => (last.reply == Reply::Found(FileKind::File) || last.reply
            == Reply::Found(FileKind::Other)) && (last.ask matches Ask::Stat(place) && place
            is Parent),
        Fault::UnsafeHardlinkParent => f.kind is Hardlink && (last.reply matches Reply::Found(kind)
            && !(kind is Directory)) && (last.ask matches Ask::Stat(place) && place
            is SourceParent),
        Fault::HardlinkNotAFile => f.kind is Hardlink && (last.reply matches Reply::Found(kind)
            && !(kind is File)) && last.ask == Ask::Stat(Place::Source),
        Fault::HardlinkToItself => f.kind is Hardlink && last.ask is SamePath && last.reply
            == Reply::Says(true),
        Fault::HardlinkLacksTarget => f.kind is Hardlink && !f.has_target,
        Fault::HardlinkTargetStripped => f.kind is Hardlink && f.has_target && !(f.source
            is Beneath),
        Fault::SymlinkLacksTarget => f.kind is Symlink && !f.has_target,
        Fault::MtimeTooSmall => f.preserve_mtime && f.mtime == i64::MIN && (f.kind is File || f.kind
            is Directory),
        Fault::SparseTooLong => f.kind is File && f.sparse && f.size > i64::MAX,
        Fault::DirectoryIsSymlink => f.kind is Directory && last.ask == Ask::Stat(Place::Output)
            && last.reply == Reply::Found(FileKind::Symlink),
        Fault::NotADirectory => f.kind is Directory && last.ask == Ask::Stat(Place::Output) && (
        last.reply matches Reply::Found(kind) && !(kind is Directory)),
        Fault::FileOverDirectory => (is_file(f) || is_link(f)) && f.overwrite && last.ask
            == Ask::Stat(Place::Output) && last.reply == Reply::Found(FileKind::Directory),
        Fault::NoTemporaryName => is_link(f) && last.ask == Ask::Link(Place::Temporary(127))
            && last.reply == Reply::Failed(Trouble::AlreadyExists),
        _ => false,
    }
}

/// An entry is refused only for its path, for the path of a hard link's file, or
/// for a reason that is there.
pub proof fn law_refused_for_the_reason_given(f: Facts, events: Seq<Event>, fault: Fault)
    requires
        after(f, events) == Some(Turn::Stop(End::Refused(fault))),
    ensures
        events.len() > 0,
        f.path == PathFact::Refused(fault) || (f.kind is Hardlink && f.source
            == PathFact::Refused(fault)) || is_reason(f, events.last(), fault),
{
    lemma_done(f, events.drop_last());
}

/// Whether an answer is one that lets the extraction of an entry go on.
pub open spec fn is_answer_to(ask: Ask, reply: Reply) -> bool {
    match ask {
        Ask::Stat(Place::Source) | Ask::Stat(Place::SourceParent(_)) => reply is Found,
        Ask::Stat(_) => reply is Found || reply is Missing,
        Ask::SamePath => reply is Says,
        Ask::CreateDir(_)
        | Ask::CreateDirAll
        | Ask::RemoveFile
        | Ask::CreateNew
        | Ask::SetLen(_)
        | Ask::Fill
        | Ask::SetMode(_)
        | Ask::SetMtime(_)
        | Ask::Link(_)
        | Ask::Rename(_) => reply is Done,
        _ => true,
    }
}

/// The extraction of an entry fails only when what was asked for last was not
/// done, when a temporary name could not be moved before it was dropped, or when
/// a directory that was there is gone.
pub proof fn law_failed_for_a_reason(f: Facts, events: Seq<Event>)
    requires
        after(f, events) == Some(Turn::Stop(End::Failed)),
    ensures
        events.len() > 0,
        ({
            let last = events.last();
            let before = events[events.len() - 2];
            ||| !is_answer_to(last.ask, last.reply)
            ||| last.ask is DropTemporary && before.ask is Rename && !is_answer_to(
                before.ask,
                before.reply,
            )
            ||| f.kind is Directory && last.ask == Ask::Stat(Place::Output) && last.reply is Missing
        }),
{
    let front = events.drop_last();
    lemma_done(f, front);
    if let Some(Turn::Go(stage)) = after(f, front) {
        if stage is DroppingTemporary {
            lemma_done(f, front.drop_last());
            assert(events[events.len() - 2] == front.last());
        }
    }
}

/// A directory that was extracted is put off, with the place it was made at, the
/// permission bits and the time of its member and what tells it from others, for
/// its metadata to be restored at the end; and nothing else is ever put off.
pub proof fn law_extracted_directories_are_put_off(job: JobView, answer: Answer)
    requires
        after(job.facts, job.events) == Some(Turn::Go(job.stage)),
    ensures
        job.facts.kind is Directory && turn_of(job, answer) == Turn::Go(Stage::LastReport(true))
            ==> put_off(job, answer).len() == 1,
        put_off(job, answer).len() <= 1,
        put_off(job, answer).len() == 1 ==> {
            let directory = put_off(job, answer)[0];
            &&& job.facts.kind is Directory
            &&& happened(job.events, Ask::CreateDirAll, Reply::Done)
            &&& ask_of(job.facts, job.stage) == Ask::Stat(Place::Output)
            &&& answer == Answer::Found(FileKind::Directory, directory.id)
            &&& turn_of(job, answer) == Turn::Go(Stage::LastReport(true))
            &&& directory.components == job.components
            &&& directory.mode == job.facts.mode
            &&& directory.mtime == job.facts.mtime
        },
{
    lemma_done(job.facts, job.events);
}

/// An entry whose path is refused is refused for that, one whose path is
/// stripped away or reserved is skipped for that, and one that is a device or a
/// pipe is skipped for that, right after it was announced and reported; no other
/// entry is skipped then.
pub proof fn law_unfit_entries_are_turned_away(f: Facts, told: Reply, reported: Reply)
    ensures
        ({
            let events = seq![
                Event { ask: Ask::Announce, reply: told },
                Event { ask: Ask::Report, reply: reported },
            ];
            let turn = after(f, events);
            match f.path {
                PathFact::Refused(fault) => turn == Some(Turn::Stop(End::Refused(fault))),
                PathFact::Stripped => turn == Some(Turn::Stop(End::Skipped(SkipReason::Stripped))),
                PathFact::Reserved => turn == Some(
                    Turn::Stop(End::Skipped(SkipReason::ReservedName)),
                ),
                PathFact::Beneath(_) => if f.kind is CharDevice || f.kind is BlockDevice || f.kind
                    is Fifo {
                    turn == Some(Turn::Stop(End::Skipped(SkipReason::UnsupportedType)))
                } else {
                    turn is Some && !(turn matches Some(Turn::Stop(End::Skipped(_))))
                },
            }
        }),
{
    let events = seq![
        Event { ask: Ask::Announce, reply: told },
        Event { ask: Ask::Report, reply: reported },
    ];
    let one = events.drop_last();
    assert(one.drop_last() =~= Seq::<Event>::empty());
    assert(after(f, one.drop_last()) == Some(Turn::Go(Stage::Announcing)));
    assert(after(f, one) == Some(Turn::Go(Stage::Reporting)));
    assert(after(f, events) == Some(advance(f, Stage::Reporting, reported)));
}

/// What stands where a file or a link should be decides: nothing lets it be made
/// there; anything is kept, and the entry skipped, unless things are replaced; a
/// directory is never replaced; and anything else gives way, a file by being
/// removed and, for a link, by a new link that is moved over it.
pub proof fn law_what_stands_at_the_output_decides(
    f: Facts,
    events: Seq<Event>,
    stage: Stage,
    reply: Reply,
)
    requires
        after(f, events) == Some(Turn::Go(stage)),
        ask_of(f, stage) == Ask::Stat(Place::Output),
        is_file(f) && !has_bad_mtime(f) && !has_bad_length(f) || stage is LinkOutput,
    ensures
        ({
            let then = advance(f, stage, reply);
            let next = then->Go_0;
            match reply {
                Reply::Missing => then is Go && ask_of(f, next) == if is_file(f) {
                    Ask::CreateNew
                } else {
                    Ask::Link(Place::Output)
                },
                Reply::Found(kind) => if !f.overwrite {
                    then == Turn::Stop(End::Skipped(SkipReason::Exists))
                } else if kind is Directory {
                    then == Turn::Stop(End::Refused(Fault::FileOverDirectory))
                } else {
                    then is Go && ask_of(f, next) == if is_file(f) {
                        Ask::RemoveFile
                    } else {
                        Ask::Link(Place::Temporary(0))
                    }
                },
                _ => true,
            }
        }),
{
    lemma_done(f, events);
}

/// A link that cannot be made for want of a privilege is skipped on Windows, if
/// it is a symbolic one; in any other case extraction fails. A temporary name
/// that is taken is followed by the next.
pub proof fn law_links_that_cannot_be_made(
    f: Facts,
    events: Seq<Event>,
    stage: Stage,
    trouble: Trouble,
    last: Reply,
)
    requires
        after(f, events) == Some(Turn::Go(stage)),
        ask_of(f, stage) is Link,
    ensures
        ({
            let then = advance(f, stage, Reply::Failed(trouble));
            let next = then->Go_0;
            if trouble is AlreadyExists && ask_of(f, stage) != Ask::Link(Place::Output) {
                ask_of(f, stage) matches Ask::Link(Place::Temporary(k)) && if k < 127 {
                    then is Go && ask_of(f, next) == Ask::Link(Place::Temporary((k + 1) as u8))
                } else {
                    then == Turn::Stop(End::Refused(Fault::NoTemporaryName))
                }
            } else if trouble is Unavailable && f.kind is Symlink && f.platform is Windows {
                then is Go && ask_of(f, next) is Report && advance(f, next, last) == Turn::Stop(
                    End::Skipped(SkipReason::SymlinkUnavailable),
                )
            } else {
                then == Turn::Stop(End::Failed)
            }
        }),
{
    lemma_done(f, events);
    lemma_fits(f, events);
}

/// The numbers in a stage that is reached are those of something.
proof fn lemma_fits(f: Facts, events: Seq<Event>)
    ensures
        after(f, events) matches Some(Turn::Go(stage)) ==> stage_fits(f, stage),
    decreases events.len(),
{
    if events.len() > 0 {
        lemma_fits(f, events.drop_last());
        if let Some(Turn::Go(stage)) = after(f, events.drop_last()) {
            lemma_stage_fits(f, stage, events.last().reply);
        }
    }
}

/// A directory on the way to the output is passed if it is one, made if nothing
/// is there, and otherwise ends the extraction of the entry.
pub proof fn law_directories_on_the_way(f: Facts, stage: Stage, i: usize, reply: Reply)
    requires
        ask_of(f, stage) == Ask::Stat(Place::Parent(i)),
    ensures
        match reply {
            Reply::Found(FileKind::Directory) => i + 1 < parent_count(f.path) ==> (advance(
                f,
                stage,
                reply,
            ) matches Turn::Go(next) && ask_of(f, next) == Ask::Stat(
                Place::Parent((i + 1) as usize),
            )),
            Reply::Missing => advance(f, stage, reply) matches Turn::Go(next) && ask_of(f, next)
                == Ask::CreateDir(Place::Parent(i)),
            _ => advance(f, stage, reply) is Stop,
        },
{
}

/// A hard link is made only where it does not replace its own file.
pub proof fn law_hard_links_do_not_replace_their_file(f: Facts, events: Seq<Event>, stage: Stage)
    requires
        after(f, events) == Some(Turn::Go(stage)),
        f.kind is Hardlink,
        ask_of(f, stage) is Link || ask_of(f, stage) is Rename,
    ensures
        is_another_file(events),
{
    lemma_done(f, events);
}

/// An entry with a modification time or a length that cannot be restored changes
/// nothing, where it cannot be skipped for what exists already.
pub proof fn law_bad_numbers_change_nothing(f: Facts, events: Seq<Event>, stage: Stage)
    requires
        after(f, events) == Some(Turn::Go(stage)),
        has_bad_mtime(f) || has_bad_length(f),
        f.overwrite || f.kind is Directory,
    ensures
        ask_of(f, stage) is Announce || ask_of(f, stage) is Report || ask_of(f, stage) is Stat,
{
    lemma_done(f, events);
}

/// A link that must not replace anything is skipped for what stands at its
/// output before its file is looked for: that is looked at first, and if anything
/// is there only the directories on the way are looked at or made.
pub proof fn law_links_give_way_first(f: Facts, events: Seq<Event>)
    requires
        is_link(f),
        !f.overwrite,
        f.path is Beneath,
        after(f, events) is Some,
        events.len() >= 2,
    ensures
        events.len() == 2 ==> (after(f, events) matches Some(Turn::Go(stage)) && ask_of(f, stage)
            == Ask::Stat(Place::Output)),
        events.len() > 2 ==> events[2].ask == Ask::Stat(Place::Output),
        events.len() > 2 && events[2].reply is Found ==> match after(f, events) {
            Some(Turn::Go(stage)) => (ask_of(f, stage) matches Ask::Stat(place) && place is Parent)
                || ask_of(f, stage) is CreateDir,
            Some(Turn::Stop(end)) => !(end is Extracted),
            None => false,
        },
    decreases events.len(),
{
    lemma_gives_way(f, events);
}

/// A link that gives way stays so.
proof fn lemma_gives_way(f: Facts, events: Seq<Event>)
    requires
        is_link(f),
        !f.overwrite,
        f.path is Beneath,
        after(f, events) is Some,
    ensures
        events.len() == 0 ==> after(f, events) == Some(Turn::Go(Stage::Announcing)),
        events.len() == 1 ==> after(f, events) == Some(Turn::Go(Stage::Reporting)),
        events.len() == 2 ==> after(f, events) == Some(Turn::Go(Stage::OldOutput)),
        events.len() > 2 ==> events[2].ask == Ask::Stat(Place::Output),
        events.len() > 2 && events[2].reply is Found ==> match after(f, events) {
            Some(Turn::Go(Stage::Parents(_, gives_way))) => gives_way,
            Some(Turn::Go(Stage::MakingParent(_, gives_way))) => gives_way,
            Some(Turn::Stop(end)) => !(end is Extracted),
            _ => false,
        },
    decreases events.len(),
{
    if events.len() > 0 {
        let front = events.drop_last();
        lemma_gives_way(f, front);
        if events.len() > 3 {
            assert(front[2] == events[2]);
        }
    }
}

/// A directory is not made where a symbolic link stands.
pub proof fn law_directories_do_not_replace_symlinks(f: Facts, events: Seq<Event>, stage: Stage)
    requires
        after(f, events) == Some(Turn::Go(stage)),
        ask_of(f, stage) is CreateDirAll,
    ensures
        f.kind is Directory,
        no_symlink_was_seen(events),
{
    lemma_done(f, events);
}

} // verus!
