//! What an extraction tells its caller: what was extracted, why it failed, and
//! how far it is.

use vstd::prelude::*;

use crate::archive::EntryView;
use crate::error::{Error, Fault};
use crate::extract::{ask_of, parent_count, Answer, End, Facts, FileKind, Place, SkipReason, Turn};
use crate::path::Platform;
use crate::reader::ReaderView;
use crate::safety::after;
use crate::unpack::{
    consumes, destination_fault, job_after, job_is_beneath, noted, place_path, turn_of,
    unpack_fault, verdict_of, JobView, Progress, SummaryView,
};
use crate::unpacking::{PhaseView, Request, UnpackingView};

verus! {

/// One more of something, as far as 64 bits go.
pub open spec fn one_more(n: u64) -> u64 {
    if n < u64::MAX {
        (n + 1) as u64
    } else {
        n
    }
}

/// An entry that was extracted is counted as what it is and as nothing else, one
/// that was skipped is listed with its path and the reason.
pub proof fn law_entries_are_counted_as_what_they_are(
    summary: SummaryView,
    f: Facts,
    path: Seq<u8>,
    reason: SkipReason,
)
    ensures
        ({
            let then = summary.plus(SummaryView::nothing().with(f, path, None));
            let is_file = !(f.kind is Directory || f.kind is Symlink || f.kind is Hardlink);
            &&& then.dirs == if f.kind is Directory {
                one_more(summary.dirs)
            } else {
                summary.dirs
            }
            &&& then.symlinks == if f.kind is Symlink {
                one_more(summary.symlinks)
            } else {
                summary.symlinks
            }
            &&& then.hardlinks == if f.kind is Hardlink {
                one_more(summary.hardlinks)
            } else {
                summary.hardlinks
            }
            &&& then.files == if is_file {
                one_more(summary.files)
            } else {
                summary.files
            }
            &&& then.sparse_files == if is_file && f.sparse {
                one_more(summary.sparse_files)
            } else {
                summary.sparse_files
            }
            &&& then.skipped == summary.skipped
        }),
        summary.plus(SummaryView::nothing().with(f, path, Some(reason))) == (SummaryView {
            skipped: summary.skipped.push((path, reason)),
            ..summary
        }),
{
    let none = SummaryView::nothing();
    assert(summary.skipped + none.skipped =~= summary.skipped);
    assert(summary.skipped + none.skipped.push((path, reason)) =~= summary.skipped.push(
        (path, reason),
    ));
}

/// The extraction of an entry that fails reports the error of the operation that
/// failed: the one that was just answered or, after a temporary name was
/// dropped, the one before.
pub proof fn law_failures_report_their_error(job: JobView, answer: Answer, error: std::io::Error)
    requires
        turn_of(job, answer) == Turn::Stop(End::Failed),
        !(ask_of(job.facts, job.stage) is DropTemporary),
        (answer matches Answer::Failed(_, found) && found == error) || answer == Answer::Missing(
            error,
        ),
    ensures
        verdict_of(End::Failed, noted(job, answer)) == Err::<Option<SkipReason>, Error>(
            Error::Io(error),
        ),
{
}

/// The error of a temporary name that could not be moved is kept while what is
/// left of it is dropped.
pub proof fn law_errors_are_kept_while_dropping(
    job: JobView,
    answer: Answer,
    error: std::io::Error,
    next: Answer,
)
    requires
        ask_of(job.facts, job.stage) is Rename,
        answer matches Answer::Failed(_, found) && found == error,
        turn_of(job_after(job, answer), next) == Turn::Stop(End::Failed),
    ensures
        ask_of(job_after(job, answer).facts, job_after(job, answer).stage) is DropTemporary,
        verdict_of(End::Failed, noted(job_after(job, answer), next)) == Err::<
            Option<SkipReason>,
            Error,
        >(Error::Io(error)),
{
}

/// An entry counts as consumed as soon as its file or directory is made, and
/// when its link was; an entry that is skipped before does not.
pub proof fn law_extraction_consumes_the_entry(job: JobView, answer: Answer)
    requires
        after(job.facts, job.events) == Some(Turn::Go(job.stage)),
    ensures
        ({
            let then = job_after(job, answer);
            let asked = ask_of(then.facts, then.stage);
            &&& turn_of(job, answer) is Go && (asked is CreateNew || asked is CreateDirAll)
                ==> consumes(turn_of(job, answer))
            &&& turn_of(job, answer) is Go && turn_of(then, Answer::Done) == Turn::Stop(
                End::Extracted,
            ) ==> consumes(turn_of(job, answer))
            &&& consumes(turn_of(job, answer)) ==> asked is CreateNew || asked is CreateDirAll
                || turn_of(then, Answer::Done) == Turn::Stop(End::Extracted)
        }),
{
}

/// An entry of which anything was read or extracted is not extracted.
pub proof fn law_consumed_entries_are_not_extracted(
    entry: EntryView,
    archive: ReaderView,
    platform: Platform,
)
    requires
        entry.pos > 0 || entry.started,
    ensures
        unpack_fault(entry, archive, platform) is Some,
{
}

/// Progress is reported between two pieces of contents exactly when at least
/// 65536 bytes were read since the last report, and says how many bytes were
/// read in all.
pub proof fn law_progress_is_reported_in_time(
    view: UnpackingView,
    answer: Answer,
    then: UnpackingView,
    request: Request,
    entry: EntryView,
    job: JobView,
)
    requires
        view.steps(answer, then, request),
        view.phase == PhaseView::Entry(entry, job, true),
        ask_of(job.facts, job.stage) is Fill,
        answer is Done,
        view.archive.delivered.len() <= u64::MAX,
    ensures
        view.archive.delivered.len() - view.reported >= 65536 ==> request == Request::Report(
            Progress { bytes_read: view.archive.delivered.len() as u64 },
        ) && then.reported == view.archive.delivered.len() && then.archive == view.archive,
        view.archive.delivered.len() - view.reported < 65536 && request is Report ==> (
        then.phase matches PhaseView::Entry(_, other, _) && !(ask_of(other.facts, other.stage)
            is Fill)),
{
}

/// Whatever progress is reported is how many bytes were read of the input.
pub proof fn law_progress_is_what_was_read(
    view: UnpackingView,
    answer: Answer,
    then: UnpackingView,
    progress: Progress,
)
    requires
        view.steps(answer, then, Request::Report(progress)),
        then.archive.delivered.len() <= u64::MAX,
    ensures
        progress.bytes_read == then.archive.delivered.len(),
        then.reported == progress.bytes_read,
{
}

/// The class of a fault: an input that ended too early, a name that is taken, a
/// call that does not fit, or bad data for all the rest.
pub proof fn law_classes_of_faults(fault: Fault)
    ensures
        fault.class() is UnexpectedEof <==> fault is TruncatedArchive || fault is TruncatedEntryData
            || fault is TruncatedSparseData || fault is ShortData,
        fault.class() is AlreadyExists <==> fault is NoTemporaryName,
        fault is StaleEntry || fault is EntryConsumed || fault is EmptyPath || fault is NotALink
            || fault is EmptyTarget || fault is PoisonedAppend || fault is PoisonedFinish || fault
            is FinishedAppend || fault is LongRecordTooLarge ==> fault.class() is InvalidInput,
        fault is ChecksumMismatch || fault is AbsolutePath || fault is PathTraversal || fault
            is WriteThroughSymlink || fault is DirectorySuffix || fault is InvalidOctal || fault
            is InvalidDecimal || fault is SegmentsOverlap || fault is PackedSizeMismatch || fault
            is DuplicateLocalPax || fault is MetadataTooLarge ==> fault.class() is InvalidData,
{
}

/// Summaries add up, as far as 64 bits go, and list what was skipped one after
/// the other.
pub proof fn law_summaries_add_up(a: SummaryView, b: SummaryView)
    ensures
        a.files + b.files <= u64::MAX ==> a.plus(b).files == a.files + b.files,
        a.dirs + b.dirs <= u64::MAX ==> a.plus(b).dirs == a.dirs + b.dirs,
        a.symlinks + b.symlinks <= u64::MAX ==> a.plus(b).symlinks == a.symlinks + b.symlinks,
        a.hardlinks + b.hardlinks <= u64::MAX ==> a.plus(b).hardlinks == a.hardlinks + b.hardlinks,
        a.sparse_files + b.sparse_files <= u64::MAX ==> a.plus(b).sparse_files == a.sparse_files
            + b.sparse_files,
        a.files + b.files > u64::MAX ==> a.plus(b).files == u64::MAX,
        a.plus(b).skipped == a.skipped + b.skipped,
{
}

/// An archive is extracted to a directory, and to nothing else; a symbolic link
/// is refused as one, wherever it leads.
pub proof fn law_destinations_are_directories(kind: FileKind)
    ensures
        destination_fault(kind) is None <==> kind is Directory,
        destination_fault(kind) == Some(Fault::DestinationIsSymlink) <==> kind is Symlink,
{
}

/// The places that an extraction deals with lie on the way to its output or to
/// the file of its link: the output is where the path leads, the directory before
/// it is the last one on the way, each other one lies right above the next, and a
/// temporary name is made beside the output.
pub proof fn law_places_lie_on_the_way(job: JobView, i: usize)
    requires
        job_is_beneath(job),
        job.facts.path is Beneath,
        i < usize::MAX,
    ensures
        place_path(job, Place::Output) == job.components,
        place_path(job, Place::Source) == job.source,
        forall|k: u8| #[trigger]
            place_path(job, Place::Temporary(k)) == job.components.drop_last(),
        i + 1 == parent_count(job.facts.path) ==> place_path(job, Place::Parent(i))
            == job.components.drop_last(),
        i + 1 < parent_count(job.facts.path) ==> place_path(job, Place::Parent(i)) == place_path(
            job,
            Place::Parent((i + 1) as usize),
        ).drop_last(),
        job.facts.source is Beneath && i + 1 == parent_count(job.facts.source) ==> place_path(
            job,
            Place::SourceParent(i),
        ) == job.source.drop_last(),
        job.facts.source is Beneath && i + 1 < parent_count(job.facts.source) ==> place_path(
            job,
            Place::SourceParent(i),
        ) == place_path(job, Place::SourceParent((i + 1) as usize)).drop_last(),
{
    if i + 1 < parent_count(job.facts.path) {
        assert(job.components.take(i + 1) =~= job.components.take(i + 2).drop_last());
    } else if i + 1 == parent_count(job.facts.path) {
        assert(job.components.take(i + 1) =~= job.components.drop_last());
    }
    if job.facts.source is Beneath {
        if i + 1 < parent_count(job.facts.source) {
            assert(job.source.take(i + 1) =~= job.source.take(i + 2).drop_last());
        } else if i + 1 == parent_count(job.facts.source) {
            assert(job.source.take(i + 1) =~= job.source.drop_last());
        }
    }
}

} // verus!
