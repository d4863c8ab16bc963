//! What the extraction of a whole archive does with each entry and, at the end,
//! with each directory.

use vstd::prelude::*;

use crate::accounting::Run;
use crate::archive::{finds, Entry, EntryView};
use crate::deferred::{
    has_task, is_latest, restore_ask, serves, DeferredView, RestoreAsk, TasksView,
};
use crate::error::Error;
use crate::extract::{ask_of, Answer, Turn};
use crate::outcomes::{fits_entry, law_all_that_is_asked_fits_the_entry};
use crate::path::Platform;
use crate::restoring::{
    fits_directory, has_begun, law_directories_get_what_is_restored, lemma_restored_keeps, restored,
    was_asked, was_served, RestoreEvent,
};
use crate::safety::after;
use crate::unpack::{
    consumes, job_after, job_of, noted, put_off, restore_facts, turn_of, verdict_of, JobView,
    SummaryView, UnpackOptions, UnpackSummary, UnpackerView,
};
use crate::unpacking::{PhaseView, Request, UnpackingView};

verus! {

/// Whether the extraction of an entry is one that its member, the options and
/// the answers so far lead to.
pub open spec fn is_job_of(
    job: JobView,
    entry: EntryView,
    options: UnpackOptions,
    platform: Platform,
) -> bool {
    let begin = job_of(entry.member, options, platform);
    &&& job.facts == begin.facts
    &&& job.path == begin.path
    &&& job.components == begin.components
    &&& job.source == begin.source
    &&& job.target == begin.target
    &&& after(job.facts, job.events) == Some(Turn::Go(job.stage))
}

/// Whether the entry at hand, if there is one, is extracted as it should be.
spec fn entry_is_fine(view: UnpackingView) -> bool {
    view.phase matches PhaseView::Entry(entry, job, _) ==> is_job_of(
        job,
        entry,
        view.unpacker.options,
        view.unpacker.platform,
    )
}

/// An answer that does not end the extraction of an entry leads on.
proof fn lemma_job_after(
    job: JobView,
    entry: EntryView,
    answer: Answer,
    options: UnpackOptions,
    platform: Platform,
)
    requires
        is_job_of(job, entry, options, platform),
        turn_of(job, answer) is Go,
    ensures
        is_job_of(job_after(job, answer), entry, options, platform),
{
    let then = job_after(job, answer);
    assert(then.events.drop_last() =~= job.events);
}

/// An entry that gets its contents is still extracted as it should be.
proof fn lemma_fills_fine(
    view: UnpackingView,
    entry: EntryView,
    job: JobView,
    after: UnpackingView,
    request: Request,
)
    requires
        view.fills(entry, job, after, request),
        !(request is End),
        ask_of(job.facts, job.stage) is Fill,
        is_job_of(job, entry, view.unpacker.options, view.unpacker.platform),
    ensures
        entry_is_fine(after),
        after.unpacker == view.unpacker,
        after.phase is Entry,
        !(request is Restore),
{
    let (options, platform) = (view.unpacker.options, view.unpacker.platform);
    assert forall|other: JobView, e: EntryView|
        other == (JobView { segment: other.segment, within: other.within, ..job }) && e.member
            == entry.member implies is_job_of(
        other,
        e,
        options,
        platform,
    ) && #[trigger] is_job_of(job_after(other, Answer::Done), e, options, platform) by {
        assert(is_job_of(other, e, options, platform));
        assert(turn_of(other, Answer::Done) is Go);
        lemma_job_after(other, e, Answer::Done, options, platform);
    }
}

/// The next entry is extracted as it should be, or the restoring of metadata
/// begins.
proof fn lemma_next_fine(view: UnpackingView, after: UnpackingView, request: Request)
    requires
        view.turns_to_next(after, request),
        view.phase is Over,
        !(request is End),
    ensures
        entry_is_fine(after),
        after.phase is Entry ==> after.unpacker == view.unpacker && !(request is Restore),
        after.unpacker.options == view.unpacker.options,
        after.unpacker.platform == view.unpacker.platform,
        after.phase is Entry || exists|begin: TasksView| #[trigger]
            begins_restoring(view, begin, after, request),
{
    let outcome = choose|outcome: Result<Option<Entry>, Error>| #[trigger]
        finds(view.parser, view.archive, outcome, after.parser, after.archive) && view.next_leads(
            outcome,
            after,
            request,
        );
    let then = UnpackingView { archive: after.archive, parser: after.parser, ..view };
    if let Ok(None) = outcome {
        assert(then.turns_to_directories(after, request));
        let tasks = choose|tasks: TasksView|
            {
                &&& tasks.facts == restore_facts(then.unpacker)
                &&& serves(then.unpacker.deferred, tasks.list)
                &&& has_begun(tasks)
                &&& #[trigger] (UnpackingView {
                    unpacker: UnpackerView { deferred: Seq::empty(), ..then.unpacker },
                    ..then
                }).asks_for_directory(tasks, after, request)
            };
        assert(begins_restoring(view, tasks, after, request));
    }
}

/// Whether the restoring of the metadata of all directories that were put off
/// begins, and asks for something unless there is nothing to restore.
spec fn begins_restoring(
    view: UnpackingView,
    begin: TasksView,
    after: UnpackingView,
    request: Request,
) -> bool {
    &&& begin.facts == restore_facts(view.unpacker)
    &&& serves(view.unpacker.deferred, begin.list)
    &&& has_begun(begin)
    &&& restoring_goes_on(begin, after, request)
}

/// Whether the restoring of metadata asks for something, unless it is complete.
spec fn restoring_goes_on(tasks: TasksView, after: UnpackingView, request: Request) -> bool {
    if has_task(tasks) {
        after.phase == PhaseView::Directories(tasks) && request == Request::Restore(
            restore_ask(tasks.list[tasks.at], tasks.stage),
        )
    } else {
        after.phase is Closing && !(request is Restore)
    }
}

/// What a step puts off.
pub open spec fn put_off_by(view: UnpackingView, answer: Answer) -> Seq<DeferredView> {
    match view.phase {
        PhaseView::Entry(_, job, _) => put_off(job, answer),
        _ => Seq::empty(),
    }
}

/// All directories that were extracted in a run, in order.
pub open spec fn extracted_directories(run: Run) -> Seq<DeferredView>
    decreases run.requests.len(),
{
    let n = run.requests.len() as int;
    if n == 0 {
        Seq::empty()
    } else {
        extracted_directories(run.front()) + put_off_by(run.views[n - 1], run.answers[n - 1])
    }
}

/// All that was asked of directories in a run and answered, in order.
spec fn restore_events(run: Run) -> Seq<RestoreEvent>
    decreases run.requests.len(),
{
    let n = run.requests.len() as int;
    if n == 0 {
        Seq::empty()
    } else {
        let before = restore_events(run.front());
        match run.views[n - 1].phase {
            PhaseView::Directories(tasks) => before.push(
                RestoreEvent {
                    directory: tasks.at,
                    ask: restore_ask(tasks.list[tasks.at], tasks.stage),
                    answer: run.answers[n - 1],
                },
            ),
            _ => before,
        }
    }
}

/// A step with an entry at hand.
proof fn lemma_entry_step(
    view: UnpackingView,
    answer: Answer,
    after: UnpackingView,
    request: Request,
)
    requires
        view.steps(answer, after, request),
        !(request is End),
        view.phase is Entry,
        entry_is_fine(view),
    ensures
        entry_is_fine(after),
        after.unpacker.options == view.unpacker.options,
        after.unpacker.platform == view.unpacker.platform,
        after.phase is Entry ==> !(request is Restore) && after.unpacker.deferred
            == view.unpacker.deferred + put_off_by(view, answer),
        after.phase is Entry || exists|then: UnpackingView, begin: TasksView|
            then.unpacker.options == view.unpacker.options && then.unpacker.platform
                == view.unpacker.platform && then.unpacker.deferred == view.unpacker.deferred
                + put_off_by(view, answer) && #[trigger] begins_restoring(
                then,
                begin,
                after,
                request,
            ),
{
    let rest = UnpackingView { phase: PhaseView::Over, ..view };
    if let PhaseView::Entry(entry, job, wrote) = view.phase {
        let (options, platform) = (view.unpacker.options, view.unpacker.platform);
        if !(job.stage is FillingFile) || (wrote && !(answer is Done)) {
            let turn = turn_of(job, answer);
            let then = UnpackingView {
                unpacker: UnpackerView {
                    deferred: rest.unpacker.deferred + put_off(job, answer),
                    ..rest.unpacker
                },
                ..rest
            };
            match turn {
                Turn::Go(_) => {
                    let entry_then = EntryView {
                        started: entry.started || consumes(turn),
                        ..entry
                    };
                    let job_then = job_after(job, answer);
                    lemma_job_after(job, entry, answer, options, platform);
                    assert(is_job_of(job_then, entry_then, options, platform));
                    if ask_of(job_then.facts, job_then.stage) is Fill {
                        lemma_fills_fine(then, entry_then, job_then, after, request);
                    }
                },
                Turn::Stop(end) => {
                    if let Ok(skipped) = verdict_of(end, noted(job, answer)) {
                        let next = UnpackingView {
                            summary: rest.summary.plus(
                                SummaryView::nothing().with(job.facts, job.path, skipped),
                            ),
                            ..then
                        };
                        lemma_next_fine(next, after, request);
                        if !(after.phase is Entry) {
                            let begin = choose|begin: TasksView| #[trigger]
                                begins_restoring(next, begin, after, request);
                            assert(begins_restoring(next, begin, after, request));
                        }
                    }
                },
            }
        } else {
            let none = view.unpacker.deferred + put_off(job, answer);
            assert(none =~= view.unpacker.deferred);
            if rest.fills(entry, job, after, request) {
                lemma_fills_fine(rest, entry, job, after, request);
            }
        }
    }
}

/// A run without its last step is one.
proof fn lemma_front(run: Run)
    requires
        run.happens(),
        run.requests.len() > 0,
    ensures
        run.front().happens(),
        run.front().requests.len() > 0 ==> !(run.front().requests.last() is End),
        run.front().views.last() == run.views[run.requests.len() - 1],
{
    let n = run.requests.len() as int;
    let front = run.front();
    assert forall|i: int| 0 <= i < n - 1 implies (#[trigger] front.views[i]).steps(
        front.answers[i],
        front.views[i + 1],
        front.requests[i],
    ) by {
        assert(front.views[i] == run.views[i]);
    }
    assert forall|i: int| 0 <= i < n - 1 implies !(#[trigger] front.requests[i] is End) by {
        assert(front.requests[i] == run.requests[i]);
    }
}

/// Whether something was asked of a directory in a run.
pub open spec fn was_restored(run: Run, d: DeferredView, ask: RestoreAsk) -> bool {
    exists|i: int|
        0 <= i < run.requests.len() && #[trigger] run.requests[i] == Request::Restore(ask) && (
        run.views[i + 1].phase matches PhaseView::Directories(tasks) && has_task(tasks)
            && tasks.list[tasks.at] == d)
}

/// What was asked of a directory stays asked.
proof fn lemma_was_restored(run: Run)
    requires
        run.happens(),
        run.requests.len() > 0,
    ensures
        forall|d: DeferredView, ask: RestoreAsk|
            was_restored(run.front(), d, ask) ==> #[trigger] was_restored(run, d, ask),
{
    let front = run.front();
    assert forall|d: DeferredView, ask: RestoreAsk| was_restored(front, d, ask) implies
        #[trigger] was_restored(run, d, ask) by {
        let i = choose|i: int|
            0 <= i < front.requests.len() && #[trigger] front.requests[i] == Request::Restore(ask)
                && (front.views[i + 1].phase matches PhaseView::Directories(tasks) && has_task(
                tasks,
            ) && tasks.list[tasks.at] == d);
        assert(run.requests[i] == front.requests[i]);
        assert(run.views[i + 1] == front.views[i + 1]);
    }
}

/// Whether what is restored in a run stands where its events lead.
spec fn restoring_is_fine(run: Run, begin: TasksView) -> bool {
    &&& begin.facts == restore_facts(run.views[0].unpacker)
    &&& has_begun(begin)
    &&& serves(extracted_directories(run), begin.list)
    &&& match run.views.last().phase {
        PhaseView::Directories(tasks) => {
            &&& has_task(tasks)
            &&& restored(begin, restore_events(run)) == Some(tasks)
            &&& run.requests.len() > 0
            &&& run.requests.last() == Request::Restore(
                restore_ask(tasks.list[tasks.at], tasks.stage),
            )
        },
        _ => restored(begin, restore_events(run)) matches Some(tasks) && !has_task(tasks),
    }
    &&& forall|k: int|
        0 <= k < restore_events(run).len() ==> was_restored(
            run,
            begin.list[(#[trigger] restore_events(run)[k]).directory],
            restore_events(run)[k].ask,
        )
}

/// What holds at any time of a run.
proof fn lemma_run(run: Run) -> (begin: TasksView)
    requires
        run.happens(),
        run.requests.len() > 0 ==> !(run.requests.last() is End),
        run.views[0].phase is Start,
        run.views[0].unpacker.deferred == Seq::<DeferredView>::empty(),
    ensures
        entry_is_fine(run.views.last()),
        run.views.last().unpacker.options == run.views[0].unpacker.options,
        run.views.last().unpacker.platform == run.views[0].unpacker.platform,
        !(run.views.last().phase is Over),
        run.views.last().phase is Start ==> run.requests.len() == 0,
        run.views.last().phase is Start || run.views.last().phase is Entry ==> {
            &&& run.views.last().unpacker.deferred == extracted_directories(run)
            &&& restore_events(run) == Seq::<RestoreEvent>::empty()
        },
        run.views.last().phase is Directories || run.views.last().phase is Closing ==>
            restoring_is_fine(run, begin),
    decreases run.requests.len(),
{
    let n = run.requests.len() as int;
    if n == 0 {
        arbitrary()
    } else {
        let front = run.front();
        let (view, then) = (run.views[n - 1], run.views[n]);
        let (answer, request) = (run.answers[n - 1], run.requests[n - 1]);
        lemma_front(run);
        assert(view.steps(answer, then, request));
        let old_begin = lemma_run(front);
        let rest = UnpackingView { phase: PhaseView::Over, ..view };
        assert(front.views[0] == run.views[0]);
        let all = extracted_directories(run);
        match view.phase {
            PhaseView::Start => {
                assert(all =~= extracted_directories(front));
                lemma_next_fine(rest, then, request);
                if then.phase is Entry {
                    arbitrary()
                } else {
                    let begin = choose|begin: TasksView| #[trigger]
                        begins_restoring(rest, begin, then, request);
                    begin
                }
            },
            PhaseView::Entry(_, _, _) => {
                lemma_entry_step(view, answer, then, request);
                if then.phase is Entry {
                    arbitrary()
                } else {
                    let (middle, begin) = choose|middle: UnpackingView, begin: TasksView|
                        middle.unpacker.options == view.unpacker.options
                            && middle.unpacker.platform == view.unpacker.platform
                            && middle.unpacker.deferred == view.unpacker.deferred + put_off_by(
                            view,
                            answer,
                        ) && #[trigger] begins_restoring(middle, begin, then, request);
                    begin
                }
            },
            PhaseView::Directories(tasks) => {
                assert(all =~= extracted_directories(front));
                let events = restore_events(run);
                assert(events.drop_last() =~= restore_events(front));
                lemma_was_restored(run);
                lemma_restored_keeps(old_begin, restore_events(front));
                assert(run.requests[n - 2] == front.requests[n - 2]);
                assert(run.views[n - 2 + 1] == view);
                assert forall|k: int| 0 <= k < events.len() implies was_restored(
                    run,
                    old_begin.list[(#[trigger] events[k]).directory],
                    events[k].ask,
                ) by {
                    if k < events.len() - 1 {
                        assert(events[k] == restore_events(front)[k]);
                    } else {
                        assert(events[k].ask == restore_ask(tasks.list[tasks.at], tasks.stage));
                        assert(run.requests[n - 2] == Request::Restore(events[k].ask));
                    }
                }
                old_begin
            },
            _ => old_begin,
        }
    }
}

/// While an archive is extracted, all that is asked for the entry at hand is
/// what its member and the options lead to, with the answers so far.
pub proof fn law_entries_at_hand_are_extracted_as_they_should(run: Run, i: int)
    requires
        run.happens(),
        run.views[0].phase is Start,
        run.views[0].unpacker.deferred == Seq::<DeferredView>::empty(),
        0 <= i < run.requests.len(),
        !(run.requests[i] is End),
    ensures
        run.views[i + 1].phase matches PhaseView::Entry(entry, job, _) ==> {
            &&& is_job_of(
                job,
                entry,
                run.views[0].unpacker.options,
                run.views[0].unpacker.platform,
            )
            &&& fits_entry(job.facts, ask_of(job.facts, job.stage))
        },
    decreases run.requests.len(),
{
    let n = run.requests.len() as int;
    if i < n - 1 {
        lemma_front(run);
        let front = run.front();
        assert(front.views[0] == run.views[0]);
        assert(front.requests[i] == run.requests[i]);
        assert(front.views[i + 1] == run.views[i + 1]);
        law_entries_at_hand_are_extracted_as_they_should(front, i);
    } else {
        let begin = lemma_run(run);
        if let PhaseView::Entry(entry, job, _) = run.views[n].phase {
            law_all_that_is_asked_fits_the_entry(job.facts, job.events);
        }
    }
}

/// Whether a directory got what is restored of it in a run.
pub open spec fn got_its_metadata(run: Run, d: DeferredView) -> bool {
    let options = run.views[0].unpacker.options;
    &&& options.preserve_permissions && run.views[0].unpacker.platform is Unix ==> was_restored(
        run,
        d,
        RestoreAsk::SetMode((d.mode % 4096) as u32),
    )
    &&& options.preserve_mtime ==> was_restored(run, d, RestoreAsk::SetMtime(d.mtime))
}

/// When the extraction of an archive ends well, every directory that was
/// extracted got the permission bits and the modification time of the last
/// member with its path, as far as the options say that they are restored; and
/// nothing was set that is not to be restored.
pub proof fn law_extracted_directories_get_their_metadata(
    run: Run,
    summary: UnpackSummary,
    k: int,
)
    requires
        run.happens(),
        run.views[0].phase is Start,
        run.views[0].unpacker.deferred == Seq::<DeferredView>::empty(),
        run.requests.len() > 0,
        run.requests.last() == Request::End(Ok::<UnpackSummary, Error>(summary)),
        is_latest(extracted_directories(run), k),
    ensures
        got_its_metadata(run, extracted_directories(run)[k]),
{
    let n = run.requests.len() as int;
    let front = run.front();
    let view = run.views[n - 1];
    lemma_front(run);
    assert(front.views[0] == run.views[0]);
    assert(view.steps(run.answers[n - 1], run.views[n], run.requests[n - 1]));
    let begin = lemma_run(front);
    assert(view.phase is Closing);
    assert(extracted_directories(run) =~= extracted_directories(front));
    let list = extracted_directories(front);
    let events = restore_events(front);
    law_directories_get_what_is_restored(begin, events);
    assert(begin.list.contains(list[k]));
    let j = choose|j: int| 0 <= j < begin.list.len() && begin.list[j] == list[k];
    assert(was_served(begin.facts, events, j, begin.list[j]));
    lemma_was_restored(run);
    assert forall|ask: RestoreAsk| was_asked(events, j, ask) implies #[trigger] was_restored(
        run,
        list[k],
        ask,
    ) by {
        let i = choose|i: int|
            0 <= i < events.len() && (#[trigger] events[i]).directory == j && events[i].ask == ask;
        assert(was_restored(front, begin.list[events[i].directory], events[i].ask));
    }
}

/// What is asked of a directory at the end of an extraction is only what the
/// options say is to be restored, and is what its last member says.
pub proof fn law_nothing_else_is_restored(run: Run, i: int, ask: RestoreAsk)
    requires
        run.happens(),
        run.views[0].phase is Start,
        run.views[0].unpacker.deferred == Seq::<DeferredView>::empty(),
        0 <= i < run.requests.len(),
        run.requests[i] == Request::Restore(ask),
    ensures
        run.views[i + 1].phase matches PhaseView::Directories(tasks) && has_task(tasks)
            && fits_directory(
            restore_facts(run.views[0].unpacker),
            tasks.list[tasks.at],
            ask,
        ),
    decreases run.requests.len(),
{
    let n = run.requests.len() as int;
    if i < n - 1 {
        lemma_front(run);
        let front = run.front();
        assert(front.views[0] == run.views[0]);
        assert(front.requests[i] == run.requests[i]);
        assert(front.views[i + 1] == run.views[i + 1]);
        law_nothing_else_is_restored(front, i, ask);
    } else {
        let begin = lemma_run(run);
        lemma_restores_only_then(run);
        law_directories_get_what_is_restored(begin, restore_events(run));
        lemma_restored_keeps(begin, restore_events(run));
    }
}

/// Something is asked of a directory only while metadata is restored.
proof fn lemma_restores_only_then(run: Run)
    requires
        run.happens(),
        run.requests.len() > 0,
        run.requests.last() is Restore,
        run.views[0].phase is Start,
        run.views[0].unpacker.deferred == Seq::<DeferredView>::empty(),
    ensures
        run.views.last().phase is Directories,
{
    let n = run.requests.len() as int;
    let front = run.front();
    let (view, then) = (run.views[n - 1], run.views[n]);
    let (answer, request) = (run.answers[n - 1], run.requests[n - 1]);
    lemma_front(run);
    assert(front.views[0] == run.views[0]);
    assert(view.steps(answer, then, request));
    let begin = lemma_run(front);
    match view.phase {
        PhaseView::Start => {
            lemma_next_fine(UnpackingView { phase: PhaseView::Over, ..view }, then, request);
        },
        PhaseView::Entry(_, _, _) => {
            lemma_entry_step(view, answer, then, request);
        },
        _ => {},
    }
}

} // verus!
