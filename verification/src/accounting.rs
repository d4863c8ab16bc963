//! The summary of an extraction accounts for every entry.

use vstd::prelude::*;

use crate::archive::{finds, Entry, EntryView};
use crate::error::Error;
use crate::extract::{ask_of, Answer, Turn};
use crate::iteration::{lemma_one_more, read_members};
use crate::layout::lemma_prefix_of_itself;
use crate::member::{next_member, Member, ParserView};
use crate::reader::lemma_prefix_of_prefix;
use crate::unpack::{
    accounted, consumes, fills_in_step, job_after, job_of, law_new_job_fills_in_step,
    law_no_entry_is_silently_dropped, noted, put_off, turn_of, verdict_of, EntryInfo, JobView,
    SummaryView, UnpackSummary, UnpackerView,
};
use crate::unpacking::{PhaseView, Request, UnpackingView};

verus! {

/// How many entries are being extracted.
pub open spec fn at_hand(view: UnpackingView) -> int {
    if view.phase is Entry {
        1
    } else {
        0
    }
}

/// What these requests announce, in order.
pub open spec fn announced(requests: Seq<Request>) -> Seq<EntryInfo>
    decreases requests.len(),
{
    if requests.len() == 0 {
        Seq::empty()
    } else {
        let before = announced(requests.drop_last());
        match requests.last() {
            Request::Announce(info) => before.push(info),
            _ => before,
        }
    }
}

/// Whether an announcement says what an archive says of a member.
pub open spec fn tells(info: EntryInfo, member: Member) -> bool {
    &&& info.path@ == member.header.path
    &&& info.entry_type == member.kind
    &&& info.size == member.logical_size
    &&& info.sparse == member.sparse is Some
}

/// Extraction never comes back to the announcement of its entry.
proof fn lemma_announced_once()
    ensures
        forall|job: JobView, answer: Answer|
            !((#[trigger] job_after(job, answer)).stage is Announcing),
{
}

/// The next entry is announced, and then is at hand, or there is none.
proof fn lemma_turns_to_next(view: UnpackingView, after: UnpackingView, request: Request)
    requires
        view.turns_to_next(after, request),
        view.phase is Over,
        !(request is End),
    ensures
        after.summary == view.summary,
        at_hand(after) == if request is Announce {
            1int
        } else {
            0
        },
{
}

/// An entry whose extraction goes on stays at hand.
proof fn lemma_goes_on(
    view: UnpackingView,
    entry: EntryView,
    job: JobView,
    after: UnpackingView,
    request: Request,
)
    requires
        view.asks(entry, job, after, request),
        !(job.stage is Announcing),
        !(request is End),
    ensures
        after.summary == view.summary,
        after.phase is Entry,
        !(request is Announce),
{
    lemma_announced_once();
}

/// Every entry that was announced is at hand or in the summary, from step to
/// step, until extraction ends.
pub proof fn law_announced_entries_are_accounted_for(
    view: UnpackingView,
    answer: Answer,
    after: UnpackingView,
    request: Request,
)
    requires
        view.steps(answer, after, request),
        !(request is End),
        accounted(view.summary) < u64::MAX,
    ensures
        accounted(after.summary) + at_hand(after) == accounted(view.summary) + at_hand(view) + (
        if request is Announce {
            1int
        } else {
            0
        }),
{
    lemma_announced_once();
    let rest = UnpackingView { phase: PhaseView::Over, ..view };
    match view.phase {
        PhaseView::Start => {
            lemma_turns_to_next(rest, after, request);
        },
        PhaseView::Entry(entry, job, wrote) => {
            if rest.takes_answer(entry, job, answer, after, request) {
                let turn = turn_of(job, answer);
                let then = UnpackingView {
                    unpacker: UnpackerView {
                        deferred: rest.unpacker.deferred + put_off(job, answer),
                        ..rest.unpacker
                    },
                    ..rest
                };
                match turn {
                    Turn::Go(_) => {
                        lemma_goes_on(
                            then,
                            EntryView {
                                started: entry.started || consumes(turn),
                                ..entry
                            },
                            job_after(job, answer),
                            after,
                            request,
                        );
                    },
                    Turn::Stop(end) => {
                        if let Ok(skipped) = verdict_of(end, noted(job, answer)) {
                            law_no_entry_is_silently_dropped(
                                view.summary,
                                job.facts,
                                job.path,
                                skipped,
                            );
                            lemma_turns_to_next(
                                UnpackingView {
                                    summary: view.summary.plus(
                                        SummaryView::nothing().with(job.facts, job.path, skipped),
                                    ),
                                    ..then
                                },
                                after,
                                request,
                            );
                        }
                    },
                }
            }
        },
        _ => {},
    }
}

/// The extraction of an archive, step by step.
pub struct Run {
    /// The extraction before the first step and after each.
    pub views: Seq<UnpackingView>,
    /// What was answered in each step.
    pub answers: Seq<Answer>,
    /// What was asked in each step.
    pub requests: Seq<Request>,
}

impl Run {
    /// Whether every step is one of the extraction, and none before the last
    /// ends it.
    pub open spec fn happens(self) -> bool {
        let n = self.requests.len();
        &&& self.views.len() == n + 1
        &&& self.answers.len() == n
        &&& forall|i: int|
            0 <= i < n ==> (#[trigger] self.views[i]).steps(
                self.answers[i],
                self.views[i + 1],
                self.requests[i],
            )
        &&& forall|i: int| 0 <= i < n - 1 ==> !(#[trigger] self.requests[i] is End)
    }

    /// The run without its last step.
    pub open spec fn front(self) -> Run {
        Run {
            views: self.views.drop_last(),
            answers: self.answers.drop_last(),
            requests: self.requests.drop_last(),
        }
    }
}

/// A run without its last step is one.
proof fn lemma_front_happens(run: Run)
    requires
        run.happens(),
        run.requests.len() > 0,
    ensures
        run.front().happens(),
        run.front().requests.len() > 0 ==> !(run.front().requests.last() is End),
{
    let n = run.requests.len() as int;
    let front = run.front();
    assert forall|i: int| 0 <= i < n - 1 implies (#[trigger] front.views[i]).steps(
        front.answers[i],
        front.views[i + 1],
        front.requests[i],
    ) by {
        assert(front.views[i] == run.views[i]);
    }
    assert forall|i: int| 0 <= i < n - 1 implies !(#[trigger] front.requests[i] is End) by {
        assert(front.requests[i] == run.requests[i]);
    }
}

/// At any time of a run, the entries that were announced are those in the summary
/// and the one at hand.
proof fn lemma_run(run: Run)
    requires
        run.happens(),
        run.requests.len() > 0 ==> !(run.requests.last() is End),
        run.requests.len() < u64::MAX,
        run.views[0].phase is Start,
        run.views[0].summary == SummaryView::nothing(),
    ensures
        accounted(run.views.last().summary) + at_hand(run.views.last()) == announced(
            run.requests,
        ).len(),
        announced(run.requests).len() <= run.requests.len(),
    decreases run.requests.len(),
{
    let n = run.requests.len() as int;
    if n > 0 {
        let front = run.front();
        lemma_front_happens(run);
        lemma_run(front);
        let view = run.views[n - 1];
        assert(view.steps(run.answers[n - 1], run.views[n], run.requests[n - 1]));
        law_announced_entries_are_accounted_for(
            view,
            run.answers[n - 1],
            run.views[n],
            run.requests[n - 1],
        );
    }
}

/// Whether the iteration over an archive ended where it was read as these
/// members.
pub open spec fn has_ended(q: ParserView, end: int, read: Seq<u8>, s: Seq<u8>) -> bool {
    next_member(q, read, end) is AtEnd || next_member(q, s, end) is End
}

/// Whether what was announced so far are the members of an archive, from a place
/// in the stream `s` on, and extraction stands after them.
pub open spec fn told_members(
    view: UnpackingView,
    s: Seq<u8>,
    at: int,
    told: Seq<EntryInfo>,
) -> bool {
    match read_members(ParserView::start(), s, at, told.len()) {
        Some((list, q, end)) => {
            &&& list.len() == told.len()
            &&& forall|i: int| 0 <= i < told.len() ==> tells(#[trigger] told[i], list[i].0)
            &&& match view.phase {
                PhaseView::Start => q == view.parser && end == view.archive.next_at(),
                PhaseView::Entry(entry, job, _) => {
                    &&& q == view.parser
                    &&& end == view.archive.next_at()
                    &&& fills_in_step(job, entry, view.archive)
                    &&& list.len() > 0
                    &&& entry.member == list.last().0
                },
                _ => has_ended(q, end, view.archive.delivered, s),
            }
        },
        None => false,
    }
}

/// What is announced after a step.
pub open spec fn told_then(told: Seq<EntryInfo>, request: Request) -> Seq<EntryInfo> {
    match request {
        Request::Announce(info) => told.push(info),
        _ => told,
    }
}

/// The next entry that is announced is the next member of the archive.
proof fn lemma_next_is_told(
    view: UnpackingView,
    after: UnpackingView,
    request: Request,
    s: Seq<u8>,
    at: int,
    told: Seq<EntryInfo>,
)
    requires
        view.turns_to_next(after, request),
        view.phase is Over,
        !(request is End),
        told_members(
            (UnpackingView { phase: PhaseView::Start, ..view }),
            s,
            at,
            told,
        ),
        after.archive.delivered.is_prefix_of(s),
    ensures
        told_members(after, s, at, told_then(told, request)),
{
    let p = view.parser;
    let from = view.archive.next_at();
    let outcome = choose|outcome: Result<Option<Entry>, Error>| #[trigger]
        finds(p, view.archive, outcome, after.parser, after.archive) && view.next_leads(
            outcome,
            after,
            request,
        );
    let next = |t: Seq<u8>| next_member(p, t, from);
    assert(next(s) == next_member(p, s, from));
    assert(next(after.archive.delivered) == next_member(p, after.archive.delivered, from));
    lemma_prefix_of_itself(after.archive.delivered);
    if let Ok(Some(entry)) = outcome {
        let start = after.archive.delivered.len() as int;
        let member = entry@.member;
        lemma_one_more(ParserView::start(), s, at, told.len());
        law_new_job_fills_in_step(
            job_of(member, view.unpacker.options, view.unpacker.platform),
            entry@,
            after.archive,
        );
        assert(request is Announce);
    }
}

/// Extraction ends well only once nothing is at hand, with the summary it has.
proof fn lemma_ends_well(
    view: UnpackingView,
    answer: Answer,
    after: UnpackingView,
    summary: UnpackSummary,
)
    requires
        view.steps(answer, after, Request::End(Ok::<UnpackSummary, Error>(summary))),
    ensures
        view.phase is Closing,
        summary@ == view.summary,
        after.archive == view.archive,
{
}

/// While an entry gets its contents, the archive stays at it.
proof fn lemma_fills_told(
    view: UnpackingView,
    entry: EntryView,
    job: JobView,
    after: UnpackingView,
    request: Request,
    s: Seq<u8>,
    at: int,
    told: Seq<EntryInfo>,
)
    requires
        view.fills(entry, job, after, request),
        !(request is End),
        told_members(
            (UnpackingView { phase: PhaseView::Entry(entry, job, false), ..view }),
            s,
            at,
            told,
        ),
    ensures
        told_members(after, s, at, told_then(told, request)),
{
    lemma_announced_once();
}

/// While an entry is extracted, the archive stays at it.
proof fn lemma_asks_told(
    view: UnpackingView,
    entry: EntryView,
    job: JobView,
    after: UnpackingView,
    request: Request,
    s: Seq<u8>,
    at: int,
    told: Seq<EntryInfo>,
)
    requires
        view.asks(entry, job, after, request),
        !(request is End),
        !(job.stage is Announcing),
        told_members(
            (UnpackingView { phase: PhaseView::Entry(entry, job, false), ..view }),
            s,
            at,
            told,
        ),
    ensures
        told_members(after, s, at, told_then(told, request)),
{
    if ask_of(job.facts, job.stage) is Fill {
        lemma_fills_told(view, entry, job, after, request, s, at, told);
    }
}

/// What is announced are the members of the archive, from step to step.
proof fn lemma_step_told(
    view: UnpackingView,
    answer: Answer,
    after: UnpackingView,
    request: Request,
    s: Seq<u8>,
    at: int,
    told: Seq<EntryInfo>,
)
    requires
        view.steps(answer, after, request),
        !(request is End),
        told_members(view, s, at, told),
        after.archive.delivered.is_prefix_of(s),
    ensures
        told_members(after, s, at, told_then(told, request)),
{
    lemma_announced_once();
    let rest = UnpackingView { phase: PhaseView::Over, ..view };
    match view.phase {
        PhaseView::Start => {
            lemma_next_is_told(rest, after, request, s, at, told);
        },
        PhaseView::Entry(entry, job, wrote) => {
            if rest.takes_answer(entry, job, answer, after, request) {
                let turn = turn_of(job, answer);
                let then = UnpackingView {
                    unpacker: UnpackerView {
                        deferred: rest.unpacker.deferred + put_off(job, answer),
                        ..rest.unpacker
                    },
                    ..rest
                };
                match turn {
                    Turn::Go(_) => {
                        let entry_then = EntryView {
                            started: entry.started || consumes(turn),
                            ..entry
                        };
                        let job_then = job_after(job, answer);
                        assert(fills_in_step(job_then, entry_then, view.archive));
                        lemma_asks_told(
                            then,
                            entry_then,
                            job_then,
                            after,
                            request,
                            s,
                            at,
                            told,
                        );
                    },
                    Turn::Stop(end) => {
                        if let Ok(skipped) = verdict_of(end, noted(job, answer)) {
                            let summary = view.summary.plus(
                                SummaryView::nothing().with(job.facts, job.path, skipped),
                            );
                            lemma_next_is_told(
                                UnpackingView { summary, ..then },
                                after,
                                request,
                                s,
                                at,
                                told,
                            );
                        }
                    },
                }
            } else if rest.fills(entry, job, after, request) {
                lemma_fills_told(rest, entry, job, after, request, s, at, told);
            }
        },
        _ => {},
    }
}

/// No step loses anything that was read.
proof fn lemma_step_reads_on(
    view: UnpackingView,
    answer: Answer,
    after: UnpackingView,
    request: Request,
)
    requires
        view.steps(answer, after, request),
    ensures
        view.archive.reads_on(after.archive),
{
    lemma_prefix_of_itself(view.archive.delivered);
}

/// No step counts more sparse files than files.
proof fn lemma_step_sparse(
    view: UnpackingView,
    answer: Answer,
    after: UnpackingView,
    request: Request,
)
    requires
        view.steps(answer, after, request),
        view.summary.sparse_files <= view.summary.files,
    ensures
        after.summary.sparse_files <= after.summary.files,
{
}

/// At any time of a run, what was announced are the members of the archive.
proof fn lemma_run_told(run: Run, s: Seq<u8>)
    requires
        run.happens(),
        run.requests.len() > 0 ==> !(run.requests.last() is End),
        run.views[0].phase is Start,
        run.views[0].parser == ParserView::start(),
        run.views[0].summary == SummaryView::nothing(),
        run.views.last().archive.delivered.is_prefix_of(s),
    ensures
        told_members(
            run.views.last(),
            s,
            run.views[0].archive.next_at(),
            announced(run.requests),
        ),
        run.views.last().summary.sparse_files <= run.views.last().summary.files,
    decreases run.requests.len(),
{
    let n = run.requests.len() as int;
    if n > 0 {
        let (view, after) = (run.views[n - 1], run.views[n]);
        let (answer, request) = (run.answers[n - 1], run.requests[n - 1]);
        let at = run.views[0].archive.next_at();
        assert(view.steps(answer, after, request));
        lemma_front_happens(run);
        lemma_step_reads_on(view, answer, after, request);
        lemma_prefix_of_prefix(view.archive.delivered, after.archive.delivered, s);
        lemma_run_told(run.front(), s);
        lemma_step_told(view, answer, after, request, s, at, announced(run.front().requests));
        lemma_step_sparse(view, answer, after, request);
    }
}

/// Nothing is silently dropped: when the extraction of an archive ends well, all
/// members of the archive were announced, each with what the archive says of it
/// and in the order of the archive, the archive has no more, and the summary
/// accounts for each as extracted or skipped. No more files are sparse than there
/// are files. Here `s` is any stream that begins with all that was read.
pub proof fn law_summary_accounts_for_all_members(run: Run, s: Seq<u8>, summary: UnpackSummary)
    requires
        run.happens(),
        run.requests.len() < u64::MAX,
        run.views[0].phase is Start,
        run.views[0].parser == ParserView::start(),
        run.views[0].summary == SummaryView::nothing(),
        run.views.last().archive.delivered.is_prefix_of(s),
        run.requests.len() > 0,
        run.requests.last() == Request::End(Ok::<UnpackSummary, Error>(summary)),
    ensures
        ({
            let told = announced(run.requests);
            let at = run.views[0].archive.next_at();
            &&& read_members(ParserView::start(), s, at, told.len()) matches Some((list, q, end))
            &&& list.len() == told.len()
            &&& forall|i: int| 0 <= i < told.len() ==> tells(#[trigger] told[i], list[i].0)
            &&& has_ended(q, end, run.views.last().archive.delivered, s)
        }),
        accounted(summary@) == announced(run.requests).len(),
        summary.sparse_files <= summary.files,
{
    let n = run.requests.len() as int;
    let front = run.front();
    let view = run.views[n - 1];
    assert(view.steps(run.answers[n - 1], run.views[n], run.requests[n - 1]));
    lemma_front_happens(run);
    lemma_run(front);
    lemma_ends_well(view, run.answers[n - 1], run.views[n], summary);
    lemma_run_told(front, s);
}

/// The entry at hand, at any time of the extraction of an archive, is the last of
/// the members that the archive holds up to there, in all that the archive says
/// of it. Here `s` is any stream that begins with all that was read.
pub proof fn law_the_entry_at_hand_is_the_next_member(run: Run, s: Seq<u8>)
    requires
        run.happens(),
        run.requests.len() > 0 ==> !(run.requests.last() is End),
        run.views[0].phase is Start,
        run.views[0].parser == ParserView::start(),
        run.views[0].summary == SummaryView::nothing(),
        run.views.last().archive.delivered.is_prefix_of(s),
    ensures
        run.views.last().phase matches PhaseView::Entry(entry, _, _) ==> (read_members(
            ParserView::start(),
            s,
            run.views[0].archive.next_at(),
            announced(run.requests).len(),
        ) matches Some((list, _, _)) && list.len() > 0 && entry.member == list.last().0),
{
    lemma_run_told(run, s);
}

} // verus!
