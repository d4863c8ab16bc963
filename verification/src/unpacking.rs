//! Extracting a whole archive.

use vstd::prelude::*;

use crate::archive::{finds, item_outcome, Archive, Entries, Entry, EntryView};
use crate::deferred::{
    first_stage, has_task, restore_ask, restore_error, serves, tasks_after, DirectoryTasks,
    RestoreAsk, TasksView,
};
use crate::error::{Error, Fault};
use crate::extract::{ask_of, Answer, Ask, FileKind, Turn};
use crate::layout::lemma_prefix_of_itself;
use crate::member::ParserView;
use crate::path::Platform;
use crate::reader::{counted, Input, ReaderView};
use crate::unpack::{
    consumes, destination_fault, fills_in_step, job_after, job_is_beneath, job_of,
    law_new_job_fills_in_step, noted, piece_step, put_off, restore_facts, suffix_fault, turn_of,
    verdict_of, EntryInfo, EntryJob, EntryUnpacker, JobView, Piece, Progress, ProgressReporter,
    SummaryView, UnpackOptions, UnpackSummary, UnpackerView,
};

verus! {

/// What the extraction of an archive asks to be done.
#[derive(Debug)]
pub enum Request {
    /// Tell the caller of an entry.
    Announce(EntryInfo),
    /// Tell the caller how far the input was read.
    Report(Progress),
    /// Do this for the entry at hand.
    Entry(Ask),
    /// Write this to the open file.
    Write(Piece),
    /// Do this to the directory at hand.
    Restore(RestoreAsk),
    /// Nothing any more: extraction came to this.
    End(Result<UnpackSummary, Error>),
}

/// How far the extraction of an archive is.
enum Phase {
    Start,
    Entry(Entry, EntryJob, bool),
    Directories(DirectoryTasks),
    Closing,
    Over,
}

/// How far the extraction of an archive is.
pub enum PhaseView {
    /// Nothing was done yet.
    Start,
    /// An entry is extracted. Whether a piece of it was just written.
    Entry(EntryView, JobView, bool),
    /// The metadata of directories is restored.
    Directories(TasksView),
    /// The last progress is reported.
    Closing,
    /// It is over.
    Over,
}

/// The extraction of an archive.
pub struct Unpacking<R: Input> {
    archive: Archive<R>,
    entries: Entries,
    unpacker: EntryUnpacker,
    reporter: ProgressReporter,
    summary: UnpackSummary,
    phase: Phase,
}

/// What is known of the extraction of an archive.
pub struct UnpackingView {
    /// The archive.
    pub archive: ReaderView,
    /// What is remembered between its entries.
    pub parser: ParserView,
    /// The extractor.
    pub unpacker: UnpackerView,
    /// What was reported last.
    pub reported: u64,
    /// What was extracted and skipped.
    pub summary: SummaryView,
    /// How far it is.
    pub phase: PhaseView,
}

impl<R: Input> View for Unpacking<R> {
    type V = UnpackingView;

    closed spec fn view(&self) -> UnpackingView {
        UnpackingView {
            archive: self.archive@,
            parser: self.entries@,
            unpacker: self.unpacker@,
            reported: self.reporter@,
            summary: self.summary@,
            phase: match self.phase {
                Phase::Start => PhaseView::Start,
                Phase::Entry(entry, job, wrote) => PhaseView::Entry(entry@, job@, wrote),
                Phase::Directories(tasks) => PhaseView::Directories(tasks@),
                Phase::Closing => PhaseView::Closing,
                Phase::Over => PhaseView::Over,
            },
        }
    }
}

impl UnpackingView {
    /// The extraction of an archive before anything was done.
    pub open spec fn begin(
        archive: ReaderView,
        options: UnpackOptions,
        platform: Platform,
    ) -> UnpackingView {
        UnpackingView {
            archive,
            parser: ParserView::start(),
            unpacker: UnpackerView { options, platform, deferred: Seq::empty() },
            reported: 0,
            summary: SummaryView::nothing(),
            phase: PhaseView::Start,
        }
    }

    /// Extraction over, with this error.
    pub open spec fn ends_with(self, error: Error, after: UnpackingView, request: Request) -> bool {
        &&& request == Request::End(Err::<UnpackSummary, Error>(error))
        &&& after == (UnpackingView { phase: PhaseView::Over, ..self })
    }

    /// An entry at hand asks for something other than its contents.
    pub open spec fn asks_plainly(
        self,
        entry: EntryView,
        job: JobView,
        after: UnpackingView,
        request: Request,
    ) -> bool {
        let now = counted(self.archive.delivered);
        let then = UnpackingView { phase: PhaseView::Entry(entry, job, false), ..self };
        match ask_of(job.facts, job.stage) {
            Ask::Announce => {
                &&& request matches Request::Announce(info)
                &&& info.path@ == job.path
                &&& info.entry_type == job.facts.kind
                &&& info.size == job.facts.size
                &&& info.sparse == job.facts.sparse
                &&& after == then
            },
            Ask::Report => {
                &&& request == Request::Report(Progress { bytes_read: now })
                &&& after == (UnpackingView { reported: now, ..then })
            },
            asked => {
                &&& request == Request::Entry(asked)
                &&& after == then
            },
        }
    }

    /// An entry at hand needs the next piece of its contents: the piece is
    /// written, or the input fails, or the contents are complete.
    pub open spec fn fills(
        self,
        entry: EntryView,
        job: JobView,
        after: UnpackingView,
        request: Request,
    ) -> bool {
        exists|piece: Result<Option<Piece>, Error>, entry_then: EntryView, job_then: JobView|
            #[trigger] piece_step(
                job,
                entry,
                self.archive,
                piece,
                job_then,
                entry_then,
                after.archive,
            ) && {
                let then = UnpackingView { archive: after.archive, ..self };
                match piece {
                    Err(error) => then.ends_with(error, after, request),
                    Ok(Some(found)) => {
                        &&& request == Request::Write(found)
                        &&& after == (UnpackingView {
                            phase: PhaseView::Entry(entry_then, job_then, true),
                            ..then
                        })
                    },
                    Ok(None) => then.asks_plainly(
                        EntryView {
                            started: entry_then.started || consumes(
                                turn_of(job_then, Answer::Done),
                            ),
                            ..entry_then
                        },
                        job_after(job_then, Answer::Done),
                        after,
                        request,
                    ),
                }
            }
    }

    /// An entry at hand asks for something.
    pub open spec fn asks(
        self,
        entry: EntryView,
        job: JobView,
        after: UnpackingView,
        request: Request,
    ) -> bool {
        if ask_of(job.facts, job.stage) is Fill {
            self.fills(entry, job, after, request)
        } else {
            self.asks_plainly(entry, job, after, request)
        }
    }

    /// The restoring of metadata asks for something, or is complete.
    pub open spec fn asks_for_directory(
        self,
        tasks: TasksView,
        after: UnpackingView,
        request: Request,
    ) -> bool {
        if has_task(tasks) {
            &&& request == Request::Restore(restore_ask(tasks.list[tasks.at], tasks.stage))
            &&& after == (UnpackingView { phase: PhaseView::Directories(tasks), ..self })
        } else {
            let now = counted(self.archive.delivered);
            &&& request == Request::Report(Progress { bytes_read: now })
            &&& after == (UnpackingView { reported: now, phase: PhaseView::Closing, ..self })
        }
    }

    /// All entries were extracted: the metadata of directories is restored, the
    /// latest for each path, the deepest directories first.
    pub open spec fn turns_to_directories(self, after: UnpackingView, request: Request) -> bool {
        exists|tasks: TasksView|
            {
                &&& tasks.facts == restore_facts(self.unpacker)
                &&& serves(self.unpacker.deferred, tasks.list)
                &&& match first_stage(tasks.facts) {
                    Some(first) => tasks.at == 0 && tasks.stage == first,
                    None => tasks.at == tasks.list.len(),
                }
                &&& #[trigger] (UnpackingView {
                    unpacker: UnpackerView { deferred: Seq::empty(), ..self.unpacker },
                    ..self
                }).asks_for_directory(tasks, after, request)
            }
    }

    /// An entry of the archive was found and is announced, or there is none, or
    /// it or the archive is refused.
    pub open spec fn next_leads(
        self,
        outcome: Result<Option<Entry>, Error>,
        after: UnpackingView,
        request: Request,
    ) -> bool {
        let then = UnpackingView { archive: after.archive, parser: after.parser, ..self };
        match outcome {
            Err(error) => then.ends_with(error, after, request),
            Ok(None) => then.turns_to_directories(after, request),
            Ok(Some(entry)) => match suffix_fault(entry@.member, self.unpacker.platform) {
                Some(fault) => then.ends_with(Error::Tar(fault), after, request),
                None => {
                    let job = job_of(
                        entry@.member,
                        self.unpacker.options,
                        self.unpacker.platform,
                    );
                    job_is_beneath(job) && then.asks_plainly(entry@, job, after, request)
                },
            },
        }
    }

    /// The next entry of the archive is looked for.
    pub open spec fn turns_to_next(self, after: UnpackingView, request: Request) -> bool {
        exists|outcome: Result<Option<Entry>, Error>| #[trigger]
            finds(self.parser, self.archive, outcome, after.parser, after.archive)
                && self.next_leads(outcome, after, request)
    }

    /// What was asked for an entry was answered: the extraction of the entry
    /// goes on, or it came to something and the next entry follows, or it
    /// failed and so did that of the archive.
    pub open spec fn takes_answer(
        self,
        entry: EntryView,
        job: JobView,
        answer: Answer,
        after: UnpackingView,
        request: Request,
    ) -> bool {
        let turn = turn_of(job, answer);
        let then = UnpackingView {
            unpacker: UnpackerView {
                deferred: self.unpacker.deferred + put_off(job, answer),
                ..self.unpacker
            },
            ..self
        };
        match turn {
            Turn::Go(_) => then.asks(
                EntryView { started: entry.started || consumes(turn), ..entry },
                job_after(job, answer),
                after,
                request,
            ),
            Turn::Stop(end) => match verdict_of(end, noted(job, answer)) {
                Err(error) => then.ends_with(error, after, request),
                Ok(skipped) => (UnpackingView {
                    summary: self.summary.plus(
                        SummaryView::nothing().with(job.facts, job.path, skipped),
                    ),
                    ..then
                }).turns_to_next(after, request),
            },
        }
    }

    /// The extraction of an archive after an answer, and what it asks next.
    pub open spec fn steps(self, answer: Answer, after: UnpackingView, request: Request) -> bool {
        let now = counted(self.archive.delivered);
        let rest = UnpackingView { phase: PhaseView::Over, ..self };
        match self.phase {
            PhaseView::Start => rest.turns_to_next(after, request),
            PhaseView::Entry(entry, job, wrote) => if !(job.stage is FillingFile) || (wrote
                && !(answer is Done)) {
                rest.takes_answer(entry, job, answer, after, request)
            } else if wrote && now - self.reported >= 64 * 1024 {
                &&& request == Request::Report(Progress { bytes_read: now })
                &&& after == (UnpackingView {
                    reported: now,
                    phase: PhaseView::Entry(entry, job, false),
                    ..self
                })
            } else {
                rest.fills(entry, job, after, request)
            },
            PhaseView::Directories(tasks) => if !has_task(tasks) {
                rest.asks_for_directory(tasks, after, request)
            } else {
                match restore_error(tasks.list[tasks.at], tasks.stage, answer) {
                    Some(error) => rest.ends_with(error, after, request),
                    None => rest.asks_for_directory(tasks_after(tasks), after, request),
                }
            },
            PhaseView::Closing => {
                &&& request matches Request::End(Ok(summary))
                &&& summary@ == self.summary
                &&& after == (UnpackingView {
                    summary: SummaryView::nothing(),
                    phase: PhaseView::Over,
                    ..self
                })
            },
            PhaseView::Over => rest.ends_with(
                Error::Tar(Fault::UnexpectedAnswer),
                after,
                request,
            ),
        }
    }
}

impl<R: Input> Archive<R> {
    /// Begins the secure extraction of this archive to a destination that
    /// exists, given what stands there. Only a directory is one, and no symbolic
    /// link.
    pub fn unpack(
        self,
        destination: FileKind,
        options: UnpackOptions,
        platform: Platform,
    ) -> (found: Result<Unpacking<R>, Error>)
        requires
            self.well_formed(),
        ensures
            match destination_fault(destination) {
                Some(fault) => found == Err::<Unpacking<R>, Error>(Error::Tar(fault)),
                None => found matches Ok(unpacking) && unpacking.well_formed() && unpacking@
                    == UnpackingView::begin(self@, options, platform),
            },
    {
        let entries = self.entries()?;
        let unpacker = EntryUnpacker::new(destination, options, platform)?;
        Ok(
            Unpacking {
                archive: self,
                entries,
                unpacker,
                reporter: ProgressReporter::new(),
                summary: UnpackSummary::default(),
                phase: Phase::Start,
            },
        )
    }
}

impl<R: Input> Unpacking<R> {
    /// All parts are well-formed, and the archive has more entries while
    /// entries are extracted.
    pub closed spec fn well_formed(&self) -> bool {
        &&& self.archive.well_formed()
        &&& self.entries.well_formed()
        &&& match self.phase {
            Phase::Start => !self.entries.done(),
            Phase::Entry(entry, job, _) => {
                &&& !self.entries.done()
                &&& entry.well_formed()
                &&& job.well_formed()
                &&& fills_in_step(job@, entry@, self.archive@)
            },
            Phase::Directories(tasks) => tasks.well_formed(),
            _ => true,
        }
    }

    /// Whatever is asked to be written for an entry is its contents at that
    /// place: while an entry is extracted, the archive stands where the writing
    /// of its contents is.
    pub proof fn law_what_is_written_are_the_contents(&self)
        requires
            self.well_formed(),
        ensures
            self@.phase matches PhaseView::Entry(entry, job, _) ==> fills_in_step(
                job,
                entry,
                self@.archive,
            ),
    {
    }

    /// Returns cumulative raw bytes consumed from the underlying stream.
    pub fn bytes_read(&self) -> (count: u64)
        requires
            self.well_formed(),
        ensures
            count == counted(self@.archive.delivered),
    {
        self.archive.bytes_read()
    }

    /// The extraction of the entry at hand.
    pub fn job(&self) -> (job: Option<&EntryJob>)
        requires
            self.well_formed(),
        ensures
            match job {
                Some(found) => found.well_formed() && (self@.phase matches PhaseView::Entry(
                    _,
                    view,
                    _,
                ) && found@ == view),
                None => !(self@.phase is Entry),
            },
    {
        match &self.phase {
            Phase::Entry(_, job, _) => Some(job),
            _ => None,
        }
    }

    /// The restoring of metadata.
    pub fn tasks(&self) -> (tasks: Option<&DirectoryTasks>)
        requires
            self.well_formed(),
        ensures
            match tasks {
                Some(found) => found.well_formed() && self@.phase == PhaseView::Directories(
                    found@,
                ),
                None => !(self@.phase is Directories),
            },
    {
        match &self.phase {
            Phase::Directories(tasks) => Some(tasks),
            _ => None,
        }
    }

    /// Ends with an error.
    fn end(&mut self, error: Error) -> (request: Request)
        requires
            old(self).well_formed(),
            old(self)@.phase is Over,
        ensures
            final(self).well_formed(),
            old(self)@.ends_with(error, final(self)@, request),
    {
        Request::End(Err(error))
    }

    /// Asks for something other than contents for an entry.
    fn ask_plainly(&mut self, entry: Entry, job: EntryJob) -> (request: Request)
        requires
            old(self).well_formed(),
            !old(self).is_done(),
            entry.well_formed(),
            job.well_formed(),
            fills_in_step(job@, entry@, old(self)@.archive),
        ensures
            final(self).well_formed(),
            old(self)@.asks_plainly(entry@, job@, final(self)@, request),
    {
        let request = match job.ask() {
            Ask::Announce => Request::Announce(job.info()),
            Ask::Report => Request::Report(self.reporter.boundary(self.archive.bytes_read())),
            asked => Request::Entry(asked),
        };
        self.phase = Phase::Entry(entry, job, false);
        request
    }

    /// Whether the archive has no more entries.
    closed spec fn is_done(&self) -> bool {
        self.entries.done()
    }

    /// Asks for the next piece of the contents to be written, or goes on once
    /// they are complete.
    fn fill(&mut self, entry: Entry, job: EntryJob) -> (request: Request)
        requires
            old(self).well_formed(),
            !old(self).is_done(),
            old(self)@.phase is Over,
            entry.well_formed(),
            job.well_formed(),
            job@.stage is FillingFile,
            fills_in_step(job@, entry@, old(self)@.archive),
        ensures
            final(self).well_formed(),
            old(self)@.fills(entry@, job@, final(self)@, request),
    {
        let ghost before = self@;
        let ghost entry_view = entry@;
        let ghost job_view = job@;
        let mut entry = entry;
        let mut job = job;
        let piece = job.next_piece(&mut entry, &mut self.archive);
        let ghost entry_then = entry@;
        let ghost job_then = job@;
        let ghost middle = self@;
        assert(piece_step(
            job_view,
            entry_view,
            before.archive,
            piece,
            job_then,
            entry_then,
            middle.archive,
        ));
        match piece {
            Err(error) => self.end(error),
            Ok(Some(found)) => {
                self.phase = Phase::Entry(entry, job, true);
                Request::Write(found)
            },
            Ok(None) => {
                let _ = self.unpacker.answer(&mut job, &mut entry, Answer::Done);
                assert(self@.unpacker.deferred =~= before.unpacker.deferred);
                self.ask_plainly(entry, job)
            },
        }
    }

    /// Asks for something for an entry.
    fn ask(&mut self, entry: Entry, job: EntryJob) -> (request: Request)
        requires
            old(self).well_formed(),
            !old(self).is_done(),
            old(self)@.phase is Over,
            entry.well_formed(),
            job.well_formed(),
            fills_in_step(job@, entry@, old(self)@.archive),
        ensures
            final(self).well_formed(),
            old(self)@.asks(entry@, job@, final(self)@, request),
    {
        if matches!(job.ask(), Ask::Fill) {
            self.fill(entry, job)
        } else {
            self.ask_plainly(entry, job)
        }
    }

    /// Asks for something for the metadata of directories, or goes on once they
    /// are all restored.
    fn ask_for_directory(&mut self, tasks: DirectoryTasks) -> (request: Request)
        requires
            old(self).well_formed(),
            tasks.well_formed(),
        ensures
            final(self).well_formed(),
            old(self)@.asks_for_directory(tasks@, final(self)@, request),
    {
        match tasks.ask() {
            Some(asked) => {
                self.phase = Phase::Directories(tasks);
                Request::Restore(asked)
            },
            None => {
                self.phase = Phase::Closing;
                Request::Report(self.reporter.boundary(self.archive.bytes_read()))
            },
        }
    }

    /// Turns to the next entry of the archive.
    fn turn_to_next(&mut self) -> (request: Request)
        requires
            old(self).well_formed(),
            !old(self).is_done(),
            old(self)@.phase is Over,
        ensures
            final(self).well_formed(),
            old(self)@.turns_to_next(final(self)@, request),
    {
        let ghost before = self@;
        let item = self.entries.next(&mut self.archive);
        let ghost middle = self@;
        let ghost outcome = item_outcome(item);
        assert(finds(before.parser, before.archive, outcome, middle.parser, middle.archive));
        match item {
            None => {
                let tasks = self.unpacker.take_tasks();
                let ghost view = tasks@;
                let request = self.ask_for_directory(tasks);
                assert((UnpackingView {
                    unpacker: UnpackerView { deferred: Seq::empty(), ..middle.unpacker },
                    ..middle
                }).asks_for_directory(view, self@, request));
                request
            },
            Some(Err(error)) => self.end(error),
            Some(Ok(entry)) => match self.unpacker.open(&entry) {
                Err(fault) => self.end(Error::Tar(fault)),
                Ok(job) => {
                    proof {
                        job.lemma_leads_beneath();
                        law_new_job_fills_in_step(job@, entry@, middle.archive);
                    }
                    self.ask_plainly(entry, job)
                },
            },
        }
    }

    /// Takes the answer to what was asked for an entry.
    fn take_answer(&mut self, entry: Entry, job: EntryJob, answer: Answer) -> (request: Request)
        requires
            old(self).well_formed(),
            !old(self).is_done(),
            old(self)@.phase is Over,
            entry.well_formed(),
            job.well_formed(),
            fills_in_step(job@, entry@, old(self)@.archive),
        ensures
            final(self).well_formed(),
            old(self)@.takes_answer(entry@, job@, answer, final(self)@, request),
    {
        let mut entry = entry;
        let mut job = job;
        match self.unpacker.answer(&mut job, &mut entry, answer) {
            None => self.ask(entry, job),
            Some(Err(error)) => self.end(error),
            Some(Ok(summary)) => {
                self.summary.add(summary);
                self.turn_to_next()
            },
        }
    }

    /// Takes the answer to what was asked, and asks for the next thing.
    pub fn step(&mut self, answer: Answer) -> (request: Request)
        requires
            old(self).well_formed(),
        ensures
            final(self).well_formed(),
            old(self)@.archive.reads_on(final(self)@.archive),
            old(self)@.steps(answer, final(self)@, request),
    {
        proof {
            lemma_prefix_of_itself(self@.archive.delivered);
        }
        let mut phase = Phase::Over;
        core::mem::swap(&mut phase, &mut self.phase);
        match phase {
            Phase::Start => self.turn_to_next(),
            Phase::Entry(entry, job, wrote) => {
                if !matches!(job.ask(), Ask::Fill) || (wrote && !matches!(answer, Answer::Done)) {
                    return self.take_answer(entry, job, answer);
                }
                if wrote {
                    if let Some(progress) = self.reporter.update(self.archive.bytes_read()) {
                        self.phase = Phase::Entry(entry, job, false);
                        return Request::Report(progress);
                    }
                }
                self.fill(entry, job)
            },
            Phase::Directories(tasks) => {
                let mut tasks = tasks;
                match tasks.answer(answer) {
                    Ok(()) => self.ask_for_directory(tasks),
                    Err(error) => self.end(error),
                }
            },
            Phase::Closing => {
                let mut summary = UnpackSummary::default();
                core::mem::swap(&mut summary, &mut self.summary);
                Request::End(Ok(summary))
            },
            Phase::Over => self.end(Error::Tar(Fault::UnexpectedAnswer)),
        }
    }
}

} // verus!
