//! Reading an archive member by member.

use vstd::prelude::*;
use vstd::slice::slice_to_vec;

use crate::bytes::{text, zeros};
use crate::error::{Error, Fault};
use crate::header::{padding, padding_of, parse_header, verify_checksum, EntryType, Header};
use crate::layout::{
    concludes, endless, lemma_prefix_of_itself, parse_old_gnu_sparse, parse_pax_sparse,
};
use crate::member::{
    after_member, all_zero, block_step, is_metadata, lemma_run, lemma_run_end, member_at,
    member_layout, metadata_at, next_member, step_at, with_long_names, with_metadata, Member, Next,
    ParserView, Step, MAX_PAX_SIZE,
};
use crate::pax::{
    apply_pax_header, effective, has_sparse_record, keys_valid, parse_pax, pax_value, records,
    trim_metadata, utf8_text, GlobalPax, PaxRecord,
};
use crate::reader::{
    counted, lemma_prefix_agrees, lemma_prefix_of_prefix, lemma_reads_on, mark, Input, LastRead,
    ReaderState, ReaderView,
};
use crate::sparse::{fits, lemma_first_open, lemma_nothing_before_start, SparseSegment};

verus! {

/// A tar archive over a non-seekable input stream.
pub struct Archive<R: Input> {
    pub(crate) state: ReaderState<R>,
}

impl<R: Input> View for Archive<R> {
    type V = ReaderView;

    closed spec fn view(&self) -> ReaderView {
        self.state@
    }
}

impl<R: Input> Archive<R> {
    /// The counters agree with what was read.
    pub closed spec fn well_formed(&self) -> bool {
        self.state.well_formed()
    }

    /// Creates an archive reader. Compression must already have been removed.
    pub fn new(reader: R) -> (archive: Self)
        ensures
            archive.well_formed(),
            archive@ == (ReaderView {
                delivered: Seq::empty(),
                stream: reader.account().rest,
                last: LastRead::Nothing,
                pending: 0,
                padding: 0,
                turns: 0,
            }),
    {
        Archive { state: ReaderState::new(reader) }
    }

    /// Returns a streaming iterator over logical archive entries. It is asked
    /// for each entry with the archive at hand. There is no error yet.
    pub fn entries(&self) -> (entries: Result<Entries, Error>)
        ensures
            entries matches Ok(found) && found.well_formed() && !found.done()
                && found@ == ParserView::start(),
    {
        Ok(
            Entries {
                done: false,
                zero_block: false,
                global: GlobalPax::new(),
                local: None,
                long_name: None,
                long_link: None,
            },
        )
    }

    /// Returns cumulative raw bytes consumed from the underlying stream.
    pub fn bytes_read(&self) -> (count: u64)
        requires
            self.well_formed(),
        ensures
            count == counted(self@.delivered),
    {
        self.state.bytes_read()
    }

    /// What was read is the front of all that will be read.
    pub proof fn lemma_delivered_in_stream(&self)
        ensures
            self@.stream matches Some(stream) ==> self@.delivered.is_prefix_of(stream),
    {
        self.state.lemma_delivered_in_stream();
    }
}

/// What is remembered between the entries of an archive.
pub struct Entries {
    done: bool,
    zero_block: bool,
    global: GlobalPax,
    local: Option<Vec<PaxRecord>>,
    long_name: Option<Vec<u8>>,
    long_link: Option<Vec<u8>>,
}

impl View for Entries {
    type V = ParserView;

    closed spec fn view(&self) -> ParserView {
        ParserView {
            zero_block: self.zero_block,
            global: self.global@,
            local: match self.local {
                Some(list) => Some(records(list@)),
                None => None,
            },
            long_name: match self.long_name {
                Some(name) => Some(name@),
                None => None,
            },
            long_link: match self.long_link {
                Some(link) => Some(link@),
                None => None,
            },
        }
    }
}

/// What is known of an entry.
pub struct EntryView {
    /// What the archive says of the member.
    pub member: Member,
    /// Where its stored bytes start.
    pub start: nat,
    /// How often the reader had moved on when it found the entry.
    pub turns: nat,
    /// How much of the contents was read.
    pub pos: u64,
    /// Whether extraction of the entry has begun.
    pub started: bool,
}

/// A logical archive entry. Reading a sparse entry materializes holes as zeroes.
pub struct Entry {
    header: Header,
    kind: EntryType,
    pax: Vec<PaxRecord>,
    sparse: Option<Vec<SparseSegment>>,
    logical_size: u64,
    logical_pos: u64,
    sparse_index: usize,
    generation: u64,
    extraction_started: bool,
    start: Ghost<nat>,
    turns: Ghost<nat>,
}

impl View for Entry {
    type V = EntryView;

    closed spec fn view(&self) -> EntryView {
        EntryView {
            member: Member {
                header: self.header@,
                kind: self.kind,
                pax: records(self.pax@),
                sparse: match self.sparse {
                    Some(map) => Some(map@),
                    None => None,
                },
                logical_size: self.logical_size,
            },
            start: self.start@,
            turns: self.turns@,
            pos: self.logical_pos,
            started: self.extraction_started,
        }
    }
}

impl EntryView {
    /// Whether an archive stands where the reading of this entry is: it did not
    /// move on, and what is left is what the entry still needs.
    pub open spec fn in_step(self, archive: ReaderView) -> bool {
        &&& archive.turns == self.turns
        &&& archive.delivered.len() == self.start + self.member.stored_before(self.pos as int)
        &&& archive.pending == self.member.stored() - self.member.stored_before(self.pos as int)
    }
}

impl Entry {
    /// The map is in order, nothing was read beyond the end, and the segments
    /// that were passed end before the place of reading.
    pub closed spec fn well_formed(&self) -> bool {
        &&& self@.member.in_order()
        &&& keys_valid(self@.member.pax)
        &&& self.generation == mark(self.turns@)
        &&& self.logical_pos <= self.logical_size
        &&& self.sparse matches Some(map) ==> {
            &&& self.sparse_index <= map@.len()
            &&& forall|i: int|
                0 <= i < self.sparse_index ==> (#[trigger] map@[i]).end() <= self.logical_pos
        }
    }
}

/// Reads a block, or nothing at the end of the input.
fn read_block<R: Input>(state: &mut ReaderState<R>) -> (found: Result<Option<Vec<u8>>, Error>)
    requires
        old(state).well_formed(),
    ensures
        final(state).well_formed(),
        old(state)@.reads_on(final(state)@),
        final(state)@.pending == old(state)@.pending,
        final(state)@.padding == old(state)@.padding,
        final(state)@.turns == old(state)@.turns,
        match found {
            Ok(Some(block)) => {
                &&& block@.len() == 512
                &&& final(state)@.delivered == old(state)@.delivered + block@
            },
            Ok(None) => final(state)@.ended() && final(state)@.delivered == old(state)@.delivered,
            Err(error) => {
                &&& final(state)@.broke_off(error)
                &&& final(state)@.delivered.len() < old(state)@.delivered.len() + 512
                &&& error is Tar ==> final(state)@.delivered.len() > old(state)@.delivered.len()
            },
        },
{
    let ghost before = state@;
    let mut first: Vec<u8> = vec![0u8; 1];
    let n: usize = state.read_counted(first.as_mut_slice())?;
    if n == 0 {
        assert(state@.delivered =~= before.delivered);
        return Ok(None);
    }
    assert(first@.take(1) =~= first@);
    let ghost middle = state@;
    let mut rest: Vec<u8> = vec![0u8; 511];
    let outcome = state.read_exact_counted(rest.as_mut_slice());
    proof {
        lemma_reads_on(before, middle, state@);
        lemma_prefix_agrees(middle.delivered, state@.delivered, 0, 0);
    }
    outcome?;
    let ghost one = first@;
    let ghost others = rest@;
    first.append(&mut rest);
    assert(state@.delivered =~= before.delivered + (one + others));
    Ok(Some(first))
}

/// Whether all bytes are zero.
fn is_zero(block: &[u8]) -> (zero: bool)
    ensures
        zero == all_zero(block@),
{
    let mut i: usize = 0;
    while i < block.len()
        invariant
            i <= block@.len(),
            forall|k: int| 0 <= k < i ==> block@[k] == 0,
        decreases block@.len() - i,
    {
        if block[i] != 0 {
            return false;
        }
        i = i + 1;
    }
    true
}

/// Reads the payload of a metadata member and what fills its last block.
fn read_metadata<R: Input>(state: &mut ReaderState<R>, size: u64) -> (payload: Result<
    Vec<u8>,
    Error,
>)
    requires
        old(state).well_formed(),
        size <= MAX_PAX_SIZE,
    ensures
        final(state).well_formed(),
        old(state)@.reads_on(final(state)@),
        final(state)@.pending == old(state)@.pending,
        final(state)@.padding == old(state)@.padding,
        final(state)@.turns == old(state)@.turns,
        match payload {
            Ok(bytes) => {
                let at = old(state)@.delivered.len() as int;
                &&& final(state)@.delivered.len() == at + size + padding_of(size)
                &&& final(state)@.delivered.subrange(at, at + size) == bytes@
            },
            Err(error) => {
                &&& final(state)@.broke_off(error)
                &&& final(state)@.delivered.len() < old(state)@.delivered.len() + size + padding_of(
                    size,
                )
            },
        },
{
    let ghost before = state@;
    let ghost at = before.delivered.len() as int;
    let mut payload: Vec<u8> = vec![0u8; size as usize];
    state.read_exact_counted(payload.as_mut_slice())?;
    let ghost middle = state@;
    let outcome = state.skip(padding(size));
    proof {
        lemma_reads_on(before, middle, state@);
        lemma_prefix_agrees(middle.delivered, state@.delivered, at, at + size);
        assert(middle.delivered.subrange(at, at + size) =~= payload@);
    }
    outcome?;
    Ok(payload)
}

/// What was read of a member.
pub open spec fn member_of(outcome: Result<Entry, Error>) -> Result<Member, Error> {
    match outcome {
        Ok(entry) => Ok(entry@.member),
        Err(error) => Err(error),
    }
}

/// Whether an archive stands at the start of an entry that was just found.
pub open spec fn stands_before(entry: EntryView, archive: ReaderView) -> bool {
    &&& entry.start == archive.delivered.len()
    &&& entry.turns == archive.turns
    &&& entry.pos == 0
    &&& !entry.started
    &&& archive.pending == entry.member.stored()
    &&& archive.padding == padding_of(entry.member.header.stored_size)
}

/// Whether what was read settles a question: no further bytes can change the
/// answer.
pub open spec fn settles<T>(ask: spec_fn(Seq<u8>) -> T, read: Seq<u8>, answer: T) -> bool {
    forall|s: Seq<u8>| #[trigger] read.is_prefix_of(s) ==> ask(s) == answer
}

/// Whether the outcome of looking for the next entry is what the archive holds.
pub open spec fn next_outcome(
    next: spec_fn(Seq<u8>) -> Next,
    before: ReaderView,
    outcome: Result<Option<Entry>, Error>,
    q: ParserView,
    after: ReaderView,
) -> bool {
    match outcome {
        Ok(Some(entry)) => {
            &&& settles(
                next,
                after.delivered,
                Next::Found(entry@.member, q, after.delivered.len() as int),
            )
            &&& stands_before(entry@, after)
            &&& entry.well_formed()
        },
        Ok(None) => {
            ||| after.ended() && next(after.delivered) is AtEnd
            ||| settles(next, after.delivered, Next::End(after.delivered.len() as int))
        },
        Err(Error::Tar(fault)) => {
            ||| settles(next, after.delivered, Next::Bad(fault, after.delivered.len() as int))
            ||| fault == Fault::TruncatedArchive && after.ended() && next(after.delivered) is More
            ||| endless(before, after, Error::Tar(fault))
        },
        Err(Error::Io(error)) => {
            &&& after.failed(error)
            &&& next(after.delivered) is More || next(after.delivered) is AtEnd
        },
    }
}

/// Whether the outcome of looking for the next entry is what the archive holds,
/// given what was remembered before it.
pub open spec fn finds(
    p: ParserView,
    before: ReaderView,
    outcome: Result<Option<Entry>, Error>,
    q: ParserView,
    after: ReaderView,
) -> bool {
    &&& before.reads_on(after)
    &&& next_outcome(
        |s: Seq<u8>| next_member(p, s, before.next_at()),
        before,
        outcome,
        q,
        after,
    )
}

/// Whether an archive moved on to other headers as often as it read blocks for
/// them, or once more.
pub open spec fn moves_on(before: ReaderView, after: ReaderView) -> bool {
    &&& before.turns <= after.turns
    &&& 512 * (after.turns - before.turns - 1) <= after.delivered.len() - before.delivered.len()
}

/// What a header led to.
enum Stepped {
    Stop(Option<Entry>),
    Again,
}

/// The step that ends the search, as what comes next.
pub open spec fn stop_of(step: Step) -> Next {
    match step {
        Step::Stop(next) => next,
        Step::Again(_, _) => Next::More,
    }
}

/// Whether the outcome of taking a header is what the archive holds.
spec fn step_outcome(
    step: spec_fn(Seq<u8>) -> Step,
    before: ReaderView,
    outcome: Result<Stepped, Error>,
    q: ParserView,
    after: ReaderView,
) -> bool {
    match outcome {
        Ok(Stepped::Again) => settles(step, after.delivered, Step::Again(q, after.next_at())),
        Ok(Stepped::Stop(entry)) => next_outcome(
            |s: Seq<u8>| stop_of(step(s)),
            before,
            Ok(entry),
            q,
            after,
        ),
        Err(error) => {
            &&& next_outcome(|s: Seq<u8>| stop_of(step(s)), before, Err(error), q, after)
            &&& step(after.delivered) is Stop || endless(before, after, error)
        },
    }
}

impl Entries {
    /// The remembered records are valid.
    pub closed spec fn well_formed(&self) -> bool {
        &&& self.global.well_formed()
        &&& self.local matches Some(list) ==> keys_valid(records(list@))
    }

    /// Whether the end was reached or an error occurred.
    pub closed spec fn done(&self) -> bool {
        self.done
    }

    /// Remembers the payload of a metadata member.
    fn take_metadata(&mut self, flag: u8, payload: Vec<u8>) -> (done: Result<(), Fault>)
        requires
            old(self).well_formed(),
            is_metadata(flag),
        ensures
            final(self).well_formed(),
            final(self).done() == old(self).done(),
            done is Ok ==> with_metadata(old(self)@, flag, payload@) == Ok::<ParserView, Fault>(
                final(self)@,
            ),
            done matches Err(fault) ==> with_metadata(old(self)@, flag, payload@) == Err::<
                ParserView,
                Fault,
            >(fault),
    {
        if flag == 120 {
            if self.local.is_some() {
                return Err(Fault::DuplicateLocalPax);
            }
            let list = parse_pax(payload.as_slice())?;
            self.local = Some(list);
        } else if flag == 103 {
            let list = parse_pax(payload.as_slice())?;
            self.global.store_all(list);
        } else if flag == 76 {
            self.long_name = Some(trim_metadata(payload));
        } else {
            self.long_link = Some(trim_metadata(payload));
        }
        Ok(())
    }

    /// Reads what a header block and the metadata before it say of a member.
    fn read_member<R: Input>(
        &mut self,
        state: &mut ReaderState<R>,
        block: &[u8],
        header: Header,
    ) -> (found: Result<Entry, Error>)
        requires
            old(self).well_formed(),
            !old(self)@.zero_block,
            old(state).well_formed(),
            block@.len() == 512,
        ensures
            final(self).well_formed(),
            final(self).done() == old(self).done(),
            final(state).well_formed(),
            old(state)@.reads_on(final(state)@),
            final(state)@.turns == old(state)@.turns,
            found matches Ok(entry) ==> entry.well_formed() && stands_before(
                entry@,
                final(state)@,
            ) && final(self)@ == after_member(old(self)@),
            concludes(
                |s: Seq<u8>|
                    member_at(
                        old(self)@,
                        block@,
                        header@,
                        s,
                        old(state)@.delivered.len() as int,
                    ),
                final(state)@,
                member_of(found),
            ) || (found matches Err(error) && endless(old(state)@, final(state)@, error)),
    {
        let ghost p = self@;
        let ghost raw = header@;
        let ghost before = state@;
        proof {
            reveal(member_at);
            reveal(member_layout);
            lemma_prefix_of_itself(before.delivered);
        }
        let flag: u8 = header.type_flag();
        let size: u64 = header.stored_size();
        let pax = self.global.effective(self.local.take());
        let ghost list = records(pax@);
        assert(list == effective(p.global, p.local));
        let mut header = header;
        if let Some(name) = self.long_name.take() {
            header.set_path(name);
        }
        if let Some(link) = self.long_link.take() {
            header.set_link_name(link);
        }
        assert(header@ == with_long_names(raw, p));
        if let Err(fault) = apply_pax_header(&mut header, pax.as_slice()) {
            return Err(Error::Tar(fault));
        }
        let physical: u64 = if has_sparse_record(pax.as_slice()) {
            size
        } else {
            header.stored_size()
        };
        header.set_size(physical);
        state.set_left(physical, padding(physical));
        let generation: u64 = state.generation();
        if flag == 83 && has_sparse_record(pax.as_slice()) {
            return Err(Error::Tar(Fault::ConflictingSparse));
        }
        let outcome = if flag == 83 {
            parse_old_gnu_sparse(state, block, physical)
        } else {
            parse_pax_sparse(state, pax.as_slice(), physical)
        };
        let (sparse, logical_size) = outcome?;
        if let Some(name) = pax_value(pax.as_slice(), "GNU.sparse.name") {
            header.set_path(slice_to_vec(name));
        }
        let entry = Entry {
            header,
            kind: EntryType::from_flag(flag),
            pax,
            sparse,
            logical_size,
            logical_pos: 0,
            sparse_index: 0,
            generation,
            extraction_started: false,
            start: Ghost(state@.delivered.len()),
            turns: Ghost(state@.turns),
        };
        Ok(entry)
    }

    /// Takes the next header and reads what belongs to it.
    fn take_block<R: Input>(&mut self, state: &mut ReaderState<R>, block: &[u8]) -> (found: Result<
        Stepped,
        Error,
    >)
        requires
            old(self).well_formed(),
            old(state).well_formed(),
            old(state)@.gap() == 0,
            block@.len() == 512,
        ensures
            final(self).well_formed(),
            final(self).done() == old(self).done(),
            final(state).well_formed(),
            old(state)@.reads_on(final(state)@),
            final(state)@.turns == old(state)@.turns,
            step_outcome(
                |s: Seq<u8>|
                    block_step(old(self)@, block@, s, old(state)@.delivered.len() as int),
                old(state)@,
                found,
                final(self)@,
                final(state)@,
            ),
    {
        let ghost one = state@;
        proof {
            reveal(block_step);
            lemma_prefix_of_itself(one.delivered);
        }
        if is_zero(block) {
            if self.zero_block {
                return Ok(Stepped::Stop(None));
            }
            self.zero_block = true;
            return Ok(Stepped::Again);
        }
        self.zero_block = false;
        if let Err(fault) = verify_checksum(block) {
            return Err(Error::Tar(fault));
        }
        let header = match parse_header(block) {
            Ok(header) => header,
            Err(fault) => {
                return Err(Error::Tar(fault));
            },
        };
        let flag: u8 = header.type_flag();
        if flag == 120 || flag == 103 || flag == 76 || flag == 75 {
            return self.read_metadata_member(state, header);
        }
        match self.read_member(state, block, header) {
            Ok(entry) => Ok(Stepped::Stop(Some(entry))),
            Err(error) => {
                proof {
                    lemma_prefix_of_itself(state@.delivered);
                }
                Err(error)
            },
        }
    }

    /// Reads a metadata member and remembers it.
    fn read_metadata_member<R: Input>(
        &mut self,
        state: &mut ReaderState<R>,
        header: Header,
    ) -> (found: Result<Stepped, Error>)
        requires
            old(self).well_formed(),
            old(state).well_formed(),
            old(state)@.gap() == 0,
            is_metadata(header@.type_flag),
        ensures
            final(self).well_formed(),
            final(self).done() == old(self).done(),
            final(state).well_formed(),
            old(state)@.reads_on(final(state)@),
            final(state)@.turns == old(state)@.turns,
            step_outcome(
                |s: Seq<u8>|
                    metadata_at(old(self)@, header@, s, old(state)@.delivered.len() as int),
                old(state)@,
                found,
                final(self)@,
                final(state)@,
            ),
    {
        let ghost one = state@;
        let ghost at = one.delivered.len() as int;
        let flag: u8 = header.type_flag();
        let size: u64 = header.stored_size();
        proof {
            lemma_prefix_of_itself(one.delivered);
        }
        if size > MAX_PAX_SIZE {
            return Err(Error::Tar(Fault::MetadataTooLarge));
        }
        let outcome = read_metadata(state, size);
        let ghost two = state@;
        proof {
            lemma_prefix_of_itself(two.delivered);
        }
        let payload = outcome?;
        proof {
            assert forall|s: Seq<u8>| #[trigger] two.delivered.is_prefix_of(s) implies s.len()
                >= two.delivered.len() && s.subrange(at, at + size) == payload@ by {
                lemma_prefix_agrees(two.delivered, s, at, at + size);
            }
        }
        if let Err(fault) = self.take_metadata(flag, payload) {
            return Err(Error::Tar(fault));
        }
        Ok(Stepped::Again)
    }

    /// Reads the next header and what belongs to it.
    fn step<R: Input>(&mut self, state: &mut ReaderState<R>) -> (found: Result<Stepped, Error>)
        requires
            old(self).well_formed(),
            old(state).well_formed(),
        ensures
            final(self).well_formed(),
            final(self).done() == old(self).done(),
            final(state).well_formed(),
            old(state)@.reads_on(final(state)@),
            old(state)@.turns <= final(state)@.turns <= old(state)@.turns + 1,
            found is Ok ==> final(state)@.turns == old(state)@.turns + 1,
            old(state)@.gets_past(final(state)@),
            found matches Ok(Stepped::Again) ==> final(state)@.delivered.len() >= old(
                state,
            )@.delivered.len() + 512,
            step_outcome(
                |s: Seq<u8>| step_at(old(self)@, s, old(state)@.next_at()),
                old(state)@,
                found,
                final(self)@,
                final(state)@,
            ),
    {
        let ghost p = self@;
        let ghost one = state@;
        let ghost at = one.next_at();
        let outcome = state.finish_entry();
        let ghost two = state@;
        proof {
            lemma_prefix_of_itself(two.delivered);
        }
        outcome?;
        state.turn();
        let outcome = read_block(state);
        let ghost three = state@;
        proof {
            lemma_reads_on(one, two, three);
            lemma_prefix_of_itself(three.delivered);
            lemma_prefix_agrees(two.delivered, three.delivered, 0, 0);
        }
        let block = match outcome? {
            Some(block) => block,
            None => {
                return Ok(Stepped::Stop(None));
            },
        };
        proof {
            assert(three.delivered.subrange(at, at + 512) =~= block@);
        }
        let found = self.take_block(state, block.as_slice());
        proof {
            let four = state@;
            lemma_reads_on(one, three, four);
            lemma_prefix_of_itself(four.delivered);
            lemma_prefix_agrees(three.delivered, four.delivered, 0, 0);
            assert forall|s: Seq<u8>| #[trigger] four.delivered.is_prefix_of(s) implies step_at(
                p,
                s,
                at,
            ) == block_step(p, block@, s, at + 512) by {
                lemma_prefix_of_prefix(three.delivered, four.delivered, s);
                lemma_prefix_agrees(three.delivered, s, at, at + 512);
            }
        }
        found
    }

    /// Looks for the next entry.
    fn next_entry<R: Input>(&mut self, archive: &mut Archive<R>) -> (found: Result<
        Option<Entry>,
        Error,
    >)
        requires
            old(self).well_formed(),
            old(archive).well_formed(),
        ensures
            final(self).well_formed(),
            final(self).done() == old(self).done(),
            final(archive).well_formed(),
            old(archive)@.reads_on(final(archive)@),
            moves_on(old(archive)@, final(archive)@),
            found is Ok ==> final(archive)@.turns > old(archive)@.turns,
            old(archive)@.gets_past(final(archive)@),
            next_outcome(
                |s: Seq<u8>| next_member(old(self)@, s, old(archive)@.next_at()),
                old(archive)@,
                found,
                final(self)@,
                final(archive)@,
            ),
    {
        let ghost p0 = self@;
        let ghost a0 = archive@;
        let ghost at0 = a0.next_at();
        let mut budget: u64 = u64::MAX;
        proof {
            lemma_prefix_of_itself(a0.delivered);
        }
        loop
            invariant
                p0 == old(self)@,
                a0 == old(archive)@,
                at0 == a0.next_at(),
                self.well_formed(),
                self.done() == old(self).done(),
                archive.well_formed(),
                a0.reads_on(archive@),
                archive@.delivered.len() >= a0.delivered.len() + 512 * (u64::MAX - budget),
                archive@.turns == a0.turns + (u64::MAX - budget),
                budget == u64::MAX ==> archive@ == a0,
                budget < u64::MAX ==> archive@.delivered.len() >= at0,
                forall|s: Seq<u8>| #[trigger]
                    archive@.delivered.is_prefix_of(s) ==> next_member(p0, s, at0) == next_member(
                        self@,
                        s,
                        archive@.next_at(),
                    ),
            decreases budget,
        {
            if budget == 0 {
                return Err(Error::Tar(Fault::EndlessMetadata));
            }
            budget = budget - 1;
            let ghost one = archive@;
            let outcome = self.step(&mut archive.state);
            proof {
                let two = archive@;
                lemma_reads_on(a0, one, two);
                lemma_prefix_of_itself(two.delivered);
                lemma_prefix_agrees(a0.delivered, one.delivered, 0, 0);
                assert forall|s: Seq<u8>| #[trigger] two.delivered.is_prefix_of(s) implies one
                    .delivered.is_prefix_of(s) by {
                    lemma_prefix_of_prefix(one.delivered, two.delivered, s);
                }
            }
            if let Stepped::Stop(entry) = outcome? {
                return Ok(entry);
            }
        }
    }

    /// The next entry, if there is one. After the end of the archive or an
    /// error there is none. What is left of the entry before is skipped.
    pub fn next<R: Input>(&mut self, archive: &mut Archive<R>) -> (item: Option<
        Result<Entry, Error>,
    >)
        requires
            old(self).well_formed(),
            old(archive).well_formed(),
        ensures
            final(self).well_formed(),
            final(archive).well_formed(),
            old(archive)@.reads_on(final(archive)@),
            moves_on(old(archive)@, final(archive)@),
            !old(self).done() && !(item matches Some(Err(_))) ==> final(archive)@.turns > old(
                archive,
            )@.turns,
            !old(self).done() ==> old(archive)@.gets_past(final(archive)@),
            old(self).done() ==> item is None && final(self)@ == old(self)@ && final(self).done()
                && final(archive)@ == old(archive)@,
            !old(self).done() ==> next_outcome(
                |s: Seq<u8>| next_member(old(self)@, s, old(archive)@.next_at()),
                old(archive)@,
                item_outcome(item),
                final(self)@,
                final(archive)@,
            ),
            !old(self).done() ==> final(self).done() == !(item matches Some(Ok(_))),
            asks_for_next(
                old(self).done(),
                old(self)@,
                old(archive)@,
                item,
                final(self).done(),
                final(self)@,
                final(archive)@,
            ),
            !old(self).done() ==> (old(archive)@.stream matches Some(stream) ==> (stream.len() < 512
                * u64::MAX ==> item_of(
                next_member(old(self)@, stream, old(archive)@.next_at()),
                item,
                final(self)@,
            ))),
    {
        if self.done {
            proof {
                lemma_prefix_of_itself(archive@.delivered);
            }
            return None;
        }
        let found = self.next_entry(archive);
        proof {
            archive.lemma_delivered_in_stream();
            if let Some(stream) = archive@.stream {
                lemma_prefix_agrees(archive@.delivered, stream, 0, 0);
            }
        }
        match found {
            Ok(Some(entry)) => Some(Ok(entry)),
            Ok(None) => {
                self.done = true;
                None
            },
            Err(error) => {
                self.done = true;
                Some(Err(error))
            },
        }
    }
}

/// Whether a call for the next entry leads from one state to another: once the
/// iteration is over nothing is found any more, and it is over as soon as no
/// entry was found.
pub open spec fn asks_for_next(
    done: bool,
    p: ParserView,
    before: ReaderView,
    item: Option<Result<Entry, Error>>,
    done_then: bool,
    q: ParserView,
    after: ReaderView,
) -> bool {
    if done {
        item is None && done_then && q == p && after == before
    } else {
        done_then == !(item matches Some(Ok(_))) && finds(p, before, item_outcome(item), q, after)
    }
}

/// An item of the iteration as an outcome.
pub open spec fn item_outcome(item: Option<Result<Entry, Error>>) -> Result<Option<Entry>, Error> {
    match item {
        Some(Ok(entry)) => Ok(Some(entry)),
        Some(Err(error)) => Err(error),
        None => Ok(None),
    }
}

/// Whether an item of the iteration is what comes next in a whole stream, and
/// `q` what is remembered after it.
pub open spec fn item_of(next: Next, item: Option<Result<Entry, Error>>, q: ParserView) -> bool {
    match next {
        Next::More => item == Some(Err::<Entry, Error>(Error::Tar(Fault::TruncatedArchive))),
        Next::AtEnd | Next::End(_) => item is None,
        Next::Bad(fault, _) => item == Some(Err::<Entry, Error>(Error::Tar(fault))),
        Next::Found(member, p, start) => {
            &&& item matches Some(Ok(entry))
            &&& entry@.member == member
            &&& entry@.start == start
            &&& q == p
        },
    }
}

impl Entry {
    /// The map of a sparse entry is in order within its contents.
    pub proof fn lemma_in_order(&self)
        requires
            self.well_formed(),
        ensures
            self@.member.in_order(),
            self@.pos <= self@.member.logical_size,
    {
    }

    /// Returns the parsed header.
    pub fn header(&self) -> (header: &Header)
        ensures
            header@ == self@.member.header,
    {
        &self.header
    }

    /// Returns the final path after long-name, PAX, and sparse-name resolution.
    /// There is no error yet.
    pub fn path(&self) -> (path: Result<&[u8], Error>)
        ensures
            path matches Ok(found) && found@ == self@.member.header.path,
    {
        Ok(self.header.path())
    }

    /// Returns this entry's type.
    pub fn entry_type(&self) -> (kind: EntryType)
        ensures
            kind == self@.member.kind,
    {
        self.kind
    }

    /// Returns the logical size, including sparse holes.
    pub fn size(&self) -> (size: u64)
        ensures
            size == self@.member.logical_size,
    {
        self.logical_size
    }

    /// Returns data extents for a sparse entry, or `None` for a dense entry.
    pub fn sparse_map(&self) -> (map: Option<&[SparseSegment]>)
        ensures
            map matches Some(found) ==> self@.member.sparse == Some(found@),
            map is None ==> self@.member.sparse is None,
    {
        match &self.sparse {
            Some(map) => Some(map.as_slice()),
            None => None,
        }
    }

    /// Returns the effective PAX key/value records.
    pub fn pax_extensions(&self) -> (list: Vec<(&str, &[u8])>)
        requires
            self.well_formed(),
        ensures
            list@.len() == self@.member.pax.len(),
            forall|i: int|
                0 <= i < list@.len() ==> text((#[trigger] list@[i]).0@) == self@.member.pax[i].key
                    && list@[i].1@ == self@.member.pax[i].value,
    {
        let ghost pax = self@.member.pax;
        let mut list: Vec<(&str, &[u8])> = Vec::new();
        let mut i: usize = 0;
        while i < self.pax.len()
            invariant
                i <= self.pax@.len(),
                self.well_formed(),
                pax == self@.member.pax,
                pax == records(self.pax@),
                list@.len() == i,
                forall|k: int|
                    0 <= k < i ==> text((#[trigger] list@[k]).0@) == pax[k].key && list@[k].1@
                        == pax[k].value,
            decreases self.pax@.len() - i,
        {
            assert(pax[i as int] == self.pax@[i as int]@);
            if let Some(key) = utf8_text(self.pax[i].key.as_slice()) {
                list.push((key, self.pax[i].value.as_slice()));
            }
            i = i + 1;
        }
        list
    }

    /// Returns cumulative raw bytes consumed from the underlying stream.
    pub fn bytes_read<R: Input>(&self, archive: &Archive<R>) -> (count: u64)
        requires
            archive.well_formed(),
        ensures
            count == counted(archive@.delivered),
    {
        archive.bytes_read()
    }

    /// How much of the contents was read.
    pub(crate) fn position(&self) -> (pos: u64)
        ensures
            pos == self@.pos,
    {
        self.logical_pos
    }

    /// Whether the archive moved on since the entry was found.
    pub(crate) fn is_stale<R: Input>(&self, archive: &Archive<R>) -> (stale: bool)
        requires
            self.well_formed(),
            archive.well_formed(),
        ensures
            stale == (mark(self@.turns) != mark(archive@.turns)),
    {
        self.generation != archive.state.generation()
    }

    /// Whether contents were read or extraction was started.
    pub(crate) fn is_consumed(&self) -> (consumed: bool)
        ensures
            consumed == (self@.pos != 0 || self@.started),
    {
        self.logical_pos != 0 || self.extraction_started
    }

    /// Notes that extraction was started.
    pub(crate) fn start_extraction(&mut self)
        requires
            old(self).well_formed(),
        ensures
            final(self).well_formed(),
            final(self)@ == (EntryView { started: true, ..old(self)@ }),
    {
        self.extraction_started = true;
    }

    /// Reads stored bytes of this entry.
    pub(crate) fn read_physical<R: Input>(
        &mut self,
        archive: &mut Archive<R>,
        buf: &mut [u8],
    ) -> (count: Result<usize, Error>)
        requires
            old(self).well_formed(),
            old(archive).well_formed(),
        ensures
            *final(self) == *old(self),
            final(archive).well_formed(),
            old(archive)@.reads_on(final(archive)@),
            final(buf)@.len() == old(buf)@.len(),
            stored_outcome(
                old(self)@,
                old(archive)@,
                old(buf)@,
                count,
                final(archive)@,
                final(buf)@,
            ),
    {
        archive.state.read_entry_data(self.generation, buf)
    }

    /// Finds the stored run or the hole at the place of reading: whether it is
    /// stored, and where it ends.
    fn find_run(&mut self) -> (run: (bool, u64))
        requires
            old(self).well_formed(),
            old(self)@.pos < old(self)@.member.logical_size,
        ensures
            final(self).well_formed(),
            final(self)@ == old(self)@,
            run.0 == old(self)@.member.stored_at(old(self)@.pos as int),
            run.1 == old(self)@.member.run_end(old(self)@.pos as int),
    {
        let pos: u64 = self.logical_pos;
        let mut index: usize = self.sparse_index;
        let run = match &self.sparse {
            None => (true, self.logical_size),
            Some(map) => {
                while index < map.len() && pos >= map[index].offset.saturating_add(map[index].len)
                    invariant
                        index <= map@.len(),
                        fits(map@, self.logical_size as int),
                        pos < self.logical_size,
                        forall|i: int| 0 <= i < index ==> (#[trigger] map@[i]).end() <= pos,
                    decreases map@.len() - index,
                {
                    assert(map@[index as int].end() <= self.logical_size);
                    index = index + 1;
                }
                proof {
                    lemma_first_open(map@, 0, index as int, pos as int);
                    if index < map@.len() {
                        assert(map@[index as int].end() <= self.logical_size);
                    }
                }
                if index == map.len() {
                    (false, self.logical_size)
                } else if pos < map[index].offset {
                    (false, map[index].offset)
                } else {
                    (true, map[index].offset + map[index].len)
                }
            },
        };
        self.sparse_index = index;
        run
    }

    /// Reads the next bytes of the contents, with holes as zeroes. Returns
    /// zero at the end of the contents or for an empty `buf`.
    pub fn read<R: Input>(&mut self, archive: &mut Archive<R>, buf: &mut [u8]) -> (count: Result<
        usize,
        Error,
    >)
        requires
            old(self).well_formed(),
            old(archive).well_formed(),
        ensures
            final(self).well_formed(),
            final(archive).well_formed(),
            final(buf)@.len() == old(buf)@.len(),
            old(archive)@.reads_on(final(archive)@),
            read_outcome(old(self)@, old(archive)@, old(buf)@, count, final(archive)@, final(buf)@),
            final(self)@ == read_entry(old(self)@, count),
            count matches Ok(n) ==> reads_next(
                old(self)@,
                old(archive)@,
                final(buf)@.take(n as int),
                final(self)@,
                final(archive)@,
            ),
            old(self)@.in_step(old(archive)@) ==> {
                &&& final(self)@.in_step(final(archive)@)
                &&& final(archive)@.next_at() == old(archive)@.next_at()
                &&& count == Ok::<usize, Error>(0) ==> old(buf)@.len() == 0 || old(self)@.pos
                    == old(self)@.member.logical_size
            },
    {
        let ghost me = self@;
        let ghost member = me.member;
        let ghost start = me.start as int;
        let ghost before = archive@;
        let ghost pos = self.logical_pos as int;
        proof {
            lemma_prefix_of_itself(before.delivered);
        }
        if buf.len() == 0 || self.logical_pos >= self.logical_size {
            proof {
                assert(buf@.take(0) =~= Seq::<u8>::empty());
                assert forall|s: Seq<u8>| #[trigger] before.delivered.is_prefix_of(s) implies
                    buf@.take(0) == member.contents(s, start).subrange(pos, pos) by {
                    assert(member.contents(s, start).subrange(pos, pos) =~= Seq::<u8>::empty());
                }
            }
            return Ok(0);
        }
        proof {
            lemma_run_end(member, pos);
        }
        let (stored, end) = self.find_run();
        let left: u64 = end - self.logical_pos;
        let want: usize = if left < buf.len() as u64 {
            left as usize
        } else {
            buf.len()
        };
        if !stored {
            fill_zeros(buf, want);
            self.logical_pos = self.logical_pos + want as u64;
            proof {
                if me.in_step(before) {
                    lemma_run(member, before.delivered, 0, pos, want as int);
                    assert forall|s: Seq<u8>| #[trigger] before.delivered.is_prefix_of(s) implies
                        buf@.take(want as int) == member.contents(s, start).subrange(
                        pos,
                        pos + want,
                    ) by {
                        lemma_prefix_agrees(before.delivered, s, 0, 0);
                        lemma_run(member, s, start, pos, want as int);
                        assert forall|i: int| 0 <= i < want implies buf@.take(want as int)[i]
                            == member.contents(s, start).subrange(pos, pos + want)[i] by {
                            assert(member.contents(s, start)[pos + i] == 0);
                        }
                        assert(buf@.take(want as int) =~= member.contents(s, start).subrange(
                            pos,
                            pos + want,
                        ));
                    }
                }
            }
            return Ok(want);
        }
        let ghost whole = buf@;
        let (part, spare) = buf.split_at_mut(want);
        assert(part@ =~= whole.take(want as int));
        let outcome = self.read_physical(archive, part);
        proof {
            assert(buf@.take(want as int) =~= part@);
            assert(buf@.skip(want as int) =~= whole.skip(want as int));
        }
        let n: usize = outcome?;
        self.logical_pos = self.logical_pos + n as u64;
        proof {
            let after = archive@;
            assert(buf@.take(n as int) =~= part@.take(n as int));
            if me.in_step(before) {
                lemma_run(member, before.delivered, 0, pos, n as int);
                assert forall|s: Seq<u8>| #[trigger] after.delivered.is_prefix_of(s) implies
                    buf@.take(n as int) == member.contents(s, start).subrange(pos, pos + n) by {
                    let from = before.delivered.len() as int;
                    lemma_prefix_agrees(after.delivered, s, 0, 0);
                    lemma_run(member, s, start, pos, n as int);
                    assert forall|i: int| 0 <= i < n implies buf@.take(n as int)[i]
                        == member.contents(s, start).subrange(pos, pos + n)[i] by {
                        assert(after.delivered[from + i] == buf@.take(n as int)[i]);
                        assert(member.contents(s, start)[pos + i] == s[from + i]);
                    }
                    assert(buf@.take(n as int) =~= member.contents(s, start).subrange(
                        pos,
                        pos + n,
                    ));
                }
            }
        }
        Ok(n)
    }
}

/// An archive that stands at the start of an entry stands where the reading of
/// the entry is.
pub proof fn law_found_entry_is_in_step(entry: EntryView, archive: ReaderView)
    requires
        stands_before(entry, archive),
    ensures
        entry.in_step(archive),
{
    if let Some(map) = entry.member.sparse {
        lemma_nothing_before_start(map);
    }
}

/// Marks differ after fewer turns than it takes to go round.
pub proof fn lemma_marks_differ(earlier: nat, later: nat)
    requires
        earlier < later < earlier + 0x1_0000_0000_0000_0000,
    ensures
        mark(earlier) != mark(later),
{
    let t: nat = 0x1_0000_0000_0000_0000;
    if earlier % t == later % t {
        vstd::arithmetic::div_mod::lemma_fundamental_div_mod(earlier as int, t as int);
        vstd::arithmetic::div_mod::lemma_fundamental_div_mod(later as int, t as int);
    }
}

/// Once the archive moved on, no stored byte of an entry can be read any more:
/// every attempt is refused and leaves all as it was. The archive would have to
/// move on two to the power of sixty-four times for an entry to be mistaken for
/// the current one.
pub proof fn law_stale_entries_are_refused(
    entry: EntryView,
    before: ReaderView,
    buf: Seq<u8>,
    count: Result<usize, Error>,
    after: ReaderView,
    filled: Seq<u8>,
)
    requires
        entry.turns < before.turns < entry.turns + 0x1_0000_0000_0000_0000,
        entry.member.in_order(),
        read_outcome(entry, before, buf, count, after, filled),
        filled.len() == buf.len() > 0,
        entry.pos < entry.member.logical_size,
        entry.member.stored_at(entry.pos as int),
    ensures
        count == Err::<usize, Error>(Error::Tar(Fault::StaleEntry)),
        after == before,
        filled == buf,
{
    lemma_marks_differ(entry.turns, before.turns);
    lemma_run_end(entry.member, entry.pos as int);
    let left = entry.member.run_end(entry.pos as int) - entry.pos;
    let want = if left < buf.len() {
        left
    } else {
        buf.len() as int
    };
    assert(filled.take(want) + filled.skip(want) =~= filled);
    assert(buf.take(want) + buf.skip(want) =~= buf);
}

/// Sets the first `count` bytes to zero.
fn fill_zeros(buf: &mut [u8], count: usize)
    requires
        count <= old(buf)@.len(),
    ensures
        final(buf)@ == zeros(count as nat) + old(buf)@.skip(count as int),
{
    let mut i: usize = 0;
    while i < count
        invariant
            i <= count <= buf@.len(),
            buf@.len() == old(buf)@.len(),
            buf@ =~= zeros(i as nat) + old(buf)@.skip(i as int),
        decreases count - i,
    {
        buf[i] = 0;
        i = i + 1;
    }
}

/// Whether the outcome of reading from an entry is what its contents are at the
/// place of reading: nothing at the end, zeroes in a hole, and else what the
/// archive delivers.
pub open spec fn read_outcome(
    entry: EntryView,
    before: ReaderView,
    buf: Seq<u8>,
    count: Result<usize, Error>,
    after: ReaderView,
    filled: Seq<u8>,
) -> bool {
    let pos = entry.pos as int;
    let left = entry.member.run_end(pos) - pos;
    let want = if left < buf.len() {
        left
    } else {
        buf.len() as int
    };
    if buf.len() == 0 || pos >= entry.member.logical_size {
        count == Ok::<usize, Error>(0) && after == before && filled == buf
    } else if !entry.member.stored_at(pos) {
        &&& count == Ok::<usize, Error>(want as usize)
        &&& after == before
        &&& filled == zeros(want as nat) + buf.skip(want)
    } else {
        &&& stored_outcome(entry, before, buf.take(want), count, after, filled.take(want))
        &&& filled.skip(want) == buf.skip(want)
    }
}

/// Whether bytes are what an entry reads next: where the archive stands where the
/// reading is, they are the contents from there on, whatever the archive still
/// delivers, and the archive stands where the reading is again.
pub open spec fn reads_next(
    entry: EntryView,
    archive: ReaderView,
    got: Seq<u8>,
    entry_then: EntryView,
    archive_then: ReaderView,
) -> bool {
    let pos = entry.pos as int;
    let to = pos + got.len();
    &&& to <= entry.member.logical_size
    &&& archive.reads_on(archive_then)
    &&& entry_then == (EntryView { pos: to as u64, ..entry })
    &&& entry.in_step(archive) ==> {
        &&& entry_then.in_step(archive_then)
        &&& archive_then.next_at() == archive.next_at()
        &&& forall|s: Seq<u8>| #[trigger]
            archive_then.delivered.is_prefix_of(s) ==> got == entry.member.contents(
                s,
                entry.start as int,
            ).subrange(pos, to)
    }
}

/// The entry after a read.
pub open spec fn read_entry(entry: EntryView, count: Result<usize, Error>) -> EntryView {
    match count {
        Ok(n) => EntryView { pos: (entry.pos + n) as u64, ..entry },
        Err(_) => entry,
    }
}

/// Whether the outcome of reading stored bytes is what the archive delivers.
pub open spec fn stored_outcome(
    entry: EntryView,
    before: ReaderView,
    buf: Seq<u8>,
    count: Result<usize, Error>,
    after: ReaderView,
    filled: Seq<u8>,
) -> bool {
    if mark(entry.turns) != mark(before.turns) {
        &&& count == Err::<usize, Error>(Error::Tar(Fault::StaleEntry))
        &&& after == before
        &&& filled == buf
    } else {
        &&& after.padding == before.padding
        &&& after.turns == before.turns
        &&& match count {
            Ok(n) => {
                &&& n <= before.pending
                &&& n <= buf.len()
                &&& n == 0 ==> (before.pending == 0 || buf.len() == 0) && after == before
                &&& after.delivered == before.delivered + filled.take(n as int)
                &&& after.pending == before.pending - n
            },
            Err(error) => {
                &&& match error {
                    Error::Tar(fault) => fault == Fault::TruncatedEntryData && after.ended(),
                    Error::Io(error) => after.failed(error),
                }
                &&& before.pending > 0
                &&& buf.len() > 0
                &&& after.delivered == before.delivered
                &&& after.pending == before.pending
            },
        }
    }
}

} // verus!
