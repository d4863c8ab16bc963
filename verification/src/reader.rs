//! Inputs, and reading from one with account of what came out of it.

use vstd::prelude::*;

use crate::error::{Error, Fault};

verus! {

/// How the last read from an input went.
pub enum LastRead {
    /// There was none yet.
    Nothing,
    /// It delivered bytes.
    Data,
    /// It reported the end of the input.
    Ended,
    /// It failed.
    Failed(std::io::Error),
}

/// What an input did and is going to do.
pub struct InputAccount {
    /// All bytes that it delivered.
    pub taken: Seq<u8>,
    /// How the last read went.
    pub last: LastRead,
    /// What it is still going to deliver before it ends, where that is settled
    /// beforehand, as it is for bytes in memory. An input of which it is not
    /// settled may deliver anything, end at any time or fail.
    pub rest: Option<Seq<u8>>,
}

impl InputAccount {
    /// What was delivered between this account and a later one.
    pub open spec fn gained(self, later: InputAccount) -> Seq<u8> {
        later.taken.skip(self.taken.len() as int)
    }

    /// Whether these bytes were delivered between this account and a later one,
    /// and no others.
    pub open spec fn gives(self, bytes: Seq<u8>, later: InputAccount) -> bool {
        &&& later.taken == self.taken + bytes
        &&& match self.rest {
            Some(rest) => bytes.is_prefix_of(rest) && later.rest == Some(
                rest.skip(bytes.len() as int),
            ),
            None => later.rest is None,
        }
    }

    /// Whether the input reported its end, and so delivered all it had.
    pub open spec fn ended(self) -> bool {
        self.last is Ended && (self.rest matches Some(rest) ==> rest.len() == 0)
    }

    /// Whether the input failed in this way, which none does of which it is
    /// settled what it delivers.
    pub open spec fn failed(self, error: std::io::Error) -> bool {
        self.last == LastRead::Failed(error) && self.rest is None
    }
}

/// Whether an input goes from one account to another by one read into a buffer
/// of some room: it delivers bytes, ends or fails, and loses none.
pub open spec fn reads_once(
    before: InputAccount,
    room: nat,
    count: Result<usize, std::io::Error>,
    filled: Seq<u8>,
    after: InputAccount,
) -> bool {
    match count {
        Ok(n) => {
            &&& n <= room
            &&& after.taken == before.taken + filled.take(n as int)
            &&& room > 0 ==> after.last == if n == 0 {
                LastRead::Ended
            } else {
                LastRead::Data
            }
            &&& match before.rest {
                Some(rest) => {
                    &&& n <= rest.len()
                    &&& filled.take(n as int) == rest.take(n as int)
                    &&& after.rest == Some(rest.skip(n as int))
                    &&& n == 0 ==> room == 0 || rest.len() == 0
                },
                None => after.rest is None,
            }
        },
        Err(error) => {
            &&& after.taken == before.taken
            &&& after.last == LastRead::Failed(error)
            &&& before.rest is None
            &&& after.rest is None
        },
    }
}

/// A source of bytes, in the manner of `std::io::Read`.
pub trait Input {
    /// What the input did and is going to do.
    open spec fn account(&self) -> InputAccount {
        arbitrary()
    }

    /// Fills the front of `buf` with bytes and returns their number, which is
    /// zero at the end of the input or for an empty `buf`. No bytes are lost
    /// when it fails.
    fn read(&mut self, buf: &mut [u8]) -> (count: Result<usize, std::io::Error>)
        ensures
            final(buf)@.len() == old(buf)@.len(),
            reads_once(
                old(self).account(),
                old(buf)@.len(),
                count,
                final(buf)@,
                final(self).account(),
            ),
    ;
}

/// An input that delivers bytes held in memory.
#[derive(Debug)]
pub struct Cursor {
    data: Vec<u8>,
    pos: usize,
    ended: bool,
}

impl Cursor {
    #[verifier::type_invariant]
    spec fn within(self) -> bool {
        self.pos <= self.data@.len()
    }

    /// An input that delivers `data`.
    pub fn new(data: Vec<u8>) -> (cursor: Self)
        ensures
            cursor.account() == (InputAccount {
                taken: Seq::empty(),
                last: LastRead::Nothing,
                rest: Some(data@),
            }),
    {
        let cursor = Cursor { data, pos: 0, ended: false };
        assert(cursor.data@.skip(0) =~= data@);
        assert(cursor.data@.take(0) =~= Seq::empty());
        cursor
    }
}

impl Input for Cursor {
    closed spec fn account(&self) -> InputAccount {
        InputAccount {
            taken: self.data@.take(self.pos as int),
            last: if self.ended {
                LastRead::Ended
            } else if self.pos > 0 {
                LastRead::Data
            } else {
                LastRead::Nothing
            },
            rest: Some(self.data@.skip(self.pos as int)),
        }
    }

    fn read(&mut self, buf: &mut [u8]) -> (count: Result<usize, std::io::Error>) {
        proof {
            use_type_invariant(&*self);
        }
        let start: usize = self.pos;
        let left: usize = self.data.len() - start;
        let n: usize = if left < buf.len() {
            left
        } else {
            buf.len()
        };
        let ghost rest = self.data@.skip(start as int);
        let mut i: usize = 0;
        while i < n
            invariant
                i <= n <= buf@.len(),
                buf@.len() == old(buf)@.len(),
                self.pos == start,
                self.data@ == old(self).data@,
                start + n <= self.data@.len() <= usize::MAX,
                rest == self.data@.skip(start as int),
                buf@.take(i as int) =~= rest.take(i as int),
            decreases n - i,
        {
            buf[i] = self.data[start + i];
            i = i + 1;
        }
        self.pos = start + n;
        if buf.len() > 0 {
            self.ended = n == 0;
        }
        assert(self.data@.skip(self.pos as int) =~= rest.skip(n as int));
        assert(self.data@.take(self.pos as int) =~= self.data@.take(start as int) + buf@.take(
            n as int,
        ));
        Ok(n)
    }
}

/// What is known of a reader.
pub struct ReaderView {
    /// All bytes that were read so far.
    pub delivered: Seq<u8>,
    /// All bytes that were and will be read, where that is settled.
    pub stream: Option<Seq<u8>>,
    /// How the last read went.
    pub last: LastRead,
    /// Stored bytes of the current entry that were not read yet.
    pub pending: u64,
    /// Bytes that fill the last block of the current entry.
    pub padding: u64,
    /// How often the reader moved on to another header.
    pub turns: nat,
}

impl ReaderView {
    /// How many bytes are left of the current entry.
    pub open spec fn gap(self) -> int {
        self.pending + self.padding
    }

    /// Where the next header starts.
    pub open spec fn next_at(self) -> int {
        self.delivered.len() + self.gap()
    }

    /// Whether the input reported its end, and so delivered all it had.
    pub open spec fn ended(self) -> bool {
        self.last is Ended && (self.stream matches Some(stream) ==> self.delivered == stream)
    }

    /// Whether the input failed in this way, which none does of which it is
    /// settled what it delivers.
    pub open spec fn failed(self, error: std::io::Error) -> bool {
        self.last == LastRead::Failed(error) && self.stream is None
    }

    /// Whether a reader read on from one state to another: nothing that was
    /// read is lost, and what is settled stays so.
    pub open spec fn reads_on(self, later: ReaderView) -> bool {
        &&& self.delivered.is_prefix_of(later.delivered)
        &&& later.stream == self.stream
    }

    /// Whether the archive moved on to another header exactly if it got past
    /// what was left of the entry before.
    pub open spec fn gets_past(self, later: ReaderView) -> bool {
        self.turns < later.turns <==> self.next_at() <= later.delivered.len()
    }

    /// Whether reading broke off with this error because the input ended or
    /// failed.
    pub open spec fn broke_off(self, error: Error) -> bool {
        match error {
            Error::Tar(fault) => fault == Fault::TruncatedArchive && self.ended(),
            Error::Io(error) => self.failed(error),
        }
    }
}

/// Reading on is transitive.
pub proof fn lemma_reads_on(a: ReaderView, b: ReaderView, c: ReaderView)
    requires
        a.reads_on(b),
        b.reads_on(c),
    ensures
        a.reads_on(c),
{
    lemma_prefix_of_prefix(a.delivered, b.delivered, c.delivered);
}

/// Being a prefix is transitive.
pub proof fn lemma_prefix_of_prefix(a: Seq<u8>, b: Seq<u8>, c: Seq<u8>)
    requires
        a.is_prefix_of(b),
        b.is_prefix_of(c),
    ensures
        a.is_prefix_of(c),
{
    assert forall|i: int| 0 <= i < a.len() implies a[i] == c[i] by {
        assert(a[i] == b.subrange(0, a.len() as int)[i]);
        assert(b[i] == c.subrange(0, b.len() as int)[i]);
    }
    assert(a =~= c.subrange(0, a.len() as int));
}

/// A longer byte string agrees with a prefix of it.
pub proof fn lemma_prefix_agrees(a: Seq<u8>, b: Seq<u8>, from: int, to: int)
    requires
        a.is_prefix_of(b),
        0 <= from <= to <= a.len(),
    ensures
        a.len() <= b.len(),
        b.subrange(from, to) == a.subrange(from, to),
        forall|i: int| 0 <= i < a.len() ==> a[i] == b[i],
{
    assert forall|i: int| 0 <= i < a.len() implies a[i] == b[i] by {
        assert(a[i] == b.subrange(0, a.len() as int)[i]);
    }
    assert(b.subrange(from, to) =~= a.subrange(from, to));
}

/// A reader over an input, which counts what it reads and knows how much of
/// the current entry is left.
pub struct ReaderState<R: Input> {
    reader: R,
    raw_bytes: u64,
    pending: u64,
    padding: u64,
    generation: u64,
    base: Ghost<Seq<u8>>,
    delivered: Ghost<Seq<u8>>,
    last: Ghost<LastRead>,
    turns: Ghost<nat>,
}

impl<R: Input> View for ReaderState<R> {
    type V = ReaderView;

    closed spec fn view(&self) -> ReaderView {
        ReaderView {
            delivered: self.delivered@,
            stream: match self.reader.account().rest {
                Some(rest) => Some(self.delivered@ + rest),
                None => None,
            },
            last: self.last@,
            pending: self.pending,
            padding: self.padding,
            turns: self.turns@,
        }
    }
}

/// The count of bytes that a reader reports: their number, or the largest
/// number that 64 bits hold.
pub open spec fn counted(delivered: Seq<u8>) -> u64 {
    if delivered.len() <= u64::MAX {
        delivered.len() as u64
    } else {
        u64::MAX
    }
}

/// The mark by which an entry is recognized as the current one: how often the
/// reader moved on, in 64 bits.
pub open spec fn mark(turns: nat) -> u64 {
    (turns % 0x1_0000_0000_0000_0000) as u64
}

impl<R: Input> ReaderState<R> {
    /// What was read is what the input delivered since, the last read is the
    /// input's own, and the counters agree with what was read.
    pub closed spec fn well_formed(&self) -> bool {
        &&& self.reader.account().taken == self.base@ + self.delivered@
        &&& self.last@ is Nothing || self.last@ == self.reader.account().last
        &&& self.raw_bytes == counted(self.delivered@)
        &&& self.generation == mark(self.turns@)
    }

    /// A reader that has not read yet.
    pub(crate) fn new(reader: R) -> (state: Self)
        ensures
            state.well_formed(),
            state@ == (ReaderView {
                delivered: Seq::empty(),
                stream: reader.account().rest,
                last: LastRead::Nothing,
                pending: 0,
                padding: 0,
                turns: 0,
            }),
    {
        let ghost account = reader.account();
        let state = ReaderState {
            reader,
            raw_bytes: 0,
            pending: 0,
            padding: 0,
            generation: 0,
            base: Ghost(account.taken),
            delivered: Ghost(Seq::empty()),
            last: Ghost(LastRead::Nothing),
            turns: Ghost(0),
        };
        assert(account.rest matches Some(rest) ==> Seq::<u8>::empty() + rest =~= rest);
        assert(account.taken + Seq::<u8>::empty() =~= account.taken);
        state
    }

    /// What was read is the front of all that will be read.
    pub proof fn lemma_delivered_in_stream(&self)
        ensures
            self@.stream matches Some(stream) ==> self@.delivered.is_prefix_of(stream),
    {
        if let Some(rest) = self.reader.account().rest {
            let all = self.delivered@ + rest;
            assert(self.delivered@ =~= all.subrange(0, self.delivered@.len() as int));
        }
    }

    /// How many bytes were read so far.
    pub(crate) fn bytes_read(&self) -> (count: u64)
        requires
            self.well_formed(),
        ensures
            count == counted(self@.delivered),
    {
        self.raw_bytes
    }

    /// The mark of the current entry.
    pub(crate) fn generation(&self) -> (current: u64)
        requires
            self.well_formed(),
        ensures
            current == mark(self@.turns),
    {
        self.generation
    }

    /// How many stored bytes of the current entry were not read yet.
    pub(crate) fn pending(&self) -> (left: u64)
        ensures
            left == self@.pending,
    {
        self.pending
    }

    /// How many bytes fill the last block of the current entry.
    pub(crate) fn padding(&self) -> (fill: u64)
        ensures
            fill == self@.padding,
    {
        self.padding
    }

    /// Moves on to another header.
    pub(crate) fn turn(&mut self)
        requires
            old(self).well_formed(),
        ensures
            final(self).well_formed(),
            final(self)@ == (ReaderView { turns: old(self)@.turns + 1, ..old(self)@ }),
    {
        self.generation = self.generation.wrapping_add(1);
        self.turns = Ghost(self.turns@ + 1);
    }

    /// Sets how much is left of the current entry.
    pub(crate) fn set_left(&mut self, pending: u64, padding: u64)
        requires
            old(self).well_formed(),
        ensures
            final(self).well_formed(),
            final(self)@ == (ReaderView { pending, padding, ..old(self)@ }),
    {
        self.pending = pending;
        self.padding = padding;
    }

    /// Reads once into `buf` and counts what came.
    pub(crate) fn read_counted(&mut self, buf: &mut [u8]) -> (count: Result<usize, Error>)
        requires
            old(self).well_formed(),
            old(buf)@.len() > 0,
        ensures
            final(self).well_formed(),
            final(buf)@.len() == old(buf)@.len(),
            old(self)@.reads_on(final(self)@),
            final(self)@.pending == old(self)@.pending,
            final(self)@.padding == old(self)@.padding,
            final(self)@.turns == old(self)@.turns,
            match count {
                Ok(n) => {
                    &&& n <= old(buf)@.len()
                    &&& final(self)@.delivered == old(self)@.delivered + final(buf)@.take(n as int)
                    &&& n == 0 ==> final(self)@.ended()
                },
                Err(Error::Io(error)) => {
                    &&& final(self)@.delivered == old(self)@.delivered
                    &&& final(self)@.failed(error)
                },
                Err(Error::Tar(_)) => false,
            },
    {
        let ghost before = self.delivered@;
        let ghost rest = self.reader.account().rest;
        match self.reader.read(buf) {
            Ok(n) => {
                self.raw_bytes = self.raw_bytes.saturating_add(n as u64);
                self.delivered = Ghost(before + buf@.take(n as int));
                self.last = Ghost(
                    if n == 0 {
                        LastRead::Ended
                    } else {
                        LastRead::Data
                    },
                );
                proof {
                    if let Some(all) = rest {
                        assert((before + all.take(n as int)) + all.skip(n as int) =~= before + all);
                        if n == 0 {
                            assert(self.delivered@ + all.skip(0) =~= self.delivered@);
                        }
                    }
                    assert(before =~= (before + buf@.take(n as int)).subrange(
                        0,
                        before.len() as int,
                    ));
                    assert((self.base@ + before) + buf@.take(n as int) =~= self.base@
                        + self.delivered@);
                }
                Ok(n)
            },
            Err(error) => {
                self.last = Ghost(LastRead::Failed(error));
                assert(before =~= before.subrange(0, before.len() as int));
                Err(Error::Io(error))
            },
        }
    }

    /// Fills `buf`.
    pub(crate) fn read_exact_counted(&mut self, buf: &mut [u8]) -> (done: Result<(), Error>)
        requires
            old(self).well_formed(),
        ensures
            final(self).well_formed(),
            final(buf)@.len() == old(buf)@.len(),
            old(self)@.reads_on(final(self)@),
            final(self)@.pending == old(self)@.pending,
            final(self)@.padding == old(self)@.padding,
            final(self)@.turns == old(self)@.turns,
            match done {
                Ok(()) => final(self)@.delivered == old(self)@.delivered + final(buf)@,
                Err(error) => {
                    &&& final(self)@.broke_off(error)
                    &&& final(self)@.delivered.len() < old(self)@.delivered.len() + old(buf)@.len()
                },
            },
    {
        let ghost before = self@;
        let len: usize = buf.len();
        let mut done: usize = 0;
        assert(before.delivered + buf@.take(0) =~= before.delivered);
        assert(before.delivered =~= before.delivered.subrange(0, before.delivered.len() as int));
        while done < len
            invariant
                done <= len,
                buf@.len() == len == old(buf)@.len(),
                before == old(self)@,
                self.well_formed(),
                before.reads_on(self@),
                self@.pending == before.pending,
                self@.padding == before.padding,
                self@.turns == before.turns,
                self@.delivered == before.delivered + buf@.take(done as int),
            decreases len - done,
        {
            let ghost middle = self@;
            let (front, tail) = buf.split_at_mut(done);
            let outcome = self.read_counted(tail);
            proof {
                lemma_reads_on(before, middle, self@);
            }
            match outcome {
                Ok(n) => {
                    if n == 0 {
                        return Err(Error::Tar(Fault::TruncatedArchive));
                    }
                    done = done + n;
                    assert(self@.delivered =~= before.delivered + buf@.take(done as int));
                },
                Err(error) => {
                    return Err(error);
                },
            }
        }
        assert(buf@.take(len as int) =~= buf@);
        Ok(())
    }

    /// Reads and drops `amount` bytes.
    pub(crate) fn skip(&mut self, amount: u64) -> (done: Result<(), Error>)
        requires
            old(self).well_formed(),
        ensures
            final(self).well_formed(),
            old(self)@.reads_on(final(self)@),
            final(self)@.pending == old(self)@.pending,
            final(self)@.padding == old(self)@.padding,
            final(self)@.turns == old(self)@.turns,
            match done {
                Ok(()) => final(self)@.delivered.len() == old(self)@.delivered.len() + amount,
                Err(error) => {
                    &&& final(self)@.broke_off(error)
                    &&& final(self)@.delivered.len() < old(self)@.delivered.len() + amount
                },
            },
    {
        let ghost before = self@;
        let mut left: u64 = amount;
        let mut buf: Vec<u8> = vec![0u8; 8192];
        assert(before.delivered =~= before.delivered.subrange(0, before.delivered.len() as int));
        while left != 0
            invariant
                buf@.len() == 8192,
                left <= amount,
                before == old(self)@,
                self.well_formed(),
                before.reads_on(self@),
                self@.pending == before.pending,
                self@.padding == before.padding,
                self@.turns == before.turns,
                self@.delivered.len() == before.delivered.len() + (amount - left),
            decreases left,
        {
            let ghost middle = self@;
            let want: usize = if left < 8192 {
                left as usize
            } else {
                8192
            };
            let (part, spare) = buf.split_at_mut(want);
            let outcome = self.read_exact_counted(part);
            proof {
                lemma_reads_on(before, middle, self@);
            }
            match outcome {
                Ok(()) => {
                    left = left - want as u64;
                },
                Err(error) => {
                    return Err(error);
                },
            }
        }
        Ok(())
    }

    /// Reads and drops what is left of the current entry.
    pub(crate) fn finish_entry(&mut self) -> (done: Result<(), Error>)
        requires
            old(self).well_formed(),
        ensures
            final(self).well_formed(),
            old(self)@.reads_on(final(self)@),
            final(self)@.turns == old(self)@.turns,
            match done {
                Ok(()) => {
                    &&& final(self)@.delivered.len() == old(self)@.delivered.len() + old(
                        self,
                    )@.gap()
                    &&& final(self)@.pending == 0
                    &&& final(self)@.padding == 0
                },
                Err(error) => {
                    &&& final(self)@.broke_off(error)
                    &&& final(self)@.delivered.len() < old(self)@.delivered.len() + old(
                        self,
                    )@.gap()
                },
            },
    {
        let ghost before = self@;
        self.skip(self.pending)?;
        let ghost middle = self@;
        self.pending = 0;
        let outcome = self.skip(self.padding);
        proof {
            lemma_reads_on(before, middle, self@);
        }
        outcome?;
        self.padding = 0;
        Ok(())
    }

    /// Reads stored bytes of the entry with the given mark into `buf`.
    pub(crate) fn read_entry_data(&mut self, generation: u64, buf: &mut [u8]) -> (count: Result<
        usize,
        Error,
    >)
        requires
            old(self).well_formed(),
        ensures
            final(self).well_formed(),
            final(buf)@.len() == old(buf)@.len(),
            old(self)@.reads_on(final(self)@),
            final(self)@.padding == old(self)@.padding,
            final(self)@.turns == old(self)@.turns,
            generation != mark(old(self)@.turns) ==> count == Err::<usize, Error>(
                Error::Tar(Fault::StaleEntry),
            ) && final(self)@ == old(self)@ && final(buf)@ == old(buf)@,
            generation == mark(old(self)@.turns) ==> match count {
                Ok(n) => {
                    &&& n <= old(self)@.pending
                    &&& n <= old(buf)@.len()
                    &&& n == 0 ==> (old(self)@.pending == 0 || old(buf)@.len() == 0)
                        && final(self)@ == old(self)@
                    &&& final(self)@.delivered == old(self)@.delivered + final(buf)@.take(n as int)
                    &&& final(self)@.pending == old(self)@.pending - n
                },
                Err(Error::Tar(fault)) => {
                    &&& fault == Fault::TruncatedEntryData
                    &&& final(self)@.ended()
                    &&& old(self)@.pending > 0
                    &&& old(buf)@.len() > 0
                    &&& final(self)@.delivered == old(self)@.delivered
                    &&& final(self)@.pending == old(self)@.pending
                },
                Err(Error::Io(error)) => {
                    &&& final(self)@.failed(error)
                    &&& old(self)@.pending > 0
                    &&& old(buf)@.len() > 0
                    &&& final(self)@.delivered == old(self)@.delivered
                    &&& final(self)@.pending == old(self)@.pending
                },
            },
    {
        let ghost before = self@;
        assert(before.delivered =~= before.delivered.subrange(0, before.delivered.len() as int));
        assert(before.delivered + buf@.take(0) =~= before.delivered);
        if generation != self.generation {
            return Err(Error::Tar(Fault::StaleEntry));
        }
        let want: usize = if self.pending < buf.len() as u64 {
            self.pending as usize
        } else {
            buf.len()
        };
        if want == 0 {
            return Ok(0);
        }
        let (part, spare) = buf.split_at_mut(want);
        let n: usize = self.read_counted(part)?;
        assert(buf@.take(n as int) =~= part@.take(n as int));
        if n == 0 {
            assert(part@.take(0) =~= Seq::<u8>::empty());
            assert(self@.delivered =~= before.delivered);
            return Err(Error::Tar(Fault::TruncatedEntryData));
        }
        self.pending = self.pending - n as u64;
        Ok(n)
    }
}

} // verus!
