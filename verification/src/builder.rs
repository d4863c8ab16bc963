//! Writing an archive.

use vstd::prelude::*;
use vstd::slice::{slice_subrange, slice_to_vec};

use crate::bytes::zeros;
use crate::error::{Error, Fault};
use crate::header::{
    encode_header, header_block, header_fault, padding, padding_of, EntryType, Header, HeaderView,
};
use crate::member::MAX_PAX_SIZE;
use crate::number::power;
use crate::reader::{lemma_prefix_agrees, lemma_prefix_of_prefix, Cursor, Input, InputAccount};

verus! {

/// What a sink took and how it fared.
pub struct OutputAccount {
    /// All bytes that it took.
    pub given: Seq<u8>,
    /// How an operation failed, if one did.
    pub trouble: Option<std::io::Error>,
    /// Whether it never fails, as bytes in memory do not.
    pub sure: bool,
}

/// Whether a sink goes from one account to another by the writing of bytes: it
/// takes all of them, or it fails and takes some.
pub open spec fn writes_all(
    before: OutputAccount,
    data: Seq<u8>,
    done: Result<(), std::io::Error>,
    after: OutputAccount,
) -> bool {
    match done {
        Ok(()) => after == (OutputAccount { given: before.given + data, ..before }),
        Err(error) => {
            &&& after.trouble == Some(error)
            &&& !before.sure
            &&& !after.sure
            &&& before.given.is_prefix_of(after.given)
            &&& after.given.is_prefix_of(before.given + data)
        },
    }
}

/// Whether a sink goes from one account to another by bringing what it took to
/// its destination, or by failing to do so.
pub open spec fn flushes(
    before: OutputAccount,
    done: Result<(), std::io::Error>,
    after: OutputAccount,
) -> bool {
    match done {
        Ok(()) => after == before,
        Err(error) => !before.sure && after == (OutputAccount { trouble: Some(error), ..before }),
    }
}

/// A sink for bytes, in the manner of `std::io::Write`.
pub trait Output {
    /// What the sink took and how it fared.
    open spec fn account(&self) -> OutputAccount {
        arbitrary()
    }

    /// Writes all of `data`.
    fn write_all(&mut self, data: &[u8]) -> (done: Result<(), std::io::Error>)
        ensures
            writes_all(old(self).account(), data@, done, final(self).account()),
    ;

    /// Brings what was written to its destination.
    fn flush(&mut self) -> (done: Result<(), std::io::Error>)
        ensures
            flushes(old(self).account(), done, final(self).account()),
    ;
}

impl Output for Vec<u8> {
    open spec fn account(&self) -> OutputAccount {
        OutputAccount { given: self@, trouble: None, sure: true }
    }

    fn write_all(&mut self, data: &[u8]) -> (done: Result<(), std::io::Error>) {
        self.extend_from_slice(data);
        assert(self@ =~= old(self)@ + data@);
        Ok(())
    }

    fn flush(&mut self) -> (done: Result<(), std::io::Error>) {
        Ok(())
    }
}

/// What is known of an archive writer.
pub struct BuilderView {
    /// What the sink took before.
    pub base: Seq<u8>,
    /// What the sink took since.
    pub written: Seq<u8>,
    /// How the sink failed, if it did.
    pub trouble: Option<std::io::Error>,
    /// Whether the sink never fails.
    pub sure: bool,
    /// Whether the end of the archive was written.
    pub finished: bool,
    /// Whether writing broke off in the middle of an entry.
    pub poisoned: bool,
}

/// A synchronous, streaming tar archive writer.
///
/// The writer emits deterministic GNU-format headers: unused fields are
/// zeroed and checksums are always recalculated by the builder.
pub struct Builder<W: Output> {
    inner: W,
    finished: bool,
    poisoned: bool,
    base: Ghost<Seq<u8>>,
    written: Ghost<Seq<u8>>,
}

impl<W: Output> View for Builder<W> {
    type V = BuilderView;

    closed spec fn view(&self) -> BuilderView {
        BuilderView {
            base: self.base@,
            written: self.written@,
            trouble: self.inner.account().trouble,
            sure: self.inner.account().sure,
            finished: self.finished,
            poisoned: self.poisoned,
        }
    }
}

/// The bytes of an entry: its header, its data, and what fills the last block.
pub open spec fn entry_bytes(header: HeaderView, data: Seq<u8>) -> Seq<u8> {
    header_block(header) + data + zeros(padding_of(header.stored_size) as nat)
}

/// The path in the header of a GNU long-name or long-link record.
pub open spec fn long_record_path() -> Seq<u8> {
    seq![46u8, 47, 46, 47, 64, 76, 111, 110, 103, 76, 105, 110, 107]
}

/// The header of a GNU long-name or long-link record.
pub open spec fn long_record_header(flag: u8, len: nat) -> HeaderView {
    HeaderView {
        path: long_record_path(),
        link_name: None,
        mode: 0o644,
        uid: 0,
        gid: 0,
        stored_size: (len + 1) as u64,
        mtime: 0,
        type_flag: flag,
    }
}

/// A GNU record that holds a long path or link target, if it is too long for
/// its header field.
pub open spec fn long_record(flag: u8, value: Seq<u8>) -> Seq<u8> {
    if value.len() > 100 {
        entry_bytes(long_record_header(flag, value.len()), value.push(0))
    } else {
        Seq::empty()
    }
}

/// All that stands before the header of an entry.
pub open spec fn before_header(header: HeaderView) -> Seq<u8> {
    (match header.link_name {
        Some(target) => long_record(75, target),
        None => Seq::empty(),
    }) + long_record(76, header.path)
}

/// The header under which data is appended at a path.
pub open spec fn data_header(header: HeaderView, path: Seq<u8>) -> HeaderView {
    HeaderView { path, ..header }
}

/// The header under which a link is appended at a path.
pub open spec fn link_header(header: HeaderView, path: Seq<u8>, target: Seq<u8>) -> HeaderView {
    HeaderView { path, link_name: Some(target), stored_size: 0, ..header }
}

/// The bytes of an appended link.
pub open spec fn link_bytes(header: HeaderView) -> Seq<u8> {
    before_header(header) + entry_bytes(header, Seq::empty())
}

/// Whether a path or link target can be written: a short one ends at its first
/// zero byte, and a long one has a zero byte after it in its record.
pub open spec fn is_writable(value: Seq<u8>) -> bool {
    if value.len() <= 100 {
        forall|i: int| 0 <= i < value.len() ==> #[trigger] value[i] != 0
    } else {
        value.last() != 0
    }
}

/// Whether a link target fits its header field, which is all that it gets where
/// data is appended.
pub open spec fn fits_field(target: Seq<u8>) -> bool {
    0 < target.len() <= 100 && is_writable(target)
}

/// Finds out whether a path or link target can be written.
fn check_writable(value: &[u8]) -> (writable: bool)
    ensures
        writable == is_writable(value@),
{
    let len: usize = value.len();
    if len > 100 {
        return value[len - 1] != 0;
    }
    let mut i: usize = 0;
    while i < len
        invariant
            i <= len == value@.len(),
            len <= 100,
            forall|k: int| 0 <= k < i ==> value@[k] != 0,
        decreases len - i,
    {
        if value[i] == 0 {
            assert(value@[i as int] == 0);
            return false;
        }
        i = i + 1;
    }
    true
}

/// Whether a path or link target needs a GNU record that a reader would refuse.
pub open spec fn too_long(value: Seq<u8>) -> bool {
    value.len() > 100 && value.len() + 1 > MAX_PAX_SIZE
}

impl BuilderView {
    /// A writer that has written nothing, to a sink that never fails.
    pub open spec fn empty() -> BuilderView {
        BuilderView {
            base: Seq::empty(),
            written: Seq::empty(),
            trouble: None,
            sure: true,
            finished: false,
            poisoned: false,
        }
    }

    /// Why nothing can be appended any more.
    pub open spec fn closed_fault(self) -> Option<Fault> {
        if self.poisoned {
            Some(Fault::PoisonedAppend)
        } else if self.finished {
            Some(Fault::FinishedAppend)
        } else {
            None
        }
    }

    /// Why data is refused under a header.
    pub open spec fn data_fault(self, header: HeaderView) -> Option<Fault> {
        if header.path.len() == 0 {
            Some(Fault::EmptyPath)
        } else if header_fault(header) is Some {
            header_fault(header)
        } else if !is_writable(header.path) {
            Some(Fault::UnwritablePath)
        } else if header.link_name matches Some(target) && !fits_field(target) {
            Some(Fault::UnwritableTarget)
        } else if too_long(header.path) {
            Some(Fault::LongRecordTooLarge)
        } else {
            self.closed_fault()
        }
    }

    /// Why a link is refused, given its header.
    pub open spec fn link_fault(self, header: HeaderView) -> Option<Fault> {
        if !is_link(EntryType::of_flag(header.type_flag)) {
            Some(Fault::NotALink)
        } else if header.path.len() == 0 {
            Some(Fault::EmptyPath)
        } else if header.link_name == Some(Seq::<u8>::empty()) {
            Some(Fault::EmptyTarget)
        } else if header_fault(header) is Some {
            header_fault(header)
        } else if !is_writable(header.path) {
            Some(Fault::UnwritablePath)
        } else if header.link_name matches Some(target) && !is_writable(target) {
            Some(Fault::UnwritableTarget)
        } else if too_long(header.path) || (header.link_name matches Some(target) && too_long(
            target,
        )) {
            Some(Fault::LongRecordTooLarge)
        } else {
            self.closed_fault()
        }
    }

    /// Whether only bytes were added to what was written.
    pub open spec fn writes_on(self, later: BuilderView) -> bool {
        &&& self.base == later.base
        &&& self.sure == later.sure
        &&& self.finished == later.finished
        &&& self.written.is_prefix_of(later.written)
    }

    /// Whether the sink failed with this error, which none does that never
    /// fails.
    pub open spec fn failed(self, error: Error) -> bool {
        !self.sure && (error matches Error::Io(error) && self.trouble == Some(error))
    }

    /// The writer after these bytes were written.
    pub open spec fn with(self, bytes: Seq<u8>) -> BuilderView {
        BuilderView { written: self.written + bytes, ..self }
    }
}

/// Whether a kind of entry is a link.
pub open spec fn is_link(kind: EntryType) -> bool {
    kind is Symlink || kind is Hardlink
}

impl<W: Output> Builder<W> {
    /// What was written is what the sink took.
    pub closed spec fn well_formed(&self) -> bool {
        self.inner.account().given == self.base@ + self.written@
    }

    /// Creates an archive writer around `inner`.
    pub fn new(inner: W) -> (builder: Self)
        ensures
            builder.well_formed(),
            builder@ == (BuilderView {
                base: inner.account().given,
                written: Seq::empty(),
                trouble: inner.account().trouble,
                sure: inner.account().sure,
                finished: false,
                poisoned: false,
            }),
    {
        let ghost base = inner.account().given;
        let builder = Builder {
            inner,
            finished: false,
            poisoned: false,
            base: Ghost(base),
            written: Ghost(Seq::empty()),
        };
        assert(base + Seq::<u8>::empty() =~= base);
        builder
    }

    /// Writes bytes and keeps account of them.
    fn put(&mut self, data: &[u8]) -> (done: Result<(), Error>)
        requires
            old(self).well_formed(),
        ensures
            final(self).well_formed(),
            done is Ok ==> final(self)@ == old(self)@.with(data@),
            done matches Err(error) ==> {
                &&& old(self)@.writes_on(final(self)@)
                &&& final(self)@.poisoned == old(self)@.poisoned
                &&& final(self)@.failed(error)
            },
    {
        let ghost before = self.inner.account().given;
        let ghost base = self.base@;
        let outcome = self.inner.write_all(data);
        let ghost given = self.inner.account().given;
        self.written = Ghost(given.skip(base.len() as int));
        proof {
            let then = old(self).written@;
            if outcome is Ok {
                assert((base + then) + data@ =~= base + (then + data@));
                assert(self.written@ =~= then + data@);
            }
            lemma_prefix_agrees(before, given, 0, 0);
            assert(given =~= base + self.written@);
            assert(then =~= self.written@.subrange(0, then.len() as int));
        }
        match outcome {
            Ok(()) => Ok(()),
            Err(error) => Err(Error::Io(error)),
        }
    }

    /// Copies `size` bytes from an input to the sink.
    fn copy<D: Input>(&mut self, data: &mut D, size: u64) -> (done: Result<(), Error>)
        requires
            old(self).well_formed(),
        ensures
            final(self).well_formed(),
            old(self)@.writes_on(final(self)@),
            final(self)@.poisoned == old(self)@.poisoned,
            copy_outcome(
                old(self)@,
                old(data).account(),
                size,
                done,
                final(self)@,
                final(data).account(),
            ),
    {
        let ghost before = self@;
        let ghost from = data.account();
        let mut copied: u64 = 0;
        let mut buf: Vec<u8> = vec![0u8; 8192];
        let ghost mut got: Seq<u8> = Seq::empty();
        proof {
            assert(before.written + got =~= before.written);
            assert(before.written =~= before.written.subrange(0, before.written.len() as int));
            assert(from.taken + got =~= from.taken);
            assert(from.rest matches Some(all) ==> all.skip(0) =~= all && all.subrange(0, 0)
                =~= got);
        }
        while copied < size
            invariant
                buf@.len() == 8192,
                copied <= size,
                before == old(self)@,
                from == old(data).account(),
                self.well_formed(),
                self@ == before.with(got),
                before.writes_on(self@),
                got.len() == copied,
                from.gives(got, data.account()),
            decreases size - copied,
        {
            let left: u64 = size - copied;
            let want: usize = if left < 8192 {
                left as usize
            } else {
                8192
            };
            let (part, spare) = buf.split_at_mut(want);
            let ghost earlier = data.account();
            let outcome = data.read(part);
            let ghost then = data.account();
            match outcome {
                Ok(n) => {
                    let ghost piece = part@.take(n as int);
                    proof {
                        if let Some(rest) = earlier.rest {
                            assert(piece =~= rest.subrange(0, n as int));
                        }
                        lemma_gives(from, earlier, got, piece, then);
                        assert(from.taken =~= then.taken.subrange(0, from.taken.len() as int));
                        assert(from.gained(then) =~= got + piece);
                    }
                    if n == 0 {
                        assert(got + piece =~= got);
                        return Err(Error::Tar(Fault::ShortData));
                    }
                    assert(buf@.subrange(0, n as int) =~= piece);
                    let ghost middle = self@;
                    let done = self.put(slice_subrange(buf.as_slice(), 0, n));
                    proof {
                        lemma_prefix_of_prefix(before.written, middle.written, self@.written);
                        assert((before.written + got) + piece =~= before.written + (got + piece));
                        got = got + piece;
                    }
                    done?;
                    copied = copied + n as u64;
                },
                Err(error) => {
                    assert(from.taken =~= then.taken.subrange(0, from.taken.len() as int));
                    return Err(Error::Io(error));
                },
            }
        }
        assert(from.gained(data.account()) =~= got);
        Ok(())
    }

    /// Writes an entry whose header is known to be writable. What breaks off in
    /// the middle of it poisons the archive.
    fn append_resolved<D: Input>(&mut self, header: &Header, data: &mut D) -> (done: Result<
        (),
        Error,
    >)
        requires
            old(self).well_formed(),
            header_fault(header@) is None,
        ensures
            final(self).well_formed(),
            old(self)@.closed_fault() matches Some(fault) ==> done == Err::<(), Error>(
                Error::Tar(fault),
            ) && final(self)@ == old(self)@ && final(data).account() == old(data).account(),
            old(self)@.closed_fault() is None ==> entry_outcome(
                old(self)@,
                Seq::empty(),
                header@,
                old(data).account(),
                done,
                final(self)@,
                final(data).account(),
            ),
    {
        if self.poisoned {
            return Err(Error::Tar(Fault::PoisonedAppend));
        }
        if self.finished {
            return Err(Error::Tar(Fault::FinishedAppend));
        }
        let result = self.write_entry(header, data);
        if result.is_err() {
            self.poisoned = true;
        }
        result
    }

    /// Writes an entry whose header is known to be writable.
    fn write_entry<D: Input>(&mut self, header: &Header, data: &mut D) -> (done: Result<(), Error>)
        requires
            old(self).well_formed(),
            !old(self)@.poisoned,
            header_fault(header@) is None,
        ensures
            final(self).well_formed(),
            final(self)@.poisoned == old(self)@.poisoned,
            entry_outcome(
                old(self)@,
                Seq::empty(),
                header@,
                old(data).account(),
                done,
                (BuilderView { poisoned: done is Err, ..final(self)@ }),
                final(data).account(),
            ),
    {
        let ghost before = self@;
        let ghost none = Seq::<u8>::empty();
        let ghost from = data.account();
        proof {
            assert(before.written =~= before.written.subrange(0, before.written.len() as int));
            assert(from.taken =~= from.taken.subrange(0, from.taken.len() as int));
        }
        let block = match encode_header(header) {
            Ok(block) => block,
            Err(fault) => {
                return Err(Error::Tar(fault));
            },
        };
        self.put(block.as_slice())?;
        let ghost middle = self@;
        let size: u64 = header.stored_size();
        let outcome = self.copy(data, size);
        let ghost late = self@;
        let ghost got = from.gained(data.account());
        proof {
            assert(before.written =~= middle.written.subrange(0, before.written.len() as int));
            lemma_prefix_of_prefix(before.written, middle.written, late.written);
            if let Err(Error::Tar(_)) = outcome {
                assert(late.written =~= before.written + (none + (header_block(header@) + got)));
            }
        }
        outcome?;
        let pad: u64 = padding(size);
        if pad != 0 {
            let fill: Vec<u8> = vec![0u8; pad as usize];
            let done = self.put(fill.as_slice());
            proof {
                lemma_prefix_of_prefix(before.written, late.written, self@.written);
                assert(from.taken =~= data.account().taken.subrange(0, from.taken.len() as int));
            }
            done?;
            assert(fill@ =~= zeros(pad as nat));
        }
        proof {
            assert(self@.written =~= before.written + (none + entry_bytes(header@, got)));
        }
        Ok(())
    }

    /// Writes a GNU record with a long path or link target.
    fn append_long_record(&mut self, flag: u8, value: &[u8]) -> (done: Result<(), Error>)
        requires
            old(self).well_formed(),
            100 < value@.len() < MAX_PAX_SIZE,
            EntryType::of_flag(flag) == EntryType::Other(flag),
        ensures
            final(self).well_formed(),
            old(self)@.closed_fault() matches Some(fault) ==> done == Err::<(), Error>(
                Error::Tar(fault),
            ) && final(self)@ == old(self)@,
            old(self)@.closed_fault() is None ==> plain_outcome(
                old(self)@,
                long_record(flag, value@),
                done,
                final(self)@,
            ),
    {
        let ghost before = self@;
        let mut header = Header::new_gnu(EntryType::Other(flag));
        let name: Vec<u8> = vec![46u8, 47, 46, 47, 64, 76, 111, 110, 103, 76, 105, 110, 107];
        header.set_path(name);
        header.set_mode(0o644);
        header.set_size(value.len() as u64 + 1);
        let mut data: Vec<u8> = slice_to_vec(value);
        data.push(0);
        let ghost all = data@;
        proof {
            assert(name@ =~= long_record_path());
            assert(header@ == long_record_header(flag, value@.len()));
            reveal_with_fuel(power, 12);
            assert(all.take(all.len() as int) =~= all);
        }
        let mut input = Cursor::new(data);
        let done = self.append_resolved(&header, &mut input);
        proof {
            if before.closed_fault() is None && done is Ok {
                assert(self@.written =~= before.written + long_record(flag, value@));
            }
        }
        done
    }

    /// Appends an entry at `path`.
    ///
    /// Exactly `header.stored_size()` bytes are read from `data`, and none if the
    /// entry is refused. Paths longer than the GNU header field are emitted using
    /// a GNU long-name record. The path must not be empty, nor longer than a
    /// reader accepts, nor hold a zero byte that would end it, and the header has
    /// to fit its fields, with a link target too if it has one; what is refused
    /// leaves the archive as it was.
    pub fn append_data<D: Input>(
        &mut self,
        header: &mut Header,
        path: &[u8],
        data: &mut D,
    ) -> (done: Result<(), Error>)
        requires
            old(self).well_formed(),
        ensures
            final(self).well_formed(),
            final(header)@ == if path@.len() == 0 {
                old(header)@
            } else {
                data_header(old(header)@, path@)
            },
            data_outcome(
                old(self)@,
                data_header(old(header)@, path@),
                old(data).account(),
                done,
                final(self)@,
                final(data).account(),
            ),
    {
        let ghost before = self@;
        let ghost from = data.account();
        if path.len() == 0 {
            return Err(Error::Tar(Fault::EmptyPath));
        }
        header.set_path(slice_to_vec(path));
        let ghost h = header@;
        if let Err(fault) = encode_header(header) {
            return Err(Error::Tar(fault));
        }
        if !check_writable(path) {
            return Err(Error::Tar(Fault::UnwritablePath));
        }
        if let Some(target) = header.link_name() {
            if target.len() == 0 || target.len() > 100 || !check_writable(target) {
                return Err(Error::Tar(Fault::UnwritableTarget));
            }
        }
        if path.len() > 100 {
            if path.len() as u64 >= MAX_PAX_SIZE {
                return Err(Error::Tar(Fault::LongRecordTooLarge));
            }
            self.append_long_record(76, path)?;
        }
        let ghost middle = self@;
        assert(middle.written =~= before.written + long_record(76, path@));
        let done = self.append_resolved(header, data);
        proof {
            if before.closed_fault() is None {
                lemma_after_front(
                    before,
                    middle,
                    long_record(76, path@),
                    h,
                    from,
                    done,
                    self@,
                    data.account(),
                );
            }
        }
        done
    }

    /// Appends a symbolic or hard link.
    ///
    /// Link targets longer than the GNU header field are emitted using a GNU
    /// long-link record. The header has to be that of a link, path and target
    /// must not be empty, nor longer than a reader accepts, nor hold a zero byte
    /// that would end them, and the header has to fit its fields; what is
    /// refused leaves the archive as it was.
    pub fn append_link(&mut self, header: &mut Header, path: &[u8], target: &[u8]) -> (done: Result<
        (),
        Error,
    >)
        requires
            old(self).well_formed(),
        ensures
            final(self).well_formed(),
            final(header)@ == if !is_link(EntryType::of_flag(old(header)@.type_flag)) || path@.len()
                == 0 || target@.len() == 0 {
                old(header)@
            } else {
                link_header(old(header)@, path@, target@)
            },
            link_outcome(
                old(self)@,
                link_header(old(header)@, path@, target@),
                done,
                final(self)@,
            ),
    {
        match EntryType::from_flag(header.type_flag()) {
            EntryType::Symlink | EntryType::Hardlink => {},
            _ => {
                return Err(Error::Tar(Fault::NotALink));
            },
        }
        if path.len() == 0 {
            return Err(Error::Tar(Fault::EmptyPath));
        }
        if target.len() == 0 {
            assert(target@ =~= Seq::<u8>::empty());
            return Err(Error::Tar(Fault::EmptyTarget));
        }
        header.set_link_name(slice_to_vec(target));
        header.set_size(0);
        header.set_path(slice_to_vec(path));
        if let Err(fault) = encode_header(header) {
            return Err(Error::Tar(fault));
        }
        if !check_writable(path) {
            return Err(Error::Tar(Fault::UnwritablePath));
        }
        if !check_writable(target) {
            return Err(Error::Tar(Fault::UnwritableTarget));
        }
        if (target.len() > 100 && target.len() as u64 >= MAX_PAX_SIZE) || (path.len() > 100
            && path.len() as u64 >= MAX_PAX_SIZE) {
            return Err(Error::Tar(Fault::LongRecordTooLarge));
        }
        self.write_link(header, path, target)
    }

    /// Writes a link whose header, path and target are known to be writable.
    fn write_link(&mut self, header: &Header, path: &[u8], target: &[u8]) -> (done: Result<
        (),
        Error,
    >)
        requires
            old(self).well_formed(),
            header_fault(header@) is None,
            header@.path == path@,
            header@.link_name == Some(target@),
            header@.stored_size == 0,
            !too_long(path@),
            !too_long(target@),
        ensures
            final(self).well_formed(),
            match old(self)@.closed_fault() {
                Some(fault) => done == Err::<(), Error>(Error::Tar(fault)) && final(self)@ == old(
                    self,
                )@,
                None => plain_outcome(old(self)@, link_bytes(header@), done, final(self)@),
            },
    {
        let ghost before = self@;
        let ghost h = header@;
        if target.len() > 100 {
            self.append_long_record(75, target)?;
        }
        let ghost one = self@;
        assert(one.written =~= before.written + long_record(75, target@));
        if path.len() > 100 {
            let done = self.append_long_record(76, path);
            proof {
                if before.closed_fault() is None {
                    lemma_prefix_of_prefix(before.written, one.written, self@.written);
                }
            }
            done?;
        }
        let ghost two = self@;
        assert(two.written =~= before.written + before_header(h));
        let mut empty = Cursor::new(Vec::new());
        let ghost from = empty.account();
        let done = self.append_resolved(header, &mut empty);
        proof {
            if before.closed_fault() is None {
                assert(before.written =~= two.written.subrange(0, before.written.len() as int));
                lemma_prefix_of_prefix(before.written, two.written, self@.written);
                if done is Ok {
                    assert(from.gained(empty.account()) =~= Seq::<u8>::empty());
                    assert(self@.written =~= before.written + link_bytes(h));
                }
            }
        }
        done
    }

    /// Writes the two zero blocks that terminate a tar archive. Once they are
    /// written there is nothing left to do. A poisoned archive cannot be
    /// finished.
    pub fn finish(&mut self) -> (done: Result<(), Error>)
        requires
            old(self).well_formed(),
        ensures
            final(self).well_formed(),
            finish_outcome(old(self)@, done, final(self)@),
    {
        let ghost before = self@;
        if self.poisoned {
            return Err(Error::Tar(Fault::PoisonedFinish));
        }
        if !self.finished {
            let blocks: Vec<u8> = vec![0u8; 1024];
            assert(blocks@ =~= zeros(1024));
            proof {
                assert(before.written =~= before.written.subrange(0, before.written.len() as int));
                assert(before.written =~= (before.written + zeros(1024)).subrange(
                    0,
                    before.written.len() as int,
                ));
            }
            if let Err(error) = self.put(blocks.as_slice()) {
                self.poisoned = true;
                return Err(error);
            }
            if let Err(error) = self.inner.flush() {
                self.poisoned = true;
                return Err(Error::Io(error));
            }
            self.finished = true;
        }
        Ok(())
    }

    /// Finishes the archive and returns the wrapped writer.
    pub fn into_inner(self) -> (inner: Result<W, Error>)
        requires
            self.well_formed(),
        ensures
            self@.poisoned ==> inner == Err::<W, Error>(Error::Tar(Fault::PoisonedFinish)),
            !self@.poisoned ==> match inner {
                Ok(sink) => sink.account().given == self@.base + finished_bytes(self@),
                Err(error) => error is Io && !self@.sure && !self@.finished,
            },
    {
        let mut builder = self;
        builder.finish()?;
        Ok(builder.inner)
    }
}

/// Whether the outcome of appending data under a header is that it was refused,
/// which changes nothing and takes nothing from the input, or that of writing
/// the entry.
pub open spec fn data_outcome(
    before: BuilderView,
    header: HeaderView,
    from: InputAccount,
    done: Result<(), Error>,
    after: BuilderView,
    left: InputAccount,
) -> bool {
    match before.data_fault(header) {
        Some(fault) => {
            &&& done == Err::<(), Error>(Error::Tar(fault))
            &&& after == before
            &&& left == from
        },
        None => entry_outcome(
            before,
            long_record(76, header.path),
            header,
            from,
            done,
            after,
            left,
        ),
    }
}

/// Whether the outcome of appending a link under a header is that it was refused,
/// which changes nothing, or that of writing it.
pub open spec fn link_outcome(
    before: BuilderView,
    header: HeaderView,
    done: Result<(), Error>,
    after: BuilderView,
) -> bool {
    match before.link_fault(header) {
        Some(fault) => done == Err::<(), Error>(Error::Tar(fault)) && after == before,
        None => plain_outcome(before, link_bytes(header), done, after),
    }
}

/// All that a writer has written once it is finished.
pub open spec fn finished_bytes(builder: BuilderView) -> Seq<u8> {
    if builder.finished {
        builder.written
    } else {
        builder.written + zeros(1024)
    }
}

/// Whether the outcome of finishing is that the end of the archive is written,
/// or that the writer is poisoned.
pub open spec fn finish_outcome(
    before: BuilderView,
    done: Result<(), Error>,
    after: BuilderView,
) -> bool {
    if before.poisoned {
        done == Err::<(), Error>(Error::Tar(Fault::PoisonedFinish)) && after == before
    } else {
        match done {
            Ok(()) => after == (BuilderView {
                written: finished_bytes(before),
                finished: true,
                ..before
            }),
            Err(error) => {
                &&& after.failed(error)
                &&& !before.finished
                &&& before.writes_on(after)
                &&& after.poisoned
            },
        }
    }
}

/// Whether the outcome of writing bytes that are at hand is that they were
/// written, or that the writer is poisoned because an operation failed.
pub open spec fn plain_outcome(
    before: BuilderView,
    bytes: Seq<u8>,
    done: Result<(), Error>,
    after: BuilderView,
) -> bool {
    match done {
        Ok(()) => after == before.with(bytes),
        Err(error) => {
            &&& after.failed(error)
            &&& before.writes_on(after)
            &&& after.poisoned
        },
    }
}

/// The outcome of writing an entry, once what stands before it is written.
proof fn lemma_after_front(
    before: BuilderView,
    middle: BuilderView,
    front: Seq<u8>,
    header: HeaderView,
    from: InputAccount,
    done: Result<(), Error>,
    after: BuilderView,
    left: InputAccount,
)
    requires
        middle == before.with(front),
        entry_outcome(middle, Seq::empty(), header, from, done, after, left),
    ensures
        entry_outcome(before, front, header, from, done, after, left),
{
    let none = Seq::<u8>::empty();
    let data = from.gained(left);
    assert(before.written =~= middle.written.subrange(0, before.written.len() as int));
    match done {
        Ok(()) => {
            assert(middle.written + (none + entry_bytes(header, data)) =~= before.written + (front
                + entry_bytes(header, data)));
        },
        Err(Error::Tar(_)) => {
            assert(middle.written + (none + (header_block(header) + data)) =~= before.written + (
            front + (header_block(header) + data)));
        },
        Err(Error::Io(_)) => {
            lemma_prefix_of_prefix(before.written, middle.written, after.written);
        },
    }
}

/// Whether the outcome of writing an entry is that it was written with all its
/// data, which is what the input delivered, or that the writer is poisoned
/// because the data was too short, or the sink or the input failed.
pub open spec fn entry_outcome(
    before: BuilderView,
    front: Seq<u8>,
    header: HeaderView,
    from: InputAccount,
    done: Result<(), Error>,
    after: BuilderView,
    left: InputAccount,
) -> bool {
    let data = from.gained(left);
    &&& from.taken.is_prefix_of(left.taken)
    &&& match done {
        Ok(()) => {
            &&& data.len() == header.stored_size
            &&& from.gives(data, left)
            &&& after == before.with(front + entry_bytes(header, data))
        },
        Err(Error::Tar(fault)) => {
            &&& fault == Fault::ShortData
            &&& data.len() < header.stored_size
            &&& from.gives(data, left)
            &&& left.ended()
            &&& after == (BuilderView {
                poisoned: true,
                ..before.with(front + (header_block(header) + data))
            })
        },
        Err(Error::Io(error)) => {
            &&& after.poisoned
            &&& before.writes_on(after)
            &&& after.failed(Error::Io(error)) || (from.rest is None && left.failed(error))
        },
    }
}

/// Whether the outcome of copying `size` bytes is what the input has: all of
/// them, or fewer where it ends before.
pub open spec fn copy_outcome(
    before: BuilderView,
    from: InputAccount,
    size: u64,
    done: Result<(), Error>,
    after: BuilderView,
    left: InputAccount,
) -> bool {
    let got = from.gained(left);
    &&& from.taken.is_prefix_of(left.taken)
    &&& match done {
        Ok(()) => got.len() == size && from.gives(got, left) && after == before.with(got),
        Err(Error::Tar(fault)) => {
            &&& fault == Fault::ShortData
            &&& got.len() < size
            &&& from.gives(got, left)
            &&& left.ended()
            &&& after == before.with(got)
        },
        Err(Error::Io(error)) => after.failed(Error::Io(error)) || (from.rest is None
            && left.failed(error)),
    }
}

/// What an input delivers in two steps it delivers in one.
proof fn lemma_gives(
    from: InputAccount,
    middle: InputAccount,
    got: Seq<u8>,
    piece: Seq<u8>,
    then: InputAccount,
)
    requires
        from.gives(got, middle),
        middle.gives(piece, then),
    ensures
        from.gives(got + piece, then),
{
    assert((from.taken + got) + piece =~= from.taken + (got + piece));
    if let Some(all) = from.rest {
        let rest = all.skip(got.len() as int);
        lemma_prefix_agrees(got, all, 0, 0);
        lemma_prefix_agrees(piece, rest, 0, 0);
        assert(got + piece =~= all.subrange(0, (got + piece).len() as int));
        assert(rest.skip(piece.len() as int) =~= all.skip((got + piece).len() as int));
    }
}

} // verus!
