//! What a sequence of calls writes to an archive.

use vstd::prelude::*;

use crate::builder::{
    data_header, data_outcome, entry_bytes, finish_outcome, finished_bytes, link_bytes, link_header,
    link_outcome, long_record, long_record_header, BuilderView,
};
use crate::bytes::zeros;
use crate::error::Error;
use crate::header::{lemma_header_lengths, HeaderView};
use crate::reader::InputAccount;

verus! {

/// A call of an archive writer and how it went.
pub enum Call {
    /// Data was to be appended under a header at a path, from an input.
    Data(HeaderView, Seq<u8>, InputAccount, Result<(), Error>, InputAccount),
    /// A link was to be appended under a header at a path, with a target.
    Link(HeaderView, Seq<u8>, Seq<u8>, Result<(), Error>),
    /// The archive was to be finished.
    Finish(Result<(), Error>),
}

impl Call {
    /// Whether the call leads from one state of the writer to another.
    pub open spec fn leads(self, before: BuilderView, after: BuilderView) -> bool {
        match self {
            Call::Data(header, path, from, done, left) => data_outcome(
                before,
                data_header(header, path),
                from,
                done,
                after,
                left,
            ),
            Call::Link(header, path, target, done) => link_outcome(
                before,
                link_header(header, path, target),
                done,
                after,
            ),
            Call::Finish(done) => finish_outcome(before, done, after),
        }
    }

    /// Whether the call failed after it had begun to write.
    pub open spec fn breaks_off(self, before: BuilderView) -> bool {
        match self {
            Call::Data(header, path, _, done, _) => done is Err && before.data_fault(
                data_header(header, path),
            ) is None,
            Call::Link(header, path, target, done) => done is Err && before.link_fault(
                link_header(header, path, target),
            ) is None,
            Call::Finish(done) => done is Err && !before.poisoned,
        }
    }

    /// The bytes of what was appended, if it was.
    pub open spec fn bytes(self) -> Seq<u8> {
        match self {
            Call::Data(header, path, from, Ok(()), left) => long_record(76, path) + entry_bytes(
                data_header(header, path),
                from.gained(left),
            ),
            Call::Link(header, path, target, Ok(())) => link_bytes(
                link_header(header, path, target),
            ),
            _ => Seq::empty(),
        }
    }
}

/// A sequence of calls, and the writer before the first and after each.
pub struct Calls {
    /// The writer.
    pub views: Seq<BuilderView>,
    /// The calls.
    pub calls: Seq<Call>,
}

impl Calls {
    /// Whether every call leads on, from a writer that has written nothing.
    pub open spec fn happens(self) -> bool {
        &&& self.views.len() == self.calls.len() + 1
        &&& self.views[0].written == Seq::<u8>::empty()
        &&& !self.views[0].finished
        &&& !self.views[0].poisoned
        &&& forall|i: int|
            0 <= i < self.calls.len() ==> (#[trigger] self.calls[i]).leads(
                self.views[i],
                self.views[i + 1],
            )
    }

    /// Whether a call failed after it had begun to write.
    pub open spec fn broke_off(self) -> bool {
        exists|i: int|
            0 <= i < self.calls.len() && (#[trigger] self.calls[i]).breaks_off(self.views[i])
    }

    /// The calls without the last one.
    pub open spec fn front(self) -> Calls {
        Calls { views: self.views.drop_last(), calls: self.calls.drop_last() }
    }
}

/// The bytes of all that was appended, in order.
pub open spec fn appended(calls: Seq<Call>) -> Seq<u8>
    decreases calls.len(),
{
    if calls.len() == 0 {
        Seq::empty()
    } else {
        appended(calls.drop_last()) + calls.last().bytes()
    }
}

/// An entry with all its data fills whole blocks.
proof fn lemma_whole_blocks(header: HeaderView, data: Seq<u8>)
    requires
        data.len() == header.stored_size,
    ensures
        entry_bytes(header, data).len() % 512 == 0,
{
    lemma_header_lengths(header);
}

/// A GNU record fills whole blocks.
proof fn lemma_record_blocks(flag: u8, value: Seq<u8>)
    requires
        value.len() < u64::MAX,
    ensures
        long_record(flag, value).len() % 512 == 0,
{
    if value.len() > 100 {
        lemma_whole_blocks(long_record_header(flag, value.len()), value.push(0));
    }
}

/// What a writer has written, given what was appended.
spec fn written_so_far(bytes: Seq<u8>, finished: bool) -> Seq<u8> {
    bytes + if finished {
        zeros(1024)
    } else {
        Seq::empty()
    }
}

/// A link fills whole blocks.
proof fn lemma_link_blocks(header: HeaderView, target: Seq<u8>)
    requires
        header.link_name == Some(target),
        header.stored_size == 0,
        header.path.len() < u64::MAX,
        target.len() < u64::MAX,
    ensures
        link_bytes(header).len() % 512 == 0,
{
    let none = Seq::<u8>::empty();
    lemma_record_blocks(76, header.path);
    lemma_record_blocks(75, target);
    lemma_whole_blocks(header, none);
    let a = long_record(75, target).len();
    let b = long_record(76, header.path).len();
    let c = entry_bytes(header, none).len();
    assert(link_bytes(header).len() == a + b + c);
}

/// What is appended fills whole blocks.
proof fn lemma_call_blocks(call: Call, before: BuilderView, after: BuilderView)
    requires
        call.leads(before, after),
    ensures
        call.bytes().len() % 512 == 0,
{
    match call {
        Call::Data(header, path, from, Ok(()), left) => {
            let h = data_header(header, path);
            assert(before.data_fault(h) is None);
            assert(path.len() < u64::MAX);
            let a = long_record(76, path).len();
            let b = entry_bytes(h, from.gained(left)).len();
            lemma_record_blocks(76, path);
            lemma_whole_blocks(h, from.gained(left));
            assert(call.bytes().len() == a + b);
        },
        Call::Link(header, path, target, Ok(())) => {
            let h = link_header(header, path, target);
            assert(before.link_fault(h) is None);
            assert(path.len() < u64::MAX && target.len() < u64::MAX);
            lemma_link_blocks(h, target);
        },
        _ => {},
    }
}

/// A call that appends adds its bytes, one that finishes adds the end of the
/// archive once, and all others add nothing.
proof fn lemma_call_adds(call: Call, before: BuilderView, after: BuilderView)
    requires
        call.leads(before, after),
    ensures
        after.poisoned == (before.poisoned || call.breaks_off(before)),
        !after.poisoned ==> {
            &&& call.bytes().len() > 0 ==> !before.finished && !after.finished
            &&& call.bytes().len() > 0 ==> after.written == before.written + call.bytes()
            &&& call.bytes().len() == 0 ==> after.written == if after.finished
                && !before.finished {
                before.written + zeros(1024)
            } else {
                before.written
            }
            &&& before.finished ==> after.finished
        },
{
    match call {
        Call::Data(header, path, from, Ok(()), left) => {
            lemma_header_lengths(data_header(header, path));
        },
        Call::Link(header, path, target, Ok(())) => {
            lemma_header_lengths(link_header(header, path, target));
        },
        _ => {},
    }
}

/// A call adds the bytes of what it appended, or poisons the writer.
proof fn lemma_call(call: Call, before: BuilderView, after: BuilderView, bytes: Seq<u8>)
    requires
        call.leads(before, after),
        !before.poisoned ==> before.written == written_so_far(bytes, before.finished),
        !before.poisoned ==> bytes.len() % 512 == 0,
    ensures
        after.poisoned == (before.poisoned || call.breaks_off(before)),
        !after.poisoned ==> after.written == written_so_far(bytes + call.bytes(), after.finished),
        !after.poisoned ==> (bytes + call.bytes()).len() % 512 == 0,
{
    lemma_call_blocks(call, before, after);
    lemma_call_adds(call, before, after);
    lemma_written(before, after, bytes, call.bytes());
}

/// Two states of a writer agree on what was written so far.
proof fn lemma_written(before: BuilderView, after: BuilderView, bytes: Seq<u8>, more: Seq<u8>)
    requires
        !after.poisoned ==> !before.poisoned,
        !before.poisoned ==> before.written == written_so_far(bytes, before.finished),
        !after.poisoned ==> {
            &&& more.len() > 0 ==> !before.finished && !after.finished
            &&& more.len() > 0 ==> after.written == before.written + more
            &&& more.len() == 0 ==> after.written == if after.finished && !before.finished {
                before.written + zeros(1024)
            } else {
                before.written
            }
            &&& before.finished ==> after.finished
        },
    ensures
        !after.poisoned ==> after.written == written_so_far(bytes + more, after.finished),
{
    if !after.poisoned {
        assert(after.written =~= written_so_far(bytes + more, after.finished));
    }
}

/// After any calls that did not break off, what is written is what was appended,
/// in whole blocks, and the end of the archive once it was finished.
proof fn lemma_calls(c: Calls)
    requires
        c.happens(),
    ensures
        c.views.last().poisoned == c.broke_off(),
        !c.views.last().poisoned ==> c.views.last().written == written_so_far(
            appended(c.calls),
            c.views.last().finished,
        ),
        !c.views.last().poisoned ==> appended(c.calls).len() % 512 == 0,
    decreases c.calls.len(),
{
    let n = c.calls.len() as int;
    if n == 0 {
        assert(written_so_far(appended(c.calls), false) =~= Seq::empty());
    } else {
        let front = c.front();
        let call = c.calls[n - 1];
        assert(call.leads(c.views[n - 1], c.views[n]));
        assert forall|i: int| 0 <= i < n - 1 implies (#[trigger] front.calls[i]).leads(
            front.views[i],
            front.views[i + 1],
        ) by {
            assert(front.calls[i] == c.calls[i]);
        }
        lemma_calls(front);
        lemma_call(call, c.views[n - 1], c.views[n], appended(front.calls));
        if front.broke_off() {
            let i = choose|i: int|
                0 <= i < n - 1 && (#[trigger] front.calls[i]).breaks_off(front.views[i]);
            assert(c.calls[i].breaks_off(c.views[i]));
        }
        if c.broke_off() && !call.breaks_off(c.views[n - 1]) {
            let i = choose|i: int|
                0 <= i < n && (#[trigger] c.calls[i]).breaks_off(c.views[i]);
            assert(front.calls[i].breaks_off(front.views[i]));
        }
    }
}

/// After any sequence of calls, the archive that is finished is what was appended
/// with success, in order and in whole blocks, and its end once, however often it
/// was finished. It cannot be finished exactly if a call failed after it had begun
/// to write.
pub proof fn law_finished_archive_is_what_was_appended(c: Calls)
    requires
        c.happens(),
    ensures
        c.views.last().poisoned == c.broke_off(),
        !c.views.last().poisoned ==> {
            &&& finished_bytes(c.views.last()) == appended(c.calls) + zeros(1024)
            &&& finished_bytes(c.views.last()).len() % 512 == 0
        },
{
    lemma_calls(c);
    assert(appended(c.calls) + Seq::<u8>::empty() =~= appended(c.calls));
}

} // verus!
