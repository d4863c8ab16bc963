//! What the iteration over an archive yields.

use vstd::prelude::*;

use crate::archive::{asks_for_next, finds, law_found_entry_is_in_step, reads_next, Entry};
use crate::contents::Reading;
use crate::error::Error;
use crate::header::padding_of;
use crate::layout::lemma_prefix_of_itself;
use crate::member::{all_zero, next_member, Member, Next, ParserView};
use crate::reader::{lemma_prefix_of_prefix, lemma_reads_on, ReaderView};
use crate::strictness::{law_archive_ends_after_whole_blocks, law_found_members_are_sound};

verus! {

/// The first `count` members that are read from a place on with their contents,
/// what is remembered after them, and where the next header may start.
pub open spec fn read_members(p: ParserView, s: Seq<u8>, at: int, count: nat) -> Option<
    (Seq<(Member, Seq<u8>)>, ParserView, int),
>
    decreases count,
{
    if count == 0 {
        Some((Seq::empty(), p, at))
    } else {
        match next_member(p, s, at) {
            Next::Found(member, q, start) => match read_members(
                q,
                s,
                start + member.stored() + padding_of(member.header.stored_size),
                (count - 1) as nat,
            ) {
                Some((rest, r, end)) => Some(
                    (seq![(member, member.contents(s, start))] + rest, r, end),
                ),
                None => None,
            },
            _ => None,
        }
    }
}

/// Where the header after a member may start, given where its stored bytes do.
pub open spec fn end_of(member: Member, start: int) -> int {
    start + member.stored() + padding_of(member.header.stored_size)
}

/// Members that are read and the one after them are read together.
pub proof fn lemma_one_more(p: ParserView, s: Seq<u8>, at: int, count: nat)
    ensures
        read_members(p, s, at, count) matches Some((list, q, end)) ==> (next_member(q, s, end)
            matches Next::Found(member, r, start) ==> read_members(p, s, at, count + 1) == Some(
            (list.push((member, member.contents(s, start))), r, end_of(member, start)),
        )),
    decreases count,
{
    if let Some((list, q, end)) = read_members(p, s, at, count) {
        if let Next::Found(member, r, start) = next_member(q, s, end) {
            let found = (member, member.contents(s, start));
            if count == 0 {
                reveal_with_fuel(read_members, 2);
                assert(seq![found] + Seq::<(Member, Seq<u8>)>::empty() =~= list.push(found));
            } else {
                if let Next::Found(first, p1, start1) = next_member(p, s, at) {
                    let at1 = end_of(first, start1);
                    lemma_one_more(p1, s, at1, (count - 1) as nat);
                    let head = seq![(first, first.contents(s, start1))];
                    if let Some((rest, _, _)) = read_members(p1, s, at1, (count - 1) as nat) {
                        assert(head + rest.push(found) =~= (head + rest).push(found));
                    }
                    assert(((count + 1) - 1) as nat == ((count - 1) as nat) + 1);
                }
            }
        }
    }
}

/// An iteration over an archive, with any part of each entry read before the
/// next is looked for.
pub struct Iteration {
    /// What is remembered before each look for an entry, and after the last.
    pub parsers: Seq<ParserView>,
    /// The archive before each look for an entry, and in the end.
    pub archives: Seq<ReaderView>,
    /// The entries.
    pub found: Seq<Entry>,
    /// What was read of each.
    pub readings: Seq<Reading>,
}

impl Iteration {
    /// Whether a step finds an entry and reads of it.
    pub open spec fn steps(self, i: int) -> bool {
        let reading = self.readings[i];
        &&& finds(
            self.parsers[i],
            self.archives[i],
            Ok(Some(self.found[i])),
            self.parsers[i + 1],
            reading.archives[0],
        )
        &&& reading.happens()
        &&& reading.entries[0] == self.found[i]@
        &&& reading.archives.last() == self.archives[i + 1]
    }

    /// Whether every step finds an entry and reads of it.
    pub open spec fn happens(self) -> bool {
        let n = self.found.len();
        &&& self.parsers.len() == n + 1
        &&& self.archives.len() == n + 1
        &&& self.readings.len() == n
        &&& forall|i: int| 0 <= i < n ==> #[trigger] self.steps(i)
    }

    /// The members with their contents.
    pub open spec fn members(self, s: Seq<u8>) -> Seq<(Member, Seq<u8>)> {
        Seq::new(
            self.found.len(),
            |i: int|
                (
                    self.found[i]@.member,
                    self.found[i]@.member.contents(s, self.found[i]@.start as int),
                ),
        )
    }

    /// The iteration without its last step.
    pub open spec fn front(self) -> Iteration {
        Iteration {
            parsers: self.parsers.drop_last(),
            archives: self.archives.drop_last(),
            found: self.found.drop_last(),
            readings: self.readings.drop_last(),
        }
    }
}

/// However much is read of an entry, the next header stays where it is.
proof fn lemma_reading_stays(r: Reading)
    requires
        r.happens(),
        r.entries[0].in_step(r.archives[0]),
    ensures
        r.entries.last().in_step(r.archives.last()),
        r.archives[0].reads_on(r.archives.last()),
        r.archives.last().next_at() == r.archives[0].next_at(),
    decreases r.parts.len(),
{
    let n = r.parts.len() as int;
    if n == 0 {
        lemma_prefix_of_itself(r.archives[0].delivered);
    } else {
        let front = r.front();
        assert forall|i: int| 0 <= i < n - 1 implies reads_next(
            #[trigger] front.entries[i],
            front.archives[i],
            front.parts[i],
            front.entries[i + 1],
            front.archives[i + 1],
        ) by {
            assert(front.entries[i] == r.entries[i]);
        }
        lemma_reading_stays(front);
        assert(reads_next(
            r.entries[n - 1],
            r.archives[n - 1],
            r.parts[n - 1],
            r.entries[n],
            r.archives[n],
        ));
        lemma_reads_on(r.archives[0], r.archives[n - 1], r.archives[n]);
    }
}

/// A step of an iteration finds what the archive holds where the step begins, and
/// leads to where the next header may start.
proof fn lemma_iteration_step(it: Iteration, s: Seq<u8>, i: int)
    requires
        it.happens(),
        0 <= i < it.found.len(),
        it.archives[i + 1].delivered.is_prefix_of(s),
    ensures
        it.archives[i].delivered.is_prefix_of(s),
        next_member(it.parsers[i], s, it.archives[i].next_at()) == Next::Found(
            it.found[i]@.member,
            it.parsers[i + 1],
            it.found[i]@.start as int,
        ),
        it.archives[i + 1].next_at() == end_of(it.found[i]@.member, it.found[i]@.start as int),
{
    assert(it.steps(i));
    let reading = it.readings[i];
    let after = reading.archives[0];
    law_found_entry_is_in_step(it.found[i]@, after);
    lemma_reading_stays(reading);
    lemma_prefix_of_prefix(after.delivered, it.archives[i + 1].delivered, s);
    lemma_prefix_of_prefix(it.archives[i].delivered, after.delivered, s);
    let (p, at) = (it.parsers[i], it.archives[i].next_at());
    assert((|t: Seq<u8>| next_member(p, t, at))(s) == Next::Found(
        it.found[i]@.member,
        it.parsers[i + 1],
        after.delivered.len() as int,
    ));
}

/// An iteration yields the members that the archive holds, one after the other,
/// however much of each entry is read. Here `s` is any stream that begins with
/// all that was read.
pub proof fn law_iteration_yields_the_members(it: Iteration, s: Seq<u8>)
    requires
        it.happens(),
        it.archives.last().delivered.is_prefix_of(s),
    ensures
        read_members(it.parsers[0], s, it.archives[0].next_at(), it.found.len()) == Some(
            (it.members(s), it.parsers.last(), it.archives.last().next_at()),
        ),
    decreases it.found.len(),
{
    let n = it.found.len() as int;
    if n == 0 {
        assert(it.members(s) =~= Seq::empty());
    } else {
        let front = it.front();
        assert forall|i: int| 0 <= i < n - 1 implies #[trigger] front.steps(i) by {
            assert(it.steps(i));
        }
        lemma_iteration_step(it, s, n - 1);
        law_iteration_yields_the_members(front, s);
        lemma_one_more(it.parsers[0], s, it.archives[0].next_at(), (n - 1) as nat);
        assert(it.members(s) =~= front.members(s).push(it.members(s)[n - 1]));
    }
}

/// Two iterations over the same stream from the same place yield the same
/// entries, and stand where the same is remembered and the same header comes
/// next, however much of each entry is read in the one and in the other.
pub proof fn law_iterations_agree(a: Iteration, b: Iteration, s: Seq<u8>, i: int)
    requires
        a.happens(),
        b.happens(),
        a.parsers[0] == b.parsers[0],
        a.archives[0].next_at() == b.archives[0].next_at(),
        a.archives.last().delivered.is_prefix_of(s),
        b.archives.last().delivered.is_prefix_of(s),
        0 <= i <= a.found.len(),
        i <= b.found.len(),
    ensures
        a.parsers[i] == b.parsers[i],
        a.archives[i].next_at() == b.archives[i].next_at(),
        forall|j: int|
            0 <= j < i ==> (#[trigger] a.found[j])@.member == b.found[j]@.member
                && a.found[j]@.start == b.found[j]@.start,
    decreases i,
{
    if i > 0 {
        law_iterations_agree(a, b, s, i - 1);
        lemma_iteration_prefix(a, s, i);
        lemma_iteration_prefix(b, s, i);
        lemma_iteration_step(a, s, i - 1);
        lemma_iteration_step(b, s, i - 1);
    }
}

/// All that was read up to a step of an iteration is at the front of the stream.
proof fn lemma_iteration_prefix(it: Iteration, s: Seq<u8>, i: int)
    requires
        it.happens(),
        it.archives.last().delivered.is_prefix_of(s),
        0 <= i <= it.found.len(),
    ensures
        it.archives[i].delivered.is_prefix_of(s),
    decreases it.found.len() - i,
{
    if i < it.found.len() {
        lemma_iteration_prefix(it, s, i + 1);
        lemma_iteration_step(it, s, i);
    }
}

/// Every step of an iteration begins where a block may start.
proof fn lemma_iteration_aligned(it: Iteration, s: Seq<u8>, i: int)
    requires
        it.happens(),
        it.parsers[0] == ParserView::start(),
        it.archives[0].next_at() == 0,
        it.archives.last().delivered.is_prefix_of(s),
        0 <= i <= it.found.len(),
    ensures
        it.archives[i].next_at() % 512 == 0,
        !it.parsers[i].zero_block,
    decreases i,
{
    if i > 0 {
        lemma_iteration_aligned(it, s, i - 1);
        lemma_iteration_prefix(it, s, i);
        lemma_iteration_step(it, s, i - 1);
        law_found_members_are_sound(
            it.parsers[i - 1],
            s,
            it.archives[i - 1].next_at(),
            it.found[i - 1]@.member,
            it.parsers[i],
            it.found[i - 1]@.start as int,
        );
    }
}

/// An iteration over an archive from its start comes to its end only after whole
/// blocks, where the input ends or the last two blocks were zero.
pub proof fn law_iteration_ends_after_whole_blocks(it: Iteration, q: ParserView, after: ReaderView)
    requires
        it.happens(),
        it.parsers[0] == ParserView::start(),
        it.archives[0].next_at() == 0,
        finds(it.parsers.last(), it.archives.last(), Ok(None), q, after),
    ensures
        after.delivered.len() % 512 == 0,
        after.ended() || (after.delivered.len() >= 1024 && all_zero(
            after.delivered.subrange(
                after.delivered.len() - 1024,
                after.delivered.len() as int,
            ),
        )),
{
    let s = after.delivered;
    let n = it.found.len() as int;
    let (p, at) = (it.parsers[n], it.archives[n].next_at());
    lemma_prefix_of_itself(s);
    lemma_iteration_aligned(it, s, n);
    law_archive_ends_after_whole_blocks(p, s, at);
    let next = |t: Seq<u8>| next_member(p, t, at);
    assert(next(s) == next_member(p, s, at));
}

/// After the end of an archive or an error there is no entry any more, however
/// often one is asked for, and nothing more is read of the input.
pub proof fn law_nothing_follows_the_end_or_an_error(
    p: ParserView,
    before: ReaderView,
    item: Option<Result<Entry, Error>>,
    done: bool,
    q: ParserView,
    after: ReaderView,
    more: Option<Result<Entry, Error>>,
    done_then: bool,
    r: ParserView,
    last: ReaderView,
)
    requires
        asks_for_next(false, p, before, item, done, q, after),
        !(item matches Some(Ok(_))),
        asks_for_next(done, q, after, more, done_then, r, last),
    ensures
        more is None,
        done_then,
        last == after,
{
}

} // verus!
