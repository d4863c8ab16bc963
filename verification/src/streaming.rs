//! What an archive holds is decided by the bytes up to a place, neither by fewer
//! nor by more.

use vstd::prelude::*;

use crate::header::{block_header, HeaderView};
use crate::member::{
    block_step, extension_segments, field_segments, member_at, member_layout, next_member,
    old_gnu_layout, pax_layout, physical_size, sparse_front, sparse_line, sparse_lines, step_at,
    with_long_names, Next, Parsed, ParserView, Step,
};
use crate::pax::{effective, with_pax, Record};
use crate::sparse::SparseSegment;

verus! {

/// What is left of something that was read where the stream is cut off.
pub open spec fn cut<T>(whole: Parsed<T>, n: int) -> Parsed<T> {
    match whole {
        Parsed::Got(_, end) | Parsed::Bad(_, end) => if end <= n {
            whole
        } else {
            Parsed::More
        },
        Parsed::More => Parsed::More,
    }
}

/// Whether something that was read from a place on ends after it.
spec fn ends_from<T>(whole: Parsed<T>, at: int) -> bool {
    match whole {
        Parsed::Got(_, end) | Parsed::Bad(_, end) => at <= end,
        Parsed::More => true,
    }
}

/// A line of a sparse 1.0 map is decided by its own bytes.
proof fn lemma_line_cut(s: Seq<u8>, start: int, at: int, limit: int, n: int)
    requires
        0 <= start <= at <= n <= s.len(),
    ensures
        sparse_line(s.take(n), start, at, limit) == cut(sparse_line(s, start, at, limit), n),
        ends_from(sparse_line(s, start, at, limit), at),
    decreases limit - at,
{
    let t = s.take(n);
    lemma_line_from(s, start, at, limit);
    if at < limit && at < n {
        assert(t[at] == s[at]);
        assert(t.subrange(start, at) =~= s.subrange(start, at));
        if s[at] != 10 {
            lemma_line_cut(s, start, at + 1, limit, n);
        }
    }
}

/// A line of a sparse 1.0 map ends after it starts.
proof fn lemma_line_from(s: Seq<u8>, start: int, at: int, limit: int)
    requires
        0 <= start <= at,
    ensures
        ends_from(sparse_line(s, start, at, limit), at),
        at < limit ==> ends_from(sparse_line(s, start, at, limit), at + 1),
    decreases limit - at,
{
    if at < limit {
        lemma_line_from(s, start, at + 1, limit);
    }
}

/// The lines of a sparse 1.0 map end after they start.
proof fn lemma_lines_from(found: Seq<SparseSegment>, s: Seq<u8>, at: int, limit: int, left: nat)
    requires
        0 <= at,
    ensures
        ends_from(sparse_lines(found, s, at, limit, left), at),
    decreases left,
{
    if left > 0 {
        lemma_line_from(s, at, at, limit);
        if let Parsed::Got(offset, after) = sparse_line(s, at, at, limit) {
            lemma_line_from(s, after, after, limit);
            if let Parsed::Got(len, end) = sparse_line(s, after, after, limit) {
                let more = found.push(SparseSegment { offset, len });
                lemma_lines_from(more, s, end, limit, (left - 1) as nat);
            }
        }
    }
}

/// The lines of a sparse 1.0 map are decided by their own bytes.
proof fn lemma_lines_cut(
    found: Seq<SparseSegment>,
    s: Seq<u8>,
    at: int,
    limit: int,
    left: nat,
    n: int,
)
    requires
        0 <= at <= n <= s.len(),
    ensures
        sparse_lines(found, s.take(n), at, limit, left) == cut(
            sparse_lines(found, s, at, limit, left),
            n,
        ),
    decreases left,
{
    if left > 0 {
        lemma_line_cut(s, at, at, limit, n);
        if let Parsed::Got(offset, after) = sparse_line(s, at, at, limit) {
            lemma_line_from(s, after, after, limit);
            if after <= n {
                lemma_line_cut(s, after, after, limit, n);
            }
            if let Parsed::Got(len, end) = sparse_line(s, after, after, limit) {
                let more = found.push(SparseSegment { offset, len });
                lemma_lines_from(more, s, end, limit, (left - 1) as nat);
                if end <= n {
                    lemma_lines_cut(more, s, end, limit, (left - 1) as nat, n);
                }
            }
        }
    }
}

/// A sparse 1.0 map is decided by its own bytes.
proof fn lemma_front_cut(s: Seq<u8>, start: int, limit: int, n: int)
    requires
        0 <= start <= n <= s.len(),
    ensures
        sparse_front(s.take(n), start, limit) == cut(sparse_front(s, start, limit), n),
        ends_from(sparse_front(s, start, limit), start),
{
    lemma_line_cut(s, start, start, limit, n);
    lemma_line_from(s, start, start, limit);
    if let Parsed::Got(count, at) = sparse_line(s, start, start, limit) {
        lemma_lines_from(Seq::empty(), s, at, limit, count as nat);
        if at <= n {
            lemma_lines_cut(Seq::empty(), s, at, limit, count as nat, n);
        }
    }
}

/// A layout that PAX records give is decided by the bytes up to its end.
proof fn lemma_pax_layout_cut(pax: Seq<Record>, physical: u64, s: Seq<u8>, at: int, n: int)
    requires
        0 <= at <= n <= s.len(),
    ensures
        pax_layout(pax, physical, s.take(n), at) == cut(pax_layout(pax, physical, s, at), n),
        ends_from(pax_layout(pax, physical, s, at), at),
{
    lemma_front_cut(s, at, at + physical, n);
}

/// Extension blocks of an old GNU map are decided by their own bytes.
proof fn lemma_extension_cut(
    found: Seq<SparseSegment>,
    extended: bool,
    s: Seq<u8>,
    at: int,
    n: int,
)
    requires
        0 <= at <= n <= s.len(),
    ensures
        extension_segments(found, extended, s.take(n), at) == cut(
            extension_segments(found, extended, s, at),
            n,
        ),
        ends_from(extension_segments(found, extended, s, at), at),
    decreases s.len() - at,
{
    if extended && at + 512 <= s.len() {
        let block = s.subrange(at, at + 512);
        if at + 512 <= n {
            assert(s.take(n).subrange(at, at + 512) =~= block);
            if let Ok(more) = field_segments(found, block, 0, 21) {
                lemma_extension_cut(more, block[504] != 0, s, at + 512, n);
            }
        } else {
            if let Ok(more) = field_segments(found, block, 0, 21) {
                lemma_extension_cut(more, block[504] != 0, s, at + 512, s.len() as int);
            }
        }
    }
}

/// The layout of an old GNU sparse member is decided by the bytes up to its end.
proof fn lemma_old_gnu_cut(block: Seq<u8>, physical: u64, s: Seq<u8>, at: int, n: int)
    requires
        0 <= at <= n <= s.len(),
    ensures
        old_gnu_layout(block, physical, s.take(n), at) == cut(
            old_gnu_layout(block, physical, s, at),
            n,
        ),
        ends_from(old_gnu_layout(block, physical, s, at), at),
{
    if let Ok(found) = field_segments(Seq::empty(), block.subrange(386, 482), 0, 4) {
        lemma_extension_cut(found, block[482] != 0, s, at, n);
    }
}

/// A member is decided by the bytes up to its stored ones.
proof fn lemma_member_cut(
    p: ParserView,
    block: Seq<u8>,
    header: HeaderView,
    s: Seq<u8>,
    at: int,
    n: int,
)
    requires
        0 <= at <= n <= s.len(),
    ensures
        member_at(p, block, header, s.take(n), at) == cut(member_at(p, block, header, s, at), n),
        ends_from(member_at(p, block, header, s, at), at),
{
    reveal(member_at);
    reveal(member_layout);
    let pax = effective(p.global, p.local);
    if let Ok(full) = with_pax(with_long_names(header, p), pax) {
        let physical = physical_size(header, full, pax);
        lemma_pax_layout_cut(pax, physical, s, at, n);
        lemma_old_gnu_cut(block, physical, s, at, n);
    }
}

/// Where what comes next in an archive is decided.
pub open spec fn decided_at(next: Next) -> Option<int> {
    match next {
        Next::Bad(_, end) | Next::End(end) | Next::Found(_, _, end) => Some(end),
        Next::More | Next::AtEnd => None,
    }
}

/// Whether a header in a stream that is cut off after `n` bytes leads where it
/// leads in the whole stream.
spec fn step_is_cut(whole: Step, part: Step, at: int, n: int) -> bool {
    match whole {
        Step::Again(_, after) => {
            &&& at + 512 <= after
            &&& part == if after <= n {
                whole
            } else {
                Step::Stop(Next::More)
            }
        },
        Step::Stop(next) => match decided_at(next) {
            Some(end) => {
                &&& at + 512 <= end
                &&& part == if end <= n {
                    whole
                } else {
                    Step::Stop(Next::More)
                }
            },
            None => part == Step::Stop(Next::More),
        },
    }
}

/// What belongs to a header block is decided by its own bytes.
proof fn lemma_block_cut(p: ParserView, block: Seq<u8>, s: Seq<u8>, at: int, n: int)
    requires
        512 <= at <= n <= s.len(),
    ensures
        step_is_cut(
            block_step(p, block, s, at),
            block_step(p, block, s.take(n), at),
            at - 512,
            n,
        ),
{
    reveal(block_step);
    if let Ok(header) = block_header(block) {
        let q = ParserView { zero_block: false, ..p };
        let size = header.stored_size;
        lemma_member_cut(q, block, header, s, at, n);
        if at + size <= n {
            assert(s.take(n).subrange(at, at + size) =~= s.subrange(at, at + size));
        }
    }
}

/// A header is decided by its own bytes and those that belong to it.
proof fn lemma_step_cut(p: ParserView, s: Seq<u8>, at: int, n: int)
    requires
        0 <= at < n <= s.len(),
        step_at(p, s, at) != Step::Stop(Next::AtEnd),
    ensures
        step_is_cut(step_at(p, s, at), step_at(p, s.take(n), at), at, n),
{
    if at + 512 <= n {
        assert(s.take(n).subrange(at, at + 512) =~= s.subrange(at, at + 512));
        lemma_block_cut(p, s.subrange(at, at + 512), s, at + 512, n);
    } else if at + 512 <= s.len() {
        lemma_block_cut(p, s.subrange(at, at + 512), s, at + 512, s.len() as int);
        assert(s.take(s.len() as int) =~= s);
    }
}

/// What comes next in an archive is decided by the bytes up to one place: with
/// these, more bytes change nothing, and with fewer the stream ends inside a
/// header or what belongs to it, or where an earlier header may start. So one
/// byte less is not enough.
pub proof fn law_next_is_decided_at_one_place(p: ParserView, s: Seq<u8>, at: int, n: int)
    requires
        0 <= at <= n <= s.len(),
    ensures
        decided_at(next_member(p, s, at)) matches Some(end) ==> {
            let part = next_member(p, s.take(n), at);
            &&& end <= n ==> part == next_member(p, s, at)
            &&& n < end ==> part is More || (part is AtEnd && n + 512 <= end)
        },
    decreases s.len() - at,
{
    if n == at {
        lemma_decided_after(p, s, at);
    } else {
        if step_at(p, s, at) != Step::Stop(Next::AtEnd) {
            lemma_step_cut(p, s, at, n);
        }
        if let Step::Again(q, after) = step_at(p, s, at) {
            if after <= n {
                law_next_is_decided_at_one_place(q, s, after, n);
            } else {
                lemma_decided_after(q, s, after);
            }
        }
    }
}

/// What comes next is decided at the end of a header at the earliest.
proof fn lemma_decided_after(p: ParserView, s: Seq<u8>, at: int)
    requires
        0 <= at,
    ensures
        decided_at(next_member(p, s, at)) matches Some(end) ==> at + 512 <= end,
    decreases s.len() - at,
{
    if at < s.len() {
        assert(s.take(s.len() as int) =~= s);
        if step_at(p, s, at) != Step::Stop(Next::AtEnd) {
            lemma_step_cut(p, s, at, s.len() as int);
        }
        if let Step::Again(q, after) = step_at(p, s, at) {
            lemma_decided_after(q, s, after);
        }
    }
}

} // verus!
