//! What no archive gets past the reader.

use vstd::prelude::*;

use crate::bytes::text;
use crate::error::Fault;
use crate::header::{block_header, checksum, padding_of, HeaderView};
use crate::member::{
    after_member, all_zero, block_step, checked_layout, extension_segments, field_segments,
    is_metadata, member_at, member_layout, next_member, old_gnu_layout, pax_layout, physical_size,
    sparse_front, sparse_line, sparse_lines, step_at, with_long_names, Layout, Member, Next, Parsed,
    ParserView, Step, MAX_PAX_SIZE,
};
use crate::pax::{effective, has_sparse, last_value, with_pax, Record};
use crate::sparse::{law_accepted_maps_are_in_order, SparseSegment};

verus! {

/// A header whose checksum is wrong or cannot be read is refused, and nothing
/// after it is read for that.
pub proof fn law_damaged_headers_are_refused(p: ParserView, s: Seq<u8>, at: int, fault: Fault)
    requires
        0 <= at,
        at + 512 <= s.len(),
        !all_zero(s.subrange(at, at + 512)),
        checksum(s.subrange(at, at + 512)) == Err::<(), Fault>(fault),
    ensures
        next_member(p, s, at) == Next::Bad(fault, at + 512),
{
    reveal(block_step);
}

/// PAX records, long paths and long link targets beyond the limit are refused
/// after their header alone: none of them is read.
pub proof fn law_oversized_metadata_is_refused(
    p: ParserView,
    s: Seq<u8>,
    at: int,
    header: HeaderView,
)
    requires
        0 <= at,
        at + 512 <= s.len(),
        !all_zero(s.subrange(at, at + 512)),
        checksum(s.subrange(at, at + 512)) is Ok,
        block_header(s.subrange(at, at + 512)) == Ok::<HeaderView, Fault>(header),
        is_metadata(header.type_flag),
        header.stored_size > MAX_PAX_SIZE,
    ensures
        next_member(p, s, at) == Next::Bad(Fault::MetadataTooLarge, at + 512),
{
    reveal(block_step);
}

/// A line of a sparse 1.0 map ends after it starts, within its limit and the
/// stream.
proof fn lemma_line_end(s: Seq<u8>, start: int, at: int, limit: int)
    requires
        0 <= start <= at,
    ensures
        sparse_line(s, start, at, limit) matches Parsed::Got(_, end) ==> at < end <= limit && end
            <= s.len(),
    decreases limit - at,
{
    if at < limit && at < s.len() && s[at] != 10 {
        lemma_line_end(s, start, at + 1, limit);
    }
}

/// The lines of a sparse 1.0 map end after they start.
proof fn lemma_lines_end(found: Seq<SparseSegment>, s: Seq<u8>, at: int, limit: int, left: nat)
    requires
        0 <= at,
    ensures
        sparse_lines(found, s, at, limit, left) matches Parsed::Got(_, end) ==> at <= end,
    decreases left,
{
    if left > 0 {
        lemma_line_end(s, at, at, limit);
        if let Parsed::Got(offset, after) = sparse_line(s, at, at, limit) {
            lemma_line_end(s, after, after, limit);
            if let Parsed::Got(len, end) = sparse_line(s, after, after, limit) {
                lemma_lines_end(
                    found.push(SparseSegment { offset, len }),
                    s,
                    end,
                    limit,
                    (left - 1) as nat,
                );
            }
        }
    }
}

/// The extension blocks of an old GNU map are whole ones, within the stream.
proof fn lemma_extension_end(found: Seq<SparseSegment>, extended: bool, s: Seq<u8>, at: int)
    requires
        0 <= at <= s.len(),
    ensures
        extension_segments(found, extended, s, at) matches Parsed::Got(_, end) ==> at <= end
            <= s.len() && (end - at) % 512 == 0,
    decreases s.len() - at,
{
    if extended && at + 512 <= s.len() {
        let block = s.subrange(at, at + 512);
        if let Ok(more) = field_segments(found, block, 0, 21) {
            lemma_extension_end(more, block[504] != 0, s, at + 512);
        }
    }
}

/// Whether a layout is sound for a member of `physical` stored bytes that start
/// at `at`: the map is in order, it stores no more than that, and all of it
/// fills whole blocks.
spec fn layout_is_sound(layout: Layout, physical: u64, s: Seq<u8>, at: int, end: int) -> bool {
    let member = Member {
        header: arbitrary(),
        kind: arbitrary(),
        pax: arbitrary(),
        sparse: layout.0,
        logical_size: layout.1,
    };
    &&& member.in_order()
    &&& 0 <= member.stored() <= physical
    &&& layout.0 is None ==> layout.1 == physical
    &&& at <= end <= s.len()
    &&& (end - at + member.stored() + padding_of(physical)) % 512 == 0
}

/// A layout with a checked map is sound.
proof fn lemma_checked_layout(
    map: Seq<SparseSegment>,
    logical: u64,
    packed: int,
    physical: u64,
    s: Seq<u8>,
    at: int,
    end: int,
)
    requires
        0 <= packed <= physical,
        at <= end <= s.len(),
        (end - at + packed + padding_of(physical)) % 512 == 0,
    ensures
        checked_layout(map, logical, packed, end) matches Parsed::Got(layout, to) ==> to == end
            && layout.0 is Some && layout_is_sound(layout, physical, s, at, end),
{
    law_accepted_maps_are_in_order(map, logical, packed as u64);
}

/// A member of `physical` stored bytes fills whole blocks.
proof fn lemma_filled(physical: u64)
    ensures
        (physical + padding_of(physical)) % 512 == 0,
{
}

/// The layout of an old GNU sparse member is sound.
proof fn lemma_old_gnu_layout(block: Seq<u8>, physical: u64, s: Seq<u8>, at: int)
    requires
        0 <= at <= s.len(),
    ensures
        old_gnu_layout(block, physical, s, at) matches Parsed::Got(layout, end) ==> layout.0
            is Some && layout_is_sound(layout, physical, s, at, end),
{
    if let Parsed::Got(layout, end) = old_gnu_layout(block, physical, s, at) {
        let found = field_segments(Seq::empty(), block.subrange(386, 482), 0, 4)->Ok_0;
        lemma_extension_end(found, block[482] != 0, s, at);
        lemma_filled(physical);
        let fill = physical + padding_of(physical);
        assert((end - at + fill) % 512 == 0);
        lemma_checked_layout(layout.0->0, layout.1, physical as int, physical, s, at, end);
    }
}

/// The layout that a sparse 1.0 map gives is sound.
proof fn lemma_front_layout(logical: u64, physical: u64, s: Seq<u8>, at: int)
    requires
        0 <= at <= s.len(),
    ensures
        sparse_front(s, at, at + physical) matches Parsed::Got(map, end) ==> (checked_layout(
            map,
            logical,
            physical - (end - at),
            end,
        ) matches Parsed::Got(layout, to) ==> to == end && layout.0 is Some && layout_is_sound(
            layout,
            physical,
            s,
            at,
            end,
        )),
{
    let limit = at + physical;
    if let Parsed::Got(map, end) = sparse_front(s, at, limit) {
        lemma_line_end(s, at, at, limit);
        if let Parsed::Got(count, after) = sparse_line(s, at, at, limit) {
            lemma_lines_end(Seq::empty(), s, after, limit, count as nat);
        }
        lemma_filled(physical);
        lemma_checked_layout(map, logical, physical - (end - at), physical, s, at, end);
    }
}

/// The layout that PAX records give is sound, and there is a map where there is
/// sparse metadata.
proof fn lemma_pax_layout(pax: Seq<Record>, physical: u64, s: Seq<u8>, at: int)
    requires
        0 <= at <= s.len(),
    ensures
        pax_layout(pax, physical, s, at) matches Parsed::Got(layout, end) ==> layout_is_sound(
            layout,
            physical,
            s,
            at,
            end,
        ) && (has_sparse(pax) ==> layout.0 is Some),
{
    lemma_filled(physical);
    if let Parsed::Got(layout, end) = pax_layout(pax, physical, s, at) {
        if has_sparse(pax) {
            lemma_front_layout(layout.1, physical, s, at);
            lemma_checked_layout(layout.0->0, layout.1, physical as int, physical, s, at, at);
        }
    }
}

/// Every layout that is found is sound. There is a map where there is sparse
/// metadata, of one kind only.
proof fn lemma_layout(
    block: Seq<u8>,
    header: HeaderView,
    pax: Seq<Record>,
    physical: u64,
    s: Seq<u8>,
    at: int,
)
    requires
        0 <= at <= s.len(),
    ensures
        member_layout(block, header, pax, physical, s, at) matches Parsed::Got(layout, end) ==> {
            &&& layout_is_sound(layout, physical, s, at, end)
            &&& has_sparse(pax) ==> layout.0 is Some && header.type_flag != 83
        },
{
    reveal(member_layout);
    lemma_old_gnu_layout(block, physical, s, at);
    lemma_pax_layout(pax, physical, s, at);
}

/// A header that the search goes on from fills whole blocks with what belongs to
/// it.
proof fn lemma_step_again(p: ParserView, s: Seq<u8>, at: int)
    requires
        0 <= at,
    ensures
        step_at(p, s, at) matches Step::Again(q, after) ==> {
            &&& at + 512 <= after <= s.len()
            &&& (after - at) % 512 == 0
            &&& q.zero_block ==> after == at + 512 && all_zero(s.subrange(at, at + 512))
        },
{
    reveal(block_step);
}

/// A header that ends the search without a member.
proof fn lemma_step_end(p: ParserView, s: Seq<u8>, at: int)
    requires
        0 <= at,
    ensures
        step_at(p, s, at) == Step::Stop(Next::AtEnd) ==> s.len() == at,
        step_at(p, s, at) matches Step::Stop(Next::End(end)) ==> {
            &&& end == at + 512
            &&& end <= s.len()
            &&& p.zero_block
            &&& all_zero(s.subrange(at, end))
        },
{
    reveal(block_step);
    reveal(member_at);
}

/// What is known of a member that is found.
spec fn member_is_sound(member: Member, q: ParserView, s: Seq<u8>, at: int, start: int) -> bool {
    &&& at + 512 <= start <= s.len()
    &&& member.in_order()
    &&& 0 <= member.stored() <= member.header.stored_size
    &&& member.sparse is None ==> member.logical_size == member.header.stored_size
    &&& has_sparse(member.pax) ==> member.sparse is Some && member.header.type_flag != 83
    &&& (start + member.stored() + padding_of(member.header.stored_size) - at) % 512 == 0
    &&& q.local is None && q.long_name is None && q.long_link is None && !q.zero_block
}

/// A member is sound whose header block ends at `at`.
proof fn lemma_member_at(p: ParserView, block: Seq<u8>, header: HeaderView, s: Seq<u8>, at: int)
    requires
        512 <= at <= s.len(),
    ensures
        member_at(p, block, header, s, at) matches Parsed::Got(member, start) ==> member_is_sound(
            member,
            after_member(p),
            s,
            at - 512,
            start,
        ),
{
    reveal(member_at);
    if let Parsed::Got(member, start) = member_at(p, block, header, s, at) {
        let pax = effective(p.global, p.local);
        let full = with_pax(with_long_names(header, p), pax)->Ok_0;
        let physical = physical_size(header, full, pax);
        lemma_layout(block, header, pax, physical, s, at);
        let layout = (member.sparse, member.logical_size);
        assert(layout_is_sound(layout, physical, s, at, start));
        let fill = start - at + member.stored() + padding_of(physical);
        assert(fill % 512 == 0);
        assert(start + member.stored() + padding_of(physical) - (at - 512) == fill + 512);
    }
}

/// A member that a header begins is sound.
proof fn lemma_step_found(p: ParserView, s: Seq<u8>, at: int)
    requires
        0 <= at,
    ensures
        step_at(p, s, at) matches Step::Stop(Next::Found(member, q, start)) ==> member_is_sound(
            member,
            q,
            s,
            at,
            start,
        ),
{
    if let Step::Stop(Next::Found(member, q, start)) = step_at(p, s, at) {
        reveal(block_step);
        let block = s.subrange(at, at + 512);
        let header = block_header(block)->Ok_0;
        lemma_member_at(ParserView { zero_block: false, ..p }, block, header, s, at + 512);
    }
}

/// Every member that is found is sound: its header is whole, its stored parts
/// are in order within its contents, not too many, and no more than its header
/// says is stored; it is sparse where there is sparse metadata for it, of one
/// kind; it fills whole blocks; and nothing that was meant for it is left for
/// the next.
pub proof fn law_found_members_are_sound(
    p: ParserView,
    s: Seq<u8>,
    at: int,
    member: Member,
    q: ParserView,
    start: int,
)
    requires
        0 <= at,
        next_member(p, s, at) == Next::Found(member, q, start),
    ensures
        at + 512 <= start <= s.len(),
        member.in_order(),
        0 <= member.stored() <= member.header.stored_size,
        member.sparse is None ==> member.logical_size == member.header.stored_size,
        has_sparse(member.pax) ==> member.sparse is Some && member.header.type_flag != 83,
        (start + member.stored() + padding_of(member.header.stored_size) - at) % 512 == 0,
        q.local is None && q.long_name is None && q.long_link is None && !q.zero_block,
    decreases s.len() - at,
{
    match step_at(p, s, at) {
        Step::Stop(_) => {
            lemma_step_found(p, s, at);
        },
        Step::Again(r, after) => {
            lemma_step_again(p, s, at);
            law_found_members_are_sound(r, s, after, member, q, start);
        },
    }
}

/// The names of a member that is found are those that its PAX records give it,
/// where they give any; the path is the one in the sparse metadata before all
/// others.
pub proof fn law_records_name_the_member(
    p: ParserView,
    s: Seq<u8>,
    at: int,
    member: Member,
    q: ParserView,
    start: int,
)
    requires
        0 <= at,
        next_member(p, s, at) == Next::Found(member, q, start),
    ensures
        match last_value(member.pax, text("GNU.sparse.name"@)) {
            Some(name) => member.header.path == name,
            None => last_value(member.pax, text("path"@)) matches Some(path) ==> member.header.path
                == path,
        },
        last_value(member.pax, text("linkpath"@)) matches Some(link) ==> member.header.link_name
            == Some(link),
    decreases s.len() - at,
{
    reveal(block_step);
    reveal(member_at);
    if let Step::Again(r, after) = step_at(p, s, at) {
        law_records_name_the_member(r, s, after, member, q, start);
    }
}

/// Two blocks of a stream are zero if each is.
proof fn lemma_zero_blocks(s: Seq<u8>, at: int)
    requires
        0 <= at,
        at + 1024 <= s.len(),
        all_zero(s.subrange(at, at + 512)),
        all_zero(s.subrange(at + 512, at + 1024)),
    ensures
        all_zero(s.subrange(at, at + 1024)),
{
    let both = s.subrange(at, at + 1024);
    assert forall|i: int| 0 <= i < both.len() implies #[trigger] both[i] == 0 by {
        if i < 512 {
            assert(s.subrange(at, at + 512)[i] == 0);
        } else {
            assert(s.subrange(at + 512, at + 1024)[i - 512] == 0);
        }
    }
}

/// Where the search for a member finds the end of an archive.
proof fn lemma_end(p: ParserView, s: Seq<u8>, at: int)
    requires
        0 <= at,
    ensures
        next_member(p, s, at) is AtEnd ==> at <= s.len() && (s.len() - at) % 512 == 0,
        next_member(p, s, at) matches Next::End(end) ==> {
            &&& at + 512 <= end <= s.len()
            &&& (end - at) % 512 == 0
            &&& all_zero(s.subrange(end - 512, end))
            &&& !(p.zero_block && end == at + 512) ==> at + 1024 <= end && all_zero(
                s.subrange(end - 1024, end),
            )
        },
    decreases s.len() - at,
{
    lemma_step_again(p, s, at);
    lemma_step_end(p, s, at);
    if let Step::Again(q, after) = step_at(p, s, at) {
        lemma_end(q, s, after);
        if q.zero_block {
            if next_member(q, s, after) == Next::End(after + 512) {
                lemma_zero_blocks(s, at);
            }
        }
    }
}

/// An archive ends only where the stream ends after a whole block, or after two
/// zero blocks in a row.
pub proof fn law_archive_ends_after_whole_blocks(p: ParserView, s: Seq<u8>, at: int)
    requires
        0 <= at,
        !p.zero_block,
    ensures
        next_member(p, s, at) is AtEnd ==> at <= s.len() && (s.len() - at) % 512 == 0,
        next_member(p, s, at) matches Next::End(end) ==> {
            &&& at + 1024 <= end <= s.len()
            &&& (end - at) % 512 == 0
            &&& all_zero(s.subrange(end - 1024, end))
        },
{
    lemma_end(p, s, at);
}

} // verus!
