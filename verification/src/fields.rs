//! What a member takes from which part of an archive: its header block, the
//! metadata in front of it, and the records in force.

use vstd::prelude::*;
use vstd::utf8::valid_utf8;

use crate::bytes::{before_nul, first_at, lemma_first_at_is, text};
use crate::error::Fault;
use crate::header::{block_header, checksum, padding_of, EntryType, HeaderView};
use crate::iteration::end_of;
use crate::member::{
    all_zero, block_step, member_at, member_layout, next_member, step_at, with_long_names, Member,
    Next, ParserView, Step,
};
use crate::number::{decimal, number, signed_decimal, signed_number};
use crate::pax::{
    effective, has_sparse, in_key_order, is_sparse_key, last_value, law_global_records_act_as_a_map,
    pax_records, stored_all, trimmed, with_pax, Record,
};
use crate::strictness::law_found_members_are_sound;

verus! {

/// Where the header of the next member stands, and what is remembered there.
pub open spec fn member_place(p: ParserView, s: Seq<u8>, at: int) -> (ParserView, int)
    decreases s.len() - at,
{
    proof {
        reveal(block_step);
    }
    match step_at(p, s, at) {
        Step::Stop(_) => (p, at),
        Step::Again(q, after) => member_place(q, s, after),
    }
}

/// Whether a list holds GNU sparse metadata.
pub open spec fn has_gnu_sparse(list: Seq<Record>) -> bool {
    exists|i: int|
        0 <= i < list.len() && text("GNU.sparse."@).is_prefix_of((#[trigger] list[i]).key)
}

/// Whether a field holds a text, up to its end or to its first zero byte.
pub open spec fn holds_text(field: Seq<u8>, value: Seq<u8>) -> bool {
    &&& value.is_prefix_of(field)
    &&& forall|i: int| 0 <= i < value.len() ==> #[trigger] value[i] != 0
    &&& value.len() < field.len() ==> field[value.len() as int] == 0
}

/// Whether a text is made of a whole part without a point and, from a point on,
/// a fraction.
pub open spec fn has_parts(value: Seq<u8>, whole: Seq<u8>, fraction: Seq<u8>) -> bool {
    &&& value == whole + fraction
    &&& forall|i: int| 0 <= i < whole.len() ==> #[trigger] whole[i] != 46
    &&& fraction.len() > 0 ==> fraction[0] == 46
}

/// What stands in a field is found in it.
proof fn lemma_holds_text(field: Seq<u8>, value: Seq<u8>)
    requires
        holds_text(field, value),
    ensures
        before_nul(field) == value,
{
    assert forall|i: int| 0 <= i < value.len() implies field[i] != 0 by {
        assert(field.take(value.len() as int)[i] == value[i]);
    }
    lemma_first_at_is(field, 0, 0, value.len() as int);
    assert(before_nul(field) =~= value);
}

/// The part before a point is what is taken as the whole part.
proof fn lemma_has_parts(value: Seq<u8>, whole: Seq<u8>, fraction: Seq<u8>)
    requires
        has_parts(value, whole, fraction),
    ensures
        value.take(first_at(value, 0, 46)) == whole,
{
    assert forall|i: int| 0 <= i < whole.len() implies value[i] != 46 by {
        assert(value[i] == whole[i]);
    }
    lemma_first_at_is(value, 0, 46, whole.len() as int);
    assert(value.take(whole.len() as int) =~= whole);
}

/// Whether the numbers of a member are those of its records, and where it has no
/// record those of its header block.
pub open spec fn has_numbers(member: Member, block: Seq<u8>) -> bool {
    &&& match last_value(member.pax, text("mode"@)) {
        Some(value) => decimal(value) == Ok::<u64, Fault>(member.header.mode as u64),
        None => number(block.subrange(100, 108)) == Ok::<u64, Fault>(member.header.mode as u64),
    }
    &&& match last_value(member.pax, text("uid"@)) {
        Some(value) => decimal(value) == Ok::<u64, Fault>(member.header.uid),
        None => number(block.subrange(108, 116)) == Ok::<u64, Fault>(member.header.uid),
    }
    &&& match last_value(member.pax, text("gid"@)) {
        Some(value) => decimal(value) == Ok::<u64, Fault>(member.header.gid),
        None => number(block.subrange(116, 124)) == Ok::<u64, Fault>(member.header.gid),
    }
    &&& match last_value(member.pax, text("mtime"@)) {
        Some(value) => forall|whole: Seq<u8>, fraction: Seq<u8>| #[trigger]
            has_parts(value, whole, fraction) ==> signed_decimal(whole) == Some(
                member.header.mtime,
            ),
        None => signed_number(block.subrange(136, 148)) == Ok::<i64, Fault>(member.header.mtime),
    }
}

/// Whether the sizes of a member are those of its records and its header block:
/// the size record where there is one, but for sparse members, whose size in the
/// header is what is stored.
pub open spec fn has_sizes(member: Member, block: Seq<u8>) -> bool {
    let field = number(block.subrange(124, 136));
    let stored = member.header.stored_size;
    &&& has_gnu_sparse(member.pax) ==> field == Ok::<u64, Fault>(stored)
    &&& !has_gnu_sparse(member.pax) ==> match last_value(member.pax, text("size"@)) {
        Some(value) => decimal(value) == Ok::<u64, Fault>(stored),
        None => field == Ok::<u64, Fault>(stored),
    }
    &&& !has_gnu_sparse(member.pax) && block[156] != 83 ==> member.sparse is None
        && member.logical_size == stored
    &&& block[156] == 83 ==> member.sparse is Some && number(block.subrange(483, 495)) == Ok::<
        u64,
        Fault,
    >(member.logical_size)
}

/// Whether the names of a member are those of its records, and where it has no
/// record those that were remembered for it, and where there are none those of
/// its header block.
pub open spec fn has_names(member: Member, r: ParserView, block: Seq<u8>) -> bool {
    &&& match (last_value(member.pax, text("GNU.sparse.name"@)), last_value(
        member.pax,
        text("path"@),
    )) {
        (Some(name), _) => member.header.path == name,
        (None, Some(path)) => member.header.path == path,
        (None, None) => match r.long_name {
            Some(path) => member.header.path == path,
            None => forall|name: Seq<u8>, prefix: Seq<u8>|
                #![trigger holds_text(block.subrange(0, 100), name),
                    holds_text(block.subrange(345, 500), prefix)]
                holds_text(block.subrange(0, 100), name) && holds_text(
                    block.subrange(345, 500),
                    prefix,
                ) ==> member.header.path == if prefix.len() > 0 && block.subrange(257, 263)
                    == seq![117u8, 115, 116, 97, 114, 0] {
                    prefix + seq![47u8] + name
                } else {
                    name
                },
        },
    }
    &&& match last_value(member.pax, text("linkpath"@)) {
        Some(link) => member.header.link_name == Some(link),
        None => match r.long_link {
            Some(link) => member.header.link_name == Some(link),
            None => forall|link: Seq<u8>| #[trigger]
                holds_text(block.subrange(157, 257), link) ==> member.header.link_name
                    == if link.len() > 0 {
                    Some(link)
                } else {
                    None
                },
        },
    }
}

/// A member that begins at a place has the fields of its block and of what was
/// remembered there.
proof fn lemma_step_fields(p: ParserView, s: Seq<u8>, at: int)
    ensures
        step_at(p, s, at) matches Step::Stop(Next::Found(member, q, start)) ==> {
            let block = s.subrange(at, at + 512);
            &&& at + 512 <= s.len()
            &&& member.header.type_flag == block[156]
            &&& member.kind == EntryType::of_flag(block[156])
            &&& member.pax == effective(p.global, p.local)
            &&& has_numbers(member, block)
            &&& has_sizes(member, block)
            &&& has_names(member, p, block)
            &&& !has_gnu_sparse(member.pax) && block[156] != 83 ==> start == at + 512
        },
{
    if let Step::Stop(Next::Found(member, q, start)) = step_at(p, s, at) {
        reveal(block_step);
        reveal(member_at);
        reveal(member_layout);
        let block = s.subrange(at, at + 512);
        lemma_has_gnu_sparse(member.pax);
        assert(has_numbers(member, block)) by {
            if let Some(value) = last_value(member.pax, text("mtime"@)) {
                assert forall|whole: Seq<u8>, fraction: Seq<u8>| #[trigger]
                    has_parts(value, whole, fraction) implies signed_decimal(whole) == Some(
                    member.header.mtime,
                ) by {
                    lemma_has_parts(value, whole, fraction);
                }
            }
        }
        assert(has_sizes(member, block));
        assert(has_names(member, p, block)) by {
            assert forall|name: Seq<u8>, prefix: Seq<u8>|
                #![trigger holds_text(block.subrange(0, 100), name),
                    holds_text(block.subrange(345, 500), prefix)]
                holds_text(block.subrange(0, 100), name) && holds_text(
                    block.subrange(345, 500),
                    prefix,
                ) implies before_nul(block.subrange(0, 100)) == name && before_nul(
                block.subrange(345, 500),
            ) == prefix by {
                lemma_holds_text(block.subrange(0, 100), name);
                lemma_holds_text(block.subrange(345, 500), prefix);
            }
            assert forall|link: Seq<u8>| #[trigger]
                holds_text(block.subrange(157, 257), link) implies before_nul(
                block.subrange(157, 257),
            ) == link by {
                lemma_holds_text(block.subrange(157, 257), link);
            }
        }
    }
}

/// Every member that is found has its numbers, its sizes and its names from the
/// records in force, then from the long names remembered for it, and then from
/// the fields of its own header block, each at its place; and the bytes of a
/// member that is not sparse start right after that block.
pub proof fn law_members_have_their_fields(
    p: ParserView,
    s: Seq<u8>,
    at: int,
    member: Member,
    q: ParserView,
    start: int,
)
    requires
        next_member(p, s, at) == Next::Found(member, q, start),
    ensures
        ({
            let (r, place) = member_place(p, s, at);
            let block = s.subrange(place, place + 512);
            &&& at <= place
            &&& place + 512 <= s.len()
            &&& member.header.type_flag == block[156]
            &&& member.kind == EntryType::of_flag(block[156])
            &&& member.pax == effective(r.global, r.local)
            &&& has_numbers(member, block)
            &&& has_sizes(member, block)
            &&& has_names(member, r, block)
            &&& !has_gnu_sparse(member.pax) && block[156] != 83 ==> start == place + 512
        }),
    decreases s.len() - at,
{
    lemma_step_fields(p, s, at);
    if let Step::Again(r, after) = step_at(p, s, at) {
        assert(at < after <= s.len()) by {
            reveal(block_step);
        }
        law_members_have_their_fields(r, s, after, member, q, start);
    }
}

/// Whether the numbers in records can be read.
pub open spec fn numbers_are_fine(pax: Seq<Record>) -> bool {
    &&& last_value(pax, text("size"@)) matches Some(value) ==> decimal(value) is Ok
    &&& last_value(pax, text("uid"@)) matches Some(value) ==> decimal(value) is Ok
    &&& last_value(pax, text("gid"@)) matches Some(value) ==> decimal(value) is Ok
    &&& last_value(pax, text("mode"@)) matches Some(value) ==> decimal(value) matches Ok(mode)
        && mode <= u32::MAX
    &&& last_value(pax, text("mtime"@)) matches Some(value) ==> valid_utf8(value) && exists|
        whole: Seq<u8>,
        fraction: Seq<u8>,
    | #[trigger] has_parts(value, whole, fraction) && signed_decimal(whole) is Some
}

/// Whether the header of a member stands at a place, one that is not an old GNU
/// sparse file, and all numbers for it can be read.
pub open spec fn begins_member(p: ParserView, s: Seq<u8>, at: int, header: HeaderView) -> bool {
    let block = s.subrange(at, at + 512);
    &&& 0 <= at
    &&& at + 512 <= s.len()
    &&& !all_zero(block)
    &&& checksum(block) is Ok
    &&& block_header(block) == Ok::<HeaderView, Fault>(header)
    &&& header.type_flag != 120 && header.type_flag != 103 && header.type_flag != 76
        && header.type_flag != 75
    &&& numbers_are_fine(effective(p.global, p.local))
}

/// Where all numbers in records can be read the records are applied.
pub proof fn lemma_records_apply(header: HeaderView, pax: Seq<Record>)
    requires
        numbers_are_fine(pax),
    ensures
        with_pax(header, pax) is Ok,
{
    if let Some(value) = last_value(pax, text("mtime"@)) {
        let (whole, fraction) = choose|whole: Seq<u8>, fraction: Seq<u8>| #[trigger]
            has_parts(value, whole, fraction) && signed_decimal(whole) is Some;
        lemma_has_parts(value, whole, fraction);
    }
}

/// Both ways of saying that there is sparse metadata agree.
pub proof fn lemma_has_gnu_sparse(list: Seq<Record>)
    ensures
        has_gnu_sparse(list) == has_sparse(list),
{
    if has_sparse(list) {
        let i = choose|i: int| 0 <= i < list.len() && is_sparse_key((#[trigger] list[i]).key);
        assert(text("GNU.sparse."@).is_prefix_of(list[i].key));
    }
    if has_gnu_sparse(list) {
        let i = choose|i: int|
            0 <= i < list.len() && text("GNU.sparse."@).is_prefix_of((#[trigger] list[i]).key);
        assert(is_sparse_key(list[i].key));
    }
}

/// A sound header that is no metadata begins a member, whatever it is, if all
/// numbers for it can be read and nothing says that it is sparse.
pub proof fn law_sound_headers_begin_members(
    p: ParserView,
    s: Seq<u8>,
    at: int,
    header: HeaderView,
)
    requires
        begins_member(p, s, at, header),
        header.type_flag != 83,
        !has_gnu_sparse(effective(p.global, p.local)),
    ensures
        next_member(p, s, at) matches Next::Found(_, q, start) && start == at + 512 && q
            == (ParserView {
            zero_block: false,
            local: None,
            long_name: None,
            long_link: None,
            global: p.global,
        }),
{
    reveal(block_step);
    reveal(member_at);
    reveal(member_layout);
    let pax = effective(p.global, p.local);
    lemma_has_gnu_sparse(pax);
    let q = ParserView { zero_block: false, ..p };
    lemma_records_apply(with_long_names(header, q), pax);
}

/// The kind of a member is decided by its type flag alone.
pub proof fn law_flags_stand_for_kinds(flag: u8)
    ensures
        EntryType::of_flag(flag) is File <==> (flag == 0 || flag == 48 || flag == 55 || flag == 83),
        EntryType::of_flag(flag) is Hardlink <==> flag == 49,
        EntryType::of_flag(flag) is Symlink <==> flag == 50,
        EntryType::of_flag(flag) is CharDevice <==> flag == 51,
        EntryType::of_flag(flag) is BlockDevice <==> flag == 52,
        EntryType::of_flag(flag) is Directory <==> flag == 53,
        EntryType::of_flag(flag) is Fifo <==> flag == 54,
        EntryType::of_flag(flag) matches EntryType::Other(other) ==> other == flag,
{
}

/// Whether a header with a payload of this size stands at a place in a stream,
/// and `next` is where the blocks that the payload fills end.
pub open spec fn has_payload(
    s: Seq<u8>,
    at: int,
    header: HeaderView,
    payload: Seq<u8>,
    next: int,
) -> bool {
    &&& 0 <= at
    &&& next <= s.len()
    &&& !all_zero(s.subrange(at, at + 512))
    &&& checksum(s.subrange(at, at + 512)) is Ok
    &&& block_header(s.subrange(at, at + 512)) == Ok::<HeaderView, Fault>(header)
    &&& header.stored_size == payload.len()
    &&& payload.len() <= 1_048_576
    &&& (next - at) % 512 == 0
    &&& at + 512 + payload.len() <= next < at + 1024 + payload.len()
    &&& s.subrange(at + 512, at + 512 + payload.len()) == payload
}

/// The blocks of a payload are those that its padding fills up.
proof fn lemma_payload_end(size: u64, at: int, next: int)
    requires
        size <= 1_048_576,
        (next - at) % 512 == 0,
        at + 512 + size <= next < at + 1024 + size,
    ensures
        next == at + 512 + size + padding_of(size),
{
}

/// The records of a local PAX header are in force for the next member, and
/// there must not be two such headers. The search goes on after the last block
/// of the payload.
pub proof fn law_local_headers_are_remembered(
    p: ParserView,
    s: Seq<u8>,
    at: int,
    header: HeaderView,
    payload: Seq<u8>,
    next: int,
)
    requires
        has_payload(s, at, header, payload, next),
        header.type_flag == 120,
    ensures
        p.local is Some ==> next_member(p, s, at) == Next::Bad(Fault::DuplicateLocalPax, next),
        p.local is None ==> match pax_records(payload, 0) {
            Ok(list) => next_member(p, s, at) == next_member(
                ParserView { local: Some(list), zero_block: false, ..p },
                s,
                next,
            ),
            Err(fault) => next_member(p, s, at) == Next::Bad(fault, next),
        },
{
    reveal(block_step);
    lemma_payload_end(header.stored_size, at, next);
}

/// A GNU record with a long path or link target gives the next member that
/// name, without the zero bytes and newlines at its end.
pub proof fn law_long_names_are_remembered(
    p: ParserView,
    s: Seq<u8>,
    at: int,
    header: HeaderView,
    name: Seq<u8>,
    tail: Seq<u8>,
    next: int,
)
    requires
        has_payload(s, at, header, name + tail, next),
        header.type_flag == 76 || header.type_flag == 75,
        name.len() > 0 ==> name.last() != 0 && name.last() != 10,
        forall|i: int| 0 <= i < tail.len() ==> #[trigger] tail[i] == 0 || tail[i] == 10,
    ensures
        header.type_flag == 76 ==> next_member(p, s, at) == next_member(
            ParserView { long_name: Some(name), zero_block: false, ..p },
            s,
            next,
        ),
        header.type_flag == 75 ==> next_member(p, s, at) == next_member(
            ParserView { long_link: Some(name), zero_block: false, ..p },
            s,
            next,
        ),
{
    reveal(block_step);
    lemma_payload_end(header.stored_size, at, next);
    lemma_trimmed(name, tail);
}

/// Zero bytes and newlines are taken away, up to the first other byte.
proof fn lemma_trimmed(name: Seq<u8>, tail: Seq<u8>)
    requires
        name.len() > 0 ==> name.last() != 0 && name.last() != 10,
        forall|i: int| 0 <= i < tail.len() ==> #[trigger] tail[i] == 0 || tail[i] == 10,
    ensures
        trimmed(name + tail) == name,
    decreases tail.len(),
{
    if tail.len() > 0 {
        let front = tail.drop_last();
        assert(tail[tail.len() - 1] == 0 || tail[tail.len() - 1] == 10);
        assert forall|i: int| 0 <= i < front.len() implies #[trigger] front[i] == 0 || front[i]
            == 10 by {
            assert(tail[i] == 0 || tail[i] == 10);
        }
        lemma_trimmed(name, front);
        assert((name + tail).drop_last() =~= name + front);
    } else {
        assert(name + tail =~= name);
    }
}

/// A single block of zero bytes is passed over, and two in a row end the
/// archive.
pub proof fn law_zero_blocks(p: ParserView, s: Seq<u8>, at: int)
    requires
        0 <= at,
        at + 512 <= s.len(),
        all_zero(s.subrange(at, at + 512)),
        !p.zero_block,
    ensures
        at + 1024 <= s.len() && all_zero(s.subrange(at + 512, at + 1024)) ==> next_member(p, s, at)
            == Next::End(at + 1024),
        at + 1024 <= s.len() && !all_zero(s.subrange(at + 512, at + 1024)) ==> next_member(p, s, at)
            == next_member(p, s, at + 512),
{
    reveal(block_step);
    let q = ParserView { zero_block: true, ..p };
    assert(next_member(p, s, at) == next_member(q, s, at + 512));
    if at + 1024 <= s.len() && !all_zero(s.subrange(at + 512, at + 1024)) {
        assert(ParserView { zero_block: false, ..q } == ParserView { zero_block: false, ..p });
    }
}

/// The header after a member stands in the next block after what is stored for
/// it, counted from where the search for the member began.
pub proof fn law_next_header_follows_in_the_next_block(
    p: ParserView,
    s: Seq<u8>,
    at: int,
    member: Member,
    q: ParserView,
    start: int,
)
    requires
        0 <= at,
        next_member(p, s, at) == Next::Found(member, q, start),
    ensures
        (end_of(member, start) - at) % 512 == 0,
        start + member.stored() <= end_of(member, start) < start + member.stored() + 512,
{
    law_found_members_are_sound(p, s, at, member, q, start);
}

/// The records of a global PAX header are kept for all members that follow, after
/// those of the global headers before. The search goes on after the last block of
/// the payload.
pub proof fn law_global_headers_are_remembered(
    p: ParserView,
    s: Seq<u8>,
    at: int,
    header: HeaderView,
    payload: Seq<u8>,
    next: int,
    list: Seq<Record>,
    key: Seq<u8>,
)
    requires
        has_payload(s, at, header, payload, next),
        header.type_flag == 103,
        pax_records(payload, 0) == Ok::<Seq<Record>, Fault>(list),
        in_key_order(p.global),
    ensures
        step_at(p, s, at) matches Step::Again(q, after) && {
            &&& after == next
            &&& q.local == p.local && q.long_name == p.long_name && q.long_link == p.long_link
            &&& in_key_order(q.global)
            &&& last_value(q.global, key) == match last_value(list, key) {
                Some(value) => if value.len() > 0 {
                    Some(value)
                } else {
                    None
                },
                None => last_value(p.global, key),
            }
        },
{
    reveal(block_step);
    lemma_payload_end(header.stored_size, at, next);
    lemma_stored_all(p.global, list, key);
}

/// Records that are taken in one after the other decide in this order.
proof fn lemma_stored_all(global: Seq<Record>, list: Seq<Record>, key: Seq<u8>)
    requires
        in_key_order(global),
    ensures
        in_key_order(stored_all(global, list)),
        last_value(stored_all(global, list), key) == match last_value(list, key) {
            Some(value) => if value.len() > 0 {
                Some(value)
            } else {
                None
            },
            None => last_value(global, key),
        },
    decreases list.len(),
{
    if list.len() > 0 {
        let front = list.drop_last();
        lemma_stored_all(global, front, key);
        law_global_records_act_as_a_map(stored_all(global, front), list.last(), key);
    }
}

/// A metadata member of more than 1048576 bytes is refused for that.
pub proof fn law_metadata_beyond_the_limit_is_refused(
    p: ParserView,
    s: Seq<u8>,
    at: int,
    header: HeaderView,
)
    requires
        0 <= at,
        at + 512 <= s.len(),
        !all_zero(s.subrange(at, at + 512)),
        checksum(s.subrange(at, at + 512)) is Ok,
        block_header(s.subrange(at, at + 512)) == Ok::<HeaderView, Fault>(header),
        header.type_flag == 120 || header.type_flag == 103 || header.type_flag == 76
            || header.type_flag == 75,
        header.stored_size > 1_048_576,
    ensures
        next_member(p, s, at) == Next::Bad(Fault::MetadataTooLarge, at + 512),
{
    reveal(block_step);
}

} // verus!
