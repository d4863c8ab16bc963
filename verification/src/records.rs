//! The PAX records of an entry, from all headers that come before it.

use vstd::prelude::*;

use crate::header::block_header;
use crate::iteration::{end_of, read_members};
use crate::member::{all_zero, block_step, member_at, next_member, step_at, Next, ParserView, Step};
use crate::pax::{
    effective, in_key_order, last_value, law_global_records_act_as_a_map, pax_records, stored_all,
    Record,
};
use crate::strictness::law_found_members_are_sound;

verus! {

/// The records in the header at a place, if it is one of PAX records with this
/// flag.
pub open spec fn records_at(s: Seq<u8>, at: int, flag: u8) -> Option<Seq<Record>> {
    let block = s.subrange(at, at + 512);
    if all_zero(block) {
        None
    } else {
        match block_header(block) {
            Ok(header) => if header.type_flag == flag {
                match pax_records(s.subrange(at + 512, at + 512 + header.stored_size), 0) {
                    Ok(list) => Some(list),
                    Err(_) => None,
                }
            } else {
                None
            },
            Err(_) => None,
        }
    }
}

/// The records of all global headers that are passed in the search for the next
/// member, in order.
pub open spec fn globals_before(p: ParserView, s: Seq<u8>, at: int) -> Seq<Record>
    decreases s.len() - at,
{
    proof {
        reveal(block_step);
    }
    match step_at(p, s, at) {
        Step::Stop(_) => Seq::empty(),
        Step::Again(q, after) => (match records_at(s, at, 103) {
            Some(list) => list,
            None => Seq::empty(),
        }) + globals_before(q, s, after),
    }
}

/// The records of the local header that is passed in the search for the next
/// member, if there is one.
pub open spec fn locals_before(p: ParserView, s: Seq<u8>, at: int) -> Option<Seq<Record>>
    decreases s.len() - at,
{
    proof {
        reveal(block_step);
    }
    match step_at(p, s, at) {
        Step::Stop(_) => None,
        Step::Again(q, after) => match records_at(s, at, 120) {
            Some(list) => Some(list),
            None => locals_before(q, s, after),
        },
    }
}

/// The records of all global headers up to the last of so many members, in
/// order.
pub open spec fn all_globals(p: ParserView, s: Seq<u8>, at: int, count: nat) -> Seq<Record>
    decreases count,
{
    if count == 0 {
        Seq::empty()
    } else {
        globals_before(p, s, at) + match next_member(p, s, at) {
            Next::Found(member, q, start) => all_globals(
                q,
                s,
                end_of(member, start),
                (count - 1) as nat,
            ),
            _ => Seq::empty(),
        }
    }
}

/// Records that are stored in two parts are stored as one.
proof fn lemma_stored_parts(list: Seq<Record>, a: Seq<Record>, b: Seq<Record>)
    ensures
        stored_all(stored_all(list, a), b) == stored_all(list, a + b),
    decreases b.len(),
{
    if b.len() == 0 {
        assert(a + b =~= a);
    } else {
        lemma_stored_parts(list, a, b.drop_last());
        assert((a + b).drop_last() =~= a + b.drop_last());
        assert((a + b).last() == b.last());
    }
}

/// What a header that the search goes on from does to the records.
proof fn lemma_step_records(p: ParserView, s: Seq<u8>, at: int)
    requires
        0 <= at,
    ensures
        step_at(p, s, at) matches Step::Again(q, after) ==> {
            &&& at < after
            &&& q.global == stored_all(
                p.global,
                match records_at(s, at, 103) {
                    Some(list) => list,
                    None => Seq::empty(),
                },
            )
            &&& q.local == match records_at(s, at, 120) {
                Some(list) => Some(list),
                None => p.local,
            }
            &&& records_at(s, at, 120) is Some ==> p.local is None
        },
{
    reveal(block_step);
}

/// What a header that begins a member takes of the records.
proof fn lemma_member_records(p: ParserView, s: Seq<u8>, at: int)
    ensures
        step_at(p, s, at) matches Step::Stop(Next::Found(member, q, start)) ==> {
            &&& member.pax == effective(p.global, p.local)
            &&& q.global == p.global
            &&& q.local is None
        },
{
    reveal(block_step);
    reveal(member_at);
}

/// The records of the next member are those of the global headers before it, the
/// ones remembered first, with those of its one local header.
proof fn lemma_search_records(p: ParserView, s: Seq<u8>, at: int)
    requires
        0 <= at,
    ensures
        next_member(p, s, at) matches Next::Found(member, q, start) ==> {
            &&& q.global == stored_all(p.global, globals_before(p, s, at))
            &&& q.local is None
            &&& member.pax == effective(
                q.global,
                match p.local {
                    Some(list) => Some(list),
                    None => locals_before(p, s, at),
                },
            )
        },
    decreases s.len() - at,
{
    lemma_step_records(p, s, at);
    lemma_member_records(p, s, at);
    if let Step::Again(q, after) = step_at(p, s, at) {
        if after <= s.len() {
            lemma_search_records(q, s, after);
        }
        let here = match records_at(s, at, 103) {
            Some(list) => list,
            None => Seq::empty(),
        };
        lemma_stored_parts(p.global, here, globals_before(q, s, after));
    }
}

/// What is remembered after so many members, and after the one that follows them.
proof fn lemma_all_globals(p: ParserView, s: Seq<u8>, at: int, count: nat)
    requires
        0 <= at,
        p.local is None,
    ensures
        read_members(p, s, at, count) matches Some((list, q, end)) ==> {
            &&& at <= end
            &&& q.local is None
            &&& q.global == stored_all(p.global, all_globals(p, s, at, count))
            &&& next_member(q, s, end) is Found ==> all_globals(p, s, at, count + 1)
                == all_globals(p, s, at, count) + globals_before(q, s, end)
        },
    decreases count,
{
    if let Some((list, q, end)) = read_members(p, s, at, count) {
        if count == 0 {
            reveal_with_fuel(all_globals, 2);
            if let Next::Found(member, r, start) = next_member(p, s, at) {
                let here = globals_before(p, s, at);
                assert(here + Seq::<Record>::empty() =~= Seq::<Record>::empty() + here);
            }
        } else {
            if let Next::Found(member, p1, start) = next_member(p, s, at) {
                let here = globals_before(p, s, at);
                let at1 = end_of(member, start);
                let left = (count - 1) as nat;
                lemma_search_records(p, s, at);
                law_found_members_are_sound(p, s, at, member, p1, start);
                lemma_all_globals(p1, s, at1, left);
                lemma_stored_parts(p.global, here, all_globals(p1, s, at1, left));
                assert((count + 1 - 1) as nat == left + 1);
                if next_member(q, s, end) is Found {
                    assert(here + (all_globals(p1, s, at1, left) + globals_before(q, s, end)) =~= (
                    here + all_globals(p1, s, at1, left)) + globals_before(q, s, end));
                }
            }
        }
    }
}

/// The PAX records of an entry are decided by all global headers before it, from
/// the start of the archive on, and by the one local header right before it: the
/// global records whose keys the local ones do not have, in the order of their
/// keys, and then the local ones that have a value. No local header has an effect
/// on any later entry.
pub proof fn law_records_of_an_entry(s: Seq<u8>, at: int, count: nat)
    requires
        0 <= at,
    ensures
        read_members(ParserView::start(), s, at, count) matches Some((_, q, end)) ==> (next_member(
            q,
            s,
            end,
        ) matches Next::Found(member, _, _) ==> member.pax == effective(
            stored_all(Seq::empty(), all_globals(ParserView::start(), s, at, count + 1)),
            locals_before(q, s, end),
        )),
{
    let p = ParserView::start();
    lemma_all_globals(p, s, at, count);
    if let Some((list, q, end)) = read_members(p, s, at, count) {
        lemma_search_records(q, s, end);
        lemma_stored_parts(p.global, all_globals(p, s, at, count), globals_before(q, s, end));
    }
}

/// Of all global records with a key the last one decides: it sets the key, or
/// removes it if it has no value. The keys are in order, and none is there twice.
pub proof fn law_last_global_record_decides(list: Seq<Record>, key: Seq<u8>)
    ensures
        in_key_order(stored_all(Seq::empty(), list)),
        last_value(stored_all(Seq::empty(), list), key) == match last_value(list, key) {
            Some(value) => if value.len() > 0 {
                Some(value)
            } else {
                None
            },
            None => None,
        },
    decreases list.len(),
{
    if list.len() > 0 {
        let front = list.drop_last();
        law_last_global_record_decides(front, key);
        law_global_records_act_as_a_map(stored_all(Seq::empty(), front), list.last(), key);
    }
}

} // verus!
