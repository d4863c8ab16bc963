//! PAX records as they are written, and that all of each is read.

use vstd::prelude::*;
use vstd::utf8::valid_utf8;

use crate::bytes::{first_at, lemma_first_at, lemma_first_at_is};
use crate::error::Fault;
use crate::number::{decimal, is_digit};
use crate::numerals::{decimal_text, law_decimals_are_read, lemma_numeral};
use crate::pax::{
    effective, has_key, last_value, not_empty, not_hidden, pax_records, record_at, Record,
};

verus! {

/// A record as it is written: its length in decimal, a space, the key, an equals
/// sign, the value and a newline.
pub open spec fn record_bytes(record: Record, len: nat) -> Seq<u8> {
    decimal_text(len) + seq![32u8] + record.key + seq![61u8] + record.value + seq![10u8]
}

/// Whether a key can be written: it is UTF-8, not empty, and has no equals sign.
pub open spec fn is_key(key: Seq<u8>) -> bool {
    &&& key.len() > 0
    &&& valid_utf8(key)
    &&& forall|i: int| 0 <= i < key.len() ==> #[trigger] key[i] != 61
}

/// Whether a record is written with its own length.
pub open spec fn is_written(record: Record, len: nat) -> bool {
    is_key(record.key) && record_bytes(record, len).len() == len && len <= usize::MAX
}

/// Records as they are written, one after the other.
pub open spec fn all_record_bytes(list: Seq<Record>, lens: Seq<nat>) -> Seq<u8>
    decreases list.len(),
{
    if list.len() == 0 || lens.len() == 0 {
        Seq::empty()
    } else {
        record_bytes(list[0], lens[0]) + all_record_bytes(list.drop_first(), lens.drop_first())
    }
}

/// A record that was written is read: its key is all up to the first equals
/// sign, its value is all that follows up to the newline at its end, whatever
/// that holds, and the next record starts right after.
pub proof fn law_written_records_are_read(
    before: Seq<u8>,
    record: Record,
    len: nat,
    rest: Seq<u8>,
)
    requires
        is_written(record, len),
    ensures
        record_at(before + record_bytes(record, len) + rest, before.len() as int) == Ok::<
            (Record, int),
            Fault,
        >((record, (before.len() + len) as int)),
{
    let whole = record_bytes(record, len);
    let data = before + whole + rest;
    let digits = decimal_text(len);
    let at = before.len() as int;
    let space = at + digits.len();
    let end = at + len;
    lemma_numeral(len, 10);
    law_decimals_are_read(Seq::empty(), len);
    assert(Seq::<u8>::empty() + digits =~= digits);
    assert forall|i: int| 0 <= i < len implies data[at + i] == whole[i] by {}
    assert forall|i: int| at <= i < space implies data[i] != 32 by {
        assert(data[at + (i - at)] == whole[i - at]);
        assert(is_digit(digits[i - at]));
    }
    assert(data[at + digits.len()] == whole[digits.len() as int]);
    assert(whole[digits.len() as int] == 32);
    lemma_first_at_is(data, at, 32, space);
    assert(data.subrange(at, space) =~= digits) by {
        assert forall|i: int| 0 <= i < digits.len() implies data[at + i] == digits[i] by {
            assert(data[at + i] == whole[i]);
        }
    }
    assert(data[at + (len - 1)] == whole[len - 1]);
    assert(whole[len - 1] == 10);
    let body = data.subrange(space + 1, end - 1);
    assert(body =~= record.key + seq![61u8] + record.value) by {
        assert forall|i: int| 0 <= i < body.len() implies body[i] == (record.key + seq![61u8]
            + record.value)[i] by {
            assert(data[at + (digits.len() + 1 + i)] == whole[digits.len() + 1 + i]);
        }
    }
    assert forall|i: int| 0 <= i < record.key.len() implies body[i] != 61 by {
        assert(body[i] == record.key[i]);
    }
    lemma_first_at_is(body, 0, 61, record.key.len() as int);
    assert(body.take(record.key.len() as int) =~= record.key);
    assert(body.skip(record.key.len() as int + 1) =~= record.value);
}

/// Records that were written one after the other are read from a place on.
proof fn lemma_written_lists(before: Seq<u8>, list: Seq<Record>, lens: Seq<nat>)
    requires
        list.len() == lens.len(),
        forall|i: int| 0 <= i < list.len() ==> is_written(#[trigger] list[i], lens[i]),
    ensures
        pax_records(before + all_record_bytes(list, lens), before.len() as int) == Ok::<
            Seq<Record>,
            Fault,
        >(list),
    decreases list.len(),
{
    let data = before + all_record_bytes(list, lens);
    if list.len() == 0 {
        assert(list =~= Seq::empty());
    } else {
        let first = record_bytes(list[0], lens[0]);
        let others = list.drop_first();
        let rest = all_record_bytes(others, lens.drop_first());
        assert(is_written(list[0], lens[0]));
        assert(data =~= before + first + rest);
        law_written_records_are_read(before, list[0], lens[0], rest);
        assert forall|i: int| 0 <= i < others.len() implies is_written(
            #[trigger] others[i],
            lens.drop_first()[i],
        ) by {
            assert(is_written(list[i + 1], lens[i + 1]));
        }
        lemma_written_lists(before + first, others, lens.drop_first());
        assert(before + first + rest =~= (before + first) + rest);
        assert(seq![list[0]] + others =~= list);
        lemma_numeral(lens[0], 10);
    }
}

/// A payload of records that were written one after the other is read as these
/// records, in order, and nothing else.
pub proof fn law_written_payloads_are_read(list: Seq<Record>, lens: Seq<nat>)
    requires
        list.len() == lens.len(),
        forall|i: int| 0 <= i < list.len() ==> is_written(#[trigger] list[i], lens[i]),
    ensures
        pax_records(all_record_bytes(list, lens), 0) == Ok::<Seq<Record>, Fault>(list),
{
    let none = Seq::<u8>::empty();
    lemma_written_lists(none, list, lens);
    assert(none + all_record_bytes(list, lens) =~= all_record_bytes(list, lens));
}

/// A record that is read takes up all bytes from where it starts to where it
/// ends: as many as the number in front of it says, then a space, its key, an
/// equals sign, its value and a newline.
pub proof fn law_records_are_read_whole(data: Seq<u8>, at: int, record: Record, end: int)
    requires
        0 <= at < data.len(),
        record_at(data, at) == Ok::<(Record, int), Fault>((record, end)),
    ensures
        is_key(record.key),
        at < end <= data.len(),
        exists|digits: Seq<u8>|
            decimal(digits) == Ok::<u64, Fault>((end - at) as u64) && data.subrange(at, end)
                == #[trigger] (digits + seq![32u8] + record.key + seq![61u8] + record.value
                + seq![10u8]),
{
    let space = first_at(data, at, 32);
    lemma_first_at(data, at, 32);
    let body = data.subrange(space + 1, end - 1);
    let equals = first_at(body, 0, 61);
    lemma_first_at(body, 0, 61);
    let digits = data.subrange(at, space);
    assert(data.subrange(at, end) =~= digits + seq![32u8] + record.key + seq![61u8] + record.value
        + seq![10u8]) by {
        let whole = digits + seq![32u8] + record.key + seq![61u8] + record.value + seq![10u8];
        assert forall|i: int| 0 <= i < end - at implies data[at + i] == whole[i] by {
            let k = i - (space + 1 - at);
            if 0 <= k < body.len() {
                assert(body[k] == data[at + i]);
            }
        }
    }
    assert forall|i: int| 0 <= i < record.key.len() implies #[trigger] record.key[i] != 61 by {
        assert(body[i] != 61);
    }
}

/// A record that is cut short, or has more than it says, is refused: whatever is
/// accepted is records from its start to its end.
pub proof fn law_payloads_are_read_whole(data: Seq<u8>, at: int, list: Seq<Record>)
    requires
        0 <= at < data.len(),
        pax_records(data, at) == Ok::<Seq<Record>, Fault>(list),
    ensures
        list.len() > 0,
        record_at(data, at) matches Ok((record, end)) && record == list[0] && at < end
            <= data.len() && pax_records(data, end) == Ok::<Seq<Record>, Fault>(list.drop_first()),
{
    if let Ok((record, end)) = record_at(data, at) {
        law_records_are_read_whole(data, at, record, end);
        if let Ok(rest) = pax_records(data, end) {
            assert(list == seq![record] + rest);
            assert(list.drop_first() =~= rest);
        }
    }
}

/// Of all records with a key the last one decides.
pub proof fn law_last_record_decides(list: Seq<Record>, key: Seq<u8>, i: int)
    requires
        0 <= i < list.len(),
        list[i].key == key,
        forall|j: int| i < j < list.len() ==> (#[trigger] list[j]).key != key,
    ensures
        last_value(list, key) == Some(list[i].value),
    decreases list.len(),
{
    if i < list.len() - 1 {
        assert(list[list.len() - 1].key != key);
        let front = list.drop_last();
        assert forall|j: int| i < j < front.len() implies (#[trigger] front[j]).key != key by {
            assert(list[j].key != key);
        }
        law_last_record_decides(front, key, i);
    }
}

/// A key that no record has is without a value.
pub proof fn law_absent_keys_have_no_value(list: Seq<Record>, key: Seq<u8>)
    requires
        forall|j: int| 0 <= j < list.len() ==> (#[trigger] list[j]).key != key,
    ensures
        last_value(list, key) is None,
    decreases list.len(),
{
    if list.len() > 0 {
        assert(list[list.len() - 1].key != key);
        let front = list.drop_last();
        assert forall|j: int| 0 <= j < front.len() implies (#[trigger] front[j]).key != key by {
            assert(list[j].key != key);
        }
        law_absent_keys_have_no_value(front, key);
    }
}

/// The value of a key in two lists, one after the other.
proof fn lemma_value_of_both(a: Seq<Record>, b: Seq<Record>, key: Seq<u8>)
    ensures
        last_value(a + b, key) == match last_value(b, key) {
            Some(value) => Some(value),
            None => last_value(a, key),
        },
    decreases b.len(),
{
    if b.len() == 0 {
        assert(a + b =~= a);
    } else {
        assert((a + b).last() == b.last());
        assert((a + b).drop_last() =~= a + b.drop_last());
        lemma_value_of_both(a, b.drop_last(), key);
    }
}

/// Records that are hidden have no value, and the others keep theirs.
proof fn lemma_hidden(list: Seq<Record>, hidden: Seq<Record>, key: Seq<u8>)
    ensures
        last_value(not_hidden(list, hidden), key) == if has_key(hidden, key) {
            None
        } else {
            last_value(list, key)
        },
    decreases list.len(),
{
    if list.len() > 0 {
        let rest = not_hidden(list.drop_last(), hidden);
        lemma_hidden(list.drop_last(), hidden, key);
        if !has_key(hidden, list.last().key) {
            assert(rest.push(list.last()).drop_last() =~= rest);
        }
    }
}

/// Records without a value are passed over.
proof fn lemma_not_empty(list: Seq<Record>, key: Seq<u8>, i: int)
    requires
        0 <= i < list.len(),
        list[i].key == key,
        list[i].value.len() > 0,
        forall|j: int|
            i < j < list.len() ==> (#[trigger] list[j]).key != key || list[j].value.len() == 0,
    ensures
        last_value(not_empty(list), key) == Some(list[i].value),
    decreases list.len(),
{
    let front = list.drop_last();
    let rest = not_empty(front);
    if i < list.len() - 1 {
        assert forall|j: int| i < j < front.len() implies (#[trigger] front[j]).key != key
            || front[j].value.len() == 0 by {
            assert(list[j].key != key || list[j].value.len() == 0);
        }
        lemma_not_empty(front, key, i);
        assert(list[list.len() - 1].key != key || list[list.len() - 1].value.len() == 0);
    }
    if list.last().value.len() > 0 {
        assert(rest.push(list.last()).drop_last() =~= rest);
    }
}

/// A key of which all records are without a value has none.
proof fn lemma_all_empty(list: Seq<Record>, key: Seq<u8>)
    requires
        forall|j: int|
            0 <= j < list.len() ==> (#[trigger] list[j]).key != key || list[j].value.len() == 0,
    ensures
        last_value(not_empty(list), key) is None,
    decreases list.len(),
{
    if list.len() > 0 {
        let front = list.drop_last();
        let rest = not_empty(front);
        assert forall|j: int| 0 <= j < front.len() implies (#[trigger] front[j]).key != key
            || front[j].value.len() == 0 by {
            assert(list[j].key != key || list[j].value.len() == 0);
        }
        lemma_all_empty(front, key);
        assert(list[list.len() - 1].key != key || list[list.len() - 1].value.len() == 0);
        if list.last().value.len() > 0 {
            assert(rest.push(list.last()).drop_last() =~= rest);
        }
    }
}

/// The local records of a member go before the global ones: a key that a local
/// record has gets the last local value that is not empty, or none if all are,
/// and any other key keeps its global value.
pub proof fn law_local_records_go_first(
    global: Seq<Record>,
    local: Seq<Record>,
    key: Seq<u8>,
    i: int,
)
    requires
        0 <= i < local.len() ==> local[i].key == key,
    ensures
        0 <= i < local.len() && local[i].value.len() > 0 && (forall|j: int|
            i < j < local.len() ==> (#[trigger] local[j]).key != key || local[j].value.len() == 0)
            ==> last_value(effective(global, Some(local)), key) == Some(local[i].value),
        0 <= i < local.len() && (forall|j: int|
            0 <= j < local.len() ==> (#[trigger] local[j]).key != key || local[j].value.len() == 0)
            ==> last_value(effective(global, Some(local)), key) is None,
        (forall|j: int| 0 <= j < local.len() ==> (#[trigger] local[j]).key != key) ==> last_value(
            effective(global, Some(local)),
            key,
        ) == last_value(global, key),
        last_value(effective(global, None), key) == last_value(global, key),
{
    lemma_value_of_both(not_hidden(global, local), not_empty(local), key);
    lemma_hidden(global, local, key);
    if 0 <= i < local.len() {
        assert(has_key(local, key));
        if local[i].value.len() > 0 && (forall|j: int|
            i < j < local.len() ==> (#[trigger] local[j]).key != key
                || local[j].value.len() == 0) {
            lemma_not_empty(local, key, i);
        }
    }
    if forall|j: int|
        0 <= j < local.len() ==> (#[trigger] local[j]).key != key || local[j].value.len() == 0 {
        lemma_all_empty(local, key);
    }
    if forall|j: int| 0 <= j < local.len() ==> (#[trigger] local[j]).key != key {
        assert forall|j: int| 0 <= j < local.len() implies (#[trigger] local[j]).key != key
            || local[j].value.len() == 0 by {}
        lemma_all_empty(local, key);
    }
}

} // verus!
