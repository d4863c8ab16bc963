//! PAX extended headers: their records, and what the records say of a member.

use vstd::prelude::*;
use vstd::slice::{slice_subrange, slice_to_vec};
use vstd::utf8::valid_utf8;

use crate::bytes::{
    begins_with, bytes_less, comes_before, copy_range, find_from, first_at, lemma_bytes_less_strict,
    lemma_bytes_less_total, lemma_bytes_less_transitive, same_bytes, text,
};
use crate::error::Fault;
use crate::header::{Header, HeaderView};
use crate::number::{decimal, parse_decimal, parse_signed_decimal, signed_decimal};

verus! {

/// What a PAX record holds.
pub struct Record {
    /// The key, which is UTF-8.
    pub key: Seq<u8>,
    /// The value.
    pub value: Seq<u8>,
}

/// One PAX record.
#[derive(Clone, Debug)]
pub struct PaxRecord {
    /// The key, which is UTF-8.
    pub key: Vec<u8>,
    /// The value.
    pub value: Vec<u8>,
}

impl View for PaxRecord {
    type V = Record;

    open spec fn view(&self) -> Record {
        Record { key: self.key@, value: self.value@ }
    }
}

/// What a list of records holds.
pub open spec fn records(list: Seq<PaxRecord>) -> Seq<Record> {
    Seq::new(list.len(), |i: int| list[i]@)
}

/// The text that bytes are the UTF-8 encoding of, if they are one.
///
/// Calls `core::str::from_utf8`, of which it is claimed that it accepts exactly
/// the valid UTF-8 byte strings and hands the same bytes back as a text.
#[verifier::external_body]
pub(crate) fn utf8_text(bytes: &[u8]) -> (found: Option<&str>)
    ensures
        found is Some == valid_utf8(bytes@),
        found matches Some(s) ==> text(s@) == bytes@,
{
    core::str::from_utf8(bytes).ok()
}

/// The record that starts at `cursor`, and where it ends. A record is its own
/// length in decimal, a space, a key, an equals sign, a value and a newline.
pub open spec fn record_at(data: Seq<u8>, cursor: int) -> Result<(Record, int), Fault> {
    let space = first_at(data, cursor, 32);
    if space >= data.len() {
        Err(Fault::PaxMalformedLength)
    } else {
        match decimal(data.subrange(cursor, space)) {
            Err(fault) => Err(fault),
            Ok(length) => {
                let end = cursor + length;
                if length > usize::MAX {
                    Err(Fault::PaxLengthTooLarge)
                } else if length == 0 || end > data.len() {
                    Err(Fault::PaxExceedsBody)
                } else if end < space + 1 {
                    Err(Fault::PaxMalformedLength)
                } else if end == space + 1 || data[end - 1] != 10 {
                    Err(Fault::PaxNoNewline)
                } else {
                    let body = data.subrange(space + 1, end - 1);
                    let equals = first_at(body, 0, 61);
                    if equals >= body.len() {
                        Err(Fault::PaxNoEquals)
                    } else if !valid_utf8(body.take(equals)) {
                        Err(Fault::PaxKeyNotUtf8)
                    } else if equals == 0 {
                        Err(Fault::PaxKeyEmpty)
                    } else {
                        Ok((Record { key: body.take(equals), value: body.skip(equals + 1) }, end))
                    }
                }
            },
        }
    }
}

/// The records of a PAX payload from `cursor` on, or the first fault.
pub open spec fn pax_records(data: Seq<u8>, cursor: int) -> Result<Seq<Record>, Fault>
    decreases data.len() - cursor,
{
    if cursor >= data.len() {
        Ok(Seq::empty())
    } else {
        match record_at(data, cursor) {
            Err(fault) => Err(fault),
            Ok((record, end)) => if end <= cursor {
                Err(Fault::PaxExceedsBody)
            } else {
                match pax_records(data, end) {
                    Err(fault) => Err(fault),
                    Ok(rest) => Ok(seq![record] + rest),
                }
            },
        }
    }
}

/// Whether every key is UTF-8 and none is empty.
pub open spec fn keys_valid(list: Seq<Record>) -> bool {
    forall|i: int|
        0 <= i < list.len() ==> valid_utf8((#[trigger] list[i]).key) && list[i].key.len() > 0
}

/// The value of the last record with a key.
pub open spec fn last_value(list: Seq<Record>, key: Seq<u8>) -> Option<Seq<u8>>
    decreases list.len(),
{
    if list.len() == 0 {
        None
    } else if list.last().key == key {
        Some(list.last().value)
    } else {
        last_value(list.drop_last(), key)
    }
}

/// The value of a key where it should be text.
pub open spec fn text_value(list: Seq<Record>, key: Seq<u8>) -> Result<Option<Seq<u8>>, Fault> {
    match last_value(list, key) {
        None => Ok(None),
        Some(value) => if valid_utf8(value) {
            Ok(Some(value))
        } else {
            Err(Fault::PaxValueNotUtf8)
        },
    }
}

/// The value of a key where it should be a decimal number.
pub open spec fn number_value(list: Seq<Record>, key: Seq<u8>) -> Result<Option<u64>, Fault> {
    match last_value(list, key) {
        None => Ok(None),
        Some(value) => match decimal(value) {
            Ok(number) => Ok(Some(number)),
            Err(fault) => Err(fault),
        },
    }
}

/// The mode that the records set, or the one before.
pub open spec fn mode_value(list: Seq<Record>, before: u32) -> Result<u32, Fault> {
    match number_value(list, text("mode"@)) {
        Err(fault) => Err(fault),
        Ok(None) => Ok(before),
        Ok(Some(mode)) => if mode <= u32::MAX {
            Ok(mode as u32)
        } else {
            Err(Fault::PaxModeTooLarge)
        },
    }
}

/// The modification time that the records set, without its fraction, or the
/// one before.
pub open spec fn mtime_value(list: Seq<Record>, before: i64) -> Result<i64, Fault> {
    match text_value(list, text("mtime"@)) {
        Err(fault) => Err(fault),
        Ok(None) => Ok(before),
        Ok(Some(value)) => match signed_decimal(value.take(first_at(value, 0, 46))) {
            Some(mtime) => Ok(mtime),
            None => Err(Fault::PaxMtimeInvalid),
        },
    }
}

/// A number that the records set, or the one before.
pub open spec fn number_or(list: Seq<Record>, key: Seq<u8>, before: u64) -> Result<u64, Fault> {
    match number_value(list, key) {
        Err(fault) => Err(fault),
        Ok(None) => Ok(before),
        Ok(Some(number)) => Ok(number),
    }
}

/// A header with what PAX records say put in place of what it said.
pub open spec fn with_pax(header: HeaderView, list: Seq<Record>) -> Result<HeaderView, Fault> {
    let path = match last_value(list, text("path"@)) {
        Some(path) => path,
        None => header.path,
    };
    let link_name = match last_value(list, text("linkpath"@)) {
        Some(link) => Some(link),
        None => header.link_name,
    };
    match number_or(list, text("size"@), header.stored_size) {
        Err(fault) => Err(fault),
        Ok(stored_size) => match mode_value(list, header.mode) {
            Err(fault) => Err(fault),
            Ok(mode) => match number_or(list, text("uid"@), header.uid) {
                Err(fault) => Err(fault),
                Ok(uid) => match number_or(list, text("gid"@), header.gid) {
                    Err(fault) => Err(fault),
                    Ok(gid) => match mtime_value(list, header.mtime) {
                        Err(fault) => Err(fault),
                        Ok(mtime) => Ok(
                            HeaderView {
                                path,
                                link_name,
                                mode,
                                uid,
                                gid,
                                stored_size,
                                mtime,
                                type_flag: header.type_flag,
                            },
                        ),
                    },
                },
            },
        },
    }
}

/// Whether a record with the key is there.
pub open spec fn has_key(list: Seq<Record>, key: Seq<u8>) -> bool {
    exists|i: int| 0 <= i < list.len() && (#[trigger] list[i]).key == key
}

/// Whether a key belongs to the GNU sparse metadata.
pub open spec fn is_sparse_key(key: Seq<u8>) -> bool {
    text("GNU.sparse."@).is_prefix_of(key)
}

/// Whether a record of the GNU sparse metadata is there.
pub open spec fn has_sparse(list: Seq<Record>) -> bool {
    exists|i: int| 0 <= i < list.len() && is_sparse_key((#[trigger] list[i]).key)
}

/// How many records from `from` on stand before `key` in the order of keys.
pub open spec fn rank(list: Seq<Record>, from: int, key: Seq<u8>) -> int
    decreases list.len() - from,
{
    if from < list.len() && bytes_less(list[from].key, key) {
        rank(list, from + 1, key)
    } else {
        from
    }
}

/// Global records after one more was read: one with an empty value removes its
/// key, any other sets it. The list stays in the order of its keys.
pub open spec fn stored(list: Seq<Record>, record: Record) -> Seq<Record> {
    let at = rank(list, 0, record.key);
    let there = at < list.len() && list[at].key == record.key;
    if record.value.len() == 0 {
        if there {
            list.remove(at)
        } else {
            list
        }
    } else if there {
        list.update(at, record)
    } else {
        list.insert(at, record)
    }
}

/// Global records after a whole payload was read.
pub open spec fn stored_all(list: Seq<Record>, more: Seq<Record>) -> Seq<Record>
    decreases more.len(),
{
    if more.len() == 0 {
        list
    } else {
        stored(stored_all(list, more.drop_last()), more.last())
    }
}

/// Whether a list is in the strict order of its keys, so that none is there
/// twice.
pub open spec fn in_key_order(list: Seq<Record>) -> bool {
    forall|i: int, j: int|
        0 <= i < j < list.len() ==> bytes_less((#[trigger] list[i]).key, (#[trigger] list[j]).key)
}

/// The records of which `hidden` has no record with the same key.
pub open spec fn not_hidden(list: Seq<Record>, hidden: Seq<Record>) -> Seq<Record>
    decreases list.len(),
{
    if list.len() == 0 {
        Seq::empty()
    } else {
        let rest = not_hidden(list.drop_last(), hidden);
        if has_key(hidden, list.last().key) {
            rest
        } else {
            rest.push(list.last())
        }
    }
}

/// The records with a value that is not empty.
pub open spec fn not_empty(list: Seq<Record>) -> Seq<Record>
    decreases list.len(),
{
    if list.len() == 0 {
        Seq::empty()
    } else {
        let rest = not_empty(list.drop_last());
        if list.last().value.len() == 0 {
            rest
        } else {
            rest.push(list.last())
        }
    }
}

/// The records in force for a member: the global ones whose key the local ones
/// do not have, then the local ones that have a value.
pub open spec fn effective(global: Seq<Record>, local: Option<Seq<Record>>) -> Seq<Record> {
    match local {
        None => global,
        Some(list) => not_hidden(global, list) + not_empty(list),
    }
}

/// Reads the records of a PAX payload.
pub fn parse_pax(data: &[u8]) -> (list: Result<Vec<PaxRecord>, Fault>)
    ensures
        list matches Ok(found) ==> pax_records(data@, 0) == Ok::<Seq<Record>, Fault>(
            records(found@),
        ) && keys_valid(records(found@)),
        list matches Err(fault) ==> pax_records(data@, 0) == Err::<Seq<Record>, Fault>(fault),
{
    let mut list: Vec<PaxRecord> = Vec::new();
    let mut cursor: usize = 0;
    assert(records(list@) =~= Seq::<Record>::empty());
    while cursor < data.len()
        invariant
            cursor <= data@.len(),
            keys_valid(records(list@)),
            pax_records(data@, cursor as int) matches Ok(rest) ==> pax_records(data@, 0) == Ok::<
                Seq<Record>,
                Fault,
            >(records(list@) + rest),
            pax_records(data@, cursor as int) matches Err(fault) ==> pax_records(data@, 0) == Err::<
                Seq<Record>,
                Fault,
            >(fault),
        decreases data@.len() - cursor,
    {
        let ghost before = records(list@);
        let (record, end) = match parse_record(data, cursor) {
            Ok(found) => found,
            Err(fault) => {
                return Err(fault);
            },
        };
        list.push(record);
        proof {
            assert(records(list@) =~= before.push(record@));
            assert(before + (seq![record@] + match pax_records(data@, end as int) {
                Ok(rest) => rest,
                Err(_) => Seq::empty(),
            }) =~= records(list@) + match pax_records(data@, end as int) {
                Ok(rest) => rest,
                Err(_) => Seq::empty(),
            });
        }
        cursor = end;
    }
    assert(records(list@) + Seq::<Record>::empty() =~= records(list@));
    Ok(list)
}

/// Reads the record that starts at `cursor`.
fn parse_record(data: &[u8], cursor: usize) -> (found: Result<(PaxRecord, usize), Fault>)
    requires
        cursor < data@.len(),
    ensures
        found matches Ok((record, end)) ==> record_at(data@, cursor as int) == Ok::<
            (Record, int),
            Fault,
        >((record@, end as int)) && cursor < end <= data@.len() && valid_utf8(record@.key)
            && record@.key.len() > 0,
        found matches Err(fault) ==> record_at(data@, cursor as int) == Err::<
            (Record, int),
            Fault,
        >(fault),
{
    let space: usize = find_from(data, cursor, 32);
    if space >= data.len() {
        return Err(Fault::PaxMalformedLength);
    }
    let wide: u64 = parse_decimal(slice_subrange(data, cursor, space))?;
    if wide > usize::MAX as u64 {
        return Err(Fault::PaxLengthTooLarge);
    }
    let length: usize = wide as usize;
    if length == 0 || length > data.len() - cursor {
        return Err(Fault::PaxExceedsBody);
    }
    let end: usize = cursor + length;
    if end < space + 1 {
        return Err(Fault::PaxMalformedLength);
    }
    if end == space + 1 || data[end - 1] != 10 {
        return Err(Fault::PaxNoNewline);
    }
    let body = slice_subrange(data, space + 1, end - 1);
    let equals: usize = find_from(body, 0, 61);
    if equals >= body.len() {
        return Err(Fault::PaxNoEquals);
    }
    let key = slice_subrange(body, 0, equals);
    if utf8_text(key).is_none() {
        return Err(Fault::PaxKeyNotUtf8);
    }
    if equals == 0 {
        return Err(Fault::PaxKeyEmpty);
    }
    let record = PaxRecord {
        key: slice_to_vec(key),
        value: copy_range(body, equals + 1, body.len()),
    };
    Ok((record, end))
}

/// The value of the last record with a key.
pub fn pax_value<'a>(pax: &'a [PaxRecord], key: &str) -> (value: Option<&'a [u8]>)
    ensures
        value matches Some(found) ==> last_value(records(pax@), text(key@)) == Some(found@),
        value is None ==> last_value(records(pax@), text(key@)) is None,
{
    let wanted = key.as_bytes();
    let ghost all = records(pax@);
    let mut i: usize = pax.len();
    assert(all.take(all.len() as int) =~= all);
    while i > 0
        invariant
            i <= pax@.len(),
            all == records(pax@),
            wanted@ == text(key@),
            last_value(all, text(key@)) == last_value(all.take(i as int), text(key@)),
        decreases i,
    {
        i = i - 1;
        assert(all.take(i + 1).drop_last() =~= all.take(i as int));
        assert(all.take(i + 1).last() == pax@[i as int]@);
        if same_bytes(pax[i].key.as_slice(), wanted) {
            return Some(pax[i].value.as_slice());
        }
    }
    None
}

/// The value of the last record with a key, which should be text.
pub fn pax_text_checked<'a>(pax: &'a [PaxRecord], key: &str) -> (value: Result<
    Option<&'a str>,
    Fault,
>)
    ensures
        value matches Ok(Some(found)) ==> text_value(records(pax@), text(key@)) == Ok::<
            Option<Seq<u8>>,
            Fault,
        >(Some(text(found@))),
        value matches Ok(None) ==> text_value(records(pax@), text(key@)) == Ok::<
            Option<Seq<u8>>,
            Fault,
        >(None),
        value matches Err(fault) ==> text_value(records(pax@), text(key@)) == Err::<
            Option<Seq<u8>>,
            Fault,
        >(fault),
{
    match pax_value(pax, key) {
        None => Ok(None),
        Some(bytes) => match utf8_text(bytes) {
            Some(found) => Ok(Some(found)),
            None => Err(Fault::PaxValueNotUtf8),
        },
    }
}

/// The value of the last record with a key, which should be a decimal number.
pub fn pax_u64_checked(pax: &[PaxRecord], key: &str) -> (value: Result<Option<u64>, Fault>)
    ensures
        value == number_value(records(pax@), text(key@)),
{
    match pax_value(pax, key) {
        None => Ok(None),
        Some(bytes) => match parse_decimal(bytes) {
            Ok(number) => Ok(Some(number)),
            Err(fault) => Err(fault),
        },
    }
}

/// Puts what PAX records say of a member in place of what its header said. At
/// a fault the header stays as it was.
pub fn apply_pax_header(header: &mut Header, pax: &[PaxRecord]) -> (done: Result<(), Fault>)
    ensures
        done is Ok ==> with_pax(old(header)@, records(pax@)) == Ok::<HeaderView, Fault>(
            final(header)@,
        ),
        done matches Err(fault) ==> with_pax(old(header)@, records(pax@)) == Err::<
            HeaderView,
            Fault,
        >(fault) && final(header)@ == old(header)@,
{
    let size: u64 = match pax_u64_checked(pax, "size")? {
        Some(size) => size,
        None => header.stored_size(),
    };
    let mode: u32 = match pax_u64_checked(pax, "mode")? {
        Some(mode) => if mode <= u32::MAX as u64 {
            mode as u32
        } else {
            return Err(Fault::PaxModeTooLarge);
        },
        None => header.mode(),
    };
    let uid: u64 = match pax_u64_checked(pax, "uid")? {
        Some(uid) => uid,
        None => header.uid(),
    };
    let gid: u64 = match pax_u64_checked(pax, "gid")? {
        Some(gid) => gid,
        None => header.gid(),
    };
    let mtime: i64 = match pax_text_checked(pax, "mtime")? {
        Some(value) => {
            let bytes = value.as_bytes();
            let point: usize = find_from(bytes, 0, 46);
            match parse_signed_decimal(slice_subrange(bytes, 0, point)) {
                Some(mtime) => mtime,
                None => {
                    return Err(Fault::PaxMtimeInvalid);
                },
            }
        },
        None => header.mtime(),
    };
    if let Some(path) = pax_value(pax, "path") {
        header.set_path(slice_to_vec(path));
    }
    if let Some(link) = pax_value(pax, "linkpath") {
        header.set_link_name(slice_to_vec(link));
    }
    header.set_size(size);
    header.set_mode(mode);
    header.set_uid(uid);
    header.set_gid(gid);
    header.set_mtime(mtime);
    Ok(())
}

/// Whether a record of the GNU sparse metadata is there.
pub(crate) fn has_sparse_record(pax: &[PaxRecord]) -> (yes: bool)
    ensures
        yes == has_sparse(records(pax@)),
{
    let ghost all = records(pax@);
    let mut i: usize = 0;
    while i < pax.len()
        invariant
            i <= pax@.len(),
            all == records(pax@),
            forall|j: int| 0 <= j < i ==> !is_sparse_key((#[trigger] all[j]).key),
        decreases pax@.len() - i,
    {
        if begins_with(pax[i].key.as_slice(), "GNU.sparse.".as_bytes()) {
            assert(is_sparse_key(all[i as int].key));
            return true;
        }
        i = i + 1;
    }
    false
}

/// Whether a record with the key is there.
fn contains_key(list: &[PaxRecord], key: &[u8]) -> (yes: bool)
    ensures
        yes == has_key(records(list@), key@),
{
    let ghost all = records(list@);
    let mut i: usize = 0;
    while i < list.len()
        invariant
            i <= list@.len(),
            all == records(list@),
            forall|j: int| 0 <= j < i ==> (#[trigger] all[j]).key != key@,
        decreases list@.len() - i,
    {
        if same_bytes(list[i].key.as_slice(), key) {
            assert(all[i as int].key == key@);
            return true;
        }
        i = i + 1;
    }
    false
}

/// A copy of a record.
fn copy_record(record: &PaxRecord) -> (copy: PaxRecord)
    ensures
        copy@ == record@,
{
    PaxRecord {
        key: slice_to_vec(record.key.as_slice()),
        value: slice_to_vec(record.value.as_slice()),
    }
}

/// The global records of an archive, by key and in the order of their keys.
#[derive(Debug)]
pub struct GlobalPax {
    list: Vec<PaxRecord>,
}

impl View for GlobalPax {
    type V = Seq<Record>;

    closed spec fn view(&self) -> Seq<Record> {
        records(self.list@)
    }
}

impl GlobalPax {
    /// No key is there twice, the keys are in order, and every key is UTF-8.
    pub open spec fn well_formed(&self) -> bool {
        in_key_order(self@) && keys_valid(self@)
    }

    /// No records.
    pub fn new() -> (global: Self)
        ensures
            global@ == Seq::<Record>::empty(),
            global.well_formed(),
    {
        let global = GlobalPax { list: Vec::new() };
        assert(global@ =~= Seq::<Record>::empty());
        global
    }

    /// Takes one more record in.
    pub fn store(&mut self, record: PaxRecord)
        requires
            old(self).well_formed(),
            valid_utf8(record@.key),
            record@.key.len() > 0,
        ensures
            final(self)@ == stored(old(self)@, record@),
            final(self).well_formed(),
    {
        let ghost all = self@;
        let mut at: usize = 0;
        while at < self.list.len() && comes_before(
            self.list[at].key.as_slice(),
            record.key.as_slice(),
        )
            invariant
                at <= self.list@.len(),
                all == self@,
                self@ == records(self.list@),
                rank(all, 0, record@.key) == rank(all, at as int, record@.key),
            decreases self.list@.len() - at,
        {
            at = at + 1;
        }
        let there: bool = at < self.list.len() && same_bytes(
            self.list[at].key.as_slice(),
            record.key.as_slice(),
        );
        proof {
            lemma_stored_in_order(all, record@);
        }
        if record.value.len() == 0 {
            if there {
                self.list.remove(at);
                assert(self@ =~= all.remove(at as int));
            }
        } else if there {
            self.list.remove(at);
            self.list.insert(at, record);
            assert(self@ =~= all.update(at as int, record@));
        } else {
            self.list.insert(at, record);
            assert(self@ =~= all.insert(at as int, record@));
        }
    }

    /// Takes the records of a payload in, one after the other.
    pub fn store_all(&mut self, more: Vec<PaxRecord>)
        requires
            old(self).well_formed(),
            keys_valid(records(more@)),
        ensures
            final(self)@ == stored_all(old(self)@, records(more@)),
            final(self).well_formed(),
    {
        let ghost all = records(more@);
        let mut i: usize = 0;
        assert(all.take(0) =~= Seq::<Record>::empty());
        while i < more.len()
            invariant
                i <= more@.len(),
                all == records(more@),
                keys_valid(all),
                self.well_formed(),
                self@ == stored_all(old(self)@, all.take(i as int)),
            decreases more@.len() - i,
        {
            assert(all.take(i + 1).drop_last() =~= all.take(i as int));
            assert(all[i as int] == more@[i as int]@);
            self.store(copy_record(&more[i]));
            i = i + 1;
        }
        assert(all.take(all.len() as int) =~= all);
    }

    /// The records in force for a member, given its local ones.
    pub fn effective(&self, local: Option<Vec<PaxRecord>>) -> (list: Vec<PaxRecord>)
        requires
            self.well_formed(),
            local matches Some(more) ==> keys_valid(records(more@)),
        ensures
            records(list@) == effective(
                self@,
                match local {
                    Some(more) => Some(records(more@)),
                    None => None,
                },
            ),
            keys_valid(records(list@)),
    {
        let mut list: Vec<PaxRecord> = Vec::new();
        let ghost all = self@;
        assert(records(list@) =~= Seq::<Record>::empty());
        match local {
            None => {
                let mut i: usize = 0;
                while i < self.list.len()
                    invariant
                        i <= self.list@.len(),
                        all == records(self.list@),
                        keys_valid(all),
                        records(list@) =~= all.take(i as int),
                    decreases self.list@.len() - i,
                {
                    let ghost before = records(list@);
                    list.push(copy_record(&self.list[i]));
                    assert(records(list@) =~= before.push(all[i as int]));
                    i = i + 1;
                }
                assert(all.take(all.len() as int) =~= all);
            },
            Some(more) => {
                let ghost own = records(more@);
                let mut i: usize = 0;
                assert(all.take(0) =~= Seq::<Record>::empty());
                while i < self.list.len()
                    invariant
                        i <= self.list@.len(),
                        all == records(self.list@),
                        own == records(more@),
                        keys_valid(all),
                        keys_valid(records(list@)),
                        records(list@) == not_hidden(all.take(i as int), own),
                    decreases self.list@.len() - i,
                {
                    let ghost before = records(list@);
                    assert(all.take(i + 1).drop_last() =~= all.take(i as int));
                    assert(all.take(i + 1).last() == all[i as int]);
                    if !contains_key(more.as_slice(), self.list[i].key.as_slice()) {
                        list.push(copy_record(&self.list[i]));
                        assert(records(list@) =~= before.push(all[i as int]));
                    }
                    i = i + 1;
                }
                assert(all.take(all.len() as int) =~= all);
                let ghost kept = records(list@);
                let mut j: usize = 0;
                assert(own.take(0) =~= Seq::<Record>::empty());
                assert(kept + Seq::<Record>::empty() =~= kept);
                while j < more.len()
                    invariant
                        j <= more@.len(),
                        own == records(more@),
                        keys_valid(own),
                        keys_valid(records(list@)),
                        records(list@) == kept + not_empty(own.take(j as int)),
                    decreases more@.len() - j,
                {
                    let ghost before = records(list@);
                    assert(own.take(j + 1).drop_last() =~= own.take(j as int));
                    assert(own.take(j + 1).last() == own[j as int]);
                    if more[j].value.len() > 0 {
                        list.push(copy_record(&more[j]));
                        assert(records(list@) =~= before.push(own[j as int]));
                        assert(records(list@) =~= kept + not_empty(own.take(j + 1)));
                    }
                    j = j + 1;
                }
                assert(own.take(own.len() as int) =~= own);
            },
        }
        list
    }
}

/// A rank lies within the list; what stands before it comes before the key,
/// and what stands at it does not.
proof fn lemma_rank(list: Seq<Record>, from: int, key: Seq<u8>)
    requires
        0 <= from <= list.len(),
    ensures
        from <= rank(list, from, key) <= list.len(),
        forall|i: int|
            from <= i < rank(list, from, key) ==> bytes_less((#[trigger] list[i]).key, key),
        rank(list, from, key) < list.len() ==> !bytes_less(list[rank(list, from, key)].key, key),
    decreases list.len() - from,
{
    if from < list.len() && bytes_less(list[from].key, key) {
        lemma_rank(list, from + 1, key);
    }
}

/// Taking a record in keeps the keys in order and valid.
proof fn lemma_stored_in_order(list: Seq<Record>, record: Record)
    requires
        in_key_order(list),
        keys_valid(list),
        valid_utf8(record.key),
        record.key.len() > 0,
    ensures
        in_key_order(stored(list, record)),
        keys_valid(stored(list, record)),
{
    let at = rank(list, 0, record.key);
    lemma_rank(list, 0, record.key);
    lemma_order_kept(list, record);
    let after = stored(list, record);
    let there = at < list.len() && list[at].key == record.key;
    assert forall|i: int| 0 <= i < after.len() implies valid_utf8((#[trigger] after[i]).key)
        && after[i].key.len() > 0 by {
        let a = if record.value.len() == 0 {
            if there && i >= at { i + 1 } else { i }
        } else if there || i < at {
            i
        } else {
            i - 1
        };
        if record.value.len() == 0 || i != at {
            assert(after[i] == list[a]);
        }
    }
}

/// In a list in key order, the value of a key is that of the one record that
/// has it.
proof fn lemma_value_in_order(list: Seq<Record>, key: Seq<u8>)
    requires
        in_key_order(list),
    ensures
        forall|i: int|
            0 <= i < list.len() && (#[trigger] list[i]).key == key ==> last_value(list, key)
                == Some(list[i].value),
        !has_key(list, key) ==> last_value(list, key) is None,
    decreases list.len(),
{
    if list.len() > 0 {
        let rest = list.drop_last();
        assert(in_key_order(rest)) by {
            assert forall|i: int, j: int| 0 <= i < j < rest.len() implies bytes_less(
                (#[trigger] rest[i]).key,
                (#[trigger] rest[j]).key,
            ) by {
                assert(rest[i] == list[i] && rest[j] == list[j]);
            }
        }
        lemma_value_in_order(rest, key);
        assert forall|i: int| 0 <= i < list.len() && (#[trigger] list[i]).key == key implies
            last_value(list, key) == Some(list[i].value) by {
            if i < list.len() - 1 {
                assert(rest[i] == list[i]);
                assert(bytes_less(list[i].key, list[list.len() - 1].key));
                lemma_bytes_less_strict(list[i].key, list.last().key);
            }
        }
        if !has_key(list, key) {
            assert(list[list.len() - 1].key != key);
            assert(!has_key(rest, key)) by {
                if has_key(rest, key) {
                    let i = choose|i: int| 0 <= i < rest.len() && (#[trigger] rest[i]).key == key;
                    assert(list[i].key == key);
                }
            }
        }
    }
}

/// Global records act as a map: a record with a value sets its key to it, one
/// without removes its key, and no other key is touched.
pub proof fn law_global_records_act_as_a_map(list: Seq<Record>, record: Record, key: Seq<u8>)
    requires
        in_key_order(list),
    ensures
        last_value(stored(list, record), key) == (if key != record.key {
            last_value(list, key)
        } else if record.value.len() == 0 {
            None
        } else {
            Some(record.value)
        }),
        in_key_order(stored(list, record)),
{
    let at = rank(list, 0, record.key);
    lemma_rank(list, 0, record.key);
    let there = at < list.len() && list[at].key == record.key;
    let after = stored(list, record);
    lemma_order_kept(list, record);
    lemma_value_in_order(list, key);
    lemma_value_in_order(after, key);
    if key == record.key {
        if record.value.len() > 0 {
            assert(after[at].key == key);
        } else {
            assert(!has_key(after, key)) by {
                if has_key(after, key) {
                    let i = choose|i: int| 0 <= i < after.len() && (#[trigger] after[i]).key == key;
                    let a = if there && i >= at { i + 1 } else { i };
                    assert(after[i] == list[a]);
                    if there {
                        if a < at {
                            assert(bytes_less(list[a].key, list[at].key));
                            lemma_bytes_less_strict(list[a].key, list[at].key);
                        } else {
                            assert(bytes_less(list[at].key, list[a].key));
                            lemma_bytes_less_strict(list[at].key, list[a].key);
                        }
                    } else if a < at {
                        assert(bytes_less(list[a].key, key));
                        lemma_bytes_less_strict(list[a].key, key);
                    } else {
                        lemma_bytes_less_total(list[at].key, key);
                        if a > at {
                            assert(bytes_less(list[at].key, list[a].key));
                            lemma_bytes_less_strict(list[at].key, list[a].key);
                        }
                    }
                }
            }
        }
    } else if has_key(list, key) {
        let i = choose|i: int| 0 <= i < list.len() && (#[trigger] list[i]).key == key;
        let b = if record.value.len() == 0 {
            if there && i > at { i - 1 } else { i }
        } else if there || i < at {
            i
        } else {
            i + 1
        };
        assert(after[b] == list[i]);
    } else {
        assert(!has_key(after, key)) by {
            if has_key(after, key) {
                let i = choose|i: int| 0 <= i < after.len() && (#[trigger] after[i]).key == key;
                let a = if record.value.len() == 0 {
                    if there && i >= at { i + 1 } else { i }
                } else if there || i < at {
                    i
                } else {
                    i - 1
                };
                if record.value.len() == 0 || i != at {
                    assert(after[i] == list[a]);
                }
            }
        }
    }
}

/// Taking a record in keeps the keys in order.
proof fn lemma_order_kept(list: Seq<Record>, record: Record)
    requires
        in_key_order(list),
    ensures
        in_key_order(stored(list, record)),
{
    let at = rank(list, 0, record.key);
    lemma_rank(list, 0, record.key);
    let after = stored(list, record);
    let there = at < list.len() && list[at].key == record.key;
    assert forall|i: int, j: int| 0 <= i < j < after.len() implies bytes_less(
        (#[trigger] after[i]).key,
        (#[trigger] after[j]).key,
    ) by {
        if record.value.len() > 0 && !there {
            if j == at {
                assert(after[i] == list[i]);
            } else if i == at {
                assert(after[j] == list[j - 1]);
                lemma_bytes_less_total(list[at].key, record.key);
                if at < j - 1 {
                    assert(bytes_less(list[at].key, list[j - 1].key));
                    lemma_bytes_less_transitive(
                        record.key,
                        list[at].key,
                        list[j - 1].key,
                    );
                }
            } else {
                let a = if i < at { i } else { i - 1 };
                let b = if j < at { j } else { j - 1 };
                assert(after[i] == list[a]);
                assert(after[j] == list[b]);
            }
        } else if record.value.len() == 0 && there {
            let a = if i < at { i } else { i + 1 };
            let b = if j < at { j } else { j + 1 };
            assert(after[i] == list[a]);
            assert(after[j] == list[b]);
        } else {
            assert(list[i].key == after[i].key);
            assert(list[j].key == after[j].key);
        }
    }
}

/// Bytes without the zero bytes and newlines at their end.
pub open spec fn trimmed(data: Seq<u8>) -> Seq<u8>
    decreases data.len(),
{
    if data.len() > 0 && (data.last() == 0 || data.last() == 10) {
        trimmed(data.drop_last())
    } else {
        data
    }
}

/// Removes the zero bytes and newlines at the end of a long name.
pub fn trim_metadata(data: Vec<u8>) -> (out: Vec<u8>)
    ensures
        out@ == trimmed(data@),
{
    let mut end: usize = data.len();
    assert(data@.take(end as int) =~= data@);
    while end > 0 && (data[end - 1] == 0 || data[end - 1] == 10)
        invariant
            end <= data@.len(),
            trimmed(data@) == trimmed(data@.take(end as int)),
        decreases end,
    {
        assert(data@.take(end as int).drop_last() =~= data@.take(end - 1));
        end = end - 1;
    }
    let mut out: Vec<u8> = data;
    out.truncate(end);
    assert(out@ =~= data@.take(end as int));
    out
}

} // verus!
