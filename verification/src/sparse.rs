//! Sparse maps: which parts of a file are stored, and where its holes are.

use vstd::prelude::*;
use vstd::slice::slice_subrange;

use crate::bytes::{find_from, first_at, same_bytes, text};
use crate::error::Fault;
use crate::number::{decimal, number, parse_decimal, parse_number};
use crate::pax::{records, PaxRecord, Record};

verus! {

/// How many segments a sparse map may have.
pub const MAX_SPARSE_SEGMENTS: usize = 1_000_000;

/// One contiguous data region in a sparse file. Gaps are logical holes.
#[derive(Clone, Copy, Debug, PartialEq, Eq, Structural)]
pub struct SparseSegment {
    /// Logical byte offset at which data begins.
    pub offset: u64,
    /// Number of data bytes stored at this offset.
    pub len: u64,
}

impl SparseSegment {
    /// Where the segment ends.
    pub open spec fn end(self) -> int {
        self.offset + self.len
    }
}

/// How many bytes the segments of a map store together.
pub open spec fn stored_len(map: Seq<SparseSegment>) -> int
    decreases map.len(),
{
    if map.len() == 0 {
        0
    } else {
        stored_len(map.drop_last()) + map.last().len
    }
}

/// The first segment from number `from` on that ends after a place in the
/// contents, or the number of segments.
pub open spec fn first_open(map: Seq<SparseSegment>, from: int, pos: int) -> int
    decreases map.len() - from,
{
    if from >= map.len() {
        map.len() as int
    } else if map[from].end() > pos {
        from
    } else {
        first_open(map, from + 1, pos)
    }
}

/// Segments that end before a place can be passed over.
pub proof fn lemma_first_open(map: Seq<SparseSegment>, from: int, k: int, pos: int)
    requires
        0 <= from <= k <= map.len(),
        forall|i: int| from <= i < k ==> (#[trigger] map[i]).end() <= pos,
    ensures
        first_open(map, from, pos) == first_open(map, k, pos),
    decreases k - from,
{
    if from < k {
        assert(map[from].end() <= pos);
        lemma_first_open(map, from + 1, k, pos);
    }
}

/// What the first segment is that ends after a place.
pub proof fn lemma_first_open_is(map: Seq<SparseSegment>, from: int, pos: int)
    requires
        0 <= from <= map.len(),
    ensures
        from <= first_open(map, from, pos) <= map.len(),
        forall|i: int|
            from <= i < first_open(map, from, pos) ==> (#[trigger] map[i]).end() <= pos,
        first_open(map, from, pos) < map.len() ==> map[first_open(map, from, pos)].end() > pos,
    decreases map.len() - from,
{
    if from < map.len() && map[from].end() <= pos {
        lemma_first_open_is(map, from + 1, pos);
    }
}

/// How many stored bytes belong before a place in the contents.
pub open spec fn stored_before(map: Seq<SparseSegment>, pos: int) -> int
    decreases map.len(),
{
    if map.len() == 0 {
        0
    } else {
        let last = map.last();
        stored_before(map.drop_last(), pos) + if pos <= last.offset {
            0
        } else if pos >= last.end() {
            last.len as int
        } else {
            pos - last.offset
        }
    }
}


/// Whether the segments of a map follow each other without overlap and end
/// within the logical size.
pub open spec fn fits(map: Seq<SparseSegment>, logical: int) -> bool {
    &&& forall|i: int| 0 <= i < map.len() ==> (#[trigger] map[i]).end() <= logical
    &&& forall|i: int, j: int|
        0 <= i < j < map.len() ==> (#[trigger] map[i]).end() <= (#[trigger] map[j]).offset
}

/// Whether segment `k` of a map covers the logical position `at`.
pub open spec fn covers(map: Seq<SparseSegment>, k: int, at: int) -> bool {
    0 <= k < map.len() && map[k].offset <= at < map[k].end()
}

/// The byte at a logical position of a sparse file: the stored byte of the
/// segment that covers it, or zero in a hole.
pub open spec fn sparse_byte(map: Seq<SparseSegment>, data: Seq<u8>, at: int) -> u8 {
    if exists|k: int| covers(map, k, at) {
        let k = choose|k: int| covers(map, k, at);
        data[stored_len(map.take(k)) + (at - map[k].offset)]
    } else {
        0
    }
}

/// The logical contents of a sparse file, given its stored bytes.
pub open spec fn expanded(map: Seq<SparseSegment>, logical: nat, data: Seq<u8>) -> Seq<u8> {
    Seq::new(logical, |i: int| sparse_byte(map, data, i))
}

/// The stored bytes of a segment stand at its offset in the logical contents,
/// and what no segment covers is zero.
pub proof fn law_expansion_places_segments(
    map: Seq<SparseSegment>,
    logical: nat,
    data: Seq<u8>,
    k: int,
    at: int,
)
    requires
        fits(map, logical as int),
        0 <= at < logical,
    ensures
        covers(map, k, at) ==> expanded(map, logical, data)[at] == data[stored_len(map.take(k)) + (
        at - map[k].offset)],
        (forall|j: int| !covers(map, j, at)) ==> expanded(map, logical, data)[at] == 0,
{
    if covers(map, k, at) {
        let j = choose|j: int| covers(map, j, at);
        if j < k {
            assert(map[j].end() <= map[k].offset);
        } else if k < j {
            assert(map[k].end() <= map[j].offset);
        }
    }
}

/// A map stores no more up to a segment than up to a later one.
pub proof fn lemma_stored_len_grows(map: Seq<SparseSegment>, low: int, high: int)
    requires
        0 <= low <= high <= map.len(),
    ensures
        0 <= stored_len(map.take(low)) <= stored_len(map.take(high)),
        low < high ==> stored_len(map.take(low)) + map[low].len <= stored_len(map.take(high)),
    decreases high,
{
    if high > 0 {
        assert(map.take(high).drop_last() =~= map.take(high - 1));
        if low < high {
            lemma_stored_len_grows(map, low, high - 1);
        } else {
            lemma_stored_len_grows(map, low - 1, high - 1);
        }
    }
}

/// A map that fits stores no more than its logical size.
pub proof fn lemma_stored_len_fits(map: Seq<SparseSegment>, logical: int)
    requires
        fits(map, logical),
        logical >= 0,
    ensures
        0 <= stored_len(map) <= logical,
        map.len() > 0 ==> stored_len(map) <= map.last().end(),
    decreases map.len(),
{
    if map.len() > 0 {
        let rest = map.drop_last();
        let last = map[map.len() - 1];
        assert(fits(rest, logical)) by {
            assert forall|i: int| 0 <= i < rest.len() implies (#[trigger] rest[i]).end()
                <= logical by {
                assert(map[i].end() <= logical);
            }
            assert forall|i: int, j: int| 0 <= i < j < rest.len() implies (#[trigger] rest[i]).end()
                <= (#[trigger] rest[j]).offset by {
                assert(map[i].end() <= map[j].offset);
            }
        }
        lemma_stored_len_fits(rest, logical);
        assert(last.end() <= logical);
        if rest.len() > 0 {
            assert(map[map.len() - 2].end() <= map[map.len() - 1].offset);
        }
    }
}

/// Nothing is stored before the start of the contents.
pub proof fn lemma_nothing_before_start(map: Seq<SparseSegment>)
    ensures
        stored_before(map, 0) == 0,
    decreases map.len(),
{
    if map.len() > 0 {
        lemma_nothing_before_start(map.drop_last());
    }
}

/// Before a place with `k` segments before it and the others after it, all of
/// the first `k` segments are stored and nothing of the others.
pub proof fn lemma_stored_before(map: Seq<SparseSegment>, logical: int, k: int, pos: int)
    requires
        fits(map, logical),
        0 <= k <= map.len(),
        forall|i: int| 0 <= i < k ==> (#[trigger] map[i]).end() <= pos,
        k < map.len() ==> pos <= map[k].end(),
    ensures
        stored_before(map, pos) == stored_len(map.take(k)) + if k < map.len() && pos
            > map[k].offset {
            pos - map[k].offset
        } else {
            0
        },
    decreases map.len(),
{
    if map.len() > 0 {
        let front = map.drop_last();
        assert(fits(front, logical)) by {
            assert forall|i: int, j: int| 0 <= i < j < front.len() implies (
            #[trigger] front[i]).end() <= (#[trigger] front[j]).offset by {
                assert(map[i].end() <= map[j].offset);
            }
            assert forall|i: int| 0 <= i < front.len() implies (#[trigger] front[i]).end()
                <= logical by {
                assert(map[i].end() <= logical);
            }
        }
        assert forall|i: int| 0 <= i < k && i < front.len() implies (#[trigger] front[i]).end()
            <= pos by {
            assert(map[i].end() <= pos);
        }
        if k < map.len() {
            lemma_stored_before(front, logical, k, pos);
            assert(front.take(k) =~= map.take(k));
            if k < front.len() {
                assert(map[k].end() <= map[map.len() - 1].offset);
            }
        } else {
            lemma_stored_before(front, logical, k - 1, pos);
            assert(front.take(k - 1) =~= front);
            assert(map.take(k) =~= map);
        }
    }
}


/// The bytes that the segments from `from` on store together with `total`, or
/// the first fault: segments have to end within 64 bits, to start where the one
/// before ended or later, to end within the logical size, and to sum up within
/// 64 bits.
pub open spec fn checked_from(
    map: Seq<SparseSegment>,
    from: int,
    previous_end: int,
    total: int,
    logical: int,
) -> Result<int, Fault>
    decreases map.len() - from,
{
    if from >= map.len() {
        Ok(total)
    } else if map[from].end() > u64::MAX {
        Err(Fault::SegmentOverflow)
    } else if map[from].offset < previous_end || map[from].end() > logical {
        Err(Fault::SegmentsOverlap)
    } else if total + map[from].len > u64::MAX {
        Err(Fault::PackedSizeOverflow)
    } else {
        checked_from(map, from + 1, map[from].end(), total + map[from].len, logical)
    }
}

/// What `validate_sparse` says of a map: it has to be small enough, in order,
/// and to store exactly, or at most, the packed size.
pub open spec fn sparse_check(
    map: Seq<SparseSegment>,
    logical: int,
    packed: int,
    exact: bool,
) -> Result<(), Fault> {
    if map.len() > MAX_SPARSE_SEGMENTS {
        Err(Fault::TooManySegments)
    } else {
        match checked_from(map, 0, 0, 0, logical) {
            Err(fault) => Err(fault),
            Ok(total) => if (exact && total != packed) || (!exact && total > packed) {
                Err(Fault::PackedSizeMismatch)
            } else {
                Ok(())
            },
        }
    }
}

/// A checked rest of a map is in order, within the logical size, and stores
/// what was counted.
proof fn lemma_checked_from(
    map: Seq<SparseSegment>,
    from: int,
    previous_end: int,
    total: int,
    logical: int,
)
    requires
        0 <= from <= map.len(),
        0 <= logical <= u64::MAX,
        total == stored_len(map.take(from)),
        total <= previous_end <= logical,
        forall|i: int| 0 <= i < from ==> (#[trigger] map[i]).end() <= previous_end,
        forall|i: int, j: int|
            0 <= i < j < from ==> (#[trigger] map[i]).end() <= (#[trigger] map[j]).offset,
    ensures
        checked_from(map, from, previous_end, total, logical) is Ok ==> fits(map, logical),
        checked_from(map, from, previous_end, total, logical) matches Ok(sum) ==> sum == stored_len(
            map,
        ),
        fits(map, logical) && (from < map.len() ==> map[from].offset >= previous_end)
            ==> checked_from(map, from, previous_end, total, logical) is Ok,
    decreases map.len() - from,
{
    if from == map.len() {
        assert(map.take(from) =~= map);
    } else {
        assert(map.take(from + 1).drop_last() =~= map.take(from));
        let segment = map[from];
        if segment.end() <= logical && segment.offset >= previous_end {
            lemma_checked_from(map, from + 1, segment.end(), total + segment.len, logical);
            if fits(map, logical) && from + 1 < map.len() {
                assert(map[from].end() <= map[from + 1].offset);
            }
        } else if fits(map, logical) {
            assert(map[from].end() <= logical);
        }
    }
}

/// A sparse map is accepted exactly if it has at most the allowed number of
/// segments, these follow each other within the logical size, and they store
/// the packed size.
pub proof fn law_accepted_maps_are_in_order(map: Seq<SparseSegment>, logical: u64, packed: u64)
    ensures
        sparse_check(map, logical as int, packed as int, true) is Ok <==> (map.len()
            <= MAX_SPARSE_SEGMENTS && fits(map, logical as int) && stored_len(map) == packed),
        sparse_check(map, logical as int, packed as int, false) is Ok <==> (map.len()
            <= MAX_SPARSE_SEGMENTS && fits(map, logical as int) && stored_len(map) <= packed),
{
    assert(map.take(0) =~= Seq::<SparseSegment>::empty());
    lemma_checked_from(map, 0, 0, 0, logical as int);
}

/// Checks a sparse map against the logical size and the number of bytes that
/// are stored.
pub fn validate_sparse(
    map: &[SparseSegment],
    logical: u64,
    packed: u64,
    exact: bool,
) -> (verdict: Result<(), Fault>)
    ensures
        verdict == sparse_check(map@, logical as int, packed as int, exact),
{
    if map.len() > MAX_SPARSE_SEGMENTS {
        return Err(Fault::TooManySegments);
    }
    let mut previous_end: u64 = 0;
    let mut total: u64 = 0;
    let mut i: usize = 0;
    while i < map.len()
        invariant
            i <= map@.len() <= MAX_SPARSE_SEGMENTS,
            checked_from(map@, 0, 0, 0, logical as int) == checked_from(
                map@,
                i as int,
                previous_end as int,
                total as int,
                logical as int,
            ),
        decreases map@.len() - i,
    {
        let segment = map[i];
        let end: u64 = match segment.offset.checked_add(segment.len) {
            Some(end) => end,
            None => {
                return Err(Fault::SegmentOverflow);
            },
        };
        if segment.offset < previous_end || end > logical {
            return Err(Fault::SegmentsOverlap);
        }
        total = match total.checked_add(segment.len) {
            Some(sum) => sum,
            None => {
                return Err(Fault::PackedSizeOverflow);
            },
        };
        previous_end = end;
        i = i + 1;
    }
    if (exact && total != packed) || (!exact && total > packed) {
        return Err(Fault::PackedSizeMismatch);
    }
    Ok(())
}

/// The comma-separated numbers of a text from `from` on.
pub open spec fn comma_values(s: Seq<u8>, from: int) -> Result<Seq<u64>, Fault>
    decreases s.len() - from,
{
    let comma = first_at(s, from, 44);
    match decimal(s.subrange(from, comma)) {
        Err(fault) => Err(fault),
        Ok(value) => if comma >= s.len() || comma < from {
            Ok(seq![value])
        } else {
            match comma_values(s, comma + 1) {
                Err(fault) => Err(fault),
                Ok(rest) => Ok(seq![value] + rest),
            }
        },
    }
}

/// Numbers taken two by two as the offset and the length of a segment.
pub open spec fn paired(values: Seq<u64>) -> Seq<SparseSegment> {
    Seq::new(
        values.len() / 2,
        |i: int| SparseSegment { offset: values[2 * i], len: values[2 * i + 1] },
    )
}

/// The map of sparse format 0.1: offsets and lengths in one comma-separated
/// list.
pub open spec fn comma_map(s: Seq<u8>) -> Result<Seq<SparseSegment>, Fault> {
    match comma_values(s, 0) {
        Err(fault) => Err(fault),
        Ok(values) => if values.len() % 2 != 0 {
            Err(Fault::SparseMapOdd)
        } else if values.len() / 2 > MAX_SPARSE_SEGMENTS {
            Err(Fault::TooManySegments)
        } else {
            Ok(paired(values))
        },
    }
}

/// Reads the map of sparse format 0.1.
pub fn parse_sparse_csv(value: &str) -> (map: Result<Vec<SparseSegment>, Fault>)
    ensures
        map matches Ok(found) ==> comma_map(text(value@)) == Ok::<Seq<SparseSegment>, Fault>(
            found@,
        ),
        map matches Err(fault) ==> comma_map(text(value@)) == Err::<Seq<SparseSegment>, Fault>(
            fault,
        ),
{
    let s = value.as_bytes();
    let mut values: Vec<u64> = Vec::new();
    let mut from: usize = 0;
    let mut more: bool = true;
    while more
        invariant
            from <= s@.len(),
            s@ == text(value@),
            more ==> (comma_values(s@, from as int) matches Ok(rest) ==> comma_values(s@, 0)
                == Ok::<Seq<u64>, Fault>(values@ + rest)),
            more ==> (comma_values(s@, from as int) matches Err(fault) ==> comma_values(s@, 0)
                == Err::<Seq<u64>, Fault>(fault)),
            !more ==> comma_values(s@, 0) == Ok::<Seq<u64>, Fault>(values@),
        decreases s@.len() - from + (if more { 1int } else { 0int }),
    {
        let ghost before = values@;
        let comma: usize = find_from(s, from, 44);
        let number: u64 = parse_decimal(slice_subrange(s, from, comma))?;
        values.push(number);
        assert(values@ =~= before + seq![number]);
        if comma >= s.len() {
            more = false;
        } else {
            assert(comma_values(s@, comma + 1) matches Ok(rest) ==> before + (seq![number] + rest)
                =~= values@ + rest);
            from = comma + 1;
        }
    }
    if values.len() % 2 != 0 {
        return Err(Fault::SparseMapOdd);
    }
    if values.len() / 2 > MAX_SPARSE_SEGMENTS {
        return Err(Fault::TooManySegments);
    }
    let mut map: Vec<SparseSegment> = Vec::new();
    let mut i: usize = 0;
    let pairs: usize = values.len() / 2;
    while i < pairs
        invariant
            i <= pairs == values@.len() / 2,
            pairs <= MAX_SPARSE_SEGMENTS,
            map@ =~= paired(values@).take(i as int),
        decreases pairs - i,
    {
        map.push(SparseSegment { offset: values[2 * i], len: values[2 * i + 1] });
        i = i + 1;
    }
    assert(map@ =~= paired(values@));
    Ok(map)
}

/// Whether a record belongs to the map of sparse format 0.0.
pub open spec fn is_pair_record(record: Record) -> bool {
    record.key == text("GNU.sparse.offset"@) || record.key == text("GNU.sparse.numbytes"@)
}

/// The records that belong to the map of sparse format 0.0.
pub open spec fn pair_records(list: Seq<Record>) -> Seq<Record>
    decreases list.len(),
{
    if list.len() == 0 {
        Seq::empty()
    } else {
        let rest = pair_records(list.drop_last());
        if is_pair_record(list.last()) {
            rest.push(list.last())
        } else {
            rest
        }
    }
}

/// The segments from number `from` on that alternating records write, of which
/// there have to be `count`.
pub open spec fn pair_segments(pairs: Seq<Record>, from: int, count: int) -> Result<
    Seq<SparseSegment>,
    Fault,
>
    decreases count - from,
{
    if from >= count {
        if pairs.len() > 2 * count {
            Err(Fault::SparsePairsExcess)
        } else {
            Ok(Seq::empty())
        }
    } else if 2 * from + 1 >= pairs.len() || pairs[2 * from].key != text("GNU.sparse.offset"@)
        || pairs[2 * from + 1].key != text("GNU.sparse.numbytes"@) {
        Err(Fault::SparsePairsOutOfOrder)
    } else {
        match decimal(pairs[2 * from].value) {
            Err(fault) => Err(fault),
            Ok(offset) => match decimal(pairs[2 * from + 1].value) {
                Err(fault) => Err(fault),
                Ok(len) => match pair_segments(pairs, from + 1, count) {
                    Err(fault) => Err(fault),
                    Ok(rest) => Ok(seq![SparseSegment { offset, len }] + rest),
                },
            },
        }
    }
}

/// The map of sparse format 0.0: one record for each offset and each length.
pub open spec fn pair_map(list: Seq<Record>, count: u64) -> Result<Seq<SparseSegment>, Fault> {
    if count > usize::MAX {
        Err(Fault::SegmentCountTooLarge)
    } else if count > MAX_SPARSE_SEGMENTS {
        Err(Fault::TooManySegments)
    } else {
        pair_segments(pair_records(list), 0, count as int)
    }
}

/// The records at some places of a list.
pub open spec fn picked(list: Seq<Record>, places: Seq<usize>) -> Seq<Record> {
    Seq::new(places.len(), |i: int| list[places[i] as int])
}

/// Reads the map of sparse format 0.0.
pub fn parse_sparse_pairs(pax: &[PaxRecord], count: u64) -> (map: Result<
    Vec<SparseSegment>,
    Fault,
>)
    ensures
        map matches Ok(found) ==> pair_map(records(pax@), count) == Ok::<
            Seq<SparseSegment>,
            Fault,
        >(found@),
        map matches Err(fault) ==> pair_map(records(pax@), count) == Err::<
            Seq<SparseSegment>,
            Fault,
        >(fault),
{
    if count > usize::MAX as u64 {
        return Err(Fault::SegmentCountTooLarge);
    }
    if count > MAX_SPARSE_SEGMENTS as u64 {
        return Err(Fault::TooManySegments);
    }
    let wanted: usize = count as usize;
    let ghost all = records(pax@);
    let offset_key = "GNU.sparse.offset".as_bytes();
    let length_key = "GNU.sparse.numbytes".as_bytes();
    let mut places: Vec<usize> = Vec::new();
    let mut i: usize = 0;
    assert(all.take(0) =~= Seq::<Record>::empty());
    assert(picked(all, places@) =~= Seq::<Record>::empty());
    while i < pax.len()
        invariant
            i <= pax@.len(),
            all == records(pax@),
            offset_key@ == text("GNU.sparse.offset"@),
            length_key@ == text("GNU.sparse.numbytes"@),
            picked(all, places@) == pair_records(all.take(i as int)),
            forall|j: int| 0 <= j < places@.len() ==> (#[trigger] places@[j]) < pax@.len(),
        decreases pax@.len() - i,
    {
        let ghost before = picked(all, places@);
        assert(all.take(i + 1).drop_last() =~= all.take(i as int));
        assert(all.take(i + 1).last() == all[i as int]);
        if same_bytes(pax[i].key.as_slice(), offset_key) || same_bytes(
            pax[i].key.as_slice(),
            length_key,
        ) {
            places.push(i);
            assert(picked(all, places@) =~= before.push(all[i as int]));
        }
        i = i + 1;
    }
    assert(all.take(all.len() as int) =~= all);
    let ghost pairs = pair_records(all);
    let mut map: Vec<SparseSegment> = Vec::new();
    let mut k: usize = 0;
    while k < wanted
        invariant
            k <= wanted == count,
            count <= MAX_SPARSE_SEGMENTS,
            all == records(pax@),
            pairs == pair_records(all),
            picked(all, places@) == pairs,
            offset_key@ == text("GNU.sparse.offset"@),
            length_key@ == text("GNU.sparse.numbytes"@),
            forall|j: int| 0 <= j < places@.len() ==> (#[trigger] places@[j]) < pax@.len(),
            pair_segments(pairs, k as int, count as int) matches Ok(rest) ==> pair_segments(
                pairs,
                0,
                count as int,
            ) == Ok::<Seq<SparseSegment>, Fault>(map@ + rest),
            pair_segments(pairs, k as int, count as int) matches Err(fault) ==> pair_segments(
                pairs,
                0,
                count as int,
            ) == Err::<Seq<SparseSegment>, Fault>(fault),
        decreases wanted - k,
    {
        let ghost before = map@;
        if 2 * k + 1 >= places.len() {
            return Err(Fault::SparsePairsOutOfOrder);
        }
        let first = &pax[places[2 * k]];
        let second = &pax[places[2 * k + 1]];
        assert(pairs[2 * k] == first@);
        assert(pairs[2 * k + 1] == second@);
        if !same_bytes(first.key.as_slice(), offset_key) || !same_bytes(
            second.key.as_slice(),
            length_key,
        ) {
            return Err(Fault::SparsePairsOutOfOrder);
        }
        let offset: u64 = parse_decimal(first.value.as_slice())?;
        let len: u64 = parse_decimal(second.value.as_slice())?;
        let segment = SparseSegment { offset, len };
        map.push(segment);
        assert(pair_segments(pairs, k + 1, count as int) matches Ok(rest) ==> before + (
        seq![segment] + rest) =~= map@ + rest);
        k = k + 1;
    }
    if places.len() > 2 * wanted {
        return Err(Fault::SparsePairsExcess);
    }
    assert(map@ + Seq::<SparseSegment>::empty() =~= map@);
    Ok(map)
}

/// A segment of an old GNU map, unless its offset field starts with a zero
/// byte, which ends the map.
pub open spec fn field_segment(offset: Seq<u8>, len: Seq<u8>) -> Result<
    Option<SparseSegment>,
    Fault,
> {
    if offset.len() > 0 && offset[0] == 0 {
        Ok(None)
    } else {
        match number(offset) {
            Err(fault) => Err(fault),
            Ok(offset) => match number(len) {
                Err(fault) => Err(fault),
                Ok(len) => Ok(Some(SparseSegment { offset, len })),
            },
        }
    }
}

/// Reads a segment of an old GNU map and adds it. Returns whether there was one.
pub fn push_sparse_pair(map: &mut Vec<SparseSegment>, offset: &[u8], len: &[u8]) -> (added: Result<
    bool,
    Fault,
>)
    ensures
        match field_segment(offset@, len@) {
            Ok(Some(segment)) => added == Ok::<bool, Fault>(true) && final(map)@ == old(map)@.push(
                segment,
            ),
            Ok(None) => added == Ok::<bool, Fault>(false) && final(map)@ == old(map)@,
            Err(fault) => added == Err::<bool, Fault>(fault) && final(map)@ == old(map)@,
        },
{
    if offset.len() > 0 && offset[0] == 0 {
        return Ok(false);
    }
    let offset: u64 = parse_number(offset)?;
    let len: u64 = parse_number(len)?;
    map.push(SparseSegment { offset, len });
    Ok(true)
}

} // verus!
