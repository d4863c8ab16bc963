//! Sparse members as they are written in each of their formats, and that they
//! are found with exactly the segments that were written.

use vstd::prelude::*;
use vstd::utf8::{is_ascii_chars, is_ascii_chars_encode_utf8, valid_utf8};

use crate::bytes::{first_at, lemma_first_at, lemma_first_at_is, text};
use crate::error::Fault;
use crate::fields::{
    begins_member, has_gnu_sparse, lemma_has_gnu_sparse, lemma_records_apply, member_place,
};
use crate::header::{padding_of, HeaderView};
use crate::member::{
    block_step, extension_segments, field_segments, member_at, member_layout, next_member,
    pax_layout, sparse_front, sparse_line, sparse_lines, step_at, with_long_names, Member, Next,
    Parsed, ParserView, Step,
};
use crate::number::{decimal, is_digit, number, power};
use crate::numerals::{decimal_text, law_decimals_are_read, lemma_numeral, numeral};
use crate::pax::{effective, has_sparse, is_sparse_key, last_value, Record};
use crate::sparse::{
    checked_from, comma_map, comma_values, covers, fits, law_accepted_maps_are_in_order,
    law_expansion_places_segments, lemma_stored_len_grows, pair_map, pair_records, pair_segments,
    paired, sparse_check, stored_len, SparseSegment,
};

verus! {

/// How many bytes segments hold together.
pub open spec fn total(map: Seq<SparseSegment>) -> int
    decreases map.len(),
{
    if map.len() == 0 {
        0
    } else {
        map[0].len + total(map.drop_first())
    }
}

/// Whether segments can make up a file of a size of which so many bytes are
/// stored: there are not too many, none overlaps the next, and none reaches
/// beyond the size.
pub open spec fn is_map(map: Seq<SparseSegment>, size: u64, stored: int) -> bool {
    &&& map.len() <= 1_000_000
    &&& total(map) == stored
    &&& forall|i: int| 0 <= i < map.len() ==> (#[trigger] map[i]).offset + map[i].len <= size
    &&& forall|i: int, j: int|
        0 <= i < j < map.len() ==> (#[trigger] map[i]).offset + map[i].len <= (
        #[trigger] map[j]).offset
}

/// Sums from the front and from the back agree.
proof fn lemma_total(map: Seq<SparseSegment>)
    ensures
        stored_len(map) == total(map),
    decreases map.len(),
{
    if map.len() == 1 {
        assert(map.drop_last() =~= Seq::<SparseSegment>::empty());
        assert(map.drop_first() =~= Seq::<SparseSegment>::empty());
        assert(stored_len(map.drop_last()) == 0);
        assert(total(map.drop_first()) == 0);
    } else if map.len() > 1 {
        let inner = map.drop_first().drop_last();
        lemma_total(map.drop_first());
        lemma_total(map.drop_last());
        lemma_total(inner);
        assert(map.drop_last().drop_first() =~= inner);
        assert(map.drop_first().last() == map.last());
        assert(map.drop_last()[0] == map[0]);
        assert(stored_len(map.drop_first()) == stored_len(inner) + map.last().len);
        assert(total(map.drop_last()) == map[0].len + total(inner));
    }
}

/// Segments that can make up a file pass their check.
proof fn lemma_is_map(map: Seq<SparseSegment>, size: u64, stored: u64)
    requires
        is_map(map, size, stored as int),
    ensures
        sparse_check(map, size as int, stored as int, true) is Ok,
{
    lemma_total(map);
    assert(fits(map, size as int)) by {
        assert forall|i: int| 0 <= i < map.len() implies (#[trigger] map[i]).end() <= size by {
            assert(map[i].offset + map[i].len <= size);
        }
        assert forall|i: int, j: int| 0 <= i < j < map.len() implies (#[trigger] map[i]).end() <= (
        #[trigger] map[j]).offset by {
            assert(map[i].offset + map[i].len <= map[j].offset);
        }
    }
    law_accepted_maps_are_in_order(map, size, stored);
}

/// Segments with the sizes for which they pass their check can make up a file.
proof fn lemma_checked_is_map(map: Seq<SparseSegment>, size: u64, stored: u64)
    requires
        sparse_check(map, size as int, stored as int, true) is Ok,
    ensures
        is_map(map, size, stored as int),
{
    lemma_total(map);
    law_accepted_maps_are_in_order(map, size, stored);
    assert forall|i: int| 0 <= i < map.len() implies (#[trigger] map[i]).offset + map[i].len
        <= size by {
        assert(map[i].end() <= size);
    }
    assert forall|i: int, j: int| 0 <= i < j < map.len() implies (#[trigger] map[i]).offset
        + map[i].len <= (#[trigger] map[j]).offset by {
        assert(map[i].end() <= map[j].offset);
    }
}

/// Numbers in decimal with commas between them.
pub open spec fn comma_text(values: Seq<u64>) -> Seq<u8>
    decreases values.len(),
{
    if values.len() == 0 {
        Seq::empty()
    } else if values.len() == 1 {
        decimal_text(values[0] as nat)
    } else {
        decimal_text(values[0] as nat) + seq![44u8] + comma_text(values.drop_first())
    }
}

/// The offsets and lengths of segments, each length after its offset.
pub open spec fn flat(map: Seq<SparseSegment>) -> Seq<u64> {
    Seq::new(
        2 * map.len(),
        |i: int|
            if i % 2 == 0 {
                map[i / 2].offset
            } else {
                map[i / 2].len
            },
    )
}

/// Decimal digits hold no comma and no newline, and are read.
proof fn lemma_digits(n: u64)
    ensures
        decimal_text(n as nat).len() > 0,
        forall|i: int|
            0 <= i < decimal_text(n as nat).len() ==> is_digit(
                #[trigger] decimal_text(n as nat)[i],
            ),
        decimal(decimal_text(n as nat)) == Ok::<u64, Fault>(n),
{
    let s = decimal_text(n as nat);
    lemma_numeral(n as nat, 10);
    law_decimals_are_read(Seq::empty(), n as nat);
    assert(Seq::<u8>::empty() + s =~= s);
    assert forall|i: int| 0 <= i < s.len() implies is_digit(#[trigger] s[i]) by {}
}

/// A list of numbers is read from a place on.
proof fn lemma_comma_values(before: Seq<u8>, values: Seq<u64>)
    requires
        values.len() > 0,
    ensures
        comma_values(before + comma_text(values), before.len() as int) == Ok::<Seq<u64>, Fault>(
            values,
        ),
    decreases values.len(),
{
    let s = before + comma_text(values);
    let at = before.len() as int;
    let digits = decimal_text(values[0] as nat);
    let comma = at + digits.len();
    lemma_digits(values[0]);
    assert forall|i: int| at <= i < comma implies s[i] != 44 by {
        assert(s[i] == digits[i - at]);
        assert(is_digit(digits[i - at]));
    }
    assert(s.subrange(at, comma) =~= digits);
    if values.len() == 1 {
        lemma_first_at_is(s, at, 44, comma);
        assert(seq![values[0]] =~= values);
    } else {
        let rest = values.drop_first();
        assert(s[comma] == 44);
        lemma_first_at_is(s, at, 44, comma);
        lemma_comma_values(before + digits + seq![44u8], rest);
        assert(s =~= (before + digits + seq![44u8]) + comma_text(rest));
        assert(seq![values[0]] + rest =~= values);
    }
}

/// Segments that are written as one list of numbers with commas between them are
/// read as these segments.
pub proof fn law_comma_lists_are_read(map: Seq<SparseSegment>)
    requires
        0 < map.len() <= 1_000_000,
    ensures
        comma_map(comma_text(flat(map))) == Ok::<Seq<SparseSegment>, Fault>(map),
{
    let none = Seq::<u8>::empty();
    let values = flat(map);
    lemma_comma_values(none, values);
    assert(none + comma_text(values) =~= comma_text(values));
    assert(paired(values) =~= map) by {
        assert forall|i: int| 0 <= i < map.len() implies paired(values)[i] == map[i] by {
            assert((2 * i) / 2 == i && (2 * i + 1) / 2 == i);
            assert(values[2 * i] == map[i].offset);
            assert(values[2 * i + 1] == map[i].len);
        }
    }
}

/// ASCII is UTF-8.
proof fn lemma_ascii(s: Seq<u8>)
    requires
        forall|i: int| 0 <= i < s.len() ==> #[trigger] s[i] < 128,
    ensures
        valid_utf8(s),
{
    let chars = Seq::new(s.len(), |i: int| s[i] as char);
    assert(is_ascii_chars(chars)) by {
        assert forall|i: int| 0 <= i < chars.len() implies '\0' <= #[trigger] chars[i]
            <= '\u{7f}' by {
            assert(s[i] < 128);
        }
    }
    is_ascii_chars_encode_utf8(chars);
    assert(text(chars) =~= s) by {
        assert forall|i: int| 0 <= i < s.len() implies text(chars)[i] == s[i] by {
            assert(chars[i] as u8 == s[i]);
        }
    }
    vstd::utf8::encode_utf8_valid_utf8(chars);
}

/// A list of numbers is ASCII.
proof fn lemma_comma_text_is_ascii(values: Seq<u64>)
    ensures
        forall|i: int|
            0 <= i < comma_text(values).len() ==> #[trigger] comma_text(values)[i] < 128,
    decreases values.len(),
{
    if values.len() > 0 {
        let s = comma_text(values);
        let digits = decimal_text(values[0] as nat);
        lemma_digits(values[0]);
        lemma_comma_text_is_ascii(values.drop_first());
        assert forall|i: int| 0 <= i < s.len() implies #[trigger] s[i] < 128 by {
            if i < digits.len() {
                assert(is_digit(digits[i]));
                assert(s[i] == digits[i]);
            } else if i > digits.len() {
                assert(s[i] == comma_text(values.drop_first())[i - digits.len() - 1]);
            }
        }
    }
}

/// A key that starts like all sparse keys is one of them.
proof fn lemma_sparse_key(list: Seq<Record>, key: Seq<u8>)
    requires
        last_value(list, key) is Some,
        is_sparse_key(key),
    ensures
        has_sparse(list),
    decreases list.len(),
{
    if list.last().key == key {
        assert(is_sparse_key(list[list.len() - 1].key));
    } else {
        let front = list.drop_last();
        lemma_sparse_key(front, key);
        let i = choose|i: int| 0 <= i < front.len() && is_sparse_key((#[trigger] front[i]).key);
        assert(list[i] == front[i]);
    }
}

/// The bytes of a text that is ASCII are its characters.
proof fn lemma_text(chars: Seq<char>)
    requires
        forall|i: int| 0 <= i < chars.len() ==> '\0' <= #[trigger] chars[i] <= '\u{7f}',
    ensures
        text(chars).len() == chars.len(),
        forall|i: int| 0 <= i < chars.len() ==> #[trigger] text(chars)[i] == chars[i] as u8,
{
    assert(is_ascii_chars(chars));
    is_ascii_chars_encode_utf8(chars);
    assert forall|i: int| 0 <= i < chars.len() implies #[trigger] text(chars)[i]
        == chars[i] as u8 by {
        assert(chars[i] as u8 == vstd::utf8::encode_utf8(chars)[i]);
    }
}

/// The keys that the sparse formats are known by are sparse keys.
proof fn lemma_sparse_keys()
    ensures
        is_sparse_key(text("GNU.sparse.map"@)),
        is_sparse_key(text("GNU.sparse.numblocks"@)),
        is_sparse_key(text("GNU.sparse.realsize"@)),
{
    reveal_strlit("GNU.sparse.");
    reveal_strlit("GNU.sparse.map");
    reveal_strlit("GNU.sparse.numblocks");
    reveal_strlit("GNU.sparse.realsize");
    lemma_text("GNU.sparse."@);
    lemma_text("GNU.sparse.map"@);
    lemma_text("GNU.sparse.numblocks"@);
    lemma_text("GNU.sparse.realsize"@);
    let start = text("GNU.sparse."@);
    assert(text("GNU.sparse.map"@).take(11) =~= start);
    assert(text("GNU.sparse.numblocks"@).take(11) =~= start);
    assert(text("GNU.sparse.realsize"@).take(11) =~= start);
    assert(start =~= text("GNU.sparse.map"@).subrange(0, 11));
    assert(start =~= text("GNU.sparse.numblocks"@).subrange(0, 11));
    assert(start =~= text("GNU.sparse.realsize"@).subrange(0, 11));
}

/// Whether records give the version of the sparse formats 0.0 and 0.1, or none.
pub open spec fn is_version_zero(pax: Seq<Record>) -> bool {
    let major = last_value(pax, text("GNU.sparse.major"@));
    let minor = last_value(pax, text("GNU.sparse.minor"@));
    ||| major is None && minor is None
    ||| major == Some(decimal_text(0)) && (minor == Some(decimal_text(0)) || minor == Some(
        decimal_text(1),
    ))
}

/// Whether records give the size of a member in the sparse formats 0.0 and 0.1:
/// the one record or, where it is not there, the other.
pub open spec fn has_old_size(pax: Seq<Record>, size: u64) -> bool {
    let one = last_value(pax, text("GNU.sparse.size"@));
    let other = last_value(pax, text("GNU.sparse.realsize"@));
    ||| one == Some(decimal_text(size as nat)) && (other matches Some(value) ==> decimal(
        value,
    ) is Ok)
    ||| one is None && other == Some(decimal_text(size as nat))
}

/// The two single digits as they are written.
proof fn lemma_versions()
    ensures
        decimal_text(0) == seq![48u8],
        decimal_text(1) == seq![49u8],
        valid_utf8(seq![48u8]),
        valid_utf8(seq![49u8]),
        seq![48u8] != seq![49u8],
{
    lemma_ascii(seq![48u8]);
    lemma_ascii(seq![49u8]);
    assert(seq![48u8][0] != seq![49u8][0]);
}

/// A member whose layout is given by records is found with that layout.
proof fn lemma_found_with(
    p: ParserView,
    s: Seq<u8>,
    at: int,
    header: HeaderView,
    map: Seq<SparseSegment>,
    size: u64,
    start: int,
)
    requires
        begins_member(p, s, at, header),
        header.type_flag != 83,
        has_sparse(effective(p.global, p.local)),
        pax_layout(effective(p.global, p.local), header.stored_size, s, at + 512) == Parsed::Got(
            (Some(map), size),
            start,
        ),
    ensures
        next_member(p, s, at) matches Next::Found(member, _, place) && member.sparse == Some(map)
            && member.logical_size == size && place == start,
{
    reveal(block_step);
    reveal(member_at);
    reveal(member_layout);
    let q = ParserView { zero_block: false, ..p };
    lemma_records_apply(with_long_names(header, q), effective(p.global, p.local));
}

/// A sparse member of format 0.1, with all its offsets and lengths in one
/// record, is found with exactly these segments, whatever other records of
/// sparse metadata there are.
pub proof fn law_sparse_lists_are_found(
    p: ParserView,
    s: Seq<u8>,
    at: int,
    header: HeaderView,
    map: Seq<SparseSegment>,
    size: u64,
)
    requires
        begins_member(p, s, at, header),
        header.type_flag != 83,
        is_version_zero(effective(p.global, p.local)),
        has_old_size(effective(p.global, p.local), size),
        map.len() > 0,
        is_map(map, size, header.stored_size as int),
        last_value(effective(p.global, p.local), text("GNU.sparse.map"@)) == Some(
            comma_text(flat(map)),
        ),
    ensures
        next_member(p, s, at) matches Next::Found(member, _, start) && member.sparse == Some(map)
            && member.logical_size == size && start == at + 512,
{
    let pax = effective(p.global, p.local);
    lemma_sparse_keys();
    lemma_sparse_key(pax, text("GNU.sparse.map"@));
    lemma_versions();
    lemma_digits(size);
    lemma_comma_text_is_ascii(flat(map));
    lemma_ascii(comma_text(flat(map)));
    law_comma_lists_are_read(map);
    lemma_is_map(map, size, header.stored_size);
    lemma_found_with(p, s, at, header, map, size, at + 512);
}

/// The records of segments in format 0.0, one for each offset and one for each
/// length.
pub open spec fn pairs_of(map: Seq<SparseSegment>) -> Seq<Record> {
    Seq::new(
        2 * map.len(),
        |i: int|
            if i % 2 == 0 {
                Record {
                    key: text("GNU.sparse.offset"@),
                    value: decimal_text(map[i / 2].offset as nat),
                }
            } else {
                Record {
                    key: text("GNU.sparse.numbytes"@),
                    value: decimal_text(map[i / 2].len as nat),
                }
            },
    )
}

/// The records among others that hold segments in format 0.0.
pub open spec fn among(list: Seq<Record>) -> Seq<Record> {
    list.filter(
        |record: Record|
            record.key == text("GNU.sparse.offset"@) || record.key == text("GNU.sparse.numbytes"@),
    )
}

/// Both ways of picking these records agree.
proof fn lemma_among(list: Seq<Record>)
    ensures
        among(list) == pair_records(list),
    decreases list.len(),
{
    reveal(Seq::filter);
    if list.len() > 0 {
        lemma_among(list.drop_last());
    }
}

/// Alternating records are read from one on.
proof fn lemma_pairs(map: Seq<SparseSegment>, from: int)
    requires
        0 <= from <= map.len(),
    ensures
        pair_segments(pairs_of(map), from, map.len() as int) == Ok::<Seq<SparseSegment>, Fault>(
            map.skip(from),
        ),
    decreases map.len() - from,
{
    let pairs = pairs_of(map);
    if from < map.len() {
        lemma_pairs(map, from + 1);
        lemma_digits(map[from].offset);
        lemma_digits(map[from].len);
        assert((2 * from) / 2 == from && (2 * from + 1) / 2 == from);
        assert(pairs[2 * from].value == decimal_text(map[from].offset as nat));
        assert(pairs[2 * from + 1].value == decimal_text(map[from].len as nat));
        assert(seq![map[from]] + map.skip(from + 1) =~= map.skip(from));
    } else {
        assert(map.skip(from) =~= Seq::empty());
    }
}

/// A sparse member of format 0.0, with one record for each offset and for each
/// length and one with their number, is found with exactly these segments,
/// whatever stands between these records.
pub proof fn law_sparse_pairs_are_found(
    p: ParserView,
    s: Seq<u8>,
    at: int,
    header: HeaderView,
    map: Seq<SparseSegment>,
    size: u64,
)
    requires
        begins_member(p, s, at, header),
        header.type_flag != 83,
        is_version_zero(effective(p.global, p.local)),
        has_old_size(effective(p.global, p.local), size),
        is_map(map, size, header.stored_size as int),
        last_value(effective(p.global, p.local), text("GNU.sparse.map"@)) is None,
        last_value(effective(p.global, p.local), text("GNU.sparse.numblocks"@)) == Some(
            decimal_text(map.len()),
        ),
        among(effective(p.global, p.local)) == pairs_of(map),
    ensures
        next_member(p, s, at) matches Next::Found(member, _, start) && member.sparse == Some(map)
            && member.logical_size == size && start == at + 512,
{
    let pax = effective(p.global, p.local);
    lemma_sparse_keys();
    lemma_sparse_key(pax, text("GNU.sparse.numblocks"@));
    lemma_versions();
    lemma_digits(size);
    lemma_digits(map.len() as u64);
    lemma_among(pax);
    lemma_pairs(map, 0);
    assert(map.skip(0) =~= map);
    assert(pair_map(pax, map.len() as u64) == Ok::<Seq<SparseSegment>, Fault>(map));
    lemma_is_map(map, size, header.stored_size);
    lemma_found_with(p, s, at, header, map, size, at + 512);
}

/// Offsets and lengths in lines of their own.
pub open spec fn lines_of(map: Seq<SparseSegment>) -> Seq<u8>
    decreases map.len(),
{
    if map.len() == 0 {
        Seq::empty()
    } else {
        decimal_text(map[0].offset as nat) + seq![10u8] + decimal_text(map[0].len as nat)
            + seq![10u8] + lines_of(map.drop_first())
    }
}

/// The map in front of a member of format 1.0: the number of segments in a line,
/// and the segments.
pub open spec fn front_of(map: Seq<SparseSegment>) -> Seq<u8> {
    decimal_text(map.len()) + seq![10u8] + lines_of(map)
}

/// A number has no more digits than the power of ten that it is below.
proof fn lemma_numeral_len(n: nat, k: nat)
    requires
        k > 0,
        n < power(10, k),
    ensures
        numeral(n, 10).len() <= k,
    decreases k,
{
    if n >= 10 {
        let low = (k - 1) as nat;
        if k == 1 {
            assert(power(10, 0) == 1);
        } else {
            let p = power(10, low);
            assert(n / 10 < p) by (nonlinear_arith)
                requires
                    n < 10 * p,
            ;
            lemma_numeral_len(n / 10, low);
        }
    }
}

/// A line of digits is read.
proof fn lemma_line(s: Seq<u8>, start: int, at: int, limit: int, n: u64)
    requires
        0 <= start <= at <= start + decimal_text(n as nat).len(),
        start + decimal_text(n as nat).len() < limit,
        start + decimal_text(n as nat).len() < s.len(),
        s.subrange(start, start + decimal_text(n as nat).len()) == decimal_text(n as nat),
        s[start + decimal_text(n as nat).len()] == 10,
    ensures
        sparse_line(s, start, at, limit) == Parsed::Got(
            n,
            start + decimal_text(n as nat).len() + 1,
        ),
    decreases start + decimal_text(n as nat).len() - at,
{
    let digits = decimal_text(n as nat);
    let end = start + digits.len();
    lemma_digits(n);
    assert(power(10, 20) == 100_000_000_000_000_000_000) by {
        reveal_with_fuel(power, 21);
    }
    lemma_numeral_len(n as nat, 20);
    if at < end {
        assert(s[at] == s.subrange(start, end)[at - start]);
        assert(is_digit(digits[at - start]));
        lemma_line(s, start, at + 1, limit, n);
    }
}

/// A stretch of a stream that holds one thing after another holds each.
proof fn lemma_stretch(s: Seq<u8>, at: int, a: Seq<u8>, b: Seq<u8>)
    requires
        0 <= at,
        at + a.len() + b.len() <= s.len(),
        s.subrange(at, at + a.len() + b.len()) == a + b,
    ensures
        s.subrange(at, at + a.len()) == a,
        s.subrange(at + a.len(), at + a.len() + b.len()) == b,
{
    let all = s.subrange(at, at + a.len() + b.len());
    assert forall|i: int| 0 <= i < a.len() implies s[at + i] == a[i] by {
        assert(all[i] == (a + b)[i]);
    }
    assert forall|i: int| 0 <= i < b.len() implies s[at + a.len() + i] == b[i] by {
        assert(all[a.len() + i] == (a + b)[a.len() + i]);
    }
    assert(s.subrange(at, at + a.len()) =~= a);
    assert(s.subrange(at + a.len(), at + a.len() + b.len()) =~= b);
}

/// A number in a line of its own is read where it stands.
proof fn lemma_line_at(s: Seq<u8>, at: int, limit: int, n: u64, rest: Seq<u8>)
    requires
        0 <= at,
        at + decimal_text(n as nat).len() + 1 + rest.len() <= limit,
        at + decimal_text(n as nat).len() + 1 + rest.len() <= s.len(),
        s.subrange(at, at + decimal_text(n as nat).len() + 1 + rest.len()) == decimal_text(n as nat)
            + seq![10u8] + rest,
    ensures
        sparse_line(s, at, at, limit) == Parsed::Got(n, at + decimal_text(n as nat).len() + 1),
        s.subrange(
            at + decimal_text(n as nat).len() + 1,
            at + decimal_text(n as nat).len() + 1 + rest.len(),
        ) == rest,
{
    let digits = decimal_text(n as nat);
    let line = digits + seq![10u8];
    lemma_stretch(s, at, line, rest);
    lemma_stretch(s, at, digits, seq![10u8]);
    assert(s.subrange(at + digits.len(), at + digits.len() + 1)[0] == 10);
    lemma_line(s, at, at, limit, n);
}

/// Segments in lines are read where they stand.
proof fn lemma_lines(
    found: Seq<SparseSegment>,
    s: Seq<u8>,
    at: int,
    limit: int,
    map: Seq<SparseSegment>,
)
    requires
        0 <= at,
        at + lines_of(map).len() <= limit,
        at + lines_of(map).len() <= s.len(),
        s.subrange(at, at + lines_of(map).len()) == lines_of(map),
    ensures
        sparse_lines(found, s, at, limit, map.len()) == Parsed::Got(
            found + map,
            at + lines_of(map).len(),
        ),
    decreases map.len(),
{
    if map.len() == 0 {
        assert(found + map =~= found);
    } else {
        let rest = map.drop_first();
        let a = decimal_text(map[0].offset as nat);
        let b = decimal_text(map[0].len as nat);
        let after = b + seq![10u8] + lines_of(rest);
        assert(lines_of(map) =~= a + seq![10u8] + after);
        lemma_line_at(s, at, limit, map[0].offset, after);
        let next = at + a.len() + 1;
        lemma_line_at(s, next, limit, map[0].len, lines_of(rest));
        lemma_lines(found.push(map[0]), s, next + b.len() + 1, limit, rest);
        assert(found.push(map[0]) + rest =~= found + map);
        assert(map[0] == SparseSegment { offset: map[0].offset, len: map[0].len });
    }
}

/// A map in lines in front of the stored bytes is read where it stands.
proof fn lemma_front(
    s: Seq<u8>,
    from: int,
    limit: int,
    map: Seq<SparseSegment>,
    start: int,
)
    requires
        0 <= from,
        map.len() <= 1_000_000,
        from + front_of(map).len() <= start < from + 512 + front_of(map).len(),
        (start - from) % 512 == 0,
        start <= limit <= from + u64::MAX,
        start <= s.len(),
        s.subrange(from, from + front_of(map).len()) == front_of(map),
    ensures
        sparse_front(s, from, limit) == Parsed::Got(map, start),
{
    let count = map.len() as u64;
    lemma_line_at(s, from, limit, count, lines_of(map));
    let next = from + decimal_text(map.len()).len() + 1;
    lemma_lines(Seq::empty(), s, next, limit, map);
    assert(Seq::<SparseSegment>::empty() + map =~= map);
    let end = from + front_of(map).len();
    assert(start == end + padding_of((end - from) as u64));
}

/// A sparse member of format 1.0, with its map in lines in front of its bytes,
/// is found with exactly these segments. Its bytes start after the blocks that
/// the map fills.
pub proof fn law_sparse_fronts_are_found(
    p: ParserView,
    s: Seq<u8>,
    at: int,
    header: HeaderView,
    map: Seq<SparseSegment>,
    size: u64,
    start: int,
)
    requires
        begins_member(p, s, at, header),
        header.type_flag != 83,
        last_value(effective(p.global, p.local), text("GNU.sparse.major"@)) == Some(
            decimal_text(1),
        ),
        last_value(effective(p.global, p.local), text("GNU.sparse.minor"@)) == Some(
            decimal_text(0),
        ),
        last_value(effective(p.global, p.local), text("GNU.sparse.realsize"@)) == Some(
            decimal_text(size as nat),
        ),
        start <= s.len(),
        s.subrange(at + 512, at + 512 + front_of(map).len()) == front_of(map),
        (start - at) % 512 == 0,
        at + 512 + front_of(map).len() <= start < at + 1024 + front_of(map).len(),
        is_map(map, size, header.stored_size - (start - at - 512)),
    ensures
        next_member(p, s, at) matches Next::Found(member, _, place) && member.sparse == Some(map)
            && member.logical_size == size && place == start,
{
    let pax = effective(p.global, p.local);
    let from = at + 512;
    lemma_sparse_keys();
    lemma_sparse_key(pax, text("GNU.sparse.realsize"@));
    lemma_versions();
    lemma_digits(size);
    lemma_total_is_positive(map);
    let packed = (header.stored_size - (start - from)) as u64;
    lemma_front(s, from, from + header.stored_size, map, start);
    lemma_is_map(map, size, packed);
    lemma_found_with(p, s, at, header, map, size, start);
}

/// Segments hold no negative number of bytes.
proof fn lemma_total_is_positive(map: Seq<SparseSegment>)
    ensures
        total(map) >= 0,
    decreases map.len(),
{
    if map.len() > 0 {
        lemma_total_is_positive(map.drop_first());
    }
}

/// Whether the slots in an area, of twelve bytes for an offset and twelve for a
/// length each, hold segments: as many as there are before the first slot that
/// starts with a zero byte.
pub open spec fn slots_hold(area: Seq<u8>, count: int, part: Seq<SparseSegment>) -> bool {
    &&& part.len() <= count
    &&& forall|i: int|
        0 <= i < part.len() ==> {
            &&& area[24 * i] != 0
            &&& number(area.subrange(24 * i, 24 * i + 12)) == Ok::<u64, Fault>(
                (#[trigger] part[i]).offset,
            )
            &&& number(area.subrange(24 * i + 12, 24 * i + 24)) == Ok::<u64, Fault>(part[i].len)
        }
    &&& part.len() < count ==> area[24 * (part.len() as int)] == 0
}

/// The segments of several areas, one after the other.
pub open spec fn joined(parts: Seq<Seq<SparseSegment>>) -> Seq<SparseSegment>
    decreases parts.len(),
{
    if parts.len() == 0 {
        Seq::empty()
    } else {
        parts[0] + joined(parts.drop_first())
    }
}

/// Whether extension blocks at a place hold segments: one block for each part,
/// with a byte behind its slots that says whether another follows.
pub open spec fn extensions_hold(s: Seq<u8>, at: int, parts: Seq<Seq<SparseSegment>>) -> bool {
    &&& at + 512 * parts.len() <= s.len()
    &&& forall|e: int|
        0 <= e < parts.len() ==> {
            let block = s.subrange(at + 512 * e, at + 512 * e + 512);
            &&& slots_hold(block, 21, #[trigger] parts[e])
            &&& block[504] != 0 <==> e + 1 < parts.len()
        }
}

/// The slots of an area are read from one on.
proof fn lemma_slots(
    found: Seq<SparseSegment>,
    area: Seq<u8>,
    k: int,
    count: int,
    part: Seq<SparseSegment>,
)
    requires
        slots_hold(area, count, part),
        area.len() >= 24 * count,
        0 <= k <= part.len(),
    ensures
        field_segments(found, area, k, count) == Ok::<Seq<SparseSegment>, Fault>(
            found + part.skip(k),
        ),
    decreases part.len() - k,
{
    if k < part.len() {
        assert(part[k] == SparseSegment { offset: part[k].offset, len: part[k].len });
        assert(area.subrange(24 * k, 24 * k + 12)[0] == area[24 * k]);
        lemma_slots(found.push(part[k]), area, k + 1, count, part);
        assert(found.push(part[k]) + part.skip(k + 1) =~= found + part.skip(k));
    } else {
        assert(found + part.skip(k) =~= found);
        if k < count {
            assert(area.subrange(24 * k, 24 * k + 12)[0] == area[24 * k]);
        }
    }
}

/// Extension blocks are read where they stand.
proof fn lemma_extensions(
    found: Seq<SparseSegment>,
    s: Seq<u8>,
    at: int,
    parts: Seq<Seq<SparseSegment>>,
)
    requires
        0 <= at,
        extensions_hold(s, at, parts),
        (found + joined(parts)).len() <= 1_000_000,
    ensures
        extension_segments(found, parts.len() > 0, s, at) == Parsed::Got(
            found + joined(parts),
            at + 512 * parts.len(),
        ),
    decreases parts.len(),
{
    if parts.len() == 0 {
        assert(found + joined(parts) =~= found);
    } else {
        let block = s.subrange(at + 512 * 0, at + 512 * 0 + 512);
        let part = parts[0];
        let rest = parts.drop_first();
        assert(slots_hold(block, 21, parts[0]));
        assert(block =~= s.subrange(at, at + 512));
        lemma_slots(found, block, 0, 21, part);
        assert(part.skip(0) =~= part);
        assert(found + part + joined(rest) =~= found + joined(parts));
        assert(extensions_hold(s, at + 512, rest)) by {
            assert forall|e: int| 0 <= e < rest.len() implies {
                let next = s.subrange(at + 512 + 512 * e, at + 512 + 512 * e + 512);
                &&& slots_hold(next, 21, #[trigger] rest[e])
                &&& next[504] != 0 <==> e + 1 < rest.len()
            } by {
                assert(rest[e] == parts[e + 1]);
                assert(at + 512 + 512 * e == at + 512 * (e + 1));
            }
        }
        lemma_extensions(found + part, s, at + 512, rest);
    }
}

/// An old GNU sparse member, with segments in slots of its header and of the
/// extension blocks that follow it, is found with exactly these segments. Its
/// size is in a field of the header, and its bytes start after the last
/// extension block.
pub proof fn law_sparse_slots_are_found(
    p: ParserView,
    s: Seq<u8>,
    at: int,
    header: HeaderView,
    part: Seq<SparseSegment>,
    parts: Seq<Seq<SparseSegment>>,
    size: u64,
)
    requires
        begins_member(p, s, at, header),
        header.type_flag == 83,
        effective(p.global, p.local).len() == 0,
        s.subrange(at + 257, at + 265) == seq![117u8, 115, 116, 97, 114, 32, 32, 0],
        slots_hold(s.subrange(at + 386, at + 482), 4, part),
        s[at + 482] != 0 <==> parts.len() > 0,
        extensions_hold(s, at + 512, parts),
        number(s.subrange(at + 483, at + 495)) == Ok::<u64, Fault>(size),
        is_map(part + joined(parts), size, header.stored_size as int),
    ensures
        next_member(p, s, at) matches Next::Found(member, _, start) && member.sparse == Some(
            part + joined(parts),
        ) && member.logical_size == size && start == at + 512 + 512 * parts.len(),
{
    reveal(block_step);
    reveal(member_at);
    reveal(member_layout);
    let block = s.subrange(at, at + 512);
    let map = part + joined(parts);
    let q = ParserView { zero_block: false, ..p };
    lemma_records_apply(with_long_names(header, q), effective(p.global, p.local));
    assert(block.subrange(257, 265) =~= s.subrange(at + 257, at + 265));
    assert(block.subrange(386, 482) =~= s.subrange(at + 386, at + 482));
    assert(block.subrange(483, 495) =~= s.subrange(at + 483, at + 495));
    lemma_slots(Seq::empty(), block.subrange(386, 482), 0, 4, part);
    assert(Seq::<SparseSegment>::empty() + part.skip(0) =~= part);
    lemma_extensions(part, s, at + 512, parts);
    lemma_is_map(map, size, header.stored_size);
}

/// A sparse member that begins at a place has a map that makes up its contents.
proof fn lemma_step_map(p: ParserView, s: Seq<u8>, at: int)
    ensures
        step_at(p, s, at) matches Step::Stop(Next::Found(member, q, start)) ==> (
        member.sparse matches Some(map) ==> if member.header.type_flag == 83 {
            is_map(map, member.logical_size, member.header.stored_size as int)
        } else {
            is_map(
                map,
                member.logical_size,
                member.header.stored_size - (start - at - 512),
            )
        }),
{
    if let Step::Stop(Next::Found(member, q, start)) = step_at(p, s, at) {
        reveal(block_step);
        reveal(member_at);
        reveal(member_layout);
        if let Some(map) = member.sparse {
            let stored = if member.header.type_flag == 83 {
                member.header.stored_size as int
            } else {
                member.header.stored_size - (start - at - 512)
            };
            assert(sparse_check(map, member.logical_size as int, stored, true) is Ok);
            lemma_total(map);
            lemma_total_is_positive(map);
            lemma_stored_is(map, member.logical_size, stored);
        }
    }
}

/// What passes its check stores as many bytes as there are.
proof fn lemma_stored_is(map: Seq<SparseSegment>, size: u64, stored: int)
    requires
        sparse_check(map, size as int, stored, true) is Ok,
    ensures
        is_map(map, size, stored),
{
    let sum = checked_from(map, 0, 0, 0, size as int)->Ok_0;
    if 0 <= stored <= u64::MAX {
        lemma_checked_is_map(map, size, stored as u64);
    } else {
        lemma_sum_fits(map, 0, 0, 0, size as int);
    }
}

/// The sum that a check comes to is one in 64 bits.
proof fn lemma_sum_fits(map: Seq<SparseSegment>, from: int, end: int, sum: int, size: int)
    requires
        0 <= sum <= u64::MAX,
    ensures
        checked_from(map, from, end, sum, size) matches Ok(all) ==> 0 <= all <= u64::MAX,
    decreases map.len() - from,
{
    if from < map.len() && sum + map[from].len <= u64::MAX {
        lemma_sum_fits(map, from + 1, map[from].end(), sum + map[from].len, size);
    }
}

/// Every sparse member that is found has segments that follow each other within
/// its contents, and the bytes that they hold are exactly those that are stored
/// for it: all of them, but for a map in front of them.
pub proof fn law_found_maps_make_up_the_contents(
    p: ParserView,
    s: Seq<u8>,
    at: int,
    member: Member,
    q: ParserView,
    start: int,
    map: Seq<SparseSegment>,
)
    requires
        next_member(p, s, at) == Next::Found(member, q, start),
        member.sparse == Some(map),
    ensures
        member.header.type_flag == 83 ==> is_map(
            map,
            member.logical_size,
            member.header.stored_size as int,
        ),
        member.header.type_flag != 83 ==> is_map(
            map,
            member.logical_size,
            member.header.stored_size - (start - member_place(p, s, at).1 - 512),
        ),
    decreases s.len() - at,
{
    lemma_step_map(p, s, at);
    if let Step::Again(r, after) = step_at(p, s, at) {
        assert(at < after <= s.len()) by {
            reveal(block_step);
        }
        law_found_maps_make_up_the_contents(r, s, after, member, q, start, map);
    }
}

/// The contents of a sparse member are as long as its size; each segment stands
/// at its offset with the next of the stored bytes, in order, and all between
/// segments is zero.
pub proof fn law_sparse_contents(
    member: Member,
    map: Seq<SparseSegment>,
    s: Seq<u8>,
    start: int,
    k: int,
    at: int,
)
    requires
        member.sparse == Some(map),
        is_map(map, member.logical_size, total(map)),
        0 <= start,
        start + total(map) <= s.len(),
        0 <= at < member.logical_size,
    ensures
        member.contents(s, start).len() == member.logical_size,
        0 <= k < map.len() && map[k].offset <= at < map[k].offset + map[k].len ==> member.contents(
            s,
            start,
        )[at] == s[start + total(map.take(k)) + (at - map[k].offset)],
        (forall|i: int|
            0 <= i < map.len() ==> !((#[trigger] map[i]).offset <= at < map[i].offset + map[i].len))
            ==> member.contents(s, start)[at] == 0,
{
    let size = member.logical_size;
    lemma_total(map);
    assert(fits(map, size as int)) by {
        assert forall|i: int| 0 <= i < map.len() implies (#[trigger] map[i]).end() <= size by {
            assert(map[i].offset + map[i].len <= size);
        }
        assert forall|i: int, j: int| 0 <= i < j < map.len() implies (#[trigger] map[i]).end() <= (
        #[trigger] map[j]).offset by {
            assert(map[i].offset + map[i].len <= map[j].offset);
        }
    }
    law_expansion_places_segments(map, size as nat, s.skip(start), k, at);
    if 0 <= k < map.len() && map[k].offset <= at < map[k].offset + map[k].len {
        assert(covers(map, k, at));
        lemma_total(map.take(k));
        lemma_stored_len_grows(map, k, map.len() as int);
        assert(map.take(map.len() as int) =~= map);
    }
    if forall|i: int|
        0 <= i < map.len() ==> !((#[trigger] map[i]).offset <= at < map[i].offset + map[i].len) {
        assert forall|j: int| !covers(map, j, at) by {
            if covers(map, j, at) {
                assert(map[j].offset <= at < map[j].offset + map[j].len);
            }
        }
    }
}

/// The contents of a member that is not sparse are the bytes that are stored.
pub proof fn law_plain_contents(member: Member, s: Seq<u8>, start: int)
    requires
        member.sparse is None,
        0 <= start,
        start + member.logical_size <= s.len(),
    ensures
        member.contents(s, start) == s.subrange(start, start + member.logical_size),
{
    assert(member.contents(s, start) =~= s.subrange(start, start + member.logical_size));
}

/// A number that is read from a line is written there in one to twenty digits,
/// and in nothing else, up to the newline.
pub proof fn law_lines_hold_digits(s: Seq<u8>, start: int, at: int, limit: int, n: u64, end: int)
    requires
        0 <= start <= at,
        forall|i: int| start <= i < at ==> is_digit(#[trigger] s[i]),
        at - start <= 20,
        sparse_line(s, start, at, limit) == Parsed::Got(n, end),
    ensures
        at < end <= limit,
        end <= s.len(),
        s[end - 1] == 10,
        1 <= end - 1 - start <= 20,
        forall|i: int| start <= i < end - 1 ==> 48 <= #[trigger] s[i] <= 57,
        decimal(s.subrange(start, end - 1)) == Ok::<u64, Fault>(n),
    decreases limit - at,
{
    if s[at] != 10 {
        law_lines_hold_digits(s, start, at + 1, limit, n, end);
    } else {
        assert forall|i: int| start <= i < end - 1 implies 48 <= #[trigger] s[i] <= 57 by {
            assert(is_digit(s[i]));
        }
    }
}

/// A list that is read as segments has digits and commas only, as many commas as
/// stand between its numbers.
pub proof fn law_lists_hold_digits(s: Seq<u8>, map: Seq<SparseSegment>)
    requires
        comma_map(s) == Ok::<Seq<SparseSegment>, Fault>(map),
    ensures
        map.len() <= 1_000_000,
        forall|i: int| 0 <= i < s.len() ==> 48 <= #[trigger] s[i] <= 57 || s[i] == 44,
        s.filter(|byte: u8| byte == 44).len() == 2 * map.len() - 1,
{
    let values = comma_values(s, 0)->Ok_0;
    lemma_commas(s, 0);
    assert(s.skip(0) =~= s);
}

/// Numbers with commas between them, from a place on.
proof fn lemma_commas(s: Seq<u8>, from: int)
    requires
        0 <= from <= s.len(),
    ensures
        comma_values(s, from) matches Ok(values) ==> {
            &&& values.len() > 0
            &&& forall|i: int| from <= i < s.len() ==> 48 <= #[trigger] s[i] <= 57 || s[i] == 44
            &&& s.skip(from).filter(|byte: u8| byte == 44).len() == values.len() - 1
        },
    decreases s.len() - from,
{
    if let Ok(values) = comma_values(s, from) {
        let is_comma = |byte: u8| byte == 44;
        let comma = first_at(s, from, 44);
        lemma_first_at(s, from, 44);
        let piece = s.subrange(from, comma);
        assert forall|i: int| from <= i < comma implies 48 <= #[trigger] s[i] <= 57 by {
            assert(is_digit(piece[i - from]));
        }
        lemma_no_commas(piece);
        if comma >= s.len() {
            assert(s.skip(from) =~= piece);
        } else {
            lemma_commas(s, comma + 1);
            let rest = s.skip(comma + 1);
            let dot = seq![44u8];
            assert(s.skip(from) =~= piece + (dot + rest));
            Seq::filter_distributes_over_add(piece, dot + rest, is_comma);
            Seq::filter_distributes_over_add(dot, rest, is_comma);
            lemma_one_comma();
        }
    }
}

/// Digits hold no comma.
proof fn lemma_no_commas(s: Seq<u8>)
    requires
        forall|i: int| 0 <= i < s.len() ==> #[trigger] s[i] != 44,
    ensures
        s.filter(|byte: u8| byte == 44).len() == 0,
    decreases s.len(),
{
    reveal(Seq::filter);
    if s.len() > 0 {
        assert forall|i: int| 0 <= i < s.drop_last().len() implies #[trigger] s.drop_last()[i]
            != 44 by {
            assert(s[i] != 44);
        }
        lemma_no_commas(s.drop_last());
        assert(s[s.len() - 1] != 44);
    }
}

/// A comma is one.
proof fn lemma_one_comma()
    ensures
        seq![44u8].filter(|byte: u8| byte == 44).len() == 1,
{
    reveal(Seq::filter);
    let one = seq![44u8];
    assert(one.drop_last() =~= Seq::<u8>::empty());
    assert(one.drop_last().filter(|byte: u8| byte == 44) =~= Seq::<u8>::empty());
}

/// Segments that are read from pairs of records are as many as was said, and all
/// such records there are, each offset right before its length.
pub proof fn law_pairs_are_read_whole(
    list: Seq<Record>,
    count: u64,
    map: Seq<SparseSegment>,
    i: int,
)
    requires
        pair_map(list, count) == Ok::<Seq<SparseSegment>, Fault>(map),
        0 <= i < map.len(),
    ensures
        map.len() == count,
        among(list).len() == 2 * count,
        among(list)[2 * i].key == text("GNU.sparse.offset"@),
        among(list)[2 * i + 1].key == text("GNU.sparse.numbytes"@),
        decimal(among(list)[2 * i].value) == Ok::<u64, Fault>(map[i].offset),
        decimal(among(list)[2 * i + 1].value) == Ok::<u64, Fault>(map[i].len),
{
    lemma_among(list);
    lemma_pairs_whole(pair_records(list), 0, count as int, i);
}

/// Pairs are read from one on.
proof fn lemma_pairs_whole(pairs: Seq<Record>, from: int, count: int, i: int)
    requires
        0 <= from <= count,
    ensures
        pair_segments(pairs, from, count) matches Ok(map) ==> {
            &&& map.len() == count - from
            &&& pairs.len() <= 2 * count
            &&& from < count ==> pairs.len() == 2 * count
            &&& 0 <= i < map.len() ==> {
                let k = from + i;
                &&& pairs[2 * k].key == text("GNU.sparse.offset"@)
                &&& pairs[2 * k + 1].key == text("GNU.sparse.numbytes"@)
                &&& decimal(pairs[2 * k].value) == Ok::<u64, Fault>(map[i].offset)
                &&& decimal(pairs[2 * k + 1].value) == Ok::<u64, Fault>(map[i].len)
            }
        },
    decreases count - from,
{
    if from < count {
        lemma_pairs_whole(pairs, from + 1, count, i - 1);
    }
}

/// A sparse member that is found by its records is of a version that there is,
/// and has its segments and its size from the records of that version.
pub proof fn law_sparse_members_have_a_version(
    p: ParserView,
    s: Seq<u8>,
    at: int,
    member: Member,
    q: ParserView,
    start: int,
    map: Seq<SparseSegment>,
)
    requires
        next_member(p, s, at) == Next::Found(member, q, start),
        has_gnu_sparse(member.pax),
        member.sparse == Some(map),
    ensures
        ({
            let major = last_value(member.pax, text("GNU.sparse.major"@));
            let minor = last_value(member.pax, text("GNU.sparse.minor"@));
            let size = last_value(member.pax, text("GNU.sparse.size"@));
            let whole = last_value(member.pax, text("GNU.sparse.realsize"@));
            if major == Some(decimal_text(1)) && minor == Some(decimal_text(0)) {
                whole matches Some(value) && decimal(value) == Ok::<u64, Fault>(member.logical_size)
            } else {
                &&& is_version_zero(member.pax)
                &&& match (size, whole) {
                    (Some(value), _) => decimal(value) == Ok::<u64, Fault>(member.logical_size),
                    (None, Some(value)) => decimal(value) == Ok::<u64, Fault>(member.logical_size),
                    (None, None) => false,
                }
                &&& match (last_value(member.pax, text("GNU.sparse.map"@)), last_value(
                    member.pax,
                    text("GNU.sparse.numblocks"@),
                )) {
                    (Some(value), _) => comma_map(value) == Ok::<Seq<SparseSegment>, Fault>(map),
                    (None, Some(value)) => decimal(value) matches Ok(count) && pair_map(
                        member.pax,
                        count,
                    ) == Ok::<Seq<SparseSegment>, Fault>(map),
                    (None, None) => false,
                }
            }
        }),
    decreases s.len() - at,
{
    match step_at(p, s, at) {
        Step::Again(r, after) => {
            assert(at < after <= s.len()) by {
                reveal(block_step);
            }
            law_sparse_members_have_a_version(r, s, after, member, q, start, map);
        },
        Step::Stop(_) => {
            reveal(block_step);
            reveal(member_at);
            reveal(member_layout);
            lemma_has_gnu_sparse(member.pax);
            lemma_versions();
        },
    }
}

} // verus!
