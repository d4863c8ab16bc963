//! Reading the layout of a member: how its contents lie in what is stored.

use vstd::prelude::*;
use vstd::slice::slice_subrange;

use crate::bytes::{same_bytes, text};
use crate::error::{Error, Fault};
use crate::header::{gnu_magic, padding};
use crate::member::{
    extension_segments, field_segments, old_gnu_layout, old_pax_map, old_pax_size, pax_layout,
    sparse_front, sparse_line, sparse_lines, Layout, Parsed,
};
use crate::number::{parse_decimal, parse_number};
use crate::pax::{has_sparse_record, pax_text_checked, pax_u64_checked, records, PaxRecord};
use crate::reader::{
    lemma_prefix_agrees, lemma_prefix_of_prefix, lemma_reads_on, Input, ReaderState, ReaderView,
};
use crate::sparse::{
    fits, law_accepted_maps_are_in_order, parse_sparse_csv, parse_sparse_pairs, push_sparse_pair,
    stored_len, validate_sparse, SparseSegment, MAX_SPARSE_SEGMENTS,
};

verus! {

/// Whether the outcome of reading is what the bytes read say: a value or a
/// fault that shows where reading stands and that no further bytes can change,
/// or an error of the input before the bytes were complete.
pub open spec fn concludes<T>(
    parse: spec_fn(Seq<u8>) -> Parsed<T>,
    after: ReaderView,
    outcome: Result<T, Error>,
) -> bool {
    match outcome {
        Ok(value) => forall|s: Seq<u8>| #[trigger]
            after.delivered.is_prefix_of(s) ==> parse(s) == Parsed::Got(
                value,
                after.delivered.len() as int,
            ),
        Err(error) => {
            ||| after.broke_off(error) && parse(after.delivered) == Parsed::<T>::More
            ||| error matches Error::Tar(fault) && forall|s: Seq<u8>| #[trigger]
                after.delivered.is_prefix_of(s) ==> parse(s) == Parsed::<T>::Bad(
                    fault,
                    after.delivered.len() as int,
                )
        },
    }
}

/// A byte string is a prefix of itself.
pub proof fn lemma_prefix_of_itself(s: Seq<u8>)
    ensures
        s.is_prefix_of(s),
{
    assert(s =~= s.subrange(0, s.len() as int));
}

/// Reads a line of a sparse 1.0 map, and counts the bytes.
fn read_sparse_line<R: Input>(state: &mut ReaderState<R>, consumed: &mut u64) -> (line: Result<
    u64,
    Error,
>)
    requires
        old(state).well_formed(),
        *old(consumed) + old(state)@.pending <= u64::MAX,
    ensures
        final(state).well_formed(),
        old(state)@.reads_on(final(state)@),
        final(state)@.padding == old(state)@.padding,
        final(state)@.turns == old(state)@.turns,
        *final(consumed) - *old(consumed) == final(state)@.delivered.len() - old(
            state,
        )@.delivered.len(),
        *final(consumed) + final(state)@.pending == *old(consumed) + old(state)@.pending,
        concludes(
            |s: Seq<u8>|
                sparse_line(
                    s,
                    old(state)@.delivered.len() as int,
                    old(state)@.delivered.len() as int,
                    old(state)@.delivered.len() + old(state)@.pending,
                ),
            final(state)@,
            line,
        ),
{
    let ghost before = state@;
    let ghost start = before.delivered.len() as int;
    let ghost limit = start + before.pending;
    let mut digits: Vec<u8> = Vec::new();
    proof {
        lemma_prefix_of_itself(before.delivered);
        assert(before.delivered.subrange(start, start) =~= digits@);
    }
    loop
        invariant
            before == old(state)@,
            start == before.delivered.len(),
            limit == start + before.pending,
            state.well_formed(),
            before.reads_on(state@),
            state@.padding == before.padding,
            state@.turns == before.turns,
            digits@ == state@.delivered.subrange(start, state@.delivered.len() as int),
            digits@.len() <= 20,
            *consumed == *old(consumed) + digits@.len(),
            *consumed + state@.pending == *old(consumed) + before.pending,
            *old(consumed) + before.pending <= u64::MAX,
            forall|s: Seq<u8>| #[trigger]
                state@.delivered.is_prefix_of(s) ==> sparse_line(s, start, start, limit)
                    == sparse_line(s, start, state@.delivered.len() as int, limit),
        decreases state@.pending,
    {
        let ghost middle = state@;
        let ghost at = middle.delivered.len() as int;
        if state.pending() == 0 {
            return Err(Error::Tar(Fault::TruncatedSparseMap));
        }
        let mut byte: Vec<u8> = vec![0u8; 1];
        let outcome = state.read_exact_counted(byte.as_mut_slice());
        proof {
            lemma_reads_on(before, middle, state@);
        }
        if let Err(error) = outcome {
            proof {
                lemma_prefix_agrees(middle.delivered, state@.delivered, 0, at);
                assert(state@.delivered =~= middle.delivered);
            }
            return Err(error);
        }
        let left: u64 = state.pending() - 1;
        let pad: u64 = state.padding();
        state.set_left(left, pad);
        *consumed = *consumed + 1;
        proof {
            assert(state@.delivered[at] == byte@[0]);
            assert forall|s: Seq<u8>| #[trigger] state@.delivered.is_prefix_of(s) implies s.len()
                > at && s[at] == byte@[0] && s.subrange(start, at) == digits@ && sparse_line(
                s,
                start,
                start,
                limit,
            ) == sparse_line(s, start, at, limit) by {
                lemma_prefix_of_prefix(middle.delivered, state@.delivered, s);
                lemma_prefix_agrees(middle.delivered, s, start, at);
                lemma_prefix_agrees(state@.delivered, s, 0, at + 1);
            }
        }
        if byte[0] == 10 {
            if digits.len() == 0 {
                return Err(Error::Tar(Fault::EmptySparseDecimal));
            }
            return match parse_decimal(digits.as_slice()) {
                Ok(value) => Ok(value),
                Err(fault) => Err(Error::Tar(fault)),
            };
        }
        if byte[0] < 48 || byte[0] > 57 || digits.len() == 20 {
            return Err(Error::Tar(Fault::InvalidSparseDecimal));
        }
        digits.push(byte[0]);
        assert(digits@ =~= state@.delivered.subrange(start, at + 1));
    }
}

/// The map that was read, without the count of its bytes.
pub open spec fn map_of(outcome: Result<(Vec<SparseSegment>, u64), Error>) -> Result<
    Seq<SparseSegment>,
    Error,
> {
    match outcome {
        Ok((map, _)) => Ok(map@),
        Err(error) => Err(error),
    }
}

/// Reads a sparse 1.0 map up to the stored bytes, and counts its bytes.
fn read_sparse_1_0_map<R: Input>(state: &mut ReaderState<R>) -> (found: Result<
    (Vec<SparseSegment>, u64),
    Error,
>)
    requires
        old(state).well_formed(),
    ensures
        final(state).well_formed(),
        old(state)@.reads_on(final(state)@),
        final(state)@.padding == old(state)@.padding,
        final(state)@.turns == old(state)@.turns,
        found matches Ok((_, map_bytes)) ==> {
            &&& final(state)@.delivered.len() == old(state)@.delivered.len() + map_bytes
            &&& final(state)@.pending == old(state)@.pending - map_bytes
        },
        concludes(
            |s: Seq<u8>|
                sparse_front(
                    s,
                    old(state)@.delivered.len() as int,
                    old(state)@.delivered.len() + old(state)@.pending,
                ),
            final(state)@,
            map_of(found),
        ),
{
    let ghost before = state@;
    let ghost start = before.delivered.len() as int;
    let ghost limit = start + before.pending;
    let mut consumed: u64 = 0;
    let count: u64 = read_sparse_line(state, &mut consumed)?;
    if count > usize::MAX as u64 {
        return Err(Error::Tar(Fault::SegmentCountTooLarge));
    }
    if count > MAX_SPARSE_SEGMENTS as u64 {
        return Err(Error::Tar(Fault::TooManySegments));
    }
    let ghost first = state@;
    let ghost at = first.delivered.len() as int;
    let mut map: Vec<SparseSegment> = Vec::new();
    let mut i: u64 = 0;
    proof {
        lemma_prefix_of_itself(first.delivered);
    }
    while i < count
        invariant
            before == old(state)@,
            start == before.delivered.len(),
            limit == start + before.pending,
            at == first.delivered.len(),
            i <= count <= MAX_SPARSE_SEGMENTS,
            forall|s: Seq<u8>| #[trigger]
                first.delivered.is_prefix_of(s) ==> sparse_line(s, start, start, limit)
                    == Parsed::Got(count, at),
            state.well_formed(),
            before.reads_on(first),
            first.reads_on(state@),
            state@.padding == before.padding,
            state@.turns == before.turns,
            consumed == state@.delivered.len() - start,
            consumed + state@.pending == before.pending,
            forall|s: Seq<u8>| #[trigger]
                state@.delivered.is_prefix_of(s) ==> sparse_lines(
                    Seq::empty(),
                    s,
                    at,
                    limit,
                    count as nat,
                ) == sparse_lines(
                    map@,
                    s,
                    state@.delivered.len() as int,
                    limit,
                    (count - i) as nat,
                ),
        decreases count - i,
    {
        let ghost one = state@;
        let outcome = read_sparse_line(state, &mut consumed);
        let ghost two = state@;
        proof {
            lemma_reads_on(first, one, two);
            lemma_reads_on(before, first, two);
            lemma_prefix_of_itself(two.delivered);
            assert forall|s: Seq<u8>| #[trigger] two.delivered.is_prefix_of(s) implies first
                .delivered.is_prefix_of(s) && one.delivered.is_prefix_of(s) by {
                lemma_prefix_of_prefix(first.delivered, two.delivered, s);
                lemma_prefix_of_prefix(one.delivered, two.delivered, s);
            }
        }
        let offset: u64 = outcome?;
        let outcome = read_sparse_line(state, &mut consumed);
        proof {
            lemma_reads_on(first, two, state@);
            lemma_reads_on(before, first, state@);
            lemma_prefix_of_itself(state@.delivered);
            assert forall|s: Seq<u8>| #[trigger] state@.delivered.is_prefix_of(s) implies first
                .delivered.is_prefix_of(s) && two.delivered.is_prefix_of(s) by {
                lemma_prefix_of_prefix(first.delivered, state@.delivered, s);
                lemma_prefix_of_prefix(two.delivered, state@.delivered, s);
            }
        }
        let len: u64 = outcome?;
        map.push(SparseSegment { offset, len });
        i = i + 1;
    }
    let ghost last = state@;
    let pad: u64 = padding(consumed);
    proof {
        lemma_reads_on(before, first, last);
        assert forall|s: Seq<u8>| #[trigger] last.delivered.is_prefix_of(s) implies first
            .delivered.is_prefix_of(s) by {
            lemma_prefix_of_prefix(first.delivered, last.delivered, s);
        }
    }
    let map_bytes: u64 = match consumed.checked_add(pad) {
        Some(sum) => sum,
        None => {
            return Err(Error::Tar(Fault::SparseMapOverflow));
        },
    };
    if pad > state.pending() {
        return Err(Error::Tar(Fault::SparseMapExceedsEntry));
    }
    let outcome = state.skip(pad);
    proof {
        lemma_reads_on(before, last, state@);
        lemma_prefix_of_itself(state@.delivered);
        assert forall|s: Seq<u8>| #[trigger] state@.delivered.is_prefix_of(s) implies last
            .delivered.is_prefix_of(s) && s.len() >= state@.delivered.len() by {
            lemma_prefix_of_prefix(last.delivered, state@.delivered, s);
        }
    }
    outcome?;
    let left: u64 = state.pending() - pad;
    let fill: u64 = state.padding();
    state.set_left(left, fill);
    Ok((map, map_bytes))
}

/// The layout that was read.
pub open spec fn layout_of(outcome: Result<(Option<Vec<SparseSegment>>, u64), Error>) -> Result<
    Layout,
    Error,
> {
    match outcome {
        Ok((Some(map), logical)) => Ok((Some(map@), logical)),
        Ok((None, logical)) => Ok((None, logical)),
        Err(error) => Err(error),
    }
}

/// Whether a layout accounts for all stored bytes: the map is in order within
/// the logical size, and its segments are as long as what is stored.
pub open spec fn accounts_for(layout: Layout, stored: int) -> bool {
    match layout.0 {
        Some(map) => {
            &&& fits(map, layout.1 as int)
            &&& map.len() <= MAX_SPARSE_SEGMENTS
            &&& stored_len(map) == stored
        },
        None => layout.1 == stored,
    }
}

/// Reads the layout of a member that is not an old GNU sparse one.
pub(crate) fn parse_pax_sparse<R: Input>(
    state: &mut ReaderState<R>,
    pax: &[PaxRecord],
    physical: u64,
) -> (found: Result<(Option<Vec<SparseSegment>>, u64), Error>)
    requires
        old(state).well_formed(),
        old(state)@.pending == physical,
    ensures
        final(state).well_formed(),
        old(state)@.reads_on(final(state)@),
        final(state)@.padding == old(state)@.padding,
        final(state)@.turns == old(state)@.turns,
        layout_of(found) matches Ok(layout) ==> accounts_for(layout, final(state)@.pending as int),
        concludes(
            |s: Seq<u8>|
                pax_layout(records(pax@), physical, s, old(state)@.delivered.len() as int),
            final(state)@,
            layout_of(found),
        ),
{
    let ghost before = state@;
    proof {
        lemma_prefix_of_itself(before.delivered);
    }
    if !has_sparse_record(pax) {
        return Ok((None, physical));
    }
    let major = match pax_text_checked(pax, "GNU.sparse.major") {
        Ok(value) => value,
        Err(fault) => {
            return Err(Error::Tar(fault));
        },
    };
    let minor = match pax_text_checked(pax, "GNU.sparse.minor") {
        Ok(value) => value,
        Err(fault) => {
            return Err(Error::Tar(fault));
        },
    };
    if is_text(major, 49) && is_text(minor, 48) {
        let logical: u64 = match pax_u64_checked(pax, "GNU.sparse.realsize") {
            Ok(Some(size)) => size,
            Ok(None) => {
                return Err(Error::Tar(Fault::RealSizeMissing));
            },
            Err(fault) => {
                return Err(Error::Tar(fault));
            },
        };
        let (map, map_bytes) = read_sparse_1_0_map(state)?;
        let packed: u64 = physical - map_bytes;
        proof {
            law_accepted_maps_are_in_order(map@, logical, packed);
        }
        return match validate_sparse(map.as_slice(), logical, packed, true) {
            Ok(()) => Ok((Some(map), logical)),
            Err(fault) => Err(Error::Tar(fault)),
        };
    }
    let version_zero: bool = is_text(major, 48) && (is_text(minor, 48) || is_text(minor, 49));
    if (major.is_some() || minor.is_some()) && !version_zero {
        return Err(Error::Tar(Fault::UnsupportedSparseVersion));
    }
    let logical: u64 = match read_old_pax_size(pax) {
        Ok(size) => size,
        Err(fault) => {
            return Err(Error::Tar(fault));
        },
    };
    let map: Vec<SparseSegment> = match read_old_pax_map(pax) {
        Ok(map) => map,
        Err(fault) => {
            return Err(Error::Tar(fault));
        },
    };
    proof {
        law_accepted_maps_are_in_order(map@, logical, physical);
    }
    match validate_sparse(map.as_slice(), logical, physical, true) {
        Ok(()) => Ok((Some(map), logical)),
        Err(fault) => Err(Error::Tar(fault)),
    }
}

/// Whether a text is there and is this one character.
fn is_text(value: Option<&str>, byte: u8) -> (yes: bool)
    ensures
        yes == (value matches Some(found) && text(found@) == seq![byte]),
{
    match value {
        Some(found) => {
            let bytes = found.as_bytes();
            let yes: bool = bytes.len() == 1 && bytes[0] == byte;
            assert(yes ==> bytes@ =~= seq![byte]);
            yes
        },
        None => false,
    }
}

/// Reads the logical size of sparse formats 0.0 and 0.1.
fn read_old_pax_size(pax: &[PaxRecord]) -> (size: Result<u64, Fault>)
    ensures
        size == old_pax_size(records(pax@)),
{
    let size = pax_u64_checked(pax, "GNU.sparse.size")?;
    let whole = pax_u64_checked(pax, "GNU.sparse.realsize")?;
    match size {
        Some(size) => Ok(size),
        None => match whole {
            Some(whole) => Ok(whole),
            None => Err(Fault::SparseSizeMissing),
        },
    }
}

/// Reads the map of sparse formats 0.0 and 0.1.
fn read_old_pax_map(pax: &[PaxRecord]) -> (map: Result<Vec<SparseSegment>, Fault>)
    ensures
        map matches Ok(found) ==> old_pax_map(records(pax@)) == Ok::<Seq<SparseSegment>, Fault>(
            found@,
        ),
        map matches Err(fault) ==> old_pax_map(records(pax@)) == Err::<Seq<SparseSegment>, Fault>(
            fault,
        ),
{
    match pax_text_checked(pax, "GNU.sparse.map")? {
        Some(value) => parse_sparse_csv(value),
        None => match pax_u64_checked(pax, "GNU.sparse.numblocks")? {
            Some(count) => parse_sparse_pairs(pax, count),
            None => Err(Fault::OrphanedSparse),
        },
    }
}

/// Reads the segments in the fields of an old GNU map.
fn push_field_segments(map: &mut Vec<SparseSegment>, area: &[u8], count: usize) -> (done: Result<
    (),
    Fault,
>)
    requires
        count <= 21,
        24 * count <= area@.len(),
    ensures
        match field_segments(old(map)@, area@, 0, count as int) {
            Ok(all) => done is Ok && final(map)@ == all,
            Err(fault) => done == Err::<(), Fault>(fault),
        },
{
    let mut k: usize = 0;
    while k < count
        invariant
            k <= count <= 21,
            24 * count <= area@.len(),
            field_segments(old(map)@, area@, 0, count as int) == field_segments(
                map@,
                area@,
                k as int,
                count as int,
            ),
        decreases count - k,
    {
        if !push_sparse_pair(
            map,
            slice_subrange(area, 24 * k, 24 * k + 12),
            slice_subrange(area, 24 * k + 12, 24 * k + 24),
        )? {
            return Ok(());
        }
        k = k + 1;
    }
    Ok(())
}

/// Whether reading was given up because metadata went on and on, for more than
/// two to the power of seventy-two bytes.
pub open spec fn endless(before: ReaderView, after: ReaderView, error: Error) -> bool {
    &&& error == Error::Tar(Fault::EndlessMetadata)
    &&& after.delivered.len() - before.delivered.len() >= 512 * u64::MAX
}

/// Reads the layout of an old GNU sparse member.
pub(crate) fn parse_old_gnu_sparse<R: Input>(
    state: &mut ReaderState<R>,
    block: &[u8],
    physical: u64,
) -> (found: Result<(Option<Vec<SparseSegment>>, u64), Error>)
    requires
        old(state).well_formed(),
        old(state)@.pending == physical,
        block@.len() == 512,
    ensures
        final(state).well_formed(),
        old(state)@.reads_on(final(state)@),
        final(state)@.padding == old(state)@.padding,
        final(state)@.turns == old(state)@.turns,
        layout_of(found) matches Ok(layout) ==> accounts_for(layout, final(state)@.pending as int),
        concludes(
            |s: Seq<u8>|
                old_gnu_layout(block@, physical, s, old(state)@.delivered.len() as int),
            final(state)@,
            layout_of(found),
        ) || (found matches Err(error) && endless(old(state)@, final(state)@, error)),
{
    let ghost before = state@;
    let ghost start = before.delivered.len() as int;
    proof {
        lemma_prefix_of_itself(before.delivered);
        assert(gnu_magic() =~= [117u8, 115, 116, 97, 114, 32, 32, 0]@);
    }
    if !same_bytes(
        slice_subrange(block, 257, 265),
        [117u8, 115, 116, 97, 114, 32, 32, 0].as_slice(),
    ) {
        return Err(Error::Tar(Fault::NotGnuSparse));
    }
    let mut map: Vec<SparseSegment> = Vec::new();
    if let Err(fault) = push_field_segments(&mut map, slice_subrange(block, 386, 482), 4) {
        return Err(Error::Tar(fault));
    }
    let ghost found = map@;
    let mut extended: bool = block[482] != 0;
    let mut budget: u64 = u64::MAX;
    while extended
        invariant
            before == old(state)@,
            start == before.delivered.len(),
            block@.len() == 512,
            block@.subrange(257, 265) == gnu_magic(),
            field_segments(Seq::empty(), block@.subrange(386, 482), 0, 4) == Ok::<
                Seq<SparseSegment>,
                Fault,
            >(found),
            state.well_formed(),
            before.reads_on(state@),
            state@.pending == before.pending == physical,
            state@.padding == before.padding,
            state@.turns == before.turns,
            state@.delivered.len() == start + 512 * (u64::MAX - budget),
            forall|s: Seq<u8>| #[trigger]
                state@.delivered.is_prefix_of(s) ==> extension_segments(
                    found,
                    block@[482] != 0,
                    s,
                    start,
                ) == extension_segments(map@, extended, s, state@.delivered.len() as int),
        decreases budget,
    {
        if budget == 0 {
            return Err(Error::Tar(Fault::EndlessMetadata));
        }
        let ghost middle = state@;
        let ghost at = middle.delivered.len() as int;
        let mut more: Vec<u8> = vec![0u8; 512];
        let outcome = state.read_exact_counted(more.as_mut_slice());
        proof {
            lemma_reads_on(before, middle, state@);
            lemma_prefix_of_itself(state@.delivered);
            assert forall|s: Seq<u8>| #[trigger] state@.delivered.is_prefix_of(s) implies middle
                .delivered.is_prefix_of(s) && (outcome is Ok ==> s.len() >= at + 512 && s.subrange(
                at,
                at + 512,
            ) == more@) by {
                lemma_prefix_of_prefix(middle.delivered, state@.delivered, s);
                if outcome is Ok {
                    lemma_prefix_agrees(state@.delivered, s, at, at + 512);
                    assert(state@.delivered.subrange(at, at + 512) =~= more@);
                }
            }
        }
        outcome?;
        if let Err(fault) = push_field_segments(&mut map, more.as_slice(), 21) {
            return Err(Error::Tar(fault));
        }
        extended = more[504] != 0;
        if map.len() > MAX_SPARSE_SEGMENTS {
            return Err(Error::Tar(Fault::TooManySegments));
        }
        budget = budget - 1;
    }
    let logical: u64 = match parse_number(slice_subrange(block, 483, 495)) {
        Ok(size) => size,
        Err(fault) => {
            return Err(Error::Tar(fault));
        },
    };
    proof {
        law_accepted_maps_are_in_order(map@, logical, physical);
    }
    match validate_sparse(map.as_slice(), logical, physical, true) {
        Ok(()) => Ok((Some(map), logical)),
        Err(fault) => Err(Error::Tar(fault)),
    }
}

} // verus!
