//! How the bytes of an archive are read as members: the format itself, as
//! functions from a byte stream and a place in it.

use vstd::prelude::*;

use crate::bytes::text;
use crate::error::Fault;
use crate::header::{block_header, checksum, gnu_magic, padding_of, EntryType, HeaderView};
use crate::number::{decimal, is_digit, number};
use crate::pax::{
    effective, has_sparse, last_value, number_value, pax_records, stored_all, text_value, trimmed,
    with_pax, Record,
};
use crate::sparse::{
    comma_map, covers, expanded, field_segment, first_open, fits, law_expansion_places_segments,
    lemma_first_open_is, lemma_stored_before, lemma_stored_len_grows, pair_map, sparse_check,
    stored_before, stored_len, SparseSegment, MAX_SPARSE_SEGMENTS,
};

verus! {

/// How many bytes a metadata member may have.
pub const MAX_PAX_SIZE: u64 = 1_048_576;

/// What a place in a byte stream holds, as far as the stream goes.
pub enum Parsed<T> {
    /// The stream ends before it does.
    More,
    /// It is malformed, which shows once the stream goes up to this place.
    Bad(Fault, int),
    /// The value, and where it ends.
    Got(T, int),
}

/// What an archive says of a member.
pub struct Member {
    /// The header after all overrides.
    pub header: HeaderView,
    /// The kind of the member.
    pub kind: EntryType,
    /// The PAX records in force.
    pub pax: Seq<Record>,
    /// The stored parts of a sparse member.
    pub sparse: Option<Seq<SparseSegment>>,
    /// The size of the contents, holes included.
    pub logical_size: u64,
}

impl Member {
    /// How many bytes are stored for the contents.
    pub open spec fn stored(self) -> int {
        match self.sparse {
            Some(map) => stored_len(map),
            None => self.logical_size as int,
        }
    }

    /// The contents, given a byte stream and where the stored bytes start.
    pub open spec fn contents(self, s: Seq<u8>, start: int) -> Seq<u8> {
        match self.sparse {
            Some(map) => expanded(map, self.logical_size as nat, s.skip(start)),
            None => Seq::new(self.logical_size as nat, |i: int| s[start + i]),
        }
    }

    /// How many of the stored bytes belong before a place in the contents.
    pub open spec fn stored_before(self, pos: int) -> int {
        match self.sparse {
            Some(map) => stored_before(map, pos),
            None => pos,
        }
    }

    /// Whether the byte at a place in the contents is stored, and not in a hole.
    pub open spec fn stored_at(self, pos: int) -> bool {
        match self.sparse {
            Some(map) => {
                let k = first_open(map, 0, pos);
                k < map.len() && map[k].offset <= pos
            },
            None => true,
        }
    }

    /// Where the stored run or the hole ends that a place in the contents is in.
    pub open spec fn run_end(self, pos: int) -> int {
        match self.sparse {
            Some(map) => {
                let k = first_open(map, 0, pos);
                if k >= map.len() {
                    self.logical_size as int
                } else if map[k].offset <= pos {
                    map[k].end()
                } else {
                    map[k].offset as int
                }
            },
            None => self.logical_size as int,
        }
    }

    /// Whether the stored parts are in order within the contents.
    pub open spec fn in_order(self) -> bool {
        self.sparse matches Some(map) ==> fits(map, self.logical_size as int)
            && map.len() <= MAX_SPARSE_SEGMENTS
    }
}

/// The run at a place in the contents ends after it, and within the contents.
pub proof fn lemma_run_end(member: Member, pos: int)
    requires
        member.in_order(),
        0 <= pos < member.logical_size,
    ensures
        pos < member.run_end(pos) <= member.logical_size,
{
    if let Some(map) = member.sparse {
        lemma_first_open_is(map, 0, pos);
    }
}

/// From a place in the contents on, up to the end of its run: the bytes are the
/// next stored ones, or zero in a hole.
pub proof fn lemma_run(member: Member, s: Seq<u8>, start: int, pos: int, n: int)
    requires
        member.in_order(),
        0 <= start <= s.len(),
        0 <= n,
        0 <= pos < member.logical_size,
        pos + n <= member.run_end(pos),
    ensures
        0 <= member.stored_before(pos) <= member.stored(),
        member.stored_at(pos) ==> {
            &&& member.stored_before(pos) < member.stored()
            &&& member.stored_before(pos + n) == member.stored_before(pos) + n
            &&& forall|i: int|
                0 <= i < n && start + member.stored_before(pos) + i < s.len()
                    ==> #[trigger] member.contents(s, start)[pos + i] == s[start
                    + member.stored_before(pos) + i]
        },
        !member.stored_at(pos) ==> {
            &&& member.stored_before(pos + n) == member.stored_before(pos)
            &&& forall|i: int| 0 <= i < n ==> #[trigger] member.contents(s, start)[pos + i] == 0
        },
{
    if let Some(map) = member.sparse {
        let logical = member.logical_size as int;
        let k = first_open(map, 0, pos);
        lemma_first_open_is(map, 0, pos);
        lemma_stored_before(map, logical, k, pos);
        lemma_stored_len_grows(map, k, map.len() as int);
        assert(map.take(map.len() as int) =~= map);
        assert forall|i: int| 0 <= i < k implies (#[trigger] map[i]).end() <= pos + n by {
            assert(map[i].end() <= pos);
        }
        lemma_stored_before(map, logical, k, pos + n);
        let contents = member.contents(s, start);
        if member.stored_at(pos) {
            lemma_stored_len_grows(map, k, k + 1);
            lemma_stored_len_grows(map, k + 1, map.len() as int);
            assert forall|i: int|
                0 <= i < n && start + member.stored_before(pos) + i < s.len() implies
                #[trigger] contents[pos + i] == s[start + member.stored_before(pos) + i] by {
                assert(covers(map, k, pos + i));
                law_expansion_places_segments(map, logical as nat, s.skip(start), k, pos + i);
            }
        } else {
            assert forall|i: int| 0 <= i < n implies #[trigger] contents[pos + i] == 0 by {
                let at = pos + i;
                assert forall|j: int| !(#[trigger] covers(map, j, at)) by {
                    if covers(map, j, at) {
                        if j < k {
                            assert(map[j].end() <= pos);
                        } else if j > k {
                            assert(map[k].end() <= map[j].offset);
                        }
                    }
                }
                law_expansion_places_segments(map, logical as nat, s.skip(start), k, pos + i);
            }
        }
    }
}

/// What the reading of an archive remembers between members.
pub struct ParserView {
    /// Whether the last block was one of zero bytes.
    pub zero_block: bool,
    /// The global PAX records.
    pub global: Seq<Record>,
    /// The PAX records for the next member.
    pub local: Option<Seq<Record>>,
    /// The path of the next member, where a GNU record gave it.
    pub long_name: Option<Seq<u8>>,
    /// The link target of the next member, where a GNU record gave it.
    pub long_link: Option<Seq<u8>>,
}

impl ParserView {
    /// What is remembered before the first member.
    pub open spec fn start() -> Self {
        ParserView {
            zero_block: false,
            global: Seq::empty(),
            local: None,
            long_name: None,
            long_link: None,
        }
    }
}

/// What comes next in an archive, as far as the stream goes.
pub enum Next {
    /// The stream ends inside a header, a payload or a padding.
    More,
    /// The stream ends where a header may start, which ends the archive too.
    AtEnd,
    /// The archive is malformed, which shows once the stream goes up to this
    /// place.
    Bad(Fault, int),
    /// The two zero blocks that end the archive, and where they end.
    End(int),
    /// A member, what is remembered after it, and where its stored bytes start.
    Found(Member, ParserView, int),
}

/// A line of a sparse 1.0 map: a decimal number of at most twenty digits and a
/// newline. The line starts at `start`, was read up to `at`, and has to end
/// before `limit`.
pub open spec fn sparse_line(s: Seq<u8>, start: int, at: int, limit: int) -> Parsed<u64>
    decreases limit - at,
{
    if at >= limit {
        Parsed::Bad(Fault::TruncatedSparseMap, at)
    } else if at >= s.len() {
        Parsed::More
    } else if s[at] == 10 {
        if at == start {
            Parsed::Bad(Fault::EmptySparseDecimal, at + 1)
        } else {
            match decimal(s.subrange(start, at)) {
                Ok(value) => Parsed::Got(value, at + 1),
                Err(fault) => Parsed::Bad(fault, at + 1),
            }
        }
    } else if !is_digit(s[at]) || at - start == 20 {
        Parsed::Bad(Fault::InvalidSparseDecimal, at + 1)
    } else {
        sparse_line(s, start, at + 1, limit)
    }
}

/// The segments that were found already and `left` more of a sparse 1.0 map,
/// each in two lines.
pub open spec fn sparse_lines(
    found: Seq<SparseSegment>,
    s: Seq<u8>,
    at: int,
    limit: int,
    left: nat,
) -> Parsed<Seq<SparseSegment>>
    decreases left,
{
    if left == 0 {
        Parsed::Got(found, at)
    } else {
        match sparse_line(s, at, at, limit) {
            Parsed::More => Parsed::More,
            Parsed::Bad(fault, end) => Parsed::Bad(fault, end),
            Parsed::Got(offset, after) => match sparse_line(s, after, after, limit) {
                Parsed::More => Parsed::More,
                Parsed::Bad(fault, end) => Parsed::Bad(fault, end),
                Parsed::Got(len, end) => sparse_lines(
                    found.push(SparseSegment { offset, len }),
                    s,
                    end,
                    limit,
                    (left - 1) as nat,
                ),
            },
        }
    }
}

/// A sparse 1.0 map, which stands in front of the stored bytes and fills whole
/// blocks: the number of segments and the segments.
pub open spec fn sparse_front(s: Seq<u8>, start: int, limit: int) -> Parsed<Seq<SparseSegment>> {
    match sparse_line(s, start, start, limit) {
        Parsed::More => Parsed::More,
        Parsed::Bad(fault, end) => Parsed::Bad(fault, end),
        Parsed::Got(count, at) => if count > usize::MAX {
            Parsed::Bad(Fault::SegmentCountTooLarge, at)
        } else if count > MAX_SPARSE_SEGMENTS {
            Parsed::Bad(Fault::TooManySegments, at)
        } else {
            match sparse_lines(Seq::empty(), s, at, limit, count as nat) {
                Parsed::More => Parsed::More,
                Parsed::Bad(fault, end) => Parsed::Bad(fault, end),
                Parsed::Got(map, end) => {
                    let filled = end + padding_of((end - start) as u64);
                    if filled - start > u64::MAX {
                        Parsed::Bad(Fault::SparseMapOverflow, end)
                    } else if filled > limit {
                        Parsed::Bad(Fault::SparseMapExceedsEntry, end)
                    } else if filled > s.len() {
                        Parsed::More
                    } else {
                        Parsed::Got(map, filled)
                    }
                },
            }
        },
    }
}

/// The stored parts of a member, none for a dense one, and its logical size.
pub type Layout = (Option<Seq<SparseSegment>>, u64);

/// A layout with a map, if the map passes its check.
pub open spec fn checked_layout(
    map: Seq<SparseSegment>,
    logical: u64,
    packed: int,
    end: int,
) -> Parsed<Layout> {
    match sparse_check(map, logical as int, packed, true) {
        Err(fault) => Parsed::Bad(fault, end),
        Ok(()) => Parsed::Got((Some(map), logical), end),
    }
}

/// The logical size of sparse formats 0.0 and 0.1.
pub open spec fn old_pax_size(pax: Seq<Record>) -> Result<u64, Fault> {
    match number_value(pax, text("GNU.sparse.size"@)) {
        Err(fault) => Err(fault),
        Ok(size) => match number_value(pax, text("GNU.sparse.realsize"@)) {
            Err(fault) => Err(fault),
            Ok(whole) => match (size, whole) {
                (Some(size), _) => Ok(size),
                (None, Some(whole)) => Ok(whole),
                (None, None) => Err(Fault::SparseSizeMissing),
            },
        },
    }
}

/// The map of sparse formats 0.0 and 0.1.
pub open spec fn old_pax_map(pax: Seq<Record>) -> Result<Seq<SparseSegment>, Fault> {
    match text_value(pax, text("GNU.sparse.map"@)) {
        Err(fault) => Err(fault),
        Ok(Some(value)) => comma_map(value),
        Ok(None) => match number_value(pax, text("GNU.sparse.numblocks"@)) {
            Err(fault) => Err(fault),
            Ok(Some(count)) => pair_map(pax, count),
            Ok(None) => Err(Fault::OrphanedSparse),
        },
    }
}

/// The layout that PAX records give a member of `physical` stored bytes, which
/// start at `at`.
pub open spec fn pax_layout(pax: Seq<Record>, physical: u64, s: Seq<u8>, at: int) -> Parsed<
    Layout,
> {
    if !has_sparse(pax) {
        Parsed::Got((None, physical), at)
    } else {
        match text_value(pax, text("GNU.sparse.major"@)) {
            Err(fault) => Parsed::Bad(fault, at),
            Ok(major) => match text_value(pax, text("GNU.sparse.minor"@)) {
                Err(fault) => Parsed::Bad(fault, at),
                Ok(minor) => if major == Some(seq![49u8]) && minor == Some(seq![48u8]) {
                    match number_value(pax, text("GNU.sparse.realsize"@)) {
                        Err(fault) => Parsed::Bad(fault, at),
                        Ok(None) => Parsed::Bad(Fault::RealSizeMissing, at),
                        Ok(Some(logical)) => match sparse_front(s, at, at + physical) {
                            Parsed::More => Parsed::More,
                            Parsed::Bad(fault, end) => Parsed::Bad(fault, end),
                            Parsed::Got(map, end) => checked_layout(
                                map,
                                logical,
                                physical - (end - at),
                                end,
                            ),
                        },
                    }
                } else if (major is Some || minor is Some) && !(major == Some(seq![48u8]) && (minor
                    == Some(seq![48u8]) || minor == Some(seq![49u8]))) {
                    Parsed::Bad(Fault::UnsupportedSparseVersion, at)
                } else {
                    match old_pax_size(pax) {
                        Err(fault) => Parsed::Bad(fault, at),
                        Ok(logical) => match old_pax_map(pax) {
                            Err(fault) => Parsed::Bad(fault, at),
                            Ok(map) => checked_layout(map, logical, physical as int, at),
                        },
                    }
                },
            },
        }
    }
}

/// The segments that were found already and those in the fields of an old GNU
/// map, from number `k` up to the first that is not there.
pub open spec fn field_segments(
    found: Seq<SparseSegment>,
    area: Seq<u8>,
    k: int,
    count: int,
) -> Result<Seq<SparseSegment>, Fault>
    decreases count - k,
{
    if k >= count {
        Ok(found)
    } else {
        match field_segment(
            area.subrange(24 * k, 24 * k + 12),
            area.subrange(24 * k + 12, 24 * k + 24),
        ) {
            Err(fault) => Err(fault),
            Ok(None) => Ok(found),
            Ok(Some(segment)) => field_segments(found.push(segment), area, k + 1, count),
        }
    }
}

/// The segments that extension blocks of an old GNU map add to those that were
/// found already, if any such block follows.
pub open spec fn extension_segments(
    found: Seq<SparseSegment>,
    extended: bool,
    s: Seq<u8>,
    at: int,
) -> Parsed<Seq<SparseSegment>>
    decreases s.len() - at,
{
    if !extended {
        Parsed::Got(found, at)
    } else if at < 0 || s.len() < at + 512 {
        Parsed::More
    } else {
        let block = s.subrange(at, at + 512);
        match field_segments(found, block, 0, 21) {
            Err(fault) => Parsed::Bad(fault, at + 512),
            Ok(more) => if more.len() > MAX_SPARSE_SEGMENTS {
                Parsed::Bad(Fault::TooManySegments, at + 512)
            } else {
                extension_segments(more, block[504] != 0, s, at + 512)
            },
        }
    }
}

/// The layout of an old GNU sparse member, from its header block and the
/// extension blocks that follow it at `at`.
pub open spec fn old_gnu_layout(block: Seq<u8>, physical: u64, s: Seq<u8>, at: int) -> Parsed<
    Layout,
> {
    if block.subrange(257, 265) != gnu_magic() {
        Parsed::Bad(Fault::NotGnuSparse, at)
    } else {
        match field_segments(Seq::empty(), block.subrange(386, 482), 0, 4) {
            Err(fault) => Parsed::Bad(fault, at),
            Ok(found) => match extension_segments(found, block[482] != 0, s, at) {
                Parsed::More => Parsed::More,
                Parsed::Bad(fault, end) => Parsed::Bad(fault, end),
                Parsed::Got(map, end) => match number(block.subrange(483, 495)) {
                    Err(fault) => Parsed::Bad(fault, end),
                    Ok(logical) => checked_layout(map, logical, physical as int, end),
                },
            },
        }
    }
}

/// The header of a member with the names that GNU records gave it.
pub open spec fn with_long_names(header: HeaderView, p: ParserView) -> HeaderView {
    HeaderView {
        path: match p.long_name {
            Some(name) => name,
            None => header.path,
        },
        link_name: match p.long_link {
            Some(link) => Some(link),
            None => header.link_name,
        },
        ..header
    }
}

/// How many bytes are stored after a header. The size that PAX records give is
/// the logical one where there is sparse metadata.
pub open spec fn physical_size(header: HeaderView, full: HeaderView, pax: Seq<Record>) -> u64 {
    if has_sparse(pax) {
        header.stored_size
    } else {
        full.stored_size
    }
}

/// The layout of a member, from its own kind of sparse metadata. There must not
/// be two kinds.
#[verifier::opaque]
pub open spec fn member_layout(
    block: Seq<u8>,
    header: HeaderView,
    pax: Seq<Record>,
    physical: u64,
    s: Seq<u8>,
    at: int,
) -> Parsed<Layout> {
    if header.type_flag == 83 {
        if has_sparse(pax) {
            Parsed::Bad(Fault::ConflictingSparse, at)
        } else {
            old_gnu_layout(block, physical, s, at)
        }
    } else {
        pax_layout(pax, physical, s, at)
    }
}

/// The member that a header block begins. Its path is the one in the sparse
/// metadata, in the PAX records, in a GNU record or in the header, in this
/// order.
#[verifier::opaque]
pub open spec fn member_at(
    p: ParserView,
    block: Seq<u8>,
    header: HeaderView,
    s: Seq<u8>,
    at: int,
) -> Parsed<Member> {
    let pax = effective(p.global, p.local);
    match with_pax(with_long_names(header, p), pax) {
        Err(fault) => Parsed::Bad(fault, at),
        Ok(full) => {
            let physical = physical_size(header, full, pax);
            match member_layout(block, header, pax, physical, s, at) {
                Parsed::More => Parsed::More,
                Parsed::Bad(fault, end) => Parsed::Bad(fault, end),
                Parsed::Got((sparse, logical_size), end) => Parsed::Got(
                    Member {
                        header: HeaderView {
                            path: match last_value(pax, text("GNU.sparse.name"@)) {
                                Some(name) => name,
                                None => full.path,
                            },
                            stored_size: physical,
                            ..full
                        },
                        kind: EntryType::of_flag(header.type_flag),
                        pax,
                        sparse,
                        logical_size,
                    },
                    end,
                ),
            }
        },
    }
}

/// Whether a type flag marks metadata on the next member instead of a member:
/// PAX records for it or for all, its path, or its link target.
pub open spec fn is_metadata(flag: u8) -> bool {
    flag == 120 || flag == 103 || flag == 76 || flag == 75
}

/// What is remembered after the payload of a metadata member.
pub open spec fn with_metadata(p: ParserView, flag: u8, payload: Seq<u8>) -> Result<
    ParserView,
    Fault,
> {
    if flag == 120 {
        if p.local is Some {
            Err(Fault::DuplicateLocalPax)
        } else {
            match pax_records(payload, 0) {
                Err(fault) => Err(fault),
                Ok(list) => Ok(ParserView { local: Some(list), ..p }),
            }
        }
    } else if flag == 103 {
        match pax_records(payload, 0) {
            Err(fault) => Err(fault),
            Ok(list) => Ok(ParserView { global: stored_all(p.global, list), ..p }),
        }
    } else if flag == 76 {
        Ok(ParserView { long_name: Some(trimmed(payload)), ..p })
    } else {
        Ok(ParserView { long_link: Some(trimmed(payload)), ..p })
    }
}

/// What is remembered after a member.
pub open spec fn after_member(p: ParserView) -> ParserView {
    ParserView { zero_block: false, local: None, long_name: None, long_link: None, ..p }
}

/// Whether all bytes are zero.
pub open spec fn all_zero(s: Seq<u8>) -> bool {
    forall|i: int| 0 <= i < s.len() ==> #[trigger] s[i] == 0
}

/// What a block, and the payload of a metadata member, lead to.
pub enum Step {
    /// The search for the next member is over.
    Stop(Next),
    /// The search goes on at this place.
    Again(ParserView, int),
}

/// What the header that starts at `at` in the stream `s` leads to, where the
/// blocks before were remembered as `p`.
pub open spec fn step_at(p: ParserView, s: Seq<u8>, at: int) -> Step {
    if at < 0 || s.len() < at {
        Step::Stop(Next::More)
    } else if s.len() == at {
        Step::Stop(Next::AtEnd)
    } else if s.len() < at + 512 {
        Step::Stop(Next::More)
    } else {
        block_step(p, s.subrange(at, at + 512), s, at + 512)
    }
}

/// What a header block leads to, which ends at `at`.
#[verifier::opaque]
pub open spec fn block_step(p: ParserView, block: Seq<u8>, s: Seq<u8>, at: int) -> Step {
    if all_zero(block) {
        if p.zero_block {
            Step::Stop(Next::End(at))
        } else {
            Step::Again(ParserView { zero_block: true, ..p }, at)
        }
    } else {
        let q = ParserView { zero_block: false, ..p };
        match checksum(block) {
            Err(fault) => Step::Stop(Next::Bad(fault, at)),
            Ok(()) => match block_header(block) {
                Err(fault) => Step::Stop(Next::Bad(fault, at)),
                Ok(header) => if is_metadata(header.type_flag) {
                    metadata_at(q, header, s, at)
                } else {
                    match member_at(q, block, header, s, at) {
                        Parsed::More => Step::Stop(Next::More),
                        Parsed::Bad(fault, end) => Step::Stop(Next::Bad(fault, end)),
                        Parsed::Got(member, start) => Step::Stop(
                            Next::Found(member, after_member(q), start),
                        ),
                    }
                },
            },
        }
    }
}

/// What a metadata member leads to, whose payload starts at `at`.
pub open spec fn metadata_at(p: ParserView, header: HeaderView, s: Seq<u8>, at: int) -> Step {
    let size = header.stored_size;
    if size > MAX_PAX_SIZE {
        Step::Stop(Next::Bad(Fault::MetadataTooLarge, at))
    } else if s.len() < at + size + padding_of(size) {
        Step::Stop(Next::More)
    } else {
        match with_metadata(p, header.type_flag, s.subrange(at, at + size)) {
            Err(fault) => Step::Stop(Next::Bad(fault, at + size + padding_of(size))),
            Ok(q) => Step::Again(q, at + size + padding_of(size)),
        }
    }
}

/// What comes next in the stream `s` from `at` on, where a header may start.
pub open spec fn next_member(p: ParserView, s: Seq<u8>, at: int) -> Next
    decreases s.len() - at,
{
    proof {
        reveal(block_step);
    }
    match step_at(p, s, at) {
        Step::Stop(next) => next,
        Step::Again(q, after) => next_member(q, s, after),
    }
}

} // verus!
