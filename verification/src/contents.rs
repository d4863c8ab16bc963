//! What is read of an entry are its contents, and so is what is extracted.

use vstd::prelude::*;

use crate::archive::{law_found_entry_is_in_step, reads_next, stands_before, EntryView};
use crate::bytes::zeros;
use crate::member::{lemma_run, lemma_run_end, Member};
use crate::reader::{lemma_prefix_of_prefix, ReaderView};
use crate::sparse::{
    lemma_stored_before, lemma_stored_len_grows, stored_before, stored_len, SparseSegment,
};
use crate::unpack::{
    fills_in_step, has_unwritten, law_new_job_fills_in_step, piece_step, unwritten, written_before,
    JobView, Piece,
};

verus! {

/// The reading of an entry, part by part, and where it stood in between.
pub struct Reading {
    /// The entry before the first part and after each.
    pub entries: Seq<EntryView>,
    /// The archive before the first part and after each.
    pub archives: Seq<ReaderView>,
    /// The parts.
    pub parts: Seq<Seq<u8>>,
}

impl Reading {
    /// Whether every part is what the entry reads next.
    pub open spec fn happens(self) -> bool {
        let n = self.parts.len();
        &&& self.entries.len() == n + 1
        &&& self.archives.len() == n + 1
        &&& forall|i: int|
            0 <= i < n ==> reads_next(
                #[trigger] self.entries[i],
                self.archives[i],
                self.parts[i],
                self.entries[i + 1],
                self.archives[i + 1],
            )
    }

    /// The reading without its last part.
    pub open spec fn front(self) -> Reading {
        Reading {
            entries: self.entries.drop_last(),
            archives: self.archives.drop_last(),
            parts: self.parts.drop_last(),
        }
    }
}

/// All parts, one after the other.
pub open spec fn joined(parts: Seq<Seq<u8>>) -> Seq<u8>
    decreases parts.len(),
{
    if parts.len() == 0 {
        Seq::empty()
    } else {
        joined(parts.drop_last()) + parts.last()
    }
}

/// An entry reads as its contents: all that is read of it, from where it was just
/// found, are its contents up to the place of reading, and all of them once
/// nothing is left. Here `s` is any stream that begins with all that was read.
pub proof fn law_entry_reads_as_its_contents(r: Reading, s: Seq<u8>)
    requires
        r.happens(),
        stands_before(r.entries[0], r.archives[0]),
        r.archives.last().delivered.is_prefix_of(s),
    ensures
        joined(r.parts) == r.entries[0].member.contents(s, r.entries[0].start as int).take(
            r.entries.last().pos as int,
        ),
        r.entries.last().pos == r.entries[0].member.logical_size ==> joined(r.parts)
            == r.entries[0].member.contents(s, r.entries[0].start as int),
{
    lemma_reading(r, s);
    let contents = r.entries[0].member.contents(s, r.entries[0].start as int);
    assert(contents.take(contents.len() as int) =~= contents);
}

/// What is read stays right from part to part.
proof fn lemma_reading(r: Reading, s: Seq<u8>)
    requires
        r.happens(),
        stands_before(r.entries[0], r.archives[0]),
        r.archives.last().delivered.is_prefix_of(s),
    ensures
        r.entries.last().in_step(r.archives.last()),
        r.entries.last().member == r.entries[0].member,
        r.entries.last().start == r.entries[0].start,
        r.entries.last().pos <= r.entries[0].member.logical_size,
        joined(r.parts) == r.entries[0].member.contents(s, r.entries[0].start as int).take(
            r.entries.last().pos as int,
        ),
    decreases r.parts.len(),
{
    let member = r.entries[0].member;
    let contents = member.contents(s, r.entries[0].start as int);
    let n = r.parts.len() as int;
    if n == 0 {
        law_found_entry_is_in_step(r.entries[0], r.archives[0]);
        assert(contents.take(0) =~= Seq::empty());
    } else {
        let front = r.front();
        assert forall|i: int| 0 <= i < n - 1 implies reads_next(
            #[trigger] front.entries[i],
            front.archives[i],
            front.parts[i],
            front.entries[i + 1],
            front.archives[i + 1],
        ) by {
            assert(front.entries[i] == r.entries[i]);
        }
        let before = r.entries[n - 1];
        assert(reads_next(
            r.entries[n - 1],
            r.archives[n - 1],
            r.parts[n - 1],
            r.entries[n],
            r.archives[n],
        ));
        lemma_prefix_of_prefix(r.archives[n - 1].delivered, r.archives[n].delivered, s);
        lemma_reading(front, s);
        let to = before.pos + r.parts[n - 1].len();
        assert(contents.take(before.pos as int) + contents.subrange(before.pos as int, to)
            =~= contents.take(to));
    }
}

/// A file after bytes were written to it at a place.
pub open spec fn placed(file: Seq<u8>, offset: int, bytes: Seq<u8>) -> Seq<u8> {
    Seq::new(
        if file.len() < offset + bytes.len() {
            (offset + bytes.len()) as nat
        } else {
            file.len()
        },
        |i: int|
            if offset <= i < offset + bytes.len() {
                bytes[i - offset]
            } else if i < file.len() {
                file[i]
            } else {
                0
            },
    )
}

/// A file after pieces were written to it, one after the other.
pub open spec fn placed_all(file: Seq<u8>, pieces: Seq<Piece>) -> Seq<u8>
    decreases pieces.len(),
{
    if pieces.len() == 0 {
        file
    } else {
        placed(
            placed_all(file, pieces.drop_last()),
            pieces.last().offset as int,
            pieces.last().bytes@,
        )
    }
}

/// A file before any piece is written to it: empty, or as long as a sparse file
/// is made before, and then all zero.
pub open spec fn new_file(member: Member) -> Seq<u8> {
    match member.sparse {
        Some(_) => zeros(member.logical_size as nat),
        None => Seq::empty(),
    }
}

/// Whether a file is right as far as it was written, when so many of the stored
/// bytes were written to it.
pub open spec fn is_right_up_to(
    member: Member,
    contents: Seq<u8>,
    gone: int,
    file: Seq<u8>,
) -> bool {
    match member.sparse {
        None => file == contents.take(gone),
        Some(map) => {
            &&& file.len() == contents.len()
            &&& forall|i: int|
                0 <= i < file.len() ==> #[trigger] file[i] == if member.stored_at(i)
                    && stored_before(map, i) >= gone {
                    0
                } else {
                    contents[i]
                }
        },
    }
}

/// What is stored before a place grows with the place, by one past each stored
/// byte.
proof fn lemma_stored_before_grows(member: Member, map: Seq<SparseSegment>, low: int, high: int)
    requires
        member.sparse == Some(map),
        member.in_order(),
        0 <= low <= high <= member.logical_size,
    ensures
        0 <= stored_before(map, low) <= stored_before(map, high) <= stored_len(map),
        low < high && member.stored_at(low) ==> stored_before(map, low) < stored_before(map, high),
    decreases high - low,
{
    if low < high {
        lemma_run_end(member, low);
        lemma_run(member, Seq::empty(), 0, low, 1);
        lemma_stored_before_grows(member, map, low + 1, high);
    } else if low < member.logical_size {
        lemma_run_end(member, low);
        lemma_run(member, Seq::empty(), 0, low, 0);
    } else {
        lemma_nothing_open(member, map);
        assert(map.take(map.len() as int) =~= map);
        lemma_stored_before(map, member.logical_size as int, map.len() as int, low);
        lemma_stored_len_grows(map, 0, map.len() as int);
        assert(map.take(0) =~= Seq::empty());
    }
}

/// All segments end within the contents.
proof fn lemma_nothing_open(member: Member, map: Seq<SparseSegment>)
    requires
        member.sparse == Some(map),
        member.in_order(),
    ensures
        forall|i: int| 0 <= i < map.len() ==> (#[trigger] map[i]).end() <= member.logical_size,
{
}

/// A new file is right as far as nothing was written to it.
proof fn lemma_new_file(member: Member, s: Seq<u8>, start: int)
    requires
        member.in_order(),
        0 <= start <= s.len(),
    ensures
        is_right_up_to(member, member.contents(s, start), 0, new_file(member)),
{
    let contents = member.contents(s, start);
    match member.sparse {
        None => {
            assert(contents.take(0) =~= Seq::empty());
        },
        Some(map) => {
            let file = new_file(member);
            assert forall|i: int| 0 <= i < file.len() implies #[trigger] file[i] == if
                member.stored_at(i) && stored_before(map, i) >= 0 {
                0
            } else {
                contents[i]
            } by {
                lemma_stored_before_grows(member, map, i, i);
                if !member.stored_at(i) {
                    lemma_run_end(member, i);
                    lemma_run(member, s, start, i, 1);
                    assert(contents[i + 0] == 0);
                }
            }
        },
    }
}

/// A dense file stays right when the next run is written to it.
proof fn lemma_dense_piece(contents: Seq<u8>, gone: int, bytes: Seq<u8>, file: Seq<u8>)
    requires
        0 <= gone,
        gone + bytes.len() <= contents.len(),
        file == contents.take(gone),
        bytes == contents.subrange(gone, gone + bytes.len()),
    ensures
        placed(file, gone, bytes) == contents.take(gone + bytes.len()),
{
    let after = placed(file, gone, bytes);
    assert forall|i: int| 0 <= i < after.len() implies after[i] == contents.take(
        gone + bytes.len(),
    )[i] by {
        if i >= gone {
            assert(bytes[i - gone] == contents[i]);
        }
    }
    assert(after =~= contents.take(gone + bytes.len()));
}

/// A sparse file stays right when a run of its next segment is written to it.
proof fn lemma_sparse_piece(
    member: Member,
    map: Seq<SparseSegment>,
    contents: Seq<u8>,
    k: int,
    within: int,
    bytes: Seq<u8>,
    file: Seq<u8>,
)
    requires
        member.sparse == Some(map),
        member.in_order(),
        contents.len() == member.logical_size,
        0 <= k < map.len(),
        0 <= within,
        within + bytes.len() <= map[k].len,
        bytes.len() > 0,
        is_right_up_to(member, contents, written_before(map, k, within), file),
        bytes == contents.subrange(
            map[k].offset + within,
            map[k].offset + within + bytes.len(),
        ),
    ensures
        is_right_up_to(
            member,
            contents,
            written_before(map, k, within) + bytes.len(),
            placed(file, map[k].offset + within, bytes),
        ),
{
    let logical = member.logical_size as int;
    let from = map[k].offset + within;
    let n = bytes.len() as int;
    let gone = written_before(map, k, within);
    let after = placed(file, from, bytes);
    assert(map[k].end() <= logical);
    assert forall|i: int| 0 <= i < k implies (#[trigger] map[i]).end() <= from by {
        assert(map[i].end() <= map[k].offset);
    }
    lemma_stored_before(map, logical, k, from);
    assert forall|i: int| 0 <= i < k implies (#[trigger] map[i]).end() <= from + n by {
        assert(map[i].end() <= from);
    }
    lemma_stored_before(map, logical, k, from + n);
    assert(stored_before(map, from) == gone);
    assert(stored_before(map, from + n) == gone + n);
    assert forall|i: int| 0 <= i < after.len() implies #[trigger] after[i] == if member.stored_at(i)
        && stored_before(map, i) >= gone + n {
        0
    } else {
        contents[i]
    } by {
        if i < from {
            lemma_stored_before_grows(member, map, i, from);
            assert(after[i] == file[i]);
        } else if i < from + n {
            assert forall|j: int| 0 <= j < k implies (#[trigger] map[j]).end() <= i by {
                assert(map[j].end() <= from);
            }
            lemma_stored_before(map, logical, k, i);
            assert(bytes[i - from] == contents[i]);
        } else {
            lemma_stored_before_grows(member, map, from + n, i);
            assert(after[i] == file[i]);
        }
    }
}

/// A file to which all stored bytes were written has the contents.
proof fn lemma_complete_file(member: Member, s: Seq<u8>, start: int, file: Seq<u8>)
    requires
        member.in_order(),
        0 <= start <= s.len(),
        is_right_up_to(member, member.contents(s, start), member.stored(), file),
    ensures
        file == member.contents(s, start),
{
    let contents = member.contents(s, start);
    match member.sparse {
        None => {
            assert(contents.take(member.stored()) =~= contents);
        },
        Some(map) => {
            assert forall|i: int| 0 <= i < file.len() implies file[i] == contents[i] by {
                if member.stored_at(i) {
                    lemma_run_end(member, i);
                    lemma_run(member, s, start, i, 1);
                }
            }
            assert(file =~= contents);
        },
    }
}

/// The segments that are passed over are complete.
proof fn lemma_unwritten(map: Seq<SparseSegment>, segment: int, within: int)
    requires
        0 <= segment <= map.len(),
        0 <= within <= (if segment < map.len() {
            map[segment].len as int
        } else {
            0
        }),
    ensures
        ({
            let (k, w) = unwritten(map, segment, within);
            &&& segment <= k <= map.len()
            &&& 0 <= w
            &&& k < map.len() ==> w < map[k].len
            &&& k == map.len() ==> w == 0
            &&& written_before(map, k, w) == written_before(map, segment, within)
        }),
    decreases map.len() - segment,
{
    if segment < map.len() && within >= map[segment].len {
        assert(map.take(segment + 1).drop_last() =~= map.take(segment));
        lemma_unwritten(map, segment + 1, 0);
    }
}

/// The writing of a file, piece by piece, and where it stood in between.
pub struct Writing {
    /// The extraction before the first piece and after each.
    pub jobs: Seq<JobView>,
    /// The entry before the first piece and after each.
    pub entries: Seq<EntryView>,
    /// The archive before the first piece and after each.
    pub archives: Seq<ReaderView>,
    /// The pieces.
    pub pieces: Seq<Piece>,
}

impl Writing {
    /// Whether every piece is what came next.
    pub open spec fn happens(self) -> bool {
        let n = self.pieces.len();
        &&& self.jobs.len() == n + 1
        &&& self.entries.len() == n + 1
        &&& self.archives.len() == n + 1
        &&& forall|i: int|
            0 <= i < n ==> piece_step(
                #[trigger] self.jobs[i],
                self.entries[i],
                self.archives[i],
                Ok(Some(self.pieces[i])),
                self.jobs[i + 1],
                self.entries[i + 1],
                self.archives[i + 1],
            )
    }

    /// The writing without its last piece.
    pub open spec fn front(self) -> Writing {
        Writing {
            jobs: self.jobs.drop_last(),
            entries: self.entries.drop_last(),
            archives: self.archives.drop_last(),
            pieces: self.pieces.drop_last(),
        }
    }
}

/// A file stays right from piece to piece.
proof fn lemma_writing(w: Writing, s: Seq<u8>)
    requires
        w.happens(),
        w.entries[0].member.in_order(),
        fills_in_step(w.jobs[0], w.entries[0], w.archives[0]),
        w.archives[0].delivered.len() == w.entries[0].start,
        w.archives.last().delivered.is_prefix_of(s),
    ensures
        fills_in_step(w.jobs.last(), w.entries.last(), w.archives.last()),
        w.entries.last().member == w.entries[0].member,
        w.entries.last().start == w.entries[0].start,
        w.archives.last().delivered.len() <= s.len(),
        w.archives.last().delivered.len() >= w.entries[0].start,
        is_right_up_to(
            w.entries[0].member,
            w.entries[0].member.contents(s, w.entries[0].start as int),
            w.archives.last().delivered.len() - w.entries[0].start,
            placed_all(new_file(w.entries[0].member), w.pieces),
        ),
    decreases w.pieces.len(),
{
    let member = w.entries[0].member;
    let start = w.entries[0].start as int;
    let contents = member.contents(s, start);
    let n = w.pieces.len() as int;
    if n == 0 {
        lemma_new_file(member, s, start);
    } else {
        let front = w.front();
        let job = w.jobs[n - 1];
        let entry = w.entries[n - 1];
        let before = w.archives[n - 1];
        let after = w.archives[n];
        let piece = w.pieces[n - 1];
        assert forall|i: int| 0 <= i < n - 1 implies piece_step(
            #[trigger] front.jobs[i],
            front.entries[i],
            front.archives[i],
            Ok(Some(front.pieces[i])),
            front.jobs[i + 1],
            front.entries[i + 1],
            front.archives[i + 1],
        ) by {
            assert(front.jobs[i] == w.jobs[i]);
        }
        assert(piece_step(
            w.jobs[n - 1],
            entry,
            before,
            Ok(Some(piece)),
            w.jobs[n],
            w.entries[n],
            after,
        ));
        lemma_prefix_of_prefix(before.delivered, after.delivered, s);
        lemma_writing(front, s);
        let file = placed_all(new_file(member), front.pieces);
        let gone = before.delivered.len() - start;
        match member.sparse {
            None => {
                lemma_dense_piece(contents, gone, piece.bytes@, file);
            },
            Some(map) => {
                lemma_unwritten(map, job.segment, job.within);
                let (k, within) = unwritten(map, job.segment, job.within);
                lemma_sparse_piece(member, map, contents, k, within, piece.bytes@, file);
            },
        }
    }
}

/// An extracted file has the contents of its entry: the pieces that are written
/// to a new file, from the start of an entry that was just found until nothing is
/// left to write, make it what reading the entry would give. Here `s` is any
/// stream that begins with all that was read.
pub proof fn law_extracted_file_has_the_contents(w: Writing, s: Seq<u8>)
    requires
        w.happens(),
        w.entries[0].member.in_order(),
        stands_before(w.entries[0], w.archives[0]),
        w.jobs[0].segment == 0,
        w.jobs[0].within == 0,
        !has_unwritten(w.jobs.last(), w.entries.last()),
        w.archives.last().delivered.is_prefix_of(s),
    ensures
        placed_all(new_file(w.entries[0].member), w.pieces) == w.entries[0].member.contents(
            s,
            w.entries[0].start as int,
        ),
{
    let member = w.entries[0].member;
    let start = w.entries[0].start as int;
    law_new_job_fills_in_step(w.jobs[0], w.entries[0], w.archives[0]);
    lemma_writing(w, s);
    if let Some(map) = member.sparse {
        let job = w.jobs.last();
        lemma_unwritten(map, job.segment, job.within);
        assert(map.take(map.len() as int) =~= map);
    }
    lemma_complete_file(member, s, start, placed_all(new_file(member), w.pieces));
}

} // verus!
