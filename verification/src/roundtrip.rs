//! What was written is what is read.

use vstd::prelude::*;

use crate::builder::{
    before_header, entry_bytes, is_writable, link_bytes, long_record, long_record_header,
    long_record_path, BuilderView,
};
use crate::bytes::zeros;
use crate::header::{
    back, header_block, header_fault, law_written_header_is_read_back, lemma_fixed_keeps,
    lemma_header_lengths, lemma_octal_digits_len, padding_of, written_sum, EntryType, HeaderView,
};
use crate::member::{
    all_zero, block_step, is_metadata, member_at, member_layout, next_member, step_at, Member, Next,
    ParserView, Step, MAX_PAX_SIZE,
};
use crate::iteration::read_members;
use crate::number::power;
use crate::pax::{effective, trimmed, Record};

verus! {

/// Whether a type flag is that of a plain member: neither metadata on another
/// member nor an old GNU sparse file, whose header has fields of its own.
pub open spec fn is_plain(flag: u8) -> bool {
    !is_metadata(flag) && flag != 83
}

/// The member that is read back of a header.
pub open spec fn plain_member(header: HeaderView) -> Member {
    Member {
        header,
        kind: EntryType::of_flag(header.type_flag),
        pax: Seq::empty(),
        sparse: None,
        logical_size: header.stored_size,
    }
}

/// Whether a path or link target that can be written is read back whole: a long
/// one is read without the newlines at its end.
pub open spec fn is_read_whole(value: Seq<u8>) -> bool {
    value.len() > 100 ==> value.last() != 10
}

/// Whether a byte string stands in a stream at a place.
pub open spec fn stands_at(s: Seq<u8>, at: int, bytes: Seq<u8>) -> bool {
    0 <= at && at + bytes.len() <= s.len() && s.subrange(at, at + bytes.len()) == bytes
}

/// What stands in a stream stands there piece by piece.
proof fn lemma_pieces(s: Seq<u8>, at: int, a: Seq<u8>, b: Seq<u8>)
    requires
        stands_at(s, at, a + b),
    ensures
        stands_at(s, at, a),
        stands_at(s, at + a.len(), b),
{
    let all = a + b;
    assert(s.subrange(at, at + a.len()) =~= a) by {
        assert forall|i: int| 0 <= i < a.len() implies s[at + i] == a[i] by {
            assert(s.subrange(at, at + all.len())[i] == all[i]);
        }
    }
    assert(s.subrange(at + a.len(), at + a.len() + b.len()) =~= b) by {
        assert forall|i: int| 0 <= i < b.len() implies s[at + a.len() + i] == b[i] by {
            assert(s.subrange(at, at + all.len())[a.len() + i] == all[a.len() + i]);
        }
    }
}

/// A written header is not taken for one of the blocks that end an archive.
proof fn lemma_header_is_not_zero(header: HeaderView)
    ensures
        header_block(header).len() == 512,
        !all_zero(header_block(header)),
{
    lemma_header_lengths(header);
    let block = header_block(header);
    assert(block.skip(156) =~= back(header)) by {
        lemma_octal_digits_len(written_sum(header) as nat, 6);
    }
    assert(back(header)[101] == 117);
    assert(block[257] == block.skip(156)[101]);
}

/// A GNU record with a long path or link target is remembered as what it holds.
proof fn lemma_long_record_step(p: ParserView, s: Seq<u8>, at: int, flag: u8, value: Seq<u8>)
    requires
        flag == 76 || flag == 75,
        100 < value.len() < MAX_PAX_SIZE,
        is_writable(value),
        is_read_whole(value),
        stands_at(s, at, long_record(flag, value)),
    ensures
        step_at(p, s, at) == Step::Again(
            if flag == 76 {
                ParserView { zero_block: false, long_name: Some(value), ..p }
            } else {
                ParserView { zero_block: false, long_link: Some(value), ..p }
            },
            at + long_record(flag, value).len(),
        ),
{
    reveal(block_step);
    reveal_with_fuel(power, 12);
    let header = long_record_header(flag, value.len());
    let block = header_block(header);
    let payload = value.push(0);
    let fill = zeros(padding_of(header.stored_size) as nat);
    law_written_header_is_read_back(header);
    lemma_header_is_not_zero(header);
    lemma_fixed_keeps(long_record_path(), 100);
    lemma_pieces(s, at, block + payload, fill);
    lemma_pieces(s, at, block, payload);
    assert(payload.drop_last() =~= value);
    reveal_with_fuel(trimmed, 3);
    assert(trimmed(payload) == value);
}

/// A written entry is read as a member, with the names that were remembered.
proof fn lemma_entry_step(p: ParserView, s: Seq<u8>, at: int, header: HeaderView, data: Seq<u8>)
    requires
        header_fault(header) is None,
        is_plain(header.type_flag),
        data.len() == header.stored_size,
        p.global == Seq::<Record>::empty(),
        p.local is None,
        stands_at(s, at, entry_bytes(header, data)),
        p.long_name == if header.path.len() > 100 {
            Some(header.path)
        } else {
            None
        },
        header.path.len() <= 100 ==> is_writable(header.path),
        match header.link_name {
            Some(target) => if target.len() > 100 {
                p.long_link == Some(target)
            } else {
                p.long_link is None && target.len() > 0 && is_writable(target)
            },
            None => p.long_link is None,
        },
    ensures
        step_at(p, s, at) == Step::Stop(
            Next::Found(plain_member(header), ParserView::start(), at + 512),
        ),
        plain_member(header).contents(s, at + 512) == data,
{
    reveal(block_step);
    reveal(member_at);
    reveal(member_layout);
    let block = header_block(header);
    let fill = zeros(padding_of(header.stored_size) as nat);
    law_written_header_is_read_back(header);
    lemma_header_is_not_zero(header);
    if header.path.len() <= 100 {
        lemma_fixed_keeps(header.path, 100);
    }
    match header.link_name {
        Some(target) => {
            if target.len() <= 100 {
                lemma_fixed_keeps(target, 100);
            }
        },
        None => {
            lemma_fixed_keeps(Seq::empty(), 100);
        },
    }
    lemma_pieces(s, at, block + data, fill);
    lemma_pieces(s, at, block, data);
    assert(effective(p.global, p.local) == Seq::<Record>::empty());
    assert forall|i: int| 0 <= i < data.len() implies s[at + 512 + i] == data[i] by {
        assert(s.subrange(at + 512, at + 512 + data.len())[i] == data[i]);
    }
    assert(plain_member(header).contents(s, at + 512) =~= data);
}

/// Data that was appended is read back: the next member has the header and the
/// path under which it was appended, and its contents are the data. A long path
/// that ends in a newline is not read back whole.
pub proof fn law_appended_data_is_read_back(
    builder: BuilderView,
    header: HeaderView,
    data: Seq<u8>,
    s: Seq<u8>,
    at: int,
)
    requires
        builder.data_fault(header) is None,
        is_read_whole(header.path),
        is_plain(header.type_flag),
        data.len() == header.stored_size,
        stands_at(s, at, long_record(76, header.path) + entry_bytes(header, data)),
    ensures
        ({
            let start = at + long_record(76, header.path).len() + 512;
            &&& next_member(ParserView::start(), s, at) == Next::Found(
                plain_member(header),
                ParserView::start(),
                start,
            )
            &&& plain_member(header).contents(s, start) == data
            &&& start + data.len() + padding_of(header.stored_size) == at + (long_record(
                76,
                header.path,
            ) + entry_bytes(header, data)).len()
        }),
{
    let p = ParserView::start();
    let long = long_record(76, header.path);
    lemma_pieces(s, at, long, entry_bytes(header, data));
    lemma_header_lengths(header);
    if header.path.len() > 100 {
        lemma_long_record_step(p, s, at, 76, header.path);
        let q = ParserView { long_name: Some(header.path), ..p };
        lemma_entry_step(q, s, at + long.len(), header, data);
        reveal_with_fuel(next_member, 2);
        assert(next_member(p, s, at) == next_member(q, s, at + long.len()));
    } else {
        lemma_entry_step(p, s, at, header, data);
    }
}

/// A link that was appended is read back: the next member has the header, the
/// path and the target with which it was appended, and no contents. Of a long
/// path or target that ends in a newline not all is read back.
pub proof fn law_appended_link_is_read_back(
    builder: BuilderView,
    header: HeaderView,
    target: Seq<u8>,
    s: Seq<u8>,
    at: int,
)
    requires
        header.link_name == Some(target),
        header.stored_size == 0,
        builder.link_fault(header) is None,
        is_read_whole(header.path),
        is_read_whole(target),
        stands_at(s, at, link_bytes(header)),
    ensures
        ({
            let start = at + before_header(header).len() + 512;
            &&& next_member(ParserView::start(), s, at) == Next::Found(
                plain_member(header),
                ParserView::start(),
                start,
            )
            &&& plain_member(header).contents(s, start) == Seq::<u8>::empty()
            &&& start == at + link_bytes(header).len()
        }),
{
    let p = ParserView::start();
    let none = Seq::<u8>::empty();
    let one = long_record(75, target);
    let two = long_record(76, header.path);
    lemma_pieces(s, at, one + two, entry_bytes(header, none));
    lemma_pieces(s, at, one, two);
    lemma_header_lengths(header);
    assert(target.len() > 0) by {
        if target.len() == 0 {
            assert(target =~= none);
        }
    }
    let q = if target.len() > 100 {
        ParserView { long_link: Some(target), ..p }
    } else {
        p
    };
    let r = if header.path.len() > 100 {
        ParserView { long_name: Some(header.path), ..q }
    } else {
        q
    };
    if target.len() > 100 {
        lemma_long_record_step(p, s, at, 75, target);
        assert(next_member(p, s, at) == next_member(q, s, at + one.len()));
    }
    if header.path.len() > 100 {
        lemma_long_record_step(q, s, at + one.len(), 76, header.path);
        assert(next_member(q, s, at + one.len()) == next_member(
            r,
            s,
            at + one.len() + two.len(),
        ));
    }
    lemma_entry_step(r, s, at + one.len() + two.len(), header, none);
}

/// The two zero blocks with which an archive is finished are read as its end.
pub proof fn law_finished_archive_ends(s: Seq<u8>, at: int)
    requires
        stands_at(s, at, zeros(1024)),
    ensures
        next_member(ParserView::start(), s, at) == Next::End(at + 1024),
{
    reveal(block_step);
    let p = ParserView::start();
    let q = ParserView { zero_block: true, ..p };
    assert(zeros(1024) =~= zeros(512) + zeros(512));
    lemma_pieces(s, at, zeros(512), zeros(512));
    assert(all_zero(zeros(512)));
    assert(next_member(q, s, at + 512) == Next::End(at + 1024));
}

/// Something that was appended to an archive.
pub enum Appended {
    /// Data under a header.
    Data(HeaderView, Seq<u8>),
    /// A link, with its target in the header.
    Link(HeaderView),
}

impl Appended {
    /// The header under which it was appended.
    pub open spec fn header(self) -> HeaderView {
        match self {
            Appended::Data(header, _) => header,
            Appended::Link(header) => header,
        }
    }

    /// The contents.
    pub open spec fn data(self) -> Seq<u8> {
        match self {
            Appended::Data(_, data) => data,
            Appended::Link(_) => Seq::empty(),
        }
    }

    /// The bytes that were written for it.
    pub open spec fn bytes(self) -> Seq<u8> {
        match self {
            Appended::Data(header, data) => long_record(76, header.path) + entry_bytes(
                header,
                data,
            ),
            Appended::Link(header) => link_bytes(header),
        }
    }

    /// Whether an open writer takes it, as a member of its own with names that
    /// are read back whole.
    pub open spec fn is_kept(self) -> bool {
        let open = BuilderView::empty();
        match self {
            Appended::Data(header, data) => {
                &&& open.data_fault(header) is None
                &&& is_read_whole(header.path)
                &&& is_plain(header.type_flag)
                &&& data.len() == header.stored_size
            },
            Appended::Link(header) => {
                &&& open.link_fault(header) is None
                &&& header.stored_size == 0
                &&& is_read_whole(header.path)
                &&& header.link_name matches Some(target) && is_read_whole(target)
            },
        }
    }

    /// The member that is read back.
    pub open spec fn member(self) -> (Member, Seq<u8>) {
        (plain_member(self.header()), self.data())
    }
}

/// The bytes of all that was appended, in order.
pub open spec fn all_bytes(list: Seq<Appended>) -> Seq<u8>
    decreases list.len(),
{
    if list.len() == 0 {
        Seq::empty()
    } else {
        list[0].bytes() + all_bytes(list.drop_first())
    }
}

/// An archive that was written and finished is read back as what was appended
/// to it, in the same order, and then ends.
pub proof fn law_written_archive_is_read_back(list: Seq<Appended>, s: Seq<u8>, at: int)
    requires
        forall|i: int| 0 <= i < list.len() ==> (#[trigger] list[i]).is_kept(),
        stands_at(s, at, all_bytes(list) + zeros(1024)),
    ensures
        read_members(ParserView::start(), s, at, list.len()) == Some(
            (
                Seq::new(list.len(), |i: int| list[i].member()),
                ParserView::start(),
                at + all_bytes(list).len(),
            ),
        ),
        next_member(ParserView::start(), s, at + all_bytes(list).len()) == Next::End(
            at + all_bytes(list).len() + 1024,
        ),
    decreases list.len(),
{
    let all = Seq::new(list.len(), |i: int| list[i].member());
    lemma_pieces(s, at, all_bytes(list), zeros(1024));
    law_finished_archive_ends(s, at + all_bytes(list).len());
    if list.len() == 0 {
        assert(all =~= Seq::empty());
    } else {
        let first = list[0];
        let rest = list.drop_first();
        let open = BuilderView::empty();
        let bytes = first.bytes();
        assert(first.is_kept());
        assert forall|i: int| 0 <= i < rest.len() implies (#[trigger] rest[i]).is_kept() by {
            assert(list[i + 1].is_kept());
        }
        assert(all_bytes(list) + zeros(1024) =~= bytes + (all_bytes(rest) + zeros(1024)));
        lemma_pieces(s, at, bytes, all_bytes(rest) + zeros(1024));
        match first {
            Appended::Data(header, data) => {
                law_appended_data_is_read_back(open, header, data, s, at);
            },
            Appended::Link(header) => {
                law_appended_link_is_read_back(open, header, header.link_name.unwrap(), s, at);
            },
        }
        law_written_archive_is_read_back(rest, s, at + bytes.len());
        let others = Seq::new(rest.len(), |i: int| rest[i].member());
        assert(all =~= seq![first.member()] + others);
    }
}

} // verus!
