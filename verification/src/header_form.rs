//! Header blocks as they are laid out: their checksum, and what can be written.

use vstd::prelude::*;

use crate::builder::{data_header, link_header, BuilderView};
use crate::error::Fault;
use crate::header::{blanked, byte_sum, checksum, header_fault, signed_byte_sum, HeaderView};
use crate::number::{number, power};

verus! {

/// What the byte at a place of a header block counts for its checksum: itself,
/// as a number with or without a sign, or a space where the checksum stands.
pub open spec fn counts(block: Seq<u8>, i: int, signed: bool) -> int {
    if 148 <= i < 156 {
        32
    } else if signed && block[i] >= 128 {
        block[i] - 256
    } else {
        block[i] as int
    }
}

/// The sum of the first bytes of a header block.
pub open spec fn sum_of(block: Seq<u8>, n: nat, signed: bool) -> int
    decreases n,
{
    if n == 0 {
        0
    } else {
        sum_of(block, (n - 1) as nat, signed) + counts(block, n - 1, signed)
    }
}

/// Both ways of adding up agree.
proof fn lemma_sums(block: Seq<u8>, n: nat)
    requires
        block.len() == 512,
        n <= 512,
    ensures
        byte_sum(blanked(block).take(n as int)) == sum_of(block, n, false),
        signed_byte_sum(blanked(block).take(n as int)) == sum_of(block, n, true),
    decreases n,
{
    let whole = blanked(block);
    if n > 0 {
        lemma_sums(block, (n - 1) as nat);
        assert(whole.take(n as int).drop_last() =~= whole.take(n - 1));
        assert(whole.take(n as int).last() == whole[n - 1]);
    }
}

/// A header block is sound exactly if its checksum field holds the sum of its
/// bytes, taken with or without a sign, where the field itself counts as spaces.
pub proof fn law_checksums_are_sums(block: Seq<u8>, held: u64)
    requires
        block.len() == 512,
        number(block.subrange(148, 156)) == Ok::<u64, Fault>(held),
    ensures
        checksum(block) is Ok <==> held == sum_of(block, 512, false) || held == sum_of(
            block,
            512,
            true,
        ),
        checksum(block) is Err ==> checksum(block) == Err::<(), Fault>(Fault::ChecksumMismatch),
{
    lemma_sums(block, 512);
    assert(blanked(block).take(512) =~= blanked(block));
    lemma_sum_bounds(block, 512);
}

/// Sums stay small.
proof fn lemma_sum_bounds(block: Seq<u8>, n: nat)
    ensures
        0 <= sum_of(block, n, false) <= 255 * n,
        -128 * n <= sum_of(block, n, true) <= 127 * n,
    decreases n,
{
    if n > 0 {
        lemma_sum_bounds(block, (n - 1) as nat);
    }
}

/// The difference between sums without and with a sign is a multiple of 256.
proof fn lemma_sums_differ(block: Seq<u8>, n: nat) -> (k: int)
    ensures
        k >= 0,
        sum_of(block, n, false) == sum_of(block, n, true) + 256 * k,
    decreases n,
{
    if n == 0 {
        0
    } else {
        let k = lemma_sums_differ(block, (n - 1) as nat);
        if counts(block, n - 1, false) == counts(block, n - 1, true) {
            k
        } else {
            k + 1
        }
    }
}

/// A changed byte changes a sum by what it counts.
proof fn lemma_changed_sum(block: Seq<u8>, i: int, byte: u8, n: nat, signed: bool)
    requires
        block.len() == 512,
        0 <= i < 512,
        n <= 512,
    ensures
        sum_of(block.update(i, byte), n, signed) == sum_of(block, n, signed) + if i < n {
            counts(block.update(i, byte), i, signed) - counts(block, i, signed)
        } else {
            0
        },
    decreases n,
{
    if n > 0 {
        lemma_changed_sum(block, i, byte, (n - 1) as nat, signed);
        if n - 1 != i {
            assert(block.update(i, byte)[n - 1] == block[n - 1]);
        }
    }
}

/// A header block with a single changed byte outside its checksum is refused.
pub proof fn law_changed_headers_are_refused(block: Seq<u8>, i: int, byte: u8)
    requires
        block.len() == 512,
        checksum(block) is Ok,
        0 <= i < 148 || 156 <= i < 512,
        block[i] != byte,
    ensures
        checksum(block.update(i, byte)) == Err::<(), Fault>(Fault::ChecksumMismatch),
{
    let other = block.update(i, byte);
    let held = number(block.subrange(148, 156))->Ok_0;
    assert(other.subrange(148, 156) =~= block.subrange(148, 156));
    law_checksums_are_sums(block, held);
    law_checksums_are_sums(other, held);
    lemma_changed_sum(block, i, byte, 512, false);
    lemma_changed_sum(block, i, byte, 512, true);
    let k = lemma_sums_differ(block, 512);
    let m = lemma_sums_differ(other, 512);
    assert(sum_of(other, 512, false) == sum_of(block, 512, false) + byte - block[i]);
    assert(sum_of(other, 512, true) == sum_of(block, 512, true) + counts(other, i, true) - counts(
        block,
        i,
        true,
    ));
}

/// A header can be written exactly if each number fits the octal digits of its
/// field: seven for the mode and the ids, eleven for the size and the time.
pub proof fn law_headers_that_can_be_written(header: HeaderView)
    ensures
        header_fault(header) is None <==> header.mode < 0x20_0000 && header.uid < 0x20_0000
            && header.gid < 0x20_0000 && header.stored_size < 0x2_0000_0000 && 0 <= header.mtime
            < 0x2_0000_0000,
{
    reveal_with_fuel(power, 12);
}

/// Whether a path or link target of an entry can be written: it is not empty, no
/// zero byte would end it, and a reader would take its long record.
pub open spec fn can_be_named(value: Seq<u8>) -> bool {
    &&& value.len() > 0
    &&& value.len() <= 100 ==> forall|i: int| 0 <= i < value.len() ==> #[trigger] value[i] != 0
    &&& value.len() > 100 ==> value.last() != 0 && value.len() < 1_048_576
}

/// Data is appended, unless the sink or the input fails, exactly if the archive
/// is open, the header can be written, the path can, and a link target that the
/// header has fits its field.
pub proof fn law_data_that_can_be_appended(
    builder: BuilderView,
    header: HeaderView,
    path: Seq<u8>,
)
    ensures
        builder.data_fault(data_header(header, path)) is None <==> {
            &&& header_fault(header) is None
            &&& can_be_named(path)
            &&& header.link_name matches Some(target) ==> target.len() <= 100 && can_be_named(
                target,
            )
            &&& !builder.finished
            &&& !builder.poisoned
        },
        path.len() == 0 ==> builder.data_fault(data_header(header, path)) == Some(Fault::EmptyPath),
{
}

/// A link is appended, unless the sink fails, exactly if the archive is open, the
/// header is that of a link and can be written, and so can path and target.
pub proof fn law_links_that_can_be_appended(
    builder: BuilderView,
    header: HeaderView,
    path: Seq<u8>,
    target: Seq<u8>,
)
    ensures
        builder.link_fault(link_header(header, path, target)) is None <==> {
            &&& header.type_flag == 49 || header.type_flag == 50
            &&& header_fault(HeaderView { stored_size: 0, ..header }) is None
            &&& can_be_named(path)
            &&& can_be_named(target)
            &&& !builder.finished
            &&& !builder.poisoned
        },
{
    let linked = link_header(header, path, target);
    assert(target.len() == 0 <==> target =~= Seq::<u8>::empty());
    assert(header_fault(linked) == header_fault(HeaderView { stored_size: 0, ..header }));
}

/// An entry is appended under the header that was given, with its path, and for a
/// link with its target and without data; nothing else of it is changed.
pub proof fn law_headers_are_appended_as_given(
    header: HeaderView,
    path: Seq<u8>,
    target: Seq<u8>,
)
    ensures
        data_header(header, path) == (HeaderView {
            path,
            link_name: header.link_name,
            mode: header.mode,
            uid: header.uid,
            gid: header.gid,
            stored_size: header.stored_size,
            mtime: header.mtime,
            type_flag: header.type_flag,
        }),
        link_header(header, path, target) == (HeaderView {
            path,
            link_name: Some(target),
            mode: header.mode,
            uid: header.uid,
            gid: header.gid,
            stored_size: 0,
            mtime: header.mtime,
            type_flag: header.type_flag,
        }),
{
}

} // verus!
