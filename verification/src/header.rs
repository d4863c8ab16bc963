//! Tar headers: what they hold, how a block of 512 bytes is read as one, and
//! how one is written as such a block.

use vstd::prelude::*;
use vstd::slice::slice_subrange;

use crate::bytes::{
    append_bytes, append_zeros, before_nul, lemma_first_at_is, nul_bytes, same_bytes, zeros,
};
use crate::error::Fault;
use crate::number::{
    blanks_end, digits_end, digits_value, field_digits, number, parse_number, parse_signed_number,
    power, signed_number,
};

verus! {

/// The kind of an archive entry.
#[derive(Clone, Copy, Debug, PartialEq, Eq, Structural)]
#[non_exhaustive]
pub enum EntryType {
    /// A regular file.
    File,
    /// A directory.
    Directory,
    /// A symbolic link.
    Symlink,
    /// A hard link.
    Hardlink,
    /// A character device.
    CharDevice,
    /// A block device.
    BlockDevice,
    /// A FIFO.
    Fifo,
    /// An unrecognized type flag.
    Other(u8),
}

impl EntryType {
    /// The kind that a type flag stands for.
    pub open spec fn of_flag(flag: u8) -> Self {
        if flag == 0 || flag == 48 || flag == 55 || flag == 83 {
            EntryType::File
        } else if flag == 53 {
            EntryType::Directory
        } else if flag == 50 {
            EntryType::Symlink
        } else if flag == 49 {
            EntryType::Hardlink
        } else if flag == 51 {
            EntryType::CharDevice
        } else if flag == 52 {
            EntryType::BlockDevice
        } else if flag == 54 {
            EntryType::Fifo
        } else {
            EntryType::Other(flag)
        }
    }

    /// The type flag that is written for a kind.
    pub open spec fn flag(self) -> u8 {
        match self {
            EntryType::File => 48,
            EntryType::Directory => 53,
            EntryType::Symlink => 50,
            EntryType::Hardlink => 49,
            EntryType::CharDevice => 51,
            EntryType::BlockDevice => 52,
            EntryType::Fifo => 54,
            EntryType::Other(flag) => flag,
        }
    }

    /// The kind that a type flag stands for.
    pub fn from_flag(flag: u8) -> (kind: Self)
        ensures
            kind == EntryType::of_flag(flag),
    {
        match flag {
            0 | 48 | 55 | 83 => EntryType::File,
            53 => EntryType::Directory,
            50 => EntryType::Symlink,
            49 => EntryType::Hardlink,
            51 => EntryType::CharDevice,
            52 => EntryType::BlockDevice,
            54 => EntryType::Fifo,
            other => EntryType::Other(other),
        }
    }

    /// The type flag that is written for this kind.
    pub fn type_flag(self) -> (flag: u8)
        ensures
            flag == self.flag(),
    {
        match self {
            EntryType::File => 48,
            EntryType::Directory => 53,
            EntryType::Symlink => 50,
            EntryType::Hardlink => 49,
            EntryType::CharDevice => 51,
            EntryType::BlockDevice => 52,
            EntryType::Fifo => 54,
            EntryType::Other(flag) => flag,
        }
    }
}

/// A kind that a type flag stands for is written as a flag that stands for the
/// same kind.
pub proof fn law_kind_survives_its_flag(flag: u8)
    ensures
        EntryType::of_flag(EntryType::of_flag(flag).flag()) == EntryType::of_flag(flag),
{
}

/// What a header holds.
pub struct HeaderView {
    /// Path of the member.
    pub path: Seq<u8>,
    /// Link target, where there is one.
    pub link_name: Option<Seq<u8>>,
    /// File mode.
    pub mode: u32,
    /// User id.
    pub uid: u64,
    /// Group id.
    pub gid: u64,
    /// Number of stored data bytes.
    pub stored_size: u64,
    /// Modification time in seconds since the epoch.
    pub mtime: i64,
    /// Type flag.
    pub type_flag: u8,
}

/// The contents of an optional byte string.
pub open spec fn opt_bytes(value: Option<Vec<u8>>) -> Option<Seq<u8>> {
    match value {
        Some(bytes) => Some(bytes@),
        None => None,
    }
}

/// Parsed metadata for a tar header.
#[derive(Clone, Debug)]
pub struct Header {
    path: Vec<u8>,
    link_name: Option<Vec<u8>>,
    mode: u32,
    uid: u64,
    gid: u64,
    stored_size: u64,
    mtime: i64,
    type_flag: u8,
}

impl View for Header {
    type V = HeaderView;

    closed spec fn view(&self) -> HeaderView {
        HeaderView {
            path: self.path@,
            link_name: opt_bytes(self.link_name),
            mode: self.mode,
            uid: self.uid,
            gid: self.gid,
            stored_size: self.stored_size,
            mtime: self.mtime,
            type_flag: self.type_flag,
        }
    }
}

impl Header {
    /// Creates a header for `entry_type` with no path, no link target and all
    /// numbers zero.
    #[must_use]
    pub fn new_gnu(entry_type: EntryType) -> (header: Self)
        ensures
            header@ == (HeaderView {
                path: Seq::empty(),
                link_name: None,
                mode: 0,
                uid: 0,
                gid: 0,
                stored_size: 0,
                mtime: 0,
                type_flag: entry_type.flag(),
            }),
    {
        Header {
            path: Vec::new(),
            link_name: None,
            mode: 0,
            uid: 0,
            gid: 0,
            stored_size: 0,
            mtime: 0,
            type_flag: entry_type.type_flag(),
        }
    }

    /// File mode from the header.
    #[must_use]
    pub fn mode(&self) -> (mode: u32)
        ensures
            mode == self@.mode,
    {
        self.mode
    }

    /// User id from the header.
    #[must_use]
    pub fn uid(&self) -> (uid: u64)
        ensures
            uid == self@.uid,
    {
        self.uid
    }

    /// Group id from the header.
    #[must_use]
    pub fn gid(&self) -> (gid: u64)
        ensures
            gid == self@.gid,
    {
        self.gid
    }

    /// Raw stored size before sparse expansion.
    #[must_use]
    pub fn stored_size(&self) -> (size: u64)
        ensures
            size == self@.stored_size,
    {
        self.stored_size
    }

    /// Modification time as seconds since the Unix epoch.
    #[must_use]
    pub fn mtime(&self) -> (mtime: i64)
        ensures
            mtime == self@.mtime,
    {
        self.mtime
    }

    /// Raw tar type flag.
    #[must_use]
    pub fn type_flag(&self) -> (flag: u8)
        ensures
            flag == self@.type_flag,
    {
        self.type_flag
    }

    /// The path as the bytes of the archive.
    #[must_use]
    pub fn path(&self) -> (path: &[u8])
        ensures
            path@ == self@.path,
    {
        self.path.as_slice()
    }

    /// Link target, when present, as the bytes of the archive.
    pub fn link_name(&self) -> (name: Option<&[u8]>)
        ensures
            name is Some == self@.link_name is Some,
            name matches Some(bytes) ==> self@.link_name == Some(bytes@),
    {
        match &self.link_name {
            Some(bytes) => Some(bytes.as_slice()),
            None => None,
        }
    }

    /// Sets the file mode stored in the header.
    pub fn set_mode(&mut self, mode: u32)
        ensures
            final(self)@ == (HeaderView { mode, ..old(self)@ }),
    {
        self.mode = mode;
    }

    /// Sets the numeric user id stored in the header.
    pub fn set_uid(&mut self, uid: u64)
        ensures
            final(self)@ == (HeaderView { uid, ..old(self)@ }),
    {
        self.uid = uid;
    }

    /// Sets the numeric group id stored in the header.
    pub fn set_gid(&mut self, gid: u64)
        ensures
            final(self)@ == (HeaderView { gid, ..old(self)@ }),
    {
        self.gid = gid;
    }

    /// Sets the number of data bytes that follow the header.
    pub fn set_size(&mut self, size: u64)
        ensures
            final(self)@ == (HeaderView { stored_size: size, ..old(self)@ }),
    {
        self.stored_size = size;
    }

    /// Sets the modification time as seconds since the Unix epoch.
    pub fn set_mtime(&mut self, mtime: i64)
        ensures
            final(self)@ == (HeaderView { mtime, ..old(self)@ }),
    {
        self.mtime = mtime;
    }

    /// Sets the path.
    pub(crate) fn set_path(&mut self, path: Vec<u8>)
        ensures
            final(self)@ == (HeaderView { path: path@, ..old(self)@ }),
    {
        self.path = path;
    }

    /// Sets the link target.
    pub(crate) fn set_link_name(&mut self, target: Vec<u8>)
        ensures
            final(self)@ == (HeaderView { link_name: Some(target@), ..old(self)@ }),
    {
        self.link_name = Some(target);
    }
}

/// The number of bytes in a header block.
pub const BLOCK: u64 = 512;

/// How many zero bytes follow `size` bytes of data to fill the last block.
pub open spec fn padding_of(size: u64) -> u64 {
    ((512 - size % 512) % 512) as u64
}

/// How many zero bytes follow `size` bytes of data to fill the last block.
pub fn padding(size: u64) -> (pad: u64)
    ensures
        pad == padding_of(size),
        pad < 512,
        (size + pad) % 512 == 0,
{
    (BLOCK - size % BLOCK) % BLOCK
}

/// The path of a header block: the name field, preceded by the prefix field
/// and a slash where the block is of the POSIX format and has a prefix.
pub open spec fn block_path(block: Seq<u8>) -> Seq<u8> {
    let name = before_nul(block.subrange(0, 100));
    let prefix = before_nul(block.subrange(345, 500));
    if prefix.len() > 0 && block.subrange(257, 263) == seq![117u8, 115, 116, 97, 114, 0] {
        prefix + seq![47u8] + name
    } else {
        name
    }
}

/// The link target of a header block, where there is one.
pub open spec fn block_link(block: Seq<u8>) -> Option<Seq<u8>> {
    let link = before_nul(block.subrange(157, 257));
    if link.len() > 0 {
        Some(link)
    } else {
        None
    }
}

/// The mode of a header block.
pub open spec fn block_mode(block: Seq<u8>) -> Result<u32, Fault> {
    match number(block.subrange(100, 108)) {
        Ok(mode) => if mode <= u32::MAX {
            Ok(mode as u32)
        } else {
            Err(Fault::ModeTooLarge)
        },
        Err(fault) => Err(fault),
    }
}

/// The header that a block of 512 bytes holds, or what is wrong with the first
/// of its numbers that is wrong.
pub open spec fn block_header(block: Seq<u8>) -> Result<HeaderView, Fault> {
    match block_mode(block) {
        Err(fault) => Err(fault),
        Ok(mode) => match number(block.subrange(108, 116)) {
            Err(fault) => Err(fault),
            Ok(uid) => match number(block.subrange(116, 124)) {
                Err(fault) => Err(fault),
                Ok(gid) => match number(block.subrange(124, 136)) {
                    Err(fault) => Err(fault),
                    Ok(stored_size) => match signed_number(block.subrange(136, 148)) {
                        Err(fault) => Err(fault),
                        Ok(mtime) => Ok(
                            HeaderView {
                                path: block_path(block),
                                link_name: block_link(block),
                                mode,
                                uid,
                                gid,
                                stored_size,
                                mtime,
                                type_flag: block[156],
                            },
                        ),
                    },
                },
            },
        },
    }
}

/// The sum of bytes.
pub open spec fn byte_sum(s: Seq<u8>) -> int
    decreases s.len(),
{
    if s.len() == 0 {
        0
    } else {
        byte_sum(s.drop_last()) + s.last()
    }
}

/// A byte taken as a signed number.
pub open spec fn as_signed(byte: u8) -> int {
    if byte < 128 {
        byte as int
    } else {
        byte - 256
    }
}

/// The sum of bytes taken as signed numbers.
pub open spec fn signed_byte_sum(s: Seq<u8>) -> int
    decreases s.len(),
{
    if s.len() == 0 {
        0
    } else {
        signed_byte_sum(s.drop_last()) + as_signed(s.last())
    }
}

/// Eight spaces, which stand for the checksum while it is computed.
pub open spec fn blank_checksum() -> Seq<u8> {
    Seq::new(8, |i: int| 32u8)
}

/// A block with its checksum field blanked.
pub open spec fn blanked(block: Seq<u8>) -> Seq<u8> {
    block.take(148) + blank_checksum() + block.skip(156)
}

/// What `verify_checksum` says of a block: its checksum field holds the sum of
/// its bytes, taken as unsigned or as signed numbers, with that field blanked.
pub open spec fn checksum(block: Seq<u8>) -> Result<(), Fault> {
    match number(block.subrange(148, 156)) {
        Err(fault) => Err(fault),
        Ok(expected) => if expected == byte_sum(blanked(block)) || (expected <= i64::MAX
            && expected == signed_byte_sum(blanked(block))) {
            Ok(())
        } else {
            Err(Fault::ChecksumMismatch)
        },
    }
}

/// Reads a header block.
pub fn parse_header(block: &[u8]) -> (header: Result<Header, Fault>)
    requires
        block@.len() == 512,
    ensures
        header matches Ok(found) ==> block_header(block@) == Ok::<HeaderView, Fault>(found@),
        header matches Err(fault) ==> block_header(block@) == Err::<HeaderView, Fault>(fault),
{
    let name = nul_bytes(slice_subrange(block, 0, 100));
    let prefix = nul_bytes(slice_subrange(block, 345, 500));
    let posix: Vec<u8> = vec![117, 115, 116, 97, 114, 0];
    assert(posix@ =~= seq![117u8, 115, 116, 97, 114, 0]);
    let mut path: Vec<u8> = Vec::new();
    if prefix.len() > 0 && same_bytes(slice_subrange(block, 257, 263), posix.as_slice()) {
        append_bytes(&mut path, prefix);
        path.push(47);
        assert(path@ =~= prefix@ + seq![47u8]);
    }
    append_bytes(&mut path, name);
    assert(path@ =~= block_path(block@));
    let link = nul_bytes(slice_subrange(block, 157, 257));
    let link_name: Option<Vec<u8>> = if link.len() > 0 {
        Some(vstd::slice::slice_to_vec(link))
    } else {
        None
    };
    let wide_mode: u64 = parse_number(slice_subrange(block, 100, 108))?;
    if wide_mode > u32::MAX as u64 {
        return Err(Fault::ModeTooLarge);
    }
    let uid: u64 = parse_number(slice_subrange(block, 108, 116))?;
    let gid: u64 = parse_number(slice_subrange(block, 116, 124))?;
    let stored_size: u64 = parse_number(slice_subrange(block, 124, 136))?;
    let mtime: i64 = parse_signed_number(slice_subrange(block, 136, 148))?;
    Ok(
        Header {
            path,
            link_name,
            mode: wide_mode as u32,
            uid,
            gid,
            stored_size,
            mtime,
            type_flag: block[156],
        },
    )
}

/// Checks the checksum of a header block.
pub fn verify_checksum(block: &[u8]) -> (verdict: Result<(), Fault>)
    requires
        block@.len() == 512,
    ensures
        verdict == checksum(block@),
{
    let expected: u64 = parse_number(slice_subrange(block, 148, 156))?;
    let ghost whole = blanked(block@);
    let mut unsigned: u64 = 0;
    let mut signed: i64 = 0;
    let mut i: usize = 0;
    while i < 512
        invariant
            i <= 512,
            block@.len() == 512,
            whole == blanked(block@),
            unsigned == byte_sum(whole.take(i as int)),
            unsigned <= 255 * i,
            signed == signed_byte_sum(whole.take(i as int)),
            -128 * i <= signed <= 127 * i,
        decreases 512 - i,
    {
        let byte: u8 = if 148 <= i && i < 156 {
            32
        } else {
            block[i]
        };
        assert(whole.take(i + 1).drop_last() =~= whole.take(i as int));
        assert(whole.take(i + 1).last() == byte);
        unsigned = unsigned + byte as u64;
        if byte < 128 {
            signed = signed + byte as i64;
        } else {
            signed = signed + (byte as i64 - 256);
        }
        i = i + 1;
    }
    assert(whole.take(512) =~= whole);
    if expected == unsigned || (expected <= i64::MAX as u64 && expected as i64 == signed) {
        Ok(())
    } else {
        Err(Fault::ChecksumMismatch)
    }
}

/// The low octal digits of a number, most significant first.
pub open spec fn octal_digits(value: nat, digits: nat) -> Seq<u8>
    decreases digits,
{
    if digits == 0 {
        Seq::empty()
    } else {
        octal_digits(value / 8, (digits - 1) as nat).push((48 + value % 8) as u8)
    }
}

/// A number as an octal field that a zero byte ends.
pub open spec fn octal_field(value: nat, width: nat) -> Seq<u8> {
    octal_digits(value, (width - 1) as nat).push(0)
}

/// A byte string cut or filled up with zero bytes to a width.
pub open spec fn fixed(value: Seq<u8>, width: nat) -> Seq<u8> {
    if value.len() >= width {
        value.take(width as int)
    } else {
        value + zeros((width - value.len()) as nat)
    }
}

/// The fields of a written header before its checksum.
pub open spec fn front(header: HeaderView) -> Seq<u8> {
    fixed(header.path, 100) + octal_field(header.mode as nat, 8) + octal_field(
        header.uid as nat,
        8,
    ) + octal_field(header.gid as nat, 8) + octal_field(header.stored_size as nat, 12)
        + octal_field(header.mtime as nat, 12)
}

/// The magic and version of the GNU format.
pub open spec fn gnu_magic() -> Seq<u8> {
    seq![117u8, 115, 116, 97, 114, 32, 32, 0]
}

/// The fields of a written header after its checksum.
pub open spec fn back(header: HeaderView) -> Seq<u8> {
    seq![header.type_flag] + fixed(
        match header.link_name {
            Some(target) => target,
            None => Seq::empty(),
        },
        100,
    ) + gnu_magic() + zeros(247)
}

/// The checksum that is written into a header.
pub open spec fn written_sum(header: HeaderView) -> int {
    byte_sum(front(header) + blank_checksum() + back(header))
}

/// The block that is written for a header.
pub open spec fn header_block(header: HeaderView) -> Seq<u8> {
    front(header) + octal_digits(written_sum(header) as nat, 6) + seq![0u8, 32] + back(header)
}

/// What keeps a header from being written, the first such thing in the order
/// of the fields.
pub open spec fn header_fault(header: HeaderView) -> Option<Fault> {
    if header.mode >= power(8, 7) {
        Some(Fault::ModeTooWide)
    } else if header.uid >= power(8, 7) {
        Some(Fault::UidTooWide)
    } else if header.gid >= power(8, 7) {
        Some(Fault::GidTooWide)
    } else if header.stored_size >= power(8, 11) {
        Some(Fault::SizeTooWide)
    } else if header.mtime < 0 {
        Some(Fault::NegativeMtime)
    } else if header.mtime >= power(8, 11) {
        Some(Fault::MtimeTooWide)
    } else {
        None
    }
}

/// Adds the low octal digits of a number to a block under construction.
fn push_octal(out: &mut Vec<u8>, value: u64, digits: usize)
    ensures
        final(out)@ == old(out)@ + octal_digits(value as nat, digits as nat),
    decreases digits,
{
    let ghost before = out@;
    if digits > 0 {
        push_octal(out, value / 8, digits - 1);
        out.push(48 + (value % 8) as u8);
    }
    assert(out@ =~= before + octal_digits(value as nat, digits as nat));
}

/// Adds a byte string to a block under construction, cut or filled up with
/// zero bytes to a width.
fn write_bytes(out: &mut Vec<u8>, value: &[u8], width: usize)
    ensures
        final(out)@ == old(out)@ + fixed(value@, width as nat),
{
    let ghost before = out@;
    if value.len() >= width {
        append_bytes(out, slice_subrange(value, 0, width));
    } else {
        append_bytes(out, value);
        append_zeros(out, width - value.len());
    }
    assert(out@ =~= before + fixed(value@, width as nat));
}

/// Adds a number to a block under construction as an octal field, or reports
/// that it needs more digits than the field has.
fn write_octal(out: &mut Vec<u8>, value: u64, width: usize, too_wide: Fault) -> (done: Result<
    (),
    Fault,
>)
    requires
        1 <= width <= 22,
    ensures
        value < power(8, (width - 1) as nat) ==> done is Ok && final(out)@ == old(out)@
            + octal_field(value as nat, width as nat),
        value >= power(8, (width - 1) as nat) ==> done == Err::<(), Fault>(too_wide) && final(out)@
            == old(out)@,
{
    let ghost before = out@;
    let mut rest: u64 = value;
    let mut i: usize = 0;
    assert(power(8, 0) == 1);
    while i + 1 < width
        invariant
            i < width <= 22,
            value as nat / power(8, i as nat) == rest,
            power(8, i as nat) >= 1,
        decreases width - i,
    {
        proof {
            let p = power(8, i as nat);
            assert(power(8, (i + 1) as nat) == 8 * p);
            assert(value as nat / (p * 8) == (value as nat / p) / 8) by {
                vstd::arithmetic::div_mod::lemma_div_denominator(value as int, p as int, 8);
            }
            assert(8 * p == p * 8);
        }
        rest = rest / 8;
        i = i + 1;
    }
    proof {
        let p = power(8, (width - 1) as nat);
        assert((value as nat / p == 0) == (value < p)) by (nonlinear_arith)
            requires
                p >= 1,
        ;
    }
    if rest != 0 {
        return Err(too_wide);
    }
    push_octal(out, value, width - 1);
    out.push(0);
    assert(out@ =~= before + octal_field(value as nat, width as nat));
    Ok(())
}

/// The sum of the bytes of a block under construction.
fn sum_bytes(block: &[u8]) -> (sum: u64)
    requires
        block@.len() <= 512,
    ensures
        sum == byte_sum(block@),
        sum <= 255 * block@.len(),
{
    let mut sum: u64 = 0;
    let mut i: usize = 0;
    while i < block.len()
        invariant
            i <= block@.len() <= 512,
            sum == byte_sum(block@.take(i as int)),
            sum <= 255 * i,
        decreases block@.len() - i,
    {
        assert(block@.take(i + 1).drop_last() =~= block@.take(i as int));
        sum = sum + block[i] as u64;
        i = i + 1;
    }
    assert(block@.take(block@.len() as int) =~= block@);
    sum
}

/// Adds a checksum to a block under construction: six octal digits, a zero
/// byte and a space.
fn write_checksum(out: &mut Vec<u8>, sum: u64) -> (done: Result<(), Fault>)
    ensures
        sum < power(8, 6) ==> done is Ok && final(out)@ == old(out)@ + octal_digits(sum as nat, 6)
            + seq![0u8, 32],
        sum >= power(8, 6) ==> done == Err::<(), Fault>(Fault::ChecksumTooWide),
{
    let ghost before = out@;
    let done = write_octal(out, sum, 7, Fault::ChecksumTooWide);
    match done {
        Ok(()) => {
            out.push(32);
            assert(out@ =~= before + octal_digits(sum as nat, 6) + seq![0u8, 32]);
            Ok(())
        },
        Err(fault) => Err(fault),
    }
}

/// Sums add up over a concatenation.
pub proof fn lemma_byte_sum_adds(a: Seq<u8>, b: Seq<u8>)
    ensures
        byte_sum(a + b) == byte_sum(a) + byte_sum(b),
    decreases b.len(),
{
    if b.len() == 0 {
        assert(a + b =~= a);
    } else {
        lemma_byte_sum_adds(a, b.drop_last());
        assert((a + b).drop_last() =~= a + b.drop_last());
    }
}

/// Octal digits are as many as asked for.
pub proof fn lemma_octal_digits_len(value: nat, digits: nat)
    ensures
        octal_digits(value, digits).len() == digits,
    decreases digits,
{
    if digits > 0 {
        lemma_octal_digits_len(value / 8, (digits - 1) as nat);
    }
}

/// The two parts of a written header have fixed lengths.
pub proof fn lemma_header_lengths(header: HeaderView)
    ensures
        front(header).len() == 148,
        back(header).len() == 356,
        header_block(header).len() == 512,
{
    lemma_octal_digits_len(header.mode as nat, 7);
    lemma_octal_digits_len(header.uid as nat, 7);
    lemma_octal_digits_len(header.gid as nat, 7);
    lemma_octal_digits_len(header.stored_size as nat, 11);
    lemma_octal_digits_len(header.mtime as nat, 11);
    lemma_octal_digits_len(written_sum(header) as nat, 6);
}

/// Writes a header as a block.
pub fn encode_header(header: &Header) -> (block: Result<Vec<u8>, Fault>)
    ensures
        block matches Ok(bytes) ==> header_fault(header@) is None && bytes@ == header_block(
            header@,
        ),
        block matches Err(fault) ==> header_fault(header@) == Some(fault),
{
    let mut out: Vec<u8> = Vec::new();
    write_bytes(&mut out, header.path.as_slice(), 100);
    write_octal(&mut out, header.mode as u64, 8, Fault::ModeTooWide)?;
    write_octal(&mut out, header.uid, 8, Fault::UidTooWide)?;
    write_octal(&mut out, header.gid, 8, Fault::GidTooWide)?;
    write_octal(&mut out, header.stored_size, 12, Fault::SizeTooWide)?;
    if header.mtime < 0 {
        return Err(Fault::NegativeMtime);
    }
    write_octal(&mut out, header.mtime as u64, 12, Fault::MtimeTooWide)?;
    assert(out@ =~= front(header@));
    let mut rest: Vec<u8> = Vec::new();
    rest.push(header.type_flag);
    match &header.link_name {
        Some(target) => write_bytes(&mut rest, target.as_slice(), 100),
        None => append_zeros(&mut rest, 100),
    }
    let magic: Vec<u8> = vec![117, 115, 116, 97, 114, 32, 32, 0];
    assert(magic@ =~= gnu_magic());
    append_bytes(&mut rest, magic.as_slice());
    append_zeros(&mut rest, 247);
    assert(rest@ =~= back(header@));
    proof {
        lemma_header_lengths(header@);
        let blank = blank_checksum();
        lemma_byte_sum_adds(front(header@) + blank, back(header@));
        lemma_byte_sum_adds(front(header@), blank);
        reveal_with_fuel(byte_sum, 9);
        assert(byte_sum(blank) == 256);
        reveal_with_fuel(power, 7);
    }
    let sum: u64 = sum_bytes(out.as_slice()) + 256 + sum_bytes(rest.as_slice());
    write_checksum(&mut out, sum)?;
    append_bytes(&mut out, rest.as_slice());
    assert(out@ =~= header_block(header@));
    Ok(out)
}

/// The number that octal digits write is the number they were made of, if it
/// fits in that many digits.
proof fn lemma_octal_digits_value(value: nat, digits: nat)
    requires
        value < power(8, digits),
    ensures
        digits_value(octal_digits(value, digits), 8) == value,
        octal_digits(value, digits).len() == digits,
        forall|i: int| 0 <= i < digits ==> 48 <= #[trigger] octal_digits(value, digits)[i] <= 55,
    decreases digits,
{
    if digits > 0 {
        let rest = octal_digits(value / 8, (digits - 1) as nat);
        assert(value / 8 < power(8, (digits - 1) as nat)) by {
            assert(power(8, digits) == 8 * power(8, (digits - 1) as nat));
        }
        lemma_octal_digits_value(value / 8, (digits - 1) as nat);
        assert(octal_digits(value, digits).drop_last() =~= rest);
    }
}

/// A run of digits ends where the first other byte stands.
proof fn lemma_digits_end_at(s: Seq<u8>, from: int, at: int)
    requires
        0 <= from <= at < s.len(),
        forall|i: int| from <= i < at ==> 48 <= #[trigger] s[i] <= 57,
        !(48 <= s[at] <= 57),
    ensures
        digits_end(s, from) == at,
    decreases at - from,
{
    if from < at {
        lemma_digits_end_at(s, from + 1, at);
    }
}

/// A field of octal digits, followed by a byte that is no digit, is read as the
/// number that was written.
proof fn lemma_octal_reads_back(value: u64, digits: nat, tail: Seq<u8>)
    requires
        1 <= digits,
        value < power(8, digits),
        tail.len() > 0,
        !(48 <= tail[0] <= 57),
    ensures
        number(octal_digits(value as nat, digits) + tail) == Ok::<u64, Fault>(value),
        (octal_digits(value as nat, digits) + tail)[0] & 0x80 == 0,
{
    let text = octal_digits(value as nat, digits);
    let field = text + tail;
    lemma_octal_digits_value(value as nat, digits);
    let head: u8 = field[0];
    assert(head == text[0]);
    assert(head & 0x80 == 0) by (bit_vector)
        requires
            head <= 55,
    ;
    assert(blanks_end(field, 0) == 0);
    assert forall|i: int| 0 <= i < digits implies 48 <= #[trigger] field[i] <= 57 by {
        assert(field[i] == text[i]);
    }
    lemma_digits_end_at(field, 0, digits as int);
    assert(field_digits(field) =~= text);
}

/// A header that can be written has a block whose checksum holds and which is
/// read as that header, but for a path or a link target that its field cuts
/// off and for an empty link target.
pub proof fn law_written_header_is_read_back(header: HeaderView)
    requires
        header_fault(header) is None,
    ensures
        header_block(header).len() == 512,
        checksum(header_block(header)) == Ok::<(), Fault>(()),
        block_header(header_block(header)) == Ok::<HeaderView, Fault>(
            HeaderView {
                path: before_nul(fixed(header.path, 100)),
                link_name: {
                    let link = before_nul(
                        fixed(
                            match header.link_name {
                                Some(target) => target,
                                None => Seq::empty(),
                            },
                            100,
                        ),
                    );
                    if link.len() > 0 {
                        Some(link)
                    } else {
                        None
                    }
                },
                ..header
            },
        ),
{
    let block = header_block(header);
    let sum = written_sum(header);
    lemma_header_lengths(header);
    lemma_octal_digits_len(header.mode as nat, 7);
    lemma_octal_digits_len(header.uid as nat, 7);
    lemma_octal_digits_len(header.gid as nat, 7);
    lemma_octal_digits_len(header.stored_size as nat, 11);
    lemma_octal_digits_len(header.mtime as nat, 11);
    lemma_octal_digits_len(sum as nat, 6);
    // The checksum.
    lemma_byte_sum_bounds(front(header) + blank_checksum() + back(header));
    reveal_with_fuel(power, 12);
    assert(block.take(148) =~= front(header));
    assert(block.skip(156) =~= back(header));
    assert(blanked(block) == front(header) + blank_checksum() + back(header));
    assert(block.subrange(148, 156) =~= octal_digits(sum as nat, 6) + seq![0u8, 32]);
    lemma_octal_reads_back(sum as u64, 6, seq![0u8, 32]);
    // The numbers.
    let end = seq![0u8];
    assert(block.subrange(100, 108) =~= octal_digits(header.mode as nat, 7) + end);
    lemma_octal_reads_back(header.mode as u64, 7, end);
    assert(block.subrange(108, 116) =~= octal_digits(header.uid as nat, 7) + end);
    lemma_octal_reads_back(header.uid, 7, end);
    assert(block.subrange(116, 124) =~= octal_digits(header.gid as nat, 7) + end);
    lemma_octal_reads_back(header.gid, 7, end);
    assert(block.subrange(124, 136) =~= octal_digits(header.stored_size as nat, 11) + end);
    lemma_octal_reads_back(header.stored_size, 11, end);
    assert(block.subrange(136, 148) =~= octal_digits(header.mtime as nat, 11) + end);
    lemma_octal_reads_back(header.mtime as u64, 11, end);
    // The strings.
    assert(block.subrange(0, 100) =~= fixed(header.path, 100));
    assert(block.subrange(157, 257) =~= fixed(
        match header.link_name {
            Some(target) => target,
            None => Seq::empty(),
        },
        100,
    ));
    assert(block[156] == header.type_flag);
    assert(block.subrange(257, 263)[5] == 32);
}

/// A header that is written has the magic of the GNU format and zero bytes in
/// all fields after it, which are not used.
pub proof fn law_unused_fields_are_zero(header: HeaderView)
    ensures
        header_block(header).subrange(257, 265) == gnu_magic(),
        forall|i: int| 265 <= i < 512 ==> #[trigger] header_block(header)[i] == 0,
{
    lemma_header_lengths(header);
    lemma_octal_digits_len(written_sum(header) as nat, 6);
    let block = header_block(header);
    assert(block.skip(156) =~= back(header));
    assert forall|i: int| 265 <= i < 512 implies #[trigger] block[i] == 0 by {
        assert(block[i] == back(header)[i - 156]);
    }
    assert(block.subrange(257, 265) =~= gnu_magic());
}

/// The sum of bytes lies between nothing and the largest byte for each.
pub proof fn lemma_byte_sum_bounds(s: Seq<u8>)
    ensures
        0 <= byte_sum(s) <= 255 * s.len(),
    decreases s.len(),
{
    if s.len() > 0 {
        lemma_byte_sum_bounds(s.drop_last());
    }
}

/// A byte string without zero bytes that fits in its field is what is found
/// before the first zero byte of that field.
pub proof fn lemma_fixed_keeps(value: Seq<u8>, width: nat)
    requires
        value.len() <= width,
        forall|i: int| 0 <= i < value.len() ==> #[trigger] value[i] != 0,
    ensures
        before_nul(fixed(value, width)) == value,
{
    let field = fixed(value, width);
    lemma_first_at_is(field, 0, 0, value.len() as int);
    assert(before_nul(field) =~= value);
}

} // verus!
