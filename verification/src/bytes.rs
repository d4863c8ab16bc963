//! Byte strings: comparing, searching and cutting them.

use vstd::prelude::*;
use vstd::slice::{slice_subrange, slice_to_vec};

verus! {

/// The bytes of a text.
pub open spec fn text(chars: Seq<char>) -> Seq<u8> {
    vstd::utf8::encode_utf8(chars)
}

/// A run of zero bytes.
pub open spec fn zeros(len: nat) -> Seq<u8> {
    Seq::new(len, |i: int| 0u8)
}

/// The first place at or after `from` that holds `byte`, or the end.
pub open spec fn first_at(s: Seq<u8>, from: int, byte: u8) -> int
    decreases s.len() - from,
{
    if from >= s.len() || s[from] == byte {
        from
    } else {
        first_at(s, from + 1, byte)
    }
}

/// The bytes before the first zero byte, or all of them.
pub open spec fn before_nul(s: Seq<u8>) -> Seq<u8> {
    s.take(first_at(s, 0, 0))
}

/// Byte-wise lexicographic order.
pub open spec fn bytes_less(a: Seq<u8>, b: Seq<u8>) -> bool
    decreases b.len(),
{
    if b.len() == 0 {
        false
    } else if a.len() == 0 {
        true
    } else if a[0] != b[0] {
        a[0] < b[0]
    } else {
        bytes_less(a.skip(1), b.skip(1))
    }
}

/// `first_at` lies between where it starts and the end, on the byte unless it
/// is the end, and nothing before it is the byte.
pub proof fn lemma_first_at(s: Seq<u8>, from: int, byte: u8)
    requires
        0 <= from <= s.len(),
    ensures
        from <= first_at(s, from, byte) <= s.len(),
        first_at(s, from, byte) < s.len() ==> s[first_at(s, from, byte)] == byte,
        forall|i: int| from <= i < first_at(s, from, byte) ==> s[i] != byte,
    decreases s.len() - from,
{
    if from < s.len() && s[from] != byte {
        lemma_first_at(s, from + 1, byte);
    }
}

/// The place of the first such byte is the only one with that property.
pub proof fn lemma_first_at_is(s: Seq<u8>, from: int, byte: u8, at: int)
    requires
        0 <= from <= at <= s.len(),
        at < s.len() ==> s[at] == byte,
        forall|i: int| from <= i < at ==> s[i] != byte,
    ensures
        first_at(s, from, byte) == at,
    decreases at - from,
{
    if from < at {
        lemma_first_at_is(s, from + 1, byte, at);
    }
}

/// Byte-wise order is total: of two different strings one comes first.
pub proof fn lemma_bytes_less_total(a: Seq<u8>, b: Seq<u8>)
    ensures
        a == b || bytes_less(a, b) || bytes_less(b, a),
    decreases a.len(),
{
    if a.len() == 0 || b.len() == 0 {
        assert(a.len() == 0 && b.len() == 0 ==> a =~= b);
    } else if a[0] == b[0] {
        lemma_bytes_less_total(a.skip(1), b.skip(1));
        if a.skip(1) == b.skip(1) {
            assert(a =~= seq![a[0]] + a.skip(1));
            assert(b =~= seq![b[0]] + b.skip(1));
        }
    }
}

/// Byte-wise order is strict: no string comes before itself, and not both of
/// two strings come before the other.
pub proof fn lemma_bytes_less_strict(a: Seq<u8>, b: Seq<u8>)
    requires
        bytes_less(a, b),
    ensures
        a != b,
        !bytes_less(b, a),
    decreases a.len(),
{
    if a.len() > 0 && a[0] == b[0] {
        lemma_bytes_less_strict(a.skip(1), b.skip(1));
    }
}

/// Byte-wise order is transitive.
pub proof fn lemma_bytes_less_transitive(a: Seq<u8>, b: Seq<u8>, c: Seq<u8>)
    requires
        bytes_less(a, b),
        bytes_less(b, c),
    ensures
        bytes_less(a, c),
    decreases a.len(),
{
    if a.len() > 0 && a[0] == b[0] && b[0] == c[0] {
        lemma_bytes_less_transitive(a.skip(1), b.skip(1), c.skip(1));
    }
}

/// Whether two byte strings are equal.
pub fn same_bytes(a: &[u8], b: &[u8]) -> (same: bool)
    ensures
        same == (a@ == b@),
{
    if a.len() != b.len() {
        return false;
    }
    let mut i: usize = 0;
    while i < a.len()
        invariant
            a@.len() == b@.len(),
            i <= a@.len(),
            forall|j: int| 0 <= j < i ==> a@[j] == b@[j],
        decreases a@.len() - i,
    {
        if a[i] != b[i] {
            return false;
        }
        i = i + 1;
    }
    assert(a@ =~= b@);
    true
}

/// Whether `a` begins with `prefix`.
pub fn begins_with(a: &[u8], prefix: &[u8]) -> (yes: bool)
    ensures
        yes == prefix@.is_prefix_of(a@),
{
    if a.len() < prefix.len() {
        return false;
    }
    same_bytes(slice_subrange(a, 0, prefix.len()), prefix)
}

/// Whether `a` comes before `b`.
pub fn comes_before(a: &[u8], b: &[u8]) -> (yes: bool)
    ensures
        yes == bytes_less(a@, b@),
{
    let mut i: usize = 0;
    assert(a@.skip(0) =~= a@);
    assert(b@.skip(0) =~= b@);
    while i < a.len() && i < b.len() && a[i] == b[i]
        invariant
            i <= a@.len(),
            i <= b@.len(),
            bytes_less(a@, b@) == bytes_less(a@.skip(i as int), b@.skip(i as int)),
        decreases a@.len() - i,
    {
        assert(a@.skip(i as int).skip(1) =~= a@.skip(i + 1));
        assert(b@.skip(i as int).skip(1) =~= b@.skip(i + 1));
        i = i + 1;
    }
    if i >= b.len() {
        false
    } else if i >= a.len() {
        true
    } else {
        a[i] < b[i]
    }
}

/// The first place at or after `from` that holds `byte`, or the end.
pub fn find_from(s: &[u8], from: usize, byte: u8) -> (at: usize)
    requires
        from <= s@.len(),
    ensures
        at == first_at(s@, from as int, byte),
        from <= at <= s@.len(),
{
    let mut i: usize = from;
    while i < s.len() && s[i] != byte
        invariant
            from <= i <= s@.len(),
            first_at(s@, from as int, byte) == first_at(s@, i as int, byte),
        decreases s@.len() - i,
    {
        i = i + 1;
    }
    i
}

/// A copy of the bytes from `from` up to `to`.
pub fn copy_range(s: &[u8], from: usize, to: usize) -> (out: Vec<u8>)
    requires
        from <= to <= s@.len(),
    ensures
        out@ == s@.subrange(from as int, to as int),
{
    slice_to_vec(slice_subrange(s, from, to))
}

/// Adds a copy of `more` at the end of `out`.
pub fn append_bytes(out: &mut Vec<u8>, more: &[u8])
    ensures
        final(out)@ == old(out)@ + more@,
{
    let ghost before = out@;
    out.extend_from_slice(more);
    assert(out@ =~= before + more@);
}

/// Adds `count` zero bytes at the end of `out`.
pub fn append_zeros(out: &mut Vec<u8>, count: usize)
    ensures
        final(out)@ == old(out)@ + zeros(count as nat),
{
    let ghost before = out@;
    let mut i: usize = 0;
    while i < count
        invariant
            i <= count,
            out@ =~= before + zeros(i as nat),
        decreases count - i,
    {
        out.push(0);
        i = i + 1;
    }
}

/// The bytes before the first zero byte, or all of them.
pub fn nul_bytes(bytes: &[u8]) -> (out: &[u8])
    ensures
        out@ == before_nul(bytes@),
{
    let end: usize = find_from(bytes, 0, 0);
    slice_subrange(bytes, 0, end)
}

} // verus!
