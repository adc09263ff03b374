//! Little-endian fields of byte sequences, and overwriting a range of one.

use vstd::prelude::*;
use vstd::slice::slice_subrange;

verus! {

/// The two-byte little-endian field of `s` at `at`.
#[verifier::opaque]
pub open spec fn le16(s: Seq<u8>, at: int) -> u16 {
    (s[at] + 0x100 * s[at + 1]) as u16
}

/// The four-byte little-endian field of `s` at `at`.
#[verifier::opaque]
pub open spec fn le32(s: Seq<u8>, at: int) -> u32 {
    (le16(s, at) + 0x1_0000 * le16(s, at + 2)) as u32
}

/// The eight-byte little-endian field of `s` at `at`.
#[verifier::opaque]
pub open spec fn le64(s: Seq<u8>, at: int) -> u64 {
    (le32(s, at) + 0x1_0000_0000 * le32(s, at + 4)) as u64
}

/// The two bytes of `x`, least significant first.
#[verifier::opaque]
pub open spec fn le16_bytes(x: u16) -> Seq<u8> {
    seq![(x % 0x100) as u8, (x / 0x100) as u8]
}

/// The four bytes of `x`, least significant first.
#[verifier::opaque]
pub open spec fn le32_bytes(x: u32) -> Seq<u8> {
    le16_bytes((x % 0x1_0000) as u16) + le16_bytes((x / 0x1_0000) as u16)
}

/// The eight bytes of `x`, least significant first.
#[verifier::opaque]
pub open spec fn le64_bytes(x: u64) -> Seq<u8> {
    le32_bytes((x % 0x1_0000_0000) as u32) + le32_bytes((x / 0x1_0000_0000) as u32)
}

/// `s` with the bytes from `at` on overwritten by `data`.
pub open spec fn patched(s: Seq<u8>, at: int, data: Seq<u8>) -> Seq<u8> {
    Seq::new(
        s.len(),
        |i: int|
            if at <= i < at + data.len() {
                data[i - at]
            } else {
                s[i]
            },
    )
}

/// Reads the two-byte field at `at`.
pub fn read_le16(bytes: &[u8], at: usize) -> (value: u16)
    requires
        at + 2 <= bytes.len(),
    ensures
        value == le16(bytes@, at as int),
{
    reveal(le16);
    bytes[at] as u16 + 0x100 * (bytes[at + 1] as u16)
}

/// Reads the four-byte field at `at`.
pub fn read_le32(bytes: &[u8], at: usize) -> (value: u32)
    requires
        at + 4 <= bytes.len(),
    ensures
        value == le32(bytes@, at as int),
{
    reveal(le32);
    read_le16(bytes, at) as u32 + 0x1_0000 * (read_le16(bytes, at + 2) as u32)
}

/// Reads the eight-byte field at `at`.
pub fn read_le64(bytes: &[u8], at: usize) -> (value: u64)
    requires
        at + 8 <= bytes.len(),
    ensures
        value == le64(bytes@, at as int),
{
    reveal(le64);
    read_le32(bytes, at) as u64 + 0x1_0000_0000 * (read_le32(bytes, at + 4) as u64)
}

/// Appends the two bytes of `x`.
pub fn push_le16(bytes: &mut Vec<u8>, x: u16)
    ensures
        final(bytes)@ == old(bytes)@ + le16_bytes(x),
{
    reveal(le16_bytes);
    let ghost before = bytes@;
    bytes.push((x % 0x100) as u8);
    bytes.push((x / 0x100) as u8);
    assert(bytes@ =~= before + le16_bytes(x));
}

/// Appends the four bytes of `x`.
pub fn push_le32(bytes: &mut Vec<u8>, x: u32)
    ensures
        final(bytes)@ == old(bytes)@ + le32_bytes(x),
{
    reveal(le32_bytes);
    let ghost before = bytes@;
    push_le16(bytes, (x % 0x1_0000) as u16);
    push_le16(bytes, (x / 0x1_0000) as u16);
    assert(bytes@ =~= before + le32_bytes(x));
}

/// Appends the eight bytes of `x`.
pub fn push_le64(bytes: &mut Vec<u8>, x: u64)
    ensures
        final(bytes)@ == old(bytes)@ + le64_bytes(x),
{
    reveal(le64_bytes);
    let ghost before = bytes@;
    push_le32(bytes, (x % 0x1_0000_0000) as u32);
    push_le32(bytes, (x / 0x1_0000_0000) as u32);
    assert(bytes@ =~= before + le64_bytes(x));
}

/// The two bytes of `x`.
pub fn encode_le16(x: u16) -> (bytes: Vec<u8>)
    ensures
        bytes@ == le16_bytes(x),
{
    let mut bytes: Vec<u8> = Vec::new();
    push_le16(&mut bytes, x);
    assert(bytes@ =~= le16_bytes(x));
    bytes
}

/// The eight bytes of `x`.
pub fn encode_le64(x: u64) -> (bytes: Vec<u8>)
    ensures
        bytes@ == le64_bytes(x),
{
    let mut bytes: Vec<u8> = Vec::new();
    push_le64(&mut bytes, x);
    assert(bytes@ =~= le64_bytes(x));
    bytes
}

/// Overwrites the bytes from `at` on with `data`.
pub fn overwrite(bytes: &mut Vec<u8>, at: usize, data: &[u8])
    requires
        at + data.len() <= old(bytes).len(),
    ensures
        final(bytes)@ == patched(old(bytes)@, at as int, data@),
{
    let ghost before = bytes@;
    let mut i: usize = 0;
    while i < data.len()
        invariant
            i <= data@.len(),
            at + data.len() <= bytes.len(),
            bytes@ == patched(before, at as int, data@.take(i as int)),
            before.len() == bytes@.len(),
        decreases data@.len() - i,
    {
        bytes.set(at + i, data[i]);
        i = i + 1;
        assert(bytes@ =~= patched(before, at as int, data@.take(i as int)));
    }
    assert(data@.take(i as int) =~= data@);
}

/// A copy of `length` bytes of `bytes` from `at` on.
pub fn copy_range(bytes: &[u8], at: usize, length: usize) -> (copy: Vec<u8>)
    requires
        at + length <= bytes.len(),
    ensures
        copy@ == bytes@.subrange(at as int, at + length),
{
    vstd::slice::slice_to_vec(slice_subrange(bytes, at, at + length))
}

/// Tests two byte sequences for equality.
pub fn same_bytes(left: &[u8], right: &[u8]) -> (same: bool)
    ensures
        same == (left@ == right@),
{
    if left.len() != right.len() {
        return false;
    }
    let mut i: usize = 0;
    while i < left.len()
        invariant
            left@.len() == right@.len(),
            i <= left@.len(),
            forall|j: int| 0 <= j < i ==> left@[j] == right@[j],
        decreases left@.len() - i,
    {
        if left[i] != right[i] {
            assert(left@[i as int] != right@[i as int]);
            return false;
        }
        i = i + 1;
    }
    assert(left@ =~= right@);
    true
}

/// Equal bytes hold equal fields.
pub proof fn lemma_same_fields(s: Seq<u8>, at: int, t: Seq<u8>, other: int, width: int)
    requires
        forall|i: int| 0 <= i < width ==> #[trigger] s[at + i] == t[other + i],
    ensures
        width >= 2 ==> le16(s, at) == le16(t, other),
        width >= 4 ==> le32(s, at) == le32(t, other),
        width >= 8 ==> le64(s, at) == le64(t, other),
{
    reveal(le16);
    reveal(le32);
    reveal(le64);
    if width >= 2 {
        assert(s[at + 0] == t[other + 0]);
        assert(s[at + 1] == t[other + 1]);
    }
    if width >= 4 {
        assert(s[at + 2] == t[other + 2]);
        assert(s[at + 3] == t[other + 3]);
    }
    if width >= 8 {
        assert(s[at + 4] == t[other + 4]);
        assert(s[at + 5] == t[other + 5]);
        assert(s[at + 6] == t[other + 6]);
        assert(s[at + 7] == t[other + 7]);
        assert(le16(s, at + 4) == le16(t, other + 4));
        assert(le16(s, at + 6) == le16(t, other + 6));
        assert(le32(s, at + 4) == le32(t, other + 4));
    }
}

/// A field is the sum of its bytes, each of them 256 times as much as the one in front
/// of it.
pub proof fn law_little_endian(s: Seq<u8>, at: int)
    ensures
        le16(s, at) == s[at] + 0x100 * s[at + 1],
        le32(s, at) == s[at] + 0x100 * s[at + 1] + 0x1_0000 * s[at + 2] + 0x100_0000 * s[at + 3],
        le64(s, at) == s[at] + 0x100 * s[at + 1] + 0x1_0000 * s[at + 2] + 0x100_0000 * s[at + 3]
            + 0x1_0000_0000 * s[at + 4] + 0x100_0000_0000 * s[at + 5] + 0x1_0000_0000_0000 * s[at
            + 6] + 0x100_0000_0000_0000 * s[at + 7],
{
    reveal(le16);
    reveal(le32);
    reveal(le64);
}

/// Encodings have their widths, and decoding gives back what was encoded.
pub proof fn lemma_le_fields()
    ensures
        forall|x: u16| (#[trigger] le16_bytes(x)).len() == 2,
        forall|x: u32| (#[trigger] le32_bytes(x)).len() == 4,
        forall|x: u64| (#[trigger] le64_bytes(x)).len() == 8,
        forall|x: u16| le16(#[trigger] le16_bytes(x), 0) == x,
        forall|x: u32| le32(#[trigger] le32_bytes(x), 0) == x,
        forall|x: u64| le64(#[trigger] le64_bytes(x), 0) == x,
{
    reveal(le16_bytes);
    reveal(le32_bytes);
    reveal(le64_bytes);
    assert forall|x: u16| le16(#[trigger] le16_bytes(x), 0) == x by {
        reveal(le16);
    }
    assert forall|x: u32| le32(#[trigger] le32_bytes(x), 0) == x by {
        reveal(le32);
        let low = le16_bytes((x % 0x1_0000) as u16);
        let high = le16_bytes((x / 0x1_0000) as u16);
        lemma_same_fields(le32_bytes(x), 0, low, 0, 2);
        lemma_same_fields(le32_bytes(x), 2, high, 0, 2);
    }
    assert forall|x: u64| le64(#[trigger] le64_bytes(x), 0) == x by {
        reveal(le64);
        let low = le32_bytes((x % 0x1_0000_0000) as u32);
        let high = le32_bytes((x / 0x1_0000_0000) as u32);
        lemma_same_fields(le64_bytes(x), 0, low, 0, 4);
        lemma_same_fields(le64_bytes(x), 4, high, 0, 4);
    }
}

/// Encoding a two-byte field gives its bytes.
proof fn lemma_le16_bytes(s: Seq<u8>, at: int)
    requires
        0 <= at,
        at + 2 <= s.len(),
    ensures
        le16_bytes(le16(s, at)) == s.subrange(at, at + 2),
{
    reveal(le16);
    reveal(le16_bytes);
    assert(le16_bytes(le16(s, at)) =~= s.subrange(at, at + 2));
}

/// Encoding a four-byte field gives its bytes.
proof fn lemma_le32_bytes(s: Seq<u8>, at: int)
    requires
        0 <= at,
        at + 4 <= s.len(),
    ensures
        le32_bytes(le32(s, at)) == s.subrange(at, at + 4),
{
    reveal(le32);
    reveal(le32_bytes);
    lemma_le16_bytes(s, at);
    lemma_le16_bytes(s, at + 2);
    assert(le32(s, at) % 0x1_0000 == le16(s, at));
    assert(le32(s, at) / 0x1_0000 == le16(s, at + 2));
    assert(le32_bytes(le32(s, at)) =~= s.subrange(at, at + 4));
}

/// Encoding an eight-byte field gives its bytes.
pub proof fn lemma_le64_bytes(s: Seq<u8>, at: int)
    requires
        0 <= at,
        at + 8 <= s.len(),
    ensures
        le64_bytes(le64(s, at)) == s.subrange(at, at + 8),
{
    reveal(le64);
    reveal(le64_bytes);
    lemma_le32_bytes(s, at);
    lemma_le32_bytes(s, at + 4);
    assert(le64(s, at) % 0x1_0000_0000 == le32(s, at));
    assert(le64(s, at) / 0x1_0000_0000 == le32(s, at + 4));
    assert(le64_bytes(le64(s, at)) =~= s.subrange(at, at + 8));
}

/// A field of zero bytes is zero.
pub proof fn lemma_zero_fields(s: Seq<u8>, at: int, width: int)
    requires
        forall|i: int| 0 <= i < width ==> #[trigger] s[at + i] == 0,
    ensures
        width >= 2 ==> le16(s, at) == 0,
        width >= 8 ==> le64(s, at) == 0,
{
    reveal(le16);
    reveal(le32);
    reveal(le64);
    if width >= 2 {
        assert(s[at + 0] == 0);
        assert(s[at + 1] == 0);
    }
    if width >= 8 {
        assert(s[at + 2] == 0);
        assert(s[at + 3] == 0);
        assert(s[at + 4] == 0);
        assert(s[at + 5] == 0);
        assert(s[at + 6] == 0);
        assert(s[at + 7] == 0);
    }
}

/// An overwritten field reads back as what was written, and a field that the
/// overwriting does not meet stays as it was.
pub proof fn lemma_patched_fields(s: Seq<u8>, at: int, data: Seq<u8>, field: int)
    requires
        0 <= at,
        at + data.len() <= s.len(),
        0 <= field,
    ensures
        field + 2 <= s.len() && (field + 2 <= at || at + data.len() <= field) ==> le16(
            patched(s, at, data),
            field,
        ) == le16(s, field),
        field + 8 <= s.len() && (field + 8 <= at || at + data.len() <= field) ==> le64(
            patched(s, at, data),
            field,
        ) == le64(s, field),
        at <= field && field + 2 <= at + data.len() ==> le16(patched(s, at, data), field) == le16(
            data,
            field - at,
        ),
        at <= field && field + 8 <= at + data.len() ==> le64(patched(s, at, data), field) == le64(
            data,
            field - at,
        ),
{
    let after = patched(s, at, data);
    if field + 2 <= s.len() && (field + 2 <= at || at + data.len() <= field) {
        lemma_same_fields(after, field, s, field, 2);
    }
    if field + 8 <= s.len() && (field + 8 <= at || at + data.len() <= field) {
        lemma_same_fields(after, field, s, field, 8);
    }
    if at <= field && field + 2 <= at + data.len() {
        lemma_same_fields(after, field, data, field - at, 2);
    }
    if at <= field && field + 8 <= at + data.len() {
        lemma_same_fields(after, field, data, field - at, 8);
    }
}

} // verus!
