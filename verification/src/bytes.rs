//! Little-endian integers inside byte sequences.

use vstd::prelude::*;

verus! {

/// The little-endian value of the two bytes of `s` that start at `at`.
pub open spec fn le16_at(s: Seq<u8>, at: int) -> u16 {
    (s[at] + 0x100 * s[at + 1]) as u16
}

/// The little-endian value of the four bytes of `s` that start at `at`.
pub open spec fn le32_at(s: Seq<u8>, at: int) -> u32 {
    (s[at] + 0x100 * s[at + 1] + 0x1_0000 * s[at + 2] + 0x100_0000 * s[at + 3]) as u32
}

/// The little-endian value of the eight bytes of `s` that start at `at`.
pub open spec fn le64_at(s: Seq<u8>, at: int) -> u64 {
    (le32_at(s, at) + 0x1_0000_0000 * le32_at(s, at + 4)) as u64
}

/// The two bytes of `x`, least significant first.
pub open spec fn le16(x: u16) -> Seq<u8> {
    seq![(x % 0x100) as u8, (x / 0x100) as u8]
}

/// The four bytes of `x`, least significant first.
pub open spec fn le32(x: u32) -> Seq<u8> {
    seq![
        (x % 0x100) as u8,
        (x / 0x100 % 0x100) as u8,
        (x / 0x1_0000 % 0x100) as u8,
        (x / 0x100_0000) as u8,
    ]
}

/// The eight bytes of `x`, least significant first.
pub open spec fn le64(x: u64) -> Seq<u8> {
    le32((x % 0x1_0000_0000) as u32) + le32((x / 0x1_0000_0000) as u32)
}

/// `s` with the bytes from `at` on replaced by `b`.
pub open spec fn splice(s: Seq<u8>, at: int, b: Seq<u8>) -> Seq<u8> {
    s.take(at) + b + s.skip(at + b.len())
}

/// `n` rounded up to a multiple of 8.
pub open spec fn align8(n: int) -> int {
    (n + 7) / 8 * 8
}

/// `n` zero bytes.
pub open spec fn zeros(n: int) -> Seq<u8> {
    Seq::new(n as nat, |i: int| 0u8)
}

/// `s` with zero bytes appended up to the next multiple of 8.
pub open spec fn pad8(s: Seq<u8>) -> Seq<u8> {
    s + zeros(align8(s.len() as int) - s.len())
}

/// Reads a little-endian `u16` at `offset`.
pub fn read_u16(buf: &[u8], offset: usize) -> (value: u16)
    requires
        offset + 2 <= buf@.len(),
    ensures
        value == le16_at(buf@, offset as int),
{
    buf[offset] as u16 + 0x100 * buf[offset + 1] as u16
}

/// Reads a little-endian `u32` at `offset`.
pub fn read_u32(buf: &[u8], offset: usize) -> (value: u32)
    requires
        offset + 4 <= buf@.len(),
    ensures
        value == le32_at(buf@, offset as int),
{
    buf[offset] as u32 + 0x100 * buf[offset + 1] as u32 + 0x1_0000 * buf[offset + 2] as u32
        + 0x100_0000 * buf[offset + 3] as u32
}

/// Reads a little-endian `u64` at `offset`.
pub fn read_u64(buf: &[u8], offset: usize) -> (value: u64)
    requires
        offset + 8 <= buf@.len(),
    ensures
        value == le64_at(buf@, offset as int),
{
    assert(offset + 8 <= buf.len());
    read_u32(buf, offset) as u64 + 0x1_0000_0000 * read_u32(buf, offset + 4) as u64
}

/// Appends the two bytes of `x`.
pub fn push_u16(out: &mut Vec<u8>, x: u16)
    ensures
        final(out)@ == old(out)@ + le16(x),
{
    out.push((x % 0x100) as u8);
    out.push((x / 0x100) as u8);
    assert(out@ =~= old(out)@ + le16(x));
}

/// Appends the four bytes of `x`.
pub fn push_u32(out: &mut Vec<u8>, x: u32)
    ensures
        final(out)@ == old(out)@ + le32(x),
{
    out.push((x % 0x100) as u8);
    out.push((x / 0x100 % 0x100) as u8);
    out.push((x / 0x1_0000 % 0x100) as u8);
    out.push((x / 0x100_0000) as u8);
    assert(out@ =~= old(out)@ + le32(x));
}

/// Appends the eight bytes of `x`.
pub fn push_u64(out: &mut Vec<u8>, x: u64)
    ensures
        final(out)@ == old(out)@ + le64(x),
{
    push_u32(out, (x % 0x1_0000_0000) as u32);
    push_u32(out, (x / 0x1_0000_0000) as u32);
    assert(out@ =~= old(out)@ + le64(x));
}

/// Appends `bytes`.
pub fn push_all(out: &mut Vec<u8>, bytes: &[u8])
    ensures
        final(out)@ == old(out)@ + bytes@,
{
    out.extend_from_slice(bytes);
    assert(out@ =~= old(out)@ + bytes@);
}

/// Appends `n` zero bytes.
pub fn push_zeros(out: &mut Vec<u8>, n: usize)
    ensures
        final(out)@ == old(out)@ + zeros(n as int),
{
    let mut i: usize = 0;
    while i < n
        invariant
            i <= n,
            out@ == old(out)@ + zeros(i as int),
        decreases n - i,
    {
        out.push(0);
        assert(out@ =~= old(out)@ + zeros(i + 1));
        i += 1;
    }
    assert(out@ =~= old(out)@ + zeros(n as int));
}

/// Overwrites the bytes of `buf` from `at` on with `bytes`.
pub fn overwrite(buf: &mut [u8], at: usize, bytes: &[u8])
    requires
        at + bytes@.len() <= old(buf)@.len(),
    ensures
        final(buf)@ == splice(old(buf)@, at as int, bytes@),
{
    let len: usize = buf.len();
    let mut i: usize = 0;
    while i < bytes.len()
        invariant
            i <= bytes@.len(),
            at + bytes@.len() <= len,
            len == old(buf)@.len(),
            buf@.len() == old(buf)@.len(),
            forall|k: int|
                0 <= k < buf@.len() ==> buf@[k] == if at <= k < at + i {
                    bytes@[k - at]
                } else {
                    old(buf)@[k]
                },
        decreases bytes@.len() - i,
    {
        buf[at + i] = bytes[i];
        i += 1;
    }
    assert(buf@ =~= splice(old(buf)@, at as int, bytes@));
}

/// Rounds `n` up to a multiple of 8.
pub fn align_8(n: usize) -> (r: usize)
    requires
        n + 7 <= usize::MAX,
    ensures
        r == align8(n as int),
{
    (n + 7) / 8 * 8
}

/// The bytes of `buf` from `from` up to `to`.
pub fn copy_range(buf: &[u8], from: usize, to: usize) -> (out: Vec<u8>)
    requires
        from <= to <= buf@.len(),
    ensures
        out@ == buf@.subrange(from as int, to as int),
{
    let mut out: Vec<u8> = Vec::new();
    out.extend_from_slice(&buf[from..to]);
    assert(out@ =~= buf@.subrange(from as int, to as int));
    out
}

/// Rounding up to a multiple of 8 gives the least multiple that is not smaller.
pub proof fn lemma_align8(n: int)
    requires
        0 <= n,
    ensures
        align8(n) % 8 == 0,
        n <= align8(n) < n + 8,
{
}

/// Writing a `u16` and reading it back gives the same number.
pub proof fn lemma_le16_round_trip(s: Seq<u8>, at: int, x: u16)
    requires
        0 <= at,
        at + 2 <= s.len(),
        s.subrange(at, at + 2) == le16(x),
    ensures
        le16_at(s, at) == x,
{
    let b = s.subrange(at, at + 2);
    assert(b[0] == s[at] && b[1] == s[at + 1]);
}

/// Writing a `u32` and reading it back gives the same number.
pub proof fn lemma_le32_round_trip(s: Seq<u8>, at: int, x: u32)
    requires
        0 <= at,
        at + 4 <= s.len(),
        s.subrange(at, at + 4) == le32(x),
    ensures
        le32_at(s, at) == x,
{
    let b = s.subrange(at, at + 4);
    assert(b[0] == s[at] && b[1] == s[at + 1] && b[2] == s[at + 2] && b[3] == s[at + 3]);
}

/// Writing a `u64` and reading it back gives the same number.
pub proof fn lemma_le64_round_trip(s: Seq<u8>, at: int, x: u64)
    requires
        0 <= at,
        at + 8 <= s.len(),
        s.subrange(at, at + 8) == le64(x),
    ensures
        le64_at(s, at) == x,
{
    let low = (x % 0x1_0000_0000) as u32;
    let high = (x / 0x1_0000_0000) as u32;
    assert(s.subrange(at, at + 4) =~= le64(x).subrange(0, 4));
    assert(le64(x).subrange(0, 4) =~= le32(low));
    assert(s.subrange(at + 4, at + 8) =~= le64(x).subrange(4, 8));
    assert(le64(x).subrange(4, 8) =~= le32(high));
    lemma_le32_round_trip(s, at, low);
    lemma_le32_round_trip(s, at + 4, high);
}

/// The least significant byte comes first: byte `i` counts for 256 to the power
/// of `i`.
pub proof fn lemma_little_endian(s: Seq<u8>, at: int, x: u16, y: u32, z: u64)
    requires
        0 <= at,
    ensures
        le16(x).len() == 2 && le16(x)[0] + 256 * le16(x)[1] == x,
        le32(y).len() == 4 && le32(y)[0] + 256 * le32(y)[1] + 65536 * le32(y)[2] + 16777216 * le32(
            y,
        )[3] == y,
        le64(z).len() == 8 && le64(z)[0] + 0x100 * le64(z)[1] + 0x1_0000 * le64(z)[2] + 0x100_0000
            * le64(z)[3] + 0x1_0000_0000 * le64(z)[4] + 0x100_0000_0000 * le64(z)[5]
            + 0x1_0000_0000_0000 * le64(z)[6] + 0x100_0000_0000_0000 * le64(z)[7] == z,
        le16_at(s, at) == s[at] + 256 * s[at + 1],
        le32_at(s, at) == s[at] + 256 * s[at + 1] + 65536 * s[at + 2] + 16777216 * s[at + 3],
        le64_at(s, at) == s[at] + 0x100 * s[at + 1] + 0x1_0000 * s[at + 2] + 0x100_0000 * s[at + 3]
            + 0x1_0000_0000 * s[at + 4] + 0x100_0000_0000 * s[at + 5] + 0x1_0000_0000_0000 * s[at
            + 6] + 0x100_0000_0000_0000 * s[at + 7],
{
}

/// A splice replaces the bytes where it lands and no others.
pub proof fn lemma_splice(s: Seq<u8>, at: int, b: Seq<u8>, k: int)
    requires
        0 <= at,
        at + b.len() <= s.len(),
        0 <= k < s.len(),
    ensures
        splice(s, at, b).len() == s.len(),
        at <= k < at + b.len() ==> splice(s, at, b)[k] == b[k - at],
        !(at <= k < at + b.len()) ==> splice(s, at, b)[k] == s[k],
{
}

/// Padding appends the fewest zero bytes that make the length a multiple of 8.
pub proof fn lemma_pad8(s: Seq<u8>)
    ensures
        pad8(s).len() % 8 == 0,
        s.len() <= pad8(s).len() < s.len() + 8,
        forall|k: int| 0 <= k < s.len() ==> #[trigger] pad8(s)[k] == s[k],
        forall|k: int| s.len() <= k < pad8(s).len() ==> #[trigger] pad8(s)[k] == 0,
{
    lemma_align8(s.len() as int);
}

} // verus!
