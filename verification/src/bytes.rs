//! Big-endian integers in byte buffers.

use vstd::prelude::*;

verus! {

/// The unsigned 16-bit big-endian integer at `at`.
pub open spec fn be_u16(s: Seq<u8>, at: int) -> int {
    s[at] * 0x100 + s[at + 1]
}

/// The unsigned 32-bit big-endian integer at `at`.
pub open spec fn be_u32(s: Seq<u8>, at: int) -> int {
    s[at] * 0x100_0000 + s[at + 1] * 0x1_0000 + s[at + 2] * 0x100 + s[at + 3]
}

/// The unsigned 64-bit big-endian integer at `at`.
pub open spec fn be_u64(s: Seq<u8>, at: int) -> int {
    be_u32(s, at) * 0x1_0000_0000 + be_u32(s, at + 4)
}

/// The four bytes of `v`, most significant first.
pub open spec fn u32_be_bytes(v: int) -> Seq<u8> {
    seq![
        (v / 0x100_0000) as u8,
        ((v / 0x1_0000) % 0x100) as u8,
        ((v / 0x100) % 0x100) as u8,
        (v % 0x100) as u8,
    ]
}

/// The eight bytes of `v`, most significant first.
pub open spec fn u64_be_bytes(v: int) -> Seq<u8> {
    u32_be_bytes(v / 0x1_0000_0000) + u32_be_bytes(v % 0x1_0000_0000)
}

/// The 32-bit pattern `w` read as a signed integer.
pub open spec fn signed32(w: int) -> int {
    if w >= 0x8000_0000 {
        w - 0x1_0000_0000
    } else {
        w
    }
}

/// The 32-bit pattern of the signed integer `v`.
pub open spec fn unsigned32(v: int) -> int {
    if v < 0 {
        v + 0x1_0000_0000
    } else {
        v
    }
}

/// `buf` with the bytes from `at` on overwritten by `piece`.
pub open spec fn overwrite(buf: Seq<u8>, at: int, piece: Seq<u8>) -> Seq<u8> {
    buf.subrange(0, at) + piece + buf.subrange(at + piece.len(), buf.len() as int)
}

/// Four bytes that were appended to a buffer read back as the number
/// written, whatever follows them.
pub proof fn lemma_read_appended(buf: Seq<u8>, v: int, more: Seq<u8>)
    requires
        0 <= v < 0x1_0000_0000,
    ensures
        be_u32(buf + u32_be_bytes(v) + more, buf.len() as int) == v,
{
    let after = buf + u32_be_bytes(v) + more;
    let at = buf.len() as int;
    assert(after[at] == u32_be_bytes(v)[0]);
    assert(after[at + 1] == u32_be_bytes(v)[1]);
    assert(after[at + 2] == u32_be_bytes(v)[2]);
    assert(after[at + 3] == u32_be_bytes(v)[3]);
}

/// Four bytes that were written over a buffer read back as the number
/// written.
pub proof fn lemma_read_written(buf: Seq<u8>, at: int, v: int)
    requires
        0 <= at,
        at + 4 <= buf.len(),
        0 <= v < 0x1_0000_0000,
    ensures
        overwrite(buf, at, u32_be_bytes(v)).len() == buf.len(),
        be_u32(overwrite(buf, at, u32_be_bytes(v)), at) == v,
{
    let after = overwrite(buf, at, u32_be_bytes(v));
    assert(after[at] == u32_be_bytes(v)[0]);
    assert(after[at + 1] == u32_be_bytes(v)[1]);
    assert(after[at + 2] == u32_be_bytes(v)[2]);
    assert(after[at + 3] == u32_be_bytes(v)[3]);
}

/// Four bytes that were written over a buffer leave a number elsewhere as it
/// was.
pub proof fn lemma_read_beside(buf: Seq<u8>, at: int, v: int, other: int)
    requires
        0 <= at,
        at + 4 <= buf.len(),
        0 <= other,
        other + 4 <= buf.len(),
        other + 4 <= at || at + 4 <= other,
    ensures
        be_u32(overwrite(buf, at, u32_be_bytes(v)), other) == be_u32(buf, other),
{
    let after = overwrite(buf, at, u32_be_bytes(v));
    assert(after[other] == buf[other]);
    assert(after[other + 1] == buf[other + 1]);
    assert(after[other + 2] == buf[other + 2]);
    assert(after[other + 3] == buf[other + 3]);
}

/// Bytes that were appended to a buffer leave a number within it as it was.
pub proof fn lemma_read_before(buf: Seq<u8>, more: Seq<u8>, at: int)
    requires
        0 <= at,
        at + 4 <= buf.len(),
    ensures
        be_u32(buf + more, at) == be_u32(buf, at),
{
    let after = buf + more;
    assert(after[at] == buf[at]);
    assert(after[at + 1] == buf[at + 1]);
    assert(after[at + 2] == buf[at + 2]);
    assert(after[at + 3] == buf[at + 3]);
}

/// A signed number survives the way through its bit pattern.
pub proof fn lemma_signed_round_trip(v: int)
    requires
        -0x8000_0000 <= v < 0x8000_0000,
    ensures
        0 <= unsigned32(v) < 0x1_0000_0000,
        signed32(unsigned32(v)) == v,
{
}

/// Tells whether two byte strings are the same.
pub fn same_bytes(a: &[u8], b: &[u8]) -> (r: bool)
    ensures
        r == (a@ == b@),
{
    let n: usize = a.len();
    if n != b.len() {
        return false;
    }
    let mut i: usize = 0;
    while i < n
        invariant
            i <= n == a@.len() == b@.len(),
            a@.subrange(0, i as int) == b@.subrange(0, i as int),
        decreases n - i,
    {
        if a[i] != b[i] {
            return false;
        }
        proof {
            assert(a@.subrange(0, i + 1) =~= a@.subrange(0, i as int).push(a@[i as int]));
            assert(b@.subrange(0, i + 1) =~= b@.subrange(0, i as int).push(b@[i as int]));
        }
        i += 1;
    }
    proof {
        assert(a@ == a@.subrange(0, n as int));
        assert(b@ == b@.subrange(0, n as int));
    }
    true
}

/// Reads the unsigned 16-bit big-endian integer at `at`.
pub fn read_u16(buf: &[u8], at: usize) -> (r: u16)
    requires
        at + 2 <= buf@.len(),
    ensures
        r == be_u16(buf@, at as int),
{
    let hi: u16 = buf[at] as u16;
    let lo: u16 = buf[at + 1] as u16;
    hi * 0x100 + lo
}

/// Reads the unsigned 32-bit big-endian integer at `at`.
pub fn read_u32(buf: &[u8], at: usize) -> (r: u32)
    requires
        at + 4 <= buf@.len(),
    ensures
        r == be_u32(buf@, at as int),
{
    let a: u32 = buf[at] as u32;
    let b: u32 = buf[at + 1] as u32;
    let c: u32 = buf[at + 2] as u32;
    let d: u32 = buf[at + 3] as u32;
    a * 0x100_0000 + b * 0x1_0000 + c * 0x100 + d
}

/// Reads the unsigned 64-bit big-endian integer at `at`.
pub fn read_u64(buf: &[u8], at: usize) -> (r: u64)
    requires
        at + 8 <= buf@.len(),
    ensures
        r == be_u64(buf@, at as int),
{
    let len: usize = buf.len();
    let hi: u64 = read_u32(buf, at) as u64;
    let lo: u64 = read_u32(buf, at + 4) as u64;
    hi * 0x1_0000_0000 + lo
}

/// Writes `v` at `at` as four bytes, most significant first.
pub fn write_u32(buf: &mut [u8], at: usize, v: u32)
    requires
        at + 4 <= old(buf)@.len(),
    ensures
        final(buf)@ == overwrite(old(buf)@, at as int, u32_be_bytes(v as int)),
{
    let ghost orig = buf@;
    buf[at] = (v / 0x100_0000) as u8;
    buf[at + 1] = ((v / 0x1_0000) % 0x100) as u8;
    buf[at + 2] = ((v / 0x100) % 0x100) as u8;
    buf[at + 3] = (v % 0x100) as u8;
    assert(buf@ =~= overwrite(orig, at as int, u32_be_bytes(v as int)));
}

/// Writes `v` at `at` as eight bytes, most significant first.
pub fn write_u64(buf: &mut [u8], at: usize, v: u64)
    requires
        at + 8 <= old(buf)@.len(),
    ensures
        final(buf)@ == overwrite(old(buf)@, at as int, u64_be_bytes(v as int)),
{
    let ghost orig = buf@;
    let len: usize = buf.len();
    write_u32(buf, at, (v / 0x1_0000_0000) as u32);
    write_u32(buf, at + 4, (v % 0x1_0000_0000) as u32);
    assert(buf@ =~= overwrite(orig, at as int, u64_be_bytes(v as int)));
}

/// Reads a 32-bit pattern as a signed integer.
pub fn to_signed(w: u32) -> (r: i32)
    ensures
        r == signed32(w as int),
{
    if w >= 0x8000_0000 {
        ((w - 0x8000_0000) as i32) + i32::MIN
    } else {
        w as i32
    }
}

/// The 32-bit pattern of a signed integer.
pub fn to_unsigned(v: i32) -> (r: u32)
    ensures
        r == unsigned32(v as int),
{
    if v < 0 {
        ((v - i32::MIN) as u32) + 0x8000_0000
    } else {
        v as u32
    }
}

} // verus!
