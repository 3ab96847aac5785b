//! Fixed-width integers as little-endian bytes.

use vstd::prelude::*;

verus! {

/// The four bytes of a 32-bit value, lowest first.
pub open spec fn le32(x: u32) -> Seq<u8> {
    seq![
        (x % 256) as u8,
        (x / 256 % 256) as u8,
        (x / 256 / 256 % 256) as u8,
        (x / 256 / 256 / 256) as u8,
    ]
}

/// The 32-bit value whose bytes, lowest first, are the first four of `b`.
pub open spec fn from_le32(b: Seq<u8>) -> u32 {
    (b[0] + 256 * (b[1] + 256 * (b[2] + 256 * b[3]))) as u32
}

/// The eight bytes of a 64-bit value, lowest first.
pub open spec fn le64(x: u64) -> Seq<u8> {
    le32((x % 0x1_0000_0000) as u32) + le32((x / 0x1_0000_0000) as u32)
}

/// The 64-bit value whose bytes, lowest first, are the first eight of `b`.
pub open spec fn from_le64(b: Seq<u8>) -> u64 {
    (from_le32(b.subrange(0, 4)) + 0x1_0000_0000 * from_le32(b.subrange(4, 8))) as u64
}

/// The unsigned value with the bits of a signed one in two's complement.
pub open spec fn unsigned_of(x: i64) -> u64 {
    if x >= 0 {
        x as u64
    } else {
        (x + 0x1_0000_0000_0000_0000) as u64
    }
}

/// The signed value with the bits of an unsigned one in two's complement.
pub open spec fn signed_of(x: u64) -> i64 {
    if x < 0x8000_0000_0000_0000 {
        x as i64
    } else {
        (x - 0x1_0000_0000_0000_0000) as i64
    }
}

/// Reading back what was written gives the value, and four bytes are the
/// bytes of the value they spell.
pub proof fn lemma_le32_round_trip(x: u32, b: Seq<u8>)
    ensures
        le32(x).len() == 4,
        from_le32(le32(x)) == x,
        b.len() == 4 ==> le32(from_le32(b)) == b,
{
    let r1 = x / 256;
    let r2 = r1 / 256;
    let r3 = r2 / 256;
    assert(x == x % 256 + 256 * r1);
    assert(r1 == r1 % 256 + 256 * r2);
    assert(r2 == r2 % 256 + 256 * r3);
    assert(r3 < 256);
    if b.len() == 4 {
        let t2: int = b[2] + 256 * b[3];
        let t1: int = b[1] + 256 * t2;
        let t0: int = b[0] + 256 * t1;
        assert(t0 % 256 == b[0] && t0 / 256 == t1);
        assert(t1 % 256 == b[1] && t1 / 256 == t2);
        assert(t2 % 256 == b[2] && t2 / 256 == b[3]);
        assert(t0 < 0x1_0000_0000);
        assert(le32(from_le32(b)) =~= b);
    }
}

/// Reading back what was written gives the value, and eight bytes are the
/// bytes of the value they spell.
pub proof fn lemma_le64_round_trip(x: u64, b: Seq<u8>)
    ensures
        le64(x).len() == 8,
        from_le64(le64(x)) == x,
        b.len() == 8 ==> le64(from_le64(b)) == b,
{
    let low = (x % 0x1_0000_0000) as u32;
    let high = (x / 0x1_0000_0000) as u32;
    lemma_le32_round_trip(low, le64(x).subrange(0, 4));
    lemma_le32_round_trip(high, le64(x).subrange(4, 8));
    assert(le64(x).subrange(0, 4) =~= le32(low));
    assert(le64(x).subrange(4, 8) =~= le32(high));
    if b.len() == 8 {
        let first = b.subrange(0, 4);
        let second = b.subrange(4, 8);
        lemma_le32_round_trip(0, first);
        lemma_le32_round_trip(0, second);
        let value = from_le64(b);
        assert(value % 0x1_0000_0000 == from_le32(first));
        assert(value / 0x1_0000_0000 == from_le32(second));
        assert(le64(value) =~= first + second);
        assert(first + second =~= b);
    }
}

/// The two's-complement readings undo each other.
pub proof fn lemma_sign_round_trip(x: i64, u: u64)
    ensures
        signed_of(unsigned_of(x)) == x,
        unsigned_of(signed_of(u)) == u,
{
}

/// Appends the four bytes of `x`.
pub fn put_le32(out: &mut Vec<u8>, x: u32)
    ensures
        final(out)@ == old(out)@ + le32(x),
{
    let r1: u32 = x / 256;
    let r2: u32 = r1 / 256;
    let r3: u32 = r2 / 256;
    out.push((x % 256) as u8);
    out.push((r1 % 256) as u8);
    out.push((r2 % 256) as u8);
    out.push(r3 as u8);
    assert(out@ =~= old(out)@ + le32(x));
}

/// Appends the eight bytes of `x`.
pub fn put_le64(out: &mut Vec<u8>, x: u64)
    ensures
        final(out)@ == old(out)@ + le64(x),
{
    let ghost before = out@;
    put_le32(out, (x % 0x1_0000_0000) as u32);
    put_le32(out, (x / 0x1_0000_0000) as u32);
    assert(out@ =~= before + le64(x));
}

/// Reads the 32-bit value that starts at `at`.
pub fn get_le32(bytes: &Vec<u8>, at: usize) -> (x: u32)
    requires
        at + 4 <= bytes.len(),
    ensures
        x == from_le32(bytes@.subrange(at as int, at + 4)),
{
    let b0: u32 = bytes[at] as u32;
    let b1: u32 = bytes[at + 1] as u32;
    let b2: u32 = bytes[at + 2] as u32;
    let b3: u32 = bytes[at + 3] as u32;
    b0 + 256 * (b1 + 256 * (b2 + 256 * b3))
}

/// Reads the 64-bit value that starts at `at`.
pub fn get_le64(bytes: &Vec<u8>, at: usize) -> (x: u64)
    requires
        at + 8 <= bytes.len(),
    ensures
        x == from_le64(bytes@.subrange(at as int, at + 8)),
{
    let low: u64 = get_le32(bytes, at) as u64;
    let high: u64 = get_le32(bytes, at + 4) as u64;
    proof {
        let b = bytes@.subrange(at as int, at + 8);
        assert(b.subrange(0, 4) =~= bytes@.subrange(at as int, at + 4));
        assert(b.subrange(4, 8) =~= bytes@.subrange(at + 4, at + 8));
    }
    low + 0x1_0000_0000 * high
}

/// Reads a signed value as the unsigned one with the same bits.
pub fn to_unsigned(x: i64) -> (u: u64)
    ensures
        u == unsigned_of(x),
{
    if x >= 0 {
        x as u64
    } else {
        ((x - i64::MIN) as u64) + 0x8000_0000_0000_0000
    }
}

/// Reads an unsigned value as the signed one with the same bits.
pub fn to_signed(u: u64) -> (x: i64)
    ensures
        x == signed_of(u),
{
    if u < 0x8000_0000_0000_0000 {
        u as i64
    } else {
        ((u - 0x8000_0000_0000_0000) as i64) + i64::MIN
    }
}

} // verus!
