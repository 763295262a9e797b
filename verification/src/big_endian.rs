//! Big-endian numbers in byte sequences: what a run of bytes spells, and the
//! bytes that spell a number.

use vstd::prelude::*;

verus! {

/// The number that the two bytes of `s` from index `i` on spell, most
/// significant byte first.
pub open spec fn be_u16(s: Seq<u8>, i: int) -> int {
    s[i] as int * 256 + s[i + 1] as int
}

/// The number that the four bytes of `s` from index `i` on spell.
pub open spec fn be_u32(s: Seq<u8>, i: int) -> int {
    be_u16(s, i) * 65536 + be_u16(s, i + 2)
}

/// The number that the eight bytes of `s` from index `i` on spell.
pub open spec fn be_u64(s: Seq<u8>, i: int) -> int {
    be_u32(s, i) * 4294967296 + be_u32(s, i + 4)
}

/// The two's complement reading of `v`, an unsigned number below `modulus`.
pub open spec fn signed(v: int, modulus: int) -> int {
    if 2 * v >= modulus {
        v - modulus
    } else {
        v
    }
}

/// The unsigned number whose two's complement reading is `v`.
pub open spec fn unsigned(v: int, modulus: int) -> int {
    if v < 0 {
        v + modulus
    } else {
        v
    }
}

/// The two bytes that spell `v`, for `0 <= v < 65536`.
pub open spec fn u16_bytes(v: int) -> Seq<u8> {
    seq![(v / 256) as u8, (v % 256) as u8]
}

/// The four bytes that spell `v`, for `0 <= v < 2^32`.
pub open spec fn u32_bytes(v: int) -> Seq<u8> {
    u16_bytes(v / 65536) + u16_bytes(v % 65536)
}

/// The eight bytes that spell `v`, for `0 <= v < 2^64`.
pub open spec fn u64_bytes(v: int) -> Seq<u8> {
    u32_bytes(v / 4294967296) + u32_bytes(v % 4294967296)
}

/// Writing down what two bytes spell gives the two bytes back.
pub proof fn lemma_u16_bytes_of_read(s: Seq<u8>, i: int)
    requires
        0 <= i,
        i + 2 <= s.len(),
    ensures
        0 <= be_u16(s, i) < 65536,
        u16_bytes(be_u16(s, i)) == s.subrange(i, i + 2),
{
    assert(u16_bytes(be_u16(s, i)) =~= s.subrange(i, i + 2));
}

/// Writing down what four bytes spell gives the four bytes back.
pub proof fn lemma_u32_bytes_of_read(s: Seq<u8>, i: int)
    requires
        0 <= i,
        i + 4 <= s.len(),
    ensures
        0 <= be_u32(s, i) < 4294967296,
        u32_bytes(be_u32(s, i)) == s.subrange(i, i + 4),
{
    lemma_u16_bytes_of_read(s, i);
    lemma_u16_bytes_of_read(s, i + 2);
    assert(be_u32(s, i) / 65536 == be_u16(s, i));
    assert(be_u32(s, i) % 65536 == be_u16(s, i + 2));
    assert(u32_bytes(be_u32(s, i)) =~= s.subrange(i, i + 4));
}

/// Writing down what eight bytes spell gives the eight bytes back.
pub proof fn lemma_u64_bytes_of_read(s: Seq<u8>, i: int)
    requires
        0 <= i,
        i + 8 <= s.len(),
    ensures
        0 <= be_u64(s, i) < 18446744073709551616,
        u64_bytes(be_u64(s, i)) == s.subrange(i, i + 8),
{
    lemma_u32_bytes_of_read(s, i);
    lemma_u32_bytes_of_read(s, i + 4);
    assert(be_u64(s, i) / 4294967296 == be_u32(s, i));
    assert(be_u64(s, i) % 4294967296 == be_u32(s, i + 4));
    assert(u64_bytes(be_u64(s, i)) =~= s.subrange(i, i + 8));
}

/// Reading the two bytes that spell `v` gives `v` back, wherever they stand.
pub proof fn lemma_read_of_u16_bytes(s: Seq<u8>, i: int, v: int)
    requires
        0 <= v < 65536,
        0 <= i,
        i + 2 <= s.len(),
        s.subrange(i, i + 2) == u16_bytes(v),
    ensures
        be_u16(s, i) == v,
{
    let t = s.subrange(i, i + 2);
    assert(t[0] == s[i] && t[1] == s[i + 1]);
    assert(u16_bytes(v)[0] == (v / 256) as u8);
    assert(u16_bytes(v)[1] == (v % 256) as u8);
}

/// Reading the four bytes that spell `v` gives `v` back.
pub proof fn lemma_read_of_u32_bytes(s: Seq<u8>, i: int, v: int)
    requires
        0 <= v < 4294967296,
        0 <= i,
        i + 4 <= s.len(),
        s.subrange(i, i + 4) == u32_bytes(v),
    ensures
        be_u32(s, i) == v,
{
    let t = s.subrange(i, i + 4);
    assert(s.subrange(i, i + 2) =~= t.subrange(0, 2));
    assert(s.subrange(i + 2, i + 4) =~= t.subrange(2, 4));
    assert(t.subrange(0, 2) =~= u16_bytes(v / 65536));
    assert(t.subrange(2, 4) =~= u16_bytes(v % 65536));
    lemma_read_of_u16_bytes(s, i, v / 65536);
    lemma_read_of_u16_bytes(s, i + 2, v % 65536);
}

/// Reading the eight bytes that spell `v` gives `v` back.
pub proof fn lemma_read_of_u64_bytes(s: Seq<u8>, i: int, v: int)
    requires
        0 <= v < 18446744073709551616,
        0 <= i,
        i + 8 <= s.len(),
        s.subrange(i, i + 8) == u64_bytes(v),
    ensures
        be_u64(s, i) == v,
{
    let t = s.subrange(i, i + 8);
    assert(s.subrange(i, i + 4) =~= t.subrange(0, 4));
    assert(s.subrange(i + 4, i + 8) =~= t.subrange(4, 8));
    assert(u32_bytes(v / 4294967296).len() == 4);
    assert(t.subrange(0, 4) =~= u32_bytes(v / 4294967296));
    assert(t.subrange(4, 8) =~= u32_bytes(v % 4294967296));
    lemma_read_of_u32_bytes(s, i, v / 4294967296);
    lemma_read_of_u32_bytes(s, i + 4, v % 4294967296);
}

/// Reads two bytes as an unsigned number.
pub fn read_u16(data: &[u8], pos: usize) -> (r: u16)
    requires
        pos + 2 <= data.len(),
    ensures
        r == be_u16(data@, pos as int),
{
    let hi: u16 = data[pos] as u16;
    let lo: u16 = data[pos + 1] as u16;
    hi * 256 + lo
}

/// Reads four bytes as an unsigned number.
pub fn read_u32(data: &[u8], pos: usize) -> (r: u32)
    requires
        pos + 4 <= data.len(),
    ensures
        r == be_u32(data@, pos as int),
{
    let hi: u32 = read_u16(data, pos) as u32;
    let lo: u32 = read_u16(data, pos + 2) as u32;
    hi * 65536 + lo
}

/// Reads eight bytes as an unsigned number.
pub fn read_u64(data: &[u8], pos: usize) -> (r: u64)
    requires
        pos + 8 <= data.len(),
    ensures
        r == be_u64(data@, pos as int),
{
    let hi: u64 = read_u32(data, pos) as u64;
    let lo: u64 = read_u32(data, pos + 4) as u64;
    hi * 4294967296 + lo
}

/// The two's complement reading of a byte.
pub fn to_i8(v: u8) -> (r: i8)
    ensures
        r == signed(v as int, 256),
{
    if v >= 128 {
        (v as i16 - 256) as i8
    } else {
        v as i8
    }
}

/// The two's complement reading of a 16-bit number.
pub fn to_i16(v: u16) -> (r: i16)
    ensures
        r == signed(v as int, 65536),
{
    if v >= 32768 {
        (v as i32 - 65536) as i16
    } else {
        v as i16
    }
}

/// The two's complement reading of a 32-bit number.
pub fn to_i32(v: u32) -> (r: i32)
    ensures
        r == signed(v as int, 4294967296),
{
    if v >= 2147483648 {
        (v as i64 - 4294967296) as i32
    } else {
        v as i32
    }
}

/// The two's complement reading of a 64-bit number.
pub fn to_i64(v: u64) -> (r: i64)
    ensures
        r == signed(v as int, 18446744073709551616),
{
    if v >= 9223372036854775808 {
        (v - 9223372036854775808) as i64 + i64::MIN
    } else {
        v as i64
    }
}

/// The byte whose two's complement reading is `v`.
pub fn from_i8(v: i8) -> (r: u8)
    ensures
        r == unsigned(v as int, 256),
{
    if v < 0 {
        (v as i16 + 256) as u8
    } else {
        v as u8
    }
}

/// The 16-bit number whose two's complement reading is `v`.
pub fn from_i16(v: i16) -> (r: u16)
    ensures
        r == unsigned(v as int, 65536),
{
    if v < 0 {
        (v as i32 + 65536) as u16
    } else {
        v as u16
    }
}

/// The 32-bit number whose two's complement reading is `v`.
pub fn from_i32(v: i32) -> (r: u32)
    ensures
        r == unsigned(v as int, 4294967296),
{
    if v < 0 {
        (v as i64 + 4294967296) as u32
    } else {
        v as u32
    }
}

/// The 64-bit number whose two's complement reading is `v`.
pub fn from_i64(v: i64) -> (r: u64)
    ensures
        r == unsigned(v as int, 18446744073709551616),
{
    if v < 0 {
        (v - i64::MIN) as u64 + 9223372036854775808
    } else {
        v as u64
    }
}

/// Appends the two bytes that spell `v`.
pub fn push_u16(out: &mut Vec<u8>, v: u16)
    ensures
        final(out)@ == old(out)@ + u16_bytes(v as int),
{
    out.push((v / 256) as u8);
    out.push((v % 256) as u8);
    assert(out@ =~= old(out)@ + u16_bytes(v as int));
}

/// Appends the four bytes that spell `v`.
pub fn push_u32(out: &mut Vec<u8>, v: u32)
    ensures
        final(out)@ == old(out)@ + u32_bytes(v as int),
{
    push_u16(out, (v / 65536) as u16);
    push_u16(out, (v % 65536) as u16);
    assert(out@ =~= old(out)@ + u32_bytes(v as int));
}

/// Appends the eight bytes that spell `v`.
pub fn push_u64(out: &mut Vec<u8>, v: u64)
    ensures
        final(out)@ == old(out)@ + u64_bytes(v as int),
{
    push_u32(out, (v / 4294967296) as u32);
    push_u32(out, (v % 4294967296) as u32);
    assert(out@ =~= old(out)@ + u64_bytes(v as int));
}

} // verus!
