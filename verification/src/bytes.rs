//! Big-endian byte-level encodings of the fixed-width unsigned integers, as
//! specification functions, together with verified writers and readers.
//!
//! Signed types and IEEE-754 bit patterns ride on these: a signed value is
//! encoded as its two's-complement bit pattern of the same width, and a float
//! as the pattern `to_bits` yields.

use vstd::prelude::*;

verus! {

/// The two big-endian bytes of `v`.
pub open spec fn be16(v: u16) -> Seq<u8> {
    seq![(v >> 8) as u8, v as u8]
}

/// The four big-endian bytes of `v`.
pub open spec fn be32(v: u32) -> Seq<u8> {
    seq![(v >> 24) as u8, (v >> 16) as u8, (v >> 8) as u8, v as u8]
}

/// The eight big-endian bytes of `v`.
pub open spec fn be64(v: u64) -> Seq<u8> {
    seq![
        (v >> 56) as u8,
        (v >> 48) as u8,
        (v >> 40) as u8,
        (v >> 32) as u8,
        (v >> 24) as u8,
        (v >> 16) as u8,
        (v >> 8) as u8,
        v as u8,
    ]
}

/// The sixteen big-endian bytes of `v`.
pub open spec fn be128(v: u128) -> Seq<u8> {
    be64((v >> 64) as u64) + be64(v as u64)
}

/// The value read back from two big-endian bytes.
pub open spec fn be16_val(s: Seq<u8>) -> u16
    recommends
        s.len() == 2,
{
    (((s[0] as u16) << 8) | (s[1] as u16)) as u16
}

/// The value read back from four big-endian bytes.
pub open spec fn be32_val(s: Seq<u8>) -> u32
    recommends
        s.len() == 4,
{
    (((s[0] as u32) << 24) | ((s[1] as u32) << 16) | ((s[2] as u32) << 8) | (s[3] as u32)) as u32
}

/// The value read back from eight big-endian bytes.
pub open spec fn be64_val(s: Seq<u8>) -> u64
    recommends
        s.len() == 8,
{
    (((s[0] as u64) << 56) | ((s[1] as u64) << 48) | ((s[2] as u64) << 40) | ((s[3] as u64) << 32)
        | ((s[4] as u64) << 24) | ((s[5] as u64) << 16) | ((s[6] as u64) << 8) | (
    s[7] as u64)) as u64
}

/// The value read back from sixteen big-endian bytes.
pub open spec fn be128_val(s: Seq<u8>) -> u128
    recommends
        s.len() == 16,
{
    (((be64_val(s.subrange(0, 8)) as u128) << 64) | (be64_val(s.subrange(8, 16)) as u128)) as u128
}

/// Reading back the two big-endian bytes of `v` yields `v`.
pub proof fn lemma_be16_roundtrip(v: u16)
    ensures
        be16_val(be16(v)) == v,
{
    assert((((((v >> 8) as u8) as u16) << 8) | ((v as u8) as u16)) == v) by (bit_vector);
}

/// Reading back the four big-endian bytes of `v` yields `v`.
pub proof fn lemma_be32_roundtrip(v: u32)
    ensures
        be32_val(be32(v)) == v,
{
    assert(((((v >> 24) as u8) as u32) << 24 | (((v >> 16) as u8) as u32) << 16 | (((v
        >> 8) as u8) as u32) << 8 | ((v as u8) as u32)) == v) by (bit_vector);
}

/// Reading back the eight big-endian bytes of `v` yields `v`.
pub proof fn lemma_be64_roundtrip(v: u64)
    ensures
        be64_val(be64(v)) == v,
{
    assert(((((v >> 56) as u8) as u64) << 56 | (((v >> 48) as u8) as u64) << 48 | (((v
        >> 40) as u8) as u64) << 40 | (((v >> 32) as u8) as u64) << 32 | (((v >> 24) as u8) as u64)
        << 24 | (((v >> 16) as u8) as u64) << 16 | (((v >> 8) as u8) as u64) << 8 | ((
    v as u8) as u64)) == v) by (bit_vector);
}

/// Reading back the sixteen big-endian bytes of `v` yields `v`.
pub proof fn lemma_be128_roundtrip(v: u128)
    ensures
        be128_val(be128(v)) == v,
{
    let hi = (v >> 64) as u64;
    let lo = v as u64;
    assert(be128(v).subrange(0, 8) =~= be64(hi));
    assert(be128(v).subrange(8, 16) =~= be64(lo));
    lemma_be64_roundtrip(hi);
    lemma_be64_roundtrip(lo);
    assert((((hi as u128) << 64) | (lo as u128)) == v) by (bit_vector)
        requires
            hi == (v >> 64) as u64 && lo == v as u64,
    ;
}

/// Appends the two big-endian bytes of `v`.
pub fn put_u16(out: &mut Vec<u8>, v: u16)
    ensures
        final(out)@ == old(out)@ + be16(v),
{
    let ghost o = out@;
    out.push((v >> 8) as u8);
    out.push(#[verifier::truncate] (v as u8));
    assert(out@ =~= o + be16(v));
}

/// Appends the four big-endian bytes of `v`.
pub fn put_u32(out: &mut Vec<u8>, v: u32)
    ensures
        final(out)@ == old(out)@ + be32(v),
{
    let ghost o = out@;
    out.push((v >> 24) as u8);
    out.push(#[verifier::truncate] ((v >> 16) as u8));
    out.push(#[verifier::truncate] ((v >> 8) as u8));
    out.push(#[verifier::truncate] (v as u8));
    assert(out@ =~= o + be32(v));
}

/// Appends the eight big-endian bytes of `v`.
pub fn put_u64(out: &mut Vec<u8>, v: u64)
    ensures
        final(out)@ == old(out)@ + be64(v),
{
    let ghost o = out@;
    out.push((v >> 56) as u8);
    out.push(#[verifier::truncate] ((v >> 48) as u8));
    out.push(#[verifier::truncate] ((v >> 40) as u8));
    out.push(#[verifier::truncate] ((v >> 32) as u8));
    out.push(#[verifier::truncate] ((v >> 24) as u8));
    out.push(#[verifier::truncate] ((v >> 16) as u8));
    out.push(#[verifier::truncate] ((v >> 8) as u8));
    out.push(#[verifier::truncate] (v as u8));
    assert(out@ =~= o + be64(v));
}

/// Appends the sixteen big-endian bytes of `v`.
pub fn put_u128(out: &mut Vec<u8>, v: u128)
    ensures
        final(out)@ == old(out)@ + be128(v),
{
    let ghost o = out@;
    put_u64(out, (v >> 64) as u64);
    put_u64(out, #[verifier::truncate] (v as u64));
    assert(out@ =~= o + be128(v));
}

/// Reads two big-endian bytes starting at `pos`.
pub fn get_u16(input: &Vec<u8>, pos: usize) -> (r: u16)
    requires
        pos + 2 <= input.len(),
    ensures
        r == be16_val(input@.subrange(pos as int, pos as int + 2)),
{
    let r = ((input[pos] as u16) << 8) | (input[pos + 1] as u16);
    proof {
        let s = input@.subrange(pos as int, pos as int + 2);
        assert(s[0] == input@[pos as int] && s[1] == input@[pos as int + 1]);
    }
    r
}

/// Reads four big-endian bytes starting at `pos`.
pub fn get_u32(input: &Vec<u8>, pos: usize) -> (r: u32)
    requires
        pos + 4 <= input.len(),
    ensures
        r == be32_val(input@.subrange(pos as int, pos as int + 4)),
{
    let r = ((input[pos] as u32) << 24) | ((input[pos + 1] as u32) << 16) | ((input[pos
        + 2] as u32) << 8) | (input[pos + 3] as u32);
    proof {
        let s = input@.subrange(pos as int, pos as int + 4);
        assert(s[0] == input@[pos as int] && s[1] == input@[pos as int + 1] && s[2] == input@[
            pos as int + 2] && s[3] == input@[pos as int + 3]);
    }
    r
}

/// Reads eight big-endian bytes starting at `pos`.
pub fn get_u64(input: &Vec<u8>, pos: usize) -> (r: u64)
    requires
        pos + 8 <= input.len(),
    ensures
        r == be64_val(input@.subrange(pos as int, pos as int + 8)),
{
    let r = ((input[pos] as u64) << 56) | ((input[pos + 1] as u64) << 48) | ((input[pos
        + 2] as u64) << 40) | ((input[pos + 3] as u64) << 32) | ((input[pos + 4] as u64) << 24) | ((
    input[pos + 5] as u64) << 16) | ((input[pos + 6] as u64) << 8) | (input[pos + 7] as u64);
    proof {
        let s = input@.subrange(pos as int, pos as int + 8);
        assert(s[0] == input@[pos as int] && s[1] == input@[pos as int + 1] && s[2] == input@[
            pos as int + 2] && s[3] == input@[pos as int + 3] && s[4] == input@[pos as int + 4]
            && s[5] == input@[pos as int + 5] && s[6] == input@[pos as int + 6] && s[7] == input@[
            pos as int + 7]);
    }
    r
}

/// Reads sixteen big-endian bytes starting at `pos`.
pub fn get_u128(input: &Vec<u8>, pos: usize) -> (r: u128)
    requires
        pos + 16 <= input.len(),
    ensures
        r == be128_val(input@.subrange(pos as int, pos as int + 16)),
{
    let hi = get_u64(input, pos);
    let lo = get_u64(input, pos + 8);
    proof {
        let s = input@.subrange(pos as int, pos as int + 16);
        assert(s.subrange(0, 8) =~= input@.subrange(pos as int, pos as int + 8));
        assert(s.subrange(8, 16) =~= input@.subrange(pos as int + 8, pos as int + 16));
    }
    ((hi as u128) << 64) | (lo as u128)
}

/// A signed byte survives the round trip through its bit pattern.
pub proof fn lemma_cast_i8(x: i8)
    ensures
        (x as u8) as i8 == x,
{
    assert((x as u8) as i8 == x) by (bit_vector);
}

/// A signed 16-bit value survives the round trip through its bit pattern.
pub proof fn lemma_cast_i16(x: i16)
    ensures
        (x as u16) as i16 == x,
{
    assert((x as u16) as i16 == x) by (bit_vector);
}

/// A signed 32-bit value survives the round trip through its bit pattern.
pub proof fn lemma_cast_i32(x: i32)
    ensures
        (x as u32) as i32 == x,
{
    assert((x as u32) as i32 == x) by (bit_vector);
}

/// A signed 64-bit value survives the round trip through its bit pattern.
pub proof fn lemma_cast_i64(x: i64)
    ensures
        (x as u64) as i64 == x,
{
    assert((x as u64) as i64 == x) by (bit_vector);
}

} // verus!
