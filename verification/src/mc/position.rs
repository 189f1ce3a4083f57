//! The bit-packed block Position: three signed fields of 26, 12 and 26 bits
//! packed into one 64-bit word, sent as eight big-endian bytes. Encoding
//! masks each field to its width; decoding sign-extends each field back, so
//! values round-trip exactly when they lie in the field's two's-complement
//! range.

use vstd::prelude::*;

use crate::bytes::{be64, be64_val, put_u64};
use crate::error::Error;
use crate::mc::de::Deserializer;
use crate::mc::ser::Serializer;

verus! {

/// A block position; `x` and `z` carry 26 significant bits, `y` twelve.
#[derive(Clone, Copy, Eq, PartialEq, PartialOrd, Ord, Debug, Structural)]
pub struct Position {
    pub x: i32,
    pub y: i16,
    pub z: i32,
}

/// The packed 64-bit word: `x` masked to 26 bits in the top, `y` masked to
/// 12 bits in the middle, `z` masked to 26 bits at the bottom.
pub open spec fn spec_pack(p: Position) -> u64 {
    (((p.x as u64) & 0x3FFFFFF) << 38) | (((p.y as u64) & 0xFFF) << 26) | ((p.z as u64) & 0x3FFFFFF)
}

/// A 26-bit field value sign-extended back to a signed 32-bit integer.
pub open spec fn sign_extend_26(f: u64) -> i32
    recommends
        f < 0x4000000,
{
    if f >= 0x2000000 {
        ((f as int) - 0x4000000) as i32
    } else {
        f as i32
    }
}

/// A 12-bit field value sign-extended back to a signed 16-bit integer.
pub open spec fn sign_extend_12(f: u64) -> i16
    recommends
        f < 0x1000,
{
    if f >= 0x800 {
        ((f as int) - 0x1000) as i16
    } else {
        f as i16
    }
}

/// The position unpacked from a 64-bit word: fields extracted by shift and
/// mask, then sign-extended from their widths.
pub open spec fn spec_unpack(n: u64) -> Position {
    Position {
        x: sign_extend_26((n >> 38) & 0x3FFFFFF),
        y: sign_extend_12((n >> 26) & 0xFFF),
        z: sign_extend_26(n & 0x3FFFFFF),
    }
}

/// The wire bytes of a position: its packed word, big-endian.
pub open spec fn spec_position(p: Position) -> Seq<u8> {
    be64(spec_pack(p))
}

/// Whether every field lies in the two's-complement range of its width, so
/// that packing loses nothing.
pub open spec fn in_range(p: Position) -> bool {
    &&& -0x2000000 <= p.x < 0x2000000
    &&& -0x800 <= p.y < 0x800
    &&& -0x2000000 <= p.z < 0x2000000
}

/// Unpacking the packed word of an in-range position yields the position.
pub proof fn lemma_pack_unpack(p: Position)
    requires
        in_range(p),
    ensures
        spec_unpack(spec_pack(p)) == p,
{
    let px = p.x;
    let py = p.y;
    let pz = p.z;
    let n = spec_pack(p);
    let fx = (n >> 38) & 0x3FFFFFF;
    let fy = (n >> 26) & 0xFFF;
    let fz = n & 0x3FFFFFF;
    assert(fx == (px as u64) & 0x3FFFFFF && fy == (py as u64) & 0xFFF && fz == (pz as u64)
        & 0x3FFFFFF) by (bit_vector)
        requires
            n == (((px as u64) & 0x3FFFFFF) << 38) | (((py as u64) & 0xFFF) << 26) | ((
            pz as u64) & 0x3FFFFFF),
            fx == (n >> 38) & 0x3FFFFFF,
            fy == (n >> 26) & 0xFFF,
            fz == n & 0x3FFFFFF,
    ;
    assert(0 <= px < 0x2000000 ==> fx == px) by (bit_vector)
        requires
            fx == (px as u64) & 0x3FFFFFF,
    ;
    assert(-0x2000000 <= px < 0 ==> fx as int == px + 0x4000000) by (bit_vector)
        requires
            fx == (px as u64) & 0x3FFFFFF,
    ;
    assert(0 <= pz < 0x2000000 ==> fz == pz) by (bit_vector)
        requires
            fz == (pz as u64) & 0x3FFFFFF,
    ;
    assert(-0x2000000 <= pz < 0 ==> fz as int == pz + 0x4000000) by (bit_vector)
        requires
            fz == (pz as u64) & 0x3FFFFFF,
    ;
    assert(0 <= py < 0x800 ==> fy == py) by (bit_vector)
        requires
            fy == (py as u64) & 0xFFF,
    ;
    assert(-0x800 <= py < 0 ==> fy as int == py + 0x1000) by (bit_vector)
        requires
            fy == (py as u64) & 0xFFF,
    ;
}

impl Position {
    /// Packs the fields into the 64-bit word.
    pub fn pack(&self) -> (n: u64)
        ensures
            n == spec_pack(*self),
    {
        let x: u64 = (#[verifier::truncate] (self.x as u64)) & 0x3FFFFFF;
        let y: u64 = (#[verifier::truncate] (self.y as u64)) & 0xFFF;
        let z: u64 = (#[verifier::truncate] (self.z as u64)) & 0x3FFFFFF;
        (x << 38) | (y << 26) | z
    }

    /// Unpacks a 64-bit word into fields, sign-extending each from its width.
    pub fn unpack(n: u64) -> (p: Position)
        ensures
            p == spec_unpack(n),
    {
        let fx: u64 = (n >> 38) & 0x3FFFFFF;
        let fy: u64 = (n >> 26) & 0xFFF;
        let fz: u64 = n & 0x3FFFFFF;
        proof {
            assert((n >> 38) & 0x3FFFFFF < 0x4000000 && (n >> 26) & 0xFFF < 0x1000 && n & 0x3FFFFFF
                < 0x4000000) by (bit_vector);
        }
        let x: i32 = if fx >= 0x2000000 {
            (fx as i32) - 0x4000000
        } else {
            fx as i32
        };
        let y: i16 = if fy >= 0x800 {
            (fy as i16) - 0x1000
        } else {
            fy as i16
        };
        let z: i32 = if fz >= 0x2000000 {
            (fz as i32) - 0x4000000
        } else {
            fz as i32
        };
        Position { x, y, z }
    }

    /// Emits the packed word as eight big-endian bytes.
    pub fn serialize(&self, s: &mut Serializer)
        ensures
            final(s).out@ == old(s).out@ + spec_position(*self),
    {
        let n = self.pack();
        put_u64(&mut s.out, n);
    }

    /// Reads eight big-endian bytes and unpacks them; fails with `Io` when
    /// fewer than eight bytes remain.
    pub fn deserialize(d: &mut Deserializer) -> (r: Result<Position, Error>)
        requires
            old(d).wf(),
        ensures
            final(d).input == old(d).input,
            final(d).wf(),
            old(d).pos + 8 <= old(d).input@.len() ==> r == Ok::<Position, Error>(
                spec_unpack(be64_val(old(d).input@.subrange(old(d).pos as int, old(d).pos + 8))),
            ) && final(d).pos == old(d).pos + 8,
            old(d).pos + 8 > old(d).input@.len() ==> r == Err::<Position, Error>(Error::Io)
                && final(d).pos == old(d).pos,
    {
        match d.deserialize_u64() {
            Ok(n) => Ok(Position::unpack(n)),
            Err(e) => Err(e),
        }
    }
}

/// The eight-byte encoding of a position, read back as a big-endian word, is
/// exactly the packed formula.
pub proof fn lemma_position_packed(p: Position)
    ensures
        be64_val(spec_position(p)) == spec_pack(p),
{
    crate::bytes::lemma_be64_roundtrip(spec_pack(p));
}

/// An in-range position round-trips through its eight-byte encoding.
pub proof fn lemma_position_roundtrip(p: Position)
    requires
        in_range(p),
    ensures
        spec_unpack(be64_val(spec_position(p))) == p,
{
    lemma_position_packed(p);
    lemma_pack_unpack(p);
}

} // verus!
