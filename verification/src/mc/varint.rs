//! VarInt and VarLong: the self-terminating 7-bit continuation encoding of a
//! signed 32- or 64-bit integer, least-significant group first, with the high
//! bit set on every byte but the last.
//!
//! A value is treated as the unsigned bit pattern of its native width, so
//! negative values always use the maximum width (5 bytes for VarInt, 10 for
//! VarLong). A decoder that is still seeing continuation bits after the
//! maximum number of bytes fails with `HumongousVarInt`.

use vstd::prelude::*;

use crate::error::Error;
use crate::mc::de::Deserializer;
use crate::mc::ser::Serializer;

verus! {

/// The continuation encoding of the unsigned bit pattern `u`: 7-bit groups,
/// least significant first, high bit set on all but the last byte.
pub open spec fn venc(u: u64) -> Seq<u8>
    decreases u,
    via venc_dec
{
    if u < 128 {
        seq![u as u8]
    } else {
        seq![((u & 0x7f) as u8) | 0x80] + venc(u >> 7)
    }
}

#[via_fn]
proof fn venc_dec(u: u64) {
    assert(u >= 128 ==> u >> 7 < u) by (bit_vector);
}

/// One decoding step limit: reading a continuation encoding from the front of
/// `s`, with at most `max` bytes allowed. Mirrors a decoder that reads a byte
/// first (failing with `Io` at end of input) and only then checks the width
/// cap, so a too-long encoding fails with `HumongousVarInt` on its sixth
/// (or eleventh) byte even if that byte would have terminated it.
pub open spec fn vdec(s: Seq<u8>, max: nat) -> Result<(u64, nat), Error>
    decreases max,
{
    if s.len() == 0 {
        Err(Error::Io)
    } else if max == 0 {
        Err(Error::HumongousVarInt)
    } else {
        let b = s[0];
        if b & 0x80 == 0 {
            Ok(((b & 0x7f) as u64, 1))
        } else {
            match vdec(s.subrange(1, s.len() as int), (max - 1) as nat) {
                Ok((v, n)) => Ok((((b & 0x7f) as u64) | (v << 7), n + 1)),
                Err(e) => Err(e),
            }
        }
    }
}

/// The encoding of zero is the single byte 0x00.
pub proof fn lemma_venc_zero()
    ensures
        venc(0) == seq![0u8],
{
}

/// An encoding never exceeds ten bytes, and the encoding of a value that fits
/// in 32 bits never exceeds five.
pub proof fn lemma_venc_len(u: u64)
    ensures
        venc(u).len() <= 10,
        u <= u32::MAX ==> venc(u).len() <= 5,
{
    reveal_with_fuel(venc, 12);
    assert((u >> 7) >> 7 == u >> 14 && (u >> 14) >> 7 == u >> 21 && (u >> 21) >> 7 == u >> 28 && (u
        >> 28) >> 7 == u >> 35 && (u >> 35) >> 7 == u >> 42 && (u >> 42) >> 7 == u >> 49 && (u
        >> 49) >> 7 == u >> 56 && (u >> 56) >> 7 == u >> 63 && u >> 63 < 128 && (u <= u32::MAX ==> u
        >> 28 < 128)) by (bit_vector);
}

/// Decoding an encoding placed before arbitrary trailing bytes succeeds and
/// yields the encoded value and the encoding's exact length.
pub proof fn lemma_venc_vdec(u: u64, rest: Seq<u8>, max: nat)
    requires
        venc(u).len() <= max,
    ensures
        vdec(venc(u) + rest, max) == Ok::<_, Error>((u, venc(u).len())),
    decreases u,
{
    let s = venc(u) + rest;
    if u < 128 {
        assert(s[0] == u as u8);
        assert(u as u8 & 0x80 == 0 && (u as u8 & 0x7f) as u64 == u) by (bit_vector)
            requires
                u < 128,
        ;
    } else {
        let b: u8 = ((u & 0x7f) as u8) | 0x80;
        assert(s[0] == b);
        assert(b & 0x80 != 0) by (bit_vector)
            requires
                b == ((u & 0x7f) as u8) | 0x80,
        ;
        assert(u >> 7 < u) by (bit_vector)
            requires
                u >= 128,
        ;
        lemma_venc_vdec(u >> 7, rest, (max - 1) as nat);
        assert(s.subrange(1, s.len() as int) =~= venc(u >> 7) + rest);
        assert(((b & 0x7f) as u64) | ((u >> 7) << 7) == u) by (bit_vector)
            requires
                b == ((u & 0x7f) as u8) | 0x80,
        ;
    }
}

/// Appends the continuation encoding of `u`.
pub fn venc_write(out: &mut Vec<u8>, u: u64)
    ensures
        final(out)@ == old(out)@ + venc(u),
{
    let mut v: u64 = u;
    loop
        invariant_except_break
            out@ + venc(v) == old(out)@ + venc(u),
        ensures
            out@ == old(out)@ + venc(u),
        decreases v,
    {
        if v < 128 {
            out.push(v as u8);
            assert(out@ =~= old(out)@ + venc(u));
            break ;
        }
        let ghost pre = out@;
        out.push((#[verifier::truncate] ((v & 0x7f) as u8)) | 0x80);
        proof {
            assert(u64::MAX >> 7 < u64::MAX && (v >= 128 ==> v >> 7 < v)) by (bit_vector);
            assert(out@ + venc(v >> 7) =~= pre + venc(v));
        }
        v = v >> 7;
    }
}

/// Reads a continuation encoding from `input` starting at `pos`, allowing at
/// most `max` bytes; returns the decoded bit pattern and the position after
/// the last byte read.
pub fn vdec_read(input: &Vec<u8>, pos: usize, max: u64) -> (r: Result<(u64, usize), Error>)
    requires
        pos <= input.len(),
    ensures
        ({
            let sr = vdec(input@.subrange(pos as int, input@.len() as int), max as nat);
            match r {
                Ok((v, p)) => sr == Ok::<_, Error>((v, (p - pos) as nat)) && pos < p <= input@.len(),
                Err(e) => sr == Err::<(u64, nat), _>(e),
            }
        }),
    decreases max,
{
    let ghost s = input@.subrange(pos as int, input@.len() as int);
    if pos >= input.len() {
        return Err(Error::Io);
    }
    if max == 0 {
        return Err(Error::HumongousVarInt);
    }
    let b = input[pos];
    assert(b == s[0]);
    if b & 0x80 == 0 {
        Ok((((b & 0x7f) as u64), pos + 1))
    } else {
        proof {
            assert(s.subrange(1, s.len() as int) =~= input@.subrange(
                pos as int + 1,
                input@.len() as int,
            ));
        }
        match vdec_read(input, pos + 1, max - 1) {
            Ok((v, p)) => Ok((((b & 0x7f) as u64) | (v << 7), p)),
            Err(e) => Err(e),
        }
    }
}

/// A VarInt: a signed 32-bit integer carried in the continuation encoding of
/// its unsigned bit pattern.
#[derive(Default, Eq, PartialEq, Debug, Clone, Copy, Structural)]
pub struct VarInt(pub i32);

/// A VarLong: a signed 64-bit integer carried in the continuation encoding of
/// its unsigned bit pattern.
#[derive(Default, Eq, PartialEq, Debug, Clone, Copy, Structural)]
pub struct VarLong(pub i64);

/// The wire bytes of a VarInt.
pub open spec fn spec_varint(x: i32) -> Seq<u8> {
    venc((x as u32) as u64)
}

/// The wire bytes of a VarLong.
pub open spec fn spec_varlong(x: i64) -> Seq<u8> {
    venc(x as u64)
}

/// The VarInt (and VarLong) encoding of zero is the single byte 0x00.
pub proof fn lemma_varint_encode_zero()
    ensures
        spec_varint(0) == seq![0u8],
        spec_varlong(0) == seq![0u8],
{
    lemma_venc_zero();
}

/// A VarInt encoding takes at most five bytes.
pub proof fn lemma_varint_len(x: i32)
    ensures
        spec_varint(x).len() <= 5,
{
    lemma_venc_len((x as u32) as u64);
}

/// A VarLong encoding takes at most ten bytes.
pub proof fn lemma_varlong_len(x: i64)
    ensures
        spec_varlong(x).len() <= 10,
{
    lemma_venc_len(x as u64);
}

/// Decoding a VarInt encoding placed before arbitrary trailing bytes yields
/// the value back and consumes exactly the encoding.
pub proof fn lemma_varint_roundtrip(x: i32, rest: Seq<u8>)
    ensures
        vdec(spec_varint(x) + rest, 5) matches Ok(p) && (p.0 as u32) as i32 == x && p.1
            == spec_varint(x).len(),
{
    let u: u64 = (x as u32) as u64;
    assert(u <= u32::MAX && (u as u32) as i32 == x) by (bit_vector)
        requires
            u == (x as u32) as u64,
    ;
    lemma_venc_len(u);
    lemma_venc_vdec(u, rest, 5);
}

/// Decoding a VarLong encoding placed before arbitrary trailing bytes yields
/// the value back and consumes exactly the encoding.
pub proof fn lemma_varlong_roundtrip(x: i64, rest: Seq<u8>)
    ensures
        vdec(spec_varlong(x) + rest, 10) matches Ok(p) && p.0 as i64 == x && p.1 == spec_varlong(
            x,
        ).len(),
{
    let u: u64 = x as u64;
    assert(u as i64 == x) by (bit_vector)
        requires
            u == x as u64,
    ;
    lemma_venc_len(u);
    lemma_venc_vdec(u, rest, 10);
}

/// Five continuation bytes in a row make a VarInt decoder fail with
/// `HumongousVarInt` on the sixth byte, before anything can overflow.
pub proof fn lemma_varint_humongous(s: Seq<u8>)
    requires
        s.len() >= 6,
        forall|i: int| 0 <= i < 5 ==> (#[trigger] s[i]) & 0x80 != 0,
    ensures
        vdec(s, 5) == Err::<(u64, nat), Error>(Error::HumongousVarInt),
{
    let n = s.len() as int;
    let s1 = s.subrange(1, n);
    let s2 = s.subrange(2, n);
    let s3 = s.subrange(3, n);
    let s4 = s.subrange(4, n);
    let s5 = s.subrange(5, n);
    assert(s1.subrange(1, s1.len() as int) =~= s2);
    assert(s2.subrange(1, s2.len() as int) =~= s3);
    assert(s3.subrange(1, s3.len() as int) =~= s4);
    assert(s4.subrange(1, s4.len() as int) =~= s5);
    assert(s5.len() >= 1);
    assert(vdec(s5, 0) == Err::<(u64, nat), Error>(Error::HumongousVarInt));
    assert(s4[0] == s[4] && s3[0] == s[3] && s2[0] == s[2] && s1[0] == s[1]);
    assert(vdec(s4, 1) == Err::<(u64, nat), Error>(Error::HumongousVarInt));
    assert(vdec(s3, 2) == Err::<(u64, nat), Error>(Error::HumongousVarInt));
    assert(vdec(s2, 3) == Err::<(u64, nat), Error>(Error::HumongousVarInt));
    assert(vdec(s1, 4) == Err::<(u64, nat), Error>(Error::HumongousVarInt));
}

impl VarInt {
    /// Emits the continuation encoding of the value's unsigned bit pattern;
    /// at most five bytes.
    pub fn serialize(&self, s: &mut Serializer)
        ensures
            final(s).out@ == old(s).out@ + spec_varint(self.0),
            final(s).out@.len() <= old(s).out@.len() + 5,
    {
        proof {
            lemma_varint_len(self.0);
        }
        let w: u32 = #[verifier::truncate] (self.0 as u32);
        venc_write(&mut s.out, w as u64);
    }

    /// Reads a VarInt: at most five bytes, the accumulated bit pattern taken
    /// as a signed 32-bit value. Fails with `Io` at end of input and with
    /// `HumongousVarInt` on a sixth continuation byte.
    pub fn deserialize(d: &mut Deserializer) -> (r: Result<VarInt, Error>)
        requires
            old(d).wf(),
        ensures
            final(d).input == old(d).input,
            final(d).wf(),
            ({
                let sr = vdec(old(d).rest(), 5);
                match r {
                    Ok(v) => sr matches Ok(p) && v.0 == (p.0 as u32) as i32 && final(d).pos == old(
                        d,
                    ).pos + p.1,
                    Err(e) => sr == Err::<(u64, nat), Error>(e) && final(d).pos == old(d).pos,
                }
            }),
    {
        match vdec_read(&d.input, d.pos, 5) {
            Ok((u, p)) => {
                d.pos = p;
                let w: u32 = #[verifier::truncate] (u as u32);
                Ok(VarInt(#[verifier::truncate] (w as i32)))
            },
            Err(e) => Err(e),
        }
    }
}

impl VarLong {
    /// Emits the continuation encoding of the value's unsigned bit pattern;
    /// at most ten bytes.
    pub fn serialize(&self, s: &mut Serializer)
        ensures
            final(s).out@ == old(s).out@ + spec_varlong(self.0),
            final(s).out@.len() <= old(s).out@.len() + 10,
    {
        proof {
            lemma_varlong_len(self.0);
        }
        venc_write(&mut s.out, #[verifier::truncate] (self.0 as u64));
    }

    /// Reads a VarLong: at most ten bytes, the accumulated bit pattern taken
    /// as a signed 64-bit value. Fails with `Io` at end of input and with
    /// `HumongousVarInt` on an eleventh continuation byte.
    pub fn deserialize(d: &mut Deserializer) -> (r: Result<VarLong, Error>)
        requires
            old(d).wf(),
        ensures
            final(d).input == old(d).input,
            final(d).wf(),
            ({
                let sr = vdec(old(d).rest(), 10);
                match r {
                    Ok(v) => sr matches Ok(p) && v.0 == p.0 as i64 && final(d).pos == old(d).pos
                        + p.1,
                    Err(e) => sr == Err::<(u64, nat), Error>(e) && final(d).pos == old(d).pos,
                }
            }),
    {
        match vdec_read(&d.input, d.pos, 10) {
            Ok((u, p)) => {
                d.pos = p;
                Ok(VarLong(#[verifier::truncate] (u as i64)))
            },
            Err(e) => Err(e),
        }
    }
}

} // verus!
