//! The MC wire deserializer: the mirror image of the serializer, reading
//! fixed-width big-endian primitives, booleans, float bit patterns and
//! length-prefixed strings of 32-bit code points from an in-memory byte
//! source. Running out of bytes fails with `Io`.

use vstd::prelude::*;
use vstd::utf8::is_scalar;

use crate::bytes::{be16_val, be32_val, be64_val, be128_val, get_u16, get_u32, get_u64, get_u128};
use crate::error::Error;
use crate::mc::varint::{vdec, vdec_read};
use crate::mc::ser::{spec_mc_string, utf32_bytes};
use crate::mc::varint::{venc, lemma_venc_len, lemma_venc_vdec};

verus! {

/// Relies on char::from_u32: yields the character for a Unicode scalar value
/// (at most 0x10FFFF and not a surrogate) and None for anything else.
pub assume_specification[ char::from_u32 ](u: u32) -> (r: Option<char>)
    ensures
        r == (if is_scalar(u) {
            Some(u as char)
        } else {
            None::<char>
        }),
;

/// Relies on String::push: appends exactly the one character.
pub assume_specification[ String::push ](s: &mut String, ch: char)
    ensures
        final(s)@ == old(s)@ + seq![ch],
;

/// Decoding `count` big-endian 32-bit code points from the front of `bytes`:
/// each must be a Unicode scalar value, else the string is invalid; running
/// out of bytes is an `Io` failure. Yields the characters and the number of
/// bytes consumed.
pub open spec fn utf32_dec(bytes: Seq<u8>, count: int) -> Result<(Seq<char>, nat), Error>
    decreases count,
{
    if count <= 0 {
        Ok((Seq::empty(), 0))
    } else if bytes.len() < 4 {
        Err(Error::Io)
    } else {
        let u = be32_val(bytes.subrange(0, 4));
        if is_scalar(u) {
            match utf32_dec(bytes.subrange(4, bytes.len() as int), count - 1) {
                Ok((cs, m)) => Ok((seq![u as char] + cs, m + 4)),
                Err(e) => Err(e),
            }
        } else {
            Err(Error::InvalidString)
        }
    }
}

/// Decoding an MC string from the front of `bytes`: a VarInt count of code
/// points (a non-positive count yields the empty string), then that many
/// 32-bit code points. Yields the characters and the bytes consumed.
pub open spec fn spec_string_dec(bytes: Seq<u8>) -> Result<(Seq<char>, nat), Error> {
    match vdec(bytes, 5) {
        Ok((u, n)) => {
            let count = (u as u32) as i32;
            match utf32_dec(bytes.subrange(n as int, bytes.len() as int), count as int) {
                Ok((cs, m)) => Ok((cs, (n + m) as nat)),
                Err(e) => Err(e),
            }
        },
        Err(e) => Err(e),
    }
}

/// Decoding the code-point encoding of `s` placed before arbitrary trailing
/// bytes yields `s` back and consumes exactly its four bytes per character.
pub proof fn lemma_utf32_roundtrip(s: Seq<char>, rest: Seq<u8>)
    ensures
        utf32_dec(utf32_bytes(s) + rest, s.len() as int) == Ok::<_, Error>(
            (s, (4 * s.len()) as nat),
        ),
    decreases s.len(),
{
    broadcast use vstd::utf8::char_is_scalar, vstd::utf8::char_u32_cast;

    let bytes = utf32_bytes(s) + rest;
    if s.len() == 0 {
        assert(utf32_dec(bytes, 0) == Ok::<_, Error>((Seq::<char>::empty(), 0nat)));
        assert(s =~= Seq::<char>::empty());
    } else {
        let c = s[0];
        let tail = s.subrange(1, s.len() as int);
        assert(bytes.len() >= 4) by {
            crate::bytes::lemma_be32_roundtrip(c as u32);
        }
        assert(bytes.subrange(0, 4) =~= crate::bytes::be32(c as u32));
        crate::bytes::lemma_be32_roundtrip(c as u32);
        let u = be32_val(bytes.subrange(0, 4));
        assert(u == c as u32);
        vstd::utf8::char_u32_cast(c, u);
        assert(u as char == c);
        assert(bytes.subrange(4, bytes.len() as int) =~= utf32_bytes(tail) + rest);
        lemma_utf32_roundtrip(tail, rest);
        assert(seq![c] + tail =~= s);
    }
}

/// Decoding the MC-string encoding of `s` placed before arbitrary trailing
/// bytes yields `s` back and consumes exactly the encoding.
pub proof fn lemma_mc_string_roundtrip(s: Seq<char>, rest: Seq<u8>)
    requires
        s.len() <= i32::MAX,
    ensures
        spec_string_dec(spec_mc_string(s) + rest) == Ok::<_, Error>(
            (s, spec_mc_string(s).len() as nat),
        ),
{
    let n: i32 = s.len() as i32;
    let u: u64 = (n as u32) as u64;
    let bytes = spec_mc_string(s) + rest;
    crate::mc::ser::lemma_utf32_len(s);
    lemma_venc_len(u);
    assert(u <= u32::MAX) by (bit_vector)
        requires
            u == (n as u32) as u64,
    ;
    lemma_venc_vdec(u, utf32_bytes(s) + rest, 5);
    assert(bytes =~= venc(u) + (utf32_bytes(s) + rest));
    let m = venc(u).len();
    assert(vdec(bytes, 5) == Ok::<_, Error>((u, m)));
    assert((u as u32) as i32 == n) by (bit_vector)
        requires
            u == (n as u32) as u64,
    ;
    assert(bytes.subrange(m as int, bytes.len() as int) =~= utf32_bytes(s) + rest);
    lemma_utf32_roundtrip(s, rest);
}

/// The MC wire deserializer. It owns its byte source for the duration of one
/// document and walks it with a cursor.
pub struct Deserializer {
    pub input: Vec<u8>,
    pub pos: usize,
}

impl Deserializer {
    /// The cursor never runs past the end of the input.
    pub open spec fn wf(self) -> bool {
        self.pos <= self.input@.len()
    }

    /// The bytes not yet consumed.
    pub open spec fn rest(self) -> Seq<u8> {
        self.input@.subrange(self.pos as int, self.input@.len() as int)
    }

    /// A deserializer reading `input` from its start.
    pub fn new(input: Vec<u8>) -> (d: Deserializer)
        ensures
            d.input == input,
            d.pos == 0,
            d.wf(),
    {
        let d = Deserializer { input, pos: 0 };
        proof {
            assert(d.input@.len() >= 0);
        }
        d
    }

    /// A boolean byte: 0x00 is false, 0x01 is true, anything else is
    /// `InvalidBooleanValue` (the byte is consumed either way).
    pub fn deserialize_bool(&mut self) -> (r: Result<bool, Error>)
        requires
            old(self).wf(),
        ensures
            final(self).input == old(self).input,
            final(self).wf(),
            old(self).pos == old(self).input@.len() ==> r == Err::<bool, Error>(Error::Io) && final(self).pos == old(self).pos,
            old(self).pos < old(self).input@.len() ==> ({
                let b = old(self).input@[old(self).pos as int];
                final(self).pos == old(self).pos + 1 && r == (if b == 0 {
                    Ok::<bool, Error>(false)
                } else if b == 1 {
                    Ok::<bool, Error>(true)
                } else {
                    Err::<bool, Error>(Error::InvalidBooleanValue(b))
                })
            }),
    {
        if self.pos >= self.input.len() {
            return Err(Error::Io);
        }
        let b = self.input[self.pos];
        self.pos = self.pos + 1;
        match b {
            0 => Ok(false),
            1 => Ok(true),
            _ => Err(Error::InvalidBooleanValue(b)),
        }
    }

    /// One byte, as an unsigned value.
    pub fn deserialize_u8(&mut self) -> (r: Result<u8, Error>)
        requires
            old(self).wf(),
        ensures
            final(self).input == old(self).input,
            final(self).wf(),
            old(self).pos == old(self).input@.len() ==> r == Err::<u8, Error>(Error::Io) && final(self).pos == old(self).pos,
            old(self).pos < old(self).input@.len() ==> r == Ok::<u8, Error>(
                old(self).input@[old(self).pos as int],
            ) && final(self).pos == old(self).pos + 1,
    {
        if self.pos >= self.input.len() {
            return Err(Error::Io);
        }
        let b = self.input[self.pos];
        self.pos = self.pos + 1;
        Ok(b)
    }

    /// One byte, as a signed bit pattern.
    pub fn deserialize_i8(&mut self) -> (r: Result<i8, Error>)
        requires
            old(self).wf(),
        ensures
            final(self).input == old(self).input,
            final(self).wf(),
            old(self).pos == old(self).input@.len() ==> r == Err::<i8, Error>(Error::Io) && final(self).pos == old(self).pos,
            old(self).pos < old(self).input@.len() ==> r == Ok::<i8, Error>(
                old(self).input@[old(self).pos as int] as i8,
            ) && final(self).pos == old(self).pos + 1,
    {
        if self.pos >= self.input.len() {
            return Err(Error::Io);
        }
        let b = self.input[self.pos];
        self.pos = self.pos + 1;
        Ok(#[verifier::truncate] (b as i8))
    }

    /// Two big-endian bytes, as an unsigned value.
    pub fn deserialize_u16(&mut self) -> (r: Result<u16, Error>)
        requires
            old(self).wf(),
        ensures
            final(self).input == old(self).input,
            final(self).wf(),
            old(self).pos + 2 <= old(self).input@.len() ==> r == Ok::<u16, Error>(
                be16_val(old(self).input@.subrange(old(self).pos as int, old(self).pos + 2)),
            ) && final(self).pos == old(self).pos + 2,
            old(self).pos + 2 > old(self).input@.len() ==> r == Err::<u16, Error>(Error::Io)
                && final(self).pos == old(self).pos,
    {
        if self.input.len() - self.pos < 2 {
            return Err(Error::Io);
        }
        let v = get_u16(&self.input, self.pos);
        self.pos = self.pos + 2;
        Ok(v)
    }

    /// Two big-endian bytes, as a signed bit pattern.
    pub fn deserialize_i16(&mut self) -> (r: Result<i16, Error>)
        requires
            old(self).wf(),
        ensures
            final(self).input == old(self).input,
            final(self).wf(),
            old(self).pos + 2 <= old(self).input@.len() ==> r == Ok::<i16, Error>(
                be16_val(old(self).input@.subrange(old(self).pos as int, old(self).pos + 2)) as i16,
            ) && final(self).pos == old(self).pos + 2,
            old(self).pos + 2 > old(self).input@.len() ==> r == Err::<i16, Error>(Error::Io)
                && final(self).pos == old(self).pos,
    {
        match self.deserialize_u16() {
            Ok(v) => Ok(#[verifier::truncate] (v as i16)),
            Err(e) => Err(e),
        }
    }

    /// Four big-endian bytes, as an unsigned value.
    pub fn deserialize_u32(&mut self) -> (r: Result<u32, Error>)
        requires
            old(self).wf(),
        ensures
            final(self).input == old(self).input,
            final(self).wf(),
            old(self).pos + 4 <= old(self).input@.len() ==> r == Ok::<u32, Error>(
                be32_val(old(self).input@.subrange(old(self).pos as int, old(self).pos + 4)),
            ) && final(self).pos == old(self).pos + 4,
            old(self).pos + 4 > old(self).input@.len() ==> r == Err::<u32, Error>(Error::Io)
                && final(self).pos == old(self).pos,
    {
        if self.input.len() - self.pos < 4 {
            return Err(Error::Io);
        }
        let v = get_u32(&self.input, self.pos);
        self.pos = self.pos + 4;
        Ok(v)
    }

    /// Four big-endian bytes, as a signed bit pattern.
    pub fn deserialize_i32(&mut self) -> (r: Result<i32, Error>)
        requires
            old(self).wf(),
        ensures
            final(self).input == old(self).input,
            final(self).wf(),
            old(self).pos + 4 <= old(self).input@.len() ==> r == Ok::<i32, Error>(
                be32_val(old(self).input@.subrange(old(self).pos as int, old(self).pos + 4)) as i32,
            ) && final(self).pos == old(self).pos + 4,
            old(self).pos + 4 > old(self).input@.len() ==> r == Err::<i32, Error>(Error::Io)
                && final(self).pos == old(self).pos,
    {
        match self.deserialize_u32() {
            Ok(v) => Ok(#[verifier::truncate] (v as i32)),
            Err(e) => Err(e),
        }
    }

    /// Eight big-endian bytes, as an unsigned value.
    pub fn deserialize_u64(&mut self) -> (r: Result<u64, Error>)
        requires
            old(self).wf(),
        ensures
            final(self).input == old(self).input,
            final(self).wf(),
            old(self).pos + 8 <= old(self).input@.len() ==> r == Ok::<u64, Error>(
                be64_val(old(self).input@.subrange(old(self).pos as int, old(self).pos + 8)),
            ) && final(self).pos == old(self).pos + 8,
            old(self).pos + 8 > old(self).input@.len() ==> r == Err::<u64, Error>(Error::Io)
                && final(self).pos == old(self).pos,
    {
        if self.input.len() - self.pos < 8 {
            return Err(Error::Io);
        }
        let v = get_u64(&self.input, self.pos);
        self.pos = self.pos + 8;
        Ok(v)
    }

    /// Eight big-endian bytes, as a signed bit pattern.
    pub fn deserialize_i64(&mut self) -> (r: Result<i64, Error>)
        requires
            old(self).wf(),
        ensures
            final(self).input == old(self).input,
            final(self).wf(),
            old(self).pos + 8 <= old(self).input@.len() ==> r == Ok::<i64, Error>(
                be64_val(old(self).input@.subrange(old(self).pos as int, old(self).pos + 8)) as i64,
            ) && final(self).pos == old(self).pos + 8,
            old(self).pos + 8 > old(self).input@.len() ==> r == Err::<i64, Error>(Error::Io)
                && final(self).pos == old(self).pos,
    {
        match self.deserialize_u64() {
            Ok(v) => Ok(#[verifier::truncate] (v as i64)),
            Err(e) => Err(e),
        }
    }

    /// Sixteen big-endian bytes, as an unsigned value.
    pub fn deserialize_u128(&mut self) -> (r: Result<u128, Error>)
        requires
            old(self).wf(),
        ensures
            final(self).input == old(self).input,
            final(self).wf(),
            old(self).pos + 16 <= old(self).input@.len() ==> r == Ok::<u128, Error>(
                be128_val(old(self).input@.subrange(old(self).pos as int, old(self).pos + 16)),
            ) && final(self).pos == old(self).pos + 16,
            old(self).pos + 16 > old(self).input@.len() ==> r == Err::<u128, Error>(Error::Io)
                && final(self).pos == old(self).pos,
    {
        if self.input.len() - self.pos < 16 {
            return Err(Error::Io);
        }
        let v = get_u128(&self.input, self.pos);
        self.pos = self.pos + 16;
        Ok(v)
    }

    /// Sixteen big-endian bytes, as a signed bit pattern.
    pub fn deserialize_i128(&mut self) -> (r: Result<i128, Error>)
        requires
            old(self).wf(),
        ensures
            final(self).input == old(self).input,
            final(self).wf(),
            old(self).pos + 16 <= old(self).input@.len() ==> r == Ok::<i128, Error>(
                be128_val(
                    old(self).input@.subrange(old(self).pos as int, old(self).pos + 16),
                ) as i128,
            ) && final(self).pos == old(self).pos + 16,
            old(self).pos + 16 > old(self).input@.len() ==> r == Err::<i128, Error>(Error::Io)
                && final(self).pos == old(self).pos,
    {
        match self.deserialize_u128() {
            Ok(v) => Ok(#[verifier::truncate] (v as i128)),
            Err(e) => Err(e),
        }
    }

    /// The IEEE-754 bit pattern of an `f32`, from four big-endian bytes; the
    /// caller rebuilds the float with `from_bits`.
    pub fn deserialize_f32_bits(&mut self) -> (r: Result<u32, Error>)
        requires
            old(self).wf(),
        ensures
            final(self).input == old(self).input,
            final(self).wf(),
            old(self).pos + 4 <= old(self).input@.len() ==> r == Ok::<u32, Error>(
                be32_val(old(self).input@.subrange(old(self).pos as int, old(self).pos + 4)),
            ) && final(self).pos == old(self).pos + 4,
            old(self).pos + 4 > old(self).input@.len() ==> r == Err::<u32, Error>(Error::Io)
                && final(self).pos == old(self).pos,
    {
        self.deserialize_u32()
    }

    /// The IEEE-754 bit pattern of an `f64`, from eight big-endian bytes; the
    /// caller rebuilds the float with `from_bits`.
    pub fn deserialize_f64_bits(&mut self) -> (r: Result<u64, Error>)
        requires
            old(self).wf(),
        ensures
            final(self).input == old(self).input,
            final(self).wf(),
            old(self).pos + 8 <= old(self).input@.len() ==> r == Ok::<u64, Error>(
                be64_val(old(self).input@.subrange(old(self).pos as int, old(self).pos + 8)),
            ) && final(self).pos == old(self).pos + 8,
            old(self).pos + 8 > old(self).input@.len() ==> r == Err::<u64, Error>(Error::Io)
                && final(self).pos == old(self).pos,
    {
        self.deserialize_u64()
    }

    /// An MC string: a VarInt count of code points (a non-positive count
    /// yields the empty string, as the count is read as a signed value), then
    /// that many big-endian 32-bit code points, each of which must be a
    /// Unicode scalar value.
    #[verifier::loop_isolation(false)]
    pub fn deserialize_string(&mut self) -> (r: Result<String, Error>)
        requires
            old(self).wf(),
        ensures
            final(self).input == old(self).input,
            final(self).wf(),
            final(self).pos >= old(self).pos,
            ({
                let sr = spec_string_dec(old(self).rest());
                match r {
                    Ok(s) => sr matches Ok(p) && p.0 == s@ && final(self).pos == old(self).pos
                        + p.1,
                    Err(e) => sr == Err::<(Seq<char>, nat), Error>(e),
                }
            }),
    {
        let ghost rest0 = self.rest();
        let (u, p) = match vdec_read(&self.input, self.pos, 5) {
            Ok(x) => x,
            Err(e) => {
                return Err(e);
            },
        };
        proof {
            assert(old(self).rest().len() == old(self).input@.len() - old(self).pos);
        }
        let ghost nvar = (p - old(self).pos) as nat;
        self.pos = p;
        let w: u32 = #[verifier::truncate] (u as u32);
        let count: i32 = #[verifier::truncate] (w as i32);
        let ghost rest1 = rest0.subrange(nvar as int, rest0.len() as int);
        proof {
            assert(rest1 =~= self.rest());
            assert(vdec(rest0, 5) == Ok::<_, Error>((u, nvar)));
            assert(spec_string_dec(rest0) == (match utf32_dec(rest1, count as int) {
                Ok((cs, m)) => Ok::<(Seq<char>, nat), Error>((cs, (nvar + m) as nat)),
                Err(e) => Err::<(Seq<char>, nat), Error>(e),
            }));
        }
        let mut s = String::new();
        if count <= 0 {
            return Ok(s);
        }
        let ghost pos1 = p;
        let mut i: i32 = 0;
        proof {
            assert(self.rest() =~= rest1.subrange(0, rest1.len() as int));
            match utf32_dec(rest1, count as int) {
                Ok((cs, m)) => {
                    assert(s@ + cs =~= cs);
                },
                Err(e) => {},
            }
        }
        while i < count
            invariant
                0 <= i <= count,
                self.input == old(self).input,
                self.wf(),
                self.pos == pos1 + 4 * i,
                self.rest() =~= rest1.subrange(4 * i, rest1.len() as int),
                ({
                    match utf32_dec(self.rest(), count - i) {
                        Ok((cs, m)) => utf32_dec(rest1, count as int) == Ok::<_, Error>(
                            (s@ + cs, (4 * i + m) as nat),
                        ),
                        Err(e) => utf32_dec(rest1, count as int) == Err::<(Seq<char>, nat), _>(e),
                    }
                }),
            decreases count - i,
        {
            let ghost rest_here = self.rest();
            let v = match self.deserialize_u32() {
                Ok(v) => v,
                Err(e) => {
                    proof {
                        assert(rest_here.len() < 4);
                    }
                    return Err(e);
                },
            };
            proof {
                assert(rest_here.subrange(0, 4) =~= old(self).input@.subrange(
                    pos1 + 4 * i,
                    pos1 + 4 * i + 4,
                ));
            }
            let c = match char::from_u32(v) {
                Some(c) => c,
                None => {
                    return Err(Error::InvalidString);
                },
            };
            let ghost s_pre = s@;
            s.push(c);
            proof {
                assert(rest_here.subrange(4, rest_here.len() as int) =~= self.rest());
                assert(self.rest() =~= rest1.subrange(4 * (i + 1), rest1.len() as int));
                match utf32_dec(self.rest(), count - (i + 1)) {
                    Ok((cs, m)) => {
                        assert(utf32_dec(rest_here, count - i) == Ok::<_, Error>(
                            (seq![c] + cs, (m + 4) as nat),
                        ));
                        assert((s@ + cs) =~= (s_pre + (seq![c] + cs)));
                    },
                    Err(e) => {},
                }
            }
            i = i + 1;
        }
        proof {
            assert(utf32_dec(self.rest(), 0) == Ok::<_, Error>((Seq::<char>::empty(), 0nat)));
            assert(s@ + Seq::<char>::empty() =~= s@);
        }
        Ok(s)
    }
}

} // verus!
