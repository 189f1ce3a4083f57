//! The MC wire serializer: fixed-width big-endian primitives, booleans,
//! floats by bit pattern, raw byte runs, and length-prefixed strings of
//! 32-bit code points. Bytes are appended to an in-memory sink; the caller
//! hands the finished buffer to whatever I/O layer it uses.

use vstd::prelude::*;

use crate::bytes::{be16, be32, be64, be128, put_u16, put_u32, put_u64, put_u128};
use crate::error::Error;
use crate::mc::varint::{spec_varint, venc_write};

verus! {

/// The wire form of one code point: its value as four big-endian bytes.
pub open spec fn utf32_bytes(s: Seq<char>) -> Seq<u8>
    decreases s.len(),
{
    if s.len() == 0 {
        Seq::empty()
    } else {
        be32(s[0] as u32) + utf32_bytes(s.subrange(1, s.len() as int))
    }
}

/// The wire form of an MC string: a VarInt count of code points, then each
/// code point as a big-endian 32-bit value.
pub open spec fn spec_mc_string(s: Seq<char>) -> Seq<u8> {
    spec_varint(s.len() as i32) + utf32_bytes(s)
}

/// The code-point encoding takes exactly four bytes per character.
pub proof fn lemma_utf32_len(s: Seq<char>)
    ensures
        utf32_bytes(s).len() == 4 * s.len(),
    decreases s.len(),
{
    if s.len() > 0 {
        lemma_utf32_len(s.subrange(1, s.len() as int));
    }
}

/// Concatenating character sequences concatenates their code-point encodings.
pub proof fn lemma_utf32_append(a: Seq<char>, b: Seq<char>)
    ensures
        utf32_bytes(a + b) == utf32_bytes(a) + utf32_bytes(b),
    decreases a.len(),
{
    if a.len() == 0 {
        assert(a + b =~= b);
        assert(utf32_bytes(a) + utf32_bytes(b) =~= utf32_bytes(b));
    } else {
        assert((a + b).subrange(1, (a + b).len() as int) =~= a.subrange(1, a.len() as int) + b);
        lemma_utf32_append(a.subrange(1, a.len() as int), b);
        assert(utf32_bytes(a + b) =~= utf32_bytes(a) + utf32_bytes(b));
    }
}

/// The MC wire serializer. It owns its byte sink for the duration of one
/// document; everything it emits is appended to `out`.
pub struct Serializer {
    pub out: Vec<u8>,
}

/// A marker for the composite encodings the MC wire format does not support;
/// the serializer never constructs one.
pub struct NoSerialize;

impl Serializer {
    /// A serializer appending to `out`.
    pub fn new(out: Vec<u8>) -> (s: Serializer)
        ensures
            s.out == out,
    {
        Serializer { out }
    }

    /// Hands the accumulated bytes back.
    pub fn into_bytes(self) -> (r: Vec<u8>)
        ensures
            r == self.out,
    {
        self.out
    }

    /// A boolean is one byte: 0x01 for true, 0x00 for false.
    pub fn serialize_bool(&mut self, v: bool)
        ensures
            final(self).out@ == old(self).out@ + seq![
                if v {
                    1u8
                } else {
                    0u8
                },
            ],
    {
        self.out.push(if v { 1u8 } else { 0u8 });
        assert(final(self).out@ =~= old(self).out@ + seq![if v { 1u8 } else { 0u8 }]);
    }

    /// An unsigned byte is emitted as itself.
    pub fn serialize_u8(&mut self, v: u8)
        ensures
            final(self).out@ == old(self).out@ + seq![v],
    {
        self.out.push(v);
        assert(final(self).out@ =~= old(self).out@ + seq![v]);
    }

    /// A signed byte is emitted as its bit pattern.
    pub fn serialize_i8(&mut self, v: i8)
        ensures
            final(self).out@ == old(self).out@ + seq![v as u8],
    {
        self.out.push(#[verifier::truncate] (v as u8));
        assert(final(self).out@ =~= old(self).out@ + seq![v as u8]);
    }

    /// Two big-endian bytes.
    pub fn serialize_u16(&mut self, v: u16)
        ensures
            final(self).out@ == old(self).out@ + be16(v),
    {
        put_u16(&mut self.out, v);
    }

    /// The bit pattern of `v` as two big-endian bytes.
    pub fn serialize_i16(&mut self, v: i16)
        ensures
            final(self).out@ == old(self).out@ + be16(v as u16),
    {
        put_u16(&mut self.out, #[verifier::truncate] (v as u16));
    }

    /// Four big-endian bytes.
    pub fn serialize_u32(&mut self, v: u32)
        ensures
            final(self).out@ == old(self).out@ + be32(v),
    {
        put_u32(&mut self.out, v);
    }

    /// The bit pattern of `v` as four big-endian bytes.
    pub fn serialize_i32(&mut self, v: i32)
        ensures
            final(self).out@ == old(self).out@ + be32(v as u32),
    {
        put_u32(&mut self.out, #[verifier::truncate] (v as u32));
    }

    /// Eight big-endian bytes.
    pub fn serialize_u64(&mut self, v: u64)
        ensures
            final(self).out@ == old(self).out@ + be64(v),
    {
        put_u64(&mut self.out, v);
    }

    /// The bit pattern of `v` as eight big-endian bytes.
    pub fn serialize_i64(&mut self, v: i64)
        ensures
            final(self).out@ == old(self).out@ + be64(v as u64),
    {
        put_u64(&mut self.out, #[verifier::truncate] (v as u64));
    }

    /// Sixteen big-endian bytes.
    pub fn serialize_u128(&mut self, v: u128)
        ensures
            final(self).out@ == old(self).out@ + be128(v),
    {
        put_u128(&mut self.out, v);
    }

    /// The bit pattern of `v` as sixteen big-endian bytes.
    pub fn serialize_i128(&mut self, v: i128)
        ensures
            final(self).out@ == old(self).out@ + be128(v as u128),
    {
        put_u128(&mut self.out, #[verifier::truncate] (v as u128));
    }

    /// An `f32` is emitted as the big-endian bytes of its IEEE-754 bit
    /// pattern; the caller obtains the pattern with `to_bits`.
    pub fn serialize_f32_bits(&mut self, bits: u32)
        ensures
            final(self).out@ == old(self).out@ + be32(bits),
    {
        put_u32(&mut self.out, bits);
    }

    /// An `f64` is emitted as the big-endian bytes of its IEEE-754 bit
    /// pattern; the caller obtains the pattern with `to_bits`.
    pub fn serialize_f64_bits(&mut self, bits: u64)
        ensures
            final(self).out@ == old(self).out@ + be64(bits),
    {
        put_u64(&mut self.out, bits);
    }

    /// Raw bytes are emitted as they stand.
    pub fn serialize_bytes(&mut self, v: &[u8])
        ensures
            final(self).out@ == old(self).out@ + v@,
    {
        let n = v.len();
        for i in 0..n
            invariant
                n == v@.len(),
                self.out@ == old(self).out@ + v@.subrange(0, i as int),
        {
            self.out.push(v[i]);
            assert(self.out@ =~= old(self).out@ + v@.subrange(0, i as int + 1));
        }
        assert(v@.subrange(0, n as int) =~= v@);
    }

    /// An MC string: a VarInt count of code points, then each code point as a
    /// big-endian 32-bit value. A string of more than `i32::MAX` code points
    /// does not fit the length prefix and fails with `HumongousString`,
    /// leaving the sink untouched.
    pub fn serialize_str(&mut self, v: &str) -> (r: Result<(), Error>)
        ensures
            v@.len() <= i32::MAX ==> r == Ok::<(), Error>(()) && final(self).out@ == old(self).out@
                + spec_mc_string(v@),
            v@.len() > i32::MAX ==> r == Err::<(), Error>(Error::HumongousString)
                && final(self).out@ == old(self).out@,
    {
        let n = v.unicode_len();
        if n > i32::MAX as usize {
            return Err(Error::HumongousString);
        }
        let m: i32 = n as i32;
        venc_write(&mut self.out, (m as u32) as u64);
        let ghost prefix = old(self).out@ + spec_varint(m);
        assert(self.out@ == prefix);
        for i in 0..n
            invariant
                n == v@.len(),
                n <= i32::MAX,
                self.out@ == prefix + utf32_bytes(v@.subrange(0, i as int)),
        {
            let c = v.get_char(i);
            put_u32(&mut self.out, c as u32);
            proof {
                let a = v@.subrange(0, i as int);
                assert(v@.subrange(0, i as int + 1) =~= a + seq![v@[i as int]]);
                lemma_utf32_append(a, seq![v@[i as int]]);
                let single = seq![v@[i as int]];
                reveal_with_fuel(utf32_bytes, 3);
                assert(single.subrange(1, 1) =~= Seq::<char>::empty());
                assert(utf32_bytes(single) =~= be32(v@[i as int] as u32));
            }
        }
        assert(v@.subrange(0, n as int) =~= v@);
        Ok(())
    }
}

} // verus!
