//! The NBT deserializer: the mirror image of the serializer. It parses NBT
//! bytes from an in-memory source into the value model. The serializer's
//! frame stack reappears here as the recursion structure: list elements are
//! payload-only, compound entries are named tags up to the TAG_End
//! terminator, and the document root is a named tag whose name is read and
//! discarded.

use vstd::prelude::*;

use crate::bytes::{
    be16_val, be32_val, be64_val, get_u16, get_u32, get_u64, lemma_be16_roundtrip,
    lemma_be32_roundtrip, lemma_be64_roundtrip, lemma_cast_i8, lemma_cast_i16, lemma_cast_i32,
    lemma_cast_i64,
};
use crate::error::Error;
use crate::nbt::cesu::{from_java_cesu8, jstr};
use crate::nbt::value::{
    NbtV, Value, elem_type_id, entries, lemma_payload_min, named, payload, payloads, strpay,
    type_id_of, view_of, view_of_entries, view_of_seq, wf,
};

verus! {

/// The NBT deserializer. It owns its byte source for the duration of one
/// document and walks it with a cursor.
pub struct Deserializer {
    pub input: Vec<u8>,
    pub pos: usize,
}

impl Deserializer {
    /// The cursor never runs past the end of the input.
    pub open spec fn wf(self) -> bool {
        self.pos <= self.input@.len()
    }

    /// The bytes not yet consumed.
    pub open spec fn rest(self) -> Seq<u8> {
        self.input@.subrange(self.pos as int, self.input@.len() as int)
    }

    /// A deserializer reading `input` from its start.
    pub fn new(input: Vec<u8>) -> (d: Deserializer)
        ensures
            d.input == input,
            d.pos == 0,
            d.wf(),
    {
        let d = Deserializer { input, pos: 0 };
        proof {
            assert(d.input@.len() >= 0);
        }
        d
    }

    /// One byte read as a TypeID; `Io` at end of input.
    pub fn parse_type_id(&mut self) -> (r: Result<u8, Error>)
        requires
            old(self).wf(),
        ensures
            final(self).input == old(self).input,
            final(self).wf(),
            old(self).pos == old(self).input@.len() ==> r == Err::<u8, Error>(Error::Io) && final(self).pos == old(self).pos,
            old(self).pos < old(self).input@.len() ==> r == Ok::<u8, Error>(
                old(self).input@[old(self).pos as int],
            ) && final(self).pos == old(self).pos + 1,
    {
        if self.pos >= self.input.len() {
            return Err(Error::Io);
        }
        let b = self.input[self.pos];
        self.pos = self.pos + 1;
        Ok(b)
    }

    /// One byte read as a signed value.
    pub fn parse_i8(&mut self) -> (r: Result<i8, Error>)
        requires
            old(self).wf(),
        ensures
            final(self).input == old(self).input,
            final(self).wf(),
            old(self).pos == old(self).input@.len() ==> r == Err::<i8, Error>(Error::Io) && final(self).pos == old(self).pos,
            old(self).pos < old(self).input@.len() ==> r == Ok::<i8, Error>(
                old(self).input@[old(self).pos as int] as i8,
            ) && final(self).pos == old(self).pos + 1,
    {
        if self.pos >= self.input.len() {
            return Err(Error::Io);
        }
        let b = self.input[self.pos];
        self.pos = self.pos + 1;
        Ok(#[verifier::truncate] (b as i8))
    }

    /// Two big-endian bytes read as an unsigned length.
    pub fn parse_u16(&mut self) -> (r: Result<u16, Error>)
        requires
            old(self).wf(),
        ensures
            final(self).input == old(self).input,
            final(self).wf(),
            old(self).pos + 2 <= old(self).input@.len() ==> r == Ok::<u16, Error>(
                be16_val(old(self).input@.subrange(old(self).pos as int, old(self).pos + 2)),
            ) && final(self).pos == old(self).pos + 2,
            old(self).pos + 2 > old(self).input@.len() ==> r == Err::<u16, Error>(Error::Io)
                && final(self).pos == old(self).pos,
    {
        if self.input.len() - self.pos < 2 {
            return Err(Error::Io);
        }
        let v = get_u16(&self.input, self.pos);
        self.pos = self.pos + 2;
        Ok(v)
    }

    /// Two big-endian bytes read as a signed bit pattern.
    pub fn parse_i16(&mut self) -> (r: Result<i16, Error>)
        requires
            old(self).wf(),
        ensures
            final(self).input == old(self).input,
            final(self).wf(),
            old(self).pos + 2 <= old(self).input@.len() ==> r == Ok::<i16, Error>(
                be16_val(old(self).input@.subrange(old(self).pos as int, old(self).pos + 2)) as i16,
            ) && final(self).pos == old(self).pos + 2,
            old(self).pos + 2 > old(self).input@.len() ==> r == Err::<i16, Error>(Error::Io)
                && final(self).pos == old(self).pos,
    {
        match self.parse_u16() {
            Ok(v) => Ok(#[verifier::truncate] (v as i16)),
            Err(e) => Err(e),
        }
    }

    /// Four big-endian bytes read as a signed bit pattern.
    pub fn parse_i32(&mut self) -> (r: Result<i32, Error>)
        requires
            old(self).wf(),
        ensures
            final(self).input == old(self).input,
            final(self).wf(),
            old(self).pos + 4 <= old(self).input@.len() ==> r == Ok::<i32, Error>(
                be32_val(old(self).input@.subrange(old(self).pos as int, old(self).pos + 4)) as i32,
            ) && final(self).pos == old(self).pos + 4,
            old(self).pos + 4 > old(self).input@.len() ==> r == Err::<i32, Error>(Error::Io)
                && final(self).pos == old(self).pos,
    {
        if self.input.len() - self.pos < 4 {
            return Err(Error::Io);
        }
        let v = get_u32(&self.input, self.pos);
        self.pos = self.pos + 4;
        Ok(#[verifier::truncate] (v as i32))
    }

    /// Eight big-endian bytes read as a signed bit pattern.
    pub fn parse_i64(&mut self) -> (r: Result<i64, Error>)
        requires
            old(self).wf(),
        ensures
            final(self).input == old(self).input,
            final(self).wf(),
            old(self).pos + 8 <= old(self).input@.len() ==> r == Ok::<i64, Error>(
                be64_val(old(self).input@.subrange(old(self).pos as int, old(self).pos + 8)) as i64,
            ) && final(self).pos == old(self).pos + 8,
            old(self).pos + 8 > old(self).input@.len() ==> r == Err::<i64, Error>(Error::Io)
                && final(self).pos == old(self).pos,
    {
        if self.input.len() - self.pos < 8 {
            return Err(Error::Io);
        }
        let v = get_u64(&self.input, self.pos);
        self.pos = self.pos + 8;
        Ok(#[verifier::truncate] (v as i64))
    }

    /// Four big-endian bytes read as an IEEE-754 bit pattern.
    pub fn parse_f32_bits(&mut self) -> (r: Result<u32, Error>)
        requires
            old(self).wf(),
        ensures
            final(self).input == old(self).input,
            final(self).wf(),
            old(self).pos + 4 <= old(self).input@.len() ==> r == Ok::<u32, Error>(
                be32_val(old(self).input@.subrange(old(self).pos as int, old(self).pos + 4)),
            ) && final(self).pos == old(self).pos + 4,
            old(self).pos + 4 > old(self).input@.len() ==> r == Err::<u32, Error>(Error::Io)
                && final(self).pos == old(self).pos,
    {
        if self.input.len() - self.pos < 4 {
            return Err(Error::Io);
        }
        let v = get_u32(&self.input, self.pos);
        self.pos = self.pos + 4;
        Ok(v)
    }

    /// Eight big-endian bytes read as an IEEE-754 bit pattern.
    pub fn parse_f64_bits(&mut self) -> (r: Result<u64, Error>)
        requires
            old(self).wf(),
        ensures
            final(self).input == old(self).input,
            final(self).wf(),
            old(self).pos + 8 <= old(self).input@.len() ==> r == Ok::<u64, Error>(
                be64_val(old(self).input@.subrange(old(self).pos as int, old(self).pos + 8)),
            ) && final(self).pos == old(self).pos + 8,
            old(self).pos + 8 > old(self).input@.len() ==> r == Err::<u64, Error>(Error::Io)
                && final(self).pos == old(self).pos,
    {
        if self.input.len() - self.pos < 8 {
            return Err(Error::Io);
        }
        let v = get_u64(&self.input, self.pos);
        self.pos = self.pos + 8;
        Ok(v)
    }

    /// A string payload: a big-endian u16 byte length, then that many bytes
    /// of modified UTF-8. Bytes that do not decode fail with
    /// `InvalidString`. Reading the encoding of any string yields that
    /// string back and consumes exactly its payload.
    pub fn parse_string(&mut self) -> (r: Result<String, Error>)
        requires
            old(self).wf(),
        ensures
            final(self).input == old(self).input,
            final(self).wf(),
            final(self).pos >= old(self).pos,
            ({
                let rest = old(self).rest();
                if rest.len() < 2 {
                    r == Err::<String, Error>(Error::Io) && final(self).pos == old(self).pos
                } else {
                    let l = be16_val(rest.subrange(0, 2)) as int;
                    if rest.len() < 2 + l {
                        r == Err::<String, Error>(Error::Io)
                    } else {
                        &&& (r is Ok ==> final(self).pos == old(self).pos + 2 + l)
                        &&& (r matches Ok(t) ==> forall|s: Seq<char>|
                            rest.subrange(2, 2 + l) == jstr(s) ==> t@ == s)
                        &&& (r is Err ==> r == Err::<String, Error>(Error::InvalidString))
                        &&& ((exists|s: Seq<char>| rest.subrange(2, 2 + l) == jstr(s)) ==> r is Ok)
                    }
                }
            }),
    {
        let ghost rest = self.rest();
        let l = match self.parse_u16() {
            Ok(l) => l,
            Err(e) => {
                return Err(e);
            },
        };
        proof {
            assert(rest.subrange(0, 2) =~= old(self).input@.subrange(
                old(self).pos as int,
                old(self).pos + 2,
            ));
        }
        let n = l as usize;
        if self.input.len() - self.pos < n {
            return Err(Error::Io);
        }
        let mut buf: Vec<u8> = Vec::new();
        let mut i: usize = 0;
        let start = self.pos;
        while i < n
            invariant
                start == old(self).pos + 2,
                *self == (Deserializer { pos: start, ..*old(self) }),
                i <= n,
                start + n <= self.input.len(),
                buf@ =~= self.input@.subrange(start as int, start as int + i as int),
            decreases n - i,
        {
            buf.push(self.input[start + i]);
            proof {
                assert(buf@ =~= self.input@.subrange(start as int, start as int + i as int + 1));
            }
            i = i + 1;
        }
        self.pos = start + n;
        proof {
            assert(buf@ =~= rest.subrange(2, 2 + l as int));
        }
        match from_java_cesu8(buf.as_slice()) {
            Some(t) => Ok(t),
            None => Err(Error::InvalidString),
        }
    }
}

/// Whether `nv` is a well-formed value of TypeID `t` whose payload encoding
/// sits at the front of `bytes`.
pub open spec fn payload_at(bytes: Seq<u8>, t: u8, nv: NbtV) -> bool {
    wf(nv) && type_id_of(nv) == t && payload(nv).is_prefix_of(bytes)
}

/// Whether `evs` is a sequence of `count` well-formed values of TypeID `t`
/// whose concatenated payloads sit at the front of `bytes`.
pub open spec fn list_elems_at(bytes: Seq<u8>, t: u8, count: int, evs: Seq<NbtV>) -> bool {
    &&& evs.len() == count
    &&& forall|j: int| 0 <= j < evs.len() ==> wf(#[trigger] evs[j]) && type_id_of(evs[j]) == t
    &&& payloads(evs).is_prefix_of(bytes)
}

/// Whether `fvs` is a sequence of named entries, each with a name that fits
/// its length prefix and a well-formed value, whose encoding followed by the
/// TAG_End terminator sits at the front of `bytes`.
pub open spec fn entries_at(bytes: Seq<u8>, fvs: Seq<(Seq<char>, NbtV)>) -> bool {
    &&& forall|j: int|
        0 <= j < fvs.len() ==> jstr((#[trigger] fvs[j]).0).len() <= 0xFFFF && wf(fvs[j].1)
    &&& (entries(fvs) + seq![0u8]).is_prefix_of(bytes)
}

impl Deserializer {
    /// The payload of one tag of the given TypeID. An unknown TypeID fails
    /// with `InvalidTypeId`; a negative byte-array or list size fails with
    /// `SizeOverflow`; running out of bytes fails with `Io`. Reading the
    /// payload encoding of any well-formed value of this TypeID yields that
    /// value back and consumes exactly its payload.
    #[verifier::loop_isolation(false)]
    #[verifier::rlimit(100)]
    #[verifier::spinoff_prover]
    pub fn parse_tag_payload(&mut self, type_id: u8) -> (r: Result<Value, Error>)
        requires
            old(self).wf(),
        ensures
            final(self).input == old(self).input,
            final(self).wf(),
            final(self).pos >= old(self).pos,
            type_id == 0 || type_id > 10 ==> r == Err::<Value, Error>(
                Error::InvalidTypeId(type_id),
            ) && final(self).pos == old(self).pos,
            type_id == 7 && old(self).rest().len() >= 4 && (be32_val(
                old(self).rest().subrange(0, 4),
            ) as i32) < 0 ==> r == Err::<Value, Error>(Error::SizeOverflow),
            type_id == 9 && old(self).rest().len() >= 5 && (be32_val(
                old(self).rest().subrange(1, 5),
            ) as i32) < 0 ==> r == Err::<Value, Error>(Error::SizeOverflow),
            r matches Ok(d) ==> type_id_of(d@) == type_id,
            forall|nv: NbtV|
                payload_at(old(self).rest(), type_id, nv) ==> (r matches Ok(d) && d@ == nv
                    && final(self).pos == old(self).pos + payload(nv).len()),
        decreases self.input@.len() - self.pos, 1int, 0int,
    {
        let ghost rest0 = self.rest();
        if type_id == 0 || type_id > 10 {
            proof {
                assert forall|nv: NbtV| payload_at(rest0, type_id, nv) implies false by {
                    lemma_payload_min(nv);
                }
            }
            return Err(Error::InvalidTypeId(type_id));
        }
        if type_id == 1 {
            match self.parse_i8() {
                Ok(b) => {
                    proof {
                        assert forall|nv: NbtV| payload_at(rest0, 1, nv) implies view_of(
                            Value::Byte(b),
                        ) == nv && self.pos == old(self).pos + payload(nv).len() by {
                            match nv {
                                NbtV::Byte(x) => {
                                    assert(payload(nv)[0] == rest0[0]);
                                    lemma_cast_i8(x);
                                },
                                _ => {},
                            }
                        }
                    }
                    Ok(Value::Byte(b))
                },
                Err(e) => {
                    proof {
                        assert forall|nv: NbtV| payload_at(rest0, 1, nv) implies false by {
                            lemma_payload_min(nv);
                        }
                    }
                    Err(e)
                },
            }
        } else if type_id == 2 {
            match self.parse_i16() {
                Ok(b) => {
                    proof {
                        assert forall|nv: NbtV| payload_at(rest0, 2, nv) implies view_of(
                            Value::Short(b),
                        ) == nv && self.pos == old(self).pos + payload(nv).len() by {
                            match nv {
                                NbtV::Short(x) => {
                                    assert(payload(nv) =~= rest0.subrange(0, 2));
                                    assert(old(self).input@.subrange(
                                        old(self).pos as int,
                                        old(self).pos + 2,
                                    ) =~= rest0.subrange(0, 2));
                                    lemma_be16_roundtrip(x as u16);
                                    lemma_cast_i16(x);
                                },
                                _ => {},
                            }
                        }
                    }
                    Ok(Value::Short(b))
                },
                Err(e) => {
                    proof {
                        assert forall|nv: NbtV| payload_at(rest0, 2, nv) implies false by {
                            lemma_payload_min(nv);
                            assert(payload(nv).len() == 2);
                        }
                    }
                    Err(e)
                },
            }
        } else if type_id == 3 {
            match self.parse_i32() {
                Ok(b) => {
                    proof {
                        assert forall|nv: NbtV| payload_at(rest0, 3, nv) implies view_of(
                            Value::Int(b),
                        ) == nv && self.pos == old(self).pos + payload(nv).len() by {
                            match nv {
                                NbtV::Int(x) => {
                                    assert(payload(nv) =~= rest0.subrange(0, 4));
                                    assert(old(self).input@.subrange(
                                        old(self).pos as int,
                                        old(self).pos + 4,
                                    ) =~= rest0.subrange(0, 4));
                                    lemma_be32_roundtrip(x as u32);
                                    lemma_cast_i32(x);
                                },
                                _ => {},
                            }
                        }
                    }
                    Ok(Value::Int(b))
                },
                Err(e) => {
                    proof {
                        assert forall|nv: NbtV| payload_at(rest0, 3, nv) implies false by {
                            assert(payload(nv).len() == 4);
                        }
                    }
                    Err(e)
                },
            }
        } else if type_id == 4 {
            match self.parse_i64() {
                Ok(b) => {
                    proof {
                        assert forall|nv: NbtV| payload_at(rest0, 4, nv) implies view_of(
                            Value::Long(b),
                        ) == nv && self.pos == old(self).pos + payload(nv).len() by {
                            match nv {
                                NbtV::Long(x) => {
                                    assert(payload(nv) =~= rest0.subrange(0, 8));
                                    assert(old(self).input@.subrange(
                                        old(self).pos as int,
                                        old(self).pos + 8,
                                    ) =~= rest0.subrange(0, 8));
                                    lemma_be64_roundtrip(x as u64);
                                    lemma_cast_i64(x);
                                },
                                _ => {},
                            }
                        }
                    }
                    Ok(Value::Long(b))
                },
                Err(e) => {
                    proof {
                        assert forall|nv: NbtV| payload_at(rest0, 4, nv) implies false by {
                            assert(payload(nv).len() == 8);
                        }
                    }
                    Err(e)
                },
            }
        } else if type_id == 5 {
            match self.parse_f32_bits() {
                Ok(b) => {
                    proof {
                        assert forall|nv: NbtV| payload_at(rest0, 5, nv) implies view_of(
                            Value::Float(b),
                        ) == nv && self.pos == old(self).pos + payload(nv).len() by {
                            match nv {
                                NbtV::Float(x) => {
                                    assert(payload(nv) =~= rest0.subrange(0, 4));
                                    assert(old(self).input@.subrange(
                                        old(self).pos as int,
                                        old(self).pos + 4,
                                    ) =~= rest0.subrange(0, 4));
                                    lemma_be32_roundtrip(x);
                                },
                                _ => {},
                            }
                        }
                    }
                    Ok(Value::Float(b))
                },
                Err(e) => {
                    proof {
                        assert forall|nv: NbtV| payload_at(rest0, 5, nv) implies false by {
                            assert(payload(nv).len() == 4);
                        }
                    }
                    Err(e)
                },
            }
        } else if type_id == 6 {
            match self.parse_f64_bits() {
                Ok(b) => {
                    proof {
                        assert forall|nv: NbtV| payload_at(rest0, 6, nv) implies view_of(
                            Value::Double(b),
                        ) == nv && self.pos == old(self).pos + payload(nv).len() by {
                            match nv {
                                NbtV::Double(x) => {
                                    assert(payload(nv) =~= rest0.subrange(0, 8));
                                    assert(old(self).input@.subrange(
                                        old(self).pos as int,
                                        old(self).pos + 8,
                                    ) =~= rest0.subrange(0, 8));
                                    lemma_be64_roundtrip(x);
                                },
                                _ => {},
                            }
                        }
                    }
                    Ok(Value::Double(b))
                },
                Err(e) => {
                    proof {
                        assert forall|nv: NbtV| payload_at(rest0, 6, nv) implies false by {
                            assert(payload(nv).len() == 8);
                        }
                    }
                    Err(e)
                },
            }
        } else if type_id == 7 {
            let size = match self.parse_i32() {
                Ok(s) => s,
                Err(e) => {
                    proof {
                        assert forall|nv: NbtV| payload_at(rest0, 7, nv) implies false by {
                            assert(payload(nv).len() >= 4);
                        }
                    }
                    return Err(e);
                },
            };
            proof {
                assert(rest0.subrange(0, 4) =~= old(self).input@.subrange(
                    old(self).pos as int,
                    old(self).pos + 4,
                ));
            }
            if size < 0 {
                proof {
                    assert forall|nv: NbtV| payload_at(rest0, 7, nv) implies false by {
                        match nv {
                            NbtV::Bytes(b) => {
                                assert(payload(nv).subrange(0, 4) =~= rest0.subrange(0, 4));
                                lemma_be32_roundtrip(b.len() as u32);
                                lemma_cast_i32(b.len() as i32);
                            },
                            _ => {},
                        }
                    }
                }
                return Err(Error::SizeOverflow);
            }
            let n = size as usize;
            if self.input.len() - self.pos < n {
                proof {
                    assert forall|nv: NbtV| payload_at(rest0, 7, nv) implies false by {
                        match nv {
                            NbtV::Bytes(b) => {
                                assert(payload(nv).subrange(0, 4) =~= rest0.subrange(0, 4));
                                lemma_be32_roundtrip(b.len() as u32);
                                lemma_cast_i32(b.len() as i32);
                            },
                            _ => {},
                        }
                    }
                }
                return Err(Error::Io);
            }
            let mut buf: Vec<u8> = Vec::new();
            let mut i: usize = 0;
            let start = self.pos;
            while i < n
                invariant
                    start == old(self).pos + 4,
                    *self == (Deserializer { pos: start, ..*old(self) }),
                    i <= n,
                    start + n <= self.input.len(),
                    buf@ =~= self.input@.subrange(start as int, start as int + i as int),
                decreases n - i,
            {
                buf.push(self.input[start + i]);
                proof {
                    assert(buf@ =~= self.input@.subrange(
                        start as int,
                        start as int + i as int + 1,
                    ));
                }
                i = i + 1;
            }
            self.pos = start + n;
            proof {
                assert(buf@ =~= rest0.subrange(4, 4 + n as int));
                assert forall|nv: NbtV| payload_at(rest0, 7, nv) implies view_of(
                    Value::Bytes(buf),
                ) == nv && self.pos == old(self).pos + payload(nv).len() by {
                    match nv {
                        NbtV::Bytes(b) => {
                            assert(payload(nv).subrange(0, 4) =~= rest0.subrange(0, 4));
                            lemma_be32_roundtrip(b.len() as u32);
                            lemma_cast_i32(b.len() as i32);
                            assert(b.len() == n);
                            assert(payload(nv).subrange(4, 4 + n as int) =~= b);
                            assert(payload(nv).subrange(4, 4 + n as int) =~= rest0.subrange(
                                4,
                                4 + n as int,
                            ));
                            assert(buf@ =~= b);
                        },
                        _ => {},
                    }
                }
            }
            Ok(Value::Bytes(buf))
        } else if type_id == 8 {
            match self.parse_string() {
                Ok(t) => {
                    proof {
                        assert forall|nv: NbtV| payload_at(rest0, 8, nv) implies view_of(
                            Value::Str(t),
                        ) == nv && self.pos == old(self).pos + payload(nv).len() by {
                            match nv {
                                NbtV::Str(s) => {
                                    let l = jstr(s).len() as int;
                                    assert(payload(nv).subrange(0, 2) =~= rest0.subrange(0, 2));
                                    lemma_be16_roundtrip(jstr(s).len() as u16);
                                    assert(be16_val(rest0.subrange(0, 2)) == l);
                                    assert(payload(nv).subrange(2, 2 + l) =~= jstr(s));
                                    assert(rest0.subrange(2, 2 + l) =~= jstr(s));
                                },
                                _ => {},
                            }
                        }
                    }
                    Ok(Value::Str(t))
                },
                Err(e) => {
                    proof {
                        assert forall|nv: NbtV| payload_at(rest0, 8, nv) implies false by {
                            match nv {
                                NbtV::Str(s) => {
                                    let l = jstr(s).len() as int;
                                    assert(payload(nv).subrange(0, 2) =~= rest0.subrange(0, 2));
                                    lemma_be16_roundtrip(jstr(s).len() as u16);
                                    assert(be16_val(rest0.subrange(0, 2)) == l);
                                    assert(payload(nv).subrange(2, 2 + l) =~= jstr(s));
                                    assert(rest0.subrange(2, 2 + l) =~= jstr(s));
                                },
                                _ => {},
                            }
                        }
                    }
                    Err(e)
                },
            }
        } else if type_id == 9 {
            let elem_tid = match self.parse_type_id() {
                Ok(t) => t,
                Err(e) => {
                    proof {
                        assert forall|nv: NbtV| payload_at(rest0, 9, nv) implies false by {
                            assert(payload(nv).len() >= 5);
                        }
                    }
                    return Err(e);
                },
            };
            let size = match self.parse_i32() {
                Ok(s) => s,
                Err(e) => {
                    proof {
                        assert forall|nv: NbtV| payload_at(rest0, 9, nv) implies false by {
                            assert(payload(nv).len() >= 5);
                        }
                    }
                    return Err(e);
                },
            };
            proof {
                assert(rest0.subrange(1, 5) =~= old(self).input@.subrange(
                    old(self).pos + 1,
                    old(self).pos + 5,
                ));
            }
            if size < 0 {
                proof {
                    assert forall|nv: NbtV| payload_at(rest0, 9, nv) implies false by {
                        match nv {
                            NbtV::List(evs) => {
                                assert(payload(nv).subrange(1, 5) =~= rest0.subrange(1, 5));
                                lemma_be32_roundtrip(evs.len() as u32);
                                lemma_cast_i32(evs.len() as i32);
                            },
                            _ => {},
                        }
                    }
                }
                return Err(Error::SizeOverflow);
            }
            let count = size as usize;
            let ghost rest1 = self.rest();
            match self.parse_list_elems(elem_tid, count) {
                Ok(ds) => {
                    proof {
                        assert forall|nv: NbtV| payload_at(rest0, 9, nv) implies view_of(
                            Value::List(ds),
                        ) == nv && self.pos == old(self).pos + payload(nv).len() by {
                            match nv {
                                NbtV::List(evs) => {
                                    assert(payload(nv)[0] == rest0[0]);
                                    assert(elem_tid == elem_type_id(evs));
                                    assert(payload(nv).subrange(1, 5) =~= rest0.subrange(1, 5));
                                    lemma_be32_roundtrip(evs.len() as u32);
                                    lemma_cast_i32(evs.len() as i32);
                                    assert(evs.len() == count);
                                    assert(payload(nv).subrange(5, payload(nv).len() as int)
                                        =~= payloads(evs));
                                    assert(rest1 =~= rest0.subrange(5, rest0.len() as int));
                                    assert(payloads(evs).is_prefix_of(rest1));
                                    assert(list_elems_at(rest1, elem_tid, count as int, evs));
                                },
                                _ => {},
                            }
                        }
                    }
                    Ok(Value::List(ds))
                },
                Err(e) => {
                    proof {
                        assert forall|nv: NbtV| payload_at(rest0, 9, nv) implies false by {
                            match nv {
                                NbtV::List(evs) => {
                                    assert(payload(nv)[0] == rest0[0]);
                                    assert(elem_tid == elem_type_id(evs));
                                    assert(payload(nv).subrange(1, 5) =~= rest0.subrange(1, 5));
                                    lemma_be32_roundtrip(evs.len() as u32);
                                    lemma_cast_i32(evs.len() as i32);
                                    assert(evs.len() == count);
                                    assert(payload(nv).subrange(5, payload(nv).len() as int)
                                        =~= payloads(evs));
                                    assert(rest1 =~= rest0.subrange(5, rest0.len() as int));
                                    assert(payloads(evs).is_prefix_of(rest1));
                                    assert(list_elems_at(rest1, elem_tid, count as int, evs));
                                },
                                _ => {},
                            }
                        }
                    }
                    Err(e)
                },
            }
        } else {
            let ghost rest1 = self.rest();
            match self.parse_compound_entries() {
                Ok(fs) => {
                    proof {
                        assert forall|nv: NbtV| payload_at(rest0, 10, nv) implies view_of(
                            Value::Compound(fs),
                        ) == nv && self.pos == old(self).pos + payload(nv).len() by {
                            match nv {
                                NbtV::Compound(fvs) => {
                                    assert(payload(nv) =~= entries(fvs) + seq![0u8]);
                                    assert((entries(fvs) + seq![0u8]).is_prefix_of(rest1));
                                    assert(entries_at(rest1, fvs));
                                },
                                _ => {},
                            }
                        }
                    }
                    Ok(Value::Compound(fs))
                },
                Err(e) => {
                    proof {
                        assert forall|nv: NbtV| payload_at(rest0, 10, nv) implies false by {
                            match nv {
                                NbtV::Compound(fvs) => {
                                    assert(payload(nv) =~= entries(fvs) + seq![0u8]);
                                    assert((entries(fvs) + seq![0u8]).is_prefix_of(rest1));
                                    assert(entries_at(rest1, fvs));
                                },
                                _ => {},
                            }
                        }
                    }
                    Err(e)
                },
            }
        }
    }
}

/// A prefix made of two parts splits into a prefix and a prefix of what
/// follows it.
proof fn lemma_prefix_split(a: Seq<u8>, b: Seq<u8>, s: Seq<u8>)
    requires
        (a + b).is_prefix_of(s),
    ensures
        a.is_prefix_of(s),
        b.is_prefix_of(s.subrange(a.len() as int, s.len() as int)),
{
    assert((a + b) == s.subrange(0, (a + b).len() as int));
    assert(a =~= s.subrange(0, a.len() as int));
    assert(b =~= (a + b).subrange(a.len() as int, (a + b).len() as int));
    assert(b =~= s.subrange(a.len() as int, a.len() as int + b.len() as int));
    assert(b =~= s.subrange(a.len() as int, s.len() as int).subrange(0, b.len() as int));
}

impl Deserializer {
    /// `count` payload-only elements of one list, all of TypeID `type_id`.
    /// Reading the concatenated payload encodings of any such sequence of
    /// well-formed values yields those values back, in order.
    #[verifier::loop_isolation(false)]
    #[verifier::rlimit(100)]
    #[verifier::spinoff_prover]
    fn parse_list_elems(&mut self, type_id: u8, count: usize) -> (r: Result<Vec<Value>, Error>)
        requires
            old(self).wf(),
        ensures
            final(self).input == old(self).input,
            final(self).wf(),
            final(self).pos >= old(self).pos,
            forall|evs: Seq<NbtV>|
                list_elems_at(old(self).rest(), type_id, count as int, evs) ==> (r matches Ok(ds)
                    && view_of_seq(ds@) == evs && final(self).pos == old(self).pos + payloads(
                    evs,
                ).len()),
        decreases self.input@.len() - self.pos, 2int, count as int,
    {
        let ghost rest0 = self.rest();
        if count == 0 {
            let ds: Vec<Value> = Vec::new();
            proof {
                assert forall|evs: Seq<NbtV>|
                    list_elems_at(rest0, type_id, 0, evs) implies view_of_seq(ds@) == evs
                    && self.pos == old(self).pos + payloads(evs).len() by {
                    assert(evs.len() == 0);
                    assert(view_of_seq(ds@) =~= evs);
                    assert(payloads(evs).len() == 0);
                }
            }
            return Ok(ds);
        }
        let d = match self.parse_tag_payload(type_id) {
            Ok(d) => d,
            Err(e) => {
                proof {
                    assert forall|evs: Seq<NbtV>|
                        list_elems_at(rest0, type_id, count as int, evs) implies false by {
                        lemma_elems_head(rest0, type_id, count as int, evs);
                    }
                }
                return Err(e);
            },
        };
        let ghost rest1 = self.rest();
        let mut tail = match self.parse_list_elems(type_id, count - 1) {
            Ok(x) => x,
            Err(e) => {
                proof {
                    assert forall|evs: Seq<NbtV>|
                        list_elems_at(rest0, type_id, count as int, evs) implies false by {
                        lemma_elems_head(rest0, type_id, count as int, evs);
                        assert(rest1 =~= rest0.subrange(
                            payload(evs[0]).len() as int,
                            rest0.len() as int,
                        ));
                        assert(list_elems_at(
                            rest1,
                            type_id,
                            count - 1,
                            evs.subrange(1, evs.len() as int),
                        ));
                    }
                }
                return Err(e);
            },
        };
        let ghost tails = tail@;
        let mut ds: Vec<Value> = Vec::new();
        ds.push(d);
        ds.append(&mut tail);
        proof {
            assert(ds@ =~= seq![d].push(d).subrange(1, 1) + seq![d] + tails);
            assert forall|evs: Seq<NbtV>|
                list_elems_at(rest0, type_id, count as int, evs) implies view_of_seq(ds@) == evs
                && self.pos == old(self).pos + payloads(evs).len() by {
                lemma_elems_head(rest0, type_id, count as int, evs);
                assert(rest1 =~= rest0.subrange(payload(evs[0]).len() as int, rest0.len() as int));
                let tl = evs.subrange(1, evs.len() as int);
                assert(list_elems_at(rest1, type_id, count - 1, tl));
                assert(view_of_seq(tails) == tl);
                assert(ds@ =~= seq![d] + tails);
                assert(ds@[0] == d);
                assert(ds@.subrange(1, ds@.len() as int) =~= tails);
                assert(view_of_seq(ds@) =~= seq![view_of(d)] + view_of_seq(tails));
                assert(view_of_seq(ds@) =~= evs);
                assert(payloads(evs).len() == payload(evs[0]).len() + payloads(tl).len());
            }
        }
        Ok(ds)
    }

    /// Named entries of one compound, up to and including the TAG_End
    /// terminator byte. Reading the encoding of any sequence of well-formed
    /// named entries followed by the terminator yields those entries back,
    /// in order.
    #[verifier::loop_isolation(false)]
    #[verifier::rlimit(100)]
    #[verifier::spinoff_prover]
    fn parse_compound_entries(&mut self) -> (r: Result<Vec<(String, Value)>, Error>)
        requires
            old(self).wf(),
        ensures
            final(self).input == old(self).input,
            final(self).wf(),
            final(self).pos >= old(self).pos,
            forall|fvs: Seq<(Seq<char>, NbtV)>|
                entries_at(old(self).rest(), fvs) ==> (r matches Ok(fs) && view_of_entries(fs@)
                    == fvs && final(self).pos == old(self).pos + entries(fvs).len() + 1),
        decreases self.input@.len() - self.pos, 0int, 0int,
    {
        let ghost rest0 = self.rest();
        let tid = match self.parse_type_id() {
            Ok(t) => t,
            Err(e) => {
                proof {
                    assert forall|fvs: Seq<(Seq<char>, NbtV)>|
                        entries_at(rest0, fvs) implies false by {
                        assert((entries(fvs) + seq![0u8]).len() >= 1);
                    }
                }
                return Err(e);
            },
        };
        proof {
            assert(rest0[0] == tid);
        }
        if tid == 0 {
            let fs: Vec<(String, Value)> = Vec::new();
            proof {
                assert forall|fvs: Seq<(Seq<char>, NbtV)>|
                    entries_at(rest0, fvs) implies view_of_entries(fs@) == fvs && self.pos == old(self).pos
                    + entries(fvs).len() + 1 by {
                    if fvs.len() > 0 {
                        lemma_entries_head(rest0, fvs);
                        assert(false);
                    }
                    assert(view_of_entries(fs@) =~= fvs);
                    assert(entries(fvs).len() == 0);
                }
            }
            return Ok(fs);
        }
        let ghost rest1 = self.rest();
        let name = match self.parse_string() {
            Ok(nm) => nm,
            Err(e) => {
                proof {
                    assert forall|fvs: Seq<(Seq<char>, NbtV)>|
                        entries_at(rest0, fvs) implies false by {
                        if fvs.len() == 0 {
                            assert(entries(fvs) + seq![0u8] =~= seq![0u8]);
                            assert((entries(fvs) + seq![0u8]) == rest0.subrange(0, 1));
                            assert(rest0[0] == rest0.subrange(0, 1)[0]);
                            assert(rest0[0] == 0);
                        } else {
                            lemma_entries_head(rest0, fvs);
                            assert(rest1 =~= rest0.subrange(1, rest0.len() as int));
                        }
                    }
                }
                return Err(e);
            },
        };
        let ghost rest2 = self.rest();
        let val = match self.parse_tag_payload(tid) {
            Ok(v) => v,
            Err(e) => {
                proof {
                    assert forall|fvs: Seq<(Seq<char>, NbtV)>|
                        entries_at(rest0, fvs) implies false by {
                        if fvs.len() == 0 {
                            assert(entries(fvs) + seq![0u8] =~= seq![0u8]);
                            assert((entries(fvs) + seq![0u8]) == rest0.subrange(0, 1));
                            assert(rest0[0] == rest0.subrange(0, 1)[0]);
                            assert(rest0[0] == 0);
                        } else {
                            lemma_entries_head(rest0, fvs);
                            assert(rest1 =~= rest0.subrange(1, rest0.len() as int));
                            assert(rest2 =~= rest0.subrange(
                                1 + strpay(fvs[0].0).len() as int,
                                rest0.len() as int,
                            ));
                            assert(payload_at(rest2, tid, fvs[0].1));
                        }
                    }
                }
                return Err(e);
            },
        };
        let ghost rest3 = self.rest();
        let mut tail = match self.parse_compound_entries() {
            Ok(x) => x,
            Err(e) => {
                proof {
                    assert forall|fvs: Seq<(Seq<char>, NbtV)>|
                        entries_at(rest0, fvs) implies false by {
                        if fvs.len() == 0 {
                            assert(entries(fvs) + seq![0u8] =~= seq![0u8]);
                            assert((entries(fvs) + seq![0u8]) == rest0.subrange(0, 1));
                            assert(rest0[0] == rest0.subrange(0, 1)[0]);
                            assert(rest0[0] == 0);
                        } else {
                            lemma_entries_head(rest0, fvs);
                            assert(rest1 =~= rest0.subrange(1, rest0.len() as int));
                            assert(rest2 =~= rest0.subrange(
                                1 + strpay(fvs[0].0).len() as int,
                                rest0.len() as int,
                            ));
                            assert(payload_at(rest2, tid, fvs[0].1));
                            assert(rest3 =~= rest0.subrange(
                                1 + strpay(fvs[0].0).len() as int + payload(fvs[0].1).len() as int,
                                rest0.len() as int,
                            ));
                            assert(entries_at(rest3, fvs.subrange(1, fvs.len() as int)));
                        }
                    }
                }
                return Err(e);
            },
        };
        let ghost tails = tail@;
        let mut fs: Vec<(String, Value)> = Vec::new();
        fs.push((name, val));
        fs.append(&mut tail);
        proof {
            assert forall|fvs: Seq<(Seq<char>, NbtV)>|
                entries_at(rest0, fvs) implies view_of_entries(fs@) == fvs && self.pos == old(self).pos
                + entries(fvs).len() + 1 by {
                if fvs.len() == 0 {
                    assert(entries(fvs) + seq![0u8] =~= seq![0u8]);
                    assert((entries(fvs) + seq![0u8]) == rest0.subrange(0, 1));
                    assert(rest0[0] == rest0.subrange(0, 1)[0]);
                    assert(rest0[0] == 0);
                }
                lemma_entries_head(rest0, fvs);
                assert(rest1 =~= rest0.subrange(1, rest0.len() as int));
                assert(rest2 =~= rest0.subrange(1 + strpay(fvs[0].0).len() as int, rest0.len() as int));
                assert(payload_at(rest2, tid, fvs[0].1));
                assert(rest3 =~= rest0.subrange(
                    1 + strpay(fvs[0].0).len() as int + payload(fvs[0].1).len() as int,
                    rest0.len() as int,
                ));
                let tl = fvs.subrange(1, fvs.len() as int);
                assert(entries_at(rest3, tl));
                assert(name@ == fvs[0].0);
                assert(val@ == fvs[0].1);
                assert(view_of_entries(tails) == tl);
                assert(fs@ =~= seq![(name, val)] + tails);
                assert(fs@[0] == (name, val));
                assert(fs@.subrange(1, fs@.len() as int) =~= tails);
                assert(view_of_entries(fs@) =~= seq![(name@, view_of(val))] + view_of_entries(
                    tails,
                ));
                assert(view_of_entries(fs@) =~= fvs);
                assert(entries(fvs).len() == 1 + strpay(fvs[0].0).len() + payload(fvs[0].1).len()
                    + entries(tl).len());
            }
        }
        Ok(fs)
    }
}

/// For a non-empty element sequence whose payloads sit at the front of
/// `bytes`: the first element's payload sits there too, and the rest follow.
proof fn lemma_elems_head(bytes: Seq<u8>, t: u8, count: int, evs: Seq<NbtV>)
    requires
        list_elems_at(bytes, t, count, evs),
        count >= 1,
    ensures
        payload_at(bytes, t, evs[0]),
        list_elems_at(
            bytes.subrange(payload(evs[0]).len() as int, bytes.len() as int),
            t,
            count - 1,
            evs.subrange(1, evs.len() as int),
        ),
        payloads(evs).len() == payload(evs[0]).len() + payloads(
            evs.subrange(1, evs.len() as int),
        ).len(),
{
    let tl = evs.subrange(1, evs.len() as int);
    assert(payloads(evs) == payload(evs[0]) + payloads(tl));
    lemma_prefix_split(payload(evs[0]), payloads(tl), bytes);
}

/// For a non-empty entry sequence whose encoding (with terminator) sits at
/// the front of `bytes`: the first entry's TypeID, name and payload sit
/// there in order, and the remaining entries (with terminator) follow.
proof fn lemma_entries_head(bytes: Seq<u8>, fvs: Seq<(Seq<char>, NbtV)>)
    requires
        entries_at(bytes, fvs),
        fvs.len() >= 1,
    ensures
        bytes.len() >= 1,
        bytes[0] == type_id_of(fvs[0].1),
        ({
            let r1 = bytes.subrange(1, bytes.len() as int);
            let l = jstr(fvs[0].0).len() as int;
            &&& r1.len() >= 2 + l
            &&& be16_val(r1.subrange(0, 2)) == l
            &&& r1.subrange(2, 2 + l) == jstr(fvs[0].0)
            &&& strpay(fvs[0].0).is_prefix_of(r1)
            &&& payload_at(
                bytes.subrange(1 + strpay(fvs[0].0).len() as int, bytes.len() as int),
                type_id_of(fvs[0].1),
                fvs[0].1,
            )
            &&& entries_at(
                bytes.subrange(
                    1 + strpay(fvs[0].0).len() as int + payload(fvs[0].1).len() as int,
                    bytes.len() as int,
                ),
                fvs.subrange(1, fvs.len() as int),
            )
            &&& entries(fvs).len() == 1 + strpay(fvs[0].0).len() + payload(fvs[0].1).len()
                + entries(fvs.subrange(1, fvs.len() as int)).len()
        }),
{
    let tl = fvs.subrange(1, fvs.len() as int);
    let t0 = seq![type_id_of(fvs[0].1)];
    let n0 = strpay(fvs[0].0);
    let p0 = payload(fvs[0].1);
    assert(entries(fvs) == t0 + n0 + p0 + entries(tl));
    assert(entries(fvs) + seq![0u8] =~= t0 + (n0 + (p0 + (entries(tl) + seq![0u8]))));
    lemma_prefix_split(t0, n0 + (p0 + (entries(tl) + seq![0u8])), bytes);
    let r1 = bytes.subrange(1, bytes.len() as int);
    lemma_prefix_split(n0, p0 + (entries(tl) + seq![0u8]), r1);
    let r2 = r1.subrange(n0.len() as int, r1.len() as int);
    lemma_prefix_split(p0, entries(tl) + seq![0u8], r2);
    let r3 = r2.subrange(p0.len() as int, r2.len() as int);
    assert(bytes[0] == (t0 + (n0 + (p0 + (entries(tl) + seq![0u8]))))[0]);
    lemma_be16_roundtrip(jstr(fvs[0].0).len() as u16);
    assert(n0.subrange(0, 2) =~= crate::bytes::be16(jstr(fvs[0].0).len() as u16));
    assert(r1.subrange(0, 2) =~= n0.subrange(0, 2));
    assert(r1.subrange(2, 2 + jstr(fvs[0].0).len() as int) =~= n0.subrange(2, n0.len() as int));
    assert(n0.subrange(2, n0.len() as int) =~= jstr(fvs[0].0));
    assert(r2 =~= bytes.subrange(1 + strpay(fvs[0].0).len() as int, bytes.len() as int));
    assert(r3 =~= bytes.subrange(
        1 + strpay(fvs[0].0).len() as int + payload(fvs[0].1).len() as int,
        bytes.len() as int,
    ));
}

impl Deserializer {
    /// One whole document: the root named tag. The name is read and
    /// discarded, as the document root's name carries no information.
    /// Reading the encoding of any well-formed value as a named tag yields
    /// that value back, whatever its name was.
    #[verifier::rlimit(50)]
    #[verifier::spinoff_prover]
    pub fn deserialize_any(&mut self) -> (r: Result<Value, Error>)
        requires
            old(self).wf(),
        ensures
            final(self).input == old(self).input,
            final(self).wf(),
            final(self).pos >= old(self).pos,
            forall|name: Seq<char>, nv: NbtV|
                wf(nv) && jstr(name).len() <= 0xFFFF && named(name, nv).is_prefix_of(
                    old(self).rest(),
                ) ==> (r matches Ok(d) && d@ == nv && final(self).pos == old(self).pos + named(
                    name,
                    nv,
                ).len()),
    {
        let ghost rest0 = self.rest();
        let tid = match self.parse_type_id() {
            Ok(t) => t,
            Err(e) => {
                proof {
                    assert forall|name: Seq<char>, nv: NbtV|
                        wf(nv) && jstr(name).len() <= 0xFFFF && named(name, nv).is_prefix_of(
                            rest0,
                        ) implies false by {
                        assert(named(name, nv).len() >= 1);
                    }
                }
                return Err(e);
            },
        };
        let ghost rest1 = self.rest();
        match self.parse_string() {
            Ok(_) => {},
            Err(e) => {
                proof {
                    assert forall|name: Seq<char>, nv: NbtV|
                        wf(nv) && jstr(name).len() <= 0xFFFF && named(name, nv).is_prefix_of(
                            rest0,
                        ) implies false by {
                        lemma_named_head(rest0, name, nv);
                        assert(rest1 =~= rest0.subrange(1, rest0.len() as int));
                    }
                }
                return Err(e);
            },
        }
        let ghost rest2 = self.rest();
        let r = self.parse_tag_payload(tid);
        proof {
            assert forall|name: Seq<char>, nv: NbtV|
                wf(nv) && jstr(name).len() <= 0xFFFF && named(name, nv).is_prefix_of(
                    rest0,
                ) implies (r matches Ok(d) && d@ == nv && self.pos == old(self).pos + named(
                    name,
                    nv,
                ).len()) by {
                lemma_named_head(rest0, name, nv);
                assert(rest1 =~= rest0.subrange(1, rest0.len() as int));
                assert(rest0[0] == tid);
                assert(rest2 =~= rest0.subrange(
                    1 + strpay(name).len() as int,
                    rest0.len() as int,
                ));
                assert(payload_at(rest2, tid, nv));
            }
        }
        r
    }
}

/// A named tag whose encoding sits at the front of `bytes` splits into its
/// TypeID byte, its name payload and its payload, in that order.
proof fn lemma_named_head(bytes: Seq<u8>, name: Seq<char>, nv: NbtV)
    requires
        wf(nv),
        jstr(name).len() <= 0xFFFF,
        named(name, nv).is_prefix_of(bytes),
    ensures
        bytes.len() >= 1,
        bytes[0] == type_id_of(nv),
        ({
            let r1 = bytes.subrange(1, bytes.len() as int);
            let l = jstr(name).len() as int;
            &&& r1.len() >= 2 + l
            &&& be16_val(r1.subrange(0, 2)) == l
            &&& r1.subrange(2, 2 + l) == jstr(name)
            &&& payload_at(
                bytes.subrange(1 + strpay(name).len() as int, bytes.len() as int),
                type_id_of(nv),
                nv,
            )
        }),
{
    let t0 = seq![type_id_of(nv)];
    let n0 = strpay(name);
    let p0 = payload(nv);
    assert(named(name, nv) =~= t0 + (n0 + p0));
    lemma_prefix_split(t0, n0 + p0, bytes);
    let r1 = bytes.subrange(1, bytes.len() as int);
    lemma_prefix_split(n0, p0, r1);
    assert(bytes[0] == (t0 + (n0 + p0))[0]);
    lemma_be16_roundtrip(jstr(name).len() as u16);
    assert(n0.subrange(0, 2) =~= crate::bytes::be16(jstr(name).len() as u16));
    assert(r1.subrange(0, 2) =~= n0.subrange(0, 2));
    assert(r1.subrange(2, 2 + jstr(name).len() as int) =~= n0.subrange(2, n0.len() as int));
    assert(n0.subrange(2, n0.len() as int) =~= jstr(name));
    assert(r1.subrange(n0.len() as int, r1.len() as int) =~= bytes.subrange(
        1 + strpay(name).len() as int,
        bytes.len() as int,
    ));
}

/// Decodes a whole document from the front of `input`. Decoding the encoded
/// form of any well-formed value yields that value back, whatever root name
/// the document carries.
pub fn from_bytes(input: Vec<u8>) -> (r: Result<Value, Error>)
    ensures
        forall|name: Seq<char>, nv: NbtV|
            wf(nv) && jstr(name).len() <= 0xFFFF && named(name, nv).is_prefix_of(input@) ==> (
            r matches Ok(d) && d@ == nv),
{
    let mut d = Deserializer::new(input);
    proof {
        assert(d.rest() =~= d.input@);
    }
    d.deserialize_any()
}

} // verus!
