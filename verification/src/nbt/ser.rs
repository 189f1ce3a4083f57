//! The NBT serializer state machine. It drives the value model into NBT
//! bytes, keeping a stack of frames that decides, for each incoming value,
//! whether to emit a TypeID byte, a name and a list header — the framing
//! rules of the format. A list's element TypeID and size prefix are emitted
//! lazily, when its first element arrives.

use vstd::prelude::*;

use crate::bytes::{be16, be32, be64, put_u16, put_u32, put_u64};
use crate::error::Error;
use crate::nbt::cesu::{jstr, to_java_cesu8};
use crate::nbt::value::{
    NbtV, Value, doc, elem_type_id, entries, lemma_empty_list_payload, lemma_entries_append,
    lemma_payloads_append, lemma_view_of_entries, lemma_view_of_seq, payload, payloads, strpay,
    type_id_of, view_of, view_of_entries, view_of_seq, wf,
};

verus! {

/// One frame of the serializer's stack.
#[derive(Debug)]
pub enum State {
    /// Inside a list of declared length `size`; the first element has not
    /// arrived yet, so the element TypeID is still unknown.
    FirstListItem { size: i32 },
    /// Inside a list whose element TypeID is fixed; `size` counts the
    /// elements not yet seen.
    InList { type_id: u8, size: i32 },
    /// Inside a compound, before the next entry's key.
    CompoundBeforeEntry,
    /// Inside a compound, after the key was captured as `name`, before the
    /// entry's value.
    CompoundBeforeEntryValue { name: String },
}

/// The abstract shape of a frame.
pub enum StateV {
    /// Inside a list, before its first element.
    FirstListItem { size: i32 },
    /// Inside a list with a fixed element TypeID.
    InList { type_id: u8, size: i32 },
    /// Inside a compound, before the next entry's key.
    CompoundBeforeEntry,
    /// Inside a compound, before the entry's value.
    CompoundBeforeEntryValue { name: Seq<char> },
}

impl View for State {
    type V = StateV;

    open spec fn view(&self) -> StateV {
        match self {
            State::FirstListItem { size } => StateV::FirstListItem { size: *size },
            State::InList { type_id, size } => StateV::InList {
                type_id: *type_id,
                size: *size,
            },
            State::CompoundBeforeEntry => StateV::CompoundBeforeEntry,
            State::CompoundBeforeEntryValue { name } => StateV::CompoundBeforeEntryValue {
                name: name@,
            },
        }
    }
}

/// Whether the framing of a value with TypeID `t` succeeds on stack `st`:
/// at the root and inside a compound entry it always does (a key must already
/// have been captured); inside a list there must be room, and the TypeID must
/// agree with the declared one once it is fixed.
pub open spec fn frame_ok(st: Seq<StateV>, t: u8) -> bool {
    if st.len() == 0 {
        true
    } else {
        match st.last() {
            StateV::CompoundBeforeEntry => false,
            StateV::CompoundBeforeEntryValue { name } => jstr(name).len() <= 0xFFFF,
            StateV::FirstListItem { size } => size >= 1,
            StateV::InList { type_id, size } => t == type_id && size >= 1,
        }
    }
}

/// The framing bytes for a value with TypeID `t` on stack `st`: TypeID and
/// empty root name at the root; TypeID and stored name inside a compound
/// entry; TypeID and size prefix for a list's first element; nothing for the
/// later elements of a list.
pub open spec fn frame_bytes(st: Seq<StateV>, t: u8) -> Seq<u8> {
    if st.len() == 0 {
        seq![t] + strpay(Seq::empty())
    } else {
        match st.last() {
            StateV::CompoundBeforeEntry => Seq::empty(),
            StateV::CompoundBeforeEntryValue { name } => seq![t] + strpay(name),
            StateV::FirstListItem { size } => seq![t] + be32(size as u32),
            StateV::InList { type_id, size } => Seq::empty(),
        }
    }
}

/// The stack after the framing: a list's first element fixes the TypeID and
/// starts the countdown; a later element counts down; a compound entry
/// returns to awaiting its next key.
pub open spec fn frame_next(st: Seq<StateV>, t: u8) -> Seq<StateV> {
    if st.len() == 0 {
        st
    } else {
        match st.last() {
            StateV::CompoundBeforeEntry => st,
            StateV::CompoundBeforeEntryValue { name } => st.update(
                st.len() - 1,
                StateV::CompoundBeforeEntry,
            ),
            StateV::FirstListItem { size } => st.update(
                st.len() - 1,
                StateV::InList { type_id: t, size: (size - 1) as i32 },
            ),
            StateV::InList { type_id, size } => st.update(
                st.len() - 1,
                StateV::InList { type_id, size: (size - 1) as i32 },
            ),
        }
    }
}

/// Whether the framing failure is a list heterogeneity (the one failure with
/// its own error kind).
pub open spec fn frame_mismatch(st: Seq<StateV>, t: u8) -> bool {
    st.len() > 0 && match st.last() {
        StateV::InList { type_id, size } => t != type_id,
        _ => false,
    }
}

/// Whether the framing failure is a name that does not fit its length prefix.
pub open spec fn frame_name_too_long(st: Seq<StateV>, t: u8) -> bool {
    st.len() > 0 && match st.last() {
        StateV::CompoundBeforeEntryValue { name } => jstr(name).len() > 0xFFFF,
        _ => false,
    }
}

/// Whether the stack is positioned at a key capture: the next value to
/// arrive while a compound awaits its next key becomes that entry's key
/// (and must be a string).
pub open spec fn is_key_capture(st: Seq<StateV>) -> bool {
    st.len() > 0 && st.last() is CompoundBeforeEntry
}

/// Whether serializing value `v` on stack `st` succeeds.
pub open spec fn value_ok(st: Seq<StateV>, v: NbtV) -> bool {
    if is_key_capture(st) {
        v is Str
    } else {
        wf(v) && frame_ok(st, type_id_of(v))
    }
}

/// The bytes that serializing value `v` on stack `st` emits: nothing for a
/// key capture, else the framing bytes followed by the payload.
pub open spec fn value_bytes(st: Seq<StateV>, v: NbtV) -> Seq<u8> {
    if is_key_capture(st) {
        Seq::empty()
    } else {
        frame_bytes(st, type_id_of(v)) + payload(v)
    }
}

/// The stack after serializing value `v` on stack `st`.
pub open spec fn value_next(st: Seq<StateV>, v: NbtV) -> Seq<StateV> {
    if is_key_capture(st) {
        match v {
            NbtV::Str(s) => st.update(st.len() - 1, StateV::CompoundBeforeEntryValue { name: s }),
            _ => st,
        }
    } else {
        frame_next(st, type_id_of(v))
    }
}

/// The NBT serializer. It owns its byte sink and its frame stack for the
/// duration of one document.
pub struct Serializer {
    /// The byte sink; everything emitted is appended here.
    pub out: Vec<u8>,
    /// The frame stack; the active frame is the last element.
    pub state: Vec<State>,
}

impl Serializer {
    /// The abstract shape of the frame stack.
    pub open spec fn stv(self) -> Seq<StateV> {
        Seq::new(self.state@.len(), |i: int| self.state@[i]@)
    }

    /// A serializer appending to `out`, with no open frames.
    pub fn new(out: Vec<u8>) -> (s: Serializer)
        ensures
            s.out == out,
            s.stv() == Seq::<StateV>::empty(),
    {
        let s = Serializer { out, state: Vec::new() };
        proof {
            assert(s.stv() =~= Seq::<StateV>::empty());
        }
        s
    }

    /// Hands the accumulated bytes back.
    pub fn into_bytes(self) -> (r: Vec<u8>)
        ensures
            r == self.out,
    {
        self.out
    }

    /// A signed 8-bit payload: one byte.
    pub fn serialize_i8_payload(&mut self, v: i8)
        ensures
            final(self).out@ == old(self).out@ + seq![v as u8],
            final(self).state == old(self).state,
    {
        self.out.push(#[verifier::truncate] (v as u8));
        assert(final(self).out@ =~= old(self).out@ + seq![v as u8]);
    }

    /// A signed 16-bit payload: two big-endian bytes.
    pub fn serialize_i16_payload(&mut self, v: i16)
        ensures
            final(self).out@ == old(self).out@ + be16(v as u16),
            final(self).state == old(self).state,
    {
        put_u16(&mut self.out, #[verifier::truncate] (v as u16));
    }

    /// A signed 32-bit payload: four big-endian bytes.
    pub fn serialize_i32_payload(&mut self, v: i32)
        ensures
            final(self).out@ == old(self).out@ + be32(v as u32),
            final(self).state == old(self).state,
    {
        put_u32(&mut self.out, #[verifier::truncate] (v as u32));
    }

    /// A signed 64-bit payload: eight big-endian bytes.
    pub fn serialize_i64_payload(&mut self, v: i64)
        ensures
            final(self).out@ == old(self).out@ + be64(v as u64),
            final(self).state == old(self).state,
    {
        put_u64(&mut self.out, #[verifier::truncate] (v as u64));
    }

    /// A 32-bit float payload: the big-endian bytes of its bit pattern.
    pub fn serialize_f32_bits_payload(&mut self, bits: u32)
        ensures
            final(self).out@ == old(self).out@ + be32(bits),
            final(self).state == old(self).state,
    {
        put_u32(&mut self.out, bits);
    }

    /// A 64-bit float payload: the big-endian bytes of its bit pattern.
    pub fn serialize_f64_bits_payload(&mut self, bits: u64)
        ensures
            final(self).out@ == old(self).out@ + be64(bits),
            final(self).state == old(self).state,
    {
        put_u64(&mut self.out, bits);
    }

    /// A string payload: a big-endian u16 byte length, then the modified
    /// UTF-8 bytes. A string whose encoding exceeds 65535 bytes fails with
    /// `HumongousString` and emits nothing.
    pub fn serialize_string_payload(&mut self, v: &str) -> (r: Result<(), Error>)
        ensures
            jstr(v@).len() <= 0xFFFF ==> r == Ok::<(), Error>(()) && final(self).out@ == old(self).out@ + strpay(v@) && final(self).state == old(self).state,
            jstr(v@).len() > 0xFFFF ==> r == Err::<(), Error>(Error::HumongousString) && final(self).out@ == old(self).out@ && final(self).state == old(self).state,
    {
        let mut b = to_java_cesu8(v);
        if b.len() > 0xFFFF {
            return Err(Error::HumongousString);
        }
        put_u16(&mut self.out, b.len() as u16);
        self.out.append(&mut b);
        Ok(())
    }

    /// A byte-array payload: a big-endian i32 length, then the raw bytes. An
    /// array longer than `i32::MAX` fails and emits nothing.
    pub fn serialize_bytearray_payload(&mut self, buf: &[u8]) -> (r: Result<(), Error>)
        ensures
            buf@.len() <= i32::MAX ==> r == Ok::<(), Error>(()) && final(self).out@ == old(self).out@ + be32(buf@.len() as u32) + buf@ && final(self).state == old(self).state,
            buf@.len() > i32::MAX ==> (r matches Err(e) && e is Custom && final(self).out@ == old(self).out@ && final(self).state == old(self).state),
    {
        if buf.len() > i32::MAX as usize {
            return Err(Error::Custom(String::from_str("byte array too long for NBT format")));
        }
        put_u32(&mut self.out, buf.len() as u32);
        let n = buf.len();
        for i in 0..n
            invariant
                n == buf@.len(),
                self.out@ == old(self).out@ + be32(buf@.len() as u32) + buf@.subrange(0, i as int),
                self.state == old(self).state,
        {
            self.out.push(buf[i]);
            assert(self.out@ =~= old(self).out@ + be32(buf@.len() as u32) + buf@.subrange(
                0,
                i as int + 1,
            ));
        }
        assert(buf@.subrange(0, n as int) =~= buf@);
        Ok(())
    }

    /// The TypeID step of the framing rules: emit the byte directly at the
    /// root and around compound entries; for a list's first element emit the
    /// byte and the size prefix and fix the element TypeID; for later list
    /// elements emit nothing, but check homogeneity (`Heterogeneous`
    /// otherwise) and count the element down. Feeding an element to a list
    /// with no room is a state error.
    pub fn serialize_type_id(&mut self, type_id: u8) -> (r: Result<(), Error>)
        ensures
            tid_ok(old(self).stv(), type_id) ==> r == Ok::<(), Error>(()) && final(self).out@
                == old(self).out@ + tid_bytes(old(self).stv(), type_id) && final(self).stv()
                == tid_next(old(self).stv(), type_id),
            !tid_ok(old(self).stv(), type_id) ==> (final(self).out@ == old(self).out@ && final(self).stv() == old(self).stv() && (r matches Err(e) && (if frame_mismatch(
                old(self).stv(),
                type_id,
            ) {
                e == Error::Heterogeneous
            } else {
                e is Custom
            }))),
    {
        let n = self.state.len();
        if n == 0 {
            self.out.push(type_id);
            proof {
                assert(final(self).out@ =~= old(self).out@ + tid_bytes(old(self).stv(), type_id));
                assert(final(self).stv() =~= tid_next(old(self).stv(), type_id));
            }
            return Ok(());
        }
        let ghost st0 = self.stv();
        match &self.state[n - 1] {
            State::CompoundBeforeEntry | State::CompoundBeforeEntryValue { .. } => {
                self.out.push(type_id);
                proof {
                    assert(st0.last() == self.state@[n - 1]@);
                    assert(final(self).out@ =~= old(self).out@ + tid_bytes(st0, type_id));
                    assert(final(self).stv() =~= tid_next(st0, type_id));
                }
                Ok(())
            },
            State::FirstListItem { size } => {
                let size = *size;
                if size < 1 {
                    return Err(
                        Error::Custom(String::from_str("no element expected in this list")),
                    );
                }
                self.state.pop();
                self.state.push(State::InList { type_id, size: size - 1 });
                self.out.push(type_id);
                put_u32(&mut self.out, #[verifier::truncate] (size as u32));
                proof {
                    assert(final(self).out@ =~= old(self).out@ + tid_bytes(st0, type_id));
                    assert(final(self).stv() =~= tid_next(st0, type_id));
                }
                Ok(())
            },
            State::InList { type_id: list_type_id, size } => {
                let list_type_id = *list_type_id;
                let size = *size;
                if type_id != list_type_id {
                    return Err(Error::Heterogeneous);
                }
                if size < 1 {
                    return Err(
                        Error::Custom(String::from_str("no element expected in this list")),
                    );
                }
                self.state.pop();
                self.state.push(State::InList { type_id: list_type_id, size: size - 1 });
                proof {
                    assert(final(self).out@ =~= old(self).out@ + tid_bytes(st0, type_id));
                    assert(final(self).stv() =~= tid_next(st0, type_id));
                }
                Ok(())
            },
        }
    }

    /// The name step of the framing rules: at the root emit the empty root
    /// name; inside a list emit nothing; for a compound entry emit the
    /// captured key and await the next one. Being asked for a name while a
    /// compound awaits a key is a state error.
    pub fn serialize_name(&mut self) -> (r: Result<(), Error>)
        ensures
            name_ok(old(self).stv()) ==> r == Ok::<(), Error>(()) && final(self).out@ == old(self).out@ + name_bytes(old(self).stv()) && final(self).stv() == name_next(
                old(self).stv(),
            ),
            !name_ok(old(self).stv()) ==> (final(self).out@ == old(self).out@ && final(self).stv()
                == old(self).stv() && (r matches Err(e) && (if name_too_long(old(self).stv()) {
                e == Error::HumongousString
            } else {
                e is Custom
            }))),
    {
        let n = self.state.len();
        if n == 0 {
            let r = self.serialize_string_payload("");
            proof {
                reveal_strlit("");
                assert(jstr(Seq::<char>::empty()) =~= Seq::<u8>::empty());
                assert(final(self).stv() =~= name_next(old(self).stv()));
            }
            return r;
        }
        let ghost st0 = self.stv();
        match &self.state[n - 1] {
            State::FirstListItem { .. } | State::InList { .. } => {
                proof {
                    assert(st0.last() == self.state@[n - 1]@);
                    assert(final(self).out@ =~= old(self).out@ + name_bytes(st0));
                    assert(final(self).stv() =~= name_next(st0));
                }
                Ok(())
            },
            State::CompoundBeforeEntry => {
                Err(Error::Custom(String::from_str("no name to assign to this tag")))
            },
            State::CompoundBeforeEntryValue { name } => {
                let mut b = to_java_cesu8(name.as_str());
                if b.len() > 0xFFFF {
                    return Err(Error::HumongousString);
                }
                put_u16(&mut self.out, b.len() as u16);
                self.out.append(&mut b);
                self.state.pop();
                self.state.push(State::CompoundBeforeEntry);
                proof {
                    assert(st0.last() == old(self).state@[n - 1]@);
                    assert(final(self).out@ =~= old(self).out@ + name_bytes(st0));
                    assert(final(self).stv() =~= name_next(st0));
                }
                Ok(())
            },
        }
    }
}

/// Whether the TypeID step succeeds on stack `st` (the name check is
/// separate: see `name_ok`).
pub open spec fn tid_ok(st: Seq<StateV>, t: u8) -> bool {
    if st.len() == 0 {
        true
    } else {
        match st.last() {
            StateV::CompoundBeforeEntry => true,
            StateV::CompoundBeforeEntryValue { name } => true,
            StateV::FirstListItem { size } => size >= 1,
            StateV::InList { type_id, size } => t == type_id && size >= 1,
        }
    }
}

/// The bytes the TypeID step emits.
pub open spec fn tid_bytes(st: Seq<StateV>, t: u8) -> Seq<u8> {
    if st.len() == 0 {
        seq![t]
    } else {
        match st.last() {
            StateV::CompoundBeforeEntry => seq![t],
            StateV::CompoundBeforeEntryValue { name } => seq![t],
            StateV::FirstListItem { size } => seq![t] + be32(size as u32),
            StateV::InList { type_id, size } => Seq::empty(),
        }
    }
}

/// The stack after the TypeID step alone (the name step is separate).
pub open spec fn tid_next(st: Seq<StateV>, t: u8) -> Seq<StateV> {
    if st.len() == 0 {
        st
    } else {
        match st.last() {
            StateV::CompoundBeforeEntry => st,
            StateV::CompoundBeforeEntryValue { name } => st,
            StateV::FirstListItem { size } => st.update(
                st.len() - 1,
                StateV::InList { type_id: t, size: (size - 1) as i32 },
            ),
            StateV::InList { type_id, size } => st.update(
                st.len() - 1,
                StateV::InList { type_id, size: (size - 1) as i32 },
            ),
        }
    }
}

/// Whether the name step succeeds on stack `st`.
pub open spec fn name_ok(st: Seq<StateV>) -> bool {
    if st.len() == 0 {
        true
    } else {
        match st.last() {
            StateV::CompoundBeforeEntry => false,
            StateV::CompoundBeforeEntryValue { name } => jstr(name).len() <= 0xFFFF,
            StateV::FirstListItem { size } => true,
            StateV::InList { type_id, size } => true,
        }
    }
}

/// Whether the name step fails because the name does not fit its prefix.
pub open spec fn name_too_long(st: Seq<StateV>) -> bool {
    st.len() > 0 && match st.last() {
        StateV::CompoundBeforeEntryValue { name } => jstr(name).len() > 0xFFFF,
        _ => false,
    }
}

/// The bytes the name step emits.
pub open spec fn name_bytes(st: Seq<StateV>) -> Seq<u8> {
    if st.len() == 0 {
        strpay(Seq::empty())
    } else {
        match st.last() {
            StateV::CompoundBeforeEntryValue { name } => strpay(name),
            _ => Seq::empty(),
        }
    }
}

/// The stack after the name step.
pub open spec fn name_next(st: Seq<StateV>) -> Seq<StateV> {
    if st.len() == 0 {
        st
    } else {
        match st.last() {
            StateV::CompoundBeforeEntryValue { name } => st.update(
                st.len() - 1,
                StateV::CompoundBeforeEntry,
            ),
            _ => st,
        }
    }
}

/// The TypeID step followed by the name step together make up the framing.
pub proof fn lemma_frame_compose(st: Seq<StateV>, t: u8)
    requires
        frame_ok(st, t),
    ensures
        tid_ok(st, t),
        name_ok(tid_next(st, t)),
        frame_bytes(st, t) == tid_bytes(st, t) + name_bytes(tid_next(st, t)),
        frame_next(st, t) == name_next(tid_next(st, t)),
{
    if st.len() == 0 {
        assert(frame_bytes(st, t) =~= tid_bytes(st, t) + name_bytes(tid_next(st, t)));
    } else {
        match st.last() {
            StateV::CompoundBeforeEntry => {},
            StateV::CompoundBeforeEntryValue { name } => {
                assert(tid_next(st, t) == st);
                assert(frame_bytes(st, t) =~= tid_bytes(st, t) + name_bytes(tid_next(st, t)));
            },
            StateV::FirstListItem { size } => {
                let st1 = tid_next(st, t);
                assert(st1.last() == (StateV::InList { type_id: t, size: (size - 1) as i32 }));
                assert(frame_bytes(st, t) =~= tid_bytes(st, t) + name_bytes(st1));
                assert(frame_next(st, t) =~= name_next(st1));
            },
            StateV::InList { type_id, size } => {
                let st1 = tid_next(st, t);
                assert(st1.last() == (StateV::InList { type_id, size: (size - 1) as i32 }));
                assert(frame_bytes(st, t) =~= tid_bytes(st, t) + name_bytes(st1));
                assert(frame_next(st, t) =~= name_next(st1));
            },
        }
    }
}

impl Serializer {
    /// The framing of one value with TypeID `t`: the TypeID step, then the
    /// name step. Nothing is emitted and nothing changes unless the whole
    /// framing succeeds.
    fn emit_frame(&mut self, t: u8) -> (r: Result<(), Error>)
        ensures
            frame_ok(old(self).stv(), t) ==> r == Ok::<(), Error>(()) && final(self).out@ == old(self).out@
                + frame_bytes(old(self).stv(), t) && final(self).stv() == frame_next(old(self).stv(), t),
            !frame_ok(old(self).stv(), t) ==> (final(self).out@ == old(self).out@ && final(self).stv()
                == old(self).stv() && (r matches Err(e) && (if frame_mismatch(old(self).stv(), t) {
                e == Error::Heterogeneous
            } else if frame_name_too_long(old(self).stv(), t) {
                e == Error::HumongousString
            } else {
                e is Custom
            }))),
    {
        let ghost st0 = self.stv();
        let n = self.state.len();
        if n > 0 {
            proof {
                assert(st0.last() == self.state@[n - 1]@);
            }
            let bad: Option<Error> = match &self.state[n - 1] {
                State::CompoundBeforeEntry => Some(
                    Error::Custom(String::from_str("no name to assign to this tag")),
                ),
                State::CompoundBeforeEntryValue { name } => {
                    let b = to_java_cesu8(name.as_str());
                    if b.len() > 0xFFFF {
                        Some(Error::HumongousString)
                    } else {
                        None
                    }
                },
                State::FirstListItem { size } => {
                    if *size < 1 {
                        Some(Error::Custom(String::from_str("no element expected in this list")))
                    } else {
                        None
                    }
                },
                State::InList { type_id, size } => {
                    if t != *type_id {
                        Some(Error::Heterogeneous)
                    } else if *size < 1 {
                        Some(Error::Custom(String::from_str("no element expected in this list")))
                    } else {
                        None
                    }
                },
            };
            match bad {
                Some(e) => {
                    return Err(e);
                },
                None => {},
            }
        }
        proof {
            lemma_frame_compose(st0, t);
        }
        match self.serialize_type_id(t) {
            Ok(()) => {},
            Err(e) => {
                proof {
                    assert(false);
                }
                return Err(e);
            },
        }
        match self.serialize_name() {
            Ok(()) => {},
            Err(e) => {
                proof {
                    assert(false);
                }
                return Err(e);
            },
        }
        Ok(())
    }

    /// TAG_Byte: framing, then one byte.
    pub fn serialize_i8(&mut self, v: i8) -> (r: Result<(), Error>)
        ensures
            frame_ok(old(self).stv(), 1) ==> r == Ok::<(), Error>(()) && final(self).out@ == old(self).out@
                + frame_bytes(old(self).stv(), 1) + seq![v as u8] && final(self).stv() == frame_next(old(self).stv(), 1),
            !frame_ok(old(self).stv(), 1) ==> (final(self).out@ == old(self).out@ && final(self).stv()
                == old(self).stv() && r is Err),
    {
        match self.emit_frame(1) {
            Ok(()) => {},
            Err(e) => {
                return Err(e);
            },
        }
        self.serialize_i8_payload(v);
        Ok(())
    }

    /// TAG_Short: framing, then two big-endian bytes.
    pub fn serialize_i16(&mut self, v: i16) -> (r: Result<(), Error>)
        ensures
            frame_ok(old(self).stv(), 2) ==> r == Ok::<(), Error>(()) && final(self).out@ == old(self).out@
                + frame_bytes(old(self).stv(), 2) + be16(v as u16) && final(self).stv() == frame_next(old(self).stv(), 2),
            !frame_ok(old(self).stv(), 2) ==> (final(self).out@ == old(self).out@ && final(self).stv()
                == old(self).stv() && r is Err),
    {
        match self.emit_frame(2) {
            Ok(()) => {},
            Err(e) => {
                return Err(e);
            },
        }
        self.serialize_i16_payload(v);
        Ok(())
    }

    /// TAG_Int: framing, then four big-endian bytes.
    pub fn serialize_i32(&mut self, v: i32) -> (r: Result<(), Error>)
        ensures
            frame_ok(old(self).stv(), 3) ==> r == Ok::<(), Error>(()) && final(self).out@ == old(self).out@
                + frame_bytes(old(self).stv(), 3) + be32(v as u32) && final(self).stv() == frame_next(old(self).stv(), 3),
            !frame_ok(old(self).stv(), 3) ==> (final(self).out@ == old(self).out@ && final(self).stv()
                == old(self).stv() && r is Err),
    {
        match self.emit_frame(3) {
            Ok(()) => {},
            Err(e) => {
                return Err(e);
            },
        }
        self.serialize_i32_payload(v);
        Ok(())
    }

    /// TAG_Long: framing, then eight big-endian bytes.
    pub fn serialize_i64(&mut self, v: i64) -> (r: Result<(), Error>)
        ensures
            frame_ok(old(self).stv(), 4) ==> r == Ok::<(), Error>(()) && final(self).out@ == old(self).out@
                + frame_bytes(old(self).stv(), 4) + be64(v as u64) && final(self).stv() == frame_next(old(self).stv(), 4),
            !frame_ok(old(self).stv(), 4) ==> (final(self).out@ == old(self).out@ && final(self).stv()
                == old(self).stv() && r is Err),
    {
        match self.emit_frame(4) {
            Ok(()) => {},
            Err(e) => {
                return Err(e);
            },
        }
        self.serialize_i64_payload(v);
        Ok(())
    }

    /// TAG_Float: framing, then the four bytes of the bit pattern.
    pub fn serialize_f32_bits(&mut self, bits: u32) -> (r: Result<(), Error>)
        ensures
            frame_ok(old(self).stv(), 5) ==> r == Ok::<(), Error>(()) && final(self).out@ == old(self).out@
                + frame_bytes(old(self).stv(), 5) + be32(bits) && final(self).stv() == frame_next(old(self).stv(), 5),
            !frame_ok(old(self).stv(), 5) ==> (final(self).out@ == old(self).out@ && final(self).stv()
                == old(self).stv() && r is Err),
    {
        match self.emit_frame(5) {
            Ok(()) => {},
            Err(e) => {
                return Err(e);
            },
        }
        self.serialize_f32_bits_payload(bits);
        Ok(())
    }

    /// TAG_Double: framing, then the eight bytes of the bit pattern.
    pub fn serialize_f64_bits(&mut self, bits: u64) -> (r: Result<(), Error>)
        ensures
            frame_ok(old(self).stv(), 6) ==> r == Ok::<(), Error>(()) && final(self).out@ == old(self).out@
                + frame_bytes(old(self).stv(), 6) + be64(bits) && final(self).stv() == frame_next(old(self).stv(), 6),
            !frame_ok(old(self).stv(), 6) ==> (final(self).out@ == old(self).out@ && final(self).stv()
                == old(self).stv() && r is Err),
    {
        match self.emit_frame(6) {
            Ok(()) => {},
            Err(e) => {
                return Err(e);
            },
        }
        self.serialize_f64_bits_payload(bits);
        Ok(())
    }

    /// TAG_Byte_Array: framing, then an i32 length and the raw bytes. An
    /// array longer than `i32::MAX` fails before anything is emitted.
    pub fn serialize_bytes(&mut self, buf: &[u8]) -> (r: Result<(), Error>)
        ensures
            frame_ok(old(self).stv(), 7) && buf@.len() <= i32::MAX ==> r == Ok::<(), Error>(())
                && final(self).out@ == old(self).out@ + frame_bytes(old(self).stv(), 7) + (be32(buf@.len() as u32)
                + buf@) && final(self).stv() == frame_next(old(self).stv(), 7),
            !(frame_ok(old(self).stv(), 7) && buf@.len() <= i32::MAX) ==> (final(self).out@ == old(self).out@
                && final(self).stv() == old(self).stv() && r is Err),
    {
        if buf.len() > i32::MAX as usize {
            return Err(Error::Custom(String::from_str("byte array too long for NBT format")));
        }
        match self.emit_frame(7) {
            Ok(()) => {},
            Err(e) => {
                return Err(e);
            },
        }
        match self.serialize_bytearray_payload(buf) {
            Ok(()) => {},
            Err(e) => {
                proof {
                    assert(false);
                }
                return Err(e);
            },
        }
        Ok(())
    }

    /// TAG_String — or a key capture: a string arriving while a compound
    /// awaits its next entry key becomes that key, and nothing is emitted.
    /// Otherwise: framing, then a u16 byte length and the modified-UTF-8
    /// bytes. A string whose encoding exceeds 65535 bytes fails before
    /// anything is emitted.
    pub fn serialize_str(&mut self, v: &str) -> (r: Result<(), Error>)
        ensures
            is_key_capture(old(self).stv()) ==> r == Ok::<(), Error>(()) && final(self).out@ == old(self).out@
                && final(self).stv() == old(self).stv().update(
                old(self).stv().len() - 1,
                StateV::CompoundBeforeEntryValue { name: v@ },
            ),
            !is_key_capture(old(self).stv()) && frame_ok(old(self).stv(), 8) && jstr(v@).len()
                <= 0xFFFF ==> r == Ok::<(), Error>(()) && final(self).out@ == old(self).out@
                + frame_bytes(old(self).stv(), 8) + strpay(v@) && final(self).stv() == frame_next(old(self).stv(), 8),
            !is_key_capture(old(self).stv()) && !(frame_ok(old(self).stv(), 8) && jstr(v@).len()
                <= 0xFFFF) ==> (final(self).out@ == old(self).out@ && final(self).stv() == old(self).stv()
                && r is Err),
    {
        let ghost st0 = self.stv();
        let n = self.state.len();
        if n > 0 {
            proof {
                assert(st0.last() == self.state@[n - 1]@);
            }
            let capture = match &self.state[n - 1] {
                State::CompoundBeforeEntry => true,
                _ => false,
            };
            if capture {
                self.state.pop();
                self.state.push(State::CompoundBeforeEntryValue { name: v.to_owned() });
                proof {
                    assert(final(self).stv() =~= st0.update(
                        st0.len() - 1,
                        StateV::CompoundBeforeEntryValue { name: v@ },
                    ));
                }
                return Ok(());
            }
        }
        let b = to_java_cesu8(v);
        if b.len() > 0xFFFF {
            return Err(Error::HumongousString);
        }
        match self.emit_frame(8) {
            Ok(()) => {},
            Err(e) => {
                return Err(e);
            },
        }
        match self.serialize_string_payload(v) {
            Ok(()) => {},
            Err(e) => {
                proof {
                    assert(false);
                }
                return Err(e);
            },
        }
        Ok(())
    }
}

/// Whether closing a list succeeds: the top frame must be a list with no
/// elements outstanding.
pub open spec fn seq_end_ok(st: Seq<StateV>) -> bool {
    st.len() > 0 && match st.last() {
        StateV::FirstListItem { size } => size == 0,
        StateV::InList { type_id, size } => size == 0,
        _ => false,
    }
}

/// The bytes closing a list emits: a list still awaiting its first element
/// was declared empty, so the implied TAG_End element TypeID and an i32 zero
/// are emitted now; a counted-down list emits nothing.
pub open spec fn seq_end_bytes(st: Seq<StateV>) -> Seq<u8> {
    if st.len() > 0 && st.last() is FirstListItem {
        seq![0u8] + be32(0)
    } else {
        Seq::empty()
    }
}

impl Serializer {
    /// Opens a TAG_List of `len` elements: framing for the list tag, then a
    /// frame awaiting the first element (the element TypeID and size prefix
    /// are emitted when it arrives). A length beyond `i32::MAX` fails after
    /// the framing, which is already on the sink.
    pub fn serialize_tuple(&mut self, len: usize) -> (r: Result<(), Error>)
        ensures
            frame_ok(old(self).stv(), 9) && len <= i32::MAX ==> r == Ok::<(), Error>(())
                && final(self).out@ == old(self).out@ + frame_bytes(old(self).stv(), 9)
                && final(self).stv() == frame_next(old(self).stv(), 9).push(
                StateV::FirstListItem { size: len as i32 },
            ),
            !frame_ok(old(self).stv(), 9) ==> (final(self).out@ == old(self).out@ && final(self).stv()
                == old(self).stv() && r is Err),
            frame_ok(old(self).stv(), 9) && len > i32::MAX ==> (final(self).out@ == old(self).out@
                + frame_bytes(old(self).stv(), 9) && final(self).stv() == frame_next(old(self).stv(), 9)
                && (r matches Err(e) && e is Custom)),
    {
        match self.emit_frame(9) {
            Ok(()) => {},
            Err(e) => {
                return Err(e);
            },
        }
        if len > i32::MAX as usize {
            return Err(Error::Custom(String::from_str("tuple too long")));
        }
        let ghost st1 = self.stv();
        self.state.push(State::FirstListItem { size: len as i32 });
        proof {
            assert(final(self).stv() =~= st1.push(StateV::FirstListItem { size: len as i32 }));
        }
        Ok(())
    }

    /// Opens a TAG_List whose length must be known up front; a missing
    /// length fails before anything is emitted.
    pub fn serialize_seq(&mut self, len: Option<usize>) -> (r: Result<(), Error>)
        ensures
            len matches Some(n) ==> ({
                &&& frame_ok(old(self).stv(), 9) && n <= i32::MAX ==> r == Ok::<(), Error>(())
                    && final(self).out@ == old(self).out@ + frame_bytes(old(self).stv(), 9)
                    && final(self).stv() == frame_next(old(self).stv(), 9).push(
                    StateV::FirstListItem { size: n as i32 },
                )
                &&& !frame_ok(old(self).stv(), 9) ==> (final(self).out@ == old(self).out@
                    && final(self).stv() == old(self).stv() && r is Err)
            }),
            len is None ==> (final(self).out@ == old(self).out@ && final(self).stv() == old(self).stv()
                && (r matches Err(e) && e is Custom)),
    {
        match len {
            Some(n) => self.serialize_tuple(n),
            None => Err(Error::Custom(String::from_str("size must be known"))),
        }
    }

    /// Closes a TAG_List. A list that never saw an element was declared
    /// empty and emits the implied TAG_End TypeID and an i32 zero now; a
    /// counted-down list emits nothing. Closing anything else is a state
    /// error.
    pub fn end_seq(&mut self) -> (r: Result<(), Error>)
        ensures
            seq_end_ok(old(self).stv()) ==> r == Ok::<(), Error>(()) && final(self).out@ == old(self).out@
                + seq_end_bytes(old(self).stv()) && final(self).stv() == old(self).stv().drop_last(),
            !seq_end_ok(old(self).stv()) ==> (final(self).out@ == old(self).out@ && final(self).stv()
                == old(self).stv() && (r matches Err(e) && e is Custom)),
    {
        let ghost st0 = self.stv();
        let n = self.state.len();
        if n == 0 {
            return Err(Error::Custom(String::from_str("no list here to close")));
        }
        proof {
            assert(st0.last() == self.state@[n - 1]@);
        }
        match &self.state[n - 1] {
            State::InList { type_id, size } => {
                if *size != 0 {
                    return Err(Error::Custom(String::from_str("list is missing elements")));
                }
                self.state.pop();
                proof {
                    assert(final(self).stv() =~= st0.drop_last());
                    assert(final(self).out@ =~= old(self).out@ + seq_end_bytes(st0));
                }
                Ok(())
            },
            State::FirstListItem { size } => {
                if *size != 0 {
                    return Err(Error::Custom(String::from_str("list is missing elements")));
                }
                self.out.push(0);
                put_u32(&mut self.out, 0);
                self.state.pop();
                proof {
                    assert(final(self).stv() =~= st0.drop_last());
                    assert(final(self).out@ =~= old(self).out@ + seq_end_bytes(st0));
                }
                Ok(())
            },
            _ => Err(Error::Custom(String::from_str("no list here to close"))),
        }
    }

    /// Opens a TAG_Compound: framing for the compound tag, then a frame
    /// awaiting the first entry key.
    pub fn serialize_map(&mut self) -> (r: Result<(), Error>)
        ensures
            frame_ok(old(self).stv(), 10) ==> r == Ok::<(), Error>(()) && final(self).out@ == old(self).out@
                + frame_bytes(old(self).stv(), 10) && final(self).stv() == frame_next(old(self).stv(), 10).push(
                StateV::CompoundBeforeEntry,
            ),
            !frame_ok(old(self).stv(), 10) ==> (final(self).out@ == old(self).out@ && final(self).stv()
                == old(self).stv() && r is Err),
    {
        match self.emit_frame(10) {
            Ok(()) => {},
            Err(e) => {
                return Err(e);
            },
        }
        let ghost st1 = self.stv();
        self.state.push(State::CompoundBeforeEntry);
        proof {
            assert(final(self).stv() =~= st1.push(StateV::CompoundBeforeEntry));
        }
        Ok(())
    }

    /// Closes a TAG_Compound: emits the lone TAG_End terminator byte. The
    /// top frame must be a compound awaiting its next key.
    pub fn end_map(&mut self) -> (r: Result<(), Error>)
        ensures
            is_key_capture(old(self).stv()) ==> r == Ok::<(), Error>(()) && final(self).out@ == old(self).out@
                + seq![0u8] && final(self).stv() == old(self).stv().drop_last(),
            !is_key_capture(old(self).stv()) ==> (final(self).out@ == old(self).out@ && final(self).stv()
                == old(self).stv() && (r matches Err(e) && e is Custom)),
    {
        let ghost st0 = self.stv();
        let n = self.state.len();
        if n == 0 {
            return Err(Error::Custom(String::from_str("no compound here to close")));
        }
        proof {
            assert(st0.last() == self.state@[n - 1]@);
        }
        match &self.state[n - 1] {
            State::CompoundBeforeEntry => {
                self.out.push(0);
                self.state.pop();
                proof {
                    assert(final(self).stv() =~= st0.drop_last());
                    assert(final(self).out@ =~= old(self).out@ + seq![0u8]);
                }
                Ok(())
            },
            _ => Err(Error::Custom(String::from_str("no compound here to close"))),
        }
    }

    /// The NBT format has no unsigned, boolean, character or unit encodings;
    /// these are rejected without touching the sink or the stack.
    pub fn serialize_bool(&mut self, v: bool) -> (r: Result<(), Error>)
        ensures
            final(self).out@ == old(self).out@,
            final(self).stv() == old(self).stv(),
            (r matches Err(e) && e is Custom),
    {
        let _ = v;
        Err(Error::Custom(String::from_str("unsupported method for NBT format")))
    }

    /// See `serialize_bool`: unsigned integers have no NBT encoding.
    pub fn serialize_u8(&mut self, v: u8) -> (r: Result<(), Error>)
        ensures
            final(self).out@ == old(self).out@,
            final(self).stv() == old(self).stv(),
            (r matches Err(e) && e is Custom),
    {
        let _ = v;
        Err(Error::Custom(String::from_str("unsupported method for NBT format")))
    }

    /// See `serialize_bool`: unsigned integers have no NBT encoding.
    pub fn serialize_u16(&mut self, v: u16) -> (r: Result<(), Error>)
        ensures
            final(self).out@ == old(self).out@,
            final(self).stv() == old(self).stv(),
            (r matches Err(e) && e is Custom),
    {
        let _ = v;
        Err(Error::Custom(String::from_str("unsupported method for NBT format")))
    }

    /// See `serialize_bool`: unsigned integers have no NBT encoding.
    pub fn serialize_u32(&mut self, v: u32) -> (r: Result<(), Error>)
        ensures
            final(self).out@ == old(self).out@,
            final(self).stv() == old(self).stv(),
            (r matches Err(e) && e is Custom),
    {
        let _ = v;
        Err(Error::Custom(String::from_str("unsupported method for NBT format")))
    }

    /// See `serialize_bool`: unsigned integers have no NBT encoding.
    pub fn serialize_u64(&mut self, v: u64) -> (r: Result<(), Error>)
        ensures
            final(self).out@ == old(self).out@,
            final(self).stv() == old(self).stv(),
            (r matches Err(e) && e is Custom),
    {
        let _ = v;
        Err(Error::Custom(String::from_str("unsupported method for NBT format")))
    }

    /// See `serialize_bool`: characters have no NBT encoding of their own.
    pub fn serialize_char(&mut self, v: char) -> (r: Result<(), Error>)
        ensures
            final(self).out@ == old(self).out@,
            final(self).stv() == old(self).stv(),
            (r matches Err(e) && e is Custom),
    {
        let _ = v;
        Err(Error::Custom(String::from_str("unsupported method for NBT format")))
    }

    /// See `serialize_bool`: the unit value has no NBT encoding.
    pub fn serialize_unit(&mut self) -> (r: Result<(), Error>)
        ensures
            final(self).out@ == old(self).out@,
            final(self).stv() == old(self).stv(),
            (r matches Err(e) && e is Custom),
    {
        Err(Error::Custom(String::from_str("unsupported method for NBT format")))
    }
}

impl Serializer {
    /// Serializes one value of the model in the current state. The framing
    /// rules decide what precedes the payload: TypeID and empty name at the
    /// root, TypeID and captured key inside a compound entry, TypeID and
    /// size prefix for a list's first element, nothing for its later
    /// elements. A string arriving while a compound awaits a key is captured
    /// as that key and emits nothing. Success is exactly `value_ok`: the
    /// value must be well-formed and must fit the active frame. On failure
    /// partial output stays on the sink and the serializer must be
    /// discarded.
    #[verifier::loop_isolation(false)]
    #[verifier::rlimit(100)]
    #[verifier::spinoff_prover]
    pub fn serialize_value(&mut self, v: &Value) -> (r: Result<(), Error>)
        ensures
            value_ok(old(self).stv(), v@) ==> r == Ok::<(), Error>(()) && final(self).out@ == old(self).out@
                + value_bytes(old(self).stv(), v@) && final(self).stv() == value_next(old(self).stv(), v@),
            !value_ok(old(self).stv(), v@) ==> (r is Err && old(self).out@.is_prefix_of(final(self).out@)),
        decreases v,
    {
        let ghost st0 = self.stv();
        match v {
            Value::Byte(b) => {
                let r = self.serialize_i8(*b);
                proof {
                    if frame_ok(st0, 1) && !is_key_capture(st0) {
                        assert(old(self).out@ + frame_bytes(st0, 1) + seq![*b as u8] =~= old(self).out@
                            + value_bytes(st0, v@));
                    }
                    assert(old(self).out@.is_prefix_of(self.out@));
                }
                r
            },
            Value::Short(x) => {
                let r = self.serialize_i16(*x);
                proof {
                    if frame_ok(st0, 2) && !is_key_capture(st0) {
                        assert(old(self).out@ + frame_bytes(st0, 2) + be16(*x as u16) =~= old(self).out@
                            + value_bytes(st0, v@));
                    }
                    assert(old(self).out@.is_prefix_of(self.out@));
                }
                r
            },
            Value::Int(x) => {
                let r = self.serialize_i32(*x);
                proof {
                    if frame_ok(st0, 3) && !is_key_capture(st0) {
                        assert(old(self).out@ + frame_bytes(st0, 3) + be32(*x as u32) =~= old(self).out@
                            + value_bytes(st0, v@));
                    }
                    assert(old(self).out@.is_prefix_of(self.out@));
                }
                r
            },
            Value::Long(x) => {
                let r = self.serialize_i64(*x);
                proof {
                    if frame_ok(st0, 4) && !is_key_capture(st0) {
                        assert(old(self).out@ + frame_bytes(st0, 4) + be64(*x as u64) =~= old(self).out@
                            + value_bytes(st0, v@));
                    }
                    assert(old(self).out@.is_prefix_of(self.out@));
                }
                r
            },
            Value::Float(bits) => {
                let r = self.serialize_f32_bits(*bits);
                proof {
                    if frame_ok(st0, 5) && !is_key_capture(st0) {
                        assert(old(self).out@ + frame_bytes(st0, 5) + be32(*bits) =~= old(self).out@
                            + value_bytes(st0, v@));
                    }
                    assert(old(self).out@.is_prefix_of(self.out@));
                }
                r
            },
            Value::Double(bits) => {
                let r = self.serialize_f64_bits(*bits);
                proof {
                    if frame_ok(st0, 6) && !is_key_capture(st0) {
                        assert(old(self).out@ + frame_bytes(st0, 6) + be64(*bits) =~= old(self).out@
                            + value_bytes(st0, v@));
                    }
                    assert(old(self).out@.is_prefix_of(self.out@));
                }
                r
            },
            Value::Bytes(b) => {
                let r = self.serialize_bytes(b.as_slice());
                proof {
                    if frame_ok(st0, 7) && !is_key_capture(st0) && b@.len() <= i32::MAX {
                        assert(old(self).out@ + frame_bytes(st0, 7) + (be32(b@.len() as u32) + b@)
                            =~= old(self).out@ + value_bytes(st0, v@));
                    }
                    assert(old(self).out@.is_prefix_of(self.out@));
                }
                r
            },
            Value::Str(s) => {
                let r = self.serialize_str(s.as_str());
                proof {
                    if is_key_capture(st0) {
                        assert(old(self).out@ + value_bytes(st0, v@) =~= old(self).out@);
                    } else if frame_ok(st0, 8) && jstr(s@).len() <= 0xFFFF {
                        assert(old(self).out@ + frame_bytes(st0, 8) + strpay(s@) =~= old(self).out@
                            + value_bytes(st0, v@));
                    }
                    assert(old(self).out@.is_prefix_of(self.out@));
                }
                r
            },
            Value::List(es) => {
                proof {
                    assert(v@ == NbtV::List(view_of_seq(es@)));
                }
                self.serialize_list(es)
            },
            Value::Compound(fs) => {
                proof {
                    assert(v@ == NbtV::Compound(view_of_entries(fs@)));
                }
                self.serialize_compound(fs)
            },
        }
    }

    /// Serializes a TAG_List: opens it, feeds each element, closes it.
    #[verifier::loop_isolation(false)]
    #[verifier::rlimit(100)]
    #[verifier::spinoff_prover]
    fn serialize_list(&mut self, es: &Vec<Value>) -> (r: Result<(), Error>)
        ensures
            value_ok(old(self).stv(), NbtV::List(view_of_seq(es@))) ==> r == Ok::<(), Error>(())
                && final(self).out@ == old(self).out@ + value_bytes(
                old(self).stv(),
                NbtV::List(view_of_seq(es@)),
            ) && final(self).stv() == value_next(old(self).stv(), NbtV::List(view_of_seq(es@))),
            !value_ok(old(self).stv(), NbtV::List(view_of_seq(es@))) ==> (r is Err && old(self).out@.is_prefix_of(final(self).out@)),
        decreases es,
    {
        let ghost st0 = self.stv();
        let ghost ev = view_of_seq(es@);
        let ghost vv = NbtV::List(ev);
        proof {
            lemma_view_of_seq(es@);
        }
        {
            {
                let n = es.len();
                match self.serialize_tuple(n) {
                    Ok(()) => {},
                    Err(e) => {
                        proof {
                            assert(old(self).out@.is_prefix_of(self.out@));
                        }
                        return Err(e);
                    },
                }
                let ghost stbase = frame_next(st0, 9);
                let mut i: usize = 0;
                while i < n
                    invariant
                        0 <= i <= n,
                        self.stv() =~= stbase.push(
                            if i == 0 {
                                StateV::FirstListItem { size: n as i32 }
                            } else {
                                StateV::InList {
                                    type_id: elem_type_id(ev),
                                    size: (n - i) as i32,
                                }
                            },
                        ),
                        self.out@ == old(self).out@ + frame_bytes(st0, 9) + (
                        if i == 0 {
                            Seq::<u8>::empty()
                        } else {
                            seq![elem_type_id(ev)] + be32(n as u32)
                        }) + payloads(ev.subrange(0, i as int)),
                        forall|j: int|
                            0 <= j < i ==> wf(#[trigger] ev[j]) && type_id_of(ev[j])
                                == elem_type_id(ev),
                    decreases n - i,
                {
                    let ghost cur = self.stv();
                    let ghost out_pre = self.out@;
                    let r = self.serialize_value(&es[i]);
                    proof {
                        assert(es[i as int]@ == ev[i as int]);
                    }
                    match r {
                        Ok(()) => {},
                        Err(e) => {
                            proof {
                                assert(!value_ok(cur, ev[i as int]));
                                if value_ok(st0, vv) {
                                    assert(wf(vv));
                                    assert(wf(ev[i as int]) && type_id_of(ev[i as int])
                                        == elem_type_id(ev));
                                    assert(value_ok(cur, ev[i as int]));
                                }
                                assert(old(self).out@.is_prefix_of(self.out@));
                            }
                            return Err(e);
                        },
                    }
                    proof {
                        assert(value_ok(cur, ev[i as int]));
                        let t = type_id_of(ev[i as int]);
                        assert(ev.subrange(0, i as int + 1) =~= ev.subrange(0, i as int).push(
                            ev[i as int],
                        ));
                        lemma_payloads_append(ev.subrange(0, i as int), ev[i as int]);
                        if i == 0 {
                            assert(elem_type_id(ev) == t);
                            assert(value_bytes(cur, ev[0]) == (seq![t] + be32((n as i32) as u32))
                                + payload(ev[0]));
                            assert((n as i32) as u32 == n as u32);
                            assert(self.out@ =~= old(self).out@ + frame_bytes(st0, 9) + (seq![
                                elem_type_id(ev),
                            ] + be32(n as u32)) + payloads(ev.subrange(0, 1)));
                            assert(self.stv() =~= stbase.push(
                                StateV::InList { type_id: elem_type_id(ev), size: (n - 1) as i32 },
                            ));
                        } else {
                            assert(value_bytes(cur, ev[i as int]) == Seq::<u8>::empty() + payload(
                                ev[i as int],
                            ));
                            assert(self.out@ =~= old(self).out@ + frame_bytes(st0, 9) + (seq![
                                elem_type_id(ev),
                            ] + be32(n as u32)) + payloads(ev.subrange(0, i as int + 1)));
                            assert(self.stv() =~= stbase.push(
                                StateV::InList {
                                    type_id: elem_type_id(ev),
                                    size: (n - (i + 1)) as i32,
                                },
                            ));
                        }
                    }
                    i = i + 1;
                }
                match self.end_seq() {
                    Ok(()) => {},
                    Err(e) => {
                        proof {
                            assert(false);
                        }
                        return Err(e);
                    },
                }
                proof {
                    assert(wf(vv));
                    assert(value_ok(st0, vv));
                    if n == 0 {
                        lemma_empty_list_payload();
                        assert(ev =~= Seq::<NbtV>::empty());
                        assert((0u32 >> 24) as u8 == 0 && (0u32 >> 16) as u8 == 0 && (0u32
                            >> 8) as u8 == 0) by (bit_vector);
                        assert(seq![0u8] + be32(0) =~= payload(NbtV::List(ev)));
                        assert(payloads(ev.subrange(0, 0)) =~= Seq::<u8>::empty());
                        assert(self.out@ =~= old(self).out@ + value_bytes(st0, vv));
                    } else {
                        assert(ev.subrange(0, n as int) =~= ev);
                        assert(payload(NbtV::List(ev)) == seq![elem_type_id(ev)] + be32(
                            ev.len() as u32,
                        ) + payloads(ev));
                        assert(self.out@ =~= old(self).out@ + value_bytes(st0, vv));
                    }
                    assert(self.stv() =~= value_next(st0, vv));
                    assert(old(self).out@.is_prefix_of(self.out@));
                }
                Ok(())
            }
        }
    }

    /// Serializes a TAG_Compound: opens it, feeds each entry as a captured
    /// key and then its value, closes it with the TAG_End terminator.
    #[verifier::loop_isolation(false)]
    #[verifier::rlimit(100)]
    #[verifier::spinoff_prover]
    fn serialize_compound(&mut self, fs: &Vec<(String, Value)>) -> (r: Result<(), Error>)
        ensures
            value_ok(old(self).stv(), NbtV::Compound(view_of_entries(fs@))) ==> r == Ok::<(), Error>(())
                && final(self).out@ == old(self).out@ + value_bytes(
                old(self).stv(),
                NbtV::Compound(view_of_entries(fs@)),
            ) && final(self).stv() == value_next(
                old(self).stv(),
                NbtV::Compound(view_of_entries(fs@)),
            ),
            !value_ok(old(self).stv(), NbtV::Compound(view_of_entries(fs@))) ==> (r is Err && old(self).out@.is_prefix_of(final(self).out@)),
        decreases fs,
    {
        let ghost st0 = self.stv();
        let ghost fv = view_of_entries(fs@);
        let ghost vv = NbtV::Compound(fv);
        proof {
            lemma_view_of_entries(fs@);
        }
        {
            {
                match self.serialize_map() {
                    Ok(()) => {},
                    Err(e) => {
                        proof {
                            assert(old(self).out@.is_prefix_of(self.out@));
                        }
                        return Err(e);
                    },
                }
                let ghost stbase = frame_next(st0, 10);
                let n = fs.len();
                let mut i: usize = 0;
                while i < n
                    invariant
                        0 <= i <= n,
                        self.stv() =~= stbase.push(StateV::CompoundBeforeEntry),
                        self.out@ == old(self).out@ + frame_bytes(st0, 10) + entries(
                            fv.subrange(0, i as int),
                        ),
                        forall|j: int|
                            0 <= j < i ==> jstr((#[trigger] fv[j]).0).len() <= 0xFFFF && wf(
                                fv[j].1,
                            ),
                    decreases n - i,
                {
                    proof {
                        assert(fv[i as int] == (fs@[i as int].0@, view_of(fs@[i as int].1)));
                    }
                    let pair = &fs[i];
                    match self.serialize_str(pair.0.as_str()) {
                        Ok(()) => {},
                        Err(e) => {
                            proof {
                                assert(false);
                            }
                            return Err(e);
                        },
                    }
                    let ghost cur = self.stv();
                    let ghost out_pre = self.out@;
                    proof {
                        assert(cur =~= stbase.push(
                            StateV::CompoundBeforeEntryValue { name: fs@[i as int].0@ },
                        ));
                    }
                    let r = self.serialize_value(&pair.1);
                    match r {
                        Ok(()) => {},
                        Err(e) => {
                            proof {
                                assert(!value_ok(cur, fv[i as int].1));
                                if value_ok(st0, vv) {
                                    assert(wf(vv));
                                    assert(jstr(fv[i as int].0).len() <= 0xFFFF && wf(
                                        fv[i as int].1,
                                    ));
                                    assert(value_ok(cur, fv[i as int].1));
                                }
                                assert(old(self).out@.is_prefix_of(self.out@));
                            }
                            return Err(e);
                        },
                    }
                    proof {
                        assert(value_ok(cur, fv[i as int].1));
                        let t = type_id_of(fv[i as int].1);
                        assert(value_bytes(cur, fv[i as int].1) == (seq![t] + strpay(
                            fv[i as int].0,
                        )) + payload(fv[i as int].1));
                        assert(fv.subrange(0, i as int + 1) =~= fv.subrange(0, i as int).push(
                            fv[i as int],
                        ));
                        lemma_entries_append(fv.subrange(0, i as int), fv[i as int]);
                        assert(self.out@ =~= old(self).out@ + frame_bytes(st0, 10) + entries(
                            fv.subrange(0, i as int + 1),
                        ));
                        assert(self.stv() =~= stbase.push(StateV::CompoundBeforeEntry));
                    }
                    i = i + 1;
                }
                match self.end_map() {
                    Ok(()) => {},
                    Err(e) => {
                        proof {
                            assert(false);
                        }
                        return Err(e);
                    },
                }
                proof {
                    assert(wf(vv));
                    assert(value_ok(st0, vv));
                    assert(fv.subrange(0, n as int) =~= fv);
                    assert(payload(NbtV::Compound(fv)) == entries(fv) + seq![0u8]);
                    assert(self.out@ =~= old(self).out@ + value_bytes(st0, vv));
                    assert(self.stv() =~= value_next(st0, vv));
                    assert(old(self).out@.is_prefix_of(self.out@));
                }
                Ok(())
            }
        }
    }
}

/// Encodes a whole document: its root is the given value as a named tag with
/// the empty root name. Succeeds exactly on well-formed values.
pub fn to_bytes(v: &Value) -> (r: Result<Vec<u8>, Error>)
    ensures
        wf(v@) ==> (r matches Ok(b) && b@ == doc(v@)),
        !wf(v@) ==> r is Err,
{
    let mut s = Serializer::new(Vec::new());
    proof {
        assert(!is_key_capture(s.stv()));
        assert(frame_ok(s.stv(), type_id_of(v@)));
    }
    match s.serialize_value(v) {
        Ok(()) => {},
        Err(e) => {
            return Err(e);
        },
    }
    proof {
        if wf(v@) {
            assert(Seq::<u8>::empty() + value_bytes(Seq::<StateV>::empty(), v@) =~= doc(v@));
        }
    }
    Ok(s.into_bytes())
}

} // verus!
