//! The NBT value model: a tree of typed nodes, its abstract (ghost) shape,
//! the well-formedness that the format demands, and the byte-level payload
//! encoding of every tag kind.

use vstd::prelude::*;

use crate::bytes::{be16, be32, be64};
use crate::nbt::cesu::jstr;

verus! {

/// An NBT document node. Floats are carried as their IEEE-754 bit patterns
/// (`to_bits`/`from_bits` semantics), which is exactly what the wire holds.
#[derive(Debug, PartialEq)]
pub enum Value {
    /// TAG_Byte: a signed 8-bit integer.
    Byte(i8),
    /// TAG_Short: a signed 16-bit integer.
    Short(i16),
    /// TAG_Int: a signed 32-bit integer.
    Int(i32),
    /// TAG_Long: a signed 64-bit integer.
    Long(i64),
    /// TAG_Float: the bit pattern of a 32-bit IEEE-754 float.
    Float(u32),
    /// TAG_Double: the bit pattern of a 64-bit IEEE-754 float.
    Double(u64),
    /// TAG_Byte_Array: raw bytes behind an i32 length.
    Bytes(Vec<u8>),
    /// TAG_String: text, sent as modified-UTF-8 behind a u16 byte length.
    Str(String),
    /// TAG_List: homogeneous, payload-only elements behind a declared element
    /// TypeID and an i32 length.
    List(Vec<Value>),
    /// TAG_Compound: named entries in order, terminated by a lone TAG_End.
    Compound(Vec<(String, Value)>),
}

/// The abstract shape of a node: the same tree over mathematical sequences.
pub enum NbtV {
    /// TAG_Byte.
    Byte(i8),
    /// TAG_Short.
    Short(i16),
    /// TAG_Int.
    Int(i32),
    /// TAG_Long.
    Long(i64),
    /// TAG_Float, as its bit pattern.
    Float(u32),
    /// TAG_Double, as its bit pattern.
    Double(u64),
    /// TAG_Byte_Array.
    Bytes(Seq<u8>),
    /// TAG_String.
    Str(Seq<char>),
    /// TAG_List.
    List(Seq<NbtV>),
    /// TAG_Compound.
    Compound(Seq<(Seq<char>, NbtV)>),
}

/// The abstract shape of a node.
pub open spec fn view_of(v: Value) -> NbtV
    decreases v,
{
    match v {
        Value::Byte(b) => NbtV::Byte(b),
        Value::Short(x) => NbtV::Short(x),
        Value::Int(x) => NbtV::Int(x),
        Value::Long(x) => NbtV::Long(x),
        Value::Float(bits) => NbtV::Float(bits),
        Value::Double(bits) => NbtV::Double(bits),
        Value::Bytes(b) => NbtV::Bytes(b@),
        Value::Str(s) => NbtV::Str(s@),
        Value::List(es) => NbtV::List(view_of_seq(es@)),
        Value::Compound(fs) => NbtV::Compound(view_of_entries(fs@)),
    }
}

/// The abstract shapes of a sequence of nodes.
pub open spec fn view_of_seq(s: Seq<Value>) -> Seq<NbtV>
    decreases s,
{
    if s.len() == 0 {
        Seq::empty()
    } else {
        seq![view_of(s[0])] + view_of_seq(s.subrange(1, s.len() as int))
    }
}

/// The abstract shapes of a sequence of named entries.
pub open spec fn view_of_entries(s: Seq<(String, Value)>) -> Seq<(Seq<char>, NbtV)>
    decreases s,
{
    if s.len() == 0 {
        Seq::empty()
    } else {
        seq![(s[0].0@, view_of(s[0].1))] + view_of_entries(s.subrange(1, s.len() as int))
    }
}

impl View for Value {
    type V = NbtV;

    open spec fn view(&self) -> NbtV {
        view_of(*self)
    }
}

/// A sequence view keeps lengths and is element-wise.
pub proof fn lemma_view_of_seq(s: Seq<Value>)
    ensures
        view_of_seq(s).len() == s.len(),
        forall|i: int| 0 <= i < s.len() ==> view_of_seq(s)[i] == view_of(#[trigger] s[i]),
    decreases s,
{
    if s.len() > 0 {
        let tail = s.subrange(1, s.len() as int);
        lemma_view_of_seq(tail);
        assert forall|i: int| 0 <= i < s.len() implies view_of_seq(s)[i] == view_of(
            #[trigger] s[i],
        ) by {
            if i > 0 {
                assert(tail[i - 1] == s[i]);
                assert(view_of_seq(s)[i] == view_of_seq(tail)[i - 1]);
            }
        }
    }
}

/// An entry-sequence view keeps lengths and is element-wise.
pub proof fn lemma_view_of_entries(s: Seq<(String, Value)>)
    ensures
        view_of_entries(s).len() == s.len(),
        forall|i: int|
            0 <= i < s.len() ==> view_of_entries(s)[i] == ((#[trigger] s[i]).0@, view_of(s[i].1)),
    decreases s,
{
    if s.len() > 0 {
        let tail = s.subrange(1, s.len() as int);
        lemma_view_of_entries(tail);
        assert forall|i: int| 0 <= i < s.len() implies view_of_entries(s)[i] == ((
        #[trigger] s[i]).0@, view_of(s[i].1)) by {
            if i > 0 {
                assert(tail[i - 1] == s[i]);
                assert(view_of_entries(s)[i] == view_of_entries(tail)[i - 1]);
            }
        }
    }
}

/// The TypeID byte of each tag kind.
pub open spec fn type_id_of(v: NbtV) -> u8 {
    match v {
        NbtV::Byte(_) => 1,
        NbtV::Short(_) => 2,
        NbtV::Int(_) => 3,
        NbtV::Long(_) => 4,
        NbtV::Float(_) => 5,
        NbtV::Double(_) => 6,
        NbtV::Bytes(_) => 7,
        NbtV::Str(_) => 8,
        NbtV::List(_) => 9,
        NbtV::Compound(_) => 10,
    }
}

/// The element TypeID a list declares: that of its first element, or TAG_End
/// for a list with no elements to imply one.
pub open spec fn elem_type_id(es: Seq<NbtV>) -> u8 {
    if es.len() == 0 {
        0
    } else {
        type_id_of(es[0])
    }
}

/// A string payload: a big-endian u16 byte length, then the modified-UTF-8
/// bytes themselves.
pub open spec fn strpay(s: Seq<char>) -> Seq<u8> {
    be16(jstr(s).len() as u16) + jstr(s)
}

/// The payload bytes of a node (what follows its TypeID and name).
pub open spec fn payload(v: NbtV) -> Seq<u8>
    decreases v,
{
    match v {
        NbtV::Byte(b) => seq![b as u8],
        NbtV::Short(x) => be16(x as u16),
        NbtV::Int(x) => be32(x as u32),
        NbtV::Long(x) => be64(x as u64),
        NbtV::Float(bits) => be32(bits),
        NbtV::Double(bits) => be64(bits),
        NbtV::Bytes(b) => be32(b.len() as u32) + b,
        NbtV::Str(s) => strpay(s),
        NbtV::List(es) => seq![elem_type_id(es)] + be32(es.len() as u32) + payloads(es),
        NbtV::Compound(fs) => entries(fs) + seq![0u8],
    }
}

/// The concatenated payloads of a list's elements (payload-only: no TypeID,
/// no name).
pub open spec fn payloads(es: Seq<NbtV>) -> Seq<u8>
    decreases es,
{
    if es.len() == 0 {
        Seq::empty()
    } else {
        payload(es[0]) + payloads(es.subrange(1, es.len() as int))
    }
}

/// The concatenated named entries of a compound: for each, its TypeID byte,
/// its name as a string payload, then its payload.
pub open spec fn entries(fs: Seq<(Seq<char>, NbtV)>) -> Seq<u8>
    decreases fs,
{
    if fs.len() == 0 {
        Seq::empty()
    } else {
        seq![type_id_of(fs[0].1)] + strpay(fs[0].0) + payload(fs[0].1) + entries(
            fs.subrange(1, fs.len() as int),
        )
    }
}

/// A named tag: TypeID byte, name as a string payload, then the payload.
pub open spec fn named(name: Seq<char>, v: NbtV) -> Seq<u8> {
    seq![type_id_of(v)] + strpay(name) + payload(v)
}

/// A whole document: its root is a named tag whose name is empty.
pub open spec fn doc(v: NbtV) -> Seq<u8> {
    named(Seq::empty(), v)
}

/// Well-formedness: what the format can carry. Strings (and entry names)
/// must fit a u16 byte length once encoded; byte arrays and lists must fit an
/// i32 length; every list must be homogeneous.
pub open spec fn wf(v: NbtV) -> bool
    decreases v,
{
    match v {
        NbtV::Byte(_) => true,
        NbtV::Short(_) => true,
        NbtV::Int(_) => true,
        NbtV::Long(_) => true,
        NbtV::Float(_) => true,
        NbtV::Double(_) => true,
        NbtV::Bytes(b) => b.len() <= i32::MAX,
        NbtV::Str(s) => jstr(s).len() <= 0xFFFF,
        NbtV::List(es) => es.len() <= i32::MAX && (forall|i: int|
            0 <= i < es.len() ==> wf(#[trigger] es[i]) && type_id_of(es[i]) == elem_type_id(es)),
        NbtV::Compound(fs) => forall|i: int|
            0 <= i < fs.len() ==> jstr((#[trigger] fs[i]).0).len() <= 0xFFFF && wf(fs[i].1),
    }
}

impl Value {
    /// The TypeID byte of this node's tag kind.
    pub fn type_id(&self) -> (t: u8)
        ensures
            t == type_id_of(self@),
    {
        match self {
            Value::Byte(_) => 1,
            Value::Short(_) => 2,
            Value::Int(_) => 3,
            Value::Long(_) => 4,
            Value::Float(_) => 5,
            Value::Double(_) => 6,
            Value::Bytes(_) => 7,
            Value::Str(_) => 8,
            Value::List(_) => 9,
            Value::Compound(_) => 10,
        }
    }
}

/// Every list encoding is homogeneous: each element's TypeID equals the
/// list's declared element TypeID, which is the encoding's first byte.
pub proof fn lemma_list_homogeneous(es: Seq<NbtV>, i: int)
    requires
        wf(NbtV::List(es)),
        0 <= i < es.len(),
    ensures
        type_id_of(es[i]) == elem_type_id(es),
        payload(NbtV::List(es))[0] == type_id_of(es[i]),
{
}

/// Every compound encoding is its entries followed by exactly one TAG_End
/// byte: a lone 0x00 terminator.
pub proof fn lemma_compound_terminated(fs: Seq<(Seq<char>, NbtV)>)
    ensures
        payload(NbtV::Compound(fs)) == entries(fs) + seq![0u8],
        payload(NbtV::Compound(fs)).len() >= 1,
        payload(NbtV::Compound(fs)).last() == 0u8,
{
}

/// A list of declared size zero encodes as the TAG_End TypeID and an i32
/// zero: five zero bytes.
pub proof fn lemma_empty_list_payload()
    ensures
        payload(NbtV::List(Seq::empty())) == seq![0u8, 0u8, 0u8, 0u8, 0u8],
{
    assert((0u32 >> 24) as u8 == 0 && (0u32 >> 16) as u8 == 0 && (0u32 >> 8) as u8 == 0)
        by (bit_vector);
    assert(payloads(Seq::<NbtV>::empty()) =~= Seq::<u8>::empty());
    assert(payload(NbtV::List(Seq::empty())) =~= seq![0u8, 0u8, 0u8, 0u8, 0u8]);
}

/// A compound with no entries encodes as the lone TAG_End byte.
pub proof fn lemma_empty_compound_payload()
    ensures
        payload(NbtV::Compound(Seq::empty())) == seq![0u8],
{
    assert(payload(NbtV::Compound(Seq::empty())) =~= seq![0u8]);
}

/// Splitting off a list's first element splits its payload bytes.
pub proof fn lemma_payloads_first(es: Seq<NbtV>)
    requires
        es.len() > 0,
    ensures
        payloads(es) == payload(es[0]) + payloads(es.subrange(1, es.len() as int)),
{
}

/// Splitting off a compound's first entry splits its entry bytes.
pub proof fn lemma_entries_first(fs: Seq<(Seq<char>, NbtV)>)
    requires
        fs.len() > 0,
    ensures
        entries(fs) == seq![type_id_of(fs[0].1)] + strpay(fs[0].0) + payload(fs[0].1) + entries(
            fs.subrange(1, fs.len() as int),
        ),
{
}

/// Appending one element appends its payload.
pub proof fn lemma_payloads_append(a: Seq<NbtV>, x: NbtV)
    ensures
        payloads(a.push(x)) == payloads(a) + payload(x),
    decreases a.len(),
{
    if a.len() == 0 {
        assert(a.push(x).subrange(1, 1) =~= Seq::<NbtV>::empty());
        assert(a.push(x)[0] == x);
        assert(payloads(Seq::<NbtV>::empty()) =~= Seq::<u8>::empty());
        assert(payloads(a.push(x)) =~= payload(x));
        assert(payloads(a) + payload(x) =~= payload(x));
    } else {
        assert(a.push(x).subrange(1, a.len() as int + 1) =~= a.subrange(1, a.len() as int).push(x));
        lemma_payloads_append(a.subrange(1, a.len() as int), x);
        assert(payloads(a.push(x)) =~= payloads(a) + payload(x));
    }
}

/// Appending one entry appends its bytes.
pub proof fn lemma_entries_append(a: Seq<(Seq<char>, NbtV)>, x: (Seq<char>, NbtV))
    ensures
        entries(a.push(x)) == entries(a) + (seq![type_id_of(x.1)] + strpay(x.0) + payload(x.1)),
    decreases a.len(),
{
    if a.len() == 0 {
        assert(a.push(x).subrange(1, 1) =~= Seq::<(Seq<char>, NbtV)>::empty());
        assert(a.push(x)[0] == x);
        assert(entries(Seq::<(Seq<char>, NbtV)>::empty()) =~= Seq::<u8>::empty());
        assert(entries(a.push(x)) =~= seq![type_id_of(x.1)] + strpay(x.0) + payload(x.1));
        assert(entries(a) + (seq![type_id_of(x.1)] + strpay(x.0) + payload(x.1)) =~= seq![
            type_id_of(x.1),
        ] + strpay(x.0) + payload(x.1));
    } else {
        assert(a.push(x).subrange(1, a.len() as int + 1) =~= a.subrange(1, a.len() as int).push(x));
        lemma_entries_append(a.subrange(1, a.len() as int), x);
        assert(entries(a.push(x)) =~= entries(a) + (seq![type_id_of(x.1)] + strpay(x.0) + payload(
            x.1,
        )));
    }
}

/// Every payload takes at least one byte.
pub proof fn lemma_payload_min(v: NbtV)
    ensures
        payload(v).len() >= 1,
{
}

} // verus!
