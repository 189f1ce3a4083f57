//! NBT string payload encoding: Java's modified UTF-8 (CESU-8 with U+0000
//! written as the overlong pair C0 80, and supplementary characters written
//! as two three-byte surrogate halves). The transform itself is delegated to
//! an external collaborator; its byte-level meaning is stated here so the
//! codec's contracts can speak about it.

use vstd::prelude::*;

verus! {

/// The three-byte form of a 16-bit value (used for code points from 0x800 up,
/// and for each surrogate half of a supplementary character).
pub open spec fn jchar3(w: int) -> Seq<u8> {
    seq![(0xE0 + w / 0x1000) as u8, (0x80 + (w / 0x40) % 0x40) as u8, (0x80 + w % 0x40) as u8]
}

/// The modified-UTF-8 bytes of one character: U+0000 as C0 80, ASCII as one
/// byte, two- and three-byte UTF-8 for the rest of the basic plane, and a
/// surrogate pair of three-byte halves for supplementary characters.
pub open spec fn jchar(c: char) -> Seq<u8> {
    let u = c as u32;
    if u == 0 {
        seq![0xC0u8, 0x80u8]
    } else if u < 0x80 {
        seq![u as u8]
    } else if u < 0x800 {
        seq![(0xC0 + u / 0x40) as u8, (0x80 + u % 0x40) as u8]
    } else if u < 0x10000 {
        jchar3(u as int)
    } else {
        jchar3(0xD800 + (u - 0x10000) / 0x400) + jchar3(0xDC00 + (u - 0x10000) % 0x400)
    }
}

/// The modified-UTF-8 bytes of a whole string.
pub open spec fn jstr(s: Seq<char>) -> Seq<u8>
    decreases s.len(),
{
    if s.len() == 0 {
        Seq::empty()
    } else {
        jchar(s[0]) + jstr(s.subrange(1, s.len() as int))
    }
}

/// Concatenating strings concatenates their modified-UTF-8 bytes.
pub proof fn lemma_jstr_append(a: Seq<char>, b: Seq<char>)
    ensures
        jstr(a + b) == jstr(a) + jstr(b),
    decreases a.len(),
{
    if a.len() == 0 {
        assert(a + b =~= b);
        assert(jstr(a) + jstr(b) =~= jstr(b));
    } else {
        assert((a + b).subrange(1, (a + b).len() as int) =~= a.subrange(1, a.len() as int) + b);
        lemma_jstr_append(a.subrange(1, a.len() as int), b);
        assert(jstr(a + b) =~= jstr(a) + jstr(b));
    }
}

/// Relies on cesu8::to_java_cesu8: text without U+0000 and without
/// supplementary characters passes through as its UTF-8 bytes; U+0000 becomes
/// the overlong pair C0 80; a supplementary character becomes two three-byte
/// surrogate halves.
#[verifier::external_body]
pub fn to_java_cesu8(s: &str) -> (r: Vec<u8>)
    ensures
        r@ == jstr(s@),
{
    cesu8::to_java_cesu8(s).into_owned()
}

/// Relies on cesu8::from_java_cesu8: decoding the modified-UTF-8 bytes of any
/// string yields that string back. (On bytes that are no such encoding the
/// call may still succeed, for instance on plain four-byte UTF-8; nothing is
/// claimed of those.)
#[verifier::external_body]
pub fn from_java_cesu8(b: &[u8]) -> (r: Option<String>)
    ensures
        (exists|s: Seq<char>| b@ == jstr(s)) ==> r is Some,
        r matches Some(t) ==> forall|s: Seq<char>| b@ == jstr(s) ==> t@ == s,
{
    match cesu8::from_java_cesu8(b) {
        Ok(t) => Some(t.into_owned()),
        Err(_) => None,
    }
}

} // verus!
