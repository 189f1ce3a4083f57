//! The MC wire codec: big-endian primitives, VarInt/VarLong, length-prefixed
//! strings of code points, and the bit-packed block Position.

pub mod de;
pub mod position;
pub mod ser;
pub mod varint;
