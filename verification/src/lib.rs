//! Binary codecs for a Minecraft-compatible server stack: the MC wire codec
//! for the protocol's primitive types (fixed-width big-endian integers,
//! booleans, VarInt/VarLong, strings, bit-packed positions) and the NBT codec
//! for the hierarchical "Named Binary Tag" document format.

pub mod bytes;
pub mod error;
pub mod mc;
pub mod nbt;
