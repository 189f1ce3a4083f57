//! The NBT codec: the Named Binary Tag document format, driven through a
//! serializer and a deserializer state machine over a uniform value model.

pub mod cesu;
pub mod de;
pub mod ser;
pub mod value;
