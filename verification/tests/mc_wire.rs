use mcnbt::error::Error;
use mcnbt::mc::de::Deserializer;
use mcnbt::mc::position::Position;
use mcnbt::mc::ser::Serializer;
use mcnbt::mc::varint::{VarInt, VarLong};

fn ser() -> Serializer {
    Serializer::new(Vec::new())
}

#[test]
fn coder_test_bool() {
    for v in [false, true] {
        let mut s = ser();
        s.serialize_bool(v);
        assert_eq!(s.out, vec![if v { 1u8 } else { 0u8 }]);
        let mut d = Deserializer::new(s.into_bytes());
        assert_eq!(d.deserialize_bool().unwrap(), v);
    }
}

#[test]
fn coder_test_ints() {
    for v in [0i8, 1, -1, i8::MIN, i8::MAX] {
        let mut s = ser();
        s.serialize_i8(v);
        let mut d = Deserializer::new(s.into_bytes());
        assert_eq!(d.deserialize_i8().unwrap(), v);
    }
    for v in [0u8, 1, 255] {
        let mut s = ser();
        s.serialize_u8(v);
        let mut d = Deserializer::new(s.into_bytes());
        assert_eq!(d.deserialize_u8().unwrap(), v);
    }
    for v in [0i16, 1, -1, 12345, i16::MIN, i16::MAX] {
        let mut s = ser();
        s.serialize_i16(v);
        let mut d = Deserializer::new(s.into_bytes());
        assert_eq!(d.deserialize_i16().unwrap(), v);
    }
    for v in [0u16, 1, 0xBEEF, u16::MAX] {
        let mut s = ser();
        s.serialize_u16(v);
        let mut d = Deserializer::new(s.into_bytes());
        assert_eq!(d.deserialize_u16().unwrap(), v);
    }
    for v in [0i32, 1, -1, 0x12345678, i32::MIN, i32::MAX] {
        let mut s = ser();
        s.serialize_i32(v);
        let mut d = Deserializer::new(s.into_bytes());
        assert_eq!(d.deserialize_i32().unwrap(), v);
    }
    for v in [0i64, 1, -1, 0x123456789ABCDEF0, i64::MIN, i64::MAX] {
        let mut s = ser();
        s.serialize_i64(v);
        let mut d = Deserializer::new(s.into_bytes());
        assert_eq!(d.deserialize_i64().unwrap(), v);
    }
    for v in [0u128, 1, u128::MAX, 0x0123456789ABCDEF_0123456789ABCDEFu128] {
        let mut s = ser();
        s.serialize_u128(v);
        let mut d = Deserializer::new(s.into_bytes());
        assert_eq!(d.deserialize_u128().unwrap(), v);
    }
}

#[test]
fn coder_test_floats() {
    for v in [0.0f32, 1.5, -2.75, f32::MIN, f32::MAX, f32::NAN, f32::INFINITY] {
        let mut s = ser();
        s.serialize_f32_bits(v.to_bits());
        let mut d = Deserializer::new(s.into_bytes());
        assert_eq!(d.deserialize_f32_bits().unwrap(), v.to_bits());
    }
    for v in [0.0f64, 2.5, -1.0e300, f64::MIN, f64::MAX, f64::NAN, f64::NEG_INFINITY] {
        let mut s = ser();
        s.serialize_f64_bits(v.to_bits());
        let mut d = Deserializer::new(s.into_bytes());
        assert_eq!(d.deserialize_f64_bits().unwrap(), v.to_bits());
    }
}

#[test]
fn coder_test_varint() {
    for v in [0i32, 1, 2, 127, 128, 255, 300, 25565, -1, -2, i32::MIN, i32::MAX] {
        let mut s = ser();
        VarInt(v).serialize(&mut s);
        let bytes = s.into_bytes();
        assert!(bytes.len() <= 5);
        let mut d = Deserializer::new(bytes);
        assert_eq!(VarInt::deserialize(&mut d).unwrap(), VarInt(v));
        assert_eq!(d.pos, d.input.len());
    }
    for v in [0i64, 1, 127, 128, 300, -1, i64::MIN, i64::MAX] {
        let mut s = ser();
        VarLong(v).serialize(&mut s);
        let bytes = s.into_bytes();
        assert!(bytes.len() <= 10);
        let mut d = Deserializer::new(bytes);
        assert_eq!(VarLong::deserialize(&mut d).unwrap(), VarLong(v));
        assert_eq!(d.pos, d.input.len());
    }
}

#[test]
fn coder_test_string() {
    for v in ["", "A", "hello", "héllo wörld", "\u{10401} music \u{1D11E}", "\0null"] {
        let mut s = ser();
        s.serialize_str(v).unwrap();
        let mut d = Deserializer::new(s.into_bytes());
        assert_eq!(d.deserialize_string().unwrap(), v);
        assert_eq!(d.pos, d.input.len());
    }
}

#[test]
fn mod_test_bool() {
    let mut s = ser();
    s.serialize_bool(true);
    s.serialize_bool(false);
    assert_eq!(s.out, vec![1u8, 0u8]);
    let mut d = Deserializer::new(s.into_bytes());
    assert_eq!(d.deserialize_bool().unwrap(), true);
    assert_eq!(d.deserialize_bool().unwrap(), false);
}

#[test]
fn mod_test_ints() {
    let mut s = ser();
    s.serialize_i8(-5);
    s.serialize_u8(200);
    s.serialize_i16(-30000);
    s.serialize_u16(60000);
    s.serialize_i32(-2_000_000_000);
    s.serialize_i64(-9_000_000_000_000_000_000);
    s.serialize_u32(4_000_000_000);
    s.serialize_u64(18_000_000_000_000_000_000);
    s.serialize_u128(u128::MAX - 1);
    s.serialize_i128(i128::MIN);
    let mut d = Deserializer::new(s.into_bytes());
    assert_eq!(d.deserialize_i8().unwrap(), -5);
    assert_eq!(d.deserialize_u8().unwrap(), 200);
    assert_eq!(d.deserialize_i16().unwrap(), -30000);
    assert_eq!(d.deserialize_u16().unwrap(), 60000);
    assert_eq!(d.deserialize_i32().unwrap(), -2_000_000_000);
    assert_eq!(d.deserialize_i64().unwrap(), -9_000_000_000_000_000_000);
    assert_eq!(d.deserialize_u32().unwrap(), 4_000_000_000);
    assert_eq!(d.deserialize_u64().unwrap(), 18_000_000_000_000_000_000);
    assert_eq!(d.deserialize_u128().unwrap(), u128::MAX - 1);
    assert_eq!(d.deserialize_i128().unwrap(), i128::MIN);
}

#[test]
fn mod_test_floats() {
    let mut s = ser();
    s.serialize_f32_bits(3.25f32.to_bits());
    s.serialize_f64_bits((-0.125f64).to_bits());
    let mut d = Deserializer::new(s.into_bytes());
    assert_eq!(f32::from_bits(d.deserialize_f32_bits().unwrap()), 3.25f32);
    assert_eq!(f64::from_bits(d.deserialize_f64_bits().unwrap()), -0.125f64);
}

#[test]
fn mod_test_varint() {
    let mut s = ser();
    VarInt(25565).serialize(&mut s);
    VarLong(-1).serialize(&mut s);
    let mut d = Deserializer::new(s.into_bytes());
    assert_eq!(VarInt::deserialize(&mut d).unwrap(), VarInt(25565));
    assert_eq!(VarLong::deserialize(&mut d).unwrap(), VarLong(-1));
}

#[test]
fn mod_test_string() {
    let mut s = ser();
    s.serialize_str("minecraft:overworld").unwrap();
    let mut d = Deserializer::new(s.into_bytes());
    assert_eq!(d.deserialize_string().unwrap(), "minecraft:overworld");
}

#[test]
fn varint_zero_is_one_zero_byte() {
    let mut s = ser();
    VarInt(0).serialize(&mut s);
    assert_eq!(s.out, vec![0x00]);
    let mut d = Deserializer::new(vec![0x00]);
    assert_eq!(VarInt::deserialize(&mut d).unwrap(), VarInt(0));
}

#[test]
fn varint_three_hundred() {
    let mut s = ser();
    VarInt(300).serialize(&mut s);
    assert_eq!(s.out, vec![0xAC, 0x02]);
    let mut d = Deserializer::new(vec![0xAC, 0x02]);
    assert_eq!(VarInt::deserialize(&mut d).unwrap(), VarInt(300));
}

#[test]
fn varint_minus_one() {
    let mut s = ser();
    VarInt(-1).serialize(&mut s);
    assert_eq!(s.out, vec![0xFF, 0xFF, 0xFF, 0xFF, 0x0F]);
    let mut d = Deserializer::new(vec![0xFF, 0xFF, 0xFF, 0xFF, 0x0F]);
    assert_eq!(VarInt::deserialize(&mut d).unwrap(), VarInt(-1));
}

#[test]
fn varint_humongous_on_sixth_continuation_byte() {
    let mut d = Deserializer::new(vec![0xFF, 0xFF, 0xFF, 0xFF, 0xFF, 0xFF]);
    assert_eq!(VarInt::deserialize(&mut d), Err(Error::HumongousVarInt));
    // With only five continuation bytes the decoder is still waiting for a
    // sixth byte when the input ends.
    let mut d = Deserializer::new(vec![0xFF, 0xFF, 0xFF, 0xFF, 0xFF]);
    assert_eq!(VarInt::deserialize(&mut d), Err(Error::Io));
    // A VarLong allows ten bytes and fails on the eleventh.
    let mut d = Deserializer::new(vec![0x80; 11]);
    assert_eq!(VarLong::deserialize(&mut d), Err(Error::HumongousVarInt));
}

#[test]
fn mc_string_single_a() {
    let mut s = ser();
    s.serialize_str("A").unwrap();
    assert_eq!(s.out, vec![0x01, 0x00, 0x00, 0x00, 0x41]);
    let mut d = Deserializer::new(vec![0x01, 0x00, 0x00, 0x00, 0x41]);
    assert_eq!(d.deserialize_string().unwrap(), "A");
}

#[test]
fn mc_string_invalid_code_point() {
    // A surrogate value is not a Unicode scalar value.
    let mut d = Deserializer::new(vec![0x01, 0x00, 0x00, 0xD8, 0x00]);
    assert_eq!(d.deserialize_string(), Err(Error::InvalidString));
}

#[test]
fn bool_invalid_value() {
    let mut d = Deserializer::new(vec![0x02]);
    assert_eq!(d.deserialize_bool(), Err(Error::InvalidBooleanValue(2)));
}

#[test]
fn eof_is_io_error() {
    let mut d = Deserializer::new(vec![0x00, 0x01]);
    assert_eq!(d.deserialize_i32(), Err(Error::Io));
    let mut d = Deserializer::new(Vec::new());
    assert_eq!(d.deserialize_bool(), Err(Error::Io));
}

#[test]
fn position_packed_bytes() {
    // (1 << 38) | (2 << 26) | 3 == 0x0000004008000003, big-endian.
    let p = Position { x: 1, y: 2, z: 3 };
    let mut s = ser();
    p.serialize(&mut s);
    assert_eq!(s.out, vec![0x00, 0x00, 0x00, 0x40, 0x08, 0x00, 0x00, 0x03]);
    let mut d = Deserializer::new(vec![0x00, 0x00, 0x00, 0x40, 0x08, 0x00, 0x00, 0x03]);
    assert_eq!(Position::deserialize(&mut d).unwrap(), p);
}

#[test]
fn position_roundtrip() {
    let cases = [
        Position { x: 0, y: 0, z: 0 },
        Position { x: -1, y: -1, z: -1 },
        Position { x: 33554431, y: 2047, z: 33554431 },
        Position { x: -33554432, y: -2048, z: -33554432 },
        Position { x: 12345, y: -67, z: -54321 },
    ];
    for p in cases {
        let mut s = ser();
        p.serialize(&mut s);
        let mut d = Deserializer::new(s.into_bytes());
        assert_eq!(Position::deserialize(&mut d).unwrap(), p);
    }
}
