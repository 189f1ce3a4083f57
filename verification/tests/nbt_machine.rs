use mcnbt::error::Error;
use mcnbt::nbt::de::Deserializer;
use mcnbt::nbt::ser::Serializer;
use mcnbt::nbt::value::Value;

#[test]
fn machine_compound_by_hand() {
    let mut s = Serializer::new(Vec::new());
    s.serialize_map().unwrap();
    s.serialize_str("k").unwrap(); // captured as the entry key
    s.serialize_i8(5).unwrap();
    s.end_map().unwrap();
    assert_eq!(
        s.into_bytes(),
        vec![0x0A, 0x00, 0x00, 0x01, 0x00, 0x01, b'k', 0x05, 0x00]
    );
}

#[test]
fn machine_list_declares_type_on_first_element() {
    let mut s = Serializer::new(Vec::new());
    s.serialize_tuple(2).unwrap();
    s.serialize_i16(1).unwrap(); // emits element TypeID and size first
    s.serialize_i16(2).unwrap(); // payload only
    s.end_seq().unwrap();
    assert_eq!(
        s.into_bytes(),
        vec![0x09, 0x00, 0x00, 0x02, 0x00, 0x00, 0x00, 0x02, 0x00, 0x01, 0x00, 0x02]
    );
}

#[test]
fn machine_empty_list_implies_end_type() {
    let mut s = Serializer::new(Vec::new());
    s.serialize_tuple(0).unwrap();
    s.end_seq().unwrap();
    assert_eq!(
        s.into_bytes(),
        vec![0x09, 0x00, 0x00, 0x00, 0x00, 0x00, 0x00, 0x00]
    );
}

#[test]
fn machine_rejects_heterogeneous_element() {
    let mut s = Serializer::new(Vec::new());
    s.serialize_tuple(2).unwrap();
    s.serialize_i8(1).unwrap();
    assert_eq!(s.serialize_i16(2), Err(Error::Heterogeneous));
}

#[test]
fn machine_type_id_and_name_at_root() {
    let mut s = Serializer::new(Vec::new());
    s.serialize_type_id(1).unwrap();
    s.serialize_name().unwrap(); // the root name defaults to empty
    s.serialize_i8_payload(-3);
    assert_eq!(s.into_bytes(), vec![0x01, 0x00, 0x00, 0xFD]);
}

#[test]
fn machine_bytearray_payload() {
    let mut s = Serializer::new(Vec::new());
    s.serialize_bytearray_payload(&[0x0A, 0x0B]).unwrap();
    assert_eq!(s.into_bytes(), vec![0x00, 0x00, 0x00, 0x02, 0x0A, 0x0B]);
}

#[test]
fn machine_unsupported_kinds() {
    let mut s = Serializer::new(Vec::new());
    assert!(matches!(s.serialize_bool(true), Err(Error::Custom(_))));
    assert!(matches!(s.serialize_u32(1), Err(Error::Custom(_))));
    assert!(matches!(s.serialize_unit(), Err(Error::Custom(_))));
    assert!(s.into_bytes().is_empty());
}

#[test]
fn machine_parse_payload_directly() {
    let mut d = Deserializer::new(vec![0x00, 0x00, 0x00, 0x2A]);
    assert_eq!(d.parse_tag_payload(3).unwrap(), Value::Int(42));
    assert_eq!(d.pos, 4);
}

#[test]
fn machine_parse_type_id_directly() {
    let mut d = Deserializer::new(vec![0x0A]);
    assert_eq!(d.parse_type_id().unwrap(), 0x0A);
    assert_eq!(d.parse_type_id(), Err(Error::Io));
}

#[test]
fn machine_parse_string_directly() {
    let mut d = Deserializer::new(vec![0x00, 0x02, b'h', b'i']);
    assert_eq!(d.parse_string().unwrap(), "hi");
}
