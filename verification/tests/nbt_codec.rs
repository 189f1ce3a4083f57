use mcnbt::error::Error;
use mcnbt::nbt::de::from_bytes;
use mcnbt::nbt::ser::to_bytes;
use mcnbt::nbt::value::Value;

fn roundtrip(v: Value) -> Value {
    let bytes = to_bytes(&v).unwrap();
    let back = from_bytes(bytes).unwrap();
    assert_eq!(back, v);
    back
}

#[test]
fn test_empty_vec() {
    roundtrip(Value::List(Vec::new()));
}

#[test]
fn test_vec_of_btreemap() {
    let v = Value::List(vec![
        Value::Compound(vec![
            (String::from("a"), Value::Byte(2)),
            (String::from("b"), Value::Byte(2)),
        ]),
        Value::Compound(vec![
            (String::from("d"), Value::Byte(3)),
            (String::from("g"), Value::Byte(7)),
        ]),
    ]);
    roundtrip(v);
}

#[test]
fn test_struct() {
    let item = Value::Compound(vec![
        (String::from("name"), Value::Str(String::from("cake"))),
        (String::from("price"), Value::Double(2.5f64.to_bits())),
    ]);
    roundtrip(item);
}

#[test]
fn cake_document_bytes() {
    let item = Value::Compound(vec![
        (String::from("name"), Value::Str(String::from("cake"))),
        (String::from("price"), Value::Double(2.5f64.to_bits())),
    ]);
    let bytes = to_bytes(&item).unwrap();
    let expected: Vec<u8> = vec![
        0x0A, 0x00, 0x00, // compound tag, empty root name
        0x08, 0x00, 0x04, b'n', b'a', b'm', b'e', // string entry "name"
        0x00, 0x04, b'c', b'a', b'k', b'e', // value "cake"
        0x06, 0x00, 0x05, b'p', b'r', b'i', b'c', b'e', // double entry "price"
        0x40, 0x04, 0x00, 0x00, 0x00, 0x00, 0x00, 0x00, // 2.5 as IEEE-754
        0x00, // end of compound
    ];
    assert_eq!(bytes, expected);
    assert_eq!(from_bytes(expected).unwrap(), item);
}

#[test]
fn empty_list_bytes() {
    let bytes = to_bytes(&Value::List(Vec::new())).unwrap();
    // list tag, empty name, element TypeID 0, i32 size 0
    assert_eq!(bytes, vec![0x09, 0x00, 0x00, 0x00, 0x00, 0x00, 0x00, 0x00]);
    assert_eq!(from_bytes(bytes).unwrap(), Value::List(Vec::new()));
}

#[test]
fn empty_compound_bytes() {
    let bytes = to_bytes(&Value::Compound(Vec::new())).unwrap();
    // compound tag, empty name, end marker
    assert_eq!(bytes, vec![0x0A, 0x00, 0x00, 0x00]);
    assert_eq!(from_bytes(bytes).unwrap(), Value::Compound(Vec::new()));
}

#[test]
fn all_primitive_tags_roundtrip() {
    roundtrip(Value::Byte(-7));
    roundtrip(Value::Short(-12345));
    roundtrip(Value::Int(123456789));
    roundtrip(Value::Long(-9_000_000_000_000_000_000));
    roundtrip(Value::Float(3.5f32.to_bits()));
    roundtrip(Value::Double(f64::NAN.to_bits()));
    roundtrip(Value::Bytes(vec![0, 1, 2, 254, 255]));
    roundtrip(Value::Str(String::from("hello")));
}

#[test]
fn nested_document_roundtrip() {
    let v = Value::Compound(vec![
        (
            String::from("lists"),
            Value::List(vec![
                Value::List(vec![Value::Int(1), Value::Int(2)]),
                Value::List(Vec::new()),
            ]),
        ),
        (String::from("blob"), Value::Bytes(vec![9, 8, 7])),
        (
            String::from("inner"),
            Value::Compound(vec![(String::from("x"), Value::Long(-1))]),
        ),
        (String::from("empty"), Value::Compound(Vec::new())),
    ]);
    roundtrip(v);
}

#[test]
fn nul_string_uses_overlong_pair() {
    let bytes = to_bytes(&Value::Str(String::from("\0"))).unwrap();
    // string tag, empty name, length 2, the Java overlong pair for U+0000
    assert_eq!(bytes, vec![0x08, 0x00, 0x00, 0x00, 0x02, 0xC0, 0x80]);
    assert_eq!(from_bytes(bytes).unwrap(), Value::Str(String::from("\0")));
}

#[test]
fn supplementary_char_uses_surrogate_pair() {
    let bytes = to_bytes(&Value::Str(String::from("\u{10401}"))).unwrap();
    // six bytes: two three-byte surrogate halves, not four-byte UTF-8
    assert_eq!(
        bytes,
        vec![0x08, 0x00, 0x00, 0x00, 0x06, 0xED, 0xA0, 0x81, 0xED, 0xB0, 0x81]
    );
    assert_eq!(
        from_bytes(bytes).unwrap(),
        Value::Str(String::from("\u{10401}"))
    );
}

#[test]
fn heterogeneous_list_is_rejected() {
    let v = Value::List(vec![Value::Byte(1), Value::Short(2)]);
    assert_eq!(to_bytes(&v), Err(Error::Heterogeneous));
}

#[test]
fn oversized_string_is_rejected() {
    let long = "a".repeat(70000);
    assert_eq!(to_bytes(&Value::Str(long)), Err(Error::HumongousString));
}

#[test]
fn unknown_type_id_is_rejected() {
    // root TypeID 11 with an empty name
    let bytes = vec![0x0B, 0x00, 0x00];
    assert_eq!(from_bytes(bytes), Err(Error::InvalidTypeId(11)));
}

#[test]
fn negative_list_size_is_rejected() {
    // list tag, empty name, element TypeID 1, i32 size -1
    let bytes = vec![0x09, 0x00, 0x00, 0x01, 0xFF, 0xFF, 0xFF, 0xFF];
    assert_eq!(from_bytes(bytes), Err(Error::SizeOverflow));
}

#[test]
fn negative_bytearray_size_is_rejected() {
    // byte-array tag, empty name, i32 size -2
    let bytes = vec![0x07, 0x00, 0x00, 0xFF, 0xFF, 0xFF, 0xFE];
    assert_eq!(from_bytes(bytes), Err(Error::SizeOverflow));
}

#[test]
fn truncated_document_is_io_error() {
    assert_eq!(from_bytes(vec![0x0A, 0x00]), Err(Error::Io));
    assert_eq!(from_bytes(Vec::new()), Err(Error::Io));
    // a compound whose entries never terminate
    assert_eq!(
        from_bytes(vec![0x0A, 0x00, 0x00, 0x01, 0x00, 0x01, b'k']),
        Err(Error::Io)
    );
}

#[test]
fn invalid_cesu8_is_invalid_string() {
    // string tag, empty name, length 1, a lone continuation byte
    let bytes = vec![0x08, 0x00, 0x00, 0x00, 0x01, 0x80];
    assert_eq!(from_bytes(bytes), Err(Error::InvalidString));
}

#[test]
fn list_homogeneity_of_encoding() {
    // every element TypeID in the encoding equals the declared one
    let v = Value::List(vec![Value::Int(7), Value::Int(8), Value::Int(9)]);
    let bytes = to_bytes(&v).unwrap();
    assert_eq!(bytes[3], 0x03); // declared element TypeID: TAG_Int
    assert_eq!(&bytes[8..], &[0, 0, 0, 7, 0, 0, 0, 8, 0, 0, 0, 9]);
}

#[test]
fn compound_ends_with_single_end_byte() {
    let v = Value::Compound(vec![(String::from("n"), Value::Byte(1))]);
    let bytes = to_bytes(&v).unwrap();
    assert_eq!(*bytes.last().unwrap(), 0x00);
    // entry bytes, then exactly the terminator
    assert_eq!(bytes, vec![0x0A, 0x00, 0x00, 0x01, 0x00, 0x01, b'n', 0x01, 0x00]);
}

#[test]
fn depth_four_document_roundtrip() {
    let leaf = Value::Compound(vec![
        (String::from("s"), Value::Str(String::from("\u{10401}\0mixed"))),
        (String::from("f"), Value::Float((-0.0f32).to_bits())),
    ]);
    let level3 = Value::List(vec![leaf]);
    let level2 = Value::Compound(vec![
        (String::from("deep"), level3),
        (String::from("b"), Value::Bytes(Vec::new())),
    ]);
    let root = Value::Compound(vec![
        (String::from(""), Value::Short(-1)),
        (String::from("nested"), level2),
        (String::from("longs"), Value::List(vec![Value::Long(i64::MIN), Value::Long(i64::MAX)])),
    ]);
    roundtrip(root);
}
