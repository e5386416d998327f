use dbus::codec::{decode_body, decode_val, encode_body};
use dbus::signature::{validate_signature, validate_single};
use dbus::value::Value;
use dbus::variant::DynamicValue;
use dbus::wire::Endian;
use dbus::Error;

fn sig(text: &str) -> Vec<u8> {
    text.as_bytes().to_vec()
}

fn roundtrip(values: Vec<Value>) -> Vec<Value> {
    let bytes = encode_body(&values).expect("encode");
    let mut s = Vec::new();
    for v in &values {
        s.append(&mut v.signature());
    }
    decode_body(&bytes, &s, Endian::Little).expect("decode")
}

fn scalar_values() -> Vec<Value> {
    vec![
        Value::Byte(0xAB),
        Value::Boolean(true),
        Value::Boolean(false),
        Value::Int16(-2),
        Value::Uint16(65535),
        Value::Int32(-123456),
        Value::Uint32(0xDEADBEEF),
        Value::Int64(-1),
        Value::Uint64(u64::MAX),
        Value::Double(0x400921FB54442D18),
    ]
}

#[test]
fn roundtrip_scalars() {
    let back = roundtrip(scalar_values());
    assert_eq!(back, scalar_values());
}

fn string_values() -> Vec<Value> {
    vec![
        Value::Str(String::from("hello world")),
        Value::ObjectPath(String::from("/org/example/Widget")),
        Value::Signature(sig("a{sv}")),
        Value::Str(String::from("")),
        Value::Str(String::from("n\u{f6}t ascii \u{2713}")),
    ]
}

#[test]
fn roundtrip_strings() {
    let back = roundtrip(string_values());
    assert_eq!(back, string_values());
}

fn nested_values() -> Vec<Value> {
    let dict = Value::Array(
        sig("{sv}"),
        vec![
            Value::DictEntry(
                Box::new(Value::Str(String::from("a"))),
                Box::new(Value::Variant(Box::new(Value::Byte(1)))),
            ),
            Value::DictEntry(
                Box::new(Value::Str(String::from("b"))),
                Box::new(Value::Variant(Box::new(Value::Array(
                    sig("i"),
                    vec![Value::Int32(1), Value::Int32(2)],
                )))),
            ),
        ],
    );
    let st = Value::Struct(vec![
        Value::Byte(7),
        Value::Struct(vec![Value::Str(String::from("x")), Value::Uint64(9)]),
        Value::Array(sig("as"), vec![]),
    ]);
    vec![dict, st, Value::Variant(Box::new(Value::Variant(Box::new(Value::Boolean(true)))))]
}

#[test]
fn roundtrip_nested_containers() {
    let back = roundtrip(nested_values());
    assert_eq!(back, nested_values());
}

#[test]
fn roundtrip_empty_array_keeps_element_type() {
    let back = roundtrip(vec![Value::Array(sig("u"), vec![])]);
    match &back[0] {
        Value::Array(es, items) => {
            assert_eq!(es, &sig("u"));
            assert!(items.is_empty());
        }
        other => panic!("not an array: {:?}", other),
    }
}

#[test]
fn alignment_after_odd_bytes() {
    // Three single-byte values, then a u32: it must start at offset 4,
    // padded with zeros.
    let values = vec![
        Value::Byte(1),
        Value::Byte(2),
        Value::Byte(3),
        Value::Uint32(0x01020304),
    ];
    let bytes = encode_body(&values).expect("encode");
    assert_eq!(bytes.len(), 8);
    assert_eq!(&bytes[0..3], &[1, 2, 3]);
    assert_eq!(bytes[3], 0); // padding
    assert_eq!(&bytes[4..8], &[0x04, 0x03, 0x02, 0x01]); // little-endian
    let back = decode_body(&bytes, &sig("yyyu"), Endian::Little).expect("decode");
    assert_eq!(back[3], Value::Uint32(0x01020304));
}

#[test]
fn alignment_after_one_byte_int16() {
    let values = vec![Value::Byte(9), Value::Int16(-1)];
    let bytes = encode_body(&values).expect("encode");
    assert_eq!(bytes.len(), 4);
    assert_eq!(bytes[1], 0); // padding to the 2-byte boundary
    assert_eq!(&bytes[2..4], &[0xFF, 0xFF]);
}

#[test]
fn variant_box_fidelity() {
    let v = Value::Int32(3);
    let dv = DynamicValue::box_value(v);
    assert_eq!(dv.signature(), &sig("i"));
    let back = dv.unbox_as(&sig("i")).expect("unbox");
    assert_eq!(back, Value::Int32(3));
}

#[test]
fn variant_box_mismatch() {
    let dv = DynamicValue::box_value(Value::Str(String::from("red")));
    match dv.unbox_as(&sig("i")) {
        Err(Error::TypeMismatch) => {}
        other => panic!("expected a type mismatch, got {:?}", other),
    }
}

#[test]
fn mismatched_signature_fails_cleanly() {
    // Bytes produced for signature "u"; decoding as "s" must fail, not
    // return a confused value.
    let bytes = encode_body(&vec![Value::Uint32(7)]).expect("encode");
    assert!(decode_body(&bytes, &sig("s"), Endian::Little).is_err());
    // ... and as "(uu)" must fail too.
    assert!(decode_body(&bytes, &sig("(uu)"), Endian::Little).is_err());
}

#[test]
fn truncated_data_fails() {
    let bytes = encode_body(&vec![Value::Uint64(5)]).expect("encode");
    let short = bytes[..bytes.len() - 1].to_vec();
    assert!(decode_body(&short, &sig("t"), Endian::Little).is_err());
}

#[test]
fn bad_boolean_rejected() {
    let bytes = vec![2, 0, 0, 0];
    assert!(decode_body(&bytes, &sig("b"), Endian::Little).is_err());
}

#[test]
fn oversized_array_length_rejected() {
    // An array whose length prefix exceeds the wire limit.
    let bytes = vec![0xFF, 0xFF, 0xFF, 0x7F];
    match decode_val(&bytes, 0, &sig("ay"), 0, Endian::Little) {
        Err(Error::TooLarge) => {}
        other => panic!("expected the length limit, got {:?}", other),
    }
}

#[test]
fn big_endian_honored() {
    let bytes = vec![0, 0, 0, 5];
    let vals = decode_body(&bytes, &sig("u"), Endian::Big).expect("decode");
    assert_eq!(vals[0], Value::Uint32(5));
    let bytes16 = vec![1, 0];
    let vals16 = decode_body(&bytes16, &sig("n"), Endian::Big).expect("decode");
    assert_eq!(vals16[0], Value::Int16(256));
}

fn extreme_signed_values() -> Vec<Value> {
    vec![Value::Int16(-32768), Value::Int32(i32::MIN), Value::Int64(i64::MIN)]
}

#[test]
fn signed_values_keep_their_sign() {
    let back = roundtrip(extreme_signed_values());
    assert_eq!(back, extreme_signed_values());
}

#[test]
fn signature_validation() {
    assert!(validate_signature(&sig("")));
    assert!(validate_signature(&sig("yyu")));
    assert!(validate_signature(&sig("a{sv}")));
    assert!(validate_signature(&sig("a{oa{sa{sv}}}")));
    assert!(validate_signature(&sig("(iis)a(ss)")));
    assert!(!validate_signature(&sig("a")));
    assert!(!validate_signature(&sig("()")));
    assert!(!validate_signature(&sig("(")));
    assert!(!validate_signature(&sig("a{vs}"))); // container key
    assert!(!validate_signature(&sig("a{s}")));
    assert!(!validate_signature(&sig("z")));
    // nesting depth: 33 arrays exceed the limit
    let mut deep = vec![b'a'; 33];
    deep.push(b'y');
    assert!(!validate_signature(&deep));
    let mut ok_deep = vec![b'a'; 32];
    ok_deep.push(b'y');
    assert!(validate_signature(&ok_deep));
}

#[test]
fn single_signature_validation() {
    assert!(validate_single(&sig("a{sv}")));
    assert!(!validate_single(&sig("ss")));
    assert!(!validate_single(&sig("")));
}

#[test]
fn malformed_value_rejected_before_encoding() {
    // An array whose element does not match its element signature.
    let bad = Value::Array(sig("u"), vec![Value::Byte(1)]);
    match encode_body(&vec![bad]) {
        Err(Error::InvalidSignature) => {}
        other => panic!("expected invalid signature, got {:?}", other),
    }
    // An empty structure is not encodable either.
    match encode_body(&vec![Value::Struct(vec![])]) {
        Err(Error::InvalidSignature) => {}
        other => panic!("expected invalid signature, got {:?}", other),
    }
}
