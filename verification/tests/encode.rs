use bytes::BytesMut;
use dbus_message_parser::encode::{EncodeError, Encoder};
use dbus_message_parser::signature::{Signature, SignatureError};
use dbus_message_parser::value::Value;
use std::convert::TryFrom;

fn encoder() -> Encoder {
    Encoder::new(BytesMut::new(), Vec::new())
}

fn bytes_of(e: Encoder) -> (Vec<u8>, Vec<i32>) {
    let (buf, fds) = e.into_parts();
    (buf.to_vec(), fds)
}

#[test]
fn basic_values_are_aligned() {
    let mut e = encoder();
    e.value(&Value::Byte(5), true).unwrap();
    e.value(&Value::Uint32(1), true).unwrap();
    e.value(&Value::Int16(-2), false).unwrap();
    e.value(&Value::Uint64(0x0102030405060708), false).unwrap();
    let (b, _) = bytes_of(e);
    assert_eq!(
        b,
        vec![5, 0, 0, 0, 1, 0, 0, 0, 0xff, 0xfe, 0, 0, 0, 0, 0, 0, 1, 2, 3, 4, 5, 6, 7, 8]
    );
}

#[test]
fn boolean_and_double() {
    let mut e = encoder();
    e.value(&Value::Boolean(true), true).unwrap();
    e.value(&Value::Double(1.5f64.to_bits()), true).unwrap();
    let (b, _) = bytes_of(e);
    let mut expected = vec![1, 0, 0, 0, 0, 0, 0, 0];
    expected.extend_from_slice(&1.5f64.to_le_bytes());
    assert_eq!(b, expected);
}

#[test]
fn strings_and_signatures() {
    let mut e = encoder();
    e.value(&Value::String("ab".to_string()), true).unwrap();
    e.value(&Value::Signature(Signature::try_from("ai").unwrap()), true).unwrap();
    e.value(&Value::ObjectPath("/".to_string()), false).unwrap();
    let (b, _) = bytes_of(e);
    assert_eq!(
        b,
        vec![2, 0, 0, 0, b'a', b'b', 0, 2, b'a', b'i', 0, 0, 0, 0, 0, 1, b'/', 0]
    );
}

#[test]
fn unix_fds_are_collected_by_index() {
    let mut e = Encoder::new(BytesMut::new(), vec![10]);
    e.value(&Value::UnixFD(42), true).unwrap();
    let (b, fds) = bytes_of(e);
    assert_eq!(b, vec![1, 0, 0, 0]);
    assert_eq!(fds, vec![10, 42]);
}

#[test]
fn array_of_integers() {
    let mut e = encoder();
    let elements = vec![Value::Uint32(1), Value::Uint32(2)];
    e.array(&elements, "u", true).unwrap();
    let (b, _) = bytes_of(e);
    assert_eq!(b, vec![8, 0, 0, 0, 1, 0, 0, 0, 2, 0, 0, 0]);
}

#[test]
fn array_of_structs_is_padded_to_eight() {
    let mut e = encoder();
    let elements = vec![
        Value::Struct(vec![Value::Int32(1)]),
        Value::Struct(vec![Value::Int32(2)]),
    ];
    e.array(&elements, "(i)", true).unwrap();
    let (b, _) = bytes_of(e);
    assert_eq!(
        b,
        vec![12, 0, 0, 0, 0, 0, 0, 0, 1, 0, 0, 0, 0, 0, 0, 0, 2, 0, 0, 0]
    );
}

#[test]
fn array_value_uses_its_element_signature() {
    let mut e = encoder();
    e.value(&Value::Byte(9), true).unwrap();
    let v = Value::Array(vec![Value::Uint16(3)], "q".to_string());
    e.value(&v, false).unwrap();
    let (b, _) = bytes_of(e);
    assert_eq!(b, vec![9, 0, 0, 0, 0, 0, 0, 2, 0, 3]);
}

#[test]
fn array_signature_mismatch() {
    let mut e = encoder();
    let elements = vec![Value::Byte(1), Value::Uint32(2)];
    assert_eq!(
        e.array(&elements, "y", true),
        Err(EncodeError::ArraySignatureMismatch("y".to_string(), "u".to_string()))
    );
    let (b, _) = bytes_of(e);
    assert_eq!(b, Vec::<u8>::new());
}

#[test]
fn array_null_signature() {
    let mut e = encoder();
    assert_eq!(e.array(&Vec::new(), "", true), Err(EncodeError::NullSignature));
    let (b, _) = bytes_of(e);
    assert_eq!(b, vec![0, 0, 0, 0]);
}

#[test]
fn array_unknown_signature() {
    let mut e = encoder();
    assert_eq!(
        e.array(&Vec::new(), "z", true),
        Err(EncodeError::UnknownSignature("z".to_string()))
    );
    let (b, _) = bytes_of(e);
    assert_eq!(b, vec![0, 0, 0, 0]);
}

#[test]
fn dict_entry_value() {
    let mut e = encoder();
    e.value(&Value::Byte(1), true).unwrap();
    let entry = Value::DictEntry(Box::new((Value::String("k".to_string()), Value::Byte(7))));
    e.value(&entry, true).unwrap();
    let (b, _) = bytes_of(e);
    assert_eq!(b, vec![1, 0, 0, 0, 0, 0, 0, 0, 1, 0, 0, 0, b'k', 0, 7]);
}

#[test]
fn dict_entry_direct() {
    let mut e = encoder();
    e.dict_entry(&(Value::Byte(1), Value::Byte(2)), true).unwrap();
    let (b, _) = bytes_of(e);
    assert_eq!(b, vec![1, 2]);
}

#[test]
fn encode_struct_direct() {
    let mut e = encoder();
    e.encode_struct(&[Value::Byte(1), Value::Uint16(2)], false).unwrap();
    let (b, _) = bytes_of(e);
    assert_eq!(b, vec![1, 0, 0, 2]);
}

#[test]
fn variant_writes_signature_then_values() {
    let mut e = encoder();
    e.variant(&[Value::Uint32(7)], true).unwrap();
    let (b, _) = bytes_of(e);
    assert_eq!(b, vec![1, b'u', 0, 0, 7, 0, 0, 0]);
}

#[test]
fn variant_signature_too_big() {
    let mut e = encoder();
    let values: Vec<Value> = (0..256).map(|_| Value::Byte(0)).collect();
    assert_eq!(e.variant(&values, true), Err(EncodeError::SignatureTooBig(256)));
    let (b, _) = bytes_of(e);
    assert_eq!(b, Vec::<u8>::new());
}

#[test]
fn error_inside_struct_keeps_what_was_written() {
    let mut e = encoder();
    let v = Value::Struct(vec![Value::Byte(1), Value::Array(Vec::new(), String::new())]);
    assert_eq!(e.value(&v, true), Err(EncodeError::NullSignature));
    let (b, _) = bytes_of(e);
    assert_eq!(b, vec![1, 0, 0, 0, 0, 0, 0, 0]);
}

#[test]
fn signature_of_values() {
    let values = vec![
        Value::Byte(1),
        Value::Array(Vec::new(), "s".to_string()),
        Value::Struct(vec![Value::Int64(1), Value::Variant(vec![Value::Byte(1)])]),
        Value::DictEntry(Box::new((Value::String(String::new()), Value::UnixFD(0)))),
    ];
    let sig = Signature::new(&values).unwrap();
    assert_eq!(sig.as_str(), "yas(xv){sh}");
}

#[test]
fn signature_of_values_invalid() {
    let values = vec![Value::Array(Vec::new(), String::new())];
    assert_eq!(Signature::new(&values), Err(SignatureError::TooShort(1, 1)));
}

#[test]
fn array_of_unix_fds_is_aligned_to_four() {
    let mut e = Encoder::new(BytesMut::new(), vec![3]);
    e.value(&Value::Byte(1), true).unwrap();
    let elements = vec![Value::UnixFD(7), Value::UnixFD(8)];
    e.array(&elements, "h", true).unwrap();
    let (b, fds) = bytes_of(e);
    assert_eq!(b, vec![1, 0, 0, 0, 8, 0, 0, 0, 1, 0, 0, 0, 2, 0, 0, 0]);
    assert_eq!(fds, vec![3, 7, 8]);
}
