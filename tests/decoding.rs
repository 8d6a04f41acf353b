use ttswd::decoder::{decode_contents, known_tag, sub_length_matches, Decoder, FieldValue};
use ttswd::model::{DecodeError, MAX_DEPTH};

fn field(tag: u8, name: &str, payload: &[u8]) -> Vec<u8> {
    let mut out = vec![tag];
    out.extend_from_slice(name.as_bytes());
    out.push(0);
    out.extend_from_slice(payload);
    out
}

fn sized(bytes: &[u8]) -> Vec<u8> {
    let mut out = ((bytes.len() + 1) as u32).to_le_bytes().to_vec();
    out.extend_from_slice(bytes);
    out.push(0);
    out
}

fn compound(fields: &[Vec<u8>]) -> Vec<u8> {
    let body: Vec<u8> = fields.concat();
    let mut out = ((body.len() + 5) as u32).to_le_bytes().to_vec();
    out.extend_from_slice(&body);
    out.push(0);
    out
}

fn document(fields: &[Vec<u8>]) -> Vec<u8> {
    compound(fields)
}

fn object(entries: Vec<(&str, FieldValue)>) -> FieldValue {
    FieldValue::Object(entries.into_iter().map(|(k, v)| (k.to_string(), v)).collect())
}

#[test]
fn double_field_decodes() {
    let buf = document(&[field(0x01, "x", &3.14f64.to_le_bytes())]);
    let doc = decode_contents(&buf).unwrap();
    assert_eq!(doc, object(vec![("x", FieldValue::Double(3.14f64.to_bits()))]));
    if let FieldValue::Object(entries) = doc {
        if let FieldValue::Double(bits) = entries[0].1 {
            assert_eq!(f64::from_bits(bits), 3.14);
        } else {
            panic!("not a double");
        }
    }
}

#[test]
fn bool_field_true_and_false() {
    let yes = document(&[field(0x08, "ok", &[0x01])]);
    assert_eq!(decode_contents(&yes).unwrap(), object(vec![("ok", FieldValue::Bool(true))]));
    let no = document(&[field(0x08, "ok", &[0x00])]);
    assert_eq!(decode_contents(&no).unwrap(), object(vec![("ok", FieldValue::Bool(false))]));
    let other = document(&[field(0x08, "ok", &[0x07])]);
    assert_eq!(decode_contents(&other).unwrap(), object(vec![("ok", FieldValue::Bool(false))]));
}

#[test]
fn short_declared_length_is_bounds_error() {
    let mut buf = document(&[field(0x10, "n", &7i32.to_le_bytes())]);
    let short = (buf.len() as u32 - 4).to_le_bytes();
    buf[..4].copy_from_slice(&short);
    assert_eq!(decode_contents(&buf), Err(DecodeError::Bounds));
}

#[test]
fn every_kind_round_trips() {
    let inner = compound(&[field(0x10, "a", &5i32.to_le_bytes()), field(0x0A, "b", &[])]);
    let list = compound(&[field(0x02, "0", &sized(b"one")), field(0x02, "1", &sized(b"two"))]);
    let buf = document(&[
        field(0x01, "d", &(-2.5f64).to_le_bytes()),
        field(0x02, "s", &sized("héllo".as_bytes())),
        field(0x03, "o", &inner),
        field(0x04, "a", &list),
        field(0x05, "b", &sized(b"hello")),
        field(0x08, "t", &[1]),
        field(0x0A, "n", &[]),
        field(0x10, "i", &(-7i32).to_le_bytes()),
        field(0x12, "l", &(-9_000_000_000i64).to_le_bytes()),
    ]);
    let expected = object(vec![
        ("d", FieldValue::Double((-2.5f64).to_bits())),
        ("s", FieldValue::String("héllo".to_string())),
        ("o", object(vec![("a", FieldValue::Int(5)), ("b", FieldValue::Null)])),
        (
            "a",
            FieldValue::Array(vec![
                FieldValue::String("one".to_string()),
                FieldValue::String("two".to_string()),
            ]),
        ),
        ("b", FieldValue::Binary("aGVsbG8=".to_string())),
        ("t", FieldValue::Bool(true)),
        ("n", FieldValue::Null),
        ("i", FieldValue::Int(-7)),
        ("l", FieldValue::Int64(-9_000_000_000)),
    ]);
    assert_eq!(decode_contents(&buf).unwrap(), expected);
}

#[test]
fn exact_length_without_terminator_completes() {
    let body = field(0x10, "n", &1i32.to_le_bytes());
    let mut buf = ((body.len() + 4) as u32).to_le_bytes().to_vec();
    buf.extend_from_slice(&body);
    assert_eq!(decode_contents(&buf).unwrap(), object(vec![("n", FieldValue::Int(1))]));
}

#[test]
fn empty_document_decodes_to_empty_object() {
    assert_eq!(decode_contents(&document(&[])).unwrap(), FieldValue::Object(vec![]));
    assert_eq!(decode_contents(&vec![4, 0, 0, 0]).unwrap(), FieldValue::Object(vec![]));
}

#[test]
fn string_drops_sentinel_byte() {
    let buf = document(&[field(0x02, "s", &[4, 0, 0, 0, b'a', b'b', b'c', b'!'])]);
    assert_eq!(decode_contents(&buf).unwrap(), object(vec![("s", FieldValue::String("abc".to_string()))]));
}

#[test]
fn binary_is_base64_of_bytes_before_sentinel() {
    let buf = document(&[field(0x05, "b", &[4, 0, 0, 0, 0xff, 0x00, 0x10, 0x00])]);
    assert_eq!(decode_contents(&buf).unwrap(), object(vec![("b", FieldValue::Binary("/wAQ".to_string()))]));
    let one = document(&[field(0x05, "b", &[1, 0, 0, 0, 0x00])]);
    assert_eq!(decode_contents(&one).unwrap(), object(vec![("b", FieldValue::Binary(String::new()))]));
}

#[test]
fn array_keeps_wire_order_and_drops_names() {
    let list = compound(&[
        field(0x10, "9", &3i32.to_le_bytes()),
        field(0x10, "zz", &1i32.to_le_bytes()),
        field(0x10, "0", &2i32.to_le_bytes()),
    ]);
    let buf = document(&[field(0x04, "a", &list)]);
    assert_eq!(
        decode_contents(&buf).unwrap(),
        object(vec![("a", FieldValue::Array(vec![FieldValue::Int(3), FieldValue::Int(1), FieldValue::Int(2)]))])
    );
}

#[test]
fn empty_object_decodes_to_empty_mapping() {
    let buf = document(&[field(0x03, "o", &[5, 0, 0, 0, 0])]);
    assert_eq!(decode_contents(&buf).unwrap(), object(vec![("o", FieldValue::Object(vec![]))]));
}

#[test]
fn object_keeps_decode_order() {
    let inner = compound(&[field(0x08, "z", &[1]), field(0x08, "a", &[0])]);
    let buf = document(&[field(0x03, "o", &inner)]);
    assert_eq!(
        decode_contents(&buf).unwrap(),
        object(vec![("o", object(vec![("z", FieldValue::Bool(true)), ("a", FieldValue::Bool(false))]))])
    );
}

#[test]
fn truncated_buffer_is_bounds_error() {
    let buf = document(&[field(0x12, "l", &5i64.to_le_bytes())]);
    for cut in 0..buf.len() - 1 {
        let mut part = buf[..cut].to_vec();
        if cut >= 4 {
            part[..4].copy_from_slice(&(buf.len() as u32).to_le_bytes());
        }
        assert_eq!(decode_contents(&part), Err(DecodeError::Bounds), "cut at {}", cut);
    }
}

#[test]
fn read_bytes_past_end_fails() {
    let data = vec![1u8, 2, 3];
    let mut d = Decoder::new(&data);
    assert_eq!(d.read_bytes(2), Ok(&[1u8, 2][..]));
    assert_eq!(d.read_bytes(2), Err(DecodeError::Bounds));
    assert_eq!(d.cursor, 2);
    assert_eq!(d.read_u8(), Ok(3));
    assert_eq!(d.read_u8(), Err(DecodeError::Bounds));
}

#[test]
fn fixed_width_readers_are_little_endian() {
    let mut data = 0x0102_0304u32.to_le_bytes().to_vec();
    data.extend_from_slice(&(-2i32).to_le_bytes());
    data.extend_from_slice(&(-3i64).to_le_bytes());
    data.extend_from_slice(&1.5f64.to_le_bytes());
    data.push(1);
    let mut d = Decoder::new(&data);
    assert_eq!(d.read_u32(), Ok(0x0102_0304));
    assert_eq!(d.read_i32(), Ok(-2));
    assert_eq!(d.read_i64(), Ok(-3));
    assert_eq!(d.read_double(), Ok(1.5f64.to_bits()));
    assert_eq!(d.read_bool(), Ok(true));
    assert_eq!(d.read_i32(), Err(DecodeError::Bounds));
}

#[test]
fn names_and_strings_read() {
    let mut data = b"name\0".to_vec();
    data.extend_from_slice(&sized(b"text"));
    data.extend_from_slice(b"open");
    let mut d = Decoder::new(&data);
    assert_eq!(d.read_string_uknl(), Ok("name".to_string()));
    assert_eq!(d.read_string(), Ok("text".to_string()));
    assert_eq!(d.read_string_uknl(), Err(DecodeError::Bounds));
}

#[test]
fn invalid_utf8_is_encoding_error() {
    let buf = document(&[field(0x02, "s", &[3, 0, 0, 0, 0xff, 0xfe, 0])]);
    assert_eq!(decode_contents(&buf), Err(DecodeError::Encoding));
}

#[test]
fn zero_length_payload_is_length_underflow() {
    let buf = document(&[field(0x02, "s", &[0, 0, 0, 0])]);
    assert_eq!(decode_contents(&buf), Err(DecodeError::LengthUnderflow));
    let bin = document(&[field(0x05, "b", &[0, 0, 0, 0])]);
    assert_eq!(decode_contents(&bin), Err(DecodeError::LengthUnderflow));
}

#[test]
fn unknown_tag_inside_compound_is_error() {
    let inner = compound(&[field(0x07, "x", &[])]);
    let buf = document(&[field(0x03, "o", &inner)]);
    assert_eq!(decode_contents(&buf), Err(DecodeError::UnknownField));
}

#[test]
fn unknown_tag_before_declared_end_is_error() {
    let buf = document(&[field(0x07, "x", &[]), field(0x08, "ok", &[1])]);
    assert_eq!(decode_contents(&buf), Err(DecodeError::UnknownField));
    assert_eq!(decode_contents(&document(&[vec![0]])), Err(DecodeError::UnknownField));
}

#[test]
fn nesting_beyond_limit_is_depth_error() {
    let mut value = compound(&[]);
    for _ in 0..MAX_DEPTH {
        value = compound(&[field(0x03, "o", &value)]);
    }
    let buf = document(&[field(0x03, "o", &value)]);
    assert_eq!(decode_contents(&buf), Err(DecodeError::DepthExceeded));
    let mut ok = compound(&[]);
    for _ in 0..MAX_DEPTH - 1 {
        ok = compound(&[field(0x03, "o", &ok)]);
    }
    assert!(decode_contents(&document(&[field(0x03, "o", &ok)])).is_ok());
}

#[test]
fn nested_readers_follow_depth() {
    let data = vec![5, 0, 0, 0, 0];
    let mut d = Decoder::new(&data);
    assert_eq!(d.read_object(0), Err(DecodeError::DepthExceeded));
    assert_eq!(d.read_object(1), Ok(vec![]));
    let mut a = Decoder::new(&data);
    assert_eq!(a.read_array(1), Ok(vec![]));
    let mut v = Decoder::new(&data);
    assert_eq!(v.get_value_from(0x0A, 1), Ok(FieldValue::Null));
    assert_eq!(v.get_value_from(0x42, 1), Ok(FieldValue::Unknown));
    assert_eq!(v.cursor, 0);
}

#[test]
fn known_tags() {
    for tag in [0x01u8, 0x02, 0x03, 0x04, 0x05, 0x08, 0x0A, 0x10, 0x12] {
        assert!(known_tag(tag));
    }
    for tag in [0x00u8, 0x06, 0x07, 0x09, 0x11, 0xff] {
        assert!(!known_tag(tag));
    }
}

#[test]
fn sub_length_agreement_is_reported() {
    let inner = compound(&[field(0x10, "a", &5i32.to_le_bytes())]);
    let mut data = vec![0xEE];
    data.extend_from_slice(&inner);
    assert_eq!(sub_length_matches(&data, 1, false), Ok(true));
    assert_eq!(sub_length_matches(&data, 1, true), Ok(true));
    data[1] += 1;
    assert_eq!(sub_length_matches(&data, 1, false), Ok(false));
    let bad = compound(&[field(0x07, "x", &[])]);
    assert_eq!(sub_length_matches(&bad, 0, false), Err(DecodeError::UnknownField));
    assert_eq!(sub_length_matches(&data, 99, false), Err(DecodeError::Bounds));
}
