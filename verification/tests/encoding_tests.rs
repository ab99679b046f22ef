use docdb::document::Document;
use docdb::document::Value;
use docdb::encoding::Cursor;
use docdb::encoding::DecodeError;
use docdb::float::Float;

fn float(x: f64) -> Float {
    Float::from_bits(x.to_bits())
}

#[test]
fn round_trip_scalars() {
    for value in [
        Value::Null,
        Value::Bool(true),
        Value::Int(-42),
        Value::Float(float(3.14159)),
        Value::Str("hello, docdb".to_string()),
    ] {
        let mut buf = Vec::new();
        value.encode(&mut buf);

        let mut cursor = Cursor::new(&buf);
        let decoded = Value::decode(&mut cursor).unwrap();
        assert_eq!(decoded, value);
    }
}

#[test]
fn round_trip_document() {
    let mut inner = Document::new();
    inner.insert("city", "Bengaluru");
    inner.insert("pincode", 560001);

    let mut doc = Document::new();
    doc.insert("name", "Alice");
    doc.insert("age", 30);
    doc.insert("scores", Value::Array(vec![Value::Int(1), Value::Int(2), Value::Int(3)]));
    doc.insert("address", inner);

    let bytes = doc.to_bytes();
    let decoded = Document::from_bytes(&bytes).unwrap();

    assert_eq!(decoded, doc);
}

#[test]
fn truncated_bytes_produce_error_not_panic() {
    let mut doc = Document::new();
    doc.insert("name", "Alice");
    let bytes = doc.to_bytes();

    let truncated = &bytes[..bytes.len() - 2];
    let result = Document::from_bytes(truncated);
    assert!(result.is_err());

    for len in 0..bytes.len() {
        assert_eq!(Document::from_bytes(&bytes[..len]), Err(DecodeError::UnexpectedEof));
    }
}

#[test]
fn invalid_tag_is_rejected() {
    // field count = 1 (u32 LE) | key length = 0 (u32 LE) | tag = 99 (invalid)
    let bytes = [1u8, 0, 0, 0, 0, 0, 0, 0, 99];
    let result = Document::from_bytes(&bytes);
    assert_eq!(result, Err(DecodeError::InvalidTag(99)));
}

#[test]
fn values_have_the_documented_layout() {
    let cases: Vec<(Value, Vec<u8>)> = vec![
        (Value::Null, vec![0]),
        (Value::Bool(true), vec![1, 1]),
        (Value::Bool(false), vec![1, 0]),
        (Value::Int(-2), vec![2, 254, 255, 255, 255, 255, 255, 255, 255]),
        (Value::Int(258), vec![2, 2, 1, 0, 0, 0, 0, 0, 0]),
        (Value::Float(float(1.0)), vec![3, 0, 0, 0, 0, 0, 0, 0xF0, 0x3F]),
        (Value::Str("é".to_string()), vec![4, 2, 0, 0, 0, 0xC3, 0xA9]),
        (Value::Array(vec![Value::Null, Value::Bool(true)]), vec![5, 2, 0, 0, 0, 0, 1, 1]),
        (
            Value::Document({
                let mut doc = Document::new();
                doc.insert("a", Value::Null);
                doc
            }),
            vec![6, 1, 0, 0, 0, 1, 0, 0, 0, b'a', 0],
        ),
    ];
    for (value, expected) in cases {
        let mut buf = vec![77];
        value.encode(&mut buf);
        assert_eq!(&buf[1..], &expected[..]);
        assert_eq!(Value::decode(&mut Cursor::new(&expected)).unwrap(), value);
    }
}

#[test]
fn integers_of_all_sizes_round_trip() {
    for n in [0, 1, -1, i64::MAX, i64::MIN, 1 << 40, -(1 << 40)] {
        let mut buf = Vec::new();
        Value::Int(n).encode(&mut buf);
        assert_eq!(&buf[1..], &n.to_le_bytes());
        assert_eq!(Value::decode(&mut Cursor::new(&buf)), Ok(Value::Int(n)));
    }
}

#[test]
fn invalid_utf8_is_rejected() {
    let bytes = [4, 2, 0, 0, 0, 0xC3, 0x28];
    assert_eq!(Value::decode(&mut Cursor::new(&bytes)), Err(DecodeError::InvalidUtf8));
    let text = [4, 3, 0, 0, 0, 0xE2, 0x82, 0xAC];
    assert_eq!(Value::decode(&mut Cursor::new(&text)), Ok(Value::Str("€".to_string())));
}

#[test]
fn a_huge_count_is_an_error() {
    let bytes = [0xFF, 0xFF, 0xFF, 0xFF, 0, 0, 0, 0];
    assert_eq!(Document::from_bytes(&bytes), Err(DecodeError::UnexpectedEof));
}

#[test]
fn a_repeated_name_keeps_the_last_value() {
    let mut bytes = vec![2, 0, 0, 0];
    for value in [1u8, 0] {
        bytes.extend_from_slice(&[1, 0, 0, 0, b'k', 1, value]);
    }
    let doc = Document::from_bytes(&bytes).unwrap();
    assert_eq!(doc.len(), 1);
    assert_eq!(doc.get("k"), Some(&Value::Bool(false)));
}

#[test]
fn a_cursor_reads_one_thing_after_the_other() {
    let bytes = [7, 1, 0, 0, 0, 254, 255, 255, 255, 255, 255, 255, 255, 1, 0, 0, 0, b'x'];
    let mut cursor = Cursor::new(&bytes);
    assert_eq!(cursor.read_u8(), Ok(7));
    assert_eq!(cursor.read_u32(), Ok(1));
    assert_eq!(cursor.read_i64(), Ok(-2));
    assert_eq!(cursor.read_string(), Ok("x".to_string()));
    assert_eq!(cursor.read_u8(), Err(DecodeError::UnexpectedEof));
    assert_eq!(cursor.read_u32(), Err(DecodeError::UnexpectedEof));
    let half = 0.5f64.to_le_bytes();
    assert_eq!(Cursor::new(&half).read_float().map(|f| f.to_bits()), Ok(0.5f64.to_bits()));
}

#[test]
fn decode_errors_in_words() {
    assert_eq!(DecodeError::UnexpectedEof.message(), "unexpected end of input");
    assert_eq!(DecodeError::InvalidTag(7).message(), "invalid value tag: 7");
    assert_eq!(DecodeError::InvalidTag(255).message(), "invalid value tag: 255");
    assert_eq!(DecodeError::InvalidUtf8.message(), "invalid utf-8 in string");
}

#[test]
fn a_cursor_stays_where_it_is_after_an_error() {
    let short = [1u8, 2, 3];
    let mut cursor = Cursor::new(&short);
    assert_eq!(cursor.read_u32(), Err(DecodeError::UnexpectedEof));
    assert_eq!(cursor.read_u8(), Ok(1));
    assert_eq!(cursor.read_i64(), Err(DecodeError::UnexpectedEof));
    assert_eq!(cursor.read_u8(), Ok(2));

    // The length of a text is read, its bytes are not there.
    let cut = [9u8, 0, 0, 0, 65];
    let mut cursor = Cursor::new(&cut);
    assert_eq!(cursor.read_string(), Err(DecodeError::UnexpectedEof));
    assert_eq!(cursor.read_u8(), Ok(65));

    // The bytes of a text are read, they are no text.
    let no_text = [1u8, 0, 0, 0, 255, 66];
    let mut cursor = Cursor::new(&no_text);
    assert_eq!(cursor.read_string(), Err(DecodeError::InvalidUtf8));
    assert_eq!(cursor.read_u8(), Ok(66));
}
