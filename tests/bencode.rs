use magnet_dht::bencode::{parse, BencodeDict, BencodeParser, BencodeParserError, BencodeValue, Value};

fn bytes(s: &str) -> BencodeValue {
    BencodeValue::Bytes(s.as_bytes().to_vec())
}

#[test]
fn serializes_and_deserializes_list() {
    let list = BencodeValue::List(Vec::from([
        BencodeValue::Integer(15),
        BencodeValue::Bytes("hello world".as_bytes().to_vec()),
    ]));

    let serialized = list.serialize();

    let parsed = BencodeParser::new(&serialized).parse_value().unwrap();

    assert_eq!(list, parsed);
}

#[test]
fn serializes_and_deserializes_complex_nested_values() {
    let mut nested = BencodeDict::new();
    nested.insert("nested_num".as_bytes().to_vec(), BencodeValue::Integer(11111));

    let mut dict = BencodeDict::new();
    dict.insert("dict".as_bytes().to_vec(), BencodeValue::Dict(nested));
    dict.insert("num".as_bytes().to_vec(), BencodeValue::Integer(55));
    dict.insert("bytes".as_bytes().to_vec(), BencodeValue::Bytes("bytes".as_bytes().to_vec()));

    let list = BencodeValue::List(Vec::from([
        BencodeValue::Integer(15),
        BencodeValue::Bytes("hello world".as_bytes().to_vec()),
        BencodeValue::Dict(dict),
    ]));

    let serialized = list.serialize();
    println!("Serialized {:?}", std::str::from_utf8(&serialized));

    let parsed = BencodeParser::new(&serialized).parse_value().unwrap();

    assert_eq!(list, parsed);
}

#[test]
fn parses_integers() {
    assert_eq!(parse(b"i42e").unwrap(), BencodeValue::Integer(42));
    assert_eq!(parse(b"i-7e").unwrap(), BencodeValue::Integer(-7));
    assert_eq!(parse(b"i0e").unwrap(), BencodeValue::Integer(0));
    assert_eq!(parse(b"i-0e"), Err(BencodeParserError::BadInteger { pos: 0 }));
}

#[test]
fn rejects_malformed_integers() {
    assert_eq!(parse(b"i03e"), Err(BencodeParserError::BadInteger { pos: 0 }));
    assert_eq!(parse(b"ie"), Err(BencodeParserError::BadInteger { pos: 0 }));
    assert_eq!(parse(b"i4x2e"), Err(BencodeParserError::BadInteger { pos: 0 }));
    assert_eq!(parse(b"i42"), Err(BencodeParserError::Truncated { pos: 3 }));
    assert_eq!(parse(b"i9223372036854775808e"), Err(BencodeParserError::BadInteger { pos: 0 }));
}

#[test]
fn parses_integer_limits() {
    assert_eq!(parse(b"i9223372036854775807e").unwrap(), BencodeValue::Integer(i64::MAX));
    assert_eq!(parse(b"i-9223372036854775808e").unwrap(), BencodeValue::Integer(i64::MIN));
    assert_eq!(BencodeValue::Integer(i64::MIN).serialize(), b"i-9223372036854775808e".to_vec());
}

#[test]
fn parses_byte_strings() {
    assert_eq!(parse(b"4:spam").unwrap(), bytes("spam"));
    assert_eq!(parse(b"0:").unwrap(), bytes(""));
    assert_eq!(parse(b"5:spam"), Err(BencodeParserError::Truncated { pos: 6 }));
}

#[test]
fn rejects_bad_lengths() {
    assert_eq!(parse(b"4spam"), Err(BencodeParserError::BadLength { pos: 0 }));
    assert_eq!(
        parse(b"99999999999999999999999:x"),
        Err(BencodeParserError::BadLength { pos: 0 })
    );
}

#[test]
fn reports_unexpected_bytes() {
    assert_eq!(parse(b"x"), Err(BencodeParserError::UnexpectedByte { pos: 0, byte: b'x' }));
    assert_eq!(parse(b"i1ei2e"), Err(BencodeParserError::UnexpectedByte { pos: 3, byte: b'i' }));
    assert_eq!(parse(b"di1ei2ee"), Err(BencodeParserError::UnexpectedByte { pos: 1, byte: b'i' }));
    assert_eq!(parse(b""), Err(BencodeParserError::Truncated { pos: 0 }));
    assert_eq!(parse(b"l"), Err(BencodeParserError::Truncated { pos: 1 }));
}

#[test]
fn rejects_duplicate_keys() {
    assert_eq!(parse(b"d1:ai1e1:ai2ee"), Err(BencodeParserError::DuplicateKey { pos: 7 }));
}

#[test]
fn serializes_dict_in_key_order() {
    let mut dict = BencodeDict::new();
    dict.insert(b"b".to_vec(), BencodeValue::Integer(1));
    dict.insert(b"a".to_vec(), BencodeValue::Integer(2));
    assert_eq!(BencodeValue::Dict(dict).serialize(), b"d1:ai2e1:bi1ee".to_vec());
}

#[test]
fn sorts_dict_keys_on_ingest() {
    let parsed = parse(b"d1:bi1e1:ai2ee").unwrap();
    assert_eq!(parsed.serialize(), b"d1:ai2e1:bi1ee".to_vec());
}

#[test]
fn dict_insert_replaces_and_get_finds() {
    let mut dict = BencodeDict::new();
    dict.insert(b"k".to_vec(), BencodeValue::Integer(1));
    dict.insert(b"k".to_vec(), BencodeValue::Integer(2));
    assert_eq!(dict.len(), 1);
    assert_eq!(dict.get(b"k"), Some(&BencodeValue::Integer(2)));
    assert_eq!(dict.get(b"z"), None);
}

#[test]
fn round_trips_canonical_bytes() {
    let inputs: Vec<&[u8]> = vec![
        b"i42e",
        b"4:spam",
        b"le",
        b"de",
        b"l4:spami-3ee",
        b"d3:bar4:spam3:fooi42ee",
        b"d1:ad1:bl0:i0eeee",
    ];
    for input in inputs {
        let value: Value = parse(input).unwrap();
        assert_eq!(value.serialize(), input.to_vec());
    }
}

#[test]
fn parser_cursor_advances_value_by_value() {
    let data = b"i1e3:abc";
    let mut parser = BencodeParser::new(data);
    assert_eq!(parser.parse_value().unwrap(), BencodeValue::Integer(1));
    assert_eq!(parser.parse_value().unwrap(), bytes("abc"));
    assert_eq!(parser.parse_value(), Err(BencodeParserError::Truncated { pos: 8 }));
}
