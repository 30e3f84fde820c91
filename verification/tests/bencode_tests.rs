use ratioup::bencode::{
    dictionary_entries, encode_bencode_value, BencodeDecoder, BencodeDecoderError,
    BencodeDict, BencodeValue,
};

fn bstring(s: &[u8]) -> BencodeValue {
    BencodeValue::ByteString(s.to_vec())
}

fn bint(i: i64) -> BencodeValue {
    BencodeValue::Integer(i)
}

// --- Decoder Tests ---

#[test]
fn test_decode_integer_positive() {
    let mut decoder = BencodeDecoder::new(b"i42e");
    assert_eq!(decoder.decode().unwrap(), bint(42));
}

#[test]
fn test_decode_integer_negative() {
    let mut decoder = BencodeDecoder::new(b"i-42e");
    assert_eq!(decoder.decode().unwrap(), bint(-42));
}

#[test]
fn test_decode_integer_zero() {
    let mut decoder = BencodeDecoder::new(b"i0e");
    assert_eq!(decoder.decode().unwrap(), bint(0));
}

#[test]
fn test_decode_byte_string() {
    let mut decoder = BencodeDecoder::new(b"4:spam");
    assert_eq!(decoder.decode().unwrap(), bstring(b"spam"));
}

#[test]
fn test_decode_byte_string_empty() {
    let mut decoder = BencodeDecoder::new(b"0:");
    assert_eq!(decoder.decode().unwrap(), bstring(b""));
}

#[test]
fn test_decode_byte_string_binary() {
    let mut decoder = BencodeDecoder::new(b"3:\xff\xfe\xfd");
    assert_eq!(decoder.decode().unwrap(), bstring(b"\xff\xfe\xfd"));
}

#[test]
fn test_decode_list_empty() {
    let mut decoder = BencodeDecoder::new(b"le");
    assert_eq!(decoder.decode().unwrap(), BencodeValue::List(vec![]));
}

#[test]
fn test_decode_list_integers() {
    let mut decoder = BencodeDecoder::new(b"li1ei2ei3ee");
    assert_eq!(decoder.decode().unwrap(), BencodeValue::List(vec![bint(1), bint(2), bint(3)]));
}

#[test]
fn test_decode_list_mixed() {
    let mut decoder = BencodeDecoder::new(b"l4:spami42ee");
    assert_eq!(decoder.decode().unwrap(), BencodeValue::List(vec![bstring(b"spam"), bint(42)]));
}

#[test]
fn test_decode_list_nested() {
    let mut decoder = BencodeDecoder::new(b"lli1ei2eeli3ei4eee");
    assert_eq!(
        decoder.decode().unwrap(),
        BencodeValue::List(vec![
            BencodeValue::List(vec![bint(1), bint(2)]),
            BencodeValue::List(vec![bint(3), bint(4)])
        ])
    );
}

#[test]
fn test_decode_dictionary_empty() {
    let mut decoder = BencodeDecoder::new(b"de");
    assert_eq!(decoder.decode().unwrap(), BencodeValue::Dictionary(BencodeDict::new()));
}

#[test]
fn test_decode_dictionary_simple() {
    let mut decoder = BencodeDecoder::new(b"d3:bar4:spam3:fooi42ee");
    let result = decoder.decode().unwrap();
    if let BencodeValue::Dictionary(dict) = result {
        assert_eq!(dict.get(b"bar".as_ref()), Some(&bstring(b"spam")));
        assert_eq!(dict.get(b"foo".as_ref()), Some(&bint(42)));
    } else {
        panic!("Expected dictionary");
    }
}

#[test]
fn test_decode_dictionary_nested() {
    let mut decoder = BencodeDecoder::new(b"d5:innerd3:keyi123eee");
    let result = decoder.decode().unwrap();
    if let BencodeValue::Dictionary(dict) = result {
        if let Some(BencodeValue::Dictionary(inner)) = dict.get(b"inner".as_ref()) {
            assert_eq!(inner.get(b"key".as_ref()), Some(&bint(123)));
        } else {
            panic!("Expected inner dictionary");
        }
    } else {
        panic!("Expected dictionary");
    }
}

#[test]
fn test_decode_tracker_response() {
    let data = b"d8:completei15e10:incompletei3e8:intervali1800ee";
    let mut decoder = BencodeDecoder::new(data);
    let result = decoder.decode().unwrap();
    if let BencodeValue::Dictionary(dict) = result {
        assert_eq!(dict.get(b"complete".as_ref()), Some(&bint(15)));
        assert_eq!(dict.get(b"incomplete".as_ref()), Some(&bint(3)));
        assert_eq!(dict.get(b"interval".as_ref()), Some(&bint(1800)));
    } else {
        panic!("Expected dictionary");
    }
}

#[test]
fn test_decode_failure_reason() {
    let data = b"d14:failure reason17:Torrent not founde";
    let mut decoder = BencodeDecoder::new(data);
    let result = decoder.decode().unwrap();
    if let BencodeValue::Dictionary(dict) = result {
        assert_eq!(dict.get(b"failure reason".as_ref()), Some(&bstring(b"Torrent not found")));
    } else {
        panic!("Expected dictionary");
    }
}

#[test]
fn test_decode_error_unexpected_end() {
    let mut decoder = BencodeDecoder::new(b"i42");
    assert!(matches!(decoder.decode(), Err(BencodeDecoderError::UnexpectedEndOfInput)));
}

#[test]
fn test_decode_error_invalid_format() {
    let mut decoder = BencodeDecoder::new(b"x");
    assert!(matches!(decoder.decode(), Err(BencodeDecoderError::InvalidFormat)));
}

#[test]
fn test_decode_error_string_truncated() {
    let mut decoder = BencodeDecoder::new(b"10:short");
    assert!(matches!(decoder.decode(), Err(BencodeDecoderError::UnexpectedEndOfInput)));
}

// --- Encoder Tests ---

#[test]
fn test_encode_integer() {
    let mut buffer = Vec::new();
    encode_bencode_value(&bint(42), &mut buffer).unwrap();
    assert_eq!(buffer, b"i42e");
}

#[test]
fn test_encode_integer_negative() {
    let mut buffer = Vec::new();
    encode_bencode_value(&bint(-123), &mut buffer).unwrap();
    assert_eq!(buffer, b"i-123e");
}

#[test]
fn test_encode_byte_string() {
    let mut buffer = Vec::new();
    encode_bencode_value(&bstring(b"hello"), &mut buffer).unwrap();
    assert_eq!(buffer, b"5:hello");
}

#[test]
fn test_encode_byte_string_empty() {
    let mut buffer = Vec::new();
    encode_bencode_value(&bstring(b""), &mut buffer).unwrap();
    assert_eq!(buffer, b"0:");
}

#[test]
fn test_encode_list() {
    let mut buffer = Vec::new();
    let list = BencodeValue::List(vec![bint(1), bstring(b"two")]);
    encode_bencode_value(&list, &mut buffer).unwrap();
    assert_eq!(buffer, b"li1e3:twoe");
}

#[test]
fn test_encode_dictionary() {
    let mut buffer = Vec::new();
    let mut dict = BencodeDict::new();
    dict.insert(b"cow".to_vec(), bstring(b"moo"));
    dict.insert(b"spam".to_vec(), bstring(b"eggs"));
    encode_bencode_value(&BencodeValue::Dictionary(dict), &mut buffer).unwrap();
    assert_eq!(buffer, b"d3:cow3:moo4:spam4:eggse");
}

// --- Roundtrip Tests ---

#[test]
fn test_roundtrip_integer() {
    let original = bint(999);
    let mut buffer = Vec::new();
    encode_bencode_value(&original, &mut buffer).unwrap();
    let mut decoder = BencodeDecoder::new(&buffer);
    assert_eq!(decoder.decode().unwrap(), original);
}

#[test]
fn test_roundtrip_string() {
    let original = bstring(b"test data");
    let mut buffer = Vec::new();
    encode_bencode_value(&original, &mut buffer).unwrap();
    let mut decoder = BencodeDecoder::new(&buffer);
    assert_eq!(decoder.decode().unwrap(), original);
}

#[test]
fn test_roundtrip_complex() {
    let mut inner_dict = BencodeDict::new();
    inner_dict.insert(b"pieces".to_vec(), bstring(b"\x00\x01\x02\x03"));
    inner_dict.insert(b"length".to_vec(), bint(12345));

    let mut outer_dict = BencodeDict::new();
    outer_dict.insert(b"announce".to_vec(), bstring(b"http://tracker.example.com"));
    outer_dict.insert(b"info".to_vec(), BencodeValue::Dictionary(inner_dict));

    let original = BencodeValue::Dictionary(outer_dict);
    let mut buffer = Vec::new();
    encode_bencode_value(&original, &mut buffer).unwrap();

    let mut decoder = BencodeDecoder::new(&buffer);
    assert_eq!(decoder.decode().unwrap(), original);
}

// --- More cases ---

#[test]
fn dictionary_keys_come_out_sorted() {
    let mut decoder = BencodeDecoder::new(b"d3:fooi1e3:bari2ee");
    let value = decoder.decode().unwrap();
    let mut buffer = Vec::new();
    encode_bencode_value(&value, &mut buffer).unwrap();
    assert_eq!(buffer, b"d3:bari2e3:fooi1ee");
}

#[test]
fn insert_replaces_and_returns_the_old_value() {
    let mut dict = BencodeDict::new();
    assert_eq!(dict.insert(b"k".to_vec(), bint(1)), None);
    assert_eq!(dict.insert(b"k".to_vec(), bint(2)), Some(bint(1)));
    assert_eq!(dict.get(b"k".as_ref()), Some(&bint(2)));
    assert_eq!(dict.get(b"other".as_ref()), None);
    assert_eq!(dict.len(), 1);
}

#[test]
fn decode_integer_errors() {
    let mut decoder = BencodeDecoder::new(b"iabce");
    let err = decoder.decode().unwrap_err();
    assert_eq!(err.debug_string(), "ParseIntError(\"invalid digit found in string\")");
    let mut decoder = BencodeDecoder::new(b"ie");
    let err = decoder.decode().unwrap_err();
    assert_eq!(err.debug_string(), "ParseIntError(\"cannot parse integer from empty string\")");
    let mut decoder = BencodeDecoder::new(b"i99999999999999999999e");
    let err = decoder.decode().unwrap_err();
    assert_eq!(err.debug_string(), "ParseIntError(\"number too large to fit in target type\")");
}

#[test]
fn decode_reads_one_value_and_stops() {
    let mut decoder = BencodeDecoder::new(b"i1ei2e");
    assert_eq!(decoder.decode().unwrap(), bint(1));
    assert_eq!(decoder.position(), 3);
    assert_eq!(decoder.decode().unwrap(), bint(2));
    assert!(matches!(decoder.decode(), Err(BencodeDecoderError::UnexpectedEndOfInput)));
}

#[test]
fn decode_unterminated_list_and_dictionary() {
    let mut decoder = BencodeDecoder::new(b"li1e");
    assert!(matches!(decoder.decode(), Err(BencodeDecoderError::UnexpectedEndOfInput)));
    let mut decoder = BencodeDecoder::new(b"di1ei2ee");
    assert!(decoder.decode().is_err());
}

#[test]
fn oversized_length_is_an_unexpected_end() {
    let mut decoder = BencodeDecoder::new(b"18446744073709551615:");
    assert!(matches!(decoder.decode(), Err(BencodeDecoderError::UnexpectedEndOfInput)));
    let mut decoder = BencodeDecoder::new(b"18446744073709551615:x");
    assert!(matches!(decoder.decode(), Err(BencodeDecoderError::UnexpectedEndOfInput)));
}

#[test]
fn consecutive_encodings_decode_in_turn() {
    let v1 = bint(7);
    let v2 = BencodeValue::List(vec![bstring(b"a"), bint(-1)]);
    let mut buf = Vec::new();
    encode_bencode_value(&v1, &mut buf).unwrap();
    encode_bencode_value(&v2, &mut buf).unwrap();
    let mut d = BencodeDecoder::new(&buf);
    assert_eq!(d.decode().unwrap(), v1);
    assert_eq!(d.decode().unwrap(), v2);
    assert!(matches!(d.decode(), Err(BencodeDecoderError::UnexpectedEndOfInput)));
}

#[test]
fn dictionary_entries_keep_order_and_spans() {
    let data = b"d3:fooi1e3:bar4:spame";
    let entries = dictionary_entries(data).unwrap();
    assert_eq!(entries.len(), 2);
    assert_eq!(entries[0].key, b"foo".to_vec());
    assert_eq!(entries[0].value, bint(1));
    assert_eq!(&data[entries[0].start..entries[0].end], b"i1e");
    assert_eq!(entries[1].key, b"bar".to_vec());
    assert_eq!(&data[entries[1].start..entries[1].end], b"4:spam");
}

#[test]
fn decode_key_reads_a_byte_string() {
    let data = b"d3:keyi5ee";
    let mut decoder = BencodeDecoder::at(data, 1);
    assert_eq!(decoder.decode_key().unwrap(), b"key".to_vec());
    assert_eq!(decoder.position(), 6);
}
