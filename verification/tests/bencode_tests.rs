use torrent_wire::bencode::{
    encode, parse_bencode, parse_byte_string, parse_bytes, parse_dictionary, parse_integer,
    parse_list, BencodeValue, Dictionary,
};
use torrent_wire::decimal::{parse_i64, parse_usize, push_digits, push_int_text};
use torrent_wire::model::FormatError;
use torrent_wire::order::{bytes_equal, bytes_less};

fn decode_all(input: &[u8]) -> BencodeValue {
    let (value, rest) = parse_bencode(input).expect("the input is an encoding");
    assert!(rest.is_empty());
    value
}

fn error_of(input: &[u8]) -> FormatError {
    match parse_bencode(input) {
        Ok(_) => panic!("the input is no encoding"),
        Err(e) => e,
    }
}

fn integer(value: &BencodeValue) -> i64 {
    match value {
        BencodeValue::Integer(i) => *i,
        _ => panic!("not an integer"),
    }
}

fn bytes(value: &BencodeValue) -> Vec<u8> {
    match value {
        BencodeValue::ByteString(b) => b.clone(),
        _ => panic!("not a byte string"),
    }
}

#[test]
fn decodes_integers() {
    assert_eq!(integer(&decode_all(b"i42e")), 42);
    assert_eq!(integer(&decode_all(b"i0e")), 0);
    assert_eq!(integer(&decode_all(b"i-17e")), -17);
    assert_eq!(integer(&decode_all(b"i9223372036854775807e")), i64::MAX);
    assert_eq!(integer(&decode_all(b"i-9223372036854775808e")), i64::MIN);
}

#[test]
fn decodes_integers_leniently() {
    assert_eq!(integer(&decode_all(b"i+5e")), 5);
    assert_eq!(integer(&decode_all(b"i007e")), 7);
    assert_eq!(integer(&decode_all(b"i-0e")), 0);
    assert_eq!(integer(&decode_all(b"i0000000000000000000000000000000000012e")), 12);
}

#[test]
fn refuses_malformed_integers() {
    assert_eq!(error_of(b"i42"), FormatError::UnterminatedInteger);
    assert_eq!(error_of(b"i"), FormatError::UnterminatedInteger);
    assert_eq!(error_of(b"ie"), FormatError::InvalidInteger);
    assert_eq!(error_of(b"i-e"), FormatError::InvalidInteger);
    assert_eq!(error_of(b"i+e"), FormatError::InvalidInteger);
    assert_eq!(error_of(b"i4x2e"), FormatError::InvalidInteger);
    assert_eq!(error_of(b"i 42e"), FormatError::InvalidInteger);
    assert_eq!(error_of(b"i--1e"), FormatError::InvalidInteger);
    assert_eq!(error_of(b"i\xffe"), FormatError::InvalidInteger);
}

#[test]
fn refuses_integers_that_overflow() {
    assert_eq!(error_of(b"i9223372036854775808e"), FormatError::InvalidInteger);
    assert_eq!(error_of(b"i-9223372036854775809e"), FormatError::InvalidInteger);
    assert_eq!(error_of(b"i99999999999999999999999999e"), FormatError::InvalidInteger);
}

#[test]
fn parse_integer_starts_behind_the_opening_byte() {
    let (value, rest) = parse_integer(b"-3exyz").unwrap();
    assert_eq!(integer(&value), -3);
    assert_eq!(rest, b"xyz");
}

#[test]
fn decodes_byte_strings() {
    assert_eq!(bytes(&decode_all(b"4:spam")), b"spam".to_vec());
    assert_eq!(bytes(&decode_all(b"0:")), Vec::<u8>::new());
    assert_eq!(bytes(&decode_all(b"3:\x00\xff:")), vec![0u8, 255, b':']);
    assert_eq!(bytes(&decode_all(b"04:spam")), b"spam".to_vec());
}

#[test]
fn gives_back_what_follows_a_value() {
    let (value, rest) = parse_bencode(b"4:spami1e").unwrap();
    assert_eq!(bytes(&value), b"spam".to_vec());
    assert_eq!(rest, b"i1e");
    let (value, rest) = parse_bencode(b"i1e4:spam").unwrap();
    assert_eq!(integer(&value), 1);
    assert_eq!(rest, b"4:spam");
    let (_, rest) = parse_bencode(b"lee").unwrap();
    assert_eq!(rest, b"e");
    let (_, rest) = parse_bencode(b"de ").unwrap();
    assert_eq!(rest, b" ");
}

#[test]
fn refuses_malformed_byte_strings() {
    assert_eq!(error_of(b"5:abc"), FormatError::TruncatedByteString);
    assert_eq!(error_of(b"1:"), FormatError::TruncatedByteString);
    assert_eq!(error_of(b"4spam"), FormatError::UnterminatedLength);
    assert_eq!(error_of(b"4"), FormatError::UnterminatedLength);
    assert_eq!(error_of(b"4x:spam"), FormatError::InvalidLength);
    assert_eq!(error_of(b"4 :spam"), FormatError::InvalidLength);
    assert_eq!(
        error_of(b"99999999999999999999999999999999:a"),
        FormatError::InvalidLength
    );
    assert_eq!(
        error_of(b"18446744073709551615:a"),
        FormatError::TruncatedByteString
    );
}

#[test]
fn parse_bytes_reads_a_length_with_a_plus_sign() {
    let (content, rest) = parse_bytes(b"+2:abc").unwrap();
    assert_eq!(content, b"ab".to_vec());
    assert_eq!(rest, b"c");
    assert_eq!(parse_bytes(b"-2:abc").unwrap_err(), FormatError::InvalidLength);
    assert_eq!(parse_bytes(b":abc").unwrap_err(), FormatError::InvalidLength);
    assert_eq!(parse_bytes(b"abc").unwrap_err(), FormatError::UnterminatedLength);
}

#[test]
fn parse_byte_string_gives_a_byte_string() {
    let (value, rest) = parse_byte_string(b"3:abcde").unwrap();
    assert_eq!(bytes(&value), b"abc".to_vec());
    assert_eq!(rest, b"de");
}

#[test]
fn refuses_unknown_first_bytes() {
    assert_eq!(error_of(b""), FormatError::UnknownType);
    assert_eq!(error_of(b"x"), FormatError::UnknownType);
    assert_eq!(error_of(b"e"), FormatError::UnknownType);
    assert_eq!(error_of(b"-1"), FormatError::UnknownType);
    assert_eq!(error_of(b":"), FormatError::UnknownType);
}

#[test]
fn decodes_lists() {
    let value = decode_all(b"l4:spami42ee");
    match &value {
        BencodeValue::List(items) => {
            assert_eq!(items.len(), 2);
            assert_eq!(bytes(&items[0]), b"spam".to_vec());
            assert_eq!(integer(&items[1]), 42);
        }
        _ => panic!("not a list"),
    }
    match decode_all(b"le") {
        BencodeValue::List(items) => assert!(items.is_empty()),
        _ => panic!("not a list"),
    }
    match decode_all(b"lli1eeli2eee") {
        BencodeValue::List(items) => {
            assert_eq!(items.len(), 2);
            match &items[1] {
                BencodeValue::List(inner) => assert_eq!(integer(&inner[0]), 2),
                _ => panic!("not a list"),
            }
        }
        _ => panic!("not a list"),
    }
}

#[test]
fn refuses_malformed_lists() {
    assert_eq!(error_of(b"l"), FormatError::UnterminatedList);
    assert_eq!(error_of(b"l4:spam"), FormatError::UnterminatedList);
    assert_eq!(error_of(b"li1e"), FormatError::UnterminatedList);
    assert_eq!(error_of(b"lxe"), FormatError::UnknownType);
    assert_eq!(error_of(b"li1"), FormatError::UnterminatedInteger);
    assert_eq!(error_of(b"ll"), FormatError::UnterminatedList);
}

#[test]
fn parse_list_starts_behind_the_opening_byte() {
    let (value, rest) = parse_list(b"i1ei2eeZ").unwrap();
    match value {
        BencodeValue::List(items) => assert_eq!(items.len(), 2),
        _ => panic!("not a list"),
    }
    assert_eq!(rest, b"Z");
    assert_eq!(parse_list(b"").unwrap_err(), FormatError::UnterminatedList);
}

#[test]
fn decodes_dictionaries() {
    let value = decode_all(b"d3:cow3:moo4:spam4:eggse");
    match &value {
        BencodeValue::Dictionary(d) => {
            assert_eq!(d.len(), 2);
            assert_eq!(bytes(d.get(b"cow").unwrap()), b"moo".to_vec());
            assert_eq!(bytes(d.get(b"spam").unwrap()), b"eggs".to_vec());
            assert!(d.get(b"co").is_none());
            assert!(d.get(b"cows").is_none());
            assert!(d.get(b"").is_none());
        }
        _ => panic!("not a dictionary"),
    }
    match decode_all(b"de") {
        BencodeValue::Dictionary(d) => assert_eq!(d.len(), 0),
        _ => panic!("not a dictionary"),
    }
}

#[test]
fn decodes_keys_in_any_order() {
    match decode_all(b"d1:bi1e1:ai2ee") {
        BencodeValue::Dictionary(d) => {
            assert_eq!(integer(d.get(b"b").unwrap()), 1);
            assert_eq!(integer(d.get(b"a").unwrap()), 2);
        }
        _ => panic!("not a dictionary"),
    }
}

#[test]
fn the_later_of_two_entries_with_one_key_counts() {
    match decode_all(b"d1:ai1e1:bi5e1:ai2ee") {
        BencodeValue::Dictionary(d) => {
            assert_eq!(d.len(), 2);
            assert_eq!(integer(d.get(b"a").unwrap()), 2);
            assert_eq!(integer(d.get(b"b").unwrap()), 5);
        }
        _ => panic!("not a dictionary"),
    }
}

#[test]
fn refuses_malformed_dictionaries() {
    assert_eq!(error_of(b"d"), FormatError::UnterminatedDictionary);
    assert_eq!(error_of(b"d1:ai1e"), FormatError::UnterminatedDictionary);
    assert_eq!(error_of(b"d1:a"), FormatError::UnknownType);
    assert_eq!(error_of(b"d1:ae"), FormatError::UnknownType);
    assert_eq!(error_of(b"d1:ai1"), FormatError::UnterminatedInteger);
}

#[test]
fn refuses_keys_that_are_no_byte_strings() {
    assert_eq!(error_of(b"di1ei2ee"), FormatError::UnterminatedLength);
    assert_eq!(error_of(b"di1e1:ae"), FormatError::InvalidLength);
    assert_eq!(error_of(b"dle1:ae"), FormatError::InvalidLength);
    assert_eq!(error_of(b"dxe"), FormatError::UnterminatedLength);
}

#[test]
fn parse_dictionary_starts_behind_the_opening_byte() {
    let (value, rest) = parse_dictionary(b"1:ai1eeZ").unwrap();
    match value {
        BencodeValue::Dictionary(d) => assert_eq!(integer(d.get(b"a").unwrap()), 1),
        _ => panic!("not a dictionary"),
    }
    assert_eq!(rest, b"Z");
    assert_eq!(
        parse_dictionary(b"").unwrap_err(),
        FormatError::UnterminatedDictionary
    );
}

#[test]
fn a_failure_reason_without_terminator_is_a_format_error() {
    assert!(parse_bencode(b"d14:failure reason7:bannedd").is_err());
    assert_eq!(
        error_of(b"d14:failure reason7:bannedd"),
        FormatError::UnterminatedDictionary
    );
}

#[test]
fn encodes_integers() {
    assert_eq!(encode(&BencodeValue::Integer(0)), b"i0e".to_vec());
    assert_eq!(encode(&BencodeValue::Integer(42)), b"i42e".to_vec());
    assert_eq!(encode(&BencodeValue::Integer(-42)), b"i-42e".to_vec());
    assert_eq!(encode(&BencodeValue::Integer(10)), b"i10e".to_vec());
    assert_eq!(
        encode(&BencodeValue::Integer(i64::MAX)),
        b"i9223372036854775807e".to_vec()
    );
    assert_eq!(
        encode(&BencodeValue::Integer(i64::MIN)),
        b"i-9223372036854775808e".to_vec()
    );
}

#[test]
fn encodes_byte_strings() {
    assert_eq!(
        encode(&BencodeValue::ByteString(b"spam".to_vec())),
        b"4:spam".to_vec()
    );
    assert_eq!(encode(&BencodeValue::ByteString(Vec::new())), b"0:".to_vec());
    assert_eq!(
        encode(&BencodeValue::ByteString(b"0123456789ab".to_vec())),
        b"12:0123456789ab".to_vec()
    );
}

#[test]
fn encodes_lists_in_order() {
    let list = BencodeValue::List(vec![
        BencodeValue::ByteString(b"spam".to_vec()),
        BencodeValue::Integer(42),
        BencodeValue::List(Vec::new()),
    ]);
    assert_eq!(encode(&list), b"l4:spami42elee".to_vec());
    assert_eq!(encode(&BencodeValue::List(Vec::new())), b"le".to_vec());
}

#[test]
fn encodes_keys_in_ascending_order() {
    let value = decode_all(b"d1:bi1e1:ai2ee");
    assert_eq!(encode(&value), b"d1:ai2e1:bi1ee".to_vec());
}

#[test]
fn encodes_inserted_keys_in_ascending_order() {
    let mut d = Dictionary::new();
    d.insert(b"zebra".to_vec(), BencodeValue::Integer(1));
    d.insert(b"b".to_vec(), BencodeValue::Integer(2));
    d.insert(b"aa".to_vec(), BencodeValue::Integer(3));
    d.insert(b"a".to_vec(), BencodeValue::Integer(4));
    d.insert(b"".to_vec(), BencodeValue::Integer(5));
    d.insert(b"B".to_vec(), BencodeValue::Integer(6));
    d.insert(vec![0xff], BencodeValue::Integer(7));
    assert_eq!(
        encode(&BencodeValue::Dictionary(d)),
        b"d0:i5e1:Bi6e1:ai4e2:aai3e1:bi2e5:zebrai1e1:\xffi7ee".to_vec()
    );
}

#[test]
fn encodes_nested_dictionaries_in_ascending_order() {
    let value = decode_all(b"d1:zd1:yi1e1:xi2ee1:ali3ed1:qi4e1:pi5eeee");
    assert_eq!(
        encode(&value),
        b"d1:ali3ed1:pi5e1:qi4eee1:zd1:xi2e1:yi1eee".to_vec()
    );
}

#[test]
fn encodes_the_empty_dictionary() {
    assert_eq!(
        encode(&BencodeValue::Dictionary(Dictionary::new())),
        b"de".to_vec()
    );
}

#[test]
fn decoding_undoes_encoding() {
    let mut inner = Dictionary::new();
    inner.insert(b"length".to_vec(), BencodeValue::Integer(-5));
    inner.insert(b"key".to_vec(), BencodeValue::ByteString(vec![0, 1, 2, b'e', b':']));
    let mut outer = Dictionary::new();
    outer.insert(b"z".to_vec(), BencodeValue::Dictionary(inner));
    outer.insert(
        b"list".to_vec(),
        BencodeValue::List(vec![
            BencodeValue::Integer(i64::MIN),
            BencodeValue::ByteString(Vec::new()),
            BencodeValue::List(vec![BencodeValue::Dictionary(Dictionary::new())]),
        ]),
    );
    let value = BencodeValue::Dictionary(outer);
    let encoded = encode(&value);
    let (decoded, rest) = parse_bencode(&encoded).unwrap();
    assert!(rest.is_empty());
    assert!(decoded == value);
    assert_eq!(encode(&decoded), encoded);
}

#[test]
fn encoding_twice_gives_the_same_bytes() {
    let inputs: [&[u8]; 5] = [
        b"d1:bi1e1:ai2ee",
        b"li007ei+1ei-0ee",
        b"d2:bbd1:bi1e1:ai2ee1:ale1:ai9ee",
        b"05:hello",
        b"d0:0:e",
    ];
    for input in inputs {
        let first = encode(&decode_all(input));
        let second = encode(&decode_all(&first));
        assert_eq!(first, second);
    }
}

#[test]
fn canonical_bytes_come_back_unchanged() {
    let inputs: [&[u8]; 4] = [
        b"d8:announce20:http://tracker.test/4:infod4:name3:abc12:piece lengthi16384e6:pieces20:AAAAAAAAAAAAAAAAAAAAee",
        b"i-1e",
        b"l1:a1:be",
        b"d1:a1:b2:aa1:c1:b1:de",
    ];
    for input in inputs {
        assert_eq!(encode(&decode_all(input)), input.to_vec());
    }
}

#[test]
fn values_are_equal_whatever_the_order_of_their_entries() {
    let first = decode_all(b"d1:ai1e1:bli2eee");
    let second = decode_all(b"d1:bli2ee1:ai1ee");
    assert!(first == second);
    assert!(first != decode_all(b"d1:ai1e1:bli3eee"));
    assert!(first != decode_all(b"d1:ai1ee"));
    assert!(first != decode_all(b"d1:ai1e1:bli2ee1:ci0ee"));
    assert!(decode_all(b"i1e") != decode_all(b"1:1"));
    assert!(decode_all(b"li1ei2ee") != decode_all(b"li2ei1ee"));
    assert!(decode_all(b"le") != decode_all(b"de"));
}

#[test]
fn a_clone_is_equal_to_the_value_cloned() {
    let value = decode_all(b"d1:ad1:bli1e2:xyee1:ci-3ee");
    let copy = value.clone();
    assert!(copy == value);
    assert_eq!(encode(&copy), encode(&value));
}

#[test]
fn dictionary_insert_replaces_the_value_under_a_key() {
    let mut d = Dictionary::new();
    assert!(d.is_empty());
    d.insert(b"k".to_vec(), BencodeValue::Integer(1));
    d.insert(b"l".to_vec(), BencodeValue::Integer(2));
    d.insert(b"k".to_vec(), BencodeValue::Integer(3));
    assert_eq!(d.len(), 2);
    assert!(!d.is_empty());
    assert!(d.contains_key(b"k"));
    assert!(!d.contains_key(b"m"));
    assert_eq!(integer(d.get(b"k").unwrap()), 3);
    assert_eq!(integer(d.get(b"l").unwrap()), 2);
    assert_eq!(encode(&BencodeValue::Dictionary(d)), b"d1:ki3e1:li2ee".to_vec());
}

#[test]
fn reads_decimal_text() {
    assert_eq!(parse_i64(b"0"), Some(0));
    assert_eq!(parse_i64(b"-12"), Some(-12));
    assert_eq!(parse_i64(b"+12"), Some(12));
    assert_eq!(parse_i64(b""), None);
    assert_eq!(parse_i64(b"12a"), None);
    assert_eq!(parse_i64(b"9223372036854775807"), Some(i64::MAX));
    assert_eq!(parse_i64(b"9223372036854775808"), None);
    assert_eq!(parse_i64(b"-9223372036854775808"), Some(i64::MIN));
    assert_eq!(parse_usize(b"0"), Some(0));
    assert_eq!(parse_usize(b"+7"), Some(7));
    assert_eq!(parse_usize(b"-7"), None);
    assert_eq!(parse_usize(b"-0"), None);
    assert_eq!(parse_usize(b""), None);
    assert_eq!(parse_usize(b"18446744073709551616"), None);
}

#[test]
fn writes_decimal_text() {
    let mut out = b"x".to_vec();
    push_digits(&mut out, 0);
    push_digits(&mut out, 1905);
    push_digits(&mut out, u64::MAX);
    assert_eq!(out, b"x0190518446744073709551615".to_vec());
    let mut out = Vec::new();
    push_int_text(&mut out, -1);
    push_int_text(&mut out, 20);
    push_int_text(&mut out, i64::MIN);
    assert_eq!(out, b"-120-9223372036854775808".to_vec());
}

#[test]
fn orders_byte_strings_byte_by_byte() {
    assert!(bytes_less(b"a", b"b"));
    assert!(!bytes_less(b"b", b"a"));
    assert!(bytes_less(b"", b"a"));
    assert!(!bytes_less(b"", b""));
    assert!(bytes_less(b"a", b"aa"));
    assert!(!bytes_less(b"aa", b"a"));
    assert!(bytes_less(b"Z", b"a"));
    assert!(bytes_less(b"a", &[0xff]));
    assert!(bytes_less(b"ab", b"b"));
    assert!(!bytes_less(b"abc", b"abc"));
    assert!(bytes_equal(b"abc", b"abc"));
    assert!(!bytes_equal(b"abc", b"abd"));
    assert!(!bytes_equal(b"abc", b"ab"));
    assert!(bytes_equal(b"", b""));
}

#[test]
fn dictionary_keys_come_in_ascending_order() {
    let mut d = Dictionary::new();
    assert!(d.keys().is_empty());
    d.insert(b"b".to_vec(), BencodeValue::Integer(1));
    d.insert(b"ab".to_vec(), BencodeValue::Integer(2));
    d.insert(b"a".to_vec(), BencodeValue::Integer(3));
    d.insert(b"b".to_vec(), BencodeValue::Integer(4));
    assert_eq!(d.keys(), vec![b"a".to_vec(), b"ab".to_vec(), b"b".to_vec()]);
}
