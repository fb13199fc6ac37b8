use torrent_client::decode::{decode, decode_at, skip_value};
use torrent_client::encode::encode;
use torrent_client::error::Error;
use torrent_client::value::Value;

fn bytes(text: &str) -> Value {
    Value::ByteString(text.as_bytes().to_vec())
}

fn debug(v: &Value) -> String {
    format!("{:?}", v)
}

#[test]
fn integers_encode_in_decimal() {
    assert_eq!(encode(&Value::Integer(0)), b"i0e");
    assert_eq!(encode(&Value::Integer(52)), b"i52e");
    assert_eq!(encode(&Value::Integer(-52)), b"i-52e");
    assert_eq!(encode(&Value::Integer(i64::MAX)), b"i9223372036854775807e");
    assert_eq!(encode(&Value::Integer(i64::MIN)), b"i-9223372036854775808e");
}

#[test]
fn byte_strings_encode_with_their_length() {
    assert_eq!(encode(&bytes("hello")), b"5:hello");
    assert_eq!(encode(&bytes("")), b"0:");
    assert_eq!(encode(&Value::ByteString(vec![0, 255, 58])), b"3:\x00\xff:");
}

#[test]
fn lists_encode_in_order() {
    let v = Value::List(vec![bytes("hello"), Value::Integer(52), Value::List(vec![])]);
    assert_eq!(encode(&v), b"l5:helloi52elee");
}

#[test]
fn dictionaries_encode_with_sorted_keys() {
    let v = Value::Dict(vec![
        (b"zeta".to_vec(), Value::Integer(1)),
        (b"alpha".to_vec(), Value::Integer(2)),
        (b"alp".to_vec(), Value::Integer(3)),
        (b"beta".to_vec(), bytes("x")),
    ]);
    assert_eq!(encode(&v), b"d3:alpi3e5:alphai2e4:beta1:x4:zetai1ee");
}

#[test]
fn dictionaries_encode_the_same_in_any_entry_order() {
    let a = Value::Dict(vec![
        (b"b".to_vec(), Value::Integer(1)),
        (b"a".to_vec(), Value::Integer(2)),
        (b"c".to_vec(), Value::Integer(3)),
    ]);
    let b = Value::Dict(vec![
        (b"c".to_vec(), Value::Integer(3)),
        (b"a".to_vec(), Value::Integer(2)),
        (b"b".to_vec(), Value::Integer(1)),
    ]);
    assert_eq!(encode(&a), encode(&b));
    assert_eq!(encode(&a), b"d1:ai2e1:bi1e1:ci3ee");
}

#[test]
fn a_repeated_key_encodes_with_its_last_entry() {
    let v = Value::Dict(vec![
        (b"k".to_vec(), Value::Integer(1)),
        (b"a".to_vec(), Value::Integer(5)),
        (b"k".to_vec(), Value::Integer(2)),
    ]);
    assert_eq!(encode(&v), b"d1:ai5e1:ki2ee");
}

#[test]
fn decode_reads_each_kind_of_value() {
    assert_eq!(debug(&decode(b"i-7e").unwrap()), debug(&Value::Integer(-7)));
    assert_eq!(debug(&decode(b"5:hello").unwrap()), debug(&bytes("hello")));
    assert_eq!(
        debug(&decode(b"l5:helloi52ee").unwrap()),
        debug(&Value::List(vec![bytes("hello"), Value::Integer(52)]))
    );
    assert_eq!(
        debug(&decode(b"d3:foo3:bar5:helloi52ee").unwrap()),
        debug(&Value::Dict(vec![
            (b"foo".to_vec(), bytes("bar")),
            (b"hello".to_vec(), Value::Integer(52)),
        ]))
    );
}

#[test]
fn decode_accepts_unsorted_keys_and_keeps_their_order() {
    assert_eq!(
        debug(&decode(b"d1:bi1e1:ai2ee").unwrap()),
        debug(&Value::Dict(vec![
            (b"b".to_vec(), Value::Integer(1)),
            (b"a".to_vec(), Value::Integer(2)),
        ]))
    );
}

#[test]
fn decode_keeps_the_last_entry_of_a_repeated_key() {
    assert_eq!(
        debug(&decode(b"d1:ki1e1:ai5e1:ki2ee").unwrap()),
        debug(&Value::Dict(vec![
            (b"k".to_vec(), Value::Integer(2)),
            (b"a".to_vec(), Value::Integer(5)),
        ]))
    );
}

#[test]
fn decode_ignores_what_follows_the_value() {
    assert_eq!(debug(&decode(b"i1etrailing").unwrap()), debug(&Value::Integer(1)));
}

#[test]
fn decode_reads_the_extreme_integers() {
    assert_eq!(
        debug(&decode(b"i9223372036854775807e").unwrap()),
        debug(&Value::Integer(i64::MAX))
    );
    assert_eq!(
        debug(&decode(b"i-9223372036854775808e").unwrap()),
        debug(&Value::Integer(i64::MIN))
    );
    assert_eq!(debug(&decode(b"i007e").unwrap()), debug(&Value::Integer(7)));
    assert_eq!(debug(&decode(b"i-0e").unwrap()), debug(&Value::Integer(0)));
}

#[test]
fn decode_rejects_malformed_input() {
    let cases: Vec<&[u8]> = vec![
        b"",
        b"x",
        b"i",
        b"ie",
        b"i-e",
        b"i12",
        b"i1x2e",
        b"i9223372036854775808e",
        b"i-9223372036854775809e",
        b"5hello",
        b"5:hell",
        b":abc",
        b"99999999999999999999999999:a",
        b"l",
        b"li1e",
        b"d",
        b"d3:foo",
        b"d3:fooe",
        b"di1ei2ee",
        b"d3:foo3:bar",
    ];
    for case in cases {
        assert!(matches!(decode(case), Err(Error::MalformedInput)), "{:?}", case);
    }
}

#[test]
fn decode_at_reports_where_the_next_value_starts() {
    let input = b"i1e5:helloli2ee";
    let (first, next) = decode_at(input, 0).unwrap();
    assert_eq!(debug(&first), debug(&Value::Integer(1)));
    assert_eq!(next, 3);
    let (second, next) = decode_at(input, next).unwrap();
    assert_eq!(debug(&second), debug(&bytes("hello")));
    assert_eq!(next, 10);
    let (third, next) = decode_at(input, next).unwrap();
    assert_eq!(debug(&third), debug(&Value::List(vec![Value::Integer(2)])));
    assert_eq!(next, input.len());
    assert!(matches!(decode_at(input, next), Err(Error::MalformedInput)));
    assert!(matches!(decode_at(input, 100), Err(Error::MalformedInput)));
}

#[test]
fn skip_value_stops_where_decode_at_stops() {
    let inputs: Vec<&[u8]> = vec![
        b"i1e",
        b"5:hellorest",
        b"l5:helloi52eli1eeei0e",
        b"d3:food1:ai1ee1:bleex",
        b"l",
        b"d1:a",
        b"i1",
    ];
    for input in inputs {
        match decode_at(input, 0) {
            Ok((_, next)) => assert_eq!(skip_value(input, 0), Ok(next)),
            Err(e) => assert_eq!(skip_value(input, 0), Err(e)),
        }
    }
}

#[test]
fn decoding_an_encoding_gives_the_tree_back() {
    let v = Value::Dict(vec![
        (b"announce".to_vec(), bytes("http://tracker.test/announce")),
        (
            b"info".to_vec(),
            Value::Dict(vec![
                (b"length".to_vec(), Value::Integer(10)),
                (b"name".to_vec(), bytes("sample.txt")),
                (b"piece length".to_vec(), Value::Integer(4)),
                (b"pieces".to_vec(), Value::ByteString(vec![0u8; 40])),
            ]),
        ),
        (b"list".to_vec(), Value::List(vec![Value::Integer(-1), Value::List(vec![])])),
    ]);
    let encoded = encode(&v);
    assert_eq!(debug(&decode(&encoded).unwrap()), debug(&v));
    assert_eq!(encode(&decode(&encoded).unwrap()), encoded);
}

#[test]
fn decoding_an_encoding_sorts_an_unsorted_dictionary() {
    let v = Value::Dict(vec![
        (b"b".to_vec(), Value::Integer(1)),
        (b"a".to_vec(), Value::Integer(2)),
    ]);
    let sorted = Value::Dict(vec![
        (b"a".to_vec(), Value::Integer(2)),
        (b"b".to_vec(), Value::Integer(1)),
    ]);
    assert_eq!(debug(&decode(&encode(&v)).unwrap()), debug(&sorted));
}

#[test]
fn get_finds_what_a_dictionary_holds() {
    let v = decode(b"d1:ai1e1:b3:xyz1:ai2ee").unwrap();
    assert_eq!(debug(v.get(b"a").unwrap()), debug(&Value::Integer(2)));
    assert_eq!(debug(v.get(b"b").unwrap()), debug(&bytes("xyz")));
    assert!(v.get(b"c").is_none());
    assert!(Value::Integer(1).get(b"a").is_none());
    let unchecked = Value::Dict(vec![
        (b"k".to_vec(), Value::Integer(1)),
        (b"k".to_vec(), Value::Integer(2)),
    ]);
    assert_eq!(debug(unchecked.get(b"k").unwrap()), debug(&Value::Integer(2)));
}
