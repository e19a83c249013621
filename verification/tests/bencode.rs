use dht_node::structs::bencode::{less_bytes, Bencode};
use serde_bencode::value::Value;
use std::collections::HashMap;

fn to_value(value: &Bencode) -> Value {
    match value {
        Bencode::Bytes(bytes) => Value::Bytes(bytes.clone()),
        Bencode::Int(number) => Value::Int(*number),
        Bencode::List(items) => Value::List(items.iter().map(to_value).collect()),
        Bencode::Dict(entries) => {
            let mut map = HashMap::new();
            for (key, value) in entries.iter() {
                map.insert(key.clone(), to_value(value));
            }
            Value::Dict(map)
        }
    }
}

fn value_samples() -> Vec<Bencode> {
    vec![
        Bencode::Int(0),
        Bencode::Int(7),
        Bencode::Int(10),
        Bencode::Int(-1),
        Bencode::Int(-10),
        Bencode::Int(1234567890),
        Bencode::Int(i64::MAX),
        Bencode::Int(i64::MIN),
        Bencode::Bytes(vec![]),
        Bencode::Bytes(b"spam".to_vec()),
        Bencode::Bytes(vec![0, 255, b'e', b':', b'1']),
        Bencode::Bytes(vec![b'x'; 123]),
        Bencode::List(vec![]),
        Bencode::List(vec![Bencode::Int(1), Bencode::Bytes(b"a".to_vec()), Bencode::List(vec![])]),
        Bencode::Dict(vec![]),
        Bencode::Dict(vec![
            (b"".to_vec(), Bencode::Int(0)),
            (b"a".to_vec(), Bencode::Int(1)),
            (b"aa".to_vec(), Bencode::List(vec![Bencode::Dict(vec![])])),
            (b"b".to_vec(), Bencode::Bytes(b"c".to_vec())),
            (vec![0xff], Bencode::Dict(vec![(b"k".to_vec(), Bencode::Int(-5))])),
        ]),
    ]
}

#[test]
fn test_wire_forms() {
    let expected: Vec<&[u8]> = vec![
        b"i0e",
        b"i7e",
        b"i10e",
        b"i-1e",
        b"i-10e",
        b"i1234567890e",
        b"i9223372036854775807e",
        b"i-9223372036854775808e",
        b"0:",
        b"4:spam",
        b"5:\x00\xffe:1",
    ];
    let value_samples = value_samples();
    for (value, bytes) in value_samples.iter().zip(expected.iter()) {
        assert_eq!(&value.encode()[..], *bytes);
    }
    assert_eq!(&value_samples[12].encode()[..], b"le");
    assert_eq!(&value_samples[13].encode()[..], b"li1e1:alee");
    assert_eq!(&value_samples[14].encode()[..], b"de");
    assert_eq!(&value_samples[15].encode()[..], b"d0:i0e1:ai1e2:aaldee1:b1:c1:\xffd1:ki-5eee");
}

#[test]
fn test_decoding_reads_back_what_encoding_wrote() {
    for value in value_samples() {
        let bytes = value.encode();
        let back = Bencode::decode(&bytes).unwrap();
        assert_eq!(format!("{:?}", back), format!("{:?}", value));
        assert_eq!(back.encode(), bytes);
    }
}

#[test]
fn test_encoding_agrees_with_serde_bencode() {
    for value in value_samples() {
        let bytes = value.encode();
        assert_eq!(serde_bencode::to_bytes(&to_value(&value)).unwrap(), bytes);
        let theirs: Value = serde_bencode::from_bytes(&bytes).unwrap();
        assert_eq!(theirs, to_value(&value));
        assert_eq!(to_value(&Bencode::decode(&bytes).unwrap()), theirs);
    }
}

#[test]
fn test_decoding_rejects_what_is_not_canonical() {
    let inputs: Vec<&[u8]> = vec![
        b"",
        b"i",
        b"ie",
        b"i-e",
        b"i-0e",
        b"i00e",
        b"i01e",
        b"i-01e",
        b"i1",
        b"i1x",
        b"i+1e",
        b"i 1e",
        b"i9223372036854775808e",
        b"i-9223372036854775809e",
        b"i99999999999999999999999999999999e",
        b"1",
        b"1:",
        b"2:a",
        b"01:a",
        b"00:",
        b"-1:a",
        b"99999999999999999999999999999999:a",
        b"18446744073709551616:a",
        b"l",
        b"li1e",
        b"d",
        b"d1:a",
        b"d1:ai1e",
        b"di1ei1ee",
        b"d1:bi1e1:ai1ee",
        b"d1:ai1e1:ai1ee",
        b"d2:aai1e1:ai1ee",
        b"e",
        b"x",
        b"i1ei2e",
        b"0:0:",
        b"lee",
    ];
    for input in inputs {
        assert!(Bencode::decode(input).is_none(), "{:?}", input);
    }
}

#[test]
fn test_decoding_is_bounded_in_depth() {
    let nested = |depth: usize| {
        let mut bytes = vec![b'l'; depth];
        bytes.extend(vec![b'e'; depth]);
        bytes
    };
    assert!(Bencode::decode(&nested(1)).is_some());
    assert!(Bencode::decode(&nested(32)).is_some());
    assert!(Bencode::decode(&nested(33)).is_none());
    assert!(Bencode::decode(&vec![b'l'; 100_000]).is_none());
    let mut dicts = Vec::new();
    for _ in 0..32 {
        dicts.extend_from_slice(b"d1:a");
    }
    dicts.extend_from_slice(b"i1e");
    dicts.extend(vec![b'e'; 32]);
    assert!(Bencode::decode(&dicts).is_some());
    let mut deeper = b"d1:a".to_vec();
    deeper.extend_from_slice(&dicts);
    deeper.push(b'e');
    assert!(Bencode::decode(&deeper).is_none());
}

#[test]
fn test_order_of_byte_strings() {
    assert!(less_bytes(b"", b"a"));
    assert!(!less_bytes(b"", b""));
    assert!(!less_bytes(b"a", b""));
    assert!(less_bytes(b"a", b"aa"));
    assert!(!less_bytes(b"aa", b"a"));
    assert!(less_bytes(b"a", b"b"));
    assert!(less_bytes(b"ab", b"b"));
    assert!(less_bytes(b"id", b"implied_port"));
    assert!(less_bytes(b"implied_port", b"info_hash"));
    assert!(!less_bytes(b"token", b"target"));
    assert!(less_bytes(&[0x7f], &[0x80]));
    assert!(!less_bytes(b"same", b"same"));
}
