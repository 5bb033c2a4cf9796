use rusty_bit::bencode::{decode, dict_insert, encode, DecodeError, Value};

fn text(v: &Value) -> Vec<u8> {
    match v {
        Value::Bytes(b) => b.clone(),
        _ => panic!("not a byte string"),
    }
}

#[test]
fn decode_cow_spam_dictionary() {
    let input = b"d3:cow3:moo4:spaml1:a1:bee";
    let (v, n) = decode(input).unwrap();
    assert_eq!(n, input.len());
    match &v {
        Value::Dict(es) => {
            assert_eq!(es.len(), 2);
            assert_eq!(es[0].0, b"cow".to_vec());
            assert_eq!(text(&es[0].1), b"moo".to_vec());
            assert_eq!(es[1].0, b"spam".to_vec());
            match &es[1].1 {
                Value::List(items) => {
                    assert_eq!(items.len(), 2);
                    assert_eq!(text(&items[0]), b"a".to_vec());
                    assert_eq!(text(&items[1]), b"b".to_vec());
                }
                _ => panic!("spam is not a list"),
            }
        }
        _ => panic!("not a dictionary"),
    }
    assert_eq!(encode(&v), input.to_vec());
}

#[test]
fn round_trip_keeps_bytes() {
    let samples: Vec<&[u8]> = vec![
        b"i0e",
        b"i-42e",
        b"i9223372036854775807e",
        b"i-9223372036854775808e",
        b"0:",
        b"le",
        b"de",
        b"l4:spami7ee",
        b"d1:ad1:bli1ei2eee1:c0:e",
    ];
    for s in samples {
        let (v, n) = decode(s).unwrap();
        assert_eq!(n, s.len());
        assert_eq!(encode(&v), s.to_vec());
    }
}

#[test]
fn decode_reports_consumed_prefix() {
    let (v, n) = decode(b"i5etrailing").unwrap();
    assert_eq!(n, 3);
    assert!(matches!(v, Value::Int(5)));
}

#[test]
fn decode_errors() {
    assert_eq!(decode(b"").err(), Some(DecodeError::TruncatedInput));
    assert_eq!(decode(b"i12").err(), Some(DecodeError::TruncatedInput));
    assert_eq!(decode(b"5:abc").err(), Some(DecodeError::TruncatedInput));
    assert_eq!(decode(b"l1:a").err(), Some(DecodeError::TruncatedInput));
    assert_eq!(decode(b"i1x").err(), Some(DecodeError::BadDigit));
    assert_eq!(decode(b"i03e").err(), Some(DecodeError::BadDigit));
    assert_eq!(decode(b"i-0e").err(), Some(DecodeError::BadDigit));
    assert_eq!(decode(b"ie").err(), Some(DecodeError::BadDigit));
    assert_eq!(decode(b"03:abc").err(), Some(DecodeError::BadDigit));
    assert_eq!(decode(b"x").err(), Some(DecodeError::BadDigit));
    assert_eq!(decode(b"i9223372036854775808e").err(), Some(DecodeError::BadDigit));
    assert_eq!(decode(b"d1:b0:1:a0:e").err(), Some(DecodeError::BadKeyOrder));
    assert_eq!(decode(b"d1:a0:1:a0:e").err(), Some(DecodeError::BadKeyOrder));
    assert_eq!(decode(b"12345678901234567890:x").err(), Some(DecodeError::BadLength));
}

#[test]
fn inserted_keys_encode_in_order() {
    let mut es: Vec<(Vec<u8>, Value)> = Vec::new();
    dict_insert(&mut es, b"zeta".to_vec(), Value::Int(1));
    dict_insert(&mut es, b"alpha".to_vec(), Value::Int(2));
    dict_insert(&mut es, b"mid".to_vec(), Value::Int(3));
    dict_insert(&mut es, b"alpha".to_vec(), Value::Int(4));
    let v = Value::Dict(es);
    assert_eq!(encode(&v), b"d5:alphai4e3:midi3e4:zetai1ee".to_vec());
    let (back, _) = decode(&encode(&v)).unwrap();
    assert_eq!(encode(&back), encode(&v));
}

#[test]
fn encode_builds_values() {
    let v = Value::List(vec![Value::Bytes(b"spam".to_vec()), Value::Int(-3)]);
    assert_eq!(encode(&v), b"l4:spami-3ee".to_vec());
}

#[test]
fn encode_then_decode_gives_value_back() {
    let mut es: Vec<(Vec<u8>, Value)> = Vec::new();
    dict_insert(&mut es, b"list".to_vec(), Value::List(vec![Value::Int(0), Value::Bytes(Vec::new())]));
    dict_insert(&mut es, b"bytes".to_vec(), Value::Bytes(vec![0, 255, 58]));
    let v = Value::Dict(es);
    let mut bytes = encode(&v);
    let n = bytes.len();
    bytes.extend_from_slice(b"i1e");
    let (back, used) = decode(&bytes).unwrap();
    assert_eq!(used, n);
    assert_eq!(encode(&back), encode(&v));
    match back {
        Value::Dict(es) => {
            assert_eq!(es[0].0, b"bytes".to_vec());
            assert_eq!(text(&es[0].1), vec![0, 255, 58]);
            assert_eq!(es[1].0, b"list".to_vec());
        }
        _ => panic!("not a dictionary"),
    }
}

#[test]
fn encode_sorts_keys_held_out_of_order() {
    let v = Value::Dict(vec![
        (b"zz".to_vec(), Value::Int(1)),
        (b"a".to_vec(), Value::Dict(vec![(b"y".to_vec(), Value::Int(2)), (b"x".to_vec(), Value::Int(3))])),
        (b"m".to_vec(), Value::List(vec![Value::Bytes(b"q".to_vec())])),
    ]);
    assert_eq!(encode(&v), b"d1:ad1:xi3e1:yi2ee1:ml1:qe2:zzi1ee".to_vec());
}
