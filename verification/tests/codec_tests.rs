use resp_kv::{BulkString, DecodeError, RespCodec, RespValue, encode};

fn encode_to_vec(v: &RespValue) -> Vec<u8> {
    let mut out: Vec<u8> = Vec::new();
    encode(v, &mut out);
    out
}

/// Decodes exactly one value, feeding the bytes in one call.
fn decode_one(bytes: &[u8]) -> (usize, RespValue) {
    let mut c = RespCodec::new();
    let (n, v) = c.feed(bytes).expect("decode failed");
    (n, v.expect("no value decoded"))
}

/// Decodes one value, delivering the bytes split at `split`.
fn decode_split(bytes: &[u8], split: usize) -> (usize, RespValue) {
    let mut c = RespCodec::new();
    let mut total: usize = 0;
    let parts: [&[u8]; 2] = [&bytes[..split], &bytes[split..]];
    for part in parts.iter() {
        let mut pending: Vec<u8> = part.to_vec();
        loop {
            let (n, v) = c.feed(&pending).expect("decode failed");
            total += n;
            pending.drain(..n);
            match v {
                Some(value) => return (total, value),
                None => break,
            }
        }
    }
    panic!("no value decoded");
}

/// Structural equality through the encoder: equal wire forms mean equal
/// values for everything the encoder pins down.
fn assert_same_value(a: &RespValue, b: &RespValue) {
    assert_eq!(encode_to_vec(a), encode_to_vec(b));
}

#[test]
fn negative_bulk_length_is_null() {
    let (n, v) = decode_one(b"$-1\r\n");
    assert_eq!(n, 5);
    assert!(matches!(v, RespValue::Null));
}

#[test]
fn negative_array_count_is_null() {
    let (n, v) = decode_one(b"*-1\r\n");
    assert_eq!(n, 5);
    assert!(matches!(v, RespValue::Null));
}

#[test]
fn bulk_string_with_embedded_crlf_round_trips() {
    let original = RespValue::BulkString(BulkString(b"a\r\nb\r\n".to_vec()));
    let wire = encode_to_vec(&original);
    assert_eq!(wire, b"$6\r\na\r\nb\r\n\r\n".to_vec());
    let (n, decoded) = decode_one(&wire);
    assert_eq!(n, wire.len());
    match &decoded {
        RespValue::BulkString(b) => assert_eq!(b.0, b"a\r\nb\r\n".to_vec()),
        other => panic!("expected bulk string, got {:?}", other),
    }
    assert_same_value(&original, &decoded);
}

#[test]
fn fragmentation_invariance_at_every_offset() {
    let wire = b"*2\r\n$3\r\nfoo\r\n$7\r\nbar\r\nqu\r\n";
    let (n_whole, v_whole) = decode_one(wire);
    assert_eq!(n_whole, wire.len());
    for split in 0..=wire.len() {
        let (n, v) = decode_split(wire, split);
        assert_eq!(n, n_whole);
        assert_same_value(&v, &v_whole);
    }
}

#[test]
fn byte_at_a_time_delivery_decodes_the_same() {
    let wire = b"*2\r\n$3\r\nfoo\r\n$4\r\nb\r\nr\r\n";
    let (n_whole, v_whole) = decode_one(wire);
    let mut c = RespCodec::new();
    let mut total: usize = 0;
    let mut decoded: Option<RespValue> = None;
    for i in 0..wire.len() {
        let (n, v) = c.feed(&wire[i..i + 1]).expect("decode failed");
        total += n;
        if let Some(value) = v {
            decoded = Some(value);
            assert_eq!(i, wire.len() - 1);
        }
    }
    assert_eq!(total, n_whole);
    assert_same_value(&decoded.expect("value expected"), &v_whole);
}

#[test]
fn inline_tokens_are_binary_safe() {
    let (n, v) = decode_one(b"\xffkey val\r\n");
    assert_eq!(n, 10);
    match v {
        RespValue::Array(d) => {
            assert_eq!(d.len(), 2);
            match &d[0] {
                RespValue::BulkString(a) => assert_eq!(a.0, b"\xffkey".to_vec()),
                other => panic!("expected bulk token, got {:?}", other),
            }
        }
        other => panic!("expected array, got {:?}", other),
    }
}

#[test]
fn round_trip_simple_string() {
    let v = RespValue::SimpleString("status ok".to_string());
    let wire = encode_to_vec(&v);
    assert_eq!(wire, b"+status ok\r\n".to_vec());
    let (n, decoded) = decode_one(&wire);
    assert_eq!(n, wire.len());
    match &decoded {
        RespValue::SimpleString(s) => assert_eq!(s, "status ok"),
        other => panic!("expected simple string, got {:?}", other),
    }
}

#[test]
fn round_trip_error_without_detail() {
    let v = RespValue::Error("ERR wrong type".to_string(), None);
    let wire = encode_to_vec(&v);
    assert_eq!(wire, b"-ERR wrong type\r\n".to_vec());
    let (_, decoded) = decode_one(&wire);
    match &decoded {
        RespValue::Error(m, d) => {
            assert_eq!(m, "ERR wrong type");
            assert!(d.is_none());
        }
        other => panic!("expected error value, got {:?}", other),
    }
}

#[test]
fn error_detail_is_not_serialized() {
    let with_detail = RespValue::Error("ERR".to_string(), Some("extra".to_string()));
    let without = RespValue::Error("ERR".to_string(), None);
    assert_eq!(encode_to_vec(&with_detail), encode_to_vec(&without));
}

#[test]
fn round_trip_integers() {
    for x in [0i64, 1, -1, 42, -42, i64::MAX, i64::MIN] {
        let v = RespValue::Integer(x);
        let wire = encode_to_vec(&v);
        assert_eq!(wire, format!(":{}\r\n", x).into_bytes());
        let (n, decoded) = decode_one(&wire);
        assert_eq!(n, wire.len());
        match decoded {
            RespValue::Integer(y) => assert_eq!(y, x),
            other => panic!("expected integer, got {:?}", other),
        }
    }
}

#[test]
fn round_trip_array_of_bulks_and_nulls() {
    let v = RespValue::Array(
        vec![
            RespValue::BulkString(BulkString(b"abc".to_vec())),
            RespValue::Null,
            RespValue::BulkString(BulkString(b"".to_vec())),
        ]
        .into(),
    );
    let wire = encode_to_vec(&v);
    assert_eq!(wire, b"*3\r\n$3\r\nabc\r\n$-1\r\n$0\r\n\r\n".to_vec());
    let (n, decoded) = decode_one(&wire);
    assert_eq!(n, wire.len());
    assert_same_value(&v, &decoded);
}

#[test]
fn round_trip_empty_array() {
    let v = RespValue::Array(Vec::new().into());
    let wire = encode_to_vec(&v);
    assert_eq!(wire, b"*0\r\n".to_vec());
    let (n, decoded) = decode_one(&wire);
    assert_eq!(n, wire.len());
    match decoded {
        RespValue::Array(d) => assert_eq!(d.len(), 0),
        other => panic!("expected array, got {:?}", other),
    }
}

#[test]
fn inline_command_splits_on_whitespace() {
    let (n, v) = decode_one(b"GET  some-key\r\n");
    assert_eq!(n, 15);
    match v {
        RespValue::Array(d) => {
            assert_eq!(d.len(), 2);
            match (&d[0], &d[1]) {
                (RespValue::BulkString(a), RespValue::BulkString(b)) => {
                    assert_eq!(a.0, b"GET".to_vec());
                    assert_eq!(b.0, b"some-key".to_vec());
                }
                other => panic!("expected bulk tokens, got {:?}", other),
            }
        }
        other => panic!("expected array, got {:?}", other),
    }
}

#[test]
fn inline_empty_line_is_empty_array() {
    let (n, v) = decode_one(b"\r\n");
    assert_eq!(n, 2);
    match v {
        RespValue::Array(d) => assert_eq!(d.len(), 0),
        other => panic!("expected array, got {:?}", other),
    }
}

#[test]
fn insufficient_input_consumes_and_waits() {
    let mut c = RespCodec::new();
    let (n, v) = c.feed(b"$10\r\nabc").expect("no error expected");
    assert_eq!(n, 8);
    assert!(v.is_none());
    let (n2, v2) = c.feed(b"defghij\r\n").expect("no error expected");
    assert_eq!(n2, 9);
    match v2.expect("value expected") {
        RespValue::BulkString(b) => assert_eq!(b.0, b"abcdefghij".to_vec()),
        other => panic!("expected bulk string, got {:?}", other),
    }
}

#[test]
fn two_values_in_one_buffer_come_one_at_a_time() {
    let mut c = RespCodec::new();
    let buf = b":1\r\n:2\r\n";
    let (n, v) = c.feed(buf).expect("decode failed");
    assert_eq!(n, 4);
    assert!(matches!(v, Some(RespValue::Integer(1))));
    let (n2, v2) = c.feed(&buf[n..]).expect("decode failed");
    assert_eq!(n2, 4);
    assert!(matches!(v2, Some(RespValue::Integer(2))));
}

#[test]
fn array_element_must_be_bulk() {
    let mut c = RespCodec::new();
    let e = c.feed(b"*1\r\n:5\r\n").expect_err("error expected");
    assert_eq!(e, DecodeError::ExpectedBulk);
}

#[test]
fn bad_integer_line_is_rejected() {
    let mut c = RespCodec::new();
    let e = c.feed(b":12a\r\n").expect_err("error expected");
    assert_eq!(e, DecodeError::BadInteger);
}

#[test]
fn integer_line_tolerates_surrounding_spaces() {
    let (n, v) = decode_one(b": 42 \r\n");
    assert_eq!(n, 7);
    assert!(matches!(v, RespValue::Integer(42)));
}

#[test]
fn missing_bulk_terminator_is_rejected() {
    let mut c = RespCodec::new();
    let e = c.feed(b"$3\r\nabcd\r\n").expect_err("error expected");
    assert_eq!(e, DecodeError::BadTerminator);
}

#[test]
fn invalid_utf8_simple_line_is_rejected() {
    let mut c = RespCodec::new();
    let e = c.feed(&[43, 0xff, 13, 10]).expect_err("error expected");
    assert_eq!(e, DecodeError::BadUtf8);
}

#[test]
fn simple_string_with_lone_cr_survives() {
    let v = RespValue::SimpleString("a\rb".to_string());
    let wire = encode_to_vec(&v);
    let (n, decoded) = decode_one(&wire);
    assert_eq!(n, wire.len());
    match decoded {
        RespValue::SimpleString(s) => assert_eq!(s, "a\rb"),
        other => panic!("expected simple string, got {:?}", other),
    }
}
