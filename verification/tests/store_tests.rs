use std::collections::VecDeque;

use resp_kv::{BulkString, RedisCmd, RespValue, Store};

fn bulk(bytes: &[u8]) -> RespValue {
    RespValue::BulkString(BulkString(bytes.to_vec()))
}

fn cmd_array(parts: &[&[u8]]) -> RespValue {
    let items: VecDeque<RespValue> = parts.iter().map(|p| bulk(p)).collect();
    RespValue::Array(items)
}

fn run(store: &mut Store, parts: &[&[u8]]) -> RespValue {
    let cmd = RedisCmd::try_from(cmd_array(parts)).expect("parse expected");
    cmd.execute(store).expect("reply expected")
}

#[test]
fn append_accumulates_and_reports_length() {
    let mut store = Store::new();
    match run(&mut store, &[b"SET", b"k", b"ab"]) {
        RespValue::SimpleString(s) => assert_eq!(s, "OK"),
        other => panic!("expected OK, got {:?}", other),
    }
    match run(&mut store, &[b"APPEND", b"k", b"cd"]) {
        RespValue::Integer(n) => assert_eq!(n, 4),
        other => panic!("expected length reply, got {:?}", other),
    }
    match run(&mut store, &[b"GET", b"k"]) {
        RespValue::BulkString(b) => assert_eq!(b.0, b"abcd".to_vec()),
        other => panic!("expected value, got {:?}", other),
    }
}

#[test]
fn append_to_absent_key_starts_from_empty() {
    let mut store = Store::new();
    match run(&mut store, &[b"APPEND", b"fresh", b"xyz"]) {
        RespValue::Integer(n) => assert_eq!(n, 3),
        other => panic!("expected length reply, got {:?}", other),
    }
    match run(&mut store, &[b"GET", b"fresh"]) {
        RespValue::BulkString(b) => assert_eq!(b.0, b"xyz".to_vec()),
        other => panic!("expected value, got {:?}", other),
    }
}

#[test]
fn get_of_missing_key_is_null() {
    let mut store = Store::new();
    assert!(matches!(run(&mut store, &[b"GET", b"nope"]), RespValue::Null));
}

#[test]
fn set_is_an_upsert() {
    let mut store = Store::new();
    run(&mut store, &[b"SET", b"k", b"first"]);
    run(&mut store, &[b"SET", b"k", b"second"]);
    match run(&mut store, &[b"GET", b"k"]) {
        RespValue::BulkString(b) => assert_eq!(b.0, b"second".to_vec()),
        other => panic!("expected value, got {:?}", other),
    }
}

#[test]
fn exists_reports_one_or_zero() {
    let mut store = Store::new();
    assert!(matches!(run(&mut store, &[b"EXISTS", b"k"]), RespValue::Integer(0)));
    run(&mut store, &[b"SET", b"k", b"v"]);
    assert!(matches!(run(&mut store, &[b"EXISTS", b"k"]), RespValue::Integer(1)));
}

#[test]
fn keys_lists_every_key_and_ignores_the_pattern() {
    let mut store = Store::new();
    run(&mut store, &[b"SET", b"alpha", b"1"]);
    run(&mut store, &[b"SET", b"beta", b"2"]);
    match run(&mut store, &[b"KEYS", b"zzz*"]) {
        RespValue::Array(items) => {
            let mut names: Vec<Vec<u8>> = Vec::new();
            for item in items.iter() {
                match item {
                    RespValue::BulkString(b) => names.push(b.0.clone()),
                    other => panic!("expected bulk key, got {:?}", other),
                }
            }
            names.sort();
            assert_eq!(names, vec![b"alpha".to_vec(), b"beta".to_vec()]);
        }
        other => panic!("expected array, got {:?}", other),
    }
}

#[test]
fn binary_keys_are_byte_exact() {
    let mut store = Store::new();
    run(&mut store, &[b"SET", b"\x00\xff", b"bin"]);
    assert!(matches!(run(&mut store, &[b"GET", b"\x00\xfe"]), RespValue::Null));
    match run(&mut store, &[b"GET", b"\x00\xff"]) {
        RespValue::BulkString(b) => assert_eq!(b.0, b"bin".to_vec()),
        other => panic!("expected value, got {:?}", other),
    }
}

#[test]
fn bulk_string_append_moves_bytes() {
    let mut a = BulkString(b"ab".to_vec());
    let mut b = BulkString(b"cd".to_vec());
    a.append(&mut b);
    assert_eq!(a.0, b"abcd".to_vec());
    assert!(b.0.is_empty());
}

#[test]
fn to_string_reads_texts_only() {
    assert_eq!(
        RespValue::SimpleString("hi".to_string()).to_string(),
        Some("hi".to_string())
    );
    assert_eq!(
        RespValue::BulkString(BulkString(b"text".to_vec())).to_string(),
        Some("text".to_string())
    );
    assert_eq!(RespValue::BulkString(BulkString(vec![0xff])).to_string(), None);
    assert_eq!(RespValue::Integer(3).to_string(), None);
    assert_eq!(RespValue::Null.to_string(), None);
}
