use std::collections::VecDeque;

use resp_kv::{BulkString, CmdError, RedisCmd, RespCodec, RespValue, Store, get_next_value};

fn bulk(bytes: &[u8]) -> RespValue {
    RespValue::BulkString(BulkString(bytes.to_vec()))
}

fn cmd_array(parts: &[&[u8]]) -> RespValue {
    let items: VecDeque<RespValue> = parts.iter().map(|p| bulk(p)).collect();
    RespValue::Array(items)
}

fn decode_one(bytes: &[u8]) -> RespValue {
    let mut c = RespCodec::new();
    let (n, v) = c.feed(bytes).expect("decode failed");
    assert_eq!(n, bytes.len());
    v.expect("no value decoded")
}

#[test]
fn get_without_key_is_a_parse_error() {
    let v = decode_one(b"*1\r\n$3\r\nGET\r\n");
    let e = RedisCmd::try_from(v).expect_err("arity error expected");
    assert_eq!(e, CmdError::NotEnoughArguments);
}

#[test]
fn command_names_are_case_insensitive() {
    for name in [&b"get"[..], b"Get", b"GET", b"gEt"] {
        let v = cmd_array(&[name, b"k1"]);
        match RedisCmd::try_from(v).expect("parse expected") {
            RedisCmd::Get(k) => assert_eq!(k.0, b"k1".to_vec()),
            other => panic!("expected GET, got {:?}", other),
        }
    }
}

#[test]
fn unknown_command_differs_from_no_command() {
    let unknown = decode_one(b"*1\r\n$4\r\nFOOO\r\n");
    let e1 = RedisCmd::try_from(unknown).expect_err("unknown command expected");
    assert_eq!(e1, CmdError::InvalidCommand);

    let empty = decode_one(b"*0\r\n");
    let e2 = RedisCmd::try_from(empty).expect_err("empty command expected");
    assert_eq!(e2, CmdError::NoCommand);

    assert_ne!(e1, e2);
}

#[test]
fn non_array_value_is_not_a_command() {
    let e = RedisCmd::try_from(RespValue::Integer(7)).expect_err("rejection expected");
    assert_eq!(e, CmdError::InvalidCommand);
}

#[test]
fn non_bulk_argument_is_rejected() {
    let mut items: VecDeque<RespValue> = VecDeque::new();
    items.push_back(bulk(b"GET"));
    items.push_back(RespValue::Integer(3));
    let e = RedisCmd::try_from(RespValue::Array(items)).expect_err("rejection expected");
    assert_eq!(e, CmdError::InvalidArgument);
}

#[test]
fn trailing_arguments_are_ignored() {
    let v = cmd_array(&[b"GET", b"k1", b"extra", b"extra2"]);
    match RedisCmd::try_from(v).expect("parse expected") {
        RedisCmd::Get(k) => assert_eq!(k.0, b"k1".to_vec()),
        other => panic!("expected GET, got {:?}", other),
    }
}

#[test]
fn set_needs_two_arguments() {
    let v = cmd_array(&[b"SET", b"k1"]);
    let e = RedisCmd::try_from(v).expect_err("arity error expected");
    assert_eq!(e, CmdError::NotEnoughArguments);
}

#[test]
fn simple_string_names_a_command_too() {
    let mut items: VecDeque<RespValue> = VecDeque::new();
    items.push_back(RespValue::SimpleString("ping".to_string()));
    match RedisCmd::try_from(RespValue::Array(items)).expect("parse expected") {
        RedisCmd::Ping(p) => assert!(p.is_none()),
        other => panic!("expected PING, got {:?}", other),
    }
}

#[test]
fn ping_with_non_bulk_payload_falls_back_to_plain_ping() {
    let mut items: VecDeque<RespValue> = VecDeque::new();
    items.push_back(bulk(b"PING"));
    items.push_back(RespValue::Integer(1));
    match RedisCmd::try_from(RespValue::Array(items)).expect("parse expected") {
        RedisCmd::Ping(p) => assert!(p.is_none()),
        other => panic!("expected PING, got {:?}", other),
    }
}

#[test]
fn get_next_value_pops_bulk_strings_in_order() {
    let mut items: VecDeque<RespValue> = VecDeque::new();
    items.push_back(bulk(b"one"));
    items.push_back(RespValue::Null);
    let first = get_next_value(&mut items).expect("bulk expected");
    assert_eq!(first.0, b"one".to_vec());
    let e = get_next_value(&mut items).expect_err("non-bulk expected");
    assert_eq!(e, CmdError::InvalidArgument);
    let e2 = get_next_value(&mut items).expect_err("exhausted expected");
    assert_eq!(e2, CmdError::NotEnoughArguments);
}

#[test]
fn ping_executes_to_pong() {
    let mut store = Store::new();
    let v = cmd_array(&[b"PING"]);
    let cmd = RedisCmd::try_from(v).expect("parse expected");
    match cmd.execute(&mut store).expect("reply expected") {
        RespValue::SimpleString(s) => assert_eq!(s, "PONG"),
        other => panic!("expected PONG, got {:?}", other),
    }
}

#[test]
fn ping_echoes_its_payload() {
    let mut store = Store::new();
    let v = cmd_array(&[b"PING", b"hello\xff"]);
    let cmd = RedisCmd::try_from(v).expect("parse expected");
    match cmd.execute(&mut store).expect("reply expected") {
        RespValue::BulkString(b) => assert_eq!(b.0, b"hello\xff".to_vec()),
        other => panic!("expected echo, got {:?}", other),
    }
}

#[test]
fn command_is_not_implemented() {
    let mut store = Store::new();
    let v = cmd_array(&[b"COMMAND"]);
    let cmd = RedisCmd::try_from(v).expect("parse expected");
    assert!(cmd.execute(&mut store).is_err());
}
