use std::collections::VecDeque;
use std::sync::{Arc, Mutex};

use resp_kv::{BulkString, RespCodec, RespValue, Store, process_value};

fn bulk(bytes: &[u8]) -> RespValue {
    RespValue::BulkString(BulkString(bytes.to_vec()))
}

fn cmd_array(parts: &[&[u8]]) -> RespValue {
    let items: VecDeque<RespValue> = parts.iter().map(|p| bulk(p)).collect();
    RespValue::Array(items)
}

#[test]
fn parse_errors_become_error_replies() {
    let mut store = Store::new();
    match process_value(RespValue::Array(VecDeque::new()), &mut store) {
        RespValue::Error(m, d) => {
            assert_eq!(m, "No command specified");
            assert!(d.is_none());
        }
        other => panic!("expected error reply, got {:?}", other),
    }
    match process_value(cmd_array(&[b"FOOO"]), &mut store) {
        RespValue::Error(m, _) => assert_eq!(m, "Invalid command"),
        other => panic!("expected error reply, got {:?}", other),
    }
}

#[test]
fn unimplemented_command_becomes_not_implemented_reply() {
    let mut store = Store::new();
    match process_value(cmd_array(&[b"COMMAND"]), &mut store) {
        RespValue::Error(m, _) => assert_eq!(m, "NOT_IMPLEMENTED"),
        other => panic!("expected error reply, got {:?}", other),
    }
}

#[test]
fn failed_request_leaves_the_store_serving() {
    let mut store = Store::new();
    process_value(cmd_array(&[b"SET", b"k", b"v"]), &mut store);
    process_value(cmd_array(&[b"FOOO"]), &mut store);
    match process_value(cmd_array(&[b"GET", b"k"]), &mut store) {
        RespValue::BulkString(b) => assert_eq!(b.0, b"v".to_vec()),
        other => panic!("expected value, got {:?}", other),
    }
}

#[test]
fn full_pipeline_from_wire_to_reply() {
    let mut codec = RespCodec::new();
    let mut store = Store::new();
    let wire = b"*3\r\n$3\r\nSET\r\n$1\r\nk\r\n$2\r\nhi\r\n";
    let (n, v) = codec.feed(wire).expect("decode failed");
    assert_eq!(n, wire.len());
    let reply = process_value(v.expect("value expected"), &mut store);
    let mut out: Vec<u8> = Vec::new();
    resp_kv::encode(&reply, &mut out);
    assert_eq!(out, b"+OK\r\n".to_vec());
}

#[test]
fn concurrent_writers_on_disjoint_keys_keep_their_values() {
    let store = Arc::new(Mutex::new(Store::new()));
    let runtime = tokio::runtime::Builder::new_multi_thread()
        .worker_threads(4)
        .build()
        .expect("runtime");
    let mut handles = Vec::new();
    for i in 0..16u32 {
        let store = Arc::clone(&store);
        handles.push(runtime.spawn(async move {
            let key = format!("key-{}", i).into_bytes();
            let val = format!("val-{}", i).into_bytes();
            {
                let mut guard = store.lock().expect("lock");
                process_value(cmd_array(&[b"SET", &key, &val]), &mut guard);
            }
            let got = {
                let mut guard = store.lock().expect("lock");
                process_value(cmd_array(&[b"GET", &key]), &mut guard)
            };
            match got {
                RespValue::BulkString(b) => assert_eq!(b.0, val),
                other => panic!("expected own value, got {:?}", other),
            }
        }));
    }
    runtime.block_on(async {
        for h in handles {
            h.await.expect("task failed");
        }
    });
}
