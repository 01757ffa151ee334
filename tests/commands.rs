use kvwire::command::Command;
use kvwire::frame::Frame;
use kvwire::store::Db;
use std::sync::Arc;

fn bulk(b: &[u8]) -> Frame {
    Frame::Bulk(Some(b.to_vec()))
}

#[test]
fn test_parse_get() {
    let frame = Frame::Array(Some(vec![bulk(b"GET"), bulk(b"key1")]));
    match Command::from_frame(frame).unwrap() {
        Command::Get { key } => assert_eq!(key, "key1"),
        _ => panic!("expected GET command"),
    }
}

#[test]
fn test_parse_set() {
    let frame = Frame::Array(Some(vec![bulk(b"SET"), bulk(b"key1"), bulk(b"value1")]));
    match Command::from_frame(frame).unwrap() {
        Command::Put { key, value } => {
            assert_eq!(key, "key1");
            assert_eq!(value, b"value1");
        }
        _ => panic!("expected SET command"),
    }
}

#[test]
fn test_execute_commands() {
    let db = Arc::new(Db::new());
    let cmd = Command::Put { key: "key1".to_string(), value: b"value1".to_vec() };
    let result = cmd.execute(&db);
    assert_eq!(result, Frame::Simple("OK".to_string()));
    let cmd = Command::Get { key: "key1".to_string() };
    let result = cmd.execute(&db);
    assert_eq!(result, Frame::Bulk(Some(b"value1".to_vec())));
    let cmd = Command::Del { key: "key1".to_string() };
    let result = cmd.execute(&db);
    assert_eq!(result, Frame::Integer(1));
}

#[test]
fn command_name_any_case() {
    let frame = Frame::Array(Some(vec![bulk(b"dEl"), bulk(b"k")]));
    match Command::from_frame(frame).unwrap() {
        Command::Del { key } => assert_eq!(key, "k"),
        _ => panic!("expected DEL command"),
    }
}

#[test]
fn translate_errors() {
    let err = |f: Frame| Command::from_frame(f).err().unwrap();
    assert_eq!(err(Frame::Integer(1)), "expected array");
    assert_eq!(err(Frame::Array(None)), "expected array");
    assert_eq!(err(Frame::Array(Some(vec![]))), "expected bulk string");
    assert_eq!(err(Frame::Array(Some(vec![Frame::Bulk(None)]))), "expected bulk string");
    assert_eq!(err(Frame::Array(Some(vec![bulk(b"GET")]))), "GET expects key");
    assert_eq!(err(Frame::Array(Some(vec![bulk(b"SET"), bulk(b"k")]))), "SET expects value");
    assert_eq!(err(Frame::Array(Some(vec![bulk(b"SET"), Frame::Integer(3)]))), "SET expects key");
    assert_eq!(err(Frame::Array(Some(vec![bulk(b"DEL"), Frame::Bulk(None)]))), "DEL expects key");
    assert_eq!(err(Frame::Array(Some(vec![bulk(b"ping")]))), "unknown command 'PING'");
    assert_eq!(
        err(Frame::Array(Some(vec![bulk(b"GET"), bulk(b"k"), bulk(b"extra")]))),
        "wrong number of arguments for 'GET'"
    );
    assert_eq!(
        err(Frame::Array(Some(vec![bulk(b"set"), bulk(b"k"), bulk(b"v"), bulk(b"x")]))),
        "wrong number of arguments for 'SET'"
    );
    assert_eq!(
        err(Frame::Array(Some(vec![bulk(b"DEL"), bulk(b"a"), Frame::Integer(1)]))),
        "wrong number of arguments for 'DEL'"
    );
}

#[test]
fn lossy_keys_are_accepted() {
    let frame = Frame::Array(Some(vec![bulk(b"GET"), bulk(b"k\xff")]));
    match Command::from_frame(frame).unwrap() {
        Command::Get { key } => assert_eq!(key, "k\u{fffd}"),
        _ => panic!("expected GET command"),
    }
}

#[test]
fn test_set_get() {
    let db = Db::new();
    let key = "test_key".to_string();
    let value = b"test_value".to_vec();
    db.set(key.clone(), value.clone());
    assert_eq!(db.get(&key), Some(value));
}

#[test]
fn test_delete() {
    let db = Db::new();
    let key = "test_key".to_string();
    let value = b"test_value".to_vec();
    db.set(key.clone(), value);
    assert!(db.delete(&key));
    assert_eq!(db.get(&key), None);
}

#[test]
fn store_semantics() {
    let db = Db::new();
    db.set("k".to_string(), b"v1".to_vec());
    db.set("k".to_string(), b"v2".to_vec());
    assert_eq!(db.get("k"), Some(b"v2".to_vec()));
    assert!(db.delete("k"));
    assert_eq!(db.get("k"), None);
    assert!(!db.delete("k"));
    assert!(!db.delete("absent"));
}

#[test]
fn test_concurrent_access() {
    let db = Arc::new(Db::new());
    let rt = tokio::runtime::Builder::new_multi_thread().worker_threads(4).build().unwrap();
    let mut handles = vec![];
    for i in 0..10 {
        let db = db.clone();
        handles.push(rt.spawn_blocking(move || {
            let key = format!("key_{}", i);
            let value = format!("value_{}", i).into_bytes();
            db.set(key.clone(), value.clone());
            assert_eq!(db.get(&key), Some(value));
        }));
    }
    for handle in handles {
        rt.block_on(handle).unwrap();
    }
}

#[test]
fn dispatch_on_upper_cased_name() {
    let items = vec![bulk(b"set"), bulk(b"k"), bulk(b"v")];
    match Command::dispatch(&"SET".to_string(), &items).unwrap() {
        Command::Put { key, value } => {
            assert_eq!(key, "k");
            assert_eq!(value, b"v");
        }
        _ => panic!("expected SET command"),
    }
    let err = Command::dispatch(&"set".to_string(), &items).err().unwrap();
    assert_eq!(err, "unknown command 'set'");
    let short = vec![bulk(b"GET")];
    assert_eq!(Command::dispatch(&"GET".to_string(), &short).err().unwrap(), "GET expects key");
}

#[test]
fn default_store_is_empty() {
    let db = Db::default();
    assert_eq!(db.get("k"), None);
}
