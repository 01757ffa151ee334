use bytes::BytesMut;
use kvwire::session::respond;
use kvwire::store::Db;
use std::sync::Arc;

fn send(db: &Arc<Db>, input: &[u8]) -> Option<Vec<u8>> {
    let mut buf = BytesMut::from(input);
    respond(&mut buf, db)
}

#[test]
fn get_set_del_scenario() {
    let db = Arc::new(Db::new());
    let get = b"*2\r\n$3\r\nGET\r\n$4\r\nkey1\r\n";
    let set = b"*3\r\n$3\r\nSET\r\n$4\r\nkey1\r\n$6\r\nvalue1\r\n";
    let del = b"*2\r\n$3\r\nDEL\r\n$4\r\nkey1\r\n";
    assert_eq!(send(&db, get), Some(b"$-1\r\n".to_vec()));
    assert_eq!(send(&db, set), Some(b"+OK\r\n".to_vec()));
    assert_eq!(send(&db, get), Some(b"$6\r\nvalue1\r\n".to_vec()));
    assert_eq!(send(&db, del), Some(b":1\r\n".to_vec()));
    assert_eq!(send(&db, del), Some(b":0\r\n".to_vec()));
}

#[test]
fn malformed_input_gets_error_reply() {
    let db = Arc::new(Db::new());
    assert_eq!(send(&db, b"!\r\n"), Some(b"-invalid frame format\r\n".to_vec()));
    assert_eq!(send(&db, b"+PING\r\n"), Some(b"-expected array\r\n".to_vec()));
    assert_eq!(
        send(&db, b"*1\r\n$4\r\nPING\r\n"),
        Some(b"-unknown command 'PING'\r\n".to_vec())
    );
    assert_eq!(db.get("PING"), None);
}

#[test]
fn invalid_bytes_do_not_block_the_connection() {
    let db = Arc::new(Db::new());
    db.set("k".to_string(), b"v".to_vec());
    let mut buf = BytesMut::from(&b"?x\r\n*2\r\n$3\r\nGET\r\n$1\r\nk\r\n"[..]);
    assert_eq!(respond(&mut buf, &db), Some(b"-invalid frame format\r\n".to_vec()));
    assert_eq!(respond(&mut buf, &db), Some(b"$1\r\nv\r\n".to_vec()));
    assert!(buf.is_empty());
    let mut unknown = BytesMut::from(&b"*2\r\n$3\r\nFOO\r\n$1\r\nk\r\n*2\r\n$3\r\nGET\r\n$1\r\nk\r\n"[..]);
    assert_eq!(respond(&mut unknown, &db), Some(b"-unknown command 'FOO'\r\n".to_vec()));
    assert_eq!(respond(&mut unknown, &db), Some(b"$1\r\nv\r\n".to_vec()));
    let mut no_line = BytesMut::from(&b"!abc"[..]);
    assert_eq!(respond(&mut no_line, &db), Some(b"-invalid frame format\r\n".to_vec()));
    assert!(no_line.is_empty());
}

#[test]
fn partial_request_waits_and_consumes_nothing() {
    let db = Arc::new(Db::new());
    let mut buf = BytesMut::from(&b"*2\r\n$3\r\nGET\r\n$4\r\nke"[..]);
    assert_eq!(respond(&mut buf, &db), None);
    assert_eq!(buf.len(), 19);
    buf.extend_from_slice(b"y1\r\n+x\r\n");
    assert_eq!(respond(&mut buf, &db), Some(b"$-1\r\n".to_vec()));
    assert_eq!(&buf[..], b"+x\r\n");
}
