//! End-to-end scenarios over the wire bytes: each request is parsed from
//! its literal RESP form, run through the server's dispatch, and the reply
//! compared byte for byte.

use mini_redis::database::Database;
use mini_redis::parse::Parse;
use mini_redis::resp::Type;
use mini_redis::server::respond;

fn roundtrip(db: &mut Database, request: &[u8], subscriber: u64) -> (Vec<u8>, Vec<(u64, Vec<u8>)>) {
    let parse = Parse::new();
    let mut pos: usize = 0;
    let frame = parse.parse_next(request, &mut pos).unwrap();
    assert_eq!(pos, request.len());
    let (reply, deliveries) = respond(db, frame, subscriber);
    let deliveries = deliveries
        .into_iter()
        .map(|d| (d.subscriber, d.payload.into_bytes()))
        .collect();
    (reply.into_bytes(), deliveries)
}

#[test]
fn get_on_empty_store() {
    let mut db = Database::new();
    let (reply, _) = roundtrip(&mut db, b"*2\r\n$3\r\nGET\r\n$3\r\nfoo\r\n", 1);
    assert_eq!(reply, b"$-1\r\n".to_vec());
}

#[test]
fn set_then_get() {
    let mut db = Database::new();
    let (reply, _) = roundtrip(&mut db, b"*3\r\n$3\r\nSET\r\n$3\r\nfoo\r\n$3\r\nbar\r\n", 1);
    assert_eq!(reply, b"+Ok\r\n".to_vec());
    let (reply, _) = roundtrip(&mut db, b"*2\r\n$3\r\nGET\r\n$3\r\nfoo\r\n", 1);
    assert_eq!(reply, b"+bar\r\n".to_vec());
}

#[test]
fn push_twice_types_coexist() {
    let mut db = Database::new();
    let (reply, _) = roundtrip(&mut db, b"*3\r\n$4\r\nPUSH\r\n$1\r\nl\r\n$1\r\na\r\n", 1);
    assert_eq!(reply, b":1\r\n".to_vec());
    let (reply, _) = roundtrip(
        &mut db,
        b"*4\r\n$4\r\nPUSH\r\n$1\r\nl\r\n$1\r\nb\r\n$1\r\nc\r\n",
        1,
    );
    assert_eq!(reply, b":3\r\n".to_vec());
}

#[test]
fn push_onto_string_key() {
    let mut db = Database::new();
    let (reply, _) = roundtrip(&mut db, b"*3\r\n$3\r\nSET\r\n$3\r\nfoo\r\n$3\r\nbar\r\n", 1);
    assert_eq!(reply, b"+Ok\r\n".to_vec());
    let (reply, _) = roundtrip(&mut db, b"*3\r\n$4\r\nPUSH\r\n$3\r\nfoo\r\n$1\r\nx\r\n", 1);
    assert_eq!(reply, b"-key `foo` exists and it is not a list\r\n".to_vec());
}

#[test]
fn watch_then_remote_set() {
    let mut db = Database::new();
    // Client A subscribes.
    let (reply, deliveries) = roundtrip(&mut db, b"*3\r\n$5\r\nWATCH\r\n$1\r\nk\r\n$1\r\n4\r\n", 10);
    assert_eq!(reply, b"+Ok\r\n".to_vec());
    assert_eq!(deliveries.len(), 0);
    // Client B sets the watched key.
    let (reply, deliveries) = roundtrip(&mut db, b"*3\r\n$3\r\nSET\r\n$1\r\nk\r\n$1\r\nv\r\n", 20);
    assert_eq!(reply, b"+Ok\r\n".to_vec());
    assert_eq!(deliveries.len(), 1);
    assert_eq!(deliveries[0].0, 10);
    assert_eq!(deliveries[0].1, b"*4\r\n+k\r\n:1\r\n$-1\r\n+v\r\n".to_vec());
}

#[test]
fn watch_then_local_set_update() {
    let mut db = Database::new();
    let (reply, _) = roundtrip(&mut db, b"*3\r\n$5\r\nWATCH\r\n$1\r\nk\r\n$1\r\n4\r\n", 10);
    assert_eq!(reply, b"+Ok\r\n".to_vec());
    let (reply, _) = roundtrip(&mut db, b"*3\r\n$3\r\nSET\r\n$1\r\nk\r\n$1\r\nv\r\n", 20);
    assert_eq!(reply, b"+Ok\r\n".to_vec());
    // A second set reports an update carrying the old and the new value.
    let (reply, deliveries) = roundtrip(&mut db, b"*3\r\n$3\r\nSET\r\n$1\r\nk\r\n$1\r\nw\r\n", 20);
    assert_eq!(reply, b"+Ok\r\n".to_vec());
    assert_eq!(deliveries.len(), 1);
    assert_eq!(deliveries[0].0, 10);
    assert_eq!(deliveries[0].1, b"*4\r\n+k\r\n:2\r\n+v\r\n+w\r\n".to_vec());
}

#[test]
fn undecodable_frame_earns_error_reply() {
    let mut db = Database::new();
    let (reply, deliveries) = roundtrip(&mut db, b"*1\r\n$7\r\nNOTHING\r\n", 1);
    assert_eq!(reply, b"-Error: UnSupportedCommand\r\n".to_vec());
    assert_eq!(deliveries.len(), 0);
    let (reply, _) = roundtrip(&mut db, b"*1\r\n$3\r\nGET\r\n", 1);
    assert_eq!(reply, b"-Error: MissingField(\"key\")\r\n".to_vec());
}
