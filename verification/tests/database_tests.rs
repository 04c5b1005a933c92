//! Tests of the store: reads after writes, list growth, and the change
//! events a write produces.

use mini_redis::commands::get::Get;
use mini_redis::commands::list::Push;
use mini_redis::commands::set::SetCommand;
use mini_redis::commands::watch::Watch;
use mini_redis::database::{Database, Operation};
use mini_redis::resp::Type;

#[test]
fn set_then_get_works() {
    let mut db = Database::new();
    let (reply, deliveries) = db.set(SetCommand {
        key: "foo".into(),
        value: "bar".into(),
    });
    assert_eq!(reply, Type::SimpleString("Ok".into()));
    assert_eq!(deliveries.len(), 0);
    let got = db.get(Get { key: "foo".into() });
    assert_eq!(got, Type::SimpleString("bar".into()));
}

#[test]
fn get_absent_is_null() {
    let db = Database::new();
    assert_eq!(db.get(Get { key: "nope".into() }), Type::Null);
}

#[test]
fn set_overwrites() {
    let mut db = Database::new();
    db.set(SetCommand {
        key: "k".into(),
        value: "one".into(),
    });
    db.set(SetCommand {
        key: "k".into(),
        value: "two".into(),
    });
    assert_eq!(db.get(Get { key: "k".into() }), Type::SimpleString("two".into()));
}

#[test]
fn push_length_works() {
    // The reply counts the whole list after every push.
    let mut db = Database::new();
    let r = db.push(Push {
        list_name: "l".into(),
        values: vec!["a".into()],
    });
    assert_eq!(r, Type::Integer(1));
    let r = db.push(Push {
        list_name: "l".into(),
        values: vec!["b".into(), "c".into()],
    });
    assert_eq!(r, Type::Integer(3));
    let got = db.get(Get { key: "l".into() });
    assert_eq!(
        got,
        Type::Array(vec![
            Type::SimpleString("a".into()),
            Type::SimpleString("b".into()),
            Type::SimpleString("c".into()),
        ])
    );
}

#[test]
fn push_onto_string_is_refused() {
    let mut db = Database::new();
    db.set(SetCommand {
        key: "foo".into(),
        value: "bar".into(),
    });
    let r = db.push(Push {
        list_name: "foo".into(),
        values: vec!["x".into()],
    });
    assert_eq!(
        r,
        Type::Error("key `foo` exists and it is not a list".into())
    );
    // The stored string is untouched.
    assert_eq!(db.get(Get { key: "foo".into() }), Type::SimpleString("bar".into()));
}

#[test]
fn watch_then_set_delivers() {
    // Every subscription under a key receives exactly one event per set.
    let mut db = Database::new();
    let reply = db.watch(
        Watch {
            key: "k".into(),
            operation: Operation::All,
        },
        7,
    );
    assert_eq!(reply, Type::SimpleString("Ok".into()));
    let (reply, mut deliveries) = db.set(SetCommand {
        key: "k".into(),
        value: "v".into(),
    });
    assert_eq!(reply, Type::SimpleString("Ok".into()));
    assert_eq!(deliveries.len(), 1);
    let d = deliveries.remove(0);
    assert_eq!(d.subscriber, 7);
    assert_eq!(d.payload.into_bytes(), b"*4\r\n+k\r\n:1\r\n$-1\r\n+v\r\n".to_vec());
}

#[test]
fn second_set_reports_update() {
    let mut db = Database::new();
    db.watch(
        Watch {
            key: "k".into(),
            operation: Operation::All,
        },
        7,
    );
    db.set(SetCommand {
        key: "k".into(),
        value: "v".into(),
    });
    let (_, mut deliveries) = db.set(SetCommand {
        key: "k".into(),
        value: "w".into(),
    });
    assert_eq!(deliveries.len(), 1);
    let d = deliveries.remove(0);
    assert_eq!(d.payload.into_bytes(), b"*4\r\n+k\r\n:2\r\n+v\r\n+w\r\n".to_vec());
}

#[test]
fn every_subscriber_hears_every_set() {
    let mut db = Database::new();
    db.watch(
        Watch {
            key: "k".into(),
            operation: Operation::Addition,
        },
        1,
    );
    db.watch(
        Watch {
            key: "k".into(),
            operation: Operation::Removal,
        },
        2,
    );
    // The filter is recorded but not enforced: both subscribers hear it.
    let (_, deliveries) = db.set(SetCommand {
        key: "k".into(),
        value: "v".into(),
    });
    assert_eq!(deliveries.len(), 2);
    assert_eq!(deliveries[0].subscriber, 1);
    assert_eq!(deliveries[1].subscriber, 2);
}

#[test]
fn set_other_key_delivers_nothing() {
    let mut db = Database::new();
    db.watch(
        Watch {
            key: "k".into(),
            operation: Operation::All,
        },
        7,
    );
    let (_, deliveries) = db.set(SetCommand {
        key: "other".into(),
        value: "v".into(),
    });
    assert_eq!(deliveries.len(), 0);
}

#[test]
fn operation_codes_round() {
    assert_eq!(Operation::from(1u8), Operation::Addition);
    assert_eq!(Operation::from(2u8), Operation::Update);
    assert_eq!(Operation::from(3u8), Operation::Removal);
    assert_eq!(Operation::from(4u8), Operation::All);
    assert_eq!(Operation::from(200u8), Operation::All);
    assert_eq!(Operation::Update.code(), 2);
}
