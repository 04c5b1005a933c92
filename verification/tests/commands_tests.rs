//! Tests of the command model: reading commands out of frames and writing
//! them back.

use mini_redis::commands::get::Get;
use mini_redis::commands::list::Push;
use mini_redis::commands::set::SetCommand;
use mini_redis::commands::watch::{Watch, WatchResult};
use mini_redis::commands::{Command, CommandCreationError};
use mini_redis::database::Operation;
use mini_redis::resp::{ConversionFailed, Type, TypeConsumer, TypeConsumerError};

#[test]
fn get_from_works() {
    let mut tc = TypeConsumer::new(Type::BulkString(b"Hello".to_vec()));
    let get = Get::from(&mut tc).unwrap();
    assert_eq!(
        get,
        Get {
            key: "Hello".into()
        }
    );
    let mut tc = TypeConsumer::new(Type::Null);
    let get = Get::from(&mut tc);
    assert_eq!(
        get,
        Err(CommandCreationError::InvalidFrame(
            TypeConsumerError::ConversionFailed(ConversionFailed {
                from: "Null".into(),
                to: "String"
            }),
            "key"
        ))
    );
}

#[test]
fn get_into_works() {
    let get = Get {
        key: "Hello".into(),
    };
    let t: Type = get.into_type();
    let expected = Type::Array(vec![
        Type::BulkString(b"GET".to_vec()),
        Type::BulkString(b"Hello".to_vec()),
    ]);
    assert_eq!(t, expected);
}

#[test]
fn command_creation_get_works() {
    let get_command = vec![
        Type::SimpleString("GET".into()),
        Type::SimpleString("Hello".into()),
    ];
    let mut t = TypeConsumer::new(Type::Array(get_command));
    assert_eq!(
        Command::new(&mut t).unwrap(),
        Command::Get(Get {
            key: "Hello".into()
        })
    );
}

#[test]
fn command_creation_set_works() {
    let set_command = vec![
        Type::SimpleString("SET".into()),
        Type::SimpleString("Hello".into()),
        Type::SimpleString("World".into()),
    ];
    let mut t = TypeConsumer::new(Type::Array(set_command));
    assert_eq!(
        Command::new(&mut t).unwrap(),
        Command::SetCmd(SetCommand {
            key: "Hello".into(),
            value: "World".into(),
        })
    );
}

#[test]
fn command_creation_unsupported_cmd_works() {
    let set_command = vec![
        Type::SimpleString("RANDOM".into()),
        Type::SimpleString("World".into()),
    ];
    let mut t = TypeConsumer::new(Type::Array(set_command));
    assert_eq!(
        Command::new(&mut t),
        Err(CommandCreationError::UnSupportedCommand)
    );
}

#[test]
fn set_from_works() {
    let mut tc = TypeConsumer::new(Type::Array(vec![
        Type::BulkString(b"Hello".to_vec()),
        Type::BulkString(b"World".to_vec()),
    ]));
    let set = SetCommand::from(&mut tc).unwrap();
    assert_eq!(
        set,
        SetCommand {
            key: "Hello".into(),
            value: "World".into()
        }
    );
    let mut tc = TypeConsumer::new(Type::Array(vec![]));
    let set = SetCommand::from(&mut tc);
    assert_eq!(set, Err(CommandCreationError::MissingField("key".into())));
    let mut tc = TypeConsumer::new(Type::Array(vec![Type::BulkString(b"Hello".to_vec())]));
    let set = SetCommand::from(&mut tc);
    assert_eq!(set, Err(CommandCreationError::MissingField("key".into())));
}

#[test]
fn set_into_works() {
    let set = SetCommand {
        key: "Hello".into(),
        value: "World".into(),
    };
    let t: Type = set.into_type();
    let expected = Type::Array(vec![
        Type::BulkString(b"SET".to_vec()),
        Type::BulkString(b"Hello".to_vec()),
        Type::BulkString(b"World".to_vec()),
    ]);
    assert_eq!(t, expected);
}

#[test]
fn push_from_works() {
    let mut tc = TypeConsumer::new(Type::Array(vec![
        Type::BulkString(b"list".to_vec()),
        Type::BulkString(b"a".to_vec()),
        Type::BulkString(b"b".to_vec()),
    ]));
    let push = Push::from(&mut tc).unwrap();
    assert_eq!(
        push,
        Push {
            list_name: "list".into(),
            values: vec!["a".into(), "b".into()],
        }
    );
    // A PUSH may carry no values at all.
    let mut tc = TypeConsumer::new(Type::Array(vec![Type::BulkString(b"list".to_vec())]));
    let push = Push::from(&mut tc).unwrap();
    assert_eq!(
        push,
        Push {
            list_name: "list".into(),
            values: vec![],
        }
    );
    // A missing list name is reported.
    let mut tc = TypeConsumer::new(Type::Array(vec![]));
    let push = Push::from(&mut tc);
    assert_eq!(
        push,
        Err(CommandCreationError::MissingField("list name".into()))
    );
}

#[test]
fn watch_from_works() {
    let mut tc = TypeConsumer::new(Type::Array(vec![
        Type::BulkString(b"k".to_vec()),
        Type::Integer(2),
    ]));
    let watch = Watch::from(&mut tc).unwrap();
    assert_eq!(
        watch,
        Watch {
            key: "k".into(),
            operation: Operation::Update,
        }
    );
    // Unknown codes read as All.
    let mut tc = TypeConsumer::new(Type::Array(vec![
        Type::BulkString(b"k".to_vec()),
        Type::Integer(9),
    ]));
    let watch = Watch::from(&mut tc).unwrap();
    assert_eq!(watch.operation, Operation::All);
    // A missing operation is reported.
    let mut tc = TypeConsumer::new(Type::Array(vec![Type::BulkString(b"k".to_vec())]));
    let watch = Watch::from(&mut tc);
    assert_eq!(
        watch,
        Err(CommandCreationError::MissingField("operation".into()))
    );
}

#[test]
fn command_round_trip_works() {
    // Every supported command decodes back from its own request frame.
    let commands = vec![
        Command::Get(Get { key: "k".into() }),
        Command::SetCmd(SetCommand {
            key: "k".into(),
            value: "v".into(),
        }),
        Command::Push(Push {
            list_name: "l".into(),
            values: vec!["a".into(), "b".into()],
        }),
        Command::Watch(Watch {
            key: "k".into(),
            operation: Operation::All,
        }),
    ];
    let expected = vec![
        Command::Get(Get { key: "k".into() }),
        Command::SetCmd(SetCommand {
            key: "k".into(),
            value: "v".into(),
        }),
        Command::Push(Push {
            list_name: "l".into(),
            values: vec!["a".into(), "b".into()],
        }),
        Command::Watch(Watch {
            key: "k".into(),
            operation: Operation::All,
        }),
    ];
    for (c, e) in commands.into_iter().zip(expected.into_iter()) {
        let mut tc = TypeConsumer::new(c.into_type());
        assert_eq!(Command::new(&mut tc).unwrap(), e);
    }
}

#[test]
fn watch_result_round_trip_works() {
    let wr = WatchResult {
        key: "k".into(),
        operation: Operation::Update,
        before: Some(Type::SimpleString("old".into())),
        after: Type::SimpleString("new".into()),
    };
    let t = wr.into_type();
    assert_eq!(
        t.into_bytes(),
        b"*4\r\n+k\r\n:2\r\n+old\r\n+new\r\n".to_vec()
    );
    let wr = WatchResult {
        key: "k".into(),
        operation: Operation::Addition,
        before: None,
        after: Type::SimpleString("v".into()),
    };
    let back = WatchResult::from_type(wr.into_type()).unwrap();
    assert_eq!(back.key, "k".to_string());
    assert_eq!(back.operation, Operation::Addition);
    assert!(back.before.is_none());
    assert_eq!(back.after, Type::SimpleString("v".into()));
}

#[test]
fn error_render_works() {
    assert_eq!(
        CommandCreationError::UnSupportedCommand.render(),
        "UnSupportedCommand".to_string()
    );
    assert_eq!(
        CommandCreationError::MissingField("key".into()).render(),
        "MissingField(\"key\")".to_string()
    );
    assert_eq!(
        CommandCreationError::InvalidFrame(TypeConsumerError::Empty, "key").render(),
        "InvalidFrame(Empty, \"key\")".to_string()
    );
}
