//! Tests of the frame type: conversions out of a consumer and the wire
//! encoding.

use mini_redis::resp::{ConversionFailed, Type, TypeConsumer, TypeConsumerError};

#[test]
fn next_string_works() {
    // String
    let t = Type::SimpleString("Hello".into());
    let mut type_consumer = TypeConsumer::new(t);
    assert_eq!(type_consumer.next_string(), Ok("Hello".to_string()));
    assert_eq!(type_consumer.next_string(), Err(TypeConsumerError::Empty));

    // Bulk string
    let t = Type::BulkString(b"Hello".to_vec());
    let mut type_consumer = TypeConsumer::new(t);
    assert_eq!(type_consumer.next_string(), Ok("Hello".to_string()));
    assert_eq!(type_consumer.next_string(), Err(TypeConsumerError::Empty));

    // Integer
    let t = Type::Integer(34);
    let mut type_consumer = TypeConsumer::new(t);
    assert_eq!(
        type_consumer.next_bytes(),
        Err(TypeConsumerError::ConversionFailed(ConversionFailed {
            from: "Integer(34)".into(),
            to: "Bytes"
        }))
    );

    // Array
    let t = Type::Array(Vec::new());
    let mut type_consumer = TypeConsumer::new(t);
    assert_eq!(type_consumer.next_bytes(), Err(TypeConsumerError::Empty));

    let t = Type::Array(vec![Type::SimpleString("Hello".into())]);
    let mut type_consumer = TypeConsumer::new(t);
    assert_eq!(type_consumer.next_string(), Ok("Hello".to_string()));
    assert_eq!(type_consumer.next_string(), Err(TypeConsumerError::Empty));
    // Null
    let t = Type::Null;
    let mut type_consumer = TypeConsumer::new(t);
    assert_eq!(
        type_consumer.next_string(),
        Err(TypeConsumerError::ConversionFailed(ConversionFailed {
            from: "Null".into(),
            to: "String"
        }))
    );
}

#[test]
fn next_integer_works() {
    // String
    let t = Type::SimpleString("Hello".into());
    let mut type_consumer = TypeConsumer::new(t);
    assert_eq!(
        type_consumer.next_integer(),
        Err(TypeConsumerError::ConversionFailed(ConversionFailed {
            from: "SimpleString(\"Hello\")".into(),
            to: "Integer"
        }))
    );

    // Bulk string
    let t = Type::BulkString(b"Hello".to_vec());
    let mut type_consumer = TypeConsumer::new(t);
    assert_eq!(
        type_consumer.next_integer(),
        Err(TypeConsumerError::ConversionFailed(ConversionFailed {
            from: "BulkString([72, 101, 108, 108, 111])".into(),
            to: "Integer"
        }))
    );

    // Integer
    let t = Type::Integer(34);
    let mut type_consumer = TypeConsumer::new(t);
    assert_eq!(type_consumer.next_integer(), Ok(34));
    assert_eq!(type_consumer.next_integer(), Err(TypeConsumerError::Empty));

    // Array
    let t = Type::Array(Vec::new());
    let mut type_consumer = TypeConsumer::new(t);
    assert_eq!(type_consumer.next_integer(), Err(TypeConsumerError::Empty));

    let t = Type::Array(vec![Type::Integer(34)]);
    let mut type_consumer = TypeConsumer::new(t);
    assert_eq!(type_consumer.next_integer(), Ok(34));
    assert_eq!(type_consumer.next_integer(), Err(TypeConsumerError::Empty));
    // Null
    let t = Type::Null;
    let mut type_consumer = TypeConsumer::new(t);
    assert_eq!(
        type_consumer.next_string(),
        Err(TypeConsumerError::ConversionFailed(ConversionFailed {
            from: "Null".into(),
            to: "String"
        }))
    );
}

#[test]
fn next_bytes_works() {
    // String
    let t = Type::SimpleString("Hello".into());
    let mut type_consumer = TypeConsumer::new(t);
    assert_eq!(type_consumer.next_bytes(), Ok("Hello".as_bytes().to_vec()));
    assert_eq!(type_consumer.next_integer(), Err(TypeConsumerError::Empty));
    // Bulk string
    let t = Type::BulkString(b"Hello".to_vec());
    let mut type_consumer = TypeConsumer::new(t);
    assert_eq!(type_consumer.next_bytes(), Ok("Hello".as_bytes().to_vec()));
    assert_eq!(type_consumer.next_bytes(), Err(TypeConsumerError::Empty));

    // Integer
    let t = Type::Integer(34);
    let mut type_consumer = TypeConsumer::new(t);
    assert_eq!(
        type_consumer.next_bytes(),
        Err(TypeConsumerError::ConversionFailed(ConversionFailed {
            from: "Integer(34)".into(),
            to: "Bytes"
        }))
    );

    // Array
    let t = Type::Array(Vec::new());
    let mut type_consumer = TypeConsumer::new(t);
    assert_eq!(type_consumer.next_bytes(), Err(TypeConsumerError::Empty));

    let t = Type::Array(vec![Type::BulkString(b"Hello".to_vec())]);
    let mut type_consumer = TypeConsumer::new(t);
    assert_eq!(type_consumer.next_bytes(), Ok("Hello".as_bytes().to_vec()));
    assert_eq!(type_consumer.next_bytes(), Err(TypeConsumerError::Empty));
    // Null
    let t = Type::Null;
    let mut type_consumer = TypeConsumer::new(t);
    assert_eq!(
        type_consumer.next_string(),
        Err(TypeConsumerError::ConversionFailed(ConversionFailed {
            from: "Null".into(),
            to: "String"
        }))
    );
}

#[test]
fn into_bytes_works() {
    // String
    assert_eq!(
        &Type::SimpleString("Ok".into()).into_bytes()[..],
        b"+Ok\r\n"
    );
    // String
    assert_eq!(&Type::Error("Ok".into()).into_bytes()[..], b"-Ok\r\n");
    // String
    assert_eq!(
        &Type::BulkString("Ok".into()).into_bytes()[..],
        b"$2\r\nOk\r\n",
    );
    // String
    assert_eq!(&Type::Null.into_bytes()[..], b"$-1\r\n");
    // Array
    assert_eq!(
        &Type::Array(vec![
            Type::BulkString("Ok".into()),
            Type::BulkString("Ok".into()),
            Type::Null,
            Type::Error("Ok".into()),
            Type::SimpleString("Ok".into())
        ])
        .into_bytes()[..],
        b"*5\r\n$2\r\nOk\r\n$2\r\nOk\r\n$-1\r\n-Ok\r\n+Ok\r\n"
    );
}

#[test]
fn into_bytes_integer_works() {
    assert_eq!(&Type::Integer(1000).into_bytes()[..], b":1000\r\n");
    assert_eq!(&Type::Integer(-42).into_bytes()[..], b":-42\r\n");
    assert_eq!(
        &Type::Integer(i64::MIN).into_bytes()[..],
        b":-9223372036854775808\r\n"
    );
}

#[test]
fn next_type_works() {
    let t = Type::Array(vec![Type::Integer(7), Type::Null]);
    let mut type_consumer = TypeConsumer::new(t);
    assert_eq!(type_consumer.next_type(), Ok(Type::Integer(7)));
    assert_eq!(type_consumer.next_type(), Ok(Type::Null));
    assert_eq!(type_consumer.next_type(), Err(TypeConsumerError::Empty));
}
