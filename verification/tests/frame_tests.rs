use bytes::Bytes;
use redis_kv::resp::frame::RESPFrame;
use redis_kv::resp::parser::RESPMessage;
use redis_kv::resp::token::RESPToken;

#[test]
fn should_convert_frame_to_and_from_simple_string() {
    let message = vec![RESPToken::SimpleString("PING".to_owned())];

    let simple_frame = RESPFrame::from(message);
    assert!(matches!(
        &simple_frame,
        RESPFrame::Simple(s) if s == "PING"
    ));

    let back_to_message: RESPMessage = simple_frame.into_message();
    assert!(matches!(
        back_to_message.as_slice(),
        [RESPToken::SimpleString(s)] if s == "PING"
    ));
}

#[test]
fn should_convert_frame_to_and_from_error_string() {
    let message = vec![RESPToken::Error("ERR".to_owned())];

    let error_frame = RESPFrame::from(message);
    assert!(matches!(
        &error_frame,
        RESPFrame::Error(s) if s == "ERR"
    ));

    let back_to_message: RESPMessage = error_frame.into_message();
    assert!(matches!(
        back_to_message.as_slice(),
        [RESPToken::Error(s)] if s == "ERR"
    ));
}

fn convert_integer_there_and_back(int: i64) {
    let message = vec![RESPToken::Integer(int)];

    let int_frame = RESPFrame::from(message);
    assert!(matches!(
        &int_frame,
        RESPFrame::Integer(int_match) if *int_match == int
    ));

    let back_to_message: RESPMessage = int_frame.into_message();
    assert!(matches!(
        back_to_message.as_slice(),
        [RESPToken::Integer(int_match)] if *int_match == int
    ));
}

#[test]
fn should_convert_frame_to_and_from_integer() {
    convert_integer_there_and_back(-1);
    convert_integer_there_and_back(0);
    convert_integer_there_and_back(1);
    convert_integer_there_and_back(4000000);
}

#[test]
fn should_convert_frame_to_and_from_null() {
    let message = vec![RESPToken::Null];

    let null_frame = RESPFrame::from(message);
    assert!(matches!(null_frame, RESPFrame::Null));

    let back_to_message: RESPMessage = null_frame.into_message();
    assert!(matches!(back_to_message.as_slice(), [RESPToken::Null]));
}

#[test]
fn should_convert_frame_to_and_from_bulk_string() {
    let message = vec![RESPToken::BulkString(4, Bytes::from("BULK"))];

    let bulk_frame = RESPFrame::from(message);
    assert!(matches!(
        &bulk_frame,
        RESPFrame::Bulk(s) if s == "BULK"
    ));

    let back_to_message: RESPMessage = bulk_frame.into_message();
    assert!(matches!(
        back_to_message.as_slice(),
        [RESPToken::BulkString(4, s)] if s == "BULK"
    ));
}

#[test]
fn should_convert_frame_to_and_from_array() {
    let message = vec![
        RESPToken::ArraySize(5),
        RESPToken::SimpleString("PING".to_owned()),
        RESPToken::Error("ERR bad".to_owned()),
        RESPToken::Integer(42),
        RESPToken::BulkString(4, Bytes::from("BULK")),
        RESPToken::Null,
    ];

    let bulk_frame = RESPFrame::from(message);
    assert!(matches!(
        &bulk_frame,
        RESPFrame::Array(array) if matches!(
            array.as_slice(),
            [
                RESPFrame::Simple(_),
                RESPFrame::Error(_),
                RESPFrame::Integer(_),
                RESPFrame::Bulk(_),
                RESPFrame::Null,
            ]
        )
    ));

    let back_to_message: RESPMessage = bulk_frame.into_message();
    assert!(matches!(
        back_to_message.as_slice(),
        [
            RESPToken::ArraySize(5),
            RESPToken::SimpleString(simple),
            RESPToken::Error(error),
            RESPToken::Integer(42),
            RESPToken::BulkString(4, bulk),
            RESPToken::Null
        ] if simple == "PING"
            && error == "ERR bad"
            && bulk == "BULK"
    ));
}

#[test]
fn should_keep_the_order_of_array_items() {
    let frame = RESPFrame::Array(vec![
        RESPFrame::Integer(1),
        RESPFrame::Integer(2),
        RESPFrame::Integer(3),
    ]);
    let message = frame.into_message();
    assert!(matches!(
        message.as_slice(),
        [
            RESPToken::ArraySize(3),
            RESPToken::Integer(1),
            RESPToken::Integer(2),
            RESPToken::Integer(3)
        ]
    ));
    let back = RESPFrame::from(message);
    assert!(matches!(
        &back,
        RESPFrame::Array(items) if matches!(
            items.as_slice(),
            [RESPFrame::Integer(1), RESPFrame::Integer(2), RESPFrame::Integer(3)]
        )
    ));
}

#[test]
fn should_convert_empty_array() {
    let frame = RESPFrame::from(vec![RESPToken::ArraySize(0)]);
    assert!(matches!(&frame, RESPFrame::Array(items) if items.is_empty()));
    let message = frame.into_message();
    assert!(matches!(message.as_slice(), [RESPToken::ArraySize(0)]));
}

#[test]
fn should_give_bulk_token_its_true_length() {
    let token = RESPToken::from(RESPFrame::Bulk(Bytes::from("hello world!")));
    assert!(matches!(token, RESPToken::BulkString(12, s) if s == "hello world!"));
    let empty = RESPToken::from(RESPFrame::Bulk(Bytes::new()));
    assert!(matches!(empty, RESPToken::BulkString(0, s) if s.is_empty()));
}

#[test]
fn should_lift_each_scalar_token() {
    assert!(matches!(
        RESPFrame::from_token(RESPToken::SimpleString("OK".to_owned())),
        RESPFrame::Simple(s) if s == "OK"
    ));
    assert!(matches!(
        RESPFrame::from_token(RESPToken::Error("ERR".to_owned())),
        RESPFrame::Error(s) if s == "ERR"
    ));
    assert!(matches!(
        RESPFrame::from_token(RESPToken::Integer(-7)),
        RESPFrame::Integer(-7)
    ));
    assert!(matches!(
        RESPFrame::from_token(RESPToken::BulkString(2, Bytes::from("hi"))),
        RESPFrame::Bulk(s) if s == "hi"
    ));
    assert!(matches!(
        RESPFrame::from_token(RESPToken::Null),
        RESPFrame::Null
    ));
}

#[test]
fn should_tell_valid_frames() {
    assert!(RESPFrame::Null.is_valid());
    assert!(RESPFrame::Bulk(Bytes::from("x")).is_valid());
    assert!(RESPFrame::Array(vec![RESPFrame::Null, RESPFrame::Integer(1)]).is_valid());
    assert!(RESPFrame::Array(vec![]).is_valid());
    assert!(!RESPFrame::Array(vec![RESPFrame::Array(vec![])]).is_valid());
    assert!(!RESPFrame::Array(vec![]).is_valid_scalar());
    assert!(RESPFrame::Simple("x".to_owned()).is_valid_scalar());
}

#[test]
fn should_clone_frames() {
    let frame = RESPFrame::Array(vec![
        RESPFrame::Bulk(Bytes::from("SET")),
        RESPFrame::Simple("s".to_owned()),
        RESPFrame::Array(vec![RESPFrame::Integer(5)]),
    ]);
    let copy = frame.clone();
    assert!(matches!(
        &copy,
        RESPFrame::Array(items) if matches!(
            items.as_slice(),
            [RESPFrame::Bulk(b), RESPFrame::Simple(s), RESPFrame::Array(inner)]
                if b == "SET" && s == "s" && matches!(inner.as_slice(), [RESPFrame::Integer(5)])
        )
    ));
}
