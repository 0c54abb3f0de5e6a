use bytes::Bytes;
use redis_kv::resp::token::RESPToken;

#[test]
fn should_serialise_null() {
    assert_eq!("$-1\r\n", RESPToken::Null.to_string())
}

#[test]
fn should_serialise_simple_string() {
    assert_eq!("+PING\r\n", RESPToken::SimpleString("PING".to_owned()).to_string());
    assert_eq!("+\r\n", RESPToken::SimpleString("".to_owned()).to_string());
    assert_eq!("+ \r\n", RESPToken::SimpleString(" ".to_owned()).to_string());
    assert_eq!(
        "+Hello world\r\n",
        RESPToken::SimpleString("Hello world".to_owned()).to_string()
    );
}

#[test]
fn should_serialise_error() {
    assert_eq!("-ERR\r\n", RESPToken::Error("ERR".to_owned()).to_string());
    assert_eq!(
        "-ERR bad message\r\n",
        RESPToken::Error("ERR bad message".to_owned()).to_string()
    );
    assert_eq!("-\r\n", RESPToken::Error("".to_owned()).to_string());
}

#[test]
fn should_serialise_int() {
    assert_eq!(":0\r\n", RESPToken::Integer(0).to_string());
    assert_eq!(":-10\r\n", RESPToken::Integer(-10).to_string());
    assert_eq!(":23\r\n", RESPToken::Integer(23).to_string());
}

#[test]
fn should_serialise_extreme_ints() {
    assert_eq!(
        ":9223372036854775807\r\n",
        RESPToken::Integer(i64::MAX).to_string()
    );
    assert_eq!(
        ":-9223372036854775808\r\n",
        RESPToken::Integer(i64::MIN).to_string()
    );
    assert_eq!(":-1\r\n", RESPToken::Integer(-1).to_string());
    assert_eq!(":10\r\n", RESPToken::Integer(10).to_string());
    assert_eq!(":1000\r\n", RESPToken::Integer(1000).to_string());
}

#[test]
fn should_serialise_bulk_string() {
    assert_eq!(
        "$0\r\n\r\n",
        RESPToken::BulkString(0, Bytes::from("".to_owned())).to_string()
    );
    assert_eq!(
        "$1\r\na\r\n",
        RESPToken::BulkString(1, Bytes::from("a".to_owned())).to_string()
    );
    assert_eq!(
        "$5\r\nhello\r\n",
        RESPToken::BulkString(5, Bytes::from("hello".to_owned())).to_string()
    );
    assert_eq!(
        "$12\r\nhello world!\r\n",
        RESPToken::BulkString(12, Bytes::from("hello world!".to_owned())).to_string()
    );
}

#[test]
fn should_serialise_array() {
    assert_eq!("*0\r\n", RESPToken::ArraySize(0).to_string());
    assert_eq!("*1\r\n", RESPToken::ArraySize(1).to_string());
    assert_eq!("*5\r\n", RESPToken::ArraySize(5).to_string());
    assert_eq!("*4294967295\r\n", RESPToken::ArraySize(u32::MAX).to_string());
}

#[test]
fn should_serialise_text_beyond_ascii() {
    assert_eq!(
        "+h\u{e9}llo \u{4e16}\u{754c}\r\n",
        RESPToken::SimpleString("h\u{e9}llo \u{4e16}\u{754c}".to_owned()).to_string()
    );
    assert_eq!(
        "+h\u{e9}llo".as_bytes(),
        &RESPToken::SimpleString("h\u{e9}llo".to_owned()).to_bytes()[..7]
    );
}

#[test]
fn should_serialise_bulk_that_is_not_text() {
    let token = RESPToken::BulkString(3, Bytes::from(vec![0xff, 0x00, 0xfe]));
    assert_eq!(
        vec![b'$', b'3', b'\r', b'\n', 0xff, 0x00, 0xfe, b'\r', b'\n'],
        token.to_bytes()
    );
}

#[test]
fn should_append_wire_form_to_what_is_there() {
    let mut out = b"+OK\r\n".to_vec();
    RESPToken::Integer(7).write_to(&mut out);
    RESPToken::Null.write_to(&mut out);
    assert_eq!(b"+OK\r\n:7\r\n$-1\r\n".to_vec(), out);
}
