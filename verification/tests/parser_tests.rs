use bytes::Bytes;
use redis_kv::resp::parser::{
    to_bytes, to_string, RESPMessage, RESPParseStatus, RESPParser, RESPParserError,
};
use redis_kv::resp::reader::RESPReader;
use redis_kv::resp::token::RESPToken;

fn reader_of(text: &str) -> RESPReader {
    RESPReader::new(text.as_bytes().to_vec())
}

#[test]
fn should_parse_simple() {
    let mut reader = reader_of("+PING\r\n");

    let simple_string_message: RESPMessage = RESPParser::parse(&mut reader).unwrap();

    assert!(matches!(
        simple_string_message.as_slice(),
        [RESPToken::SimpleString(s)] if s == "PING"
    ));
}

#[test]
fn should_parse_all_types() {
    let mut reader = reader_of("*5\r\n+string\r\n-error\r\n:10\r\n$-1\r\n$4\r\nbulk\r\n");

    let array_message: RESPMessage = RESPParser::parse(&mut reader).unwrap();

    assert!(matches!(
        array_message.as_slice(),
        [
            RESPToken::ArraySize(5),
            RESPToken::SimpleString(simple),
            RESPToken::Error(error),
            RESPToken::Integer(10),
            RESPToken::Null,
            RESPToken::BulkString(4, bulk),
        ] if simple == "string"
            && error == "error"
            && bulk == "bulk"
    ));
}

#[test]
fn should_only_parse_up_to_array_length() {
    let mut reader = reader_of("*2\r\n+many\r\n+things\r\n+to\r\n+say\r\n");

    let array_message: RESPMessage = RESPParser::parse(&mut reader).unwrap();

    assert_eq!(3, array_message.len());
    assert!(matches!(
        array_message.as_slice(),
        [
            RESPToken::ArraySize(2),
            RESPToken::SimpleString(first),
            RESPToken::SimpleString(second)
        ] if first == "many" && second == "things"
    ));
}

#[test]
fn should_not_parse_empty_buffer() {
    let mut reader = reader_of("");

    assert!(matches!(
        RESPParser::parse(&mut reader).err().unwrap(),
        RESPParserError::InvalidToken(_)
    ));
}

#[test]
fn should_not_accept_array_token_after_start() {
    let mut reader = reader_of("*2\r\n+hi\r\n*1\r\n+nested\r\n");

    assert!(matches!(
        RESPParser::parse(&mut reader).err().unwrap(),
        RESPParserError::InvalidArray(_)
    ));
}

#[test]
fn should_not_parse_incomplete_array() {
    let mut reader = reader_of("*2\r\n+hi\r\n");

    assert!(matches!(
        RESPParser::parse(&mut reader).err().unwrap(),
        RESPParserError::InvalidToken(_)
    ));
}

#[test]
fn should_not_parse_bad_integer() {
    let mut reader = reader_of("*1\r\n:one\r\n");

    assert!(matches!(
        RESPParser::parse(&mut reader).err().unwrap(),
        RESPParserError::BadIntParse(_)
    ));
}

#[test]
fn should_not_parse_bad_bulk_size() {
    let mut reader = reader_of("*1\r\n$-8\r\nnegative\r\n");

    assert!(matches!(
        RESPParser::parse(&mut reader).err().unwrap(),
        RESPParserError::BadIntParse(_)
    ));
}

#[test]
fn correctly_trims_token() {
    assert_eq!(b"4", RESPParser::trim_token(b"$4\r\n"));
    assert_eq!(b"1", RESPParser::trim_token(b"*1\r\n"));
    assert_eq!(b"", RESPParser::trim_token(b"+\r\n"));
    assert_eq!(b"PING", RESPParser::trim_token(b"+PING\r\n"));
}

#[test]
fn resp_message_to_string() {
    assert_eq!(
        "*2\r\n$7\r\nCOMMAND\r\n$4\r\nDOCS\r\n",
        to_string(vec![
            RESPToken::ArraySize(2),
            RESPToken::BulkString(7, Bytes::from("COMMAND".as_bytes())),
            RESPToken::BulkString(4, Bytes::from("DOCS".as_bytes())),
        ])
    );
}

#[test]
fn resp_message_to_bytes() {
    assert_eq!(
        b"*2\r\n$7\r\nCOMMAND\r\n$4\r\nDOCS\r\n".to_vec(),
        to_bytes(&vec![
            RESPToken::ArraySize(2),
            RESPToken::BulkString(7, Bytes::from("COMMAND".as_bytes())),
            RESPToken::BulkString(4, Bytes::from("DOCS".as_bytes())),
        ])
    );
    assert_eq!(Vec::<u8>::new(), to_bytes(&vec![]));
}

#[test]
fn should_report_errors_with_exact_payloads() {
    assert_eq!(
        RESPParserError::InvalidToken(0),
        RESPParser::parse(&mut reader_of("")).err().unwrap()
    );
    assert_eq!(
        RESPParserError::InvalidToken(9),
        RESPParser::parse(&mut reader_of("*2\r\n+hi\r\n")).err().unwrap()
    );
    assert_eq!(
        RESPParserError::InvalidArray(2),
        RESPParser::parse(&mut reader_of("*2\r\n+hi\r\n*1\r\n+nested\r\n"))
            .err()
            .unwrap()
    );
    assert_eq!(
        RESPParserError::BadIntParse(4),
        RESPParser::parse(&mut reader_of("*1\r\n:one\r\n")).err().unwrap()
    );
    assert_eq!(
        RESPParserError::BadIntParse(4),
        RESPParser::parse(&mut reader_of("*1\r\n$-8\r\nnegative\r\n"))
            .err()
            .unwrap()
    );
    assert_eq!(
        RESPParserError::BadRead(0),
        RESPParser::parse(&mut reader_of("+PIN")).err().unwrap()
    );
    assert_eq!(
        RESPParserError::BadRead(4),
        RESPParser::parse(&mut reader_of("*1\r\n$4\r\nbu")).err().unwrap()
    );
}

#[test]
fn should_reject_unknown_prefix_and_bare_terminator() {
    assert_eq!(
        RESPParserError::InvalidToken(0),
        RESPParser::parse(&mut reader_of("?what\r\n")).err().unwrap()
    );
    assert_eq!(
        RESPParserError::InvalidToken(0),
        RESPParser::parse(&mut reader_of("\r\n")).err().unwrap()
    );
    assert_eq!(
        RESPParserError::InvalidToken(4),
        RESPParser::parse(&mut reader_of("*1\r\nPING\r\n")).err().unwrap()
    );
}

#[test]
fn should_reject_bulk_with_wrong_terminator() {
    assert_eq!(
        RESPParserError::InvalidToken(0),
        RESPParser::parse(&mut reader_of("$3\r\nabcde\r\n")).err().unwrap()
    );
    assert_eq!(
        RESPParserError::InvalidToken(0),
        RESPParser::parse(&mut reader_of("$3\r\nab\r\n\r\n")).err().unwrap()
    );
}

#[test]
fn should_reject_text_that_is_not_utf8() {
    let mut reader = RESPReader::new(vec![b'+', 0xff, 0xfe, b'\r', b'\n']);
    assert_eq!(
        RESPParserError::BadRead(0),
        RESPParser::parse(&mut reader).err().unwrap()
    );
    let mut reader = RESPReader::new(vec![b'-', 0xc3, b'\r', b'\n']);
    assert_eq!(
        RESPParserError::BadRead(0),
        RESPParser::parse(&mut reader).err().unwrap()
    );
}

#[test]
fn should_parse_bulk_that_is_not_utf8() {
    let mut reader = RESPReader::new(vec![b'$', b'2', b'\r', b'\n', 0xff, 0xfe, b'\r', b'\n']);
    let message = RESPParser::parse(&mut reader).unwrap();
    assert!(matches!(
        message.as_slice(),
        [RESPToken::BulkString(2, data)] if data.as_ref() == [0xff, 0xfe]
    ));
}

#[test]
fn should_parse_bulk_that_holds_line_ends() {
    let mut reader = reader_of("$6\r\na\r\nb\r\n\r\n+next\r\n");
    let message = RESPParser::parse(&mut reader).unwrap();
    assert!(matches!(
        message.as_slice(),
        [RESPToken::BulkString(6, data)] if data == "a\r\nb\r\n"
    ));
    assert_eq!(b"+next\r\n", reader.as_slice());
}

#[test]
fn should_parse_empty_bulk_and_empty_array() {
    let message = RESPParser::parse(&mut reader_of("$0\r\n\r\n")).unwrap();
    assert!(matches!(
        message.as_slice(),
        [RESPToken::BulkString(0, data)] if data.is_empty()
    ));
    let message = RESPParser::parse(&mut reader_of("*0\r\n")).unwrap();
    assert!(matches!(message.as_slice(), [RESPToken::ArraySize(0)]));
}

#[test]
fn should_parse_integers_as_decimal_with_sign() {
    let parse_int = |text: &str| RESPParser::parse(&mut reader_of(text));
    assert!(matches!(
        parse_int(":-10\r\n").unwrap().as_slice(),
        [RESPToken::Integer(-10)]
    ));
    assert!(matches!(
        parse_int(":+10\r\n").unwrap().as_slice(),
        [RESPToken::Integer(10)]
    ));
    assert!(matches!(
        parse_int(":007\r\n").unwrap().as_slice(),
        [RESPToken::Integer(7)]
    ));
    assert!(matches!(
        parse_int(":9223372036854775807\r\n").unwrap().as_slice(),
        [RESPToken::Integer(i64::MAX)]
    ));
    assert!(matches!(
        parse_int(":-9223372036854775808\r\n").unwrap().as_slice(),
        [RESPToken::Integer(i64::MIN)]
    ));
    assert_eq!(
        RESPParserError::BadIntParse(0),
        parse_int(":9223372036854775808\r\n").err().unwrap()
    );
    assert_eq!(
        RESPParserError::BadIntParse(0),
        parse_int(":-9223372036854775809\r\n").err().unwrap()
    );
    assert_eq!(
        RESPParserError::BadIntParse(0),
        parse_int(":99999999999999999999999999\r\n").err().unwrap()
    );
    assert_eq!(RESPParserError::BadIntParse(0), parse_int(":\r\n").err().unwrap());
    assert_eq!(RESPParserError::BadIntParse(0), parse_int(":-\r\n").err().unwrap());
    assert_eq!(RESPParserError::BadIntParse(0), parse_int(":+\r\n").err().unwrap());
    assert_eq!(RESPParserError::BadIntParse(0), parse_int(": 1\r\n").err().unwrap());
    assert_eq!(RESPParserError::BadIntParse(0), parse_int(":1 \r\n").err().unwrap());
    assert_eq!(RESPParserError::BadIntParse(0), parse_int(":--1\r\n").err().unwrap());
    assert_eq!(RESPParserError::BadIntParse(0), parse_int(":1a\r\n").err().unwrap());
}

#[test]
fn should_bound_sizes_by_32_bits() {
    let message = RESPParser::parse(&mut reader_of("*4294967296\r\n"));
    assert_eq!(RESPParserError::BadIntParse(0), message.err().unwrap());
    let message = RESPParser::parse(&mut reader_of("$4294967296\r\n"));
    assert_eq!(RESPParserError::BadIntParse(0), message.err().unwrap());
    let message = RESPParser::parse(&mut reader_of("*-1\r\n"));
    assert_eq!(RESPParserError::BadIntParse(0), message.err().unwrap());
    let message = RESPParser::parse(&mut reader_of("$-2\r\n"));
    assert_eq!(RESPParserError::BadIntParse(0), message.err().unwrap());
    let message = RESPParser::parse(&mut reader_of("$-01\r\n")).unwrap();
    assert!(matches!(message.as_slice(), [RESPToken::Null]));
}

#[test]
fn should_leave_what_follows_a_message() {
    let mut reader = reader_of("*2\r\n+many\r\n+things\r\n+to\r\n+say\r\n");
    let _ = RESPParser::parse(&mut reader).unwrap();
    assert_eq!(b"+to\r\n+say\r\n", reader.as_slice());
    assert_eq!(11, reader.remaining());

    let second = RESPParser::parse(&mut reader).unwrap();
    assert!(matches!(second.as_slice(), [RESPToken::SimpleString(s)] if s == "to"));
    let third = RESPParser::parse(&mut reader).unwrap();
    assert!(matches!(third.as_slice(), [RESPToken::SimpleString(s)] if s == "say"));
    assert_eq!(0, reader.remaining());
    assert_eq!(
        RESPParserError::InvalidToken(0),
        RESPParser::parse(&mut reader).err().unwrap()
    );
}

#[test]
fn should_leave_the_reader_alone_on_error() {
    let mut reader = reader_of("*2\r\n+hi\r\n*1\r\n+nested\r\n");
    let _ = RESPParser::parse(&mut reader).err().unwrap();
    assert_eq!(b"*2\r\n+hi\r\n*1\r\n+nested\r\n", reader.as_slice());
}

#[test]
fn should_wait_for_the_rest_of_a_message() {
    let mut reader = reader_of("*2\r\n$4\r\nEC");
    assert!(matches!(
        RESPParser::try_parse(&mut reader),
        RESPParseStatus::Incomplete(4)
    ));
    assert_eq!(b"*2\r\n$4\r\nEC", reader.as_slice());

    reader.feed(b"HO\r\n");
    assert!(matches!(
        RESPParser::try_parse(&mut reader),
        RESPParseStatus::Incomplete(14)
    ));

    reader.feed(b"$5\r\nhello\r");
    assert!(matches!(
        RESPParser::try_parse(&mut reader),
        RESPParseStatus::Incomplete(14)
    ));

    reader.feed(b"\n+PING");
    let status = RESPParser::try_parse(&mut reader);
    assert!(matches!(
        &status,
        RESPParseStatus::Complete(message) if matches!(
            message.as_slice(),
            [RESPToken::ArraySize(2), RESPToken::BulkString(4, a), RESPToken::BulkString(5, b)]
                if a == "ECHO" && b == "hello"
        )
    ));
    assert_eq!(b"+PING", reader.as_slice());
    assert!(matches!(
        RESPParser::try_parse(&mut reader),
        RESPParseStatus::Incomplete(0)
    ));
}

#[test]
fn should_fail_at_once_on_what_begins_no_message() {
    let mut reader = reader_of("*2\r\n+hi\r\n*1\r\n");
    assert!(matches!(
        RESPParser::try_parse(&mut reader),
        RESPParseStatus::Failed(RESPParserError::InvalidArray(2))
    ));
    let mut reader = reader_of("");
    assert!(matches!(
        RESPParser::try_parse(&mut reader),
        RESPParseStatus::Incomplete(0)
    ));
}

#[test]
fn should_read_lines_up_to_the_first_terminator() {
    assert_eq!(
        Some(&b"+PING\r\n"[..]),
        RESPParser::read_token(b"+PING\r\n+PONG\r\n", 0)
    );
    assert_eq!(
        Some(&b"+PONG\r\n"[..]),
        RESPParser::read_token(b"+PING\r\n+PONG\r\n", 7)
    );
    assert_eq!(None, RESPParser::read_token(b"+PING\r\n+PONG\r\n", 14));
    assert_eq!(None, RESPParser::read_token(b"+PING\r", 0));
    assert_eq!(None, RESPParser::read_token(b"+PING\n", 0));
    assert_eq!(
        Some(&b"+a\rb\nc\r\n"[..]),
        RESPParser::read_token(b"+a\rb\nc\r\n", 0)
    );
    assert_eq!(Some(&b"\r\n"[..]), RESPParser::read_token(b"\r\n", 0));
}

#[test]
fn should_parse_what_it_serialises() {
    let tokens = vec![
        RESPToken::ArraySize(6),
        RESPToken::SimpleString("h\u{e9}llo".to_owned()),
        RESPToken::Error("ERR\rlone\nends".to_owned()),
        RESPToken::Integer(i64::MIN),
        RESPToken::BulkString(4, Bytes::from(vec![13, 10, 0, 255])),
        RESPToken::Null,
        RESPToken::BulkString(0, Bytes::new()),
    ];
    let wire = to_bytes(&tokens);
    let mut reader = RESPReader::new(wire);
    let parsed = RESPParser::parse(&mut reader).unwrap();
    assert!(matches!(
        parsed.as_slice(),
        [
            RESPToken::ArraySize(6),
            RESPToken::SimpleString(simple),
            RESPToken::Error(error),
            RESPToken::Integer(i64::MIN),
            RESPToken::BulkString(4, bulk),
            RESPToken::Null,
            RESPToken::BulkString(0, empty),
        ] if simple == "h\u{e9}llo"
            && error == "ERR\rlone\nends"
            && bulk.as_ref() == [13, 10, 0, 255]
            && empty.is_empty()
    ));
    assert_eq!(0, reader.remaining());
}

#[test]
fn should_parse_each_single_token_it_serialises() {
    let singles = vec![
        RESPToken::SimpleString("PING".to_owned()),
        RESPToken::Error("ERR".to_owned()),
        RESPToken::Integer(-10),
        RESPToken::BulkString(5, Bytes::from("hello")),
        RESPToken::Null,
        RESPToken::ArraySize(0),
    ];
    for token in singles {
        let wire = token.to_bytes();
        let length = wire.len();
        let mut reader = RESPReader::new(wire);
        reader.feed(b"+trailing\r\n");
        let parsed = RESPParser::parse(&mut reader).unwrap();
        assert_eq!(1, parsed.len());
        assert_eq!(token.to_bytes(), parsed[0].to_bytes());
        assert_eq!(11, reader.remaining());
        assert_eq!(length + 11, length + reader.remaining());
    }
}

#[test]
fn should_not_change_its_answer_when_bytes_follow() {
    let whole = "*2\r\n$4\r\nECHO\r\n$5\r\nhello\r\n";
    let mut alone = reader_of(whole);
    let mut followed = reader_of("*2\r\n$4\r\nECHO\r\n$5\r\nhello\r\n*1\r\n$4\r\nPI");
    let first = RESPParser::parse(&mut alone).unwrap();
    let second = RESPParser::parse(&mut followed).unwrap();
    assert_eq!(to_bytes(&first), to_bytes(&second));
    assert_eq!(whole.as_bytes().to_vec(), to_bytes(&first));
    assert_eq!(b"*1\r\n$4\r\nPI", followed.as_slice());

    let mut failed = reader_of(":x\r\n");
    let mut failed_and_followed = reader_of(":x\r\n+OK\r\n");
    assert!(matches!(
        RESPParser::try_parse(&mut failed),
        RESPParseStatus::Failed(RESPParserError::BadIntParse(0))
    ));
    assert!(matches!(
        RESPParser::try_parse(&mut failed_and_followed),
        RESPParseStatus::Failed(RESPParserError::BadIntParse(0))
    ));
}
