use redis_kv::clock::Clock;
use redis_kv::resp::reader::RESPReader;
use redis_kv::server::{handle_request, handle_request_at, ConnectionStep};
use redis_kv::store::RedisStore;

fn reply_to(store: &mut RedisStore, request: &[u8]) -> Vec<u8> {
    let mut reader = RESPReader::new(request.to_vec());
    match handle_request(&mut reader, store, true) {
        ConnectionStep::Reply(bytes) => {
            assert_eq!(0, reader.remaining());
            bytes
        }
        other => panic!("no reply: {:?}", other),
    }
}

fn frozen_store(epoch_millis: u64) -> RedisStore {
    let mut store = RedisStore::default();
    let mut clock = Clock::new();
    clock.mock_set_time(epoch_millis);
    store.set_clock(clock);
    store
}

fn advance(store: &mut RedisStore, millis: u64) {
    let mut clock = store.current_clock();
    clock.mock_advance(millis);
    store.set_clock(clock);
}

#[test]
fn should_reply_pong_to_ping() {
    let mut store = RedisStore::default();
    assert_eq!(
        b"+PONG\r\n".to_vec(),
        reply_to(&mut store, b"*1\r\n$4\r\nPING\r\n")
    );
}

#[test]
fn should_reply_echo() {
    let mut store = RedisStore::default();
    assert_eq!(
        b"$5\r\nhello\r\n".to_vec(),
        reply_to(&mut store, b"*2\r\n$4\r\nECHO\r\n$5\r\nhello\r\n")
    );
}

#[test]
fn should_reply_to_set_then_get() {
    let mut store = RedisStore::default();
    assert_eq!(
        b"+OK\r\n".to_vec(),
        reply_to(&mut store, b"*3\r\n$3\r\nSET\r\n$1\r\nk\r\n$1\r\nv\r\n")
    );
    assert_eq!(
        b"$1\r\nv\r\n".to_vec(),
        reply_to(&mut store, b"*2\r\n$3\r\nGET\r\n$1\r\nk\r\n")
    );
}

#[test]
fn should_expire_after_px() {
    let mut store = frozen_store(1_700_000_000_000);
    assert_eq!(
        b"+OK\r\n".to_vec(),
        reply_to(
            &mut store,
            b"*5\r\n$3\r\nSET\r\n$1\r\nk\r\n$1\r\nv\r\n$2\r\nPX\r\n$2\r\n30\r\n"
        )
    );
    advance(&mut store, 29);
    assert_eq!(
        b"$1\r\nv\r\n".to_vec(),
        reply_to(&mut store, b"*2\r\n$3\r\nGET\r\n$1\r\nk\r\n")
    );
    advance(&mut store, 1);
    assert_eq!(
        b"$-1\r\n".to_vec(),
        reply_to(&mut store, b"*2\r\n$3\r\nGET\r\n$1\r\nk\r\n")
    );
}

#[test]
fn should_reply_previous_value_to_set_with_get() {
    let mut store = RedisStore::default();
    assert_eq!(
        b"+OK\r\n".to_vec(),
        reply_to(&mut store, b"*3\r\n$3\r\nSET\r\n$1\r\nk\r\n$2\r\nv1\r\n")
    );
    assert_eq!(
        b"$2\r\nv1\r\n".to_vec(),
        reply_to(
            &mut store,
            b"*4\r\n$3\r\nSET\r\n$1\r\nk\r\n$2\r\nv2\r\n$3\r\nGET\r\n"
        )
    );
    assert_eq!(
        b"$2\r\nv2\r\n".to_vec(),
        reply_to(&mut store, b"*2\r\n$3\r\nGET\r\n$1\r\nk\r\n")
    );
}

#[test]
fn should_close_on_nested_array() {
    let mut store = RedisStore::default();
    let mut reader = RESPReader::new(b"*2\r\n+hi\r\n*1\r\n+nested\r\n".to_vec());
    assert!(matches!(
        handle_request(&mut reader, &mut store, false),
        ConnectionStep::Close
    ));
    assert!(matches!(
        handle_request(&mut reader, &mut store, true),
        ConnectionStep::Close
    ));
}

#[test]
fn should_close_on_each_kind_of_malformed_request() {
    let mut store = RedisStore::default();
    for request in [
        &b"?\r\n"[..],
        &b"*1\r\n:one\r\n"[..],
        &b"*1\r\n$-8\r\nnegative\r\n"[..],
        &b"$3\r\nabcd\r\n"[..],
        &b"\r\n"[..],
        &[b'+', 0xff, b'\r', b'\n'][..],
    ] {
        let mut reader = RESPReader::new(request.to_vec());
        assert!(matches!(
            handle_request(&mut reader, &mut store, false),
            ConnectionStep::Close
        ));
        assert_eq!(request, reader.as_slice());
    }
}

#[test]
fn should_wait_for_more_unless_at_the_end() {
    let mut store = RedisStore::default();
    let mut reader = RESPReader::new(Vec::new());
    assert!(matches!(
        handle_request(&mut reader, &mut store, false),
        ConnectionStep::Wait
    ));
    reader.feed(b"*2\r\n$4\r\nECHO\r\n$5\r\nhel");
    assert!(matches!(
        handle_request(&mut reader, &mut store, false),
        ConnectionStep::Wait
    ));
    assert_eq!(b"*2\r\n$4\r\nECHO\r\n$5\r\nhel", reader.as_slice());
    reader.feed(b"lo\r\n");
    assert!(matches!(
        handle_request(&mut reader, &mut store, false),
        ConnectionStep::Reply(bytes) if bytes == b"$5\r\nhello\r\n"
    ));
    assert!(matches!(
        handle_request(&mut reader, &mut store, false),
        ConnectionStep::Wait
    ));
    assert!(matches!(
        handle_request(&mut reader, &mut store, true),
        ConnectionStep::Close
    ));
    reader.feed(b"*1\r\n$4\r\nPI");
    assert!(matches!(
        handle_request(&mut reader, &mut store, true),
        ConnectionStep::Close
    ));
}

#[test]
fn should_answer_pipelined_requests_in_order() {
    let mut store = RedisStore::default();
    let mut reader = RESPReader::new(
        b"*3\r\n$3\r\nSET\r\n$1\r\nk\r\n$1\r\nv\r\n*2\r\n$3\r\nGET\r\n$1\r\nk\r\n*1\r\n$4\r\nPING\r\n"
            .to_vec(),
    );
    assert!(matches!(
        handle_request(&mut reader, &mut store, false),
        ConnectionStep::Reply(bytes) if bytes == b"+OK\r\n"
    ));
    assert_eq!(
        b"*2\r\n$3\r\nGET\r\n$1\r\nk\r\n*1\r\n$4\r\nPING\r\n",
        reader.as_slice()
    );
    assert!(matches!(
        handle_request(&mut reader, &mut store, false),
        ConnectionStep::Reply(bytes) if bytes == b"$1\r\nv\r\n"
    ));
    assert!(matches!(
        handle_request(&mut reader, &mut store, false),
        ConnectionStep::Reply(bytes) if bytes == b"+PONG\r\n"
    ));
    assert!(matches!(
        handle_request(&mut reader, &mut store, false),
        ConnectionStep::Wait
    ));
}

#[test]
fn should_answer_requests_that_are_no_arrays() {
    let mut store = RedisStore::default();
    assert_eq!(b"+PONG\r\n".to_vec(), reply_to(&mut store, b"+PING\r\n"));
    assert_eq!(b"+PONG\r\n".to_vec(), reply_to(&mut store, b":5\r\n"));
    assert_eq!(b"+PONG\r\n".to_vec(), reply_to(&mut store, b"$-1\r\n"));
    assert_eq!(b"+PONG\r\n".to_vec(), reply_to(&mut store, b"*0\r\n"));
    assert_eq!(
        b"+PONG\r\n".to_vec(),
        reply_to(&mut store, b"*1\r\n$7\r\nCOMMAND\r\n")
    );
}

#[test]
fn should_serve_values_that_are_not_text() {
    let mut store = RedisStore::default();
    let mut set = b"*3\r\n$3\r\nSET\r\n$2\r\n".to_vec();
    set.extend_from_slice(&[0xff, 0x0a]);
    set.extend_from_slice(b"\r\n$4\r\n");
    set.extend_from_slice(&[0x00, 0x0d, 0x0a, 0xfe]);
    set.extend_from_slice(b"\r\n");
    assert_eq!(b"+OK\r\n".to_vec(), reply_to(&mut store, &set));

    let mut get = b"*2\r\n$3\r\nGET\r\n$2\r\n".to_vec();
    get.extend_from_slice(&[0xff, 0x0a]);
    get.extend_from_slice(b"\r\n");
    let mut expected = b"$4\r\n".to_vec();
    expected.extend_from_slice(&[0x00, 0x0d, 0x0a, 0xfe]);
    expected.extend_from_slice(b"\r\n");
    assert_eq!(expected, reply_to(&mut store, &get));
}

#[test]
fn should_serve_at_a_given_time() {
    let mut store = RedisStore::default();
    let mut reader = RESPReader::new(
        b"*5\r\n$3\r\nSET\r\n$1\r\nk\r\n$1\r\nv\r\n$2\r\nEX\r\n$1\r\n1\r\n".to_vec(),
    );
    assert!(matches!(
        handle_request_at(&mut reader, &mut store, 5_000, false),
        ConnectionStep::Reply(bytes) if bytes == b"+OK\r\n"
    ));
    reader.feed(b"*2\r\n$3\r\nGET\r\n$1\r\nk\r\n");
    assert!(matches!(
        handle_request_at(&mut reader, &mut store, 5_999, false),
        ConnectionStep::Reply(bytes) if bytes == b"$1\r\nv\r\n"
    ));
    reader.feed(b"*2\r\n$3\r\nGET\r\n$1\r\nk\r\n");
    assert!(matches!(
        handle_request_at(&mut reader, &mut store, 6_000, false),
        ConnectionStep::Reply(bytes) if bytes == b"$-1\r\n"
    ));
}
