//! One step of a connection: from the bytes received so far to the reply that
//! is owed, if one is. Reading from the socket and writing to it is the
//! caller's part.

use crate::resp::frame::{frame_message, message_frame, FrameView, RESPFrame};
use crate::resp::interpreter::{interpret_spec, RESPInterpreter};
use crate::resp::parser::{
    message_at,
    message_wire,
    to_bytes,
    ParseStep,
    RESPParseStatus,
    RESPParser,
};
use crate::resp::reader::RESPReader;
use crate::store::{RedisStore, StoreView};
use vstd::prelude::*;

verus! {

/// What the connection's owner has to do next.
#[derive(Debug)]
pub enum ConnectionStep {
    /// Send these bytes, the reply to the request that was consumed, then
    /// ask again.
    Reply(Vec<u8>),
    /// Read more bytes, append them, then ask again.
    Wait,
    /// Close the connection and send nothing.
    Close,
}

/// Whether `step` is what a request with the given outcome calls for: the
/// reply's wire form, or, for a reply that has none, the end of the
/// connection.
pub open spec fn answers(step: ConnectionStep, reply: FrameView) -> bool {
    if reply.valid() {
        step matches ConnectionStep::Reply(bytes) && bytes@ == message_wire(frame_message(reply))
    } else {
        step is Close
    }
}

/// Whether `step`, with the reader and the keyspace left as `reader` and
/// `store`, is what follows from `input` at the time `now`:
/// - a whole request is consumed and carried out, and its reply is owed;
/// - the beginning of a request is left waiting for the rest, unless no more
///   will come, which ends the connection;
/// - bytes that can begin no request end the connection.
pub open spec fn serves(
    step: ConnectionStep,
    reader: Seq<u8>,
    store: StoreView,
    input: Seq<u8>,
    before: StoreView,
    now: nat,
    at_end: bool,
) -> bool {
    match message_at(input) {
        ParseStep::Complete(tokens, end) => {
            let (reply, after) = interpret_spec(message_frame(tokens), before, now);
            &&& reader == input.subrange(end, input.len() as int)
            &&& store == after
            &&& answers(step, reply)
        },
        ParseStep::Incomplete(_) => {
            &&& reader == input
            &&& store == before
            &&& if at_end {
                step is Close
            } else {
                step is Wait
            }
        },
        ParseStep::Failed(_) => {
            &&& reader == input
            &&& store == before
            &&& step is Close
        },
    }
}

/// Takes the next request from the reader, if a whole one is there, carries
/// it out on `store` at the time `now`, and says what to do next. `at_end`
/// says that the peer will send no more.
pub fn handle_request_at(
    reader: &mut RESPReader,
    store: &mut RedisStore,
    now: u64,
    at_end: bool,
) -> (step: ConnectionStep)
    requires
        old(store).wf(),
    ensures
        final(store).wf(),
        final(store).clock() == old(store).clock(),
        serves(step, final(reader)@, final(store)@, old(reader)@, old(store)@, now as nat, at_end),
{
    match RESPParser::try_parse(reader) {
        RESPParseStatus::Complete(request) => {
            let frame = RESPFrame::from(request);
            let reply = RESPInterpreter::interpret_at(&frame, store, now);
            if reply.is_valid() {
                let message = reply.into_message();
                ConnectionStep::Reply(to_bytes(&message))
            } else {
                ConnectionStep::Close
            }
        },
        RESPParseStatus::Incomplete(_) => if at_end {
            ConnectionStep::Close
        } else {
            ConnectionStep::Wait
        },
        RESPParseStatus::Failed(_) => ConnectionStep::Close,
    }
}

/// Takes the next request from the reader, if a whole one is there, carries
/// it out on `store` at the time that the store's clock reads, and says what
/// to do next.
pub fn handle_request(reader: &mut RESPReader, store: &mut RedisStore, at_end: bool) -> (step:
    ConnectionStep)
    requires
        old(store).wf(),
    ensures
        final(store).wf(),
        final(store).clock() == old(store).clock(),
        exists|now: u64|
            old(store).clock().may_read(now) && #[trigger] serves(
                step,
                final(reader)@,
                final(store)@,
                old(reader)@,
                old(store)@,
                now as nat,
                at_end,
            ),
{
    let now = store.get_unix_time();
    handle_request_at(reader, store, now, at_end)
}

} // verus!
