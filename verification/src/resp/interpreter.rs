//! From a request frame to a keyspace operation and the reply frame.

use crate::resp::bulk::{bytes_as_slice, bytes_from_vec};
use crate::resp::command::{
    ascii_uppercase,
    command_of,
    keyword_ex,
    keyword_exat,
    keyword_get,
    keyword_keepttl,
    keyword_nx,
    keyword_px,
    keyword_pxat,
    keyword_xx,
    matches_keyword,
    RedisCommand,
    SetCommandExistFlag,
    SetCommandFlags,
    SetCommandTTLFlag,
};
use crate::resp::decimal::{parse_unsigned, unsigned_value};
use crate::resp::frame::{lemma_array_view, FrameView, RESPFrame};
use crate::store::{value_view, RedisStore, StoreView};
use vstd::prelude::*;
use vstd::slice::slice_subrange;

verus! {

/// The reply `PONG`, which is also the reply to whatever is not understood.
pub open spec fn reply_pong() -> FrameView {
    FrameView::Simple("PONG"@)
}

/// The reply `OK`.
pub open spec fn reply_ok() -> FrameView {
    FrameView::Simple("OK"@)
}

/// The reply that hands out a value: the value as a bulk, or null for none.
pub open spec fn reply_value(value: Option<Seq<u8>>) -> FrameView {
    match value {
        Some(bytes) => FrameView::Bulk(bytes),
        None => FrameView::Null,
    }
}

/// What a sequence of frames stands for.
pub open spec fn frames_view(frames: Seq<RESPFrame>) -> Seq<FrameView> {
    frames.map_values(|f: RESPFrame| f@)
}

/// The bytes of the first option, if there is one and it is a bulk.
pub open spec fn first_word(options: Seq<FrameView>) -> Option<Seq<u8>> {
    if options.len() >= 1 && options[0] is Bulk {
        Some(options[0]->Bulk_0)
    } else {
        None
    }
}

/// The existence flag that `word` names, if it names one.
pub open spec fn exist_flag_of(word: Seq<u8>) -> Option<SetCommandExistFlag> {
    if ascii_uppercase(word) == keyword_nx() {
        Some(SetCommandExistFlag::NX)
    } else if ascii_uppercase(word) == keyword_xx() {
        Some(SetCommandExistFlag::XX)
    } else {
        None
    }
}

/// The options behind a segment of one word: without their first where
/// `taken` says that the segment was there, all of them where it was not, and
/// none where they do not begin with a bulk.
pub open spec fn after_segment(options: Seq<FrameView>, taken: bool) -> Seq<FrameView> {
    if first_word(options) is None {
        Seq::empty()
    } else if taken {
        options.drop_first()
    } else {
        options
    }
}

/// The existence flag that the options begin with, if they do.
pub open spec fn leading_exist_flag(options: Seq<FrameView>) -> Option<SetCommandExistFlag> {
    match first_word(options) {
        Some(word) => exist_flag_of(word),
        None => None,
    }
}

/// Whether the options begin with `GET`.
pub open spec fn leading_get_flag(options: Seq<FrameView>) -> bool {
    match first_word(options) {
        Some(word) => ascii_uppercase(word) == keyword_get(),
        None => false,
    }
}

/// The TTL option that a kind and a number make, if the kind is one.
pub open spec fn ttl_kind_of(kind: Seq<u8>, amount: u64) -> Option<SetCommandTTLFlag> {
    let upper = ascii_uppercase(kind);
    if upper == keyword_ex() {
        Some(SetCommandTTLFlag::EX(amount))
    } else if upper == keyword_px() {
        Some(SetCommandTTLFlag::PX(amount))
    } else if upper == keyword_exat() {
        Some(SetCommandTTLFlag::EXAT(amount))
    } else if upper == keyword_pxat() {
        Some(SetCommandTTLFlag::PXAT(amount))
    } else {
        None
    }
}

/// The TTL option that the last options are: `KEEPTTL` alone, or a kind and
/// an unsigned number, and nothing besides.
pub open spec fn ttl_flag_of(tail: Seq<FrameView>) -> Option<SetCommandTTLFlag> {
    if tail.len() == 2 && tail[0] is Bulk && tail[1] is Bulk {
        match unsigned_value(tail[1]->Bulk_0) {
            Some(amount) => ttl_kind_of(tail[0]->Bulk_0, amount),
            None => None,
        }
    } else if tail.len() == 1 && tail[0] is Bulk && ascii_uppercase(tail[0]->Bulk_0)
        == keyword_keepttl() {
        Some(SetCommandTTLFlag::KEEPTTL)
    } else {
        None
    }
}

/// The flags that the options of a SET amount to. Three segments are tried in
/// turn, each at the place where the one before it ended: `NX` or `XX`, then
/// `GET`, then the TTL option. A segment that is not there is passed over.
pub open spec fn set_flags_of(options: Seq<FrameView>) -> SetCommandFlags {
    let exist = leading_exist_flag(options);
    let second = after_segment(options, exist is Some);
    let get = leading_get_flag(second);
    let third = after_segment(second, get);
    SetCommandFlags { exist_flag: exist, get_flag: get, ttl_flag: ttl_flag_of(third) }
}

/// Whether each of the frames from `from` on is a bulk.
pub open spec fn all_bulk_from(frames: Seq<FrameView>, from: int) -> bool {
    forall|i: int| from <= i < frames.len() ==> (#[trigger] frames[i]) is Bulk
}

/// What SET does and replies: with the `GET` flag the key is read first and
/// what it held is the reply, whether or not the write takes place; without
/// it the reply is `OK` for a write and null for a suppressed one.
pub open spec fn interpret_set(
    key: Seq<u8>,
    value: Seq<u8>,
    flags: SetCommandFlags,
    store: StoreView,
    now: nat,
) -> (FrameView, StoreView) {
    let (read, previous) = if flags.get_flag {
        store.get(key, now)
    } else {
        (store, None)
    };
    let (after, written) = read.set(key, value, flags, now);
    let reply = if flags.get_flag {
        reply_value(previous)
    } else if written {
        reply_ok()
    } else {
        FrameView::Null
    };
    (reply, after)
}

/// What a command with its arguments does and replies; `elements` holds the
/// command's name first and then the arguments.
pub open spec fn interpret_command(
    command: RedisCommand,
    elements: Seq<FrameView>,
    store: StoreView,
    now: nat,
) -> (FrameView, StoreView) {
    match command {
        RedisCommand::PING => (reply_pong(), store),
        RedisCommand::ECHO => if elements.len() == 2 && elements[1] is Bulk {
            (elements[1], store)
        } else {
            (reply_pong(), store)
        },
        RedisCommand::GET => if elements.len() == 2 && elements[1] is Bulk {
            let (after, value) = store.get(elements[1]->Bulk_0, now);
            (reply_value(value), after)
        } else {
            (FrameView::Null, store)
        },
        RedisCommand::SET => if elements.len() >= 3 && all_bulk_from(elements, 1) {
            interpret_set(
                elements[1]->Bulk_0,
                elements[2]->Bulk_0,
                set_flags_of(elements.skip(3)),
                store,
                now,
            )
        } else {
            (FrameView::Null, store)
        },
        RedisCommand::UNDEFINED => (reply_pong(), store),
    }
}

/// What a request does to the keyspace at the time `now`, and the reply to
/// it. A request is an array that begins with a bulk, the command's name;
/// anything else is answered with `PONG`.
pub open spec fn interpret_spec(frame: FrameView, store: StoreView, now: nat) -> (
    FrameView,
    StoreView,
) {
    match frame {
        FrameView::Array(elements) => if elements.len() >= 1 && elements[0] is Bulk {
            interpret_command(command_of(elements[0]->Bulk_0), elements, store, now)
        } else {
            (reply_pong(), store)
        },
        _ => (reply_pong(), store),
    }
}

/// The bytes of a frame that is a bulk.
fn bulk_bytes(frame: &RESPFrame) -> (bytes: Option<&[u8]>)
    ensures
        match bytes {
            Some(b) => frame@ == FrameView::Bulk(b@),
            None => !(frame@ is Bulk),
        },
{
    match frame {
        RESPFrame::Bulk(data) => Some(bytes_as_slice(data)),
        _ => None,
    }
}

/// The bytes of the first frame, where there is one and it is a bulk.
fn first_bulk(options: &[RESPFrame]) -> (word: Option<&[u8]>)
    ensures
        match word {
            Some(b) => first_word(frames_view(options@)) == Some(b@),
            None => first_word(frames_view(options@)) is None,
        },
{
    if options.len() >= 1 {
        bulk_bytes(&options[0])
    } else {
        None
    }
}

/// The frames but the first.
fn rest_of(options: &[RESPFrame]) -> (rest: &[RESPFrame])
    requires
        options@.len() >= 1,
    ensures
        frames_view(rest@) == frames_view(options@).drop_first(),
{
    let rest = slice_subrange(options, 1, options.len());
    assert(frames_view(rest@) =~= frames_view(options@).drop_first());
    rest
}

/// Whether each frame from `from` on is a bulk.
fn all_bulk(frames: &[RESPFrame], from: usize) -> (all: bool)
    ensures
        all == all_bulk_from(frames_view(frames@), from as int),
{
    let mut i: usize = from;
    while i < frames.len()
        invariant
            from <= i || i == from,
            forall|j: int|
                from <= j < i && j < frames@.len() ==> (#[trigger] frames_view(frames@)[j]) is Bulk,
        decreases frames@.len() - i,
    {
        match &frames[i] {
            RESPFrame::Bulk(_) => {},
            _ => {
                assert(!(frames_view(frames@)[i as int] is Bulk));
                return false;
            },
        }
        i = i + 1;
    }
    true
}

/// Interprets request frames against a keyspace.
pub struct RESPInterpreter;

impl RESPInterpreter {
    /// The TTL option that a kind and a number make.
    fn ttl_kind(kind: &[u8], amount: u64) -> (flag: Option<SetCommandTTLFlag>)
        ensures
            flag == ttl_kind_of(kind@, amount),
    {
        proof {
            reveal_strlit("EX");
            reveal_strlit("PX");
            reveal_strlit("EXAT");
            reveal_strlit("PXAT");
        }
        if matches_keyword(kind, "EX") {
            Some(SetCommandTTLFlag::EX(amount))
        } else if matches_keyword(kind, "PX") {
            Some(SetCommandTTLFlag::PX(amount))
        } else if matches_keyword(kind, "EXAT") {
            Some(SetCommandTTLFlag::EXAT(amount))
        } else if matches_keyword(kind, "PXAT") {
            Some(SetCommandTTLFlag::PXAT(amount))
        } else {
            None
        }
    }

    /// The TTL option that the last options are.
    fn ttl_flag(tail: &[RESPFrame]) -> (flag: Option<SetCommandTTLFlag>)
        ensures
            flag == ttl_flag_of(frames_view(tail@)),
    {
        if tail.len() == 2 {
            match (bulk_bytes(&tail[0]), bulk_bytes(&tail[1])) {
                (Some(kind), Some(digits)) => match parse_unsigned(digits) {
                    Some(amount) => RESPInterpreter::ttl_kind(kind, amount),
                    None => None,
                },
                _ => None,
            }
        } else if tail.len() == 1 {
            proof {
                reveal_strlit("KEEPTTL");
            }
            match bulk_bytes(&tail[0]) {
                Some(word) => if matches_keyword(word, "KEEPTTL") {
                    Some(SetCommandTTLFlag::KEEPTTL)
                } else {
                    None
                },
                None => None,
            }
        } else {
            None
        }
    }

    /// The flags that the options of a SET amount to.
    pub fn calculate_set_flags(options: &[RESPFrame]) -> (flags: SetCommandFlags)
        ensures
            flags == set_flags_of(frames_view(options@)),
    {
        proof {
            reveal_strlit("NX");
            reveal_strlit("XX");
            reveal_strlit("GET");
        }
        let exist_flag: Option<SetCommandExistFlag> = match first_bulk(options) {
            Some(word) => if matches_keyword(word, "NX") {
                Some(SetCommandExistFlag::NX)
            } else if matches_keyword(word, "XX") {
                Some(SetCommandExistFlag::XX)
            } else {
                None
            },
            None => None,
        };
        let second: &[RESPFrame] = if first_bulk(options).is_none() {
            slice_subrange(options, 0, 0)
        } else if exist_flag.is_some() {
            rest_of(options)
        } else {
            options
        };
        assert(frames_view(second@) =~= after_segment(frames_view(options@), exist_flag is Some));
        let get_flag: bool = match first_bulk(second) {
            Some(word) => matches_keyword(word, "GET"),
            None => false,
        };
        let third: &[RESPFrame] = if first_bulk(second).is_none() {
            slice_subrange(second, 0, 0)
        } else if get_flag {
            rest_of(second)
        } else {
            second
        };
        assert(frames_view(third@) =~= after_segment(frames_view(second@), get_flag));
        let ttl_flag = RESPInterpreter::ttl_flag(third);
        SetCommandFlags { exist_flag, get_flag, ttl_flag }
    }

    /// The frame that hands out a value.
    fn value_reply(value: Option<Vec<u8>>) -> (reply: RESPFrame)
        ensures
            reply@ == reply_value(value_view(value)),
    {
        match value {
            Some(bytes) => RESPFrame::Bulk(bytes_from_vec(bytes)),
            None => RESPFrame::Null,
        }
    }

    /// The frame `PONG`.
    fn pong() -> (reply: RESPFrame)
        ensures
            reply@ == reply_pong(),
    {
        RESPFrame::Simple("PONG".to_owned())
    }

    /// Carries out a SET.
    fn interpret_set(
        key: &[u8],
        value: &[u8],
        flags: &SetCommandFlags,
        store: &mut RedisStore,
        now: u64,
    ) -> (reply: RESPFrame)
        requires
            old(store).wf(),
        ensures
            final(store).wf(),
            final(store).clock() == old(store).clock(),
            (reply@, final(store)@) == interpret_set(key@, value@, *flags, old(store)@, now as nat),
    {
        let previous: Option<Vec<u8>> = if flags.get_flag {
            store.get_at(key, now)
        } else {
            None
        };
        let written = store.set_at(key, value, flags, now);
        if flags.get_flag {
            RESPInterpreter::value_reply(previous)
        } else if written {
            RESPFrame::Simple("OK".to_owned())
        } else {
            RESPFrame::Null
        }
    }

    /// Carries out the request in `frame` on `store` at the time `now`, and
    /// gives the reply.
    pub fn interpret_at(frame: &RESPFrame, store: &mut RedisStore, now: u64) -> (reply: RESPFrame)
        requires
            old(store).wf(),
        ensures
            final(store).wf(),
            final(store).clock() == old(store).clock(),
            (reply@, final(store)@) == interpret_spec(frame@, old(store)@, now as nat),
    {
        let elements = match frame {
            RESPFrame::Array(elements) => elements,
            _ => {
                return RESPInterpreter::pong();
            },
        };
        proof {
            lemma_array_view(*elements);
        }
        let ghost views = frame@->Array_0;
        assert(views =~= frames_view(elements@));
        if elements.len() == 0 {
            return RESPInterpreter::pong();
        }
        let command = match &elements[0] {
            RESPFrame::Bulk(name) => RedisCommand::from(name),
            _ => {
                return RESPInterpreter::pong();
            },
        };
        match command {
            RedisCommand::PING => RESPInterpreter::pong(),
            RedisCommand::ECHO => {
                if elements.len() == 2 {
                    match &elements[1] {
                        RESPFrame::Bulk(message) => RESPFrame::Bulk(message.clone()),
                        _ => RESPInterpreter::pong(),
                    }
                } else {
                    RESPInterpreter::pong()
                }
            },
            RedisCommand::GET => {
                if elements.len() == 2 {
                    match bulk_bytes(&elements[1]) {
                        Some(key) => RESPInterpreter::value_reply(store.get_at(key, now)),
                        None => RESPFrame::Null,
                    }
                } else {
                    RESPFrame::Null
                }
            },
            RedisCommand::SET => {
                if elements.len() >= 3 && all_bulk(elements.as_slice(), 1) {
                    match (bulk_bytes(&elements[1]), bulk_bytes(&elements[2])) {
                        (Some(key), Some(value)) => {
                            let options = slice_subrange(elements.as_slice(), 3, elements.len());
                            assert(frames_view(options@) =~= views.skip(3));
                            let flags = RESPInterpreter::calculate_set_flags(options);
                            RESPInterpreter::interpret_set(key, value, &flags, store, now)
                        },
                        _ => RESPFrame::Null,
                    }
                } else {
                    RESPFrame::Null
                }
            },
            RedisCommand::UNDEFINED => RESPInterpreter::pong(),
        }
    }

    /// Carries out the request in `frame` on `store` at the time that the
    /// store's clock reads, and gives the reply.
    pub fn interpret(frame: &RESPFrame, store: &mut RedisStore) -> (reply: RESPFrame)
        requires
            old(store).wf(),
        ensures
            final(store).wf(),
            final(store).clock() == old(store).clock(),
            exists|now: u64|
                old(store).clock().may_read(now) && (reply@, final(store)@)
                    == #[trigger] interpret_spec(frame@, old(store)@, now as nat),
    {
        let now = store.get_unix_time();
        RESPInterpreter::interpret_at(frame, store, now)
    }
}

} // verus!
