//! What the commands guarantee to a client: laws of SET and GET that hold of
//! every keyspace, key, value and time.

use crate::resp::command::{
    ascii_upper,
    ascii_uppercase,
    command_of,
    keyword_ex,
    keyword_get,
    keyword_nx,
    keyword_px,
    keyword_set,
    keyword_xx,
    lemma_keywords,
    RedisCommand,
    SetCommandExistFlag,
    SetCommandFlags,
    SetCommandTTLFlag,
};
use crate::resp::decimal::{
    all_digits,
    digits_up_to,
    int_digits,
    is_digit,
    lemma_nat_digits,
    unsigned_value,
    PLUS,
};
use crate::resp::frame::{frame_message, message_frame, FrameView};
use crate::resp::interpreter::{
    after_segment,
    all_bulk_from,
    first_word,
    interpret_set,
    interpret_spec,
    leading_exist_flag,
    leading_get_flag,
    reply_ok,
    reply_pong,
    set_flags_of,
    ttl_flag_of,
};
use crate::resp::parser::{message_at, ParseStep};
use crate::resp::roundtrip::{
    frame_line_safe,
    frame_wire,
    has_crlf,
    lemma_frame_wire_round_trip,
    line_safe,
};
use crate::resp::token::TokenView;
use crate::store::StoreView;
use vstd::prelude::*;
use vstd::utf8::{encode_utf8, is_ascii_chars, is_ascii_chars_encode_utf8};

verus! {

/// The request that the words make: an array of bulks.
pub open spec fn request(words: Seq<Seq<u8>>) -> FrameView {
    FrameView::Array(words.map_values(|word: Seq<u8>| FrameView::Bulk(word)))
}

/// The request `GET key`.
pub open spec fn get_request(key: Seq<u8>) -> FrameView {
    request(seq![keyword_get(), key])
}

/// The request `SET key value` with the options behind it.
pub open spec fn set_request(key: Seq<u8>, value: Seq<u8>, options: Seq<Seq<u8>>) -> FrameView {
    request(seq![keyword_set(), key, value] + options)
}

/// Whether a read of `key` at `now` finds no value: the key has none, or its
/// time has come.
pub open spec fn absent(store: StoreView, key: Seq<u8>, now: nat) -> bool {
    store.get(key, now).1 is None
}

/// `GET key` reads the key: the reply is its value or null, and the keyspace
/// is what the read leaves.
pub proof fn lemma_get_request(store: StoreView, key: Seq<u8>, now: nat)
    ensures
        interpret_spec(get_request(key), store, now) == (
            match store.get(key, now).1 {
                Some(value) => FrameView::Bulk(value),
                None => FrameView::Null,
            },
            store.get(key, now).0,
        ),
{
    lemma_keywords();
    let words = seq![keyword_get(), key];
    let elements = words.map_values(|word: Seq<u8>| FrameView::Bulk(word));
    assert(elements[0] == FrameView::Bulk(keyword_get()));
    assert(elements[1] == FrameView::Bulk(key));
    assert(ascii_uppercase(keyword_get()) =~= keyword_get());
    assert(keyword_get().len() == 3);
    assert(command_of(keyword_get()) == RedisCommand::GET);
}

/// The flags that a SET request with given options has are those that its
/// options amount to, and the request is carried out with them.
proof fn lemma_set_request(
    store: StoreView,
    key: Seq<u8>,
    value: Seq<u8>,
    options: Seq<Seq<u8>>,
    now: nat,
)
    ensures
        interpret_spec(set_request(key, value, options), store, now)
            == interpret_set(
            key,
            value,
            set_flags_of(options.map_values(|word: Seq<u8>| FrameView::Bulk(word))),
            store,
            now,
        ),
{
    lemma_keywords();
    let words = seq![keyword_set(), key, value] + options;
    let elements = words.map_values(|word: Seq<u8>| FrameView::Bulk(word));
    assert(elements[0] == FrameView::Bulk(keyword_set()));
    assert(elements[1] == FrameView::Bulk(key));
    assert(elements[2] == FrameView::Bulk(value));
    assert(ascii_uppercase(keyword_set()) =~= keyword_set());
    assert(keyword_set()[0] == 83);
    assert(keyword_set().len() == 3);
    assert(command_of(keyword_set()) == RedisCommand::SET);
    assert(all_bulk_from(elements, 1));
    assert(elements.skip(3) =~= options.map_values(|word: Seq<u8>| FrameView::Bulk(word)));
}

/// No options are no flags.
proof fn lemma_flags_none()
    ensures
        set_flags_of(Seq::<Seq<u8>>::empty().map_values(|word: Seq<u8>| FrameView::Bulk(word)))
            == (SetCommandFlags { exist_flag: None, get_flag: false, ttl_flag: None }),
{
}

/// The option `NX` alone is the flag NX, `XX` alone the flag XX.
proof fn lemma_flags_exist(nx: bool)
    ensures
        set_flags_of(
            seq![
                if nx {
                    keyword_nx()
                } else {
                    keyword_xx()
                },
            ].map_values(|word: Seq<u8>| FrameView::Bulk(word)),
        ) == (SetCommandFlags {
            exist_flag: Some(
                if nx {
                    SetCommandExistFlag::NX
                } else {
                    SetCommandExistFlag::XX
                },
            ),
            get_flag: false,
            ttl_flag: None,
        }),
{
    lemma_keywords();
    let word = if nx {
        keyword_nx()
    } else {
        keyword_xx()
    };
    let options = seq![word].map_values(|word: Seq<u8>| FrameView::Bulk(word));
    assert(options[0] == FrameView::Bulk(word));
    assert(ascii_uppercase(word) =~= word);
    assert(keyword_nx()[0] == 78 && keyword_xx()[0] == 88);
    assert(options.drop_first() =~= Seq::<FrameView>::empty());
}

/// The option `GET` alone is the flag GET.
proof fn lemma_flags_get()
    ensures
        set_flags_of(seq![keyword_get()].map_values(|word: Seq<u8>| FrameView::Bulk(word))) == (
        SetCommandFlags { exist_flag: None, get_flag: true, ttl_flag: None }),
{
    lemma_keywords();
    let options = seq![keyword_get()].map_values(|word: Seq<u8>| FrameView::Bulk(word));
    assert(options[0] == FrameView::Bulk(keyword_get()));
    assert(ascii_uppercase(keyword_get()) =~= keyword_get());
    assert(keyword_get().len() == 3 && keyword_nx().len() == 2 && keyword_xx().len() == 2);
    assert(options.drop_first() =~= Seq::<FrameView>::empty());
}

/// The options `PX` and a number in decimal are the TTL option PX of that
/// number.
proof fn lemma_flags_px(millis: u64)
    ensures
        set_flags_of(
            seq![keyword_px(), int_digits(millis as int)].map_values(
                |word: Seq<u8>| FrameView::Bulk(word),
            ),
        ) == (SetCommandFlags {
            exist_flag: None,
            get_flag: false,
            ttl_flag: Some(SetCommandTTLFlag::PX(millis)),
        }),
{
    lemma_keywords();
    let digits = int_digits(millis as int);
    let options = seq![keyword_px(), digits].map_values(|word: Seq<u8>| FrameView::Bulk(word));
    assert(options[0] == FrameView::Bulk(keyword_px()));
    assert(options[1] == FrameView::Bulk(digits));
    assert(ascii_uppercase(keyword_px()) =~= keyword_px());
    assert(keyword_px()[0] == 80 && keyword_nx()[0] == 78 && keyword_xx()[0] == 88);
    assert(keyword_px().len() == 2 && keyword_get().len() == 3);
    assert(keyword_ex()[0] == 69);
    lemma_nat_digits(millis as nat);
    assert(unsigned_value(digits) == Some(millis));
}

/// After a plain `SET key value`, `GET key` replies the value, at whatever
/// times the two are carried out, and as often as it is asked.
pub proof fn lemma_set_then_get(
    store: StoreView,
    key: Seq<u8>,
    value: Seq<u8>,
    set_time: nat,
    get_time: nat,
)
    ensures
        ({
            let (reply, after) = interpret_spec(
                set_request(key, value, Seq::empty()),
                store,
                set_time,
            );
            &&& reply == reply_ok()
            &&& interpret_spec(get_request(key), after, get_time) == (
                FrameView::Bulk(value),
                after,
            )
        }),
{
    lemma_set_request(store, key, value, Seq::empty(), set_time);
    lemma_flags_none();
    let after = interpret_spec(set_request(key, value, Seq::empty()), store, set_time).1;
    lemma_get_request(after, key, get_time);
}

/// Once a key has expired, `GET key` replies null: the read that finds its
/// time come removes it, and every later read, at any time, finds nothing.
pub proof fn lemma_expired_key_is_gone(
    store: StoreView,
    key: Seq<u8>,
    expiry_time: nat,
    later: nat,
)
    requires
        store.expired(key, expiry_time),
    ensures
        ({
            let (reply, after) = interpret_spec(get_request(key), store, expiry_time);
            &&& reply == FrameView::Null
            &&& after == store.without(key)
            &&& interpret_spec(get_request(key), after, later) == (FrameView::Null, after)
        }),
{
    lemma_get_request(store, key, expiry_time);
    lemma_get_request(store.without(key), key, later);
}

/// A key that is set with `PX millis` at `set_time` is there before
/// `set_time + millis` and gone from then on: up to that time `GET key`
/// replies the value and leaves the keyspace as it is, from that time on it
/// replies null.
pub proof fn lemma_ttl_expiry(
    store: StoreView,
    key: Seq<u8>,
    value: Seq<u8>,
    millis: u64,
    set_time: nat,
    get_time: nat,
)
    requires
        millis > 0,
    ensures
        ({
            let (reply, after) = interpret_spec(
                set_request(key, value, seq![keyword_px(), int_digits(millis as int)]),
                store,
                set_time,
            );
            &&& reply == reply_ok()
            &&& get_time < set_time + millis ==> interpret_spec(get_request(key), after, get_time)
                == (FrameView::Bulk(value), after)
            &&& get_time >= set_time + millis ==> interpret_spec(
                get_request(key),
                after,
                get_time,
            ).0 == FrameView::Null
        }),
{
    let options = seq![keyword_px(), int_digits(millis as int)];
    lemma_set_request(store, key, value, options, set_time);
    lemma_flags_px(millis);
    let after = interpret_spec(set_request(key, value, options), store, set_time).1;
    lemma_get_request(after, key, get_time);
}

/// `SET key value NX` writes where the key is absent; a second one, with
/// another value, replies null and leaves the first value in place.
pub proof fn lemma_nx(
    store: StoreView,
    key: Seq<u8>,
    first: Seq<u8>,
    second: Seq<u8>,
    first_time: nat,
    second_time: nat,
    get_time: nat,
)
    requires
        absent(store, key, first_time),
    ensures
        ({
            let (reply1, after1) = interpret_spec(
                set_request(key, first, seq![keyword_nx()]),
                store,
                first_time,
            );
            let (reply2, after2) = interpret_spec(
                set_request(key, second, seq![keyword_nx()]),
                after1,
                second_time,
            );
            &&& reply1 == reply_ok()
            &&& reply2 == FrameView::Null
            &&& after2 == after1
            &&& interpret_spec(get_request(key), after2, get_time) == (
                FrameView::Bulk(first),
                after2,
            )
        }),
{
    lemma_flags_exist(true);
    lemma_set_request(store, key, first, seq![keyword_nx()], first_time);
    let after1 = interpret_spec(set_request(key, first, seq![keyword_nx()]), store, first_time).1;
    lemma_set_request(after1, key, second, seq![keyword_nx()], second_time);
    lemma_get_request(after1, key, get_time);
}

/// `SET key value XX` replies null where the key is absent, and writes
/// nothing; where the key has been set, it writes.
pub proof fn lemma_xx(
    store: StoreView,
    key: Seq<u8>,
    first: Seq<u8>,
    second: Seq<u8>,
    time: nat,
    get_time: nat,
)
    ensures
        absent(store, key, time) ==> ({
            let (reply, after) = interpret_spec(
                set_request(key, second, seq![keyword_xx()]),
                store,
                time,
            );
            &&& reply == FrameView::Null
            &&& after == store.get(key, time).0
            &&& absent(after, key, get_time)
        }),
        ({
            let after1 = interpret_spec(set_request(key, first, Seq::empty()), store, time).1;
            let (reply2, after2) = interpret_spec(
                set_request(key, second, seq![keyword_xx()]),
                after1,
                time,
            );
            &&& reply2 == reply_ok()
            &&& interpret_spec(get_request(key), after2, get_time) == (
                FrameView::Bulk(second),
                after2,
            )
        }),
{
    lemma_flags_exist(false);
    lemma_flags_none();
    lemma_set_request(store, key, second, seq![keyword_xx()], time);
    lemma_set_request(store, key, first, Seq::empty(), time);
    let after1 = interpret_spec(set_request(key, first, Seq::empty()), store, time).1;
    lemma_set_request(after1, key, second, seq![keyword_xx()], time);
    let after2 = interpret_spec(set_request(key, second, seq![keyword_xx()]), after1, time).1;
    lemma_get_request(after2, key, get_time);
}

/// `SET key value GET` replies what the key held, null where it held
/// nothing, and writes the new value either way.
pub proof fn lemma_set_with_get(
    store: StoreView,
    key: Seq<u8>,
    value: Seq<u8>,
    time: nat,
    get_time: nat,
)
    ensures
        ({
            let (reply, after) = interpret_spec(
                set_request(key, value, seq![keyword_get()]),
                store,
                time,
            );
            &&& reply == match store.get(key, time).1 {
                Some(previous) => FrameView::Bulk(previous),
                None => FrameView::Null,
            }
            &&& interpret_spec(get_request(key), after, get_time) == (
                FrameView::Bulk(value),
                after,
            )
        }),
{
    lemma_flags_get();
    lemma_set_request(store, key, value, seq![keyword_get()], time);
    let after = interpret_spec(set_request(key, value, seq![keyword_get()]), store, time).1;
    lemma_get_request(after, key, get_time);
}

/// A plain SET clears the expiry: after `SET key value PX millis`, a plain
/// `SET key other` makes `GET key` reply the other value at every time.
pub proof fn lemma_plain_set_clears_ttl(
    store: StoreView,
    key: Seq<u8>,
    value: Seq<u8>,
    other: Seq<u8>,
    millis: u64,
    first_time: nat,
    second_time: nat,
    get_time: nat,
)
    ensures
        ({
            let after1 = interpret_spec(
                set_request(key, value, seq![keyword_px(), int_digits(millis as int)]),
                store,
                first_time,
            ).1;
            let (reply2, after2) = interpret_spec(
                set_request(key, other, Seq::empty()),
                after1,
                second_time,
            );
            &&& reply2 == reply_ok()
            &&& !after2.expirations.contains_key(key)
            &&& interpret_spec(get_request(key), after2, get_time) == (
                FrameView::Bulk(other),
                after2,
            )
        }),
{
    let after1 = interpret_spec(
        set_request(key, value, seq![keyword_px(), int_digits(millis as int)]),
        store,
        first_time,
    ).1;
    lemma_flags_none();
    lemma_set_request(after1, key, other, Seq::empty(), second_time);
    let after2 = interpret_spec(set_request(key, other, Seq::empty()), after1, second_time).1;
    lemma_get_request(after2, key, get_time);
}

/// The interpreter replies with a scalar only: `PONG`, `OK`, a bulk or null,
/// never an error, an integer or an array.
pub proof fn lemma_reply_shape(frame: FrameView, store: StoreView, now: nat)
    ensures
        ({
            let reply = interpret_spec(frame, store, now).0;
            reply == reply_pong() || reply == reply_ok() || reply is Bulk || reply is Null
        }),
{
}

/// Whether two keyspaces hold the same for `key`: the same value or none,
/// the same expiry or none.
pub open spec fn same_at(first: StoreView, second: StoreView, key: Seq<u8>) -> bool {
    &&& first.values.contains_key(key) == second.values.contains_key(key)
    &&& first.values.contains_key(key) ==> first.values[key] == second.values[key]
    &&& first.expirations.contains_key(key) == second.expirations.contains_key(key)
    &&& first.expirations.contains_key(key) ==> first.expirations[key] == second.expirations[key]
}

/// The key that a request names: its first argument, where it has one and
/// that is a bulk.
pub open spec fn named_key(frame: FrameView) -> Option<Seq<u8>> {
    match frame {
        FrameView::Array(elements) => if elements.len() >= 2 && elements[1] is Bulk {
            Some(elements[1]->Bulk_0)
        } else {
            None
        },
        _ => None,
    }
}

/// A request changes nothing but the key that it names: whatever the
/// request, every key other than its first argument holds afterwards what it
/// held before, and a request without a first argument changes nothing.
pub proof fn lemma_only_the_named_key_changes(
    frame: FrameView,
    store: StoreView,
    now: nat,
    other: Seq<u8>,
)
    requires
        named_key(frame) != Some(other),
    ensures
        same_at(interpret_spec(frame, store, now).1, store, other),
{
}

/// The texts `PONG` and `OK` hold no `\r\n`.
proof fn lemma_reply_texts_line_safe()
    ensures
        frame_line_safe(reply_pong()),
        frame_line_safe(reply_ok()),
{
    reveal_strlit("PONG");
    reveal_strlit("OK");
    let pong = "PONG"@;
    let ok = "OK"@;
    assert(is_ascii_chars(pong));
    assert(is_ascii_chars(ok));
    is_ascii_chars_encode_utf8(pong);
    is_ascii_chars_encode_utf8(ok);
    assert(!has_crlf(encode_utf8(pong))) by {
        assert forall|i: int| 0 <= i < encode_utf8(pong).len() implies #[trigger] encode_utf8(
            pong,
        )[i] != 13 by {
            assert(encode_utf8(pong)[i] == pong[i] as u8);
        }
    }
    assert(!has_crlf(encode_utf8(ok))) by {
        assert forall|i: int| 0 <= i < encode_utf8(ok).len() implies #[trigger] encode_utf8(ok)[i]
            != 13 by {
            assert(encode_utf8(ok)[i] == ok[i] as u8);
        }
    }
    assert(frame_message(reply_pong())[0] == TokenView::SimpleString(pong));
    assert(frame_message(reply_ok())[0] == TokenView::SimpleString(ok));
}

/// Every reply can be read: what is written for a reply of the interpreter
/// is read back, by the same parser, as that reply. The one exception is a
/// bulk too long for the length field of a bulk string, which has no wire
/// form.
pub proof fn lemma_reply_is_readable(frame: FrameView, store: StoreView, now: nat, rest: Seq<u8>)
    ensures
        ({
            let reply = interpret_spec(frame, store, now).0;
            reply.valid() ==> {
                &&& message_at(frame_wire(reply) + rest) == ParseStep::Complete(
                    frame_message(reply),
                    frame_wire(reply).len() as int,
                )
                &&& message_frame(frame_message(reply)) == reply
            }
        }),
{
    let reply = interpret_spec(frame, store, now).0;
    lemma_reply_shape(frame, store, now);
    lemma_reply_texts_line_safe();
    if reply.valid() {
        assert(frame_line_safe(reply)) by {
            if reply is Bulk || reply is Null {
                assert forall|i: int| 0 <= i < frame_message(reply).len() implies line_safe(
                    #[trigger] frame_message(reply)[i],
                ) by {}
            }
        }
        lemma_frame_wire_round_trip(reply, rest);
    }
}

/// Whether two byte strings are the same but for the case of ASCII letters.
pub open spec fn same_ignoring_case(a: Seq<u8>, b: Seq<u8>) -> bool {
    ascii_uppercase(a) == ascii_uppercase(b)
}

/// Whether two frames are the same, or are bulks that are the same but for
/// the case of letters.
pub open spec fn same_word_ignoring_case(a: FrameView, b: FrameView) -> bool {
    a == b || (a is Bulk && b is Bulk && same_ignoring_case(a->Bulk_0, b->Bulk_0))
}

/// Whether two sequences of options are the same but for the case of letters.
pub open spec fn same_options_ignoring_case(a: Seq<FrameView>, b: Seq<FrameView>) -> bool {
    &&& a.len() == b.len()
    &&& forall|i: int| 0 <= i < a.len() ==> same_word_ignoring_case(#[trigger] a[i], b[i])
}

/// Whether two requests are the same but for the case of letters in the name
/// of the command and, behind the key and the value of a SET, in the options.
pub open spec fn same_request_ignoring_case(a: Seq<FrameView>, b: Seq<FrameView>) -> bool {
    &&& a.len() == b.len()
    &&& a.len() >= 1
    &&& a[0] is Bulk
    &&& b[0] is Bulk
    &&& same_ignoring_case(a[0]->Bulk_0, b[0]->Bulk_0)
    &&& forall|i: int| 1 <= i < a.len() && i < 3 ==> #[trigger] a[i] == b[i]
    &&& forall|i: int| 3 <= i < a.len() ==> same_word_ignoring_case(#[trigger] a[i], b[i])
}

/// The name of a command is read without regard to the case of its letters.
pub proof fn lemma_command_ignores_case(a: Seq<u8>, b: Seq<u8>)
    requires
        same_ignoring_case(a, b),
    ensures
        command_of(a) == command_of(b),
{
}

/// Byte strings that are the same but for case have the same length, and
/// agree wherever one of them has a digit or a `+`.
proof fn lemma_same_case_bytes(a: Seq<u8>, b: Seq<u8>)
    requires
        same_ignoring_case(a, b),
    ensures
        a.len() == b.len(),
        forall|i: int|
            0 <= i < a.len() && (is_digit(#[trigger] a[i]) || a[i] == PLUS) ==> a[i] == b[i],
        forall|i: int|
            0 <= i < a.len() && (is_digit(#[trigger] b[i]) || b[i] == PLUS) ==> a[i] == b[i],
{
    assert(ascii_uppercase(a).len() == a.len());
    assert(ascii_uppercase(b).len() == b.len());
    assert forall|i: int| 0 <= i < a.len() implies ascii_upper(a[i])
        == ascii_upper(#[trigger] b[i]) by {
        assert(ascii_uppercase(a)[i] == ascii_uppercase(b)[i]);
    }
    assert forall|i: int|
        0 <= i < a.len() && (is_digit(#[trigger] a[i]) || a[i] == PLUS) implies a[i] == b[i] by {
        assert(ascii_upper(a[i]) == ascii_upper(b[i]));
    }
    assert forall|i: int|
        0 <= i < a.len() && (is_digit(#[trigger] b[i]) || b[i] == PLUS) implies a[i] == b[i] by {
        assert(ascii_upper(a[i]) == ascii_upper(b[i]));
    }
}

/// Runs of bytes that agree wherever one has a digit are the same number, or
/// both none.
proof fn lemma_same_digits(a: Seq<u8>, b: Seq<u8>, limit: u64)
    requires
        a.len() == b.len(),
        forall|i: int| 0 <= i < a.len() && is_digit(#[trigger] a[i]) ==> a[i] == b[i],
        forall|i: int| 0 <= i < a.len() && is_digit(#[trigger] b[i]) ==> a[i] == b[i],
    ensures
        digits_up_to(a, limit) == digits_up_to(b, limit),
{
    if all_digits(a) {
        assert(a =~= b);
    } else if all_digits(b) {
        assert(a =~= b);
    }
}

/// A number is read without regard to the case of letters: it has none.
pub proof fn lemma_unsigned_ignores_case(a: Seq<u8>, b: Seq<u8>)
    requires
        same_ignoring_case(a, b),
    ensures
        unsigned_value(a) == unsigned_value(b),
{
    lemma_same_case_bytes(a, b);
    if a.len() > 0 {
        let len = a.len() as int;
        if a[0] == PLUS || b[0] == PLUS {
            let da = a.subrange(1, len);
            let db = b.subrange(1, len);
            assert forall|i: int| 0 <= i < da.len() && is_digit(#[trigger] da[i]) implies da[i]
                == db[i] by {
                assert(da[i] == a[i + 1] && db[i] == b[i + 1]);
            }
            assert forall|i: int| 0 <= i < da.len() && is_digit(#[trigger] db[i]) implies da[i]
                == db[i] by {
                assert(da[i] == a[i + 1] && db[i] == b[i + 1]);
            }
            lemma_same_digits(da, db, u64::MAX);
        } else {
            lemma_same_digits(a, b, u64::MAX);
        }
    } else {
        lemma_same_digits(a, b, u64::MAX);
    }
}

/// The options of a SET are read without regard to the case of letters.
pub proof fn lemma_set_flags_ignore_case(a: Seq<FrameView>, b: Seq<FrameView>)
    requires
        same_options_ignoring_case(a, b),
    ensures
        set_flags_of(a) == set_flags_of(b),
{
    if a.len() >= 1 {
        assert(same_word_ignoring_case(a[0], b[0]));
    }
    assert(first_word(a) is Some == first_word(b) is Some);
    assert(leading_exist_flag(a) == leading_exist_flag(b));
    let exist = leading_exist_flag(a) is Some;
    let a2 = after_segment(a, exist);
    let b2 = after_segment(b, exist);
    assert(same_options_ignoring_case(a2, b2)) by {
        assert forall|i: int| 0 <= i < a2.len() implies same_word_ignoring_case(
            #[trigger] a2[i],
            b2[i],
        ) by {
            if exist {
                assert(same_word_ignoring_case(a[i + 1], b[i + 1]));
            } else {
                assert(same_word_ignoring_case(a[i], b[i]));
            }
        }
    }
    if a2.len() >= 1 {
        assert(same_word_ignoring_case(a2[0], b2[0]));
    }
    assert(leading_get_flag(a2) == leading_get_flag(b2));
    let get = leading_get_flag(a2);
    let a3 = after_segment(a2, get);
    let b3 = after_segment(b2, get);
    assert(same_options_ignoring_case(a3, b3)) by {
        assert forall|i: int| 0 <= i < a3.len() implies same_word_ignoring_case(
            #[trigger] a3[i],
            b3[i],
        ) by {
            if get {
                assert(same_word_ignoring_case(a2[i + 1], b2[i + 1]));
            } else {
                assert(same_word_ignoring_case(a2[i], b2[i]));
            }
        }
    }
    if a3.len() >= 1 {
        assert(same_word_ignoring_case(a3[0], b3[0]));
    }
    if a3.len() == 2 {
        assert(same_word_ignoring_case(a3[1], b3[1]));
        if a3[1] is Bulk {
            lemma_unsigned_ignores_case(a3[1]->Bulk_0, b3[1]->Bulk_0);
        }
    }
    assert(ttl_flag_of(a3) == ttl_flag_of(b3));
}

/// The interpreter is blind to the case of letters in keywords: two requests
/// that differ only in the case of the command's name, and of the options of
/// a SET, do the same to every keyspace and get the same reply.
pub proof fn lemma_interpret_ignores_case(
    a: Seq<FrameView>,
    b: Seq<FrameView>,
    store: StoreView,
    now: nat,
)
    requires
        same_request_ignoring_case(a, b),
    ensures
        interpret_spec(FrameView::Array(a), store, now) == interpret_spec(
            FrameView::Array(b),
            store,
            now,
        ),
{
    lemma_command_ignores_case(a[0]->Bulk_0, b[0]->Bulk_0);
    if a.len() >= 2 {
        assert(a[1] == b[1]);
    }
    if a.len() >= 3 {
        assert(a[2] == b[2]);
        assert(all_bulk_from(a, 1) == all_bulk_from(b, 1)) by {
            if all_bulk_from(a, 1) {
                assert forall|i: int| 1 <= i < b.len() implies (#[trigger] b[i]) is Bulk by {
                    assert(a[i] is Bulk);
                    if i >= 3 {
                        assert(same_word_ignoring_case(a[i], b[i]));
                    }
                }
            }
            if all_bulk_from(b, 1) {
                assert forall|i: int| 1 <= i < a.len() implies (#[trigger] a[i]) is Bulk by {
                    assert(b[i] is Bulk);
                    if i >= 3 {
                        assert(same_word_ignoring_case(a[i], b[i]));
                    }
                }
            }
        }
        assert(same_options_ignoring_case(a.skip(3), b.skip(3))) by {
            assert forall|i: int| 0 <= i < a.skip(3).len() implies same_word_ignoring_case(
                #[trigger] a.skip(3)[i],
                b.skip(3)[i],
            ) by {
                assert(same_word_ignoring_case(a[i + 3], b[i + 3]));
            }
        }
        lemma_set_flags_ignore_case(a.skip(3), b.skip(3));
    }
}

} // verus!
