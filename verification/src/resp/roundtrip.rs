//! Decoding undoes encoding: what the serializer writes for a message, the
//! parser reads back as that message, and it consumes no byte more.

use crate::resp::decimal::{
    int_digits,
    is_digit,
    lemma_decimal_round_trip,
    lemma_int_digits_bytes,
};
use crate::resp::frame::{frame_message, lemma_frame_round_trip, message_frame, FrameView};
use crate::resp::parser::{
    find_crlf,
    message_at,
    message_wire,
    parse_from,
    token_at,
    tokens_announced,
    valid_message,
    ParseStep,
    TokenStep,
};
use crate::resp::token::{
    crlf,
    TokenView,
    CR,
    LF,
    PREFIX_ARRAY,
    PREFIX_BULK,
    PREFIX_ERROR,
    PREFIX_INTEGER,
    PREFIX_SIMPLE,
};
use vstd::prelude::*;
use vstd::utf8::{encode_utf8, encode_utf8_decode_utf8, encode_utf8_valid_utf8};

verus! {

/// Whether `s` holds a `\r` with a `\n` right behind it.
pub open spec fn has_crlf(s: Seq<u8>) -> bool {
    exists|i: int| 0 <= i && i + 1 < s.len() && #[trigger] s[i] == CR && s[i + 1] == LF
}

/// Whether the token survives a line: a text that holds `\r\n` would end its
/// line early. Every other token does.
pub open spec fn line_safe(token: TokenView) -> bool {
    match token {
        TokenView::SimpleString(text) => !has_crlf(encode_utf8(text)),
        TokenView::Error(text) => !has_crlf(encode_utf8(text)),
        _ => true,
    }
}

/// Whether every token of the message survives a line.
pub open spec fn all_line_safe(message: Seq<TokenView>) -> bool {
    forall|i: int| 0 <= i < message.len() ==> line_safe(#[trigger] message[i])
}

/// The first `\r\n` from `from` on is at `end` if one is there and none
/// begins before it.
proof fn lemma_find_crlf_at(input: Seq<u8>, from: int, end: int)
    requires
        0 <= from <= end,
        end + 1 < input.len(),
        input[end] == CR,
        input[end + 1] == LF,
        forall|j: int| from <= j < end ==> !(#[trigger] input[j] == CR && input[j + 1] == LF),
    ensures
        find_crlf(input, from) == Some(end),
    decreases end - from,
{
    if from < end {
        assert(!(input[from] == CR && input[from + 1] == LF));
        lemma_find_crlf_at(input, from + 1, end);
    }
}

/// A line that is a prefix byte, a payload without `\r\n` and the terminator
/// ends at its terminator.
proof fn lemma_line_end(input: Seq<u8>, pos: int, payload: Seq<u8>)
    requires
        0 <= pos,
        pos + 1 + payload.len() + 2 <= input.len(),
        input[pos] != CR,
        input.subrange(pos + 1, pos + 1 + payload.len()) == payload,
        input[pos + 1 + payload.len()] == CR,
        input[pos + 2 + payload.len()] == LF,
        !has_crlf(payload),
    ensures
        find_crlf(input, pos) == Some(pos + 1 + payload.len()),
{
    let end = pos + 1 + payload.len();
    assert forall|j: int| pos <= j < end implies !(#[trigger] input[j] == CR && input[j + 1]
        == LF) by {
        if j > pos {
            let k = j - pos - 1;
            assert(payload[k] == input[j]);
            if j + 1 < end {
                assert(payload[k + 1] == input[j + 1]);
                assert(!(payload[k] == CR && payload[k + 1] == LF));
            }
        }
    }
    lemma_find_crlf_at(input, pos, end);
}

/// The decimal form of a number holds no `\r\n`.
proof fn lemma_digits_line_safe(n: int)
    ensures
        !has_crlf(int_digits(n)),
{
    lemma_int_digits_bytes(n);
    let s = int_digits(n);
    assert forall|i: int| 0 <= i && i + 1 < s.len() implies !(#[trigger] s[i] == CR && s[i + 1]
        == LF) by {
        assert(is_digit(s[i]) || s[i] == 45);
    }
}

/// Where the input holds, from `pos` on, a wire form that begins with a
/// prefix byte, a payload without `\r\n` and the terminator, the line at
/// `pos` is just that: it ends behind the payload, which it holds unchanged.
proof fn lemma_header_line(input: Seq<u8>, pos: int, wire: Seq<u8>, prefix: u8, payload: Seq<u8>)
    requires
        0 <= pos,
        pos + wire.len() <= input.len(),
        input.subrange(pos, pos + wire.len()) == wire,
        wire.len() >= payload.len() + 3,
        wire.subrange(0, payload.len() as int + 3) == seq![prefix] + payload + crlf(),
        prefix != CR,
        !has_crlf(payload),
    ensures
        input[pos] == prefix,
        find_crlf(input, pos) == Some(pos + 1 + payload.len()),
        input.subrange(pos + 1, pos + 1 + payload.len()) == payload,
{
    let head = seq![prefix] + payload + crlf();
    let size = payload.len() as int;
    assert forall|i: int| 0 <= i < size + 3 implies input[pos + i] == head[i] by {
        assert(input.subrange(pos, pos + wire.len())[i] == input[pos + i]);
        assert(wire.subrange(0, size + 3)[i] == wire[i]);
    }
    assert(head[0] == prefix);
    assert(head[size + 1] == CR);
    assert(head[size + 2] == LF);
    assert(input.subrange(pos + 1, pos + 1 + size) =~= payload) by {
        assert forall|i: int| 0 <= i < size implies input[pos + 1 + i] == payload[i] by {
            assert(head[1 + i] == payload[i]);
        }
    }
    lemma_line_end(input, pos, payload);
}

/// The parser reads a token's wire form back as the token, and stops right
/// behind it.
pub proof fn lemma_token_round_trip(input: Seq<u8>, pos: int, token: TokenView, parsed: nat)
    requires
        0 <= pos,
        pos + token.wire().len() <= input.len(),
        input.subrange(pos, pos + token.wire().len()) == token.wire(),
        token.wf(),
        line_safe(token),
        token is ArraySize ==> parsed == 0,
    ensures
        token_at(input, pos, parsed) == TokenStep::Token(token, pos + token.wire().len()),
{
    let wire = token.wire();
    match token {
        TokenView::SimpleString(text) => {
            let payload = encode_utf8(text);
            assert(wire.subrange(0, payload.len() as int + 3) =~= seq![PREFIX_SIMPLE] + payload + crlf());
            lemma_header_line(input, pos, wire, PREFIX_SIMPLE, payload);
            encode_utf8_valid_utf8(text);
            encode_utf8_decode_utf8(text);
        },
        TokenView::Error(text) => {
            let payload = encode_utf8(text);
            assert(wire.subrange(0, payload.len() as int + 3) =~= seq![PREFIX_ERROR] + payload + crlf());
            lemma_header_line(input, pos, wire, PREFIX_ERROR, payload);
            encode_utf8_valid_utf8(text);
            encode_utf8_decode_utf8(text);
        },
        TokenView::Integer(n) => {
            let payload = int_digits(n as int);
            assert(wire.subrange(0, payload.len() as int + 3) =~= seq![PREFIX_INTEGER] + payload + crlf());
            lemma_digits_line_safe(n as int);
            lemma_header_line(input, pos, wire, PREFIX_INTEGER, payload);
            lemma_decimal_round_trip(n as int);
        },
        TokenView::BulkString(len, data) => {
            let payload = int_digits(len as int);
            let next = pos + payload.len() as int + 3;
            assert(wire.subrange(0, payload.len() as int + 3) =~= seq![PREFIX_BULK] + payload + crlf());
            lemma_digits_line_safe(len as int);
            lemma_header_line(input, pos, wire, PREFIX_BULK, payload);
            lemma_decimal_round_trip(len as int);
            assert forall|i: int| 0 <= i < wire.len() implies input[pos + i] == wire[i] by {
                assert(input.subrange(pos, pos + wire.len())[i] == input[pos + i]);
            }
            assert(wire[payload.len() as int + 3 + data.len() as int] == CR);
            assert(wire[payload.len() as int + 3 + data.len() as int + 1] == LF);
            assert(input.subrange(next, next + len) =~= data) by {
                assert forall|i: int| 0 <= i < data.len() implies input[next + i] == data[i] by {
                    assert(wire[payload.len() as int + 3 + i] == data[i]);
                }
            }
        },
        TokenView::Null => {
            let payload = int_digits(-1);
            assert(wire.subrange(0, payload.len() as int + 3) =~= seq![PREFIX_BULK] + payload + crlf());
            lemma_digits_line_safe(-1);
            lemma_header_line(input, pos, wire, PREFIX_BULK, payload);
            lemma_decimal_round_trip(-1);
        },
        TokenView::ArraySize(n) => {
            let payload = int_digits(n as int);
            assert(wire.subrange(0, payload.len() as int + 3) =~= seq![PREFIX_ARRAY] + payload + crlf());
            lemma_digits_line_safe(n as int);
            lemma_header_line(input, pos, wire, PREFIX_ARRAY, payload);
            lemma_decimal_round_trip(n as int);
        },
    }
}

/// The wire form of tokens is the wire form of the first, then that of the
/// others.
pub proof fn lemma_message_wire_first(tokens: Seq<TokenView>)
    requires
        tokens.len() >= 1,
    ensures
        message_wire(tokens) == tokens[0].wire() + message_wire(tokens.drop_first()),
    decreases tokens.len(),
{
    if tokens.len() == 1 {
        assert(tokens.drop_last() =~= Seq::<TokenView>::empty());
        assert(tokens.drop_first() =~= Seq::<TokenView>::empty());
        assert(message_wire(tokens) =~= tokens[0].wire() + message_wire(tokens.drop_first()));
    } else {
        lemma_message_wire_first(tokens.drop_last());
        assert(tokens.drop_last().drop_first() =~= tokens.drop_first().drop_last());
        assert(tokens.drop_last()[0] == tokens[0]);
        assert(tokens.drop_first().last() == tokens.last());
        assert(message_wire(tokens) =~= tokens[0].wire() + message_wire(tokens.drop_first()));
    }
}

/// The parser reads the wire form of scalar tokens back as those tokens.
proof fn lemma_tokens_round_trip(
    input: Seq<u8>,
    pos: int,
    tokens: Seq<TokenView>,
    parsed: Seq<TokenView>,
)
    requires
        0 <= pos,
        pos + message_wire(tokens).len() <= input.len(),
        input.subrange(pos, pos + message_wire(tokens).len()) == message_wire(tokens),
        parsed.len() > 0,
        all_line_safe(tokens),
        forall|i: int| 0 <= i < tokens.len() ==> (#[trigger] tokens[i]).wf(),
        forall|i: int| 0 <= i < tokens.len() ==> !((#[trigger] tokens[i]) is ArraySize),
    ensures
        parse_from(input, pos, tokens.len(), parsed) == ParseStep::Complete(
            parsed + tokens,
            pos + message_wire(tokens).len(),
        ),
    decreases tokens.len(),
{
    if tokens.len() == 0 {
        assert(parsed + tokens =~= parsed);
    } else {
        let first = tokens[0];
        let others = tokens.drop_first();
        lemma_message_wire_first(tokens);
        let whole = message_wire(tokens);
        let next = pos + first.wire().len();
        assert(line_safe(first) && first.wf() && !(first is ArraySize));
        assert(input.subrange(pos, next) =~= first.wire()) by {
            assert forall|i: int| 0 <= i < first.wire().len() implies input[pos + i]
                == first.wire()[i] by {
                assert(input.subrange(pos, pos + whole.len())[i] == whole[i]);
            }
        }
        lemma_token_round_trip(input, pos, first, parsed.len());
        assert(input.subrange(next, next + message_wire(others).len()) =~= message_wire(others)) by {
            assert forall|i: int| 0 <= i < message_wire(others).len() implies input[next + i]
                == message_wire(others)[i] by {
                assert(input.subrange(pos, pos + whole.len())[first.wire().len() + i]
                    == whole[first.wire().len() + i]);
            }
        }
        assert forall|i: int| 0 <= i < others.len() implies line_safe(#[trigger] others[i])
            && others[i].wf() && !(others[i] is ArraySize) by {
            assert(others[i] == tokens[i + 1]);
        }
        lemma_tokens_round_trip(input, next, others, parsed.push(first));
        assert(tokens_announced(first, parsed.len()) == 0);
        assert(parsed.push(first) + others =~= parsed + tokens);
    }
}

/// Decoding undoes encoding, whatever follows: the parser reads the wire form
/// of a valid message back as that message and consumes exactly its bytes.
/// A text that holds `\r\n` has no such wire form, so the message holds none.
pub proof fn lemma_parse_round_trip(message: Seq<TokenView>, rest: Seq<u8>)
    requires
        valid_message(message),
        all_line_safe(message),
    ensures
        message_at(message_wire(message) + rest) == ParseStep::Complete(
            message,
            message_wire(message).len() as int,
        ),
{
    let input = message_wire(message) + rest;
    let first = message[0];
    let others = message.drop_first();
    lemma_message_wire_first(message);
    let whole = message_wire(message);
    let next = first.wire().len() as int;
    assert(line_safe(first) && first.wf());
    assert(input.subrange(0, next) =~= first.wire());
    lemma_token_round_trip(input, 0, first, 0);
    assert(Seq::<TokenView>::empty().push(first) =~= seq![first]);
    assert(input.subrange(next, next + message_wire(others).len()) =~= message_wire(others));
    assert forall|i: int| 0 <= i < others.len() implies line_safe(#[trigger] others[i])
        && others[i].wf() && !(others[i] is ArraySize) by {
        assert(others[i] == message[i + 1]);
    }
    lemma_tokens_round_trip(input, next, others, seq![first]);
    assert(seq![first] + others =~= message);
    assert(others.len() == tokens_announced(first, 0));
}

/// One token round-trips alone: the parser reads its wire form back as the
/// message of that one token. An array header that announces tokens is no
/// message alone, so the law speaks of the empty one only.
pub proof fn lemma_single_token_round_trip(token: TokenView)
    requires
        token.wf(),
        line_safe(token),
        token matches TokenView::ArraySize(n) ==> n == 0,
    ensures
        message_at(token.wire()) == ParseStep::Complete(seq![token], token.wire().len() as int),
{
    let message = seq![token];
    assert(message.drop_last() =~= Seq::<TokenView>::empty());
    assert(message_wire(message.drop_last()) =~= Seq::<u8>::empty());
    assert(message.last() == token);
    assert(message_wire(message) =~= token.wire());
    lemma_parse_round_trip(message, Seq::empty());
    assert(token.wire() + Seq::<u8>::empty() =~= token.wire());
}

/// The parser is streaming: of two messages written one behind the other it
/// reads the first and consumes exactly its bytes, and what is left reads as
/// the second.
pub proof fn lemma_parse_streaming(first: Seq<TokenView>, second: Seq<TokenView>, rest: Seq<u8>)
    requires
        valid_message(first),
        all_line_safe(first),
        valid_message(second),
        all_line_safe(second),
    ensures
        ({
            let input = message_wire(first) + message_wire(second) + rest;
            let consumed = message_wire(first).len() as int;
            &&& message_at(input) == ParseStep::Complete(first, consumed)
            &&& message_at(input.subrange(consumed, input.len() as int)) == ParseStep::Complete(
                second,
                message_wire(second).len() as int,
            )
        }),
{
    let input = message_wire(first) + message_wire(second) + rest;
    let consumed = message_wire(first).len() as int;
    lemma_parse_round_trip(first, message_wire(second) + rest);
    assert(message_wire(first) + (message_wire(second) + rest) =~= input);
    lemma_parse_round_trip(second, rest);
    assert(input.subrange(consumed, input.len() as int) =~= message_wire(second) + rest);
}

/// No two messages are written alike: valid messages with the same wire form
/// are the same message.
pub proof fn lemma_wire_is_injective(first: Seq<TokenView>, second: Seq<TokenView>)
    requires
        valid_message(first),
        all_line_safe(first),
        valid_message(second),
        all_line_safe(second),
        message_wire(first) == message_wire(second),
    ensures
        first == second,
{
    lemma_parse_round_trip(first, Seq::empty());
    lemma_parse_round_trip(second, Seq::empty());
}

/// The wire form of a frame: that of the message it lowers to.
pub open spec fn frame_wire(frame: FrameView) -> Seq<u8> {
    message_wire(frame_message(frame))
}

/// Whether the frame survives the wire: no text in it holds `\r\n`.
pub open spec fn frame_line_safe(frame: FrameView) -> bool {
    all_line_safe(frame_message(frame))
}

/// The codec loses nothing: what is written for a valid frame is read back
/// as a message that lifts to that frame, and exactly its bytes are consumed,
/// whatever follows them.
pub proof fn lemma_frame_wire_round_trip(frame: FrameView, rest: Seq<u8>)
    requires
        frame.valid(),
        frame_line_safe(frame),
    ensures
        message_at(frame_wire(frame) + rest) == ParseStep::Complete(
            frame_message(frame),
            frame_wire(frame).len() as int,
        ),
        message_frame(frame_message(frame)) == frame,
{
    lemma_frame_round_trip(frame);
    lemma_parse_round_trip(frame_message(frame), rest);
}

} // verus!
