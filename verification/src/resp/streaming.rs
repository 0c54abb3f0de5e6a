//! What the parser makes of a buffer does not depend on how the bytes
//! arrived: once it has read a message, or found that none can begin, more
//! bytes behind change nothing.

use crate::resp::decimal::decimal_i64;
use crate::resp::parser::{
    find_crlf,
    lemma_find_crlf_bounds,
    lemma_token_at_valid,
    message_at,
    parse_from,
    token_at,
    tokens_announced,
    TokenStep,
};
use crate::resp::token::TokenView;
use vstd::prelude::*;

verus! {

/// A line end that is found stays where it is when bytes are appended.
proof fn lemma_find_crlf_stable(input: Seq<u8>, more: Seq<u8>, from: int)
    requires
        0 <= from,
    ensures
        find_crlf(input, from) matches Some(end) ==> find_crlf(input + more, from) == Some(end),
    decreases input.len() - from,
{
    if from + 1 < input.len() {
        assert((input + more)[from] == input[from]);
        assert((input + more)[from + 1] == input[from + 1]);
        if !(input[from] == 13 && input[from + 1] == 10) {
            lemma_find_crlf_stable(input, more, from + 1);
        }
    }
}

/// A token that is read, and an error that is found, stay as they are when
/// bytes are appended.
proof fn lemma_token_at_stable(input: Seq<u8>, more: Seq<u8>, pos: int, parsed: nat)
    requires
        0 <= pos,
    ensures
        !(token_at(input, pos, parsed) is Incomplete) ==> token_at(input + more, pos, parsed)
            == token_at(input, pos, parsed),
{
    let longer = input + more;
    lemma_find_crlf_stable(input, more, pos);
    lemma_find_crlf_bounds(input, pos);
    match find_crlf(input, pos) {
        Some(end) => {
            if end != pos {
                assert(longer[pos] == input[pos]);
                assert(longer.subrange(pos + 1, end) =~= input.subrange(pos + 1, end));
                let next = end + 2;
                if input[pos] == 36 {
                    match decimal_i64(input.subrange(pos + 1, end)) {
                        Some(len) => {
                            if 0 <= len <= u32::MAX && next + len + 2 <= input.len() {
                                assert(longer[next + len] == input[next + len]);
                                assert(longer[next + len + 1] == input[next + len + 1]);
                                assert(longer.subrange(next, next + len) =~= input.subrange(
                                    next,
                                    next + len,
                                ));
                            }
                        },
                        None => {},
                    }
                }
            }
        },
        None => {},
    }
}

/// What the parser has read to the end, and an error that it has found, stay
/// as they are when bytes are appended.
proof fn lemma_parse_from_stable(
    input: Seq<u8>,
    more: Seq<u8>,
    pos: int,
    remaining: nat,
    parsed: Seq<TokenView>,
)
    requires
        0 <= pos,
    ensures
        !(parse_from(input, pos, remaining, parsed) is Incomplete) ==> parse_from(
            input + more,
            pos,
            remaining,
            parsed,
        ) == parse_from(input, pos, remaining, parsed),
    decreases
            (if parsed.len() == 0 {
                1nat
            } else {
                0nat
            }),
            remaining,
{
    if remaining > 0 {
        lemma_token_at_stable(input, more, pos, parsed.len());
        lemma_token_at_valid(input, pos, parsed.len());
        match token_at(input, pos, parsed.len()) {
            TokenStep::Token(token, next) => {
                lemma_parse_from_stable(
                    input,
                    more,
                    next,
                    (remaining - 1 + tokens_announced(token, parsed.len()))
                        as nat,
                    parsed.push(token),
                );
            },
            _ => {},
        }
    }
}

/// What the parser has decided stays decided: where it reads a message from
/// the bytes so far, or finds that no message can begin with them, it does
/// the same with whatever bytes follow. Only "incomplete" can change, so to
/// wait for more bytes and ask again loses nothing and changes no answer.
pub proof fn lemma_parse_is_stable(input: Seq<u8>, more: Seq<u8>)
    ensures
        !(message_at(input) is Incomplete) ==> message_at(input + more) == message_at(input),
{
    lemma_parse_from_stable(input, more, 0, 1, Seq::empty());
}

} // verus!
