//! The streaming decoder: bytes in, one message of tokens out, and the encoder
//! that goes the other way.

use crate::resp::bulk::bytes_from_vec;
use crate::resp::decimal::{decimal_i64, parse_decimal};
use crate::resp::reader::RESPReader;
use crate::resp::text::string_from_utf8;
use crate::resp::token::{
    RESPToken,
    TokenView,
    CR,
    LF,
    PREFIX_ARRAY,
    PREFIX_BULK,
    PREFIX_ERROR,
    PREFIX_INTEGER,
    PREFIX_SIMPLE,
};
use vstd::prelude::*;
use vstd::slice::{slice_subrange, slice_to_vec};
use vstd::utf8::{decode_utf8, encode_utf8, valid_utf8};

verus! {

/// One message: a single token, or an array header and the tokens it counts.
pub type RESPMessage = Vec<RESPToken>;

/// Why a message could not be decoded. Each variant but `InvalidArray` holds
/// the offset, among the bytes handed to the parser, of the token at which it
/// stopped.
#[derive(Debug, Clone, Copy, PartialEq, Eq, Structural)]
pub enum RESPParserError {
    /// A size or an integer is not a decimal number in range.
    BadIntParse(usize),
    /// The input ended inside a token, or a text is not UTF-8.
    BadRead(usize),
    /// A token has an unknown prefix or a wrong terminator, or the input
    /// ended where a token had to begin.
    InvalidToken(usize),
    /// An array header came after the first token; holds the number of tokens
    /// decoded before it.
    InvalidArray(usize),
}

/// What the buffered bytes amount to.
#[derive(Debug)]
pub enum RESPParseStatus {
    /// A whole message, which has been consumed.
    Complete(RESPMessage),
    /// The bytes so far begin a message and more are needed; holds the offset
    /// of the token that is not whole yet.
    Incomplete(usize),
    /// The bytes cannot begin any message.
    Failed(RESPParserError),
}

/// What a sequence of tokens stands for.
pub open spec fn tokens_view(tokens: Seq<RESPToken>) -> Seq<TokenView> {
    tokens.map_values(|t: RESPToken| t@)
}

/// The wire form of a sequence of tokens: their wire forms, one after another.
pub open spec fn message_wire(tokens: Seq<TokenView>) -> Seq<u8>
    decreases tokens.len(),
{
    if tokens.len() == 0 {
        Seq::empty()
    } else {
        message_wire(tokens.drop_last()) + tokens.last().wire()
    }
}

/// Whether the tokens are one message: a single scalar token, or an array
/// header and exactly as many scalar tokens as it counts, each bulk string
/// with its true length.
pub open spec fn valid_message(message: Seq<TokenView>) -> bool {
    &&& message.len() >= 1
    &&& forall|i: int| 0 <= i < message.len() ==> (#[trigger] message[i]).wf()
    &&& forall|i: int| 1 <= i < message.len() ==> !((#[trigger] message[i]) is ArraySize)
    &&& match message[0] {
        TokenView::ArraySize(n) => message.len() == n + 1,
        _ => message.len() == 1,
    }
}

/// Where the first `\r\n` at or after `from` begins, if there is one.
pub open spec fn find_crlf(input: Seq<u8>, from: int) -> Option<int>
    decreases input.len() - from,
{
    if from < 0 || from + 1 >= input.len() {
        None
    } else if input[from] == CR && input[from + 1] == LF {
        Some(from)
    } else {
        find_crlf(input, from + 1)
    }
}

/// The outcome of decoding one token.
pub ghost enum TokenStep {
    /// The token, and the offset just behind it.
    Token(TokenView, int),
    /// The input ends before the token does.
    Incomplete,
    /// No token can begin like this.
    Failed(RESPParserError),
}

/// The outcome of decoding one message.
pub ghost enum ParseStep {
    /// The message, and the offset just behind it.
    Complete(Seq<TokenView>, int),
    /// The input ends before the message does; holds the offset of the token
    /// that is not whole.
    Incomplete(int),
    /// No message can begin like this.
    Failed(RESPParserError),
}

/// The token that a text line holds: the text that its payload encodes.
pub open spec fn text_token(
    payload: Seq<u8>,
    is_error: bool,
    pos: int,
    next: int,
) -> TokenStep {
    if !valid_utf8(payload) {
        TokenStep::Failed(RESPParserError::BadRead(pos as usize))
    } else if is_error {
        TokenStep::Token(TokenView::Error(decode_utf8(payload)), next)
    } else {
        TokenStep::Token(TokenView::SimpleString(decode_utf8(payload)), next)
    }
}

/// The token that a `$` line opens: null for the length -1, else a payload of
/// the stated length and its terminator, which begin at `next`.
pub open spec fn bulk_token(input: Seq<u8>, payload: Seq<u8>, pos: int, next: int) -> TokenStep {
    match decimal_i64(payload) {
        None => TokenStep::Failed(RESPParserError::BadIntParse(pos as usize)),
        Some(len) => {
            if len == -1 {
                TokenStep::Token(TokenView::Null, next)
            } else if len < 0 || len > u32::MAX {
                TokenStep::Failed(RESPParserError::BadIntParse(pos as usize))
            } else if next + len + 2 > input.len() {
                TokenStep::Incomplete
            } else if input[next + len] != CR || input[next + len + 1] != LF {
                TokenStep::Failed(RESPParserError::InvalidToken(pos as usize))
            } else {
                TokenStep::Token(
                    TokenView::BulkString(len as u32, input.subrange(next, next + len)),
                    next + len + 2,
                )
            }
        },
    }
}

/// The token that a `*` line holds, which only the first token of a message
/// may be.
pub open spec fn array_token(payload: Seq<u8>, pos: int, next: int, parsed: nat) -> TokenStep {
    if parsed > 0 {
        TokenStep::Failed(RESPParserError::InvalidArray(parsed as usize))
    } else {
        match decimal_i64(payload) {
            Some(n) => if 0 <= n <= u32::MAX {
                TokenStep::Token(TokenView::ArraySize(n as u32), next)
            } else {
                TokenStep::Failed(RESPParserError::BadIntParse(pos as usize))
            },
            None => TokenStep::Failed(RESPParserError::BadIntParse(pos as usize)),
        }
    }
}

/// Decodes the token that begins at `pos`, where `parsed` tokens of the
/// message came before it. The token's line runs up to the first `\r\n`; its
/// first byte is the prefix, the rest the payload.
pub open spec fn token_at(input: Seq<u8>, pos: int, parsed: nat) -> TokenStep {
    match find_crlf(input, pos) {
        None => TokenStep::Incomplete,
        Some(end) => {
            if end == pos {
                TokenStep::Failed(RESPParserError::InvalidToken(pos as usize))
            } else {
                let payload = input.subrange(pos + 1, end);
                let next = end + 2;
                let prefix = input[pos];
                if prefix == PREFIX_SIMPLE {
                    text_token(payload, false, pos, next)
                } else if prefix == PREFIX_ERROR {
                    text_token(payload, true, pos, next)
                } else if prefix == PREFIX_INTEGER {
                    match decimal_i64(payload) {
                        Some(n) => TokenStep::Token(TokenView::Integer(n), next),
                        None => TokenStep::Failed(RESPParserError::BadIntParse(pos as usize)),
                    }
                } else if prefix == PREFIX_BULK {
                    bulk_token(input, payload, pos, next)
                } else if prefix == PREFIX_ARRAY {
                    array_token(payload, pos, next, parsed)
                } else {
                    TokenStep::Failed(RESPParserError::InvalidToken(pos as usize))
                }
            }
        },
    }
}

/// How many more tokens a token asks for: an array header, which can only
/// come first, asks for as many as it counts.
pub open spec fn tokens_announced(token: TokenView, parsed: nat) -> nat {
    match token {
        TokenView::ArraySize(n) => if parsed == 0 {
            n as nat
        } else {
            0
        },
        _ => 0,
    }
}

/// Decodes from `pos` on until `remaining` more tokens have been read, after
/// the tokens in `parsed`.
pub open spec fn parse_from(
    input: Seq<u8>,
    pos: int,
    remaining: nat,
    parsed: Seq<TokenView>,
) -> ParseStep
    decreases
            (if parsed.len() == 0 {
                1nat
            } else {
                0nat
            }),
            remaining,
{
    if remaining == 0 {
        ParseStep::Complete(parsed, pos)
    } else {
        match token_at(input, pos, parsed.len()) {
            TokenStep::Token(token, next) => parse_from(
                input,
                next,
                (remaining - 1 + tokens_announced(token, parsed.len())) as nat,
                parsed.push(token),
            ),
            TokenStep::Incomplete => ParseStep::Incomplete(pos),
            TokenStep::Failed(e) => ParseStep::Failed(e),
        }
    }
}

/// Decodes the one message that begins `input`.
pub open spec fn message_at(input: Seq<u8>) -> ParseStep {
    parse_from(input, 0, 1, Seq::empty())
}

/// Decodes the one message that begins `input`, where `input` is all that
/// will ever come: the message and the number of bytes it took, or the error.
/// An input that ends where a token had to begin is an invalid token; one
/// that ends inside a token is a bad read.
pub open spec fn parse_result(input: Seq<u8>) -> Result<(Seq<TokenView>, int), RESPParserError> {
    match message_at(input) {
        ParseStep::Complete(tokens, end) => Ok((tokens, end)),
        ParseStep::Incomplete(at) => if at == input.len() {
            Err(RESPParserError::InvalidToken(at as usize))
        } else {
            Err(RESPParserError::BadRead(at as usize))
        },
        ParseStep::Failed(e) => Err(e),
    }
}

/// The first `\r\n` from `from` on lies at or behind `from` and inside the
/// input.
pub proof fn lemma_find_crlf_bounds(input: Seq<u8>, from: int)
    ensures
        find_crlf(input, from) matches Some(end) ==> from <= end && end + 1 < input.len()
            && input[end] == CR && input[end + 1] == LF,
    decreases input.len() - from,
{
    if from < 0 || from + 1 >= input.len() {
    } else if input[from] == CR && input[from + 1] == LF {
    } else {
        lemma_find_crlf_bounds(input, from + 1);
    }
}

/// A token that the parser reads is well formed and ends inside the input,
/// behind where it began; behind the first token it is no array header.
pub proof fn lemma_token_at_valid(input: Seq<u8>, pos: int, parsed: nat)
    requires
        0 <= pos,
    ensures
        token_at(input, pos, parsed) matches TokenStep::Token(token, next) ==> {
            &&& token.wf()
            &&& pos < next <= input.len()
            &&& parsed > 0 ==> !(token is ArraySize)
        },
{
    lemma_find_crlf_bounds(input, pos);
}

/// Whether the tokens read so far, with `remaining` more to come, are on the
/// way to one message.
pub open spec fn valid_so_far(parsed: Seq<TokenView>, remaining: nat) -> bool {
    if parsed.len() == 0 {
        remaining == 1
    } else {
        &&& forall|i: int| 0 <= i < parsed.len() ==> (#[trigger] parsed[i]).wf()
        &&& forall|i: int| 1 <= i < parsed.len() ==> !((#[trigger] parsed[i]) is ArraySize)
        &&& match parsed[0] {
            TokenView::ArraySize(n) => parsed.len() + remaining == n + 1,
            _ => parsed.len() == 1 && remaining == 0,
        }
    }
}

/// What the parser reads to the end is one message, and it ends inside the
/// input.
pub proof fn lemma_parse_from_valid(
    input: Seq<u8>,
    pos: int,
    remaining: nat,
    parsed: Seq<TokenView>,
)
    requires
        0 <= pos <= input.len(),
        valid_so_far(parsed, remaining),
    ensures
        parse_from(input, pos, remaining, parsed) matches ParseStep::Complete(tokens, end) ==> {
            &&& valid_message(tokens)
            &&& pos <= end <= input.len()
            &&& parsed.len() == 0 ==> pos < end
        },
    decreases
            (if parsed.len() == 0 {
                1nat
            } else {
                0nat
            }),
            remaining,
{
    if remaining > 0 {
        lemma_token_at_valid(input, pos, parsed.len());
        match token_at(input, pos, parsed.len()) {
            TokenStep::Token(token, next) => {
                let more = (remaining - 1 + tokens_announced(token, parsed.len())) as nat;
                let longer = parsed.push(token);
                assert(valid_so_far(longer, more)) by {
                    assert forall|i: int| 0 <= i < longer.len() implies (#[trigger] longer[i]).wf() by {
                        if i < parsed.len() {
                            assert(longer[i] == parsed[i]);
                        }
                    }
                    assert forall|i: int| 1 <= i < longer.len() implies !((
                    #[trigger] longer[i]) is ArraySize) by {
                        if i < parsed.len() {
                            assert(longer[i] == parsed[i]);
                        }
                    }
                    if parsed.len() > 0 {
                        assert(longer[0] == parsed[0]);
                    }
                }
                lemma_parse_from_valid(input, next, more, longer);
            },
            _ => {},
        }
    }
}

/// Every message that the parser reads is valid: one scalar token, or an
/// array header and exactly as many scalar tokens as it counts. It takes at
/// least one byte and none beyond the input.
pub proof fn lemma_parsed_message_valid(input: Seq<u8>)
    ensures
        message_at(input) matches ParseStep::Complete(tokens, end) ==> valid_message(tokens) && 0
            < end <= input.len(),
{
    lemma_parse_from_valid(input, 0, 1, Seq::empty());
}

/// One token as the parser hands it on, with the offset behind it.
enum TokenRead {
    Token(RESPToken, usize),
    Incomplete,
    Failed(RESPParserError),
}

/// Stateless: the parser keeps nothing between messages.
pub struct RESPParser;

impl RESPParser {
    /// The line that begins at `from`: the bytes up to and including the
    /// first `\r\n`, or `None` where the input holds none from there on.
    pub fn read_token(input: &[u8], from: usize) -> (line: Option<&[u8]>)
        ensures
            match find_crlf(input@, from as int) {
                Some(end) => line matches Some(l) && l@ == input@.subrange(from as int, end + 2),
                None => line is None,
            },
            find_crlf(input@, from as int) matches Some(end) ==> from <= end && end + 2
                <= input@.len(),
            line matches Some(l) ==> from + l@.len() <= usize::MAX,
    {
        let mut i: usize = from;
        while i < input.len() && i + 1 < input.len()
            invariant
                from <= i,
                find_crlf(input@, from as int) == find_crlf(input@, i as int),
            decreases input@.len() - i,
        {
            if input[i] == CR && input[i + 1] == LF {
                return Some(slice_subrange(input, from, i + 2));
            }
            i = i + 1;
        }
        None
    }

    /// The payload of a line: the line without its prefix byte and without
    /// its terminator.
    pub fn trim_token(token: &[u8]) -> (payload: &[u8])
        requires
            token@.len() >= 3,
        ensures
            payload@ == token@.subrange(1, token@.len() - 2),
    {
        slice_subrange(token, 1, token.len() - 2)
    }

    /// Decodes the text of a `+` or `-` line.
    fn read_text(payload: &[u8], is_error: bool, pos: usize, next: usize) -> (r: TokenRead)
        ensures
            token_read_matches(r, text_token(payload@, is_error, pos as int, next as int)),
    {
        match string_from_utf8(slice_to_vec(payload)) {
            Some(text) => if is_error {
                TokenRead::Token(RESPToken::Error(text), next)
            } else {
                TokenRead::Token(RESPToken::SimpleString(text), next)
            },
            None => TokenRead::Failed(RESPParserError::BadRead(pos)),
        }
    }

    /// Decodes what a `$` line opens.
    fn read_bulk(input: &[u8], payload: &[u8], pos: usize, next: usize) -> (r: TokenRead)
        requires
            next <= input@.len(),
        ensures
            token_read_matches(r, bulk_token(input@, payload@, pos as int, next as int)),
    {
        assert(payload@.subrange(0, payload@.len() as int) =~= payload@);
        match parse_decimal(payload, 0, payload.len()) {
            None => TokenRead::Failed(RESPParserError::BadIntParse(pos)),
            Some(len) => {
                if len == -1 {
                    TokenRead::Token(RESPToken::Null, next)
                } else if len < 0 || len > 0xffff_ffff {
                    TokenRead::Failed(RESPParserError::BadIntParse(pos))
                } else {
                    let available: u64 = (input.len() - next) as u64;
                    if len as u64 + 2 > available {
                        TokenRead::Incomplete
                    } else {
                        let size: usize = len as usize;
                        if input[next + size] != CR || input[next + size + 1] != LF {
                            TokenRead::Failed(RESPParserError::InvalidToken(pos))
                        } else {
                            let data = slice_to_vec(slice_subrange(input, next, next + size));
                            TokenRead::Token(
                                RESPToken::BulkString(len as u32, bytes_from_vec(data)),
                                next + size + 2,
                            )
                        }
                    }
                }
            },
        }
    }

    /// Decodes a `*` line.
    fn read_array_size(payload: &[u8], pos: usize, next: usize, parsed: usize) -> (r: TokenRead)
        ensures
            token_read_matches(r, array_token(payload@, pos as int, next as int, parsed as nat)),
    {
        if parsed > 0 {
            return TokenRead::Failed(RESPParserError::InvalidArray(parsed));
        }
        assert(payload@.subrange(0, payload@.len() as int) =~= payload@);
        match parse_decimal(payload, 0, payload.len()) {
            Some(n) => if 0 <= n && n <= 0xffff_ffff {
                TokenRead::Token(RESPToken::ArraySize(n as u32), next)
            } else {
                TokenRead::Failed(RESPParserError::BadIntParse(pos))
            },
            None => TokenRead::Failed(RESPParserError::BadIntParse(pos)),
        }
    }

    /// Decodes the token that begins at `pos`.
    fn read_token_at(input: &[u8], pos: usize, parsed: usize) -> (r: TokenRead)
        requires
            pos <= input@.len(),
        ensures
            token_read_matches(r, token_at(input@, pos as int, parsed as nat)),
            r matches TokenRead::Token(_, next) ==> pos < next <= input@.len(),
    {
        let line = match RESPParser::read_token(input, pos) {
            None => {
                return TokenRead::Incomplete;
            },
            Some(line) => line,
        };
        let ghost end = find_crlf(input@, pos as int).unwrap();
        if line.len() < 3 {
            return TokenRead::Failed(RESPParserError::InvalidToken(pos));
        }
        let payload = RESPParser::trim_token(line);
        let next: usize = pos + line.len();
        assert(payload@ =~= input@.subrange(pos + 1, end));
        let prefix: u8 = line[0];
        assert(prefix == input@[pos as int]);
        if prefix == PREFIX_SIMPLE {
            RESPParser::read_text(payload, false, pos, next)
        } else if prefix == PREFIX_ERROR {
            RESPParser::read_text(payload, true, pos, next)
        } else if prefix == PREFIX_INTEGER {
            assert(payload@.subrange(0, payload@.len() as int) =~= payload@);
            match parse_decimal(payload, 0, payload.len()) {
                Some(n) => TokenRead::Token(RESPToken::Integer(n), next),
                None => TokenRead::Failed(RESPParserError::BadIntParse(pos)),
            }
        } else if prefix == PREFIX_BULK {
            RESPParser::read_bulk(input, payload, pos, next)
        } else if prefix == PREFIX_ARRAY {
            RESPParser::read_array_size(payload, pos, next, parsed)
        } else {
            TokenRead::Failed(RESPParserError::InvalidToken(pos))
        }
    }

    /// Decodes one message from the front of the reader, if the reader holds
    /// a whole one, and consumes it. Where it holds only the beginning of
    /// one, or what can begin none, the reader stays as it is.
    pub fn try_parse(reader: &mut RESPReader) -> (status: RESPParseStatus)
        ensures
            match message_at(old(reader)@) {
                ParseStep::Complete(tokens, end) => {
                    &&& status matches RESPParseStatus::Complete(message)
                    &&& tokens_view(message@) == tokens
                    &&& valid_message(tokens)
                    &&& 0 < end <= old(reader)@.len()
                    &&& final(reader)@ == old(reader)@.subrange(end, old(reader)@.len() as int)
                },
                ParseStep::Incomplete(at) => {
                    &&& status matches RESPParseStatus::Incomplete(offset)
                    &&& offset == at
                    &&& final(reader)@ == old(reader)@
                },
                ParseStep::Failed(e) => {
                    &&& status matches RESPParseStatus::Failed(error)
                    &&& error == e
                    &&& final(reader)@ == old(reader)@
                },
            },
    {
        let mut message: RESPMessage = Vec::new();
        let mut remaining: u64 = 1;
        let mut pos: usize = 0;
        let input = reader.as_slice();
        assert(tokens_view(message@) =~= Seq::empty());
        while remaining > 0
            invariant
                input@ == reader@,
                reader@ == old(reader)@,
                pos <= input@.len(),
                remaining <= 0xffff_ffff + 1,
                message@.len() == 0 ==> remaining == 1,
                message_at(input@) == parse_from(
                    input@,
                    pos as int,
                    remaining as nat,
                    tokens_view(message@),
                ),
            decreases
                    (if message@.len() == 0 {
                        1nat
                    } else {
                        0nat
                    }),
                    remaining,
        {
            match RESPParser::read_token_at(input, pos, message.len()) {
                TokenRead::Token(token, next) => {
                    let announced: u64 = match &token {
                        RESPToken::ArraySize(n) => *n as u64,
                        _ => 0,
                    };
                    proof {
                        assert(tokens_view(message@.push(token)) =~= tokens_view(message@).push(
                            token@,
                        ));
                        assert(announced == tokens_announced(token@, message@.len()));
                    }
                    message.push(token);
                    remaining = remaining - 1 + announced;
                    pos = next;
                },
                TokenRead::Incomplete => {
                    return RESPParseStatus::Incomplete(pos);
                },
                TokenRead::Failed(e) => {
                    return RESPParseStatus::Failed(e);
                },
            }
        }
        proof {
            lemma_parsed_message_valid(input@);
        }
        reader.consume(pos);
        RESPParseStatus::Complete(message)
    }

    /// Decodes one message from the front of the reader and consumes it,
    /// taking what the reader holds for all that will ever come. On an error
    /// the reader stays as it is.
    pub fn parse(reader: &mut RESPReader) -> (result: Result<RESPMessage, RESPParserError>)
        ensures
            match parse_result(old(reader)@) {
                Ok((tokens, end)) => {
                    &&& result matches Ok(message)
                    &&& tokens_view(message@) == tokens
                    &&& valid_message(tokens)
                    &&& 0 < end <= old(reader)@.len()
                    &&& final(reader)@ == old(reader)@.subrange(end, old(reader)@.len() as int)
                },
                Err(e) => result == Err::<RESPMessage, RESPParserError>(e) && final(reader)@ == old(
                    reader,
                )@,
            },
    {
        let buffered: usize = reader.remaining();
        match RESPParser::try_parse(reader) {
            RESPParseStatus::Complete(message) => Ok(message),
            RESPParseStatus::Incomplete(at) => if at == buffered {
                Err(RESPParserError::InvalidToken(at))
            } else {
                Err(RESPParserError::BadRead(at))
            },
            RESPParseStatus::Failed(e) => Err(e),
        }
    }
}

/// Whether what the parser read is what the grammar says.
spec fn token_read_matches(r: TokenRead, step: TokenStep) -> bool {
    match step {
        TokenStep::Token(token, next) => r matches TokenRead::Token(t, n) && t@ == token && n
            == next,
        TokenStep::Incomplete => r is Incomplete,
        TokenStep::Failed(e) => r matches TokenRead::Failed(error) && error == e,
    }
}

/// The wire form of a message.
pub fn to_bytes(message: &RESPMessage) -> (out: Vec<u8>)
    ensures
        out@ == message_wire(tokens_view(message@)),
{
    let mut out: Vec<u8> = Vec::new();
    let mut i: usize = 0;
    while i < message.len()
        invariant
            0 <= i <= message@.len(),
            out@ == message_wire(tokens_view(message@.subrange(0, i as int))),
        decreases message@.len() - i,
    {
        let ghost before = tokens_view(message@.subrange(0, i as int));
        let ghost after = tokens_view(message@.subrange(0, i + 1));
        proof {
            assert(after.drop_last() =~= before);
            assert(after.last() == message@[i as int]@);
        }
        message[i].write_to(&mut out);
        i = i + 1;
    }
    assert(message@.subrange(0, i as int) =~= message@);
    out
}

/// The wire form of a message as text, which it has unless a bulk payload in
/// it is not UTF-8.
pub fn to_string(message: RESPMessage) -> (text: String)
    requires
        valid_utf8(message_wire(tokens_view(message@))),
    ensures
        text@ == decode_utf8(message_wire(tokens_view(message@))),
        encode_utf8(text@) == message_wire(tokens_view(message@)),
{
    let bytes = to_bytes(&message);
    proof {
        vstd::utf8::decode_utf8_encode_utf8(bytes@);
    }
    match string_from_utf8(bytes) {
        Some(text) => text,
        None => String::new(),
    }
}

} // verus!
