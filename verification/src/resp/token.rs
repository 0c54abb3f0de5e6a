//! The wire-level atoms of RESP, and their exact form in bytes.

use crate::resp::bulk::{bytes_as_slice, bytes_contents};
use crate::resp::decimal::{int_digits, push_decimal};
use crate::resp::text::string_from_utf8;
use bytes::Bytes;
use vstd::prelude::*;
use vstd::utf8::{decode_utf8, encode_utf8, valid_utf8};

verus! {

/// The byte `\r`.
pub const CR: u8 = 13;

/// The byte `\n`.
pub const LF: u8 = 10;

/// The prefix of a simple string, `+`.
pub const PREFIX_SIMPLE: u8 = 43;

/// The prefix of an error, `-`.
pub const PREFIX_ERROR: u8 = 45;

/// The prefix of an integer, `:`.
pub const PREFIX_INTEGER: u8 = 58;

/// The prefix of a bulk string and of null, `$`.
pub const PREFIX_BULK: u8 = 36;

/// The prefix of an array header, `*`.
pub const PREFIX_ARRAY: u8 = 42;

/// One RESP token.
#[derive(Debug)]
pub enum RESPToken {
    /// `+<text>\r\n`
    SimpleString(String),
    /// `-<text>\r\n`
    Error(String),
    /// `:<n>\r\n`
    Integer(i64),
    /// `$<len>\r\n<bytes>\r\n`, where `len` is the number of bytes.
    BulkString(u32, Bytes),
    /// `$-1\r\n`
    Null,
    /// `*<n>\r\n`, the header of an array of `n` tokens.
    ArraySize(u32),
}

/// What a token stands for: text as characters, a bulk payload as bytes.
pub ghost enum TokenView {
    SimpleString(Seq<char>),
    Error(Seq<char>),
    Integer(i64),
    BulkString(u32, Seq<u8>),
    Null,
    ArraySize(u32),
}

/// The line terminator, `\r\n`.
pub open spec fn crlf() -> Seq<u8> {
    seq![CR, LF]
}

impl TokenView {
    /// A bulk string's declared length is the length of its payload.
    pub open spec fn wf(self) -> bool {
        self matches TokenView::BulkString(len, data) ==> len == data.len()
    }

    /// The token's wire form, byte for byte.
    pub open spec fn wire(self) -> Seq<u8> {
        match self {
            TokenView::SimpleString(text) => seq![PREFIX_SIMPLE] + encode_utf8(text) + crlf(),
            TokenView::Error(text) => seq![PREFIX_ERROR] + encode_utf8(text) + crlf(),
            TokenView::Integer(n) => seq![PREFIX_INTEGER] + int_digits(n as int) + crlf(),
            TokenView::BulkString(len, data) => seq![PREFIX_BULK] + int_digits(len as int) + crlf()
                + data + crlf(),
            TokenView::Null => seq![PREFIX_BULK] + int_digits(-1) + crlf(),
            TokenView::ArraySize(n) => seq![PREFIX_ARRAY] + int_digits(n as int) + crlf(),
        }
    }
}

impl View for RESPToken {
    type V = TokenView;

    open spec fn view(&self) -> TokenView {
        match self {
            RESPToken::SimpleString(s) => TokenView::SimpleString(s@),
            RESPToken::Error(s) => TokenView::Error(s@),
            RESPToken::Integer(n) => TokenView::Integer(*n),
            RESPToken::BulkString(len, b) => TokenView::BulkString(*len, bytes_contents(*b)),
            RESPToken::Null => TokenView::Null,
            RESPToken::ArraySize(n) => TokenView::ArraySize(*n),
        }
    }
}

/// Appends the bytes of `s` to `out`.
pub(crate) fn push_bytes(out: &mut Vec<u8>, s: &[u8])
    ensures
        final(out)@ == old(out)@ + s@,
{
    let mut i: usize = 0;
    while i < s.len()
        invariant
            0 <= i <= s@.len(),
            out@ == old(out)@ + s@.subrange(0, i as int),
        decreases s@.len() - i,
    {
        out.push(s[i]);
        i = i + 1;
        assert(out@ =~= old(out)@ + s@.subrange(0, i as int));
    }
    assert(s@.subrange(0, i as int) =~= s@);
}

/// Appends `\r\n` to `out`.
pub(crate) fn push_crlf(out: &mut Vec<u8>)
    ensures
        final(out)@ == old(out)@ + crlf(),
{
    out.push(CR);
    out.push(LF);
    assert(final(out)@ =~= old(out)@ + crlf());
}

impl RESPToken {
    /// Appends the token's wire form to `out`.
    pub fn write_to(&self, out: &mut Vec<u8>)
        ensures
            final(out)@ == old(out)@ + self@.wire(),
    {
        match self {
            RESPToken::SimpleString(s) => {
                out.push(PREFIX_SIMPLE);
                push_bytes(out, s.as_str().as_bytes());
                push_crlf(out);
            },
            RESPToken::Error(s) => {
                out.push(PREFIX_ERROR);
                push_bytes(out, s.as_str().as_bytes());
                push_crlf(out);
            },
            RESPToken::Integer(n) => {
                out.push(PREFIX_INTEGER);
                push_decimal(out, *n);
                push_crlf(out);
            },
            RESPToken::BulkString(len, b) => {
                out.push(PREFIX_BULK);
                push_decimal(out, *len as i64);
                push_crlf(out);
                push_bytes(out, bytes_as_slice(b));
                push_crlf(out);
            },
            RESPToken::Null => {
                out.push(PREFIX_BULK);
                push_decimal(out, -1);
                push_crlf(out);
            },
            RESPToken::ArraySize(n) => {
                out.push(PREFIX_ARRAY);
                push_decimal(out, *n as i64);
                push_crlf(out);
            },
        }
        assert(final(out)@ =~= old(out)@ + self@.wire());
    }

    /// The token's wire form.
    pub fn to_bytes(&self) -> (out: Vec<u8>)
        ensures
            out@ == self@.wire(),
    {
        let mut out: Vec<u8> = Vec::new();
        self.write_to(&mut out);
        assert(out@ =~= self@.wire());
        out
    }

    /// The token's wire form as text. Every token but a bulk string with a
    /// payload that is not UTF-8 has one.
    pub fn to_string(self) -> (text: String)
        requires
            valid_utf8(self@.wire()),
        ensures
            text@ == decode_utf8(self@.wire()),
            encode_utf8(text@) == self@.wire(),
    {
        let bytes = self.to_bytes();
        proof {
            vstd::utf8::decode_utf8_encode_utf8(bytes@);
        }
        match string_from_utf8(bytes) {
            Some(text) => text,
            None => String::new(),
        }
    }
}

} // verus!
