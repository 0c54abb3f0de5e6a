//! The commands that the server knows, and the options of SET.

use crate::resp::bulk::{bytes_as_slice, bytes_contents};
use bytes::Bytes;
use vstd::prelude::*;
use vstd::utf8::{is_ascii_chars, is_ascii_chars_encode_utf8};

verus! {

/// A command, as the first element of a request names it.
#[derive(Debug, Clone, Copy, PartialEq, Eq, Structural)]
pub enum RedisCommand {
    PING,
    ECHO,
    GET,
    SET,
    UNDEFINED,
}

/// When SET may write.
#[derive(Debug, Clone, Copy, PartialEq, Eq, Structural)]
pub enum SetCommandExistFlag {
    /// Only if the key holds no value.
    NX,
    /// Only if the key holds a value.
    XX,
}

/// What SET does to the key's expiry.
#[derive(Debug, Clone, Copy, PartialEq, Eq, Structural)]
pub enum SetCommandTTLFlag {
    /// Expire this many seconds from now.
    EX(u64),
    /// Expire this many milliseconds from now.
    PX(u64),
    /// Expire at this Unix time, in seconds.
    EXAT(u64),
    /// Expire at this Unix time, in milliseconds.
    PXAT(u64),
    /// Leave the expiry as it is.
    KEEPTTL,
}

/// The options of one SET.
#[derive(Debug, Clone, Copy, PartialEq, Eq)]
pub struct SetCommandFlags {
    pub exist_flag: Option<SetCommandExistFlag>,
    pub get_flag: bool,
    pub ttl_flag: Option<SetCommandTTLFlag>,
}

impl Default for SetCommandFlags {
    /// No option at all: write whatever the key holds, reply `OK`, clear the
    /// expiry.
    fn default() -> (flags: SetCommandFlags)
        ensures
            flags == (SetCommandFlags { exist_flag: None, get_flag: false, ttl_flag: None }),
    {
        SetCommandFlags { exist_flag: None, get_flag: false, ttl_flag: None }
    }
}

/// The upper-case form of an ASCII letter; any other byte stays.
pub open spec fn ascii_upper(b: u8) -> u8 {
    if 97 <= b <= 122 {
        (b - 32) as u8
    } else {
        b
    }
}

/// `s` with each ASCII letter in upper case.
pub open spec fn ascii_uppercase(s: Seq<u8>) -> Seq<u8> {
    Seq::new(s.len(), |i: int| ascii_upper(s[i]))
}

/// The bytes of a text that is ASCII: each character as one byte.
pub open spec fn ascii_bytes(text: Seq<char>) -> Seq<u8> {
    Seq::new(text.len(), |i: int| text[i] as u8)
}

/// The bytes `PING`.
pub open spec fn keyword_ping() -> Seq<u8> {
    ascii_bytes("PING"@)
}

/// The bytes `ECHO`.
pub open spec fn keyword_echo() -> Seq<u8> {
    ascii_bytes("ECHO"@)
}

/// The bytes `GET`.
pub open spec fn keyword_get() -> Seq<u8> {
    ascii_bytes("GET"@)
}

/// The bytes `SET`.
pub open spec fn keyword_set() -> Seq<u8> {
    ascii_bytes("SET"@)
}

/// The bytes `NX`.
pub open spec fn keyword_nx() -> Seq<u8> {
    ascii_bytes("NX"@)
}

/// The bytes `XX`.
pub open spec fn keyword_xx() -> Seq<u8> {
    ascii_bytes("XX"@)
}

/// The bytes `EX`.
pub open spec fn keyword_ex() -> Seq<u8> {
    ascii_bytes("EX"@)
}

/// The bytes `PX`.
pub open spec fn keyword_px() -> Seq<u8> {
    ascii_bytes("PX"@)
}

/// The bytes `EXAT`.
pub open spec fn keyword_exat() -> Seq<u8> {
    ascii_bytes("EXAT"@)
}

/// The bytes `PXAT`.
pub open spec fn keyword_pxat() -> Seq<u8> {
    ascii_bytes("PXAT"@)
}

/// The bytes `KEEPTTL`.
pub open spec fn keyword_keepttl() -> Seq<u8> {
    ascii_bytes("KEEPTTL"@)
}

/// The keywords byte by byte.
pub proof fn lemma_keywords()
    ensures
        keyword_ping() == seq![80u8, 73u8, 78u8, 71u8],
        keyword_echo() == seq![69u8, 67u8, 72u8, 79u8],
        keyword_get() == seq![71u8, 69u8, 84u8],
        keyword_set() == seq![83u8, 69u8, 84u8],
        keyword_nx() == seq![78u8, 88u8],
        keyword_xx() == seq![88u8, 88u8],
        keyword_ex() == seq![69u8, 88u8],
        keyword_px() == seq![80u8, 88u8],
        keyword_exat() == seq![69u8, 88u8, 65u8, 84u8],
        keyword_pxat() == seq![80u8, 88u8, 65u8, 84u8],
        keyword_keepttl() == seq![75u8, 69u8, 69u8, 80u8, 84u8, 84u8, 76u8],
{
    reveal_strlit("PING");
    reveal_strlit("ECHO");
    reveal_strlit("GET");
    reveal_strlit("SET");
    reveal_strlit("NX");
    reveal_strlit("XX");
    reveal_strlit("EX");
    reveal_strlit("PX");
    reveal_strlit("EXAT");
    reveal_strlit("PXAT");
    reveal_strlit("KEEPTTL");
    assert(keyword_ping() =~= seq![80u8, 73u8, 78u8, 71u8]);
    assert(keyword_echo() =~= seq![69u8, 67u8, 72u8, 79u8]);
    assert(keyword_get() =~= seq![71u8, 69u8, 84u8]);
    assert(keyword_set() =~= seq![83u8, 69u8, 84u8]);
    assert(keyword_nx() =~= seq![78u8, 88u8]);
    assert(keyword_xx() =~= seq![88u8, 88u8]);
    assert(keyword_ex() =~= seq![69u8, 88u8]);
    assert(keyword_px() =~= seq![80u8, 88u8]);
    assert(keyword_exat() =~= seq![69u8, 88u8, 65u8, 84u8]);
    assert(keyword_pxat() =~= seq![80u8, 88u8, 65u8, 84u8]);
    assert(keyword_keepttl() =~= seq![75u8, 69u8, 69u8, 80u8, 84u8, 84u8, 76u8]);
}

/// The command that `name` names, whatever the case of its letters.
pub open spec fn command_of(name: Seq<u8>) -> RedisCommand {
    let upper = ascii_uppercase(name);
    if upper == keyword_ping() {
        RedisCommand::PING
    } else if upper == keyword_echo() {
        RedisCommand::ECHO
    } else if upper == keyword_get() {
        RedisCommand::GET
    } else if upper == keyword_set() {
        RedisCommand::SET
    } else {
        RedisCommand::UNDEFINED
    }
}

/// Whether `bytes`, with its letters in upper case, is the ASCII word
/// `keyword`.
pub(crate) fn matches_keyword(bytes: &[u8], keyword: &str) -> (r: bool)
    requires
        is_ascii_chars(keyword@),
    ensures
        r == (ascii_uppercase(bytes@) == ascii_bytes(keyword@)),
{
    let word = keyword.as_bytes();
    proof {
        is_ascii_chars_encode_utf8(keyword@);
        assert(word@ =~= ascii_bytes(keyword@));
    }
    if bytes.len() != word.len() {
        assert(ascii_uppercase(bytes@).len() != ascii_bytes(keyword@).len());
        return false;
    }
    let mut i: usize = 0;
    while i < bytes.len()
        invariant
            0 <= i <= bytes@.len(),
            bytes@.len() == word@.len(),
            word@ == ascii_bytes(keyword@),
            forall|j: int| 0 <= j < i ==> ascii_upper(bytes@[j]) == word@[j],
        decreases bytes@.len() - i,
    {
        let b: u8 = bytes[i];
        let upper: u8 = if 97 <= b && b <= 122 {
            b - 32
        } else {
            b
        };
        if upper != word[i] {
            assert(ascii_uppercase(bytes@)[i as int] != word@[i as int]);
            return false;
        }
        i = i + 1;
    }
    assert(ascii_uppercase(bytes@) =~= word@);
    true
}

impl RedisCommand {
    /// The command that `command` names, whatever the case of its letters.
    pub fn from(command: &Bytes) -> (r: RedisCommand)
        ensures
            r == command_of(bytes_contents(*command)),
    {
        let name = bytes_as_slice(command);
        proof {
            reveal_strlit("PING");
            reveal_strlit("ECHO");
            reveal_strlit("GET");
            reveal_strlit("SET");
        }
        if matches_keyword(name, "PING") {
            RedisCommand::PING
        } else if matches_keyword(name, "ECHO") {
            RedisCommand::ECHO
        } else if matches_keyword(name, "GET") {
            RedisCommand::GET
        } else if matches_keyword(name, "SET") {
            RedisCommand::SET
        } else {
            RedisCommand::UNDEFINED
        }
    }
}

} // verus!
