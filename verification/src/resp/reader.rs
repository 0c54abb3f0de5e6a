//! The input side of the parser: the bytes that have arrived and have not been
//! consumed yet.

use crate::resp::token::push_bytes;
use vstd::prelude::*;

verus! {

/// A buffer of received bytes. The parser consumes whole messages from its
/// front; whoever owns the connection appends what arrives at its back.
pub struct RESPReader {
    pub(crate) pending: Vec<u8>,
}

impl View for RESPReader {
    type V = Seq<u8>;

    /// The bytes that wait to be consumed, in the order of their arrival.
    closed spec fn view(&self) -> Seq<u8> {
        self.pending@
    }
}

impl RESPReader {
    /// A reader that holds `data`.
    pub fn new(data: Vec<u8>) -> (reader: RESPReader)
        ensures
            reader@ == data@,
    {
        RESPReader { pending: data }
    }

    /// Appends bytes that have arrived.
    pub fn feed(&mut self, more: &[u8])
        ensures
            final(self)@ == old(self)@ + more@,
    {
        push_bytes(&mut self.pending, more);
    }

    /// How many bytes wait to be consumed.
    pub fn remaining(&self) -> (n: usize)
        ensures
            n == self@.len(),
    {
        self.pending.len()
    }

    /// The bytes that wait to be consumed.
    pub fn as_slice(&self) -> (s: &[u8])
        ensures
            s@ == self@,
    {
        self.pending.as_slice()
    }

    /// Drops the first `count` bytes.
    pub(crate) fn consume(&mut self, count: usize)
        requires
            count <= old(self)@.len(),
        ensures
            final(self)@ == old(self)@.subrange(count as int, old(self)@.len() as int),
    {
        let rest = self.pending.split_off(count);
        self.pending = rest;
    }
}

} // verus!
