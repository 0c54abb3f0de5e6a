//! Bulk payloads are held in `bytes::Bytes`. Verus cannot look inside that
//! type, so this module names what a buffer holds and states, without proof,
//! what the few operations used by the codec do to it.

use bytes::Bytes;
use vstd::prelude::*;

verus! {

/// `bytes::Bytes`, a cheaply cloned buffer of bytes that never changes.
/// Nothing of its inside is known here.
#[verifier::external_type_specification]
#[verifier::external_body]
pub struct ExBytes(bytes::Bytes);

/// The bytes that a buffer holds, in order.
pub uninterp spec fn bytes_contents(b: Bytes) -> Seq<u8>;

/// `Bytes::len`: the number of bytes that the buffer holds.
pub assume_specification[ Bytes::len ](b: &Bytes) -> (n: usize)
    ensures
        n == bytes_contents(*b).len(),
;

/// `<Bytes as From<Vec<u8>>>::from`: the buffer takes over the vector and
/// holds exactly its bytes.
#[verifier::external_body]
pub(crate) fn bytes_from_vec(v: Vec<u8>) -> (b: Bytes)
    ensures
        bytes_contents(b) == v@,
{
    Bytes::from(v)
}

/// `<Bytes as AsRef<[u8]>>::as_ref`: the buffer's bytes as a slice.
#[verifier::external_body]
pub(crate) fn bytes_as_slice(b: &Bytes) -> (s: &[u8])
    ensures
        s@ == bytes_contents(*b),
{
    b.as_ref()
}

/// `<Bytes as Clone>::clone`: a second handle on the same bytes.
pub assume_specification[ <Bytes as Clone>::clone ](b: &Bytes) -> (c: Bytes)
    ensures
        bytes_contents(c) == bytes_contents(*b),
;

} // verus!
