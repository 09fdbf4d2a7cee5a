//! Response bodies, held as `bytes::Bytes` buffers.
use vstd::prelude::*;
use bytes::Bytes;

verus! {

#[verifier::external_type_specification]
#[verifier::external_body]
pub struct ExBytes(Bytes);

/// The bytes that a `Bytes` buffer holds.
pub uninterp spec fn body_bytes(b: Bytes) -> Seq<u8>;

/// `Bytes::len`: the number of bytes in the buffer.
#[verifier::external_body]
pub(crate) fn body_len(b: &Bytes) -> (n: usize)
    ensures
        n == body_bytes(*b).len(),
{
    b.len()
}

/// `Bytes::clone`: a second handle on the same bytes.
#[verifier::external_body]
pub(crate) fn body_clone(b: &Bytes) -> (c: Bytes)
    ensures
        body_bytes(c) == body_bytes(*b),
{
    b.clone()
}

} // verus!
