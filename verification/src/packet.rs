use vstd::prelude::*;

verus! {

#[verifier::external_type_specification]
#[verifier::external_body]
pub struct ExBytes(bytes::Bytes);

/// One application-level unit of raw transport traffic, or one multiplexed
/// sub-packet: an immutable byte buffer that is cheap to clone, so that a
/// broadcast does not copy the payload once per peer.
pub type Packet = bytes::Bytes;

/// The bytes a packet buffer holds.
pub uninterp spec fn packet_bytes(p: bytes::Bytes) -> Seq<u8>;

/// Relies on bytes::Bytes::new: creates an empty buffer.
#[verifier::external_body]
pub(crate) fn packet_new() -> (p: Packet)
    ensures
        packet_bytes(p) == Seq::<u8>::empty(),
{
    bytes::Bytes::new()
}

/// Relies on From<Vec<u8>> for bytes::Bytes: the buffer holds exactly the
/// bytes of the vector.
#[verifier::external_body]
pub(crate) fn packet_from_vec(v: Vec<u8>) -> (p: Packet)
    ensures
        packet_bytes(p) == v@,
{
    bytes::Bytes::from(v)
}

/// Relies on bytes::Bytes::len: the number of bytes the buffer holds.
#[verifier::external_body]
pub(crate) fn packet_len(p: &Packet) -> (n: usize)
    ensures
        n == packet_bytes(*p).len(),
{
    p.len()
}

/// Relies on Clone for bytes::Bytes: a shallow copy that holds the same
/// bytes as the original.
#[verifier::external_body]
pub(crate) fn packet_clone(p: &Packet) -> (q: Packet)
    ensures
        packet_bytes(q) == packet_bytes(*p),
{
    p.clone()
}

/// Relies on Deref<Target = [u8]> for bytes::Bytes: the slice of the bytes
/// the buffer holds, copied out into a vector.
#[verifier::external_body]
pub(crate) fn packet_to_vec(p: &Packet) -> (v: Vec<u8>)
    ensures
        v@ == packet_bytes(*p),
{
    p.as_ref().to_vec()
}

} // verus!
