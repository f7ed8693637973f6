use vstd::prelude::*;

verus! {

/// What happened when the listener's accept task tried to hand a fresh
/// packet to the queue it keeps per peer address.
pub enum KnownPeerDelivery {
    /// The address had a queue and the packet went in.
    Delivered,
    /// The address had a queue, but its consumer is gone: the old
    /// peer-association is stale.
    SendFailed,
    /// The address has never been seen.
    UnknownPeer,
}

/// The listener's one cross-domain decision, taken on the hot inbound
/// path: a fresh delivery queue (and with it a fresh pending connection)
/// is made exactly when the peer is new or its old queue is dead. Only in
/// those cases does the accept task upgrade its read lock to a write; a
/// packet from an already-known live peer stays lock-light.
pub fn listener_needs_fresh_channel(outcome: KnownPeerDelivery) -> (fresh: bool)
    ensures
        fresh <==> !(outcome is Delivered),
{
    match outcome {
        KnownPeerDelivery::Delivered => false,
        KnownPeerDelivery::SendFailed => true,
        KnownPeerDelivery::UnknownPeer => true,
    }
}

/// The conventional companion port a listener derives when it is not
/// given a dedicated one: the next port up from its main socket.
pub fn derived_companion_port(port: u16) -> (p: u16)
    requires
        port < u16::MAX,
    ensures
        p == port + 1,
{
    port + 1
}

} // verus!
