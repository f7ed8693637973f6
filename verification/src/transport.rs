use vstd::prelude::*;
use crate::channels::{ack_step, movable_count, rel_data_step, rel_frames_enc, spec_find_channel, spec_route_full, unrel_data_step, unrel_frames_enc, wire_cost, MessageChannels, RouteOutcome};
use crate::frame::{decode_frame, spec_decode_frame, Frame, FrameModel};
use crate::packet::{packet_bytes, packet_from_vec, packet_len, packet_to_vec, Packet};
use crate::queue::{queue_send, queue_try_recv, QueuePoll};
use crate::settings::ConnectionChannelsBuilder;
use crate::stats::{spec_with_rx, spec_with_tx, PacketStats};
use crate::{ChannelFault, NetworkEvent};
use crate::NetworkError;

verus! {

/// The bytes of a peer's transport address.
#[derive(Clone, Copy, Debug)]
pub enum IpRepr {
    V4([u8; 4]),
    V6([u8; 16]),
}

/// A peer's transport address, as plain values: the registry only stores
/// and hands it back; resolving or dialling it is the host's business.
#[derive(Clone, Copy, Debug)]
pub struct PeerAddress {
    pub ip: IpRepr,
    pub port: u16,
}

/// What arrives from a connection's inbound queue: a raw packet, or an
/// error the transport task wants surfaced.
pub type InboundItem = Result<Packet, NetworkError>;

/// The transport half every connection owns, whichever side it is on: the
/// two cross-domain queues that tie it to its socket-owning task, its
/// traffic counters, and its optional channel set. The outbound queue
/// carries raw packets to the task that performs the blocking write; the
/// inbound queue carries what that task received.
pub struct ConnectionCore {
    outbound: crossbeam_channel::Sender<Packet>,
    inbound: crossbeam_channel::Receiver<InboundItem>,
    stats: PacketStats,
    channels: Option<MessageChannels>,
}

impl ConnectionCore {
    /// The connection's traffic counters.
    pub closed spec fn spec_stats(self) -> PacketStats {
        self.stats
    }

    /// The connection's channel set, once built.
    pub closed spec fn spec_channels(self) -> Option<MessageChannels> {
        self.channels
    }

    /// The channel set, if built, is well-formed.
    pub open spec fn wf(self) -> bool {
        match self.spec_channels() {
            Some(cs) => cs.wf(),
            None => true,
        }
    }

    fn new(
        outbound: crossbeam_channel::Sender<Packet>,
        inbound: crossbeam_channel::Receiver<InboundItem>,
        now_ms: u64,
    ) -> (c: ConnectionCore)
        ensures
            c.wf(),
            c.spec_channels() is None,
            c.spec_stats() == (PacketStats {
                packets_tx: 0,
                packets_rx: 0,
                bytes_tx: 0,
                bytes_rx: 0,
                last_tx: now_ms,
                last_rx: now_ms,
            }),
    {
        ConnectionCore { outbound, inbound, stats: PacketStats::new(now_ms), channels: None }
    }

    /// Transmit one raw packet: count it, then hand it to the socket task.
    /// The packet counts as sent even if the task is gone, as the original
    /// send attempt it represents was made.
    fn send(&mut self, payload: Packet, now_ms: u64) -> (r: Result<(), NetworkError>)
        requires
            old(self).wf(),
        ensures
            final(self).wf(),
            final(self).spec_stats() == spec_with_tx(
                old(self).spec_stats(),
                packet_bytes(payload).len() as u64,
                now_ms,
            ),
            final(self).spec_channels() == old(self).spec_channels(),
            r is Err ==> r == Result::<(), NetworkError>::Err(NetworkError::Disconnected),
    {
        let len = packet_len(&payload);
        self.stats.add_tx(len as u64, now_ms);
        match queue_send(&self.outbound, payload) {
            Ok(()) => Ok(()),
            Err(_) => Err(NetworkError::Disconnected),
        }
    }

    /// One non-blocking poll of the inbound queue. `None` means nothing is
    /// available right now; `Some(Err(Disconnected))` means the transport
    /// task is gone for good. A received packet is counted the moment it
    /// is taken off the queue.
    fn receive(&mut self, now_ms: u64) -> (r: Option<InboundItem>)
        requires
            old(self).wf(),
        ensures
            final(self).wf(),
            final(self).spec_channels() == old(self).spec_channels(),
            match r {
                Some(Ok(p)) => final(self).spec_stats() == spec_with_rx(
                    old(self).spec_stats(),
                    packet_bytes(p).len() as u64,
                    now_ms,
                ),
                Some(Err(_)) => final(self).spec_stats() == old(self).spec_stats(),
                None => final(self).spec_stats() == old(self).spec_stats(),
            },
    {
        match queue_try_recv(&self.inbound) {
            QueuePoll::Item(Ok(packet)) => {
                let len = packet_len(&packet);
                self.stats.add_rx(len as u64, now_ms);
                Some(Ok(packet))
            },
            QueuePoll::Item(Err(e)) => Some(Err(e)),
            QueuePoll::Empty => None,
            QueuePoll::Closed => Some(Err(NetworkError::Disconnected)),
        }
    }

    /// Install the channel set, one channel per registration. A one-time
    /// operation: calling it on a connection that already has channels is
    /// a programming error, ruled out by contract.
    fn build_channels(&mut self, builder: &ConnectionChannelsBuilder)
        requires
            old(self).wf(),
            builder.wf(),
            old(self).spec_channels() is None,
        ensures
            final(self).wf(),
            final(self).spec_stats() == old(self).spec_stats(),
            final(self).spec_channels() matches Some(cs) && cs.wf() && cs.list().len()
                == builder@.len() && forall|i: int|
                0 <= i < builder@.len() ==> {
                    &&& (#[trigger] cs.list()[i]).cfg() == builder@[i]
                    &&& cs.list()[i].sent_log() == Seq::<Seq<u8>>::empty()
                    &&& cs.list()[i].delivered_log() == Seq::<Seq<u8>>::empty()
                },
    {
        self.channels = Some(MessageChannels::new(builder));
    }
}

/// A connection accepted by a listening server: the remote peer's address
/// is remembered, because the listener tells peers apart by address.
pub struct ServerConnection {
    core: ConnectionCore,
    client_address: PeerAddress,
}

impl ServerConnection {
    /// The shared transport half.
    pub closed spec fn spec_core(self) -> ConnectionCore {
        self.core
    }

    /// The peer address remembered at construction.
    pub closed spec fn spec_client_address(self) -> PeerAddress {
        self.client_address
    }

    /// Wire up a server-side connection from its queue endpoints.
    pub fn new(
        outbound: crossbeam_channel::Sender<Packet>,
        inbound: crossbeam_channel::Receiver<InboundItem>,
        client_address: PeerAddress,
        now_ms: u64,
    ) -> (c: ServerConnection)
        ensures
            c.spec_core().wf(),
            c.spec_core().spec_channels() is None,
            c.spec_client_address() == client_address,
            c.spec_core().spec_stats().packets_tx == 0,
            c.spec_core().spec_stats().packets_rx == 0,
            c.spec_core().spec_stats().bytes_tx == 0,
            c.spec_core().spec_stats().bytes_rx == 0,
            c.spec_core().spec_stats().last_tx == now_ms,
            c.spec_core().spec_stats().last_rx == now_ms,
    {
        ServerConnection { core: ConnectionCore::new(outbound, inbound, now_ms), client_address }
    }
}

/// A connection initiated towards a server: its socket already implies its
/// one remote endpoint, so no address is remembered.
pub struct ClientConnection {
    core: ConnectionCore,
}

impl ClientConnection {
    /// The shared transport half.
    pub closed spec fn spec_core(self) -> ConnectionCore {
        self.core
    }

    /// Wire up a client-side connection from its queue endpoints.
    pub fn new(
        outbound: crossbeam_channel::Sender<Packet>,
        inbound: crossbeam_channel::Receiver<InboundItem>,
        now_ms: u64,
    ) -> (c: ClientConnection)
        ensures
            c.spec_core().wf(),
            c.spec_core().spec_channels() is None,
            c.spec_core().spec_stats().packets_tx == 0,
            c.spec_core().spec_stats().packets_rx == 0,
            c.spec_core().spec_stats().bytes_tx == 0,
            c.spec_core().spec_stats().bytes_rx == 0,
            c.spec_core().spec_stats().last_tx == now_ms,
            c.spec_core().spec_stats().last_rx == now_ms,
    {
        ClientConnection { core: ConnectionCore::new(outbound, inbound, now_ms) }
    }
}

/// One logical peer connection, whichever side established it. A closed
/// tagged variant instead of a trait hierarchy: every consumer handles
/// both sides exhaustively.
pub enum Connection {
    Server(ServerConnection),
    Client(ClientConnection),
}

impl Connection {
    /// The shared transport half.
    pub closed spec fn transport_core(self) -> ConnectionCore {
        match self {
            Connection::Server(c) => c.core,
            Connection::Client(c) => c.core,
        }
    }

    /// The connection's traffic counters.
    pub open spec fn spec_stats(self) -> PacketStats {
        self.transport_core().spec_stats()
    }

    /// The connection's channel set, once built.
    pub open spec fn spec_channels(self) -> Option<MessageChannels> {
        self.transport_core().spec_channels()
    }

    pub open spec fn wf(self) -> bool {
        self.transport_core().wf()
    }

    /// The peer address remembered at construction: a server-accepted
    /// connection keeps its peer's address (the listener tells peers apart
    /// by it); a client-initiated connection's socket is its own remote,
    /// so it has none.
    pub open spec fn spec_remote(self) -> Option<PeerAddress> {
        match self {
            Connection::Server(c) => Some(c.spec_client_address()),
            Connection::Client(_) => None,
        }
    }

    /// The remembered remote address: exactly the one a server-accepted
    /// connection was constructed with, and nothing for a client side.
    pub fn remote_address(&self) -> (r: Option<PeerAddress>)
        ensures
            r == self.spec_remote(),
            r is Some <==> self is Server,
    {
        match self {
            Connection::Server(c) => Some(c.client_address),
            Connection::Client(_) => None,
        }
    }

    /// An instantaneous copy of the traffic counters.
    pub fn stats(&self) -> (s: PacketStats)
        ensures
            s == self.spec_stats(),
    {
        match self {
            Connection::Server(c) => c.core.stats,
            Connection::Client(c) => c.core.stats,
        }
    }

    /// Milliseconds since the last received and the last sent packet, in
    /// that order, as of `now_ms`.
    pub fn last_packet_timings(&self, now_ms: u64) -> (idle: (u64, u64))
        ensures
            idle.0 == if now_ms >= self.spec_stats().last_rx {
                (now_ms - self.spec_stats().last_rx) as u64
            } else {
                0u64
            },
            idle.1 == if now_ms >= self.spec_stats().last_tx {
                (now_ms - self.spec_stats().last_tx) as u64
            } else {
                0u64
            },
    {
        match self {
            Connection::Server(c) => c.core.stats.idle_durations(now_ms),
            Connection::Client(c) => c.core.stats.idle_durations(now_ms),
        }
    }

    /// Transmit one raw packet and count it.
    pub fn send(&mut self, payload: Packet, now_ms: u64) -> (r: Result<(), NetworkError>)
        requires
            old(self).wf(),
        ensures
            final(self).wf(),
            (*final(self)) is Server <==> (*old(self)) is Server,
            final(self).spec_remote() == old(self).spec_remote(),
            final(self).spec_stats() == spec_with_tx(
                old(self).spec_stats(),
                packet_bytes(payload).len() as u64,
                now_ms,
            ),
            final(self).spec_channels() == old(self).spec_channels(),
            r is Err ==> r == Result::<(), NetworkError>::Err(NetworkError::Disconnected),
    {
        match self {
            Connection::Server(c) => c.core.send(payload, now_ms),
            Connection::Client(c) => c.core.send(payload, now_ms),
        }
    }

    /// One non-blocking poll for an inbound packet; counts it on arrival.
    pub fn receive(&mut self, now_ms: u64) -> (r: Option<InboundItem>)
        requires
            old(self).wf(),
        ensures
            final(self).wf(),
            (*final(self)) is Server <==> (*old(self)) is Server,
            final(self).spec_remote() == old(self).spec_remote(),
            final(self).spec_channels() == old(self).spec_channels(),
            match r {
                Some(Ok(p)) => final(self).spec_stats() == spec_with_rx(
                    old(self).spec_stats(),
                    packet_bytes(p).len() as u64,
                    now_ms,
                ),
                Some(Err(_)) => final(self).spec_stats() == old(self).spec_stats(),
                None => final(self).spec_stats() == old(self).spec_stats(),
            },
    {
        match self {
            Connection::Server(c) => c.core.receive(now_ms),
            Connection::Client(c) => c.core.receive(now_ms),
        }
    }

    /// Install the channel set from the process-wide registrations; a
    /// one-time operation.
    pub fn build_channels(&mut self, builder: &ConnectionChannelsBuilder)
        requires
            old(self).wf(),
            builder.wf(),
            old(self).spec_channels() is None,
        ensures
            final(self).wf(),
            (*final(self)) is Server <==> (*old(self)) is Server,
            final(self).spec_remote() == old(self).spec_remote(),
            final(self).spec_stats() == old(self).spec_stats(),
            final(self).spec_channels() matches Some(cs) && cs.wf() && cs.list().len()
                == builder@.len() && forall|i: int|
                0 <= i < builder@.len() ==> {
                    &&& (#[trigger] cs.list()[i]).cfg() == builder@[i]
                    &&& cs.list()[i].sent_log() == Seq::<Seq<u8>>::empty()
                    &&& cs.list()[i].delivered_log() == Seq::<Seq<u8>>::empty()
                },
    {
        match self {
            Connection::Server(c) => c.core.build_channels(builder),
            Connection::Client(c) => c.core.build_channels(builder),
        }
    }

    /// A look at the channel set, once built.
    pub fn channels(&self) -> (r: Option<&MessageChannels>)
        ensures
            match r {
                Some(cs) => self.spec_channels() == Some(*cs),
                None => self.spec_channels() is None,
            },
    {
        match self {
            Connection::Server(c) => c.core.channels.as_ref(),
            Connection::Client(c) => c.core.channels.as_ref(),
        }
    }
}

/// The stats after transmitting a run of packets back to back at one
/// clock reading.
pub open spec fn spec_tx_packets(s: PacketStats, pkts: Seq<Seq<u8>>, now_ms: u64) -> PacketStats
    decreases pkts.len(),
{
    if pkts.len() == 0 {
        s
    } else {
        spec_tx_packets(spec_with_tx(s, pkts[0].len() as u64, now_ms), pkts.skip(1), now_ms)
    }
}

/// Transmitting one more packet folds one more step into the stats.
pub proof fn lemma_tx_packets_push(s: PacketStats, pkts: Seq<Seq<u8>>, p: Seq<u8>, now_ms: u64)
    ensures
        spec_tx_packets(s, pkts.push(p), now_ms) == spec_with_tx(
            spec_tx_packets(s, pkts, now_ms),
            p.len() as u64,
            now_ms,
        ),
    decreases pkts.len(),
{
    if pkts.len() == 0 {
        assert(pkts.push(p).skip(1) =~~= pkts);
        assert(pkts.push(p)[0] == p);
        assert(spec_tx_packets(s, pkts.push(p), now_ms) == spec_tx_packets(
            spec_with_tx(s, p.len() as u64, now_ms),
            pkts,
            now_ms,
        ));
        assert(spec_tx_packets(spec_with_tx(s, p.len() as u64, now_ms), pkts, now_ms)
            == spec_with_tx(s, p.len() as u64, now_ms));
    } else {
        let s1 = spec_with_tx(s, pkts[0].len() as u64, now_ms);
        assert(pkts.push(p)[0] == pkts[0]);
        assert(pkts.push(p).skip(1) =~~= pkts.skip(1).push(p));
        assert(spec_tx_packets(s, pkts.push(p), now_ms) == spec_tx_packets(
            s1,
            pkts.skip(1).push(p),
            now_ms,
        ));
        lemma_tx_packets_push(s1, pkts.skip(1), p, now_ms);
        assert(spec_tx_packets(s, pkts, now_ms) == spec_tx_packets(s1, pkts.skip(1), now_ms));
    }
}

/// How one `send_message` call relates a connection's new state to its
/// old one: the channel's logs and queues move exactly as the channel
/// machinery says, and, when flushing, the stats count exactly the framed
/// packets that went out.
pub open spec fn spec_send_message_rel(
    a_conn: Connection,
    b_conn: Connection,
    channel: u8,
    msg: Seq<u8>,
    flush_now: bool,
    now_ms: u64,
    accepted: bool,
) -> bool {
    let a = a_conn.spec_channel(channel);
    let b = b_conn.spec_channel(channel);
    &&& accepted == a.accepts(msg.len() as int)
    &&& (accepted ==> b.sent_log() == a.sent_log().push(msg))
    &&& (!accepted ==> b.sent_log() == a.sent_log())
    &&& b.ready_msgs() == a.ready_msgs()
    &&& b.delivered_log() == a.delivered_log()
    &&& (!flush_now ==> {
        &&& b_conn.spec_stats() == a_conn.spec_stats()
        &&& (accepted ==> b.queued() == a.queued().push(msg))
        &&& b.in_flight_msgs() == a.in_flight_msgs()
    })
    &&& (flush_now ==> {
        let q1 = if accepted {
            a.queued().push(msg)
        } else {
            a.queued()
        };
        &&& (a.is_reliable() ==> {
            let mc = movable_count(q1, a.send_window_budget() - wire_cost(a.in_flight_msgs()));
            &&& b.in_flight_msgs() == a.in_flight_msgs() + q1.take(mc)
            &&& b.queued() == q1.skip(mc)
            &&& b_conn.spec_stats() == spec_tx_packets(
                a_conn.spec_stats(),
                rel_frames_enc(b.in_flight_msgs(), a.base() as int, channel),
                now_ms,
            )
        })
        &&& (!a.is_reliable() ==> {
            &&& b.queued() == Seq::<Seq<u8>>::empty()
            &&& b_conn.spec_stats() == spec_tx_packets(
                a_conn.spec_stats(),
                unrel_frames_enc(q1, channel),
                now_ms,
            )
        })
    })
}

/// How one explicit per-tick flush relates a connection's new state to
/// its old one.
pub open spec fn spec_flush_rel(a_conn: Connection, b_conn: Connection, channel: u8, now_ms: u64) -> bool {
    let a = a_conn.spec_channel(channel);
    let b = b_conn.spec_channel(channel);
    &&& b.sent_log() == a.sent_log()
    &&& b.ready_msgs() == a.ready_msgs()
    &&& b.delivered_log() == a.delivered_log()
    &&& (a.is_reliable() ==> {
        let mc = movable_count(
            a.queued(),
            a.send_window_budget() - wire_cost(a.in_flight_msgs()),
        );
        &&& b.in_flight_msgs() == a.in_flight_msgs() + a.queued().take(mc)
        &&& b.queued() == a.queued().skip(mc)
        &&& b_conn.spec_stats() == spec_tx_packets(
            a_conn.spec_stats(),
            rel_frames_enc(b.in_flight_msgs(), a.base() as int, channel),
            now_ms,
        )
    })
    &&& (!a.is_reliable() ==> {
        &&& b.queued() == Seq::<Seq<u8>>::empty()
        &&& b_conn.spec_stats() == spec_tx_packets(
            a_conn.spec_stats(),
            unrel_frames_enc(a.queued(), channel),
            now_ms,
        )
    })
}

/// How one `recv_message` call relates a connection's new state to its
/// old one, together with what it returned.
pub open spec fn spec_recv_rel(
    a_conn: Connection,
    b_conn: Connection,
    channel: u8,
    r: Option<Seq<u8>>,
) -> bool {
    let a = a_conn.spec_channel(channel);
    let b = b_conn.spec_channel(channel);
    &&& b_conn.spec_stats() == a_conn.spec_stats()
    &&& b.sent_log() == a.sent_log()
    &&& b.delivered_log() == a.delivered_log()
    &&& b.queued() == a.queued()
    &&& b.in_flight_msgs() == a.in_flight_msgs()
    &&& (a.ready_msgs().len() == 0 ==> r is None && b.ready_msgs() == a.ready_msgs())
    &&& (a.ready_msgs().len() > 0 ==> (r matches Some(m) && m == a.ready_msgs()[0])
        && b.ready_msgs() == a.ready_msgs().skip(1))
}

/// Pumping inbound traffic never rewrites history: the registrations, the
/// outbound message logs and the outbound queues of every channel are
/// exactly what they were (or there never were channels).
pub open spec fn channels_preserved(a: Connection, b: Connection) -> bool {
    match (a.spec_channels(), b.spec_channels()) {
        (Some(ca), Some(cb)) => {
            &&& cb.list().len() == ca.list().len()
            &&& forall|j: int|
                0 <= j < ca.list().len() ==> (#[trigger] cb.list()[j]).cfg() == ca.list()[j].cfg() && cb.list()[j].sent_log() == ca.list()[j].sent_log() && cb.list()[j].queued() == ca.list()[j].queued()
        },
        (None, None) => true,
        _ => false,
    }
}

/// Preservation of channel history is reflexive on equal channel sets and
/// composes.
pub proof fn lemma_channels_preserved_refl(a: Connection, b: Connection)
    requires
        a.spec_channels() == b.spec_channels(),
    ensures
        channels_preserved(a, b),
{
}

pub proof fn lemma_channels_preserved_trans(a: Connection, b: Connection, c: Connection)
    requires
        channels_preserved(a, b),
        channels_preserved(b, c),
    ensures
        channels_preserved(a, c),
{
    match (a.spec_channels(), b.spec_channels(), c.spec_channels()) {
        (Some(ca), Some(cb), Some(cc)) => {
            assert forall|j: int|
                0 <= j < ca.list().len() implies (#[trigger] cc.list()[j]).cfg() == ca.list()[
                j].cfg() && cc.list()[j].sent_log() == ca.list()[j].sent_log() && cc.list()[
                j].queued() == ca.list()[j].queued() by {
                assert(cb.list()[j].cfg() == ca.list()[j].cfg());
                assert(cc.list()[j].cfg() == cb.list()[j].cfg());
            }
        },
        _ => {},
    }
}


/// Exactly what taking in one raw non-heartbeat packet does on a
/// connection with a built channel set, keyed on what the packet's bytes
/// parse to. A payload that parses to no frame becomes exactly one
/// malformed-packet error event with nothing else moved; a frame is
/// routed exactly as `spec_route_full` fixes it — an unknown tag or a
/// kind contradicting the channel's mode becomes exactly one error event
/// with nothing else moved, a data or acknowledgment packet steps exactly
/// the one channel it names, and a reliable data packet costs exactly the
/// one ten-byte acknowledgment reply transmission.
pub open spec fn spec_packet_step(
    a_conn: Connection,
    b_conn: Connection,
    handle: u32,
    payload: Seq<u8>,
    ev_a: Seq<NetworkEvent>,
    ev_b: Seq<NetworkEvent>,
    now_ms: u64,
) -> bool {
    match spec_decode_frame(payload) {
        None => b_conn == a_conn && ev_b == ev_a.push(
            NetworkEvent::Error(
                handle,
                NetworkError::ChannelDeliveryFailure(ChannelFault::MalformedPacket),
            ),
        ),
        Some(f) => {
            let csa = a_conn.spec_channels()->Some_0;
            let csb = b_conn.spec_channels()->Some_0;
            match f {
                FrameModel::ReliableData { channel, first_seq, messages } => {
                    match spec_find_channel(csa.list(), channel) {
                        None => b_conn == a_conn && ev_b == ev_a.push(
                            NetworkEvent::Error(
                                handle,
                                NetworkError::ChannelDeliveryFailure(
                                    ChannelFault::UnknownChannel(channel),
                                ),
                            ),
                        ),
                        Some(i) => if csa.list()[i].is_reliable() {
                            &&& b_conn.spec_channels() is Some
                            &&& csb.list().len() == csa.list().len()
                            &&& (forall|j: int|
                                0 <= j < csa.list().len() && j != i ==> csb.list()[j]
                                    == csa.list()[j])
                            &&& rel_data_step(csa.list()[i], csb.list()[i], first_seq, messages)
                            &&& ev_b == ev_a
                            &&& b_conn.spec_stats() == spec_with_tx(a_conn.spec_stats(), 10, now_ms)
                        } else {
                            b_conn == a_conn && ev_b == ev_a.push(
                                NetworkEvent::Error(
                                    handle,
                                    NetworkError::ChannelDeliveryFailure(
                                        ChannelFault::WrongMode(channel),
                                    ),
                                ),
                            )
                        },
                    }
                },
                FrameModel::UnreliableData { channel, messages } => {
                    match spec_find_channel(csa.list(), channel) {
                        None => b_conn == a_conn && ev_b == ev_a.push(
                            NetworkEvent::Error(
                                handle,
                                NetworkError::ChannelDeliveryFailure(
                                    ChannelFault::UnknownChannel(channel),
                                ),
                            ),
                        ),
                        Some(i) => if !csa.list()[i].is_reliable() {
                            &&& b_conn.spec_channels() is Some
                            &&& csb.list().len() == csa.list().len()
                            &&& (forall|j: int|
                                0 <= j < csa.list().len() && j != i ==> csb.list()[j]
                                    == csa.list()[j])
                            &&& unrel_data_step(csa.list()[i], csb.list()[i], messages)
                            &&& ev_b == ev_a
                            &&& b_conn.spec_stats() == a_conn.spec_stats()
                        } else {
                            b_conn == a_conn && ev_b == ev_a.push(
                                NetworkEvent::Error(
                                    handle,
                                    NetworkError::ChannelDeliveryFailure(
                                        ChannelFault::WrongMode(channel),
                                    ),
                                ),
                            )
                        },
                    }
                },
                FrameModel::Ack { channel, ack_next } => {
                    match spec_find_channel(csa.list(), channel) {
                        None => b_conn == a_conn && ev_b == ev_a.push(
                            NetworkEvent::Error(
                                handle,
                                NetworkError::ChannelDeliveryFailure(
                                    ChannelFault::UnknownChannel(channel),
                                ),
                            ),
                        ),
                        Some(i) => if csa.list()[i].is_reliable() {
                            &&& b_conn.spec_channels() is Some
                            &&& csb.list().len() == csa.list().len()
                            &&& (forall|j: int|
                                0 <= j < csa.list().len() && j != i ==> csb.list()[j]
                                    == csa.list()[j])
                            &&& ack_step(csa.list()[i], csb.list()[i], ack_next)
                            &&& ev_b == ev_a
                            &&& b_conn.spec_stats() == a_conn.spec_stats()
                        } else {
                            b_conn == a_conn && ev_b == ev_a.push(
                                NetworkEvent::Error(
                                    handle,
                                    NetworkError::ChannelDeliveryFailure(
                                        ChannelFault::WrongMode(channel),
                                    ),
                                ),
                            )
                        },
                    }
                },
            }
        },
    }
}

/// Exactly what taking in one raw packet does, in every case: a heartbeat
/// moves nothing, a payload for a channel-less connection surfaces as the
/// one packet event untouched, and channel traffic steps exactly as
/// `spec_packet_step` fixes.
pub open spec fn spec_process_rel(
    a_conn: Connection,
    b_conn: Connection,
    handle: u32,
    packet: Packet,
    ev_a: Seq<NetworkEvent>,
    ev_b: Seq<NetworkEvent>,
    now_ms: u64,
) -> bool {
    &&& (packet_bytes(packet).len() == 0 ==> b_conn == a_conn && ev_b == ev_a)
    &&& (packet_bytes(packet).len() > 0 && a_conn.spec_channels() is None ==> b_conn == a_conn
        && ev_b == ev_a.push(NetworkEvent::Packet(handle, packet)))
    &&& (packet_bytes(packet).len() > 0 && a_conn.spec_channels() is Some ==> spec_packet_step(
        a_conn,
        b_conn,
        handle,
        packet_bytes(packet),
        ev_a,
        ev_b,
        now_ms,
    ))
}

impl Connection {
    /// Whether the channel set is built and registers the tag `channel`:
    /// what `send_message`, `recv_message` and `flush_channel` need. Using
    /// them without it is a programming error, ruled out by contract.
    pub open spec fn can_message(self, channel: u8) -> bool {
        match self.spec_channels() {
            Some(cs) => spec_find_channel(cs.list(), channel) is Some,
            None => false,
        }
    }

    /// The channel with tag `channel` of the built set.
    pub open spec fn spec_channel(self, channel: u8) -> crate::channels::Channel {
        let cs = self.spec_channels()->Some_0;
        cs.list()[spec_find_channel(cs.list(), channel)->Some_0]
    }

    /// Enqueue one message on the named channel; if `flush_now`, drain the
    /// channel into framed packets at once and transmit them, counting
    /// each. The unsent message comes straight back exactly when the
    /// channel refuses it; transmission failures surface on the peer's
    /// timers, never here.
    pub fn send_message(
        &mut self,
        channel: u8,
        message: Vec<u8>,
        flush_now: bool,
        now_ms: u64,
    ) -> (unsent: Option<Vec<u8>>)
        requires
            old(self).wf(),
            old(self).can_message(channel),
        ensures
            final(self).wf(),
            final(self).can_message(channel),
            (*final(self)) is Server <==> (*old(self)) is Server,
            final(self).spec_remote() == old(self).spec_remote(),
            unsent is None <==> old(self).spec_channel(channel).accepts(message@.len() as int),
            unsent is Some ==> unsent == Some(message),
            spec_send_message_rel(
                *old(self),
                *final(self),
                channel,
                message.deep_view(),
                flush_now,
                now_ms,
                old(self).spec_channel(channel).accepts(message@.len() as int),
            ),
    {
        let r = match self {
            Connection::Server(c) => core_send_message(&mut c.core, channel, message, now_ms),
            Connection::Client(c) => core_send_message(&mut c.core, channel, message, now_ms),
        };
        if flush_now {
            self.flush_channel(channel, now_ms);
        }
        r
    }

    /// Drain the named channel into framed packets and transmit them,
    /// counting each. Under the flushing strategy that never flushes on
    /// send, the host calls this once per tick per channel, so that many
    /// small messages coalesce into few packets.
    pub fn flush_channel(&mut self, channel: u8, now_ms: u64)
        requires
            old(self).wf(),
            old(self).can_message(channel),
        ensures
            final(self).wf(),
            final(self).can_message(channel),
            (*final(self)) is Server <==> (*old(self)) is Server,
            final(self).spec_remote() == old(self).spec_remote(),
            spec_flush_rel(*old(self), *final(self), channel, now_ms),
    {
        match self {
            Connection::Server(c) => core_flush_channel(&mut c.core, channel, now_ms),
            Connection::Client(c) => core_flush_channel(&mut c.core, channel, now_ms),
        }
    }

    /// Hand out the next ready message of the named channel, in that
    /// channel's delivery order; a non-blocking poll.
    pub fn recv_message(&mut self, channel: u8) -> (r: Option<Vec<u8>>)
        requires
            old(self).wf(),
            old(self).can_message(channel),
        ensures
            final(self).wf(),
            final(self).can_message(channel),
            (*final(self)) is Server <==> (*old(self)) is Server,
            final(self).spec_remote() == old(self).spec_remote(),
            spec_recv_rel(
                *old(self),
                *final(self),
                channel,
                match r {
                    Some(m) => Some(m.deep_view()),
                    None => None,
                },
            ),
    {
        match self {
            Connection::Server(c) => core_recv_message(&mut c.core, channel),
            Connection::Client(c) => core_recv_message(&mut c.core, channel),
        }
    }


    /// Take in the outcome of one inbound poll. A raw packet is processed
    /// exactly as `process_packet` fixes; a transport error becomes
    /// exactly one error event for this handle and ends the drain; an
    /// empty poll ends the drain silently. Returns whether the drain
    /// should poll again.
    pub fn process_polled(
        &mut self,
        handle: u32,
        polled: Option<InboundItem>,
        events: &mut Vec<NetworkEvent>,
        now_ms: u64,
    ) -> (proceed: bool)
        requires
            old(self).wf(),
        ensures
            final(self).wf(),
            (*final(self)) is Server <==> (*old(self)) is Server,
            final(self).spec_remote() == old(self).spec_remote(),
            channels_preserved(*old(self), *final(self)),
            final(events)@.len() >= old(events)@.len(),
            final(events)@.take(old(events)@.len() as int) == old(events)@,
            final(events)@.len() <= old(events)@.len() + 1,
            forall|e: NetworkEvent|
                final(events)@.skip(old(events)@.len() as int).contains(e) ==> match e {
                    NetworkEvent::Packet(h, p) => h == handle && packet_bytes(p).len() > 0,
                    NetworkEvent::Error(h, _) => h == handle,
                    _ => false,
                },
            match polled {
                None => *final(self) == *old(self) && final(events)@ == old(events)@
                    && !proceed,
                Some(Err(e)) => *final(self) == *old(self) && final(events)@ == old(
                    events,
                )@.push(NetworkEvent::Error(handle, e)) && !proceed,
                Some(Ok(p)) => proceed && spec_process_rel(
                    *old(self),
                    *final(self),
                    handle,
                    p,
                    old(events)@,
                    final(events)@,
                    now_ms,
                ),
            },
    {
        match polled {
            None => false,
            Some(Err(e)) => {
                events.push(NetworkEvent::Error(handle, e));
                proof {
                    lemma_channels_preserved_refl(*old(self), *self);
                }
                false
            },
            Some(Ok(p)) => {
                self.process_packet(handle, p, events, now_ms);
                true
            },
        }
    }

    /// Take in one raw packet that arrived on this connection.
    ///
    /// A zero-length payload is a heartbeat: its whole purpose was served
    /// when the receive refreshed the liveness timer, so it is discarded
    /// here and never surfaced as an event. With no channel set built, a
    /// payload is handed to the host as a packet event, untouched. With
    /// channels built, the payload is parsed and routed: a reliable data
    /// packet earns an immediate cumulative-acknowledgment reply on the
    /// raw transport, and a payload that parses to no frame, names an
    /// unknown tag, or contradicts the channel's mode becomes an error
    /// event for this handle alone.
    pub fn process_packet(
        &mut self,
        handle: u32,
        packet: Packet,
        events: &mut Vec<NetworkEvent>,
        now_ms: u64,
    )
        requires
            old(self).wf(),
        ensures
            final(self).wf(),
            (*final(self)) is Server <==> (*old(self)) is Server,
            final(self).spec_remote() == old(self).spec_remote(),
            // at most one event, always for this handle, never a
            // heartbeat surfaced as a packet
            final(events)@.len() >= old(events)@.len(),
            final(events)@.take(old(events)@.len() as int) == old(events)@,
            final(events)@.len() <= old(events)@.len() + 1,
            forall|e: NetworkEvent|
                final(events)@.skip(old(events)@.len() as int).contains(e) ==> match e {
                    NetworkEvent::Packet(h, p) => h == handle && packet_bytes(p).len() > 0,
                    NetworkEvent::Error(h, _) => h == handle,
                    _ => false,
                },
            // channel traffic never touches the outbound message logs, and
            // the registrations stay as they were
            channels_preserved(*old(self), *final(self)),
            // and in every case the effect is exactly this
            spec_process_rel(
                *old(self),
                *final(self),
                handle,
                packet,
                old(events)@,
                final(events)@,
                now_ms,
            ),
    {
        let len = packet_len(&packet);
        if len == 0 {
            return;
        }
        let has_channels = match self {
            Connection::Server(c) => c.core.channels.is_some(),
            Connection::Client(c) => c.core.channels.is_some(),
        };
        if !has_channels {
            events.push(NetworkEvent::Packet(handle, packet));
            return;
        }
        let bytes = packet_to_vec(&packet);
        let decoded = decode_frame(bytes.as_slice());
        match decoded {
            None => {
                events.push(
                    NetworkEvent::Error(
                        handle,
                        NetworkError::ChannelDeliveryFailure(ChannelFault::MalformedPacket),
                    ),
                );
            },
            Some(frame) => {
                let ghost pre = *self;
                let outcome = match self {
                    Connection::Server(c) => core_route(&mut c.core, frame),
                    Connection::Client(c) => core_route(&mut c.core, frame),
                };
                match outcome {
                    RouteOutcome::Delivered => (),
                    RouteOutcome::Acknowledged => (),
                    RouteOutcome::Reply(reply_bytes) => {
                        proof {
                            vstd::bytes::lemma_auto_spec_u64_to_from_le_bytes();
                        }
                        let reply = packet_from_vec(reply_bytes);
                        let _ = self.send(reply, now_ms);
                    },
                    RouteOutcome::UnknownChannel(c) => {
                        proof {
                            assert(*self == pre);
                        }
                        events.push(
                            NetworkEvent::Error(
                                handle,
                                NetworkError::ChannelDeliveryFailure(
                                    ChannelFault::UnknownChannel(c),
                                ),
                            ),
                        );
                    },
                    RouteOutcome::WrongMode(c) => {
                        proof {
                            assert(*self == pre);
                        }
                        events.push(
                            NetworkEvent::Error(
                                handle,
                                NetworkError::ChannelDeliveryFailure(ChannelFault::WrongMode(c)),
                            ),
                        );
                    },
                }
            },
        }
    }
}

/// Enqueue one message on the named channel of a built set.
fn core_send_message(
    core: &mut ConnectionCore,
    channel: u8,
    message: Vec<u8>,
    now_ms: u64,
) -> (unsent: Option<Vec<u8>>)
    requires
        old(core).wf(),
        old(core).spec_channels() matches Some(cs) && spec_find_channel(cs.list(), channel)
            is Some,
    ensures
        final(core).wf(),
        final(core).spec_stats() == old(core).spec_stats(),
        final(core).spec_channels() matches Some(csb) && old(core).spec_channels() matches Some(
            csa,
        ) && {
            let i = spec_find_channel(csa.list(), channel)->Some_0;
            let a = csa.list()[i];
            let b = csb.list()[i];
            let accepted = a.accepts(message@.len() as int);
            &&& spec_find_channel(csb.list(), channel) == Some(i)
            &&& csb.list().len() == csa.list().len()
            &&& (forall|j: int|
                0 <= j < csa.list().len() && j != i ==> csb.list()[j] == csa.list()[j])
            &&& b.cfg() == a.cfg()
            &&& (unsent is None <==> accepted)
            &&& (accepted ==> b.queued() == a.queued().push(message.deep_view())
                && b.sent_log() == a.sent_log().push(message.deep_view()))
            &&& (!accepted ==> unsent == Some(message) && b == a)
            &&& b.ready_msgs() == a.ready_msgs()
            &&& b.delivered_log() == a.delivered_log()
            &&& b.in_flight_msgs() == a.in_flight_msgs()
            &&& b.base() == a.base()
        },
{
    match &mut core.channels {
        Some(cs) => {
            proof {
                crate::channels::lemma_find_channel(cs.list(), channel);
            }
            let i = cs.index_of(channel).unwrap();
            let ghost pre_list = cs.list();
            let r = cs.send_at(i, message);
            proof {
                assert forall|j: int|
                    0 <= j < pre_list.len() implies (#[trigger] cs.list()[j]).cfg().channel
                    == pre_list[j].cfg().channel by {}
                crate::channels::lemma_find_channel_cfg_stable(pre_list, cs.list(), channel);
            }
            r
        },
        None => None,
    }
}

/// Drain the named channel of a built set into packets and transmit them.
fn core_flush_channel(core: &mut ConnectionCore, channel: u8, now_ms: u64)
    requires
        old(core).wf(),
        old(core).spec_channels() matches Some(cs) && spec_find_channel(cs.list(), channel)
            is Some,
    ensures
        final(core).wf(),
        final(core).spec_channels() matches Some(csb) && old(core).spec_channels() matches Some(
            csa,
        ) && {
            let i = spec_find_channel(csa.list(), channel)->Some_0;
            let a = csa.list()[i];
            let b = csb.list()[i];
            &&& spec_find_channel(csb.list(), channel) == Some(i)
            &&& csb.list().len() == csa.list().len()
            &&& (forall|j: int|
                0 <= j < csa.list().len() && j != i ==> csb.list()[j] == csa.list()[j])
            &&& b.cfg() == a.cfg()
            &&& b.sent_log() == a.sent_log()
            &&& b.ready_msgs() == a.ready_msgs()
            &&& b.delivered_log() == a.delivered_log()
            &&& (a.is_reliable() ==> {
                let mc = movable_count(
                    a.queued(),
                    a.send_window_budget() - wire_cost(a.in_flight_msgs()),
                );
                &&& b.in_flight_msgs() == a.in_flight_msgs() + a.queued().take(mc)
                &&& b.queued() == a.queued().skip(mc)
                &&& b.base() == a.base()
                &&& final(core).spec_stats() == spec_tx_packets(
                    old(core).spec_stats(),
                    rel_frames_enc(b.in_flight_msgs(), a.base() as int, channel),
                    now_ms,
                )
            })
            &&& (!a.is_reliable() ==> {
                &&& b.queued() == Seq::<Seq<u8>>::empty()
                &&& b.in_flight_msgs() == a.in_flight_msgs()
                &&& final(core).spec_stats() == spec_tx_packets(
                    old(core).spec_stats(),
                    unrel_frames_enc(a.queued(), channel),
                    now_ms,
                )
            })
        },
{
    let mut frames: Vec<Vec<u8>> = Vec::new();
    match &mut core.channels {
        Some(cs) => {
            proof {
                crate::channels::lemma_find_channel(cs.list(), channel);
            }
            let i = cs.index_of(channel).unwrap();
            let ghost pre_list = cs.list();
            cs.flush_at(i, &mut frames);
            proof {
                assert forall|j: int|
                    0 <= j < pre_list.len() implies (#[trigger] cs.list()[j]).cfg().channel
                    == pre_list[j].cfg().channel by {}
                crate::channels::lemma_find_channel_cfg_stable(pre_list, cs.list(), channel);
            }
        },
        None => (),
    }
    let ghost mid = *core;
    let ghost frames_view = frames.deep_view();
    let ghost stats0 = core.stats;
    let mut k: usize = 0;
    let n0 = frames.len();
    proof {
        assert(frames_view.len() == n0);
        assert(frames_view.skip(0) =~~= frames_view);
        assert(frames_view.take(0) =~~= Seq::<Seq<u8>>::empty());
    }
    while frames.len() > 0
        invariant
            mid.wf(),
            core.wf(),
            mid.spec_stats() == stats0,
            frames_view.len() <= usize::MAX,
            k + frames@.len() == frames_view.len(),
            frames.deep_view() == frames_view.skip(k as int),
            core.spec_channels() == mid.spec_channels(),
            core.spec_stats() == spec_tx_packets(stats0, frames_view.take(k as int), now_ms),
        decreases frames@.len(),
    {
        let ghost fprev = frames;
        let f = frames.remove(0);
        proof {
            crate::channels::lemma_deep_remove_front_pub(fprev, frames);
            crate::channels::lemma_skip_skip_pub(frames_view, k as int, 1);
            assert(frames.deep_view() == frames_view.skip(k + 1));
            assert(frames_view.skip(k as int)[0] == frames_view[k as int]);
            assert(f.deep_view() == frames_view[k as int]);
        }
        let p = packet_from_vec(f);
        let len = packet_len(&p);
        core.stats.add_tx(len as u64, now_ms);
        let _ = queue_send(&core.outbound, p);
        k = k + 1;
        proof {
            lemma_tx_packets_push(stats0, frames_view.take(k - 1), frames_view[k - 1], now_ms);
            assert(frames_view.take(k - 1).push(frames_view[k - 1]) =~~= frames_view.take(
                k as int,
            ));
        }
    }
    proof {
        assert(frames_view.take(k as int) =~~= frames_view);
    }
}

/// Hand out the next ready message of the named channel of a built set.
fn core_recv_message(core: &mut ConnectionCore, channel: u8) -> (r: Option<Vec<u8>>)
    requires
        old(core).wf(),
        old(core).spec_channels() matches Some(cs) && spec_find_channel(cs.list(), channel)
            is Some,
    ensures
        final(core).wf(),
        final(core).spec_stats() == old(core).spec_stats(),
        final(core).spec_channels() matches Some(csb) && old(core).spec_channels() matches Some(
            csa,
        ) && {
            let i = spec_find_channel(csa.list(), channel)->Some_0;
            let a = csa.list()[i];
            let b = csb.list()[i];
            &&& spec_find_channel(csb.list(), channel) == Some(i)
            &&& csb.list().len() == csa.list().len()
            &&& (forall|j: int|
                0 <= j < csa.list().len() && j != i ==> csb.list()[j] == csa.list()[j])
            &&& b.cfg() == a.cfg()
            &&& b.sent_log() == a.sent_log()
            &&& b.delivered_log() == a.delivered_log()
            &&& b.queued() == a.queued()
            &&& b.in_flight_msgs() == a.in_flight_msgs()
            &&& (a.ready_msgs().len() == 0 ==> r is None && b.ready_msgs() == a.ready_msgs())
            &&& (a.ready_msgs().len() > 0 ==> (r matches Some(m) && m.deep_view()
                == a.ready_msgs()[0]) && b.ready_msgs() == a.ready_msgs().skip(1))
        },
{
    match &mut core.channels {
        Some(cs) => {
            proof {
                crate::channels::lemma_find_channel(cs.list(), channel);
            }
            let i = cs.index_of(channel).unwrap();
            let ghost pre_list = cs.list();
            let r = cs.recv_at(i);
            proof {
                assert forall|j: int|
                    0 <= j < pre_list.len() implies (#[trigger] cs.list()[j]).cfg().channel
                    == pre_list[j].cfg().channel by {}
                crate::channels::lemma_find_channel_cfg_stable(pre_list, cs.list(), channel);
            }
            r
        },
        None => None,
    }
}

/// Route one parsed frame into a built channel set.
fn core_route(core: &mut ConnectionCore, frame: Frame) -> (r: RouteOutcome)
    requires
        old(core).wf(),
        old(core).spec_channels() is Some,
    ensures
        final(core).wf(),
        final(core).spec_stats() == old(core).spec_stats(),
        final(core).spec_channels() matches Some(csb) && old(core).spec_channels() matches Some(
            csa,
        ) && {
            &&& csb.list().len() == csa.list().len()
            &&& (forall|j: int|
                0 <= j < csa.list().len() ==> (#[trigger] csb.list()[j]).cfg() == csa.list()[j].cfg() && csb.list()[j].sent_log() == csa.list()[j].sent_log()
                    && csb.list()[j].queued() == csa.list()[j].queued())
            &&& spec_route_full(csa, csb, frame@, r)
        },
        r is UnknownChannel || r is WrongMode ==> *final(core) == *old(core),
        r matches RouteOutcome::Reply(p) ==> p@.len() == 10,
{
    match &mut core.channels {
        Some(cs) => {
            let r = cs.route(frame);
            proof {
                vstd::bytes::lemma_auto_spec_u64_to_from_le_bytes();
            }
            r
        },
        None => RouteOutcome::Delivered,
    }
}

} // verus!
