pub mod channels;
pub mod frame;
pub mod listener;
pub mod packet;
pub mod queue;
pub mod settings;
pub mod stats;
pub mod transport;

use vstd::prelude::*;
use crate::packet::{packet_bytes, packet_clone, packet_new, Packet};
use crate::settings::ConnectionChannelsBuilder;
use crate::stats::spec_with_tx;
use crate::transport::Connection;

verus! {

/// Opaque identifier for one logical peer connection; assigned monotonically
/// by the registry and never reused.
pub type ConnectionHandle = u32;

/// Why a channel-bound packet could not be taken in.
#[derive(Clone, Copy, Debug, PartialEq, Eq, Structural)]
pub enum ChannelFault {
    /// The packet's bytes parse as no frame of this system.
    MalformedPacket,
    /// The packet names a channel tag that no registration carries.
    UnknownChannel(u8),
    /// The packet's kind contradicts the named channel's reliability mode.
    WrongMode(u8),
}

/// What can go wrong on a connection. Per-connection errors are surfaced
/// as events or per-operation results, never thrown across the registry:
/// one peer's failure cannot interrupt the others.
#[derive(Clone, Copy, Debug, PartialEq, Eq, Structural)]
pub enum NetworkError {
    /// The channel machinery could not take a packet or message in.
    ChannelDeliveryFailure(ChannelFault),
    /// The transport reported a failure for one operation.
    TransportIoError,
    /// No packet was seen for longer than the idle timeout; always
    /// followed by a forced disconnect of the same handle.
    MissedHeartbeat,
    /// The connection is no longer usable.
    Disconnected,
    /// The named handle is not in the registry; a caller can race with a
    /// disconnect, so this is an ordinary result, never a panic.
    NoSuchConnection,
}

/// What the registry tells the host once per tick: connection lifecycle,
/// raw packets of channel-less connections, and per-connection errors.
#[derive(Debug)]
pub enum NetworkEvent {
    /// A pending connection was promoted into the registry.
    Connected(ConnectionHandle),
    /// The connection left the registry and its handle is dead for good.
    Disconnected(ConnectionHandle),
    /// A raw payload arrived on a connection without channels.
    Packet(ConnectionHandle, crate::packet::Packet),
    /// Something went wrong on this one connection; the others go on.
    Error(ConnectionHandle, NetworkError),
}

/// When enqueued channel messages are turned into physical packets.
#[derive(Clone, Copy, Debug, PartialEq, Eq, Structural)]
pub enum MessageFlushingStrategy {
    /// Flush immediately after every message send or broadcast: simple,
    /// but small messages never get a chance to share a packet.
    OnEverySend,
    /// Never flush implicitly: the host flushes every channel once per
    /// tick, so messages enqueued within one tick coalesce.
    Never,
}

impl Default for MessageFlushingStrategy {
    /// Flushing on every send is the default.
    fn default() -> (s: MessageFlushingStrategy)
        ensures
            s == MessageFlushingStrategy::OnEverySend,
    {
        MessageFlushingStrategy::OnEverySend
    }
}

/// One registry slot: a live connection under its never-reused handle.
pub struct ConnectionEntry {
    pub handle: ConnectionHandle,
    pub connection: Connection,
}

/// The single point of truth for active connections: it promotes pending
/// connections under fresh handles, carries the per-tick send, broadcast
/// and receive surface, and is swept for heartbeats and idle timeouts.
/// Only the host's tick ever touches it; everything asynchronous reaches
/// it through the connections' queues.
pub struct NetworkResource {
    /// The live connections, in promotion order (handles increase).
    pub connections: Vec<ConnectionEntry>,
    /// The next handle to assign; monotone, so handles are never reused.
    pub connection_sequence: u32,
    /// The process-wide channel registrations, once set.
    pub channels_builder: Option<ConnectionChannelsBuilder>,
    pub message_flushing_strategy: MessageFlushingStrategy,
    pub idle_timeout_ms: Option<u64>,
    pub auto_heartbeat_ms: Option<u64>,
}

/// The first index in `entries` whose handle is `h`.
pub open spec fn spec_find_handle(entries: Seq<ConnectionEntry>, h: u32) -> Option<int>
    decreases entries.len(),
{
    if entries.len() == 0 {
        None
    } else if entries[0].handle == h {
        Some(0)
    } else {
        match spec_find_handle(entries.skip(1), h) {
            Some(i) => Some(i + 1),
            None => None,
        }
    }
}

/// A found index is in range and carries the handle; a miss means no
/// entry does.
pub proof fn lemma_find_handle(entries: Seq<ConnectionEntry>, h: u32)
    ensures
        match spec_find_handle(entries, h) {
            Some(i) => 0 <= i < entries.len() && entries[i].handle == h,
            None => forall|j: int|
                0 <= j < entries.len() ==> (#[trigger] entries[j]).handle != h,
        },
    decreases entries.len(),
{
    if entries.len() > 0 {
        lemma_find_handle(entries.skip(1), h);
        if entries[0].handle != h {
            match spec_find_handle(entries.skip(1), h) {
                Some(i) => {
                    assert(entries.skip(1)[i] == entries[i + 1]);
                },
                None => {
                    assert forall|j: int|
                        0 <= j < entries.len() implies (#[trigger] entries[j]).handle != h by {
                        if j > 0 {
                            assert(entries.skip(1)[j - 1] == entries[j]);
                        }
                    }
                },
            }
        }
    }
}

/// Milliseconds of receive silence of a connection as of `now_ms`.
pub open spec fn rx_idle_of(c: Connection, now_ms: u64) -> int {
    if now_ms >= c.spec_stats().last_rx {
        now_ms - c.spec_stats().last_rx
    } else {
        0
    }
}

/// Milliseconds of send silence of a connection as of `now_ms`.
pub open spec fn tx_idle_of(c: Connection, now_ms: u64) -> int {
    if now_ms >= c.spec_stats().last_tx {
        now_ms - c.spec_stats().last_tx
    } else {
        0
    }
}

/// Whether a connection has been receive-silent past the idle timeout;
/// with no timeout configured, never.
pub open spec fn spec_timed_out(c: Connection, now_ms: u64, idle_timeout_ms: Option<u64>) -> bool {
    match idle_timeout_ms {
        Some(limit) => rx_idle_of(c, now_ms) > limit,
        None => false,
    }
}

/// Whether a connection has been send-idle past the heartbeat threshold;
/// with no threshold configured, never.
pub open spec fn spec_needs_heartbeat(c: Connection, now_ms: u64, auto_heartbeat_ms: Option<
    u64,
>) -> bool {
    match auto_heartbeat_ms {
        Some(limit) => tx_idle_of(c, now_ms) > limit,
        None => false,
    }
}

/// The entries that survive one heartbeat-and-timeout sweep, in order,
/// with their pre-sweep state.
pub open spec fn spec_kept(
    entries: Seq<ConnectionEntry>,
    now_ms: u64,
    idle_timeout_ms: Option<u64>,
) -> Seq<ConnectionEntry>
    decreases entries.len(),
{
    if entries.len() == 0 {
        Seq::<ConnectionEntry>::empty()
    } else if spec_timed_out(entries[0].connection, now_ms, idle_timeout_ms) {
        spec_kept(entries.skip(1), now_ms, idle_timeout_ms)
    } else {
        seq![entries[0]] + spec_kept(entries.skip(1), now_ms, idle_timeout_ms)
    }
}

/// The events one heartbeat-and-timeout sweep emits: for each timed-out
/// connection, in registry order, exactly one missed-heartbeat error
/// followed by exactly one disconnect, and nothing else.
pub open spec fn spec_timeout_events(
    entries: Seq<ConnectionEntry>,
    now_ms: u64,
    idle_timeout_ms: Option<u64>,
) -> Seq<NetworkEvent>
    decreases entries.len(),
{
    if entries.len() == 0 {
        Seq::<NetworkEvent>::empty()
    } else if spec_timed_out(entries[0].connection, now_ms, idle_timeout_ms) {
        seq![
            NetworkEvent::Error(entries[0].handle, NetworkError::MissedHeartbeat),
            NetworkEvent::Disconnected(entries[0].handle),
        ] + spec_timeout_events(entries.skip(1), now_ms, idle_timeout_ms)
    } else {
        spec_timeout_events(entries.skip(1), now_ms, idle_timeout_ms)
    }
}

impl NetworkResource {
    /// The next handle to be assigned; every live handle is below it.
    pub open spec fn next_handle(self) -> u32 {
        self.connection_sequence
    }

    /// The process-wide channel registrations, once set.
    pub open spec fn builder(self) -> Option<ConnectionChannelsBuilder> {
        self.channels_builder
    }

    pub open spec fn flushing(self) -> MessageFlushingStrategy {
        self.message_flushing_strategy
    }

    pub open spec fn idle_timeout(self) -> Option<u64> {
        self.idle_timeout_ms
    }

    pub open spec fn auto_heartbeat(self) -> Option<u64> {
        self.auto_heartbeat_ms
    }

    /// Handles strictly increase in promotion order and stay below the
    /// next to be assigned — so a handle is never reused — and every
    /// connection and the registrations are well-formed.
    pub open spec fn wf(self) -> bool {
        &&& forall|i: int, j: int|
            0 <= i < j < self.connections@.len() ==> self.connections@[i].handle
                < self.connections@[j].handle
        &&& forall|i: int|
            0 <= i < self.connections@.len() ==> (#[trigger] self.connections@[i]).handle
                < self.next_handle()
        &&& forall|i: int|
            0 <= i < self.connections@.len() ==> (
            #[trigger] self.connections@[i]).connection.wf()
        &&& match self.builder() {
            Some(b) => b.wf(),
            None => true,
        }
    }

    /// A fresh registry: no connections, the first handle ready, no
    /// registrations yet, and the given tick-time configuration.
    pub fn new(
        message_flushing_strategy: MessageFlushingStrategy,
        idle_timeout_ms: Option<u64>,
        auto_heartbeat_ms: Option<u64>,
    ) -> (net: NetworkResource)
        ensures
            net.wf(),
            net.connections@.len() == 0,
            net.next_handle() == 0,
            net.builder() is None,
            net.flushing() == message_flushing_strategy,
            net.idle_timeout() == idle_timeout_ms,
            net.auto_heartbeat() == auto_heartbeat_ms,
    {
        NetworkResource {
            connections: Vec::new(),
            connection_sequence: 0,
            channels_builder: None,
            message_flushing_strategy,
            idle_timeout_ms,
            auto_heartbeat_ms,
        }
    }

    /// Set the process-wide channel registrations; every connection
    /// promoted from now on gets its channel set built from them.
    pub fn set_channels_builder(&mut self, builder: ConnectionChannelsBuilder)
        requires
            old(self).wf(),
            builder.wf(),
        ensures
            final(self).wf(),
            final(self).builder() == Some(builder),
            final(self).connections == old(self).connections,
            final(self).next_handle() == old(self).next_handle(),
            final(self).flushing() == old(self).flushing(),
            final(self).idle_timeout() == old(self).idle_timeout(),
            final(self).auto_heartbeat() == old(self).auto_heartbeat(),
    {
        self.channels_builder = Some(builder);
    }

    /// The index of the entry under `handle`, if it is live.
    fn index_of(&self, handle: ConnectionHandle) -> (r: Option<usize>)
        ensures
            match r {
                Some(i) => spec_find_handle(self.connections@, handle) == Some(i as int) && i
                    < self.connections@.len() && self.connections@[i as int].handle == handle,
                None => spec_find_handle(self.connections@, handle) is None,
            },
    {
        proof {
            lemma_find_handle(self.connections@, handle);
        }
        let n = self.connections.len();
        for i in 0..n
            invariant
                n == self.connections@.len(),
                forall|j: int| 0 <= j < i ==> (#[trigger] self.connections@[j]).handle != handle,
                match spec_find_handle(self.connections@, handle) {
                    Some(k) => 0 <= k < self.connections@.len() && self.connections@[k].handle
                        == handle,
                    None => forall|j: int|
                        0 <= j < self.connections@.len() ==> (
                        #[trigger] self.connections@[j]).handle != handle,
                },
        {
            if self.connections[i].handle == handle {
                proof {
                    lemma_find_handle_first(self.connections@, handle, i as int);
                }
                return Some(i);
            }
        }
        None
    }

    /// Remove the connection under `handle` from the registry, keeping the
    /// others in order. Purely local: the peer is not told, and will
    /// notice through its own idle timeout. Unknown handles are a no-op,
    /// since a disconnect can race with anything.
    pub fn disconnect(&mut self, handle: ConnectionHandle)
        requires
            old(self).wf(),
        ensures
            final(self).wf(),
            final(self).next_handle() == old(self).next_handle(),
            final(self).builder() == old(self).builder(),
            final(self).flushing() == old(self).flushing(),
            final(self).idle_timeout() == old(self).idle_timeout(),
            final(self).auto_heartbeat() == old(self).auto_heartbeat(),
            match spec_find_handle(old(self).connections@, handle) {
                Some(i) => final(self).connections@ == old(self).connections@.remove(i),
                None => final(self).connections@ == old(self).connections@,
            },
            spec_find_handle(final(self).connections@, handle) is None,
    {
        proof {
            lemma_find_handle(self.connections@, handle);
        }
        match self.index_of(handle) {
            None => {},
            Some(i) => {
                let _ = self.connections.remove(i);
                proof {
                    let pre = old(self).connections@;
                    let post = self.connections@;
                    assert forall|a: int, b: int|
                        0 <= a < b < post.len() implies post[a].handle < post[b].handle by {
                        if b < i {
                        } else if a < i {
                            assert(post[b] == pre[b + 1]);
                        } else {
                            assert(post[a] == pre[a + 1]);
                            assert(post[b] == pre[b + 1]);
                        }
                    }
                    lemma_find_handle(post, handle);
                    match spec_find_handle(post, handle) {
                        Some(k) => {
                            assert(post[k].handle == handle);
                            if k < i {
                                assert(pre[k].handle == handle);
                                assert(pre[i as int].handle == handle);
                            } else {
                                assert(pre[k + 1].handle == handle);
                                assert(pre[i as int].handle == handle);
                            }
                        },
                        None => {},
                    }
                }
            },
        }
    }

    /// Send one raw packet to the connection under `handle`; its stats
    /// count the attempt the moment it is made. An unknown handle is an
    /// ordinary error, and a transport already gone reports itself as
    /// disconnected without disturbing the registry.
    pub fn send(&mut self, handle: ConnectionHandle, payload: Packet, now_ms: u64) -> (r: Result<
        (),
        NetworkError,
    >)
        requires
            old(self).wf(),
        ensures
            final(self).wf(),
            final(self).next_handle() == old(self).next_handle(),
            final(self).builder() == old(self).builder(),
            final(self).connections@.len() == old(self).connections@.len(),
            forall|j: int|
                0 <= j < old(self).connections@.len() ==> (#[trigger] final(self).connections@[j]).handle == old(self).connections@[j].handle,
            match spec_find_handle(old(self).connections@, handle) {
                None => r == Result::<(), NetworkError>::Err(NetworkError::NoSuchConnection)
                    && final(self).connections@ == old(self).connections@,
                Some(i) => {
                    &&& forall|j: int|
                        0 <= j < old(self).connections@.len() && j != i ==> final(self).connections@[j] == old(self).connections@[j]
                    &&& final(self).connections@[i].connection.spec_stats() == spec_with_tx(
                        old(self).connections@[i].connection.spec_stats(),
                        packet_bytes(payload).len() as u64,
                        now_ms,
                    )
                    &&& final(self).connections@[i].connection.spec_channels() == old(self).connections@[i].connection.spec_channels()
                    &&& (r is Err ==> r == Result::<(), NetworkError>::Err(
                        NetworkError::Disconnected,
                    ))
                },
            },
    {
        match self.index_of(handle) {
            None => Err(NetworkError::NoSuchConnection),
            Some(i) => {
                let entry = &mut self.connections[i];
                let r = entry.connection.send(payload, now_ms);
                proof {
                    assert(final(self).connections@ =~= old(self).connections@.update(
                        i as int,
                        final(self).connections@[i as int],
                    ));
                }
                r
            },
        }
    }

    /// Send one raw packet to every live connection. One peer's failed
    /// send is its own problem: the loop never stops early, so the
    /// healthy connections always get their copy.
    pub fn broadcast(&mut self, payload: Packet, now_ms: u64)
        requires
            old(self).wf(),
        ensures
            final(self).wf(),
            final(self).next_handle() == old(self).next_handle(),
            final(self).builder() == old(self).builder(),
            final(self).connections@.len() == old(self).connections@.len(),
            forall|j: int|
                0 <= j < old(self).connections@.len() ==> {
                    &&& (#[trigger] final(self).connections@[j]).handle == old(self).connections@[j].handle
                    &&& final(self).connections@[j].connection.spec_stats() == spec_with_tx(
                        old(self).connections@[j].connection.spec_stats(),
                        packet_bytes(payload).len() as u64,
                        now_ms,
                    )
                    &&& final(self).connections@[j].connection.spec_channels() == old(self).connections@[j].connection.spec_channels()
                },
    {
        let n = self.connections.len();
        for i in 0..n
            invariant
                old(self).wf(),
                n == self.connections@.len(),
                n == old(self).connections@.len(),
                self.next_handle() == old(self).next_handle(),
                self.builder() == old(self).builder(),
                self.flushing() == old(self).flushing(),
                self.idle_timeout() == old(self).idle_timeout(),
                self.auto_heartbeat() == old(self).auto_heartbeat(),
                self.wf(),
                forall|j: int|
                    i <= j < n ==> #[trigger] self.connections@[j] == old(self).connections@[j],
                forall|j: int|
                    0 <= j < i ==> {
                        &&& (#[trigger] self.connections@[j]).handle == old(self).connections@[j].handle
                        &&& self.connections@[j].connection.spec_stats() == spec_with_tx(
                            old(self).connections@[j].connection.spec_stats(),
                            packet_bytes(payload).len() as u64,
                            now_ms,
                        )
                        &&& self.connections@[j].connection.spec_channels() == old(self).connections@[j].connection.spec_channels()
                    },
        {
            let copy = packet_clone(&payload);
            let entry = &mut self.connections[i];
            let _ = entry.connection.send(copy, now_ms);
        }
    }
}

impl NetworkResource {
    /// Whether message-level calls may target `handle` and `channel`: if
    /// the handle is live, its connection must have its channel set built
    /// with that tag registered. Using the message surface without that is
    /// a programming error, ruled out by contract; an unknown handle stays
    /// an ordinary result.
    pub open spec fn can_message(self, handle: ConnectionHandle, channel: u8) -> bool {
        match spec_find_handle(self.connections@, handle) {
            Some(i) => self.connections@[i].connection.can_message(channel),
            None => true,
        }
    }

    /// Enqueue one message for the peer under `handle` on the named
    /// channel, and flush at once if the flushing strategy says so. The
    /// unsent message comes back as `Ok(Some(..))` exactly when the
    /// channel refuses it — the caller may retry or back off — and an
    /// unknown handle is an ordinary error.
    pub fn send_message(
        &mut self,
        handle: ConnectionHandle,
        channel: u8,
        message: Vec<u8>,
        now_ms: u64,
    ) -> (r: Result<Option<Vec<u8>>, NetworkError>)
        requires
            old(self).wf(),
            old(self).can_message(handle, channel),
        ensures
            final(self).wf(),
            final(self).next_handle() == old(self).next_handle(),
            final(self).builder() == old(self).builder(),
            final(self).flushing() == old(self).flushing(),
            final(self).connections@.len() == old(self).connections@.len(),
            forall|j: int|
                0 <= j < old(self).connections@.len() ==> (#[trigger] final(self).connections@[j]).handle == old(self).connections@[j].handle,
            match spec_find_handle(old(self).connections@, handle) {
                None => r == Result::<Option<Vec<u8>>, NetworkError>::Err(
                    NetworkError::NoSuchConnection,
                ) && final(self).connections@ == old(self).connections@,
                Some(i) => {
                    let a = old(self).connections@[i].connection;
                    let b = final(self).connections@[i].connection;
                    &&& (forall|j: int|
                        0 <= j < old(self).connections@.len() && j != i ==> final(self).connections@[j] == old(self).connections@[j])
                    &&& r matches Ok(unsent) && {
                        &&& (unsent is None <==> a.spec_channel(channel).accepts(
                            message@.len() as int,
                        ))
                        &&& (unsent is Some ==> unsent == Some(message))
                    }
                    &&& crate::transport::spec_send_message_rel(
                        a,
                        b,
                        channel,
                        message.deep_view(),
                        old(self).flushing() == MessageFlushingStrategy::OnEverySend,
                        now_ms,
                        a.spec_channel(channel).accepts(message@.len() as int),
                    )
                },
            },
    {
        match self.index_of(handle) {
            None => Err(NetworkError::NoSuchConnection),
            Some(i) => {
                let flush_now = match self.message_flushing_strategy {
                    MessageFlushingStrategy::OnEverySend => true,
                    MessageFlushingStrategy::Never => false,
                };
                let entry = &mut self.connections[i];
                let unsent = entry.connection.send_message(channel, message, flush_now, now_ms);
                proof {
                    assert(final(self).connections@ =~= old(self).connections@.update(
                        i as int,
                        final(self).connections@[i as int],
                    ));
                }
                Ok(unsent)
            },
        }
    }

    /// Enqueue one message for every live connection on the named channel,
    /// flushing per the strategy. A peer whose channel refuses the message
    /// simply does not get it this time — delivery to the healthy peers
    /// is never abandoned, and nothing is raised.
    pub fn broadcast_message(&mut self, channel: u8, message: Vec<u8>, now_ms: u64)
        requires
            old(self).wf(),
            forall|i: int|
                0 <= i < old(self).connections@.len() ==> (#[trigger] old(self).connections@[i]).connection.can_message(channel),
        ensures
            final(self).wf(),
            final(self).next_handle() == old(self).next_handle(),
            final(self).builder() == old(self).builder(),
            final(self).flushing() == old(self).flushing(),
            final(self).connections@.len() == old(self).connections@.len(),
            forall|j: int|
                0 <= j < old(self).connections@.len() ==> {
                    let a = (#[trigger] old(self).connections@[j]).connection;
                    let b = final(self).connections@[j].connection;
                    &&& final(self).connections@[j].handle == old(self).connections@[j].handle
                    &&& crate::transport::spec_send_message_rel(
                        a,
                        b,
                        channel,
                        message.deep_view(),
                        old(self).flushing() == MessageFlushingStrategy::OnEverySend,
                        now_ms,
                        a.spec_channel(channel).accepts(message@.len() as int),
                    )
                },
    {
        let flush_now = match self.message_flushing_strategy {
            MessageFlushingStrategy::OnEverySend => true,
            MessageFlushingStrategy::Never => false,
        };
        let n = self.connections.len();
        for i in 0..n
            invariant
                old(self).wf(),
                forall|j: int|
                    0 <= j < old(self).connections@.len() ==> (#[trigger] old(self).connections@[j]).connection.can_message(channel),
                flush_now == (old(self).flushing() == MessageFlushingStrategy::OnEverySend),
                n == self.connections@.len(),
                n == old(self).connections@.len(),
                self.next_handle() == old(self).next_handle(),
                self.builder() == old(self).builder(),
                self.flushing() == old(self).flushing(),
                self.idle_timeout() == old(self).idle_timeout(),
                self.auto_heartbeat() == old(self).auto_heartbeat(),
                self.wf(),
                forall|j: int|
                    i <= j < n ==> #[trigger] self.connections@[j] == old(self).connections@[j],
                forall|j: int|
                    0 <= j < i ==> {
                        let a = (#[trigger] old(self).connections@[j]).connection;
                        let b = self.connections@[j].connection;
                        &&& self.connections@[j].handle == old(self).connections@[j].handle
                        &&& crate::transport::spec_send_message_rel(
                            a,
                            b,
                            channel,
                            message.deep_view(),
                            flush_now,
                            now_ms,
                            a.spec_channel(channel).accepts(message@.len() as int),
                        )
                    },
        {
            let copy = vstd::slice::slice_to_vec(message.as_slice());
            proof {
                assert(copy.deep_view() =~= message.deep_view());
            }
            let entry = &mut self.connections[i];
            let _ = entry.connection.send_message(channel, copy, flush_now, now_ms);
        }
    }

    /// Hand out the next ready message of the named channel of the peer
    /// under `handle`, in that channel's delivery order; `None` when
    /// nothing is ready or the handle is unknown.
    pub fn recv_message(&mut self, handle: ConnectionHandle, channel: u8, ) -> (r: Option<
        Vec<u8>,
    >)
        requires
            old(self).wf(),
            old(self).can_message(handle, channel),
        ensures
            final(self).wf(),
            final(self).next_handle() == old(self).next_handle(),
            final(self).builder() == old(self).builder(),
            final(self).connections@.len() == old(self).connections@.len(),
            match spec_find_handle(old(self).connections@, handle) {
                None => r is None && final(self).connections@ == old(self).connections@,
                Some(i) => {
                    &&& (forall|j: int|
                        0 <= j < old(self).connections@.len() && j != i ==> final(self).connections@[j] == old(self).connections@[j])
                    &&& final(self).connections@[i].handle == old(self).connections@[i].handle
                    &&& crate::transport::spec_recv_rel(
                        old(self).connections@[i].connection,
                        final(self).connections@[i].connection,
                        channel,
                        match r {
                            Some(m) => Some(m.deep_view()),
                            None => None,
                        },
                    )
                },
            },
    {
        match self.index_of(handle) {
            None => None,
            Some(i) => {
                let entry = &mut self.connections[i];
                let r = entry.connection.recv_message(channel);
                proof {
                    assert(final(self).connections@ =~= old(self).connections@.update(
                        i as int,
                        final(self).connections@[i as int],
                    ));
                }
                r
            },
        }
    }

    /// Drain the named channel of the peer under `handle` into framed
    /// packets and transmit them. Under the never-flush-on-send strategy
    /// the host calls this once per tick per channel, so that the tick's
    /// messages coalesce into few packets.
    pub fn flush_channel(
        &mut self,
        handle: ConnectionHandle,
        channel: u8,
        now_ms: u64,
    ) -> (r: Result<(), NetworkError>)
        requires
            old(self).wf(),
            old(self).can_message(handle, channel),
        ensures
            final(self).wf(),
            final(self).next_handle() == old(self).next_handle(),
            final(self).builder() == old(self).builder(),
            final(self).connections@.len() == old(self).connections@.len(),
            match spec_find_handle(old(self).connections@, handle) {
                None => r == Result::<(), NetworkError>::Err(NetworkError::NoSuchConnection)
                    && final(self).connections@ == old(self).connections@,
                Some(i) => {
                    &&& (forall|j: int|
                        0 <= j < old(self).connections@.len() && j != i ==> final(self).connections@[j] == old(self).connections@[j])
                    &&& final(self).connections@[i].handle == old(self).connections@[i].handle
                    &&& r is Ok
                    &&& crate::transport::spec_flush_rel(
                        old(self).connections@[i].connection,
                        final(self).connections@[i].connection,
                        channel,
                        now_ms,
                    )
                },
            },
    {
        match self.index_of(handle) {
            None => Err(NetworkError::NoSuchConnection),
            Some(i) => {
                let entry = &mut self.connections[i];
                entry.connection.flush_channel(channel, now_ms);
                proof {
                    assert(final(self).connections@ =~= old(self).connections@.update(
                        i as int,
                        final(self).connections@[i as int],
                    ));
                }
                Ok(())
            },
        }
    }
}

/// Appending one entry extends the sweep's survivors by that entry, or
/// not, according to whether it timed out.
proof fn lemma_kept_push(
    entries: Seq<ConnectionEntry>,
    e: ConnectionEntry,
    now_ms: u64,
    idle: Option<u64>,
)
    ensures
        spec_kept(entries.push(e), now_ms, idle) == if spec_timed_out(e.connection, now_ms, idle) {
            spec_kept(entries, now_ms, idle)
        } else {
            spec_kept(entries, now_ms, idle).push(e)
        },
        spec_timeout_events(entries.push(e), now_ms, idle) == if spec_timed_out(
            e.connection,
            now_ms,
            idle,
        ) {
            spec_timeout_events(entries, now_ms, idle) + seq![
                NetworkEvent::Error(e.handle, NetworkError::MissedHeartbeat),
                NetworkEvent::Disconnected(e.handle),
            ]
        } else {
            spec_timeout_events(entries, now_ms, idle)
        },
    decreases entries.len(),
{
    if entries.len() == 0 {
        assert(entries.push(e).skip(1) =~= entries);
        assert(entries.push(e)[0] == e);
        if !spec_timed_out(e.connection, now_ms, idle) {
            assert(spec_kept(entries.push(e), now_ms, idle) =~= spec_kept(
                entries,
                now_ms,
                idle,
            ).push(e));
        }
        assert(spec_timeout_events(entries.push(e), now_ms, idle) =~= if spec_timed_out(
            e.connection,
            now_ms,
            idle,
        ) {
            spec_timeout_events(entries, now_ms, idle) + seq![
                NetworkEvent::Error(e.handle, NetworkError::MissedHeartbeat),
                NetworkEvent::Disconnected(e.handle),
            ]
        } else {
            spec_timeout_events(entries, now_ms, idle)
        });
    } else {
        assert(entries.push(e)[0] == entries[0]);
        assert(entries.push(e).skip(1) =~= entries.skip(1).push(e));
        lemma_kept_push(entries.skip(1), e, now_ms, idle);
        if !spec_timed_out(e.connection, now_ms, idle) {
            assert(spec_kept(entries.push(e), now_ms, idle) =~= spec_kept(
                entries,
                now_ms,
                idle,
            ).push(e));
        }
        assert(spec_timeout_events(entries.push(e), now_ms, idle) =~= if spec_timed_out(
            e.connection,
            now_ms,
            idle,
        ) {
            spec_timeout_events(entries, now_ms, idle) + seq![
                NetworkEvent::Error(e.handle, NetworkError::MissedHeartbeat),
                NetworkEvent::Disconnected(e.handle),
            ]
        } else {
            spec_timeout_events(entries, now_ms, idle)
        });
    }
}

/// Check every live connection's liveness timers once: a connection
/// receive-silent past `idle_timeout_ms` (when set) is presumed dead — it
/// gets exactly one missed-heartbeat error event followed by exactly one
/// disconnect event, in registry order, and leaves the registry at once;
/// a connection send-idle past `auto_heartbeat_ms` (when set) gets exactly
/// one zero-length packet sent to keep intermediaries' mappings fresh,
/// which the peer's registry discards silently. Each half runs only if
/// its limit is configured. Runs on a coarse interval, decoupled from the
/// per-tick packet pump.
pub fn heartbeats_and_timeouts(
    net: &mut NetworkResource,
    events: &mut Vec<NetworkEvent>,
    now_ms: u64,
)
    requires
        old(net).wf(),
    ensures
        final(net).wf(),
        final(net).next_handle() == old(net).next_handle(),
        final(net).builder() == old(net).builder(),
        final(net).flushing() == old(net).flushing(),
        final(net).idle_timeout() == old(net).idle_timeout(),
        final(net).auto_heartbeat() == old(net).auto_heartbeat(),
        final(net).connections@.len() == spec_kept(
            old(net).connections@,
            now_ms,
            old(net).idle_timeout(),
        ).len(),
        forall|k: int|
            0 <= k < final(net).connections@.len() ==> {
                let e = spec_kept(old(net).connections@, now_ms, old(net).idle_timeout())[k];
                &&& (#[trigger] final(net).connections@[k]).handle == e.handle
                &&& final(net).connections@[k].connection.spec_channels()
                    == e.connection.spec_channels()
                &&& final(net).connections@[k].connection.spec_stats() == if spec_needs_heartbeat(
                    e.connection,
                    now_ms,
                    old(net).auto_heartbeat(),
                ) {
                    spec_with_tx(e.connection.spec_stats(), 0, now_ms)
                } else {
                    e.connection.spec_stats()
                }
            },
        final(events)@ == old(events)@ + spec_timeout_events(
            old(net).connections@,
            now_ms,
            old(net).idle_timeout(),
        ),
{
    let idle_limit = net.idle_timeout_ms;
    let heartbeat_limit = net.auto_heartbeat_ms;
    let ghost all = net.connections@;
    let mut kept: Vec<ConnectionEntry> = Vec::new();
    let mut k: usize = 0;
    let n0 = net.connections.len();
    proof {
        assert(all.take(0) =~= Seq::<ConnectionEntry>::empty());
        assert(net.connections@ == all.skip(0));
        assert(final(events)@.len() >= 0);
    }
    while net.connections.len() > 0
        invariant
            old(net).wf(),
            idle_limit == old(net).idle_timeout(),
            heartbeat_limit == old(net).auto_heartbeat(),
            all == old(net).connections@,
            all.len() == n0,
            k + net.connections@.len() == n0,
            net.connections@ == all.skip(k as int),
            net.connection_sequence == old(net).connection_sequence,
            net.channels_builder == old(net).channels_builder,
            net.message_flushing_strategy == old(net).message_flushing_strategy,
            net.idle_timeout_ms == old(net).idle_timeout_ms,
            net.auto_heartbeat_ms == old(net).auto_heartbeat_ms,
            kept@.len() == spec_kept(all.take(k as int), now_ms, idle_limit).len(),
            forall|j: int|
                0 <= j < kept@.len() ==> {
                    let e = spec_kept(all.take(k as int), now_ms, idle_limit)[j];
                    &&& (#[trigger] kept@[j]).handle == e.handle
                    &&& kept@[j].connection.wf()
                    &&& kept@[j].connection.spec_channels() == e.connection.spec_channels()
                    &&& kept@[j].connection.spec_stats() == if spec_needs_heartbeat(
                        e.connection,
                        now_ms,
                        heartbeat_limit,
                    ) {
                        spec_with_tx(e.connection.spec_stats(), 0, now_ms)
                    } else {
                        e.connection.spec_stats()
                    }
                },
            events@ == old(events)@ + spec_timeout_events(all.take(k as int), now_ms, idle_limit),
        decreases net.connections@.len(),
    {
        let ghost centry = all[k as int];
        let mut entry = net.connections.remove(0);
        proof {
            assert(all.skip(k as int)[0] == all[k as int]);
            assert(net.connections@ =~= all.skip(k + 1));
            assert(all.take(k as int).push(centry) =~= all.take(k + 1));
            lemma_kept_push(all.take(k as int), centry, now_ms, idle_limit);
        }
        let idle = entry.connection.last_packet_timings(now_ms);
        let timed_out = match idle_limit {
            Some(limit) => idle.0 > limit,
            None => false,
        };
        if timed_out {
            events.push(NetworkEvent::Error(entry.handle, NetworkError::MissedHeartbeat));
            events.push(NetworkEvent::Disconnected(entry.handle));
            proof {
                assert(events@ =~= old(events)@ + spec_timeout_events(
                    all.take(k + 1),
                    now_ms,
                    idle_limit,
                ));
            }
        } else {
            let needs_heartbeat = match heartbeat_limit {
                Some(limit) => idle.1 > limit,
                None => false,
            };
            if needs_heartbeat {
                // heartbeat packets are empty; a failed attempt still
                // counts as the one send that was made
                let _ = entry.connection.send(packet_new(), now_ms);
            }
            kept.push(entry);
        }
        k = k + 1;
    }
    net.connections = kept;
    proof {
        assert(all.take(n0 as int) =~= all);
        // the survivors keep their relative order, so handles still
        // strictly increase and stay below the next handle
        lemma_kept_sorted(all, now_ms, idle_limit, old(net).next_handle());
    }
}

/// The sweep's survivors keep the strict handle order of the registry and
/// stay below any bound the originals respected.
proof fn lemma_kept_sorted(
    entries: Seq<ConnectionEntry>,
    now_ms: u64,
    idle: Option<u64>,
    bound: u32,
)
    requires
        forall|i: int, j: int|
            0 <= i < j < entries.len() ==> entries[i].handle < entries[j].handle,
        forall|i: int| 0 <= i < entries.len() ==> (#[trigger] entries[i]).handle < bound,
    ensures
        forall|i: int, j: int|
            0 <= i < j < spec_kept(entries, now_ms, idle).len() ==> spec_kept(
                entries,
                now_ms,
                idle,
            )[i].handle < spec_kept(entries, now_ms, idle)[j].handle,
        forall|i: int|
            0 <= i < spec_kept(entries, now_ms, idle).len() ==> (#[trigger] spec_kept(
                entries,
                now_ms,
                idle,
            )[i]).handle < bound,
        forall|i: int|
            0 <= i < spec_kept(entries, now_ms, idle).len() ==> exists|j: int|
                0 <= j < entries.len() && #[trigger] spec_kept(entries, now_ms, idle)[i]
                    == entries[j],
    decreases entries.len(),
{
    if entries.len() > 0 {
        assert forall|a: int, b: int|
            0 <= a < b < entries.skip(1).len() implies entries.skip(1)[a].handle < entries.skip(
            1,
        )[b].handle by {
            assert(entries.skip(1)[a] == entries[a + 1]);
            assert(entries.skip(1)[b] == entries[b + 1]);
        }
        assert forall|a: int|
            0 <= a < entries.skip(1).len() implies (#[trigger] entries.skip(1)[a]).handle
            < bound by {
            assert(entries.skip(1)[a] == entries[a + 1]);
        }
        lemma_kept_sorted(entries.skip(1), now_ms, idle, bound);
        let rest = spec_kept(entries.skip(1), now_ms, idle);
        assert forall|i: int|
            0 <= i < rest.len() implies exists|j: int|
            0 <= j < entries.len() && #[trigger] rest[i] == entries[j] by {
            let j0 = choose|j0: int|
                0 <= j0 < entries.skip(1).len() && #[trigger] rest[i] == entries.skip(1)[j0];
            assert(entries.skip(1)[j0] == entries[j0 + 1]);
        }
        if !spec_timed_out(entries[0].connection, now_ms, idle) {
            let whole = spec_kept(entries, now_ms, idle);
            assert(whole == seq![entries[0]] + rest);
            assert forall|i: int, j: int|
                0 <= i < j < whole.len() implies whole[i].handle < whole[j].handle by {
                if i == 0 {
                    let j0 = choose|j0: int|
                        0 <= j0 < entries.len() && #[trigger] whole[j] == entries[j0];
                    assert(entries[0].handle <= entries[j0].handle);
                    if j0 == 0 {
                        assert(rest[j - 1] == entries[0]);
                        let jj = choose|jj: int|
                            0 <= jj < entries.skip(1).len() && #[trigger] rest[j - 1]
                                == entries.skip(1)[jj];
                        assert(entries.skip(1)[jj] == entries[jj + 1]);
                        assert(entries[jj + 1].handle == entries[0].handle);
                        assert(false);
                    }
                } else {
                    assert(whole[i] == rest[i - 1]);
                    assert(whole[j] == rest[j - 1]);
                }
            }
        }
    }
}

/// The most packets one connection's queue is drained of in one tick;
/// whatever is left waits for the next tick, keeping every tick bounded.
pub const MAX_PACKETS_PER_TICK: usize = 4096;

/// One live handle of the registry carries `h`.
pub open spec fn spec_handle_known(entries: Seq<ConnectionEntry>, h: ConnectionHandle) -> bool {
    exists|i: int| 0 <= i < entries.len() && (#[trigger] entries[i]).handle == h
}

/// An event the per-tick pump may emit: a non-heartbeat raw packet or an
/// error, always for a live handle.
pub open spec fn spec_pump_event_ok(e: NetworkEvent, entries: Seq<ConnectionEntry>) -> bool {
    match e {
        NetworkEvent::Packet(h, p) => spec_handle_known(entries, h) && packet_bytes(p).len() > 0,
        NetworkEvent::Error(h, _) => spec_handle_known(entries, h),
        _ => false,
    }
}

/// The per-tick pump: promote every pending connection, then drain every
/// connection's inbound queue.
///
/// Each pending connection — handed over by the host, which drains the
/// asynchronous accept and connect machinery once per tick — is assigned
/// the next handle (monotone, never reused), gets its channel set built
/// if the registrations were set, joins the registry, and earns exactly
/// one connected event, in order. Then every connection's queue is
/// drained: heartbeats silently refresh the timers, raw payloads of
/// channel-less connections surface as packet events, channel traffic is
/// parsed, routed and acknowledged, and whatever goes wrong on one
/// connection becomes an error event for that handle alone.
pub fn receive_packets(
    net: &mut NetworkResource,
    events: &mut Vec<NetworkEvent>,
    pending: Vec<Connection>,
    now_ms: u64,
)
    requires
        old(net).wf(),
        old(net).next_handle() + pending@.len() <= u32::MAX,
        forall|t: int|
            0 <= t < pending@.len() ==> (#[trigger] pending@[t]).wf() && pending@[
                t].spec_channels() is None,
    ensures
        final(net).wf(),
        final(net).builder() == old(net).builder(),
        final(net).flushing() == old(net).flushing(),
        final(net).idle_timeout() == old(net).idle_timeout(),
        final(net).auto_heartbeat() == old(net).auto_heartbeat(),
        final(net).next_handle() == old(net).next_handle() + pending@.len(),
        final(net).connections@.len() == old(net).connections@.len() + pending@.len(),
        // the old connections keep their handles and their channel history
        forall|i: int|
            0 <= i < old(net).connections@.len() ==> (#[trigger] final(net).connections@[i]).handle == old(net).connections@[i].handle
                && crate::transport::channels_preserved(
                old(net).connections@[i].connection,
                final(net).connections@[i].connection,
            ),
        // the new ones get consecutive fresh handles, and channels exactly
        // if the registrations were set
        forall|t: int|
            0 <= t < pending@.len() ==> {
                let e = #[trigger] final(net).connections@[old(net).connections@.len() + t];
                &&& e.handle == old(net).next_handle() + t
                &&& (e.connection.spec_channels() is Some <==> old(net).builder() is Some)
            },
        // exactly one connected event per promotion, first and in order,
        // then only pump events for live handles
        final(events)@.len() >= old(events)@.len() + pending@.len(),
        final(events)@.take(old(events)@.len() as int) == old(events)@,
        forall|t: int|
            0 <= t < pending@.len() ==> #[trigger] final(events)@[old(events)@.len() + t]
                == NetworkEvent::Connected((old(net).next_handle() + t) as u32),
        forall|q: int|
            old(events)@.len() + pending@.len() <= q < final(events)@.len()
                ==> spec_pump_event_ok(#[trigger] final(events)@[q], final(net).connections@),
{
    let ghost old_conns = net.connections@;
    let ghost old_events = events@;
    let ghost next0 = net.connection_sequence;
    let mut pending = pending;
    let ghost pall = pending@;
    let npend = pending.len();
    let mut t: usize = 0;
    while pending.len() > 0
        invariant
            old(net).wf(),
            old(net).next_handle() + pall.len() <= u32::MAX,
            forall|u: int|
                0 <= u < pall.len() ==> (#[trigger] pall[u]).wf() && pall[u].spec_channels()
                    is None,
            old_conns == old(net).connections@,
            old_events == old(events)@,
            next0 == old(net).next_handle(),
            pall.len() == npend,
            t + pending@.len() == npend,
            pending@ == pall.skip(t as int),
            net.channels_builder == old(net).channels_builder,
            net.message_flushing_strategy == old(net).message_flushing_strategy,
            net.idle_timeout_ms == old(net).idle_timeout_ms,
            net.auto_heartbeat_ms == old(net).auto_heartbeat_ms,
            net.connection_sequence == next0 + t,
            net.wf(),
            net.connections@.len() == old_conns.len() + t,
            forall|i: int|
                0 <= i < old_conns.len() ==> #[trigger] net.connections@[i] == old_conns[i],
            forall|u: int|
                0 <= u < t ==> {
                    let e = #[trigger] net.connections@[old_conns.len() + u];
                    &&& e.handle == next0 + u
                    &&& e.connection.wf()
                    &&& (e.connection.spec_channels() is Some <==> old(net).builder() is Some)
                },
            events@.len() == old_events.len() + t,
            events@.take(old_events.len() as int) == old_events,
            forall|u: int|
                0 <= u < t ==> #[trigger] events@[old_events.len() + u]
                    == NetworkEvent::Connected((next0 + u) as u32),
        decreases pending@.len(),
    {
        let mut conn = pending.remove(0);
        proof {
            assert(pall.skip(t as int)[0] == pall[t as int]);
            assert(pending@ =~= pall.skip(t + 1));
        }
        let handle = net.connection_sequence;
        match &net.channels_builder {
            Some(b) => {
                conn.build_channels(b);
            },
            None => {},
        }
        net.connections.push(ConnectionEntry { handle, connection: conn });
        events.push(NetworkEvent::Connected(handle));
        net.connection_sequence = net.connection_sequence + 1;
        t = t + 1;
        proof {
            assert(events@.take(old_events.len() as int) =~= old_events);
        }
    }
    let ghost mid = *net;
    let ghost mid_events = events@;
    proof {
        assert(mid_events.len() == old_events.len() + pall.len());
    }
    let n = net.connections.len();
    let mut idx: usize = 0;
    while idx < n
        invariant
            mid.wf(),
            old_conns == old(net).connections@,
            old_events == old(events)@,
            next0 == old(net).next_handle(),
            pall.len() == npend,
            mid.connections@.len() == old_conns.len() + pall.len(),
            forall|i: int|
                0 <= i < old_conns.len() ==> #[trigger] mid.connections@[i] == old_conns[i],
            forall|u: int|
                0 <= u < pall.len() ==> {
                    let e = #[trigger] mid.connections@[old_conns.len() + u];
                    &&& e.handle == next0 + u
                    &&& (e.connection.spec_channels() is Some <==> old(net).builder() is Some)
                },
            mid.connection_sequence == next0 + pall.len(),
            mid.channels_builder == old(net).channels_builder,
            mid.message_flushing_strategy == old(net).message_flushing_strategy,
            mid.idle_timeout_ms == old(net).idle_timeout_ms,
            mid.auto_heartbeat_ms == old(net).auto_heartbeat_ms,
            mid_events.len() == old_events.len() + pall.len(),
            mid_events.take(old_events.len() as int) == old_events,
            forall|u: int|
                0 <= u < pall.len() ==> #[trigger] mid_events[old_events.len() + u]
                    == NetworkEvent::Connected((next0 + u) as u32),
            n == mid.connections@.len(),
            0 <= idx <= n,
            mid_events == events@.take(mid_events.len() as int),
            net.connections@.len() == n,
            net.connection_sequence == mid.connection_sequence,
            net.channels_builder == mid.channels_builder,
            net.message_flushing_strategy == mid.message_flushing_strategy,
            net.idle_timeout_ms == mid.idle_timeout_ms,
            net.auto_heartbeat_ms == mid.auto_heartbeat_ms,
            net.wf(),
            forall|i: int|
                0 <= i < n ==> (#[trigger] net.connections@[i]).handle
                    == mid.connections@[i].handle,
            forall|i: int|
                0 <= i < n ==> crate::transport::channels_preserved(
                    (#[trigger] mid.connections@[i]).connection,
                    net.connections@[i].connection,
                ),
            events@.len() >= mid_events.len(),
            forall|q: int|
                mid_events.len() <= q < events@.len() ==> spec_pump_event_ok(
                    #[trigger] events@[q],
                    net.connections@,
                ),
        decreases n - idx,
    {
        let handle = net.connections[idx].handle;
        proof {
            assert(net.connections@[idx as int].handle == handle);
        }
        let mut budget: usize = MAX_PACKETS_PER_TICK;
        loop
            invariant_except_break
                budget <= MAX_PACKETS_PER_TICK,
                mid.wf(),
                n == mid.connections@.len(),
                0 <= idx < n,
                handle == mid.connections@[idx as int].handle,
                mid_events == events@.take(mid_events.len() as int),
                net.connections@.len() == n,
                net.connection_sequence == mid.connection_sequence,
                net.channels_builder == mid.channels_builder,
                net.message_flushing_strategy == mid.message_flushing_strategy,
                net.idle_timeout_ms == mid.idle_timeout_ms,
                net.auto_heartbeat_ms == mid.auto_heartbeat_ms,
                net.wf(),
                forall|i: int|
                    0 <= i < n ==> (#[trigger] net.connections@[i]).handle
                        == mid.connections@[i].handle,
                forall|i: int|
                    0 <= i < n ==> crate::transport::channels_preserved(
                        (#[trigger] mid.connections@[i]).connection,
                        net.connections@[i].connection,
                    ),
                events@.len() >= mid_events.len(),
                forall|q: int|
                    mid_events.len() <= q < events@.len() ==> spec_pump_event_ok(
                        #[trigger] events@[q],
                        net.connections@,
                    ),
            ensures
                mid_events == events@.take(mid_events.len() as int),
                net.connections@.len() == n,
                net.connection_sequence == mid.connection_sequence,
                net.channels_builder == mid.channels_builder,
                net.message_flushing_strategy == mid.message_flushing_strategy,
                net.idle_timeout_ms == mid.idle_timeout_ms,
                net.auto_heartbeat_ms == mid.auto_heartbeat_ms,
                net.wf(),
                forall|i: int|
                    0 <= i < n ==> (#[trigger] net.connections@[i]).handle
                        == mid.connections@[i].handle,
                forall|i: int|
                    0 <= i < n ==> crate::transport::channels_preserved(
                        (#[trigger] mid.connections@[i]).connection,
                        net.connections@[i].connection,
                    ),
                events@.len() >= mid_events.len(),
                forall|q: int|
                    mid_events.len() <= q < events@.len() ==> spec_pump_event_ok(
                        #[trigger] events@[q],
                        net.connections@,
                    ),
            decreases budget,
        {
            if budget == 0 {
                break;
            }
            budget = budget - 1;
            let ghost pre_conns = net.connections@;
            let ghost pre_events = events@;
            let entry = &mut net.connections[idx];
            let polled = entry.connection.receive(now_ms);
            let ghost rec_conns = net.connections@;
            let entry = &mut net.connections[idx];
            let proceed = entry.connection.process_polled(handle, polled, events, now_ms);
            proof {
                assert(rec_conns =~= pre_conns.update(idx as int, rec_conns[idx as int]));
                assert(net.connections@ =~= rec_conns.update(
                    idx as int,
                    net.connections@[idx as int],
                ));
                assert(events@.take(mid_events.len() as int) =~= mid_events);
                assert forall|i: int|
                    0 <= i < n implies crate::transport::channels_preserved(
                    (#[trigger] mid.connections@[i]).connection,
                    net.connections@[i].connection,
                ) by {
                    if i == idx {
                        crate::transport::lemma_channels_preserved_refl(
                            pre_conns[i].connection,
                            rec_conns[i].connection,
                        );
                        crate::transport::lemma_channels_preserved_trans(
                            mid.connections@[i].connection,
                            pre_conns[i].connection,
                            rec_conns[i].connection,
                        );
                        crate::transport::lemma_channels_preserved_trans(
                            mid.connections@[i].connection,
                            rec_conns[i].connection,
                            net.connections@[i].connection,
                        );
                    }
                }
                assert forall|q: int|
                    mid_events.len() <= q < events@.len() implies spec_pump_event_ok(
                    #[trigger] events@[q],
                    net.connections@,
                ) by {
                    if q < pre_events.len() {
                        assert(events@[q] == pre_events[q]);
                        lemma_pump_event_stable_one(events@[q], pre_conns, net.connections@);
                    } else {
                        assert(events@.skip(pre_events.len() as int).contains(events@[q])) by {
                            assert(events@.skip(pre_events.len() as int)[q - pre_events.len()]
                                == events@[q]);
                        }
                        assert(net.connections@[idx as int].handle == handle);
                    }
                }
            }
            if !proceed {
                break;
            }
        }
        idx = idx + 1;
    }
    proof {
        assert(final(events)@.take(old_events.len() as int) =~= old_events);
        assert forall|i: int|
            0 <= i < old_conns.len() implies (#[trigger] final(net).connections@[i]).handle
            == old_conns[i].handle && crate::transport::channels_preserved(
            old_conns[i].connection,
            final(net).connections@[i].connection,
        ) by {
            crate::transport::lemma_channels_preserved_refl(
                old_conns[i].connection,
                mid.connections@[i].connection,
            );
            crate::transport::lemma_channels_preserved_trans(
                old_conns[i].connection,
                mid.connections@[i].connection,
                final(net).connections@[i].connection,
            );
        }
        assert forall|t2: int|
            0 <= t2 < pall.len() implies {
            let e = #[trigger] final(net).connections@[old_conns.len() + t2];
            &&& e.handle == next0 + t2
            &&& (e.connection.spec_channels() is Some <==> old(net).builder() is Some)
        } by {
            assert(crate::transport::channels_preserved(
                mid.connections@[old_conns.len() + t2].connection,
                final(net).connections@[old_conns.len() + t2].connection,
            ));
        }
        assert forall|t2: int|
            0 <= t2 < pall.len() implies #[trigger] final(events)@[old_events.len() + t2]
            == NetworkEvent::Connected((next0 + t2) as u32) by {
            assert(final(events)@.take(mid_events.len() as int)[old_events.len() + t2]
                == final(events)@[old_events.len() + t2]);
        }
    }
}


/// A pump event stays valid as long as the registry's handles stay what
/// they were.
proof fn lemma_pump_event_stable_one(
    e: NetworkEvent,
    a: Seq<ConnectionEntry>,
    b: Seq<ConnectionEntry>,
)
    requires
        a.len() == b.len(),
        forall|i: int| 0 <= i < a.len() ==> (#[trigger] b[i]).handle == a[i].handle,
        spec_pump_event_ok(e, a),
    ensures
        spec_pump_event_ok(e, b),
{
    match e {
        NetworkEvent::Packet(h, p) => {
            let w = choose|w: int| 0 <= w < a.len() && (#[trigger] a[w]).handle == h;
            assert(b[w].handle == h);
        },
        NetworkEvent::Error(h, _) => {
            let w = choose|w: int| 0 <= w < a.len() && (#[trigger] a[w]).handle == h;
            assert(b[w].handle == h);
        },
        _ => {},
    }
}


/// If entries before `i` miss the handle and entry `i` carries it, `i` is
/// the found index.
proof fn lemma_find_handle_first(entries: Seq<ConnectionEntry>, h: u32, i: int)
    requires
        0 <= i < entries.len(),
        entries[i].handle == h,
        forall|j: int| 0 <= j < i ==> (#[trigger] entries[j]).handle != h,
    ensures
        spec_find_handle(entries, h) == Some(i),
    decreases i,
{
    if i > 0 {
        lemma_find_handle_first(entries.skip(1), h, i - 1);
        assert(entries.skip(1)[i - 1] == entries[i]);
        assert forall|j: int| 0 <= j < i - 1 implies (#[trigger] entries.skip(1)[j]).handle
            != h by {
            assert(entries.skip(1)[j] == entries[j + 1]);
        }
    }
}

} // verus!
