use net_channels::packet::Packet;
use net_channels::settings::{
    ConnectionChannelsBuilder, MessageChannelMode, MessageChannelSettings,
    ReliableChannelSettings,
};
use net_channels::transport::{ClientConnection, Connection, InboundItem};
use net_channels::{
    receive_packets, MessageFlushingStrategy, NetworkEvent, NetworkResource,
};

const RELIABLE_TAG: u8 = 0;
const UNRELIABLE_TAG: u8 = 1;

fn registrations() -> ConnectionChannelsBuilder {
    let mut b = ConnectionChannelsBuilder::new();
    b.register(MessageChannelSettings {
        channel: RELIABLE_TAG,
        channel_mode: MessageChannelMode::Reliable {
            settings: ReliableChannelSettings {
                bandwidth: 4096,
                recv_window: 1024,
                // room for four one-byte messages in flight: each costs
                // its body plus a two-byte length prefix
                send_window: 12,
                burst_bandwidth: 1024,
                initial_send_credit: 1024,
                wakeup_interval_ms: 100,
                initial_rtt_ms: 200,
                max_rtt_ms: 2000,
                rtt_smoothing_factor_permille: 100,
                retransmit_factor_permille: 1500,
            },
            max_message_len: 64,
        },
        message_buffer_size: 32,
        packet_buffer_size: 32,
    })
    .unwrap();
    b.register(MessageChannelSettings {
        channel: UNRELIABLE_TAG,
        channel_mode: MessageChannelMode::Unreliable,
        message_buffer_size: 32,
        packet_buffer_size: 32,
    })
    .unwrap();
    b
}

struct Peer {
    net: NetworkResource,
    events: Vec<NetworkEvent>,
    wire_out: crossbeam_channel::Receiver<Packet>,
    wire_in: crossbeam_channel::Sender<InboundItem>,
}

fn peer(now_ms: u64) -> Peer {
    let mut net = NetworkResource::new(MessageFlushingStrategy::Never, None, None);
    net.set_channels_builder(registrations());
    let (out_tx, out_rx) = crossbeam_channel::unbounded::<Packet>();
    let (in_tx, in_rx) = crossbeam_channel::unbounded::<InboundItem>();
    let conn = Connection::Client(ClientConnection::new(out_tx, in_rx, now_ms));
    let mut events = Vec::new();
    receive_packets(&mut net, &mut events, vec![conn], now_ms);
    assert!(matches!(events[0], NetworkEvent::Connected(0)));
    Peer { net, events, wire_out: out_rx, wire_in: in_tx }
}

/// Move everything `from` has put on the wire into `to`'s inbox, dropping
/// any packet whose zero-based position is in `drop_positions`.
fn transfer(from: &Peer, to: &Peer, drop_positions: &[usize]) {
    let mut pos = 0usize;
    while let Ok(p) = from.wire_out.try_recv() {
        if !drop_positions.contains(&pos) {
            to.wire_in.send(Ok(p)).unwrap();
        }
        pos += 1;
    }
}

#[test]
fn mixed_channels_deliver_reliably_in_order_and_unreliably_best_effort() {
    // Scenario: one reliable channel (a four-message window) and one
    // unreliable channel; ten messages each, enqueued back to back under
    // the never-flush-on-send strategy, then flushed; the wire loses a
    // few packets. The receiver must end with all ten reliable messages
    // in order, and between zero and ten unreliable ones.
    let mut alice = peer(0);
    let mut bob = peer(0);

    for i in 0u8..10 {
        let unsent = alice.net.send_message(0, RELIABLE_TAG, vec![i], 1).unwrap();
        assert!(unsent.is_none(), "the reliable queue holds all ten");
        let unsent = alice.net.send_message(0, UNRELIABLE_TAG, vec![100 + i], 1).unwrap();
        assert!(unsent.is_none(), "unreliable send never blocks");
    }
    // the one explicit flush of the scenario
    alice.net.flush_channel(0, RELIABLE_TAG, 2).unwrap();
    alice.net.flush_channel(0, UNRELIABLE_TAG, 2).unwrap();

    // the first crossing loses the first packet (the reliable frame)
    transfer(&alice, &bob, &[0]);

    // then the tick loop runs: each tick both sides pump their inboxes
    // (which sends acknowledgments back) and the sender keeps flushing,
    // which retransmits whatever is still unacknowledged
    let mut now = 3;
    for _ in 0..20 {
        receive_packets(&mut bob.net, &mut bob.events, vec![], now);
        transfer(&bob, &alice, &[]);
        receive_packets(&mut alice.net, &mut alice.events, vec![], now);
        alice.net.flush_channel(0, RELIABLE_TAG, now).unwrap();
        transfer(&alice, &bob, &[]);
        now += 1;
    }

    let mut reliable_got: Vec<Vec<u8>> = Vec::new();
    while let Some(m) = bob.net.recv_message(0, RELIABLE_TAG) {
        reliable_got.push(m);
    }
    let expected: Vec<Vec<u8>> = (0u8..10).map(|i| vec![i]).collect();
    assert_eq!(reliable_got, expected);

    let mut unreliable_got: Vec<Vec<u8>> = Vec::new();
    while let Some(m) = bob.net.recv_message(0, UNRELIABLE_TAG) {
        unreliable_got.push(m);
    }
    assert!(unreliable_got.len() <= 10);
    for m in unreliable_got.iter() {
        assert!(m.len() == 1 && (100..110).contains(&m[0]));
    }
}

#[test]
fn on_every_send_flushing_needs_no_explicit_flush() {
    let mut alice = peer(0);
    let mut bob = peer(0);
    alice.net.message_flushing_strategy = MessageFlushingStrategy::OnEverySend;

    alice.net.send_message(0, RELIABLE_TAG, vec![55], 1).unwrap();
    transfer(&alice, &bob, &[]);
    receive_packets(&mut bob.net, &mut bob.events, vec![], 2);
    assert_eq!(bob.net.recv_message(0, RELIABLE_TAG), Some(vec![55]));
}

#[test]
fn broadcast_message_reaches_every_peer_despite_one_refusal() {
    // P5, typed flavor: three peers; one peer's channel queue is already
    // full, so it misses out, but the other two still get the message.
    let mut hub = NetworkResource::new(MessageFlushingStrategy::OnEverySend, None, None);
    hub.set_channels_builder(registrations());
    let mut wires = Vec::new();
    let mut pendings = Vec::new();
    for _ in 0..3 {
        let (out_tx, out_rx) = crossbeam_channel::unbounded::<Packet>();
        let (in_tx, in_rx) = crossbeam_channel::unbounded::<InboundItem>();
        pendings.push(Connection::Client(ClientConnection::new(out_tx, in_rx, 0)));
        wires.push((out_rx, in_tx));
    }
    let mut events = Vec::new();
    receive_packets(&mut hub, &mut events, pendings, 0);

    // fill the middle peer's reliable send queue to the brim without
    // flushing anything
    hub.message_flushing_strategy = MessageFlushingStrategy::Never;
    for i in 0..32 {
        let unsent = hub.send_message(1, RELIABLE_TAG, vec![i], 1).unwrap();
        assert!(unsent.is_none());
    }
    let refused = hub.send_message(1, RELIABLE_TAG, vec![99], 1).unwrap();
    assert_eq!(refused, Some(vec![99]));

    hub.message_flushing_strategy = MessageFlushingStrategy::OnEverySend;
    hub.broadcast_message(RELIABLE_TAG, vec![7], 2);

    // the two healthy peers have packets on their wire; the full one has
    // nothing new beyond what a flush of its stuffed queue would carry,
    // and the broadcast call raised nothing
    assert!(wires[0].0.try_recv().is_ok());
    assert!(wires[2].0.try_recv().is_ok());
}
