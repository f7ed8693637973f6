use net_channels::listener::{derived_companion_port, listener_needs_fresh_channel, KnownPeerDelivery};
use net_channels::packet::Packet;
use net_channels::transport::{
    ClientConnection, Connection, InboundItem, IpRepr, PeerAddress, ServerConnection,
};
use net_channels::{
    heartbeats_and_timeouts, receive_packets, MessageFlushingStrategy, NetworkError,
    NetworkEvent, NetworkResource,
};

/// A connection wired up for tests, with the far ends of its queues: what
/// the connection sends shows up on `wire_out`, and whatever is pushed
/// into `wire_in` arrives on the connection.
fn client_conn(
    now_ms: u64,
) -> (
    Connection,
    crossbeam_channel::Receiver<Packet>,
    crossbeam_channel::Sender<InboundItem>,
) {
    let (out_tx, out_rx) = crossbeam_channel::unbounded::<Packet>();
    let (in_tx, in_rx) = crossbeam_channel::unbounded::<InboundItem>();
    let conn = Connection::Client(ClientConnection::new(out_tx, in_rx, now_ms));
    (conn, out_rx, in_tx)
}

#[test]
fn promotion_assigns_monotonic_handles_and_connected_events() {
    let mut net = NetworkResource::new(MessageFlushingStrategy::OnEverySend, None, None);
    let mut events: Vec<NetworkEvent> = Vec::new();
    let (c0, _w0, _i0) = client_conn(0);
    let (c1, _w1, _i1) = client_conn(0);
    receive_packets(&mut net, &mut events, vec![c0, c1], 0);
    assert_eq!(net.connections.len(), 2);
    assert_eq!(net.connections[0].handle, 0);
    assert_eq!(net.connections[1].handle, 1);
    assert!(matches!(events[0], NetworkEvent::Connected(0)));
    assert!(matches!(events[1], NetworkEvent::Connected(1)));

    // disconnecting frees the slot but never the handle
    net.disconnect(0);
    assert_eq!(net.connections.len(), 1);
    let (c2, _w2, _i2) = client_conn(0);
    receive_packets(&mut net, &mut events, vec![c2], 0);
    assert_eq!(net.connections[1].handle, 2);
}

#[test]
fn server_connections_remember_their_peer_address() {
    let (out_tx, _out_rx) = crossbeam_channel::unbounded::<Packet>();
    let (_in_tx, in_rx) = crossbeam_channel::unbounded::<InboundItem>();
    let addr = PeerAddress { ip: IpRepr::V4([127, 0, 0, 1]), port: 4433 };
    let server = Connection::Server(ServerConnection::new(out_tx, in_rx, addr, 0));
    let got = server.remote_address().expect("server side keeps the address");
    // exactly the address remembered at construction
    assert!(matches!(got.ip, IpRepr::V4([127, 0, 0, 1])));
    assert_eq!(got.port, 4433);
    let (client, _w, _i) = client_conn(0);
    assert!(client.remote_address().is_none());
}

#[test]
fn send_to_unknown_handle_is_an_ordinary_error() {
    let mut net = NetworkResource::new(MessageFlushingStrategy::OnEverySend, None, None);
    let r = net.send(99, Packet::from(vec![1, 2, 3]), 0);
    assert_eq!(r, Err(NetworkError::NoSuchConnection));
}

#[test]
fn raw_packets_reach_the_wire_and_count() {
    let mut net = NetworkResource::new(MessageFlushingStrategy::OnEverySend, None, None);
    let mut events: Vec<NetworkEvent> = Vec::new();
    let (c, wire_out, _wire_in) = client_conn(0);
    receive_packets(&mut net, &mut events, vec![c], 0);
    net.send(0, Packet::from(vec![9, 8, 7]), 5).unwrap();
    assert_eq!(wire_out.try_recv().unwrap(), Packet::from(vec![9, 8, 7]));
    let stats = net.connections[0].connection.stats();
    assert_eq!(stats.packets_tx, 1);
    assert_eq!(stats.bytes_tx, 3);
    assert_eq!(stats.last_tx, 5);
}

#[test]
fn inbound_packets_surface_as_events_and_heartbeats_do_not() {
    // P4, receive side: a zero-length payload refreshes the timers but is
    // never surfaced as a packet event.
    let mut net = NetworkResource::new(MessageFlushingStrategy::OnEverySend, None, None);
    let mut events: Vec<NetworkEvent> = Vec::new();
    let (c, _wire_out, wire_in) = client_conn(0);
    receive_packets(&mut net, &mut events, vec![c], 0);
    events.clear();

    wire_in.send(Ok(Packet::from(vec![42, 43]))).unwrap();
    wire_in.send(Ok(Packet::new())).unwrap();
    receive_packets(&mut net, &mut events, vec![], 50);
    assert_eq!(events.len(), 1);
    match &events[0] {
        NetworkEvent::Packet(0, p) => assert_eq!(p.as_ref(), &[42, 43]),
        other => panic!("unexpected event: {:?}", other),
    }
    // both packets, the heartbeat included, refreshed the receive timer
    let stats = net.connections[0].connection.stats();
    assert_eq!(stats.packets_rx, 2);
    assert_eq!(stats.bytes_rx, 2);
    assert_eq!(stats.last_rx, 50);
}

#[test]
fn broadcast_keeps_going_past_a_dead_peer() {
    // P5 scenario: three connections, one with its transport gone; the
    // two healthy ones still get the packet and nothing is raised.
    let mut net = NetworkResource::new(MessageFlushingStrategy::OnEverySend, None, None);
    let mut events: Vec<NetworkEvent> = Vec::new();
    let (c0, w0, _i0) = client_conn(0);
    let (c1, w1, _i1) = client_conn(0);
    let (c2, w2, _i2) = client_conn(0);
    receive_packets(&mut net, &mut events, vec![c0, c1, c2], 0);
    // the middle peer's transport task is gone
    drop(w1);
    net.broadcast(Packet::from(vec![5, 5]), 10);
    assert_eq!(w0.try_recv().unwrap(), Packet::from(vec![5, 5]));
    assert_eq!(w2.try_recv().unwrap(), Packet::from(vec![5, 5]));
    // every connection counted its attempt; the registry kept all three
    assert_eq!(net.connections.len(), 3);
    for entry in net.connections.iter() {
        assert_eq!(entry.connection.stats().packets_tx, 1);
    }
}

#[test]
fn idle_timeout_disconnects_with_exactly_one_error_and_one_disconnect() {
    // P3: a silent peer is dropped with exactly one missed-heartbeat
    // error followed by exactly one disconnect, and is gone at once.
    let mut net = NetworkResource::new(MessageFlushingStrategy::OnEverySend, Some(1000), None);
    let mut events: Vec<NetworkEvent> = Vec::new();
    let (c0, _w0, i0) = client_conn(0);
    let (c1, _w1, _i1) = client_conn(0);
    receive_packets(&mut net, &mut events, vec![c0, c1], 0);
    events.clear();

    // the first peer stays chatty, the second goes silent
    i0.send(Ok(Packet::from(vec![1]))).unwrap();
    receive_packets(&mut net, &mut events, vec![], 1500);
    events.clear();

    heartbeats_and_timeouts(&mut net, &mut events, 2000);
    assert_eq!(events.len(), 2);
    assert!(matches!(
        events[0],
        NetworkEvent::Error(1, NetworkError::MissedHeartbeat)
    ));
    assert!(matches!(events[1], NetworkEvent::Disconnected(1)));
    assert_eq!(net.connections.len(), 1);
    assert_eq!(net.connections[0].handle, 0);

    // a second sweep finds nothing more to do
    events.clear();
    heartbeats_and_timeouts(&mut net, &mut events, 2100);
    assert!(events.is_empty());
    assert_eq!(net.connections.len(), 1);
}

#[test]
fn auto_heartbeat_sends_exactly_one_empty_packet() {
    // P4, send side: one sweep over an outbound-idle connection sends
    // exactly one zero-length packet.
    let mut net = NetworkResource::new(MessageFlushingStrategy::OnEverySend, None, Some(500));
    let mut events: Vec<NetworkEvent> = Vec::new();
    let (c, wire_out, _i) = client_conn(0);
    receive_packets(&mut net, &mut events, vec![c], 0);
    events.clear();

    heartbeats_and_timeouts(&mut net, &mut events, 800);
    assert!(events.is_empty());
    let hb = wire_out.try_recv().unwrap();
    assert_eq!(hb.len(), 0);
    assert!(wire_out.try_recv().is_err());
    let stats = net.connections[0].connection.stats();
    assert_eq!(stats.packets_tx, 1);
    assert_eq!(stats.bytes_tx, 0);
    assert_eq!(stats.last_tx, 800);

    // freshly heartbeated: the next sweep sends nothing
    heartbeats_and_timeouts(&mut net, &mut events, 900);
    assert!(wire_out.try_recv().is_err());
}

#[test]
fn disabled_monitors_never_drop_or_heartbeat() {
    let mut net = NetworkResource::new(MessageFlushingStrategy::OnEverySend, None, None);
    let mut events: Vec<NetworkEvent> = Vec::new();
    let (c, wire_out, _i) = client_conn(0);
    receive_packets(&mut net, &mut events, vec![c], 0);
    events.clear();
    heartbeats_and_timeouts(&mut net, &mut events, 1_000_000);
    assert!(events.is_empty());
    assert_eq!(net.connections.len(), 1);
    assert!(wire_out.try_recv().is_err());
}

#[test]
fn listener_makes_a_fresh_channel_only_for_new_or_stale_peers() {
    assert!(!listener_needs_fresh_channel(KnownPeerDelivery::Delivered));
    assert!(listener_needs_fresh_channel(KnownPeerDelivery::SendFailed));
    assert!(listener_needs_fresh_channel(KnownPeerDelivery::UnknownPeer));
    assert_eq!(derived_companion_port(4000), 4001);
}
