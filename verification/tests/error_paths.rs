use net_channels::frame::{encode_frame, Frame};
use net_channels::packet::Packet;
use net_channels::settings::{
    ConnectionChannelsBuilder, MessageChannelMode, MessageChannelSettings,
    ReliableChannelSettings,
};
use net_channels::transport::{ClientConnection, Connection, InboundItem};
use net_channels::{
    receive_packets, ChannelFault, MessageFlushingStrategy, NetworkError, NetworkEvent,
    NetworkResource,
};

fn registrations() -> ConnectionChannelsBuilder {
    let mut b = ConnectionChannelsBuilder::new();
    b.register(MessageChannelSettings {
        channel: 0,
        channel_mode: MessageChannelMode::Reliable {
            settings: ReliableChannelSettings {
                bandwidth: 4096,
                recv_window: 1024,
                send_window: 1024,
                burst_bandwidth: 1024,
                initial_send_credit: 1024,
                wakeup_interval_ms: 100,
                initial_rtt_ms: 200,
                max_rtt_ms: 2000,
                rtt_smoothing_factor_permille: 100,
                retransmit_factor_permille: 1500,
            },
            max_message_len: 64,
        },
        message_buffer_size: 8,
        packet_buffer_size: 8,
    })
    .unwrap();
    b.register(MessageChannelSettings {
        channel: 1,
        channel_mode: MessageChannelMode::Unreliable,
        message_buffer_size: 8,
        packet_buffer_size: 8,
    })
    .unwrap();
    b
}

fn channelled_peer() -> (
    NetworkResource,
    crossbeam_channel::Receiver<Packet>,
    crossbeam_channel::Sender<InboundItem>,
) {
    let mut net = NetworkResource::new(MessageFlushingStrategy::OnEverySend, None, None);
    net.set_channels_builder(registrations());
    let (out_tx, out_rx) = crossbeam_channel::unbounded::<Packet>();
    let (in_tx, in_rx) = crossbeam_channel::unbounded::<InboundItem>();
    let mut events = Vec::new();
    receive_packets(
        &mut net,
        &mut events,
        vec![Connection::Client(ClientConnection::new(out_tx, in_rx, 0))],
        0,
    );
    (net, out_rx, in_tx)
}

#[test]
fn a_payload_that_parses_to_no_frame_becomes_an_error_event() {
    let (mut net, _wire_out, wire_in) = channelled_peer();
    let mut events: Vec<NetworkEvent> = Vec::new();
    // a lone byte cannot even hold the two tag bytes
    wire_in.send(Ok(Packet::from(vec![99]))).unwrap();
    receive_packets(&mut net, &mut events, vec![], 10);
    assert_eq!(events.len(), 1);
    assert!(matches!(
        events[0],
        NetworkEvent::Error(
            0,
            NetworkError::ChannelDeliveryFailure(ChannelFault::MalformedPacket)
        )
    ));
}

#[test]
fn an_unregistered_channel_tag_becomes_an_error_event() {
    let (mut net, _wire_out, wire_in) = channelled_peer();
    let mut events: Vec<NetworkEvent> = Vec::new();
    let frame = Frame::UnreliableData { channel: 200, messages: vec![vec![1]] };
    wire_in.send(Ok(Packet::from(encode_frame(&frame)))).unwrap();
    receive_packets(&mut net, &mut events, vec![], 10);
    assert_eq!(events.len(), 1);
    assert!(matches!(
        events[0],
        NetworkEvent::Error(
            0,
            NetworkError::ChannelDeliveryFailure(ChannelFault::UnknownChannel(200))
        )
    ));
}

#[test]
fn a_kind_contradicting_the_channel_mode_becomes_an_error_event() {
    let (mut net, _wire_out, wire_in) = channelled_peer();
    let mut events: Vec<NetworkEvent> = Vec::new();
    // an acknowledgment aimed at the unreliable channel makes no sense
    let frame = Frame::Ack { channel: 1, ack_next: 3 };
    wire_in.send(Ok(Packet::from(encode_frame(&frame)))).unwrap();
    receive_packets(&mut net, &mut events, vec![], 10);
    assert_eq!(events.len(), 1);
    assert!(matches!(
        events[0],
        NetworkEvent::Error(
            0,
            NetworkError::ChannelDeliveryFailure(ChannelFault::WrongMode(1))
        )
    ));
    // the mismatched packet changed nothing: the channel still delivers
    let good = Frame::UnreliableData { channel: 1, messages: vec![vec![77]] };
    wire_in.send(Ok(Packet::from(encode_frame(&good)))).unwrap();
    events.clear();
    receive_packets(&mut net, &mut events, vec![], 11);
    assert!(events.is_empty());
    assert_eq!(net.recv_message(0, 1), Some(vec![77]));
}

#[test]
fn a_reliable_data_packet_earns_an_acknowledgment_reply() {
    let (mut net, wire_out, wire_in) = channelled_peer();
    let mut events: Vec<NetworkEvent> = Vec::new();
    let frame = Frame::ReliableData { channel: 0, first_seq: 0, messages: vec![vec![5], vec![6]] };
    wire_in.send(Ok(Packet::from(encode_frame(&frame)))).unwrap();
    receive_packets(&mut net, &mut events, vec![], 10);
    assert!(events.is_empty());
    let reply = wire_out.try_recv().unwrap();
    match net_channels::frame::decode_frame(reply.as_ref()) {
        Some(Frame::Ack { channel, ack_next }) => {
            assert_eq!(channel, 0);
            assert_eq!(ack_next, 2);
        }
        other => panic!("expected an acknowledgment, got {other:?}"),
    }
    assert_eq!(net.recv_message(0, 0), Some(vec![5]));
    assert_eq!(net.recv_message(0, 0), Some(vec![6]));
    assert_eq!(net.recv_message(0, 0), None);
}

#[test]
fn message_calls_on_unknown_handles_stay_ordinary_results() {
    let (mut net, _wire_out, _wire_in) = channelled_peer();
    assert_eq!(
        net.send_message(42, 0, vec![1], 0),
        Err(NetworkError::NoSuchConnection)
    );
    assert_eq!(net.recv_message(42, 0), None);
    assert_eq!(
        net.flush_channel(42, 0, 0),
        Err(NetworkError::NoSuchConnection)
    );
}

#[test]
fn a_closed_transport_surfaces_as_a_disconnect_error() {
    let (mut net, _wire_out, wire_in) = channelled_peer();
    let mut events: Vec<NetworkEvent> = Vec::new();
    drop(wire_in);
    receive_packets(&mut net, &mut events, vec![], 10);
    assert_eq!(events.len(), 1);
    assert!(matches!(
        events[0],
        NetworkEvent::Error(0, NetworkError::Disconnected)
    ));
}
