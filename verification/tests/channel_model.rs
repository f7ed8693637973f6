use net_channels::channels::Channel;
use net_channels::frame::{decode_frame, Frame};
use net_channels::settings::{
    MessageChannelMode, MessageChannelSettings, ReliableChannelSettings,
};

fn reliable(tag: u8, send_window: u32, buffer: usize) -> MessageChannelSettings {
    MessageChannelSettings {
        channel: tag,
        channel_mode: MessageChannelMode::Reliable {
            settings: ReliableChannelSettings {
                bandwidth: 4096,
                recv_window: 1024,
                send_window,
                burst_bandwidth: 1024,
                initial_send_credit: 1024,
                wakeup_interval_ms: 100,
                initial_rtt_ms: 200,
                max_rtt_ms: 2000,
                rtt_smoothing_factor_permille: 100,
                retransmit_factor_permille: 1500,
            },
            max_message_len: 64,
        },
        message_buffer_size: buffer,
        packet_buffer_size: 16,
    }
}

fn unreliable(tag: u8, buffer: usize) -> MessageChannelSettings {
    MessageChannelSettings {
        channel: tag,
        channel_mode: MessageChannelMode::Unreliable,
        message_buffer_size: buffer,
        packet_buffer_size: 16,
    }
}

fn data_frames(packets: &[Vec<u8>]) -> Vec<(u64, Vec<Vec<u8>>)> {
    packets
        .iter()
        .filter_map(|p| match decode_frame(p.as_slice()) {
            Some(Frame::ReliableData { first_seq, messages, .. }) => Some((first_seq, messages)),
            _ => None,
        })
        .collect()
}

#[test]
fn send_reports_buffer_full_and_oversize_instead_of_dropping() {
    let mut ch = Channel::new(reliable(0, 1024, 2));
    assert!(ch.send(vec![1]).is_none());
    assert!(ch.send(vec![2]).is_none());
    // the queue is at capacity: the message comes straight back
    assert_eq!(ch.send(vec![3]), Some(vec![3]));
    // over the channel's length limit: straight back too
    let big = vec![0u8; 65];
    assert_eq!(ch.send(big.clone()), Some(big));
}

#[test]
fn reliable_messages_survive_loss_reordering_and_duplication() {
    // P1 scenario: every flush retransmits the unacknowledged window, so
    // the receiver ends with exactly the sent sequence, in order, however
    // the wire mangles packet order or drops packets.
    let mut tx = Channel::new(reliable(0, 1024, 16));
    let mut rx = Channel::new(reliable(0, 1024, 16));
    let sent: Vec<Vec<u8>> = (0u8..10).map(|i| vec![i, i + 100]).collect();
    for m in sent.iter() {
        assert!(tx.send(m.clone()).is_none());
    }
    let mut packets: Vec<Vec<u8>> = Vec::new();
    tx.flush(&mut packets);
    let frames = data_frames(&packets);
    assert!(!frames.is_empty());

    // first delivery: drop the first packet, deliver the rest reversed,
    // then deliver everything twice more in order
    let mut ack = 0;
    for (first_seq, messages) in frames.iter().skip(1).rev() {
        ack = rx.handle_reliable_data(*first_seq, messages.clone());
    }
    for _ in 0..2 {
        for (first_seq, messages) in frames.iter() {
            ack = rx.handle_reliable_data(*first_seq, messages.clone());
        }
    }
    assert_eq!(ack, 10);
    tx.handle_ack(ack);

    // nothing further in flight once all ten are acknowledged
    let mut more: Vec<Vec<u8>> = Vec::new();
    tx.flush(&mut more);
    assert!(data_frames(&more).is_empty());

    let mut got: Vec<Vec<u8>> = Vec::new();
    while let Some(m) = rx.recv() {
        got.push(m);
    }
    assert_eq!(got, sent);
}

#[test]
fn reliable_send_window_limits_whats_in_flight() {
    // a 10-byte window holds two 3-byte messages (each costs its body
    // plus a two-byte prefix); the rest stay queued until acknowledged
    let mut tx = Channel::new(reliable(0, 10, 16));
    for i in 0u8..5 {
        assert!(tx.send(vec![i, i, i]).is_none());
    }
    let mut packets: Vec<Vec<u8>> = Vec::new();
    tx.flush(&mut packets);
    let frames = data_frames(&packets);
    let in_flight: usize = frames.iter().map(|(_, m)| m.len()).sum();
    assert_eq!(in_flight, 2);

    // acknowledging the window frees budget for the next two
    let mut rx = Channel::new(reliable(0, 10, 16));
    let mut ack = 0;
    for (first_seq, messages) in frames.iter() {
        ack = rx.handle_reliable_data(*first_seq, messages.clone());
    }
    assert_eq!(ack, 2);
    tx.handle_ack(ack);
    let mut packets2: Vec<Vec<u8>> = Vec::new();
    tx.flush(&mut packets2);
    let frames2 = data_frames(&packets2);
    let in_flight2: usize = frames2.iter().map(|(_, m)| m.len()).sum();
    assert_eq!(in_flight2, 2);
    assert_eq!(frames2[0].0, 2);
}

#[test]
fn unreliable_delivery_is_a_subset_and_never_blocks() {
    // P2 scenario: whatever arrives was sent, unaltered; loss is allowed;
    // send always returns at once.
    let mut tx = Channel::new(unreliable(1, 16));
    let mut rx = Channel::new(unreliable(1, 16));
    let sent: Vec<Vec<u8>> = (0u8..10).map(|i| vec![i, 200]).collect();
    for m in sent.iter() {
        assert!(tx.send(m.clone()).is_none());
    }
    let mut packets: Vec<Vec<u8>> = Vec::new();
    tx.flush(&mut packets);
    // lose every other packet's worth: deliver only the first frame
    if let Some(Frame::UnreliableData { messages, .. }) =
        decode_frame(packets[0].as_slice())
    {
        rx.handle_unreliable_data(messages);
    } else {
        panic!("expected an unreliable data frame");
    }
    let mut got: Vec<Vec<u8>> = Vec::new();
    while let Some(m) = rx.recv() {
        got.push(m);
    }
    assert!(got.len() <= sent.len());
    for m in got.iter() {
        assert!(sent.contains(m));
    }
}

#[test]
fn unreliable_ready_queue_drops_newest_on_overflow() {
    let mut rx = Channel::new(unreliable(1, 3));
    rx.handle_unreliable_data(vec![vec![1], vec![2], vec![3], vec![4], vec![5]]);
    let mut got: Vec<Vec<u8>> = Vec::new();
    while let Some(m) = rx.recv() {
        got.push(m);
    }
    assert_eq!(got, vec![vec![1], vec![2], vec![3]]);
}

#[test]
fn duplicate_reliable_messages_reach_the_application_once() {
    let mut rx = Channel::new(reliable(0, 1024, 16));
    let msgs = vec![vec![7u8], vec![8u8]];
    rx.handle_reliable_data(0, msgs.clone());
    rx.handle_reliable_data(0, msgs.clone());
    rx.handle_reliable_data(0, msgs);
    assert_eq!(rx.recv(), Some(vec![7]));
    assert_eq!(rx.recv(), Some(vec![8]));
    assert_eq!(rx.recv(), None);
}

#[test]
fn out_of_order_arrivals_are_held_back_until_the_gap_fills() {
    let mut rx = Channel::new(reliable(0, 1024, 16));
    let ack = rx.handle_reliable_data(2, vec![vec![12u8], vec![13u8]]);
    // nothing deliverable yet: the first two are missing
    assert_eq!(ack, 0);
    assert_eq!(rx.recv(), None);
    let ack = rx.handle_reliable_data(0, vec![vec![10u8], vec![11u8]]);
    assert_eq!(ack, 4);
    assert_eq!(rx.recv(), Some(vec![10]));
    assert_eq!(rx.recv(), Some(vec![11]));
    assert_eq!(rx.recv(), Some(vec![12]));
    assert_eq!(rx.recv(), Some(vec![13]));
    assert_eq!(rx.recv(), None);
}
