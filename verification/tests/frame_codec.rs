use net_channels::frame::{decode_frame, encode_frame, Frame};

#[test]
fn unreliable_frame_round_trips() {
    let frame = Frame::UnreliableData {
        channel: 7,
        messages: vec![vec![1, 2, 3], vec![], vec![255, 0, 128]],
    };
    let bytes = encode_frame(&frame);
    // channel tag, kind tag, then (len, body) per message
    assert_eq!(
        bytes,
        vec![7, 0, 3, 0, 1, 2, 3, 0, 0, 3, 0, 255, 0, 128]
    );
    match decode_frame(bytes.as_slice()) {
        Some(Frame::UnreliableData { channel, messages }) => {
            assert_eq!(channel, 7);
            assert_eq!(messages, vec![vec![1, 2, 3], vec![], vec![255, 0, 128]]);
        }
        _ => panic!("expected an unreliable data frame"),
    }
}

#[test]
fn reliable_frame_round_trips_with_sequence_number() {
    let frame = Frame::ReliableData {
        channel: 2,
        first_seq: 0x0102030405060708,
        messages: vec![vec![9], vec![10, 11]],
    };
    let bytes = encode_frame(&frame);
    assert_eq!(bytes[0], 2);
    assert_eq!(bytes[1], 1);
    // the sequence number is little-endian
    assert_eq!(&bytes[2..10], &[8, 7, 6, 5, 4, 3, 2, 1]);
    match decode_frame(bytes.as_slice()) {
        Some(Frame::ReliableData { channel, first_seq, messages }) => {
            assert_eq!(channel, 2);
            assert_eq!(first_seq, 0x0102030405060708);
            assert_eq!(messages, vec![vec![9], vec![10, 11]]);
        }
        _ => panic!("expected a reliable data frame"),
    }
}

#[test]
fn ack_frame_round_trips() {
    let frame = Frame::Ack { channel: 9, ack_next: 41 };
    let bytes = encode_frame(&frame);
    assert_eq!(bytes.len(), 10);
    match decode_frame(bytes.as_slice()) {
        Some(Frame::Ack { channel, ack_next }) => {
            assert_eq!(channel, 9);
            assert_eq!(ack_next, 41);
        }
        _ => panic!("expected an acknowledgment frame"),
    }
}

#[test]
fn frames_are_never_empty_so_heartbeats_cannot_collide() {
    let frame = Frame::UnreliableData { channel: 0, messages: vec![] };
    let bytes = encode_frame(&frame);
    assert!(bytes.len() >= 2);
}

#[test]
fn malformed_bytes_decode_to_no_frame() {
    // too short for the two tag bytes
    assert!(decode_frame(&[5]).is_none());
    // unknown kind tag
    assert!(decode_frame(&[5, 77]).is_none());
    // truncated message body
    assert!(decode_frame(&[5, 0, 9, 0, 1, 2]).is_none());
    // truncated length prefix
    assert!(decode_frame(&[5, 0, 3]).is_none());
    // an acknowledgment must be exactly ten bytes
    assert!(decode_frame(&[5, 2, 1, 2, 3]).is_none());
    // an empty payload is a heartbeat, never a frame
    assert!(decode_frame(&[]).is_none());
}
