use vstd::prelude::*;
use vstd::bytes::{
    lemma_auto_spec_u16_to_from_le_bytes, lemma_auto_spec_u64_to_from_le_bytes,
    spec_u16_from_le_bytes, spec_u16_to_le_bytes, spec_u64_from_le_bytes, spec_u64_to_le_bytes,
    u16_from_le_bytes, u16_to_le_bytes, u64_from_le_bytes, u64_to_le_bytes,
};
use vstd::slice::{slice_index_get, slice_subrange, slice_to_vec};
use crate::settings::MAX_PACKET_LEN;

verus! {

/// Wire tag of an unreliable data packet.
pub const KIND_UNRELIABLE_DATA: u8 = 0;

/// Wire tag of a reliable data packet.
pub const KIND_RELIABLE_DATA: u8 = 1;

/// Wire tag of a cumulative acknowledgment packet.
pub const KIND_ACK: u8 = 2;

/// One multiplexed sub-packet, before framing or after parsing. Every frame
/// is tagged with the id of the channel it belongs to; zero-length raw
/// payloads are reserved for heartbeats, and framing guarantees a frame is
/// never zero-length, so the two can never collide.
#[derive(Debug)]
pub enum Frame {
    /// Best-effort messages, coalesced; no ordering or delivery promise.
    UnreliableData { channel: u8, messages: Vec<Vec<u8>> },
    /// In-order messages with consecutive sequence numbers, the first one
    /// being `first_seq`; retransmitted until acknowledged.
    ReliableData { channel: u8, first_seq: u64, messages: Vec<Vec<u8>> },
    /// Cumulative acknowledgment: every message with sequence number below
    /// `ack_next` has been received in order.
    Ack { channel: u8, ack_next: u64 },
}

/// The mathematical shape of a frame: message bodies as byte sequences.
pub enum FrameModel {
    UnreliableData { channel: u8, messages: Seq<Seq<u8>> },
    ReliableData { channel: u8, first_seq: u64, messages: Seq<Seq<u8>> },
    Ack { channel: u8, ack_next: u64 },
}

impl View for Frame {
    type V = FrameModel;

    open spec fn view(&self) -> FrameModel {
        match self {
            Frame::UnreliableData { channel, messages } => FrameModel::UnreliableData {
                channel: *channel,
                messages: messages.deep_view(),
            },
            Frame::ReliableData { channel, first_seq, messages } => FrameModel::ReliableData {
                channel: *channel,
                first_seq: *first_seq,
                messages: messages.deep_view(),
            },
            Frame::Ack { channel, ack_next } => FrameModel::Ack {
                channel: *channel,
                ack_next: *ack_next,
            },
        }
    }
}

/// A block of coalesced messages, each preceded by its two-byte
/// little-endian length.
pub open spec fn spec_encode_messages(msgs: Seq<Seq<u8>>) -> Seq<u8>
    decreases msgs.len(),
{
    if msgs.len() == 0 {
        Seq::<u8>::empty()
    } else {
        spec_u16_to_le_bytes(msgs[0].len() as u16) + msgs[0] + spec_encode_messages(msgs.skip(1))
    }
}

/// Messages whose lengths fit the two-byte length prefix.
pub open spec fn spec_messages_wf(msgs: Seq<Seq<u8>>) -> bool {
    forall|i: int| 0 <= i < msgs.len() ==> (#[trigger] msgs[i]).len() <= u16::MAX
}

/// Bytes a message block occupies on the wire: two length bytes plus the
/// body, for each message.
pub open spec fn spec_messages_encoded_len(msgs: Seq<Seq<u8>>) -> int
    decreases msgs.len(),
{
    if msgs.len() == 0 {
        0
    } else {
        2 + msgs[0].len() + spec_messages_encoded_len(msgs.skip(1))
    }
}

/// The byte image of a whole frame: channel tag, kind tag, then the
/// kind-specific body.
pub open spec fn spec_encode_frame(f: FrameModel) -> Seq<u8> {
    match f {
        FrameModel::UnreliableData { channel, messages } => seq![channel, KIND_UNRELIABLE_DATA]
            + spec_encode_messages(messages),
        FrameModel::ReliableData { channel, first_seq, messages } => seq![
            channel,
            KIND_RELIABLE_DATA,
        ] + spec_u64_to_le_bytes(first_seq) + spec_encode_messages(messages),
        FrameModel::Ack { channel, ack_next } => seq![channel, KIND_ACK] + spec_u64_to_le_bytes(
            ack_next,
        ),
    }
}

/// A frame the encoder accepts: message lengths fit their prefixes and the
/// whole image fits in one raw packet.
pub open spec fn spec_frame_encodable(f: FrameModel) -> bool {
    &&& match f {
        FrameModel::UnreliableData { messages, .. } => spec_messages_wf(messages),
        FrameModel::ReliableData { messages, .. } => spec_messages_wf(messages),
        FrameModel::Ack { .. } => true,
    }
    &&& spec_encode_frame(f).len() <= MAX_PACKET_LEN as int
}

/// Parse a message block: each message's length, then its body, until the
/// block is exhausted; anything truncated is malformed.
pub open spec fn spec_decode_messages(b: Seq<u8>) -> Option<Seq<Seq<u8>>>
    decreases b.len(),
{
    if b.len() == 0 {
        Some(Seq::<Seq<u8>>::empty())
    } else if b.len() < 2 {
        None
    } else {
        let l = spec_u16_from_le_bytes(b.take(2)) as int;
        if b.len() < 2 + l {
            None
        } else {
            match spec_decode_messages(b.skip(2 + l)) {
                Some(rest) => Some(seq![b.subrange(2, 2 + l)] + rest),
                None => None,
            }
        }
    }
}

/// Parse a whole frame from a raw packet's bytes. A packet shorter than the
/// two tag bytes, an unknown kind tag, or a malformed body is no frame.
pub open spec fn spec_decode_frame(b: Seq<u8>) -> Option<FrameModel> {
    if b.len() < 2 {
        None
    } else {
        let channel = b[0];
        let kind = b[1];
        if kind == KIND_UNRELIABLE_DATA {
            match spec_decode_messages(b.skip(2)) {
                Some(messages) => Some(FrameModel::UnreliableData { channel, messages }),
                None => None,
            }
        } else if kind == KIND_RELIABLE_DATA {
            if b.len() < 10 {
                None
            } else {
                let first_seq = spec_u64_from_le_bytes(b.subrange(2, 10));
                match spec_decode_messages(b.skip(10)) {
                    Some(messages) => Some(
                        FrameModel::ReliableData { channel, first_seq, messages },
                    ),
                    None => None,
                }
            }
        } else if kind == KIND_ACK {
            if b.len() == 10 {
                Some(FrameModel::Ack { channel, ack_next: spec_u64_from_le_bytes(b.subrange(2, 10)) })
            } else {
                None
            }
        } else {
            None
        }
    }
}

/// Appending one message to a block extends its byte image by the message's
/// length prefix and body.
pub proof fn lemma_encode_messages_push(msgs: Seq<Seq<u8>>, m: Seq<u8>)
    ensures
        spec_encode_messages(msgs.push(m)) == spec_encode_messages(msgs) + spec_u16_to_le_bytes(
            m.len() as u16,
        ) + m,
        spec_messages_encoded_len(msgs.push(m)) == spec_messages_encoded_len(msgs) + 2 + m.len(),
    decreases msgs.len(),
{
    lemma_auto_spec_u16_to_from_le_bytes();
    assert(spec_u16_to_le_bytes(m.len() as u16).len() == 2);
    if msgs.len() == 0 {
        assert(msgs.push(m).skip(1) =~= msgs);
        assert(msgs.push(m)[0] == m);
        assert(spec_encode_messages(msgs.push(m)) =~= spec_encode_messages(msgs)
            + spec_u16_to_le_bytes(m.len() as u16) + m);
    } else {
        assert(msgs.push(m).skip(1) =~= msgs.skip(1).push(m));
        lemma_encode_messages_push(msgs.skip(1), m);
        assert(spec_encode_messages(msgs.push(m)) =~= spec_encode_messages(msgs)
            + spec_u16_to_le_bytes(m.len() as u16) + m);
    }
}

/// A message block's byte image is as long as the sum of its parts, and
/// never negative.
pub proof fn lemma_encode_messages_len(msgs: Seq<Seq<u8>>)
    ensures
        spec_encode_messages(msgs).len() == spec_messages_encoded_len(msgs),
        spec_messages_encoded_len(msgs) >= 0,
    decreases msgs.len(),
{
    lemma_auto_spec_u16_to_from_le_bytes();
    if msgs.len() > 0 {
        lemma_encode_messages_len(msgs.skip(1));
    }
}

/// Parsing a well-formed message block's byte image gives the block back:
/// nothing lost, nothing reordered, nothing altered.
pub proof fn lemma_messages_round_trip(msgs: Seq<Seq<u8>>)
    requires
        spec_messages_wf(msgs),
    ensures
        spec_decode_messages(spec_encode_messages(msgs)) == Some(msgs),
    decreases msgs.len(),
{
    lemma_auto_spec_u16_to_from_le_bytes();
    if msgs.len() == 0 {
    } else {
        let m0 = msgs[0];
        let e = spec_encode_messages(msgs);
        let tail = spec_encode_messages(msgs.skip(1));
        assert(e.take(2) =~= spec_u16_to_le_bytes(m0.len() as u16));
        assert(spec_u16_from_le_bytes(e.take(2)) == m0.len() as u16);
        lemma_encode_messages_len(msgs.skip(1));
        assert(e.subrange(2, 2 + m0.len() as int) =~= m0);
        assert(e.skip(2 + m0.len() as int) =~= tail);
        lemma_messages_round_trip(msgs.skip(1));
        assert(seq![m0] + msgs.skip(1) =~= msgs);
    }
}

/// Parsing a well-formed frame's byte image gives the frame back, and that
/// image is never empty: an empty raw payload can only be a heartbeat.
pub proof fn lemma_frame_round_trip(f: FrameModel)
    requires
        spec_frame_encodable(f),
    ensures
        spec_decode_frame(spec_encode_frame(f)) == Some(f),
        spec_encode_frame(f).len() >= 2,
{
    lemma_auto_spec_u64_to_from_le_bytes();
    let e = spec_encode_frame(f);
    match f {
        FrameModel::UnreliableData { channel, messages } => {
            assert(e[0] == channel);
            assert(e[1] == KIND_UNRELIABLE_DATA);
            assert(e.skip(2) =~= spec_encode_messages(messages));
            lemma_messages_round_trip(messages);
        },
        FrameModel::ReliableData { channel, first_seq, messages } => {
            assert(e[0] == channel);
            assert(e[1] == KIND_RELIABLE_DATA);
            assert(e.subrange(2, 10) =~= spec_u64_to_le_bytes(first_seq));
            assert(e.skip(10) =~= spec_encode_messages(messages));
            lemma_messages_round_trip(messages);
        },
        FrameModel::Ack { channel, ack_next } => {
            assert(e[0] == channel);
            assert(e[1] == KIND_ACK);
            assert(e.subrange(2, 10) =~= spec_u64_to_le_bytes(ack_next));
            assert(e.len() == 10);
        },
    }
}

/// Append one message, with its length prefix, to a byte image under
/// construction.
fn push_encoded_message(out: &mut Vec<u8>, msg: &Vec<u8>)
    requires
        msg@.len() <= u16::MAX,
    ensures
        final(out)@ == old(out)@ + spec_u16_to_le_bytes(msg@.len() as u16) + msg@,
{
    let mut prefix = u16_to_le_bytes(msg.len() as u16);
    out.append(&mut prefix);
    let mut body = slice_to_vec(msg.as_slice());
    out.append(&mut body);
}

/// Turn a frame into the bytes that go on the wire.
pub fn encode_frame(f: &Frame) -> (r: Vec<u8>)
    requires
        spec_frame_encodable(f@),
    ensures
        r@ == spec_encode_frame(f@),
        2 <= r@.len() <= MAX_PACKET_LEN as int,
{
    let mut out: Vec<u8> = Vec::new();
    match f {
        Frame::UnreliableData { channel, messages } => {
            out.push(*channel);
            out.push(KIND_UNRELIABLE_DATA);
            assert(out@ =~= seq![f@->UnreliableData_channel, KIND_UNRELIABLE_DATA]);
            encode_messages_into(&mut out, messages);
        },
        Frame::ReliableData { channel, first_seq, messages } => {
            out.push(*channel);
            out.push(KIND_RELIABLE_DATA);
            let mut seq_bytes = u64_to_le_bytes(*first_seq);
            out.append(&mut seq_bytes);
            assert(out@ =~= seq![
                f@->ReliableData_channel,
                KIND_RELIABLE_DATA,
            ] + spec_u64_to_le_bytes(f@->ReliableData_first_seq));
            encode_messages_into(&mut out, messages);
        },
        Frame::Ack { channel, ack_next } => {
            out.push(*channel);
            out.push(KIND_ACK);
            let mut seq_bytes = u64_to_le_bytes(*ack_next);
            out.append(&mut seq_bytes);
            assert(out@ =~= seq![f@->Ack_channel, KIND_ACK] + spec_u64_to_le_bytes(
                f@->Ack_ack_next,
            ));
        },
    }
    proof {
        lemma_frame_round_trip(f@);
    }
    out
}

/// Append a whole message block to a byte image under construction.
fn encode_messages_into(out: &mut Vec<u8>, messages: &Vec<Vec<u8>>)
    requires
        spec_messages_wf(messages.deep_view()),
    ensures
        final(out)@ == old(out)@ + spec_encode_messages(messages.deep_view()),
{
    let ghost all = messages.deep_view();
    let n = messages.len();
    assert(all.take(0) =~= Seq::<Seq<u8>>::empty());
    for i in 0..n
        invariant
            n == messages@.len(),
            all == messages.deep_view(),
            spec_messages_wf(all),
            out@ == old(out)@ + spec_encode_messages(all.take(i as int)),
    {
        assert(all[i as int] =~= messages@[i as int]@);
        push_encoded_message(out, &messages[i]);
        proof {
            lemma_encode_messages_push(all.take(i as int), all[i as int]);
            assert(all.take(i as int).push(all[i as int]) =~= all.take(i + 1));
        }
    }
    assert(all.take(n as int) =~= all);
}

/// Parse the message block that starts at byte `i` of `b`.
fn decode_messages_from(b: &[u8], i: usize) -> (r: Option<Vec<Vec<u8>>>)
    requires
        i <= b@.len(),
    ensures
        match r {
            Some(v) => spec_decode_messages(b@.skip(i as int)) == Some(v.deep_view()),
            None => spec_decode_messages(b@.skip(i as int)) is None,
        },
    decreases b@.len() - i,
{
    let n = b.len();
    if i == n {
        let empty: Vec<Vec<u8>> = Vec::new();
        assert(b@.skip(i as int) =~= Seq::<u8>::empty());
        assert(empty.deep_view() =~= Seq::<Seq<u8>>::empty());
        return Some(empty);
    }
    if n - i < 2 {
        return None;
    }
    let l = u16_from_le_bytes(slice_subrange(b, i, i + 2)) as usize;
    proof {
        assert(b@.subrange(i as int, i + 2) =~= b@.skip(i as int).take(2));
    }
    if n - i - 2 < l {
        return None;
    }
    let msg = slice_to_vec(slice_subrange(b, i + 2, i + 2 + l));
    proof {
        assert(b@.subrange(i + 2, i + 2 + l) =~= b@.skip(i as int).subrange(2, 2 + l));
    }
    match decode_messages_from(b, i + 2 + l) {
        None => {
            proof {
                assert(b@.skip(i + 2 + l) =~= b@.skip(i as int).skip(2 + l));
            }
            None
        },
        Some(mut rest) => {
            let ghost rest_view = rest.deep_view();
            rest.insert(0, msg);
            proof {
                assert(b@.skip(i + 2 + l) =~= b@.skip(i as int).skip(2 + l));
                assert(msg.deep_view() =~= msg@);
                assert(rest.deep_view() =~~= seq![b@.skip(i as int).subrange(2, 2 + l)]
                    + rest_view);
            }
            Some(rest)
        },
    }
}

/// Parse a raw packet's bytes back into the frame they carry, if any.
pub fn decode_frame(b: &[u8]) -> (r: Option<Frame>)
    ensures
        match r {
            Some(f) => spec_decode_frame(b@) == Some(f@),
            None => spec_decode_frame(b@) is None,
        },
{
    let n = b.len();
    if n < 2 {
        return None;
    }
    let channel = *slice_index_get(b, 0);
    let kind = *slice_index_get(b, 1);
    if kind == KIND_UNRELIABLE_DATA {
        match decode_messages_from(b, 2) {
            Some(messages) => Some(Frame::UnreliableData { channel, messages }),
            None => None,
        }
    } else if kind == KIND_RELIABLE_DATA {
        if n < 10 {
            return None;
        }
        let first_seq = u64_from_le_bytes(slice_subrange(b, 2, 10));
        match decode_messages_from(b, 10) {
            Some(messages) => Some(Frame::ReliableData { channel, first_seq, messages }),
            None => None,
        }
    } else if kind == KIND_ACK {
        if n == 10 {
            let ack_next = u64_from_le_bytes(slice_subrange(b, 2, 10));
            Some(Frame::Ack { channel, ack_next })
        } else {
            None
        }
    } else {
        None
    }
}

} // verus!
