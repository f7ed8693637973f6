use vstd::prelude::*;
use crate::frame::{encode_frame, spec_encode_frame, spec_frame_encodable, Frame, FrameModel};
use crate::frame::{lemma_encode_messages_len, lemma_encode_messages_push, spec_messages_encoded_len, spec_messages_wf};
use crate::settings::{ConnectionChannelsBuilder, MessageChannelMode, MessageChannelSettings, MAX_MESSAGE_LEN, MAX_PACKET_LEN, RELIABLE_HEADER_LEN, UNRELIABLE_HEADER_LEN};
use vstd::slice::slice_to_vec;

verus! {

/// Hands out fixed-size zeroed buffers for packet assembly.
#[derive(Clone, Debug)]
pub struct SimpleBufferPool(pub usize);

impl SimpleBufferPool {
    /// A fresh zeroed buffer of the configured size.
    pub fn acquire(&self) -> (b: Vec<u8>)
        ensures
            b@.len() == self.0,
            forall|i: int| 0 <= i < b@.len() ==> b@[i] == 0u8,
    {
        let mut v: Vec<u8> = Vec::new();
        let n = self.0;
        for k in 0..n
            invariant
                v@.len() == k,
                forall|i: int| 0 <= i < v@.len() ==> v@[i] == 0u8,
        {
            v.push(0u8);
        }
        v
    }
}

/// One logical message channel of a connection: an independently ordered,
/// reliability-configured stream of messages multiplexed onto the
/// connection's raw packet stream.
///
/// The exec state is what runs; the ghost histories record every message the
/// application ever handed in (`sent_history`), every message ever made
/// ready for the application (`delivered_history`), and what arrived from
/// the wire (`got_map` by sequence number for the reliable mode,
/// `seen_messages` for the unreliable mode). The delivery laws are stated
/// over these histories.
pub struct Channel {
    settings: MessageChannelSettings,
    /// Accepted outbound messages not yet moved into a packet.
    send_queue: Vec<Vec<u8>>,
    /// Lowest sequence number not yet cumulatively acknowledged (reliable).
    base_seq: u64,
    /// Sent but unacknowledged messages; the one at offset `k` carries
    /// sequence number `base_seq + k` (reliable).
    in_flight: Vec<Vec<u8>>,
    /// Next sequence number owed to the application (reliable).
    next_deliver: u64,
    /// Out-of-order arrivals held back until the gap before them fills
    /// (reliable); pairs of sequence number and body.
    reorder: Vec<(u64, Vec<u8>)>,
    /// Messages ready for `recv`, in delivery order.
    ready: Vec<Vec<u8>>,
    sent_history: Ghost<Seq<Seq<u8>>>,
    delivered_history: Ghost<Seq<Seq<u8>>>,
    got_map: Ghost<Map<int, Seq<u8>>>,
    seen_messages: Ghost<Seq<Seq<u8>>>,
}

impl Channel {
    /// The channel's configuration.
    pub closed spec fn cfg(self) -> MessageChannelSettings {
        self.settings
    }

    /// Every message the application has handed to `send` and the channel
    /// accepted, in order.
    pub closed spec fn sent_log(self) -> Seq<Seq<u8>> {
        self.sent_history@
    }

    /// Every message the channel has ever made ready for `recv`, in the
    /// order it was made ready.
    pub closed spec fn delivered_log(self) -> Seq<Seq<u8>> {
        self.delivered_history@
    }

    /// Accepted outbound messages not yet moved into a packet.
    pub closed spec fn queued(self) -> Seq<Seq<u8>> {
        self.send_queue.deep_view()
    }

    /// Sent but unacknowledged messages (reliable mode).
    pub closed spec fn in_flight_msgs(self) -> Seq<Seq<u8>> {
        self.in_flight.deep_view()
    }

    /// Lowest unacknowledged sequence number (reliable mode).
    pub closed spec fn base(self) -> u64 {
        self.base_seq
    }

    /// One past the highest sequence number ever put in a packet
    /// (reliable mode).
    pub closed spec fn next_seq(self) -> int {
        self.base_seq + self.in_flight.deep_view().len()
    }

    /// Next sequence number owed to the application (reliable mode).
    pub closed spec fn deliver_next(self) -> u64 {
        self.next_deliver
    }

    /// Messages ready for `recv`, in delivery order.
    pub closed spec fn ready_msgs(self) -> Seq<Seq<u8>> {
        self.ready.deep_view()
    }

    /// What the wire has asserted each sequence number's body to be, first
    /// assertion winning (reliable mode).
    pub closed spec fn got(self) -> Map<int, Seq<u8>> {
        self.got_map@
    }

    /// Every message body that ever arrived in an unreliable data packet
    /// for this channel.
    pub closed spec fn seen(self) -> Seq<Seq<u8>> {
        self.seen_messages@
    }

    /// Whether the channel is in reliable mode.
    pub open spec fn is_reliable(self) -> bool {
        self.cfg().channel_mode is Reliable
    }

    /// Outbound bookkeeping: the send queue respects its capacity and the
    /// length limit. In reliable mode, acknowledged ++ in flight ++ queued
    /// = sent, and the in-flight window keeps to its byte budget; in
    /// unreliable mode the queue is simply the not-yet-flushed suffix of
    /// the send log.
    pub closed spec fn out_wf(self) -> bool {
        &&& self.settings.spec_valid()
        &&& self.send_queue.deep_view().len() <= self.settings.message_buffer_size
        &&& forall|i: int|
            0 <= i < self.send_queue.deep_view().len() ==> (
            #[trigger] self.send_queue.deep_view()[i]).len()
                <= self.settings.spec_max_message_len()
        &&& forall|i: int|
            0 <= i < self.in_flight.deep_view().len() ==> (
            #[trigger] self.in_flight.deep_view()[i]).len()
                <= self.settings.spec_max_message_len()
        &&& (self.cfg().channel_mode is Reliable ==> {
            &&& self.sent_history@.len() == self.base_seq + self.in_flight@.len()
                + self.send_queue@.len()
            &&& self.sent_history@.len() <= u64::MAX
            &&& forall|k: int|
                0 <= k < self.in_flight.deep_view().len() ==> #[trigger] self.in_flight.deep_view()[k]
                    == self.sent_history@[self.base_seq + k]
            &&& forall|j: int|
                0 <= j < self.send_queue.deep_view().len() ==> #[trigger] self.send_queue.deep_view()[j]
                    == self.sent_history@[self.base_seq + self.in_flight@.len() + j]
            // the in-flight window never exceeds its byte budget
            &&& wire_cost(self.in_flight.deep_view()) <= self.send_window_budget()
        })
        &&& (self.cfg().channel_mode is Unreliable ==> {
            &&& self.send_queue@.len() <= self.sent_history@.len()
            &&& forall|j: int|
                0 <= j < self.send_queue.deep_view().len() ==> #[trigger] self.send_queue.deep_view()[j]
                    == self.sent_history@[self.sent_history@.len() - self.send_queue@.len() + j]
        })
    }

    /// The reliable in-flight byte budget: the configured send window.
    pub open spec fn send_window_budget(self) -> int {
        match self.cfg().channel_mode {
            MessageChannelMode::Reliable { settings, .. } => settings.send_window as int,
            MessageChannelMode::Unreliable => 0,
        }
    }

    /// Inbound bookkeeping: delivery follows `got` in sequence order and
    /// gap-free; held-back arrivals are distinct, not yet due, below the
    /// end of the sequence space, and recorded in `got`; the ready queue is
    /// the not-yet-consumed suffix of the delivered history.
    pub closed spec fn rx_wf_core(self) -> bool {
        &&& (self.cfg().channel_mode is Reliable ==> self.delivered_history@.len()
            == self.next_deliver)
        &&& forall|s: int|
            0 <= s < self.next_deliver ==> (#[trigger] self.got_map@.contains_key(s))
                && self.delivered_history@[s] == self.got_map@[s]
        &&& forall|k: int|
            0 <= k < self.reorder@.len() ==> {
                &&& (#[trigger] self.reorder@[k]).0 >= self.next_deliver
                &&& self.reorder@[k].0 < u64::MAX
                &&& self.got_map@.contains_key(self.reorder@[k].0 as int)
                &&& self.got_map@[self.reorder@[k].0 as int] == self.reorder@[k].1.deep_view()
            }
        &&& forall|k1: int, k2: int|
            0 <= k1 < k2 < self.reorder@.len() ==> (#[trigger] self.reorder@[k1]).0 != (
            #[trigger] self.reorder@[k2]).0
        // `got` holds exactly what was delivered or is held back
        &&& forall|s: int|
            #[trigger] self.got_map@.contains_key(s) ==> 0 <= s && (s < self.next_deliver
                || exists|k: int|
                0 <= k < self.reorder@.len() && (#[trigger] self.reorder@[k]).0 == s)
        // unreliable mode leaves the sequence machinery untouched
        &&& (self.cfg().channel_mode is Unreliable ==> {
            &&& self.base_seq == 0
            &&& self.in_flight@.len() == 0
            &&& self.next_deliver == 0
            &&& self.reorder@.len() == 0
            &&& self.ready@.len() <= self.settings.message_buffer_size
        })
        // everything ever made ready was asserted by the wire
        &&& (self.cfg().channel_mode is Unreliable ==> forall|i: int|
            0 <= i < self.delivered_history@.len() ==> self.seen_messages@.contains(
                #[trigger] self.delivered_history@[i],
            ))
        &&& self.ready.deep_view().len() <= self.delivered_history@.len()
        &&& self.ready.deep_view() == self.delivered_history@.skip(
            self.delivered_history@.len() - self.ready.deep_view().len(),
        )
    }

    /// No held-back arrival is due for delivery right now.
    pub closed spec fn rx_drained(self) -> bool {
        forall|k: int|
            0 <= k < self.reorder@.len() ==> (#[trigger] self.reorder@[k]).0 > self.next_deliver
    }

    /// The channel's internal invariant.
    pub closed spec fn wf(self) -> bool {
        &&& self.out_wf()
        &&& self.rx_wf_core()
        &&& self.rx_drained()
    }

    /// A fresh channel: nothing sent, nothing delivered, nothing seen.
    pub fn new(settings: MessageChannelSettings) -> (c: Channel)
        requires
            settings.spec_valid(),
        ensures
            c.wf(),
            c.cfg() == settings,
            c.sent_log() == Seq::<Seq<u8>>::empty(),
            c.delivered_log() == Seq::<Seq<u8>>::empty(),
            c.queued() == Seq::<Seq<u8>>::empty(),
            c.in_flight_msgs() == Seq::<Seq<u8>>::empty(),
            c.base() == 0,
            c.deliver_next() == 0,
            c.ready_msgs() == Seq::<Seq<u8>>::empty(),
            c.got() == Map::<int, Seq<u8>>::empty(),
            c.seen() == Seq::<Seq<u8>>::empty(),
    {
        let c = Channel {
            settings,
            send_queue: Vec::new(),
            base_seq: 0,
            in_flight: Vec::new(),
            next_deliver: 0,
            reorder: Vec::new(),
            ready: Vec::new(),
            sent_history: Ghost(Seq::empty()),
            delivered_history: Ghost(Seq::empty()),
            got_map: Ghost(Map::empty()),
            seen_messages: Ghost(Seq::empty()),
        };
        proof {
            assert(c.send_queue.deep_view() =~= Seq::<Seq<u8>>::empty());
            assert(c.in_flight.deep_view() =~= Seq::<Seq<u8>>::empty());
            assert(c.ready.deep_view() =~= Seq::<Seq<u8>>::empty());
            assert(c.ready.deep_view() =~= c.delivered_history@.skip(0));
        }
        c
    }

    /// Whether `send` would accept a message of length `len` right now.
    pub open spec fn accepts(self, len: int) -> bool {
        &&& self.queued().len() < self.cfg().message_buffer_size
        &&& len <= self.cfg().spec_max_message_len()
        &&& (self.is_reliable() ==> self.sent_log().len() < u64::MAX)
    }

    /// Enqueue one outbound message. Never blocks and never drops silently:
    /// the message comes straight back as `Some` exactly when the send
    /// queue is at capacity or the message is over the channel's length
    /// limit, and is accepted into the queue (and the send log) otherwise.
    pub fn send(&mut self, message: Vec<u8>) -> (unsent: Option<Vec<u8>>)
        requires
            old(self).wf(),
        ensures
            final(self).wf(),
            final(self).cfg() == old(self).cfg(),
            old(self).accepts(message@.len() as int) ==> {
                &&& unsent is None
                &&& final(self).queued() == old(self).queued().push(message.deep_view())
                &&& final(self).sent_log() == old(self).sent_log().push(message.deep_view())
            },
            !old(self).accepts(message@.len() as int) ==> {
                &&& unsent == Some(message)
                &&& *final(self) == *old(self)
            },
            final(self).in_flight_msgs() == old(self).in_flight_msgs(),
            final(self).base() == old(self).base(),
            final(self).deliver_next() == old(self).deliver_next(),
            final(self).ready_msgs() == old(self).ready_msgs(),
            final(self).delivered_log() == old(self).delivered_log(),
            final(self).got() == old(self).got(),
            final(self).seen() == old(self).seen(),
    {
        let max_len = match self.settings.channel_mode {
            MessageChannelMode::Reliable { max_message_len, .. } => max_message_len as usize,
            MessageChannelMode::Unreliable => MAX_MESSAGE_LEN,
        };
        // in reliable mode the sequence space must not run out either
        let log_is_full = match self.settings.channel_mode {
            MessageChannelMode::Reliable { .. } => {
                let in_flight_len = self.in_flight.len();
                let queue_len = self.send_queue.len();
                let total: u64 = self.base_seq + (in_flight_len as u64) + (queue_len as u64);
                total == u64::MAX
            },
            MessageChannelMode::Unreliable => false,
        };
        if self.send_queue.len() >= self.settings.message_buffer_size || message.len() > max_len
            || log_is_full {
            return Some(message);
        }
        let ghost m = message.deep_view();
        let ghost pre = *self;
        self.send_queue.push(message);
        proof {
            self.sent_history@ = self.sent_history@.push(m);
            assert(self.send_queue.deep_view() =~~= pre.send_queue.deep_view().push(m));
            lemma_rx_transfer(pre, *self);
        }
        None
    }

    /// Hand the application the next ready message, in delivery order;
    /// `None` when nothing is ready. A non-blocking poll.
    pub fn recv(&mut self) -> (r: Option<Vec<u8>>)
        requires
            old(self).wf(),
        ensures
            final(self).wf(),
            final(self).cfg() == old(self).cfg(),
            old(self).ready_msgs().len() == 0 ==> r is None && *final(self) == *old(self),
            old(self).ready_msgs().len() > 0 ==> {
                &&& r matches Some(m) && m.deep_view() == old(self).ready_msgs()[0]
                &&& final(self).ready_msgs() == old(self).ready_msgs().skip(1)
            },
            final(self).sent_log() == old(self).sent_log(),
            final(self).delivered_log() == old(self).delivered_log(),
            final(self).queued() == old(self).queued(),
            final(self).in_flight_msgs() == old(self).in_flight_msgs(),
            final(self).base() == old(self).base(),
            final(self).deliver_next() == old(self).deliver_next(),
            final(self).got() == old(self).got(),
            final(self).seen() == old(self).seen(),
    {
        if self.ready.len() == 0 {
            return None;
        }
        let ghost pre = *self;
        let m = self.ready.remove(0);
        proof {
            assert(self.ready.deep_view() =~~= pre.ready.deep_view().skip(1));
            assert(self.ready.deep_view() =~~= self.delivered_history@.skip(
                self.delivered_history@.len() - self.ready.deep_view().len(),
            ));
            lemma_rx_transfer_new_ready(pre, *self);
        }
        Some(m)
    }

    /// The index of a held-back arrival that is due right now, if any.
    fn find_due(&self) -> (r: Option<usize>)
        ensures
            match r {
                Some(k) => k < self.reorder@.len() && self.reorder@[k as int].0
                    == self.deliver_next(),
                None => forall|k: int|
                    0 <= k < self.reorder@.len() ==> (#[trigger] self.reorder@[k]).0
                        != self.deliver_next(),
            },
    {
        let n = self.reorder.len();
        for k in 0..n
            invariant
                n == self.reorder@.len(),
                forall|j: int|
                    0 <= j < k ==> (#[trigger] self.reorder@[j]).0 != self.deliver_next(),
        {
            if self.reorder[k].0 == self.next_deliver {
                return Some(k);
            }
        }
        None
    }

    /// Deliver every held-back arrival that has become due, in sequence
    /// order, until none is due.
    fn drain_reorder(&mut self)
        requires
            old(self).out_wf(),
            old(self).rx_wf_core(),
            old(self).is_reliable(),
        ensures
            final(self).wf(),
            final(self).cfg() == old(self).cfg(),
            final(self).queued() == old(self).queued(),
            final(self).in_flight_msgs() == old(self).in_flight_msgs(),
            final(self).base() == old(self).base(),
            final(self).sent_log() == old(self).sent_log(),
            final(self).seen() == old(self).seen(),
            final(self).got() == old(self).got(),
            final(self).deliver_next() >= old(self).deliver_next(),
            final(self).delivered_log().take(old(self).delivered_log().len() as int)
                == old(self).delivered_log(),
            final(self).ready_msgs() == old(self).ready_msgs() + final(self).delivered_log().skip(
                old(self).delivered_log().len() as int,
            ),
    {
        proof {
            assert(self.delivered_history@.take(self.delivered_history@.len() as int)
                =~~= self.delivered_history@);
            assert(self.delivered_history@.skip(self.delivered_history@.len() as int)
                =~~= Seq::<Seq<u8>>::empty());
            assert(self.ready.deep_view() =~~= old(self).ready.deep_view()
                + self.delivered_history@.skip(old(self).delivered_history@.len() as int));
        }
        loop
            invariant_except_break
                old(self).out_wf(),
                old(self).rx_wf_core(),
                old(self).is_reliable(),
                self.out_wf(),
                self.rx_wf_core(),
                self.is_reliable(),
                self.settings == old(self).settings,
                self.send_queue == old(self).send_queue,
                self.base_seq == old(self).base_seq,
                self.in_flight == old(self).in_flight,
                self.sent_history == old(self).sent_history,
                self.seen_messages == old(self).seen_messages,
                self.got_map == old(self).got_map,
                self.next_deliver >= old(self).next_deliver,
                self.delivered_history@.take(old(self).delivered_history@.len() as int)
                    == old(self).delivered_history@,
                self.ready.deep_view() == old(self).ready.deep_view()
                    + self.delivered_history@.skip(old(self).delivered_history@.len() as int),
            ensures
                self.out_wf(),
                self.rx_wf_core(),
                self.rx_drained(),
                self.is_reliable(),
                self.settings == old(self).settings,
                self.send_queue == old(self).send_queue,
                self.base_seq == old(self).base_seq,
                self.in_flight == old(self).in_flight,
                self.sent_history == old(self).sent_history,
                self.seen_messages == old(self).seen_messages,
                self.got_map == old(self).got_map,
                self.next_deliver >= old(self).next_deliver,
                self.delivered_history@.take(old(self).delivered_history@.len() as int)
                    == old(self).delivered_history@,
                self.ready.deep_view() == old(self).ready.deep_view()
                    + self.delivered_history@.skip(old(self).delivered_history@.len() as int),
            decreases self.reorder@.len(),
        {
            match self.find_due() {
                None => {
                    proof {
                        assert forall|k: int|
                            0 <= k < self.reorder@.len() implies (#[trigger] self.reorder@[k]).0
                            > self.next_deliver by {
                            assert(self.reorder@[k].0 >= self.next_deliver);
                            assert(self.reorder@[k].0 != self.deliver_next());
                        }
                    }
                    break;
                },
                Some(idx) => {
                    let ghost pre = *self;
                    let entry = self.reorder.remove(idx);
                    let s = entry.0;
                    let m = entry.1;
                    let ghost mv = m.deep_view();
                    self.ready.push(m);
                    // a held-back number is always below the end of the
                    // sequence space, so this cannot overflow
                    self.next_deliver = self.next_deliver + 1;
                    proof {
                        self.delivered_history@ = self.delivered_history@.push(mv);
                        let old_len = old(self).delivered_history@.len() as int;
                        assert(self.delivered_history@ == pre.delivered_history@.push(mv));
                        assert(self.ready@ == pre.ready@.push(
                            pre.reorder@[idx as int].1,
                        ));
                        assert(pre.got_map@.contains_key(s as int));
                        assert(pre.got_map@[s as int] == mv);
                        // delivery extends, never rewrites
                        assert(pre.delivered_history@.len() >= old_len);
                        assert(self.delivered_history@.take(old_len)
                            =~~= pre.delivered_history@.take(old_len));
                        assert(self.ready.deep_view() =~~= pre.ready.deep_view().push(mv));
                        assert(self.delivered_history@.skip(old_len)
                            =~~= pre.delivered_history@.skip(old_len).push(mv));
                        assert(self.ready.deep_view() =~~= old(self).ready.deep_view()
                            + self.delivered_history@.skip(old_len));
                        assert(self.ready.deep_view() =~~= self.delivered_history@.skip(
                            self.delivered_history@.len() - self.ready.deep_view().len(),
                        ));
                        // held-back entries keep their links after the removal
                        assert forall|t: int| #[trigger]
                            self.got_map@.contains_key(t) implies 0 <= t && (t
                            < self.next_deliver || exists|k: int|
                            0 <= k < self.reorder@.len() && (#[trigger] self.reorder@[k]).0
                                == t) by {
                            assert(pre.got_map@.contains_key(t));
                            if t >= self.next_deliver {
                                assert(t >= pre.next_deliver);
                                assert(t != s);
                                let k0 = choose|k0: int|
                                    0 <= k0 < pre.reorder@.len() && (#[trigger] pre.reorder@[k0]).0
                                        == t;
                                if k0 < idx {
                                    assert(self.reorder@[k0].0 == t);
                                } else {
                                    assert(self.reorder@[k0 - 1].0 == t);
                                }
                            }
                        }
                        assert forall|k: int|
                            0 <= k < self.reorder@.len() implies {
                            &&& (#[trigger] self.reorder@[k]).0 >= self.next_deliver
                            &&& self.reorder@[k].0 < u64::MAX
                            &&& self.got_map@.contains_key(self.reorder@[k].0 as int)
                            &&& self.got_map@[self.reorder@[k].0 as int]
                                == self.reorder@[k].1.deep_view()
                        } by {
                            if k < idx {
                                assert(pre.reorder@[k].0 != pre.reorder@[idx as int].0);
                            } else {
                                assert(pre.reorder@[k + 1].0 != pre.reorder@[idx as int].0);
                            }
                        }
                    }
                },
            }
        }
    }

    /// Take in one sequence-numbered message from the wire: deliver it if
    /// it is exactly due (and then whatever it unblocks), hold it back if
    /// it is early and there is room, drop it if it is late (a duplicate),
    /// already held, or the hold-back buffer is full. What a sequence
    /// number's body is, the first arrival decides; nothing can change it.
    fn accept_one(&mut self, s: u64, m: Vec<u8>)
        requires
            old(self).wf(),
            old(self).is_reliable(),
        ensures
            final(self).wf(),
            final(self).is_reliable(),
            final(self).cfg() == old(self).cfg(),
            final(self).queued() == old(self).queued(),
            final(self).in_flight_msgs() == old(self).in_flight_msgs(),
            final(self).base() == old(self).base(),
            final(self).sent_log() == old(self).sent_log(),
            final(self).seen() == old(self).seen(),
            forall|t: int|
                old(self).got().contains_key(t) ==> final(self).got().contains_key(t)
                    && final(self).got()[t] == old(self).got()[t],
            forall|t: int|
                final(self).got().contains_key(t) && !old(self).got().contains_key(t) ==> t
                    == s && final(self).got()[t] == m.deep_view(),
            final(self).deliver_next() >= old(self).deliver_next(),
            final(self).delivered_log().take(old(self).delivered_log().len() as int)
                == old(self).delivered_log(),
            final(self).ready_msgs() == old(self).ready_msgs() + final(self).delivered_log().skip(
                old(self).delivered_log().len() as int,
            ),
            s == old(self).deliver_next() && s < u64::MAX ==> final(self).deliver_next() >= s + 1,
    {
        proof {
            assert(self.delivered_history@.take(self.delivered_history@.len() as int)
                =~~= self.delivered_history@);
            assert(self.delivered_history@.skip(self.delivered_history@.len() as int)
                =~~= Seq::<Seq<u8>>::empty());
            assert(self.ready.deep_view() =~~= old(self).ready.deep_view()
                + self.delivered_history@.skip(old(self).delivered_history@.len() as int));
        }
        if s < self.next_deliver {
            // a duplicate of something already delivered
            return;
        }
        if s == u64::MAX {
            // the last sequence number can never be delivered (delivery
            // could not advance past it), so it is never taken in
            return;
        }
        if s == self.next_deliver {
            let ghost mv = m.deep_view();
            let ghost pre = *self;
            proof {
                // an exactly-due number was never delivered and is never
                // held back, so this is its first appearance
                assert(!self.got_map@.contains_key(s as int));
            }
            self.ready.push(m);
            self.next_deliver = self.next_deliver + 1;
            proof {
                self.got_map@ = self.got_map@.insert(s as int, mv);
                self.delivered_history@ = self.delivered_history@.push(mv);
                assert(self.delivered_history@.take(old(self).delivered_history@.len() as int)
                    =~~= old(self).delivered_history@);
                assert(self.ready.deep_view() =~~= old(self).ready.deep_view()
                    + self.delivered_history@.skip(old(self).delivered_history@.len() as int));
                assert(self.ready.deep_view() =~~= self.delivered_history@.skip(
                    self.delivered_history@.len() - self.ready.deep_view().len(),
                ));
                assert forall|t: int| #[trigger]
                    self.got_map@.contains_key(t) implies 0 <= t && (t < self.next_deliver
                    || exists|k: int|
                    0 <= k < self.reorder@.len() && (#[trigger] self.reorder@[k]).0 == t) by {
                    if t != s {
                        assert(pre.got_map@.contains_key(t));
                        if t >= self.next_deliver {
                            let k0 = choose|k0: int|
                                0 <= k0 < pre.reorder@.len() && (#[trigger] pre.reorder@[k0]).0
                                    == t;
                            assert(self.reorder@[k0].0 == t);
                        }
                    }
                }
            }
            let ghost mid = *self;
            self.drain_reorder();
            proof {
                assert(mid.delivered_history@.take(old(self).delivered_history@.len() as int)
                    == old(self).delivered_history@);
                assert(self.delivered_history@.take(old(self).delivered_history@.len() as int)
                    =~~= old(self).delivered_history@);
                assert(self.ready.deep_view() =~~= old(self).ready.deep_view()
                    + self.delivered_history@.skip(old(self).delivered_history@.len() as int));
            }
            return;
        }
        // early: hold it back unless it is already held or there is no room
        if self.reorder.len() >= self.settings.packet_buffer_size {
            return;
        }
        let n = self.reorder.len();
        for k in 0..n
            invariant
                *self == *old(self),
                old(self).wf(),
                old(self).is_reliable(),
                s > old(self).deliver_next(),
                s < u64::MAX,
                n == self.reorder@.len(),
                forall|j: int| 0 <= j < k ==> (#[trigger] self.reorder@[j]).0 != s,
        {
            if self.reorder[k].0 == s {
                return;
            }
        }
        proof {
            // never held, never delivered: a fresh key for `got`
            assert(!self.got_map@.contains_key(s as int));
        }
        let ghost mv = m.deep_view();
        let ghost pre = *self;
        self.reorder.push((s, m));
        proof {
            self.got_map@ = self.got_map@.insert(s as int, mv);
            assert(self.reorder@[self.reorder@.len() - 1].0 == s);
            assert(self.reorder@[self.reorder@.len() - 1].1.deep_view() == mv);
            assert forall|t: int| #[trigger]
                self.got_map@.contains_key(t) implies 0 <= t && (t < self.next_deliver
                || exists|k: int|
                0 <= k < self.reorder@.len() && (#[trigger] self.reorder@[k]).0 == t) by {
                if t != s && t >= self.next_deliver {
                    assert(pre.got_map@.contains_key(t));
                    let k0 = choose|k0: int|
                        0 <= k0 < pre.reorder@.len() && (#[trigger] pre.reorder@[k0]).0 == t;
                    assert(self.reorder@[k0].0 == t);
                }
            }
            assert forall|k: int|
                0 <= k < self.reorder@.len() implies {
                &&& (#[trigger] self.reorder@[k]).0 >= self.next_deliver
                &&& self.reorder@[k].0 < u64::MAX
                &&& self.got_map@.contains_key(self.reorder@[k].0 as int)
                &&& self.got_map@[self.reorder@[k].0 as int] == self.reorder@[k].1.deep_view()
            } by {
                if k < pre.reorder@.len() {
                    assert(pre.reorder@[k].0 != s);
                }
            }
        }
    }

    /// Take in the body of one reliable data packet: messages with
    /// consecutive sequence numbers starting at `first_seq`. Returns the
    /// cumulative acknowledgment the peer should be told: every sequence
    /// number below it has been delivered in order. Duplicates are dropped,
    /// so a message reaches the application at most once however often it
    /// is retransmitted; a packet that starts at or before the delivery
    /// point and reaches past it always advances delivery past its end.
    pub fn handle_reliable_data(&mut self, first_seq: u64, messages: Vec<Vec<u8>>) -> (ack: u64)
        requires
            old(self).wf(),
            old(self).is_reliable(),
        ensures
            final(self).wf(),
            final(self).is_reliable(),
            final(self).cfg() == old(self).cfg(),
            final(self).queued() == old(self).queued(),
            final(self).in_flight_msgs() == old(self).in_flight_msgs(),
            final(self).base() == old(self).base(),
            final(self).sent_log() == old(self).sent_log(),
            final(self).seen() == old(self).seen(),
            forall|t: int|
                old(self).got().contains_key(t) ==> final(self).got().contains_key(t)
                    && final(self).got()[t] == old(self).got()[t],
            forall|t: int|
                final(self).got().contains_key(t) && !old(self).got().contains_key(t) ==>
                    first_seq <= t < first_seq + messages@.len() && final(self).got()[t]
                    == messages.deep_view()[t - first_seq],
            final(self).deliver_next() >= old(self).deliver_next(),
            final(self).delivered_log().take(old(self).delivered_log().len() as int)
                == old(self).delivered_log(),
            final(self).ready_msgs() == old(self).ready_msgs() + final(self).delivered_log().skip(
                old(self).delivered_log().len() as int,
            ),
            first_seq <= old(self).deliver_next() && first_seq + messages@.len() <= u64::MAX
                ==> final(self).deliver_next() >= first_seq + messages@.len(),
            ack == final(self).deliver_next(),
    {
        let ghost all = messages.deep_view();
        let ghost entry = *old(self);
        let mut messages = messages;
        let mut k: usize = 0;
        let n0 = messages.len();
        proof {
            assert(all.len() == n0);
            assert(messages.deep_view() =~~= all.skip(0));
            assert(self.delivered_history@.take(entry.delivered_history@.len() as int)
                =~~= entry.delivered_history@);
            assert(self.delivered_history@.skip(self.delivered_history@.len() as int)
                =~~= Seq::<Seq<u8>>::empty());
            assert(self.ready.deep_view() =~~= entry.ready.deep_view()
                + self.delivered_history@.skip(entry.delivered_history@.len() as int));
        }
        while messages.len() > 0
            invariant
                entry == *old(self),
                entry.wf(),
                entry.is_reliable(),
                all.len() <= usize::MAX,
                self.wf(),
                self.is_reliable(),
                self.cfg() == entry.cfg(),
                self.queued() == entry.queued(),
                self.in_flight_msgs() == entry.in_flight_msgs(),
                self.base() == entry.base(),
                self.sent_log() == entry.sent_log(),
                self.seen() == entry.seen(),
                k + messages@.len() == all.len(),
                messages.deep_view() == all.skip(k as int),
                forall|t: int|
                    entry.got().contains_key(t) ==> self.got().contains_key(t) && self.got()[t]
                        == entry.got()[t],
                forall|t: int|
                    self.got().contains_key(t) && !entry.got().contains_key(t) ==> first_seq <= t
                        < first_seq + k && self.got()[t] == all[t - first_seq],
                self.deliver_next() >= entry.deliver_next(),
                self.delivered_log().take(entry.delivered_log().len() as int)
                    == entry.delivered_log(),
                self.ready_msgs() == entry.ready_msgs() + self.delivered_log().skip(
                    entry.delivered_log().len() as int,
                ),
                first_seq <= entry.deliver_next() && first_seq + all.len() <= u64::MAX
                    ==> self.deliver_next() >= first_seq + k,
            decreases messages@.len(),
        {
            let ghost before = *self;
            let ghost mprev = messages;
            let m = messages.remove(0);
            proof {
                lemma_deep_remove_front_pub(mprev, messages);
                lemma_skip_skip_pub(all, k as int, 1);
                assert(messages.deep_view() == all.skip(k + 1));
                assert(all.skip(k as int)[0] == all[k as int]);
                assert(m.deep_view() == all[k as int]);
            }
            if first_seq <= u64::MAX - (k as u64) {
                let s = first_seq + (k as u64);
                self.accept_one(s, m);
                proof {
                    assert(before.delivered_log().take(entry.delivered_log().len() as int)
                        == entry.delivered_log());
                    assert(self.delivered_log().take(entry.delivered_log().len() as int)
                        =~~= entry.delivered_log());
                    assert(self.ready_msgs() =~~= entry.ready_msgs() + self.delivered_log().skip(
                        entry.delivered_log().len() as int,
                    ));
                }
            }
            k = k + 1;
        }
        proof {
            assert(k == all.len());
        }
        self.next_deliver
    }

    /// Take in the body of one unreliable data packet. Every message is
    /// recorded as seen; messages are made ready in arrival order while the
    /// ready queue has room, and the newest are dropped once it is full.
    /// Nothing is ever retransmitted, reordered back, or deduplicated.
    pub fn handle_unreliable_data(&mut self, messages: Vec<Vec<u8>>)
        requires
            old(self).wf(),
            !old(self).is_reliable(),
        ensures
            final(self).wf(),
            !final(self).is_reliable(),
            final(self).cfg() == old(self).cfg(),
            final(self).queued() == old(self).queued(),
            final(self).in_flight_msgs() == old(self).in_flight_msgs(),
            final(self).base() == old(self).base(),
            final(self).sent_log() == old(self).sent_log(),
            final(self).got() == old(self).got(),
            final(self).deliver_next() == old(self).deliver_next(),
            final(self).seen() == old(self).seen() + messages.deep_view(),
            final(self).delivered_log() == old(self).delivered_log()
                + messages.deep_view().take(accepted_count(*old(self), messages.deep_view())),
            final(self).ready_msgs() == old(self).ready_msgs() + messages.deep_view().take(
                accepted_count(*old(self), messages.deep_view()),
            ),
    {
        let ghost all = messages.deep_view();
        let ghost entry = *old(self);
        let ghost room = accepted_count(entry, all);
        let mut messages = messages;
        let mut k: usize = 0;
        let n0 = messages.len();
        proof {
            assert(all.len() == n0);
            assert(messages.deep_view() =~~= all.skip(0));
            assert(self.seen() =~~= entry.seen() + all.take(0));
            assert(self.delivered_log() =~~= entry.delivered_log() + all.take(0));
            assert(self.ready_msgs() =~~= entry.ready_msgs() + all.take(0));
        }
        while messages.len() > 0
            invariant
                entry == *old(self),
                entry.wf(),
                !entry.is_reliable(),
                all.len() <= usize::MAX,
                self.wf(),
                !self.is_reliable(),
                self.cfg() == entry.cfg(),
                self.queued() == entry.queued(),
                self.in_flight_msgs() == entry.in_flight_msgs(),
                self.base() == entry.base(),
                self.sent_log() == entry.sent_log(),
                self.got() == entry.got(),
                self.deliver_next() == entry.deliver_next(),
                k + messages@.len() == all.len(),
                messages.deep_view() == all.skip(k as int),
                room == accepted_count(entry, all),
                0 <= room <= all.len(),
                entry.ready_msgs().len() + room <= entry.cfg().message_buffer_size,
                self.seen() == entry.seen() + all.take(k as int),
                self.delivered_log() == entry.delivered_log() + all.take(
                    if k as int <= room {
                        k as int
                    } else {
                        room
                    },
                ),
                self.ready_msgs() == entry.ready_msgs() + all.take(
                    if k as int <= room {
                        k as int
                    } else {
                        room
                    },
                ),
            decreases messages@.len(),
        {
            let ghost mprev = messages;
            let m = messages.remove(0);
            let ghost mv = m.deep_view();
            let ghost pre = *self;
            proof {
                lemma_deep_remove_front_pub(mprev, messages);
                lemma_skip_skip_pub(all, k as int, 1);
                assert(messages.deep_view() == all.skip(k + 1));
                assert(all.skip(k as int)[0] == all[k as int]);
                assert(mv == all[k as int]);
                self.seen_messages@ = self.seen_messages@.push(mv);
                assert(self.seen() =~~= entry.seen() + all.take(k + 1));
                assert(self.seen_messages@.take(pre.seen_messages@.len() as int)
                    =~~= pre.seen_messages@);
                lemma_rx_seen_grown(pre, *self);
            }
            if self.ready.len() < self.settings.message_buffer_size {
                let ghost pre2 = *self;
                proof {
                    // the ready queue has room exactly while the accepted
                    // prefix is still being filled
                    assert(self.ready_msgs().len() == entry.ready_msgs().len() + (
                    if k as int <= room {
                        k as int
                    } else {
                        room
                    }));
                    assert(k < room);
                }
                self.ready.push(m);
                proof {
                    self.delivered_history@ = self.delivered_history@.push(mv);
                    assert(all.take(k + 1) =~~= all.take(k as int).push(all[k as int]));
                    assert(self.ready.deep_view() =~~= pre2.ready.deep_view().push(mv));
                    assert(self.delivered_log() =~~= entry.delivered_log() + all.take(k + 1));
                    assert(self.ready_msgs() =~~= entry.ready_msgs() + all.take(k + 1));
                    assert(self.ready.deep_view() =~~= self.delivered_history@.skip(
                        self.delivered_history@.len() - self.ready.deep_view().len(),
                    ));
                    assert forall|i: int|
                        0 <= i < self.delivered_history@.len() implies self.seen_messages@.contains(
                        #[trigger] self.delivered_history@[i],
                    ) by {
                        if i < pre2.delivered_history@.len() {
                            assert(pre2.seen_messages@.contains(pre2.delivered_history@[i]));
                            let w = choose|w: int|
                                0 <= w < pre2.seen_messages@.len() && pre2.seen_messages@[w]
                                    == pre2.delivered_history@[i];
                            assert(self.seen_messages@[w] == self.delivered_history@[i]);
                        } else {
                            assert(self.delivered_history@[i] == mv);
                            assert(self.seen_messages@[self.seen_messages@.len() - 1] == mv);
                        }
                    }
                    assert forall|t: int| #[trigger]
                        self.got_map@.contains_key(t) implies 0 <= t && (t < self.next_deliver
                        || exists|kk: int|
                        0 <= kk < self.reorder@.len() && (#[trigger] self.reorder@[kk]).0
                            == t) by {
                        assert(pre2.got_map@.contains_key(t));
                    }
                }
            } else {
                proof {
                    assert(self.ready_msgs().len() == entry.ready_msgs().len() + (
                    if k as int <= room {
                        k as int
                    } else {
                        room
                    }));
                    assert(k >= room);
                    assert(all.take(if k + 1 <= room {
                        k + 1
                    } else {
                        room
                    }) =~~= all.take(if k as int <= room {
                        k as int
                    } else {
                        room
                    }));
                }
            }
            k = k + 1;
        }
        proof {
            assert(k == all.len());
            assert(all.take(k as int) =~~= all);
            assert(all.take(if k as int <= room {
                k as int
            } else {
                room
            }) =~~= all.take(room));
        }
    }

    /// Take in a cumulative acknowledgment from the peer: every sequence
    /// number below it (clamped to what was actually put on the wire) is
    /// settled, and the messages it covers leave the in-flight window,
    /// freeing send-window budget.
    pub fn handle_ack(&mut self, ack_next: u64)
        requires
            old(self).wf(),
            old(self).is_reliable(),
        ensures
            final(self).wf(),
            final(self).is_reliable(),
            final(self).cfg() == old(self).cfg(),
            final(self).queued() == old(self).queued(),
            final(self).sent_log() == old(self).sent_log(),
            final(self).seen() == old(self).seen(),
            final(self).got() == old(self).got(),
            final(self).deliver_next() == old(self).deliver_next(),
            final(self).ready_msgs() == old(self).ready_msgs(),
            final(self).delivered_log() == old(self).delivered_log(),
            final(self).base() == clamped_ack(*old(self), ack_next),
            final(self).in_flight_msgs() == old(self).in_flight_msgs().skip(
                clamped_ack(*old(self), ack_next) - old(self).base(),
            ),
    {
        let len_u64 = self.in_flight.len() as u64;
        let next = self.base_seq + len_u64;
        let a = if ack_next < self.base_seq {
            self.base_seq
        } else if ack_next > next {
            next
        } else {
            ack_next
        };
        let mut dropped: u64 = 0;
        let total = a - self.base_seq;
        proof {
            assert(self.in_flight.deep_view() =~~= old(self).in_flight.deep_view().skip(0));
        }
        while dropped < total
            invariant
                total == clamped_ack(*old(self), ack_next) - old(self).base(),
                0 <= dropped <= total,
                total <= old(self).in_flight.deep_view().len(),
                old(self).wf(),
                old(self).is_reliable(),
                self.settings == old(self).settings,
                self.send_queue == old(self).send_queue,
                self.sent_history == old(self).sent_history,
                self.seen_messages == old(self).seen_messages,
                self.got_map == old(self).got_map,
                self.next_deliver == old(self).next_deliver,
                self.ready == old(self).ready,
                self.delivered_history == old(self).delivered_history,
                self.reorder == old(self).reorder,
                self.base_seq == old(self).base_seq + dropped,
                self.in_flight.deep_view() == old(self).in_flight.deep_view().skip(
                    dropped as int,
                ),
            decreases total - dropped,
        {
            let ghost fprev = self.in_flight;
            let ghost d0 = dropped;
            proof {
                assert(self.in_flight.deep_view().len() == old(self).in_flight.deep_view().len()
                    - dropped);
            }
            let _ = self.in_flight.remove(0);
            self.base_seq = self.base_seq + 1;
            dropped = dropped + 1;
            proof {
                lemma_deep_remove_front_pub(fprev, self.in_flight);
                lemma_skip_skip_pub(old(self).in_flight.deep_view(), d0 as int, 1);
                assert(self.in_flight.deep_view() == old(self).in_flight.deep_view().skip(
                    dropped as int,
                ));
            }
        }
        proof {
            let pre = *old(self);
            assert(self.in_flight.deep_view() == pre.in_flight.deep_view().skip(
                clamped_ack(pre, ack_next) - pre.base(),
            ));
            // dropping a prefix can only lower the in-flight byte cost
            lemma_wire_cost_split(pre.in_flight.deep_view(), clamped_ack(pre, ack_next)
                - pre.base());
            lemma_wire_cost_nonneg(pre.in_flight.deep_view().take(clamped_ack(pre, ack_next)
                - pre.base()));
            lemma_rx_transfer(pre, *self);
        }
    }


    /// The channel's wire tag.
    pub fn settings_channel(&self) -> (id: u8)
        ensures
            id == self.cfg().channel,
    {
        self.settings.channel
    }

    /// Whether the channel is configured reliable.
    pub fn mode_is_reliable(&self) -> (r: bool)
        ensures
            r == self.is_reliable(),
    {
        match self.settings.channel_mode {
            MessageChannelMode::Reliable { .. } => true,
            MessageChannelMode::Unreliable => false,
        }
    }

    /// The bytes the current in-flight window costs on the wire.
    fn current_wire_cost(&self) -> (c: u64)
        requires
            self.wf(),
            self.is_reliable(),
        ensures
            c == wire_cost(self.in_flight_msgs()),
    {
        let ghost all = self.in_flight.deep_view();
        let mut acc: u64 = 0;
        let n = self.in_flight.len();
        proof {
            assert(all.take(0) =~~= Seq::<Seq<u8>>::empty());
        }
        for i in 0..n
            invariant
                self.wf(),
                self.is_reliable(),
                all == self.in_flight.deep_view(),
                n == self.in_flight@.len(),
                acc == wire_cost(all.take(i as int)),
                wire_cost(all) <= self.send_window_budget(),
                self.send_window_budget() <= u32::MAX,
        {
            proof {
                lemma_wire_cost_push(all.take(i as int), all[i as int]);
                assert(all.take(i as int).push(all[i as int]) =~~= all.take(i + 1));
                lemma_wire_cost_split(all, i + 1);
                lemma_wire_cost_nonneg(all.skip(i + 1));
                assert(wire_cost(all.take(i + 1)) <= wire_cost(all));
            }
            acc = acc + 2 + (self.in_flight[i].len() as u64);
        }
        proof {
            assert(all.take(n as int) =~~= all);
        }
        acc
    }

    /// Drain every enqueued message into framed packets and hand them out.
    ///
    /// In reliable mode, queued messages first join the in-flight window as
    /// far as the send-window byte budget allows, and then the whole
    /// window, old and new alike, is framed again: everything still
    /// unacknowledged is retransmitted on every flush until its cumulative
    /// acknowledgment arrives. In unreliable mode the queue is framed once
    /// and forgotten. Either way the messages are coalesced greedily, as
    /// many per packet as fit.
    pub fn flush(&mut self, out: &mut Vec<Vec<u8>>)
        requires
            old(self).wf(),
        ensures
            final(self).wf(),
            final(self).cfg() == old(self).cfg(),
            final(self).sent_log() == old(self).sent_log(),
            final(self).base() == old(self).base(),
            final(self).deliver_next() == old(self).deliver_next(),
            final(self).ready_msgs() == old(self).ready_msgs(),
            final(self).delivered_log() == old(self).delivered_log(),
            final(self).got() == old(self).got(),
            final(self).seen() == old(self).seen(),
            old(self).is_reliable() ==> {
                let mc = movable_count(
                    old(self).queued(),
                    old(self).send_window_budget() - wire_cost(old(self).in_flight_msgs()),
                );
                &&& final(self).in_flight_msgs() == old(self).in_flight_msgs() + old(self).queued().take(mc)
                &&& final(self).queued() == old(self).queued().skip(mc)
                &&& final(out).deep_view() == old(out).deep_view() + rel_frames_enc(
                    final(self).in_flight_msgs(),
                    old(self).base() as int,
                    old(self).cfg().channel,
                )
            },
            !old(self).is_reliable() ==> {
                &&& final(self).queued() == Seq::<Seq<u8>>::empty()
                &&& final(self).in_flight_msgs() == old(self).in_flight_msgs()
                &&& final(out).deep_view() == old(out).deep_view() + unrel_frames_enc(
                    old(self).queued(),
                    old(self).cfg().channel,
                )
            },
    {
        let chan = self.settings.channel;
        let is_rel = match self.settings.channel_mode {
            MessageChannelMode::Reliable { .. } => true,
            MessageChannelMode::Unreliable => false,
        };
        if is_rel {
            let window: u64 = match self.settings.channel_mode {
                MessageChannelMode::Reliable { settings, .. } => settings.send_window as u64,
                MessageChannelMode::Unreliable => 0,
            };
            let ghost q0 = self.send_queue.deep_view();
            let ghost if0 = self.in_flight.deep_view();
            let ghost budget0 = old(self).send_window_budget() - wire_cost(if0);
            let mut cost: u64 = self.current_wire_cost();
            let mut moved: usize = 0;
            proof {
                assert(if0 + q0.take(0) =~~= if0);
                assert(q0.skip(0) =~~= q0);
                lemma_wire_cost_nonneg(if0);
            }
            loop
                invariant_except_break
                    old(self).wf(),
                    old(self).is_reliable(),
                    q0 == old(self).queued(),
                    if0 == old(self).in_flight_msgs(),
                    budget0 == old(self).send_window_budget() - wire_cost(if0),
                    window == old(self).send_window_budget(),
                    chan == old(self).cfg().channel,
                    self.wf(),
                    self.is_reliable(),
                    self.cfg() == old(self).cfg(),
                    self.sent_history == old(self).sent_history,
                    self.base_seq == old(self).base_seq,
                    self.next_deliver == old(self).next_deliver,
                    self.ready == old(self).ready,
                    self.delivered_history == old(self).delivered_history,
                    self.got_map == old(self).got_map,
                    self.seen_messages == old(self).seen_messages,
                    self.reorder == old(self).reorder,
                    moved <= q0.len(),
                    self.in_flight.deep_view() == if0 + q0.take(moved as int),
                    self.send_queue.deep_view() == q0.skip(moved as int),
                    cost == wire_cost(self.in_flight.deep_view()),
                    cost <= window,
                    movable_count(q0, budget0) == moved + movable_count(
                        q0.skip(moved as int),
                        window - cost,
                    ),
                ensures
                    old(self).wf(),
                    old(self).is_reliable(),
                    q0 == old(self).queued(),
                    if0 == old(self).in_flight_msgs(),
                    budget0 == old(self).send_window_budget() - wire_cost(if0),
                    window == old(self).send_window_budget(),
                    chan == old(self).cfg().channel,
                    self.wf(),
                    self.is_reliable(),
                    self.cfg() == old(self).cfg(),
                    self.sent_history == old(self).sent_history,
                    self.base_seq == old(self).base_seq,
                    self.next_deliver == old(self).next_deliver,
                    self.ready == old(self).ready,
                    self.delivered_history == old(self).delivered_history,
                    self.got_map == old(self).got_map,
                    self.seen_messages == old(self).seen_messages,
                    self.reorder == old(self).reorder,
                    self.in_flight.deep_view() == if0 + q0.take(movable_count(q0, budget0)),
                    self.send_queue.deep_view() == q0.skip(movable_count(q0, budget0)),
                decreases self.send_queue@.len(),
            {
                if self.send_queue.len() == 0 {
                    proof {
                        assert(self.send_queue.deep_view().len() == 0);
                        assert(movable_count(q0.skip(moved as int), window - cost) == 0);
                    }
                    break;
                }
                let head_len = self.send_queue[0].len();
                if !(2 + (head_len as u64) <= window - cost) {
                    proof {
                        assert(q0.skip(moved as int)[0] == self.send_queue.deep_view()[0]);
                        assert(2 + q0.skip(moved as int)[0].len() > window - cost);
                        assert(movable_count(q0.skip(moved as int), window - cost) == 0);
                    }
                    break;
                }
                let ghost qprev = self.send_queue;
                let m = self.send_queue.remove(0);
                let ghost mv = m.deep_view();
                self.in_flight.push(m);
                cost = cost + 2 + (head_len as u64);
                moved = moved + 1;
                proof {
                    lemma_deep_remove_front_pub(qprev, self.send_queue);
                    lemma_skip_skip_pub(q0, moved - 1, 1);
                    assert(self.send_queue.deep_view() == q0.skip(moved as int));
                    assert(mv == q0[moved - 1]);
                    assert(self.in_flight.deep_view() =~~= (if0 + q0.take(moved - 1)).push(mv));
                    assert((if0 + q0.take(moved - 1)).push(mv) =~~= if0 + q0.take(
                        moved as int,
                    ));
                    lemma_wire_cost_push(if0 + q0.take(moved - 1), mv);
                    assert(q0.skip(moved - 1)[0] == mv);
                    lemma_rx_transfer(*old(self), *self);
                }
            }
            let base = self.base_seq;
            proof {
                lemma_movable_count_bound(q0, budget0);
                assert(self.base_seq + self.in_flight@.len() <= u64::MAX);
            }
            emit_reliable_frames(chan, base, &self.in_flight, out);
        } else {
            emit_unreliable_frames(chan, &self.send_queue, out);
            let ghost pre = *self;
            self.send_queue.clear();
            proof {
                assert(self.send_queue.deep_view() =~~= Seq::<Seq<u8>>::empty());
                lemma_rx_transfer(pre, *self);
            }
        }
    }
}

/// How many of `incoming` an unreliable channel in state `c` makes ready:
/// as many as fit in the ready queue's remaining room.
pub open spec fn accepted_count(c: Channel, incoming: Seq<Seq<u8>>) -> int {
    let room = c.cfg().message_buffer_size - c.ready_msgs().len();
    if incoming.len() <= room {
        incoming.len() as int
    } else {
        room
    }
}

/// The cumulative acknowledgment `ack_next`, clamped to the range of
/// sequence numbers channel `c` has actually put on the wire.
pub open spec fn clamped_ack(c: Channel, ack_next: u64) -> int {
    if ack_next < c.base() {
        c.base() as int
    } else if ack_next > c.next_seq() {
        c.next_seq()
    } else {
        ack_next as int
    }
}

/// The inbound invariant only reads the receive-side fields, the mode and
/// the capacities: a change confined to the outbound side cannot break it.
proof fn lemma_rx_transfer(a: Channel, b: Channel)
    requires
        a.rx_wf_core(),
        a.rx_drained(),
        b.settings == a.settings,
        b.next_deliver == a.next_deliver,
        b.got_map == a.got_map,
        b.reorder == a.reorder,
        b.delivered_history == a.delivered_history,
        b.ready == a.ready,
        b.seen_messages == a.seen_messages,
        b.cfg().channel_mode is Unreliable ==> b.base_seq == a.base_seq && b.in_flight
            == a.in_flight,
    ensures
        b.rx_wf_core(),
        b.rx_drained(),
{
    assert forall|s: int| #[trigger]
        b.got_map@.contains_key(s) implies 0 <= s && (s < b.next_deliver || exists|k: int|
        0 <= k < b.reorder@.len() && (#[trigger] b.reorder@[k]).0 == s) by {
        assert(a.got_map@.contains_key(s));
        if s >= a.next_deliver {
            let k0 = choose|k0: int|
                0 <= k0 < a.reorder@.len() && (#[trigger] a.reorder@[k0]).0 == s;
            assert(b.reorder@[k0].0 == s);
        }
    }
    assert forall|i: int|
        b.cfg().channel_mode is Unreliable && 0 <= i < b.delivered_history@.len()
        implies b.seen_messages@.contains(#[trigger] b.delivered_history@[i]) by {
        assert(a.seen_messages@.contains(a.delivered_history@[i]));
        let w = choose|w: int|
            0 <= w < a.seen_messages@.len() && a.seen_messages@[w] == a.delivered_history@[i];
        assert(b.seen_messages@[w] == b.delivered_history@[i]);
    }
}

/// Consuming or extending the ready queue keeps the inbound invariant as
/// long as the queue remains the right suffix of the delivered history and
/// does not grow past its capacity.
proof fn lemma_rx_transfer_new_ready(a: Channel, b: Channel)
    requires
        a.rx_wf_core(),
        a.rx_drained(),
        b.settings == a.settings,
        b.base_seq == a.base_seq,
        b.in_flight == a.in_flight,
        b.next_deliver == a.next_deliver,
        b.got_map == a.got_map,
        b.reorder == a.reorder,
        b.delivered_history == a.delivered_history,
        b.seen_messages == a.seen_messages,
        b.ready@.len() <= a.ready@.len(),
        b.ready.deep_view().len() <= b.delivered_history@.len(),
        b.ready.deep_view() == b.delivered_history@.skip(
            b.delivered_history@.len() - b.ready.deep_view().len(),
        ),
    ensures
        b.rx_wf_core(),
        b.rx_drained(),
{
    assert forall|s: int| #[trigger]
        b.got_map@.contains_key(s) implies 0 <= s && (s < b.next_deliver || exists|k: int|
        0 <= k < b.reorder@.len() && (#[trigger] b.reorder@[k]).0 == s) by {
        assert(a.got_map@.contains_key(s));
        if s >= a.next_deliver {
            let k0 = choose|k0: int|
                0 <= k0 < a.reorder@.len() && (#[trigger] a.reorder@[k0]).0 == s;
            assert(b.reorder@[k0].0 == s);
        }
    }
    assert forall|i: int|
        b.cfg().channel_mode is Unreliable && 0 <= i < b.delivered_history@.len()
        implies b.seen_messages@.contains(#[trigger] b.delivered_history@[i]) by {
        assert(a.seen_messages@.contains(a.delivered_history@[i]));
        let w = choose|w: int|
            0 <= w < a.seen_messages@.len() && a.seen_messages@[w] == a.delivered_history@[i];
        assert(b.seen_messages@[w] == b.delivered_history@[i]);
    }
}

/// Recording one more wire arrival in `seen` cannot break the inbound
/// invariant: membership only grows.
proof fn lemma_rx_seen_grown(a: Channel, b: Channel)
    requires
        a.rx_wf_core(),
        a.rx_drained(),
        b.settings == a.settings,
        b.base_seq == a.base_seq,
        b.in_flight == a.in_flight,
        b.next_deliver == a.next_deliver,
        b.got_map == a.got_map,
        b.reorder == a.reorder,
        b.delivered_history == a.delivered_history,
        b.ready == a.ready,
        b.seen_messages@.len() >= a.seen_messages@.len(),
        b.seen_messages@.take(a.seen_messages@.len() as int) == a.seen_messages@,
    ensures
        b.rx_wf_core(),
        b.rx_drained(),
{
    assert forall|s: int| #[trigger]
        b.got_map@.contains_key(s) implies 0 <= s && (s < b.next_deliver || exists|k: int|
        0 <= k < b.reorder@.len() && (#[trigger] b.reorder@[k]).0 == s) by {
        assert(a.got_map@.contains_key(s));
        if s >= a.next_deliver {
            let k0 = choose|k0: int|
                0 <= k0 < a.reorder@.len() && (#[trigger] a.reorder@[k0]).0 == s;
            assert(b.reorder@[k0].0 == s);
        }
    }
    assert forall|i: int|
        b.cfg().channel_mode is Unreliable && 0 <= i < b.delivered_history@.len()
        implies b.seen_messages@.contains(#[trigger] b.delivered_history@[i]) by {
        assert(a.seen_messages@.contains(a.delivered_history@[i]));
        let w = choose|w: int|
            0 <= w < a.seen_messages@.len() && a.seen_messages@[w] == a.delivered_history@[i];
        assert(b.seen_messages@.take(a.seen_messages@.len() as int)[w] == a.seen_messages@[w]);
        assert(b.seen_messages@[w] == b.delivered_history@[i]);
    }
}

/// Bytes a run of messages costs inside data packets: each message carries
/// a two-byte length prefix besides its body.
pub open spec fn wire_cost(msgs: Seq<Seq<u8>>) -> int
    decreases msgs.len(),
{
    if msgs.len() == 0 {
        0
    } else {
        2 + msgs[0].len() + wire_cost(msgs.skip(1))
    }
}

/// A wire cost is never negative.
pub proof fn lemma_wire_cost_nonneg(msgs: Seq<Seq<u8>>)
    ensures
        wire_cost(msgs) >= 0,
    decreases msgs.len(),
{
    if msgs.len() > 0 {
        lemma_wire_cost_nonneg(msgs.skip(1));
    }
}

/// A run's wire cost splits at any point.
pub proof fn lemma_wire_cost_split(msgs: Seq<Seq<u8>>, n: int)
    requires
        0 <= n <= msgs.len(),
    ensures
        wire_cost(msgs) == wire_cost(msgs.take(n)) + wire_cost(msgs.skip(n)),
    decreases n,
{
    if n == 0 {
        assert(msgs.take(0) =~~= Seq::<Seq<u8>>::empty());
        assert(msgs.skip(0) =~~= msgs);
    } else {
        assert(msgs.take(n)[0] == msgs[0]);
        assert(msgs.take(n).skip(1) =~~= msgs.skip(1).take(n - 1));
        assert(msgs.skip(1).skip(n - 1) =~~= msgs.skip(n));
        lemma_wire_cost_split(msgs.skip(1), n - 1);
    }
}

/// Appending a message adds its wire cost.
pub proof fn lemma_wire_cost_push(msgs: Seq<Seq<u8>>, m: Seq<u8>)
    ensures
        wire_cost(msgs.push(m)) == wire_cost(msgs) + 2 + m.len(),
    decreases msgs.len(),
{
    if msgs.len() == 0 {
        assert(msgs.push(m).skip(1) =~~= msgs);
    } else {
        assert(msgs.push(m)[0] == msgs[0]);
        assert(msgs.push(m).skip(1) =~~= msgs.skip(1).push(m));
        lemma_wire_cost_push(msgs.skip(1), m);
    }
}

/// The wire cost of a run is exactly the length of its encoded message
/// block.
pub proof fn lemma_wire_cost_is_encoded_len(msgs: Seq<Seq<u8>>)
    ensures
        wire_cost(msgs) == spec_messages_encoded_len(msgs),
    decreases msgs.len(),
{
    if msgs.len() > 0 {
        lemma_wire_cost_is_encoded_len(msgs.skip(1));
    }
}

/// How many queued messages fit in `budget` further bytes of in-flight
/// window, taken greedily from the front.
pub open spec fn movable_count(q: Seq<Seq<u8>>, budget: int) -> int
    decreases q.len(),
{
    if q.len() == 0 {
        0
    } else if 2 + q[0].len() <= budget {
        1 + movable_count(q.skip(1), budget - 2 - q[0].len())
    } else {
        0
    }
}

/// The movable prefix is never longer than the queue.
pub proof fn lemma_movable_count_bound(q: Seq<Seq<u8>>, budget: int)
    ensures
        0 <= movable_count(q, budget) <= q.len(),
    decreases q.len(),
{
    if q.len() > 0 && 2 + q[0].len() <= budget {
        lemma_movable_count_bound(q.skip(1), budget - 2 - q[0].len());
    }
}

/// How many messages fit in one data packet's remaining `space` bytes,
/// taken greedily from the front.
pub open spec fn pack_count(msgs: Seq<Seq<u8>>, space: int) -> int
    decreases msgs.len(),
{
    if msgs.len() == 0 {
        0
    } else if 2 + msgs[0].len() <= space {
        1 + pack_count(msgs.skip(1), space - 2 - msgs[0].len())
    } else {
        0
    }
}

/// The packed prefix is never longer than the run, and what it packs fits
/// in the space it was given.
pub proof fn lemma_pack_count_fits(msgs: Seq<Seq<u8>>, space: int)
    ensures
        0 <= pack_count(msgs, space) <= msgs.len(),
        wire_cost(msgs.take(pack_count(msgs, space))) <= if space >= 0 {
            space
        } else {
            0
        },
    decreases msgs.len(),
{
    let c = pack_count(msgs, space);
    if msgs.len() == 0 || 2 + msgs[0].len() > space {
        assert(msgs.take(0) =~~= Seq::<Seq<u8>>::empty());
    } else {
        lemma_pack_count_fits(msgs.skip(1), space - 2 - msgs[0].len());
        assert(msgs.take(c)[0] == msgs[0]);
        assert(msgs.take(c).skip(1) =~~= msgs.skip(1).take(c - 1));
    }
}

/// The number of messages the head data packet of a run carries: at least
/// one, so that framing always makes progress.
pub open spec fn head_pack(msgs: Seq<Seq<u8>>, space: int) -> int {
    let c = pack_count(msgs, space);
    if c < 1 {
        1
    } else {
        c
    }
}

/// The encoded reliable data packets that carry the run `msgs`, whose
/// first message bears sequence number `first`, on channel `chan`: greedy
/// coalescing under the packet size.
pub open spec fn rel_frames_enc(msgs: Seq<Seq<u8>>, first: int, chan: u8) -> Seq<Seq<u8>>
    decreases msgs.len(),
{
    if msgs.len() == 0 {
        Seq::<Seq<u8>>::empty()
    } else {
        let c = head_pack(msgs, MAX_PACKET_LEN - RELIABLE_HEADER_LEN);
        seq![
            spec_encode_frame(
                FrameModel::ReliableData {
                    channel: chan,
                    first_seq: first as u64,
                    messages: msgs.take(if c <= msgs.len() {
                        c
                    } else {
                        msgs.len() as int
                    }),
                },
            ),
        ] + rel_frames_enc(
            msgs.skip(if c <= msgs.len() {
                c
            } else {
                msgs.len() as int
            }),
            first + if c <= msgs.len() {
                c
            } else {
                msgs.len() as int
            },
            chan,
        )
    }
}

/// The encoded unreliable data packets that carry the run `msgs` on
/// channel `chan`: greedy coalescing under the packet size.
pub open spec fn unrel_frames_enc(msgs: Seq<Seq<u8>>, chan: u8) -> Seq<Seq<u8>>
    decreases msgs.len(),
{
    if msgs.len() == 0 {
        Seq::<Seq<u8>>::empty()
    } else {
        let c = head_pack(msgs, MAX_PACKET_LEN - UNRELIABLE_HEADER_LEN);
        seq![
            spec_encode_frame(
                FrameModel::UnreliableData {
                    channel: chan,
                    messages: msgs.take(if c <= msgs.len() {
                        c
                    } else {
                        msgs.len() as int
                    }),
                },
            ),
        ] + unrel_frames_enc(
            msgs.skip(if c <= msgs.len() {
                c
            } else {
                msgs.len() as int
            }),
            chan,
        )
    }
}

/// Frame a run of reliable messages into encoded data packets, coalescing
/// greedily, the first message bearing sequence number `first_seq`.
fn emit_reliable_frames(chan: u8, first_seq: u64, msgs: &Vec<Vec<u8>>, out: &mut Vec<Vec<u8>>)
    requires
        forall|i: int|
            0 <= i < msgs.deep_view().len() ==> (#[trigger] msgs.deep_view()[i]).len()
                <= MAX_MESSAGE_LEN,
        first_seq + msgs.deep_view().len() <= u64::MAX,
    ensures
        final(out).deep_view() == old(out).deep_view() + rel_frames_enc(
            msgs.deep_view(),
            first_seq as int,
            chan,
        ),
{
    let ghost all = msgs.deep_view();
    let ghost out0 = old(out).deep_view();
    let n = msgs.len();
    let mut start: usize = 0;
    proof {
        assert(all.skip(0) =~~= all);
        assert(out.deep_view().take(out0.len() as int) =~~= out0);
        assert(out.deep_view().skip(out0.len() as int) =~~= Seq::<Seq<u8>>::empty());
    }
    while start < n
        invariant
            all == msgs.deep_view(),
            n == msgs@.len(),
            0 <= start <= n,
            forall|i: int|
                0 <= i < all.len() ==> (#[trigger] all[i]).len() <= MAX_MESSAGE_LEN,
            first_seq + all.len() <= u64::MAX,
            out.deep_view().len() >= out0.len(),
            out.deep_view().take(out0.len() as int) == out0,
            rel_frames_enc(all, first_seq as int, chan) == out.deep_view().skip(
                out0.len() as int,
            ) + rel_frames_enc(all.skip(start as int), first_seq + start, chan),
        decreases n - start,
    {
        let ghost rem = all.skip(start as int);
        let mut batch: Vec<Vec<u8>> = Vec::new();
        let mut space: usize = MAX_PACKET_LEN - RELIABLE_HEADER_LEN;
        let mut i = start;
        proof {
            assert(rem.take(0) =~~= Seq::<Seq<u8>>::empty());
            assert(rem.skip(0) =~~= rem);
            assert(batch.deep_view() =~~= rem.take(0));
            lemma_encode_messages_len(batch.deep_view());
        }
        while i < n && 2 + msgs[i].len() <= space
            invariant
                all == msgs.deep_view(),
                n == msgs@.len(),
                rem == all.skip(start as int),
                0 <= start <= i <= n,
                forall|ii: int|
                    0 <= ii < all.len() ==> (#[trigger] all[ii]).len() <= MAX_MESSAGE_LEN,
                batch.deep_view() == rem.take(i - start),
                space == MAX_PACKET_LEN - RELIABLE_HEADER_LEN - spec_messages_encoded_len(
                    batch.deep_view(),
                ),
                pack_count(rem, MAX_PACKET_LEN - RELIABLE_HEADER_LEN) == (i - start)
                    + pack_count(rem.skip(i - start), space as int),
            decreases n - i,
        {
            let m = slice_to_vec(msgs[i].as_slice());
            let ghost bprev = batch.deep_view();
            batch.push(m);
            proof {
                assert(all[i as int] == rem[i - start]);
                assert(batch.deep_view() =~~= bprev.push(all[i as int]));
                assert(bprev.push(all[i as int]) =~~= rem.take(i + 1 - start));
                lemma_encode_messages_push(bprev, all[i as int]);
                assert(rem.skip(i - start)[0] == rem[i - start]);
                lemma_skip_skip_pub(rem, i - start, 1);
            }
            space = space - 2 - msgs[i].len();
            i = i + 1;
        }
        proof {
            if i < n {
                assert(rem.skip(i - start)[0] == all[i as int]);
                assert(pack_count(rem.skip(i - start), space as int) == 0);
            } else {
                assert(rem.skip(i - start).len() == 0);
                assert(pack_count(rem.skip(i - start), space as int) == 0);
            }
            assert(pack_count(rem, MAX_PACKET_LEN - RELIABLE_HEADER_LEN) == i - start);
            // the first message always fits, so the head packet is nonempty
            if i == start {
                assert(rem[0] == all[start as int]);
                assert(2 + rem[0].len() <= MAX_PACKET_LEN - RELIABLE_HEADER_LEN);
                assert(false);
            }
            assert(head_pack(rem, MAX_PACKET_LEN - RELIABLE_HEADER_LEN) == i - start);
        }
        let frame = Frame::ReliableData {
            channel: chan,
            first_seq: first_seq + (start as u64),
            messages: batch,
        };
        proof {
            let fm = frame@;
            assert(fm->ReliableData_messages == rem.take(i - start));
            assert(spec_messages_wf(rem.take(i - start)));
            lemma_encode_messages_len(rem.take(i - start));
            vstd::bytes::lemma_auto_spec_u64_to_from_le_bytes();
            assert(spec_encode_frame(fm).len() == 10 + spec_messages_encoded_len(rem.take(
                i - start,
            )));
            assert(spec_frame_encodable(fm));
        }
        let bytes = encode_frame(&frame);
        let ghost oprev = out.deep_view();
        out.push(bytes);
        proof {
            assert(out.deep_view() =~~= oprev.push(bytes@));
            assert(out.deep_view().take(out0.len() as int) =~~= out0);
            assert(out.deep_view().skip(out0.len() as int) =~~= oprev.skip(
                out0.len() as int,
            ).push(bytes@));
            lemma_skip_skip_pub(all, start as int, i - start);
            // unfold one step of the packing spec
            assert(rel_frames_enc(rem, first_seq + start, chan) == seq![bytes@]
                + rel_frames_enc(all.skip(i as int), first_seq + i, chan));
            assert(rel_frames_enc(all, first_seq as int, chan) =~~= out.deep_view().skip(
                out0.len() as int,
            ) + rel_frames_enc(all.skip(i as int), first_seq + i, chan));
        }
        start = i;
    }
    proof {
        assert(all.skip(start as int).len() == 0);
        assert(rel_frames_enc(all.skip(start as int), first_seq + start, chan)
            =~~= Seq::<Seq<u8>>::empty());
        assert(final(out).deep_view() =~~= out0 + rel_frames_enc(all, first_seq as int, chan));
    }
}

/// Frame a run of unreliable messages into encoded data packets,
/// coalescing greedily.
fn emit_unreliable_frames(chan: u8, msgs: &Vec<Vec<u8>>, out: &mut Vec<Vec<u8>>)
    requires
        forall|i: int|
            0 <= i < msgs.deep_view().len() ==> (#[trigger] msgs.deep_view()[i]).len()
                <= MAX_MESSAGE_LEN,
    ensures
        final(out).deep_view() == old(out).deep_view() + unrel_frames_enc(
            msgs.deep_view(),
            chan,
        ),
{
    let ghost all = msgs.deep_view();
    let ghost out0 = old(out).deep_view();
    let n = msgs.len();
    let mut start: usize = 0;
    proof {
        assert(all.skip(0) =~~= all);
        assert(out.deep_view().take(out0.len() as int) =~~= out0);
        assert(out.deep_view().skip(out0.len() as int) =~~= Seq::<Seq<u8>>::empty());
    }
    while start < n
        invariant
            all == msgs.deep_view(),
            n == msgs@.len(),
            0 <= start <= n,
            forall|i: int|
                0 <= i < all.len() ==> (#[trigger] all[i]).len() <= MAX_MESSAGE_LEN,
            out.deep_view().len() >= out0.len(),
            out.deep_view().take(out0.len() as int) == out0,
            unrel_frames_enc(all, chan) == out.deep_view().skip(out0.len() as int)
                + unrel_frames_enc(all.skip(start as int), chan),
        decreases n - start,
    {
        let ghost rem = all.skip(start as int);
        let mut batch: Vec<Vec<u8>> = Vec::new();
        let mut space: usize = MAX_PACKET_LEN - UNRELIABLE_HEADER_LEN;
        let mut i = start;
        proof {
            assert(rem.take(0) =~~= Seq::<Seq<u8>>::empty());
            assert(rem.skip(0) =~~= rem);
            assert(batch.deep_view() =~~= rem.take(0));
            lemma_encode_messages_len(batch.deep_view());
        }
        while i < n && 2 + msgs[i].len() <= space
            invariant
                all == msgs.deep_view(),
                n == msgs@.len(),
                rem == all.skip(start as int),
                0 <= start <= i <= n,
                forall|ii: int|
                    0 <= ii < all.len() ==> (#[trigger] all[ii]).len() <= MAX_MESSAGE_LEN,
                batch.deep_view() == rem.take(i - start),
                space == MAX_PACKET_LEN - UNRELIABLE_HEADER_LEN - spec_messages_encoded_len(
                    batch.deep_view(),
                ),
                pack_count(rem, MAX_PACKET_LEN - UNRELIABLE_HEADER_LEN) == (i - start)
                    + pack_count(rem.skip(i - start), space as int),
            decreases n - i,
        {
            let m = slice_to_vec(msgs[i].as_slice());
            let ghost bprev = batch.deep_view();
            batch.push(m);
            proof {
                assert(all[i as int] == rem[i - start]);
                assert(batch.deep_view() =~~= bprev.push(all[i as int]));
                assert(bprev.push(all[i as int]) =~~= rem.take(i + 1 - start));
                lemma_encode_messages_push(bprev, all[i as int]);
                assert(rem.skip(i - start)[0] == rem[i - start]);
                lemma_skip_skip_pub(rem, i - start, 1);
            }
            space = space - 2 - msgs[i].len();
            i = i + 1;
        }
        proof {
            if i < n {
                assert(rem.skip(i - start)[0] == all[i as int]);
                assert(pack_count(rem.skip(i - start), space as int) == 0);
            } else {
                assert(rem.skip(i - start).len() == 0);
                assert(pack_count(rem.skip(i - start), space as int) == 0);
            }
            assert(pack_count(rem, MAX_PACKET_LEN - UNRELIABLE_HEADER_LEN) == i - start);
            if i == start {
                assert(rem[0] == all[start as int]);
                assert(2 + rem[0].len() <= MAX_PACKET_LEN - UNRELIABLE_HEADER_LEN);
                assert(false);
            }
            assert(head_pack(rem, MAX_PACKET_LEN - UNRELIABLE_HEADER_LEN) == i - start);
        }
        let frame = Frame::UnreliableData { channel: chan, messages: batch };
        proof {
            let fm = frame@;
            assert(fm->UnreliableData_messages == rem.take(i - start));
            assert(spec_messages_wf(rem.take(i - start)));
            lemma_encode_messages_len(rem.take(i - start));
            assert(spec_encode_frame(fm).len() == 2 + spec_messages_encoded_len(rem.take(
                i - start,
            )));
            assert(spec_frame_encodable(fm));
        }
        let bytes = encode_frame(&frame);
        let ghost oprev = out.deep_view();
        out.push(bytes);
        proof {
            assert(out.deep_view() =~~= oprev.push(bytes@));
            assert(out.deep_view().take(out0.len() as int) =~~= out0);
            assert(out.deep_view().skip(out0.len() as int) =~~= oprev.skip(
                out0.len() as int,
            ).push(bytes@));
            lemma_skip_skip_pub(all, start as int, i - start);
            assert(unrel_frames_enc(rem, chan) == seq![bytes@] + unrel_frames_enc(
                all.skip(i as int),
                chan,
            ));
            assert(unrel_frames_enc(all, chan) =~~= out.deep_view().skip(out0.len() as int)
                + unrel_frames_enc(all.skip(i as int), chan));
        }
        start = i;
    }
    proof {
        assert(all.skip(start as int).len() == 0);
        assert(unrel_frames_enc(all.skip(start as int), chan) =~~= Seq::<Seq<u8>>::empty());
        assert(final(out).deep_view() =~~= out0 + unrel_frames_enc(all, chan));
    }
}

/// Whether the receive-side record `got` agrees with a sender's send log:
/// every sequence number the wire has asserted a body for is a real
/// position of the log, with exactly the log's message.
pub open spec fn got_agrees(got: Map<int, Seq<u8>>, log: Seq<Seq<u8>>) -> bool {
    forall|s: int| #[trigger] got.contains_key(s) ==> 0 <= s < log.len() && got[s] == log[s]
}

/// What it means for one encoded packet to be a genuine reliable data
/// packet of channel `chan` drawn from the send log `log`: it parses, it
/// bears the channel's tag, and every message in it is the log's message
/// at its sequence number.
pub open spec fn rel_packet_from(b: Seq<u8>, chan: u8, log: Seq<Seq<u8>>) -> bool {
    match crate::frame::spec_decode_frame(b) {
        Some(FrameModel::ReliableData { channel, first_seq, messages }) => {
            &&& channel == chan
            &&& first_seq + messages.len() <= log.len()
            &&& forall|j: int| 0 <= j < messages.len() ==> messages[j] == log[first_seq + j]
        },
        _ => false,
    }
}

/// What it means for one encoded packet to be a genuine unreliable data
/// packet of channel `chan` drawn from the send log `log`.
pub open spec fn unrel_packet_from(b: Seq<u8>, chan: u8, log: Seq<Seq<u8>>) -> bool {
    match crate::frame::spec_decode_frame(b) {
        Some(FrameModel::UnreliableData { channel, messages }) => {
            &&& channel == chan
            &&& forall|j: int| 0 <= j < messages.len() ==> log.contains(#[trigger] messages[j])
        },
        _ => false,
    }
}

impl Channel {
    /// The reliable outbound window always carries exactly the send log's
    /// messages: offset `k` of the in-flight run is the log's entry at
    /// sequence number `base + k`, and the queued run follows it.
    pub proof fn lemma_window_matches_log(self)
        requires
            self.wf(),
            self.is_reliable(),
        ensures
            self.base() + self.in_flight_msgs().len() + self.queued().len()
                == self.sent_log().len(),
            self.sent_log().len() <= u64::MAX,
            forall|k: int|
                0 <= k < self.in_flight_msgs().len() ==> #[trigger] self.in_flight_msgs()[k]
                    == self.sent_log()[self.base() + k],
            forall|j: int|
                0 <= j < self.queued().len() ==> #[trigger] self.queued()[j]
                    == self.sent_log()[self.base() + self.in_flight_msgs().len() + j],
            forall|k: int|
                0 <= k < self.in_flight_msgs().len() ==> (
                #[trigger] self.in_flight_msgs()[k]).len() <= MAX_MESSAGE_LEN,
    {
        assert(forall|k: int|
            0 <= k < self.in_flight_msgs().len() ==> (#[trigger] self.in_flight_msgs()[k]).len()
                <= self.settings.spec_max_message_len());
    }

    /// An unreliable channel's queue holds only messages of its send log.
    pub proof fn lemma_queue_in_log(self)
        requires
            self.wf(),
            !self.is_reliable(),
        ensures
            forall|j: int|
                0 <= j < self.queued().len() ==> self.sent_log().contains(
                    #[trigger] self.queued()[j],
                ),
            forall|j: int|
                0 <= j < self.queued().len() ==> (#[trigger] self.queued()[j]).len()
                    <= MAX_MESSAGE_LEN,
    {
        assert forall|j: int|
            0 <= j < self.queued().len() implies self.sent_log().contains(
            #[trigger] self.queued()[j],
        ) by {
            assert(self.queued()[j] == self.sent_log()[self.sent_log().len()
                - self.queued().len() + j]);
        }
    }

    /// Order and integrity of reliable delivery: as long as everything the
    /// wire asserted agrees with the sender's log, what the receiver has
    /// delivered is exactly a prefix of that log, in order, with no gap,
    /// no duplicate and no alteration.
    pub proof fn lemma_reliable_delivery_prefix(self, log: Seq<Seq<u8>>)
        requires
            self.wf(),
            self.is_reliable(),
            got_agrees(self.got(), log),
        ensures
            self.delivered_log().len() == self.deliver_next(),
            self.delivered_log().len() <= log.len(),
            self.delivered_log() == log.take(self.delivered_log().len() as int),
    {
        if self.deliver_next() > 0 {
            assert(self.got().contains_key(self.deliver_next() - 1));
        }
        assert forall|s: int|
            0 <= s < self.delivered_log().len() implies self.delivered_log()[s] == log[s] by {
            assert(self.got().contains_key(s));
        }
        assert(self.delivered_log() =~~= log.take(self.delivered_log().len() as int));
    }

    /// Completeness of reliable delivery: once delivery has advanced to
    /// the end of the sender's log, the receiver has delivered the whole
    /// log, exactly once, in order.
    pub proof fn lemma_reliable_delivery_complete(self, log: Seq<Seq<u8>>)
        requires
            self.wf(),
            self.is_reliable(),
            got_agrees(self.got(), log),
            self.deliver_next() == log.len(),
        ensures
            self.delivered_log() == log,
    {
        self.lemma_reliable_delivery_prefix(log);
        assert(log.take(log.len() as int) =~~= log);
    }

    /// Unreliable delivery never invents and never alters: as long as
    /// everything that arrived on the channel was drawn from the sender's
    /// log, every delivered message is one of the sender's, unaltered.
    /// (That some may be missing, duplicated or reordered is exactly what
    /// the unreliable mode permits.)
    pub proof fn lemma_unreliable_delivery_subset(self, log: Seq<Seq<u8>>)
        requires
            self.wf(),
            !self.is_reliable(),
            forall|i: int| 0 <= i < self.seen().len() ==> log.contains(#[trigger] self.seen()[i]),
        ensures
            forall|i: int|
                0 <= i < self.delivered_log().len() ==> log.contains(
                    #[trigger] self.delivered_log()[i],
                ),
    {
        assert forall|i: int|
            0 <= i < self.delivered_log().len() implies log.contains(
            #[trigger] self.delivered_log()[i],
        ) by {
            assert(self.seen().contains(self.delivered_log()[i]));
            let w = choose|w: int|
                0 <= w < self.seen().len() && self.seen()[w] == self.delivered_log()[i];
            assert(log.contains(self.seen()[w]));
        }
    }
}

/// Taking in a genuine data packet preserves agreement with the sender's
/// log: the receive-side record can only gain entries the packet vouches
/// for. The shape of the hypotheses is exactly what `handle_reliable_data`
/// ensures about `got`.
pub proof fn lemma_got_agreement_preserved(
    pre: Map<int, Seq<u8>>,
    post: Map<int, Seq<u8>>,
    first_seq: u64,
    messages: Seq<Seq<u8>>,
    log: Seq<Seq<u8>>,
)
    requires
        got_agrees(pre, log),
        first_seq + messages.len() <= log.len(),
        forall|j: int| 0 <= j < messages.len() ==> messages[j] == log[first_seq + j],
        forall|t: int|
            #[trigger] pre.contains_key(t) ==> post.contains_key(t) && post[t] == pre[t],
        forall|t: int|
            #[trigger] post.contains_key(t) && !pre.contains_key(t) ==> first_seq <= t
                < first_seq + messages.len() && post[t] == messages[t - first_seq],
    ensures
        got_agrees(post, log),
{
    assert forall|s: int| #[trigger]
        post.contains_key(s) implies 0 <= s < log.len() && post[s] == log[s] by {
        if pre.contains_key(s) {
        } else {
            assert(post[s] == messages[s - first_seq]);
        }
    }
}

/// Every packet the reliable flush emits is genuine: it parses back to a
/// reliable data packet of this channel whose messages are the send log's
/// entries at their sequence numbers.
pub proof fn lemma_rel_frames_from_log(msgs: Seq<Seq<u8>>, first: int, chan: u8, log: Seq<Seq<u8>>)
    requires
        forall|i: int| 0 <= i < msgs.len() ==> (#[trigger] msgs[i]).len() <= MAX_MESSAGE_LEN,
        0 <= first,
        first + msgs.len() <= log.len(),
        first + msgs.len() <= u64::MAX,
        forall|i: int| 0 <= i < msgs.len() ==> msgs[i] == log[first + i],
    ensures
        forall|i: int|
            0 <= i < rel_frames_enc(msgs, first, chan).len() ==> rel_packet_from(
                #[trigger] rel_frames_enc(msgs, first, chan)[i],
                chan,
                log,
            ),
    decreases msgs.len(),
{
    if msgs.len() > 0 {
        let space = MAX_PACKET_LEN - RELIABLE_HEADER_LEN;
        lemma_pack_count_fits(msgs, space as int);
        assert(2 + msgs[0].len() <= space as int);
        lemma_pack_count_fits(msgs.skip(1), space as int - 2 - msgs[0].len());
        assert(pack_count(msgs, space as int) >= 1);
        let c = head_pack(msgs, space as int);
        assert(c == pack_count(msgs, space as int));
        assert(1 <= c <= msgs.len());
        let head = FrameModel::ReliableData {
            channel: chan,
            first_seq: first as u64,
            messages: msgs.take(c),
        };
        assert(spec_messages_wf(msgs.take(c)));
        lemma_encode_messages_len(msgs.take(c));
        lemma_wire_cost_is_encoded_len(msgs.take(c));
        vstd::bytes::lemma_auto_spec_u64_to_from_le_bytes();
        assert(spec_encode_frame(head).len() == 10 + spec_messages_encoded_len(msgs.take(c)));
        assert(spec_frame_encodable(head));
        crate::frame::lemma_frame_round_trip(head);
        assert(rel_packet_from(spec_encode_frame(head), chan, log));
        lemma_rel_frames_from_log(msgs.skip(c), first + c, chan, log);
        assert forall|i: int|
            0 <= i < rel_frames_enc(msgs, first, chan).len() implies rel_packet_from(
            #[trigger] rel_frames_enc(msgs, first, chan)[i],
            chan,
            log,
        ) by {
            if i == 0 {
                assert(rel_frames_enc(msgs, first, chan)[0] == spec_encode_frame(head));
            } else {
                assert(rel_frames_enc(msgs, first, chan)[i] == rel_frames_enc(
                    msgs.skip(c),
                    first + c,
                    chan,
                )[i - 1]);
            }
        }
    }
}

/// Every packet the unreliable flush emits is genuine: it parses back to
/// an unreliable data packet of this channel whose messages are all drawn
/// from the send log.
pub proof fn lemma_unrel_frames_from_log(msgs: Seq<Seq<u8>>, chan: u8, log: Seq<Seq<u8>>)
    requires
        forall|i: int| 0 <= i < msgs.len() ==> (#[trigger] msgs[i]).len() <= MAX_MESSAGE_LEN,
        forall|i: int| 0 <= i < msgs.len() ==> log.contains(#[trigger] msgs[i]),
    ensures
        forall|i: int|
            0 <= i < unrel_frames_enc(msgs, chan).len() ==> unrel_packet_from(
                #[trigger] unrel_frames_enc(msgs, chan)[i],
                chan,
                log,
            ),
    decreases msgs.len(),
{
    if msgs.len() > 0 {
        let space = MAX_PACKET_LEN - UNRELIABLE_HEADER_LEN;
        lemma_pack_count_fits(msgs, space as int);
        assert(2 + msgs[0].len() <= space as int);
        lemma_pack_count_fits(msgs.skip(1), space as int - 2 - msgs[0].len());
        assert(pack_count(msgs, space as int) >= 1);
        let c = head_pack(msgs, space as int);
        assert(c == pack_count(msgs, space as int));
        assert(1 <= c <= msgs.len());
        let head = FrameModel::UnreliableData { channel: chan, messages: msgs.take(c) };
        assert(spec_messages_wf(msgs.take(c)));
        lemma_encode_messages_len(msgs.take(c));
        lemma_wire_cost_is_encoded_len(msgs.take(c));
        assert(spec_encode_frame(head).len() == 2 + spec_messages_encoded_len(msgs.take(c)));
        assert(spec_frame_encodable(head));
        crate::frame::lemma_frame_round_trip(head);
        assert forall|j: int|
            0 <= j < msgs.take(c).len() implies log.contains(#[trigger] msgs.take(c)[j]) by {
            assert(msgs.take(c)[j] == msgs[j]);
        }
        assert(unrel_packet_from(spec_encode_frame(head), chan, log));
        lemma_unrel_frames_from_log(msgs.skip(c), chan, log);
        assert forall|i: int|
            0 <= i < unrel_frames_enc(msgs, chan).len() implies unrel_packet_from(
            #[trigger] unrel_frames_enc(msgs, chan)[i],
            chan,
            log,
        ) by {
            if i == 0 {
                assert(unrel_frames_enc(msgs, chan)[0] == spec_encode_frame(head));
            } else {
                assert(unrel_frames_enc(msgs, chan)[i] == unrel_frames_enc(
                    msgs.skip(c),
                    chan,
                )[i - 1]);
            }
        }
    }
}

/// What one incoming multiplexed packet did to the channel set.
pub enum RouteOutcome {
    /// A data packet was taken in; nothing needs to go back right now.
    Delivered,
    /// A reliable data packet was taken in; the encoded cumulative
    /// acknowledgment packet it calls for should be sent back to the peer.
    Reply(Vec<u8>),
    /// An acknowledgment was taken in and settled part of the window.
    Acknowledged,
    /// The packet named a channel tag that no registration carries.
    UnknownChannel(u8),
    /// The packet's kind does not match the named channel's mode.
    WrongMode(u8),
}

/// The first index in `chs` whose channel carries the wire tag `id`.
pub open spec fn spec_find_channel(chs: Seq<Channel>, id: u8) -> Option<int>
    decreases chs.len(),
{
    if chs.len() == 0 {
        None
    } else if chs[0].cfg().channel == id {
        Some(0)
    } else {
        match spec_find_channel(chs.skip(1), id) {
            Some(i) => Some(i + 1),
            None => None,
        }
    }
}

/// A found index is in range and carries the tag; a miss means no channel
/// carries it.
pub proof fn lemma_find_channel(chs: Seq<Channel>, id: u8)
    ensures
        match spec_find_channel(chs, id) {
            Some(i) => 0 <= i < chs.len() && chs[i].cfg().channel == id,
            None => forall|j: int| 0 <= j < chs.len() ==> (#[trigger] chs[j]).cfg().channel != id,
        },
    decreases chs.len(),
{
    if chs.len() > 0 {
        lemma_find_channel(chs.skip(1), id);
        if chs[0].cfg().channel != id {
            match spec_find_channel(chs.skip(1), id) {
                Some(i) => {
                    assert(chs.skip(1)[i] == chs[i + 1]);
                },
                None => {
                    assert forall|j: int|
                        0 <= j < chs.len() implies (#[trigger] chs[j]).cfg().channel != id by {
                        if j > 0 {
                            assert(chs.skip(1)[j - 1] == chs[j]);
                        }
                    }
                },
            }
        }
    }
}


/// What taking in the body of one reliable data packet does to the one
/// channel it names: the outbound side and everything seen on the
/// unreliable path stay untouched; the wire record grows only at the
/// packet's sequence numbers, with the packet's bodies; delivery only
/// extends, in order; and a packet that starts at or before the delivery
/// point and reaches past it advances delivery past its end.
pub open spec fn rel_data_step(a: Channel, b: Channel, first_seq: u64, messages: Seq<Seq<u8>>) -> bool {
    &&& b.cfg() == a.cfg()
    &&& b.sent_log() == a.sent_log()
    &&& b.queued() == a.queued()
    &&& b.in_flight_msgs() == a.in_flight_msgs()
    &&& b.base() == a.base()
    &&& b.seen() == a.seen()
    &&& (forall|t: int|
        a.got().contains_key(t) ==> b.got().contains_key(t) && b.got()[t] == a.got()[t])
    &&& (forall|t: int|
        b.got().contains_key(t) && !a.got().contains_key(t) ==> first_seq <= t < first_seq
            + messages.len() && b.got()[t] == messages[t - first_seq])
    &&& b.deliver_next() >= a.deliver_next()
    &&& b.delivered_log().take(a.delivered_log().len() as int) == a.delivered_log()
    &&& b.ready_msgs() == a.ready_msgs() + b.delivered_log().skip(a.delivered_log().len() as int)
    &&& (first_seq <= a.deliver_next() && first_seq + messages.len() <= u64::MAX
        ==> b.deliver_next() >= first_seq + messages.len())
}

/// What taking in the body of one unreliable data packet does to the one
/// channel it names: everything is recorded as seen, and the messages are
/// made ready in arrival order as far as the ready queue has room.
pub open spec fn unrel_data_step(a: Channel, b: Channel, messages: Seq<Seq<u8>>) -> bool {
    &&& b.cfg() == a.cfg()
    &&& b.sent_log() == a.sent_log()
    &&& b.queued() == a.queued()
    &&& b.in_flight_msgs() == a.in_flight_msgs()
    &&& b.base() == a.base()
    &&& b.got() == a.got()
    &&& b.deliver_next() == a.deliver_next()
    &&& b.seen() == a.seen() + messages
    &&& b.delivered_log() == a.delivered_log() + messages.take(accepted_count(a, messages))
    &&& b.ready_msgs() == a.ready_msgs() + messages.take(accepted_count(a, messages))
}

/// What taking in one cumulative acknowledgment does to the one channel
/// it names: the settled prefix leaves the in-flight window, clamped to
/// what was actually on the wire; nothing else moves.
pub open spec fn ack_step(a: Channel, b: Channel, ack_next: u64) -> bool {
    &&& b.cfg() == a.cfg()
    &&& b.sent_log() == a.sent_log()
    &&& b.queued() == a.queued()
    &&& b.got() == a.got()
    &&& b.seen() == a.seen()
    &&& b.deliver_next() == a.deliver_next()
    &&& b.ready_msgs() == a.ready_msgs()
    &&& b.delivered_log() == a.delivered_log()
    &&& b.base() == clamped_ack(a, ack_next)
    &&& b.in_flight_msgs() == a.in_flight_msgs().skip(clamped_ack(a, ack_next) - a.base())
}

/// Exactly what routing one parsed frame does and reports, case by case.
/// An unknown channel tag, or a kind that contradicts the named channel's
/// mode, is reported with the set untouched. A data or acknowledgment
/// packet for a matching channel steps exactly that one channel; a
/// reliable data packet always earns the encoded cumulative
/// acknowledgment of the stepped channel's new delivery point as a reply.
pub open spec fn spec_route_full(
    a: MessageChannels,
    b: MessageChannels,
    f: FrameModel,
    r: RouteOutcome,
) -> bool {
    match f {
        FrameModel::ReliableData { channel, first_seq, messages } => {
            match spec_find_channel(a.list(), channel) {
                None => b == a && r == RouteOutcome::UnknownChannel(channel),
                Some(i) => if a.list()[i].is_reliable() {
                    &&& b.list().len() == a.list().len()
                    &&& (forall|j: int|
                        0 <= j < a.list().len() && j != i ==> b.list()[j] == a.list()[j])
                    &&& rel_data_step(a.list()[i], b.list()[i], first_seq, messages)
                    &&& (r matches RouteOutcome::Reply(p) && p@ == spec_encode_frame(
                        FrameModel::Ack { channel, ack_next: b.list()[i].deliver_next() },
                    ))
                } else {
                    b == a && r == RouteOutcome::WrongMode(channel)
                },
            }
        },
        FrameModel::UnreliableData { channel, messages } => {
            match spec_find_channel(a.list(), channel) {
                None => b == a && r == RouteOutcome::UnknownChannel(channel),
                Some(i) => if !a.list()[i].is_reliable() {
                    &&& b.list().len() == a.list().len()
                    &&& (forall|j: int|
                        0 <= j < a.list().len() && j != i ==> b.list()[j] == a.list()[j])
                    &&& unrel_data_step(a.list()[i], b.list()[i], messages)
                    &&& r == RouteOutcome::Delivered
                } else {
                    b == a && r == RouteOutcome::WrongMode(channel)
                },
            }
        },
        FrameModel::Ack { channel, ack_next } => {
            match spec_find_channel(a.list(), channel) {
                None => b == a && r == RouteOutcome::UnknownChannel(channel),
                Some(i) => if a.list()[i].is_reliable() {
                    &&& b.list().len() == a.list().len()
                    &&& (forall|j: int|
                        0 <= j < a.list().len() && j != i ==> b.list()[j] == a.list()[j])
                    &&& ack_step(a.list()[i], b.list()[i], ack_next)
                    &&& r == RouteOutcome::Acknowledged
                } else {
                    b == a && r == RouteOutcome::WrongMode(channel)
                },
            }
        },
    }
}

/// One connection's set of message channels, one per registration, in
/// registration order; all raw traffic of the connection is multiplexed
/// across them by the channel tag in each packet.
pub struct MessageChannels {
    channels: Vec<Channel>,
}

impl MessageChannels {
    /// The channels in registration order.
    pub closed spec fn list(self) -> Seq<Channel> {
        self.channels@
    }

    /// Every channel well-formed, and no two share a wire tag.
    pub open spec fn wf(self) -> bool {
        &&& forall|i: int| 0 <= i < self.list().len() ==> (#[trigger] self.list()[i]).wf()
        &&& forall|i: int, j: int|
            0 <= i < j < self.list().len() ==> self.list()[i].cfg().channel != self.list()[j].cfg().channel
    }

    /// Build one channel per registration, in registration order, all
    /// fresh. Every connection of a process is built from the same
    /// registrations, so both peers agree on tags.
    pub fn new(builder: &ConnectionChannelsBuilder) -> (s: MessageChannels)
        requires
            builder.wf(),
        ensures
            s.wf(),
            s.list().len() == builder@.len(),
            forall|i: int|
                0 <= i < builder@.len() ==> {
                    &&& (#[trigger] s.list()[i]).cfg() == builder@[i]
                    &&& s.list()[i].sent_log() == Seq::<Seq<u8>>::empty()
                    &&& s.list()[i].delivered_log() == Seq::<Seq<u8>>::empty()
                    &&& s.list()[i].queued() == Seq::<Seq<u8>>::empty()
                    &&& s.list()[i].in_flight_msgs() == Seq::<Seq<u8>>::empty()
                    &&& s.list()[i].ready_msgs() == Seq::<Seq<u8>>::empty()
                    &&& s.list()[i].got() == Map::<int, Seq<u8>>::empty()
                    &&& s.list()[i].seen() == Seq::<Seq<u8>>::empty()
                    &&& s.list()[i].base() == 0
                    &&& s.list()[i].deliver_next() == 0
                },
    {
        let regs = builder.registrations();
        let mut channels: Vec<Channel> = Vec::new();
        let n = regs.len();
        for i in 0..n
            invariant
                builder.wf(),
                regs@ == builder@,
                n == regs@.len(),
                channels@.len() == i,
                forall|k: int|
                    0 <= k < i ==> {
                        &&& (#[trigger] channels@[k]).wf()
                        &&& channels@[k].cfg() == builder@[k]
                        &&& channels@[k].sent_log() == Seq::<Seq<u8>>::empty()
                        &&& channels@[k].delivered_log() == Seq::<Seq<u8>>::empty()
                        &&& channels@[k].queued() == Seq::<Seq<u8>>::empty()
                        &&& channels@[k].in_flight_msgs() == Seq::<Seq<u8>>::empty()
                        &&& channels@[k].ready_msgs() == Seq::<Seq<u8>>::empty()
                        &&& channels@[k].got() == Map::<int, Seq<u8>>::empty()
                        &&& channels@[k].seen() == Seq::<Seq<u8>>::empty()
                        &&& channels@[k].base() == 0
                        &&& channels@[k].deliver_next() == 0
                    },
        {
            channels.push(Channel::new(regs[i]));
        }
        MessageChannels { channels }
    }

    /// The index of the channel bearing wire tag `channel`, if one is
    /// registered.
    pub fn index_of(&self, channel: u8) -> (r: Option<usize>)
        ensures
            match r {
                Some(i) => spec_find_channel(self.list(), channel) == Some(i as int) && i
                    < self.list().len() && self.list()[i as int].cfg().channel == channel,
                None => spec_find_channel(self.list(), channel) is None && forall|j: int|
                    0 <= j < self.list().len() ==> (#[trigger] self.list()[j]).cfg().channel
                        != channel,
            },
    {
        proof {
            lemma_find_channel(self.list(), channel);
        }
        let n = self.channels.len();
        for i in 0..n
            invariant
                n == self.channels@.len(),
                forall|j: int|
                    0 <= j < i ==> (#[trigger] self.channels@[j]).cfg().channel != channel,
                match spec_find_channel(self.channels@, channel) {
                    Some(k) => 0 <= k < self.channels@.len() && self.channels@[k].cfg().channel == channel,
                    None => forall|j: int|
                        0 <= j < self.channels@.len() ==> (
                        #[trigger] self.channels@[j]).cfg().channel != channel,
                },
        {
            if self.channels[i].settings_channel() == channel {
                proof {
                    lemma_find_channel_first(self.channels@, channel, i as int);
                }
                return Some(i);
            }
        }
        None
    }

    /// Enqueue one outbound message on the channel at `i`. The unsent
    /// message comes straight back exactly when the channel refuses it.
    pub fn send_at(&mut self, i: usize, message: Vec<u8>) -> (unsent: Option<Vec<u8>>)
        requires
            old(self).wf(),
            i < old(self).list().len(),
        ensures
            final(self).wf(),
            final(self).list().len() == old(self).list().len(),
            forall|j: int|
                0 <= j < old(self).list().len() && j != i ==> final(self).list()[j] == old(self).list()[j],
            final(self).list()[i as int].cfg() == old(self).list()[i as int].cfg(),
            old(self).list()[i as int].accepts(message@.len() as int) ==> {
                &&& unsent is None
                &&& final(self).list()[i as int].queued() == old(self).list()[i as int].queued().push(message.deep_view())
                &&& final(self).list()[i as int].sent_log() == old(self).list()[i as int].sent_log().push(message.deep_view())
            },
            !old(self).list()[i as int].accepts(message@.len() as int) ==> {
                &&& unsent == Some(message)
                &&& final(self).list()[i as int] == old(self).list()[i as int]
            },
            final(self).list()[i as int].ready_msgs() == old(self).list()[i as int].ready_msgs(),
            final(self).list()[i as int].delivered_log() == old(self).list()[i as int].delivered_log(),
            final(self).list()[i as int].in_flight_msgs() == old(self).list()[i as int].in_flight_msgs(),
            final(self).list()[i as int].base() == old(self).list()[i as int].base(),
            final(self).list()[i as int].got() == old(self).list()[i as int].got(),
            final(self).list()[i as int].seen() == old(self).list()[i as int].seen(),
    {
        let ch = &mut self.channels[i];
        let r = ch.send(message);
        proof {
            assert(final(self).list() =~= old(self).list().update(
                i as int,
                final(self).list()[i as int],
            ));
        }
        r
    }

    /// Hand out the next ready message of the channel at `i`, in delivery
    /// order.
    pub fn recv_at(&mut self, i: usize) -> (r: Option<Vec<u8>>)
        requires
            old(self).wf(),
            i < old(self).list().len(),
        ensures
            final(self).wf(),
            final(self).list().len() == old(self).list().len(),
            forall|j: int|
                0 <= j < old(self).list().len() && j != i ==> final(self).list()[j] == old(self).list()[j],
            final(self).list()[i as int].cfg() == old(self).list()[i as int].cfg(),
            old(self).list()[i as int].ready_msgs().len() == 0 ==> r is None && final(self).list()[i as int] == old(self).list()[i as int],
            old(self).list()[i as int].ready_msgs().len() > 0 ==> {
                &&& r matches Some(m) && m.deep_view() == old(self).list()[i as int].ready_msgs()[0]
                &&& final(self).list()[i as int].ready_msgs() == old(self).list()[i as int].ready_msgs().skip(1)
            },
            final(self).list()[i as int].sent_log() == old(self).list()[i as int].sent_log(),
            final(self).list()[i as int].delivered_log() == old(self).list()[i as int].delivered_log(),
            final(self).list()[i as int].queued() == old(self).list()[i as int].queued(),
            final(self).list()[i as int].in_flight_msgs() == old(self).list()[
                i as int].in_flight_msgs(),
            final(self).list()[i as int].base() == old(self).list()[i as int].base(),
            final(self).list()[i as int].got() == old(self).list()[i as int].got(),
            final(self).list()[i as int].seen() == old(self).list()[i as int].seen(),
    {
        let ch = &mut self.channels[i];
        let r = ch.recv();
        proof {
            assert(final(self).list() =~= old(self).list().update(
                i as int,
                final(self).list()[i as int],
            ));
        }
        r
    }

    /// Drain the channel at `i` into framed packets, appended to `out` as
    /// encoded raw payloads ready for the transport.
    pub fn flush_at(&mut self, i: usize, out: &mut Vec<Vec<u8>>)
        requires
            old(self).wf(),
            i < old(self).list().len(),
        ensures
            final(self).wf(),
            final(self).list().len() == old(self).list().len(),
            forall|j: int|
                0 <= j < old(self).list().len() && j != i ==> final(self).list()[j] == old(self).list()[j],
            final(self).list()[i as int].cfg() == old(self).list()[i as int].cfg(),
            final(self).list()[i as int].sent_log() == old(self).list()[i as int].sent_log(),
            final(self).list()[i as int].ready_msgs() == old(self).list()[i as int].ready_msgs(),
            final(self).list()[i as int].delivered_log() == old(self).list()[i as int].delivered_log(),
            final(self).list()[i as int].got() == old(self).list()[i as int].got(),
            final(self).list()[i as int].seen() == old(self).list()[i as int].seen(),
            old(self).list()[i as int].is_reliable() ==> {
                let a = old(self).list()[i as int];
                let b = final(self).list()[i as int];
                let mc = movable_count(
                    a.queued(),
                    a.send_window_budget() - wire_cost(a.in_flight_msgs()),
                );
                &&& b.in_flight_msgs() == a.in_flight_msgs() + a.queued().take(mc)
                &&& b.queued() == a.queued().skip(mc)
                &&& b.base() == a.base()
                &&& final(out).deep_view() == old(out).deep_view() + rel_frames_enc(
                    b.in_flight_msgs(),
                    a.base() as int,
                    a.cfg().channel,
                )
            },
            !old(self).list()[i as int].is_reliable() ==> {
                let a = old(self).list()[i as int];
                &&& final(self).list()[i as int].queued() == Seq::<Seq<u8>>::empty()
                &&& final(self).list()[i as int].in_flight_msgs() == a.in_flight_msgs()
                &&& final(self).list()[i as int].base() == a.base()
                &&& final(out).deep_view() == old(out).deep_view() + unrel_frames_enc(
                    a.queued(),
                    a.cfg().channel,
                )
            },
    {
        let ch = &mut self.channels[i];
        ch.flush(out);
        proof {
            assert(final(self).list() =~= old(self).list().update(
                i as int,
                final(self).list()[i as int],
            ));
        }
    }

    /// Take in one parsed multiplexed packet: route it to the channel its
    /// tag names, in the way its kind calls for. A reliable data packet
    /// earns an encoded cumulative-acknowledgment reply; a packet for an
    /// unknown tag, or whose kind contradicts the channel's mode, is
    /// reported and changes nothing.
    pub fn route(&mut self, frame: Frame) -> (r: RouteOutcome)
        requires
            old(self).wf(),
        ensures
            final(self).wf(),
            final(self).list().len() == old(self).list().len(),
            forall|j: int|
                0 <= j < old(self).list().len() ==> (#[trigger] final(self).list()[j]).cfg() == old(self).list()[j].cfg(),
            forall|j: int|
                0 <= j < old(self).list().len() ==> (#[trigger] final(self).list()[j]).sent_log() == old(self).list()[j].sent_log(),
            forall|j: int|
                0 <= j < old(self).list().len() ==> (#[trigger] final(self).list()[j]).queued() == old(self).list()[j].queued(),
            r matches RouteOutcome::Reply(p) ==> p@.len() == 10,
            spec_route_full(*old(self), *final(self), frame@, r),
    {
        match frame {
            Frame::ReliableData { channel, first_seq, messages } => {
                match self.index_of(channel) {
                    None => RouteOutcome::UnknownChannel(channel),
                    Some(i) => {
                        let is_rel = self.channels[i].mode_is_reliable();
                        if !is_rel {
                            return RouteOutcome::WrongMode(channel);
                        }
                        let ch = &mut self.channels[i];
                        let ack = ch.handle_reliable_data(first_seq, messages);
                        proof {
                            assert(final(self).list() =~= old(self).list().update(
                                i as int,
                                final(self).list()[i as int],
                            ));
                        }
                        let reply = Frame::Ack { channel, ack_next: ack };
                        proof {
                            vstd::bytes::lemma_auto_spec_u64_to_from_le_bytes();
                            assert(spec_encode_frame(reply@).len() == 10);
                            assert(spec_frame_encodable(reply@));
                        }
                        let bytes = encode_frame(&reply);
                        RouteOutcome::Reply(bytes)
                    },
                }
            },
            Frame::UnreliableData { channel, messages } => {
                match self.index_of(channel) {
                    None => RouteOutcome::UnknownChannel(channel),
                    Some(i) => {
                        let is_rel = self.channels[i].mode_is_reliable();
                        if is_rel {
                            return RouteOutcome::WrongMode(channel);
                        }
                        let ch = &mut self.channels[i];
                        ch.handle_unreliable_data(messages);
                        proof {
                            assert(final(self).list() =~= old(self).list().update(
                                i as int,
                                final(self).list()[i as int],
                            ));
                        }
                        RouteOutcome::Delivered
                    },
                }
            },
            Frame::Ack { channel, ack_next } => {
                match self.index_of(channel) {
                    None => RouteOutcome::UnknownChannel(channel),
                    Some(i) => {
                        let is_rel = self.channels[i].mode_is_reliable();
                        if !is_rel {
                            return RouteOutcome::WrongMode(channel);
                        }
                        let ch = &mut self.channels[i];
                        ch.handle_ack(ack_next);
                        proof {
                            assert(final(self).list() =~= old(self).list().update(
                                i as int,
                                final(self).list()[i as int],
                            ));
                        }
                        RouteOutcome::Acknowledged
                    },
                }
            },
        }
    }
}

/// Finding a channel by tag only looks at the tags: two lists whose
/// channels carry the same tags position by position find alike.
pub proof fn lemma_find_channel_cfg_stable(a: Seq<Channel>, b: Seq<Channel>, id: u8)
    requires
        a.len() == b.len(),
        forall|j: int|
            0 <= j < a.len() ==> (#[trigger] b[j]).cfg().channel == a[j].cfg().channel,
    ensures
        spec_find_channel(b, id) == spec_find_channel(a, id),
    decreases a.len(),
{
    if a.len() > 0 {
        assert(b[0].cfg().channel == a[0].cfg().channel);
        lemma_find_channel_cfg_stable(a.skip(1), b.skip(1), id);
        assert forall|j: int|
            0 <= j < a.skip(1).len() implies (#[trigger] b.skip(1)[j]).cfg().channel == a.skip(
            1,
        )[j].cfg().channel by {
            assert(b.skip(1)[j] == b[j + 1]);
            assert(a.skip(1)[j] == a[j + 1]);
        }
    }
}

/// If channels before `i` miss the tag and channel `i` carries it, `i` is
/// the found index.
proof fn lemma_find_channel_first(chs: Seq<Channel>, id: u8, i: int)
    requires
        0 <= i < chs.len(),
        chs[i].cfg().channel == id,
        forall|j: int| 0 <= j < i ==> (#[trigger] chs[j]).cfg().channel != id,
    ensures
        spec_find_channel(chs, id) == Some(i),
    decreases i,
{
    if i > 0 {
        lemma_find_channel_first(chs.skip(1), id, i - 1);
        assert(chs.skip(1)[i - 1] == chs[i]);
        assert forall|j: int| 0 <= j < i - 1 implies (#[trigger] chs.skip(1)[j]).cfg().channel
            != id by {
            assert(chs.skip(1)[j] == chs[j + 1]);
        }
    }
}

impl Channel {
    /// Everything a reliable flush puts on the wire is genuine: each
    /// emitted packet parses back to a reliable data packet of this
    /// channel whose messages are the send log's entries at their
    /// sequence numbers. Together with the agreement and prefix laws,
    /// this closes the loop: a receiver fed only packets a flush emitted
    /// delivers a prefix of the send log, and the whole log once its
    /// delivery point reaches the log's end.
    pub proof fn lemma_flush_output_genuine(self)
        requires
            self.wf(),
            self.is_reliable(),
        ensures
            forall|i: int|
                0 <= i < rel_frames_enc(
                    self.in_flight_msgs(),
                    self.base() as int,
                    self.cfg().channel,
                ).len() ==> rel_packet_from(
                    #[trigger] rel_frames_enc(
                        self.in_flight_msgs(),
                        self.base() as int,
                        self.cfg().channel,
                    )[i],
                    self.cfg().channel,
                    self.sent_log(),
                ),
    {
        self.lemma_window_matches_log();
        lemma_rel_frames_from_log(
            self.in_flight_msgs(),
            self.base() as int,
            self.cfg().channel,
            self.sent_log(),
        );
    }

    /// Everything an unreliable flush puts on the wire is genuine: each
    /// emitted packet parses back to an unreliable data packet of this
    /// channel whose messages are all drawn from the send log.
    pub proof fn lemma_unreliable_flush_output_genuine(self)
        requires
            self.wf(),
            !self.is_reliable(),
        ensures
            forall|i: int|
                0 <= i < unrel_frames_enc(self.queued(), self.cfg().channel).len()
                    ==> unrel_packet_from(
                    #[trigger] unrel_frames_enc(self.queued(), self.cfg().channel)[i],
                    self.cfg().channel,
                    self.sent_log(),
                ),
    {
        self.lemma_queue_in_log();
        lemma_unrel_frames_from_log(self.queued(), self.cfg().channel, self.sent_log());
    }
}

/// Taking in a genuine unreliable data packet preserves the receiver's
/// everything-seen-was-sent hypothesis: what `handle_unreliable_data`
/// appends to `seen` is exactly the packet's messages.
pub proof fn lemma_seen_subset_preserved(
    pre_seen: Seq<Seq<u8>>,
    post_seen: Seq<Seq<u8>>,
    messages: Seq<Seq<u8>>,
    log: Seq<Seq<u8>>,
)
    requires
        post_seen == pre_seen + messages,
        forall|i: int| 0 <= i < pre_seen.len() ==> log.contains(#[trigger] pre_seen[i]),
        forall|j: int| 0 <= j < messages.len() ==> log.contains(#[trigger] messages[j]),
    ensures
        forall|i: int| 0 <= i < post_seen.len() ==> log.contains(#[trigger] post_seen[i]),
{
    assert forall|i: int| 0 <= i < post_seen.len() implies log.contains(
        #[trigger] post_seen[i],
    ) by {
        if i < pre_seen.len() {
            assert(post_seen[i] == pre_seen[i]);
        } else {
            assert(post_seen[i] == messages[i - pre_seen.len()]);
        }
    }
}

/// Skipping twice is skipping once by the sum.
pub proof fn lemma_skip_skip_pub(s: Seq<Seq<u8>>, a: int, b: int)
    requires
        0 <= a,
        0 <= b,
        a + b <= s.len(),
    ensures
        s.skip(a).skip(b) == s.skip(a + b),
{
    assert(s.skip(a).skip(b) =~~= s.skip(a + b));
}

/// Removing the front element of a vector of messages drops the first
/// element of its deep view.
pub proof fn lemma_deep_remove_front_pub(a: Vec<Vec<u8>>, b: Vec<Vec<u8>>)
    requires
        a@.len() > 0,
        b@ == a@.remove(0),
    ensures
        b.deep_view() == a.deep_view().skip(1),
{
    assert forall|j: int| 0 <= j < b.deep_view().len() implies b.deep_view()[j]
        == a.deep_view().skip(1)[j] by {
        assert(b@[j] == a@[j + 1]);
    }
    assert(b.deep_view() =~~= a.deep_view().skip(1));
}

} // verus!
