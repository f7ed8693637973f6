use vstd::prelude::*;

verus! {

/// Largest raw packet this system ever puts on the wire, in bytes.
pub const MAX_PACKET_LEN: usize = 1472;

/// Bytes of framing in front of a reliable data packet's message block:
/// channel tag, packet kind, and the sequence number of the first message.
pub const RELIABLE_HEADER_LEN: usize = 10;

/// Bytes of framing in front of an unreliable data packet's message block:
/// channel tag and packet kind.
pub const UNRELIABLE_HEADER_LEN: usize = 2;

/// Upper bound on one message's length: it must fit in a reliable data
/// packet together with the framing and its own two-byte length prefix.
pub const MAX_MESSAGE_LEN: usize = 1460;

/// Numeric tuning of one reliable channel's retransmission machinery.
/// Durations are milliseconds; the two factors are parts per thousand.
#[derive(Clone, Copy, Debug, PartialEq, Eq, Structural)]
pub struct ReliableChannelSettings {
    /// Sustained outgoing budget, bytes per second.
    pub bandwidth: u32,
    /// Receive-side reordering window, bytes.
    pub recv_window: u32,
    /// Maximum in-flight (sent but unacknowledged) byte budget.
    pub send_window: u32,
    /// Short-term outgoing burst budget, bytes.
    pub burst_bandwidth: u32,
    /// Send credit granted before the first acknowledgment arrives, bytes.
    pub initial_send_credit: u32,
    /// How often the retransmission machinery wakes up, milliseconds.
    pub wakeup_interval_ms: u64,
    /// Round-trip-time estimate before any measurement, milliseconds.
    pub initial_rtt_ms: u64,
    /// Cap on the round-trip-time estimate, milliseconds.
    pub max_rtt_ms: u64,
    /// Smoothing applied to new round-trip-time samples, parts per thousand.
    pub rtt_smoothing_factor_permille: u32,
    /// Multiple of the round-trip time after which an unacknowledged message
    /// is retransmitted, parts per thousand.
    pub retransmit_factor_permille: u32,
}

/// Reliability mode of one message channel.
#[derive(Clone, Copy, Debug, PartialEq, Eq, Structural)]
pub enum MessageChannelMode {
    /// Ordered, acknowledged, retransmitted delivery within a window.
    Reliable { settings: ReliableChannelSettings, max_message_len: u32 },
    /// Fire-and-forget delivery with a bounded buffer.
    Unreliable,
}

/// Configuration of one message channel: its wire tag, its reliability mode,
/// and the capacity of its message and packet buffers.
#[derive(Clone, Copy, Debug, PartialEq, Eq, Structural)]
pub struct MessageChannelSettings {
    /// Wire tag of this channel, unique within one registration set.
    pub channel: u8,
    pub channel_mode: MessageChannelMode,
    /// Capacity of the channel's send queue and of its delivered-message
    /// queue, in messages.
    pub message_buffer_size: usize,
    /// Capacity of the channel's buffer of whole packets, in packets.
    pub packet_buffer_size: usize,
}

/// A configuration mistake caught when a channel is registered, before any
/// connection uses the registration set.
#[derive(Clone, Copy, Debug, PartialEq, Eq, Structural)]
pub enum ConfigurationError {
    /// A channel with this wire tag is already registered.
    DuplicateChannelId(u8),
    /// The configured maximum message length cannot fit in one packet
    /// together with its framing.
    MessageLengthOverLimit(u8),
}

impl MessageChannelSettings {
    /// The largest message this channel accepts.
    pub open spec fn spec_max_message_len(self) -> int {
        match self.channel_mode {
            MessageChannelMode::Reliable { max_message_len, .. } => max_message_len as int,
            MessageChannelMode::Unreliable => MAX_MESSAGE_LEN as int,
        }
    }

    /// A registration the builder accepts: the configured message length
    /// must fit in one packet together with its framing.
    pub open spec fn spec_valid(self) -> bool {
        self.spec_max_message_len() <= MAX_MESSAGE_LEN as int
    }
}

/// The ordered registration set for one process: every connection of the
/// process builds its channel set from the same registrations, so both peers
/// agree on wire tags. Registering the same tag twice is a configuration
/// error, caught here and not at first use.
#[derive(Clone, Debug)]
pub struct ConnectionChannelsBuilder {
    registrations: Vec<MessageChannelSettings>,
}

/// Whether some registration in `regs` carries the wire tag `channel`.
pub open spec fn spec_has_channel(regs: Seq<MessageChannelSettings>, channel: u8) -> bool {
    exists|i: int| 0 <= i < regs.len() && regs[i].channel == channel
}

impl View for ConnectionChannelsBuilder {
    type V = Seq<MessageChannelSettings>;

    closed spec fn view(&self) -> Seq<MessageChannelSettings> {
        self.registrations@
    }
}

impl ConnectionChannelsBuilder {
    /// All wire tags distinct and every registration valid.
    pub open spec fn wf(self) -> bool {
        &&& forall|i: int, j: int|
            0 <= i < j < self@.len() ==> self@[i].channel != self@[j].channel
        &&& forall|i: int| 0 <= i < self@.len() ==> (#[trigger] self@[i]).spec_valid()
    }

    pub fn new() -> (b: ConnectionChannelsBuilder)
        ensures
            b@ == Seq::<MessageChannelSettings>::empty(),
            b.wf(),
    {
        ConnectionChannelsBuilder { registrations: Vec::new() }
    }

    /// Register one channel. Succeeds exactly when the wire tag is new and
    /// the settings are valid; the registration set is unchanged otherwise.
    pub fn register(&mut self, settings: MessageChannelSettings) -> (r: Result<
        (),
        ConfigurationError,
    >)
        requires
            old(self).wf(),
        ensures
            final(self).wf(),
            r is Ok <==> !spec_has_channel(old(self)@, settings.channel)
                && settings.spec_valid(),
            r is Ok ==> final(self)@ == old(self)@.push(settings),
            r is Err ==> final(self)@ == old(self)@,
            spec_has_channel(old(self)@, settings.channel) ==> r == Result::<
                (),
                ConfigurationError,
            >::Err(ConfigurationError::DuplicateChannelId(settings.channel)),
            !spec_has_channel(old(self)@, settings.channel) && !settings.spec_valid() ==> r
                == Result::<(), ConfigurationError>::Err(
                ConfigurationError::MessageLengthOverLimit(settings.channel),
            ),
    {
        let n = self.registrations.len();
        for i in 0..n
            invariant
                n == self.registrations.len(),
                self@ == old(self)@,
                self.wf(),
                forall|k: int| 0 <= k < i ==> self.registrations@[k].channel != settings.channel,
        {
            if self.registrations[i].channel == settings.channel {
                return Err(ConfigurationError::DuplicateChannelId(settings.channel));
            }
        }
        let over_limit = match settings.channel_mode {
            MessageChannelMode::Reliable { max_message_len, .. } => {
                max_message_len as usize > MAX_MESSAGE_LEN
            },
            MessageChannelMode::Unreliable => false,
        };
        if over_limit {
            return Err(ConfigurationError::MessageLengthOverLimit(settings.channel));
        }
        self.registrations.push(settings);
        Ok(())
    }

    /// The registrations in registration order.
    pub fn registrations(&self) -> (r: &Vec<MessageChannelSettings>)
        ensures
            r@ == self@,
    {
        &self.registrations
    }
}

} // verus!
