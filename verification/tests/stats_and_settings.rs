use net_channels::settings::{
    ConfigurationError, ConnectionChannelsBuilder, MessageChannelMode, MessageChannelSettings,
    ReliableChannelSettings, MAX_MESSAGE_LEN,
};
use net_channels::stats::PacketStats;

fn reliable_settings() -> ReliableChannelSettings {
    ReliableChannelSettings {
        bandwidth: 4096,
        recv_window: 1024,
        send_window: 1024,
        burst_bandwidth: 1024,
        initial_send_credit: 1024,
        wakeup_interval_ms: 100,
        initial_rtt_ms: 200,
        max_rtt_ms: 2000,
        rtt_smoothing_factor_permille: 100,
        retransmit_factor_permille: 1500,
    }
}

fn reliable_channel(tag: u8) -> MessageChannelSettings {
    MessageChannelSettings {
        channel: tag,
        channel_mode: MessageChannelMode::Reliable {
            settings: reliable_settings(),
            max_message_len: 1024,
        },
        message_buffer_size: 16,
        packet_buffer_size: 16,
    }
}

fn unreliable_channel(tag: u8) -> MessageChannelSettings {
    MessageChannelSettings {
        channel: tag,
        channel_mode: MessageChannelMode::Unreliable,
        message_buffer_size: 16,
        packet_buffer_size: 16,
    }
}

#[test]
fn stats_count_a_sequence_of_sends_exactly() {
    // P7: after N packets of sizes s1..sN, packets_tx == N and
    // bytes_tx == sum(si), with last_tx monotone across the sequence.
    let mut s = PacketStats::default();
    let sizes: Vec<u64> = vec![3, 0, 250, 1472, 9];
    let mut last_tx = s.last_tx;
    let mut t: u64 = 10;
    for &size in sizes.iter() {
        s.add_tx(size, t);
        assert!(s.last_tx >= last_tx);
        last_tx = s.last_tx;
        t += 7;
    }
    assert_eq!(s.packets_tx, 5);
    assert_eq!(s.bytes_tx, 3 + 0 + 250 + 1472 + 9);
    assert_eq!(s.packets_rx, 0);
    assert_eq!(s.bytes_rx, 0);
    assert_eq!(s.last_tx, 10 + 4 * 7);
}

#[test]
fn stats_receive_side_counts_independently() {
    let mut s = PacketStats::new(100);
    s.add_rx(42, 150);
    s.add_rx(8, 130);
    assert_eq!(s.packets_rx, 2);
    assert_eq!(s.bytes_rx, 50);
    // an older clock reading never moves the timestamp backwards
    assert_eq!(s.last_rx, 150);
    assert_eq!(s.last_tx, 100);
}

#[test]
fn idle_durations_measure_silence() {
    let mut s = PacketStats::new(1000);
    s.add_tx(10, 1200);
    let (rx_idle, tx_idle) = s.idle_durations(1500);
    assert_eq!(rx_idle, 500);
    assert_eq!(tx_idle, 300);
    // a clock reading older than the records counts as no silence
    let (rx0, tx0) = s.idle_durations(900);
    assert_eq!(rx0, 0);
    assert_eq!(tx0, 0);
}

#[test]
fn duplicate_channel_registration_is_a_configuration_error() {
    let mut b = ConnectionChannelsBuilder::new();
    assert!(b.register(reliable_channel(0)).is_ok());
    assert!(b.register(unreliable_channel(1)).is_ok());
    let err = b.register(unreliable_channel(0));
    assert_eq!(err, Err(ConfigurationError::DuplicateChannelId(0)));
    // the failed registration left the set unchanged
    assert_eq!(b.registrations().len(), 2);
}

#[test]
fn oversized_message_limit_is_rejected_at_registration() {
    let mut b = ConnectionChannelsBuilder::new();
    let mut s = reliable_channel(3);
    s.channel_mode = MessageChannelMode::Reliable {
        settings: reliable_settings(),
        max_message_len: (MAX_MESSAGE_LEN as u32) + 1,
    };
    assert_eq!(
        b.register(s),
        Err(ConfigurationError::MessageLengthOverLimit(3))
    );
    assert_eq!(b.registrations().len(), 0);
}

#[test]
fn buffer_pool_hands_out_zeroed_buffers() {
    let pool = net_channels::channels::SimpleBufferPool(1472);
    let buf = pool.acquire();
    assert_eq!(buf.len(), 1472);
    assert!(buf.iter().all(|&b| b == 0));
}
