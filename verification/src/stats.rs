use vstd::prelude::*;

verus! {

/// Per-connection traffic counters and liveness timestamps.
///
/// Counters and timestamps are mutated exclusively by the owning connection on
/// every send or receive; everyone else reads an instantaneous copy. All four
/// counters and both timestamps are monotonically non-decreasing for the
/// connection's lifetime. Timestamps are milliseconds on the caller's clock.
#[derive(Clone, Copy, Debug)]
pub struct PacketStats {
    pub packets_tx: u64,
    pub packets_rx: u64,
    pub bytes_tx: u64,
    pub bytes_rx: u64,
    pub last_tx: u64,
    pub last_rx: u64,
}

/// Addition on counters that pins the result even at the top of the range:
/// the exact sum where it fits, the maximum otherwise.
pub open spec fn sat_add(a: u64, b: u64) -> u64 {
    if a + b <= u64::MAX {
        (a + b) as u64
    } else {
        u64::MAX
    }
}

/// The larger of two timestamps.
pub open spec fn max64(a: u64, b: u64) -> u64 {
    if a >= b {
        a
    } else {
        b
    }
}

/// The stats after recording one outgoing packet of `num_bytes` at `now_ms`.
pub open spec fn spec_with_tx(s: PacketStats, num_bytes: u64, now_ms: u64) -> PacketStats {
    PacketStats {
        packets_tx: sat_add(s.packets_tx, 1),
        bytes_tx: sat_add(s.bytes_tx, num_bytes),
        last_tx: max64(s.last_tx, now_ms),
        ..s
    }
}

/// The stats after recording one incoming packet of `num_bytes` at `now_ms`.
pub open spec fn spec_with_rx(s: PacketStats, num_bytes: u64, now_ms: u64) -> PacketStats {
    PacketStats {
        packets_rx: sat_add(s.packets_rx, 1),
        bytes_rx: sat_add(s.bytes_rx, num_bytes),
        last_rx: max64(s.last_rx, now_ms),
        ..s
    }
}

impl Default for PacketStats {
    /// Zeroed counters with both timestamps at the clock origin.
    fn default() -> (s: PacketStats)
        ensures
            s == PacketStats::zeroed(),
    {
        PacketStats {
            packets_tx: 0,
            packets_rx: 0,
            bytes_tx: 0,
            bytes_rx: 0,
            last_tx: 0,
            last_rx: 0,
        }
    }
}

impl PacketStats {
    pub open spec fn zeroed() -> PacketStats {
        PacketStats {
            packets_tx: 0,
            packets_rx: 0,
            bytes_tx: 0,
            bytes_rx: 0,
            last_tx: 0,
            last_rx: 0,
        }
    }

    /// Fresh stats for a connection established at `now_ms`: no traffic yet,
    /// but both liveness timestamps start at the moment of establishment, so
    /// that an exchange-free connection is not immediately considered idle.
    pub fn new(now_ms: u64) -> (s: PacketStats)
        ensures
            s.packets_tx == 0,
            s.packets_rx == 0,
            s.bytes_tx == 0,
            s.bytes_rx == 0,
            s.last_tx == now_ms,
            s.last_rx == now_ms,
    {
        PacketStats {
            packets_tx: 0,
            packets_rx: 0,
            bytes_tx: 0,
            bytes_rx: 0,
            last_tx: now_ms,
            last_rx: now_ms,
        }
    }

    /// Record one outgoing packet of `num_bytes`, sent at `now_ms`.
    pub fn add_tx(&mut self, num_bytes: u64, now_ms: u64)
        ensures
            *final(self) == spec_with_tx(*old(self), num_bytes, now_ms),
    {
        self.packets_tx = checked_increment(self.packets_tx, 1);
        self.bytes_tx = checked_increment(self.bytes_tx, num_bytes);
        if now_ms > self.last_tx {
            self.last_tx = now_ms;
        }
    }

    /// Record one incoming packet of `num_bytes`, received at `now_ms`.
    pub fn add_rx(&mut self, num_bytes: u64, now_ms: u64)
        ensures
            *final(self) == spec_with_rx(*old(self), num_bytes, now_ms),
    {
        self.packets_rx = checked_increment(self.packets_rx, 1);
        self.bytes_rx = checked_increment(self.bytes_rx, num_bytes);
        if now_ms > self.last_rx {
            self.last_rx = now_ms;
        }
    }

    /// Milliseconds of receive silence and of send silence as of `now_ms`,
    /// in that order; a clock reading older than the recorded timestamp
    /// counts as no silence at all.
    pub fn idle_durations(&self, now_ms: u64) -> (idle: (u64, u64))
        ensures
            idle.0 == if now_ms >= self.last_rx {
                (now_ms - self.last_rx) as u64
            } else {
                0u64
            },
            idle.1 == if now_ms >= self.last_tx {
                (now_ms - self.last_tx) as u64
            } else {
                0u64
            },
    {
        let rx: u64 = if now_ms >= self.last_rx {
            now_ms - self.last_rx
        } else {
            0
        };
        let tx: u64 = if now_ms >= self.last_tx {
            now_ms - self.last_tx
        } else {
            0
        };
        (rx, tx)
    }
}

/// `sat_add` as executable code.
fn checked_increment(a: u64, b: u64) -> (r: u64)
    ensures
        r == sat_add(a, b),
{
    if a <= u64::MAX - b {
        a + b
    } else {
        u64::MAX
    }
}

/// The stats after a whole sequence of sends, one packet per element of
/// `sizes`, the `i`-th sent at clock reading `times[i]`.
pub open spec fn spec_tx_sequence(s: PacketStats, sizes: Seq<u64>, times: Seq<u64>) -> PacketStats
    decreases sizes.len(),
{
    if sizes.len() == 0 || times.len() == 0 {
        s
    } else {
        spec_tx_sequence(
            spec_with_tx(s, sizes[0], times[0]),
            sizes.skip(1),
            times.skip(1),
        )
    }
}

/// Sum of a sequence of packet sizes.
pub open spec fn sum_sizes(sizes: Seq<u64>) -> int
    decreases sizes.len(),
{
    if sizes.len() == 0 {
        0
    } else {
        sizes[0] + sum_sizes(sizes.skip(1))
    }
}

/// A sum of packet sizes is never negative.
pub proof fn lemma_sum_sizes_nonneg(sizes: Seq<u64>)
    ensures
        sum_sizes(sizes) >= 0,
    decreases sizes.len(),
{
    if sizes.len() > 0 {
        lemma_sum_sizes_nonneg(sizes.skip(1));
    }
}

/// After sending `N` packets of sizes `s1..sN`, the counters read
/// `packets_tx = N` more and `bytes_tx = sum(si)` more than before, and
/// `last_tx` is monotonically non-decreasing across the whole sequence.
pub proof fn lemma_tx_sequence(s: PacketStats, sizes: Seq<u64>, times: Seq<u64>)
    requires
        sizes.len() == times.len(),
        s.packets_tx + sizes.len() <= u64::MAX,
        s.bytes_tx + sum_sizes(sizes) <= u64::MAX,
    ensures
        spec_tx_sequence(s, sizes, times).packets_tx == s.packets_tx + sizes.len(),
        spec_tx_sequence(s, sizes, times).bytes_tx == s.bytes_tx + sum_sizes(sizes),
        spec_tx_sequence(s, sizes, times).last_tx >= s.last_tx,
        spec_tx_sequence(s, sizes, times).packets_rx == s.packets_rx,
        spec_tx_sequence(s, sizes, times).bytes_rx == s.bytes_rx,
    decreases sizes.len(),
{
    if sizes.len() == 0 {
    } else {
        let s1 = spec_with_tx(s, sizes[0], times[0]);
        lemma_sum_sizes_nonneg(sizes.skip(1));
        lemma_tx_sequence(s1, sizes.skip(1), times.skip(1));
    }
}

} // verus!
