//! Byte counters: totals that never fall, and what a sliding window holds.

use vstd::prelude::*;

verus! {

/// Bytes seen at one moment, in milliseconds on a monotonic clock.
#[derive(Debug, Clone, Copy, PartialEq, Eq, Structural)]
pub struct Sample {
    pub at_ms: u64,
    pub bytes: u64,
}

/// The bytes of the last `window_ms` milliseconds.
#[derive(Debug)]
pub struct WindowCounter {
    pub window_ms: u64,
    pub samples: Vec<Sample>,
}

/// The larger a sum may grow.
pub open spec fn capped(n: int) -> u64 {
    if n > u64::MAX {
        u64::MAX
    } else {
        n as u64
    }
}

/// Whether a sample is still in the window at `now_ms`.
pub open spec fn is_live(s: Sample, window_ms: u64, now_ms: u64) -> bool {
    now_ms <= s.at_ms || now_ms - s.at_ms <= window_ms
}

/// The samples still in the window.
pub open spec fn live_samples(samples: Seq<Sample>, window_ms: u64, now_ms: u64) -> Seq<Sample>
    decreases samples.len(),
{
    if samples.len() == 0 {
        samples
    } else {
        let front = live_samples(samples.drop_last(), window_ms, now_ms);
        if is_live(samples.last(), window_ms, now_ms) {
            front.push(samples.last())
        } else {
            front
        }
    }
}

/// The bytes of several samples; a sum that would overflow stays at the
/// maximum.
pub open spec fn sample_bytes(samples: Seq<Sample>) -> u64
    decreases samples.len(),
{
    if samples.len() == 0 {
        0
    } else {
        capped(sample_bytes(samples.drop_last()) + samples.last().bytes)
    }
}

impl WindowCounter {
    /// An empty window of `window_ms` milliseconds.
    pub fn new(window_ms: u64) -> (c: WindowCounter)
        ensures
            c.window_ms == window_ms,
            c.samples@ == Seq::<Sample>::empty(),
    {
        WindowCounter { window_ms, samples: Vec::new() }
    }

    /// Count `bytes` at `now_ms`.
    pub fn add_bytes(&mut self, bytes: u64, now_ms: u64)
        ensures
            final(self).window_ms == old(self).window_ms,
            final(self).samples@ == old(self).samples@.push(Sample { at_ms: now_ms, bytes }),
    {
        self.samples.push(Sample { at_ms: now_ms, bytes });
    }

    /// Forget what has left the window.
    pub fn refresh(&mut self, now_ms: u64)
        ensures
            final(self).window_ms == old(self).window_ms,
            final(self).samples@ == live_samples(old(self).samples@, old(self).window_ms, now_ms),
    {
        let mut kept: Vec<Sample> = Vec::new();
        let mut i: usize = 0;
        let ghost all = self.samples@;
        assert(all.take(0) == Seq::<Sample>::empty());
        while i < self.samples.len()
            invariant
                i <= self.samples.len(),
                self.samples@ == all,
                self.window_ms == old(self).window_ms,
                kept@ == live_samples(all.take(i as int), self.window_ms, now_ms),
            decreases self.samples.len() - i,
        {
            assert(all.take(i + 1).drop_last() == all.take(i as int));
            let s = self.samples[i];
            if now_ms <= s.at_ms || now_ms - s.at_ms <= self.window_ms {
                kept.push(s);
            }
            i = i + 1;
        }
        assert(all.take(all.len() as int) == all);
        self.samples = kept;
    }

    /// The bytes in the window.
    pub fn bytes(&self) -> (n: u64)
        ensures
            n == sample_bytes(self.samples@),
    {
        let mut n: u64 = 0;
        let mut i: usize = 0;
        let ghost all = self.samples@;
        assert(all.take(0) == Seq::<Sample>::empty());
        while i < self.samples.len()
            invariant
                i <= self.samples.len(),
                all == self.samples@,
                n == sample_bytes(all.take(i as int)),
            decreases self.samples.len() - i,
        {
            assert(all.take(i + 1).drop_last() == all.take(i as int));
            n = n.saturating_add(self.samples[i].bytes);
            i = i + 1;
        }
        assert(all.take(all.len() as int) == all);
        n
    }
}

/// A device's traffic: totals in each direction and the current rate.
#[derive(Debug)]
pub struct BandwidthStats {
    pub total_rx_bytes: u64,
    pub total_tx_bytes: u64,
    /// Bytes per second over the window, as of the last refresh.
    pub current_bps: u64,
    pub window: WindowCounter,
}

/// The window that rates are taken over.
pub const WINDOW_MS: u64 = 10_000;

impl BandwidthStats {
    /// No traffic yet.
    pub fn new() -> (s: BandwidthStats)
        ensures
            s.total_rx_bytes == 0,
            s.total_tx_bytes == 0,
            s.current_bps == 0,
            s.window.window_ms == WINDOW_MS,
            s.window.samples@ == Seq::<Sample>::empty(),
    {
        BandwidthStats {
            total_rx_bytes: 0,
            total_tx_bytes: 0,
            current_bps: 0,
            window: WindowCounter::new(WINDOW_MS),
        }
    }

    /// Account bytes received. A total that would overflow stays at the
    /// maximum.
    pub fn update_rx(&mut self, bytes: u64, now_ms: u64)
        ensures
            final(self).total_rx_bytes == capped(old(self).total_rx_bytes + bytes),
            final(self).total_tx_bytes == old(self).total_tx_bytes,
            final(self).current_bps == old(self).current_bps,
            final(self).window.window_ms == old(self).window.window_ms,
            final(self).window.samples@ == old(self).window.samples@.push(Sample { at_ms: now_ms, bytes }),
    {
        self.total_rx_bytes = self.total_rx_bytes.saturating_add(bytes);
        self.window.add_bytes(bytes, now_ms);
    }

    /// Account bytes sent.
    pub fn update_tx(&mut self, bytes: u64, now_ms: u64)
        ensures
            final(self).total_tx_bytes == capped(old(self).total_tx_bytes + bytes),
            final(self).total_rx_bytes == old(self).total_rx_bytes,
            final(self).current_bps == old(self).current_bps,
            final(self).window.window_ms == old(self).window.window_ms,
            final(self).window.samples@ == old(self).window.samples@.push(Sample { at_ms: now_ms, bytes }),
    {
        self.total_tx_bytes = self.total_tx_bytes.saturating_add(bytes);
        self.window.add_bytes(bytes, now_ms);
    }

    /// Let the rate decay: what left the window no longer counts.
    pub fn refresh(&mut self, now_ms: u64)
        ensures
            final(self).total_rx_bytes == old(self).total_rx_bytes,
            final(self).total_tx_bytes == old(self).total_tx_bytes,
            final(self).window.window_ms == old(self).window.window_ms,
            final(self).window.samples@ == live_samples(
                old(self).window.samples@,
                old(self).window.window_ms,
                now_ms,
            ),
            final(self).current_bps == rate_per_second(
                sample_bytes(final(self).window.samples@),
                old(self).window.window_ms,
            ),
    {
        self.window.refresh(now_ms);
        let bytes = self.window.bytes();
        if self.window.window_ms == 0 {
            self.current_bps = 0;
        } else {
            let rate: u128 = bytes as u128 * 1000 / self.window.window_ms as u128;
            self.current_bps = if rate > u64::MAX as u128 { u64::MAX } else { rate as u64 };
        }
    }
}

/// Bytes over a window, per second, rounded down.
pub open spec fn rate_per_second(bytes: u64, window_ms: u64) -> u64 {
    if window_ms == 0 {
        0
    } else {
        capped(bytes * 1000 / (window_ms as int))
    }
}

} // verus!
