//! Bandwidth estimation for congestion control.
//!
//! Instants are nanoseconds since an origin the caller picks; durations are
//! nanoseconds. The difference of two instants saturates at zero, as the
//! difference of two `std::time::Instant`s does.
use vstd::prelude::*;

verus! {

/// Length of the window of the bottleneck bandwidth max filter: 10 seconds.
pub const BTLBW_FILTER_LEN: u64 = 10_000_000_000;

/// Nanoseconds in a second.
pub const NANOS_PER_SEC: u64 = 1_000_000_000;

/// `later - earlier`, or zero when `earlier` comes after `later`.
pub open spec fn elapsed(later: u64, earlier: u64) -> u64 {
    if later >= earlier {
        (later - earlier) as u64
    } else {
        0
    }
}

/// Bytes per second of `bytes` sent over `delta` nanoseconds (zero for an
/// empty interval).
pub open spec fn spec_bandwidth(bytes: u64, delta: u64) -> u64 {
    if delta == 0 {
        0
    } else {
        (bytes * NANOS_PER_SEC / (delta as int)) as u64
    }
}

/// Bytes per second of `bytes` sent over `delta` nanoseconds; zero when the
/// interval is empty.
pub fn bandwidth_from_delta(bytes: u64, delta: u64) -> (r: u64)
    requires
        delta > 0 ==> bytes * NANOS_PER_SEC <= u64::MAX,
    ensures
        r == spec_bandwidth(bytes, delta),
{
    if delta == 0 {
        return 0;
    }
    let b_ns = bytes * NANOS_PER_SEC;
    b_ns / delta
}

/// One measurement of a windowed min/max filter.
#[derive(Debug, Clone, Copy, PartialEq, Eq)]
pub struct MinMaxSample {
    pub time: u64,
    pub value: u64,
}

/// Kathleen Nichols' windowed filter, here tracking the maximum: the best,
/// second best and third best samples of the last window.
#[derive(Debug, Clone, Copy)]
pub struct MinMax {
    pub samples: [MinMaxSample; 3],
}

/// The three samples of the filter, best first.
pub type Samples = (MinMaxSample, MinMaxSample, MinMaxSample);

/// As time advances, the second and third choices move up.
pub open spec fn spec_subwin_update(s: Samples, window: u64, sample: MinMaxSample) -> Samples {
    let dt = elapsed(sample.time, s.0.time);
    if dt > window {
        let shifted = (s.1, s.2, sample);
        if elapsed(sample.time, shifted.0.time) > window {
            (shifted.1, shifted.2, sample)
        } else {
            shifted
        }
    } else if s.1.time == s.0.time && dt > window / 4 {
        (s.0, sample, sample)
    } else if s.2.time == s.1.time && dt > window / 2 {
        (s.0, s.1, sample)
    } else {
        s
    }
}

/// The samples after `update_max(window, time, value)`.
pub open spec fn spec_update_max(s: Samples, window: u64, time: u64, value: u64) -> Samples {
    let sample = MinMaxSample { time, value };
    if value >= s.0.value || elapsed(time, s.2.time) > window {
        (sample, sample, sample)
    } else {
        let placed = if value >= s.1.value {
            (s.0, sample, sample)
        } else if value <= s.2.value {
            (s.0, s.1, sample)
        } else {
            s
        };
        spec_subwin_update(placed, window, sample)
    }
}

impl MinMax {
    pub open spec fn samples_view(&self) -> Samples {
        (self.samples[0], self.samples[1], self.samples[2])
    }

    /// A filter whose three samples hold zero, taken at `now`.
    pub fn new(now: u64) -> (r: Self)
        ensures
            r.samples_view() == (MinMaxSample { time: now, value: 0 }, MinMaxSample {
                time: now,
                value: 0,
            }, MinMaxSample { time: now, value: 0 }),
    {
        let s = MinMaxSample { value: 0, time: now };
        MinMax { samples: [s, s, s] }
    }

    /// The best value of the window.
    pub fn get(&self) -> (r: u64)
        ensures
            r == self.samples_view().0.value,
    {
        self.samples[0].value
    }

    /// Replaces the three samples by one measurement.
    pub fn fill(&mut self, value: u64, time: u64)
        ensures
            final(self).samples_view() == (MinMaxSample { time, value }, MinMaxSample {
                time,
                value,
            }, MinMaxSample { time, value }),
    {
        let s = MinMaxSample { time, value };
        self.samples = [s, s, s];
    }

    /// Adds a measurement; a new maximum, or a window without samples,
    /// restarts the filter from it.
    pub fn update_max(&mut self, window: u64, time: u64, value: u64)
        ensures
            final(self).samples_view() == spec_update_max(old(self).samples_view(), window, time, value),
            value >= old(self).samples_view().0.value ==> final(self).samples_view().0.value == value,
    {
        let sample = MinMaxSample { time, value };
        let dt = if time >= self.samples[2].time {
            time - self.samples[2].time
        } else {
            0
        };
        if sample.value >= self.samples[0].value || dt > window {
            self.fill(value, time);
            return;
        }
        if sample.value >= self.samples[1].value {
            self.samples = [self.samples[0], sample, sample];
        } else if sample.value <= self.samples[2].value {
            self.samples = [self.samples[0], self.samples[1], sample];
        }
        self.subwin_update(window, sample);
    }

    fn subwin_update(&mut self, window: u64, sample: MinMaxSample)
        ensures
            final(self).samples_view() == spec_subwin_update(old(self).samples_view(), window, sample),
    {
        let dt = if sample.time >= self.samples[0].time {
            sample.time - self.samples[0].time
        } else {
            0
        };
        if dt > window {
            self.samples = [self.samples[1], self.samples[2], sample];
            let dt2 = if sample.time >= self.samples[0].time {
                sample.time - self.samples[0].time
            } else {
                0
            };
            if dt2 > window {
                self.samples = [self.samples[1], self.samples[2], sample];
            }
        } else if self.samples[1].time == self.samples[0].time && dt > window / 4 {
            self.samples = [self.samples[0], sample, sample];
        } else if self.samples[2].time == self.samples[1].time && dt > window / 2 {
            self.samples = [self.samples[0], self.samples[1], sample];
        }
    }
}

/// Estimates the bottleneck bandwidth from the rates at which bytes are
/// sent and acknowledged.
pub struct BandwidthEstimation {
    pub total_acked: u64,
    pub prev_total_acked: u64,
    pub acked_time: Option<u64>,
    pub prev_acked_time: Option<u64>,
    pub total_sent: u64,
    pub prev_total_sent: u64,
    pub sent_time: u64,
    pub prev_sent_time: Option<u64>,
    pub max_filter: MinMax,
    pub acked_at_last_window: u64,
}

/// The rate at which the last burst was sent, or `u64::MAX` (no limit) when
/// no time passed between the last two sends.
pub open spec fn spec_send_rate(e: BandwidthEstimation, prev_sent_time: u64) -> u64 {
    if e.sent_time > prev_sent_time {
        spec_bandwidth((e.total_sent - e.prev_total_sent) as u64, (e.sent_time - prev_sent_time) as u64)
    } else {
        u64::MAX
    }
}

/// The estimate after `bytes` acknowledged at `now`: the smaller of the send
/// and ack rates when it beats the current estimate and the sender was not
/// application limited; else the current estimate. Before any burst was
/// sent the estimate stays.
pub open spec fn estimate_after_ack(e: BandwidthEstimation, now: u64, bytes: u64, app_limited: bool) -> u64 {
    let current = e.max_filter.samples_view().0.value;
    match e.prev_sent_time {
        None => current,
        Some(pst) => {
            let send_rate = spec_send_rate(e, pst);
            let ack_rate = match e.acked_time {
                Some(t) => spec_bandwidth(bytes, elapsed(now, t)),
                None => 0,
            };
            let bandwidth = if send_rate < ack_rate {
                send_rate
            } else {
                ack_rate
            };
            if !app_limited && current < bandwidth {
                bandwidth
            } else {
                current
            }
        },
    }
}

/// The estimate never decreases when an acknowledgement is recorded: it is
/// the larger of the current estimate and the new rate, or the current one.
pub proof fn lemma_estimate_never_decreases(e: BandwidthEstimation, now: u64, bytes: u64, app_limited: bool)
    ensures
        estimate_after_ack(e, now, bytes, app_limited) >= e.max_filter.samples_view().0.value,
{
}

/// Bytes acknowledged along a run of acknowledgements.
pub open spec fn sum_acked(bytes: Seq<u64>) -> nat
    decreases bytes.len(),
{
    if bytes.len() == 0 {
        0
    } else {
        sum_acked(bytes.drop_last()) + bytes.last() as nat
    }
}

/// After a window is closed, the bytes acknowledged in it are the sum of
/// the acknowledgements recorded since: along a run of states from the
/// closing, each recording `bytes[j]` as `on_ack` does, the window holds
/// their sum.
pub proof fn lemma_window_sums_acks(chain: Seq<BandwidthEstimation>, bytes: Seq<u64>)
    requires
        chain.len() == bytes.len() + 1,
        chain[0].acked_at_last_window == chain[0].total_acked,
        forall|j: int|
            0 <= j < bytes.len() ==> #[trigger] chain[j + 1].total_acked == chain[j].total_acked + bytes[j]
                && chain[j + 1].acked_at_last_window == chain[j].acked_at_last_window,
    ensures
        chain.last().total_acked - chain.last().acked_at_last_window == sum_acked(bytes),
    decreases bytes.len(),
{
    if bytes.len() > 0 {
        let k = bytes.len() - 1;
        let c2 = chain.drop_last();
        let b2 = bytes.drop_last();
        assert forall|j: int| 0 <= j < b2.len() implies #[trigger] c2[j + 1].total_acked == c2[j].total_acked + b2[j]
            && c2[j + 1].acked_at_last_window == c2[j].acked_at_last_window by {
            assert(c2[j + 1] == chain[j + 1]);
            assert(c2[j] == chain[j]);
            assert(b2[j] == bytes[j]);
        }
        lemma_window_sums_acks(c2, b2);
        assert(chain[k + 1].total_acked == chain[k].total_acked + bytes[k]);
        assert(c2.last() == chain[k]);
    }
}

impl BandwidthEstimation {
    /// Records `bytes` sent at `now`.
    pub fn on_sent(&mut self, now: u64, bytes: u64)
        requires
            old(self).total_sent + bytes <= u64::MAX,
        ensures
            final(self).prev_total_sent == old(self).total_sent,
            final(self).total_sent == old(self).total_sent + bytes,
            final(self).prev_sent_time == Some(old(self).sent_time),
            final(self).sent_time == now,
            final(self).total_acked == old(self).total_acked,
            final(self).prev_total_acked == old(self).prev_total_acked,
            final(self).acked_time == old(self).acked_time,
            final(self).prev_acked_time == old(self).prev_acked_time,
            final(self).max_filter == old(self).max_filter,
            final(self).acked_at_last_window == old(self).acked_at_last_window,
    {
        self.prev_total_sent = self.total_sent;
        self.total_sent = self.total_sent + bytes;
        self.prev_sent_time = Some(self.sent_time);
        self.sent_time = now;
    }

    /// Records `bytes` acknowledged at `now`; unless the sender was
    /// application limited, the smaller of the send and ack rates feeds the
    /// max filter when it beats its best value.
    pub fn on_ack(&mut self, now: u64, bytes: u64, app_limited: bool)
        requires
            old(self).total_acked + bytes <= u64::MAX,
            old(self).prev_sent_time matches Some(t) && old(self).sent_time > t ==> old(
                self,
            ).total_sent >= old(self).prev_total_sent && (old(self).total_sent - old(
                self,
            ).prev_total_sent) * NANOS_PER_SEC <= u64::MAX,
            old(self).prev_sent_time is Some ==> (old(self).acked_time matches Some(t) && elapsed(now, t)
                > 0 ==> bytes * NANOS_PER_SEC <= u64::MAX),
        ensures
            final(self).prev_total_acked == old(self).total_acked,
            final(self).total_acked == old(self).total_acked + bytes,
            final(self).prev_acked_time == old(self).acked_time,
            final(self).acked_time == Some(now),
            final(self).total_sent == old(self).total_sent,
            final(self).prev_total_sent == old(self).prev_total_sent,
            final(self).sent_time == old(self).sent_time,
            final(self).prev_sent_time == old(self).prev_sent_time,
            final(self).acked_at_last_window == old(self).acked_at_last_window,
            final(self).max_filter.samples_view().0.value == estimate_after_ack(*old(self), now, bytes, app_limited),
            ({
                let filter = old(self).max_filter.samples_view();
                match old(self).prev_sent_time {
                    None => final(self).max_filter.samples_view() == filter,
                    Some(pst) => {
                        let send_rate = spec_send_rate(*old(self), pst);
                        let ack_rate = match old(self).acked_time {
                            Some(t) => spec_bandwidth(bytes, elapsed(now, t)),
                            None => 0,
                        };
                        let bandwidth = if send_rate < ack_rate {
                            send_rate
                        } else {
                            ack_rate
                        };
                        if !app_limited && filter.0.value < bandwidth {
                            final(self).max_filter.samples_view() == spec_update_max(
                                filter,
                                BTLBW_FILTER_LEN,
                                now,
                                bandwidth,
                            )
                        } else {
                            final(self).max_filter.samples_view() == filter
                        }
                    },
                }
            }),
    {
        self.prev_total_acked = self.total_acked;
        self.total_acked = self.total_acked + bytes;
        self.prev_acked_time = self.acked_time;
        self.acked_time = Some(now);
        let prev_sent_time = match self.prev_sent_time {
            Some(t) => t,
            None => return,
        };
        let send_rate = if self.sent_time > prev_sent_time {
            bandwidth_from_delta(self.total_sent - self.prev_total_sent, self.sent_time - prev_sent_time)
        } else {
            u64::MAX
        };
        let ack_rate = match self.prev_acked_time {
            Some(prev_acked_time) => {
                let delta = if now >= prev_acked_time {
                    now - prev_acked_time
                } else {
                    0
                };
                bandwidth_from_delta(self.total_acked - self.prev_total_acked, delta)
            },
            None => 0,
        };
        let bandwidth = if send_rate < ack_rate {
            send_rate
        } else {
            ack_rate
        };
        if !app_limited && self.max_filter.get() < bandwidth {
            self.max_filter.update_max(BTLBW_FILTER_LEN, now, bandwidth);
        }
    }

    /// Bytes acknowledged since the window was last closed.
    pub fn bytes_acked_this_window(&self) -> (r: u64)
        requires
            self.total_acked >= self.acked_at_last_window,
        ensures
            r == self.total_acked - self.acked_at_last_window,
    {
        self.total_acked - self.acked_at_last_window
    }

    /// Closes the current window of acknowledgements.
    pub fn end_acks(&mut self, _current_round: u64, _app_limited: bool)
        ensures
            final(self).acked_at_last_window == old(self).total_acked,
            final(self).total_acked == old(self).total_acked,
            final(self).prev_total_acked == old(self).prev_total_acked,
            final(self).acked_time == old(self).acked_time,
            final(self).prev_acked_time == old(self).prev_acked_time,
            final(self).total_sent == old(self).total_sent,
            final(self).prev_total_sent == old(self).prev_total_sent,
            final(self).sent_time == old(self).sent_time,
            final(self).prev_sent_time == old(self).prev_sent_time,
            final(self).max_filter == old(self).max_filter,
    {
        self.acked_at_last_window = self.total_acked;
    }

    /// The estimated bottleneck bandwidth, in bytes per second.
    pub fn get_estimate(&self) -> (r: u64)
        ensures
            r == self.max_filter.samples_view().0.value,
    {
        self.max_filter.get()
    }
}

} // verus!
