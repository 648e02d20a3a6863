//! RTT estimation, wire timestamps, and the monotonic send scheduler.
use vstd::prelude::*;

use crate::limits::{
    HEARTBEAT_INTERVAL_MS, INITIAL_RETRANSMISSION_TIMEOUT_MS, MAX_ACKNOWLEDGEMENT_DELAY_MS,
    MAX_FRAME_INTERVAL_MS, MAX_RETRANSMISSION_TIMEOUT_MS, MAX_RTT_SAMPLE_MS,
    MAX_TIMESTAMP_REPLY_AGE_MS, MIN_FRAME_INTERVAL_MS, MIN_RETRANSMISSION_TIMEOUT_MS,
    STATE_CHANGE_COLLECTION_MS,
};

verus! {

/// Clock granularity, in milliseconds, used as the smallest RTT variation term.
pub const CLOCK_GRANULARITY_MS: u64 = 1;
/// The 16-bit wire clock wraps at this modulus.
pub const TIMESTAMP_MODULUS: u64 = 65536;
/// The wire value that means "no timestamp reply".
pub const NO_TIMESTAMP_REPLY: u16 = 0xffff;

/// Why a timing step was refused.
#[derive(Clone, Copy, Debug, PartialEq, Eq, Structural)]
pub enum TimingError {
    TimeMovedBackwards,
    TimerExhausted,
    InvalidRttSample,
    StalePlan,
    GenerationExhausted,
}

/// `a / b` rounded up.
pub open spec fn div_ceil(a: nat, b: nat) -> nat {
    ((a + b - 1) as nat) / b
}

/// `v` limited to `lo..=hi`.
pub open spec fn clamp(v: nat, lo: nat, hi: nat) -> nat {
    if v < lo {
        lo
    } else if v > hi {
        hi
    } else {
        v
    }
}

/// The retransmission timeout for a smoothed RTT and RTT variation, both in
/// eighths of a millisecond: `SRTT + max(G, 4 * RTTVAR)`, rounded up to whole
/// milliseconds and bounded.
pub open spec fn rto_spec(smoothed_eighths: nat, variation_eighths: nat) -> nat {
    let variation = 4 * variation_eighths;
    let granularity = (CLOCK_GRANULARITY_MS * 8) as nat;
    let term = if variation > granularity {
        variation
    } else {
        granularity
    };
    clamp(
        div_ceil(smoothed_eighths + term, 8),
        MIN_RETRANSMISSION_TIMEOUT_MS as nat,
        MAX_RETRANSMISSION_TIMEOUT_MS as nat,
    )
}

/// The distance between two values.
pub open spec fn abs_diff(a: nat, b: nat) -> nat {
    if a >= b {
        (a - b) as nat
    } else {
        (b - a) as nat
    }
}

/// The TCP-style update of `(SRTT, RTTVAR)` in eighths of a millisecond for one sample:
/// the first sample sets `SRTT = R` and `RTTVAR = R / 2`; later samples use
/// `RTTVAR = (3 RTTVAR + |SRTT - R|) / 4` and `SRTT = (7 SRTT + R) / 8`.
pub open spec fn rtt_update(smoothed: Option<u64>, variation: u64, sample_ms: nat) -> (nat, nat) {
    let sample = 8 * sample_ms;
    match smoothed {
        None => (sample, 4 * sample_ms),
        Some(s) => ((7 * s as nat + sample) / 8, (3 * variation as nat + abs_diff(s as nat, sample)) / 4),
    }
}

/// Integer implementation of the TCP-style SRTT and RTTVAR update, stored in
/// eighths of a millisecond.
#[derive(Clone, Copy, Debug, PartialEq, Eq)]
pub struct RttEstimator {
    smoothed_rtt_eighths: Option<u64>,
    rtt_variation_eighths: u64,
    retransmission_timeout_ms: u64,
}

impl RttEstimator {
    pub closed spec fn smoothed_eighths(&self) -> Option<u64> {
        self.smoothed_rtt_eighths
    }

    pub closed spec fn variation_eighths(&self) -> u64 {
        self.rtt_variation_eighths
    }

    pub closed spec fn rto(&self) -> u64 {
        self.retransmission_timeout_ms
    }

    /// Both stored terms stay within eight times the largest sample, and the
    /// timeout matches them.
    pub closed spec fn wf(&self) -> bool {
        &&& self.rtt_variation_eighths <= 8 * MAX_RTT_SAMPLE_MS
        &&& match self.smoothed_rtt_eighths {
            None => self.retransmission_timeout_ms == INITIAL_RETRANSMISSION_TIMEOUT_MS,
            Some(s) => s <= 8 * MAX_RTT_SAMPLE_MS && self.retransmission_timeout_ms == rto_spec(
                s as nat,
                self.rtt_variation_eighths as nat,
            ),
        }
    }

    /// The smoothed RTT in whole milliseconds, rounded up.
    pub open spec fn smoothed_ms_spec(&self) -> Option<u64> {
        match self.smoothed_eighths() {
            Some(value) => Some(div_ceil(value as nat, 8) as u64),
            None => None,
        }
    }

    /// Half the smoothed RTT, rounded up and bounded, or the largest interval
    /// before any sample.
    pub open spec fn frame_interval_spec(&self) -> u64 {
        match self.smoothed_ms_spec() {
            None => MAX_FRAME_INTERVAL_MS,
            Some(s) => clamp(
                div_ceil(s as nat, 2),
                MIN_FRAME_INTERVAL_MS as nat,
                MAX_FRAME_INTERVAL_MS as nat,
            ) as u64,
        }
    }

    /// Whatever samples were observed, the retransmission timeout stays
    /// between its smallest and largest values, and the frame interval
    /// between its own.
    pub proof fn law_timeouts_are_bounded(&self)
        requires
            self.wf(),
        ensures
            MIN_RETRANSMISSION_TIMEOUT_MS <= self.rto() <= MAX_RETRANSMISSION_TIMEOUT_MS,
            MIN_FRAME_INTERVAL_MS <= self.frame_interval_spec() <= MAX_FRAME_INTERVAL_MS,
    {
    }

    /// An estimator with no sample yet.
    pub fn new() -> (r: Self)
        ensures
            r.wf(),
            r.smoothed_eighths() is None,
            r.variation_eighths() == 0,
            r.rto() == INITIAL_RETRANSMISSION_TIMEOUT_MS,
    {
        RttEstimator {
            smoothed_rtt_eighths: None,
            rtt_variation_eighths: 0,
            retransmission_timeout_ms: INITIAL_RETRANSMISSION_TIMEOUT_MS,
        }
    }

    /// The smoothed RTT in milliseconds, once sampled.
    pub fn smoothed_rtt_ms(&self) -> (r: Option<u64>)
        requires
            self.wf(),
        ensures
            r == self.smoothed_ms_spec(),
    {
        match self.smoothed_rtt_eighths {
            Some(value) => Some((value + 7) / 8),
            None => None,
        }
    }

    /// The current retransmission timeout.
    pub fn retransmission_timeout_ms(&self) -> (r: u64)
        requires
            self.wf(),
        ensures
            r == self.rto(),
            MIN_RETRANSMISSION_TIMEOUT_MS <= r <= MAX_RETRANSMISSION_TIMEOUT_MS,
    {
        self.retransmission_timeout_ms
    }

    /// The current frame interval.
    pub fn frame_interval_ms(&self) -> (r: u64)
        requires
            self.wf(),
        ensures
            r == self.frame_interval_spec(),
            MIN_FRAME_INTERVAL_MS <= r <= MAX_FRAME_INTERVAL_MS,
    {
        let half = match self.smoothed_rtt_ms() {
            Some(smoothed) => (smoothed + 1) / 2,
            None => MAX_FRAME_INTERVAL_MS,
        };
        if half < MIN_FRAME_INTERVAL_MS {
            MIN_FRAME_INTERVAL_MS
        } else if half > MAX_FRAME_INTERVAL_MS {
            MAX_FRAME_INTERVAL_MS
        } else {
            half
        }
    }

    /// Adds one RTT sample; samples above the plausible bound are rejected.
    pub fn observe_sample(&mut self, sample_ms: u64) -> (r: Result<(), TimingError>)
        requires
            old(self).wf(),
        ensures
            final(self).wf(),
            sample_ms > MAX_RTT_SAMPLE_MS ==> r == Err::<(), TimingError>(
                TimingError::InvalidRttSample,
            ) && *final(self) == *old(self),
            sample_ms <= MAX_RTT_SAMPLE_MS ==> r is Ok && ({
                let (s, v) = rtt_update(
                    old(self).smoothed_eighths(),
                    old(self).variation_eighths(),
                    sample_ms as nat,
                );
                &&& final(self).smoothed_eighths() == Some(s as u64)
                &&& final(self).variation_eighths() == v
                &&& final(self).rto() == rto_spec(s, v)
            }),
    {
        if sample_ms > MAX_RTT_SAMPLE_MS {
            return Err(TimingError::InvalidRttSample);
        }
        let sample_eighths = sample_ms * 8;
        match self.smoothed_rtt_eighths {
            None => {
                self.smoothed_rtt_eighths = Some(sample_eighths);
                self.rtt_variation_eighths = sample_ms * 4;
            },
            Some(smoothed) => {
                let deviation = if smoothed >= sample_eighths {
                    smoothed - sample_eighths
                } else {
                    sample_eighths - smoothed
                };
                self.rtt_variation_eighths = (self.rtt_variation_eighths * 3 + deviation) / 4;
                self.smoothed_rtt_eighths = Some((smoothed * 7 + sample_eighths) / 8);
            },
        }
        self.retransmission_timeout_ms = Self::calculate_rto_ms(
            self.smoothed_rtt_eighths.unwrap(),
            self.rtt_variation_eighths,
        );
        Ok(())
    }

    fn calculate_rto_ms(smoothed: u64, variation_eighths: u64) -> (r: u64)
        requires
            smoothed <= 8 * MAX_RTT_SAMPLE_MS,
            variation_eighths <= 8 * MAX_RTT_SAMPLE_MS,
        ensures
            r == rto_spec(smoothed as nat, variation_eighths as nat),
    {
        let variation = variation_eighths * 4;
        let granularity = CLOCK_GRANULARITY_MS * 8;
        let term = if variation > granularity {
            variation
        } else {
            granularity
        };
        let timeout = (smoothed + term + 7) / 8;
        if timeout < MIN_RETRANSMISSION_TIMEOUT_MS {
            MIN_RETRANSMISSION_TIMEOUT_MS
        } else if timeout > MAX_RETRANSMISSION_TIMEOUT_MS {
            MAX_RETRANSMISSION_TIMEOUT_MS
        } else {
            timeout
        }
    }
}

/// The timestamp and timestamp reply of an outgoing datagram.
#[derive(Clone, Copy, Debug, PartialEq, Eq, Structural)]
pub struct OutgoingTimestamps {
    pub timestamp: u16,
    pub timestamp_reply: Option<u16>,
}

/// Whether a received timestamp reply gave an RTT sample.
#[derive(Clone, Copy, Debug, PartialEq, Eq, Structural)]
pub enum RttSampleDisposition {
    Updated { sample_ms: u64 },
    NoReply,
    Reordered,
    Implausible,
}

/// The 16-bit wire clock reading for `now_ms`.
pub open spec fn wire_ms_spec(now_ms: u64) -> u16 {
    (now_ms % TIMESTAMP_MODULUS) as u16
}

/// The reply to echo at `now` for a timestamp received at `received_at`:
/// the timestamp advanced by the hold time, unless that time is too long or
/// the result is the reserved "no reply" value.
pub open spec fn reply_spec(last: Option<(u16, u64)>, now: u64) -> Option<u16> {
    match last {
        None => None,
        Some((timestamp, received_at)) => if now < received_at || now - received_at
            > MAX_TIMESTAMP_REPLY_AGE_MS {
            None
        } else {
            let reply = ((timestamp as nat + (now - received_at) as nat) % 65536) as u16;
            if reply == NO_TIMESTAMP_REPLY {
                None
            } else {
                Some(reply)
            }
        },
    }
}

/// The RTT sample that a reply carries when received at `now`.
pub open spec fn sample_spec(reply: u16, now: u64) -> nat {
    ((wire_ms_spec(now) as int - reply as int) % 65536) as nat
}

/// Converts authenticated wire timestamps into bounded RTT observations.
#[derive(Clone, Copy, Debug, PartialEq, Eq)]
pub struct DatagramTiming {
    estimator: RttEstimator,
    highest_received_sequence: Option<u64>,
    last_received_timestamp: Option<(u16, u64)>,
    last_observed_ms: u64,
}

/// The 16-bit wire form of a time in milliseconds.
pub fn wire_milliseconds(now_ms: u64) -> (r: u16)
    ensures
        r == wire_ms_spec(now_ms),
{
    (now_ms % TIMESTAMP_MODULUS) as u16
}

impl DatagramTiming {
    pub closed spec fn estimator_spec(&self) -> RttEstimator {
        self.estimator
    }

    pub closed spec fn highest_sequence(&self) -> Option<u64> {
        self.highest_received_sequence
    }

    pub closed spec fn last_received(&self) -> Option<(u16, u64)> {
        self.last_received_timestamp
    }

    pub closed spec fn last_observed(&self) -> u64 {
        self.last_observed_ms
    }

    pub closed spec fn wf(&self) -> bool {
        self.estimator.wf()
    }

    /// Timing that has seen time `started_at_ms`, with no datagram yet.
    pub fn new(started_at_ms: u64) -> (r: Self)
        ensures
            r.wf(),
            r.estimator_spec().smoothed_eighths() is None,
            r.estimator_spec().rto() == INITIAL_RETRANSMISSION_TIMEOUT_MS,
            r.highest_sequence() is None,
            r.last_received() is None,
            r.last_observed() == started_at_ms,
    {
        DatagramTiming {
            estimator: RttEstimator::new(),
            highest_received_sequence: None,
            last_received_timestamp: None,
            last_observed_ms: started_at_ms,
        }
    }

    /// The RTT estimator.
    pub fn estimator(&self) -> (r: &RttEstimator)
        requires
            self.wf(),
        ensures
            *r == self.estimator_spec(),
            r.wf(),
    {
        &self.estimator
    }

    /// The timestamps for a datagram sent at `now_ms`.
    pub fn outgoing(&mut self, now_ms: u64) -> (r: Result<OutgoingTimestamps, TimingError>)
        requires
            old(self).wf(),
        ensures
            final(self).wf(),
            now_ms < old(self).last_observed() ==> r == Err::<OutgoingTimestamps, TimingError>(
                TimingError::TimeMovedBackwards,
            ) && *final(self) == *old(self),
            now_ms >= old(self).last_observed() ==> r == Ok::<OutgoingTimestamps, TimingError>(
                OutgoingTimestamps {
                    timestamp: wire_ms_spec(now_ms),
                    timestamp_reply: reply_spec(old(self).last_received(), now_ms),
                },
            ) && final(self).last_observed() == now_ms && final(self).estimator_spec() == old(self).estimator_spec() && final(self).highest_sequence() == old(self).highest_sequence()
                && final(self).last_received() == old(self).last_received(),
    {
        self.observe_time(now_ms)?;
        let timestamp_reply = match self.last_received_timestamp {
            None => None,
            Some((timestamp, received_at_ms)) => {
                if now_ms < received_at_ms || now_ms - received_at_ms > MAX_TIMESTAMP_REPLY_AGE_MS {
                    None
                } else {
                    let age = (now_ms - received_at_ms) as u16;
                    let reply = timestamp.wrapping_add(age);
                    if reply == NO_TIMESTAMP_REPLY {
                        None
                    } else {
                        Some(reply)
                    }
                }
            },
        };
        Ok(OutgoingTimestamps { timestamp: wire_milliseconds(now_ms), timestamp_reply })
    }

    /// Records the timestamps of an authenticated datagram and, when it is the
    /// newest datagram so far and carries a plausible reply, one RTT sample.
    pub fn observe_received(
        &mut self,
        sequence: u64,
        timestamp: u16,
        timestamp_reply: Option<u16>,
        now_ms: u64,
    ) -> (r: Result<RttSampleDisposition, TimingError>)
        requires
            old(self).wf(),
        ensures
            final(self).wf(),
            now_ms < old(self).last_observed() ==> r == Err::<RttSampleDisposition, TimingError>(
                TimingError::TimeMovedBackwards,
            ) && *final(self) == *old(self),
            now_ms >= old(self).last_observed() ==> final(self).last_observed() == now_ms,
            now_ms >= old(self).last_observed() && (old(self).highest_sequence() matches Some(h)
                && sequence <= h) ==> r == Ok::<RttSampleDisposition, TimingError>(
                RttSampleDisposition::Reordered,
            ) && final(self).estimator_spec() == old(self).estimator_spec() && final(self).highest_sequence() == old(self).highest_sequence() && final(self).last_received()
                == old(self).last_received(),
            now_ms >= old(self).last_observed() && !(old(self).highest_sequence() matches Some(h)
                && sequence <= h) ==> {
                &&& final(self).highest_sequence() == Some(sequence)
                &&& final(self).last_received() == Some((timestamp, now_ms))
                &&& match timestamp_reply {
                    None => r == Ok::<RttSampleDisposition, TimingError>(
                        RttSampleDisposition::NoReply,
                    ) && final(self).estimator_spec() == old(self).estimator_spec(),
                    Some(reply) => if sample_spec(reply, now_ms) > MAX_RTT_SAMPLE_MS {
                        r == Ok::<RttSampleDisposition, TimingError>(
                            RttSampleDisposition::Implausible,
                        ) && final(self).estimator_spec() == old(self).estimator_spec()
                    } else {
                        let (s, v) = rtt_update(
                            old(self).estimator_spec().smoothed_eighths(),
                            old(self).estimator_spec().variation_eighths(),
                            sample_spec(reply, now_ms),
                        );
                        &&& r == Ok::<RttSampleDisposition, TimingError>(
                            RttSampleDisposition::Updated {
                                sample_ms: sample_spec(reply, now_ms) as u64,
                            },
                        )
                        &&& final(self).estimator_spec().smoothed_eighths() == Some(s as u64)
                        &&& final(self).estimator_spec().variation_eighths() == v
                        &&& final(self).estimator_spec().rto() == rto_spec(s, v)
                    },
                }
            },
    {
        self.observe_time(now_ms)?;
        if let Some(highest) = self.highest_received_sequence {
            if sequence <= highest {
                return Ok(RttSampleDisposition::Reordered);
            }
        }
        self.highest_received_sequence = Some(sequence);
        self.last_received_timestamp = Some((timestamp, now_ms));
        let reply = match timestamp_reply {
            None => {
                return Ok(RttSampleDisposition::NoReply);
            },
            Some(reply) => reply,
        };
        let sample_ms = wire_milliseconds(now_ms).wrapping_sub(reply) as u64;
        if sample_ms > MAX_RTT_SAMPLE_MS {
            return Ok(RttSampleDisposition::Implausible);
        }
        let _ = self.estimator.observe_sample(sample_ms);
        Ok(RttSampleDisposition::Updated { sample_ms })
    }

    fn observe_time(&mut self, now_ms: u64) -> (r: Result<(), TimingError>)
        requires
            old(self).wf(),
        ensures
            final(self).wf(),
            now_ms < old(self).last_observed() ==> r == Err::<(), TimingError>(
                TimingError::TimeMovedBackwards,
            ) && *final(self) == *old(self),
            now_ms >= old(self).last_observed() ==> r is Ok && *final(self) == (DatagramTiming {
                last_observed_ms: now_ms,
                ..*old(self)
            }),
    {
        if now_ms < self.last_observed_ms {
            return Err(TimingError::TimeMovedBackwards);
        }
        self.last_observed_ms = now_ms;
        Ok(())
    }
}

/// Why a send is due, as a set of bits.
#[derive(Clone, Copy, Debug, Default, PartialEq, Eq, Structural)]
pub struct SendReasons(pub u8);

/// The reason bits for the four possible causes of a send.
pub open spec fn reasons_bits(state: bool, retransmission: bool, acknowledgement: bool, heartbeat: bool) -> u8 {
    ((if state {
        1u8
    } else {
        0u8
    }) + (if retransmission {
        2u8
    } else {
        0u8
    }) + (if acknowledgement {
        4u8
    } else {
        0u8
    }) + (if heartbeat {
        8u8
    } else {
        0u8
    })) as u8
}

/// Setting the reason bits one by one gives their sum.
proof fn lemma_reason_bits(state: bool, retransmission: bool, acknowledgement: bool, heartbeat: bool)
    ensures
        ({
            let a: u8 = if state {
                0u8 | 1u8
            } else {
                0u8
            };
            let b: u8 = if retransmission {
                a | 2u8
            } else {
                a
            };
            let c: u8 = if acknowledgement {
                b | 4u8
            } else {
                b
            };
            let d: u8 = if heartbeat {
                c | 8u8
            } else {
                c
            };
            d == reasons_bits(state, retransmission, acknowledgement, heartbeat)
        }),
{
    let s: u8 = if state { 1 } else { 0 };
    let r: u8 = if retransmission { 2 } else { 0 };
    let k: u8 = if acknowledgement { 4 } else { 0 };
    let h: u8 = if heartbeat { 8 } else { 0 };
    assert((((0u8 | s) | r) | k) | h == s + r + k + h) by (bit_vector)
        requires
            s == 0 || s == 1,
            r == 0 || r == 2,
            k == 0 || k == 4,
            h == 0 || h == 8,
    ;
    assert(0u8 | 0u8 == 0u8) by (bit_vector);
    assert(((0u8 | s) | r) == s + r) by (bit_vector)
        requires
            s == 0 || s == 1,
            r == 0 || r == 2,
    ;
    assert((((0u8 | s) | r) | k) == s + r + k) by (bit_vector)
        requires
            s == 0 || s == 1,
            r == 0 || r == 2,
            k == 0 || k == 4,
    ;
    assert(0u8 | r == r) by (bit_vector);
    assert(0u8 | s == s) by (bit_vector);
    assert((0u8 | r) | k == r + k) by (bit_vector)
        requires
            r == 0 || r == 2,
            k == 0 || k == 4,
    ;
}

impl SendReasons {
    /// A send is due because local state changed.
    pub fn state_change() -> (r: SendReasons)
        ensures
            r.0 == 1,
    {
        SendReasons(1)
    }

    /// A send is due because a sent state was not acknowledged in time.
    pub fn retransmission() -> (r: SendReasons)
        ensures
            r.0 == 2,
    {
        SendReasons(2)
    }

    /// A send is due to acknowledge a received state.
    pub fn acknowledgement() -> (r: SendReasons)
        ensures
            r.0 == 4,
    {
        SendReasons(4)
    }

    /// A send is due to keep the session alive.
    pub fn heartbeat() -> (r: SendReasons)
        ensures
            r.0 == 8,
    {
        SendReasons(8)
    }

    /// Every reason at once.
    pub fn all() -> (r: SendReasons)
        ensures
            r.0 == 15,
    {
        SendReasons(15)
    }


    /// Adds the bits of `reason`.
    pub fn insert(&mut self, reason: SendReasons)
        ensures
            final(self).0 == old(self).0 | reason.0,
    {
        self.0 = self.0 | reason.0;
    }

    /// Whether any bit of `reason` is set.
    pub fn contains(self, reason: SendReasons) -> (r: bool)
        ensures
            r == (self.0 & reason.0 != 0),
    {
        self.0 & reason.0 != 0
    }
}

/// A token for one due send, valid until the scheduler changes.
#[derive(Clone, Copy, Debug, PartialEq, Eq, Structural)]
pub struct WakePlan {
    pub generation: u64,
    pub planned_at_ms: u64,
    pub reasons: SendReasons,
}

/// Whether a send is due now, or when to wake next.
#[derive(Clone, Copy, Debug, PartialEq, Eq, Structural)]
pub enum SchedulerPoll {
    Pending { wake_at_ms: u64 },
    Send(WakePlan),
}

/// The abstract state of a send scheduler.
pub ghost struct SchedulerView {
    pub started_at_ms: u64,
    pub last_observed_ms: u64,
    pub last_send_ms: Option<u64>,
    pub local_change_at_ms: Option<u64>,
    pub acknowledgement_at_ms: Option<u64>,
    pub deferred_until_ms: Option<u64>,
    pub generation: u64,
}

/// The deadline of pending local changes: collection time after the first
/// change, but not before one frame interval after the last send.
pub open spec fn state_due_spec(s: SchedulerView, frame_interval_ms: u64) -> Option<nat> {
    match s.local_change_at_ms {
        None => None,
        Some(changed_at) => {
            let collection = changed_at + STATE_CHANGE_COLLECTION_MS;
            match s.last_send_ms {
                None => Some(collection as nat),
                Some(sent_at) => {
                    let frame = sent_at + frame_interval_ms;
                    Some(
                        if frame > collection {
                            frame as nat
                        } else {
                            collection as nat
                        },
                    )
                },
            }
        },
    }
}

/// The acknowledgement deadline.
pub open spec fn ack_due_spec(s: SchedulerView) -> Option<nat> {
    match s.acknowledgement_at_ms {
        None => None,
        Some(received_at) => Some((received_at + MAX_ACKNOWLEDGEMENT_DELAY_MS) as nat),
    }
}

/// The retransmission deadline of the newest unacknowledged sent state.
pub open spec fn retransmission_due_spec(latest_sent: Option<u64>, rto: u64) -> Option<nat> {
    match latest_sent {
        None => None,
        Some(sent_at) => Some((sent_at + rto) as nat),
    }
}

/// The heartbeat deadline.
pub open spec fn heartbeat_due_spec(s: SchedulerView) -> nat {
    ((match s.last_send_ms {
        Some(sent_at) => sent_at,
        None => s.started_at_ms,
    }) + HEARTBEAT_INTERVAL_MS) as nat
}

/// Whether computing some deadline would leave the 64-bit clock.
pub open spec fn deadline_overflows(
    s: SchedulerView,
    frame_interval_ms: u64,
    rto: u64,
    latest_sent: Option<u64>,
) -> bool {
    ||| (s.local_change_at_ms matches Some(c) && (c + STATE_CHANGE_COLLECTION_MS > u64::MAX || (
    s.last_send_ms matches Some(l) && l + frame_interval_ms > u64::MAX)))
    ||| (s.acknowledgement_at_ms matches Some(a) && a + MAX_ACKNOWLEDGEMENT_DELAY_MS > u64::MAX)
    ||| (latest_sent matches Some(t) && t + rto > u64::MAX)
    ||| heartbeat_due_spec(s) > u64::MAX
}

/// Whether an optional deadline has been reached.
pub open spec fn reached(deadline: Option<nat>, now: u64) -> bool {
    deadline matches Some(d) && d <= now
}

/// The earlier of an optional deadline and `d`.
pub open spec fn min_deadline(a: Option<nat>, d: nat) -> nat {
    match a {
        Some(x) => if x < d {
            x
        } else {
            d
        },
        None => d,
    }
}

/// The result of polling the scheduler at `now`, once time has been observed.
pub open spec fn poll_result(
    s: SchedulerView,
    now: u64,
    frame_interval_ms: u64,
    rto: u64,
    latest_sent: Option<u64>,
) -> Result<SchedulerPoll, TimingError> {
    if latest_sent matches Some(t) && t > now {
        Err(TimingError::TimeMovedBackwards)
    } else if s.deferred_until_ms matches Some(u) && now < u {
        Ok(SchedulerPoll::Pending { wake_at_ms: s.deferred_until_ms->0 })
    } else if deadline_overflows(s, frame_interval_ms, rto, latest_sent) {
        Err(TimingError::TimerExhausted)
    } else {
        let state = reached(state_due_spec(s, frame_interval_ms), now);
        let retransmission = reached(retransmission_due_spec(latest_sent, rto), now);
        let acknowledgement = reached(ack_due_spec(s), now);
        let heartbeat = heartbeat_due_spec(s) <= now;
        if state || retransmission || acknowledgement || heartbeat {
            Ok(
                SchedulerPoll::Send(
                    WakePlan {
                        generation: s.generation,
                        planned_at_ms: now,
                        reasons: SendReasons(
                            reasons_bits(state, retransmission, acknowledgement, heartbeat),
                        ),
                    },
                ),
            )
        } else {
            Ok(
                SchedulerPoll::Pending {
                    wake_at_ms: min_deadline(
                        state_due_spec(s, frame_interval_ms),
                        min_deadline(
                            ack_due_spec(s),
                            min_deadline(
                                retransmission_due_spec(latest_sent, rto),
                                heartbeat_due_spec(s),
                            ),
                        ),
                    ) as u64,
                },
            )
        }
    }
}

/// Silence is bounded: unless sends are deferred, a send is due once a
/// heartbeat interval has passed since the last one (or since the start),
/// and a scheduler with nothing due never sleeps past that moment.
pub proof fn law_heartbeat_bounds_silence(
    s: SchedulerView,
    now: u64,
    frame_interval_ms: u64,
    rto: u64,
    latest_sent: Option<u64>,
)
    requires
        latest_sent matches Some(t) ==> t <= now,
        s.deferred_until_ms matches Some(u) ==> now >= u,
        !deadline_overflows(s, frame_interval_ms, rto, latest_sent),
    ensures
        heartbeat_due_spec(s) <= now ==> (poll_result(s, now, frame_interval_ms, rto, latest_sent)
            matches Ok(SchedulerPoll::Send(plan)) && plan.planned_at_ms == now),
        poll_result(s, now, frame_interval_ms, rto, latest_sent) matches Ok(
            SchedulerPoll::Pending { wake_at_ms },
        ) ==> wake_at_ms <= heartbeat_due_spec(s),
{
}

/// Pure monotonic-time scheduler for transport sends: it reports why one
/// instruction is due but never runs a clock or performs I/O.
#[derive(Debug)]
pub struct SendScheduler {
    started_at_ms: u64,
    last_observed_ms: u64,
    last_send_ms: Option<u64>,
    local_change_at_ms: Option<u64>,
    acknowledgement_at_ms: Option<u64>,
    deferred_until_ms: Option<u64>,
    generation: u64,
}

/// `start_ms + delay_ms`, or an error when it overflows.
pub fn checked_deadline(start_ms: u64, delay_ms: u64) -> (r: Result<u64, TimingError>)
    ensures
        start_ms + delay_ms > u64::MAX ==> r == Err::<u64, TimingError>(
            TimingError::TimerExhausted,
        ),
        start_ms + delay_ms <= u64::MAX ==> r == Ok::<u64, TimingError>(
            (start_ms + delay_ms) as u64,
        ),
{
    if start_ms > u64::MAX - delay_ms {
        Err(TimingError::TimerExhausted)
    } else {
        Ok(start_ms + delay_ms)
    }
}

impl SendScheduler {
    pub closed spec fn view(&self) -> SchedulerView {
        SchedulerView {
            started_at_ms: self.started_at_ms,
            last_observed_ms: self.last_observed_ms,
            last_send_ms: self.last_send_ms,
            local_change_at_ms: self.local_change_at_ms,
            acknowledgement_at_ms: self.acknowledgement_at_ms,
            deferred_until_ms: self.deferred_until_ms,
            generation: self.generation,
        }
    }

    /// A scheduler that has seen time `started_at_ms`, with nothing pending.
    pub fn new(started_at_ms: u64) -> (r: Self)
        ensures
            r.view() == (SchedulerView {
                started_at_ms,
                last_observed_ms: started_at_ms,
                last_send_ms: None,
                local_change_at_ms: None,
                acknowledgement_at_ms: None,
                deferred_until_ms: None,
                generation: 0,
            }),
    {
        SendScheduler {
            started_at_ms,
            last_observed_ms: started_at_ms,
            last_send_ms: None,
            local_change_at_ms: None,
            acknowledgement_at_ms: None,
            deferred_until_ms: None,
            generation: 0,
        }
    }

    /// A scheduler that starts at `started_at_ms` with the given generation.
    pub fn with_generation(started_at_ms: u64, generation: u64) -> (r: Self)
        ensures
            r.view() == (SchedulerView {
                started_at_ms,
                last_observed_ms: started_at_ms,
                last_send_ms: None,
                local_change_at_ms: None,
                acknowledgement_at_ms: None,
                deferred_until_ms: None,
                generation,
            }),
    {
        SendScheduler {
            started_at_ms,
            last_observed_ms: started_at_ms,
            last_send_ms: None,
            local_change_at_ms: None,
            acknowledgement_at_ms: None,
            deferred_until_ms: None,
            generation,
        }
    }

    /// The scheduler generation that plans must match.
    pub fn generation(&self) -> (r: u64)
        ensures
            r == self.view().generation,
    {
        self.generation
    }

    /// When the pending local change was first noted.
    pub fn local_change_at_ms(&self) -> (r: Option<u64>)
        ensures
            r == self.view().local_change_at_ms,
    {
        self.local_change_at_ms
    }

    /// When the pending acknowledgement became due.
    pub fn acknowledgement_at_ms(&self) -> (r: Option<u64>)
        ensures
            r == self.view().acknowledgement_at_ms,
    {
        self.acknowledgement_at_ms
    }

    /// When the last send was committed.
    pub fn last_send_ms(&self) -> (r: Option<u64>)
        ensures
            r == self.view().last_send_ms,
    {
        self.last_send_ms
    }

    /// Records a local state change; only the first change since the last
    /// send starts the collection timer.
    pub fn note_local_change(&mut self, now_ms: u64) -> (r: Result<(), TimingError>)
        ensures
            now_ms < old(self).view().last_observed_ms ==> r == Err::<(), TimingError>(
                TimingError::TimeMovedBackwards,
            ) && final(self).view() == old(self).view(),
            now_ms >= old(self).view().last_observed_ms && old(self).view().local_change_at_ms
                is Some ==> r is Ok && final(self).view() == (SchedulerView {
                last_observed_ms: now_ms,
                ..old(self).view()
            }),
            now_ms >= old(self).view().last_observed_ms && old(self).view().local_change_at_ms
                is None && old(self).view().generation == u64::MAX ==> r == Err::<(), TimingError>(
                TimingError::GenerationExhausted,
            ) && final(self).view() == (SchedulerView {
                last_observed_ms: now_ms,
                ..old(self).view()
            }),
            now_ms >= old(self).view().last_observed_ms && old(self).view().local_change_at_ms
                is None && old(self).view().generation < u64::MAX ==> r is Ok && final(self).view()
                == (SchedulerView {
                last_observed_ms: now_ms,
                local_change_at_ms: Some(now_ms),
                generation: (old(self).view().generation + 1) as u64,
                ..old(self).view()
            }),
    {
        self.observe_time(now_ms)?;
        if self.local_change_at_ms.is_none() {
            let next = self.next_generation()?;
            self.local_change_at_ms = Some(now_ms);
            self.generation = next;
        }
        Ok(())
    }

    /// Records that a received state needs an acknowledgement.
    pub fn note_acknowledgement_needed(&mut self, now_ms: u64) -> (r: Result<(), TimingError>)
        ensures
            now_ms < old(self).view().last_observed_ms ==> r == Err::<(), TimingError>(
                TimingError::TimeMovedBackwards,
            ) && final(self).view() == old(self).view(),
            now_ms >= old(self).view().last_observed_ms && old(self).view().acknowledgement_at_ms
                is Some ==> r is Ok && final(self).view() == (SchedulerView {
                last_observed_ms: now_ms,
                ..old(self).view()
            }),
            now_ms >= old(self).view().last_observed_ms && old(self).view().acknowledgement_at_ms
                is None && old(self).view().generation == u64::MAX ==> r == Err::<(), TimingError>(
                TimingError::GenerationExhausted,
            ) && final(self).view() == (SchedulerView {
                last_observed_ms: now_ms,
                ..old(self).view()
            }),
            now_ms >= old(self).view().last_observed_ms && old(self).view().acknowledgement_at_ms
                is None && old(self).view().generation < u64::MAX ==> r is Ok && final(self).view()
                == (SchedulerView {
                last_observed_ms: now_ms,
                acknowledgement_at_ms: Some(now_ms),
                generation: (old(self).view().generation + 1) as u64,
                ..old(self).view()
            }),
    {
        self.observe_time(now_ms)?;
        if self.acknowledgement_at_ms.is_none() {
            let next = self.next_generation()?;
            self.acknowledgement_at_ms = Some(now_ms);
            self.generation = next;
        }
        Ok(())
    }

    /// Postpones every send after a temporary send failure at `now_ms` until
    /// `delay_ms` has passed; pending work stays pending.
    pub fn defer_send(&mut self, now_ms: u64, delay_ms: u64) -> (r: Result<(), TimingError>)
        ensures
            now_ms < old(self).view().last_observed_ms ==> r == Err::<(), TimingError>(
                TimingError::TimeMovedBackwards,
            ) && final(self).view() == old(self).view(),
            now_ms >= old(self).view().last_observed_ms && now_ms + delay_ms > u64::MAX ==> r
                == Err::<(), TimingError>(TimingError::TimerExhausted) && final(self).view() == (
            SchedulerView { last_observed_ms: now_ms, ..old(self).view() }),
            now_ms >= old(self).view().last_observed_ms && now_ms + delay_ms <= u64::MAX && old(self).view().generation == u64::MAX ==> r == Err::<(), TimingError>(
                TimingError::GenerationExhausted,
            ) && final(self).view() == (SchedulerView {
                last_observed_ms: now_ms,
                ..old(self).view()
            }),
            now_ms >= old(self).view().last_observed_ms && now_ms + delay_ms <= u64::MAX && old(self).view().generation < u64::MAX ==> r is Ok && final(self).view() == (SchedulerView {
                last_observed_ms: now_ms,
                deferred_until_ms: Some((now_ms + delay_ms) as u64),
                generation: (old(self).view().generation + 1) as u64,
                ..old(self).view()
            }),
    {
        self.observe_time(now_ms)?;
        let until = checked_deadline(now_ms, delay_ms)?;
        let next = self.next_generation()?;
        self.deferred_until_ms = Some(until);
        self.generation = next;
        Ok(())
    }

    /// Reports whether a send is due at `now_ms`, and why; otherwise when to wake.
    pub fn poll(
        &mut self,
        now_ms: u64,
        timing: &RttEstimator,
        latest_unacknowledged_sent_at_ms: Option<u64>,
    ) -> (r: Result<SchedulerPoll, TimingError>)
        requires
            timing.wf(),
        ensures
            now_ms < old(self).view().last_observed_ms ==> r == Err::<SchedulerPoll, TimingError>(
                TimingError::TimeMovedBackwards,
            ) && final(self).view() == old(self).view(),
            now_ms >= old(self).view().last_observed_ms ==> final(self).view() == (SchedulerView {
                last_observed_ms: now_ms,
                ..old(self).view()
            }) && r == poll_result(
                old(self).view(),
                now_ms,
                timing.frame_interval_spec(),
                timing.rto(),
                latest_unacknowledged_sent_at_ms,
            ),
    {
        self.observe_time(now_ms)?;
        if let Some(sent_at) = latest_unacknowledged_sent_at_ms {
            if sent_at > now_ms {
                return Err(TimingError::TimeMovedBackwards);
            }
        }
        if let Some(until) = self.deferred_until_ms {
            if now_ms < until {
                return Ok(SchedulerPoll::Pending { wake_at_ms: until });
            }
        }
        let frame_interval_ms = timing.frame_interval_ms();
        let rto = timing.retransmission_timeout_ms();
        let state_due = self.local_change_due(frame_interval_ms)?;
        let acknowledgement_due = match self.acknowledgement_at_ms {
            Some(received_at) => Some(checked_deadline(received_at, MAX_ACKNOWLEDGEMENT_DELAY_MS)?),
            None => None,
        };
        let retransmission_due = match latest_unacknowledged_sent_at_ms {
            Some(sent_at) => Some(checked_deadline(sent_at, rto)?),
            None => None,
        };
        let heartbeat_base = match self.last_send_ms {
            Some(sent_at) => sent_at,
            None => self.started_at_ms,
        };
        let heartbeat_due = checked_deadline(heartbeat_base, HEARTBEAT_INTERVAL_MS)?;

        let state = match state_due {
            Some(deadline) => deadline <= now_ms,
            None => false,
        };
        let retransmission = match retransmission_due {
            Some(deadline) => deadline <= now_ms,
            None => false,
        };
        let acknowledgement = match acknowledgement_due {
            Some(deadline) => deadline <= now_ms,
            None => false,
        };
        let heartbeat = heartbeat_due <= now_ms;
        if state || retransmission || acknowledgement || heartbeat {
            let mut reasons = SendReasons(0);
            if state {
                reasons.insert(SendReasons::state_change());
            }
            if retransmission {
                reasons.insert(SendReasons::retransmission());
            }
            if acknowledgement {
                reasons.insert(SendReasons::acknowledgement());
            }
            if heartbeat {
                reasons.insert(SendReasons::heartbeat());
            }
            proof {
                lemma_reason_bits(state, retransmission, acknowledgement, heartbeat);
            }
            assert(reasons.0 == reasons_bits(state, retransmission, acknowledgement, heartbeat));
            return Ok(
                SchedulerPoll::Send(
                    WakePlan { generation: self.generation, planned_at_ms: now_ms, reasons },
                ),
            );
        }
        let mut wake_at_ms = heartbeat_due;
        if let Some(deadline) = retransmission_due {
            if deadline < wake_at_ms {
                wake_at_ms = deadline;
            }
        }
        if let Some(deadline) = acknowledgement_due {
            if deadline < wake_at_ms {
                wake_at_ms = deadline;
            }
        }
        if let Some(deadline) = state_due {
            if deadline < wake_at_ms {
                wake_at_ms = deadline;
            }
        }
        Ok(SchedulerPoll::Pending { wake_at_ms })
    }

    /// Commits a send planned by `poll`: every pending reason is satisfied.
    /// A plan from an earlier scheduler state is rejected.
    pub fn commit_send(&mut self, plan: WakePlan) -> (r: Result<(), TimingError>)
        ensures
            (plan.generation != old(self).view().generation || plan.planned_at_ms != old(self).view().last_observed_ms) ==> r == Err::<(), TimingError>(TimingError::StalePlan)
                && final(self).view() == old(self).view(),
            (plan.generation == old(self).view().generation && plan.planned_at_ms == old(self).view().last_observed_ms && old(self).view().generation == u64::MAX) ==> r == Err::<
                (),
                TimingError,
            >(TimingError::GenerationExhausted) && final(self).view() == old(self).view(),
            (plan.generation == old(self).view().generation && plan.planned_at_ms == old(self).view().last_observed_ms && old(self).view().generation < u64::MAX) ==> r is Ok
                && final(self).view() == (SchedulerView {
                local_change_at_ms: None,
                acknowledgement_at_ms: None,
                deferred_until_ms: None,
                last_send_ms: Some(plan.planned_at_ms),
                generation: (old(self).view().generation + 1) as u64,
                ..old(self).view()
            }),
    {
        if plan.generation != self.generation || plan.planned_at_ms != self.last_observed_ms {
            return Err(TimingError::StalePlan);
        }
        let next = self.next_generation()?;
        self.local_change_at_ms = None;
        self.acknowledgement_at_ms = None;
        self.deferred_until_ms = None;
        self.last_send_ms = Some(plan.planned_at_ms);
        self.generation = next;
        Ok(())
    }

    fn local_change_due(&self, frame_interval_ms: u64) -> (r: Result<Option<u64>, TimingError>)
        ensures
            (self.view().local_change_at_ms matches Some(c) && (c + STATE_CHANGE_COLLECTION_MS
                > u64::MAX || (self.view().last_send_ms matches Some(l) && l + frame_interval_ms
                > u64::MAX))) <==> r is Err,
            r matches Ok(d) ==> match state_due_spec(self.view(), frame_interval_ms) {
                Some(x) => d == Some(x as u64),
                None => d is None,
            },
            r matches Err(e) ==> e == TimingError::TimerExhausted,
    {
        match self.local_change_at_ms {
            None => Ok(None),
            Some(changed_at) => {
                let collection_due = checked_deadline(changed_at, STATE_CHANGE_COLLECTION_MS)?;
                let frame_due = match self.last_send_ms {
                    Some(sent_at) => checked_deadline(sent_at, frame_interval_ms)?,
                    None => collection_due,
                };
                if frame_due > collection_due {
                    Ok(Some(frame_due))
                } else {
                    Ok(Some(collection_due))
                }
            },
        }
    }

    fn observe_time(&mut self, now_ms: u64) -> (r: Result<(), TimingError>)
        ensures
            now_ms < old(self).view().last_observed_ms ==> r == Err::<(), TimingError>(
                TimingError::TimeMovedBackwards,
            ) && final(self).view() == old(self).view(),
            now_ms >= old(self).view().last_observed_ms ==> r is Ok && final(self).view() == (
            SchedulerView { last_observed_ms: now_ms, ..old(self).view() }),
    {
        if now_ms < self.last_observed_ms {
            return Err(TimingError::TimeMovedBackwards);
        }
        self.last_observed_ms = now_ms;
        Ok(())
    }

    fn next_generation(&self) -> (r: Result<u64, TimingError>)
        ensures
            self.view().generation == u64::MAX ==> r == Err::<u64, TimingError>(
                TimingError::GenerationExhausted,
            ),
            self.view().generation < u64::MAX ==> r == Ok::<u64, TimingError>(
                (self.view().generation + 1) as u64,
            ),
    {
        if self.generation == u64::MAX {
            Err(TimingError::GenerationExhausted)
        } else {
            Ok(self.generation + 1)
        }
    }
}

} // verus!
