//! The display policy of local echo prediction: which typed bytes are
//! predicted, when a prediction epoch is confirmed by the server, when
//! predictions are shown, and when they expire. The predicted terminal
//! states themselves are kept by the caller.
use vstd::prelude::*;

use crate::limits::{
    ADAPTIVE_PREDICTION_DISABLE_FRAME_MS, ADAPTIVE_PREDICTION_ENABLE_FRAME_MS,
    ADAPTIVE_PREDICTION_GLITCH_MS, MAX_PENDING_PREDICTION_BYTES, MAX_PENDING_PREDICTION_SCALARS,
    MAX_PREDICTION_AGE_MS,
};

verus! {

/// Controls when confirmed local terminal predictions are displayed.
#[derive(Clone, Copy, Debug, Default, PartialEq, Eq, Structural)]
pub enum PredictionMode {
    /// Display predictions on slower links or during a temporary network glitch.
    #[default]
    Adaptive,
    /// Display every eligible prediction after its epoch has been confirmed.
    Always,
    /// Display only authenticated terminal state from the server.
    Never,
}

/// Whether the server has confirmed the current prediction epoch.
#[derive(Clone, Copy, Debug, PartialEq, Eq, Structural)]
pub enum EpochConfidence {
    Tentative,
    Confirmed,
}

/// One predicted byte: the client state that carries it and when it was typed.
#[derive(Clone, Copy, Debug, PartialEq, Eq, Structural)]
pub struct PendingPrediction {
    pub client_state: u64,
    pub created_at_ms: u64,
    pub byte: u8,
}

/// What to do with typed input.
#[derive(Clone, Copy, Debug, PartialEq, Eq, Structural)]
pub enum InputPlan {
    /// Prediction is off; nothing changes.
    Ignore,
    /// The input cannot be predicted; every pending prediction is dropped.
    Clear,
    /// The byte is predicted on top of the pending predictions.
    Predict(u8),
}

/// What an authoritative state did to the pending predictions.
#[derive(Clone, Copy, Debug, PartialEq, Eq, Structural)]
pub enum AuthoritativeOutcome {
    /// Nothing changed.
    Unchanged,
    /// The predictions were dropped; the value tells whether one was shown.
    Cleared(bool),
    /// The epoch is confirmed and the matched predictions are settled.
    Confirmed,
}

/// The byte to predict for typed input: a single printable ASCII byte.
pub open spec fn predictable(bytes: Seq<u8>) -> Option<u8> {
    if bytes.len() == 1 && 0x20 <= bytes[0] <= 0x7e {
        Some(bytes[0])
    } else {
        None
    }
}

/// The byte to predict for typed input: a single printable ASCII byte.
pub fn predictable_byte(bytes: &[u8]) -> (r: Option<u8>)
    ensures
        r == predictable(bytes@),
{
    if bytes.len() != 1 {
        return None;
    }
    let byte = bytes[0];
    if 0x20 <= byte && byte <= 0x7e {
        Some(byte)
    } else {
        None
    }
}

/// The number of leading predictions whose client state is at most `number`.
pub open spec fn leading_at_most(pending: Seq<PendingPrediction>, number: u64) -> nat
    decreases pending.len(),
{
    if pending.len() == 0 || pending[0].client_state > number {
        0
    } else {
        1 + leading_at_most(pending.drop_first(), number)
    }
}

/// The local prediction policy and its pending predictions.
#[derive(Debug)]
pub struct LocalPrediction {
    mode: PredictionMode,
    confidence: EpochConfidence,
    adaptive_slow_link: bool,
    adaptive_glitch: bool,
    pending: Vec<PendingPrediction>,
}

/// The mathematical content of the prediction policy.
pub ghost struct PredictionView {
    pub mode: PredictionMode,
    pub confidence: EpochConfidence,
    pub slow_link: bool,
    pub glitch: bool,
    pub pending: Seq<PendingPrediction>,
}

/// Whether predictions are shown: only from a confirmed epoch, only while
/// some are pending, and per the mode.
pub open spec fn displays(v: PredictionView) -> bool {
    v.confidence == EpochConfidence::Confirmed && v.pending.len() > 0 && match v.mode {
        PredictionMode::Adaptive => v.slow_link || v.glitch,
        PredictionMode::Always => true,
        PredictionMode::Never => false,
    }
}

/// Predictions are shown only from a confirmed epoch, never in the `Never`
/// mode, and only while some are pending; dropping them hides them.
pub proof fn law_only_confirmed_predictions_display(v: PredictionView)
    ensures
        displays(v) ==> v.confidence == EpochConfidence::Confirmed && v.pending.len() > 0,
        v.mode == PredictionMode::Never ==> !displays(v),
        v.mode == PredictionMode::Always && v.confidence == EpochConfidence::Confirmed
            && v.pending.len() > 0 ==> displays(v),
        !displays(cleared(v)),
{
}

/// The policy after dropping every prediction.
pub open spec fn cleared(v: PredictionView) -> PredictionView {
    PredictionView {
        confidence: EpochConfidence::Tentative,
        glitch: false,
        pending: Seq::empty(),
        ..v
    }
}

/// When the oldest pending prediction expires.
pub open spec fn expiration(v: PredictionView) -> Option<u64> {
    if v.mode == PredictionMode::Never || v.pending.len() == 0 {
        None
    } else {
        Some(saturating(v.pending[0].created_at_ms as int + MAX_PREDICTION_AGE_MS))
    }
}

/// `x` capped at the largest `u64`.
pub open spec fn saturating(x: int) -> u64 {
    if x > u64::MAX {
        u64::MAX
    } else {
        x as u64
    }
}

impl LocalPrediction {
    pub closed spec fn view(&self) -> PredictionView {
        PredictionView {
            mode: self.mode,
            confidence: self.confidence,
            slow_link: self.adaptive_slow_link,
            glitch: self.adaptive_glitch,
            pending: self.pending@,
        }
    }

    /// The policy's invariant: predictions are bounded, and none are kept
    /// when prediction is off.
    pub open spec fn wf(&self) -> bool {
        &&& self.view().pending.len() <= MAX_PENDING_PREDICTION_SCALARS
        &&& self.view().mode == PredictionMode::Never ==> self.view().pending.len() == 0
    }

    /// A policy with no predictions, in `mode`.
    pub fn new(mode: PredictionMode) -> (r: LocalPrediction)
        ensures
            r.wf(),
            r.view() == (PredictionView {
                mode,
                confidence: EpochConfidence::Tentative,
                slow_link: false,
                glitch: false,
                pending: Seq::empty(),
            }),
    {
        LocalPrediction {
            mode,
            confidence: EpochConfidence::Tentative,
            adaptive_slow_link: false,
            adaptive_glitch: false,
            pending: Vec::new(),
        }
    }

    /// Whether predictions are shown now.
    pub fn displaying_prediction(&self) -> (r: bool)
        ensures
            r == displays(self.view()),
    {
        self.confidence == EpochConfidence::Confirmed && self.pending.len() > 0 && match self.mode {
            PredictionMode::Adaptive => self.adaptive_slow_link || self.adaptive_glitch,
            PredictionMode::Always => true,
            PredictionMode::Never => false,
        }
    }

    /// The pending predictions, oldest first.
    pub fn pending(&self) -> (r: &[PendingPrediction])
        ensures
            r@ == self.view().pending,
    {
        self.pending.as_slice()
    }

    /// Drops every prediction and returns whether one was shown.
    pub fn clear(&mut self) -> (r: bool)
        ensures
            r == displays(old(self).view()),
            final(self).view() == cleared(old(self).view()),
            final(self).wf(),
    {
        let displayed = self.displaying_prediction();
        self.confidence = EpochConfidence::Tentative;
        self.adaptive_glitch = false;
        self.pending.clear();
        displayed
    }

    /// Drops every prediction and returns whether one was shown.
    pub fn reset(&mut self) -> (r: bool)
        ensures
            r == displays(old(self).view()),
            final(self).view() == cleared(old(self).view()),
            final(self).wf(),
    {
        self.clear()
    }

    /// What to do with typed input: nothing when prediction is off, drop the
    /// predictions for input that cannot be predicted or when the pending
    /// predictions are full, and otherwise predict its byte.
    pub fn plan_input(&self, bytes: &[u8]) -> (r: InputPlan)
        ensures
            self.view().mode == PredictionMode::Never ==> r == InputPlan::Ignore,
            self.view().mode != PredictionMode::Never && predictable(bytes@) is None ==> r
                == InputPlan::Clear,
            self.view().mode != PredictionMode::Never && predictable(bytes@) is Some && (
            self.view().pending.len() == MAX_PENDING_PREDICTION_SCALARS
                || self.view().pending.len() == MAX_PENDING_PREDICTION_BYTES) ==> r
                == InputPlan::Clear,
            self.view().mode != PredictionMode::Never && predictable(bytes@) is Some && !(
            self.view().pending.len() == MAX_PENDING_PREDICTION_SCALARS
                || self.view().pending.len() == MAX_PENDING_PREDICTION_BYTES) ==> r
                == InputPlan::Predict(predictable(bytes@)->0),
    {
        if self.mode == PredictionMode::Never {
            return InputPlan::Ignore;
        }
        let byte = match predictable_byte(bytes) {
            None => {
                return InputPlan::Clear;
            },
            Some(b) => b,
        };
        if self.pending.len() == MAX_PENDING_PREDICTION_SCALARS || self.pending.len()
            == MAX_PENDING_PREDICTION_BYTES {
            return InputPlan::Clear;
        }
        InputPlan::Predict(byte)
    }

    /// Records a predicted byte and returns whether predictions are shown.
    pub fn push_prediction(&mut self, client_state: u64, now_ms: u64, byte: u8) -> (r: bool)
        requires
            old(self).wf(),
            old(self).view().mode != PredictionMode::Never,
            old(self).view().pending.len() < MAX_PENDING_PREDICTION_SCALARS,
        ensures
            final(self).wf(),
            final(self).view() == (PredictionView {
                pending: old(self).view().pending.push(
                    PendingPrediction { client_state, created_at_ms: now_ms, byte },
                ),
                ..old(self).view()
            }),
            r == displays(final(self).view()),
    {
        self.pending.push(PendingPrediction { client_state, created_at_ms: now_ms, byte });
        self.displaying_prediction()
    }

    /// The number of leading predictions that the echo acknowledgement
    /// `number` covers; none without an acknowledgement.
    pub fn acknowledged_prefix(&self, echo_acknowledgement: Option<u64>) -> (r: usize)
        ensures
            match echo_acknowledgement {
                None => r == 0,
                Some(n) => r == leading_at_most(self.view().pending, n),
            },
    {
        let number = match echo_acknowledgement {
            None => {
                return 0;
            },
            Some(n) => n,
        };
        let ghost all = self.pending@;
        let mut i: usize = 0;
        assert(all.skip(0) =~= all);
        while i < self.pending.len()
            invariant
                echo_acknowledgement == Some(number),
                all == self.pending@,
                i <= all.len(),
                forall|k: int| 0 <= k < i ==> (#[trigger] all[k]).client_state <= number,
                leading_at_most(all, number) == i + leading_at_most(all.skip(i as int), number),
            decreases all.len() - i,
        {
            proof {
                assert(all.skip(i as int)[0] == all[i as int]);
                assert(all.skip(i as int).drop_first() =~= all.skip(i + 1));
            }
            if self.pending[i].client_state > number {
                return i;
            }
            i = i + 1;
        }
        proof {
            assert(all.skip(i as int) =~= Seq::<PendingPrediction>::empty());
        }
        i
    }

    /// Settles the pending predictions against an authoritative state:
    /// `matched_prefix` is the longest run of predictions whose projection
    /// shows what the state shows, and the echo acknowledgement tells how many
    /// the server has processed. Predictions are dropped when none matches or
    /// the server processed more than matched; the epoch is confirmed and the
    /// matched ones are settled when the server processed some.
    pub fn observe_authoritative(
        &mut self,
        matched_prefix: Option<usize>,
        echo_acknowledgement: Option<u64>,
    ) -> (r: AuthoritativeOutcome)
        requires
            old(self).wf(),
            matched_prefix matches Some(m) ==> m <= old(self).view().pending.len(),
        ensures
            final(self).wf(),
            ({
                let v = old(self).view();
                let acknowledged = match echo_acknowledgement {
                    None => 0,
                    Some(n) => leading_at_most(v.pending, n),
                };
                if v.mode == PredictionMode::Never || v.pending.len() == 0 {
                    r == AuthoritativeOutcome::Unchanged && final(self).view() == v
                } else if matched_prefix is None || acknowledged > matched_prefix->0 {
                    r == AuthoritativeOutcome::Cleared(displays(v)) && final(self).view() == cleared(v)
                } else if acknowledged == 0 {
                    r == AuthoritativeOutcome::Unchanged && final(self).view() == v
                } else {
                    let rest = v.pending.skip(matched_prefix->0 as int);
                    r == AuthoritativeOutcome::Confirmed && final(self).view() == (PredictionView {
                        confidence: EpochConfidence::Confirmed,
                        pending: rest,
                        glitch: if rest.len() == 0 {
                            false
                        } else {
                            v.glitch
                        },
                        ..v
                    })
                }
            }),
    {
        if self.mode == PredictionMode::Never || self.pending.len() == 0 {
            return AuthoritativeOutcome::Unchanged;
        }
        let matched = match matched_prefix {
            None => {
                return AuthoritativeOutcome::Cleared(self.clear());
            },
            Some(m) => m,
        };
        let acknowledged = self.acknowledged_prefix(echo_acknowledgement);
        if acknowledged > matched {
            return AuthoritativeOutcome::Cleared(self.clear());
        }
        if acknowledged == 0 {
            return AuthoritativeOutcome::Unchanged;
        }
        self.confidence = EpochConfidence::Confirmed;
        let rest = self.pending.split_off(matched);
        self.pending = rest;
        if self.pending.len() == 0 {
            self.adaptive_glitch = false;
        }
        AuthoritativeOutcome::Confirmed
    }

    /// When the oldest pending prediction expires.
    pub fn expiration_deadline_ms(&self) -> (r: Option<u64>)
        ensures
            r == expiration(self.view()),
    {
        if self.mode == PredictionMode::Never || self.pending.len() == 0 {
            return None;
        }
        Some(self.pending[0].created_at_ms.saturating_add(MAX_PREDICTION_AGE_MS))
    }

    /// The next time at which the policy can change by itself: expiry of the
    /// oldest prediction, or, for the adaptive mode on a fast link, the
    /// moment a confirmed prediction starts to count as a glitch.
    pub fn next_deadline_ms(&self) -> (r: Option<u64>)
        ensures
            ({
                let v = self.view();
                let glitch = if v.mode == PredictionMode::Adaptive && v.confidence
                    == EpochConfidence::Confirmed && !v.slow_link && !v.glitch && v.pending.len()
                    > 0 {
                    Some(saturating(v.pending[0].created_at_ms as int + ADAPTIVE_PREDICTION_GLITCH_MS))
                } else {
                    None
                };
                r == match (expiration(v), glitch) {
                    (Some(e), Some(g)) => Some(
                        if e <= g {
                            e
                        } else {
                            g
                        },
                    ),
                    (Some(d), None) => Some(d),
                    (None, Some(d)) => Some(d),
                    (None, None) => None,
                }
            }),
    {
        let expiry = self.expiration_deadline_ms();
        let glitch = if self.mode == PredictionMode::Adaptive && self.confidence
            == EpochConfidence::Confirmed && !self.adaptive_slow_link && !self.adaptive_glitch
            && self.pending.len() > 0 {
            Some(self.pending[0].created_at_ms.saturating_add(ADAPTIVE_PREDICTION_GLITCH_MS))
        } else {
            None
        };
        match (expiry, glitch) {
            (Some(e), Some(g)) => Some(
                if e <= g {
                    e
                } else {
                    g
                },
            ),
            (Some(d), None) => Some(d),
            (None, Some(d)) => Some(d),
            (None, None) => None,
        }
    }

    /// Drops the predictions once the oldest one has expired, and returns
    /// whether one was shown.
    pub fn expire(&mut self, now_ms: u64) -> (r: bool)
        requires
            old(self).wf(),
        ensures
            final(self).wf(),
            expiration(old(self).view()) matches Some(d) && now_ms >= d ==> r == displays(
                old(self).view(),
            ) && final(self).view() == cleared(old(self).view()),
            !(expiration(old(self).view()) matches Some(d) && now_ms >= d) ==> !r && final(self).view() == old(self).view(),
    {
        match self.expiration_deadline_ms() {
            Some(deadline) => {
                if now_ms >= deadline {
                    return self.clear();
                }
            },
            None => {},
        }
        false
    }

    /// Updates the adaptive policy from the frame interval and the age of the
    /// oldest prediction, and returns whether showing predictions changed.
    pub fn update_policy(&mut self, now_ms: u64, frame_interval_ms: Option<u64>) -> (r: bool)
        requires
            old(self).wf(),
        ensures
            final(self).wf(),
            ({
                let v = old(self).view();
                let shown = displays(v);
                if v.mode != PredictionMode::Adaptive {
                    !r && final(self).view() == v
                } else {
                    let slow = match frame_interval_ms {
                        Some(f) => if f > ADAPTIVE_PREDICTION_ENABLE_FRAME_MS {
                            true
                        } else if f <= ADAPTIVE_PREDICTION_DISABLE_FRAME_MS && !shown {
                            false
                        } else {
                            v.slow_link
                        },
                        None => v.slow_link,
                    };
                    let glitch = if v.pending.len() == 0 {
                        false
                    } else if v.confidence == EpochConfidence::Confirmed && now_ms >= saturating(
                        v.pending[0].created_at_ms as int + ADAPTIVE_PREDICTION_GLITCH_MS,
                    ) {
                        true
                    } else {
                        v.glitch
                    };
                    final(self).view() == (PredictionView { slow_link: slow, glitch, ..v }) && r
                        == (shown != displays(final(self).view()))
                }
            }),
    {
        let was_displayed = self.displaying_prediction();
        if self.mode != PredictionMode::Adaptive {
            return false;
        }
        match frame_interval_ms {
            Some(frame) => {
                if frame > ADAPTIVE_PREDICTION_ENABLE_FRAME_MS {
                    self.adaptive_slow_link = true;
                } else if frame <= ADAPTIVE_PREDICTION_DISABLE_FRAME_MS && !was_displayed {
                    self.adaptive_slow_link = false;
                }
            },
            None => {},
        }
        if self.pending.len() == 0 {
            self.adaptive_glitch = false;
        } else if self.confidence == EpochConfidence::Confirmed && now_ms
            >= self.pending[0].created_at_ms.saturating_add(ADAPTIVE_PREDICTION_GLITCH_MS) {
            self.adaptive_glitch = true;
        }
        was_displayed != self.displaying_prediction()
    }
}

} // verus!
