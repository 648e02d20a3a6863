use mosh_client::prediction::{
    predictable_byte, AuthoritativeOutcome, InputPlan, LocalPrediction, PredictionMode,
};

#[test]
fn only_single_printable_ascii_bytes_are_predicted() {
    assert_eq!(predictable_byte(b"a"), Some(b'a'));
    assert_eq!(predictable_byte(b" "), Some(b' '));
    assert_eq!(predictable_byte(b"~"), Some(b'~'));
    assert_eq!(predictable_byte(b"\x7f"), None);
    assert_eq!(predictable_byte(b"\r"), None);
    assert_eq!(predictable_byte(b"ab"), None);
    assert_eq!(predictable_byte(b""), None);
}

#[test]
fn never_mode_ignores_input_and_shows_nothing() {
    let prediction = LocalPrediction::new(PredictionMode::Never);
    assert_eq!(prediction.plan_input(b"a"), InputPlan::Ignore);
    assert!(!prediction.displaying_prediction());
    assert_eq!(prediction.next_deadline_ms(), None);
    assert_eq!(PredictionMode::default(), PredictionMode::Adaptive);
}

#[test]
fn predictions_show_only_after_the_epoch_is_confirmed() {
    let mut prediction = LocalPrediction::new(PredictionMode::Always);
    assert_eq!(prediction.plan_input(b"a"), InputPlan::Predict(b'a'));
    assert!(!prediction.push_prediction(2, 100, b'a'));
    assert_eq!(prediction.acknowledged_prefix(Some(1)), 0);
    assert_eq!(
        prediction.observe_authoritative(Some(0), Some(1)),
        AuthoritativeOutcome::Unchanged
    );
    assert!(!prediction.displaying_prediction());
    assert_eq!(
        prediction.observe_authoritative(Some(1), Some(2)),
        AuthoritativeOutcome::Confirmed
    );
    assert!(prediction.pending().is_empty());
    assert!(prediction.push_prediction(3, 200, b'b'));
    assert!(prediction.displaying_prediction());
    assert_eq!(prediction.expiration_deadline_ms(), Some(10_200));
    assert!(!prediction.expire(10_199));
    assert!(prediction.expire(10_200));
    assert!(prediction.pending().is_empty());
}

#[test]
fn acknowledgements_that_outpace_the_match_clear_the_predictions() {
    let mut prediction = LocalPrediction::new(PredictionMode::Always);
    prediction.push_prediction(2, 0, b'a');
    prediction.push_prediction(3, 0, b'b');
    assert_eq!(
        prediction.observe_authoritative(Some(1), Some(3)),
        AuthoritativeOutcome::Cleared(false)
    );
    assert!(prediction.pending().is_empty());
    prediction.push_prediction(4, 0, b'c');
    assert_eq!(
        prediction.observe_authoritative(None, Some(4)),
        AuthoritativeOutcome::Cleared(false)
    );
}

#[test]
fn full_pending_predictions_or_unpredictable_input_clear() {
    let mut prediction = LocalPrediction::new(PredictionMode::Adaptive);
    for i in 0..32 {
        prediction.push_prediction(i, 0, b'x');
    }
    assert_eq!(prediction.plan_input(b"y"), InputPlan::Clear);
    assert_eq!(prediction.plan_input(b"\x1b[A"), InputPlan::Clear);
    assert!(!prediction.reset());
    assert!(prediction.pending().is_empty());
}

#[test]
fn adaptive_mode_shows_confirmed_predictions_on_a_slow_link_or_a_glitch() {
    let mut prediction = LocalPrediction::new(PredictionMode::Adaptive);
    prediction.push_prediction(1, 0, b'a');
    prediction.observe_authoritative(Some(1), Some(1));
    prediction.push_prediction(2, 1_000, b'b');
    assert!(!prediction.displaying_prediction());
    assert_eq!(prediction.next_deadline_ms(), Some(1_250));
    assert!(prediction.update_policy(1_250, Some(20)));
    assert!(prediction.displaying_prediction());
    assert!(!prediction.update_policy(1_300, Some(20)));

    let mut slow = LocalPrediction::new(PredictionMode::Adaptive);
    slow.push_prediction(1, 0, b'a');
    slow.observe_authoritative(Some(1), Some(1));
    slow.push_prediction(2, 0, b'b');
    assert!(slow.update_policy(10, Some(31)));
    assert!(slow.displaying_prediction());
    assert!(!slow.update_policy(11, Some(20)));
    assert!(slow.displaying_prediction());
}
