use voicepipe::{calculate_rms, HighPassState, SpeechState, SAMPLE_SCALE, SILENCE_DURATION_MS};

#[test]
fn test_calculate_rms_silent() {
    let silent = vec![0i64; 1600];
    let rms = calculate_rms(&silent);
    assert_eq!(rms, 0, "Silent audio should have 0 RMS");
}

#[test]
fn test_calculate_rms_loud() {
    let loud = vec![SAMPLE_SCALE; 1600];
    let rms = calculate_rms(&loud);
    assert_eq!(
        rms, SAMPLE_SCALE as u64,
        "Constant full-scale audio should have full-scale RMS"
    );
}

#[test]
fn test_calculate_rms_empty() {
    let empty: Vec<i64> = vec![];
    let rms = calculate_rms(&empty);
    assert_eq!(rms, 0, "Empty buffer should return 0 RMS");
}

#[test]
fn test_calculate_rms_rounds_down() {
    // mean square of [3, 4] is (9 + 16) / 2 = 12, so the rms floor is 3
    let data = vec![3i64, 4i64];
    assert_eq!(calculate_rms(&data), 3);
}

#[test]
fn test_calculate_rms_sign_invariant() {
    let pos = vec![700i64; 320];
    let neg = vec![-700i64; 320];
    assert_eq!(calculate_rms(&pos), calculate_rms(&neg));
    assert_eq!(calculate_rms(&pos), 700);
}

#[test]
fn test_high_pass_step_values() {
    let mut hp = HighPassState::new();
    // first sample: difference 1000, pole 19/20 gives 950, gain 5.62 gives 5339
    let y = hp.step(1000);
    assert_eq!(hp.prev_in, 1000);
    assert_eq!(hp.prev_out, 950);
    assert_eq!(y, 5339);
    // constant input decays: 19 * (950 + 1000 - 1000) / 20 = 902
    let y2 = hp.step(1000);
    assert_eq!(hp.prev_out, 902);
    assert_eq!(y2, 5069);
}

#[test]
fn test_high_pass_silence_settles() {
    let mut hp = HighPassState::new();
    assert_eq!(hp.step(0), 0);
    assert_eq!(hp.step(0), 0);
}

#[test]
fn test_vad_hysteresis() {
    let mut s = SpeechState::new(0);
    assert!(!s.speaking);
    // loud window: speech begins, silence clock resets
    s.update(100, 50);
    assert!(s.speaking);
    // a short pause does not end speech
    s.update(100 + SILENCE_DURATION_MS, 0);
    assert!(s.speaking);
    // a pause longer than the threshold does
    s.update(101 + SILENCE_DURATION_MS, 0);
    assert!(!s.speaking);
}

#[test]
fn test_vad_quiet_below_threshold() {
    let mut s = SpeechState::new(0);
    // energy at the threshold does not start speech
    s.update(100, 10);
    assert!(!s.speaking);
    s.update(200, 11);
    assert!(s.speaking);
}
