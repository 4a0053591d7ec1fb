use voicepipe::{
    postprocess_transcript, Session, SnippetStore, TranscriptionMode, VoiceError, SAMPLE_SCALE,
};

#[test]
fn test_whisper_mode_params() {
    let mut session = Session::new(0);
    session.set_whisper_mode(true).unwrap();
    assert!(session.whisper_mode);
    assert_eq!(session.whisper_mode, true);
    session.set_whisper_mode(false).unwrap();
    assert_eq!(session.whisper_mode, false);
}

#[test]
fn test_transcription_mode_names() {
    let mut session = Session::new(0);
    assert_eq!(session.get_transcription_mode(), "streaming");
    session.set_transcription_mode(true).unwrap();
    assert_eq!(session.get_transcription_mode(), "batch");
    session.set_transcription_mode(false).unwrap();
    assert_eq!(session.get_transcription_mode(), "streaming");
}

#[test]
fn test_start_while_listening_fails() {
    let mut session = Session::new(0);
    session.start_recording(TranscriptionMode::Batch, 0).unwrap();
    let again = session.start_recording(TranscriptionMode::Batch, 0);
    assert_eq!(again.unwrap_err(), VoiceError::AlreadyListening);
    assert!(session.listening);
}

#[test]
fn test_append_ignored_when_not_listening() {
    let mut session = Session::new(0);
    session.append_samples(&vec![1, 2, 3]);
    assert_eq!(session.buffer_len(), 0);
}

#[test]
fn test_whisper_mode_conditions_samples() {
    let mut session = Session::new(0);
    session.set_whisper_mode(true).unwrap();
    session.start_recording(TranscriptionMode::Streaming, 0).unwrap();
    session.append_samples(&vec![1000]);
    let buf = session.snapshot_buffer();
    // high-pass then +15 dB gain: 19*1000/20 = 950, 950*562/100 = 5339
    assert_eq!(buf, vec![5339]);
}

#[test]
fn test_batch_session_end_to_end() {
    let mut store = SnippetStore::new();
    store
        .add_snippet("insert bio".to_string(), "I am a software engineer...".to_string())
        .unwrap();

    let mut session = Session::new(0);
    session.start_recording(TranscriptionMode::Batch, 0).unwrap();

    // one second of silence, then half a second above the threshold
    session.append_samples(&vec![0i64; 16000]);
    let quiet = session.poll(100);
    assert!(!quiet.speaking);
    assert!(quiet.transcribe, "a second of audio is enough to transcribe");

    session.append_samples(&vec![SAMPLE_SCALE; 8000]);
    let loud = session.poll(200);
    assert!(loud.speaking, "full-scale audio is speech");

    session.stop_listening().unwrap();
    assert!(!session.listening);
    let snapshot = session.snapshot_buffer();
    assert_eq!(snapshot.len(), 24000);
    assert!(!snapshot.is_empty());

    // the engine collaborator would transcribe the snapshot; its raw text
    // then runs through the post-processing chain
    let finished = postprocess_transcript("um please insert bio", &store);
    assert_eq!(finished, "I am a software engineer...");
    assert!(!finished.is_empty());
}

#[test]
fn test_poll_transcribe_threshold() {
    let mut session = Session::new(0);
    session.start_recording(TranscriptionMode::Streaming, 0).unwrap();
    session.append_samples(&vec![0i64; 8000]);
    let first = session.poll(100);
    assert!(!first.transcribe, "exactly the threshold is not enough");
    session.append_samples(&vec![0i64; 1]);
    let second = session.poll(200);
    assert!(second.transcribe, "one sample past the threshold is");
    let third = session.poll(300);
    assert!(!third.transcribe, "no new audio, no re-run");
}

#[test]
fn test_postprocess_without_match_keeps_cleaned_text() {
    let store = SnippetStore::new();
    let finished = postprocess_transcript("  I um want tea  ", &store);
    assert_eq!(finished, "I want tea");
}
