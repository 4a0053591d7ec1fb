use vstd::prelude::*;

mod audio;
mod chars;
mod command;
mod errors;
mod filler;
mod json;
mod session;
mod snippets;
mod vad;

pub use audio::{calculate_rms, HighPassState, SAMPLE_LIMIT, SAMPLE_SCALE};
pub use chars::str_to_chars;
pub use command::{
    apply_correction, correction_request, interpret_command_response, interpret_ollama_status,
    process_ai_command, process_ai_command_with_config, CommandRequest, AI_SYSTEM_PROMPT,
    CORRECTION_INSTRUCTION, MIN_CORRECTION_WORDS, OLLAMA_DEFAULT_MODEL, OLLAMA_DEFAULT_URL,
};
pub use errors::VoiceError;
pub use filler::clean_filler_words;
pub use json::{extract_json_string, parse_snippets};
pub use session::{
    postprocess_transcript, PollOutcome, Session, TranscriptionMode, MIN_NEW_SAMPLES,
    POLL_INTERVAL_MS, SAMPLE_RATE, VAD_WINDOW,
};
pub use snippets::{SnippetStore, VoiceSnippet};
pub use vad::{SpeechState, SILENCE_DURATION_MS, VAD_THRESHOLD_RMS};

verus! {

/// The release version this build reports to callers asking for updates.
pub const APP_VERSION: &'static str = "1.2.0";

/// Report the running release version.
///
/// The actual lookup of newer release tags is performed by the surrounding
/// application; the library only hands back the version it was built as.
pub fn check_for_updates() -> (r: Result<String, VoiceError>)
    ensures
        r is Ok,
        r matches Ok(v) ==> v@ == APP_VERSION@,
{
    Ok(APP_VERSION.to_owned())
}

} // verus!
