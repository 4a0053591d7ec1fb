use vstd::prelude::*;

verus! {

/// Energy threshold above which a window counts as speech, in the same
/// fixed-point units as the samples (0.01 of full scale).
pub const VAD_THRESHOLD_RMS: u64 = 10;

/// How long energy must stay at or under the threshold, in milliseconds,
/// before speech is considered over.
pub const SILENCE_DURATION_MS: u64 = 1000;

/// The voice-activity state: whether the user is speaking, and when the
/// last stretch of silence began.
#[derive(Clone, Copy, Debug, PartialEq, Eq, Structural)]
pub struct SpeechState {
    pub speaking: bool,
    pub silence_start_ms: u64,
}

/// The state after one evaluation: loud audio starts (or confirms) speech
/// and resets the silence clock; quiet audio ends speech only once the
/// silence has lasted longer than the threshold.
pub open spec fn vad_next(s: SpeechState, now_ms: u64, rms_value: u64) -> SpeechState {
    if rms_value > VAD_THRESHOLD_RMS {
        SpeechState { speaking: true, silence_start_ms: now_ms }
    } else if s.speaking && now_ms - s.silence_start_ms > SILENCE_DURATION_MS {
        SpeechState { speaking: false, silence_start_ms: s.silence_start_ms }
    } else {
        s
    }
}

impl SpeechState {
    /// Silent, with the silence clock started now.
    pub fn new(now_ms: u64) -> (r: SpeechState)
        ensures
            r.speaking == false,
            r.silence_start_ms == now_ms,
    {
        SpeechState { speaking: false, silence_start_ms: now_ms }
    }

    /// Step the state machine with the energy of the latest window.
    pub fn update(&mut self, now_ms: u64, rms_value: u64)
        requires
            old(self).silence_start_ms <= now_ms,
        ensures
            *final(self) == vad_next(*old(self), now_ms, rms_value),
            final(self).silence_start_ms <= now_ms,
    {
        if rms_value > VAD_THRESHOLD_RMS {
            self.speaking = true;
            self.silence_start_ms = now_ms;
        } else if self.speaking && now_ms - self.silence_start_ms > SILENCE_DURATION_MS {
            self.speaking = false;
        }
    }
}

} // verus!
