use vstd::prelude::*;

use crate::audio::{
    calculate_rms, hp_final, hp_out, samples_subrange, sqrt_floor, sum_squares, HighPassState,
    CONDITIONED_LIMIT, SAMPLE_LIMIT,
};
use crate::chars::{chars_to_string, str_to_chars, trim_chars, trim_spec};
use crate::errors::VoiceError;
use crate::filler::{clean_filler_words, spec_clean_text};
use crate::snippets::{norm_of, store_match, SnippetStore};
use crate::vad::{vad_next, SpeechState};

verus! {

/// Samples per second the pipeline assumes.
pub const SAMPLE_RATE: usize = 16000;

/// Samples in the window the voice-activity detector looks at: the most
/// recent tenth of a second.
pub const VAD_WINDOW: usize = 1600;

/// New samples that must have arrived, half a second's worth, before the
/// buffer is transcribed again.
pub const MIN_NEW_SAMPLES: usize = 8000;

/// How long the inference loop sleeps between polls, in milliseconds.
pub const POLL_INTERVAL_MS: u64 = 100;

/// How the session turns audio into text: all at once on stop, or
/// repeatedly over the growing buffer while listening.
#[derive(Clone, Copy, Debug, PartialEq, Eq, Structural)]
pub enum TranscriptionMode {
    Batch,
    Streaming,
}

/// What one poll of the session decided.
#[derive(Clone, Copy, Debug, PartialEq, Eq, Structural)]
pub struct PollOutcome {
    /// Enough new audio arrived: run inference over the whole buffer.
    pub transcribe: bool,
    /// The voice-activity state after this poll.
    pub speaking: bool,
}

/// The energy of the most recent detector window of a buffer.
pub open spec fn window_rms(buf: Seq<i64>) -> int {
    sqrt_floor(sum_squares(buf.subrange(buf.len() - VAD_WINDOW, buf.len() as int))
        / VAD_WINDOW as int)
}

/// One dictation session: the capture buffer, the listening flag, the
/// transcription mode, the sensitivity toggle, the voice-activity state
/// and the signal-conditioning filter, in one place.
pub struct Session {
    pub listening: bool,
    pub mode: TranscriptionMode,
    pub whisper_mode: bool,
    pub speech: SpeechState,
    pub buffer: Vec<i64>,
    pub last_processed: usize,
    pub filter: HighPassState,
}

impl Session {
    /// Every sample in the buffer is within the conditioned range, the
    /// filter state is in its bounds, and the re-inference mark is inside
    /// the buffer.
    pub open spec fn wf(&self) -> bool {
        &&& self.filter.wf()
        &&& self.last_processed <= self.buffer@.len()
        &&& forall|i: int|
            0 <= i < self.buffer@.len() ==> -CONDITIONED_LIMIT <= #[trigger] self.buffer@[i]
                <= CONDITIONED_LIMIT
    }

    /// An idle session in streaming mode.
    pub fn new(now_ms: u64) -> (r: Session)
        ensures
            r.wf(),
            r.listening == false,
            r.mode == TranscriptionMode::Streaming,
            r.whisper_mode == false,
            r.speech == (SpeechState { speaking: false, silence_start_ms: now_ms }),
            r.buffer@ == Seq::<i64>::empty(),
            r.last_processed == 0,
    {
        Session {
            listening: false,
            mode: TranscriptionMode::Streaming,
            whisper_mode: false,
            speech: SpeechState::new(now_ms),
            buffer: Vec::new(),
            last_processed: 0,
            filter: HighPassState::new(),
        }
    }

    /// Switch the hushed-voice sensitivity mode on or off.
    pub fn set_whisper_mode(&mut self, enabled: bool) -> (r: Result<(), VoiceError>)
        ensures
            r is Ok,
            *final(self) == (Session { whisper_mode: enabled, ..*old(self) }),
    {
        self.whisper_mode = enabled;
        Ok(())
    }

    /// Stop capturing: the producer stops appending and the inference loop
    /// exits within one poll interval.
    pub fn stop_listening(&mut self) -> (r: Result<(), VoiceError>)
        ensures
            r is Ok,
            *final(self) == (Session { listening: false, ..*old(self) }),
    {
        self.listening = false;
        Ok(())
    }

    /// Choose batch or streaming transcription.
    pub fn set_transcription_mode(&mut self, batch: bool) -> (r: Result<(), VoiceError>)
        ensures
            r is Ok,
            batch ==> *final(self) == (Session { mode: TranscriptionMode::Batch, ..*old(self) }),
            !batch ==> *final(self) == (Session {
                mode: TranscriptionMode::Streaming,
                ..*old(self)
            }),
    {
        if batch {
            self.mode = TranscriptionMode::Batch;
        } else {
            self.mode = TranscriptionMode::Streaming;
        }
        Ok(())
    }

    /// The current transcription mode, by name.
    pub fn get_transcription_mode(&self) -> (r: String)
        ensures
            self.mode == TranscriptionMode::Batch ==> r@ == "batch"@,
            self.mode == TranscriptionMode::Streaming ==> r@ == "streaming"@,
    {
        match self.mode {
            TranscriptionMode::Batch => "batch".to_owned(),
            TranscriptionMode::Streaming => "streaming".to_owned(),
        }
    }

    /// Begin a capture session: clear the buffer, reset the detector and
    /// the filter, raise the listening flag. Starting while already
    /// listening fails without changing anything.
    pub fn start_recording(&mut self, mode: TranscriptionMode, now_ms: u64) -> (r: Result<
        (),
        VoiceError,
    >)
        ensures
            old(self).listening ==> r == Err::<(), VoiceError>(VoiceError::AlreadyListening)
                && *final(self) == *old(self),
            !old(self).listening ==> r is Ok && *final(self) == (Session {
                listening: true,
                mode: mode,
                whisper_mode: old(self).whisper_mode,
                speech: SpeechState { speaking: false, silence_start_ms: now_ms },
                buffer: final(self).buffer,
                last_processed: 0,
                filter: HighPassState { prev_in: 0, prev_out: 0 },
            }) && final(self).buffer@ == Seq::<i64>::empty(),
            r is Ok ==> final(self).wf(),
    {
        if self.listening {
            return Err(VoiceError::AlreadyListening);
        }
        self.listening = true;
        self.mode = mode;
        self.speech = SpeechState::new(now_ms);
        self.buffer = Vec::new();
        self.last_processed = 0;
        self.filter = HighPassState::new();
        Ok(())
    }

    /// How many samples the buffer holds.
    pub fn buffer_len(&self) -> (r: usize)
        ensures
            r == self.buffer@.len(),
    {
        self.buffer.len()
    }

    /// A point-in-time copy of the whole buffer.
    pub fn snapshot_buffer(&self) -> (r: Vec<i64>)
        ensures
            r@ == self.buffer@,
    {
        let n = self.buffer.len();
        let r = samples_subrange(&self.buffer, 0, n);
        proof {
            assert(self.buffer@.subrange(0, n as int) =~= self.buffer@);
        }
        r
    }

    /// The capture callback's work: append a chunk of samples while
    /// listening. In the hushed-voice mode each sample first passes the
    /// high-pass filter and the gain stage; otherwise it is appended as it
    /// came. When not listening the chunk is dropped.
    pub fn append_samples(&mut self, chunk: &Vec<i64>)
        requires
            old(self).wf(),
            forall|i: int|
                0 <= i < chunk@.len() ==> -SAMPLE_LIMIT <= #[trigger] chunk@[i] <= SAMPLE_LIMIT,
        ensures
            final(self).wf(),
            !old(self).listening ==> *final(self) == *old(self),
            old(self).listening && !old(self).whisper_mode ==> *final(self) == (Session {
                buffer: final(self).buffer,
                ..*old(self)
            }) && final(self).buffer@ == old(self).buffer@ + chunk@,
            old(self).listening && old(self).whisper_mode ==> *final(self) == (Session {
                buffer: final(self).buffer,
                filter: hp_final(old(self).filter, chunk@),
                ..*old(self)
            }) && final(self).buffer@ == old(self).buffer@ + hp_out(old(self).filter, chunk@),
    {
        if !self.listening {
            return ;
        }
        let n = chunk.len();
        let mut i: usize = 0;
        if !self.whisper_mode {
            proof {
                assert(self.buffer@ =~= old(self).buffer@ + chunk@.subrange(0, 0));
            }
            while i < n
                invariant
                    n == chunk@.len(),
                    i <= n,
                    forall|j: int|
                        0 <= j < chunk@.len() ==> -SAMPLE_LIMIT <= #[trigger] chunk@[j]
                            <= SAMPLE_LIMIT,
                    *self == (Session { buffer: self.buffer, ..*old(self) }),
                    self.buffer@ == old(self).buffer@ + chunk@.subrange(0, i as int),
                    old(self).wf(),
                decreases n - i,
            {
                self.buffer.push(chunk[i]);
                i = i + 1;
                proof {
                    assert(self.buffer@ =~= old(self).buffer@ + chunk@.subrange(0, i as int));
                }
            }
            proof {
                assert(chunk@.subrange(0, n as int) =~= chunk@);
                assert forall|j: int|
                    0 <= j < self.buffer@.len() implies -CONDITIONED_LIMIT
                    <= #[trigger] self.buffer@[j] <= CONDITIONED_LIMIT by {
                    if j < old(self).buffer@.len() {
                    } else {
                        assert(self.buffer@[j] == chunk@[j - old(self).buffer@.len()]);
                    }
                }
            }
        } else {
            proof {
                assert(chunk@.skip(0) =~= chunk@);
                assert(self.buffer@ + hp_out(self.filter, chunk@.skip(0)) =~= old(self).buffer@
                    + hp_out(old(self).filter, chunk@));
            }
            while i < n
                invariant
                    n == chunk@.len(),
                    i <= n,
                    forall|j: int|
                        0 <= j < chunk@.len() ==> -SAMPLE_LIMIT <= #[trigger] chunk@[j]
                            <= SAMPLE_LIMIT,
                    *self == (Session { buffer: self.buffer, filter: self.filter, ..*old(self) }),
                    self.filter.wf(),
                    hp_final(old(self).filter, chunk@) == hp_final(
                        self.filter,
                        chunk@.skip(i as int),
                    ),
                    old(self).buffer@ + hp_out(old(self).filter, chunk@) == self.buffer@ + hp_out(
                        self.filter,
                        chunk@.skip(i as int),
                    ),
                    old(self).wf(),
                    self.last_processed <= self.buffer@.len(),
                    forall|j: int|
                        0 <= j < self.buffer@.len() ==> -CONDITIONED_LIMIT
                            <= #[trigger] self.buffer@[j] <= CONDITIONED_LIMIT,
                decreases n - i,
            {
                let ghost tail = chunk@.skip(i as int);
                let ghost pre_filter = self.filter;
                let ghost pre_buffer = self.buffer@;
                proof {
                    assert(tail[0] == chunk@[i as int]);
                    assert(tail.drop_first() =~= chunk@.skip(i + 1));
                }
                let y = self.filter.step(chunk[i]);
                self.buffer.push(y);
                i = i + 1;
                proof {
                    assert(hp_out(pre_filter, tail) == seq![y] + hp_out(
                        self.filter,
                        chunk@.skip(i as int),
                    ));
                    assert(self.buffer@ + hp_out(self.filter, chunk@.skip(i as int))
                        =~= pre_buffer + hp_out(pre_filter, tail));
                }
            }
            proof {
                assert(chunk@.skip(n as int) =~= Seq::<i64>::empty());
                assert(self.buffer@ =~= old(self).buffer@ + hp_out(old(self).filter, chunk@));
            }
        }
    }

    /// One turn of the inference loop: evaluate voice activity over the
    /// most recent window, and decide whether enough new audio has arrived
    /// to re-run transcription over the whole buffer.
    pub fn poll(&mut self, now_ms: u64) -> (r: PollOutcome)
        requires
            old(self).wf(),
            old(self).speech.silence_start_ms <= now_ms,
        ensures
            final(self).wf(),
            final(self).listening == old(self).listening,
            final(self).mode == old(self).mode,
            final(self).whisper_mode == old(self).whisper_mode,
            final(self).buffer == old(self).buffer,
            final(self).filter == old(self).filter,
            old(self).buffer@.len() > VAD_WINDOW ==> final(self).speech == vad_next(
                old(self).speech,
                now_ms,
                window_rms(old(self).buffer@) as u64,
            ),
            old(self).buffer@.len() <= VAD_WINDOW ==> final(self).speech == old(self).speech,
            r.speaking == final(self).speech.speaking,
            r.transcribe == (old(self).buffer@.len() > old(self).last_processed
                + MIN_NEW_SAMPLES),
            r.transcribe ==> final(self).last_processed == old(self).buffer@.len(),
            !r.transcribe ==> final(self).last_processed == old(self).last_processed,
            final(self).speech.silence_start_ms <= now_ms,
    {
        let blen = self.buffer.len();
        if blen > VAD_WINDOW {
            let window = samples_subrange(&self.buffer, blen - VAD_WINDOW, blen);
            proof {
                assert forall|j: int|
                    0 <= j < window@.len() implies -CONDITIONED_LIMIT <= #[trigger] window@[j]
                    <= CONDITIONED_LIMIT by {
                    assert(window@[j] == self.buffer@[j + blen - VAD_WINDOW]);
                }
            }
            let e = calculate_rms(&window);
            proof {
                assert(window@.len() == VAD_WINDOW as int);
                assert(e as int == window_rms(self.buffer@));
            }
            self.speech.update(now_ms, e);
        }
        let transcribe = blen > self.last_processed && blen - self.last_processed
            > MIN_NEW_SAMPLES;
        if transcribe {
            self.last_processed = blen;
        }
        PollOutcome { transcribe, speaking: self.speech.speaking }
    }
}

/// The text post-processing chain applied to a raw transcript: trim it,
/// remove filler words, and replace the whole text by a snippet's content
/// when a trigger matches.
pub fn postprocess_transcript(text: &str, store: &SnippetStore) -> (r: String)
    ensures
        match store_match(store@, norm_of(spec_clean_text(trim_spec(text@)))) {
            Some(c) => r@ == c,
            None => r@ == spec_clean_text(trim_spec(text@)),
        },
{
    let tc = str_to_chars(text);
    let trimmed = trim_chars(&tc);
    let trimmed_s = chars_to_string(&trimmed);
    let cleaned = clean_filler_words(trimmed_s.as_str());
    store.apply_snippet_expansion(cleaned.as_str())
}

} // verus!
