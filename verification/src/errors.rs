use vstd::prelude::*;

verus! {

/// The failures this library reports to its callers.
///
/// Validation failures carry no payload; the offending input is already in
/// the caller's hands, and `message` renders a fixed description.
#[derive(Clone, Copy, Debug, PartialEq, Eq, Structural)]
pub enum VoiceError {
    /// A snippet with a case-insensitively equal trigger already exists.
    DuplicateTrigger,
    /// No snippet with the given trigger exists.
    UnknownTrigger,
    /// A command was issued with no selected text.
    NoTextSelected,
    /// A command was issued with an empty voice command.
    NoVoiceCommand,
    /// The language-model collaborator answered with an empty text.
    EmptyResponse,
    /// The language-model collaborator's answer held no response field.
    MalformedResponse,
    /// A capture session is already running.
    AlreadyListening,
}

impl VoiceError {
    /// A fixed description of the failure.
    pub fn message(&self) -> (r: String)
        ensures
            *self == VoiceError::DuplicateTrigger ==> r@ == "Snippet with that trigger already exists"@,
            *self == VoiceError::UnknownTrigger ==> r@ == "No snippet with that trigger"@,
            *self == VoiceError::NoTextSelected ==> r@ == "No text selected - highlight text first"@,
            *self == VoiceError::NoVoiceCommand ==> r@ == "No voice command captured"@,
            *self == VoiceError::EmptyResponse ==> r@ == "LLM returned empty response"@,
            *self == VoiceError::MalformedResponse ==> r@ == "Could not parse LLM response"@,
            *self == VoiceError::AlreadyListening ==> r@ == "A recording session is already active"@,
    {
        match self {
            VoiceError::DuplicateTrigger => "Snippet with that trigger already exists".to_owned(),
            VoiceError::UnknownTrigger => "No snippet with that trigger".to_owned(),
            VoiceError::NoTextSelected => "No text selected - highlight text first".to_owned(),
            VoiceError::NoVoiceCommand => "No voice command captured".to_owned(),
            VoiceError::EmptyResponse => "LLM returned empty response".to_owned(),
            VoiceError::MalformedResponse => "Could not parse LLM response".to_owned(),
            VoiceError::AlreadyListening => "A recording session is already active".to_owned(),
        }
    }
}

} // verus!
