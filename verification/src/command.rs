use vstd::prelude::*;
use vstd::string::{StrSliceExecFns, StringExecFns};

use crate::chars::{chars_to_string, contains_sub, find_sub, push_char, str_to_chars, trim_chars, trim_spec};
use crate::errors::VoiceError;
use crate::filler::{split_words, split_ws};
use crate::json::{extract_json_string, spec_extract};
use crate::snippets::esc_seq;

verus! {

/// Where the local language-model collaborator listens by default.
pub const OLLAMA_DEFAULT_URL: &'static str = "http://localhost:11434/api/generate";

/// The model asked for by default.
pub const OLLAMA_DEFAULT_MODEL: &'static str = "llama3";

/// The instruction sent with every editing command.
pub const AI_SYSTEM_PROMPT: &'static str = "You are a text editor. Execute the user's command on the following text. \nReturn ONLY the modified text with no explanation, no markdown formatting, no quotes around it. \nJust the raw edited text, nothing else.";

/// Escaping for a text placed inside a quoted field of the request body.
pub open spec fn esc_json_char(c: char) -> Seq<char> {
    if c == '\\' {
        seq!['\\', '\\']
    } else if c == '"' {
        seq!['\\', '"']
    } else if c == '\n' {
        seq!['\\', 'n']
    } else {
        seq![c]
    }
}

/// Escaping for the model name, which carries no newlines.
pub open spec fn esc_model_char(c: char) -> Seq<char> {
    if c == '\\' {
        seq!['\\', '\\']
    } else if c == '"' {
        seq!['\\', '"']
    } else {
        seq![c]
    }
}

/// A quoted-field text, escaped.
pub open spec fn esc_json(s: Seq<char>) -> Seq<char> {
    esc_seq(s, |c: char| esc_json_char(c))
}

/// A model name, escaped.
pub open spec fn esc_model(s: Seq<char>) -> Seq<char> {
    esc_seq(s, |c: char| esc_model_char(c))
}

/// The prompt handed to the model: the trimmed command, then the text.
pub open spec fn spec_command_prompt(selected: Seq<char>, cmd: Seq<char>) -> Seq<char> {
    "Command: "@ + trim_spec(cmd) + "\n\nText to edit:\n"@ + selected
}

/// The request body, with every field escaped.
pub open spec fn spec_command_body(selected: Seq<char>, cmd: Seq<char>, model: Seq<char>) -> Seq<
    char,
> {
    "{\"model\":\""@ + esc_model(model) + "\",\"prompt\":\""@ + esc_json(
        spec_command_prompt(selected, cmd),
    ) + "\",\"system\":\""@ + esc_json(AI_SYSTEM_PROMPT@) + "\",\"stream\":false}"@
}

/// A fully prepared request for the language-model collaborator: the
/// surrounding application posts `body` to `url` and hands the answer to
/// `interpret_command_response`.
#[derive(Debug)]
pub struct CommandRequest {
    pub url: String,
    pub body: String,
}

/// Append `s` escaped as a quoted-field text.
fn append_escaped_json(out: &mut String, s: &str)
    ensures
        final(out)@ == old(out)@ + esc_json(s@),
{
    let sc = str_to_chars(s);
    let n = sc.len();
    let mut i: usize = 0;
    proof {
        assert(sc@.skip(0) =~= s@);
        assert(old(out)@ + esc_json(s@) =~= out@ + esc_json(sc@.skip(0)));
    }
    while i < n
        invariant
            n == sc@.len(),
            sc@ == s@,
            i <= n,
            old(out)@ + esc_json(s@) == out@ + esc_json(sc@.skip(i as int)),
        decreases n - i,
    {
        let ghost tail = sc@.skip(i as int);
        let ghost f = |c: char| esc_json_char(c);
        proof {
            assert(tail[0] == sc@[i as int]);
            assert(tail.drop_first() =~= sc@.skip(i + 1));
            assert(esc_seq(tail, f) == f(tail[0]) + esc_seq(sc@.skip(i + 1), f));
        }
        let c = sc[i];
        if c == '\\' {
            push_char(out, '\\');
            push_char(out, '\\');
        } else if c == '"' {
            push_char(out, '\\');
            push_char(out, '"');
        } else if c == '\n' {
            push_char(out, '\\');
            push_char(out, 'n');
        } else {
            push_char(out, c);
        }
        proof {
            assert(old(out)@ + esc_json(s@) =~= out@ + esc_json(sc@.skip(i + 1)));
        }
        i = i + 1;
    }
    proof {
        assert(sc@.skip(n as int) =~= Seq::<char>::empty());
        assert(esc_json(sc@.skip(n as int)) =~= Seq::<char>::empty());
        assert(final(out)@ =~= old(out)@ + esc_json(s@));
    }
}

/// Append `s` escaped as a model name.
fn append_escaped_model(out: &mut String, s: &str)
    ensures
        final(out)@ == old(out)@ + esc_model(s@),
{
    let sc = str_to_chars(s);
    let n = sc.len();
    let mut i: usize = 0;
    proof {
        assert(sc@.skip(0) =~= s@);
        assert(old(out)@ + esc_model(s@) =~= out@ + esc_model(sc@.skip(0)));
    }
    while i < n
        invariant
            n == sc@.len(),
            sc@ == s@,
            i <= n,
            old(out)@ + esc_model(s@) == out@ + esc_model(sc@.skip(i as int)),
        decreases n - i,
    {
        let ghost tail = sc@.skip(i as int);
        let ghost f = |c: char| esc_model_char(c);
        proof {
            assert(tail[0] == sc@[i as int]);
            assert(tail.drop_first() =~= sc@.skip(i + 1));
            assert(esc_seq(tail, f) == f(tail[0]) + esc_seq(sc@.skip(i + 1), f));
        }
        let c = sc[i];
        if c == '\\' {
            push_char(out, '\\');
            push_char(out, '\\');
        } else if c == '"' {
            push_char(out, '\\');
            push_char(out, '"');
        } else {
            push_char(out, c);
        }
        proof {
            assert(old(out)@ + esc_model(s@) =~= out@ + esc_model(sc@.skip(i + 1)));
        }
        i = i + 1;
    }
    proof {
        assert(sc@.skip(n as int) =~= Seq::<char>::empty());
        assert(esc_model(sc@.skip(n as int)) =~= Seq::<char>::empty());
        assert(final(out)@ =~= old(out)@ + esc_model(s@));
    }
}

/// Validate an editing command and prepare its request.
///
/// An empty selection and an empty command are rejected with distinct
/// errors before any request exists, so no network call is ever made for
/// them.
pub fn process_ai_command_with_config(
    selected_text: String,
    voice_command: String,
    ollama_url: String,
    model: String,
) -> (r: Result<CommandRequest, VoiceError>)
    ensures
        trim_spec(selected_text@).len() == 0 ==> r == Err::<CommandRequest, VoiceError>(
            VoiceError::NoTextSelected,
        ),
        trim_spec(selected_text@).len() > 0 && trim_spec(voice_command@).len() == 0 ==> r
            == Err::<CommandRequest, VoiceError>(VoiceError::NoVoiceCommand),
        trim_spec(selected_text@).len() > 0 && trim_spec(voice_command@).len() > 0 ==> r is Ok,
        r matches Ok(req) ==> req.url@ == ollama_url@ && req.body@ == spec_command_body(
            selected_text@,
            voice_command@,
            model@,
        ),
{
    let st = trim_chars(&str_to_chars(selected_text.as_str()));
    if st.len() == 0 {
        return Err(VoiceError::NoTextSelected);
    }
    let ct = trim_chars(&str_to_chars(voice_command.as_str()));
    if ct.len() == 0 {
        return Err(VoiceError::NoVoiceCommand);
    }
    let cmd_trimmed = chars_to_string(&ct);
    let mut prompt = String::new();
    prompt.append("Command: ");
    prompt.append(cmd_trimmed.as_str());
    prompt.append("\n\nText to edit:\n");
    prompt.append(selected_text.as_str());
    proof {
        assert(prompt@ =~= spec_command_prompt(selected_text@, voice_command@));
    }
    let mut body = String::new();
    body.append("{\"model\":\"");
    append_escaped_model(&mut body, model.as_str());
    body.append("\",\"prompt\":\"");
    append_escaped_json(&mut body, prompt.as_str());
    body.append("\",\"system\":\"");
    append_escaped_json(&mut body, AI_SYSTEM_PROMPT);
    body.append("\",\"stream\":false}");
    proof {
        assert(body@ =~= spec_command_body(selected_text@, voice_command@, model@));
    }
    Ok(CommandRequest { url: ollama_url, body })
}

/// Prepare an editing command against the default collaborator.
pub fn process_ai_command(selected_text: String, voice_command: String) -> (r: Result<
    CommandRequest,
    VoiceError,
>)
    ensures
        trim_spec(selected_text@).len() == 0 ==> r == Err::<CommandRequest, VoiceError>(
            VoiceError::NoTextSelected,
        ),
        trim_spec(selected_text@).len() > 0 && trim_spec(voice_command@).len() == 0 ==> r
            == Err::<CommandRequest, VoiceError>(VoiceError::NoVoiceCommand),
        trim_spec(selected_text@).len() > 0 && trim_spec(voice_command@).len() > 0 ==> r is Ok,
        r matches Ok(req) ==> req.url@ == OLLAMA_DEFAULT_URL@ && req.body@ == spec_command_body(
            selected_text@,
            voice_command@,
            OLLAMA_DEFAULT_MODEL@,
        ),
{
    process_ai_command_with_config(
        selected_text,
        voice_command,
        OLLAMA_DEFAULT_URL.to_owned(),
        OLLAMA_DEFAULT_MODEL.to_owned(),
    )
}

/// Read the collaborator's answer: the `response` field, trimmed; an
/// absent field or an empty text is an error.
pub fn interpret_command_response(body: &str) -> (r: Result<String, VoiceError>)
    ensures
        spec_extract(body@, "response"@) is None ==> r == Err::<String, VoiceError>(
            VoiceError::MalformedResponse,
        ),
        spec_extract(body@, "response"@) is Some && trim_spec(
            spec_extract(body@, "response"@)->0,
        ).len() == 0 ==> r == Err::<String, VoiceError>(VoiceError::EmptyResponse),
        spec_extract(body@, "response"@) is Some && trim_spec(
            spec_extract(body@, "response"@)->0,
        ).len() > 0 ==> (r matches Ok(t) && t@ == trim_spec(
            spec_extract(body@, "response"@)->0,
        )),
{
    match extract_json_string(body, "response") {
        None => Err(VoiceError::MalformedResponse),
        Some(v) => {
            let t = trim_chars(&str_to_chars(v.as_str()));
            if t.len() == 0 {
                Err(VoiceError::EmptyResponse)
            } else {
                Ok(chars_to_string(&t))
            }
        },
    }
}

// ─── Optional semantic correction ─────────────────────────────────────

/// Texts with fewer words than this are never sent for correction.
pub const MIN_CORRECTION_WORDS: usize = 3;

/// The instruction sent for grammar correction.
pub const CORRECTION_INSTRUCTION: &'static str = "Fix the grammar and remove hesitation markers. Return only the corrected text.";

/// The prompt sent when a text is corrected.
pub open spec fn spec_correction_prompt(text: Seq<char>) -> Seq<char> {
    CORRECTION_INSTRUCTION@ + "\n\n"@ + text
}

/// Decide whether a text is sent for semantic correction, and with what
/// prompt. Nothing is sent when the stage is disabled or the text is
/// shorter than the minimum word count.
pub fn correction_request(text: &str, enabled: bool) -> (r: Option<String>)
    ensures
        !enabled ==> r is None,
        enabled && split_ws(text@).len() < MIN_CORRECTION_WORDS ==> r is None,
        enabled && split_ws(text@).len() >= MIN_CORRECTION_WORDS ==> (r matches Some(p) && p@
            == spec_correction_prompt(text@)),
{
    if !enabled {
        return None;
    }
    let tc = str_to_chars(text);
    let ws = split_words(&tc);
    proof {
        assert(ws.deep_view().len() == ws@.len());
    }
    if ws.len() < MIN_CORRECTION_WORDS {
        return None;
    }
    let mut p = String::new();
    p.append(CORRECTION_INSTRUCTION);
    p.append("\n\n");
    p.append(text);
    proof {
        assert(p@ =~= spec_correction_prompt(text@));
    }
    Some(p)
}

/// Fold the collaborator's answer back: a missing, failed or blank answer
/// leaves the text unchanged; otherwise the trimmed answer replaces it.
pub fn apply_correction(text: &str, outcome: Option<String>) -> (r: String)
    ensures
        outcome is None ==> r@ == text@,
        outcome is Some && trim_spec((outcome->0)@).len() == 0 ==> r@ == text@,
        outcome is Some && trim_spec((outcome->0)@).len() > 0 ==> r@ == trim_spec((outcome->0)@),
{
    match outcome {
        None => text.to_owned(),
        Some(s) => {
            let t = trim_chars(&str_to_chars(s.as_str()));
            if t.len() == 0 {
                text.to_owned()
            } else {
                chars_to_string(&t)
            }
        },
    }
}

/// Classify the collaborator's status answer: a body that mentions models
/// means a connected instance with models, any other a running instance
/// without them. (An unreachable instance never yields a body.)
pub fn interpret_ollama_status(body: &str) -> (r: String)
    ensures
        find_sub(body@, "models"@) is Some ==> r@ == "connected"@,
        find_sub(body@, "models"@) is None ==> r@ == "running_no_models"@,
{
    let bc = str_to_chars(body);
    let pat = str_to_chars("models");
    if contains_sub(&bc, &pat) {
        "connected".to_owned()
    } else {
        "running_no_models".to_owned()
    }
}

} // verus!
