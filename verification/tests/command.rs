use voicepipe::{
    apply_correction, check_for_updates, correction_request, extract_json_string,
    interpret_command_response, interpret_ollama_status, process_ai_command,
    process_ai_command_with_config, VoiceError, AI_SYSTEM_PROMPT,
};

#[test]
fn test_check_for_updates_returns_version() {
    let version = check_for_updates().unwrap();
    assert_eq!(version, "1.2.0", "Should return current version");
}

#[test]
fn test_extract_json_string() {
    let json = "{\"trigger\":\"insert bio\",\"content\":\"Hello world\"}";
    let trigger = extract_json_string(json, "trigger");
    let content = extract_json_string(json, "content");
    assert_eq!(trigger.unwrap(), "insert bio");
    assert_eq!(content.unwrap(), "Hello world");
}

#[test]
fn test_extract_json_string_unescapes() {
    let json = "{\"content\":\"line one\\nsaid \\\"hi\\\"\"}";
    let content = extract_json_string(json, "content");
    assert_eq!(content.unwrap(), "line one\nsaid \"hi\"");
}

#[test]
fn test_extract_json_string_missing_key() {
    let json = "{\"other\":\"value\"}";
    assert!(extract_json_string(json, "content").is_none());
}

#[test]
fn test_command_rejects_empty_text() {
    let result = process_ai_command_with_config(
        "".to_string(),
        "fix grammar".to_string(),
        "http://localhost:99999".to_string(),
        "test".to_string(),
    );
    assert!(result.is_err());
    assert!(result.unwrap_err().message().contains("No text selected"));
}

#[test]
fn test_command_rejects_empty_command() {
    let result = process_ai_command_with_config(
        "Hello world".to_string(),
        "".to_string(),
        "http://localhost:99999".to_string(),
        "test".to_string(),
    );
    assert!(result.is_err());
    assert!(result.unwrap_err().message().contains("No voice command"));
}

#[test]
fn test_ai_system_prompt_format() {
    // Verify the system prompt contains key instructions
    assert!(AI_SYSTEM_PROMPT.contains("text editor"));
    assert!(AI_SYSTEM_PROMPT.contains("Execute the user's command"));
    assert!(AI_SYSTEM_PROMPT.contains("ONLY the modified text"));
}

#[test]
fn test_command_request_body() {
    let req = process_ai_command("He go to store".to_string(), " fix grammar ".to_string())
        .unwrap();
    assert_eq!(req.url, "http://localhost:11434/api/generate");
    assert_eq!(
        req.body,
        format!(
            "{{\"model\":\"llama3\",\"prompt\":\"Command: fix grammar\\n\\nText to edit:\\nHe go to store\",\"system\":\"{}\",\"stream\":false}}",
            AI_SYSTEM_PROMPT.replace('\\', "\\\\").replace('"', "\\\"").replace('\n', "\\n")
        )
    );
}

#[test]
fn test_interpret_command_response_ok() {
    let body = "{\"response\":\"  Corrected text.  \"}";
    assert_eq!(interpret_command_response(body).unwrap(), "Corrected text.");
}

#[test]
fn test_interpret_command_response_empty() {
    let body = "{\"response\":\"   \"}";
    assert_eq!(
        interpret_command_response(body).unwrap_err(),
        VoiceError::EmptyResponse
    );
}

#[test]
fn test_interpret_command_response_malformed() {
    let body = "{\"unexpected\":\"shape\"}";
    assert_eq!(
        interpret_command_response(body).unwrap_err(),
        VoiceError::MalformedResponse
    );
}

#[test]
fn test_correction_disabled_returns_input_unchanged() {
    // with the stage disabled no request exists, so no call can be made
    assert!(correction_request("any text", false).is_none());
    assert_eq!(apply_correction("any text", None), "any text");
}

#[test]
fn test_correction_skips_short_text() {
    assert!(correction_request("too short", true).is_none());
    let prompt = correction_request("this text has enough words", true).unwrap();
    assert!(prompt.ends_with("this text has enough words"));
}

#[test]
fn test_apply_correction_outcomes() {
    assert_eq!(
        apply_correction("original", Some("  Fixed text. ".to_string())),
        "Fixed text."
    );
    assert_eq!(apply_correction("original", Some("   ".to_string())), "original");
}

#[test]
fn test_interpret_ollama_status() {
    assert_eq!(interpret_ollama_status("{\"models\":[]}"), "connected");
    assert_eq!(interpret_ollama_status("{}"), "running_no_models");
}
