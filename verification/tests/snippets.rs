use voicepipe::{parse_snippets, SnippetStore, VoiceError, VoiceSnippet};

#[test]
fn test_snippet_match_exact() {
    let mut store = SnippetStore::new();
    store
        .add_snippet(
            "insert bio".to_string(),
            "I am a software engineer...".to_string(),
        )
        .unwrap();
    let result = store.match_snippet("insert bio");
    assert!(result.is_some());
    assert_eq!(result.unwrap(), "I am a software engineer...");
}

#[test]
fn test_snippet_match_case_insensitive() {
    let mut store = SnippetStore::new();
    store
        .add_snippet("Insert Bio".to_string(), "Bio content here".to_string())
        .unwrap();
    let result = store.match_snippet("INSERT BIO");
    assert!(result.is_some());
    assert_eq!(result.unwrap(), "Bio content here");
}

#[test]
fn test_snippet_no_match() {
    let mut store = SnippetStore::new();
    store
        .add_snippet("insert bio".to_string(), "Bio content here".to_string())
        .unwrap();
    let result = store.match_snippet("hello world");
    assert!(result.is_none());
}

#[test]
fn test_snippet_match_suffix() {
    let mut store = SnippetStore::new();
    store
        .add_snippet("insert bio".to_string(), "Bio content here".to_string())
        .unwrap();
    let result = store.match_snippet("please insert bio");
    assert_eq!(result.unwrap(), "Bio content here");
    assert!(store.match_snippet("insert bios").is_none());
}

#[test]
fn test_add_duplicate_trigger_fails_without_mutation() {
    let mut store = SnippetStore::new();
    store
        .add_snippet("Insert Bio".to_string(), "first".to_string())
        .unwrap();
    let before = store.get_snippets();
    let result = store.add_snippet("insert bio".to_string(), "second".to_string());
    assert_eq!(result.unwrap_err(), VoiceError::DuplicateTrigger);
    assert_eq!(store.len(), 1);
    assert_eq!(store.get_snippets(), before);
    assert_eq!(store.match_snippet("insert bio").unwrap(), "first");
}

#[test]
fn test_remove_missing_trigger_fails_without_mutation() {
    let mut store = SnippetStore::new();
    store
        .add_snippet("insert bio".to_string(), "content".to_string())
        .unwrap();
    let before = store.get_snippets();
    let result = store.remove_snippet("no such trigger".to_string());
    assert_eq!(result.unwrap_err(), VoiceError::UnknownTrigger);
    assert_eq!(store.len(), 1);
    assert_eq!(store.get_snippets(), before);
}

#[test]
fn test_remove_trigger_case_insensitive() {
    let mut store = SnippetStore::new();
    store
        .add_snippet("Insert Bio".to_string(), "content".to_string())
        .unwrap();
    store.remove_snippet("INSERT BIO".to_string()).unwrap();
    assert_eq!(store.len(), 0);
    assert!(store.match_snippet("insert bio").is_none());
}

#[test]
fn test_apply_snippet_expansion_replaces_whole_text() {
    let mut store = SnippetStore::new();
    store
        .add_snippet("insert bio".to_string(), "Bio content here".to_string())
        .unwrap();
    assert_eq!(
        store.apply_snippet_expansion("well then insert bio"),
        "Bio content here"
    );
    assert_eq!(store.apply_snippet_expansion("nothing here"), "nothing here");
}

#[test]
fn test_get_snippets_serialization() {
    let mut store = SnippetStore::new();
    store
        .add_snippet("insert bio".to_string(), "Hello world".to_string())
        .unwrap();
    store
        .add_snippet("sig".to_string(), "Line one\nwith \"quotes\"".to_string())
        .unwrap();
    let json = store.get_snippets();
    assert_eq!(
        json,
        "{\"snippets\":[{\"trigger\":\"insert bio\",\"content\":\"Hello world\"},{\"trigger\":\"sig\",\"content\":\"Line one\\nwith \\\"quotes\\\"\"}]}"
    );
}

#[test]
fn test_parse_snippets_round_trip() {
    let mut store = SnippetStore::new();
    store
        .add_snippet("insert bio".to_string(), "Hello world".to_string())
        .unwrap();
    store
        .add_snippet("sig".to_string(), "Line one\nwith \"quotes\"".to_string())
        .unwrap();
    let json = store.get_snippets();
    let parsed = parse_snippets(&json);
    assert_eq!(parsed.len(), 2);
    assert_eq!(parsed[0].trigger, "insert bio");
    assert_eq!(parsed[0].content, "Hello world");
    assert_eq!(parsed[1].trigger, "sig");
    assert_eq!(parsed[1].content, "Line one\nwith \"quotes\"");
}

#[test]
fn test_parse_snippets_empty_record() {
    let parsed = parse_snippets("{\"snippets\": []}");
    assert_eq!(parsed.len(), 0);
    let none = parse_snippets("not a record at all");
    assert_eq!(none.len(), 0);
}

#[test]
fn test_store_from_items_keeps_order() {
    let items = vec![
        VoiceSnippet {
            trigger: "a".to_string(),
            content: "first".to_string(),
        },
        VoiceSnippet {
            trigger: "b".to_string(),
            content: "second".to_string(),
        },
    ];
    let store = SnippetStore::from_items(items);
    assert_eq!(store.len(), 2);
    assert_eq!(store.match_snippet("a").unwrap(), "first");
    assert_eq!(store.match_snippet("b").unwrap(), "second");
}
