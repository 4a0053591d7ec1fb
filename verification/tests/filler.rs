use voicepipe::clean_filler_words;

#[test]
fn test_clean_filler_basic() {
    let input = "I um want to uh create a function";
    let result = clean_filler_words(input);
    assert_eq!(result, "I want to create a function");
}

#[test]
fn test_clean_filler_multiple() {
    let input = "so um like basically I you know think hmm we should";
    let result = clean_filler_words(input);
    assert_eq!(result, "so I think we should");
}

#[test]
fn test_clean_filler_no_false_positives() {
    // "like" as legitimate word, "plumber" contains "um" substring
    let input = "I would like to book a plumber";
    let result = clean_filler_words(input);
    // "like" as standalone filler IS removed, but "plumber" is preserved
    assert_eq!(result, "I would to book a plumber");
}

#[test]
fn test_clean_filler_empty() {
    let input = "";
    let result = clean_filler_words(input);
    assert_eq!(result, "");
}

#[test]
fn test_clean_filler_idempotent() {
    let inputs = [
        "I um want to uh create a function",
        "so um like basically I you know think hmm we should",
        "you sort of know",
        "  um,  hello   world  ",
        "",
    ];
    for input in inputs {
        let once = clean_filler_words(input);
        let twice = clean_filler_words(&once);
        assert_eq!(twice, once);
    }
}

#[test]
fn test_clean_filler_cascading_removal() {
    // removing "sort of" uncovers "you know", which a single pass would miss
    let result = clean_filler_words("you sort of know what happened");
    assert_eq!(result, "what happened");
}

#[test]
fn test_clean_filler_two_word_phrases() {
    let result = clean_filler_words("this is kind of hard and I mean it");
    assert_eq!(result, "this is hard and it");
}

#[test]
fn test_clean_filler_comma_tokens() {
    let result = clean_filler_words("well um, maybe uh, later hmm, yes");
    assert_eq!(result, "well maybe later yes");
}

#[test]
fn test_clean_filler_collapses_whitespace() {
    let result = clean_filler_words("  spaced \t out\ntext  ");
    assert_eq!(result, "spaced out text");
}

#[test]
fn test_clean_filler_case_sensitive_tokens() {
    // the filler table holds "I mean" with a capital I; "i mean" stays
    let result = clean_filler_words("i mean it");
    assert_eq!(result, "i mean it");
}
