use chatgpt_translator::prompt::fill_placeholders;
use chatgpt_translator::{resolve_prompt, DEFAULT_USER_PROMPT};

#[test]
fn placeholders_are_substituted() {
    let r = fill_placeholders("Render {source} prose in {target}.", "Japanese", "English");
    assert_eq!(r, "Render Japanese prose in English.");
    assert!(!r.contains("{source}"));
    assert!(!r.contains("{target}"));
}

#[test]
fn every_placeholder_occurrence_is_substituted() {
    let r = fill_placeholders("{target}{source}{target}", "ja", "en");
    assert_eq!(r, "enjaen");
}

#[test]
fn inserted_names_are_not_scanned_again() {
    assert_eq!(fill_placeholders("{source}", "{target}", "en"), "{target}");
    assert_eq!(fill_placeholders("{target}", "ja", "{source}"), "{source}");
    assert_eq!(fill_placeholders("{{source}}", "ja", "en"), "{ja}");
    assert_eq!(fill_placeholders("{sourc", "ja", "en"), "{sourc");
    assert_eq!(fill_placeholders("", "ja", "en"), "");
}

#[test]
fn override_text_wins_over_file() {
    let r = resolve_prompt(
        Some("from the file {source}".to_string()),
        Some("literal {source}".to_string()),
        "default",
        "Japanese",
        "English",
    );
    assert_eq!(r, "literal Japanese");
}

#[test]
fn file_wins_over_default() {
    let r = resolve_prompt(
        Some("file: {source} -> {target}".to_string()),
        None,
        "default",
        "Japanese",
        "English",
    );
    assert_eq!(r, "file: Japanese -> English");
}

#[test]
fn default_is_used_without_overrides() {
    let r = resolve_prompt(None, None, "use {target}", "Japanese", "English");
    assert_eq!(r, "use English");
    let d = resolve_prompt(None, None, DEFAULT_USER_PROMPT, "Japanese", "English");
    assert!(d.contains("Japanese") && d.contains("English"));
    assert!(!d.contains("{source}") && !d.contains("{target}"));
}

#[test]
fn filled_default_prompt_has_no_braces() {
    let d = fill_placeholders(DEFAULT_USER_PROMPT, "Japanese", "English");
    assert!(!d.contains('{') && !d.contains('}'));
}
