use chatgpt_translator::{
    Error, Model, ReadyForTranslation, Role, Translator, Uninitialized, DEFAULT_SYSTEM_PROMPT,
};

fn config(key: &str) -> Uninitialized {
    Uninitialized {
        openai_api_key: key.to_string(),
        model: Model::Gpt4OMini,
        max_tokens: 16384,
        system_prompt_file: None,
        user_prompt_file: Some("From {source} into {target}:".to_string()),
        system_prompt_text: None,
        user_prompt_text: None,
        source_language: "Japanese".to_string(),
        target_language: "English".to_string(),
    }
}

#[test]
fn empty_credential_is_refused() {
    assert!(matches!(Translator::from(config("")), Err(Error::Config(_))));
}

#[test]
fn ready_translator_holds_resolved_prompts() {
    let t = Translator::from(config("SECRET-REDACTED")).unwrap();
    let s: &ReadyForTranslation = t.state();
    assert_eq!(s.api_key, "SECRET-REDACTED");
    assert_eq!(s.model, Model::Gpt4OMini);
    assert_eq!(s.max_tokens, 16384);
    assert_eq!(s.system_prompt, DEFAULT_SYSTEM_PROMPT);
    assert_eq!(s.user_prompt, "From Japanese into English:");
}

#[test]
fn override_text_gets_placeholders_filled() {
    let mut c = config("k");
    c.system_prompt_text = Some("Be terse about {target}.".to_string());
    c.user_prompt_text = Some("Go:".to_string());
    let t = Translator::from(c).unwrap();
    assert_eq!(t.state().system_prompt, "Be terse about English.");
    assert_eq!(t.state().user_prompt, "Go:");
}

#[test]
fn request_messages() {
    let t = Translator::from(config("k")).unwrap();
    let m = t.messages("# Title\n本文");
    assert_eq!(m.len(), 2);
    assert_eq!(m[0].role, Role::System);
    assert_eq!(m[0].content, DEFAULT_SYSTEM_PROMPT);
    assert_eq!(m[1].role, Role::User);
    assert_eq!(m[1].content, "From Japanese into English:\n# Title\n本文");
}

#[test]
fn replies_skip_choices_without_text() {
    let r = Translator::<ReadyForTranslation>::replies(vec![
        Some("one".to_string()),
        None,
        Some("two".to_string()),
    ]);
    assert_eq!(r, vec!["one".to_string(), "two".to_string()]);
    assert!(Translator::<ReadyForTranslation>::replies(vec![None]).is_empty());
}
