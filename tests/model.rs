use chatgpt_translator::{Error, Model};

#[test]
fn model_names_select_models() {
    assert_eq!(Model::from_str("4o").unwrap(), Model::Gpt4O);
    assert_eq!(Model::from_str("gpt-4o-mini").unwrap(), Model::Gpt4O);
    assert_eq!(Model::from_str("mini").unwrap(), Model::Gpt4OMini);
    assert_eq!(Model::from_str("4").unwrap(), Model::Gpt4Turbo);
    assert_eq!(Model::from_str("35").unwrap(), Model::Gpt35Turbo);
}

#[test]
fn unknown_model_is_refused() {
    match Model::from_str("llama") {
        Err(Error::UnknownModel(s)) => assert_eq!(s, "llama"),
        other => panic!("unexpected: {:?}", other),
    }
}

#[test]
fn model_identifiers() {
    assert_eq!(Model::Gpt4O.name(), "gpt-4o");
    assert_eq!(Model::Gpt4OMini.name(), "gpt-4o-mini");
    assert_eq!(Model::Gpt4Turbo.name(), "gpt-4-turbo");
    assert_eq!(Model::Gpt35Turbo.name(), "gpt-3.5-turbo");
}
