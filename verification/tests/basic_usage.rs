use ailater_im::dictionary::Dictionary;
use ailater_im::engine::InputEngine;
use ailater_im::ffi::IMReturnValue;
use ailater_im::config::Config;
use ailater_im::model::build_prompt;

#[test]
fn test_dictionary_lookup() {
    let dict = Dictionary::default();
    let results = dict.lookup("ni");
    assert!(!results.is_empty());
    assert!(results.iter().any(|e| e.word == "你"));
}

#[test]
fn test_frequency_update() {
    let mut dict = Dictionary::default();
    dict.update_frequency("ni", "你");

    let results = dict.lookup("ni");
    let ni_entry = results.iter().find(|e| e.word == "你");
    assert!(ni_entry.is_some());
}

#[test]
fn test_letter_input() {
    let mut engine = InputEngine::default();
    let ic: usize = 0;

    let result = engine.handle_key(
        0,
        ic,
        0x006e, // 'n'
        0,
        0,
        false,
    );

    assert_eq!(result, IMReturnValue::Consume);
    assert_eq!(engine.get_preedit(ic), "n");
}

#[test]
fn test_prompt_building() {
    let prompt = build_prompt("你好", "nihao");
    assert!(prompt.contains("你好"));
    assert!(prompt.contains("nihao"));
}

#[test]
fn test_default_config() {
    let config = Config::default();
    assert_eq!(config.model.model_type, "none");
    assert!(config.input.fuzzy_pinyin);
}

#[test]
fn engine_test_engine_creation() {
    let engine = InputEngine::default();
    assert!(!engine.is_model_available());
}
