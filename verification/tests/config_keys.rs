use ailater_im::config::{
    default_api_endpoint, default_cache_size, default_decay_factor, default_font_size, default_max_preedit, default_max_tokens,
    default_min_ai_input, default_model_name, default_model_type, default_num_candidates, default_page_size, default_system_dict,
    default_temperature, default_true, default_user_dict, default_user_dict_size, expand_home, Config,
};
use ailater_im::ffi::{IMReturnValue, KeyState, KeySym};
use ailater_im::{IM_LANG_CODE, IM_NAME, IM_UNIQUE_NAME};

#[test]
fn default_settings() {
    let c = Config::default();
    assert_eq!(c.model.model_type, "none");
    assert_eq!(c.model.api_endpoint, "http://localhost:8080/v1");
    assert_eq!(c.model.model_name, "qwen-0.8b");
    assert_eq!(c.model.max_tokens, 50);
    assert_eq!(c.model.temperature_milli, 700);
    assert!(c.model.enable_cache);
    assert_eq!(c.model.cache_size, 10000);
    assert_eq!(c.model.api_key, None);
    assert!(c.input.fuzzy_pinyin);
    assert_eq!(c.input.page_size, 5);
    assert_eq!(c.input.num_candidates, 30);
    assert_eq!(c.input.max_preedit_length, 64);
    assert_eq!(c.input.min_ai_input_length, 2);
    assert_eq!(c.ui.font_size, 12);
    assert!(!c.ui.vertical_candidate_list);
    assert_eq!(c.dictionary.user_dictionary, "~/.local/share/ailater-im/user.dict");
    assert_eq!(c.dictionary.system_dictionary, "/usr/share/ailater-im/dict/system.dict");
    assert_eq!(c.dictionary.frequency_decay_milli, 990);
    assert!(c.dictionary.enable_learning);
}

#[test]
fn default_functions() {
    assert_eq!(default_model_type(), "none");
    assert_eq!(default_api_endpoint(), "http://localhost:8080/v1");
    assert_eq!(default_model_name(), "qwen-0.8b");
    assert_eq!(default_max_tokens(), 50);
    assert_eq!(default_temperature(), 700);
    assert!(default_true());
    assert_eq!(default_cache_size(), 10000);
    assert_eq!(default_max_preedit(), 64);
    assert_eq!(default_num_candidates(), 30);
    assert_eq!(default_page_size(), 5);
    assert_eq!(default_min_ai_input(), 2);
    assert_eq!(default_font_size(), 12);
    assert_eq!(default_system_dict(), "/usr/share/ailater-im/dict/system.dict");
    assert_eq!(default_user_dict(), "~/.local/share/ailater-im/user.dict");
    assert_eq!(default_user_dict_size(), 100000);
    assert_eq!(default_decay_factor(), 990);
}

#[test]
fn home_is_expanded() {
    assert_eq!(expand_home("~/.local/x", "/home/u"), "/home/u/.local/x");
    assert_eq!(expand_home("/etc/x", "/home/u"), "/etc/x");
    assert_eq!(expand_home("~", "/h"), "/h");
    assert_eq!(expand_home("a~b", "/h"), "a~b");
}

#[test]
fn keysyms_from_raw_values() {
    assert_eq!(KeySym::from_raw(0xff08), KeySym::BackSpace);
    assert_eq!(KeySym::from_raw(0x0020), KeySym::Space);
    assert_eq!(KeySym::from_raw(0xffec), KeySym::SuperR);
    assert_eq!(KeySym::from_raw(0x0061), KeySym::Unknown);
    for k in [KeySym::Return, KeySym::Escape, KeySym::Left, KeySym::PageDown, KeySym::Equal, KeySym::ControlL] {
        assert_eq!(KeySym::from_raw(k.to_raw()), k);
    }
    assert_eq!(KeySym::Unknown.to_raw(), 0);
}

#[test]
fn keysym_classes() {
    let k = KeySym::Unknown;
    assert!(k.is_letter(0x41) && k.is_letter(0x7a));
    assert!(!k.is_letter(0x40) && !k.is_letter(0x5b) && !k.is_letter(0x60) && !k.is_letter(0x7b));
    assert!(k.is_number(0x30) && k.is_number(0x39) && !k.is_number(0x3a));
    assert!(k.is_printable(0x20) && k.is_printable(0x7e) && !k.is_printable(0x7f) && !k.is_printable(0x1f));
}

#[test]
fn key_state_bits() {
    let s = KeyState(1 | 4);
    assert!(s.has_shift());
    assert!(!s.has_ctrl());
    assert!(s.has_alt());
    assert!(!s.has_super());
    assert!(KeyState(8).has_super());
    assert!(KeyState(2).has_ctrl());
}

#[test]
fn return_values_for_c() {
    assert_eq!(IMReturnValue::Ignore.to_raw(), 0);
    assert_eq!(IMReturnValue::Forward.to_raw(), 1);
    assert_eq!(IMReturnValue::Consume.to_raw(), 2);
}

#[test]
fn input_method_names() {
    assert_eq!(IM_NAME, "AI Later");
    assert_eq!(IM_UNIQUE_NAME, "ai-later");
    assert_eq!(IM_LANG_CODE, "zh_CN");
}
