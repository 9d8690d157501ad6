use ailater_im::config::Config;
use ailater_im::dictionary::Dictionary;
use ailater_im::engine::{classify_key, InputEngine, KeyAction};
use ailater_im::ffi::IMReturnValue;
use ailater_im::model::{ModelBackend, NoOpModelClient, PredictionResult, PredictionSource};

const IC: usize = 0x1000;

fn type_text(engine: &mut InputEngine<NoOpModelClient>, text: &str) {
    for ch in text.chars() {
        let r = engine.handle_key(0, IC, ch as u32, 0, 0, false);
        assert_eq!(r, IMReturnValue::Consume);
    }
}

fn texts(engine: &InputEngine<NoOpModelClient>) -> Vec<String> {
    engine.get_candidates(IC).into_iter().map(|c| c.text).collect()
}

#[test]
fn single_syllable_candidates_follow_frequency() {
    let mut e = InputEngine::default();
    type_text(&mut e, "ni");
    assert_eq!(texts(&e), vec!["你", "呢", "泥", "逆", "拟"]);
    let cands = e.get_candidates(IC);
    assert_eq!(cands[0].score, 10000);
    assert_eq!(cands[1].score, 9900);
    assert_eq!(cands[0].pinyin, "ni");
    assert_eq!(cands[0].source, PredictionSource::Dictionary);
    assert_eq!(e.get_total_candidates(IC), 5);
}

#[test]
fn fuzzy_variants_rank_after_exact_matches() {
    let mut e = InputEngine::default();
    type_text(&mut e, "shi");
    let t = texts(&e);
    assert_eq!(t.len(), 10);
    assert_eq!(&t[..5], &["是", "时", "事", "实", "十"]);
    assert_eq!(&t[5..], &["四", "死", "思", "司", "斯"]);
    let cands = e.get_candidates(IC);
    assert_eq!(cands[5].score, 100 * 10);
    assert_eq!(cands[5].source, PredictionSource::FuzzyMatch);
}

#[test]
fn fuzzy_off_keeps_exact_matches_only() {
    let mut cfg = Config::default();
    cfg.input.fuzzy_pinyin = false;
    let mut e = InputEngine::new(cfg);
    type_text(&mut e, "shi");
    assert_eq!(texts(&e), vec!["是", "时", "事", "实", "十"]);
}

#[test]
fn two_syllables_start_with_combination() {
    let mut e = InputEngine::default();
    type_text(&mut e, "nihao");
    let t = texts(&e);
    assert_eq!(t[0], "你好");
    assert!(t.contains(&"你".to_string()));
    assert!(t.contains(&"好".to_string()));
    let cands = e.get_candidates(IC);
    // 50 + (100 + 100) / 1000
    assert_eq!(cands[0].score, 502000);
    assert_eq!(cands[0].pinyin, "nihao");
}

#[test]
fn space_commits_first_candidate() {
    let mut e = InputEngine::default();
    type_text(&mut e, "ni");
    let r = e.handle_key(0, IC, 0x20, 0, 0, false);
    assert_eq!(r, IMReturnValue::Consume);
    assert_eq!(e.get_commit_text(IC), "你");
    assert_eq!(e.get_commit_text(IC), "");
    assert_eq!(e.get_preedit(IC), "");
    assert_eq!(e.get_total_candidates(IC), 0);
    // the commit is learned: 你 gains one use
    let entries = e.dictionary().lookup("ni");
    assert_eq!(entries[0].word, "你");
    assert_eq!(entries[0].frequency, 101);
}

#[test]
fn digit_selects_on_current_page() {
    let mut e = InputEngine::default();
    type_text(&mut e, "ni");
    let r = e.handle_key(0, IC, '2' as u32, 0, 0, false);
    assert_eq!(r, IMReturnValue::Consume);
    assert_eq!(e.get_commit_text(IC), "呢");
}

#[test]
fn digit_past_list_is_forwarded() {
    let mut e = InputEngine::default();
    type_text(&mut e, "ni");
    assert_eq!(e.handle_key(0, IC, '9' as u32, 0, 0, false), IMReturnValue::Forward);
    assert_eq!(e.handle_key(0, IC, '0' as u32, 0, 0, false), IMReturnValue::Forward);
    assert_eq!(e.get_preedit(IC), "ni");
}

#[test]
fn digit_without_input_is_forwarded() {
    let mut e = InputEngine::default();
    assert_eq!(e.handle_key(0, IC, '1' as u32, 0, 0, false), IMReturnValue::Forward);
}

#[test]
fn return_commits_raw_pinyin() {
    let mut e = InputEngine::default();
    type_text(&mut e, "ni");
    assert_eq!(e.handle_key(0, IC, 0xff0d, 0, 0, false), IMReturnValue::Consume);
    assert_eq!(e.get_commit_text(IC), "ni");
    assert_eq!(e.get_preedit(IC), "");
    assert_eq!(e.handle_key(0, IC, 0xff0d, 0, 0, false), IMReturnValue::Forward);
}

#[test]
fn escape_drops_input() {
    let mut e = InputEngine::default();
    type_text(&mut e, "ni");
    assert_eq!(e.handle_key(0, IC, 0xff1b, 0, 0, false), IMReturnValue::Consume);
    assert_eq!(e.get_preedit(IC), "");
    assert_eq!(e.get_total_candidates(IC), 0);
    assert_eq!(e.get_commit_text(IC), "");
    assert_eq!(e.handle_key(0, IC, 0xff1b, 0, 0, false), IMReturnValue::Forward);
}

#[test]
fn backspace_undoes_letter() {
    let mut e = InputEngine::default();
    type_text(&mut e, "ni");
    type_text(&mut e, "n");
    assert_eq!(e.get_preedit(IC), "nin");
    assert_eq!(e.handle_key(0, IC, 0xff08, 0, 0, false), IMReturnValue::Consume);
    assert_eq!(e.get_preedit(IC), "ni");
    assert_eq!(texts(&e), vec!["你", "呢", "泥", "逆", "拟"]);
    assert_eq!(e.handle_key(0, IC, 0xff08, 0, 0, false), IMReturnValue::Consume);
    assert_eq!(e.handle_key(0, IC, 0xff08, 0, 0, false), IMReturnValue::Consume);
    assert_eq!(e.get_preedit(IC), "");
    assert_eq!(e.get_total_candidates(IC), 0);
    assert_eq!(e.handle_key(0, IC, 0xff08, 0, 0, false), IMReturnValue::Forward);
}

#[test]
fn uppercase_letters_are_lowered() {
    let mut e = InputEngine::default();
    assert_eq!(e.handle_key(0, IC, 'N' as u32, 0, 0, false), IMReturnValue::Consume);
    assert_eq!(e.handle_key(0, IC, 'I' as u32, 0, 0, false), IMReturnValue::Consume);
    assert_eq!(e.get_preedit(IC), "ni");
}

#[test]
fn preedit_stops_at_max_length() {
    let mut cfg = Config::default();
    cfg.input.max_preedit_length = 3;
    let mut e = InputEngine::new(cfg);
    type_text(&mut e, "nihao");
    assert_eq!(e.get_preedit(IC), "nih");
}

#[test]
fn release_and_command_modifiers_pass_keys_on() {
    let mut e = InputEngine::default();
    assert_eq!(e.handle_key(0, IC, 'n' as u32, 0, 0, true), IMReturnValue::Forward);
    assert_eq!(e.handle_key(0, IC, 'n' as u32, 0, 2, false), IMReturnValue::Forward);
    assert_eq!(e.handle_key(0, IC, 'n' as u32, 0, 4, false), IMReturnValue::Forward);
    assert_eq!(e.handle_key(0, IC, 'n' as u32, 0, 8, false), IMReturnValue::Forward);
    assert_eq!(e.get_preedit(IC), "");
    // shift alone does not
    assert_eq!(e.handle_key(0, IC, 'N' as u32, 0, 1, false), IMReturnValue::Consume);
    assert_eq!(e.get_preedit(IC), "n");
}

#[test]
fn paging_and_selection() {
    let mut e = InputEngine::default();
    type_text(&mut e, "shi");
    assert_eq!(e.get_total_candidates(IC), 10);
    // down key: next page
    assert_eq!(e.handle_key(0, IC, 0xff54, 0, 0, false), IMReturnValue::Consume);
    assert_eq!(e.get_current_page(IC), 1);
    // last page: stays
    assert_eq!(e.handle_key(0, IC, '=' as u32, 0, 0, false), IMReturnValue::Consume);
    assert_eq!(e.get_current_page(IC), 1);
    // right twice
    e.handle_key(0, IC, 0xff53, 0, 0, false);
    e.handle_key(0, IC, 0xff53, 0, 0, false);
    assert_eq!(e.get_selected_index(IC), 2);
    // left at first item of page goes to last item of previous page
    e.handle_key(0, IC, 0xff51, 0, 0, false);
    e.handle_key(0, IC, 0xff51, 0, 0, false);
    assert_eq!(e.get_selected_index(IC), 0);
    e.handle_key(0, IC, 0xff51, 0, 0, false);
    assert_eq!(e.get_current_page(IC), 0);
    assert_eq!(e.get_selected_index(IC), 4);
    // right at the end of the page goes to the next page
    e.handle_key(0, IC, 0xff53, 0, 0, false);
    assert_eq!(e.get_current_page(IC), 1);
    assert_eq!(e.get_selected_index(IC), 0);
    // page keys turn pages too
    assert_eq!(e.handle_key(0, IC, 0xff55, 0, 0, false), IMReturnValue::Consume);
    assert_eq!(e.get_current_page(IC), 0);
    assert_eq!(e.handle_key(0, IC, 0xff56, 0, 0, false), IMReturnValue::Consume);
    assert_eq!(e.get_current_page(IC), 1);
    // minus: previous page, selection reset
    e.handle_key(0, IC, 0xff53, 0, 0, false);
    assert_eq!(e.handle_key(0, IC, '-' as u32, 0, 0, false), IMReturnValue::Consume);
    assert_eq!(e.get_current_page(IC), 0);
    assert_eq!(e.get_selected_index(IC), 0);
    // space commits the selected candidate
    e.handle_key(0, IC, 0xff53, 0, 0, false);
    e.handle_key(0, IC, 0x20, 0, 0, false);
    assert_eq!(e.get_commit_text(IC), "时");
}

#[test]
fn digit_counts_from_current_page() {
    let mut e = InputEngine::default();
    type_text(&mut e, "shi");
    e.handle_key(0, IC, 0xff54, 0, 0, false);
    e.handle_key(0, IC, '1' as u32, 0, 0, false);
    assert_eq!(e.get_commit_text(IC), "四");
}

#[test]
fn navigation_without_candidates_is_forwarded() {
    let mut e = InputEngine::default();
    for k in [0xff51u32, 0xff53, 0xff52, 0xff54, '-' as u32, '+' as u32] {
        assert_eq!(e.handle_key(0, IC, k, 0, 0, false), IMReturnValue::Forward);
    }
}

#[test]
fn punctuation_commits_first_candidate_and_passes_on() {
    let mut e = InputEngine::default();
    type_text(&mut e, "ni");
    assert_eq!(e.handle_key(0, IC, ',' as u32, 0, 0, false), IMReturnValue::Forward);
    assert_eq!(e.get_commit_text(IC), "你");
    assert_eq!(e.get_preedit(IC), "");
}

#[test]
fn punctuation_without_auto_commit_keeps_input() {
    let mut cfg = Config::default();
    cfg.input.auto_commit_on_punctuation = false;
    let mut e = InputEngine::new(cfg);
    type_text(&mut e, "ni");
    assert_eq!(e.handle_key(0, IC, ',' as u32, 0, 0, false), IMReturnValue::Forward);
    assert_eq!(e.get_commit_text(IC), "");
    assert_eq!(e.get_preedit(IC), "ni");
}

#[test]
fn every_fifth_commit_asks_for_saving() {
    let mut e = InputEngine::default();
    for _ in 0..4 {
        type_text(&mut e, "ni");
        e.handle_key(0, IC, 0x20, 0, 0, false);
    }
    assert!(!e.take_save_request());
    type_text(&mut e, "ni");
    e.handle_key(0, IC, 0x20, 0, 0, false);
    assert!(e.take_save_request());
    assert!(!e.take_save_request());
}

#[test]
fn learned_word_is_saved_in_user_dictionary_text() {
    let mut e = InputEngine::default();
    type_text(&mut e, "ni");
    e.handle_key(0, IC, 0x20, 0, 0, false);
    let text = e.dictionary().format_user_dictionary();
    assert!(text.starts_with("你\tni\t1\t"));
    assert!(text.ends_with('\n'));
}

#[test]
fn learning_off_leaves_user_table_empty() {
    let mut cfg = Config::default();
    cfg.dictionary.enable_learning = false;
    let mut e = InputEngine::new(cfg);
    type_text(&mut e, "ni");
    e.handle_key(0, IC, 0x20, 0, 0, false);
    assert_eq!(e.get_commit_text(IC), "你");
    assert_eq!(e.dictionary().format_user_dictionary(), "");
}

#[test]
fn contexts_are_independent() {
    let mut e = InputEngine::default();
    type_text(&mut e, "ni");
    assert_eq!(e.get_preedit(IC + 1), "");
    e.handle_key(0, IC + 1, 'h' as u32, 0, 0, false);
    assert_eq!(e.get_preedit(IC), "ni");
    assert_eq!(e.get_preedit(IC + 1), "h");
}

#[test]
fn reset_and_focus_out() {
    let mut e = InputEngine::default();
    type_text(&mut e, "ni");
    e.focus_in(IC);
    assert_eq!(e.get_preedit(IC), "ni");
    e.focus_out(IC);
    assert_eq!(e.get_preedit(IC), "");
    assert_eq!(e.get_total_candidates(IC), 0);
    type_text(&mut e, "shi");
    e.handle_key(0, IC, 0xff54, 0, 0, false);
    e.reset(IC);
    assert_eq!(e.get_preedit(IC), "");
    assert_eq!(e.get_current_page(IC), 0);
}

#[test]
fn page_size_getters() {
    let e = InputEngine::default();
    assert_eq!(e.get_config_page_size(), 5);
    assert_eq!(e.get_page_size(), 5);
    assert!(!e.is_model_available());
}

#[test]
fn lone_initial_offers_candidates() {
    let mut e = InputEngine::default();
    type_text(&mut e, "n");
    assert_eq!(e.get_total_candidates(IC), 10);
    assert_eq!(texts(&e)[0], "那");
    assert_eq!(e.get_candidates(IC)[0].score, 100 * 10000);
}

#[test]
fn key_zero_selects_nothing() {
    let mut e = InputEngine::default();
    type_text(&mut e, "shi");
    e.handle_key(0, IC, 0xff54, 0, 0, false);
    assert_eq!(e.get_current_page(IC), 1);
    assert_eq!(e.handle_key(0, IC, '0' as u32, 0, 0, false), IMReturnValue::Forward);
    assert_eq!(e.get_commit_text(IC), "");
    assert_eq!(e.get_preedit(IC), "shi");
    assert_eq!(e.get_current_page(IC), 1);
}

#[test]
fn select_candidate_counts_from_current_page() {
    let mut e = InputEngine::default();
    type_text(&mut e, "shi");
    e.handle_key(0, IC, 0xff54, 0, 0, false);
    assert_eq!(e.select_candidate(IC, 0), Some("四".to_string()));
    assert_eq!(e.get_commit_text(IC), "四");
    // no input: nothing committed
    assert_eq!(e.select_candidate(IC, 0), None);
}

#[test]
fn select_candidate_by_index() {
    let mut e = InputEngine::default();
    type_text(&mut e, "ni");
    assert_eq!(e.select_candidate(IC, 9), None);
    assert_eq!(e.select_candidate(IC, 5), None);
    assert_eq!(e.get_preedit(IC), "ni");
    assert_eq!(e.select_candidate(IC, 1), Some("呢".to_string()));
    assert_eq!(e.get_commit_text(IC), "呢");
    assert_eq!(e.get_preedit(IC), "");
}

#[test]
fn context_keeps_first_hundred_characters() {
    let mut e = InputEngine::default();
    for _ in 0..101 {
        type_text(&mut e, "ni");
        e.handle_key(0, IC, 0x20, 0, 0, false);
    }
    type_text(&mut e, "n");
    // the context is what the backend is asked with
    let (context, preedit) = e.prediction_query(IC, 'i' as u32, 0, false).unwrap();
    assert_eq!(context, "你".repeat(100));
    assert_eq!(preedit, "ni");
}

#[test]
fn initial_letters_combine_syllables() {
    let mut e = InputEngine::default();
    type_text(&mut e, "cs");
    let t = texts(&e);
    assert!(!t.is_empty());
    // ca × sa: 擦 with 撒 scores (100 + 100) / 200 = 1.0
    assert_eq!(t[0], "擦撒");
    let cands = e.get_candidates(IC);
    assert_eq!(cands[0].score, 10000);
    assert_eq!(cands[0].pinyin, "ca sa");
}

#[test]
fn key_classification() {
    assert_eq!(classify_key(0xff08), KeyAction::Backspace);
    assert_eq!(classify_key(0xff0d), KeyAction::Commit);
    assert_eq!(classify_key(0xff1b), KeyAction::Cancel);
    assert_eq!(classify_key(0x20), KeyAction::Select);
    assert_eq!(classify_key(0x2d), KeyAction::PageUp);
    assert_eq!(classify_key(0xff52), KeyAction::PageUp);
    assert_eq!(classify_key(0x3d), KeyAction::PageDown);
    assert_eq!(classify_key(0x2b), KeyAction::PageDown);
    assert_eq!(classify_key(0xff54), KeyAction::PageDown);
    assert_eq!(classify_key(0xff55), KeyAction::PageUp);
    assert_eq!(classify_key(0xff56), KeyAction::PageDown);
    assert_eq!(classify_key(0xff51), KeyAction::Previous);
    assert_eq!(classify_key(0xff53), KeyAction::Next);
    assert_eq!(classify_key('Q' as u32), KeyAction::Letter('q'));
    assert_eq!(classify_key('q' as u32), KeyAction::Letter('q'));
    assert_eq!(classify_key('7' as u32), KeyAction::Digit(7));
    assert_eq!(classify_key('.' as u32), KeyAction::Punctuation);
    assert_eq!(classify_key(0xff09), KeyAction::Other);
    assert_eq!(classify_key(0xffe1), KeyAction::Other);
}

struct FixedBackend {
    available: bool,
}

impl ModelBackend for FixedBackend {
    fn predict(&self, _context: &str, input: &str) -> Vec<PredictionResult> {
        vec![
            PredictionResult { text: format!("<{}>", input), confidence_milli: 1000, source: PredictionSource::AIModel },
            PredictionResult { text: "你".to_string(), confidence_milli: 900, source: PredictionSource::AIModel },
        ]
    }

    fn is_available(&self) -> bool {
        self.available
    }
}

#[test]
fn backend_predictions_join_the_list() {
    let cfg = Config::default();
    let mut e = InputEngine::with_backend(cfg, Dictionary::default(), FixedBackend { available: true });
    assert!(e.is_model_available());
    e.handle_key(0, IC, 'n' as u32, 0, 0, false);
    // one letter is too short for predictions
    assert!(e.get_candidates(IC).iter().all(|c| c.source != PredictionSource::AIModel));
    e.handle_key(0, IC, 'i' as u32, 0, 0, false);
    let cands = e.get_candidates(IC);
    let ai: Vec<_> = cands.iter().filter(|c| c.source == PredictionSource::AIModel).collect();
    assert_eq!(ai.len(), 1);
    assert_eq!(ai[0].text, "<ni>");
    assert_eq!(ai[0].score, 9000);
    assert_eq!(ai[0].pinyin, "ni");
    // 你 was already a candidate, so the second prediction is dropped
    assert_eq!(cands.iter().filter(|c| c.text == "你").count(), 1);
}

#[test]
fn unavailable_backend_adds_nothing() {
    let cfg = Config::default();
    let mut e = InputEngine::with_backend(cfg, Dictionary::default(), FixedBackend { available: false });
    e.handle_key(0, IC, 'n' as u32, 0, 0, false);
    e.handle_key(0, IC, 'i' as u32, 0, 0, false);
    assert!(e.get_candidates(IC).iter().all(|c| c.source != PredictionSource::AIModel));
}

#[test]
fn apply_key_uses_given_predictions() {
    let mut e = InputEngine::default();
    let preds = vec![PredictionResult { text: "尼".to_string(), confidence_milli: 500, source: PredictionSource::AIModel }];
    e.apply_key(IC, 'n' as u32, 0, false, true, &preds, 7);
    e.apply_key(IC, 'i' as u32, 0, false, true, &preds, 7);
    let t = texts(&e);
    assert_eq!(t.last().unwrap(), "尼");
    // commit it: learned with the given time stamp
    let r = e.apply_key(IC, '6' as u32, 0, false, false, &Vec::new(), 42);
    assert_eq!(r, IMReturnValue::Consume);
    assert_eq!(e.get_commit_text(IC), "尼");
    assert_eq!(e.dictionary().format_user_dictionary(), "尼\tni\t1\t42\n");
}

#[test]
fn prediction_query_names_context_and_new_preedit() {
    let mut e = InputEngine::default();
    assert_eq!(e.prediction_query(IC, 'n' as u32, 0, false), None);
    e.handle_key(0, IC, 'n' as u32, 0, 0, false);
    assert_eq!(e.prediction_query(IC, 'i' as u32, 0, false), Some((String::new(), "ni".to_string())));
    assert_eq!(e.prediction_query(IC, 'i' as u32, 0, true), None);
    assert_eq!(e.prediction_query(IC, 0xff08, 0, false), None);
    e.handle_key(0, IC, 'i' as u32, 0, 0, false);
    e.handle_key(0, IC, 0x20, 0, 0, false);
    e.handle_key(0, IC, 'h' as u32, 0, 0, false);
    e.handle_key(0, IC, 'a' as u32, 0, 0, false);
    assert_eq!(e.prediction_query(IC, 'o' as u32, 0, false), Some(("你".to_string(), "hao".to_string())));
    assert_eq!(e.prediction_query(IC, 0xff08, 0, false), None);
    e.handle_key(0, IC, 'o' as u32, 0, 0, false);
    assert_eq!(e.prediction_query(IC, 0xff08, 0, false), Some(("你".to_string(), "ha".to_string())));
}
