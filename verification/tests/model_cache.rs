use ailater_im::model::{
    build_prompt, cache_key, model_kind, parse_reply, prediction_step, record_reply, CacheStep, HybridModelClient, ModelBackend, ModelKind, NoOpModelClient,
    PredictionCache, PredictionResult, PredictionSource,
};

fn pred(text: &str, c: i64) -> PredictionResult {
    PredictionResult { text: text.to_string(), confidence_milli: c, source: PredictionSource::AIModel }
}

fn texts(v: &[PredictionResult]) -> Vec<String> {
    v.iter().map(|p| p.text.clone()).collect()
}

#[test]
fn prompt_text_is_exact() {
    let p = build_prompt("上文", "pinyin");
    assert_eq!(
        p,
        "你是一个中文输入法助手。根据用户的输入上下文和当前拼音输入，预测用户可能想输入的中文。\n上下文：上文\n当前拼音输入：pinyin\n请直接输出最可能的5个中文候选词，每行一个，不要有其他内容："
    );
}

#[test]
fn reply_lines_become_predictions() {
    let r = parse_reply("  你好 \n\n 你号\r\n\t\n尼好");
    assert_eq!(texts(&r), vec!["你好", "你号", "尼好"]);
    assert_eq!(r.iter().map(|p| p.confidence_milli).collect::<Vec<_>>(), vec![1000, 900, 800]);
    assert!(r.iter().all(|p| p.source == PredictionSource::AIModel));
    assert!(parse_reply("").is_empty());
    assert!(parse_reply(" \n \n").is_empty());
}

#[test]
fn confidence_stops_at_zero_past_ten_lines() {
    let text: String = (0..13).map(|i| format!("w{}\n", i)).collect();
    let r = parse_reply(&text);
    assert_eq!(r.len(), 13);
    assert_eq!(r[9].confidence_milli, 100);
    assert_eq!(r[10].confidence_milli, 0);
    assert_eq!(r[11].confidence_milli, 0);
    assert_eq!(r[12].confidence_milli, 0);
    assert!(r.iter().all(|p| (0..=1000).contains(&p.confidence_milli)));
}

#[test]
fn cache_keys_join_with_a_bar() {
    assert_eq!(cache_key("你", "hao"), "你|hao");
    assert_eq!(cache_key("", ""), "|");
}

#[test]
fn cache_finds_what_it_stored() {
    let mut c = PredictionCache::new();
    assert_eq!(c.len(), 0);
    assert!(c.get(&"a|b".to_string()).is_none());
    c.store(true, 2, "a|b".to_string(), vec![pred("x", 1000)]);
    assert_eq!(texts(&c.get(&"a|b".to_string()).unwrap()), vec!["x"]);
    c.store(true, 2, "a|b".to_string(), vec![pred("y", 900)]);
    assert_eq!(c.len(), 1);
    assert_eq!(texts(&c.get(&"a|b".to_string()).unwrap()), vec!["y"]);
}

#[test]
fn full_cache_drops_oldest_entry() {
    let mut c = PredictionCache::new();
    c.store(true, 2, "k1".to_string(), vec![pred("1", 1)]);
    c.store(true, 2, "k2".to_string(), vec![pred("2", 2)]);
    c.store(true, 2, "k3".to_string(), vec![pred("3", 3)]);
    assert_eq!(c.len(), 2);
    assert!(c.get(&"k1".to_string()).is_none());
    assert_eq!(texts(&c.get(&"k2".to_string()).unwrap()), vec!["2"]);
    assert_eq!(texts(&c.get(&"k3".to_string()).unwrap()), vec!["3"]);
}

#[test]
fn disabled_cache_stores_nothing() {
    let mut c = PredictionCache::new();
    c.store(false, 10, "k".to_string(), vec![pred("1", 1)]);
    assert_eq!(c.len(), 0);
}

#[test]
fn model_type_selects_backend() {
    assert_eq!(model_kind("remote"), ModelKind::Remote);
    assert_eq!(model_kind("none"), ModelKind::Disabled);
    assert_eq!(model_kind("disabled"), ModelKind::Disabled);
    assert_eq!(model_kind("hybrid"), ModelKind::Hybrid { with_remote: true });
    assert_eq!(model_kind("local"), ModelKind::Hybrid { with_remote: false });
    assert_eq!(model_kind(""), ModelKind::Hybrid { with_remote: false });
}

struct Echo;

impl ModelBackend for Echo {
    fn predict(&self, context: &str, input: &str) -> Vec<PredictionResult> {
        vec![pred(&format!("{}{}", context, input), 1000)]
    }
    fn is_available(&self) -> bool {
        true
    }
}

#[test]
fn hybrid_client_uses_its_remote() {
    let with = HybridModelClient::with_remote(Some(Echo));
    assert!(with.has_remote());
    assert!(with.is_available());
    assert_eq!(texts(&with.predict("a", "b")), vec!["ab"]);
    let without: HybridModelClient<Echo> = HybridModelClient::with_remote(None);
    assert!(!without.has_remote());
    assert!(!without.is_available());
    assert!(without.predict("a", "b").is_empty());
}

#[test]
fn noop_client_is_never_available() {
    let n = NoOpModelClient;
    assert!(!n.is_available());
    assert!(n.predict("a", "b").is_empty());
}

#[test]
fn request_asks_then_answers_from_cache() {
    let mut c = PredictionCache::new();
    let (key, prompt) = match prediction_step(&c, "你", "hao") {
        CacheStep::Ask { key, prompt } => (key, prompt),
        CacheStep::Cached(_) => panic!("nothing is cached yet"),
    };
    assert_eq!(key, "你|hao");
    assert_eq!(prompt, build_prompt("你", "hao"));
    let r = record_reply(&mut c, true, 10, key, "好\n号\n");
    assert_eq!(texts(&r), vec!["好", "号"]);
    match prediction_step(&c, "你", "hao") {
        CacheStep::Cached(v) => assert_eq!(texts(&v), vec!["好", "号"]),
        CacheStep::Ask { .. } => panic!("the reply is cached"),
    }
}

#[test]
fn disabled_cache_keeps_asking() {
    let mut c = PredictionCache::new();
    let r = record_reply(&mut c, false, 10, "a|b".to_string(), "x\n");
    assert_eq!(texts(&r), vec!["x"]);
    assert!(matches!(prediction_step(&c, "a", "b"), CacheStep::Ask { .. }));
}
