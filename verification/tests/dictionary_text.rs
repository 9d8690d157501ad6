use ailater_im::config::DictionaryConfig;
use ailater_im::dictionary::{parse_dictionary_text, Dictionary};

fn words(entries: &[ailater_im::dictionary::DictEntry]) -> Vec<(String, u64)> {
    entries.iter().map(|e| (e.word.clone(), e.frequency)).collect()
}

#[test]
fn builtin_lookup_is_ordered_by_frequency() {
    let d = Dictionary::default();
    let r = d.lookup("hao");
    assert_eq!(
        words(&r),
        vec![("好".to_string(), 100), ("号".to_string(), 99), ("豪".to_string(), 98), ("毫".to_string(), 97)]
    );
    assert_eq!(r[0].pinyin, "hao");
    assert_eq!(r[0].last_used, None);
    assert!(d.lookup("xyz").is_empty());
}

#[test]
fn user_entries_merge_with_system_entries() {
    let user = "你\tni\t5\t10\n尼\tni\t200\t11\n";
    let d = Dictionary::from_sources(DictionaryConfig::default(), None, Some(user));
    let r = d.lookup("ni");
    // 尼 (user only) first, then 你 with 5 + 100, then the system entries
    assert_eq!(
        words(&r),
        vec![
            ("尼".to_string(), 200),
            ("你".to_string(), 105),
            ("呢".to_string(), 99),
            ("泥".to_string(), 98),
            ("逆".to_string(), 97),
            ("拟".to_string(), 96),
        ]
    );
    assert_eq!(r[1].last_used, Some(10));
}

#[test]
fn system_text_replaces_builtin_table() {
    let system = "世界\tshijie\t950\t1704067200\n你好\tnihao\t1000\t1704067200\nbad line\n";
    let d = Dictionary::from_sources(DictionaryConfig::default(), Some(system), None);
    assert_eq!(words(&d.lookup("nihao")), vec![("你好".to_string(), 1000)]);
    assert_eq!(words(&d.lookup("shijie")), vec![("世界".to_string(), 950)]);
    assert!(d.lookup("ni").is_empty());
}

#[test]
fn missing_or_bad_numbers_take_defaults() {
    let t = parse_dictionary_text("甲\tjia\n乙\tyi\tx\t\n丙\tbing\t7\t8\textra\n");
    assert_eq!(t.len(), 3);
    assert_eq!(t[0].0, "jia");
    assert_eq!(t[0].1[0].frequency, 1);
    assert_eq!(t[0].1[0].last_used, None);
    assert_eq!(t[1].1[0].frequency, 1);
    assert_eq!(t[1].1[0].last_used, None);
    assert_eq!(t[2].1[0].frequency, 7);
    assert_eq!(t[2].1[0].last_used, Some(8));
}

#[test]
fn entries_group_under_their_pinyin() {
    let t = parse_dictionary_text("你\tni\t3\t0\n好\thao\t2\t0\n呢\tni\t1\t0\r\n");
    assert_eq!(t.len(), 2);
    assert_eq!(t[0].0, "ni");
    assert_eq!(t[0].1.len(), 2);
    assert_eq!(t[0].1[1].word, "呢");
    assert_eq!(t[0].1[1].last_used, Some(0));
    assert_eq!(t[1].0, "hao");
}

#[test]
fn update_frequency_at_learns_and_counts() {
    let mut d = Dictionary::default();
    d.update_frequency_at("ni", "你", 100);
    assert_eq!(d.format_user_dictionary(), "你\tni\t1\t100\n");
    d.update_frequency_at("ni", "你", 200);
    assert_eq!(d.format_user_dictionary(), "你\tni\t2\t200\n");
    d.update_frequency_at("hao", "好", 300);
    d.update_frequency_at("ni", "泥", 400);
    assert_eq!(d.format_user_dictionary(), "你\tni\t2\t200\n泥\tni\t1\t400\n好\thao\t1\t300\n");
    assert_eq!(words(&d.lookup("ni"))[0], ("你".to_string(), 102));
}

#[test]
fn update_frequency_saturates() {
    let user = format!("你\tni\t{}\t1\n", u64::MAX);
    let mut d = Dictionary::from_sources(DictionaryConfig::default(), None, Some(&user));
    d.update_frequency_at("ni", "你", 5);
    assert_eq!(d.format_user_dictionary(), format!("你\tni\t{}\t5\n", u64::MAX));
}

#[test]
fn learning_disabled_changes_nothing() {
    let mut cfg = DictionaryConfig::default();
    cfg.enable_learning = false;
    let mut d = Dictionary::new(cfg);
    d.update_frequency("ni", "你");
    assert_eq!(d.format_user_dictionary(), "");
}

#[test]
fn saved_user_dictionary_reads_back() {
    let mut d = Dictionary::default();
    d.update_frequency_at("ni", "你", 1704067200);
    d.update_frequency_at("shijie", "世界", 17);
    d.update_frequency_at("ni", "你", 1704067201);
    let text = d.format_user_dictionary();
    let back = Dictionary::from_sources(DictionaryConfig::default(), None, Some(&text));
    assert_eq!(back.format_user_dictionary(), text);
    assert_eq!(words(&back.lookup("ni"))[0], ("你".to_string(), 102));
}
