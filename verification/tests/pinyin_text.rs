use ailater_im::pinyin::{get_candidates, get_initial_map, FuzzyPinyinMatcher, PinyinParser};
use ailater_im::text::{chars_of, parse_u64, split_lines, split_on, string_from_chars, u64_to_chars};

fn strs(v: &[&str]) -> Vec<String> {
    v.iter().map(|s| s.to_string()).collect()
}

#[test]
fn parser_takes_longest_syllables() {
    let p = PinyinParser::new();
    assert_eq!(p.parse("nihao"), strs(&["ni", "hao"]));
    assert_eq!(p.parse("zhongguo"), strs(&["zhong", "guo"]));
    assert_eq!(p.parse("woaini"), strs(&["wo", "ai", "ni"]));
    assert_eq!(p.parse("xian"), strs(&["xian"]));
    assert_eq!(p.parse("xiang"), strs(&["xiang"]));
}

#[test]
fn parser_falls_back_to_single_letters() {
    let p = PinyinParser::new();
    assert_eq!(p.parse("cs"), strs(&["c", "s"]));
    assert_eq!(p.parse("n"), strs(&["n"]));
    assert_eq!(p.parse("vvni"), strs(&["v", "v", "ni"]));
    assert!(p.parse("").is_empty());
}

#[test]
fn parsed_syllables_concatenate_to_input() {
    let p = PinyinParser::new();
    for input in ["beijing", "shanghai", "zzzqx", "ai", "qiongxiongqiong"] {
        assert_eq!(p.parse(input).concat(), input);
    }
}

#[test]
fn builtin_characters_of_a_syllable() {
    assert_eq!(get_candidates("ni"), vec!['你', '呢', '泥', '逆', '拟']);
    assert_eq!(get_candidates("en"), vec!['恩']);
    // a lone initial offers the first character of each syllable it begins, each once
    assert_eq!(get_candidates("n"), vec!['那', '奶', '南', '囊', '脑', '呢', '内', '嫩', '能', '你']);
    assert_eq!(get_candidates("d"), vec!['大', '但', '当', '到', '的', '等', '地', '点', '掉', '跌']);
    assert!(get_candidates("i").is_empty());
    assert!(get_candidates("xyz").is_empty());
}

#[test]
fn initial_map_lists_syllables_in_table_order() {
    let m = get_initial_map();
    let c = m.iter().find(|(k, _)| *k == 'c').unwrap();
    assert_eq!(&c.1[..3], &strs(&["ca", "cai", "can"])[..]);
    assert!(c.1.iter().all(|s| s.starts_with('c')));
    assert!(m.iter().all(|(k, v)| k.is_ascii_lowercase() && !v.is_empty()));
    // every letter that begins a syllable, in order: none begins with 'i', 'u' or 'v'
    let letters: String = m.iter().map(|(k, _)| *k).collect();
    assert_eq!(letters, "abcdefghjklmnopqrstwxyz");
}

#[test]
fn fuzzy_matches_swap_initials_and_finals() {
    let f = FuzzyPinyinMatcher::new();
    assert_eq!(f.get_fuzzy_matches("zhi"), strs(&["zhi", "zi"]));
    assert_eq!(f.get_fuzzy_matches("si"), strs(&["si", "shi"]));
    assert_eq!(f.get_fuzzy_matches("an"), strs(&["an", "ang"]));
    assert_eq!(f.get_fuzzy_matches("xing"), strs(&["xing", "xin"]));
    assert_eq!(f.get_fuzzy_matches("chang"), strs(&["chang", "cang", "chan", "can"]));
    assert_eq!(f.get_fuzzy_matches("ni"), strs(&["ni"]));
}

#[test]
fn decimal_parsing_follows_str_parse() {
    let p = |s: &str| parse_u64(&chars_of(s));
    assert_eq!(p("0"), Some(0));
    assert_eq!(p("+42"), Some(42));
    assert_eq!(p("18446744073709551615"), Some(u64::MAX));
    assert_eq!(p("18446744073709551616"), None);
    assert_eq!(p(""), None);
    assert_eq!(p("+"), None);
    assert_eq!(p("-1"), None);
    assert_eq!(p("12a"), None);
    for s in ["0", "+42", "18446744073709551615", "", "+", "-1", "12a", " 1"] {
        assert_eq!(p(s), s.parse::<u64>().ok());
    }
}

#[test]
fn decimal_formatting_reads_back() {
    for n in [0u64, 7, 10, 1704067200, u64::MAX] {
        let s = string_from_chars(&u64_to_chars(n));
        assert_eq!(s, n.to_string());
        assert_eq!(parse_u64(&u64_to_chars(n)), Some(n));
    }
}

#[test]
fn splitting_on_a_separator() {
    let parts: Vec<String> = split_on(&chars_of("a\tb\t\tc"), '\t').iter().map(|p| string_from_chars(p)).collect();
    assert_eq!(parts, strs(&["a", "b", "", "c"]));
    let parts: Vec<String> = split_on(&chars_of(""), '\t').iter().map(|p| string_from_chars(p)).collect();
    assert_eq!(parts, strs(&[""]));
}

#[test]
fn splitting_lines_like_str_lines() {
    for text in ["a\nb\r\nc", "a\n\nb\n", "", "\n", "x\r\n"] {
        let got: Vec<String> = split_lines(&chars_of(text)).iter().map(|p| string_from_chars(p)).collect();
        let want: Vec<String> = text.lines().map(|l| l.to_string()).collect();
        assert_eq!(got, want);
    }
}
