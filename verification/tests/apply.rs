use dictionary::{DictError, DictItem, Dictionary, Lexicon};

fn rule(key: &str, value: &str, is_regex: bool) -> DictItem {
    DictItem { key: key.to_string(), value: value.to_string(), is_regex }
}

fn lexicon(words: &[(&str, &str)]) -> Lexicon {
    let mut lexicon = Lexicon::new();
    for (word, reading) in words {
        lexicon.insert(word.to_string(), reading.to_string());
    }
    lexicon
}

#[test]
fn test_apply() {
    let items = vec![
        DictItem { key: "foo".into(), value: "bar".into(), is_regex: false },
        DictItem { key: "ba[rz]".into(), value: "qux".into(), is_regex: true },
    ];
    let dict = Dictionary::from_items(items).unwrap();
    assert_eq!(dict.apply("foobarbaz", &Lexicon::new()).unwrap(), "barquxqux".to_string());
}

#[test]
fn an_empty_dictionary_leaves_plain_text_alone() {
    let dict = Dictionary::new();
    assert_eq!(dict.apply("こんにちは", &Lexicon::new()), Ok("こんにちは".to_string()));
    assert_eq!(dict.apply("", &Lexicon::new()), Ok(String::new()));
    assert_eq!(dict.apply("123", &Lexicon::new()), Ok("123".to_string()));
}

#[test]
fn apply_narrows_full_width_ascii_first() {
    let dict = Dictionary::from_items(vec![rule("12", "じゅうに", false)]).unwrap();
    assert_eq!(dict.apply("１２", &Lexicon::new()), Ok("じゅうに".to_string()));
    let dict = Dictionary::from_items(vec![rule("[0-9]+", "すうじ", true)]).unwrap();
    assert_eq!(dict.apply("４５６！", &Lexicon::new()), Ok("すうじ!".to_string()));
}

#[test]
fn pattern_rules_run_before_literal_rules_and_in_their_order() {
    let dict = Dictionary::from_items(
        vec![rule("２", "literal", false), rule("1", "2", true), rule("2", "３", true)],
    ).unwrap();
    assert_eq!(dict.apply("1", &Lexicon::new()), Ok("３".to_string()));
    let dict = Dictionary::from_items(
        vec![rule("３", "さん", false), rule("1", "2", true), rule("2", "３", true)],
    ).unwrap();
    assert_eq!(dict.apply("1", &Lexicon::new()), Ok("さん".to_string()));
}

#[test]
fn a_pattern_rule_may_refer_to_what_it_matched() {
    let dict = Dictionary::from_items(vec![rule("([0-9])-([0-9])", "$2-$1", true)]).unwrap();
    assert_eq!(dict.apply("1-2 3-4", &Lexicon::new()), Ok("2-14-3".to_string()));
}

#[test]
fn literal_matches_are_replaced_whatever_the_lengths() {
    let dict = Dictionary::from_items(
        vec![rule("あ", "かきく", false), rule("いい", "", false), rule("う", "1", false)],
    ).unwrap();
    assert_eq!(
        dict.apply("1あ2いい3あうう", &Lexicon::new()),
        Ok("1かきく23かきく11".to_string())
    );
}

#[test]
fn each_literal_match_takes_the_value_of_its_own_rule() {
    let dict = Dictionary::from_items(
        vec![rule("1", "いち", false), rule("2", "に", false), rule("3", "さん", false)],
    ).unwrap();
    assert_eq!(dict.apply("321", &Lexicon::new()), Ok("さんにいち".to_string()));
}

#[test]
fn the_matcher_follows_removal_and_insertion() {
    let mut dict = Dictionary::from_items(
        vec![rule("1", "いち", false), rule("2", "に", false), rule("3", "さん", false)],
    ).unwrap();
    dict.remove("1").unwrap();
    assert_eq!(dict.apply("123", &Lexicon::new()), Ok("1にさん".to_string()));
    dict.insert(rule("2", "ふた", false)).unwrap();
    assert_eq!(dict.apply("123", &Lexicon::new()), Ok("1ふたさん".to_string()));
    dict.add_items(vec![rule("3", "みっ", false), rule("4", "よん", false)]).unwrap();
    assert_eq!(dict.apply("1234", &Lexicon::new()), Ok("1ふたみっよん".to_string()));
    dict.extend(vec![rule("1", "ひと", false)]).unwrap();
    assert_eq!(dict.apply("1234", &Lexicon::new()), Ok("ひとふたみっよん".to_string()));
    dict.remove("2").unwrap();
    dict.remove("3").unwrap();
    dict.remove("4").unwrap();
    dict.remove("1").unwrap();
    assert_eq!(dict.apply("1234", &Lexicon::new()), Ok("1234".to_string()));
}

#[test]
fn apply_reports_a_pattern_that_does_not_compile() {
    let dict = Dictionary::from_items(vec![rule("(unclosed", "x", true)]).unwrap();
    assert_eq!(dict.apply("text", &Lexicon::new()), Err(DictError::InvalidPattern));
    assert_eq!(dict.apply("", &Lexicon::new()), Err(DictError::InvalidPattern));
}

#[test]
fn apply_reports_text_that_is_no_longer_utf8() {
    let mut dict = Dictionary::new();
    dict.insert(rule("", "x", false)).unwrap();
    assert_eq!(dict.apply("12", &Lexicon::new()), Ok("x1x2x".to_string()));
    assert_eq!(dict.apply("あ", &Lexicon::new()), Err(DictError::EncodingError));
}

#[test]
fn apply_lowers_ascii_capitals() {
    let dict = Dictionary::new();
    assert_eq!(dict.apply("QX", &Lexicon::new()), Ok("qx".to_string()));
}

#[test]
fn apply_spells_symbols_and_reads_their_names() {
    let dict = Dictionary::new();
    let words = lexicon(&[("crown", "クラウン"), ("palm", "パーム"), ("tree", "ツリー")]);
    assert_eq!(dict.apply("👑", &words), Ok("クラウン".to_string()));
    assert_eq!(dict.apply("👑🌴", &words), Ok("クラウンパームツリー".to_string()));
}

#[test]
fn apply_reads_known_words_and_puts_other_runs_into_kana() {
    let dict = Dictionary::new();
    let words = lexicon(&[("apple", "アップル"), ("pie", "パイ")]);
    assert_eq!(dict.apply("applepie", &words), Ok("アップルパイ".to_string()));
    assert_eq!(dict.apply("Apple 123", &words), Ok("アップル123".to_string()));
    assert_eq!(dict.apply("sushi", &words), Ok("すし".to_string()));
    assert_eq!(dict.apply("qx", &words), Ok("qx".to_string()));
}

#[test]
fn apply_removes_every_space() {
    let dict = Dictionary::new();
    assert_eq!(dict.apply("1 2  3 ", &Lexicon::new()), Ok("123".to_string()));
    assert_eq!(dict.apply("１　２", &Lexicon::new()), Ok("12".to_string()));
}

#[test]
fn apply_does_not_change_the_dictionary() {
    let dict = Dictionary::from_items(vec![rule("1", "いち", false), rule("2+", "に", true)])
        .unwrap();
    let before = dict.to_items();
    assert_eq!(dict.apply("1222", &Lexicon::new()), Ok("いちに".to_string()));
    assert_eq!(dict.apply("1222", &Lexicon::new()), Ok("いちに".to_string()));
    assert_eq!(dict.to_items(), before);
}
