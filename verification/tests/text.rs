use dictionary::matcher::{splice_matches, Found};
use dictionary::pattern::{apply_patterns, is_valid_pattern};
use dictionary::text::{bytes_of, chars_of, clone_strings, decode, string_of, string_of_range};
use dictionary::translit::{join_tokens, to_lower, token_of, transliterate, Token};
use dictionary::{to_narrow, DictError, DictItem};

fn rule(key: &str, value: &str, is_regex: bool) -> DictItem {
    DictItem { key: key.to_string(), value: value.to_string(), is_regex }
}

fn found(rule: usize, start: usize, end: usize) -> Found {
    Found { rule, start, end }
}

fn splice(text: &str, matches: &[Found], rules: &Vec<DictItem>) -> String {
    let out = splice_matches(&text.as_bytes().to_vec(), &matches.to_vec(), rules);
    String::from_utf8(out).unwrap()
}

fn splice_from_the_right(text: &str, matches: &[Found], rules: &Vec<DictItem>) -> String {
    let mut bytes = text.as_bytes().to_vec();
    for m in matches.iter().rev() {
        let value = rules[m.rule].value.as_bytes().to_vec();
        let mut next = bytes[..m.start].to_vec();
        next.extend(value);
        next.extend(bytes[m.end..].to_vec());
        bytes = next;
    }
    String::from_utf8(bytes).unwrap()
}

#[test]
fn full_width_ascii_becomes_half_width() {
    assert_eq!(to_narrow("ＡＢＣａｂｃ１２３"), "ABCabc123");
    assert_eq!(to_narrow("！＂＃＄％＆＇（）＊＋，－．／"), "!\"#$%&'()*+,-./");
    assert_eq!(to_narrow("：；＜＝＞？＠［＼］＾＿｀｛｜｝～"), ":;<=>?@[\\]^_`{|}~");
    assert_eq!(to_narrow("\u{FF01}\u{FF5E}"), "!~");
    assert_eq!(to_narrow("\u{3000}"), " ");
    assert_eq!(to_narrow(""), "");
}

#[test]
fn other_characters_keep_their_width() {
    assert_eq!(to_narrow("abc 123"), "abc 123");
    assert_eq!(to_narrow("カタカナひらがな漢字"), "カタカナひらがな漢字");
    assert_eq!(to_narrow("ｶﾀｶﾅ"), "ｶﾀｶﾅ");
    assert_eq!(to_narrow("\u{FF00}\u{FF5F}\u{FF60}"), "\u{FF00}\u{FF5F}\u{FF60}");
    assert_eq!(to_narrow("。、「」・ー"), "。、「」・ー");
    assert_eq!(to_narrow("👑"), "👑");
}

#[test]
fn narrowing_is_done_character_by_character() {
    assert_eq!(to_narrow("Ａあｂ　ｃ"), "Aあb c");
    assert_eq!(to_narrow(&to_narrow("Ａあｂ　ｃ")), "Aあb c");
}

#[test]
fn strings_and_characters_convert_both_ways() {
    assert_eq!(chars_of("aあ👑"), vec!['a', 'あ', '👑']);
    assert_eq!(chars_of(""), Vec::<char>::new());
    assert_eq!(string_of(&vec!['a', 'あ', '👑']), "aあ👑");
    assert_eq!(string_of(&Vec::new()), "");
    assert_eq!(string_of_range(&vec!['a', 'b', 'c', 'd'], 1, 3), "bc");
    assert_eq!(string_of_range(&vec!['a', 'b', 'c', 'd'], 2, 2), "");
    assert_eq!(string_of_range(&vec!['a', 'b', 'c', 'd'], 0, 4), "abcd");
    let list = vec!["a".to_string(), "".to_string(), "bc".to_string()];
    assert_eq!(clone_strings(&list), list);
}

#[test]
fn bytes_are_decoded_only_if_they_are_utf8() {
    assert_eq!(bytes_of("aあ"), vec![0x61, 0xE3, 0x81, 0x82]);
    assert_eq!(decode(vec![0x61, 0xE3, 0x81, 0x82]), Some("aあ".to_string()));
    assert_eq!(decode(Vec::new()), Some(String::new()));
    assert_eq!(decode(vec![0xE3, 0x81]), None);
    assert_eq!(decode(vec![0x81]), None);
    assert_eq!(decode(vec![0xED, 0xA0, 0x80]), None);
    assert_eq!(decode(vec![0xC0, 0x80]), None);
}

#[test]
fn matches_are_replaced_by_the_values_of_their_rules() {
    let rules = vec![rule("foo", "x", false), rule("ba", "12345", false), rule("!", "", false)];
    assert_eq!(splice("foobarfoo!", &[], &rules), "foobarfoo!");
    assert_eq!(
        splice("foobarfoo!", &[found(0, 0, 3), found(1, 3, 5), found(0, 6, 9), found(2, 9, 10)], &rules),
        "x12345rx"
    );
    assert_eq!(splice("foobarfoo!", &[found(1, 3, 5)], &rules), "foo12345rfoo!");
    assert_eq!(splice("ab", &[found(0, 0, 0), found(0, 1, 1), found(0, 2, 2)], &rules), "xaxbx");
    assert_eq!(splice("", &[found(1, 0, 0)], &rules), "12345");
    assert_eq!(splice("abc", &[found(2, 0, 3)], &rules), "");
}

#[test]
fn replacing_from_the_left_is_replacing_from_the_right() {
    let rules = vec![rule("a", "long value", false), rule("b", "", false), rule("c", "é", false)];
    let text = "xxaxbbxcxxaab";
    let matches = [
        found(0, 2, 3),
        found(1, 4, 5),
        found(1, 5, 6),
        found(2, 7, 8),
        found(0, 10, 11),
        found(0, 11, 12),
        found(1, 12, 13),
    ];
    assert_eq!(splice(text, &matches, &rules), splice_from_the_right(text, &matches, &rules));
    assert_eq!(
        splice(text, &matches, &rules),
        "xxlong valuexxéxxlong valuelong value"
    );
}

#[test]
fn ascii_capitals_are_lowered() {
    assert_eq!(to_lower('A'), 'a');
    assert_eq!(to_lower('Z'), 'z');
    assert_eq!(to_lower('M'), 'm');
    assert_eq!(to_lower('a'), 'a');
    assert_eq!(to_lower('@'), '@');
    assert_eq!(to_lower('['), '[');
    assert_eq!(to_lower('Ａ'), 'Ａ');
    assert_eq!(to_lower('É'), 'É');
}

#[test]
fn the_name_of_a_symbol_stands_between_colons() {
    assert_eq!(token_of('👑', ":crown:"), Token::Symbol("crown".to_string()));
    assert_eq!(token_of('🌴', ":palm_tree:"), Token::Symbol("palm tree".to_string()));
    assert_eq!(token_of('x', ":a:b_c:"), Token::Symbol("a b c".to_string()));
    assert_eq!(token_of('x', "::"), Token::Symbol(String::new()));
    assert_eq!(token_of('x', ":ab"), Token::Symbol("a".to_string()));
    assert_eq!(token_of(':', ":"), Token::Plain(':'));
    assert_eq!(token_of('a', "a"), Token::Plain('a'));
    assert_eq!(token_of('あ', "a"), Token::Plain('あ'));
    assert_eq!(token_of('x', ""), Token::Plain('x'));
    assert_eq!(token_of('x', "crown:"), Token::Plain('x'));
}

#[test]
fn symbols_that_follow_each_other_are_kept_apart() {
    let crown = Token::Symbol("crown".to_string());
    let tree = Token::Symbol("palm tree".to_string());
    assert_eq!(join_tokens(&vec![crown.clone(), tree.clone()]), "crown palm tree");
    assert_eq!(join_tokens(&vec![crown.clone(), crown.clone(), crown.clone()]), "crown crown crown");
    assert_eq!(
        join_tokens(&vec![Token::Plain('a'), crown.clone(), Token::Plain('b'), tree.clone()]),
        "acrownbpalm tree"
    );
    assert_eq!(join_tokens(&vec![crown.clone(), Token::Plain(' '), tree.clone()]), "crown palm tree");
    assert_eq!(join_tokens(&vec![Token::Plain('x')]), "x");
    assert_eq!(join_tokens(&Vec::new()), "");
}

#[test]
fn transliteration_spells_symbols_and_keeps_other_scripts() {
    assert_eq!(transliterate("👑"), "crown");
    assert_eq!(transliterate("👑🌴"), "crown palm tree");
    assert_eq!(transliterate("A👑🌴b"), "acrown palm treeb");
    assert_eq!(transliterate("Hello, World"), "hello, world");
    assert_eq!(transliterate("カタカナ ひらがな 漢字"), "カタカナ ひらがな 漢字");
    assert_eq!(transliterate("a:b::c"), "a:b::c");
    assert_eq!(transliterate(""), "");
}

#[test]
fn a_pattern_is_valid_if_it_compiles() {
    assert!(is_valid_pattern("ba[rz]"));
    assert!(is_valid_pattern(""));
    assert!(is_valid_pattern("(a|b)+c?"));
    assert!(!is_valid_pattern("(unclosed"));
    assert!(!is_valid_pattern("[a"));
    assert!(!is_valid_pattern("*a"));
}

#[test]
fn pattern_rules_rewrite_in_their_order() {
    let rules = vec![rule("a+", "b", true), rule("b", "c", true)];
    assert_eq!(apply_patterns(&rules, "aaab".to_string()), Ok("cc".to_string()));
    let rules = vec![rule("b", "c", true), rule("a+", "b", true)];
    assert_eq!(apply_patterns(&rules, "aaab".to_string()), Ok("bc".to_string()));
    assert_eq!(apply_patterns(&Vec::new(), "aaab".to_string()), Ok("aaab".to_string()));
    let rules = vec![rule("a", "x", true), rule("(", "y", true), rule("x", "z", true)];
    assert_eq!(apply_patterns(&rules, "a".to_string()), Err(DictError::InvalidPattern));
}

#[test]
fn every_character_is_narrowed_as_the_table_says() {
    for code in 0..=0x10FFFFu32 {
        let Some(c) = char::from_u32(code) else {
            continue;
        };
        let expected = if code == 0x3000 {
            ' '
        } else if (0xFF01..=0xFF5E).contains(&code) {
            char::from_u32(code - 0xFEE0).unwrap()
        } else {
            c
        };
        assert_eq!(to_narrow(&c.to_string()), expected.to_string());
    }
}

#[test]
fn every_character_is_lowered_as_ascii_is() {
    for code in 0..=0x10FFFFu32 {
        let Some(c) = char::from_u32(code) else {
            continue;
        };
        assert_eq!(to_lower(c), c.to_ascii_lowercase());
    }
}
