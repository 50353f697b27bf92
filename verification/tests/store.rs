use dictionary::{DictError, DictItem, Dictionary};

fn rule(key: &str, value: &str, is_regex: bool) -> DictItem {
    DictItem { key: key.to_string(), value: value.to_string(), is_regex }
}

fn keys(items: &Vec<DictItem>) -> Vec<String> {
    items.iter().map(|item| item.key.clone()).collect()
}

#[test]
fn test_from_items() {
    let items = vec![
        DictItem { key: "foo".to_string(), value: "bar".to_string(), is_regex: false },
        DictItem { key: "baz".to_string(), value: "qux".to_string(), is_regex: true },
    ];
    let dict = Dictionary::from_items(items).unwrap();
    assert_eq!(dict.literal_rules().len(), 1);
    assert_eq!(dict.pattern_rules().len(), 1);
}

#[test]
fn test_add_remove_reset() {
    let mut dict = Dictionary::new();

    let item = DictItem {
        key: "test".to_string(),
        value: "replacement".to_string(),
        is_regex: false,
    };

    dict.add(item.clone()).unwrap();
    assert_eq!(dict.literal_rules().len(), 1);
    assert_eq!(dict.literal_rules()[0], item);
    assert!(dict.pattern_rules().is_empty());

    dict.remove("test").unwrap();
    assert!(dict.literal_rules().is_empty());
    assert!(dict.pattern_rules().is_empty());

    dict.add(item.clone()).unwrap();
    dict.reset();
    assert!(dict.literal_rules().is_empty());
    assert!(dict.pattern_rules().is_empty());
}

#[test]
fn a_new_dictionary_is_empty() {
    let dict = Dictionary::new();
    assert_eq!(dict.len(), 0);
    assert!(dict.is_empty());
    assert!(!dict.contains("anything"));
    assert_eq!(dict.get("anything"), None);
    assert!(dict.to_items().is_empty());
    let by_default = Dictionary::default();
    assert!(by_default.is_empty());
}

#[test]
fn insert_then_get_then_remove_then_reset() {
    let mut dict = Dictionary::new();
    let item = rule("test", "replacement", false);

    assert_eq!(dict.insert(item.clone()), Ok(None));
    assert_eq!(dict.get("test"), Some(&item));
    assert!(dict.contains("test"));
    assert_eq!(dict.len(), 1);

    assert_eq!(dict.remove("test"), Ok(Some(item.clone())));
    assert_eq!(dict.get("test"), None);
    assert!(!dict.contains("test"));
    assert_eq!(dict.len(), 0);

    assert_eq!(dict.insert(item.clone()), Ok(None));
    dict.reset();
    assert!(dict.literal_rules().is_empty());
    assert!(dict.pattern_rules().is_empty());
    assert_eq!(dict.len(), 0);
    assert!(dict.is_empty());
}

#[test]
fn clear_removes_every_rule() {
    let mut dict = Dictionary::from_items(vec![rule("a", "1", false), rule("b+", "2", true)])
        .unwrap();
    assert_eq!(dict.len(), 2);
    dict.clear();
    assert!(dict.is_empty());
    assert!(dict.to_items().is_empty());
    assert!(!dict.contains("a"));
}

#[test]
fn inserting_an_existing_key_returns_the_previous_rule() {
    let mut dict = Dictionary::new();
    let first = rule("key", "one", false);
    let second = rule("key", "two", false);
    assert_eq!(dict.insert(first.clone()), Ok(None));
    assert_eq!(dict.insert(second.clone()), Ok(Some(first)));
    assert_eq!(dict.get("key"), Some(&second));
    assert_eq!(dict.len(), 1);
    assert_eq!(dict.to_items(), vec![second]);
}

#[test]
fn add_says_whether_a_rule_was_replaced() {
    let mut dict = Dictionary::new();
    assert_eq!(dict.add(rule("key", "one", false)), Ok(false));
    assert_eq!(dict.add(rule("key", "two", false)), Ok(true));
    assert_eq!(dict.add(rule("other", "three", true)), Ok(false));
    assert_eq!(dict.len(), 2);
}

#[test]
fn a_replaced_rule_moves_to_the_end_of_its_group() {
    let mut dict = Dictionary::new();
    dict.insert(rule("a", "1", false)).unwrap();
    dict.insert(rule("b", "2", false)).unwrap();
    dict.insert(rule("c", "3", false)).unwrap();
    dict.insert(rule("a", "4", false)).unwrap();
    assert_eq!(keys(dict.literal_rules()), vec!["b", "c", "a"]);
    assert_eq!(dict.get("a").unwrap().value, "4");
}

#[test]
fn a_key_is_unique_across_both_groups() {
    let mut dict = Dictionary::new();
    let literal = rule("k", "literal", false);
    let pattern = rule("k", "pattern", true);
    assert_eq!(dict.insert(literal.clone()), Ok(None));
    assert_eq!(dict.insert(pattern.clone()), Ok(Some(literal.clone())));
    assert!(dict.literal_rules().is_empty());
    assert_eq!(dict.pattern_rules(), &vec![pattern.clone()]);
    assert_eq!(dict.len(), 1);
    assert_eq!(dict.insert(literal.clone()), Ok(Some(pattern)));
    assert_eq!(dict.literal_rules(), &vec![literal]);
    assert!(dict.pattern_rules().is_empty());
    assert_eq!(dict.len(), 1);
}

#[test]
fn an_invalid_pattern_is_rejected_and_nothing_changes() {
    let mut dict = Dictionary::new();
    dict.insert(rule("kept", "value", false)).unwrap();
    let before = dict.to_items();
    let result = dict.insert(rule("(unclosed", "x", true));
    assert_eq!(result, Err(DictError::InvalidPattern));
    assert_eq!(dict.len(), 1);
    assert_eq!(dict.to_items(), before);
    assert!(!dict.contains("(unclosed"));
    assert_eq!(dict.add(rule("(unclosed", "x", true)), Err(DictError::InvalidPattern));
    assert_eq!(dict.len(), 1);
}

#[test]
fn an_invalid_pattern_does_not_displace_the_rule_with_its_key() {
    let mut dict = Dictionary::new();
    let literal = rule("(unclosed", "text", false);
    dict.insert(literal.clone()).unwrap();
    assert_eq!(dict.insert(rule("(unclosed", "x", true)), Err(DictError::InvalidPattern));
    assert_eq!(dict.get("(unclosed"), Some(&literal));
}

#[test]
fn a_literal_key_need_not_be_a_valid_pattern() {
    let mut dict = Dictionary::new();
    assert_eq!(dict.insert(rule("(unclosed", "x", false)), Ok(None));
    assert!(dict.contains("(unclosed"));
}

#[test]
fn removing_a_missing_key_changes_nothing() {
    let mut dict = Dictionary::from_items(vec![rule("a", "1", false)]).unwrap();
    assert_eq!(dict.remove("b"), Ok(None));
    assert_eq!(dict.len(), 1);
    assert_eq!(dict.to_items(), vec![rule("a", "1", false)]);
}

#[test]
fn remove_takes_a_pattern_rule_out_of_its_group() {
    let mut dict = Dictionary::from_items(
        vec![rule("a", "1", false), rule("x+", "2", true), rule("y+", "3", true)],
    ).unwrap();
    assert_eq!(dict.remove("x+"), Ok(Some(rule("x+", "2", true))));
    assert_eq!(keys(dict.pattern_rules()), vec!["y+"]);
    assert_eq!(keys(dict.literal_rules()), vec!["a"]);
    assert_eq!(dict.len(), 2);
}

#[test]
fn loading_and_writing_out_keeps_every_rule() {
    let items = vec![
        rule("p1", "a", true),
        rule("l1", "b", false),
        rule("p2", "c", true),
        rule("l2", "d", false),
        rule("l3", "e", false),
    ];
    let dict = Dictionary::from_items(items.clone()).unwrap();
    let written = dict.to_items();
    assert_eq!(written.len(), items.len());
    for item in &items {
        assert!(written.contains(item));
    }
    for item in &written {
        assert!(items.contains(item));
    }
    assert_eq!(keys(&written), vec!["l1", "l2", "l3", "p1", "p2"]);
    assert_eq!(dict.len(), 5);
}

#[test]
fn extend_appends_each_rule_to_its_group() {
    let mut dict = Dictionary::from_items(vec![rule("a", "1", false), rule("x+", "2", true)])
        .unwrap();
    dict.extend(vec![rule("y+", "3", true), rule("b", "4", false), rule("c", "5", false)])
        .unwrap();
    assert_eq!(keys(dict.literal_rules()), vec!["a", "b", "c"]);
    assert_eq!(keys(dict.pattern_rules()), vec!["x+", "y+"]);
    assert_eq!(dict.len(), 5);
    assert!(dict.contains("c"));
    assert!(dict.contains("y+"));
}

#[test]
fn extend_does_not_look_at_the_keys_that_are_there() {
    let mut dict = Dictionary::from_items(vec![rule("a", "1", false)]).unwrap();
    dict.extend(vec![rule("a", "2", false)]).unwrap();
    assert_eq!(dict.literal_rules().len(), 2);
    assert_eq!(dict.len(), 1);
    assert_eq!(dict.get("a"), Some(&rule("a", "1", false)));
    assert_eq!(dict.remove("a"), Ok(Some(rule("a", "1", false))));
    assert!(dict.contains("a"));
    assert_eq!(dict.get("a"), Some(&rule("a", "2", false)));
    assert_eq!(dict.remove("a"), Ok(Some(rule("a", "2", false))));
    assert!(!dict.contains("a"));
    assert!(dict.is_empty());
}

#[test]
fn extend_with_nothing_changes_nothing() {
    let mut dict = Dictionary::from_items(vec![rule("a", "1", false)]).unwrap();
    dict.extend(Vec::new()).unwrap();
    assert_eq!(dict.to_items(), vec![rule("a", "1", false)]);
}

#[test]
fn add_items_replaces_a_rule_where_it_stands() {
    let mut dict = Dictionary::from_items(
        vec![rule("a", "1", false), rule("b", "2", false), rule("x+", "3", true)],
    ).unwrap();
    dict.add_items(vec![rule("a", "9", false), rule("c", "4", false), rule("x+", "8", true)])
        .unwrap();
    assert_eq!(
        dict.to_items(),
        vec![
            rule("a", "9", false),
            rule("b", "2", false),
            rule("c", "4", false),
            rule("x+", "8", true),
        ]
    );
    assert_eq!(dict.len(), 4);
}

#[test]
fn add_items_moves_a_key_to_the_group_of_the_new_rule() {
    let mut dict = Dictionary::from_items(vec![rule("a", "1", false), rule("b", "2", false)])
        .unwrap();
    dict.add_items(vec![rule("a", "9", true)]).unwrap();
    assert_eq!(dict.to_items(), vec![rule("b", "2", false), rule("a", "9", true)]);
    assert_eq!(dict.len(), 2);
    dict.add_items(vec![rule("a", "7", false), rule("a", "6", false)]).unwrap();
    assert_eq!(dict.to_items(), vec![rule("b", "2", false), rule("a", "6", false)]);
    assert_eq!(dict.len(), 2);
}

#[test]
fn add_items_never_removes_a_rule_that_is_not_imported() {
    let mut dict = Dictionary::from_items(vec![rule("a", "1", false), rule("x+", "2", true)])
        .unwrap();
    dict.add_items(vec![rule("b", "3", false)]).unwrap();
    assert!(dict.contains("a"));
    assert!(dict.contains("x+"));
    assert!(dict.contains("b"));
    assert_eq!(dict.len(), 3);
}

#[test]
fn the_key_set_follows_every_operation() {
    let mut dict = Dictionary::new();
    dict.insert(rule("a", "1", false)).unwrap();
    dict.insert(rule("b+", "2", true)).unwrap();
    dict.extend(vec![rule("c", "3", false)]).unwrap();
    dict.add_items(vec![rule("d", "4", true), rule("a", "5", false)]).unwrap();
    dict.remove("b+").unwrap();
    let mut expected = vec!["a", "c", "d"];
    let mut actual = keys(&dict.to_items());
    expected.sort();
    actual.sort();
    assert_eq!(actual, expected);
    assert_eq!(dict.len(), 3);
    for key in ["a", "c", "d"] {
        assert!(dict.contains(key));
        assert_eq!(dict.get(key).unwrap().key, key);
    }
    assert!(!dict.contains("b+"));
    dict.reset();
    assert_eq!(dict.len(), 0);
    assert!(!dict.contains("a"));
}

#[test]
fn get_looks_among_the_literal_rules_first() {
    let mut dict = Dictionary::new();
    dict.extend(vec![rule("k", "pattern", true), rule("k", "literal", false)]).unwrap();
    assert_eq!(dict.get("k"), Some(&rule("k", "literal", false)));
}

#[test]
fn items_compare_by_all_their_fields() {
    assert_eq!(rule("a", "b", false), rule("a", "b", false));
    assert_ne!(rule("a", "b", false), rule("a", "b", true));
    assert_ne!(rule("a", "b", false), rule("a", "c", false));
    assert_ne!(rule("a", "b", false), rule("x", "b", false));
    let item = rule("a", "b", true);
    assert_eq!(item.clone(), item);
}

#[test]
fn keys_stay_apart_through_inserting_removing_and_importing() {
    let mut dict = Dictionary::new();
    let names = ["a", "b", "c", "a+", "b", "a", "c+", "a", "b"];
    for (turn, name) in names.iter().enumerate() {
        dict.insert(rule(name, &turn.to_string(), turn % 2 == 0)).unwrap();
        if turn % 3 == 2 {
            dict.remove(names[turn - 1]).unwrap();
        }
        if turn % 4 == 3 {
            dict.add_items(vec![rule("a", "x", turn % 8 == 3), rule("z", "y", false)]).unwrap();
        }
        let items = dict.to_items();
        let mut seen = keys(&items);
        seen.sort();
        let count = seen.len();
        seen.dedup();
        assert_eq!(seen.len(), count);
        assert_eq!(dict.len(), count);
        for item in dict.literal_rules() {
            assert!(!item.is_regex);
        }
        for item in dict.pattern_rules() {
            assert!(item.is_regex);
        }
        for key in &seen {
            assert!(dict.contains(key));
        }
    }
}
