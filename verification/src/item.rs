//! Substitution rules and the errors of the dictionary.

use vstd::prelude::*;

verus! {

/// The mathematical content of a rule: what is matched, what it is replaced
/// by, and whether the key is a regular expression.
pub struct Rule {
    pub key: Seq<char>,
    pub value: Seq<char>,
    pub is_regex: bool,
}

/// One substitution rule as callers hold it.
#[derive(Debug)]
pub struct DictItem {
    pub key: String,
    pub value: String,
    pub is_regex: bool,
}

impl View for DictItem {
    type V = Rule;

    open spec fn view(&self) -> Rule {
        Rule { key: self.key@, value: self.value@, is_regex: self.is_regex }
    }
}

impl Clone for DictItem {
    fn clone(&self) -> (r: Self)
        ensures
            r@ == self@,
    {
        DictItem { key: self.key.clone(), value: self.value.clone(), is_regex: self.is_regex }
    }
}

impl PartialEq for DictItem {
    fn eq(&self, other: &Self) -> (r: bool) {
        self.key == other.key && self.value == other.value && self.is_regex == other.is_regex
    }
}

impl vstd::std_specs::cmp::PartialEqSpecImpl for DictItem {
    open spec fn obeys_eq_spec() -> bool {
        true
    }

    open spec fn eq_spec(&self, other: &Self) -> bool {
        self@ == other@
    }
}

impl Eq for DictItem {}

/// The rules that a list of items stands for.
pub open spec fn rules_of(items: Seq<DictItem>) -> Seq<Rule> {
    items.map_values(|item: DictItem| item@)
}

/// The keys of a list of rules, in the order of the rules.
pub open spec fn keys_of(rules: Seq<Rule>) -> Seq<Seq<char>> {
    rules.map_values(|rule: Rule| rule.key)
}

/// Why an operation of the dictionary failed.
#[derive(Debug, Clone, Copy, PartialEq, Eq, Structural)]
pub enum DictError {
    /// The key of a pattern rule is not a valid regular expression.
    InvalidPattern,
    /// The text rebuilt after replacing literal matches is not valid UTF-8.
    EncodingError,
    /// No matcher could be built over the keys of the literal rules.
    Matcher,
}

} // verus!
