//! The dictionary: literal rules and pattern rules, a matcher over the keys
//! of the literal rules that is rebuilt whenever they change, the set of all
//! keys, and the rewriting of a text by all of it.

use crate::item::{keys_of, rules_of, DictError, DictItem, Rule};
use crate::lexicon::Lexicon;
use crate::matcher::{
    build_matcher, encoded_values, find_matches, literal_matches, matcher_builds,
    matcher_patterns, splice_matches, spliced,
};
use crate::pattern::{apply_patterns, is_valid_pattern, pattern_compiles, rewrite_patterns};
use crate::rules::{
    first_index, has_key, lemma_appended, lemma_appended_step, lemma_first_index,
    lemma_first_index_is, lemma_inserted, lemma_key_count, lemma_merged, lemma_with,
    lemma_without, Rules,
};
use crate::segment::{segment, segmented, strip_spaces, without_spaces};
use crate::text::{bytes_of, decode};
use crate::translit::{transliterate, transliterated};
use crate::width::{narrow, to_narrow};
use aho_corasick::AhoCorasick;
use vstd::hash_set::StringHashSet;
use vstd::prelude::*;
use vstd::utf8::{decode_utf8, encode_utf8, valid_utf8};

verus! {

/// Whether a matcher can be had for the literal rules: none is needed where
/// there are no rules.
pub open spec fn buildable(literal: Seq<Rule>) -> bool {
    literal.len() == 0 || matcher_builds(keys_of(literal))
}

/// The text with every match of a literal key replaced by the value of its
/// rule; `None` if what comes out is not valid UTF-8.
pub open spec fn rewrite_literals(literal: Seq<Rule>, text: Seq<char>) -> Option<Seq<char>> {
    if literal.len() == 0 {
        Some(text)
    } else {
        let out = spliced(
            encode_utf8(text),
            literal_matches(keys_of(literal), text),
            encoded_values(literal),
        );
        if valid_utf8(out) {
            Some(decode_utf8(out))
        } else {
            None
        }
    }
}

/// What applying a dictionary to a text gives: the text is narrowed, then
/// rewritten by the pattern rules and by the literal rules, its symbols are
/// spelled out, its runs of small letters are read, and its spaces leave.
pub open spec fn applied(rules: Rules, lexicon: Map<Seq<char>, Seq<char>>, text: Seq<char>) -> Result<
    Seq<char>,
    DictError,
> {
    match rewrite_patterns(rules.pattern, narrow(text)) {
        None => Err(DictError::InvalidPattern),
        Some(rewritten) => match rewrite_literals(rules.literal, rewritten) {
            None => Err(DictError::EncodingError),
            Some(replaced) => Ok(
                without_spaces(segmented(lexicon, transliterated(replaced))),
            ),
        },
    }
}

/// The error, if any, with which the insertion of a rule fails.
pub open spec fn insert_error(rules: Rules, rule: Rule) -> Option<DictError> {
    if rule.is_regex && !pattern_compiles(rule.key) {
        Some(DictError::InvalidPattern)
    } else if !buildable(rules.inserted(rule).literal) {
        Some(DictError::Matcher)
    } else {
        None
    }
}

/// The error, if any, with which the removal of a key fails.
pub open spec fn remove_error(rules: Rules, key: Seq<char>) -> Option<DictError> {
    if !buildable(rules.without(key).literal) {
        Some(DictError::Matcher)
    } else {
        None
    }
}

/// The rule in an optional item.
pub open spec fn rule_in(item: Option<DictItem>) -> Option<Rule> {
    match item {
        Some(item) => Some(item@),
        None => None,
    }
}

/// The rules that two lists of items stand for.
pub open spec fn rules_in(literal: Seq<DictItem>, pattern: Seq<DictItem>) -> Rules {
    Rules { literal: rules_of(literal), pattern: rules_of(pattern) }
}

/// A pronunciation dictionary.
///
/// It holds the literal rules and the pattern rules, each group in the order
/// in which its rules came, a matcher whose patterns are the keys of the
/// literal rules in that order, and the set of the keys of all rules. Every
/// operation leaves the three in agreement. Inserting, removing and importing
/// over what is there keep the keys of the rules apart; appending does so only
/// for rules whose keys are new.
pub struct Dictionary {
    items: Vec<DictItem>,
    regex_items: Vec<DictItem>,
    automaton: Option<AhoCorasick>,
    keys: StringHashSet,
}

impl View for Dictionary {
    type V = Rules;

    closed spec fn view(&self) -> Rules {
        rules_in(self.items@, self.regex_items@)
    }
}

/// The position of the first item with the key.
fn position(items: &Vec<DictItem>, key: &String) -> (at: usize)
    ensures
        at == first_index(rules_of(items@), key@),
        at <= items.len(),
        at < items.len() <==> has_key(rules_of(items@), key@),
{
    let ghost rules = rules_of(items@);
    let mut i: usize = 0;
    while i < items.len()
        invariant
            0 <= i <= items.len(),
            rules == rules_of(items@),
            forall|j: int| 0 <= j < i ==> (#[trigger] rules[j]).key != key@,
        decreases items.len() - i,
    {
        if items[i].key == *key {
            proof {
                lemma_first_index_is(rules, key@, i as int);
            }
            return i;
        }
        i += 1;
    }
    proof {
        lemma_first_index_is(rules, key@, i as int);
    }
    i
}

/// A matcher for the items, if they need one.
fn rebuild(items: &Vec<DictItem>) -> (r: Result<Option<AhoCorasick>, DictError>)
    ensures
        r is Ok <==> buildable(rules_of(items@)),
        r matches Err(e) ==> e == DictError::Matcher,
        r matches Ok(automaton) ==> match automaton {
            Some(ac) => matcher_patterns(ac) == keys_of(rules_of(items@)),
            None => items@.len() == 0,
        },
{
    if items.len() == 0 {
        Ok(None)
    } else {
        match build_matcher(items) {
            Ok(ac) => Ok(Some(ac)),
            Err(_) => Err(DictError::Matcher),
        }
    }
}

/// A copy of a list of items.
fn clone_items(items: &Vec<DictItem>) -> (r: Vec<DictItem>)
    ensures
        rules_of(r@) == rules_of(items@),
{
    let mut r: Vec<DictItem> = Vec::new();
    let mut i: usize = 0;
    while i < items.len()
        invariant
            0 <= i <= items.len(),
            rules_of(r@) == rules_of(items@.take(i as int)),
        decreases items.len() - i,
    {
        let ghost before = rules_of(r@);
        r.push(items[i].clone());
        assert(rules_of(r@) =~= before.push(items@[i as int]@));
        i += 1;
    }
    r
}

/// The keys of the items of both lists.
fn collect_keys(literal: &Vec<DictItem>, pattern: &Vec<DictItem>) -> (keys: StringHashSet)
    requires
        rules_in(literal@, pattern@).grouped(),
    ensures
        keys@ == rules_in(literal@, pattern@).key_set(),
{
    let ghost none = Seq::<DictItem>::empty();
    let mut keys = StringHashSet::new();
    let mut i: usize = 0;
    while i < literal.len()
        invariant
            0 <= i <= literal.len(),
            none == Seq::<DictItem>::empty(),
            rules_in(literal@, pattern@).grouped(),
            keys@ == rules_in(literal@.take(i as int), none).key_set(),
        decreases literal.len() - i,
    {
        let ghost part = rules_in(literal@.take(i as int), none);
        proof {
            let rule = literal@[i as int]@;
            assert(rules_in(literal@, pattern@).literal[i as int] == rule);
            lemma_with(part, rule);
            assert(rules_of(literal@.take(i + 1)) =~= part.literal.push(rule));
        }
        keys.insert(literal[i].key.clone());
        i += 1;
    }
    assert(literal@.take(literal@.len() as int) == literal@);
    let mut j: usize = 0;
    while j < pattern.len()
        invariant
            0 <= j <= pattern.len(),
            rules_in(literal@, pattern@).grouped(),
            keys@ == rules_in(literal@, pattern@.take(j as int)).key_set(),
        decreases pattern.len() - j,
    {
        let ghost part = rules_in(literal@, pattern@.take(j as int));
        proof {
            let rule = pattern@[j as int]@;
            assert(rules_in(literal@, pattern@).pattern[j as int] == rule);
            lemma_with(part, rule);
            assert(rules_of(pattern@.take(j + 1)) =~= part.pattern.push(rule));
        }
        keys.insert(pattern[j].key.clone());
        j += 1;
    }
    assert(pattern@.take(pattern@.len() as int) == pattern@);
    keys
}

impl Dictionary {
    #[verifier::type_invariant]
    closed spec fn inv(&self) -> bool {
        &&& self.keys@ == self@.key_set()
        &&& self@.grouped()
        &&& buildable(self@.literal)
        &&& match self.automaton {
            Some(ac) => matcher_patterns(ac) == keys_of(self@.literal),
            None => self@.literal.len() == 0,
        }
    }

    /// The patterns of the matcher.
    pub closed spec fn matcher_keys(&self) -> Seq<Seq<char>> {
        match self.automaton {
            Some(ac) => matcher_patterns(ac),
            None => Seq::empty(),
        }
    }

    /// The keys of the key set.
    pub closed spec fn key_set(&self) -> Set<Seq<char>> {
        self.keys@
    }

    /// Whether the matcher and the key set agree with the rules: the
    /// patterns of the matcher are the keys of the literal rules, in their
    /// order; the key set holds the keys of all rules and no other; and
    /// each rule stands in the group that its flag names.
    pub open spec fn consistent(&self) -> bool {
        &&& self.matcher_keys() == keys_of(self@.literal)
        &&& self.key_set() == self@.key_set()
        &&& self@.grouped()
    }

    /// A dictionary without rules.
    pub fn new() -> (dict: Dictionary)
        ensures
            dict@ == Rules::empty(),
            dict@.unique(),
            dict.consistent(),
    {
        let items: Vec<DictItem> = Vec::new();
        let regex_items: Vec<DictItem> = Vec::new();
        let keys = StringHashSet::new();
        proof {
            let rules = Rules { literal: rules_of(items@), pattern: rules_of(regex_items@) };
            assert(rules.literal =~= Seq::<Rule>::empty());
            assert(rules.key_set() =~= Set::<Seq<char>>::empty());
            assert(keys_of(rules.literal) =~= Seq::<Seq<char>>::empty());
        }
        Dictionary { items, regex_items, automaton: None, keys }
    }

    /// The number of keys, which is the number of rules where no two rules
    /// have the same key.
    pub fn len(&self) -> (n: usize)
        ensures
            n == self@.key_set().len(),
            self@.unique() ==> n == self@.literal.len() + self@.pattern.len(),
            self.consistent(),
    {
        broadcast use vstd::hash_set::axiom_string_hash_set_spec_len;

        proof {
            use_type_invariant(self);
            self.lemma_consistent();
            lemma_key_count(self@);
        }
        self.keys.len()
    }

    /// Whether the dictionary has no rules.
    pub fn is_empty(&self) -> (b: bool)
        ensures
            b == (self@.literal.len() == 0 && self@.pattern.len() == 0),
            self.consistent(),
    {
        proof {
            use_type_invariant(self);
            self.lemma_consistent();
            if self@.literal.len() > 0 {
                assert(self@.key_set().contains(self@.literal[0].key));
            }
            if self@.pattern.len() > 0 {
                assert(self@.key_set().contains(self@.pattern[0].key));
            }
        }
        self.keys.is_empty()
    }

    /// Whether a rule has the key.
    pub fn contains(&self, key: &str) -> (b: bool)
        ensures
            b == self@.contains(key@),
            self.consistent(),
    {
        proof {
            use_type_invariant(self);
            self.lemma_consistent();
        }
        self.keys.contains(key)
    }

    /// The literal rules, in the order in which they came.
    pub fn literal_rules(&self) -> (items: &Vec<DictItem>)
        ensures
            rules_of(items@) == self@.literal,
    {
        &self.items
    }

    /// The pattern rules, in the order in which they came.
    pub fn pattern_rules(&self) -> (items: &Vec<DictItem>)
        ensures
            rules_of(items@) == self@.pattern,
    {
        &self.regex_items
    }

    /// Looks up the rule with the key: a literal rule first, then a pattern
    /// rule.
    pub fn get(&self, key: &str) -> (r: Option<&DictItem>)
        ensures
            match r {
                Some(item) => self@.find(key@) == Some(item@),
                None => self@.find(key@) is None,
            },
    {
        proof {
            use_type_invariant(self);
        }
        if !self.keys.contains(key) {
            return None;
        }
        let key = key.to_owned();
        let at = position(&self.items, &key);
        if at < self.items.len() {
            Some(&self.items[at])
        } else {
            let at = position(&self.regex_items, &key);
            if at < self.regex_items.len() {
                Some(&self.regex_items[at])
            } else {
                None
            }
        }
    }

    /// Inserts a rule. A rule that had its key, in whichever group, leaves
    /// first and is returned; the new rule comes at the end of its group. A
    /// pattern rule whose key does not compile is refused, and so is a rule
    /// with which no matcher can be built; the dictionary then stays as it was.
    pub fn insert(&mut self, item: DictItem) -> (r: Result<Option<DictItem>, DictError>)
        ensures
            final(self).consistent(),
            match r {
                Ok(previous) => {
                    &&& insert_error(old(self)@, item@) is None
                    &&& final(self)@ == old(self)@.inserted(item@)
                    &&& rule_in(previous) == old(self)@.find(item@.key)
                },
                Err(e) => insert_error(old(self)@, item@) == Some(e) && final(self)@ == old(
                    self,
                )@,
            },
            old(self)@.unique() ==> final(self)@.unique(),
            old(self)@.unique() && r is Ok ==> final(self)@.find(item@.key) == Some(item@),
    {
        proof {
            use_type_invariant(&*self);
            self.lemma_consistent();
        }
        if item.is_regex && !is_valid_pattern(item.key.as_str()) {
            return Err(DictError::InvalidPattern);
        }
        let ghost before = self@;
        let ghost rule = item@;
        proof {
            lemma_inserted(before, rule);
            lemma_without(before, rule.key);
            lemma_first_index(before.literal, rule.key);
            lemma_first_index(before.pattern, rule.key);
        }
        let mut taken = Dictionary::new();
        std::mem::swap(self, &mut taken);
        let Dictionary { items, regex_items, automaton, keys } = taken;
        let mut items = items;
        let mut regex_items = regex_items;
        let mut keys = keys;
        let ghost old_items = items@;
        let key = item.key.clone();
        let at = position(&items, &key);
        if at < items.len() {
            let removed = items.remove(at);
            assert(rules_of(items@) =~= before.literal.remove(at as int));
            if item.is_regex {
                match rebuild(&items) {
                    Ok(new_automaton) => {
                        regex_items.push(item);
                        keys.insert(key);
                        assert(rules_of(regex_items@) =~= before.pattern.push(rule));
                        *self = Dictionary { items, regex_items, automaton: new_automaton, keys };
                        proof {
                            self.lemma_consistent();
                        }
                        Ok(Some(removed))
                    },
                    Err(e) => {
                        items.insert(at, removed);
                        assert(items@ =~= old_items);
                        *self = Dictionary { items, regex_items, automaton, keys };
                        proof {
                            self.lemma_consistent();
                        }
                        Err(e)
                    },
                }
            } else {
                items.push(item);
                assert(rules_of(items@) =~= before.literal.remove(at as int).push(rule));
                match rebuild(&items) {
                    Ok(new_automaton) => {
                        keys.insert(key);
                        *self = Dictionary { items, regex_items, automaton: new_automaton, keys };
                        proof {
                            self.lemma_consistent();
                        }
                        Ok(Some(removed))
                    },
                    Err(e) => {
                        let _ = items.pop();
                        items.insert(at, removed);
                        assert(items@ =~= old_items);
                        *self = Dictionary { items, regex_items, automaton, keys };
                        proof {
                            self.lemma_consistent();
                        }
                        Err(e)
                    },
                }
            }
        } else {
            let at = position(&regex_items, &key);
            if item.is_regex {
                let previous = if at < regex_items.len() {
                    Some(regex_items.remove(at))
                } else {
                    None
                };
                regex_items.push(item);
                keys.insert(key);
                assert(rules_of(regex_items@) =~= before.without(rule.key).pattern.push(rule));
                *self = Dictionary { items, regex_items, automaton, keys };
                proof {
                    self.lemma_consistent();
                }
                Ok(previous)
            } else {
                items.push(item);
                assert(rules_of(items@) =~= before.literal.push(rule));
                match rebuild(&items) {
                    Ok(new_automaton) => {
                        let previous = if at < regex_items.len() {
                            Some(regex_items.remove(at))
                        } else {
                            None
                        };
                        keys.insert(key);
                        assert(rules_of(regex_items@) =~= before.without(rule.key).pattern);
                        *self = Dictionary { items, regex_items, automaton: new_automaton, keys };
                        proof {
                            self.lemma_consistent();
                        }
                        Ok(previous)
                    },
                    Err(e) => {
                        let _ = items.pop();
                        assert(items@ =~= old_items);
                        *self = Dictionary { items, regex_items, automaton, keys };
                        proof {
                            self.lemma_consistent();
                        }
                        Err(e)
                    },
                }
            }
        }
    }

    /// Inserts a rule as `insert` does, and says whether a rule with its key
    /// was there before.
    pub fn add(&mut self, item: DictItem) -> (r: Result<bool, DictError>)
        ensures
            final(self).consistent(),
            match r {
                Ok(updated) => {
                    &&& insert_error(old(self)@, item@) is None
                    &&& final(self)@ == old(self)@.inserted(item@)
                    &&& updated == old(self)@.contains(item@.key)
                },
                Err(e) => insert_error(old(self)@, item@) == Some(e) && final(self)@ == old(
                    self,
                )@,
            },
            old(self)@.unique() ==> final(self)@.unique(),
            old(self)@.unique() && r is Ok ==> final(self)@.find(item@.key) == Some(item@),
    {
        match self.insert(item) {
            Ok(previous) => Ok(previous.is_some()),
            Err(e) => Err(e),
        }
    }

    /// Removes the rule that a lookup of the key gives, and returns it; `None`
    /// if no rule has the key. Fails, leaving the dictionary as it was, if no
    /// matcher can be built for the literal rules that stay.
    pub fn remove(&mut self, key: &str) -> (r: Result<Option<DictItem>, DictError>)
        ensures
            final(self).consistent(),
            match r {
                Ok(removed) => {
                    &&& remove_error(old(self)@, key@) is None
                    &&& final(self)@ == old(self)@.without(key@)
                    &&& rule_in(removed) == old(self)@.find(key@)
                },
                Err(e) => remove_error(old(self)@, key@) == Some(e) && final(self)@ == old(
                    self,
                )@,
            },
            old(self)@.unique() ==> final(self)@.unique(),
            old(self)@.unique() && r is Ok ==> !final(self)@.contains(key@),
    {
        proof {
            use_type_invariant(&*self);
            self.lemma_consistent();
        }
        let ghost before = self@;
        proof {
            lemma_without(before, key@);
            lemma_first_index(before.literal, key@);
            lemma_first_index(before.pattern, key@);
        }
        if !self.keys.contains(key) {
            return Ok(None);
        }
        let mut taken = Dictionary::new();
        std::mem::swap(self, &mut taken);
        let Dictionary { items, regex_items, automaton, keys } = taken;
        let mut items = items;
        let mut regex_items = regex_items;
        let mut keys = keys;
        let ghost old_items = items@;
        let owned = key.to_owned();
        let at = position(&items, &owned);
        if at < items.len() {
            let removed = items.remove(at);
            assert(rules_of(items@) =~= before.literal.remove(at as int));
            match rebuild(&items) {
                Ok(new_automaton) => {
                    let again = position(&items, &owned) < items.len() || position(
                        &regex_items,
                        &owned,
                    ) < regex_items.len();
                    if !again {
                        keys.remove(key);
                    }
                    assert(keys@ =~= before.without(key@).key_set());
                    *self = Dictionary { items, regex_items, automaton: new_automaton, keys };
                    proof {
                        self.lemma_consistent();
                    }
                    Ok(Some(removed))
                },
                Err(e) => {
                    items.insert(at, removed);
                    assert(items@ =~= old_items);
                    *self = Dictionary { items, regex_items, automaton, keys };
                    proof {
                        self.lemma_consistent();
                    }
                    Err(e)
                },
            }
        } else {
            let at = position(&regex_items, &owned);
            let removed = if at < regex_items.len() {
                Some(regex_items.remove(at))
            } else {
                None
            };
            let again = position(&regex_items, &owned) < regex_items.len();
            if !again {
                keys.remove(key);
            }
            assert(rules_of(regex_items@) =~= before.without(key@).pattern);
            assert(keys@ =~= before.without(key@).key_set());
            *self = Dictionary { items, regex_items, automaton, keys };
            proof {
                self.lemma_consistent();
            }
            Ok(removed)
        }
    }

    /// Imports rules by appending each to its group, without a look at the
    /// keys that are there. The matcher is rebuilt once, after the last rule.
    /// Fails, leaving the dictionary as it was, if no matcher can be built.
    pub fn extend(&mut self, items: Vec<DictItem>) -> (r: Result<(), DictError>)
        ensures
            final(self).consistent(),
            match r {
                Ok(_) => {
                    &&& buildable(old(self)@.appended(rules_of(items@)).literal)
                    &&& final(self)@ == old(self)@.appended(rules_of(items@))
                },
                Err(e) => {
                    &&& e == DictError::Matcher
                    &&& !buildable(old(self)@.appended(rules_of(items@)).literal)
                    &&& final(self)@ == old(self)@
                },
            },
            old(self)@.unique() && old(self)@.fresh(rules_of(items@)) ==> final(self)@.unique(),
    {
        proof {
            use_type_invariant(&*self);
            self.lemma_consistent();
        }
        let ghost before = self@;
        let ghost incoming = rules_of(items@);
        let mut taken = Dictionary::new();
        std::mem::swap(self, &mut taken);
        let Dictionary { items: literal, regex_items: pattern, automaton, keys } = taken;
        let mut literal = literal;
        let mut pattern = pattern;
        let mut automaton = automaton;
        let mut keys = keys;
        let ghost old_literal = literal@;
        let ghost old_pattern = pattern@;
        let literal_len = literal.len();
        let pattern_len = pattern.len();
        for item in it: items
            invariant
                incoming == rules_of(it.seq()),
                literal_len <= literal.len(),
                pattern_len <= pattern.len(),
                literal@.subrange(0, literal_len as int) == old_literal,
                pattern@.subrange(0, pattern_len as int) == old_pattern,
                before.grouped(),
                rules_in(literal@, pattern@) == before.appended(
                    incoming.take(it.index() as int),
                ),
        {
            let ghost so_far = before.appended(incoming.take(it.index() as int));
            proof {
                let upto = incoming.take(it.index() + 1);
                assert(upto.drop_last() == incoming.take(it.index() as int));
                lemma_appended_step(before, upto);
            }
            if item.is_regex {
                pattern.push(item);
                assert(rules_of(pattern@) =~= so_far.pattern.push(item@));
            } else {
                literal.push(item);
                assert(rules_of(literal@) =~= so_far.literal.push(item@));
            }
        }
        assert(incoming.take(incoming.len() as int) == incoming);
        proof {
            lemma_appended(before, incoming);
        }
        if literal.len() > literal_len {
            match rebuild(&literal) {
                Ok(new_automaton) => {
                    automaton = new_automaton;
                },
                Err(e) => {
                    literal.truncate(literal_len);
                    pattern.truncate(pattern_len);
                    *self = Dictionary { items: literal, regex_items: pattern, automaton, keys };
                    proof {
                        self.lemma_consistent();
                    }
                    return Err(e);
                },
            }
        }
        let mut i: usize = literal_len;
        while i < literal.len()
            invariant
                literal_len <= i <= literal.len(),
                rules_in(literal@, pattern@).grouped(),
                before.pattern == rules_of(old_pattern),
                keys@ == rules_in(literal@.take(i as int), old_pattern).key_set(),
            decreases literal.len() - i,
        {
            let ghost part = rules_in(literal@.take(i as int), old_pattern);
            proof {
                let rule = literal@[i as int]@;
                assert(rules_in(literal@, pattern@).literal[i as int] == rule);
                lemma_with(part, rule);
                assert(rules_of(literal@.take(i + 1)) =~= part.literal.push(rule));
            }
            keys.insert(literal[i].key.clone());
            i += 1;
        }
        assert(literal@.take(literal@.len() as int) == literal@);
        let mut j: usize = pattern_len;
        while j < pattern.len()
            invariant
                pattern_len <= j <= pattern.len(),
                rules_in(literal@, pattern@).grouped(),
                keys@ == rules_in(literal@, pattern@.take(j as int)).key_set(),
            decreases pattern.len() - j,
        {
            let ghost part = rules_in(literal@, pattern@.take(j as int));
            proof {
                let rule = pattern@[j as int]@;
                assert(rules_in(literal@, pattern@).pattern[j as int] == rule);
                lemma_with(part, rule);
                assert(rules_of(pattern@.take(j + 1)) =~= part.pattern.push(rule));
            }
            keys.insert(pattern[j].key.clone());
            j += 1;
        }
        assert(pattern@.take(pattern@.len() as int) == pattern@);
        *self = Dictionary { items: literal, regex_items: pattern, automaton, keys };
        proof {
            self.lemma_consistent();
        }
        Ok(())
    }

    /// Imports rules over what is there: a rule whose key a rule of its group
    /// has takes the place of that rule; any other rule is inserted. The
    /// matcher is rebuilt once, after the last rule. Fails, leaving the
    /// dictionary as it was, if no matcher can be built.
    pub fn add_items(&mut self, items: Vec<DictItem>) -> (r: Result<(), DictError>)
        ensures
            final(self).consistent(),
            match r {
                Ok(_) => {
                    &&& buildable(old(self)@.merged(rules_of(items@)).literal)
                    &&& final(self)@ == old(self)@.merged(rules_of(items@))
                },
                Err(e) => {
                    &&& e == DictError::Matcher
                    &&& !buildable(old(self)@.merged(rules_of(items@)).literal)
                    &&& final(self)@ == old(self)@
                },
            },
            old(self)@.unique() ==> final(self)@.unique(),
    {
        proof {
            use_type_invariant(&*self);
            self.lemma_consistent();
        }
        let ghost before = self@;
        let ghost incoming = rules_of(items@);
        let mut literal = clone_items(&self.items);
        let mut pattern = clone_items(&self.regex_items);
        for item in it: items
            invariant
                incoming == rules_of(it.seq()),
                rules_in(literal@, pattern@) == before.merged(incoming.take(it.index() as int)),
        {
            let ghost cur = rules_in(literal@, pattern@);
            let ghost rule = item@;
            proof {
                let upto = incoming.take(it.index() + 1);
                assert(upto.drop_last() == incoming.take(it.index() as int));
                lemma_first_index(cur.literal, rule.key);
                lemma_first_index(cur.pattern, rule.key);
            }
            let key = item.key.clone();
            let in_literal = position(&literal, &key);
            let in_pattern = position(&pattern, &key);
            if item.is_regex {
                if in_pattern < pattern.len() {
                    pattern.set(in_pattern, item);
                    assert(rules_of(pattern@) =~= cur.pattern.update(in_pattern as int, rule));
                } else {
                    if in_literal < literal.len() {
                        let _ = literal.remove(in_literal);
                        assert(rules_of(literal@) =~= cur.literal.remove(in_literal as int));
                    }
                    pattern.push(item);
                    assert(rules_of(pattern@) =~= cur.pattern.push(rule));
                }
            } else {
                if in_literal < literal.len() {
                    literal.set(in_literal, item);
                    assert(rules_of(literal@) =~= cur.literal.update(in_literal as int, rule));
                } else {
                    if in_pattern < pattern.len() {
                        let _ = pattern.remove(in_pattern);
                        assert(rules_of(pattern@) =~= cur.pattern.remove(in_pattern as int));
                    }
                    literal.push(item);
                    assert(rules_of(literal@) =~= cur.literal.push(rule));
                }
            }
        }
        assert(incoming.take(incoming.len() as int) == incoming);
        proof {
            lemma_merged(before, incoming);
        }
        match rebuild(&literal) {
            Ok(automaton) => {
                let keys = collect_keys(&literal, &pattern);
                *self = Dictionary { items: literal, regex_items: pattern, automaton, keys };
                proof {
                    self.lemma_consistent();
                }
                Ok(())
            },
            Err(e) => Err(e),
        }
    }

    /// A dictionary with the given rules, each appended to its group in the
    /// order of the list. Fails if no matcher can be built.
    pub fn from_items(items: Vec<DictItem>) -> (r: Result<Dictionary, DictError>)
        ensures
            match r {
                Ok(dict) => {
                    &&& buildable(Rules::empty().appended(rules_of(items@)).literal)
                    &&& dict@ == Rules::empty().appended(rules_of(items@))
                    &&& dict.consistent()
                },
                Err(e) => {
                    &&& e == DictError::Matcher
                    &&& !buildable(Rules::empty().appended(rules_of(items@)).literal)
                },
            },
            Rules::empty().fresh(rules_of(items@)) ==> (r matches Ok(dict) ==> dict@.unique()),
    {
        let mut dict = Dictionary::new();
        match dict.extend(items) {
            Ok(_) => Ok(dict),
            Err(e) => Err(e),
        }
    }

    /// Rewrites a text for the synthesiser. Full-width ASCII is narrowed; each
    /// pattern rule, in order, replaces all its matches; the matches of the
    /// literal keys are replaced by the values of their rules; symbols are
    /// spelled out and ASCII capitals lowered; runs of small letters are read
    /// through the lexicon or put into kana; all spaces leave. Fails if the
    /// key of a pattern rule does not compile, or if replacing the literal
    /// matches gives bytes that are no valid UTF-8.
    pub fn apply(&self, text: &str, lexicon: &Lexicon) -> (r: Result<String, DictError>)
        ensures
            match r {
                Ok(out) => applied(self@, lexicon@, text@) == Ok::<Seq<char>, DictError>(out@),
                Err(e) => applied(self@, lexicon@, text@) == Err::<Seq<char>, DictError>(e),
            },
    {
        proof {
            use_type_invariant(self);
        }
        let narrowed = to_narrow(text);
        let rewritten = match apply_patterns(&self.regex_items, narrowed) {
            Ok(rewritten) => rewritten,
            Err(e) => {
                return Err(e);
            },
        };
        let replaced = match &self.automaton {
            Some(ac) => {
                if self.items.len() == 0 {
                    rewritten
                } else {
                    let found = find_matches(ac, rewritten.as_str());
                    let bytes = bytes_of(rewritten.as_str());
                    let out = splice_matches(&bytes, &found, &self.items);
                    match decode(out) {
                        Some(replaced) => replaced,
                        None => {
                            return Err(DictError::EncodingError);
                        },
                    }
                }
            },
            None => rewritten,
        };
        let spelled = transliterate(replaced.as_str());
        let read = segment(lexicon, spelled.as_str());
        Ok(strip_spaces(read.as_str()))
    }

    /// Removes all rules.
    pub fn clear(&mut self)
        ensures
            final(self)@ == Rules::empty(),
            final(self)@.unique(),
            final(self).consistent(),
    {
        *self = Dictionary::new();
    }

    /// Removes all rules.
    pub fn reset(&mut self)
        ensures
            final(self)@ == Rules::empty(),
            final(self)@.unique(),
            final(self).consistent(),
    {
        self.clear();
    }

    /// The rules as one list: the literal rules, then the pattern rules, each
    /// group in the order in which its rules came.
    pub fn to_items(&self) -> (items: Vec<DictItem>)
        ensures
            rules_of(items@) == self@.flat(),
    {
        let mut items = clone_items(&self.items);
        let ghost literal = rules_of(items@);
        let mut i: usize = 0;
        while i < self.regex_items.len()
            invariant
                0 <= i <= self.regex_items.len(),
                literal == rules_of(self.items@),
                rules_of(items@) == literal + rules_of(self.regex_items@.take(i as int)),
            decreases self.regex_items.len() - i,
        {
            let ghost so_far = rules_of(items@);
            items.push(self.regex_items[i].clone());
            assert(rules_of(items@) =~= so_far.push(self.regex_items@[i as int]@));
            i += 1;
        }
        items
    }

    /// What the invariant of the type says in public terms.
    proof fn lemma_consistent(&self)
        requires
            self.inv(),
        ensures
            self.consistent(),
    {
        if self.automaton is None {
            assert(keys_of(self@.literal) =~= Seq::<Seq<char>>::empty());
        }
    }
}

impl Default for Dictionary {
    fn default() -> (dict: Dictionary)
        ensures
            dict@ == Rules::empty(),
            dict@.unique(),
            dict.consistent(),
    {
        Dictionary::new()
    }
}

} // verus!
