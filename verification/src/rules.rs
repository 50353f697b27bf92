//! The contents of a dictionary as mathematics: two ordered groups of rules,
//! and what the operations on a dictionary do to them.

use crate::item::{keys_of, Rule};
use vstd::prelude::*;

verus! {

/// The rules of a dictionary: the literal rules and the pattern rules, each
/// group in the order in which its rules came.
pub struct Rules {
    pub literal: Seq<Rule>,
    pub pattern: Seq<Rule>,
}

/// Whether one of the rules has the key.
pub open spec fn has_key(rules: Seq<Rule>, key: Seq<char>) -> bool {
    exists|i: int| 0 <= i < rules.len() && (#[trigger] rules[i]).key == key
}

/// The position of the first rule with the key; the number of rules if none
/// has it.
pub open spec fn first_index(rules: Seq<Rule>, key: Seq<char>) -> int
    decreases rules.len(),
{
    if rules.len() == 0 || rules[0].key == key {
        0
    } else {
        1 + first_index(rules.drop_first(), key)
    }
}

/// The first rule with the key, if there is one.
pub open spec fn first_with(rules: Seq<Rule>, key: Seq<char>) -> Option<Rule> {
    if has_key(rules, key) {
        Some(rules[first_index(rules, key)])
    } else {
        None
    }
}

/// The rules without the first one that has the key.
pub open spec fn removed(rules: Seq<Rule>, key: Seq<char>) -> Seq<Rule> {
    if has_key(rules, key) {
        rules.remove(first_index(rules, key))
    } else {
        rules
    }
}

/// The rules with the first one that has the key of `rule` replaced by
/// `rule`.
pub open spec fn replaced_first(rules: Seq<Rule>, rule: Rule) -> Seq<Rule> {
    if has_key(rules, rule.key) {
        rules.update(first_index(rules, rule.key), rule)
    } else {
        rules
    }
}

/// Whether no two of the rules have the same key.
pub open spec fn distinct_keys(rules: Seq<Rule>) -> bool {
    forall|i: int, j: int|
        0 <= i < j < rules.len() ==> (#[trigger] rules[i]).key != (#[trigger] rules[j]).key
}

/// Whether every rule has the given flag.
pub open spec fn all_flagged(rules: Seq<Rule>, is_regex: bool) -> bool {
    forall|i: int| 0 <= i < rules.len() ==> (#[trigger] rules[i]).is_regex == is_regex
}

/// The rules among `items` that are pattern rules, or those that are not, in
/// their order.
pub open spec fn group(items: Seq<Rule>, is_regex: bool) -> Seq<Rule>
    decreases items.len(),
{
    if items.len() == 0 {
        Seq::empty()
    } else if items.last().is_regex == is_regex {
        group(items.drop_last(), is_regex).push(items.last())
    } else {
        group(items.drop_last(), is_regex)
    }
}

impl Rules {
    /// No rules at all.
    pub open spec fn empty() -> Rules {
        Rules { literal: Seq::empty(), pattern: Seq::empty() }
    }

    /// Whether a rule of either group has the key.
    pub open spec fn contains(self, key: Seq<char>) -> bool {
        has_key(self.literal, key) || has_key(self.pattern, key)
    }

    /// The keys of all rules.
    pub open spec fn key_set(self) -> Set<Seq<char>> {
        Set::new(|key: Seq<char>| self.contains(key))
    }

    /// The rule that a lookup of the key gives: the first literal rule with
    /// it, or else the first pattern rule with it.
    pub open spec fn find(self, key: Seq<char>) -> Option<Rule> {
        if has_key(self.literal, key) {
            first_with(self.literal, key)
        } else {
            first_with(self.pattern, key)
        }
    }

    /// The rules without the one that a lookup of the key gives.
    pub open spec fn without(self, key: Seq<char>) -> Rules {
        if has_key(self.literal, key) {
            Rules { literal: removed(self.literal, key), pattern: self.pattern }
        } else {
            Rules { literal: self.literal, pattern: removed(self.pattern, key) }
        }
    }

    /// The rules with `rule` added at the end of its group.
    pub open spec fn with(self, rule: Rule) -> Rules {
        if rule.is_regex {
            Rules { literal: self.literal, pattern: self.pattern.push(rule) }
        } else {
            Rules { literal: self.literal.push(rule), pattern: self.pattern }
        }
    }

    /// The rules after `rule` has been inserted: the rule that had its key
    /// leaves, and `rule` comes at the end of its group.
    pub open spec fn inserted(self, rule: Rule) -> Rules {
        self.without(rule.key).with(rule)
    }

    /// The rules after `rule` has been imported over what is there: a rule of
    /// its group with its key is replaced where it stands; otherwise `rule` is
    /// inserted.
    pub open spec fn overwritten(self, rule: Rule) -> Rules {
        if rule.is_regex && has_key(self.pattern, rule.key) {
            Rules { literal: self.literal, pattern: replaced_first(self.pattern, rule) }
        } else if !rule.is_regex && has_key(self.literal, rule.key) {
            Rules { literal: replaced_first(self.literal, rule), pattern: self.pattern }
        } else {
            self.inserted(rule)
        }
    }

    /// The rules after each of `items`, in order, has been imported over what
    /// is there.
    pub open spec fn merged(self, items: Seq<Rule>) -> Rules
        decreases items.len(),
    {
        if items.len() == 0 {
            self
        } else {
            self.merged(items.drop_last()).overwritten(items.last())
        }
    }

    /// The rules after `items` have been appended, each to its group, without
    /// a look at the keys that are there.
    pub open spec fn appended(self, items: Seq<Rule>) -> Rules {
        Rules {
            literal: self.literal + group(items, false),
            pattern: self.pattern + group(items, true),
        }
    }

    /// Whether `items` can be appended without a key being had twice: their
    /// keys differ from each other and from every key that is there.
    pub open spec fn fresh(self, items: Seq<Rule>) -> bool {
        &&& distinct_keys(items)
        &&& forall|i: int| 0 <= i < items.len() ==> !self.contains((#[trigger] items[i]).key)
    }

    /// The rules as one list: the literal rules, then the pattern rules.
    pub open spec fn flat(self) -> Seq<Rule> {
        self.literal + self.pattern
    }

    /// Whether each rule stands in the group that its flag names.
    pub open spec fn grouped(self) -> bool {
        &&& all_flagged(self.literal, false)
        &&& all_flagged(self.pattern, true)
    }

    /// Whether no two rules, of whichever group, have the same key.
    pub open spec fn unique(self) -> bool {
        &&& distinct_keys(self.literal)
        &&& distinct_keys(self.pattern)
        &&& forall|i: int, j: int|
            0 <= i < self.literal.len() && 0 <= j < self.pattern.len() ==> (
            #[trigger] self.literal[i]).key != (#[trigger] self.pattern[j]).key
    }
}

/// The first rule with a key stands where `first_index` says, and no rule
/// before it has the key.
pub proof fn lemma_first_index(rules: Seq<Rule>, key: Seq<char>)
    ensures
        0 <= first_index(rules, key) <= rules.len(),
        forall|j: int| 0 <= j < first_index(rules, key) ==> (#[trigger] rules[j]).key != key,
        first_index(rules, key) < rules.len() ==> rules[first_index(rules, key)].key == key,
        has_key(rules, key) <==> first_index(rules, key) < rules.len(),
    decreases rules.len(),
{
    if rules.len() > 0 && rules[0].key != key {
        let rest = rules.drop_first();
        lemma_first_index(rest, key);
        let at = first_index(rules, key);
        assert forall|j: int| 0 <= j < at implies (#[trigger] rules[j]).key != key by {
            if j > 0 {
                assert(rules[j] == rest[j - 1]);
            }
        }
    }
}

/// A position that no rule with the key precedes, and that holds a rule with
/// the key or lies past the last rule, is the one `first_index` gives.
pub proof fn lemma_first_index_is(rules: Seq<Rule>, key: Seq<char>, at: int)
    requires
        0 <= at <= rules.len(),
        forall|j: int| 0 <= j < at ==> (#[trigger] rules[j]).key != key,
        at < rules.len() ==> rules[at].key == key,
    ensures
        first_index(rules, key) == at,
        has_key(rules, key) <==> at < rules.len(),
{
    lemma_first_index(rules, key);
}

/// Taking the rule at a position out of a list shifts the rules after it by
/// one; a key other than that of the rule taken out is had afterwards exactly
/// if it was had before.
proof fn lemma_remove_at(rules: Seq<Rule>, at: int)
    requires
        0 <= at < rules.len(),
    ensures
        rules.remove(at).len() == rules.len() - 1,
        forall|j: int| 0 <= j < at ==> #[trigger] rules.remove(at)[j] == rules[j],
        forall|j: int| at <= j < rules.len() - 1 ==> #[trigger] rules.remove(at)[j] == rules[j + 1],
        forall|k: Seq<char>|
            k != rules[at].key ==> (#[trigger] has_key(rules.remove(at), k)) == has_key(rules, k),
        has_key(rules.remove(at), rules[at].key) ==> has_key(rules, rules[at].key),
        forall|flag: bool| all_flagged(rules, flag) ==> #[trigger] all_flagged(rules.remove(at), flag),
{
    let left = rules.remove(at);
    rules.remove_ensures(at);
    assert forall|flag: bool| all_flagged(rules, flag) implies #[trigger] all_flagged(
        left,
        flag,
    ) by {
        assert forall|j: int| 0 <= j < left.len() implies (#[trigger] left[j]).is_regex
            == flag by {}
    }
    assert forall|k: Seq<char>| k != rules[at].key implies (#[trigger] has_key(left, k))
        == has_key(rules, k) by {
        if has_key(rules, k) {
            let i = choose|i: int| 0 <= i < rules.len() && (#[trigger] rules[i]).key == k;
            if i < at {
                assert(left[i] == rules[i]);
            } else {
                assert(left[i - 1] == rules[i]);
            }
        }
    }
}

/// Taking a rule out of a list with distinct keys leaves distinct keys, and
/// the key of the rule is gone.
proof fn lemma_remove_at_distinct(rules: Seq<Rule>, at: int)
    requires
        0 <= at < rules.len(),
        distinct_keys(rules),
    ensures
        distinct_keys(rules.remove(at)),
        !has_key(rules.remove(at), rules[at].key),
{
    rules.remove_ensures(at);
}

/// Removing the first rule with a key leaves the other rules in their order,
/// and no other key comes or goes.
pub proof fn lemma_removed(rules: Seq<Rule>, key: Seq<char>)
    requires
        has_key(rules, key),
    ensures
        removed(rules, key).len() == rules.len() - 1,
        forall|k: Seq<char>|
            k != key ==> (#[trigger] has_key(removed(rules, key), k)) == has_key(rules, k),
        distinct_keys(rules) ==> distinct_keys(removed(rules, key)) && !has_key(
            removed(rules, key),
            key,
        ),
        forall|flag: bool|
            all_flagged(rules, flag) ==> #[trigger] all_flagged(removed(rules, key), flag),
{
    lemma_first_index(rules, key);
    let at = first_index(rules, key);
    lemma_remove_at(rules, at);
    if distinct_keys(rules) {
        lemma_remove_at_distinct(rules, at);
    }
}

/// A rule added at the end brings its key and no other.
pub proof fn lemma_pushed(rules: Seq<Rule>, rule: Rule)
    ensures
        forall|k: Seq<char>| has_key(rules.push(rule), k) == (has_key(rules, k) || k == rule.key),
        distinct_keys(rules) && !has_key(rules, rule.key) ==> distinct_keys(rules.push(rule)),
{
    let more = rules.push(rule);
    assert forall|k: Seq<char>| has_key(more, k) == (has_key(rules, k) || k == rule.key) by {
        if has_key(rules, k) {
            let i = choose|i: int| 0 <= i < rules.len() && (#[trigger] rules[i]).key == k;
            assert(more[i].key == k);
        }
        if k == rule.key {
            assert(more[rules.len() as int].key == k);
        }
    }
}

/// A rule put in the place of the first rule with its key changes no key.
pub proof fn lemma_replaced_first(rules: Seq<Rule>, rule: Rule)
    requires
        has_key(rules, rule.key),
    ensures
        replaced_first(rules, rule).len() == rules.len(),
        forall|j: int|
            0 <= j < rules.len() ==> (#[trigger] replaced_first(rules, rule)[j]).key
                == rules[j].key,
        forall|k: Seq<char>| has_key(replaced_first(rules, rule), k) == has_key(rules, k),
        distinct_keys(rules) ==> distinct_keys(replaced_first(rules, rule)),
{
    lemma_first_index(rules, rule.key);
    let next = replaced_first(rules, rule);
    assert forall|k: Seq<char>| has_key(next, k) == has_key(rules, k) by {
        if has_key(rules, k) {
            let i = choose|i: int| 0 <= i < rules.len() && (#[trigger] rules[i]).key == k;
            assert(next[i].key == k);
        }
    }
}

/// Whether the two groups have no key in common, said of keys.
proof fn lemma_unique_by_keys(rules: Rules)
    ensures
        rules.unique() <==> (distinct_keys(rules.literal) && distinct_keys(rules.pattern)
            && forall|k: Seq<char>| !(has_key(rules.literal, k) && has_key(rules.pattern, k))),
{
    if rules.unique() {
        assert forall|k: Seq<char>| !(has_key(rules.literal, k) && has_key(rules.pattern, k)) by {
            if has_key(rules.literal, k) && has_key(rules.pattern, k) {
                let i = choose|i: int|
                    0 <= i < rules.literal.len() && (#[trigger] rules.literal[i]).key == k;
                let j = choose|j: int|
                    0 <= j < rules.pattern.len() && (#[trigger] rules.pattern[j]).key == k;
                assert(rules.literal[i].key != rules.pattern[j].key);
            }
        }
    }
    if distinct_keys(rules.literal) && distinct_keys(rules.pattern) && forall|k: Seq<char>|
        !(has_key(rules.literal, k) && has_key(rules.pattern, k)) {
        assert forall|i: int, j: int|
            0 <= i < rules.literal.len() && 0 <= j < rules.pattern.len() implies (
        #[trigger] rules.literal[i]).key != (#[trigger] rules.pattern[j]).key by {
            let k = rules.literal[i].key;
            assert(has_key(rules.literal, k));
        }
    }
}

/// Taking out the rule that a lookup of a key gives changes no other key,
/// and keeps distinct keys distinct; where the keys are distinct, the key is
/// gone.
pub proof fn lemma_without(rules: Rules, key: Seq<char>)
    ensures
        forall|k: Seq<char>| k != key ==> rules.without(key).contains(k) == rules.contains(k),
        rules.without(key).contains(key) ==> rules.contains(key),
        !rules.contains(key) ==> rules.without(key) == rules,
        rules.grouped() ==> rules.without(key).grouped(),
        rules.unique() ==> rules.without(key).unique() && !rules.without(key).contains(key),
{
    let left = rules.without(key);
    lemma_unique_by_keys(rules);
    lemma_unique_by_keys(left);
    if has_key(rules.literal, key) {
        lemma_removed(rules.literal, key);
    } else if has_key(rules.pattern, key) {
        lemma_removed(rules.pattern, key);
    }
}

/// Adding a rule at the end of its group brings its key and no other; it
/// keeps distinct keys distinct if the key is new.
pub proof fn lemma_with(rules: Rules, rule: Rule)
    ensures
        forall|k: Seq<char>| rules.with(rule).contains(k) == (rules.contains(k) || k == rule.key),
        rules.with(rule).key_set() == rules.key_set().insert(rule.key),
        rules.grouped() ==> rules.with(rule).grouped(),
        rules.unique() && !rules.contains(rule.key) ==> rules.with(rule).unique(),
{
    let more = rules.with(rule);
    lemma_unique_by_keys(rules);
    lemma_unique_by_keys(more);
    lemma_pushed(rules.literal, rule);
    lemma_pushed(rules.pattern, rule);
    assert(more.key_set() =~= rules.key_set().insert(rule.key));
}

/// Inserting a rule brings its key and no other, and keeps distinct keys
/// distinct; where they are distinct, a lookup of the key then gives the rule.
pub proof fn lemma_inserted(rules: Rules, rule: Rule)
    ensures
        rules.inserted(rule).key_set() == rules.key_set().insert(rule.key),
        rules.grouped() ==> rules.inserted(rule).grouped(),
        rules.unique() ==> rules.inserted(rule).unique(),
        rules.unique() ==> rules.inserted(rule).find(rule.key) == Some(rule),
{
    let left = rules.without(rule.key);
    let next = rules.inserted(rule);
    lemma_without(rules, rule.key);
    lemma_with(left, rule);
    if rules.unique() {
        if rule.is_regex {
            lemma_first_index_is(next.pattern, rule.key, left.pattern.len() as int);
        } else {
            lemma_first_index_is(next.literal, rule.key, left.literal.len() as int);
        }
    }
}

/// Importing a rule over what is there brings its key and no other, and
/// keeps distinct keys distinct.
pub proof fn lemma_overwritten(rules: Rules, rule: Rule)
    ensures
        rules.overwritten(rule).key_set() == rules.key_set().insert(rule.key),
        rules.grouped() ==> rules.overwritten(rule).grouped(),
        rules.unique() ==> rules.overwritten(rule).unique(),
{
    let next = rules.overwritten(rule);
    lemma_unique_by_keys(rules);
    lemma_unique_by_keys(next);
    if rule.is_regex && has_key(rules.pattern, rule.key) {
        lemma_replaced_first(rules.pattern, rule);
        lemma_first_index(rules.pattern, rule.key);
    } else if !rule.is_regex && has_key(rules.literal, rule.key) {
        lemma_replaced_first(rules.literal, rule);
        lemma_first_index(rules.literal, rule.key);
    } else {
        lemma_inserted(rules, rule);
    }
}

/// Importing rules over what is there keeps distinct keys distinct, and
/// brings the keys of the imported rules and no other.
pub proof fn lemma_merged(rules: Rules, items: Seq<Rule>)
    ensures
        rules.grouped() ==> rules.merged(items).grouped(),
        rules.unique() ==> rules.merged(items).unique(),
        forall|k: Seq<char>|
            rules.merged(items).contains(k) == (rules.contains(k) || has_key(items, k)),
    decreases items.len(),
{
    let all = rules.merged(items);
    if items.len() > 0 {
        let front = items.drop_last();
        let last = items.last();
        let most = rules.merged(front);
        lemma_merged(rules, front);
        lemma_overwritten(most, last);
        assert forall|k: Seq<char>| all.contains(k) == (rules.contains(k) || has_key(
            items,
            k,
        )) by {
            assert(all.key_set().contains(k) == most.key_set().insert(last.key).contains(k));
            if has_key(front, k) {
                let j = choose|j: int| 0 <= j < front.len() && (#[trigger] front[j]).key == k;
                assert(items[j].key == k);
            }
            if has_key(items, k) {
                let j = choose|j: int| 0 <= j < items.len() && (#[trigger] items[j]).key == k;
                if j < front.len() {
                    assert(front[j].key == k);
                }
            }
        }
    }
}

/// A rule whose key is not that of a rule imported over what is there stays
/// in its group.
pub proof fn lemma_overwritten_keeps(rules: Rules, rule: Rule, kept: Rule)
    requires
        kept.key != rule.key,
    ensures
        rules.literal.contains(kept) ==> rules.overwritten(rule).literal.contains(kept),
        rules.pattern.contains(kept) ==> rules.overwritten(rule).pattern.contains(kept),
{
    lemma_first_index(rules.literal, rule.key);
    lemma_first_index(rules.pattern, rule.key);
    if rules.literal.contains(kept) {
        let i = choose|i: int| 0 <= i < rules.literal.len() && rules.literal[i] == kept;
        lemma_kept_in(rules.literal, rule, i);
    }
    if rules.pattern.contains(kept) {
        let i = choose|i: int| 0 <= i < rules.pattern.len() && rules.pattern[i] == kept;
        lemma_kept_in(rules.pattern, rule, i);
    }
}

/// A rule with another key than `rule` is still there after the first rule
/// with the key of `rule` has left or made place for `rule`, and after `rule`
/// has been added at the end.
proof fn lemma_kept_in(rules: Seq<Rule>, rule: Rule, at: int)
    requires
        0 <= at < rules.len(),
        rules[at].key != rule.key,
    ensures
        removed(rules, rule.key).contains(rules[at]),
        removed(rules, rule.key).push(rule).contains(rules[at]),
        replaced_first(rules, rule).contains(rules[at]),
        rules.push(rule).contains(rules[at]),
{
    lemma_first_index(rules, rule.key);
    let first = first_index(rules, rule.key);
    assert(rules.push(rule)[at] == rules[at]);
    if has_key(rules, rule.key) {
        let left = rules.remove(first);
        rules.remove_ensures(first);
        let to = if at < first {
            at
        } else {
            at - 1
        };
        assert(left.push(rule)[to] == rules[at]);
        assert(rules.update(first, rule)[at] == rules[at]);
    }
}

/// Importing rules over what is there removes no rule but those whose keys
/// are imported.
pub proof fn lemma_merged_keeps(rules: Rules, items: Seq<Rule>, kept: Rule)
    requires
        !has_key(items, kept.key),
    ensures
        rules.literal.contains(kept) ==> rules.merged(items).literal.contains(kept),
        rules.pattern.contains(kept) ==> rules.merged(items).pattern.contains(kept),
    decreases items.len(),
{
    if items.len() > 0 {
        let front = items.drop_last();
        let last = items.last();
        lemma_merged_keeps(rules, front, kept);
        lemma_overwritten_keeps(rules.merged(front), last, kept);
    }
}

/// A group holds the rules of `items` with its flag, and only those.
pub proof fn lemma_group(items: Seq<Rule>, is_regex: bool)
    ensures
        forall|i: int|
            0 <= i < group(items, is_regex).len() ==> (#[trigger] group(
                items,
                is_regex,
            )[i]).is_regex == is_regex,
        forall|rule: Rule| #[trigger]
            group(items, is_regex).contains(rule) ==> items.contains(rule) && rule.is_regex
                == is_regex,
        forall|rule: Rule| #[trigger]
            items.contains(rule) && rule.is_regex == is_regex ==> group(
                items,
                is_regex,
            ).contains(rule),
        forall|k: Seq<char>| #[trigger] has_key(group(items, is_regex), k) ==> has_key(items, k),
        distinct_keys(items) ==> distinct_keys(group(items, is_regex)),
    decreases items.len(),
{
    let part = group(items, is_regex);
    if items.len() > 0 {
        let front = items.drop_last();
        let last = items.last();
        let before = group(front, is_regex);
        lemma_group(front, is_regex);
        assert forall|rule: Rule| #[trigger]
            part.contains(rule) implies items.contains(rule) && rule.is_regex == is_regex by {
            if part.contains(rule) {
                let i = choose|i: int| 0 <= i < part.len() && part[i] == rule;
                if i < before.len() {
                    assert(before.contains(rule));
                    let j = choose|j: int| 0 <= j < front.len() && front[j] == rule;
                    assert(items[j] == rule);
                }
            }
        }
        assert forall|rule: Rule| #[trigger]
            items.contains(rule) && rule.is_regex == is_regex implies part.contains(rule) by {
            if items.contains(rule) && rule.is_regex == is_regex {
                let j = choose|j: int| 0 <= j < items.len() && items[j] == rule;
                if j < front.len() {
                    assert(front[j] == rule);
                    assert(front.contains(rule));
                    let i = choose|i: int| 0 <= i < before.len() && before[i] == rule;
                    assert(part[i] == rule);
                } else {
                    assert(part[part.len() - 1] == rule);
                }
            }
        }
        assert forall|k: Seq<char>| has_key(part, k) implies has_key(items, k) by {
            let i = choose|i: int| 0 <= i < part.len() && (#[trigger] part[i]).key == k;
            if i < before.len() {
                assert(has_key(before, k));
            }
        }
        if distinct_keys(items) {
            assert(distinct_keys(front));
            if last.is_regex == is_regex {
                lemma_pushed(before, last);
            }
        }
    }
}

/// Appending a list of rules is appending all but the last and then adding
/// the last at the end of its group.
pub proof fn lemma_appended_step(rules: Rules, items: Seq<Rule>)
    requires
        items.len() > 0,
    ensures
        rules.appended(items) == rules.appended(items.drop_last()).with(items.last()),
{
}

/// Appending rules whose keys are distinct and new keeps distinct keys
/// distinct; in any case it brings the keys of the rules and no other.
pub proof fn lemma_appended(rules: Rules, items: Seq<Rule>)
    ensures
        forall|k: Seq<char>|
            rules.appended(items).contains(k) == (rules.contains(k) || has_key(items, k)),
        rules.grouped() ==> rules.appended(items).grouped(),
        rules.unique() && rules.fresh(items) ==> rules.appended(items).unique(),
    decreases items.len(),
{
    let all = rules.appended(items);
    if items.len() > 0 {
        let front = items.drop_last();
        let last = items.last();
        let most = rules.appended(front);
        lemma_appended(rules, front);
        lemma_appended_step(rules, items);
        lemma_with(most, last);
        assert forall|k: Seq<char>| all.contains(k) == (rules.contains(k) || has_key(
            items,
            k,
        )) by {
            if has_key(front, k) {
                let j = choose|j: int| 0 <= j < front.len() && (#[trigger] front[j]).key == k;
                assert(items[j].key == k);
            }
            if has_key(items, k) {
                let j = choose|j: int| 0 <= j < items.len() && (#[trigger] items[j]).key == k;
                if j < front.len() {
                    assert(front[j].key == k);
                }
            }
        }
    }
}

/// One change of the rules of a dictionary.
pub enum Change {
    /// A rule is inserted.
    Insert(Rule),
    /// The rule that a lookup of a key gives is removed.
    Remove(Seq<char>),
    /// All rules are removed.
    Reset,
    /// Rules are imported over what is there.
    Merge(Seq<Rule>),
    /// Rules are appended without a look at the keys that are there.
    Append(Seq<Rule>),
}

impl Rules {
    /// The rules after a change.
    pub open spec fn changed(self, change: Change) -> Rules {
        match change {
            Change::Insert(rule) => self.inserted(rule),
            Change::Remove(key) => self.without(key),
            Change::Reset => Rules::empty(),
            Change::Merge(items) => self.merged(items),
            Change::Append(items) => self.appended(items),
        }
    }

    /// Whether a change keeps keys apart: every change does, but for
    /// appending rules whose keys are had already or twice among them.
    pub open spec fn admits(self, change: Change) -> bool {
        match change {
            Change::Append(items) => self.fresh(items),
            _ => true,
        }
    }

    /// The rules after the changes, made in order.
    pub open spec fn changed_by(self, changes: Seq<Change>) -> Rules
        decreases changes.len(),
    {
        if changes.len() == 0 {
            self
        } else {
            self.changed_by(changes.drop_last()).changed(changes.last())
        }
    }

    /// Whether each of the changes, at its turn, keeps keys apart.
    pub open spec fn admits_all(self, changes: Seq<Change>) -> bool
        decreases changes.len(),
    {
        if changes.len() == 0 {
            true
        } else {
            self.admits_all(changes.drop_last()) && self.changed_by(changes.drop_last()).admits(
                changes.last(),
            )
        }
    }
}

/// A change that keeps keys apart leaves no two rules with the same key, and
/// every change leaves each rule in the group that its flag names.
pub proof fn lemma_changed(rules: Rules, change: Change)
    ensures
        rules.grouped() ==> rules.changed(change).grouped(),
        rules.unique() && rules.admits(change) ==> rules.changed(change).unique(),
{
    match change {
        Change::Insert(rule) => lemma_inserted(rules, rule),
        Change::Remove(key) => lemma_without(rules, key),
        Change::Reset => {},
        Change::Merge(items) => lemma_merged(rules, items),
        Change::Append(items) => lemma_appended(rules, items),
    }
}

/// Whatever the changes made to an empty dictionary, as long as each keeps
/// keys apart: no two rules, of whichever group, have the same key, and each
/// rule stands in the group that its flag names.
pub proof fn lemma_keys_stay_unique(changes: Seq<Change>)
    requires
        Rules::empty().admits_all(changes),
    ensures
        Rules::empty().changed_by(changes).unique(),
        Rules::empty().changed_by(changes).grouped(),
    decreases changes.len(),
{
    if changes.len() > 0 {
        lemma_keys_stay_unique(changes.drop_last());
        lemma_changed(Rules::empty().changed_by(changes.drop_last()), changes.last());
    }
}

/// The keys of rules are as many as the rules are at most, and exactly as
/// many where no two rules have the same key.
pub proof fn lemma_key_count(rules: Rules)
    ensures
        rules.key_set().finite(),
        rules.key_set().len() <= rules.literal.len() + rules.pattern.len(),
        rules.unique() ==> rules.key_set().len() == rules.literal.len() + rules.pattern.len(),
{
    let keys = keys_of(rules.flat());
    assert forall|k: Seq<char>| keys.contains(k) <==> rules.contains(k) by {
        if keys.contains(k) {
            let i = choose|i: int| 0 <= i < keys.len() && keys[i] == k;
            if i < rules.literal.len() {
                assert(rules.literal[i].key == k);
            } else {
                assert(rules.pattern[i - rules.literal.len()].key == k);
            }
        }
        if has_key(rules.literal, k) {
            let i = choose|i: int|
                0 <= i < rules.literal.len() && (#[trigger] rules.literal[i]).key == k;
            assert(keys[i] == k);
        }
        if has_key(rules.pattern, k) {
            let i = choose|i: int|
                0 <= i < rules.pattern.len() && (#[trigger] rules.pattern[i]).key == k;
            assert(keys[rules.literal.len() + i] == k);
        }
    }
    assert(keys.to_set() =~= rules.key_set());
    vstd::seq_lib::seq_to_set_is_finite(keys);
    keys.lemma_cardinality_of_set();
    if rules.unique() {
        keys.unique_seq_to_set();
    }
}

/// A list of rules that is loaded into an empty dictionary and written out
/// again holds the same rules: none is lost and none is new. Within each of
/// the two groups the rules keep their order.
pub proof fn lemma_load_round_trip(items: Seq<Rule>)
    ensures
        Rules::empty().appended(items).flat().to_set() == items.to_set(),
        Rules::empty().appended(items).literal == group(items, false),
        Rules::empty().appended(items).pattern == group(items, true),
{
    let loaded = Rules::empty().appended(items);
    let flat = loaded.flat();
    lemma_group(items, false);
    lemma_group(items, true);
    assert forall|rule: Rule| flat.contains(rule) <==> items.contains(rule) by {
        if flat.contains(rule) {
            let i = choose|i: int| 0 <= i < flat.len() && flat[i] == rule;
            if i < loaded.literal.len() {
                assert(group(items, false).contains(rule));
            } else {
                assert(group(items, true).contains(rule));
            }
        }
        if items.contains(rule) {
            if rule.is_regex {
                let i = choose|i: int|
                    0 <= i < loaded.pattern.len() && loaded.pattern[i] == rule;
                assert(flat[loaded.literal.len() + i] == rule);
            } else {
                let i = choose|i: int|
                    0 <= i < loaded.literal.len() && loaded.literal[i] == rule;
                assert(flat[i] == rule);
            }
        }
    }
}

} // verus!
