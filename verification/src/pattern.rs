//! Pattern rules: keys that are regular expressions, and the rewriting of a
//! text by them.

use crate::item::{rules_of, DictError, DictItem, Rule};
use regex::Regex;
use vstd::prelude::*;

verus! {

/// `regex::Regex`, as an opaque value: what is known of a compiled
/// expression is what `regex_source` says of it.
#[verifier::external_type_specification]
#[verifier::external_body]
pub struct ExRegex(Regex);

/// `regex::Error`, as an opaque value.
#[verifier::external_type_specification]
#[verifier::external_body]
pub struct ExRegexError(regex::Error);

/// Whether a pattern compiles as a regular expression.
pub uninterp spec fn pattern_compiles(pattern: Seq<char>) -> bool;

/// The pattern that a compiled regular expression was made from.
pub uninterp spec fn regex_source(re: Regex) -> Seq<char>;

/// The text in which every non-overlapping match of a pattern has been
/// replaced, the replacement being expanded at each match.
pub uninterp spec fn pattern_replaced(
    pattern: Seq<char>,
    text: Seq<char>,
    replacement: Seq<char>,
) -> Seq<char>;

/// The text after each pattern rule, in order, has replaced all its matches;
/// `None` as soon as the key of a rule does not compile.
pub open spec fn rewrite_patterns(rules: Seq<Rule>, text: Seq<char>) -> Option<Seq<char>>
    decreases rules.len(),
{
    if rules.len() == 0 {
        Some(text)
    } else if !pattern_compiles(rules[0].key) {
        None
    } else {
        rewrite_patterns(
            rules.drop_first(),
            pattern_replaced(rules[0].key, text, rules[0].value),
        )
    }
}

/// `regex::Regex::new` compiles a pattern; the compiled expression keeps the
/// pattern it was made from. It fails on an invalid pattern and on one whose
/// compiled form is over the default size limit.
#[verifier::external_body]
pub(crate) fn compile(pattern: &str) -> (r: Result<Regex, regex::Error>)
    ensures
        r is Ok <==> pattern_compiles(pattern@),
        r matches Ok(re) ==> regex_source(re) == pattern@,
{
    Regex::new(pattern)
}

/// `regex::Regex::replace_all` replaces all non-overlapping matches in the
/// text with the replacement, in which `$` refers to capture groups.
#[verifier::external_body]
pub(crate) fn replace_all(re: &Regex, text: &str, replacement: &str) -> (r: String)
    ensures
        r@ == pattern_replaced(regex_source(*re), text@, replacement@),
{
    re.replace_all(text, replacement).into_owned()
}

/// Whether `key` can be the key of a pattern rule.
pub fn is_valid_pattern(key: &str) -> (b: bool)
    ensures
        b == pattern_compiles(key@),
{
    compile(key).is_ok()
}

/// Rewrites `text` by each pattern rule in turn.
pub fn apply_patterns(items: &Vec<DictItem>, text: String) -> (r: Result<String, DictError>)
    ensures
        match r {
            Ok(s) => rewrite_patterns(rules_of(items@), text@) == Some(s@),
            Err(e) => e == DictError::InvalidPattern && rewrite_patterns(rules_of(items@), text@)
                is None,
        },
{
    let ghost rules = rules_of(items@);
    let mut current = text;
    let mut i: usize = 0;
    assert(rules.skip(0) == rules);
    while i < items.len()
        invariant
            0 <= i <= items.len(),
            rules == rules_of(items@),
            rewrite_patterns(rules.skip(i as int), current@) == rewrite_patterns(rules, text@),
        decreases items.len() - i,
    {
        let item = &items[i];
        assert(rules.skip(i as int).drop_first() == rules.skip(i + 1));
        match compile(item.key.as_str()) {
            Ok(re) => {
                current = replace_all(&re, current.as_str(), item.value.as_str());
            },
            Err(_) => {
                return Err(DictError::InvalidPattern);
            },
        }
        i += 1;
    }
    Ok(current)
}

} // verus!
