//! The multi-pattern matcher over the keys of the literal rules, and the
//! rewriting of a text at the matches it reports.

use crate::item::{keys_of, rules_of, DictItem, Rule};
use aho_corasick::{AhoCorasick, BuildError};
use vstd::prelude::*;
use vstd::utf8::encode_utf8;

verus! {

/// `aho_corasick::AhoCorasick`, as an opaque value: what is known of an
/// automaton is what `matcher_patterns` says of it.
#[verifier::external_type_specification]
#[verifier::external_body]
pub struct ExAhoCorasick(AhoCorasick);

/// `aho_corasick::BuildError`, as an opaque value.
#[verifier::external_type_specification]
#[verifier::external_body]
pub struct ExBuildError(BuildError);

/// One occurrence of a literal key in a text: the index of the rule whose key
/// matched, and the byte range of the occurrence.
#[derive(Debug, Clone, Copy, PartialEq, Eq)]
pub struct Found {
    pub rule: usize,
    pub start: usize,
    pub end: usize,
}

/// The patterns an automaton was built from, in the order they were given.
pub uninterp spec fn matcher_patterns(ac: AhoCorasick) -> Seq<Seq<char>>;

/// Whether an automaton can be built from the given patterns.
pub uninterp spec fn matcher_builds(patterns: Seq<Seq<char>>) -> bool;

/// The matches that an automaton over `patterns` reports in `text`, in the
/// order in which it reports them.
pub uninterp spec fn literal_matches(patterns: Seq<Seq<char>>, text: Seq<char>) -> Seq<Found>;

/// Matches that can be replaced one after the other: each names one of
/// `rules` rules and a range within `len` bytes, and each ends before the
/// next one starts.
pub open spec fn spans_fit(found: Seq<Found>, rules: int, len: int) -> bool {
    &&& forall|i: int|
        0 <= i < found.len() ==> (#[trigger] found[i]).rule < rules && found[i].start
            <= found[i].end <= len
    &&& forall|i: int, j: int|
        0 <= i < j < found.len() ==> (#[trigger] found[i]).end <= (#[trigger] found[j]).start
}

/// The replacement bytes of each rule.
pub open spec fn encoded_values(rules: Seq<Rule>) -> Seq<Seq<u8>> {
    rules.map_values(|rule: Rule| encode_utf8(rule.value))
}

/// The text from `from` on, with each match replaced by the value of its
/// rule: the untouched bytes before the first match, its replacement, and so
/// on to the end of the text.
pub open spec fn rebuilt(bytes: Seq<u8>, found: Seq<Found>, values: Seq<Seq<u8>>, from: int) -> Seq<
    u8,
>
    decreases found.len(),
{
    if found.len() == 0 {
        bytes.subrange(from, bytes.len() as int)
    } else {
        bytes.subrange(from, found[0].start as int) + values[found[0].rule as int] + rebuilt(
            bytes,
            found.drop_first(),
            values,
            found[0].end as int,
        )
    }
}

/// The whole text with each match replaced by the value of its rule.
pub open spec fn spliced(bytes: Seq<u8>, found: Seq<Found>, values: Seq<Seq<u8>>) -> Seq<u8> {
    rebuilt(bytes, found, values, 0)
}

/// The text after the matches have been replaced in place from the last to
/// the first, each replacement leaving the offsets to its left as they were.
pub open spec fn spliced_backwards(bytes: Seq<u8>, found: Seq<Found>, values: Seq<Seq<u8>>) -> Seq<
    u8,
>
    decreases found.len(),
{
    if found.len() == 0 {
        bytes
    } else {
        let m = found.last();
        spliced_backwards(
            bytes.subrange(0, m.start as int) + values[m.rule as int] + bytes.subrange(
                m.end as int,
                bytes.len() as int,
            ),
            found.drop_last(),
            values,
        )
    }
}

/// Replacing the last match in place and then rebuilding over the matches
/// before it gives what rebuilding over all the matches gives.
proof fn lemma_rebuilt_after_last(
    bytes: Seq<u8>,
    found: Seq<Found>,
    last: Found,
    values: Seq<Seq<u8>>,
    from: int,
)
    requires
        spans_fit(found.push(last), values.len() as int, bytes.len() as int),
        0 <= from,
        found.len() > 0 ==> from <= found[0].start,
        found.len() == 0 ==> from <= last.start,
    ensures
        rebuilt(
            bytes.subrange(0, last.start as int) + values[last.rule as int] + bytes.subrange(
                last.end as int,
                bytes.len() as int,
            ),
            found,
            values,
            from,
        ) == rebuilt(bytes, found.push(last), values, from),
    decreases found.len(),
{
    let all = found.push(last);
    assert(all[found.len() as int] == last);
    if found.len() == 0 {
        assert(rebuilt(bytes, all.drop_first(), values, last.end as int) == bytes.subrange(
            last.end as int,
            bytes.len() as int,
        ));
    } else {
        let first = found[0];
        assert(all[0] == first);
        assert(all.drop_first() == found.drop_first().push(last));
        if found.len() > 1 {
            assert(found.drop_first()[0] == all[1]);
        }
        lemma_rebuilt_after_last(bytes, found.drop_first(), last, values, first.end as int);
    }
}

/// Replacing the matches in place from the last to the first, as one does to
/// keep the offsets of the matches still to come valid, gives the same text as
/// copying the untouched spans and the replacements from left to right.
pub proof fn lemma_splice_order(bytes: Seq<u8>, found: Seq<Found>, values: Seq<Seq<u8>>)
    requires
        spans_fit(found, values.len() as int, bytes.len() as int),
    ensures
        spliced_backwards(bytes, found, values) == spliced(bytes, found, values),
    decreases found.len(),
{
    if found.len() > 0 {
        let last = found.last();
        let front = found.drop_last();
        let edited = bytes.subrange(0, last.start as int) + values[last.rule as int]
            + bytes.subrange(last.end as int, bytes.len() as int);
        assert(front.push(last) == found);
        lemma_splice_order(edited, front, values);
        lemma_rebuilt_after_last(bytes, front, last, values, 0);
    }
}

/// `aho_corasick::AhoCorasick::new` builds an automaton with the default
/// configuration from the keys of the items, in their order; it fails when
/// one of the crate's limits on patterns or states is exceeded.
#[verifier::external_body]
pub(crate) fn build_matcher(items: &Vec<DictItem>) -> (r: Result<AhoCorasick, BuildError>)
    ensures
        r is Ok <==> matcher_builds(keys_of(rules_of(items@))),
        r matches Ok(ac) ==> matcher_patterns(ac) == keys_of(rules_of(items@)),
{
    AhoCorasick::new(items.iter().map(|item| &item.key))
}

/// `aho_corasick::AhoCorasick::find_iter` reports non-overlapping matches
/// from left to right. Each carries the position of its pattern among those
/// the automaton was built from, and a byte range of the text whose start is
/// not after its end.
#[verifier::external_body]
pub(crate) fn find_matches(ac: &AhoCorasick, text: &str) -> (found: Vec<Found>)
    ensures
        found@ == literal_matches(matcher_patterns(*ac), text@),
        spans_fit(found@, matcher_patterns(*ac).len() as int, encode_utf8(text@).len() as int),
{
    ac.find_iter(text).map(
        |m| Found { rule: m.pattern().as_usize(), start: m.start(), end: m.end() },
    ).collect()
}

/// Appends `src[from..to]` to `out`.
fn push_range(out: &mut Vec<u8>, src: &[u8], from: usize, to: usize)
    requires
        from <= to <= src@.len(),
    ensures
        final(out)@ == old(out)@ + src@.subrange(from as int, to as int),
{
    let mut i: usize = from;
    while i < to
        invariant
            from <= i <= to <= src@.len(),
            out@ == old(out)@ + src@.subrange(from as int, i as int),
        decreases to - i,
    {
        out.push(src[i]);
        i += 1;
    }
}

/// Replaces each match in `bytes` by the value of the rule it names, copying
/// the untouched spans between the matches.
pub fn splice_matches(bytes: &Vec<u8>, found: &Vec<Found>, items: &Vec<DictItem>) -> (out: Vec<u8>)
    requires
        spans_fit(found@, items.len() as int, bytes.len() as int),
    ensures
        out@ == spliced(bytes@, found@, encoded_values(rules_of(items@))),
{
    let ghost values = encoded_values(rules_of(items@));
    let mut out: Vec<u8> = Vec::new();
    let mut cursor: usize = 0;
    let mut i: usize = 0;
    assert(found@.skip(0) == found@);
    while i < found.len()
        invariant
            0 <= i <= found.len(),
            cursor <= bytes.len(),
            i < found.len() ==> cursor <= found[i as int].start,
            spans_fit(found@, items.len() as int, bytes.len() as int),
            values == encoded_values(rules_of(items@)),
            out@ + rebuilt(bytes@, found@.skip(i as int), values, cursor as int) == spliced(
                bytes@,
                found@,
                values,
            ),
        decreases found.len() - i,
    {
        let m = found[i];
        let ghost rest = found@.skip(i as int);
        assert(rest.drop_first() == found@.skip(i + 1));
        push_range(&mut out, bytes.as_slice(), cursor, m.start);
        let value = items[m.rule].value.as_str().as_bytes();
        push_range(&mut out, value, 0, value.len());
        cursor = m.end;
        i += 1;
    }
    push_range(&mut out, bytes.as_slice(), cursor, bytes.len());
    out
}

} // verus!
