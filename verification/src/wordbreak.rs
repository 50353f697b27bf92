//! Decomposition of a run of letters into words of the lexicon.

use crate::lexicon::Lexicon;
use crate::text::{chars_of, clone_strings, string_of_range, texts_of};
use vstd::prelude::*;

verus! {

/// The decomposition of `t` into known words that a search finds which tries
/// `t` itself first and then each split point from the left, taking the first
/// prefix that is a word and whose remainder can be decomposed in the same
/// way. `None` when there is none.
pub open spec fn first_split(words: Set<Seq<char>>, t: Seq<char>) -> Option<Seq<Seq<char>>>
    decreases t.len(), t.len() + 1,
{
    if words.contains(t) {
        Some(seq![t])
    } else {
        first_split_at(words, t, 1)
    }
}

/// The decomposition of `t` found at the first split point from `i` on that
/// gives one.
pub open spec fn first_split_at(words: Set<Seq<char>>, t: Seq<char>, i: int) -> Option<
    Seq<Seq<char>>,
>
    decreases t.len(), t.len() - i + 1,
{
    if i < 1 || i >= t.len() {
        None
    } else {
        let rest = first_split(words, t.skip(i));
        if words.contains(t.take(i)) && rest is Some {
            Some(seq![t.take(i)] + rest->0)
        } else {
            first_split_at(words, t, i + 1)
        }
    }
}

/// The texts of a list of parts, one after the other.
pub open spec fn concat(parts: Seq<Seq<char>>) -> Seq<char>
    decreases parts.len(),
{
    if parts.len() == 0 {
        Seq::empty()
    } else {
        parts[0] + concat(parts.drop_first())
    }
}

/// Whether `t` is some sequence of known words written one after the other.
pub open spec fn constructible(words: Set<Seq<char>>, t: Seq<char>) -> bool {
    exists|parts: Seq<Seq<char>>| is_decomposition(words, t, parts)
}

/// Whether `parts` is a decomposition of `t` into known, non-empty words, or
/// `t` itself as the one known word.
pub open spec fn is_decomposition(words: Set<Seq<char>>, t: Seq<char>, parts: Seq<Seq<char>>) -> bool {
    &&& parts.len() > 0
    &&& concat(parts) == t
    &&& forall|k: int| 0 <= k < parts.len() ==> words.contains(#[trigger] parts[k])
    &&& parts.len() > 1 ==> forall|k: int| 0 <= k < parts.len() ==> (#[trigger] parts[k]).len() > 0
}

/// What is known of the decomposition of one suffix of a run.
#[derive(Debug, Clone, PartialEq, Eq)]
pub enum Split {
    /// Nothing has been tried yet.
    Unknown,
    /// The suffix has no decomposition.
    Impossible,
    /// The suffix decomposes into these words.
    Words(Vec<String>),
}

/// A memo table for `t`: one entry for each suffix, by its starting offset,
/// each either unknown or the outcome of the search on that suffix.
pub open spec fn memo_holds(memo: Seq<Split>, words: Set<Seq<char>>, t: Seq<char>) -> bool {
    &&& memo.len() == t.len() + 1
    &&& forall|j: int|
        0 <= j < memo.len() ==> match #[trigger] memo[j] {
            Split::Unknown => true,
            Split::Impossible => first_split(words, t.skip(j)) is None,
            Split::Words(found) => first_split(words, t.skip(j)) == Some(texts_of(found@)),
        }
}

/// The outcome of the search as a plain value.
pub open spec fn outcome(r: Option<Vec<String>>) -> Option<Seq<Seq<char>>> {
    match r {
        Some(found) => Some(texts_of(found@)),
        None => None,
    }
}

/// A first split point that gives a decomposition is found by the search
/// from any split point before it.
proof fn lemma_split_found(words: Set<Seq<char>>, t: Seq<char>, from: int, at: int)
    requires
        1 <= from <= at < t.len(),
        words.contains(t.take(at)),
        first_split(words, t.skip(at)) is Some,
    ensures
        first_split_at(words, t, from) is Some,
    decreases at - from,
{
    if from < at {
        lemma_split_found(words, t, from + 1, at);
    }
}

/// What the search returns is a decomposition.
pub proof fn lemma_first_split_sound(words: Set<Seq<char>>, t: Seq<char>)
    requires
        first_split(words, t) is Some,
    ensures
        is_decomposition(words, t, first_split(words, t)->0),
    decreases t.len(), t.len() + 1,
{
    if words.contains(t) {
        let parts = seq![t];
        assert(concat(parts.drop_first()) == Seq::<char>::empty());
    } else {
        lemma_first_split_at_sound(words, t, 1);
    }
}

/// What the search from a split point returns is a decomposition with at
/// least two non-empty parts.
proof fn lemma_first_split_at_sound(words: Set<Seq<char>>, t: Seq<char>, i: int)
    requires
        first_split_at(words, t, i) is Some,
    ensures
        is_decomposition(words, t, first_split_at(words, t, i)->0),
        first_split_at(words, t, i)->0.len() > 1,
    decreases t.len(), t.len() - i + 1,
{
    let rest = first_split(words, t.skip(i));
    if words.contains(t.take(i)) && rest is Some {
        lemma_first_split_sound(words, t.skip(i));
        let parts = seq![t.take(i)] + rest->0;
        assert(parts.drop_first() =~= rest->0);
        assert(t.take(i) + t.skip(i) =~= t);
        if (rest->0).len() == 1 {
            assert(concat(rest->0) == (rest->0)[0] + concat((rest->0).drop_first()));
        }
    } else {
        lemma_first_split_at_sound(words, t, i + 1);
    }
}

/// Parts that are not empty make a text that is not empty.
proof fn lemma_concat_nonempty(parts: Seq<Seq<char>>)
    requires
        parts.len() > 0,
        forall|k: int| 0 <= k < parts.len() ==> (#[trigger] parts[k]).len() > 0,
    ensures
        concat(parts).len() > 0,
{
}

/// The search finds a decomposition whenever there is one.
pub proof fn lemma_first_split_complete(words: Set<Seq<char>>, t: Seq<char>, parts: Seq<Seq<char>>)
    requires
        is_decomposition(words, t, parts),
    ensures
        first_split(words, t) is Some,
    decreases t.len(),
{
    if !words.contains(t) {
        let head = parts[0];
        let tail = parts.drop_first();
        if parts.len() == 1 {
            assert(concat(tail) == Seq::<char>::empty());
            assert(concat(parts) =~= head);
        }
        lemma_concat_nonempty(tail);
        assert(t.take(head.len() as int) =~= head);
        assert(t.skip(head.len() as int) =~= concat(tail));
        lemma_first_split_complete(words, t.skip(head.len() as int), tail);
        lemma_split_found(words, t, 1, head.len() as int);
    }
}

/// The search succeeds exactly on the texts that are sequences of known
/// words.
pub proof fn lemma_first_split_decides(words: Set<Seq<char>>, t: Seq<char>)
    ensures
        first_split(words, t) is Some <==> constructible(words, t),
{
    if first_split(words, t) is Some {
        lemma_first_split_sound(words, t);
    }
    if constructible(words, t) {
        let parts = choose|parts: Seq<Seq<char>>| is_decomposition(words, t, parts);
        lemma_first_split_complete(words, t, parts);
    }
}

/// Searches a decomposition of the suffix `t[start..]` into words of the
/// lexicon, remembering in `memo` the outcome for every suffix it tries so
/// that none is searched twice.
pub fn can_construct_inner(
    lexicon: &Lexicon,
    t: &Vec<char>,
    start: usize,
    memo: &mut Vec<Split>,
) -> (r: Option<Vec<String>>)
    requires
        start <= t.len(),
        memo_holds(old(memo)@, lexicon@.dom(), t@),
    ensures
        memo_holds(final(memo)@, lexicon@.dom(), t@),
        outcome(r) == first_split(lexicon@.dom(), t@.skip(start as int)),
    decreases t.len() - start,
{
    let ghost words = lexicon@.dom();
    let ghost suffix = t@.skip(start as int);
    match &memo[start] {
        Split::Words(found) => {
            return Some(clone_strings(found));
        },
        Split::Impossible => {
            return None;
        },
        Split::Unknown => {},
    }
    let whole = string_of_range(t, start, t.len());
    if lexicon.contains(whole.as_str()) {
        let mut found: Vec<String> = Vec::new();
        found.push(whole);
        assert(texts_of(found@) =~= seq![suffix]);
        memo.set(start, Split::Words(clone_strings(&found)));
        return Some(found);
    }
    if start == t.len() {
        memo.set(start, Split::Impossible);
        return None;
    }
    let mut i: usize = start + 1;
    while i < t.len()
        invariant
            start < i <= t.len(),
            words == lexicon@.dom(),
            suffix == t@.skip(start as int),
            !words.contains(suffix),
            memo_holds(memo@, words, t@),
            first_split(words, suffix) == first_split_at(words, suffix, i - start),
        decreases t.len() - i,
    {
        let prefix = string_of_range(t, start, i);
        assert(prefix@ == suffix.take(i - start));
        assert(suffix.skip(i - start) == t@.skip(i as int));
        if lexicon.contains(prefix.as_str()) {
            match can_construct_inner(lexicon, t, i, memo) {
                Some(rest) => {
                    let mut found: Vec<String> = Vec::new();
                    found.push(prefix);
                    let mut k: usize = 0;
                    while k < rest.len()
                        invariant
                            0 <= k <= rest.len(),
                            found@ == seq![prefix] + rest@.take(k as int),
                        decreases rest.len() - k,
                    {
                        found.push(rest[k].clone());
                        k += 1;
                    }
                    assert(texts_of(found@) =~= seq![prefix@] + texts_of(rest@));
                    memo.set(start, Split::Words(clone_strings(&found)));
                    return Some(found);
                },
                None => {},
            }
        }
        i += 1;
    }
    memo.set(start, Split::Impossible);
    None
}

/// Decomposes `t` into words of the lexicon: `t` itself if it is a word, or
/// else the first prefix that is a word and whose remainder decomposes in the
/// same way. `None` if there is no decomposition.
pub fn can_construct(lexicon: &Lexicon, t: &str) -> (r: Option<Vec<String>>)
    ensures
        outcome(r) == first_split(lexicon@.dom(), t@),
{
    let chars = chars_of(t);
    let mut memo: Vec<Split> = Vec::new();
    memo.push(Split::Unknown);
    let mut i: usize = 0;
    while i < chars.len()
        invariant
            0 <= i <= chars.len(),
            memo.len() == i + 1,
            forall|j: int| 0 <= j < memo.len() ==> memo[j] is Unknown,
        decreases chars.len() - i,
    {
        memo.push(Split::Unknown);
        i += 1;
    }
    assert(chars@.skip(0) == chars@);
    can_construct_inner(lexicon, &chars, 0, &mut memo)
}

} // verus!
