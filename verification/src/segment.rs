//! Reading the runs of small letters in a text: a run that decomposes into
//! known words is read word by word, any other run is put into kana.

use crate::lexicon::Lexicon;
use crate::text::{chars_of, string_of, texts_of};
use crate::wordbreak::{can_construct, first_split};
use vstd::prelude::*;
use wana_kana::ConvertJapanese;

verus! {

/// A word and the text that replaces it wherever it occurs.
#[derive(Debug, Clone, PartialEq, Eq)]
pub struct Substitution {
    pub from: String,
    pub to: String,
}

/// The mathematical content of a substitution.
pub struct SubstitutionView {
    pub from: Seq<char>,
    pub to: Seq<char>,
}

impl View for Substitution {
    type V = SubstitutionView;

    open spec fn view(&self) -> SubstitutionView {
        SubstitutionView { from: self.from@, to: self.to@ }
    }
}

/// The contents of a list of substitutions.
pub open spec fn plan_of(subs: Seq<Substitution>) -> Seq<SubstitutionView> {
    subs.map_values(|s: Substitution| s@)
}

/// One of the letters `a` to `z`.
pub open spec fn is_small_letter(c: char) -> bool {
    'a' <= c && c <= 'z'
}

/// One of the letters `a` to `z` and `A` to `Z`.
pub open spec fn is_ascii_letter(c: char) -> bool {
    ('a' <= c && c <= 'z') || ('A' <= c && c <= 'Z')
}

/// Whether a text holds an ASCII letter.
pub open spec fn has_ascii_letter(text: Seq<char>) -> bool {
    exists|i: int| 0 <= i < text.len() && is_ascii_letter(#[trigger] text[i])
}

/// The maximal runs of small letters in a text, from left to right.
pub open spec fn letter_runs(text: Seq<char>) -> Seq<Seq<char>>
    decreases text.len(),
{
    if text.len() == 0 {
        Seq::empty()
    } else {
        let before = letter_runs(text.drop_last());
        let c = text.last();
        if !is_small_letter(c) {
            before
        } else if text.len() >= 2 && is_small_letter(text[text.len() - 2]) {
            before.drop_last().push(before.last().push(c))
        } else {
            before.push(seq![c])
        }
    }
}

/// The kana that a romanised text is transliterated to.
pub uninterp spec fn kana_reading(text: Seq<char>) -> Seq<char>;

/// Whether a word already has a substitution.
pub open spec fn is_planned(plan: Seq<SubstitutionView>, word: Seq<char>) -> bool {
    exists|i: int| 0 <= i < plan.len() && (#[trigger] plan[i]).from == word
}

/// The plan with a substitution for `word` added at its end, unless the word
/// has one already.
pub open spec fn planned(plan: Seq<SubstitutionView>, word: Seq<char>, reading: Seq<char>) -> Seq<
    SubstitutionView,
> {
    if is_planned(plan, word) {
        plan
    } else {
        plan.push(SubstitutionView { from: word, to: reading })
    }
}

/// The plan after each of the words has been given its reading from the
/// lexicon; a word that the lexicon does not know gets none.
pub open spec fn plan_words(
    plan: Seq<SubstitutionView>,
    lexicon: Map<Seq<char>, Seq<char>>,
    words: Seq<Seq<char>>,
) -> Seq<SubstitutionView>
    decreases words.len(),
{
    if words.len() == 0 {
        plan
    } else if lexicon.contains_key(words[0]) {
        plan_words(planned(plan, words[0], lexicon[words[0]]), lexicon, words.drop_first())
    } else {
        plan_words(plan, lexicon, words.drop_first())
    }
}

/// The plan after a run that is no sequence of known words has been given its
/// kana: the kana are taken only if no ASCII letter is left in them.
pub open spec fn plan_fallback(plan: Seq<SubstitutionView>, run: Seq<char>, kana: Seq<char>) -> Seq<
    SubstitutionView,
> {
    if has_ascii_letter(kana) {
        plan
    } else {
        planned(plan, run, kana)
    }
}

/// The plan after one run has been looked at.
pub open spec fn plan_run(
    plan: Seq<SubstitutionView>,
    lexicon: Map<Seq<char>, Seq<char>>,
    run: Seq<char>,
) -> Seq<SubstitutionView> {
    match first_split(lexicon.dom(), run) {
        Some(words) => plan_words(plan, lexicon, words),
        None => plan_fallback(plan, run, kana_reading(run)),
    }
}

/// The substitutions for the given runs: those of each run in turn, each
/// word once, in the order in which the words are first met.
pub open spec fn plan(lexicon: Map<Seq<char>, Seq<char>>, runs: Seq<Seq<char>>) -> Seq<
    SubstitutionView,
>
    decreases runs.len(),
{
    if runs.len() == 0 {
        Seq::empty()
    } else {
        plan_run(plan(lexicon, runs.drop_last()), lexicon, runs.last())
    }
}

/// The text with every occurrence of `from` replaced by `to`, the
/// occurrences being taken from left to right without overlap. An empty
/// `from` occurs nowhere.
pub open spec fn replaced(text: Seq<char>, from: Seq<char>, to: Seq<char>) -> Seq<char>
    decreases text.len(),
{
    if from.len() == 0 || text.len() < from.len() {
        text
    } else if text.take(from.len() as int) == from {
        to + replaced(text.skip(from.len() as int), from, to)
    } else {
        seq![text[0]] + replaced(text.skip(1), from, to)
    }
}

/// The text after each substitution of the plan, in order, has been made
/// throughout it.
pub open spec fn substituted(text: Seq<char>, plan: Seq<SubstitutionView>) -> Seq<char>
    decreases plan.len(),
{
    if plan.len() == 0 {
        text
    } else {
        substituted(replaced(text, plan[0].from, plan[0].to), plan.drop_first())
    }
}

/// The text with its runs of small letters read by the lexicon or put into
/// kana.
pub open spec fn segmented(lexicon: Map<Seq<char>, Seq<char>>, text: Seq<char>) -> Seq<char> {
    substituted(text, plan(lexicon, letter_runs(text)))
}

/// The text without its space characters.
pub open spec fn without_spaces(text: Seq<char>) -> Seq<char>
    decreases text.len(),
{
    if text.len() == 0 {
        text
    } else if text.last() == ' ' {
        without_spaces(text.drop_last())
    } else {
        without_spaces(text.drop_last()).push(text.last())
    }
}

/// `wana_kana::ConvertJapanese::to_kana` on a string slice transliterates
/// romaji to kana and passes everything else through.
#[verifier::external_body]
pub(crate) fn kana_of(run: &str) -> (kana: String)
    ensures
        kana@ == kana_reading(run@),
{
    run.to_kana()
}

/// Collects the maximal runs of small letters of a text.
pub fn find_runs(text: &Vec<char>) -> (runs: Vec<String>)
    ensures
        texts_of(runs@) == letter_runs(text@),
{
    let mut runs: Vec<String> = Vec::new();
    let mut current = String::new();
    let mut open = false;
    let mut i: usize = 0;
    while i < text.len()
        invariant
            0 <= i <= text.len(),
            open ==> i > 0 && is_small_letter(text[i - 1]) && letter_runs(text@.take(i as int))
                == texts_of(runs@).push(current@),
            !open ==> (i == 0 || !is_small_letter(text[i - 1])) && letter_runs(
                text@.take(i as int),
            ) == texts_of(runs@),
        decreases text.len() - i,
    {
        let c = text[i];
        let ghost next = text@.take(i + 1);
        assert(next.drop_last() == text@.take(i as int));
        if 'a' <= c && c <= 'z' {
            if open {
                current.push(c);
            } else {
                current = String::new();
                current.push(c);
                open = true;
            }
        } else if open {
            runs.push(current);
            current = String::new();
            open = false;
        }
        i += 1;
    }
    assert(text@.take(text@.len() as int) == text@);
    if open {
        runs.push(current);
    }
    runs
}

/// Whether a text holds an ASCII letter.
pub fn contains_ascii_letter(text: &str) -> (b: bool)
    ensures
        b == has_ascii_letter(text@),
{
    let chars = chars_of(text);
    let mut i: usize = 0;
    while i < chars.len()
        invariant
            0 <= i <= chars.len(),
            chars@ == text@,
            forall|j: int| 0 <= j < i ==> !is_ascii_letter(#[trigger] chars[j]),
        decreases chars.len() - i,
    {
        let c = chars[i];
        if ('a' <= c && c <= 'z') || ('A' <= c && c <= 'Z') {
            return true;
        }
        i += 1;
    }
    false
}

/// Adds a substitution for `word` to the plan unless the word has one.
pub fn note(plan: &mut Vec<Substitution>, word: String, reading: String)
    ensures
        plan_of(final(plan)@) == planned(plan_of(old(plan)@), word@, reading@),
{
    let mut i: usize = 0;
    while i < plan.len()
        invariant
            0 <= i <= plan.len(),
            plan@ == old(plan)@,
            forall|j: int| 0 <= j < i ==> (#[trigger] plan_of(plan@)[j]).from != word@,
        decreases plan.len() - i,
    {
        if plan[i].from == word {
            assert(plan_of(plan@)[i as int].from == word@);
            return ;
        }
        i += 1;
    }
    plan.push(Substitution { from: word, to: reading });
}

/// Adds to the plan the kana of a run that is no sequence of known words, if
/// the kana hold no ASCII letter.
pub fn note_fallback(plan: &mut Vec<Substitution>, run: String, kana: String)
    ensures
        plan_of(final(plan)@) == plan_fallback(plan_of(old(plan)@), run@, kana@),
{
    if !contains_ascii_letter(kana.as_str()) {
        note(plan, run, kana);
    }
}

/// Adds to the plan the reading of each of the words.
pub fn note_words(plan: &mut Vec<Substitution>, lexicon: &Lexicon, words: &Vec<String>)
    ensures
        plan_of(final(plan)@) == plan_words(plan_of(old(plan)@), lexicon@, texts_of(words@)),
{
    let ghost all = texts_of(words@);
    let mut k: usize = 0;
    assert(all.skip(0) == all);
    while k < words.len()
        invariant
            0 <= k <= words.len(),
            all == texts_of(words@),
            plan_words(plan_of(plan@), lexicon@, all.skip(k as int)) == plan_words(
                plan_of(old(plan)@),
                lexicon@,
                all,
            ),
        decreases words.len() - k,
    {
        assert(all.skip(k as int).drop_first() == all.skip(k + 1));
        match lexicon.get(words[k].as_str()) {
            Some(reading) => {
                note(plan, words[k].clone(), reading.clone());
            },
            None => {},
        }
        k += 1;
    }
}

/// Plans the substitutions for the given runs.
pub fn plan_substitutions(lexicon: &Lexicon, runs: &Vec<String>) -> (subs: Vec<Substitution>)
    ensures
        plan_of(subs@) == plan(lexicon@, texts_of(runs@)),
{
    let ghost all = texts_of(runs@);
    let mut subs: Vec<Substitution> = Vec::new();
    let mut i: usize = 0;
    while i < runs.len()
        invariant
            0 <= i <= runs.len(),
            all == texts_of(runs@),
            plan_of(subs@) == plan(lexicon@, all.take(i as int)),
        decreases runs.len() - i,
    {
        let run = &runs[i];
        assert(all.take(i + 1).drop_last() == all.take(i as int));
        match can_construct(lexicon, run.as_str()) {
            Some(words) => {
                note_words(&mut subs, lexicon, &words);
            },
            None => {
                let kana = kana_of(run.as_str());
                note_fallback(&mut subs, run.clone(), kana);
            },
        }
        i += 1;
    }
    assert(all.take(all.len() as int) == all);
    subs
}

/// Whether `word` stands in `text` at offset `at`.
fn stands_at(text: &Vec<char>, at: usize, word: &Vec<char>) -> (b: bool)
    requires
        at + word.len() <= text.len(),
    ensures
        b == (text@.subrange(at as int, at + word.len()) == word@),
{
    let mut k: usize = 0;
    while k < word.len()
        invariant
            0 <= k <= word.len(),
            at + word.len() <= text.len(),
            forall|j: int| 0 <= j < k ==> text[at + j] == word[j],
        decreases word.len() - k,
    {
        if text[at + k] != word[k] {
            return false;
        }
        k += 1;
    }
    assert(text@.subrange(at as int, at + word.len()) =~= word@);
    true
}

/// Replaces every occurrence of `from` in `text` by `to`.
pub fn replace_word(text: &Vec<char>, from: &Vec<char>, to: &Vec<char>) -> (out: Vec<char>)
    ensures
        out@ == replaced(text@, from@, to@),
{
    let mut out: Vec<char> = Vec::new();
    let mut i: usize = 0;
    assert(text@.skip(0) == text@);
    while i < text.len()
        invariant
            0 <= i <= text.len(),
            out@ + replaced(text@.skip(i as int), from@, to@) == replaced(text@, from@, to@),
        decreases text.len() - i,
    {
        let ghost rest = text@.skip(i as int);
        if from.len() > 0 && from.len() <= text.len() - i && stands_at(text, i, from) {
            assert(rest.take(from.len() as int) == text@.subrange(i as int, i + from.len()));
            assert(rest.skip(from.len() as int) == text@.skip(i + from.len()));
            let mut k: usize = 0;
            let ghost start = out@;
            while k < to.len()
                invariant
                    0 <= k <= to.len(),
                    out@ == start + to@.take(k as int),
                decreases to.len() - k,
            {
                out.push(to[k]);
                k += 1;
            }
            i += from.len();
        } else {
            proof {
                if from@.len() > 0 && from@.len() <= text@.len() - i {
                    assert(rest.take(from@.len() as int) == text@.subrange(
                        i as int,
                        i + from@.len(),
                    ));
                }
                assert(rest.skip(1) == text@.skip(i + 1));
            }
            out.push(text[i]);
            i += 1;
        }
    }
    out
}

/// Makes each substitution of the plan, in order, throughout the text.
pub fn substitute(text: Vec<char>, subs: &Vec<Substitution>) -> (out: Vec<char>)
    ensures
        out@ == substituted(text@, plan_of(subs@)),
{
    let ghost all = plan_of(subs@);
    let mut out = text;
    let mut i: usize = 0;
    assert(all.skip(0) == all);
    while i < subs.len()
        invariant
            0 <= i <= subs.len(),
            all == plan_of(subs@),
            substituted(out@, all.skip(i as int)) == substituted(text@, all),
        decreases subs.len() - i,
    {
        assert(all.skip(i as int).drop_first() == all.skip(i + 1));
        let from = chars_of(subs[i].from.as_str());
        let to = chars_of(subs[i].to.as_str());
        out = replace_word(&out, &from, &to);
        i += 1;
    }
    out
}

/// Reads the runs of small letters of a text: each run that is a sequence of
/// known words has those words replaced by their readings wherever they
/// occur, each other run is replaced by its kana if they hold no ASCII letter.
pub fn segment(lexicon: &Lexicon, text: &str) -> (out: String)
    ensures
        out@ == segmented(lexicon@, text@),
{
    let chars = chars_of(text);
    let runs = find_runs(&chars);
    let subs = plan_substitutions(lexicon, &runs);
    let out = substitute(chars, &subs);
    string_of(&out)
}

/// Removes the space characters of a text.
pub fn strip_spaces(text: &str) -> (out: String)
    ensures
        out@ == without_spaces(text@),
{
    let mut out = String::new();
    for c in it: text.chars()
        invariant
            it.seq() == text@,
            out@ == without_spaces(it.seq().take(it.index() as int)),
    {
        let ghost next = it.seq().take(it.index() + 1);
        assert(next.drop_last() == it.seq().take(it.index() as int));
        if c != ' ' {
            out.push(c);
        }
    }
    assert(text@.take(text@.len() as int) == text@);
    out
}

} // verus!
