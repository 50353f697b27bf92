//! The lexicon of known English words and their readings.

use vstd::hash_map::StringHashMap;
use vstd::prelude::*;

verus! {

/// Known words with their readings.
pub struct Lexicon {
    words: StringHashMap<String>,
}

impl View for Lexicon {
    type V = Map<Seq<char>, Seq<char>>;

    closed spec fn view(&self) -> Map<Seq<char>, Seq<char>> {
        self.words@.map_values(|reading: String| reading@)
    }
}

impl Lexicon {
    /// A lexicon without words.
    pub fn new() -> (lexicon: Lexicon)
        ensures
            lexicon@ == Map::<Seq<char>, Seq<char>>::empty(),
    {
        let lexicon = Lexicon { words: StringHashMap::new() };
        lexicon
    }

    /// Records the reading of a word, in place of any reading it had.
    pub fn insert(&mut self, word: String, reading: String)
        ensures
            final(self)@ == old(self)@.insert(word@, reading@),
    {
        self.words.insert(word, reading);
    }

    /// Whether the word is known.
    pub fn contains(&self, word: &str) -> (b: bool)
        ensures
            b == self@.contains_key(word@),
    {
        self.words.contains_key(word)
    }

    /// The reading of a word, if it is known.
    pub fn get(&self, word: &str) -> (r: Option<&String>)
        ensures
            match r {
                Some(reading) => self@.contains_key(word@) && reading@ == self@[word@],
                None => !self@.contains_key(word@),
            },
    {
        self.words.get(word)
    }

    /// The number of known words.
    pub fn len(&self) -> (n: usize)
        ensures
            n == self@.len(),
    {
        broadcast use vstd::hash_map::axiom_string_hash_map_spec_len;

        proof {
            lemma_same_size(self.words@);
        }
        self.words.len()
    }
}

/// Reading the values of a finite map differently does not change its size.
proof fn lemma_same_size(m: Map<Seq<char>, String>)
    ensures
        m.map_values(|reading: String| reading@).dom() == m.dom(),
{
}

} // verus!
