//! Transliteration of symbols: an emoji becomes its name in ASCII letters,
//! and ASCII capitals become small letters.

use crate::text::chars_of;
use vstd::prelude::*;

verus! {

/// What one character of a text turns into.
#[derive(Debug, Clone, PartialEq, Eq)]
pub enum Token {
    /// An ordinary character, which stays as it is.
    Plain(char),
    /// A symbol, which is replaced by its name.
    Symbol(String),
}

/// The mathematical content of a token.
pub enum TokenView {
    Plain(char),
    Symbol(Seq<char>),
}

impl View for Token {
    type V = TokenView;

    open spec fn view(&self) -> TokenView {
        match self {
            Token::Plain(c) => TokenView::Plain(*c),
            Token::Symbol(name) => TokenView::Symbol(name@),
        }
    }
}

/// The ASCII rendering that the transliteration table gives a character.
pub uninterp spec fn ascii_reading(c: char) -> Seq<char>;

/// An ASCII capital as a small letter; any other character as it is.
pub open spec fn lower(c: char) -> char {
    if 'A' <= c && c <= 'Z' {
        ((c as u32) + 32) as char
    } else {
        c
    }
}

/// A character inside the name of a symbol: the separators `_` and `:` are
/// read as spaces.
pub open spec fn name_char(c: char) -> char {
    if c == '_' || c == ':' {
        ' '
    } else {
        c
    }
}

/// Whether a rendering is the name of a symbol between colons, as in
/// `:crown:`.
pub open spec fn is_symbol_reading(reading: Seq<char>) -> bool {
    reading.len() >= 2 && reading[0] == ':'
}

/// The token for a character with the given rendering: the rendering of a
/// symbol without its first and last character, or else the character.
pub open spec fn token(c: char, reading: Seq<char>) -> TokenView {
    if is_symbol_reading(reading) {
        TokenView::Symbol(
            reading.subrange(1, reading.len() - 1).map_values(|c: char| name_char(c)),
        )
    } else {
        TokenView::Plain(c)
    }
}

/// The text the tokens spell, with one space between two symbols that follow
/// each other. `after_symbol` says whether a symbol stands right before the
/// first token.
pub open spec fn joined(tokens: Seq<TokenView>, after_symbol: bool) -> Seq<char>
    decreases tokens.len(),
{
    if tokens.len() == 0 {
        Seq::empty()
    } else {
        match tokens[0] {
            TokenView::Plain(c) => seq![c] + joined(tokens.drop_first(), false),
            TokenView::Symbol(name) => (if after_symbol {
                seq![' ']
            } else {
                Seq::empty()
            }) + name + joined(tokens.drop_first(), true),
        }
    }
}

/// The token of each character of a text, after lowering it.
pub open spec fn tokens_of(text: Seq<char>) -> Seq<TokenView> {
    text.map_values(|c: char| token(lower(c), ascii_reading(lower(c))))
}

/// A text with its symbols spelled out and its ASCII capitals lowered.
pub open spec fn transliterated(text: Seq<char>) -> Seq<char> {
    joined(tokens_of(text), false)
}

/// `any_ascii::any_ascii` renders a string in ASCII character by character;
/// here the string holds the one given character.
#[verifier::external_body]
pub(crate) fn ascii_of(c: char) -> (r: String)
    ensures
        r@ == ascii_reading(c),
{
    any_ascii::any_ascii(&c.to_string())
}

/// Lowers an ASCII capital.
pub fn to_lower(c: char) -> (r: char)
    ensures
        r == lower(c),
{
    if 'A' <= c && c <= 'Z' {
        let b: u8 = c as u8;
        (b + 32) as char
    } else {
        c
    }
}

/// Decides what a character turns into, given its ASCII rendering.
pub fn token_of(c: char, reading: &str) -> (t: Token)
    ensures
        t@ == token(c, reading@),
{
    let chars = chars_of(reading);
    if chars.len() >= 2 && chars[0] == ':' {
        let mut name = String::new();
        let mut i: usize = 1;
        while i < chars.len() - 1
            invariant
                1 <= i <= chars.len() - 1,
                name@ == chars@.subrange(1, i as int).map_values(|c: char| name_char(c)),
            decreases chars.len() - i,
        {
            let ch = chars[i];
            if ch == '_' || ch == ':' {
                name.push(' ');
            } else {
                name.push(ch);
            }
            i += 1;
        }
        Token::Symbol(name)
    } else {
        Token::Plain(c)
    }
}

/// Appends the characters of `s` to `out`.
fn push_all(out: &mut String, s: &str)
    ensures
        final(out)@ == old(out)@ + s@,
{
    for c in it: s.chars()
        invariant
            it.seq() == s@,
            out@ == old(out)@ + it.seq().take(it.index() as int),
    {
        out.push(c);
    }
}

/// Spells the tokens out, putting one space between two symbols that follow
/// each other so that their names do not run together.
pub fn join_tokens(tokens: &Vec<Token>) -> (out: String)
    ensures
        out@ == joined(tokens@.map_values(|t: Token| t@), false),
{
    let ghost views = tokens@.map_values(|t: Token| t@);
    let mut out = String::new();
    let mut after_symbol = false;
    let mut i: usize = 0;
    assert(views.skip(0) == views);
    while i < tokens.len()
        invariant
            0 <= i <= tokens.len(),
            views == tokens@.map_values(|t: Token| t@),
            out@ + joined(views.skip(i as int), after_symbol) == joined(views, false),
        decreases tokens.len() - i,
    {
        assert(views.skip(i as int).drop_first() == views.skip(i + 1));
        match &tokens[i] {
            Token::Plain(c) => {
                out.push(*c);
                after_symbol = false;
            },
            Token::Symbol(name) => {
                if after_symbol {
                    out.push(' ');
                }
                push_all(&mut out, name.as_str());
                after_symbol = true;
            },
        }
        i += 1;
    }
    out
}

/// Lowers the ASCII capitals of `text` and replaces each symbol by its name.
pub fn transliterate(text: &str) -> (out: String)
    ensures
        out@ == transliterated(text@),
{
    let mut tokens: Vec<Token> = Vec::new();
    for c in it: text.chars()
        invariant
            it.seq() == text@,
            tokens@.map_values(|t: Token| t@) == tokens_of(it.seq().take(it.index() as int)),
    {
        let ghost views = tokens@.map_values(|t: Token| t@);
        let low = to_lower(c);
        let reading = ascii_of(low);
        let t = token_of(low, reading.as_str());
        tokens.push(t);
        assert(tokens@.map_values(|t: Token| t@) == views.push(t@));
    }
    assert(text@.take(text@.len() as int) == text@);
    join_tokens(&tokens)
}

} // verus!
