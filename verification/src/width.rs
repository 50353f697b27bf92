//! Width normalisation: full-width ASCII becomes half-width ASCII.

use kanaria::utils::{AsciiUtils, WidthUtils};
use vstd::prelude::*;

verus! {

/// A full-width form of an ASCII character: the ideographic space, or one of
/// the full-width letters, digits and punctuation marks U+FF01 to U+FF5E.
pub open spec fn is_wide_ascii(c: char) -> bool {
    c == '\u{3000}' || ('\u{FF01}' <= c && c <= '\u{FF5E}')
}

/// The half-width equivalent of a full-width ASCII character; any other
/// character is its own equivalent.
pub open spec fn narrow_char(c: char) -> char {
    if c == '\u{3000}' {
        ' '
    } else if '\u{FF01}' <= c && c <= '\u{FF5E}' {
        ((c as u32) - 0xFEE0) as char
    } else {
        c
    }
}

/// A text with every full-width ASCII character narrowed.
pub open spec fn narrow(text: Seq<char>) -> Seq<char> {
    text.map_values(|c: char| narrow_char(c))
}

/// `kanaria::utils::AsciiUtils::is_wide_ascii` accepts the full-width lower
/// and upper case letters, digits and ASCII symbols, the last of which include
/// the ideographic space: together U+3000 and the block U+FF01 to U+FF5E.
#[verifier::external_body]
fn wide_ascii(c: char) -> (b: bool)
    ensures
        b == is_wide_ascii(c),
{
    AsciiUtils::is_wide_ascii(c)
}

/// `kanaria::utils::WidthUtils::convert_to_narrow` returns a pair whose first
/// component, for a full-width ASCII character, is the ASCII character of the
/// same name: U+3000 gives the space, the others lie 0xFEE0 lower.
#[verifier::external_body]
fn narrowed(c: char) -> (r: char)
    requires
        is_wide_ascii(c),
    ensures
        r == narrow_char(c),
{
    WidthUtils::convert_to_narrow(c).0
}

/// Maps every full-width ASCII character of `s` to its half-width equivalent
/// and leaves every other character, full-width kana included, as it is.
pub fn to_narrow(s: &str) -> (r: String)
    ensures
        r@ == narrow(s@),
{
    let mut r = String::new();
    for c in it: s.chars()
        invariant
            it.seq() == s@,
            r@ == narrow(it.seq().take(it.index() as int)),
    {
        if wide_ascii(c) {
            r.push(narrowed(c));
        } else {
            r.push(c);
        }
    }
    r
}

} // verus!
