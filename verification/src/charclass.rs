//! The two character classes that a repository address is made of.

use vstd::prelude::*;

verus! {

/// Whether the regex engine counts `c` as a word character. Only asked about
/// characters beyond ASCII.
pub uninterp spec fn word_character(c: char) -> bool;

/// `regex_syntax::is_word_character`: the Unicode word class of the regex
/// engine (alphabetic, mark, decimal number, connector punctuation and join
/// control characters). Nothing more is said of it here than that it is a
/// fixed property of the character.
#[verifier::external_body]
fn in_word_class(c: char) -> (b: bool)
    ensures
        b == word_character(c),
{
    regex_syntax::is_word_character(c)
}

/// Whether `c` is an ASCII letter, an ASCII digit or `_`.
pub open spec fn is_ascii_word(c: char) -> bool {
    ||| 'a' <= c <= 'z'
    ||| 'A' <= c <= 'Z'
    ||| '0' <= c <= '9'
    ||| c == '_'
}

/// Whether `c` is a word character: within ASCII the letters, the digits and
/// `_`; beyond ASCII whatever the regex engine's word class holds.
pub open spec fn is_word(c: char) -> bool {
    if c <= '\x7f' {
        is_ascii_word(c)
    } else {
        word_character(c)
    }
}

/// Whether `c` is white space: one of the characters with the Unicode property
/// `White_Space`.
pub open spec fn is_space(c: char) -> bool {
    ||| '\t' <= c <= '\r'
    ||| c == ' '
    ||| c == '\u{85}'
    ||| c == '\u{a0}'
    ||| c == '\u{1680}'
    ||| '\u{2000}' <= c <= '\u{200a}'
    ||| c == '\u{2028}'
    ||| c == '\u{2029}'
    ||| c == '\u{202f}'
    ||| c == '\u{205f}'
    ||| c == '\u{3000}'
}

/// Whether `c` is a word character.
pub fn word(c: char) -> (b: bool)
    ensures
        b == is_word(c),
{
    if c <= '\x7f' {
        ('a' <= c && c <= 'z') || ('A' <= c && c <= 'Z') || ('0' <= c && c <= '9') || c == '_'
    } else {
        in_word_class(c)
    }
}

/// Whether `c` is white space.
pub fn space(c: char) -> (b: bool)
    ensures
        b == is_space(c),
{
    ('\t' <= c && c <= '\r') || c == ' ' || c == '\u{85}' || c == '\u{a0}' || c == '\u{1680}' || (
    '\u{2000}' <= c && c <= '\u{200a}') || c == '\u{2028}' || c == '\u{2029}' || c == '\u{202f}'
        || c == '\u{205f}' || c == '\u{3000}'
}

} // verus!
