//! Character classes used by the response formatter: sentence terminators,
//! whitespace, list markers, and the characters stripped from the front of a
//! list point.

use vstd::prelude::*;

verus! {

/// A character on which raw model output is cut into fragments.
pub open spec fn is_term_char(c: char) -> bool {
    c == '\n' || c == '.' || c == '!'
}

/// Whitespace, as Rust's `char::is_whitespace` defines it (the Unicode
/// `White_Space` property).
pub open spec fn is_space_char(c: char) -> bool {
    ||| c == '\u{9}'
    ||| c == '\u{a}'
    ||| c == '\u{b}'
    ||| c == '\u{c}'
    ||| c == '\u{d}'
    ||| c == ' '
    ||| c == '\u{85}'
    ||| c == '\u{a0}'
    ||| c == '\u{1680}'
    ||| ('\u{2000}' <= c && c <= '\u{200a}')
    ||| c == '\u{2028}'
    ||| c == '\u{2029}'
    ||| c == '\u{202f}'
    ||| c == '\u{205f}'
    ||| c == '\u{3000}'
}

/// A character that marks a fragment as already list-like when it appears
/// first: a decimal digit, a hyphen, or an asterisk.
pub open spec fn is_marker_char(c: char) -> bool {
    ('0' <= c && c <= '9') || c == '-' || c == '*'
}

/// A character removed from the front of a fragment when pre-existing
/// numbering or bullets are stripped.
pub open spec fn is_strip_char(c: char) -> bool {
    ('0' <= c && c <= '9') || c == '.' || c == '-' || c == '*' || c == ' '
}

pub fn term_char(c: char) -> (r: bool)
    ensures
        r == is_term_char(c),
{
    c == '\n' || c == '.' || c == '!'
}

pub fn space_char(c: char) -> (r: bool)
    ensures
        r == is_space_char(c),
{
    c == '\u{9}' || c == '\u{a}' || c == '\u{b}' || c == '\u{c}' || c == '\u{d}' || c == ' '
        || c == '\u{85}' || c == '\u{a0}' || c == '\u{1680}' || ('\u{2000}' <= c && c
        <= '\u{200a}') || c == '\u{2028}' || c == '\u{2029}' || c == '\u{202f}' || c == '\u{205f}'
        || c == '\u{3000}'
}

pub fn marker_char(c: char) -> (r: bool)
    ensures
        r == is_marker_char(c),
{
    ('0' <= c && c <= '9') || c == '-' || c == '*'
}

pub fn strip_char(c: char) -> (r: bool)
    ensures
        r == is_strip_char(c),
{
    ('0' <= c && c <= '9') || c == '.' || c == '-' || c == '*' || c == ' '
}

} // verus!
