//! Character classes of the env-file format.
//!
//! Five characters delimit tokens (`=`, `#` and the three quotes) and white
//! space separates them. Every other character, of any script, may be part
//! of a name or of an unquoted value, and names keep their case.

use vstd::prelude::*;

verus! {

/// Whether `c` has the Unicode property `White_Space`.
pub open spec fn is_space(c: char) -> bool {
    let u = c as u32;
    ||| 0x09 <= u <= 0x0D
    ||| u == 0x20
    ||| u == 0x85
    ||| u == 0xA0
    ||| u == 0x1680
    ||| 0x2000 <= u <= 0x200A
    ||| u == 0x2028
    ||| u == 0x2029
    ||| u == 0x202F
    ||| u == 0x205F
    ||| u == 0x3000
}

/// White space that does not end a line.
pub open spec fn is_blank(c: char) -> bool {
    is_space(c) && c != '\n'
}

/// Whether `c` opens and closes a quoted value.
pub open spec fn is_quote(c: char) -> bool {
    c == '\'' || c == '`' || c == '"'
}

/// Whether `c` may stand in a name or in an unquoted value: anything but
/// white space, `=`, `#` and the quotes.
pub open spec fn is_word_char(c: char) -> bool {
    !is_space(c) && c != '=' && c != '#' && !is_quote(c)
}

/// Decides [`is_space`].
pub fn space_char(c: char) -> (r: bool)
    ensures
        r == is_space(c),
{
    let u: u32 = c as u32;
    (0x09 <= u && u <= 0x0D) || u == 0x20 || u == 0x85 || u == 0xA0 || u == 0x1680 || (0x2000 <= u
        && u <= 0x200A) || u == 0x2028 || u == 0x2029 || u == 0x202F || u == 0x205F || u == 0x3000
}

/// Decides [`is_blank`].
pub fn blank_char(c: char) -> (r: bool)
    ensures
        r == is_blank(c),
{
    c != '\n' && space_char(c)
}

/// Decides [`is_quote`].
pub fn quote_char(c: char) -> (r: bool)
    ensures
        r == is_quote(c),
{
    c == '\'' || c == '`' || c == '"'
}

/// Decides [`is_word_char`].
pub fn word_char(c: char) -> (r: bool)
    ensures
        r == is_word_char(c),
{
    c != '=' && c != '#' && !quote_char(c) && !space_char(c)
}

} // verus!
