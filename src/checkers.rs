//! Character classes used by HTTP header grammars.

use vstd::prelude::*;

verus! {

/// Space or horizontal tab: the only whitespace that header grammars skip.
pub open spec fn is_ws_char(c: char) -> bool {
    c == ' ' || c == '\t'
}

/// An ASCII decimal digit.
pub open spec fn is_digit_char(c: char) -> bool {
    '0' <= c && c <= '9'
}

/// A header token character: digits, upper-case letters, the run from `^` to
/// `~` (which holds the lower-case letters, `_`, `` ` ``, `{`, `|`, `}`), the
/// run from `#` to `'`, and `! * + - .`.
pub open spec fn is_token_char(c: char) -> bool {
    ||| ('0' <= c && c <= '9')
    ||| ('A' <= c && c <= 'Z')
    ||| ('^' <= c && c <= '~')
    ||| ('#' <= c && c <= '\'')
    ||| c == '!'
    ||| c == '*'
    ||| c == '+'
    ||| c == '-'
    ||| c == '.'
}

/// Whether `byte` is a space or a horizontal tab.
pub fn is_whitespace(byte: char) -> (r: bool)
    ensures
        r == is_ws_char(byte),
{
    byte == ' ' || byte == '\t'
}

/// Whether `byte` is one of `0` to `9`.
pub fn is_digit(byte: char) -> (r: bool)
    ensures
        r == is_digit_char(byte),
{
    '0' <= byte && byte <= '9'
}

/// Whether `c` may appear in an HTTP token.
pub fn is_valid_token(c: char) -> (r: bool)
    ensures
        r == is_token_char(c),
{
    ('0' <= c && c <= '9') || ('A' <= c && c <= 'Z') || ('^' <= c && c <= '~') || ('#' <= c
        && c <= '\'') || c == '!' || c == '*' || c == '+' || c == '-' || c == '.'
}

} // verus!
