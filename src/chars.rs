use vstd::prelude::*;

use crate::token::TokenType;

verus! {

/// An ASCII decimal digit, the only digits that start or continue a number.
pub open spec fn is_digit(c: char) -> bool {
    '0' <= c && c <= '9'
}

/// Insignificant whitespace other than the newline.
pub open spec fn is_blank(c: char) -> bool {
    c == ' ' || c == '\r' || c == '\t'
}

/// What `char::is_alphabetic` answers for `c` (the Unicode `Alphabetic` property).
pub uninterp spec fn alphabetic(c: char) -> bool;

/// What `char::is_alphanumeric` answers for `c` (alphabetic or numeric in Unicode).
pub uninterp spec fn alphanumeric(c: char) -> bool;

/// Relies on `char::is_alphabetic`: whether `c` may start an identifier.
#[verifier::external_body]
pub(crate) fn is_alphabetic(c: char) -> (r: bool)
    ensures
        r == alphabetic(c),
{
    c.is_alphabetic()
}

/// Relies on `char::is_alphanumeric`: whether `c` may continue an identifier.
#[verifier::external_body]
pub(crate) fn is_alphanumeric(c: char) -> (r: bool)
    ensures
        r == alphanumeric(c),
{
    c.is_alphanumeric()
}

/// Relies on `str::chars` collected by `Vec::from_iter`: the characters of `s`, in order.
#[verifier::external_body]
pub(crate) fn chars_of(s: &str) -> (r: Vec<char>)
    ensures
        r@ == s@,
{
    Vec::from_iter(s.chars())
}

/// Relies on `String::from_iter` over characters: the string made of `cs`, in order.
#[verifier::external_body]
pub(crate) fn string_of(cs: &[char]) -> (r: String)
    ensures
        r@ == cs@,
{
    String::from_iter(cs.iter())
}

/// Whether `c` is an ASCII decimal digit.
pub fn digit(c: char) -> (r: bool)
    ensures
        r == is_digit(c),
{
    '0' <= c && c <= '9'
}

/// The reserved word spelled exactly `t`, if any.
pub open spec fn keyword_kind(t: Seq<char>) -> Option<TokenType> {
    if t == seq!['i', 'f'] {
        Some(TokenType::IF)
    } else if t == seq!['n', 'i', 'l'] {
        Some(TokenType::NIL)
    } else if t == seq!['w', 'h', 'i', 'l', 'e'] {
        Some(TokenType::WHILE)
    } else if t == seq!['t', 'r', 'u', 'e'] {
        Some(TokenType::TRUE)
    } else if t == seq!['f', 'a', 'l', 's', 'e'] {
        Some(TokenType::FALSE)
    } else {
        None
    }
}

/// Looks `t` up in the keyword table: case-sensitive, exact match only.
pub fn keyword(t: &[char]) -> (r: Option<TokenType>)
    ensures
        r == keyword_kind(t@),
{
    let n = t.len();
    if n == 2 && t[0] == 'i' && t[1] == 'f' {
        assert(t@ =~= seq!['i', 'f']);
        Some(TokenType::IF)
    } else if n == 3 && t[0] == 'n' && t[1] == 'i' && t[2] == 'l' {
        assert(t@ =~= seq!['n', 'i', 'l']);
        Some(TokenType::NIL)
    } else if n == 5 && t[0] == 'w' && t[1] == 'h' && t[2] == 'i' && t[3] == 'l' && t[4] == 'e' {
        assert(t@ =~= seq!['w', 'h', 'i', 'l', 'e']);
        Some(TokenType::WHILE)
    } else if n == 4 && t[0] == 't' && t[1] == 'r' && t[2] == 'u' && t[3] == 'e' {
        assert(t@ =~= seq!['t', 'r', 'u', 'e']);
        Some(TokenType::TRUE)
    } else if n == 5 && t[0] == 'f' && t[1] == 'a' && t[2] == 'l' && t[3] == 's' && t[4] == 'e' {
        assert(t@ =~= seq!['f', 'a', 'l', 's', 'e']);
        Some(TokenType::FALSE)
    } else {
        proof {
            if t@ == seq!['i', 'f'] {
                assert(t@[0] == 'i' && t@[1] == 'f');
            }
            if t@ == seq!['n', 'i', 'l'] {
                assert(t@[0] == 'n' && t@[1] == 'i' && t@[2] == 'l');
            }
            if t@ == seq!['w', 'h', 'i', 'l', 'e'] {
                assert(t@[0] == 'w' && t@[1] == 'h' && t@[2] == 'i' && t@[3] == 'l' && t@[4] == 'e');
            }
            if t@ == seq!['t', 'r', 'u', 'e'] {
                assert(t@[0] == 't' && t@[1] == 'r' && t@[2] == 'u' && t@[3] == 'e');
            }
            if t@ == seq!['f', 'a', 'l', 's', 'e'] {
                assert(t@[0] == 'f' && t@[1] == 'a' && t@[2] == 'l' && t@[3] == 's' && t@[4] == 'e');
            }
        }
        None
    }
}

} // verus!
