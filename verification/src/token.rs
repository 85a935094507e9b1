//! The smallest units of the language: lexical atoms and the character
//! classes that delimit them.

use vstd::prelude::*;
use vstd::string::StrSliceExecFns;

verus! {

/// Mathematical image of a token: a binding carries its text as a
/// sequence of characters.
pub enum TokenModel {
    LParen,
    RParen,
    Lambda,
    Dot,
    Binding(Seq<char>),
}

/// A lexical atom. A binding borrows its text from the source string;
/// nothing is copied.
#[derive(Debug, Clone, Copy)]
pub enum Token<'src> {
    /// `(`
    LParen,
    /// `)`
    RParen,
    /// a lambda glyph or `\`
    Lambda,
    /// `.`
    Dot,
    /// a lowercase-led alphanumeric identifier
    Binding(&'src str),
}

impl<'src> View for Token<'src> {
    type V = TokenModel;

    open spec fn view(&self) -> TokenModel {
        match *self {
            Token::LParen => TokenModel::LParen,
            Token::RParen => TokenModel::RParen,
            Token::Lambda => TokenModel::Lambda,
            Token::Dot => TokenModel::Dot,
            Token::Binding(name) => TokenModel::Binding(name@),
        }
    }
}

impl<'src> PartialEq for Token<'src> {
    fn eq(&self, other: &Self) -> (r: bool) {
        match (self, other) {
            (Token::LParen, Token::LParen) => true,
            (Token::RParen, Token::RParen) => true,
            (Token::Lambda, Token::Lambda) => true,
            (Token::Dot, Token::Dot) => true,
            (Token::Binding(a), Token::Binding(b)) => str_eq(a, b),
            _ => false,
        }
    }
}

impl<'src> vstd::std_specs::cmp::PartialEqSpecImpl for Token<'src> {
    open spec fn obeys_eq_spec() -> bool {
        true
    }

    open spec fn eq_spec(&self, other: &Self) -> bool {
        self@ == other@
    }
}

/// Character-by-character string equality; two `&str` are equal exactly
/// when they view to the same character sequence.
pub fn str_eq(a: &str, b: &str) -> (r: bool)
    ensures
        r == (a@ == b@),
{
    let a_len = a.unicode_len();
    let b_len = b.unicode_len();
    if a_len != b_len {
        return false;
    }
    let mut i: usize = 0;
    while i < a_len
        invariant
            a_len == a@.len(),
            b_len == b@.len(),
            a_len == b_len,
            0 <= i <= a_len,
            forall|k: int| 0 <= k < i ==> a@[k] == b@[k],
        decreases a_len - i,
    {
        if a.get_char(i) != b.get_char(i) {
            return false;
        }
        i = i + 1;
    }
    proof {
        assert(a@ =~= b@);
    }
    true
}

/// Unicode whitespace, as the lexer skips it between tokens.
pub open spec fn spec_is_whitespace(c: char) -> bool {
    ||| ('\u{09}' <= c && c <= '\u{0d}')
    ||| c == ' '
    ||| c == '\u{85}'
    ||| c == '\u{a0}'
    ||| c == '\u{1680}'
    ||| ('\u{2000}' <= c && c <= '\u{200a}')
    ||| c == '\u{2028}'
    ||| c == '\u{2029}'
    ||| c == '\u{202f}'
    ||| c == '\u{205f}'
    ||| c == '\u{3000}'
}

#[verifier::when_used_as_spec(spec_is_whitespace)]
pub fn is_whitespace_char(c: char) -> (r: bool)
    ensures
        r == spec_is_whitespace(c),
{
    ('\u{09}' <= c && c <= '\u{0d}') || c == ' ' || c == '\u{85}' || c == '\u{a0}'
        || c == '\u{1680}' || ('\u{2000}' <= c && c <= '\u{200a}') || c == '\u{2028}'
        || c == '\u{2029}' || c == '\u{202f}' || c == '\u{205f}' || c == '\u{3000}'
}

/// An ASCII lowercase letter opens a binding.
pub open spec fn spec_is_lower(c: char) -> bool {
    'a' <= c && c <= 'z'
}

#[verifier::when_used_as_spec(spec_is_lower)]
pub fn is_lower_char(c: char) -> (r: bool)
    ensures
        r == spec_is_lower(c),
{
    'a' <= c && c <= 'z'
}

/// An ASCII alphanumeric character continues a binding.
pub open spec fn spec_is_alnum(c: char) -> bool {
    ('a' <= c && c <= 'z') || ('A' <= c && c <= 'Z') || ('0' <= c && c <= '9')
}

#[verifier::when_used_as_spec(spec_is_alnum)]
pub fn is_alnum_char(c: char) -> (r: bool)
    ensures
        r == spec_is_alnum(c),
{
    ('a' <= c && c <= 'z') || ('A' <= c && c <= 'Z') || ('0' <= c && c <= '9')
}

/// A lambda glyph — the Greek letter, or the CJK character that
/// mis-transcoded sources show in its place — or a backslash introduces
/// an abstraction.
pub open spec fn spec_is_lambda(c: char) -> bool {
    c == '\u{3bb}' || c == '\u{4f4d}' || c == '\\'
}

#[verifier::when_used_as_spec(spec_is_lambda)]
pub fn is_lambda_char(c: char) -> (r: bool)
    ensures
        r == spec_is_lambda(c),
{
    c == '\u{3bb}' || c == '\u{4f4d}' || c == '\\'
}

/// The text of a binding: non-empty, lowercase-led, alphanumeric throughout.
pub open spec fn is_identifier(name: Seq<char>) -> bool {
    &&& name.len() > 0
    &&& spec_is_lower(name[0])
    &&& forall|k: int| 0 <= k < name.len() ==> spec_is_alnum(#[trigger] name[k])
}

} // verus!
