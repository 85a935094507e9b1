//! Conversion from source text to a lazy sequence of tokens.
//!
//! The mathematical model is `lex_from`: the tokens that lexing yields from
//! a position onward, together with the first unreadable character, if any.

use vstd::prelude::*;
use vstd::string::StrSliceExecFns;

use crate::token::Token;
use crate::token::TokenModel;
use crate::token::is_identifier;
use crate::token::is_alnum_char;
use crate::token::is_lambda_char;
use crate::token::is_lower_char;
use crate::token::is_whitespace_char;
use crate::token::spec_is_alnum;
use crate::token::spec_is_lambda;
use crate::token::spec_is_lower;
use crate::token::spec_is_whitespace;

verus! {

/// A character the lexer cannot read, with its character offset in the
/// source.
#[derive(Debug, Clone, Copy, PartialEq, Eq)]
pub enum LexError {
    UnexpectedCharacter(char, usize),
}

impl View for LexError {
    type V = (char, int);

    open spec fn view(&self) -> (char, int) {
        match *self {
            LexError::UnexpectedCharacter(c, at) => (c, at as int),
        }
    }
}

/// What lexing yields from some position onward: the tokens up to the end
/// of the input or up to the first unreadable character, and that
/// character with its position, if there is one.
pub struct StreamModel {
    pub toks: Seq<TokenModel>,
    pub fault: Option<(char, int)>,
}

/// The position of the first non-whitespace character at or after `i`.
pub open spec fn ws_end(s: Seq<char>, i: int) -> int
    decreases s.len() - i,
{
    if 0 <= i < s.len() && spec_is_whitespace(s[i]) {
        ws_end(s, i + 1)
    } else {
        i
    }
}

/// The position of the first non-alphanumeric character at or after `i`.
pub open spec fn binding_end(s: Seq<char>, i: int) -> int
    decreases s.len() - i,
{
    if 0 <= i < s.len() && spec_is_alnum(s[i]) {
        binding_end(s, i + 1)
    } else {
        i
    }
}

pub proof fn lemma_ws_end_bounds(s: Seq<char>, i: int)
    ensures
        i <= ws_end(s, i),
        i <= s.len() ==> ws_end(s, i) <= s.len(),
    decreases s.len() - i,
{
    if 0 <= i < s.len() && spec_is_whitespace(s[i]) {
        lemma_ws_end_bounds(s, i + 1);
    }
}

/// Skipping whitespace lands on a position that skipping leaves alone.
pub proof fn lemma_ws_end_idempotent(s: Seq<char>, i: int)
    ensures
        ws_end(s, ws_end(s, i)) == ws_end(s, i),
    decreases s.len() - i,
{
    if 0 <= i < s.len() && spec_is_whitespace(s[i]) {
        lemma_ws_end_idempotent(s, i + 1);
    }
}

pub proof fn lemma_binding_end_bounds(s: Seq<char>, i: int)
    ensures
        i <= binding_end(s, i),
        i <= s.len() ==> binding_end(s, i) <= s.len(),
    decreases s.len() - i,
{
    if 0 <= i < s.len() && spec_is_alnum(s[i]) {
        lemma_binding_end_bounds(s, i + 1);
    }
}

/// A stream extended at the front by one token.
pub open spec fn stream_cons(t: TokenModel, rest: StreamModel) -> StreamModel {
    StreamModel { toks: seq![t] + rest.toks, fault: rest.fault }
}

/// A stream with its first token removed.
pub open spec fn stream_tail(st: StreamModel) -> StreamModel {
    StreamModel { toks: st.toks.drop_first(), fault: st.fault }
}

/// Lexing from position `i` of `s`: skip whitespace, then read one token
/// and continue, stop at the end of the input, or stop at an unreadable
/// character.
pub open spec fn lex_from(s: Seq<char>, i: int) -> StreamModel
    decreases s.len() - i,
        via lex_from_dec
{
    let j = ws_end(s, i);
    if !(0 <= j < s.len()) {
        StreamModel { toks: seq![], fault: None }
    } else if s[j] == '(' {
        stream_cons(TokenModel::LParen, lex_from(s, j + 1))
    } else if s[j] == ')' {
        stream_cons(TokenModel::RParen, lex_from(s, j + 1))
    } else if spec_is_lambda(s[j]) {
        stream_cons(TokenModel::Lambda, lex_from(s, j + 1))
    } else if s[j] == '.' {
        stream_cons(TokenModel::Dot, lex_from(s, j + 1))
    } else if spec_is_lower(s[j]) {
        let k = binding_end(s, j);
        if j < k {
            stream_cons(TokenModel::Binding(s.subrange(j, k)), lex_from(s, k))
        } else {
            StreamModel { toks: seq![], fault: None }
        }
    } else {
        StreamModel { toks: seq![], fault: Some((s[j], j)) }
    }
}

#[via_fn]
proof fn lex_from_dec(s: Seq<char>, i: int) {
    lemma_ws_end_bounds(s, i);
    let j = ws_end(s, i);
    if 0 <= j < s.len() {
        lemma_binding_end_bounds(s, j);
    }
}

/// Every binding token of the stream carries a lexically valid
/// identifier.
pub open spec fn stream_wf(st: StreamModel) -> bool {
    forall|k: int|
        0 <= k < st.toks.len() ==> ((#[trigger] st.toks[k]) matches TokenModel::Binding(name)
            ==> is_identifier(name))
}

/// Characters strictly inside a maximal alphanumeric run are
/// alphanumeric.
proof fn lemma_binding_end_alnum(s: Seq<char>, i: int, m: int)
    requires
        0 <= i <= m < binding_end(s, i),
    ensures
        spec_is_alnum(s[m]),
    decreases m - i,
{
    lemma_binding_end_bounds(s, i + 1);
    if m > i {
        lemma_binding_end_alnum(s, i + 1, m);
    }
}

/// Whatever the source text, the lexer's stream is well formed: a binding
/// token always carries an identifier.
pub proof fn lemma_lex_from_wf(s: Seq<char>, i: int)
    ensures
        stream_wf(lex_from(s, i)),
    decreases s.len() - i,
{
    lemma_ws_end_bounds(s, i);
    let j = ws_end(s, i);
    if 0 <= j < s.len() {
        lemma_binding_end_bounds(s, j);
        let c = s[j];
        if c == '(' || c == ')' || spec_is_lambda(c) || c == '.' {
            lemma_lex_from_wf(s, j + 1);
            let rest = lex_from(s, j + 1);
            assert forall|k: int| 0 < k < lex_from(s, i).toks.len() implies #[trigger] lex_from(
                s,
                i,
            ).toks[k] == rest.toks[k - 1] by {}
        } else if spec_is_lower(c) {
            let k0 = binding_end(s, j);
            let name = s.subrange(j, k0);
            assert(j < k0) by {
                lemma_binding_end_bounds(s, j + 1);
            }
            assert(is_identifier(name)) by {
                assert(name[0] == s[j]);
                assert forall|m: int| 0 <= m < name.len() implies spec_is_alnum(
                    #[trigger] name[m],
                ) by {
                    assert(name[m] == s[j + m]);
                    if m > 0 {
                        lemma_binding_end_alnum(s, j, j + m);
                    }
                }
            }
            lemma_lex_from_wf(s, k0);
            let rest = lex_from(s, k0);
            assert forall|k: int| 0 < k < lex_from(s, i).toks.len() implies #[trigger] lex_from(
                s,
                i,
            ).toks[k] == rest.toks[k - 1] by {}
        }
    }
}

/// What a successful `next_token` call means: the returned token heads the
/// stream and the lexer moves past it; at the end of the input or at an
/// unreadable character the lexer stands still.
pub open spec fn next_token_post<'src>(
    before: StreamModel,
    after: StreamModel,
    r: Result<Option<Token<'src>>, LexError>,
) -> bool {
    match r {
        Ok(Some(t)) => before.toks.len() > 0 && t@ == before.toks[0] && after == stream_tail(
            before,
        ),
        Ok(None) => before.toks.len() == 0 && before.fault is None && after == before,
        Err(e) => before.toks.len() == 0 && before.fault == Some(e@) && after == before,
    }
}

/// An iterator over lambda calculus tokens, holding a borrow of the source
/// text and a cursor into it.
pub struct Lexer<'src> {
    input: &'src str,
    pos: usize,
    len: usize,
}

impl<'src> Lexer<'src> {
    /// The source text, as a sequence of characters.
    pub closed spec fn src(self) -> Seq<char> {
        self.input@
    }

    /// The cursor, as a character offset into the source.
    pub closed spec fn at(self) -> int {
        self.pos as int
    }

    /// The cursor lies within the source and the cached length is true.
    pub closed spec fn wf(self) -> bool {
        self.len == self.input@.len() && self.pos <= self.len
    }

    /// The tokens still to come.
    pub open spec fn stream(self) -> StreamModel {
        lex_from(self.src(), self.at())
    }

    pub fn new(input: &'src str) -> (r: Lexer<'src>)
        ensures
            r.wf(),
            r.src() == input@,
            r.at() == 0,
    {
        let len = input.unicode_len();
        Lexer { input, pos: 0, len }
    }

    /// The next token of the source, `Ok(None)` at the end of the input,
    /// or the first unreadable character as an error.
    pub fn next_token(&mut self) -> (r: Result<Option<Token<'src>>, LexError>)
        requires
            old(self).wf(),
        ensures
            final(self).wf(),
            final(self).src() == old(self).src(),
            next_token_post(old(self).stream(), final(self).stream(), r),
    {
        self.skip_whitespace();
        proof {
            lemma_ws_end_idempotent(old(self).src(), old(self).at());
            assert(old(self).stream() == lex_from(self.src(), self.at()));
        }
        match self.peek_char() {
            None => Ok(None),
            Some(c) => {
                let ghost j = self.at();
                if c == '(' {
                    self.pos = self.pos + 1;
                    proof {
                        assert(final(self).stream().toks =~= stream_tail(old(self).stream()).toks);
                    }
                    Ok(Some(Token::LParen))
                } else if c == ')' {
                    self.pos = self.pos + 1;
                    proof {
                        assert(final(self).stream().toks =~= stream_tail(old(self).stream()).toks);
                    }
                    Ok(Some(Token::RParen))
                } else if is_lambda_char(c) {
                    self.pos = self.pos + 1;
                    proof {
                        assert(final(self).stream().toks =~= stream_tail(old(self).stream()).toks);
                    }
                    Ok(Some(Token::Lambda))
                } else if c == '.' {
                    self.pos = self.pos + 1;
                    proof {
                        assert(final(self).stream().toks =~= stream_tail(old(self).stream()).toks);
                    }
                    Ok(Some(Token::Dot))
                } else if is_lower_char(c) {
                    let tok = self.read_binding();
                    proof {
                        assert(j < binding_end(self.src(), j)) by {
                            lemma_binding_end_bounds(self.src(), j + 1);
                        }
                        assert(final(self).stream().toks =~= stream_tail(old(self).stream()).toks);
                    }
                    Ok(Some(tok))
                } else {
                    Err(LexError::UnexpectedCharacter(c, self.pos))
                }
            }
        }
    }

    /// Advance the cursor past any whitespace.
    fn skip_whitespace(&mut self)
        requires
            old(self).wf(),
        ensures
            final(self).wf(),
            final(self).src() == old(self).src(),
            final(self).at() == ws_end(old(self).src(), old(self).at()),
    {
        while self.pos < self.len && is_whitespace_char(self.input.get_char(self.pos))
            invariant
                self.wf(),
                self.src() == old(self).src(),
                ws_end(self.src(), old(self).at()) == ws_end(self.src(), self.at()),
            decreases self.src().len() - self.at(),
        {
            self.pos = self.pos + 1;
        }
    }

    /// Read a binding: the maximal alphanumeric run at the cursor.
    fn read_binding(&mut self) -> (r: Token<'src>)
        requires
            old(self).wf(),
            old(self).at() < old(self).src().len(),
            spec_is_alnum(old(self).src()[old(self).at()]),
        ensures
            final(self).wf(),
            final(self).src() == old(self).src(),
            final(self).at() == binding_end(old(self).src(), old(self).at()),
            r@ == TokenModel::Binding(
                old(self).src().subrange(
                    old(self).at(),
                    binding_end(old(self).src(), old(self).at()),
                ),
            ),
    {
        let start = self.pos;
        while self.pos < self.len && is_alnum_char(self.input.get_char(self.pos))
            invariant
                self.wf(),
                self.src() == old(self).src(),
                start <= self.pos,
                binding_end(self.src(), start as int) == binding_end(self.src(), self.at()),
            decreases self.src().len() - self.at(),
        {
            self.pos = self.pos + 1;
        }
        let text = self.input.substring_char(start, self.pos);
        Token::Binding(text)
    }

    /// The character at the cursor, if the cursor is not at the end.
    fn peek_char(&self) -> (r: Option<char>)
        requires
            self.wf(),
        ensures
            r == if self.at() < self.src().len() {
                Some(self.src()[self.at()])
            } else {
                None::<char>
            },
    {
        if self.pos < self.len {
            Some(self.input.get_char(self.pos))
        } else {
            None
        }
    }
}

} // verus!
