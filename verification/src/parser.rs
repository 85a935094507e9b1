//! Conversion from a token stream to a `Term`.
//!
//! The mathematical model is a family of `spec_parse_*` functions over
//! `StreamModel`, one per grammar production; each executable method is
//! proved to return exactly what its model returns.

use vstd::prelude::*;

use crate::lexer::LexError;
use crate::lexer::Lexer;
use crate::lexer::StreamModel;
use crate::lexer::lex_from;
use crate::lexer::stream_cons;
use crate::term::Term;
use crate::term::TermModel;
use crate::token::Token;
use crate::token::TokenModel;

verus! {

/// How a parse can fail.
#[derive(Debug, PartialEq)]
pub enum ParseError<'src> {
    /// The input ran out while something more was required.
    UnexpectedEof,
    /// A token stood where the grammar allows none of its kind.
    UnexpectedToken(Token<'src>),
    /// The lexer stopped at a character it cannot read, at this offset.
    UnexpectedCharacter(char, usize),
}

/// Mathematical image of a parse failure.
pub enum ParseErrorModel {
    UnexpectedEof,
    UnexpectedToken(TokenModel),
    UnexpectedCharacter(char, int),
}

impl<'src> View for ParseError<'src> {
    type V = ParseErrorModel;

    open spec fn view(&self) -> ParseErrorModel {
        match self {
            ParseError::UnexpectedEof => ParseErrorModel::UnexpectedEof,
            ParseError::UnexpectedToken(t) => ParseErrorModel::UnexpectedToken(t@),
            ParseError::UnexpectedCharacter(c, at) => ParseErrorModel::UnexpectedCharacter(
                *c,
                *at as int,
            ),
        }
    }
}

/// Explicit return type for functions that do parsing, to distinguish them.
pub type ParseResult<'src> = Result<Term<'src>, ParseError<'src>>;

/// The head of the stream: its first token, or the failure that standing
/// at the end of the stream means — `UnexpectedEof` where the input is
/// exhausted, the unreadable character where lexing stopped early.
pub open spec fn stream_peek(st: StreamModel) -> Result<TokenModel, ParseErrorModel> {
    if st.toks.len() > 0 {
        Ok(st.toks[0])
    } else {
        match st.fault {
            Some(f) => Err(ParseErrorModel::UnexpectedCharacter(f.0, f.1)),
            None => Err(ParseErrorModel::UnexpectedEof),
        }
    }
}

/// The stream with its first `n` tokens consumed.
pub open spec fn stream_skip(st: StreamModel, n: int) -> StreamModel {
    StreamModel { toks: st.toks.skip(n), fault: st.fault }
}

/// Whether the head of the stream can begin an atom.
pub open spec fn stream_starts_atom(st: StreamModel) -> bool {
    st.toks.len() > 0 && (st.toks[0] is Binding || st.toks[0] is LParen)
}

/// LAMBDA BINDING DOT, then a full application-level term as the body.
pub open spec fn spec_parse_abstraction(st: StreamModel) -> Result<
    (TermModel, StreamModel),
    ParseErrorModel,
>
    decreases st.toks.len(), 0int,
{
    match stream_peek(st) {
        Ok(TokenModel::Lambda) => {
            let st1 = stream_skip(st, 1);
            match stream_peek(st1) {
                Ok(TokenModel::Binding(param)) => {
                    let st2 = stream_skip(st1, 1);
                    match stream_peek(st2) {
                        Ok(TokenModel::Dot) => {
                            let st3 = stream_skip(st2, 1);
                            match spec_parse_application(st3) {
                                Ok((body, st4)) => Ok(
                                    (
                                        TermModel::Abstraction {
                                            param,
                                            body: Box::new(body),
                                        },
                                        st4,
                                    ),
                                ),
                                Err(e) => Err(e),
                            }
                        }
                        Ok(t) => Err(ParseErrorModel::UnexpectedToken(t)),
                        Err(e) => Err(e),
                    }
                }
                Ok(t) => Err(ParseErrorModel::UnexpectedToken(t)),
                Err(e) => Err(e),
            }
        }
        Ok(t) => Err(ParseErrorModel::UnexpectedToken(t)),
        Err(e) => Err(e),
    }
}

/// LPAREN, a full application-level term, RPAREN.
pub open spec fn spec_parse_parenthesized(st: StreamModel) -> Result<
    (TermModel, StreamModel),
    ParseErrorModel,
>
    decreases st.toks.len(), 0int,
{
    match stream_peek(st) {
        Ok(TokenModel::LParen) => {
            let st1 = stream_skip(st, 1);
            match spec_parse_application(st1) {
                Ok((t, st2)) => match stream_peek(st2) {
                    Ok(TokenModel::RParen) => Ok((t, stream_skip(st2, 1))),
                    Ok(tok) => Err(ParseErrorModel::UnexpectedToken(tok)),
                    Err(e) => Err(e),
                },
                Err(e) => Err(e),
            }
        }
        Ok(t) => Err(ParseErrorModel::UnexpectedToken(t)),
        Err(e) => Err(e),
    }
}

/// A binding becomes a variable; a parenthesis or a lambda opens the
/// corresponding production; anything else cannot begin an atom.
pub open spec fn spec_parse_atom(st: StreamModel) -> Result<
    (TermModel, StreamModel),
    ParseErrorModel,
>
    decreases st.toks.len(), 1int,
{
    match stream_peek(st) {
        Ok(TokenModel::Binding(name)) => Ok((TermModel::Variable(name), stream_skip(st, 1))),
        Ok(TokenModel::LParen) => spec_parse_parenthesized(st),
        Ok(TokenModel::Lambda) => spec_parse_abstraction(st),
        Ok(t) => Err(ParseErrorModel::UnexpectedToken(t)),
        Err(e) => Err(e),
    }
}

/// One atom, then as many more as the lookahead allows, folded leftward.
pub open spec fn spec_parse_application(st: StreamModel) -> Result<
    (TermModel, StreamModel),
    ParseErrorModel,
>
    decreases st.toks.len(), 2int,
{
    match spec_parse_atom(st) {
        Ok((t, st1)) => {
            if st1.toks.len() < st.toks.len() {
                spec_parse_application_more(t, st1)
            } else {
                Ok((t, st1))
            }
        }
        Err(e) => Err(e),
    }
}

/// The left fold: while the lookahead can begin an atom, parse it and wrap
/// the accumulator in an application.
pub open spec fn spec_parse_application_more(acc: TermModel, st: StreamModel) -> Result<
    (TermModel, StreamModel),
    ParseErrorModel,
>
    decreases st.toks.len(), 2int,
{
    if stream_starts_atom(st) {
        match spec_parse_atom(st) {
            Ok((rhs, st2)) => {
                let folded = TermModel::Application { lhs: Box::new(acc), rhs: Box::new(rhs) };
                if st2.toks.len() < st.toks.len() {
                    spec_parse_application_more(folded, st2)
                } else {
                    Ok((folded, st2))
                }
            }
            Err(e) => Err(e),
        }
    } else {
        Ok((acc, st))
    }
}

/// A whole parse: one application-level term, then the stream must be
/// exhausted.
pub open spec fn spec_parse(st: StreamModel) -> Result<TermModel, ParseErrorModel> {
    match spec_parse_application(st) {
        Ok((t, st1)) => {
            if st1.toks.len() > 0 {
                Err(ParseErrorModel::UnexpectedToken(st1.toks[0]))
            } else {
                match st1.fault {
                    Some(f) => Err(ParseErrorModel::UnexpectedCharacter(f.0, f.1)),
                    None => Ok(t),
                }
            }
        }
        Err(e) => Err(e),
    }
}

/// Lexing and parsing a whole text, composed.
pub open spec fn parse_text(s: Seq<char>) -> Result<TermModel, ParseErrorModel> {
    spec_parse(lex_from(s, 0))
}

/// A successful parse of any production consumes at least one token and
/// leaves the stream's fault untouched.
pub proof fn lemma_spec_parse_consumes(st: StreamModel)
    ensures
        spec_parse_abstraction(st) matches Ok((t, st2)) ==> st2.toks.len() < st.toks.len()
            && st2.fault == st.fault,
        spec_parse_parenthesized(st) matches Ok((t, st2)) ==> st2.toks.len() < st.toks.len()
            && st2.fault == st.fault,
        spec_parse_atom(st) matches Ok((t, st2)) ==> st2.toks.len() < st.toks.len() && st2.fault
            == st.fault,
        spec_parse_application(st) matches Ok((t, st2)) ==> st2.toks.len() < st.toks.len()
            && st2.fault == st.fault,
    decreases st.toks.len(), 0int,
{
    if let Ok(tok) = stream_peek(st) {
        if tok is Lambda {
            let st1 = stream_skip(st, 1);
            if let Ok(t1) = stream_peek(st1) {
                if t1 is Binding {
                    let st2 = stream_skip(st1, 1);
                    if let Ok(t2) = stream_peek(st2) {
                        if t2 is Dot {
                            let st3 = stream_skip(st2, 1);
                            lemma_spec_parse_consumes(st3);
                        }
                    }
                }
            }
        }
        if tok is LParen {
            let st1 = stream_skip(st, 1);
            lemma_spec_parse_consumes(st1);
        }
    }
    if let Ok((t, st1)) = spec_parse_atom(st) {
        if st1.toks.len() < st.toks.len() {
            lemma_spec_parse_more_consumes(t, st1);
        }
    }
}

/// The application fold never grows the stream and leaves the fault
/// untouched.
pub proof fn lemma_spec_parse_more_consumes(acc: TermModel, st: StreamModel)
    ensures
        spec_parse_application_more(acc, st) matches Ok((t, st2)) ==> st2.toks.len()
            <= st.toks.len() && st2.fault == st.fault,
    decreases st.toks.len(), 1int,
{
    if stream_starts_atom(st) {
        lemma_spec_parse_consumes(st);
        if let Ok((rhs, st2)) = spec_parse_atom(st) {
            if st2.toks.len() < st.toks.len() {
                let folded = TermModel::Application { lhs: Box::new(acc), rhs: Box::new(rhs) };
                lemma_spec_parse_more_consumes(folded, st2);
            }
        }
    }
}

/// Consuming tokens keeps a well-formed stream well formed.
proof fn lemma_stream_skip_wf(st: StreamModel, n: int)
    requires
        crate::lexer::stream_wf(st),
        0 <= n <= st.toks.len(),
    ensures
        crate::lexer::stream_wf(stream_skip(st, n)),
{
    assert forall|k: int| 0 <= k < stream_skip(st, n).toks.len() implies #[trigger] stream_skip(
        st,
        n,
    ).toks[k] == st.toks[k + n] by {}
}

/// A well-formed stream parses to a well-formed term: every name in it
/// came out of a binding token, and those carry identifiers only.
pub proof fn lemma_spec_parse_wf(st: StreamModel)
    requires
        crate::lexer::stream_wf(st),
    ensures
        spec_parse_abstraction(st) matches Ok((t, st2)) ==> crate::term::wf_term(t)
            && crate::lexer::stream_wf(st2),
        spec_parse_parenthesized(st) matches Ok((t, st2)) ==> crate::term::wf_term(t)
            && crate::lexer::stream_wf(st2),
        spec_parse_atom(st) matches Ok((t, st2)) ==> crate::term::wf_term(t)
            && crate::lexer::stream_wf(st2),
        spec_parse_application(st) matches Ok((t, st2)) ==> crate::term::wf_term(t)
            && crate::lexer::stream_wf(st2),
    decreases st.toks.len(), 0int,
{
    lemma_spec_parse_consumes(st);
    if let Ok(tok) = stream_peek(st) {
        if tok is Lambda {
            let st1 = stream_skip(st, 1);
            lemma_stream_skip_wf(st, 1);
            if let Ok(t1) = stream_peek(st1) {
                if t1 is Binding {
                    assert(st1.toks[0] == st.toks[1]);
                    let st2 = stream_skip(st1, 1);
                    lemma_stream_skip_wf(st1, 1);
                    if let Ok(t2) = stream_peek(st2) {
                        if t2 is Dot {
                            let st3 = stream_skip(st2, 1);
                            lemma_stream_skip_wf(st2, 1);
                            lemma_spec_parse_wf(st3);
                        }
                    }
                }
            }
        }
        if tok is LParen {
            let st1 = stream_skip(st, 1);
            lemma_stream_skip_wf(st, 1);
            lemma_spec_parse_wf(st1);
            if let Ok((t, st2)) = spec_parse_application(st1) {
                if stream_peek(st2) matches Ok(TokenModel::RParen) {
                    lemma_spec_parse_consumes(st1);
                    lemma_stream_skip_wf(st2, 1);
                }
            }
        }
        if tok is Binding {
            lemma_stream_skip_wf(st, 1);
        }
    }
    if let Ok((t, st1)) = spec_parse_atom(st) {
        if st1.toks.len() < st.toks.len() {
            lemma_spec_parse_more_wf(t, st1);
        }
    }
}

/// The application fold keeps both the term and the stream well formed.
proof fn lemma_spec_parse_more_wf(acc: TermModel, st: StreamModel)
    requires
        crate::term::wf_term(acc),
        crate::lexer::stream_wf(st),
    ensures
        spec_parse_application_more(acc, st) matches Ok((t, st2)) ==> crate::term::wf_term(t)
            && crate::lexer::stream_wf(st2),
    decreases st.toks.len(), 1int,
{
    if stream_starts_atom(st) {
        lemma_spec_parse_wf(st);
        if let Ok((rhs, st2)) = spec_parse_atom(st) {
            if st2.toks.len() < st.toks.len() {
                let folded = TermModel::Application { lhs: Box::new(acc), rhs: Box::new(rhs) };
                lemma_spec_parse_more_wf(folded, st2);
            }
        }
    }
}

/// Whatever text parses, parses to a well-formed term.
pub proof fn lemma_parse_text_wf(s: Seq<char>)
    ensures
        parse_text(s) matches Ok(t) ==> crate::term::wf_term(t),
{
    crate::lexer::lemma_lex_from_wf(s, 0);
    lemma_spec_parse_wf(lex_from(s, 0));
}

/// Left-associativity: three atoms in a row fold leftward, the first two
/// applied to each other before the third.
pub proof fn lemma_left_associative(x: Seq<char>, y: Seq<char>, z: Seq<char>)
    ensures
        spec_parse(
            StreamModel {
                toks: seq![
                    TokenModel::Binding(x),
                    TokenModel::Binding(y),
                    TokenModel::Binding(z),
                ],
                fault: None,
            },
        ) == Ok::<TermModel, ParseErrorModel>(
            TermModel::Application {
                lhs: Box::new(
                    TermModel::Application {
                        lhs: Box::new(TermModel::Variable(x)),
                        rhs: Box::new(TermModel::Variable(y)),
                    },
                ),
                rhs: Box::new(TermModel::Variable(z)),
            },
        ),
{
    let st = StreamModel {
        toks: seq![TokenModel::Binding(x), TokenModel::Binding(y), TokenModel::Binding(z)],
        fault: None,
    };
    reveal_with_fuel(spec_parse_abstraction, 5);
    reveal_with_fuel(spec_parse_application, 5);
    reveal_with_fuel(spec_parse_atom, 5);
    reveal_with_fuel(spec_parse_application_more, 5);
    let st1 = stream_skip(st, 1);
    let st2 = stream_skip(st1, 1);
    let st3 = stream_skip(st2, 1);
    assert(st1.toks =~= seq![TokenModel::Binding(y), TokenModel::Binding(z)]);
    assert(st2.toks =~= seq![TokenModel::Binding(z)]);
    assert(st3.toks =~= Seq::<TokenModel>::empty());
}

/// Greediness of an abstraction's body: the body takes in the whole
/// application chain to its right, rather than the abstraction closing at
/// its first atom.
pub proof fn lemma_abstraction_body_greedy(x: Seq<char>, y: Seq<char>)
    ensures
        spec_parse(
            StreamModel {
                toks: seq![
                    TokenModel::Lambda,
                    TokenModel::Binding(x),
                    TokenModel::Dot,
                    TokenModel::Binding(x),
                    TokenModel::Binding(y),
                ],
                fault: None,
            },
        ) == Ok::<TermModel, ParseErrorModel>(
            TermModel::Abstraction {
                param: x,
                body: Box::new(
                    TermModel::Application {
                        lhs: Box::new(TermModel::Variable(x)),
                        rhs: Box::new(TermModel::Variable(y)),
                    },
                ),
            },
        ),
{
    let st = StreamModel {
        toks: seq![
            TokenModel::Lambda,
            TokenModel::Binding(x),
            TokenModel::Dot,
            TokenModel::Binding(x),
            TokenModel::Binding(y),
        ],
        fault: None,
    };
    reveal_with_fuel(spec_parse_abstraction, 5);
    reveal_with_fuel(spec_parse_application, 5);
    reveal_with_fuel(spec_parse_atom, 5);
    reveal_with_fuel(spec_parse_application_more, 5);
    let st1 = stream_skip(st, 1);
    let st2 = stream_skip(st1, 1);
    let st3 = stream_skip(st2, 1);
    let st4 = stream_skip(st3, 1);
    let st5 = stream_skip(st4, 1);
    assert(st1.toks =~= seq![
        TokenModel::Binding(x),
        TokenModel::Dot,
        TokenModel::Binding(x),
        TokenModel::Binding(y),
    ]);
    assert(st2.toks =~= seq![
        TokenModel::Dot,
        TokenModel::Binding(x),
        TokenModel::Binding(y),
    ]);
    assert(st3.toks =~= seq![TokenModel::Binding(x), TokenModel::Binding(y)]);
    assert(st4.toks =~= seq![TokenModel::Binding(y)]);
    assert(st5.toks =~= Seq::<TokenModel>::empty());
}

/// What one step of the parser means: the returned term and the tokens
/// consumed are exactly those of the model; a failure is the model's
/// failure.
pub open spec fn parse_step_post<'src>(
    after: StreamModel,
    expect: Result<(TermModel, StreamModel), ParseErrorModel>,
    r: ParseResult<'src>,
) -> bool {
    match expect {
        Ok((tm, stm)) => r matches Ok(t) && t@ == tm && after == stm,
        Err(em) => r matches Err(e) && e@ == em,
    }
}

/// Process all tokens of the provided lexer, one token of lookahead held.
pub struct Parser<'src> {
    tokens: Lexer<'src>,
    current_token: Result<Option<Token<'src>>, LexError>,
}

impl<'src> Parser<'src> {
    /// The lookahead agrees with the lexer: past the end of the input, or
    /// past an unreadable character, the lexer has nothing more to give.
    pub closed spec fn wf(self) -> bool {
        &&& self.tokens.wf()
        &&& match self.current_token {
            Ok(Some(_)) => true,
            Ok(None) => self.tokens.stream().toks.len() == 0 && self.tokens.stream().fault
                is None,
            Err(e) => self.tokens.stream().toks.len() == 0 && self.tokens.stream().fault
                == Some(e@),
        }
    }

    /// The tokens still to come, the lookahead included.
    pub closed spec fn stream(self) -> StreamModel {
        match self.current_token {
            Ok(Some(t)) => stream_cons(t@, self.tokens.stream()),
            Ok(None) => StreamModel { toks: seq![], fault: None },
            Err(e) => StreamModel { toks: seq![], fault: Some(e@) },
        }
    }

    pub fn new(mut tokens: Lexer<'src>) -> (r: Parser<'src>)
        requires
            tokens.wf(),
        ensures
            r.wf(),
            r.stream() == lex_from(tokens.src(), tokens.at()),
    {
        let ghost entry_stream = tokens.stream();
        let current_token = tokens.next_token();
        proof {
            match current_token {
                Ok(Some(t)) => {
                    assert(stream_cons(t@, crate::lexer::stream_tail(entry_stream)).toks
                        =~= entry_stream.toks);
                }
                _ => {
                    assert(entry_stream.toks =~= Seq::<TokenModel>::empty());
                }
            }
        }
        Parser { tokens, current_token }
    }

    /// Try to convert the parser's provided tokens into some `Term`,
    /// requiring the whole stream to be consumed.
    pub fn parse(&mut self) -> (r: ParseResult<'src>)
        requires
            old(self).wf(),
        ensures
            final(self).wf(),
            match spec_parse(old(self).stream()) {
                Ok(tm) => r matches Ok(t) && t@ == tm,
                Err(em) => r matches Err(e) && e@ == em,
            },
    {
        let expr = match self.parse_application() {
            Ok(t) => t,
            Err(e) => {
                return Err(e);
            }
        };
        match self.eof() {
            Ok(()) => Ok(expr),
            Err(e) => Err(e),
        }
    }

    fn parse_abstraction(&mut self) -> (r: ParseResult<'src>)
        requires
            old(self).wf(),
        ensures
            final(self).wf(),
            parse_step_post(
                final(self).stream(),
                spec_parse_abstraction(old(self).stream()),
                r,
            ),
        decreases old(self).stream().toks.len(), 0int,
    {
        match self.eat(Token::Lambda) {
            Ok(()) => {}
            Err(e) => {
                return Err(e);
            }
        }
        let param = match self.eat_binding() {
            Ok(p) => p,
            Err(e) => {
                return Err(e);
            }
        };
        match self.eat(Token::Dot) {
            Ok(()) => {}
            Err(e) => {
                return Err(e);
            }
        }
        let body = match self.parse_application() {
            Ok(b) => b,
            Err(e) => {
                return Err(e);
            }
        };
        Ok(Term::Abstraction { param, body: Box::new(body) })
    }

    fn parse_parenthesized(&mut self) -> (r: ParseResult<'src>)
        requires
            old(self).wf(),
        ensures
            final(self).wf(),
            parse_step_post(
                final(self).stream(),
                spec_parse_parenthesized(old(self).stream()),
                r,
            ),
        decreases old(self).stream().toks.len(), 0int,
    {
        match self.eat(Token::LParen) {
            Ok(()) => {}
            Err(e) => {
                return Err(e);
            }
        }
        let term = match self.parse_application() {
            Ok(t) => t,
            Err(e) => {
                return Err(e);
            }
        };
        match self.eat(Token::RParen) {
            Ok(()) => {}
            Err(e) => {
                return Err(e);
            }
        }
        Ok(term)
    }

    fn parse_atom(&mut self) -> (r: ParseResult<'src>)
        requires
            old(self).wf(),
        ensures
            final(self).wf(),
            parse_step_post(final(self).stream(), spec_parse_atom(old(self).stream()), r),
        decreases old(self).stream().toks.len(), 1int,
    {
        match self.peek() {
            Ok(Some(Token::Binding(_))) => {
                match self.eat_binding() {
                    Ok(name) => Ok(Term::Variable(name)),
                    Err(e) => Err(e),
                }
            }
            Ok(Some(Token::LParen)) => self.parse_parenthesized(),
            Ok(Some(Token::Lambda)) => self.parse_abstraction(),
            Ok(Some(tok)) => Err(ParseError::UnexpectedToken(tok)),
            Ok(None) => Err(ParseError::UnexpectedEof),
            Err(LexError::UnexpectedCharacter(c, at)) => Err(
                ParseError::UnexpectedCharacter(c, at),
            ),
        }
    }

    fn parse_application(&mut self) -> (r: ParseResult<'src>)
        requires
            old(self).wf(),
        ensures
            final(self).wf(),
            parse_step_post(
                final(self).stream(),
                spec_parse_application(old(self).stream()),
                r,
            ),
        decreases old(self).stream().toks.len(), 2int,
    {
        let mut term = match self.parse_atom() {
            Ok(t) => t,
            Err(e) => {
                return Err(e);
            }
        };
        proof {
            lemma_spec_parse_consumes(old(self).stream());
        }
        // keep parsing while the next token can start an atom
        while matches!(self.peek(), Ok(Some(Token::Binding(_))) | Ok(Some(Token::LParen)))
            invariant
                self.wf(),
                self.stream().toks.len() < old(self).stream().toks.len(),
                spec_parse_application(old(self).stream()) == spec_parse_application_more(
                    term@,
                    self.stream(),
                ),
            decreases self.stream().toks.len(),
        {
            let ghost st_here = self.stream();
            let rhs = match self.parse_atom() {
                Ok(t) => t,
                Err(e) => {
                    return Err(e);
                }
            };
            proof {
                lemma_spec_parse_consumes(st_here);
            }
            term = Term::Application { lhs: Box::new(term), rhs: Box::new(rhs) };
        }
        Ok(term)
    }

    /// Consume the rest of the stream, requiring it to be empty.
    fn eof(&mut self) -> (r: Result<(), ParseError<'src>>)
        requires
            old(self).wf(),
        ensures
            final(self).wf(),
            match stream_peek(old(self).stream()) {
                Ok(tm) => r matches Err(e) && e@ == ParseErrorModel::UnexpectedToken(tm),
                Err(ParseErrorModel::UnexpectedEof) => r matches Ok(u) && u == (),
                Err(em) => r matches Err(e) && e@ == em,
            },
    {
        match self.next() {
            Ok(Some(tok)) => Err(ParseError::UnexpectedToken(tok)),
            Ok(None) => Ok(()),
            Err(LexError::UnexpectedCharacter(c, at)) => Err(
                ParseError::UnexpectedCharacter(c, at),
            ),
        }
    }

    /// The lookahead, untouched.
    fn peek(&self) -> (r: Result<Option<Token<'src>>, LexError>)
        ensures
            r == self.current_token,
            match r {
                Ok(Some(t)) => stream_peek(self.stream()) == Ok::<TokenModel, ParseErrorModel>(
                    t@,
                ),
                Ok(None) => stream_peek(self.stream()) == Err::<TokenModel, ParseErrorModel>(
                    ParseErrorModel::UnexpectedEof,
                ),
                Err(e) => stream_peek(self.stream()) == Err::<TokenModel, ParseErrorModel>(
                    ParseErrorModel::UnexpectedCharacter(e@.0, e@.1),
                ),
            },
    {
        self.current_token
    }

    /// Take the lookahead and pull the next token from the lexer.
    fn next(&mut self) -> (r: Result<Option<Token<'src>>, LexError>)
        requires
            old(self).wf(),
        ensures
            final(self).wf(),
            crate::lexer::next_token_post(old(self).stream(), final(self).stream(), r),
    {
        let token = self.current_token;
        self.current_token = self.tokens.next_token();
        proof {
            if let Ok(Some(t)) = token {
                assert(self.stream().toks =~= crate::lexer::stream_tail(old(self).stream()).toks);
            }
        }
        token
    }

    /// Take the lookahead, an absent token being a failure.
    fn next_eof(&mut self) -> (r: Result<Token<'src>, ParseError<'src>>)
        requires
            old(self).wf(),
        ensures
            final(self).wf(),
            match stream_peek(old(self).stream()) {
                Ok(tm) => r matches Ok(t) && t@ == tm && final(self).stream() == stream_skip(
                    old(self).stream(),
                    1,
                ),
                Err(em) => r matches Err(e) && e@ == em,
            },
    {
        let r = match self.next() {
            Ok(Some(tok)) => Ok(tok),
            Ok(None) => Err(ParseError::UnexpectedEof),
            Err(LexError::UnexpectedCharacter(c, at)) => Err(
                ParseError::UnexpectedCharacter(c, at),
            ),
        };
        proof {
            if stream_peek(old(self).stream()) matches Ok(tm) {
                assert(final(self).stream().toks =~= stream_skip(old(self).stream(), 1).toks);
            }
        }
        r
    }

    /// Take the lookahead and require it to be the expected token.
    fn eat(&mut self, expected: Token<'src>) -> (r: Result<(), ParseError<'src>>)
        requires
            old(self).wf(),
        ensures
            final(self).wf(),
            match stream_peek(old(self).stream()) {
                Ok(tm) => if tm == expected@ {
                    r matches Ok(u) && u == () && final(self).stream() == stream_skip(
                        old(self).stream(),
                        1,
                    )
                } else {
                    r matches Err(e) && e@ == ParseErrorModel::UnexpectedToken(tm)
                },
                Err(em) => r matches Err(e) && e@ == em,
            },
    {
        let actual = match self.next_eof() {
            Ok(t) => t,
            Err(e) => {
                return Err(e);
            }
        };
        if actual == expected {
            Ok(())
        } else {
            Err(ParseError::UnexpectedToken(actual))
        }
    }

    /// Take the lookahead and require it to be a binding, yielding its
    /// text.
    fn eat_binding(&mut self) -> (r: Result<&'src str, ParseError<'src>>)
        requires
            old(self).wf(),
        ensures
            final(self).wf(),
            match stream_peek(old(self).stream()) {
                Ok(TokenModel::Binding(name)) => r matches Ok(s) && s@ == name
                    && final(self).stream() == stream_skip(old(self).stream(), 1),
                Ok(tm) => r matches Err(e) && e@ == ParseErrorModel::UnexpectedToken(tm),
                Err(em) => r matches Err(e) && e@ == em,
            },
    {
        match self.next_eof() {
            Ok(Token::Binding(name)) => Ok(name),
            Ok(other) => Err(ParseError::UnexpectedToken(other)),
            Err(e) => Err(e),
        }
    }
}

} // verus!
