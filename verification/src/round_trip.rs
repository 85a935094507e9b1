//! The printed form of a term reads back as the same term: the display
//! grammar, the lexer, and the parser agree.
//!
//! The proof goes in two halves. Lexing the printed text yields exactly
//! the token sequence `term_tokens` of the term, with no unreadable
//! character; parsing that token sequence yields the term back.

use vstd::prelude::*;

use crate::interpreter::eval_model;
use crate::interpreter::evaluates_to;
use crate::interpreter::lemma_eval_wf;
use crate::lexer::StreamModel;
use crate::lexer::binding_end;
use crate::lexer::lex_from;
use crate::lexer::lemma_ws_end_idempotent;
use crate::lexer::stream_cons;
use crate::lexer::ws_end;
use crate::parser::ParseErrorModel;
use crate::parser::lemma_parse_text_wf;
use crate::parser::parse_text;
use crate::parser::spec_parse;
use crate::parser::spec_parse_application;
use crate::parser::spec_parse_application_more;
use crate::parser::spec_parse_atom;
use crate::parser::stream_peek;
use crate::parser::stream_skip;
use crate::parser::stream_starts_atom;
use crate::term::TermModel;
use crate::term::display_atom_of;
use crate::term::display_of;
use crate::term::wf_term;
use crate::token::TokenModel;
use crate::token::is_identifier;
use crate::token::spec_is_alnum;
use crate::token::spec_is_lambda;
use crate::token::spec_is_lower;
use crate::token::spec_is_whitespace;

verus! {

/// The tokens a term prints to, at application level.
pub open spec fn term_tokens(t: TermModel) -> Seq<TokenModel>
    decreases t, 0int,
{
    match t {
        TermModel::Variable(name) => seq![TokenModel::Binding(name)],
        TermModel::Abstraction { param, body } => seq![
            TokenModel::Lambda,
            TokenModel::Binding(param),
            TokenModel::Dot,
        ] + term_tokens(*body),
        TermModel::Application { lhs, rhs } => atom_tokens(*lhs) + atom_tokens(*rhs),
    }
}

/// The tokens a term prints to when it stands as one side of an
/// application.
pub open spec fn atom_tokens(t: TermModel) -> Seq<TokenModel>
    decreases t, 1int,
{
    match t {
        TermModel::Variable(name) => seq![TokenModel::Binding(name)],
        _ => seq![TokenModel::LParen] + term_tokens(t) + seq![TokenModel::RParen],
    }
}

/// The characters of `sub` stand in `s` beginning at position `i`.
spec fn occurs_at(s: Seq<char>, i: int, sub: Seq<char>) -> bool {
    &&& 0 <= i
    &&& i + sub.len() <= s.len()
    &&& forall|k: int| 0 <= k < sub.len() ==> s[i + k] == #[trigger] sub[k]
}

/// An occurrence of a concatenation splits into occurrences of its parts.
proof fn lemma_occurs_split(s: Seq<char>, i: int, a: Seq<char>, b: Seq<char>)
    requires
        occurs_at(s, i, a + b),
    ensures
        occurs_at(s, i, a),
        occurs_at(s, i + a.len(), b),
{
    assert forall|k: int| 0 <= k < a.len() implies s[i + k] == #[trigger] a[k] by {
        assert((a + b)[k] == a[k]);
    }
    assert forall|k: int| 0 <= k < b.len() implies s[i + a.len() + k] == #[trigger] b[k] by {
        assert((a + b)[a.len() + k] == b[k]);
    }
}

/// One character of an occurrence, read off in `s`.
proof fn lemma_occurs_index(s: Seq<char>, i: int, sub: Seq<char>, k: int)
    requires
        occurs_at(s, i, sub),
        0 <= k < sub.len(),
    ensures
        s[i + k] == sub[k],
{
}

/// The exact reach of a maximal alphanumeric run.
proof fn lemma_binding_end_exact(s: Seq<char>, i: int, j: int)
    requires
        0 <= i <= j <= s.len(),
        forall|m: int| i <= m < j ==> spec_is_alnum(#[trigger] s[m]),
        j == s.len() || !spec_is_alnum(s[j]),
    ensures
        binding_end(s, i) == j,
    decreases j - i,
{
    if i < j {
        lemma_binding_end_exact(s, i + 1, j);
    }
}

/// Lexing at an identifier with a non-alphanumeric boundary yields one
/// binding token and continues past it.
proof fn lemma_lex_binding(s: Seq<char>, i: int, name: Seq<char>, j: int)
    requires
        is_identifier(name),
        occurs_at(s, i, name),
        j == i + name.len(),
        j == s.len() || !spec_is_alnum(s[j]),
    ensures
        lex_from(s, i) == stream_cons(TokenModel::Binding(name), lex_from(s, j)),
{
    assert(s[i] == name[0]);
    assert(spec_is_lower(s[i]));
    assert(!spec_is_whitespace(s[i]));
    assert(ws_end(s, i) == i);
    assert forall|m: int| i <= m < j implies spec_is_alnum(#[trigger] s[m]) by {
        assert(s[m] == name[m - i]);
    }
    lemma_binding_end_exact(s, i, j);
    assert(s.subrange(i, j) =~= name) by {
        assert forall|k: int| 0 <= k < name.len() implies s.subrange(i, j)[k] == name[k] by {
            assert(s[i + k] == name[k]);
        }
    }
}

/// Lexing is unmoved by standing on whitespace: it skips to the same
/// place either way.
proof fn lemma_lex_at_ws(s: Seq<char>, i: int)
    ensures
        lex_from(s, i) == lex_from(s, ws_end(s, i)),
{
    lemma_ws_end_idempotent(s, i);
}

/// What a well-formed term's printed forms look like from the front: they
/// are non-empty and begin with no whitespace and no alphanumeric
/// character a preceding identifier could swallow — a lambda glyph, an
/// opening parenthesis, or the lowercase head of a fresh identifier.
proof fn lemma_display_shape(t: TermModel)
    requires
        wf_term(t),
    ensures
        display_of(t).len() > 0,
        !spec_is_whitespace(display_of(t)[0]),
        display_atom_of(t).len() > 0,
        !spec_is_whitespace(display_atom_of(t)[0]),
    decreases t,
{
    match t {
        TermModel::Variable(name) => {
            assert(display_of(t)[0] == name[0]);
        }
        TermModel::Abstraction { param, body } => {
            assert(display_of(t)[0] == '\u{3bb}');
            assert(display_atom_of(t)[0] == '(');
        }
        TermModel::Application { lhs, rhs } => {
            lemma_display_shape(*lhs);
            assert(display_of(t)[0] == display_atom_of(*lhs)[0]);
            assert(display_atom_of(t)[0] == '(');
        }
    }
}

/// Lexing the printed form of a well-formed term, wherever it stands in a
/// larger text, yields the term's tokens and then whatever follows — as
/// long as the following character cannot extend a trailing identifier.
proof fn lemma_lex_display(t: TermModel, s: Seq<char>, i: int, j: int)
    requires
        wf_term(t),
        occurs_at(s, i, display_of(t)),
        j == i + display_of(t).len(),
        j == s.len() || !spec_is_alnum(s[j]),
    ensures
        lex_from(s, i) == (StreamModel {
            toks: term_tokens(t) + lex_from(s, j).toks,
            fault: lex_from(s, j).fault,
        }),
    decreases t, 0int,
{
    match t {
        TermModel::Variable(name) => {
            lemma_lex_binding(s, i, name, j);
            assert((seq![TokenModel::Binding(name)] + lex_from(s, j).toks) =~= stream_cons(
                TokenModel::Binding(name),
                lex_from(s, j),
            ).toks);
        }
        TermModel::Abstraction { param, body } => {
            let head = seq!['\u{3bb}'] + param + seq!['.', ' '];
            assert(display_of(t) == head + display_of(*body));
            lemma_occurs_split(s, i, head, display_of(*body));
            lemma_occurs_split(s, i, seq!['\u{3bb}'] + param, seq!['.', ' ']);
            lemma_occurs_split(s, i, seq!['\u{3bb}'], param);
            let ib = i + 3 + param.len();
            // the lambda glyph
            lemma_occurs_index(s, i, seq!['\u{3bb}'], 0);
            lemma_occurs_index(s, i + 1 + param.len(), seq!['.', ' '], 0);
            lemma_occurs_index(s, i + 1 + param.len(), seq!['.', ' '], 1);
            assert(s[i] == '\u{3bb}');
            assert(ws_end(s, i) == i);
            assert(spec_is_lambda(s[i]));
            // the parameter, bounded by the dot
            assert(s[i + 1 + param.len()] == '.');
            assert(s[i + 2 + param.len()] == ' ');
            lemma_lex_binding(s, i + 1, param, i + 1 + param.len());
            // the dot
            assert(ws_end(s, i + 1 + param.len()) == i + 1 + param.len());
            // the space before the body
            lemma_display_shape(*body);
            assert(occurs_at(s, ib, display_of(*body)));
            assert(s[ib] == display_of(*body)[0]);
            assert(ws_end(s, i + 2 + param.len()) == ws_end(s, ib));
            assert(ws_end(s, ib) == ib);
            lemma_lex_at_ws(s, i + 2 + param.len());
            // the body
            lemma_lex_display(*body, s, ib, j);
            assert(lex_from(s, i) == stream_cons(
                TokenModel::Lambda,
                stream_cons(
                    TokenModel::Binding(param),
                    stream_cons(TokenModel::Dot, lex_from(s, ib)),
                ),
            ));
            assert((term_tokens(t) + lex_from(s, j).toks) =~= lex_from(s, i).toks);
        }
        TermModel::Application { lhs, rhs } => {
            let left = display_atom_of(*lhs);
            let right = display_atom_of(*rhs);
            assert(display_of(t) == left + seq![' '] + right);
            lemma_occurs_split(s, i, left + seq![' '], right);
            lemma_occurs_split(s, i, left, seq![' ']);
            let im = i + left.len();
            let ir = im + 1;
            lemma_occurs_index(s, im, seq![' '], 0);
            assert(s[im] == ' ');
            lemma_lex_display_atom(*lhs, s, i, im);
            lemma_display_shape(*rhs);
            lemma_occurs_index(s, ir, right, 0);
            assert(s[ir] == right[0]);
            assert(ws_end(s, im) == ws_end(s, ir));
            assert(ws_end(s, ir) == ir);
            lemma_lex_at_ws(s, im);
            lemma_lex_display_atom(*rhs, s, ir, j);
            assert((term_tokens(t) + lex_from(s, j).toks) =~= lex_from(s, i).toks);
        }
    }
}

/// The same, for a term printed as one side of an application.
proof fn lemma_lex_display_atom(t: TermModel, s: Seq<char>, i: int, j: int)
    requires
        wf_term(t),
        occurs_at(s, i, display_atom_of(t)),
        j == i + display_atom_of(t).len(),
        j == s.len() || !spec_is_alnum(s[j]),
    ensures
        lex_from(s, i) == (StreamModel {
            toks: atom_tokens(t) + lex_from(s, j).toks,
            fault: lex_from(s, j).fault,
        }),
    decreases t, 1int,
{
    match t {
        TermModel::Variable(name) => {
            lemma_lex_display(t, s, i, j);
        }
        _ => {
            assert(display_atom_of(t) == seq!['('] + display_of(t) + seq![')']);
            lemma_occurs_split(s, i, seq!['('] + display_of(t), seq![')']);
            lemma_occurs_split(s, i, seq!['('], display_of(t));
            let jc = i + 1 + display_of(t).len();
            lemma_occurs_index(s, i, seq!['('], 0);
            lemma_occurs_index(s, jc, seq![')'], 0);
            assert(s[i] == '(');
            assert(ws_end(s, i) == i);
            assert(s[jc] == ')');
            lemma_lex_display(t, s, i + 1, jc);
            assert(ws_end(s, jc) == jc);
            assert(lex_from(s, i) == stream_cons(
                TokenModel::LParen,
                lex_from(s, i + 1),
            ));
            assert(lex_from(s, jc) == stream_cons(TokenModel::RParen, lex_from(s, jc + 1)));
            assert((atom_tokens(t) + lex_from(s, j).toks) =~= lex_from(s, i).toks);
        }
    }
}

/// A printed atom opens with a token that can begin an atom.
proof fn lemma_atom_tokens_shape(t: TermModel)
    ensures
        atom_tokens(t).len() > 0,
        atom_tokens(t)[0] is Binding || atom_tokens(t)[0] is LParen,
{
    match t {
        TermModel::Variable(name) => {
            assert(atom_tokens(t)[0] == TokenModel::Binding(name));
        }
        _ => {
            assert(atom_tokens(t)[0] == TokenModel::LParen);
        }
    }
}

/// Parsing an atom's tokens, whatever follows them, yields the atom and
/// leaves what follows.
proof fn lemma_parse_atom_tokens(t: TermModel, rest: StreamModel)
    ensures
        spec_parse_atom(StreamModel { toks: atom_tokens(t) + rest.toks, fault: rest.fault })
            == Ok::<(TermModel, StreamModel), ParseErrorModel>((t, rest)),
    decreases t, 1int,
{
    let st = StreamModel { toks: atom_tokens(t) + rest.toks, fault: rest.fault };
    match t {
        TermModel::Variable(name) => {
            assert(st.toks[0] == TokenModel::Binding(name));
            assert(stream_skip(st, 1) == rest) by {
                assert(st.toks.skip(1) =~= rest.toks);
            }
        }
        _ => {
            let rest2 = StreamModel {
                toks: seq![TokenModel::RParen] + rest.toks,
                fault: rest.fault,
            };
            let inner = StreamModel { toks: term_tokens(t) + rest2.toks, fault: rest.fault };
            assert(st.toks[0] == TokenModel::LParen);
            assert(stream_skip(st, 1) == inner) by {
                assert(st.toks.skip(1) =~= inner.toks);
            }
            assert(!stream_starts_atom(rest2));
            lemma_parse_term_tokens(t, rest2);
            assert(stream_peek(rest2) == Ok::<TokenModel, ParseErrorModel>(TokenModel::RParen));
            assert(stream_skip(rest2, 1) == rest) by {
                assert(rest2.toks.skip(1) =~= rest.toks);
            }
        }
    }
}

/// Parsing a term's tokens at application level, followed by anything
/// that cannot begin an atom, yields the term and leaves what follows.
proof fn lemma_parse_term_tokens(t: TermModel, rest: StreamModel)
    requires
        !stream_starts_atom(rest),
    ensures
        spec_parse_application(
            StreamModel { toks: term_tokens(t) + rest.toks, fault: rest.fault },
        ) == Ok::<(TermModel, StreamModel), ParseErrorModel>((t, rest)),
    decreases t, 0int,
{
    let st = StreamModel { toks: term_tokens(t) + rest.toks, fault: rest.fault };
    match t {
        TermModel::Variable(name) => {
            assert(st.toks[0] == TokenModel::Binding(name));
            assert(stream_skip(st, 1) == rest) by {
                assert(st.toks.skip(1) =~= rest.toks);
            }
            assert(spec_parse_atom(st) == Ok::<(TermModel, StreamModel), ParseErrorModel>(
                (t, rest),
            ));
        }
        TermModel::Abstraction { param, body } => {
            let body_st = StreamModel { toks: term_tokens(*body) + rest.toks, fault: rest.fault };
            assert(st.toks[0] == TokenModel::Lambda);
            let st1 = stream_skip(st, 1);
            assert(st1.toks[0] == TokenModel::Binding(param)) by {
                assert(st1.toks[0] == st.toks[1]);
            }
            let st2 = stream_skip(st1, 1);
            assert(st2.toks[0] == TokenModel::Dot) by {
                assert(st2.toks[0] == st.toks[2]);
            }
            let st3 = stream_skip(st2, 1);
            assert(st3 == body_st) by {
                assert(st3.toks =~= body_st.toks);
            }
            lemma_parse_term_tokens(*body, rest);
            assert(spec_parse_atom(st) == Ok::<(TermModel, StreamModel), ParseErrorModel>(
                (t, rest),
            ));
        }
        TermModel::Application { lhs, rhs } => {
            let rest_l = StreamModel { toks: atom_tokens(*rhs) + rest.toks, fault: rest.fault };
            assert(st == StreamModel { toks: atom_tokens(*lhs) + rest_l.toks, fault: rest.fault })
                by {
                assert(st.toks =~= atom_tokens(*lhs) + rest_l.toks);
            }
            lemma_parse_atom_tokens(*lhs, rest_l);
            lemma_atom_tokens_shape(*rhs);
            assert(stream_starts_atom(rest_l));
            lemma_parse_atom_tokens(*rhs, rest);
            assert(spec_parse_application_more(*lhs, rest_l)
                == Ok::<(TermModel, StreamModel), ParseErrorModel>((t, rest)));
        }
    }
}

/// Round-trip determinism: the printed form of any well-formed term — the
/// normal forms the evaluator yields included — lexes without error and
/// parses back to a structurally equal term.
pub proof fn lemma_round_trip(t: TermModel)
    requires
        wf_term(t),
    ensures
        parse_text(display_of(t)) == Ok::<TermModel, ParseErrorModel>(t),
{
    let s = display_of(t);
    lemma_display_shape(t);
    assert(occurs_at(s, 0, s)) by {
        assert(forall|k: int| 0 <= k < s.len() ==> s[0 + k] == #[trigger] s[k]);
    }
    lemma_lex_display(t, s, 0, s.len() as int);
    let tail_stream = lex_from(s, s.len() as int);
    let empty_rest = StreamModel { toks: Seq::<TokenModel>::empty(), fault: None };
    assert(tail_stream == empty_rest) by {
        assert(ws_end(s, s.len() as int) == s.len() as int);
        assert(tail_stream.toks =~= empty_rest.toks);
    }
    let st = StreamModel { toks: term_tokens(t) + empty_rest.toks, fault: None };
    assert(lex_from(s, 0) == st);
    assert(!stream_starts_atom(empty_rest));
    lemma_parse_term_tokens(t, empty_rest);
    assert(spec_parse(st) == Ok::<TermModel, ParseErrorModel>(t));
}

/// The full circle: whatever some text parses to is well formed,
/// evaluation keeps it so, and the printed normal form reads back as that
/// very normal form.
pub proof fn lemma_pipeline_round_trip(s: Seq<char>, t: TermModel, r: TermModel)
    requires
        parse_text(s) == Ok::<TermModel, ParseErrorModel>(t),
        evaluates_to(t, r),
    ensures
        parse_text(display_of(r)) == Ok::<TermModel, ParseErrorModel>(r),
{
    lemma_parse_text_wf(s);
    let n = choose|n: nat| eval_model(t, n) == Some(r);
    lemma_eval_wf(t, n);
    lemma_round_trip(r);
}

} // verus!

