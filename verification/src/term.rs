//! The abstract syntax tree: a term is some rule in the grammar, and its
//! mathematical image is a `TermModel` over character sequences.

use vstd::prelude::*;
use vstd::string::StrSliceExecFns;
use vstd::string::StringExecFns;

use crate::token::is_identifier;
use crate::token::str_eq;

verus! {

/// Mathematical image of a term. Names are sequences of characters, and
/// sub-terms nest directly; equality is structural.
pub enum TermModel {
    Variable(Seq<char>),
    Abstraction { param: Seq<char>, body: Box<TermModel> },
    Application { lhs: Box<TermModel>, rhs: Box<TermModel> },
}

/// Abstract syntax tree built from the BNF grammar. Every node owns its
/// sub-terms exclusively, so a term is always a finite tree.
#[derive(Debug)]
pub enum Term<'src> {
    Variable(&'src str),
    Abstraction { param: &'src str, body: Box<Term<'src>> },
    Application { lhs: Box<Term<'src>>, rhs: Box<Term<'src>> },
}

impl<'src> Term<'src> {
    /// The mathematical image of this tree.
    pub open spec fn model(self) -> TermModel
        decreases self,
    {
        match self {
            Term::Variable(name) => TermModel::Variable(name@),
            Term::Abstraction { param, body } => TermModel::Abstraction {
                param: param@,
                body: Box::new(body.model()),
            },
            Term::Application { lhs, rhs } => TermModel::Application {
                lhs: Box::new(lhs.model()),
                rhs: Box::new(rhs.model()),
            },
        }
    }
}

impl<'src> View for Term<'src> {
    type V = TermModel;

    open spec fn view(&self) -> TermModel {
        self.model()
    }
}

/// Structural equality of two trees, decided name by name.
pub fn term_eq<'src>(a: &Term<'src>, b: &Term<'src>) -> (r: bool)
    ensures
        r == (a@ == b@),
    decreases *a,
{
    match (a, b) {
        (Term::Variable(x), Term::Variable(y)) => str_eq(x, y),
        (
            Term::Abstraction { param: p1, body: b1 },
            Term::Abstraction { param: p2, body: b2 },
        ) => str_eq(p1, p2) && term_eq(&**b1, &**b2),
        (
            Term::Application { lhs: l1, rhs: r1 },
            Term::Application { lhs: l2, rhs: r2 },
        ) => term_eq(&**l1, &**l2) && term_eq(&**r1, &**r2),
        _ => false,
    }
}

impl<'src> Clone for Term<'src> {
    fn clone(&self) -> (r: Self)
        ensures
            r@ == self@,
    {
        self.duplicate()
    }
}

impl<'src> PartialEq for Term<'src> {
    fn eq(&self, other: &Self) -> (r: bool) {
        term_eq(self, other)
    }
}

impl<'src> vstd::std_specs::cmp::PartialEqSpecImpl for Term<'src> {
    open spec fn obeys_eq_spec() -> bool {
        true
    }

    open spec fn eq_spec(&self, other: &Self) -> bool {
        self@ == other@
    }
}

/// Defines a way to transform some root term to its simplified version.
pub trait Evaluate<'src> {
    /// Simplify the given term to its normal form. A term without a
    /// normal form keeps the reduction running forever; the precondition
    /// asks for one that halts, and the result is then the unique normal
    /// form the term reduces to.
    fn evaluate(&mut self, term: &Term<'src>) -> (r: Term<'src>)
        requires
            crate::interpreter::halts(term@),
        ensures
            crate::interpreter::evaluates_to(term@, r@),
    ;
}

/// Every name in the tree is a lexically valid identifier; such a tree
/// prints to text that the lexer reads back without error.
pub open spec fn wf_term(t: TermModel) -> bool
    decreases t,
{
    match t {
        TermModel::Variable(name) => is_identifier(name),
        TermModel::Abstraction { param, body } => is_identifier(param) && wf_term(*body),
        TermModel::Application { lhs, rhs } => wf_term(*lhs) && wf_term(*rhs),
    }
}

/// The display grammar: a variable is its name; an abstraction is the
/// lambda glyph, the parameter, `. `, and the body; an application is its
/// two sides separated by a space, each parenthesized unless a variable.
pub open spec fn display_of(t: TermModel) -> Seq<char>
    decreases t, 0int,
{
    match t {
        TermModel::Variable(name) => name,
        TermModel::Abstraction { param, body } => seq!['\u{3bb}'] + param + seq!['.', ' ']
            + display_of(*body),
        TermModel::Application { lhs, rhs } => display_atom_of(*lhs) + seq![' ']
            + display_atom_of(*rhs),
    }
}

/// How a term renders on either side of an application: abstractions and
/// applications are wrapped in parentheses, reflecting left-associativity.
pub open spec fn display_atom_of(t: TermModel) -> Seq<char>
    decreases t, 1int,
{
    match t {
        TermModel::Variable(name) => name,
        _ => seq!['('] + display_of(t) + seq![')'],
    }
}

impl<'src> Term<'src> {
    /// Render the term under the display grammar.
    pub fn to_display(&self) -> (r: String)
        ensures
            r@ == display_of(self@),
        decreases *self, 0int,
    {
        match self {
            Term::Variable(name) => String::from_str(name),
            Term::Abstraction { param, body } => {
                proof {
                    reveal_strlit("\u{3bb}");
                    reveal_strlit(". ");
                }
                let mut s = String::from_str("\u{3bb}");
                s.append(param);
                s.append(". ");
                let rendered_body = body.to_display();
                s.append(rendered_body.as_str());
                proof {
                    assert(s@ =~= display_of(self@));
                }
                s
            }
            Term::Application { lhs, rhs } => {
                proof {
                    reveal_strlit(" ");
                }
                let mut s = lhs.to_display_atom();
                s.append(" ");
                let rendered_rhs = rhs.to_display_atom();
                s.append(rendered_rhs.as_str());
                proof {
                    assert(s@ =~= display_of(self@));
                }
                s
            }
        }
    }

    /// Render the term as one side of an application.
    fn to_display_atom(&self) -> (r: String)
        ensures
            r@ == display_atom_of(self@),
        decreases *self, 1int,
    {
        match self {
            Term::Variable(name) => String::from_str(name),
            _ => {
                proof {
                    reveal_strlit("(");
                    reveal_strlit(")");
                }
                let mut s = String::from_str("(");
                let inner = self.to_display();
                s.append(inner.as_str());
                s.append(")");
                proof {
                    assert(s@ =~= display_atom_of(self@));
                }
                s
            }
        }
    }

    /// A fresh structural copy of the tree.
    pub fn duplicate(&self) -> (r: Term<'src>)
        ensures
            r@ == self@,
        decreases *self,
    {
        match self {
            Term::Variable(name) => Term::Variable(name),
            Term::Abstraction { param, body } => Term::Abstraction {
                param,
                body: Box::new(body.duplicate()),
            },
            Term::Application { lhs, rhs } => Term::Application {
                lhs: Box::new(lhs.duplicate()),
                rhs: Box::new(rhs.duplicate()),
            },
        }
    }
}

} // verus!
