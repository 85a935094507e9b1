//! The substitution/reduction engine that simplifies a root `Term`.
//!
//! The mathematical model is `eval_model`, applicative-order β-reduction
//! under a step bound. The executable evaluator counts nothing at run
//! time: a ghost bound, chosen from the precondition that the term halts,
//! witnesses that its recursion bottoms out. On a term without a normal
//! form the recursion would run forever, as the calculus demands; such
//! terms are excluded by precondition rather than cut short.

use vstd::prelude::*;

use crate::term::Evaluate;
use crate::term::Term;
use crate::term::TermModel;
use crate::term::wf_term;
use crate::token::str_eq;

verus! {

/// Replace every occurrence of `var` in `t` by `value`, stopping at any
/// abstraction whose own parameter is `var`, since `var` is re-bound
/// there. This is plain name-based substitution: no binder is renamed, so
/// a free variable of `value` that shares the name of a binder inside `t`
/// is captured by it.
pub open spec fn subst_model(t: TermModel, var: Seq<char>, value: TermModel) -> TermModel
    decreases t,
{
    match t {
        TermModel::Variable(name) => if name == var {
            value
        } else {
            t
        },
        TermModel::Abstraction { param, body } => if param == var {
            t
        } else {
            TermModel::Abstraction { param, body: Box::new(subst_model(*body, var, value)) }
        },
        TermModel::Application { lhs, rhs } => TermModel::Application {
            lhs: Box::new(subst_model(*lhs, var, value)),
            rhs: Box::new(subst_model(*rhs, var, value)),
        },
    }
}

/// Applicative-order reduction to normal form, bounded by `fuel`
/// β-reductions: variables and abstractions stand; an application first
/// reduces both sides, then β-reduces if the left side is an abstraction,
/// and otherwise stands as a stuck application.
pub open spec fn eval_model(t: TermModel, fuel: nat) -> Option<TermModel>
    decreases fuel, t,
{
    match t {
        TermModel::Application { lhs, rhs } => match eval_model(*lhs, fuel) {
            Some(l) => match eval_model(*rhs, fuel) {
                Some(r) => match l {
                    TermModel::Abstraction { param, body } => if fuel == 0 {
                        None
                    } else {
                        eval_model(subst_model(*body, param, r), (fuel - 1) as nat)
                    },
                    _ => Some(TermModel::Application { lhs: Box::new(l), rhs: Box::new(r) }),
                },
                None => None,
            },
            None => None,
        },
        _ => Some(t),
    }
}

/// Some number of β-reductions suffices to reach a normal form.
pub open spec fn halts(t: TermModel) -> bool {
    exists|n: nat| (#[trigger] eval_model(t, n)) is Some
}

/// Evaluation reaches exactly `r`; by `lemma_evaluates_to_unique` there is
/// at most one such `r`.
pub open spec fn evaluates_to(t: TermModel, r: TermModel) -> bool {
    exists|n: nat| eval_model(t, n) == Some(r)
}

/// A term the evaluator leaves alone: no application of an abstraction
/// anywhere the evaluator looks.
pub open spec fn is_normal(t: TermModel) -> bool
    decreases t,
{
    match t {
        TermModel::Variable(_) => true,
        TermModel::Abstraction { .. } => true,
        TermModel::Application { lhs, rhs } => is_normal(*lhs) && is_normal(*rhs) && !(*lhs
            is Abstraction),
    }
}

/// A normal form evaluates to itself, whatever the bound.
pub proof fn lemma_eval_normal(t: TermModel, fuel: nat)
    requires
        is_normal(t),
    ensures
        eval_model(t, fuel) == Some(t),
    decreases t,
{
    match t {
        TermModel::Application { lhs, rhs } => {
            lemma_eval_normal(*lhs, fuel);
            lemma_eval_normal(*rhs, fuel);
        }
        _ => {}
    }
}

/// Whatever evaluation yields is a normal form.
pub proof fn lemma_eval_normalizes(t: TermModel, fuel: nat)
    ensures
        eval_model(t, fuel) matches Some(r) ==> is_normal(r),
    decreases fuel, t,
{
    match t {
        TermModel::Application { lhs, rhs } => {
            lemma_eval_normalizes(*lhs, fuel);
            lemma_eval_normalizes(*rhs, fuel);
            if let Some(l) = eval_model(*lhs, fuel) {
                if let Some(r) = eval_model(*rhs, fuel) {
                    if let TermModel::Abstraction { param, body } = l {
                        if fuel > 0 {
                            lemma_eval_normalizes(
                                subst_model(*body, param, r),
                                (fuel - 1) as nat,
                            );
                        }
                    }
                }
            }
        }
        _ => {}
    }
}

/// Raising the bound changes nothing once evaluation goes through.
pub proof fn lemma_eval_monotonic(t: TermModel, n: nat, m: nat)
    requires
        eval_model(t, n) is Some,
        n <= m,
    ensures
        eval_model(t, m) == eval_model(t, n),
    decreases n, t,
{
    match t {
        TermModel::Application { lhs, rhs } => {
            lemma_eval_monotonic(*lhs, n, m);
            lemma_eval_monotonic(*rhs, n, m);
            if let Some(l) = eval_model(*lhs, n) {
                if let Some(r) = eval_model(*rhs, n) {
                    if let TermModel::Abstraction { param, body } = l {
                        lemma_eval_monotonic(
                            subst_model(*body, param, r),
                            (n - 1) as nat,
                            (m - 1) as nat,
                        );
                    }
                }
            }
        }
        _ => {}
    }
}

/// Substitution introduces no name that was not already in one of its
/// operands, so well-formedness survives it.
pub proof fn lemma_subst_wf(t: TermModel, var: Seq<char>, value: TermModel)
    requires
        wf_term(t),
        wf_term(value),
    ensures
        wf_term(subst_model(t, var, value)),
    decreases t,
{
    match t {
        TermModel::Abstraction { param, body } => {
            if param != var {
                lemma_subst_wf(*body, var, value);
            }
        }
        TermModel::Application { lhs, rhs } => {
            lemma_subst_wf(*lhs, var, value);
            lemma_subst_wf(*rhs, var, value);
        }
        _ => {}
    }
}

/// Evaluation only rearranges and substitutes, so well-formedness
/// survives it.
pub proof fn lemma_eval_wf(t: TermModel, fuel: nat)
    requires
        wf_term(t),
    ensures
        eval_model(t, fuel) matches Some(r) ==> wf_term(r),
    decreases fuel, t,
{
    match t {
        TermModel::Application { lhs, rhs } => {
            lemma_eval_wf(*lhs, fuel);
            lemma_eval_wf(*rhs, fuel);
            if let Some(l) = eval_model(*lhs, fuel) {
                if let Some(r) = eval_model(*rhs, fuel) {
                    if let TermModel::Abstraction { param, body } = l {
                        if fuel > 0 {
                            lemma_subst_wf(*body, param, r);
                            lemma_eval_wf(subst_model(*body, param, r), (fuel - 1) as nat);
                        }
                    }
                }
            }
        }
        _ => {}
    }
}

/// Evaluation is a partial function: a term evaluates to at most one
/// result.
pub proof fn lemma_evaluates_to_unique(t: TermModel, r1: TermModel, r2: TermModel)
    requires
        evaluates_to(t, r1),
        evaluates_to(t, r2),
    ensures
        r1 == r2,
{
    let n1 = choose|n: nat| eval_model(t, n) == Some(r1);
    let n2 = choose|n: nat| eval_model(t, n) == Some(r2);
    if n1 <= n2 {
        lemma_eval_monotonic(t, n1, n2);
    } else {
        lemma_eval_monotonic(t, n2, n1);
    }
}

/// Idempotence of evaluation: what evaluating yields is a normal form and
/// evaluates to itself, so evaluating a second time changes nothing.
pub proof fn lemma_evaluate_idempotent(t: TermModel, r: TermModel)
    requires
        evaluates_to(t, r),
    ensures
        evaluates_to(r, r),
        is_normal(r),
{
    let n = choose|n: nat| eval_model(t, n) == Some(r);
    lemma_eval_normalizes(t, n);
    lemma_eval_normal(r, 0);
    assert(eval_model(r, 0) == Some(r));
}

/// Substitution shadowing: under a binder of another name the variable is
/// replaced, under a binder of its own name the body stands untouched.
pub proof fn lemma_substitution_shadowing(x: Seq<char>, y: Seq<char>, z: Seq<char>)
    requires
        x != y,
    ensures
        subst_model(
            (TermModel::Abstraction { param: x, body: Box::new(TermModel::Variable(y)) }),
            y,
            TermModel::Variable(z),
        ) == (TermModel::Abstraction { param: x, body: Box::new(TermModel::Variable(z)) }),
        subst_model(
            (TermModel::Abstraction { param: x, body: Box::new(TermModel::Variable(x)) }),
            x,
            TermModel::Variable(z),
        ) == (TermModel::Abstraction { param: x, body: Box::new(TermModel::Variable(x)) }),
{
    reveal_with_fuel(subst_model, 3);
}

/// β-reduction: applying an identity abstraction to a variable yields that
/// variable.
pub proof fn lemma_beta_reduction(x: Seq<char>, y: Seq<char>)
    ensures
        evaluates_to(
            TermModel::Application {
                lhs: Box::new(
                    TermModel::Abstraction {
                        param: x,
                        body: Box::new(TermModel::Variable(x)),
                    },
                ),
                rhs: Box::new(TermModel::Variable(y)),
            },
            TermModel::Variable(y),
        ),
{
    let t = TermModel::Application {
        lhs: Box::new(
            TermModel::Abstraction { param: x, body: Box::new(TermModel::Variable(x)) },
        ),
        rhs: Box::new(TermModel::Variable(y)),
    };
    reveal_with_fuel(subst_model, 3);
    reveal_with_fuel(eval_model, 4);
    assert(subst_model(TermModel::Variable(x), x, TermModel::Variable(y))
        == TermModel::Variable(y));
    assert(eval_model(t, 1) == Some(TermModel::Variable(y)));
}

/// Reduction of a two-argument application: `((λx. λy. x) a) b` comes out
/// as `a` whenever the names keep the two binders and the argument apart.
pub proof fn lemma_multi_argument_reduction(
    x: Seq<char>,
    y: Seq<char>,
    a: Seq<char>,
    b: Seq<char>,
)
    requires
        x != y,
        a != y,
    ensures
        evaluates_to(
            TermModel::Application {
                lhs: Box::new(
                    TermModel::Application {
                        lhs: Box::new(
                            TermModel::Abstraction {
                                param: x,
                                body: Box::new(
                                    TermModel::Abstraction {
                                        param: y,
                                        body: Box::new(TermModel::Variable(x)),
                                    },
                                ),
                            },
                        ),
                        rhs: Box::new(TermModel::Variable(a)),
                    },
                ),
                rhs: Box::new(TermModel::Variable(b)),
            },
            TermModel::Variable(a),
        ),
{
    let curried = TermModel::Abstraction {
        param: x,
        body: Box::new(
            TermModel::Abstraction { param: y, body: Box::new(TermModel::Variable(x)) },
        ),
    };
    let inner = TermModel::Application {
        lhs: Box::new(curried),
        rhs: Box::new(TermModel::Variable(a)),
    };
    let outer = TermModel::Application { lhs: Box::new(inner), rhs: Box::new(TermModel::Variable(b)) };
    reveal_with_fuel(subst_model, 4);
    reveal_with_fuel(eval_model, 8);
    assert(subst_model(
        TermModel::Abstraction { param: y, body: Box::new(TermModel::Variable(x)) },
        x,
        TermModel::Variable(a),
    ) == TermModel::Abstraction { param: y, body: Box::new(TermModel::Variable(a)) });
    assert(eval_model(inner, 2) == Some(
        TermModel::Abstraction { param: y, body: Box::new(TermModel::Variable(a)) },
    ));
    assert(subst_model(TermModel::Variable(a), y, TermModel::Variable(b))
        == TermModel::Variable(a));
    assert(eval_model(outer, 2) == Some(TermModel::Variable(a)));
}

/// Exists only as an implementor of `term::Evaluate`.
pub struct Interpreter;

impl Interpreter {
    /// Recursively simplify a given term to evaluate it. The ghost bound
    /// witnesses that the reduction bottoms out; the running code counts
    /// nothing.
    fn evaluate_term<'src>(
        &mut self,
        term: &Term<'src>,
        Ghost(fuel): Ghost<nat>,
    ) -> (r: Term<'src>)
        requires
            eval_model(term@, fuel) is Some,
        ensures
            Some(r@) == eval_model(term@, fuel),
        decreases fuel, *term,
    {
        match term {
            // Evaluate applications
            Term::Application { lhs, rhs } => {
                let lhs_eval = self.evaluate_term(lhs, Ghost(fuel));
                let rhs_eval = self.evaluate_term(rhs, Ghost(fuel));
                // Apply the abstraction if the left-hand side is one
                if let Term::Abstraction { param, body } = lhs_eval {
                    proof {
                        assert(fuel > 0);
                    }
                    let subs = self.substitute(&body, param, &rhs_eval);
                    self.evaluate_term(&subs, Ghost((fuel - 1) as nat))
                } else {
                    // Cannot apply, construct the application with evaluated parts
                    Term::Application { lhs: Box::new(lhs_eval), rhs: Box::new(rhs_eval) }
                }
            }
            // Otherwise, return the term as is
            _ => term.clone(),
        }
    }

    /// Substitute occurrences of a variable with a given term.
    pub fn substitute<'src>(
        &mut self,
        term: &Term<'src>,
        var: &'src str,
        value: &Term<'src>,
    ) -> (r: Term<'src>)
        ensures
            r@ == subst_model(term@, var@, value@),
        decreases *term,
    {
        match term {
            Term::Variable(name) => {
                if str_eq(name, var) {
                    value.clone()
                } else {
                    term.clone()
                }
            }
            Term::Abstraction { param, body } => {
                if !str_eq(param, var) {
                    Term::Abstraction {
                        param,
                        body: Box::new(self.substitute(body, var, value)),
                    }
                } else {
                    // nothing to substitute under the shadowing binder
                    term.clone()
                }
            }
            Term::Application { lhs, rhs } => Term::Application {
                lhs: Box::new(self.substitute(lhs, var, value)),
                rhs: Box::new(self.substitute(rhs, var, value)),
            },
        }
    }
}

impl<'src> Evaluate<'src> for Interpreter {
    /// Simplify some term by repeated substitution-based β-reduction.
    fn evaluate(&mut self, term: &Term<'src>) -> (r: Term<'src>) {
        let ghost n = choose|n: nat| (#[trigger] eval_model(term@, n)) is Some;
        self.evaluate_term(term, Ghost(n))
    }
}

} // verus!
