use simple::term::Term;

#[test]
fn display_variable() {
    let term = Term::Variable("x");
    assert_eq!(term.to_display(), "x");
}

#[test]
fn display_abstraction() {
    let term = Term::Abstraction {
        param: "x",
        body: Box::new(Term::Variable("x")),
    };
    assert_eq!(term.to_display(), "\u{3bb}x. x");
}

#[test]
fn display_application() {
    let term = Term::Application {
        lhs: Box::new(Term::Variable("x")),
        rhs: Box::new(Term::Variable("y")),
    };
    assert_eq!(term.to_display(), "x y");
}

#[test]
fn display_nested() {
    let term = Term::Application {
        lhs: Box::new(Term::Abstraction {
            param: "x",
            body: Box::new(Term::Variable("x")),
        }),
        rhs: Box::new(Term::Application {
            lhs: Box::new(Term::Variable("y")),
            rhs: Box::new(Term::Variable("z")),
        }),
    };
    assert_eq!(term.to_display(), "(\u{3bb}x. x) (y z)");
}

#[test]
fn term_clone_is_structural() {
    let term = Term::Abstraction {
        param: "x",
        body: Box::new(Term::Application {
            lhs: Box::new(Term::Variable("x")),
            rhs: Box::new(Term::Variable("y")),
        }),
    };
    assert_eq!(term.clone(), term);
}
