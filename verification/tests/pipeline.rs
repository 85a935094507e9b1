//! The whole pipeline, end to end: text to tokens to tree to normal form
//! and back to text.

use simple::interpreter::Interpreter;
use simple::lexer::Lexer;
use simple::parser::Parser;
use simple::term::Evaluate;
use simple::term::Term;

fn parse(input: &str) -> Term<'_> {
    let lexer = Lexer::new(input);
    let mut parser = Parser::new(lexer);
    parser.parse().expect("the input should parse")
}

#[test]
fn round_trip_printed_normal_form() {
    // evaluate (λp. λq. p q p) (λx. λy. x) (λx. λy. y), print the normal
    // form, and read it back
    let term = parse("(\\p.\\q.p q p) (\\x.\\y.x) (\\x.\\y.y)");
    let mut interpreter = Interpreter;
    let normal = interpreter.evaluate(&term);
    let printed = normal.to_display();
    let reread = parse(printed.as_str());
    assert_eq!(reread, normal);
}

#[test]
fn round_trip_printed_stuck_term() {
    let term = parse("x (\\y.y) (a b)");
    let mut interpreter = Interpreter;
    let normal = interpreter.evaluate(&term);
    let printed = normal.to_display();
    let reread = parse(printed.as_str());
    assert_eq!(reread, normal);
}

#[test]
fn evaluate_twice_equals_evaluate_once() {
    let term = parse("(\\x.\\y.x) a b");
    let mut interpreter = Interpreter;
    let once = interpreter.evaluate(&term);
    let twice = interpreter.evaluate(&once);
    assert_eq!(twice, once);
    assert_eq!(once, Term::Variable("a"));
}

#[test]
fn left_associative_application_prints_with_parens() {
    let term = parse("x y z");
    assert_eq!(term.to_display(), "(x y) z");
}
