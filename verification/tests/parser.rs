use simple::lexer::Lexer;
use simple::parser::ParseError;
use simple::parser::Parser;
use simple::term::Term;
use simple::token::Token;

#[test]
fn parse_variable_single_variable() {
    let input = "x";
    let lexer = Lexer::new(input);
    let mut parser = Parser::new(lexer);

    let ast = parser.parse();
    assert_eq!(ast, Ok(Term::Variable("x")));
}

#[test]
fn parse_abstraction_simple_lambda() {
    let input = "\\x.x";
    let lexer = Lexer::new(input);
    let mut parser = Parser::new(lexer);

    let ast = parser.parse();
    assert_eq!(
        ast,
        Ok(Term::Abstraction {
            param: "x",
            body: Box::new(Term::Variable("x"))
        })
    );
}

#[test]
fn parse_abstraction_nested_lambda() {
    let input = "\\x.\\y.x";
    let lexer = Lexer::new(input);
    let mut parser = Parser::new(lexer);

    let ast = parser.parse();
    assert_eq!(
        ast,
        Ok(Term::Abstraction {
            param: "x",
            body: Box::new(Term::Abstraction {
                param: "y",
                body: Box::new(Term::Variable("x"))
            })
        })
    );
}

#[test]
fn parse_application_simple_application() {
    let input = "x y";
    let lexer = Lexer::new(input);
    let mut parser = Parser::new(lexer);

    let ast = parser.parse();
    assert_eq!(
        ast,
        Ok(Term::Application {
            lhs: Box::new(Term::Variable("x")),
            rhs: Box::new(Term::Variable("y"))
        })
    );
}

#[test]
fn parse_application_nested_application() {
    let input = "x y z";
    let lexer = Lexer::new(input);
    let mut parser = Parser::new(lexer);

    let ast = parser.parse();
    assert_eq!(
        ast,
        Ok(Term::Application {
            lhs: Box::new(Term::Application {
                lhs: Box::new(Term::Variable("x")),
                rhs: Box::new(Term::Variable("y")),
            }),
            rhs: Box::new(Term::Variable("z"))
        })
    );
}

#[test]
fn parse_combination_lambda_and_application() {
    let input = "(\\x.x) y";
    let lexer = Lexer::new(input);
    let mut parser = Parser::new(lexer);

    let ast = parser.parse();
    assert_eq!(
        ast,
        Ok(Term::Application {
            lhs: Box::new(Term::Abstraction {
                param: "x",
                body: Box::new(Term::Variable("x"))
            }),
            rhs: Box::new(Term::Variable("y"))
        })
    );
}

#[test]
fn parse_nested_parentheses_with_application() {
    let input = "(x (y z))";
    let lexer = Lexer::new(input);
    let mut parser = Parser::new(lexer);

    let ast = parser.parse();
    assert_eq!(
        ast,
        Ok(Term::Application {
            lhs: Box::new(Term::Variable("x")),
            rhs: Box::new(Term::Application {
                lhs: Box::new(Term::Variable("y")),
                rhs: Box::new(Term::Variable("z"))
            })
        })
    );
}

#[test]
fn parse_complex_expression_with_nested_lambda() {
    let input = "\\x.(x (\\y.y))";
    let lexer = Lexer::new(input);
    let mut parser = Parser::new(lexer);

    let ast = parser.parse();
    assert_eq!(
        ast,
        Ok(Term::Abstraction {
            param: "x",
            body: Box::new(Term::Application {
                lhs: Box::new(Term::Variable("x")),
                rhs: Box::new(Term::Abstraction {
                    param: "y",
                    body: Box::new(Term::Variable("y"))
                })
            })
        })
    );
}

#[test]
fn parse_abstraction_body_extends_right() {
    let input = "\u{3bb}x. x y";
    let lexer = Lexer::new(input);
    let mut parser = Parser::new(lexer);

    let ast = parser.parse();
    // the body absorbs the whole application chain to its right
    assert_eq!(
        ast,
        Ok(Term::Abstraction {
            param: "x",
            body: Box::new(Term::Application {
                lhs: Box::new(Term::Variable("x")),
                rhs: Box::new(Term::Variable("y"))
            })
        })
    );
}

#[test]
fn parse_unexpected_end_of_input() {
    let input = "\u{3bb}x.";
    let lexer = Lexer::new(input);
    let mut parser = Parser::new(lexer);

    let ast = parser.parse();
    assert_eq!(ast, Err(ParseError::UnexpectedEof));
}

#[test]
fn parse_trailing_token_rejected() {
    let input = "x y )";
    let lexer = Lexer::new(input);
    let mut parser = Parser::new(lexer);

    let ast = parser.parse();
    assert_eq!(ast, Err(ParseError::UnexpectedToken(Token::RParen)));
}

#[test]
fn parse_unexpected_character_reported() {
    let input = "x ?";
    let lexer = Lexer::new(input);
    let mut parser = Parser::new(lexer);

    let ast = parser.parse();
    assert_eq!(ast, Err(ParseError::UnexpectedCharacter('?', 2)));
}

#[test]
fn parse_missing_close_paren() {
    let input = "(x y";
    let lexer = Lexer::new(input);
    let mut parser = Parser::new(lexer);

    let ast = parser.parse();
    assert_eq!(ast, Err(ParseError::UnexpectedEof));
}
