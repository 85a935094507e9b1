use simple::lexer::LexError;
use simple::lexer::Lexer;
use simple::token::Token;

#[test]
fn next_token() {
    let mut lexer = Lexer::new("\u{4f4d}x.x");
    assert_eq!(lexer.next_token(), Ok(Some(Token::Lambda)));
    assert_eq!(lexer.next_token(), Ok(Some(Token::Binding("x"))));
    assert_eq!(lexer.next_token(), Ok(Some(Token::Dot)));
    assert_eq!(lexer.next_token(), Ok(Some(Token::Binding("x"))));
    assert_eq!(lexer.next_token(), Ok(None));
}

#[test]
fn next_token_parens() {
    let mut lexer = Lexer::new("(\u{4f4d}x.(x x))");
    assert_eq!(lexer.next_token(), Ok(Some(Token::LParen)));
    assert_eq!(lexer.next_token(), Ok(Some(Token::Lambda)));
    assert_eq!(lexer.next_token(), Ok(Some(Token::Binding("x"))));
    assert_eq!(lexer.next_token(), Ok(Some(Token::Dot)));
    assert_eq!(lexer.next_token(), Ok(Some(Token::LParen)));
    assert_eq!(lexer.next_token(), Ok(Some(Token::Binding("x"))));
    assert_eq!(lexer.next_token(), Ok(Some(Token::Binding("x"))));
    assert_eq!(lexer.next_token(), Ok(Some(Token::RParen)));
    assert_eq!(lexer.next_token(), Ok(Some(Token::RParen)));
    assert_eq!(lexer.next_token(), Ok(None));
}

#[test]
fn next_token_whitespace() {
    let mut lexer = Lexer::new("   \u{4f4d}  x   . x  ");
    assert_eq!(lexer.next_token(), Ok(Some(Token::Lambda)));
    assert_eq!(lexer.next_token(), Ok(Some(Token::Binding("x"))));
    assert_eq!(lexer.next_token(), Ok(Some(Token::Dot)));
    assert_eq!(lexer.next_token(), Ok(Some(Token::Binding("x"))));
    assert_eq!(lexer.next_token(), Ok(None));
}

#[test]
fn next_token_greek_lambda_and_backslash() {
    let mut lexer = Lexer::new("\u{3bb}x.\\y.x");
    assert_eq!(lexer.next_token(), Ok(Some(Token::Lambda)));
    assert_eq!(lexer.next_token(), Ok(Some(Token::Binding("x"))));
    assert_eq!(lexer.next_token(), Ok(Some(Token::Dot)));
    assert_eq!(lexer.next_token(), Ok(Some(Token::Lambda)));
    assert_eq!(lexer.next_token(), Ok(Some(Token::Binding("y"))));
    assert_eq!(lexer.next_token(), Ok(Some(Token::Dot)));
    assert_eq!(lexer.next_token(), Ok(Some(Token::Binding("x"))));
    assert_eq!(lexer.next_token(), Ok(None));
}

#[test]
fn next_token_greedy_alphanumeric_binding() {
    let mut lexer = Lexer::new("ab1Zx y");
    assert_eq!(lexer.next_token(), Ok(Some(Token::Binding("ab1Zx"))));
    assert_eq!(lexer.next_token(), Ok(Some(Token::Binding("y"))));
    assert_eq!(lexer.next_token(), Ok(None));
}

#[test]
fn next_token_unexpected_character() {
    let mut lexer = Lexer::new("Zx");
    assert_eq!(lexer.next_token(), Err(LexError::UnexpectedCharacter('Z', 0)));
    // the lexer stands still on the unreadable character
    assert_eq!(lexer.next_token(), Err(LexError::UnexpectedCharacter('Z', 0)));
}

#[test]
fn next_token_unexpected_character_position() {
    let mut lexer = Lexer::new("x  ?");
    assert_eq!(lexer.next_token(), Ok(Some(Token::Binding("x"))));
    assert_eq!(lexer.next_token(), Err(LexError::UnexpectedCharacter('?', 3)));
}
