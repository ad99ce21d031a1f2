use regex_dfa::lexer::{Lexer, Token};

#[test]
fn scan() {
    let mut lexer = Lexer::new(r"a|(bc)*");
    assert_eq!(lexer.scan(), Token::Character('a'));
    assert_eq!(lexer.scan(), Token::UnionOperator);
    assert_eq!(lexer.scan(), Token::LeftParen);
    assert_eq!(lexer.scan(), Token::Character('b'));
    assert_eq!(lexer.scan(), Token::Character('c'));
    assert_eq!(lexer.scan(), Token::RightParen);
    assert_eq!(lexer.scan(), Token::StarOperator);
    assert_eq!(lexer.scan(), Token::EndOfFile);
}

#[test]
fn scan_with_escape() {
    let mut lexer = Lexer::new(r"a|\|\\(\)");
    assert_eq!(lexer.scan(), Token::Character('a'));
    assert_eq!(lexer.scan(), Token::UnionOperator);
    assert_eq!(lexer.scan(), Token::Character('|'));
    assert_eq!(lexer.scan(), Token::Character('\\'));
    assert_eq!(lexer.scan(), Token::LeftParen);
    assert_eq!(lexer.scan(), Token::Character(')'));
    assert_eq!(lexer.scan(), Token::EndOfFile);
}

#[test]
fn with_empty() {
    let mut lexer = Lexer::new(r#""#);
    assert_eq!(lexer.scan(), Token::EndOfFile);
}

#[test]
fn scan_stays_at_end() {
    let mut lexer = Lexer::new("x");
    assert_eq!(lexer.scan(), Token::Character('x'));
    assert_eq!(lexer.scan(), Token::EndOfFile);
    assert_eq!(lexer.scan(), Token::EndOfFile);
}

#[test]
fn scan_non_ascii() {
    let mut lexer = Lexer::new("é*");
    assert_eq!(lexer.scan(), Token::Character('é'));
    assert_eq!(lexer.scan(), Token::StarOperator);
    assert_eq!(lexer.scan(), Token::EndOfFile);
}

#[test]
fn token_names() {
    assert_eq!(Token::Character('q').as_str(), "Character");
    assert_eq!(Token::UnionOperator.as_str(), "|");
    assert_eq!(Token::StarOperator.as_str(), "*");
    assert_eq!(Token::LeftParen.as_str(), "(");
    assert_eq!(Token::RightParen.as_str(), ")");
    assert_eq!(Token::EndOfFile.as_str(), "EOF");
}
