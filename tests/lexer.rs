use tiny_rust_lisp::lexer::{ExtendedToken, Lexer, Token};

#[test]
fn tokenize() {
    assert_eq!(
        vec!(ExtendedToken::new(Token::LParen, 0, 1)),
        Lexer::new("(").tokenize().unwrap());

    assert_eq!(
        vec!(ExtendedToken::new(Token::LParen, 2, 1)),
        Lexer::new("  (   ").tokenize().unwrap());

    assert_eq!(
        vec!(ExtendedToken::new(Token::RParen, 0, 1)),
        Lexer::new(")").tokenize().unwrap());

    assert_eq!(
        vec!(ExtendedToken::new(Token::RParen, 2, 1)),
        Lexer::new("  )   ").tokenize().unwrap());

    assert_eq!(
        vec!(ExtendedToken::new(Token::Quote, 0, 1)),
        Lexer::new("'").tokenize().unwrap());

    assert_eq!(
        vec!(ExtendedToken::new(Token::Integer(1234), 0, 4)),
        Lexer::new("1234").tokenize().unwrap());

    assert_eq!(
        vec!(
            ExtendedToken::new(Token::LParen, 0, 1),
            ExtendedToken::new(Token::Integer(0), 1, 1),
            ExtendedToken::new(Token::RParen, 2, 1)
        ),
        Lexer::new("(0)").tokenize().unwrap());

    assert_eq!(
        vec!(
            ExtendedToken::new(Token::Quote , 0, 1),
            ExtendedToken::new(Token::LParen, 1, 1),
            ExtendedToken::new(Token::Integer(0), 2, 1),
            ExtendedToken::new(Token::RParen, 3, 1)
        ),
        Lexer::new("'(0)").tokenize().unwrap());

    assert_eq!(
        vec!(ExtendedToken::new(Token::Keyword(String::from("defun")), 0, 5)),
        Lexer::new("defun").tokenize().unwrap());

    assert_eq!(
        vec!(ExtendedToken::new(Token::Keyword(String::from("+")), 0, 1)),
        Lexer::new("+").tokenize().unwrap());

    assert_eq!(
        vec!(ExtendedToken::new(Token::Keyword(String::from("-")), 0, 1)),
        Lexer::new("-").tokenize().unwrap());

    assert_eq!(
        vec!(ExtendedToken::new(Token::Keyword(String::from("*")), 0, 1)),
        Lexer::new("*").tokenize().unwrap());

    assert_eq!(
        vec!(ExtendedToken::new(Token::Keyword(String::from("/")), 0, 1)),
        Lexer::new("/").tokenize().unwrap());

    assert_eq!(
        vec!(ExtendedToken::new(Token::Keyword(String::from("=")), 0, 1)),
        Lexer::new("=").tokenize().unwrap());

    assert_eq!(
        vec!(ExtendedToken::new(Token::Keyword(String::from("/=")), 0, 2)),
        Lexer::new("/=").tokenize().unwrap());

    assert_eq!(
        vec!(ExtendedToken::new(Token::Keyword(String::from(">")), 0, 1)),
        Lexer::new(">").tokenize().unwrap());

    assert_eq!(
        vec!(ExtendedToken::new(Token::Keyword(String::from(">=")), 0, 2)),
        Lexer::new(">=").tokenize().unwrap());

    assert_eq!(
        vec!(ExtendedToken::new(Token::Keyword(String::from("<")), 0, 1)),
        Lexer::new("<").tokenize().unwrap());

    assert_eq!(
        vec!(ExtendedToken::new(Token::Keyword(String::from("<=")), 0, 2)),
        Lexer::new("<=").tokenize().unwrap());
}
