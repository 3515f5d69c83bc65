use std::rc::Rc;
use tiny_rust_lisp::lexer::{ExtendedToken, LexErrorKind, Lexer, Token};
use tiny_rust_lisp::parser::{Node, Parser};
use tiny_rust_lisp::{Lisp, LispError};

fn kw(s: &str) -> Rc<Node> {
    Rc::new(Node::Keyword(String::from(s)))
}

fn num(i: i64) -> Rc<Node> {
    Rc::new(Node::Integer(i))
}

#[test]
fn words_and_positions() {
    assert_eq!(
        Lexer::new("(a-b 12x 007)").tokenize().unwrap(),
        vec![
            ExtendedToken::new(Token::LParen, 0, 1),
            ExtendedToken::new(Token::Keyword(String::from("a-b")), 1, 3),
            ExtendedToken::new(Token::Keyword(String::from("12x")), 5, 3),
            ExtendedToken::new(Token::Integer(7), 9, 3),
            ExtendedToken::new(Token::RParen, 12, 1),
        ]
    );
    assert_eq!(
        Lexer::new("/1 <a").tokenize().unwrap(),
        vec![
            ExtendedToken::new(Token::Keyword(String::from("/")), 0, 1),
            ExtendedToken::new(Token::Integer(1), 1, 1),
            ExtendedToken::new(Token::Keyword(String::from("<")), 3, 1),
            ExtendedToken::new(Token::Keyword(String::from("a")), 4, 1),
        ]
    );
    assert_eq!(Lexer::new(" \t\n").tokenize().unwrap(), vec![]);
}

#[test]
fn lexer_failures() {
    let e = Lexer::new("(+ 1 #)").tokenize().unwrap_err();
    assert_eq!(e.index, 5);
    assert_eq!(e.kind, LexErrorKind::UnexpectedChar('#'));
    let e = Lexer::new(" 99999999999999999999").tokenize().unwrap_err();
    assert_eq!(e.index, 1);
    assert_eq!(e.kind, LexErrorKind::IntegerOverflow);
    assert_eq!(
        Lexer::new("9223372036854775807").tokenize().unwrap(),
        vec![ExtendedToken::new(Token::Integer(i64::MAX), 0, 19)]
    );
}

#[test]
fn tokenize_then_parse_keeps_the_shape() {
    let tokens = Lexer::new("(f '(1 (g)) (h x 2))").tokenize().unwrap();
    let node = Parser::new(tokens).parse().unwrap();
    assert_eq!(
        *node,
        Node::List(vec![
            kw("f"),
            Rc::new(Node::QuotedList(vec![num(1), Rc::new(Node::List(vec![kw("g")]))])),
            Rc::new(Node::List(vec![kw("h"), kw("x"), num(2)])),
        ])
    );
}

#[test]
fn parser_is_lenient() {
    let mut p = Parser::new(Lexer::new("(1 2").tokenize().unwrap());
    assert_eq!(*p.parse().unwrap(), Node::List(vec![num(1), num(2)]));
    assert!(p.parse().is_none());
    let mut p = Parser::new(Lexer::new(") 5").tokenize().unwrap());
    assert!(p.parse().is_none());
    assert_eq!(*p.parse().unwrap(), Node::Integer(5));
    let mut p = Parser::new(Lexer::new("'x 3").tokenize().unwrap());
    assert!(p.parse().is_none());
    assert_eq!(*p.parse().unwrap(), Node::Integer(3));
}

#[test]
fn session_keeps_bindings_between_lines() {
    let mut lisp = Lisp::new();
    lisp.eval_line("(setq x 40)").unwrap();
    assert_eq!(lisp.eval_line("(+ x 2)").unwrap(), Node::Integer(42));
    assert!(matches!(lisp.eval_line("   "), Err(LispError::EOF)));
    assert!(matches!(lisp.eval_line("(+ 1 %)"), Err(LispError::Lexer(_))));
    assert!(matches!(lisp.eval_line("(car 1)"), Err(LispError::Eval(_))));
    assert_eq!(lisp.eval_line("x 1").unwrap(), Node::Integer(40));
}
