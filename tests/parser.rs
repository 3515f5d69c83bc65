use std::rc::Rc;
use tiny_rust_lisp::lexer::{ExtendedToken, Token};
use tiny_rust_lisp::parser::{Node, Parser};

#[test]
fn parse0() {
    let tokens = vec![
        ExtendedToken {
            token: Token::LParen, index: 0, len: 1
        },
        ExtendedToken {
            token: Token::Keyword(String::from("+")), index: 1, len: 1
        },
        ExtendedToken {
            token: Token::Integer(1), index: 3, len: 1
        },
        ExtendedToken {
            token: Token::LParen, index: 5, len: 1
        },
        ExtendedToken {
            token: Token::Keyword(String::from("-")), index: 6, len: 1
        },
        ExtendedToken {
            token: Token::Integer(5), index: 8, len: 1
        },
        ExtendedToken {
            token: Token::Integer(2), index: 10, len: 1
        },
        ExtendedToken {
            token: Token::RParen, index: 11, len: 1
        },
        ExtendedToken {
            token: Token::RParen, index: 12, len: 1
        },
    ];
    assert_eq!(
        Node::List(
            vec![
                Rc::new(Node::Keyword(String::from("+"))),
                Rc::new(Node::Integer(1)),
                Rc::new(Node::List(
                    vec![
                        Rc::new(Node::Keyword(String::from("-"))),
                        Rc::new(Node::Integer(5)),
                        Rc::new(Node::Integer(2)),
                    ]))]),
        *Parser::new(tokens).parse().unwrap()
    );
}

#[test]
fn parse1() {
    let tokens = vec![
        ExtendedToken {
            token: Token::Quote, index: 0, len: 1
        },
        ExtendedToken {
            token: Token::LParen, index: 1, len: 1
        },
        ExtendedToken {
            token: Token::Integer(1), index: 2, len: 1
        },
        ExtendedToken {
            token: Token::RParen, index: 3, len: 1
        },
    ];
    assert_eq!(
        Node::QuotedList(vec![Rc::new(Node::Integer(1))]),
        *Parser::new(tokens).parse().unwrap()
    );
}
