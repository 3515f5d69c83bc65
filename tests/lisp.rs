use tiny_rust_lisp::eval::{Env, Eval};
use tiny_rust_lisp::lexer::Lexer;
use tiny_rust_lisp::parser::{Node, Parser};

#[test]
fn if_then_else() {
    {
        let mut env = Env::new();
        let tokens = Lexer::new("(if (= 7 7) 42 99)").tokenize().unwrap();
        let nodes = Parser::new(tokens).parse().unwrap();
        assert_eq!(
            Node::Integer(42),
            *Eval::new().eval(&mut env, nodes).unwrap()
        )
    }

    {
        let mut env = Env::new();
        let tokens = Lexer::new("(if (= 7 13) 42 99)").tokenize().unwrap();
        let nodes = Parser::new(tokens).parse().unwrap();
        assert_eq!(
            Node::Integer(99),
            *Eval::new().eval(&mut env, nodes).unwrap()
        )
    }
}

#[test]
fn fib() {
    let mut env = Env::new();
    {
        let tokens = Lexer::new(
            "(setq fib (lambda (n) (if (= n 1) 1 (if (= n 0) 1 (+ (fib (- n 1)) (fib (- n 2)))))))").
            tokenize().unwrap();
        let nodes = Parser::new(tokens).parse().unwrap();
        Eval::new().eval(&mut env, nodes).unwrap();
    }
    {
        let tokens = Lexer::new("(fib 7)").tokenize().unwrap();
        let nodes = Parser::new(tokens).parse().unwrap();
        assert_eq!(
            Node::Integer(21),
            *Eval::new().eval(&mut env, nodes).unwrap()
        );
    }
}

#[test]
fn recursive() {
    let mut env = Env::new();
    {
        let tokens = Lexer::new(
            "(setq rec (lambda (n x) (if (<= n 0) x (rec (- n 1) (* x 2)))))").
            tokenize().unwrap();
        let nodes = Parser::new(tokens).parse().unwrap();
        Eval::new().eval(&mut env, nodes).unwrap();
    }
    {
        let tokens = Lexer::new("(rec 4 3)").tokenize().unwrap();
        let nodes = Parser::new(tokens).parse().unwrap();
        assert_eq!(
            Node::Integer(48),
            *Eval::new().eval(&mut env, nodes).unwrap()
        );
    }
}
