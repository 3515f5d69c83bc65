use std::rc::Rc;
use tiny_rust_lisp::eval::{Env, Eval};
use tiny_rust_lisp::lexer::Lexer;
use tiny_rust_lisp::parser::{Node, Parser};

fn read(text: &str) -> Rc<Node> {
    let tokens = Lexer::new(text).tokenize().unwrap();
    Parser::new(tokens).parse().unwrap()
}

fn run(env: &mut Env, text: &str) -> Result<Node, String> {
    match Eval::new().eval(env, read(text)) {
        Ok(n) => Ok((*n).clone()),
        Err(e) => Err(e.message().to_string()),
    }
}

fn run_fresh(text: &str) -> Result<Node, String> {
    run(&mut Env::new(), text)
}

fn kw(s: &str) -> Rc<Node> {
    Rc::new(Node::Keyword(String::from(s)))
}

fn num(i: i64) -> Rc<Node> {
    Rc::new(Node::Integer(i))
}

#[test]
fn arithmetic_on_two_integers() {
    assert_eq!(run_fresh("(+ 2 40)"), Ok(Node::Integer(42)));
    assert_eq!(run_fresh("(- 5 7)"), Ok(Node::Integer(-2)));
    assert_eq!(run_fresh("(* 6 7)"), Ok(Node::Integer(42)));
    assert_eq!(run_fresh("(/ 7 2)"), Ok(Node::Integer(3)));
    assert_eq!(run_fresh("(/ (- 0 7) 2)"), Ok(Node::Integer(-3)));
    assert_eq!(run_fresh("(/ 7 (- 0 2))"), Ok(Node::Integer(-3)));
    assert_eq!(run_fresh("(+ 1 2 3 4)"), Ok(Node::Integer(10)));
    assert_eq!(run_fresh("(- 10)"), Ok(Node::Integer(10)));
}

#[test]
fn arithmetic_failures() {
    assert!(run_fresh("(/ 1 0)").is_err());
    assert!(run_fresh("(+ 9223372036854775807 1)").is_err());
    assert!(run_fresh("(* 4611686018427387904 2)").is_err());
    assert!(run_fresh("(+)").is_err());
    assert!(run_fresh("(+ 1 '(2))").is_err());
    assert_eq!(run_fresh("(+ 9223372036854775807 0)"), Ok(Node::Integer(i64::MAX)));
}

#[test]
fn comparisons_chain_over_adjacent_pairs() {
    assert_eq!(run_fresh("(< 1 2 3)"), Ok(Node::True));
    assert_eq!(run_fresh("(< 1 3 2)"), Ok(Node::False));
    assert_eq!(run_fresh("(= 7 7 7)"), Ok(Node::True));
    assert_eq!(run_fresh("(/= 1 2)"), Ok(Node::True));
    assert_eq!(run_fresh("(>= 3 3 1)"), Ok(Node::True));
    assert_eq!(run_fresh("(> 3 3)"), Ok(Node::False));
    assert_eq!(run_fresh("(<= 4 3)"), Ok(Node::False));
    assert_eq!(run_fresh("(= 5)"), Ok(Node::True));
    assert!(run_fresh("(=)").is_err());
    assert!(run_fresh("(< 1 '(2))").is_err());
}

#[test]
fn car_and_cdr_of_quoted_lists() {
    assert_eq!(run_fresh("(car '(1 2 3))"), Ok(Node::Integer(1)));
    assert_eq!(
        run_fresh("(cdr '(1 2 3))"),
        Ok(Node::QuotedList(vec![num(2), num(3)]))
    );
    assert_eq!(run_fresh("(car '())"), Ok(Node::List(vec![])));
    assert_eq!(run_fresh("(cdr '())"), Ok(Node::List(vec![])));
    assert_eq!(run_fresh("(car '((+ 1 2) 4))"), Ok(Node::List(vec![kw("+"), num(1), num(2)])));
    assert!(run_fresh("(car 1)").is_err());
    assert!(run_fresh("(cdr '(1) '(2))").is_err());
}

#[test]
fn if_with_two_and_three_arguments() {
    assert_eq!(run_fresh("(if (= 1 2) 5)"), Ok(Node::List(vec![])));
    assert_eq!(run_fresh("(if (= 1 1) 5)"), Ok(Node::Integer(5)));
    assert_eq!(run_fresh("(if (< 1 2) 42 99)"), Ok(Node::Integer(42)));
    assert!(run_fresh("(if 1 2 3)").is_err());
    assert!(run_fresh("(if (= 1 1))").is_err());
    assert!(run_fresh("(if (= 1 1) 1 2 3)").is_err());
}

#[test]
fn setq_binds_and_rebinds() {
    let mut env = Env::new();
    let form = run(&mut env, "(setq x 5)").unwrap();
    assert_eq!(form, Node::List(vec![kw("setq"), kw("x"), num(5)]));
    assert_eq!(run(&mut env, "x"), Ok(Node::Integer(5)));
    run(&mut env, "(setq x 7 y (+ x 1))").unwrap();
    assert_eq!(run(&mut env, "x"), Ok(Node::Integer(7)));
    assert_eq!(run(&mut env, "y"), Ok(Node::Integer(8)));
    assert!(run(&mut env, "(setq x)").is_err());
    assert!(run(&mut env, "(setq 1 2)").is_err());
}

#[test]
fn setq_rebinds_in_innermost_frame_only() {
    let mut env = Env::new();
    run(&mut env, "(setq x 1)").unwrap();
    env.push_env();
    run(&mut env, "(setq x 2)").unwrap();
    assert_eq!(run(&mut env, "x"), Ok(Node::Integer(2)));
    env.pop_env();
    assert_eq!(run(&mut env, "x"), Ok(Node::Integer(1)));
}

#[test]
fn recursive_lambda_with_less_or_equal() {
    let mut env = Env::new();
    run(&mut env, "(setq fib (lambda (n) (if (<= n 1) 1 (+ (fib (- n 1)) (fib (- n 2))))))").unwrap();
    assert_eq!(run(&mut env, "(fib 7)"), Ok(Node::Integer(21)));
    assert_eq!(run(&mut env, "(fib 0)"), Ok(Node::Integer(1)));
}

#[test]
fn call_restores_parameter_bindings() {
    let mut env = Env::new();
    run(&mut env, "(setq n 100)").unwrap();
    run(&mut env, "(setq double (lambda (n) (* n 2)))").unwrap();
    assert_eq!(run(&mut env, "(double 5)"), Ok(Node::Integer(10)));
    assert_eq!(run(&mut env, "n"), Ok(Node::Integer(100)));
    run(&mut env, "(setq broken (lambda (n) (car n)))").unwrap();
    assert!(run(&mut env, "(broken 3)").is_err());
    assert_eq!(run(&mut env, "n"), Ok(Node::Integer(100)));
    run(&mut env, "(setq local (lambda (m) (setq z m)))").unwrap();
    run(&mut env, "(local 4)").unwrap();
    assert!(env.get(&String::from("m")).is_none());
    assert!(env.get(&String::from("z")).is_none());
}

#[test]
fn closures_see_callers_frames() {
    let mut env = Env::new();
    run(&mut env, "(setq get-a (lambda () (+ a 0)))").unwrap();
    run(&mut env, "(setq with-a (lambda (a) (get-a)))").unwrap();
    assert_eq!(run(&mut env, "(with-a 9)"), Ok(Node::Integer(9)));
}

#[test]
fn values_evaluate_to_themselves() {
    let mut env = Env::new();
    let e = Eval::new();
    assert_eq!(*e.eval(&mut env, num(3)).unwrap(), Node::Integer(3));
    assert_eq!(*e.eval(&mut env, Rc::new(Node::True)).unwrap(), Node::True);
    assert_eq!(*e.eval(&mut env, Rc::new(Node::False)).unwrap(), Node::False);
    let f = Node::Func(vec![String::from("a")], vec![kw("+"), kw("a"), num(1)]);
    assert_eq!(*e.eval(&mut env, Rc::new(f.clone())).unwrap(), f);
}

#[test]
fn lambda_builds_a_closure() {
    assert_eq!(
        run_fresh("(lambda (a b) (+ a b))"),
        Ok(Node::Func(
            vec![String::from("a"), String::from("b")],
            vec![kw("+"), kw("a"), kw("b")]
        ))
    );
    assert!(run_fresh("(lambda (a 1) (+ a 1))").is_err());
    assert!(run_fresh("(lambda (a) 1)").is_err());
    assert!(run_fresh("(lambda (a))").is_err());
}

#[test]
fn symbols_and_quoted_lists() {
    assert_eq!(run_fresh("free"), Ok(Node::Keyword(String::from("free"))));
    assert_eq!(run_fresh("'(1 x)"), Ok(Node::List(vec![num(1), kw("x")])));
    let mut env = Env::new();
    run(&mut env, "(setq a b)").unwrap();
    run(&mut env, "(setq b 3)").unwrap();
    assert_eq!(run(&mut env, "a"), Ok(Node::Integer(3)));
}

#[test]
fn malformed_forms_fail() {
    assert!(run_fresh("()").is_err());
    assert!(run_fresh("(1 2)").is_err());
    assert!(run_fresh("(nothing 1)").is_err());
    let mut env = Env::new();
    run(&mut env, "(setq two (lambda (a b) (+ a b)))").unwrap();
    assert!(run(&mut env, "(two 1)").is_err());
    run(&mut env, "(setq v 3)").unwrap();
    assert!(run(&mut env, "(v 1)").is_err());
}

#[test]
fn nesting_beyond_the_limit_fails() {
    let e = Eval::with_depth_limit(2);
    let mut env = Env::new();
    assert_eq!(*e.eval(&mut env, read("(+ 1 (+ 2 3))")).unwrap(), Node::Integer(6));
    assert!(e.eval(&mut env, read("(+ 1 (+ 2 (+ 3 4)))")).is_err());
    let mut env = Env::new();
    run(&mut env, "(setq loop (lambda (n) (loop n)))").unwrap();
    assert!(run(&mut env, "(loop 1)").is_err());
    assert_eq!(run(&mut env, "n"), Ok(Node::Keyword(String::from("n"))));
}

#[test]
fn errors_carry_a_message() {
    let e = Eval::new().eval(&mut Env::new(), read("(unknown 1)")).unwrap_err();
    assert!(e.message().contains("unknown"));
}
