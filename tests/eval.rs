use std::rc::Rc;
use tiny_rust_lisp::eval::{Env, Eval};
use tiny_rust_lisp::parser::Node;

#[test]
fn eval() {
    assert_eq!(
        Node::Integer(42),
        *Eval::new().eval(
            &mut Env::new(),
            Rc::new(Node::List(
                vec![
                    Rc::new(Node::Keyword(String::from("+"))),
                    Rc::new(Node::Integer(2)),
                    Rc::new(Node::Integer(40)),
                ]
            ))
        ).unwrap()
    );

    assert_eq!(
        Node::Integer(42),
        *Eval::new().eval(
            &mut Env::new(),
            Rc::new(Node::List(
                vec![
                    Rc::new(Node::Keyword(String::from("*"))),
                    Rc::new(Node::Integer(6)),
                    Rc::new(Node::List(
                        vec![
                            Rc::new(Node::Keyword(String::from("-"))),
                            Rc::new(Node::Integer(42)),
                            Rc::new(Node::Integer(35)),
                        ]
                    )),
                ]
            ))
        ).unwrap()
    );

    assert_eq!(
        Node::Integer(42),
        *Eval::new().eval(
            &mut Env::new(),
            Rc::new(Node::List(
                vec![
                    Rc::new(Node::Keyword(String::from("car"))),
                    Rc::new(Node::QuotedList(
                        vec![
                            Rc::new(Node::Integer(42)),
                            Rc::new(Node::Integer(-123)),
                            Rc::new(Node::Integer(0)),
                        ]
                    )),
                ]
            ))
        ).unwrap()
    );

    assert_eq!(
        Node::QuotedList(
            vec![
                Rc::new(Node::Integer(4)),
                Rc::new(Node::Integer(2)),
            ]
        ),
        *Eval::new().eval(
            &mut Env::new(),
            Rc::new(Node::List(
                vec![
                    Rc::new(Node::Keyword(String::from("cdr"))),
                    Rc::new(Node::QuotedList(
                        vec![
                            Rc::new(Node::Integer(0)),
                            Rc::new(Node::Integer(4)),
                            Rc::new(Node::Integer(2)),
                        ]
                    )),
                ]
            ))
        ).unwrap()
    );

    let env0 = &mut Env::new();
    env0.insert(String::from("x"), Rc::new(Node::Integer(40)));
    assert_eq!(
        Node::Integer(42),
        *Eval::new().eval(
            env0,
            Rc::new(Node::List(
                vec![
                    Rc::new(Node::Keyword(String::from("+"))),
                    Rc::new(Node::Integer(2)),
                    Rc::new(Node::Keyword(String::from("x")))
                ]
            ))
        ).unwrap()
    );

    let env1 = &mut Env::new();
    Eval::new().eval(
        env1,
        Rc::new(Node::List(
            vec![
                Rc::new(Node::Keyword(String::from("setq"))),
                Rc::new(Node::Keyword(String::from("add"))),
                Rc::new(Node::List(
                    vec![
                        Rc::new(Node::Keyword(String::from("lambda"))),
                        Rc::new(Node::List(
                            vec![
                                Rc::new(Node::Keyword(String::from("a"))),
                                Rc::new(Node::Keyword(String::from("b"))),
                            ]
                        )),
                        Rc::new(Node::List(
                            vec![
                                Rc::new(Node::Keyword(String::from("+"))),
                                Rc::new(Node::Keyword(String::from("a"))),
                                Rc::new(Node::Keyword(String::from("b"))),
                            ]
                        )),
                    ]
                ))
            ]
        ))
    );

    assert_eq!(
        Node::Integer(42),
        *Eval::new().eval(
            env1,
            Rc::new(Node::List(
                vec![
                    Rc::new(Node::Keyword(String::from("add"))),
                    Rc::new(Node::Integer(40)),
                    Rc::new(Node::Integer(2)),
                ]
            ))
        ).unwrap()
    );
}
