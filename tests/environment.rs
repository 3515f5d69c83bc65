use std::rc::Rc;
use tiny_rust_lisp::eval::Env;
use tiny_rust_lisp::parser::Node;

#[test]
fn env_insert_get_remove() {
    let mut env = Env::new();
    let k = String::from("k");
    assert!(env.get(&k).is_none());
    assert!(env.insert(k.clone(), Rc::new(Node::Integer(1))).is_none());
    assert_eq!(*env.get(&k).unwrap(), Node::Integer(1));
    let old = env.insert(k.clone(), Rc::new(Node::Integer(2))).unwrap();
    assert_eq!(*old, Node::Integer(1));
    assert_eq!(*env.get(&k).unwrap(), Node::Integer(2));
    assert_eq!(*env.remove(&k).unwrap(), Node::Integer(2));
    assert!(env.get(&k).is_none());
    assert!(env.remove(&k).is_none());
}

#[test]
fn env_frames_shadow_and_pop() {
    let mut env = Env::new();
    let k = String::from("k");
    env.insert(k.clone(), Rc::new(Node::Integer(1)));
    env.push_env();
    assert_eq!(*env.get(&k).unwrap(), Node::Integer(1));
    env.insert(k.clone(), Rc::new(Node::Integer(2)));
    assert_eq!(*env.get(&k).unwrap(), Node::Integer(2));
    assert!(env.remove(&String::from("other")).is_none());
    env.pop_env();
    assert_eq!(*env.get(&k).unwrap(), Node::Integer(1));
}

#[test]
fn env_from_pairs_later_wins() {
    let env = Env::new_with_map(vec![
        (String::from("a"), Node::Integer(1)),
        (String::from("b"), Node::True),
        (String::from("a"), Node::Integer(3)),
    ]);
    assert_eq!(*env.get(&String::from("a")).unwrap(), Node::Integer(3));
    assert_eq!(*env.get(&String::from("b")).unwrap(), Node::True);
    assert!(env.get(&String::from("c")).is_none());
}
