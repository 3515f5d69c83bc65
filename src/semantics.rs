use vstd::prelude::*;
use crate::parser::SNode;
use crate::eval::{Frames, lookup, bind, pop_frame};

verus! {

/// The special forms, each named by a fixed keyword.
#[derive(Clone, Copy, Debug, PartialEq, Eq, Structural)]
pub enum Builtin {
    Add,
    Sub,
    Mul,
    Div,
    Eq,
    Gt,
    Ge,
    Lt,
    Le,
    Ne,
    If,
    Car,
    Cdr,
    Setq,
    Lambda,
}

/// The keyword that names a special form.
pub open spec fn builtin_name(b: Builtin) -> Seq<char> {
    match b {
        Builtin::Add => seq!['+'],
        Builtin::Sub => seq!['-'],
        Builtin::Mul => seq!['*'],
        Builtin::Div => seq!['/'],
        Builtin::Eq => seq!['='],
        Builtin::Gt => seq!['>'],
        Builtin::Ge => seq!['>', '='],
        Builtin::Lt => seq!['<'],
        Builtin::Le => seq!['<', '='],
        Builtin::Ne => seq!['/', '='],
        Builtin::If => seq!['i', 'f'],
        Builtin::Car => seq!['c', 'a', 'r'],
        Builtin::Cdr => seq!['c', 'd', 'r'],
        Builtin::Setq => seq!['s', 'e', 't', 'q'],
        Builtin::Lambda => seq!['l', 'a', 'm', 'b', 'd', 'a'],
    }
}

/// The special form that a keyword names, if any.
pub open spec fn builtin_of(name: Seq<char>) -> Option<Builtin> {
    if exists|b: Builtin| builtin_name(b) == name {
        Some(choose|b: Builtin| builtin_name(b) == name)
    } else {
        None
    }
}

/// No two special forms share a keyword.
pub proof fn lemma_builtin_names_distinct(a: Builtin, b: Builtin)
    ensures
        builtin_name(a) == builtin_name(b) ==> a == b,
{
    if builtin_name(a) == builtin_name(b) {
        let na = builtin_name(a);
        let nb = builtin_name(b);
        assert(na.len() == nb.len());
        assert(na[0] == nb[0]);
        if na.len() > 1 {
            assert(na[1] == nb[1]);
        }
    }
}

/// A keyword names exactly the special form whose name it is.
pub proof fn lemma_builtin_of_name(b: Builtin)
    ensures
        builtin_of(builtin_name(b)) == Some(b),
{
    let c = choose|c: Builtin| builtin_name(c) == builtin_name(b);
    lemma_builtin_names_distinct(b, c);
}

pub open spec fn is_arith(b: Builtin) -> bool {
    b == Builtin::Add || b == Builtin::Sub || b == Builtin::Mul || b == Builtin::Div
}

pub open spec fn is_comparison(b: Builtin) -> bool {
    b == Builtin::Eq || b == Builtin::Gt || b == Builtin::Ge || b == Builtin::Lt || b == Builtin::Le
        || b == Builtin::Ne
}

/// Division that rounds toward zero, as Rust's integer division does.
pub open spec fn trunc_div(a: int, b: int) -> int {
    let q = (if a < 0 { -a } else { a }) / (if b < 0 { -b } else { b });
    if (a < 0) == (b < 0) { q } else { -q }
}

/// The exact result of an arithmetic form on two integers, before the range check.
pub open spec fn arith_exact(op: Builtin, a: int, b: int) -> int {
    match op {
        Builtin::Add => a + b,
        Builtin::Sub => a - b,
        Builtin::Mul => a * b,
        _ => trunc_div(a, b),
    }
}

/// One step of an arithmetic fold: fails on division by zero and outside the 64-bit range.
pub open spec fn arith_step(op: Builtin, a: i64, b: i64) -> Option<i64> {
    if op == Builtin::Div && b == 0 {
        None
    } else if i64::MIN <= arith_exact(op, a as int, b as int) <= i64::MAX {
        Some(arith_exact(op, a as int, b as int) as i64)
    } else {
        None
    }
}

/// The relation that a comparison form asks of each adjacent pair.
pub open spec fn relates(op: Builtin, a: i64, b: i64) -> bool {
    match op {
        Builtin::Eq => a == b,
        Builtin::Gt => a > b,
        Builtin::Ge => a >= b,
        Builtin::Lt => a < b,
        Builtin::Le => a <= b,
        _ => a != b,
    }
}

/// Left fold of arithmetic over evaluated arguments: `Ok(None)` before the first one.
pub open spec fn arith_fold(op: Builtin, rs: Seq<Result<SNode, ()>>) -> Result<Option<i64>, ()>
    decreases rs.len(),
{
    if rs.len() == 0 {
        Ok(None)
    } else {
        match (arith_fold(op, rs.drop_last()), rs.last()) {
            (Ok(None), Ok(SNode::Integer(v))) => Ok(Some(v)),
            (Ok(Some(a)), Ok(SNode::Integer(v))) => match arith_step(op, a, v) {
                Some(c) => Ok(Some(c)),
                None => Err(()),
            },
            _ => Err(()),
        }
    }
}

/// Value of an arithmetic form whose arguments evaluated to `rs`.
pub open spec fn arith_result(op: Builtin, rs: Seq<Result<SNode, ()>>) -> Result<SNode, ()> {
    match arith_fold(op, rs) {
        Ok(Some(a)) => Ok(SNode::Integer(a)),
        _ => Err(()),
    }
}

/// Left fold of a comparison: whether all pairs so far relate, and the last integer.
pub open spec fn compare_fold(op: Builtin, rs: Seq<Result<SNode, ()>>) -> Result<Option<(bool, i64)>, ()>
    decreases rs.len(),
{
    if rs.len() == 0 {
        Ok(None)
    } else {
        match (compare_fold(op, rs.drop_last()), rs.last()) {
            (Ok(None), Ok(SNode::Integer(v))) => Ok(Some((true, v))),
            (Ok(Some((ok, prev))), Ok(SNode::Integer(v))) => Ok(Some((ok && relates(op, prev, v), v))),
            _ => Err(()),
        }
    }
}

/// Value of a comparison form whose arguments evaluated to `rs`.
pub open spec fn compare_result(op: Builtin, rs: Seq<Result<SNode, ()>>) -> Result<SNode, ()> {
    match compare_fold(op, rs) {
        Ok(Some((true, _))) => Ok(SNode::True),
        Ok(Some((false, _))) => Ok(SNode::False),
        _ => Err(()),
    }
}

/// `(car q)`: the first element of a literal quoted list, or an empty list.
pub open spec fn car_result(args: Seq<SNode>) -> Result<SNode, ()> {
    if args.len() == 1 {
        match args[0] {
            SNode::QuotedList(xs) => if xs.len() > 0 {
                Ok(xs[0])
            } else {
                Ok(SNode::List(seq![]))
            },
            _ => Err(()),
        }
    } else {
        Err(())
    }
}

/// `(cdr q)`: the rest of a literal quoted list, still quoted, or an empty list.
pub open spec fn cdr_result(args: Seq<SNode>) -> Result<SNode, ()> {
    if args.len() == 1 {
        match args[0] {
            SNode::QuotedList(xs) => if xs.len() > 0 {
                Ok(SNode::QuotedList(xs.drop_first()))
            } else {
                Ok(SNode::List(seq![]))
            },
            _ => Err(()),
        }
    } else {
        Err(())
    }
}

pub open spec fn is_keyword(n: SNode) -> bool {
    n is Keyword
}

pub open spec fn keyword_name(n: SNode) -> Seq<char> {
    match n {
        SNode::Keyword(k) => k,
        _ => seq![],
    }
}

/// `(lambda (params...) (body...))`: a closure, when every parameter is a keyword.
pub open spec fn lambda_result(args: Seq<SNode>) -> Result<SNode, ()> {
    if args.len() == 2 {
        match (args[0], args[1]) {
            (SNode::List(ps), SNode::List(body)) => if forall|i: int| 0 <= i < ps.len() ==> is_keyword(#[trigger] ps[i]) {
                Ok(SNode::Func(ps.map_values(|p: SNode| keyword_name(p)), body))
            } else {
                Err(())
            },
            _ => Err(()),
        }
    } else {
        Err(())
    }
}

/// The environment after an evaluation, and its value or failure.
pub type Outcome = (Frames, Result<SNode, ()>);

/// Evaluates `n` in `env` with `fuel` levels of nesting left.
pub open spec fn eval_node(env: Frames, n: SNode, fuel: nat) -> Outcome
    decreases fuel, 0nat, 0nat,
{
    match n {
        SNode::Keyword(k) => match lookup(env, k) {
            Some(v) => if fuel == 0 {
                (env, Err(()))
            } else {
                eval_node(env, v, (fuel - 1) as nat)
            },
            None => (env, Ok(n)),
        },
        SNode::QuotedList(xs) => (env, Ok(SNode::List(xs))),
        SNode::List(xs) => if fuel == 0 {
            (env, Err(()))
        } else {
            eval_form(env, xs, (fuel - 1) as nat)
        },
        _ => (env, Ok(n)),
    }
}

/// Evaluates `args` left to right, each in the environment the previous one left.
pub open spec fn eval_args(env: Frames, args: Seq<SNode>, fuel: nat) -> (Frames, Seq<Result<SNode, ()>>)
    decreases fuel, 1nat, args.len(),
{
    if args.len() == 0 {
        (env, seq![])
    } else {
        let (e1, rs) = eval_args(env, args.drop_last(), fuel);
        let (e2, r) = eval_node(e1, args.last(), fuel);
        (e2, rs.push(r))
    }
}

/// The first `p` key and value pairs of a `setq`, bound one after the other.
pub open spec fn setq_pairs(env: Frames, args: Seq<SNode>, p: nat, fuel: nat) -> (Frames, Result<(), ()>)
    decreases fuel, 1nat, p,
{
    if p == 0 {
        (env, Ok(()))
    } else {
        let (e1, r) = setq_pairs(env, args, (p - 1) as nat, fuel);
        match r {
            Err(_) => (e1, Err(())),
            Ok(_) => match args[2 * p - 2] {
                SNode::Keyword(k) => {
                    let (e2, v) = eval_node(e1, args[2 * p - 1], fuel);
                    match v {
                        Ok(v) => (bind(e2, k, v), Ok(())),
                        Err(_) => (e2, Err(())),
                    }
                },
                _ => (e1, Err(())),
            },
        }
    }
}

/// The first `k` arguments of a call, evaluated and bound to the parameters.
pub open spec fn bind_args(env: Frames, params: Seq<Seq<char>>, args: Seq<SNode>, k: nat, fuel: nat) -> (Frames, Result<(), ()>)
    decreases fuel, 1nat, k,
{
    if k == 0 {
        (env, Ok(()))
    } else {
        let (e1, r) = bind_args(env, params, args, (k - 1) as nat, fuel);
        match r {
            Err(_) => (e1, Err(())),
            Ok(_) => {
                let (e2, v) = eval_node(e1, args[k - 1], fuel);
                match v {
                    Ok(v) => (bind(e2, params[k - 1], v), Ok(())),
                    Err(_) => (e2, Err(())),
                }
            },
        }
    }
}

/// `(if c t e)` and `(if c t)`.
pub open spec fn eval_if(env: Frames, args: Seq<SNode>, fuel: nat) -> Outcome
    decreases fuel, 2nat, 0nat,
{
    if args.len() < 2 || args.len() > 3 {
        (env, Err(()))
    } else {
        let (e1, c) = eval_node(env, args[0], fuel);
        match c {
            Ok(SNode::True) => eval_node(e1, args[1], fuel),
            Ok(SNode::False) => if args.len() == 3 {
                eval_node(e1, args[2], fuel)
            } else {
                (e1, Ok(SNode::List(seq![])))
            },
            _ => (e1, Err(())),
        }
    }
}

/// `(setq k1 v1 k2 v2 ...)`, whose value is the form itself.
pub open spec fn eval_setq(env: Frames, args: Seq<SNode>, form: SNode, fuel: nat) -> Outcome
    decreases fuel, 2nat, 0nat,
{
    if args.len() % 2 != 0 {
        (env, Err(()))
    } else {
        let (e1, r) = setq_pairs(env, args, args.len() / 2, fuel);
        match r {
            Ok(_) => (e1, Ok(form)),
            Err(_) => (e1, Err(())),
        }
    }
}

/// Calls the closure `f` on the argument forms `args`, in a frame of its own.
pub open spec fn eval_call(env: Frames, args: Seq<SNode>, f: SNode, fuel: nat) -> Outcome
    decreases fuel, 2nat, 0nat,
{
    match f {
        SNode::Func(params, body) => if params.len() != args.len() {
            (env, Err(()))
        } else {
            let (e1, r) = bind_args(env.push(Map::empty()), params, args, args.len(), fuel);
            match r {
                Err(_) => (pop_frame(e1), Err(())),
                Ok(_) => {
                    let (e2, v) = eval_node(e1, SNode::List(body), fuel);
                    (pop_frame(e2), v)
                },
            }
        },
        _ => (env, Err(())),
    }
}

/// Evaluates the list form whose items are `xs`.
pub open spec fn eval_form(env: Frames, xs: Seq<SNode>, fuel: nat) -> Outcome
    decreases fuel, 3nat, 0nat,
{
    if xs.len() == 0 {
        (env, Err(()))
    } else {
        let args = xs.drop_first();
        match xs[0] {
            SNode::Keyword(name) => match builtin_of(name) {
                Some(b) => if is_arith(b) {
                    let (e1, rs) = eval_args(env, args, fuel);
                    (e1, arith_result(b, rs))
                } else if is_comparison(b) {
                    let (e1, rs) = eval_args(env, args, fuel);
                    (e1, compare_result(b, rs))
                } else if b == Builtin::If {
                    eval_if(env, args, fuel)
                } else if b == Builtin::Car {
                    (env, car_result(args))
                } else if b == Builtin::Cdr {
                    (env, cdr_result(args))
                } else if b == Builtin::Setq {
                    eval_setq(env, args, SNode::List(xs), fuel)
                } else {
                    (env, lambda_result(args))
                },
                None => match lookup(env, name) {
                    Some(f) => eval_call(env, args, f, fuel),
                    None => (env, Err(())),
                },
            },
            _ => (env, Err(())),
        }
    }
}

/// Once a pair of a `setq` fails, the later pairs change nothing.
pub proof fn lemma_setq_pairs_stop(env: Frames, args: Seq<SNode>, p: nat, q: nat, fuel: nat)
    requires
        p <= q,
        setq_pairs(env, args, p, fuel).1 is Err,
    ensures
        setq_pairs(env, args, q, fuel) == setq_pairs(env, args, p, fuel),
    decreases q - p,
{
    if p < q {
        lemma_setq_pairs_stop(env, args, p, (q - 1) as nat, fuel);
    }
}

/// Once an argument of a call fails, the later arguments change nothing.
pub proof fn lemma_bind_args_stop(env: Frames, params: Seq<Seq<char>>, args: Seq<SNode>, k: nat, m: nat, fuel: nat)
    requires
        k <= m,
        bind_args(env, params, args, k, fuel).1 is Err,
    ensures
        bind_args(env, params, args, m, fuel) == bind_args(env, params, args, k, fuel),
    decreases m - k,
{
    if k < m {
        lemma_bind_args_stop(env, params, args, k, (m - 1) as nat, fuel);
    }
}

} // verus!
