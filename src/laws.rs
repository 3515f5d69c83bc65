use vstd::prelude::*;
use crate::parser::{SNode, parse_tokens, parse_items};
use crate::lexer::{SToken, lex};
use crate::{kinds, read_form};
use crate::eval::{Frames, lookup, bind, pop_frame};
use crate::semantics::{
    Builtin, builtin_name, builtin_of, lemma_builtin_of_name, eval_node, eval_args, setq_pairs,
    bind_args, eval_if, eval_setq, eval_call, eval_form, arith_result, arith_fold, arith_step,
    is_arith, trunc_div,
};

verus! {

/// `after` has as many frames as `before` and differs from it at most in the innermost one.
pub open spec fn outer_kept(before: Frames, after: Frames) -> bool {
    &&& after.len() == before.len()
    &&& forall|i: int| 0 <= i < before.len() - 1 ==> #[trigger] after[i] == before[i]
}

proof fn lemma_bind_keeps(env: Frames, k: Seq<char>, v: SNode)
    requires
        env.len() > 0,
    ensures
        outer_kept(env, bind(env, k, v)),
{
}

proof fn lemma_node_keeps(env: Frames, n: SNode, fuel: nat)
    requires
        env.len() > 0,
    ensures
        outer_kept(env, eval_node(env, n, fuel).0),
    decreases fuel, 0nat, 0nat,
{
    match n {
        SNode::Keyword(k) => {
            if lookup(env, k) is Some && fuel > 0 {
                lemma_node_keeps(env, lookup(env, k)->0, (fuel - 1) as nat);
            }
        },
        SNode::List(xs) => {
            if fuel > 0 {
                lemma_form_keeps(env, xs, (fuel - 1) as nat);
            }
        },
        _ => {},
    }
}

proof fn lemma_args_keeps(env: Frames, args: Seq<SNode>, fuel: nat)
    requires
        env.len() > 0,
    ensures
        outer_kept(env, eval_args(env, args, fuel).0),
    decreases fuel, 1nat, args.len(),
{
    if args.len() > 0 {
        lemma_args_keeps(env, args.drop_last(), fuel);
        let e1 = eval_args(env, args.drop_last(), fuel).0;
        lemma_node_keeps(e1, args.last(), fuel);
    }
}

proof fn lemma_setq_pairs_keep(env: Frames, args: Seq<SNode>, p: nat, fuel: nat)
    requires
        env.len() > 0,
    ensures
        outer_kept(env, setq_pairs(env, args, p, fuel).0),
    decreases fuel, 1nat, p,
{
    if p > 0 {
        lemma_setq_pairs_keep(env, args, (p - 1) as nat, fuel);
        let (e1, r) = setq_pairs(env, args, (p - 1) as nat, fuel);
        if r is Ok {
            if let SNode::Keyword(k) = args[2 * p - 2] {
                lemma_node_keeps(e1, args[2 * p - 1], fuel);
                let (e2, v) = eval_node(e1, args[2 * p - 1], fuel);
                if v is Ok {
                    lemma_bind_keeps(e2, k, v->Ok_0);
                }
            }
        }
    }
}

proof fn lemma_bind_args_keep(env: Frames, params: Seq<Seq<char>>, args: Seq<SNode>, k: nat, fuel: nat)
    requires
        env.len() > 0,
    ensures
        outer_kept(env, bind_args(env, params, args, k, fuel).0),
    decreases fuel, 1nat, k,
{
    if k > 0 {
        lemma_bind_args_keep(env, params, args, (k - 1) as nat, fuel);
        let (e1, r) = bind_args(env, params, args, (k - 1) as nat, fuel);
        if r is Ok {
            lemma_node_keeps(e1, args[k - 1], fuel);
            let (e2, v) = eval_node(e1, args[k - 1], fuel);
            if v is Ok {
                lemma_bind_keeps(e2, params[k - 1], v->Ok_0);
            }
        }
    }
}

proof fn lemma_if_keeps(env: Frames, args: Seq<SNode>, fuel: nat)
    requires
        env.len() > 0,
    ensures
        outer_kept(env, eval_if(env, args, fuel).0),
    decreases fuel, 2nat, 0nat,
{
    if 2 <= args.len() <= 3 {
        lemma_node_keeps(env, args[0], fuel);
        let e1 = eval_node(env, args[0], fuel).0;
        lemma_node_keeps(e1, args[1], fuel);
        if args.len() == 3 {
            lemma_node_keeps(e1, args[2], fuel);
        }
    }
}

proof fn lemma_setq_keeps(env: Frames, args: Seq<SNode>, form: SNode, fuel: nat)
    requires
        env.len() > 0,
    ensures
        outer_kept(env, eval_setq(env, args, form, fuel).0),
    decreases fuel, 2nat, 0nat,
{
    lemma_setq_pairs_keep(env, args, args.len() / 2, fuel);
}

/// A call of a closure leaves the environment exactly as it found it.
proof fn lemma_call_restores(env: Frames, args: Seq<SNode>, f: SNode, fuel: nat)
    requires
        env.len() > 0,
    ensures
        eval_call(env, args, f, fuel).0 == env,
    decreases fuel, 2nat, 0nat,
{
    if let SNode::Func(params, body) = f {
        if params.len() == args.len() {
            let pushed = env.push(Map::empty());
            lemma_bind_args_keep(pushed, params, args, args.len(), fuel);
            let (e1, r) = bind_args(pushed, params, args, args.len(), fuel);
            if r is Ok {
                lemma_node_keeps(e1, SNode::List(body), fuel);
                let e2 = eval_node(e1, SNode::List(body), fuel).0;
                assert(pop_frame(e2) =~= env) by {
                    assert forall|i: int| 0 <= i < env.len() implies pop_frame(e2)[i] == env[i] by {
                        assert(e2[i] == e1[i]);
                        assert(e1[i] == pushed[i]);
                    }
                }
            } else {
                assert(pop_frame(e1) =~= env) by {
                    assert forall|i: int| 0 <= i < env.len() implies pop_frame(e1)[i] == env[i] by {
                        assert(e1[i] == pushed[i]);
                    }
                }
            }
        }
    }
}

proof fn lemma_form_keeps(env: Frames, xs: Seq<SNode>, fuel: nat)
    requires
        env.len() > 0,
    ensures
        outer_kept(env, eval_form(env, xs, fuel).0),
    decreases fuel, 3nat, 0nat,
{
    if xs.len() > 0 {
        let args = xs.drop_first();
        if let SNode::Keyword(name) = xs[0] {
            match builtin_of(name) {
                Some(b) => {
                    lemma_args_keeps(env, args, fuel);
                    lemma_if_keeps(env, args, fuel);
                    lemma_setq_keeps(env, args, SNode::List(xs), fuel);
                },
                None => {
                    if lookup(env, name) is Some {
                        lemma_call_restores(env, args, lookup(env, name)->0, fuel);
                    }
                },
            }
        }
    }
}

/// Calling a closure restores the environment: after the call returns, with a value or a
/// failure, every frame and binding is as it was before, so in particular each name used
/// as a parameter has again the binding it had before the call, or none.
pub proof fn law_call_restores_environment(
    env: Frames,
    name: Seq<char>,
    params: Seq<Seq<char>>,
    body: Seq<SNode>,
    args: Seq<SNode>,
    fuel: nat,
)
    requires
        env.len() > 0,
        builtin_of(name) is None,
        lookup(env, name) == Some(SNode::Func(params, body)),
    ensures
        eval_node(env, SNode::List(seq![SNode::Keyword(name)] + args), fuel).0 == env,
        forall|j: int| 0 <= j < params.len() ==>
            lookup(eval_node(env, SNode::List(seq![SNode::Keyword(name)] + args), fuel).0, #[trigger] params[j])
                == lookup(env, params[j]),
{
    let xs = seq![SNode::Keyword(name)] + args;
    if fuel > 0 {
        assert(xs.drop_first() =~= args);
        assert(xs[0] == SNode::Keyword(name));
        lemma_call_restores(env, args, SNode::Func(params, body), (fuel - 1) as nat);
        assert(eval_form(env, xs, (fuel - 1) as nat).0 == env);
    }
}

/// Only the innermost frame of the environment can change when a form is evaluated.
pub proof fn law_outer_frames_kept(env: Frames, n: SNode, fuel: nat)
    requires
        env.len() > 0,
    ensures
        outer_kept(env, eval_node(env, n, fuel).0),
{
    lemma_node_keeps(env, n, fuel);
}

/// The form `(op a b)` on two integer literals.
pub open spec fn binary_form(op: Builtin, a: i64, b: i64) -> SNode {
    SNode::List(seq![SNode::Keyword(builtin_name(op)), SNode::Integer(a), SNode::Integer(b)])
}

proof fn lemma_binary(env: Frames, op: Builtin, a: i64, b: i64, fuel: nat)
    requires
        fuel > 0,
        is_arith(op),
    ensures
        eval_node(env, binary_form(op, a, b), fuel) == (env, match arith_step(op, a, b) {
            Some(c) => Ok(SNode::Integer(c)),
            None => Err(()),
        }),
{
    let f = (fuel - 1) as nat;
    let xs = seq![SNode::Keyword(builtin_name(op)), SNode::Integer(a), SNode::Integer(b)];
    let args = xs.drop_first();
    lemma_builtin_of_name(op);
    let args1 = seq![SNode::Integer(a)];
    assert(args =~= seq![SNode::Integer(a), SNode::Integer(b)]);
    assert(args.drop_last() =~= args1);
    assert(args1.drop_last() =~= Seq::<SNode>::empty());
    let r0 = Seq::<Result<SNode, ()>>::empty();
    let r1 = r0.push(Ok::<SNode, ()>(SNode::Integer(a)));
    let r2 = r1.push(Ok::<SNode, ()>(SNode::Integer(b)));
    assert(eval_args(env, Seq::<SNode>::empty(), f) == (env, r0));
    assert(eval_node(env, SNode::Integer(a), f) == (env, Ok::<SNode, ()>(SNode::Integer(a))));
    assert(eval_args(env, args1, f) == (env, r1));
    assert(eval_node(env, SNode::Integer(b), f) == (env, Ok::<SNode, ()>(SNode::Integer(b))));
    assert(eval_args(env, args, f) == (env, r2));
    assert(r2.drop_last() =~= r1);
    assert(r1.drop_last() =~= r0);
    assert(arith_fold(op, r0) == Ok::<Option<i64>, ()>(None));
    assert(arith_fold(op, r1) == Ok::<Option<i64>, ()>(Some(a)));
    assert(eval_node(env, binary_form(op, a, b), fuel) == eval_form(env, xs, f));
    assert(xs[0] == SNode::Keyword(builtin_name(op)));
    assert(eval_form(env, xs, f) == (env, arith_result(op, r2)));
}

/// Arithmetic on two integers gives the sum, the difference, the product, and the quotient
/// rounded toward zero, wherever that value is a 64-bit integer and the divisor is not zero.
pub proof fn law_arithmetic(env: Frames, a: i64, b: i64, fuel: nat)
    requires
        fuel > 0,
    ensures
        i64::MIN <= a + b <= i64::MAX ==> eval_node(env, binary_form(Builtin::Add, a, b), fuel)
            == (env, Ok::<SNode, ()>(SNode::Integer((a + b) as i64))),
        i64::MIN <= a - b <= i64::MAX ==> eval_node(env, binary_form(Builtin::Sub, a, b), fuel)
            == (env, Ok::<SNode, ()>(SNode::Integer((a - b) as i64))),
        i64::MIN <= a * b <= i64::MAX ==> eval_node(env, binary_form(Builtin::Mul, a, b), fuel)
            == (env, Ok::<SNode, ()>(SNode::Integer((a * b) as i64))),
        b != 0 && i64::MIN <= trunc_div(a as int, b as int) <= i64::MAX ==> eval_node(
            env,
            binary_form(Builtin::Div, a, b),
            fuel,
        ) == (env, Ok::<SNode, ()>(SNode::Integer(trunc_div(a as int, b as int) as i64))),
{
    lemma_binary(env, Builtin::Add, a, b, fuel);
    lemma_binary(env, Builtin::Sub, a, b, fuel);
    lemma_binary(env, Builtin::Mul, a, b, fuel);
    lemma_binary(env, Builtin::Div, a, b, fuel);
}

/// The form `(name arg)`, with `name` the keyword of a special form.
pub open spec fn unary_form(op: Builtin, arg: SNode) -> SNode {
    SNode::List(seq![SNode::Keyword(builtin_name(op)), arg])
}

/// `car` of a quoted list is its first element and `cdr` the rest, still quoted; on an
/// empty quoted list both give an empty list. Neither evaluates anything.
pub proof fn law_car_cdr(env: Frames, x: SNode, xs: Seq<SNode>, fuel: nat)
    requires
        fuel > 0,
    ensures
        eval_node(env, unary_form(Builtin::Car, SNode::QuotedList(seq![x] + xs)), fuel) == (env, Ok::<SNode, ()>(x)),
        eval_node(env, unary_form(Builtin::Cdr, SNode::QuotedList(seq![x] + xs)), fuel)
            == (env, Ok::<SNode, ()>(SNode::QuotedList(xs))),
        eval_node(env, unary_form(Builtin::Car, SNode::QuotedList(seq![])), fuel)
            == (env, Ok::<SNode, ()>(SNode::List(seq![]))),
        eval_node(env, unary_form(Builtin::Cdr, SNode::QuotedList(seq![])), fuel)
            == (env, Ok::<SNode, ()>(SNode::List(seq![]))),
{
    lemma_builtin_of_name(Builtin::Car);
    lemma_builtin_of_name(Builtin::Cdr);
    let q = SNode::QuotedList(seq![x] + xs);
    let e = SNode::QuotedList(seq![]);
    assert(seq![SNode::Keyword(builtin_name(Builtin::Car)), q].drop_first() =~= seq![q]);
    assert(seq![SNode::Keyword(builtin_name(Builtin::Cdr)), q].drop_first() =~= seq![q]);
    assert(seq![SNode::Keyword(builtin_name(Builtin::Car)), e].drop_first() =~= seq![e]);
    assert(seq![SNode::Keyword(builtin_name(Builtin::Cdr)), e].drop_first() =~= seq![e]);
    assert((seq![x] + xs).drop_first() =~= xs);
    assert((seq![x] + xs)[0] == x);
    let f = (fuel - 1) as nat;
    let fc = seq![SNode::Keyword(builtin_name(Builtin::Car)), q];
    assert(eval_node(env, unary_form(Builtin::Car, q), fuel) == eval_form(env, fc, f));
    assert(fc[0] == SNode::Keyword(builtin_name(Builtin::Car)));
    assert(builtin_of(builtin_name(Builtin::Car)) == Some(Builtin::Car));
    assert(crate::semantics::car_result(seq![q]) == Ok::<SNode, ()>(x));
    let gc = seq![SNode::Keyword(builtin_name(Builtin::Cdr)), q];
    assert(eval_node(env, unary_form(Builtin::Cdr, q), fuel) == eval_form(env, gc, f));
    assert(gc[0] == SNode::Keyword(builtin_name(Builtin::Cdr)));
    assert(crate::semantics::cdr_result(seq![q]) == Ok::<SNode, ()>(SNode::QuotedList(xs)));
    let ec = seq![SNode::Keyword(builtin_name(Builtin::Car)), e];
    assert(eval_node(env, unary_form(Builtin::Car, e), fuel) == eval_form(env, ec, f));
    assert(ec[0] == SNode::Keyword(builtin_name(Builtin::Car)));
    let ed = seq![SNode::Keyword(builtin_name(Builtin::Cdr)), e];
    assert(eval_node(env, unary_form(Builtin::Cdr, e), fuel) == eval_form(env, ed, f));
    assert(ed[0] == SNode::Keyword(builtin_name(Builtin::Cdr)));
}

/// A value that evaluates to itself.
pub open spec fn is_self_evaluating(n: SNode) -> bool {
    n is Integer || n is True || n is False || n is Func
}

/// Evaluating an integer, a boolean or a closure returns it unchanged and changes nothing.
pub proof fn law_values_self_evaluate(env: Frames, n: SNode, fuel: nat)
    requires
        is_self_evaluating(n),
    ensures
        eval_node(env, n, fuel) == (env, Ok::<SNode, ()>(n)),
{
}

/// `(setq k v)` binds `k` to `v` in the innermost frame, leaving the other frames and the
/// other names alone, and returns the form; referring to `k` afterwards gives `v`.
pub proof fn law_setq_then_reference(env: Frames, k: Seq<char>, v: SNode, fuel: nat)
    requires
        env.len() > 0,
        fuel > 0,
        is_self_evaluating(v),
    ensures
        ({
            let form = SNode::List(seq![SNode::Keyword(builtin_name(Builtin::Setq)), SNode::Keyword(k), v]);
            eval_node(env, form, fuel) == (bind(env, k, v), Ok::<SNode, ()>(form))
        }),
        bind(env, k, v).len() == env.len(),
        bind(env, k, v).last() == env.last().insert(k, v),
        forall|i: int| 0 <= i < env.len() - 1 ==> #[trigger] bind(env, k, v)[i] == env[i],
        eval_node(bind(env, k, v), SNode::Keyword(k), fuel) == (bind(env, k, v), Ok::<SNode, ()>(v)),
{
    lemma_builtin_of_name(Builtin::Setq);
    let xs = seq![SNode::Keyword(builtin_name(Builtin::Setq)), SNode::Keyword(k), v];
    let args = xs.drop_first();
    assert(args =~= seq![SNode::Keyword(k), v]);
    let f = (fuel - 1) as nat;
    assert(setq_pairs(env, args, 0, f) == (env, Ok::<(), ()>(())));
    assert(args[0] == SNode::Keyword(k));
    assert(args[1] == v);
    assert(eval_node(env, v, f) == (env, Ok::<SNode, ()>(v)));
    assert(setq_pairs(env, args, 1, f) == (bind(env, k, v), Ok::<(), ()>(())));
    assert(eval_node(env, SNode::List(xs), fuel) == eval_form(env, xs, f));
    assert(xs[0] == SNode::Keyword(builtin_name(Builtin::Setq)));
    assert(eval_form(env, xs, f) == eval_setq(env, args, SNode::List(xs), f));
    let e = bind(env, k, v);
    assert(e.last().contains_key(k));
    assert(lookup(e, k) == Some(v));
    assert(eval_node(e, v, f) == (e, Ok::<SNode, ()>(v)));
}

/// A tree that tokens can spell: integers, keywords, and lists and quoted lists of such trees.
pub open spec fn is_data(n: SNode) -> bool
    decreases n,
{
    match n {
        SNode::Integer(_) => true,
        SNode::Keyword(_) => true,
        SNode::List(xs) => all_data(xs),
        SNode::QuotedList(xs) => all_data(xs),
        _ => false,
    }
}

pub open spec fn all_data(xs: Seq<SNode>) -> bool
    decreases xs,
{
    if xs.len() == 0 {
        true
    } else {
        is_data(xs[0]) && all_data(xs.subrange(1, xs.len() as int))
    }
}

/// The tokens that spell a tree.
pub open spec fn render(n: SNode) -> Seq<SToken>
    decreases n,
{
    match n {
        SNode::Integer(i) => seq![SToken::Integer(i)],
        SNode::Keyword(k) => seq![SToken::Keyword(k)],
        SNode::List(xs) => seq![SToken::LParen] + render_all(xs) + seq![SToken::RParen],
        SNode::QuotedList(xs) => seq![SToken::Quote, SToken::LParen] + render_all(xs) + seq![SToken::RParen],
        _ => seq![],
    }
}

/// The tokens that spell a sequence of trees, one after the other.
pub open spec fn render_all(xs: Seq<SNode>) -> Seq<SToken>
    decreases xs,
{
    if xs.len() == 0 {
        seq![]
    } else {
        render(xs[0]) + render_all(xs.subrange(1, xs.len() as int))
    }
}

proof fn lemma_parse_render(n: SNode, rest: Seq<SToken>)
    requires
        is_data(n),
    ensures
        parse_tokens(render(n) + rest) == (Some(n), rest),
        render(n).len() > 0,
    decreases n,
{
    let ts = render(n) + rest;
    match n {
        SNode::List(xs) => {
            lemma_parse_render_all(xs, rest);
            assert(ts.drop_first() =~= render_all(xs) + seq![SToken::RParen] + rest);
        },
        SNode::QuotedList(xs) => {
            lemma_parse_render_all(xs, rest);
            assert(ts.drop_first() =~= seq![SToken::LParen] + (render_all(xs) + seq![SToken::RParen] + rest));
            assert(ts.drop_first().drop_first() =~= render_all(xs) + seq![SToken::RParen] + rest);
        },
        _ => {
            assert(ts.drop_first() =~= rest);
        },
    }
}

proof fn lemma_parse_render_all(xs: Seq<SNode>, rest: Seq<SToken>)
    requires
        all_data(xs),
    ensures
        parse_items(render_all(xs) + seq![SToken::RParen] + rest) == (xs, rest),
    decreases xs,
{
    let ts = render_all(xs) + seq![SToken::RParen] + rest;
    if xs.len() == 0 {
        assert(ts =~= seq![SToken::RParen] + rest);
        assert(ts.drop_first() =~= rest);
        assert(xs =~= Seq::<SNode>::empty());
        assert(ts[0] == SToken::RParen);
        assert(parse_tokens(ts) == (None::<SNode>, rest));
    } else {
        let tail = xs.subrange(1, xs.len() as int);
        let more = render_all(tail) + seq![SToken::RParen] + rest;
        assert(ts =~= render(xs[0]) + more);
        lemma_parse_render(xs[0], more);
        lemma_parse_render_all(tail, rest);
        assert(seq![xs[0]] + tail =~= xs);
        assert(parse_tokens(ts) == (Some(xs[0]), more));
        assert(more.len() < ts.len());
    }
}

/// Parsing the tokens that spell a tree gives that tree back, shape for shape, and leaves
/// the tokens that follow it.
pub proof fn law_parse_round_trip(n: SNode, rest: Seq<SToken>)
    requires
        is_data(n),
    ensures
        parse_tokens(render(n) + rest) == (Some(n), rest),
{
    lemma_parse_render(n, rest);
}

/// Reading a text whose tokens spell a tree gives that tree back.
pub proof fn law_read_round_trip(s: Seq<char>, n: SNode)
    requires
        is_data(n),
        lex(s) is Ok,
        kinds(lex(s)->Ok_0) == render(n),
    ensures
        read_form(s) == Ok::<Option<SNode>, (nat, crate::lexer::LexErrorKind)>(Some(n)),
{
    lemma_parse_render(n, seq![]);
    assert(render(n) + Seq::<SToken>::empty() =~= render(n));
}

} // verus!
