use std::rc::Rc;
use vstd::prelude::*;
use crate::parser::{Node, SNode, node_view, nodes_view, share, share_all};
use crate::semantics::{
    Builtin, Outcome, builtin_name, builtin_of, lemma_builtin_of_name, is_arith, is_comparison,
    arith_step, relates, arith_fold, arith_result, compare_fold, compare_result, car_result,
    cdr_result, lambda_result, keyword_name, eval_node, eval_args, setq_pairs, bind_args, eval_if,
    eval_setq, eval_call, eval_form, lemma_setq_pairs_stop, lemma_bind_args_stop,
};

verus! {

broadcast use crate::parser::lemma_nodes_view;

/// One frame of bindings as it is stored: name and value pairs.
pub type Bindings = Seq<(String, Rc<Node>)>;

/// The environment as a mathematical value: frames from outermost to innermost.
pub type Frames = Seq<Map<Seq<char>, SNode>>;

/// `k` is bound somewhere in the stored frame `f`.
pub open spec fn frame_has(f: Bindings, k: Seq<char>) -> bool {
    exists|i: int| 0 <= i < f.len() && (#[trigger] f[i]).0@ == k
}

/// No name is stored twice in one frame.
pub open spec fn unique_keys(f: Bindings) -> bool {
    forall|i: int, j: int|
        0 <= i < f.len() && 0 <= j < f.len() && i != j ==> (#[trigger] f[i]).0@ != (#[trigger] f[j]).0@
}

/// The map a stored frame stands for.
pub open spec fn frame_view(f: Bindings) -> Map<Seq<char>, SNode> {
    Map::new(
        |k: Seq<char>| frame_has(f, k),
        |k: Seq<char>| node_view(*f[choose|i: int| 0 <= i < f.len() && (#[trigger] f[i]).0@ == k].1),
    )
}

/// The binding of `k` seen from the innermost frame outwards.
pub open spec fn lookup(env: Frames, k: Seq<char>) -> Option<SNode>
    decreases env.len(),
{
    if env.len() == 0 {
        None
    } else if env.last().contains_key(k) {
        Some(env.last()[k])
    } else {
        lookup(env.drop_last(), k)
    }
}

/// `env` with `k` bound to `v` in its innermost frame.
pub open spec fn bind(env: Frames, k: Seq<char>, v: SNode) -> Frames {
    env.update(env.len() - 1, env.last().insert(k, v))
}

/// `env` with `k` unbound in its innermost frame.
pub open spec fn unbind(env: Frames, k: Seq<char>) -> Frames {
    env.update(env.len() - 1, env.last().remove(k))
}

/// `env` without its innermost frame; an empty stack stays empty.
pub open spec fn pop_frame(env: Frames) -> Frames {
    if env.len() == 0 {
        env
    } else {
        env.drop_last()
    }
}

/// The frame that binding each pair of `bs` in order yields.
pub open spec fn bindings_map(bs: Seq<(String, Node)>) -> Map<Seq<char>, SNode>
    decreases bs.len(),
{
    if bs.len() == 0 {
        Map::empty()
    } else {
        bindings_map(bs.drop_last()).insert(bs.last().0@, node_view(bs.last().1))
    }
}

/// The value that an optional shared node stands for.
pub open spec fn opt_view(o: Option<Rc<Node>>) -> Option<SNode> {
    match o {
        Some(n) => Some(node_view(*n)),
        None => None,
    }
}

proof fn lemma_frame_at(f: Bindings, i: int)
    requires
        unique_keys(f),
        0 <= i < f.len(),
    ensures
        frame_view(f).contains_key(f[i].0@),
        frame_view(f)[f[i].0@] == node_view(*f[i].1),
{
    let k = f[i].0@;
    assert(frame_has(f, k));
    let j = choose|j: int| 0 <= j < f.len() && (#[trigger] f[j]).0@ == k;
    assert(j == i);
}

proof fn lemma_frame_set(f: Bindings, i: int, k: String, v: Rc<Node>)
    requires
        unique_keys(f),
        0 <= i < f.len(),
        f[i].0@ == k@,
    ensures
        unique_keys(f.update(i, (k, v))),
        frame_view(f.update(i, (k, v))) == frame_view(f).insert(k@, node_view(*v)),
{
    let g = f.update(i, (k, v));
    assert(unique_keys(g)) by {
        assert forall|a: int, b: int| 0 <= a < g.len() && 0 <= b < g.len() && a != b implies
            (#[trigger] g[a]).0@ != (#[trigger] g[b]).0@ by {
            assert(f[a].0@ != f[b].0@);
        }
    }
    let m = frame_view(f).insert(k@, v@);
    assert forall|key: Seq<char>| #[trigger] frame_view(g).contains_key(key) <==> m.contains_key(key) by {
        if frame_has(f, key) {
            let j = choose|j: int| 0 <= j < f.len() && (#[trigger] f[j]).0@ == key;
            assert(g[j].0@ == key);
        }
        if frame_has(g, key) {
            let j = choose|j: int| 0 <= j < g.len() && (#[trigger] g[j]).0@ == key;
            assert(f[j].0@ == key);
        }
    }
    assert forall|key: Seq<char>| #[trigger] frame_view(g).contains_key(key) implies frame_view(g)[key] == m[key] by {
        let j = choose|j: int| 0 <= j < g.len() && (#[trigger] g[j]).0@ == key;
        lemma_frame_at(g, j);
        if j != i {
            lemma_frame_at(f, j);
        }
    }
    assert(frame_view(g) =~= m);
}

proof fn lemma_frame_push(f: Bindings, k: String, v: Rc<Node>)
    requires
        unique_keys(f),
        !frame_has(f, k@),
    ensures
        unique_keys(f.push((k, v))),
        frame_view(f.push((k, v))) == frame_view(f).insert(k@, node_view(*v)),
{
    let g = f.push((k, v));
    assert(unique_keys(g)) by {
        assert forall|a: int, b: int| 0 <= a < g.len() && 0 <= b < g.len() && a != b implies
            (#[trigger] g[a]).0@ != (#[trigger] g[b]).0@ by {
            if a < f.len() && b < f.len() {
                assert(f[a].0@ != f[b].0@);
            } else if a < f.len() {
                assert(g[a] == f[a]);
            } else {
                assert(g[b] == f[b]);
            }
        }
    }
    let m = frame_view(f).insert(k@, v@);
    assert forall|key: Seq<char>| #[trigger] frame_view(g).contains_key(key) <==> m.contains_key(key) by {
        if frame_has(f, key) {
            let j = choose|j: int| 0 <= j < f.len() && (#[trigger] f[j]).0@ == key;
            assert(g[j].0@ == key);
        }
        if frame_has(g, key) {
            let j = choose|j: int| 0 <= j < g.len() && (#[trigger] g[j]).0@ == key;
            if j < f.len() {
                assert(f[j].0@ == key);
            }
        }
        assert(g[f.len() as int].0@ == k@);
    }
    assert forall|key: Seq<char>| #[trigger] frame_view(g).contains_key(key) implies frame_view(g)[key] == m[key] by {
        let j = choose|j: int| 0 <= j < g.len() && (#[trigger] g[j]).0@ == key;
        lemma_frame_at(g, j);
        if j < f.len() {
            assert(g[j] == f[j]);
            lemma_frame_at(f, j);
        }
    }
    assert(frame_view(g) =~= m);
}

proof fn lemma_frame_remove(f: Bindings, i: int)
    requires
        unique_keys(f),
        0 <= i < f.len(),
    ensures
        unique_keys(f.remove(i)),
        frame_view(f.remove(i)) == frame_view(f).remove(f[i].0@),
{
    let g = f.remove(i);
    let k = f[i].0@;
    assert(unique_keys(g)) by {
        assert forall|a: int, b: int| 0 <= a < g.len() && 0 <= b < g.len() && a != b implies
            (#[trigger] g[a]).0@ != (#[trigger] g[b]).0@ by {
            let fa = if a < i { a } else { a + 1 };
            let fb = if b < i { b } else { b + 1 };
            assert(g[a] == f[fa]);
            assert(g[b] == f[fb]);
            assert(f[fa].0@ != f[fb].0@);
        }
    }
    let m = frame_view(f).remove(k);
    assert forall|key: Seq<char>| #[trigger] frame_view(g).contains_key(key) <==> m.contains_key(key) by {
        if frame_has(f, key) && key != k {
            let j = choose|j: int| 0 <= j < f.len() && (#[trigger] f[j]).0@ == key;
            let gj = if j < i { j } else { j - 1 };
            assert(g[gj] == f[j]);
        }
        if frame_has(g, key) {
            let j = choose|j: int| 0 <= j < g.len() && (#[trigger] g[j]).0@ == key;
            let fj = if j < i { j } else { j + 1 };
            assert(g[j] == f[fj]);
            assert(f[fj].0@ != f[i].0@);
        }
    }
    assert forall|key: Seq<char>| #[trigger] frame_view(g).contains_key(key) implies frame_view(g)[key] == m[key] by {
        let j = choose|j: int| 0 <= j < g.len() && (#[trigger] g[j]).0@ == key;
        let fj = if j < i { j } else { j + 1 };
        assert(g[j] == f[fj]);
        lemma_frame_at(g, j);
        lemma_frame_at(f, fj);
    }
    assert(frame_view(g) =~= m);
}

/// The variable environment: a stack of frames, innermost last.
#[derive(Debug, Clone)]
pub struct Env {
    envs: Vec<Vec<(String, Rc<Node>)>>,
}

impl View for Env {
    type V = Frames;

    closed spec fn view(&self) -> Frames {
        self.envs@.map_values(|f: Vec<(String, Rc<Node>)>| frame_view(f@))
    }
}

/// Index of the pair named `k` in a stored frame, if there is one.
fn find_in_frame(f: &Vec<(String, Rc<Node>)>, k: &String) -> (r: Option<usize>)
    ensures
        match r {
            Some(i) => i < f@.len() && f@[i as int].0@ == k@,
            None => !frame_has(f@, k@),
        },
{
    let mut i: usize = 0;
    while i < f.len()
        invariant
            i <= f@.len(),
            forall|j: int| 0 <= j < i ==> (#[trigger] f@[j]).0@ != k@,
        decreases f.len() - i,
    {
        if f[i].0 == *k {
            return Some(i);
        }
        i = i + 1;
    }
    None
}

impl Env {
    /// Each frame names each variable at most once.
    pub closed spec fn wf(&self) -> bool {
        forall|i: int| 0 <= i < self.envs@.len() ==> unique_keys((#[trigger] self.envs@[i])@)
    }

    /// An environment with one empty frame.
    pub fn new() -> (r: Self)
        ensures
            r.wf(),
            r@ == seq![Map::<Seq<char>, SNode>::empty()],
    {
        let r = Env { envs: vec![Vec::new()] };
        assert(frame_view(r.envs@[0]@) =~= Map::<Seq<char>, SNode>::empty());
        assert(r@ =~= seq![Map::<Seq<char>, SNode>::empty()]);
        r
    }

    /// An environment with one frame holding `map`; a later pair overrides an earlier one of the same name.
    pub fn new_with_map(map: Vec<(String, Node)>) -> (r: Self)
        ensures
            r.wf(),
            r@ == seq![bindings_map(map@)],
    {
        let ghost all = map@;
        let mut map = map;
        let mut r = Env::new();
        let mut done: usize = 0;
        let total = map.len();
        while map.len() > 0
            invariant
                r.wf(),
                total == all.len(),
                done <= total,
                map@ == all.subrange(done as int, total as int),
                r@ == seq![bindings_map(all.subrange(0, done as int))],
            decreases map@.len(),
        {
            let (k, v) = map.remove(0);
            proof {
                assert(all[done as int] == (k, v));
                assert(all.subrange(0, done + 1).drop_last() =~= all.subrange(0, done as int));
            }
            r.insert(k, Rc::new(v));
            done = done + 1;
            assert(map@ =~= all.subrange(done as int, total as int));
            assert(r@ =~= seq![bindings_map(all.subrange(0, done as int))]);
        }
        assert(all.subrange(0, total as int) =~= all);
        r
    }

    /// The value bound to `key` in the innermost frame that binds it.
    pub fn get(&self, key: &String) -> (r: Option<Rc<Node>>)
        requires
            self.wf(),
        ensures
            opt_view(r) == lookup(self@, key@),
    {
        let n = self.envs.len();
        let mut i: usize = 0;
        assert(self@.subrange(0, n as int) =~= self@);
        while i < n
            invariant
                n == self.envs@.len(),
                i <= n,
                self.wf(),
                lookup(self@, key@) == lookup(self@.subrange(0, n - i), key@),
            decreases n - i,
        {
            let frame = &self.envs[n - 1 - i];
            let ghost rest = self@.subrange(0, n - i);
            assert(rest.last() == frame_view(frame@));
            assert(rest.drop_last() =~= self@.subrange(0, n - i - 1));
            match find_in_frame(frame, key) {
                Some(j) => {
                    proof {
                        lemma_frame_at(frame@, j as int);
                    }
                    return Some(share(&frame[j].1));
                },
                None => {},
            }
            i = i + 1;
        }
        assert(self@.subrange(0, 0).len() == 0);
        None
    }

    /// Binds `k` to `v` in the innermost frame; returns the value it replaced there.
    pub fn insert(&mut self, k: String, v: Rc<Node>) -> (r: Option<Rc<Node>>)
        requires
            old(self).wf(),
            old(self)@.len() > 0,
        ensures
            final(self).wf(),
            final(self)@ == bind(old(self)@, k@, v@),
            opt_view(r) == (if old(self)@.last().contains_key(k@) {
                Some(old(self)@.last()[k@])
            } else {
                None
            }),
    {
        let ghost before = self.envs@;
        let mut frame = self.envs.pop().unwrap();
        assert(frame@ == before.last()@);
        let r = match find_in_frame(&frame, &k) {
            Some(i) => {
                let prev = share(&frame[i].1);
                proof {
                    lemma_frame_at(frame@, i as int);
                    lemma_frame_set(frame@, i as int, k, v);
                }
                frame.set(i, (k, v));
                Some(prev)
            },
            None => {
                proof {
                    lemma_frame_push(frame@, k, v);
                }
                frame.push((k, v));
                None
            },
        };
        self.envs.push(frame);
        assert(self.envs@ == before.update(before.len() - 1, frame));
        assert(self@ =~= bind(old(self)@, k@, v@));
        r
    }

    /// Unbinds `k` in the innermost frame; returns the value it had there.
    pub fn remove(&mut self, k: &String) -> (r: Option<Rc<Node>>)
        requires
            old(self).wf(),
            old(self)@.len() > 0,
        ensures
            final(self).wf(),
            final(self)@ == unbind(old(self)@, k@),
            opt_view(r) == (if old(self)@.last().contains_key(k@) {
                Some(old(self)@.last()[k@])
            } else {
                None
            }),
    {
        let ghost before = self.envs@;
        let mut frame = self.envs.pop().unwrap();
        assert(frame@ == before.last()@);
        let r = match find_in_frame(&frame, k) {
            Some(i) => {
                proof {
                    lemma_frame_at(frame@, i as int);
                    lemma_frame_remove(frame@, i as int);
                }
                let (_, prev) = frame.remove(i);
                Some(prev)
            },
            None => {
                assert(frame_view(frame@).remove(k@) =~= frame_view(frame@));
                None
            },
        };
        self.envs.push(frame);
        assert(self.envs@ == before.update(before.len() - 1, frame));
        assert(self@ =~= unbind(old(self)@, k@));
        r
    }

    /// Enters a new, empty innermost frame.
    pub fn push_env(&mut self)
        requires
            old(self).wf(),
        ensures
            final(self).wf(),
            final(self)@ == old(self)@.push(Map::empty()),
    {
        self.envs.push(Vec::new());
        assert(frame_view(Seq::<(String, Rc<Node>)>::empty()) =~= Map::<Seq<char>, SNode>::empty());
        assert(self@ =~= old(self)@.push(Map::empty()));
    }

    /// Leaves the innermost frame, dropping its bindings.
    pub fn pop_env(&mut self)
        requires
            old(self).wf(),
        ensures
            final(self).wf(),
            final(self)@ == pop_frame(old(self)@),
    {
        self.envs.pop();
        assert(self@ =~= pop_frame(old(self)@));
    }
}

/// A recoverable evaluation failure, with a message saying what went wrong.
#[derive(Debug, Clone)]
pub struct EvalError(String);

impl EvalError {
    /// What went wrong, in words.
    pub fn message(&self) -> &str {
        self.0.as_str()
    }
}

fn fail(msg: &str) -> EvalError {
    EvalError(String::from_str(msg))
}

/// The value or failure that an evaluation result stands for.
pub open spec fn result_view(r: Result<Rc<Node>, EvalError>) -> Result<SNode, ()> {
    match r {
        Ok(n) => Ok(node_view(*n)),
        Err(_) => Err(()),
    }
}

/// An evaluation left the environment `env` and returned `r`, as the outcome `o` says.
pub open spec fn outcome_is(env: Frames, r: Result<Rc<Node>, EvalError>, o: Outcome) -> bool {
    env == o.0 && result_view(r) == o.1
}

/// The arguments of the form whose items are `xs`: all items but the head.
pub open spec fn form_args(xs: Seq<Rc<Node>>) -> Seq<SNode> {
    nodes_view(xs).drop_first()
}

/// How many levels of nested forms and variable references an evaluator follows by default.
pub const DEFAULT_DEPTH_LIMIT: usize = 400;

fn apply_arith(op: Builtin, a: i64, b: i64) -> (r: Option<i64>)
    requires
        is_arith(op),
    ensures
        r == arith_step(op, a, b),
{
    match op {
        Builtin::Add => a.checked_add(b),
        Builtin::Sub => a.checked_sub(b),
        Builtin::Mul => a.checked_mul(b),
        _ => a.checked_div(b),
    }
}

fn apply_relation(op: Builtin, a: i64, b: i64) -> (r: bool)
    requires
        is_comparison(op),
    ensures
        r == relates(op, a, b),
{
    match op {
        Builtin::Eq => a == b,
        Builtin::Gt => a > b,
        Builtin::Ge => a >= b,
        Builtin::Lt => a < b,
        Builtin::Le => a <= b,
        _ => a != b,
    }
}

fn entry(name: &str, b: Builtin) -> (r: (String, Builtin))
    requires
        name@ == builtin_name(b),
    ensures
        r.0@ == builtin_name(b),
        r.1 == b,
{
    (String::from_str(name), b)
}

/// The table holds an entry for `b`.
spec fn table_has(t: Seq<(String, Builtin)>, b: Builtin) -> bool {
    exists|i: int| 0 <= i < t.len() && (#[trigger] t[i]).1 == b
}

/// The evaluator: the table of special forms and the nesting limit.
pub struct Eval {
    builtins: Vec<(String, Builtin)>,
    depth_limit: usize,
}

impl Eval {
    /// The table names every special form by its keyword.
    pub closed spec fn wf(&self) -> bool {
        &&& forall|i: int| 0 <= i < self.builtins@.len()
            ==> (#[trigger] self.builtins@[i]).0@ == builtin_name(self.builtins@[i].1)
        &&& forall|b: Builtin| #[trigger] table_has(self.builtins@, b)
    }

    /// How deeply evaluation may nest before it fails.
    pub closed spec fn depth_limit(&self) -> nat {
        self.depth_limit as nat
    }

    /// An evaluator with the default nesting limit.
    pub fn new() -> (r: Self)
        ensures
            r.wf(),
            r.depth_limit() == DEFAULT_DEPTH_LIMIT,
    {
        Self::with_depth_limit(DEFAULT_DEPTH_LIMIT)
    }

    /// An evaluator that fails once forms or references nest deeper than `limit`.
    pub fn with_depth_limit(limit: usize) -> (r: Self)
        ensures
            r.wf(),
            r.depth_limit() == limit,
    {
        proof {
            reveal_strlit("+");
            reveal_strlit("-");
            reveal_strlit("*");
            reveal_strlit("/");
            reveal_strlit("=");
            reveal_strlit(">");
            reveal_strlit(">=");
            reveal_strlit("<");
            reveal_strlit("<=");
            reveal_strlit("/=");
            reveal_strlit("if");
            reveal_strlit("car");
            reveal_strlit("cdr");
            reveal_strlit("setq");
            reveal_strlit("lambda");
        }
        assert("+"@ =~= builtin_name(Builtin::Add));
        assert("-"@ =~= builtin_name(Builtin::Sub));
        assert("*"@ =~= builtin_name(Builtin::Mul));
        assert("/"@ =~= builtin_name(Builtin::Div));
        assert("="@ =~= builtin_name(Builtin::Eq));
        assert(">"@ =~= builtin_name(Builtin::Gt));
        assert(">="@ =~= builtin_name(Builtin::Ge));
        assert("<"@ =~= builtin_name(Builtin::Lt));
        assert("<="@ =~= builtin_name(Builtin::Le));
        assert("/="@ =~= builtin_name(Builtin::Ne));
        assert("if"@ =~= builtin_name(Builtin::If));
        assert("car"@ =~= builtin_name(Builtin::Car));
        assert("cdr"@ =~= builtin_name(Builtin::Cdr));
        assert("setq"@ =~= builtin_name(Builtin::Setq));
        assert("lambda"@ =~= builtin_name(Builtin::Lambda));
        let builtins = vec![
            entry("+", Builtin::Add),
            entry("-", Builtin::Sub),
            entry("*", Builtin::Mul),
            entry("/", Builtin::Div),
            entry("=", Builtin::Eq),
            entry(">", Builtin::Gt),
            entry(">=", Builtin::Ge),
            entry("<", Builtin::Lt),
            entry("<=", Builtin::Le),
            entry("/=", Builtin::Ne),
            entry("if", Builtin::If),
            entry("car", Builtin::Car),
            entry("cdr", Builtin::Cdr),
            entry("setq", Builtin::Setq),
            entry("lambda", Builtin::Lambda),
        ];
        let r = Eval { builtins, depth_limit: limit };
        assert forall|b: Builtin| #[trigger] table_has(r.builtins@, b) by {
            match b {
                Builtin::Add => assert(r.builtins@[0].1 == b),
                Builtin::Sub => assert(r.builtins@[1].1 == b),
                Builtin::Mul => assert(r.builtins@[2].1 == b),
                Builtin::Div => assert(r.builtins@[3].1 == b),
                Builtin::Eq => assert(r.builtins@[4].1 == b),
                Builtin::Gt => assert(r.builtins@[5].1 == b),
                Builtin::Ge => assert(r.builtins@[6].1 == b),
                Builtin::Lt => assert(r.builtins@[7].1 == b),
                Builtin::Le => assert(r.builtins@[8].1 == b),
                Builtin::Ne => assert(r.builtins@[9].1 == b),
                Builtin::If => assert(r.builtins@[10].1 == b),
                Builtin::Car => assert(r.builtins@[11].1 == b),
                Builtin::Cdr => assert(r.builtins@[12].1 == b),
                Builtin::Setq => assert(r.builtins@[13].1 == b),
                Builtin::Lambda => assert(r.builtins@[14].1 == b),
            }
        }
        r
    }

    /// The special form that `name` names, if any.
    fn builtin(&self, name: &String) -> (r: Option<Builtin>)
        requires
            self.wf(),
        ensures
            r == builtin_of(name@),
    {
        let mut i: usize = 0;
        while i < self.builtins.len()
            invariant
                self.wf(),
                i <= self.builtins@.len(),
                forall|j: int| 0 <= j < i ==> (#[trigger] self.builtins@[j]).0@ != name@,
            decreases self.builtins.len() - i,
        {
            if self.builtins[i].0 == *name {
                proof {
                    lemma_builtin_of_name(self.builtins@[i as int].1);
                }
                return Some(self.builtins[i].1);
            }
            i = i + 1;
        }
        proof {
            if builtin_of(name@) is Some {
                let b = builtin_of(name@)->0;
                lemma_builtin_of_name(b);
                assert(table_has(self.builtins@, b));
                let j = choose|j: int| 0 <= j < self.builtins@.len() && (#[trigger] self.builtins@[j]).1 == b;
                assert(self.builtins@[j].0@ != name@);
            }
        }
        None
    }

    /// Evaluates `node` in `env`, nesting at most `self.depth_limit()` levels deep.
    pub fn eval(&self, env: &mut Env, node: Rc<Node>) -> (r: Result<Rc<Node>, EvalError>)
        requires
            self.wf(),
            old(env).wf(),
            old(env)@.len() > 0,
        ensures
            final(env).wf(),
            final(env)@.len() == old(env)@.len(),
            outcome_is(final(env)@, r, eval_node(old(env)@, node@, self.depth_limit())),
    {
        self.eval_in(env, node, self.depth_limit)
    }

    fn eval_in(&self, env: &mut Env, node: Rc<Node>, fuel: usize) -> (r: Result<Rc<Node>, EvalError>)
        requires
            self.wf(),
            old(env).wf(),
            old(env)@.len() > 0,
        ensures
            final(env).wf(),
            final(env)@.len() == old(env)@.len(),
            outcome_is(final(env)@, r, eval_node(old(env)@, node@, fuel as nat)),
        decreases fuel, 0nat,
    {
        match &*node {
            Node::Keyword(k) => match env.get(k) {
                Some(v) => if fuel == 0 {
                    Err(fail("evaluation nested too deeply"))
                } else {
                    self.eval_in(env, v, fuel - 1)
                },
                None => Ok(share(&node)),
            },
            Node::QuotedList(xs) => Ok(Rc::new(Node::List(share_all(xs)))),
            Node::List(xs) => if fuel == 0 {
                Err(fail("evaluation nested too deeply"))
            } else {
                self.eval_func(env, &node, xs, fuel - 1)
            },
            _ => Ok(share(&node)),
        }
    }

    fn eval_func(&self, env: &mut Env, node: &Rc<Node>, xs: &Vec<Rc<Node>>, fuel: usize) -> (r: Result<Rc<Node>, EvalError>)
        requires
            self.wf(),
            old(env).wf(),
            old(env)@.len() > 0,
            node_view(**node) == SNode::List(nodes_view(xs@)),
        ensures
            final(env).wf(),
            final(env)@.len() == old(env)@.len(),
            outcome_is(final(env)@, r, eval_form(old(env)@, nodes_view(xs@), fuel as nat)),
        decreases fuel, 3nat,
    {
        if xs.len() == 0 {
            return Err(fail("an empty list is not a form"));
        }
        match &*xs[0] {
            Node::Keyword(name) => match self.builtin(name) {
                Some(b) => match b {
                    Builtin::Add | Builtin::Sub | Builtin::Mul | Builtin::Div => self.calc_integer(env, b, xs, fuel),
                    Builtin::If => self.if_then_else(env, xs, fuel),
                    Builtin::Car => Self::car(xs),
                    Builtin::Cdr => Self::cdr(xs),
                    Builtin::Setq => self.setq(env, xs, node, fuel),
                    Builtin::Lambda => Self::lambda(xs),
                    _ => self.cond(env, b, xs, fuel),
                },
                None => match env.get(name) {
                    Some(f) => self.call(env, xs, &f, fuel),
                    None => {
                        let mut m = String::from_str("unknown keyword: ");
                        m.append(name.as_str());
                        Err(EvalError(m))
                    },
                },
            },
            _ => Err(fail("the head of a form must be a keyword")),
        }
    }

    fn calc_integer(&self, env: &mut Env, op: Builtin, xs: &Vec<Rc<Node>>, fuel: usize) -> (r: Result<Rc<Node>, EvalError>)
        requires
            self.wf(),
            old(env).wf(),
            old(env)@.len() > 0,
            xs@.len() > 0,
            is_arith(op),
        ensures
            final(env).wf(),
            final(env)@.len() == old(env)@.len(),
            outcome_is(final(env)@, r, ({
                let (e, rs) = eval_args(old(env)@, form_args(xs@), fuel as nat);
                (e, arith_result(op, rs))
            })),
        decreases fuel, 1nat,
    {
        let ghost args = form_args(xs@);
        let ghost env0 = env@;
        let ghost mut rs: Seq<Result<SNode, ()>> = seq![];
        let mut acc: Option<i64> = None;
        let mut err: Option<EvalError> = None;
        let mut i: usize = 1;
        assert(args.subrange(0, 0) =~= Seq::<SNode>::empty());
        while i < xs.len()
            invariant
                self.wf(),
                env.wf(),
                env@.len() == env0.len(),
                env0.len() > 0,
                1 <= i <= xs@.len(),
                args == form_args(xs@),
                is_arith(op),
                eval_args(env0, args.subrange(0, i - 1), fuel as nat) == (env@, rs),
                arith_fold(op, rs) == (match err {
                    Some(_) => Err(()),
                    None => Ok(acc),
                }),
            decreases xs@.len() - i,
        {
            let r = self.eval_in(env, share(&xs[i]), fuel);
            proof {
                assert(args.subrange(0, i as int).drop_last() =~= args.subrange(0, i - 1));
                assert(args[i - 1] == node_view(*xs@[i as int]));
                let prev = rs;
                rs = rs.push(result_view(r));
                assert(rs.drop_last() =~= prev);
            }
            match r {
                Ok(v) => match &*v {
                    Node::Integer(n) => if err.is_none() {
                        match acc {
                            None => {
                                acc = Some(*n);
                            },
                            Some(a) => match apply_arith(op, a, *n) {
                                Some(c) => {
                                    acc = Some(c);
                                },
                                None => {
                                    err = Some(fail("arithmetic overflow or division by zero"));
                                },
                            },
                        }
                    },
                    _ => if err.is_none() {
                        err = Some(fail("arithmetic takes only integers"));
                    },
                },
                Err(e) => if err.is_none() {
                    err = Some(e);
                },
            }
            i = i + 1;
        }
        assert(args.subrange(0, xs@.len() - 1) =~= args);
        match err {
            Some(e) => Err(e),
            None => match acc {
                Some(a) => Ok(Rc::new(Node::Integer(a))),
                None => Err(fail("empty argument")),
            },
        }
    }

    fn cond(&self, env: &mut Env, op: Builtin, xs: &Vec<Rc<Node>>, fuel: usize) -> (r: Result<Rc<Node>, EvalError>)
        requires
            self.wf(),
            old(env).wf(),
            old(env)@.len() > 0,
            xs@.len() > 0,
            is_comparison(op),
        ensures
            final(env).wf(),
            final(env)@.len() == old(env)@.len(),
            outcome_is(final(env)@, r, ({
                let (e, rs) = eval_args(old(env)@, form_args(xs@), fuel as nat);
                (e, compare_result(op, rs))
            })),
        decreases fuel, 1nat,
    {
        let ghost args = form_args(xs@);
        let ghost env0 = env@;
        let ghost mut rs: Seq<Result<SNode, ()>> = seq![];
        let mut acc: Option<(bool, i64)> = None;
        let mut err: Option<EvalError> = None;
        let mut i: usize = 1;
        assert(args.subrange(0, 0) =~= Seq::<SNode>::empty());
        while i < xs.len()
            invariant
                self.wf(),
                env.wf(),
                env@.len() == env0.len(),
                env0.len() > 0,
                1 <= i <= xs@.len(),
                args == form_args(xs@),
                is_comparison(op),
                eval_args(env0, args.subrange(0, i - 1), fuel as nat) == (env@, rs),
                compare_fold(op, rs) == (match err {
                    Some(_) => Err(()),
                    None => Ok(acc),
                }),
            decreases xs@.len() - i,
        {
            let r = self.eval_in(env, share(&xs[i]), fuel);
            proof {
                assert(args.subrange(0, i as int).drop_last() =~= args.subrange(0, i - 1));
                assert(args[i - 1] == node_view(*xs@[i as int]));
                let prev = rs;
                rs = rs.push(result_view(r));
                assert(rs.drop_last() =~= prev);
            }
            match r {
                Ok(v) => match &*v {
                    Node::Integer(n) => if err.is_none() {
                        match acc {
                            None => {
                                acc = Some((true, *n));
                            },
                            Some((ok, prev)) => {
                                let rel = apply_relation(op, prev, *n);
                                acc = Some((ok && rel, *n));
                            },
                        }
                    },
                    _ => if err.is_none() {
                        err = Some(fail("comparison takes only integers"));
                    },
                },
                Err(e) => if err.is_none() {
                    err = Some(e);
                },
            }
            i = i + 1;
        }
        assert(args.subrange(0, xs@.len() - 1) =~= args);
        match err {
            Some(e) => Err(e),
            None => match acc {
                Some((true, _)) => Ok(Rc::new(Node::True)),
                Some((false, _)) => Ok(Rc::new(Node::False)),
                None => Err(fail("empty argument")),
            },
        }
    }

    fn if_then_else(&self, env: &mut Env, xs: &Vec<Rc<Node>>, fuel: usize) -> (r: Result<Rc<Node>, EvalError>)
        requires
            self.wf(),
            old(env).wf(),
            old(env)@.len() > 0,
            xs@.len() > 0,
        ensures
            final(env).wf(),
            final(env)@.len() == old(env)@.len(),
            outcome_is(final(env)@, r, eval_if(old(env)@, form_args(xs@), fuel as nat)),
        decreases fuel, 2nat,
    {
        let n = xs.len() - 1;
        if n < 2 || n > 3 {
            return Err(fail("`if` takes 2 or 3 arguments"));
        }
        let ghost args = form_args(xs@);
        assert(args[0] == node_view(*xs@[1]));
        assert(args[1] == node_view(*xs@[2]));
        let c = self.eval_in(env, share(&xs[1]), fuel);
        match c {
            Ok(v) => match &*v {
                Node::True => self.eval_in(env, share(&xs[2]), fuel),
                Node::False => if n == 3 {
                    assert(args[2] == node_view(*xs@[3]));
                    self.eval_in(env, share(&xs[3]), fuel)
                } else {
                    Ok(Rc::new(Node::List(Vec::new())))
                },
                _ => Err(fail("the condition of `if` must be a boolean")),
            },
            Err(e) => Err(e),
        }
    }

    fn car(xs: &Vec<Rc<Node>>) -> (r: Result<Rc<Node>, EvalError>)
        requires
            xs@.len() > 0,
        ensures
            result_view(r) == car_result(form_args(xs@)),
    {
        if xs.len() == 2 {
            assert(form_args(xs@)[0] == node_view(*xs@[1]));
            if let Node::QuotedList(items) = &*xs[1] {
                if items.len() > 0 {
                    assert(nodes_view(items@)[0] == node_view(*items@[0]));
                    return Ok(share(&items[0]));
                } else {
                    return Ok(Rc::new(Node::List(Vec::new())));
                }
            }
        }
        Err(fail("`car` takes only a quoted list"))
    }

    fn cdr(xs: &Vec<Rc<Node>>) -> (r: Result<Rc<Node>, EvalError>)
        requires
            xs@.len() > 0,
        ensures
            result_view(r) == cdr_result(form_args(xs@)),
    {
        if xs.len() == 2 {
            assert(form_args(xs@)[0] == node_view(*xs@[1]));
            if let Node::QuotedList(items) = &*xs[1] {
                if items.len() > 0 {
                    let mut rest: Vec<Rc<Node>> = Vec::new();
                    let mut i: usize = 1;
                    while i < items.len()
                        invariant
                            1 <= i <= items@.len(),
                            rest@ == items@.subrange(1, i as int),
                        decreases items@.len() - i,
                    {
                        rest.push(share(&items[i]));
                        i = i + 1;
                    }
                    assert(rest@ =~= items@.drop_first());
                    assert forall|j: int| 0 <= j < rest@.len() implies
                        nodes_view(rest@)[j] == nodes_view(items@).drop_first()[j] by {
                        assert(nodes_view(rest@)[j] == node_view(*rest@[j]));
                        assert(nodes_view(items@)[j + 1] == node_view(*items@[j + 1]));
                    }
                    assert(nodes_view(rest@) =~= nodes_view(items@).drop_first());
                    return Ok(Rc::new(Node::QuotedList(rest)));
                } else {
                    return Ok(Rc::new(Node::List(Vec::new())));
                }
            }
        }
        Err(fail("`cdr` takes only a quoted list"))
    }

    fn setq(&self, env: &mut Env, xs: &Vec<Rc<Node>>, node: &Rc<Node>, fuel: usize) -> (r: Result<Rc<Node>, EvalError>)
        requires
            self.wf(),
            old(env).wf(),
            old(env)@.len() > 0,
            xs@.len() > 0,
            node_view(**node) == SNode::List(nodes_view(xs@)),
        ensures
            final(env).wf(),
            final(env)@.len() == old(env)@.len(),
            outcome_is(final(env)@, r, eval_setq(old(env)@, form_args(xs@), SNode::List(nodes_view(xs@)), fuel as nat)),
        decreases fuel, 2nat,
    {
        let n = xs.len() - 1;
        if n % 2 != 0 {
            return Err(fail("`setq` takes key and value pairs"));
        }
        let ghost args = form_args(xs@);
        let ghost env0 = env@;
        let mut p: usize = 0;
        while p < n / 2
            invariant
                self.wf(),
                env.wf(),
                env@.len() == env0.len(),
                env0.len() > 0,
                env0 == old(env)@,
                n == xs@.len() - 1,
                n % 2 == 0,
                p <= n / 2,
                args == form_args(xs@),
                setq_pairs(env0, args, p as nat, fuel as nat) == (env@, Ok::<(), ()>(())),
            decreases n / 2 - p,
        {
            assert(args[2 * p as int] == node_view(*xs@[2 * p + 1]));
            assert(args[2 * p + 1] == node_view(*xs@[2 * p + 2]));
            match &*xs[2 * p + 1] {
                Node::Keyword(k) => {
                    match self.eval_in(env, share(&xs[2 * p + 2]), fuel) {
                        Ok(v) => {
                            env.insert(k.clone(), v);
                        },
                        Err(e) => {
                            proof {
                                lemma_setq_pairs_stop(env0, args, (p + 1) as nat, (n / 2) as nat, fuel as nat);
                            }
                            return Err(e);
                        },
                    }
                },
                _ => {
                    proof {
                        lemma_setq_pairs_stop(env0, args, (p + 1) as nat, (n / 2) as nat, fuel as nat);
                    }
                    return Err(fail("`setq` takes only keywords as keys"));
                },
            }
            p = p + 1;
        }
        Ok(share(node))
    }

    fn lambda(xs: &Vec<Rc<Node>>) -> (r: Result<Rc<Node>, EvalError>)
        requires
            xs@.len() > 0,
        ensures
            result_view(r) == lambda_result(form_args(xs@)),
    {
        if xs.len() == 3 {
            let ghost args = form_args(xs@);
            assert(args[0] == node_view(*xs@[1]));
            assert(args[1] == node_view(*xs@[2]));
            if let (Node::List(ps), Node::List(body)) = (&*xs[1], &*xs[2]) {
                let ghost pv = nodes_view(ps@);
                let mut names: Vec<String> = Vec::new();
                let mut i: usize = 0;
                while i < ps.len()
                    invariant
                        i <= ps@.len(),
                        names@.len() == i,
                        pv == nodes_view(ps@),
                        xs@.len() == 3,
                        form_args(xs@)[0] == SNode::List(pv),
                        form_args(xs@)[1] == SNode::List(nodes_view(body@)),
                        forall|j: int| 0 <= j < i ==> crate::semantics::is_keyword(#[trigger] pv[j]),
                        crate::parser::names_view(names@) =~= pv.subrange(0, i as int).map_values(|q: SNode| keyword_name(q)),
                    decreases ps@.len() - i,
                {
                    assert(pv[i as int] == node_view(*ps@[i as int]));
                    match &*ps[i] {
                        Node::Keyword(k) => {
                            let ghost before = names@;
                            names.push(k.clone());
                            assert forall|j: int| 0 <= j <= i implies
                                #[trigger] crate::parser::names_view(names@)[j]
                                == pv.subrange(0, i + 1).map_values(|q: SNode| keyword_name(q))[j] by {
                                if j < i {
                                    assert(names@[j] == before[j]);
                                    assert(crate::parser::names_view(before)[j] == pv.subrange(0, i as int).map_values(|q: SNode| keyword_name(q))[j]);
                                }
                            }
                        },
                        _ => {
                            assert(!crate::semantics::is_keyword(pv[i as int]));
                            return Err(fail("the parameters of `lambda` must be keywords"));
                        },
                    }
                    i = i + 1;
                }
                assert(pv.subrange(0, ps@.len() as int) =~= pv);
                return Ok(Rc::new(Node::Func(names, share_all(body))));
            }
        }
        Err(fail("`lambda` takes a parameter list and a body list"))
    }

    fn call(&self, env: &mut Env, xs: &Vec<Rc<Node>>, f: &Rc<Node>, fuel: usize) -> (r: Result<Rc<Node>, EvalError>)
        requires
            self.wf(),
            old(env).wf(),
            old(env)@.len() > 0,
            xs@.len() > 0,
        ensures
            final(env).wf(),
            final(env)@.len() == old(env)@.len(),
            outcome_is(final(env)@, r, eval_call(old(env)@, form_args(xs@), node_view(**f), fuel as nat)),
        decreases fuel, 2nat,
    {
        match &**f {
            Node::Func(params, body) => {
                if params.len() != xs.len() - 1 {
                    return Err(fail("wrong number of arguments"));
                }
                let ghost args = form_args(xs@);
                let ghost pnames = crate::parser::names_view(params@);
                let ghost env0 = env@;
                env.push_env();
                let ghost pushed = env@;
                let mut i: usize = 0;
                while i < params.len()
                    invariant
                        self.wf(),
                        env.wf(),
                        env@.len() == env0.len() + 1,
                        env0.len() > 0,
                        env0 == old(env)@,
                        pushed == env0.push(Map::empty()),
                        i <= params@.len(),
                        params@.len() == xs@.len() - 1,
                        args == form_args(xs@),
                        pnames == crate::parser::names_view(params@),
                        node_view(**f) == SNode::Func(pnames, nodes_view(body@)),
                        bind_args(pushed, pnames, args, i as nat, fuel as nat) == (env@, Ok::<(), ()>(())),
                    decreases params@.len() - i,
                {
                    assert(args[i as int] == node_view(*xs@[i + 1]));
                    match self.eval_in(env, share(&xs[i + 1]), fuel) {
                        Ok(v) => {
                            env.insert(params[i].clone(), v);
                        },
                        Err(e) => {
                            proof {
                                lemma_bind_args_stop(pushed, pnames, args, (i + 1) as nat, params@.len(), fuel as nat);
                            }
                            env.pop_env();
                            return Err(e);
                        },
                    }
                    i = i + 1;
                }
                let r = self.eval_in(env, Rc::new(Node::List(share_all(body))), fuel);
                env.pop_env();
                r
            },
            _ => Err(fail("only a closure can be called")),
        }
    }
}

} // verus!
