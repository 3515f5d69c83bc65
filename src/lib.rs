use vstd::prelude::*;

pub mod lexer;
pub mod parser;
pub mod eval;
pub mod semantics;
pub mod laws;

use crate::lexer::{Lexer, LexerError, LexErrorKind, TokenAt, lex, tokens_view};
use crate::parser::{Node, SNode, Parser, copy_node, node_view, parse_tokens, token_kinds};
use crate::eval::{Env, Eval, EvalError, Frames};
use crate::semantics::eval_node;

verus! {

/// Why a line could not be evaluated.
#[derive(Debug)]
pub enum LispError {
    Lexer(LexerError),
    Eval(EvalError),
    EOF,
}

impl From<LexerError> for LispError {
    fn from(err: LexerError) -> (r: Self)
        ensures
            r == LispError::Lexer(err),
    {
        LispError::Lexer(err)
    }
}

impl vstd::std_specs::convert::FromSpecImpl<LexerError> for LispError {
    open spec fn obeys_from_spec() -> bool {
        true
    }

    open spec fn from_spec(err: LexerError) -> Self {
        LispError::Lexer(err)
    }
}

impl From<EvalError> for LispError {
    fn from(err: EvalError) -> (r: Self)
        ensures
            r == LispError::Eval(err),
    {
        LispError::Eval(err)
    }
}

impl vstd::std_specs::convert::FromSpecImpl<EvalError> for LispError {
    open spec fn obeys_from_spec() -> bool {
        true
    }

    open spec fn from_spec(err: EvalError) -> Self {
        LispError::Eval(err)
    }
}

/// The kinds of the tokens of a lexed text.
pub open spec fn kinds(ts: Seq<TokenAt>) -> Seq<crate::lexer::SToken> {
    ts.map_values(|t: TokenAt| t.token)
}

/// The first form of the text `s`: `Ok(None)` when it holds none, `Err` where lexing fails.
pub open spec fn read_form(s: Seq<char>) -> Result<Option<SNode>, (nat, LexErrorKind)> {
    match lex(s) {
        Ok(ts) => Ok(parse_tokens(kinds(ts)).0),
        Err(e) => Err(e),
    }
}

/// A session: one evaluator and the environment that persists from line to line.
pub struct Lisp {
    eval: Eval,
    env: Env,
}

impl Lisp {
    pub closed spec fn wf(&self) -> bool {
        self.eval.wf() && self.env.wf() && self.env@.len() > 0
    }

    /// The session's environment.
    pub closed spec fn env(&self) -> Frames {
        self.env@
    }

    /// How deeply evaluation may nest.
    pub closed spec fn depth_limit(&self) -> nat {
        self.eval.depth_limit()
    }

    /// A session with one empty frame.
    pub fn new() -> (r: Self)
        ensures
            r.wf(),
            r.env() == seq![Map::<Seq<char>, SNode>::empty()],
            r.depth_limit() == crate::eval::DEFAULT_DEPTH_LIMIT,
    {
        Lisp { eval: Eval::new(), env: Env::new() }
    }

    /// Reads the first form of `line` and evaluates it in the session's environment.
    pub fn eval_line(&mut self, line: &str) -> (r: Result<Node, LispError>)
        requires
            old(self).wf(),
        ensures
            final(self).wf(),
            final(self).depth_limit() == old(self).depth_limit(),
            match read_form(line@) {
                Err(e) => {
                    &&& r matches Err(LispError::Lexer(le))
                    &&& le.index == e.0
                    &&& le.kind == e.1
                    &&& final(self).env() == old(self).env()
                },
                Ok(None) => r matches Err(LispError::EOF) && final(self).env() == old(self).env(),
                Ok(Some(form)) => {
                    let (env, v) = eval_node(old(self).env(), form, old(self).depth_limit());
                    &&& final(self).env() == env
                    &&& match r {
                        Ok(n) => v == Ok::<SNode, ()>(node_view(n)),
                        Err(LispError::Eval(_)) => v is Err,
                        Err(_) => false,
                    }
                },
            },
    {
        let tokens = match Lexer::new(line).tokenize() {
            Ok(tokens) => tokens,
            Err(e) => {
                return Err(LispError::Lexer(e));
            },
        };
        assert(token_kinds(tokens@) =~= kinds(tokens_view(tokens@)));
        match Parser::new(tokens).parse() {
            Some(node) => match self.eval.eval(&mut self.env, node) {
                Ok(v) => Ok(copy_node(&*v)),
                Err(e) => Err(LispError::Eval(e)),
            },
            None => Err(LispError::EOF),
        }
    }
}

} // verus!
