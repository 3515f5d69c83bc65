use std::rc::Rc;
use vstd::prelude::*;
use crate::lexer::{ExtendedToken, SToken, Token};

verus! {

/// An expression tree, used both as program text and as the value it evaluates to.
#[derive(PartialEq, Debug, Clone)]
pub enum Node {
    Integer(i64),
    Keyword(String),
    List(Vec<Rc<Node>>),
    QuotedList(Vec<Rc<Node>>),
    Func(Vec<String>, Vec<Rc<Node>>),
    True,
    False,
}

/// The mathematical shape of a `Node`: names as character sequences, children as sequences.
pub enum SNode {
    Integer(i64),
    Keyword(Seq<char>),
    List(Seq<SNode>),
    QuotedList(Seq<SNode>),
    Func(Seq<Seq<char>>, Seq<SNode>),
    True,
    False,
}

pub open spec fn names_view(names: Seq<String>) -> Seq<Seq<char>> {
    names.map_values(|s: String| s@)
}

/// The shape of a node, recursively.
pub open spec fn node_view(n: Node) -> SNode
    decreases n,
{
    match n {
        Node::Integer(i) => SNode::Integer(i),
        Node::Keyword(s) => SNode::Keyword(s@),
        Node::List(xs) => SNode::List(nodes_view(xs@)),
        Node::QuotedList(xs) => SNode::QuotedList(nodes_view(xs@)),
        Node::Func(ps, body) => SNode::Func(names_view(ps@), nodes_view(body@)),
        Node::True => SNode::True,
        Node::False => SNode::False,
    }
}

/// The shapes of a sequence of shared nodes, element by element.
pub open spec fn nodes_view(xs: Seq<Rc<Node>>) -> Seq<SNode>
    decreases xs,
{
    if xs.len() == 0 {
        Seq::empty()
    } else {
        nodes_view(xs.subrange(0, xs.len() - 1)).push(node_view(*xs[xs.len() - 1]))
    }
}

impl View for Node {
    type V = SNode;

    open spec fn view(&self) -> SNode {
        node_view(*self)
    }
}

/// Every element of `nodes_view(xs)` is the view of the element at the same place.
pub broadcast proof fn lemma_nodes_view(xs: Seq<Rc<Node>>)
    ensures
        (#[trigger] nodes_view(xs)).len() == xs.len(),
        forall|i: int| 0 <= i < xs.len() ==> nodes_view(xs)[i] == node_view(*#[trigger] xs[i]),
    decreases xs.len(),
{
    if xs.len() > 0 {
        let front = xs.subrange(0, xs.len() - 1);
        lemma_nodes_view(front);
        assert forall|i: int| 0 <= i < xs.len() implies nodes_view(xs)[i] == node_view(*#[trigger] xs[i]) by {
            if i < xs.len() - 1 {
                assert(front[i] == xs[i]);
            }
        }
    }
}

/// Relies on `Rc::clone`: the result points to the same node as `n`.
#[verifier::external_body]
pub(crate) fn share(n: &Rc<Node>) -> (r: Rc<Node>)
    ensures
        r == *n,
{
    Rc::clone(n)
}

/// A new vector holding handles to the same nodes, in the same order.
pub(crate) fn share_all(xs: &Vec<Rc<Node>>) -> (r: Vec<Rc<Node>>)
    ensures
        r@ == xs@,
{
    let mut r: Vec<Rc<Node>> = Vec::new();
    let mut i: usize = 0;
    while i < xs.len()
        invariant
            i <= xs.len(),
            r@ == xs@.subrange(0, i as int),
        decreases xs.len() - i,
    {
        r.push(share(&xs[i]));
        i = i + 1;
    }
    assert(r@ =~= xs@);
    r
}

/// Parses one form from the front of `ts`; `None` at the end of the tokens or at a `)`.
pub open spec fn parse_tokens(ts: Seq<SToken>) -> (Option<SNode>, Seq<SToken>)
    decreases ts.len(), 0nat,
{
    if ts.len() == 0 {
        (None, ts)
    } else {
        let rest = ts.drop_first();
        match ts[0] {
            SToken::LParen => {
                let (xs, r) = parse_items(rest);
                (Some(SNode::List(xs)), r)
            },
            SToken::RParen => (None, rest),
            SToken::Integer(i) => (Some(SNode::Integer(i)), rest),
            SToken::Keyword(k) => (Some(SNode::Keyword(k)), rest),
            SToken::Quote => parse_quoted(rest),
        }
    }
}

/// Parses the forms of a list up to its `)` or the end of the tokens.
pub open spec fn parse_items(ts: Seq<SToken>) -> (Seq<SNode>, Seq<SToken>)
    decreases ts.len(), 1nat,
{
    let (o, r) = parse_tokens(ts);
    match o {
        None => (seq![], r),
        Some(n) => if r.len() < ts.len() {
            let (xs, r2) = parse_items(r);
            (seq![n] + xs, r2)
        } else {
            (seq![n], r)
        },
    }
}

/// Parses what follows a quote: a `(` opens a quoted list; anything else gives nothing.
pub open spec fn parse_quoted(ts: Seq<SToken>) -> (Option<SNode>, Seq<SToken>)
    decreases ts.len(), 2nat,
{
    if ts.len() == 0 {
        (None, ts)
    } else {
        match ts[0] {
            SToken::LParen => {
                let (xs, r) = parse_items(ts.drop_first());
                (Some(SNode::QuotedList(xs)), r)
            },
            _ => (None, ts.drop_first()),
        }
    }
}

/// The token kinds of a sequence of positioned tokens.
pub open spec fn token_kinds(ts: Seq<ExtendedToken>) -> Seq<SToken> {
    ts.map_values(|t: ExtendedToken| t.token@)
}

pub open spec fn opt_node_view(o: Option<Rc<Node>>) -> Option<SNode> {
    match o {
        Some(n) => Some(node_view(*n)),
        None => None,
    }
}

/// Builds expression trees from tokens, consuming them from the front.
#[derive(Debug)]
pub struct Parser {
    tokens: Vec<ExtendedToken>,
}

impl View for Parser {
    type V = Seq<SToken>;

    closed spec fn view(&self) -> Seq<SToken> {
        token_kinds(self.tokens@)
    }
}

impl Parser {
    /// A parser over `tokens`.
    pub fn new(tokens: Vec<ExtendedToken>) -> (r: Self)
        ensures
            r@ == token_kinds(tokens@),
    {
        Parser { tokens: tokens }
    }

    fn next_token(&mut self) -> (r: Option<ExtendedToken>)
        ensures
            if old(self)@.len() > 0 {
                &&& r is Some
                &&& r->0.token@ == old(self)@[0]
                &&& final(self)@ == old(self)@.drop_first()
            } else {
                &&& r is None
                &&& final(self)@ == old(self)@
            },
    {
        if self.tokens.len() == 0 {
            None
        } else {
            let t = self.tokens.remove(0);
            assert(self@ =~= old(self)@.drop_first());
            Some(t)
        }
    }

    /// Parses the next form; `None` at the end of the tokens or at a `)`.
    pub fn parse(&mut self) -> (r: Option<Rc<Node>>)
        ensures
            (opt_node_view(r), final(self)@) == parse_tokens(old(self)@),
            old(self)@.len() > 0 ==> final(self)@.len() < old(self)@.len(),
            old(self)@.len() == 0 ==> final(self)@.len() == 0,
        decreases old(self)@.len(), 0nat,
    {
        match self.next_token() {
            None => None,
            Some(token) => match token.token {
                Token::LParen => Some(Rc::new(Node::List(self.parse_list()))),
                Token::RParen => None,
                Token::Integer(i) => Some(Rc::new(Node::Integer(i))),
                Token::Keyword(s) => Some(Rc::new(Node::Keyword(s))),
                Token::Quote => self.parse_quoted_list(),
            },
        }
    }

    fn parse_list(&mut self) -> (r: Vec<Rc<Node>>)
        ensures
            (nodes_view(r@), final(self)@) == parse_items(old(self)@),
            final(self)@.len() <= old(self)@.len(),
        decreases old(self)@.len(), 1nat,
    {
        let mut list: Vec<Rc<Node>> = Vec::new();
        let ghost start = self@;
        assert(nodes_view(list@) =~= Seq::<SNode>::empty());
        loop
            invariant_except_break
                parse_items(start) == (nodes_view(list@) + parse_items(self@).0, parse_items(self@).1),
            invariant
                start == old(self)@,
                self@.len() <= start.len(),
            ensures
                parse_items(start) == (nodes_view(list@), self@),
            decreases self@.len(),
        {
            let ghost cur = self@;
            let ghost before = list@;
            match self.parse() {
                Some(node) => {
                    list.push(node);
                    assert(list@.subrange(0, list@.len() - 1) =~= before);
                    assert(nodes_view(before) + parse_items(cur).0 =~= nodes_view(list@) + parse_items(self@).0);
                },
                None => {
                    assert(nodes_view(list@) + parse_items(cur).0 =~= nodes_view(list@));
                    break;
                },
            }
        }
        list
    }

    fn parse_quoted_list(&mut self) -> (r: Option<Rc<Node>>)
        ensures
            (opt_node_view(r), final(self)@) == parse_quoted(old(self)@),
            old(self)@.len() > 0 ==> final(self)@.len() < old(self)@.len(),
            old(self)@.len() == 0 ==> final(self)@.len() == 0,
        decreases old(self)@.len(), 2nat,
    {
        match self.next_token() {
            None => None,
            Some(token) => match token.token {
                Token::LParen => Some(Rc::new(Node::QuotedList(self.parse_list()))),
                _ => None,
            },
        }
    }
}

/// A copy of `n` that shares its children with it.
pub(crate) fn copy_node(n: &Node) -> (r: Node)
    ensures
        node_view(r) == node_view(*n),
{
    match n {
        Node::Integer(i) => Node::Integer(*i),
        Node::Keyword(k) => Node::Keyword(k.clone()),
        Node::List(xs) => Node::List(share_all(xs)),
        Node::QuotedList(xs) => Node::QuotedList(share_all(xs)),
        Node::Func(ps, body) => {
            let mut names: Vec<String> = Vec::new();
            let mut i: usize = 0;
            while i < ps.len()
                invariant
                    i <= ps@.len(),
                    names@.len() == i,
                    names_view(names@) =~= names_view(ps@).subrange(0, i as int),
                decreases ps@.len() - i,
            {
                let ghost before = names@;
                names.push(ps[i].clone());
                assert forall|j: int| 0 <= j <= i implies #[trigger] names@[j]@ == ps@[j]@ by {
                    if j < i {
                        assert(names@[j] == before[j]);
                        assert(names_view(before)[j] == names_view(ps@)[j]);
                    }
                }
                i = i + 1;
            }
            assert(names_view(ps@).subrange(0, ps@.len() as int) =~= names_view(ps@));
            Node::Func(names, share_all(body))
        },
        Node::True => Node::True,
        Node::False => Node::False,
    }
}

} // verus!
