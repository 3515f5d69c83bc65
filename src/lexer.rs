use vstd::prelude::*;

verus! {

/// A lexical token.
#[derive(PartialEq, Debug)]
pub enum Token {
    LParen,
    RParen,
    Quote,
    Integer(i64),
    Keyword(String),
}

/// The value a `Token` stands for, with the keyword's name as characters.
pub enum SToken {
    LParen,
    RParen,
    Quote,
    Integer(i64),
    Keyword(Seq<char>),
}

impl View for Token {
    type V = SToken;

    open spec fn view(&self) -> SToken {
        match self {
            Token::LParen => SToken::LParen,
            Token::RParen => SToken::RParen,
            Token::Quote => SToken::Quote,
            Token::Integer(i) => SToken::Integer(*i),
            Token::Keyword(s) => SToken::Keyword(s@),
        }
    }
}

/// A token with the place where it starts and its length, both counted in characters.
#[derive(PartialEq, Debug)]
pub struct ExtendedToken {
    pub token: Token,
    pub index: usize,
    pub len: usize,
}

/// The value an `ExtendedToken` stands for.
pub struct TokenAt {
    pub token: SToken,
    pub index: nat,
    pub len: nat,
}

impl View for ExtendedToken {
    type V = TokenAt;

    open spec fn view(&self) -> TokenAt {
        TokenAt { token: self.token@, index: self.index as nat, len: self.len as nat }
    }
}

impl ExtendedToken {
    pub fn new(token: Token, index: usize, len: usize) -> (r: Self)
        ensures
            r.token == token,
            r.index == index,
            r.len == len,
    {
        ExtendedToken { token: token, index: index, len: len }
    }
}

/// Why the text could not be split into tokens.
#[derive(Clone, Copy, PartialEq, Eq, Structural, Debug)]
pub enum LexErrorKind {
    /// A character that starts no token.
    UnexpectedChar(char),
    /// A run of digits whose value does not fit in an `i64`.
    IntegerOverflow,
}

/// A failure to split text into tokens, at a character position.
#[derive(Clone, Copy, PartialEq, Eq, Structural, Debug)]
pub struct LexerError {
    pub index: usize,
    pub kind: LexErrorKind,
}

/// Name for what `char::is_alphanumeric` returns.
pub uninterp spec fn alphanumeric(c: char) -> bool;

/// Relies on `char::is_alphanumeric`: whether `c` is alphabetic or numeric in Unicode.
#[verifier::external_body]
fn is_alphanumeric(c: char) -> (r: bool)
    ensures
        r == alphanumeric(c),
{
    c.is_alphanumeric()
}

/// Relies on `str::chars`: the characters of `s`, in order.
#[verifier::external_body]
fn chars_of(s: &str) -> (r: Vec<char>)
    ensures
        r@ == s@,
{
    s.chars().collect()
}

/// Relies on `String::push`: appends `c` at the end.
#[verifier::external_body]
fn push_char(s: &mut String, c: char)
    ensures
        final(s)@ == old(s)@.push(c),
{
    s.push(c)
}

pub open spec fn is_space(c: char) -> bool {
    c == ' ' || c == '\t' || c == '\n'
}

/// A character that may continue a word after its first character.
pub open spec fn is_word_char(c: char) -> bool {
    alphanumeric(c) || c == '-'
}

pub open spec fn is_digit(c: char) -> bool {
    '0' <= c && c <= '9'
}

pub open spec fn all_digits(w: Seq<char>) -> bool {
    forall|i: int| 0 <= i < w.len() ==> is_digit(#[trigger] w[i])
}

/// The number that a string of decimal digits spells.
pub open spec fn decimal_value(w: Seq<char>) -> int
    decreases w.len(),
{
    if w.len() == 0 {
        0
    } else {
        decimal_value(w.drop_last()) * 10 + (w.last() as int - '0' as int)
    }
}

/// How many word characters `s` starts with.
pub open spec fn word_len(s: Seq<char>) -> nat
    decreases s.len(),
{
    if s.len() > 0 && is_word_char(s[0]) {
        1 + word_len(s.drop_first())
    } else {
        0
    }
}

proof fn lemma_word_len_bound(s: Seq<char>)
    ensures
        word_len(s) <= s.len(),
    decreases s.len(),
{
    if s.len() > 0 {
        lemma_word_len_bound(s.drop_first());
    }
}

/// The token that the word `w` makes: an integer when it is all digits, else a keyword.
pub open spec fn word_token(w: Seq<char>) -> Option<SToken> {
    if all_digits(w) {
        if decimal_value(w) <= i64::MAX {
            Some(SToken::Integer(decimal_value(w) as i64))
        } else {
            None
        }
    } else {
        Some(SToken::Keyword(w))
    }
}

pub open spec fn token_at(token: SToken, index: nat, len: nat) -> TokenAt {
    TokenAt { token, index, len }
}

/// Splits `rest`, which starts at character position `pos`, into tokens after `acc`.
pub open spec fn scan(rest: Seq<char>, pos: nat, acc: Seq<TokenAt>) -> Result<Seq<TokenAt>, (nat, LexErrorKind)>
    decreases rest.len() via scan_decreases
{
    if rest.len() == 0 {
        Ok(acc)
    } else {
        let c = rest[0];
        let tail = rest.drop_first();
        if is_space(c) {
            scan(tail, pos + 1, acc)
        } else if c == '(' {
            scan(tail, pos + 1, acc.push(token_at(SToken::LParen, pos, 1)))
        } else if c == ')' {
            scan(tail, pos + 1, acc.push(token_at(SToken::RParen, pos, 1)))
        } else if c == '\'' {
            scan(tail, pos + 1, acc.push(token_at(SToken::Quote, pos, 1)))
        } else if c == '+' || c == '-' || c == '*' || c == '=' {
            scan(tail, pos + 1, acc.push(token_at(SToken::Keyword(seq![c]), pos, 1)))
        } else if c == '/' || c == '>' || c == '<' {
            if tail.len() > 0 && tail[0] == '=' {
                scan(tail.drop_first(), pos + 2, acc.push(token_at(SToken::Keyword(seq![c, '=']), pos, 2)))
            } else {
                scan(tail, pos + 1, acc.push(token_at(SToken::Keyword(seq![c]), pos, 1)))
            }
        } else if alphanumeric(c) {
            let n = 1 + word_len(tail);
            match word_token(rest.subrange(0, n as int)) {
                Some(t) => scan(rest.subrange(n as int, rest.len() as int), pos + n, acc.push(token_at(t, pos, n))),
                None => Err((pos, LexErrorKind::IntegerOverflow)),
            }
        } else {
            Err((pos, LexErrorKind::UnexpectedChar(c)))
        }
    }
}

#[via_fn]
proof fn scan_decreases(rest: Seq<char>, pos: nat, acc: Seq<TokenAt>) {
    if rest.len() > 0 {
        lemma_word_len_bound(rest.drop_first());
    }
}

/// The tokens of `s`, or where and why splitting it fails.
pub open spec fn lex(s: Seq<char>) -> Result<Seq<TokenAt>, (nat, LexErrorKind)> {
    scan(s, 0, seq![])
}

proof fn lemma_decimal_nonneg(w: Seq<char>)
    requires
        all_digits(w),
    ensures
        decimal_value(w) >= 0,
    decreases w.len(),
{
    if w.len() > 0 {
        assert(all_digits(w.drop_last())) by {
            assert forall|i: int| 0 <= i < w.len() - 1 implies is_digit(#[trigger] w.drop_last()[i]) by {
                assert(w.drop_last()[i] == w[i]);
            }
        }
        lemma_decimal_nonneg(w.drop_last());
        assert(is_digit(w[w.len() - 1]));
    }
}

/// The view of the token list, element by element.
pub open spec fn tokens_view(ts: Seq<ExtendedToken>) -> Seq<TokenAt> {
    ts.map_values(|t: ExtendedToken| t@)
}

/// The tokens or the failure that a result of `tokenize` stands for.
pub open spec fn lex_view(r: Result<Vec<ExtendedToken>, LexerError>) -> Result<Seq<TokenAt>, (nat, LexErrorKind)> {
    match r {
        Ok(ts) => Ok(tokens_view(ts@)),
        Err(e) => Err((e.index as nat, e.kind)),
    }
}

/// A cursor over the characters of a text, with room to hand characters back.
#[derive(Debug)]
pub struct Context {
    chars: Vec<char>,
    cursor: usize,
    read_ahead: Vec<char>,
    index: usize,
}

impl Context {
    /// Characters handed back and not yet taken again, oldest first.
    pub closed spec fn queued(&self) -> Seq<char> {
        self.read_ahead@
    }

    /// Characters of the text not yet taken.
    pub closed spec fn rest(&self) -> Seq<char> {
        self.chars@.subrange(self.cursor as int, self.chars@.len() as int)
    }

    /// Everything `next` will hand out, in order.
    pub open spec fn pending(&self) -> Seq<char> {
        self.queued() + self.rest()
    }

    /// How many characters have been taken and not handed back.
    pub closed spec fn position(&self) -> nat {
        self.index as nat
    }

    pub closed spec fn wf(&self) -> bool {
        self.cursor <= self.chars@.len()
    }

    /// A cursor at the start of `s`.
    pub fn new(s: &str) -> (r: Self)
        ensures
            r.wf(),
            r.queued() == Seq::<char>::empty(),
            r.pending() == s@,
            r.position() == 0,
            s@.len() <= usize::MAX,
    {
        let chars = chars_of(s);
        let r = Context { chars, cursor: 0, read_ahead: Vec::new(), index: 0 };
        assert(r.chars.len() == s@.len());
        assert(r.rest() =~= s@);
        assert(r.pending() =~= s@);
        r
    }

    /// Takes the next character: a handed-back one first, else one of the text.
    pub fn next(&mut self) -> (r: Option<char>)
        requires
            old(self).wf(),
            old(self).pending().len() > 0 ==> old(self).position() < usize::MAX,
        ensures
            final(self).wf(),
            if old(self).pending().len() > 0 {
                &&& r == Some(old(self).pending()[0])
                &&& final(self).pending() == old(self).pending().drop_first()
                &&& final(self).position() == old(self).position() + 1
                &&& final(self).queued().len() == (if old(self).queued().len() > 0 {
                    old(self).queued().len() - 1
                } else {
                    0
                })
            } else {
                &&& r is None
                &&& final(self).pending() == old(self).pending()
                &&& final(self).position() == old(self).position()
                &&& final(self).queued().len() == 0
            },
    {
        if self.read_ahead.len() > 0 {
            let c = self.read_ahead.remove(0);
            self.index = self.index + 1;
            assert(self.pending() =~= old(self).pending().drop_first());
            Some(c)
        } else if self.cursor < self.chars.len() {
            let c = self.chars[self.cursor];
            self.cursor = self.cursor + 1;
            self.index = self.index + 1;
            assert(self.queued() =~= Seq::<char>::empty());
            assert(old(self).pending() =~= old(self).rest());
            assert(self.pending() =~= old(self).pending().drop_first());
            Some(c)
        } else {
            None
        }
    }

    /// Hands `c` back, to be taken again after the characters already handed back.
    pub fn return_char(&mut self, c: char)
        requires
            old(self).wf(),
            old(self).position() > 0,
        ensures
            final(self).wf(),
            final(self).queued() == old(self).queued().push(c),
            final(self).rest() == old(self).rest(),
            final(self).position() == old(self).position() - 1,
    {
        self.read_ahead.push(c);
        self.index = self.index - 1;
    }

    /// How many characters have been taken and not handed back.
    pub fn pos(&self) -> (r: usize)
        ensures
            r == self.position(),
    {
        self.index
    }
}

fn keyword(name: &str, index: usize, len: usize) -> (r: ExtendedToken)
    ensures
        r@ == token_at(SToken::Keyword(name@), index as nat, len as nat),
{
    ExtendedToken::new(Token::Keyword(String::from_str(name)), index, len)
}

/// Splits a text into tokens.
pub struct Lexer {
    ctx: Context,
}

impl Lexer {
    pub closed spec fn wf(&self) -> bool {
        &&& self.ctx.wf()
        &&& self.ctx.position() + self.ctx.pending().len() <= usize::MAX
        &&& self.ctx.queued().len() <= 1
    }

    /// The characters not yet split.
    pub closed spec fn pending(&self) -> Seq<char> {
        self.ctx.pending()
    }

    /// The position of the first character not yet split.
    pub closed spec fn position(&self) -> nat {
        self.ctx.position()
    }

    /// A lexer at the start of `input`.
    pub fn new(input: &str) -> (r: Self)
        ensures
            r.wf(),
            r.pending() == input@,
            r.position() == 0,
    {
        Lexer { ctx: Context::new(input) }
    }

    /// Reads a one-character operator `c`, or `c` followed by `=`, which starts at `start`.
    fn operator(&mut self, tokens: &mut Vec<ExtendedToken>, one: &str, two: &str, start: usize)
        requires
            old(self).wf(),
            old(self).ctx.queued().len() == 0,
            old(self).position() == start + 1,
            two@ == one@.push('='),
        ensures
            final(self).wf(),
            ({
                let tail = old(self).pending();
                if tail.len() > 0 && tail[0] == '=' {
                    &&& final(self).pending() == tail.drop_first()
                    &&& final(self).position() == start + 2
                    &&& tokens_view(final(tokens)@) == tokens_view(old(tokens)@).push(
                        token_at(SToken::Keyword(two@), start as nat, 2))
                } else {
                    &&& final(self).pending() == tail
                    &&& final(self).position() == start + 1
                    &&& tokens_view(final(tokens)@) == tokens_view(old(tokens)@).push(
                        token_at(SToken::Keyword(one@), start as nat, 1))
                }
            }),
    {
        let ghost before = tokens@;
        let ghost tail = self.ctx.pending();
        match self.ctx.next() {
            Some(d) => if d == '=' {
                tokens.push(keyword(two, start, 2));
            } else {
                tokens.push(keyword(one, start, 1));
                self.ctx.return_char(d);
                assert(self.ctx.pending() =~= tail);
            },
            None => {
                tokens.push(keyword(one, start, 1));
            },
        }
        assert(tokens_view(tokens@) =~= tokens_view(before).push(tokens@.last()@));
    }

    /// Splits the rest of the text into tokens.
    pub fn tokenize(&mut self) -> (r: Result<Vec<ExtendedToken>, LexerError>)
        requires
            old(self).wf(),
        ensures
            final(self).wf(),
            lex_view(r) == scan(old(self).pending(), old(self).position(), seq![]),
    {
        let mut tokens: Vec<ExtendedToken> = Vec::new();
        let ghost goal = scan(self.pending(), self.position(), seq![]);
        assert(tokens_view(tokens@) =~= Seq::<TokenAt>::empty());
        loop
            invariant
                self.wf(),
                goal == scan(old(self).pending(), old(self).position(), seq![]),
                scan(self.pending(), self.position(), tokens_view(tokens@)) == goal,
            ensures
                goal == Ok::<Seq<TokenAt>, (nat, LexErrorKind)>(tokens_view(tokens@)),
            decreases self.ctx.pending().len(),
        {
            let ghost rest = self.ctx.pending();
            let ghost pos = self.ctx.position();
            let ghost acc = tokens_view(tokens@);
            let c = match self.ctx.next() {
                Some(c) => c,
                None => {
                    assert(scan(self.pending(), self.position(), acc) == Ok::<Seq<TokenAt>, (nat, LexErrorKind)>(acc));
                    break;
                },
            };
            let start = self.ctx.pos() - 1;
            let ghost tail = rest.drop_first();
            proof {
                reveal_strlit("+");
                reveal_strlit("-");
                reveal_strlit("*");
                reveal_strlit("=");
                reveal_strlit("/");
                reveal_strlit("/=");
                reveal_strlit(">");
                reveal_strlit(">=");
                reveal_strlit("<");
                reveal_strlit("<=");
            }
            if c == ' ' || c == '\t' || c == '\n' {
            } else if c == '(' {
                tokens.push(ExtendedToken::new(Token::LParen, start, 1));
                assert(tokens_view(tokens@) =~= acc.push(token_at(SToken::LParen, pos, 1)));
            } else if c == ')' {
                tokens.push(ExtendedToken::new(Token::RParen, start, 1));
                assert(tokens_view(tokens@) =~= acc.push(token_at(SToken::RParen, pos, 1)));
            } else if c == '\'' {
                tokens.push(ExtendedToken::new(Token::Quote, start, 1));
                assert(tokens_view(tokens@) =~= acc.push(token_at(SToken::Quote, pos, 1)));
            } else if c == '+' {
                tokens.push(keyword("+", start, 1));
                assert("+"@ =~= seq![c]);
                assert(tokens_view(tokens@) =~= acc.push(token_at(SToken::Keyword(seq![c]), pos, 1)));
            } else if c == '-' {
                tokens.push(keyword("-", start, 1));
                assert("-"@ =~= seq![c]);
                assert(tokens_view(tokens@) =~= acc.push(token_at(SToken::Keyword(seq![c]), pos, 1)));
            } else if c == '*' {
                tokens.push(keyword("*", start, 1));
                assert("*"@ =~= seq![c]);
                assert(tokens_view(tokens@) =~= acc.push(token_at(SToken::Keyword(seq![c]), pos, 1)));
            } else if c == '=' {
                tokens.push(keyword("=", start, 1));
                assert("="@ =~= seq![c]);
                assert(tokens_view(tokens@) =~= acc.push(token_at(SToken::Keyword(seq![c]), pos, 1)));
            } else if c == '/' {
                assert("/"@ =~= seq![c]);
                assert("/="@ =~= seq![c, '=']);
                assert("/="@ =~= "/"@.push('='));
                self.operator(&mut tokens, "/", "/=", start);
            } else if c == '>' {
                assert(">"@ =~= seq![c]);
                assert(">="@ =~= seq![c, '=']);
                assert(">="@ =~= ">"@.push('='));
                self.operator(&mut tokens, ">", ">=", start);
            } else if c == '<' {
                assert("<"@ =~= seq![c]);
                assert("<="@ =~= seq![c, '=']);
                assert("<="@ =~= "<"@.push('='));
                self.operator(&mut tokens, "<", "<=", start);
            } else if is_alphanumeric(c) {
                let mut s = String::new();
                push_char(&mut s, c);
                let mut n: usize = 1;
                let mut digits: bool = '0' <= c && c <= '9';
                let mut value: Option<i64> = if digits {
                    Some((c as u32 - '0' as u32) as i64)
                } else {
                    None
                };
                proof {
                    assert(s@ =~= rest.subrange(0, 1));
                    assert(rest.subrange(1, rest.len() as int) =~= tail);
                    assert(s@.drop_last() =~= Seq::<char>::empty());
                    assert(s@.last() == c);
                    assert(decimal_value(Seq::<char>::empty()) == 0);
                    assert(decimal_value(s@) == c as int - '0' as int);
                    assert(all_digits(s@) == is_digit(c)) by {
                        if is_digit(c) {
                            assert forall|i: int| 0 <= i < s@.len() implies is_digit(#[trigger] s@[i]) by {
                                assert(s@[i] == c);
                            }
                        } else {
                            assert(!is_digit(s@[0]));
                        }
                    }
                }
                loop
                    invariant_except_break
                        self.ctx.queued().len() == 0,
                    invariant
                        self.wf(),
                        rest.len() > 0,
                        tail == rest.drop_first(),
                        1 <= n <= rest.len(),
                        s@ == rest.subrange(0, n as int),
                        self.pending() == rest.subrange(n as int, rest.len() as int),
                        self.position() == pos + n,
                        start == pos,
                        1 + word_len(tail) == n + word_len(rest.subrange(n as int, rest.len() as int)),
                        digits == all_digits(s@),
                        digits ==> value == (if decimal_value(s@) <= i64::MAX {
                            Some(decimal_value(s@) as i64)
                        } else {
                            None::<i64>
                        }),
                        scan(rest, pos, acc) == goal,
                        goal == scan(old(self).pending(), old(self).position(), seq![]),
                        acc == tokens_view(tokens@),
                    ensures
                        word_len(rest.subrange(n as int, rest.len() as int)) == 0,
                    decreases self.ctx.pending().len(),
                {
                    let ghost before = s@;
                    let ghost more = self.pending();
                    match self.ctx.next() {
                        Some(d) => if is_alphanumeric(d) || d == '-' {
                            push_char(&mut s, d);
                            n = n + 1;
                            proof {
                                assert(s@ =~= rest.subrange(0, n as int));
                                assert(more.drop_first() =~= rest.subrange(n as int, rest.len() as int));
                                assert(s@.drop_last() =~= before);
                                assert(forall|i: int| 0 <= i < before.len() ==> s@[i] == before[i]);
                                if all_digits(before) {
                                    lemma_decimal_nonneg(before);
                                }
                            }
                            if digits {
                                if '0' <= d && d <= '9' {
                                    let dv = (d as u32 - '0' as u32) as i64;
                                    value = match value {
                                        Some(v) => match v.checked_mul(10) {
                                            Some(m) => m.checked_add(dv),
                                            None => None,
                                        },
                                        None => None,
                                    };
                                } else {
                                    digits = false;
                                    assert(!is_digit(s@[n - 1]));
                                }
                            }
                        } else {
                            self.ctx.return_char(d);
                            assert(self.pending() =~= more);
                            assert(word_len(more) == 0);
                            break;
                        },
                        None => {
                            assert(word_len(more) == 0);
                            break;
                        },
                    }
                }
                proof {
                    assert(rest.subrange(0, n as int) == s@);
                    assert(n == 1 + word_len(tail));
                    assert(alphanumeric(c));
                    assert(rest[0] == c);
                }
                if digits {
                    match value {
                        Some(v) => {
                            tokens.push(ExtendedToken::new(Token::Integer(v), start, n));
                        },
                        None => {
                            return Err(LexerError { index: start, kind: LexErrorKind::IntegerOverflow });
                        },
                    }
                } else {
                    tokens.push(ExtendedToken::new(Token::Keyword(s), start, n));
                }
                assert(tokens_view(tokens@) =~= acc.push(tokens@.last()@));
            } else {
                return Err(LexerError { index: start, kind: LexErrorKind::UnexpectedChar(c) });
            }
        }
        Ok(tokens)
    }
}

} // verus!
