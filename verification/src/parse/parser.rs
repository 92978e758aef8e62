//! Pratt (top-down operator-precedence) parser: turns the lexer's token stream
//! into an [`Expr`] tree.
//!
//! `parse_expr` seeds a left operand from `parse_atom`, then folds in infix
//! operators for as long as they bind at least as tightly as the caller's
//! `min_bp`. Precedence and associativity live in the `(left_bp, right_bp)`
//! pairs of `infix_binding_power`: `+ -` < `* /` < prefix `-` < `^`, with `^`
//! right-associative and the others left-associative.
//!
//! The grammar is given as the spec functions [`atom`], [`expr`] and [`climb`]
//! over the token models; the parser's methods are proved to compute them.

use vstd::prelude::*;
use crate::error::EngineError;
use crate::parse::ast::{Expr, SExpr};
use crate::parse::lexer::{Token, Tok, tok_shown, tok_text, toks_of};
use crate::parse::text::text;

verus! {

/// The right binding power of prefix `-`: tighter than `* /`, looser than `^`.
pub const PREFIX_BP: u8 = 5;

/// Binding power of an infix operator, as `(left_bp, right_bp)`.
pub open spec fn infix_bp(t: Tok) -> Option<(u8, u8)> {
    match t {
        Tok::Plus | Tok::Minus => Some((1u8, 2u8)),
        Tok::Star | Tok::Slash => Some((3u8, 4u8)),
        Tok::Caret => Some((7u8, 6u8)),
        _ => None,
    }
}

/// What the parser wanted where it failed.
pub enum Expect {
    /// Something that starts an operand.
    Operand,
    /// The `)` closing a group or a call.
    Close,
    /// The end of input.
    End,
}

/// A parse result: the tree and the position after it, or the position of the
/// offending token and what was expected there.
pub type PRes = Result<(SExpr, int), (int, Expect)>;

/// One operand: a number, a variable, a call `name(expr)`, a parenthesized
/// expression, or prefix `-` applied to an operand and the `^` chain after it.
pub open spec fn atom(t: Seq<Tok>, p: int) -> PRes
    decreases t.len() - p, 1int,
{
    if !(0 <= p < t.len()) {
        Err((p, Expect::Operand))
    } else {
        match t[p] {
            Tok::Number(s) => Ok((SExpr::Num(s), p + 1)),
            Tok::Ident(name) => {
                if p + 1 < t.len() && t[p + 1] is LParen {
                    match expr(t, p + 2, 0) {
                        Ok((arg, q)) => {
                            if 0 <= q < t.len() && t[q] is RParen {
                                Ok((SExpr::Call(name, Box::new(arg)), q + 1))
                            } else {
                                Err((q, Expect::Close))
                            }
                        },
                        Err(f) => Err(f),
                    }
                } else {
                    Ok((SExpr::Var(name), p + 1))
                }
            },
            Tok::LParen => match expr(t, p + 1, 0) {
                Ok((inner, q)) => {
                    if 0 <= q < t.len() && t[q] is RParen {
                        Ok((inner, q + 1))
                    } else {
                        Err((q, Expect::Close))
                    }
                },
                Err(f) => Err(f),
            },
            Tok::Minus => match expr(t, p + 1, PREFIX_BP as int) {
                Ok((child, q)) => Ok((SExpr::Unary(Tok::Minus, Box::new(child)), q)),
                Err(f) => Err(f),
            },
            _ => Err((p, Expect::Operand)),
        }
    }
}

/// An expression that absorbs only operators binding at least `min_bp`.
pub open spec fn expr(t: Seq<Tok>, p: int, min_bp: int) -> PRes
    decreases t.len() - p, 2int,
{
    match atom(t, p) {
        Ok((lhs, p1)) => {
            if p < p1 <= t.len() {
                climb(t, p1, lhs, min_bp)
            } else {
                Err((p1, Expect::Operand))
            }
        },
        Err(f) => Err(f),
    }
}

/// Fold infix operators at `p` and after into `lhs`.
pub open spec fn climb(t: Seq<Tok>, p: int, lhs: SExpr, min_bp: int) -> PRes
    decreases t.len() - p, 0int,
{
    if !(0 <= p < t.len()) {
        Err((p, Expect::Operand))
    } else {
        match infix_bp(t[p]) {
            None => Ok((lhs, p)),
            Some((l, r)) => {
                if (l as int) < min_bp {
                    Ok((lhs, p))
                } else {
                    match expr(t, p + 1, r as int) {
                        Ok((rhs, q)) => {
                            if p < q <= t.len() {
                                climb(
                                    t,
                                    q,
                                    SExpr::Binary(t[p], Box::new(lhs), Box::new(rhs)),
                                    min_bp,
                                )
                            } else {
                                Err((q, Expect::Operand))
                            }
                        },
                        Err(f) => Err(f),
                    }
                }
            },
        }
    }
}

/// A whole token stream: one expression followed by `Eof`.
pub open spec fn parse_tokens(t: Seq<Tok>) -> Result<SExpr, (int, Expect)> {
    match expr(t, 0, 0) {
        Ok((e, q)) => {
            if 0 <= q < t.len() && t[q] is Eof {
                Ok(e)
            } else {
                Err((q, Expect::End))
            }
        },
        Err(f) => Err(f),
    }
}

/// `+ - * /` group to the left: `a op b op c` parses as `(a op b) op c`.
pub proof fn lemma_left_assoc(op: Tok, a: Seq<char>, b: Seq<char>, c: Seq<char>)
    requires
        op is Plus || op is Minus || op is Star || op is Slash,
    ensures
        parse_tokens(seq![Tok::Ident(a), op, Tok::Ident(b), op, Tok::Ident(c), Tok::Eof]) == Ok::<SExpr, (int, Expect)>(
            SExpr::Binary(
                op,
                Box::new(SExpr::Binary(op, Box::new(SExpr::Var(a)), Box::new(SExpr::Var(b)))),
                Box::new(SExpr::Var(c)),
            ),
        ),
{
    let t = seq![Tok::Ident(a), op, Tok::Ident(b), op, Tok::Ident(c), Tok::Eof];
    let (l, r) = infix_bp(op)->Some_0;
    assert(atom(t, 4) == Ok::<(SExpr, int), (int, Expect)>((SExpr::Var(c), 5)));
    assert(climb(t, 5, SExpr::Var(c), r as int) == Ok::<(SExpr, int), (int, Expect)>((SExpr::Var(c), 5)));
    assert(expr(t, 4, r as int) == Ok::<(SExpr, int), (int, Expect)>((SExpr::Var(c), 5)));
    assert(atom(t, 2) == Ok::<(SExpr, int), (int, Expect)>((SExpr::Var(b), 3)));
    assert(climb(t, 3, SExpr::Var(b), r as int) == Ok::<(SExpr, int), (int, Expect)>((SExpr::Var(b), 3)));
    assert(expr(t, 2, r as int) == Ok::<(SExpr, int), (int, Expect)>((SExpr::Var(b), 3)));
    let ab = SExpr::Binary(op, Box::new(SExpr::Var(a)), Box::new(SExpr::Var(b)));
    let abc = SExpr::Binary(op, Box::new(ab), Box::new(SExpr::Var(c)));
    assert(climb(t, 5, abc, 0) == Ok::<(SExpr, int), (int, Expect)>((abc, 5)));
    assert(climb(t, 3, ab, 0) == Ok::<(SExpr, int), (int, Expect)>((abc, 5)));
    assert(atom(t, 0) == Ok::<(SExpr, int), (int, Expect)>((SExpr::Var(a), 1)));
    assert(climb(t, 1, SExpr::Var(a), 0) == Ok::<(SExpr, int), (int, Expect)>((abc, 5)));
    assert(expr(t, 0, 0) == Ok::<(SExpr, int), (int, Expect)>((abc, 5)));
}

/// `^` groups to the right: `a ^ b ^ c` parses as `a ^ (b ^ c)`.
pub proof fn lemma_caret_right_assoc(a: Seq<char>, b: Seq<char>, c: Seq<char>)
    ensures
        parse_tokens(seq![Tok::Ident(a), Tok::Caret, Tok::Ident(b), Tok::Caret, Tok::Ident(c), Tok::Eof])
            == Ok::<SExpr, (int, Expect)>(
            SExpr::Binary(
                Tok::Caret,
                Box::new(SExpr::Var(a)),
                Box::new(SExpr::Binary(Tok::Caret, Box::new(SExpr::Var(b)), Box::new(SExpr::Var(c)))),
            ),
        ),
{
    let t = seq![Tok::Ident(a), Tok::Caret, Tok::Ident(b), Tok::Caret, Tok::Ident(c), Tok::Eof];
    let bc = SExpr::Binary(Tok::Caret, Box::new(SExpr::Var(b)), Box::new(SExpr::Var(c)));
    let abc = SExpr::Binary(Tok::Caret, Box::new(SExpr::Var(a)), Box::new(bc));
    assert(atom(t, 4) == Ok::<(SExpr, int), (int, Expect)>((SExpr::Var(c), 5)));
    assert(climb(t, 5, SExpr::Var(c), 6) == Ok::<(SExpr, int), (int, Expect)>((SExpr::Var(c), 5)));
    assert(expr(t, 4, 6) == Ok::<(SExpr, int), (int, Expect)>((SExpr::Var(c), 5)));
    assert(climb(t, 5, bc, 6) == Ok::<(SExpr, int), (int, Expect)>((bc, 5)));
    assert(atom(t, 2) == Ok::<(SExpr, int), (int, Expect)>((SExpr::Var(b), 3)));
    assert(climb(t, 3, SExpr::Var(b), 6) == Ok::<(SExpr, int), (int, Expect)>((bc, 5)));
    assert(expr(t, 2, 6) == Ok::<(SExpr, int), (int, Expect)>((bc, 5)));
    assert(climb(t, 5, abc, 0) == Ok::<(SExpr, int), (int, Expect)>((abc, 5)));
    assert(atom(t, 0) == Ok::<(SExpr, int), (int, Expect)>((SExpr::Var(a), 1)));
    assert(climb(t, 1, SExpr::Var(a), 0) == Ok::<(SExpr, int), (int, Expect)>((abc, 5)));
    assert(expr(t, 0, 0) == Ok::<(SExpr, int), (int, Expect)>((abc, 5)));
}

/// `* /` bind tighter than `+ -`: `a add b mul c` parses as
/// `a add (b mul c)`, and `a mul b add c` as `(a mul b) add c`.
pub proof fn lemma_product_binds_tighter(add: Tok, mul: Tok, a: Seq<char>, b: Seq<char>, c: Seq<char>)
    requires
        add is Plus || add is Minus,
        mul is Star || mul is Slash,
    ensures
        parse_tokens(seq![Tok::Ident(a), add, Tok::Ident(b), mul, Tok::Ident(c), Tok::Eof]) == Ok::<SExpr, (int, Expect)>(
            SExpr::Binary(
                add,
                Box::new(SExpr::Var(a)),
                Box::new(SExpr::Binary(mul, Box::new(SExpr::Var(b)), Box::new(SExpr::Var(c)))),
            ),
        ),
        parse_tokens(seq![Tok::Ident(a), mul, Tok::Ident(b), add, Tok::Ident(c), Tok::Eof]) == Ok::<SExpr, (int, Expect)>(
            SExpr::Binary(
                add,
                Box::new(SExpr::Binary(mul, Box::new(SExpr::Var(a)), Box::new(SExpr::Var(b)))),
                Box::new(SExpr::Var(c)),
            ),
        ),
{
    let t = seq![Tok::Ident(a), add, Tok::Ident(b), mul, Tok::Ident(c), Tok::Eof];
    let bc = SExpr::Binary(mul, Box::new(SExpr::Var(b)), Box::new(SExpr::Var(c)));
    let abc = SExpr::Binary(add, Box::new(SExpr::Var(a)), Box::new(bc));
    assert(atom(t, 4) == Ok::<(SExpr, int), (int, Expect)>((SExpr::Var(c), 5)));
    assert(climb(t, 5, SExpr::Var(c), 4) == Ok::<(SExpr, int), (int, Expect)>((SExpr::Var(c), 5)));
    assert(expr(t, 4, 4) == Ok::<(SExpr, int), (int, Expect)>((SExpr::Var(c), 5)));
    assert(climb(t, 5, bc, 2) == Ok::<(SExpr, int), (int, Expect)>((bc, 5)));
    assert(atom(t, 2) == Ok::<(SExpr, int), (int, Expect)>((SExpr::Var(b), 3)));
    assert(climb(t, 3, SExpr::Var(b), 2) == Ok::<(SExpr, int), (int, Expect)>((bc, 5)));
    assert(expr(t, 2, 2) == Ok::<(SExpr, int), (int, Expect)>((bc, 5)));
    assert(climb(t, 5, abc, 0) == Ok::<(SExpr, int), (int, Expect)>((abc, 5)));
    assert(atom(t, 0) == Ok::<(SExpr, int), (int, Expect)>((SExpr::Var(a), 1)));
    assert(climb(t, 1, SExpr::Var(a), 0) == Ok::<(SExpr, int), (int, Expect)>((abc, 5)));
    assert(expr(t, 0, 0) == Ok::<(SExpr, int), (int, Expect)>((abc, 5)));

    let u = seq![Tok::Ident(a), mul, Tok::Ident(b), add, Tok::Ident(c), Tok::Eof];
    let ab = SExpr::Binary(mul, Box::new(SExpr::Var(a)), Box::new(SExpr::Var(b)));
    let abc2 = SExpr::Binary(add, Box::new(ab), Box::new(SExpr::Var(c)));
    assert(atom(u, 4) == Ok::<(SExpr, int), (int, Expect)>((SExpr::Var(c), 5)));
    assert(climb(u, 5, SExpr::Var(c), 2) == Ok::<(SExpr, int), (int, Expect)>((SExpr::Var(c), 5)));
    assert(expr(u, 4, 2) == Ok::<(SExpr, int), (int, Expect)>((SExpr::Var(c), 5)));
    assert(climb(u, 5, abc2, 0) == Ok::<(SExpr, int), (int, Expect)>((abc2, 5)));
    assert(climb(u, 3, ab, 0) == Ok::<(SExpr, int), (int, Expect)>((abc2, 5)));
    assert(atom(u, 2) == Ok::<(SExpr, int), (int, Expect)>((SExpr::Var(b), 3)));
    assert(climb(u, 3, SExpr::Var(b), 4) == Ok::<(SExpr, int), (int, Expect)>((SExpr::Var(b), 3)));
    assert(expr(u, 2, 4) == Ok::<(SExpr, int), (int, Expect)>((SExpr::Var(b), 3)));
    assert(atom(u, 0) == Ok::<(SExpr, int), (int, Expect)>((SExpr::Var(a), 1)));
    assert(climb(u, 1, SExpr::Var(a), 0) == Ok::<(SExpr, int), (int, Expect)>((abc2, 5)));
    assert(expr(u, 0, 0) == Ok::<(SExpr, int), (int, Expect)>((abc2, 5)));
}

/// Prefix `-` binds tighter than `*` and looser than `^`: `-a * b` parses
/// as `(-a) * b`, and `-a ^ b` as `-(a ^ b)`.
pub proof fn lemma_prefix_minus(a: Seq<char>, b: Seq<char>)
    ensures
        parse_tokens(seq![Tok::Minus, Tok::Ident(a), Tok::Star, Tok::Ident(b), Tok::Eof]) == Ok::<SExpr, (int, Expect)>(
            SExpr::Binary(
                Tok::Star,
                Box::new(SExpr::Unary(Tok::Minus, Box::new(SExpr::Var(a)))),
                Box::new(SExpr::Var(b)),
            ),
        ),
        parse_tokens(seq![Tok::Minus, Tok::Ident(a), Tok::Caret, Tok::Ident(b), Tok::Eof]) == Ok::<SExpr, (int, Expect)>(
            SExpr::Unary(
                Tok::Minus,
                Box::new(SExpr::Binary(Tok::Caret, Box::new(SExpr::Var(a)), Box::new(SExpr::Var(b)))),
            ),
        ),
{
    let t = seq![Tok::Minus, Tok::Ident(a), Tok::Star, Tok::Ident(b), Tok::Eof];
    let na = SExpr::Unary(Tok::Minus, Box::new(SExpr::Var(a)));
    let whole = SExpr::Binary(Tok::Star, Box::new(na), Box::new(SExpr::Var(b)));
    assert(atom(t, 1) == Ok::<(SExpr, int), (int, Expect)>((SExpr::Var(a), 2)));
    assert(climb(t, 2, SExpr::Var(a), 5) == Ok::<(SExpr, int), (int, Expect)>((SExpr::Var(a), 2)));
    assert(expr(t, 1, 5) == Ok::<(SExpr, int), (int, Expect)>((SExpr::Var(a), 2)));
    assert(atom(t, 0) == Ok::<(SExpr, int), (int, Expect)>((na, 2)));
    assert(atom(t, 3) == Ok::<(SExpr, int), (int, Expect)>((SExpr::Var(b), 4)));
    assert(climb(t, 4, SExpr::Var(b), 4) == Ok::<(SExpr, int), (int, Expect)>((SExpr::Var(b), 4)));
    assert(expr(t, 3, 4) == Ok::<(SExpr, int), (int, Expect)>((SExpr::Var(b), 4)));
    assert(climb(t, 4, whole, 0) == Ok::<(SExpr, int), (int, Expect)>((whole, 4)));
    assert(climb(t, 2, na, 0) == Ok::<(SExpr, int), (int, Expect)>((whole, 4)));
    assert(expr(t, 0, 0) == Ok::<(SExpr, int), (int, Expect)>((whole, 4)));

    let u = seq![Tok::Minus, Tok::Ident(a), Tok::Caret, Tok::Ident(b), Tok::Eof];
    let ab = SExpr::Binary(Tok::Caret, Box::new(SExpr::Var(a)), Box::new(SExpr::Var(b)));
    let nab = SExpr::Unary(Tok::Minus, Box::new(ab));
    assert(atom(u, 3) == Ok::<(SExpr, int), (int, Expect)>((SExpr::Var(b), 4)));
    assert(climb(u, 4, SExpr::Var(b), 6) == Ok::<(SExpr, int), (int, Expect)>((SExpr::Var(b), 4)));
    assert(expr(u, 3, 6) == Ok::<(SExpr, int), (int, Expect)>((SExpr::Var(b), 4)));
    assert(climb(u, 4, ab, 5) == Ok::<(SExpr, int), (int, Expect)>((ab, 4)));
    assert(atom(u, 1) == Ok::<(SExpr, int), (int, Expect)>((SExpr::Var(a), 2)));
    assert(climb(u, 2, SExpr::Var(a), 5) == Ok::<(SExpr, int), (int, Expect)>((ab, 4)));
    assert(expr(u, 1, 5) == Ok::<(SExpr, int), (int, Expect)>((ab, 4)));
    assert(atom(u, 0) == Ok::<(SExpr, int), (int, Expect)>((nab, 4)));
    assert(climb(u, 4, nab, 0) == Ok::<(SExpr, int), (int, Expect)>((nab, 4)));
    assert(expr(u, 0, 0) == Ok::<(SExpr, int), (int, Expect)>((nab, 4)));
}

/// A token stream as the lexer produces it: it ends with `Eof`.
pub open spec fn terminated(t: Seq<Tok>) -> bool {
    t.len() > 0 && t.last() is Eof
}

/// How an expected item reads in an error message.
pub open spec fn expect_text(x: Expect) -> Seq<char> {
    match x {
        Expect::Operand => "a number, variable, call, '-' or '('"@,
        Expect::Close => tok_text(Tok::RParen),
        Expect::End => tok_text(Tok::Eof),
    }
}

/// `e` reports the parse failure at position `p` of `t`, where `x` was
/// expected; `spell` spells the value of a number literal found there.
pub open spec fn reports_at<S: Fn(&String) -> String>(e: EngineError, t: Seq<Tok>, p: int, x: Expect, spell: S) -> bool {
    e matches EngineError::UnexpectedToken { expected, found } && expected@ == expect_text(x)
        && 0 <= p < t.len() && tok_shown(spell, t[p], found@)
}

/// Every successful parse consumes at least one token, and never the
/// terminating `Eof`; every failure is reported at a token of the stream.
pub proof fn lemma_progress(t: Seq<Tok>, p: int, min_bp: int, lhs: SExpr)
    requires
        terminated(t),
        0 <= p < t.len(),
    ensures
        atom(t, p) matches Ok((_, q)) ==> p < q < t.len(),
        expr(t, p, min_bp) matches Ok((_, q)) ==> p < q < t.len(),
        climb(t, p, lhs, min_bp) matches Ok((_, q)) ==> p <= q < t.len(),
        atom(t, p) matches Err((q, _)) ==> p <= q < t.len(),
        expr(t, p, min_bp) matches Err((q, _)) ==> p <= q < t.len(),
        climb(t, p, lhs, min_bp) matches Err((q, _)) ==> p <= q < t.len(),
    decreases t.len() - p,
{
    if !(t[p] is Eof) {
        assert(p + 1 < t.len());
        lemma_progress(t, p + 1, 0, lhs);
        lemma_progress(t, p + 1, PREFIX_BP as int, lhs);
        if t[p] is Ident && t[p + 1] is LParen {
            lemma_progress(t, p + 2, 0, lhs);
        }
        if let Some((l, r)) = infix_bp(t[p]) {
            lemma_progress(t, p + 1, r as int, lhs);
            if let Ok((rhs, q)) = expr(t, p + 1, r as int) {
                lemma_progress(t, q, min_bp, SExpr::Binary(t[p], Box::new(lhs), Box::new(rhs)));
            }
        }
    }
    if let Ok((l0, p1)) = atom(t, p) {
        lemma_progress(t, p1, min_bp, l0);
    }
}

pub struct Parser {
    pub tokens: Vec<Token>,
    pos: usize,
}

impl Parser {
    /// The index of the current token.
    pub closed spec fn position(&self) -> int {
        self.pos as int
    }

    /// The token models.
    pub closed spec fn toks(&self) -> Seq<Tok> {
        toks_of(self.tokens@)
    }

    /// The stream ends in `Eof` and the cursor is on a token.
    pub closed spec fn wf(&self) -> bool {
        terminated(self.toks()) && self.pos < self.tokens@.len() && self.tokens@.len() <= usize::MAX
    }

    /// A parser over an already-lexed token stream; the cursor starts at 0.
    pub fn new(tokens: Vec<Token>) -> (p: Parser)
        ensures
            p.toks() == toks_of(tokens@),
            p.position() == 0,
            terminated(toks_of(tokens@)) ==> p.wf(),
    {
        let _n = tokens.len();
        Parser { tokens, pos: 0 }
    }

    /// The current token.
    pub fn peek(&self) -> (t: &Token)
        requires
            self.position() < self.toks().len(),
        ensures
            t@ == self.toks()[self.position()],
    {
        &self.tokens[self.pos]
    }

    /// Consume the current token and step the cursor forward one.
    pub fn advance(&mut self) -> (t: Token)
        requires
            old(self).position() < old(self).toks().len(),
        ensures
            t@ == old(self).toks()[old(self).position()],
            final(self).toks() == old(self).toks(),
            final(self).position() == old(self).position() + 1,
    {
        let n = self.tokens.len();
        proof {
            assert(self.toks().len() == n);
        }
        let tok: Token = self.tokens[self.pos].duplicate();
        self.pos = self.pos + 1;
        tok
    }

    /// Consume the current token if it equals `expected`; otherwise report it
    /// and leave the cursor where it was.
    pub fn expect<S: Fn(&String) -> String>(&mut self, expected: Token, spell: &S) -> (r: Result<(), EngineError>)
        requires
            old(self).position() < old(self).toks().len(),
            forall|x: &String| spell.requires((x,)),
        ensures
            final(self).toks() == old(self).toks(),
            old(self).toks()[old(self).position()] == expected@ ==> r is Ok
                && final(self).position() == old(self).position() + 1,
            old(self).toks()[old(self).position()] != expected@ ==> final(self).position()
                == old(self).position() && (r matches Err(EngineError::UnexpectedToken {
                expected: x,
                found,
            }) && tok_shown(*spell, expected@, x@) && tok_shown(
                *spell,
                old(self).toks()[old(self).position()],
                found@,
            )),
    {
        if self.peek().same_as(&expected) {
            self.advance();
            Ok(())
        } else {
            Err(EngineError::UnexpectedToken { expected: expected.describe(spell), found: self.peek().describe(spell) })
        }
    }

    fn fail<S: Fn(&String) -> String>(&self, at: usize, x: Expect, spell: &S) -> (e: EngineError)
        requires
            at < self.tokens@.len(),
            forall|x: &String| spell.requires((x,)),
        ensures
            reports_at(e, self.toks(), at as int, x, *spell),
    {
        let expected = match x {
            Expect::Operand => text("a number, variable, call, '-' or '('"),
            Expect::Close => Token::RParen.describe(spell),
            Expect::End => Token::Eof.describe(spell),
        };
        EngineError::UnexpectedToken { expected, found: self.tokens[at].describe(spell) }
    }

    /// Parse one operand (see [`atom`]).
    pub fn parse_atom<S: Fn(&String) -> String>(&mut self, spell: &S) -> (r: Result<Expr, EngineError>)
        requires
            old(self).wf(),
            forall|x: &String| spell.requires((x,)),
        ensures
            final(self).toks() == old(self).toks(),
            match atom(old(self).toks(), old(self).position()) {
                Ok((e, q)) => r matches Ok(v) && v@ == e && final(self).position() == q
                    && final(self).wf(),
                Err((q, x)) => r matches Err(err) && reports_at(err, old(self).toks(), q, x, *spell),
            },
        decreases old(self).toks().len() - old(self).position(), 1int,
    {
        let ghost t = self.toks();
        let ghost p = self.pos as int;
        proof {
            lemma_progress(t, p, 0, SExpr::Num(Seq::empty()));
        }
        let at = self.pos;
        match self.advance() {
            Token::Number(n) => Ok(Expr::Num(n)),
            Token::Ident(name) => {
                proof {
                    assert(t[p] is Ident);
                    assert(p + 1 < t.len());
                    assert(self.tokens@.len() == t.len());
                }
                if self.pos < self.tokens.len() - 1 && matches!(self.tokens[self.pos], Token::LParen) {
                    self.pos = self.pos + 1;
                    proof {
                        assert(t[p + 1] is LParen);
                        assert(p + 2 < t.len());
                        lemma_progress(t, p + 2, 0, SExpr::Num(Seq::empty()));
                    }
                    let arg = match self.parse_expr(0, spell) {
                        Ok(a) => a,
                        Err(err) => {
                            return Err(err);
                        },
                    };
                    if matches!(self.tokens[self.pos], Token::RParen) {
                        self.pos = self.pos + 1;
                        Ok(Expr::Call { fn_name: name, arg: Box::new(arg) })
                    } else {
                        Err(self.fail(self.pos, Expect::Close, spell))
                    }
                } else {
                    Ok(Expr::Var(name))
                }
            },
            Token::LParen => {
                proof {
                    lemma_progress(t, p + 1, 0, SExpr::Num(Seq::empty()));
                }
                let inner = match self.parse_expr(0, spell) {
                    Ok(a) => a,
                    Err(err) => {
                        return Err(err);
                    },
                };
                if matches!(self.tokens[self.pos], Token::RParen) {
                    self.pos = self.pos + 1;
                    Ok(inner)
                } else {
                    Err(self.fail(self.pos, Expect::Close, spell))
                }
            },
            Token::Minus => {
                proof {
                    lemma_progress(t, p + 1, PREFIX_BP as int, SExpr::Num(Seq::empty()));
                }
                let child = match self.parse_expr(PREFIX_BP, spell) {
                    Ok(a) => a,
                    Err(err) => {
                        return Err(err);
                    },
                };
                Ok(Expr::Unary { op: Token::Minus, child: Box::new(child) })
            },
            _ => Err(self.fail(at, Expect::Operand, spell)),
        }
    }

    /// The Pratt core (see [`expr`]): parse an expression, absorbing only
    /// operators that bind at least as tightly as `min_bp`.
    pub fn parse_expr<S: Fn(&String) -> String>(&mut self, min_bp: u8, spell: &S) -> (r: Result<Expr, EngineError>)
        requires
            old(self).wf(),
            forall|x: &String| spell.requires((x,)),
        ensures
            final(self).toks() == old(self).toks(),
            match expr(old(self).toks(), old(self).position(), min_bp as int) {
                Ok((e, q)) => r matches Ok(v) && v@ == e && final(self).position() == q
                    && final(self).wf(),
                Err((q, x)) => r matches Err(err) && reports_at(err, old(self).toks(), q, x, *spell),
            },
        decreases old(self).toks().len() - old(self).position(), 2int,
    {
        let ghost t = self.toks();
        let ghost p = self.pos as int;
        let mut lhs: Expr = match self.parse_atom(spell) {
            Ok(a) => a,
            Err(err) => {
                return Err(err);
            },
        };
        proof {
            lemma_progress(t, p, min_bp as int, lhs@);
        }
        loop
            invariant
                self.wf(),
                self.toks() == t,
                t == old(self).toks(),
                p == old(self).position(),
                p < self.position(),
                forall|x: &String| spell.requires((x,)),
                climb(t, self.position(), lhs@, min_bp as int) == expr(t, p, min_bp as int),
            ensures
                self.wf(),
                self.toks() == t,
                expr(t, p, min_bp as int) == Ok::<(SExpr, int), (int, Expect)>((lhs@, self.position())),
            decreases t.len() - self.position(),
        {
            let ghost q = self.position();
            proof {
                lemma_progress(t, q, min_bp as int, lhs@);
            }
            let (left_bp, right_bp) = match infix_binding_power(self.peek()) {
                Some(bp) => bp,
                None => break,
            };
            if left_bp < min_bp {
                break;
            }
            let op: Token = self.advance();
            proof {
                lemma_progress(t, q + 1, right_bp as int, lhs@);
            }
            let rhs: Expr = match self.parse_expr(right_bp, spell) {
                Ok(a) => a,
                Err(err) => {
                    return Err(err);
                },
            };
            lhs = Expr::Binary { op, left: Box::new(lhs), right: Box::new(rhs) };
        }
        Ok(lhs)
    }

    /// Parse the whole stream: one expression, then `Eof`.
    pub fn parse<S: Fn(&String) -> String>(&mut self, spell: &S) -> (r: Result<Expr, EngineError>)
        requires
            old(self).wf(),
            forall|x: &String| spell.requires((x,)),
            old(self).position() == 0,
        ensures
            match parse_tokens(old(self).toks()) {
                Ok(e) => r matches Ok(v) && v@ == e,
                Err((q, x)) => r matches Err(err) && reports_at(err, old(self).toks(), q, x, *spell),
            },
    {
        let e = match self.parse_expr(0, spell) {
            Ok(a) => a,
            Err(err) => {
                return Err(err);
            },
        };
        if self.peek().is_eof() {
            Ok(e)
        } else {
            Err(self.fail(self.pos, Expect::End, spell))
        }
    }
}

/// Binding power of an infix operator; `None` for any token that is not one.
fn infix_binding_power(tok: &Token) -> (r: Option<(u8, u8)>)
    ensures
        r == infix_bp(tok@),
{
    match tok {
        Token::Plus | Token::Minus => Some((1, 2)),
        Token::Star | Token::Slash => Some((3, 4)),
        Token::Caret => Some((7, 6)),
        _ => None,
    }
}

} // verus!
