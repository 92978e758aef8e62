//! Re-reading a printed formula.
//!
//! The printer ([`crate::graph::display`]) parenthesizes by the same
//! precedences the parser's binding powers encode, so a printed node re-reads
//! as itself: its text lexes as [`printed_toks`], those tokens parse into the
//! node's [`formula`] with the same grouping, and lowering that formula gives
//! back the node's term ([`lemma_print_then_compile`]).

use vstd::prelude::*;
use crate::error::EngineError;
use crate::graph::arena::Graph;
use crate::graph::display::{paren, payload, render, P_ADD, P_ATOM, P_MUL, P_NEG, P_POW};
use crate::graph::node::{NodeView, Op};
use crate::graph::topo::{node_ok, term, wf_nodes};
use crate::parse::ast::SExpr;
use crate::parse::compiles;
use crate::parse::lexer::{ident_end, lex_from, lex_spec, next_tok, number_char, number_end, skip_space, valid_number, LexFail, Tok};
use crate::parse::text::{alphanumeric, alphabetic, numeric, white_space};
use crate::parse::lower::{converts, denotes, literals_convert, shape_ok};
use crate::parse::parser::{atom, climb, expr, infix_bp, parse_tokens, Expect, PREFIX_BP};

verus! {

/// `t` in parentheses.
pub open spec fn parens(t: Seq<Tok>) -> Seq<Tok> {
    seq![Tok::LParen] + t + seq![Tok::RParen]
}

/// `t`, parenthesized when `wrap` holds.
pub open spec fn group(t: Seq<Tok>, wrap: bool) -> Seq<Tok> {
    if wrap { parens(t) } else { t }
}

/// The precedence the printer gives node `i`'s top operator.
pub open spec fn prec(g: Seq<NodeView>, i: int, texts: Seq<Seq<char>>) -> u8 {
    render(g, i, texts).1
}

/// The tokens of node `i`'s printed form, with `texts[j]` the spelling of node
/// `j`'s numeric payload.
pub open spec fn printed_toks(g: Seq<NodeView>, i: int, texts: Seq<Seq<char>>) -> Seq<Tok>
    decreases i,
{
    if !(0 <= i < g.len()) {
        Seq::empty()
    } else {
        let ins = g[i].inputs;
        let a = ins[0] as int;
        let b = ins[1] as int;
        let c0 = if ins.len() >= 1 && a < i { printed_toks(g, a, texts) } else { Seq::empty() };
        let c1 = if ins.len() >= 2 && b < i { printed_toks(g, b, texts) } else { Seq::empty() };
        let p0 = if ins.len() >= 1 && a < i { prec(g, a, texts) } else { P_ATOM };
        let p1 = if ins.len() >= 2 && b < i { prec(g, b, texts) } else { P_ATOM };
        match g[i].op {
            Op::Var(name) => seq![Tok::Ident(name)],
            Op::Const(_) => seq![Tok::Number(texts[i])],
            Op::Add => group(c0, p0 < P_ADD) + seq![Tok::Plus] + group(c1, p1 <= P_ADD),
            Op::Sub => group(c0, p0 < P_ADD) + seq![Tok::Minus] + group(c1, p1 <= P_ADD),
            Op::Mul => group(c0, p0 < P_MUL) + seq![Tok::Star] + group(c1, p1 <= P_MUL),
            Op::Div => group(c0, p0 < P_MUL) + seq![Tok::Slash] + group(c1, p1 <= P_MUL),
            Op::Neg => seq![Tok::Minus] + group(c0, p0 < P_NEG),
            Op::Pow(_) => group(c0, p0 <= P_POW) + seq![Tok::Caret, Tok::Number(texts[i])],
            Op::Sin => seq![Tok::Ident("sin"@), Tok::LParen] + c0 + seq![Tok::RParen],
            Op::Cos => seq![Tok::Ident("cos"@), Tok::LParen] + c0 + seq![Tok::RParen],
            Op::Exp => seq![Tok::Ident("exp"@), Tok::LParen] + c0 + seq![Tok::RParen],
            Op::Ln => seq![Tok::Ident("ln"@), Tok::LParen] + c0 + seq![Tok::RParen],
        }
    }
}

/// The expression tree node `i` computes, as the parser writes it: a literal
/// spelled by `texts`, a `^` with a literal exponent, a call by its name.
pub open spec fn formula(g: Seq<NodeView>, i: int, texts: Seq<Seq<char>>) -> SExpr
    decreases i,
{
    if !(0 <= i < g.len()) {
        SExpr::Num(Seq::empty())
    } else {
        let ins = g[i].inputs;
        let a = ins[0] as int;
        let b = ins[1] as int;
        let f0 = if ins.len() >= 1 && a < i { formula(g, a, texts) } else { SExpr::Num(Seq::empty()) };
        let f1 = if ins.len() >= 2 && b < i { formula(g, b, texts) } else { SExpr::Num(Seq::empty()) };
        match g[i].op {
            Op::Var(name) => SExpr::Var(name),
            Op::Const(_) => SExpr::Num(texts[i]),
            Op::Add => SExpr::Binary(Tok::Plus, Box::new(f0), Box::new(f1)),
            Op::Sub => SExpr::Binary(Tok::Minus, Box::new(f0), Box::new(f1)),
            Op::Mul => SExpr::Binary(Tok::Star, Box::new(f0), Box::new(f1)),
            Op::Div => SExpr::Binary(Tok::Slash, Box::new(f0), Box::new(f1)),
            Op::Neg => SExpr::Unary(Tok::Minus, Box::new(f0)),
            Op::Pow(_) => SExpr::Binary(Tok::Caret, Box::new(f0), Box::new(SExpr::Num(texts[i]))),
            Op::Sin => SExpr::Call("sin"@, Box::new(f0)),
            Op::Cos => SExpr::Call("cos"@, Box::new(f0)),
            Op::Exp => SExpr::Call("exp"@, Box::new(f0)),
            Op::Ln => SExpr::Call("ln"@, Box::new(f0)),
        }
    }
}

/// The least binding power an operator that follows node `i`'s printed form
/// must stay below, so that no pending operand inside it absorbs the operator.
pub open spec fn edge(g: Seq<NodeView>, i: int, texts: Seq<Seq<char>>) -> int
    decreases i,
{
    if !(0 <= i < g.len()) {
        255
    } else {
        let ins = g[i].inputs;
        let a = ins[0] as int;
        let b = ins[1] as int;
        let e0 = if ins.len() >= 1 && a < i { edge(g, a, texts) } else { 255 };
        let e1 = if ins.len() >= 2 && b < i { edge(g, b, texts) } else { 255 };
        let p0 = if ins.len() >= 1 && a < i { prec(g, a, texts) } else { P_ATOM };
        let p1 = if ins.len() >= 2 && b < i { prec(g, b, texts) } else { P_ATOM };
        match g[i].op {
            Op::Add | Op::Sub => if p1 <= P_ADD { 2 } else if e1 < 2 { e1 } else { 2 },
            Op::Mul | Op::Div => if p1 <= P_MUL { 4 } else if e1 < 4 { e1 } else { 4 },
            Op::Neg => if p0 < P_NEG { 5 } else if e0 < 5 { e0 } else { 5 },
            Op::Pow(_) => 6,
            _ => 255,
        }
    }
}

/// The least `min_bp` at which a parse still takes in a whole printed form of
/// precedence `p`: the left binding power of its top infix operator.
pub open spec fn strength(p: u8) -> int {
    if p == P_ADD {
        1
    } else if p == P_MUL {
        3
    } else if p == P_POW {
        7
    } else {
        255
    }
}

/// A bound under [`edge`] that depends on the precedence alone.
pub open spec fn floor(p: u8) -> int {
    if p == P_ADD {
        1
    } else if p == P_MUL {
        3
    } else if p == P_NEG {
        4
    } else if p == P_POW {
        5
    } else {
        7
    }
}

/// The token at `q` ends an operand whose pending binding powers are at least
/// `e`: it exists, it does not open a call, and it is no infix operator that
/// binds at `e` or tighter.
pub open spec fn stops(t: Seq<Tok>, q: int, e: int) -> bool {
    &&& 0 <= q < t.len()
    &&& !(t[q] is LParen)
    &&& match infix_bp(t[q]) {
        Some((l, _)) => (l as int) < e,
        None => true,
    }
}

proof fn lemma_prec_range(g: Seq<NodeView>, i: int, texts: Seq<Seq<char>>)
    ensures
        prec(g, i, texts) == P_ADD || prec(g, i, texts) == P_MUL || prec(g, i, texts) == P_NEG
            || prec(g, i, texts) == P_POW || prec(g, i, texts) == P_ATOM,
{
}

/// Every printed form ends with room above its precedence's floor.
proof fn lemma_edge_floor(g: Seq<NodeView>, i: int, texts: Seq<Seq<char>>)
    requires
        wf_nodes(g),
        0 <= i < g.len(),
    ensures
        edge(g, i, texts) > floor(prec(g, i, texts)),
        printed_toks(g, i, texts).len() >= 1,
    decreases i,
{
    assert(node_ok(g, i));
    let ins = g[i].inputs;
    if ins.len() >= 1 {
        assert(ins[0] < i);
        lemma_edge_floor(g, ins[0] as int, texts);
        lemma_prec_range(g, ins[0] as int, texts);
    }
    if ins.len() >= 2 {
        assert(ins[1] < i);
        lemma_edge_floor(g, ins[1] as int, texts);
        lemma_prec_range(g, ins[1] as int, texts);
    }
}

/// `t` holds `a` followed by `b` from `s` on.
proof fn lemma_split(t: Seq<Tok>, s: int, a: Seq<Tok>, b: Seq<Tok>)
    requires
        0 <= s,
        s + a.len() + b.len() <= t.len(),
        t.subrange(s, s + a.len() + b.len()) == a + b,
    ensures
        t.subrange(s, s + a.len()) == a,
        t.subrange(s + a.len(), s + a.len() + b.len()) == b,
{
    let ab = a + b;
    let sub = t.subrange(s, s + a.len() + b.len());
    assert forall|k: int| 0 <= k < a.len() implies t[s + k] == a[k] by {
        assert(sub[k] == t[s + k]);
        assert(ab[k] == a[k]);
    }
    assert forall|k: int| 0 <= k < b.len() implies t[s + a.len() + k] == b[k] by {
        assert(sub[a.len() + k] == t[s + a.len() + k]);
        assert(ab[a.len() + k] == b[k]);
    }
    assert(t.subrange(s, s + a.len()) =~= a);
    assert(t.subrange(s + a.len(), s + a.len() + b.len()) =~= b);
}

/// A printed operand, parenthesized or not, parses at `m` into its formula
/// and hands the rest of the stream to climbing at `m`.
proof fn lemma_reads_operand(g: Seq<NodeView>, texts: Seq<Seq<char>>, c: int, wrap: bool, t: Seq<Tok>, s: int, m: int)
    requires
        wf_nodes(g),
        0 <= c < g.len(),
        0 <= s,
        s + group(printed_toks(g, c, texts), wrap).len() < t.len(),
        t.subrange(s, s + group(printed_toks(g, c, texts), wrap).len()) == group(printed_toks(g, c, texts), wrap),
        0 <= m,
        wrap || m <= strength(prec(g, c, texts)),
        !(t[s + group(printed_toks(g, c, texts), wrap).len()] is LParen),
        wrap || stops(t, s + group(printed_toks(g, c, texts), wrap).len(), edge(g, c, texts)),
    ensures
        expr(t, s, m) == climb(t, s + group(printed_toks(g, c, texts), wrap).len(), formula(g, c, texts), m),
    decreases c, 2int,
{
    let tc = printed_toks(g, c, texts);
    lemma_edge_floor(g, c, texts);
    if wrap {
        let w = parens(tc);
        assert(w == seq![Tok::LParen] + tc + seq![Tok::RParen]);
        lemma_split(t, s, seq![Tok::LParen] + tc, seq![Tok::RParen]);
        lemma_split(t, s, seq![Tok::LParen], tc);
        assert(t[s] == Tok::LParen) by {
            assert(t.subrange(s, s + 1)[0] == t[s]);
        }
        let q = s + 1 + tc.len();
        assert(t[q] == Tok::RParen) by {
            assert(t.subrange(q, q + 1)[0] == t[q]);
        }
        assert(stops(t, q, edge(g, c, texts)));
        lemma_reads(g, texts, c, t, s + 1, 0);
        assert(climb(t, q, formula(g, c, texts), 0) == Ok::<(SExpr, int), (int, Expect)>((formula(g, c, texts), q)));
        assert(atom(t, s) == Ok::<(SExpr, int), (int, Expect)>((formula(g, c, texts), q + 1)));
    } else {
        lemma_reads(g, texts, c, t, s, m);
    }
}

/// The tokens of a printed node parse, at any `m` up to its strength, into the
/// node's formula, and hand the rest of the stream to climbing at `m`.
proof fn lemma_reads(g: Seq<NodeView>, texts: Seq<Seq<char>>, i: int, t: Seq<Tok>, s: int, m: int)
    requires
        wf_nodes(g),
        0 <= i < g.len(),
        0 <= s,
        s + printed_toks(g, i, texts).len() < t.len(),
        t.subrange(s, s + printed_toks(g, i, texts).len()) == printed_toks(g, i, texts),
        0 <= m <= strength(prec(g, i, texts)),
        stops(t, s + printed_toks(g, i, texts).len(), edge(g, i, texts)),
    ensures
        expr(t, s, m) == climb(t, s + printed_toks(g, i, texts).len(), formula(g, i, texts), m),
    decreases i, 1int,
{
    let tt = printed_toks(g, i, texts);
    let e = formula(g, i, texts);
    let qe = s + tt.len();
    assert(node_ok(g, i));
    lemma_edge_floor(g, i, texts);
    let ins = g[i].inputs;
    let a = ins[0] as int;
    let b = ins[1] as int;
    if ins.len() >= 1 {
        assert(ins[0] < i);
        lemma_edge_floor(g, a, texts);
        lemma_prec_range(g, a, texts);
    }
    if ins.len() >= 2 {
        assert(ins[1] < i);
        lemma_edge_floor(g, b, texts);
        lemma_prec_range(g, b, texts);
    }
    assert(t[s] == tt[0]) by {
        assert(t.subrange(s, qe)[0] == t[s]);
    }
    match g[i].op {
        Op::Var(name) => {
            assert(atom(t, s) == Ok::<(SExpr, int), (int, Expect)>((SExpr::Var(name), s + 1)));
        },
        Op::Const(_) => {
            assert(atom(t, s) == Ok::<(SExpr, int), (int, Expect)>((SExpr::Num(texts[i]), s + 1)));
        },
        Op::Sin | Op::Cos | Op::Exp | Op::Ln => {
            let c0 = printed_toks(g, a, texts);
            let f = match g[i].op {
                Op::Sin => "sin"@,
                Op::Cos => "cos"@,
                Op::Exp => "exp"@,
                _ => "ln"@,
            };
            let head = seq![Tok::Ident(f), Tok::LParen];
            assert(tt == head + c0 + seq![Tok::RParen]);
            lemma_split(t, s, head + c0, seq![Tok::RParen]);
            lemma_split(t, s, head, c0);
            let q = s + 2 + c0.len();
            assert(t[s + 1] == Tok::LParen) by {
                assert(t.subrange(s, s + 2)[1] == t[s + 1]);
            }
            assert(t[q] == Tok::RParen) by {
                assert(t.subrange(q, q + 1)[0] == t[q]);
            }
            lemma_reads(g, texts, a, t, s + 2, 0);
            assert(climb(t, q, formula(g, a, texts), 0) == Ok::<(SExpr, int), (int, Expect)>((formula(g, a, texts), q)));
            assert(atom(t, s) == Ok::<(SExpr, int), (int, Expect)>((e, q + 1)));
        },
        Op::Neg => {
            let p0 = prec(g, a, texts);
            let w = p0 < P_NEG;
            let c0 = group(printed_toks(g, a, texts), w);
            assert(tt == seq![Tok::Minus] + c0);
            lemma_split(t, s, seq![Tok::Minus], c0);
            lemma_reads_operand(g, texts, a, w, t, s + 1, PREFIX_BP as int);
            assert(climb(t, qe, formula(g, a, texts), PREFIX_BP as int) == Ok::<(SExpr, int), (int, Expect)>((formula(g, a, texts), qe)));
            assert(atom(t, s) == Ok::<(SExpr, int), (int, Expect)>((e, qe)));
        },
        Op::Pow(_) => {
            let p0 = prec(g, a, texts);
            let w = p0 <= P_POW;
            let c0 = group(printed_toks(g, a, texts), w);
            let tail = seq![Tok::Caret, Tok::Number(texts[i])];
            assert(tt == c0 + tail);
            lemma_split(t, s, c0, tail);
            let q = s + c0.len();
            assert(t[q] == Tok::Caret) by {
                assert(t.subrange(q, q + 2)[0] == t[q]);
            }
            assert(t[q + 1] == Tok::Number(texts[i])) by {
                assert(t.subrange(q, q + 2)[1] == t[q + 1]);
            }
            lemma_reads_operand(g, texts, a, w, t, s, m);
            let num = SExpr::Num(texts[i]);
            assert(atom(t, q + 1) == Ok::<(SExpr, int), (int, Expect)>((num, q + 2)));
            assert(climb(t, q + 2, num, 6) == Ok::<(SExpr, int), (int, Expect)>((num, q + 2)));
            assert(expr(t, q + 1, 6) == Ok::<(SExpr, int), (int, Expect)>((num, q + 2)));
            assert(climb(t, q, formula(g, a, texts), m) == climb(t, qe, e, m));
        },
        _ => {
            let (pr, op_tok, rb) = match g[i].op {
                Op::Add => (P_ADD, Tok::Plus, 2int),
                Op::Sub => (P_ADD, Tok::Minus, 2int),
                Op::Mul => (P_MUL, Tok::Star, 4int),
                _ => (P_MUL, Tok::Slash, 4int),
            };
            let p0 = prec(g, a, texts);
            let p1 = prec(g, b, texts);
            let wl = p0 < pr;
            let wr = p1 <= pr;
            let cl = group(printed_toks(g, a, texts), wl);
            let cr = group(printed_toks(g, b, texts), wr);
            assert(tt == cl + seq![op_tok] + cr);
            lemma_split(t, s, cl + seq![op_tok], cr);
            lemma_split(t, s, cl, seq![op_tok]);
            let q = s + cl.len();
            assert(t[q] == op_tok) by {
                assert(t.subrange(q, q + 1)[0] == t[q]);
            }
            lemma_reads_operand(g, texts, a, wl, t, s, m);
            lemma_reads_operand(g, texts, b, wr, t, q + 1, rb);
            assert(climb(t, qe, formula(g, b, texts), rb) == Ok::<(SExpr, int), (int, Expect)>((formula(g, b, texts), qe)));
            assert(climb(t, q, formula(g, a, texts), m) == climb(t, qe, e, m));
        },
    }
}

/// A printed node reads back as what it prints: its tokens, followed by
/// `Eof`, parse into the node's formula, with the same grouping.
pub proof fn lemma_printed_parses(g: Seq<NodeView>, i: int, texts: Seq<Seq<char>>)
    requires
        wf_nodes(g),
        0 <= i < g.len(),
    ensures
        parse_tokens(printed_toks(g, i, texts).push(Tok::Eof)) == Ok::<SExpr, (int, Expect)>(formula(g, i, texts)),
{
    let tt = printed_toks(g, i, texts);
    let t = tt.push(Tok::Eof);
    lemma_edge_floor(g, i, texts);
    lemma_prec_range(g, i, texts);
    assert(t.subrange(0, tt.len() as int) =~= tt);
    assert(t[tt.len() as int] == Tok::Eof);
    lemma_reads(g, texts, i, t, 0, 0);
    assert(climb(t, tt.len() as int, formula(g, i, texts), 0) == Ok::<(SExpr, int), (int, Expect)>((formula(g, i, texts), tt.len() as int)));
}

/// The spelling of every payload converts back to exactly that payload.
pub open spec fn reads_back<F: Fn(&String) -> Option<u64>>(g: Seq<NodeView>, texts: Seq<Seq<char>>, conv: F) -> bool {
    &&& texts.len() == g.len()
    &&& forall|j: int, r: Option<u64>|
        0 <= j < g.len() && payload(g[j].op) is Some && #[trigger] converts(conv, texts[j], r) ==> r == payload(
            g[j].op,
        )
}

/// Every operator of a formula has a graph counterpart, and every literal
/// converts.
proof fn lemma_formula_lowers<F: Fn(&String) -> Option<u64>>(g: Seq<NodeView>, i: int, texts: Seq<Seq<char>>, conv: F)
    requires
        wf_nodes(g),
        0 <= i < g.len(),
        reads_back(g, texts, conv),
    ensures
        shape_ok(formula(g, i, texts)),
        literals_convert(formula(g, i, texts), conv),
    decreases i,
{
    reveal_strlit("sin");
    reveal_strlit("cos");
    reveal_strlit("exp");
    reveal_strlit("ln");
    assert(node_ok(g, i));
    let ins = g[i].inputs;
    if ins.len() >= 1 {
        assert(ins[0] < i);
        lemma_formula_lowers(g, ins[0] as int, texts, conv);
    }
    if ins.len() >= 2 {
        assert(ins[1] < i);
        lemma_formula_lowers(g, ins[1] as int, texts, conv);
    }
    match g[i].op {
        Op::Const(_) | Op::Pow(_) => {
            assert forall|r: Option<u64>| #[trigger] converts(conv, texts[i], r) implies r is Some by {
                assert(payload(g[i].op) is Some);
            }
            assert(literals_convert(SExpr::Num(texts[i]), conv));
        },
        _ => {},
    }
}

/// A graph node that denotes a formula computes the formula's node: lowering
/// gives back the term it was printed from.
proof fn lemma_formula_term<F: Fn(&String) -> Option<u64>>(
    g: Seq<NodeView>,
    i: int,
    texts: Seq<Seq<char>>,
    conv: F,
    h: Seq<NodeView>,
    r: int,
)
    requires
        wf_nodes(g),
        wf_nodes(h),
        0 <= i < g.len(),
        reads_back(g, texts, conv),
        denotes(h, r, formula(g, i, texts), conv),
    ensures
        term(h, r) == term(g, i),
    decreases i,
{
    reveal_strlit("sin");
    reveal_strlit("cos");
    reveal_strlit("exp");
    reveal_strlit("ln");
    assert(node_ok(g, i));
    assert(node_ok(h, r));
    let ins = g[i].inputs;
    let hin = h[r].inputs;
    let f = formula(g, i, texts);
    match g[i].op {
        Op::Var(_) => {},
        Op::Const(_) => {
            let c = h[r].op->Const_0;
            assert(converts(conv, texts[i], Some(c)));
        },
        Op::Pow(_) => {
            let c = h[r].op->Pow_0;
            assert(converts(conv, texts[i], Some(c)));
            assert(ins[0] < i);
            assert(hin[0] < r);
            lemma_formula_term(g, ins[0] as int, texts, conv, h, hin[0] as int);
        },
        Op::Add | Op::Sub | Op::Mul | Op::Div => {
            assert(ins[0] < i && ins[1] < i);
            assert(hin.len() == 2);
            assert(hin[0] < r && hin[1] < r);
            assert(h[r].op == g[i].op);
            lemma_formula_term(g, ins[0] as int, texts, conv, h, hin[0] as int);
            lemma_formula_term(g, ins[1] as int, texts, conv, h, hin[1] as int);
        },
        Op::Neg => {
            assert(ins[0] < i);
            assert(hin.len() == 1);
            assert(hin[0] < r);
            lemma_formula_term(g, ins[0] as int, texts, conv, h, hin[0] as int);
        },
        _ => {
            assert("cos"@[0] != "sin"@[0]);
            assert("exp"@[0] != "sin"@[0] && "exp"@[0] != "cos"@[0]);
            assert("ln"@[0] != "sin"@[0] && "ln"@[0] != "cos"@[0] && "ln"@[0] != "exp"@[0]);
            assert(ins[0] < i);
            assert(hin.len() == 1);
            assert(hin[0] < r);
            assert(h[r].op == g[i].op);
            lemma_formula_term(g, ins[0] as int, texts, conv, h, hin[0] as int);
        },
    }
}

/// Compiling a printed formula gives back the node it was printed from: when
/// every payload's spelling converts back to that payload, source text that
/// lexes as the printed tokens compiles, and the compiled root computes the
/// same expression as the printed node.
proof fn lemma_recompile<F: Fn(&String) -> Option<u64>, S: Fn(&String) -> String>(
    g: Seq<NodeView>,
    i: int,
    texts: Seq<Seq<char>>,
    conv: F,
    spell: S,
    src: Seq<char>,
    r: Result<(Graph, usize), EngineError>,
)
    requires
        wf_nodes(g),
        0 <= i < g.len(),
        reads_back(g, texts, conv),
        lex_spec(src) == Ok::<Seq<Tok>, LexFail>(printed_toks(g, i, texts).push(Tok::Eof)),
        compiles(src, conv, spell, r),
    ensures
        r matches Ok((h, root)) && term(h@, root as int) == term(g, i),
{
    lemma_printed_parses(g, i, texts);
    lemma_formula_lowers(g, i, texts, conv);
    if let Ok((h, root)) = r {
        lemma_formula_term(g, i, texts, conv, h@, root as int);
    }
}

/// An operator or bracket character the printer writes.
pub open spec fn punct(c: char) -> bool {
    c == '(' || c == ')' || c == '+' || c == '-' || c == '*' || c == '/' || c == '^'
}

/// A letter of one of the function names `sin cos exp ln`.
pub open spec fn name_letter(c: char) -> bool {
    c == 's' || c == 'i' || c == 'n' || c == 'c' || c == 'o' || c == 'e' || c == 'x' || c == 'p' || c == 'l'
}

/// The classes of the characters the printer writes besides names and
/// literals: `' '` is white space and neither alphabetic nor numeric; the
/// operator and bracket characters are none of the three; the letters of the
/// function names are alphabetic and not white space; digits and `.` are
/// neither alphabetic nor white space.
pub open spec fn printer_chars_classified() -> bool {
    &&& white_space(' ') && !alphabetic(' ') && !numeric(' ')
    &&& forall|c: char| #[trigger] punct(c) ==> !white_space(c) && !alphabetic(c) && !numeric(c)
    &&& forall|c: char| #[trigger] name_letter(c) ==> alphabetic(c) && !white_space(c)
    &&& forall|c: char| #[trigger] number_char(c) ==> !alphabetic(c) && !white_space(c)
}

/// The printer's own characters are classified as above.
pub proof fn lemma_printer_chars_classified()
    ensures
        printer_chars_classified(),
{
}

/// A name that lexes as one identifier: a letter that is not white space,
/// then letters and digits.
pub open spec fn ident_name(name: Seq<char>) -> bool {
    &&& name.len() > 0
    &&& alphabetic(name[0]) && !white_space(name[0])
    &&& forall|k: int| 0 <= k < name.len() ==> alphanumeric(#[trigger] name[k])
}

/// A spelling that lexes as one number: digits and at most one point, with
/// at least one digit.
pub open spec fn number_text(s: Seq<char>) -> bool {
    &&& valid_number(s)
    &&& forall|k: int| 0 <= k < s.len() ==> number_char(#[trigger] s[k])
}

/// Every variable of `g` is named by an identifier and every payload is
/// spelled as a number.
pub open spec fn lexable(g: Seq<NodeView>, texts: Seq<Seq<char>>) -> bool {
    forall|j: int|
        0 <= j < g.len() ==> (match #[trigger] g[j].op {
            Op::Var(name) => ident_name(name),
            Op::Const(_) | Op::Pow(_) => number_text(texts[j]),
            _ => true,
        })
}

/// Lexing `s` from `p` yields exactly the tokens `toks` (none of them `Eof`)
/// and stops at `e`.
pub open spec fn lexes(s: Seq<char>, p: int, toks: Seq<Tok>, e: int) -> bool
    decreases toks.len(),
{
    if toks.len() == 0 {
        p == e
    } else {
        match next_tok(s, p) {
            Ok((t0, p1)) => t0 == toks[0] && !(t0 is Eof) && p < p1 && lexes(s, p1, toks.drop_first(), e),
            Err(_) => false,
        }
    }
}

proof fn lemma_lexes_end(s: Seq<char>, p: int, toks: Seq<Tok>, e: int)
    requires
        lexes(s, p, toks, e),
    ensures
        p <= e,
        toks.len() > 0 ==> p < e,
    decreases toks.len(),
{
    if toks.len() > 0 {
        if let Ok((_, p1)) = next_tok(s, p) {
            lemma_lexes_end(s, p1, toks.drop_first(), e);
        }
    }
}

/// Tokens lexed between `p` and `e` come first in the stream from `p`.
proof fn lemma_lexes_stream(s: Seq<char>, p: int, toks: Seq<Tok>, e: int)
    requires
        0 <= p,
        e <= s.len(),
        lexes(s, p, toks, e),
    ensures
        lex_from(s, p) == (match lex_from(s, e) {
            Ok(rest) => Ok::<Seq<Tok>, LexFail>(toks + rest),
            Err(f) => Err(f),
        }),
    decreases toks.len(),
{
    if toks.len() == 0 {
        assert(toks + Seq::<Tok>::empty() =~= Seq::<Tok>::empty());
        if let Ok(rest) = lex_from(s, e) {
            assert(toks + rest =~= rest);
        }
    } else {
        let p1 = next_tok(s, p)->Ok_0.1;
        lemma_lexes_end(s, p1, toks.drop_first(), e);
        lemma_lexes_stream(s, p1, toks.drop_first(), e);
        if let Ok(rest) = lex_from(s, e) {
            assert(seq![toks[0]] + (toks.drop_first() + rest) =~= toks + rest);
        }
    }
}

/// Lexed runs chain.
proof fn lemma_lexes_concat(s: Seq<char>, p: int, a: Seq<Tok>, m: int, b: Seq<Tok>, e: int)
    requires
        lexes(s, p, a, m),
        lexes(s, m, b, e),
    ensures
        lexes(s, p, a + b, e),
    decreases a.len(),
{
    if a.len() == 0 {
        assert(a + b =~= b);
    } else {
        let p1 = next_tok(s, p)->Ok_0.1;
        lemma_lexes_concat(s, p1, a.drop_first(), m, b, e);
        assert((a + b).drop_first() =~= a.drop_first() + b);
    }
}

/// White space before a token is skipped.
proof fn lemma_lexes_space(s: Seq<char>, p: int, toks: Seq<Tok>, e: int)
    requires
        0 <= p < s.len(),
        white_space(s[p]),
        toks.len() > 0,
        lexes(s, p + 1, toks, e),
    ensures
        lexes(s, p, toks, e),
{
    assert(skip_space(s, p) == skip_space(s, p + 1));
    assert(next_tok(s, p) == next_tok(s, p + 1));
}

/// `s` holds `a` followed by `b` from `p` on.
proof fn lemma_split_chars(s: Seq<char>, p: int, a: Seq<char>, b: Seq<char>)
    requires
        0 <= p,
        p + a.len() + b.len() <= s.len(),
        s.subrange(p, p + a.len() + b.len()) == a + b,
    ensures
        s.subrange(p, p + a.len()) == a,
        s.subrange(p + a.len(), p + a.len() + b.len()) == b,
{
    let ab = a + b;
    let sub = s.subrange(p, p + a.len() + b.len());
    assert forall|k: int| 0 <= k < a.len() implies s[p + k] == a[k] by {
        assert(sub[k] == s[p + k]);
        assert(ab[k] == a[k]);
    }
    assert forall|k: int| 0 <= k < b.len() implies s[p + a.len() + k] == b[k] by {
        assert(sub[a.len() + k] == s[p + a.len() + k]);
        assert(ab[a.len() + k] == b[k]);
    }
    assert(s.subrange(p, p + a.len()) =~= a);
    assert(s.subrange(p + a.len(), p + a.len() + b.len()) =~= b);
}

/// The character at `p` is the only one of `s.subrange(p, p + 1)`.
proof fn lemma_char_at(s: Seq<char>, p: int, c: char)
    requires
        0 <= p < s.len(),
        s.subrange(p, p + 1) == seq![c],
    ensures
        s[p] == c,
{
    assert(s.subrange(p, p + 1)[0] == s[p]);
}

/// The token a single operator or bracket character spells.
pub open spec fn punct_tok(c: char) -> Tok {
    if c == '(' {
        Tok::LParen
    } else if c == ')' {
        Tok::RParen
    } else if c == '+' {
        Tok::Plus
    } else if c == '-' {
        Tok::Minus
    } else if c == '*' {
        Tok::Star
    } else if c == '/' {
        Tok::Slash
    } else {
        Tok::Caret
    }
}

proof fn lemma_lex_punct(s: Seq<char>, p: int)
    requires
        printer_chars_classified(),
        0 <= p < s.len(),
        punct(s[p]),
    ensures
        lexes(s, p, seq![punct_tok(s[p])], p + 1),
{
    let c = s[p];
    assert(punct(c));
    assert(!white_space(c) && !alphabetic(c));
    assert(skip_space(s, p) == p);
    assert(!number_char(c));
    assert(next_tok(s, p) == Ok::<(Tok, int), (LexFail, int)>((punct_tok(c), p + 1)));
    assert(seq![punct_tok(c)].drop_first() =~= Seq::<Tok>::empty());
    assert(lexes(s, p + 1, Seq::<Tok>::empty(), p + 1));
}

proof fn lemma_ident_run(s: Seq<char>, p: int, name: Seq<char>, q: int)
    requires
        0 <= p <= q <= p + name.len(),
        p + name.len() <= s.len(),
        s.subrange(p, p + name.len()) == name,
        forall|k: int| 0 <= k < name.len() ==> alphanumeric(#[trigger] name[k]),
        p + name.len() == s.len() || !alphanumeric(s[p + name.len()]),
    ensures
        ident_end(s, q) == p + name.len(),
    decreases p + name.len() - q,
{
    if q < p + name.len() {
        assert(s[q] == name[q - p]) by {
            assert(s.subrange(p, p + name.len())[q - p] == s[q]);
        }
        lemma_ident_run(s, p, name, q + 1);
    }
}

proof fn lemma_number_run(s: Seq<char>, p: int, run: Seq<char>, q: int)
    requires
        0 <= p <= q <= p + run.len(),
        p + run.len() <= s.len(),
        s.subrange(p, p + run.len()) == run,
        forall|k: int| 0 <= k < run.len() ==> number_char(#[trigger] run[k]),
        p + run.len() == s.len() || !number_char(s[p + run.len()]),
    ensures
        number_end(s, q) == p + run.len(),
    decreases p + run.len() - q,
{
    if q < p + run.len() {
        assert(s[q] == run[q - p]) by {
            assert(s.subrange(p, p + run.len())[q - p] == s[q]);
        }
        lemma_number_run(s, p, run, q + 1);
    }
}

/// An identifier followed by a character that cannot continue it lexes as
/// one `Ident`.
proof fn lemma_lex_ident(s: Seq<char>, p: int, name: Seq<char>)
    requires
        0 <= p,
        p + name.len() <= s.len(),
        s.subrange(p, p + name.len()) == name,
        ident_name(name),
        p + name.len() == s.len() || !alphanumeric(s[p + name.len()]),
    ensures
        lexes(s, p, seq![Tok::Ident(name)], p + name.len()),
{
    assert(s[p] == name[0]) by {
        assert(s.subrange(p, p + name.len())[0] == s[p]);
    }
    assert(skip_space(s, p) == p);
    lemma_ident_run(s, p, name, p);
    assert(s.subrange(p, ident_end(s, p)) == name);
    assert(next_tok(s, p) == Ok::<(Tok, int), (LexFail, int)>((Tok::Ident(name), p + name.len())));
    assert(seq![Tok::Ident(name)].drop_first() =~= Seq::<Tok>::empty());
    assert(lexes(s, p + name.len(), Seq::<Tok>::empty(), p + name.len()));
}

/// A number spelling followed by a character that cannot continue it lexes
/// as one `Number`.
proof fn lemma_lex_number(s: Seq<char>, p: int, run: Seq<char>)
    requires
        printer_chars_classified(),
        0 <= p,
        p + run.len() <= s.len(),
        s.subrange(p, p + run.len()) == run,
        number_text(run),
        p + run.len() == s.len() || !number_char(s[p + run.len()]),
    ensures
        lexes(s, p, seq![Tok::Number(run)], p + run.len()),
{
    assert(run.len() > 0);
    assert(s[p] == run[0]) by {
        assert(s.subrange(p, p + run.len())[0] == s[p]);
    }
    assert(number_char(s[p]));
    assert(!alphabetic(s[p]) && !white_space(s[p]));
    assert(skip_space(s, p) == p);
    lemma_number_run(s, p, run, p);
    assert(s.subrange(p, number_end(s, p)) == run);
    assert(next_tok(s, p) == Ok::<(Tok, int), (LexFail, int)>((Tok::Number(run), p + run.len())));
    assert(seq![Tok::Number(run)].drop_first() =~= Seq::<Tok>::empty());
    assert(lexes(s, p + run.len(), Seq::<Tok>::empty(), p + run.len()));
}

/// What may follow a printed form in the printer's output: nothing, a space,
/// or a closing parenthesis.
pub open spec fn follows(s: Seq<char>, e: int) -> bool {
    e == s.len() || (0 <= e < s.len() && (s[e] == ' ' || s[e] == ')'))
}

proof fn lemma_follows_stops(s: Seq<char>, e: int)
    requires
        printer_chars_classified(),
        follows(s, e),
    ensures
        e == s.len() || (!alphanumeric(s[e]) && !number_char(s[e])),
{
    if e < s.len() && s[e] == ')' {
        assert(punct(s[e]));
    }
}

/// A printed operand, parenthesized or not, lexes as its tokens.
proof fn lemma_lex_group(g: Seq<NodeView>, texts: Seq<Seq<char>>, c: int, wrap: bool, s: Seq<char>, p: int)
    requires
        wf_nodes(g),
        0 <= c < g.len(),
        printer_chars_classified(),
        lexable(g, texts),
        0 <= p,
        p + (if wrap { paren(render(g, c, texts).0) } else { render(g, c, texts).0 }).len() <= s.len(),
        s.subrange(p, p + (if wrap { paren(render(g, c, texts).0) } else { render(g, c, texts).0 }).len())
            == (if wrap { paren(render(g, c, texts).0) } else { render(g, c, texts).0 }),
        follows(s, p + (if wrap { paren(render(g, c, texts).0) } else { render(g, c, texts).0 }).len()),
    ensures
        lexes(
            s,
            p,
            group(printed_toks(g, c, texts), wrap),
            p + (if wrap { paren(render(g, c, texts).0) } else { render(g, c, texts).0 }).len(),
        ),
    decreases c, 3int,
{
    let rc = render(g, c, texts).0;
    if wrap {
        reveal_strlit("(");
        reveal_strlit(")");
        let open = "("@;
        let close = ")"@;
        assert(open =~= seq!['(']);
        assert(close =~= seq![')']);
        lemma_split_chars(s, p, open + rc, close);
        lemma_split_chars(s, p, open, rc);
        let q = p + 1 + rc.len();
        lemma_char_at(s, p, '(');
        lemma_char_at(s, q, ')');
        assert(punct(s[p]) && punct(s[q]));
        lemma_lex_punct(s, p);
        lemma_lex_render(g, texts, c, s, p + 1);
        lemma_lex_punct(s, q);
        let tc = printed_toks(g, c, texts);
        lemma_lexes_concat(s, p, seq![Tok::LParen], p + 1, tc, q);
        lemma_lexes_concat(s, p, seq![Tok::LParen] + tc, q, seq![Tok::RParen], q + 1);
    } else {
        lemma_lex_render(g, texts, c, s, p);
    }
}

/// The binary case of [`lemma_lex_render`].
proof fn lemma_lex_binary(g: Seq<NodeView>, texts: Seq<Seq<char>>, i: int, s: Seq<char>, p: int)
    requires
        wf_nodes(g),
        0 <= i < g.len(),
        printer_chars_classified(),
        lexable(g, texts),
        0 <= p,
        p + render(g, i, texts).0.len() <= s.len(),
        s.subrange(p, p + render(g, i, texts).0.len()) == render(g, i, texts).0,
        follows(s, p + render(g, i, texts).0.len()),
        g[i].op is Add || g[i].op is Sub || g[i].op is Mul || g[i].op is Div,
    ensures
        lexes(s, p, printed_toks(g, i, texts), p + render(g, i, texts).0.len()),
    decreases i, 1int,
{
    reveal_strlit(" + ");
    reveal_strlit(" - ");
    reveal_strlit(" * ");
    reveal_strlit(" / ");
    let ri = render(g, i, texts).0;
    let e = p + ri.len();
    assert(node_ok(g, i));
    let ins = g[i].inputs;
    let a = ins[0] as int;
    let b = ins[1] as int;
    assert(a < i && b < i);
    let (opc, pr) = match g[i].op {
        Op::Add => ('+', P_ADD),
        Op::Sub => ('-', P_ADD),
        Op::Mul => ('*', P_MUL),
        _ => ('/', P_MUL),
    };
    let ops = seq![' ', opc, ' '];
    let ra = render(g, a, texts);
    let rb = render(g, b, texts);
    let wl = ra.1 < pr;
    let wr = rb.1 <= pr;
    let lw = if wl { paren(ra.0) } else { ra.0 };
    let rw = if wr { paren(rb.0) } else { rb.0 };
    assert(ri =~= lw + ops + rw);
    lemma_split_chars(s, p, lw + ops, rw);
    lemma_split_chars(s, p, lw, ops);
    let m = p + lw.len();
    assert(s[m] == ' ' && s[m + 1] == opc && s[m + 2] == ' ') by {
        assert(s.subrange(m, m + 3)[0] == s[m]);
        assert(s.subrange(m, m + 3)[1] == s[m + 1]);
        assert(s.subrange(m, m + 3)[2] == s[m + 2]);
    }
    assert(punct(s[m + 1]));
    lemma_lex_group(g, texts, a, wl, s, p);
    lemma_lex_punct(s, m + 1);
    lemma_lexes_space(s, m, seq![punct_tok(opc)], m + 2);
    lemma_edge_floor(g, b, texts);
    lemma_lex_group(g, texts, b, wr, s, m + 3);
    lemma_lexes_space(s, m + 2, group(printed_toks(g, b, texts), wr), e);
    let tl = group(printed_toks(g, a, texts), wl);
    let tr = group(printed_toks(g, b, texts), wr);
    lemma_lexes_concat(s, p, tl, m, seq![punct_tok(opc)], m + 2);
    lemma_lexes_concat(s, p, tl + seq![punct_tok(opc)], m + 2, tr, e);
}

/// The negation case of [`lemma_lex_render`].
proof fn lemma_lex_neg(g: Seq<NodeView>, texts: Seq<Seq<char>>, i: int, s: Seq<char>, p: int)
    requires
        wf_nodes(g),
        0 <= i < g.len(),
        printer_chars_classified(),
        lexable(g, texts),
        0 <= p,
        p + render(g, i, texts).0.len() <= s.len(),
        s.subrange(p, p + render(g, i, texts).0.len()) == render(g, i, texts).0,
        follows(s, p + render(g, i, texts).0.len()),
        g[i].op is Neg,
    ensures
        lexes(s, p, printed_toks(g, i, texts), p + render(g, i, texts).0.len()),
    decreases i, 1int,
{
    reveal_strlit("-");
    let ri = render(g, i, texts).0;
    let e = p + ri.len();
    assert(node_ok(g, i));
    let a = g[i].inputs[0] as int;
    assert(a < i);
    let ra = render(g, a, texts);
    let w = ra.1 < P_NEG;
    let cw = if w { paren(ra.0) } else { ra.0 };
    assert(ri =~= seq!['-'] + cw);
    lemma_split_chars(s, p, seq!['-'], cw);
    lemma_char_at(s, p, '-');
    assert(punct(s[p]));
    lemma_lex_punct(s, p);
    lemma_lex_group(g, texts, a, w, s, p + 1);
    lemma_lexes_concat(s, p, seq![Tok::Minus], p + 1, group(printed_toks(g, a, texts), w), e);
}

/// The power case of [`lemma_lex_render`].
proof fn lemma_lex_pow(g: Seq<NodeView>, texts: Seq<Seq<char>>, i: int, s: Seq<char>, p: int)
    requires
        wf_nodes(g),
        0 <= i < g.len(),
        printer_chars_classified(),
        lexable(g, texts),
        0 <= p,
        p + render(g, i, texts).0.len() <= s.len(),
        s.subrange(p, p + render(g, i, texts).0.len()) == render(g, i, texts).0,
        follows(s, p + render(g, i, texts).0.len()),
        g[i].op is Pow,
    ensures
        lexes(s, p, printed_toks(g, i, texts), p + render(g, i, texts).0.len()),
    decreases i, 1int,
{
    reveal_strlit(" ^ ");
    let ri = render(g, i, texts).0;
    let e = p + ri.len();
    assert(node_ok(g, i));
    assert(number_text(texts[i])) by {
        assert(match g[i].op {
            Op::Var(name) => ident_name(name),
            Op::Const(_) | Op::Pow(_) => number_text(texts[i]),
            _ => true,
        });
    }
    lemma_follows_stops(s, e);
    let a = g[i].inputs[0] as int;
    assert(a < i);
    let ra = render(g, a, texts);
    let w = ra.1 <= P_POW;
    let bw = if w { paren(ra.0) } else { ra.0 };
    let ops = seq![' ', '^', ' '];
    let k = texts[i];
    assert(ri =~= bw + ops + k);
    lemma_split_chars(s, p, bw + ops, k);
    lemma_split_chars(s, p, bw, ops);
    let m = p + bw.len();
    assert(s[m] == ' ' && s[m + 1] == '^' && s[m + 2] == ' ') by {
        assert(s.subrange(m, m + 3)[0] == s[m]);
        assert(s.subrange(m, m + 3)[1] == s[m + 1]);
        assert(s.subrange(m, m + 3)[2] == s[m + 2]);
    }
    assert(punct(s[m + 1]));
    lemma_lex_group(g, texts, a, w, s, p);
    lemma_lex_punct(s, m + 1);
    lemma_lexes_space(s, m, seq![Tok::Caret], m + 2);
    lemma_lex_number(s, m + 3, k);
    lemma_lexes_space(s, m + 2, seq![Tok::Number(k)], e);
    let tb = group(printed_toks(g, a, texts), w);
    lemma_lexes_concat(s, p, tb, m, seq![Tok::Caret], m + 2);
    lemma_lexes_concat(s, p, tb + seq![Tok::Caret], m + 2, seq![Tok::Number(k)], e);
    assert(tb + seq![Tok::Caret] + seq![Tok::Number(k)] =~= tb + seq![Tok::Caret, Tok::Number(k)]);
}

/// The function-call case of [`lemma_lex_render`].
proof fn lemma_lex_call(g: Seq<NodeView>, texts: Seq<Seq<char>>, i: int, s: Seq<char>, p: int)
    requires
        wf_nodes(g),
        0 <= i < g.len(),
        printer_chars_classified(),
        lexable(g, texts),
        0 <= p,
        p + render(g, i, texts).0.len() <= s.len(),
        s.subrange(p, p + render(g, i, texts).0.len()) == render(g, i, texts).0,
        follows(s, p + render(g, i, texts).0.len()),
        g[i].op is Sin || g[i].op is Cos || g[i].op is Exp || g[i].op is Ln,
    ensures
        lexes(s, p, printed_toks(g, i, texts), p + render(g, i, texts).0.len()),
    decreases i, 1int,
{
    reveal_strlit("sin");
    reveal_strlit("cos");
    reveal_strlit("exp");
    reveal_strlit("ln");
    reveal_strlit("(");
    let ri = render(g, i, texts).0;
    let e = p + ri.len();
    assert(node_ok(g, i));
    let a = g[i].inputs[0] as int;
    assert(a < i);
    let f = match g[i].op {
        Op::Sin => "sin"@,
        Op::Cos => "cos"@,
        Op::Exp => "exp"@,
        _ => "ln"@,
    };
    let ra = render(g, a, texts);
    assert(ri == f + paren(ra.0));
    lemma_split_chars(s, p, f, paren(ra.0));
    assert forall|k: int| 0 <= k < f.len() implies alphanumeric(#[trigger] f[k]) by {
        assert(name_letter(f[k]));
    }
    assert(name_letter(f[0]));
    let q = p + f.len();
    assert(s[q] == '(') by {
        assert(paren(ra.0)[0] == '(');
        assert(s.subrange(q, e)[0] == s[q]);
    }
    assert(punct(s[q]));
    lemma_lex_ident(s, p, f);
    lemma_lex_group(g, texts, a, true, s, q);
    lemma_lexes_concat(s, p, seq![Tok::Ident(f)], q, parens(printed_toks(g, a, texts)), e);
    assert(seq![Tok::Ident(f)] + parens(printed_toks(g, a, texts)) =~= seq![Tok::Ident(f), Tok::LParen]
        + printed_toks(g, a, texts) + seq![Tok::RParen]);
}

/// A printed node, followed by what the printer may put after it, lexes as
/// its printed tokens.
proof fn lemma_lex_render(g: Seq<NodeView>, texts: Seq<Seq<char>>, i: int, s: Seq<char>, p: int)
    requires
        wf_nodes(g),
        0 <= i < g.len(),
        printer_chars_classified(),
        lexable(g, texts),
        0 <= p,
        p + render(g, i, texts).0.len() <= s.len(),
        s.subrange(p, p + render(g, i, texts).0.len()) == render(g, i, texts).0,
        follows(s, p + render(g, i, texts).0.len()),
    ensures
        lexes(s, p, printed_toks(g, i, texts), p + render(g, i, texts).0.len()),
    decreases i, 2int,
{
    let e = p + render(g, i, texts).0.len();
    lemma_follows_stops(s, e);
    assert(match g[i].op {
        Op::Var(name) => ident_name(name),
        Op::Const(_) | Op::Pow(_) => number_text(texts[i]),
        _ => true,
    });
    match g[i].op {
        Op::Var(name) => {
            lemma_lex_ident(s, p, name);
        },
        Op::Const(_) => {
            lemma_lex_number(s, p, texts[i]);
        },
        Op::Add | Op::Sub | Op::Mul | Op::Div => {
            lemma_lex_binary(g, texts, i, s, p);
        },
        Op::Neg => {
            lemma_lex_neg(g, texts, i, s, p);
        },
        Op::Pow(_) => {
            lemma_lex_pow(g, texts, i, s, p);
        },
        _ => {
            lemma_lex_call(g, texts, i, s, p);
        },
    }
}

/// Printing a node and compiling the text gives back the node: when the
/// graph's variables are named by identifiers and its payloads are spelled as
/// decimal numbers that convert back to exactly those payloads, compiling the
/// printed formula succeeds, and the compiled root computes the same
/// expression as the printed node, with the same grouping.
pub proof fn lemma_print_then_compile<F: Fn(&String) -> Option<u64>, S: Fn(&String) -> String>(
    g: Seq<NodeView>,
    i: int,
    texts: Seq<Seq<char>>,
    conv: F,
    spell: S,
    r: Result<(Graph, usize), EngineError>,
)
    requires
        wf_nodes(g),
        0 <= i < g.len(),
        lexable(g, texts),
        reads_back(g, texts, conv),
        compiles(render(g, i, texts).0, conv, spell, r),
    ensures
        r matches Ok((h, root)) && term(h@, root as int) == term(g, i),
{
    lemma_printer_chars_classified();
    let s = render(g, i, texts).0;
    let tt = printed_toks(g, i, texts);
    assert(s.subrange(0, s.len() as int) =~= s);
    lemma_lex_render(g, texts, i, s, 0);
    lemma_lexes_stream(s, 0, tt, s.len() as int);
    assert(skip_space(s, s.len() as int) == s.len());
    assert(lex_from(s, s.len() as int) == Ok::<Seq<Tok>, LexFail>(seq![Tok::Eof]));
    assert(tt + seq![Tok::Eof] =~= tt.push(Tok::Eof));
    lemma_recompile(g, i, texts, conv, spell, s, r);
}

} // verus!
