//! The expression AST produced by the parser.
//!
//! [`Expr`] is a recursive tree whose `Unary`/`Binary`/`Call` variants own their
//! children through `Box`. A tree owns its subtrees outright; the compute graph
//! shares subexpressions and uses the arena instead.

use vstd::prelude::*;
use crate::parse::lexer::{spells, tok_shown, tok_text, Token, Tok};
use crate::parse::text::{debug_str, debug_string, text};

verus! {

#[derive(Debug, PartialEq)]
pub enum Expr {
    /// A numeric literal, as written.
    Num(String),
    Var(String),
    Unary { op: Token, child: Box<Expr> },
    Binary { op: Token, left: Box<Expr>, right: Box<Expr> },
    Call { fn_name: String, arg: Box<Expr> },
}

/// The model of an [`Expr`].
pub enum SExpr {
    Num(Seq<char>),
    Var(Seq<char>),
    Unary(Tok, Box<SExpr>),
    Binary(Tok, Box<SExpr>, Box<SExpr>),
    Call(Seq<char>, Box<SExpr>),
}

pub open spec fn model(e: Expr) -> SExpr
    decreases e,
{
    match e {
        Expr::Num(s) => SExpr::Num(s@),
        Expr::Var(s) => SExpr::Var(s@),
        Expr::Unary { op, child } => SExpr::Unary(op@, Box::new(model(*child))),
        Expr::Binary { op, left, right } => SExpr::Binary(
            op@,
            Box::new(model(*left)),
            Box::new(model(*right)),
        ),
        Expr::Call { fn_name, arg } => SExpr::Call(fn_name@, Box::new(model(*arg))),
    }
}

impl View for Expr {
    type V = SExpr;

    open spec fn view(&self) -> SExpr {
        model(*self)
    }
}

/// The literal texts of a token: a number token's own.
pub open spec fn tok_lits(t: Tok) -> Seq<Seq<char>> {
    match t {
        Tok::Number(s) => seq![s],
        _ => Seq::empty(),
    }
}

/// The texts of the number literals in `e`, in the order an error message
/// shows them (a number token standing as an operator counts too).
pub open spec fn lits(e: SExpr) -> Seq<Seq<char>>
    decreases e,
{
    match e {
        SExpr::Num(s) => seq![s],
        SExpr::Var(_) => Seq::empty(),
        SExpr::Unary(op, child) => tok_lits(op) + lits(*child),
        SExpr::Binary(op, left, right) => tok_lits(op) + lits(*left) + lits(*right),
        SExpr::Call(_, arg) => lits(*arg),
    }
}

/// `sp` holds spellings `spell` may give of the values of the literals `ls`.
pub open spec fn spells_all<S: Fn(&String) -> String>(spell: S, ls: Seq<Seq<char>>, sp: Seq<Seq<char>>) -> bool {
    sp.len() == ls.len() && forall|i: int| 0 <= i < ls.len() ==> #[trigger] spells(spell, ls[i], sp[i])
}

/// How a token reads, its number literal (if it is one) spelled `sp[0]`.
pub open spec fn tok_text_with(t: Tok, sp: Seq<Seq<char>>) -> Seq<char> {
    match t {
        Tok::Number(_) => "Number("@ + sp[0] + ")"@,
        _ => tok_text(t),
    }
}

/// Rust's `Debug` form of the tree `e`, e.g.
/// `Binary { op: Plus, left: Var("x"), right: Num(1.0) }`, its literals
/// spelled by `sp` in order.
pub open spec fn expr_text(e: SExpr, sp: Seq<Seq<char>>) -> Seq<char>
    decreases e,
{
    match e {
        SExpr::Num(_) => "Num("@ + sp[0] + ")"@,
        SExpr::Var(name) => "Var("@ + debug_str(name) + ")"@,
        SExpr::Unary(op, child) => {
            let k = tok_lits(op).len() as int;
            "Unary { op: "@ + tok_text_with(op, sp.take(k)) + ", child: "@ + expr_text(*child, sp.skip(k))
                + " }"@
        },
        SExpr::Binary(op, left, right) => {
            let k = tok_lits(op).len() as int;
            let m = lits(*left).len() as int;
            "Binary { op: "@ + tok_text_with(op, sp.take(k)) + ", left: "@ + expr_text(*left, sp.subrange(k, k + m))
                + ", right: "@ + expr_text(*right, sp.skip(k + m)) + " }"@
        },
        SExpr::Call(name, arg) => "Call { fn_name: "@ + debug_str(name) + ", arg: "@ + expr_text(*arg, sp) + " }"@,
    }
}

/// `r` is how the expression `e` reads in an error message: Rust's `Debug`
/// form of the tree, each literal by a spelling `spell` may give of its value.
pub open spec fn expr_shown<S: Fn(&String) -> String>(spell: S, e: SExpr, r: Seq<char>) -> bool {
    exists|sp: Seq<Seq<char>>| #[trigger] spells_all(spell, lits(e), sp) && r == expr_text(e, sp)
}

/// A token shown in a message is its text with its own literal spelled.
proof fn lemma_tok_spelled<S: Fn(&String) -> String>(spell: S, t: Tok, a: Seq<char>) -> (sp: Seq<Seq<char>>)
    requires
        tok_shown(spell, t, a),
    ensures
        spells_all(spell, tok_lits(t), sp),
        a == tok_text_with(t, sp),
{
    match t {
        Tok::Number(s) => {
            let d = choose|d: Seq<char>| #[trigger] spells(spell, s, d) && a == "Number("@ + d + ")"@;
            let sp = seq![d];
            assert(spells(spell, tok_lits(t)[0], sp[0]));
            sp
        },
        _ => Seq::empty(),
    }
}

proof fn lemma_shown_unary<S: Fn(&String) -> String>(spell: S, op: Tok, child: SExpr, a: Seq<char>, c: Seq<char>)
    requires
        tok_shown(spell, op, a),
        expr_shown(spell, child, c),
    ensures
        expr_shown(spell, SExpr::Unary(op, Box::new(child)), "Unary { op: "@ + a + ", child: "@ + c + " }"@),
{
    let so = lemma_tok_spelled(spell, op, a);
    let sc = choose|sp: Seq<Seq<char>>| #[trigger] spells_all(spell, lits(child), sp) && c == expr_text(child, sp);
    let e = SExpr::Unary(op, Box::new(child));
    let sp = so + sc;
    let k = tok_lits(op).len() as int;
    assert(sp.take(k) =~= so);
    assert(sp.skip(k) =~= sc);
    assert(lits(e) =~= tok_lits(op) + lits(child));
    assert forall|i: int| 0 <= i < lits(e).len() implies #[trigger] spells(spell, lits(e)[i], sp[i]) by {
        if i < k {
            assert(spells(spell, tok_lits(op)[i], so[i]));
        } else {
            assert(spells(spell, lits(child)[i - k], sc[i - k]));
        }
    }
    assert(spells_all(spell, lits(e), sp));
}

proof fn lemma_shown_binary<S: Fn(&String) -> String>(
    spell: S,
    op: Tok,
    left: SExpr,
    right: SExpr,
    a: Seq<char>,
    x: Seq<char>,
    y: Seq<char>,
)
    requires
        tok_shown(spell, op, a),
        expr_shown(spell, left, x),
        expr_shown(spell, right, y),
    ensures
        expr_shown(
            spell,
            SExpr::Binary(op, Box::new(left), Box::new(right)),
            "Binary { op: "@ + a + ", left: "@ + x + ", right: "@ + y + " }"@,
        ),
{
    let so = lemma_tok_spelled(spell, op, a);
    let sl = choose|sp: Seq<Seq<char>>| #[trigger] spells_all(spell, lits(left), sp) && x == expr_text(left, sp);
    let sr = choose|sp: Seq<Seq<char>>| #[trigger] spells_all(spell, lits(right), sp) && y == expr_text(right, sp);
    let e = SExpr::Binary(op, Box::new(left), Box::new(right));
    let sp = so + sl + sr;
    let k = tok_lits(op).len() as int;
    let m = lits(left).len() as int;
    assert(sp.take(k) =~= so);
    assert(sp.subrange(k, k + m) =~= sl);
    assert(sp.skip(k + m) =~= sr);
    assert(lits(e) =~= tok_lits(op) + lits(left) + lits(right));
    assert forall|i: int| 0 <= i < lits(e).len() implies #[trigger] spells(spell, lits(e)[i], sp[i]) by {
        if i < k {
            assert(spells(spell, tok_lits(op)[i], so[i]));
        } else if i < k + m {
            assert(spells(spell, lits(left)[i - k], sl[i - k]));
        } else {
            assert(spells(spell, lits(right)[i - k - m], sr[i - k - m]));
        }
    }
    assert(spells_all(spell, lits(e), sp));
}

proof fn lemma_shown_call<S: Fn(&String) -> String>(spell: S, name: Seq<char>, arg: SExpr, c: Seq<char>)
    requires
        expr_shown(spell, arg, c),
    ensures
        expr_shown(
            spell,
            SExpr::Call(name, Box::new(arg)),
            "Call { fn_name: "@ + debug_str(name) + ", arg: "@ + c + " }"@,
        ),
{
    let sc = choose|sp: Seq<Seq<char>>| #[trigger] spells_all(spell, lits(arg), sp) && c == expr_text(arg, sp);
    let e = SExpr::Call(name, Box::new(arg));
    assert(lits(e) == lits(arg));
    assert(spells_all(spell, lits(e), sc));
}

impl Expr {
    /// How the expression reads in an error message (see [`expr_shown`]).
    pub fn describe<S: Fn(&String) -> String>(&self, spell: &S) -> (r: String)
        requires
            forall|x: &String| spell.requires((x,)),
        ensures
            expr_shown(*spell, self@, r@),
        decreases self,
    {
        match self {
            Expr::Num(s) => {
                let d = spell(s);
                let mut r = text("Num(");
                r.append(d.as_str());
                r.append(")");
                proof {
                    assert(call_ensures(*spell, (s,), d));
                    reveal_strlit(")");
                    let sp = seq![d@];
                    assert(spells(*spell, lits(self@)[0], sp[0]));
                    assert(spells_all(*spell, lits(self@), sp));
                    assert(r@ =~= expr_text(self@, sp));
                }
                r
            },
            Expr::Var(name) => {
                let mut r = text("Var(");
                r.append(debug_string(name).as_str());
                r.append(")");
                proof {
                    reveal_strlit(")");
                    let sp = Seq::<Seq<char>>::empty();
                    assert(spells_all(*spell, lits(self@), sp));
                    assert(r@ =~= expr_text(self@, sp));
                }
                r
            },
            Expr::Unary { op, child } => {
                let a = op.describe(spell);
                let c = child.describe(spell);
                let mut r = text("Unary { op: ");
                r.append(a.as_str());
                r.append(", child: ");
                r.append(c.as_str());
                r.append(" }");
                proof {
                    lemma_shown_unary(*spell, op@, child@, a@, c@);
                    assert(r@ =~= "Unary { op: "@ + a@ + ", child: "@ + c@ + " }"@);
                }
                r
            },
            Expr::Binary { op, left, right } => {
                let a = op.describe(spell);
                let x = left.describe(spell);
                let y = right.describe(spell);
                let mut r = text("Binary { op: ");
                r.append(a.as_str());
                r.append(", left: ");
                r.append(x.as_str());
                r.append(", right: ");
                r.append(y.as_str());
                r.append(" }");
                proof {
                    lemma_shown_binary(*spell, op@, left@, right@, a@, x@, y@);
                    assert(r@ =~= "Binary { op: "@ + a@ + ", left: "@ + x@ + ", right: "@ + y@ + " }"@);
                }
                r
            },
            Expr::Call { fn_name, arg } => {
                let c = arg.describe(spell);
                let mut r = text("Call { fn_name: ");
                r.append(debug_string(fn_name).as_str());
                r.append(", arg: ");
                r.append(c.as_str());
                r.append(" }");
                proof {
                    lemma_shown_call(*spell, fn_name@, arg@, c@);
                    assert(r@ =~= "Call { fn_name: "@ + debug_str(fn_name@) + ", arg: "@ + c@ + " }"@);
                }
                r
            },
        }
    }
}

} // verus!
