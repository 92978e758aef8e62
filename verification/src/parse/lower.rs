//! Lowering the AST into the arena graph with hash-consing.
//!
//! Identical subexpressions become a single shared node: before creating a
//! node we look up its structural key `(op, inputs)` in a memo table. Because
//! inputs are indices of already-deduplicated nodes, structural equality of two
//! subexpressions reduces to equality of their keys. Lowering into a fresh
//! graph therefore yields a graph in which no two nodes are alike, whose root
//! is its last node, and in which every other node is an input of a later one.
//!
//! A numeric literal's value is taken by the caller-supplied `conv`, which maps
//! the literal's text to the bit pattern of its `f64`, or to `None` when the
//! text is not a number.

use vstd::prelude::*;
use crate::error::EngineError;
use crate::graph::arena::Graph;
use crate::graph::key::NodeKey;
use crate::graph::node::{Node, NodeView, Op, OpType, arity};
use crate::graph::topo::{feeds, node_ok, used, used_from, wf_nodes};
use crate::parse::ast::{expr_shown, Expr, SExpr};
use crate::parse::lexer::{tok_shown, Tok, Token};
use crate::parse::text::text;

verus! {

/// `conv` may map a literal with text `s` to `r`.
pub open spec fn converts<F: Fn(&String) -> Option<u64>>(conv: F, s: Seq<char>, r: Option<u64>) -> bool {
    exists|x: String| x@ == s && #[trigger] call_ensures(conv, (&x,), r)
}

/// `f` answers each text one way, whichever `String` spells it.
pub open spec fn reads_alike<F: Fn(&String) -> Option<u64>>(f: F) -> bool {
    forall|x1: &String, x2: &String, r1: Option<u64>, r2: Option<u64>|
        #![trigger call_ensures(f, (x1,), r1), call_ensures(f, (x2,), r2)]
        x1@ == x2@ && call_ensures(f, (x1,), r1) && call_ensures(f, (x2,), r2) ==> r1 == r2
}

/// The graph op of an infix operator other than `^`.
pub open spec fn binop_of(t: Tok) -> Option<Op> {
    match t {
        Tok::Plus => Some(Op::Add),
        Tok::Minus => Some(Op::Sub),
        Tok::Star => Some(Op::Mul),
        Tok::Slash => Some(Op::Div),
        _ => None,
    }
}

/// The graph op of a known function name.
pub open spec fn func_of(name: Seq<char>) -> Option<Op> {
    if name == "sin"@ {
        Some(Op::Sin)
    } else if name == "cos"@ {
        Some(Op::Cos)
    } else if name == "ln"@ {
        Some(Op::Ln)
    } else if name == "exp"@ {
        Some(Op::Exp)
    } else {
        None
    }
}

/// Node `i` of `g` computes the expression `e`, with every literal's value
/// one that `conv` may give for its text.
pub open spec fn denotes<F: Fn(&String) -> Option<u64>>(g: Seq<NodeView>, i: int, e: SExpr, conv: F) -> bool
    decreases e,
{
    0 <= i < g.len() && match e {
        SExpr::Num(s) => g[i].inputs.len() == 0 && (g[i].op matches Op::Const(c) && converts(
            conv,
            s,
            Some(c),
        )),
        SExpr::Var(name) => g[i].inputs.len() == 0 && g[i].op == Op::Var(name),
        SExpr::Binary(op, left, right) => {
            if op is Caret {
                match *right {
                    SExpr::Num(k) => g[i].inputs.len() == 1 && (g[i].op matches Op::Pow(c)
                        && converts(conv, k, Some(c))) && denotes(
                        g,
                        g[i].inputs[0] as int,
                        *left,
                        conv,
                    ),
                    _ => false,
                }
            } else {
                binop_of(op) == Some(g[i].op) && g[i].inputs.len() == 2 && denotes(
                    g,
                    g[i].inputs[0] as int,
                    *left,
                    conv,
                ) && denotes(g, g[i].inputs[1] as int, *right, conv)
            }
        },
        SExpr::Unary(op, child) => op is Minus && g[i].op == Op::Neg && g[i].inputs.len() == 1
            && denotes(g, g[i].inputs[0] as int, *child, conv),
        SExpr::Call(name, arg) => func_of(name) == Some(g[i].op) && g[i].inputs.len() == 1
            && denotes(g, g[i].inputs[0] as int, *arg, conv),
    }
}

/// Every operator of `e` has a graph counterpart: `+ - * /`, `^` with a
/// literal exponent, prefix `-`, and the functions `sin cos ln exp`.
pub open spec fn shape_ok(e: SExpr) -> bool
    decreases e,
{
    match e {
        SExpr::Num(_) | SExpr::Var(_) => true,
        SExpr::Binary(op, left, right) => {
            if op is Caret {
                (*right) is Num && shape_ok(*left)
            } else {
                binop_of(op) is Some && shape_ok(*left) && shape_ok(*right)
            }
        },
        SExpr::Unary(op, child) => op is Minus && shape_ok(*child),
        SExpr::Call(name, arg) => func_of(name) is Some && shape_ok(*arg),
    }
}

/// `conv` gives a value for every literal of `e`.
pub open spec fn literals_convert<F: Fn(&String) -> Option<u64>>(e: SExpr, conv: F) -> bool
    decreases e,
{
    match e {
        SExpr::Num(s) => forall|r: Option<u64>| converts(conv, s, r) ==> r is Some,
        SExpr::Var(_) => true,
        SExpr::Binary(_, left, right) => literals_convert(*left, conv) && literals_convert(
            *right,
            conv,
        ),
        SExpr::Unary(_, child) => literals_convert(*child, conv),
        SExpr::Call(_, arg) => literals_convert(*arg, conv),
    }
}

/// Lowering `e` may succeed: every operator has a graph counterpart and
/// `conv` may give a value for every literal.
pub open spec fn may_lower<F: Fn(&String) -> Option<u64>>(e: SExpr, conv: F) -> bool
    decreases e,
{
    match e {
        SExpr::Num(s) => exists|c: u64| converts(conv, s, Some(c)),
        SExpr::Var(_) => true,
        SExpr::Binary(op, left, right) => {
            if op is Caret {
                may_lower(*left, conv) && match *right {
                    SExpr::Num(k) => exists|c: u64| converts(conv, k, Some(c)),
                    _ => false,
                }
            } else {
                may_lower(*left, conv) && may_lower(*right, conv) && binop_of(op) is Some
            }
        },
        SExpr::Unary(op, child) => may_lower(*child, conv) && op is Minus,
        SExpr::Call(name, arg) => may_lower(*arg, conv) && func_of(name) is Some,
    }
}

/// `err` reports an unsupported construct: `expected` names what was wanted,
/// `found` what was there.
pub open spec fn unsupported(err: EngineError, expected: Seq<char>, found: Seq<char>) -> bool {
    err matches EngineError::UnexpectedToken { expected: x, found: y } && x@ == expected && y@ == found
}

/// `err` reports the token `t` where `expected` was wanted, shown as in an
/// error message.
pub open spec fn unsupported_tok<S: Fn(&String) -> String>(err: EngineError, expected: Seq<char>, spell: S, t: Tok) -> bool {
    err matches EngineError::UnexpectedToken { expected: x, found: y } && x@ == expected && tok_shown(spell, t, y@)
}

/// `err` reports the subtree `e` where `expected` was wanted, shown as in an
/// error message.
pub open spec fn unsupported_expr<S: Fn(&String) -> String>(err: EngineError, expected: Seq<char>, spell: S, e: SExpr) -> bool {
    err matches EngineError::UnexpectedToken { expected: x, found: y } && x@ == expected && expr_shown(spell, e, y@)
}

/// `err` is an error lowering `e` may stop with: the first failure met in
/// lowering order, which lowers an operator's operands left to right before
/// checking the operator itself, and takes a `^` exponent only as a literal.
pub open spec fn lower_error<F: Fn(&String) -> Option<u64>, S: Fn(&String) -> String>(e: SExpr, conv: F, spell: S, err: EngineError) -> bool
    decreases e,
{
    match e {
        SExpr::Num(s) => converts(conv, s, None) && (err matches EngineError::InvalidNumber(x) && x@ == s),
        SExpr::Var(_) => false,
        SExpr::Binary(op, left, right) => {
            if op is Caret {
                lower_error(*left, conv, spell, err) || (may_lower(*left, conv) && match *right {
                    SExpr::Num(k) => converts(conv, k, None) && (err matches EngineError::InvalidNumber(x)
                        && x@ == k),
                    _ => unsupported_expr(err, "a numeric literal exponent"@, spell, *right),
                })
            } else {
                ||| lower_error(*left, conv, spell, err)
                ||| may_lower(*left, conv) && lower_error(*right, conv, spell, err)
                ||| may_lower(*left, conv) && may_lower(*right, conv) && binop_of(op) is None
                    && unsupported_tok(err, "a binary operator"@, spell, op)
            }
        },
        SExpr::Unary(op, child) => {
            ||| lower_error(*child, conv, spell, err)
            ||| may_lower(*child, conv) && !(op is Minus) && unsupported_tok(err, "a unary operator"@, spell, op)
        },
        SExpr::Call(name, arg) => {
            ||| lower_error(*arg, conv, spell, err)
            ||| may_lower(*arg, conv) && func_of(name) is None && unsupported(err, "a known function name"@, name)
        },
    }
}

/// What a node denotes lowers.
pub proof fn lemma_denotes_may_lower<F: Fn(&String) -> Option<u64>>(g: Seq<NodeView>, i: int, e: SExpr, conv: F)
    requires
        denotes(g, i, e, conv),
    ensures
        may_lower(e, conv),
    decreases e,
{
    match e {
        SExpr::Num(s) => {
            let c = g[i].op->Const_0;
            assert(converts(conv, s, Some(c)));
        },
        SExpr::Binary(op, left, right) => {
            lemma_denotes_may_lower(g, g[i].inputs[0] as int, *left, conv);
            if op is Caret {
                let c = g[i].op->Pow_0;
                assert(converts(conv, right->Num_0, Some(c)));
            } else {
                lemma_denotes_may_lower(g, g[i].inputs[1] as int, *right, conv);
            }
        },
        SExpr::Unary(_, child) => {
            lemma_denotes_may_lower(g, g[i].inputs[0] as int, *child, conv);
        },
        SExpr::Call(_, arg) => {
            lemma_denotes_may_lower(g, g[i].inputs[0] as int, *arg, conv);
        },
        _ => {},
    }
}

/// `e` has a literal with text `s` that `conv` may reject.
spec fn rejects_literal<F: Fn(&String) -> Option<u64>>(e: SExpr, conv: F, s: Seq<char>) -> bool
    decreases e,
{
    match e {
        SExpr::Num(x) => x == s && converts(conv, s, None),
        SExpr::Var(_) => false,
        SExpr::Binary(_, left, right) => rejects_literal(*left, conv, s) || rejects_literal(
            *right,
            conv,
            s,
        ),
        SExpr::Unary(_, child) => rejects_literal(*child, conv, s),
        SExpr::Call(_, arg) => rejects_literal(*arg, conv, s),
    }
}

/// No two nodes of `g` have the same op and inputs.
pub open spec fn distinct_nodes(g: Seq<NodeView>) -> bool {
    forall|i: int, j: int| 0 <= i < j < g.len() ==> g[i] != g[j]
}

/// `h` is `g` with zero or more nodes appended.
pub open spec fn extends(g: Seq<NodeView>, h: Seq<NodeView>) -> bool {
    g.len() <= h.len() && forall|j: int| 0 <= j < g.len() ==> #[trigger] h[j] == g[j]
}

/// What a node denotes is unchanged when nodes are appended.
pub proof fn lemma_denotes_extend<F: Fn(&String) -> Option<u64>>(
    g: Seq<NodeView>,
    h: Seq<NodeView>,
    i: int,
    e: SExpr,
    conv: F,
)
    requires
        extends(g, h),
        denotes(g, i, e, conv),
    ensures
        denotes(h, i, e, conv),
    decreases e,
{
    assert(h[i] == g[i]);
    match e {
        SExpr::Binary(op, left, right) => {
            if op is Caret {
                lemma_denotes_extend(g, h, g[i].inputs[0] as int, *left, conv);
            } else {
                lemma_denotes_extend(g, h, g[i].inputs[0] as int, *left, conv);
                lemma_denotes_extend(g, h, g[i].inputs[1] as int, *right, conv);
            }
        },
        SExpr::Unary(_, child) => {
            lemma_denotes_extend(g, h, g[i].inputs[0] as int, *child, conv);
        },
        SExpr::Call(_, arg) => {
            lemma_denotes_extend(g, h, g[i].inputs[0] as int, *arg, conv);
        },
        _ => {},
    }
}

/// Appending one node whose input is the last result keeps every appended
/// node used.
proof fn lemma_used_after_push(g0: Seq<NodeView>, g1: Seq<NodeView>, h: Seq<NodeView>, c: int)
    requires
        extends(g0, g1),
        used_from(g1, g0.len() as int),
        g1.len() == g0.len() || c == g1.len() - 1,
        h.len() == g1.len() + 1,
        extends(g1, h),
        h[g1.len() as int].inputs.len() >= 1,
        h[g1.len() as int].inputs[0] == c,
    ensures
        used_from(h, g0.len() as int),
{
    assert forall|j: int| g0.len() <= j < h.len() - 1 implies #[trigger] used(h, j) by {
        if j < g1.len() - 1 {
            assert(used(g1, j));
            let k = choose|k: int| j < k < g1.len() && #[trigger] feeds(g1, j, k);
            assert(h[k] == g1[k]);
            assert(feeds(h, j, k));
        } else {
            assert(j == c);
            assert(h[g1.len() as int].inputs[0] == j as usize);
            assert(feeds(h, j, g1.len() as int));
        }
    }
}

/// Appending one node whose inputs are the results of two successive
/// lowerings keeps every appended node used.
proof fn lemma_used_after_pair(g0: Seq<NodeView>, g1: Seq<NodeView>, g2: Seq<NodeView>, h: Seq<NodeView>, l: int, r: int)
    requires
        extends(g0, g1),
        extends(g1, g2),
        used_from(g1, g0.len() as int),
        used_from(g2, g1.len() as int),
        g1.len() == g0.len() || l == g1.len() - 1,
        g2.len() == g1.len() || r == g2.len() - 1,
        h.len() == g2.len() + 1,
        extends(g2, h),
        h[g2.len() as int].inputs.len() == 2,
        h[g2.len() as int].inputs[0] == l,
        h[g2.len() as int].inputs[1] == r,
    ensures
        used_from(h, g0.len() as int),
{
    let last = g2.len() as int;
    assert forall|j: int| g0.len() <= j < h.len() - 1 implies #[trigger] used(h, j) by {
        if j < g1.len() - 1 {
            assert(used(g1, j));
            let k = choose|k: int| j < k < g1.len() && #[trigger] feeds(g1, j, k);
            assert(h[k] == g1[k]);
            assert(feeds(h, j, k));
        } else if j == g1.len() - 1 {
            assert(j == l);
            assert(h[last].inputs[0] == j as usize);
            assert(feeds(h, j, last));
        } else if j < g2.len() - 1 {
            assert(used(g2, j));
            let k = choose|k: int| j < k < g2.len() && #[trigger] feeds(g2, j, k);
            assert(h[k] == g2[k]);
            assert(feeds(h, j, k));
        } else {
            assert(j == r);
            assert(h[last].inputs[1] == j as usize);
            assert(feeds(h, j, last));
        }
    }
}

/// Memo table for hash-consing: each structural key with the index of the
/// single node that realizes it.
pub struct Lowerer {
    memo: Vec<(NodeKey, usize)>,
}

impl Default for Lowerer {
    fn default() -> (l: Self)
        ensures
            l.entries().len() == 0,
    {
        Lowerer::new()
    }
}

impl Lowerer {
    /// The memo table's entries: a node model and the index realizing it.
    pub closed spec fn entries(&self) -> Seq<(NodeView, usize)> {
        self.memo@.map_values(|e: (NodeKey, usize)| (e.0@, e.1))
    }

    /// Every entry names a node of `g` with its key, and no key occurs twice.
    pub open spec fn memo_ok(&self, g: Seq<NodeView>) -> bool {
        &&& forall|k: int| 0 <= k < self.entries().len() ==> #[trigger] self.entries()[k].1 < g.len()
            && g[self.entries()[k].1 as int] == self.entries()[k].0
        &&& forall|k1: int, k2: int|
            0 <= k1 < k2 < self.entries().len() ==> #[trigger] self.entries()[k1].0
                != #[trigger] self.entries()[k2].0
    }

    /// Every node of `g` is recorded in the memo table.
    pub open spec fn covers(&self, g: Seq<NodeView>) -> bool {
        forall|i: int| 0 <= i < g.len() ==> #[trigger] self.records(i)
    }

    /// Some entry names node `i`.
    pub open spec fn records(&self, i: int) -> bool {
        exists|k: int| 0 <= k < self.entries().len() && #[trigger] self.entries()[k].1 == i
    }

    pub fn new() -> (l: Lowerer)
        ensures
            l.entries().len() == 0,
    {
        Lowerer { memo: Vec::new() }
    }

    /// A memo table that covers the graph and has distinct keys makes the
    /// graph's nodes pairwise distinct.
    pub proof fn lemma_distinct(&self, g: Seq<NodeView>)
        requires
            self.memo_ok(g),
            self.covers(g),
        ensures
            distinct_nodes(g),
    {
        assert forall|i: int, j: int| 0 <= i < j < g.len() implies g[i] != g[j] by {
            assert(self.records(i));
            assert(self.records(j));
            let ki = choose|k: int| 0 <= k < self.entries().len() && #[trigger] self.entries()[k].1 == i;
            let kj = choose|k: int| 0 <= k < self.entries().len() && #[trigger] self.entries()[k].1 == j;
            if ki < kj {
                assert(self.entries()[ki].0 != self.entries()[kj].0);
            } else if kj < ki {
                assert(self.entries()[kj].0 != self.entries()[ki].0);
            }
        }
    }

    /// Two nodes alike in a graph the memo table records are one node.
    proof fn lemma_same_node(&self, g: Seq<NodeView>, i: int, k: int)
        requires
            self.memo_ok(g),
            self.covers(g),
            0 <= i < g.len(),
            0 <= k < g.len(),
            g[i] == g[k],
        ensures
            i == k,
    {
        self.lemma_distinct(g);
    }

    /// The shared create-or-reuse step: the node `(op, inputs)` already in the
    /// memo table, or a new one appended to `graph`.
    fn intern(&mut self, graph: &mut Graph, op: OpType, inputs: Vec<usize>) -> (idx: usize)
        requires
            old(self).memo_ok(old(graph)@),
            old(graph).wf(),
            inputs@.len() == arity(op@),
            forall|k: int| 0 <= k < inputs@.len() ==> #[trigger] inputs@[k] < old(graph)@.len(),
        ensures
            final(self).memo_ok(final(graph)@),
            final(graph).wf(),
            idx < final(graph)@.len(),
            final(graph)@[idx as int] == (NodeView { op: op@, inputs: inputs@ }),
            final(graph)@ == old(graph)@ || (final(graph)@ == old(graph)@.push(
                NodeView { op: op@, inputs: inputs@ },
            ) && idx == old(graph)@.len()),
            old(self).covers(old(graph)@) ==> final(self).covers(final(graph)@),
            old(self).covers(old(graph)@) && (exists|j: int|
                0 <= j < old(graph)@.len() && #[trigger] old(graph)@[j] == (NodeView { op: op@, inputs: inputs@ }))
                ==> final(graph)@ == old(graph)@,
    {
        let key = NodeKey::new(&op, inputs.as_slice());
        let mut k: usize = 0;
        while k < self.memo.len()
            invariant
                self.memo_ok(graph@),
                self.entries() == old(self).entries(),
                graph@ == old(graph)@,
                graph.wf(),
                key@ == (NodeView { op: op@, inputs: inputs@ }),
                k <= self.memo@.len(),
                forall|j: int| 0 <= j < k ==> self.entries()[j].0 != key@,
            decreases self.memo@.len() - k,
        {
            if self.memo[k].0.same_as(&key) {
                proof {
                    assert(self.entries()[k as int] == (self.memo@[k as int].0@, self.memo@[k as int].1));
                    assert(self.entries()[k as int].0 == key@);
                    assert(self.entries()[k as int].1 < graph@.len());
                }
                return self.memo[k].1;
            }
            k = k + 1;
        }
        let ghost g0 = graph@;
        let ghost old_entries = self.entries();
        proof {
            crate::graph::arena::lemma_append_wf(g0, op@, inputs@);
            if old(self).covers(old(graph)@) {
                assert forall|j: int| 0 <= j < g0.len() implies #[trigger] g0[j] != key@ by {
                    assert(old(self).records(j));
                    let kk = choose|k: int| 0 <= k < old_entries.len() && #[trigger] old_entries[k].1 == j;
                    assert(self.entries()[kk].0 != key@);
                }
            }
        }
        let idx = graph.push(Node { op, inputs });
        self.memo.push((key, idx));
        proof {
            assert(self.entries() =~= old_entries.push((key@, idx)));
            assert forall|j: int| 0 <= j < self.entries().len() implies #[trigger] self.entries()[j].1
                < graph@.len() && graph@[self.entries()[j].1 as int] == self.entries()[j].0 by {
                if j < old_entries.len() {
                    assert(old_entries[j].1 < g0.len());
                }
            }
            if old(self).covers(old(graph)@) {
                assert forall|i: int| 0 <= i < graph@.len() implies #[trigger] self.records(i) by {
                    if i < g0.len() {
                        assert(old(self).records(i));
                        let k0 = choose|k: int| 0 <= k < old_entries.len() && #[trigger] old_entries[k].1 == i;
                        assert(self.entries()[k0].1 == i);
                    } else {
                        assert(self.entries()[old_entries.len() as int].1 == i);
                    }
                }
            }
        }
        idx
    }

    /// Lower `expr` into `graph`, reusing every node already in the memo
    /// table, and return the node computing it.
    ///
    /// While the memo table records every node of the graph (as it does from
    /// a fresh lowerer and an empty graph, through any number of calls), no
    /// two nodes of the graph are alike; and when `conv` reads each text one
    /// way, lowering an expression some node already computes returns that
    /// node and adds nothing.
    pub fn lower<F: Fn(&String) -> Option<u64>, S: Fn(&String) -> String>(
        &mut self,
        expr: &Expr,
        graph: &mut Graph,
        conv: &F,
        spell: &S,
    ) -> (r: Result<usize, EngineError>)
        requires
            forall|x: &String| spell.requires((x,)),
            old(self).memo_ok(old(graph)@),
            old(graph).wf(),
            forall|s: &String| conv.requires((s,)),
        ensures
            final(self).memo_ok(final(graph)@),
            final(graph).wf(),
            extends(old(graph)@, final(graph)@),
            old(self).covers(old(graph)@) ==> final(self).covers(final(graph)@),
            old(self).covers(old(graph)@) ==> distinct_nodes(final(graph)@),
            r matches Ok(i) ==> denotes(final(graph)@, i as int, expr@, *conv) && (final(graph)@.len()
                == old(graph)@.len() || i == final(graph)@.len() - 1) && used_from(final(graph)@, old(graph)@.len() as int),
            shape_ok(expr@) && literals_convert(expr@, *conv) ==> r is Ok,
            r matches Err(err) ==> lower_error(expr@, *conv, *spell, err),
            forall|k: int|
                reads_alike(*conv) && old(self).covers(old(graph)@) && #[trigger] denotes(old(graph)@, k, expr@, *conv)
                    ==> r == Ok::<usize, EngineError>(k as usize) && final(graph)@ == old(graph)@,
    {
        let r = self.lower_expr(expr, graph, conv, spell);
        proof {
            if old(self).covers(old(graph)@) {
                self.lemma_distinct(graph@);
            }
        }
        r
    }

    fn lower_expr<F: Fn(&String) -> Option<u64>, S: Fn(&String) -> String>(
        &mut self,
        expr: &Expr,
        graph: &mut Graph,
        conv: &F,
        spell: &S,
    ) -> (r: Result<usize, EngineError>)
        requires
            forall|x: &String| spell.requires((x,)),
            old(self).memo_ok(old(graph)@),
            old(graph).wf(),
            forall|s: &String| conv.requires((s,)),
        ensures
            final(self).memo_ok(final(graph)@),
            final(graph).wf(),
            extends(old(graph)@, final(graph)@),
            old(self).covers(old(graph)@) ==> final(self).covers(final(graph)@),
            r matches Ok(i) ==> denotes(final(graph)@, i as int, expr@, *conv) && (final(graph)@.len()
                == old(graph)@.len() || i == final(graph)@.len() - 1) && used_from(final(graph)@, old(graph)@.len() as int),
            shape_ok(expr@) && literals_convert(expr@, *conv) ==> r is Ok,
            r matches Err(err) ==> lower_error(expr@, *conv, *spell, err),
            forall|k: int|
                reads_alike(*conv) && old(self).covers(old(graph)@) && #[trigger] denotes(old(graph)@, k, expr@, *conv)
                    ==> r == Ok::<usize, EngineError>(k as usize) && final(graph)@ == old(graph)@,
        decreases expr,
    {
        let ghost g0 = graph@;
        match expr {
            Expr::Num(n) => {
                let v = conv(n);
                proof {
                    assert(converts(*conv, n@, v));
                }
                match v {
                    Some(bits) => {
                        let empty: Vec<usize> = Vec::new();
                        let ghost key = NodeView { op: Op::Const(bits), inputs: empty@ };
                        proof {
                            if reads_alike(*conv) && old(self).covers(g0) {
                                assert forall|k: int| #[trigger] denotes(g0, k, expr@, *conv) implies g0[k] == key by {
                                    let c = g0[k].op->Const_0;
                                    let x = choose|x: String| x@ == n@ && #[trigger] call_ensures(*conv, (&x,), Some(c));
                                    assert(call_ensures(*conv, (n,), v));
                                    assert(g0[k].inputs =~= empty@);
                                }
                            }
                        }
                        let i = self.intern(graph, OpType::Const(bits), empty);
                        proof {
                            if reads_alike(*conv) && old(self).covers(g0) {
                                assert forall|k: int| #[trigger] denotes(g0, k, expr@, *conv) implies i == k && graph@ == g0 by {
                                    self.lemma_same_node(graph@, i as int, k);
                                }
                            }
                        }
                        Ok(i)
                    },
                    None => {
                        let err = EngineError::InvalidNumber(n.clone());
                        proof {
                            assert(rejects_literal(expr@, *conv, n@));
                            assert(!literals_convert(expr@, *conv));
                            assert(lower_error(expr@, *conv, *spell, err));
                        }
                        Err(err)
                    },
                }
            },
            Expr::Var(name) => {
                let empty: Vec<usize> = Vec::new();
                let op = OpType::Var(name.clone());
                proof {
                    if reads_alike(*conv) && old(self).covers(g0) {
                        assert forall|k: int| #[trigger] denotes(g0, k, expr@, *conv) implies g0[k] == (NodeView { op: op@, inputs: empty@ }) by {
                            assert(g0[k].inputs =~= empty@);
                        }
                    }
                }
                let i = self.intern(graph, op, empty);
                proof {
                    if reads_alike(*conv) && old(self).covers(g0) {
                        assert forall|k: int| #[trigger] denotes(g0, k, expr@, *conv) implies i == k && graph@ == g0 by {
                            self.lemma_same_node(graph@, i as int, k);
                        }
                    }
                }
                Ok(i)
            },
            Expr::Binary { op, left, right } => {
                if op.is_caret() {
                    proof {
                        assert(expr@ == SExpr::Binary(Tok::Caret, Box::new(left@), Box::new(right@)));
                    }
                    let base = match self.lower_expr(left, graph, conv, spell) {
                        Ok(b) => b,
                        Err(err) => {
                            proof {
                                assert forall|k: int| reads_alike(*conv) && old(self).covers(g0) implies !#[trigger] denotes(g0, k, expr@, *conv) by {
                                    if denotes(g0, k, expr@, *conv) {
                                        assert(denotes(g0, g0[k].inputs[0] as int, left@, *conv));
                                    }
                                }
                            }
                            return Err(err);
                        },
                    };
                    let ghost g1 = graph@;
                    proof {
                        lemma_denotes_may_lower(g1, base as int, left@, *conv);
                    }
                    let exp = match &**right {
                        Expr::Num(e) => {
                            let v = conv(e);
                            proof {
                                assert(converts(*conv, e@, v));
                                assert(right@ == SExpr::Num(e@));
                                assert(expr@ == SExpr::Binary(Tok::Caret, Box::new(left@), Box::new(right@)));
                            }
                            proof {
                                if reads_alike(*conv) && old(self).covers(g0) {
                                    assert forall|k: int| #[trigger] denotes(g0, k, expr@, *conv) implies v == Some(g0[k].op->Pow_0) by {
                                        let c = g0[k].op->Pow_0;
                                        let x = choose|x: String| x@ == e@ && #[trigger] call_ensures(*conv, (&x,), Some(c));
                                        assert(call_ensures(*conv, (e,), v));
                                    }
                                }
                            }
                            match v {
                                Some(bits) => bits,
                                None => {
                                    let err = EngineError::InvalidNumber(e.clone());
                                    proof {
                                        assert(rejects_literal(right@, *conv, e@));
                                        assert(!literals_convert(right@, *conv));
                                        assert(lower_error(expr@, *conv, *spell, err));
                                    }
                                    return Err(err);
                                },
                            }
                        },
                        _ => {
                            let err = EngineError::UnexpectedToken {
                                expected: text("a numeric literal exponent"),
                                found: right.describe(spell),
                            };
                            proof {
                                assert(!(right@ is Num));
                                assert(lower_error(expr@, *conv, *spell, err));
                                assert forall|k: int| !#[trigger] denotes(g0, k, expr@, *conv) by {
                                    assert(expr@ == SExpr::Binary(Tok::Caret, Box::new(left@), Box::new(right@)));
                                }
                            }
                            return Err(err);
                        },
                    };
                    let mut inputs: Vec<usize> = Vec::new();
                    inputs.push(base);
                    proof {
                        if reads_alike(*conv) && old(self).covers(g0) {
                            assert forall|k: int| #[trigger] denotes(g0, k, expr@, *conv) implies g0[k] == (NodeView { op: Op::Pow(exp), inputs: inputs@ }) && g1 == g0 by {
                                assert(denotes(g0, g0[k].inputs[0] as int, left@, *conv));
                                assert(g0[k].inputs =~= inputs@);
                            }
                        }
                    }
                    let i = self.intern(graph, OpType::Pow(exp), inputs);
                    proof {
                        if reads_alike(*conv) && old(self).covers(g0) {
                            assert forall|k: int| #[trigger] denotes(g0, k, expr@, *conv) implies i == k && graph@ == g0 by {
                                self.lemma_same_node(graph@, i as int, k);
                            }
                        }
                        lemma_denotes_extend(g1, graph@, base as int, left@, *conv);
                        if graph@.len() > g1.len() {
                            lemma_used_after_push(g0, g1, graph@, base as int);
                        } else if g1.len() > g0.len() {
                            assert(node_ok(graph@, i as int));
                            assert(graph@[i as int].inputs[0] < i);
                        }
                    }
                    return Ok(i);
                }
                proof {
                    assert(expr@ == SExpr::Binary(op@, Box::new(left@), Box::new(right@)));
                }
                let l = match self.lower_expr(left, graph, conv, spell) {
                    Ok(b) => b,
                    Err(err) => {
                        proof {
                            assert forall|k: int| reads_alike(*conv) && old(self).covers(g0) implies !#[trigger] denotes(g0, k, expr@, *conv) by {
                                if denotes(g0, k, expr@, *conv) {
                                    assert(denotes(g0, g0[k].inputs[0] as int, left@, *conv));
                                }
                            }
                        }
                        return Err(err);
                    },
                };
                let ghost g1 = graph@;
                proof {
                    lemma_denotes_may_lower(g1, l as int, left@, *conv);
                }
                proof {
                    if reads_alike(*conv) && old(self).covers(g0) {
                        assert forall|k: int| #[trigger] denotes(g0, k, expr@, *conv) implies l == g0[k].inputs[0] && g1 == g0 && denotes(g1, g0[k].inputs[1] as int, right@, *conv) by {
                            assert(denotes(g0, g0[k].inputs[0] as int, left@, *conv));
                        }
                    }
                }
                let r = match self.lower_expr(right, graph, conv, spell) {
                    Ok(b) => b,
                    Err(err) => {
                        proof {
                            assert forall|k: int| reads_alike(*conv) && old(self).covers(g0) implies !#[trigger] denotes(g0, k, expr@, *conv) by {
                                if denotes(g0, k, expr@, *conv) {
                                    assert(denotes(g1, g0[k].inputs[1] as int, right@, *conv));
                                }
                            }
                        }
                        return Err(err);
                    },
                };
                let ghost g2 = graph@;
                proof {
                    lemma_denotes_may_lower(g2, r as int, right@, *conv);
                }
                let optype = match op {
                    Token::Plus => OpType::Add,
                    Token::Minus => OpType::Sub,
                    Token::Star => OpType::Mul,
                    Token::Slash => OpType::Div,
                    _ => {
                        let err = EngineError::UnexpectedToken {
                            expected: text("a binary operator"),
                            found: op.describe(spell),
                        };
                        proof {
                            assert(binop_of(op@) is None);
                            assert(lower_error(expr@, *conv, *spell, err));
                        }
                        return Err(err);
                    },
                };
                let mut inputs: Vec<usize> = Vec::new();
                inputs.push(l);
                inputs.push(r);
                proof {
                    if reads_alike(*conv) && old(self).covers(g0) {
                        assert forall|k: int| #[trigger] denotes(g0, k, expr@, *conv) implies g0[k] == (NodeView { op: optype@, inputs: inputs@ }) && g2 == g0 by {
                            assert(denotes(g1, g0[k].inputs[1] as int, right@, *conv));
                            assert(g0[k].inputs =~= inputs@);
                        }
                    }
                }
                let i = self.intern(graph, optype, inputs);
                proof {
                    if reads_alike(*conv) && old(self).covers(g0) {
                        assert forall|k: int| #[trigger] denotes(g0, k, expr@, *conv) implies i == k && graph@ == g0 by {
                            self.lemma_same_node(graph@, i as int, k);
                        }
                    }
                    lemma_denotes_extend(g1, g2, l as int, left@, *conv);
                    lemma_denotes_extend(g2, graph@, l as int, left@, *conv);
                    lemma_denotes_extend(g2, graph@, r as int, right@, *conv);
                    if graph@.len() == g2.len() && g2.len() > g0.len() {
                        assert(node_ok(graph@, i as int));
                        assert(graph@[i as int].inputs[0] < i);
                        assert(graph@[i as int].inputs[1] < i);
                    }
                    if graph@.len() > g2.len() {
                        lemma_used_after_pair(g0, g1, g2, graph@, l as int, r as int);
                    }
                }
                Ok(i)
            },
            Expr::Unary { op, child } => {
                proof {
                    assert(expr@ == SExpr::Unary(op@, Box::new(child@)));
                }
                let c = match self.lower_expr(child, graph, conv, spell) {
                    Ok(b) => b,
                    Err(err) => {
                        proof {
                            assert forall|k: int| reads_alike(*conv) && old(self).covers(g0) implies !#[trigger] denotes(g0, k, expr@, *conv) by {
                                if denotes(g0, k, expr@, *conv) {
                                    assert(denotes(g0, g0[k].inputs[0] as int, child@, *conv));
                                }
                            }
                        }
                        return Err(err);
                    },
                };
                let ghost g1 = graph@;
                proof {
                    lemma_denotes_may_lower(g1, c as int, child@, *conv);
                }
                if !matches!(op, Token::Minus) {
                    let err = EngineError::UnexpectedToken {
                        expected: text("a unary operator"),
                        found: op.describe(spell),
                    };
                    proof {
                        assert(lower_error(expr@, *conv, *spell, err));
                    }
                    return Err(err);
                }
                let mut inputs: Vec<usize> = Vec::new();
                inputs.push(c);
                proof {
                    if reads_alike(*conv) && old(self).covers(g0) {
                        assert forall|k: int| #[trigger] denotes(g0, k, expr@, *conv) implies g0[k] == (NodeView { op: Op::Neg, inputs: inputs@ }) && g1 == g0 by {
                            assert(denotes(g0, g0[k].inputs[0] as int, child@, *conv));
                            assert(g0[k].inputs =~= inputs@);
                        }
                    }
                }
                let i = self.intern(graph, OpType::Neg, inputs);
                proof {
                    if reads_alike(*conv) && old(self).covers(g0) {
                        assert forall|k: int| #[trigger] denotes(g0, k, expr@, *conv) implies i == k && graph@ == g0 by {
                            self.lemma_same_node(graph@, i as int, k);
                        }
                    }
                    lemma_denotes_extend(g1, graph@, c as int, child@, *conv);
                    if graph@.len() > g1.len() {
                        lemma_used_after_push(g0, g1, graph@, c as int);
                    }
                    if graph@.len() == g1.len() && g1.len() > g0.len() {
                        assert(node_ok(graph@, i as int));
                        assert(graph@[i as int].inputs[0] < i);
                    }
                }
                Ok(i)
            },
            Expr::Call { fn_name, arg } => {
                proof {
                    assert(expr@ == SExpr::Call(fn_name@, Box::new(arg@)));
                }
                let c = match self.lower_expr(arg, graph, conv, spell) {
                    Ok(b) => b,
                    Err(err) => {
                        proof {
                            assert forall|k: int| reads_alike(*conv) && old(self).covers(g0) implies !#[trigger] denotes(g0, k, expr@, *conv) by {
                                if denotes(g0, k, expr@, *conv) {
                                    assert(denotes(g0, g0[k].inputs[0] as int, arg@, *conv));
                                }
                            }
                        }
                        return Err(err);
                    },
                };
                let ghost g1 = graph@;
                proof {
                    lemma_denotes_may_lower(g1, c as int, arg@, *conv);
                }
                let optype = if fn_name.eq(&text("sin")) {
                    OpType::Sin
                } else if fn_name.eq(&text("cos")) {
                    OpType::Cos
                } else if fn_name.eq(&text("ln")) {
                    OpType::Ln
                } else if fn_name.eq(&text("exp")) {
                    OpType::Exp
                } else {
                    let err = EngineError::UnexpectedToken {
                        expected: text("a known function name"),
                        found: fn_name.clone(),
                    };
                    proof {
                        assert(func_of(fn_name@) is None);
                        assert(lower_error(expr@, *conv, *spell, err));
                    }
                    return Err(err);
                };
                let mut inputs: Vec<usize> = Vec::new();
                inputs.push(c);
                proof {
                    if reads_alike(*conv) && old(self).covers(g0) {
                        assert forall|k: int| #[trigger] denotes(g0, k, expr@, *conv) implies g0[k] == (NodeView { op: optype@, inputs: inputs@ }) && g1 == g0 by {
                            assert(denotes(g0, g0[k].inputs[0] as int, arg@, *conv));
                            assert(g0[k].inputs =~= inputs@);
                        }
                    }
                }
                let i = self.intern(graph, optype, inputs);
                proof {
                    if reads_alike(*conv) && old(self).covers(g0) {
                        assert forall|k: int| #[trigger] denotes(g0, k, expr@, *conv) implies i == k && graph@ == g0 by {
                            self.lemma_same_node(graph@, i as int, k);
                        }
                    }
                    lemma_denotes_extend(g1, graph@, c as int, arg@, *conv);
                    if graph@.len() > g1.len() {
                        lemma_used_after_push(g0, g1, graph@, c as int);
                    }
                    if graph@.len() == g1.len() && g1.len() > g0.len() {
                        assert(node_ok(graph@, i as int));
                        assert(graph@[i as int].inputs[0] < i);
                    }
                }
                Ok(i)
            },
        }
    }
}

/// Lower a whole expression tree into a fresh graph, returning the graph and
/// the index of its root, which is its last node.
pub fn lower<F: Fn(&String) -> Option<u64>, S: Fn(&String) -> String>(expr: &Expr, conv: &F, spell: &S) -> (r: Result<(Graph, usize), EngineError>)
    requires
        forall|x: &String| spell.requires((x,)),
        forall|s: &String| conv.requires((s,)),
    ensures
        r matches Ok((g, root)) ==> g.wf() && root == g@.len() - 1 && denotes(g@, root as int, expr@, *conv)
            && distinct_nodes(g@) && used_from(g@, 0),
        shape_ok(expr@) && literals_convert(expr@, *conv) ==> r is Ok,
        r matches Err(err) ==> lower_error(expr@, *conv, *spell, err),
{
    let mut graph = Graph::new();
    let mut lowerer = Lowerer::new();
    let root = match lowerer.lower(expr, &mut graph, conv, spell) {
        Ok(i) => i,
        Err(err) => {
            return Err(err);
        },
    };
    proof {
        lowerer.lemma_distinct(graph@);
    }
    Ok((graph, root))
}

} // verus!
