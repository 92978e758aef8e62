//! Render a subgraph back into a readable infix formula.
//!
//! [`Graph::to_expr_string`] walks the subgraph rooted at a node and emits
//! surface syntax like `cos(x * y) * y`, inserting parentheses only where
//! operator precedence requires them. The precedence levels mirror the
//! parser's binding powers, so the output re-parses with the same grouping: a
//! child is parenthesized when it binds looser than its parent; for the
//! left-associative `+ - * /` the right operand is also wrapped on a tie (so
//! `a - (b - c)` stays grouped), and a `^` base is wrapped on a tie (`^` is
//! right-associative).
//!
//! A numeric payload is written as the caller's `fmt` spells its bit pattern;
//! `fmt` is asked once per node. That the output compiles back to the node it
//! was printed from is proved in [`crate::parse::printed`].

use vstd::prelude::*;
use crate::graph::arena::Graph;
use crate::graph::node::{NodeView, Op, OpType};
use crate::graph::topo::{wf_nodes, node_ok};
use crate::parse::text::text;

verus! {

/// `+` and `-`.
pub const P_ADD: u8 = 1;
/// `*` and `/`.
pub const P_MUL: u8 = 2;
/// Prefix `-`.
pub const P_NEG: u8 = 3;
/// `^`.
pub const P_POW: u8 = 4;
/// Variables, constants, function calls.
pub const P_ATOM: u8 = 5;

/// `s` in parentheses.
pub open spec fn paren(s: Seq<char>) -> Seq<char> {
    "("@ + s + ")"@
}

/// The numeric payload of an op, if it has one.
pub open spec fn payload(op: Op) -> Option<u64> {
    match op {
        Op::Const(c) => Some(c),
        Op::Pow(k) => Some(k),
        _ => None,
    }
}

/// The rendering of node `i` and the precedence of its top operator, with
/// `texts[j]` the spelling of node `j`'s numeric payload.
pub open spec fn render(g: Seq<NodeView>, i: int, texts: Seq<Seq<char>>) -> (Seq<char>, u8)
    decreases i,
{
    if !(0 <= i < g.len()) {
        (Seq::empty(), P_ATOM)
    } else {
        let n = g[i];
        let ins = n.inputs;
        let c0 = if ins.len() >= 1 && ins[0] < i { render(g, ins[0] as int, texts) } else { (Seq::empty(), P_ATOM) };
        let c1 = if ins.len() >= 2 && ins[1] < i { render(g, ins[1] as int, texts) } else { (Seq::empty(), P_ATOM) };
        match n.op {
            Op::Var(name) => (name, P_ATOM),
            Op::Const(_) => (texts[i], P_ATOM),
            Op::Add => (binary(c0, c1, " + "@, P_ADD), P_ADD),
            Op::Sub => (binary(c0, c1, " - "@, P_ADD), P_ADD),
            Op::Mul => (binary(c0, c1, " * "@, P_MUL), P_MUL),
            Op::Div => (binary(c0, c1, " / "@, P_MUL), P_MUL),
            Op::Neg => ("-"@ + (if c0.1 < P_NEG { paren(c0.0) } else { c0.0 }), P_NEG),
            Op::Pow(_) => ((if c0.1 <= P_POW { paren(c0.0) } else { c0.0 }) + " ^ "@ + texts[i], P_POW),
            Op::Sin => ("sin"@ + paren(c0.0), P_ATOM),
            Op::Cos => ("cos"@ + paren(c0.0), P_ATOM),
            Op::Exp => ("exp"@ + paren(c0.0), P_ATOM),
            Op::Ln => ("ln"@ + paren(c0.0), P_ATOM),
        }
    }
}

/// `left OP right`, the left operand wrapped when it binds looser than `prec`
/// and the right one also on a tie.
pub open spec fn binary(l: (Seq<char>, u8), r: (Seq<char>, u8), op: Seq<char>, prec: u8) -> Seq<char> {
    (if l.1 < prec { paren(l.0) } else { l.0 }) + op + (if r.1 <= prec { paren(r.0) } else { r.0 })
}

/// A leaf naming the variable `name`.
pub open spec fn var_node(name: Seq<char>) -> NodeView {
    NodeView { op: Op::Var(name), inputs: Seq::empty() }
}

/// The node `op(a, b)`.
pub open spec fn op_node(op: Op, a: usize, b: usize) -> NodeView {
    NodeView { op, inputs: seq![a, b] }
}

/// `-` groups to the left when printed: `(a - b) - c` prints bare and
/// `a - (b - c)` keeps its parentheses.
pub proof fn lemma_render_sub_grouping(a: Seq<char>, b: Seq<char>, c: Seq<char>, texts: Seq<Seq<char>>)
    ensures
        render(
            seq![var_node(a), var_node(b), var_node(c), op_node(Op::Sub, 0, 1), op_node(Op::Sub, 3, 2)],
            4,
            texts,
        ).0 == a + " - "@ + b + " - "@ + c,
        render(
            seq![var_node(a), var_node(b), var_node(c), op_node(Op::Sub, 1, 2), op_node(Op::Sub, 0, 3)],
            4,
            texts,
        ).0 == a + " - "@ + paren(b + " - "@ + c),
{
    let g = seq![var_node(a), var_node(b), var_node(c), op_node(Op::Sub, 0, 1), op_node(Op::Sub, 3, 2)];
    assert(render(g, 0, texts) == (a, P_ATOM));
    assert(render(g, 1, texts) == (b, P_ATOM));
    assert(render(g, 2, texts) == (c, P_ATOM));
    assert(render(g, 3, texts) == (a + " - "@ + b, P_ADD));
    assert(render(g, 4, texts).0 =~= a + " - "@ + b + " - "@ + c);
    let h = seq![var_node(a), var_node(b), var_node(c), op_node(Op::Sub, 1, 2), op_node(Op::Sub, 0, 3)];
    assert(render(h, 0, texts) == (a, P_ATOM));
    assert(render(h, 1, texts) == (b, P_ATOM));
    assert(render(h, 2, texts) == (c, P_ATOM));
    assert(render(h, 3, texts) == (b + " - "@ + c, P_ADD));
}

/// `*` binds tighter than `+` when printed: `a + b * c` prints bare and
/// `(a + b) * c` keeps its parentheses.
pub proof fn lemma_render_product_in_sum(a: Seq<char>, b: Seq<char>, c: Seq<char>, texts: Seq<Seq<char>>)
    ensures
        render(
            seq![var_node(a), var_node(b), var_node(c), op_node(Op::Mul, 1, 2), op_node(Op::Add, 0, 3)],
            4,
            texts,
        ).0 == a + " + "@ + (b + " * "@ + c),
        render(
            seq![var_node(a), var_node(b), var_node(c), op_node(Op::Add, 0, 1), op_node(Op::Mul, 3, 2)],
            4,
            texts,
        ).0 == paren(a + " + "@ + b) + " * "@ + c,
{
    let g = seq![var_node(a), var_node(b), var_node(c), op_node(Op::Mul, 1, 2), op_node(Op::Add, 0, 3)];
    assert(render(g, 0, texts) == (a, P_ATOM));
    assert(render(g, 1, texts) == (b, P_ATOM));
    assert(render(g, 2, texts) == (c, P_ATOM));
    assert(render(g, 3, texts) == (b + " * "@ + c, P_MUL));
    let h = seq![var_node(a), var_node(b), var_node(c), op_node(Op::Add, 0, 1), op_node(Op::Mul, 3, 2)];
    assert(render(h, 0, texts) == (a, P_ATOM));
    assert(render(h, 1, texts) == (b, P_ATOM));
    assert(render(h, 2, texts) == (c, P_ATOM));
    assert(render(h, 3, texts) == (a + " + "@ + b, P_ADD));
}

/// A `^` base that is itself a power keeps its parentheses, since `^`
/// groups to the right: `(a ^ k) ^ m`.
pub proof fn lemma_render_power_of_power(a: Seq<char>, k: u64, m: u64, texts: Seq<Seq<char>>)
    requires
        texts.len() == 3,
    ensures
        render(
            seq![var_node(a), NodeView { op: Op::Pow(k), inputs: seq![0usize] }, NodeView { op: Op::Pow(m), inputs: seq![1usize] }],
            2,
            texts,
        ).0 == paren(a + " ^ "@ + texts[1]) + " ^ "@ + texts[2],
{
    let g = seq![var_node(a), NodeView { op: Op::Pow(k), inputs: seq![0usize] }, NodeView { op: Op::Pow(m), inputs: seq![1usize] }];
    assert(render(g, 0, texts) == (a, P_ATOM));
    assert(render(g, 1, texts) == (a + " ^ "@ + texts[1], P_POW));
}

/// `texts[j]` is a spelling that `fmt` may give for node `j`'s payload.
pub open spec fn spelled<F: Fn(u64) -> String>(g: Seq<NodeView>, texts: Seq<String>, fmt: F) -> bool {
    &&& texts.len() == g.len()
    &&& forall|j: int| 0 <= j < g.len() ==> match #[trigger] payload(g[j].op) {
        Some(k) => call_ensures(fmt, (k,), texts[j]),
        None => true,
    }
}

pub open spec fn views(texts: Seq<String>) -> Seq<Seq<char>> {
    texts.map_values(|s: String| s@)
}

/// `s` in parentheses, as a `String`.
fn wrap(s: String) -> (r: String)
    ensures
        r@ == paren(s@),
{
    let mut r = text("(");
    r.append(s.as_str());
    r.append(")");
    r
}

/// `a` followed by `b`.
fn join(a: String, b: &str) -> (r: String)
    ensures
        r@ == a@ + b@,
{
    let mut r = a;
    r.append(b);
    r
}

impl Graph {
    /// Render the subgraph rooted at `root` as an infix formula, each numeric
    /// payload spelled by `fmt`.
    pub fn to_expr_string<F: Fn(u64) -> String>(&self, root: usize, fmt: &F) -> (s: String)
        requires
            self.wf(),
            root < self@.len(),
            forall|k: u64| fmt.requires((k,)),
        ensures
            exists|texts: Seq<String>| spelled(self@, texts, *fmt) && s@ == render(self@, root as int, views(texts)).0,
    {
        let n = self.nodes.len();
        let mut texts: Vec<String> = Vec::new();
        let mut i: usize = 0;
        while i < n
            invariant
                n == self@.len(),
                i <= n,
                texts@.len() == i,
                forall|j: int| 0 <= j < i ==> match #[trigger] payload(self@[j].op) {
                    Some(k) => call_ensures(*fmt, (k,), texts@[j]),
                    None => true,
                },
                forall|k: u64| fmt.requires((k,)),
            decreases n - i,
        {
            let t = match &self.nodes[i].op {
                OpType::Const(c) => fmt(*c),
                OpType::Pow(k) => fmt(*k),
                _ => String::new(),
            };
            texts.push(t);
            i = i + 1;
        }
        let (s, _) = self.fmt_node(root, &texts);
        proof {
            assert(spelled(self@, texts@, *fmt));
        }
        s
    }

    /// Format one node, returning its rendering and the precedence of its top
    /// operator (so the caller can decide whether to parenthesize it).
    fn fmt_node(&self, node: usize, texts: &Vec<String>) -> (r: (String, u8))
        requires
            self.wf(),
            node < self@.len(),
            texts@.len() == self@.len(),
        ensures
            (r.0@, r.1) == render(self@, node as int, views(texts@)),
        decreases node, 1nat,
    {
        proof {
            assert(node_ok(self@, node as int));
        }
        let ghost ins = self@[node as int].inputs;
        match &self.nodes[node].op {
            OpType::Var(name) => (name.clone(), P_ATOM),
            OpType::Const(_) => (texts[node].clone(), P_ATOM),
            OpType::Add => (self.fmt_binary(node, " + ", P_ADD, texts), P_ADD),
            OpType::Sub => (self.fmt_binary(node, " - ", P_ADD, texts), P_ADD),
            OpType::Mul => (self.fmt_binary(node, " * ", P_MUL, texts), P_MUL),
            OpType::Div => (self.fmt_binary(node, " / ", P_MUL, texts), P_MUL),
            OpType::Neg => {
                let (s, p) = self.fmt_node(self.nodes[node].inputs[0], texts);
                let inner = if p < P_NEG { wrap(s) } else { s };
                (join(text("-"), inner.as_str()), P_NEG)
            },
            OpType::Pow(_) => {
                let (s, p) = self.fmt_node(self.nodes[node].inputs[0], texts);
                let base = if p <= P_POW { wrap(s) } else { s };
                (join(join(base, " ^ "), texts[node].as_str()), P_POW)
            },
            OpType::Sin => (self.fmt_call(node, "sin", texts), P_ATOM),
            OpType::Cos => (self.fmt_call(node, "cos", texts), P_ATOM),
            OpType::Exp => (self.fmt_call(node, "exp", texts), P_ATOM),
            OpType::Ln => (self.fmt_call(node, "ln", texts), P_ATOM),
        }
    }

    /// Format a binary op `left OP right`, parenthesizing each operand by
    /// precedence.
    fn fmt_binary(&self, node: usize, op: &str, prec: u8, texts: &Vec<String>) -> (s: String)
        requires
            self.wf(),
            node < self@.len(),
            self@[node as int].inputs.len() == 2,
            texts@.len() == self@.len(),
        ensures
            s@ == binary(
                render(self@, self@[node as int].inputs[0] as int, views(texts@)),
                render(self@, self@[node as int].inputs[1] as int, views(texts@)),
                op@,
                prec,
            ),
        decreases node, 0nat,
    {
        proof {
            assert(node_ok(self@, node as int));
        }
        let (ls, lp) = self.fmt_node(self.nodes[node].inputs[0], texts);
        let (rs, rp) = self.fmt_node(self.nodes[node].inputs[1], texts);
        let left = if lp < prec { wrap(ls) } else { ls };
        let right = if rp <= prec { wrap(rs) } else { rs };
        join(join(left, op), right.as_str())
    }

    /// Format a unary function call `name(arg)`.
    fn fmt_call(&self, node: usize, name: &str, texts: &Vec<String>) -> (s: String)
        requires
            self.wf(),
            node < self@.len(),
            self@[node as int].inputs.len() == 1,
            texts@.len() == self@.len(),
        ensures
            s@ == name@ + paren(render(self@, self@[node as int].inputs[0] as int, views(texts@)).0),
        decreases node, 0nat,
    {
        proof {
            assert(node_ok(self@, node as int));
        }
        let (s, _) = self.fmt_node(self.nodes[node].inputs[0], texts);
        join(text(name), wrap(s).as_str())
    }
}

} // verus!
