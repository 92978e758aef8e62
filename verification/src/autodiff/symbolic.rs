//! Symbolic differentiation as a graph-to-graph transform.
//!
//! [`Graph::diff`] recurses an expression applying the textbook rules (sum,
//! product, quotient, power, chain) and appends a new subgraph for the
//! derivative, returning its root. It reuses the existing nodes as
//! subexpressions and never mutates them, so the arena only grows and the
//! derivative root is the last node pushed.
//!
//! It deliberately does not memoize: the product rule duplicates subtrees, so
//! the derivative graph swells. The power rule needs the exponent `k - 1`,
//! which the caller's `minus_one` gives from the bit pattern of `k`.

use vstd::prelude::*;
use crate::graph::arena::Graph;
use crate::graph::node::{NodeView, Op, OpType};
use crate::graph::topo::{wf_nodes, node_ok};
use crate::parse::lower::extends;
use crate::parse::text::text;

verus! {

/// The bit pattern of `0.0_f64`.
pub const ZERO_BITS: u64 = 0x0000_0000_0000_0000u64;

/// The bit pattern of `1.0_f64`.
pub const ONE_BITS: u64 = 0x3FF0_0000_0000_0000u64;

/// The bit pattern of `2.0_f64`.
pub const TWO_BITS: u64 = 0x4000_0000_0000_0000u64;

/// Node `j` of `g` exists and is `(op, inputs)`.
pub open spec fn has(g: Seq<NodeView>, j: int, op: Op, inputs: Seq<usize>) -> bool {
    0 <= j < g.len() && g[j] == NodeView { op, inputs }
}

/// Node `j` exists with op `op` and `k` inputs.
pub open spec fn shaped(g: Seq<NodeView>, j: int, op: Op, k: nat) -> bool {
    0 <= j < g.len() && g[j].op == op && g[j].inputs.len() == k
}

/// Node `d` of `g` is the root of the derivative of node `n` with respect to
/// the variable `wrt`, built by the textbook rules; `minus_one` may give
/// `k2` for `k` wherever the power rule writes `k - 1`.
pub open spec fn is_deriv<F: Fn(u64) -> u64>(g: Seq<NodeView>, d: int, n: int, wrt: Seq<char>, minus_one: F) -> bool
    decreases n,
{
    if !(0 <= n < g.len() && 0 <= d < g.len()) {
        false
    } else {
        let ins = g[n].inputs;
        let out = g[d].inputs;
        match g[n].op {
            // d/dx c = 0.
            Op::Const(_) => has(g, d, Op::Const(ZERO_BITS), seq![]),
            // d/dx x = 1; d/dx y = 0.
            Op::Var(name) => has(g, d, Op::Const(if name == wrt { ONE_BITS } else { ZERO_BITS }), seq![]),
            // d(a + b) = da + db.
            Op::Add => ins.len() == 2 && ins[0] < n && ins[1] < n && shaped(g, d, Op::Add, 2)
                && is_deriv(g, out[0] as int, ins[0] as int, wrt, minus_one) && is_deriv(
                g,
                out[1] as int,
                ins[1] as int,
                wrt,
                minus_one,
            ),
            // d(a - b) = da - db.
            Op::Sub => ins.len() == 2 && ins[0] < n && ins[1] < n && shaped(g, d, Op::Sub, 2)
                && is_deriv(g, out[0] as int, ins[0] as int, wrt, minus_one) && is_deriv(
                g,
                out[1] as int,
                ins[1] as int,
                wrt,
                minus_one,
            ),
            // d(-a) = -da.
            Op::Neg => ins.len() == 1 && ins[0] < n && shaped(g, d, Op::Neg, 1) && is_deriv(
                g,
                out[0] as int,
                ins[0] as int,
                wrt,
                minus_one,
            ),
            // Product rule: d(a*b) = da*b + a*db.
            Op::Mul => {
                let l = out[0] as int;
                let r = out[1] as int;
                ins.len() == 2 && ins[0] < n && ins[1] < n && shaped(g, d, Op::Add, 2) && shaped(
                    g,
                    l,
                    Op::Mul,
                    2,
                ) && g[l].inputs[1] == ins[1] && shaped(g, r, Op::Mul, 2) && g[r].inputs[0]
                    == ins[0] && is_deriv(g, g[l].inputs[0] as int, ins[0] as int, wrt, minus_one)
                    && is_deriv(g, g[r].inputs[1] as int, ins[1] as int, wrt, minus_one)
            },
            // Quotient rule: d(a/b) = (da*b - a*db) / b^2.
            Op::Div => {
                let num = out[0] as int;
                let den = out[1] as int;
                let nl = g[num].inputs[0] as int;
                let nr = g[num].inputs[1] as int;
                ins.len() == 2 && ins[0] < n && ins[1] < n && shaped(g, d, Op::Div, 2) && shaped(
                    g,
                    num,
                    Op::Sub,
                    2,
                ) && shaped(g, nl, Op::Mul, 2) && g[nl].inputs[1] == ins[1] && shaped(
                    g,
                    nr,
                    Op::Mul,
                    2,
                ) && g[nr].inputs[0] == ins[0] && has(g, den, Op::Pow(TWO_BITS), seq![ins[1]])
                    && is_deriv(g, g[nl].inputs[0] as int, ins[0] as int, wrt, minus_one) && is_deriv(
                    g,
                    g[nr].inputs[1] as int,
                    ins[1] as int,
                    wrt,
                    minus_one,
                )
            },
            // Power + chain: d(a^k) = k * a^(k-1) * da.
            Op::Pow(k) => {
                let outer = out[0] as int;
                let coeff = g[outer].inputs[0] as int;
                let apow = g[outer].inputs[1] as int;
                ins.len() == 1 && ins[0] < n && shaped(g, d, Op::Mul, 2) && shaped(g, outer, Op::Mul, 2)
                    && has(g, coeff, Op::Const(k), seq![]) && 0 <= apow < g.len() && g[apow].inputs
                    == seq![ins[0]] && (g[apow].op matches Op::Pow(k2) && call_ensures(
                    minus_one,
                    (k,),
                    k2,
                )) && is_deriv(g, out[1] as int, ins[0] as int, wrt, minus_one)
            },
            // Chain rule: d(sin a) = cos(a) * da.
            Op::Sin => ins.len() == 1 && ins[0] < n && shaped(g, d, Op::Mul, 2) && has(
                g,
                out[0] as int,
                Op::Cos,
                ins,
            ) && is_deriv(g, out[1] as int, ins[0] as int, wrt, minus_one),
            // Chain rule: d(cos a) = -sin(a) * da.
            Op::Cos => ins.len() == 1 && ins[0] < n && shaped(g, d, Op::Mul, 2) && shaped(
                g,
                out[0] as int,
                Op::Neg,
                1,
            ) && has(g, g[out[0] as int].inputs[0] as int, Op::Sin, ins) && is_deriv(
                g,
                out[1] as int,
                ins[0] as int,
                wrt,
                minus_one,
            ),
            // Chain rule: d(exp a) = exp(a) * da.
            Op::Exp => ins.len() == 1 && ins[0] < n && shaped(g, d, Op::Mul, 2) && has(
                g,
                out[0] as int,
                Op::Exp,
                ins,
            ) && is_deriv(g, out[1] as int, ins[0] as int, wrt, minus_one),
            // Chain rule: d(ln a) = (1/a) * da.
            Op::Ln => {
                let inv = out[0] as int;
                ins.len() == 1 && ins[0] < n && shaped(g, d, Op::Mul, 2) && shaped(g, inv, Op::Div, 2)
                    && has(g, g[inv].inputs[0] as int, Op::Const(ONE_BITS), seq![])
                    && g[inv].inputs[1] == ins[0] && is_deriv(g, out[1] as int, ins[0] as int, wrt, minus_one)
            },
        }
    }
}

/// How many nodes differentiating node `n` appends: one per node the
/// textbook rule for its op builds, plus those of its operands' derivatives.
pub open spec fn deriv_size(g: Seq<NodeView>, n: int) -> nat
    decreases n,
{
    if !(0 <= n < g.len()) {
        0
    } else {
        let ins = g[n].inputs;
        let s0 = if ins.len() >= 1 && ins[0] < n { deriv_size(g, ins[0] as int) } else { 0 };
        let s1 = if ins.len() >= 2 && ins[1] < n { deriv_size(g, ins[1] as int) } else { 0 };
        match g[n].op {
            Op::Const(_) | Op::Var(_) => 1,
            Op::Add | Op::Sub => s0 + s1 + 1,
            Op::Neg => s0 + 1,
            Op::Mul => s0 + s1 + 3,
            Op::Div => s0 + s1 + 5,
            Op::Pow(_) => s0 + 4,
            Op::Sin | Op::Exp => s0 + 2,
            Op::Cos | Op::Ln => s0 + 3,
        }
    }
}

/// Appending nodes keeps every node's derivative size.
proof fn lemma_deriv_size_extend(g: Seq<NodeView>, h: Seq<NodeView>, n: int)
    requires
        extends(g, h),
        0 <= n < g.len(),
    ensures
        deriv_size(h, n) == deriv_size(g, n),
    decreases n,
{
    assert(h[n] == g[n]);
    let ins = g[n].inputs;
    if ins.len() >= 1 && ins[0] < n {
        lemma_deriv_size_extend(g, h, ins[0] as int);
    }
    if ins.len() >= 2 && ins[1] < n {
        lemma_deriv_size_extend(g, h, ins[1] as int);
    }
}

/// Appending nodes keeps every derivative relation.
pub proof fn lemma_is_deriv_extend<F: Fn(u64) -> u64>(
    g: Seq<NodeView>,
    h: Seq<NodeView>,
    d: int,
    n: int,
    wrt: Seq<char>,
    minus_one: F,
)
    requires
        extends(g, h),
        is_deriv(g, d, n, wrt, minus_one),
    ensures
        is_deriv(h, d, n, wrt, minus_one),
    decreases n,
{
    let ins = g[n].inputs;
    let out = g[d].inputs;
    assert(h[n] == g[n]);
    assert(h[d] == g[d]);
    match g[n].op {
        Op::Add | Op::Sub => {
            lemma_is_deriv_extend(g, h, out[0] as int, ins[0] as int, wrt, minus_one);
            lemma_is_deriv_extend(g, h, out[1] as int, ins[1] as int, wrt, minus_one);
        },
        Op::Neg => {
            lemma_is_deriv_extend(g, h, out[0] as int, ins[0] as int, wrt, minus_one);
        },
        Op::Mul => {
            let l = out[0] as int;
            let r = out[1] as int;
            assert(h[l] == g[l]);
            assert(h[r] == g[r]);
            lemma_is_deriv_extend(g, h, g[l].inputs[0] as int, ins[0] as int, wrt, minus_one);
            lemma_is_deriv_extend(g, h, g[r].inputs[1] as int, ins[1] as int, wrt, minus_one);
        },
        Op::Div => {
            let num = out[0] as int;
            let den = out[1] as int;
            assert(h[num] == g[num]);
            assert(h[den] == g[den]);
            let nl = g[num].inputs[0] as int;
            let nr = g[num].inputs[1] as int;
            assert(h[nl] == g[nl]);
            assert(h[nr] == g[nr]);
            lemma_is_deriv_extend(g, h, g[nl].inputs[0] as int, ins[0] as int, wrt, minus_one);
            lemma_is_deriv_extend(g, h, g[nr].inputs[1] as int, ins[1] as int, wrt, minus_one);
        },
        Op::Pow(_) => {
            let outer = out[0] as int;
            assert(h[outer] == g[outer]);
            assert(h[g[outer].inputs[0] as int] == g[g[outer].inputs[0] as int]);
            assert(h[g[outer].inputs[1] as int] == g[g[outer].inputs[1] as int]);
            lemma_is_deriv_extend(g, h, out[1] as int, ins[0] as int, wrt, minus_one);
        },
        Op::Sin | Op::Exp => {
            assert(h[out[0] as int] == g[out[0] as int]);
            lemma_is_deriv_extend(g, h, out[1] as int, ins[0] as int, wrt, minus_one);
        },
        Op::Cos => {
            assert(h[out[0] as int] == g[out[0] as int]);
            assert(h[g[out[0] as int].inputs[0] as int] == g[g[out[0] as int].inputs[0] as int]);
            lemma_is_deriv_extend(g, h, out[1] as int, ins[0] as int, wrt, minus_one);
        },
        Op::Ln => {
            let inv = out[0] as int;
            assert(h[inv] == g[inv]);
            assert(h[g[inv].inputs[0] as int] == g[g[inv].inputs[0] as int]);
            lemma_is_deriv_extend(g, h, out[1] as int, ins[0] as int, wrt, minus_one);
        },
        _ => {},
    }
}

impl Graph {
    /// Build a new subgraph computing `d(node)/d(wrt)` and return its root,
    /// the last node. Existing nodes are left untouched.
    #[verifier::rlimit(40)]
    #[verifier::spinoff_prover]
    pub fn diff<F: Fn(u64) -> u64>(&mut self, node: usize, wrt: &str, minus_one: &F) -> (d: usize)
        requires
            old(self).wf(),
            node < old(self)@.len(),
            forall|k: u64| minus_one.requires((k,)),
        ensures
            final(self).wf(),
            extends(old(self)@, final(self)@),
            final(self)@.len() == old(self)@.len() + deriv_size(old(self)@, node as int),
            d == final(self)@.len() - 1,
            is_deriv(final(self)@, d as int, node as int, wrt@, *minus_one),
        decreases node,
    {
        let ghost g0 = self@;
        proof {
            assert(node_ok(g0, node as int));
        }
        let op = self.nodes[node].op.duplicate();
        let ins = self.nodes[node].inputs.clone();
        proof {
            assert(ins@ == g0[node as int].inputs);
        }
        match op {
            OpType::Const(_) => self.constant(ZERO_BITS),
            OpType::Var(name) => {
                let is_wrt = name.eq(&text(wrt));
                self.constant(if is_wrt { ONE_BITS } else { ZERO_BITS })
            },
            OpType::Add | OpType::Sub => {
                let da = self.diff(ins[0], wrt, minus_one);
                let ghost g1 = self@;
                let db = self.diff(ins[1], wrt, minus_one);
                let ghost g2 = self@;
                let d = if matches!(op, OpType::Add) { self.add(da, db) } else { self.sub(da, db) };
                proof {
                    lemma_deriv_size_extend(g0, g1, ins@[1] as int);
                    lemma_is_deriv_extend(g1, g2, da as int, ins@[0] as int, wrt@, *minus_one);
                    lemma_is_deriv_extend(g2, self@, da as int, ins@[0] as int, wrt@, *minus_one);
                    lemma_is_deriv_extend(g2, self@, db as int, ins@[1] as int, wrt@, *minus_one);
                }
                d
            },
            OpType::Neg => {
                let da = self.diff(ins[0], wrt, minus_one);
                let ghost g1 = self@;
                let d = self.neg(da);
                proof {
                    lemma_is_deriv_extend(g1, self@, da as int, ins@[0] as int, wrt@, *minus_one);
                }
                d
            },
            OpType::Mul => {
                let (a, b) = (ins[0], ins[1]);
                let da = self.diff(a, wrt, minus_one);
                let ghost g1 = self@;
                let db = self.diff(b, wrt, minus_one);
                let ghost g2 = self@;
                let left = self.mul(da, b);
                let right = self.mul(a, db);
                let d = self.add(left, right);
                proof {
                    lemma_deriv_size_extend(g0, g1, b as int);
                    lemma_is_deriv_extend(g1, g2, da as int, a as int, wrt@, *minus_one);
                    lemma_is_deriv_extend(g2, self@, da as int, a as int, wrt@, *minus_one);
                    lemma_is_deriv_extend(g2, self@, db as int, b as int, wrt@, *minus_one);
                }
                d
            },
            OpType::Div => {
                let (a, b) = (ins[0], ins[1]);
                let da = self.diff(a, wrt, minus_one);
                let ghost g1 = self@;
                let db = self.diff(b, wrt, minus_one);
                let ghost g2 = self@;
                let num_left = self.mul(da, b);
                let num_right = self.mul(a, db);
                let num = self.sub(num_left, num_right);
                let den = self.pow(b, TWO_BITS);
                let d = self.div(num, den);
                proof {
                    lemma_deriv_size_extend(g0, g1, b as int);
                    lemma_is_deriv_extend(g1, g2, da as int, a as int, wrt@, *minus_one);
                    lemma_is_deriv_extend(g2, self@, da as int, a as int, wrt@, *minus_one);
                    lemma_is_deriv_extend(g2, self@, db as int, b as int, wrt@, *minus_one);
                }
                d
            },
            OpType::Pow(k) => {
                let a = ins[0];
                let da = self.diff(a, wrt, minus_one);
                let ghost g1 = self@;
                let coeff = self.constant(k);
                let k2 = minus_one(k);
                let a_pow = self.pow(a, k2);
                let outer = self.mul(coeff, a_pow);
                let d = self.mul(outer, da);
                proof {
                    lemma_is_deriv_extend(g1, self@, da as int, a as int, wrt@, *minus_one);
                }
                d
            },
            OpType::Sin | OpType::Cos | OpType::Exp => {
                let a = ins[0];
                let da = self.diff(a, wrt, minus_one);
                let ghost g1 = self@;
                let fa = if matches!(op, OpType::Sin) {
                    self.cos(a)
                } else if matches!(op, OpType::Cos) {
                    let sa = self.sin(a);
                    self.neg(sa)
                } else {
                    self.exp(a)
                };
                let d = self.mul(fa, da);
                proof {
                    lemma_is_deriv_extend(g1, self@, da as int, a as int, wrt@, *minus_one);
                    assert(ins@ =~= seq![a]);
                }
                d
            },
            OpType::Ln => {
                let a = ins[0];
                let da = self.diff(a, wrt, minus_one);
                let ghost g1 = self@;
                let one = self.constant(ONE_BITS);
                let inv = self.div(one, a);
                let d = self.mul(inv, da);
                proof {
                    lemma_is_deriv_extend(g1, self@, da as int, a as int, wrt@, *minus_one);
                }
                d
            },
        }
    }
}

} // verus!
