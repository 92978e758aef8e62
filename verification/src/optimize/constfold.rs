//! Constant folding: evaluate all-constant subgraphs ahead of time.
//!
//! When every input of a node is a `Const`, its value is fixed, so the node is
//! replaced with a single `Const`. One forward sweep suffices (index order is
//! topological), so a folded constant is visible to its consumers in the same
//! pass. Folding rewrites in place and does not compact; the former inputs
//! become unreachable and are reclaimed by dead-node elimination.
//!
//! The value of an operator on constant operands is the caller's `eval`, the
//! same scalar semantics the forward pass uses (given the op and the operands'
//! bit patterns, the second `0` for a unary op). It answers an error when
//! evaluation would fail a domain check (division by zero, `ln` of a
//! non-positive value, `pow` of a negative base to a fractional power); such a
//! node is left untouched so the error still surfaces at real evaluation time.

use vstd::prelude::*;
use crate::error::EngineError;
use crate::graph::arena::Graph;
use crate::graph::node::{Node, NodeView, Op, OpType};
use crate::graph::topo::{wf_nodes, node_ok};
use crate::autodiff::forward::{evaluates, operands, steps_to};

verus! {

/// The operand bit patterns of a node whose inputs (in `h`) are all
/// constants: the second is `0` for a single input.
pub open spec fn const_args(h: Seq<Node>, ins: Seq<usize>) -> Option<(u64, u64)> {
    if ins.len() == 1 {
        match h[ins[0] as int].op {
            OpType::Const(a) => Some((a, 0u64)),
            _ => None,
        }
    } else if ins.len() == 2 {
        match (h[ins[0] as int].op, h[ins[1] as int].op) {
            (OpType::Const(a), OpType::Const(b)) => Some((a, b)),
            _ => None,
        }
    } else {
        None
    }
}

/// Node `i` of the folded arena `h`, given the nodes `g` before folding: an
/// operator whose inputs are all constants (after folding) becomes `Const(c)`
/// for a value `c` that `eval` may give, and stays as it was when `eval` may
/// answer an error; every other node stays as it was.
pub open spec fn folds<F: Fn(&OpType, u64, u64) -> Result<u64, EngineError>>(
    g: Seq<Node>,
    h: Seq<Node>,
    eval: F,
    i: int,
) -> bool {
    let ins = g[i]@.inputs;
    if ins.len() == 0 {
        h[i] == g[i]
    } else {
        match const_args(h, ins) {
            None => h[i] == g[i],
            Some((a, b)) => {
                ||| h[i] == g[i] && exists|e: EngineError| #[trigger] call_ensures(eval, (&g[i].op, a, b), Err::<u64, EngineError>(e))
                ||| h[i]@.inputs.len() == 0 && (h[i].op matches OpType::Const(c) && call_ensures(eval, (&g[i].op, a, b), Ok::<u64, EngineError>(c)))
            },
        }
    }
}

/// How many of the first `i` nodes were operators and are constants now.
pub open spec fn folded_count(g: Seq<NodeView>, h: Seq<NodeView>, i: int) -> nat
    decreases i,
{
    if i <= 0 {
        0
    } else {
        folded_count(g, h, i - 1) + if g[i - 1].inputs.len() > 0 && h[i - 1].inputs.len() == 0 {
            1nat
        } else {
            0nat
        }
    }
}

proof fn lemma_folded_count_prefix(g: Seq<NodeView>, h1: Seq<NodeView>, h2: Seq<NodeView>, i: int)
    requires
        0 <= i <= h1.len(),
        i <= h2.len(),
        forall|k: int| 0 <= k < i ==> h1[k] == h2[k],
    ensures
        folded_count(g, h1, i) == folded_count(g, h2, i),
    decreases i,
{
    if i > 0 {
        lemma_folded_count_prefix(g, h1, h2, i - 1);
    }
}

/// `eval` answers each question one way: the same op and operands always give
/// the same result.
pub open spec fn deterministic<F: Fn(&OpType, u64, u64) -> Result<u64, EngineError>>(eval: F) -> bool {
    forall|op: &OpType, a: u64, b: u64, r1: Result<u64, EngineError>, r2: Result<u64, EngineError>|
        #![trigger call_ensures(eval, (op, a, b), r1), call_ensures(eval, (op, a, b), r2)]
        call_ensures(eval, (op, a, b), r1) && call_ensures(eval, (op, a, b), r2) ==> r1 == r2
}

/// The first `i` values are steps both in `g` and in `h`.
spec fn agree_upto<L: Fn(&String) -> Option<u64>, F: Fn(&OpType, u64, u64) -> Result<u64, EngineError>>(
    g: Seq<Node>,
    h: Seq<Node>,
    lookup: L,
    eval: F,
    vals: Seq<u64>,
    i: int,
) -> bool {
    forall|k: int| #![trigger steps_to(g, lookup, eval, vals, k)] 0 <= k < i ==> steps_to(g, lookup, eval, vals, k) && steps_to(h, lookup, eval, vals, k)
}

proof fn lemma_fold_step<L: Fn(&String) -> Option<u64>, F: Fn(&OpType, u64, u64) -> Result<u64, EngineError>>(
    g: Seq<Node>,
    h: Seq<Node>,
    lookup: L,
    eval: F,
    vals: Seq<u64>,
    i: int,
)
    requires
        wf_nodes(g.map_values(|n: Node| n@)),
        h.len() == g.len(),
        forall|k: int| 0 <= k < g.len() ==> #[trigger] folds(g, h, eval, k),
        deterministic(eval),
        vals.len() == g.len(),
        0 <= i < g.len(),
        agree_upto(g, h, lookup, eval, vals, i),
    ensures
        steps_to(g, lookup, eval, vals, i) <==> steps_to(h, lookup, eval, vals, i),
{
    let gv = g.map_values(|n: Node| n@);
    assert(node_ok(gv, i));
    assert(gv[i] == g[i]@);
    assert(folds(g, h, eval, i));
    let ins = g[i]@.inputs;
    if h[i] != g[i] {
        assert(gv[i].inputs[0] < i);
        if ins.len() == 2 {
            assert(gv[i].inputs[1] < i);
        }
        let (a, b) = const_args(h, ins)->0;
        let x0 = ins[0] as int;
        assert(0 <= x0 < i);
        assert(agree_upto(g, h, lookup, eval, vals, i));
        assert(steps_to(g, lookup, eval, vals, x0));
        assert(steps_to(g, lookup, eval, vals, ins[0] as int) && steps_to(h, lookup, eval, vals, ins[0] as int));
        if ins.len() == 2 {
            let x1 = ins[1] as int;
            assert(0 <= x1 < i);
            assert(steps_to(g, lookup, eval, vals, x1));
            assert(steps_to(g, lookup, eval, vals, ins[1] as int) && steps_to(h, lookup, eval, vals, ins[1] as int));
        }
        assert(operands(g[i]@, vals) == (a, b));
        let c = h[i].op->Const_0;
        assert(call_ensures(eval, (&g[i].op, a, b), Ok::<u64, EngineError>(c)));
        if steps_to(g, lookup, eval, vals, i) {
            assert(call_ensures(eval, (&g[i].op, a, b), Ok::<u64, EngineError>(vals[i])));
        }
    }
}

proof fn lemma_fold_prefix<L: Fn(&String) -> Option<u64>, F: Fn(&OpType, u64, u64) -> Result<u64, EngineError>>(
    g: Seq<Node>,
    h: Seq<Node>,
    lookup: L,
    eval: F,
    vals: Seq<u64>,
    i: int,
)
    requires
        wf_nodes(g.map_values(|n: Node| n@)),
        h.len() == g.len(),
        forall|k: int| 0 <= k < g.len() ==> #[trigger] folds(g, h, eval, k),
        deterministic(eval),
        0 <= i <= g.len(),
        evaluates(g, lookup, eval, vals) || evaluates(h, lookup, eval, vals),
    ensures
        agree_upto(g, h, lookup, eval, vals, i),
    decreases i,
{
    if i > 0 {
        lemma_fold_prefix(g, h, lookup, eval, vals, i - 1);
        assert(vals.len() == g.len());
        lemma_fold_step(g, h, lookup, eval, vals, i - 1);
        assert(steps_to(g, lookup, eval, vals, i - 1) || steps_to(h, lookup, eval, vals, i - 1));
        assert(steps_to(g, lookup, eval, vals, i - 1) && steps_to(h, lookup, eval, vals, i - 1));
        assert forall|k: int| 0 <= k < i implies #[trigger] steps_to(g, lookup, eval, vals, k) && steps_to(h, lookup, eval, vals, k) by {
            if k < i - 1 {
                assert(agree_upto(g, h, lookup, eval, vals, i - 1));
            }
        }
    }
}

/// Constant folding does not change what the graph evaluates to: for a
/// deterministic `eval`, the folded arena admits exactly the node values the
/// unfolded one does.
pub proof fn lemma_fold_preserves_values<L: Fn(&String) -> Option<u64>, F: Fn(&OpType, u64, u64) -> Result<u64, EngineError>>(
    g: Seq<Node>,
    h: Seq<Node>,
    lookup: L,
    eval: F,
    vals: Seq<u64>,
)
    requires
        wf_nodes(g.map_values(|n: Node| n@)),
        h.len() == g.len(),
        forall|k: int| 0 <= k < g.len() ==> #[trigger] folds(g, h, eval, k),
        deterministic(eval),
    ensures
        evaluates(g, lookup, eval, vals) <==> evaluates(h, lookup, eval, vals),
{
    if evaluates(g, lookup, eval, vals) || evaluates(h, lookup, eval, vals) {
        lemma_fold_prefix(g, h, lookup, eval, vals, g.len() as int);
        assert(vals.len() == g.len());
        assert forall|k: int| 0 <= k < g.len() implies #[trigger] steps_to(g, lookup, eval, vals, k) by {
            assert(steps_to(g, lookup, eval, vals, k) && steps_to(h, lookup, eval, vals, k));
        }
        assert forall|k: int| 0 <= k < h.len() implies #[trigger] steps_to(h, lookup, eval, vals, k) by {
            assert(steps_to(g, lookup, eval, vals, k) && steps_to(h, lookup, eval, vals, k));
        }
    }
}

impl Graph {
    /// Fold every all-constant node into a single `Const` in one topological
    /// sweep, in place, and return the number of nodes folded.
    pub fn const_fold<F: Fn(&OpType, u64, u64) -> Result<u64, EngineError>>(&mut self, eval: &F) -> (count: usize)
        requires
            old(self).wf(),
            forall|op: &OpType, a: u64, b: u64| eval.requires((op, a, b)),
        ensures
            final(self).wf(),
            final(self)@.len() == old(self)@.len(),
            forall|i: int| 0 <= i < old(self)@.len() ==> #[trigger] folds(old(self).nodes@, final(self).nodes@, *eval, i),
            count == folded_count(old(self)@, final(self)@, old(self)@.len() as int),
    {
        let ghost g = self.nodes@;
        let ghost gv = self@;
        let n = self.nodes.len();
        let mut count: usize = 0;
        let mut i: usize = 0;
        while i < n
            invariant
                n == g.len(),
                gv == g.map_values(|x: Node| x@),
                wf_nodes(gv),
                wf_nodes(self@),
                i <= n,
                self.nodes@.len() == n,
                forall|k: int| i <= k < n ==> #[trigger] self.nodes@[k] == g[k],
                forall|k: int| 0 <= k < i ==> #[trigger] folds(g, self.nodes@, *eval, k),
                forall|e: int| 0 <= e < n ==> #[trigger] self@[e].inputs.len() == 0 || self@[e] == gv[e],
                count == folded_count(gv, self@, i as int),
                count <= i,
                forall|op: &OpType, a: u64, b: u64| eval.requires((op, a, b)),
            decreases n - i,
        {
            let ghost before = self@;
            let ghost before_nodes = self.nodes@;
            proof {
                assert(self.nodes@[i as int] == g[i as int]);
                assert(node_ok(gv, i as int));
                assert(node_ok(before, i as int));
            }
            let m = self.nodes[i].inputs.len();
            if m > 0 {
                // Collect the operands' values if every input is a constant.
                let x0 = self.nodes[i].inputs[0];
                let mut all = true;
                let mut a: u64 = 0;
                let mut b: u64 = 0;
                match &self.nodes[x0].op {
                    OpType::Const(c) => {
                        a = *c;
                    },
                    _ => {
                        all = false;
                    },
                }
                if m == 2 {
                    let x1 = self.nodes[i].inputs[1];
                    match &self.nodes[x1].op {
                        OpType::Const(c) => {
                            b = *c;
                        },
                        _ => {
                            all = false;
                        },
                    }
                }
                proof {
                    assert(all ==> const_args(before_nodes, g[i as int]@.inputs) == Some((a, b)));
                    assert(!all ==> const_args(before_nodes, g[i as int]@.inputs) is None);
                }
                if all {
                    let r = eval(&self.nodes[i].op, a, b);
                    proof {
                        if r is Err {
                            assert(call_ensures(*eval, (&g[i as int].op, a, b), Err::<u64, EngineError>(r->Err_0)));
                        }
                    }
                    match r {
                        Ok(v) => {
                            self.nodes.set(i, Node { op: OpType::Const(v), inputs: Vec::new() });
                            count = count + 1;
                        },
                        Err(_) => {},
                    }
                }
            }
            proof {
                let h = self@;
                let hn = self.nodes@;
                assert(h =~= before.update(i as int, h[i as int]));
                assert(hn =~= before_nodes.update(i as int, hn[i as int]));
                assert forall|k: int| 0 <= k < i implies #[trigger] folds(g, hn, *eval, k) by {
                    assert(folds(g, before_nodes, *eval, k));
                    assert(node_ok(gv, k));
                    assert(hn[k] == before_nodes[k]);
                    let ins = g[k]@.inputs;
                    if ins.len() >= 1 {
                        assert(hn[ins[0] as int] == before_nodes[ins[0] as int]);
                    }
                    if ins.len() == 2 {
                        assert(hn[ins[1] as int] == before_nodes[ins[1] as int]);
                    }
                }
                assert(folds(g, hn, *eval, i as int));
                lemma_folded_count_prefix(gv, before, h, i as int);
                assert(folded_count(gv, h, i as int + 1) == folded_count(gv, h, i as int) + if gv[i as int].inputs.len() > 0 && h[i as int].inputs.len() == 0 { 1nat } else { 0nat });
                assert forall|p: int| 0 <= p < h.len() implies #[trigger] node_ok(h, p) by {
                    assert(node_ok(before, p));
                }
                assert forall|e: int| 0 <= e < n implies #[trigger] h[e].inputs.len() == 0 || h[e] == gv[e] by {
                    if e != i {
                        assert(before[e].inputs.len() == 0 || before[e] == gv[e]);
                    }
                }
            }
            i = i + 1;
        }
        count
    }
}

} // verus!
