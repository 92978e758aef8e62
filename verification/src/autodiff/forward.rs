//! Forward evaluation over the arena.
//!
//! Computes every node's value by walking the arena in index order (a
//! topological order) and reading each node's inputs' already-computed values.
//! A variable's value comes from the caller's `lookup`; an operator's value
//! comes from the caller's `eval`, the same scalar semantics constant folding
//! uses, given the op and its operands' bit patterns (the second `0` for a
//! unary op). Domain failures are returned as [`EngineError`]: an unknown
//! variable, or whatever `eval` rejects.

use vstd::prelude::*;
use crate::error::EngineError;
use crate::graph::arena::Graph;
use crate::graph::node::{Node, NodeView, OpType};
use crate::graph::topo::node_ok;

verus! {

/// The operand values of node `n`, given the values of earlier nodes: the
/// second is `0` for a single input.
pub open spec fn operands(n: NodeView, vals: Seq<u64>) -> (u64, u64) {
    (vals[n.inputs[0] as int], if n.inputs.len() == 2 { vals[n.inputs[1] as int] } else { 0u64 })
}

/// `vals[i]` is a value node `i` may take, given the values of its inputs: a
/// constant is its own value, a variable's is what `lookup` may answer for
/// its name, an operator's is what `eval` may answer for its operands.
pub open spec fn steps_to<L: Fn(&String) -> Option<u64>, F: Fn(&OpType, u64, u64) -> Result<u64, EngineError>>(
    g: Seq<Node>,
    lookup: L,
    eval: F,
    vals: Seq<u64>,
    i: int,
) -> bool {
    match g[i].op {
        OpType::Const(c) => vals[i] == c,
        OpType::Var(name) => call_ensures(lookup, (&name,), Some(vals[i])),
        _ => {
            let (a, b) = operands(g[i]@, vals);
            call_ensures(eval, (&g[i].op, a, b), Ok(vals[i]))
        },
    }
}

/// `vals` holds a value for every node of `g`, each one a step from its inputs.
pub open spec fn evaluates<L: Fn(&String) -> Option<u64>, F: Fn(&OpType, u64, u64) -> Result<u64, EngineError>>(
    g: Seq<Node>,
    lookup: L,
    eval: F,
    vals: Seq<u64>,
) -> bool {
    &&& vals.len() == g.len()
    &&& forall|i: int| 0 <= i < g.len() ==> #[trigger] steps_to(g, lookup, eval, vals, i)
}

/// Node `i` cannot be evaluated from the values `vals` of the nodes before it,
/// and `e` is the error it reports: an unknown variable by its name, or what
/// `eval` may reject the operands with.
pub open spec fn fails_at<L: Fn(&String) -> Option<u64>, F: Fn(&OpType, u64, u64) -> Result<u64, EngineError>>(
    g: Seq<Node>,
    lookup: L,
    eval: F,
    vals: Seq<u64>,
    i: int,
    e: EngineError,
) -> bool {
    match g[i].op {
        OpType::Const(_) => false,
        OpType::Var(name) => call_ensures(lookup, (&name,), None::<u64>) && e == EngineError::UnknownVariable(name),
        _ => {
            let (a, b) = operands(g[i]@, vals);
            call_ensures(eval, (&g[i].op, a, b), Err::<u64, EngineError>(e))
        },
    }
}

/// What evaluating `g` may give: a value for every node, or the error of the
/// first node that cannot be evaluated from the values before it.
pub open spec fn runs<L: Fn(&String) -> Option<u64>, F: Fn(&OpType, u64, u64) -> Result<u64, EngineError>>(
    g: Seq<Node>,
    lookup: L,
    eval: F,
    r: Result<Seq<u64>, EngineError>,
) -> bool {
    match r {
        Ok(vals) => evaluates(g, lookup, eval, vals),
        Err(e) => exists|i: int, vals: Seq<u64>|
            0 <= i < g.len() && vals.len() == i && (forall|k: int|
                0 <= k < i ==> #[trigger] steps_to(g, lookup, eval, vals, k)) && #[trigger] fails_at(
                g,
                lookup,
                eval,
                vals,
                i,
                e,
            ),
    }
}

impl Graph {
    /// Evaluate every node in topological order and return all their values;
    /// the output's value is the last. Stops at the first node that cannot be
    /// evaluated and returns its error.
    pub fn forward<L: Fn(&String) -> Option<u64>, F: Fn(&OpType, u64, u64) -> Result<u64, EngineError>>(
        &self,
        lookup: &L,
        eval: &F,
    ) -> (r: Result<Vec<u64>, EngineError>)
        requires
            self.wf(),
            forall|name: &String| lookup.requires((name,)),
            forall|op: &OpType, a: u64, b: u64| eval.requires((op, a, b)),
        ensures
            runs(
                self.nodes@,
                *lookup,
                *eval,
                match r {
                    Ok(vals) => Ok(vals@),
                    Err(e) => Err(e),
                },
            ),
    {
        let ghost g = self.nodes@;
        let n = self.nodes.len();
        let mut vals: Vec<u64> = Vec::new();
        let mut i: usize = 0;
        while i < n
            invariant
                g == self.nodes@,
                self.wf(),
                n == g.len(),
                i <= n,
                vals@.len() == i,
                forall|k: int| 0 <= k < i ==> #[trigger] steps_to(g, *lookup, *eval, vals@, k),
                forall|name: &String| lookup.requires((name,)),
                forall|op: &OpType, a: u64, b: u64| eval.requires((op, a, b)),
            decreases n - i,
        {
            proof {
                assert(node_ok(self@, i as int));
                assert(self@[i as int] == g[i as int]@);
            }
            let ghost before = vals@;
            let v: u64 = match &self.nodes[i].op {
                OpType::Const(c) => *c,
                OpType::Var(name) => {
                    match lookup(name) {
                        Some(x) => x,
                        None => {
                            let e = EngineError::UnknownVariable(name.clone());
                            proof {
                                assert(fails_at(g, *lookup, *eval, before, i as int, e));
                            }
                            return Err(e);
                        },
                    }
                },
                op => {
                    let ins = &self.nodes[i].inputs;
                    let a = vals[ins[0]];
                    let b = if ins.len() == 2 { vals[ins[1]] } else { 0 };
                    proof {
                        assert((a, b) == operands(g[i as int]@, before));
                    }
                    match eval(op, a, b) {
                        Ok(x) => x,
                        Err(e) => {
                            proof {
                                assert(fails_at(g, *lookup, *eval, before, i as int, e));
                            }
                            return Err(e);
                        },
                    }
                },
            };
            vals.push(v);
            proof {
                assert forall|k: int| 0 <= k <= i implies #[trigger] steps_to(g, *lookup, *eval, vals@, k) by {
                    assert(node_ok(self@, k));
                    assert(self@[k] == g[k]@);
                    let ins = g[k]@.inputs;
                    if ins.len() >= 1 {
                        assert(vals@[ins[0] as int] == before[ins[0] as int]);
                        if ins.len() == 2 {
                            assert(vals@[ins[1] as int] == before[ins[1] as int]);
                        }
                        assert(operands(g[k]@, vals@) == operands(g[k]@, before));
                    }
                    if k < i {
                        assert(steps_to(g, *lookup, *eval, before, k));
                    }
                }
            }
            i = i + 1;
        }
        Ok(vals)
    }
}

} // verus!
