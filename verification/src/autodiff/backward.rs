//! Reverse-mode differentiation over the arena.
//!
//! After a forward pass has given every node its value, the sweep seeds the
//! output's adjoint with `1` (every other with `0`) and walks the nodes in
//! reverse index order, a reverse topological order, pushing each operator's
//! local derivative into its inputs' adjoints. Contributions accumulate, so a
//! node shared by several consumers sums every path; each variable node then
//! holds its partial derivative.
//!
//! The arithmetic is the caller's: `partials` gives, for an operator, its
//! adjoint and its operands' values, the contributions to its first and second
//! input (or the error when the derivative is undefined there, such as
//! `pow(0, k)` with `k < 1`), and `acc` adds a contribution to an adjoint. All
//! numbers are `f64` bit patterns.

use vstd::prelude::*;
use crate::autodiff::forward::operands;
use crate::autodiff::symbolic::{ONE_BITS, ZERO_BITS};
use crate::error::EngineError;
use crate::graph::arena::Graph;
use crate::graph::node::{Node, NodeView, Op, OpType};
use crate::graph::topo::node_ok;

verus! {

/// The adjoints before the sweep: `1` at the output, `0` everywhere else.
pub open spec fn seed(n: nat, output: int) -> Seq<u64> {
    Seq::new(n, |k: int| if k == output { ONE_BITS } else { ZERO_BITS })
}

/// `after` is `before` with the contributions `ca` and `cb` added, through
/// `acc`, to the adjoints of the inputs `ins` in order (`cb` only when there
/// is a second input; it sees the first addition when both inputs are one
/// node).
pub open spec fn accumulates<A: Fn(u64, u64) -> u64>(
    acc: A,
    before: Seq<u64>,
    ins: Seq<usize>,
    ca: u64,
    cb: u64,
    after: Seq<u64>,
) -> bool {
    let a = ins[0] as int;
    if ins.len() == 1 {
        exists|x: u64| #[trigger] call_ensures(acc, (before[a], ca), x) && after == before.update(a, x)
    } else {
        let b = ins[1] as int;
        exists|x: u64, y: u64|
            #![trigger call_ensures(acc, (before[a], ca), x), call_ensures(acc, (before.update(a, x)[b], cb), y)]
            call_ensures(acc, (before[a], ca), x) && call_ensures(acc, (before.update(a, x)[b], cb), y)
                && after == before.update(a, x).update(b, y)
    }
}

/// One step of the sweep at node `i`: a leaf leaves the adjoints as they are;
/// an operator pushes the contributions `partials` may give for its adjoint
/// and operand values into its inputs.
pub open spec fn pushes<P: Fn(&OpType, u64, u64, u64) -> Result<(u64, u64), EngineError>, A: Fn(u64, u64) -> u64>(
    g: Seq<Node>,
    values: Seq<u64>,
    partials: P,
    acc: A,
    i: int,
    before: Seq<u64>,
    after: Seq<u64>,
) -> bool {
    let ins = g[i]@.inputs;
    if ins.len() == 0 {
        after == before
    } else {
        let (av, bv) = operands(g[i]@, values);
        exists|ca: u64, cb: u64|
            #[trigger] call_ensures(partials, (&g[i].op, before[i], av, bv), Ok::<(u64, u64), EngineError>((ca, cb)))
                && accumulates(acc, before, ins, ca, cb, after)
    }
}

/// The sweep stops at node `i`: `partials` may reject it with `e`.
pub open spec fn rejects<P: Fn(&OpType, u64, u64, u64) -> Result<(u64, u64), EngineError>>(
    g: Seq<Node>,
    values: Seq<u64>,
    partials: P,
    i: int,
    adj: Seq<u64>,
    e: EngineError,
) -> bool {
    let (av, bv) = operands(g[i]@, values);
    g[i]@.inputs.len() > 0 && call_ensures(partials, (&g[i].op, adj[i], av, bv), Err::<(u64, u64), EngineError>(e))
}

/// `trail[j]` is the adjoints after the first `j` steps of the sweep, the
/// `j`-th step being at node `n - 1 - j`; it starts at the seed.
pub open spec fn sweeps<P: Fn(&OpType, u64, u64, u64) -> Result<(u64, u64), EngineError>, A: Fn(u64, u64) -> u64>(
    g: Seq<Node>,
    values: Seq<u64>,
    partials: P,
    acc: A,
    output: int,
    trail: Seq<Seq<u64>>,
) -> bool {
    let n = g.len();
    &&& 1 <= trail.len() <= n + 1
    &&& trail[0] == seed(n, output)
    &&& forall|j: int|
        0 <= j < trail.len() - 1 ==> #[trigger] pushes(g, values, partials, acc, n - 1 - j, trail[j], trail[j + 1])
}

/// What the sweep from `output` may give: every adjoint after all `n` steps,
/// or the error of the first node that rejects.
pub open spec fn backprop<P: Fn(&OpType, u64, u64, u64) -> Result<(u64, u64), EngineError>, A: Fn(u64, u64) -> u64>(
    g: Seq<Node>,
    values: Seq<u64>,
    partials: P,
    acc: A,
    output: int,
    r: Result<Seq<u64>, EngineError>,
) -> bool {
    match r {
        Ok(adj) => exists|trail: Seq<Seq<u64>>|
            #[trigger] sweeps(g, values, partials, acc, output, trail) && trail.len() == g.len() + 1 && adj
                == trail.last(),
        Err(e) => exists|trail: Seq<Seq<u64>>|
            #[trigger] sweeps(g, values, partials, acc, output, trail) && trail.len() <= g.len() && rejects(
                g,
                values,
                partials,
                g.len() - trail.len(),
                trail.last(),
                e,
            ),
    }
}

/// The variable nodes among the first `i` nodes, in index order, each by its
/// name with its adjoint.
pub open spec fn var_entries(g: Seq<NodeView>, adj: Seq<u64>, i: int) -> Seq<(Seq<char>, u64)>
    decreases i,
{
    if i <= 0 {
        Seq::empty()
    } else {
        let rest = var_entries(g, adj, i - 1);
        match g[i - 1].op {
            Op::Var(name) => rest.push((name, adj[i - 1])),
            _ => rest,
        }
    }
}

impl Graph {
    /// Sweep the adjoints back from `output`, given every node's value, and
    /// return every node's adjoint.
    pub fn backward<P: Fn(&OpType, u64, u64, u64) -> Result<(u64, u64), EngineError>, A: Fn(u64, u64) -> u64>(
        &self,
        output: usize,
        values: &Vec<u64>,
        partials: &P,
        acc: &A,
    ) -> (r: Result<Vec<u64>, EngineError>)
        requires
            self.wf(),
            output < self@.len(),
            values@.len() == self@.len(),
            forall|op: &OpType, g: u64, a: u64, b: u64| partials.requires((op, g, a, b)),
            forall|x: u64, c: u64| acc.requires((x, c)),
        ensures
            backprop(
                self.nodes@,
                values@,
                *partials,
                *acc,
                output as int,
                match r {
                    Ok(adj) => Ok(adj@),
                    Err(e) => Err(e),
                },
            ),
            r matches Ok(adj) ==> adj@.len() == self@.len(),
    {
        let ghost g = self.nodes@;
        let n = self.nodes.len();
        let mut adj: Vec<u64> = Vec::new();
        let mut k: usize = 0;
        while k < n
            invariant
                k <= n,
                n == g.len(),
                adj@ == seed(n as nat, output as int).take(k as int),
            decreases n - k,
        {
            adj.push(if k == output { ONE_BITS } else { ZERO_BITS });
            k = k + 1;
            proof {
                assert(adj@ =~= seed(n as nat, output as int).take(k as int));
            }
        }
        proof {
            assert(adj@ =~= seed(n as nat, output as int));
        }
        let ghost mut trail: Seq<Seq<u64>> = seq![adj@];
        let mut i: usize = n;
        while i > 0
            invariant
                g == self.nodes@,
                self.wf(),
                n == g.len(),
                i <= n,
                values@.len() == n,
                adj@.len() == n,
                trail.len() == n - i + 1,
                sweeps(g, values@, *partials, *acc, output as int, trail),
                trail.last() == adj@,
                forall|op: &OpType, gg: u64, a: u64, b: u64| partials.requires((op, gg, a, b)),
                forall|x: u64, c: u64| acc.requires((x, c)),
            decreases i,
        {
            i = i - 1;
            let ghost before = adj@;
            proof {
                assert(node_ok(self@, i as int));
                assert(self@[i as int] == g[i as int]@);
            }
            let m = self.nodes[i].inputs.len();
            if m > 0 {
                let a = self.nodes[i].inputs[0];
                let av = values[a];
                let bv = if m == 2 { values[self.nodes[i].inputs[1]] } else { 0 };
                proof {
                    assert((av, bv) == operands(g[i as int]@, values@));
                }
                match partials(&self.nodes[i].op, adj[i], av, bv) {
                    Err(e) => {
                        proof {
                            assert(rejects(g, values@, *partials, n - trail.len(), trail.last(), e));
                            assert(sweeps(g, values@, *partials, *acc, output as int, trail));
                        }
                        return Err(e);
                    },
                    Ok((ca, cb)) => {
                        let x = acc(adj[a], ca);
                        adj.set(a, x);
                        if m == 2 {
                            let b = self.nodes[i].inputs[1];
                            let y = acc(adj[b], cb);
                            adj.set(b, y);
                            proof {
                                assert(call_ensures(*acc, (before[a as int], ca), x));
                                assert(call_ensures(*acc, (before.update(a as int, x)[b as int], cb), y));
                                assert(adj@ == before.update(a as int, x).update(b as int, y));
                            }
                        } else {
                            proof {
                                assert(call_ensures(*acc, (before[a as int], ca), x));
                                assert(adj@ == before.update(a as int, x));
                            }
                        }
                        proof {
                            assert(accumulates(*acc, before, g[i as int]@.inputs, ca, cb, adj@));
                            assert(call_ensures(*partials, (&g[i as int].op, before[i as int], av, bv), Ok::<(u64, u64), EngineError>((ca, cb))));
                        }
                    },
                }
            }
            proof {
                let old_trail = trail;
                trail = trail.push(adj@);
                assert(pushes(g, values@, *partials, *acc, i as int, before, adj@));
                assert forall|j: int| 0 <= j < trail.len() - 1 implies #[trigger] pushes(g, values@, *partials, *acc, n - 1 - j, trail[j], trail[j + 1]) by {
                    if j < old_trail.len() - 1 {
                        assert(sweeps(g, values@, *partials, *acc, output as int, old_trail));
                        assert(pushes(g, values@, *partials, *acc, n - 1 - j, old_trail[j], old_trail[j + 1]));
                    }
                }
            }
        }
        proof {
            assert(sweeps(g, values@, *partials, *acc, output as int, trail));
        }
        Ok(adj)
    }
    /// The gradient read off the adjoints: every variable node's name with its
    /// adjoint, in index order (a later node of the same name supersedes an
    /// earlier one where they are collected into a map).
    pub fn gradient(&self, adjoints: &Vec<u64>) -> (grad: Vec<(String, u64)>)
        requires
            adjoints@.len() == self@.len(),
        ensures
            grad@.map_values(|e: (String, u64)| (e.0@, e.1)) == var_entries(self@, adjoints@, self@.len() as int),
    {
        let mut grad: Vec<(String, u64)> = Vec::new();
        let mut i: usize = 0;
        while i < self.nodes.len()
            invariant
                i <= self@.len(),
                adjoints@.len() == self@.len(),
                grad@.map_values(|e: (String, u64)| (e.0@, e.1)) == var_entries(self@, adjoints@, i as int),
            decreases self@.len() - i,
        {
            let ghost before = grad@;
            match &self.nodes[i].op {
                OpType::Var(name) => {
                    let entry = (name.clone(), adjoints[i]);
                    grad.push(entry);
                    proof {
                        assert(grad@ == before.push(entry));
                        assert(grad@.map_values(|e: (String, u64)| (e.0@, e.1)) =~= before.map_values(|e: (String, u64)| (e.0@, e.1)).push((name@, adjoints@[i as int])));
                    }
                },
                _ => {},
            }
            i = i + 1;
        }
        grad
    }
}

} // verus!
