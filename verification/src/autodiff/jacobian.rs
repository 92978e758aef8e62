//! The Jacobian of a vector function `f: ℝⁿ → ℝᵐ` held in one graph.
//!
//! Row `i` is the gradient of output `outputs[i]`, computed by one backward
//! sweep seeded at that output over the node values of one shared forward
//! pass; column `j` is the variable `vars[j]`, read from the adjoint of the
//! (last) variable node of that name.

use vstd::prelude::*;
use crate::autodiff::backward::backprop;
use crate::error::EngineError;
use crate::graph::arena::Graph;
use crate::graph::node::{Node, NodeView, Op, OpType};

verus! {

/// The index of the last variable node named `name` among the first `i`
/// nodes, or `-1` when there is none.
pub open spec fn last_var(g: Seq<NodeView>, name: Seq<char>, i: int) -> int
    decreases i,
{
    if i <= 0 {
        -1
    } else if g[i - 1].op == Op::Var(name) {
        i - 1
    } else {
        last_var(g, name, i - 1)
    }
}

proof fn lemma_last_var_bounds(g: Seq<NodeView>, name: Seq<char>, i: int)
    requires
        i >= 0,
    ensures
        -1 <= last_var(g, name, i) < i,
        last_var(g, name, i) >= 0 ==> g[last_var(g, name, i)].op == Op::Var(name),
    decreases i,
{
    if i > 0 {
        lemma_last_var_bounds(g, name, i - 1);
    }
}

/// A row of the Jacobian: each variable's entry is the adjoint of its last
/// variable node.
pub open spec fn row_of(g: Seq<NodeView>, adj: Seq<u64>, vars: Seq<String>) -> Seq<u64> {
    Seq::new(vars.len(), |j: int| adj[last_var(g, vars[j]@, g.len() as int)])
}

/// `row` is a row the backward sweep from `output` may give.
pub open spec fn jacobian_row<P: Fn(&OpType, u64, u64, u64) -> Result<(u64, u64), EngineError>, A: Fn(u64, u64) -> u64>(
    g: Seq<Node>,
    values: Seq<u64>,
    partials: P,
    acc: A,
    output: int,
    vars: Seq<String>,
    row: Seq<u64>,
) -> bool {
    exists|adj: Seq<u64>|
        #[trigger] backprop(g, values, partials, acc, output, Ok(adj)) && row == row_of(
            g.map_values(|n: Node| n@),
            adj,
            vars,
        )
}

/// The backward sweep from `output` can succeed, giving some row.
pub open spec fn row_exists<P: Fn(&OpType, u64, u64, u64) -> Result<(u64, u64), EngineError>, A: Fn(u64, u64) -> u64>(
    g: Seq<Node>,
    values: Seq<u64>,
    partials: P,
    acc: A,
    output: int,
    vars: Seq<String>,
) -> bool {
    exists|row: Seq<u64>| #[trigger] jacobian_row(g, values, partials, acc, output, vars, row)
}

impl Graph {
    /// The index of the last variable node named `name`.
    fn find_var(&self, name: &String) -> (k: usize)
        requires
            last_var(self@, name@, self@.len() as int) >= 0,
        ensures
            k == last_var(self@, name@, self@.len() as int),
    {
        let mut k: usize = 0;
        let mut i: usize = 0;
        while i < self.nodes.len()
            invariant
                i <= self@.len(),
                last_var(self@, name@, i as int) >= 0 ==> k == last_var(self@, name@, i as int),
                last_var(self@, name@, self@.len() as int) >= 0,
            decreases self@.len() - i,
        {
            match &self.nodes[i].op {
                OpType::Var(v) => {
                    if v.eq(name) {
                        k = i;
                    }
                },
                _ => {},
            }
            i = i + 1;
        }
        k
    }

    /// Assemble the Jacobian: one row per output (in the order given), one
    /// column per variable (in the order given), each row from one backward
    /// sweep over the node values `values`. Returns the first error a sweep
    /// raises: every sweep before the failing one has succeeded.
    pub fn jacobian<P: Fn(&OpType, u64, u64, u64) -> Result<(u64, u64), EngineError>, A: Fn(u64, u64) -> u64>(
        &self,
        values: &Vec<u64>,
        outputs: &[usize],
        vars: &[String],
        partials: &P,
        acc: &A,
    ) -> (r: Result<Vec<Vec<u64>>, EngineError>)
        requires
            self.wf(),
            values@.len() == self@.len(),
            forall|i: int| 0 <= i < outputs@.len() ==> #[trigger] outputs@[i] < self@.len(),
            forall|j: int| 0 <= j < vars@.len() ==> last_var(self@, #[trigger] vars@[j]@, self@.len() as int) >= 0,
            forall|op: &OpType, g: u64, a: u64, b: u64| partials.requires((op, g, a, b)),
            forall|x: u64, c: u64| acc.requires((x, c)),
        ensures
            match r {
                Ok(jac) => jac@.len() == outputs@.len() && forall|i: int|
                    0 <= i < outputs@.len() ==> jacobian_row(
                        self.nodes@,
                        values@,
                        *partials,
                        *acc,
                        outputs@[i] as int,
                        vars@,
                        #[trigger] jac@[i]@,
                    ),
                Err(e) => exists|i: int|
                    0 <= i < outputs@.len() && (forall|k: int|
                        0 <= k < i ==> row_exists(
                            self.nodes@,
                            values@,
                            *partials,
                            *acc,
                            #[trigger] outputs@[k] as int,
                            vars@,
                        )) && #[trigger] backprop(
                        self.nodes@,
                        values@,
                        *partials,
                        *acc,
                        outputs@[i] as int,
                        Err(e),
                    ),
            },
    {
        let mut jac: Vec<Vec<u64>> = Vec::new();
        let mut i: usize = 0;
        while i < outputs.len()
            invariant
                self.wf(),
                i <= outputs@.len(),
                jac@.len() == i,
                values@.len() == self@.len(),
                forall|i: int| 0 <= i < outputs@.len() ==> #[trigger] outputs@[i] < self@.len(),
                forall|j: int| 0 <= j < vars@.len() ==> last_var(self@, #[trigger] vars@[j]@, self@.len() as int) >= 0,
                forall|op: &OpType, g: u64, a: u64, b: u64| partials.requires((op, g, a, b)),
                forall|x: u64, c: u64| acc.requires((x, c)),
                forall|k: int|
                    0 <= k < i ==> jacobian_row(
                        self.nodes@,
                        values@,
                        *partials,
                        *acc,
                        outputs@[k] as int,
                        vars@,
                        #[trigger] jac@[k]@,
                    ),
            decreases outputs@.len() - i,
        {
            let output = outputs[i];
            let adj = match self.backward(output, values, partials, acc) {
                Ok(adj) => adj,
                Err(e) => {
                    proof {
                        assert(backprop(self.nodes@, values@, *partials, *acc, outputs@[i as int] as int, Err(e)));
                        assert forall|k: int| 0 <= k < i implies row_exists(
                            self.nodes@,
                            values@,
                            *partials,
                            *acc,
                            #[trigger] outputs@[k] as int,
                            vars@,
                        ) by {
                            assert(jacobian_row(
                                self.nodes@,
                                values@,
                                *partials,
                                *acc,
                                outputs@[k] as int,
                                vars@,
                                jac@[k]@,
                            ));
                        }
                    }
                    return Err(e);
                },
            };
            let mut row: Vec<u64> = Vec::new();
            let mut j: usize = 0;
            while j < vars.len()
                invariant
                    j <= vars@.len(),
                    adj@.len() == self@.len(),
                    forall|j: int| 0 <= j < vars@.len() ==> last_var(self@, #[trigger] vars@[j]@, self@.len() as int) >= 0,
                    row@ == row_of(self@, adj@, vars@).take(j as int),
                decreases vars@.len() - j,
            {
                proof {
                    assert(last_var(self@, vars@[j as int]@, self@.len() as int) >= 0);
                    lemma_last_var_bounds(self@, vars@[j as int]@, self@.len() as int);
                }
                let k = self.find_var(&vars[j]);
                row.push(adj[k]);
                j = j + 1;
                proof {
                    assert(row@ =~= row_of(self@, adj@, vars@).take(j as int));
                }
            }
            proof {
                assert(row@ =~= row_of(self@, adj@, vars@));
                assert(backprop(self.nodes@, values@, *partials, *acc, output as int, Ok(adj@)));
                assert(self@ == self.nodes@.map_values(|n: Node| n@));
            }
            jac.push(row);
            i = i + 1;
        }
        Ok(jac)
    }
}

} // verus!
