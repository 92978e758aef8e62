//! Arena representation of the computation graph.
//!
//! All nodes live in one `Vec<Node>` that owns them; nodes reference each other
//! by `usize` index. The builder helpers push a node after its inputs, so build
//! order is a topological order (see [`crate::graph::topo`]).

use vstd::prelude::*;
use crate::graph::node::{Node, NodeView, Op, OpType, arity};
use crate::graph::topo::{wf_nodes, node_ok};

verus! {

pub struct Graph {
    pub nodes: Vec<Node>,
}

impl View for Graph {
    type V = Seq<NodeView>;

    open spec fn view(&self) -> Seq<NodeView> {
        self.nodes@.map_values(|n: Node| n@)
    }
}

/// `new` is `old` with one node `(op, inputs)` appended.
pub open spec fn appended(old: Seq<NodeView>, new: Seq<NodeView>, op: Op, inputs: Seq<usize>) -> bool {
    new == old.push(NodeView { op, inputs })
}

/// Appending a node whose inputs are all existing nodes, in the number its op
/// takes, keeps the arena well formed.
pub proof fn lemma_append_wf(old: Seq<NodeView>, op: Op, inputs: Seq<usize>)
    requires
        wf_nodes(old),
        inputs.len() == arity(op),
        forall|k: int| 0 <= k < inputs.len() ==> #[trigger] inputs[k] < old.len(),
    ensures
        wf_nodes(old.push(NodeView { op, inputs })),
{
    let new = old.push(NodeView { op, inputs });
    assert forall|i: int| 0 <= i < new.len() implies #[trigger] node_ok(new, i) by {
        if i < old.len() {
            assert(node_ok(old, i));
        }
    }
}

impl Graph {
    pub open spec fn wf(&self) -> bool {
        wf_nodes(self@)
    }

    /// Whether the arena is well formed: every node has as many inputs as its
    /// op takes, all at lower indices.
    pub fn is_well_formed(&self) -> (b: bool)
        ensures
            b == self.wf(),
    {
        let mut i: usize = 0;
        while i < self.nodes.len()
            invariant
                i <= self@.len(),
                forall|k: int| 0 <= k < i ==> #[trigger] node_ok(self@, k),
            decreases self@.len() - i,
        {
            let node = &self.nodes[i];
            let m = node.inputs.len();
            let want: usize = match &node.op {
                OpType::Var(_) | OpType::Const(_) => 0,
                OpType::Add | OpType::Sub | OpType::Div | OpType::Mul => 2,
                _ => 1,
            };
            proof {
                assert(self@[i as int] == node@);
            }
            if m != want {
                proof {
                    assert(!node_ok(self@, i as int));
                }
                return false;
            }
            let mut j: usize = 0;
            while j < m
                invariant
                    j <= m,
                    m == self@[i as int].inputs.len(),
                    i < self@.len(),
                    self@[i as int] == node@,
                    forall|q: int| 0 <= q < j ==> #[trigger] self@[i as int].inputs[q] < i,
                decreases m - j,
            {
                if node.inputs[j] >= i {
                    proof {
                        assert(self@[i as int].inputs[j as int] >= i);
                        assert(!node_ok(self@, i as int));
                    }
                    return false;
                }
                j = j + 1;
            }
            proof {
                assert(node_ok(self@, i as int));
            }
            i = i + 1;
        }
        true
    }

    pub fn new() -> (g: Self)
        ensures
            g@ == Seq::<NodeView>::empty(),
            g.wf(),
    {
        Graph { nodes: Vec::new() }
    }

    /// Append `node` and return its index.
    pub fn push(&mut self, node: Node) -> (idx: usize)
        ensures
            idx == old(self)@.len(),
            appended(old(self)@, final(self)@, node.op@, node.inputs@),
    {
        let len: usize = self.nodes.len();
        self.nodes.push(node);
        proof {
            assert(self@ =~= old(self)@.push(node@));
        }
        len
    }

    fn push_op(&mut self, op: OpType, inputs: Vec<usize>) -> (idx: usize)
        ensures
            idx == old(self)@.len(),
            appended(old(self)@, final(self)@, op@, inputs@),
            old(self).wf() && inputs@.len() == arity(op@) && (forall|k: int|
                0 <= k < inputs@.len() ==> #[trigger] inputs@[k] < old(self)@.len())
                ==> final(self).wf(),
    {
        proof {
            if old(self).wf() && inputs@.len() == arity(op@) && (forall|k: int|
                0 <= k < inputs@.len() ==> #[trigger] inputs@[k] < old(self)@.len()) {
                lemma_append_wf(old(self)@, op@, inputs@);
            }
        }
        self.push(Node { op, inputs })
    }

    fn push_unary(&mut self, op: OpType, a: usize) -> (idx: usize)
        requires
            arity(op@) == 1,
        ensures
            idx == old(self)@.len(),
            appended(old(self)@, final(self)@, op@, seq![a]),
            old(self).wf() && a < old(self)@.len() ==> final(self).wf(),
    {
        let mut inputs: Vec<usize> = Vec::new();
        inputs.push(a);
        proof {
            assert(inputs@ =~= seq![a]);
        }
        self.push_op(op, inputs)
    }

    fn push_binary(&mut self, op: OpType, a: usize, b: usize) -> (idx: usize)
        requires
            arity(op@) == 2,
        ensures
            idx == old(self)@.len(),
            appended(old(self)@, final(self)@, op@, seq![a, b]),
            old(self).wf() && a < old(self)@.len() && b < old(self)@.len() ==> final(self).wf(),
    {
        let mut inputs: Vec<usize> = Vec::new();
        inputs.push(a);
        inputs.push(b);
        proof {
            assert(inputs@ =~= seq![a, b]);
        }
        self.push_op(op, inputs)
    }

    pub fn var(&mut self, name: String) -> (idx: usize)
        ensures
            idx == old(self)@.len(),
            appended(old(self)@, final(self)@, Op::Var(name@), seq![]),
            old(self).wf() ==> final(self).wf(),
    {
        let inputs: Vec<usize> = Vec::new();
        proof {
            assert(inputs@ =~= Seq::<usize>::empty());
        }
        self.push_op(OpType::Var(name), inputs)
    }

    /// A constant node; `val` is the bit pattern of its `f64` value.
    pub fn constant(&mut self, val: u64) -> (idx: usize)
        ensures
            idx == old(self)@.len(),
            appended(old(self)@, final(self)@, Op::Const(val), seq![]),
            old(self).wf() ==> final(self).wf(),
    {
        let inputs: Vec<usize> = Vec::new();
        proof {
            assert(inputs@ =~= Seq::<usize>::empty());
        }
        self.push_op(OpType::Const(val), inputs)
    }

    pub fn add(&mut self, a: usize, b: usize) -> (idx: usize)
        ensures
            idx == old(self)@.len(),
            appended(old(self)@, final(self)@, Op::Add, seq![a, b]),
            old(self).wf() && a < old(self)@.len() && b < old(self)@.len() ==> final(self).wf(),
    {
        self.push_binary(OpType::Add, a, b)
    }

    pub fn sub(&mut self, a: usize, b: usize) -> (idx: usize)
        ensures
            idx == old(self)@.len(),
            appended(old(self)@, final(self)@, Op::Sub, seq![a, b]),
            old(self).wf() && a < old(self)@.len() && b < old(self)@.len() ==> final(self).wf(),
    {
        self.push_binary(OpType::Sub, a, b)
    }

    pub fn div(&mut self, a: usize, b: usize) -> (idx: usize)
        ensures
            idx == old(self)@.len(),
            appended(old(self)@, final(self)@, Op::Div, seq![a, b]),
            old(self).wf() && a < old(self)@.len() && b < old(self)@.len() ==> final(self).wf(),
    {
        self.push_binary(OpType::Div, a, b)
    }

    pub fn mul(&mut self, a: usize, b: usize) -> (idx: usize)
        ensures
            idx == old(self)@.len(),
            appended(old(self)@, final(self)@, Op::Mul, seq![a, b]),
            old(self).wf() && a < old(self)@.len() && b < old(self)@.len() ==> final(self).wf(),
    {
        self.push_binary(OpType::Mul, a, b)
    }

    pub fn neg(&mut self, a: usize) -> (idx: usize)
        ensures
            idx == old(self)@.len(),
            appended(old(self)@, final(self)@, Op::Neg, seq![a]),
            old(self).wf() && a < old(self)@.len() ==> final(self).wf(),
    {
        self.push_unary(OpType::Neg, a)
    }

    /// `a ^ exp`, where `exp` is the bit pattern of the `f64` exponent.
    pub fn pow(&mut self, a: usize, exp: u64) -> (idx: usize)
        ensures
            idx == old(self)@.len(),
            appended(old(self)@, final(self)@, Op::Pow(exp), seq![a]),
            old(self).wf() && a < old(self)@.len() ==> final(self).wf(),
    {
        self.push_unary(OpType::Pow(exp), a)
    }

    pub fn sin(&mut self, a: usize) -> (idx: usize)
        ensures
            idx == old(self)@.len(),
            appended(old(self)@, final(self)@, Op::Sin, seq![a]),
            old(self).wf() && a < old(self)@.len() ==> final(self).wf(),
    {
        self.push_unary(OpType::Sin, a)
    }

    pub fn cos(&mut self, a: usize) -> (idx: usize)
        ensures
            idx == old(self)@.len(),
            appended(old(self)@, final(self)@, Op::Cos, seq![a]),
            old(self).wf() && a < old(self)@.len() ==> final(self).wf(),
    {
        self.push_unary(OpType::Cos, a)
    }

    pub fn exp(&mut self, a: usize) -> (idx: usize)
        ensures
            idx == old(self)@.len(),
            appended(old(self)@, final(self)@, Op::Exp, seq![a]),
            old(self).wf() && a < old(self)@.len() ==> final(self).wf(),
    {
        self.push_unary(OpType::Exp, a)
    }

    pub fn ln(&mut self, a: usize) -> (idx: usize)
        ensures
            idx == old(self)@.len(),
            appended(old(self)@, final(self)@, Op::Ln, seq![a]),
            old(self).wf() && a < old(self)@.len() ==> final(self).wf(),
    {
        self.push_unary(OpType::Ln, a)
    }
}

} // verus!
