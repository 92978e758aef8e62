//! Structural fingerprints for graph nodes: [`OpKey`] and [`NodeKey`].
//!
//! Two subexpressions are "the same" when they have the same op and the same
//! inputs. A numeric payload is already its `f64` bit pattern, so the key
//! deduplicates bit-exactly: two `2.0`s collapse, and no attempt is made to
//! prove `0.1 + 0.2 == 0.3`.
//!
//! [`NodeKey::new`] preserves operand order (lowering's hash-consing, where the
//! AST fixes operand order). [`NodeKey::canonical`] additionally sorts the
//! operands of commutative ops so `a*b` and `b*a` key identically, which is
//! what common-subexpression elimination needs.

use vstd::prelude::*;
use crate::graph::node::{NodeView, Op, OpType, commutes};

verus! {

/// The op portion of a [`NodeKey`].
#[derive(Debug, Clone, PartialEq, Eq, Hash)]
pub enum OpKey {
    Var(String),
    Const(u64),
    Add,
    Sub,
    Div,
    Mul,
    Neg,
    Pow(u64),
    Sin,
    Cos,
    Exp,
    Ln,
}

impl View for OpKey {
    type V = Op;

    open spec fn view(&self) -> Op {
        match self {
            OpKey::Var(name) => Op::Var(name@),
            OpKey::Const(c) => Op::Const(*c),
            OpKey::Add => Op::Add,
            OpKey::Sub => Op::Sub,
            OpKey::Div => Op::Div,
            OpKey::Mul => Op::Mul,
            OpKey::Neg => Op::Neg,
            OpKey::Pow(k) => Op::Pow(*k),
            OpKey::Sin => Op::Sin,
            OpKey::Cos => Op::Cos,
            OpKey::Exp => Op::Exp,
            OpKey::Ln => Op::Ln,
        }
    }
}

impl OpKey {
    /// The key mirror of an [`OpType`].
    fn from_op(op: &OpType) -> (k: OpKey)
        ensures
            k@ == op@,
    {
        match op {
            OpType::Var(name) => OpKey::Var(name.clone()),
            OpType::Const(v) => OpKey::Const(*v),
            OpType::Add => OpKey::Add,
            OpType::Sub => OpKey::Sub,
            OpType::Div => OpKey::Div,
            OpType::Mul => OpKey::Mul,
            OpType::Neg => OpKey::Neg,
            OpType::Pow(e) => OpKey::Pow(*e),
            OpType::Sin => OpKey::Sin,
            OpType::Cos => OpKey::Cos,
            OpType::Exp => OpKey::Exp,
            OpType::Ln => OpKey::Ln,
        }
    }

    /// Whether operand order is irrelevant to the node's value. Only `Add` and
    /// `Mul` commute; `Sub`/`Div` do not, and every remaining op is unary.
    pub fn is_commutative(&self) -> (b: bool)
        ensures
            b == commutes(self@),
    {
        matches!(self, OpKey::Add | OpKey::Mul)
    }

    /// Whether two op keys have the same model.
    pub fn same_as(&self, other: &OpKey) -> (b: bool)
        ensures
            b == (self@ == other@),
    {
        match self {
            OpKey::Var(a) => match other {
                OpKey::Var(b) => a.eq(b),
                _ => false,
            },
            OpKey::Const(a) => match other {
                OpKey::Const(b) => *a == *b,
                _ => false,
            },
            OpKey::Pow(a) => match other {
                OpKey::Pow(b) => *a == *b,
                _ => false,
            },
            OpKey::Add => matches!(other, OpKey::Add),
            OpKey::Sub => matches!(other, OpKey::Sub),
            OpKey::Div => matches!(other, OpKey::Div),
            OpKey::Mul => matches!(other, OpKey::Mul),
            OpKey::Neg => matches!(other, OpKey::Neg),
            OpKey::Sin => matches!(other, OpKey::Sin),
            OpKey::Cos => matches!(other, OpKey::Cos),
            OpKey::Exp => matches!(other, OpKey::Exp),
            OpKey::Ln => matches!(other, OpKey::Ln),
        }
    }
}

/// A structural fingerprint of a node: its op plus the indices of its inputs.
#[derive(Debug, Clone, PartialEq, Eq, Hash)]
pub struct NodeKey {
    pub op: OpKey,
    pub inputs: Vec<usize>,
}

impl View for NodeKey {
    type V = NodeView;

    open spec fn view(&self) -> NodeView {
        NodeView { op: self.op@, inputs: self.inputs@ }
    }
}

/// `s` is in ascending order.
pub open spec fn sorted(s: Seq<usize>) -> bool {
    forall|i: int, j: int| 0 <= i <= j < s.len() ==> s[i] <= s[j]
}

/// The operands of a commutative node, put in ascending order; anything else
/// is unchanged.
pub open spec fn canonical_view(n: NodeView) -> NodeView {
    if commutes(n.op) && n.inputs.len() == 2 && n.inputs[0] > n.inputs[1] {
        NodeView { op: n.op, inputs: seq![n.inputs[1], n.inputs[0]] }
    } else {
        n
    }
}

/// Sorting a two-element sequence yields its minimum then its maximum.
proof fn lemma_sorted_pair(r: Seq<usize>, s: Seq<usize>)
    requires
        s.len() == 2,
        sorted(r),
        r.to_multiset() == s.to_multiset(),
    ensures
        r == (if s[0] > s[1] { seq![s[1], s[0]] } else { s }),
{
    let c = if s[0] > s[1] { seq![s[1], s[0]] } else { s };
    assert(c.to_multiset() == s.to_multiset()) by {
        if s[0] > s[1] {
            vstd::seq_lib::lemma_seq_union_to_multiset_commutative(seq![s[0]], seq![s[1]]);
            assert(seq![s[0]] + seq![s[1]] =~= s);
            assert(seq![s[1]] + seq![s[0]] =~= c);
        }
    }
    let leq = |a: usize, b: usize| a <= b;
    assert(vstd::relations::sorted_by(r, leq));
    assert(vstd::relations::sorted_by(c, leq));
    assert(vstd::relations::total_ordering(leq));
    vstd::seq_lib::lemma_sorted_unique(r, c, leq);
}

/// A copy of `s`, sorted ascending by insertion.
fn sorted_copy(s: &[usize]) -> (r: Vec<usize>)
    ensures
        sorted(r@),
        r@.to_multiset() == s@.to_multiset(),
{
    broadcast use vstd::seq_lib::group_to_multiset_ensures;

    let mut r: Vec<usize> = Vec::new();
    let mut i: usize = 0;
    while i < s.len()
        invariant
            i <= s@.len(),
            sorted(r@),
            r@.to_multiset() == s@.take(i as int).to_multiset(),
        decreases s@.len() - i,
    {
        let x = s[i];
        let ghost before = r@;
        // insert x keeping r sorted
        let mut j: usize = r.len();
        r.push(x);
        while j > 0 && r[j - 1] > x
            invariant
                j < r@.len(),
                r@.len() == before.len() + 1,
                r@[j as int] == x,
                forall|k: int| 0 <= k < j ==> r@[k] == before[k],
                forall|k: int| j < k < r@.len() ==> r@[k] == before[k - 1],
                forall|k: int| j < k < r@.len() ==> r@[k] > x,
                sorted(before),
            decreases j,
        {
            let y = r[j - 1];
            r.set(j, y);
            r.set(j - 1, x);
            j = j - 1;
        }
        proof {
            assert(r@ =~= before.insert(j as int, x));
            vstd::seq_lib::to_multiset_insert(before, j as int, x);
            assert(s@.take(i as int + 1) =~= s@.take(i as int).push(x));
            vstd::seq_lib::to_multiset_build(s@.take(i as int), x);
            assert forall|a: int, b: int| 0 <= a <= b < r@.len() implies r@[a] <= r@[b] by {
                if a < j && b > j {
                    assert(r@[b] == before[b - 1]);
                }
            }
        }
        i = i + 1;
    }
    proof {
        assert(s@.take(s@.len() as int) =~= s@);
    }
    r
}

impl NodeKey {
    /// Structural key with operand order preserved.
    pub fn new(op: &OpType, inputs: &[usize]) -> (k: NodeKey)
        ensures
            k@ == (NodeView { op: op@, inputs: inputs@ }),
    {
        let mut v: Vec<usize> = Vec::new();
        let mut i: usize = 0;
        while i < inputs.len()
            invariant
                i <= inputs@.len(),
                v@ == inputs@.take(i as int),
            decreases inputs@.len() - i,
        {
            v.push(inputs[i]);
            i = i + 1;
            proof {
                assert(v@ =~= inputs@.take(i as int));
            }
        }
        proof {
            assert(inputs@.take(inputs@.len() as int) =~= inputs@);
        }
        NodeKey { op: OpKey::from_op(op), inputs: v }
    }

    /// Structural key with commutative operands sorted, so `a*b` and `b*a`
    /// produce the same key.
    pub fn canonical(op: &OpType, inputs: &[usize]) -> (k: NodeKey)
        ensures
            k@.op == op@,
            commutes(op@) ==> sorted(k@.inputs) && k@.inputs.to_multiset()
                == inputs@.to_multiset(),
            !commutes(op@) ==> k@.inputs == inputs@,
            inputs@.len() == 2 ==> k@ == canonical_view(NodeView { op: op@, inputs: inputs@ }),
    {
        let key = NodeKey::new(op, inputs);
        if key.op.is_commutative() {
            let sorted_inputs = sorted_copy(inputs);
            proof {
                if inputs@.len() == 2 {
                    lemma_sorted_pair(sorted_inputs@, inputs@);
                }
            }
            NodeKey { op: key.op, inputs: sorted_inputs }
        } else {
            key
        }
    }

    /// Whether two keys have the same model.
    pub fn same_as(&self, other: &NodeKey) -> (b: bool)
        ensures
            b == (self@ == other@),
    {
        if !self.op.same_as(&other.op) || self.inputs.len() != other.inputs.len() {
            return false;
        }
        let mut i: usize = 0;
        while i < self.inputs.len()
            invariant
                self.inputs@.len() == other.inputs@.len(),
                i <= self.inputs@.len(),
                forall|k: int| 0 <= k < i ==> self.inputs@[k] == other.inputs@[k],
            decreases self.inputs@.len() - i,
        {
            if self.inputs[i] != other.inputs[i] {
                return false;
            }
            i = i + 1;
        }
        proof {
            assert(self.inputs@ =~= other.inputs@);
        }
        true
    }
}

} // verus!
