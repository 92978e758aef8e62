//! The `Node` struct and `OpType` enum: the graph's data model.
//!
//! A numeric payload (`Const`, the exponent of `Pow`) is the IEEE-754 bit
//! pattern of the `f64` it stands for, so two payloads are the same exactly when
//! their bits are.

use vstd::prelude::*;

verus! {

#[derive(Debug, Clone, PartialEq, Eq, Hash)]
pub enum OpType {
    Var(String),
    Const(u64),
    Add,
    Sub,
    Div,
    Mul,
    Neg,
    Pow(u64),
    Sin,
    Cos,
    Exp,
    Ln,
}

/// The mathematical model of an [`OpType`]: a variable is named by its
/// characters.
pub enum Op {
    Var(Seq<char>),
    Const(u64),
    Add,
    Sub,
    Div,
    Mul,
    Neg,
    Pow(u64),
    Sin,
    Cos,
    Exp,
    Ln,
}

impl View for OpType {
    type V = Op;

    open spec fn view(&self) -> Op {
        match self {
            OpType::Var(name) => Op::Var(name@),
            OpType::Const(c) => Op::Const(*c),
            OpType::Add => Op::Add,
            OpType::Sub => Op::Sub,
            OpType::Div => Op::Div,
            OpType::Mul => Op::Mul,
            OpType::Neg => Op::Neg,
            OpType::Pow(k) => Op::Pow(*k),
            OpType::Sin => Op::Sin,
            OpType::Cos => Op::Cos,
            OpType::Exp => Op::Exp,
            OpType::Ln => Op::Ln,
        }
    }
}

/// How many inputs a node with this op has: none for a leaf, two for
/// `+ - * /`, one for every other operator.
pub open spec fn arity(op: Op) -> nat {
    match op {
        Op::Var(_) | Op::Const(_) => 0,
        Op::Add | Op::Sub | Op::Div | Op::Mul => 2,
        _ => 1,
    }
}

/// Whether operand order is irrelevant to the value: only `Add` and `Mul`.
pub open spec fn commutes(op: Op) -> bool {
    op is Add || op is Mul
}

impl OpType {
    /// A copy of this op with the same model.
    pub fn duplicate(&self) -> (r: OpType)
        ensures
            r@ == self@,
    {
        match self {
            OpType::Var(name) => OpType::Var(name.clone()),
            OpType::Const(c) => OpType::Const(*c),
            OpType::Add => OpType::Add,
            OpType::Sub => OpType::Sub,
            OpType::Div => OpType::Div,
            OpType::Mul => OpType::Mul,
            OpType::Neg => OpType::Neg,
            OpType::Pow(k) => OpType::Pow(*k),
            OpType::Sin => OpType::Sin,
            OpType::Cos => OpType::Cos,
            OpType::Exp => OpType::Exp,
            OpType::Ln => OpType::Ln,
        }
    }

    /// Whether two ops have the same model.
    pub fn same_as(&self, other: &OpType) -> (r: bool)
        ensures
            r == (self@ == other@),
    {
        match self {
            OpType::Var(a) => match other {
                OpType::Var(b) => a.eq(b),
                _ => false,
            },
            OpType::Const(a) => match other {
                OpType::Const(b) => *a == *b,
                _ => false,
            },
            OpType::Pow(a) => match other {
                OpType::Pow(b) => *a == *b,
                _ => false,
            },
            OpType::Add => matches!(other, OpType::Add),
            OpType::Sub => matches!(other, OpType::Sub),
            OpType::Div => matches!(other, OpType::Div),
            OpType::Mul => matches!(other, OpType::Mul),
            OpType::Neg => matches!(other, OpType::Neg),
            OpType::Sin => matches!(other, OpType::Sin),
            OpType::Cos => matches!(other, OpType::Cos),
            OpType::Exp => matches!(other, OpType::Exp),
            OpType::Ln => matches!(other, OpType::Ln),
        }
    }
}

#[derive(Debug, Clone, PartialEq)]
pub struct Node {
    pub op: OpType,
    pub inputs: Vec<usize>,
}

/// The model of a [`Node`]: its op and the indices of its inputs.
pub struct NodeView {
    pub op: Op,
    pub inputs: Seq<usize>,
}

impl View for Node {
    type V = NodeView;

    open spec fn view(&self) -> NodeView {
        NodeView { op: self.op@, inputs: self.inputs@ }
    }
}

} // verus!
