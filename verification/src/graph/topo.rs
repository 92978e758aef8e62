//! The topological invariant of the arena and the expression each node
//! denotes.
//!
//! Build order is a topological order: every node's inputs sit at lower
//! indices, and every node has exactly as many inputs as its op takes. Under
//! that invariant a node unfolds into a finite [`Term`], the expression tree it
//! computes; the passes are stated over these terms.

use vstd::prelude::*;
use crate::graph::node::{Op, NodeView, arity, commutes};

verus! {

/// Node `i` has the right number of inputs, all at lower indices.
pub open spec fn node_ok(g: Seq<NodeView>, i: int) -> bool {
    &&& g[i].inputs.len() == arity(g[i].op)
    &&& forall|k: int| 0 <= k < g[i].inputs.len() ==> #[trigger] g[i].inputs[k] < i
}

/// The arena invariant: every node is [`node_ok`].
pub open spec fn wf_nodes(g: Seq<NodeView>) -> bool {
    forall|i: int| 0 <= i < g.len() ==> #[trigger] node_ok(g, i)
}

/// Node `j` is an input of node `k`.
pub open spec fn feeds(g: Seq<NodeView>, j: int, k: int) -> bool {
    g[k].inputs.contains(j as usize)
}

/// Node `j` is an input of some later node.
pub open spec fn used(g: Seq<NodeView>, j: int) -> bool {
    exists|k: int| j < k < g.len() && #[trigger] feeds(g, j, k)
}

/// Every node from index `n` on, except the last, is an input of a later
/// node: nothing appended from `n` on is left unused.
pub open spec fn used_from(g: Seq<NodeView>, n: int) -> bool {
    forall|j: int| n <= j < g.len() - 1 ==> #[trigger] used(g, j)
}

/// The expression tree a node computes.
pub enum Term {
    Leaf(Op),
    Unary(Op, Box<Term>),
    Binary(Op, Box<Term>, Box<Term>),
}

/// Unfold node `i` into the expression it denotes.
pub open spec fn term(g: Seq<NodeView>, i: int) -> Term
    decreases i,
{
    if 0 <= i < g.len() {
        let n = g[i];
        if n.inputs.len() == 1 && n.inputs[0] < i {
            Term::Unary(n.op, Box::new(term(g, n.inputs[0] as int)))
        } else if n.inputs.len() == 2 && n.inputs[0] < i && n.inputs[1] < i {
            Term::Binary(
                n.op,
                Box::new(term(g, n.inputs[0] as int)),
                Box::new(term(g, n.inputs[1] as int)),
            )
        } else {
            Term::Leaf(n.op)
        }
    } else {
        Term::Leaf(Op::Add)
    }
}

/// Equality of expressions up to the order of the operands of `+` and `*`,
/// which is sound for evaluation since both commute.
pub open spec fn equiv(a: Term, b: Term) -> bool
    decreases a,
{
    match (a, b) {
        (Term::Leaf(x), Term::Leaf(y)) => x == y,
        (Term::Unary(x, ca), Term::Unary(y, cb)) => x == y && equiv(*ca, *cb),
        (Term::Binary(x, la, ra), Term::Binary(y, lb, rb)) => {
            x == y && ((equiv(*la, *lb) && equiv(*ra, *rb)) || (commutes(x) && equiv(*la, *rb)
                && equiv(*ra, *lb)))
        },
        _ => false,
    }
}

/// Every expression is equivalent to itself.
pub proof fn lemma_equiv_refl(a: Term)
    ensures
        equiv(a, a),
    decreases a,
{
    match a {
        Term::Leaf(_) => {},
        Term::Unary(_, c) => {
            lemma_equiv_refl(*c);
        },
        Term::Binary(_, l, r) => {
            lemma_equiv_refl(*l);
            lemma_equiv_refl(*r);
        },
    }
}

/// Equivalence of expressions is symmetric.
pub proof fn lemma_equiv_symm(a: Term, b: Term)
    requires
        equiv(a, b),
    ensures
        equiv(b, a),
    decreases a,
{
    match (a, b) {
        (Term::Unary(_, ca), Term::Unary(_, cb)) => {
            lemma_equiv_symm(*ca, *cb);
        },
        (Term::Binary(x, la, ra), Term::Binary(_, lb, rb)) => {
            if equiv(*la, *lb) && equiv(*ra, *rb) {
                lemma_equiv_symm(*la, *lb);
                lemma_equiv_symm(*ra, *rb);
            } else {
                lemma_equiv_symm(*la, *rb);
                lemma_equiv_symm(*ra, *lb);
            }
        },
        _ => {},
    }
}

/// Equivalence of expressions is transitive.
pub proof fn lemma_equiv_trans(a: Term, b: Term, c: Term)
    requires
        equiv(a, b),
        equiv(b, c),
    ensures
        equiv(a, c),
    decreases a,
{
    match (a, b, c) {
        (Term::Unary(_, ca), Term::Unary(_, cb), Term::Unary(_, cc)) => {
            lemma_equiv_trans(*ca, *cb, *cc);
        },
        (Term::Binary(x, la, ra), Term::Binary(_, lb, rb), Term::Binary(_, lc, rc)) => {
            if equiv(*la, *lb) && equiv(*ra, *rb) {
                if equiv(*lb, *lc) && equiv(*rb, *rc) {
                    lemma_equiv_trans(*la, *lb, *lc);
                    lemma_equiv_trans(*ra, *rb, *rc);
                } else {
                    lemma_equiv_trans(*la, *lb, *rc);
                    lemma_equiv_trans(*ra, *rb, *lc);
                }
            } else {
                if equiv(*lb, *lc) && equiv(*rb, *rc) {
                    lemma_equiv_trans(*la, *rb, *rc);
                    lemma_equiv_trans(*ra, *lb, *lc);
                } else {
                    lemma_equiv_trans(*la, *rb, *lc);
                    lemma_equiv_trans(*ra, *lb, *rc);
                }
            }
        },
        _ => {},
    }
}

/// Appending nodes to a well-formed arena leaves the terms of its existing
/// nodes unchanged.
pub proof fn lemma_term_prefix(g: Seq<NodeView>, h: Seq<NodeView>, i: int)
    requires
        0 <= i < g.len() <= h.len(),
        forall|j: int| 0 <= j < g.len() ==> #[trigger] h[j] == g[j],
    ensures
        term(h, i) == term(g, i),
    decreases i,
{
    let n = g[i];
    if n.inputs.len() == 1 && n.inputs[0] < i {
        lemma_term_prefix(g, h, n.inputs[0] as int);
    } else if n.inputs.len() == 2 && n.inputs[0] < i && n.inputs[1] < i {
        lemma_term_prefix(g, h, n.inputs[0] as int);
        lemma_term_prefix(g, h, n.inputs[1] as int);
    }
}

} // verus!
