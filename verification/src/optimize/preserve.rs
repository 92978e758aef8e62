//! What the passes keep: the value the output evaluates to.
//!
//! Folding keeps every node's value outright. Sharing and reclaiming keep the
//! output's expression up to the order of the operands of `+` and `*`, so they
//! keep its value wherever evaluation answers each question one way and does
//! not care about that order.

use vstd::prelude::*;
use crate::autodiff::forward::{evaluates, operands, steps_to};
use crate::error::EngineError;
use crate::graph::node::{Node, NodeView, OpType};
use crate::graph::topo::{equiv, node_ok, term, wf_nodes, Term};
use crate::optimize::constfold::{deterministic, folds, lemma_fold_preserves_values};
use crate::parse::lower::reads_alike;
use crate::optimize::cse::cse_result;
use crate::optimize::deadcode::{compacted, is_live_set, lemma_share_then_reclaim};

verus! {

/// The node models of an arena.
pub open spec fn models(g: Seq<Node>) -> Seq<NodeView> {
    g.map_values(|n: Node| n@)
}

/// `eval` answers `+` and `*` the same with the operands swapped.
pub open spec fn eval_commutes<F: Fn(&OpType, u64, u64) -> Result<u64, EngineError>>(eval: F) -> bool {
    forall|op: &OpType, a: u64, b: u64, r: Result<u64, EngineError>|
        (op@ is Add || op@ is Mul) && #[trigger] call_ensures(eval, (op, a, b), r) ==> call_ensures(
            eval,
            (op, b, a),
            r,
        )
}

/// Two operators with the same model that are not variables are the same.
proof fn lemma_op_from_model(x: OpType, y: OpType)
    requires
        x@ == y@,
        !(x is Var),
    ensures
        x == y,
{
}

/// Nodes computing equivalent expressions have the same value, for
/// evaluation that answers each question one way and lets `+` and `*` commute.
pub proof fn lemma_equiv_same_value<L: Fn(&String) -> Option<u64>, F: Fn(&OpType, u64, u64) -> Result<u64, EngineError>>(
    g: Seq<Node>,
    vg: Seq<u64>,
    h: Seq<Node>,
    vh: Seq<u64>,
    i: int,
    j: int,
    lookup: L,
    eval: F,
)
    requires
        wf_nodes(models(g)),
        wf_nodes(models(h)),
        evaluates(g, lookup, eval, vg),
        evaluates(h, lookup, eval, vh),
        deterministic(eval),
        reads_alike(lookup),
        eval_commutes(eval),
        0 <= i < g.len(),
        0 <= j < h.len(),
        equiv(term(models(h), j), term(models(g), i)),
    ensures
        vh[j] == vg[i],
    decreases i,
{
    let gm = models(g);
    let hm = models(h);
    assert(node_ok(gm, i));
    assert(node_ok(hm, j));
    assert(gm[i] == g[i]@);
    assert(hm[j] == h[j]@);
    assert(steps_to(g, lookup, eval, vg, i));
    assert(steps_to(h, lookup, eval, vh, j));
    let gi = gm[i].inputs;
    let hj = hm[j].inputs;
    if gi.len() == 0 {
        assert(term(gm, i) == Term::Leaf(gm[i].op));
        assert(hj.len() == 0);
        match g[i].op {
            OpType::Var(ng) => {
                let nh = h[j].op->Var_0;
                assert(call_ensures(lookup, (&ng,), Some(vg[i])));
                assert(call_ensures(lookup, (&nh,), Some(vh[j])));
            },
            _ => {},
        }
    } else if gi.len() == 1 {
        assert(gi[0] < i);
        assert(hj.len() == 1);
        assert(hj[0] < j);
        lemma_equiv_same_value(g, vg, h, vh, gi[0] as int, hj[0] as int, lookup, eval);
        lemma_op_from_model(g[i].op, h[j].op);
        assert(operands(g[i]@, vg) == operands(h[j]@, vh));
        assert(call_ensures(eval, (&g[i].op, operands(g[i]@, vg).0, operands(g[i]@, vg).1), Ok::<u64, EngineError>(vg[i])));
        assert(call_ensures(eval, (&h[j].op, operands(h[j]@, vh).0, operands(h[j]@, vh).1), Ok::<u64, EngineError>(vh[j])));
    } else {
        assert(gi[0] < i && gi[1] < i);
        assert(hj.len() == 2);
        assert(hj[0] < j && hj[1] < j);
        let (ga, gb) = (gi[0] as int, gi[1] as int);
        let (ha, hb) = (hj[0] as int, hj[1] as int);
        lemma_op_from_model(g[i].op, h[j].op);
        let (xa, xb) = (vg[ga], vg[gb]);
        assert(call_ensures(eval, (&g[i].op, xa, xb), Ok::<u64, EngineError>(vg[i])));
        assert(call_ensures(eval, (&h[j].op, vh[ha], vh[hb]), Ok::<u64, EngineError>(vh[j])));
        if equiv(term(hm, ha), term(gm, ga)) && equiv(term(hm, hb), term(gm, gb)) {
            lemma_equiv_same_value(g, vg, h, vh, ga, ha, lookup, eval);
            lemma_equiv_same_value(g, vg, h, vh, gb, hb, lookup, eval);
        } else {
            lemma_equiv_same_value(g, vg, h, vh, gb, ha, lookup, eval);
            lemma_equiv_same_value(g, vg, h, vh, ga, hb, lookup, eval);
            assert(call_ensures(eval, (&h[j].op, xb, xa), Ok::<u64, EngineError>(vh[j])));
            assert(call_ensures(eval, (&h[j].op, xa, xb), Ok::<u64, EngineError>(vh[j])));
        }
    }
}

/// Folding keeps the arena well formed: a folded node has no inputs, every
/// other node is as it was.
proof fn lemma_fold_wf<F: Fn(&OpType, u64, u64) -> Result<u64, EngineError>>(g: Seq<Node>, h: Seq<Node>, eval: F)
    requires
        wf_nodes(models(g)),
        h.len() == g.len(),
        forall|k: int| 0 <= k < g.len() ==> #[trigger] folds(g, h, eval, k),
    ensures
        wf_nodes(models(h)),
{
    assert forall|k: int| 0 <= k < h.len() implies #[trigger] node_ok(models(h), k) by {
        assert(folds(g, h, eval, k));
        assert(node_ok(models(g), k));
        assert(models(g)[k] == g[k]@);
        assert(models(h)[k] == h[k]@);
        if h[k] != g[k] {
            assert(h[k].op is Const);
        }
    }
}

/// Folding constants, then sharing common subexpressions, then reclaiming
/// dead nodes keeps the value of the output: wherever the arena before the
/// passes and the one after both evaluate, the output after has the value
/// of the output before, for evaluation that answers each question one way and
/// lets `+` and `*` commute.
pub proof fn lemma_pipeline_keeps_value<L: Fn(&String) -> Option<u64>, F: Fn(&OpType, u64, u64) -> Result<u64, EngineError>>(
    g0: Seq<Node>,
    g1: Seq<Node>,
    g2: Seq<Node>,
    remap: Seq<usize>,
    keep: Seq<bool>,
    g3: Seq<Node>,
    lookup: L,
    eval: F,
    v0: Seq<u64>,
    v3: Seq<u64>,
)
    requires
        wf_nodes(models(g0)),
        g0.len() > 0,
        g1.len() == g0.len(),
        forall|k: int| 0 <= k < g0.len() ==> #[trigger] folds(g0, g1, eval, k),
        cse_result(models(g1), models(g2), remap),
        is_live_set(models(g2), keep),
        compacted(models(g2), keep, models(g3)),
        deterministic(eval),
        reads_alike(lookup),
        eval_commutes(eval),
        evaluates(g0, lookup, eval, v0),
        evaluates(g3, lookup, eval, v3),
    ensures
        g3.len() > 0,
        v3[g3.len() - 1] == v0[g0.len() - 1],
{
    lemma_fold_wf(g0, g1, eval);
    lemma_fold_preserves_values(g0, g1, lookup, eval, v0);
    lemma_share_then_reclaim(models(g1), models(g2), remap, keep, models(g3));
    lemma_equiv_same_value(g1, v0, g3, v3, g1.len() - 1, g3.len() - 1, lookup, eval);
}

} // verus!
