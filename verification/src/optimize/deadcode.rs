//! Dead-node elimination (DCE): drop nodes unreachable from the output.
//!
//! Constant folding and CSE never delete; they leave redirected or folded nodes
//! resident as unreachable orphans. DCE reclaims them: mark reverse
//! reachability from the output (the last node), then compact the survivors
//! into a fresh arena. Compacting in ascending index order preserves the
//! "inputs precede their node" invariant and keeps the output last. DCE is the
//! only pass that renumbers, so any index cached before it is stale.

use vstd::prelude::*;
use crate::graph::arena::Graph;
use crate::graph::node::{Node, NodeView};
use crate::graph::topo::{equiv, feeds, node_ok, term, used, used_from, wf_nodes};
use crate::optimize::cse::{cse_result, lemma_cse_equiv, lemma_cse_wf};

verus! {

/// `keep` marks exactly the nodes the last node of `g` depends on: the last
/// node, every input of a marked node, and nothing that no later marked node
/// takes as an input.
pub open spec fn is_live_set(g: Seq<NodeView>, keep: Seq<bool>) -> bool {
    &&& keep.len() == g.len()
    &&& g.len() > 0 ==> keep[g.len() - 1]
    &&& forall|k: int, t: int|
        #![trigger keep[k], g[k].inputs[t]]
        0 <= k < g.len() && keep[k] && 0 <= t < g[k].inputs.len() ==> keep[g[k].inputs[t] as int]
    &&& forall|i: int|
        0 <= i < g.len() && #[trigger] keep[i] && i != g.len() - 1 ==> exists|k: int|
            i < k < g.len() && keep[k] && #[trigger] g[k].inputs.contains(i as usize)
}

/// The number of marked positions before `i`: the new index of a kept node.
pub open spec fn rank(keep: Seq<bool>, i: int) -> nat
    decreases i,
{
    if i <= 0 {
        0
    } else {
        rank(keep, i - 1) + if keep[i - 1] { 1nat } else { 0nat }
    }
}

/// The node `n` with every input renumbered by `rank`.
pub open spec fn renumbered(n: NodeView, keep: Seq<bool>) -> NodeView {
    NodeView { op: n.op, inputs: n.inputs.map_values(|x: usize| rank(keep, x as int) as usize) }
}

/// `h` holds the nodes of `g` that `keep` marks, in order, renumbered.
pub open spec fn compacted(g: Seq<NodeView>, keep: Seq<bool>, h: Seq<NodeView>) -> bool {
    &&& h.len() == rank(keep, g.len() as int)
    &&& forall|i: int|
        0 <= i < g.len() && #[trigger] keep[i] ==> h[rank(keep, i) as int] == renumbered(g[i], keep)
}

pub(crate) proof fn lemma_rank_mono(keep: Seq<bool>, a: int, b: int)
    requires
        0 <= a <= b <= keep.len(),
    ensures
        rank(keep, a) <= rank(keep, b),
        a < b && keep[a] ==> rank(keep, a) < rank(keep, b),
        rank(keep, b) <= b,
    decreases b,
{
    if b > 0 {
        if a < b {
            lemma_rank_mono(keep, a, b - 1);
        } else {
            lemma_rank_mono(keep, 0, b - 1);
        }
    }
}

/// Every new index is the rank of some kept node.
pub(crate) proof fn lemma_rank_onto(keep: Seq<bool>, b: int, p: int)
    requires
        0 <= b <= keep.len(),
        0 <= p < rank(keep, b),
    ensures
        exists|i: int| 0 <= i < b && keep[i] && rank(keep, i) == p,
    decreases b,
{
    if p < rank(keep, b - 1) {
        lemma_rank_onto(keep, b - 1, p);
        let i = choose|i: int| 0 <= i < b - 1 && keep[i] && rank(keep, i) == p;
        assert(0 <= i < b && keep[i] && rank(keep, i) == p);
    } else {
        assert(keep[b - 1] && rank(keep, b - 1) == p);
    }
}

proof fn lemma_rank_all(keep: Seq<bool>, i: int)
    requires
        0 <= i <= keep.len(),
        forall|k: int| 0 <= k < keep.len() ==> keep[k],
    ensures
        rank(keep, i) == i,
    decreases i,
{
    if i > 0 {
        lemma_rank_all(keep, i - 1);
    }
}

/// Every input of a kept node is kept.
pub open spec fn closed_under_inputs(g: Seq<NodeView>, keep: Seq<bool>) -> bool {
    forall|k: int, t: int|
        #![trigger keep[k], g[k].inputs[t]]
        0 <= k < g.len() && keep[k] && 0 <= t < g[k].inputs.len() ==> keep[g[k].inputs[t] as int]
}

proof fn lemma_renumbered_input(g: Seq<NodeView>, keep: Seq<bool>, h: Seq<NodeView>, i: int, t: int)
    requires
        wf_nodes(g),
        keep.len() == g.len(),
        closed_under_inputs(g, keep),
        compacted(g, keep, h),
        0 <= i < g.len(),
        keep[i],
        0 <= t < g[i].inputs.len(),
    ensures
        keep[g[i].inputs[t] as int],
        g[i].inputs[t] < i,
        h[rank(keep, i) as int].inputs.len() == g[i].inputs.len(),
        h[rank(keep, i) as int].inputs[t] as int == rank(keep, g[i].inputs[t] as int),
        rank(keep, g[i].inputs[t] as int) < rank(keep, i),
        rank(keep, i) < h.len(),
{
    assert(node_ok(g, i));
    let x = g[i].inputs[t] as int;
    assert(keep[x]);
    lemma_rank_mono(keep, x, i);
    lemma_rank_mono(keep, x, x);
    lemma_rank_mono(keep, i, g.len() as int);
    lemma_rank_mono(keep, x, g.len() as int);
    assert(h[rank(keep, i) as int] == renumbered(g[i], keep));
}

/// The kept nodes keep the terms they denoted.
proof fn lemma_compacted_terms(g: Seq<NodeView>, keep: Seq<bool>, h: Seq<NodeView>, i: int)
    requires
        wf_nodes(g),
        keep.len() == g.len(),
        closed_under_inputs(g, keep),
        compacted(g, keep, h),
        0 <= i < g.len(),
        keep[i],
    ensures
        term(h, rank(keep, i) as int) == term(g, i),
    decreases i,
{
    assert(node_ok(g, i));
    let n = g[i];
    lemma_rank_mono(keep, i, g.len() as int);
    assert(h[rank(keep, i) as int] == renumbered(n, keep));
    if n.inputs.len() >= 1 {
        lemma_renumbered_input(g, keep, h, i, 0);
        lemma_compacted_terms(g, keep, h, n.inputs[0] as int);
    }
    if n.inputs.len() == 2 {
        lemma_renumbered_input(g, keep, h, i, 1);
        lemma_compacted_terms(g, keep, h, n.inputs[1] as int);
    }
}

/// The compacted arena is well formed.
pub(crate) proof fn lemma_compacted_wf(g: Seq<NodeView>, keep: Seq<bool>, h: Seq<NodeView>)
    requires
        wf_nodes(g),
        keep.len() == g.len(),
        closed_under_inputs(g, keep),
        compacted(g, keep, h),
    ensures
        wf_nodes(h),
{
    assert forall|p: int| 0 <= p < h.len() implies #[trigger] node_ok(h, p) by {
        lemma_rank_onto(keep, g.len() as int, p);
        let i0 = choose|i: int| 0 <= i < g.len() && keep[i] && rank(keep, i) == p;
        assert(h[p] == renumbered(g[i0], keep));
        assert(node_ok(g, i0));
        assert forall|t: int| 0 <= t < h[p].inputs.len() implies #[trigger] h[p].inputs[t] < p by {
            lemma_renumbered_input(g, keep, h, i0, t);
        }
    }
}

/// A kept node other than the last feeds a later kept node, and compaction
/// keeps that edge.
proof fn lemma_compacted_used_at(g: Seq<NodeView>, keep: Seq<bool>, h: Seq<NodeView>, i: int)
    requires
        wf_nodes(g),
        g.len() <= usize::MAX,
        is_live_set(g, keep),
        compacted(g, keep, h),
        0 <= i < g.len() - 1,
        keep[i],
    ensures
        used(h, rank(keep, i) as int),
{
    let n = g.len() as int;
    assert(exists|k: int| i < k < g.len() && keep[k] && #[trigger] g[k].inputs.contains(i as usize));
    let k = choose|k: int| i < k < g.len() && keep[k] && #[trigger] g[k].inputs.contains(i as usize);
    let t = choose|t: int| 0 <= t < g[k].inputs.len() && g[k].inputs[t] == i as usize;
    assert(g[k].inputs[t] as int == i);
    lemma_rank_mono(keep, i, k);
    lemma_rank_mono(keep, k, n);
    let rk = rank(keep, k) as int;
    assert(h[rk] == renumbered(g[k], keep));
    assert(h[rk].inputs[t] == rank(keep, i) as usize);
    assert(feeds(h, rank(keep, i) as int, rk));
}

/// After compaction nothing is left unused: every node but the last is an
/// input of a later one.
#[verifier::spinoff_prover]
proof fn lemma_compacted_used(g: Seq<NodeView>, keep: Seq<bool>, h: Seq<NodeView>)
    requires
        wf_nodes(g),
        g.len() > 0,
        g.len() <= usize::MAX,
        is_live_set(g, keep),
        compacted(g, keep, h),
    ensures
        used_from(h, 0),
{
    let n = g.len() as int;
    lemma_rank_mono(keep, n - 1, n);
    assert forall|p: int| 0 <= p < h.len() - 1 implies #[trigger] used(h, p) by {
        lemma_rank_onto(keep, n, p);
        let i = choose|i: int| 0 <= i < n && keep[i] && rank(keep, i) == p;
        lemma_compacted_used_at(g, keep, h, i);
    }
}

/// A node that feeds a live node is live.
proof fn lemma_feeds_live(g: Seq<NodeView>, keep: Seq<bool>, i: int, k: int)
    requires
        is_live_set(g, keep),
        g.len() <= usize::MAX,
        0 <= i < k < g.len(),
        keep[k],
        feeds(g, i, k),
    ensures
        keep[i],
{
    let t = choose|t: int| 0 <= t < g[k].inputs.len() && g[k].inputs[t] == i as usize;
    assert(g[k].inputs[t] as int == i);
    assert(keep[g[k].inputs[t] as int]);
}

/// In an arena where nothing is unused, every node is live.
proof fn lemma_all_live(g: Seq<NodeView>, keep: Seq<bool>, i: int)
    requires
        g.len() > 0,
        g.len() <= usize::MAX,
        is_live_set(g, keep),
        used_from(g, 0),
        0 <= i <= g.len(),
    ensures
        forall|j: int| i <= j < g.len() ==> keep[j],
    decreases g.len() - i,
{
    if i < g.len() {
        lemma_all_live(g, keep, i + 1);
        if i < g.len() - 1 {
            assert(used(g, i));
            let k = choose|k: int| i < k < g.len() && #[trigger] feeds(g, i, k);
            lemma_feeds_live(g, keep, i, k);
        }
    }
}

/// Compacting an arena in which every node is live changes nothing.
proof fn lemma_compact_all(g: Seq<NodeView>, keep: Seq<bool>, h: Seq<NodeView>)
    requires
        wf_nodes(g),
        keep.len() == g.len(),
        forall|j: int| 0 <= j < g.len() ==> keep[j],
        compacted(g, keep, h),
    ensures
        h == g,
{
    lemma_rank_all(keep, g.len() as int);
    assert forall|i: int| 0 <= i < g.len() implies h[i] == g[i] by {
        lemma_rank_all(keep, i);
        assert(node_ok(g, i));
        assert(keep[i]);
        assert(h[rank(keep, i) as int] == renumbered(g[i], keep));
        assert forall|t: int| 0 <= t < g[i].inputs.len() implies #[trigger] renumbered(g[i], keep).inputs[t] == g[i].inputs[t] by {
            lemma_rank_all(keep, g[i].inputs[t] as int);
        }
        assert(renumbered(g[i], keep).inputs =~= g[i].inputs);
    }
    assert(h =~= g);
}

/// Reclaiming leaves an arena with nothing unused as it is; a freshly
/// compiled graph is such an arena.
pub proof fn lemma_nothing_to_reclaim(g: Seq<NodeView>, keep: Seq<bool>, h: Seq<NodeView>)
    requires
        wf_nodes(g),
        g.len() > 0,
        g.len() <= usize::MAX,
        used_from(g, 0),
        is_live_set(g, keep),
        compacted(g, keep, h),
    ensures
        h == g,
{
    lemma_all_live(g, keep, 0);
    lemma_compact_all(g, keep, h);
}

/// Reclaiming is idempotent: an arena that dead-node elimination produced has
/// nothing unused, and reclaiming such an arena again keeps it as it is.
pub proof fn lemma_reclaim_twice(g: Seq<NodeView>, keep1: Seq<bool>, h: Seq<NodeView>, keep2: Seq<bool>, h2: Seq<NodeView>)
    requires
        wf_nodes(g),
        g.len() > 0,
        g.len() <= usize::MAX,
        is_live_set(g, keep1),
        compacted(g, keep1, h),
        is_live_set(h, keep2),
        compacted(h, keep2, h2),
    ensures
        h2 == h,
{
    let n = g.len() as int;
    lemma_rank_mono(keep1, n - 1, n);
    lemma_rank_mono(keep1, 0, n);
    lemma_compacted_wf(g, keep1, h);
    lemma_compacted_used(g, keep1, h);
    lemma_nothing_to_reclaim(h, keep2, h2);
}

/// Sharing then reclaiming keeps what the output computes: after
/// common-subexpression elimination and then dead-node elimination, the last
/// node denotes the same expression as the last node before both, up to the
/// order of the operands of `+` and `*`, and the arena stays well formed.
pub proof fn lemma_share_then_reclaim(
    g0: Seq<NodeView>,
    g1: Seq<NodeView>,
    remap: Seq<usize>,
    keep: Seq<bool>,
    g2: Seq<NodeView>,
)
    requires
        wf_nodes(g0),
        g0.len() > 0,
        cse_result(g0, g1, remap),
        is_live_set(g1, keep),
        compacted(g1, keep, g2),
    ensures
        wf_nodes(g2),
        g2.len() > 0,
        equiv(term(g2, g2.len() - 1), term(g0, g0.len() - 1)),
{
    let n = g1.len() as int;
    lemma_cse_wf(g0, g1, remap);
    lemma_cse_equiv(g0, g1, remap, n - 1);
    lemma_rank_mono(keep, n - 1, n);
    lemma_compacted_terms(g1, keep, g2, n - 1);
    lemma_compacted_wf(g1, keep, g2);
    assert(rank(keep, n) == rank(keep, n - 1) + 1);
}

impl Graph {
    /// Mark the nodes the output depends on, sweeping downward: a node's inputs
    /// sit below it, so its mark is final when the sweep reaches it.
    fn mark_live(&self) -> (keep: Vec<bool>)
        requires
            self.wf(),
            self@.len() > 0,
        ensures
            is_live_set(self@, keep@),
    {
        let ghost g = self@;
        let n = self.nodes.len();
        let mut keep: Vec<bool> = Vec::new();
        let mut i: usize = 0;
        while i < n
            invariant
                i <= n,
                keep@.len() == i,
                forall|k: int| 0 <= k < i ==> !keep@[k],
            decreases n - i,
        {
            keep.push(false);
            i = i + 1;
        }
        keep.set(n - 1, true);
        let mut j: usize = n;
        while j > 0
            invariant
                self@ == g,
                wf_nodes(g),
                n == g.len(),
                j <= n,
                keep@.len() == n,
                keep@[n - 1],
                forall|k: int, t: int|
                    #![trigger keep@[k], g[k].inputs[t]]
                    j <= k < n && keep@[k] && 0 <= t < g[k].inputs.len() ==> keep@[g[k].inputs[t] as int],
                forall|a: int|
                    0 <= a < n && #[trigger] keep@[a] && a != n - 1 ==> exists|k: int|
                        a < k < n && j <= k && keep@[k] && #[trigger] g[k].inputs.contains(a as usize),
            decreases j,
        {
            j = j - 1;
            if keep[j] {
                let m = self.nodes[j].inputs.len();
                let mut t: usize = 0;
                proof {
                    assert(node_ok(g, j as int));
                    assert(self.nodes@[j as int]@ == g[j as int]);
                }
                while t < m
                    invariant
                        self@ == g,
                        wf_nodes(g),
                        n == g.len(),
                        j < n,
                        m == g[j as int].inputs.len(),
                        self.nodes@[j as int].inputs@ == g[j as int].inputs,
                        t <= m,
                        keep@.len() == n,
                        keep@[n - 1],
                        keep@[j as int],
                        forall|s: int| 0 <= s < t ==> keep@[g[j as int].inputs[s] as int],
                        forall|k: int, u: int|
                            #![trigger keep@[k], g[k].inputs[u]]
                            j < k < n && keep@[k] && 0 <= u < g[k].inputs.len() ==> keep@[g[k].inputs[u] as int],
                        forall|a: int|
                            0 <= a < n && #[trigger] keep@[a] && a != n - 1 ==> exists|k: int|
                                a < k < n && j <= k && keep@[k] && #[trigger] g[k].inputs.contains(a as usize),
                    decreases m - t,
                {
                    let a = self.nodes[j].inputs[t];
                    proof {
                        assert(node_ok(g, j as int));
                        assert(g[j as int].inputs[t as int] < j);
                        assert(g[j as int].inputs.contains(a));
                    }
                    let ghost before = keep@;
                    keep.set(a, true);
                    proof {
                        assert forall|k: int, u: int|
                            #![trigger keep@[k], g[k].inputs[u]]
                            j < k < n && keep@[k] && 0 <= u < g[k].inputs.len() implies keep@[g[k].inputs[u] as int] by {
                            assert(node_ok(g, k));
                            assert(before[k]);
                            assert(before[g[k].inputs[u] as int]);
                        }
                        assert forall|b: int|
                            0 <= b < n && #[trigger] keep@[b] && b != n - 1 implies exists|k: int|
                                b < k < n && j <= k && keep@[k] && #[trigger] g[k].inputs.contains(b as usize) by {
                            if b == a as int {
                                assert(g[j as int].inputs.contains(b as usize));
                            } else {
                                assert(before[b]);
                                let k0 = choose|k: int| b < k < n && j <= k && before[k] && #[trigger] g[k].inputs.contains(b as usize);
                                assert(keep@[k0]);
                            }
                        }
                    }
                    t = t + 1;
                }
            }
        }
        keep
    }

    /// Remove every node unreachable from the output (the last node),
    /// renumbering the survivors in ascending order, and return how many were
    /// removed. The output stays last and denotes the same expression.
    pub fn dce(&mut self) -> (removed: usize)
        requires
            old(self).wf(),
        ensures
            final(self).wf(),
            exists|keep: Seq<bool>| is_live_set(old(self)@, keep) && compacted(old(self)@, keep, final(self)@),
            removed == old(self)@.len() - final(self)@.len(),
            old(self)@.len() > 0 ==> final(self)@.len() > 0 && term(final(self)@, final(self)@.len() - 1)
                == term(old(self)@, old(self)@.len() - 1),
            old(self)@.len() == 0 ==> final(self)@.len() == 0,
            used_from(final(self)@, 0),
            used_from(old(self)@, 0) ==> final(self)@ == old(self)@,
    {
        let ghost g = self@;
        let n = self.nodes.len();
        if n == 0 {
            proof {
                assert(is_live_set(g, Seq::<bool>::empty()));
                assert(compacted(g, Seq::<bool>::empty(), self@));
            }
            return 0;
        }
        // 1. Mark everything reachable from the output.
        let keep = self.mark_live();
        // 2. New index for each node: how many survivors precede it.
        let mut remap: Vec<usize> = Vec::new();
        let mut next: usize = 0;
        let mut i: usize = 0;
        while i < n
            invariant
                i <= n,
                n == keep@.len(),
                remap@.len() == i,
                next == rank(keep@, i as int),
                next <= i,
                forall|k: int| 0 <= k < i ==> remap@[k] == rank(keep@, k),
            decreases n - i,
        {
            remap.push(next);
            if keep[i] {
                next = next + 1;
            }
            i = i + 1;
        }
        // 3. Rebuild the arena from the survivors, rewiring their inputs.
        let nodes = self.compact(&keep, &remap);
        self.nodes = nodes;
        proof {
            let keep_s = keep@;
            let h = self@;
            lemma_rank_mono(keep_s, n - 1, n as int);
            lemma_compacted_terms(g, keep_s, h, n - 1);
            lemma_compacted_wf(g, keep_s, h);
            lemma_compacted_used(g, keep_s, h);
            if used_from(g, 0) {
                lemma_all_live(g, keep_s, 0);
                lemma_compact_all(g, keep_s, h);
            }
        }
        n - self.nodes.len()
    }

    /// The nodes that `keep` marks, in order, with inputs renumbered by
    /// `remap`.
    fn compact(&self, keep: &Vec<bool>, remap: &Vec<usize>) -> (nodes: Vec<Node>)
        requires
            self.wf(),
            is_live_set(self@, keep@),
            remap@.len() == self@.len(),
            forall|k: int| 0 <= k < self@.len() ==> remap@[k] == rank(keep@, k),
        ensures
            compacted(self@, keep@, nodes@.map_values(|n: Node| n@)),
    {
        let ghost g = self@;
        let n = self.nodes.len();
        let mut nodes: Vec<Node> = Vec::new();
        let mut i: usize = 0;
        while i < n
            invariant
                self@ == g,
                wf_nodes(g),
                is_live_set(g, keep@),
                n == g.len(),
                i <= n,
                remap@.len() == n,
                forall|k: int| 0 <= k < n ==> remap@[k] == rank(keep@, k),
                nodes@.len() == rank(keep@, i as int),
                forall|k: int|
                    0 <= k < i && #[trigger] keep@[k] ==> nodes@[rank(keep@, k) as int]@ == renumbered(g[k], keep@),
            decreases n - i,
        {
            if keep[i] {
                let node = &self.nodes[i];
                let mut inputs: Vec<usize> = Vec::new();
                let mut t: usize = 0;
                proof {
                    assert(node@ == g[i as int]);
                    assert(node_ok(g, i as int));
                }
                while t < node.inputs.len()
                    invariant
                        node@ == g[i as int],
                        node_ok(g, i as int),
                        n == g.len(),
                        i < n,
                        remap@.len() == n,
                        forall|k: int| 0 <= k < n ==> remap@[k] == rank(keep@, k),
                        t <= node.inputs@.len(),
                        inputs@ == node.inputs@.take(t as int).map_values(|x: usize| rank(keep@, x as int) as usize),
                    decreases node.inputs@.len() - t,
                {
                    inputs.push(remap[node.inputs[t]]);
                    t = t + 1;
                    proof {
                        assert(inputs@ =~= node.inputs@.take(t as int).map_values(|x: usize| rank(keep@, x as int) as usize));
                    }
                }
                proof {
                    assert(node.inputs@.take(node.inputs@.len() as int) =~= node.inputs@);
                }
                let ghost before = nodes@;
                nodes.push(Node { op: node.op.duplicate(), inputs });
                proof {
                    assert forall|k: int|
                        0 <= k < i + 1 && #[trigger] keep@[k] implies nodes@[rank(keep@, k) as int]@ == renumbered(g[k], keep@) by {
                        if k < i {
                            lemma_rank_mono(keep@, k, i as int);
                            assert(nodes@[rank(keep@, k) as int] == before[rank(keep@, k) as int]);
                        }
                    }
                }
            }
            i = i + 1;
        }
        proof {
            let h = nodes@.map_values(|n: Node| n@);
            assert forall|k: int| 0 <= k < g.len() && #[trigger] keep@[k] implies h[rank(keep@, k) as int] == renumbered(g[k], keep@) by {
                lemma_rank_mono(keep@, k, n as int);
            }
        }
        nodes
    }
}

} // verus!
