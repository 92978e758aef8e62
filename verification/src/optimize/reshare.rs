//! What sharing and reclaiming leave behind.
//!
//! When every node of an arena feeds the output, dead-node elimination after
//! CSE removes exactly the nodes CSE redirected: the output is no duplicate
//! (a duplicate is as tall as its representative, and the output is taller
//! than every other node), and every representative feeds a representative.
//!
//! After common-subexpression elimination every input is a representative, so
//! the only node dead-node elimination can keep besides representatives is
//! the output; and a representative the output duplicates cannot feed the
//! output. The survivors therefore have pairwise different canonical keys,
//! renumbering keeps them different, and sharing once more finds nothing.

use vstd::prelude::*;
use crate::graph::key::canonical_view;
use crate::graph::node::{NodeView, commutes};
use crate::graph::topo::{feeds, node_ok, used, used_from, wf_nodes};
use crate::optimize::cse::{cse_result, lemma_cse_wf, moved, represents, rewired};
use crate::optimize::deadcode::{
    compacted, is_live_set, lemma_compacted_wf, lemma_rank_mono, lemma_rank_onto, rank, renumbered,
};

verus! {

/// No two nodes of `g` have the same canonical key.
pub open spec fn keys_distinct(g: Seq<NodeView>) -> bool {
    forall|i: int, j: int|
        0 <= i < j < g.len() ==> canonical_view(#[trigger] g[i]) != canonical_view(#[trigger] g[j])
}

/// Two nodes with one canonical key have the same op and the same inputs, in
/// the same or the swapped order.
proof fn lemma_same_key_inputs(a: NodeView, b: NodeView)
    requires
        canonical_view(a) == canonical_view(b),
    ensures
        a.op == b.op,
        a.inputs.len() == b.inputs.len(),
        forall|t: int| 0 <= t < b.inputs.len() ==> a.inputs.contains(#[trigger] b.inputs[t]),
{
    assert forall|t: int| 0 <= t < b.inputs.len() implies a.inputs.contains(#[trigger] b.inputs[t]) by {
        if b.inputs[t] == a.inputs[t] {
            assert(a.inputs[t] == b.inputs[t]);
        } else {
            assert(a.inputs[1 - t] == b.inputs[t]);
        }
    }
}

/// A kept node other than the output is the input of a later kept node, and
/// every input after CSE is a representative.
proof fn lemma_kept_represents(g0: Seq<NodeView>, g1: Seq<NodeView>, remap: Seq<usize>, keep: Seq<bool>, x: int)
    requires
        wf_nodes(g0),
        cse_result(g0, g1, remap),
        is_live_set(g1, keep),
        g1.len() <= usize::MAX,
        0 <= x < g1.len() - 1,
        keep[x],
    ensures
        remap[x] == x,
{
    let k = choose|k: int| x < k < g1.len() && keep[k] && #[trigger] g1[k].inputs.contains(x as usize);
    let t = choose|t: int| 0 <= t < g1[k].inputs.len() && g1[k].inputs[t] == x as usize;
    assert(rewired(g0, g1, remap, k));
    assert(node_ok(g0, k));
    let y = g0[k].inputs[t] as int;
    assert(g1[k].inputs[t] == remap[y]);
    assert(represents(g1, remap, y));
}

/// A kept node below the output reaches it: the output has an input at or
/// above it.
proof fn lemma_reaches_output(g: Seq<NodeView>, keep: Seq<bool>, x: int)
    requires
        is_live_set(g, keep),
        g.len() <= usize::MAX,
        0 <= x < g.len() - 1,
        keep[x],
    ensures
        exists|t: int| 0 <= t < g[g.len() - 1].inputs.len() && #[trigger] g[g.len() - 1].inputs[t] >= x,
    decreases g.len() - x,
{
    let k = choose|k: int| x < k < g.len() && keep[k] && #[trigger] g[k].inputs.contains(x as usize);
    if k == g.len() - 1 {
        let t = choose|t: int| 0 <= t < g[k].inputs.len() && g[k].inputs[t] == x as usize;
        assert(g[g.len() - 1].inputs[t] == x);
    } else {
        lemma_reaches_output(g, keep, k);
    }
}

/// The nodes dead-node elimination keeps after CSE have pairwise different
/// canonical keys.
proof fn lemma_kept_keys_distinct(g0: Seq<NodeView>, g1: Seq<NodeView>, remap: Seq<usize>, keep: Seq<bool>)
    requires
        wf_nodes(g0),
        cse_result(g0, g1, remap),
        is_live_set(g1, keep),
        g1.len() <= usize::MAX,
    ensures
        forall|i: int, j: int|
            0 <= i < j < g1.len() && #[trigger] keep[i] && #[trigger] keep[j] ==> canonical_view(g1[i])
                != canonical_view(g1[j]),
{
    lemma_cse_wf(g0, g1, remap);
    let n = g1.len() as int;
    assert forall|i: int, j: int|
        0 <= i < j < n && #[trigger] keep[i] && #[trigger] keep[j] implies canonical_view(g1[i])
            != canonical_view(g1[j]) by {
        lemma_kept_represents(g0, g1, remap, keep, i);
        assert(represents(g1, remap, i));
        assert(represents(g1, remap, j));
        if j < n - 1 {
            lemma_kept_represents(g0, g1, remap, keep, j);
        } else if remap[j] != j {
            let r = remap[j] as int;
            assert(represents(g1, remap, r));
            if canonical_view(g1[i]) == canonical_view(g1[j]) {
                if r == i {
                    lemma_reaches_output(g1, keep, r);
                    let t = choose|t: int| 0 <= t < g1[n - 1].inputs.len() && #[trigger] g1[n - 1].inputs[t] >= r;
                    lemma_same_key_inputs(g1[r], g1[n - 1]);
                    assert(g1[r].inputs.contains(g1[n - 1].inputs[t]));
                    let s = choose|s: int| 0 <= s < g1[r].inputs.len() && g1[r].inputs[s] == g1[n - 1].inputs[t];
                    assert(node_ok(g1, r));
                    assert(g1[r].inputs[s] < r);
                }
            }
        }
    }
}

/// Renumbering a node whose inputs are kept commutes with putting its
/// operands in order.
#[verifier::spinoff_prover]
proof fn lemma_renumber_canonical(g: Seq<NodeView>, keep: Seq<bool>, i: int)
    requires
        wf_nodes(g),
        is_live_set(g, keep),
        0 <= i < g.len(),
        keep[i],
    ensures
        canonical_view(renumbered(g[i], keep)) == renumbered(canonical_view(g[i]), keep),
{
    let n = g[i];
    assert(node_ok(g, i));
    if commutes(n.op) && n.inputs.len() == 2 {
        let a = n.inputs[0] as int;
        let b = n.inputs[1] as int;
        assert(keep[a]);
        assert(keep[b]);
        if a > b {
            lemma_rank_mono(keep, b, a);
            assert(renumbered(canonical_view(n), keep).inputs =~= canonical_view(renumbered(n, keep)).inputs);
        } else {
            lemma_rank_mono(keep, a, b);
        }
    }
}

/// Renumbering is one to one on nodes whose inputs are kept.
proof fn lemma_renumber_injective(keep: Seq<bool>, c1: NodeView, c2: NodeView)
    requires
        keep.len() <= usize::MAX,
        forall|t: int| 0 <= t < c1.inputs.len() ==> #[trigger] c1.inputs[t] < keep.len() && keep[c1.inputs[t] as int],
        forall|t: int| 0 <= t < c2.inputs.len() ==> #[trigger] c2.inputs[t] < keep.len() && keep[c2.inputs[t] as int],
        renumbered(c1, keep) == renumbered(c2, keep),
    ensures
        c1 == c2,
{
    assert(renumbered(c1, keep).inputs.len() == c1.inputs.len());
    assert(renumbered(c2, keep).inputs.len() == c2.inputs.len());
    assert forall|t: int| 0 <= t < c1.inputs.len() implies c1.inputs[t] == c2.inputs[t] by {
        let x = c1.inputs[t] as int;
        let y = c2.inputs[t] as int;
        assert(renumbered(c1, keep).inputs[t] == renumbered(c2, keep).inputs[t]);
        assert(renumbered(c1, keep).inputs[t] == rank(keep, x) as usize);
        assert(renumbered(c2, keep).inputs[t] == rank(keep, y) as usize);
        lemma_rank_mono(keep, x, keep.len() as int);
        lemma_rank_mono(keep, y, keep.len() as int);
        if x < y {
            lemma_rank_mono(keep, x, y);
        } else if y < x {
            lemma_rank_mono(keep, y, x);
        }
    }
    assert(c1.inputs =~= c2.inputs);
}

/// Two survivors with the same canonical key after renumbering had the same
/// canonical key before.
#[verifier::spinoff_prover]
proof fn lemma_renumbered_keys(g1: Seq<NodeView>, keep: Seq<bool>, i: int, j: int)
    requires
        wf_nodes(g1),
        is_live_set(g1, keep),
        g1.len() <= usize::MAX,
        0 <= i < g1.len(),
        0 <= j < g1.len(),
        keep[i],
        keep[j],
        canonical_view(renumbered(g1[i], keep)) == canonical_view(renumbered(g1[j], keep)),
    ensures
        canonical_view(g1[i]) == canonical_view(g1[j]),
{
    lemma_renumber_canonical(g1, keep, i);
    lemma_renumber_canonical(g1, keep, j);
    let ci = canonical_view(g1[i]);
    let cj = canonical_view(g1[j]);
    assert(node_ok(g1, i));
    assert(node_ok(g1, j));
    lemma_same_key_inputs(g1[i], ci);
    lemma_same_key_inputs(g1[j], cj);
    assert forall|t: int| 0 <= t < ci.inputs.len() implies #[trigger] ci.inputs[t] < keep.len() && keep[ci.inputs[t] as int] by {
        assert(g1[i].inputs.contains(ci.inputs[t]));
        let s = choose|s: int| 0 <= s < g1[i].inputs.len() && g1[i].inputs[s] == ci.inputs[t];
        assert(keep[g1[i].inputs[s] as int]);
    }
    assert forall|t: int| 0 <= t < cj.inputs.len() implies #[trigger] cj.inputs[t] < keep.len() && keep[cj.inputs[t] as int] by {
        assert(g1[j].inputs.contains(cj.inputs[t]));
        let s = choose|s: int| 0 <= s < g1[j].inputs.len() && g1[j].inputs[s] == cj.inputs[t];
        assert(keep[g1[j].inputs[s] as int]);
    }
    lemma_renumber_injective(keep, ci, cj);
}

/// The survivors' canonical keys stay pairwise different after renumbering.
proof fn lemma_compacted_keys_distinct(g1: Seq<NodeView>, keep: Seq<bool>, g2: Seq<NodeView>)
    requires
        wf_nodes(g1),
        is_live_set(g1, keep),
        g1.len() <= usize::MAX,
        compacted(g1, keep, g2),
        forall|i: int, j: int|
            0 <= i < j < g1.len() && #[trigger] keep[i] && #[trigger] keep[j] ==> canonical_view(g1[i])
                != canonical_view(g1[j]),
    ensures
        keys_distinct(g2),
{
    let n = g1.len() as int;
    assert forall|p: int, q: int| 0 <= p < q < g2.len() implies canonical_view(#[trigger] g2[p])
        != canonical_view(#[trigger] g2[q]) by {
        lemma_rank_onto(keep, n, p);
        lemma_rank_onto(keep, n, q);
        let i = choose|i: int| 0 <= i < n && keep[i] && rank(keep, i) == p;
        let j = choose|j: int| 0 <= j < n && keep[j] && rank(keep, j) == q;
        assert(g2[p] == renumbered(g1[i], keep));
        assert(g2[q] == renumbered(g1[j], keep));
        if canonical_view(g2[p]) == canonical_view(g2[q]) {
            lemma_renumbered_keys(g1, keep, i, j);
            if i < j {
                assert(keep[i] && keep[j]);
            } else if j < i {
                assert(keep[j] && keep[i]);
            }
        }
    }
}

/// On an arena whose canonical keys are pairwise different, CSE redirects
/// nothing among the first `i` nodes and leaves them as they are.
proof fn lemma_cse_identity(g: Seq<NodeView>, h: Seq<NodeView>, remap: Seq<usize>, i: int)
    requires
        wf_nodes(g),
        keys_distinct(g),
        cse_result(g, h, remap),
        0 <= i <= g.len(),
    ensures
        forall|k: int| 0 <= k < i ==> #[trigger] remap[k] == k,
        forall|k: int| 0 <= k < i ==> #[trigger] h[k] == g[k],
        moved(remap, i) == 0,
    decreases i,
{
    if i > 0 {
        lemma_cse_identity(g, h, remap, i - 1);
        let k = i - 1;
        assert(node_ok(g, k));
        assert(rewired(g, h, remap, k));
        assert forall|t: int| 0 <= t < g[k].inputs.len() implies #[trigger] h[k].inputs[t] == g[k].inputs[t] by {
            assert(g[k].inputs[t] < k);
            assert(remap[g[k].inputs[t] as int] == g[k].inputs[t]);
        }
        assert(h[k].inputs =~= g[k].inputs);
        assert(represents(h, remap, k));
        if remap[k] != k {
            let r = remap[k] as int;
            assert(h[r] == g[r]);
        }
    }
}

/// The height of node `i`: 0 for a leaf, else one more than its tallest input.
pub open spec fn height(g: Seq<NodeView>, i: int) -> nat
    decreases i,
{
    if 0 <= i < g.len() {
        let ins = g[i].inputs;
        let a = if ins.len() >= 1 && ins[0] < i { height(g, ins[0] as int) + 1 } else { 0 };
        let b = if ins.len() >= 2 && ins[1] < i { height(g, ins[1] as int) + 1 } else { 0 };
        if a >= b { a } else { b }
    } else {
        0
    }
}

/// An input is lower than the node it feeds.
proof fn lemma_input_lower(g: Seq<NodeView>, k: int, t: int)
    requires
        wf_nodes(g),
        0 <= k < g.len(),
        0 <= t < g[k].inputs.len(),
    ensures
        height(g, g[k].inputs[t] as int) < height(g, k),
{
    assert(node_ok(g, k));
    assert(g[k].inputs[t] < k);
}

/// Nodes with one canonical key are equally tall.
proof fn lemma_same_key_height(g: Seq<NodeView>, a: int, b: int)
    requires
        wf_nodes(g),
        0 <= a < g.len(),
        0 <= b < g.len(),
        canonical_view(g[a]) == canonical_view(g[b]),
    ensures
        height(g, a) == height(g, b),
{
    assert(node_ok(g, a));
    assert(node_ok(g, b));
    if g[a].inputs.len() >= 1 {
        assert(g[a].inputs[0] < a);
        assert(g[b].inputs[0] < b);
    }
    if g[a].inputs.len() >= 2 {
        assert(g[a].inputs[1] < a);
        assert(g[b].inputs[1] < b);
    }
}

/// Under CSE a node's representative is as tall as the node.
proof fn lemma_rep_height(g0: Seq<NodeView>, g1: Seq<NodeView>, remap: Seq<usize>, x: int)
    requires
        wf_nodes(g1),
        cse_result(g0, g1, remap),
        0 <= x < g1.len(),
    ensures
        height(g1, remap[x] as int) == height(g1, x),
{
    assert(represents(g1, remap, x));
    if remap[x] < x {
        lemma_same_key_height(g1, remap[x] as int, x);
    }
}

/// When every node feeds the output, the output is taller, after CSE, than
/// every other node.
proof fn lemma_output_tallest(g0: Seq<NodeView>, g1: Seq<NodeView>, remap: Seq<usize>, i: int)
    requires
        wf_nodes(g0),
        g0.len() <= usize::MAX,
        used_from(g0, 0),
        cse_result(g0, g1, remap),
        0 <= i < g0.len() - 1,
    ensures
        height(g1, i) < height(g1, g1.len() - 1),
    decreases g0.len() - i,
{
    lemma_cse_wf(g0, g1, remap);
    assert(used(g0, i));
    let k = choose|k: int| i < k < g0.len() && #[trigger] feeds(g0, i, k);
    let t = choose|t: int| 0 <= t < g0[k].inputs.len() && g0[k].inputs[t] == i as usize;
    assert(rewired(g0, g1, remap, k));
    assert(g1[k].inputs[t] == remap[i]);
    lemma_input_lower(g1, k, t);
    lemma_rep_height(g0, g1, remap, i);
    if k < g0.len() - 1 {
        lemma_output_tallest(g0, g1, remap, k);
    }
}

/// When every node feeds the output, every representative is kept.
proof fn lemma_rep_kept(g0: Seq<NodeView>, g1: Seq<NodeView>, remap: Seq<usize>, keep: Seq<bool>, i: int)
    requires
        wf_nodes(g0),
        g0.len() <= usize::MAX,
        used_from(g0, 0),
        cse_result(g0, g1, remap),
        is_live_set(g1, keep),
        0 <= i < g0.len(),
        remap[i] == i,
    ensures
        keep[i],
    decreases g0.len() - i,
{
    lemma_cse_wf(g0, g1, remap);
    if i < g0.len() - 1 {
        assert(used(g0, i));
        let k = choose|k: int| i < k < g0.len() && #[trigger] feeds(g0, i, k);
        let t = choose|t: int| 0 <= t < g0[k].inputs.len() && g0[k].inputs[t] == i as usize;
        assert(rewired(g0, g1, remap, k));
        assert(g1[k].inputs[t] == i);
        assert(represents(g1, remap, k));
        let rk = remap[k] as int;
        if rk == k {
            lemma_rep_kept(g0, g1, remap, keep, k);
            assert(keep[g1[k].inputs[t] as int]);
        } else {
            lemma_same_key_inputs(g1[rk], g1[k]);
            assert(g1[rk].inputs.contains(g1[k].inputs[t]));
            let s = choose|s: int| 0 <= s < g1[rk].inputs.len() && g1[rk].inputs[s] == g1[k].inputs[t];
            assert(node_ok(g1, rk));
            assert(g1[rk].inputs[s] < rk);
            lemma_rep_kept(g0, g1, remap, keep, rk);
            assert(keep[g1[rk].inputs[s] as int]);
        }
    }
}

/// Kept and unredirected positions coincide, so the kept count and the
/// redirected count make up the whole prefix.
proof fn lemma_rank_moved(keep: Seq<bool>, remap: Seq<usize>, i: int)
    requires
        0 <= i <= keep.len(),
        keep.len() <= usize::MAX,
        i <= remap.len(),
        forall|j: int| 0 <= j < i ==> (#[trigger] keep[j] <==> remap[j] == j),
    ensures
        rank(keep, i) + moved(remap, i) == i,
    decreases i,
{
    if i > 0 {
        lemma_rank_moved(keep, remap, i - 1);
        assert(keep[i - 1] <==> remap[i - 1] == i - 1);
    }
}

/// Reclaiming after sharing removes exactly what sharing redirected: when
/// every node of an arena feeds its output (as in a freshly compiled graph),
/// dead-node elimination after CSE keeps exactly the representatives, so it
/// removes as many nodes as CSE reported redirected.
pub proof fn lemma_reclaim_after_share(
    g0: Seq<NodeView>,
    g1: Seq<NodeView>,
    remap: Seq<usize>,
    keep: Seq<bool>,
    g2: Seq<NodeView>,
)
    requires
        wf_nodes(g0),
        g0.len() <= usize::MAX,
        used_from(g0, 0),
        cse_result(g0, g1, remap),
        is_live_set(g1, keep),
        compacted(g1, keep, g2),
    ensures
        forall|i: int| 0 <= i < g0.len() ==> (#[trigger] keep[i] <==> remap[i] == i),
        g0.len() - g2.len() == moved(remap, g0.len() as int),
{
    let n = g0.len() as int;
    lemma_cse_wf(g0, g1, remap);
    assert forall|i: int| 0 <= i < n implies (#[trigger] keep[i] <==> remap[i] == i) by {
        if remap[i] == i {
            lemma_rep_kept(g0, g1, remap, keep, i);
        }
        if keep[i] {
            if i < n - 1 {
                lemma_kept_represents(g0, g1, remap, keep, i);
            } else {
                assert(represents(g1, remap, i));
                if remap[i] != i {
                    let r = remap[i] as int;
                    lemma_same_key_height(g1, r, i);
                    lemma_output_tallest(g0, g1, remap, r);
                }
            }
        }
    }
    lemma_rank_moved(keep, remap, n);
}

/// Sharing again after sharing and reclaiming finds nothing: once CSE has
/// merged an arena's duplicates and dead-node elimination has reclaimed what
/// no longer feeds the output, no two nodes share a canonical key, so a
/// further CSE redirects no node and leaves the arena as it is.
pub proof fn lemma_share_reclaim_share(
    g0: Seq<NodeView>,
    g1: Seq<NodeView>,
    remap: Seq<usize>,
    keep: Seq<bool>,
    g2: Seq<NodeView>,
    g3: Seq<NodeView>,
    remap2: Seq<usize>,
)
    requires
        wf_nodes(g0),
        g0.len() <= usize::MAX,
        cse_result(g0, g1, remap),
        is_live_set(g1, keep),
        compacted(g1, keep, g2),
        cse_result(g2, g3, remap2),
    ensures
        keys_distinct(g2),
        moved(remap2, g2.len() as int) == 0,
        g3 == g2,
{
    lemma_cse_wf(g0, g1, remap);
    lemma_kept_keys_distinct(g0, g1, remap, keep);
    lemma_compacted_keys_distinct(g1, keep, g2);
    lemma_compacted_wf(g1, keep, g2);
    lemma_cse_identity(g2, g3, remap2, g2.len() as int);
    assert(g3 =~= g2);
}

} // verus!
