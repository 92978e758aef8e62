//! Common-subexpression elimination (CSE): merge structurally identical nodes.
//!
//! One forward sweep (index order is topological): rewrite each node's inputs
//! to their canonical representative, key it via [`NodeKey::canonical`] (which
//! sorts commutative operands so `a*b` and `b*a` collapse), then reuse an
//! existing representative or become one.
//!
//! It rewrites in place and never removes nodes; redirected duplicates become
//! unreachable orphans that dead-node elimination reclaims.

use vstd::prelude::*;
use crate::graph::arena::Graph;
use crate::graph::key::{NodeKey, canonical_view};
use crate::graph::node::{Node, NodeView, commutes};
use crate::graph::topo::{Term, equiv, lemma_equiv_refl, lemma_equiv_symm, lemma_equiv_trans, node_ok, term, wf_nodes};

verus! {

/// How many of the first `i` nodes `remap` redirects elsewhere.
pub open spec fn moved(remap: Seq<usize>, i: int) -> nat
    decreases i,
{
    if i <= 0 {
        0
    } else {
        moved(remap, i - 1) + if remap[i - 1] != (i - 1) as usize { 1nat } else { 0nat }
    }
}

/// Node `i` of `h` is `g`'s node `i` with every input replaced by its
/// representative.
pub open spec fn rewired(g: Seq<NodeView>, h: Seq<NodeView>, remap: Seq<usize>, i: int) -> bool {
    h[i] == NodeView { op: g[i].op, inputs: g[i].inputs.map_values(|x: usize| remap[x as int]) }
}

/// The representative `remap[i]` of node `i` in the rewritten arena `h`: node
/// `i` itself when no earlier representative has its canonical key, and
/// otherwise that (unique) earlier representative.
pub open spec fn represents(h: Seq<NodeView>, remap: Seq<usize>, i: int) -> bool {
    let r = remap[i] as int;
    &&& r <= i
    &&& r == i ==> forall|j: int|
        0 <= j < i && remap[j] == j ==> canonical_view(#[trigger] h[j]) != canonical_view(h[i])
    &&& r < i ==> remap[r] == r && canonical_view(h[r]) == canonical_view(h[i])
}

/// `h` and `remap` are the result of CSE on `g`.
pub open spec fn cse_result(g: Seq<NodeView>, h: Seq<NodeView>, remap: Seq<usize>) -> bool {
    &&& h.len() == g.len()
    &&& remap.len() == g.len()
    &&& forall|i: int| 0 <= i < g.len() ==> #[trigger] rewired(g, h, remap, i)
    &&& forall|i: int| 0 <= i < g.len() ==> #[trigger] represents(h, remap, i)
}

/// Two nodes with the same canonical key denote equivalent expressions when
/// their inputs are.
proof fn lemma_same_key_equiv(h: Seq<NodeView>, a: int, b: int)
    requires
        wf_nodes(h),
        0 <= a < h.len(),
        0 <= b < h.len(),
        canonical_view(h[a]) == canonical_view(h[b]),
    ensures
        equiv(term(h, a), term(h, b)),
{
    assert(node_ok(h, a));
    assert(node_ok(h, b));
    let na = h[a];
    let nb = h[b];
    if na.inputs.len() >= 1 {
        lemma_equiv_refl(term(h, na.inputs[0] as int));
    }
    if na.inputs.len() == 2 {
        lemma_equiv_refl(term(h, na.inputs[1] as int));
    }
    if nb.inputs.len() >= 1 {
        lemma_equiv_refl(term(h, nb.inputs[0] as int));
    }
    if nb.inputs.len() == 2 {
        lemma_equiv_refl(term(h, nb.inputs[1] as int));
    }
    if !(commutes(na.op) && na.inputs.len() == 2) {
        assert(na == nb);
        lemma_equiv_refl(term(h, a));
    }
}

/// CSE keeps the arena well formed, and every node, as well as its
/// representative, denotes an expression equivalent (up to the order of the
/// operands of `+` and `*`) to what the node denoted before.
pub proof fn lemma_cse_equiv(g: Seq<NodeView>, h: Seq<NodeView>, remap: Seq<usize>, i: int)
    requires
        wf_nodes(g),
        wf_nodes(h),
        cse_result(g, h, remap),
        0 <= i < g.len(),
    ensures
        equiv(term(h, i), term(g, i)),
        equiv(term(h, remap[i] as int), term(g, i)),
    decreases i,
{
    assert(node_ok(g, i));
    assert(rewired(g, h, remap, i));
    assert(represents(h, remap, i));
    let n = g[i];
    if n.inputs.len() >= 1 {
        lemma_cse_equiv(g, h, remap, n.inputs[0] as int);
    }
    if n.inputs.len() == 2 {
        lemma_cse_equiv(g, h, remap, n.inputs[1] as int);
    }
    assert(node_ok(h, i));
    let r = remap[i] as int;
    if r < i {
        lemma_same_key_equiv(h, r, i);
        lemma_equiv_trans(term(h, r), term(h, i), term(g, i));
    }
}

/// Under CSE every node's inputs are representatives at lower indices.
pub proof fn lemma_cse_wf(g: Seq<NodeView>, h: Seq<NodeView>, remap: Seq<usize>)
    requires
        wf_nodes(g),
        cse_result(g, h, remap),
    ensures
        wf_nodes(h),
{
    assert forall|i: int| 0 <= i < h.len() implies #[trigger] node_ok(h, i) by {
        assert(node_ok(g, i));
        assert(rewired(g, h, remap, i));
        assert forall|t: int| 0 <= t < h[i].inputs.len() implies #[trigger] h[i].inputs[t] < i by {
            let x = g[i].inputs[t] as int;
            assert(represents(h, remap, x));
        }
    }
}

impl Graph {
    /// Merge structurally identical nodes into one canonical node, in place,
    /// and return the number of nodes redirected to an earlier representative.
    /// Commutative operands are canonicalized, so `a*b` and `b*a` merge.
    pub fn cse(&mut self) -> (eliminated: usize)
        requires
            old(self).wf(),
        ensures
            final(self).wf(),
            exists|remap: Seq<usize>| cse_result(old(self)@, final(self)@, remap) && eliminated
                == moved(remap, old(self)@.len() as int),
            forall|i: int| 0 <= i < old(self)@.len() ==> equiv(#[trigger] term(final(self)@, i), term(old(self)@, i)),
    {
        let ghost g = self@;
        let n = self.nodes.len();
        let mut memo: Vec<(NodeKey, usize)> = Vec::new();
        let mut remap: Vec<usize> = Vec::new();
        let mut i: usize = 0;
        while i < n
            invariant
                i <= n,
                remap@.len() == i,
                forall|k: int| 0 <= k < i ==> remap@[k] == k,
            decreases n - i,
        {
            remap.push(i);
            i = i + 1;
        }
        let mut eliminated: usize = 0;
        let mut i: usize = 0;
        while i < n
            invariant
                n == g.len(),
                wf_nodes(g),
                self@.len() == n,
                i <= n,
                remap@.len() == n,
                forall|k: int| i <= k < n ==> #[trigger] self@[k] == g[k] && remap@[k] == k,
                forall|k: int| 0 <= k < i ==> #[trigger] rewired(g, self@, remap@, k),
                forall|k: int| 0 <= k < i ==> #[trigger] represents(self@, remap@, k),
                forall|e: int|
                    0 <= e < memo@.len() ==> {
                        let idx = #[trigger] memo@[e].1 as int;
                        &&& 0 <= idx < i
                        &&& remap@[idx] == idx
                        &&& memo@[e].0@ == canonical_view(self@[idx])
                    },
                forall|k: int|
                    0 <= k < i && remap@[k] == k ==> exists|e: int| 0 <= e < memo@.len() && #[trigger] memo@[e].1 == k,
                eliminated == moved(remap@, i as int),
                eliminated <= i,
            decreases n - i,
        {
            // 1. Point this node's inputs at their representatives.
            proof {
                assert(self@[i as int] == g[i as int]);
                assert(node_ok(g, i as int));
            }
            let inputs = {
                let node = &self.nodes[i];
                let mut inputs: Vec<usize> = Vec::new();
                let mut t: usize = 0;
                while t < node.inputs.len()
                    invariant
                        node@ == g[i as int],
                        node_ok(g, i as int),
                        i < n,
                        remap@.len() == n,
                        t <= g[i as int].inputs.len(),
                        inputs@ == g[i as int].inputs.take(t as int).map_values(|x: usize| remap@[x as int]),
                    decreases g[i as int].inputs.len() - t,
                {
                    inputs.push(remap[node.inputs[t]]);
                    t = t + 1;
                    proof {
                        assert(inputs@ =~= g[i as int].inputs.take(t as int).map_values(|x: usize| remap@[x as int]));
                    }
                }
                proof {
                    assert(g[i as int].inputs.take(g[i as int].inputs.len() as int) =~= g[i as int].inputs);
                }
                inputs
            };
            let op = self.nodes[i].op.duplicate();
            let ghost before = self@;
            self.nodes.set(i, Node { op, inputs });
            let ghost h = self@;
            proof {
                assert(h =~= before.update(i as int, h[i as int]));
                assert(rewired(g, h, remap@, i as int));
                assert forall|k: int| 0 <= k < i implies #[trigger] rewired(g, h, remap@, k) by {
                    assert(rewired(g, before, remap@, k));
                }
                assert forall|k: int| 0 <= k < i implies #[trigger] represents(h, remap@, k) by {
                    assert(represents(before, remap@, k));
                    assert(h[k] == before[k]);
                    assert(h[remap@[k] as int] == before[remap@[k] as int]);
                }
                // a commutative node under the invariant has two inputs
                assert(node_ok(g, i as int));
            }
            // 2. Key on (op, canonicalized inputs).
            let key = NodeKey::canonical(&self.nodes[i].op, self.nodes[i].inputs.as_slice());
            proof {
                assert(key@ == canonical_view(h[i as int]));
            }
            // 3. Reuse the existing representative, or become one.
            let mut e: usize = 0;
            let mut found: Option<usize> = None;
            while e < memo.len()
                invariant_except_break
                    found is None,
                invariant
                    e <= memo@.len(),
                    forall|e2: int| 0 <= e2 < e ==> memo@[e2].0@ != key@,
                ensures
                    found is None ==> forall|e2: int| 0 <= e2 < memo@.len() ==> memo@[e2].0@ != key@,
                    found matches Some(c) ==> e < memo@.len() && memo@[e as int].0@ == key@ && memo@[e as int].1 == c,
                decreases memo@.len() - e,
            {
                if memo[e].0.same_as(&key) {
                    found = Some(memo[e].1);
                    break;
                }
                e = e + 1;
            }
            let ghost remap_before = remap@;
            match found {
                Some(canon) => {
                    proof {
                        assert(memo@[e as int].0@ == key@);
                        assert(memo@[e as int].1 == canon);
                    }
                    remap.set(i, canon);
                    eliminated = eliminated + 1;
                    proof {
                        assert(remap@ =~= remap_before.update(i as int, canon));
                        assert(represents(h, remap@, i as int));
                    }
                },
                None => {
                    proof {
                        assert forall|j: int| 0 <= j < i && remap@[j] == j implies canonical_view(#[trigger] h[j])
                            != canonical_view(h[i as int]) by {
                            let e2 = choose|e2: int| 0 <= e2 < memo@.len() && #[trigger] memo@[e2].1 == j;
                            assert(memo@[e2].0@ == canonical_view(before[j]));
                            assert(h[j] == before[j]);
                            assert(memo@[e2].0@ != key@);
                        }
                    }
                    let ghost memo_before = memo@;
                    memo.push((key, i));
                    proof {
                        assert(memo@[memo_before.len() as int].1 == i);
                        assert forall|k: int|
                            0 <= k < i && remap@[k] == k implies exists|e: int| 0 <= e < memo@.len() && #[trigger] memo@[e].1 == k by {
                            let e2 = choose|e2: int| 0 <= e2 < memo_before.len() && #[trigger] memo_before[e2].1 == k;
                            assert(memo@[e2].1 == k);
                        }
                    }
                },
            }
            proof {
                let rm = remap@;
                assert(moved(rm, i as int + 1) == moved(rm, i as int) + if rm[i as int] != i { 1nat } else { 0nat });
                assert(moved(rm, i as int) == moved(remap_before, i as int)) by {
                    lemma_moved_prefix(rm, remap_before, i as int);
                }
                assert forall|k: int| 0 <= k < i + 1 implies #[trigger] rewired(g, h, rm, k) by {
                    assert(rewired(g, h, remap_before, k));
                    assert(node_ok(g, k));
                    assert(g[k].inputs.map_values(|x: usize| rm[x as int]) =~= g[k].inputs.map_values(|x: usize| remap_before[x as int]));
                }
                assert forall|k: int| i + 1 <= k < n implies #[trigger] h[k] == g[k] && rm[k] == k by {
                    assert(before[k] == g[k]);
                    assert(remap_before[k] == k);
                }
                assert forall|k: int| 0 <= k < i + 1 implies #[trigger] represents(h, rm, k) by {
                    if k < i {
                        assert(represents(h, remap_before, k));
                    }
                }
            }
            i = i + 1;
        }
        proof {
            let h = self@;
            let rm = remap@;
            assert(cse_result(g, h, rm));
            lemma_cse_wf(g, h, rm);
            assert forall|k: int| 0 <= k < g.len() implies equiv(#[trigger] term(h, k), term(g, k)) by {
                lemma_cse_equiv(g, h, rm, k);
            }
        }
        eliminated
    }
}

proof fn lemma_moved_prefix(a: Seq<usize>, b: Seq<usize>, i: int)
    requires
        0 <= i <= a.len(),
        i <= b.len(),
        forall|k: int| 0 <= k < i ==> a[k] == b[k],
    ensures
        moved(a, i) == moved(b, i),
    decreases i,
{
    if i > 0 {
        lemma_moved_prefix(a, b, i - 1);
    }
}

} // verus!
