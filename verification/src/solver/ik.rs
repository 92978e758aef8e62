//! The forward kinematics of a planar n-link arm as an engine graph.
//!
//! The tip position `p(θ) = (x, y)` is built from cumulative joint-angle sums
//! feeding `cos`/`sin`:
//! `x = Σ Lₖ·cos(θ₀+…+θₖ)`, `y = Σ Lₖ·sin(θ₀+…+θₖ)`, so the engine's own
//! Jacobian `J = ∂p/∂θ` can drive an inverse-kinematics solve. Joint `k` is the
//! variable `theta{k}`; link lengths are `f64` bit patterns.

use vstd::prelude::*;
use crate::autodiff::symbolic::ZERO_BITS;
use crate::graph::arena::Graph;
use crate::graph::node::{NodeView, Op};
use crate::graph::topo::{Term, term, lemma_term_prefix, wf_nodes};
use crate::parse::lower::extends;
use crate::parse::text::{decimal, decimal_string, text};

verus! {

/// The name of joint `k`'s angle variable.
pub open spec fn theta_name(k: nat) -> Seq<char> {
    "theta"@ + decimal(k)
}

/// `θ₀ + … + θₖ`, summed left to right.
pub open spec fn angle_term(k: nat) -> Term
    decreases k,
{
    if k == 0 {
        Term::Leaf(Op::Var(theta_name(0)))
    } else {
        Term::Binary(
            Op::Add,
            Box::new(angle_term((k - 1) as nat)),
            Box::new(Term::Leaf(Op::Var(theta_name(k)))),
        )
    }
}

/// `0 + L₀·f(θ₀) + … + Lₘ₋₁·f(θ₀+…+θₘ₋₁)` over the first `m` links, with `f`
/// the unary op `trig` (`Cos` for x, `Sin` for y).
pub open spec fn tip_term(links: Seq<u64>, m: nat, trig: Op) -> Term
    decreases m,
{
    if m == 0 {
        Term::Leaf(Op::Const(ZERO_BITS))
    } else {
        Term::Binary(
            Op::Add,
            Box::new(tip_term(links, (m - 1) as nat, trig)),
            Box::new(
                Term::Binary(
                    Op::Mul,
                    Box::new(Term::Leaf(Op::Const(links[m - 1]))),
                    Box::new(Term::Unary(trig, Box::new(angle_term((m - 1) as nat)))),
                ),
            ),
        )
    }
}

/// The summands of `t` read as a sum: the operands of its nested `+`, left
/// to right.
pub open spec fn summands(t: Term) -> Seq<Term>
    decreases t,
{
    match t {
        Term::Binary(op, l, r) => if op == Op::Add {
            summands(*l) + summands(*r)
        } else {
            seq![t]
        },
        _ => seq![t],
    }
}

/// The joint variables `θ₀, …, θₖ`, as leaves.
pub open spec fn joint_leaves(k: nat) -> Seq<Term> {
    Seq::new(k + 1, |j: int| Term::Leaf(Op::Var(theta_name(j as nat))))
}

/// `t` is link `k`'s share of a tip coordinate: its length times `trig` of a
/// sum of exactly the joint angles `θ₀, …, θₖ`.
pub open spec fn link_share(t: Term, len: u64, trig: Op, k: nat) -> bool {
    match t {
        Term::Binary(op, c, u) => op == Op::Mul && *c == Term::Leaf(Op::Const(len)) && match *u {
            Term::Unary(f, a) => f == trig && summands(*a) == joint_leaves(k),
            _ => false,
        },
        _ => false,
    }
}

/// `t` reads as `0 + L₀·trig(θ₀) + L₁·trig(θ₀+θ₁) + …`, one share per link,
/// in order, each link's angle the sum of every joint angle up to its own.
pub open spec fn sums_link_shares(t: Term, links: Seq<u64>, trig: Op) -> bool {
    let s = summands(t);
    &&& s.len() == links.len() + 1
    &&& s[0] == Term::Leaf(Op::Const(ZERO_BITS))
    &&& forall|k: int| 0 <= k < links.len() ==> link_share(#[trigger] s[k + 1], links[k], trig, k as nat)
}

proof fn lemma_angle_summands(k: nat)
    ensures
        summands(angle_term(k)) == joint_leaves(k),
    decreases k,
{
    if k > 0 {
        lemma_angle_summands((k - 1) as nat);
        let leaf = Term::Leaf(Op::Var(theta_name(k)));
        assert(summands(leaf) == seq![leaf]);
        assert(summands(angle_term(k)) == summands(angle_term((k - 1) as nat)) + seq![leaf]);
        assert(summands(angle_term(k)) =~= joint_leaves(k));
    } else {
        assert(summands(angle_term(0)) =~= joint_leaves(0));
    }
}

proof fn lemma_tip_summands(links: Seq<u64>, m: nat, trig: Op)
    requires
        m <= links.len(),
    ensures
        summands(tip_term(links, m, trig)).len() == m + 1,
        summands(tip_term(links, m, trig))[0] == Term::Leaf(Op::Const(ZERO_BITS)),
        forall|k: int| 0 <= k < m ==> link_share(#[trigger] summands(tip_term(links, m, trig))[k + 1], links[k], trig, k as nat),
    decreases m,
{
    if m > 0 {
        lemma_tip_summands(links, (m - 1) as nat, trig);
        lemma_angle_summands((m - 1) as nat);
        let prev = summands(tip_term(links, (m - 1) as nat, trig));
        let share = Term::Binary(
            Op::Mul,
            Box::new(Term::Leaf(Op::Const(links[m - 1]))),
            Box::new(Term::Unary(trig, Box::new(angle_term((m - 1) as nat)))),
        );
        assert(summands(share) == seq![share]);
        assert(summands(tip_term(links, m, trig)) == prev + seq![share]);
        assert(link_share(share, links[m - 1], trig, (m - 1) as nat));
    }
}

/// An arm's tip coordinates are the sum over its links of each link's length
/// times `cos` (for `x`) or `sin` (for `y`) of the cumulative joint angle
/// `θ₀ + … + θₖ`, starting from `0`.
pub proof fn lemma_tip_is_cumulative(links: Seq<u64>, trig: Op)
    ensures
        sums_link_shares(tip_term(links, links.len(), trig), links, trig),
{
    lemma_tip_summands(links, links.len(), trig);
}

/// An arm's forward kinematics: the graph, the joint variable names (fixing
/// the Jacobian's column order), and the nodes of the tip's coordinates.
pub struct ArmGraph {
    pub graph: Graph,
    pub theta_names: Vec<String>,
    pub x_node: usize,
    pub y_node: usize,
}

/// Appending to a well-formed arena keeps earlier nodes' terms.
proof fn lemma_keep(g: Seq<NodeView>, h: Seq<NodeView>, i: int)
    requires
        0 <= i < g.len(),
        extends(g, h),
    ensures
        term(h, i) == term(g, i),
{
    lemma_term_prefix(g, h, i);
}

/// Build the arm for the given link lengths (base → tip).
pub fn build_arm(link_lengths: &Vec<u64>) -> (arm: ArmGraph)
    requires
        link_lengths@.len() >= 1,
    ensures
        arm.graph.wf(),
        arm.theta_names@.len() == link_lengths@.len(),
        forall|k: int| 0 <= k < link_lengths@.len() ==> #[trigger] arm.theta_names@[k]@ == theta_name(k as nat),
        arm.x_node < arm.graph@.len(),
        arm.y_node < arm.graph@.len(),
        term(arm.graph@, arm.x_node as int) == tip_term(link_lengths@, link_lengths@.len(), Op::Cos),
        term(arm.graph@, arm.y_node as int) == tip_term(link_lengths@, link_lengths@.len(), Op::Sin),
        sums_link_shares(term(arm.graph@, arm.x_node as int), link_lengths@, Op::Cos),
        sums_link_shares(term(arm.graph@, arm.y_node as int), link_lengths@, Op::Sin),
        arm.graph@.len() == 9 * link_lengths@.len() + 1,
        arm.y_node == arm.graph@.len() - 1,
{
    let mut graph = Graph::new();
    let n = link_lengths.len();
    let ghost links = link_lengths@;
    let mut theta_names: Vec<String> = Vec::new();
    let mut thetas: Vec<usize> = Vec::new();
    let mut i: usize = 0;
    while i < n
        invariant
            n == links.len(),
            i <= n,
            graph.wf(),
            graph@.len() == i,
            theta_names@.len() == i,
            thetas@.len() == i,
            forall|k: int| 0 <= k < i ==> #[trigger] theta_names@[k]@ == theta_name(k as nat),
            forall|k: int| 0 <= k < i ==> #[trigger] thetas@[k] == k,
            forall|k: int| 0 <= k < i ==> term(graph@, k) == Term::Leaf(Op::Var(theta_name(k as nat))),
        decreases n - i,
    {
        let name = {
            let mut s = text("theta");
            s.append(decimal_string(i as u64).as_str());
            s
        };
        let ghost g0 = graph@;
        let v = graph.var(name.clone());
        proof {
            assert forall|k: int| 0 <= k < i implies term(graph@, k) == Term::Leaf(Op::Var(theta_name(k as nat))) by {
                lemma_keep(g0, graph@, k);
            }
        }
        theta_names.push(name);
        thetas.push(v);
        i = i + 1;
    }

    // `angle` accumulates the cumulative joint-angle sum walking outward.
    let ghost g1 = graph@;
    let mut x_node = graph.constant(ZERO_BITS);
    proof {
        lemma_keep(g1, graph@, 0);
    }
    let ghost g2 = graph@;
    let mut y_node = graph.constant(ZERO_BITS);
    proof {
        lemma_keep(g2, graph@, x_node as int);
        assert forall|j: int| 0 <= j < n implies term(graph@, j) == Term::Leaf(Op::Var(theta_name(j as nat))) by {
            lemma_keep(g1, g2, j);
            lemma_keep(g2, graph@, j);
        }
    }
    let mut angle = thetas[0];
    let mut k: usize = 0;
    while k < n
        invariant
            n == links.len(),
            link_lengths@ == links,
            graph.wf(),
            k <= n,
            thetas@.len() == n,
            forall|j: int| 0 <= j < n ==> #[trigger] thetas@[j] == j,
            forall|j: int| 0 <= j < n ==> term(graph@, j) == Term::Leaf(Op::Var(theta_name(j as nat))),
            x_node < graph@.len(),
            y_node < graph@.len(),
            angle < graph@.len(),
            k == 0 ==> angle == thetas@[0],
            k > 0 ==> term(graph@, angle as int) == angle_term((k - 1) as nat),
            graph@.len() == n + 2 + 7 * k + (if k > 0 { k - 1 } else { 0 }),
            y_node == graph@.len() - 1,
            term(graph@, x_node as int) == tip_term(links, k as nat, Op::Cos),
            term(graph@, y_node as int) == tip_term(links, k as nat, Op::Sin),
        decreases n - k,
    {
        let ghost g = graph@;
        if k > 0 {
            angle = graph.add(angle, thetas[k]);
        }
        let ghost ga = graph@;
        proof {
            assert forall|j: int| 0 <= j < g.len() implies term(ga, j) == term(g, j) by {
                if ga.len() > g.len() { lemma_keep(g, ga, j); }
            }
            if k > 0 {
                let prev = ga[angle as int].inputs[0] as int;
                assert(term(ga, prev) == angle_term((k - 1) as nat));
                assert(term(ga, k as int) == Term::Leaf(Op::Var(theta_name(k as nat))));
                assert(term(ga, angle as int) == Term::Binary(Op::Add, Box::new(term(ga, prev)), Box::new(term(ga, k as int))));
            } else {
                assert(term(ga, 0) == Term::Leaf(Op::Var(theta_name(0))));
            }
            assert(term(ga, angle as int) == angle_term(k as nat));
        }
        let len = graph.constant(link_lengths[k]);
        let cos = graph.cos(angle);
        let sin = graph.sin(angle);
        let lx = graph.mul(len, cos);
        let ly = graph.mul(len, sin);
        let ghost gb = graph@;
        x_node = graph.add(x_node, lx);
        let ghost gc = graph@;
        y_node = graph.add(y_node, ly);
        proof {
            let gd = graph@;
            assert forall|j: int| 0 <= j < ga.len() implies term(gd, j) == term(ga, j) by {
                lemma_keep(ga, gd, j);
            }
            lemma_keep(gb, gd, lx as int);
            lemma_keep(gb, gd, ly as int);
            lemma_keep(gc, gd, x_node as int);
            lemma_keep(gb, gd, len as int);
            lemma_keep(gb, gd, cos as int);
            lemma_keep(gb, gd, sin as int);
            lemma_keep(ga, gd, angle as int);
            let ang = angle_term(k as nat);
            let lt = Term::Leaf(Op::Const(links[k as int]));
            assert(term(gd, len as int) == lt);
            assert(term(gd, cos as int) == Term::Unary(Op::Cos, Box::new(term(gd, angle as int))));
            assert(term(gd, sin as int) == Term::Unary(Op::Sin, Box::new(term(gd, angle as int))));
            assert(term(gd, lx as int) == Term::Binary(Op::Mul, Box::new(lt), Box::new(Term::Unary(Op::Cos, Box::new(ang)))));
            assert(term(gd, ly as int) == Term::Binary(Op::Mul, Box::new(lt), Box::new(Term::Unary(Op::Sin, Box::new(ang)))));
            let xo = gc[x_node as int].inputs[0] as int;
            let yo = gd[y_node as int].inputs[0] as int;
            assert(term(gd, xo) == tip_term(links, k as nat, Op::Cos));
            assert(term(gd, yo) == tip_term(links, k as nat, Op::Sin));
            assert(term(gd, x_node as int) == tip_term(links, (k + 1) as nat, Op::Cos));
            assert(term(gd, y_node as int) == tip_term(links, (k + 1) as nat, Op::Sin));
        }
        k = k + 1;
    }
    proof {
        lemma_tip_is_cumulative(links, Op::Cos);
        lemma_tip_is_cumulative(links, Op::Sin);
    }
    ArmGraph { graph, theta_names, x_node, y_node }
}

} // verus!
