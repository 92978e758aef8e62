//! One outcome per question.
//!
//! The contracts of evaluation and of the backward sweep say what each may
//! give for whatever the caller's closures answer. When the closures answer
//! each question one way, each has exactly one outcome: the forward pass fails
//! exactly when it cannot succeed, and a trace fails exactly when the forward
//! pass or the sweep does, with that error.

use vstd::prelude::*;
use crate::autodiff::backward::{accumulates, backprop, pushes, rejects, sweeps};
use crate::autodiff::forward::{fails_at, operands, runs, steps_to};
use crate::error::EngineError;
use crate::graph::node::{Node, NodeView, OpType};
use crate::graph::topo::{node_ok, wf_nodes};
use crate::optimize::constfold::deterministic;
use crate::parse::lower::reads_alike;

verus! {

/// `partials` answers each question one way.
pub open spec fn partials_alike<P: Fn(&OpType, u64, u64, u64) -> Result<(u64, u64), EngineError>>(partials: P) -> bool {
    forall|op: &OpType, g: u64, a: u64, b: u64, r1: Result<(u64, u64), EngineError>, r2: Result<(u64, u64), EngineError>|
        #![trigger call_ensures(partials, (op, g, a, b), r1), call_ensures(partials, (op, g, a, b), r2)]
        call_ensures(partials, (op, g, a, b), r1) && call_ensures(partials, (op, g, a, b), r2) ==> r1 == r2
}

/// `acc` answers each question one way.
pub open spec fn acc_alike<A: Fn(u64, u64) -> u64>(acc: A) -> bool {
    forall|x: u64, c: u64, r1: u64, r2: u64|
        #![trigger call_ensures(acc, (x, c), r1), call_ensures(acc, (x, c), r2)]
        call_ensures(acc, (x, c), r1) && call_ensures(acc, (x, c), r2) ==> r1 == r2
}

/// The models of the nodes of `g`.
pub open spec fn views(g: Seq<Node>) -> Seq<NodeView> {
    g.map_values(|n: Node| n@)
}

/// Two runs that step through the first `i` nodes agree on their values.
proof fn lemma_steps_agree<L: Fn(&String) -> Option<u64>, F: Fn(&OpType, u64, u64) -> Result<u64, EngineError>>(
    g: Seq<Node>,
    lookup: L,
    eval: F,
    v1: Seq<u64>,
    v2: Seq<u64>,
    i: int,
)
    requires
        wf_nodes(views(g)),
        reads_alike(lookup),
        deterministic(eval),
        0 <= i <= g.len(),
        i <= v1.len(),
        i <= v2.len(),
        forall|k: int| 0 <= k < i ==> #[trigger] steps_to(g, lookup, eval, v1, k),
        forall|k: int| 0 <= k < i ==> #[trigger] steps_to(g, lookup, eval, v2, k),
    ensures
        forall|k: int| 0 <= k < i ==> #[trigger] v1[k] == v2[k],
    decreases i,
{
    if i > 0 {
        let k = i - 1;
        lemma_steps_agree(g, lookup, eval, v1, v2, k);
        assert(steps_to(g, lookup, eval, v1, k));
        assert(steps_to(g, lookup, eval, v2, k));
        assert(node_ok(views(g), k));
        assert(views(g)[k] == g[k]@);
        match g[k].op {
            OpType::Const(_) => {},
            OpType::Var(name) => {},
            _ => {
                let n = g[k]@;
                assert(n.inputs[0] < k);
                if n.inputs.len() == 2 {
                    assert(n.inputs[1] < k);
                }
                assert(operands(n, v1) == operands(n, v2));
            },
        }
    }
}

/// A node that steps from some values cannot fail from values that agree
/// with them below it.
proof fn lemma_step_excludes_failure<L: Fn(&String) -> Option<u64>, F: Fn(&OpType, u64, u64) -> Result<u64, EngineError>>(
    g: Seq<Node>,
    lookup: L,
    eval: F,
    v: Seq<u64>,
    w: Seq<u64>,
    i: int,
    e: EngineError,
)
    requires
        wf_nodes(views(g)),
        reads_alike(lookup),
        deterministic(eval),
        0 <= i < g.len(),
        i <= v.len(),
        i <= w.len(),
        forall|k: int| 0 <= k < i ==> #[trigger] v[k] == w[k],
        steps_to(g, lookup, eval, v, i),
    ensures
        !fails_at(g, lookup, eval, w, i, e),
{
    assert(node_ok(views(g), i));
    assert(views(g)[i] == g[i]@);
    match g[i].op {
        OpType::Const(_) => {},
        OpType::Var(name) => {},
        _ => {
            let n = g[i]@;
            assert(n.inputs[0] < i);
            if n.inputs.len() == 2 {
                assert(n.inputs[1] < i);
            }
            assert(operands(n, v) == operands(n, w));
        },
    }
}

/// A node fails with one error from values that agree below it.
proof fn lemma_failure_agrees<L: Fn(&String) -> Option<u64>, F: Fn(&OpType, u64, u64) -> Result<u64, EngineError>>(
    g: Seq<Node>,
    lookup: L,
    eval: F,
    w1: Seq<u64>,
    w2: Seq<u64>,
    i: int,
    e1: EngineError,
    e2: EngineError,
)
    requires
        wf_nodes(views(g)),
        deterministic(eval),
        0 <= i < g.len(),
        i <= w1.len(),
        i <= w2.len(),
        forall|k: int| 0 <= k < i ==> #[trigger] w1[k] == w2[k],
        fails_at(g, lookup, eval, w1, i, e1),
        fails_at(g, lookup, eval, w2, i, e2),
    ensures
        e1 == e2,
{
    assert(node_ok(views(g), i));
    assert(views(g)[i] == g[i]@);
    match g[i].op {
        OpType::Const(_) => {},
        OpType::Var(name) => {},
        _ => {
            let n = g[i]@;
            assert(n.inputs[0] < i);
            if n.inputs.len() == 2 {
                assert(n.inputs[1] < i);
            }
            assert(operands(n, w1) == operands(n, w2));
        },
    }
}

/// Evaluation has one outcome: when `lookup` and `eval` answer each question
/// one way, a well-formed arena either evaluates to one list of values or
/// fails with one error, never both.
pub proof fn lemma_runs_unique<L: Fn(&String) -> Option<u64>, F: Fn(&OpType, u64, u64) -> Result<u64, EngineError>>(
    g: Seq<Node>,
    lookup: L,
    eval: F,
    r1: Result<Seq<u64>, EngineError>,
    r2: Result<Seq<u64>, EngineError>,
)
    requires
        wf_nodes(views(g)),
        reads_alike(lookup),
        deterministic(eval),
        runs(g, lookup, eval, r1),
        runs(g, lookup, eval, r2),
    ensures
        r1 == r2,
{
    let n = g.len() as int;
    match (r1, r2) {
        (Ok(v1), Ok(v2)) => {
            lemma_steps_agree(g, lookup, eval, v1, v2, n);
            assert(v1 =~= v2);
        },
        (Ok(v), Err(e)) => {
            let (i, w) = choose|i: int, w: Seq<u64>|
                0 <= i < g.len() && w.len() == i && (forall|k: int|
                    0 <= k < i ==> #[trigger] steps_to(g, lookup, eval, w, k)) && #[trigger] fails_at(g, lookup, eval, w, i, e);
            lemma_steps_agree(g, lookup, eval, v, w, i);
            lemma_step_excludes_failure(g, lookup, eval, v, w, i, e);
        },
        (Err(e), Ok(v)) => {
            let (i, w) = choose|i: int, w: Seq<u64>|
                0 <= i < g.len() && w.len() == i && (forall|k: int|
                    0 <= k < i ==> #[trigger] steps_to(g, lookup, eval, w, k)) && #[trigger] fails_at(g, lookup, eval, w, i, e);
            lemma_steps_agree(g, lookup, eval, v, w, i);
            lemma_step_excludes_failure(g, lookup, eval, v, w, i, e);
        },
        (Err(e1), Err(e2)) => {
            let (i1, w1) = choose|i: int, w: Seq<u64>|
                0 <= i < g.len() && w.len() == i && (forall|k: int|
                    0 <= k < i ==> #[trigger] steps_to(g, lookup, eval, w, k)) && #[trigger] fails_at(g, lookup, eval, w, i, e1);
            let (i2, w2) = choose|i: int, w: Seq<u64>|
                0 <= i < g.len() && w.len() == i && (forall|k: int|
                    0 <= k < i ==> #[trigger] steps_to(g, lookup, eval, w, k)) && #[trigger] fails_at(g, lookup, eval, w, i, e2);
            if i1 < i2 {
                lemma_steps_agree(g, lookup, eval, w2, w1, i1);
                lemma_step_excludes_failure(g, lookup, eval, w2, w1, i1, e1);
            } else if i2 < i1 {
                lemma_steps_agree(g, lookup, eval, w1, w2, i2);
                lemma_step_excludes_failure(g, lookup, eval, w1, w2, i2, e2);
            } else {
                lemma_steps_agree(g, lookup, eval, w1, w2, i1);
                lemma_failure_agrees(g, lookup, eval, w1, w2, i1, e1, e2);
            }
        },
    }
}

/// Adding two contributions has one outcome.
proof fn lemma_accumulates_unique<A: Fn(u64, u64) -> u64>(
    acc: A,
    before: Seq<u64>,
    ins: Seq<usize>,
    ca: u64,
    cb: u64,
    a1: Seq<u64>,
    a2: Seq<u64>,
)
    requires
        acc_alike(acc),
        accumulates(acc, before, ins, ca, cb, a1),
        accumulates(acc, before, ins, ca, cb, a2),
    ensures
        a1 == a2,
{
    let a = ins[0] as int;
    if ins.len() == 1 {
        let x1 = choose|x: u64| #[trigger] call_ensures(acc, (before[a], ca), x) && a1 == before.update(a, x);
        let x2 = choose|x: u64| #[trigger] call_ensures(acc, (before[a], ca), x) && a2 == before.update(a, x);
        assert(x1 == x2);
    } else {
        let b = ins[1] as int;
        let (x1, y1) = choose|x: u64, y: u64|
            #![trigger call_ensures(acc, (before[a], ca), x), call_ensures(acc, (before.update(a, x)[b], cb), y)]
            call_ensures(acc, (before[a], ca), x) && call_ensures(acc, (before.update(a, x)[b], cb), y)
                && a1 == before.update(a, x).update(b, y);
        let (x2, y2) = choose|x: u64, y: u64|
            #![trigger call_ensures(acc, (before[a], ca), x), call_ensures(acc, (before.update(a, x)[b], cb), y)]
            call_ensures(acc, (before[a], ca), x) && call_ensures(acc, (before.update(a, x)[b], cb), y)
                && a2 == before.update(a, x).update(b, y);
        assert(x1 == x2);
        assert(y1 == y2);
    }
}

/// One step of the sweep has one outcome.
proof fn lemma_push_unique<P: Fn(&OpType, u64, u64, u64) -> Result<(u64, u64), EngineError>, A: Fn(u64, u64) -> u64>(
    g: Seq<Node>,
    values: Seq<u64>,
    partials: P,
    acc: A,
    i: int,
    before: Seq<u64>,
    a1: Seq<u64>,
    a2: Seq<u64>,
)
    requires
        partials_alike(partials),
        acc_alike(acc),
        pushes(g, values, partials, acc, i, before, a1),
        pushes(g, values, partials, acc, i, before, a2),
    ensures
        a1 == a2,
{
    let ins = g[i]@.inputs;
    if ins.len() > 0 {
        let (av, bv) = operands(g[i]@, values);
        let (ca1, cb1) = choose|ca: u64, cb: u64|
            #[trigger] call_ensures(partials, (&g[i].op, before[i], av, bv), Ok::<(u64, u64), EngineError>((ca, cb)))
                && accumulates(acc, before, ins, ca, cb, a1);
        let (ca2, cb2) = choose|ca: u64, cb: u64|
            #[trigger] call_ensures(partials, (&g[i].op, before[i], av, bv), Ok::<(u64, u64), EngineError>((ca, cb)))
                && accumulates(acc, before, ins, ca, cb, a2);
        assert((ca1, cb1) == (ca2, cb2));
        lemma_accumulates_unique(acc, before, ins, ca1, cb1, a1, a2);
    }
}

/// A node the sweep steps through is not one it stops at.
proof fn lemma_push_excludes_reject<P: Fn(&OpType, u64, u64, u64) -> Result<(u64, u64), EngineError>, A: Fn(u64, u64) -> u64>(
    g: Seq<Node>,
    values: Seq<u64>,
    partials: P,
    acc: A,
    i: int,
    before: Seq<u64>,
    after: Seq<u64>,
    e: EngineError,
)
    requires
        partials_alike(partials),
        pushes(g, values, partials, acc, i, before, after),
    ensures
        !rejects(g, values, partials, i, before, e),
{
    let ins = g[i]@.inputs;
    if ins.len() > 0 {
        let (av, bv) = operands(g[i]@, values);
        let (ca, cb) = choose|ca: u64, cb: u64|
            #[trigger] call_ensures(partials, (&g[i].op, before[i], av, bv), Ok::<(u64, u64), EngineError>((ca, cb)))
                && accumulates(acc, before, ins, ca, cb, after);
        assert(call_ensures(partials, (&g[i].op, before[i], av, bv), Ok::<(u64, u64), EngineError>((ca, cb))));
    }
}

/// Two sweeps from one seed agree step by step.
proof fn lemma_trails_agree<P: Fn(&OpType, u64, u64, u64) -> Result<(u64, u64), EngineError>, A: Fn(u64, u64) -> u64>(
    g: Seq<Node>,
    values: Seq<u64>,
    partials: P,
    acc: A,
    output: int,
    t1: Seq<Seq<u64>>,
    t2: Seq<Seq<u64>>,
    m: int,
)
    requires
        partials_alike(partials),
        acc_alike(acc),
        sweeps(g, values, partials, acc, output, t1),
        sweeps(g, values, partials, acc, output, t2),
        0 <= m < t1.len(),
        m < t2.len(),
    ensures
        t1[m] == t2[m],
    decreases m,
{
    if m > 0 {
        let j = m - 1;
        let n = g.len() as int;
        lemma_trails_agree(g, values, partials, acc, output, t1, t2, j);
        assert(pushes(g, values, partials, acc, n - 1 - j, t1[j], t1[j + 1]));
        assert(pushes(g, values, partials, acc, n - 1 - j, t2[j], t2[j + 1]));
        lemma_push_unique(g, values, partials, acc, n - 1 - j, t1[j], t1[m], t2[m]);
    }
}

/// A sweep that stops after `l` entries stops before another sweep's step.
proof fn lemma_stop_before_step<P: Fn(&OpType, u64, u64, u64) -> Result<(u64, u64), EngineError>, A: Fn(u64, u64) -> u64>(
    g: Seq<Node>,
    values: Seq<u64>,
    partials: P,
    acc: A,
    output: int,
    t1: Seq<Seq<u64>>,
    t2: Seq<Seq<u64>>,
    e: EngineError,
)
    requires
        partials_alike(partials),
        acc_alike(acc),
        sweeps(g, values, partials, acc, output, t1),
        sweeps(g, values, partials, acc, output, t2),
        t1.len() < t2.len(),
    ensures
        !rejects(g, values, partials, g.len() - t1.len(), t1.last(), e),
{
    let n = g.len() as int;
    let j = t1.len() - 1;
    lemma_trails_agree(g, values, partials, acc, output, t1, t2, j);
    assert(pushes(g, values, partials, acc, n - 1 - j, t2[j], t2[j + 1]));
    lemma_push_excludes_reject(g, values, partials, acc, n - 1 - j, t2[j], t2[j + 1], e);
}

/// The backward sweep has one outcome: when `partials` and `acc` answer each
/// question one way, the sweep from `output` over the values `values` either
/// gives one list of adjoints or stops with one error, never both.
pub proof fn lemma_backprop_unique<P: Fn(&OpType, u64, u64, u64) -> Result<(u64, u64), EngineError>, A: Fn(u64, u64) -> u64>(
    g: Seq<Node>,
    values: Seq<u64>,
    partials: P,
    acc: A,
    output: int,
    r1: Result<Seq<u64>, EngineError>,
    r2: Result<Seq<u64>, EngineError>,
)
    requires
        partials_alike(partials),
        acc_alike(acc),
        backprop(g, values, partials, acc, output, r1),
        backprop(g, values, partials, acc, output, r2),
    ensures
        r1 == r2,
{
    let n = g.len() as int;
    match (r1, r2) {
        (Ok(a1), Ok(a2)) => {
            let t1 = choose|t: Seq<Seq<u64>>|
                #[trigger] sweeps(g, values, partials, acc, output, t) && t.len() == n + 1 && a1 == t.last();
            let t2 = choose|t: Seq<Seq<u64>>|
                #[trigger] sweeps(g, values, partials, acc, output, t) && t.len() == n + 1 && a2 == t.last();
            lemma_trails_agree(g, values, partials, acc, output, t1, t2, n);
        },
        (Ok(a), Err(e)) => {
            let t1 = choose|t: Seq<Seq<u64>>|
                #[trigger] sweeps(g, values, partials, acc, output, t) && t.len() == n + 1 && a == t.last();
            let t2 = choose|t: Seq<Seq<u64>>|
                #[trigger] sweeps(g, values, partials, acc, output, t) && t.len() <= n && rejects(
                    g,
                    values,
                    partials,
                    n - t.len(),
                    t.last(),
                    e,
                );
            lemma_stop_before_step(g, values, partials, acc, output, t2, t1, e);
        },
        (Err(e), Ok(a)) => {
            let t1 = choose|t: Seq<Seq<u64>>|
                #[trigger] sweeps(g, values, partials, acc, output, t) && t.len() == n + 1 && a == t.last();
            let t2 = choose|t: Seq<Seq<u64>>|
                #[trigger] sweeps(g, values, partials, acc, output, t) && t.len() <= n && rejects(
                    g,
                    values,
                    partials,
                    n - t.len(),
                    t.last(),
                    e,
                );
            lemma_stop_before_step(g, values, partials, acc, output, t2, t1, e);
        },
        (Err(e1), Err(e2)) => {
            let t1 = choose|t: Seq<Seq<u64>>|
                #[trigger] sweeps(g, values, partials, acc, output, t) && t.len() <= n && rejects(
                    g,
                    values,
                    partials,
                    n - t.len(),
                    t.last(),
                    e1,
                );
            let t2 = choose|t: Seq<Seq<u64>>|
                #[trigger] sweeps(g, values, partials, acc, output, t) && t.len() <= n && rejects(
                    g,
                    values,
                    partials,
                    n - t.len(),
                    t.last(),
                    e2,
                );
            if t1.len() < t2.len() {
                lemma_stop_before_step(g, values, partials, acc, output, t1, t2, e1);
            } else if t2.len() < t1.len() {
                lemma_stop_before_step(g, values, partials, acc, output, t2, t1, e2);
            } else {
                lemma_trails_agree(g, values, partials, acc, output, t1, t2, t1.len() - 1);
            }
        },
    }
}

/// The forward pass fails with `e`, or it succeeds and the sweep from
/// `output` fails with `e`.
pub open spec fn passes_fail<
    L: Fn(&String) -> Option<u64>,
    F: Fn(&OpType, u64, u64) -> Result<u64, EngineError>,
    P: Fn(&OpType, u64, u64, u64) -> Result<(u64, u64), EngineError>,
    A: Fn(u64, u64) -> u64,
>(g: Seq<Node>, lookup: L, eval: F, partials: P, acc: A, output: int, e: EngineError) -> bool {
    ||| runs(g, lookup, eval, Err(e))
    ||| exists|vals: Seq<u64>|
        #[trigger] runs(g, lookup, eval, Ok(vals)) && backprop(g, vals, partials, acc, output, Err(e))
}

/// Both passes have one outcome together: when the closures answer alike and
/// the passes fail with `e`, they fail with no other error and cannot both
/// succeed.
pub proof fn lemma_passes_outcome<
    L: Fn(&String) -> Option<u64>,
    F: Fn(&OpType, u64, u64) -> Result<u64, EngineError>,
    P: Fn(&OpType, u64, u64, u64) -> Result<(u64, u64), EngineError>,
    A: Fn(u64, u64) -> u64,
>(g: Seq<Node>, lookup: L, eval: F, partials: P, acc: A, output: int, e: EngineError)
    requires
        wf_nodes(views(g)),
        reads_alike(lookup),
        deterministic(eval),
        partials_alike(partials),
        acc_alike(acc),
        passes_fail(g, lookup, eval, partials, acc, output, e),
    ensures
        forall|vals: Seq<u64>, adj: Seq<u64>|
            !(#[trigger] runs(g, lookup, eval, Ok(vals)) && #[trigger] backprop(g, vals, partials, acc, output, Ok(adj))),
        forall|e2: EngineError| #[trigger] passes_fail(g, lookup, eval, partials, acc, output, e2) ==> e2 == e,
{
    assert forall|vals: Seq<u64>, adj: Seq<u64>|
        !(#[trigger] runs(g, lookup, eval, Ok(vals)) && #[trigger] backprop(g, vals, partials, acc, output, Ok(adj))) by {
        if runs(g, lookup, eval, Ok(vals)) && backprop(g, vals, partials, acc, output, Ok(adj)) {
            if runs(g, lookup, eval, Err(e)) {
                lemma_runs_unique(g, lookup, eval, Ok(vals), Err(e));
            } else {
                let v0 = choose|v: Seq<u64>|
                    #[trigger] runs(g, lookup, eval, Ok(v)) && backprop(g, v, partials, acc, output, Err(e));
                lemma_runs_unique(g, lookup, eval, Ok(vals), Ok(v0));
                lemma_backprop_unique(g, vals, partials, acc, output, Ok(adj), Err(e));
            }
        }
    }
    assert forall|e2: EngineError| #[trigger] passes_fail(g, lookup, eval, partials, acc, output, e2) implies e2 == e by {
        if runs(g, lookup, eval, Err(e)) {
            if runs(g, lookup, eval, Err(e2)) {
                lemma_runs_unique(g, lookup, eval, Err(e2), Err(e));
            } else {
                let v2 = choose|v: Seq<u64>|
                    #[trigger] runs(g, lookup, eval, Ok(v)) && backprop(g, v, partials, acc, output, Err(e2));
                lemma_runs_unique(g, lookup, eval, Ok(v2), Err(e));
            }
        } else {
            let v0 = choose|v: Seq<u64>|
                #[trigger] runs(g, lookup, eval, Ok(v)) && backprop(g, v, partials, acc, output, Err(e));
            if runs(g, lookup, eval, Err(e2)) {
                lemma_runs_unique(g, lookup, eval, Err(e2), Ok(v0));
            } else {
                let v2 = choose|v: Seq<u64>|
                    #[trigger] runs(g, lookup, eval, Ok(v)) && backprop(g, v, partials, acc, output, Err(e2));
                lemma_runs_unique(g, lookup, eval, Ok(v2), Ok(v0));
                lemma_backprop_unique(g, v0, partials, acc, output, Err(e2), Err(e));
            }
        }
    }
}

} // verus!
