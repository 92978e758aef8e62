use engine::error::EngineError;
use engine::graph::arena::Graph;
use engine::graph::node::OpType;

/// The scalar semantics of an operator node on its operands' bits.
fn eval(op: &OpType, a: u64, b: u64) -> Result<u64, EngineError> {
    let (x, y) = (f64::from_bits(a), f64::from_bits(b));
    let v = match op {
        OpType::Add => x + y,
        OpType::Sub => x - y,
        OpType::Mul => x * y,
        OpType::Div => {
            if y == 0.0 {
                return Err(EngineError::DivByZero);
            }
            x / y
        }
        OpType::Neg => -x,
        OpType::Pow(k) => {
            let k = f64::from_bits(*k);
            if x < 0.0 && k.fract() != 0.0 {
                return Err(EngineError::DomainError(format!(
                    "pow with negative base {x} and non-integer exponent {k}"
                )));
            }
            x.powf(k)
        }
        OpType::Sin => x.sin(),
        OpType::Cos => x.cos(),
        OpType::Exp => x.exp(),
        OpType::Ln => {
            if x <= 0.0 {
                return Err(EngineError::DomainError(format!("ln requires x > 0, but got {x}")));
            }
            x.ln()
        }
        OpType::Const(_) | OpType::Var(_) => panic!("eval on a leaf"),
    };
    Ok(v.to_bits())
}

fn bits(x: f64) -> u64 {
    x.to_bits()
}

/// The output's value (the last node's) at `point`.
fn value_at(g: &Graph, point: &[(&str, f64)]) -> f64 {
    let lookup = |name: &String| {
        point.iter().find(|(n, _)| *n == name.as_str()).map(|(_, v)| v.to_bits())
    };
    let vals = g.forward(&lookup, &eval).expect("forward should succeed");
    f64::from_bits(*vals.last().unwrap())
}

/// Count nodes reachable from `root`, walking inputs.
fn reachable_count(g: &Graph, root: usize) -> usize {
    let mut seen = vec![false; g.nodes.len()];
    let mut stack = vec![root];
    while let Some(i) = stack.pop() {
        if seen[i] {
            continue;
        }
        seen[i] = true;
        for &j in &g.nodes[i].inputs {
            stack.push(j);
        }
    }
    seen.iter().filter(|&&b| b).count()
}

fn assert_topo_invariant(g: &Graph) {
    for (i, node) in g.nodes.iter().enumerate() {
        for &input in &node.inputs {
            assert!(input < i, "node {i} references non-earlier input {input}");
        }
    }
}

/// A tiny deterministic generator for reproducible sample points in [-5, 5).
fn sample_points(n: usize, seed: u64) -> Vec<f64> {
    let mut state: u64 = seed;
    (0..n)
        .map(|_| {
            state = state
                .wrapping_mul(6364136223846793005)
                .wrapping_add(1442695040888963407);
            ((state >> 11) as f64 / (1u64 << 53) as f64) * 10.0 - 5.0
        })
        .collect()
}

/// `(x*y) + (y*x) + sin(x*y) + (x+z) + (z+x)`, with the duplicates present.
fn build_dupe_graph() -> (Graph, usize) {
    let mut g = Graph::new();
    let x = g.var("x".into());
    let y = g.var("y".into());
    let z = g.var("z".into());

    let a = g.mul(x, y);
    let b = g.mul(y, x);
    let s = g.sin(a);
    let c = g.add(x, z);
    let d = g.add(z, x);

    let t1 = g.add(a, b);
    let t2 = g.add(t1, s);
    let t3 = g.add(t2, c);
    let root = g.add(t3, d);
    (g, root)
}

// ---- common subexpressions ----------------------------------------------------

#[test]
fn duplicate_subexpr_collapses() {
    let mut g = Graph::new();
    let x = g.var("x".into());
    let y = g.var("y".into());
    let m1 = g.mul(x, y);
    let m2 = g.mul(x, y);
    let root = g.add(m1, m2);
    assert_eq!(g.nodes.len(), 5);

    let eliminated = g.cse();
    assert_eq!(eliminated, 1);

    assert_eq!(g.nodes[root].inputs[0], g.nodes[root].inputs[1]);
    assert_eq!(reachable_count(&g, root), 4);
}

#[test]
fn commutative_operands_canonicalized() {
    let mut g = Graph::new();
    let x = g.var("x".into());
    let y = g.var("y".into());
    let m1 = g.mul(x, y);
    let m2 = g.mul(y, x);
    let root = g.add(m1, m2);

    let eliminated = g.cse();
    assert_eq!(eliminated, 1);
    assert_eq!(g.nodes[root].inputs[0], g.nodes[root].inputs[1]);
    assert_eq!(reachable_count(&g, root), 4);
}

#[test]
fn non_commutative_operands_not_merged() {
    let mut g = Graph::new();
    let x = g.var("x".into());
    let y = g.var("y".into());
    let s1 = g.sub(x, y);
    let s2 = g.sub(y, x);
    let root = g.add(s1, s2);

    let eliminated = g.cse();
    assert_eq!(eliminated, 0);
    assert_ne!(g.nodes[root].inputs[0], g.nodes[root].inputs[1]);
    assert_eq!(reachable_count(&g, root), 5);
}

#[test]
fn identical_constants_dedup() {
    let mut g = Graph::new();
    let c1 = g.constant(bits(2.0));
    let c2 = g.constant(bits(2.0));
    let root = g.add(c1, c2);

    let eliminated = g.cse();
    assert_eq!(eliminated, 1);
    assert_eq!(g.nodes[root].inputs[0], g.nodes[root].inputs[1]);
    assert_eq!(reachable_count(&g, root), 2);
}

#[test]
fn cse_empty_graph_is_a_noop() {
    let mut g = Graph::new();
    assert_eq!(g.cse(), 0);
}

#[test]
fn cse_preserves_forward_value() {
    let xs = sample_points(20, 1);
    let ys = sample_points(20, 2);
    let zs = sample_points(20, 3);
    for k in 0..20 {
        let point = [("x", xs[k]), ("y", ys[k]), ("z", zs[k])];
        let (mut g, _root) = build_dupe_graph();
        let before = value_at(&g, &point);
        let eliminated = g.cse();
        assert!(eliminated > 0, "graph should contain duplicates to remove");
        let after = value_at(&g, &point);
        assert!((before - after).abs() < 1e-9, "CSE changed the result: {before} vs {after}");
    }
}

#[test]
fn cse_keeps_the_node_count() {
    let (mut g, _) = build_dupe_graph();
    let n = g.nodes.len();
    assert_eq!(g.cse(), 2);
    assert_eq!(g.nodes.len(), n);
    assert_topo_invariant(&g);
}

#[test]
fn reclaim_after_share_removes_exactly_the_redirected() {
    let (mut g, _) = build_dupe_graph();
    let n = g.nodes.len();
    let eliminated = g.cse();
    assert_eq!(eliminated, 2);
    assert_eq!(g.dce(), eliminated);
    assert_eq!(g.nodes.len(), n - eliminated);
    assert_topo_invariant(&g);
}

#[test]
fn share_after_reclaim_finds_nothing() {
    let (mut g, _) = build_dupe_graph();
    let point = [("x", 0.7), ("y", 1.3), ("z", 2.1)];
    let before = value_at(&g, &point);
    g.cse();
    g.dce();
    let settled = g.nodes.clone();
    assert_eq!(g.cse(), 0);
    assert_eq!(g.nodes, settled);
    assert!((value_at(&g, &point) - before).abs() < 1e-9);
}

// ---- dead nodes ---------------------------------------------------------------

#[test]
fn removes_cse_orphan() {
    let mut g = Graph::new();
    let x = g.var("x".into());
    let y = g.var("y".into());
    let m1 = g.mul(x, y);
    let m2 = g.mul(x, y);
    let _root = g.add(m1, m2);
    assert_eq!(g.nodes.len(), 5);

    let point = [("x", 2.0), ("y", 3.0)];
    let before = value_at(&g, &point);

    assert_eq!(g.cse(), 1);
    assert_eq!(g.dce(), 1);
    assert_eq!(g.nodes.len(), 4);

    let after = value_at(&g, &point);
    assert!((before - after).abs() < 1e-9);
    assert_topo_invariant(&g);
}

#[test]
fn removes_constfold_leftovers() {
    let mut g = Graph::new();
    let two = g.constant(bits(2.0));
    let three = g.constant(bits(3.0));
    let x = g.var("x".into());
    let prod = g.mul(two, three);
    let _root = g.add(prod, x);

    let point = [("x", 4.0)];
    let before = value_at(&g, &point);

    g.const_fold(&eval);
    let removed = g.dce();
    assert_eq!(removed, 2);

    let after = value_at(&g, &point);
    assert!((before - after).abs() < 1e-9);
    assert_topo_invariant(&g);
}

#[test]
fn live_graph_unchanged() {
    let mut g = Graph::new();
    let x = g.var("x".into());
    let y = g.var("y".into());
    let _root = g.mul(x, y);
    let len_before = g.nodes.len();

    assert_eq!(g.dce(), 0);
    assert_eq!(g.nodes.len(), len_before);
    assert_topo_invariant(&g);
}

#[test]
fn output_stays_last() {
    let mut g = Graph::new();
    let x = g.var("x".into());
    let y = g.var("y".into());
    let _dead = g.mul(x, y);
    let root = g.add(x, y);
    assert_eq!(root, g.nodes.len() - 1);

    assert_eq!(g.dce(), 1);
    let last = g.nodes.len() - 1;
    assert!(matches!(g.nodes[last].op, OpType::Add));
    assert_topo_invariant(&g);
}

#[test]
fn deadcode_empty_graph_is_a_noop() {
    let mut g = Graph::new();
    assert_eq!(g.dce(), 0);
    assert!(g.nodes.is_empty());
}

#[test]
fn full_pipeline_preserves_value_multivar() {
    let xs = sample_points(20, 4);
    let ys = sample_points(20, 5);
    let zs = sample_points(20, 6);
    for k in 0..20 {
        let point = [("x", xs[k]), ("y", ys[k]), ("z", zs[k])];
        let (mut g, _) = build_dupe_graph();
        let before = value_at(&g, &point);

        g.const_fold(&eval);
        let merged = g.cse();
        let removed = g.dce();
        assert!(merged > 0, "graph should contain duplicates to merge");
        assert!(removed > 0, "CSE should leave orphans for DCE to remove");

        let after = value_at(&g, &point);
        assert!((before - after).abs() < 1e-9, "pipeline changed the result: {before} vs {after}");
        assert_topo_invariant(&g);
    }
}

#[test]
fn dce_keeps_survivors_in_order() {
    let mut g = Graph::new();
    let x = g.var("x".into());
    let _dead = g.var("unused".into());
    let y = g.var("y".into());
    let _root = g.sub(x, y);
    assert_eq!(g.dce(), 1);
    assert_eq!(g.nodes.len(), 3);
    assert!(matches!(&g.nodes[0].op, OpType::Var(n) if n == "x"));
    assert!(matches!(&g.nodes[1].op, OpType::Var(n) if n == "y"));
    assert_eq!(g.nodes[2].inputs, vec![0, 1]);
}

// ---- constant folding ---------------------------------------------------------

#[test]
fn folds_constant_subexpression() {
    let mut g = Graph::new();
    let x = g.var("x".into());
    let two = g.constant(bits(2.0));
    let three = g.constant(bits(3.0));
    let prod = g.mul(two, three);
    let root = g.add(x, prod);

    assert_eq!(reachable_count(&g, root), 5);

    let folded = g.const_fold(&eval);

    assert_eq!(folded, 1);
    assert!(matches!(g.nodes[prod].op, OpType::Const(c) if c == bits(6.0)));
    assert!(g.nodes[prod].inputs.is_empty());
    assert!(matches!(g.nodes[root].op, OpType::Add));
    assert_eq!(reachable_count(&g, root), 3);
}

#[test]
fn fold_preserves_values() {
    let mut g = Graph::new();
    let x = g.var("x".into());
    let two = g.constant(bits(2.0));
    let three = g.constant(bits(3.0));
    let c1 = g.mul(two, three);
    let four = g.constant(bits(4.0));
    let one = g.constant(bits(1.0));
    let c2 = g.sub(four, one);
    let term = g.mul(x, c1);
    let _root = g.add(term, c2);

    let pts = sample_points(1000, 7);
    let before: Vec<f64> = pts.iter().map(|&v| value_at(&g, &[("x", v)])).collect();

    let folded = g.const_fold(&eval);
    assert!(folded >= 2);

    for (&v, &want) in pts.iter().zip(&before) {
        let got = value_at(&g, &[("x", v)]);
        assert!((got - want).abs() < 1e-12, "fold changed value at x={v}: {got} vs {want}");
    }
}

#[test]
fn domain_failure_left_unfolded() {
    let mut g = Graph::new();
    let a = g.constant(bits(1.0));
    let b = g.constant(bits(0.0));
    let q = g.div(a, b);

    let folded = g.const_fold(&eval);

    assert_eq!(folded, 0);
    assert!(matches!(g.nodes[q].op, OpType::Div));
    assert!(!g.nodes[q].inputs.is_empty());
}

#[test]
fn folding_cascades_in_one_sweep() {
    let mut g = Graph::new();
    let two = g.constant(bits(2.0));
    let three = g.constant(bits(3.0));
    let prod = g.mul(two, three);
    let neg = g.neg(prod);
    let folded = g.const_fold(&eval);
    assert_eq!(folded, 2);
    assert!(matches!(g.nodes[neg].op, OpType::Const(c) if c == bits(-6.0)));
}

#[test]
fn dce_twice_removes_nothing_the_second_time() {
    let (mut g, _) = build_dupe_graph();
    g.cse();
    let first = g.dce();
    assert!(first > 0);
    let snapshot: Vec<(String, Vec<usize>)> =
        g.nodes.iter().map(|n| (format!("{:?}", n.op), n.inputs.clone())).collect();
    assert_eq!(g.dce(), 0);
    let again: Vec<(String, Vec<usize>)> =
        g.nodes.iter().map(|n| (format!("{:?}", n.op), n.inputs.clone())).collect();
    assert_eq!(snapshot, again);
}
