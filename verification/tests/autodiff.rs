use engine::error::EngineError;
use engine::graph::arena::Graph;
use engine::graph::node::OpType;
use engine::parse::compile;
use std::collections::HashMap;

fn conv(s: &String) -> Option<u64> {
    s.parse::<f64>().ok().map(|v| v.to_bits())
}

/// The `Debug` spelling of a literal's value, as error messages show it.
fn spell(s: &String) -> String {
    match s.parse::<f64>() {
        Ok(v) => format!("{v:?}"),
        Err(_) => s.clone(),
    }
}

/// The scalar semantics of an operator node on its operands' bits.
fn eval(op: &OpType, a: u64, b: u64) -> Result<u64, EngineError> {
    let (x, y) = (f64::from_bits(a), f64::from_bits(b));
    let v = match op {
        OpType::Add => x + y,
        OpType::Sub => x - y,
        OpType::Mul => x * y,
        OpType::Div => {
            if y == 0.0 {
                return Err(EngineError::DivByZero);
            }
            x / y
        }
        OpType::Neg => -x,
        OpType::Pow(k) => {
            let k = f64::from_bits(*k);
            if x < 0.0 && k.fract() != 0.0 {
                return Err(EngineError::DomainError(format!(
                    "pow with negative base {x} and non-integer exponent {k}"
                )));
            }
            x.powf(k)
        }
        OpType::Sin => x.sin(),
        OpType::Cos => x.cos(),
        OpType::Exp => x.exp(),
        OpType::Ln => {
            if x <= 0.0 {
                return Err(EngineError::DomainError(format!("ln requires x > 0, but got {x}")));
            }
            x.ln()
        }
        OpType::Const(_) | OpType::Var(_) => panic!("eval on a leaf"),
    };
    Ok(v.to_bits())
}

/// The local derivative contributions of an operator to its inputs, given its
/// adjoint `g` and its operands' values.
fn partials(op: &OpType, g: u64, a: u64, b: u64) -> Result<(u64, u64), EngineError> {
    let (g, av, bv) = (f64::from_bits(g), f64::from_bits(a), f64::from_bits(b));
    let (ca, cb) = match op {
        OpType::Add => (g, g),
        OpType::Sub => (g, -g),
        OpType::Mul => (g * bv, g * av),
        OpType::Div => (g / bv, -(g * av) / (bv * bv)),
        OpType::Neg => (-g, 0.0),
        OpType::Pow(n) => {
            let n = f64::from_bits(*n);
            if av == 0.0 && n < 1.0 {
                return Err(EngineError::DomainError(format!(
                    "pow derivative undefined at base 0 with exponent {n} (< 1)"
                )));
            }
            (g * n * av.powf(n - 1.0), 0.0)
        }
        OpType::Sin => (g * av.cos(), 0.0),
        OpType::Cos => ((-g) * av.sin(), 0.0),
        OpType::Exp => (g * av.exp(), 0.0),
        OpType::Ln => (g / av, 0.0),
        OpType::Const(_) | OpType::Var(_) => (0.0, 0.0),
    };
    Ok((ca.to_bits(), cb.to_bits()))
}

fn acc(x: u64, c: u64) -> u64 {
    (f64::from_bits(x) + f64::from_bits(c)).to_bits()
}

fn minus_one(bits: u64) -> u64 {
    (f64::from_bits(bits) - 1.0).to_bits()
}

fn bits(x: f64) -> u64 {
    x.to_bits()
}

fn values_at(g: &Graph, point: &HashMap<String, f64>) -> Result<Vec<u64>, EngineError> {
    let lookup = |name: &String| point.get(name).map(|v| v.to_bits());
    g.forward(&lookup, &eval)
}

fn point_of(pairs: &[(&str, f64)]) -> HashMap<String, f64> {
    pairs.iter().map(|(k, v)| (k.to_string(), *v)).collect()
}

/// Forward at `point`, then the gradient of `output`, as a map.
fn gradient_at(
    g: &Graph,
    output: usize,
    point: &HashMap<String, f64>,
) -> Result<HashMap<String, f64>, EngineError> {
    let vals = values_at(g, point)?;
    let adj = g.backward(output, &vals, &partials, &acc)?;
    Ok(g.gradient(&adj).into_iter().map(|(k, v)| (k, f64::from_bits(v))).collect())
}

fn approx(a: f64, b: f64) {
    assert!((a - b).abs() < 1e-9, "expected {b}, got {a}");
}

/// A tiny deterministic generator for reproducible points in `[low, high)`.
struct Lcg(u64);

impl Lcg {
    fn next_in(&mut self, low: f64, high: f64) -> f64 {
        self.0 = self.0.wrapping_mul(6364136223846793005).wrapping_add(1442695040888963407);
        let unit = (self.0 >> 11) as f64 / (1u64 << 53) as f64;
        low + unit * (high - low)
    }
}

// ---- forward ------------------------------------------------------------------

#[test]
fn sin_xy_plus_x_sqr() {
    let mut g = Graph::new();
    let x = g.var("x".into());
    let y = g.var("y".into());
    let xy = g.mul(x, y);
    let x_sqr = g.pow(x, bits(2.0));
    let sin_xy = g.sin(xy);
    let _f = g.add(sin_xy, x_sqr);

    let inputs = point_of(&[("x", 1.5), ("y", 2.0)]);

    assert!(g.nodes[xy].inputs.contains(&x));
    assert!(g.nodes[x_sqr].inputs.contains(&x));
    assert_eq!(g.nodes.len(), 6);

    let vals = values_at(&g, &inputs).expect("forward should succeed");
    let result = f64::from_bits(*vals.last().unwrap());
    let expected = (1.5_f64 * 2.0).sin() + 1.5_f64.powi(2);
    assert!((result - expected).abs() < 1e-9);
}

#[test]
fn missing_variable_errors() {
    let mut g = Graph::new();
    let _x = g.var("x".into());
    let inputs = HashMap::new();
    let result = values_at(&g, &inputs);
    assert!(matches!(result, Err(EngineError::UnknownVariable(name)) if name == "x"));
}

#[test]
fn div_by_zero_errors() {
    let mut g = Graph::new();
    let x = g.var("x".into());
    let y = g.var("y".into());
    let _q = g.div(x, y);
    let result = values_at(&g, &point_of(&[("x", 1.0), ("y", 0.0)]));
    assert!(matches!(result, Err(EngineError::DivByZero)));
}

#[test]
fn ln_non_positive_errors() {
    let mut g = Graph::new();
    let x = g.var("x".into());
    let _l = g.ln(x);
    let result = values_at(&g, &point_of(&[("x", -1.0)]));
    assert!(matches!(result, Err(EngineError::DomainError(_))));
}

#[test]
fn pow_negative_base_fractional_errors() {
    let mut g = Graph::new();
    let x = g.var("x".into());
    let _p = g.pow(x, bits(0.5));
    let result = values_at(&g, &point_of(&[("x", -4.0)]));
    assert!(matches!(result, Err(EngineError::DomainError(_))));
}

#[test]
fn forward_gives_every_node_a_value() {
    let mut g = Graph::new();
    let c = g.constant(bits(2.0));
    let x = g.var("x".into());
    let _s = g.sub(c, x);
    let vals = values_at(&g, &point_of(&[("x", 5.0)])).unwrap();
    assert_eq!(vals, vec![bits(2.0), bits(5.0), bits(-3.0)]);
}

#[test]
fn forward_stops_at_the_first_failing_node() {
    let mut g = Graph::new();
    let x = g.var("x".into());
    let zero = g.constant(bits(0.0));
    let _q = g.div(x, zero);
    let _m = g.var("missing".into());
    assert!(matches!(values_at(&g, &point_of(&[("x", 1.0)])), Err(EngineError::DivByZero)));
}

// ---- backward -----------------------------------------------------------------

#[test]
fn gradient_f() {
    let mut g = Graph::new();
    let v1 = g.var("x".into());
    let v2 = g.var("y".into());
    let v1v2 = g.mul(v1, v2);
    let sin_v1v2 = g.sin(v1v2);
    let v1_sqr = g.pow(v1, bits(2.0));
    let f = g.add(sin_v1v2, v1_sqr);

    let grad = gradient_at(&g, f, &point_of(&[("x", 1.5), ("y", 2.0)])).expect("backward should succeed");

    let xy: f64 = 1.5 * 2.0;
    let expected_dx: f64 = 2.0 * xy.cos() + 2.0 * 1.5;
    let expected_dy: f64 = 1.5 * xy.cos();

    assert!((grad["x"] - expected_dx).abs() < 1e-6);
    assert!((grad["y"] - expected_dy).abs() < 1e-6);
    assert_eq!(grad.len(), 2);
}

#[test]
fn shared_var_sums_both_paths() {
    let mut g = Graph::new();
    let x = g.var("x".into());
    let f = g.add(x, x);
    let grad = gradient_at(&g, f, &point_of(&[("x", 3.0)])).expect("backward should succeed");
    assert_eq!(grad["x"], 2.0);
}

#[test]
fn pow_derivative_at_zero_errors() {
    let mut g = Graph::new();
    let x = g.var("x".into());
    let p = g.pow(x, bits(0.5));
    let vals = values_at(&g, &point_of(&[("x", 0.0)])).expect("forward should succeed at x = 0");
    let result = g.backward(p, &vals, &partials, &acc);
    assert!(matches!(result, Err(EngineError::DomainError(_))));
}

#[test]
fn backward_seeds_the_chosen_output() {
    let mut g = Graph::new();
    let x = g.var("x".into());
    let y = g.var("y".into());
    let xy = g.mul(x, y);
    let _later = g.sin(xy);
    let vals = values_at(&g, &point_of(&[("x", 2.0), ("y", 3.0)])).unwrap();
    let adj = g.backward(xy, &vals, &partials, &acc).unwrap();
    assert_eq!(adj, vec![bits(3.0), bits(2.0), bits(1.0), bits(0.0)]);
}

#[test]
fn gradient_lists_variable_nodes_in_order() {
    let mut g = Graph::new();
    let _y = g.var("y".into());
    let c = g.constant(bits(1.0));
    let _x = g.var("x".into());
    let grad = g.gradient(&vec![bits(7.0), bits(8.0), bits(9.0)]);
    assert_eq!(grad, vec![("y".to_string(), bits(7.0)), ("x".to_string(), bits(9.0))]);
    let _ = c;
}

// ---- symbolic derivatives, by value --------------------------------------------

fn deriv_at(build: impl Fn(&mut Graph) -> usize, wrt: &str, point: &[(&str, f64)]) -> f64 {
    let mut g = Graph::new();
    let root = build(&mut g);
    let d = g.diff(root, wrt, &minus_one);
    let vals = values_at(&g, &point_of(point)).expect("forward should succeed");
    f64::from_bits(vals[d])
}

#[test]
fn const_derivative_is_zero() {
    approx(deriv_at(|g| g.constant(bits(5.0)), "x", &[("x", 2.0)]), 0.0);
}

#[test]
fn var_derivative_is_one_or_zero() {
    approx(deriv_at(|g| g.var("x".into()), "x", &[("x", 2.0)]), 1.0);
    approx(
        deriv_at(
            |g| {
                g.var("x".into());
                g.var("y".into())
            },
            "x",
            &[("x", 2.0), ("y", 3.0)],
        ),
        0.0,
    );
}

#[test]
fn sum_and_difference() {
    approx(
        deriv_at(
            |g| {
                let x = g.var("x".into());
                let y = g.var("y".into());
                g.add(x, y)
            },
            "x",
            &[("x", 1.0), ("y", 2.0)],
        ),
        1.0,
    );
    approx(
        deriv_at(
            |g| {
                let x = g.var("x".into());
                let y = g.var("y".into());
                g.sub(x, y)
            },
            "y",
            &[("x", 1.0), ("y", 2.0)],
        ),
        -1.0,
    );
}

#[test]
fn negation() {
    approx(
        deriv_at(
            |g| {
                let x = g.var("x".into());
                g.neg(x)
            },
            "x",
            &[("x", 4.0)],
        ),
        -1.0,
    );
}

#[test]
fn product_rule() {
    approx(
        deriv_at(
            |g| {
                let x = g.var("x".into());
                let y = g.var("y".into());
                g.mul(x, y)
            },
            "x",
            &[("x", 2.0), ("y", 3.0)],
        ),
        3.0,
    );
}

#[test]
fn quotient_rule() {
    approx(
        deriv_at(
            |g| {
                let x = g.var("x".into());
                let y = g.var("y".into());
                g.div(x, y)
            },
            "x",
            &[("x", 3.0), ("y", 2.0)],
        ),
        0.5,
    );
    approx(
        deriv_at(
            |g| {
                let x = g.var("x".into());
                let y = g.var("y".into());
                g.div(x, y)
            },
            "y",
            &[("x", 3.0), ("y", 2.0)],
        ),
        -0.75,
    );
}

#[test]
fn power_rule() {
    approx(
        deriv_at(
            |g| {
                let x = g.var("x".into());
                g.pow(x, bits(3.0))
            },
            "x",
            &[("x", 2.0)],
        ),
        12.0,
    );
}

#[test]
fn unary_chain_rules() {
    let x = 0.5_f64;
    approx(
        deriv_at(
            |g| {
                let v = g.var("x".into());
                g.sin(v)
            },
            "x",
            &[("x", x)],
        ),
        x.cos(),
    );
    approx(
        deriv_at(
            |g| {
                let v = g.var("x".into());
                g.cos(v)
            },
            "x",
            &[("x", x)],
        ),
        -x.sin(),
    );
    approx(
        deriv_at(
            |g| {
                let v = g.var("x".into());
                g.exp(v)
            },
            "x",
            &[("x", x)],
        ),
        x.exp(),
    );
    approx(
        deriv_at(
            |g| {
                let v = g.var("x".into());
                g.ln(v)
            },
            "x",
            &[("x", 2.0)],
        ),
        0.5,
    );
}

#[test]
fn nested_chain_and_product() {
    let (xv, yv) = (1.5_f64, 2.0_f64);
    approx(
        deriv_at(
            |g| {
                let x = g.var("x".into());
                let y = g.var("y".into());
                let xy = g.mul(x, y);
                g.sin(xy)
            },
            "x",
            &[("x", xv), ("y", yv)],
        ),
        (xv * yv).cos() * yv,
    );
}

#[test]
fn diff_appends_and_leaves_original_intact() {
    let mut g = Graph::new();
    let x = g.var("x".into());
    let y = g.var("y".into());
    let f = g.mul(x, y);
    let len_before = g.nodes.len();

    let d = g.diff(f, "x", &minus_one);
    assert!(g.nodes.len() > len_before, "diff should append nodes");

    let vals = values_at(&g, &point_of(&[("x", 2.0), ("y", 3.0)])).expect("forward should succeed");
    approx(f64::from_bits(vals[f]), 6.0);
    approx(f64::from_bits(vals[d]), 3.0);
}

// ---- trace --------------------------------------------------------------------

fn build_sin_xy_plus_x2() -> Graph {
    let mut g = Graph::new();
    let x = g.var("x".into());
    let y = g.var("y".into());
    let xy = g.mul(x, y);
    let s = g.sin(xy);
    let x2 = g.pow(x, bits(2.0));
    let _f = g.add(s, x2);
    g
}

#[test]
fn forward_is_topological_and_backward_is_its_reverse() {
    let g = build_sin_xy_plus_x2();
    let node_count = g.nodes.len();
    let output = node_count - 1;
    let point = point_of(&[("x", 1.5), ("y", 2.0)]);
    let lookup = |name: &String| point.get(name).map(|v| v.to_bits());

    let trace = g.trace(output, &lookup, &eval, &partials, &acc).expect("trace should succeed");

    assert_eq!(trace.forward.len(), node_count);
    for (i, step) in trace.forward.iter().enumerate() {
        assert_eq!(step.id, i, "forward step {i} out of topological order");
    }

    assert_eq!(trace.backward.len(), node_count);
    let forward_ids: Vec<usize> = trace.forward.iter().map(|s| s.id).collect();
    let backward_ids: Vec<usize> = trace.backward.iter().map(|s| s.id).collect();
    let reversed: Vec<usize> = forward_ids.iter().rev().copied().collect();
    assert_eq!(backward_ids, reversed, "backward is not the reverse of forward");
}

#[test]
fn trace_records_the_graph_values_and_adjoints() {
    let g = build_sin_xy_plus_x2();
    let point = point_of(&[("x", 1.5), ("y", 2.0)]);
    let lookup = |name: &String| point.get(name).map(|v| v.to_bits());
    let trace = g.trace(5, &lookup, &eval, &partials, &acc).unwrap();

    assert_eq!(trace.graph.output, 5);
    let nodes = &trace.graph.nodes;
    assert_eq!(nodes.len(), 6);
    assert_eq!(nodes[0].op, "var");
    assert_eq!(nodes[0].label.as_deref(), Some("x"));
    assert_eq!(nodes[0].inputs, None);
    assert_eq!(nodes[2].op, "mul");
    assert_eq!(nodes[2].inputs, Some(vec![0, 1]));
    assert_eq!(nodes[3].op, "sin");
    assert_eq!(nodes[4].op, "pow");
    assert_eq!(nodes[4].attr.map(|a| a.k), Some(bits(2.0)));
    assert_eq!(nodes[5].op, "add");
    assert_eq!(nodes[5].label, None);

    assert_eq!(trace.forward[2].value, bits(3.0));
    assert_eq!(trace.backward[0].id, 5);
    assert_eq!(trace.backward[0].adjoint, bits(1.0));
    let dx = f64::from_bits(trace.backward[5].adjoint);
    approx(dx, 2.0 * 3.0f64.cos() + 3.0);
}

#[test]
fn trace_fails_where_a_pass_fails() {
    let g = build_sin_xy_plus_x2();
    let point = point_of(&[("x", 1.5)]);
    let lookup = |name: &String| point.get(name).map(|v| v.to_bits());
    let r = g.trace(5, &lookup, &eval, &partials, &acc);
    assert!(matches!(r, Err(EngineError::UnknownVariable(n)) if n == "y"));
}

#[test]
fn trace_fails_exactly_where_the_sweep_fails() {
    let mut g = Graph::new();
    let x = g.var("x".into());
    let p = g.pow(x, bits(0.5));
    let point = point_of(&[("x", 0.0)]);
    let lookup = |name: &String| point.get(name).map(|v| v.to_bits());
    let vals = g.forward(&lookup, &eval).unwrap();
    let swept = g.backward(p, &vals, &partials, &acc);
    let traced = g.trace(p, &lookup, &eval, &partials, &acc);
    match (swept, traced) {
        (Err(EngineError::DomainError(a)), Err(EngineError::DomainError(b))) => assert_eq!(a, b),
        _ => panic!("expected the same domain error from the sweep and the trace"),
    }
}

#[test]
fn nodes_above_the_output_keep_a_zero_adjoint() {
    let g = build_sin_xy_plus_x2();
    let point = point_of(&[("x", 1.5), ("y", 2.0)]);
    let lookup = |name: &String| point.get(name).map(|v| v.to_bits());
    let trace = g.trace(2, &lookup, &eval, &partials, &acc).unwrap();
    for step in &trace.backward {
        if step.id > 2 {
            assert_eq!(step.adjoint, bits(0.0));
        }
    }
}

// ---- jacobian -----------------------------------------------------------------

#[test]
fn jacobian_rows_are_gradients() {
    let mut g = Graph::new();
    let x = g.var("x".into());
    let y = g.var("y".into());
    let f1 = g.mul(x, y);
    let f2 = g.add(x, y);
    let vals = values_at(&g, &point_of(&[("x", 2.0), ("y", 5.0)])).unwrap();
    let vars = vec!["y".to_string(), "x".to_string()];
    let jac = g.jacobian(&vals, &[f1, f2], &vars, &partials, &acc).unwrap();
    assert_eq!(jac, vec![vec![bits(2.0), bits(5.0)], vec![bits(1.0), bits(1.0)]]);
}

#[test]
fn jacobian_reports_a_failing_row() {
    let mut g = Graph::new();
    let x = g.var("x".into());
    let p = g.pow(x, bits(0.5));
    let vals = values_at(&g, &point_of(&[("x", 0.0)])).unwrap();
    let vars = vec!["x".to_string()];
    let r = g.jacobian(&vals, &[x, p], &vars, &partials, &acc);
    assert!(matches!(r, Err(EngineError::DomainError(_))));
}

#[test]
fn jacobian_reports_the_first_failing_row() {
    let mut g = Graph::new();
    let x = g.var("x".into());
    let p = g.pow(x, bits(0.5));
    let q = g.pow(x, bits(0.25));
    let vals = values_at(&g, &point_of(&[("x", 0.0)])).unwrap();
    let vars = vec!["x".to_string()];
    // A node whose adjoint is zero passes nothing on, so only a sweep seeded
    // at a failing power reaches its undefined derivative.
    let seeded = |op: &OpType, adj: u64, a: u64, b: u64| {
        if f64::from_bits(adj) == 0.0 {
            Ok((bits(0.0), bits(0.0)))
        } else {
            partials(op, adj, a, b)
        }
    };
    assert_eq!(g.jacobian(&vals, &[x], &vars, &seeded, &acc).unwrap(), vec![vec![bits(1.0)]]);
    match g.jacobian(&vals, &[x, q, p], &vars, &seeded, &acc) {
        Err(EngineError::DomainError(msg)) => assert!(msg.contains("0.25")),
        other => panic!("expected a domain error, got {:?}", other),
    }
    match g.jacobian(&vals, &[p, q], &vars, &seeded, &acc) {
        Err(EngineError::DomainError(msg)) => assert!(msg.contains("0.5")),
        other => panic!("expected a domain error, got {:?}", other),
    }
}

// ---- finite differences ---------------------------------------------------------

const TOLERANCE: f64 = 1e-6;
const H: f64 = 1e-5;
const N_POINTS: usize = 10;

fn numerical_gradient(
    mut f: impl FnMut(&HashMap<String, f64>) -> f64,
    point: &HashMap<String, f64>,
    h: f64,
) -> HashMap<String, f64> {
    let mut grad: HashMap<String, f64> = HashMap::new();
    let mut modified: HashMap<String, f64> = point.clone();
    for key in point.keys() {
        let base: f64 = point[key];
        modified.insert(key.clone(), base + h);
        let f_plus: f64 = f(&modified);
        modified.insert(key.clone(), base - h);
        let f_minus: f64 = f(&modified);
        modified.insert(key.clone(), base);
        grad.insert(key.clone(), (f_plus - f_minus) / (2.0 * h));
    }
    grad
}

fn check(build: impl Fn(&mut Graph) -> usize, point: &HashMap<String, f64>, tolerance: f64) {
    let mut g = Graph::new();
    build(&mut g);
    let auto_diff = gradient_at(&g, g.nodes.len() - 1, point).expect("backward should succeed");

    let f = |inputs: &HashMap<String, f64>| {
        let mut gg = Graph::new();
        build(&mut gg);
        let vals = values_at(&gg, inputs).expect("forward should succeed");
        f64::from_bits(*vals.last().unwrap())
    };
    let num_grad = numerical_gradient(f, point, H);

    for key in point.keys() {
        assert!(
            (auto_diff[key] - num_grad[key]).abs() < tolerance,
            "grad mismatch on {key}: auto_diff={}, num_grad={}",
            auto_diff[key],
            num_grad[key],
        );
    }
}

fn check_random(build: impl Fn(&mut Graph) -> usize + Copy, vars: &[&str], low: f64, high: f64, seed: u64) {
    let mut rng = Lcg(seed);
    for _ in 0..N_POINTS {
        let point: HashMap<String, f64> =
            vars.iter().map(|v| (v.to_string(), rng.next_in(low, high))).collect();
        check(build, &point, TOLERANCE);
    }
}

#[test]
fn add() {
    let build = |g: &mut Graph| {
        let c = g.constant(bits(1.0));
        let x = g.var("x".into());
        g.add(x, c)
    };
    check_random(build, &["x"], 0.0, 100.0, 11);
}

#[test]
fn pow() {
    let build = |g: &mut Graph| {
        let x = g.var("x".into());
        let y = g.var("y".into());
        let xy = g.mul(x, y);
        g.pow(xy, bits(2.0))
    };
    check_random(build, &["x", "y"], 0.1, 1.0, 12);
}

#[test]
fn ln_cos_xy() {
    let build = |g: &mut Graph| {
        let x = g.var("x".into());
        let y = g.var("y".into());
        let xy = g.mul(x, y);
        let cos_xy = g.cos(xy);
        g.ln(cos_xy)
    };
    check_random(build, &["x", "y"], 0.1, 1.0, 13);
}

#[test]
fn wrapped_trig() {
    let build = |g: &mut Graph| {
        let x = g.var("x".into());
        let exp = g.exp(x);
        let cos_exp_x = g.cos(exp);
        let sin_cos_exp_x = g.sin(cos_exp_x);
        g.cos(sin_cos_exp_x)
    };
    check_random(build, &["x"], 0.1, 1.0, 14);
}

#[test]
fn fraction() {
    let build = |g: &mut Graph| {
        let x = g.var("x".into());
        let y = g.var("y".into());
        let x_sqr = g.pow(x, bits(2.0));
        let y_sqr = g.pow(y, bits(2.0));
        let sum = g.add(x_sqr, y_sqr);
        let sin_x = g.sin(x);
        g.div(sin_x, sum)
    };
    check_random(build, &["x", "y"], 0.1, 1.0, 15);
}

#[test]
fn neg_exp() {
    let build = |g: &mut Graph| {
        let x = g.var("x".into());
        let y = g.var("y".into());
        let x_sqr = g.pow(x, bits(2.0));
        let y_cube = g.pow(y, bits(3.0));
        let prod = g.mul(x_sqr, y_cube);
        let exp = g.exp(prod);
        g.neg(exp)
    };
    check_random(build, &["x", "y"], 0.1, 1.0, 16);
}

#[test]
fn triple_var() {
    let build = |g: &mut Graph| {
        let x = g.var("x".into());
        let y = g.var("y".into());
        let z = g.var("z".into());
        let y_sqr = g.pow(y, bits(2.0));
        let xy = g.mul(x, y);
        let xyz = g.mul(xy, z);
        let sin_xy = g.sin(xy);
        let ln_y_sqr = g.ln(y_sqr);
        let s = g.add(xyz, sin_xy);
        g.add(s, ln_y_sqr)
    };
    check_random(build, &["x", "y", "z"], 0.1, 1.0, 17);
}

#[test]
fn crazy() {
    let build = |g: &mut Graph| {
        let x = g.var("x".into());
        let y = g.var("y".into());
        let z = g.var("z".into());

        let x_sqr = g.pow(x, bits(2.0));
        let y_sqr = g.pow(y, bits(2.0));
        let z_sqr = g.pow(z, bits(2.0));

        let x_sqr_y = g.mul(x_sqr, y);
        let xy = g.mul(x, y);
        let exp_xy = g.exp(xy);

        let ln_x_sqr_y = g.ln(x_sqr_y);
        let sin_exp_xy = g.sin(exp_xy);
        let s1 = g.add(x_sqr, y_sqr);
        let s2 = g.add(s1, z_sqr);

        let ln_plus_sin = g.add(ln_x_sqr_y, sin_exp_xy);
        g.add(ln_plus_sin, s2)
    };
    check_random(build, &["x", "y", "z"], 0.1, 1.0, 18);
}

#[test]
fn sub() {
    let build = |g: &mut Graph| {
        let x = g.var("x".into());
        let y = g.var("y".into());
        let exp_x = g.exp(x);
        let ln_y = g.ln(y);
        g.sub(exp_x, ln_y)
    };
    check_random(build, &["x", "y"], 0.1, 1.0, 19);
}

#[test]
#[should_panic(expected = "grad mismatch")]
fn oracle_catches_wrong_gradient() {
    let f = |inputs: &HashMap<String, f64>| {
        let x: f64 = inputs["x"];
        x * x
    };
    let point: HashMap<String, f64> = HashMap::from([("x".into(), 3.0)]);
    let num = numerical_gradient(f, &point, H);

    let wrong: f64 = 0.0;
    assert!(
        (wrong - num["x"]).abs() < TOLERANCE,
        "grad mismatch on x: wrong={}, num={}",
        wrong,
        num["x"],
    );
}

// ---- three-way agreement ----------------------------------------------------------

fn forward_value(src: &str, point: &HashMap<String, f64>) -> f64 {
    let (g, root) = compile(src, &conv, &spell).expect("compile");
    let vals = values_at(&g, point).expect("forward");
    f64::from_bits(vals[root])
}

fn symbolic_deriv(src: &str, wrt: &str, point: &HashMap<String, f64>) -> f64 {
    let (mut g, root) = compile(src, &conv, &spell).expect("compile");
    let d = g.diff(root, wrt, &minus_one);
    let vals = values_at(&g, point).expect("forward");
    f64::from_bits(vals[d])
}

#[test]
fn three_way_agreement() {
    let cases: [(&str, &[&str]); 7] = [
        ("x * y + sin(x)", &["x", "y"]),
        ("x^2 + 3*x*y + y^2", &["x", "y"]),
        ("sin(x * y) * cos(x)", &["x", "y"]),
        ("exp(x) / (y + 1)", &["x", "y"]),
        ("ln(x) + x^3", &["x"]),
        ("(x + y) * (x - y)", &["x", "y"]),
        ("x * y * z + sin(z)", &["x", "y", "z"]),
    ];

    let mut rng = Lcg(21);
    for (src, vars) in cases {
        for _ in 0..5 {
            let point: HashMap<String, f64> =
                vars.iter().map(|v| (v.to_string(), rng.next_in(0.5, 3.0))).collect();

            let (g, root) = compile(src, &conv, &spell).expect("compile");
            let auto = gradient_at(&g, root, &point).expect("backward");
            let num = numerical_gradient(|p| forward_value(src, p), &point, 1e-6);

            for &v in vars {
                let sym = symbolic_deriv(src, v, &point);
                assert!(
                    (sym - auto[v]).abs() < 1e-9,
                    "{src}: symbolic {sym} vs reverse {} disagree on d/d{v}",
                    auto[v]
                );
                assert!(
                    (auto[v] - num[v]).abs() < 1e-4,
                    "{src}: reverse {} vs numerical {} disagree on d/d{v}",
                    auto[v],
                    num[v]
                );
            }
        }
    }
}
