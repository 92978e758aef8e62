use engine::api::registry::Registry;
use engine::api::{variables, ApiError};
use engine::error::EngineError;
use engine::graph::arena::Graph;
use engine::graph::node::OpType;
use engine::parse::compile;
use engine::solver::ik::build_arm;

fn conv(s: &String) -> Option<u64> {
    s.parse::<f64>().ok().map(|v| v.to_bits())
}

/// The `Debug` spelling of a literal's value, as error messages show it.
fn spell(s: &String) -> String {
    match s.parse::<f64>() {
        Ok(v) => format!("{v:?}"),
        Err(_) => s.clone(),
    }
}

// ---- variables ----------------------------------------------------------------

#[test]
fn variables_are_sorted_and_distinct() {
    let (g, _) = compile("z * b + sin(a) * b + z", &conv, &spell).unwrap();
    assert_eq!(variables(&g), vec!["a".to_string(), "b".to_string(), "z".to_string()]);
}

#[test]
fn variables_of_a_constant_graph_are_none() {
    let (g, _) = compile("2 * 3", &conv, &spell).unwrap();
    assert!(variables(&g).is_empty());
}

#[test]
fn variables_follow_string_order() {
    let mut g = Graph::new();
    g.var("theta10".into());
    g.var("theta2".into());
    g.var("Theta".into());
    g.var("theta2".into());
    assert_eq!(
        variables(&g),
        vec!["Theta".to_string(), "theta10".to_string(), "theta2".to_string()]
    );
}

// ---- registry -----------------------------------------------------------------

#[test]
fn submit_then_look_up_round_trip() {
    let mut reg = Registry::new();
    let (id, vars) = reg.create_function("sin(x*y)+x^2", &conv, &spell).unwrap();
    assert_eq!(id, "fn-1");
    assert_eq!(vars, vec!["x".to_string(), "y".to_string()]);

    let f = reg.get("fn-1").expect("registered function");
    assert_eq!(f.graph.nodes.len(), 6);
    assert_eq!(f.output, 5);
    assert!(matches!(f.graph.nodes[f.output].op, OpType::Add));
}

#[test]
fn ids_count_up_and_stay_distinct() {
    let mut reg = Registry::new();
    let (a, _) = reg.create_function("x", &conv, &spell).unwrap();
    let (b, _) = reg.create_function("x*y", &conv, &spell).unwrap();
    let (c, _) = reg.create_function("2", &conv, &spell).unwrap();
    assert_eq!((a.as_str(), b.as_str(), c.as_str()), ("fn-1", "fn-2", "fn-3"));
    assert_eq!(reg.get("fn-2").unwrap().graph.nodes.len(), 3);
    assert_eq!(reg.get("fn-1").unwrap().graph.nodes.len(), 1);
}

#[test]
fn bad_source_registers_nothing() {
    let mut reg = Registry::new();
    let r = reg.create_function("sin(", &conv, &spell);
    assert!(matches!(r, Err(EngineError::UnexpectedToken { .. })));
    assert!(reg.get("fn-1").is_none());
    let (id, _) = reg.create_function("x", &conv, &spell).unwrap();
    assert_eq!(id, "fn-1");
}

#[test]
fn unknown_id_is_not_found() {
    let mut reg = Registry::new();
    reg.create_function("x*y", &conv, &spell).unwrap();
    assert!(reg.get("fn-99").is_none());
    assert!(reg.get("fn-").is_none());
    assert!(reg.get("").is_none());
}

#[test]
fn register_stores_what_it_is_given() {
    let mut reg = Registry::new();
    let mut g = Graph::new();
    let x = g.var("x".into());
    let _s = g.sin(x);
    let id = reg.register(g, 0);
    assert_eq!(id, "fn-1");
    let f = reg.get(&id).unwrap();
    assert_eq!(f.output, 0);
    assert_eq!(f.graph.nodes.len(), 2);
}

#[test]
fn not_found_names_the_id() {
    match ApiError::not_found("fn-99") {
        ApiError::NotFound(m) => assert_eq!(m, "no function fn-99"),
        ApiError::BadRequest(_) => panic!("expected NotFound"),
    }
}

// ---- the arm's kinematics graph -------------------------------------------------

#[test]
fn arm_graph_names_its_joints_and_tip() {
    let links = vec![1.0f64.to_bits(), 2.0f64.to_bits(), 0.5f64.to_bits()];
    let arm = build_arm(&links);
    assert_eq!(arm.graph.nodes.len(), 28);
    assert_eq!(arm.y_node, 27);
    assert_eq!(
        arm.theta_names,
        vec!["theta0".to_string(), "theta1".to_string(), "theta2".to_string()]
    );
    assert!(matches!(arm.graph.nodes[arm.x_node].op, OpType::Add));
    assert!(matches!(arm.graph.nodes[arm.y_node].op, OpType::Add));
    for (k, name) in arm.theta_names.iter().enumerate() {
        assert!(matches!(&arm.graph.nodes[k].op, OpType::Var(n) if n == name));
    }
}

#[test]
fn one_link_arm_has_the_textbook_tip() {
    let arm = build_arm(&vec![2.0f64.to_bits()]);
    // x = 0 + 2*cos(theta0), y = 0 + 2*sin(theta0)
    let g = &arm.graph;
    let x = &g.nodes[arm.x_node];
    let lx = &g.nodes[x.inputs[1]];
    assert!(matches!(lx.op, OpType::Mul));
    assert!(matches!(g.nodes[lx.inputs[0]].op, OpType::Const(c) if c == 2.0f64.to_bits()));
    assert!(matches!(g.nodes[lx.inputs[1]].op, OpType::Cos));
    let y = &g.nodes[arm.y_node];
    let ly = &g.nodes[y.inputs[1]];
    assert!(matches!(g.nodes[ly.inputs[1]].op, OpType::Sin));
}

#[test]
fn gradient_names_are_the_variables() {
    let (g, _) = compile("y * sin(x) + y", &conv, &spell).unwrap();
    let adjoints = vec![0u64; g.nodes.len()];
    let mut names: Vec<String> = g.gradient(&adjoints).into_iter().map(|(n, _)| n).collect();
    names.sort();
    names.dedup();
    assert_eq!(names, variables(&g));
}

#[test]
fn compiled_graph_has_nothing_to_reclaim() {
    let (mut g, root) = compile("sin(x*y) + x^2 * (x*y)", &conv, &spell).unwrap();
    let n = g.nodes.len();
    assert_eq!(root, n - 1);
    assert_eq!(g.dce(), 0);
    assert_eq!(g.nodes.len(), n);
}
