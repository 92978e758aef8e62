use engine::graph::arena::Graph;
use engine::graph::key::{NodeKey, OpKey};
use engine::graph::node::{Node, OpType};

/// How a numeric payload prints: Rust's shortest `f64` form, which drops a
/// trailing `.0`.
fn fmt_num(bits: u64) -> String {
    format!("{}", f64::from_bits(bits))
}

/// The exponent one less, as the power rule needs it.
fn minus_one(bits: u64) -> u64 {
    (f64::from_bits(bits) - 1.0).to_bits()
}

fn bits(x: f64) -> u64 {
    x.to_bits()
}

// ---- arena ------------------------------------------------------------------

#[test]
fn builds_x_times_y() {
    let mut g = Graph::new();
    let x = g.var("x".into());
    let y = g.var("y".into());
    let z = g.mul(x, y);

    assert_eq!(x, 0);
    assert_eq!(y, 1);
    assert_eq!(z, 2);
    assert_eq!(g.nodes[z].inputs, vec![x, y]);
    assert_eq!(g.nodes.len(), 3);
}

#[test]
fn shared_node_appears_twice() {
    let mut g = Graph::new();
    let x = g.var("x".into());
    let y = g.var("y".into());
    let z = g.var("z".into());

    let m1 = g.mul(x, y);
    let m2 = g.mul(x, z);

    assert!(g.nodes[m1].inputs.contains(&x));
    assert!(g.nodes[m2].inputs.contains(&x));
}

#[test]
fn sin_multivar() {
    let mut g = Graph::new();
    let x = g.var("x".into());
    let y = g.var("y".into());
    let _xy = g.mul(x, y);
    let _x_sqr = g.pow(x, bits(2.0));
}

#[test]
fn push_appends_a_node_as_given() {
    let mut g = Graph::new();
    let x = g.var("x".into());
    let idx = g.push(Node { op: OpType::Sin, inputs: vec![x] });
    assert_eq!(idx, 1);
    assert!(matches!(g.nodes[idx].op, OpType::Sin));
    assert_eq!(g.nodes[idx].inputs, vec![0]);
}

#[test]
fn every_builder_records_its_op_and_inputs() {
    let mut g = Graph::new();
    let x = g.var("x".into());
    let c = g.constant(bits(1.5));
    let ops = [
        g.add(x, c),
        g.sub(x, c),
        g.mul(x, c),
        g.div(x, c),
        g.neg(x),
        g.pow(x, bits(3.0)),
        g.sin(x),
        g.cos(x),
        g.exp(x),
        g.ln(x),
    ];
    assert_eq!(ops, [2, 3, 4, 5, 6, 7, 8, 9, 10, 11]);
    assert!(matches!(g.nodes[c].op, OpType::Const(b) if b == bits(1.5)));
    assert!(matches!(g.nodes[3].op, OpType::Sub));
    assert_eq!(g.nodes[3].inputs, vec![x, c]);
    assert!(matches!(g.nodes[5].op, OpType::Div));
    assert!(matches!(g.nodes[7].op, OpType::Pow(k) if k == bits(3.0)));
    assert_eq!(g.nodes[11].inputs, vec![x]);
}

// ---- keys -------------------------------------------------------------------

#[test]
fn only_add_and_mul_commute() {
    assert!(OpKey::Add.is_commutative());
    assert!(OpKey::Mul.is_commutative());
    assert!(!OpKey::Sub.is_commutative());
    assert!(!OpKey::Div.is_commutative());
    assert!(!OpKey::Sin.is_commutative());
    assert!(!OpKey::Var("x".into()).is_commutative());
}

#[test]
fn canonical_key_sorts_commutative_operands() {
    let ab = NodeKey::canonical(&OpType::Mul, &[3, 1]);
    let ba = NodeKey::canonical(&OpType::Mul, &[1, 3]);
    assert_eq!(ab, ba);
    assert_eq!(ab.inputs, vec![1, 3]);

    let s1 = NodeKey::canonical(&OpType::Sub, &[3, 1]);
    let s2 = NodeKey::canonical(&OpType::Sub, &[1, 3]);
    assert_ne!(s1, s2);
    assert_eq!(s1.inputs, vec![3, 1]);
}

#[test]
fn plain_key_keeps_operand_order() {
    let k = NodeKey::new(&OpType::Add, &[2, 0]);
    assert_eq!(k.op, OpKey::Add);
    assert_eq!(k.inputs, vec![2, 0]);
    assert!(!k.same_as(&NodeKey::new(&OpType::Add, &[0, 2])));
    assert!(k.same_as(&NodeKey::new(&OpType::Add, &[2, 0])));
}

#[test]
fn constant_keys_compare_bit_exactly() {
    let a = NodeKey::new(&OpType::Const(bits(2.0)), &[]);
    let b = NodeKey::new(&OpType::Const(bits(2.0)), &[]);
    let c = NodeKey::new(&OpType::Const(bits(0.1 + 0.2)), &[]);
    let d = NodeKey::new(&OpType::Const(bits(0.3)), &[]);
    assert!(a.same_as(&b));
    assert!(!c.same_as(&d));
}

// ---- display ----------------------------------------------------------------

#[test]
fn atoms() {
    let mut g = Graph::new();
    let x = g.var("x".into());
    assert_eq!(g.to_expr_string(x, &fmt_num), "x");
    let c = g.constant(bits(2.5));
    assert_eq!(g.to_expr_string(c, &fmt_num), "2.5");
    let n = g.constant(bits(2.0));
    assert_eq!(g.to_expr_string(n, &fmt_num), "2");
}

#[test]
fn precedence_no_parens_when_unneeded() {
    let mut g = Graph::new();
    let x = g.var("x".into());
    let y = g.var("y".into());
    let z = g.var("z".into());
    let yz = g.mul(y, z);
    let root = g.add(x, yz);
    assert_eq!(g.to_expr_string(root, &fmt_num), "x + y * z");
}

#[test]
fn precedence_parenthesizes_looser_child() {
    let mut g = Graph::new();
    let x = g.var("x".into());
    let y = g.var("y".into());
    let z = g.var("z".into());
    let xy = g.add(x, y);
    let root = g.mul(xy, z);
    assert_eq!(g.to_expr_string(root, &fmt_num), "(x + y) * z");
}

#[test]
fn right_associativity_tie_is_wrapped() {
    let mut g = Graph::new();
    let x = g.var("x".into());
    let y = g.var("y".into());
    let z = g.var("z".into());
    let yz = g.sub(y, z);
    let root = g.sub(x, yz);
    assert_eq!(g.to_expr_string(root, &fmt_num), "x - (y - z)");
}

#[test]
fn left_tie_is_not_wrapped() {
    let mut g = Graph::new();
    let x = g.var("x".into());
    let y = g.var("y".into());
    let z = g.var("z".into());
    let xy = g.sub(x, y);
    let root = g.sub(xy, z);
    assert_eq!(g.to_expr_string(root, &fmt_num), "x - y - z");
}

#[test]
fn negation_and_pow() {
    let mut g = Graph::new();
    let x = g.var("x".into());
    let y = g.var("y".into());

    let xy = g.mul(x, y);
    let neg = g.neg(xy);
    assert_eq!(g.to_expr_string(neg, &fmt_num), "-(x * y)");

    let pow = g.pow(x, bits(2.0));
    let neg_pow = g.neg(pow);
    assert_eq!(g.to_expr_string(neg_pow, &fmt_num), "-x ^ 2");

    let sum = g.add(x, y);
    let pow_sum = g.pow(sum, bits(2.0));
    assert_eq!(g.to_expr_string(pow_sum, &fmt_num), "(x + y) ^ 2");
}

#[test]
fn function_call() {
    let mut g = Graph::new();
    let x = g.var("x".into());
    let y = g.var("y".into());
    let xy = g.mul(x, y);
    let s = g.sin(xy);
    assert_eq!(g.to_expr_string(s, &fmt_num), "sin(x * y)");
}

#[test]
fn derivative_reads_as_a_formula() {
    let mut g = Graph::new();
    let x = g.var("x".into());
    let y = g.var("y".into());
    let xy = g.mul(x, y);
    let f = g.sin(xy);
    let d = g.diff(f, "x", &minus_one);
    assert_eq!(g.to_expr_string(d, &fmt_num), "cos(x * y) * (1 * y + x * 0)");
}

// ---- symbolic differentiation, structurally ----------------------------------

#[test]
fn power_rule_builds_k_times_x_to_k_minus_one() {
    let mut g = Graph::new();
    let x = g.var("x".into());
    let p = g.pow(x, bits(3.0));
    let d = g.diff(p, "x", &minus_one);
    assert_eq!(d, g.nodes.len() - 1);
    assert_eq!(g.to_expr_string(d, &fmt_num), "3 * x ^ 2 * 1");
}

#[test]
fn quotient_rule_builds_the_textbook_fraction() {
    let mut g = Graph::new();
    let x = g.var("x".into());
    let y = g.var("y".into());
    let q = g.div(x, y);
    let d = g.diff(q, "y", &minus_one);
    assert_eq!(g.to_expr_string(d, &fmt_num), "(0 * y - x * 1) / y ^ 2");
}

#[test]
fn chain_rules_for_the_unary_functions() {
    let mut g = Graph::new();
    let x = g.var("x".into());
    let c = g.cos(x);
    let dc = g.diff(c, "x", &minus_one);
    assert_eq!(g.to_expr_string(dc, &fmt_num), "-sin(x) * 1");
    let e = g.exp(x);
    let de = g.diff(e, "x", &minus_one);
    assert_eq!(g.to_expr_string(de, &fmt_num), "exp(x) * 1");
    let l = g.ln(x);
    let dl = g.diff(l, "x", &minus_one);
    assert_eq!(g.to_expr_string(dl, &fmt_num), "1 / x * 1");
    let n = g.neg(x);
    let dn = g.diff(n, "x", &minus_one);
    assert_eq!(g.to_expr_string(dn, &fmt_num), "-1");
}

#[test]
fn diff_leaves_existing_nodes_alone() {
    let mut g = Graph::new();
    let x = g.var("x".into());
    let y = g.var("y".into());
    let f = g.mul(x, y);
    let len_before = g.nodes.len();
    let d = g.diff(f, "x", &minus_one);
    assert_eq!(g.nodes.len(), len_before + 5);
    assert_eq!(d, g.nodes.len() - 1);
    assert!(matches!(g.nodes[f].op, OpType::Mul));
    assert_eq!(g.nodes[f].inputs, vec![x, y]);
    assert!(matches!(&g.nodes[x].op, OpType::Var(n) if n == "x"));
}
