use engine::error::EngineError;
use engine::graph::arena::Graph;
use engine::graph::node::OpType;
use engine::parse::ast::Expr;
use engine::parse::lexer::{Lexer, Token};
use engine::parse::lower::{lower, Lowerer};
use engine::parse::parser::Parser;
use engine::parse::{compile, lex, parse};

/// A numeric literal's value, as `f64` bits.
fn conv(s: &String) -> Option<u64> {
    s.parse::<f64>().ok().map(|v| v.to_bits())
}

/// The `Debug` spelling of a literal's value, as error messages show it.
fn spell(s: &String) -> String {
    match s.parse::<f64>() {
        Ok(v) => format!("{v:?}"),
        Err(_) => s.clone(),
    }
}

/// The scalar semantics of an operator node on its operands' bits.
fn eval(op: &OpType, a: u64, b: u64) -> Result<u64, EngineError> {
    let (x, y) = (f64::from_bits(a), f64::from_bits(b));
    let v = match op {
        OpType::Add => x + y,
        OpType::Sub => x - y,
        OpType::Mul => x * y,
        OpType::Div => {
            if y == 0.0 {
                return Err(EngineError::DivByZero);
            }
            x / y
        }
        OpType::Neg => -x,
        OpType::Pow(k) => {
            let k = f64::from_bits(*k);
            if x < 0.0 && k.fract() != 0.0 {
                return Err(EngineError::DomainError(format!(
                    "pow with negative base {x} and non-integer exponent {k}"
                )));
            }
            x.powf(k)
        }
        OpType::Sin => x.sin(),
        OpType::Cos => x.cos(),
        OpType::Exp => x.exp(),
        OpType::Ln => {
            if x <= 0.0 {
                return Err(EngineError::DomainError(format!("ln requires x > 0, but got {x}")));
            }
            x.ln()
        }
        OpType::Const(_) | OpType::Var(_) => panic!("eval on a leaf"),
    };
    Ok(v.to_bits())
}

fn forward_at(g: &Graph, point: &[(&str, f64)]) -> Result<Vec<f64>, EngineError> {
    let lookup = |name: &String| {
        point.iter().find(|(n, _)| *n == name.as_str()).map(|(_, v)| v.to_bits())
    };
    g.forward(&lookup, &eval).map(|vals| vals.into_iter().map(f64::from_bits).collect())
}

fn lex_all(src: &str) -> Result<Vec<Token>, EngineError> {
    Lexer::new(src).tokenize()
}

fn num(s: &str) -> Token {
    Token::Number(s.into())
}

// ---- lexer ------------------------------------------------------------------

#[test]
fn lexes_sin_xy_plus_x2() {
    let tokens = lex_all("sin(x*y) + x^2").expect("should lex cleanly");
    assert_eq!(
        tokens,
        vec![
            Token::Ident("sin".into()),
            Token::LParen,
            Token::Ident("x".into()),
            Token::Star,
            Token::Ident("y".into()),
            Token::RParen,
            Token::Plus,
            Token::Ident("x".into()),
            Token::Caret,
            num("2"),
            Token::Eof,
        ]
    );
}

#[test]
fn lexes_all_operators() {
    assert_eq!(
        lex_all("+-*/^(),").unwrap(),
        vec![
            Token::Plus,
            Token::Minus,
            Token::Star,
            Token::Slash,
            Token::Caret,
            Token::LParen,
            Token::RParen,
            Token::Comma,
            Token::Eof,
        ]
    );
}

#[test]
fn lexes_multidigit_and_float_numbers() {
    assert_eq!(lex_all("42").unwrap(), vec![num("42"), Token::Eof]);
    assert_eq!(lex_all("3.14").unwrap(), vec![num("3.14"), Token::Eof]);
    assert_eq!(
        lex_all("10 + 2.5").unwrap(),
        vec![num("10"), Token::Plus, num("2.5"), Token::Eof]
    );
}

#[test]
fn identifier_allows_trailing_digits() {
    assert_eq!(
        lex_all("theta2").unwrap(),
        vec![Token::Ident("theta2".into()), Token::Eof]
    );
}

#[test]
fn lexes_nested_parens() {
    assert_eq!(
        lex_all("((x))").unwrap(),
        vec![
            Token::LParen,
            Token::LParen,
            Token::Ident("x".into()),
            Token::RParen,
            Token::RParen,
            Token::Eof,
        ]
    );
}

#[test]
fn skips_whitespace_between_tokens() {
    assert_eq!(
        lex_all("  x   +\ty ").unwrap(),
        vec![
            Token::Ident("x".into()),
            Token::Plus,
            Token::Ident("y".into()),
            Token::Eof,
        ]
    );
}

#[test]
fn empty_input_is_just_eof() {
    assert_eq!(lex_all("").unwrap(), vec![Token::Eof]);
    assert_eq!(lex_all("   ").unwrap(), vec![Token::Eof]);
}

#[test]
fn unexpected_char_errors() {
    let err = lex_all("x @ y").unwrap_err();
    assert!(matches!(err, EngineError::UnexpectedChar('@')));
}

#[test]
fn malformed_number_errors() {
    let err = lex_all("1.2.3").unwrap_err();
    assert!(matches!(err, EngineError::InvalidNumber(_)));
}

#[test]
fn lone_point_is_not_a_number() {
    let err = lex_all(".").unwrap_err();
    assert!(matches!(err, EngineError::InvalidNumber(s) if s == "."));
}

#[test]
fn number_may_start_or_end_with_a_point() {
    assert_eq!(lex_all(".5").unwrap(), vec![num(".5"), Token::Eof]);
    assert_eq!(lex_all("2.").unwrap(), vec![num("2."), Token::Eof]);
}

#[test]
fn next_token_steps_through_the_source() {
    let mut l = Lexer::new("x+1");
    assert_eq!(l.next_token().unwrap(), Token::Ident("x".into()));
    assert_eq!(l.next_token().unwrap(), Token::Plus);
    assert_eq!(l.next_token().unwrap(), num("1"));
    assert_eq!(l.next_token().unwrap(), Token::Eof);
    assert_eq!(l.next_token().unwrap(), Token::Eof);
}

// ---- parser -----------------------------------------------------------------

fn parse_src(src: &str) -> Expr {
    let tokens = Lexer::new(src).tokenize().unwrap();
    Parser::new(tokens).parse_expr(0, &spell).unwrap()
}

fn var(name: &str) -> Expr {
    Expr::Var(name.into())
}

fn lit(text: &str) -> Expr {
    Expr::Num(text.into())
}

fn bin(op: Token, left: Expr, right: Expr) -> Expr {
    Expr::Binary { op, left: Box::new(left), right: Box::new(right) }
}

#[test]
fn multiply_binds_tighter_than_add() {
    assert_eq!(
        parse_src("a + b*c"),
        bin(Token::Plus, var("a"), bin(Token::Star, var("b"), var("c"))),
    );
}

#[test]
fn caret_is_right_associative() {
    assert_eq!(
        parse_src("x^2^3"),
        bin(Token::Caret, var("x"), bin(Token::Caret, lit("2"), lit("3"))),
    );
}

#[test]
fn minus_is_left_associative() {
    assert_eq!(
        parse_src("a-b-c"),
        bin(Token::Minus, bin(Token::Minus, var("a"), var("b")), var("c")),
    );
}

#[test]
fn parens_regroup_and_leave_no_node() {
    assert_eq!(
        parse_src("(a+b)*c"),
        bin(Token::Star, bin(Token::Plus, var("a"), var("b")), var("c")),
    );
}

#[test]
fn prefix_minus_binds_looser_than_caret() {
    assert_eq!(
        parse_src("-x^2"),
        Expr::Unary {
            op: Token::Minus,
            child: Box::new(bin(Token::Caret, var("x"), lit("2"))),
        },
    );
}

#[test]
fn prefix_minus_binds_tighter_than_star() {
    assert_eq!(
        parse_src("-a*b"),
        bin(
            Token::Star,
            Expr::Unary { op: Token::Minus, child: Box::new(var("a")) },
            var("b"),
        ),
    );
}

#[test]
fn call_parses_its_argument() {
    assert_eq!(
        parse_src("sin(x*y)"),
        Expr::Call {
            fn_name: "sin".into(),
            arg: Box::new(bin(Token::Star, var("x"), var("y"))),
        },
    );
}

#[test]
fn missing_operand_is_an_error() {
    let tokens = lex("sin(").unwrap();
    assert!(matches!(parse(tokens, &spell), Err(EngineError::UnexpectedToken { .. })));
}

#[test]
fn a_stray_number_reads_as_its_value() {
    match parse(lex("x 2").unwrap(), &spell) {
        Err(EngineError::UnexpectedToken { expected, found }) => {
            assert_eq!(expected, "Eof");
            assert_eq!(found, "Number(2.0)");
        }
        other => panic!("expected UnexpectedToken, got {other:?}"),
    }
    match parse(lex("(1 2.50)").unwrap(), &spell) {
        Err(EngineError::UnexpectedToken { expected, found }) => {
            assert_eq!(expected, "RParen");
            assert_eq!(found, "Number(2.5)");
        }
        other => panic!("expected UnexpectedToken, got {other:?}"),
    }
}

#[test]
fn identifiers_in_messages_are_escaped() {
    match parse(lex("x b\u{941}").unwrap(), &spell) {
        Err(EngineError::UnexpectedToken { found, .. }) => {
            assert_eq!(found, "Ident(\"b\\u{941}\")");
        }
        other => panic!("expected UnexpectedToken, got {other:?}"),
    }
}

#[test]
fn trailing_tokens_are_an_error() {
    let tokens = lex("x y").unwrap();
    match parse(tokens, &spell) {
        Err(EngineError::UnexpectedToken { expected, found }) => {
            assert_eq!(expected, "Eof");
            assert_eq!(found, "Ident(\"y\")");
        }
        other => panic!("expected UnexpectedToken, got {other:?}"),
    }
}

#[test]
fn unclosed_paren_is_an_error() {
    let tokens = lex("(x").unwrap();
    assert!(matches!(parse(tokens, &spell), Err(EngineError::UnexpectedToken { .. })));
}

#[test]
fn parser_peek_and_advance_walk_the_stream() {
    let mut p = Parser::new(lex("x+y").unwrap());
    assert_eq!(*p.peek(), Token::Ident("x".into()));
    assert_eq!(p.advance(), Token::Ident("x".into()));
    assert!(p.expect(Token::Plus, &spell).is_ok());
    assert!(matches!(p.expect(Token::Star, &spell), Err(EngineError::UnexpectedToken { .. })));
    assert_eq!(*p.peek(), Token::Ident("y".into()));
}

#[test]
fn parse_atom_reads_one_operand() {
    let mut p = Parser::new(lex("x*y").unwrap());
    assert_eq!(p.parse_atom(&spell).unwrap(), var("x"));
    assert_eq!(*p.peek(), Token::Star);
}

// ---- lowering ---------------------------------------------------------------

#[test]
fn shared_subexpression_is_one_node() {
    let (g, root) = compile("x*y + x*y", &conv, &spell).unwrap();
    assert_eq!(g.nodes.len(), 4);
    let inputs = &g.nodes[root].inputs;
    assert_eq!(inputs[0], inputs[1]);
}

#[test]
fn repeated_variable_is_one_node() {
    let (g, _) = compile("sin(x*y) + x^2", &conv, &spell).unwrap();
    let x_nodes = g
        .nodes
        .iter()
        .filter(|n| matches!(&n.op, OpType::Var(name) if name == "x"))
        .count();
    assert_eq!(x_nodes, 1);
}

#[test]
fn matches_hand_built_graph() {
    let (g, _) = compile("sin(x*y) + x^2", &conv, &spell).unwrap();
    assert_eq!(g.nodes.len(), 6);

    let vals = forward_at(&g, &[("x", 1.5), ("y", 2.0)]).expect("forward should succeed");
    let result = *vals.last().unwrap();
    let expected = (1.5_f64 * 2.0).sin() + 1.5_f64.powi(2);
    assert!((result - expected).abs() < 1e-9);
}

#[test]
fn unknown_function_is_an_error() {
    assert!(matches!(
        compile("sqrt(x)", &conv, &spell),
        Err(EngineError::UnexpectedToken { .. })
    ));
}

#[test]
fn root_is_the_last_node() {
    let (g, root) = compile("(x + 1) * 2", &conv, &spell).unwrap();
    assert_eq!(root, g.nodes.len() - 1);
    assert!(matches!(g.nodes[root].op, OpType::Mul));
}

#[test]
fn literal_becomes_its_bits() {
    let (g, root) = compile("2.5", &conv, &spell).unwrap();
    assert_eq!(g.nodes.len(), 1);
    assert!(matches!(g.nodes[root].op, OpType::Const(c) if c == 2.5f64.to_bits()));
}

#[test]
fn caret_needs_a_literal_exponent() {
    let (g, root) = compile("x^3", &conv, &spell).unwrap();
    assert!(matches!(g.nodes[root].op, OpType::Pow(k) if k == 3.0f64.to_bits()));
    assert!(matches!(compile("x^y", &conv, &spell), Err(EngineError::UnexpectedToken { .. })));
}

#[test]
fn unconvertible_literal_is_an_error() {
    let never = |_: &String| -> Option<u64> { None };
    assert!(matches!(compile("x + 1", &never, &spell), Err(EngineError::InvalidNumber(s)) if s == "1"));
}

#[test]
fn lowerer_reuses_nodes_across_calls() {
    let mut graph = Graph::new();
    let mut lw = Lowerer::new();
    let e = parse(lex("x*y").unwrap(), &spell).unwrap();
    let first = lw.lower(&e, &mut graph, &conv, &spell).unwrap();
    let second = lw.lower(&e, &mut graph, &conv, &spell).unwrap();
    assert_eq!(first, second);
    assert_eq!(graph.nodes.len(), 3);

    let (g2, root2) = lower(&e, &conv, &spell).unwrap();
    assert_eq!(g2.nodes.len(), 3);
    assert_eq!(root2, 2);
}

#[test]
fn lowering_a_lowered_subexpression_adds_nothing() {
    let mut graph = Graph::new();
    let mut lw = Lowerer::new();
    let whole = parse(lex("sin(x * y) + x^2").unwrap(), &spell).unwrap();
    let root = lw.lower(&whole, &mut graph, &conv, &spell).unwrap();
    let n = graph.nodes.len();
    assert_eq!(n, 6);
    assert_eq!(lw.lower(&whole, &mut graph, &conv, &spell).unwrap(), root);
    let part = parse(lex("x * y").unwrap(), &spell).unwrap();
    let k = lw.lower(&part, &mut graph, &conv, &spell).unwrap();
    assert_eq!(k, 2);
    assert_eq!(graph.nodes.len(), n);
    let fresh = parse(lex("x - y").unwrap(), &spell).unwrap();
    assert_eq!(lw.lower(&fresh, &mut graph, &conv, &spell).unwrap(), n);
    assert_eq!(graph.nodes.len(), n + 1);
}

#[test]
fn lex_error_surfaces_through_compile() {
    assert!(matches!(compile("x $ 1", &conv, &spell), Err(EngineError::UnexpectedChar('$'))));
}

// ---- printing and re-reading ------------------------------------------------------

fn fmt_num(bits: u64) -> String {
    format!("{}", f64::from_bits(bits))
}

#[test]
fn round_trips_by_value() {
    let sources = [
        "x * y + sin(x)",
        "(x + y) * z - x / y",
        "x^2 + 2*x + 1",
        "cos(x * y) + exp(x)",
        "-x + y^3",
    ];
    let mut state: u64 = 0x2545_F491_4F6C_DD1D;
    for src in sources {
        let (g, root) = compile(src, &conv, &spell).expect("compile source");
        let printed = g.to_expr_string(root, &fmt_num);
        let (g2, root2) = compile(&printed, &conv, &spell)
            .unwrap_or_else(|e| panic!("re-compile {printed:?} failed: {e:?}"));

        for _ in 0..10 {
            let mut coord = || {
                state = state
                    .wrapping_mul(6364136223846793005)
                    .wrapping_add(1442695040888963407);
                0.5 + ((state >> 11) as f64 / (1u64 << 53) as f64) * 2.5
            };
            let point = [("x", coord()), ("y", coord()), ("z", coord())];
            let a = forward_at(&g, &point).expect("forward original")[root];
            let b = forward_at(&g2, &point).expect("forward reprinted")[root2];
            assert!(
                (a - b).abs() < 1e-9,
                "round-trip mismatch for {src:?} -> {printed:?}: {a} vs {b}"
            );
        }
    }
}

#[test]
fn printed_form_reparses_to_the_same_graph() {
    for src in ["(a - b) - (c - d)", "-(x * y) ^ 2", "a / (b / c)", "ln(x) * -y"] {
        let (g, root) = compile(src, &conv, &spell).unwrap();
        let printed = g.to_expr_string(root, &fmt_num);
        let (g2, root2) = compile(&printed, &conv, &spell).unwrap();
        assert_eq!(g2.to_expr_string(root2, &fmt_num), printed, "for {src}");
        assert_eq!(g.nodes.len(), g2.nodes.len(), "for {src}");
    }
}

#[test]
fn unsupported_constructs_are_named() {
    match compile("x^y", &conv, &spell) {
        Err(EngineError::UnexpectedToken { expected, found }) => {
            assert_eq!(expected, "a numeric literal exponent");
            assert_eq!(found, "Var(\"y\")");
        }
        other => panic!("expected UnexpectedToken, got {:?}", other.err()),
    }
    match compile("x ^ (y + 1)", &conv, &spell) {
        Err(EngineError::UnexpectedToken { found, .. }) => {
            assert_eq!(found, "Binary { op: Plus, left: Var(\"y\"), right: Num(1.0) }");
        }
        other => panic!("expected UnexpectedToken, got {:?}", other.err()),
    }
    match compile("sqrt(x)", &conv, &spell) {
        Err(EngineError::UnexpectedToken { expected, found }) => {
            assert_eq!(expected, "a known function name");
            assert_eq!(found, "sqrt");
        }
        other => panic!("expected UnexpectedToken, got {:?}", other.err()),
    }
}

#[test]
fn operands_fail_before_their_operator() {
    let never = |_: &String| -> Option<u64> { None };
    assert!(matches!(compile("sqrt(1)", &never, &spell), Err(EngineError::InvalidNumber(s)) if s == "1"));
    assert!(matches!(compile("sqrt(1)", &conv, &spell), Err(EngineError::UnexpectedToken { .. })));
    assert!(matches!(compile("2 * 3 + 4", &never, &spell), Err(EngineError::InvalidNumber(s)) if s == "2"));
}
