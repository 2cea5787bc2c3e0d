use catseq::program::{AluOp, CmpOp, LogicalOp, ProgramArena, TypeHint, UnaryOp, ValueData};

#[test]
fn test_new_arena() {
    let arena = ProgramArena::new();
    assert_eq!(arena.node_count(), 0);
    assert_eq!(arena.value_count(), 0);
    assert_eq!(arena.var_count(), 0);
}

#[test]
fn test_literal_creation() {
    let mut arena = ProgramArena::new();

    let int_id = arena.literal(42);
    assert_eq!(int_id, 0);
    assert!(arena.is_literal(int_id));
    assert_eq!(arena.get_literal_int(int_id), Some(42));

    let float_id = arena.literal_float_bits((3.14f64).to_bits() as i64);
    assert_eq!(float_id, 1);
    assert!(arena.is_literal(float_id));
    let bits = arena.get_literal_float_bits(float_id).unwrap();
    assert!((f64::from_bits(bits as u64) - 3.14).abs() < 1e-10);
}

#[test]
fn test_variable_creation() {
    let mut arena = ProgramArena::new();

    let x_id = arena.variable("x", "int32");
    assert_eq!(x_id, 0);
    assert!(arena.is_variable(x_id));
    assert_eq!(arena.get_variable_name(x_id), Some("x".to_string()));

    // Same name should return same ID
    let x_id2 = arena.variable("x", "int64");
    assert_eq!(x_id, x_id2);

    // Different name should create new variable
    let y_id = arena.variable("y", "float32");
    assert_ne!(x_id, y_id);
}

#[test]
fn test_binary_expr() {
    let mut arena = ProgramArena::new();

    let x = arena.variable("x", "int32");
    let ten = arena.literal(10);
    let expr = arena.binary_expr(x, "+", ten);

    assert_eq!(arena.value_count(), 3);
    assert!(!arena.is_literal(expr));
    assert!(!arena.is_variable(expr));
}

#[test]
fn test_condition() {
    let mut arena = ProgramArena::new();

    let x = arena.variable("x", "int32");
    let zero = arena.literal(0);
    let _cond = arena.condition(x, ">", zero);

    assert_eq!(arena.value_count(), 3);
}

#[test]
fn test_chain() {
    let mut arena = ProgramArena::new();

    let dur1 = arena.literal(100);
    let dur2 = arena.literal(200);
    let delay1 = arena.delay(dur1, None);
    let delay2 = arena.delay(dur2, None);
    let _chained = arena.chain(delay1, delay2);

    assert_eq!(arena.node_count(), 3);
}

#[test]
fn test_loop() {
    let mut arena = ProgramArena::new();

    let count = arena.literal(10);
    let body = arena.identity();
    let _loop_node = arena.loop_node(count, body);

    assert_eq!(arena.node_count(), 2);
}

#[test]
fn test_match() {
    let mut arena = ProgramArena::new();

    let x = arena.variable("x", "int32");
    let branch_a = arena.identity();
    let branch_b = arena.identity();

    let cases = vec![(0, branch_a), (1, branch_b)];

    let _match_node = arena.match_node(x, cases, None);

    assert_eq!(arena.node_count(), 3);
}

#[test]
fn test_chain_sequence() {
    let mut arena = ProgramArena::new();

    // Create 10 identity nodes
    let nodes: Vec<u32> = (0..10).map(|_| arena.identity()).collect();
    let initial_count = arena.node_count();

    // Chain them together
    let root = arena.chain_sequence(nodes);
    assert!(root.is_some());

    // Should have created additional chain nodes
    assert!(arena.node_count() > initial_count);
}

#[test]
fn test_chain_sequence_empty() {
    let mut arena = ProgramArena::new();
    assert_eq!(arena.chain_sequence(vec![]), None);
}

#[test]
fn test_chain_sequence_single() {
    let mut arena = ProgramArena::new();
    let node = arena.identity();
    assert_eq!(arena.chain_sequence(vec![node]), Some(node));
}

#[test]
fn test_clear() {
    let mut arena = ProgramArena::new();

    arena.variable("x", "int32");
    arena.literal(42);
    arena.identity();

    arena.clear();

    assert_eq!(arena.node_count(), 0);
    assert_eq!(arena.value_count(), 0);
    assert_eq!(arena.var_count(), 0);
}

#[test]
fn test_lift_with_params() {
    let mut arena = ProgramArena::new();

    let duration = arena.variable("t", "int32");
    let amplitude = arena.literal_float_bits((0.5f64).to_bits() as i64);

    let params = vec![
        ("duration".to_string(), duration),
        ("amplitude".to_string(), amplitude),
    ];

    let _lift_node = arena.lift(12345, params);

    assert_eq!(arena.node_count(), 1);
    assert_eq!(arena.value_count(), 2);
}

#[test]
fn test_func_def_and_apply() {
    let mut arena = ProgramArena::new();

    // Define function: fn pulse(t) { delay(t) }
    let param_t = arena.variable("_arg_pulse_t", "int32");
    let body = arena.delay(param_t, None);
    let func = arena.func_def("pulse", vec![param_t], body);

    // Apply function: pulse(100)
    let arg = arena.literal(100);
    let _call = arena.apply(func, vec![arg]);

    assert_eq!(arena.node_count(), 3); // delay, func_def, apply
}

#[test]
fn test_cmp_op_from_str() {
    assert_eq!(CmpOp::from_str("=="), Some(CmpOp::Eq));
    assert_eq!(CmpOp::from_str("!="), Some(CmpOp::Ne));
    assert_eq!(CmpOp::from_str("<"), Some(CmpOp::Lt));
    assert_eq!(CmpOp::from_str("<="), Some(CmpOp::Le));
    assert_eq!(CmpOp::from_str(">"), Some(CmpOp::Gt));
    assert_eq!(CmpOp::from_str(">="), Some(CmpOp::Ge));
    assert_eq!(CmpOp::from_str("??"), None);
}

#[test]
fn test_alu_op_from_str() {
    assert_eq!(AluOp::from_str("+"), Some(AluOp::Add));
    assert_eq!(AluOp::from_str("-"), Some(AluOp::Sub));
    assert_eq!(AluOp::from_str("*"), Some(AluOp::Mul));
    assert_eq!(AluOp::from_str("/"), Some(AluOp::Div));
    assert_eq!(AluOp::from_str("%"), Some(AluOp::Mod));
    assert_eq!(AluOp::from_str("&"), Some(AluOp::BitAnd));
    assert_eq!(AluOp::from_str("|"), Some(AluOp::BitOr));
    assert_eq!(AluOp::from_str("^"), Some(AluOp::BitXor));
    assert_eq!(AluOp::from_str("<<"), Some(AluOp::Shl));
    assert_eq!(AluOp::from_str(">>"), Some(AluOp::Shr));
    assert_eq!(AluOp::from_str("??"), None);
}

#[test]
fn test_type_hint_from_str() {
    assert_eq!(TypeHint::from_str("int32"), Some(TypeHint::Int32));
    assert_eq!(TypeHint::from_str("i32"), Some(TypeHint::Int32));
    assert_eq!(TypeHint::from_str("int64"), Some(TypeHint::Int64));
    assert_eq!(TypeHint::from_str("float32"), Some(TypeHint::Float32));
    assert_eq!(TypeHint::from_str("float64"), Some(TypeHint::Float64));
    assert_eq!(TypeHint::from_str("bool"), Some(TypeHint::Bool));
    assert_eq!(TypeHint::from_str("unknown"), None);
}

#[test]
fn test_int_literal() {
    let lit = ValueData::int_literal(42);
    assert_eq!(lit.as_int(), Some(42));
    assert_eq!(lit.as_float_bits(), None);
    assert!(lit.is_literal());
}

#[test]
fn test_float_literal() {
    let lit = ValueData::float_bits((3.14f64).to_bits() as i64);
    assert_eq!(lit.as_int(), None);
    let bits = lit.as_float_bits().unwrap();
    assert!((f64::from_bits(bits as u64) - 3.14).abs() < 1e-10);
    assert!(lit.is_literal());
}

#[test]
fn test_variable() {
    let var = ValueData::Variable { name: "x".to_string(), type_hint: TypeHint::Int32 };
    assert!(var.is_variable());
    assert!(!var.is_literal());
}

#[test]
fn test_unary_op_from_str() {
    assert_eq!(UnaryOp::from_str("-"), Some(UnaryOp::Neg));
    assert_eq!(UnaryOp::from_str("!"), Some(UnaryOp::Not));
    assert_eq!(UnaryOp::from_str("~"), Some(UnaryOp::BitNot));
    assert_eq!(UnaryOp::from_str("??"), None);
}

#[test]
fn test_logical_op_from_str() {
    assert_eq!(LogicalOp::from_str("and"), Some(LogicalOp::And));
    assert_eq!(LogicalOp::from_str("&&"), Some(LogicalOp::And));
    assert_eq!(LogicalOp::from_str("or"), Some(LogicalOp::Or));
    assert_eq!(LogicalOp::from_str("||"), Some(LogicalOp::Or));
    assert_eq!(LogicalOp::from_str("not"), Some(LogicalOp::Not));
    assert_eq!(LogicalOp::from_str("??"), None);
}

#[test]
fn test_first_type_hint_wins() {
    let mut arena = ProgramArena::new();
    let a = arena.variable("amp", "float64");
    let b = arena.variable("amp", "bool");
    assert_eq!(a, b);
    match arena.get_value(a) {
        Some(ValueData::Variable { type_hint, .. }) => {
            assert_eq!(*type_hint, TypeHint::Float64);
        },
        _ => panic!("expected a variable"),
    }
    assert_eq!(arena.var_count(), 1);
}

#[test]
fn test_unknown_operator_defaults() {
    let mut arena = ProgramArena::new();
    let x = arena.literal(1);
    let y = arena.literal(2);
    let add = arena.binary_expr(x, "??", y);
    match arena.get_value(add) {
        Some(ValueData::BinaryExpr { op, .. }) => assert_eq!(*op, AluOp::Add),
        _ => panic!("expected a binary expression"),
    }
    let cond = arena.condition(x, "??", y);
    match arena.get_value(cond) {
        Some(ValueData::Condition { op, .. }) => assert_eq!(*op, CmpOp::Eq),
        _ => panic!("expected a comparison"),
    }
}

#[test]
fn test_chain_sequence_structure() {
    let mut arena = ProgramArena::new();
    let a = arena.identity();
    let b = arena.identity();
    let c = arena.identity();
    let before = arena.node_count();

    let root = arena.chain_sequence(vec![a, b, c]).unwrap();

    // three nodes chain with exactly two new Chain nodes: (a ~ b) ~ c
    assert_eq!(arena.node_count(), before + 2);
    match arena.get_node(root) {
        Some(catseq::program::NodeData::Chain { left, right }) => {
            assert_eq!(*right, c);
            match arena.get_node(*left) {
                Some(catseq::program::NodeData::Chain { left: l2, right: r2 }) => {
                    assert_eq!(*l2, a);
                    assert_eq!(*r2, b);
                },
                _ => panic!("expected the left side to chain a and b"),
            }
        },
        _ => panic!("expected a chain node at the root"),
    }
}
