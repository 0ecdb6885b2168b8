use progred::census::{runs, RegOp, Subtrees};
use progred::dag::{BinaryOpcode, Node, UnaryOpcode};

const X: u64 = 0;
const Y: u64 = 1;

#[test]
fn subtree_census_shares_branches_between_different_programs() {
    let vars = vec![X];
    let mut census = Subtrees::new();
    let first = census.reconstruct(
        &vec![
            RegOp::Input(0, 0),
            RegOp::Unary(UnaryOpcode::Square, 0, 0),
            RegOp::BinaryImm(BinaryOpcode::Add, 1, 0, 1.0f32.to_bits()),
            RegOp::Output(1, 0),
        ],
        &vars,
        1,
    );
    let second = census.reconstruct(
        &vec![
            RegOp::Input(3, 0),
            RegOp::Unary(UnaryOpcode::Square, 7, 3),
            RegOp::Store(7, 512),
            RegOp::CopyImm(7, 123.0f32.to_bits()),
            RegOp::Load(2, 512),
            RegOp::CopyReg(4, 2),
            RegOp::BinaryImm(BinaryOpcode::Add, 4, 4, 2.0f32.to_bits()),
            RegOp::Output(4, 0),
        ],
        &vars,
        1,
    );
    assert_ne!(first, second);
    let Node::Binary(_, a, _) = census.graph.get(first[0]) else {
        panic!()
    };
    let Node::Binary(_, b, _) = census.graph.get(second[0]) else {
        panic!()
    };
    assert_eq!(a, b, "shared square survives register renaming, copies, and spills");
    assert_eq!(census.statistics().nodes_per_program, 8);
    assert_eq!(census.statistics().distinct_expressions, 2);
    assert_eq!(
        census.statistics().unique_nodes,
        6,
        "unused register writes aren't retained subtrees"
    );
}

#[test]
fn subtree_census_preserves_constants_variables_and_operand_order() {
    let mut census = Subtrees::new();
    for (a, b) in [
        (0.0f32, -0.0f32),
        (f32::INFINITY, f32::NEG_INFINITY),
        (f32::from_bits(0x7fc00001), f32::from_bits(0x7fc00002)),
    ] {
        assert_ne!(
            census.graph.intern(Node::Constant(a.to_bits())),
            census.graph.intern(Node::Constant(b.to_bits()))
        );
    }
    let vars = vec![X, Y];
    let reversed = vec![Y, X];
    let mut root = |input, vars: &Vec<u64>, op| {
        census.reconstruct(&vec![RegOp::Input(0, input), op, RegOp::Output(0, 0)], vars, 1)
    };
    let a = root(0, &vars, RegOp::BinaryImm(BinaryOpcode::Sub, 0, 0, 1.0f32.to_bits()));
    assert_eq!(a, root(1, &reversed, RegOp::BinaryImm(BinaryOpcode::Sub, 0, 0, 1.0f32.to_bits())));
    assert_ne!(a, root(0, &reversed, RegOp::BinaryImm(BinaryOpcode::Sub, 0, 0, 1.0f32.to_bits())));
    assert_ne!(a, root(0, &vars, RegOp::ImmBinary(BinaryOpcode::Sub, 0, 0, 1.0f32.to_bits())));
}

#[test]
fn observing_a_program_again_counts_nothing() {
    let mut census = Subtrees::new();
    let program = vec![RegOp::Input(0, 0), RegOp::Output(0, 0), RegOp::Output(0, 1)];
    census.observe(7, &program, &vec![X], 2);
    census.observe(7, &program, &vec![X], 2);
    census.observe(8, &program, &vec![X], 2);
    let statistics = census.statistics();
    assert_eq!(statistics.programs, 2);
    assert_eq!(statistics.register_ops, 6);
    assert_eq!(statistics.outputs, 4);
    assert_eq!(statistics.nodes_per_program, 2);
    assert_eq!(statistics.distinct_expressions, 1);
    assert_eq!(statistics.nodes_per_distinct_expression, 1);
    assert_eq!(statistics.unique_nodes, 1);
    assert_eq!(statistics.unique_by_kind, [1, 0, 0, 0]);
}

#[test]
fn only_programs_that_define_what_they_read_run() {
    let vars = vec![7];
    let valid = vec![
        RegOp::Input(0, 0),
        RegOp::CopyImm(1, 5),
        RegOp::Binary(BinaryOpcode::Add, 2, 0, 1),
        RegOp::Store(2, 9),
        RegOp::Load(3, 9),
        RegOp::Output(3, 0),
    ];
    assert!(runs(&valid, &vars, 1));
    assert!(!runs(&valid, &vars, 2));
    assert!(!runs(&vec![RegOp::Output(3, 0)], &vars, 1));
    assert!(!runs(&vec![RegOp::CopyImm(0, 1), RegOp::Output(0, 1)], &vars, 1));
    assert!(!runs(&vec![RegOp::Load(0, 4), RegOp::Output(0, 0)], &vars, 1));
    assert!(!runs(&vec![RegOp::Input(0, 1), RegOp::Output(0, 0)], &vars, 1));
    assert!(runs(&vec![], &vars, 0));
}

#[test]
fn the_census_takes_runnable_programs_and_any_it_has_seen() {
    let vars = vec![7];
    let program = vec![RegOp::Input(0, 0), RegOp::Output(0, 0)];
    let broken = vec![RegOp::Output(0, 0)];
    let mut census = Subtrees::new();
    assert!(census.can_observe(1, &program, &vars, 1));
    assert!(!census.can_observe(2, &broken, &vars, 1));
    census.observe(1, &program, &vars, 1);
    assert!(census.can_observe(1, &broken, &vars, 1));
}
