use progred::dag::{BinaryOpcode, Graph, Node, UnaryOpcode};
use progred::lowering::Op;
use progred::specialization::Choice;
use progred::traversal::Workspace;
use std::sync::Arc;

const X: u64 = 0;
const Y: u64 = 1;

#[test]
fn persistent_dag_reuses_unchanged_nodes_and_keeps_old_roots() {
    let mut base = Graph::new();
    let x = base.intern(Node::Input(X));
    let y = base.intern(Node::Input(Y));
    let xx = base.intern(Node::Unary(UnaryOpcode::Square, x));
    let yy = base.intern(Node::Unary(UnaryOpcode::Square, y));
    let root = base.intern(Node::Binary(BinaryOpcode::Min, xx, yy));
    let mut graph = Graph::fork(&Arc::new(base));
    let mut scratch = Workspace::new();
    let (tape, _, compiled) = graph.lower(root, &mut scratch);
    let mut trace = vec![Choice::Both; tape.choice_count];
    assert_eq!(graph.specialize(&compiled, &trace, &mut scratch), root);
    trace.fill(Choice::Left);
    assert_eq!(graph.specialize(&compiled, &trace, &mut scratch), xx);
    trace.fill(Choice::Right);
    assert_eq!(graph.specialize(&compiled, &trace, &mut scratch), yy);
    assert_eq!(graph.get(root), Node::Binary(BinaryOpcode::Min, xx, yy));
    assert_eq!(graph.nodes.len(), 0, "these versions only need existing nodes");
}

#[test]
fn lowering_keeps_independent_branches_local_and_preserves_expression_bits() {
    let mut graph = Graph::new();
    let x = graph.intern(Node::Input(X));
    let branches: Vec<_> = (0..40)
        .map(|i| {
            let c = graph.intern(Node::Constant((i as f32).to_bits()));
            let shifted = graph.intern(Node::Binary(BinaryOpcode::Sub, x, c));
            graph.intern(Node::Unary(UnaryOpcode::Square, shifted))
        })
        .collect();
    let root = branches
        .into_iter()
        .reduce(|a, b| graph.intern(Node::Binary(BinaryOpcode::Min, a, b)))
        .unwrap();
    let mut scratch = Workspace::new();
    let (tape, vars, _) = graph.lower(root, &mut scratch);
    assert_eq!(graph.import(&tape, &vars), root);

    for bits in [
        0,
        (-0.0f32).to_bits(),
        f32::INFINITY.to_bits(),
        0x7fc00001,
        0x7fc00002,
    ] {
        let constant = graph.intern(Node::Constant(bits));
        for op in [
            BinaryOpcode::Add,
            BinaryOpcode::Sub,
            BinaryOpcode::Mul,
            BinaryOpcode::Div,
            BinaryOpcode::Atan,
            BinaryOpcode::Min,
            BinaryOpcode::Max,
            BinaryOpcode::Compare,
            BinaryOpcode::Mod,
            BinaryOpcode::And,
            BinaryOpcode::Or,
            BinaryOpcode::Mix,
        ] {
            for (a, b) in [(x, constant), (constant, x), (constant, constant)] {
                let root = graph.intern(Node::Binary(op, a, b));
                let (tape, vars, _) = graph.lower(root, &mut scratch);
                assert_eq!(graph.import(&tape, &vars), root);
            }
        }
        let (tape, vars, _) = graph.lower(constant, &mut scratch);
        assert_eq!(graph.import(&tape, &vars), constant);
    }
}

#[test]
fn specialization_skips_discarded_branches_and_scratch_survives_arena_changes() {
    let mut base = Graph::new();
    let x = base.intern(Node::Input(X));
    let y = base.intern(Node::Input(Y));
    let choice = base.intern(Node::Binary(BinaryOpcode::Min, x, y));
    let discarded = base.intern(Node::Unary(UnaryOpcode::Square, choice));
    let root = base.intern(Node::Binary(BinaryOpcode::Max, x, discarded));
    let base = Arc::new(base);
    let mut first = Graph::fork(&base);
    let mut scratch = Workspace::new();
    let (_, _, compiled) = first.lower(root, &mut scratch);
    let trace = vec![Choice::Left; compiled.choices.len()];
    assert_eq!(first.specialize(&compiled, &trace, &mut scratch), x);
    assert_eq!(first.nodes.len(), 0, "do not rebuild the discarded square");

    // The same numeric id denotes different immutable nodes in these two
    // tile arenas. Neither scratch entries nor a wrapped stamp may alias them.
    let mut second = Graph::fork(&base);
    let first_root = first.intern(Node::Unary(UnaryOpcode::Neg, x));
    let second_root = second.intern(Node::Unary(UnaryOpcode::Abs, y));
    assert_eq!(first_root, second_root);
    let (before, before_vars, _) = first.lower(first_root, &mut scratch);
    let (other, other_vars, _) = second.lower(second_root, &mut scratch);
    let mut check = Graph::new();
    let before = check.import(&before, &before_vars);
    let other = check.import(&other, &other_vars);
    assert_ne!(before, other);
    scratch.epoch = u32::MAX;
    let (after, after_vars, _) = first.lower(first_root, &mut scratch);
    assert_eq!(before, check.import(&after, &after_vars));
}

#[test]
fn a_lowered_tape_lists_operands_before_their_users() {
    let mut graph = Graph::new();
    let x = graph.intern(Node::Input(X));
    let two = graph.intern(Node::Constant(2.0f32.to_bits()));
    let scaled = graph.intern(Node::Binary(BinaryOpcode::Mul, x, two));
    let root = graph.intern(Node::Binary(BinaryOpcode::Max, scaled, x));
    let mut scratch = Workspace::new();
    let (tape, vars, compiled) = graph.lower(root, &mut scratch);
    assert_eq!(vars, vec![X]);
    assert_eq!(
        tape.ops,
        vec![
            Op::Output(2),
            Op::Binary(BinaryOpcode::Max, 2, 1, 0),
            Op::BinaryImm(BinaryOpcode::Mul, 1, 0, 2.0f32.to_bits()),
            Op::Input(0, 0),
        ]
    );
    assert_eq!(tape.choice_count, 1);
    assert_eq!(compiled.root, root);
    assert_eq!(compiled.choices, vec![root]);
}

#[test]
fn interning_returns_the_existing_id_of_an_equal_node() {
    let mut base = Graph::new();
    let x = base.intern(Node::Input(X));
    assert_eq!(base.intern(Node::Input(X)), x);
    let base = Arc::new(base);
    let mut fork = Graph::fork(&base);
    assert_eq!(fork.intern(Node::Input(X)), x);
    let y = fork.intern(Node::Input(Y));
    assert_eq!(y, 1);
    assert_eq!(fork.intern(Node::Input(Y)), y);
    assert_eq!(fork.get(x), Node::Input(X));
    assert_eq!(fork.get(y), Node::Input(Y));
    assert_eq!(fork.nodes.len(), 1);
    assert_eq!(Node::Binary(BinaryOpcode::Min, 0, 1).children(), vec![0, 1]);
    assert!(Node::Binary(BinaryOpcode::Or, 0, 1).choice());
    assert!(!Node::Binary(BinaryOpcode::Add, 0, 1).choice());
}
