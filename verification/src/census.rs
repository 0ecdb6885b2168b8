//! Offline structural-sharing census. It reconstructs expression identities
//! from register programs: copies, spills and register numbering disappear,
//! while operations, operand order, variables and constant bits stay. Every
//! program's nodes are interned into one graph, so equal subexpressions of
//! different programs get one id.
use crate::dag::{
    acyclic, lemma_unfold_extended, unfold, BinaryOpcode, Expr, Graph, Id, Node,
    UnaryOpcode,
};
use crate::traversal::{
    lemma_distinct_below, lemma_pow3, lemma_visit_all, lemma_visit_all_closed,
    lemma_visit_all_within, ordered, pow3, visit_all,
};
use std::collections::{HashMap, HashSet};
use vstd::prelude::*;
use vstd::std_specs::iter::IteratorSpec;

verus! {

broadcast use {
    vstd::std_specs::hash::group_hash_axioms,
    vstd::std_specs::hash::axiom_u32_obeys_hash_table_key_model,
    vstd::std_specs::hash::axiom_usize_obeys_hash_table_key_model,
    vstd::std_specs::hash::axiom_random_state_builds_valid_hashers,
};

/// The id that marks a register, spill slot or output holding nothing yet.
pub const UNSET: Id = 0xffff_ffff;

/// One instruction of a register program over 256 registers. Operands name
/// registers; an immediate is a constant's bits, on the right of
/// `BinaryImm` and on the left of `ImmBinary`.
#[derive(Clone, Copy, Debug, PartialEq, Eq, Structural)]
pub enum RegOp {
    /// Output `.1` is register `.0`.
    Output(u8, u32),
    /// Register `.0` reads variable `.1`.
    Input(u8, u32),
    CopyImm(u8, u32),
    CopyReg(u8, u8),
    /// Spill slot `.1` keeps register `.0`.
    Store(u8, u32),
    /// Register `.0` reloads spill slot `.1`.
    Load(u8, u32),
    Unary(UnaryOpcode, u8, u8),
    Binary(BinaryOpcode, u8, u8, u8),
    BinaryImm(BinaryOpcode, u8, u8, u32),
    ImmBinary(BinaryOpcode, u8, u8, u32),
}

/// What a register program computes so far: the expression in each
/// register, in each spill slot, and in each output.
pub type Machine = (Seq<Option<Expr>>, Map<u32, Expr>, Seq<Option<Expr>>);

/// The expression that register `r` holds, when it holds one.
pub open spec fn held(registers: Seq<Option<Expr>>, r: u8) -> Expr {
    registers[r as int]->Some_0
}

/// One instruction's effect on the expressions that the program holds.
pub open spec fn execute(m: Machine, op: RegOp, vars: Seq<u64>) -> Machine {
    let (regs, spills, outs) = m;
    match op {
        RegOp::Output(arg, o) => if o < outs.len() {
            (regs, spills, outs.update(o as int, regs[arg as int]))
        } else {
            m
        },
        RegOp::Input(out, i) => (regs.update(out as int, Some(Expr::Input(vars[i as int]))), spills, outs),
        RegOp::CopyImm(out, bits) => (regs.update(out as int, Some(Expr::Constant(bits))), spills, outs),
        RegOp::CopyReg(out, arg) => (regs.update(out as int, regs[arg as int]), spills, outs),
        RegOp::Store(arg, slot) => (regs, spills.insert(slot, held(regs, arg)), outs),
        RegOp::Load(out, slot) => (regs.update(out as int, Some(spills[slot])), spills, outs),
        RegOp::Unary(op, out, a) => (
            regs.update(out as int, Some(Expr::Unary(op, Box::new(held(regs, a))))),
            spills,
            outs,
        ),
        RegOp::Binary(op, out, a, b) => (
            regs.update(
                out as int,
                Some(Expr::Binary(op, Box::new(held(regs, a)), Box::new(held(regs, b)))),
            ),
            spills,
            outs,
        ),
        RegOp::BinaryImm(op, out, a, bits) => (
            regs.update(
                out as int,
                Some(Expr::Binary(op, Box::new(held(regs, a)), Box::new(Expr::Constant(bits)))),
            ),
            spills,
            outs,
        ),
        RegOp::ImmBinary(op, out, a, bits) => (
            regs.update(
                out as int,
                Some(Expr::Binary(op, Box::new(Expr::Constant(bits)), Box::new(held(regs, a)))),
            ),
            spills,
            outs,
        ),
    }
}

/// The expressions after the first `n` instructions of a program with
/// `outputs` outputs; at first nothing holds any.
pub open spec fn machine(ops: Seq<RegOp>, vars: Seq<u64>, outputs: nat, n: nat) -> Machine
    decreases n,
{
    if n == 0 {
        (Seq::new(256, |i: int| None), Map::empty(), Seq::new(outputs, |i: int| None))
    } else {
        execute(machine(ops, vars, outputs, (n - 1) as nat), ops[n - 1], vars)
    }
}

/// Whether an instruction reads only registers and spill slots that hold
/// expressions, a variable that exists, and writes an output that exists.
pub open spec fn step_ok(m: Machine, op: RegOp, vars: Seq<u64>) -> bool {
    let (regs, spills, outs) = m;
    match op {
        RegOp::Output(arg, o) => regs[arg as int] is Some && o < outs.len(),
        RegOp::Input(_, i) => i < vars.len(),
        RegOp::CopyImm(..) => true,
        RegOp::CopyReg(_, arg) => regs[arg as int] is Some,
        RegOp::Store(arg, _) => regs[arg as int] is Some,
        RegOp::Load(_, slot) => spills.contains_key(slot),
        RegOp::Unary(_, _, a) => regs[a as int] is Some,
        RegOp::Binary(_, _, a, b) => regs[a as int] is Some && regs[b as int] is Some,
        RegOp::BinaryImm(_, _, a, _) => regs[a as int] is Some,
        RegOp::ImmBinary(_, _, a, _) => regs[a as int] is Some,
    }
}

/// Whether a program runs: every instruction is well formed where it runs,
/// and every output holds an expression at the end.
pub open spec fn runnable(ops: Seq<RegOp>, vars: Seq<u64>, outputs: nat) -> bool {
    &&& forall|n: nat| n < ops.len() ==> step_ok(#[trigger] machine(ops, vars, outputs, n), ops[n as int], vars)
    &&& forall|i: int|
        0 <= i < outputs ==> (#[trigger] machine(ops, vars, outputs, ops.len()).2[i]) is Some
}

proof fn lemma_machine_lengths(ops: Seq<RegOp>, vars: Seq<u64>, outputs: nat, n: nat)
    requires
        n <= ops.len(),
    ensures
        machine(ops, vars, outputs, n).0.len() == 256,
        machine(ops, vars, outputs, n).2.len() == outputs,
    decreases n,
{
    if n > 0 {
        lemma_machine_lengths(ops, vars, outputs, (n - 1) as nat);
    }
}

/// Whether flags for registers, spill slots and outputs say exactly which
/// of them hold an expression in `m`.
pub open spec fn tracks(
    m: Machine,
    registers: Seq<bool>,
    spilled: Set<u32>,
    written: Seq<bool>,
) -> bool {
    &&& registers.len() == m.0.len()
    &&& forall|r: int| 0 <= r < registers.len() ==> registers[r] == (#[trigger] m.0[r]) is Some
    &&& spilled == m.1.dom()
    &&& written.len() == m.2.len()
    &&& forall|o: int| 0 <= o < written.len() ==> written[o] == (#[trigger] m.2[o]) is Some
}

/// Whether a register program runs: every register, spill slot and variable
/// that an instruction reads holds a value, every output it writes exists,
/// and every output holds an expression at the end.
pub fn runs(ops: &Vec<RegOp>, vars: &Vec<u64>, output_count: usize) -> (r: bool)
    ensures
        r == runnable(ops@, vars@, output_count as nat),
{
    let ghost outputs = output_count as nat;
    let mut registers: Vec<bool> = Vec::new();
    while registers.len() < 256
        invariant
            registers@.len() <= 256,
            forall|i: int| 0 <= i < registers@.len() ==> !#[trigger] registers@[i],
        decreases 256 - registers@.len(),
    {
        registers.push(false);
    }
    let mut written: Vec<bool> = Vec::new();
    while written.len() < output_count
        invariant
            written@.len() <= output_count,
            forall|i: int| 0 <= i < written@.len() ==> !#[trigger] written@[i],
        decreases output_count - written@.len(),
    {
        written.push(false);
    }
    let mut spilled: HashSet<u32> = HashSet::new();
    proof {
        assert(tracks(machine(ops@, vars@, outputs, 0), registers@, spilled@, written@));
    }
    let mut n: usize = 0;
    while n < ops.len()
        invariant
            n <= ops@.len(),
            outputs == output_count,
            tracks(machine(ops@, vars@, outputs, n as nat), registers@, spilled@, written@),
            forall|k: nat|
                k < n ==> step_ok(#[trigger] machine(ops@, vars@, outputs, k), ops@[k as int], vars@),
        decreases ops@.len() - n,
    {
        let ghost m = machine(ops@, vars@, outputs, n as nat);
        proof {
            lemma_machine_lengths(ops@, vars@, outputs, n as nat);
            assert(machine(ops@, vars@, outputs, (n + 1) as nat) == execute(m, ops@[n as int], vars@));
        }
        let ok = match ops[n] {
            RegOp::Output(arg, o) => {
                if registers[arg as usize] && (o as usize) < written.len() {
                    written.set(o as usize, true);
                    true
                } else {
                    false
                }
            },
            RegOp::Input(out, i) => {
                if (i as usize) < vars.len() {
                    registers.set(out as usize, true);
                    true
                } else {
                    false
                }
            },
            RegOp::CopyImm(out, _) => {
                registers.set(out as usize, true);
                true
            },
            RegOp::CopyReg(out, arg) => {
                if registers[arg as usize] {
                    registers.set(out as usize, true);
                    true
                } else {
                    false
                }
            },
            RegOp::Store(arg, slot) => {
                if registers[arg as usize] {
                    spilled.insert(slot);
                    true
                } else {
                    false
                }
            },
            RegOp::Load(out, slot) => {
                if spilled.contains(&slot) {
                    registers.set(out as usize, true);
                    true
                } else {
                    false
                }
            },
            RegOp::Unary(_, out, a) | RegOp::BinaryImm(_, out, a, _) | RegOp::ImmBinary(
                _,
                out,
                a,
                _,
            ) => {
                if registers[a as usize] {
                    registers.set(out as usize, true);
                    true
                } else {
                    false
                }
            },
            RegOp::Binary(_, out, a, b) => {
                if registers[a as usize] && registers[b as usize] {
                    registers.set(out as usize, true);
                    true
                } else {
                    false
                }
            },
        };
        if !ok {
            proof {
                assert(!step_ok(machine(ops@, vars@, outputs, n as nat), ops@[n as int], vars@));
            }
            return false;
        }
        proof {
            let next = machine(ops@, vars@, outputs, (n + 1) as nat);
            assert(step_ok(m, ops@[n as int], vars@));
            assert(registers@ =~= Seq::new(256, |r: int| next.0[r] is Some));
            assert(written@ =~= Seq::new(outputs, |o: int| next.2[o] is Some));
            assert(spilled@ =~= next.1.dom());
        }
        n = n + 1;
    }
    proof {
        lemma_machine_lengths(ops@, vars@, outputs, ops@.len());
    }
    let mut o: usize = 0;
    while o < written.len()
        invariant
            o <= written@.len(),
            n == ops@.len(),
            outputs == output_count,
            tracks(machine(ops@, vars@, outputs, n as nat), registers@, spilled@, written@),
            forall|k: nat|
                k < n ==> step_ok(#[trigger] machine(ops@, vars@, outputs, k), ops@[k as int], vars@),
            forall|i: int| 0 <= i < o ==> (#[trigger] machine(ops@, vars@, outputs, n as nat).2[i]) is Some,
            machine(ops@, vars@, outputs, n as nat).2.len() == outputs,
        decreases written@.len() - o,
    {
        if !written[o] {
            assert(machine(ops@, vars@, outputs, ops@.len()).2[o as int] is None);
            return false;
        }
        o = o + 1;
    }
    true
}

/// The expression of `node` with its children unfolded in `nodes`.
pub open spec fn expr_of(nodes: Seq<Node>, node: Node) -> Expr {
    match node {
        Node::Input(var) => Expr::Input(var),
        Node::Constant(bits) => Expr::Constant(bits),
        Node::Unary(op, a) => Expr::Unary(op, Box::new(unfold(nodes, a))),
        Node::Binary(op, a, b) => Expr::Binary(op, Box::new(unfold(nodes, a)), Box::new(unfold(nodes, b))),
    }
}

/// Whether each of `ids` names nothing yet (`UNSET`) or a node of `nodes`
/// that stands for the expression in the same place of `exprs`.
pub open spec fn stands_for(nodes: Seq<Node>, ids: Seq<Id>, exprs: Seq<Option<Expr>>) -> bool {
    &&& ids.len() == exprs.len()
    &&& forall|i: int|
        0 <= i < ids.len() ==> ((#[trigger] ids[i] == UNSET) <==> exprs[i] is None) && (ids[i]
            != UNSET ==> ids[i] < nodes.len() && unfold(nodes, ids[i]) == exprs[i]->Some_0)
}

/// Interns `node`, whose children are nodes of the graph, and gives its id:
/// the node there stands for the node's expression.
fn intern_expr(graph: &mut Graph, node: Node) -> (r: Id)
    requires
        old(graph).well_formed(),
        acyclic(old(graph).spec_nodes()),
        old(graph).spec_nodes().len() + 1 < u32::MAX,
        forall|j: int|
            0 <= j < node.spec_children().len() ==> #[trigger] node.spec_children()[j] < old(
                graph,
            ).spec_nodes().len(),
    ensures
        final(graph).well_formed(),
        final(graph).base == old(graph).base,
        acyclic(final(graph).spec_nodes()),
        old(graph).spec_nodes().is_prefix_of(final(graph).spec_nodes()),
        final(graph).spec_nodes().len() <= old(graph).spec_nodes().len() + 1,
        r < final(graph).spec_nodes().len(),
        r != UNSET,
        unfold(final(graph).spec_nodes(), r) == expr_of(old(graph).spec_nodes(), node),
{
    let ghost before = graph.spec_nodes();
    let r = graph.intern(node);
    proof {
        graph.lemma_intern_keeps_acyclic(before, before, node);
        let after = graph.spec_nodes();
        assert(before.is_prefix_of(after));
        assert(after[r as int] == node);
        match node {
            Node::Unary(_, a) => {
                assert(after[r as int].spec_children()[0] < r);
                assert(node.spec_children()[0] == a);
                lemma_unfold_extended(before, after, a);
            },
            Node::Binary(_, a, b) => {
                assert(after[r as int].spec_children()[0] < r);
                assert(after[r as int].spec_children()[1] < r);
                assert(node.spec_children()[0] == a);
                assert(node.spec_children()[1] == b);
                lemma_unfold_extended(before, after, a);
                lemma_unfold_extended(before, after, b);
            },
            _ => {},
        }
    }
    r
}

/// Whether the spill slots hold exactly the slots that hold expressions,
/// each a node of `nodes` standing for that expression.
pub open spec fn spills_stand_for(nodes: Seq<Node>, spills: Map<u32, Id>, exprs: Map<u32, Expr>) -> bool {
    forall|slot: u32|
        (#[trigger] spills.contains_key(slot) <==> exprs.contains_key(slot)) && (spills.contains_key(
            slot,
        ) ==> spills[slot] < nodes.len() && unfold(nodes, spills[slot]) == exprs[slot])
}

proof fn lemma_stands_for_extended(
    before: Seq<Node>,
    after: Seq<Node>,
    ids: Seq<Id>,
    exprs: Seq<Option<Expr>>,
)
    requires
        before.is_prefix_of(after),
        stands_for(before, ids, exprs),
    ensures
        stands_for(after, ids, exprs),
{
    assert forall|i: int| 0 <= i < ids.len() && ids[i] != UNSET implies ids[i] < after.len() && unfold(
        after,
        #[trigger] ids[i],
    ) == exprs[i]->Some_0 by {
        lemma_unfold_extended(before, after, ids[i]);
    }
}

proof fn lemma_spills_extended(
    before: Seq<Node>,
    after: Seq<Node>,
    spills: Map<u32, Id>,
    exprs: Map<u32, Expr>,
)
    requires
        before.is_prefix_of(after),
        spills_stand_for(before, spills, exprs),
    ensures
        spills_stand_for(after, spills, exprs),
{
    assert forall|slot: u32| #[trigger] spills.contains_key(slot) implies spills[slot] < after.len()
        && unfold(after, spills[slot]) == exprs[slot] by {
        lemma_unfold_extended(before, after, spills[slot]);
    }
}

/// The node that a register holds.
fn register(registers: &Vec<Id>, r: u8) -> (id: Id)
    requires
        registers@.len() == 256,
    ensures
        id == registers@[r as int],
{
    registers[r as usize]
}

/// Runs one instruction on the ids that stand for the program's
/// expressions, interning the nodes that it builds.
fn run_instruction(
    graph: &mut Graph,
    op: RegOp,
    vars: &Vec<u64>,
    registers: &mut Vec<Id>,
    spills: &mut HashMap<u32, Id>,
    outputs: &mut Vec<Id>,
    Ghost(m): Ghost<Machine>,
)
    requires
        old(graph).well_formed(),
        acyclic(old(graph).spec_nodes()),
        old(graph).spec_nodes().len() + 2 < u32::MAX,
        step_ok(m, op, vars@),
        m.0.len() == 256,
        stands_for(old(graph).spec_nodes(), old(registers)@, m.0),
        spills_stand_for(old(graph).spec_nodes(), old(spills)@, m.1),
        stands_for(old(graph).spec_nodes(), old(outputs)@, m.2),
    ensures
        final(graph).well_formed(),
        final(graph).base == old(graph).base,
        acyclic(final(graph).spec_nodes()),
        old(graph).spec_nodes().is_prefix_of(final(graph).spec_nodes()),
        final(graph).spec_nodes().len() <= old(graph).spec_nodes().len() + 2,
        stands_for(final(graph).spec_nodes(), final(registers)@, execute(m, op, vars@).0),
        spills_stand_for(final(graph).spec_nodes(), final(spills)@, execute(m, op, vars@).1),
        stands_for(final(graph).spec_nodes(), final(outputs)@, execute(m, op, vars@).2),
{
    let ghost before = graph.spec_nodes();
    let ghost next = execute(m, op, vars@);
    match op {
        RegOp::Output(arg, o) => {
            let id = register(registers, arg);
            outputs.set(o as usize, id);
            proof {
                assert(outputs@ =~= old(outputs)@.update(o as int, id));
            }
        },
        RegOp::Input(out, i) => {
            let node = Node::Input(vars[i as usize]);
            let id = intern_expr(graph, node);
            registers.set(out as usize, id);
            proof {
                lemma_stands_for_extended(before, graph.spec_nodes(), old(registers)@, m.0);
                lemma_spills_extended(before, graph.spec_nodes(), spills@, m.1);
                lemma_stands_for_extended(before, graph.spec_nodes(), outputs@, m.2);
            }
        },
        RegOp::CopyImm(out, bits) => {
            let id = intern_expr(graph, Node::Constant(bits));
            registers.set(out as usize, id);
            proof {
                lemma_stands_for_extended(before, graph.spec_nodes(), old(registers)@, m.0);
                lemma_spills_extended(before, graph.spec_nodes(), spills@, m.1);
                lemma_stands_for_extended(before, graph.spec_nodes(), outputs@, m.2);
            }
        },
        RegOp::CopyReg(out, arg) => {
            let id = register(registers, arg);
            registers.set(out as usize, id);
        },
        RegOp::Store(arg, slot) => {
            let id = register(registers, arg);
            spills.insert(slot, id);
            proof {
                assert forall|k: u32| #[trigger] spills@.contains_key(k) implies spills@[k]
                    < before.len() && unfold(before, spills@[k]) == next.1[k] by {
                    if k != slot {
                        assert(old(spills)@.contains_key(k));
                    }
                }
            }
        },
        RegOp::Load(out, slot) => {
            let id = *spills.get(&slot).unwrap();
            registers.set(out as usize, id);
        },
        RegOp::Unary(o, out, a) => {
            let x = register(registers, a);
            let node = Node::Unary(o, x);
            proof {
                assert(node.spec_children() =~= seq![x]);
            }
            let id = intern_expr(graph, node);
            registers.set(out as usize, id);
            proof {
                lemma_stands_for_extended(before, graph.spec_nodes(), old(registers)@, m.0);
                lemma_spills_extended(before, graph.spec_nodes(), spills@, m.1);
                lemma_stands_for_extended(before, graph.spec_nodes(), outputs@, m.2);
            }
        },
        RegOp::Binary(o, out, a, b) => {
            let x = register(registers, a);
            let y = register(registers, b);
            let node = Node::Binary(o, x, y);
            proof {
                assert(node.spec_children() =~= seq![x, y]);
            }
            let id = intern_expr(graph, node);
            registers.set(out as usize, id);
            proof {
                lemma_stands_for_extended(before, graph.spec_nodes(), old(registers)@, m.0);
                lemma_spills_extended(before, graph.spec_nodes(), spills@, m.1);
                lemma_stands_for_extended(before, graph.spec_nodes(), outputs@, m.2);
            }
        },
        RegOp::BinaryImm(o, out, a, bits) => {
            let x = register(registers, a);
            let c = intern_expr(graph, Node::Constant(bits));
            let ghost middle = graph.spec_nodes();
            proof {
                lemma_unfold_extended(before, middle, x);
            }
            let node = Node::Binary(o, x, c);
            proof {
                assert(node.spec_children() =~= seq![x, c]);
            }
            let id = intern_expr(graph, node);
            registers.set(out as usize, id);
            proof {
                lemma_unfold_extended(middle, graph.spec_nodes(), c);
                lemma_stands_for_extended(before, graph.spec_nodes(), old(registers)@, m.0);
                lemma_spills_extended(before, graph.spec_nodes(), spills@, m.1);
                lemma_stands_for_extended(before, graph.spec_nodes(), outputs@, m.2);
            }
        },
        RegOp::ImmBinary(o, out, a, bits) => {
            let x = register(registers, a);
            let c = intern_expr(graph, Node::Constant(bits));
            let ghost middle = graph.spec_nodes();
            proof {
                lemma_unfold_extended(before, middle, x);
            }
            let node = Node::Binary(o, c, x);
            proof {
                assert(node.spec_children() =~= seq![c, x]);
            }
            let id = intern_expr(graph, node);
            registers.set(out as usize, id);
            proof {
                lemma_unfold_extended(middle, graph.spec_nodes(), c);
                lemma_stands_for_extended(before, graph.spec_nodes(), old(registers)@, m.0);
                lemma_spills_extended(before, graph.spec_nodes(), spills@, m.1);
                lemma_stands_for_extended(before, graph.spec_nodes(), outputs@, m.2);
            }
        },
    }
    proof {
        assert(registers@.len() == 256);
        assert forall|i: int| 0 <= i < registers@.len() implies ((#[trigger] registers@[i] == UNSET)
            <==> next.0[i] is None) && (registers@[i] != UNSET ==> registers@[i]
            < graph.spec_nodes().len() && unfold(graph.spec_nodes(), registers@[i])
            == next.0[i]->Some_0) by {
            let after = graph.spec_nodes();
            if registers@[i] == old(registers)@[i] && next.0[i] == m.0[i] {
                if registers@[i] != UNSET {
                    lemma_unfold_extended(before, after, registers@[i]);
                }
            }
        }
    }
}

/// The children of each node, as the edges that reachability follows.
pub open spec fn child_kids(nodes: Seq<Node>) -> spec_fn(Id) -> Seq<Id> {
    |id: Id| nodes[id as int].spec_children()
}

/// The nodes reachable from `roots` through children, roots included.
pub open spec fn reachable_from(nodes: Seq<Node>, roots: Seq<Id>) -> Set<Id> {
    visit_all(child_kids(nodes), nodes.len(), roots, nodes.len() as Id, Set::empty()).to_set()
}

/// The kind of a node: input, constant, unary or binary operation.
pub open spec fn kind(node: Node) -> int {
    match node {
        Node::Input(..) => 0,
        Node::Constant(..) => 1,
        Node::Unary(..) => 2,
        Node::Binary(..) => 3,
    }
}

/// The nodes of `ids` of kind `k` that `known` lacks.
pub open spec fn new_of_kind(nodes: Seq<Node>, ids: Set<Id>, known: Set<Id>, k: int) -> Set<Id> {
    ids.difference(known).filter(|x: Id| kind(nodes[x as int]) == k)
}

/// What a census has counted. Each category counts nodes, not expanded
/// subtree sizes.
#[derive(Clone, Copy, Debug)]
pub struct Statistics {
    pub programs: usize,
    pub register_ops: usize,
    pub outputs: usize,
    pub nodes_per_program: usize,
    pub distinct_expressions: usize,
    pub nodes_per_distinct_expression: usize,
    pub unique_nodes: usize,
    /// Inputs, constants, unary operations, binary operations.
    pub unique_by_kind: [usize; 4],
}

/// Whether every count can grow by `ops` instructions, `outputs` outputs
/// and `nodes` nodes.
pub open spec fn room(statistics: Statistics, ops: nat, outputs: nat, nodes: nat) -> bool {
    &&& statistics.register_ops + ops <= usize::MAX
    &&& statistics.outputs + outputs <= usize::MAX
    &&& statistics.nodes_per_program + nodes <= usize::MAX
    &&& statistics.nodes_per_distinct_expression + nodes <= usize::MAX
    &&& forall|k: int| 0 <= k < 4 ==> statistics.unique_by_kind@[k] + nodes <= usize::MAX
}

/// The census: every program observed, the graph that their expressions
/// share, each distinct combination of outputs, and every node that some
/// program reaches.
pub struct Subtrees {
    pub programs: HashSet<usize>,
    pub graph: Graph,
    pub expressions: Vec<Vec<Id>>,
    pub reachable: HashSet<Id>,
    pub statistics: Statistics,
}

/// The output combinations that a census has seen.
pub open spec fn expressions_view(expressions: Seq<Vec<Id>>) -> Seq<Seq<Id>> {
    expressions.map_values(|e: Vec<Id>| e@)
}

/// How many of `keys` are not in `known` and have kind `k`.
spec fn count_new(nodes: Seq<Node>, keys: Seq<Id>, known: Set<Id>, k: int) -> nat
    decreases keys.len(),
{
    if keys.len() == 0 {
        0
    } else {
        count_new(nodes, keys.drop_last(), known, k) + if !known.contains(keys.last()) && kind(
            nodes[keys.last() as int],
        ) == k {
            1nat
        } else {
            0nat
        }
    }
}

proof fn lemma_count_new(nodes: Seq<Node>, keys: Seq<Id>, known: Set<Id>, k: int)
    requires
        keys.no_duplicates(),
    ensures
        count_new(nodes, keys, known, k) == new_of_kind(nodes, keys.to_set(), known, k).len(),
        new_of_kind(nodes, keys.to_set(), known, k).finite(),
    decreases keys.len(),
{
    broadcast use vstd::seq_lib::seq_to_set_is_finite;
    if keys.len() == 0 {
        assert(new_of_kind(nodes, keys.to_set(), known, k) =~= Set::empty());
    } else {
        let shorter = keys.drop_last();
        let last = keys.last();
        assert(shorter.no_duplicates()) by {
            assert forall|i: int, j: int| 0 <= i < shorter.len() && 0 <= j < shorter.len() && i != j implies shorter[i]
                != shorter[j] by {
                assert(shorter[i] == keys[i] && shorter[j] == keys[j]);
            }
        }
        lemma_count_new(nodes, shorter, known, k);
        assert(keys.to_set() =~= shorter.to_set().insert(last)) by {
            assert(keys =~= shorter.push(last));
            assert forall|x: Id| keys.to_set().contains(x) implies shorter.to_set().insert(last).contains(
                x,
            ) by {
                let i = choose|i: int| 0 <= i < keys.len() && keys[i] == x;
                if i < shorter.len() {
                    assert(shorter[i] == x);
                }
            }
            assert forall|x: Id| shorter.to_set().insert(last).contains(x) implies keys.to_set().contains(
                x,
            ) by {
                if x == last {
                    assert(keys[keys.len() - 1] == x);
                } else {
                    let i = choose|i: int| 0 <= i < shorter.len() && shorter[i] == x;
                    assert(keys[i] == x);
                }
            }
        }
        assert(!shorter.contains(last)) by {
            if shorter.contains(last) {
                let i = choose|i: int| 0 <= i < shorter.len() && shorter[i] == last;
                assert(keys[i] == keys[keys.len() - 1]);
            }
        }
        let before = new_of_kind(nodes, shorter.to_set(), known, k);
        let after = new_of_kind(nodes, keys.to_set(), known, k);
        if !known.contains(last) && kind(nodes[last as int]) == k {
            assert(after =~= before.insert(last));
            assert(!before.contains(last));
        } else {
            assert(after =~= before);
        }
    }
}

spec fn weight_ids(ids: Seq<Id>) -> nat
    decreases ids.len(),
{
    if ids.len() == 0 {
        0
    } else {
        weight_ids(ids.drop_last()) + pow3(ids.last() as nat + 1)
    }
}

proof fn lemma_weight_ids_push(ids: Seq<Id>, id: Id)
    ensures
        weight_ids(ids.push(id)) == weight_ids(ids) + pow3(id as nat + 1),
{
    assert(ids.push(id).drop_last() =~= ids);
}

/// Whether `a` and `b` hold the same ids in the same order.
fn same_ids(a: &Vec<Id>, b: &Vec<Id>) -> (r: bool)
    ensures
        r == (a@ == b@),
{
    if a.len() != b.len() {
        return false;
    }
    let mut i: usize = 0;
    while i < a.len()
        invariant
            a@.len() == b@.len(),
            i <= a@.len(),
            forall|j: int| 0 <= j < i ==> a@[j] == b@[j],
        decreases a@.len() - i,
    {
        if a[i] != b[i] {
            return false;
        }
        i = i + 1;
    }
    assert(a@ =~= b@);
    true
}

/// Adds `outputs` to the combinations seen; whether it was new.
fn insert_expression(expressions: &mut Vec<Vec<Id>>, outputs: &Vec<Id>) -> (r: bool)
    ensures
        r == !expressions_view(old(expressions)@).contains(outputs@),
        expressions_view(final(expressions)@) == if r {
            expressions_view(old(expressions)@).push(outputs@)
        } else {
            expressions_view(old(expressions)@)
        },
{
    let ghost seen = expressions_view(expressions@);
    let mut i: usize = 0;
    while i < expressions.len()
        invariant
            i <= expressions@.len(),
            seen == expressions_view(expressions@),
            expressions@ == old(expressions)@,
            forall|j: int| 0 <= j < i ==> seen[j] != outputs@,
        decreases expressions@.len() - i,
    {
        if same_ids(&expressions[i], outputs) {
            proof {
                assert(seen[i as int] == outputs@);
            }
            return false;
        }
        i = i + 1;
    }
    expressions.push(outputs.clone());
    proof {
        assert(expressions_view(expressions@) =~= seen.push(outputs@));
    }
    true
}

/// The nodes reachable from `roots` through children, roots included.
fn reach(graph: &Graph, roots: &Vec<Id>) -> (r: HashSet<Id>)
    requires
        graph.well_formed(),
        acyclic(graph.spec_nodes()),
        forall|i: int| 0 <= i < roots@.len() ==> #[trigger] roots@[i] < graph.spec_nodes().len(),
    ensures
        r@ == reachable_from(graph.spec_nodes(), roots@),
        r@.len() <= graph.spec_nodes().len(),
        forall|x: Id| #[trigger] r@.contains(x) ==> x < graph.spec_nodes().len(),
{
    let ghost nodes = graph.spec_nodes();
    let ghost kids = child_kids(nodes);
    let ghost size = nodes.len();
    let ghost order = visit_all(kids, size, roots@, size as Id, Set::empty());
    let ghost all = order.to_set();
    proof {
        assert forall|i: Id, j: int| i < size && 0 <= j < kids(i).len() implies #[trigger] kids(i)[j]
            < i by {
            assert(nodes[i as int].spec_children()[j] < i);
        }
        assert(ordered(kids, size));
        assert(size <= u32::MAX);
        lemma_visit_all(kids, size, roots@, size as Id, Set::empty());
        lemma_visit_all_closed(kids, size, roots@, size as Id, Set::empty());
    }
    let mut found: HashSet<Id> = HashSet::new();
    let mut todo: Vec<Id> = roots.clone();
    while todo.len() > 0
        invariant
            graph.well_formed(),
            nodes == graph.spec_nodes(),
            acyclic(nodes),
            kids == child_kids(nodes),
            size == nodes.len(),
            ordered(kids, size),
            all == order.to_set(),
            forall|k: int| 0 <= k < order.len() ==> #[trigger] order[k] < size,
            forall|k: int, j: int|
                #![trigger kids(order[k])[j]]
                0 <= k < order.len() && 0 <= j < kids(order[k]).len() ==> Set::<Id>::empty().contains(kids(order[k])[j])
                    || order.subrange(0, k).contains(kids(order[k])[j]),
            forall|j: int|
                0 <= j < roots@.len() ==> Set::<Id>::empty().contains(#[trigger] roots@[j])
                    || order.contains(roots@[j]),
            forall|k: int| 0 <= k < todo@.len() ==> all.contains(#[trigger] todo@[k]),
            forall|x: Id| #[trigger] found@.contains(x) ==> all.contains(x),
            forall|x: Id, j: int|
                #![trigger found@.contains(x), kids(x)[j]]
                found@.contains(x) && 0 <= j < kids(x).len() ==> found@.contains(kids(x)[j])
                    || todo@.contains(kids(x)[j]),
            forall|j: int|
                0 <= j < roots@.len() ==> found@.contains(#[trigger] roots@[j]) || todo@.contains(
                    roots@[j],
                ),
        decreases weight_ids(todo@),
    {
        let ghost before = todo@;
        let id = todo.pop().unwrap();
        proof {
            assert(before =~= todo@.push(id));
            lemma_weight_ids_push(todo@, id);
            lemma_pow3(0, id as nat + 1);
            assert(all.contains(before[before.len() - 1]));
            let k = choose|k: int| 0 <= k < order.len() && order[k] == id;
        }
        if found.insert(id) {
            let ghost popped = todo@;
            proof {
                lemma_pow3(0, id as nat);
                assert(pow3(id as nat + 1) == 3 * pow3(id as nat));
                let k = choose|k: int| 0 <= k < order.len() && order[k] == id;
                assert forall|j: int| 0 <= j < kids(id).len() implies #[trigger] kids(id)[j] < id
                    && all.contains(kids(id)[j]) by {
                    assert(kids(order[k])[j] == kids(id)[j]);
                    let q = choose|q: int| 0 <= q < k && order.subrange(0, k)[q] == kids(id)[j];
                    assert(order[q] == kids(id)[j]);
                }
            }
            match graph.get(id) {
                Node::Unary(_, a) => {
                    proof {
                        assert(kids(id)[0] == a);
                        lemma_pow3(a as nat + 1, id as nat);
                        lemma_weight_ids_push(popped, a);
                    }
                    todo.push(a);
                },
                Node::Binary(_, a, b) => {
                    proof {
                        assert(kids(id)[0] == a);
                        assert(kids(id)[1] == b);
                        lemma_pow3(a as nat + 1, id as nat);
                        lemma_pow3(b as nat + 1, id as nat);
                        lemma_weight_ids_push(popped, a);
                        lemma_weight_ids_push(popped.push(a), b);
                    }
                    todo.push(a);
                    todo.push(b);
                },
                _ => {},
            }
            proof {
                assert forall|k: int| 0 <= k < todo@.len() implies all.contains(#[trigger] todo@[k]) by {
                    if k < popped.len() {
                        assert(todo@[k] == popped[k]);
                        assert(todo@[k] == before[k]);
                    }
                }
                assert forall|x: Id, j: int|
                    found@.contains(x) && 0 <= j < kids(x).len() implies found@.contains(
                    #[trigger] kids(x)[j],
                ) || todo@.contains(kids(x)[j]) by {
                    let c = kids(x)[j];
                    if x == id {
                        if j == 0 {
                            assert(todo@[popped.len() as int] == c);
                        } else {
                            assert(todo@[popped.len() as int + 1] == c);
                        }
                    } else if !found@.contains(c) && c != id {
                        assert(before.contains(c));
                        let i = choose|i: int| 0 <= i < before.len() && before[i] == c;
                        assert(todo@[i] == c);
                    }
                }
                assert forall|j: int| 0 <= j < roots@.len() implies found@.contains(
                    #[trigger] roots@[j],
                ) || todo@.contains(roots@[j]) by {
                    if !found@.contains(roots@[j]) && roots@[j] != id {
                        let i = choose|i: int| 0 <= i < before.len() && before[i] == roots@[j];
                        assert(todo@[i] == roots@[j]);
                    }
                }
            }
        } else {
            proof {
                assert forall|k: int| 0 <= k < todo@.len() implies all.contains(#[trigger] todo@[k]) by {
                    assert(todo@[k] == before[k]);
                }
                assert forall|x: Id, j: int|
                    found@.contains(x) && 0 <= j < kids(x).len() implies found@.contains(
                    #[trigger] kids(x)[j],
                ) || todo@.contains(kids(x)[j]) by {
                    let c = kids(x)[j];
                    if !found@.contains(c) {
                        let i = choose|i: int| 0 <= i < before.len() && before[i] == c;
                        assert(todo@[i] == c);
                    }
                }
                assert forall|j: int| 0 <= j < roots@.len() implies found@.contains(
                    #[trigger] roots@[j],
                ) || todo@.contains(roots@[j]) by {
                    if !found@.contains(roots@[j]) {
                        let i = choose|i: int| 0 <= i < before.len() && before[i] == roots@[j];
                        assert(todo@[i] == roots@[j]);
                    }
                }
            }
        }
    }
    proof {
        assert forall|x: Id, j: int|
            found@.contains(x) && x < size && 0 <= j < kids(x).len() implies found@.contains(
            #[trigger] kids(x)[j],
        ) by {
            assert(!todo@.contains(kids(x)[j]));
        }
        assert forall|k: int| 0 <= k < roots@.len() implies #[trigger] roots@[k] < size as Id
            && found@.contains(roots@[k]) by {
            assert(!todo@.contains(roots@[k]));
        }
        lemma_visit_all_within(kids, size, roots@, size as Id, Set::empty(), found@);
        assert forall|x: Id| all.contains(x) implies found@.contains(x) by {
            let k = choose|k: int| 0 <= k < order.len() && order[k] == x;
        }
        assert(found@ =~= all);
        assert forall|x: Id| #[trigger] found@.contains(x) implies x < size by {
            let k = choose|k: int| 0 <= k < order.len() && order[k] == x;
        }
        order.unique_seq_to_set();
        lemma_distinct_below(order, size as int);
    }
    found
}

proof fn lemma_count_new_bound(nodes: Seq<Node>, keys: Seq<Id>, known: Set<Id>, k: int)
    ensures
        count_new(nodes, keys, known, k) <= keys.len(),
    decreases keys.len(),
{
    if keys.len() > 0 {
        lemma_count_new_bound(nodes, keys.drop_last(), known, k);
    }
}


/// What reconstructing a program records: the output ids, whose nodes
/// stand for the program's output expressions in the grown graph; one more
/// instruction count per instruction and output count per output; the
/// nodes that the outputs reach, counted per program, per new output
/// combination and per kind for nodes that no program reached before.
pub open spec fn recorded(
    before: Subtrees,
    after: Subtrees,
    ops: Seq<RegOp>,
    vars: Seq<u64>,
    outputs: nat,
    r: Seq<Id>,
) -> bool {
    let nodes = after.graph.spec_nodes();
    let region = reachable_from(nodes, r);
    let new = !expressions_view(before.expressions@).contains(r);
    &&& before.graph.spec_nodes().is_prefix_of(nodes)
    &&& r.len() == outputs
    &&& forall|i: int|
        0 <= i < outputs ==> #[trigger] r[i] < nodes.len() && unfold(nodes, r[i]) == machine(
            ops,
            vars,
            outputs,
            ops.len(),
        ).2[i]->Some_0
    &&& after.programs@ == before.programs@
    &&& after.statistics.programs == before.statistics.programs
    &&& after.statistics.distinct_expressions == before.statistics.distinct_expressions
    &&& after.statistics.unique_nodes == before.statistics.unique_nodes
    &&& after.statistics.register_ops == before.statistics.register_ops + ops.len()
    &&& after.statistics.outputs == before.statistics.outputs + outputs
    &&& after.statistics.nodes_per_program == before.statistics.nodes_per_program + region.len()
    &&& expressions_view(after.expressions@) == if new {
        expressions_view(before.expressions@).push(r)
    } else {
        expressions_view(before.expressions@)
    }
    &&& after.statistics.nodes_per_distinct_expression
        == before.statistics.nodes_per_distinct_expression + if new {
        region.len()
    } else {
        0
    }
    &&& after.reachable@ == before.reachable@ + region
    &&& forall|k: int|
        0 <= k < 4 ==> #[trigger] after.statistics.unique_by_kind@[k]
            == before.statistics.unique_by_kind@[k] + new_of_kind(
            nodes,
            region,
            before.reachable@,
            k,
        ).len()
}

/// A census that counted one more program, whose identities are now
/// `programs`.
pub open spec fn counted(before: Subtrees, programs: HashSet<usize>) -> Subtrees {
    Subtrees {
        programs,
        statistics: Statistics { programs: (before.statistics.programs + 1) as usize, ..before.statistics },
        ..before
    }
}

impl Subtrees {
    /// The graph is a root arena whose children precede their parents, and
    /// every node counted as reached is one of its nodes.
    pub open spec fn well_formed(&self) -> bool {
        &&& self.graph.well_formed()
        &&& self.graph.base is None
        &&& acyclic(self.graph.spec_nodes())
        &&& forall|x: Id| #[trigger] self.reachable@.contains(x) ==> x < self.graph.spec_nodes().len()
    }

    /// An empty census.
    pub fn new() -> (r: Subtrees)
        ensures
            r.well_formed(),
            r.graph.spec_nodes() == Seq::<Node>::empty(),
            r.programs@ == Set::<usize>::empty(),
            r.expressions@ == Seq::<Vec<Id>>::empty(),
            r.reachable@ == Set::<Id>::empty(),
            r.statistics.programs == 0,
            r.statistics.register_ops == 0,
            r.statistics.outputs == 0,
            r.statistics.nodes_per_program == 0,
            r.statistics.distinct_expressions == 0,
            r.statistics.nodes_per_distinct_expression == 0,
            r.statistics.unique_nodes == 0,
            r.statistics.unique_by_kind@ == seq![0usize, 0usize, 0usize, 0usize],
    {
        let r = Subtrees {
            programs: HashSet::new(),
            graph: Graph::new(),
            expressions: Vec::new(),
            reachable: HashSet::new(),
            statistics: Statistics {
                programs: 0,
                register_ops: 0,
                outputs: 0,
                nodes_per_program: 0,
                distinct_expressions: 0,
                nodes_per_distinct_expression: 0,
                unique_nodes: 0,
                unique_by_kind: [0, 0, 0, 0],
            },
        };
        proof {
            assert(r.statistics.unique_by_kind@ =~= seq![0usize, 0usize, 0usize, 0usize]);
        }
        r
    }

    /// Reconstructs the expressions of a register program's outputs as
    /// nodes of the census graph and gives their ids; counts the program's
    /// instructions and outputs, the nodes that its outputs reach, whether
    /// its combination of outputs is new, and each kind of node that no
    /// program reached before.
    pub fn reconstruct(&mut self, ops: &Vec<RegOp>, vars: &Vec<u64>, output_count: usize) -> (r: Vec<Id>)
        requires
            old(self).well_formed(),
            runnable(ops@, vars@, output_count as nat),
            old(self).graph.spec_nodes().len() + 2 * ops@.len() + 2 < u32::MAX,
            room(
                old(self).statistics,
                ops@.len(),
                output_count as nat,
                (old(self).graph.spec_nodes().len() + 2 * ops@.len()) as nat,
            ),
        ensures
            final(self).well_formed(),
            recorded(*old(self), *final(self), ops@, vars@, output_count as nat, r@),
    {
        let ghost start = self.graph.spec_nodes();
        let ghost program = machine(ops@, vars@, output_count as nat, 0);
        let mut registers: Vec<Id> = Vec::new();
        while registers.len() < 256
            invariant
                registers@.len() <= 256,
                forall|i: int| 0 <= i < registers@.len() ==> #[trigger] registers@[i] == UNSET,
            decreases 256 - registers@.len(),
        {
            registers.push(UNSET);
        }
        let mut outputs: Vec<Id> = Vec::new();
        while outputs.len() < output_count
            invariant
                outputs@.len() <= output_count,
                forall|i: int| 0 <= i < outputs@.len() ==> #[trigger] outputs@[i] == UNSET,
            decreases output_count - outputs@.len(),
        {
            outputs.push(UNSET);
        }
        let mut spills: HashMap<u32, Id> = HashMap::new();
        proof {
            lemma_machine_lengths(ops@, vars@, output_count as nat, 0);
        }
        let mut n: usize = 0;
        while n < ops.len()
            invariant
                self.graph.well_formed(),
                self.graph.base is None,
                acyclic(self.graph.spec_nodes()),
                start.is_prefix_of(self.graph.spec_nodes()),
                self.graph.spec_nodes().len() <= start.len() + 2 * n,
                start == old(self).graph.spec_nodes(),
                start.len() + 2 * ops@.len() + 2 < u32::MAX,
                runnable(ops@, vars@, output_count as nat),
                n <= ops@.len(),
                stands_for(self.graph.spec_nodes(), registers@, machine(ops@, vars@, output_count as nat, n as nat).0),
                spills_stand_for(self.graph.spec_nodes(), spills@, machine(ops@, vars@, output_count as nat, n as nat).1),
                stands_for(self.graph.spec_nodes(), outputs@, machine(ops@, vars@, output_count as nat, n as nat).2),
                self.programs@ == old(self).programs@,
                self.expressions@ == old(self).expressions@,
                self.reachable@ == old(self).reachable@,
                self.statistics == (Statistics { register_ops: (old(self).statistics.register_ops + n) as usize, ..old(self).statistics }),
                old(self).statistics.register_ops + ops@.len() <= usize::MAX,
            decreases ops@.len() - n,
        {
            let ghost m = machine(ops@, vars@, output_count as nat, n as nat);
            proof {
                lemma_machine_lengths(ops@, vars@, output_count as nat, n as nat);
                assert(step_ok(m, ops@[n as int], vars@));
                assert(machine(ops@, vars@, output_count as nat, (n + 1) as nat) == execute(m, ops@[n as int], vars@));
            }
            self.statistics.register_ops = self.statistics.register_ops + 1;
            run_instruction(
                &mut self.graph,
                ops[n],
                vars,
                &mut registers,
                &mut spills,
                &mut outputs,
                Ghost(m),
            );
            n = n + 1;
        }
        let ghost nodes = self.graph.spec_nodes();
        let ghost last = machine(ops@, vars@, output_count as nat, ops@.len());
        proof {
            lemma_machine_lengths(ops@, vars@, output_count as nat, ops@.len());
            assert forall|i: int| 0 <= i < outputs@.len() implies #[trigger] outputs@[i] < nodes.len() by {
                assert(last.2[i] is Some);
            }
        }
        let found = reach(&self.graph, &outputs);
        let ghost region = found@;
        let ghost known = self.reachable@;
        self.statistics.outputs = self.statistics.outputs + outputs.len();
        self.statistics.nodes_per_program = self.statistics.nodes_per_program + found.len();
        if insert_expression(&mut self.expressions, &outputs) {
            self.statistics.nodes_per_distinct_expression = self.statistics.nodes_per_distinct_expression
                + found.len();
        }
        let ghost counted = self.statistics;
        let ghost exprs = self.expressions@;
        let ghost keys = vstd::std_specs::hash::spec_hash_keys_iter(&found).remaining().unref();
        proof {
            broadcast use vstd::std_specs::hash::axiom_spec_hash_keys_iter;
            assert(keys.to_set() == region);
            assert(keys.take(0) =~= Seq::<Id>::empty());
            assert(known + keys.take(0).to_set() =~= known);
            assert forall|k: int| 0 <= k < 4 implies #[trigger] self.statistics.unique_by_kind@[k]
                == counted.unique_by_kind@[k] + count_new(nodes, keys.take(0), known, k) by {}
        }
        for id in it: found.iter()
            invariant
                it.seq().unref() == keys,
                0 <= it.index() <= keys.len(),
                keys.no_duplicates(),
                keys.to_set() == region,
                region.len() <= nodes.len(),
                forall|x: Id| #[trigger] region.contains(x) ==> x < nodes.len(),
                forall|x: Id| #[trigger] known.contains(x) ==> x < nodes.len(),
                self.graph.spec_nodes() == nodes,
                self.graph.well_formed(),
                self.graph.base is None,
                acyclic(nodes),
                self.programs@ == old(self).programs@,
                self.expressions@ == exprs,
                self.reachable@ == known + keys.take(it.index() as int).to_set(),
                self.statistics == (Statistics { unique_by_kind: self.statistics.unique_by_kind, ..counted }),
                forall|k: int| 0 <= k < 4 ==> #[trigger] self.statistics.unique_by_kind@[k]
                    == counted.unique_by_kind@[k] + count_new(nodes, keys.take(it.index() as int), known, k),
                forall|k: int| 0 <= k < 4 ==> #[trigger] counted.unique_by_kind@[k] + nodes.len() <= usize::MAX,
        {
            let ghost i = it.index() as int;
            proof {
                assert(*id == keys[i]);
                assert(keys.take(i + 1).drop_last() =~= keys.take(i));
                assert(keys.take(i + 1).last() == keys[i]);
                assert(region.contains(keys[i]));
                assert(!keys.take(i).to_set().contains(keys[i])) by {
                    if keys.take(i).contains(keys[i]) {
                        let j = choose|j: int| 0 <= j < i && #[trigger] keys.take(i)[j] == keys[i];
                        assert(keys[j] == keys[i]);
                    }
                }
                assert(keys.take(i + 1).to_set() =~= keys.take(i).to_set().insert(keys[i])) by {
                    assert forall|x: Id| keys.take(i + 1).to_set().contains(x) implies keys.take(i).to_set().insert(
                        keys[i],
                    ).contains(x) by {
                        let j = choose|j: int| 0 <= j < i + 1 && #[trigger] keys.take(i + 1)[j] == x;
                        if j < i {
                            assert(keys.take(i)[j] == x);
                        }
                    }
                    assert forall|x: Id| keys.take(i).to_set().insert(keys[i]).contains(x) implies keys.take(
                        i + 1,
                    ).to_set().contains(x) by {
                        if x == keys[i] {
                            assert(keys.take(i + 1)[i] == x);
                        } else {
                            let j = choose|j: int| 0 <= j < i && #[trigger] keys.take(i)[j] == x;
                            assert(keys.take(i + 1)[j] == x);
                        }
                    }
                }
                assert forall|k: int| 0 <= k < 4 implies count_new(nodes, keys.take(i), known, k) < nodes.len() + 1
                    && count_new(nodes, keys.take(i), known, k) <= i by {
                    lemma_count_new_bound(nodes, keys.take(i), known, k);
                }
                assert(i < keys.len());
                keys.unique_seq_to_set();
            }
            if self.reachable.insert(*id) {
                let k: usize = match self.graph.get(*id) {
                    Node::Input(..) => 0,
                    Node::Constant(..) => 1,
                    Node::Unary(..) => 2,
                    Node::Binary(..) => 3,
                };
                let was = self.statistics.unique_by_kind[k];
                self.statistics.unique_by_kind[k] = was + 1;
            }
            proof {
                assert(self.reachable@ =~= known + keys.take(i + 1).to_set());
            }
        }
        proof {
            assert(keys.take(keys.len() as int) =~= keys);
            assert forall|k: int| 0 <= k < 4 implies #[trigger] self.statistics.unique_by_kind@[k]
                == counted.unique_by_kind@[k] + new_of_kind(nodes, region, known, k).len() by {
                lemma_count_new(nodes, keys, known, k);
            }
            assert forall|x: Id| #[trigger] self.reachable@.contains(x) implies x < nodes.len() by {
                if !known.contains(x) {
                    assert(region.contains(x));
                }
            }
        }
        outputs
    }

    /// Whether `observe` may take a program: one already observed always;
    /// a new one when it runs and the census can count and hold it.
    pub fn can_observe(&self, identity: usize, ops: &Vec<RegOp>, vars: &Vec<u64>, output_count: usize) -> (r: bool)
        requires
            self.well_formed(),
        ensures
            r == (self.programs@.contains(identity) || {
                &&& self.statistics.programs < usize::MAX
                &&& runnable(ops@, vars@, output_count as nat)
                &&& self.graph.spec_nodes().len() + 2 * ops@.len() + 2 < u32::MAX
                &&& room(
                    self.statistics,
                    ops@.len(),
                    output_count as nat,
                    (self.graph.spec_nodes().len() + 2 * ops@.len()) as nat,
                )
            }),
    {
        if self.programs.contains(&identity) {
            return true;
        }
        let statistics = &self.statistics;
        let nodes: u128 = self.graph.nodes.len() as u128 + 2 * (ops.len() as u128);
        let max = usize::MAX as u128;
        let fits = statistics.programs < usize::MAX
            && nodes + 2 < u32::MAX as u128
            && statistics.register_ops as u128 + ops.len() as u128 <= max
            && statistics.outputs as u128 + output_count as u128 <= max
            && statistics.nodes_per_program as u128 + nodes <= max
            && statistics.nodes_per_distinct_expression as u128 + nodes <= max
            && statistics.unique_by_kind[0] as u128 + nodes <= max
            && statistics.unique_by_kind[1] as u128 + nodes <= max
            && statistics.unique_by_kind[2] as u128 + nodes <= max
            && statistics.unique_by_kind[3] as u128 + nodes <= max;
        proof {
            if fits {
                assert forall|k: int| 0 <= k < 4 implies #[trigger] statistics.unique_by_kind@[k] + nodes <= usize::MAX by {
                    assert(k == 0 || k == 1 || k == 2 || k == 3);
                }
            }
        }
        fits && runs(ops, vars, output_count)
    }

    /// Counts a program once, by its identity: an identity seen before
    /// changes nothing; a new one is counted and its program reconstructed.
    pub fn observe(&mut self, identity: usize, ops: &Vec<RegOp>, vars: &Vec<u64>, output_count: usize)
        requires
            old(self).well_formed(),
            !old(self).programs@.contains(identity) ==> {
                &&& old(self).statistics.programs < usize::MAX
                &&& runnable(ops@, vars@, output_count as nat)
                &&& old(self).graph.spec_nodes().len() + 2 * ops@.len() + 2 < u32::MAX
                &&& room(
                    old(self).statistics,
                    ops@.len(),
                    output_count as nat,
                    (old(self).graph.spec_nodes().len() + 2 * ops@.len()) as nat,
                )
            },
        ensures
            final(self).well_formed(),
            old(self).programs@.contains(identity) ==> {
                &&& final(self).programs@ == old(self).programs@
                &&& final(self).graph == old(self).graph
                &&& final(self).expressions@ == old(self).expressions@
                &&& final(self).reachable@ == old(self).reachable@
                &&& final(self).statistics == old(self).statistics
            },
            !old(self).programs@.contains(identity) ==> exists|r: Seq<Id>|
                #[trigger] recorded(
                    counted(*old(self), final(self).programs),
                    *final(self),
                    ops@,
                    vars@,
                    output_count as nat,
                    r,
                ),
            !old(self).programs@.contains(identity) ==> final(self).programs@ == old(
                self,
            ).programs@.insert(identity),
    {
        if !self.programs.insert(identity) {
            return;
        }
        self.statistics.programs = self.statistics.programs + 1;
        let r = self.reconstruct(ops, vars, output_count);
        proof {
            assert(recorded(counted(*old(self), self.programs), *self, ops@, vars@, output_count as nat, r@));
        }
    }

    /// The counts, with the number of distinct output combinations and of
    /// nodes that some program reached.
    pub fn statistics(&self) -> (r: Statistics)
        ensures
            r == (Statistics {
                distinct_expressions: self.expressions@.len() as usize,
                unique_nodes: self.reachable@.len() as usize,
                ..self.statistics
            }),
    {
        Statistics {
            distinct_expressions: self.expressions.len(),
            unique_nodes: self.reachable.len(),
            ..self.statistics
        }
    }
}

} // verus!
