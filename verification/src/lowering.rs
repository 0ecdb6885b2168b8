//! Lowering a persistent expression graph to a straight-line tape, and
//! reading a tape back into a graph. Lowering emits each node reachable
//! from the root once, after its operands, in depth-first order, so that a
//! node's operands are computed next to it.
use crate::dag::{
    acyclic, lemma_unfold_extended, spec_intern, unfold, BinaryOpcode, Expr, Graph, Id, Node,
    UnaryOpcode,
};
use crate::traversal::{
    lemma_distinct_below, lemma_index_of_unique, lemma_pow3, lemma_run_pending, lemma_to_set_add,
    lemma_visit, lemma_visit_all, lemma_visit_closed, lemma_weight_push, ordered, pending, pow3, run,
    visit, visit_all, weight, Workspace,
};
use vstd::prelude::*;

verus! {

/// Whether `id` names a constant node.
pub open spec fn is_constant(nodes: Seq<Node>, id: Id) -> bool {
    id < nodes.len() && nodes[id as int] is Constant
}

/// The operands that lowering visits: a binary node whose right operand is
/// a constant takes that constant as an immediate, so only its left operand
/// is visited.
pub open spec fn operands(nodes: Seq<Node>, node: Node) -> Seq<Id> {
    match node {
        Node::Binary(_, a, b) => if is_constant(nodes, b) {
            seq![a]
        } else {
            seq![a, b]
        },
        _ => node.spec_children(),
    }
}

/// The operands of each node, as the edges that lowering traverses.
pub open spec fn lowering_kids(nodes: Seq<Node>) -> spec_fn(Id) -> Seq<Id> {
    |id: Id| operands(nodes, nodes[id as int])
}

/// The order in which lowering emits the nodes reachable from `root`.
pub open spec fn lowering_order(nodes: Seq<Node>, root: Id) -> Seq<Id> {
    visit(lowering_kids(nodes), nodes.len(), root, Set::empty())
}

pub proof fn lemma_lowering_ordered(nodes: Seq<Node>)
    requires
        acyclic(nodes),
    ensures
        ordered(lowering_kids(nodes), nodes.len()),
{
    assert forall|i: Id, j: int|
        i < nodes.len() && 0 <= j < lowering_kids(nodes)(i).len() implies #[trigger] lowering_kids(
        nodes,
    )(i)[j] < i by {
        lemma_operands_below(nodes, i);
        assert(lowering_kids(nodes)(i) == operands(nodes, nodes[i as int]));
    }
}

pub proof fn lemma_operands_below(nodes: Seq<Node>, id: Id)
    requires
        acyclic(nodes),
        id < nodes.len(),
    ensures
        operands(nodes, nodes[id as int]).len() <= 2,
        forall|k: int|
            0 <= k < operands(nodes, nodes[id as int]).len() ==> #[trigger] operands(
                nodes,
                nodes[id as int],
            )[k] < id,
{
    let node = nodes[id as int];
    let children = node.spec_children();
    assert forall|k: int| 0 <= k < children.len() implies #[trigger] children[k] < id by {
        assert(nodes[id as int].spec_children()[k] < id);
    }
}

/// One instruction of a straight-line tape. Each writes the register named
/// first, except `Output`, which names the register that holds the result.
/// A binary operation takes both operands from registers, or one of them as
/// the bits of a constant: `BinaryImm` on the right, `ImmBinary` on the left.
#[derive(Clone, Copy, Debug, PartialEq, Eq, Structural)]
pub enum Op {
    Input(u32, u32),
    Constant(u32, u32),
    Unary(UnaryOpcode, u32, u32),
    Binary(BinaryOpcode, u32, u32, u32),
    BinaryImm(BinaryOpcode, u32, u32, u32),
    ImmBinary(BinaryOpcode, u32, u32, u32),
    Copy(u32, u32),
    Output(u32),
}

/// A tape in reverse evaluation order (its output instruction first),
/// with the number of its instructions that choose between operands.
pub struct Tape {
    pub ops: Vec<Op>,
    pub choice_count: usize,
}

/// What links a lowered tape to its graph: the root, and the choosing
/// nodes in the order in which the tape evaluates them.
pub struct Compiled {
    pub root: Id,
    pub choices: Vec<Id>,
}

/// The variables that the input nodes among `order` read, each once, in
/// order of first use; a variable's slot is its position here.
pub open spec fn input_vars(nodes: Seq<Node>, order: Seq<Id>) -> Seq<u64>
    decreases order.len(),
{
    if order.len() == 0 {
        Seq::empty()
    } else {
        let before = input_vars(nodes, order.drop_last());
        match nodes[order.last() as int] {
            Node::Input(var) => if before.contains(var) {
                before
            } else {
                before.push(var)
            },
            _ => before,
        }
    }
}

/// The choosing nodes among `order`, in order.
pub open spec fn choices(nodes: Seq<Node>, order: Seq<Id>) -> Seq<Id>
    decreases order.len(),
{
    if order.len() == 0 {
        Seq::empty()
    } else {
        let before = choices(nodes, order.drop_last());
        if nodes[order.last() as int].spec_choice() {
            before.push(order.last())
        } else {
            before
        }
    }
}

/// The instruction that computes the `k`-th node of `order` into register
/// `k`, reading each operand from the register of its position in `order`.
pub open spec fn spec_op(nodes: Seq<Node>, order: Seq<Id>, vars: Seq<u64>, k: int) -> Op {
    let out = k as u32;
    match nodes[order[k] as int] {
        Node::Input(var) => Op::Input(out, vars.index_of(var) as u32),
        Node::Constant(bits) => Op::Constant(out, bits),
        Node::Unary(op, a) => Op::Unary(op, out, order.index_of(a) as u32),
        Node::Binary(op, a, b) => match nodes[b as int] {
            Node::Constant(bits) => Op::BinaryImm(op, out, order.index_of(a) as u32, bits),
            _ => Op::Binary(op, out, order.index_of(a) as u32, order.index_of(b) as u32),
        },
    }
}

/// The tape of `order`: its output instruction, reading the register of the
/// last node, then the instructions of its nodes from last to first.
pub open spec fn spec_tape(nodes: Seq<Node>, order: Seq<Id>, vars: Seq<u64>) -> Seq<Op> {
    Seq::new(
        order.len() + 1,
        |j: int|
            if j == 0 {
                Op::Output((order.len() - 1) as u32)
            } else {
                spec_op(nodes, order, vars, order.len() - j)
            },
    )
}

proof fn lemma_input_vars(nodes: Seq<Node>, order: Seq<Id>, m: int)
    requires
        0 <= m <= order.len(),
    ensures
        input_vars(nodes, order).no_duplicates(),
        input_vars(nodes, order).len() <= order.len(),
        input_vars(nodes, order.take(m)).len() <= input_vars(nodes, order).len(),
        forall|i: int|
            0 <= i < input_vars(nodes, order.take(m)).len() ==> #[trigger] input_vars(
                nodes,
                order.take(m),
            )[i] == input_vars(nodes, order)[i],
    decreases order.len(),
{
    if order.len() > 0 {
        let shorter = order.drop_last();
        if m == order.len() {
            assert(order.take(m) =~= order);
            lemma_input_vars(nodes, shorter, m - 1);
        } else {
            assert(order.take(m) =~= shorter.take(m));
            lemma_input_vars(nodes, shorter, m);
        }
        let before = input_vars(nodes, shorter);
        let after = input_vars(nodes, order);
        if after != before {
            let var = nodes[order.last() as int]->Input_0;
            assert(after == before.push(var));
            assert forall|i: int, j: int| 0 <= i < after.len() && 0 <= j < after.len() && i != j implies after[i]
                != after[j] by {
                if i < before.len() && j < before.len() {
                    assert(after[i] == before[i] && after[j] == before[j]);
                } else if i < before.len() {
                    assert(after[i] == before[i]);
                } else {
                    assert(after[j] == before[j]);
                }
            }
        }
    }
}

/// The position of `var` in `vars`, adding it at the end when absent.
fn slot(vars: &mut Vec<u64>, var: u64) -> (r: u32)
    requires
        old(vars)@.no_duplicates(),
        old(vars)@.len() < u32::MAX,
    ensures
        final(vars)@ == if old(vars)@.contains(var) {
            old(vars)@
        } else {
            old(vars)@.push(var)
        },
        r < final(vars)@.len(),
        final(vars)@[r as int] == var,
{
    let mut i: usize = 0;
    while i < vars.len()
        invariant
            i <= vars@.len(),
            vars@ == old(vars)@,
            vars@.len() < u32::MAX,
            forall|j: int| 0 <= j < i ==> vars@[j] != var,
        decreases vars@.len() - i,
    {
        if vars[i] == var {
            return i as u32;
        }
        i = i + 1;
    }
    vars.push(var);
    i as u32
}



/// What reading a tape has built so far: the graph's nodes, the node that
/// each register holds (`Id::MAX` while it holds none), and the output read
/// last.
pub type Reading = (Seq<Node>, Seq<Id>, Option<Id>);

/// Reads one instruction: interns the node it spells, taking operands from
/// the registers and immediates as interned constants, and records the
/// node's id in the register it writes.
pub open spec fn read_op(state: Reading, op: Op, vars: Seq<u64>) -> Reading {
    let (nodes, slots, root) = state;
    match op {
        Op::Output(a) => (nodes, slots, Some(slots[a as int])),
        Op::Copy(out, a) => (nodes, slots.update(out as int, slots[a as int]), root),
        Op::Input(out, slot) => {
            let (after, id) = spec_intern(nodes, Node::Input(vars[slot as int]));
            (after, slots.update(out as int, id), root)
        },
        Op::Constant(out, bits) => {
            let (after, id) = spec_intern(nodes, Node::Constant(bits));
            (after, slots.update(out as int, id), root)
        },
        Op::Unary(op, out, a) => {
            let (after, id) = spec_intern(nodes, Node::Unary(op, slots[a as int]));
            (after, slots.update(out as int, id), root)
        },
        Op::Binary(op, out, a, b) => {
            let (after, id) = spec_intern(nodes, Node::Binary(op, slots[a as int], slots[b as int]));
            (after, slots.update(out as int, id), root)
        },
        Op::BinaryImm(op, out, a, bits) => {
            let (with_constant, c) = spec_intern(nodes, Node::Constant(bits));
            let (after, id) = spec_intern(with_constant, Node::Binary(op, slots[a as int], c));
            (after, slots.update(out as int, id), root)
        },
        Op::ImmBinary(op, out, a, bits) => {
            let (with_constant, c) = spec_intern(nodes, Node::Constant(bits));
            let (after, id) = spec_intern(with_constant, Node::Binary(op, c, slots[a as int]));
            (after, slots.update(out as int, id), root)
        },
    }
}

/// Interning a node whose children are nodes of an acyclic graph keeps the
/// old nodes, gives an id that holds the node, and keeps the graph acyclic.
proof fn lemma_spec_intern(nodes: Seq<Node>, node: Node)
    requires
        acyclic(nodes),
        nodes.len() < u32::MAX,
        forall|j: int|
            0 <= j < node.spec_children().len() ==> #[trigger] node.spec_children()[j] < nodes.len(),
    ensures
        nodes.is_prefix_of(spec_intern(nodes, node).0),
        spec_intern(nodes, node).1 < spec_intern(nodes, node).0.len(),
        spec_intern(nodes, node).0[spec_intern(nodes, node).1 as int] == node,
        spec_intern(nodes, node).0.len() <= nodes.len() + 1,
        acyclic(spec_intern(nodes, node).0),
{
    let (after, id) = spec_intern(nodes, node);
    if nodes.contains(node) {
        let i = nodes.index_of(node);
        assert(0 <= i < nodes.len() && nodes[i] == node);
        assert(after =~= nodes);
    } else {
        assert forall|i: int, j: int|
            0 <= i < after.len() && 0 <= j < after[i].spec_children().len() implies #[trigger] after[i].spec_children()[j]
            < i by {
            if i < nodes.len() {
                assert(after[i] == nodes[i]);
            }
        }
    }
}

/// The expression of a binary node interned over an acyclic graph: the
/// operation applied to the expressions of its operands.
proof fn lemma_unfold_interned_binary(nodes: Seq<Node>, op: BinaryOpcode, a: Id, b: Id)
    requires
        acyclic(nodes),
        nodes.len() < u32::MAX,
        a < nodes.len(),
        b < nodes.len(),
    ensures
        unfold(spec_intern(nodes, Node::Binary(op, a, b)).0, spec_intern(nodes, Node::Binary(op, a, b)).1)
            == Expr::Binary(op, Box::new(unfold(nodes, a)), Box::new(unfold(nodes, b))),
{
    let node = Node::Binary(op, a, b);
    lemma_spec_intern(nodes, node);
    let (after, id) = spec_intern(nodes, node);
    assert(node.spec_children()[0] == a && node.spec_children()[1] == b);
    assert(after[id as int].spec_children()[0] < id);
    assert(after[id as int].spec_children()[1] < id);
    lemma_unfold_extended(nodes, after, a);
    lemma_unfold_extended(nodes, after, b);
}

/// The register an instruction writes, if it writes one.
pub open spec fn target(op: Op) -> Option<u32> {
    match op {
        Op::Output(_) => None,
        Op::Copy(out, _) | Op::Input(out, _) | Op::Constant(out, _) | Op::Unary(_, out, _)
        | Op::Binary(_, out, _, _) | Op::BinaryImm(_, out, _, _) | Op::ImmBinary(_, out, _, _) => Some(out),
    }
}

/// The expression of register `r` in a reading state.
pub open spec fn register_expr(state: Reading, r: u32) -> Expr {
    unfold(state.0, state.1[r as int])
}

/// Every written register of a reading state holds a node of its graph.
pub open spec fn registers_hold_nodes(state: Reading) -> bool {
    forall|r: int|
        0 <= r < state.1.len() && state.1[r] != u32::MAX ==> #[trigger] state.1[r] < state.0.len()
}

/// Reading one well-formed instruction writes to its register the
/// expression the instruction spells, over the expressions of the registers
/// it reads: an input's variable, a constant, a copy of a register, or the
/// operation applied to its operands, an immediate constant standing on
/// the right for `BinaryImm` and on the left for `ImmBinary`. An output
/// names its register as the root. Every other register keeps its
/// expression, the graph only grows, and stays acyclic.
#[verifier::rlimit(50)]
pub proof fn lemma_read_instruction(state: Reading, op: Op, vars: Seq<u64>)
    requires
        acyclic(state.0),
        state.0.len() + 2 < u32::MAX,
        state.1.len() <= u32::MAX,
        registers_hold_nodes(state),
        op_ok(state.1, op, vars),
    ensures
        ({
            let next = read_op(state, op, vars);
            &&& acyclic(next.0)
            &&& state.0.is_prefix_of(next.0)
            &&& next.0.len() <= state.0.len() + 2
            &&& next.1.len() == state.1.len()
            &&& registers_hold_nodes(next)
            &&& forall|r: int|
                0 <= r < state.1.len() && state.1[r] != u32::MAX && target(op) != Some(r as u32)
                    ==> #[trigger] next.1[r] == state.1[r] && register_expr(next, r as u32)
                    == register_expr(state, r as u32)
            &&& match op {
                Op::Output(a) => next.2 == Some(state.1[a as int]) && next.0 == state.0,
                Op::Copy(out, a) => register_expr(next, out) == register_expr(state, a),
                Op::Input(out, slot) => register_expr(next, out) == Expr::Input(vars[slot as int]),
                Op::Constant(out, bits) => register_expr(next, out) == Expr::Constant(bits),
                Op::Unary(o, out, a) => register_expr(next, out) == Expr::Unary(
                    o,
                    Box::new(register_expr(state, a)),
                ),
                Op::Binary(o, out, a, b) => register_expr(next, out) == Expr::Binary(
                    o,
                    Box::new(register_expr(state, a)),
                    Box::new(register_expr(state, b)),
                ),
                Op::BinaryImm(o, out, a, bits) => register_expr(next, out) == Expr::Binary(
                    o,
                    Box::new(register_expr(state, a)),
                    Box::new(Expr::Constant(bits)),
                ),
                Op::ImmBinary(o, out, a, bits) => register_expr(next, out) == Expr::Binary(
                    o,
                    Box::new(Expr::Constant(bits)),
                    Box::new(register_expr(state, a)),
                ),
            }
        }),
{
    let (nodes, slots, root) = state;
    let next = read_op(state, op, vars);
    match op {
        Op::Output(_) => {},
        Op::Copy(_, _) => {},
        Op::Input(_, slot) => {
            lemma_spec_intern(nodes, Node::Input(vars[slot as int]));
        },
        Op::Constant(_, bits) => {
            lemma_spec_intern(nodes, Node::Constant(bits));
        },
        Op::Unary(o, _, a) => {
            let node = Node::Unary(o, slots[a as int]);
            assert(node.spec_children()[0] == slots[a as int]);
            lemma_spec_intern(nodes, node);
            let (after, id) = spec_intern(nodes, node);
            assert(after[id as int].spec_children()[0] < id);
            lemma_unfold_extended(nodes, after, slots[a as int]);
        },
        Op::Binary(o, _, a, b) => {
            let node = Node::Binary(o, slots[a as int], slots[b as int]);
            assert(node.spec_children()[0] == slots[a as int]);
            assert(node.spec_children()[1] == slots[b as int]);
            lemma_spec_intern(nodes, node);
            lemma_unfold_interned_binary(nodes, o, slots[a as int], slots[b as int]);
        },
        Op::BinaryImm(o, _, a, bits) | Op::ImmBinary(o, _, a, bits) => {
            let constant = Node::Constant(bits);
            lemma_spec_intern(nodes, constant);
            let (with_constant, c) = spec_intern(nodes, constant);
            assert(unfold(with_constant, c) == Expr::Constant(bits));
            lemma_unfold_extended(nodes, with_constant, slots[a as int]);
            let node = if op is BinaryImm {
                Node::Binary(o, slots[a as int], c)
            } else {
                Node::Binary(o, c, slots[a as int])
            };
            assert(node.spec_children()[0] < with_constant.len());
            assert(node.spec_children()[1] < with_constant.len());
            lemma_spec_intern(with_constant, node);
            if op is BinaryImm {
                lemma_unfold_interned_binary(with_constant, o, slots[a as int], c);
            } else {
                lemma_unfold_interned_binary(with_constant, o, c, slots[a as int]);
            }
        },
    }
    assert forall|r: int|
        0 <= r < state.1.len() && state.1[r] != u32::MAX && target(op) != Some(r as u32) implies #[trigger] next.1[r]
        == state.1[r] && register_expr(next, r as u32) == register_expr(state, r as u32) by {
        lemma_unfold_extended(nodes, next.0, slots[r]);
    }
}

/// The state after reading the last `n` instructions of a tape, last first,
/// into a graph holding `nodes`: one register per instruction, none set.
pub open spec fn read_tape(nodes: Seq<Node>, tape: Seq<Op>, vars: Seq<u64>, n: nat) -> Reading
    decreases n,
{
    if n == 0 {
        (nodes, Seq::new(tape.len(), |i: int| u32::MAX), None)
    } else {
        read_op(read_tape(nodes, tape, vars, (n - 1) as nat), tape[tape.len() - n], vars)
    }
}

/// Whether register `r` exists and has been written.
pub open spec fn written(slots: Seq<Id>, r: u32) -> bool {
    r < slots.len() && slots[r as int] != u32::MAX
}

/// Whether an instruction reads only written registers and writes an
/// existing one, and an input instruction names an existing variable.
pub open spec fn op_ok(slots: Seq<Id>, op: Op, vars: Seq<u64>) -> bool {
    match op {
        Op::Output(a) => written(slots, a),
        Op::Copy(out, a) => out < slots.len() && written(slots, a),
        Op::Input(out, slot) => out < slots.len() && slot < vars.len(),
        Op::Constant(out, _) => out < slots.len(),
        Op::Unary(_, out, a) => out < slots.len() && written(slots, a),
        Op::Binary(_, out, a, b) => out < slots.len() && written(slots, a) && written(slots, b),
        Op::BinaryImm(_, out, a, _) => out < slots.len() && written(slots, a),
        Op::ImmBinary(_, out, a, _) => out < slots.len() && written(slots, a),
    }
}

/// Whether a tape can be read into a graph holding `nodes`: each
/// instruction is well formed when it is read, and some instruction is an
/// output.
pub open spec fn readable(nodes: Seq<Node>, tape: Seq<Op>, vars: Seq<u64>) -> bool {
    &&& forall|n: nat|
        n < tape.len() ==> op_ok(
            #[trigger] read_tape(nodes, tape, vars, n).1,
            tape[tape.len() - 1 - n],
            vars,
        )
    &&& read_tape(nodes, tape, vars, tape.len()).2 is Some
}

impl Graph {
    /// Emits into `scratch.order` the nodes reachable from `root`, each once
    /// and after its operands, and records in `scratch.values` the position
    /// at which each of them was emitted.
    fn traverse(&self, root: Id, scratch: &mut Workspace)
        requires
            self.well_formed(),
            acyclic(self.spec_nodes()),
            root < self.spec_nodes().len(),
            old(scratch).well_formed(),
        ensures
            final(scratch).well_formed(),
            final(scratch).seen@.len() >= self.spec_nodes().len(),
            final(scratch).order@ == lowering_order(self.spec_nodes(), root),
            forall|k: int|
                0 <= k < final(scratch).order@.len() ==> #[trigger] final(scratch).values@[
                    final(scratch).order@[k] as int
                ] == k,
    {
        let ghost nodes = self.spec_nodes();
        let ghost target = lowering_order(nodes, root);
        let size = self.offset + self.nodes.len();
        scratch.begin(size);
        scratch.todo.push((root, false));
        proof {
            lemma_lowering_ordered(nodes);
            lemma_visit(lowering_kids(nodes), nodes.len(), root, Set::empty());
            let empty = Seq::<(Id, bool)>::empty();
            let none = Set::<Id>::empty();
            assert(scratch.todo@.drop_last() =~= empty);
            assert(scratch.todo@.last() == (root, false));
            assert(scratch.order@ =~= Seq::<Id>::empty());
            assert(scratch.order@.to_set() =~= none);
            assert(run(lowering_kids(nodes), nodes.len(), empty, none + target.to_set()) == Seq::<Id>::empty());
            assert(run(lowering_kids(nodes), nodes.len(), scratch.todo@, none) == target + run(lowering_kids(nodes), nodes.len(), empty, none + target.to_set()));
            assert(scratch.order@ + run(lowering_kids(nodes), nodes.len(), scratch.todo@, scratch.order@.to_set()) =~= target);
        }
        while scratch.todo.len() > 0
            invariant
                self.well_formed(),
                acyclic(nodes),
                ordered(lowering_kids(nodes), nodes.len()),
                nodes == self.spec_nodes(),
                size == nodes.len(),
                size <= u32::MAX,
                target == lowering_order(nodes, root),
                scratch.well_formed(),
                scratch.epoch > 0,
                scratch.seen@.len() >= size,
                forall|i: int|
                    0 <= i < scratch.seen@.len() ==> ((#[trigger] scratch.seen@[i] == scratch.epoch)
                        <==> (i < size && scratch.order@.contains(i as Id))),
                scratch.order@.no_duplicates(),
                forall|k: int|
                    0 <= k < scratch.order@.len() ==> #[trigger] scratch.order@[k] < size
                        && scratch.values@[scratch.order@[k] as int] == k,
                forall|k: int| 0 <= k < scratch.todo@.len() ==> #[trigger] scratch.todo@[k].0 < size,
                scratch.order@ + run(lowering_kids(nodes), nodes.len(), scratch.todo@, scratch.order@.to_set()) == target,
            decreases weight(scratch.todo@),
        {
            let ghost before = scratch.todo@;
            let ghost done = scratch.order@.to_set();
            let (id, ready) = scratch.todo.pop().unwrap();
            let ghost rest = scratch.todo@;
            proof {
                assert(before =~= rest.push((id, ready)));
                assert(before.last() == (id, ready));
                assert(before.drop_last() =~= rest);
                lemma_weight_push(rest, (id, ready));
                lemma_pow3(0, id as nat + 1);
                assert(id < size);
                assert forall|k: int| 0 <= k < rest.len() implies #[trigger] rest[k].0 < size by {
                    assert(rest[k] == before[k]);
                }
            }
            if scratch.seen[id as usize] == scratch.epoch {
                proof {
                    assert(scratch.order@.contains(id));
                    let i = choose|i: int| 0 <= i < scratch.order@.len() && scratch.order@[i] == id;
                    assert(done.contains(id));
                    let empty = Seq::<Id>::empty();
                    assert(done + empty.to_set() =~= done);
                    assert(run(lowering_kids(nodes), nodes.len(), before, done) == empty + run(lowering_kids(nodes), nodes.len(), rest, done + empty.to_set()));
                    assert(run(lowering_kids(nodes), nodes.len(), before, done) =~= run(lowering_kids(nodes), nodes.len(), rest, done));
                }
            } else if !ready {
                proof {
                    if done.contains(id) {
                        let i = choose|i: int| 0 <= i < scratch.order@.len() && scratch.order@[i] == id;
                        assert(scratch.seen@[id as int] == scratch.epoch);
                    }
                    lemma_operands_below(nodes, id);
                    lemma_pow3(0, id as nat);
                    assert(pow3(id as nat + 1) == 3 * pow3(id as nat));
                    lemma_weight_push(rest, (id, true));
                }
                scratch.todo.push((id, true));
                let ghost marked = scratch.todo@;
                let node = self.get(id);
                let ghost ops = operands(nodes, node);
                match node {
                    Node::Unary(_, a) => {
                        proof {
                            assert(node.spec_children() =~= seq![a]);
                            assert(ops[0] == a);
                            lemma_pow3(a as nat + 1, id as nat);
                            lemma_weight_push(marked, (a, false));
                        }
                        scratch.todo.push((a, false));
                    },
                    Node::Binary(_, a, b) => {
                        proof {
                            assert(node.spec_children() =~= seq![a, b]);
                            assert(nodes[id as int].spec_children()[1] < id);
                            assert(ops[0] == a);
                            lemma_pow3(a as nat + 1, id as nat);
                            lemma_pow3(b as nat + 1, id as nat);
                        }
                        match self.get(b) {
                            Node::Constant(_) => {
                                proof {
                                    lemma_weight_push(marked, (a, false));
                                }
                                scratch.todo.push((a, false));
                            },
                            _ => {
                                proof {
                                    assert(ops[1] == b);
                                    lemma_weight_push(marked, (b, false));
                                    lemma_weight_push(marked.push((b, false)), (a, false));
                                }
                                scratch.todo.push((b, false));
                                scratch.todo.push((a, false));
                            },
                        }
                    },
                    _ => {
                        proof {
                            assert(ops.len() == 0);
                        }
                    },
                }
                proof {
                    assert(scratch.todo@ =~= marked + pending(ops));
                    assert forall|k: int| 0 <= k < scratch.todo@.len() implies #[trigger] scratch.todo@[k].0
                        < size by {
                        if k < rest.len() {
                            assert(scratch.todo@[k] == rest[k]);
                        } else if k > rest.len() {
                            assert(scratch.todo@[k] == pending(ops)[k - rest.len() - 1]);
                        }
                    }
                    let va = visit_all(lowering_kids(nodes), nodes.len(), ops, id, done);
                    lemma_visit_all(lowering_kids(nodes), nodes.len(), ops, id, done);
                    lemma_run_pending(lowering_kids(nodes), nodes.len(), marked, ops, id, done);
                    let s1 = done + va.to_set();
                    assert(!va.contains(id)) by {
                        if va.contains(id) {
                            let i = choose|i: int| 0 <= i < va.len() && va[i] == id;
                            assert(va[i] < id);
                        }
                    }
                    assert(!s1.contains(id));
                    assert(marked.drop_last() =~= rest);
                    assert(marked.last() == (id, true));
                    assert(run(lowering_kids(nodes), nodes.len(), marked, s1) == seq![id] + run(lowering_kids(nodes), nodes.len(), rest, s1 + seq![id].to_set()));
                    lemma_to_set_add(va, seq![id]);
                    assert(va.push(id) =~= va + seq![id]);
                    assert(s1 + seq![id].to_set() =~= done + va.push(id).to_set());
                    assert(visit(lowering_kids(nodes), nodes.len(), id, done) == va.push(id));
                    assert(run(lowering_kids(nodes), nodes.len(), before, done) == va.push(id) + run(lowering_kids(nodes), nodes.len(), rest, done + va.push(id).to_set()));
                    assert(run(lowering_kids(nodes), nodes.len(), scratch.todo@, done) =~= run(lowering_kids(nodes), nodes.len(), before, done));
                }
            } else {
                let ghost old_order = scratch.order@;
                proof {
                    if done.contains(id) {
                        let i = choose|i: int| 0 <= i < scratch.order@.len() && scratch.order@[i] == id;
                        assert(scratch.seen@[id as int] == scratch.epoch);
                    }
                    assert(!old_order.contains(id));
                    assert(old_order.push(id).no_duplicates()) by {
                        assert forall|i: int, j: int|
                            0 <= i < old_order.push(id).len() && 0 <= j < old_order.push(id).len() && i
                                != j implies old_order.push(id)[i] != old_order.push(id)[j] by {
                            if i < old_order.len() && j < old_order.len() {
                            } else if i < old_order.len() {
                                assert(old_order[i] != id);
                            } else {
                                assert(old_order[j] != id);
                            }
                        }
                    }
                    assert forall|k: int| 0 <= k < old_order.push(id).len() implies #[trigger] old_order.push(
                        id,
                    )[k] < size by {
                        if k < old_order.len() {
                            assert(old_order.push(id)[k] == old_order[k]);
                        }
                    }
                    lemma_distinct_below(old_order.push(id), size as int);
                }
                scratch.seen.set(id as usize, scratch.epoch);
                scratch.values.set(id as usize, scratch.order.len() as u32);
                scratch.order.push(id);
                proof {
                    let order = scratch.order@;
                    assert(order =~= old_order.push(id));
                    assert forall|i: int| 0 <= i < scratch.seen@.len() implies ((
                    #[trigger] scratch.seen@[i] == scratch.epoch) <==> (i < size && order.contains(
                        i as Id,
                    ))) by {
                        if i == id {
                            assert(order[old_order.len() as int] == id);
                        } else if i < size {
                            if order.contains(i as Id) {
                                let j = choose|j: int| 0 <= j < order.len() && order[j] == i as Id;
                                assert(j < old_order.len());
                                assert(old_order[j] == i as Id);
                            }
                            if i < size && old_order.contains(i as Id) {
                                let j = choose|j: int| 0 <= j < old_order.len() && old_order[j] == i as Id;
                                assert(order[j] == i as Id);
                            }
                        }
                    }
                    assert forall|k: int| 0 <= k < order.len() implies #[trigger] order[k] < size
                        && scratch.values@[order[k] as int] == k by {
                        if k < old_order.len() {
                            assert(order[k] == old_order[k]);
                            assert(old_order[k] != id);
                        }
                    }
                    assert(run(lowering_kids(nodes), nodes.len(), before, done) == seq![id] + run(lowering_kids(nodes), nodes.len(), rest, done + seq![id].to_set()));
                    lemma_to_set_add(old_order, seq![id]);
                    assert(order =~= old_order + seq![id]);
                    assert(order.to_set() == done + seq![id].to_set());
                    assert(order + run(lowering_kids(nodes), nodes.len(), rest, order.to_set()) =~= old_order + run(lowering_kids(nodes), nodes.len(), before, done));
                }
            }
        }
        proof {
            assert(scratch.todo@.len() == 0);
            assert(scratch.order@ + run(lowering_kids(nodes), nodes.len(), scratch.todo@, scratch.order@.to_set()) =~= scratch.order@);
        }
    }

    /// Lowers the expression at `root` to a tape: one instruction for each
    /// node reachable from the root, in the order in which a depth-first
    /// traversal emits them, with the input variables that the tape reads
    /// and the choosing nodes in evaluation order.
    pub fn lower(&self, root: Id, scratch: &mut Workspace) -> (r: (Tape, Vec<u64>, Compiled))
        requires
            self.well_formed(),
            acyclic(self.spec_nodes()),
            root < self.spec_nodes().len(),
            old(scratch).well_formed(),
        ensures
            final(scratch).well_formed(),
            r.1@ == input_vars(self.spec_nodes(), lowering_order(self.spec_nodes(), root)),
            r.0.ops@ == spec_tape(
                self.spec_nodes(),
                lowering_order(self.spec_nodes(), root),
                r.1@,
            ),
            r.0.choice_count == r.2.choices@.len(),
            r.2.root == root,
            r.2.choices@ == choices(self.spec_nodes(), lowering_order(self.spec_nodes(), root)),
    {
        self.traverse(root, scratch);
        let ghost nodes = self.spec_nodes();
        let ghost order = scratch.order@;
        let ghost all_vars = input_vars(nodes, order);
        proof {
            lemma_lowering_ordered(nodes);
            lemma_visit(lowering_kids(nodes), nodes.len(), root, Set::empty());
            lemma_visit_closed(lowering_kids(nodes), nodes.len(), root, Set::empty());
            lemma_input_vars(nodes, order, 0);
            lemma_distinct_below(order, nodes.len() as int);
            assert forall|k: int, j: int|
                0 <= k < order.len() && 0 <= j < operands(nodes, nodes[order[k] as int]).len() implies Set::<
                Id,
            >::empty().contains(#[trigger] operands(nodes, nodes[order[k] as int])[j])
                || order.subrange(0, k).contains(operands(nodes, nodes[order[k] as int])[j]) by {
                assert(lowering_kids(nodes)(order[k])[j] == operands(nodes, nodes[order[k] as int])[j]);
            }
        }
        let mut forward: Vec<Op> = Vec::new();
        let mut vars: Vec<u64> = Vec::new();
        let mut chosen: Vec<Id> = Vec::new();
        let mut choice_count: usize = 0;
        let mut i: usize = 0;
        proof {
            assert(order.take(0) =~= Seq::<Id>::empty());
        }
        while i < scratch.order.len()
            invariant
                self.well_formed(),
                nodes == self.spec_nodes(),
                acyclic(nodes),
                scratch.order@ == order,
                order == lowering_order(nodes, root),
                order.no_duplicates(),
                forall|k: int|
                    0 <= k < order.len() ==> #[trigger] order[k] < nodes.len()
                        && scratch.values@[order[k] as int] == k,
                forall|k: int, j: int|
                    #![trigger operands(nodes, nodes[order[k] as int])[j]]
                    0 <= k < order.len() && 0 <= j < operands(nodes, nodes[order[k] as int]).len()
                        ==> Set::<Id>::empty().contains(operands(nodes, nodes[order[k] as int])[j])
                        || order.subrange(0, k).contains(operands(nodes, nodes[order[k] as int])[j]),
                scratch.values@.len() >= nodes.len(),
                order.len() <= nodes.len(),
                nodes.len() <= u32::MAX,
                i <= order.len(),
                all_vars == input_vars(nodes, order),
                all_vars.no_duplicates(),
                vars@ == input_vars(nodes, order.take(i as int)),
                forward@.len() == i,
                forall|k: int| 0 <= k < i ==> #[trigger] forward@[k] == spec_op(nodes, order, all_vars, k),
                chosen@ == choices(nodes, order.take(i as int)),
                choice_count == chosen@.len(),
                chosen@.len() <= i,
            decreases order.len() - i,
        {
            let id = scratch.order[i];
            let out = i as u32;
            let node = self.get(id);
            let ghost next = order.take(i + 1);
            proof {
                assert(next.drop_last() =~= order.take(i as int));
                assert(next.last() == id);
                lemma_input_vars(nodes, order.take(i as int), 0);
                lemma_input_vars(nodes, order, i + 1);
                lemma_operands_below(nodes, id);
            }
            if node.choice() {
                chosen.push(id);
                choice_count = choice_count + 1;
            }
            let op = match node {
                Node::Input(var) => {
                    let r = slot(&mut vars, var);
                    proof {
                        assert(vars@ == input_vars(nodes, next));
                        assert(all_vars[r as int] == var);
                        lemma_index_of_unique(all_vars, r as int);
                    }
                    Op::Input(out, r)
                },
                Node::Constant(bits) => Op::Constant(out, bits),
                Node::Unary(op, a) => {
                    proof {
                        assert(operands(nodes, nodes[order[i as int] as int])[0] == a);
                        let p = choose|p: int| 0 <= p < i && order.subrange(0, i as int)[p] == a;
                        assert(order[p] == a);
                        lemma_index_of_unique(order, p);
                    }
                    Op::Unary(op, out, scratch.values[a as usize])
                },
                Node::Binary(op, a, b) => {
                    proof {
                        assert(nodes[id as int].spec_children()[1] < id);
                        assert(operands(nodes, nodes[order[i as int] as int])[0] == a);
                        let p = choose|p: int| 0 <= p < i && order.subrange(0, i as int)[p] == a;
                        assert(order[p] == a);
                        lemma_index_of_unique(order, p);
                    }
                    let left = scratch.values[a as usize];
                    match self.get(b) {
                        Node::Constant(bits) => Op::BinaryImm(op, out, left, bits),
                        _ => {
                            proof {
                                assert(operands(nodes, nodes[order[i as int] as int])[1] == b);
                                let p = choose|p: int|
                                    0 <= p < i && order.subrange(0, i as int)[p] == b;
                                assert(order[p] == b);
                                lemma_index_of_unique(order, p);
                            }
                            Op::Binary(op, out, left, scratch.values[b as usize])
                        },
                    }
                },
            };
            forward.push(op);
            i = i + 1;
        }
        proof {
            assert(order.take(order.len() as int) =~= order);
            assert(order[order.len() - 1] == root);
        }
        let mut ops: Vec<Op> = Vec::new();
        ops.push(Op::Output(scratch.values[root as usize]));
        let ghost tape = spec_tape(nodes, order, all_vars);
        let mut j = forward.len();
        while j > 0
            invariant
                j <= forward@.len(),
                forward@.len() == order.len(),
                forall|k: int| 0 <= k < order.len() ==> #[trigger] forward@[k] == spec_op(nodes, order, all_vars, k),
                tape == spec_tape(nodes, order, all_vars),
                ops@.len() == forward@.len() - j + 1,
                forall|t: int| 0 <= t < ops@.len() ==> #[trigger] ops@[t] == tape[t],
            decreases j,
        {
            j = j - 1;
            ops.push(forward[j]);
        }
        proof {
            assert(ops@ =~= tape);
        }
        (Tape { ops, choice_count }, vars, Compiled { root, choices: chosen })
    }


    /// The node that a register holds.
    fn register(slots: &Vec<Id>, r: u32) -> (id: Id)
        requires
            written(slots@, r),
        ensures
            id == slots@[r as int],
    {
        slots[r as usize]
    }

    /// Reads a tape back into the graph, last instruction first, interning
    /// the node that each instruction spells, and gives the id of the node
    /// that its output instruction names.
    pub fn import(&mut self, tape: &Tape, vars: &Vec<u64>) -> (r: Id)
        requires
            old(self).well_formed(),
            readable(old(self).spec_nodes(), tape.ops@, vars@),
            old(self).spec_nodes().len() + 2 * tape.ops@.len() < u32::MAX,
        ensures
            final(self).well_formed(),
            final(self).base == old(self).base,
            final(self).spec_nodes() == read_tape(
                old(self).spec_nodes(),
                tape.ops@,
                vars@,
                tape.ops@.len(),
            ).0,
            Some(r) == read_tape(old(self).spec_nodes(), tape.ops@, vars@, tape.ops@.len()).2,
            acyclic(old(self).spec_nodes()) ==> acyclic(final(self).spec_nodes()),
    {
        let ghost start = self.spec_nodes();
        let ghost ops = tape.ops@;
        let len = tape.ops.len();
        let mut slots: Vec<Id> = Vec::new();
        while slots.len() < len
            invariant
                slots@.len() <= len,
                forall|i: int| 0 <= i < slots@.len() ==> #[trigger] slots@[i] == u32::MAX,
            decreases len - slots@.len(),
        {
            slots.push(u32::MAX);
        }
        proof {
            assert(slots@ =~= read_tape(start, ops, vars@, 0).1);
        }
        let mut root: Option<Id> = None;
        let mut n: usize = 0;
        while n < len
            invariant
                self.well_formed(),
                self.base == old(self).base,
                ops == tape.ops@,
                len == ops.len(),
                start == old(self).spec_nodes(),
                readable(start, ops, vars@),
                start.len() + 2 * len < u32::MAX,
                n <= len,
                self.spec_nodes().len() <= start.len() + 2 * n,
                (self.spec_nodes(), slots@, root) == read_tape(start, ops, vars@, n as nat),
                forall|i: int|
                    0 <= i < slots@.len() ==> #[trigger] slots@[i] == u32::MAX || slots@[i]
                        < self.spec_nodes().len(),
                acyclic(start) ==> acyclic(self.spec_nodes()),
            decreases len - n,
        {
            let op = tape.ops[len - 1 - n];
            proof {
                assert(op_ok(read_tape(start, ops, vars@, n as nat).1, ops[len - 1 - n], vars@));
                assert(read_tape(start, ops, vars@, (n + 1) as nat) == read_op(
                    read_tape(start, ops, vars@, n as nat),
                    op,
                    vars@,
                ));
            }
            self.read_instruction(op, vars, &mut slots, &mut root, Ghost(start));
            n = n + 1;
        }
        root.unwrap()
    }

    /// Reads one instruction of a tape: interns the node it spells and
    /// records its id in the register it writes.
    fn read_instruction(
        &mut self,
        op: Op,
        vars: &Vec<u64>,
        slots: &mut Vec<Id>,
        root: &mut Option<Id>,
        Ghost(start): Ghost<Seq<Node>>,
    )
        requires
            old(self).well_formed(),
            op_ok(old(slots)@, op, vars@),
            old(self).spec_nodes().len() + 2 < u32::MAX,
            forall|i: int|
                0 <= i < old(slots)@.len() ==> #[trigger] old(slots)@[i] == u32::MAX || old(slots)@[i]
                    < old(self).spec_nodes().len(),
            acyclic(start) ==> acyclic(old(self).spec_nodes()),
        ensures
            final(self).well_formed(),
            final(self).base == old(self).base,
            (final(self).spec_nodes(), final(slots)@, *final(root)) == read_op(
                (old(self).spec_nodes(), old(slots)@, *old(root)),
                op,
                vars@,
            ),
            final(self).spec_nodes().len() <= old(self).spec_nodes().len() + 2,
            forall|i: int|
                0 <= i < final(slots)@.len() ==> #[trigger] final(slots)@[i] == u32::MAX
                    || final(slots)@[i] < final(self).spec_nodes().len(),
            acyclic(start) ==> acyclic(final(self).spec_nodes()),
    {
        let ghost before = self.spec_nodes();
        let ghost was = slots@;
        match op {
            Op::Output(a) => {
                *root = Some(Self::register(slots, a));
            },
            Op::Copy(out, a) => {
                let id = Self::register(slots, a);
                slots.set(out as usize, id);
            },
            Op::Input(out, slot) => {
                let node = Node::Input(vars[slot as usize]);
                let id = self.intern(node);
                proof {
                    self.lemma_intern_keeps_acyclic(start, before, node);
                }
                slots.set(out as usize, id);
            },
            Op::Constant(out, bits) => {
                let node = Node::Constant(bits);
                let id = self.intern(node);
                proof {
                    self.lemma_intern_keeps_acyclic(start, before, node);
                }
                slots.set(out as usize, id);
            },
            Op::Unary(op, out, a) => {
                let node = Node::Unary(op, Self::register(slots, a));
                let id = self.intern(node);
                proof {
                    self.lemma_intern_keeps_acyclic(start, before, node);
                }
                slots.set(out as usize, id);
            },
            Op::Binary(op, out, a, b) => {
                let node = Node::Binary(op, Self::register(slots, a), Self::register(slots, b));
                let id = self.intern(node);
                proof {
                    self.lemma_intern_keeps_acyclic(start, before, node);
                }
                slots.set(out as usize, id);
            },
            Op::BinaryImm(op, out, a, bits) => {
                let left = Self::register(slots, a);
                let constant = Node::Constant(bits);
                let c = self.intern(constant);
                let ghost middle = self.spec_nodes();
                proof {
                    self.lemma_intern_keeps_acyclic(start, before, constant);
                }
                let node = Node::Binary(op, left, c);
                let id = self.intern(node);
                proof {
                    self.lemma_intern_keeps_acyclic(start, middle, node);
                }
                slots.set(out as usize, id);
            },
            Op::ImmBinary(op, out, a, bits) => {
                let right = Self::register(slots, a);
                let constant = Node::Constant(bits);
                let c = self.intern(constant);
                let ghost middle = self.spec_nodes();
                proof {
                    self.lemma_intern_keeps_acyclic(start, before, constant);
                }
                let node = Node::Binary(op, c, right);
                let id = self.intern(node);
                proof {
                    self.lemma_intern_keeps_acyclic(start, middle, node);
                }
                slots.set(out as usize, id);
            },
        }
        proof {
            assert forall|i: int| 0 <= i < slots@.len() implies #[trigger] slots@[i] == u32::MAX
                || slots@[i] < self.spec_nodes().len() by {
                if slots@[i] != was[i] {
                } else {
                    assert(was[i] == u32::MAX || was[i] < before.len());
                }
            }
        }
    }

    /// Interning a node whose children are existing nodes keeps children
    /// ahead of their parents.
    pub proof fn lemma_intern_keeps_acyclic(&self, start: Seq<Node>, before: Seq<Node>, node: Node)
        requires
            acyclic(start) ==> acyclic(before),
            forall|j: int|
                0 <= j < node.spec_children().len() ==> #[trigger] node.spec_children()[j]
                    < before.len(),
            self.spec_nodes() == before || self.spec_nodes() == before.push(node),
        ensures
            acyclic(start) ==> acyclic(self.spec_nodes()),
    {
        if acyclic(start) && self.spec_nodes() == before.push(node) {
            let after = self.spec_nodes();
            assert forall|i: int, j: int|
                0 <= i < after.len() && 0 <= j < after[i].spec_children().len() implies #[trigger] after[i].spec_children()[j]
                < i by {
                if i < before.len() {
                    assert(after[i] == before[i]);
                    assert(before[i].spec_children()[j] < i);
                } else {
                    assert(after[i] == node);
                }
            }
        }
    }

}

proof fn lemma_input_vars_contains(nodes: Seq<Node>, order: Seq<Id>, k: int)
    requires
        0 <= k < order.len(),
        nodes[order[k] as int] is Input,
    ensures
        input_vars(nodes, order).contains(nodes[order[k] as int]->Input_0),
    decreases order.len(),
{
    let var = nodes[order[k] as int]->Input_0;
    let before = input_vars(nodes, order.drop_last());
    if k < order.len() - 1 {
        assert(order.drop_last()[k] == order[k]);
        lemma_input_vars_contains(nodes, order.drop_last(), k);
        let i = choose|i: int| 0 <= i < before.len() && before[i] == var;
        assert(input_vars(nodes, order)[i] == var);
    } else if !before.contains(var) {
        assert(input_vars(nodes, order) == before.push(var));
        assert(input_vars(nodes, order)[before.len() as int] == var);
    }
}

/// The registers after reading the first `n` instructions of a lowered
/// tape: register `i` holds the `i`-th node of the order.
spec fn lowered_slots(order: Seq<Id>, n: int) -> Seq<Id> {
    Seq::new(order.len() + 1, |i: int| if i < n { order[i] } else { u32::MAX })
}

proof fn lemma_read_lowered_step(nodes: Seq<Node>, order: Seq<Id>, vars: Seq<u64>, k: int)
    requires
        nodes.no_duplicates(),
        acyclic(nodes),
        nodes.len() <= u32::MAX,
        order.no_duplicates(),
        order.len() <= nodes.len(),
        0 <= k < order.len(),
        order[k] < nodes.len(),
        vars.no_duplicates(),
        vars.len() <= order.len(),
        nodes[order[k] as int] is Input ==> vars.contains(nodes[order[k] as int]->Input_0),
        forall|j: int|
            0 <= j < operands(nodes, nodes[order[k] as int]).len() ==> order.subrange(0, k).contains(
                #[trigger] operands(nodes, nodes[order[k] as int])[j],
            ),
    ensures
        op_ok(lowered_slots(order, k), spec_op(nodes, order, vars, k), vars),
        read_op((nodes, lowered_slots(order, k), None), spec_op(nodes, order, vars, k), vars) == (
            nodes,
            lowered_slots(order, k + 1),
            None::<Id>,
        ),
{
    let slots = lowered_slots(order, k);
    let id = order[k];
    lemma_operands_below(nodes, id);
    lemma_index_of_unique(nodes, id as int);
    assert forall|j: int| 0 <= j < operands(nodes, nodes[id as int]).len() implies ({
        let o = #[trigger] operands(nodes, nodes[id as int])[j];
        &&& written(slots, order.index_of(o) as u32)
        &&& slots[order.index_of(o)] == o
        &&& order.index_of(o) < k
    }) by {
        let o = operands(nodes, nodes[order[k] as int])[j];
        let p = choose|p: int| 0 <= p < k && order.subrange(0, k)[p] == o;
        assert(order[p] == o);
        lemma_index_of_unique(order, p);
    }
    assert(slots.update(k, id) =~= lowered_slots(order, k + 1));
    let state = (nodes, slots, None::<Id>);
    let op = spec_op(nodes, order, vars, k);
    match nodes[id as int] {
        Node::Input(var) => {
            let i = choose|i: int| 0 <= i < vars.len() && vars[i] == var;
            lemma_index_of_unique(vars, i);
            assert(op == Op::Input(k as u32, i as u32));
            assert(nodes.contains(Node::Input(var)));
            assert(spec_intern(nodes, Node::Input(var)) == (nodes, id));
        },
        Node::Constant(bits) => {
            assert(nodes.contains(Node::Constant(bits)));
            assert(spec_intern(nodes, Node::Constant(bits)) == (nodes, id));
        },
        Node::Unary(o, a) => {
            assert(operands(nodes, nodes[id as int])[0] == a);
            assert(nodes.contains(Node::Unary(o, a)));
            assert(spec_intern(nodes, Node::Unary(o, a)) == (nodes, id));
        },
        Node::Binary(o, a, b) => {
            assert(nodes[id as int].spec_children()[1] < id);
            assert(operands(nodes, nodes[id as int])[0] == a);
            assert(nodes.contains(Node::Binary(o, a, b)));
            assert(spec_intern(nodes, Node::Binary(o, a, b)) == (nodes, id));
            if is_constant(nodes, b) {
                lemma_index_of_unique(nodes, b as int);
                let bits = nodes[b as int]->Constant_0;
                assert(nodes.contains(Node::Constant(bits)));
                assert(spec_intern(nodes, Node::Constant(bits)) == (nodes, b));
            } else {
                assert(operands(nodes, nodes[id as int])[1] == b);
            }
        },
    }
}

/// One instruction of a lowered tape, read where the registers hold the
/// nodes before it, puts its own node in its register.
proof fn lemma_read_lowered_at(nodes: Seq<Node>, root: Id, k: int)
    requires
        nodes.no_duplicates(),
        acyclic(nodes),
        nodes.len() <= u32::MAX,
        root < nodes.len(),
        0 <= k < lowering_order(nodes, root).len(),
    ensures
        ({
            let order = lowering_order(nodes, root);
            let vars = input_vars(nodes, order);
            let tape = spec_tape(nodes, order, vars);
            &&& tape[tape.len() - 1 - k] == spec_op(nodes, order, vars, k)
            &&& op_ok(lowered_slots(order, k), spec_op(nodes, order, vars, k), vars)
            &&& read_op((nodes, lowered_slots(order, k), None), spec_op(nodes, order, vars, k), vars)
                == (nodes, lowered_slots(order, k + 1), None::<Id>)
        }),
{
    let order = lowering_order(nodes, root);
    let vars = input_vars(nodes, order);
    lemma_lowering_ordered(nodes);
            lemma_visit(lowering_kids(nodes), nodes.len(), root, Set::empty());
    lemma_visit_closed(lowering_kids(nodes), nodes.len(), root, Set::empty());
    lemma_distinct_below(order, nodes.len() as int);
    lemma_input_vars(nodes, order, 0);
    if nodes[order[k] as int] is Input {
        lemma_input_vars_contains(nodes, order, k);
    }
    assert forall|j: int| 0 <= j < operands(nodes, nodes[order[k] as int]).len() implies order.subrange(
        0,
        k,
    ).contains(#[trigger] operands(nodes, nodes[order[k] as int])[j]) by {
        assert(lowering_kids(nodes)(order[k])[j] == operands(nodes, nodes[order[k] as int])[j]);
        assert(!Set::<Id>::empty().contains(operands(nodes, nodes[order[k] as int])[j]));
    }
    lemma_read_lowered_step(nodes, order, vars, k);
}

proof fn lemma_read_lowered(nodes: Seq<Node>, root: Id, n: nat)
    requires
        nodes.no_duplicates(),
        acyclic(nodes),
        nodes.len() <= u32::MAX,
        root < nodes.len(),
        n <= lowering_order(nodes, root).len(),
    ensures
        ({
            let order = lowering_order(nodes, root);
            let vars = input_vars(nodes, order);
            let tape = spec_tape(nodes, order, vars);
            read_tape(nodes, tape, vars, n) == (nodes, lowered_slots(order, n as int), None::<Id>)
        }),
    decreases n,
{
    let order = lowering_order(nodes, root);
    let vars = input_vars(nodes, order);
    let tape = spec_tape(nodes, order, vars);
    if n == 0 {
        assert(lowered_slots(order, 0) =~= Seq::new(tape.len(), |i: int| u32::MAX));
    } else {
        lemma_read_lowered(nodes, root, (n - 1) as nat);
        lemma_read_lowered_at(nodes, root, n - 1);
        assert(tape.len() - n == tape.len() - 1 - (n - 1));
    }
}

/// Reading a lowered tape back into the graph it came from gives the root
/// it was lowered from and adds no node: lowering keeps the expression.
pub proof fn lemma_import_lowered(graph: &Graph, root: Id)
    requires
        graph.well_formed(),
        acyclic(graph.spec_nodes()),
        root < graph.spec_nodes().len(),
    ensures
        ({
            let nodes = graph.spec_nodes();
            let order = lowering_order(nodes, root);
            let vars = input_vars(nodes, order);
            let tape = spec_tape(nodes, order, vars);
            &&& readable(nodes, tape, vars)
            &&& read_tape(nodes, tape, vars, tape.len()).0 == nodes
            &&& read_tape(nodes, tape, vars, tape.len()).2 == Some(root)
        }),
{
    let nodes = graph.spec_nodes();
    graph.lemma_distinct();
    assert(nodes.len() <= u32::MAX);
    let order = lowering_order(nodes, root);
    let vars = input_vars(nodes, order);
    let tape = spec_tape(nodes, order, vars);
    lemma_lowering_ordered(nodes);
            lemma_visit(lowering_kids(nodes), nodes.len(), root, Set::empty());
    let last = order.len();
    assert forall|n: nat| n < tape.len() implies op_ok(
        #[trigger] read_tape(nodes, tape, vars, n).1,
        tape[tape.len() - 1 - n],
        vars,
    ) by {
        if n < last {
            lemma_read_lowered(nodes, root, n);
            lemma_read_lowered_at(nodes, root, n as int);
        } else {
            lemma_read_lowered(nodes, root, last);
            assert(lowered_slots(order, last as int)[last - 1] == root);
        }
    }
    lemma_read_lowered(nodes, root, last);
    lemma_distinct_below(order, nodes.len() as int);
    assert(1 <= last <= u32::MAX);
    assert(lowered_slots(order, last as int)[last - 1] == root);
    assert(tape[0] == Op::Output((last - 1) as u32));
    assert(tape.len() == last + 1);
    assert(read_tape(nodes, tape, vars, tape.len()) == read_op(
        read_tape(nodes, tape, vars, last),
        tape[0],
        vars,
    ));
    assert(read_tape(nodes, tape, vars, tape.len()).2 == Some(root));
    assert(readable(nodes, tape, vars));
}

} // verus!
