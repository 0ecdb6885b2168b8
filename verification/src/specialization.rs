//! Specializing an expression to the choices that one evaluation made: a
//! choosing node whose evaluation kept one operand is replaced by that
//! operand, and the nodes above it are rebuilt, reusing every node that
//! does not change.
use crate::dag::{acyclic, lemma_unfold_extended, unfold, Expr, Graph, Id, Node};
use crate::lowering::{choices, lemma_lowering_ordered, lowering_kids, lowering_order, operands, Compiled};
use crate::traversal::{
    lemma_distinct_below, lemma_index_of_unique, lemma_pow3, lemma_run_pending,
    lemma_to_set_add, lemma_visit, lemma_visit_all, lemma_visit_closed, lemma_visit_within,
    lemma_weight_push, ordered, pending, pow3, run, visit, visit_all, weight, Workspace,
};
use vstd::prelude::*;

verus! {

/// What one evaluation of a choosing node did: kept the left operand, the
/// right one, or both; `Unknown` when it was not observed.
#[derive(Clone, Copy, Debug, PartialEq, Eq, Structural)]
pub enum Choice {
    Unknown,
    Left,
    Right,
    Both,
}

/// The operand that the trace keeps of the choosing node `id`: the trace
/// records one choice for each of `choices`, in order.
pub open spec fn kept(nodes: Seq<Node>, choices: Seq<Id>, trace: Seq<Choice>, id: Id) -> Option<
    Id,
> {
    if id < nodes.len() && nodes[id as int].spec_choice() && choices.contains(id) {
        match (nodes[id as int], trace[choices.index_of(id)]) {
            (Node::Binary(_, a, _), Choice::Left) => Some(a),
            (Node::Binary(_, _, b), Choice::Right) => Some(b),
            _ => None,
        }
    } else {
        None
    }
}

/// The expression at `id` with each choosing node that the trace narrows
/// replaced by the operand it kept.
pub open spec fn specialized(nodes: Seq<Node>, choices: Seq<Id>, trace: Seq<Choice>, id: Id) -> Expr
    decreases id,
{
    if id >= nodes.len() {
        Expr::Constant(0)
    } else {
        match kept(nodes, choices, trace, id) {
            Some(c) => if c < id {
                specialized(nodes, choices, trace, c)
            } else {
                Expr::Constant(0)
            },
            None => match nodes[id as int] {
                Node::Input(var) => Expr::Input(var),
                Node::Constant(bits) => Expr::Constant(bits),
                Node::Unary(op, a) => if a < id {
                    Expr::Unary(op, Box::new(specialized(nodes, choices, trace, a)))
                } else {
                    Expr::Constant(0)
                },
                Node::Binary(op, a, b) => if a < id && b < id {
                    Expr::Binary(
                        op,
                        Box::new(specialized(nodes, choices, trace, a)),
                        Box::new(specialized(nodes, choices, trace, b)),
                    )
                } else {
                    Expr::Constant(0)
                },
            },
        }
    }
}

/// The edges that specialization traverses: the kept operand alone, or
/// every child, right before left.
pub open spec fn specializing_kids(nodes: Seq<Node>, choices: Seq<Id>, trace: Seq<Choice>) -> spec_fn(
    Id,
) -> Seq<Id> {
    |id: Id|
        match kept(nodes, choices, trace, id) {
            Some(c) => seq![c],
            None => match nodes[id as int] {
                Node::Unary(_, a) => seq![a],
                Node::Binary(_, a, b) => seq![b, a],
                _ => Seq::empty(),
            },
        }
}

proof fn lemma_specializing_ordered(nodes: Seq<Node>, choices: Seq<Id>, trace: Seq<Choice>)
    requires
        acyclic(nodes),
    ensures
        ordered(specializing_kids(nodes, choices, trace), nodes.len()),
        forall|id: Id|
            id < nodes.len() ==> #[trigger] specializing_kids(nodes, choices, trace)(id).len() <= 2,
{
    let kids = specializing_kids(nodes, choices, trace);
    assert forall|i: Id, j: int| i < nodes.len() && 0 <= j < kids(i).len() implies #[trigger] kids(
        i,
    )[j] < i by {
        match nodes[i as int] {
            Node::Unary(_, a) => {
                assert(nodes[i as int].spec_children()[0] < i);
            },
            Node::Binary(_, a, b) => {
                assert(nodes[i as int].spec_children()[0] < i);
                assert(nodes[i as int].spec_children()[1] < i);
            },
            _ => {},
        }
    }
}

/// With no choice narrowed, specializing changes nothing.
proof fn lemma_specialized_unchanged(nodes: Seq<Node>, choices: Seq<Id>, trace: Seq<Choice>, id: Id)
    requires
        forall|k: int| 0 <= k < trace.len() ==> trace[k] == Choice::Both,
        trace.len() == choices.len(),
    ensures
        specialized(nodes, choices, trace, id) == unfold(nodes, id),
    decreases id,
{
    if id < nodes.len() {
        if nodes[id as int].spec_choice() && choices.contains(id) {
            let k = choices.index_of(id);
            assert(trace[k] == Choice::Both);
        }
        assert(kept(nodes, choices, trace, id) is None);
        match nodes[id as int] {
            Node::Unary(_, a) => {
                if a < id {
                    lemma_specialized_unchanged(nodes, choices, trace, a);
                }
            },
            Node::Binary(_, a, b) => {
                if a < id && b < id {
                    lemma_specialized_unchanged(nodes, choices, trace, a);
                    lemma_specialized_unchanged(nodes, choices, trace, b);
                }
            },
            _ => {},
        }
    }
}

/// The register value that marks the operand kept for `id`: the operand
/// itself, or `Id::MAX` when the trace keeps both.
pub open spec fn picked(nodes: Seq<Node>, choices: Seq<Id>, trace: Seq<Choice>, id: Id) -> Id {
    match kept(nodes, choices, trace, id) {
        Some(c) => c,
        None => u32::MAX,
    }
}

proof fn lemma_choices(nodes: Seq<Node>, order: Seq<Id>)
    requires
        order.no_duplicates(),
        forall|k: int| 0 <= k < order.len() ==> #[trigger] order[k] < nodes.len(),
    ensures
        choices(nodes, order).no_duplicates(),
        forall|i: int|
            0 <= i < choices(nodes, order).len() ==> order.contains(#[trigger] choices(nodes, order)[i])
                && nodes[choices(nodes, order)[i] as int].spec_choice(),
        forall|k: int|
            0 <= k < order.len() && nodes[order[k] as int].spec_choice() ==> choices(nodes, order).contains(
                #[trigger] order[k],
            ),
    decreases order.len(),
{
    if order.len() > 0 {
        let shorter = order.drop_last();
        assert forall|k: int| 0 <= k < shorter.len() implies #[trigger] shorter[k] < nodes.len() by {
            assert(shorter[k] == order[k]);
        }
        assert(shorter.no_duplicates()) by {
            assert forall|i: int, j: int| 0 <= i < shorter.len() && 0 <= j < shorter.len() && i != j implies shorter[i]
                != shorter[j] by {
                assert(shorter[i] == order[i] && shorter[j] == order[j]);
            }
        }
        lemma_choices(nodes, shorter);
        let before = choices(nodes, shorter);
        let after = choices(nodes, order);
        let last = order.last();
        assert(!shorter.contains(last)) by {
            if shorter.contains(last) {
                let i = choose|i: int| 0 <= i < shorter.len() && shorter[i] == last;
                assert(order[i] == order[order.len() - 1]);
            }
        }
        assert forall|i: int| 0 <= i < after.len() implies order.contains(#[trigger] after[i])
            && nodes[after[i] as int].spec_choice() by {
            if i < before.len() {
                assert(after[i] == before[i]);
                let j = choose|j: int| 0 <= j < shorter.len() && shorter[j] == before[i];
                assert(order[j] == before[i]);
            } else {
                assert(after[i] == last);
                assert(order[order.len() - 1] == last);
            }
        }
        assert forall|k: int|
            0 <= k < order.len() && nodes[order[k] as int].spec_choice() implies after.contains(
            #[trigger] order[k],
        ) by {
            if k < shorter.len() {
                assert(shorter[k] == order[k]);
                let i = choose|i: int| 0 <= i < before.len() && before[i] == order[k];
                assert(after[i] == order[k]);
            } else {
                assert(after[before.len() as int] == last);
            }
        }
        if after != before {
            assert forall|i: int, j: int| 0 <= i < after.len() && 0 <= j < after.len() && i != j implies after[i]
                != after[j] by {
                if i < before.len() && j < before.len() {
                    assert(after[i] == before[i] && after[j] == before[j]);
                } else if i < before.len() {
                    assert(after[i] == before[i]);
                    let t = choose|t: int| 0 <= t < shorter.len() && shorter[t] == before[i];
                } else {
                    assert(after[j] == before[j]);
                    let t = choose|t: int| 0 <= t < shorter.len() && shorter[t] == before[j];
                }
            }
        }
    }
}

impl Graph {
    /// Whether the trace keeps both operands of every choosing node.
    fn keeps_everything(trace: &Vec<Choice>) -> (r: bool)
        ensures
            r == forall|k: int| 0 <= k < trace@.len() ==> trace@[k] == Choice::Both,
    {
        let mut i: usize = 0;
        while i < trace.len()
            invariant
                i <= trace@.len(),
                forall|k: int| 0 <= k < i ==> trace@[k] == Choice::Both,
            decreases trace@.len() - i,
        {
            if trace[i] != Choice::Both {
                return false;
            }
            i = i + 1;
        }
        true
    }

    /// Records in `scratch.selected` the operand that the trace keeps of
    /// each choosing node of `compiled`, or `Id::MAX` where it keeps both.
    fn select(&self, compiled: &Compiled, trace: &Vec<Choice>, scratch: &mut Workspace)
        requires
            self.well_formed(),
            old(scratch).well_formed(),
            old(scratch).selected@.len() >= self.spec_nodes().len(),
            compiled.choices@.no_duplicates(),
            trace@.len() == compiled.choices@.len(),
            forall|k: int|
                0 <= k < compiled.choices@.len() ==> #[trigger] compiled.choices@[k]
                    < self.spec_nodes().len() && self.spec_nodes()[compiled.choices@[k] as int].spec_choice(),
        ensures
            final(scratch).well_formed(),
            final(scratch).epoch == old(scratch).epoch,
            final(scratch).seen@ == old(scratch).seen@,
            final(scratch).values@ == old(scratch).values@,
            final(scratch).todo@ == old(scratch).todo@,
            final(scratch).selected@.len() == old(scratch).selected@.len(),
            forall|k: int|
                0 <= k < compiled.choices@.len() ==> final(scratch).selected@[#[trigger] compiled.choices@[k] as int]
                    == picked(self.spec_nodes(), compiled.choices@, trace@, compiled.choices@[k]),
    {
        let ghost nodes = self.spec_nodes();
        let mut k: usize = 0;
        while k < compiled.choices.len()
            invariant
                self.well_formed(),
                nodes == self.spec_nodes(),
                scratch.well_formed(),
                scratch.epoch == old(scratch).epoch,
                scratch.seen@ == old(scratch).seen@,
                scratch.values@ == old(scratch).values@,
                scratch.todo@ == old(scratch).todo@,
                scratch.selected@.len() == old(scratch).selected@.len(),
                scratch.selected@.len() >= nodes.len(),
                compiled.choices@.no_duplicates(),
                trace@.len() == compiled.choices@.len(),
                forall|j: int|
                    0 <= j < compiled.choices@.len() ==> #[trigger] compiled.choices@[j] < nodes.len()
                        && nodes[compiled.choices@[j] as int].spec_choice(),
                k <= compiled.choices@.len(),
                forall|j: int|
                    0 <= j < k ==> scratch.selected@[#[trigger] compiled.choices@[j] as int] == picked(
                        nodes,
                        compiled.choices@,
                        trace@,
                        compiled.choices@[j],
                    ),
            decreases compiled.choices@.len() - k,
        {
            let id = compiled.choices[k];
            let choice = trace[k];
            proof {
                lemma_index_of_unique(compiled.choices@, k as int);
            }
            if let Node::Binary(_, a, b) = self.get(id) {
                let keep = if choice == Choice::Left {
                    a
                } else if choice == Choice::Right {
                    b
                } else {
                    u32::MAX
                };
                let ghost was = scratch.selected@;
                scratch.selected.set(id as usize, keep);
                proof {
                    assert forall|j: int| 0 <= j < k + 1 implies scratch.selected@[
                        #[trigger] compiled.choices@[j] as int
                    ] == picked(nodes, compiled.choices@, trace@, compiled.choices@[j]) by {
                        if j < k {
                            assert(compiled.choices@[j] != id);
                        }
                    }
                }
            }
            k = k + 1;
        }
    }

    /// The id of the root's expression specialized to a trace: each choosing
    /// node that the trace narrows to one operand is replaced by that
    /// operand, and each node above one is rebuilt from its specialized
    /// children, interned so that unchanged nodes and existing ones are
    /// reused. The trace records one choice per choosing node of `compiled`.
    #[verifier::rlimit(100)]
    #[verifier::spinoff_prover]
    pub fn specialize(&mut self, compiled: &Compiled, trace: &Vec<Choice>, scratch: &mut Workspace) -> (r: Id)
        requires
            old(self).well_formed(),
            acyclic(old(self).spec_nodes()),
            compiled.root < old(self).spec_nodes().len(),
            compiled.choices@ == choices(
                old(self).spec_nodes(),
                lowering_order(old(self).spec_nodes(), compiled.root),
            ),
            trace@.len() == compiled.choices@.len(),
            forall|k: int| 0 <= k < trace@.len() ==> #[trigger] trace@[k] != Choice::Unknown,
            2 * old(self).spec_nodes().len() < u32::MAX,
            old(scratch).well_formed(),
        ensures
            final(self).well_formed(),
            final(self).base == old(self).base,
            acyclic(final(self).spec_nodes()),
            old(self).spec_nodes().is_prefix_of(final(self).spec_nodes()),
            r < final(self).spec_nodes().len(),
            unfold(final(self).spec_nodes(), r) == specialized(
                old(self).spec_nodes(),
                compiled.choices@,
                trace@,
                compiled.root,
            ),
            final(scratch).well_formed(),
    {
        let ghost start = self.spec_nodes();
        let ghost order = lowering_order(start, compiled.root);
        let ghost kinds = compiled.choices@;
        let ghost kids = specializing_kids(start, kinds, trace@);
        let root = compiled.root;
        proof {
            lemma_lowering_ordered(start);
            lemma_visit(lowering_kids(start), start.len(), root, Set::empty());
            lemma_choices(start, order);
        }
        if Self::keeps_everything(trace) {
            proof {
                lemma_specialized_unchanged(start, kinds, trace@, root);
                assert(start.is_prefix_of(start));
            }
            return root;
        }
        let size = self.offset + self.nodes.len();
        scratch.begin(size);
        self.select(compiled, trace, scratch);
        let ghost selected = scratch.selected@;
        let ghost within = order.to_set() + Set::new(
            |x: Id| x < start.len() && start[x as int] is Constant,
        );
        let ghost target = visit(kids, size as nat, root, Set::empty());
        proof {
            lemma_specializing_ordered(start, kinds, trace@);
            lemma_visit_closed(lowering_kids(start), start.len(), root, Set::empty());
            assert forall|x: Id, j: int|
                within.contains(x) && x < size && 0 <= j < kids(x).len() implies #[trigger] within.contains(
                kids(x)[j],
            ) by {
                let node = start[x as int];
                if !(node is Constant) {
                    let p = choose|p: int| 0 <= p < order.len() && order[p] == x;
                    let lk = lowering_kids(start);
                    match node {
                        Node::Unary(_, a) => {
                            assert(lk(order[p])[0] == a);
                            let q = choose|q: int| 0 <= q < p && order.subrange(0, p)[q] == a;
                            assert(order[q] == a);
                        },
                        Node::Binary(_, a, b) => {
                            assert(lk(order[p])[0] == a);
                            let q = choose|q: int| 0 <= q < p && order.subrange(0, p)[q] == a;
                            assert(order[q] == a);
                            assert(start[x as int].spec_children()[1] < x);
                            if !(start[b as int] is Constant) {
                                assert(lk(order[p])[1] == b);
                                let q = choose|q: int| 0 <= q < p && order.subrange(0, p)[q] == b;
                                assert(order[q] == b);
                            }
                        },
                        _ => {},
                    }
                }
            }
            assert(within.contains(root)) by {
                assert(order[order.len() - 1] == root);
            }
            lemma_visit_within(kids, size as nat, root, Set::empty(), within);
            lemma_visit(kids, size as nat, root, Set::empty());
            lemma_visit_closed(kids, size as nat, root, Set::empty());
            assert forall|x: Id| within.contains(x) && x < size && start[x as int].spec_choice() implies #[trigger] kinds.contains(x) by {
                let p = choose|p: int| 0 <= p < order.len() && order[p] == x;
                assert(order[p] == x);
            }
        }
        scratch.todo.push((root, false));
        let ghost mut emitted = Seq::<Id>::empty();
        proof {
            let empty = Seq::<(Id, bool)>::empty();
            let none = Set::<Id>::empty();
            assert(scratch.todo@.drop_last() =~= empty);
            assert(scratch.todo@.last() == (root, false));
            assert(emitted.to_set() =~= none);
            assert(run(kids, size as nat, empty, none + target.to_set()) == Seq::<Id>::empty());
            assert(run(kids, size as nat, scratch.todo@, none) == target + run(kids, size as nat, empty, none + target.to_set()));
            assert(emitted + run(kids, size as nat, scratch.todo@, emitted.to_set()) =~= target);
            assert(start.is_prefix_of(self.spec_nodes()));
        }
        while scratch.todo.len() > 0
            invariant
                self.well_formed(),
                self.base == old(self).base,
                acyclic(self.spec_nodes()),
                start.is_prefix_of(self.spec_nodes()),
                self.spec_nodes().len() <= start.len() + emitted.len(),
                size == start.len(),
                2 * size < u32::MAX,
                kinds == compiled.choices@,
                kids == specializing_kids(start, kinds, trace@),
                ordered(kids, size as nat),
                forall|x: Id| x < size ==> #[trigger] kids(x).len() <= 2,
                target == visit(kids, size as nat, root, Set::<Id>::empty()),
                forall|k: int| 0 <= k < target.len() ==> within.contains(#[trigger] target[k]),
                forall|k: int, j: int|
                    #![trigger kids(target[k])[j]]
                    0 <= k < target.len() && 0 <= j < kids(target[k]).len() ==> Set::<Id>::empty().contains(kids(target[k])[j])
                        || target.subrange(0, k).contains(kids(target[k])[j]),
                forall|x: Id|
                    within.contains(x) && x < size && start[x as int].spec_choice() ==> #[trigger] kinds.contains(x),
                kinds.no_duplicates(),
                scratch.well_formed(),
                scratch.epoch > 0,
                scratch.seen@.len() >= size,
                scratch.selected@ == selected,
                forall|k: int|
                    0 <= k < kinds.len() ==> selected[#[trigger] kinds[k] as int] == picked(start, kinds, trace@, kinds[k]),
                forall|i: int|
                    0 <= i < scratch.seen@.len() ==> ((#[trigger] scratch.seen@[i] == scratch.epoch)
                        <==> (i < size && emitted.contains(i as Id))),
                emitted.no_duplicates(),
                forall|k: int|
                    0 <= k < emitted.len() ==> #[trigger] emitted[k] < size && scratch.values@[emitted[k] as int]
                        < self.spec_nodes().len() && unfold(self.spec_nodes(), scratch.values@[emitted[k] as int])
                        == specialized(start, kinds, trace@, emitted[k]),
                forall|k: int| 0 <= k < scratch.todo@.len() ==> #[trigger] scratch.todo@[k].0 < size,
                emitted + run(kids, size as nat, scratch.todo@, emitted.to_set()) == target,
            decreases weight(scratch.todo@),
        {
            let ghost before = scratch.todo@;
            let ghost done = emitted.to_set();
            let ghost graph = self.spec_nodes();
            let (id, ready) = scratch.todo.pop().unwrap();
            let ghost rest = scratch.todo@;
            proof {
                assert(before =~= rest.push((id, ready)));
                assert(before.last() == (id, ready));
                assert(before.drop_last() =~= rest);
                lemma_weight_push(rest, (id, ready));
                lemma_pow3(0, id as nat + 1);
                assert(id < size);
                assert forall|k: int| 0 <= k < rest.len() implies #[trigger] rest[k].0 < size by {
                    assert(rest[k] == before[k]);
                }
            }
            if scratch.seen[id as usize] == scratch.epoch {
                proof {
                    assert(emitted.contains(id));
                    let i = choose|i: int| 0 <= i < emitted.len() && emitted[i] == id;
                    assert(done.contains(id));
                    let empty = Seq::<Id>::empty();
                    assert(done + empty.to_set() =~= done);
                    assert(run(kids, size as nat, before, done) == empty + run(kids, size as nat, rest, done + empty.to_set()));
                    assert(run(kids, size as nat, before, done) =~= run(kids, size as nat, rest, done));
                }
            } else {
                proof {
                    if done.contains(id) {
                        let i = choose|i: int| 0 <= i < emitted.len() && emitted[i] == id;
                        assert(scratch.seen@[id as int] == scratch.epoch);
                    }
                    // the popped node comes next in the traversal's output
                    let out = if ready { seq![id] } else { visit(kids, size as nat, id, done) };
                    lemma_visit(kids, size as nat, id, done);
                    assert(run(kids, size as nat, before, done) == out + run(kids, size as nat, rest, done + out.to_set()));
                    assert(out.len() > 0 && out[out.len() - 1] == id);
                    assert(target[emitted.len() + out.len() - 1] == id) by {
                        assert((emitted + run(kids, size as nat, before, done))[emitted.len() + out.len() - 1] == id);
                    }
                    assert(within.contains(id));
                    assert(graph[id as int] == start[id as int]);
                }
                let node = self.get(id);
                let mut chosen: Option<Id> = None;
                if node.choice() {
                    let kept_operand = scratch.selected[id as usize];
                    if kept_operand != u32::MAX {
                        chosen = Some(kept_operand);
                    }
                }
                proof {
                    if start[id as int].spec_choice() {
                        let k = choose|k: int| 0 <= k < kinds.len() && kinds[k] == id;
                        assert(selected[kinds[k] as int] == picked(start, kinds, trace@, kinds[k]));
                        match kept(start, kinds, trace@, id) {
                            Some(c) => {
                                assert(start[id as int].spec_children()[0] < id);
                                assert(start[id as int].spec_children()[1] < id);
                            },
                            None => {},
                        }
                    }
                    assert(chosen == kept(start, kinds, trace@, id));
                }
                if !ready {
                    proof {
                        lemma_pow3(0, id as nat);
                        assert(pow3(id as nat + 1) == 3 * pow3(id as nat));
                        lemma_weight_push(rest, (id, true));
                    }
                    scratch.todo.push((id, true));
                    let ghost marked = scratch.todo@;
                    let ghost ops = kids(id);
                    proof {
                        assert forall|k: int| 0 <= k < ops.len() implies #[trigger] ops[k] < id by {
                            assert(kids(id)[k] < id);
                        }
                    }
                    match chosen {
                        Some(child) => {
                            proof {
                                assert(ops =~= seq![child]);
                                lemma_pow3(child as nat + 1, id as nat);
                                lemma_weight_push(marked, (child, false));
                            }
                            scratch.todo.push((child, false));
                        },
                        None => match node {
                            Node::Unary(_, a) => {
                                proof {
                                    assert(ops =~= seq![a]);
                                    lemma_pow3(a as nat + 1, id as nat);
                                    lemma_weight_push(marked, (a, false));
                                }
                                scratch.todo.push((a, false));
                            },
                            Node::Binary(_, a, b) => {
                                proof {
                                    assert(ops =~= seq![b, a]);
                                    lemma_pow3(a as nat + 1, id as nat);
                                    lemma_pow3(b as nat + 1, id as nat);
                                    lemma_weight_push(marked, (a, false));
                                    lemma_weight_push(marked.push((a, false)), (b, false));
                                }
                                scratch.todo.push((a, false));
                                scratch.todo.push((b, false));
                            },
                            _ => {
                                proof {
                                    assert(ops.len() == 0);
                                }
                            },
                        },
                    }
                    proof {
                        assert(scratch.todo@ =~= marked + pending(ops));
                        assert forall|k: int| 0 <= k < scratch.todo@.len() implies #[trigger] scratch.todo@[k].0
                            < size by {
                            if k < rest.len() {
                                assert(scratch.todo@[k] == rest[k]);
                            } else if k > rest.len() {
                                assert(scratch.todo@[k] == pending(ops)[k - rest.len() - 1]);
                            }
                        }
                        let va = visit_all(kids, size as nat, ops, id, done);
                        lemma_visit_all(kids, size as nat, ops, id, done);
                        lemma_run_pending(kids, size as nat, marked, ops, id, done);
                        let s1 = done + va.to_set();
                        assert(!va.contains(id)) by {
                            if va.contains(id) {
                                let i = choose|i: int| 0 <= i < va.len() && va[i] == id;
                                assert(va[i] < id);
                            }
                        }
                        assert(!s1.contains(id));
                        assert(marked.drop_last() =~= rest);
                        assert(marked.last() == (id, true));
                        assert(run(kids, size as nat, marked, s1) == seq![id] + run(kids, size as nat, rest, s1 + seq![id].to_set()));
                        lemma_to_set_add(va, seq![id]);
                        assert(va.push(id) =~= va + seq![id]);
                        assert(s1 + seq![id].to_set() =~= done + va.push(id).to_set());
                        assert(visit(kids, size as nat, id, done) == va.push(id));
                        assert(run(kids, size as nat, before, done) == va.push(id) + run(kids, size as nat, rest, done + va.push(id).to_set()));
                        assert(run(kids, size as nat, scratch.todo@, done) =~= run(kids, size as nat, before, done));
                    }
                } else {
                    let ghost m = emitted.len() as int;
                    proof {
                        assert(run(kids, size as nat, before, done) == seq![id] + run(kids, size as nat, rest, done + seq![id].to_set()));
                        assert(target[m] == id) by {
                            assert((emitted + run(kids, size as nat, before, done))[m] == id);
                        }
                        assert(target.subrange(0, m) =~= emitted) by {
                            assert forall|i: int| 0 <= i < m implies target.subrange(0, m)[i] == emitted[i] by {
                                assert((emitted + run(kids, size as nat, before, done))[i] == emitted[i]);
                            }
                        }
                        // each operand that the traversal follows was emitted already
                        assert forall|j: int| 0 <= j < kids(id).len() implies ({
                            let c = #[trigger] kids(id)[j];
                            &&& c < id
                            &&& scratch.values@[c as int] < graph.len()
                            &&& unfold(graph, scratch.values@[c as int]) == specialized(start, kinds, trace@, c)
                        }) by {
                            let c = kids(target[m])[j];
                            assert(kids(id)[j] < id);
                            let q = choose|q: int| 0 <= q < m && target.subrange(0, m)[q] == c;
                            assert(emitted[q] == c);
                        }
                    }
                    let replacement = match chosen {
                        Some(child) => {
                            proof {
                                assert(kids(id)[0] == child);
                            }
                            scratch.values[child as usize]
                        },
                        None => {
                            let new = match node {
                                Node::Unary(op, a) => {
                                    proof {
                                        assert(kids(id)[0] == a);
                                    }
                                    Node::Unary(op, scratch.values[a as usize])
                                },
                                Node::Binary(op, a, b) => {
                                    proof {
                                        assert(kids(id)[1] == a);
                                        assert(kids(id)[0] == b);
                                    }
                                    Node::Binary(op, scratch.values[a as usize], scratch.values[b as usize])
                                },
                                _ => node,
                            };
                            if new == node {
                                proof {
                                    lemma_unfold_extended(start, graph, id);
                                    match node {
                                        Node::Unary(_, a) => {
                                            assert(kids(id)[0] == a);
                                            lemma_unfold_extended(start, graph, a);
                                        },
                                        Node::Binary(_, a, b) => {
                                            assert(kids(id)[1] == a);
                                            assert(kids(id)[0] == b);
                                            lemma_unfold_extended(start, graph, a);
                                            lemma_unfold_extended(start, graph, b);
                                        },
                                        _ => {},
                                    }
                                }
                                id
                            } else {
                                proof {
                                    lemma_distinct_below(emitted.push(id), size as int);
                                }
                                let made = self.intern(new);
                                proof {
                                    self.lemma_intern_keeps_acyclic(graph, graph, new);
                                    let after = self.spec_nodes();
                                    assert(graph.is_prefix_of(after));
                                    assert(after[made as int] == new);
                                    match new {
                                        Node::Unary(_, va) => {
                                            assert(after[made as int].spec_children()[0] < made);
                                            lemma_unfold_extended(graph, after, va);
                                        },
                                        Node::Binary(_, va, vb) => {
                                            assert(after[made as int].spec_children()[0] < made);
                                            assert(after[made as int].spec_children()[1] < made);
                                            lemma_unfold_extended(graph, after, va);
                                            lemma_unfold_extended(graph, after, vb);
                                        },
                                        _ => {},
                                    }
                                }
                                made
                            }
                        },
                    };
                    let ghost emitted_before = emitted;
                    proof {
                        if !(emitted.push(id).len() <= size) {
                            lemma_distinct_below(emitted.push(id), size as int);
                        }
                    }
                    scratch.values.set(id as usize, replacement);
                    scratch.seen.set(id as usize, scratch.epoch);
                    proof {
                        emitted = emitted.push(id);
                        let after = self.spec_nodes();
                        assert(start.is_prefix_of(after));
                        assert forall|k: int| 0 <= k < emitted.len() implies #[trigger] emitted[k] < size
                            && scratch.values@[emitted[k] as int] < after.len() && unfold(
                            after,
                            scratch.values@[emitted[k] as int],
                        ) == specialized(start, kinds, trace@, emitted[k]) by {
                            if k < emitted_before.len() {
                                assert(emitted[k] == emitted_before[k]);
                                assert(emitted_before[k] != id);
                                lemma_unfold_extended(graph, after, scratch.values@[emitted[k] as int]);
                            }
                        }
                        assert forall|i: int| 0 <= i < scratch.seen@.len() implies ((
                        #[trigger] scratch.seen@[i] == scratch.epoch) <==> (i < size && emitted.contains(
                            i as Id,
                        ))) by {
                            if i == id {
                                assert(emitted[emitted_before.len() as int] == id);
                            } else if i < size {
                                if emitted.contains(i as Id) {
                                    let j = choose|j: int| 0 <= j < emitted.len() && emitted[j] == i as Id;
                                    assert(emitted_before[j] == i as Id);
                                }
                                if emitted_before.contains(i as Id) {
                                    let j = choose|j: int| 0 <= j < emitted_before.len() && emitted_before[j] == i as Id;
                                    assert(emitted[j] == i as Id);
                                }
                            }
                        }
                        assert(emitted.no_duplicates()) by {
                            assert forall|i: int, j: int|
                                0 <= i < emitted.len() && 0 <= j < emitted.len() && i != j implies emitted[i]
                                    != emitted[j] by {
                                if i < emitted_before.len() && j < emitted_before.len() {
                                    assert(emitted[i] == emitted_before[i] && emitted[j] == emitted_before[j]);
                                } else if i < emitted_before.len() {
                                    assert(emitted[i] == emitted_before[i]);
                                } else {
                                    assert(emitted[j] == emitted_before[j]);
                                }
                            }
                        }
                        lemma_to_set_add(emitted_before, seq![id]);
                        assert(emitted =~= emitted_before + seq![id]);
                        assert(emitted.to_set() == done + seq![id].to_set());
                        assert(emitted + run(kids, size as nat, rest, emitted.to_set()) =~= emitted_before
                            + run(kids, size as nat, before, done));
                    }
                }
            }
        }
        proof {
            assert(scratch.todo@.len() == 0);
            assert(emitted + run(kids, size as nat, scratch.todo@, emitted.to_set()) =~= emitted);
            assert(emitted[emitted.len() - 1] == root);
        }
        scratch.values[root as usize]
    }

}

} // verus!
