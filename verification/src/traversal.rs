//! Depth-first traversal of a graph whose edges lead from each id to
//! smaller ids, with an explicit work stack: the order in which it emits
//! ids, and the reusable scratch space that it runs in.
use crate::dag::Id;
use vstd::prelude::*;

verus! {

/// Every id below `size` leads only to smaller ids.
pub open spec fn ordered(kids: spec_fn(Id) -> Seq<Id>, size: nat) -> bool {
    forall|i: Id, j: int|
        #![trigger kids(i)[j]]
        i < size && 0 <= j < kids(i).len() ==> kids(i)[j] < i
}

/// The ids that a depth-first traversal from `id` emits, each after the
/// ids it leads to, skipping the ids in `seen` and the ids emitted before.
pub open spec fn visit(kids: spec_fn(Id) -> Seq<Id>, size: nat, id: Id, seen: Set<Id>) -> Seq<Id>
    decreases id, 1nat, 0nat,
{
    if seen.contains(id) || id >= size {
        Seq::empty()
    } else {
        visit_all(kids, size, kids(id), id, seen).push(id)
    }
}

/// The ids that traversals from each of `ids` in turn emit; `bound`
/// exceeds each of `ids`.
pub open spec fn visit_all(kids: spec_fn(Id) -> Seq<Id>, size: nat, ids: Seq<Id>, bound: Id, seen: Set<Id>) -> Seq<Id>
    decreases bound, 0nat, ids.len(),
{
    if ids.len() == 0 {
        Seq::empty()
    } else if ids[0] < bound {
        let first = visit(kids, size, ids[0], seen);
        first + visit_all(kids, size, ids.drop_first(), bound, seen + first.to_set())
    } else {
        Seq::empty()
    }
}

/// What the work stack of a traversal still emits: its top entry first. An
/// entry `(id, false)` stands for a traversal from `id`; an entry
/// `(id, true)` emits `id` itself, unless it was emitted already.
pub open spec fn run(kids: spec_fn(Id) -> Seq<Id>, size: nat, stack: Seq<(Id, bool)>, seen: Set<Id>) -> Seq<Id>
    decreases stack.len(),
{
    if stack.len() == 0 {
        Seq::empty()
    } else {
        let (id, ready) = stack.last();
        let out = if ready {
            if seen.contains(id) {
                Seq::empty()
            } else {
                seq![id]
            }
        } else {
            visit(kids, size, id, seen)
        };
        out + run(kids, size, stack.drop_last(), seen + out.to_set())
    }
}

/// Whether `within` holds every id that its ids below `size` lead to.
pub open spec fn closed(kids: spec_fn(Id) -> Seq<Id>, size: nat, within: Set<Id>) -> bool {
    forall|x: Id, j: int|
        #![trigger within.contains(x), kids(x)[j]]
        within.contains(x) && x < size && 0 <= j < kids(x).len() ==> within.contains(kids(x)[j])
}

/// A traversal from an id of a closed set emits ids of that set only.
pub proof fn lemma_visit_within(
    kids: spec_fn(Id) -> Seq<Id>,
    size: nat,
    id: Id,
    seen: Set<Id>,
    within: Set<Id>,
)
    requires
        ordered(kids, size),
        closed(kids, size, within),
        within.contains(id),
    ensures
        forall|k: int|
            0 <= k < visit(kids, size, id, seen).len() ==> within.contains(
                #[trigger] visit(kids, size, id, seen)[k],
            ),
    decreases id, 1nat, 0nat,
{
    if !(seen.contains(id) || id >= size) {
        let ops = kids(id);
        assert forall|k: int| 0 <= k < ops.len() implies #[trigger] ops[k] < id && within.contains(
            ops[k],
        ) by {
            assert(kids(id)[k] < id);
            assert(within.contains(kids(id)[k]));
        }
        lemma_visit_all_within(kids, size, ops, id, seen, within);
        let inner = visit_all(kids, size, ops, id, seen);
        assert forall|k: int| 0 <= k < inner.push(id).len() implies within.contains(
            #[trigger] inner.push(id)[k],
        ) by {
            if k < inner.len() {
                assert(inner.push(id)[k] == inner[k]);
            }
        }
    }
}

pub proof fn lemma_visit_all_within(
    kids: spec_fn(Id) -> Seq<Id>,
    size: nat,
    ids: Seq<Id>,
    bound: Id,
    seen: Set<Id>,
    within: Set<Id>,
)
    requires
        ordered(kids, size),
        closed(kids, size, within),
        forall|k: int| 0 <= k < ids.len() ==> #[trigger] ids[k] < bound && within.contains(ids[k]),
    ensures
        forall|k: int|
            0 <= k < visit_all(kids, size, ids, bound, seen).len() ==> within.contains(
                #[trigger] visit_all(kids, size, ids, bound, seen)[k],
            ),
    decreases bound, 0nat, ids.len(),
{
    if ids.len() > 0 {
        let first = visit(kids, size, ids[0], seen);
        let tail = ids.drop_first();
        lemma_visit_within(kids, size, ids[0], seen, within);
        assert forall|k: int| 0 <= k < tail.len() implies #[trigger] tail[k] < bound
            && within.contains(tail[k]) by {
            assert(tail[k] == ids[k + 1]);
        }
        lemma_visit_all_within(kids, size, tail, bound, seen + first.to_set(), within);
        let rest = visit_all(kids, size, tail, bound, seen + first.to_set());
        assert forall|k: int| 0 <= k < (first + rest).len() implies within.contains(
            #[trigger] (first + rest)[k],
        ) by {
            if k < first.len() {
                assert((first + rest)[k] == first[k]);
            } else {
                assert((first + rest)[k] == rest[k - first.len()]);
            }
        }
    }
}

/// Pending traversals from `ids`, the first of them on top.
pub open spec fn pending(ids: Seq<Id>) -> Seq<(Id, bool)> {
    Seq::new(ids.len(), |i: int| (ids[ids.len() - 1 - i], false))
}

pub open spec fn pow3(n: nat) -> nat
    decreases n,
{
    if n == 0 {
        1
    } else {
        3 * pow3((n - 1) as nat)
    }
}

/// A measure that every step of a traversal lowers: expanding a node
/// replaces its entry by entries of smaller weight.
pub open spec fn weight(stack: Seq<(Id, bool)>) -> nat
    decreases stack.len(),
{
    if stack.len() == 0 {
        0
    } else {
        weight(stack.drop_last()) + if stack.last().1 {
            1nat
        } else {
            pow3(stack.last().0 as nat + 1)
        }
    }
}

pub proof fn lemma_pow3(a: nat, b: nat)
    requires
        a <= b,
    ensures
        1 <= pow3(a) <= pow3(b),
        1 <= b ==> 3 <= pow3(b),
    decreases b,
{
    if b > 0 {
        if a < b {
            lemma_pow3(a, (b - 1) as nat);
        }
        lemma_pow3(0, (b - 1) as nat);
    }
}

pub proof fn lemma_weight_push(stack: Seq<(Id, bool)>, entry: (Id, bool))
    ensures
        weight(stack.push(entry)) == weight(stack) + if entry.1 {
            1nat
        } else {
            pow3(entry.0 as nat + 1)
        },
{
    assert(stack.push(entry).drop_last() =~= stack);
}

pub proof fn lemma_visit(kids: spec_fn(Id) -> Seq<Id>, size: nat, id: Id, seen: Set<Id>)
    requires
        ordered(kids, size),
    ensures
        visit(kids, size, id, seen).no_duplicates(),
        forall|k: int|
            0 <= k < visit(kids, size, id, seen).len() ==> #[trigger] visit(kids, size, id, seen)[k] <= id
                && visit(kids, size, id, seen)[k] < size && !seen.contains(
                visit(kids, size, id, seen)[k],
            ),
        !seen.contains(id) && id < size ==> visit(kids, size, id, seen).len() > 0 && visit(
            kids,
            size,
            id,
            seen,
        ).last() == id,
    decreases id, 1nat, 0nat,
{
    if !(seen.contains(id) || id >= size) {
        let ops = kids(id);
        assert forall|k: int| 0 <= k < ops.len() implies #[trigger] ops[k] < id by {
            assert(kids(id)[k] < id);
        }
        lemma_visit_all(kids, size, ops, id, seen);
        let inner = visit_all(kids, size, ops, id, seen);
        let out = inner.push(id);
        assert forall|k: int| 0 <= k < out.len() implies #[trigger] out[k] <= id && out[k]
            < size && !seen.contains(out[k]) by {
            if k < inner.len() {
                assert(out[k] == inner[k]);
            }
        }
        assert forall|i: int, j: int| 0 <= i < out.len() && 0 <= j < out.len() && i != j implies out[i]
            != out[j] by {
            if i < inner.len() && j < inner.len() {
                assert(out[i] == inner[i] && out[j] == inner[j]);
            } else if i < inner.len() {
                assert(out[i] == inner[i] && inner[i] < id);
            } else if j < inner.len() {
                assert(out[j] == inner[j] && inner[j] < id);
            }
        }
    }
}

pub proof fn lemma_visit_all(kids: spec_fn(Id) -> Seq<Id>, size: nat, ids: Seq<Id>, bound: Id, seen: Set<Id>)
    requires
        ordered(kids, size),
        forall|k: int| 0 <= k < ids.len() ==> #[trigger] ids[k] < bound,
    ensures
        visit_all(kids, size, ids, bound, seen).no_duplicates(),
        forall|k: int|
            0 <= k < visit_all(kids, size, ids, bound, seen).len() ==> #[trigger] visit_all(
                kids,
                size,
                ids,
                bound,
                seen,
            )[k] < bound && visit_all(kids, size, ids, bound, seen)[k] < size && !seen.contains(
                visit_all(kids, size, ids, bound, seen)[k],
            ),
    decreases bound, 0nat, ids.len(),
{
    if ids.len() > 0 {
        let first = visit(kids, size, ids[0], seen);
        let seen2 = seen + first.to_set();
        let tail = ids.drop_first();
        lemma_visit(kids, size, ids[0], seen);
        assert forall|k: int| 0 <= k < tail.len() implies #[trigger] tail[k] < bound by {
            assert(tail[k] == ids[k + 1]);
        }
        lemma_visit_all(kids, size, tail, bound, seen2);
        let rest = visit_all(kids, size, tail, bound, seen2);
        let out = first + rest;
        assert forall|k: int| 0 <= k < out.len() implies #[trigger] out[k] < bound && out[k]
            < size && !seen.contains(out[k]) by {
            if k < first.len() {
                assert(out[k] == first[k]);
            } else {
                assert(out[k] == rest[k - first.len()]);
            }
        }
        assert forall|i: int, j: int| 0 <= i < out.len() && 0 <= j < out.len() && i != j implies out[i]
            != out[j] by {
            if i >= first.len() && j < first.len() {
                assert(out[i] == rest[i - first.len()]);
                assert(out[j] == first[j]);
                assert(first.to_set().contains(first[j]));
            } else if i < first.len() && j >= first.len() {
                assert(out[j] == rest[j - first.len()]);
                assert(out[i] == first[i]);
                assert(first.to_set().contains(first[i]));
            } else if i >= first.len() {
                assert(out[i] == rest[i - first.len()]);
                assert(out[j] == rest[j - first.len()]);
            } else {
                assert(out[i] == first[i] && out[j] == first[j]);
            }
        }
    }
}

pub proof fn lemma_to_set_add(a: Seq<Id>, b: Seq<Id>)
    ensures
        (a + b).to_set() == a.to_set() + b.to_set(),
{
    assert forall|x: Id| (a + b).to_set().contains(x) implies (a.to_set() + b.to_set()).contains(
        x,
    ) by {
        let i = choose|i: int| 0 <= i < (a + b).len() && (a + b)[i] == x;
        if i < a.len() {
            assert(a[i] == x);
        } else {
            assert(b[i - a.len()] == x);
        }
    }
    assert forall|x: Id| (a.to_set() + b.to_set()).contains(x) implies (a + b).to_set().contains(
        x,
    ) by {
        if a.contains(x) {
            let i = choose|i: int| 0 <= i < a.len() && a[i] == x;
            assert((a + b)[i] == x);
        } else {
            let i = choose|i: int| 0 <= i < b.len() && b[i] == x;
            assert((a + b)[i + a.len()] == x);
        }
    }
    assert((a + b).to_set() =~= a.to_set() + b.to_set());
}

/// Every operand of an emitted node was seen before the traversal or is
/// emitted before that node.
pub proof fn lemma_visit_closed(kids: spec_fn(Id) -> Seq<Id>, size: nat, id: Id, seen: Set<Id>)
    requires
        ordered(kids, size),
    ensures
        forall|k: int, j: int|
            #![trigger kids(visit(kids, size, id, seen)[k])[j]]
            0 <= k < visit(kids, size, id, seen).len() && 0 <= j < kids(visit(kids, size, id, seen)[k]).len() ==> seen.contains(kids(visit(kids, size, id, seen)[k])[j])
                || visit(kids, size, id, seen).subrange(0, k).contains(
                kids(visit(kids, size, id, seen)[k])[j],
            ),
    decreases id, 1nat, 0nat,
{
    if !(seen.contains(id) || id >= size) {
        let ops = kids(id);
        assert forall|k: int| 0 <= k < ops.len() implies #[trigger] ops[k] < id by {
            assert(kids(id)[k] < id);
        }
        lemma_visit_all_closed(kids, size, ops, id, seen);
        let inner = visit_all(kids, size, ops, id, seen);
        let out = inner.push(id);
        assert forall|k: int, j: int|
            0 <= k < out.len() && 0 <= j < kids(out[k]).len() implies seen.contains(
            #[trigger] kids(out[k])[j],
        ) || out.subrange(0, k).contains(kids(out[k])[j]) by {
            let o = kids(out[k])[j];
            if k < inner.len() {
                assert(out[k] == inner[k]);
                assert(kids(inner[k])[j] == o);
                if inner.subrange(0, k).contains(o) {
                    let i = choose|i: int| 0 <= i < k && inner.subrange(0, k)[i] == o;
                    assert(out.subrange(0, k)[i] == o);
                }
            } else {
                assert(out[k] == id);
                assert(ops[j] == o);
                if inner.contains(o) {
                    let i = choose|i: int| 0 <= i < inner.len() && inner[i] == o;
                    assert(out.subrange(0, k)[i] == o);
                }
            }
        }
    }
}

pub proof fn lemma_visit_all_closed(kids: spec_fn(Id) -> Seq<Id>, size: nat, ids: Seq<Id>, bound: Id, seen: Set<Id>)
    requires
        ordered(kids, size),
        bound <= size,
        forall|k: int| 0 <= k < ids.len() ==> #[trigger] ids[k] < bound,
    ensures
        forall|k: int, j: int|
            #![trigger kids(visit_all(kids, size, ids, bound, seen)[k])[j]]
            0 <= k < visit_all(kids, size, ids, bound, seen).len() && 0 <= j < kids(visit_all(kids, size, ids, bound, seen)[k]).len() ==> seen.contains(
                kids(visit_all(kids, size, ids, bound, seen)[k])[j],
            ) || visit_all(kids, size, ids, bound, seen).subrange(0, k).contains(
                kids(visit_all(kids, size, ids, bound, seen)[k])[j],
            ),
        forall|j: int|
            0 <= j < ids.len() ==> seen.contains(#[trigger] ids[j]) || visit_all(
                kids,
                size,
                ids,
                bound,
                seen,
            ).contains(ids[j]),
    decreases bound, 0nat, ids.len(),
{
    if ids.len() > 0 {
        let first = visit(kids, size, ids[0], seen);
        let seen2 = seen + first.to_set();
        let tail = ids.drop_first();
        lemma_visit(kids, size, ids[0], seen);
        lemma_visit_closed(kids, size, ids[0], seen);
        assert forall|k: int| 0 <= k < tail.len() implies #[trigger] tail[k] < bound by {
            assert(tail[k] == ids[k + 1]);
        }
        lemma_visit_all_closed(kids, size, tail, bound, seen2);
        let rest = visit_all(kids, size, tail, bound, seen2);
        let out = first + rest;
        assert forall|k: int, j: int|
            0 <= k < out.len() && 0 <= j < kids(out[k]).len() implies seen.contains(
            #[trigger] kids(out[k])[j],
        ) || out.subrange(0, k).contains(kids(out[k])[j]) by {
            let o = kids(out[k])[j];
            if k < first.len() {
                assert(out[k] == first[k]);
                assert(kids(first[k])[j] == o);
                if first.subrange(0, k).contains(o) {
                    let i = choose|i: int| 0 <= i < k && first.subrange(0, k)[i] == o;
                    assert(out.subrange(0, k)[i] == o);
                }
            } else {
                let kk = k - first.len();
                assert(out[k] == rest[kk]);
                assert(kids(rest[kk])[j] == o);
                if first.to_set().contains(o) {
                    let i = choose|i: int| 0 <= i < first.len() && first[i] == o;
                    assert(out.subrange(0, k)[i] == o);
                } else if rest.subrange(0, kk).contains(o) {
                    let i = choose|i: int| 0 <= i < kk && rest.subrange(0, kk)[i] == o;
                    assert(out.subrange(0, k)[i + first.len()] == o);
                }
            }
        }
        assert forall|j: int| 0 <= j < ids.len() implies seen.contains(#[trigger] ids[j])
            || out.contains(ids[j]) by {
            if j == 0 {
                if !seen.contains(ids[0]) {
                    assert(out[first.len() - 1] == ids[0]);
                }
            } else {
                assert(tail[j - 1] == ids[j]);
                if first.to_set().contains(ids[j]) {
                    let i = choose|i: int| 0 <= i < first.len() && first[i] == ids[j];
                    assert(out[i] == ids[j]);
                } else if rest.contains(ids[j]) {
                    let i = choose|i: int| 0 <= i < rest.len() && rest[i] == ids[j];
                    assert(out[i + first.len()] == ids[j]);
                }
            }
        }
    }
}

/// Running pending traversals from `ids` emits what `visit_all` does, then
/// what the stack beneath them emits.
pub proof fn lemma_run_pending(
    kids: spec_fn(Id) -> Seq<Id>,
    size: nat,
    base: Seq<(Id, bool)>,
    ids: Seq<Id>,
    bound: Id,
    seen: Set<Id>,
)
    requires
        forall|k: int| 0 <= k < ids.len() ==> #[trigger] ids[k] < bound,
    ensures
        run(kids, size, base + pending(ids), seen) == visit_all(kids, size, ids, bound, seen) + run(
            kids,
            size,
            base,
            seen + visit_all(kids, size, ids, bound, seen).to_set(),
        ),
    decreases ids.len(),
{
    if ids.len() == 0 {
        assert(base + pending(ids) =~= base);
        assert(seen + Seq::<Id>::empty().to_set() =~= seen);
        assert(visit_all(kids, size, ids, bound, seen) + run(kids, size, base, seen) =~= run(kids, size, base, seen));
    } else {
        let tail = ids.drop_first();
        assert forall|k: int| 0 <= k < tail.len() implies #[trigger] tail[k] < bound by {
            assert(tail[k] == ids[k + 1]);
        }
        let first = visit(kids, size, ids[0], seen);
        let seen2 = seen + first.to_set();
        lemma_run_pending(kids, size, base, tail, bound, seen2);
        let stack = base + pending(ids);
        assert(stack.drop_last() =~= base + pending(tail));
        assert(stack.last() == (ids[0], false));
        let rest = visit_all(kids, size, tail, bound, seen2);
        lemma_to_set_add(first, rest);
        assert(seen2 + rest.to_set() =~= seen + (first + rest).to_set());
        assert(first + (rest + run(kids, size, base, seen2 + rest.to_set())) =~= (first + rest) + run(
            kids,
            size,
            base,
            seen2 + rest.to_set(),
        ));
    }
}


pub proof fn lemma_index_of_unique<T>(s: Seq<T>, i: int)
    requires
        s.no_duplicates(),
        0 <= i < s.len(),
    ensures
        s.index_of(s[i]) == i,
{
    assert(s.contains(s[i]));
}

/// A sequence of distinct ids below `n` has at most `n` entries.
pub proof fn lemma_distinct_below(s: Seq<Id>, n: int)
    requires
        s.no_duplicates(),
        0 <= n <= u32::MAX as int + 1,
        forall|k: int| 0 <= k < s.len() ==> #[trigger] s[k] < n,
    ensures
        s.len() <= n,
    decreases n,
{
    if s.len() > 0 {
        assert(s[0] < n);
        if s.contains((n - 1) as Id) {
            let p = choose|p: int| 0 <= p < s.len() && s[p] == (n - 1) as Id;
            let t = s.remove(p);
            s.remove_ensures(p);
            assert forall|k: int| 0 <= k < t.len() implies #[trigger] t[k] < n - 1 by {
                if k < p {
                    assert(t[k] == s[k]);
                } else {
                    assert(t[k] == s[k + 1]);
                }
            }
            assert forall|i: int, j: int| 0 <= i < t.len() && 0 <= j < t.len() && i != j implies t[i]
                != t[j] by {
                let si = if i < p { i } else { i + 1 };
                let sj = if j < p { j } else { j + 1 };
                assert(t[i] == s[si] && t[j] == s[sj]);
            }
            lemma_distinct_below(t, n - 1);
        } else {
            assert forall|k: int| 0 <= k < s.len() implies #[trigger] s[k] < n - 1 by {
                assert(s[k] < n);
                assert(s[k] != (n - 1) as Id);
            }
            lemma_distinct_below(s, n - 1);
        }
    }
}

/// A stamp-based scratch space reused across traversals of an expression
/// graph: a node counts as seen in a traversal only when its stamp equals
/// the current epoch, so starting a traversal needs no clearing.
pub struct Workspace {
    pub epoch: u32,
    pub seen: Vec<u32>,
    pub values: Vec<u32>,
    pub selected: Vec<u32>,
    pub todo: Vec<(u32, bool)>,
    pub order: Vec<u32>,
}

impl Workspace {
    /// The three per-node tables are equally long and no stamp lies ahead
    /// of the epoch.
    pub open spec fn well_formed(&self) -> bool {
        &&& self.seen@.len() == self.values@.len()
        &&& self.values@.len() == self.selected@.len()
        &&& forall|i: int| 0 <= i < self.seen@.len() ==> #[trigger] self.seen@[i] <= self.epoch
    }

    /// An empty workspace.
    pub fn new() -> (r: Workspace)
        ensures
            r.well_formed(),
            r.epoch == 0,
            r.seen@.len() == 0,
            r.todo@.len() == 0,
            r.order@.len() == 0,
    {
        Workspace {
            epoch: 0,
            seen: Vec::new(),
            values: Vec::new(),
            selected: Vec::new(),
            todo: Vec::new(),
            order: Vec::new(),
        }
    }

    /// Starts a traversal of a graph with `size` nodes: advances the epoch
    /// (clearing every stamp when it wraps to zero, and then using one),
    /// grows the tables to cover every node, and empties the work lists.
    /// No stamp equals the new epoch afterwards, so no node counts as seen.
    pub fn begin(&mut self, size: usize)
        requires
            old(self).well_formed(),
        ensures
            final(self).well_formed(),
            final(self).epoch == if old(self).epoch == u32::MAX {
                1
            } else {
                (old(self).epoch + 1) as u32
            },
            final(self).seen@.len() == if old(self).seen@.len() < size {
                size as int
            } else {
                old(self).seen@.len() as int
            },
            forall|i: int|
                0 <= i < final(self).seen@.len() ==> #[trigger] final(self).seen@[i] < final(self).epoch,
            forall|i: int|
                0 <= i < final(self).seen@.len() ==> #[trigger] final(self).seen@[i] == if old(self).epoch == u32::MAX || i >= old(self).seen@.len() {
                    0
                } else {
                    old(self).seen@[i]
                },
            old(self).seen@.len() < size ==> final(self).values@ == old(self).values@ + Seq::new(
                (size - old(self).values@.len()) as nat,
                |i: int| 0u32,
            ),
            old(self).seen@.len() < size ==> final(self).selected@ == old(self).selected@
                + Seq::new((size - old(self).selected@.len()) as nat, |i: int| u32::MAX),
            old(self).seen@.len() >= size ==> final(self).values@ == old(self).values@,
            old(self).seen@.len() >= size ==> final(self).selected@ == old(self).selected@,
            final(self).todo@.len() == 0,
            final(self).order@.len() == 0,
    {
        self.epoch = self.epoch.wrapping_add(1);
        assert(self.epoch == 0 <==> old(self).epoch == u32::MAX);
        assert(self.epoch != 0 ==> self.epoch == old(self).epoch + 1);
        if self.epoch == 0 {
            let mut i: usize = 0;
            while i < self.seen.len()
                invariant
                    i <= self.seen@.len(),
                    self.seen@.len() == old(self).seen@.len(),
                    self.values@ == old(self).values@,
                    self.selected@ == old(self).selected@,
                    self.epoch == 0,
                    forall|j: int| 0 <= j < i ==> #[trigger] self.seen@[j] == 0,
                decreases self.seen@.len() - i,
            {
                self.seen.set(i, 0);
                i = i + 1;
            }
            self.epoch = 1;
        }
        let ghost stamps = self.seen@;
        assert(stamps.len() == old(self).seen@.len());
        assert(forall|i: int| 0 <= i < stamps.len() ==> #[trigger] stamps[i] == if old(self).epoch
            == u32::MAX {
            0
        } else {
            old(self).seen@[i]
        });
        if self.seen.len() < size {
            self.seen.resize(size, 0);
            self.values.resize(size, 0);
            self.selected.resize(size, u32::MAX);
            assert forall|i: int| old(self).values@.len() <= i < size implies self.values@[i] == 0u32
                && self.selected@[i] == u32::MAX && self.seen@[i] == 0u32 by {
                assert(cloned::<u32>(0u32, self.values@[i]));
                assert(cloned::<u32>(u32::MAX, self.selected@[i]));
                assert(cloned::<u32>(0u32, self.seen@[i]));
            }
            assert forall|i: int| 0 <= i < stamps.len() implies self.seen@[i] == stamps[i] by {
                assert(self.seen@.subrange(0, stamps.len() as int)[i] == stamps[i]);
            }
            assert(self.values@ =~= old(self).values@ + Seq::new(
                (size - old(self).values@.len()) as nat,
                |i: int| 0u32,
            ));
            assert(self.selected@ =~= old(self).selected@ + Seq::new(
                (size - old(self).selected@.len()) as nat,
                |i: int| u32::MAX,
            ));
        }
        assert forall|i: int| 0 <= i < self.seen@.len() implies #[trigger] self.seen@[i] == if old(
            self,
        ).epoch == u32::MAX || i >= old(self).seen@.len() {
            0
        } else {
            old(self).seen@[i]
        } by {
            if i < stamps.len() {
                assert(self.seen@[i] == stamps[i]);
            } else {
                assert(self.seen@[i] == 0);
            }
        }
        assert forall|i: int| 0 <= i < self.seen@.len() implies #[trigger] self.seen@[i]
            < self.epoch by {
            if old(self).epoch != u32::MAX && i < old(self).seen@.len() {
                assert(old(self).seen@[i] <= old(self).epoch);
            }
        }
        self.todo.clear();
        self.order.clear();
    }
}


} // verus!
