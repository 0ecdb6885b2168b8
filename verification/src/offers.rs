//! The order in which completion offers the bindings visible at a path: the
//! nearest scope first, then by name ignoring case, then by name, and cells
//! of the same name in cell order. A query that opens a string offers no
//! binding.
use crate::arguments::{
    compare_text, lemma_text_asymmetric, lemma_text_total, lemma_text_transitive, name_of,
    names_data, text_before, Comparison,
};
use crate::color::{trim, trimmed};
use crate::value::{field, get, CellId, Data, Value};
use crate::vocabulary::FUNCTION;
use std::collections::BTreeMap;
use vstd::prelude::*;
use vstd::seq_lib::{to_multiset_build, to_multiset_contains, to_multiset_insert};
use vstd::std_specs::btree::spec_keys_iter;
use vstd::std_specs::iter::IteratorSpec;

verus! {

broadcast use vstd::std_specs::btree::group_btree_axioms;

/// What `str::to_lowercase` gives for a text: each character replaced by
/// its Unicode lowercase mapping.
pub uninterp spec fn lowercased(text: Seq<char>) -> Seq<char>;

/// Calls `str::to_lowercase`, whose result depends on the text alone.
#[verifier::external_body]
fn lowercase(text: &str) -> (r: String)
    ensures
        r@ == lowercased(text@),
{
    text.to_lowercase()
}

/// The name a table gives a cell, or the empty text.
pub open spec fn name_or_empty(names: Seq<(CellId, Seq<char>)>, cell: CellId) -> Seq<char> {
    match field(names, cell) {
        Some(name) => name,
        None => Seq::empty(),
    }
}

/// Offers in the order of their keys: deeper first, then by lowercased
/// name, then by name, then by cell.
pub open spec fn key_before(
    a: (CellId, usize, Seq<char>, Seq<char>),
    b: (CellId, usize, Seq<char>, Seq<char>),
) -> bool {
    ||| a.1 > b.1
    ||| a.1 == b.1 && text_before(a.2, b.2)
    ||| a.1 == b.1 && a.2 == b.2 && text_before(a.3, b.3)
    ||| a.1 == b.1 && a.2 == b.2 && a.3 == b.3 && a.0 < b.0
}

/// The key by which a binding is offered.
pub open spec fn offer_key(
    cell: CellId,
    depths: Map<CellId, usize>,
    names: Seq<(CellId, Seq<char>)>,
) -> (CellId, usize, Seq<char>, Seq<char>) {
    (cell, depths[cell], lowercased(name_or_empty(names, cell)), name_or_empty(names, cell))
}

/// Binding `a` is offered before binding `b`.
pub open spec fn offered_before(
    a: CellId,
    b: CellId,
    depths: Map<CellId, usize>,
    names: Seq<(CellId, Seq<char>)>,
) -> bool {
    key_before(offer_key(a, depths, names), offer_key(b, depths, names))
}

/// Bindings listed in the order they are offered.
pub open spec fn offered(
    order: Seq<CellId>,
    depths: Map<CellId, usize>,
    names: Seq<(CellId, Seq<char>)>,
) -> bool {
    forall|i: int, j: int|
        0 <= i < j < order.len() ==> offered_before(order[i], order[j], depths, names)
}

proof fn lemma_key_asymmetric(
    a: (CellId, usize, Seq<char>, Seq<char>),
    b: (CellId, usize, Seq<char>, Seq<char>),
)
    ensures
        !(key_before(a, b) && key_before(b, a)),
{
    lemma_text_asymmetric(a.2, b.2);
    lemma_text_asymmetric(a.3, b.3);
}

proof fn lemma_key_total(
    a: (CellId, usize, Seq<char>, Seq<char>),
    b: (CellId, usize, Seq<char>, Seq<char>),
)
    requires
        a.0 != b.0,
    ensures
        key_before(a, b) || key_before(b, a),
{
    if a.2 != b.2 {
        lemma_text_total(a.2, b.2);
    }
    if a.3 != b.3 {
        lemma_text_total(a.3, b.3);
    }
}

proof fn lemma_key_transitive(
    a: (CellId, usize, Seq<char>, Seq<char>),
    b: (CellId, usize, Seq<char>, Seq<char>),
    c: (CellId, usize, Seq<char>, Seq<char>),
)
    requires
        key_before(a, b),
        key_before(b, c),
    ensures
        key_before(a, c),
{
    if text_before(a.2, b.2) && text_before(b.2, c.2) {
        lemma_text_transitive(a.2, b.2, c.2);
    }
    if text_before(a.3, b.3) && text_before(b.3, c.3) {
        lemma_text_transitive(a.3, b.3, c.3);
    }
}

/// No binding is offered before itself or before one offered before it.
pub proof fn lemma_offered_asymmetric(
    a: CellId,
    b: CellId,
    depths: Map<CellId, usize>,
    names: Seq<(CellId, Seq<char>)>,
)
    ensures
        !(offered_before(a, b, depths, names) && offered_before(b, a, depths, names)),
{
    lemma_key_asymmetric(offer_key(a, depths, names), offer_key(b, depths, names));
}

/// Of two different bindings, one is offered before the other.
pub proof fn lemma_offered_total(
    a: CellId,
    b: CellId,
    depths: Map<CellId, usize>,
    names: Seq<(CellId, Seq<char>)>,
)
    requires
        a != b,
    ensures
        offered_before(a, b, depths, names) || offered_before(b, a, depths, names),
{
    lemma_key_total(offer_key(a, depths, names), offer_key(b, depths, names));
}

/// The order of offers is transitive.
pub proof fn lemma_offered_transitive(
    a: CellId,
    b: CellId,
    c: CellId,
    depths: Map<CellId, usize>,
    names: Seq<(CellId, Seq<char>)>,
)
    requires
        offered_before(a, b, depths, names),
        offered_before(b, c, depths, names),
    ensures
        offered_before(a, c, depths, names),
{
    lemma_key_transitive(
        offer_key(a, depths, names),
        offer_key(b, depths, names),
        offer_key(c, depths, names),
    );
}

/// The order of offers is determined by the bindings alone: two offer
/// orders of the same bindings, each listing every binding once, are the
/// same sequence.
pub proof fn lemma_offers_unique(
    first: Seq<CellId>,
    second: Seq<CellId>,
    depths: Map<CellId, usize>,
    names: Seq<(CellId, Seq<char>)>,
)
    requires
        offered(first, depths, names),
        offered(second, depths, names),
        first.no_duplicates(),
        second.no_duplicates(),
        first.to_set() == second.to_set(),
    ensures
        first == second,
    decreases first.len(),
{
    first.unique_seq_to_set();
    second.unique_seq_to_set();
    if first.len() == 0 {
        assert(first =~= second);
    } else {
        let x = first[0];
        let y = second[0];
        assert(first.to_set().contains(x));
        assert(second.to_set().contains(y));
        let i = choose|i: int| 0 <= i < second.len() && second[i] == x;
        let j = choose|j: int| 0 <= j < first.len() && first[j] == y;
        if x != y {
            assert(i > 0 && j > 0);
            lemma_offered_asymmetric(x, y, depths, names);
        }
        let rest_first = first.drop_first();
        let rest_second = second.drop_first();
        assert(rest_first.to_set() =~= rest_second.to_set()) by {
            assert forall|c: CellId| rest_first.contains(c) <==> rest_second.contains(c) by {
                if rest_first.contains(c) {
                    let k = choose|k: int| 0 <= k < rest_first.len() && rest_first[k] == c;
                    assert(first[k + 1] == c && c != x);
                    assert(first.to_set().contains(c));
                    let m = choose|m: int| 0 <= m < second.len() && second[m] == c;
                    assert(m != 0);
                    assert(rest_second[m - 1] == c);
                }
                if rest_second.contains(c) {
                    let k = choose|k: int| 0 <= k < rest_second.len() && rest_second[k] == c;
                    assert(second[k + 1] == c && c != y);
                    assert(second.to_set().contains(c));
                    let m = choose|m: int| 0 <= m < first.len() && first[m] == c;
                    assert(m != 0);
                    assert(rest_first[m - 1] == c);
                }
            }
        }
        lemma_offers_unique(rest_first, rest_second, depths, names);
        assert(first =~= second) by {
            assert forall|k: int| 0 <= k < first.len() implies first[k] == second[k] by {
                if k > 0 {
                    assert(first[k] == rest_first[k - 1]);
                    assert(second[k] == rest_second[k - 1]);
                }
            }
        }
    }
}

/// The depth at which a visible binding is bound.
fn depth_of(bindings: &BTreeMap<CellId, usize>, cell: CellId) -> (r: usize)
    requires
        bindings@.contains_key(cell),
    ensures
        r == bindings@[cell],
{
    match bindings.get(&cell) {
        Some(depth) => *depth,
        None => 0,
    }
}

/// Whether binding `a` is offered before binding `b`.
pub fn offered_first(
    a: CellId,
    b: CellId,
    bindings: &BTreeMap<CellId, usize>,
    names: &Vec<(CellId, String)>,
) -> (r: bool)
    requires
        bindings@.contains_key(a),
        bindings@.contains_key(b),
    ensures
        r == offered_before(a, b, bindings@, names_data(names@)),
{
    let depth_a = depth_of(bindings, a);
    let depth_b = depth_of(bindings, b);
    if depth_a != depth_b {
        return depth_a > depth_b;
    }
    let empty = String::new();
    let name_a: &str = match name_of(names, a) {
        Some(name) => name.as_str(),
        None => empty.as_str(),
    };
    let name_b: &str = match name_of(names, b) {
        Some(name) => name.as_str(),
        None => empty.as_str(),
    };
    let folded_a = lowercase(name_a);
    let folded_b = lowercase(name_b);
    match compare_text(folded_a.as_str(), folded_b.as_str()) {
        Comparison::Less => true,
        Comparison::Greater => false,
        Comparison::Equal => match compare_text(name_a, name_b) {
            Comparison::Less => true,
            Comparison::Greater => false,
            Comparison::Equal => a < b,
        },
    }
}

/// The visible bindings in the order completion offers them.
pub fn offer_order(bindings: &BTreeMap<CellId, usize>, names: &Vec<(CellId, String)>) -> (r: Vec<
    CellId,
>)
    ensures
        offered(r@, bindings@, names_data(names@)),
        r@.no_duplicates(),
        r@.to_set() == bindings@.dom(),
{
    let ghost depths = bindings@;
    let ghost n = names_data(names@);
    let ghost cells = spec_keys_iter(bindings).remaining().unref();
    proof {
        broadcast use vstd::std_specs::btree::axiom_spec_keys_iter;
        assert(cells.to_set() == depths.dom());
        assert(cells.no_duplicates());
    }
    let mut keys: Vec<CellId> = Vec::new();
    for cell in it: bindings.keys()
        invariant
            it.seq().unref() == cells,
            0 <= it.index() <= cells.len(),
            keys@ == cells.take(it.index()),
    {
        keys.push(*cell);
        proof {
            assert(keys@ =~= cells.take(it.index() + 1));
        }
    }
    proof {
        assert(keys@ =~= cells);
        assert forall|j: int| 0 <= j < keys@.len() implies depths.contains_key(#[trigger] keys@[j]) by {
            assert(cells.to_set().contains(keys@[j]));
        }
    }
    let mut order: Vec<CellId> = Vec::new();
    let mut i: usize = 0;
    proof {
        assert(order@ =~= cells.take(0));
    }
    while i < keys.len()
        invariant
            i <= keys@.len(),
            keys@ == cells,
            cells.no_duplicates(),
            depths == bindings@,
            n == names_data(names@),
            forall|j: int| 0 <= j < keys@.len() ==> depths.contains_key(#[trigger] keys@[j]),
            offered(order@, depths, n),
            order@.to_multiset() == cells.take(i as int).to_multiset(),
            forall|q: int|
                0 <= q < order@.len() ==> exists|j: int|
                    0 <= j < i && cells[j] == #[trigger] order@[q],
        decreases keys@.len() - i,
    {
        let cell = keys[i];
        proof {
            assert forall|q2: int| 0 <= q2 < order@.len() implies depths.contains_key(
                #[trigger] order@[q2],
            ) by {
                let j = choose|j: int| 0 <= j < i && cells[j] == order@[q2];
                assert(depths.contains_key(keys@[j]));
            }
        }
        let mut q: usize = 0;
        while q < order.len() && !offered_first(cell, order[q], bindings, names)
            invariant
                q <= order@.len(),
                i < keys@.len(),
                keys@ == cells,
                cell == keys@[i as int],
                depths == bindings@,
                n == names_data(names@),
                forall|j: int| 0 <= j < keys@.len() ==> depths.contains_key(#[trigger] keys@[j]),
                forall|q2: int| 0 <= q2 < order@.len() ==> depths.contains_key(#[trigger] order@[q2]),
                forall|t: int| 0 <= t < q ==> !offered_before(cell, #[trigger] order@[t], depths, n),
            decreases order@.len() - q,
        {
            q = q + 1;
        }
        let ghost before = order@;
        proof {
            assert forall|t: int| 0 <= t < before.len() implies before[t] != cell by {
                let j = choose|j: int| 0 <= j < i && cells[j] == before[t];
                assert(cells[j] != cells[i as int]);
            }
        }
        order.insert(q, cell);
        proof {
            to_multiset_insert(before, q as int, cell);
            assert(cells.take(i + 1) =~= cells.take(i as int).push(cell));
            to_multiset_build(cells.take(i as int), cell);
            assert forall|t1: int, t2: int| 0 <= t1 < t2 < order@.len() implies offered_before(
                order@[t1],
                order@[t2],
                depths,
                n,
            ) by {
                if t2 < q {
                    assert(order@[t1] == before[t1] && order@[t2] == before[t2]);
                } else if t2 == q {
                    assert(order@[t1] == before[t1]);
                    lemma_offered_total(cell, before[t1], depths, n);
                } else if t1 > q {
                    assert(order@[t1] == before[t1 - 1] && order@[t2] == before[t2 - 1]);
                } else if t1 == q {
                    assert(order@[t2] == before[t2 - 1]);
                    if t2 - 1 > q {
                        lemma_offered_transitive(cell, before[q as int], before[t2 - 1], depths, n);
                    }
                } else {
                    assert(order@[t1] == before[t1] && order@[t2] == before[t2 - 1]);
                }
            }
            assert forall|t: int| 0 <= t < order@.len() implies exists|j: int|
                0 <= j < i + 1 && cells[j] == #[trigger] order@[t] by {
                if t < q {
                    assert(order@[t] == before[t]);
                } else if t == q {
                    assert(cells[i as int] == order@[t]);
                } else {
                    assert(order@[t] == before[t - 1]);
                }
            }
        }
        i = i + 1;
    }
    proof {
        assert(cells.take(cells.len() as int) =~= cells);
        cells.lemma_multiset_has_no_duplicates();
        assert(forall|x: CellId| order@.to_multiset().count(x) <= 1);
        order@.lemma_multiset_has_no_duplicates_conv();
        assert forall|x: CellId| order@.contains(x) <==> cells.contains(x) by {
            to_multiset_contains(order@, x);
            to_multiset_contains(cells, x);
        }
        assert(order@.to_set() =~= cells.to_set());
    }
    order
}

/// The bindings that completion offers for a query: none while the query
/// opens a string, and otherwise every visible binding, in offer order.
pub fn binding_offers(
    query: &str,
    bindings: &BTreeMap<CellId, usize>,
    names: &Vec<(CellId, String)>,
) -> (r: Vec<CellId>)
    ensures
        trimmed(query@).len() > 0 && trimmed(query@)[0] == '"' ==> r@.len() == 0,
        !(trimmed(query@).len() > 0 && trimmed(query@)[0] == '"') ==> {
            &&& offered(r@, bindings@, names_data(names@))
            &&& r@.no_duplicates()
            &&& r@.to_set() == bindings@.dom()
        },
{
    let text = trim(query);
    if text.unicode_len() > 0 && text.get_char(0) == '"' {
        Vec::new()
    } else {
        offer_order(bindings, names)
    }
}

/// An offer's value calls a binding: a record whose function is a cell
/// that is bound here. Completion leaves such offers out of the library's,
/// since the binding itself is offered.
pub open spec fn spec_calls_binding(value: Data, bindings: Map<CellId, usize>) -> bool {
    match value {
        Data::Record(fields) => match field(fields, FUNCTION) {
            Some(Data::Cell(cell)) => bindings.contains_key(cell),
            _ => false,
        },
        _ => false,
    }
}

/// Whether an offered value calls a visible binding.
pub fn calls_binding(value: &Value, bindings: &BTreeMap<CellId, usize>) -> (r: bool)
    ensures
        r == spec_calls_binding(value@, bindings@),
{
    match value.as_record() {
        Some(fields) => match get(fields, FUNCTION) {
            Some(function) => match function.as_cell() {
                Some(cell) => bindings.contains_key(&cell),
                None => false,
            },
            None => false,
        },
        None => false,
    }
}

} // verus!
