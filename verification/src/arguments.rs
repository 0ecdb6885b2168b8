//! The order in which a call shows its arguments: the parameters that the
//! called lambda declares come first, in declaration order; the other
//! fields follow, named ones by name and then by cell, unnamed ones last by
//! cell. Each argument is placed once, whatever order the record holds.
use crate::grap::{definitions_data, function_parameters, spec_function_parameters, Definition};
use crate::value::{
    field, fields_data, get, lemma_field_at, lemma_field_none, sorted, CellId, Data, Value,
};
use crate::vocabulary::FUNCTION;
use vstd::prelude::*;
use vstd::seq_lib::{
    to_multiset_build, to_multiset_contains, to_multiset_insert, to_multiset_len, to_multiset_remove,
};

verus! {

/// The outcome of comparing two values.
#[derive(Clone, Copy, Debug, PartialEq, Eq, Structural)]
pub enum Comparison {
    Less,
    Equal,
    Greater,
}

/// `left` comes before `right` in the order of their characters' code
/// points, a proper prefix first. This is the order in which `str` compares,
/// since UTF-8 keeps the order of code points byte by byte.
pub open spec fn text_before(left: Seq<char>, right: Seq<char>) -> bool
    decreases left.len(),
{
    if right.len() == 0 {
        false
    } else if left.len() == 0 {
        true
    } else if left[0] != right[0] {
        (left[0] as int) < (right[0] as int)
    } else {
        text_before(left.drop_first(), right.drop_first())
    }
}

/// No text comes before itself or before a text that comes before it.
pub proof fn lemma_text_asymmetric(left: Seq<char>, right: Seq<char>)
    ensures
        !(text_before(left, right) && text_before(right, left)),
    decreases left.len(),
{
    if left.len() > 0 && right.len() > 0 && left[0] == right[0] {
        lemma_text_asymmetric(left.drop_first(), right.drop_first());
    }
}

/// Of two different texts, one comes before the other.
pub proof fn lemma_text_total(left: Seq<char>, right: Seq<char>)
    requires
        left != right,
    ensures
        text_before(left, right) || text_before(right, left),
    decreases left.len(),
{
    if left.len() == 0 && right.len() == 0 {
        assert(left =~= right);
    } else if left.len() > 0 && right.len() > 0 && left[0] == right[0] {
        if left.drop_first() == right.drop_first() {
            assert(left.len() == right.drop_first().len() + 1);
            assert(left =~= right) by {
                assert forall|i: int| 0 <= i < left.len() implies left[i] == right[i] by {
                    if i > 0 {
                        assert(left[i] == left.drop_first()[i - 1]);
                        assert(right[i] == right.drop_first()[i - 1]);
                    }
                }
            }
        }
        lemma_text_total(left.drop_first(), right.drop_first());
    } else if left.len() > 0 && right.len() > 0 {
        assert((left[0] as int) != (right[0] as int));
    }
}

/// The order of texts is transitive.
pub proof fn lemma_text_transitive(first: Seq<char>, second: Seq<char>, third: Seq<char>)
    requires
        text_before(first, second),
        text_before(second, third),
    ensures
        text_before(first, third),
    decreases first.len(),
{
    if first.len() > 0 && second.len() > 0 && third.len() > 0 && first[0] == second[0]
        && second[0] == third[0] {
        lemma_text_transitive(first.drop_first(), second.drop_first(), third.drop_first());
    }
}

/// Compares two texts in the order of their characters' code points.
pub fn compare_text(left: &str, right: &str) -> (r: Comparison)
    ensures
        (r == Comparison::Less) == text_before(left@, right@),
        (r == Comparison::Equal) == (left@ == right@),
        (r == Comparison::Greater) == text_before(right@, left@),
{
    let left_len = left.unicode_len();
    let right_len = right.unicode_len();
    let mut i: usize = 0;
    proof {
        assert(left@.skip(0) =~= left@);
        assert(right@.skip(0) =~= right@);
    }
    while i < left_len && i < right_len
        invariant
            left_len == left@.len(),
            right_len == right@.len(),
            i <= left_len,
            i <= right_len,
            left@.take(i as int) == right@.take(i as int),
            text_before(left@, right@) == text_before(left@.skip(i as int), right@.skip(i as int)),
            text_before(right@, left@) == text_before(right@.skip(i as int), left@.skip(i as int)),
        decreases left_len - i,
    {
        let a = left.get_char(i);
        let b = right.get_char(i);
        if a != b {
            proof {
                assert(left@.skip(i as int)[0] == a);
                assert(right@.skip(i as int)[0] == b);
            }
            if a < b {
                return Comparison::Less;
            } else {
                return Comparison::Greater;
            }
        }
        proof {
            assert(left@.skip(i as int).drop_first() =~= left@.skip(i + 1));
            assert(right@.skip(i as int).drop_first() =~= right@.skip(i + 1));
            assert(left@.take(i + 1) =~= left@.take(i as int).push(a));
            assert(right@.take(i + 1) =~= right@.take(i as int).push(b));
        }
        i = i + 1;
    }
    if i < right_len {
        proof {
            assert(left@.take(i as int) =~= left@);
        }
        Comparison::Less
    } else if i < left_len {
        proof {
            assert(right@.take(i as int) =~= right@);
        }
        Comparison::Greater
    } else {
        proof {
            assert(left@.take(i as int) =~= left@);
            assert(right@.take(i as int) =~= right@);
        }
        Comparison::Equal
    }
}

/// Where a cell first occurs in a sequence of cells.
pub open spec fn first_position(cells: Seq<CellId>, cell: CellId) -> Option<int>
    decreases cells.len(),
{
    if cells.len() == 0 {
        None
    } else if cells[0] == cell {
        Some(0)
    } else {
        match first_position(cells.drop_first(), cell) {
            Some(i) => Some(i + 1),
            None => None,
        }
    }
}

proof fn lemma_first_position(cells: Seq<CellId>, cell: CellId)
    ensures
        match first_position(cells, cell) {
            Some(i) => 0 <= i < cells.len() && cells[i] == cell && forall|j: int|
                0 <= j < i ==> cells[j] != cell,
            None => forall|j: int| 0 <= j < cells.len() ==> cells[j] != cell,
        },
    decreases cells.len(),
{
    if cells.len() > 0 && cells[0] != cell {
        lemma_first_position(cells.drop_first(), cell);
        let rest = cells.drop_first();
        assert forall|j: int| 0 < j < cells.len() implies cells[j] == rest[j - 1] by {}
    }
}

/// The model of a table of names.
pub open spec fn names_data(names: Seq<(CellId, String)>) -> Seq<(CellId, Seq<char>)> {
    names.map_values(|entry: (CellId, String)| (entry.0, entry.1@))
}

/// Argument `a` is shown before argument `b`: declared parameters first,
/// in declaration order; then named fields, by name and then by cell; then
/// unnamed fields, by cell.
pub open spec fn argument_before(
    a: CellId,
    b: CellId,
    parameters: Seq<CellId>,
    names: Seq<(CellId, Seq<char>)>,
) -> bool {
    match (first_position(parameters, a), first_position(parameters, b)) {
        (Some(i), Some(j)) => i < j,
        (Some(_), None) => true,
        (None, Some(_)) => false,
        (None, None) => match (field(names, a), field(names, b)) {
            (Some(x), Some(y)) => text_before(x, y) || (x == y && a < b),
            (Some(_), None) => true,
            (None, Some(_)) => false,
            (None, None) => a < b,
        },
    }
}

/// No argument comes before itself or before one that comes before it.
pub proof fn lemma_argument_asymmetric(
    a: CellId,
    b: CellId,
    parameters: Seq<CellId>,
    names: Seq<(CellId, Seq<char>)>,
)
    ensures
        !(argument_before(a, b, parameters, names) && argument_before(b, a, parameters, names)),
{
    if let (Some(x), Some(y)) = (field(names, a), field(names, b)) {
        lemma_text_asymmetric(x, y);
    }
}

/// Of two different arguments, one comes before the other.
pub proof fn lemma_argument_total(
    a: CellId,
    b: CellId,
    parameters: Seq<CellId>,
    names: Seq<(CellId, Seq<char>)>,
)
    requires
        a != b,
    ensures
        argument_before(a, b, parameters, names) || argument_before(b, a, parameters, names),
{
    lemma_first_position(parameters, a);
    lemma_first_position(parameters, b);
    if let (Some(x), Some(y)) = (field(names, a), field(names, b)) {
        if x != y {
            lemma_text_total(x, y);
        }
    }
}

/// The order of arguments is transitive.
pub proof fn lemma_argument_transitive(
    a: CellId,
    b: CellId,
    c: CellId,
    parameters: Seq<CellId>,
    names: Seq<(CellId, Seq<char>)>,
)
    requires
        argument_before(a, b, parameters, names),
        argument_before(b, c, parameters, names),
    ensures
        argument_before(a, c, parameters, names),
{
    if let (Some(x), Some(y), Some(z)) = (field(names, a), field(names, b), field(names, c)) {
        if text_before(x, y) && text_before(y, z) {
            lemma_text_transitive(x, y, z);
        }
    }
}

/// Where a cell first occurs among the parameters.
fn position_of(parameters: &Vec<CellId>, cell: CellId) -> (r: Option<usize>)
    ensures
        match r {
            Some(i) => first_position(parameters@, cell) == Some(i as int),
            None => first_position(parameters@, cell) is None,
        },
{
    proof {
        lemma_first_position(parameters@, cell);
    }
    let mut i: usize = 0;
    while i < parameters.len()
        invariant
            i <= parameters@.len(),
            forall|j: int| 0 <= j < i ==> parameters@[j] != cell,
            match first_position(parameters@, cell) {
                Some(k) => 0 <= k < parameters@.len() && parameters@[k] == cell && forall|j: int|
                    0 <= j < k ==> parameters@[j] != cell,
                None => forall|j: int| 0 <= j < parameters@.len() ==> parameters@[j] != cell,
            },
        decreases parameters@.len() - i,
    {
        if parameters[i] == cell {
            return Some(i);
        }
        i = i + 1;
    }
    None
}

/// The name a table gives a cell.
pub(crate) fn name_of(names: &Vec<(CellId, String)>, cell: CellId) -> (r: Option<&String>)
    ensures
        match r {
            Some(name) => field(names_data(names@), cell) == Some(name@),
            None => field(names_data(names@), cell) is None,
        },
{
    let ghost data = names_data(names@);
    let mut i: usize = 0;
    while i < names.len()
        invariant
            i <= names@.len(),
            data == names_data(names@),
            forall|j: int| 0 <= j < i ==> data[j].0 != cell,
        decreases names@.len() - i,
    {
        if names[i].0 == cell {
            proof {
                lemma_field_at(data, cell, i as int);
            }
            return Some(&names[i].1);
        }
        i = i + 1;
    }
    proof {
        lemma_field_none(data, cell);
    }
    None
}

/// Whether argument `a` is shown before argument `b`.
pub fn precedes(
    a: CellId,
    b: CellId,
    parameters: &Vec<CellId>,
    names: &Vec<(CellId, String)>,
) -> (r: bool)
    ensures
        r == argument_before(a, b, parameters@, names_data(names@)),
{
    match (position_of(parameters, a), position_of(parameters, b)) {
        (Some(i), Some(j)) => i < j,
        (Some(_), None) => true,
        (None, Some(_)) => false,
        (None, None) => match (name_of(names, a), name_of(names, b)) {
            (Some(x), Some(y)) => match compare_text(x.as_str(), y.as_str()) {
                Comparison::Less => true,
                Comparison::Equal => a < b,
                Comparison::Greater => false,
            },
            (Some(_), None) => true,
            (None, Some(_)) => false,
            (None, None) => a < b,
        },
    }
}

/// The arguments listed in the order they are shown.
pub open spec fn arranged(
    order: Seq<CellId>,
    parameters: Seq<CellId>,
    names: Seq<(CellId, Seq<char>)>,
) -> bool {
    forall|i: int, j: int|
        0 <= i < j < order.len() ==> argument_before(order[i], order[j], parameters, names)
}

/// The cells of `keys` other than the function.
pub open spec fn arguments_of(keys: Seq<CellId>) -> Seq<CellId> {
    keys.filter(|key: CellId| key != FUNCTION)
}

/// The keys of a record's fields, in the order the record holds them.
pub open spec fn keys_of(fields: Seq<(CellId, Data)>) -> Seq<CellId> {
    fields.map_values(|entry: (CellId, Data)| entry.0)
}

/// The parameters that a call's function declares: none where the function
/// is missing, native, or declares none.
pub open spec fn declared(fields: Seq<(CellId, Data)>, table: Seq<(CellId, (bool, Data))>) -> Seq<
    CellId,
> {
    match field(fields, FUNCTION) {
        Some(function) => match spec_function_parameters(function, table) {
            Some(parameters) => parameters,
            None => Seq::empty(),
        },
        None => Seq::empty(),
    }
}

/// Arranges the cells of `keys` other than the function in the order in
/// which a call shows them.
pub fn arrange(keys: &Vec<CellId>, parameters: &Vec<CellId>, names: &Vec<(CellId, String)>) -> (r:
    Vec<CellId>)
    requires
        keys@.no_duplicates(),
    ensures
        arranged(r@, parameters@, names_data(names@)),
        r@.to_multiset() == arguments_of(keys@).to_multiset(),
{
    let ghost p = parameters@;
    let ghost n = names_data(names@);
    let mut order: Vec<CellId> = Vec::new();
    let mut i: usize = 0;
    proof {
        reveal(Seq::filter);
        assert(keys@.take(0) =~= Seq::<CellId>::empty());
        assert(order@ =~= Seq::<CellId>::empty());
        assert(arguments_of(keys@.take(0)) =~= Seq::<CellId>::empty());
    }
    while i < keys.len()
        invariant
            i <= keys@.len(),
            keys@.no_duplicates(),
            p == parameters@,
            n == names_data(names@),
            arranged(order@, p, n),
            order@.to_multiset() == arguments_of(keys@.take(i as int)).to_multiset(),
            forall|q: int| 0 <= q < order@.len() ==> exists|j: int| 0 <= j < i && keys@[j] == #[trigger] order@[q],
        decreases keys@.len() - i,
    {
        let key = keys[i];
        proof {
            reveal(Seq::filter);
            assert(keys@.take(i + 1).drop_last() =~= keys@.take(i as int));
            assert(keys@.take(i + 1).last() == key);
        }
        if key != FUNCTION {
            let mut q: usize = 0;
            while q < order.len() && !precedes(key, order[q], parameters, names)
                invariant
                    q <= order@.len(),
                    p == parameters@,
                    n == names_data(names@),
                    forall|t: int| 0 <= t < q ==> !argument_before(key, #[trigger] order@[t], p, n),
                decreases order@.len() - q,
            {
                q = q + 1;
            }
            let ghost before = order@;
            proof {
                assert forall|t: int| 0 <= t < before.len() implies before[t] != key by {
                    let j = choose|j: int| 0 <= j < i && keys@[j] == before[t];
                    assert(keys@[j] != keys@[i as int]);
                }
            }
            order.insert(q, key);
            proof {
                to_multiset_insert(before, q as int, key);
                to_multiset_build(arguments_of(keys@.take(i as int)), key);
                assert(arguments_of(keys@.take(i + 1)) == arguments_of(keys@.take(i as int)).push(key));
                assert forall|t1: int, t2: int| 0 <= t1 < t2 < order@.len() implies argument_before(
                    order@[t1],
                    order@[t2],
                    p,
                    n,
                ) by {
                    if t2 < q {
                        assert(order@[t1] == before[t1] && order@[t2] == before[t2]);
                    } else if t2 == q {
                        assert(order@[t1] == before[t1]);
                        lemma_argument_total(key, before[t1], p, n);
                    } else if t1 > q {
                        assert(order@[t1] == before[t1 - 1] && order@[t2] == before[t2 - 1]);
                    } else if t1 == q {
                        assert(order@[t2] == before[t2 - 1]);
                        if t2 - 1 > q {
                            lemma_argument_transitive(key, before[q as int], before[t2 - 1], p, n);
                        }
                    } else {
                        assert(order@[t1] == before[t1] && order@[t2] == before[t2 - 1]);
                    }
                }
                assert forall|t: int| 0 <= t < order@.len() implies exists|j: int|
                    0 <= j < i + 1 && keys@[j] == #[trigger] order@[t] by {
                    if t < q {
                        assert(order@[t] == before[t]);
                    } else if t == q {
                        assert(keys@[i as int] == order@[t]);
                    } else {
                        assert(order@[t] == before[t - 1]);
                    }
                }
            }
        } else {
            proof {
                assert(arguments_of(keys@.take(i + 1)) == arguments_of(keys@.take(i as int)));
            }
        }
        i = i + 1;
    }
    proof {
        assert(keys@.take(keys@.len() as int) =~= keys@);
    }
    order
}

/// The order in which a call shows its arguments: none for a record without
/// a function; otherwise every field but the function, arranged by the
/// parameters that the function declares and by the table of names.
pub fn argument_order(
    call: &Vec<(CellId, Value)>,
    table: &Vec<(CellId, Definition)>,
    names: &Vec<(CellId, String)>,
) -> (r: Option<Vec<CellId>>)
    requires
        sorted(fields_data(call@)),
    ensures
        r is None <==> field(fields_data(call@), FUNCTION) is None,
        r matches Some(order) ==> {
            &&& arranged(
                order@,
                declared(fields_data(call@), definitions_data(table@)),
                names_data(names@),
            )
            &&& order@.to_multiset() == arguments_of(keys_of(fields_data(call@))).to_multiset()
        },
{
    let function = match get(call, FUNCTION) {
        Some(function) => function,
        None => {
            return None;
        },
    };
    let parameters = match function_parameters(function, table) {
        Some(parameters) => parameters,
        None => Vec::new(),
    };
    let ghost fields = fields_data(call@);
    let mut keys: Vec<CellId> = Vec::new();
    let mut i: usize = 0;
    while i < call.len()
        invariant
            i <= call@.len(),
            fields == fields_data(call@),
            keys@ == keys_of(fields).take(i as int),
        decreases call@.len() - i,
    {
        keys.push(call[i].0);
        proof {
            assert(keys@ =~= keys_of(fields).take(i + 1));
        }
        i = i + 1;
    }
    proof {
        assert(keys@ =~= keys_of(fields));
        assert(parameters@ == declared(fields, definitions_data(table@)));
        assert forall|a: int, b: int| 0 <= a < b < keys@.len() implies keys@[a] != keys@[b] by {
            assert(fields[a].0 < fields[b].0);
        }
    }
    Some(arrange(&keys, &parameters, names))
}

/// The order is determined by the arguments alone: two arrangements of the
/// same arguments are the same sequence.
pub proof fn lemma_arrangement_unique(
    first: Seq<CellId>,
    second: Seq<CellId>,
    parameters: Seq<CellId>,
    names: Seq<(CellId, Seq<char>)>,
)
    requires
        arranged(first, parameters, names),
        arranged(second, parameters, names),
        first.to_multiset() == second.to_multiset(),
    ensures
        first == second,
    decreases first.len(),
{
    to_multiset_len(first);
    to_multiset_len(second);
    if first.len() == 0 {
        assert(second.len() == 0);
        assert(first =~= second);
    } else {
        assert(second.len() == first.len());
        let x = first[0];
        let y = second[0];
        assert(first.contains(x));
        assert(second.contains(y));
        to_multiset_contains(first, x);
        to_multiset_contains(second, x);
        to_multiset_contains(first, y);
        to_multiset_contains(second, y);
        let i = choose|i: int| 0 <= i < second.len() && second[i] == x;
        let j = choose|j: int| 0 <= j < first.len() && first[j] == y;
        if x != y {
            assert(i > 0 && j > 0);
            lemma_argument_asymmetric(x, y, parameters, names);
        }
        assert(first.remove(0) =~= first.drop_first());
        assert(second.remove(0) =~= second.drop_first());
        to_multiset_remove(first, 0);
        to_multiset_remove(second, 0);
        lemma_arrangement_unique(first.drop_first(), second.drop_first(), parameters, names);
        assert(first =~= second) by {
            assert forall|k: int| 0 <= k < first.len() implies first[k] == second[k] by {
                if k > 0 {
                    assert(first[k] == first.drop_first()[k - 1]);
                    assert(second[k] == second.drop_first()[k - 1]);
                }
            }
        }
    }
}

} // verus!
