//! Source metadata of Grap callables. Parameter order is read from a stored
//! lambda or closure, following transparent cell references; nothing is
//! evaluated.
use crate::value::{
    all_cells, cells_of, field, fields_data, get, items_data, CellId, Data, Value,
};
use crate::vocabulary::{BODY, CLOSURE, NAME, PARAMS};
use std::collections::BTreeSet;
use vstd::prelude::*;

verus! {

broadcast use vstd::std_specs::btree::group_btree_axioms;

pub const ID: CellId = 0xf7735b90f6826b25c350a8fd83af8c47;

/// Source whose contents belong to the Grap domain.
pub const GRAP: CellId = 0x315ca8459cfc64a210d518da1cad79b9;

/// What a cell resolves to: its stored value, and whether the host
/// implements it natively.
pub struct Definition {
    pub native: bool,
    pub value: Value,
}

/// The model of a resolution table: each cell with its nativeness and value.
pub open spec fn definitions_data(definitions: Seq<(CellId, Definition)>) -> Seq<
    (CellId, (bool, Data)),
> {
    definitions.map_values(|d: (CellId, Definition)| (d.0, (d.1.native, d.1.value@)))
}

/// The parameters that a lambda, or the lambda of a closure, declares.
pub open spec fn spec_parameters(value: Data) -> Option<Seq<CellId>> {
    match value {
        Data::Record(outer) => {
            let inner = match field(outer, CLOSURE) {
                Some(closure) => closure.record(),
                None => Some(outer),
            };
            match inner {
                Some(fields) => if field(fields, BODY) is Some {
                    match field(fields, PARAMS) {
                        Some(Data::List(params)) => if all_cells(params) {
                            Some(cells_of(params))
                        } else {
                            None
                        },
                        _ => None,
                    }
                } else {
                    None
                },
                None => None,
            }
        },
        _ => None,
    }
}

/// The cells that a resolution table defines.
pub open spec fn defined<V>(table: Seq<(CellId, V)>) -> Set<CellId> {
    table.map_values(|e: (CellId, V)| e.0).to_set()
}

pub proof fn lemma_defined_finite<V>(table: Seq<(CellId, V)>)
    ensures
        defined(table).finite(),
{
    table.map_values(|e: (CellId, V)| e.0).lemma_cardinality_of_set();
}

pub proof fn lemma_defined_contains<V>(table: Seq<(CellId, V)>, cell: CellId)
    requires
        field(table, cell) is Some,
    ensures
        defined(table).contains(cell),
    decreases table.len(),
{
    let keys = table.map_values(|e: (CellId, V)| e.0);
    if table[0].0 == cell {
        assert(keys[0] == cell);
    } else {
        lemma_defined_contains(table.drop_first(), cell);
        let rest = table.drop_first().map_values(|e: (CellId, V)| e.0);
        let j = choose|j: int| 0 <= j < rest.len() && rest[j] == cell;
        assert(keys[j + 1] == cell);
    }
}

/// Follows cell references through the table until a value that is not a
/// cell: nothing for a native callable, an undefined cell or a cycle.
pub open spec fn spec_follow(
    function: Data,
    table: Seq<(CellId, (bool, Data))>,
    followed: Set<CellId>,
) -> Option<Data>
    decreases defined(table).difference(followed).len(),
{
    match function {
        Data::Cell(cell) => if followed.contains(cell) {
            None
        } else {
            match field(table, cell) {
                Some((native, value)) => if native {
                    None
                } else {
                    proof {
                        lemma_defined_finite(table);
                        lemma_defined_contains(table, cell);
                        assert(defined(table).difference(followed.insert(cell)) =~= defined(
                            table,
                        ).difference(followed).remove(cell));
                    }
                    spec_follow(value, table, followed.insert(cell))
                },
                None => None,
            }
        },
        _ => Some(function),
    }
}

/// The declared parameters of a callable, in source order.
pub open spec fn spec_function_parameters(
    function: Data,
    table: Seq<(CellId, (bool, Data))>,
) -> Option<Seq<CellId>> {
    match spec_follow(function, table, Set::empty()) {
        Some(callable) => spec_parameters(callable),
        None => None,
    }
}

/// The parameters that a stored lambda or closure declares, if all are cells.
pub fn parameters(value: &Value) -> (r: Option<Vec<CellId>>)
    ensures
        match r {
            Some(params) => spec_parameters(value@) == Some(params@),
            None => spec_parameters(value@) is None,
        },
{
    let outer = value.as_record()?;
    let ghost outer_data = crate::value::fields_data(outer@);
    let fields = match get(outer, CLOSURE) {
        Some(closure) => closure.as_record()?,
        None => outer,
    };
    let ghost inner_data = crate::value::fields_data(fields@);
    assert(match field(outer_data, CLOSURE) {
        Some(closure) => closure.record(),
        None => Some(outer_data),
    } == Some(inner_data));
    get(fields, BODY)?;
    let list = get(fields, PARAMS)?;
    let items = list.as_list()?;
    let ghost model = items_data(items@);
    assert(field(crate::value::fields_data(fields@), PARAMS) == Some(Data::List(model)));
    let ghost expected = if all_cells(model) {
        Some(cells_of(model))
    } else {
        None::<Seq<CellId>>
    };
    assert(value@ == Data::Record(outer_data));
    assert(field(inner_data, BODY) is Some);
    assert(field(inner_data, PARAMS) == Some(Data::List(model)));
    assert(spec_parameters(value@) == expected);
    let mut params: Vec<CellId> = Vec::new();
    let mut i: usize = 0;
    while i < items.len()
        invariant
            i <= items@.len(),
            model == items_data(items@),
            spec_parameters(value@) == expected,
            expected == if all_cells(model) {
                Some(cells_of(model))
            } else {
                None::<Seq<CellId>>
            },
            params@.len() == i,
            forall|j: int| 0 <= j < i ==> (#[trigger] model[j]).1 is Cell,
            forall|j: int| 0 <= j < i ==> params@[j] == (#[trigger] model[j]).1->Cell_0,
        decreases items@.len() - i,
    {
        match items[i].1.as_cell() {
            Some(cell) => params.push(cell),
            None => {
                assert(!(model[i as int].1 is Cell));
                return None;
            },
        }
        i = i + 1;
    }
    assert(params@ =~= cells_of(model));
    Some(params)
}

/// The first definition of `cell`.
fn resolve(table: &Vec<(CellId, Definition)>, cell: CellId) -> (r: Option<&Definition>)
    ensures
        match r {
            Some(d) => field(definitions_data(table@), cell) == Some((d.native, d.value@)),
            None => field(definitions_data(table@), cell) is None,
        },
{
    let ghost model = definitions_data(table@);
    let mut i: usize = 0;
    while i < table.len()
        invariant
            i <= table@.len(),
            model == definitions_data(table@),
            forall|j: int| 0 <= j < i ==> model[j].0 != cell,
        decreases table@.len() - i,
    {
        if table[i].0 == cell {
            proof {
                crate::value::lemma_field_at(model, cell, i as int);
            }
            return Some(&table[i].1);
        }
        i = i + 1;
    }
    proof {
        crate::value::lemma_field_none(model, cell);
    }
    None
}

/// Parameter order is source metadata, not an evaluation: follow cell
/// references to a stored lambda or closure. A native callable, an undefined
/// cell or a cycle of references gives no order.
pub fn function_parameters(function: &Value, table: &Vec<(CellId, Definition)>) -> (r: Option<
    Vec<CellId>,
>)
    ensures
        match r {
            Some(params) => spec_function_parameters(function@, definitions_data(table@)) == Some(
                params@,
            ),
            None => spec_function_parameters(function@, definitions_data(table@)) is None,
        },
{
    let ghost model = definitions_data(table@);
    let mut current = function;
    let mut followed: BTreeSet<CellId> = BTreeSet::new();
    proof {
        lemma_defined_finite(model);
    }
    loop
        invariant
            model == definitions_data(table@),
            defined(model).finite(),
            spec_follow(function@, model, Set::empty()) == spec_follow(current@, model, followed@),
        ensures
            !(current@ is Cell),
            spec_follow(function@, model, Set::empty()) == spec_follow(current@, model, followed@),
        decreases defined(model).difference(followed@).len(),
    {
        let cell = match current.as_cell() {
            Some(cell) => cell,
            None => break,
        };
        let ghost before = followed@;
        if !followed.insert(cell) {
            return None;
        }
        let definition = match resolve(table, cell) {
            Some(definition) => definition,
            None => return None,
        };
        if definition.native {
            return None;
        }
        proof {
            lemma_defined_contains(model, cell);
            assert(followed@ =~= before.insert(cell));
            assert(defined(model).difference(followed@) =~= defined(model).difference(
                before,
            ).remove(cell));
            assert(defined(model).difference(before).contains(cell));
            assert(defined(model).difference(before).finite());
        }
        current = &definition.value;
    }
    parameters(current)
}

/// A cell whose definition refers back to itself has no parameter order.
pub proof fn lemma_self_reference(cell: CellId, table: Seq<(CellId, (bool, Data))>)
    requires
        field(table, cell) == Some((false, Data::Cell(cell))),
    ensures
        spec_function_parameters(Data::Cell(cell), table) is None,
{
    assert(Set::<CellId>::empty().insert(cell).contains(cell));
    assert(spec_follow(Data::Cell(cell), table, Set::<CellId>::empty().insert(cell)) is None);
    assert(spec_follow(Data::Cell(cell), table, Set::<CellId>::empty()) is None);
}

/// A value shaped as a stored lambda that projects as one: a record whose
/// only fields are its parameters, its body and its name, with parameters
/// that are a list of cells.
pub open spec fn spec_lambda_shape(value: Data) -> bool {
    match value {
        Data::Record(fields) => {
            &&& forall|i: int|
                0 <= i < fields.len() ==> {
                    let key = (#[trigger] fields[i]).0;
                    key == PARAMS || key == BODY || key == NAME
                }
            &&& match field(fields, PARAMS) {
                Some(Data::List(items)) => all_cells(items),
                _ => false,
            }
        },
        _ => false,
    }
}

/// Whether a value has the shape of a stored lambda that projects as one.
pub fn lambda_shape(value: &Value) -> (r: bool)
    ensures
        r == spec_lambda_shape(value@),
{
    let fields = match value.as_record() {
        Some(fields) => fields,
        None => return false,
    };
    let ghost model = fields_data(fields@);
    let mut i: usize = 0;
    while i < fields.len()
        invariant
            i <= fields@.len(),
            model == fields_data(fields@),
            value@ == Data::Record(model),
            forall|j: int|
                0 <= j < i ==> {
                    let key = (#[trigger] model[j]).0;
                    key == PARAMS || key == BODY || key == NAME
                },
        decreases fields@.len() - i,
    {
        let key = fields[i].0;
        if key != PARAMS && key != BODY && key != NAME {
            assert(model[i as int].0 == key);
            return false;
        }
        i = i + 1;
    }
    let items = match get(fields, PARAMS) {
        Some(params) => match params.as_list() {
            Some(items) => items,
            None => return false,
        },
        None => return false,
    };
    let ghost list = items_data(items@);
    proof {
        assert(field(model, PARAMS) == Some(Data::List(list)));
    }
    let mut k: usize = 0;
    while k < items.len()
        invariant
            k <= items@.len(),
            list == items_data(items@),
            value@ == Data::Record(model),
            field(model, PARAMS) == Some(Data::List(list)),
            forall|j: int|
                0 <= j < model.len() ==> {
                    let key = (#[trigger] model[j]).0;
                    key == PARAMS || key == BODY || key == NAME
                },
            forall|j: int| 0 <= j < k ==> (#[trigger] list[j]).1 is Cell,
        decreases items@.len() - k,
    {
        if items[k].1.as_cell().is_none() {
            assert(!(list[k as int].1 is Cell));
            return false;
        }
        k = k + 1;
    }
    true
}

} // verus!
