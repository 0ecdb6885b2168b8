//! Statically visible bindings at a source path: lambda parameters and
//! captures, preceding `let`/`where` clauses, and the current `match` case,
//! stopping at quotes until they are unquoted. Nothing is evaluated and no
//! unrelated cell is searched.
use crate::value::{
    field, fields_data, get, items_data, CellId, Data, Position, Value,
};
use crate::vocabulary::{
    BIND, BINDINGS, BODY, CASES, ENVIRONMENT, EXPRESSION, FUNCTION, LET, MATCH, PARAMS, PATTERN,
    QUOTE, UNQUOTE, VALUE, WHERE,
};
use std::collections::{BTreeMap, BTreeSet};
use vstd::std_specs::btree::spec_btree_keys_iter;
use vstd::std_specs::iter::IteratorSpec;
use vstd::prelude::*;

verus! {

broadcast use vstd::std_specs::btree::group_btree_axioms;

/// Where a path follows a reference.
#[derive(Clone, Copy, Debug, PartialEq, Eq, Structural)]
pub enum Resolution {
    Document,
    Library(CellId),
}

/// One step of a path into a value.
#[derive(Clone, Copy, Debug, PartialEq, Eq, Structural)]
pub enum Step {
    Key(CellId),
    Element(Position),
    Follow(Resolution),
}

/// The cell a binder names, if it is one.
pub open spec fn cell_set(value: Data) -> Set<CellId> {
    match value {
        Data::Cell(cell) => set![cell],
        _ => Set::empty(),
    }
}

/// The cells a pattern binds: a binder record names one cell; any other
/// record or list binds what its parts bind.
pub open spec fn pattern_cells(value: Data) -> Set<CellId>
    decreases value, 1nat,
{
    match value {
        Data::Record(fields) => match field(fields, BIND) {
            Some(binder) => cell_set(binder),
            None => {
                proof {
                    assert(decreases_to!(value => fields));
                }
                entries_pattern_cells(fields)
            },
        },
        Data::List(items) => {
            proof {
                assert(decreases_to!(value => items));
            }
            list_pattern_cells(items)
        },
        _ => Set::empty(),
    }
}

/// The cells the values of record fields bind as patterns.
pub open spec fn entries_pattern_cells(entries: Seq<(CellId, Data)>) -> Set<CellId>
    decreases entries, 0nat,
{
    if entries.len() == 0 {
        Set::empty()
    } else {
        proof {
            assert(decreases_to!(entries => entries[entries.len() - 1]));
            assert(decreases_to!(entries => entries.drop_last()));
        }
        entries_pattern_cells(entries.drop_last()).union(
            pattern_cells(entries[entries.len() - 1].1),
        )
    }
}

/// The cells the elements of a list bind as patterns.
pub open spec fn list_pattern_cells(entries: Seq<(Position, Data)>) -> Set<CellId>
    decreases entries, 0nat,
{
    if entries.len() == 0 {
        Set::empty()
    } else {
        proof {
            assert(decreases_to!(entries => entries[entries.len() - 1]));
            assert(decreases_to!(entries => entries.drop_last()));
        }
        list_pattern_cells(entries.drop_last()).union(
            pattern_cells(entries[entries.len() - 1].1),
        )
    }
}

proof fn lemma_entries_pattern_cells(entries: Seq<(CellId, Data)>, cell: CellId)
    ensures
        entries_pattern_cells(entries).contains(cell) <==> exists|i: int|
            0 <= i < entries.len() && #[trigger] pattern_cells(entries[i].1).contains(cell),
    decreases entries.len(),
{
    if entries.len() > 0 {
        let rest = entries.drop_last();
        let last = entries.len() - 1;
        lemma_entries_pattern_cells(rest, cell);
        assert(entries_pattern_cells(entries) == entries_pattern_cells(rest).union(
            pattern_cells(entries[last].1),
        ));
        if entries_pattern_cells(rest).contains(cell) {
            let i = choose|i: int|
                0 <= i < rest.len() && #[trigger] pattern_cells(rest[i].1).contains(cell);
            assert(entries[i] == rest[i]);
        } else if pattern_cells(entries[last].1).contains(cell) {
            assert(0 <= last < entries.len() && pattern_cells(entries[last].1).contains(cell));
        }
        if exists|i: int|
            0 <= i < entries.len() && #[trigger] pattern_cells(entries[i].1).contains(cell) {
            let i = choose|i: int|
                0 <= i < entries.len() && #[trigger] pattern_cells(entries[i].1).contains(cell);
            if i < last {
                assert(rest[i] == entries[i]);
            }
        }
    }
}

proof fn lemma_list_pattern_cells(entries: Seq<(Position, Data)>, cell: CellId)
    ensures
        list_pattern_cells(entries).contains(cell) <==> exists|i: int|
            0 <= i < entries.len() && #[trigger] pattern_cells(entries[i].1).contains(cell),
    decreases entries.len(),
{
    if entries.len() > 0 {
        let rest = entries.drop_last();
        let last = entries.len() - 1;
        lemma_list_pattern_cells(rest, cell);
        assert(list_pattern_cells(entries) == list_pattern_cells(rest).union(
            pattern_cells(entries[last].1),
        ));
        if list_pattern_cells(rest).contains(cell) {
            let i = choose|i: int|
                0 <= i < rest.len() && #[trigger] pattern_cells(rest[i].1).contains(cell);
            assert(entries[i] == rest[i]);
        } else if pattern_cells(entries[last].1).contains(cell) {
            assert(0 <= last < entries.len() && pattern_cells(entries[last].1).contains(cell));
        }
        if exists|i: int|
            0 <= i < entries.len() && #[trigger] pattern_cells(entries[i].1).contains(cell) {
            let i = choose|i: int|
                0 <= i < entries.len() && #[trigger] pattern_cells(entries[i].1).contains(cell);
            if i < last {
                assert(rest[i] == entries[i]);
            }
        }
    }
}

/// Destructuring: a record pattern with no binder binds a cell exactly when
/// one of its field values binds it; a binder record binds just its cell.
pub proof fn lemma_record_pattern_binds_fields(fields: Seq<(CellId, Data)>, cell: CellId)
    ensures
        field(fields, BIND) is None ==> (pattern_cells(Data::Record(fields)).contains(cell)
            <==> exists|i: int|
            0 <= i < fields.len() && #[trigger] pattern_cells(fields[i].1).contains(cell)),
        field(fields, BIND) == Some(Data::Cell(cell)) ==> pattern_cells(Data::Record(fields))
            == set![cell],
{
    lemma_entries_pattern_cells(fields, cell);
}

/// A list pattern binds a cell exactly when one of its elements binds it.
pub proof fn lemma_list_pattern_binds_elements(items: Seq<(Position, Data)>, cell: CellId)
    ensures
        pattern_cells(Data::List(items)).contains(cell) <==> exists|i: int|
            0 <= i < items.len() && #[trigger] pattern_cells(items[i].1).contains(cell),
{
    lemma_list_pattern_cells(items, cell);
}

/// The cells a `let` or `where` clause names: its binder, or its pattern's cells.
pub open spec fn clause_cells(value: Data) -> Set<CellId> {
    match value {
        Data::Record(fields) => match (field(fields, BIND), field(fields, PATTERN)) {
            (Some(binder), None) => cell_set(binder),
            (None, Some(pattern)) => pattern_cells(pattern),
            _ => Set::empty(),
        },
        _ => Set::empty(),
    }
}

/// The cells that a list of clauses names.
pub open spec fn clauses_cells(clauses: Seq<(Position, Data)>) -> Set<CellId>
    decreases clauses.len(),
{
    if clauses.len() == 0 {
        Set::empty()
    } else {
        clauses_cells(clauses.drop_last()).union(clause_cells(clauses.last().1))
    }
}

/// The leading clauses whose positions come before `current`.
pub open spec fn clauses_before(clauses: Seq<(Position, Data)>, current: Position) -> int
    decreases clauses.len(),
{
    if clauses.len() == 0 || clauses[0].0 >= current {
        0
    } else {
        1 + clauses_before(clauses.drop_first(), current)
    }
}

/// The cells of a list of cells, skipping anything else.
pub open spec fn listed_cells(items: Seq<(Position, Data)>) -> Set<CellId>
    decreases items.len(),
{
    if items.len() == 0 {
        Set::empty()
    } else {
        listed_cells(items.drop_last()).union(cell_set(items.last().1))
    }
}

/// The keys of a record.
pub open spec fn key_set(fields: Seq<(CellId, Data)>) -> Set<CellId> {
    Set::new(|cell: CellId| exists|i: int| 0 <= i < fields.len() && (#[trigger] fields[i]).0 == cell)
}

/// The function cell of a call record.
pub open spec fn function_cell(fields: Seq<(CellId, Data)>) -> Option<CellId> {
    match field(fields, FUNCTION) {
        Some(Data::Cell(cell)) => Some(cell),
        _ => None,
    }
}

/// Whether a path suffix starts with a given step.
pub open spec fn starts_with(suffix: Seq<Step>, step: Step) -> bool {
    suffix.len() > 0 && suffix[0] == step
}

/// The cells that the construct `fields` binds for the rest of the path.
pub open spec fn scope_cells(fields: Seq<(CellId, Data)>, suffix: Seq<Step>) -> Set<CellId> {
    let function = function_cell(fields);
    if function == Some(LET) || function == Some(WHERE) {
        match field(fields, BINDINGS) {
            Some(Data::List(clauses)) => if starts_with(suffix, Step::Key(EXPRESSION)) {
                clauses_cells(clauses)
            } else if suffix.len() >= 3 && suffix[0] == Step::Key(BINDINGS) && suffix[1] is Element
                && suffix[2] == Step::Key(VALUE) {
                clauses_cells(clauses.take(clauses_before(clauses, suffix[1]->Element_0)))
            } else {
                Set::empty()
            },
            _ => Set::empty(),
        }
    } else if function == Some(MATCH) {
        if suffix.len() >= 3 && suffix[0] == Step::Key(CASES) && suffix[1] is Element && suffix[2]
            == Step::Key(EXPRESSION) {
            match field(fields, CASES) {
                Some(Data::List(cases)) => match field(cases, suffix[1]->Element_0) {
                    Some(Data::Record(case)) => match field(case, PATTERN) {
                        Some(pattern) => pattern_cells(pattern),
                        None => Set::empty(),
                    },
                    _ => Set::empty(),
                },
                _ => Set::empty(),
            }
        } else {
            Set::empty()
        }
    } else if field(fields, FUNCTION) is None && starts_with(suffix, Step::Key(BODY)) {
        match field(fields, PARAMS) {
            Some(Data::List(params)) => match field(fields, ENVIRONMENT) {
                Some(Data::Record(environment)) => listed_cells(params).union(key_set(environment)),
                _ => listed_cells(params),
            },
            _ => Set::empty(),
        }
    } else {
        Set::empty()
    }
}

/// The bindings visible so far, each with the offset of the nearest scope
/// that binds it, and whether the path is inside a quote.
pub open spec fn scan(path: Seq<Step>, values: Seq<Option<Data>>, offsets: nat) -> (
    Map<CellId, usize>,
    bool,
)
    decreases offsets,
{
    if offsets == 0 {
        (Map::empty(), false)
    } else {
        let offset = (offsets - 1) as nat;
        let (result, quoted) = scan(path, values, offset);
        match values[offset as int] {
            Some(Data::Record(fields)) => {
                let suffix = path.skip(offset as int);
                if quoted {
                    (result, !starts_with(suffix, Step::Key(UNQUOTE)))
                } else if function_cell(fields) == Some(QUOTE) && starts_with(
                    suffix,
                    Step::Key(EXPRESSION),
                ) {
                    (result, true)
                } else {
                    let found = scope_cells(fields, suffix);
                    (
                        result.union_prefer_right(
                            Map::new(|cell: CellId| found.contains(cell), |cell: CellId| offset as usize),
                        ),
                        false,
                    )
                }
            },
            _ => (result, quoted),
        }
    }
}

/// The bindings visible at the end of `path`.
pub open spec fn spec_bindings(path: Seq<Step>, values: Seq<Option<Data>>) -> Map<CellId, usize> {
    scan(path, values, path.len()).0
}

/// Adds the cells a pattern binds.
fn pattern_bindings(value: &Value, result: &mut BTreeSet<CellId>)
    ensures
        final(result)@ == old(result)@.union(pattern_cells(value@)),
    decreases value,
{
    match value {
        Value::Record(fields) => match get(fields, BIND) {
            Some(binder) => {
                if let Some(cell) = binder.as_cell() {
                    result.insert(cell);
                }
                assert(final(result)@ =~= old(result)@.union(cell_set(binder@)));
            },
            None => {
                let ghost model = fields_data(fields@);
                let mut i: usize = 0;
                assert(model.take(0) =~= Seq::empty());
                assert(result@ =~= old(result)@.union(entries_pattern_cells(model.take(0))));
                while i < fields.len()
                    invariant
                        i <= fields@.len(),
                        value is Record,
                        value->Record_0 == *fields,
                        model == fields_data(fields@),
                        result@ == old(result)@.union(entries_pattern_cells(model.take(i as int))),
                    decreases fields@.len() - i,
                {
                    proof {
                        assert(decreases_to!(*value => value->Record_0));
                        assert(decreases_to!(value->Record_0 => value->Record_0@));
                        assert(decreases_to!(value->Record_0@ => value->Record_0@[i as int]));
                    }
                    pattern_bindings(&fields[i].1, result);
                    proof {
                        assert(model.take(i + 1).drop_last() =~= model.take(i as int));
                        assert(model.take(i + 1)[i as int] == model[i as int]);
                        assert(result@ =~= old(result)@.union(
                            entries_pattern_cells(model.take(i + 1)),
                        ));
                    }
                    i = i + 1;
                }
                assert(model.take(i as int) =~= model);
            },
        },
        Value::List(items) => {
            let ghost model = items_data(items@);
            let mut i: usize = 0;
            assert(model.take(0) =~= Seq::empty());
            assert(result@ =~= old(result)@.union(list_pattern_cells(model.take(0))));
            while i < items.len()
                invariant
                    i <= items@.len(),
                    value is List,
                    value->List_0 == *items,
                    model == items_data(items@),
                    result@ == old(result)@.union(list_pattern_cells(model.take(i as int))),
                decreases items@.len() - i,
            {
                proof {
                    assert(decreases_to!(*value => value->List_0));
                    assert(decreases_to!(value->List_0 => value->List_0@));
                    assert(decreases_to!(value->List_0@ => value->List_0@[i as int]));
                }
                pattern_bindings(&items[i].1, result);
                proof {
                    assert(model.take(i + 1).drop_last() =~= model.take(i as int));
                    assert(model.take(i + 1)[i as int] == model[i as int]);
                    assert(result@ =~= old(result)@.union(list_pattern_cells(model.take(i + 1))));
                }
                i = i + 1;
            }
            assert(model.take(i as int) =~= model);
        },
        _ => {
            assert(final(result)@ =~= old(result)@.union(Set::empty()));
        },
    }
}

/// Adds the cells a `let` or `where` clause names.
fn binding_names(value: &Value, result: &mut BTreeSet<CellId>)
    ensures
        final(result)@ == old(result)@.union(clause_cells(value@)),
{
    if let Some(fields) = value.as_record() {
        match (get(fields, BIND), get(fields, PATTERN)) {
            (Some(binder), None) => {
                if let Some(cell) = binder.as_cell() {
                    result.insert(cell);
                }
                assert(final(result)@ =~= old(result)@.union(cell_set(binder@)));
            },
            (None, Some(pattern)) => pattern_bindings(pattern, result),
            _ => {
                assert(final(result)@ =~= old(result)@.union(Set::empty()));
            },
        }
    } else {
        assert(final(result)@ =~= old(result)@.union(Set::empty()));
    }
}

/// Adds the cells that clauses `0..end` name.
fn clause_names(clauses: &Vec<(Position, Value)>, end: usize, result: &mut BTreeSet<CellId>)
    requires
        end <= clauses@.len(),
    ensures
        final(result)@ == old(result)@.union(clauses_cells(items_data(clauses@).take(end as int))),
{
    let ghost model = items_data(clauses@);
    let mut i: usize = 0;
    assert(model.take(0) =~= Seq::empty());
    assert(result@ =~= old(result)@.union(clauses_cells(model.take(0))));
    while i < end
        invariant
            i <= end <= clauses@.len(),
            model == items_data(clauses@),
            result@ == old(result)@.union(clauses_cells(model.take(i as int))),
        decreases end - i,
    {
        binding_names(&clauses[i].1, result);
        proof {
            assert(model.take(i + 1).drop_last() =~= model.take(i as int));
            assert(result@ =~= old(result)@.union(clauses_cells(model.take(i + 1))));
        }
        i = i + 1;
    }
}

/// How many leading clauses come before `current`.
fn count_before(clauses: &Vec<(Position, Value)>, current: Position) -> (r: usize)
    ensures
        r == clauses_before(items_data(clauses@), current),
        r <= clauses@.len(),
{
    let ghost model = items_data(clauses@);
    let mut i: usize = 0;
    assert(model.skip(0) =~= model);
    while i < clauses.len() && clauses[i].0 < current
        invariant
            i <= clauses@.len(),
            model == items_data(clauses@),
            clauses_before(model, current) == i + clauses_before(model.skip(i as int), current),
        decreases clauses@.len() - i,
    {
        proof {
            assert(model.skip(i as int).drop_first() =~= model.skip(i + 1));
        }
        i = i + 1;
    }
    proof {
        if i < clauses@.len() {
            assert(model.skip(i as int)[0] == model[i as int]);
        }
    }
    i
}

/// Adds the cells of a list of cells, skipping anything else.
fn listed_names(items: &Vec<(Position, Value)>, result: &mut BTreeSet<CellId>)
    ensures
        final(result)@ == old(result)@.union(listed_cells(items_data(items@))),
{
    let ghost model = items_data(items@);
    let mut i: usize = 0;
    assert(model.take(0) =~= Seq::empty());
    assert(result@ =~= old(result)@.union(listed_cells(model.take(0))));
    while i < items.len()
        invariant
            i <= items@.len(),
            model == items_data(items@),
            result@ == old(result)@.union(listed_cells(model.take(i as int))),
        decreases items@.len() - i,
    {
        if let Some(cell) = items[i].1.as_cell() {
            result.insert(cell);
        }
        proof {
            assert(model.take(i + 1).drop_last() =~= model.take(i as int));
            assert(result@ =~= old(result)@.union(listed_cells(model.take(i + 1))));
        }
        i = i + 1;
    }
    assert(model.take(i as int) =~= model);
}

/// Adds the keys of a record.
fn key_names(fields: &Vec<(CellId, Value)>, result: &mut BTreeSet<CellId>)
    ensures
        final(result)@ == old(result)@.union(key_set(fields_data(fields@))),
{
    let ghost model = fields_data(fields@);
    let mut i: usize = 0;
    while i < fields.len()
        invariant
            i <= fields@.len(),
            model == fields_data(fields@),
            result@ == old(result)@.union(key_set(model.take(i as int))),
        decreases fields@.len() - i,
    {
        result.insert(fields[i].0);
        proof {
            assert forall|cell: CellId| #[trigger] key_set(model.take(i + 1)).contains(cell)
                <==> key_set(model.take(i as int)).contains(cell) || cell == model[i as int].0 by {
                if key_set(model.take(i + 1)).contains(cell) {
                    let j = choose|j: int| 0 <= j < i + 1 && (#[trigger] model.take(i + 1)[j]).0 == cell;
                    if j < i {
                        assert(model.take(i as int)[j].0 == cell);
                    }
                }
                if key_set(model.take(i as int)).contains(cell) {
                    let j = choose|j: int| 0 <= j < i && (#[trigger] model.take(i as int)[j]).0 == cell;
                    assert(model.take(i + 1)[j].0 == cell);
                }
                if cell == model[i as int].0 {
                    assert(model.take(i + 1)[i as int].0 == cell);
                }
            }
            assert(result@ =~= old(result)@.union(key_set(model.take(i + 1))));
        }
        i = i + 1;
    }
    assert(model.take(i as int) =~= model);
}

/// The cells the construct `fields` binds for the rest of the path.
fn scope_names(fields: &Vec<(CellId, Value)>, path: &Vec<Step>, offset: usize) -> (r: BTreeSet<
    CellId,
>)
    requires
        offset <= path@.len(),
    ensures
        r@ == scope_cells(fields_data(fields@), path@.skip(offset as int)),
{
    let ghost suffix = path@.skip(offset as int);
    let remaining = path.len() - offset;
    let ghost model = fields_data(fields@);
    let mut found: BTreeSet<CellId> = BTreeSet::new();
    let function = match get(fields, FUNCTION) {
        Some(function) => function.as_cell(),
        None => None,
    };
    assert(function == function_cell(model));
    if function == Some(LET) || function == Some(WHERE) {
        if let Some(list) = get(fields, BINDINGS) {
            if let Some(clauses) = list.as_list() {
                if remaining >= 1 && path[offset] == Step::Key(EXPRESSION) {
                    clause_names(clauses, clauses.len(), &mut found);
                    assert(items_data(clauses@).take(clauses@.len() as int) =~= items_data(
                        clauses@,
                    ));
                } else if remaining >= 3 && path[offset] == Step::Key(BINDINGS) && path[offset
                    + 2] == Step::Key(VALUE) {
                    if let Step::Element(current) = path[offset + 1] {
                        let end = count_before(clauses, current);
                        clause_names(clauses, end, &mut found);
                    }
                }
            }
        }
    } else if function == Some(MATCH) {
        if remaining >= 3 && path[offset] == Step::Key(CASES) && path[offset + 2] == Step::Key(
            EXPRESSION,
        ) {
            if let Step::Element(position) = path[offset + 1] {
                if let Some(list) = get(fields, CASES) {
                    if let Some(cases) = list.as_list() {
                        if let Some(case) = crate::value::element(cases, position) {
                            if let Some(case) = case.as_record() {
                                if let Some(pattern) = get(case, PATTERN) {
                                    pattern_bindings(pattern, &mut found);
                                }
                            }
                        }
                    }
                }
            }
        }
    } else if get(fields, FUNCTION).is_none() && remaining >= 1 && path[offset] == Step::Key(
        BODY,
    ) {
        if let Some(list) = get(fields, PARAMS) {
            if let Some(params) = list.as_list() {
                listed_names(params, &mut found);
                if let Some(environment) = get(fields, ENVIRONMENT) {
                    if let Some(environment) = environment.as_record() {
                        key_names(environment, &mut found);
                    }
                }
            }
        }
    }
    assert(found@ =~= scope_cells(model, suffix));
    found
}

/// The model of the values at each prefix of a path.
pub open spec fn prefix_data(values: Seq<Option<Value>>) -> Seq<Option<Data>> {
    values.map_values(
        |v: Option<Value>|
            match v {
                Some(v) => Some(v@),
                None => None,
            },
    )
}

/// Statically visible bindings at the end of `path`, each with the offset
/// of the nearest scope that binds it. `values[i]` is the value at the
/// first `i` steps of the path; only the values at its proper prefixes
/// are read.
pub fn bindings(path: &Vec<Step>, values: &Vec<Option<Value>>) -> (r: BTreeMap<CellId, usize>)
    requires
        values@.len() >= path@.len(),
    ensures
        r@ == spec_bindings(path@, prefix_data(values@)),
{
    let ghost model = prefix_data(values@);
    let mut result: BTreeMap<CellId, usize> = BTreeMap::new();
    let mut quoted = false;
    let mut offset: usize = 0;
    while offset < path.len()
        invariant
            offset <= path@.len() <= values@.len(),
            model == prefix_data(values@),
            (result@, quoted) == scan(path@, model, offset as nat),
        decreases path@.len() - offset,
    {
        let fields = match &values[offset] {
            Some(value) => value.as_record(),
            None => None,
        };
        let ghost suffix = path@.skip(offset as int);
        if let Some(fields) = fields {
            if quoted {
                if path[offset] == Step::Key(UNQUOTE) {
                    quoted = false;
                }
            } else {
                let function = match get(fields, FUNCTION) {
                    Some(function) => function.as_cell(),
                    None => None,
                };
                if function == Some(QUOTE) && path[offset] == Step::Key(EXPRESSION) {
                    quoted = true;
                } else {
                    let found = scope_names(fields, path, offset);
                    let ghost before = result@;
                    let ghost keys = spec_btree_keys_iter(&found).remaining().unref();
                    proof {
                        broadcast use vstd::std_specs::btree::axiom_spec_btree_keys_iter;
                        assert(keys.to_set() == found@);
                        assert(result@ =~= before.union_prefer_right(
                            Map::new(|c: CellId| keys.take(0).contains(c), |c: CellId| offset),
                        ));
                    }
                    for cell in it: found.iter()
                        invariant
                            offset < path@.len(),
                            it.seq().unref() == keys,
                            0 <= it.index() <= keys.len(),
                            result@ == before.union_prefer_right(
                                Map::new(
                                    |c: CellId| keys.take(it.index()).contains(c),
                                    |c: CellId| offset,
                                ),
                            ),
                    {
                        let ghost i = it.index();
                        assert(*cell == keys[i]);
                        result.insert(*cell, offset);
                        assert forall|c: CellId| #[trigger] keys.take(i + 1).contains(c) <==> (keys.take(
                            i,
                        ).contains(c) || c == keys[i]) by {
                            if keys.take(i + 1).contains(c) {
                                let j = choose|j: int| 0 <= j < i + 1 && #[trigger] keys.take(i + 1)[j] == c;
                                if j < i {
                                    assert(keys.take(i)[j] == c);
                                }
                            }
                            if keys.take(i).contains(c) {
                                let j = choose|j: int| 0 <= j < i && #[trigger] keys.take(i)[j] == c;
                                assert(keys.take(i + 1)[j] == c);
                            }
                            if c == keys[i] {
                                assert(keys.take(i + 1)[i] == c);
                            }
                        }
                        assert(result@ =~= before.union_prefer_right(
                            Map::new(|c: CellId| keys.take(i + 1).contains(c), |c: CellId| offset),
                        ));
                    }
                    proof {
                        assert(keys.take(keys.len() as int) =~= keys);
                        assert(result@ =~= before.union_prefer_right(
                            Map::new(|c: CellId| found@.contains(c), |c: CellId| offset),
                        ));
                    }
                }
            }
        }
        offset = offset + 1;
    }
    result
}

} // verus!
