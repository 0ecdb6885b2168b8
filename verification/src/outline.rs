//! Outlines: a record whose `OUTLINE` list orders sections by their keys.
//! Repeated keys stay repeated; fields that no section names stay extras.
use crate::value::{all_cells, cells_of, fields_data, get, items_data, CellId, Data, Value};
use vstd::prelude::*;

verus! {

pub const OUTLINE: CellId = 0xe6c0b2058b8468428d64576d953e2d62;

/// The section keys in outline order, if every entry is a cell.
pub open spec fn spec_sections(value: Data) -> Option<Seq<CellId>> {
    match value.get(OUTLINE) {
        Some(Data::List(items)) => if all_cells(items) {
            Some(cells_of(items))
        } else {
            None
        },
        _ => None,
    }
}

/// The section keys of an outline record, in order, repeats included.
pub fn sections(value: &Value) -> (r: Option<Vec<CellId>>)
    ensures
        match r {
            Some(keys) => spec_sections(value@) == Some(keys@),
            None => spec_sections(value@) is None,
        },
{
    let fields = value.as_record()?;
    let list = get(fields, OUTLINE)?;
    let items = list.as_list()?;
    let ghost model = items_data(items@);
    assert(value@.get(OUTLINE) == Some(Data::List(model)));
    let mut keys: Vec<CellId> = Vec::new();
    let mut i: usize = 0;
    while i < items.len()
        invariant
            i <= items@.len(),
            model == items_data(items@),
            value@.get(OUTLINE) == Some(Data::List(model)),
            keys@.len() == i,
            forall|j: int| 0 <= j < i ==> (#[trigger] model[j]).1 is Cell,
            forall|j: int| 0 <= j < i ==> keys@[j] == (#[trigger] model[j]).1->Cell_0,
        decreases items@.len() - i,
    {
        match items[i].1.as_cell() {
            Some(cell) => keys.push(cell),
            None => {
                assert(!(model[i as int].1 is Cell));
                return None;
            },
        }
        i = i + 1;
    }
    assert(keys@ =~= cells_of(model));
    Some(keys)
}

/// The keys of a record's fields that are extras: neither the outline nor
/// a section's key, in the record's order.
pub open spec fn spec_extras(fields: Seq<(CellId, Data)>, sections: Seq<CellId>) -> Seq<CellId> {
    fields.map_values(|entry: (CellId, Data)| entry.0).filter(
        |key: CellId| key != OUTLINE && !sections.contains(key),
    )
}

/// The fields of an outline record that no section names, if it is a
/// record.
pub fn extras(value: &Value, sections: &Vec<CellId>) -> (r: Option<Vec<CellId>>)
    ensures
        match r {
            Some(keys) => value@ matches Data::Record(fields) && keys@ == spec_extras(
                fields,
                sections@,
            ),
            None => !(value@ is Record),
        },
{
    let fields = match value.as_record() {
        Some(fields) => fields,
        None => return None,
    };
    let ghost model = fields_data(fields@);
    let ghost keys_model = model.map_values(|entry: (CellId, Data)| entry.0);
    let mut keys: Vec<CellId> = Vec::new();
    let mut i: usize = 0;
    proof {
        reveal(Seq::filter);
        assert(keys_model.take(0) =~= Seq::<CellId>::empty());
    }
    while i < fields.len()
        invariant
            i <= fields@.len(),
            model == fields_data(fields@),
            keys_model == model.map_values(|entry: (CellId, Data)| entry.0),
            keys@ == keys_model.take(i as int).filter(
                |key: CellId| key != OUTLINE && !sections@.contains(key),
            ),
        decreases fields@.len() - i,
    {
        let key = fields[i].0;
        let mut named = false;
        let mut j: usize = 0;
        while j < sections.len()
            invariant
                j <= sections@.len(),
                named == exists|k: int| 0 <= k < j && sections@[k] == key,
            decreases sections@.len() - j,
        {
            if sections[j] == key {
                named = true;
            }
            j = j + 1;
        }
        proof {
            reveal(Seq::filter);
            assert(keys_model.take(i + 1).drop_last() =~= keys_model.take(i as int));
            assert(keys_model.take(i + 1).last() == key);
            assert(named == sections@.contains(key));
        }
        if key != OUTLINE && !named {
            keys.push(key);
        }
        i = i + 1;
    }
    proof {
        assert(keys_model.take(fields@.len() as int) =~= keys_model);
    }
    Some(keys)
}

} // verus!
