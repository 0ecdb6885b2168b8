//! Open boolean records. The payload identifies true or false without
//! evaluating that cell's description.
use crate::absent::{absence_with_detail, spec_reason, with_detail};
use crate::value::{assigned, fields_data, get, record_of, CellId, Data, Value};
use vstd::prelude::*;

verus! {

pub const ID: CellId = 0xf76a2ef341541a5c955fc23094e2df52;

pub const TRUE: CellId = 0x04831f9b704935059231eb111770e62e;

pub const FALSE: CellId = 0x8fcc0a2e5f26c72efd9e917a28919801;

pub const BOOL: CellId = 0xb2d13b64336a9e808133d0c7d5e4981e;

pub const REQUIRE: CellId = 0xcadca87ed76939f9c1ba3bb94495ad06;

pub const CONDITION: CellId = 0x91c786935eb5794b005582b8e7941bc2;

pub const NOT_BOOL: CellId = 0x0f168ae21a023bdd711339e3aa949f9a;

pub const CONDITION_NOT_MET: CellId = 0x1d6c6b09f182a3a036e19eb06cdf1ffc;

/// The cell that names a truth value.
pub open spec fn truth(value: bool) -> CellId {
    if value {
        TRUE
    } else {
        FALSE
    }
}

/// The record for a truth value.
pub open spec fn spec_value(value: bool) -> Data {
    record_of(seq![(BOOL, Data::Cell(truth(value)))])
}

/// The truth value a record carries, whatever else it holds.
pub open spec fn spec_read(value: Data) -> Option<bool> {
    match value.get(BOOL) {
        Some(Data::Cell(cell)) => if cell == TRUE {
            Some(true)
        } else if cell == FALSE {
            Some(false)
        } else {
            None
        },
        _ => None,
    }
}

/// The record for `value`.
pub fn value(holds: bool) -> (r: Value)
    ensures
        r@ == spec_value(holds),
        r@.is_sorted_record(),
        spec_read(r@) == Some(holds),
{
    let cell = if holds {
        TRUE
    } else {
        FALSE
    };
    let mut pairs: Vec<(CellId, Value)> = Vec::new();
    pairs.push((BOOL, Value::Cell(cell)));
    let r = Value::record(pairs);
    assert(fields_data(pairs@) =~= seq![(BOOL, Data::Cell(cell))]);
    assert(r@.get(BOOL) == assigned(fields_data(pairs@), BOOL));
    r
}

/// The truth value of an open boolean record.
pub fn read(value: &Value) -> (r: Option<bool>)
    ensures
        r == spec_read(value@),
{
    let fields = match value.as_record() {
        Some(fields) => fields,
        None => return None,
    };
    let cell = match get(fields, BOOL) {
        Some(field) => match field.as_cell() {
            Some(cell) => cell,
            None => return None,
        },
        None => return None,
    };
    if cell == TRUE {
        Some(true)
    } else if cell == FALSE {
        Some(false)
    } else {
        None
    }
}

/// What `require` answers for an evaluated condition.
pub open spec fn spec_require(condition: Data) -> Data {
    if spec_reason(condition) is Some {
        condition
    } else {
        match spec_read(condition) {
            Some(true) => record_of(Seq::empty()),
            Some(false) => absence_with_detail(CONDITION_NOT_MET, CONDITION, condition),
            None => absence_with_detail(NOT_BOOL, CONDITION, condition),
        }
    }
}

/// `require` on its evaluated condition: an absence passes through, true
/// gives the empty record, false and non-booleans become absences that keep
/// the condition as detail.
pub fn require(condition: Value) -> (r: Value)
    ensures
        r@ == spec_require(condition@),
{
    if crate::absent::is_absent(&condition) {
        condition
    } else {
        match read(&condition) {
            Some(true) => {
                let r = Value::record(Vec::new());
                assert(fields_data(Seq::<(CellId, Value)>::empty()) =~= Seq::empty());
                r
            },
            Some(false) => with_detail(CONDITION_NOT_MET, CONDITION, condition),
            None => with_detail(NOT_BOOL, CONDITION, condition),
        }
    }
}

/// Reading the record for a truth value gives that truth value back.
pub proof fn lemma_read_value(value: bool)
    ensures
        spec_read(spec_value(value)) == Some(value),
{
    let pairs = seq![(BOOL, Data::Cell(truth(value)))];
    crate::value::lemma_build_fields(pairs);
    assert(assigned(pairs, BOOL) == Some(Data::Cell(truth(value))));
}

} // verus!
