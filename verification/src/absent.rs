//! Tagged absence values. The tag identifies the result as absent; its cell
//! payload is the stable, language-independent reason identity. The record
//! stays open: other fields may carry detail.
use crate::value::{
    assigned, build_fields, field, fields_data, get, lemma_build_fields, list_of, record_of, CellId, Data, Value,
};
use vstd::prelude::*;

verus! {

/// A stand-in for the evaluator's cell of this name: values that the
/// evaluator itself builds carry that cell's identity, not this one.
pub const ABSENT: CellId = 0x3d9c1e7a5b2f48c6a0e4d8b1f7c3a590;

/// A stand-in for the evaluator's cell of this name: values that the
/// evaluator itself builds carry that cell's identity, not this one.
pub const CELL: CellId = 0x8e2a4c6f0b1d43e597a8c0f2e4b6d819;

/// A stand-in for the evaluator's cell of this name: values that the
/// evaluator itself builds carry that cell's identity, not this one.
pub const VALUE: CellId = 0xb5d7f9a1c3e54b2d8f0a6c4e2b1d9f37;

/// A stand-in for the evaluator's cell of this name: values that the
/// evaluator itself builds carry that cell's identity, not this one.
pub const CYCLE: CellId = 0x4f6a8c0e2b3d45f7a9c1e3b5d7f9a0c2;

/// A stand-in for the evaluator's cell of this name: values that the
/// evaluator itself builds carry that cell's identity, not this one.
pub const CAUSES: CellId = 0xc0e2a4b6d8f14a3c5e7b9d1f3a5c7e92;

/// A stand-in for the evaluator's cell of this name: values that the
/// evaluator itself builds carry that cell's identity, not this one.
pub const NO_ALTERNATIVE: CellId = 0x1b3d5f7a9c0e42b4d6f8a0c2e4b6d8fa;

/// A stand-in for the evaluator's cell of this name: values that the
/// evaluator itself builds carry that cell's identity, not this one.
pub const DECLINED: CellId = 0x6a8c0e2f4b5d47a9c1e3f5b7d9a0c2e4;

pub const OR_DEFAULT: CellId = 0x6a7a30847dd7d939448d0e7eaeb82893;

pub const DEFAULT: CellId = 0xd8bdf7403b181a43fa73578bd976ba3b;

/// The reason of an absence, if `value` is one.
pub open spec fn spec_reason(value: Data) -> Option<CellId> {
    match value.get(ABSENT) {
        Some(tag) => tag.cell(),
        None => None,
    }
}

/// The absence for `reason`.
pub open spec fn absence(reason: CellId) -> Data {
    record_of(seq![(ABSENT, Data::Cell(reason))])
}

/// The absence for `reason` with one field of detail.
pub open spec fn absence_with_detail(reason: CellId, field: CellId, detail: Data) -> Data {
    record_of(seq![(ABSENT, Data::Cell(reason)), (field, detail)])
}

/// An absence for `reason`.
pub fn with_reason(reason: CellId) -> (r: Value)
    ensures
        r@ == absence(reason),
        r@.is_sorted_record(),
        spec_reason(r@) == Some(reason),
{
    let mut pairs: Vec<(CellId, Value)> = Vec::new();
    pairs.push((ABSENT, Value::Cell(reason)));
    let r = Value::record(pairs);
    assert(fields_data(pairs@) =~= seq![(ABSENT, Data::Cell(reason))]);
    assert(r@.get(ABSENT) == assigned(fields_data(pairs@), ABSENT));
    r
}

/// An absence for `reason` whose `field` holds `detail`.
pub fn with_detail(reason: CellId, field: CellId, detail: Value) -> (r: Value)
    ensures
        r@ == absence_with_detail(reason, field, detail@),
        r@.is_sorted_record(),
        field != ABSENT ==> spec_reason(r@) == Some(reason),
        field != ABSENT ==> r@.get(field) == Some(detail@),
{
    let ghost d = detail@;
    let mut pairs: Vec<(CellId, Value)> = Vec::new();
    pairs.push((ABSENT, Value::Cell(reason)));
    pairs.push((field, detail));
    let r = Value::record(pairs);
    assert(fields_data(pairs@) =~= seq![(ABSENT, Data::Cell(reason)), (field, d)]);
    assert(r@.get(ABSENT) == assigned(fields_data(pairs@), ABSENT));
    assert(r@.get(field) == assigned(fields_data(pairs@), field));
    assert(fields_data(pairs@).drop_last() =~= seq![(ABSENT, Data::Cell(reason))]);
    assert(assigned(fields_data(pairs@).drop_last(), ABSENT) == Some(Data::Cell(reason)));
    r
}

/// The reason of an absence: a record whose tag field holds a cell.
pub fn reason(value: &Value) -> (r: Option<CellId>)
    ensures
        r == spec_reason(value@),
{
    match value.as_record() {
        Some(fields) => match get(fields, ABSENT) {
            Some(tag) => tag.as_cell(),
            None => None,
        },
        None => None,
    }
}

/// Whether `value` is an absence.
pub fn is_absent(value: &Value) -> (r: bool)
    ensures
        r == spec_reason(value@) is Some,
{
    reason(value).is_some()
}

/// The absence that several causes form.
pub open spec fn spec_from_causes(causes: Seq<Data>) -> Data {
    if causes.len() == 1 {
        causes[0]
    } else {
        record_of(seq![(ABSENT, Data::Cell(NO_ALTERNATIVE)), (CAUSES, list_of(causes))])
    }
}

/// One cause remains itself; any other number of causes becomes an absence
/// without an alternative that lists them in order.
pub fn from_causes(causes: Vec<Value>) -> (r: Value)
    ensures
        r@ == spec_from_causes(causes@.map_values(|v: Value| v@)),
        causes@.len() != 1 ==> spec_reason(r@) == Some(NO_ALTERNATIVE),
        causes@.len() != 1 ==> r@.get(CAUSES) == Some(list_of(causes@.map_values(|v: Value| v@))),
{
    let ghost models = causes@.map_values(|v: Value| v@);
    if causes.len() == 1 {
        let mut causes = causes;
        let only = causes.pop().unwrap();
        only
    } else {
        let list = Value::list(causes);
        let ghost l = list@;
        let mut pairs: Vec<(CellId, Value)> = Vec::new();
        pairs.push((ABSENT, Value::Cell(NO_ALTERNATIVE)));
        pairs.push((CAUSES, list));
        let r = Value::record(pairs);
        assert(fields_data(pairs@) =~= seq![(ABSENT, Data::Cell(NO_ALTERNATIVE)), (CAUSES, l)]);
        assert(r@.get(ABSENT) == assigned(fields_data(pairs@), ABSENT));
        assert(r@.get(CAUSES) == assigned(fields_data(pairs@), CAUSES));
        assert(fields_data(pairs@).drop_last() =~= seq![(ABSENT, Data::Cell(NO_ALTERNATIVE))]);
        assert(assigned(fields_data(pairs@).drop_last(), ABSENT) == Some(
            Data::Cell(NO_ALTERNATIVE),
        ));
        r
    }
}

/// The reason of an absence for `reason` is `reason`.
pub proof fn lemma_reason_of_absence(reason: CellId)
    ensures
        spec_reason(absence(reason)) == Some(reason),
{
    let pairs = seq![(ABSENT, Data::Cell(reason))];
    lemma_build_fields(pairs);
    assert(pairs.last() == (ABSENT, Data::Cell(reason)));
    assert(assigned(pairs, ABSENT) == Some(Data::Cell(reason)));
    assert(field(build_fields(pairs), ABSENT) == Some(Data::Cell(reason)));
}

} // verus!
