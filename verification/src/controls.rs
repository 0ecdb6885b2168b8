//! Control state: each control keeps its state under its key, inside the
//! `STATE` record of a view's annotation. Writing one control's state leaves
//! the annotation's other fields and the other controls' states alone.
use crate::absent::{absence, with_reason};
use crate::value::{
    field, fields_data, get, insert, insert_field, items_data, lemma_insert_field, same, sorted,
    CellId, Data, Position, Value,
};
use crate::vocabulary::NAME;
use vstd::prelude::*;

verus! {

pub const ID: CellId = 0x666ba40b81028e32c78bdc1665d6c3a9;

pub const WITH_CONTROLS: CellId = 0x987acea0ded8eadb18f6b926e945cb0a;

pub const CONTROLS: CellId = 0xb9d3424b750ee1fbba4df638d995e236;

pub const VIEW: CellId = 0x047d43dfc6ba836cd75a7c840f4b9df7;

pub const STATE: CellId = 0x26f287e5868627eacc4b5a2981932e55;

/// The options of a radio control.
pub const OPTIONS: CellId = 0xa84188d71fa018de8ad68c74da7e18e2;

/// The option a radio control starts at.
pub const INITIAL: CellId = 0x133b05e33c166614831f01de2365f49c;

/// The value that an option of a radio control stands for.
pub const VALUE: CellId = 0x84d3ba81fd2a52ea37478f4a868106f4;

/// A control's arguments are not what it accepts.
pub const INVALID_INPUT: CellId = 0x696753238d1730b42d341ef86a2e2fd0;

/// The state stored for control `key`.
pub open spec fn spec_read_state(state: Option<Data>, key: CellId) -> Option<Data> {
    match state {
        Some(annotation) => match annotation.get(STATE) {
            Some(controls) => controls.get(key),
            None => None,
        },
        None => None,
    }
}

/// The fields of a record; none for any other value.
pub open spec fn record_fields(value: Option<Data>) -> Seq<(CellId, Data)> {
    match value {
        Some(Data::Record(fields)) => fields,
        _ => Seq::empty(),
    }
}

/// The annotation with control `key`'s state set to `value`.
pub open spec fn spec_set_state(state: Option<Data>, key: CellId, value: Data) -> Data {
    let fields = record_fields(state);
    let controls = record_fields(field(fields, STATE));
    Data::Record(insert_field(fields, STATE, Data::Record(insert_field(controls, key, value))))
}

/// An annotation in the form that ordered maps give it: the annotation
/// record and its control record keep their fields in key order.
pub open spec fn well_formed(state: Option<Data>) -> bool {
    match state {
        Some(annotation) => annotation.ordered() && match annotation.get(STATE) {
            Some(controls) => controls.ordered(),
            None => true,
        },
        None => true,
    }
}

/// The state stored for control `key`, if any.
pub fn read_state(state: Option<&Value>, key: CellId) -> (r: Option<&Value>)
    ensures
        match r {
            Some(v) => spec_read_state(
                match state {
                    Some(s) => Some(s@),
                    None => None,
                },
                key,
            ) == Some(v@),
            None => spec_read_state(
                match state {
                    Some(s) => Some(s@),
                    None => None,
                },
                key,
            ) is None,
        },
{
    let state = match state {
        Some(state) => state,
        None => return None,
    };
    let fields = match state.as_record() {
        Some(fields) => fields,
        None => return None,
    };
    let controls = match get(fields, STATE) {
        Some(controls) => controls,
        None => return None,
    };
    let controls = match controls.as_record() {
        Some(controls) => controls,
        None => return None,
    };
    get(controls, key)
}

/// Fields of a record, or none.
fn fields_of(value: Option<Value>) -> (r: Vec<(CellId, Value)>)
    requires
        value matches Some(v) ==> v@.ordered(),
    ensures
        fields_data(r@) == record_fields(
            match value {
                Some(v) => Some(v@),
                None => None,
            },
        ),
        sorted(fields_data(r@)),
{
    match value {
        Some(Value::Record(fields)) => fields,
        _ => {
            let r = Vec::new();
            assert(fields_data(r@) =~= Seq::empty());
            r
        },
    }
}

/// The annotation with control `key`'s state set to `value`.
pub fn set_state(state: Option<&Value>, key: CellId, value: Value) -> (r: Value)
    requires
        well_formed(
            match state {
                Some(s) => Some(s@),
                None => None,
            },
        ),
    ensures
        r@ == spec_set_state(
            match state {
                Some(s) => Some(s@),
                None => None,
            },
            key,
            value@,
        ),
        well_formed(Some(r@)),
{
    let ghost model = match state {
        Some(s) => Some(s@),
        None => None,
    };
    let mut fields = fields_of(
        match state {
            Some(state) => Some(state.duplicate()),
            None => None,
        },
    );
    let mut controls = fields_of(
        match get(&fields, STATE) {
            Some(controls) => Some(controls.duplicate()),
            None => None,
        },
    );
    let ghost before = fields_data(fields@);
    insert(&mut controls, key, value);
    let ghost inner = Data::Record(fields_data(controls@));
    insert(&mut fields, STATE, Value::Record(controls));
    proof {
        lemma_insert_field(before, STATE, inner);
    }
    Value::Record(fields)
}

/// What a read gives back of a write: the state just written for `key`, and
/// for every other control the state it had before.
pub proof fn lemma_read_after_set(state: Option<Data>, key: CellId, value: Data, other: CellId)
    requires
        well_formed(state),
    ensures
        spec_read_state(Some(spec_set_state(state, key, value)), key) == Some(value),
        other != key ==> spec_read_state(Some(spec_set_state(state, key, value)), other)
            == spec_read_state(state, other),
{
    let fields = record_fields(state);
    let controls = record_fields(field(fields, STATE));
    assert(sorted(fields));
    assert(sorted(controls));
    lemma_insert_field(controls, key, value);
    lemma_insert_field(fields, STATE, Data::Record(insert_field(controls, key, value)));
}

/// Writing a control's state leaves every other field of the annotation alone.
pub proof fn lemma_set_keeps_fields(state: Option<Data>, key: CellId, value: Data, other: CellId)
    requires
        well_formed(state),
        other != STATE,
    ensures
        spec_set_state(state, key, value).get(other) == match state {
            Some(annotation) => annotation.get(other),
            None => None,
        },
{
    let fields = record_fields(state);
    let controls = record_fields(field(fields, STATE));
    lemma_insert_field(fields, STATE, Data::Record(insert_field(controls, key, value)));
    match state {
        Some(Data::Record(f)) => {},
        Some(annotation) => {
            crate::value::lemma_field_none(fields, other);
        },
        None => {
            crate::value::lemma_field_none(fields, other);
        },
    }
}

/// The value of a radio option: an option is a record with a name and a
/// value.
pub open spec fn option_value(option: Data) -> Option<Data> {
    match option {
        Data::Record(fields) => if field(fields, NAME) is Some {
            field(fields, VALUE)
        } else {
            None
        },
        _ => None,
    }
}

/// The values of a radio control's options: present when the options are
/// a nonempty list of options whose values are pairwise different.
pub open spec fn spec_radio_values(options: Data) -> Option<Seq<Data>> {
    match options {
        Data::List(items) => {
            let values = items.map_values(|item: (Position, Data)| option_value(item.1));
            if items.len() > 0 && (forall|i: int| 0 <= i < values.len() ==> #[trigger] values[i] is Some)
                && (forall|i: int, j: int|
                0 <= i < j < values.len() ==> #[trigger] values[i] != #[trigger] values[j]) {
                Some(values.map_values(|value: Option<Data>| value->Some_0))
            } else {
                None
            }
        },
        _ => None,
    }
}

/// What a radio control selects: an invalid-input absence for invalid
/// options or a starting value that is no option's; otherwise the stored
/// state where it is an option's value, and else the starting value, which
/// is the first option's unless one is given.
pub open spec fn spec_radio_choice(options: Data, initial: Option<Data>, stored: Option<Data>) -> Result<
    Data,
    Data,
> {
    match spec_radio_values(options) {
        None => Err(absence(INVALID_INPUT)),
        Some(values) => {
            let start = match initial {
                Some(value) => value,
                None => values[0],
            };
            if !values.contains(start) {
                Err(absence(INVALID_INPUT))
            } else {
                match stored {
                    Some(state) => if values.contains(state) {
                        Ok(state)
                    } else {
                        Ok(start)
                    },
                    None => Ok(start),
                }
            }
        },
    }
}

/// Whether some option among `items` stands for `value`.
pub open spec fn offers(items: Seq<(Position, Data)>, value: Data) -> bool {
    exists|j: int| 0 <= j < items.len() && #[trigger] option_value(items[j].1) == Some(value)
}

proof fn lemma_offers_values(items: Seq<(Position, Data)>, value: Data)
    requires
        spec_radio_values(Data::List(items)) is Some,
    ensures
        spec_radio_values(Data::List(items))->Some_0.contains(value) <==> offers(items, value),
{
    let values = items.map_values(|item: (Position, Data)| option_value(item.1));
    let all = spec_radio_values(Data::List(items))->Some_0;
    assert(all == values.map_values(|value: Option<Data>| value->Some_0));
    if offers(items, value) {
        let j = choose|j: int| 0 <= j < items.len() && #[trigger] option_value(items[j].1) == Some(
            value,
        );
        assert(values[j] == option_value(items[j].1));
        assert(all[j] == value);
    }
    if all.contains(value) {
        let j = choose|j: int| 0 <= j < all.len() && all[j] == value;
        assert(values[j] == option_value(items[j].1));
        assert(values[j] is Some);
        assert(option_value(items[j].1) == Some(value));
    }
}

/// A radio control keeps a stored selection that is one of its options,
/// whether or not a starting value is given; whatever it selects is one of
/// its options; and it refuses exactly invalid options or a starting value
/// that no option stands for.
pub proof fn lemma_radio_choice_selects_option(
    items: Seq<(Position, Data)>,
    initial: Option<Data>,
    stored: Option<Data>,
)
    ensures
        spec_radio_values(Data::List(items)) is Some && (initial is None || offers(
            items,
            initial->Some_0,
        )) && stored is Some && offers(items, stored->Some_0) ==> spec_radio_choice(
            Data::List(items),
            initial,
            stored,
        ) == Ok::<Data, Data>(stored->Some_0) && spec_radio_choice(Data::List(items), None, stored)
            == Ok::<Data, Data>(stored->Some_0),
        spec_radio_choice(Data::List(items), initial, stored) is Ok ==> offers(
            items,
            spec_radio_choice(Data::List(items), initial, stored)->Ok_0,
        ),
        spec_radio_choice(Data::List(items), initial, stored) is Err <==> (spec_radio_values(
            Data::List(items),
        ) is None || (initial is Some && !offers(items, initial->Some_0))),
        spec_radio_values(Data::List(items)) is Some && (initial is None || offers(
            items,
            initial->Some_0,
        )) && (stored is None || !offers(items, stored->Some_0)) ==> spec_radio_choice(
            Data::List(items),
            initial,
            stored,
        ) == Ok::<Data, Data>(
            match initial {
                Some(value) => value,
                None => spec_radio_values(Data::List(items))->Some_0[0],
            },
        ),
{
    if spec_radio_values(Data::List(items)) is Some {
        let all = spec_radio_values(Data::List(items))->Some_0;
        if let Some(value) = initial {
            lemma_offers_values(items, value);
        } else {
            lemma_offers_values(items, all[0]);
            assert(all.contains(all[0]));
        }
        if let Some(state) = stored {
            lemma_offers_values(items, state);
        }
        lemma_offers_values(items, all[0]);
        assert(all.contains(all[0]));
    }
}

/// Whether `value` is among `values`.
fn among(values: &Vec<&Value>, value: &Value) -> (r: bool)
    ensures
        r == values@.map_values(|v: &Value| v@).contains(value@),
{
    let ghost model = values@.map_values(|v: &Value| v@);
    let mut i: usize = 0;
    while i < values.len()
        invariant
            i <= values@.len(),
            model == values@.map_values(|v: &Value| v@),
            forall|j: int| 0 <= j < i ==> model[j] != value@,
        decreases values@.len() - i,
    {
        if same(values[i], value) {
            assert(model[i as int] == value@);
            return true;
        }
        i = i + 1;
    }
    false
}

/// The value a radio control selects, or the absence it gives for invalid
/// options or an initial value that is no option's.
pub fn radio_choice(options: &Value, initial: Option<&Value>, stored: Option<&Value>) -> (r: Result<
    Value,
    Value,
>)
    ensures
        match r {
            Ok(value) => spec_radio_choice(
                options@,
                match initial {
                    Some(v) => Some(v@),
                    None => None,
                },
                match stored {
                    Some(v) => Some(v@),
                    None => None,
                },
            ) == Ok::<Data, Data>(value@),
            Err(absent) => spec_radio_choice(
                options@,
                match initial {
                    Some(v) => Some(v@),
                    None => None,
                },
                match stored {
                    Some(v) => Some(v@),
                    None => None,
                },
            ) == Err::<Data, Data>(absent@),
        },
{
    let items = match options.as_list() {
        Some(items) => items,
        None => return Err(with_reason(INVALID_INPUT)),
    };
    let ghost data = items_data(items@);
    let ghost spec_values = data.map_values(|item: (Position, Data)| option_value(item.1));
    let mut values: Vec<&Value> = Vec::new();
    let mut i: usize = 0;
    while i < items.len()
        invariant
            i <= items@.len(),
            options@ == Data::List(data),
            data == items_data(items@),
            spec_values == data.map_values(|item: (Position, Data)| option_value(item.1)),
            values@.len() == i,
            forall|k: int| 0 <= k < i ==> spec_values[k] == Some(#[trigger] values@[k]@),
            forall|k: int, m: int| 0 <= k < m < i ==> (#[trigger] values@[k])@ != (#[trigger] values@[m])@,
        decreases items@.len() - i,
    {
        let fields = match items[i].1.as_record() {
            Some(fields) => fields,
            None => {
                assert(spec_values[i as int] is None);
                return Err(with_reason(INVALID_INPUT));
            },
        };
        if get(fields, NAME).is_none() {
            assert(spec_values[i as int] is None);
            return Err(with_reason(INVALID_INPUT));
        }
        let value = match get(fields, VALUE) {
            Some(value) => value,
            None => {
                assert(spec_values[i as int] is None);
                return Err(with_reason(INVALID_INPUT));
            },
        };
        if among(&values, value) {
            proof {
                let model = values@.map_values(|v: &Value| v@);
                let k = choose|k: int| 0 <= k < model.len() && #[trigger] model[k] == value@;
                assert(spec_values[k] == spec_values[i as int]);
            }
            return Err(with_reason(INVALID_INPUT));
        }
        proof {
            assert forall|k: int| 0 <= k < i implies values@[k]@ != value@ by {
                assert(values@.map_values(|v: &Value| v@)[k] == values@[k]@);
            }
        }
        values.push(value);
        i = i + 1;
    }
    if values.len() == 0 {
        return Err(with_reason(INVALID_INPUT));
    }
    let ghost all = values@.map_values(|v: &Value| v@);
    proof {
        assert(spec_radio_values(options@) == Some(all)) by {
            assert(data.len() == items@.len());
            assert forall|k: int| 0 <= k < spec_values.len() implies #[trigger] spec_values[k] is Some by {
                assert(spec_values[k] == Some(values@[k]@));
            }
            assert forall|k: int, m: int|
                0 <= k < m < spec_values.len() implies #[trigger] spec_values[k]
                != #[trigger] spec_values[m] by {
                assert(spec_values[k] == Some(values@[k]@));
                assert(spec_values[m] == Some(values@[m]@));
            }
            assert(spec_values.map_values(|value: Option<Data>| value->Some_0) =~= all);
        }
    }
    let start: &Value = match initial {
        Some(value) => value,
        None => values[0],
    };
    if !among(&values, start) {
        return Err(with_reason(INVALID_INPUT));
    }
    match stored {
        Some(state) => if among(&values, state) {
            Ok(state.duplicate())
        } else {
            Ok(start.duplicate())
        },
        None => Ok(start.duplicate()),
    }
}

} // verus!
