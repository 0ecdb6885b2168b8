use progred::logic::{read, require, value, CONDITION, CONDITION_NOT_MET, FALSE, NOT_BOOL, TRUE};
use progred::absent::{reason, with_reason};
use progred::value::{insert, Value};

#[test]
fn booleans_read_back() {
    assert_eq!(read(&value(true)), Some(true));
    assert_eq!(read(&value(false)), Some(false));
    assert_eq!(read(&Value::record(vec![])), None);
}

#[test]
fn require_accepts_true_rejects_false_and_preserves_absents() {
    assert_eq!(require(value(true)), Value::record(vec![]));
    let rejected = require(value(false));
    assert_eq!(reason(&rejected), Some(CONDITION_NOT_MET));
    let not_bool = require(Value::Cell(7));
    assert_eq!(reason(&not_bool), Some(NOT_BOOL));
    let absent = with_reason(20);
    assert_eq!(require(absent.clone()), absent);
    let _ = CONDITION;
}

#[test]
fn booleans_are_open_inert_values_not_evaluated_cell_descriptions() {
    for expected in [true, false] {
        let extra = 0x77;
        let mut fields = value(expected).as_record().unwrap().clone();
        insert(&mut fields, extra, Value::record(vec![]));
        let boolean = Value::record(fields);
        assert_eq!(read(&boolean), Some(expected));
        let cell = if expected { TRUE } else { FALSE };
        assert_eq!(read(&Value::Cell(cell)), None);
    }
}
