use progred::absent::with_reason;
use progred::controls::{radio_choice, INVALID_INPUT, VALUE as RADIO_VALUE};
use progred::value::same;
use progred::vocabulary::NAME;
use progred::controls::{read_state, set_state, STATE};
use progred::value::{get, Value};

#[test]
fn a_stored_state_reads_back_and_other_controls_keep_theirs() {
    let first = set_state(None, 0xa1, Value::Cell(1));
    assert_eq!(read_state(Some(&first), 0xa1), Some(&Value::Cell(1)));
    assert_eq!(read_state(Some(&first), 0xa2), None);

    let second = set_state(Some(&first), 0xa2, Value::Blob(vec![2]));
    assert_eq!(read_state(Some(&second), 0xa1), Some(&Value::Cell(1)));
    assert_eq!(read_state(Some(&second), 0xa2), Some(&Value::Blob(vec![2])));

    let replaced = set_state(Some(&second), 0xa1, Value::Cell(3));
    assert_eq!(read_state(Some(&replaced), 0xa1), Some(&Value::Cell(3)));
    assert_eq!(read_state(Some(&replaced), 0xa2), Some(&Value::Blob(vec![2])));
}

#[test]
fn setting_a_state_keeps_the_annotations_other_fields() {
    let annotation = Value::record(vec![(0xb1, Value::Cell(7))]);
    let updated = set_state(Some(&annotation), 0xa1, Value::Cell(1));
    let fields = updated.as_record().unwrap();
    assert_eq!(get(fields, 0xb1), Some(&Value::Cell(7)));
    assert!(get(fields, STATE).is_some());
    assert_eq!(read_state(None, 0xa1), None);
    assert_eq!(read_state(Some(&Value::Cell(3)), 0xa1), None);
}

fn option(name: &[u8], value: Value) -> Value {
    Value::record(vec![(NAME, Value::Blob(name.to_vec())), (RADIO_VALUE, value)])
}

#[test]
fn radio_choices_keep_valid_state_and_start_at_an_option() {
    let options = Value::list(vec![option(b"one", Value::Cell(1)), option(b"two", Value::Cell(2))]);
    assert_eq!(radio_choice(&options, None, None), Ok(Value::Cell(1)));
    assert_eq!(radio_choice(&options, Some(&Value::Cell(2)), None), Ok(Value::Cell(2)));
    assert_eq!(radio_choice(&options, None, Some(&Value::Cell(2))), Ok(Value::Cell(2)));
    assert_eq!(radio_choice(&options, Some(&Value::Cell(2)), Some(&Value::Cell(9))), Ok(Value::Cell(2)));
    let invalid = Err(with_reason(INVALID_INPUT));
    assert_eq!(radio_choice(&options, Some(&Value::Cell(3)), Some(&Value::Cell(1))), invalid);
    let repeated = Value::list(vec![option(b"one", Value::Cell(1)), option(b"again", Value::Cell(1))]);
    assert_eq!(radio_choice(&repeated, None, None), invalid);
    assert_eq!(radio_choice(&Value::list(vec![]), None, None), invalid);
    let unnamed = Value::list(vec![Value::record(vec![(RADIO_VALUE, Value::Cell(1))])]);
    assert_eq!(radio_choice(&unnamed, None, None), invalid);
    assert_eq!(radio_choice(&Value::Cell(1), None, None), invalid);
}

#[test]
fn values_are_the_same_exactly_when_their_data_is() {
    let a = Value::record(vec![(1, Value::list(vec![Value::Blob(vec![1, 2])]))]);
    assert!(same(&a, &a.clone()));
    assert!(!same(&a, &Value::record(vec![(1, Value::list(vec![Value::Blob(vec![1, 3])]))])));
    assert!(!same(&Value::Cell(1), &Value::Blob(vec![])));
}
