use progred::outline::{extras, sections, OUTLINE};
use progred::value::{contains_key, Value};

#[test]
fn outline_order_preserves_repeated_occurrences_and_unrelated_fields() {
    let a = 1;
    let b = 2;
    let value = Value::record(vec![
        (
            OUTLINE,
            Value::list(vec![Value::Cell(b), Value::Cell(a), Value::Cell(b)]),
        ),
        (a, Value::record(vec![])),
    ]);
    assert_eq!(sections(&value), Some(vec![b, a, b]));
    assert!(!contains_key(value.as_record().unwrap(), b));
    assert!(sections(&Value::record(vec![(
        OUTLINE,
        Value::list(vec![Value::record(vec![])])
    )]))
    .is_none());
}

#[test]
fn a_value_without_an_outline_has_no_sections() {
    assert_eq!(sections(&Value::record(vec![])), None);
    assert_eq!(sections(&Value::Cell(OUTLINE)), None);
    assert_eq!(
        sections(&Value::record(vec![(OUTLINE, Value::list(vec![]))])),
        Some(vec![])
    );
}

#[test]
fn fields_that_no_section_names_stay_extras() {
    let (a, b, c) = (1, 2, 3);
    let value = Value::record(vec![
        (OUTLINE, Value::list(vec![Value::Cell(b), Value::Cell(a), Value::Cell(b)])),
        (a, Value::record(vec![])),
        (c, Value::Cell(9)),
        (5, Value::Cell(9)),
    ]);
    let keys = sections(&value).unwrap();
    assert_eq!(extras(&value, &keys), Some(vec![c, 5]));
    assert_eq!(extras(&value, &vec![]), Some(vec![a, c, 5]));
    assert_eq!(extras(&Value::Cell(a), &keys), None);
}
