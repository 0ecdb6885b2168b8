use progred::value::{contains_key, element, get, insert, remove, Value};

#[test]
fn record_keeps_the_last_assignment_of_each_key_in_key_order() {
    let record = Value::record(vec![
        (3, Value::Cell(30)),
        (1, Value::Cell(10)),
        (3, Value::Cell(31)),
    ]);
    let fields = record.as_record().unwrap();
    assert_eq!(fields.len(), 2);
    assert_eq!(fields[0].0, 1);
    assert_eq!(fields[1].0, 3);
    assert_eq!(get(fields, 3), Some(&Value::Cell(31)));
    assert_eq!(get(fields, 2), None);
}

#[test]
fn lists_number_their_elements_from_zero() {
    let list = Value::list(vec![Value::Cell(5), Value::Blob(vec![1, 2])]);
    let items = list.as_list().unwrap();
    assert_eq!(element(items, 0), Some(&Value::Cell(5)));
    assert_eq!(element(items, 1), Some(&Value::Blob(vec![1, 2])));
    assert_eq!(element(items, 2), None);
}

#[test]
fn insert_and_remove_touch_only_their_key() {
    let mut fields = Value::record(vec![(1, Value::Cell(10)), (5, Value::Cell(50))])
        .as_record()
        .unwrap()
        .clone();
    insert(&mut fields, 3, Value::Cell(30));
    assert_eq!(
        fields.iter().map(|(key, _)| *key).collect::<Vec<_>>(),
        vec![1, 3, 5]
    );
    insert(&mut fields, 5, Value::Cell(55));
    assert_eq!(get(&fields, 5), Some(&Value::Cell(55)));
    assert_eq!(remove(&mut fields, 1), Some(Value::Cell(10)));
    assert_eq!(remove(&mut fields, 1), None);
    assert!(!contains_key(&fields, 1));
    assert_eq!(get(&fields, 3), Some(&Value::Cell(30)));
}

#[test]
fn values_of_other_kinds_are_not_records() {
    assert_eq!(Value::Cell(4).as_record(), None);
    assert_eq!(Value::Cell(4).as_cell(), Some(4));
    assert_eq!(Value::Blob(vec![9]).as_blob(), Some(&vec![9]));
    assert_eq!(Value::list(vec![]).as_cell(), None);
}
