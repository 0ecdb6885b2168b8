use progred::absent::{
    from_causes, is_absent, reason, with_detail, with_reason, ABSENT, CAUSES, NO_ALTERNATIVE,
};
use progred::value::{get, insert, Value};

#[test]
fn absence_is_an_open_tag_with_a_stable_reason() {
    let reason_cell = 0x51;
    let extra = 0x52;
    let mut fields = with_reason(reason_cell).as_record().unwrap().clone();
    insert(&mut fields, extra, Value::Blob(vec![1]));
    let absent = Value::record(fields);

    assert!(is_absent(&absent));
    assert_eq!(reason(&absent), Some(reason_cell));
    assert!(!is_absent(&Value::record(vec![(0x53, Value::Cell(0x54))])));
    assert!(!is_absent(&Value::record(vec![(ABSENT, Value::Blob(vec![1]))])));
}

#[test]
fn multiple_causes_form_an_ordered_absence_while_one_remains_itself() {
    let first = with_reason(0x61);
    let second = with_reason(0x62);

    assert_eq!(from_causes(vec![first.clone()]), first);
    let combined = from_causes(vec![first.clone(), second.clone()]);
    assert_eq!(reason(&combined), Some(NO_ALTERNATIVE));
    assert_eq!(
        combined.as_record().and_then(|fields| get(fields, CAUSES)),
        Some(&Value::list(vec![first, second])),
    );
}

#[test]
fn no_cause_is_an_absence_without_alternative() {
    let none = from_causes(vec![]);
    assert_eq!(reason(&none), Some(NO_ALTERNATIVE));
    assert_eq!(
        none.as_record().and_then(|fields| get(fields, CAUSES)),
        Some(&Value::list(vec![])),
    );
}

#[test]
fn a_detailed_absence_keeps_its_reason_and_detail() {
    let absent = with_detail(0x71, 0x72, Value::Cell(0x73));
    assert_eq!(reason(&absent), Some(0x71));
    assert_eq!(
        absent.as_record().and_then(|fields| get(fields, 0x72)),
        Some(&Value::Cell(0x73))
    );
    assert_eq!(reason(&Value::Cell(ABSENT)), None);
}
