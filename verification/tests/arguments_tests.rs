use progred::arguments::{argument_order, arrange, compare_text, precedes, Comparison};
use progred::grap::Definition;
use progred::value::Value;
use progred::vocabulary::{BODY, FUNCTION, PARAMS};

fn lambda(parameters: Vec<u128>, body: Value) -> Value {
    Value::record(vec![
        (PARAMS, Value::list(parameters.into_iter().map(Value::Cell).collect())),
        (BODY, body),
    ])
}

fn fields(value: &Value) -> &Vec<(u128, Value)> {
    value.as_record().unwrap()
}

#[test]
fn a_call_uses_its_stored_lambdas_parameter_order_then_stable_extras() {
    const FUNCTION_CELL: u128 = 10;
    const FIRST_PARAMETER: u128 = 30;
    const SECOND_PARAMETER: u128 = 20;
    const FIRST_EXTRA: u128 = 40;
    const SECOND_EXTRA: u128 = 50;
    let definition = lambda(vec![FIRST_PARAMETER, SECOND_PARAMETER], Value::Cell(FIRST_PARAMETER));
    let call = Value::record(vec![
        (FUNCTION, Value::Cell(FUNCTION_CELL)),
        (SECOND_EXTRA, Value::Blob(vec![5])),
        (SECOND_PARAMETER, Value::Blob(vec![2])),
        (FIRST_EXTRA, Value::Blob(vec![4])),
        (FIRST_PARAMETER, Value::Blob(vec![3])),
    ]);
    let stored = vec![(FUNCTION_CELL, Definition { native: false, value: definition.clone() })];
    assert_eq!(
        argument_order(fields(&call), &stored, &vec![]),
        Some(vec![FIRST_PARAMETER, SECOND_PARAMETER, FIRST_EXTRA, SECOND_EXTRA])
    );
    let native = vec![(FUNCTION_CELL, Definition { native: true, value: definition })];
    assert_eq!(
        argument_order(fields(&call), &native, &vec![]),
        Some(vec![SECOND_PARAMETER, FIRST_PARAMETER, FIRST_EXTRA, SECOND_EXTRA])
    );
}

#[test]
fn a_call_uses_an_inline_lambdas_parameter_order() {
    const FIRST_PARAMETER: u128 = 2;
    const SECOND_PARAMETER: u128 = 1;
    let call = Value::record(vec![
        (FUNCTION, lambda(vec![FIRST_PARAMETER, SECOND_PARAMETER], Value::Cell(FIRST_PARAMETER))),
        (SECOND_PARAMETER, Value::Blob(vec![1])),
        (FIRST_PARAMETER, Value::Blob(vec![2])),
    ]);
    assert_eq!(
        argument_order(fields(&call), &vec![], &vec![]),
        Some(vec![FIRST_PARAMETER, SECOND_PARAMETER])
    );
}

#[test]
fn a_record_without_a_function_has_no_argument_order() {
    let record = Value::record(vec![(7, Value::Blob(vec![]))]);
    assert_eq!(argument_order(fields(&record), &vec![], &vec![]), None);
    let empty_call = Value::record(vec![(FUNCTION, Value::Cell(3))]);
    assert_eq!(argument_order(fields(&empty_call), &vec![], &vec![]), Some(vec![]));
}

#[test]
fn extras_follow_names_then_cells_with_unnamed_fields_last() {
    let names = vec![
        (40, "beta".to_string()),
        (50, "alpha".to_string()),
        (70, "alpha".to_string()),
        (90, "alphabet".to_string()),
    ];
    let parameters = vec![80, 60, 80];
    let keys = vec![FUNCTION, 90, 80, 70, 60, 50, 40, 30];
    assert_eq!(arrange(&keys, &parameters, &names), vec![80, 60, 50, 70, 90, 40, 30]);
    assert!(precedes(80, 60, &parameters, &names));
    assert!(!precedes(60, 80, &parameters, &names));
    assert!(precedes(60, 50, &parameters, &names));
    assert!(precedes(40, 30, &parameters, &names));
    assert!(!precedes(30, 30, &parameters, &names));
}

#[test]
fn texts_compare_by_code_point_with_prefixes_first() {
    assert_eq!(compare_text("a", "b"), Comparison::Less);
    assert_eq!(compare_text("ab", "a"), Comparison::Greater);
    assert_eq!(compare_text("", "a"), Comparison::Less);
    assert_eq!(compare_text("same", "same"), Comparison::Equal);
    assert_eq!(compare_text("z", "é"), Comparison::Less);
    assert_eq!(compare_text("Z", "a"), Comparison::Less);
    for (left, right) in [("alpha", "alphabet"), ("é", "z"), ("x", "x")] {
        let expected = match left.cmp(right) {
            std::cmp::Ordering::Less => Comparison::Less,
            std::cmp::Ordering::Equal => Comparison::Equal,
            std::cmp::Ordering::Greater => Comparison::Greater,
        };
        assert_eq!(compare_text(left, right), expected);
    }
}
