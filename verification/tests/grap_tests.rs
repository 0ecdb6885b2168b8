use progred::grap::{function_parameters, lambda_shape, parameters, Definition};
use progred::value::Value;
use progred::vocabulary::{BODY, CLOSURE, ENVIRONMENT, FUNCTION, NAME, PARAMS};

fn lambda(parameters: Vec<u128>, body: Value) -> Value {
    Value::record(vec![
        (PARAMS, Value::list(parameters.into_iter().map(Value::Cell).collect())),
        (BODY, body),
    ])
}

#[test]
fn parameter_metadata_accepts_lambdas_closures_and_aliases_but_not_unknown_callables() {
    let function = 0xc1;
    let alias = 0xc2;
    let parameter = 0xc3;
    let lambda = lambda(vec![parameter], Value::record(vec![]));
    let closure = Value::record(vec![(
        CLOSURE,
        Value::record(vec![
            (PARAMS, Value::list(vec![Value::Cell(parameter)])),
            (BODY, Value::record(vec![])),
            (ENVIRONMENT, Value::record(vec![])),
        ]),
    )]);
    for value in [&lambda, &closure] {
        assert_eq!(function_parameters(value, &vec![]), Some(vec![parameter]));
    }
    let reference = Value::Cell(function);
    let table = vec![
        (alias, Definition { native: false, value: reference.clone() }),
        (function, Definition { native: false, value: lambda.clone() }),
    ];
    assert_eq!(function_parameters(&Value::Cell(alias), &table), Some(vec![parameter]));
    assert_eq!(function_parameters(&reference, &vec![]), None);
    let cycle = vec![(function, Definition { native: false, value: reference.clone() })];
    assert_eq!(function_parameters(&reference, &cycle), None);
    let native = vec![(function, Definition { native: true, value: lambda.clone() })];
    assert_eq!(function_parameters(&reference, &native), None);
    for invalid in [
        Value::record(vec![]),
        Value::record(vec![(FUNCTION, reference.clone())]),
        Value::record(vec![
            (PARAMS, Value::list(vec![Value::record(vec![])])),
            (BODY, Value::record(vec![])),
        ]),
    ] {
        assert_eq!(function_parameters(&invalid, &vec![]), None);
    }
}

#[test]
fn parameters_need_a_body_and_cell_parameters() {
    assert_eq!(parameters(&lambda(vec![1, 2], Value::Cell(3))), Some(vec![1, 2]));
    assert_eq!(parameters(&lambda(vec![], Value::Cell(3))), Some(vec![]));
    assert_eq!(
        parameters(&Value::record(vec![(PARAMS, Value::list(vec![Value::Cell(1)]))])),
        None
    );
    assert_eq!(parameters(&Value::Cell(1)), None);
}

#[test]
fn only_plain_lambdas_project_as_lambdas() {
    let plain = lambda(vec![0xc1, 0xc2], Value::Cell(0xc1));
    assert!(lambda_shape(&plain));
    let mut fields = plain.as_record().unwrap().clone();
    fields.push((NAME, Value::Blob(b"f".to_vec())));
    assert!(lambda_shape(&Value::record(fields.clone())));
    fields.push((0x77, Value::Cell(1)));
    assert!(!lambda_shape(&Value::record(fields)));
    assert!(!lambda_shape(&Value::record(vec![(BODY, Value::Cell(1))])));
    assert!(!lambda_shape(&Value::record(vec![(PARAMS, Value::list(vec![Value::Blob(vec![])]))])));
    assert!(lambda_shape(&Value::record(vec![(PARAMS, Value::list(vec![]))])));
    assert!(!lambda_shape(&Value::Cell(PARAMS)));
}
