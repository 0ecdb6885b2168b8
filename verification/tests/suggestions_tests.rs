use progred::offers::{binding_offers, calls_binding, offer_order};
use progred::suggestions::{bindings, Step};
use progred::value::{element, get, Value};
use progred::vocabulary::{
    BIND, BINDINGS, BODY, CASES, EXPRESSION, FUNCTION, LET, MATCH, PARAMS, PATTERN, QUOTE, UNQUOTE,
    VALUE, WHERE,
};
use std::collections::{BTreeMap, BTreeSet};

fn at(root: &Value, path: &[Step]) -> Option<Value> {
    let mut current = root.clone();
    for step in path {
        current = match step {
            Step::Key(key) => get(current.as_record()?, *key)?.clone(),
            Step::Element(position) => element(current.as_list()?, *position)?.clone(),
            Step::Follow(_) => return None,
        };
    }
    Some(current)
}

fn depths(root: &Value, path: &[Step]) -> BTreeMap<u128, usize> {
    let values: Vec<Option<Value>> = (0..path.len()).map(|i| at(root, &path[..i])).collect();
    bindings(&path.to_vec(), &values)
}

fn visible(root: Value, path: &[Step]) -> BTreeSet<u128> {
    depths(&root, path).into_keys().collect()
}

fn lambda(parameters: Vec<u128>, body: Value) -> Value {
    Value::record(vec![
        (PARAMS, Value::list(parameters.into_iter().map(Value::Cell).collect())),
        (BODY, body),
    ])
}

fn call(function: u128, arguments: Vec<(u128, Value)>) -> Value {
    let mut fields = vec![(FUNCTION, Value::Cell(function))];
    fields.extend(arguments);
    Value::record(fields)
}

#[test]
fn completion_bindings_sort_nearest_scope_first_then_by_current_name() {
    let (outer, inner_z, inner_a) = (0xd1, 0xd2, 0xd3);
    let root = lambda(vec![outer], lambda(vec![inner_z, inner_a], Value::record(vec![])));
    let path = [Step::Key(BODY), Step::Key(BODY)];
    for (label, expected) in [
        ("banana", [inner_a, inner_z, outer]),
        ("zz", [inner_z, inner_a, outer]),
    ] {
        let names = vec![
            (outer, "apple".to_string()),
            (inner_z, "Zebra".to_string()),
            (inner_a, label.to_string()),
        ];
        assert_eq!(offer_order(&depths(&root, &path), &names), expected);
    }
    let root = lambda(vec![outer, inner_z], lambda(vec![outer], Value::record(vec![])));
    let depths = depths(&root, &[Step::Key(BODY), Step::Key(BODY)]);
    assert_eq!(depths[&outer], 1, "a rebound cell belongs to the nearest scope");
    assert_eq!(depths[&inner_z], 0);
}

#[test]
fn completion_bindings_follow_lambda_scope_and_quote_boundaries() {
    let outer = 0xd3;
    let inner = 0xd4;
    let root = lambda(vec![outer], lambda(vec![inner], Value::record(vec![])));
    assert_eq!(
        visible(root.clone(), &[Step::Key(BODY), Step::Key(BODY)]),
        BTreeSet::from([outer, inner])
    );
    assert_eq!(
        visible(root, &[Step::Key(BODY), Step::Key(PARAMS)]),
        BTreeSet::from([outer])
    );
    let root = lambda(
        vec![outer],
        call(
            QUOTE,
            vec![(
                EXPRESSION,
                lambda(vec![inner], Value::record(vec![(UNQUOTE, Value::record(vec![]))])),
            )],
        ),
    );
    assert_eq!(
        visible(
            root,
            &[
                Step::Key(BODY),
                Step::Key(EXPRESSION),
                Step::Key(BODY),
                Step::Key(UNQUOTE)
            ]
        ),
        BTreeSet::from([outer])
    );
}

#[test]
fn completion_bindings_include_only_preceding_let_bindings_and_current_match_case() {
    let first = 0xd5;
    let second = 0xd6;
    let binder = |cell| Value::record(vec![(BIND, Value::Cell(cell))]);
    let clauses = Value::list(vec![
        Value::record(vec![(BIND, Value::Cell(first)), (VALUE, Value::record(vec![]))]),
        Value::record(vec![
            (PATTERN, Value::list(vec![binder(second)])),
            (VALUE, Value::record(vec![])),
        ]),
    ]);
    let positions: Vec<u64> = clauses
        .as_list()
        .unwrap()
        .iter()
        .map(|(position, _)| *position)
        .collect();
    for function in [LET, WHERE] {
        let root = call(
            function,
            vec![(BINDINGS, clauses.clone()), (EXPRESSION, Value::record(vec![]))],
        );
        assert_eq!(
            visible(root.clone(), &[Step::Key(EXPRESSION)]),
            BTreeSet::from([first, second])
        );
        for (index, expected) in [BTreeSet::new(), BTreeSet::from([first])]
            .into_iter()
            .enumerate()
        {
            assert_eq!(
                visible(
                    root.clone(),
                    &[
                        Step::Key(BINDINGS),
                        Step::Element(positions[index]),
                        Step::Key(VALUE)
                    ]
                ),
                expected
            );
        }
    }
    let cases = Value::list(
        [first, second]
            .map(|cell| Value::record(vec![(PATTERN, binder(cell)), (EXPRESSION, Value::record(vec![]))]))
            .to_vec(),
    );
    let positions: Vec<u64> = cases
        .as_list()
        .unwrap()
        .iter()
        .map(|(position, _)| *position)
        .collect();
    let root = call(MATCH, vec![(CASES, cases), (VALUE, Value::record(vec![]))]);
    for (position, cell) in positions.into_iter().zip([first, second]) {
        assert_eq!(
            visible(
                root.clone(),
                &[Step::Key(CASES), Step::Element(position), Step::Key(EXPRESSION)]
            ),
            BTreeSet::from([cell])
        );
    }
    assert!(visible(root, &[Step::Key(VALUE)]).is_empty());
}

#[test]
fn a_query_that_opens_a_string_offers_no_binding() {
    let (first, second) = (0xe1, 0xe2);
    let root = lambda(vec![second, first], Value::record(vec![]));
    let visible = depths(&root, &[Step::Key(BODY)]);
    assert_eq!(binding_offers("  \"ab", &visible, &vec![]), Vec::<u128>::new());
    assert_eq!(binding_offers("", &visible, &vec![]), vec![first, second]);
    assert_eq!(binding_offers("a\"", &visible, &vec![]), vec![first, second]);
    let names = vec![(second, "Alpha".to_string()), (first, "alpha".to_string())];
    assert_eq!(binding_offers(" x ", &visible, &names), vec![second, first]);
}

#[test]
fn offers_that_call_a_visible_binding_are_recognised() {
    let bound = 0xf1;
    let mut visible = BTreeMap::new();
    visible.insert(bound, 0usize);
    assert!(calls_binding(&call(bound, vec![]), &visible));
    assert!(!calls_binding(&call(0xf2, vec![]), &visible));
    assert!(!calls_binding(&Value::Cell(bound), &visible));
    let computed = Value::record(vec![(FUNCTION, lambda(vec![], Value::Cell(bound)))]);
    assert!(!calls_binding(&computed, &visible));
}
