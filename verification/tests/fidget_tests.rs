use progred::fidget::{depth, fingerprint, DEFAULT_DEPTH};

#[test]
fn depth_is_bounded_and_defaults_to_six() {
    assert_eq!(depth(None), Some(6));
    assert_eq!(DEFAULT_DEPTH, 6);
    for n in 1..=8u64 {
        assert_eq!(depth(Some(Some(n))), Some(n as u8));
    }
    for n in [0, 9, u64::MAX] {
        assert_eq!(depth(Some(Some(n))), None);
    }
    assert_eq!(depth(Some(None)), None);
}

#[test]
fn fingerprints_are_sixteen_hex_digits_of_fnv1a() {
    assert_eq!(fingerprint(b""), "cbf29ce484222325");
    assert_eq!(fingerprint(b"a"), "af63dc4c8601ec8c");
    assert_eq!(fingerprint(b"foobar"), "85944171f73967e8");
    assert_ne!(fingerprint(&[1, 2]), fingerprint(&[2, 1]));
}

use progred::fidget::{
    binary, form, needs_group, node, one_marker, parameters, precedence, unary, Precedence, AXIS,
    DIVIDE, MULTIPLY, SIN, SQUARE, SUM, TRANSLATE, X,
};
use progred::number::{LEFT, OPERAND, RIGHT};
use progred::value::{insert, Value};
use progred::vocabulary::NAME;

fn number(n: f32) -> Value {
    Value::Blob(n.to_bits().to_le_bytes().to_vec())
}

#[test]
fn grouping_preserves_the_expression_tree_without_reassociating() {
    let sum = binary(SUM, number(1.0), number(2.0));
    let product = binary(MULTIPLY, number(1.0), number(2.0));
    for (parent, key, child, grouped) in [
        (MULTIPLY, LEFT, &sum, true),
        (SUM, LEFT, &product, false),
        (SUM, LEFT, &sum, false),
        (SUM, RIGHT, &sum, true),
        (DIVIDE, RIGHT, &product, true),
    ] {
        assert_eq!(needs_group(parent, key, child), grouped);
    }
}

#[test]
fn unrelated_fields_do_not_block_notation_or_change_grouping() {
    let extra = 0x3f;
    for value in [
        Value::record(vec![
            (SUM, Value::record(vec![(LEFT, number(1.0)), (RIGHT, number(2.0))])),
            (extra, number(3.0)),
        ]),
        node(
            SUM,
            Value::record(vec![(LEFT, number(1.0)), (RIGHT, number(2.0)), (extra, number(3.0))]),
        ),
    ] {
        assert!(form(&value).is_some());
        for (parent, key, grouped) in [(MULTIPLY, LEFT, true), (SUM, LEFT, false), (SUM, RIGHT, true)] {
            assert_eq!(needs_group(parent, key, &value), grouped);
        }
    }
    for value in [unary(SIN, number(1.0)), node(AXIS, Value::Cell(X))] {
        let mut fields = value.as_record().unwrap().clone();
        insert(&mut fields, extra, number(3.0));
        assert!(form(&Value::record(fields)).is_some());
    }
}

#[test]
fn incomplete_malformed_and_conflicting_forms_still_decline() {
    for value in [
        node(SUM, Value::record(vec![(LEFT, number(1.0))])),
        node(SUM, Value::record(vec![(RIGHT, number(1.0))])),
        node(SIN, number(1.0)),
        node(AXIS, number(1.0)),
        Value::record(vec![
            (AXIS, Value::Cell(X)),
            (SIN, Value::record(vec![(OPERAND, number(1.0))])),
        ]),
    ] {
        assert!(form(&value).is_none());
    }
    assert!(form(&node(TRANSLATE, Value::record(vec![]))).is_none());
}

#[test]
fn forms_report_their_marker_and_content() {
    let square = unary(SQUARE, number(2.0));
    let (marker, content) = form(&square).unwrap();
    assert_eq!(marker, SQUARE);
    assert_eq!(content, &Value::record(vec![(OPERAND, number(2.0))]));
    assert_eq!(one_marker(square.as_record().unwrap()), Some(SQUARE));
    assert_eq!(one_marker(&vec![]), None);
    assert_eq!(parameters(SUM), Some(vec![LEFT, RIGHT]));
    assert_eq!(parameters(AXIS), None);
    assert_eq!(precedence(DIVIDE), Some(Precedence::Product));
    assert_eq!(precedence(SIN), None);
    let named = Value::record(vec![(NAME, Value::Blob(b"torus".to_vec())), (SQUARE, Value::record(vec![(OPERAND, number(1.0))]))]);
    assert!(form(&named).is_some());
    assert!(needs_group(SIN, OPERAND, &named));
}
