use progred::absent::{reason, with_reason};
use progred::layout_scope::{
    accepts_children, delimiter, Delim, ALTERNATIVES, BRACKET, COL, CURLY, OVERLAY, PAD, PAREN,
    ROW, SELECTABLE, SQUARE,
    finish, invalid, single, BuildError, Evaluation, INVALID_PROGRAM};
use progred::value::{get, Value};
use progred::vocabulary::FUNCTION;

fn completed(result: Value) -> Evaluation {
    Evaluation { result, completed: true, remaining_fuel: 7 }
}

#[test]
fn exactly_one_emitted_root_is_the_layout() {
    let (evaluation, layout) = finish(completed(Value::Cell(1)), vec!["root"]);
    assert_eq!(layout, Some("root"));
    assert_eq!(evaluation.result, Value::Cell(1));
    let (evaluation, layout) = finish(completed(Value::Cell(1)), Vec::<&str>::new());
    assert_eq!(layout, None);
    assert_eq!(evaluation.result, Value::Cell(1));
}

#[test]
fn several_roots_make_the_program_invalid() {
    let (evaluation, layout) = finish(completed(Value::Cell(1)), vec!["a", "b"]);
    assert_eq!(layout, None);
    assert!(evaluation.completed);
    assert_eq!(reason(&evaluation.result), Some(INVALID_PROGRAM));
}

#[test]
fn a_halt_or_an_absent_result_drops_every_emission() {
    let halted = Evaluation { result: Value::Cell(1), completed: false, remaining_fuel: 0 };
    let (evaluation, layout) = finish(halted, vec!["a"]);
    assert_eq!(layout, None);
    assert!(!evaluation.completed);
    let absent = with_reason(0xf1);
    let (evaluation, layout) = finish(completed(absent.clone()), vec!["a", "b"]);
    assert_eq!(layout, None);
    assert_eq!(evaluation.result, absent);
}

#[test]
fn single_and_invalid_describe_their_inputs() {
    assert_eq!(single(vec![4]), Some(4));
    assert_eq!(single(vec![4, 5]), None);
    assert_eq!(single(Vec::<u8>::new()), None);
    match invalid::<()>(0xf2) {
        BuildError::Absent(value) => {
            assert_eq!(reason(&value), Some(INVALID_PROGRAM));
            assert_eq!(get(value.as_record().unwrap(), FUNCTION), Some(&Value::Cell(0xf2)));
        }
        BuildError::Halt(_) => panic!("an invalid operation is an absence"),
    }
}

#[test]
fn operations_check_how_many_children_they_build_from() {
    for function in [PAD, BRACKET, SELECTABLE] {
        assert!(accepts_children(function, 1, 0));
        assert!(!accepts_children(function, 0, 0));
        assert!(!accepts_children(function, 2, 0));
    }
    assert!(!accepts_children(ALTERNATIVES, 0, 0));
    assert!(accepts_children(ALTERNATIVES, 3, 0));
    assert!(accepts_children(COL, 0, 5));
    assert!(accepts_children(COL, 3, 2));
    assert!(!accepts_children(COL, 3, 3));
    assert!(accepts_children(ROW, 0, 9) && accepts_children(OVERLAY, 4, 0));
}

#[test]
fn brackets_name_one_of_three_delimiters() {
    assert_eq!(delimiter(&Value::Cell(PAREN)), Some(Delim::Paren));
    assert_eq!(delimiter(&Value::Cell(SQUARE)), Some(Delim::Bracket));
    assert_eq!(delimiter(&Value::Cell(CURLY)), Some(Delim::Brace));
    assert_eq!(delimiter(&Value::Cell(ROW)), None);
    assert_eq!(delimiter(&Value::Blob(vec![])), None);
}

#[test]
fn finishing_keeps_the_remaining_fuel() {
    let (evaluation, _) = finish::<u8>(completed(Value::Cell(1)), vec![1, 2]);
    assert_eq!(evaluation.remaining_fuel, 7);
}
