use progred::line_edit::{description, layout, layout_with_family, Layout, TextFamily};
use progred::value::Value;
use std::rc::Rc;

type Update = Rc<dyn Fn(&str) -> Option<Value>>;

fn native(update: impl Fn(&str) -> Option<Value> + 'static) -> Update {
    Rc::new(update)
}

#[test]
fn native_handler_captures_the_current_line_description() {
    let update = native(|spelling| Some(Value::Blob(spelling.as_bytes().to_vec())));
    let line = description("42", None, update.clone(), "(", ")", TextFamily::SystemUi);
    assert_eq!(line.text, "42");
    assert_eq!(line.placeholder, None);
    assert!(Rc::ptr_eq(&line.update, &update));
    assert_eq!(line.prefix, "(");
    assert_eq!(line.suffix, ")");
    assert_eq!(line.family, TextFamily::SystemUi);
    assert_eq!((line.update)("7"), Some(Value::Blob(vec![b'7'])));
}

#[test]
fn layout_can_request_a_monospace_editor() {
    let line = description("b4e0fe", None, native(|_| None), "#", "", TextFamily::Monospace);
    assert_eq!(line.family, TextFamily::Monospace);
}

#[test]
fn layout_exposes_a_placeholder() {
    let line = description("", Some("λ"), native(|_| None), "", "", TextFamily::SystemUi);
    assert_eq!(line.placeholder.as_deref(), Some("λ"));
}

#[test]
fn layouts_are_line_editors_without_placeholder() {
    let Layout::LineEdit(line) = layout("x", 5u8, "[", "]");
    assert_eq!((line.text.as_str(), line.update, line.prefix.as_str(), line.suffix.as_str()), ("x", 5, "[", "]"));
    assert_eq!(line.placeholder, None);
    assert_eq!(line.family, TextFamily::SystemUi);
    let Layout::LineEdit(line) = layout_with_family("y", 6u8, "", "", TextFamily::Monospace);
    assert_eq!(line.family, TextFamily::Monospace);
    assert_eq!(line.update, 6);
}
