use progred::color::{
    edit, encoded, encoded_field, parse, read, replace_color, spelling, without_picker, Encoded,
    Rgba8, HUE, PICKER, RGB, RGBA,
};
use progred::value::{contains_key, get, insert, Value};

fn stored(color: Encoded) -> Value {
    Value::record(vec![encoded_field(color)])
}

#[test]
fn spelling_round_trips_through_the_update_function() {
    let extra = 0x81;
    let mut fields = stored(Encoded::Rgba {
        red: 0xb4,
        green: 0xe0,
        blue: 0xfe,
        alpha: 0xff,
    })
    .as_record()
    .unwrap()
    .clone();
    insert(&mut fields, extra, Value::Blob(b"metadata".to_vec()));
    let current = Value::record(fields);
    let update = |input: &str| edit(input, Some(&current));

    let updated = update("ebb4cc99").unwrap();
    assert_eq!(
        read(&updated),
        Some(Rgba8 { red: 0xeb, green: 0xb4, blue: 0xcc, alpha: 0x99 }),
    );
    let fields = updated.as_record().unwrap();
    assert_eq!(get(fields, extra), Some(&Value::Blob(b"metadata".to_vec())));
    assert!(!contains_key(fields, RGB));
    assert_eq!(get(fields, RGBA), Some(&Value::Blob(vec![0xeb, 0xb4, 0xcc, 0x99])));
    assert_eq!(
        read(&update("b4e").unwrap()),
        Some(Rgba8 { red: 0xbb, green: 0x44, blue: 0xee, alpha: 0xff }),
    );
    assert_eq!(
        read(&update("b4e8").unwrap()),
        Some(Rgba8 { red: 0xbb, green: 0x44, blue: 0xee, alpha: 0x88 }),
    );
    assert!(update("rebeccapurple").is_none());
}

#[test]
fn parsing_accepts_short_and_long_hex_forms_around_whitespace() {
    assert_eq!(parse("  0aF \n"), Some(Encoded::Rgb { red: 0x00, green: 0xaa, blue: 0xff }));
    assert_eq!(
        parse("01234567"),
        Some(Encoded::Rgba { red: 0x01, green: 0x23, blue: 0x45, alpha: 0x67 })
    );
    assert_eq!(parse("12345"), None);
    assert_eq!(parse("12g"), None);
    assert_eq!(parse("+f0"), None);
    assert_eq!(parse("+f0000"), Some(Encoded::Rgb { red: 0x0f, green: 0, blue: 0 }));
    assert_eq!(parse(""), None);
    assert_eq!(
        parse("\u{a0}abc\u{3000}"),
        Some(Encoded::Rgb { red: 0xaa, green: 0xbb, blue: 0xcc })
    );
    assert_eq!(parse("\u{200b}abc"), None);
}

#[test]
fn spellings_are_two_lowercase_digits_per_channel_and_parse_back() {
    let rgb = Encoded::Rgb { red: 0xab, green: 0x0c, blue: 0xff };
    let rgba = Encoded::Rgba { red: 0, green: 1, blue: 0xfe, alpha: 0x80 };
    assert_eq!(spelling(rgb), "ab0cff");
    assert_eq!(spelling(rgba), "0001fe80");
    assert_eq!(parse(&spelling(rgb)), Some(rgb));
    assert_eq!(parse(&spelling(rgba)), Some(rgba));
}

#[test]
fn four_stored_bytes_take_precedence_over_three() {
    let both = Value::record(vec![
        (RGB, Value::Blob(vec![1, 2, 3])),
        (RGBA, Value::Blob(vec![4, 5, 6, 7])),
    ]);
    assert_eq!(
        encoded(&both),
        Some(Encoded::Rgba { red: 4, green: 5, blue: 6, alpha: 7 })
    );
    let short = Value::record(vec![
        (RGB, Value::Blob(vec![1, 2, 3])),
        (RGBA, Value::Blob(vec![4, 5])),
    ]);
    assert_eq!(
        read(&short),
        Some(Rgba8 { red: 1, green: 2, blue: 3, alpha: 0xff })
    );
    assert_eq!(read(&Value::record(vec![])), None);
    assert_eq!(read(&Value::Cell(RGB)), None);
}

#[test]
fn replacing_a_color_removes_the_other_encoding() {
    let current = Value::record(vec![(RGBA, Value::Blob(vec![4, 5, 6, 7])), (0x90, Value::Cell(1))]);
    let replaced = replace_color(&current, Encoded::Rgb { red: 9, green: 8, blue: 7 }).unwrap();
    let fields = replaced.as_record().unwrap();
    assert!(!contains_key(fields, RGBA));
    assert_eq!(get(fields, RGB), Some(&Value::Blob(vec![9, 8, 7])));
    assert_eq!(get(fields, 0x90), Some(&Value::Cell(1)));
    assert_eq!(replace_color(&Value::Cell(3), Encoded::Rgb { red: 0, green: 0, blue: 0 }), None);
    assert_eq!(edit("fff", None), None);
}

#[test]
fn closing_the_picker_removes_only_its_selection_state() {
    let other = 0x91;
    let mut selection = Value::record(vec![(
        PICKER,
        Value::record(vec![(HUE, Value::Blob(vec![0x25]))]),
    )])
    .as_record()
    .unwrap()
    .clone();
    insert(&mut selection, other, Value::Blob(vec![7]));
    let closed = without_picker(Some(&Value::record(selection)));

    let fields = closed.as_record().unwrap();
    assert!(!contains_key(fields, PICKER));
    assert_eq!(get(fields, other), Some(&Value::Blob(vec![7])));
    assert_eq!(without_picker(None), Value::record(vec![]));
}

#[test]
fn rgb_and_rgba_are_open_library_data() {
    let opaque = stored(Encoded::Rgb { red: 0xb4, green: 0xe0, blue: 0xfe });
    let extra = 0x81;
    let mut fields = opaque.as_record().unwrap().clone();
    insert(&mut fields, extra, Value::Blob(b"metadata".to_vec()));
    let enriched = Value::record(fields);

    assert_eq!(
        get(opaque.as_record().unwrap(), RGB),
        Some(&Value::Blob(vec![0xb4, 0xe0, 0xfe])),
    );
    assert_eq!(
        read(&enriched),
        Some(Rgba8 { red: 0xb4, green: 0xe0, blue: 0xfe, alpha: 0xff })
    );
    let translucent = stored(Encoded::Rgba { red: 0xb4, green: 0xe0, blue: 0xfe, alpha: 0x99 });
    assert_eq!(
        get(translucent.as_record().unwrap(), RGBA),
        Some(&Value::Blob(vec![0xb4, 0xe0, 0xfe, 0x99])),
    );
}
