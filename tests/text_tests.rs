use pyseq::text::{MaketransArg, PyString, StrError, TransKey, TransValue};

#[test]
fn str_title() {
    let tests = vec![
        (" Hello ", " hello "),
        ("Hello ", "hello "),
        ("Hello ", "Hello "),
        ("Format This As Title String", "fOrMaT thIs aS titLe String"),
        ("Format,This-As*Title;String", "fOrMaT,thIs-aS*titLe;String"),
        ("Getint", "getInt"),
        ("Greek Ωppercases ...", "greek ωppercases ..."),
        ("Greek ῼitlecases ...", "greek ῳitlecases ..."),
    ];
    for (title, input) in tests {
        assert_eq!(PyString::from(input).title().as_str(), title);
    }
}

#[test]
fn str_istitle() {
    let pos = vec![
        "A",
        "A Titlecased Line",
        "A\nTitlecased Line",
        "A Titlecased, Line",
        "Greek Ωppercases ...",
        "Greek ῼitlecases ...",
    ];

    for s in pos {
        assert!(PyString::from(s).istitle());
    }

    let neg = vec![
        "",
        "a",
        "\n",
        "Not a capitalized String",
        "Not\ta Titlecase String",
        "Not--a Titlecase String",
        "NOT",
    ];
    for s in neg {
        assert!(!PyString::from(s).istitle());
    }
}

#[test]
fn str_maketrans_and_translate() {
    let table = MaketransArg::Dict(vec![
        (TransKey::Str("a".to_owned()), TransValue::Str("🎅".to_owned())),
        (TransKey::Str("b".to_owned()), TransValue::Delete),
        (TransKey::Str("c".to_owned()), TransValue::Str("xda".to_owned())),
    ]);
    let translated = PyString::maketrans(table, None, None).unwrap();
    let text = PyString::from("abc");
    let translated = text.translate(Some(&translated)).unwrap();
    assert_eq!(translated, "🎅xda".to_owned());
    let translated = text.translate(None);
    assert_eq!(translated.unwrap_err(), StrError::WrongType);
}

#[test]
fn maketrans_from_two_strings() {
    let from = PyString::from("ab");
    let to = PyString::from("xy");
    let none = PyString::from("c");
    let table =
        PyString::maketrans(MaketransArg::Str(PyString::from("ab")), Some(&to), Some(&none)).unwrap();
    let text = PyString::from("abcabd");
    assert_eq!(text.translate(Some(&table)).unwrap(), "xyxyd");
    assert_eq!(from.len(), 2);
}

#[test]
fn maketrans_rejects_mismatched_lengths() {
    let to = PyString::from("xyz");
    let r = PyString::maketrans(MaketransArg::Str(PyString::from("ab")), Some(&to), None);
    assert_eq!(r.unwrap_err(), StrError::BadValue);
    let r = PyString::maketrans(MaketransArg::Other, Some(&to), None);
    assert_eq!(r.unwrap_err(), StrError::WrongType);
    let r = PyString::maketrans(MaketransArg::Other, None, None);
    assert_eq!(r.unwrap_err(), StrError::BadValue);
}

#[test]
fn maketrans_rejects_long_string_key() {
    let table = MaketransArg::Dict(vec![(TransKey::Str("ab".to_owned()), TransValue::Delete)]);
    assert_eq!(PyString::maketrans(table, None, None).unwrap_err(), StrError::BadValue);
}

#[test]
fn translate_int_values_and_errors() {
    let table = MaketransArg::Dict(vec![
        (TransKey::Int(97), TransValue::Int(66)),
        (TransKey::Int(98), TransValue::Int(0x110000)),
        (TransKey::Int(99), TransValue::Other),
        (TransKey::Other, TransValue::Delete),
    ]);
    let table = PyString::maketrans(table, None, None).unwrap();
    assert_eq!(PyString::from("aaz").translate(Some(&table)).unwrap(), "BBz");
    assert_eq!(PyString::from("ab").translate(Some(&table)).unwrap_err(), StrError::BadValue);
    assert_eq!(PyString::from("ac").translate(Some(&table)).unwrap_err(), StrError::WrongType);
}

#[test]
fn translate_later_entry_wins() {
    let table = MaketransArg::Dict(vec![
        (TransKey::Int(97), TransValue::Str("1".to_owned())),
        (TransKey::Str("a".to_owned()), TransValue::Str("2".to_owned())),
    ]);
    let table = PyString::maketrans(table, None, None).unwrap();
    assert_eq!(PyString::from("a").translate(Some(&table)).unwrap(), "2");
}

#[test]
fn title_maps_through_case_tables() {
    assert_eq!(PyString::from("ǳx").title(), "ǲx");
    assert_eq!(PyString::from("hello world").title(), "Hello World");
}

#[test]
fn len_counts_characters() {
    assert_eq!(PyString::from("🎅ab").len(), 3);
    assert!(!PyString::from("").bool());
    assert!(PyString::from("x").bool());
}
