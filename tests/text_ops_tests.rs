use pyseq::index::SliceDesc;
use pyseq::text::{
    adjust_indices, borrow_value, clone_value, PyString, StrError, StrIndex, StringRange,
};

fn s(x: &str) -> PyString {
    PyString::from(x)
}

#[test]
fn case_mappings() {
    assert_eq!(s("AbC").lower(), "abc");
    assert_eq!(s("AbC").upper(), "ABC");
    assert_eq!(s("Straße").casefold(), "strasse");
    assert_eq!(s("hELLO wORLD").capitalize(), "Hello world");
    assert_eq!(s("").capitalize(), "");
    assert_eq!(s("aBc1").swapcase(), "AbC1");
}

#[test]
fn case_predicates() {
    assert!(s("ABC1").isupper());
    assert!(!s("AbC").isupper());
    assert!(!s("123").isupper());
    assert!(s("abc1").islower());
    assert!(!s("aBc").islower());
}

#[test]
fn class_predicates() {
    assert!(s("héllo").isalpha());
    assert!(!s("he llo").isalpha());
    assert!(!s("").isalpha());
    assert!(s("ab12").isalnum());
    assert!(!s("ab 12").isalnum());
    assert!(s("½3").isnumeric());
    assert!(!s("3a").isnumeric());
    assert!(s("12²").isdigit());
    assert!(!s("12²").isdecimal());
    assert!(s("0123").isdecimal());
    assert!(s(" \t\n").isspace());
    assert!(!s("\u{a0}").isspace());
    assert!(s("abc").isascii());
    assert!(!s("é").isascii());
    assert!(s("a b").isprintable());
    assert!(!s("a\u{200b}").isprintable());
    assert!(!s("a\u{2028}").isprintable());
    assert!(s("_a1").isidentifier());
    assert!(s("héllo").isidentifier());
    assert!(!s("1a").isidentifier());
    assert!(!s("").isidentifier());
}

#[test]
fn subscripts() {
    let x = s("héllo");
    assert_eq!(x.getitem(StrIndex::Int(1)).unwrap(), "é");
    assert_eq!(x.getitem(StrIndex::Int(-1)).unwrap(), "o");
    assert_eq!(x.getitem(StrIndex::Int(5)).unwrap_err(), StrError::IndexOutOfRange);
    let rev = SliceDesc { start: None, stop: None, step: Some(-1) };
    assert_eq!(x.getitem(StrIndex::Slice(rev)).unwrap(), "olléh");
    let two = SliceDesc { start: Some(1), stop: None, step: Some(2) };
    assert_eq!(x.getitem(StrIndex::Slice(two)).unwrap(), "él");
    let zero = SliceDesc { start: None, stop: None, step: Some(0) };
    assert_eq!(x.getitem(StrIndex::Slice(zero)).unwrap_err(), StrError::ZeroStep);
}

#[test]
fn concatenation_and_repetition() {
    assert_eq!(s("ab").add(&s("cd")), "abcd");
    assert_eq!(s("ab").mul(3).unwrap(), "ababab");
    assert_eq!(s("ab").rmul(-2).unwrap(), "");
}

#[test]
fn string_comparisons() {
    assert!(s("abc").eq(&s("abc")));
    assert!(s("abc").ne(&s("abd")));
    assert!(s("abc").lt(&s("abd")));
    assert!(s("ab").lt(&s("abc")));
    assert!(!s("abc").lt(&s("abc")));
    assert!(s("b").gt(&s("abc")));
    assert!(s("abc").le(&s("abc")));
    assert!(s("abc").ge(&s("ab")));
    assert!(s("é").gt(&s("z")));
}

#[test]
fn searching() {
    let x = s("abcabc");
    assert!(x.contains(&s("cab")));
    assert!(!x.contains(&s("cba")));
    assert_eq!(x.find(&s("bc"), None, None), 1);
    assert_eq!(x.rfind(&s("bc"), None, None), 4);
    assert_eq!(x.find(&s("bc"), Some(2), None), 4);
    assert_eq!(x.find(&s("bc"), Some(2), Some(4)), -1);
    assert_eq!(x.find(&s("a"), Some(-3), None), 3);
    assert_eq!(x.index(&s("c"), None, None), Ok(2));
    assert_eq!(x.rindex(&s("c"), None, None), Ok(5));
    assert_eq!(x.index(&s("z"), None, None), Err(StrError::NotFound));
    assert_eq!(x.rindex(&s("a"), Some(4), Some(2)), Err(StrError::NotFound));
    assert_eq!(x.count(&s("bc"), None, None), 2);
    assert_eq!(s("aaaa").count(&s("aa"), None, None), 2);
    assert_eq!(s("abc").count(&s(""), None, None), 4);
    assert!(x.startswith(&s("abc"), None, None));
    assert!(x.startswith(&s("ca"), Some(2), None));
    assert!(!x.startswith(&s("abc"), Some(1), None));
    assert!(x.endswith(&s("bc"), None, Some(3)));
    assert!(!x.endswith(&s("bc"), Some(5), None));
}

#[test]
fn index_adjustment() {
    let r = adjust_indices(Some(-2), None, 5);
    assert_eq!((r.start, r.end), (3, 5));
    let r = adjust_indices(Some(-9), Some(-1), 5);
    assert_eq!((r.start, r.end), (0, 4));
    let r = adjust_indices(Some(7), Some(9), 5);
    assert_eq!((r.start, r.end), (7, 5));
    assert!(!r.is_normal());
    assert!(adjust_indices(None, None, 5).is_normal());
}

#[test]
fn padding() {
    assert_eq!(s("42").zfill(5), "00042");
    assert_eq!(s("-42").zfill(5), "-0042");
    assert_eq!(s("+42").zfill(2), "+42");
    assert_eq!(s("ab").ljust(4, None).unwrap(), "ab  ");
    assert_eq!(s("ab").rjust(4, Some(&s("*"))).unwrap(), "**ab");
    assert_eq!(s("ab").center(5, Some(&s("-"))).unwrap(), "--ab-");
    assert_eq!(s("abc").center(6, Some(&s("-"))).unwrap(), "-abc--");
    assert_eq!(s("abc").center(2, None).unwrap(), "abc");
    assert_eq!(s("ab").ljust(4, Some(&s("xy"))).unwrap_err(), StrError::WrongType);
}

#[test]
fn joining_and_stripping() {
    let parts = vec![s("a"), s("b"), s("c")];
    assert_eq!(s(", ").join(&parts), "a, b, c");
    assert_eq!(s("-").join(&Vec::new()), "");
    assert_eq!(s("\u{a0} x y \n").strip(None), "x y");
    assert_eq!(s("xxhixx").strip(Some(&s("x"))), "hi");
    assert_eq!(s("  hi  ").lstrip(None), "hi  ");
    assert_eq!(s("  hi  ").rstrip(None), "  hi");
    assert_eq!(s("abcba").rstrip(Some(&s("ab"))), "abc");
}

#[test]
fn partitions() {
    let (a, b, c) = s("k=v=w").partition(&s("="));
    assert_eq!((a.as_str(), b.as_str(), c.as_str()), ("k", "=", "v=w"));
    let (a, b, c) = s("k=v=w").rpartition(&s("="));
    assert_eq!((a.as_str(), b.as_str(), c.as_str()), ("k=v", "=", "w"));
    let (a, b, c) = s("kv").partition(&s("="));
    assert_eq!((a.as_str(), b.as_str(), c.as_str()), ("kv", "", ""));
    let (a, b, c) = s("kv").rpartition(&s("="));
    assert_eq!((a.as_str(), b.as_str(), c.as_str()), ("", "", "kv"));
}

#[test]
fn splitting() {
    assert_eq!(s("a,b,,c").split(Some(&s(",")), -1).unwrap(), vec!["a", "b", "", "c"]);
    assert_eq!(s("a,b,,c").split(Some(&s(",")), 1).unwrap(), vec!["a", "b,,c"]);
    assert_eq!(s("a,b,,c").rsplit(Some(&s(",")), 1).unwrap(), vec!["a,b,", "c"]);
    assert_eq!(s("aaa").rsplit(Some(&s("aa")), -1).unwrap(), vec!["a", ""]);
    assert_eq!(s("aaa").split(Some(&s("aa")), -1).unwrap(), vec!["", "a"]);
    assert_eq!(s("  a  b c ").split(None, -1).unwrap(), vec!["a", "b", "c"]);
    assert_eq!(s("  a  b c ").rsplit(None, -1).unwrap(), vec!["a", "b", "c"]);
    assert_eq!(s("a b c").split(None, 1).unwrap(), vec!["a", "b c"]);
    assert_eq!(s("a b c").rsplit(None, 1).unwrap(), vec!["a b", "c"]);
    assert_eq!(s("abc").split(Some(&s("")), -1).unwrap_err(), StrError::BadValue);
    assert_eq!(s("abc").rsplit(Some(&s("")), -1).unwrap_err(), StrError::BadValue);
}

#[test]
fn line_splitting() {
    assert_eq!(s("a\nb\r\nc\rd").splitlines(false), vec!["a", "b", "c", "d"]);
    assert_eq!(s("a\nb\r\n").splitlines(true), vec!["a\n", "b\r\n"]);
    assert_eq!(s("\n\nx").splitlines(false), vec!["", "", "x"]);
}

#[test]
fn replacing() {
    assert_eq!(s("aaaa").replace(&s("aa"), &s("b"), None), "bb");
    assert_eq!(s("a.b.c").replace(&s("."), &s("::"), Some(1)), "a::b.c");
    assert_eq!(s("ab").replace(&s(""), &s("-"), None), "-a-b-");
    assert_eq!(s("ab").replace(&s(""), &s("-"), Some(2)), "-a-b");
    assert_eq!(s("ab").replace(&s("x"), &s("-"), None), "ab");
}

#[test]
fn values_and_cursors() {
    let x = s("hé!");
    assert_eq!(clone_value(&x), "hé!");
    assert_eq!(borrow_value(&x), "hé!");
    assert_eq!(x.as_str(), "hé!");
    let mut it = x.iter();
    assert_eq!(it.next(), Some('h'));
    assert_eq!(it.next(), Some('é'));
    assert_eq!(it.next(), Some('!'));
    assert_eq!(it.next(), None);
    let mut r = x.reversed().iter();
    assert_eq!(r.next(), Some('!'));
    assert_eq!(r.next(), Some('é'));
    assert_eq!(r.next(), Some('h'));
    assert_eq!(r.next(), None);
}

#[test]
fn tab_expansion() {
    assert_eq!(s("a\tb").expandtabs(None).unwrap(), "a       b");
    assert_eq!(s("ab\tc").expandtabs(Some(4)).unwrap(), "ab  c");
    assert_eq!(s("abcd\te").expandtabs(Some(4)).unwrap(), "abcd    e");
    assert_eq!(s("x\n\ty").expandtabs(Some(4)).unwrap(), "x\n    y");
    assert_eq!(s("a\tb").expandtabs(Some(0)).unwrap(), "ab");
}

#[test]
fn construction() {
    assert_eq!(PyString::tp_new(Some("x")).as_str(), "x");
    assert_eq!(PyString::tp_new(None).as_str(), "");
    assert_eq!(PyString::from(String::from("ab")).str().as_str(), "ab");
}
