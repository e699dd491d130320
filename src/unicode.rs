//! Character properties and case mappings from the Unicode database, as
//! std, `unicode_casing`, `unic` and `caseless` provide them. Each result is
//! named by a spec function of the character or string it depends on.
use unic::ucd::category::GeneralCategory;
use unicode_casing::CharExt;
use vstd::prelude::*;

verus! {

pub uninterp spec fn lowercase_char(c: char) -> bool;

pub uninterp spec fn uppercase_char(c: char) -> bool;

pub uninterp spec fn titlecase_char(c: char) -> bool;

pub uninterp spec fn cased_char(c: char) -> bool;

pub uninterp spec fn alphabetic_char(c: char) -> bool;

pub uninterp spec fn numeric_char(c: char) -> bool;

/// The Unicode `White_Space` property.
pub open spec fn whitespace_char(c: char) -> bool {
    ('\u{0009}' <= c <= '\u{000D}') || c == '\u{0020}' || c == '\u{0085}' || c == '\u{00A0}'
        || c == '\u{1680}' || ('\u{2000}' <= c <= '\u{200A}') || c == '\u{2028}' || c
        == '\u{2029}' || c == '\u{202F}' || c == '\u{205F}' || c == '\u{3000}'
}

pub uninterp spec fn other_category(c: char) -> bool;

pub uninterp spec fn separator_category(c: char) -> bool;

pub uninterp spec fn xid_start(c: char) -> bool;

pub uninterp spec fn xid_continue(c: char) -> bool;

pub uninterp spec fn lower_char_of(c: char) -> Seq<char>;

pub uninterp spec fn upper_char_of(c: char) -> Seq<char>;

pub uninterp spec fn title_char_of(c: char) -> Seq<char>;

pub uninterp spec fn lower_of(s: Seq<char>) -> Seq<char>;

pub uninterp spec fn upper_of(s: Seq<char>) -> Seq<char>;

pub uninterp spec fn fold_of(s: Seq<char>) -> Seq<char>;

/// Relies on `char::is_lowercase`: the Unicode `Lowercase` property.
#[verifier::external_body]
pub(crate) fn is_lowercase(c: char) -> (r: bool)
    ensures
        r == lowercase_char(c),
{
    c.is_lowercase()
}

/// Relies on `char::is_uppercase`: the Unicode `Uppercase` property.
#[verifier::external_body]
pub(crate) fn is_uppercase(c: char) -> (r: bool)
    ensures
        r == uppercase_char(c),
{
    c.is_uppercase()
}

/// Relies on `unicode_casing::CharExt::is_titlecase`: general category `Lt`.
#[verifier::external_body]
pub(crate) fn is_titlecase(c: char) -> (r: bool)
    ensures
        r == titlecase_char(c),
{
    c.is_titlecase()
}

/// Relies on `unic::ucd::is_cased`: the Unicode `Cased` property.
#[verifier::external_body]
pub(crate) fn is_cased(c: char) -> (r: bool)
    ensures
        r == cased_char(c),
{
    unic::ucd::is_cased(c)
}

/// Relies on `char::is_alphabetic`: the Unicode `Alphabetic` property.
#[verifier::external_body]
pub(crate) fn is_alphabetic(c: char) -> (r: bool)
    ensures
        r == alphabetic_char(c),
{
    c.is_alphabetic()
}

/// Relies on `char::is_alphanumeric`: documented as `is_alphabetic` or
/// `is_numeric`.
#[verifier::external_body]
pub(crate) fn is_alphanumeric(c: char) -> (r: bool)
    ensures
        r == (alphabetic_char(c) || numeric_char(c)),
{
    c.is_alphanumeric()
}

/// Relies on `char::is_numeric`: general categories `Nd`, `Nl`, `No`.
#[verifier::external_body]
pub(crate) fn is_numeric(c: char) -> (r: bool)
    ensures
        r == numeric_char(c),
{
    c.is_numeric()
}

/// Relies on `char::is_whitespace`: the Unicode `White_Space` property,
/// listed in `whitespace_char`.
#[verifier::external_body]
pub(crate) fn is_whitespace(c: char) -> (r: bool)
    ensures
        r == whitespace_char(c),
{
    c.is_whitespace()
}

/// Relies on `unic::ucd::category::GeneralCategory::of` and `is_other`:
/// whether the general category is one of `Cc`, `Cf`, `Cs`, `Co`, `Cn`.
#[verifier::external_body]
pub(crate) fn is_other_category(c: char) -> (r: bool)
    ensures
        r == other_category(c),
{
    GeneralCategory::of(c).is_other()
}

/// Relies on `unic::ucd::category::GeneralCategory::of` and `is_separator`:
/// whether the general category is one of `Zs`, `Zl`, `Zp`.
#[verifier::external_body]
pub(crate) fn is_separator_category(c: char) -> (r: bool)
    ensures
        r == separator_category(c),
{
    GeneralCategory::of(c).is_separator()
}

/// Relies on `unic::ucd::ident::is_xid_start`: the `XID_Start` property.
#[verifier::external_body]
pub(crate) fn is_xid_start(c: char) -> (r: bool)
    ensures
        r == xid_start(c),
{
    unic::ucd::ident::is_xid_start(c)
}

/// Relies on `unic::ucd::ident::is_xid_continue`: the `XID_Continue`
/// property.
#[verifier::external_body]
pub(crate) fn is_xid_continue(c: char) -> (r: bool)
    ensures
        r == xid_continue(c),
{
    unic::ucd::ident::is_xid_continue(c)
}

/// Relies on `char::to_lowercase`: the full lowercase mapping of one
/// character.
#[verifier::external_body]
pub(crate) fn char_to_lowercase(c: char) -> (r: Vec<char>)
    ensures
        r@ == lower_char_of(c),
{
    c.to_lowercase().collect()
}

/// Relies on `char::to_uppercase`: the full uppercase mapping of one
/// character.
#[verifier::external_body]
pub(crate) fn char_to_uppercase(c: char) -> (r: Vec<char>)
    ensures
        r@ == upper_char_of(c),
{
    c.to_uppercase().collect()
}

/// Relies on `unicode_casing::CharExt::to_titlecase`: the full titlecase
/// mapping of one character.
#[verifier::external_body]
pub(crate) fn char_to_titlecase(c: char) -> (r: Vec<char>)
    ensures
        r@ == title_char_of(c),
{
    c.to_titlecase().collect()
}

/// Relies on `str::to_lowercase`: the lowercase mapping of a string.
#[verifier::external_body]
pub(crate) fn str_to_lowercase(s: &str) -> (r: String)
    ensures
        r@ == lower_of(s@),
{
    s.to_lowercase()
}

/// Relies on `str::to_uppercase`: the uppercase mapping of a string.
#[verifier::external_body]
pub(crate) fn str_to_uppercase(s: &str) -> (r: String)
    ensures
        r@ == upper_of(s@),
{
    s.to_uppercase()
}

/// Relies on `caseless::default_case_fold_str`: the default case folding of
/// a string.
#[verifier::external_body]
pub(crate) fn case_fold(s: &str) -> (r: String)
    ensures
        r@ == fold_of(s@),
{
    caseless::default_case_fold_str(s)
}

/// Relies on `String::push`: appends one character.
#[verifier::external_body]
pub(crate) fn push_char(s: &mut String, c: char)
    ensures
        final(s)@ == old(s)@.push(c),
{
    s.push(c)
}

/// Whether `v` is a Unicode scalar value: at most `0x10FFFF` and outside
/// the surrogate range.
pub open spec fn scalar_value(v: u32) -> bool {
    v <= 0x10FFFF && !(0xD800 <= v <= 0xDFFF)
}

/// Relies on `char::from_u32`: the character with code point `v`, for
/// scalar values only.
#[verifier::external_body]
pub(crate) fn char_from_u32(v: u32) -> (r: Option<char>)
    ensures
        r is Some <==> scalar_value(v),
        r matches Some(c) ==> c as u32 == v && c as int == v as int,
{
    char::from_u32(v)
}

} // verus!
