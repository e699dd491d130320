//! The immutable character string and its operations.
use crate::index::{index_position, plan_of, resolve_index, step_value, SliceDesc};
use crate::list::{sliced, PyList};
use crate::unicode::{
    alphabetic_char, case_fold, cased_char, char_from_u32, char_to_lowercase,
    char_to_titlecase, char_to_uppercase, fold_of, is_alphabetic, is_alphanumeric, is_cased,
    is_lowercase, is_numeric, is_other_category, is_separator_category, is_titlecase,
    is_uppercase, is_xid_continue, is_xid_start, lower_char_of, lower_of, lowercase_char,
    numeric_char, other_category, push_char, scalar_value, separator_category, str_to_lowercase,
    str_to_uppercase, title_char_of, titlecase_char, upper_char_of, upper_of, uppercase_char,
    whitespace_char, is_whitespace, xid_continue, xid_start,
};
use vstd::prelude::*;
use vstd::std_specs::iter::IteratorSpec;

verus! {

broadcast use vstd::string::group_string_axioms;

/// Relies on `Vec::len` and on the guarantee that a vector never holds
/// more than `isize::MAX` bytes, so fewer than `isize::MAX` characters.
#[verifier::external_body]
fn char_vec_len(v: &Vec<char>) -> (r: usize)
    ensures
        r == v@.len(),
        r < isize::MAX,
{
    v.len()
}

/// The characters of a string.
pub fn chars_of(s: &str) -> (r: Vec<char>)
    ensures
        r@ == s@,
        r@.len() < isize::MAX,
{
    let mut it = s.chars();
    let mut out: Vec<char> = Vec::new();
    loop
        invariant
            it.obeys_prophetic_iter_laws(),
            out@ + it.remaining() == s@,
            it.decrease() is Some,
        decreases it.decrease()->0,
    {
        match it.next() {
            Some(c) => {
                out.push(c);
            },
            None => {
                assert(out@ =~= s@);
                let _ = char_vec_len(&out);
                return out;
            },
        }
    }
}

/// A string holding the characters of `cs`, in order.
pub fn string_of(cs: &Vec<char>) -> (r: String)
    ensures
        r@ == cs@,
{
    let mut out = String::new();
    let mut i: usize = 0;
    while i < cs.len()
        invariant
            i <= cs@.len(),
            out@ == cs@.subrange(0, i as int),
        decreases cs@.len() - i,
    {
        push_char(&mut out, cs[i]);
        i += 1;
        assert(out@ =~= cs@.subrange(0, i as int));
    }
    out
}

/// Failures of string operations.
#[derive(Clone, Copy, Debug, PartialEq, Eq, Structural)]
pub enum StrError {
    /// A scalar index outside the string.
    IndexOutOfRange,
    /// A slice step of zero.
    ZeroStep,
    /// A search found no occurrence.
    NotFound,
    /// An argument of the wrong kind, or a mapping value of the wrong kind.
    WrongType,
    /// An argument with a value that is not accepted.
    BadValue,
    /// A length that does not fit the platform's index width.
    Overflow,
}

/// An immutable character string.
#[derive(Debug)]
pub struct PyString {
    value: String,
}

impl View for PyString {
    type V = Seq<char>;

    closed spec fn view(&self) -> Seq<char> {
        self.value@
    }
}

impl<'a> From<&'a str> for PyString {
    fn from(s: &'a str) -> (r: PyString)
        ensures
            r@ == s@,
    {
        PyString { value: s.to_owned() }
    }
}

impl<'a> vstd::std_specs::convert::FromSpecImpl<&'a str> for PyString {
    open spec fn obeys_from_spec() -> bool {
        false
    }

    open spec fn from_spec(s: &'a str) -> PyString {
        arbitrary()
    }
}

impl From<String> for PyString {
    fn from(s: String) -> (r: PyString)
        ensures
            r@ == s@,
    {
        PyString { value: s }
    }
}

impl vstd::std_specs::convert::FromSpecImpl<String> for PyString {
    open spec fn obeys_from_spec() -> bool {
        false
    }

    open spec fn from_spec(s: String) -> PyString {
        arbitrary()
    }
}

/// Whether a character takes part in casing for `title` and `istitle`.
pub open spec fn letter_cased(c: char) -> bool {
    lowercase_char(c) || uppercase_char(c) || titlecase_char(c)
}

/// Whether the character before position `i` takes part in casing.
pub open spec fn after_cased(s: Seq<char>, i: int) -> bool {
    i > 0 && letter_cased(s[i - 1])
}

/// What `title` makes of `c`, given whether the character before it is
/// cased: a lowercase letter starting a word is titlecased, an upper- or
/// titlecase letter inside a word is lowercased, the rest stays.
pub open spec fn title_piece(c: char, prev: bool) -> Seq<char> {
    if lowercase_char(c) {
        if !prev {
            title_char_of(c)
        } else {
            seq![c]
        }
    } else if uppercase_char(c) || titlecase_char(c) {
        if prev {
            lower_char_of(c)
        } else {
            seq![c]
        }
    } else {
        seq![c]
    }
}

/// The titlecased form of the first `n` characters of `s`.
pub open spec fn title_upto(s: Seq<char>, n: int) -> Seq<char>
    decreases n,
{
    if n <= 0 {
        Seq::empty()
    } else {
        title_upto(s, n - 1) + title_piece(s[n - 1], after_cased(s, n - 1))
    }
}

/// `s` is titlecased: it has a cased letter, every upper- or titlecase
/// letter starts a word and every other lowercase letter continues one.
pub open spec fn is_title(s: Seq<char>) -> bool {
    &&& exists|i: int| 0 <= i < s.len() && letter_cased(#[trigger] s[i])
    &&& forall|i: int|
        0 <= i < s.len() ==> if uppercase_char(#[trigger] s[i]) || titlecase_char(s[i]) {
            !after_cased(s, i)
        } else if lowercase_char(s[i]) {
            after_cased(s, i)
        } else {
            true
        }
}

impl PyString {
    pub fn as_str(&self) -> (r: &str)
        ensures
            r@ == self@,
    {
        self.value.as_str()
    }

    /// The constructor: the text of the argument (its string form, which
    /// the caller computes), or the empty string.
    pub fn tp_new(object: Option<&str>) -> (r: PyString)
        ensures
            r@ == match object {
                Some(t) => t@,
                None => Seq::<char>::empty(),
            },
    {
        match object {
            Some(t) => PyString { value: t.to_owned() },
            None => PyString { value: String::new() },
        }
    }

    /// The string itself.
    pub fn str(&self) -> (r: &PyString)
        ensures
            r == self,
    {
        self
    }

    /// Number of characters.
    pub fn len(&self) -> (r: usize)
        ensures
            r == self@.len(),
    {
        chars_of(self.value.as_str()).len()
    }

    /// Truth value: whether the string is non-empty.
    pub fn bool(&self) -> (r: bool)
        ensures
            r == (self@.len() > 0),
    {
        !self.value.as_str().is_empty()
    }

    /// Words start with a titlecase character and continue in lowercase.
    pub fn title(&self) -> (r: String)
        ensures
            r@ == title_upto(self@, self@.len() as int),
    {
        let cs = chars_of(self.value.as_str());
        let mut out = String::new();
        let mut previous_is_cased = false;
        let mut i: usize = 0;
        while i < cs.len()
            invariant
                cs@ == self@,
                i <= cs@.len(),
                out@ == title_upto(cs@, i as int),
                previous_is_cased == after_cased(cs@, i as int),
            decreases cs@.len() - i,
        {
            let c = cs[i];
            if is_lowercase(c) {
                if !previous_is_cased {
                    let t = char_to_titlecase(c);
                    push_all(&mut out, &t);
                } else {
                    push_char(&mut out, c);
                }
                previous_is_cased = true;
            } else if is_uppercase(c) || is_titlecase(c) {
                if previous_is_cased {
                    let t = char_to_lowercase(c);
                    push_all(&mut out, &t);
                } else {
                    push_char(&mut out, c);
                }
                previous_is_cased = true;
            } else {
                previous_is_cased = false;
                push_char(&mut out, c);
            }
            i += 1;
        }
        out
    }

    /// Whether the string is titlecased and not empty.
    pub fn istitle(&self) -> (r: bool)
        ensures
            r == is_title(self@),
    {
        let cs = chars_of(self.value.as_str());
        if cs.len() == 0 {
            return false;
        }
        let mut cased = false;
        let mut previous_is_cased = false;
        let mut i: usize = 0;
        while i < cs.len()
            invariant
                cs@ == self@,
                i <= cs@.len(),
                previous_is_cased == after_cased(cs@, i as int),
                cased == exists|j: int| 0 <= j < i && letter_cased(#[trigger] cs@[j]),
                forall|j: int|
                    0 <= j < i ==> if uppercase_char(#[trigger] cs@[j]) || titlecase_char(cs@[j]) {
                        !after_cased(cs@, j)
                    } else if lowercase_char(cs@[j]) {
                        after_cased(cs@, j)
                    } else {
                        true
                    },
            decreases cs@.len() - i,
        {
            let c = cs[i];
            if is_uppercase(c) || is_titlecase(c) {
                if previous_is_cased {
                    return false;
                }
                previous_is_cased = true;
                cased = true;
            } else if is_lowercase(c) {
                if !previous_is_cased {
                    return false;
                }
                previous_is_cased = true;
                cased = true;
            } else {
                previous_is_cased = false;
            }
            i += 1;
        }
        cased
    }
}

/// Appends every character of `cs`.
fn push_all(s: &mut String, cs: &Vec<char>)
    ensures
        final(s)@ == old(s)@ + cs@,
{
    let mut i: usize = 0;
    while i < cs.len()
        invariant
            i <= cs@.len(),
            s@ == old(s)@ + cs@.subrange(0, i as int),
        decreases cs@.len() - i,
    {
        push_char(s, cs[i]);
        i += 1;
        assert(s@ =~= old(s)@ + cs@.subrange(0, i as int));
    }
    assert(cs@.subrange(0, cs@.len() as int) =~= cs@);
}

/// What a translation table maps a code point to.
#[derive(Debug)]
pub enum TransValue {
    /// Replace the character with this text.
    Str(String),
    /// Replace the character with the one of this code point.
    Int(i64),
    /// Drop the character.
    Delete,
    /// A value of any other kind, which `translate` rejects.
    Other,
}

/// A key of the mapping handed to `maketrans`.
#[derive(Debug)]
pub enum TransKey {
    Int(i64),
    Str(String),
    Other,
}

/// The first argument of `maketrans`.
#[derive(Debug)]
pub enum MaketransArg {
    Str(PyString),
    Dict(Vec<(TransKey, TransValue)>),
    Other,
}

/// A translation table: code points and what they map to, in insertion
/// order; a later entry for a code point overrides an earlier one.
#[derive(Debug)]
pub struct TransTable {
    entries: Vec<(i64, TransValue)>,
}

impl View for TransTable {
    type V = Seq<(i64, TransValue)>;

    closed spec fn view(&self) -> Seq<(i64, TransValue)> {
        self.entries@
    }
}

/// The value of the last entry for `k`.
pub open spec fn lookup(es: Seq<(i64, TransValue)>, k: int) -> Option<TransValue>
    decreases es.len(),
{
    if es.len() == 0 {
        None
    } else if es.last().0 == k {
        Some(es.last().1)
    } else {
        lookup(es.drop_last(), k)
    }
}

/// The code point of `c`.
pub open spec fn code(c: char) -> int {
    c as int
}

/// The character whose code point is `n`.
pub open spec fn char_of_code(n: int) -> char {
    choose|d: char| #[trigger] code(d) == n
}

/// What `translate` makes of one character.
pub open spec fn translate_piece(c: char, es: Seq<(i64, TransValue)>) -> Result<Seq<char>, StrError> {
    match lookup(es, c as int) {
        None => Ok(seq![c]),
        Some(TransValue::Str(t)) => Ok(t@),
        Some(TransValue::Int(n)) => if 0 <= n <= u32::MAX && scalar_value(n as u32) {
            Ok(seq![char_of_code(n as int)])
        } else {
            Err(StrError::BadValue)
        },
        Some(TransValue::Delete) => Ok(Seq::empty()),
        Some(TransValue::Other) => Err(StrError::WrongType),
    }
}

/// What `translate` makes of the first `n` characters of `s`: the pieces
/// in order, or the first failure.
pub open spec fn translate_upto(s: Seq<char>, es: Seq<(i64, TransValue)>, n: int) -> Result<
    Seq<char>,
    StrError,
>
    decreases n,
{
    if n <= 0 {
        Ok(Seq::empty())
    } else {
        match translate_upto(s, es, n - 1) {
            Err(e) => Err(e),
            Ok(prefix) => match translate_piece(s[n - 1], es) {
                Ok(p) => Ok(prefix + p),
                Err(e) => Err(e),
            },
        }
    }
}

/// The table built from the entries of a mapping: integer keys as they
/// are, one-character string keys as their code point, other keys skipped;
/// a string key of another length fails.
pub open spec fn dict_entries(items: Seq<(TransKey, TransValue)>, n: int) -> Result<
    Seq<(i64, TransValue)>,
    StrError,
>
    decreases n,
{
    if n <= 0 {
        Ok(Seq::empty())
    } else {
        match dict_entries(items, n - 1) {
            Err(e) => Err(e),
            Ok(es) => match items[n - 1].0 {
                TransKey::Int(k) => Ok(es.push((k, items[n - 1].1))),
                TransKey::Str(t) => if t@.len() == 1 {
                    Ok(es.push((t@[0] as i64, items[n - 1].1)))
                } else {
                    Err(StrError::BadValue)
                },
                TransKey::Other => Ok(es),
            },
        }
    }
}

/// The table that maps each character of `from` to the character of `to`
/// at the same position, then each character of `none` to deletion.
pub open spec fn pair_entries(from: Seq<char>, to: Seq<char>, none: Seq<char>) -> Seq<(i64, TransValue)> {
    Seq::new(from.len(), |i: int| (from[i] as i64, TransValue::Int(to[i] as i64))) + Seq::new(
        none.len(),
        |i: int| (none[i] as i64, TransValue::Delete),
    )
}

impl TransTable {
    /// The value for code point `k`, if any.
    pub fn get(&self, k: i64) -> (r: Option<&TransValue>)
        ensures
            match r {
                Some(v) => lookup(self@, k as int) == Some(*v),
                None => lookup(self@, k as int) is None,
            },
    {
        let mut i: usize = self.entries.len();
        assert(self@.subrange(0, i as int) =~= self@);
        while i > 0
            invariant
                i <= self@.len(),
                lookup(self@, k as int) == lookup(self@.subrange(0, i as int), k as int),
            decreases i,
        {
            let ghost pre = self@.subrange(0, i as int);
            assert(pre.drop_last() =~= self@.subrange(0, i - 1));
            if self.entries[i - 1].0 == k {
                return Some(&self.entries[i - 1].1);
            }
            i -= 1;
        }
        None
    }
}

impl PyString {
    /// Builds a translation table. With `to_str`, the first argument must
    /// be a string of the same length: each of its characters maps to the
    /// character of `to_str` at the same position, and each character of
    /// `none_str` to deletion. Without it, the first argument must be a
    /// mapping, whose entries are taken as `dict_entries` says.
    pub fn maketrans(
        dict_or_str: MaketransArg,
        to_str: Option<&PyString>,
        none_str: Option<&PyString>,
    ) -> (r: Result<TransTable, StrError>)
        ensures
            match to_str {
                Some(to) => match dict_or_str {
                    MaketransArg::Str(from) => if from@.len() == to@.len() {
                        r matches Ok(t) && t@ == pair_entries(
                            from@,
                            to@,
                            match none_str {
                                Some(n) => n@,
                                None => Seq::<char>::empty(),
                            },
                        )
                    } else {
                        r matches Err(e) && e == StrError::BadValue
                    },
                    _ => r matches Err(e) && e == StrError::WrongType,
                },
                None => match dict_or_str {
                    MaketransArg::Dict(items) => match dict_entries(items@, items@.len() as int) {
                        Ok(es) => r matches Ok(t) && t@ == es,
                        Err(e) => r matches Err(x) && x == e,
                    },
                    _ => r matches Err(e) && e == StrError::BadValue,
                },
            },
    {
        match to_str {
            Some(to) => match dict_or_str {
                MaketransArg::Str(from) => {
                    let fs = chars_of(from.as_str());
                    let ts = chars_of(to.as_str());
                    if fs.len() != ts.len() {
                        return Err(StrError::BadValue);
                    }
                    let ns = match none_str {
                        Some(n) => chars_of(n.as_str()),
                        None => Vec::new(),
                    };
                    let mut entries: Vec<(i64, TransValue)> = Vec::new();
                    let mut i: usize = 0;
                    while i < fs.len()
                        invariant
                            fs@.len() == ts@.len(),
                            i <= fs@.len(),
                            entries@ == Seq::new(
                                i as nat,
                                |j: int| (fs@[j] as i64, TransValue::Int(ts@[j] as i64)),
                            ),
                        decreases fs@.len() - i,
                    {
                        entries.push((code_point(fs[i]), TransValue::Int(code_point(ts[i]))));
                        i += 1;
                        assert(entries@ =~= Seq::new(
                            i as nat,
                            |j: int| (fs@[j] as i64, TransValue::Int(ts@[j] as i64)),
                        ));
                    }
                    let mut j: usize = 0;
                    while j < ns.len()
                        invariant
                            i == fs@.len(),
                            fs@.len() == ts@.len(),
                            j <= ns@.len(),
                            entries@ == Seq::new(
                                i as nat,
                                |k: int| (fs@[k] as i64, TransValue::Int(ts@[k] as i64)),
                            ) + Seq::new(j as nat, |k: int| (ns@[k] as i64, TransValue::Delete)),
                        decreases ns@.len() - j,
                    {
                        entries.push((code_point(ns[j]), TransValue::Delete));
                        j += 1;
                        assert(entries@ =~= Seq::new(
                            i as nat,
                            |k: int| (fs@[k] as i64, TransValue::Int(ts@[k] as i64)),
                        ) + Seq::new(j as nat, |k: int| (ns@[k] as i64, TransValue::Delete)));
                    }
                    Ok(TransTable { entries })
                },
                _ => Err(StrError::WrongType),
            },
            None => match dict_or_str {
                MaketransArg::Dict(items) => match entries_from_dict(items) {
                    Ok(entries) => Ok(TransTable { entries }),
                    Err(e) => Err(e),
                },
                _ => Err(StrError::BadValue),
            },
        }
    }

    /// Maps every character through `table`: characters it has no entry
    /// for stay, others become what `translate_piece` says. `None` stands
    /// for a table that cannot be indexed.
    pub fn translate(&self, table: Option<&TransTable>) -> (r: Result<String, StrError>)
        ensures
            match table {
                None => r matches Err(e) && e == StrError::WrongType,
                Some(t) => match translate_upto(self@, t@, self@.len() as int) {
                    Ok(out) => r matches Ok(x) && x@ == out,
                    Err(e) => r matches Err(x) && x == e,
                },
            },
    {
        let t = match table {
            Some(t) => t,
            None => {
                return Err(StrError::WrongType);
            },
        };
        let cs = chars_of(self.value.as_str());
        let mut out = String::new();
        let mut i: usize = 0;
        while i < cs.len()
            invariant
                cs@ == self@,
                table == Some(t),
                i <= cs@.len(),
                translate_upto(cs@, t@, i as int) == Ok::<Seq<char>, StrError>(out@),
            decreases cs@.len() - i,
        {
            let c = cs[i];
            let ghost prev = out@;
            match t.get(code_point(c)) {
                None => {
                    push_char(&mut out, c);
                    assert(out@ =~= prev + seq![c]);
                },
                Some(TransValue::Str(text)) => {
                    push_all(&mut out, &chars_of(text.as_str()));
                },
                Some(TransValue::Int(n)) => {
                    let n = *n;
                    if 0 <= n && n <= u32::MAX as i64 {
                        match char_from_u32(n as u32) {
                            Some(d) => {
                                assert(code(d) == n);
                                assert(code(char_of_code(n as int)) == n);
                                assert(d == char_of_code(n as int));
                                push_char(&mut out, d);
                                assert(out@ =~= prev + seq![d]);
                            },
                            None => {
                                proof {
                                    lemma_translate_fail(cs@, t@, i as int + 1, cs@.len() as int);
                                }
                                return Err(StrError::BadValue);
                            },
                        }
                    } else {
                        proof {
                            lemma_translate_fail(cs@, t@, i as int + 1, cs@.len() as int);
                        }
                        return Err(StrError::BadValue);
                    }
                },
                Some(TransValue::Delete) => {
                    assert(out@ =~= prev + Seq::<char>::empty());
                },
                Some(TransValue::Other) => {
                    proof {
                        lemma_translate_fail(cs@, t@, i as int + 1, cs@.len() as int);
                    }
                    return Err(StrError::WrongType);
                },
            }
            i += 1;
        }
        Ok(out)
    }
}

/// The table entries of a mapping's items, as `dict_entries` says.
fn entries_from_dict(items: Vec<(TransKey, TransValue)>) -> (r: Result<Vec<(i64, TransValue)>, StrError>)
    ensures
        match dict_entries(items@, items@.len() as int) {
            Ok(es) => r matches Ok(x) && x@ == es,
            Err(e) => r matches Err(x) && x == e,
        },
{
    let ghost orig = items@;
    let mut pending = items;
    let mut rest: Vec<(TransKey, TransValue)> = Vec::new();
    let n = pending.len();
    let mut k: usize = 0;
    while k < n
        invariant
            n == orig.len(),
            k <= n,
            rest@ == orig.subrange(n - k, n as int).reverse(),
            pending@ == orig.subrange(0, n - k),
        decreases n - k,
    {
        let it = pending.pop().unwrap();
        rest.push(it);
        k += 1;
        assert(rest@ =~= orig.subrange(n - k, n as int).reverse());
    }
    let mut entries: Vec<(i64, TransValue)> = Vec::new();
    let mut i: usize = 0;
    while i < n
        invariant
            n == orig.len(),
            orig == items@,
            i <= n,
            rest@ == orig.subrange(i as int, n as int).reverse(),
            dict_entries(orig, i as int) == Ok::<Seq<(i64, TransValue)>, StrError>(entries@),
        decreases n - i,
    {
        let (key, val) = rest.pop().unwrap();
        assert(orig[i as int] == (key, val));
        match key {
            TransKey::Int(c) => {
                entries.push((c, val));
            },
            TransKey::Str(t) => {
                let ts = chars_of(t.as_str());
                if ts.len() == 1 {
                    entries.push((code_point(ts[0]), val));
                } else {
                    proof {
                        lemma_dict_entries_fail(orig, i as int + 1, n as int);
                    }
                    return Err(StrError::BadValue);
                }
            },
            TransKey::Other => {},
        }
        i += 1;
        assert(rest@ =~= orig.subrange(i as int, n as int).reverse());
    }
    Ok(entries)
}

/// The code point of a character.
fn code_point(c: char) -> (r: i64)
    ensures
        r as int == c as int,
{
    c as u32 as i64
}

proof fn lemma_translate_fail(s: Seq<char>, es: Seq<(i64, TransValue)>, m: int, n: int)
    requires
        1 <= m <= n,
        translate_upto(s, es, m) is Err,
    ensures
        translate_upto(s, es, n) == translate_upto(s, es, m),
    decreases n - m,
{
    if n > m {
        lemma_translate_fail(s, es, m, n - 1);
    }
}

proof fn lemma_dict_entries_fail(items: Seq<(TransKey, TransValue)>, m: int, n: int)
    requires
        1 <= m <= n,
        dict_entries(items, m) is Err,
    ensures
        dict_entries(items, n) == dict_entries(items, m),
    decreases n - m,
{
    if n > m {
        lemma_dict_entries_fail(items, m, n - 1);
    }
}

/// A class of characters that a string predicate tests for.
#[derive(Clone, Copy, Debug, PartialEq, Eq, Structural)]
enum CharClass {
    Alphabetic,
    Alphanumeric,
    Numeric,
    DigitLike,
    AsciiDigit,
    AsciiWhitespace,
    Ascii,
    Printable,
}

spec fn in_class(k: CharClass, c: char) -> bool {
    match k {
        CharClass::Alphabetic => alphabetic_char(c),
        CharClass::Alphanumeric => alphabetic_char(c) || numeric_char(c),
        CharClass::Numeric => numeric_char(c),
        CharClass::DigitLike => ascii_digit(c) || superscript_digit(c),
        CharClass::AsciiDigit => ascii_digit(c),
        CharClass::AsciiWhitespace => ascii_whitespace(c),
        CharClass::Ascii => ascii_char(c),
        CharClass::Printable => c == ' ' || !(other_category(c) || separator_category(c)),
    }
}

fn char_in_class(k: CharClass, c: char) -> (r: bool)
    ensures
        r == in_class(k, c),
{
    match k {
        CharClass::Alphabetic => is_alphabetic(c),
        CharClass::Alphanumeric => is_alphanumeric(c),
        CharClass::Numeric => is_numeric(c),
        CharClass::DigitLike => is_digit_like(c),
        CharClass::AsciiDigit => is_ascii_digit(c),
        CharClass::AsciiWhitespace => is_ascii_whitespace(c),
        CharClass::Ascii => is_ascii(c),
        CharClass::Printable => is_printable(c),
    }
}

/// Whether every character of `cs` is in class `k`.
fn all_chars(cs: &Vec<char>, k: CharClass) -> (r: bool)
    ensures
        r == forall|i: int| 0 <= i < cs@.len() ==> in_class(k, #[trigger] cs@[i]),
{
    let mut i: usize = 0;
    while i < cs.len()
        invariant
            i <= cs@.len(),
            forall|j: int| 0 <= j < i ==> in_class(k, #[trigger] cs@[j]),
        decreases cs@.len() - i,
    {
        if !char_in_class(k, cs[i]) {
            return false;
        }
        i += 1;
    }
    true
}

/// ASCII decimal digits `0`..`9`.
pub open spec fn ascii_digit(c: char) -> bool {
    '0' <= c <= '9'
}

/// ASCII whitespace: space, tab, line feed, form feed, carriage return.
pub open spec fn ascii_whitespace(c: char) -> bool {
    c == ' ' || c == '\t' || c == '\n' || c == '\x0C' || c == '\r'
}

pub open spec fn ascii_char(c: char) -> bool {
    (c as int) < 128
}

/// The superscript digits that count as digits besides `0`..`9`.
pub open spec fn superscript_digit(c: char) -> bool {
    c == '\u{2070}' || c == '\u{00B9}' || c == '\u{00B2}' || c == '\u{00B3}' || ('\u{2074}'
        <= c <= '\u{2079}')
}

fn is_ascii_digit(c: char) -> (r: bool)
    ensures
        r == ascii_digit(c),
{
    '0' <= c && c <= '9'
}

fn is_ascii_whitespace(c: char) -> (r: bool)
    ensures
        r == ascii_whitespace(c),
{
    c == ' ' || c == '\t' || c == '\n' || c == '\x0C' || c == '\r'
}

fn is_ascii(c: char) -> (r: bool)
    ensures
        r == ascii_char(c),
{
    (c as u32) < 128
}

fn is_digit_like(c: char) -> (r: bool)
    ensures
        r == (ascii_digit(c) || superscript_digit(c)),
{
    is_ascii_digit(c) || c == '\u{2070}' || c == '\u{00B9}' || c == '\u{00B2}' || c == '\u{00B3}'
        || ('\u{2074}' <= c && c <= '\u{2079}')
}

fn is_printable(c: char) -> (r: bool)
    ensures
        r == (c == ' ' || !(other_category(c) || separator_category(c))),
{
    c == ' ' || !(is_other_category(c) || is_separator_category(c))
}

/// The `[start, end)` range that optional bounds designate in a string of
/// length `len`: a missing start is `0`, a missing end is `len`; negative
/// bounds count from the back and clamp at `0`; the end also clamps at
/// `len`. The start is not clamped above, so the range may be inverted.
pub fn adjust_indices(start: Option<isize>, end: Option<isize>, len: usize) -> (r:
    std::ops::Range<usize>)
    ensures
        r.start == adjusted_start(start, len as int),
        r.end == adjusted_end(end, len as int),
{
    let s: usize = match start {
        None => 0,
        Some(x) => if x < 0 {
            if x as i128 + len as i128 >= 0 {
                (x as i128 + len as i128) as usize
            } else {
                0
            }
        } else {
            x as usize
        },
    };
    let e: usize = match end {
        None => len,
        Some(x) => if x as i128 > len as i128 {
            len
        } else if x < 0 {
            if x as i128 + len as i128 >= 0 {
                (x as i128 + len as i128) as usize
            } else {
                0
            }
        } else {
            x as usize
        },
    };
    s..e
}

pub open spec fn adjusted_start(start: Option<isize>, len: int) -> int {
    match start {
        None => 0,
        Some(x) => if x < 0 {
            if x + len >= 0 {
                x + len
            } else {
                0
            }
        } else {
            x as int
        },
    }
}

pub open spec fn adjusted_end(end: Option<isize>, len: int) -> int {
    match end {
        None => len,
        Some(x) => if x > len {
            len
        } else if x < 0 {
            if x + len >= 0 {
                x + len
            } else {
                0
            }
        } else {
            x as int
        },
    }
}

/// A range whose bounds may be inverted.
pub trait StringRange {
    spec fn spec_normal(&self) -> bool;

    /// Whether the start does not exceed the end.
    fn is_normal(&self) -> (r: bool)
        ensures
            r == self.spec_normal(),
    ;
}

impl StringRange for std::ops::Range<usize> {
    open spec fn spec_normal(&self) -> bool {
        self.start <= self.end
    }

    fn is_normal(&self) -> (r: bool) {
        self.start <= self.end
    }
}

/// The value of a string object, copied.
pub fn clone_value(obj: &PyString) -> (r: String)
    ensures
        r@ == obj@,
{
    obj.value.clone()
}

/// The value of a string object.
pub fn borrow_value(obj: &PyString) -> (r: &str)
    ensures
        r@ == obj@,
{
    obj.value.as_str()
}

/// Forward cursor over the characters of a string.
#[derive(Debug)]
pub struct PyStringIterator {
    pub string: Vec<char>,
    pub position: usize,
}

/// Reverse cursor over the characters of a string.
#[derive(Debug)]
pub struct PyStringReverseIterator {
    pub string: Vec<char>,
    pub position: usize,
}

impl PyStringIterator {
    /// The next character, if any; the cursor then moves past it.
    pub fn next(&mut self) -> (r: Option<char>)
        ensures
            final(self).string == old(self).string,
            old(self).position < old(self).string@.len() ==> r == Some(
                old(self).string@[old(self).position as int],
            ) && final(self).position == old(self).position + 1,
            old(self).position >= old(self).string@.len() ==> r is None && final(self).position
                == old(self).position,
    {
        if self.position < self.string.len() {
            let c = self.string[self.position];
            self.position = self.position + 1;
            Some(c)
        } else {
            None
        }
    }

    /// The cursor itself.
    pub fn iter(self) -> (r: Self)
        ensures
            r.string@ == self.string@,
            r.position == self.position,
    {
        self
    }
}

impl PyStringReverseIterator {
    /// The character before the position, if any; the cursor then moves
    /// back over it.
    pub fn next(&mut self) -> (r: Option<char>)
        ensures
            final(self).string == old(self).string,
            0 < old(self).position <= old(self).string@.len() ==> r == Some(
                old(self).string@[old(self).position - 1],
            ) && final(self).position == old(self).position - 1,
            !(0 < old(self).position <= old(self).string@.len()) ==> r is None
                && final(self).position == old(self).position,
    {
        if self.position > 0 && self.position <= self.string.len() {
            let c = self.string[self.position - 1];
            self.position = self.position - 1;
            Some(c)
        } else {
            None
        }
    }

    /// The cursor itself.
    pub fn iter(self) -> (r: Self)
        ensures
            r.string@ == self.string@,
            r.position == self.position,
    {
        self
    }
}

impl PyString {
    /// A forward cursor at the first character.
    pub fn iter(&self) -> (r: PyStringIterator)
        ensures
            r.string@ == self@,
            r.position == 0,
    {
        PyStringIterator { string: chars_of(self.value.as_str()), position: 0 }
    }

    /// A reverse cursor after the last character.
    pub fn reversed(&self) -> (r: PyStringReverseIterator)
        ensures
            r.string@ == self@,
            r.position == self@.len(),
    {
        let cs = chars_of(self.value.as_str());
        let n = cs.len();
        PyStringReverseIterator { string: cs, position: n }
    }

    pub fn isalpha(&self) -> (r: bool)
        ensures
            r == (self@.len() > 0 && forall|i: int| 0 <= i < self@.len() ==> alphabetic_char(#[trigger] self@[i])),
    {
        let cs = chars_of(self.value.as_str());
        cs.len() > 0 && all_chars(&cs, CharClass::Alphabetic)
    }

    pub fn isalnum(&self) -> (r: bool)
        ensures
            r == (self@.len() > 0 && forall|i: int|
                0 <= i < self@.len() ==> alphabetic_char(#[trigger] self@[i]) || numeric_char(self@[i])),
    {
        let cs = chars_of(self.value.as_str());
        cs.len() > 0 && all_chars(&cs, CharClass::Alphanumeric)
    }

    pub fn isnumeric(&self) -> (r: bool)
        ensures
            r == (self@.len() > 0 && forall|i: int| 0 <= i < self@.len() ==> numeric_char(#[trigger] self@[i])),
    {
        let cs = chars_of(self.value.as_str());
        cs.len() > 0 && all_chars(&cs, CharClass::Numeric)
    }

    /// Non-empty, and every character is a decimal digit or a superscript
    /// digit.
    pub fn isdigit(&self) -> (r: bool)
        ensures
            r == (self@.len() > 0 && forall|i: int|
                0 <= i < self@.len() ==> ascii_digit(#[trigger] self@[i]) || superscript_digit(self@[i])),
    {
        let cs = chars_of(self.value.as_str());
        cs.len() > 0 && all_chars(&cs, CharClass::DigitLike)
    }

    pub fn isdecimal(&self) -> (r: bool)
        ensures
            r == (self@.len() > 0 && forall|i: int| 0 <= i < self@.len() ==> ascii_digit(#[trigger] self@[i])),
    {
        let cs = chars_of(self.value.as_str());
        cs.len() > 0 && all_chars(&cs, CharClass::AsciiDigit)
    }

    pub fn isspace(&self) -> (r: bool)
        ensures
            r == (self@.len() > 0 && forall|i: int| 0 <= i < self@.len() ==> ascii_whitespace(#[trigger] self@[i])),
    {
        let cs = chars_of(self.value.as_str());
        cs.len() > 0 && all_chars(&cs, CharClass::AsciiWhitespace)
    }

    pub fn isascii(&self) -> (r: bool)
        ensures
            r == forall|i: int| 0 <= i < self@.len() ==> ascii_char(#[trigger] self@[i]),
    {
        let cs = chars_of(self.value.as_str());
        let r = all_chars(&cs, CharClass::Ascii);
        proof {
            if r {
                assert forall|i: int| 0 <= i < self@.len() implies ascii_char(#[trigger] self@[i]) by {
                    assert(in_class(CharClass::Ascii, cs@[i]));
                }
            } else {
                let i = choose|i: int| !(0 <= i < cs@.len() ==> in_class(CharClass::Ascii, #[trigger] cs@[i]));
                assert(!ascii_char(self@[i]));
            }
        }
        r
    }

    /// Every character is printable: the space, or one outside the
    /// `Other` and `Separator` general categories.
    pub fn isprintable(&self) -> (r: bool)
        ensures
            r == forall|i: int|
                0 <= i < self@.len() ==> #[trigger] self@[i] == ' ' || !(other_category(self@[i])
                    || separator_category(self@[i])),
    {
        let cs = chars_of(self.value.as_str());
        let r = all_chars(&cs, CharClass::Printable);
        proof {
            if r {
                assert forall|i: int| 0 <= i < self@.len() implies #[trigger] self@[i] == ' ' || !(
                other_category(self@[i]) || separator_category(self@[i])) by {
                    assert(in_class(CharClass::Printable, cs@[i]));
                }
            } else {
                let i = choose|i: int| !(0 <= i < cs@.len() ==> in_class(CharClass::Printable, #[trigger] cs@[i]));
                assert(!in_class(CharClass::Printable, self@[i]));
            }
        }
        r
    }

    /// Starts with `_` or an identifier-start character and continues with
    /// identifier characters.
    pub fn isidentifier(&self) -> (r: bool)
        ensures
            r == (self@.len() > 0 && (self@[0] == '_' || xid_start(self@[0])) && forall|i: int|
                1 <= i < self@.len() ==> xid_continue(#[trigger] self@[i])),
    {
        let cs = chars_of(self.value.as_str());
        if cs.len() == 0 {
            return false;
        }
        if !(cs[0] == '_' || is_xid_start(cs[0])) {
            return false;
        }
        let mut i: usize = 1;
        while i < cs.len()
            invariant
                cs@ == self@,
                1 <= i <= cs@.len(),
                forall|j: int| 1 <= j < i ==> xid_continue(#[trigger] cs@[j]),
            decreases cs@.len() - i,
        {
            if !is_xid_continue(cs[i]) {
                return false;
            }
            i += 1;
        }
        true
    }

    /// At least one cased character, and every cased one is uppercase.
    pub fn isupper(&self) -> (r: bool)
        ensures
            r == ((exists|i: int| 0 <= i < self@.len() && cased_char(#[trigger] self@[i]) && uppercase_char(self@[i]))
                && forall|i: int| 0 <= i < self@.len() ==> !(cased_char(#[trigger] self@[i]) && !uppercase_char(self@[i])
                    && lowercase_char(self@[i]))),
    {
        self.cased_as(true)
    }

    /// At least one cased character, and every cased one is lowercase.
    pub fn islower(&self) -> (r: bool)
        ensures
            r == ((exists|i: int| 0 <= i < self@.len() && cased_char(#[trigger] self@[i]) && lowercase_char(self@[i]))
                && forall|i: int| 0 <= i < self@.len() ==> !(cased_char(#[trigger] self@[i]) && !lowercase_char(self@[i])
                    && uppercase_char(self@[i]))),
    {
        self.cased_as(false)
    }

    fn cased_as(&self, upper: bool) -> (r: bool)
        ensures
            upper ==> r == ((exists|i: int| 0 <= i < self@.len() && cased_char(#[trigger] self@[i]) && uppercase_char(self@[i]))
                && forall|i: int| 0 <= i < self@.len() ==> !(cased_char(#[trigger] self@[i]) && !uppercase_char(self@[i])
                    && lowercase_char(self@[i]))),
            !upper ==> r == ((exists|i: int| 0 <= i < self@.len() && cased_char(#[trigger] self@[i]) && lowercase_char(self@[i]))
                && forall|i: int| 0 <= i < self@.len() ==> !(cased_char(#[trigger] self@[i]) && !lowercase_char(self@[i])
                    && uppercase_char(self@[i]))),
    {
        let cs = chars_of(self.value.as_str());
        let mut cased = false;
        let mut i: usize = 0;
        while i < cs.len()
            invariant
                cs@ == self@,
                i <= cs@.len(),
                upper ==> cased == exists|j: int| 0 <= j < i && cased_char(#[trigger] cs@[j]) && uppercase_char(cs@[j]),
                !upper ==> cased == exists|j: int| 0 <= j < i && cased_char(#[trigger] cs@[j]) && lowercase_char(cs@[j]),
                upper ==> forall|j: int| 0 <= j < i ==> !(cased_char(#[trigger] cs@[j]) && !uppercase_char(cs@[j]) && lowercase_char(cs@[j])),
                !upper ==> forall|j: int| 0 <= j < i ==> !(cased_char(#[trigger] cs@[j]) && !lowercase_char(cs@[j]) && uppercase_char(cs@[j])),
            decreases cs@.len() - i,
        {
            let c = cs[i];
            let is_c = is_cased(c);
            let (wanted, other) = if upper {
                (is_uppercase(c), is_lowercase(c))
            } else {
                (is_lowercase(c), is_uppercase(c))
            };
            if is_c && wanted {
                cased = true;
            } else if is_c && other {
                return false;
            }
            i += 1;
        }
        cased
    }

    /// Lowercase mapping of the whole string.
    pub fn lower(&self) -> (r: String)
        ensures
            r@ == lower_of(self@),
    {
        str_to_lowercase(self.value.as_str())
    }

    /// Uppercase mapping of the whole string.
    pub fn upper(&self) -> (r: String)
        ensures
            r@ == upper_of(self@),
    {
        str_to_uppercase(self.value.as_str())
    }

    /// Default case folding of the whole string.
    pub fn casefold(&self) -> (r: String)
        ensures
            r@ == fold_of(self@),
    {
        case_fold(self.value.as_str())
    }

    /// The first character uppercased, the rest lowercased.
    pub fn capitalize(&self) -> (r: String)
        ensures
            r@ == if self@.len() == 0 {
                Seq::<char>::empty()
            } else {
                upper_char_of(self@[0]) + lower_of(self@.subrange(1, self@.len() as int))
            },
    {
        let cs = chars_of(self.value.as_str());
        if cs.len() == 0 {
            return String::new();
        }
        let mut out = String::new();
        push_all(&mut out, &char_to_uppercase(cs[0]));
        let rest = string_of(&tail_of(&cs, 1));
        push_all(&mut out, &chars_of(str_to_lowercase(rest.as_str()).as_str()));
        out
    }

    /// Lowercase letters become uppercase and uppercase ones lowercase, each
    /// by its ASCII mapping only.
    pub fn swapcase(&self) -> (r: String)
        ensures
            r@ == Seq::new(self@.len(), |i: int| swapped(self@[i])),
    {
        let cs = chars_of(self.value.as_str());
        let mut out = String::new();
        let mut i: usize = 0;
        while i < cs.len()
            invariant
                cs@ == self@,
                i <= cs@.len(),
                out@ == Seq::new(i as nat, |j: int| swapped(cs@[j])),
            decreases cs@.len() - i,
        {
            let c = cs[i];
            let d = if is_lowercase(c) {
                ascii_upper(c)
            } else if is_uppercase(c) {
                ascii_lower(c)
            } else {
                c
            };
            push_char(&mut out, d);
            i += 1;
            assert(out@ =~= Seq::new(i as nat, |j: int| swapped(cs@[j])));
        }
        out
    }
}

/// `c` with `a`..`z` mapped to `A`..`Z`.
pub open spec fn ascii_upper_of(c: char) -> char {
    if 'a' <= c <= 'z' {
        char_of_code(c as int - 32)
    } else {
        c
    }
}

/// `c` with `A`..`Z` mapped to `a`..`z`.
pub open spec fn ascii_lower_of(c: char) -> char {
    if 'A' <= c <= 'Z' {
        char_of_code(c as int + 32)
    } else {
        c
    }
}

/// What `swapcase` makes of one character.
pub open spec fn swapped(c: char) -> char {
    if lowercase_char(c) {
        ascii_upper_of(c)
    } else if uppercase_char(c) {
        ascii_lower_of(c)
    } else {
        c
    }
}

fn ascii_upper(c: char) -> (r: char)
    ensures
        r == ascii_upper_of(c),
{
    if 'a' <= c && c <= 'z' {
        let d = ((c as u8) - 32) as char;
        assert(code(d) == c as int - 32);
        d
    } else {
        c
    }
}

fn ascii_lower(c: char) -> (r: char)
    ensures
        r == ascii_lower_of(c),
{
    if 'A' <= c && c <= 'Z' {
        let d = ((c as u8) + 32) as char;
        assert(code(d) == c as int + 32);
        d
    } else {
        c
    }
}

/// The characters of `cs` from position `from` on.
fn tail_of(cs: &Vec<char>, from: usize) -> (r: Vec<char>)
    requires
        from <= cs@.len(),
    ensures
        r@ == cs@.subrange(from as int, cs@.len() as int),
{
    let mut out: Vec<char> = Vec::new();
    let mut i: usize = from;
    while i < cs.len()
        invariant
            from <= i <= cs@.len(),
            out@ == cs@.subrange(from as int, i as int),
        decreases cs@.len() - i,
    {
        out.push(cs[i]);
        i += 1;
        assert(out@ =~= cs@.subrange(from as int, i as int));
    }
    out
}

/// A subscript of a string: a scalar index or a slice descriptor.
#[derive(Clone, Copy, Debug, PartialEq, Eq, Structural)]
pub enum StrIndex {
    Int(isize),
    Slice(SliceDesc),
}

/// `sub` occurs in `s` at position `i`.
pub open spec fn occurs_at(s: Seq<char>, sub: Seq<char>, i: int) -> bool {
    0 <= i && i + sub.len() <= s.len() && s.subrange(i, i + sub.len()) == sub
}

/// `a` orders before `b`: at the first position where they differ `a` has
/// the smaller character, or `a` is a proper prefix of `b`.
pub open spec fn lex_less(a: Seq<char>, b: Seq<char>) -> bool {
    exists|k: int|
        0 <= k <= a.len() && k <= b.len() && #[trigger] a.subrange(0, k) == b.subrange(0, k) && (
        (k < a.len() && k < b.len() && a[k] < b[k]) || (k == a.len() && k < b.len()))
}

/// Length of the common prefix of `a` and `b`.
fn common_prefix(a: &Vec<char>, b: &Vec<char>) -> (r: usize)
    ensures
        r <= a@.len(),
        r <= b@.len(),
        a@.subrange(0, r as int) == b@.subrange(0, r as int),
        r < a@.len() && r < b@.len() ==> a@[r as int] != b@[r as int],
{
    let mut i: usize = 0;
    while i < a.len() && i < b.len() && a[i] == b[i]
        invariant
            i <= a@.len(),
            i <= b@.len(),
            a@.subrange(0, i as int) == b@.subrange(0, i as int),
        decreases a@.len() - i,
    {
        assert(a@.subrange(0, i + 1) =~= a@.subrange(0, i as int).push(a@[i as int]));
        assert(b@.subrange(0, i + 1) =~= b@.subrange(0, i as int).push(b@[i as int]));
        i += 1;
    }
    i
}

/// The first difference of two sequences is unique: any position with
/// equal prefixes where they differ (or one ends) is the common-prefix
/// length `i`.
proof fn lemma_prefix_unique(a: Seq<char>, b: Seq<char>, i: int, k: int)
    requires
        0 <= i <= a.len(),
        i <= b.len(),
        a.subrange(0, i) == b.subrange(0, i),
        i < a.len() && i < b.len() ==> a[i] != b[i],
        0 <= k <= a.len(),
        k <= b.len(),
        a.subrange(0, k) == b.subrange(0, k),
        (k < a.len() && k < b.len() && a[k] != b[k]) || k == a.len() || k == b.len(),
    ensures
        k == i,
{
    if k < i {
        assert(a[k] == a.subrange(0, i)[k]);
        assert(b[k] == b.subrange(0, i)[k]);
    } else if k > i {
        assert(a[i] == a.subrange(0, k)[i]);
        assert(b[i] == b.subrange(0, k)[i]);
    }
}

/// Whether `a` orders before `b`.
fn less_than(a: &Vec<char>, b: &Vec<char>) -> (r: bool)
    ensures
        r == lex_less(a@, b@),
{
    let i = common_prefix(a, b);
    let r = if i < a.len() && i < b.len() {
        a[i] < b[i]
    } else {
        i == a.len() && i < b.len()
    };
    proof {
        if r {
            assert(a@.subrange(0, i as int) == b@.subrange(0, i as int));
        } else if lex_less(a@, b@) {
            let k = choose|k: int|
                0 <= k <= a@.len() && k <= b@.len() && #[trigger] a@.subrange(0, k) == b@.subrange(0, k) && (
                (k < a@.len() && k < b@.len() && a@[k] < b@[k]) || (k == a@.len() && k < b@.len()));
            lemma_prefix_unique(a@, b@, i as int, k);
        }
    }
    r
}

/// First position in `[lo, hi)` where `sub` occurs within `[lo, hi)`.
fn find_in(cs: &Vec<char>, sub: &Vec<char>, lo: usize, hi: usize, last: bool) -> (r: Option<usize>)
    requires
        lo <= hi <= cs@.len(),
    ensures
        match r {
            Some(i) => lo <= i && i + sub@.len() <= hi && occurs_at(cs@, sub@, i as int) && (!last
                ==> forall|j: int| lo <= j < i ==> !occurs_at(cs@, sub@, j)) && (last ==> forall|j: int|
                i < j && j + sub@.len() <= hi ==> !occurs_at(cs@, sub@, j)),
            None => forall|j: int| lo <= j && j + sub@.len() <= hi ==> !occurs_at(cs@, sub@, j),
        },
{
    let m = sub.len();
    if m > hi - lo {
        return None;
    }
    let limit = hi - m;
    let span = limit - lo;
    let mut t: usize = 0;
    loop
        invariant
            m == sub@.len(),
            lo <= hi <= cs@.len(),
            m <= hi - lo,
            limit == hi - m,
            span == limit - lo,
            t <= span,
            !last ==> forall|j: int| lo <= j < lo + t ==> !occurs_at(cs@, sub@, j),
            last ==> forall|j: int| limit - t < j <= limit ==> !occurs_at(cs@, sub@, j),
        decreases span - t,
    {
        let i = if last { limit - t } else { lo + t };
        if matches_at(cs, sub, i) {
            return Some(i);
        }
        if t == span {
            return None;
        }
        t += 1;
    }
}

/// Whether `sub` occurs in `cs` at `i`.
fn matches_at(cs: &Vec<char>, sub: &Vec<char>, i: usize) -> (r: bool)
    requires
        i + sub@.len() <= cs@.len(),
    ensures
        r == occurs_at(cs@, sub@, i as int),
{
    let n = cs.len();
    let mut k: usize = 0;
    while k < sub.len()
        invariant
            n == cs@.len(),
            i + sub@.len() <= cs@.len(),
            k <= sub@.len(),
            forall|j: int| 0 <= j < k ==> cs@[i + j] == sub@[j],
        decreases sub@.len() - k,
    {
        if cs[i + k] != sub[k] {
            assert(cs@.subrange(i as int, i + sub@.len())[k as int] != sub@[k as int]);
            return false;
        }
        k += 1;
    }
    assert(cs@.subrange(i as int, i + sub@.len()) =~= sub@);
    true
}

/// Number of non-overlapping occurrences of `sub` found scanning `s` from
/// `i` up to `e`; an empty `sub` occurs at every position from `i` to `e`.
pub open spec fn count_from(s: Seq<char>, sub: Seq<char>, i: int, e: int) -> int
    decreases e - i + 1,
{
    if i > e {
        0
    } else if sub.len() == 0 {
        e - i + 1
    } else if i + sub.len() > e {
        0
    } else if occurs_at(s.subrange(0, e), sub, i) {
        1 + count_from(s, sub, i + sub.len(), e)
    } else {
        count_from(s, sub, i + 1, e)
    }
}

/// The characters of `s` in `[a, b)` of a range that `adjust_indices`
/// gave, or `None` when the range is inverted.
pub open spec fn window(s: Seq<char>, start: Option<isize>, end: Option<isize>) -> Option<(int, int)> {
    let a = adjusted_start(start, s.len() as int);
    let b = adjusted_end(end, s.len() as int);
    if a <= b {
        Some((a, b))
    } else {
        None
    }
}

impl PyString {
    /// Subscript read: the character at an index, or the characters a slice
    /// selects, as a new string.
    pub fn getitem(&self, needle: StrIndex) -> (r: Result<String, StrError>)
        ensures
            match needle {
                StrIndex::Int(i) => match index_position(self@.len() as int, i as int) {
                    Some(p) => r matches Ok(x) && x@ == seq![self@[p]],
                    None => r matches Err(e) && e == StrError::IndexOutOfRange,
                },
                StrIndex::Slice(d) => if step_value(d) == 0 {
                    r matches Err(e) && e == StrError::ZeroStep
                } else {
                    r matches Ok(x) && x@ == sliced(self@, plan_of(self@.len() as int, d))
                },
            },
    {
        let cs = chars_of(self.value.as_str());
        match needle {
            StrIndex::Int(i) => match resolve_index(cs.len(), i) {
                Some(p) => {
                    let mut out = String::new();
                    push_char(&mut out, cs[p]);
                    assert(out@ =~= seq![self@[p as int]]);
                    Ok(out)
                },
                None => Err(StrError::IndexOutOfRange),
            },
            StrIndex::Slice(d) => {
                let l = PyList::from_vec(cs);
                match l.get_slice(&d) {
                    Ok(v) => Ok(string_of(&v)),
                    Err(_) => Err(StrError::ZeroStep),
                }
            },
        }
    }

    /// Concatenation.
    pub fn add(&self, rhs: &PyString) -> (r: String)
        ensures
            r@ == self@ + rhs@,
    {
        let mut out = self.value.clone();
        push_all(&mut out, &chars_of(rhs.value.as_str()));
        out
    }

    /// `self` repeated `multiplier` times (empty when it is not positive);
    /// fails when the length would not fit.
    pub fn mul(&self, multiplier: isize) -> (r: Result<String, StrError>)
        ensures
            match r {
                Ok(x) => x@ == crate::list::repeated(self@, multiplier as int),
                Err(e) => e == StrError::Overflow && multiplier * self@.len() > usize::MAX,
            },
            multiplier * self@.len() <= usize::MAX ==> r is Ok,
    {
        let l = PyList::from_vec(chars_of(self.value.as_str()));
        match l.mul(multiplier) {
            Ok(m) => Ok(string_of(m.borrow_elements())),
            Err(_) => Err(StrError::Overflow),
        }
    }

    /// Same as `mul`.
    pub fn rmul(&self, val: isize) -> (r: Result<String, StrError>)
        ensures
            match r {
                Ok(x) => x@ == crate::list::repeated(self@, val as int),
                Err(e) => e == StrError::Overflow && val * self@.len() > usize::MAX,
            },
            val * self@.len() <= usize::MAX ==> r is Ok,
    {
        self.mul(val)
    }

    pub fn eq(&self, rhs: &PyString) -> (r: bool)
        ensures
            r == (self@ == rhs@),
    {
        self.value == rhs.value
    }

    pub fn ne(&self, rhs: &PyString) -> (r: bool)
        ensures
            r == (self@ != rhs@),
    {
        !(self.value == rhs.value)
    }

    pub fn lt(&self, other: &PyString) -> (r: bool)
        ensures
            r == lex_less(self@, other@),
    {
        less_than(&chars_of(self.value.as_str()), &chars_of(other.value.as_str()))
    }

    pub fn gt(&self, other: &PyString) -> (r: bool)
        ensures
            r == lex_less(other@, self@),
    {
        less_than(&chars_of(other.value.as_str()), &chars_of(self.value.as_str()))
    }

    pub fn le(&self, other: &PyString) -> (r: bool)
        ensures
            r == !lex_less(other@, self@),
    {
        !self.gt(other)
    }

    pub fn ge(&self, other: &PyString) -> (r: bool)
        ensures
            r == !lex_less(self@, other@),
    {
        !self.lt(other)
    }

    /// Whether `needle` occurs somewhere in the string.
    pub fn contains(&self, needle: &PyString) -> (r: bool)
        ensures
            r == exists|i: int| occurs_at(self@, needle@, i),
    {
        let cs = chars_of(self.value.as_str());
        let sub = chars_of(needle.value.as_str());
        let r = find_in(&cs, &sub, 0, cs.len(), false);
        proof {
            if let Some(i) = r {
                assert(occurs_at(self@, needle@, i as int));
            } else {
                assert forall|i: int| !occurs_at(self@, needle@, i) by {
                    if occurs_at(self@, needle@, i) {
                        assert(0 <= i && i + sub@.len() <= cs@.len());
                    }
                }
            }
        }
        r.is_some()
    }

    /// First (or, with `last`, last) position, in characters, where `sub`
    /// occurs inside the window that `start` and `end` designate.
    fn _find(&self, sub: &PyString, start: Option<isize>, end: Option<isize>, last: bool) -> (r: Option<usize>)
        ensures
            self@.len() < isize::MAX,
            match window(self@, start, end) {
                None => r is None,
                Some((a, b)) => match r {
                    Some(i) => a <= i && i + sub@.len() <= b && occurs_at(self@, sub@, i as int) && (!last
                        ==> forall|j: int| a <= j < i ==> !occurs_at(self@, sub@, j)) && (last ==> forall|j: int|
                        i < j && j + sub@.len() <= b ==> !occurs_at(self@, sub@, j)),
                    None => forall|j: int| a <= j && j + sub@.len() <= b ==> !occurs_at(self@, sub@, j),
                },
            },
    {
        let cs = chars_of(self.value.as_str());
        let range = adjust_indices(start, end, cs.len());
        if range.is_normal() {
            find_in(&cs, &chars_of(sub.value.as_str()), range.start, range.end, false || last)
        } else {
            None
        }
    }

    /// Position of the first occurrence of `sub` in the window, or `-1`.
    pub fn find(&self, sub: &PyString, start: Option<isize>, end: Option<isize>) -> (r: isize)
        ensures
            match window(self@, start, end) {
                None => r == -1,
                Some((a, b)) => if r >= 0 {
                    a <= r && r + sub@.len() <= b && occurs_at(self@, sub@, r as int) && forall|j: int|
                        a <= j < r ==> !occurs_at(self@, sub@, j)
                } else {
                    r == -1 && forall|j: int| a <= j && j + sub@.len() <= b ==> !occurs_at(self@, sub@, j)
                },
            },
    {
        match self._find(sub, start, end, false) {
            Some(i) => i as isize,
            None => -1,
        }
    }

    /// Position of the last occurrence of `sub` in the window, or `-1`.
    pub fn rfind(&self, sub: &PyString, start: Option<isize>, end: Option<isize>) -> (r: isize)
        ensures
            match window(self@, start, end) {
                None => r == -1,
                Some((a, b)) => if r >= 0 {
                    a <= r && r + sub@.len() <= b && occurs_at(self@, sub@, r as int) && forall|j: int|
                        r < j && j + sub@.len() <= b ==> !occurs_at(self@, sub@, j)
                } else {
                    r == -1 && forall|j: int| a <= j && j + sub@.len() <= b ==> !occurs_at(self@, sub@, j)
                },
            },
    {
        match self._find(sub, start, end, true) {
            Some(i) => i as isize,
            None => -1,
        }
    }

    /// Like `find`, failing with `NotFound` instead of answering `-1`.
    pub fn index(&self, sub: &PyString, start: Option<isize>, end: Option<isize>) -> (r: Result<usize, StrError>)
        ensures
            match window(self@, start, end) {
                None => r == Err::<usize, StrError>(StrError::NotFound),
                Some((a, b)) => match r {
                    Ok(i) => a <= i && i + sub@.len() <= b && occurs_at(self@, sub@, i as int) && forall|j: int|
                        a <= j < i ==> !occurs_at(self@, sub@, j),
                    Err(e) => e == StrError::NotFound && forall|j: int| a <= j && j + sub@.len() <= b ==> !occurs_at(self@, sub@, j),
                },
            },
    {
        match self._find(sub, start, end, false) {
            Some(i) => Ok(i),
            None => Err(StrError::NotFound),
        }
    }

    /// Like `rfind`, failing with `NotFound` instead of answering `-1`.
    pub fn rindex(&self, sub: &PyString, start: Option<isize>, end: Option<isize>) -> (r: Result<usize, StrError>)
        ensures
            match window(self@, start, end) {
                None => r == Err::<usize, StrError>(StrError::NotFound),
                Some((a, b)) => match r {
                    Ok(i) => a <= i && i + sub@.len() <= b && occurs_at(self@, sub@, i as int) && forall|j: int|
                        i < j && j + sub@.len() <= b ==> !occurs_at(self@, sub@, j),
                    Err(e) => e == StrError::NotFound && forall|j: int| a <= j && j + sub@.len() <= b ==> !occurs_at(self@, sub@, j),
                },
            },
    {
        match self._find(sub, start, end, true) {
            Some(i) => Ok(i),
            None => Err(StrError::NotFound),
        }
    }

    /// Whether the window starts with `prefix`.
    pub fn startswith(&self, prefix: &PyString, start: Option<isize>, end: Option<isize>) -> (r: bool)
        ensures
            r == match window(self@, start, end) {
                None => false,
                Some((a, b)) => a + prefix@.len() <= b && self@.subrange(a, a + prefix@.len()) == prefix@,
            },
    {
        let cs = chars_of(self.value.as_str());
        let sub = chars_of(prefix.value.as_str());
        let range = adjust_indices(start, end, cs.len());
        if range.is_normal() && range.start <= range.end && sub.len() <= range.end - range.start {
            matches_at(&cs, &sub, range.start)
        } else {
            false
        }
    }

    /// Whether the window ends with `suffix`.
    pub fn endswith(&self, suffix: &PyString, start: Option<isize>, end: Option<isize>) -> (r: bool)
        ensures
            r == match window(self@, start, end) {
                None => false,
                Some((a, b)) => a + suffix@.len() <= b && self@.subrange(b - suffix@.len(), b) == suffix@,
            },
    {
        let cs = chars_of(self.value.as_str());
        let sub = chars_of(suffix.value.as_str());
        let range = adjust_indices(start, end, cs.len());
        if range.is_normal() && range.start <= range.end && sub.len() <= range.end - range.start {
            matches_at(&cs, &sub, range.end - sub.len())
        } else {
            false
        }
    }

    /// Number of non-overlapping occurrences of `sub` in the window.
    pub fn count(&self, sub: &PyString, start: Option<isize>, end: Option<isize>) -> (r: usize)
        ensures
            r == match window(self@, start, end) {
                None => 0,
                Some((a, b)) => count_from(self@, sub@, a, b),
            },
    {
        let cs = chars_of(self.value.as_str());
        let needle = chars_of(sub.value.as_str());
        let range = adjust_indices(start, end, cs.len());
        if !range.is_normal() {
            return 0;
        }
        let a = range.start;
        let b = range.end;
        let m = needle.len();
        if m == 0 {
            return b - a + 1;
        }
        let mut n: usize = 0;
        let mut i: usize = a;
        while m <= b - i
            invariant
                i <= b,
                a <= b <= cs@.len(),
                m == needle@.len(),
                m > 0,
                a <= i,
                n <= i - a,
                n + count_from(cs@, needle@, i as int, b as int) == count_from(cs@, needle@, a as int, b as int),
            decreases b - i,
        {
            if matches_at(&cs, &needle, i) {
                assert(cs@.subrange(0, b as int).subrange(i as int, i + m) =~= cs@.subrange(i as int, i + m));
                n += 1;
                i += m;
            } else {
                assert(cs@.subrange(0, b as int).subrange(i as int, i + m) =~= cs@.subrange(i as int, i + m));
                i += 1;
            }
        }
        n
    }
}

/// `n` copies of `c`.
pub open spec fn fill(c: char, n: int) -> Seq<char> {
    Seq::new(n as nat, |i: int| c)
}

/// Appends `n` copies of `c`.
fn push_fill(s: &mut String, c: char, n: usize)
    ensures
        final(s)@ == old(s)@ + fill(c, n as int),
{
    let mut i: usize = 0;
    while i < n
        invariant
            i <= n,
            s@ == old(s)@ + fill(c, i as int),
        decreases n - i,
    {
        push_char(s, c);
        i += 1;
        assert(s@ =~= old(s)@ + fill(c, i as int));
    }
}

/// Whether `strip` removes `c`: whitespace when no set is given, else a
/// member of the set.
pub open spec fn strippable(c: char, set: Option<Seq<char>>) -> bool {
    match set {
        None => whitespace_char(c),
        Some(cs) => cs.contains(c),
    }
}

/// Index of the first character of `s` at or after `i` that is kept.
pub open spec fn first_kept(s: Seq<char>, set: Option<Seq<char>>, i: int) -> int
    decreases s.len() - i,
{
    if i >= s.len() {
        s.len() as int
    } else if strippable(s[i], set) {
        first_kept(s, set, i + 1)
    } else {
        i
    }
}

/// One past the last character of `s` before `j` that is kept, not going
/// below `lo`.
pub open spec fn last_kept(s: Seq<char>, set: Option<Seq<char>>, lo: int, j: int) -> int
    decreases j - lo,
{
    if j <= lo {
        lo
    } else if strippable(s[j - 1], set) {
        last_kept(s, set, lo, j - 1)
    } else {
        j
    }
}

/// The separator between each pair of consecutive parts.
pub open spec fn joined(sep: Seq<char>, parts: Seq<PyString>, n: int) -> Seq<char>
    decreases n,
{
    if n <= 0 {
        Seq::empty()
    } else if n == 1 {
        parts[0]@
    } else {
        joined(sep, parts, n - 1) + sep + parts[n - 1]@
    }
}

impl PyString {
    /// Pads on the left with zeros to `width` characters, keeping a leading
    /// sign in front.
    pub fn zfill(&self, width: usize) -> (r: String)
        ensures
            r@ == if width <= self@.len() {
                self@
            } else if self@.len() > 0 && (self@[0] == '+' || self@[0] == '-') {
                seq![self@[0]] + fill('0', width - self@.len()) + self@.subrange(1, self@.len() as int)
            } else {
                fill('0', width - self@.len()) + self@
            },
    {
        let cs = chars_of(self.value.as_str());
        let n = cs.len();
        if width <= n {
            return self.value.clone();
        }
        let mut out = String::new();
        if n > 0 && (cs[0] == '+' || cs[0] == '-') {
            push_char(&mut out, cs[0]);
            push_fill(&mut out, '0', width - n);
            push_all(&mut out, &tail_of(&cs, 1));
        } else {
            push_fill(&mut out, '0', width - n);
            push_all(&mut out, &cs);
        }
        out
    }

    /// The fill character: a space when none is given, else the given
    /// string, which must be exactly one character long.
    fn get_fill_char(rep: Option<&PyString>) -> (r: Result<char, StrError>)
        ensures
            match rep {
                None => r == Ok::<char, StrError>(' '),
                Some(t) => if t@.len() == 1 {
                    r == Ok::<char, StrError>(t@[0])
                } else {
                    r == Err::<char, StrError>(StrError::WrongType)
                },
            },
    {
        match rep {
            None => Ok(' '),
            Some(t) => {
                let cs = chars_of(t.value.as_str());
                if cs.len() == 1 {
                    Ok(cs[0])
                } else {
                    Err(StrError::WrongType)
                }
            },
        }
    }

    /// Pads on the right to `width` characters.
    pub fn ljust(&self, width: usize, rep: Option<&PyString>) -> (r: Result<String, StrError>)
        ensures
            match Self::fill_of(rep) {
                None => r == Err::<String, StrError>(StrError::WrongType),
                Some(c) => r matches Ok(x) && x@ == if width <= self@.len() {
                    self@
                } else {
                    self@ + fill(c, width - self@.len())
                },
            },
    {
        let c = Self::get_fill_char(rep)?;
        let n = self.len();
        let mut out = self.value.clone();
        if width > n {
            push_fill(&mut out, c, width - n);
        }
        Ok(out)
    }

    /// Pads on the left to `width` characters.
    pub fn rjust(&self, width: usize, rep: Option<&PyString>) -> (r: Result<String, StrError>)
        ensures
            match Self::fill_of(rep) {
                None => r == Err::<String, StrError>(StrError::WrongType),
                Some(c) => r matches Ok(x) && x@ == if width <= self@.len() {
                    self@
                } else {
                    fill(c, width - self@.len()) + self@
                },
            },
    {
        let c = Self::get_fill_char(rep)?;
        let n = self.len();
        if width <= n {
            return Ok(self.value.clone());
        }
        let mut out = String::new();
        push_fill(&mut out, c, width - n);
        push_all(&mut out, &chars_of(self.value.as_str()));
        Ok(out)
    }

    /// Pads on both sides to `width` characters; an odd padding puts the
    /// extra character on the left when the length is even, on the right
    /// when it is odd.
    pub fn center(&self, width: usize, rep: Option<&PyString>) -> (r: Result<String, StrError>)
        ensures
            match Self::fill_of(rep) {
                None => r == Err::<String, StrError>(StrError::WrongType),
                Some(c) => r matches Ok(x) && x@ == if width <= self@.len() {
                    self@
                } else {
                    fill(c, center_left(width as int, self@.len() as int)) + self@ + fill(
                        c,
                        center_right(width as int, self@.len() as int),
                    )
                },
            },
    {
        let c = Self::get_fill_char(rep)?;
        let n = self.len();
        if width <= n {
            return Ok(self.value.clone());
        }
        let diff = width - n;
        let mut left = diff / 2;
        let mut right = left;
        if diff % 2 != 0 && n % 2 == 0 {
            left += 1;
        }
        if diff % 2 != 0 && n % 2 != 0 {
            right += 1;
        }
        let mut out = String::new();
        push_fill(&mut out, c, left);
        push_all(&mut out, &chars_of(self.value.as_str()));
        push_fill(&mut out, c, right);
        Ok(out)
    }

    /// The fill character that `rep` designates, if valid.
    pub open spec fn fill_of(rep: Option<&PyString>) -> Option<char> {
        match rep {
            None => Some(' '),
            Some(t) => if t@.len() == 1 {
                Some(t@[0])
            } else {
                None
            },
        }
    }

    /// The items, with this string between each two of them.
    pub fn join(&self, items: &Vec<PyString>) -> (r: String)
        ensures
            r@ == joined(self@, items@, items@.len() as int),
    {
        let sep = chars_of(self.value.as_str());
        let mut out = String::new();
        let mut i: usize = 0;
        while i < items.len()
            invariant
                sep@ == self@,
                i <= items@.len(),
                out@ == joined(self@, items@, i as int),
            decreases items@.len() - i,
        {
            if i != 0 {
                push_all(&mut out, &sep);
            }
            push_all(&mut out, &chars_of(items[i].value.as_str()));
            i += 1;
            assert(out@ =~= joined(self@, items@, i as int));
        }
        out
    }

    /// Removes leading and trailing characters: whitespace, or those in
    /// `chars` when given.
    pub fn strip(&self, chars: Option<&PyString>) -> (r: String)
        ensures
            ({
                let set = Self::set_of(chars);
                let a = first_kept(self@, set, 0);
                r@ == self@.subrange(a, last_kept(self@, set, a, self@.len() as int))
            }),
    {
        let cs = chars_of(self.value.as_str());
        let set = set_chars(chars);
        let a = skip_leading(&cs, &set, 0);
        let b = skip_trailing(&cs, &set, a, cs.len());
        string_of(&slice_of(&cs, a, b))
    }

    /// Removes leading characters: whitespace, or those in `chars`.
    pub fn lstrip(&self, chars: Option<&PyString>) -> (r: String)
        ensures
            r@ == self@.subrange(first_kept(self@, Self::set_of(chars), 0), self@.len() as int),
    {
        let cs = chars_of(self.value.as_str());
        let set = set_chars(chars);
        let a = skip_leading(&cs, &set, 0);
        string_of(&slice_of(&cs, a, cs.len()))
    }

    /// Removes trailing characters: whitespace, or those in `chars`.
    pub fn rstrip(&self, chars: Option<&PyString>) -> (r: String)
        ensures
            r@ == self@.subrange(0, last_kept(self@, Self::set_of(chars), 0, self@.len() as int)),
    {
        let cs = chars_of(self.value.as_str());
        let set = set_chars(chars);
        let b = skip_trailing(&cs, &set, 0, cs.len());
        string_of(&slice_of(&cs, 0, b))
    }

    pub open spec fn set_of(chars: Option<&PyString>) -> Option<Seq<char>> {
        match chars {
            None => None,
            Some(t) => Some(t@),
        }
    }

    /// Splits at the first occurrence of `sub`: the part before, `sub`, and
    /// the part after; or the whole string and two empty strings.
    pub fn partition(&self, sub: &PyString) -> (r: (String, String, String))
        ensures
            (exists|i: int| occurs_at(self@, sub@, i)) ==> ({
                let i = first_occurrence(self@, sub@);
                r.0@ == self@.subrange(0, i) && r.1@ == sub@ && r.2@ == self@.subrange(
                    i + sub@.len(),
                    self@.len() as int,
                )
            }),
            !(exists|i: int| occurs_at(self@, sub@, i)) ==> r.0@ == self@ && r.1@.len() == 0
                && r.2@.len() == 0,
    {
        let cs = chars_of(self.value.as_str());
        let needle = chars_of(sub.value.as_str());
        match find_in(&cs, &needle, 0, cs.len(), false) {
            Some(i) => {
                proof {
                    lemma_first_occurrence(self@, sub@, i as int);
                }
                let m = needle.len();
                (string_of(&slice_of(&cs, 0, i)), sub.value.clone(), string_of(&slice_of(&cs, i + m, cs.len())))
            },
            None => {
                proof {
                    assert forall|j: int| !occurs_at(self@, sub@, j) by {
                        if occurs_at(self@, sub@, j) {
                            assert(0 <= j && j + sub@.len() <= cs@.len());
                        }
                    }
                }
                (self.value.clone(), String::new(), String::new())
            },
        }
    }

    /// Splits at the last occurrence of `sub`: the part before, `sub`, and
    /// the part after; or two empty strings and the whole string.
    pub fn rpartition(&self, sub: &PyString) -> (r: (String, String, String))
        ensures
            (exists|i: int| occurs_at(self@, sub@, i)) ==> ({
                let i = last_occurrence(self@, sub@);
                r.0@ == self@.subrange(0, i) && r.1@ == sub@ && r.2@ == self@.subrange(
                    i + sub@.len(),
                    self@.len() as int,
                )
            }),
            !(exists|i: int| occurs_at(self@, sub@, i)) ==> r.0@.len() == 0 && r.1@.len() == 0
                && r.2@ == self@,
    {
        let cs = chars_of(self.value.as_str());
        let needle = chars_of(sub.value.as_str());
        match find_in(&cs, &needle, 0, cs.len(), true) {
            Some(i) => {
                proof {
                    lemma_last_occurrence(self@, sub@, i as int);
                }
                let m = needle.len();
                (string_of(&slice_of(&cs, 0, i)), sub.value.clone(), string_of(&slice_of(&cs, i + m, cs.len())))
            },
            None => {
                proof {
                    assert forall|j: int| !occurs_at(self@, sub@, j) by {
                        if occurs_at(self@, sub@, j) {
                            assert(0 <= j && j + sub@.len() <= cs@.len());
                        }
                    }
                }
                (String::new(), String::new(), self.value.clone())
            },
        }
    }
}

/// The padding `center` puts on the left.
pub open spec fn center_left(width: int, n: int) -> int {
    let diff = width - n;
    if diff % 2 != 0 && n % 2 == 0 {
        diff / 2 + 1
    } else {
        diff / 2
    }
}

/// The padding `center` puts on the right.
pub open spec fn center_right(width: int, n: int) -> int {
    let diff = width - n;
    if diff % 2 != 0 && n % 2 != 0 {
        diff / 2 + 1
    } else {
        diff / 2
    }
}

/// The first position where `sub` occurs in `s`.
pub open spec fn first_occurrence(s: Seq<char>, sub: Seq<char>) -> int {
    choose|i: int| occurs_at(s, sub, i) && forall|j: int| 0 <= j < i ==> !occurs_at(s, sub, j)
}

/// The last position where `sub` occurs in `s`.
pub open spec fn last_occurrence(s: Seq<char>, sub: Seq<char>) -> int {
    choose|i: int| occurs_at(s, sub, i) && forall|j: int| j > i ==> !occurs_at(s, sub, j)
}

proof fn lemma_first_occurrence(s: Seq<char>, sub: Seq<char>, i: int)
    requires
        occurs_at(s, sub, i),
        forall|j: int| 0 <= j < i ==> !occurs_at(s, sub, j),
    ensures
        first_occurrence(s, sub) == i,
{
    let k = first_occurrence(s, sub);
    assert(occurs_at(s, sub, k) && forall|j: int| 0 <= j < k ==> !occurs_at(s, sub, j));
    if k < i {
        assert(occurs_at(s, sub, k));
    } else if k > i {
        assert(!occurs_at(s, sub, i));
    }
}

proof fn lemma_last_occurrence(s: Seq<char>, sub: Seq<char>, i: int)
    requires
        occurs_at(s, sub, i),
        forall|j: int| i < j && j + sub.len() <= s.len() ==> !occurs_at(s, sub, j),
    ensures
        last_occurrence(s, sub) == i,
{
    assert(forall|j: int| j > i ==> !occurs_at(s, sub, j));
    let k = last_occurrence(s, sub);
    assert(occurs_at(s, sub, k) && forall|j: int| j > k ==> !occurs_at(s, sub, j));
    if k < i {
        assert(!occurs_at(s, sub, i));
    } else if k > i {
        assert(!occurs_at(s, sub, k));
    }
}

/// The characters of the optional strip set.
fn set_chars(chars: Option<&PyString>) -> (r: Option<Vec<char>>)
    ensures
        match r {
            None => PyString::set_of(chars) is None,
            Some(v) => PyString::set_of(chars) == Some(v@),
        },
{
    match chars {
        None => None,
        Some(t) => Some(chars_of(t.value.as_str())),
    }
}

fn is_strippable(c: char, set: &Option<Vec<char>>) -> (r: bool)
    ensures
        r == strippable(
            c,
            match set {
                None => None,
                Some(v) => Some(v@),
            },
        ),
{
    match set {
        None => is_whitespace(c),
        Some(v) => {
            let mut i: usize = 0;
            while i < v.len()
                invariant
                    i <= v@.len(),
                    forall|j: int| 0 <= j < i ==> v@[j] != c,
                    match set {
                        Some(w) => w@ == v@,
                        None => false,
                    },
                decreases v@.len() - i,
            {
                if v[i] == c {
                    assert(v@[i as int] == c);
                    return true;
                }
                i += 1;
            }
            false
        },
    }
}

fn skip_leading(cs: &Vec<char>, set: &Option<Vec<char>>, from: usize) -> (r: usize)
    requires
        from <= cs@.len(),
    ensures
        r == first_kept(
            cs@,
            match set {
                None => None,
                Some(v) => Some(v@),
            },
            from as int,
        ),
        from <= r <= cs@.len(),
    decreases cs@.len() - from,
{
    if from == cs.len() {
        from
    } else if is_strippable(cs[from], set) {
        skip_leading(cs, set, from + 1)
    } else {
        from
    }
}

fn skip_trailing(cs: &Vec<char>, set: &Option<Vec<char>>, lo: usize, to: usize) -> (r: usize)
    requires
        lo <= to <= cs@.len(),
    ensures
        r == last_kept(
            cs@,
            match set {
                None => None,
                Some(v) => Some(v@),
            },
            lo as int,
            to as int,
        ),
        lo <= r <= to,
    decreases to - lo,
{
    if to == lo {
        lo
    } else if is_strippable(cs[to - 1], set) {
        skip_trailing(cs, set, lo, to - 1)
    } else {
        to
    }
}

/// The characters of `cs` in `[a, b)`.
fn slice_of(cs: &Vec<char>, a: usize, b: usize) -> (r: Vec<char>)
    requires
        a <= b <= cs@.len(),
    ensures
        r@ == cs@.subrange(a as int, b as int),
{
    let mut out: Vec<char> = Vec::new();
    let mut i: usize = a;
    while i < b
        invariant
            a <= i <= b <= cs@.len(),
            out@ == cs@.subrange(a as int, i as int),
        decreases b - i,
    {
        out.push(cs[i]);
        i += 1;
        assert(out@ =~= cs@.subrange(a as int, i as int));
    }
    out
}

/// The characters of each string.
pub open spec fn views(v: Seq<String>) -> Seq<Seq<char>> {
    Seq::new(v.len(), |k: int| v[k]@)
}

/// One step down from a split budget; a negative budget is unlimited.
pub open spec fn spend(b: int) -> int {
    if b > 0 {
        b - 1
    } else {
        b
    }
}

/// Pieces of `s` split at occurrences of `sep` found left to right,
/// scanning from `i`, with the current piece starting at `start`; at most
/// `b` splits when `b` is not negative.
pub open spec fn split_sep(s: Seq<char>, sep: Seq<char>, i: int, start: int, b: int) -> Seq<Seq<char>>
    decreases s.len() - i,
{
    if sep.len() == 0 || i < 0 || i + sep.len() > s.len() {
        seq![s.subrange(start, s.len() as int)]
    } else if b != 0 && occurs_at(s, sep, i) {
        seq![s.subrange(start, i)] + split_sep(s, sep, i + sep.len(), i + sep.len(), spend(b))
    } else {
        split_sep(s, sep, i + 1, start, b)
    }
}

/// Pieces of `s[..end]` split at occurrences of `sep` found right to left,
/// scanning the window that ends at `e`; at most `b` splits when `b` is not
/// negative.
pub open spec fn rsplit_sep(s: Seq<char>, sep: Seq<char>, e: int, end: int, b: int) -> Seq<Seq<char>>
    decreases e,
{
    if sep.len() == 0 || e < sep.len() || e > s.len() {
        seq![s.subrange(0, end)]
    } else if b != 0 && occurs_at(s, sep, e - sep.len()) {
        rsplit_sep(s, sep, e - sep.len(), e - sep.len(), spend(b)) + seq![s.subrange(e, end)]
    } else {
        rsplit_sep(s, sep, e - 1, end, b)
    }
}

/// `[x]` when `x` is not empty, else nothing.
pub open spec fn nonempty(x: Seq<char>) -> Seq<Seq<char>> {
    if x.len() > 0 {
        seq![x]
    } else {
        Seq::empty()
    }
}

/// Non-empty pieces of `s` split at ASCII whitespace, left to right, at
/// most `b` splits when `b` is not negative.
pub open spec fn split_ws(s: Seq<char>, i: int, start: int, b: int) -> Seq<Seq<char>>
    decreases s.len() - i,
{
    if i < 0 || i >= s.len() {
        nonempty(s.subrange(start, s.len() as int))
    } else if b != 0 && ascii_whitespace(s[i]) {
        nonempty(s.subrange(start, i)) + split_ws(s, i + 1, i + 1, spend(b))
    } else {
        split_ws(s, i + 1, start, b)
    }
}

/// Non-empty pieces of `s[..end]` split at ASCII whitespace, right to left,
/// at most `b` splits when `b` is not negative.
pub open spec fn rsplit_ws(s: Seq<char>, e: int, end: int, b: int) -> Seq<Seq<char>>
    decreases e,
{
    if e <= 0 || e > s.len() {
        nonempty(s.subrange(0, end))
    } else if b != 0 && ascii_whitespace(s[e - 1]) {
        rsplit_ws(s, e - 1, e - 1, spend(b)) + nonempty(s.subrange(e, end))
    } else {
        rsplit_ws(s, e - 1, end, b)
    }
}

/// `s` with occurrences of `old` (found left to right, scanning from `i`)
/// replaced by `new`, at most `b` of them when `b` is not negative. An empty
/// `old` occurs before every character and at the end.
pub open spec fn replaced(s: Seq<char>, old: Seq<char>, new: Seq<char>, i: int, b: int) -> Seq<char>
    decreases s.len() - i + 1,
{
    if i < 0 || i > s.len() {
        Seq::empty()
    } else if old.len() == 0 {
        let here = if b != 0 { new } else { Seq::empty() };
        if i == s.len() {
            here
        } else {
            here + seq![s[i]] + replaced(s, old, new, i + 1, spend(b))
        }
    } else if i + old.len() > s.len() {
        s.subrange(i, s.len() as int)
    } else if b != 0 && occurs_at(s, old, i) {
        new + replaced(s, old, new, i + old.len(), spend(b))
    } else {
        seq![s[i]] + replaced(s, old, new, i + 1, b)
    }
}

/// Lines of the first `n` characters: the lines completed so far and the
/// line in progress. A line ends at `\n`, at `\r` not followed by `\n`, or at
/// `\r\n`; with `keep` its terminator stays on it.
pub open spec fn lines_upto(s: Seq<char>, n: int, keep: bool) -> (Seq<Seq<char>>, Seq<char>)
    decreases n,
{
    if n <= 0 {
        (Seq::empty(), Seq::empty())
    } else {
        let (done, cur) = lines_upto(s, n - 1, keep);
        let c = s[n - 1];
        if c == '\n' || c == '\r' {
            let cur2 = if keep { cur.push(c) } else { cur };
            if c == '\r' && n < s.len() && s[n] == '\n' {
                (done, cur2)
            } else {
                (done.push(cur2), Seq::empty())
            }
        } else {
            (done, cur.push(c))
        }
    }
}

/// All the lines of `s`; a last line without terminator counts when it is
/// not empty.
pub open spec fn lines_of(s: Seq<char>, keep: bool) -> Seq<Seq<char>> {
    let (done, cur) = lines_upto(s, s.len() as int, keep);
    if cur.len() > 0 {
        done.push(cur)
    } else {
        done
    }
}

impl PyString {
    /// Splits at `sep` (which must not be empty), or, without it, at runs of
    /// ASCII whitespace after leading whitespace is dropped; at most
    /// `maxsplit` splits when it is not negative.
    pub fn split(&self, sep: Option<&PyString>, maxsplit: isize) -> (r: Result<Vec<String>, StrError>)
        ensures
            match sep {
                Some(p) => if p@.len() == 0 {
                    r == Err::<Vec<String>, StrError>(StrError::BadValue)
                } else {
                    r matches Ok(v) && views(v@) == split_sep(self@, p@, 0, 0, maxsplit as int)
                },
                None => r matches Ok(v) && views(v@) == split_ws(
                    self@.subrange(first_kept(self@, None, 0), self@.len() as int),
                    0,
                    0,
                    maxsplit as int,
                ),
            },
    {
        let cs = chars_of(self.value.as_str());
        match sep {
            Some(p) => {
                let pat = chars_of(p.value.as_str());
                if pat.len() == 0 {
                    return Err(StrError::BadValue);
                }
                Ok(split_by(&cs, &pat, maxsplit))
            },
            None => {
                let a = skip_leading(&cs, &None, 0);
                let t = slice_of(&cs, a, cs.len());
                Ok(split_by_ws(&t, maxsplit))
            },
        }
    }

    /// Like `split`, but splits are found from the right.
    pub fn rsplit(&self, sep: Option<&PyString>, maxsplit: isize) -> (r: Result<Vec<String>, StrError>)
        ensures
            match sep {
                Some(p) => if p@.len() == 0 {
                    r == Err::<Vec<String>, StrError>(StrError::BadValue)
                } else {
                    r matches Ok(v) && views(v@) == rsplit_sep(
                        self@,
                        p@,
                        self@.len() as int,
                        self@.len() as int,
                        maxsplit as int,
                    )
                },
                None => ({
                    let t = self@.subrange(0, last_kept(self@, None, 0, self@.len() as int));
                    r matches Ok(v) && views(v@) == rsplit_ws(t, t.len() as int, t.len() as int, maxsplit as int)
                }),
            },
    {
        let cs = chars_of(self.value.as_str());
        match sep {
            Some(p) => {
                let pat = chars_of(p.value.as_str());
                if pat.len() == 0 {
                    return Err(StrError::BadValue);
                }
                Ok(rsplit_by(&cs, &pat, maxsplit))
            },
            None => {
                let b = skip_trailing(&cs, &None, 0, cs.len());
                let t = slice_of(&cs, 0, b);
                Ok(rsplit_by_ws(&t, maxsplit))
            },
        }
    }

    /// The lines of the string, with their terminators when `keepends`.
    pub fn splitlines(&self, keepends: bool) -> (r: Vec<String>)
        ensures
            views(r@) == lines_of(self@, keepends),
    {
        let cs = chars_of(self.value.as_str());
        let mut elements: Vec<String> = Vec::new();
        let mut curr: Vec<char> = Vec::new();
        let mut i: usize = 0;
        assert(views(elements@) =~= Seq::<Seq<char>>::empty());
        assert(curr@ =~= Seq::<char>::empty());
        while i < cs.len()
            invariant
                cs@ == self@,
                i <= cs@.len(),
                lines_upto(cs@, i as int, keepends) == (views(elements@), curr@),
            decreases cs@.len() - i,
        {
            let ch = cs[i];
            let ghost before = views(elements@);
            if ch == '\n' || ch == '\r' {
                if keepends {
                    curr.push(ch);
                }
                if ch == '\r' && i + 1 < cs.len() && cs[i + 1] == '\n' {
                } else {
                    let ghost line = curr@;
                    elements.push(string_of(&curr));
                    curr = Vec::new();
                    assert(views(elements@) =~= before.push(line));
                    assert(curr@ =~= Seq::<char>::empty());
                }
            } else {
                curr.push(ch);
            }
            i += 1;
        }
        if curr.len() > 0 {
            let ghost before = views(elements@);
            elements.push(string_of(&curr));
            assert(views(elements@) =~= before.push(curr@));
        }
        elements
    }
}

/// Splits `cs` at `pat` left to right, as `split_sep` says.
fn split_by(cs: &Vec<char>, pat: &Vec<char>, maxsplit: isize) -> (r: Vec<String>)
    requires
        pat@.len() > 0,
    ensures
        views(r@) == split_sep(cs@, pat@, 0, 0, maxsplit as int),
{
    let m = pat.len();
    let n = cs.len();
    let mut out: Vec<String> = Vec::new();
    let mut b: isize = maxsplit;
    let mut start: usize = 0;
    let mut i: usize = 0;
    assert(views(out@) =~= Seq::<Seq<char>>::empty());
    while m <= n - i
        invariant
            m == pat@.len(),
            m > 0,
            n == cs@.len(),
            start <= i <= n,
            views(out@) + split_sep(cs@, pat@, i as int, start as int, b as int) == split_sep(
                cs@,
                pat@,
                0,
                0,
                maxsplit as int,
            ),
        decreases n - i,
    {
        if b != 0 && matches_at(cs, pat, i) {
            let ghost before = views(out@);
            out.push(string_of(&slice_of(cs, start, i)));
            assert(views(out@) =~= before + seq![cs@.subrange(start as int, i as int)]);
            if b > 0 {
                b -= 1;
            }
            i += m;
            start = i;
        } else {
            i += 1;
        }
    }
    let ghost before = views(out@);
    out.push(string_of(&slice_of(cs, start, n)));
    assert(views(out@) =~= before + seq![cs@.subrange(start as int, n as int)]);
    out
}

/// Splits `cs` at `pat` right to left, as `rsplit_sep` says.
fn rsplit_by(cs: &Vec<char>, pat: &Vec<char>, maxsplit: isize) -> (r: Vec<String>)
    requires
        pat@.len() > 0,
    ensures
        views(r@) == rsplit_sep(cs@, pat@, cs@.len() as int, cs@.len() as int, maxsplit as int),
{
    let m = pat.len();
    let n = cs.len();
    let mut acc: Vec<String> = Vec::new();
    let mut b: isize = maxsplit;
    let mut end: usize = n;
    let mut e: usize = n;
    assert(views(acc@).reverse() =~= Seq::<Seq<char>>::empty());
    while e >= m
        invariant
            m == pat@.len(),
            m > 0,
            n == cs@.len(),
            e <= end <= n,
            rsplit_sep(cs@, pat@, e as int, end as int, b as int) + views(acc@).reverse() == rsplit_sep(
                cs@,
                pat@,
                n as int,
                n as int,
                maxsplit as int,
            ),
        decreases e,
    {
        if b != 0 && matches_at(cs, pat, e - m) {
            let ghost before = views(acc@);
            acc.push(string_of(&slice_of(cs, e, end)));
            assert(views(acc@).reverse() =~= seq![cs@.subrange(e as int, end as int)] + before.reverse());
            if b > 0 {
                b -= 1;
            }
            e -= m;
            end = e;
        } else {
            e -= 1;
        }
    }
    let mut out: Vec<String> = Vec::new();
    out.push(string_of(&slice_of(cs, 0, end)));
    let ghost first = views(out@);
    let ghost all = views(acc@);
    move_reversed(&mut out, &mut acc);
    assert(all.reverse().subrange(0, all.len() as int) =~= all.reverse());
    out
}

/// Splits `cs` at ASCII whitespace left to right, dropping empty pieces,
/// as `split_ws` says.
fn split_by_ws(cs: &Vec<char>, maxsplit: isize) -> (r: Vec<String>)
    ensures
        views(r@) == split_ws(cs@, 0, 0, maxsplit as int),
{
    let n = cs.len();
    let mut out: Vec<String> = Vec::new();
    let mut b: isize = maxsplit;
    let mut start: usize = 0;
    let mut i: usize = 0;
    assert(views(out@) =~= Seq::<Seq<char>>::empty());
    while i < n
        invariant
            n == cs@.len(),
            start <= i <= n,
            views(out@) + split_ws(cs@, i as int, start as int, b as int) == split_ws(
                cs@,
                0,
                0,
                maxsplit as int,
            ),
        decreases n - i,
    {
        if b != 0 && is_ascii_whitespace(cs[i]) {
            let ghost before = views(out@);
            if start < i {
                out.push(string_of(&slice_of(cs, start, i)));
                assert(views(out@) =~= before + nonempty(cs@.subrange(start as int, i as int)));
            } else {
                assert(views(out@) =~= before + nonempty(cs@.subrange(start as int, i as int)));
            }
            if b > 0 {
                b -= 1;
            }
            i += 1;
            start = i;
        } else {
            i += 1;
        }
    }
    let ghost before = views(out@);
    if start < n {
        out.push(string_of(&slice_of(cs, start, n)));
    }
    assert(views(out@) =~= before + nonempty(cs@.subrange(start as int, n as int)));
    out
}

/// Splits `cs` at ASCII whitespace right to left, dropping empty pieces,
/// as `rsplit_ws` says.
fn rsplit_by_ws(cs: &Vec<char>, maxsplit: isize) -> (r: Vec<String>)
    ensures
        views(r@) == rsplit_ws(cs@, cs@.len() as int, cs@.len() as int, maxsplit as int),
{
    let n = cs.len();
    let mut acc: Vec<String> = Vec::new();
    let mut b: isize = maxsplit;
    let mut end: usize = n;
    let mut e: usize = n;
    assert(views(acc@).reverse() =~= Seq::<Seq<char>>::empty());
    while e > 0
        invariant
            n == cs@.len(),
            e <= end <= n,
            rsplit_ws(cs@, e as int, end as int, b as int) + views(acc@).reverse() == rsplit_ws(
                cs@,
                n as int,
                n as int,
                maxsplit as int,
            ),
        decreases e,
    {
        if b != 0 && is_ascii_whitespace(cs[e - 1]) {
            let ghost before = views(acc@);
            if e < end {
                acc.push(string_of(&slice_of(cs, e, end)));
                assert(views(acc@).reverse() =~= nonempty(cs@.subrange(e as int, end as int)) + before.reverse());
            } else {
                assert(views(acc@).reverse() =~= nonempty(cs@.subrange(e as int, end as int)) + before.reverse());
            }
            if b > 0 {
                b -= 1;
            }
            e -= 1;
            end = e;
        } else {
            e -= 1;
        }
    }
    let mut out: Vec<String> = Vec::new();
    if end > 0 {
        out.push(string_of(&slice_of(cs, 0, end)));
    }
    let ghost first = views(out@);
    assert(first =~= nonempty(cs@.subrange(0, end as int)));
    let ghost all = views(acc@);
    move_reversed(&mut out, &mut acc);
    assert(all.reverse().subrange(0, all.len() as int) =~= all.reverse());
    out
}

/// Moves the strings of `from` onto the end of `to`, last first.
fn move_reversed(to: &mut Vec<String>, from: &mut Vec<String>)
    ensures
        views(final(to)@) == views(old(to)@) + views(old(from)@).reverse(),
{
    let ghost start = views(to@);
    let ghost all = views(from@);
    let ghost n = from@.len();
    while from.len() > 0
        invariant
            n == all.len(),
            from@.len() <= n,
            views(from@) == all.subrange(0, from@.len() as int),
            views(to@) == start + all.reverse().subrange(0, n - from@.len()),
        decreases from@.len(),
    {
        let ghost k = from@.len();
        let ghost prev = from@;
        let x = from.pop().unwrap();
        assert(views(prev)[k - 1] == x@);
        assert(all[k - 1] == views(prev)[k - 1]);
        assert(views(from@) =~= views(prev).subrange(0, k - 1));
        assert(views(from@) =~= all.subrange(0, from@.len() as int));
        let ghost before = views(to@);
        to.push(x);
        assert(views(to@) =~= before.push(x@));
        assert(all.reverse().subrange(0, n - from@.len()) =~= all.reverse().subrange(0, n - k).push(all[k - 1]));
    }
}

impl PyString {
    /// Replaces occurrences of `old`, found left to right without overlap,
    /// by `new`: all of them, or the first `num` when given.
    pub fn replace(&self, old: &PyString, new: &PyString, num: Option<usize>) -> (r: String)
        ensures
            r@ == replaced(
                self@,
                old@,
                new@,
                0,
                match num {
                    Some(k) => k as int,
                    None => -1,
                },
            ),
    {
        let cs = chars_of(self.value.as_str());
        let pat = chars_of(old.value.as_str());
        let rep = chars_of(new.value.as_str());
        let ghost b0: int = match num {
            Some(k) => k as int,
            None => -1,
        };
        let limited = num.is_some();
        let mut left: usize = match num {
            Some(k) => k,
            None => 0,
        };
        let n = cs.len();
        let m = pat.len();
        let mut out = String::new();
        let mut i: usize = 0;
        if m == 0 {
            while i < n
                invariant
                    n == cs@.len(),
                    m == pat@.len(),
                    m == 0,
                    i <= n,
                    out@ + replaced(cs@, pat@, rep@, i as int, if limited { left as int } else { -1 })
                        == replaced(cs@, pat@, rep@, 0, b0),
                decreases n - i,
            {
                let ghost before = out@;
                let active = !limited || left > 0;
                if active {
                    push_all(&mut out, &rep);
                }
                push_char(&mut out, cs[i]);
                if limited && left > 0 {
                    left -= 1;
                }
                i += 1;
                assert(out@ =~= before + (if active { rep@ } else { Seq::<char>::empty() }) + seq![cs@[i - 1]]);
            }
            let ghost before = out@;
            if !limited || left > 0 {
                push_all(&mut out, &rep);
            }
            assert(out@ =~= before + replaced(cs@, pat@, rep@, i as int, if limited { left as int } else { -1 }));
            return out;
        }
        while m <= n - i
            invariant
                n == cs@.len(),
                m == pat@.len(),
                m > 0,
                i <= n,
                out@ + replaced(cs@, pat@, rep@, i as int, if limited { left as int } else { -1 })
                    == replaced(cs@, pat@, rep@, 0, b0),
            decreases n - i,
        {
            let ghost before = out@;
            if (!limited || left > 0) && matches_at(&cs, &pat, i) {
                push_all(&mut out, &rep);
                if limited {
                    left -= 1;
                }
                i += m;
            } else {
                push_char(&mut out, cs[i]);
                i += 1;
                assert(out@ =~= before + seq![cs@[i - 1]]);
            }
        }
        let ghost before = out@;
        push_all(&mut out, &slice_of(&cs, i, n));
        out
    }
}

/// Output, column and next tab stop after the first `n` characters of
/// `expandtabs` with tab width `stop`: a tab pads with spaces up to the
/// tab stop, a line break resets the column and the stops, and whenever the
/// column reaches the tab stop the stop moves on by `stop`.
pub open spec fn tabs_upto(s: Seq<char>, n: int, stop: int) -> (Seq<char>, int, int)
    decreases n,
{
    if n <= 0 {
        (Seq::empty(), 0, stop)
    } else {
        let (out, col, tab) = tabs_upto(s, n - 1, stop);
        let c = s[n - 1];
        let (out2, col2, tab2) = if c == '\t' {
            let k = if tab > col { tab - col } else { 0 };
            (out + fill(' ', k), col + k, tab)
        } else if c == '\r' || c == '\n' {
            (out.push(c), 0, 0)
        } else {
            (out.push(c), col + 1, tab)
        };
        (out2, col2, if col2 >= tab2 { tab2 + stop } else { tab2 })
    }
}

/// Every column and tab stop of the first `n` steps fits in `usize`.
pub open spec fn tabs_fit(s: Seq<char>, n: int, stop: int) -> bool
    decreases n,
{
    if n <= 0 {
        true
    } else {
        tabs_fit(s, n - 1, stop) && tabs_upto(s, n, stop).1 <= usize::MAX && tabs_upto(s, n, stop).2
            <= usize::MAX
    }
}

proof fn lemma_tabs_unfit(s: Seq<char>, m: int, n: int, stop: int)
    requires
        1 <= m <= n,
        !tabs_fit(s, m, stop),
    ensures
        !tabs_fit(s, n, stop),
    decreases n - m,
{
    if n > m {
        lemma_tabs_unfit(s, m, n - 1, stop);
    }
}

impl PyString {
    /// Replaces tabs by spaces up to the next multiple of `tabsize` (8 when
    /// not given), counting columns from the last line break; fails when a
    /// column would not fit in `usize`.
    pub fn expandtabs(&self, tabsize: Option<usize>) -> (r: Result<String, StrError>)
        ensures
            ({
                let stop = match tabsize {
                    Some(t) => t as int,
                    None => 8,
                };
                if tabs_fit(self@, self@.len() as int, stop) {
                    r matches Ok(x) && x@ == tabs_upto(self@, self@.len() as int, stop).0
                } else {
                    r == Err::<String, StrError>(StrError::Overflow)
                }
            }),
    {
        let cs = chars_of(self.value.as_str());
        let tab_stop: usize = match tabsize {
            Some(t) => t,
            None => 8,
        };
        let mut out = String::new();
        let mut tab_size: usize = tab_stop;
        let mut col_count: usize = 0;
        let mut i: usize = 0;
        while i < cs.len()
            invariant
                cs@ == self@,
                tab_stop as int == match tabsize {
                    Some(t) => t as int,
                    None => 8,
                },
                i <= cs@.len(),
                tabs_fit(cs@, i as int, tab_stop as int),
                tabs_upto(cs@, i as int, tab_stop as int) == (out@, col_count as int, tab_size as int),
            decreases cs@.len() - i,
        {
            let ch = cs[i];
            let ghost before = out@;
            if ch == '\t' {
                let k = if tab_size > col_count { tab_size - col_count } else { 0 };
                push_fill(&mut out, ' ', k);
                col_count = col_count + k;
            } else if ch == '\r' || ch == '\n' {
                push_char(&mut out, ch);
                col_count = 0;
                tab_size = 0;
            } else {
                push_char(&mut out, ch);
                if col_count == usize::MAX {
                    proof {
                        lemma_tabs_unfit(cs@, i as int + 1, cs@.len() as int, tab_stop as int);
                    }
                    return Err(StrError::Overflow);
                }
                col_count = col_count + 1;
            }
            if col_count >= tab_size {
                if tab_size > usize::MAX - tab_stop {
                    proof {
                        lemma_tabs_unfit(cs@, i as int + 1, cs@.len() as int, tab_stop as int);
                    }
                    return Err(StrError::Overflow);
                }
                tab_size = tab_size + tab_stop;
            }
            i += 1;
        }
        Ok(out)
    }
}

} // verus!
