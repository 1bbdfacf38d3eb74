//! Reading requests and writing strings in JSON.
//!
//! A request is read where it is needed, by the place of each value in it: a
//! pointer such as `/params/name`. What is not there, or is of another kind, is
//! simply absent.

use crate::text::{hex_digit, opt_view};
use vstd::prelude::*;

verus! {

/// Why a text is no JSON, if it is none.
pub uninterp spec fn parse_failure(text: Seq<char>) -> Option<Seq<char>>;

/// Why a text is no JSON, if it is none.
///
/// Trusted: whether `serde_json::from_str` takes a text for a `Value`, and what
/// its error says otherwise, depends on the text alone.
#[verifier::external_body]
pub(crate) fn parse_error(text: &str) -> (r: Option<String>)
    ensures
        opt_view(r) == parse_failure(text@),
{
    match serde_json::from_str::<serde_json::Value>(text) {
        Ok(_) => None,
        Err(e) => Some(e.to_string()),
    }
}

/// The value at a place in a JSON text, written compactly.
pub uninterp spec fn value_in(text: Seq<char>, pointer: Seq<char>) -> Option<Seq<char>>;

/// The value at a place in a JSON text, as JSON.
///
/// Trusted: the value that `serde_json::Value::pointer` finds in what
/// `serde_json::from_str` reads, if there is one, and how it is written, depend
/// on the text and the pointer alone.
#[verifier::external_body]
pub(crate) fn value_at(text: &str, pointer: &str) -> (r: Option<String>)
    ensures
        opt_view(r) == value_in(text@, pointer@),
{
    let v: serde_json::Value = serde_json::from_str(text).ok()?;
    v.pointer(pointer).map(|x| x.to_string())
}

/// The string at a place in a JSON text.
pub uninterp spec fn string_in(text: Seq<char>, pointer: Seq<char>) -> Option<Seq<char>>;

/// The string at a place in a JSON text; nothing where there is none.
///
/// Trusted: what `serde_json::Value::as_str` gives of the value that
/// `serde_json::Value::pointer` finds depends on the text and the pointer
/// alone.
#[verifier::external_body]
pub(crate) fn string_at(text: &str, pointer: &str) -> (r: Option<String>)
    ensures
        opt_view(r) == string_in(text@, pointer@),
{
    let v: serde_json::Value = serde_json::from_str(text).ok()?;
    v.pointer(pointer)?.as_str().map(str::to_owned)
}

/// The truth value at a place in a JSON text.
pub uninterp spec fn bool_in(text: Seq<char>, pointer: Seq<char>) -> Option<bool>;

/// The truth value at a place in a JSON text; nothing where there is none.
///
/// Trusted: what `serde_json::Value::as_bool` gives of the value that
/// `serde_json::Value::pointer` finds depends on the text and the pointer
/// alone.
#[verifier::external_body]
pub(crate) fn bool_at(text: &str, pointer: &str) -> (r: Option<bool>)
    ensures
        r == bool_in(text@, pointer@),
{
    let v: serde_json::Value = serde_json::from_str(text).ok()?;
    v.pointer(pointer)?.as_bool()
}

/// The whole number at a place in a JSON text.
pub uninterp spec fn number_in(text: Seq<char>, pointer: Seq<char>) -> Option<u64>;

/// The whole number at a place in a JSON text; nothing where there is none, or
/// it is negative.
///
/// Trusted: what `serde_json::Value::as_u64` gives of the value that
/// `serde_json::Value::pointer` finds depends on the text and the pointer
/// alone.
#[verifier::external_body]
pub(crate) fn number_at(text: &str, pointer: &str) -> (r: Option<u64>)
    ensures
        r == number_in(text@, pointer@),
{
    let v: serde_json::Value = serde_json::from_str(text).ok()?;
    v.pointer(pointer)?.as_u64()
}

/// How many items the array at a place in a JSON text has.
pub uninterp spec fn length_in(text: Seq<char>, pointer: Seq<char>) -> Option<usize>;

/// How many items the array at a place in a JSON text has; nothing where there
/// is none.
///
/// Trusted: how long the array is that `serde_json::Value::as_array` gives of
/// the value that `serde_json::Value::pointer` finds depends on the text and
/// the pointer alone.
#[verifier::external_body]
pub(crate) fn length_at(text: &str, pointer: &str) -> (r: Option<usize>)
    ensures
        r == length_in(text@, pointer@),
{
    let v: serde_json::Value = serde_json::from_str(text).ok()?;
    v.pointer(pointer)?.as_array().map(Vec::len)
}

/// A character, as it stands in a JSON string: quotes, backslashes and control
/// characters are escaped, and nothing else is.
pub open spec fn json_char(c: char) -> Seq<char> {
    if c == '"' || c == '\\' {
        seq!['\\', c]
    } else if c == '\n' {
        seq!['\\', 'n']
    } else if c == '\r' {
        seq!['\\', 'r']
    } else if c == '\t' {
        seq!['\\', 't']
    } else if c as u32 == 0x08 {
        seq!['\\', 'b']
    } else if c as u32 == 0x0c {
        seq!['\\', 'f']
    } else if (c as u32) < 0x20 {
        seq!['\\', 'u', '0', '0', hex_digit(c as nat / 16), hex_digit(c as nat % 16)]
    } else {
        seq![c]
    }
}

/// The characters of a JSON string, between its quotes.
pub open spec fn json_chars(s: Seq<char>) -> Seq<char>
    decreases s.len(),
{
    if s.len() == 0 {
        Seq::empty()
    } else {
        json_chars(s.drop_last()) + json_char(s.last())
    }
}

/// A string, written in JSON.
pub open spec fn json_string(s: Seq<char>) -> Seq<char> {
    seq!['"'] + json_chars(s) + seq!['"']
}

/// A string, written in JSON.
///
/// Trusted: `serde_json::Value::String` is written in double quotes. Of its
/// characters, a quote and a backslash get a backslash before them; line feed,
/// carriage return, tab, backspace and form feed are written `\n`, `\r`, `\t`,
/// `\b` and `\f`; any other below a blank is written `\u` and four hexadecimal
/// digits in lower case; and all the rest stand for themselves.
#[verifier::external_body]
pub(crate) fn quote(s: &str) -> (r: String)
    ensures
        r@ == json_string(s@),
{
    serde_json::Value::String(s.to_owned()).to_string()
}

/// Whether a character prints: it is neither a line break nor another control
/// character below a blank.
pub open spec fn is_plain(c: char) -> bool {
    ' ' <= c
}

/// A JSON string stays on one line, whatever it holds.
pub proof fn law_strings_stay_on_one_line(s: Seq<char>)
    ensures
        forall|i: int| 0 <= i < json_string(s).len() ==> is_plain(#[trigger] json_string(s)[i]),
{
    lemma_plain_chars(s);
}

proof fn lemma_plain_char(c: char)
    ensures
        forall|i: int| 0 <= i < json_char(c).len() ==> is_plain(#[trigger] json_char(c)[i]),
{
    let out = json_char(c);
    assert forall|i: int| 0 <= i < out.len() implies is_plain(#[trigger] out[i]) by {
        if c < ' ' && out.len() == 6 {
            let n = c as nat;
            assert(n < 32);
            assert(n / 16 < 16 && n % 16 < 16);
            assert(is_plain(hex_digit(n / 16)));
            assert(is_plain(hex_digit(n % 16)));
        }
    }
}

proof fn lemma_plain_chars(s: Seq<char>)
    ensures
        forall|i: int| 0 <= i < json_chars(s).len() ==> is_plain(#[trigger] json_chars(s)[i]),
    decreases s.len(),
{
    if s.len() > 0 {
        let before = json_chars(s.drop_last());
        let c = s.last();
        lemma_plain_chars(s.drop_last());
        lemma_plain_char(c);
        assert forall|i: int| 0 <= i < json_chars(s).len() implies is_plain(
            #[trigger] json_chars(s)[i],
        ) by {
            if i < before.len() {
                assert(json_chars(s)[i] == before[i]);
            } else {
                assert(json_chars(s)[i] == json_char(c)[i - before.len()]);
            }
        }
    }
}

} // verus!
