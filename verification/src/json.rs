//! JSON as far as the decisions read and write it. The grammar is that of `serde_json`.

use crate::text::{dec_int, opt_view, views};
use vstd::prelude::*;

verus! {

/// A hexadecimal digit.
pub open spec fn hex_char(n: int) -> char {
    if n < 10 {
        (48 + n) as u8 as char
    } else {
        (87 + n) as u8 as char
    }
}

/// A character inside a JSON string: quotes, backslashes and control characters are escaped.
pub open spec fn escaped(c: char) -> Seq<char> {
    if c == '"' || c == '\\' {
        seq!['\\', c]
    } else if c == '\u{8}' {
        seq!['\\', 'b']
    } else if c == '\t' {
        seq!['\\', 't']
    } else if c == '\n' {
        seq!['\\', 'n']
    } else if c == '\u{c}' {
        seq!['\\', 'f']
    } else if c == '\r' {
        seq!['\\', 'r']
    } else if ' ' > c {
        seq!['\\', 'u', '0', '0', hex_char(c as int / 16), hex_char(c as int % 16)]
    } else {
        seq![c]
    }
}

/// The inside of a JSON string.
pub open spec fn escapes(s: Seq<char>) -> Seq<char>
    decreases s.len(),
{
    if s.len() == 0 {
        Seq::empty()
    } else {
        escapes(s.drop_last()) + escaped(s.last())
    }
}

/// A string as JSON writes it: in quotes, with its escapes.
pub open spec fn quoted_text(s: Seq<char>) -> Seq<char> {
    seq!['"'] + escapes(s) + seq!['"']
}

/// A member of an object.
pub enum Field {
    Int(i64),
    Text(Seq<char>),
    Flag(bool),
}

/// The value of a member, as JSON writes it.
pub open spec fn field_text(f: Field) -> Seq<char> {
    match f {
        Field::Int(n) => dec_int(n as int),
        Field::Text(t) => quoted_text(t),
        Field::Flag(true) => "true"@,
        Field::Flag(false) => "false"@,
    }
}

/// The members of an object, each with its name, as JSON writes them.
pub open spec fn members_text(ms: Seq<(Seq<char>, Field)>) -> Seq<char>
    decreases ms.len(),
{
    if ms.len() == 0 {
        Seq::empty()
    } else {
        let before = if ms.len() == 1 {
            Seq::empty()
        } else {
            members_text(ms.drop_last()).push(',')
        };
        before + quoted_text(ms.last().0) + seq![':'] + field_text(ms.last().1)
    }
}

/// Whether a text is the object with these members, alone on a line or with the end of the line.
pub open spec fn writes(text: Seq<char>, ms: Seq<(Seq<char>, Field)>) -> bool {
    let object = seq!['{'] + members_text(ms) + seq!['}'];
    text == object || text == object.push('\n')
}

/// The member of a name: the last one of it.
pub open spec fn member_of(ms: Seq<(Seq<char>, Field)>, key: Seq<char>) -> Option<Field>
    decreases ms.len(),
{
    if ms.len() == 0 {
        None
    } else if ms.last().0 == key {
        Some(ms.last().1)
    } else {
        member_of(ms.drop_last(), key)
    }
}

/// A member as an integer.
pub open spec fn int_field(f: Option<Field>) -> Option<i64> {
    match f {
        Some(Field::Int(n)) => Some(n),
        _ => None,
    }
}

/// A member as a string.
pub open spec fn text_field(f: Option<Field>) -> Option<Seq<char>> {
    match f {
        Some(Field::Text(t)) => Some(t),
        _ => None,
    }
}

/// A text without quotes, backslashes and control characters is written as it is.
pub proof fn lemma_plain_text(s: Seq<char>)
    requires
        forall|i: int| 0 <= i < s.len() ==> escaped(#[trigger] s[i]) == seq![s[i]],
    ensures
        escapes(s) == s,
    decreases s.len(),
{
    if s.len() > 0 {
        let rest = s.drop_last();
        assert forall|i: int| 0 <= i < rest.len() implies escaped(#[trigger] rest[i]) == seq![rest[i]] by {
            assert(rest[i] == s[i]);
        }
        lemma_plain_text(rest);
        assert(escaped(s[s.len() - 1]) == seq![s[s.len() - 1]]);
        assert(rest + seq![s.last()] =~= s);
    }
}

/// The integer member `key` of the object that `text` writes, as `serde_json` reads it.
pub uninterp spec fn member_int(text: Seq<char>, key: Seq<char>) -> Option<i64>;

/// The string member `key` of the object that `text` writes, as `serde_json` reads it.
pub uninterp spec fn member_string(text: Seq<char>, key: Seq<char>) -> Option<Seq<char>>;

/// The member `key` of the object that `text` writes, written again as `serde_json` writes it.
pub uninterp spec fn member_again(text: Seq<char>, key: Seq<char>) -> Seq<char>;

/// The elements of the array member `key` of the object that `text` writes, each written again as
/// `serde_json` writes it.
pub uninterp spec fn member_elements(text: Seq<char>, key: Seq<char>) -> Option<Seq<Seq<char>>>;

/// `serde_json::to_string` on a string: the string in quotes, with its quotes, backslashes and
/// control characters escaped.
#[verifier::external_body]
pub(crate) fn quoted(s: &str) -> (r: String)
    ensures
        r@ == quoted_text(s@),
{
    serde_json::to_string(s).unwrap_or_default()
}

/// `serde_json::from_str`, then the member `key` as an `i64`: absent where the text is no JSON, is
/// no object, or the member is no integer of that size. The result rests on the arguments alone, and
/// an object that is written as here is read back.
#[verifier::external_body]
pub(crate) fn member_i64(text: &str, key: &str) -> (r: Option<i64>)
    ensures
        r == member_int(text@, key@),
        forall|ms: Seq<(Seq<char>, Field)>| #[trigger]
            writes(text@, ms) ==> r == int_field(member_of(ms, key@)),
{
    serde_json::from_str::<serde_json::Value>(text).unwrap_or_default()[key].as_i64()
}

/// `serde_json::from_str`, then the member `key` as a string: absent where the text is no JSON, is
/// no object, or the member is no string. The result rests on the arguments alone, and an object that
/// is written as here is read back.
#[verifier::external_body]
pub(crate) fn member_str(text: &str, key: &str) -> (r: Option<String>)
    ensures
        opt_view(r) == member_string(text@, key@),
        forall|ms: Seq<(Seq<char>, Field)>| #[trigger]
            writes(text@, ms) ==> opt_view(r) == text_field(member_of(ms, key@)),
{
    serde_json::from_str::<serde_json::Value>(text).unwrap_or_default()[key].as_str().map(String::from)
}

/// `serde_json::from_str`, then the member `key` written again: `null` where the text is no JSON or
/// has no such member. The result rests on the arguments alone.
#[verifier::external_body]
pub(crate) fn member_text(text: &str, key: &str) -> (r: String)
    ensures
        r@ == member_again(text@, key@),
{
    serde_json::from_str::<serde_json::Value>(text).unwrap_or_default()[key].to_string()
}

/// `serde_json::from_str`, then the elements of the array member `key`, each written again: absent
/// where the text is no JSON, is no object, or the member is no array. The result rests on the
/// arguments alone.
#[verifier::external_body]
pub(crate) fn member_rows(text: &str, key: &str) -> (r: Option<Vec<String>>)
    ensures
        match r {
            Some(v) => member_elements(text@, key@) == Some(views(v@)),
            None => member_elements(text@, key@) is None,
        },
{
    let v = serde_json::from_str::<serde_json::Value>(text).unwrap_or_default();
    v[key].as_array().map(|rows| rows.iter().map(|row| row.to_string()).collect())
}

} // verus!
