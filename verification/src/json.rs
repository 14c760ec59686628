//! The two calls into `serde_json` that the envelope format rests on. Verus
//! takes their contracts on trust.

use vstd::prelude::*;
use crate::radix::digit_char;

verus! {

/// The error type of `serde_json`.
#[verifier::external_type_specification]
#[verifier::external_body]
pub struct ExJsonError(serde_json::Error);

/// The value of one member of a JSON object, as far as an envelope reads it.
#[derive(Debug, Clone, PartialEq, Eq)]
pub enum Member {
    /// The JSON `null`.
    Null,
    /// A JSON string, unescaped.
    Text(String),
    /// A boolean, a number, an array or an object.
    Other,
}

/// A member's value in contracts.
pub enum MemberView {
    Null,
    Text(Seq<char>),
    Other,
}

impl View for Member {
    type V = MemberView;

    open spec fn view(&self) -> MemberView {
        match self {
            Member::Null => MemberView::Null,
            Member::Text(s) => MemberView::Text(s@),
            Member::Other => MemberView::Other,
        }
    }
}

/// The members of an object in contracts: name and value, in order.
pub open spec fn members_view(ms: Seq<(String, Member)>) -> Seq<(Seq<char>, MemberView)> {
    ms.map_values(|p: (String, Member)| (p.0@, p.1@))
}

/// One character inside a JSON string literal, as `serde_json` writes it:
/// the quote and the backslash behind a backslash; backspace, tab, line feed,
/// form feed and carriage return as `\b`, `\t`, `\n`, `\f`, `\r`; any other
/// character below the space as `\u00` and two lower-case hexadecimal
/// digits; every other character as it is.
pub open spec fn escaped_char(c: char) -> Seq<char> {
    let code = c as nat;
    if code == 0x22 {
        seq!['\\', '"']
    } else if code == 0x5c {
        seq!['\\', '\\']
    } else if code == 0x08 {
        seq!['\\', 'b']
    } else if code == 0x09 {
        seq!['\\', 't']
    } else if code == 0x0a {
        seq!['\\', 'n']
    } else if code == 0x0c {
        seq!['\\', 'f']
    } else if code == 0x0d {
        seq!['\\', 'r']
    } else if code < 0x20 {
        seq!['\\', 'u', '0', '0', digit_char(code / 16), digit_char(code % 16)]
    } else {
        seq![c]
    }
}

/// The characters of `s`, each as it stands inside a JSON string literal.
pub open spec fn escaped_text(s: Seq<char>) -> Seq<char>
    decreases s.len(),
{
    if s.len() == 0 {
        Seq::empty()
    } else {
        escaped_text(s.drop_last()) + escaped_char(s.last())
    }
}

/// The JSON string literal for the text `s`: its escaped characters between
/// two quotes.
pub open spec fn json_quoted(s: Seq<char>) -> Seq<char> {
    seq!['"'] + escaped_text(s) + seq!['"']
}

/// The members of the JSON object that `serde_json` reads from `bytes` as a
/// map, in the order in which the map hands them out; `None` where it reads
/// no map from them.
pub uninterp spec fn json_members(bytes: Seq<u8>) -> Option<Seq<(Seq<char>, MemberView)>>;

/// What `serde_json::to_string` returns for the text `s`: the JSON string
/// literal that it writes, `None` where it returns an error.
pub uninterp spec fn json_string(s: Seq<char>) -> Option<Seq<char>>;

/// The text that a call of `serde_json` wrote, `None` for its error.
pub open spec fn written(r: Result<String, serde_json::Error>) -> Option<Seq<char>> {
    match r {
        Ok(t) => Some(t@),
        Err(_) => None,
    }
}

/// Calls `serde_json::to_string` on a string slice. Trusted: the result is
/// what `json_string` names for `s`, and where it is `Ok` it is the JSON
/// string literal for `s`, escaped as `json_quoted` says. Nothing is claimed
/// of when it is `Ok`.
#[verifier::external_body]
pub(crate) fn quote(s: &str) -> (r: Result<String, serde_json::Error>)
    ensures
        written(r) == json_string(s@),
        r matches Ok(t) ==> t@ == json_quoted(s@),
{
    serde_json::to_string(s)
}

/// Calls `serde_json::from_slice` for a `serde_json::Map` and hands out its
/// members, each value as a `Member`. Trusted: the result is what
/// `json_members` names for these bytes, and `None` where the call fails.
#[verifier::external_body]
pub(crate) fn read_members(bytes: &[u8]) -> (r: Option<Vec<(String, Member)>>)
    ensures
        match r {
            Some(ms) => json_members(bytes@) == Some(members_view(ms@)),
            None => json_members(bytes@) is None,
        },
{
    match serde_json::from_slice::<serde_json::Map<String, serde_json::Value>>(bytes) {
        Ok(m) => Some(
            m.into_iter().map(|(k, v)| (k, match v {
                serde_json::Value::Null => Member::Null,
                serde_json::Value::String(s) => Member::Text(s),
                serde_json::Value::Bool(_) => Member::Other,
                serde_json::Value::Number(_) => Member::Other,
                serde_json::Value::Array(_) => Member::Other,
                serde_json::Value::Object(_) => Member::Other,
            })).collect(),
        ),
        Err(_) => None,
    }
}

} // verus!
