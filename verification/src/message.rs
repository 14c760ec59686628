//! The envelope: what one checkpoint stores of a procedure, and its JSON form.

use vstd::prelude::*;
use vstd::string::*;
use crate::json::{json_members, json_quoted, members_view, quote, read_members, Member, MemberView};
use crate::procedure_id::{id_text, parse_id, ProcedureId};

verus! {

/// The payload of a checkpoint record.
#[derive(Debug, Clone, PartialEq, Eq)]
pub struct ProcedureMessage {
    /// Type name of the procedure; a loader is found by it.
    pub procedure_type: String,
    /// The procedure's own state, opaque here.
    pub data: String,
    /// The procedure that spawned this one, if any.
    pub parent_id: Option<ProcedureId>,
}

/// An envelope in contracts.
pub struct MessageView {
    pub procedure_type: Seq<char>,
    pub data: Seq<char>,
    pub parent_id: Option<ProcedureId>,
}

impl View for ProcedureMessage {
    type V = MessageView;

    open spec fn view(&self) -> MessageView {
        MessageView {
            procedure_type: self.procedure_type@,
            data: self.data@,
            parent_id: self.parent_id,
        }
    }
}

/// Why a checkpoint could not be prepared.
#[derive(Debug, Clone, Copy, PartialEq, Eq, Structural)]
pub enum StoreError {
    /// The envelope could not be written as JSON.
    ToJson,
}

/// An optional envelope in contracts.
pub open spec fn message_option_view(o: Option<ProcedureMessage>) -> Option<MessageView> {
    match o {
        Some(m) => Some(m@),
        None => None,
    }
}

/// The JSON text of an envelope whose two strings are already written as
/// JSON string literals: the three members in a fixed order, no white space.
pub open spec fn envelope_text(
    type_json: Seq<char>,
    data_json: Seq<char>,
    parent_id: Option<ProcedureId>,
) -> Seq<char> {
    "{\"type_name\":"@ + type_json + ",\"data\":"@ + data_json + ",\"parent_id\":"@ + (
    match parent_id {
        Some(id) => "\""@ + id_text(id.bits) + "\""@,
        None => "null"@,
    }) + "}"@
}

/// The JSON text of the envelope `m`.
pub open spec fn message_json(m: MessageView) -> Seq<char> {
    envelope_text(json_quoted(m.procedure_type), json_quoted(m.data), m.parent_id)
}

/// The value of the first member called `name`, if there is one.
pub open spec fn find_member(ms: Seq<(Seq<char>, MemberView)>, name: Seq<char>) -> Option<
    MemberView,
>
    decreases ms.len(),
{
    if ms.len() == 0 {
        None
    } else if ms[0].0 == name {
        Some(ms[0].1)
    } else {
        find_member(ms.drop_first(), name)
    }
}

/// The envelope that an object with the members `ms` holds: `type_name` and
/// `data` must be strings; `parent_id` may be missing or `null`, and is
/// otherwise a string that spells an identifier. Other members are ignored.
pub open spec fn message_of_members(ms: Seq<(Seq<char>, MemberView)>) -> Option<MessageView> {
    match (find_member(ms, "type_name"@), find_member(ms, "data"@)) {
        (Some(MemberView::Text(procedure_type)), Some(MemberView::Text(data))) => match find_member(
            ms,
            "parent_id"@,
        ) {
            None => Some(MessageView { procedure_type, data, parent_id: None }),
            Some(MemberView::Null) => Some(MessageView { procedure_type, data, parent_id: None }),
            Some(MemberView::Text(p)) => match parse_id(p) {
                Some(id) => Some(MessageView { procedure_type, data, parent_id: Some(id) }),
                None => None,
            },
            Some(MemberView::Other) => None,
        },
        _ => None,
    }
}

/// The envelope that the payload `bytes` holds, if it holds one.
pub open spec fn decode_message(bytes: Seq<u8>) -> Option<MessageView> {
    match json_members(bytes) {
        Some(ms) => message_of_members(ms),
        None => None,
    }
}

/// Finds the first member called `name`.
pub fn find<'a>(ms: &'a Vec<(String, Member)>, name: &str) -> (r: Option<&'a Member>)
    ensures
        match r {
            Some(m) => find_member(members_view(ms@), name@) == Some(m@),
            None => find_member(members_view(ms@), name@) is None,
        },
{
    let wanted = String::from_str(name);
    let ghost all = members_view(ms@);
    let mut i: usize = 0;
    proof {
        assert(all.subrange(0, all.len() as int) =~= all);
    }
    while i < ms.len()
        invariant
            i <= ms.len(),
            all == members_view(ms@),
            wanted@ == name@,
            find_member(all, name@) == find_member(all.subrange(i as int, all.len() as int), name@),
        decreases ms.len() - i,
    {
        let ghost rest = all.subrange(i as int, all.len() as int);
        proof {
            assert(rest[0] == all[i as int]);
            assert(all[i as int] == (ms@[i as int].0@, ms@[i as int].1@));
            assert(rest.drop_first() =~= all.subrange(i + 1, all.len() as int));
        }
        if ms[i].0 == wanted {
            return Some(&ms[i].1);
        }
        i += 1;
    }
    None
}

/// Writes the JSON text of an envelope from its two strings, each already a
/// JSON string literal, and the parent's identifier.
pub fn frame(type_json: &str, data_json: &str, parent_id: Option<ProcedureId>) -> (r: String)
    ensures
        r@ == envelope_text(type_json@, data_json@, parent_id),
{
    let mut out = String::from_str("{\"type_name\":");
    out.append(type_json);
    out.append(",\"data\":");
    out.append(data_json);
    out.append(",\"parent_id\":");
    match parent_id {
        Some(id) => {
            let text = id.to_string();
            out.append("\"");
            out.append(text.as_str());
            out.append("\"");
        },
        None => {
            out.append("null");
        },
    }
    out.append("}");
    proof {
        assert(out@ =~= envelope_text(type_json@, data_json@, parent_id));
    }
    out
}

impl ProcedureMessage {
    /// The envelope's JSON text. The two strings are escaped by `serde_json`;
    /// the error is returned where it refuses one.
    pub fn to_json(&self) -> (r: Result<String, StoreError>)
        ensures
            match r {
                Ok(text) => written_message(self@) == Some(text@) && text@ == message_json(self@),
                Err(e) => written_message(self@) is None && e == StoreError::ToJson,
            },
    {
        let type_json = quote(self.procedure_type.as_str());
        let data_json = quote(self.data.as_str());
        envelope_json(type_json, data_json, self.parent_id)
    }

    /// The envelope that an object with the members `ms` holds, if it holds one.
    pub fn from_members(ms: &Vec<(String, Member)>) -> (r: Option<ProcedureMessage>)
        ensures
            message_option_view(r) == message_of_members(members_view(ms@)),
    {
        let procedure_type = match find(ms, "type_name") {
            Some(Member::Text(t)) => t.clone(),
            _ => {
                return None;
            },
        };
        let data = match find(ms, "data") {
            Some(Member::Text(d)) => d.clone(),
            _ => {
                return None;
            },
        };
        let parent_id = match find(ms, "parent_id") {
            None => None,
            Some(Member::Null) => None,
            Some(Member::Text(p)) => match ProcedureId::parse_str(p.as_str()) {
                Some(id) => Some(id),
                None => {
                    return None;
                },
            },
            Some(Member::Other) => {
                return None;
            },
        };
        Some(ProcedureMessage { procedure_type, data, parent_id })
    }

    /// Reads an envelope from a record's payload; `None` where the payload
    /// holds none.
    pub fn from_json(bytes: &[u8]) -> (r: Option<ProcedureMessage>)
        ensures
            message_option_view(r) == decode_message(bytes@),
    {
        match read_members(bytes) {
            Some(ms) => ProcedureMessage::from_members(&ms),
            None => None,
        }
    }
}

/// The JSON text that is written for the envelope `m`: its three members
/// round the two strings as `serde_json` writes them; `None` where
/// `serde_json` returns an error for one of the strings.
pub open spec fn written_message(m: MessageView) -> Option<Seq<char>> {
    match (crate::json::json_string(m.procedure_type), crate::json::json_string(m.data)) {
        (Some(t), Some(d)) => Some(envelope_text(t, d, m.parent_id)),
        _ => None,
    }
}

/// The JSON text of an envelope from what `serde_json` returned for its two
/// strings: the framed text where both were written, the error where one
/// was refused.
pub fn envelope_json(
    type_json: Result<String, serde_json::Error>,
    data_json: Result<String, serde_json::Error>,
    parent_id: Option<ProcedureId>,
) -> (r: Result<String, StoreError>)
    ensures
        match (crate::json::written(type_json), crate::json::written(data_json)) {
            (Some(t), Some(d)) => r matches Ok(text) && text@ == envelope_text(t, d, parent_id),
            _ => r matches Err(e) && e == StoreError::ToJson,
        },
{
    match (type_json, data_json) {
        (Ok(t), Ok(d)) => Ok(frame(t.as_str(), d.as_str(), parent_id)),
        _ => Err(StoreError::ToJson),
    }
}

} // verus!
