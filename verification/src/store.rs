//! The procedure store: the records that a checkpoint and a commit write,
//! and the scan that finds, for every procedure, the record to resume from.

use std::collections::HashMap;
use vstd::prelude::*;
use vstd::string::*;
use crate::key::{key_text, lemma_key_round_trip, parse_key, ParsedKey};
use crate::message::{
    decode_message, message_json, message_option_view, MessageView, ProcedureMessage, StoreError,
};
use crate::procedure_id::ProcedureId;

verus! {

/// One record of the state store: a key and the bytes stored under it.
#[derive(Debug, Clone, PartialEq, Eq)]
pub struct Record {
    pub key: String,
    pub value: Vec<u8>,
}

impl View for Record {
    type V = (Seq<char>, Seq<u8>);

    open spec fn view(&self) -> (Seq<char>, Seq<u8>) {
        (self.key@, self.value@)
    }
}

/// Records in contracts, in the order in which the store handed them out.
pub open spec fn records_view(rs: Seq<Record>) -> Seq<(Seq<char>, Seq<u8>)> {
    rs.map_values(|r: Record| r@)
}

/// What the key of record `j` says, if that record belongs to `id`.
pub open spec fn key_of(records: Seq<(Seq<char>, Seq<u8>)>, id: ProcedureId, j: int) -> Option<
    ParsedKey,
> {
    match parse_key(records[j].0) {
        Some(k) => if k.procedure_id == id {
            Some(k)
        } else {
            None
        },
        None => None,
    }
}

/// Record `i` is the latest of `id`: it belongs to `id`, no record of `id`
/// has a greater step, and of those with the same step it came last.
pub open spec fn is_latest(records: Seq<(Seq<char>, Seq<u8>)>, id: ProcedureId, i: int) -> bool {
    &&& 0 <= i < records.len()
    &&& key_of(records, id, i) is Some
    &&& forall|j: int|
        0 <= j < records.len() && (#[trigger] key_of(records, id, j)) is Some ==> {
            let other = key_of(records, id, j)->0;
            let this = key_of(records, id, i)->0;
            other.step < this.step || (other.step == this.step && j <= i)
        }
}

/// The envelope to resume `id` from: the payload of its latest record, where
/// that record is a checkpoint and its payload holds an envelope. `None`
/// where `id` has no record, has finished, or its latest payload is corrupt.
pub open spec fn recovered(records: Seq<(Seq<char>, Seq<u8>)>, id: ProcedureId) -> Option<
    MessageView,
> {
    if exists|i: int| is_latest(records, id, i) {
        let i = choose|i: int| is_latest(records, id, i);
        if key_of(records, id, i)->0.is_committed {
            None
        } else {
            decode_message(records[i].1)
        }
    } else {
        None
    }
}

/// A procedure has at most one latest record.
pub proof fn lemma_latest_unique(
    records: Seq<(Seq<char>, Seq<u8>)>,
    id: ProcedureId,
    i: int,
    j: int,
)
    requires
        is_latest(records, id, i),
        is_latest(records, id, j),
    ensures
        i == j,
{
}

/// A procedure resumes from its latest record: where record `i` is the
/// latest of `id`, recovery yields nothing for a commit marker, and for a
/// checkpoint the envelope that its payload holds.
pub proof fn lemma_recovered_from_latest(
    records: Seq<(Seq<char>, Seq<u8>)>,
    id: ProcedureId,
    i: int,
)
    requires
        is_latest(records, id, i),
    ensures
        recovered(records, id) == if key_of(records, id, i)->0.is_committed {
            None
        } else {
            decode_message(records[i].1)
        },
{
    let c = choose|c: int| is_latest(records, id, c);
    lemma_latest_unique(records, id, i, c);
}

/// `id` has a record among `records`.
pub open spec fn has_record(records: Seq<(Seq<char>, Seq<u8>)>, id: ProcedureId) -> bool {
    exists|j: int| 0 <= j < records.len() && (#[trigger] key_of(records, id, j)) is Some
}

/// Every procedure with a record has a latest record, so recovery is
/// decided for it by that record alone.
pub proof fn lemma_latest_exists(records: Seq<(Seq<char>, Seq<u8>)>, id: ProcedureId)
    requires
        has_record(records, id),
    ensures
        exists|i: int| is_latest(records, id, i),
    decreases records.len(),
{
    let n = records.len() - 1;
    let seen = records.drop_last();
    let rec = records.last();
    assert(records =~= seen.push(rec));
    assert forall|j: int| 0 <= j < n implies #[trigger] key_of(seen, id, j) == key_of(
        records,
        id,
        j,
    ) by {}
    if has_record(seen, id) {
        lemma_latest_exists(seen, id);
        let i = choose|i: int| is_latest(seen, id, i);
        if key_of(records, id, n) is Some {
            lemma_push_same(seen, rec, id, i);
            assert(is_latest(records, id, n) || is_latest(records, id, i));
        } else {
            lemma_push_other(seen, rec, id, i);
            assert(is_latest(records, id, i));
        }
    } else {
        let j = choose|j: int|
            0 <= j < records.len() && (#[trigger] key_of(records, id, j)) is Some;
        if j < n {
            assert(key_of(seen, id, j) is Some);
        }
        assert forall|j: int| 0 <= j < seen.len() implies (#[trigger] key_of(seen, id, j))
            is None by {}
        lemma_push_first(seen, rec, id);
        assert(is_latest(records, id, n));
    }
}

/// A procedure without a record is not recovered.
pub proof fn lemma_unknown_not_recovered(records: Seq<(Seq<char>, Seq<u8>)>, id: ProcedureId)
    requires
        forall|j: int| 0 <= j < records.len() ==> (#[trigger] key_of(records, id, j)) is None,
    ensures
        recovered(records, id) is None,
{
}

/// Where steps are not repeated, the order of the enumeration does not
/// matter: the record of `id` with the greatest step is its latest, wherever
/// it stands among the others.
pub proof fn lemma_greatest_step_is_latest(
    records: Seq<(Seq<char>, Seq<u8>)>,
    id: ProcedureId,
    i: int,
)
    requires
        0 <= i < records.len(),
        key_of(records, id, i) is Some,
        forall|j: int|
            0 <= j < records.len() && j != i && (#[trigger] key_of(records, id, j)) is Some
                ==> key_of(records, id, j)->0.step < key_of(records, id, i)->0.step,
    ensures
        is_latest(records, id, i),
        recovered(records, id) == if key_of(records, id, i)->0.is_committed {
            None
        } else {
            decode_message(records[i].1)
        },
{
    assert(is_latest(records, id, i));
    lemma_recovered_from_latest(records, id, i);
}

/// A commit at a step above every checkpoint of the same procedure keeps
/// that procedure out of recovery, wherever the commit record stands.
pub proof fn lemma_commit_finishes(records: Seq<(Seq<char>, Seq<u8>)>, id: ProcedureId, i: int)
    requires
        0 <= i < records.len(),
        key_of(records, id, i) is Some,
        key_of(records, id, i)->0.is_committed,
        forall|j: int|
            0 <= j < records.len() && j != i && (#[trigger] key_of(records, id, j)) is Some
                ==> key_of(records, id, j)->0.step < key_of(records, id, i)->0.step,
    ensures
        recovered(records, id) is None,
{
    lemma_greatest_step_is_latest(records, id, i);
}

/// A record whose key is no key of this codec changes nothing, wherever it
/// stands among the others: every procedure is recovered as without it.
pub proof fn lemma_foreign_key_ignored(
    records: Seq<(Seq<char>, Seq<u8>)>,
    at: int,
    foreign: (Seq<char>, Seq<u8>),
    id: ProcedureId,
)
    requires
        0 <= at <= records.len(),
        parse_key(foreign.0) is None,
    ensures
        recovered(records.insert(at, foreign), id) == recovered(records, id),
{
    let with = records.insert(at, foreign);
    assert(key_of(with, id, at) is None);
    assert forall|j: int| 0 <= j < records.len() implies #[trigger] key_of(records, id, j)
        == key_of(with, id, if j < at { j } else { j + 1 }) && records[j] == with[if j < at {
        j
    } else {
        j + 1
    }] by {}
    assert forall|j: int| 0 <= j < with.len() && j != at implies #[trigger] key_of(with, id, j)
        == key_of(records, id, if j < at { j } else { j - 1 }) by {}
    if exists|i: int| is_latest(records, id, i) {
        let i = choose|i: int| is_latest(records, id, i);
        let moved = if i < at {
            i
        } else {
            i + 1
        };
        assert(is_latest(with, id, moved)) by {
            assert forall|j: int| 0 <= j < with.len() && (#[trigger] key_of(with, id, j))
                is Some implies {
                let other = key_of(with, id, j)->0;
                let this = key_of(with, id, moved)->0;
                other.step < this.step || (other.step == this.step && j <= moved)
            } by {
                let back = if j < at {
                    j
                } else {
                    j - 1
                };
                assert(key_of(records, id, back) is Some);
            }
        }
        lemma_recovered_from_latest(with, id, moved);
        lemma_recovered_from_latest(records, id, i);
    } else if exists|i: int| is_latest(with, id, i) {
        let i = choose|i: int| is_latest(with, id, i);
        let back = if i < at {
            i
        } else {
            i - 1
        };
        assert(is_latest(records, id, back)) by {
            assert forall|j: int| 0 <= j < records.len() && (#[trigger] key_of(records, id, j))
                is Some implies {
                let other = key_of(records, id, j)->0;
                let this = key_of(records, id, back)->0;
                other.step < this.step || (other.step == this.step && j <= back)
            } by {
                let moved = if j < at {
                    j
                } else {
                    j + 1
                };
                assert(key_of(with, id, moved) is Some);
            }
        }
    }
}

/// What a record holds matters to its own procedure alone: with another
/// payload under a key that does not belong to `id`, corrupt or not, `id` is
/// recovered as before.
pub proof fn lemma_payload_of_other(
    records: Seq<(Seq<char>, Seq<u8>)>,
    at: int,
    payload: Seq<u8>,
    id: ProcedureId,
)
    requires
        0 <= at < records.len(),
        key_of(records, id, at) is None,
    ensures
        recovered(records.update(at, (records[at].0, payload)), id) == recovered(records, id),
{
    let with = records.update(at, (records[at].0, payload));
    assert forall|j: int| 0 <= j < records.len() implies #[trigger] key_of(with, id, j) == key_of(
        records,
        id,
        j,
    ) by {}
    assert forall|j: int| 0 <= j < records.len() implies #[trigger] key_of(records, id, j)
        == key_of(with, id, j) by {}
    if exists|i: int| is_latest(records, id, i) {
        let i = choose|i: int| is_latest(records, id, i);
        assert(is_latest(with, id, i));
        lemma_recovered_from_latest(with, id, i);
    } else if exists|i: int| is_latest(with, id, i) {
        let i = choose|i: int| is_latest(with, id, i);
        assert(is_latest(records, id, i));
    }
}

/// A checkpoint written for a procedure that has no record yet is what the
/// scan resumes it from: recovery yields the envelope that the payload holds.
pub proof fn lemma_fresh_checkpoint_recovered(
    records: Seq<(Seq<char>, Seq<u8>)>,
    k: ParsedKey,
    payload: Seq<u8>,
)
    requires
        !k.is_committed,
        forall|j: int|
            0 <= j < records.len() ==> (#[trigger] key_of(records, k.procedure_id, j)) is None,
    ensures
        recovered(records.push((key_text(k), payload)), k.procedure_id) == decode_message(payload),
{
    lemma_key_round_trip(k);
    let with = records.push((key_text(k), payload));
    assert(with[records.len() as int] == (key_text(k), payload));
    lemma_push_first(records, (key_text(k), payload), k.procedure_id);
    lemma_recovered_from_latest(with, k.procedure_id, records.len() as int);
}

/// A later checkpoint replaces the earlier ones: written at a step no less
/// than that of every record of the procedure, it is what recovery yields.
pub proof fn lemma_later_checkpoint_recovered(
    records: Seq<(Seq<char>, Seq<u8>)>,
    k: ParsedKey,
    payload: Seq<u8>,
)
    requires
        !k.is_committed,
        forall|j: int|
            0 <= j < records.len() && (#[trigger] key_of(records, k.procedure_id, j)) is Some
                ==> key_of(records, k.procedure_id, j)->0.step <= k.step,
    ensures
        recovered(records.push((key_text(k), payload)), k.procedure_id) == decode_message(payload),
{
    lemma_key_round_trip(k);
    let with = records.push((key_text(k), payload));
    let last = records.len() as int;
    assert(with[last] == (key_text(k), payload));
    assert forall|j: int| 0 <= j < last implies #[trigger] key_of(with, k.procedure_id, j)
        == key_of(records, k.procedure_id, j) by {
        assert(with[j] == records[j]);
    }
    assert(is_latest(with, k.procedure_id, last));
    lemma_recovered_from_latest(with, k.procedure_id, last);
}

/// A commit written at a step no less than that of every record of the
/// procedure keeps the procedure out of recovery.
pub proof fn lemma_commit_written_finishes(
    records: Seq<(Seq<char>, Seq<u8>)>,
    k: ParsedKey,
    payload: Seq<u8>,
)
    requires
        k.is_committed,
        forall|j: int|
            0 <= j < records.len() && (#[trigger] key_of(records, k.procedure_id, j)) is Some
                ==> key_of(records, k.procedure_id, j)->0.step <= k.step,
    ensures
        recovered(records.push((key_text(k), payload)), k.procedure_id) is None,
{
    lemma_key_round_trip(k);
    let with = records.push((key_text(k), payload));
    let last = records.len() as int;
    assert(with[last] == (key_text(k), payload));
    assert forall|j: int| 0 <= j < last implies #[trigger] key_of(with, k.procedure_id, j)
        == key_of(records, k.procedure_id, j) by {
        assert(with[j] == records[j]);
    }
    assert(is_latest(with, k.procedure_id, last));
    lemma_recovered_from_latest(with, k.procedure_id, last);
}

/// A record written for one procedure leaves every other procedure
/// recovered as before.
pub proof fn lemma_write_leaves_others(
    records: Seq<(Seq<char>, Seq<u8>)>,
    k: ParsedKey,
    payload: Seq<u8>,
    id: ProcedureId,
)
    requires
        id != k.procedure_id,
    ensures
        recovered(records.push((key_text(k), payload)), id) == recovered(records, id),
{
    lemma_key_round_trip(k);
    let rec = (key_text(k), payload);
    let with = records.push(rec);
    let last = records.len() as int;
    assert(with[last] == rec);
    assert(key_of(with, id, last) is None);
    assert forall|j: int| 0 <= j < last implies #[trigger] key_of(with, id, j) == key_of(
        records,
        id,
        j,
    ) by {
        assert(with[j] == records[j]);
    }
    assert forall|j: int| 0 <= j < last implies #[trigger] key_of(records, id, j) == key_of(
        with,
        id,
        j,
    ) by {
        assert(with[j] == records[j]);
    }
    if exists|i: int| is_latest(records, id, i) {
        let i = choose|i: int| is_latest(records, id, i);
        lemma_push_other(records, rec, id, i);
        lemma_recovered_from_latest(with, id, i);
    } else if exists|i: int| is_latest(with, id, i) {
        let i = choose|i: int| is_latest(with, id, i);
        assert(is_latest(records, id, i));
    }
}

/// The record that a checkpoint writes, from the envelope's JSON text.
pub fn checkpoint_record(procedure_id: ProcedureId, step: u32, json: String) -> (r: Record)
    ensures
        r.key@ == key_text(ParsedKey { procedure_id, step, is_committed: false }),
        r.value@ == vstd::utf8::encode_utf8(json@),
{
    let key = ParsedKey { procedure_id, step, is_committed: false }.to_string();
    let value = json.as_str().as_bytes_vec();
    Record { key, value }
}

/// The record that stores a checkpoint of a procedure: the envelope of its
/// type, state and parent, under the checkpoint key of `step`. The error is
/// returned where the envelope cannot be written as JSON.
pub fn store_procedure(
    procedure_id: ProcedureId,
    step: u32,
    procedure_type: &str,
    data: String,
    parent_id: Option<ProcedureId>,
) -> (r: Result<Record, StoreError>)
    ensures
        match r {
            Ok(rec) => {
                &&& crate::message::written_message(
                    MessageView { procedure_type: procedure_type@, data: data@, parent_id },
                ) is Some
                &&& rec.key@ == key_text(ParsedKey { procedure_id, step, is_committed: false })
                &&& rec.value@ == vstd::utf8::encode_utf8(
                    message_json(
                        MessageView { procedure_type: procedure_type@, data: data@, parent_id },
                    ),
                )
            },
            Err(e) => {
                &&& crate::message::written_message(
                    MessageView { procedure_type: procedure_type@, data: data@, parent_id },
                ) is None
                &&& e == StoreError::ToJson
            },
        },
{
    let message = ProcedureMessage {
        procedure_type: String::from_str(procedure_type),
        data,
        parent_id,
    };
    match message.to_json() {
        Ok(json) => Ok(checkpoint_record(procedure_id, step, json)),
        Err(e) => Err(e),
    }
}

/// The record that marks a procedure as finished as of `step`: the commit
/// key and no payload.
pub fn commit_procedure(procedure_id: ProcedureId, step: u32) -> (r: Record)
    ensures
        r.key@ == key_text(ParsedKey { procedure_id, step, is_committed: true }),
        r.value@ == Seq::<u8>::empty(),
{
    let key = ParsedKey { procedure_id, step, is_committed: true }.to_string();
    Record { key, value: Vec::new() }
}

/// Reads the envelope of one checkpoint record; `None` where the payload is
/// corrupt.
pub fn load_one_message(value: &[u8]) -> (r: Option<ProcedureMessage>)
    ensures
        message_option_view(r) == decode_message(value@),
{
    ProcedureMessage::from_json(value)
}

/// The latest record seen so far of one procedure.
struct Candidate {
    key: ParsedKey,
    value: Vec<u8>,
}

/// The state of a recovery scan: for each procedure seen so far, its latest
/// record. Memory grows with the count of procedures, not of records.
pub struct RecoveryScan {
    /// One candidate for each procedure seen, in the order of first sight.
    candidates: Vec<Candidate>,
    /// Where the candidate of a procedure stands, by the identifier's value.
    index: HashMap<u128, usize>,
    /// The records observed so far.
    seen: Ghost<Seq<(Seq<char>, Seq<u8>)>>,
    /// For each candidate, the place of its record among those observed.
    at: Ghost<Seq<int>>,
}

/// Every procedure with a record in `seen` is in `known`.
spec fn all_known(seen: Seq<(Seq<char>, Seq<u8>)>, known: Set<u128>) -> bool {
    forall|id: ProcedureId, j: int|
        0 <= j < seen.len() && (#[trigger] key_of(seen, id, j)) is Some ==> known.contains(
            id.bits,
        )
}

/// Adding a record that does not belong to `id` leaves the latest record of
/// `id` as it was.
proof fn lemma_push_other(
    seen: Seq<(Seq<char>, Seq<u8>)>,
    rec: (Seq<char>, Seq<u8>),
    id: ProcedureId,
    i: int,
)
    requires
        is_latest(seen, id, i),
        key_of(seen.push(rec), id, seen.len() as int) is None,
    ensures
        is_latest(seen.push(rec), id, i),
        key_of(seen.push(rec), id, i) == key_of(seen, id, i),
        seen.push(rec)[i] == seen[i],
{
    let next = seen.push(rec);
    assert forall|j: int| 0 <= j < seen.len() implies #[trigger] key_of(next, id, j) == key_of(
        seen,
        id,
        j,
    ) by {
        assert(next[j] == seen[j]);
    }
}

/// Adding a record of `id` makes it the latest unless the latest so far has
/// a greater step.
proof fn lemma_push_same(
    seen: Seq<(Seq<char>, Seq<u8>)>,
    rec: (Seq<char>, Seq<u8>),
    id: ProcedureId,
    i: int,
)
    requires
        is_latest(seen, id, i),
        key_of(seen.push(rec), id, seen.len() as int) is Some,
    ensures
        key_of(seen.push(rec), id, i) == key_of(seen, id, i),
        seen.push(rec)[i] == seen[i],
        key_of(seen, id, i)->0.step <= key_of(seen.push(rec), id, seen.len() as int)->0.step
            ==> is_latest(seen.push(rec), id, seen.len() as int),
        key_of(seen, id, i)->0.step > key_of(seen.push(rec), id, seen.len() as int)->0.step
            ==> is_latest(seen.push(rec), id, i),
{
    let next = seen.push(rec);
    assert forall|j: int| 0 <= j < seen.len() implies #[trigger] key_of(next, id, j) == key_of(
        seen,
        id,
        j,
    ) by {
        assert(next[j] == seen[j]);
    }
}

/// The first record of `id` is its latest.
proof fn lemma_push_first(
    seen: Seq<(Seq<char>, Seq<u8>)>,
    rec: (Seq<char>, Seq<u8>),
    id: ProcedureId,
)
    requires
        forall|j: int| 0 <= j < seen.len() ==> (#[trigger] key_of(seen, id, j)) is None,
        key_of(seen.push(rec), id, seen.len() as int) is Some,
    ensures
        is_latest(seen.push(rec), id, seen.len() as int),
{
    let next = seen.push(rec);
    assert forall|j: int| 0 <= j < seen.len() implies #[trigger] key_of(next, id, j) == key_of(
        seen,
        id,
        j,
    ) by {
        assert(next[j] == seen[j]);
    }
}

/// After one more record, every procedure with a record is known, where
/// those before were and the procedure of the new record is.
proof fn lemma_all_known_push(
    seen: Seq<(Seq<char>, Seq<u8>)>,
    rec: (Seq<char>, Seq<u8>),
    before: Set<u128>,
    after: Set<u128>,
)
    requires
        all_known(seen, before),
        before.subset_of(after),
        parse_key(rec.0) matches Some(k) ==> after.contains(k.procedure_id.bits),
    ensures
        all_known(seen.push(rec), after),
{
    let next = seen.push(rec);
    assert forall|id: ProcedureId, j: int|
        0 <= j < next.len() && (#[trigger] key_of(next, id, j)) is Some implies after.contains(
        id.bits,
    ) by {
        if j < seen.len() {
            assert(next[j] == seen[j]);
            assert(key_of(seen, id, j) is Some);
        }
    }
}

impl RecoveryScan {
    /// The records observed so far, in order.
    pub closed spec fn seen(&self) -> Seq<(Seq<char>, Seq<u8>)> {
        self.seen@
    }

    /// Candidate `p` is the latest record of its procedure, and the index
    /// leads to it.
    spec fn holds(&self, p: int) -> bool {
        let c = self.candidates@[p];
        let i = self.at@[p];
        &&& is_latest(self.seen@, c.key.procedure_id, i)
        &&& key_of(self.seen@, c.key.procedure_id, i) == Some(c.key)
        &&& self.seen@[i].1 == c.value@
        &&& self.index@.contains_key(c.key.procedure_id.bits)
        &&& self.index@[c.key.procedure_id.bits] == p
    }

    /// The scan holds exactly the latest record of every procedure that has
    /// a record among those observed.
    pub closed spec fn wf(&self) -> bool {
        &&& self.at@.len() == self.candidates@.len()
        &&& forall|p: int| 0 <= p < self.candidates@.len() ==> #[trigger] self.holds(p)
        &&& forall|bits: u128| #[trigger]
            self.index@.contains_key(bits) ==> self.index@[bits] < self.candidates@.len()
                && self.candidates@[self.index@[bits] as int].key.procedure_id.bits == bits
        &&& all_known(self.seen@, self.index@.dom())
    }

    /// A scan that has observed nothing.
    pub fn new() -> (r: RecoveryScan)
        ensures
            r.wf(),
            r.seen() == Seq::<(Seq<char>, Seq<u8>)>::empty(),
    {
        RecoveryScan {
            candidates: Vec::new(),
            index: HashMap::new(),
            seen: Ghost(Seq::empty()),
            at: Ghost(Seq::empty()),
        }
    }

    /// Takes in one record. A key that is no key of this codec is skipped.
    /// Of the records of one procedure the scan keeps the one with the
    /// greatest step, and of those at one step the one that came last.
    pub fn observe(&mut self, key: &str, value: Vec<u8>)
        requires
            old(self).wf(),
        ensures
            final(self).wf(),
            final(self).seen() == old(self).seen().push((key@, value@)),
    {
        let ghost before = *self;
        let ghost rec = (key@, value@);
        let ghost n = self.seen@.len() as int;
        let ghost next = self.seen@.push(rec);
        proof {
            assert(next[n] == rec);
        }
        match ParsedKey::parse_str(key) {
            None => {
                self.seen = Ghost(next);
                proof {
                    lemma_all_known_push(before.seen@, rec, self.index@.dom(), self.index@.dom());
                    assert forall|p: int| 0 <= p < self.candidates@.len() implies #[trigger]
                        self.holds(p) by {
                        assert(before.holds(p));
                        let other = self.candidates@[p].key.procedure_id;
                        lemma_push_other(before.seen@, rec, other, self.at@[p]);
                    }
                }
            },
            Some(k) => {
                let id = k.procedure_id;
                proof {
                    assert(key_of(next, id, n) == Some(k));
                }
                let found: Option<usize> = match self.index.get(&id.bits) {
                    Some(p) => Some(*p),
                    None => None,
                };
                match found {
                    Some(p) => {
                        proof {
                            assert(before.holds(p as int));
                            lemma_push_same(before.seen@, rec, id, before.at@[p as int]);
                        }
                        if self.candidates[p].key.step <= k.step {
                            self.candidates.set(p, Candidate { key: k, value });
                            self.at = Ghost(self.at@.update(p as int, n));
                        }
                        self.seen = Ghost(next);
                        proof {
                            lemma_all_known_push(
                                before.seen@,
                                rec,
                                self.index@.dom(),
                                self.index@.dom(),
                            );
                            assert forall|q: int| 0 <= q < self.candidates@.len() implies #[trigger]
                                self.holds(q) by {
                                assert(before.holds(q));
                                if q != p {
                                    let other = before.candidates@[q].key.procedure_id;
                                    assert(other.bits != id.bits);
                                    lemma_push_other(before.seen@, rec, other, before.at@[q]);
                                }
                            }
                        }
                    },
                    None => {
                        let p = self.candidates.len();
                        self.index.insert(id.bits, p);
                        self.candidates.push(Candidate { key: k, value });
                        self.at = Ghost(self.at@.push(n));
                        self.seen = Ghost(next);
                        proof {
                            lemma_all_known_push(
                                before.seen@,
                                rec,
                                before.index@.dom(),
                                self.index@.dom(),
                            );
                            assert forall|j: int| 0 <= j < n implies (#[trigger] key_of(
                                before.seen@,
                                id,
                                j,
                            )) is None by {
                                if key_of(before.seen@, id, j) is Some {
                                    assert(before.index@.dom().contains(id.bits));
                                }
                            }
                            lemma_push_first(before.seen@, rec, id);
                            assert forall|q: int| 0 <= q < self.candidates@.len() implies #[trigger]
                                self.holds(q) by {
                                if q < p {
                                    assert(before.holds(q));
                                    let other = before.candidates@[q].key.procedure_id;
                                    assert(other.bits != id.bits);
                                    lemma_push_other(before.seen@, rec, other, before.at@[q]);
                                }
                            }
                        }
                    },
                }
            },
        }
    }

    /// Ends the scan: the envelope of every procedure whose latest record is
    /// a checkpoint with a readable payload, by the identifier's value.
    /// Procedures that have committed, and those whose latest payload is
    /// corrupt, are left out.
    pub fn finish(self) -> (r: HashMap<u128, ProcedureMessage>)
        requires
            self.wf(),
        ensures
            forall|id: ProcedureId| #[trigger]
                r@.contains_key(id.bits) == recovered(self.seen(), id) is Some,
            forall|id: ProcedureId| #[trigger]
                r@.contains_key(id.bits) ==> Some(r@[id.bits]@) == recovered(self.seen(), id),
    {
        let mut out: HashMap<u128, ProcedureMessage> = HashMap::new();
        let mut p: usize = 0;
        while p < self.candidates.len()
            invariant
                self.wf(),
                p <= self.candidates.len(),
                forall|bits: u128| #[trigger]
                    out@.contains_key(bits) ==> self.index@.contains_key(bits) && self.index@[bits]
                        < p,
                forall|q: int|
                    0 <= q < p ==> {
                        let c = #[trigger] self.candidates@[q];
                        let m = if c.key.is_committed {
                            None
                        } else {
                            decode_message(c.value@)
                        };
                        &&& out@.contains_key(c.key.procedure_id.bits) == m is Some
                        &&& m is Some ==> Some(out@[c.key.procedure_id.bits]@) == m
                    },
            decreases self.candidates.len() - p,
        {
            let c = &self.candidates[p];
            let bits = c.key.procedure_id.bits;
            proof {
                assert(self.holds(p as int));
                assert forall|q: int| 0 <= q < p implies (#[trigger] self.candidates@[q])
                    .key.procedure_id.bits != bits by {
                    assert(self.holds(q));
                }
            }
            if !c.key.is_committed {
                match load_one_message(c.value.as_slice()) {
                    Some(message) => {
                        out.insert(bits, message);
                    },
                    None => {},
                }
            }
            p += 1;
        }
        proof {
            assert forall|id: ProcedureId|
                (#[trigger] out@.contains_key(id.bits)) == recovered(self.seen@, id) is Some && (
                out@.contains_key(id.bits) ==> Some(out@[id.bits]@) == recovered(
                    self.seen@,
                    id,
                )) by {
                if exists|i: int| is_latest(self.seen@, id, i) {
                    let i = choose|i: int| is_latest(self.seen@, id, i);
                    assert(key_of(self.seen@, id, i) is Some);
                    assert(self.index@.dom().contains(id.bits));
                    let q = self.index@[id.bits] as int;
                    assert(self.holds(q));
                    assert(self.candidates@[q].key.procedure_id == id);
                    lemma_latest_unique(self.seen@, id, i, self.at@[q]);
                } else if out@.contains_key(id.bits) {
                    let q = self.index@[id.bits] as int;
                    assert(self.holds(q));
                    assert(self.candidates@[q].key.procedure_id == id);
                }
            }
        }
        out
    }
}

/// The recovery scan over a whole enumeration: for every procedure whose
/// latest record is a checkpoint with a readable payload, its envelope.
pub fn load_messages(records: &Vec<Record>) -> (r: HashMap<u128, ProcedureMessage>)
    ensures
        forall|id: ProcedureId| #[trigger]
            r@.contains_key(id.bits) == recovered(records_view(records@), id) is Some,
        forall|id: ProcedureId| #[trigger]
            r@.contains_key(id.bits) ==> Some(r@[id.bits]@) == recovered(
                records_view(records@),
                id,
            ),
{
    let mut scan = RecoveryScan::new();
    let mut i: usize = 0;
    while i < records.len()
        invariant
            i <= records.len(),
            scan.wf(),
            scan.seen() =~= records_view(records@).take(i as int),
        decreases records.len() - i,
    {
        let value = records[i].value.clone();
        scan.observe(records[i].key.as_str(), value);
        i += 1;
    }
    proof {
        assert(records_view(records@).take(i as int) =~= records_view(records@));
    }
    scan.finish()
}

} // verus!
