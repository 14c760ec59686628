use procedure_store::json::Member;
use procedure_store::key::ParsedKey;
use procedure_store::message::ProcedureMessage;
use procedure_store::procedure_id::ProcedureId;
use procedure_store::store::{
    commit_procedure, load_messages, load_one_message, store_procedure, Record, RecoveryScan,
};

fn checkpoint(id: ProcedureId, step: u32, data: &str) -> Record {
    store_procedure(id, step, "MockProcedure", data.to_string(), None).unwrap()
}

#[test]
fn test_procedure_message() {
    let mut message = ProcedureMessage {
        procedure_type: "TestMessage".to_string(),
        data: "no parent id".to_string(),
        parent_id: None,
    };

    let json = message.to_json().unwrap();
    assert_eq!(
        json,
        r#"{"type_name":"TestMessage","data":"no parent id","parent_id":null}"#
    );

    let procedure_id = ProcedureId::parse_str("9f805a1f-05f7-490c-9f91-bd56e3cc54c1").unwrap();
    message.parent_id = Some(procedure_id);
    let json = message.to_json().unwrap();
    assert_eq!(
        json,
        r#"{"type_name":"TestMessage","data":"no parent id","parent_id":"9f805a1f-05f7-490c-9f91-bd56e3cc54c1"}"#
    );
}

#[test]
fn test_store_procedure() {
    let procedure_id = ProcedureId::from_u128(0x1111);
    let record = store_procedure(
        procedure_id,
        0,
        "MockProcedure",
        "test store procedure".to_string(),
        None,
    )
    .unwrap();

    let messages = load_messages(&vec![record]);
    assert_eq!(1, messages.len());
    let msg = messages.get(&procedure_id.as_u128()).unwrap();
    let expect = ProcedureMessage {
        procedure_type: "MockProcedure".to_string(),
        data: "test store procedure".to_string(),
        parent_id: None,
    };
    assert_eq!(expect, *msg);
}

#[test]
fn test_commit_procedure() {
    let procedure_id = ProcedureId::from_u128(0x2222);
    let records = vec![
        checkpoint(procedure_id, 0, "test store procedure"),
        commit_procedure(procedure_id, 1),
    ];

    let messages = load_messages(&records);
    assert!(messages.is_empty());
}

#[test]
fn test_load_messages() {
    let id0 = ProcedureId::from_u128(0xa0);
    let id1 = ProcedureId::from_u128(0xa1);
    let id2 = ProcedureId::from_u128(0xa2);
    let records = vec![
        checkpoint(id0, 0, "id0-0"),
        checkpoint(id0, 1, "id0-1"),
        checkpoint(id0, 2, "id0-2"),
        checkpoint(id1, 0, "id1-0"),
        checkpoint(id1, 1, "id1-1"),
        commit_procedure(id1, 2),
        checkpoint(id2, 0, "id2-0"),
    ];

    let messages = load_messages(&records);
    assert_eq!(2, messages.len());

    let msg = messages.get(&id0.as_u128()).unwrap();
    assert_eq!("id0-2", msg.data);
    let msg = messages.get(&id2.as_u128()).unwrap();
    assert_eq!("id2-0", msg.data);
}

#[test]
fn records_have_the_documented_shape() {
    let id = ProcedureId::parse_str("9f805a1f-05f7-490c-9f91-bd56e3cc54c1").unwrap();
    let parent = ProcedureId::from_u128(5);
    let record = store_procedure(id, 3, "Create", "state".to_string(), Some(parent)).unwrap();
    assert_eq!("9f805a1f-05f7-490c-9f91-bd56e3cc54c1/0000000003.step", record.key);
    assert_eq!(
        br#"{"type_name":"Create","data":"state","parent_id":"00000000-0000-0000-0000-000000000005"}"#.to_vec(),
        record.value
    );
    let record = commit_procedure(id, 4);
    assert_eq!("9f805a1f-05f7-490c-9f91-bd56e3cc54c1/0000000004.commit", record.key);
    assert!(record.value.is_empty());
}

#[test]
fn strings_are_escaped_and_read_back() {
    let message = ProcedureMessage {
        procedure_type: "a \"quoted\" \\ name".to_string(),
        data: "{\"k\":[1,2],\n\t\"s\":\"\u{e9}\u{4e2d}\u{1f600}\"}".to_string(),
        parent_id: Some(ProcedureId::from_u128(u128::MAX)),
    };
    let json = message.to_json().unwrap();
    assert!(json.starts_with(r#"{"type_name":"a \"quoted\" \\ name","data":"{\"k\":[1,2],\n\t\"s\":\""#));
    assert_eq!(Some(message), ProcedureMessage::from_json(json.as_bytes()));
}

#[test]
fn checkpoints_win_by_step_not_by_position() {
    let id = ProcedureId::from_u128(9);
    let records = vec![
        checkpoint(id, 2, "two"),
        checkpoint(id, 0, "zero"),
        checkpoint(id, 1, "one"),
    ];
    let messages = load_messages(&records);
    assert_eq!(1, messages.len());
    assert_eq!("two", messages.get(&9).unwrap().data);
}

#[test]
fn commit_wins_wherever_it_stands() {
    let id = ProcedureId::from_u128(9);
    let records = vec![
        commit_procedure(id, 5),
        checkpoint(id, 0, "zero"),
        checkpoint(id, 4, "four"),
    ];
    assert!(load_messages(&records).is_empty());
}

#[test]
fn checkpoint_above_a_commit_is_resumed() {
    let id = ProcedureId::from_u128(9);
    let records = vec![commit_procedure(id, 1), checkpoint(id, 2, "after")];
    let messages = load_messages(&records);
    assert_eq!("after", messages.get(&9).unwrap().data);
}

#[test]
fn the_later_of_two_records_at_one_step_wins() {
    let id = ProcedureId::from_u128(9);
    let records = vec![checkpoint(id, 1, "first"), checkpoint(id, 1, "second")];
    assert_eq!("second", load_messages(&records).get(&9).unwrap().data);
    let records = vec![checkpoint(id, 1, "first"), commit_procedure(id, 1)];
    assert!(load_messages(&records).is_empty());
    let records = vec![commit_procedure(id, 1), checkpoint(id, 1, "again")];
    assert_eq!("again", load_messages(&records).get(&9).unwrap().data);
}

#[test]
fn foreign_keys_are_skipped() {
    let a = ProcedureId::from_u128(1);
    let b = ProcedureId::from_u128(2);
    let stray = |key: &str| Record {
        key: key.to_string(),
        value: br#"{"type_name":"X","data":"stray","parent_id":null}"#.to_vec(),
    };
    let records = vec![
        stray(""),
        checkpoint(a, 0, "a0"),
        stray("lost+found/readme.txt"),
        checkpoint(b, 0, "b0"),
        stray("00000000-0000-0000-0000-000000000001/0000000009.snapshot"),
        checkpoint(a, 1, "a1"),
        stray("12345/0000000003.step"),
    ];
    let messages = load_messages(&records);
    assert_eq!(2, messages.len());
    assert_eq!("a1", messages.get(&1).unwrap().data);
    assert_eq!("b0", messages.get(&2).unwrap().data);
}

#[test]
fn corrupt_payload_drops_only_its_procedure() {
    let a = ProcedureId::from_u128(1);
    let b = ProcedureId::from_u128(2);
    let mut broken = checkpoint(a, 1, "a1");
    broken.value.truncate(10);
    let records = vec![checkpoint(a, 0, "a0"), broken, checkpoint(b, 0, "b0")];
    let messages = load_messages(&records);
    assert_eq!(1, messages.len());
    assert!(messages.get(&1).is_none());
    assert_eq!("b0", messages.get(&2).unwrap().data);
}

#[test]
fn empty_store_recovers_nothing() {
    assert!(load_messages(&Vec::new()).is_empty());
    assert!(RecoveryScan::new().finish().is_empty());
}

#[test]
fn scan_takes_records_one_by_one() {
    let a = ProcedureId::from_u128(1);
    let mut scan = RecoveryScan::new();
    for record in [checkpoint(a, 0, "a0"), checkpoint(a, 3, "a3"), checkpoint(a, 2, "a2")] {
        scan.observe(&record.key, record.value);
    }
    scan.observe("not a key", Vec::new());
    let messages = scan.finish();
    assert_eq!(1, messages.len());
    assert_eq!("a3", messages.get(&1).unwrap().data);
}

#[test]
fn payload_decoding() {
    let parent = "9f805a1f-05f7-490c-9f91-bd56e3cc54c1";
    let full = format!(r#" {{ "parent_id" : "{parent}", "extra": [1, {{"a": null}}], "data" : "d", "type_name" : "T" }} "#);
    let message = load_one_message(full.as_bytes()).unwrap();
    assert_eq!("T", message.procedure_type);
    assert_eq!("d", message.data);
    assert_eq!(Some(ProcedureId::parse_str(parent).unwrap()), message.parent_id);

    let message = load_one_message(br#"{"type_name":"T","data":"d"}"#).unwrap();
    assert_eq!(None, message.parent_id);
    let message = load_one_message(br#"{"type_name":"T","data":"dA\n","parent_id":null}"#).unwrap();
    assert_eq!("dA\n", message.data);

    assert!(load_one_message(b"").is_none());
    assert!(load_one_message(b"null").is_none());
    assert!(load_one_message(br#"["T","d",null]"#).is_none());
    assert!(load_one_message(br#"{"type_name":"T"}"#).is_none());
    assert!(load_one_message(br#"{"data":"d"}"#).is_none());
    assert!(load_one_message(br#"{"type_name":1,"data":"d"}"#).is_none());
    assert!(load_one_message(br#"{"type_name":"T","data":null}"#).is_none());
    assert!(load_one_message(br#"{"type_name":"T","data":"d","parent_id":7}"#).is_none());
    assert!(load_one_message(br#"{"type_name":"T","data":"d","parent_id":"12345"}"#).is_none());
    assert!(load_one_message(br#"{"type_name":"T","data":"d""#).is_none());
    assert!(load_one_message(&[0xff, 0xfe]).is_none());
}

#[test]
fn envelope_from_members() {
    let members = vec![
        ("data".to_string(), Member::Text("d".to_string())),
        ("other".to_string(), Member::Other),
        ("type_name".to_string(), Member::Text("T".to_string())),
        ("parent_id".to_string(), Member::Null),
    ];
    let message = ProcedureMessage::from_members(&members).unwrap();
    assert_eq!(
        ProcedureMessage {
            procedure_type: "T".to_string(),
            data: "d".to_string(),
            parent_id: None,
        },
        message
    );
    let members = vec![
        ("data".to_string(), Member::Other),
        ("type_name".to_string(), Member::Text("T".to_string())),
    ];
    assert!(ProcedureMessage::from_members(&members).is_none());
}

#[test]
fn written_keys_are_read_by_the_scan() {
    let id = ProcedureId::from_u128(77);
    let record = commit_procedure(id, 12);
    assert_eq!(
        Some(ParsedKey { procedure_id: id, step: 12, is_committed: true }),
        ParsedKey::parse_str(&record.key)
    );
    let record = checkpoint(id, 13, "x");
    assert_eq!(
        Some(ParsedKey { procedure_id: id, step: 13, is_committed: false }),
        ParsedKey::parse_str(&record.key)
    );
}

#[test]
fn escapes_in_written_strings() {
    let message = ProcedureMessage {
        procedure_type: "\u{0}\u{1}\u{8}\t\n\u{b}\u{c}\r\u{1f} \u{7f}".to_string(),
        data: "a/b\"c\\d\u{e9}".to_string(),
        parent_id: None,
    };
    let json = message.to_json().unwrap();
    let expected = String::from(r#"{"type_name":"\u0000\u0001\b\t\n\u000b\f\r\u001f "#)
        + "\u{7f}"
        + r#"","data":"a/b\"c\\d"#
        + "\u{e9}"
        + r#"","parent_id":null}"#;
    assert_eq!(expected, json);
    assert_eq!(Some(message), ProcedureMessage::from_json(json.as_bytes()));
}

#[test]
fn three_checkpoints_resume_from_the_last() {
    let id = ProcedureId::from_u128(0xbeef);
    let records = vec![
        checkpoint(id, 0, "step-0"),
        checkpoint(id, 1, "step-1"),
        checkpoint(id, 2, "step-2"),
    ];
    let messages = load_messages(&records);
    assert_eq!(1, messages.len());
    let expect = ProcedureMessage {
        procedure_type: "MockProcedure".to_string(),
        data: "step-2".to_string(),
        parent_id: None,
    };
    assert_eq!(Some(&expect), messages.get(&0xbeef));
}

#[test]
fn finished_procedure_is_left_out_and_running_one_kept() {
    let a = ProcedureId::from_u128(0xa);
    let b = ProcedureId::from_u128(0xb);
    let parent = ProcedureId::from_u128(0xa);
    let records = vec![
        checkpoint(a, 0, "a-0"),
        checkpoint(a, 1, "a-1"),
        commit_procedure(a, 2),
        store_procedure(b, 0, "Child", "b-0".to_string(), Some(parent)).unwrap(),
    ];
    let messages = load_messages(&records);
    assert_eq!(1, messages.len());
    assert!(messages.get(&0xa).is_none());
    let expect = ProcedureMessage {
        procedure_type: "Child".to_string(),
        data: "b-0".to_string(),
        parent_id: Some(parent),
    };
    assert_eq!(Some(&expect), messages.get(&0xb));
}
