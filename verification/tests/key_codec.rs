use procedure_store::key::ParsedKey;
use procedure_store::procedure_id::ProcedureId;

fn sample_id() -> ProcedureId {
    ProcedureId::parse_str("9f805a1f-05f7-490c-9f91-bd56e3cc54c1").unwrap()
}

#[test]
fn test_parsed_key() {
    let procedure_id = sample_id();
    let key = ParsedKey {
        procedure_id,
        step: 2,
        is_committed: false,
    };
    assert_eq!(
        format!("{}/0000000002.step", procedure_id.to_string()),
        key.to_string()
    );
    assert_eq!(key, ParsedKey::parse_str(&key.to_string()).unwrap());

    let key = ParsedKey {
        procedure_id,
        step: 2,
        is_committed: true,
    };
    assert_eq!(
        format!("{}/0000000002.commit", procedure_id.to_string()),
        key.to_string()
    );
    assert_eq!(key, ParsedKey::parse_str(&key.to_string()).unwrap());
}

#[test]
fn test_parse_invalid_key() {
    assert!(ParsedKey::parse_str("").is_none());

    let procedure_id = sample_id().to_string();
    let input = format!("{procedure_id}");
    assert!(ParsedKey::parse_str(&input).is_none());

    let input = format!("{procedure_id}/");
    assert!(ParsedKey::parse_str(&input).is_none());

    let input = format!("{procedure_id}/0000000003");
    assert!(ParsedKey::parse_str(&input).is_none());

    let input = format!("{procedure_id}/0000000003.");
    assert!(ParsedKey::parse_str(&input).is_none());

    let input = format!("{procedure_id}/0000000003.other");
    assert!(ParsedKey::parse_str(&input).is_none());

    assert!(ParsedKey::parse_str("12345/0000000003.step").is_none());

    let input = format!("{procedure_id}-0000000003.commit");
    assert!(ParsedKey::parse_str(&input).is_none());
}

#[test]
fn id_text_is_hyphenated_lower_case_hex() {
    let id = ProcedureId::from_u128(0x9f805a1f_05f7_490c_9f91_bd56e3cc54c1);
    assert_eq!("9f805a1f-05f7-490c-9f91-bd56e3cc54c1", id.to_string());
    assert_eq!(
        "00000000-0000-0000-0000-000000000000",
        ProcedureId::from_u128(0).to_string()
    );
    assert_eq!(
        "ffffffff-ffff-ffff-ffff-ffffffffffff",
        ProcedureId::from_u128(u128::MAX).to_string()
    );
}

#[test]
fn id_round_trips() {
    for bits in [0u128, 1, 0xabcdef, u128::MAX, 1u128 << 127, 0x0123456789abcdef_fedcba9876543210] {
        let id = ProcedureId::from_u128(bits);
        assert_eq!(Some(id), ProcedureId::parse_str(&id.to_string()));
        assert_eq!(bits, id.as_u128());
    }
}

#[test]
fn id_accepts_upper_case_digits() {
    let id = ProcedureId::parse_str("9F805A1F-05F7-490C-9F91-BD56E3CC54C1").unwrap();
    assert_eq!(sample_id(), id);
}

#[test]
fn id_rejects_malformed_text() {
    assert!(ProcedureId::parse_str("").is_none());
    assert!(ProcedureId::parse_str("12345").is_none());
    assert!(ProcedureId::parse_str("9f805a1f05f7490c9f91bd56e3cc54c1").is_none());
    assert!(ProcedureId::parse_str("9f805a1f-05f7-490c-9f91-bd56e3cc54c").is_none());
    assert!(ProcedureId::parse_str("9f805a1f-05f7-490c-9f91-bd56e3cc54c1a").is_none());
    assert!(ProcedureId::parse_str("9f805a1f-05f7-490c-9f91-bd56e3cc54cg").is_none());
    assert!(ProcedureId::parse_str("9f805a1f+05f7-490c-9f91-bd56e3cc54c1").is_none());
    assert!(ProcedureId::parse_str("9f805a1f-05f7-490c-9f91-bd56e3cc54c\u{e9}").is_none());
    assert!(ProcedureId::parse_str("\u{ff19}f805a1f-05f7-490c-9f91-bd56e3cc54c1").is_none());
}

#[test]
fn key_round_trips_at_the_edges() {
    for bits in [0u128, 7, u128::MAX] {
        for step in [0u32, 1, 9, 10, 999_999_999, 1_000_000_000, u32::MAX] {
            for is_committed in [false, true] {
                let key = ParsedKey {
                    procedure_id: ProcedureId::from_u128(bits),
                    step,
                    is_committed,
                };
                assert_eq!(Some(key), ParsedKey::parse_str(&key.to_string()));
            }
        }
    }
}

#[test]
fn step_is_ten_digits_wide() {
    let procedure_id = ProcedureId::from_u128(1);
    let key = ParsedKey {
        procedure_id,
        step: u32::MAX,
        is_committed: false,
    };
    assert_eq!(
        "00000000-0000-0000-0000-000000000001/4294967295.step",
        key.to_string()
    );
    let key = ParsedKey {
        procedure_id,
        step: 0,
        is_committed: true,
    };
    assert_eq!(
        "00000000-0000-0000-0000-000000000001/0000000000.commit",
        key.to_string()
    );
}

#[test]
fn key_text_sorts_as_steps_do() {
    let procedure_id = ProcedureId::from_u128(42);
    let steps = [0u32, 1, 2, 9, 10, 11, 99, 100, 65_535, 1_000_000_000, u32::MAX];
    for a in steps {
        for b in steps {
            let ka = ParsedKey { procedure_id, step: a, is_committed: false }.to_string();
            let kb = ParsedKey { procedure_id, step: b, is_committed: false }.to_string();
            assert_eq!(a < b, ka < kb);
        }
    }
}

#[test]
fn step_spellings() {
    let id = sample_id().to_string();
    let parsed = ParsedKey::parse_str(&format!("{id}/7.step")).unwrap();
    assert_eq!(7, parsed.step);
    let parsed = ParsedKey::parse_str(&format!("{id}/+7.commit")).unwrap();
    assert_eq!(7, parsed.step);
    assert!(parsed.is_committed);
    let parsed = ParsedKey::parse_str(&format!("{id}/000000000000000000004294967295.step")).unwrap();
    assert_eq!(u32::MAX, parsed.step);
    assert!(ParsedKey::parse_str(&format!("{id}/4294967296.step")).is_none());
    assert!(ParsedKey::parse_str(&format!("{id}/99999999999999999999999999999999999999999.step")).is_none());
    assert!(ParsedKey::parse_str(&format!("{id}/.step")).is_none());
    assert!(ParsedKey::parse_str(&format!("{id}/+.step")).is_none());
    assert!(ParsedKey::parse_str(&format!("{id}/-1.step")).is_none());
    assert!(ParsedKey::parse_str(&format!("{id}/1a.step")).is_none());
    assert!(ParsedKey::parse_str(&format!("{id}/ 1.step")).is_none());
}

#[test]
fn name_has_exactly_two_parts() {
    let id = sample_id().to_string();
    assert!(ParsedKey::parse_str(&format!("{id}/0000000003.step.bak")).is_none());
    assert!(ParsedKey::parse_str(&format!("{id}/0000000003..step")).is_none());
    assert!(ParsedKey::parse_str(&format!("{id}/0000000003.STEP")).is_none());
    assert!(ParsedKey::parse_str(&format!("{id}/0000000003.steps")).is_none());
    assert!(ParsedKey::parse_str(&format!("{id}/0000000003.commi")).is_none());
}

#[test]
fn text_before_the_separator_is_the_identifier() {
    let id = sample_id().to_string();
    assert!(ParsedKey::parse_str(&format!("/{id}/0000000003.step")).is_none());
    assert!(ParsedKey::parse_str(&format!("procedures/{id}/0000000003.step")).is_none());
    assert!(ParsedKey::parse_str(&format!("{id}/0000000003.step/")).is_none());
    assert!(ParsedKey::parse_str(&format!("{id}//0000000003.step")).is_none());
    assert!(ParsedKey::parse_str(&format!("{id}/0000000003.st\u{e9}p")).is_none());
}

#[test]
fn key_text_sorts_as_identifiers_do() {
    let ids = [0u128, 1, 0xf, 0x10, 0xffff_ffff, 1 << 32, 1 << 95, 1 << 96, u128::MAX - 1, u128::MAX];
    for a in ids {
        for b in ids {
            let ka = ParsedKey {
                procedure_id: ProcedureId::from_u128(a),
                step: 7,
                is_committed: true,
            }
            .to_string();
            let kb = ParsedKey {
                procedure_id: ProcedureId::from_u128(b),
                step: 3,
                is_committed: false,
            }
            .to_string();
            if a != b {
                assert_eq!(a < b, ka < kb);
            }
        }
    }
}
