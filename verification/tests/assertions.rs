use meetily::assertions::{
    active_no_sleep_assertions, held_assertion_types, owner_process_id, read_assertion,
    AssertionOwnerKey, RawAssertion, RawProcessEntry,
};

fn raw(kind: Option<&str>, level: Option<i32>) -> RawAssertion {
    RawAssertion { assertion_type: kind.map(|k| k.to_string()), level }
}

#[test]
fn only_relevant_held_assertions_count() {
    assert_eq!(read_assertion(&raw(Some("NoIdleSleepAssertion"), Some(255))), Some("NoIdleSleepAssertion".to_string()));
    assert_eq!(read_assertion(&raw(Some("NoDisplaySleepAssertion"), Some(1))), Some("NoDisplaySleepAssertion".to_string()));
    assert_eq!(read_assertion(&raw(Some("NoIdleSleepAssertion"), Some(0))), None);
    assert_eq!(read_assertion(&raw(Some("NoIdleSleepAssertion"), None)), None);
    assert_eq!(read_assertion(&raw(Some("PreventUserIdleSystemSleep"), Some(255))), None);
    assert_eq!(read_assertion(&raw(None, Some(255))), None);
}

#[test]
fn held_types_are_distinct_in_first_appearance_order() {
    let raws = vec![
        raw(Some("NoDisplaySleepAssertion"), Some(255)),
        raw(Some("NoIdleSleepAssertion"), Some(0)),
        raw(Some("NoDisplaySleepAssertion"), Some(255)),
        raw(Some("BackgroundTask"), Some(255)),
        raw(Some("NoIdleSleepAssertion"), Some(255)),
    ];
    assert_eq!(
        held_assertion_types(&raws),
        vec!["NoDisplaySleepAssertion".to_string(), "NoIdleSleepAssertion".to_string()]
    );
}

#[test]
fn owner_keys_give_process_ids() {
    assert_eq!(owner_process_id(&AssertionOwnerKey::Number(Some(412))), Some(412));
    assert_eq!(owner_process_id(&AssertionOwnerKey::Number(None)), None);
    assert_eq!(owner_process_id(&AssertionOwnerKey::Text(Some("733".to_string()))), Some(733));
    assert_eq!(owner_process_id(&AssertionOwnerKey::Text(Some("-12".to_string()))), Some(-12));
    assert_eq!(owner_process_id(&AssertionOwnerKey::Text(Some("pid 7".to_string()))), None);
    assert_eq!(owner_process_id(&AssertionOwnerKey::Text(Some("99999999999".to_string()))), None);
    assert_eq!(owner_process_id(&AssertionOwnerKey::Text(None)), None);
    assert_eq!(owner_process_id(&AssertionOwnerKey::Other), None);
}

#[test]
fn processes_without_held_assertions_are_left_out() {
    let entries = vec![
        RawProcessEntry {
            owner: AssertionOwnerKey::Number(Some(1)),
            assertions: vec![raw(Some("NoIdleSleepAssertion"), Some(255))],
        },
        RawProcessEntry {
            owner: AssertionOwnerKey::Number(Some(2)),
            assertions: vec![raw(Some("NoIdleSleepAssertion"), Some(0))],
        },
        RawProcessEntry {
            owner: AssertionOwnerKey::Other,
            assertions: vec![raw(Some("NoIdleSleepAssertion"), Some(255))],
        },
        RawProcessEntry {
            owner: AssertionOwnerKey::Text(Some("3".to_string())),
            assertions: vec![
                raw(Some("NoDisplaySleepAssertion"), Some(255)),
                raw(Some("NoIdleSleepAssertion"), Some(255)),
            ],
        },
    ];
    let found = active_no_sleep_assertions(&entries);
    assert_eq!(found.len(), 2);
    assert_eq!(found[0].process_id, 1);
    assert_eq!(found[0].assertion_types, vec!["NoIdleSleepAssertion".to_string()]);
    assert_eq!(found[1].process_id, 3);
    assert_eq!(
        found[1].assertion_types,
        vec!["NoDisplaySleepAssertion".to_string(), "NoIdleSleepAssertion".to_string()]
    );
}
