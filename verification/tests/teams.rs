use meetily::teams::{
    application_bundles, bundle_identifier, detect_teams_meeting, is_microsoft_teams,
    process_identity, ProcessAssertions, ProcessIdentity, TEAMS_BUNDLE_ID,
};

fn info_plist(bundle_id: &str) -> Option<Vec<u8>> {
    Some(
        format!(
            "<?xml version=\"1.0\" encoding=\"UTF-8\"?>\n<plist version=\"1.0\">\n<dict>\n\t<key>CFBundleName</key>\n\t<string>App</string>\n\t<key>CFBundleIdentifier</key>\n\t<string>{}</string>\n</dict>\n</plist>\n",
            bundle_id
        )
        .into_bytes(),
    )
}

#[test]
fn bundle_identifier_is_read_from_info_plist_bytes() {
    assert_eq!(bundle_identifier(&info_plist(TEAMS_BUNDLE_ID).unwrap()).as_deref(), Some(TEAMS_BUNDLE_ID));
    assert_eq!(bundle_identifier(b"not a property list"), None);
    let without_id = b"<?xml version=\"1.0\"?><plist version=\"1.0\"><dict><key>CFBundleName</key><string>X</string></dict></plist>";
    assert_eq!(bundle_identifier(without_id), None);
    let not_a_string = b"<?xml version=\"1.0\"?><plist version=\"1.0\"><dict><key>CFBundleIdentifier</key><integer>7</integer></dict></plist>";
    assert_eq!(bundle_identifier(not_a_string), None);
}

#[test]
fn exact_bundle_identifier_matches_teams() {
    let identity = ProcessIdentity {
        executable_path: "/Applications/Microsoft Teams.app/Contents/MacOS/MSTeams".to_string(),
        bundle_id: Some(TEAMS_BUNDLE_ID.into()),
        application_name: Some("Microsoft Teams".into()),
    };
    assert!(is_microsoft_teams(&identity));
}

#[test]
fn localized_name_is_only_used_when_bundle_identifier_is_missing() {
    let missing_bundle = ProcessIdentity {
        executable_path: String::new(),
        bundle_id: None,
        application_name: Some("Microsoft Teams".into()),
    };
    assert!(is_microsoft_teams(&missing_bundle));

    let different_bundle = ProcessIdentity {
        executable_path: String::new(),
        bundle_id: Some("com.example.teams-notes".into()),
        application_name: Some("Teams Notes".into()),
    };
    assert!(!is_microsoft_teams(&different_bundle));
}

#[test]
fn name_match_ignores_case_and_needs_a_name() {
    let upper = ProcessIdentity {
        executable_path: String::new(),
        bundle_id: None,
        application_name: Some("MY TEAMS CLIENT".into()),
    };
    assert!(is_microsoft_teams(&upper));
    let other = ProcessIdentity {
        executable_path: String::new(),
        bundle_id: None,
        application_name: Some("Zoom".into()),
    };
    assert!(!is_microsoft_teams(&other));
    let unnamed = ProcessIdentity {
        executable_path: String::new(),
        bundle_id: None,
        application_name: None,
    };
    assert!(!is_microsoft_teams(&unnamed));
}

#[test]
fn bundles_are_listed_innermost_first() {
    let bundles = application_bundles(
        "/Applications/Microsoft Teams.app/Contents/Helpers/Teams Helper.app/Contents/MacOS/helper",
    );
    assert_eq!(
        bundles,
        vec![
            "/Applications/Microsoft Teams.app/Contents/Helpers/Teams Helper.app".to_string(),
            "/Applications/Microsoft Teams.app".to_string(),
        ]
    );
    assert!(application_bundles("/usr/bin/zoom").is_empty());
    assert!(application_bundles("").is_empty());
}

#[test]
fn identity_prefers_the_teams_bundle_identifier() {
    let path = "/Applications/Microsoft Teams.app/Contents/Helpers/Helper.app/Contents/MacOS/x";
    let plists = vec![info_plist("com.microsoft.helper"), info_plist(TEAMS_BUNDLE_ID)];
    let identity = process_identity(path.to_string(), &plists);
    assert_eq!(identity.executable_path, path);
    assert_eq!(identity.bundle_id.as_deref(), Some(TEAMS_BUNDLE_ID));
    assert_eq!(identity.application_name.as_deref(), Some("Microsoft Teams"));
    assert!(is_microsoft_teams(&identity));
}

#[test]
fn identity_falls_back_to_a_bundle_named_teams() {
    let path = "/Applications/Old Teams.app/Contents/MacOS/Teams";
    let identity = process_identity(path.to_string(), &vec![None]);
    assert_eq!(identity.bundle_id, None);
    assert_eq!(identity.application_name.as_deref(), Some("Old Teams"));
    assert!(is_microsoft_teams(&identity));

    let with_other_id = process_identity(path.to_string(), &vec![info_plist("com.old.teams")]);
    assert_eq!(with_other_id.bundle_id.as_deref(), Some("com.old.teams"));
    assert_eq!(with_other_id.application_name.as_deref(), Some("Old Teams"));
    assert!(!is_microsoft_teams(&with_other_id));
}

#[test]
fn identity_of_an_unrelated_process_is_empty() {
    let identity = process_identity("/Applications/Zoom.app/Contents/MacOS/zoom".to_string(), &vec![]);
    assert_eq!(identity.bundle_id, None);
    assert_eq!(identity.application_name, None);
}

#[test]
fn detection_picks_the_first_teams_owner() {
    let assertions = vec![
        ProcessAssertions { process_id: 10, assertion_types: vec!["NoIdleSleepAssertion".into()] },
        ProcessAssertions { process_id: 20, assertion_types: vec!["NoDisplaySleepAssertion".into()] },
        ProcessAssertions { process_id: 30, assertion_types: vec!["NoIdleSleepAssertion".into()] },
    ];
    let zoom = ProcessIdentity {
        executable_path: String::new(),
        bundle_id: Some("us.zoom.xos".into()),
        application_name: Some("zoom.us".into()),
    };
    let teams = ProcessIdentity {
        executable_path: String::new(),
        bundle_id: Some(TEAMS_BUNDLE_ID.into()),
        application_name: Some("Microsoft Teams".into()),
    };
    let owners = vec![Some(zoom.clone()), None, Some(teams.clone())];
    let found = detect_teams_meeting(&assertions, &owners).unwrap();
    assert_eq!(found.process_id, 30);
    assert_eq!(found.assertion_types, vec!["NoIdleSleepAssertion".to_string()]);

    assert!(detect_teams_meeting(&assertions, &vec![Some(zoom)]).is_none());
    assert!(detect_teams_meeting(&vec![], &vec![Some(teams)]).is_none());
}
