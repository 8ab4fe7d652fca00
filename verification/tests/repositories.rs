use meetily::meetings::MeetingsRepository;
use meetily::protocol::{next_action, Action, Failure, OnFailure, OnRows, Outcome, Reply, Statement};
use meetily::tags::{group_tags_by_meeting, TagInfo, TagsRepository};
use meetily::time::{resolve_meeting_start_time, UtcTimestamp};
use meetily::transcripts::TranscriptsRepository;

fn is_uuid_v4(u: &str) -> bool {
    let chars: Vec<char> = u.chars().collect();
    chars.len() == 36
        && chars.iter().enumerate().all(|(i, c)| {
            if [8, 13, 18, 23].contains(&i) {
                *c == '-'
            } else {
                c.is_ascii_digit() || ('a'..='f').contains(c)
            }
        })
        && chars[14] == '4'
        && "89ab".contains(chars[19])
}

/// Drives a script with the given outcomes and returns every action asked for.
fn run(script: &meetily::protocol::Script, outcomes: &[Outcome]) -> Vec<Action> {
    let mut seen: Vec<Outcome> = Vec::new();
    let mut actions = Vec::new();
    loop {
        let action = next_action(script, &seen);
        actions.push(action);
        if let Action::Finish(_) = action {
            return actions;
        }
        seen.push(outcomes[seen.len()]);
    }
}

#[test]
fn blank_meeting_ids_are_rejected_before_any_database_work() {
    assert_eq!(MeetingsRepository::delete_meeting("   ").err(), Some(Failure::EmptyMeetingId));
    assert_eq!(MeetingsRepository::get_meeting("").err(), Some(Failure::EmptyMeetingId));
    assert_eq!(MeetingsRepository::get_meeting_metadata("\t").err(), Some(Failure::EmptyMeetingId));
    assert_eq!(
        MeetingsRepository::get_meeting_transcripts_paginated(" ", 10, 0).err(),
        Some(Failure::EmptyMeetingId)
    );
    assert_eq!(MeetingsRepository::update_meeting_title("", "x").err(), Some(Failure::EmptyMeetingId));
}

#[test]
fn meeting_deletion_clears_dependents_before_the_meeting() {
    let script = MeetingsRepository::delete_meeting("meeting-1").unwrap();
    assert!(script.transactional);
    let kinds: Vec<&str> = script
        .steps
        .iter()
        .map(|s| match &s.statement {
            Statement::MeetingExists { .. } => "exists",
            Statement::DeleteTranscriptChunks { .. } => "chunks",
            Statement::DeleteSummaryProcesses { .. } => "summaries",
            Statement::DeleteTranscripts { .. } => "transcripts",
            Statement::DeleteMeetingTags { .. } => "tags",
            Statement::DeleteMeeting { .. } => "meeting",
            _ => "other",
        })
        .collect();
    assert_eq!(kinds, vec!["exists", "chunks", "summaries", "transcripts", "tags", "meeting"]);
    let all_ok = [
        Outcome::Succeeded(0),
        Outcome::Succeeded(1),
        Outcome::Succeeded(3),
        Outcome::Succeeded(1),
        Outcome::Succeeded(12),
        Outcome::Succeeded(2),
        Outcome::Succeeded(1),
        Outcome::Succeeded(0),
    ];
    assert_eq!(
        run(&script, &all_ok),
        vec![
            Action::Begin,
            Action::Run(0),
            Action::Run(1),
            Action::Run(2),
            Action::Run(3),
            Action::Run(4),
            Action::Run(5),
            Action::Commit,
            Action::Finish(Reply::Success),
        ]
    );
}

#[test]
fn deleting_a_missing_meeting_rolls_back_and_declines() {
    let script = MeetingsRepository::delete_meeting("meeting-404").unwrap();
    let outcomes = [Outcome::Succeeded(0), Outcome::Succeeded(0), Outcome::Succeeded(0)];
    assert_eq!(
        run(&script, &outcomes),
        vec![Action::Begin, Action::Run(0), Action::Rollback, Action::Finish(Reply::Declined)]
    );
}

#[test]
fn failed_delete_rolls_back_quietly_and_reports_its_error() {
    let script = MeetingsRepository::delete_meeting("meeting-1").unwrap();
    let outcomes = [
        Outcome::Succeeded(0),
        Outcome::Succeeded(1),
        Outcome::Succeeded(0),
        Outcome::Failed,
        Outcome::Failed,
    ];
    assert_eq!(
        run(&script, &outcomes),
        vec![
            Action::Begin,
            Action::Run(0),
            Action::Run(1),
            Action::Run(2),
            Action::Rollback,
            Action::Finish(Reply::Fail(Failure::Database(3))),
        ]
    );
}

#[test]
fn failed_begin_and_failed_commit_are_reported() {
    let script = MeetingsRepository::update_meeting_name("meeting-1", "New");
    assert_eq!(run(&script, &[Outcome::Failed]), vec![Action::Begin, Action::Finish(Reply::Fail(Failure::Database(0)))]);
    let outcomes = [Outcome::Succeeded(0), Outcome::Succeeded(1), Outcome::Succeeded(4), Outcome::Failed];
    assert_eq!(
        run(&script, &outcomes),
        vec![
            Action::Begin,
            Action::Run(0),
            Action::Run(1),
            Action::Commit,
            Action::Finish(Reply::Fail(Failure::Database(3))),
        ]
    );
}

#[test]
fn retitling_a_missing_meeting_declines() {
    let script = MeetingsRepository::update_meeting_title("meeting-1", "Renamed").unwrap();
    match &script.steps[0].statement {
        Statement::UpdateMeetingTitle { meeting_id, title } => {
            assert_eq!(meeting_id, "meeting-1");
            assert_eq!(title, "Renamed");
        }
        _ => panic!("unexpected statement"),
    }
    let outcomes = [Outcome::Succeeded(0), Outcome::Succeeded(0), Outcome::Failed];
    assert_eq!(
        run(&script, &outcomes),
        vec![Action::Begin, Action::Run(0), Action::Rollback, Action::Finish(Reply::Fail(Failure::Database(2)))]
    );
}

#[test]
fn reading_a_missing_meeting_fails_with_row_not_found() {
    let script = MeetingsRepository::get_meeting("meeting-9").unwrap();
    let outcomes = [Outcome::Succeeded(0), Outcome::Succeeded(0), Outcome::Succeeded(0)];
    assert_eq!(
        run(&script, &outcomes),
        vec![
            Action::Begin,
            Action::Run(0),
            Action::Rollback,
            Action::Finish(Reply::Fail(Failure::RowNotFound)),
        ]
    );
    let page = MeetingsRepository::get_meeting_transcripts_paginated("meeting-9", 50, 100).unwrap();
    assert!(!page.transactional);
    match &page.steps[1].statement {
        Statement::SelectTranscriptPage { meeting_id, limit, offset } => {
            assert_eq!(meeting_id, "meeting-9");
            assert_eq!((*limit, *offset), (50, 100));
        }
        _ => panic!("unexpected statement"),
    }
    assert_eq!(
        run(&page, &[Outcome::Succeeded(1), Outcome::Failed]),
        vec![Action::Run(0), Action::Run(1), Action::Finish(Reply::Fail(Failure::Database(1)))]
    );
}

#[test]
fn creating_a_tag_that_exists_inserts_nothing() {
    let (script, tag) = TagsRepository::create_tag("Q3 Planning", Some("#ff0000".to_string()));
    assert!(tag.id.starts_with("tag-"));
    assert!(is_uuid_v4(&tag.id["tag-".len()..]));
    assert_eq!(tag.name, "Q3 Planning");
    assert_eq!(tag.color.as_deref(), Some("#ff0000"));
    assert_eq!(run(&script, &[Outcome::Succeeded(1)]), vec![Action::Run(0), Action::Finish(Reply::Declined)]);
    assert_eq!(
        run(&script, &[Outcome::Succeeded(0), Outcome::Succeeded(1)]),
        vec![Action::Run(0), Action::Run(1), Action::Finish(Reply::Success)]
    );
    let (_, other) = TagsRepository::create_tag("Q3 Planning", None);
    assert_ne!(other.id, tag.id);
}

#[test]
fn deleting_a_tag_removes_assignments_first() {
    let script = TagsRepository::delete_tag("tag-1");
    assert!(matches!(&script.steps[0].statement, Statement::DeleteTagAssignments { tag_id } if tag_id == "tag-1"));
    assert!(matches!(&script.steps[1].statement, Statement::DeleteTag { tag_id } if tag_id == "tag-1"));
    assert_eq!(script.steps[0].on_failure, OnFailure::Abandon);
    assert_eq!(script.steps[1].on_rows, OnRows::Continue);
    assert_eq!(
        run(&script, &[Outcome::Succeeded(0), Outcome::Failed]),
        vec![Action::Begin, Action::Run(0), Action::Finish(Reply::Fail(Failure::Database(1)))]
    );
}

#[test]
fn saving_a_transcript_inserts_the_meeting_then_each_segment() {
    let now = UtcTimestamp { seconds: 1_700_000_000, nanos: 5 };
    let recorded = Some("2024-01-02T03:04:05Z".to_string());
    let (script, meeting_id) =
        TranscriptsRepository::save_transcript("Weekly", 2, Some("/tmp/m".to_string()), &recorded, now);
    assert!(meeting_id.starts_with("meeting-"));
    assert!(is_uuid_v4(&meeting_id["meeting-".len()..]));
    assert_eq!(script.steps.len(), 3);
    match &script.steps[0].statement {
        Statement::InsertMeeting { meeting_id: m, title, created_at, updated_at, folder_path } => {
            assert_eq!(m, &meeting_id);
            assert_eq!(title, "Weekly");
            assert_eq!(*created_at, UtcTimestamp { seconds: 1_704_164_645, nanos: 0 });
            assert_eq!(*updated_at, now);
            assert_eq!(folder_path.as_deref(), Some("/tmp/m"));
        }
        _ => panic!("unexpected statement"),
    }
    for k in 1..3 {
        match &script.steps[k].statement {
            Statement::InsertTranscript { transcript_id, meeting_id: m, segment } => {
                assert!(transcript_id.starts_with("transcript-"));
                assert_eq!(m, &meeting_id);
                assert_eq!(*segment, k - 1);
            }
            _ => panic!("unexpected statement"),
        }
        assert_eq!(script.steps[k].on_failure, OnFailure::Rollback);
    }
    let failing = [Outcome::Succeeded(0), Outcome::Succeeded(1), Outcome::Failed, Outcome::Succeeded(0)];
    assert_eq!(
        run(&script, &failing),
        vec![
            Action::Begin,
            Action::Run(0),
            Action::Run(1),
            Action::Rollback,
            Action::Finish(Reply::Fail(Failure::Database(2))),
        ]
    );
    let rollback_fails = [Outcome::Succeeded(0), Outcome::Failed, Outcome::Failed];
    assert_eq!(
        run(&script, &rollback_fails),
        vec![Action::Begin, Action::Run(0), Action::Rollback, Action::Finish(Reply::Fail(Failure::Database(2)))]
    );
}

#[test]
fn start_time_falls_back_to_now() {
    let now = UtcTimestamp { seconds: 1_700_000_000, nanos: 7 };
    assert_eq!(resolve_meeting_start_time(&None, now), now);
    assert_eq!(resolve_meeting_start_time(&Some("yesterday".to_string()), now), now);
    assert_eq!(
        resolve_meeting_start_time(&Some("2024-01-02T05:04:05.25+02:00".to_string()), now),
        UtcTimestamp { seconds: 1_704_164_645, nanos: 250_000_000 }
    );
}

#[test]
fn tags_are_grouped_by_meeting_in_row_order() {
    let tag = |id: &str, name: &str| TagInfo { id: id.to_string(), name: name.to_string(), color: None };
    let rows = vec![
        ("m1".to_string(), tag("t1", "Alpha")),
        ("m2".to_string(), tag("t1", "Alpha")),
        ("m1".to_string(), tag("t2", "Beta")),
        ("m3".to_string(), tag("t3", "Gamma")),
    ];
    let groups = group_tags_by_meeting(rows);
    assert_eq!(groups.len(), 3);
    let find = |key: &str| groups.iter().find(|(k, _)| k == key).map(|(_, tags)| tags.iter().map(|t| t.id.clone()).collect::<Vec<_>>());
    assert_eq!(find("m1"), Some(vec!["t1".to_string(), "t2".to_string()]));
    assert_eq!(find("m2"), Some(vec!["t1".to_string()]));
    assert_eq!(find("m3"), Some(vec!["t3".to_string()]));
    assert!(group_tags_by_meeting(vec![]).is_empty());
}
