use meetily::search::TranscriptSearchResult;
use meetily::transcripts::TranscriptsRepository;

#[test]
fn short_transcript_is_shown_whole_around_the_match() {
    let context = TranscriptsRepository::get_match_context("We agreed on the Budget today", "budget");
    assert_eq!(context, "We agreed on the Budget today");
}

#[test]
fn long_transcript_is_cut_with_ellipses() {
    let before = "a".repeat(150);
    let after = "b".repeat(150);
    let transcript = format!("{}needle{}", before, after);
    let context = TranscriptsRepository::get_match_context(&transcript, "NEEDLE");
    let expected = format!("...{}needle{}...", "a".repeat(100), "b".repeat(100));
    assert_eq!(context, expected);
}

#[test]
fn match_near_the_end_has_no_trailing_ellipsis() {
    let transcript = format!("{}end", "x".repeat(120));
    let context = TranscriptsRepository::get_match_context(&transcript, "end");
    assert_eq!(context, format!("...{}end", "x".repeat(100)));
}

#[test]
fn without_a_match_the_first_200_characters_are_shown() {
    let transcript = "é".repeat(250);
    let context = TranscriptsRepository::get_match_context(&transcript, "zzz");
    assert_eq!(context, "é".repeat(200));
    assert_eq!(TranscriptsRepository::get_match_context("short", "zzz"), "short");
}

#[test]
fn window_off_a_character_boundary_is_refused() {
    // 'İ' takes two bytes but its lowercase form takes three, so the match
    // position found in the lowercase text falls inside a character here.
    let transcript = format!("{}x", "İ".repeat(61));
    assert_eq!(TranscriptsRepository::checked_match_context(&transcript, "x"), None);
    let fine = format!("{}x", "İ".repeat(60));
    assert!(TranscriptsRepository::checked_match_context(&fine, "x").is_some());
}

#[test]
fn blank_queries_search_nothing() {
    assert_eq!(TranscriptsRepository::search_pattern("  \t\n"), None);
    assert_eq!(TranscriptsRepository::search_pattern(""), None);
    assert_eq!(TranscriptsRepository::search_pattern("Roadmap Q3"), Some("%roadmap q3%".to_string()));
}

#[test]
fn search_results_keep_row_order_and_fields() {
    let rows = vec![
        (
            "meeting-1".to_string(),
            "Sync".to_string(),
            "we discussed the launch".to_string(),
            "00:01:00".to_string(),
        ),
        (
            "meeting-2".to_string(),
            "Retro".to_string(),
            "Launch went well".to_string(),
            "00:02:00".to_string(),
        ),
    ];
    let results: Vec<TranscriptSearchResult> =
        TranscriptsRepository::search_results(&rows, "launch").unwrap();
    assert_eq!(results.len(), 2);
    assert_eq!(results[0].id, "meeting-1");
    assert_eq!(results[0].title, "Sync");
    assert_eq!(results[0].match_context, "we discussed the launch");
    assert_eq!(results[0].timestamp, "00:01:00");
    assert_eq!(results[1].id, "meeting-2");
    assert_eq!(results[1].match_context, "Launch went well");

    let bad = vec![(
        "meeting-3".to_string(),
        "Odd".to_string(),
        format!("{}x", "İ".repeat(61)),
        "00:00:00".to_string(),
    )];
    assert!(TranscriptsRepository::search_results(&bad, "x").is_none());
}

#[test]
fn ascii_snippet_is_cut_at_the_match_positions() {
    let transcript = format!("{}Quarterly PLAN review{}", "x".repeat(130), "y".repeat(130));
    let context = TranscriptsRepository::get_match_context(&transcript, "plan");
    let start = 130 + "Quarterly ".len() - 100;
    let end = 130 + "Quarterly ".len() + 4 + 100;
    assert_eq!(context, format!("...{}...", &transcript[start..end]));
}
