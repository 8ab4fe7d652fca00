use meetily::detection::{
    advance_state, DetectionState, MeetingDetectionEvent, MeetingDetectionManager, Observation,
    Transition, END_CONFIRMATION_NANOS, START_CONFIRMATION_NANOS,
};

const SECOND: u64 = 1_000_000_000;

fn observation(pid: i32) -> Observation {
    Observation {
        process_id: pid,
        assertion_types: vec!["NoIdleSleepAssertion".into()],
    }
}

#[test]
fn requires_stable_signal_before_starting() {
    let start = 100 * SECOND;
    let mut state = DetectionState::Inactive;
    assert_eq!(advance_state(&mut state, Some(observation(1)), start), None);
    assert_eq!(
        advance_state(&mut state, Some(observation(1)), start + START_CONFIRMATION_NANOS),
        Some(Transition::Started)
    );
}

#[test]
fn transient_end_does_not_stop_meeting() {
    let start = 100 * SECOND;
    let mut state = DetectionState::Active {
        observation: observation(1),
    };
    assert_eq!(advance_state(&mut state, None, start), None);
    assert_eq!(
        advance_state(&mut state, Some(observation(2)), start + 5 * SECOND),
        None
    );
    assert!(matches!(state, DetectionState::Active { .. }));
}

#[test]
fn requires_stable_absence_before_ending() {
    let start = 100 * SECOND;
    let mut state = DetectionState::Active {
        observation: observation(1),
    };
    assert_eq!(advance_state(&mut state, None, start), None);
    assert_eq!(
        advance_state(&mut state, None, start + END_CONFIRMATION_NANOS),
        Some(Transition::Ended)
    );
}

#[test]
fn start_is_not_confirmed_one_nanosecond_early() {
    let start = 100 * SECOND;
    let mut state = DetectionState::Inactive;
    assert_eq!(advance_state(&mut state, Some(observation(1)), start), None);
    assert_eq!(
        advance_state(&mut state, Some(observation(1)), start + START_CONFIRMATION_NANOS - 1),
        None
    );
    assert!(matches!(state, DetectionState::CandidateActive { since, .. } if since == start));
}

#[test]
fn gap_in_presence_restarts_confirmation() {
    let start = 100 * SECOND;
    let mut state = DetectionState::Inactive;
    assert_eq!(advance_state(&mut state, Some(observation(1)), start), None);
    assert_eq!(advance_state(&mut state, None, start + 2 * SECOND), None);
    assert!(matches!(state, DetectionState::Inactive));
    assert_eq!(advance_state(&mut state, Some(observation(1)), start + 4 * SECOND), None);
    assert_eq!(
        advance_state(&mut state, Some(observation(1)), start + 8 * SECOND),
        None
    );
    assert_eq!(
        advance_state(&mut state, Some(observation(1)), start + 10 * SECOND),
        Some(Transition::Started)
    );
}

#[test]
fn clock_going_backwards_counts_as_no_time() {
    let start = 100 * SECOND;
    let mut state = DetectionState::CandidateEnded {
        since: start,
        previous: observation(3),
    };
    assert_eq!(advance_state(&mut state, None, start - 50 * SECOND), None);
    assert!(matches!(state, DetectionState::CandidateEnded { since, .. } if since == start));
}

#[test]
fn latest_observation_is_kept_while_active() {
    let mut state = DetectionState::Active {
        observation: observation(1),
    };
    assert_eq!(advance_state(&mut state, Some(observation(7)), SECOND), None);
    match state {
        DetectionState::Active { observation } => assert_eq!(observation.process_id, 7),
        _ => panic!("expected an active state"),
    }
}

#[test]
fn default_state_is_inactive() {
    assert!(matches!(DetectionState::default(), DetectionState::Inactive));
}

#[test]
fn events_describe_the_meeting() {
    let active = MeetingDetectionEvent::active(&observation(42));
    assert_eq!(active.provider, "microsoft-teams");
    assert!(active.active);
    assert_eq!(active.process_id, Some(42));
    assert_eq!(active.assertion_types, vec!["NoIdleSleepAssertion".to_string()]);

    let inactive = MeetingDetectionEvent::inactive();
    assert_eq!(inactive.provider, "microsoft-teams");
    assert!(!inactive.active);
    assert_eq!(inactive.process_id, None);
    assert!(inactive.assertion_types.is_empty());
}

#[test]
fn manager_publishes_start_and_end_once() {
    let mut manager = MeetingDetectionManager::new(true);
    assert!(manager.is_enabled());
    let t0 = 10 * SECOND;
    assert!(manager.observe(Some(observation(5)), t0).is_none());
    assert!(!manager.snapshot().active);
    let started = manager.observe(Some(observation(5)), t0 + 6 * SECOND).unwrap();
    assert!(started.active);
    assert_eq!(started.process_id, Some(5));
    assert!(manager.observe(Some(observation(5)), t0 + 8 * SECOND).is_none());
    assert!(manager.observe(None, t0 + 10 * SECOND).is_none());
    // The meeting is still shown while its end is unconfirmed.
    let shown = manager.snapshot();
    assert!(shown.active);
    assert_eq!(shown.process_id, Some(5));
    let ended = manager.observe(None, t0 + 25 * SECOND).unwrap();
    assert!(!ended.active);
    assert_eq!(ended.process_id, None);
    assert!(!manager.snapshot().active);
}

#[test]
fn disabling_forgets_the_meeting_and_ignores_polls() {
    let mut manager = MeetingDetectionManager::new(true);
    manager.observe(Some(observation(5)), 0);
    manager.observe(Some(observation(5)), 6 * SECOND);
    assert!(manager.snapshot().active);
    manager.set_enabled(false);
    assert!(!manager.is_enabled());
    assert!(!manager.snapshot().active);
    assert!(manager.observe(Some(observation(5)), 7 * SECOND).is_none());
    assert!(manager.observe(Some(observation(5)), 20 * SECOND).is_none());
    manager.set_enabled(true);
    assert!(!manager.snapshot().active);
    // Detection starts over: a fresh confirmation period is needed.
    assert!(manager.observe(Some(observation(5)), 21 * SECOND).is_none());
    assert!(manager.observe(Some(observation(5)), 22 * SECOND).is_none());
}

#[test]
fn disabled_manager_shows_no_meeting() {
    let manager = MeetingDetectionManager::new(false);
    let shown = manager.snapshot();
    assert!(!shown.active);
    assert_eq!(shown.provider, "microsoft-teams");
}
