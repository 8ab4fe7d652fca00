//! The debounced detector that decides when a Teams meeting has started or
//! ended, from a stream of polled observations.

use vstd::prelude::*;

verus! {

/// Presence must be observed for this long (in nanoseconds) before a meeting
/// is reported as started.
pub const START_CONFIRMATION_NANOS: u64 = 6_000_000_000;

/// Absence must be observed for this long (in nanoseconds) before a meeting
/// is reported as ended.
pub const END_CONFIRMATION_NANOS: u64 = 15_000_000_000;

/// How often (in nanoseconds) the platform is polled.
pub const POLL_INTERVAL_NANOS: u64 = 2_000_000_000;

/// One poll that found a process holding a meeting-like power assertion.
#[derive(Debug, Clone)]
pub struct Observation {
    pub process_id: i32,
    pub assertion_types: Vec<String>,
}

/// The detector's state. Times are readings of a monotonic clock in
/// nanoseconds.
#[derive(Debug)]
pub enum DetectionState {
    Inactive,
    CandidateActive { since: u64, observation: Observation },
    Active { observation: Observation },
    CandidateEnded { since: u64, previous: Observation },
}

impl Default for DetectionState {
    fn default() -> (s: Self)
        ensures
            s is Inactive,
    {
        DetectionState::Inactive
    }
}

/// A confirmed change of the meeting's status.
#[derive(Debug, Clone, Copy, PartialEq, Eq, Structural)]
pub enum Transition {
    Started,
    Ended,
}

/// Time elapsed from `since` to `now`; zero when the clock reading `now` is
/// not later than `since`.
pub open spec fn elapsed(since: u64, now: u64) -> int {
    if now >= since {
        now - since
    } else {
        0
    }
}

/// The transition table of the detector: the next state, and the change that
/// is reported, after polling at time `now` found `observation`.
pub open spec fn step(state: DetectionState, observation: Option<Observation>, now: u64) -> (
    DetectionState,
    Option<Transition>,
) {
    match observation {
        Some(obs) => match state {
            DetectionState::Inactive => (
                DetectionState::CandidateActive { since: now, observation: obs },
                None,
            ),
            DetectionState::CandidateActive { since, .. } => {
                if elapsed(since, now) >= START_CONFIRMATION_NANOS {
                    (DetectionState::Active { observation: obs }, Some(Transition::Started))
                } else {
                    (DetectionState::CandidateActive { since, observation: obs }, None)
                }
            },
            DetectionState::Active { .. } => (DetectionState::Active { observation: obs }, None),
            DetectionState::CandidateEnded { .. } => (
                DetectionState::Active { observation: obs },
                None,
            ),
        },
        None => match state {
            DetectionState::Inactive => (DetectionState::Inactive, None),
            DetectionState::CandidateActive { .. } => (DetectionState::Inactive, None),
            DetectionState::Active { observation } => (
                DetectionState::CandidateEnded { since: now, previous: observation },
                None,
            ),
            DetectionState::CandidateEnded { since, previous } => {
                if elapsed(since, now) >= END_CONFIRMATION_NANOS {
                    (DetectionState::Inactive, Some(Transition::Ended))
                } else {
                    (DetectionState::CandidateEnded { since, previous }, None)
                }
            },
        },
    }
}

/// Advances the detector by one poll made at time `now`, and returns the
/// confirmed change, if any.
pub fn advance_state(
    state: &mut DetectionState,
    observation: Option<Observation>,
    now: u64,
) -> (transition: Option<Transition>)
    ensures
        (*final(state), transition) == step(*old(state), observation, now),
        observation matches Some(obs) ==> !(*final(state) is Inactive) && current_observation(
            *final(state),
        ) == obs,
{
    proof {
        if observation is Some {
            lemma_poll_keeps_latest_observation(*old(state), observation->0, now);
        }
    }
    let mut current = DetectionState::Inactive;
    std::mem::swap(&mut current, state);
    match observation {
        Some(obs) => match current {
            DetectionState::Inactive => {
                *state = DetectionState::CandidateActive { since: now, observation: obs };
                None
            },
            DetectionState::CandidateActive { since, .. } => {
                if now.saturating_sub(since) >= START_CONFIRMATION_NANOS {
                    *state = DetectionState::Active { observation: obs };
                    Some(Transition::Started)
                } else {
                    *state = DetectionState::CandidateActive { since, observation: obs };
                    None
                }
            },
            DetectionState::Active { .. } => {
                *state = DetectionState::Active { observation: obs };
                None
            },
            DetectionState::CandidateEnded { .. } => {
                *state = DetectionState::Active { observation: obs };
                None
            },
        },
        None => match current {
            DetectionState::Inactive => None,
            DetectionState::CandidateActive { .. } => None,
            DetectionState::Active { observation } => {
                *state = DetectionState::CandidateEnded { since: now, previous: observation };
                None
            },
            DetectionState::CandidateEnded { since, previous } => {
                if now.saturating_sub(since) >= END_CONFIRMATION_NANOS {
                    Some(Transition::Ended)
                } else {
                    *state = DetectionState::CandidateEnded { since, previous };
                    None
                }
            },
        },
    }
}

/// The meeting counts as ongoing in this state (a meeting that is only
/// possibly over is still reported).
pub open spec fn reports_active(state: DetectionState) -> bool {
    state is Active || state is CandidateEnded
}

/// The state after the first `n` polls of `polls`, starting from `start`;
/// each poll is what was observed and the clock reading at which it was made.
pub open spec fn state_after(start: DetectionState, polls: Seq<(Option<Observation>, u64)>, n: int) -> DetectionState
    decreases n,
{
    if n <= 0 {
        start
    } else {
        step(state_after(start, polls, n - 1), polls[n - 1].0, polls[n - 1].1).0
    }
}

/// The change reported by poll `k` of `polls`, starting from `start`.
pub open spec fn reported_at(start: DetectionState, polls: Seq<(Option<Observation>, u64)>, k: int) -> Option<Transition> {
    step(state_after(start, polls, k), polls[k].0, polls[k].1).1
}

/// Every poll reports `Started` exactly when the meeting turns from not
/// ongoing to ongoing, `Ended` exactly when it turns from ongoing to not
/// ongoing, and nothing when that does not change.
pub proof fn lemma_transitions_track_activity(state: DetectionState, observation: Option<Observation>, now: u64)
    ensures
        ({
            let (next, t) = step(state, observation, now);
            &&& (t == Some(Transition::Started) <==> !reports_active(state) && reports_active(next))
            &&& (t == Some(Transition::Ended) <==> reports_active(state) && !reports_active(next))
            &&& (t is None <==> reports_active(state) == reports_active(next))
        }),
{
}

proof fn lemma_candidate_active_provenance(start: DetectionState, polls: Seq<(Option<Observation>, u64)>, n: int)
    requires
        !(start is CandidateActive),
        0 <= n <= polls.len(),
    ensures
        state_after(start, polls, n) is CandidateActive ==> exists|j: int|
            0 <= j < n && #[trigger] polls[j].1 == state_after(start, polls, n)->CandidateActive_since && (forall|i: int|
                j <= i < n ==> (#[trigger] polls[i]).0 is Some),
    decreases n,
{
    if n > 0 {
        lemma_candidate_active_provenance(start, polls, n - 1);
        let prev = state_after(start, polls, n - 1);
        let cur = state_after(start, polls, n);
        if cur is CandidateActive {
            if prev is CandidateActive {
                let j = choose|j: int|
                    0 <= j < n - 1 && #[trigger] polls[j].1 == prev->CandidateActive_since && (forall|i: int|
                        j <= i < n - 1 ==> (#[trigger] polls[i]).0 is Some);
                assert(forall|i: int| j <= i < n ==> (#[trigger] polls[i]).0 is Some);
                assert(polls[j].1 == cur->CandidateActive_since);
            } else {
                assert(polls[n - 1].1 == cur->CandidateActive_since);
                assert(forall|i: int| n - 1 <= i < n ==> (#[trigger] polls[i]).0 is Some);
            }
        }
    }
}

proof fn lemma_candidate_ended_provenance(start: DetectionState, polls: Seq<(Option<Observation>, u64)>, n: int)
    requires
        !(start is CandidateEnded),
        0 <= n <= polls.len(),
    ensures
        state_after(start, polls, n) is CandidateEnded ==> exists|j: int|
            0 <= j < n && #[trigger] polls[j].1 == state_after(start, polls, n)->CandidateEnded_since && (
            forall|i: int| j <= i < n ==> (#[trigger] polls[i]).0 is None),
    decreases n,
{
    if n > 0 {
        lemma_candidate_ended_provenance(start, polls, n - 1);
        let prev = state_after(start, polls, n - 1);
        let cur = state_after(start, polls, n);
        if cur is CandidateEnded {
            if prev is CandidateEnded {
                let j = choose|j: int|
                    0 <= j < n - 1 && #[trigger] polls[j].1 == prev->CandidateEnded_since && (
                    forall|i: int| j <= i < n - 1 ==> (#[trigger] polls[i]).0 is None);
                assert(forall|i: int| j <= i < n ==> (#[trigger] polls[i]).0 is None);
                assert(polls[j].1 == cur->CandidateEnded_since);
            } else {
                assert(polls[n - 1].1 == cur->CandidateEnded_since);
                assert(forall|i: int| n - 1 <= i < n ==> (#[trigger] polls[i]).0 is None);
            }
        }
    }
}

/// A meeting is reported as started only after it has been observed at
/// every poll over a span of at least the start confirmation time: some
/// earlier poll `j` and every poll from `j` to the reporting poll `k` saw it.
pub proof fn lemma_start_requires_stable_presence(
    start: DetectionState,
    polls: Seq<(Option<Observation>, u64)>,
    k: int,
)
    requires
        !(start is CandidateActive),
        0 <= k < polls.len(),
        reported_at(start, polls, k) == Some(Transition::Started),
    ensures
        exists|j: int|
            0 <= j < k && elapsed(#[trigger] polls[j].1, polls[k].1) >= START_CONFIRMATION_NANOS && (
            forall|i: int| j <= i <= k ==> (#[trigger] polls[i]).0 is Some),
{
    lemma_candidate_active_provenance(start, polls, k);
    let prev = state_after(start, polls, k);
    assert(prev is CandidateActive);
    let j = choose|j: int|
        0 <= j < k && #[trigger] polls[j].1 == prev->CandidateActive_since && (forall|i: int|
            j <= i < k ==> (#[trigger] polls[i]).0 is Some);
    assert(forall|i: int| j <= i <= k ==> (#[trigger] polls[i]).0 is Some);
    assert(elapsed(polls[j].1, polls[k].1) >= START_CONFIRMATION_NANOS);
}

/// A meeting is reported as ended only after it has been missing at every
/// poll over a span of at least the end confirmation time: some earlier poll
/// `j` and every poll from `j` to the reporting poll `k` missed it.
pub proof fn lemma_end_requires_stable_absence(
    start: DetectionState,
    polls: Seq<(Option<Observation>, u64)>,
    k: int,
)
    requires
        !(start is CandidateEnded),
        0 <= k < polls.len(),
        reported_at(start, polls, k) == Some(Transition::Ended),
    ensures
        exists|j: int|
            0 <= j < k && elapsed(#[trigger] polls[j].1, polls[k].1) >= END_CONFIRMATION_NANOS && (
            forall|i: int| j <= i <= k ==> (#[trigger] polls[i]).0 is None),
{
    lemma_candidate_ended_provenance(start, polls, k);
    let prev = state_after(start, polls, k);
    assert(prev is CandidateEnded);
    let j = choose|j: int|
        0 <= j < k && #[trigger] polls[j].1 == prev->CandidateEnded_since && (forall|i: int|
            j <= i < k ==> (#[trigger] polls[i]).0 is None);
    assert(forall|i: int| j <= i <= k ==> (#[trigger] polls[i]).0 is None);
    assert(elapsed(polls[j].1, polls[k].1) >= END_CONFIRMATION_NANOS);
}

proof fn lemma_activity_stable_without_transitions(
    start: DetectionState,
    polls: Seq<(Option<Observation>, u64)>,
    a: int,
    b: int,
)
    requires
        0 <= a <= b <= polls.len(),
        forall|i: int| a <= i < b ==> #[trigger] reported_at(start, polls, i) is None,
    ensures
        reports_active(state_after(start, polls, a)) == reports_active(state_after(start, polls, b)),
    decreases b - a,
{
    if a < b {
        lemma_activity_stable_without_transitions(start, polls, a, b - 1);
        assert(reported_at(start, polls, b - 1) is None);
        lemma_transitions_track_activity(state_after(start, polls, b - 1), polls[b - 1].0, polls[b - 1].1);
    }
}

/// Reported changes alternate: two reported changes with none between them
/// are never the same change. Starting from a state where no meeting is
/// ongoing, the first change reported is a start.
pub proof fn lemma_transitions_alternate(
    start: DetectionState,
    polls: Seq<(Option<Observation>, u64)>,
    k: int,
    m: int,
)
    requires
        0 <= k < m < polls.len(),
        reported_at(start, polls, k) is Some,
        reported_at(start, polls, m) is Some,
        forall|i: int| k < i < m ==> #[trigger] reported_at(start, polls, i) is None,
    ensures
        reported_at(start, polls, k) != reported_at(start, polls, m),
{
    lemma_transitions_track_activity(state_after(start, polls, k), polls[k].0, polls[k].1);
    lemma_transitions_track_activity(state_after(start, polls, m), polls[m].0, polls[m].1);
    lemma_activity_stable_without_transitions(start, polls, k + 1, m);
}

/// From a state where no meeting is ongoing, the first change reported is a
/// start.
pub proof fn lemma_first_transition_is_start(
    start: DetectionState,
    polls: Seq<(Option<Observation>, u64)>,
    k: int,
)
    requires
        !reports_active(start),
        0 <= k < polls.len(),
        reported_at(start, polls, k) is Some,
        forall|i: int| 0 <= i < k ==> #[trigger] reported_at(start, polls, i) is None,
    ensures
        reported_at(start, polls, k) == Some(Transition::Started),
{
    lemma_activity_stable_without_transitions(start, polls, 0, k);
    lemma_transitions_track_activity(state_after(start, polls, k), polls[k].0, polls[k].1);
}

/// The observation behind a state in which a meeting is ongoing.
pub open spec fn current_observation(state: DetectionState) -> Observation
    recommends
        reports_active(state),
{
    match state {
        DetectionState::Active { observation } => observation,
        DetectionState::CandidateEnded { previous, .. } => previous,
        DetectionState::CandidateActive { observation, .. } => observation,
        DetectionState::Inactive => arbitrary(),
    }
}

/// A poll that finds a process holding an assertion never leaves the
/// detector idle, and the state it leaves behind holds exactly that latest
/// observation: a meeting that goes on, or resumes after a short absence, is
/// reported with the process and assertions seen last, never older ones.
pub proof fn lemma_poll_keeps_latest_observation(state: DetectionState, obs: Observation, now: u64)
    ensures
        !(step(state, Some(obs), now).0 is Inactive),
        current_observation(step(state, Some(obs), now).0) == obs,
        reports_active(step(state, Some(obs), now).0) ==> current_observation(
            step(state, Some(obs), now).0,
        ) == obs,
{
}

/// What the detector publishes to the user interface.
#[derive(Debug, Clone)]
pub struct MeetingDetectionEvent {
    pub provider: &'static str,
    pub active: bool,
    pub process_id: Option<i32>,
    pub assertion_types: Vec<String>,
}

/// `event` announces an ongoing Teams meeting, as seen in `observation`.
pub open spec fn announces_meeting(event: MeetingDetectionEvent, observation: Observation) -> bool {
    &&& event.provider@ == "microsoft-teams"@
    &&& event.active
    &&& event.process_id == Some(observation.process_id)
    &&& event.assertion_types@ == observation.assertion_types@
}

/// `event` announces that no Teams meeting is ongoing.
pub open spec fn announces_no_meeting(event: MeetingDetectionEvent) -> bool {
    &&& event.provider@ == "microsoft-teams"@
    &&& !event.active
    &&& event.process_id is None
    &&& event.assertion_types@.len() == 0
}

impl MeetingDetectionEvent {
    /// The event for an ongoing meeting seen in `observation`.
    pub fn active(observation: &Observation) -> (event: Self)
        ensures
            announces_meeting(event, *observation),
    {
        let assertion_types = observation.assertion_types.clone();
        proof {
            assert(assertion_types@ =~= observation.assertion_types@);
        }
        MeetingDetectionEvent {
            provider: "microsoft-teams",
            active: true,
            process_id: Some(observation.process_id),
            assertion_types,
        }
    }

    /// The event for no ongoing meeting.
    pub fn inactive() -> (event: Self)
        ensures
            announces_no_meeting(event),
    {
        MeetingDetectionEvent {
            provider: "microsoft-teams",
            active: false,
            process_id: None,
            assertion_types: Vec::new(),
        }
    }
}

/// The detector together with the user's preference to run it.
pub struct MeetingDetectionManager {
    enabled: bool,
    state: DetectionState,
}

impl MeetingDetectionManager {
    /// Whether detection is switched on.
    pub closed spec fn enabled(&self) -> bool {
        self.enabled
    }

    /// The detector's current state.
    pub closed spec fn detection_state(&self) -> DetectionState {
        self.state
    }

    /// `event` is what a snapshot of this manager shows: the ongoing meeting
    /// when detection is on and a meeting is ongoing, no meeting otherwise.
    pub open spec fn shows(&self, event: MeetingDetectionEvent) -> bool {
        if self.enabled() && reports_active(self.detection_state()) {
            announces_meeting(event, current_observation(self.detection_state()))
        } else {
            announces_no_meeting(event)
        }
    }

    /// A manager with detection switched on or off, and no meeting ongoing.
    pub fn new(enabled: bool) -> (manager: Self)
        ensures
            manager.enabled() == enabled,
            manager.detection_state() is Inactive,
    {
        MeetingDetectionManager { enabled, state: DetectionState::Inactive }
    }

    /// Whether detection is switched on.
    pub fn is_enabled(&self) -> (enabled: bool)
        ensures
            enabled == self.enabled(),
    {
        self.enabled
    }

    /// Switches detection on or off; switching it off forgets any meeting in
    /// progress.
    pub fn set_enabled(&mut self, enabled: bool)
        ensures
            final(self).enabled() == enabled,
            final(self).detection_state() == (if enabled {
                old(self).detection_state()
            } else {
                DetectionState::Inactive
            }),
    {
        self.enabled = enabled;
        if !enabled {
            self.state = DetectionState::Inactive;
        }
    }

    /// The current status, as the user interface shows it.
    pub fn snapshot(&self) -> (event: MeetingDetectionEvent)
        ensures
            self.shows(event),
    {
        if !self.enabled {
            return MeetingDetectionEvent::inactive();
        }
        match &self.state {
            DetectionState::Active { observation } => MeetingDetectionEvent::active(observation),
            DetectionState::CandidateEnded { previous, .. } => MeetingDetectionEvent::active(
                previous,
            ),
            DetectionState::Inactive => MeetingDetectionEvent::inactive(),
            DetectionState::CandidateActive { .. } => MeetingDetectionEvent::inactive(),
        }
    }

    /// Feeds one poll, made at time `now`, to the detector, and returns the
    /// event to publish: the meeting when a start is confirmed, no meeting
    /// when an end is confirmed, nothing otherwise. While detection is
    /// switched off the poll is ignored.
    pub fn observe(&mut self, observation: Option<Observation>, now: u64) -> (event: Option<
        MeetingDetectionEvent,
    >)
        ensures
            final(self).enabled() == old(self).enabled(),
            !old(self).enabled() ==> final(self).detection_state() == old(self).detection_state()
                && event is None,
            old(self).enabled() ==> ({
                let (next, transition) = step(old(self).detection_state(), observation, now);
                &&& final(self).detection_state() == next
                &&& match transition {
                    None => event is None,
                    Some(Transition::Started) => event is Some && announces_meeting(
                        event->0,
                        current_observation(next),
                    ),
                    Some(Transition::Ended) => event is Some && announces_no_meeting(event->0),
                }
            }),
            event matches Some(e) ==> final(self).shows(e),
            observation matches Some(obs) ==> (old(self).enabled() ==> current_observation(
                final(self).detection_state(),
            ) == obs && !(final(self).detection_state() is Inactive)),
    {
        proof {
            lemma_transitions_track_activity(old(self).detection_state(), observation, now);
        }
        if !self.enabled {
            return None;
        }
        let transition = advance_state(&mut self.state, observation, now);
        match transition {
            Some(Transition::Started) => match &self.state {
                DetectionState::Active { observation } => Some(
                    MeetingDetectionEvent::active(observation),
                ),
                _ => None,
            },
            Some(Transition::Ended) => Some(MeetingDetectionEvent::inactive()),
            None => None,
        }
    }
}

} // verus!
