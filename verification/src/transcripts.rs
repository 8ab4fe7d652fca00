//! The transcripts repository: saving a meeting with its transcript
//! segments.

use vstd::prelude::*;
use crate::ids::{is_prefixed_id, new_id};
use crate::protocol::{
    handled, lemma_commit_only_after_every_step, next_action_of, step_passed, Action, OnFailure, OnRows,
    Outcome, Script, ScriptStep, Statement,
};
use crate::text::owned;
use crate::time::{resolve_meeting_start_time, start_time, UtcTimestamp};

verus! {

/// The repository of transcripts.
pub struct TranscriptsRepository;

/// `step` inserts the transcript row, with a fresh `transcript-` id, of
/// segment `segment` of meeting `meeting_id`.
pub open spec fn inserts_segment(step: ScriptStep, meeting_id: Seq<char>, segment: int) -> bool {
    step.statement matches Statement::InsertTranscript { transcript_id, meeting_id: m, segment: k }
        && m@ == meeting_id && k == segment && is_prefixed_id(transcript_id@, "transcript-"@)
}

/// `script` saves, in one transaction, the meeting `meeting_id` and then one
/// transcript row, with a fresh `transcript-` id, for each of the `segments`
/// segments in order; any failure rolls the whole transaction back.
pub open spec fn saves_transcript(
    script: Script,
    meeting_id: Seq<char>,
    title: Seq<char>,
    segments: int,
    folder_path: Option<Seq<char>>,
    created_at: UtcTimestamp,
    updated_at: UtcTimestamp,
) -> bool {
    let s = script.steps@;
    &&& script.transactional
    &&& s.len() == segments + 1
    &&& s[0].statement matches Statement::InsertMeeting {
        meeting_id: m,
        title: t,
        created_at: c,
        updated_at: u,
        folder_path: f,
    } && m@ == meeting_id && t@ == title && c == created_at && u == updated_at && f.deep_view()
        == folder_path
    &&& forall|k: int| 1 <= k <= segments ==> inserts_segment(#[trigger] s[k], meeting_id, k - 1)
    &&& forall|k: int| 0 <= k <= segments ==> handled(#[trigger] s[k], OnFailure::Rollback, OnRows::Continue)
}

impl TranscriptsRepository {
    /// The script that saves a new meeting titled `meeting_title`, with
    /// `segment_count` transcript segments, and the meeting's fresh
    /// `meeting-` id. The meeting starts when its recording did (the
    /// `created_at` that the recording wrote into its folder's metadata, when
    /// that parses) or else now, and was last updated now.
    pub fn save_transcript(
        meeting_title: &str,
        segment_count: usize,
        folder_path: Option<String>,
        recorded_created_at: &Option<String>,
        now: UtcTimestamp,
    ) -> (saved: (Script, String))
        ensures
            is_prefixed_id(saved.1@, "meeting-"@),
            saves_transcript(
                saved.0,
                saved.1@,
                meeting_title@,
                segment_count as int,
                folder_path.deep_view(),
                start_time(recorded_created_at.deep_view(), now),
                now,
            ),
    {
        let meeting_id = new_id("meeting-");
        let started_at = resolve_meeting_start_time(recorded_created_at, now);
        let mut steps: Vec<ScriptStep> = Vec::new();
        steps.push(
            ScriptStep {
                statement: Statement::InsertMeeting {
                    meeting_id: meeting_id.clone(),
                    title: owned(meeting_title),
                    created_at: started_at,
                    updated_at: now,
                    folder_path,
                },
                on_failure: OnFailure::Rollback,
                on_rows: OnRows::Continue,
            },
        );
        let mut i: usize = 0;
        while i < segment_count
            invariant
                i <= segment_count,
                steps@.len() == i + 1,
                steps@[0].statement matches Statement::InsertMeeting {
                    meeting_id: m,
                    title: t,
                    created_at: c,
                    updated_at: u,
                    folder_path: f,
                } && m@ == meeting_id@ && t@ == meeting_title@ && c == start_time(
                    recorded_created_at.deep_view(),
                    now,
                ) && u == now && f.deep_view() == folder_path.deep_view(),
                forall|k: int| 1 <= k <= i ==> inserts_segment(#[trigger] steps@[k], meeting_id@, k - 1),
                forall|k: int|
                    0 <= k <= i ==> handled(#[trigger] steps@[k], OnFailure::Rollback, OnRows::Continue),
            decreases segment_count - i,
        {
            steps.push(
                ScriptStep {
                    statement: Statement::InsertTranscript {
                        transcript_id: new_id("transcript-"),
                        meeting_id: meeting_id.clone(),
                        segment: i,
                    },
                    on_failure: OnFailure::Rollback,
                    on_rows: OnRows::Continue,
                },
            );
            i = i + 1;
        }
        (Script { transactional: true, steps }, meeting_id)
    }
}

/// Saving a meeting is all or nothing: the transaction is committed only
/// after the meeting row and the transcript row of every segment were
/// inserted.
pub proof fn lemma_save_is_all_or_nothing(
    script: Script,
    meeting_id: Seq<char>,
    title: Seq<char>,
    segments: int,
    folder_path: Option<Seq<char>>,
    created_at: UtcTimestamp,
    updated_at: UtcTimestamp,
    outcomes: Seq<Outcome>,
)
    requires
        saves_transcript(script, meeting_id, title, segments, folder_path, created_at, updated_at),
        next_action_of(script, outcomes) == Action::Commit,
    ensures
        outcomes.len() == segments + 2,
        forall|k: int| 0 <= k <= segments + 1 ==> #[trigger] outcomes[k] is Succeeded,
{
    lemma_commit_only_after_every_step(script, outcomes);
    assert forall|k: int| 0 <= k <= segments + 1 implies #[trigger] outcomes[k] is Succeeded by {
        if k > 0 {
            assert(step_passed(script, outcomes, k - 1));
        }
    }
}

} // verus!
