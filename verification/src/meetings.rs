//! The meetings repository: the scripts it runs against the database.

use vstd::prelude::*;
use crate::protocol::{
    action_from, handled, next_action_of, lemma_commit_only_after_every_step, step_passed, Action, Failure, OnFailure, OnRows,
    Outcome, Reply, Script, ScriptStep, Statement,
};
use crate::text::{is_blank, is_blank_text, owned};

verus! {

/// The repository of meetings.
pub struct MeetingsRepository;

/// `script` deletes meeting `id` in one transaction: it checks that the
/// meeting exists, deletes its transcript chunks, summary processes,
/// transcripts and tag assignments, then the meeting row. A failure rolls
/// back and reports that failure; a missing meeting, or a meeting row that
/// was not deleted, rolls back and declines.
pub open spec fn deletes_meeting(script: Script, id: Seq<char>) -> bool {
    let s = script.steps@;
    &&& script.transactional
    &&& s.len() == 6
    &&& s[0].statement matches Statement::MeetingExists { meeting_id } && meeting_id@ == id
    &&& s[1].statement matches Statement::DeleteTranscriptChunks { meeting_id } && meeting_id@ == id
    &&& s[2].statement matches Statement::DeleteSummaryProcesses { meeting_id } && meeting_id@ == id
    &&& s[3].statement matches Statement::DeleteTranscripts { meeting_id } && meeting_id@ == id
    &&& s[4].statement matches Statement::DeleteMeetingTags { meeting_id } && meeting_id@ == id
    &&& s[5].statement matches Statement::DeleteMeeting { meeting_id } && meeting_id@ == id
    &&& handled(s[0], OnFailure::RollbackQuietly, OnRows::StopIfNone(Reply::Declined))
    &&& forall|k: int| 1 <= k <= 4 ==> handled(#[trigger] s[k], OnFailure::RollbackQuietly, OnRows::Continue)
    &&& handled(s[5], OnFailure::RollbackQuietly, OnRows::StopIfNone(Reply::Declined))
}

/// `script` reads meeting `id` and all its transcripts in one transaction; a
/// missing meeting rolls back and fails with `RowNotFound`.
pub open spec fn reads_meeting(script: Script, id: Seq<char>) -> bool {
    let s = script.steps@;
    &&& script.transactional
    &&& s.len() == 2
    &&& s[0].statement matches Statement::SelectMeeting { meeting_id } && meeting_id@ == id
    &&& s[1].statement matches Statement::SelectTranscripts { meeting_id } && meeting_id@ == id
    &&& handled(s[0], OnFailure::Abandon, OnRows::StopIfNone(Reply::Fail(Failure::RowNotFound)))
    &&& handled(s[1], OnFailure::Abandon, OnRows::Continue)
}

/// `script` reads the row of meeting `id`, outside a transaction.
pub open spec fn reads_meeting_metadata(script: Script, id: Seq<char>) -> bool {
    let s = script.steps@;
    &&& !script.transactional
    &&& s.len() == 1
    &&& s[0].statement matches Statement::SelectMeeting { meeting_id } && meeting_id@ == id
    &&& handled(s[0], OnFailure::Abandon, OnRows::Continue)
}

/// `script` counts the transcripts of meeting `id`, then reads one page of
/// them, outside a transaction.
pub open spec fn reads_transcript_page(script: Script, id: Seq<char>, limit: i64, offset: i64) -> bool {
    let s = script.steps@;
    &&& !script.transactional
    &&& s.len() == 2
    &&& s[0].statement matches Statement::CountTranscripts { meeting_id } && meeting_id@ == id
    &&& s[1].statement matches Statement::SelectTranscriptPage { meeting_id, limit: l, offset: o }
        && meeting_id@ == id && l == limit && o == offset
    &&& handled(s[0], OnFailure::Abandon, OnRows::Continue)
    &&& handled(s[1], OnFailure::Abandon, OnRows::Continue)
}

/// `script` sets the title of meeting `id` in a transaction, declining when
/// no meeting row changed.
pub open spec fn retitles_meeting(script: Script, id: Seq<char>, title: Seq<char>) -> bool {
    let s = script.steps@;
    &&& script.transactional
    &&& s.len() == 1
    &&& s[0].statement matches Statement::UpdateMeetingTitle { meeting_id, title: t } && meeting_id@
        == id && t@ == title
    &&& handled(s[0], OnFailure::Abandon, OnRows::StopIfNone(Reply::Declined))
}

/// `script` renames meeting `id` and its transcript chunks in one
/// transaction, declining when no meeting row changed.
pub open spec fn renames_meeting(script: Script, id: Seq<char>, title: Seq<char>) -> bool {
    let s = script.steps@;
    &&& script.transactional
    &&& s.len() == 2
    &&& s[0].statement matches Statement::RenameMeeting { meeting_id, title: t } && meeting_id@ == id
        && t@ == title
    &&& s[1].statement matches Statement::RenameTranscriptChunks { meeting_id, name } && meeting_id@
        == id && name@ == title
    &&& handled(s[0], OnFailure::Abandon, OnRows::StopIfNone(Reply::Declined))
    &&& handled(s[1], OnFailure::Abandon, OnRows::Continue)
}

/// Reading a meeting fails with `RowNotFound` only because the meeting row
/// was not found: the first statement, the one that selects it, came back
/// with no rows. However many transcripts the meeting has, none included,
/// never makes it fail so.
pub proof fn lemma_only_missing_meeting_is_not_found(script: Script, id: Seq<char>, outcomes: Seq<Outcome>)
    requires
        reads_meeting(script, id),
        next_action_of(script, outcomes) == Action::Finish(Reply::Fail(Failure::RowNotFound)),
    ensures
        outcomes.len() >= 3,
        outcomes[0] is Succeeded,
        outcomes[1] == Outcome::Succeeded(0),
{
    reveal_with_fuel(action_from, 3);
}

/// Once the meeting row is found, reading its transcripts never ends the
/// read, whatever number of rows it gives, zero included: the transaction
/// commits, and the read succeeds when the commit does.
pub proof fn lemma_found_meeting_is_read_whatever_its_transcripts(
    script: Script,
    id: Seq<char>,
    found: u64,
    count: u64,
)
    requires
        reads_meeting(script, id),
        found > 0,
    ensures
        next_action_of(script, seq![Outcome::Succeeded(0), Outcome::Succeeded(found)]) == Action::Run(1),
        next_action_of(
            script,
            seq![Outcome::Succeeded(0), Outcome::Succeeded(found), Outcome::Succeeded(count)],
        ) == Action::Commit,
        next_action_of(
            script,
            seq![
                Outcome::Succeeded(0),
                Outcome::Succeeded(found),
                Outcome::Succeeded(count),
                Outcome::Succeeded(0),
            ],
        ) == Action::Finish(Reply::Success),
{
    reveal_with_fuel(action_from, 3);
}

impl MeetingsRepository {
    /// The script that deletes a meeting and everything attached to it; a
    /// blank id is rejected before any database work.
    pub fn delete_meeting(meeting_id: &str) -> (script: Result<Script, Failure>)
        ensures
            is_blank_text(meeting_id@) <==> script == Err::<Script, Failure>(Failure::EmptyMeetingId),
            script is Ok <==> !is_blank_text(meeting_id@),
            script matches Ok(s) ==> deletes_meeting(s, meeting_id@),
    {
        if is_blank(meeting_id) {
            return Err(Failure::EmptyMeetingId);
        }
        let mut steps: Vec<ScriptStep> = Vec::new();
        steps.push(
            ScriptStep {
                statement: Statement::MeetingExists { meeting_id: owned(meeting_id) },
                on_failure: OnFailure::RollbackQuietly,
                on_rows: OnRows::StopIfNone(Reply::Declined),
            },
        );
        steps.push(
            ScriptStep {
                statement: Statement::DeleteTranscriptChunks { meeting_id: owned(meeting_id) },
                on_failure: OnFailure::RollbackQuietly,
                on_rows: OnRows::Continue,
            },
        );
        steps.push(
            ScriptStep {
                statement: Statement::DeleteSummaryProcesses { meeting_id: owned(meeting_id) },
                on_failure: OnFailure::RollbackQuietly,
                on_rows: OnRows::Continue,
            },
        );
        steps.push(
            ScriptStep {
                statement: Statement::DeleteTranscripts { meeting_id: owned(meeting_id) },
                on_failure: OnFailure::RollbackQuietly,
                on_rows: OnRows::Continue,
            },
        );
        steps.push(
            ScriptStep {
                statement: Statement::DeleteMeetingTags { meeting_id: owned(meeting_id) },
                on_failure: OnFailure::RollbackQuietly,
                on_rows: OnRows::Continue,
            },
        );
        steps.push(
            ScriptStep {
                statement: Statement::DeleteMeeting { meeting_id: owned(meeting_id) },
                on_failure: OnFailure::RollbackQuietly,
                on_rows: OnRows::StopIfNone(Reply::Declined),
            },
        );
        Ok(Script { transactional: true, steps })
    }

    /// The script that reads a meeting with all its transcripts; a blank id
    /// is rejected before any database work.
    pub fn get_meeting(meeting_id: &str) -> (script: Result<Script, Failure>)
        ensures
            is_blank_text(meeting_id@) <==> script == Err::<Script, Failure>(Failure::EmptyMeetingId),
            script is Ok <==> !is_blank_text(meeting_id@),
            script matches Ok(s) ==> reads_meeting(s, meeting_id@),
    {
        if is_blank(meeting_id) {
            return Err(Failure::EmptyMeetingId);
        }
        let mut steps: Vec<ScriptStep> = Vec::new();
        steps.push(
            ScriptStep {
                statement: Statement::SelectMeeting { meeting_id: owned(meeting_id) },
                on_failure: OnFailure::Abandon,
                on_rows: OnRows::StopIfNone(Reply::Fail(Failure::RowNotFound)),
            },
        );
        steps.push(
            ScriptStep {
                statement: Statement::SelectTranscripts { meeting_id: owned(meeting_id) },
                on_failure: OnFailure::Abandon,
                on_rows: OnRows::Continue,
            },
        );
        Ok(Script { transactional: true, steps })
    }

    /// The script that reads a meeting's row without its transcripts; a
    /// blank id is rejected before any database work.
    pub fn get_meeting_metadata(meeting_id: &str) -> (script: Result<Script, Failure>)
        ensures
            is_blank_text(meeting_id@) <==> script == Err::<Script, Failure>(Failure::EmptyMeetingId),
            script is Ok <==> !is_blank_text(meeting_id@),
            script matches Ok(s) ==> reads_meeting_metadata(s, meeting_id@),
    {
        if is_blank(meeting_id) {
            return Err(Failure::EmptyMeetingId);
        }
        let mut steps: Vec<ScriptStep> = Vec::new();
        steps.push(
            ScriptStep {
                statement: Statement::SelectMeeting { meeting_id: owned(meeting_id) },
                on_failure: OnFailure::Abandon,
                on_rows: OnRows::Continue,
            },
        );
        Ok(Script { transactional: false, steps })
    }

    /// The script that counts a meeting's transcripts and reads one page of
    /// them; a blank id is rejected before any database work.
    pub fn get_meeting_transcripts_paginated(meeting_id: &str, limit: i64, offset: i64) -> (script:
        Result<Script, Failure>)
        ensures
            is_blank_text(meeting_id@) <==> script == Err::<Script, Failure>(Failure::EmptyMeetingId),
            script is Ok <==> !is_blank_text(meeting_id@),
            script matches Ok(s) ==> reads_transcript_page(s, meeting_id@, limit, offset),
    {
        if is_blank(meeting_id) {
            return Err(Failure::EmptyMeetingId);
        }
        let mut steps: Vec<ScriptStep> = Vec::new();
        steps.push(
            ScriptStep {
                statement: Statement::CountTranscripts { meeting_id: owned(meeting_id) },
                on_failure: OnFailure::Abandon,
                on_rows: OnRows::Continue,
            },
        );
        steps.push(
            ScriptStep {
                statement: Statement::SelectTranscriptPage { meeting_id: owned(meeting_id), limit, offset },
                on_failure: OnFailure::Abandon,
                on_rows: OnRows::Continue,
            },
        );
        Ok(Script { transactional: false, steps })
    }

    /// The script that sets a meeting's title; a blank id is rejected before
    /// any database work.
    pub fn update_meeting_title(meeting_id: &str, new_title: &str) -> (script: Result<Script, Failure>)
        ensures
            is_blank_text(meeting_id@) <==> script == Err::<Script, Failure>(Failure::EmptyMeetingId),
            script is Ok <==> !is_blank_text(meeting_id@),
            script matches Ok(s) ==> retitles_meeting(s, meeting_id@, new_title@),
    {
        if is_blank(meeting_id) {
            return Err(Failure::EmptyMeetingId);
        }
        let mut steps: Vec<ScriptStep> = Vec::new();
        steps.push(
            ScriptStep {
                statement: Statement::UpdateMeetingTitle {
                    meeting_id: owned(meeting_id),
                    title: owned(new_title),
                },
                on_failure: OnFailure::Abandon,
                on_rows: OnRows::StopIfNone(Reply::Declined),
            },
        );
        Ok(Script { transactional: true, steps })
    }

    /// The script that renames a meeting and its transcript chunks.
    pub fn update_meeting_name(meeting_id: &str, new_title: &str) -> (script: Script)
        ensures
            renames_meeting(script, meeting_id@, new_title@),
    {
        let mut steps: Vec<ScriptStep> = Vec::new();
        steps.push(
            ScriptStep {
                statement: Statement::RenameMeeting {
                    meeting_id: owned(meeting_id),
                    title: owned(new_title),
                },
                on_failure: OnFailure::Abandon,
                on_rows: OnRows::StopIfNone(Reply::Declined),
            },
        );
        steps.push(
            ScriptStep {
                statement: Statement::RenameTranscriptChunks {
                    meeting_id: owned(meeting_id),
                    name: owned(new_title),
                },
                on_failure: OnFailure::Abandon,
                on_rows: OnRows::Continue,
            },
        );
        Script { transactional: true, steps }
    }
}

/// Deleting a meeting is committed only after the meeting was found, and its
/// transcript chunks, summary processes, transcripts and tag assignments were
/// deleted, in that order, followed by the meeting row itself, which was
/// there to delete: no assignment or transcript of a deleted meeting is left.
pub proof fn lemma_meeting_deletion_clears_dependents(script: Script, id: Seq<char>, outcomes: Seq<Outcome>)
    requires
        deletes_meeting(script, id),
        next_action_of(script, outcomes) == Action::Commit,
    ensures
        outcomes.len() == 7,
        outcomes[0] is Succeeded,
        forall|k: int| 1 <= k <= 6 ==> #[trigger] outcomes[k] is Succeeded,
        outcomes[1] matches Outcome::Succeeded(found) && found > 0,
        outcomes[6] matches Outcome::Succeeded(deleted) && deleted > 0,
{
    lemma_commit_only_after_every_step(script, outcomes);
    assert(step_passed(script, outcomes, 0));
    assert(step_passed(script, outcomes, 5));
    assert forall|k: int| 1 <= k <= 6 implies #[trigger] outcomes[k] is Succeeded by {
        assert(step_passed(script, outcomes, k - 1));
    }
}

} // verus!
