//! The protocol by which the repositories talk to the database: a script of
//! statements, each with what to do when it fails or finds no rows, run
//! inside a transaction or not. The database work itself is done by the
//! caller, which asks for the next action after each outcome.

use vstd::prelude::*;
use crate::time::UtcTimestamp;

verus! {

/// A statement that a repository runs, with its parameters. Where a
/// statement records the current time as `updated_at`, the caller binds the
/// time at which it runs it.
#[derive(Debug)]
pub enum Statement {
    /// `SELECT 1 FROM meetings WHERE id = ?`
    MeetingExists { meeting_id: String },
    /// `DELETE FROM transcript_chunks WHERE meeting_id = ?`
    DeleteTranscriptChunks { meeting_id: String },
    /// `DELETE FROM summary_processes WHERE meeting_id = ?`
    DeleteSummaryProcesses { meeting_id: String },
    /// `DELETE FROM transcripts WHERE meeting_id = ?`
    DeleteTranscripts { meeting_id: String },
    /// `DELETE FROM meeting_tags WHERE meeting_id = ?`
    DeleteMeetingTags { meeting_id: String },
    /// `DELETE FROM meetings WHERE id = ?`
    DeleteMeeting { meeting_id: String },
    /// The meeting's row (`id, title, created_at, updated_at, folder_path`).
    SelectMeeting { meeting_id: String },
    /// All transcript rows of the meeting.
    SelectTranscripts { meeting_id: String },
    /// `SELECT COUNT(*) FROM transcripts WHERE meeting_id = ?`
    CountTranscripts { meeting_id: String },
    /// One page of the meeting's transcripts, ordered by audio start time.
    SelectTranscriptPage { meeting_id: String, limit: i64, offset: i64 },
    /// Sets the title, and `updated_at` to the current time as a naive UTC
    /// date and time.
    UpdateMeetingTitle { meeting_id: String, title: String },
    /// Sets the title, and `updated_at` to the current UTC time.
    RenameMeeting { meeting_id: String, title: String },
    /// `UPDATE transcript_chunks SET meeting_name = ? WHERE meeting_id = ?`
    RenameTranscriptChunks { meeting_id: String, name: String },
    /// A new meeting row. Its duration is derived from the transcript
    /// segments by the caller.
    InsertMeeting {
        meeting_id: String,
        title: String,
        created_at: UtcTimestamp,
        updated_at: UtcTimestamp,
        folder_path: Option<String>,
    },
    /// A new transcript row for the given segment of the meeting's transcript.
    InsertTranscript { transcript_id: String, meeting_id: String, segment: usize },
    /// The tag whose name matches, ignoring case.
    FindTagByName { name: String },
    /// A new tag row created at the current time.
    InsertTag { tag_id: String, name: String, color: Option<String> },
    /// `DELETE FROM meeting_tags WHERE tag_id = ?`
    DeleteTagAssignments { tag_id: String },
    /// `DELETE FROM tags WHERE id = ?`
    DeleteTag { tag_id: String },
}

/// Why an operation failed.
#[derive(Debug, Clone, Copy, PartialEq, Eq, Structural)]
pub enum Failure {
    /// The meeting id was blank.
    EmptyMeetingId,
    /// The meeting does not exist.
    RowNotFound,
    /// The database error returned by the action with this index.
    Database(usize),
}

/// How an operation ends.
#[derive(Debug, Clone, Copy, PartialEq, Eq, Structural)]
pub enum Reply {
    /// Every statement ran.
    Success,
    /// A statement's rows ended the operation early without an error.
    Declined,
    /// The operation failed.
    Fail(Failure),
}

/// What to do when a statement fails.
#[derive(Debug, Clone, Copy, PartialEq, Eq, Structural)]
pub enum OnFailure {
    /// Return its error at once (an open transaction is dropped, which rolls
    /// it back).
    Abandon,
    /// Roll back, then return its error, or the rollback's error if the
    /// rollback fails.
    Rollback,
    /// Roll back, ignore how that goes, and return its error.
    RollbackQuietly,
}

/// What the number of rows a statement found or changed decides.
#[derive(Debug, Clone, Copy, PartialEq, Eq, Structural)]
pub enum OnRows {
    /// Nothing: go on.
    Continue,
    /// No rows end the operation with this reply (after a rollback, in a
    /// transaction).
    StopIfNone(Reply),
    /// Some rows end the operation with this reply (after a rollback, in a
    /// transaction).
    StopIfAny(Reply),
}

/// One statement of a script, with its policies.
#[derive(Debug)]
pub struct ScriptStep {
    pub statement: Statement,
    pub on_failure: OnFailure,
    pub on_rows: OnRows,
}

/// The statements of an operation, in order.
#[derive(Debug)]
pub struct Script {
    pub transactional: bool,
    pub steps: Vec<ScriptStep>,
}

/// What the caller observed when it carried out an action.
#[derive(Debug, Clone, Copy, PartialEq, Eq, Structural)]
pub enum Outcome {
    /// It succeeded, finding or changing this many rows (zero for `Begin`,
    /// `Commit` and `Rollback`).
    Succeeded(u64),
    /// It failed; the caller keeps the error.
    Failed,
}

/// What the caller is to do next.
#[derive(Debug, Clone, Copy, PartialEq, Eq, Structural)]
pub enum Action {
    /// Open a transaction.
    Begin,
    /// Run the statement of the step with this index.
    Run(usize),
    Commit,
    Rollback,
    /// End the operation with this reply.
    Finish(Reply),
}

/// `step` has these policies.
pub open spec fn handled(step: ScriptStep, on_failure: OnFailure, on_rows: OnRows) -> bool {
    step.on_failure == on_failure && step.on_rows == on_rows
}

/// The index, among the actions, of the one that runs step 0.
pub open spec fn first_step_at(script: Script) -> int {
    if script.transactional {
        1
    } else {
        0
    }
}

/// The reply that the rows seen by a step end the operation with, if any.
pub open spec fn stop_reply(on_rows: OnRows, rows: u64) -> Option<Reply> {
    match on_rows {
        OnRows::Continue => None,
        OnRows::StopIfNone(reply) => if rows == 0 {
            Some(reply)
        } else {
            None
        },
        OnRows::StopIfAny(reply) => if rows > 0 {
            Some(reply)
        } else {
            None
        },
    }
}

/// Roll back as action `at`, then end with `reply`, or with the rollback's
/// error if it fails.
pub open spec fn rollback_then(outcomes: Seq<Outcome>, at: int, reply: Reply) -> Action {
    if outcomes.len() <= at {
        Action::Rollback
    } else if outcomes[at] is Failed {
        Action::Finish(Reply::Fail(Failure::Database(at as usize)))
    } else {
        Action::Finish(reply)
    }
}

/// The next action once steps `0..k` have run and found nothing that ends
/// the operation.
pub open spec fn action_from(script: Script, outcomes: Seq<Outcome>, k: int) -> Action
    decreases script.steps@.len() - k,
{
    let at = first_step_at(script) + k;
    if k >= script.steps@.len() {
        if !script.transactional {
            Action::Finish(Reply::Success)
        } else if outcomes.len() <= at {
            Action::Commit
        } else if outcomes[at] is Failed {
            Action::Finish(Reply::Fail(Failure::Database(at as usize)))
        } else {
            Action::Finish(Reply::Success)
        }
    } else if outcomes.len() <= at {
        Action::Run(k as usize)
    } else {
        let step = script.steps@[k];
        match outcomes[at] {
            Outcome::Failed => match step.on_failure {
                OnFailure::Abandon => Action::Finish(Reply::Fail(Failure::Database(at as usize))),
                OnFailure::Rollback => rollback_then(
                    outcomes,
                    at + 1,
                    Reply::Fail(Failure::Database(at as usize)),
                ),
                OnFailure::RollbackQuietly => if outcomes.len() <= at + 1 {
                    Action::Rollback
                } else {
                    Action::Finish(Reply::Fail(Failure::Database(at as usize)))
                },
            },
            Outcome::Succeeded(rows) => match stop_reply(step.on_rows, rows) {
                Some(reply) => if script.transactional {
                    rollback_then(outcomes, at + 1, reply)
                } else {
                    Action::Finish(reply)
                },
                None => action_from(script, outcomes, k + 1),
            },
        }
    }
}

/// The next action of `script`, given the outcomes of the actions so far.
pub open spec fn next_action_of(script: Script, outcomes: Seq<Outcome>) -> Action {
    if script.transactional {
        if outcomes.len() == 0 {
            Action::Begin
        } else if outcomes[0] is Failed {
            Action::Finish(Reply::Fail(Failure::Database(0)))
        } else {
            action_from(script, outcomes, 0)
        }
    } else {
        action_from(script, outcomes, 0)
    }
}

/// Step `k` ran and found nothing that ends the operation.
pub open spec fn step_passed(script: Script, outcomes: Seq<Outcome>, k: int) -> bool {
    let at = first_step_at(script) + k;
    &&& at < outcomes.len()
    &&& outcomes[at] matches Outcome::Succeeded(rows)
    &&& stop_reply(script.steps@[k].on_rows, rows) is None
}

/// The transaction, if any, was opened.
pub open spec fn began(script: Script, outcomes: Seq<Outcome>) -> bool {
    script.transactional ==> outcomes.len() > 0 && outcomes[0] is Succeeded
}

/// The next action of `script`, given the outcomes of the actions carried
/// out so far.
pub fn next_action(script: &Script, outcomes: &Vec<Outcome>) -> (action: Action)
    ensures
        action == next_action_of(*script, outcomes@),
{
    let n = script.steps.len();
    let len = outcomes.len();
    let first: usize = if script.transactional {
        1
    } else {
        0
    };
    if script.transactional {
        if len == 0 {
            return Action::Begin;
        }
        match outcomes[0] {
            Outcome::Failed => {
                return Action::Finish(Reply::Fail(Failure::Database(0)));
            },
            Outcome::Succeeded(_) => {},
        }
    }
    let mut k: usize = 0;
    loop
        invariant
            n == script.steps@.len(),
            len == outcomes@.len(),
            first == first_step_at(*script),
            first <= len,
            k <= n,
            next_action_of(*script, outcomes@) == action_from(*script, outcomes@, k as int),
        decreases n - k,
    {
        let done = len - first;
        if k == n {
            if !script.transactional {
                return Action::Finish(Reply::Success);
            }
            if done <= k {
                return Action::Commit;
            }
            let at = first + k;
            return match outcomes[at] {
                Outcome::Failed => Action::Finish(Reply::Fail(Failure::Database(at))),
                Outcome::Succeeded(_) => Action::Finish(Reply::Success),
            };
        }
        if done <= k {
            return Action::Run(k);
        }
        let at = first + k;
        let step = &script.steps[k];
        match outcomes[at] {
            Outcome::Failed => {
                return match step.on_failure {
                    OnFailure::Abandon => Action::Finish(Reply::Fail(Failure::Database(at))),
                    OnFailure::Rollback => {
                        if len <= at + 1 {
                            Action::Rollback
                        } else {
                            match outcomes[at + 1] {
                                Outcome::Failed => Action::Finish(
                                    Reply::Fail(Failure::Database(at + 1)),
                                ),
                                Outcome::Succeeded(_) => Action::Finish(
                                    Reply::Fail(Failure::Database(at)),
                                ),
                            }
                        }
                    },
                    OnFailure::RollbackQuietly => {
                        if len <= at + 1 {
                            Action::Rollback
                        } else {
                            Action::Finish(Reply::Fail(Failure::Database(at)))
                        }
                    },
                };
            },
            Outcome::Succeeded(rows) => {
                let stop = match step.on_rows {
                    OnRows::Continue => None,
                    OnRows::StopIfNone(reply) => if rows == 0 {
                        Some(reply)
                    } else {
                        None
                    },
                    OnRows::StopIfAny(reply) => if rows > 0 {
                        Some(reply)
                    } else {
                        None
                    },
                };
                match stop {
                    Some(reply) => {
                        if !script.transactional {
                            return Action::Finish(reply);
                        }
                        if len <= at + 1 {
                            return Action::Rollback;
                        }
                        return match outcomes[at + 1] {
                            Outcome::Failed => Action::Finish(Reply::Fail(Failure::Database(at + 1))),
                            Outcome::Succeeded(_) => Action::Finish(reply),
                        };
                    },
                    None => {},
                }
            },
        }
        k = k + 1;
    }
}

proof fn lemma_action_from_facts(script: Script, outcomes: Seq<Outcome>, k: int)
    requires
        0 <= k <= script.steps@.len(),
        outcomes.len() >= first_step_at(script) + k,
        forall|j: int| 0 <= j < k ==> step_passed(script, outcomes, j),
    ensures
        action_from(script, outcomes, k) == Action::Commit ==> script.transactional && outcomes.len()
            == first_step_at(script) + script.steps@.len() && forall|j: int|
            0 <= j < script.steps@.len() ==> step_passed(script, outcomes, j),
        action_from(script, outcomes, k) matches Action::Run(m) ==> k <= m < script.steps@.len()
            && outcomes.len() == first_step_at(script) + m && forall|j: int|
            0 <= j < m ==> step_passed(script, outcomes, j),
    decreases script.steps@.len() - k,
{
    assert(script.steps@.len() == script.steps.len());
    let at = first_step_at(script) + k;
    if k < script.steps@.len() && outcomes.len() > at {
        match outcomes[at] {
            Outcome::Succeeded(rows) => {
                if stop_reply(script.steps@[k].on_rows, rows) is None {
                    assert(step_passed(script, outcomes, k));
                    assert forall|j: int| 0 <= j < k + 1 implies step_passed(script, outcomes, j) by {}
                    lemma_action_from_facts(script, outcomes, k + 1);
                }
            },
            Outcome::Failed => {},
        }
    }
}

/// A transaction is committed only after it was opened and every statement
/// of the script ran, in order, and found nothing that ends the operation.
pub proof fn lemma_commit_only_after_every_step(script: Script, outcomes: Seq<Outcome>)
    requires
        next_action_of(script, outcomes) == Action::Commit,
    ensures
        script.transactional,
        began(script, outcomes),
        outcomes.len() == 1 + script.steps@.len(),
        forall|k: int| 0 <= k < script.steps@.len() ==> step_passed(script, outcomes, k),
{
    lemma_action_from_facts(script, outcomes, 0);
}

/// A statement runs only after the transaction, if any, was opened and every
/// earlier statement ran and found nothing that ends the operation.
pub proof fn lemma_step_runs_after_earlier_steps(script: Script, outcomes: Seq<Outcome>, k: usize)
    requires
        next_action_of(script, outcomes) == Action::Run(k),
    ensures
        k < script.steps@.len(),
        began(script, outcomes),
        outcomes.len() == first_step_at(script) + k,
        forall|j: int| 0 <= j < k ==> step_passed(script, outcomes, j),
{
    assert(script.steps@.len() == script.steps.len());
    lemma_action_from_facts(script, outcomes, 0);
}

/// Once a statement has failed, no further statement runs and nothing is
/// committed: the operation rolls back or ends with an error.
pub proof fn lemma_failure_stops_the_script(script: Script, outcomes: Seq<Outcome>, k: int)
    requires
        0 <= k < script.steps@.len(),
        began(script, outcomes),
        forall|j: int| 0 <= j < k ==> step_passed(script, outcomes, j),
        first_step_at(script) + k < outcomes.len(),
        outcomes[first_step_at(script) + k] is Failed,
    ensures
        next_action_of(script, outcomes) == Action::Rollback || next_action_of(script, outcomes) matches Action::Finish(Reply::Fail(_)),
{
    lemma_action_from_steps_passed(script, outcomes, 0, k);
}

proof fn lemma_action_from_steps_passed(script: Script, outcomes: Seq<Outcome>, i: int, k: int)
    requires
        0 <= i <= k < script.steps@.len(),
        forall|j: int| 0 <= j < k ==> step_passed(script, outcomes, j),
    ensures
        action_from(script, outcomes, i) == action_from(script, outcomes, k),
    decreases k - i,
{
    if i < k {
        assert(step_passed(script, outcomes, i));
        lemma_action_from_steps_passed(script, outcomes, i + 1, k);
    }
}

} // verus!
