//! The tags repository: the scripts it runs, and the grouping of every
//! meeting's tags.

use vstd::prelude::*;
use crate::ids::{is_prefixed_id, new_id};
use crate::protocol::{
    handled, lemma_commit_only_after_every_step, next_action_of, step_passed, Action, OnFailure, OnRows,
    Outcome, Reply, Script, ScriptStep, Statement,
};
use crate::text::{owned, same_text};

verus! {

/// A tag as the user interface shows it.
#[derive(Debug, Clone)]
pub struct TagInfo {
    pub id: String,
    pub name: String,
    pub color: Option<String>,
}

/// The repository of tags.
pub struct TagsRepository;

/// `script` looks the name up (ignoring case) and ends, declining, when a tag
/// by that name exists; otherwise it inserts the new tag `tag_id`. No
/// transaction.
pub open spec fn creates_tag(script: Script, tag_id: Seq<char>, name: Seq<char>, color: Option<Seq<char>>) -> bool {
    let s = script.steps@;
    &&& !script.transactional
    &&& s.len() == 2
    &&& s[0].statement matches Statement::FindTagByName { name: n } && n@ == name
    &&& s[1].statement matches Statement::InsertTag { tag_id: i, name: n, color: c } && i@ == tag_id
        && n@ == name && c.deep_view() == color
    &&& handled(s[0], OnFailure::Abandon, OnRows::StopIfAny(Reply::Declined))
    &&& handled(s[1], OnFailure::Abandon, OnRows::Continue)
}

/// `script` deletes the assignments of tag `id` and then the tag, in one
/// transaction.
pub open spec fn deletes_tag(script: Script, id: Seq<char>) -> bool {
    let s = script.steps@;
    &&& script.transactional
    &&& s.len() == 2
    &&& s[0].statement matches Statement::DeleteTagAssignments { tag_id } && tag_id@ == id
    &&& s[1].statement matches Statement::DeleteTag { tag_id } && tag_id@ == id
    &&& handled(s[0], OnFailure::Abandon, OnRows::Continue)
    &&& handled(s[1], OnFailure::Abandon, OnRows::Continue)
}

impl TagsRepository {
    /// The script that creates a tag named `name`, unless one by that name
    /// exists, and the tag it creates: a fresh `tag-` id, the name and the
    /// color.
    pub fn create_tag(name: &str, color: Option<String>) -> (created: (Script, TagInfo))
        ensures
            is_prefixed_id(created.1.id@, "tag-"@),
            created.1.name@ == name@,
            created.1.color == color,
            creates_tag(created.0, created.1.id@, name@, color.deep_view()),
    {
        let id = new_id("tag-");
        let stored_color = match &color {
            Some(c) => Some(c.clone()),
            None => None,
        };
        let mut steps: Vec<ScriptStep> = Vec::new();
        steps.push(
            ScriptStep {
                statement: Statement::FindTagByName { name: owned(name) },
                on_failure: OnFailure::Abandon,
                on_rows: OnRows::StopIfAny(Reply::Declined),
            },
        );
        steps.push(
            ScriptStep {
                statement: Statement::InsertTag { tag_id: id.clone(), name: owned(name), color: stored_color },
                on_failure: OnFailure::Abandon,
                on_rows: OnRows::Continue,
            },
        );
        (Script { transactional: false, steps }, TagInfo { id, name: owned(name), color })
    }

    /// The script that deletes a tag and its assignments to meetings.
    pub fn delete_tag(tag_id: &str) -> (script: Script)
        ensures
            deletes_tag(script, tag_id@),
    {
        let mut steps: Vec<ScriptStep> = Vec::new();
        steps.push(
            ScriptStep {
                statement: Statement::DeleteTagAssignments { tag_id: owned(tag_id) },
                on_failure: OnFailure::Abandon,
                on_rows: OnRows::Continue,
            },
        );
        steps.push(
            ScriptStep {
                statement: Statement::DeleteTag { tag_id: owned(tag_id) },
                on_failure: OnFailure::Abandon,
                on_rows: OnRows::Continue,
            },
        );
        Script { transactional: true, steps }
    }
}

/// Creating a tag whose name is already taken (ignoring case) inserts
/// nothing: the script ends, declining, so the existing tag is returned.
pub proof fn lemma_create_tag_reuses_existing(
    script: Script,
    tag_id: Seq<char>,
    name: Seq<char>,
    color: Option<Seq<char>>,
    outcomes: Seq<Outcome>,
    found: u64,
)
    requires
        creates_tag(script, tag_id, name, color),
        outcomes.len() >= 1,
        outcomes[0] == Outcome::Succeeded(found),
        found > 0,
    ensures
        next_action_of(script, outcomes) == Action::Finish(Reply::Declined),
{
}

/// Deleting a tag is committed only after its assignments to meetings and
/// then the tag itself were deleted: no assignment of a deleted tag is left.
pub proof fn lemma_tag_deletion_clears_assignments(script: Script, id: Seq<char>, outcomes: Seq<Outcome>)
    requires
        deletes_tag(script, id),
        next_action_of(script, outcomes) == Action::Commit,
    ensures
        outcomes.len() == 3,
        outcomes[0] is Succeeded,
        outcomes[1] is Succeeded,
        outcomes[2] is Succeeded,
{
    lemma_commit_only_after_every_step(script, outcomes);
    assert(step_passed(script, outcomes, 0));
    assert(step_passed(script, outcomes, 1));
}

/// The tags of the rows for meeting `key`, in row order.
pub open spec fn tags_of(rows: Seq<(String, TagInfo)>, key: Seq<char>) -> Seq<TagInfo>
    decreases rows.len(),
{
    if rows.len() == 0 {
        seq![]
    } else if rows.last().0@ == key {
        tags_of(rows.drop_last(), key).push(rows.last().1)
    } else {
        tags_of(rows.drop_last(), key)
    }
}

#[verifier::opaque]
/// `groups` is the grouping of `rows` by meeting: one group per meeting that
/// occurs in the rows, each holding that meeting's tags in row order.
pub open spec fn groups_rows(groups: Seq<(String, Vec<TagInfo>)>, rows: Seq<(String, TagInfo)>) -> bool {
    &&& forall|i: int, j: int| 0 <= i < j < groups.len() ==> groups[i].0@ != groups[j].0@
    &&& forall|i: int| 0 <= i < rows.len() ==> exists|j: int| 0 <= j < groups.len() && #[trigger] groups[j].0@ == #[trigger] rows[i].0@
    &&& forall|j: int| 0 <= j < groups.len() ==> exists|i: int| 0 <= i < rows.len() && #[trigger] groups[j].0@ == #[trigger] rows[i].0@
    &&& forall|j: int| 0 <= j < groups.len() ==> (#[trigger] groups[j]).1@ == tags_of(rows, groups[j].0@)
}

proof fn lemma_tags_of_absent(rows: Seq<(String, TagInfo)>, key: Seq<char>)
    requires
        forall|i: int| 0 <= i < rows.len() ==> (#[trigger] rows[i]).0@ != key,
    ensures
        tags_of(rows, key) == Seq::<TagInfo>::empty(),
    decreases rows.len(),
{
    if rows.len() > 0 {
        assert(rows.last() == rows[rows.len() - 1]);
        assert forall|i: int| 0 <= i < rows.drop_last().len() implies (#[trigger] rows.drop_last()[i]).0@ != key by {
            assert(rows.drop_last()[i] == rows[i]);
        }
        lemma_tags_of_absent(rows.drop_last(), key);
    }
}

/// Where in `groups` the group of meeting `key` is, if there is one.
fn find_group(groups: &Vec<(String, Vec<TagInfo>)>, key: &str) -> (found: Option<usize>)
    ensures
        found matches Some(j) ==> j < groups@.len() && groups@[j as int].0@ == key@,
        found is None ==> forall|j: int| 0 <= j < groups@.len() ==> (#[trigger] groups@[j]).0@ != key@,
{
    let n = groups.len();
    let mut j: usize = 0;
    while j < n
        invariant
            n == groups@.len(),
            j <= n,
            forall|k: int| 0 <= k < j ==> (#[trigger] groups@[k]).0@ != key@,
        decreases n - j,
    {
        if same_text(groups[j].0.as_str(), key) {
            return Some(j);
        }
        j = j + 1;
    }
    None
}

#[verifier::rlimit(40)]
proof fn lemma_group_into_existing(
    old_groups: Seq<(String, Vec<TagInfo>)>,
    groups: Seq<(String, Vec<TagInfo>)>,
    before: Seq<(String, TagInfo)>,
    after: Seq<(String, TagInfo)>,
    j: int,
)
    requires
        groups_rows(old_groups, before),
        after.len() == before.len() + 1,
        after.drop_last() == before,
        0 <= j < old_groups.len(),
        old_groups[j].0@ == after.last().0@,
        groups.len() == old_groups.len(),
        groups[j].0 == old_groups[j].0,
        groups[j].1@ == old_groups[j].1@.push(after.last().1),
        forall|g: int| 0 <= g < groups.len() && g != j ==> groups[g] == old_groups[g],
    ensures
        groups_rows(groups, after),
{
    reveal(groups_rows);
    assert forall|i: int| 0 <= i < before.len() implies #[trigger] after[i] == before[i] by {
        assert(after.drop_last()[i] == after[i]);
    }
    assert(after[before.len() as int] == after.last());
    assert forall|g: int| 0 <= g < groups.len() implies (#[trigger] groups[g]).1@ == tags_of(after, groups[g].0@) by {
        if g != j {
            assert(groups[g] == old_groups[g]);
        }
    }
    assert forall|i: int| 0 <= i < after.len() implies exists|g: int|
        0 <= g < groups.len() && #[trigger] groups[g].0@ == #[trigger] after[i].0@ by {
        if i < before.len() {
            let g = choose|g: int| 0 <= g < old_groups.len() && #[trigger] old_groups[g].0@ == #[trigger] before[i].0@;
            assert(groups[g].0@ == old_groups[g].0@);
        } else {
            assert(groups[j].0@ == after[i].0@);
        }
    }
    assert forall|g: int| 0 <= g < groups.len() implies exists|i: int|
        0 <= i < after.len() && #[trigger] groups[g].0@ == #[trigger] after[i].0@ by {
        assert(groups[g].0@ == old_groups[g].0@);
        let i = choose|i: int| 0 <= i < before.len() && #[trigger] old_groups[g].0@ == #[trigger] before[i].0@;
        assert(after[i] == before[i]);
    }
    assert forall|a: int, b: int| 0 <= a < b < groups.len() implies groups[a].0@ != groups[b].0@ by {
        assert(groups[a].0@ == old_groups[a].0@);
        assert(groups[b].0@ == old_groups[b].0@);
    }
}

proof fn lemma_group_into_new(
    old_groups: Seq<(String, Vec<TagInfo>)>,
    groups: Seq<(String, Vec<TagInfo>)>,
    before: Seq<(String, TagInfo)>,
    after: Seq<(String, TagInfo)>,
)
    requires
        groups_rows(old_groups, before),
        after.len() == before.len() + 1,
        after.drop_last() == before,
        forall|g: int| 0 <= g < old_groups.len() ==> (#[trigger] old_groups[g]).0@ != after.last().0@,
        groups.len() == old_groups.len() + 1,
        forall|g: int| 0 <= g < old_groups.len() ==> groups[g] == old_groups[g],
        groups.last().0@ == after.last().0@,
        groups.last().1@ == seq![after.last().1],
    ensures
        groups_rows(groups, after),
{
    reveal(groups_rows);
    let key = after.last().0@;
    let last = old_groups.len() as int;
    assert(groups[last] == groups.last());
    assert forall|i: int| 0 <= i < before.len() implies #[trigger] after[i] == before[i] by {
        assert(after.drop_last()[i] == after[i]);
    }
    assert(after[before.len() as int] == after.last());
    assert forall|i: int| 0 <= i < before.len() implies (#[trigger] before[i]).0@ != key by {
        let g = choose|g: int| 0 <= g < old_groups.len() && #[trigger] old_groups[g].0@ == #[trigger] before[i].0@;
    }
    lemma_tags_of_absent(before, key);
    assert(tags_of(after, key) =~= seq![after.last().1]);
    assert forall|g: int| 0 <= g < groups.len() implies (#[trigger] groups[g]).1@ == tags_of(after, groups[g].0@) by {
        if g < last {
            assert(groups[g] == old_groups[g]);
        }
    }
    assert forall|i: int| 0 <= i < after.len() implies exists|g: int|
        0 <= g < groups.len() && #[trigger] groups[g].0@ == #[trigger] after[i].0@ by {
        if i < before.len() {
            let g = choose|g: int| 0 <= g < old_groups.len() && #[trigger] old_groups[g].0@ == #[trigger] before[i].0@;
            assert(groups[g] == old_groups[g]);
        } else {
            assert(groups[last].0@ == after[i].0@);
        }
    }
    assert forall|g: int| 0 <= g < groups.len() implies exists|i: int|
        0 <= i < after.len() && #[trigger] groups[g].0@ == #[trigger] after[i].0@ by {
        if g < last {
            assert(groups[g] == old_groups[g]);
            let i = choose|i: int| 0 <= i < before.len() && #[trigger] old_groups[g].0@ == #[trigger] before[i].0@;
            assert(after[i] == before[i]);
        } else {
            assert(groups[g].0@ == after[before.len() as int].0@);
        }
    }
    assert forall|a: int, b: int| 0 <= a < b < groups.len() implies groups[a].0@ != groups[b].0@ by {
        assert(groups[a] == old_groups[a]);
        if b < last {
            assert(groups[b] == old_groups[b]);
        }
    }
}

/// Every meeting's tags, from rows of (meeting id, tag) in the order the
/// database returned them: one group per meeting, tags in row order.
pub fn group_tags_by_meeting(rows: Vec<(String, TagInfo)>) -> (groups: Vec<(String, Vec<TagInfo>)>)
    ensures
        groups_rows(groups@, rows@),
{
    let ghost all = rows@;
    let n = rows.len();
    let mut rest = rows;
    let mut groups: Vec<(String, Vec<TagInfo>)> = Vec::new();
    let mut done: usize = 0;
    proof {
        reveal(groups_rows);
    }
    while done < n
        invariant
            n == all.len(),
            done <= n,
            rest@ == all.subrange(done as int, n as int),
            groups_rows(groups@, all.subrange(0, done as int)),
        decreases n - done,
    {
        let ghost before = all.subrange(0, done as int);
        let ghost after = all.subrange(0, done + 1);
        let ghost old_groups = groups@;
        proof {
            assert(after.drop_last() =~= before);
            assert(after.last() == all[done as int]);
            assert(rest@[0] == all[done as int]);
        }
        let (meeting_id, tag) = rest.remove(0);
        match find_group(&groups, meeting_id.as_str()) {
            Some(j) => {
                let (key, mut tags) = groups.remove(j);
                let ghost old_tags = tags@;
                tags.push(tag);
                groups.insert(j, (key, tags));
                proof {
                    assert(groups@ =~= old_groups.update(j as int, groups@[j as int]));
                    lemma_group_into_existing(old_groups, groups@, before, after, j as int);
                }
            },
            None => {
                let mut tags: Vec<TagInfo> = Vec::new();
                tags.push(tag);
                groups.push((meeting_id, tags));
                proof {
                    assert(groups@.last().1@ =~= seq![after.last().1]);
                    lemma_group_into_new(old_groups, groups@, before, after);
                }
            },
        }
        proof {
            assert(rest@ =~= all.subrange(done + 1, n as int));
        }
        done = done + 1;
    }
    proof {
        assert(all.subrange(0, n as int) =~= all);
    }
    groups
}

} // verus!
