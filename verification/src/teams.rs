//! Telling whether a process that holds a power assertion belongs to
//! Microsoft Teams, from its executable path and the bundle identifiers of
//! the application bundles around it.

use vstd::prelude::*;
use vstd::utf8::encode_utf8;
use crate::text::{contains_text, lowercase, occurs_in, same_text, to_lowercase};

verus! {

/// The parent of path `p` (`Path::parent`), as text.
pub uninterp spec fn path_parent(p: Seq<char>) -> Option<Seq<char>>;

/// The extension of path `p` (`Path::extension`), as text.
pub uninterp spec fn path_extension(p: Seq<char>) -> Option<Seq<char>>;

/// The file stem of path `p` (`Path::file_stem`), as text.
pub uninterp spec fn path_file_stem(p: Seq<char>) -> Option<Seq<char>>;

/// Calls `Path::parent` on the path spelled by `p`. The contract names the
/// result, and states what the documentation gives: the parent is the path
/// without its final component, so it is shorter than the path itself.
#[verifier::external_body]
fn parent_of(p: &str) -> (parent: Option<String>)
    ensures
        parent.deep_view() == path_parent(p@),
        parent matches Some(q) ==> q@.len() < p@.len(),
{
    match std::path::Path::new(p).parent() {
        Some(q) => Some(q.to_string_lossy().into_owned()),
        None => None,
    }
}

/// Calls `Path::extension` on the path spelled by `p`; the contract names
/// the result.
#[verifier::external_body]
fn extension_of(p: &str) -> (extension: Option<String>)
    ensures
        extension.deep_view() == path_extension(p@),
{
    match std::path::Path::new(p).extension() {
        Some(e) => Some(e.to_string_lossy().into_owned()),
        None => None,
    }
}

/// Calls `Path::file_stem` on the path spelled by `p`; the contract names
/// the result.
#[verifier::external_body]
fn file_stem_of(p: &str) -> (stem: Option<String>)
    ensures
        stem.deep_view() == path_file_stem(p@),
{
    match std::path::Path::new(p).file_stem() {
        Some(s) => Some(s.to_string_lossy().into_owned()),
        None => None,
    }
}

/// The successive parents of `p`, nearest first, following at most `fuel`
/// parent steps.
pub open spec fn ancestors(p: Seq<char>, fuel: nat) -> Seq<Seq<char>>
    decreases fuel,
{
    if fuel == 0 {
        seq![]
    } else {
        match path_parent(p) {
            None => seq![],
            Some(q) => seq![q] + ancestors(q, (fuel - 1) as nat),
        }
    }
}

/// The directory `dir` is an application bundle (its extension is `app`).
pub open spec fn is_app_bundle(dir: Seq<char>) -> bool {
    path_extension(dir) == Some("app"@)
}

/// The application bundles among `dirs`, in order.
pub open spec fn keep_app_bundles(dirs: Seq<Seq<char>>) -> Seq<Seq<char>>
    decreases dirs.len(),
{
    if dirs.len() == 0 {
        seq![]
    } else if is_app_bundle(dirs.last()) {
        keep_app_bundles(dirs.drop_last()).push(dirs.last())
    } else {
        keep_app_bundles(dirs.drop_last())
    }
}

/// The application bundles that contain the executable at `path`, innermost
/// first. Every parent step shortens the path, so `path.len() + 1` steps
/// reach the top.
pub open spec fn application_bundle_dirs(path: Seq<char>) -> Seq<Seq<char>> {
    keep_app_bundles(ancestors(path, (path.len() + 1) as nat))
}

/// The directory before position `i` of the chain: the path itself for the
/// first one.
pub open spec fn chain_child(path: Seq<char>, chain: Seq<Seq<char>>, i: int) -> Seq<char> {
    if i == 0 {
        path
    } else {
        chain[i - 1]
    }
}

/// `ancestors` follows parents: each directory of the chain is the parent of
/// the one before it, starting from the path's own parent.
pub proof fn lemma_ancestors_follow_parents(path: Seq<char>, fuel: nat)
    ensures
        forall|i: int|
            0 <= i < ancestors(path, fuel).len() ==> path_parent(
                chain_child(path, ancestors(path, fuel), i),
            ) == Some(#[trigger] ancestors(path, fuel)[i]),
    decreases fuel,
{
    if fuel > 0 {
        if let Some(q) = path_parent(path) {
            lemma_ancestors_follow_parents(q, (fuel - 1) as nat);
            let c = ancestors(path, fuel);
            let rest = ancestors(q, (fuel - 1) as nat);
            assert(c == seq![q] + rest);
            assert forall|i: int| 0 <= i < c.len() implies path_parent(chain_child(path, c, i)) == Some(
                #[trigger] c[i],
            ) by {
                if i > 0 {
                    assert(c[i] == rest[i - 1]);
                    assert(chain_child(path, c, i) == chain_child(q, rest, i - 1));
                }
            }
        }
    }
}

/// The chain of parents `chain` of `path` ends at the top: its last
/// directory (or, for an empty chain, the path itself) has no parent.
pub open spec fn reaches_top(path: Seq<char>, chain: Seq<Seq<char>>) -> bool {
    if chain.len() == 0 {
        path_parent(path) is None
    } else {
        path_parent(chain.last()) is None
    }
}

/// The application bundles (directories with extension `app`) that contain
/// the executable at `path`, innermost first. The parents followed are all
/// of them, up to a directory without a parent.
pub fn application_bundles(path: &str) -> (bundles: Vec<String>)
    ensures
        bundles.deep_view() == application_bundle_dirs(path@),
        reaches_top(path@, ancestors(path@, (path@.len() + 1) as nat)),
{
    let mut bundles: Vec<String> = Vec::new();
    let ghost fuel: nat = (path@.len() + 1) as nat;
    let ghost chain: Seq<Seq<char>> = seq![];
    let mut current = parent_of(path);
    proof {
        if current is Some {
            assert(ancestors(path@, fuel) == seq![current->0@] + ancestors(current->0@, (fuel - 1) as nat));
            assert(ancestors(path@, fuel) =~= chain + seq![current->0@] + ancestors(current->0@, (fuel - 1) as nat));
        }
    }
    while current.is_some()
        invariant
            bundles.deep_view() == keep_app_bundles(chain),
            fuel == path@.len() + 1,
            chain.len() < fuel,
            current matches Some(d) ==> ancestors(path@, fuel) == chain + seq![d@] + ancestors(
                d@,
                (fuel - chain.len() - 1) as nat,
            ) && fuel - chain.len() - 1 >= d@.len() + 1,
            current is None ==> ancestors(path@, fuel) == chain,
            current is None ==> reaches_top(path@, chain),
        decreases fuel - chain.len(),
    {
        let dir = match current {
            Some(d) => d,
            None => String::new(),
        };
        let ghost rest: nat = (fuel - chain.len() - 1) as nat;
        let extension = extension_of(dir.as_str());
        let is_bundle = match &extension {
            Some(e) => same_text(e.as_str(), "app"),
            None => false,
        };
        let next = parent_of(dir.as_str());
        let ghost old_bundles = bundles.deep_view();
        let ghost new_chain = chain.push(dir@);
        proof {
            assert(new_chain.drop_last() =~= chain);
            assert(new_chain.last() == dir@);
            assert(is_bundle == is_app_bundle(dir@));
        }
        if is_bundle {
            bundles.push(dir);
            proof {
                assert(bundles.deep_view() =~= old_bundles.push(new_chain.last()));
            }
        }
        proof {
            match &next {
                Some(q) => {
                    assert(ancestors(new_chain.last(), rest) == seq![q@] + ancestors(q@, (rest - 1) as nat));
                    assert(ancestors(path@, fuel) =~= new_chain + seq![q@] + ancestors(q@, (rest - 1) as nat));
                },
                None => {
                    assert(ancestors(new_chain.last(), rest) == Seq::<Seq<char>>::empty());
                    assert(ancestors(path@, fuel) =~= new_chain);
                },
            }
            chain = new_chain;
        }
        current = next;
    }
    bundles
}

/// The bundle identifier of the new Microsoft Teams client.
pub const TEAMS_BUNDLE_ID: &'static str = "com.microsoft.teams2";

/// `id` is the bundle identifier of the new Microsoft Teams client.
pub open spec fn is_teams_bundle_id(id: Seq<char>) -> bool {
    id == TEAMS_BUNDLE_ID@
}

/// The name mentions Teams, ignoring case: the UTF-8 text of its lowercase
/// form contains `teams`.
pub open spec fn names_teams(name: Seq<char>) -> bool {
    occurs_in(encode_utf8(lowercase(name)), encode_utf8("teams"@))
}

/// A process with this bundle identifier and application name is Microsoft
/// Teams: its bundle identifier is that of Teams, or it has none and its
/// application name mentions Teams.
pub open spec fn identifies_teams(bundle_id: Option<Seq<char>>, application_name: Option<Seq<char>>) -> bool {
    match bundle_id {
        Some(id) => is_teams_bundle_id(id),
        None => match application_name {
            Some(name) => names_teams(name),
            None => false,
        },
    }
}

/// A process whose bundle identifier is known and is not that of Teams is
/// never taken for Teams, whatever its application is called: the name is
/// only consulted when the bundle identifier is missing.
pub proof fn lemma_name_only_counts_without_bundle_id(id: Seq<char>, application_name: Option<Seq<char>>)
    requires
        !is_teams_bundle_id(id),
    ensures
        !identifies_teams(Some(id), application_name),
{
}

/// What is known of the process that owns a power assertion.
#[derive(Debug, Clone)]
pub struct ProcessIdentity {
    pub executable_path: String,
    pub bundle_id: Option<String>,
    pub application_name: Option<String>,
}

/// Whether `name` mentions Teams, ignoring case.
fn mentions_teams(name: &str) -> (found: bool)
    ensures
        found == names_teams(name@),
{
    let lower = to_lowercase(name);
    contains_text(lower.as_str(), "teams")
}

/// Whether the process is Microsoft Teams: an exact bundle identifier match,
/// or, only when the bundle identifier is unknown, an application name that
/// mentions Teams.
pub fn is_microsoft_teams(identity: &ProcessIdentity) -> (teams: bool)
    ensures
        teams == identifies_teams(identity.bundle_id.deep_view(), identity.application_name.deep_view()),
{
    match &identity.bundle_id {
        Some(id) => same_text(id.as_str(), TEAMS_BUNDLE_ID),
        None => match &identity.application_name {
            Some(name) => mentions_teams(name.as_str()),
            None => false,
        },
    }
}

/// The bundle identifier read for bundle `i`; none where it could not be read.
pub open spec fn bundle_id_at(ids: Seq<Option<Seq<char>>>, i: int) -> Option<Seq<char>> {
    if 0 <= i < ids.len() {
        ids[i]
    } else {
        None
    }
}

/// The first bundle, from index `from` on among `count` bundles, whose
/// identifier is that of Teams.
pub open spec fn first_teams_id_bundle(count: int, ids: Seq<Option<Seq<char>>>, from: int) -> Option<int>
    decreases count - from,
{
    if from < 0 || from >= count {
        None
    } else if bundle_id_at(ids, from) matches Some(id) && is_teams_bundle_id(id) {
        Some(from)
    } else {
        first_teams_id_bundle(count, ids, from + 1)
    }
}

/// The first bundle, from index `from` on, whose name mentions Teams.
pub open spec fn first_teams_named_bundle(bundles: Seq<Seq<char>>, from: int) -> Option<int>
    decreases bundles.len() - from,
{
    if from < 0 || from >= bundles.len() {
        None
    } else if path_file_stem(bundles[from]) matches Some(name) && names_teams(name) {
        Some(from)
    } else {
        first_teams_named_bundle(bundles, from + 1)
    }
}

/// The bundle identifier and application name recorded for the executable at
/// `path`, where `ids[i]` is the identifier read from its `i`-th bundle: the
/// innermost bundle with the Teams identifier if there is one, else the
/// innermost bundle whose name mentions Teams, else nothing.
pub open spec fn identity_of(path: Seq<char>, ids: Seq<Option<Seq<char>>>) -> (Option<Seq<char>>, Option<Seq<char>>) {
    let bundles = application_bundle_dirs(path);
    match first_teams_id_bundle(bundles.len() as int, ids, 0) {
        Some(i) => (bundle_id_at(ids, i), path_file_stem(bundles[i])),
        None => match first_teams_named_bundle(bundles, 0) {
            Some(i) => (bundle_id_at(ids, i), path_file_stem(bundles[i])),
            None => (None, None),
        },
    }
}

/// Bundle `j` carries the Teams bundle identifier.
pub open spec fn has_teams_id(ids: Seq<Option<Seq<char>>>, j: int) -> bool {
    bundle_id_at(ids, j) == Some(TEAMS_BUNDLE_ID@)
}

/// Bundle `j` of `bundles` is named like Teams.
pub open spec fn has_teams_name(bundles: Seq<Seq<char>>, j: int) -> bool {
    path_file_stem(bundles[j]) matches Some(name) && names_teams(name)
}

/// `first_teams_id_bundle` finds the least index, from `from` on, whose
/// bundle carries the Teams identifier, and none when there is no such index.
proof fn lemma_first_teams_id_bundle_is_least(count: int, ids: Seq<Option<Seq<char>>>, from: int)
    requires
        0 <= from,
    ensures
        match first_teams_id_bundle(count, ids, from) {
            Some(k) => from <= k < count && has_teams_id(ids, k) && forall|j: int|
                from <= j < k ==> !#[trigger] has_teams_id(ids, j),
            None => forall|j: int| from <= j < count ==> !#[trigger] has_teams_id(ids, j),
        },
    decreases count - from,
{
    if from < count {
        lemma_first_teams_id_bundle_is_least(count, ids, from + 1);
    }
}

/// `first_teams_named_bundle` finds the least index, from `from` on, whose
/// bundle is named like Teams, and none when there is no such index.
proof fn lemma_first_teams_named_bundle_is_least(bundles: Seq<Seq<char>>, from: int)
    requires
        0 <= from,
    ensures
        match first_teams_named_bundle(bundles, from) {
            Some(k) => from <= k < bundles.len() && has_teams_name(bundles, k) && forall|j: int|
                from <= j < k ==> !#[trigger] has_teams_name(bundles, j),
            None => forall|j: int| from <= j < bundles.len() ==> !#[trigger] has_teams_name(bundles, j),
        },
    decreases bundles.len() - from,
{
    if from < bundles.len() {
        lemma_first_teams_named_bundle_is_least(bundles, from + 1);
    }
}

/// Wherever an enclosing bundle carries the Teams bundle identifier, the
/// process is recorded with that identifier, under the name of the innermost
/// bundle that carries it, whatever the bundles are called.
pub proof fn lemma_teams_bundle_id_wins(path: Seq<char>, ids: Seq<Option<Seq<char>>>, i: int)
    requires
        0 <= i < application_bundle_dirs(path).len(),
        i < ids.len(),
        ids[i] == Some(TEAMS_BUNDLE_ID@),
    ensures
        identity_of(path, ids).0 == Some(TEAMS_BUNDLE_ID@),
        identifies_teams(identity_of(path, ids).0, identity_of(path, ids).1),
        exists|k: int|
            0 <= k <= i && ids[k] == Some(TEAMS_BUNDLE_ID@) && (forall|j: int|
                0 <= j < k ==> ids[j] != Some(TEAMS_BUNDLE_ID@)) && identity_of(path, ids).1
                == path_file_stem(#[trigger] application_bundle_dirs(path)[k]),
{
    let bundles = application_bundle_dirs(path);
    lemma_first_teams_id_bundle_is_least(bundles.len() as int, ids, 0);
    assert(has_teams_id(ids, i));
    let k = first_teams_id_bundle(bundles.len() as int, ids, 0)->0;
    assert forall|j: int| 0 <= j < k implies ids[j] != Some(TEAMS_BUNDLE_ID@) by {
        assert(!has_teams_id(ids, j));
    }
    assert(path_file_stem(bundles[k]) == identity_of(path, ids).1);
}

/// The innermost bundle with the Teams bundle identifier gives the recorded
/// identity: that identifier, under that bundle's name.
pub proof fn lemma_innermost_teams_bundle_is_recorded(path: Seq<char>, ids: Seq<Option<Seq<char>>>, k: int)
    requires
        0 <= k < application_bundle_dirs(path).len(),
        k < ids.len(),
        ids[k] == Some(TEAMS_BUNDLE_ID@),
        forall|j: int| 0 <= j < k ==> ids[j] != Some(TEAMS_BUNDLE_ID@),
    ensures
        identity_of(path, ids) == (Some(TEAMS_BUNDLE_ID@), path_file_stem(application_bundle_dirs(path)[k])),
{
    let bundles = application_bundle_dirs(path);
    lemma_first_teams_id_bundle_is_least(bundles.len() as int, ids, 0);
    assert(has_teams_id(ids, k));
    let f = first_teams_id_bundle(bundles.len() as int, ids, 0);
    if f != Some(k) {
        let m = f->0;
        if m < k {
            assert(has_teams_id(ids, m));
            assert(ids[m] != Some(TEAMS_BUNDLE_ID@));
        }
        assert(!has_teams_id(ids, k));
    }
}

/// Where no enclosing bundle carries the Teams bundle identifier, the
/// innermost bundle named like Teams gives the identity: the identifier read
/// from it, if any, under its name.
pub proof fn lemma_teams_name_when_no_teams_id(path: Seq<char>, ids: Seq<Option<Seq<char>>>, k: int)
    requires
        forall|j: int|
            0 <= j < application_bundle_dirs(path).len() && j < ids.len() ==> ids[j] != Some(
                TEAMS_BUNDLE_ID@,
            ),
        0 <= k < application_bundle_dirs(path).len(),
        path_file_stem(application_bundle_dirs(path)[k]) matches Some(name) && names_teams(name),
        forall|j: int|
            0 <= j < k ==> !(path_file_stem(#[trigger] application_bundle_dirs(path)[j]) matches Some(
                name,
            ) && names_teams(name)),
    ensures
        identity_of(path, ids) == (bundle_id_at(ids, k), path_file_stem(application_bundle_dirs(path)[k])),
{
    let bundles = application_bundle_dirs(path);
    lemma_first_teams_id_bundle_is_least(bundles.len() as int, ids, 0);
    lemma_first_teams_named_bundle_is_least(bundles, 0);
    let f = first_teams_id_bundle(bundles.len() as int, ids, 0);
    if f is Some {
        assert(has_teams_id(ids, f->0));
    }
    assert(has_teams_name(bundles, k));
    let g = first_teams_named_bundle(bundles, 0);
    if g != Some(k) {
        let m = g->0;
        if m < k {
            assert(has_teams_name(bundles, m));
        }
        assert(!has_teams_name(bundles, k));
    }
}

/// Where no enclosing bundle carries the Teams bundle identifier or is named
/// like Teams, nothing is recorded.
pub proof fn lemma_no_teams_bundle_records_nothing(path: Seq<char>, ids: Seq<Option<Seq<char>>>)
    requires
        forall|j: int|
            0 <= j < application_bundle_dirs(path).len() && j < ids.len() ==> ids[j] != Some(
                TEAMS_BUNDLE_ID@,
            ),
        forall|j: int|
            0 <= j < application_bundle_dirs(path).len() ==> !(path_file_stem(
                #[trigger] application_bundle_dirs(path)[j],
            ) matches Some(name) && names_teams(name)),
    ensures
        identity_of(path, ids) == (None::<Seq<char>>, None::<Seq<char>>),
{
    let bundles = application_bundle_dirs(path);
    lemma_first_teams_id_bundle_is_least(bundles.len() as int, ids, 0);
    lemma_first_teams_named_bundle_is_least(bundles, 0);
    let f = first_teams_id_bundle(bundles.len() as int, ids, 0);
    if f is Some {
        assert(has_teams_id(ids, f->0));
    }
    let g = first_teams_named_bundle(bundles, 0);
    if g is Some {
        assert(has_teams_name(bundles, g->0));
    }
}

/// The string that the property list in `bytes` holds under `key` of its
/// top-level dictionary, as the `plist` crate reads it; none where the bytes
/// are not a property list, its top level is not a dictionary, or the entry
/// is missing or not a string.
pub uninterp spec fn plist_string_value(bytes: Seq<u8>, key: Seq<char>) -> Option<Seq<char>>;

/// Parses `bytes` with `plist::Value::from_reader` and reads the string
/// entry `key` of the top-level dictionary (`as_dictionary`, `get`,
/// `as_string`). The contract names the result, a function of the bytes and
/// the key alone.
#[verifier::external_body]
fn plist_string_entry(bytes: &[u8], key: &str) -> (value: Option<String>)
    ensures
        value.deep_view() == plist_string_value(bytes@, key@),
{
    let parsed = match plist::Value::from_reader(std::io::Cursor::new(bytes)) {
        Ok(parsed) => parsed,
        Err(_) => return None,
    };
    match parsed.as_dictionary() {
        Some(dictionary) => match dictionary.get(key) {
            Some(entry) => match entry.as_string() {
                Some(text) => Some(text.to_owned()),
                None => None,
            },
            None => None,
        },
        None => None,
    }
}

/// The bundle identifier recorded in the bytes of a bundle's `Info.plist`.
pub open spec fn info_plist_bundle_id(bytes: Seq<u8>) -> Option<Seq<char>> {
    plist_string_value(bytes, "CFBundleIdentifier"@)
}

/// The `CFBundleIdentifier` that the bytes of an `Info.plist` record.
pub fn bundle_identifier(info_plist: &[u8]) -> (id: Option<String>)
    ensures
        id.deep_view() == info_plist_bundle_id(info_plist@),
{
    plist_string_entry(info_plist, "CFBundleIdentifier")
}

/// The bundle identifiers recorded in the `Info.plist` contents of the
/// bundles; none where a file could not be read.
pub open spec fn plist_bundle_ids(info_plists: Seq<Option<Seq<u8>>>) -> Seq<Option<Seq<char>>> {
    Seq::new(
        info_plists.len(),
        |i: int|
            match info_plists[i] {
                Some(bytes) => info_plist_bundle_id(bytes),
                None => None,
            },
    )
}

/// The identity of the process whose executable is at `executable_path`.
/// `info_plists[i]` holds the contents of `Contents/Info.plist` of the
/// `i`-th bundle that `application_bundles` lists for that path (none where
/// the file could not be read).
pub fn process_identity(executable_path: String, info_plists: &Vec<Option<Vec<u8>>>) -> (identity:
    ProcessIdentity)
    ensures
        identity.executable_path@ == executable_path@,
        (identity.bundle_id.deep_view(), identity.application_name.deep_view()) == identity_of(
            executable_path@,
            plist_bundle_ids(info_plists.deep_view()),
        ),
        forall|i: int|
            0 <= i < application_bundle_dirs(executable_path@).len() && 0 <= i < info_plists@.len()
                && #[trigger] plist_bundle_ids(info_plists.deep_view())[i] == Some(TEAMS_BUNDLE_ID@)
                ==> identity.bundle_id.deep_view() == Some(TEAMS_BUNDLE_ID@),
{
    let n = info_plists.len();
    let mut ids: Vec<Option<String>> = Vec::new();
    let mut i: usize = 0;
    while i < n
        invariant
            n == info_plists@.len(),
            i <= n,
            ids@.len() == i,
            forall|k: int|
                0 <= k < i ==> (#[trigger] ids.deep_view()[k]) == plist_bundle_ids(
                    info_plists.deep_view(),
                )[k],
        decreases n - i,
    {
        let id = match &info_plists[i] {
            Some(bytes) => {
                proof {
                    assert(bytes.deep_view() =~= bytes@);
                }
                bundle_identifier(bytes.as_slice())
            },
            None => None,
        };
        let ghost before = ids.deep_view();
        ids.push(id);
        proof {
            assert(ids.deep_view() =~= before.push(ids@[i as int].deep_view()));
            assert(info_plists.deep_view()[i as int] == info_plists@[i as int].deep_view());
        }
        i = i + 1;
    }
    proof {
        assert(ids.deep_view() =~= plist_bundle_ids(info_plists.deep_view()));
    }
    let identity = identity_from_bundle_ids(executable_path, &ids);
    proof {
        let path = identity.executable_path@;
        let read = plist_bundle_ids(info_plists.deep_view());
        assert forall|i: int|
            0 <= i < application_bundle_dirs(path).len() && 0 <= i < info_plists@.len()
                && #[trigger] read[i] == Some(TEAMS_BUNDLE_ID@) implies identity.bundle_id.deep_view()
            == Some(TEAMS_BUNDLE_ID@) by {
            lemma_teams_bundle_id_wins(path, read, i);
        }
    }
    identity
}

/// The identity of the process whose executable is at `executable_path`,
/// where `bundle_ids[i]` is the identifier of the `i`-th bundle.
fn identity_from_bundle_ids(executable_path: String, bundle_ids: &Vec<Option<String>>) -> (identity:
    ProcessIdentity)
    ensures
        identity.executable_path@ == executable_path@,
        (identity.bundle_id.deep_view(), identity.application_name.deep_view()) == identity_of(
            executable_path@,
            bundle_ids.deep_view(),
        ),
{
    let bundles = application_bundles(executable_path.as_str());
    let ghost dirs = bundles.deep_view();
    let ghost ids = bundle_ids.deep_view();
    let n = bundles.len();
    let m = bundle_ids.len();
    let mut i: usize = 0;
    while i < n
        invariant
            n == bundles@.len(),
            m == bundle_ids@.len(),
            dirs == bundles.deep_view(),
            ids == bundle_ids.deep_view(),
            dirs == application_bundle_dirs(executable_path@),
            i <= n,
            first_teams_id_bundle(n as int, ids, 0) == first_teams_id_bundle(n as int, ids, i as int),
        decreases n - i,
    {
        if i < m {
            match &bundle_ids[i] {
                Some(id) => {
                    if same_text(id.as_str(), TEAMS_BUNDLE_ID) {
                        let application_name = file_stem_of(bundles[i].as_str());
                        let bundle_id = Some(id.clone());
                        proof {
                            assert(dirs[i as int] == bundles@[i as int]@);
                            assert(ids[i as int] == Some(id@));
                        }
                        return ProcessIdentity { executable_path, bundle_id, application_name };
                    }
                },
                None => {},
            }
        }
        proof {
            assert(i < m ==> ids[i as int] == bundle_ids@[i as int].deep_view());
        }
        i = i + 1;
    }
    let mut j: usize = 0;
    while j < n
        invariant
            n == bundles@.len(),
            m == bundle_ids@.len(),
            dirs == bundles.deep_view(),
            ids == bundle_ids.deep_view(),
            dirs == application_bundle_dirs(executable_path@),
            first_teams_id_bundle(n as int, ids, 0) is None,
            j <= n,
            first_teams_named_bundle(dirs, 0) == first_teams_named_bundle(dirs, j as int),
        decreases n - j,
    {
        let stem = file_stem_of(bundles[j].as_str());
        proof {
            assert(dirs[j as int] == bundles@[j as int]@);
        }
        match stem {
            Some(name) => {
                if mentions_teams(name.as_str()) {
                    let bundle_id = if j < m {
                        bundle_ids[j].clone()
                    } else {
                        None
                    };
                    proof {
                        assert(j < m ==> ids[j as int] == bundle_ids@[j as int].deep_view());
                    }
                    return ProcessIdentity { executable_path, bundle_id, application_name: Some(name) };
                }
            },
            None => {},
        }
        j = j + 1;
    }
    ProcessIdentity { executable_path, bundle_id: None, application_name: None }
}

/// The power assertions that one process holds and that keep the machine
/// awake for a meeting.
#[derive(Debug, Clone)]
pub struct ProcessAssertions {
    pub process_id: i32,
    pub assertion_types: Vec<String>,
}

/// A process found to be a Teams meeting.
#[derive(Debug, Clone)]
pub struct TeamsMeetingObservation {
    pub process_id: i32,
    pub assertion_types: Vec<String>,
}

/// The first of the first `count` assertion owners, from index `from` on,
/// that could be identified and is Microsoft Teams.
pub open spec fn first_teams_owner(owners: Seq<Option<ProcessIdentity>>, count: int, from: int) -> Option<int>
    decreases count - from,
{
    if from < 0 || from >= count {
        None
    } else if from < owners.len() && (owners[from] matches Some(identity) && identifies_teams(
        identity.bundle_id.deep_view(),
        identity.application_name.deep_view(),
    )) {
        Some(from)
    } else {
        first_teams_owner(owners, count, from + 1)
    }
}

/// Owner `j` could be identified and is Microsoft Teams.
pub open spec fn owner_is_teams(owners: Seq<Option<ProcessIdentity>>, j: int) -> bool {
    0 <= j < owners.len() && (owners[j] matches Some(identity) && identifies_teams(
        identity.bundle_id.deep_view(),
        identity.application_name.deep_view(),
    ))
}

/// `first_teams_owner` finds the least index, from `from` on and below
/// `count`, whose owner is Microsoft Teams, and none when there is no such
/// index.
proof fn lemma_first_teams_owner_is_least(owners: Seq<Option<ProcessIdentity>>, count: int, from: int)
    requires
        0 <= from,
    ensures
        match first_teams_owner(owners, count, from) {
            Some(k) => from <= k < count && owner_is_teams(owners, k) && forall|j: int|
                from <= j < k ==> !#[trigger] owner_is_teams(owners, j),
            None => forall|j: int| from <= j < count ==> !#[trigger] owner_is_teams(owners, j),
        },
    decreases count - from,
{
    if from < count {
        lemma_first_teams_owner_is_least(owners, count, from + 1);
    }
}

/// The Teams meeting is held by the first assertion holder, in the order
/// given, whose owner is Microsoft Teams, wherever it stands, the first one
/// included; where no owner of the first `count` holders is Teams there is
/// none.
pub proof fn lemma_first_teams_holder_is_picked(owners: Seq<Option<ProcessIdentity>>, count: int, k: int)
    requires
        0 <= k < count,
        owner_is_teams(owners, k),
        forall|j: int| 0 <= j < k ==> !#[trigger] owner_is_teams(owners, j),
    ensures
        first_teams_owner(owners, count, 0) == Some(k),
{
    lemma_first_teams_owner_is_least(owners, count, 0);
    let f = first_teams_owner(owners, count, 0);
    if f != Some(k) {
        if f is Some {
            assert(owner_is_teams(owners, f->0));
        }
        assert(!owner_is_teams(owners, k));
    }
}

/// Where no owner among the first `count` assertion holders is Microsoft
/// Teams, no meeting is found.
pub proof fn lemma_no_teams_holder_finds_nothing(owners: Seq<Option<ProcessIdentity>>, count: int)
    requires
        forall|j: int| 0 <= j < count ==> !#[trigger] owner_is_teams(owners, j),
    ensures
        first_teams_owner(owners, count, 0) is None,
{
    lemma_first_teams_owner_is_least(owners, count, 0);
    let f = first_teams_owner(owners, count, 0);
    if f is Some {
        assert(owner_is_teams(owners, f->0));
    }
}

/// The Teams meeting among the processes holding no-sleep assertions:
/// the first process, in the order given, whose owner is Microsoft Teams.
/// `owners[i]` is the identity of the owner of `assertions[i]`, none where it
/// could not be resolved.
pub fn detect_teams_meeting(assertions: &Vec<ProcessAssertions>, owners: &Vec<Option<ProcessIdentity>>) -> (found:
    Option<TeamsMeetingObservation>)
    ensures
        match first_teams_owner(owners@, assertions@.len() as int, 0) {
            Some(k) => found matches Some(o) && o.process_id == assertions@[k].process_id
                && o.assertion_types@ == assertions@[k].assertion_types@,
            None => found is None,
        },
        found is None <==> forall|j: int|
            0 <= j < assertions@.len() ==> !#[trigger] owner_is_teams(owners@, j),
        forall|k: int|
            0 <= k < assertions@.len() && owner_is_teams(owners@, k) && (forall|j: int|
                0 <= j < k ==> !#[trigger] owner_is_teams(owners@, j)) ==> (found matches Some(o)
                && o.process_id == assertions@[k].process_id && o.assertion_types@
                == assertions@[k].assertion_types@),
{
    proof {
        lemma_first_teams_owner_is_least(owners@, assertions@.len() as int, 0);
        assert forall|k: int|
            0 <= k < assertions@.len() && owner_is_teams(owners@, k) && (forall|j: int|
                0 <= j < k ==> !#[trigger] owner_is_teams(owners@, j)) implies first_teams_owner(
            owners@,
            assertions@.len() as int,
            0,
        ) == Some(k) by {
            lemma_first_teams_holder_is_picked(owners@, assertions@.len() as int, k);
        }
        let f = first_teams_owner(owners@, assertions@.len() as int, 0);
        if f is Some {
            assert(owner_is_teams(owners@, f->0));
        }
    }
    let n = assertions.len();
    let m = owners.len();
    let mut i: usize = 0;
    while i < n
        invariant
            n == assertions@.len(),
            m == owners@.len(),
            i <= n,
            first_teams_owner(owners@, n as int, 0) == first_teams_owner(owners@, n as int, i as int),
            first_teams_owner(owners@, n as int, 0) is None <==> forall|j: int|
                0 <= j < n ==> !#[trigger] owner_is_teams(owners@, j),
            forall|k: int|
                0 <= k < n && owner_is_teams(owners@, k) && (forall|j: int|
                    0 <= j < k ==> !#[trigger] owner_is_teams(owners@, j)) ==> first_teams_owner(
                    owners@,
                    n as int,
                    0,
                ) == Some(k),
        decreases n - i,
    {
        if i < m {
            match &owners[i] {
                Some(identity) => {
                    if is_microsoft_teams(identity) {
                        let assertion_types = assertions[i].assertion_types.clone();
                        proof {
                            assert(assertion_types@ =~= assertions@[i as int].assertion_types@);
                        }
                        return Some(
                            TeamsMeetingObservation {
                                process_id: assertions[i].process_id,
                                assertion_types,
                            },
                        );
                    }
                },
                None => {},
            }
        }
        i = i + 1;
    }
    None
}

} // verus!
