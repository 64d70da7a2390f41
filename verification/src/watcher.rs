//! Change records reported while a project is watched, the paths they name,
//! and the generation-guarded state of a watch session.

use vstd::prelude::*;
use crate::analysis::{
    chars_are, is_path_separator, is_separator, join, join_strings, lemma_segments_of_name,
    lemma_segments_split, opt_view, segments,
    ChangeAnalysis, PathStyle,
};
use crate::concepts::strings_view;
use crate::diff::{ContentStatus, DiffSource, DiffState, FileDiffRecord, FileSnapshot};
use crate::order::{
    insert_stable, key_map, lemma_bounds_agree_when_absent, lemma_key_map_domain,
    lemma_key_map_value, lex_lt,
    lemma_sort_of_sorted, lemma_sorted_unique, lemma_strictly_sorted_is_sorted, lemma_upsert,
    sort_by_key_spec, strictly_sorted, upsert, upsert_spec, Keyed,
};
use crate::text::{from_chars, owned, to_chars};

verus! {

/// The name of the event that carries one change record.
pub const WATCHER_CHANGE_EVENT: &'static str = "watcher-change";

/// The name of the event that carries the watcher state.
pub const WATCHER_STATE_EVENT: &'static str = "watcher-state";

/// The name of the event that carries the diff state.
pub const DIFF_STATE_EVENT: &'static str = "diff-state";

#[derive(Clone, Copy, Debug, PartialEq, Eq, Structural)]
pub enum WatcherStatus {
    Idle,
    Watching,
    Error,
}

#[derive(Clone, Copy, Debug, PartialEq, Eq, Structural)]
pub enum FileChangeStatus {
    Added,
    Modified,
    Deleted,
}

#[derive(Clone, Debug, PartialEq, Eq)]
pub struct FileChangeRecord {
    pub path: String,
    pub status: FileChangeStatus,
}

impl Keyed for FileChangeRecord {
    open spec fn key(&self) -> Seq<char> {
        self.path@
    }

    fn key_chars(&self) -> (k: Vec<char>) {
        to_chars(self.path.as_str())
    }
}

#[derive(Clone, Debug)]
pub struct WatcherState {
    pub project_path: Option<String>,
    pub status: WatcherStatus,
    pub records: Vec<FileChangeRecord>,
    pub diff: DiffState,
    pub error: Option<String>,
}

impl WatcherState {
    /// The state of a session that watches nothing.
    pub open spec fn is_idle(&self) -> bool {
        &&& self.project_path is None
        &&& self.status == WatcherStatus::Idle
        &&& self.records@.len() == 0
        &&& self.diff.project_path is None
        &&& self.diff.source == DiffSource::Unset
        &&& !self.diff.fallback
        &&& self.diff.files@.len() == 0
        &&& self.diff.total_lines_added == Some(0u64)
        &&& self.diff.total_lines_deleted == Some(0u64)
        &&& self.diff.unknown_line_count_files == 0
        &&& self.diff.error is None
        &&& self.error is None
    }
}

impl Default for WatcherState {
    fn default() -> (s: WatcherState)
        ensures
            s.is_idle(),
    {
        WatcherState {
            project_path: None,
            status: WatcherStatus::Idle,
            records: Vec::new(),
            diff: DiffState::idle(),
            error: None,
        }
    }
}

/// The current change boundary that Ask Mentor and Teaching Mode work on.
#[derive(Clone, Debug, PartialEq, Eq)]
pub struct MentorContext {
    pub project_path: String,
    pub generation: u64,
    pub analysis: ChangeAnalysis,
}

// ---------------------------------------------------------------- coalescing

/// `r` is the burst `changes` coalesced: one record per path, in path order,
/// each path keeping its last record.
pub open spec fn coalesces_to(changes: Seq<FileChangeRecord>, r: Seq<FileChangeRecord>) -> bool {
    strictly_sorted(r) && key_map(r) == key_map(changes)
}

/// Coalesces a burst of change records: one record per path, in path order,
/// each path keeping its last record.
pub fn coalesce_changes(changes: Vec<FileChangeRecord>) -> (r: Vec<FileChangeRecord>)
    ensures
        coalesces_to(changes@, r@),
{
    let ghost whole = changes@;
    let mut out: Vec<FileChangeRecord> = Vec::new();
    for change in it: changes.into_iter()
        invariant
            it.seq() == whole,
            strictly_sorted(out@),
            key_map(out@) == key_map(whole.take(it.index() as int)),
    {
        let ghost i = it.index();
        proof {
            assert(whole.take(i + 1).drop_last() =~= whole.take(i as int));
            assert(whole.take(i + 1).last() == change);
        }
        upsert(&mut out, change);
    }
    proof {
        assert(whole.take(whole.len() as int) =~= whole);
    }
    out
}

/// Coalescing has one outcome for a burst, and coalescing that outcome
/// again gives it back unchanged.
pub proof fn law_coalescing_is_determined_and_idempotent(
    changes: Seq<FileChangeRecord>,
    once: Seq<FileChangeRecord>,
    other: Seq<FileChangeRecord>,
    twice: Seq<FileChangeRecord>,
)
    requires
        coalesces_to(changes, once),
        coalesces_to(changes, other),
        coalesces_to(once, twice),
    ensures
        other == once,
        twice == once,
{
    lemma_sorted_unique(other, once);
    lemma_sorted_unique(twice, once);
}

/// The kinds of file-system event that the watcher tells apart.
#[derive(Clone, Copy, Debug, PartialEq, Eq, Structural)]
pub enum WatchEventKind {
    Create,
    /// A rename; its destination may be a directory full of new files.
    Rename,
    /// Any other modification, of content or metadata.
    Modify,
    Remove,
    /// Access and other events that say nothing of content.
    Other,
}

/// What the watcher does with one path named by an event.
#[derive(Clone, Copy, Debug, PartialEq, Eq, Structural)]
pub enum CandidateAction {
    Skip,
    /// The path is a file, and a candidate change.
    Take,
    /// The path is a directory that may hold new files: each file under it
    /// is a candidate.
    ExpandDirectory,
    /// The path is gone: it is a candidate, and so is each baseline path
    /// under it.
    TakeWithBaselineBelow,
}

/// Decides what to do with an event path from the event's kind and what the
/// file system shows of the path.  Only creates, modifications and removals
/// are about content, and metadata paths are never candidates.  A directory
/// is expanded only for a create or a rename: a directory metadata event must
/// not turn every file under it into a modification.
pub fn candidate_action(kind: WatchEventKind, metadata: bool, is_file: bool, is_dir: bool, exists: bool) -> (r: CandidateAction)
    ensures
        r == (if kind == WatchEventKind::Other || metadata {
            CandidateAction::Skip
        } else if is_file {
            CandidateAction::Take
        } else if is_dir {
            if kind == WatchEventKind::Create || kind == WatchEventKind::Rename {
                CandidateAction::ExpandDirectory
            } else {
                CandidateAction::Skip
            }
        } else if kind == WatchEventKind::Remove || !exists {
            CandidateAction::TakeWithBaselineBelow
        } else {
            CandidateAction::Skip
        }),
{
    match kind {
        WatchEventKind::Other => {
            return CandidateAction::Skip;
        },
        _ => {},
    }
    if metadata {
        return CandidateAction::Skip;
    }
    if is_file {
        return CandidateAction::Take;
    }
    if is_dir {
        return match kind {
            WatchEventKind::Create | WatchEventKind::Rename => CandidateAction::ExpandDirectory,
            _ => CandidateAction::Skip,
        };
    }
    let removed = match kind {
        WatchEventKind::Remove => true,
        _ => false,
    };
    if removed || !exists {
        CandidateAction::TakeWithBaselineBelow
    } else {
        CandidateAction::Skip
    }
}

/// What a burst of watcher events does to the records: the coalesced changes
/// to store, and the affected paths that have no change, to clear.
pub struct BurstPlan {
    pub changes: Vec<FileChangeRecord>,
    pub clear: Vec<String>,
}

/// Whether some record of `changes` has the path `path`.
fn has_change(changes: &Vec<FileChangeRecord>, path: &String) -> (r: bool)
    ensures
        r == key_map(changes@).contains_key(path@),
{
    proof {
        lemma_key_map_domain(changes@, path@);
    }
    let mut i: usize = 0;
    while i < changes.len()
        invariant
            i <= changes@.len(),
            forall|j: int| 0 <= j < i ==> (#[trigger] changes@[j]).key() != path@,
        decreases changes@.len() - i,
    {
        if crate::concepts::string_eq(&changes[i].path, path) {
            proof {
                lemma_key_map_domain(changes@, path@);
                assert(changes@[i as int].key() == path@);
            }
            return true;
        }
        i += 1;
    }
    false
}

/// Plans a burst of events: the changes found are coalesced, and each
/// affected path without a change is cleared, once, in path order.
pub fn plan_burst(affected: Vec<String>, found: Vec<FileChangeRecord>) -> (r: BurstPlan)
    ensures
        coalesces_to(found@, r.changes@),
        strictly_sorted(r.clear@),
        forall|k: Seq<char>|
            #[trigger] key_map(r.clear@).contains_key(k) <==> (strings_view(affected@).contains(k)
                && !key_map(found@).contains_key(k)),
{
    let ghost all = found@;
    let ghost av = strings_view(affected@);
    let changes = coalesce_changes(found);
    let mut clear: Vec<String> = Vec::new();
    for a in it: affected.into_iter()
        invariant
            it.seq() == affected@,
            av == strings_view(affected@),
            coalesces_to(all, changes@),
            strictly_sorted(clear@),
            forall|k: Seq<char>|
                #[trigger] key_map(clear@).contains_key(k) <==> (av.take(it.index() as int).contains(
                    k,
                ) && !key_map(all).contains_key(k)),
    {
        let ghost i = it.index();
        let ghost before = clear@;
        proof {
            assert(av.take(i + 1) =~= av.take(i as int).push(a@));
            assert(av[i as int] == a@);
        }
        let known = has_change(&changes, &a);
        let ghost ka = a@;
        if !known {
            upsert(&mut clear, a);
        }
        proof {
            assert(key_map(changes@) == key_map(all));
            assert forall|k: Seq<char>|
                #[trigger] key_map(clear@).contains_key(k) <==> (av.take(i + 1).contains(k)
                    && !key_map(all).contains_key(k)) by {
                assert(key_map(before).contains_key(k) <==> (av.take(i as int).contains(k)
                    && !key_map(all).contains_key(k)));
                if av.take(i + 1).contains(k) && !av.take(i as int).contains(k) {
                    let j = choose|j: int| 0 <= j < i + 1 && #[trigger] av.take(i + 1)[j] == k;
                    if j < i {
                        assert(av.take(i as int)[j] == k);
                    }
                    assert(k == ka);
                }
                if av.take(i as int).contains(k) {
                    let j = choose|j: int| 0 <= j < i && #[trigger] av.take(i as int)[j] == k;
                    assert(av.take(i + 1)[j] == k);
                }
                if k == ka {
                    assert(av.take(i + 1)[i as int] == k);
                }
            }
        }
    }
    proof {
        assert(av.take(av.len() as int) =~= av);
    }
    BurstPlan { changes, clear }
}

// ---------------------------------------------------------------- paths

/// The normal parts among path segments: non-empty and other than `.`.
pub open spec fn keep_parts(segs: Seq<Seq<char>>) -> Seq<Seq<char>>
    decreases segs.len(),
{
    if segs.len() == 0 {
        seq![]
    } else if segs.last().len() == 0 || segs.last() == "."@ {
        keep_parts(segs.drop_last())
    } else {
        keep_parts(segs.drop_last()).push(segs.last())
    }
}

/// The components of a path other than its root: empty segments and `.`
/// segments do not count.  A Windows drive or verbatim prefix (`C:`, `?`)
/// counts as a component, so it must match like the others.
pub open spec fn path_parts(style: PathStyle, s: Seq<char>) -> Seq<Seq<char>> {
    keep_parts(segments(style, s))
}

/// A path from a root: it starts with a separator, or on Windows with a
/// drive such as `C:`.
pub open spec fn is_absolute(style: PathStyle, s: Seq<char>) -> bool {
    ||| s.len() > 0 && is_separator(style, s[0])
    ||| style == PathStyle::Windows && s.len() >= 2 && s[1] == ':'
}

pub open spec fn outside_message() -> Seq<char> {
    "Changed path is outside the selected project"@
}

/// The path of `path` relative to `root`, written with `/`: an error when it
/// does not lie inside the root, when it is the root itself, or when it
/// climbs out with `..`.
pub open spec fn relative_to(style: PathStyle, root: Seq<char>, path: Seq<char>) -> Result<Seq<char>, Seq<char>> {
    let rp = path_parts(style, root);
    let pp = path_parts(style, path);
    if is_absolute(style, root) != is_absolute(style, path) || rp.len() > pp.len() || pp.take(rp.len() as int)
        != rp {
        Err(outside_message())
    } else {
        let rest = pp.skip(rp.len() as int);
        if rest.len() == 0 {
            Err("The selected project root is not a file"@)
        } else if rest.contains(".."@) {
            Err(outside_message())
        } else {
            Ok(join(rest, "/"@))
        }
    }
}

fn finish_part(out: &mut Vec<String>, cur: &Vec<char>)
    ensures
        strings_view(final(out)@) == if cur@.len() == 0 || cur@ == "."@ {
            strings_view(old(out)@)
        } else {
            strings_view(old(out)@).push(cur@)
        },
{
    if cur.len() > 0 && !chars_are(cur, ".") {
        let ghost prev = out@;
        out.push(from_chars(cur.as_slice()));
        assert(strings_view(out@) =~= strings_view(prev).push(cur@));
    }
}

/// The components of a path.
fn parts_of(style: PathStyle, path: &str) -> (r: Vec<String>)
    ensures
        strings_view(r@) == path_parts(style, path@),
{
    let chars = to_chars(path);
    let ghost s = path@;
    let n = chars.len();
    let mut out: Vec<String> = Vec::new();
    let mut cur: Vec<char> = Vec::new();
    let mut i: usize = 0;
    assert(s.take(0) =~= seq![]);
    while i < n
        invariant
            chars@ == s,
            n == s.len(),
            i <= n,
            segments(style, s.take(i as int)).len() >= 1,
            cur@ == segments(style, s.take(i as int)).last(),
            strings_view(out@) == keep_parts(segments(style, s.take(i as int)).drop_last()),
        decreases n - i,
    {
        let c = chars[i];
        let ghost prev = segments(style, s.take(i as int));
        assert(s.take(i + 1).drop_last() =~= s.take(i as int));
        assert(s.take(i + 1).last() == c);
        if is_path_separator(style, c) {
            finish_part(&mut out, &cur);
            cur = Vec::new();
            proof {
                let next = segments(style, s.take(i + 1));
                assert(next == prev.push(seq![]));
                assert(next.drop_last() =~= prev);
                assert(prev.drop_last().push(prev.last()) =~= prev);
            }
        } else {
            cur.push(c);
            proof {
                let next = segments(style, s.take(i + 1));
                assert(next == prev.update(prev.len() - 1, prev.last().push(c)));
                assert(next.drop_last() =~= prev.drop_last());
            }
        }
        i += 1;
    }
    assert(s.take(n as int) =~= s);
    let ghost segs = segments(style, s);
    finish_part(&mut out, &cur);
    assert(segs.drop_last().push(segs.last()) =~= segs);
    out
}

fn strings_equal_prefix(a: &Vec<String>, b: &Vec<String>) -> (r: bool)
    requires
        a@.len() <= b@.len(),
    ensures
        r == (strings_view(b@).take(a@.len() as int) == strings_view(a@)),
{
    let ghost av = strings_view(a@);
    let ghost bv = strings_view(b@);
    let mut i: usize = 0;
    while i < a.len()
        invariant
            av == strings_view(a@),
            bv == strings_view(b@),
            a@.len() <= b@.len(),
            i <= a@.len(),
            forall|j: int| 0 <= j < i ==> av[j] == bv[j],
        decreases a@.len() - i,
    {
        if a[i] != b[i] {
            assert(bv.take(a@.len() as int)[i as int] != av[i as int]);
            return false;
        }
        i += 1;
    }
    assert(bv.take(a@.len() as int) =~= av);
    true
}

/// Writes an event path relative to the project root with `/` separators,
/// reading the separators of the given path style on the way in.  Both
/// paths are absolute, and the root is canonical.
pub fn normalize_relative_path(style: PathStyle, root: &str, path: &str) -> (r: Result<String, String>)
    ensures
        match r {
            Ok(s) => relative_to(style, root@, path@) == Ok::<Seq<char>, Seq<char>>(s@),
            Err(e) => relative_to(style, root@, path@) == Err::<Seq<char>, Seq<char>>(e@),
        },
{
    let rp = parts_of(style, root);
    let pp = parts_of(style, path);
    let ghost rv = strings_view(rp@);
    let ghost pv = strings_view(pp@);
    let root_absolute = starts_from_root(style, root);
    let path_absolute = starts_from_root(style, path);
    if root_absolute != path_absolute || rp.len() > pp.len() {
        return Err(owned("Changed path is outside the selected project"));
    }
    if !strings_equal_prefix(&rp, &pp) {
        return Err(owned("Changed path is outside the selected project"));
    }
    let mut rest: Vec<String> = Vec::new();
    let mut i: usize = rp.len();
    let mut climbs = false;
    while i < pp.len()
        invariant
            pv == strings_view(pp@),
            rp@.len() <= i <= pp@.len(),
            strings_view(rest@) == pv.subrange(rp@.len() as int, i as int),
            climbs == pv.subrange(rp@.len() as int, i as int).contains(".."@),
        decreases pp@.len() - i,
    {
        let ghost prev = rest@;
        if chars_are(&to_chars(pp[i].as_str()), "..") {
            climbs = true;
        }
        rest.push(pp[i].clone());
        proof {
            assert(strings_view(rest@) =~= strings_view(prev).push(pv[i as int]));
            assert(pv.subrange(rp@.len() as int, i + 1) =~= pv.subrange(
                rp@.len() as int,
                i as int,
            ).push(pv[i as int]));
            let sub = pv.subrange(rp@.len() as int, i + 1);
            if pv[i as int] == ".."@ {
                assert(sub[sub.len() - 1] == ".."@);
            }
            if sub.contains(".."@) && pv[i as int] != ".."@ {
                let k = choose|k: int| 0 <= k < sub.len() && sub[k] == ".."@;
                assert(pv.subrange(rp@.len() as int, i as int)[k] == ".."@);
            }
        }
        i += 1;
    }
    assert(pv.subrange(rp@.len() as int, pp@.len() as int) =~= pv.skip(rp@.len() as int));
    if rest.len() == 0 {
        return Err(owned("The selected project root is not a file"));
    }
    if climbs {
        return Err(owned("Changed path is outside the selected project"));
    }
    Ok(join_strings(&rest, "/"))
}

fn starts_from_root(style: PathStyle, s: &str) -> (r: bool)
    ensures
        r == is_absolute(style, s@),
{
    let c = to_chars(s);
    let drive = match style {
        PathStyle::Windows => c.len() >= 2 && c[1] == ':',
        PathStyle::Unix => false,
    };
    (c.len() > 0 && is_path_separator(style, c[0])) || drive
}

// ---------------------------------------------------------------- classification

/// A path with a `.git` or `.codex` component: repository and mentor
/// metadata describe the workspace, not a change of the user's.
pub open spec fn metadata_path(style: PathStyle, s: Seq<char>) -> bool {
    path_parts(style, s).contains(".git"@) || path_parts(style, s).contains(".codex"@)
}

fn contains_part(parts: &Vec<String>, lit: &str) -> (r: bool)
    ensures
        r == strings_view(parts@).contains(lit@),
{
    let ghost pv = strings_view(parts@);
    let mut i: usize = 0;
    while i < parts.len()
        invariant
            pv == strings_view(parts@),
            i <= parts@.len(),
            forall|j: int| 0 <= j < i ==> pv[j] != lit@,
        decreases parts@.len() - i,
    {
        if chars_are(&to_chars(parts[i].as_str()), lit) {
            assert(pv[i as int] == lit@);
            return true;
        }
        i += 1;
    }
    false
}

/// Whether a path names repository or mentor metadata.
pub fn is_metadata_path(style: PathStyle, path: &str) -> (r: bool)
    ensures
        r == metadata_path(style, path@),
{
    let parts = parts_of(style, path);
    contains_part(&parts, ".git") || contains_part(&parts, ".codex")
}

/// The status of a path from whether the baseline had it and whether it is
/// a file now.
pub open spec fn classify_status(in_baseline: bool, exists: bool) -> Option<FileChangeStatus> {
    if in_baseline && exists {
        Some(FileChangeStatus::Modified)
    } else if in_baseline {
        Some(FileChangeStatus::Deleted)
    } else if exists {
        Some(FileChangeStatus::Added)
    } else {
        None
    }
}

/// The change record of a path, as its relative path and status: none for
/// metadata, for paths outside the root, and for paths that neither were in
/// the baseline nor are files now.
pub open spec fn classification(
    style: PathStyle,
    root: Seq<char>,
    baseline: Seq<Seq<char>>,
    path: Seq<char>,
    exists: bool,
) -> Option<(Seq<char>, FileChangeStatus)> {
    if metadata_path(style, path) {
        None
    } else {
        match relative_to(style, root, path) {
            Err(_) => None,
            Ok(rel) => match classify_status(baseline.contains(rel), exists) {
                Some(st) => Some((rel, st)),
                None => None,
            },
        }
    }
}

fn contains_string(v: &Vec<String>, s: &String) -> (r: bool)
    ensures
        r == strings_view(v@).contains(s@),
{
    let ghost sv = strings_view(v@);
    let mut i: usize = 0;
    while i < v.len()
        invariant
            sv == strings_view(v@),
            i <= v@.len(),
            forall|j: int| 0 <= j < i ==> sv[j] != s@,
        decreases v@.len() - i,
    {
        if v[i] == *s {
            assert(sv[i as int] == s@);
            return true;
        }
        i += 1;
    }
    false
}

/// Classifies the final state of a path against the watch-start baseline.
/// `exists` tells whether the path is a file now.
pub fn classify_path(style: PathStyle, root: &str, baseline: &Vec<String>, path: &str, exists: bool) -> (r: Option<
    FileChangeRecord,
>)
    ensures
        match r {
            Some(c) => classification(style, root@, strings_view(baseline@), path@, exists) == Some(
                (c.path@, c.status),
            ),
            None => classification(style, root@, strings_view(baseline@), path@, exists) is None,
        },
{
    if is_metadata_path(style, path) {
        return None;
    }
    let relative = match normalize_relative_path(style, root, path) {
        Ok(relative) => relative,
        Err(_) => {
            return None;
        },
    };
    let in_baseline = contains_string(baseline, &relative);
    if in_baseline && exists {
        Some(FileChangeRecord { path: relative, status: FileChangeStatus::Modified })
    } else if in_baseline {
        Some(FileChangeRecord { path: relative, status: FileChangeStatus::Deleted })
    } else if exists {
        Some(FileChangeRecord { path: relative, status: FileChangeStatus::Added })
    } else {
        None
    }
}

/// `item` is `rel` itself or lies under the directory `rel`.
pub open spec fn under(rel: Seq<char>, item: Seq<char>) -> bool {
    item == rel || (item.len() > rel.len() && item.take(rel.len() as int + 1) == rel.push('/'))
}

pub open spec fn items_under(rel: Seq<char>, items: Seq<Seq<char>>) -> Seq<Seq<char>>
    decreases items.len(),
{
    if items.len() == 0 {
        seq![]
    } else if under(rel, items.last()) {
        items_under(rel, items.drop_last()).push(items.last())
    } else {
        items_under(rel, items.drop_last())
    }
}

fn is_under(rel: &Vec<char>, item: &str) -> (r: bool)
    ensures
        r == under(rel@, item@),
{
    let it = to_chars(item);
    if crate::order::chars_equal(it.as_slice(), rel.as_slice()) {
        return true;
    }
    if it.len() <= rel.len() {
        return false;
    }
    let mut i: usize = 0;
    while i < rel.len()
        invariant
            i <= rel@.len(),
            rel@.len() < it@.len(),
            it@ == item@,
            it@ != rel@,
            forall|j: int| 0 <= j < i ==> it@[j] == rel@[j],
        decreases rel@.len() - i,
    {
        if it[i] != rel[i] {
            assert(it@.take(rel@.len() as int + 1)[i as int] != rel@.push('/')[i as int]);
            return false;
        }
        i += 1;
    }
    let r = it[rel.len()] == '/';
    if r {
        assert(it@.take(rel@.len() as int + 1) =~= rel@.push('/'));
    } else {
        assert(it@.take(rel@.len() as int + 1)[rel@.len() as int] != rel@.push('/')[rel@.len() as int]);
    }
    r
}

/// The baseline paths that are `relative` itself or lie under it: a removed
/// directory takes them all with it.
pub fn baseline_paths_under(relative: &str, baseline: &Vec<String>) -> (r: Vec<String>)
    ensures
        strings_view(r@) == items_under(relative@, strings_view(baseline@)),
{
    let rel = to_chars(relative);
    let ghost bv = strings_view(baseline@);
    let mut out: Vec<String> = Vec::new();
    let mut i: usize = 0;
    while i < baseline.len()
        invariant
            bv == strings_view(baseline@),
            rel@ == relative@,
            i <= baseline@.len(),
            strings_view(out@) == items_under(relative@, bv.take(i as int)),
        decreases baseline@.len() - i,
    {
        proof {
            assert(bv.take(i + 1).drop_last() =~= bv.take(i as int));
            assert(bv.take(i + 1).last() == baseline@[i as int]@);
        }
        if is_under(&rel, baseline[i].as_str()) {
            let ghost prev = out@;
            out.push(baseline[i].clone());
            assert(strings_view(out@) =~= strings_view(prev).push(baseline@[i as int]@));
        }
        i += 1;
    }
    assert(bv.take(baseline@.len() as int) =~= bv);
    out
}

/// Some file found under the root is captured under the relative path `k`.
pub open spec fn found_as(style: PathStyle, root: Seq<char>, found: Seq<String>, k: Seq<char>) -> bool {
    exists|i: int| 0 <= i < found.len() && crate::diff::captured_path(style, root, #[trigger] found[i]@) == Some(k)
}

/// The watch-start baseline of file names: the files found under the root,
/// given by absolute path, made relative to the root, each once, in order.
/// Paths outside the root and `.git` and `.codex` metadata are left out.
/// Existing files are the baseline, not change records.
pub fn initial_snapshot(style: PathStyle, root: &str, found: Vec<String>) -> (r: Vec<String>)
    ensures
        strictly_sorted(r@),
        forall|k: Seq<char>| #[trigger] key_map(r@).contains_key(k) <==> found_as(style, root@, found@, k),
        forall|i: int| 0 <= i < r@.len() ==> !metadata_path(style, #[trigger] r@[i]@),
{
    let ghost whole = found@;
    let mut out: Vec<String> = Vec::new();
    for p in it: found.into_iter()
        invariant
            it.seq() == whole,
            strictly_sorted(out@),
            forall|k: Seq<char>|
                #[trigger] key_map(out@).contains_key(k) <==> found_as(
                    style,
                    root@,
                    whole.take(it.index() as int),
                    k,
                ),
    {
        let ghost i = it.index();
        let ghost before = out@;
        proof {
            assert(whole.take(i + 1).drop_last() =~= whole.take(i as int));
            assert(whole.take(i + 1).last() == p);
        }
        let rel = crate::git::git_relative_path(style, root, p.as_str());
        let ghost c = crate::diff::captured_path(style, root@, p@);
        match rel {
            Some(x) => {
                upsert(&mut out, x);
            },
            None => {},
        }
        proof {
            let t = whole.take(i + 1);
            let t0 = whole.take(i as int);
            assert forall|k: Seq<char>|
                #[trigger] key_map(out@).contains_key(k) <==> found_as(style, root@, t, k) by {
                assert(key_map(before).contains_key(k) <==> found_as(style, root@, t0, k));
                if found_as(style, root@, t0, k) {
                    let j = choose|j: int|
                        0 <= j < t0.len() && crate::diff::captured_path(style, root@, #[trigger] t0[j]@)
                            == Some(k);
                    assert(t[j] == t0[j]);
                }
                if found_as(style, root@, t, k) {
                    let j = choose|j: int|
                        0 <= j < t.len() && crate::diff::captured_path(style, root@, #[trigger] t[j]@)
                            == Some(k);
                    if j < i {
                        assert(t0[j] == t[j]);
                    }
                }
                if c == Some(k) {
                    assert(t[i as int] == p);
                }
            }
        }
    }
    proof {
        assert(whole.take(whole.len() as int) =~= whole);
        assert forall|i: int| 0 <= i < out@.len() implies !metadata_path(style, #[trigger] out@[i]@) by {
            lemma_key_map_value(out@, i);
            let j = choose|j: int|
                0 <= j < whole.len() && crate::diff::captured_path(style, root@, #[trigger] whole[j]@)
                    == Some(out@[i].key());
        }
    }
    out
}

// ---------------------------------------------------------------- session state

pub open spec fn record_view(r: FileDiffRecord) -> (
    Seq<char>,
    FileChangeStatus,
    Option<u64>,
    Option<u64>,
    ContentStatus,
) {
    (r.path@, r.status, r.lines_added, r.lines_deleted, r.content_status)
}

pub type DiffView = (
    Option<Seq<char>>,
    DiffSource,
    bool,
    Seq<(Seq<char>, FileChangeStatus, Option<u64>, Option<u64>, ContentStatus)>,
    Option<u64>,
    Option<u64>,
    usize,
    Option<Seq<char>>,
);

/// A diff state as plain values; two states are equal when their views are.
pub open spec fn diff_view(d: DiffState) -> DiffView {
    (
        opt_view(d.project_path),
        d.source,
        d.fallback,
        d.files@.map_values(|r: FileDiffRecord| record_view(r)),
        d.total_lines_added,
        d.total_lines_deleted,
        d.unknown_line_count_files,
        opt_view(d.error),
    )
}

/// Change records as plain values.
pub open spec fn changes_view(s: Seq<FileChangeRecord>) -> Seq<(Seq<char>, FileChangeStatus)> {
    s.map_values(|c: FileChangeRecord| (c.path@, c.status))
}

/// The change records that a diff's file records give, in order.
pub open spec fn diff_changes(files: Seq<FileDiffRecord>) -> Seq<(Seq<char>, FileChangeStatus)> {
    files.map_values(|r: FileDiffRecord| (r.path@, r.status))
}

fn opt_string_eq(a: &Option<String>, b: &Option<String>) -> (r: bool)
    ensures
        r == (opt_view(*a) == opt_view(*b)),
{
    match (a, b) {
        (Some(x), Some(y)) => *x == *y,
        (None, None) => true,
        _ => false,
    }
}

fn opt_u64_eq(a: Option<u64>, b: Option<u64>) -> (r: bool)
    ensures
        r == (a == b),
{
    match (a, b) {
        (Some(x), Some(y)) => x == y,
        (None, None) => true,
        _ => false,
    }
}

fn diff_states_equal(a: &DiffState, b: &DiffState) -> (r: bool)
    ensures
        r == (diff_view(*a) == diff_view(*b)),
{
    let ghost af = a.files@.map_values(|r: FileDiffRecord| record_view(r));
    let ghost bf = b.files@.map_values(|r: FileDiffRecord| record_view(r));
    if !opt_string_eq(&a.project_path, &b.project_path) || a.source != b.source || a.fallback
        != b.fallback || !opt_u64_eq(a.total_lines_added, b.total_lines_added) || !opt_u64_eq(
        a.total_lines_deleted,
        b.total_lines_deleted,
    ) || a.unknown_line_count_files != b.unknown_line_count_files || !opt_string_eq(
        &a.error,
        &b.error,
    ) || a.files.len() != b.files.len() {
        proof {
            if a.files@.len() != b.files@.len() {
                assert(af.len() != bf.len());
            }
        }
        return false;
    }
    let mut i: usize = 0;
    while i < a.files.len()
        invariant
            af == a.files@.map_values(|r: FileDiffRecord| record_view(r)),
            bf == b.files@.map_values(|r: FileDiffRecord| record_view(r)),
            a.files@.len() == b.files@.len(),
            i <= a.files@.len(),
            forall|j: int| 0 <= j < i ==> af[j] == bf[j],
        decreases a.files@.len() - i,
    {
        let x = &a.files[i];
        let y = &b.files[i];
        if !(x.path == y.path && x.status == y.status && opt_u64_eq(x.lines_added, y.lines_added)
            && opt_u64_eq(x.lines_deleted, y.lines_deleted) && x.content_status
            == y.content_status) {
            assert(af[i as int] != bf[i as int]);
            return false;
        }
        i += 1;
    }
    assert(af =~= bf);
    true
}

fn changes_equal(a: &Vec<FileChangeRecord>, b: &Vec<FileChangeRecord>) -> (r: bool)
    ensures
        r == (changes_view(a@) == changes_view(b@)),
{
    let ghost av = changes_view(a@);
    let ghost bv = changes_view(b@);
    if a.len() != b.len() {
        assert(av.len() != bv.len());
        return false;
    }
    let mut i: usize = 0;
    while i < a.len()
        invariant
            av == changes_view(a@),
            bv == changes_view(b@),
            a@.len() == b@.len(),
            i <= a@.len(),
            forall|j: int| 0 <= j < i ==> av[j] == bv[j],
        decreases a@.len() - i,
    {
        if !(a[i].path == b[i].path && a[i].status == b[i].status) {
            assert(av[i as int] != bv[i as int]);
            return false;
        }
        i += 1;
    }
    assert(av =~= bv);
    true
}

fn clone_change(c: &FileChangeRecord) -> (r: FileChangeRecord)
    ensures
        r == *c,
{
    FileChangeRecord { path: c.path.clone(), status: c.status }
}

fn clone_opt_string(a: &Option<String>) -> (r: Option<String>)
    ensures
        r == *a,
{
    match a {
        Some(x) => Some(x.clone()),
        None => None,
    }
}

/// The records that stay when `path` is cleared: those neither at `path`
/// nor under it.
pub open spec fn outside_tree(records: Seq<FileChangeRecord>, path: Seq<char>) -> Seq<FileChangeRecord>
    decreases records.len(),
{
    if records.len() == 0 {
        seq![]
    } else if under(path, records.last().path@) {
        outside_tree(records.drop_last(), path)
    } else {
        outside_tree(records.drop_last(), path).push(records.last())
    }
}

/// The records without the one at `path`.
pub open spec fn without_path(records: Seq<FileChangeRecord>, path: Seq<char>) -> Seq<FileChangeRecord>
    decreases records.len(),
{
    if records.len() == 0 {
        seq![]
    } else if records.last().path@ == path {
        without_path(records.drop_last(), path)
    } else {
        without_path(records.drop_last(), path).push(records.last())
    }
}

/// The state of a watch session that the watcher threads share.  Every
/// operation names the generation it belongs to, and only the current
/// generation may change anything: a newer start or stop claims a new
/// generation and thereby invalidates all older work.
/// Dropping a path's records from records kept one per path in path order
/// keeps the others in order and forgets the path.
proof fn lemma_without_path(s: Seq<FileChangeRecord>, k: Seq<char>)
    requires
        strictly_sorted(s),
    ensures
        strictly_sorted(without_path(s, k)),
        key_map(without_path(s, k)) == key_map(s).remove(k),
        forall|i: int|
            0 <= i < without_path(s, k).len() ==> (#[trigger] without_path(s, k)[i]).key() != k
                && key_map(s).contains_key(without_path(s, k)[i].key()),
    decreases s.len(),
{
    if s.len() > 0 {
        let d = s.drop_last();
        assert(strictly_sorted(d));
        lemma_without_path(d, k);
        let wd = without_path(d, k);
        let x = s.last();
        if x.path@ == k {
            assert(key_map(wd) =~= key_map(s).remove(k));
        } else {
            let w = wd.push(x);
            assert(w == without_path(s, k));
            assert forall|i: int, j: int| 0 <= i < j < w.len() implies lex_lt(
                #[trigger] w[i].key(),
                #[trigger] w[j].key(),
            ) by {
                if j == w.len() - 1 {
                    lemma_key_map_domain(d, wd[i].key());
                    let m = choose|m: int| 0 <= m < d.len() && #[trigger] d[m].key() == wd[i].key();
                    assert(lex_lt(s[m].key(), s[s.len() - 1].key()));
                } else {
                    assert(w[i] == wd[i] && w[j] == wd[j]);
                }
            }
            assert(w.drop_last() =~= wd);
            assert(key_map(w) == key_map(wd).insert(x.key(), x));
            assert(key_map(s) == key_map(d).insert(x.key(), x));
            assert(key_map(w) =~= key_map(s).remove(k));
            assert forall|i: int|
                0 <= i < w.len() implies (#[trigger] w[i]).key() != k && key_map(s).contains_key(
                w[i].key()) by {
                if i < w.len() - 1 {
                    assert(w[i] == wd[i]);
                }
            }
        }
    }
}

/// Dropping the records under a path keeps the others in path order.
proof fn lemma_outside_tree(s: Seq<FileChangeRecord>, k: Seq<char>)
    requires
        strictly_sorted(s),
    ensures
        strictly_sorted(outside_tree(s, k)),
        forall|i: int|
            0 <= i < outside_tree(s, k).len() ==> key_map(s).contains_key(
                (#[trigger] outside_tree(s, k)[i]).key(),
            ),
    decreases s.len(),
{
    if s.len() > 0 {
        let d = s.drop_last();
        assert(strictly_sorted(d));
        lemma_outside_tree(d, k);
        let od = outside_tree(d, k);
        let x = s.last();
        if !under(k, x.path@) {
            let w = od.push(x);
            assert forall|i: int, j: int| 0 <= i < j < w.len() implies lex_lt(
                #[trigger] w[i].key(),
                #[trigger] w[j].key(),
            ) by {
                if j == w.len() - 1 {
                    lemma_key_map_domain(d, od[i].key());
                    let m = choose|m: int| 0 <= m < d.len() && #[trigger] d[m].key() == od[i].key();
                    assert(lex_lt(s[m].key(), s[s.len() - 1].key()));
                } else {
                    assert(w[i] == od[i] && w[j] == od[j]);
                }
            }
            assert forall|i: int| 0 <= i < w.len() implies key_map(s).contains_key(
                (#[trigger] w[i]).key(),
            ) by {
                if i < w.len() - 1 {
                    assert(w[i] == od[i]);
                }
            }
        }
    }
}

/// Replacing a path's record in records kept one per path in path order,
/// by dropping it, appending the new record and sorting, stores the new
/// record under its path and keeps the records one per path in path order.
pub proof fn lemma_replace_record(s: Seq<FileChangeRecord>, change: FileChangeRecord)
    requires
        strictly_sorted(s),
    ensures
        strictly_sorted(sort_by_key_spec(without_path(s, change.path@).push(change))),
        key_map(sort_by_key_spec(without_path(s, change.path@).push(change))) == key_map(s).insert(
            change.path@,
            change,
        ),
{
    let k = change.path@;
    let t = without_path(s, k);
    lemma_without_path(s, k);
    lemma_strictly_sorted_is_sorted(t);
    lemma_sort_of_sorted(t);
    assert(t.push(change).drop_last() =~= t);
    assert(sort_by_key_spec(t.push(change)) == insert_stable(t, change));
    lemma_bounds_agree_when_absent(t, k, 0);
    crate::order::lemma_lower_bound(t, k, 0);
    let p = crate::order::lower_bound_from(t, k, 0);
    if p < t.len() {
        assert(t[p].key() != k);
    }
    assert(insert_stable(t, change) == upsert_spec(t, change));
    lemma_upsert(t, change);
    assert(key_map(t).insert(k, change) =~= key_map(s).insert(k, change));
}

pub struct WatchRuntime {
    pub generation: u64,
    pub state: WatcherState,
    pub baseline: Option<FileSnapshot>,
}

impl WatchRuntime {
    pub fn new() -> (r: WatchRuntime)
        ensures
            r.generation == 0,
            r.state.is_idle(),
            r.baseline is None,
    {
        WatchRuntime { generation: 0, state: WatcherState::default(), baseline: None }
    }

    /// Claims a new generation for a start or stop, before any slow work, and
    /// drops the baseline of the previous session.
    pub fn claim_start_generation(&mut self) -> (g: u64)
        ensures
            g == (if old(self).generation == u64::MAX {
                0
            } else {
                (old(self).generation + 1) as u64
            }),
            g != old(self).generation,
            final(self).generation == g,
            final(self).baseline is None,
            final(self).state == old(self).state,
    {
        self.generation = self.generation.wrapping_add(1);
        self.baseline = None;
        self.generation
    }

    pub fn is_current(&self, generation: u64) -> (r: bool)
        ensures
            r == (generation == self.generation),
    {
        generation == self.generation
    }

    /// Installs the state of a start, unless a newer command took over.
    pub fn install_start_state(&mut self, generation: u64, state: WatcherState) -> (r: bool)
        ensures
            r == (generation == old(self).generation),
            r ==> final(self).state == state && final(self).generation == old(self).generation
                && final(self).baseline == old(self).baseline,
            !r ==> *final(self) == *old(self),
    {
        if generation != self.generation {
            return false;
        }
        self.state = state;
        true
    }

    /// Stores the watch-start snapshot, unless a newer command took over.
    pub fn install_baseline(&mut self, generation: u64, baseline: FileSnapshot) -> (r: bool)
        ensures
            r == (generation == old(self).generation),
            r ==> final(self).baseline == Some(baseline) && final(self).generation == old(self).generation && final(self).state == old(self).state,
            !r ==> *final(self) == *old(self),
    {
        if generation != self.generation {
            return false;
        }
        self.baseline = Some(baseline);
        true
    }

    /// Drops the watch-start snapshot of a start that failed.
    pub fn drop_baseline(&mut self, generation: u64) -> (r: bool)
        ensures
            r == (generation == old(self).generation),
            r ==> final(self).baseline is None && final(self).generation == old(self).generation
                && final(self).state == old(self).state,
            !r ==> *final(self) == *old(self),
    {
        if generation != self.generation {
            return false;
        }
        self.baseline = None;
        true
    }

    /// Returns the session to idle for a stop.
    pub fn reset_state(&mut self, generation: u64) -> (r: bool)
        ensures
            r == (generation == old(self).generation),
            r ==> final(self).state.is_idle() && final(self).generation == old(self).generation
                && final(self).baseline == old(self).baseline,
            !r ==> *final(self) == *old(self),
    {
        if generation != self.generation {
            return false;
        }
        self.state = WatcherState::default();
        true
    }

    /// Records the final status of a path: its earlier record is replaced
    /// and the records stay in path order.
    pub fn update_runtime(&mut self, generation: u64, change: FileChangeRecord) -> (r: bool)
        ensures
            r == (generation == old(self).generation),
            r ==> {
                &&& final(self).state.records@ == crate::order::sort_by_key_spec(
                    without_path(old(self).state.records@, change.path@).push(change),
                )
                &&& strictly_sorted(old(self).state.records@) ==> strictly_sorted(
                    final(self).state.records@,
                ) && key_map(final(self).state.records@) == key_map(
                    old(self).state.records@,
                ).insert(change.path@, change)
                &&& final(self).state.status == WatcherStatus::Watching
                &&& final(self).state.error is None
                &&& final(self).state.project_path == old(self).state.project_path
                &&& final(self).state.diff == old(self).state.diff
                &&& final(self).generation == old(self).generation
                &&& final(self).baseline == old(self).baseline
            },
            !r ==> *final(self) == *old(self),
    {
        if generation != self.generation {
            return false;
        }
        let ghost whole = self.state.records@;
        let mut kept: Vec<FileChangeRecord> = Vec::new();
        let mut i: usize = 0;
        while i < self.state.records.len()
            invariant
                whole == self.state.records@,
                i <= whole.len(),
                kept@ == without_path(whole.take(i as int), change.path@),
            decreases whole.len() - i,
        {
            proof {
                assert(whole.take(i + 1).drop_last() =~= whole.take(i as int));
                assert(whole.take(i + 1).last() == whole[i as int]);
            }
            if self.state.records[i].path != change.path {
                kept.push(clone_change(&self.state.records[i]));
            }
            i += 1;
        }
        assert(whole.take(whole.len() as int) =~= whole);
        proof {
            if strictly_sorted(whole) {
                lemma_replace_record(whole, change);
            }
        }
        kept.push(change);
        self.state.records = crate::order::sort_by_key(kept);
        self.state.status = WatcherStatus::Watching;
        self.state.error = None;
        true
    }

    /// Clears the records at `path` and under it.  `false` when nothing was
    /// cleared, and then nothing changes.
    pub fn clear_runtime_path(&mut self, generation: u64, path: &str) -> (r: bool)
        ensures
            r == (generation == old(self).generation && outside_tree(
                old(self).state.records@,
                path@,
            ).len() != old(self).state.records@.len()),
            r ==> {
                &&& final(self).state.records@ == outside_tree(old(self).state.records@, path@)
                &&& strictly_sorted(old(self).state.records@) ==> strictly_sorted(
                    final(self).state.records@,
                )
                &&& final(self).state.status == WatcherStatus::Watching
                &&& final(self).state.error is None
                &&& final(self).state.project_path == old(self).state.project_path
                &&& final(self).state.diff == old(self).state.diff
                &&& final(self).generation == old(self).generation
                &&& final(self).baseline == old(self).baseline
            },
            !r ==> *final(self) == *old(self),
    {
        if generation != self.generation {
            return false;
        }
        let rel = to_chars(path);
        let ghost recs = self.state.records@;
        let mut kept: Vec<FileChangeRecord> = Vec::new();
        let mut i: usize = 0;
        while i < self.state.records.len()
            invariant
                recs == self.state.records@,
                rel@ == path@,
                i <= recs.len(),
                kept@ == outside_tree(recs.take(i as int), path@),
            decreases recs.len() - i,
        {
            proof {
                assert(recs.take(i + 1).drop_last() =~= recs.take(i as int));
                assert(recs.take(i + 1).last() == recs[i as int]);
            }
            if !is_under(&rel, self.state.records[i].path.as_str()) {
                kept.push(clone_change(&self.state.records[i]));
            }
            i += 1;
        }
        assert(recs.take(recs.len() as int) =~= recs);
        if kept.len() == self.state.records.len() {
            return false;
        }
        proof {
            if strictly_sorted(recs) {
                lemma_outside_tree(recs, path@);
            }
        }
        self.state.records = kept;
        self.state.status = WatcherStatus::Watching;
        self.state.error = None;
        true
    }

    /// Reports a watcher error.
    pub fn set_runtime_error(&mut self, generation: u64, error: String) -> (r: bool)
        ensures
            r == (generation == old(self).generation),
            r ==> {
                &&& final(self).state.status == WatcherStatus::Error
                &&& final(self).state.error == Some(error)
                &&& final(self).state.records == old(self).state.records
                &&& final(self).state.project_path == old(self).state.project_path
                &&& final(self).state.diff == old(self).state.diff
                &&& final(self).generation == old(self).generation
                &&& final(self).baseline == old(self).baseline
            },
            !r ==> *final(self) == *old(self),
    {
        if generation != self.generation {
            return false;
        }
        self.state.status = WatcherStatus::Error;
        self.state.error = Some(error);
        true
    }

    /// Replaces the diff, and the records and error that it implies, when it
    /// differs from the current ones.  `false` when nothing differs, and then
    /// nothing changes.
    pub fn refresh_runtime_diff(&mut self, generation: u64, diff: DiffState) -> (r: bool)
        ensures
            r == (generation == old(self).generation && !(diff_view(old(self).state.diff)
                == diff_view(diff) && changes_view(old(self).state.records@) == diff_changes(
                diff.files@,
            ) && opt_view(old(self).state.error) == opt_view(diff.error))),
            r ==> {
                &&& final(self).state.diff == diff
                &&& changes_view(final(self).state.records@) == diff_changes(diff.files@)
                &&& final(self).state.error == diff.error
                &&& final(self).state.status == old(self).state.status
                &&& final(self).state.project_path == old(self).state.project_path
                &&& final(self).generation == old(self).generation
                &&& final(self).baseline == old(self).baseline
            },
            !r ==> *final(self) == *old(self),
    {
        if generation != self.generation {
            return false;
        }
        let ghost files = diff.files@;
        let mut next: Vec<FileChangeRecord> = Vec::new();
        let mut i: usize = 0;
        while i < diff.files.len()
            invariant
                files == diff.files@,
                i <= files.len(),
                changes_view(next@) == diff_changes(files.take(i as int)),
            decreases files.len() - i,
        {
            let ghost prev = next@;
            let rec = FileChangeRecord {
                path: diff.files[i].path.clone(),
                status: diff.files[i].status,
            };
            assert(rec.path@ == files[i as int].path@ && rec.status == files[i as int].status);
            next.push(rec);
            assert(next@ == prev.push(rec));
            assert(changes_view(next@) =~= changes_view(prev).push((rec.path@, rec.status)));
            assert(diff_changes(files.take(i + 1)) =~= diff_changes(files.take(i as int)).push(
                (files[i as int].path@, files[i as int].status),
            ));
            i += 1;
        }
        assert(files.take(files.len() as int) =~= files);
        if diff_states_equal(&self.state.diff, &diff) && changes_equal(&self.state.records, &next)
            && opt_string_eq(&self.state.error, &diff.error) {
            return false;
        }
        let error = clone_opt_string(&diff.error);
        self.state.diff = diff;
        self.state.records = next;
        self.state.error = error;
        true
    }
}

/// The error of a start that a newer command took over.
pub fn superseded_start_error() -> (r: String)
    ensures
        r@ == "Project watch start was superseded by a newer command"@,
{
    owned("Project watch start was superseded by a newer command")
}

proof fn lemma_keep_parts_join(x: Seq<Seq<char>>, y: Seq<Seq<char>>)
    ensures
        keep_parts(x + y) == keep_parts(x) + keep_parts(y),
    decreases y.len(),
{
    if y.len() == 0 {
        assert(x + y =~= x);
        assert(keep_parts(x) + keep_parts(y) =~= keep_parts(x));
    } else {
        assert((x + y).drop_last() =~= x + y.drop_last());
        assert((x + y).last() == y.last());
        lemma_keep_parts_join(x, y.drop_last());
        if !(y.last().len() == 0 || y.last() == "."@) {
            assert(keep_parts(x) + keep_parts(y.drop_last()).push(y.last()) =~= (keep_parts(x)
                + keep_parts(y.drop_last())).push(y.last()));
        }
    }
}

/// Which paths are repository or mentor metadata: a single name is metadata
/// exactly when it is `.git` or `.codex` (names that only start like them,
/// such as `.gitignore` or `.github`, are ordinary), and a path joined from
/// two with `/` is metadata exactly when one of the two is.
pub proof fn law_metadata_is_decided_by_names(style: PathStyle, s: Seq<char>, a: Seq<char>, b: Seq<char>)
    ensures
        s.len() > 0 && (forall|i: int| 0 <= i < s.len() ==> !is_separator(style, #[trigger] s[i]))
            ==> (metadata_path(style, s) <==> (s == ".git"@ || s == ".codex"@)),
        metadata_path(style, a + seq!['/'] + b) <==> (metadata_path(style, a) || metadata_path(
            style,
            b,
        )),
{
    reveal_strlit(".");
    reveal_strlit(".git");
    reveal_strlit(".codex");
    if s.len() > 0 && (forall|i: int| 0 <= i < s.len() ==> !is_separator(style, #[trigger] s[i])) {
        lemma_segments_of_name(style, s);
        let one = seq![s];
        assert(one.drop_last() =~= Seq::<Seq<char>>::empty());
        assert(one.last() == s);
        assert(keep_parts(one.drop_last()) == Seq::<Seq<char>>::empty());
        assert(path_parts(style, s) == keep_parts(one));
        if s == "."@ {
            assert(path_parts(style, s) =~= Seq::<Seq<char>>::empty());
        } else {
            assert(path_parts(style, s) =~= seq![s]);
        }
    }
    lemma_segments_split(style, a, b);
    lemma_keep_parts_join(segments(style, a), segments(style, b));
    let pa = path_parts(style, a);
    let pb = path_parts(style, b);
    assert(path_parts(style, a + seq!['/'] + b) == pa + pb);
    assert forall|w: Seq<char>| (pa + pb).contains(w) <==> (pa.contains(w) || pb.contains(w)) by {
        if (pa + pb).contains(w) {
            let k = choose|k: int| 0 <= k < (pa + pb).len() && (pa + pb)[k] == w;
            if k < pa.len() {
                assert(pa[k] == w);
            } else {
                assert(pb[k - pa.len()] == w);
            }
        }
        if pa.contains(w) {
            let k = choose|k: int| 0 <= k < pa.len() && pa[k] == w;
            assert((pa + pb)[k] == w);
        }
        if pb.contains(w) {
            let k = choose|k: int| 0 <= k < pb.len() && pb[k] == w;
            assert((pa + pb)[pa.len() + k] == w);
        }
    }
    assert((pa + pb).contains(".git"@) <==> (pa.contains(".git"@) || pb.contains(".git"@)));
    assert((pa + pb).contains(".codex"@) <==> (pa.contains(".codex"@) || pb.contains(".codex"@)));
}

proof fn lemma_parts_of_joined_name(style: PathStyle, root: Seq<char>, name: Seq<char>)
    requires
        name.len() > 0,
        name != "."@,
        forall|i: int| 0 <= i < name.len() ==> !is_separator(style, #[trigger] name[i]),
    ensures
        path_parts(style, root + seq!['/'] + name) == path_parts(style, root).push(name),
{
    lemma_segments_split(style, root, name);
    lemma_segments_of_name(style, name);
    lemma_keep_parts_join(segments(style, root), seq![name]);
    let one = seq![name];
    assert(one.drop_last() =~= Seq::<Seq<char>>::empty());
    assert(one.last() == name);
    assert(keep_parts(one.drop_last()) == Seq::<Seq<char>>::empty());
    assert(keep_parts(one) =~= seq![name]);
    assert(path_parts(style, root) + seq![name] =~= path_parts(style, root).push(name));
}

proof fn lemma_root_prefix_keeps_absolute(style: PathStyle, root: Seq<char>, rest: Seq<char>)
    requires
        root.len() > 0,
    ensures
        is_absolute(style, root + seq!['/'] + rest) == is_absolute(style, root),
{
    let p = root + seq!['/'] + rest;
    assert(p[0] == root[0]);
    if root.len() >= 2 {
        assert(p[1] == root[1]);
    } else {
        assert(p[1] == '/');
    }
}

/// Paths under the selected root: a plain name joined to the root with `/`
/// is that name relative to the root, and a path that climbs out of the root
/// with `..` is refused as outside it.
pub proof fn law_paths_relative_to_the_root(style: PathStyle, root: Seq<char>, name: Seq<char>)
    requires
        root.len() > 0,
        name.len() > 0,
        name != "."@,
        name != ".."@,
        forall|i: int| 0 <= i < name.len() ==> !is_separator(style, #[trigger] name[i]),
    ensures
        relative_to(style, root, root + seq!['/'] + name) == Ok::<Seq<char>, Seq<char>>(name),
        relative_to(style, root, root + seq!['/'] + ".."@ + seq!['/'] + name) == Err::<
            Seq<char>,
            Seq<char>,
        >(outside_message()),
{
    reveal_strlit("..");
    reveal_strlit(".");
    let rp = path_parts(style, root);
    lemma_parts_of_joined_name(style, root, name);
    lemma_root_prefix_keeps_absolute(style, root, name);
    let pp = rp.push(name);
    assert(pp.take(rp.len() as int) =~= rp);
    assert(pp.skip(rp.len() as int) =~= seq![name]);
    assert(!seq![name].contains(".."@)) by {
        if seq![name].contains(".."@) {
            let k = choose|k: int| 0 <= k < 1 && seq![name][k] == ".."@;
        }
    }
    let dd = root + seq!['/'] + ".."@;
    assert(forall|i: int| 0 <= i < 2 ==> !is_separator(style, #[trigger] ".."@[i]));
    lemma_parts_of_joined_name(style, root, ".."@);
    lemma_parts_of_joined_name(style, dd, name);
    lemma_root_prefix_keeps_absolute(style, root, ".."@ + seq!['/'] + name);
    assert(root + seq!['/'] + ".."@ + seq!['/'] + name =~= dd + seq!['/'] + name);
    assert(root + seq!['/'] + (".."@ + seq!['/'] + name) =~= dd + seq!['/'] + name);
    let qq = rp.push(".."@).push(name);
    assert(qq.take(rp.len() as int) =~= rp);
    assert(qq.skip(rp.len() as int) =~= seq![".."@, name]);
    assert(seq![".."@, name][0] == ".."@);
}

} // verus!
