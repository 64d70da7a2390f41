//! The canonical change analysis: the scoped context of a completed change
//! between two frozen snapshots, and the deterministic record built from it.

use vstd::prelude::*;
use crate::concepts::{
    concepts_for, concepts_from_texts, default_concept_map, default_map_view, strings_view,
};
use crate::diff::{
    combined_status, diff_snapshots, is_text, path_change, records_describe_changes,
    snapshot_entry, total_spec, added_counts, deleted_counts, unknown_count, ContentStatus,
    DiffSource, DiffState, FileDiffRecord, FileSnapshot, SnapshotEntry, SnapshotFile,
};
use crate::order::{
    chars_equal, key_map, lemma_key_map_domain, lemma_key_map_value, lemma_sort_keys,
    lemma_sorted_keys_unique, sort_by_key, sort_by_key_spec, strictly_sorted, Keyed,
};
use crate::text::{decode_utf8_bytes, from_chars, is_white_space, is_whitespace, owned, push_str, to_chars};
use crate::watcher::FileChangeStatus;

verus! {

/// The name of the event that carries the analysis state to the interface.
pub const ANALYSIS_STATE_EVENT: &'static str = "analysis-state";

/// The canonical fields of a change record.  Lifecycle and source details
/// live in [`ChangeAnalysis::metadata`], so that explanation modes can reuse
/// the record as it is.
#[derive(Clone, Debug, Default, PartialEq, Eq)]
pub struct ChangeRecord {
    pub summary: String,
    pub purpose: String,
    pub changed_components: Vec<String>,
    pub key_decisions: Vec<String>,
    pub how_it_works: String,
    pub impact: String,
    pub risk: String,
    pub review_priority: String,
    pub programming_concepts: Vec<String>,
    pub relevant_code_locations: Vec<String>,
}

/// Completion information that was supplied explicitly.  Nothing here is
/// ever invented: absent values stay absent.
#[derive(Clone, Debug, Default, PartialEq, Eq)]
pub struct CompletionMetadata {
    pub task: Option<String>,
    pub plan: Option<Vec<String>>,
    pub completion: Option<String>,
    pub tests: Option<Vec<String>>,
}

#[derive(Clone, Debug, PartialEq, Eq)]
pub struct AnalysisMetadata {
    pub project_path: String,
    pub source: String,
    pub completion: String,
    /// The watcher generation at the completed-change boundary; it tells two
    /// sequential changes apart even when their snapshots are identical.
    pub completion_generation: u64,
    pub changed_file_count: usize,
    pub supplied: CompletionMetadata,
}

/// The source of one changed file in the scoped context.  Binary and
/// unavailable entries keep their status but carry no content.
#[derive(Clone, Debug, PartialEq, Eq)]
pub struct ScopedFileContext {
    pub path: String,
    pub status: FileChangeStatus,
    pub content_status: ContentStatus,
    pub before: Option<String>,
    pub after: Option<String>,
}

impl Keyed for ScopedFileContext {
    open spec fn key(&self) -> Seq<char> {
        self.path@
    }

    fn key_chars(&self) -> (k: Vec<char>) {
        to_chars(self.path.as_str())
    }
}

#[derive(Clone, Debug, PartialEq, Eq)]
pub struct AnalysisContext {
    pub project_path: String,
    pub diff: DiffState,
    pub files: Vec<ScopedFileContext>,
    pub supplied: CompletionMetadata,
}

#[derive(Clone, Debug, PartialEq, Eq)]
pub struct ChangeAnalysis {
    pub record: ChangeRecord,
    pub metadata: AnalysisMetadata,
    /// The completed change's own before and after sources; they stay as
    /// they were when the watcher moves on to a new baseline.
    pub frozen_files: Vec<ScopedFileContext>,
}

#[derive(Clone, Copy, Debug, PartialEq, Eq, Structural)]
pub enum AnalysisStatus {
    Idle,
    Available,
    Error,
}

#[derive(Clone, Debug, PartialEq, Eq)]
pub struct AnalysisState {
    pub status: AnalysisStatus,
    pub analysis: Option<ChangeAnalysis>,
    pub error: Option<String>,
}

impl Default for AnalysisState {
    fn default() -> (s: AnalysisState)
        ensures
            s.status == AnalysisStatus::Idle,
            s.analysis is None,
            s.error is None,
    {
        AnalysisState { status: AnalysisStatus::Idle, analysis: None, error: None }
    }
}

// ---------------------------------------------------------------- paths

/// How the host system writes paths.  Unix separates components with `/`
/// alone, so `\` is part of a name there; Windows also separates them with
/// `\` and starts absolute paths with a drive such as `C:`.
#[derive(Clone, Copy, Debug, PartialEq, Eq, Structural)]
pub enum PathStyle {
    Unix,
    Windows,
}

/// A path separator: `/`, and on Windows also `\`.
pub open spec fn is_separator(style: PathStyle, c: char) -> bool {
    c == '/' || (style == PathStyle::Windows && c == '\\')
}

pub fn is_path_separator(style: PathStyle, c: char) -> (r: bool)
    ensures
        r == is_separator(style, c),
{
    match style {
        PathStyle::Unix => c == '/',
        PathStyle::Windows => c == '/' || c == '\\',
    }
}

/// The segments of a path between separators, empty ones included.
pub open spec fn segments(style: PathStyle, s: Seq<char>) -> Seq<Seq<char>>
    decreases s.len(),
{
    if s.len() == 0 {
        seq![seq![]]
    } else {
        let r = segments(style, s.drop_last());
        if is_separator(style, s.last()) {
            r.push(seq![])
        } else {
            r.update(r.len() - 1, r.last().push(s.last()))
        }
    }
}

pub proof fn lemma_segments_len(style: PathStyle, s: Seq<char>)
    ensures
        segments(style, s).len() >= 1,
    decreases s.len(),
{
    if s.len() > 0 {
        lemma_segments_len(style, s.drop_last());
    }
}

/// A segment that leaves the project or enters its metadata.
pub open spec fn forbidden_segment(seg: Seq<char>) -> bool {
    seg == ".."@ || seg == ".git"@ || seg == ".codex"@
}

/// A non-empty relative path that stays inside the project and outside the
/// `.git` and `.codex` directories: no root, no leading `.` segment, and no
/// `..`, `.git` or `.codex` segment.
pub open spec fn scoped_path(style: PathStyle, s: Seq<char>) -> bool {
    &&& s.len() > 0
    &&& !is_separator(style, s[0])
    &&& segments(style, s)[0] != "."@
    &&& forall|k: int| 0 <= k < segments(style, s).len() ==> !forbidden_segment(#[trigger] segments(style, s)[k])
}

pub(crate) fn chars_are(v: &Vec<char>, lit: &str) -> (r: bool)
    ensures
        r == (v@ == lit@),
{
    let w = to_chars(lit);
    chars_equal(v.as_slice(), w.as_slice())
}

fn bad_segment(seg: &Vec<char>, first: bool) -> (r: bool)
    ensures
        r == (forbidden_segment(seg@) || (first && seg@ == "."@)),
{
    chars_are(seg, "..") || chars_are(seg, ".git") || chars_are(seg, ".codex") || (first
        && chars_are(seg, "."))
}

/// Whether a snapshot path may enter an analysis.
pub fn is_scoped_relative_path(style: PathStyle, path: &str) -> (r: bool)
    ensures
        r == scoped_path(style, path@),
{
    let chars = to_chars(path);
    let n = chars.len();
    if n == 0 || is_path_separator(style, chars[0]) {
        return false;
    }
    let ghost s = path@;
    let mut cur: Vec<char> = Vec::new();
    let mut first = true;
    let mut ok = true;
    let mut i: usize = 0;
    assert(s.take(0) =~= seq![]);
    while i < n
        invariant
            chars@ == s,
            s == path@,
            n == s.len(),
            n > 0,
            !is_separator(style, s[0]),
            i <= n,
            segments(style, s.take(i as int)).len() >= 1,
            cur@ == segments(style, s.take(i as int)).last(),
            first == (segments(style, s.take(i as int)).len() == 1),
            i > 0 ==> segments(style, s.take(i as int))[0].len() > 0,
            ok == ((forall|k: int|
                0 <= k < segments(style, s.take(i as int)).len() - 1 ==> !forbidden_segment(
                    #[trigger] segments(style, s.take(i as int))[k],
                )) && (segments(style, s.take(i as int)).len() > 1 ==> segments(style, s.take(i as int))[0]
                != "."@)),
        decreases n - i,
    {
        let c = chars[i];
        let ghost prev = segments(style, s.take(i as int));
        assert(s.take(i + 1).drop_last() =~= s.take(i as int));
        assert(s.take(i + 1).last() == c);
        if is_path_separator(style, c) {
            let ghost old_cur = cur@;
            let ghost old_ok = ok;
            let ghost old_first = first;
            let bad = bad_segment(&cur, first);
            if bad {
                ok = false;
            }
            cur = Vec::new();
            first = false;
            proof {
                let next = segments(style, s.take(i + 1));
                assert(next == prev.push(seq![]));
                if i == 0 {
                    assert(false);
                }
                assert forall|k: int| 0 <= k < next.len() - 1 implies #[trigger] next[k] == prev[k] by {}
                assert(prev[prev.len() - 1] == old_cur);
                if ok {
                    assert forall|k: int| 0 <= k < next.len() - 1 implies !forbidden_segment(
                        #[trigger] next[k],
                    ) by {
                        assert(next[k] == prev[k]);
                        if k < prev.len() - 1 {
                            assert(!forbidden_segment(prev[k]));
                        }
                    }
                    if old_first {
                        assert(next[0] == old_cur);
                    } else {
                        assert(next[0] == prev[0]);
                    }
                } else {
                    if !old_ok {
                        if prev.len() > 1 && prev[0] == "."@ {
                            assert(next[0] == prev[0]);
                        } else {
                            let k = choose|k: int|
                                0 <= k < prev.len() - 1 && forbidden_segment(#[trigger] prev[k]);
                            assert(next[k] == prev[k]);
                        }
                    } else {
                        assert(next[prev.len() - 1] == old_cur);
                        if old_first && old_cur == "."@ {
                            assert(next[0] == old_cur);
                        }
                    }
                }
            }
        } else {
            cur.push(c);
            proof {
                let next = segments(style, s.take(i + 1));
                assert(next == prev.update(prev.len() - 1, prev.last().push(c)));
                assert forall|k: int| 0 <= k < next.len() - 1 implies #[trigger] next[k] == prev[k] by {}
                if !ok {
                    if prev.len() > 1 && prev[0] == "."@ {
                        assert(next[0] == prev[0]);
                    } else {
                        let k = choose|k: int|
                            0 <= k < prev.len() - 1 && forbidden_segment(#[trigger] prev[k]);
                        assert(next[k] == prev[k]);
                    }
                } else {
                    assert forall|k: int| 0 <= k < next.len() - 1 implies !forbidden_segment(
                        #[trigger] next[k],
                    ) by {
                        assert(next[k] == prev[k]);
                    }
                    if next.len() > 1 {
                        assert(next[0] == prev[0]);
                    }
                }
            }
        }
        i += 1;
    }
    assert(s.take(n as int) =~= s);
    let last_bad = bad_segment(&cur, first);
    proof {
        let segs = segments(style, s);
        if ok && !last_bad {
            assert forall|k: int| 0 <= k < segs.len() implies !forbidden_segment(
                #[trigger] segs[k],
            ) by {
                if k == segs.len() - 1 {
                    assert(segs[k] == cur@);
                }
            }
        }
        if !ok {
            if segs.len() > 1 && segs[0] == "."@ {
            } else {
                let k = choose|k: int|
                    0 <= k < segs.len() - 1 && forbidden_segment(#[trigger] segs[k]);
                assert(forbidden_segment(segs[k]));
            }
        }
        if last_bad {
            assert(forbidden_segment(segs[segs.len() - 1]) || (first && segs[0] == "."@));
        }
    }
    ok && !last_bad
}

// ---------------------------------------------------------------- scoping

/// The items of `s` whose keys are scoped paths, in order.
pub open spec fn scoped_items<T: Keyed>(style: PathStyle, s: Seq<T>) -> Seq<T>
    decreases s.len(),
{
    if s.len() == 0 {
        seq![]
    } else if scoped_path(style, s.last().key()) {
        scoped_items(style, s.drop_last()).push(s.last())
    } else {
        scoped_items(style, s.drop_last())
    }
}

/// The files of a snapshot whose paths may enter an analysis, in order.
pub open spec fn scoped_files(style: PathStyle, files: Seq<SnapshotFile>) -> Seq<SnapshotFile> {
    scoped_items(style, files)
}

/// Scoping keeps the items of scoped keys and drops the others.
pub proof fn lemma_scoped_key_map<T: Keyed>(style: PathStyle, s: Seq<T>, k: Seq<char>)
    ensures
        key_map(scoped_items(style, s)).contains_key(k) == (scoped_path(style, k) && key_map(s).contains_key(
            k,
        )),
        key_map(scoped_items(style, s)).contains_key(k) ==> key_map(scoped_items(style, s))[k] == key_map(s)[k],
    decreases s.len(),
{
    if s.len() > 0 {
        lemma_scoped_key_map(style, s.drop_last(), k);
        let sf = scoped_items(style, s.drop_last());
        if scoped_path(style, s.last().key()) {
            assert(sf.push(s.last()).drop_last() =~= sf);
        }
    }
}

/// Every scoped item is an item of the original sequence, and scoping keeps
/// a strictly sorted sequence strictly sorted.
pub proof fn lemma_scoped_items_sorted<T: Keyed>(style: PathStyle, s: Seq<T>)
    ensures
        forall|j: int|
            0 <= j < scoped_items(style, s).len() ==> exists|m: int|
                0 <= m < s.len() && #[trigger] scoped_items(style, s)[j] == s[m],
        forall|j: int| 0 <= j < scoped_items(style, s).len() ==> scoped_path(style, #[trigger] scoped_items(style, s)[j].key()),
        strictly_sorted(s) ==> strictly_sorted(scoped_items(style, s)),
    decreases s.len(),
{
    if s.len() > 0 {
        let d = s.drop_last();
        lemma_scoped_items_sorted(style, d);
        let sd = scoped_items(style, d);
        let r = scoped_items(style, s);
        assert forall|j: int| 0 <= j < r.len() implies exists|m: int|
            0 <= m < s.len() && #[trigger] r[j] == s[m] by {
            if j < sd.len() {
                let m = choose|m: int| 0 <= m < d.len() && #[trigger] sd[j] == d[m];
                assert(r[j] == s[m]);
            } else {
                assert(r[j] == s[s.len() - 1]);
            }
        }
        assert forall|j: int| 0 <= j < r.len() implies scoped_path(style, #[trigger] r[j].key()) by {
            if j < sd.len() {
                assert(r[j] == sd[j]);
            }
        }
        if strictly_sorted(s) {
            assert(strictly_sorted(d));
            assert forall|a: int, b: int| 0 <= a < b < r.len() implies crate::order::lex_lt(
                #[trigger] r[a].key(),
                #[trigger] r[b].key(),
            ) by {
                if b < sd.len() {
                    assert(r[a] == sd[a] && r[b] == sd[b]);
                } else {
                    let m = choose|m: int| 0 <= m < d.len() && #[trigger] sd[a] == d[m];
                    assert(r[a] == s[m]);
                    assert(r[b] == s[s.len() - 1]);
                }
            }
        }
    }
}

/// A scoped snapshot keeps the entries of scoped paths and drops the rest.
pub proof fn lemma_scoped_entry(style: PathStyle, files: Seq<SnapshotFile>, k: Seq<char>)
    ensures
        snapshot_entry(scoped_files(style, files), k) == if scoped_path(style, k) {
            snapshot_entry(files, k)
        } else {
            None
        },
{
    lemma_scoped_key_map(style, files, k);
}

/// The change of a path between two scoped snapshots is its change between
/// the whole snapshots when the path is scoped, and none otherwise.
pub proof fn lemma_scoped_change(style: PathStyle, before: Seq<SnapshotFile>, after: Seq<SnapshotFile>, k: Seq<char>)
    ensures
        path_change(scoped_files(style, before), scoped_files(style, after), k) == if scoped_path(style, k) {
            path_change(before, after, k)
        } else {
            None
        },
{
    lemma_scoped_entry(style, before, k);
    lemma_scoped_entry(style, after, k);
}

/// Keeps the records of scoped paths, in order.
fn keep_scoped_records(style: PathStyle, files: Vec<FileDiffRecord>) -> (r: Vec<FileDiffRecord>)
    ensures
        r@ == scoped_items(style, files@),
{
    let ghost whole = files@;
    let mut out: Vec<FileDiffRecord> = Vec::new();
    for rec in it: files.into_iter()
        invariant
            it.seq() == whole,
            out@ == scoped_items(style, whole.take(it.index() as int)),
    {
        let ghost i = it.index();
        proof {
            assert(whole.take(i + 1).drop_last() =~= whole.take(i as int));
            assert(whole.take(i + 1).last() == rec);
        }
        if is_scoped_relative_path(style, rec.path.as_str()) {
            out.push(rec);
        }
    }
    proof {
        assert(whole.take(whole.len() as int) =~= whole);
    }
    out
}

/// Records that describe the changes between two snapshots, restricted to
/// scoped paths, describe the changes between the scoped snapshots.
pub proof fn lemma_scoped_records_describe(
    style: PathStyle,
    files: Seq<FileDiffRecord>,
    before: Seq<SnapshotFile>,
    after: Seq<SnapshotFile>,
)
    requires
        records_describe_changes(files, before, after),
    ensures
        records_describe_changes(scoped_items(style, files), scoped_files(style, before), scoped_files(style, after)),
{
    let r = scoped_items(style, files);
    lemma_scoped_items_sorted(style, files);
    assert forall|k: Seq<char>| #[trigger] key_map(r).contains_key(k) <==> path_change(
        scoped_files(style, before),
        scoped_files(style, after),
        k,
    ) is Some by {
        lemma_scoped_key_map(style, files, k);
        lemma_scoped_change(style, before, after, k);
    }
    assert forall|i: int| 0 <= i < r.len() implies crate::diff::record_describes(
        #[trigger] r[i],
        path_change(scoped_files(style, before), scoped_files(style, after), r[i].path@)->0,
        snapshot_entry(scoped_files(style, before), r[i].path@),
        snapshot_entry(scoped_files(style, after), r[i].path@),
    ) by {
        let m = choose|m: int| 0 <= m < files.len() && #[trigger] r[i] == files[m];
        assert(r[i] == files[m]);
        lemma_key_map_value(r, i);
        lemma_scoped_key_map(style, files, r[i].path@);
        lemma_scoped_change(style, before, after, r[i].path@);
        lemma_scoped_entry(style, before, r[i].path@);
        lemma_scoped_entry(style, after, r[i].path@);
    }
}

/// The text of an entry: its content decoded, when the content is text.
pub open spec fn entry_text(e: Option<SnapshotEntry>) -> Option<Seq<char>> {
    match e {
        Some(SnapshotEntry::Content(c)) => if is_text(c@) {
            Some(vstd::utf8::decode_utf8(c@))
        } else {
            None
        },
        _ => None,
    }
}

fn has_nul(bytes: &Vec<u8>) -> (r: bool)
    ensures
        r == bytes@.contains(0u8),
{
    let mut i: usize = 0;
    while i < bytes.len()
        invariant
            i <= bytes@.len(),
            forall|j: int| 0 <= j < i ==> bytes@[j] != 0u8,
        decreases bytes@.len() - i,
    {
        if bytes[i] == 0 {
            assert(bytes@[i as int] == 0u8);
            return true;
        }
        i += 1;
    }
    false
}

/// The text of a snapshot entry, when it holds text.
fn text_entry(entry: Option<&SnapshotEntry>) -> (r: Option<String>)
    ensures
        opt_view(r) == entry_text(crate::diff::deref_entry(entry)),
{
    match entry {
        Some(SnapshotEntry::Content(content)) => {
            if has_nul(content) {
                return None;
            }
            decode_utf8_bytes(content.as_slice())
        },
        _ => None,
    }
}

pub open spec fn opt_view(o: Option<String>) -> Option<Seq<char>> {
    match o {
        Some(s) => Some(s@),
        None => None,
    }
}

/// Scoping leaves a sequence whose keys are all scoped unchanged.
pub proof fn lemma_scoped_items_all<T: Keyed>(style: PathStyle, s: Seq<T>)
    requires
        forall|j: int| 0 <= j < s.len() ==> scoped_path(style, #[trigger] s[j].key()),
    ensures
        scoped_items(style, s) == s,
    decreases s.len(),
{
    if s.len() > 0 {
        lemma_scoped_items_all(style, s.drop_last());
        assert(scoped_path(style, s[s.len() - 1].key()));
        assert(scoped_items(style, s.drop_last()).push(s.last()) =~= s);
    }
}

// ---------------------------------------------------------------- context

/// `ctx` is the scoped context of the change that `rec` records between
/// `before` and `after`: text content is included, other content is not.
pub open spec fn context_of_record(
    ctx: ScopedFileContext,
    rec: FileDiffRecord,
    before: Seq<SnapshotFile>,
    after: Seq<SnapshotFile>,
) -> bool {
    &&& ctx.path == rec.path
    &&& ctx.status == rec.status
    &&& ctx.content_status == rec.content_status
    &&& opt_view(ctx.before) == if rec.content_status == ContentStatus::Text {
        entry_text(snapshot_entry(before, rec.path@))
    } else {
        None
    }
    &&& opt_view(ctx.after) == if rec.content_status == ContentStatus::Text {
        entry_text(snapshot_entry(after, rec.path@))
    } else {
        None
    }
}

/// `ctx` describes the change of its path between `before` and `after`.
pub open spec fn context_describes(
    ctx: ScopedFileContext,
    before: Seq<SnapshotFile>,
    after: Seq<SnapshotFile>,
) -> bool {
    let b = snapshot_entry(before, ctx.path@);
    let a = snapshot_entry(after, ctx.path@);
    &&& path_change(before, after, ctx.path@) == Some(ctx.status)
    &&& ctx.content_status == combined_status(b, a)
    &&& opt_view(ctx.before) == if ctx.content_status == ContentStatus::Text {
        entry_text(b)
    } else {
        None
    }
    &&& opt_view(ctx.after) == if ctx.content_status == ContentStatus::Text {
        entry_text(a)
    } else {
        None
    }
}

/// The contexts hold exactly the changed paths, once each in path order, and
/// each describes its path's change.
pub open spec fn contexts_describe_changes(
    files: Seq<ScopedFileContext>,
    before: Seq<SnapshotFile>,
    after: Seq<SnapshotFile>,
) -> bool {
    &&& strictly_sorted(files)
    &&& forall|k: Seq<char>| #[trigger]
        key_map(files).contains_key(k) <==> path_change(before, after, k) is Some
    &&& forall|i: int| 0 <= i < files.len() ==> context_describes(#[trigger] files[i], before, after)
}

/// No path changed between the two snapshots.
pub open spec fn unchanged(before: Seq<SnapshotFile>, after: Seq<SnapshotFile>) -> bool {
    forall|k: Seq<char>| #[trigger] path_change(before, after, k) is None
}

/// The scoped context of each record of a scoped path.
fn context_files(style: PathStyle, diff_state: &DiffState, before: &FileSnapshot, after: &FileSnapshot) -> (r: Vec<
    ScopedFileContext,
>)
    requires
        before.wf(),
        after.wf(),
    ensures
        r@.len() == scoped_items(style, diff_state.files@).len(),
        forall|i: int|
            0 <= i < r@.len() ==> context_of_record(
                #[trigger] r@[i],
                scoped_items(style, diff_state.files@)[i],
                before.files@,
                after.files@,
            ),
{
    let ghost recs = diff_state.files@;
    let mut out: Vec<ScopedFileContext> = Vec::new();
    let mut i: usize = 0;
    while i < diff_state.files.len()
        invariant
            recs == diff_state.files@,
            before.wf(),
            after.wf(),
            i <= recs.len(),
            out@.len() == scoped_items(style, recs.take(i as int)).len(),
            forall|j: int|
                0 <= j < out@.len() ==> context_of_record(
                    #[trigger] out@[j],
                    scoped_items(style, recs.take(i as int))[j],
                    before.files@,
                    after.files@,
                ),
        decreases recs.len() - i,
    {
        let file = &diff_state.files[i];
        proof {
            assert(recs.take(i + 1).drop_last() =~= recs.take(i as int));
            assert(recs.take(i + 1).last() == *file);
        }
        if is_scoped_relative_path(style, file.path.as_str()) {
            let before_entry = before.get(file.path.as_str());
            let after_entry = after.get(file.path.as_str());
            let is_text_content = file.content_status == ContentStatus::Text;
            let (before_text, after_text) = if is_text_content {
                (text_entry(before_entry), text_entry(after_entry))
            } else {
                (None, None)
            };
            let ctx = ScopedFileContext {
                path: file.path.clone(),
                status: file.status,
                content_status: file.content_status,
                before: before_text,
                after: after_text,
            };
            let ghost prev = out@;
            out.push(ctx);
            proof {
                let sc = scoped_items(style, recs.take(i + 1));
                assert(sc == scoped_items(style, recs.take(i as int)).push(*file));
                assert forall|j: int| 0 <= j < out@.len() implies context_of_record(
                    #[trigger] out@[j],
                    sc[j],
                    before.files@,
                    after.files@,
                ) by {
                    if j < prev.len() {
                        assert(out@[j] == prev[j]);
                        assert(sc[j] == scoped_items(style, recs.take(i as int))[j]);
                    }
                }
            }
        }
        i += 1;
    }
    proof {
        assert(recs.take(recs.len() as int) =~= recs);
    }
    out
}

/// Everything that a context built from two snapshots holds.
pub open spec fn context_matches(
    style: PathStyle,
    c: AnalysisContext,
    project_path: Seq<char>,
    before: Seq<SnapshotFile>,
    after: Seq<SnapshotFile>,
    supplied: CompletionMetadata,
) -> bool {
    &&& c.project_path@ == project_path
    &&& c.supplied == supplied
    &&& c.diff.project_path matches Some(p) && p@ == project_path
    &&& c.diff.source == DiffSource::Snapshot
    &&& c.diff.fallback
    &&& c.diff.error is None
    &&& records_describe_changes(c.diff.files@, before, after)
    &&& c.diff.total_lines_added == total_spec(added_counts(c.diff.files@))
    &&& c.diff.total_lines_deleted == total_spec(deleted_counts(c.diff.files@))
    &&& c.diff.unknown_line_count_files == unknown_count(c.diff.files@)
    &&& contexts_describe_changes(c.files@, before, after)
    &&& forall|i: int| 0 <= i < c.files@.len() ==> scoped_path(style, #[trigger] c.files@[i].path@)
}

/// Builds the only context that a local change analysis may use: the
/// changed files between the two snapshots, restricted to scoped paths, so
/// that unrelated files and the `.git` and `.codex` directories never enter
/// it.  `None` when no scoped path changed.
pub fn build_context(
    style: PathStyle,
    project_path: &str,
    before: &FileSnapshot,
    after: &FileSnapshot,
    supplied: CompletionMetadata,
) -> (r: Result<Option<AnalysisContext>, String>)
    requires
        before.wf(),
        after.wf(),
    ensures
        r is Ok,
        (r matches Ok(None)) <==> unchanged(scoped_files(style, before.files@), scoped_files(style, after.files@)),
        r matches Ok(Some(c)) ==> context_matches(
            style,
            c,
            project_path@,
            scoped_files(style, before.files@),
            scoped_files(style, after.files@),
            supplied,
        ),
{
    let ghost sb = scoped_files(style, before.files@);
    let ghost sa = scoped_files(style, after.files@);
    let path = owned(project_path);
    let full = diff_snapshots(Some(path.clone()), before, after);
    let DiffState { project_path: full_path, files: full_files, .. } = full;
    let ghost full_recs = full_files@;
    let files = keep_scoped_records(style, full_files);
    proof {
        lemma_scoped_records_describe(style, full_recs, before.files@, after.files@);
        lemma_scoped_items_sorted(style, full_recs);
        crate::order::lemma_strictly_sorted_is_sorted(files@);
        crate::order::lemma_sort_of_sorted(files@);
    }
    let diff = crate::diff::finalize_state(full_path, DiffSource::Snapshot, true, files, None);
    if diff.files.len() == 0 {
        proof {
            assert forall|k: Seq<char>| #[trigger] path_change(sb, sa, k) is None by {
                assert(!key_map(diff.files@).contains_key(k));
            }
        }
        return Ok(None);
    }
    proof {
        lemma_scoped_items_sorted(style, full_recs);
        lemma_scoped_items_all(style, diff.files@);
    }
    let ctx_files = context_files(style, &diff, before, after);
    proof {
        let recs = diff.files@;
        let cf = ctx_files@;
        lemma_key_map_value(recs, 0);
        assert(!unchanged(sb, sa)) by {
            assert(path_change(sb, sa, recs[0].path@) is Some);
        }
        assert forall|i: int| 0 <= i < cf.len() implies context_describes(#[trigger] cf[i], sb, sa)
            && scoped_path(style, cf[i].path@) by {
            assert(context_of_record(cf[i], recs[i], before.files@, after.files@));
            assert(scoped_path(style, recs[i].key()));
            lemma_key_map_value(recs, i);
            assert(path_change(sb, sa, recs[i].path@) is Some);
            assert(crate::diff::record_describes(
                recs[i],
                path_change(sb, sa, recs[i].path@)->0,
                snapshot_entry(sb, recs[i].path@),
                snapshot_entry(sa, recs[i].path@),
            ));
            lemma_scoped_entry(style, before.files@, recs[i].path@);
            lemma_scoped_entry(style, after.files@, recs[i].path@);
        }
        assert forall|a: int, b: int| 0 <= a < b < cf.len() implies crate::order::lex_lt(
            #[trigger] cf[a].key(),
            #[trigger] cf[b].key(),
        ) by {
            assert(cf[a].key() == recs[a].key() && cf[b].key() == recs[b].key());
        }
        assert forall|k: Seq<char>| #[trigger] key_map(cf).contains_key(k) <==> path_change(
            sb,
            sa,
            k,
        ) is Some by {
            lemma_key_map_domain(cf, k);
            lemma_key_map_domain(recs, k);
            if exists|i: int| 0 <= i < cf.len() && #[trigger] cf[i].key() == k {
                let i = choose|i: int| 0 <= i < cf.len() && #[trigger] cf[i].key() == k;
                assert(recs[i].key() == k);
            }
            if exists|i: int| 0 <= i < recs.len() && #[trigger] recs[i].key() == k {
                let i = choose|i: int| 0 <= i < recs.len() && #[trigger] recs[i].key() == k;
                assert(cf[i].key() == k);
            }
        }
    }
    if ctx_files.len() == 0 {
        return Ok(None);
    }
    Ok(Some(AnalysisContext { project_path: path, diff, files: ctx_files, supplied }))
}

// ---------------------------------------------------------------- prose

/// The honest placeholder for something that was not supplied.
pub open spec fn unknown_text(what: Seq<char>) -> Seq<char> {
    "Unknown: "@ + what + " was not supplied."@
}

fn unknown(what: &str) -> (r: String)
    ensures
        r@ == unknown_text(what@),
{
    let mut r = owned("Unknown: ");
    push_str(&mut r, what);
    push_str(&mut r, " was not supplied.");
    r
}

pub open spec fn digit(d: nat) -> char {
    if d == 0 {
        '0'
    } else if d == 1 {
        '1'
    } else if d == 2 {
        '2'
    } else if d == 3 {
        '3'
    } else if d == 4 {
        '4'
    } else if d == 5 {
        '5'
    } else if d == 6 {
        '6'
    } else if d == 7 {
        '7'
    } else if d == 8 {
        '8'
    } else {
        '9'
    }
}

/// The decimal digits of `n`, without leading zeros.
pub open spec fn decimal(n: nat) -> Seq<char>
    decreases n,
{
    if n < 10 {
        seq![digit(n)]
    } else {
        decimal(n / 10).push(digit(n % 10))
    }
}

fn digit_char(d: u64) -> (c: char)
    requires
        d < 10,
    ensures
        c == digit(d as nat),
{
    if d == 0 {
        '0'
    } else if d == 1 {
        '1'
    } else if d == 2 {
        '2'
    } else if d == 3 {
        '3'
    } else if d == 4 {
        '4'
    } else if d == 5 {
        '5'
    } else if d == 6 {
        '6'
    } else if d == 7 {
        '7'
    } else if d == 8 {
        '8'
    } else {
        '9'
    }
}

/// Writes a number in decimal.
pub fn decimal_string(n: u64) -> (r: String)
    ensures
        r@ == decimal(n as nat),
{
    let mut out: Vec<char> = Vec::new();
    let mut m = n;
    while m >= 10
        invariant
            decimal(n as nat) == decimal(m as nat) + out@,
        decreases m,
    {
        let d = digit_char(m % 10);
        let ghost prev = out@;
        out.insert(0, d);
        proof {
            assert(decimal(m as nat) == decimal((m / 10) as nat).push(digit((m % 10) as nat)));
            assert(decimal(m as nat) + prev =~= decimal((m / 10) as nat) + out@);
        }
        m = m / 10;
    }
    let d = digit_char(m);
    let ghost prev = out@;
    out.insert(0, d);
    assert(decimal(m as nat) + prev =~= out@);
    from_chars(out.as_slice())
}

/// The parts with the separator between each two of them.
pub open spec fn join(parts: Seq<Seq<char>>, sep: Seq<char>) -> Seq<char>
    decreases parts.len(),
{
    if parts.len() == 0 {
        seq![]
    } else if parts.len() == 1 {
        parts[0]
    } else {
        join(parts.drop_last(), sep) + sep + parts.last()
    }
}

pub(crate) fn join_strings(parts: &Vec<String>, sep: &str) -> (r: String)
    ensures
        r@ == join(strings_view(parts@), sep@),
{
    let ghost pv = strings_view(parts@);
    let mut r = String::new();
    let mut i: usize = 0;
    while i < parts.len()
        invariant
            pv == strings_view(parts@),
            i <= parts@.len(),
            r@ == join(pv.take(i as int), sep@),
        decreases parts@.len() - i,
    {
        assert(pv.take(i + 1).drop_last() =~= pv.take(i as int));
        assert(pv.take(i + 1).last() == parts@[i as int]@);
        if i > 0 {
            push_str(&mut r, sep);
        } else {
            assert(r@ =~= seq![]);
        }
        push_str(&mut r, parts[i].as_str());
        assert(r@ =~= join(pv.take(i + 1), sep@));
        i += 1;
    }
    assert(pv.take(parts@.len() as int) =~= pv);
    r
}

/// Text that is empty or only white space.
pub open spec fn blank(s: Seq<char>) -> bool {
    forall|i: int| 0 <= i < s.len() ==> is_white_space(#[trigger] s[i])
}

pub(crate) fn is_blank(s: &String) -> (r: bool)
    ensures
        r == blank(s@),
{
    let chars = to_chars(s.as_str());
    let mut i: usize = 0;
    while i < chars.len()
        invariant
            chars@ == s@,
            i <= chars@.len(),
            forall|j: int| 0 <= j < i ==> is_white_space(#[trigger] chars@[j]),
        decreases chars@.len() - i,
    {
        if !is_whitespace(chars[i]) {
            return false;
        }
        i += 1;
    }
    true
}

/// The parts that are not blank, in order.
pub open spec fn non_blank(parts: Seq<Seq<char>>) -> Seq<Seq<char>>
    decreases parts.len(),
{
    if parts.len() == 0 {
        seq![]
    } else if blank(parts.last()) {
        non_blank(parts.drop_last())
    } else {
        non_blank(parts.drop_last()).push(parts.last())
    }
}

/// The paths of the files, in order.
pub open spec fn file_paths(files: Seq<ScopedFileContext>) -> Seq<Seq<char>> {
    files.map_values(|f: ScopedFileContext| f.path@)
}

/// A file that needs a careful review: deleted, or not available as text.
pub open spec fn is_risky(f: ScopedFileContext) -> bool {
    f.status == FileChangeStatus::Deleted || f.content_status != ContentStatus::Text
}

/// The paths of the risky files, in order.
pub open spec fn risky_paths(files: Seq<ScopedFileContext>) -> Seq<String>
    decreases files.len(),
{
    if files.len() == 0 {
        seq![]
    } else if is_risky(files.last()) {
        risky_paths(files.drop_last()).push(files.last().path)
    } else {
        risky_paths(files.drop_last())
    }
}

pub open spec fn summary_text(n: nat) -> Seq<char> {
    decimal(n) + " "@ + (if n == 1 {
        "file"@
    } else {
        "files"@
    }) + " changed since the watch-start snapshot."@
}

pub open spec fn purpose_text(task: Option<String>) -> Seq<char> {
    match task {
        Some(t) => if blank(t@) {
            unknown_text("task purpose"@)
        } else {
            t@
        },
        None => unknown_text("task purpose"@),
    }
}

pub open spec fn decisions(plan: Option<Vec<String>>) -> Seq<Seq<char>> {
    match plan {
        Some(v) => non_blank(strings_view(v@)),
        None => seq![],
    }
}

pub open spec fn risk_text(files: Seq<ScopedFileContext>) -> Seq<char> {
    let r = risky_paths(files);
    if r.len() == 0 {
        unknown_text("risk assessment"@)
    } else {
        "Review deleted, binary, or unavailable content: "@ + join(
            strings_view(sort_by_key_spec(r)),
            ", "@,
        ) + "."@
    }
}

pub open spec fn priority_text(files: Seq<ScopedFileContext>) -> Seq<char> {
    if risky_paths(files).len() == 0 {
        unknown_text("review priority"@)
    } else {
        "high"@
    }
}

pub open spec fn how_it_works_text() -> Seq<char> {
    "Mentor compares the frozen watch-start snapshot with the frozen current snapshot for each changed file."@
}

pub open spec fn opt_texts(o: Option<String>) -> Seq<Seq<char>> {
    match o {
        Some(s) => seq![s@],
        None => seq![],
    }
}

/// The texts that concepts are read from: the before and after source of
/// each text file, in order.
pub open spec fn concept_texts(files: Seq<ScopedFileContext>) -> Seq<Seq<char>>
    decreases files.len(),
{
    if files.len() == 0 {
        seq![]
    } else {
        let f = files.last();
        let rest = concept_texts(files.drop_last());
        if f.content_status == ContentStatus::Text {
            rest + opt_texts(f.before) + opt_texts(f.after)
        } else {
            rest
        }
    }
}

fn push_opt(texts: &mut Vec<String>, o: &Option<String>)
    ensures
        strings_view(final(texts)@) == strings_view(old(texts)@) + opt_texts(*o),
{
    match o {
        Some(t) => {
            let ghost prev = texts@;
            texts.push(t.clone());
            assert(strings_view(texts@) =~= strings_view(prev) + opt_texts(*o));
        },
        None => {
            assert(strings_view(texts@) =~= strings_view(texts@) + opt_texts(*o));
        },
    }
}

/// The programming concepts that the text files' sources show, with the
/// concepts they build on, in the order of the concept map.  Binary and
/// unavailable files are never read for concepts.
pub fn programming_concepts(files: &[ScopedFileContext]) -> (r: Vec<String>)
    ensures
        strings_view(r@) == concepts_for(concept_texts(files@), Some(default_map_view())),
{
    let mut texts: Vec<String> = Vec::new();
    let mut i: usize = 0;
    while i < files.len()
        invariant
            i <= files@.len(),
            strings_view(texts@) == concept_texts(files@.take(i as int)),
        decreases files@.len() - i,
    {
        let f = &files[i];
        proof {
            assert(files@.take(i + 1).drop_last() =~= files@.take(i as int));
            assert(files@.take(i + 1).last() == *f);
        }
        if f.content_status == ContentStatus::Text {
            push_opt(&mut texts, &f.before);
            push_opt(&mut texts, &f.after);
            assert(strings_view(texts@) =~= concept_texts(files@.take(i + 1)));
        }
        i += 1;
    }
    assert(files@.take(files@.len() as int) =~= files@);
    concepts_from_texts(&texts, Some(default_concept_map()))
}

// ---------------------------------------------------------------- record

/// `rec` is the record that the scoped files and the supplied metadata give.
pub open spec fn record_matches(
    rec: ChangeRecord,
    files: Seq<ScopedFileContext>,
    supplied: CompletionMetadata,
) -> bool {
    &&& rec.summary@ == summary_text(files.len())
    &&& rec.purpose@ == purpose_text(supplied.task)
    &&& strings_view(rec.changed_components@) == file_paths(files)
    &&& strings_view(rec.key_decisions@) == decisions(supplied.plan)
    &&& rec.how_it_works@ == how_it_works_text()
    &&& rec.impact@ == unknown_text("runtime and product impact"@)
    &&& rec.risk@ == risk_text(files)
    &&& rec.review_priority@ == priority_text(files)
    &&& strings_view(rec.programming_concepts@) == concepts_for(
        concept_texts(files),
        Some(default_map_view()),
    )
    &&& strings_view(rec.relevant_code_locations@) == file_paths(files)
}

fn paths_of(files: &Vec<ScopedFileContext>) -> (r: Vec<String>)
    ensures
        strings_view(r@) == file_paths(files@),
{
    let mut r: Vec<String> = Vec::new();
    let mut i: usize = 0;
    while i < files.len()
        invariant
            i <= files@.len(),
            strings_view(r@) == file_paths(files@.take(i as int)),
        decreases files@.len() - i,
    {
        let ghost prev = r@;
        r.push(files[i].path.clone());
        assert(r@ == prev.push(files@[i as int].path));
        assert(strings_view(r@) =~= strings_view(prev).push(files@[i as int].path@));
        assert(file_paths(files@.take(i + 1)) =~= file_paths(files@.take(i as int)).push(
            files@[i as int].path@,
        ));
        i += 1;
    }
    assert(files@.take(files@.len() as int) =~= files@);
    r
}

fn risky_paths_of(files: &Vec<ScopedFileContext>) -> (r: Vec<String>)
    ensures
        r@ == risky_paths(files@),
{
    let mut r: Vec<String> = Vec::new();
    let mut i: usize = 0;
    while i < files.len()
        invariant
            i <= files@.len(),
            r@ == risky_paths(files@.take(i as int)),
        decreases files@.len() - i,
    {
        let f = &files[i];
        proof {
            assert(files@.take(i + 1).drop_last() =~= files@.take(i as int));
            assert(files@.take(i + 1).last() == *f);
        }
        if f.status == FileChangeStatus::Deleted || f.content_status != ContentStatus::Text {
            r.push(f.path.clone());
        }
        i += 1;
    }
    assert(files@.take(files@.len() as int) =~= files@);
    r
}

fn non_blank_of(parts: &Vec<String>) -> (r: Vec<String>)
    ensures
        strings_view(r@) == non_blank(strings_view(parts@)),
{
    let ghost pv = strings_view(parts@);
    let mut r: Vec<String> = Vec::new();
    let mut i: usize = 0;
    while i < parts.len()
        invariant
            pv == strings_view(parts@),
            i <= parts@.len(),
            strings_view(r@) == non_blank(pv.take(i as int)),
        decreases parts@.len() - i,
    {
        proof {
            assert(pv.take(i + 1).drop_last() =~= pv.take(i as int));
            assert(pv.take(i + 1).last() == parts@[i as int]@);
        }
        if !is_blank(&parts[i]) {
            let ghost prev = r@;
            r.push(parts[i].clone());
            assert(strings_view(r@) =~= strings_view(prev).push(parts@[i as int]@));
        }
        i += 1;
    }
    assert(pv.take(parts@.len() as int) =~= pv);
    r
}

/// Writes the deterministic record of a scoped context.  Only file facts and
/// explicitly supplied metadata become claims; intent and impact that were
/// not supplied are reported as unknown.
pub fn record_from_context(context: &AnalysisContext) -> (r: ChangeRecord)
    ensures
        record_matches(r, context.files@, context.supplied),
{
    let files = &context.files;
    let file_count = files.len();
    let mut summary = decimal_string(file_count as u64);
    push_str(&mut summary, " ");
    if file_count == 1 {
        push_str(&mut summary, "file");
    } else {
        push_str(&mut summary, "files");
    }
    push_str(&mut summary, " changed since the watch-start snapshot.");
    let risky = risky_paths_of(files);
    let risk_files = sort_by_key(risky);
    let purpose = match &context.supplied.task {
        Some(task) => if is_blank(task) {
            unknown("task purpose")
        } else {
            task.clone()
        },
        None => unknown("task purpose"),
    };
    let key_decisions = match &context.supplied.plan {
        Some(plan) => non_blank_of(plan),
        None => {
            let v: Vec<String> = Vec::new();
            assert(strings_view(v@) =~= seq![]);
            v
        },
    };
    let risk = if risk_files.len() == 0 {
        unknown("risk assessment")
    } else {
        let mut text = owned("Review deleted, binary, or unavailable content: ");
        let joined = join_strings(&risk_files, ", ");
        push_str(&mut text, joined.as_str());
        push_str(&mut text, ".");
        text
    };
    let review_priority = if risk_files.len() == 0 {
        unknown("review priority")
    } else {
        owned("high")
    };
    proof {
        assert(risk_files@.len() == sort_by_key_spec(risky@).len()) by {
            crate::order::lemma_sort_len(risky@);
        }
        if file_count == 1 {
            assert(summary@ =~= summary_text(files@.len()));
        } else {
            assert(summary@ =~= summary_text(files@.len()));
        }
    }
    ChangeRecord {
        summary,
        purpose,
        changed_components: paths_of(files),
        key_decisions,
        how_it_works: owned(
            "Mentor compares the frozen watch-start snapshot with the frozen current snapshot for each changed file.",
        ),
        impact: unknown("runtime and product impact"),
        risk,
        review_priority,
        programming_concepts: programming_concepts(files.as_slice()),
        relevant_code_locations: paths_of(files),
    }
}

// ---------------------------------------------------------------- analysis

/// Everything that an analysis built from two snapshots holds.
pub open spec fn analysis_matches(
    style: PathStyle,
    a: ChangeAnalysis,
    project_path: Seq<char>,
    before: Seq<SnapshotFile>,
    after: Seq<SnapshotFile>,
    supplied: CompletionMetadata,
    generation: u64,
) -> bool {
    &&& contexts_describe_changes(a.frozen_files@, before, after)
    &&& forall|i: int|
        0 <= i < a.frozen_files@.len() ==> scoped_path(style, #[trigger] a.frozen_files@[i].path@)
    &&& record_matches(a.record, a.frozen_files@, supplied)
    &&& a.metadata.project_path@ == project_path
    &&& a.metadata.source@ == "local-snapshot"@
    &&& a.metadata.completion@ == "explicit"@
    &&& a.metadata.completion_generation == generation
    &&& a.metadata.changed_file_count == a.frozen_files@.len()
    &&& a.metadata.supplied == supplied
}

/// Nothing changes between a snapshot and itself.
pub proof fn lemma_identical_unchanged(s: Seq<SnapshotFile>)
    ensures
        unchanged(s, s),
{
}

/// Builds a completed analysis owned by the watcher generation of its
/// frozen boundary.  `None` when no scoped path changed, so that a frozen
/// state without a change never emits an analysis.
pub fn build_analysis_with_generation(
    style: PathStyle,
    project_path: &str,
    before: &FileSnapshot,
    after: &FileSnapshot,
    supplied: CompletionMetadata,
    completion_generation: u64,
) -> (r: Result<Option<ChangeAnalysis>, String>)
    requires
        before.wf(),
        after.wf(),
    ensures
        r is Ok,
        (r matches Ok(None)) <==> unchanged(scoped_files(style, before.files@), scoped_files(style, after.files@)),
        r matches Ok(Some(a)) ==> analysis_matches(
            style,
            a,
            project_path@,
            scoped_files(style, before.files@),
            scoped_files(style, after.files@),
            supplied,
            completion_generation,
        ),
        before.files@ == after.files@ ==> r matches Ok(None),
{
    proof {
        lemma_identical_unchanged(scoped_files(style, before.files@));
    }
    let context = match build_context(style, project_path, before, after, supplied) {
        Ok(Some(c)) => c,
        Ok(None) => {
            return Ok(None);
        },
        Err(e) => {
            return Err(e);
        },
    };
    let record = record_from_context(&context);
    let AnalysisContext { project_path: path, diff: _, files, supplied: supplied_metadata } =
        context;
    let changed_file_count = files.len();
    Ok(
        Some(
            ChangeAnalysis {
                record,
                metadata: AnalysisMetadata {
                    project_path: path,
                    source: owned("local-snapshot"),
                    completion: owned("explicit"),
                    completion_generation,
                    changed_file_count,
                    supplied: supplied_metadata,
                },
                frozen_files: files,
            },
        ),
    )
}

/// Builds a completed analysis at generation zero.
pub fn build_analysis(
    style: PathStyle,
    project_path: &str,
    before: &FileSnapshot,
    after: &FileSnapshot,
    supplied: CompletionMetadata,
) -> (r: Result<Option<ChangeAnalysis>, String>)
    requires
        before.wf(),
        after.wf(),
    ensures
        r is Ok,
        (r matches Ok(None)) <==> unchanged(scoped_files(style, before.files@), scoped_files(style, after.files@)),
        r matches Ok(Some(a)) ==> analysis_matches(
            style,
            a,
            project_path@,
            scoped_files(style, before.files@),
            scoped_files(style, after.files@),
            supplied,
            0,
        ),
        before.files@ == after.files@ ==> r matches Ok(None),
{
    build_analysis_with_generation(style, project_path, before, after, supplied, 0)
}


/// A file context as plain values.
pub open spec fn context_view(c: ScopedFileContext) -> (
    Seq<char>,
    FileChangeStatus,
    ContentStatus,
    Option<Seq<char>>,
    Option<Seq<char>>,
) {
    (c.path@, c.status, c.content_status, opt_view(c.before), opt_view(c.after))
}

pub open spec fn contexts_view(files: Seq<ScopedFileContext>) -> Seq<
    (Seq<char>, FileChangeStatus, ContentStatus, Option<Seq<char>>, Option<Seq<char>>),
> {
    files.map_values(|c: ScopedFileContext| context_view(c))
}

/// The contexts that describe a change between two snapshots are the same
/// whichever way they were built.
proof fn lemma_contexts_determined(
    f1: Seq<ScopedFileContext>,
    f2: Seq<ScopedFileContext>,
    before: Seq<SnapshotFile>,
    after: Seq<SnapshotFile>,
)
    requires
        contexts_describe_changes(f1, before, after),
        contexts_describe_changes(f2, before, after),
    ensures
        contexts_view(f1) == contexts_view(f2),
{
    assert forall|k: Seq<char>| key_map(f1).contains_key(k) == #[trigger] key_map(f2).contains_key(k) by {
        assert(key_map(f1).contains_key(k) <==> path_change(before, after, k) is Some);
    }
    lemma_sorted_keys_unique(f1, f2);
    assert forall|i: int| 0 <= i < f1.len() implies context_view(#[trigger] f1[i]) == context_view(f2[i]) by {
        assert(f1[i].key() == f2[i].key());
        assert(context_describes(f1[i], before, after));
        assert(context_describes(f2[i], before, after));
    }
    assert(contexts_view(f1) =~= contexts_view(f2));
}

/// Contexts with the same plain values name the same risky paths.
proof fn lemma_risky_paths_determined(f1: Seq<ScopedFileContext>, f2: Seq<ScopedFileContext>)
    requires
        contexts_view(f1) == contexts_view(f2),
    ensures
        strings_view(risky_paths(f1)) == strings_view(risky_paths(f2)),
    decreases f1.len(),
{
    assert(f1.len() == contexts_view(f1).len());
    assert(f2.len() == contexts_view(f2).len());
    if f1.len() > 0 {
        assert(contexts_view(f1.drop_last()) =~= contexts_view(f1).drop_last());
        assert(contexts_view(f2.drop_last()) =~= contexts_view(f2).drop_last());
        lemma_risky_paths_determined(f1.drop_last(), f2.drop_last());
        assert(context_view(f1.last()) == contexts_view(f1)[f1.len() - 1]);
        assert(context_view(f2.last()) == contexts_view(f2)[f2.len() - 1]);
        assert(strings_view(risky_paths(f1.drop_last()).push(f1.last().path)) =~= strings_view(
            risky_paths(f1.drop_last()),
        ).push(f1.last().path@));
        assert(strings_view(risky_paths(f2.drop_last()).push(f2.last().path)) =~= strings_view(
            risky_paths(f2.drop_last()),
        ).push(f2.last().path@));
    }
}

/// Contexts with the same plain values give the same texts to read concepts from.
proof fn lemma_concept_texts_determined(f1: Seq<ScopedFileContext>, f2: Seq<ScopedFileContext>)
    requires
        contexts_view(f1) == contexts_view(f2),
    ensures
        concept_texts(f1) == concept_texts(f2),
    decreases f1.len(),
{
    assert(f1.len() == contexts_view(f1).len());
    assert(f2.len() == contexts_view(f2).len());
    if f1.len() > 0 {
        assert(contexts_view(f1.drop_last()) =~= contexts_view(f1).drop_last());
        assert(contexts_view(f2.drop_last()) =~= contexts_view(f2).drop_last());
        lemma_concept_texts_determined(f1.drop_last(), f2.drop_last());
        assert(context_view(f1.last()) == contexts_view(f1)[f1.len() - 1]);
        assert(context_view(f2.last()) == contexts_view(f2)[f2.len() - 1]);
        assert(opt_texts(f1.last().before) == opt_texts(f2.last().before));
        assert(opt_texts(f1.last().after) == opt_texts(f2.last().after));
    }
}

/// An analysis is determined by what it is built from: two analyses of the
/// same project, snapshots, supplied metadata and generation have the same
/// frozen files, the same record and the same metadata.
pub proof fn law_analysis_is_determined(
    style: PathStyle,
    a1: ChangeAnalysis,
    a2: ChangeAnalysis,
    project_path: Seq<char>,
    before: Seq<SnapshotFile>,
    after: Seq<SnapshotFile>,
    supplied: CompletionMetadata,
    generation: u64,
)
    requires
        analysis_matches(style, a1, project_path, before, after, supplied, generation),
        analysis_matches(style, a2, project_path, before, after, supplied, generation),
    ensures
        contexts_view(a1.frozen_files@) == contexts_view(a2.frozen_files@),
        a1.record.summary@ == a2.record.summary@,
        a1.record.purpose@ == a2.record.purpose@,
        strings_view(a1.record.changed_components@) == strings_view(a2.record.changed_components@),
        strings_view(a1.record.key_decisions@) == strings_view(a2.record.key_decisions@),
        a1.record.how_it_works@ == a2.record.how_it_works@,
        a1.record.impact@ == a2.record.impact@,
        a1.record.risk@ == a2.record.risk@,
        a1.record.review_priority@ == a2.record.review_priority@,
        strings_view(a1.record.programming_concepts@) == strings_view(
            a2.record.programming_concepts@,
        ),
        strings_view(a1.record.relevant_code_locations@) == strings_view(
            a2.record.relevant_code_locations@,
        ),
        a1.metadata.project_path@ == a2.metadata.project_path@,
        a1.metadata.source@ == a2.metadata.source@,
        a1.metadata.completion@ == a2.metadata.completion@,
        a1.metadata.completion_generation == a2.metadata.completion_generation,
        a1.metadata.changed_file_count == a2.metadata.changed_file_count,
        a1.metadata.supplied == a2.metadata.supplied,
{
    let f1 = a1.frozen_files@;
    let f2 = a2.frozen_files@;
    lemma_contexts_determined(f1, f2, before, after);
    assert(f1.len() == contexts_view(f1).len() && f2.len() == contexts_view(f2).len());
    assert(file_paths(f1) =~= file_paths(f2)) by {
        assert forall|i: int| 0 <= i < f1.len() implies file_paths(f1)[i] == file_paths(f2)[i] by {
            assert(context_view(f1[i]) == contexts_view(f1)[i]);
            assert(context_view(f2[i]) == contexts_view(f2)[i]);
        }
    }
    lemma_risky_paths_determined(f1, f2);
    let r1 = risky_paths(f1);
    let r2 = risky_paths(f2);
    assert(r1.len() == strings_view(r1).len() && r2.len() == strings_view(r2).len());
    assert forall|i: int| 0 <= i < r1.len() implies (#[trigger] r1[i]).key() == r2[i].key() by {
        assert(strings_view(r1)[i] == strings_view(r2)[i]);
    }
    lemma_sort_keys(r1, r2);
    let s1 = sort_by_key_spec(r1);
    let s2 = sort_by_key_spec(r2);
    assert(strings_view(s1) =~= strings_view(s2)) by {
        assert forall|i: int| 0 <= i < s1.len() implies strings_view(s1)[i] == strings_view(s2)[i] by {
            assert(s1[i].key() == s2[i].key());
        }
    }
    assert(risk_text(f1) == risk_text(f2));
    assert(priority_text(f1) == priority_text(f2));
    lemma_concept_texts_determined(f1, f2);
}


/// Two snapshots hold the same entry under every path that an analysis may
/// see.
pub open spec fn agree_in_scope(style: PathStyle, a: Seq<SnapshotFile>, b: Seq<SnapshotFile>) -> bool {
    forall|k: Seq<char>| scoped_path(style, k) ==> #[trigger] snapshot_entry(a, k) == snapshot_entry(b, k)
}

/// Scoping keeps the entries of scoped paths and drops the others.
proof fn lemma_scoped_entry_of(style: PathStyle, s: Seq<SnapshotFile>, k: Seq<char>)
    ensures
        snapshot_entry(scoped_files(style, s), k) == if scoped_path(style, k) {
            snapshot_entry(s, k)
        } else {
            None
        },
{
    lemma_scoped_key_map(style, s, k);
}

/// Paths outside the analysis scope (metadata, parent or absolute paths)
/// cannot change an analysis: for snapshots that agree on every scoped path,
/// whether anything changed and which analyses describe the change are the
/// same.
pub proof fn law_analysis_ignores_paths_outside_scope(
    style: PathStyle,
    before1: Seq<SnapshotFile>,
    after1: Seq<SnapshotFile>,
    before2: Seq<SnapshotFile>,
    after2: Seq<SnapshotFile>,
    c: AnalysisContext,
    a: ChangeAnalysis,
    project_path: Seq<char>,
    supplied: CompletionMetadata,
    generation: u64,
)
    requires
        agree_in_scope(style, before1, before2),
        agree_in_scope(style, after1, after2),
    ensures
        context_matches(
            style,
            c,
            project_path,
            scoped_files(style, before1),
            scoped_files(style, after1),
            supplied,
        ) == context_matches(
            style,
            c,
            project_path,
            scoped_files(style, before2),
            scoped_files(style, after2),
            supplied,
        ),
        unchanged(scoped_files(style, before1), scoped_files(style, after1)) == unchanged(
            scoped_files(style, before2),
            scoped_files(style, after2),
        ),
        analysis_matches(
            style,
            a,
            project_path,
            scoped_files(style, before1),
            scoped_files(style, after1),
            supplied,
            generation,
        ) == analysis_matches(
            style,
            a,
            project_path,
            scoped_files(style, before2),
            scoped_files(style, after2),
            supplied,
            generation,
        ),
{
    let sb1 = scoped_files(style, before1);
    let sa1 = scoped_files(style, after1);
    let sb2 = scoped_files(style, before2);
    let sa2 = scoped_files(style, after2);
    assert forall|k: Seq<char>|
        snapshot_entry(sb1, k) == snapshot_entry(sb2, k) && snapshot_entry(sa1, k)
            == snapshot_entry(sa2, k) by {
        lemma_scoped_entry_of(style, before1, k);
        lemma_scoped_entry_of(style, before2, k);
        lemma_scoped_entry_of(style, after1, k);
        lemma_scoped_entry_of(style, after2, k);
    }
    assert forall|k: Seq<char>| #[trigger] path_change(sb1, sa1, k) == path_change(sb2, sa2, k) by {
        assert(snapshot_entry(sb1, k) == snapshot_entry(sb2, k));
        assert(snapshot_entry(sa1, k) == snapshot_entry(sa2, k));
    }
    if unchanged(sb1, sa1) {
        assert forall|k: Seq<char>| #[trigger] path_change(sb2, sa2, k) is None by {
            assert(path_change(sb1, sa1, k) is None);
        }
    }
    if unchanged(sb2, sa2) {
        assert forall|k: Seq<char>| #[trigger] path_change(sb1, sa1, k) is None by {
            assert(path_change(sb2, sa2, k) is None);
        }
    }
    let f = a.frozen_files@;
    assert forall|i: int| 0 <= i < f.len() implies context_describes(#[trigger] f[i], sb1, sa1)
        == context_describes(f[i], sb2, sa2) by {
        assert(snapshot_entry(sb1, f[i].path@) == snapshot_entry(sb2, f[i].path@));
        assert(snapshot_entry(sa1, f[i].path@) == snapshot_entry(sa2, f[i].path@));
        assert(path_change(sb1, sa1, f[i].path@) == path_change(sb2, sa2, f[i].path@));
    }
    assert(contexts_describe_changes(f, sb1, sa1) == contexts_describe_changes(f, sb2, sa2));
    let g = c.files@;
    assert forall|i: int| 0 <= i < g.len() implies context_describes(#[trigger] g[i], sb1, sa1)
        == context_describes(g[i], sb2, sa2) by {
        assert(snapshot_entry(sb1, g[i].path@) == snapshot_entry(sb2, g[i].path@));
        assert(snapshot_entry(sa1, g[i].path@) == snapshot_entry(sa2, g[i].path@));
        assert(path_change(sb1, sa1, g[i].path@) == path_change(sb2, sa2, g[i].path@));
    }
    assert(contexts_describe_changes(g, sb1, sa1) == contexts_describe_changes(g, sb2, sa2));
    let d = c.diff.files@;
    assert forall|i: int| 0 <= i < d.len() implies crate::diff::record_describes(
        #[trigger] d[i],
        path_change(sb1, sa1, d[i].path@)->0,
        snapshot_entry(sb1, d[i].path@),
        snapshot_entry(sa1, d[i].path@),
    ) == crate::diff::record_describes(
        d[i],
        path_change(sb2, sa2, d[i].path@)->0,
        snapshot_entry(sb2, d[i].path@),
        snapshot_entry(sa2, d[i].path@),
    ) by {
        assert(snapshot_entry(sb1, d[i].path@) == snapshot_entry(sb2, d[i].path@));
        assert(snapshot_entry(sa1, d[i].path@) == snapshot_entry(sa2, d[i].path@));
        assert(path_change(sb1, sa1, d[i].path@) == path_change(sb2, sa2, d[i].path@));
    }
    assert(records_describe_changes(d, sb1, sa1) == records_describe_changes(d, sb2, sa2));
}

/// The files of a change context pair with its diff records one by one:
/// the same paths in the same order, with the same status and content
/// status.
pub proof fn law_context_files_pair_with_diff_records(
    style: PathStyle,
    c: AnalysisContext,
    project_path: Seq<char>,
    before: Seq<SnapshotFile>,
    after: Seq<SnapshotFile>,
    supplied: CompletionMetadata,
)
    requires
        context_matches(style, c, project_path, before, after, supplied),
    ensures
        c.files@.len() == c.diff.files@.len(),
        forall|i: int|
            0 <= i < c.files@.len() ==> {
                &&& (#[trigger] c.files@[i]).path@ == c.diff.files@[i].path@
                &&& c.files@[i].status == c.diff.files@[i].status
                &&& c.files@[i].content_status == c.diff.files@[i].content_status
            },
{
    let f = c.files@;
    let d = c.diff.files@;
    assert forall|k: Seq<char>| key_map(f).contains_key(k) == #[trigger] key_map(d).contains_key(k) by {
        assert(key_map(f).contains_key(k) <==> path_change(before, after, k) is Some);
        assert(key_map(d).contains_key(k) <==> path_change(before, after, k) is Some);
    }
    crate::order::lemma_sorted_keys_unique(f, d);
    assert forall|i: int| 0 <= i < f.len() implies {
        &&& (#[trigger] f[i]).path@ == d[i].path@
        &&& f[i].status == d[i].status
        &&& f[i].content_status == d[i].content_status
    } by {
        assert(f[i].key() == d[i].key());
        assert(context_describes(f[i], before, after));
        assert(crate::diff::record_describes(
            d[i],
            path_change(before, after, d[i].path@)->0,
            snapshot_entry(before, d[i].path@),
            snapshot_entry(after, d[i].path@),
        ));
    }
}


/// An analysis freezes exactly the files of the change context of the same
/// snapshots: the same paths, statuses, content statuses and texts, in the
/// same order, and counts them.
pub proof fn law_analysis_freezes_the_context_files(
    style: PathStyle,
    a: ChangeAnalysis,
    c: AnalysisContext,
    project_path: Seq<char>,
    before: Seq<SnapshotFile>,
    after: Seq<SnapshotFile>,
    supplied: CompletionMetadata,
    generation: u64,
)
    requires
        analysis_matches(style, a, project_path, before, after, supplied, generation),
        context_matches(style, c, project_path, before, after, supplied),
    ensures
        contexts_view(a.frozen_files@) == contexts_view(c.files@),
        a.metadata.changed_file_count == c.files@.len(),
        a.metadata.project_path@ == c.project_path@,
        a.metadata.supplied == c.supplied,
{
    lemma_contexts_determined(a.frozen_files@, c.files@, before, after);
    assert(a.frozen_files@.len() == contexts_view(a.frozen_files@).len());
    assert(c.files@.len() == contexts_view(c.files@).len());
}


/// A text without separators is a single segment.
pub(crate) proof fn lemma_segments_of_name(style: PathStyle, s: Seq<char>)
    requires
        forall|i: int| 0 <= i < s.len() ==> !is_separator(style, #[trigger] s[i]),
    ensures
        segments(style, s) == seq![s],
    decreases s.len(),
{
    if s.len() > 0 {
        let d = s.drop_last();
        assert forall|i: int| 0 <= i < d.len() implies !is_separator(style, #[trigger] d[i]) by {
            assert(d[i] == s[i]);
        }
        lemma_segments_of_name(style, d);
        assert(!is_separator(style, s[s.len() - 1]));
        assert(d.push(s.last()) =~= s);
        assert(seq![d].update(0, d.push(s.last())) =~= seq![s]);
    } else {
        assert(s =~= Seq::<char>::empty());
    }
}

/// A separator splits a path into the segments on either side.
pub(crate) proof fn lemma_segments_split(style: PathStyle, a: Seq<char>, b: Seq<char>)
    ensures
        segments(style, a + seq!['/'] + b) == segments(style, a) + segments(style, b),
    decreases b.len(),
{
    let z = a + seq!['/'] + b;
    if b.len() == 0 {
        assert(z.drop_last() =~= a);
        assert(z.last() == '/');
        assert(segments(style, b) == seq![Seq::<char>::empty()]);
        assert(segments(style, a).push(Seq::<char>::empty()) =~= segments(style, a) + seq![
            Seq::<char>::empty(),
        ]);
    } else {
        let bd = b.drop_last();
        lemma_segments_split(style, a, bd);
        assert(z.drop_last() =~= a + seq!['/'] + bd);
        assert(z.last() == b.last());
        lemma_segments_len(style, bd);
        lemma_segments_len(style, a);
        let x = segments(style, a);
        let y = segments(style, bd);
        if is_separator(style, b.last()) {
            assert((x + y).push(Seq::<char>::empty()) =~= x + y.push(Seq::<char>::empty()));
        } else {
            assert((x + y).update((x + y).len() - 1, (x + y).last().push(b.last())) =~= x + y.update(
                y.len() - 1,
                y.last().push(b.last()),
            ));
        }
    }
}

/// A single name is in the analysis scope unless it is `.`, `..`, or the
/// `.git` or `.codex` directory itself: names that merely start like them,
/// such as `.gitignore`, `.github` or `.codex-notes`, are ordinary files.
pub proof fn law_plain_names_are_in_scope(style: PathStyle, s: Seq<char>)
    requires
        s.len() > 0,
        forall|i: int| 0 <= i < s.len() ==> !is_separator(style, #[trigger] s[i]),
    ensures
        scoped_path(style, s) <==> (s != "."@ && s != ".."@ && s != ".git"@ && s != ".codex"@),
{
    lemma_segments_of_name(style, s);
    assert(!is_separator(style, s[0]));
}

/// Joining two in-scope paths with `/` gives an in-scope path: scope is
/// decided segment by segment.
pub proof fn law_scope_joins(style: PathStyle, a: Seq<char>, b: Seq<char>)
    requires
        scoped_path(style, a),
        scoped_path(style, b),
    ensures
        scoped_path(style, a + seq!['/'] + b),
{
    let z = a + seq!['/'] + b;
    lemma_segments_split(style, a, b);
    lemma_segments_len(style, a);
    let x = segments(style, a);
    let y = segments(style, b);
    assert(z[0] == a[0]);
    assert((x + y)[0] == x[0]);
    assert forall|k: int| 0 <= k < (x + y).len() implies !forbidden_segment(#[trigger] (x + y)[k]) by {
        if k < x.len() {
            assert((x + y)[k] == x[k]);
        } else {
            assert((x + y)[k] == y[k - x.len()]);
        }
    }
}

/// The file that a listed risky path comes from.
proof fn lemma_risky_source(files: Seq<ScopedFileContext>, k: int) -> (i: int)
    requires
        0 <= k < risky_paths(files).len(),
    ensures
        0 <= i < files.len(),
        files[i].path == risky_paths(files)[k],
        files[i].status == FileChangeStatus::Deleted || files[i].content_status != ContentStatus::Text,
    decreases files.len(),
{
    let init = files.drop_last();
    let n = files.len() - 1;
    if is_risky(files.last()) && k == risky_paths(init).len() {
        n
    } else {
        let i = lemma_risky_source(init, k);
        assert(files[i] == init[i]);
        i
    }
}

/// `p` is the path of a deleted file or of one whose content is not text.
pub open spec fn comes_from_review_file(files: Seq<ScopedFileContext>, p: String) -> bool {
    exists|i: int|
        0 <= i < files.len() && #[trigger] files[i].path == p && (files[i].status
            == FileChangeStatus::Deleted || files[i].content_status != ContentStatus::Text)
}

proof fn lemma_risky_listed_only(files: Seq<ScopedFileContext>)
    ensures
        forall|k: int|
            0 <= k < risky_paths(files).len() ==> #[trigger] comes_from_review_file(
                files,
                risky_paths(files)[k],
            ),
{
    assert forall|k: int| 0 <= k < risky_paths(files).len() implies #[trigger] comes_from_review_file(
        files,
        risky_paths(files)[k],
    ) by {
        let i = lemma_risky_source(files, k);
        assert(files[i].path == risky_paths(files)[k]);
    }
}

/// Which files call for a careful review: every deleted file and every file
/// whose content is binary or unavailable is listed in the risk assessment,
/// and nothing else is: each listed path belongs to such a file.  The review
/// priority is high exactly when there is such a file; otherwise it is the
/// placeholder for an unsupplied priority.
pub proof fn law_deleted_binary_and_unreadable_files_are_risks(files: Seq<ScopedFileContext>)
    ensures
        forall|i: int|
            0 <= i < files.len() && (files[i].status == FileChangeStatus::Deleted
                || files[i].content_status == ContentStatus::Binary || files[i].content_status
                == ContentStatus::Unavailable) ==> #[trigger] risky_paths(files).contains(files[i].path),
        forall|k: int|
            0 <= k < risky_paths(files).len() ==> #[trigger] comes_from_review_file(
                files,
                risky_paths(files)[k],
            ),
        priority_text(files) == if exists|i: int|
            0 <= i < files.len() && (#[trigger] files[i].status == FileChangeStatus::Deleted
                || files[i].content_status != ContentStatus::Text) {
            "high"@
        } else {
            unknown_text("review priority"@)
        },
    decreases files.len(),
{
    lemma_risky_listed_only(files);
    if files.len() > 0 {
        let init = files.drop_last();
        law_deleted_binary_and_unreadable_files_are_risks(init);
        let n = files.len() - 1;
        assert(files.last() == files[n]);
        assert(risky_paths(files) == if is_risky(files[n]) {
            risky_paths(init).push(files[n].path)
        } else {
            risky_paths(init)
        });
        assert forall|i: int|
            0 <= i < files.len() && (files[i].status == FileChangeStatus::Deleted
                || files[i].content_status == ContentStatus::Binary || files[i].content_status
                == ContentStatus::Unavailable) implies #[trigger] risky_paths(files).contains(
            files[i].path,
        ) by {
            if i < n {
                assert(init[i] == files[i]);
                assert(risky_paths(init).contains(init[i].path));
                let k = choose|k: int| 0 <= k < risky_paths(init).len() && risky_paths(init)[k] == init[i].path;
                assert(risky_paths(files)[k] == risky_paths(init)[k]);
            } else {
                assert(risky_paths(files).last() == files[n].path);
            }
        }
        if exists|i: int|
            0 <= i < files.len() && (#[trigger] files[i].status == FileChangeStatus::Deleted
                || files[i].content_status != ContentStatus::Text) {
            let i = choose|i: int|
                0 <= i < files.len() && (#[trigger] files[i].status == FileChangeStatus::Deleted
                    || files[i].content_status != ContentStatus::Text);
            if i < n {
                assert(init[i] == files[i]);
            }
        } else {
            assert forall|i: int| 0 <= i < init.len() implies !(#[trigger] init[i].status
                == FileChangeStatus::Deleted || init[i].content_status != ContentStatus::Text) by {
                assert(files[i] == init[i]);
            }
            assert(!is_risky(files[n]));
        }
    }
}

} // verus!
