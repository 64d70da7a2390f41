//! Snapshots of a project's files and the line-level diff between two of
//! them.

use vstd::prelude::*;
use crate::analysis::PathStyle;
use crate::order::{
    chars_equal, key_map, lemma_key_map_domain, lemma_key_map_value, strictly_sorted, upsert, Keyed,
};
use crate::text::{decode_utf8_bytes, to_chars};
use crate::watcher::FileChangeStatus;

verus! {

/// A file captured at a point in time.  `Unavailable` means that the file
/// existed but its content could not be read, which is different from a
/// missing entry.
#[derive(Clone, Debug, PartialEq, Eq)]
pub enum SnapshotEntry {
    Content(Vec<u8>),
    Unavailable,
}

/// One captured file: its slash-separated path relative to the project root
/// and its entry.
#[derive(Clone, Debug, PartialEq, Eq)]
pub struct SnapshotFile {
    pub path: String,
    pub entry: SnapshotEntry,
}

impl Keyed for SnapshotFile {
    open spec fn key(&self) -> Seq<char> {
        self.path@
    }

    fn key_chars(&self) -> (k: Vec<char>) {
        to_chars(self.path.as_str())
    }
}

/// The files of a project at one moment, ordered by path with no path twice.
#[derive(Clone, Debug, PartialEq, Eq)]
pub struct FileSnapshot {
    pub files: Vec<SnapshotFile>,
}

/// The entry stored under `path`, if any.
pub open spec fn snapshot_entry(files: Seq<SnapshotFile>, path: Seq<char>) -> Option<SnapshotEntry> {
    if key_map(files).contains_key(path) {
        Some(key_map(files)[path].entry)
    } else {
        None
    }
}

impl FileSnapshot {
    pub open spec fn wf(&self) -> bool {
        strictly_sorted(self.files@)
    }

    /// The entry stored under `path`, if any.
    pub open spec fn entry(&self, path: Seq<char>) -> Option<SnapshotEntry> {
        snapshot_entry(self.files@, path)
    }

    pub fn new() -> (s: FileSnapshot)
        ensures
            s.wf(),
            s.files@.len() == 0,
            forall|p: Seq<char>| s.entry(p) is None,
    {
        FileSnapshot { files: Vec::new() }
    }

    /// Stores `entry` under `path`, replacing an entry with the same path.
    pub fn insert(&mut self, path: String, entry: SnapshotEntry)
        requires
            old(self).wf(),
        ensures
            final(self).wf(),
            key_map(final(self).files@) == key_map(old(self).files@).insert(
                path@,
                SnapshotFile { path, entry },
            ),
            forall|p: Seq<char>| #[trigger]
                final(self).entry(p) == if p == path@ {
                    Some(entry)
                } else {
                    old(self).entry(p)
                },
    {
        let ghost file = SnapshotFile { path, entry };
        upsert(&mut self.files, SnapshotFile { path, entry });
    }

    /// The entry stored under `path`, if any.
    pub fn get(&self, path: &str) -> (r: Option<&SnapshotEntry>)
        requires
            self.wf(),
        ensures
            r is Some <==> self.entry(path@) is Some,
            r matches Some(e) ==> *e == self.entry(path@)->0,
    {
        let k = to_chars(path);
        let mut i: usize = 0;
        while i < self.files.len()
            invariant
                i <= self.files@.len(),
                self.wf(),
                k@ == path@,
                forall|j: int| 0 <= j < i ==> #[trigger] self.files@[j].path@ != path@,
            decreases self.files@.len() - i,
        {
            let pk = self.files[i].key_chars();
            if chars_equal(&pk, &k) {
                proof {
                    lemma_key_map_value(self.files@, i as int);
                }
                return Some(&self.files[i].entry);
            }
            i += 1;
        }
        proof {
            lemma_key_map_domain(self.files@, path@);
        }
        None
    }
}

#[derive(Clone, Copy, Debug, PartialEq, Eq, Structural)]
pub enum DiffSource {
    Unset,
    Git,
    Snapshot,
}

#[derive(Clone, Copy, Debug, PartialEq, Eq, Structural)]
pub enum ContentStatus {
    Text,
    Binary,
    Unavailable,
}

#[derive(Clone, Debug, PartialEq, Eq)]
pub struct FileDiffRecord {
    pub path: String,
    pub status: FileChangeStatus,
    pub lines_added: Option<u64>,
    pub lines_deleted: Option<u64>,
    pub content_status: ContentStatus,
}

impl Keyed for FileDiffRecord {
    open spec fn key(&self) -> Seq<char> {
        self.path@
    }

    fn key_chars(&self) -> (k: Vec<char>) {
        to_chars(self.path.as_str())
    }
}

#[derive(Clone, Debug, PartialEq, Eq)]
pub struct DiffState {
    pub project_path: Option<String>,
    pub source: DiffSource,
    pub fallback: bool,
    pub files: Vec<FileDiffRecord>,
    pub total_lines_added: Option<u64>,
    pub total_lines_deleted: Option<u64>,
    pub unknown_line_count_files: usize,
    pub error: Option<String>,
}

impl DiffState {
    /// The state before any project is watched.
    pub fn idle() -> (s: DiffState)
        ensures
            s.project_path is None,
            s.source == DiffSource::Unset,
            !s.fallback,
            s.files@.len() == 0,
            s.total_lines_added == Some(0u64),
            s.total_lines_deleted == Some(0u64),
            s.unknown_line_count_files == 0,
            s.error is None,
    {
        DiffState {
            project_path: None,
            source: DiffSource::Unset,
            fallback: false,
            files: Vec::new(),
            total_lines_added: Some(0),
            total_lines_deleted: Some(0),
            unknown_line_count_files: 0,
            error: None,
        }
    }
}

// ---------------------------------------------------------------- lines

/// Content counts as text when it is valid UTF-8 without a NUL byte.
pub open spec fn is_text(c: Seq<u8>) -> bool {
    vstd::utf8::valid_utf8(c) && !c.contains(0u8)
}

/// A line without its terminator: a final carriage return is dropped.
pub open spec fn strip_cr(l: Seq<u8>) -> Seq<u8> {
    if l.len() > 0 && l.last() == 13u8 {
        l.drop_last()
    } else {
        l
    }
}

/// The lines of `c[start..]`, scanning from `p`: each line ends at a line
/// feed, which it does not keep, and loses one trailing carriage return;
/// text after the last line feed is a line of its own.
pub open spec fn lines_from(c: Seq<u8>, start: int, p: int) -> Seq<Seq<u8>>
    decreases c.len() - p,
{
    if p >= c.len() {
        if start < c.len() {
            seq![strip_cr(c.subrange(start, c.len() as int))]
        } else {
            seq![]
        }
    } else if c[p] == 10u8 {
        seq![strip_cr(c.subrange(start, p))] + lines_from(c, p + 1, p + 1)
    } else {
        lines_from(c, start, p + 1)
    }
}

/// The lines of `c`; CRLF and LF end a line alike, and a missing final
/// newline adds no empty line.
pub open spec fn lines(c: Seq<u8>) -> Seq<Seq<u8>> {
    lines_from(c, 0, 0)
}

pub proof fn lemma_lines_from_len(c: Seq<u8>, start: int, p: int)
    requires
        0 <= start <= p <= c.len(),
    ensures
        lines_from(c, start, p).len() <= c.len() - start,
    decreases c.len() - p,
{
    if p < c.len() {
        if c[p] == 10u8 {
            lemma_lines_from_len(c, p + 1, p + 1);
        } else {
            lemma_lines_from_len(c, start, p + 1);
        }
    }
}

fn contains_nul(c: &[u8]) -> (r: bool)
    ensures
        r == c@.contains(0u8),
{
    let mut i: usize = 0;
    while i < c.len()
        invariant
            i <= c@.len(),
            forall|j: int| 0 <= j < i ==> c@[j] != 0u8,
        decreases c@.len() - i,
    {
        if c[i] == 0 {
            assert(c@[i as int] == 0u8);
            return true;
        }
        i += 1;
    }
    false
}

fn copy_range(c: &[u8], start: usize, end: usize) -> (r: Vec<u8>)
    requires
        start <= end <= c@.len(),
    ensures
        r@ == c@.subrange(start as int, end as int),
{
    let mut r: Vec<u8> = Vec::new();
    let mut i = start;
    while i < end
        invariant
            start <= i <= end,
            end <= c@.len(),
            r@ == c@.subrange(start as int, i as int),
        decreases end - i,
    {
        r.push(c[i]);
        i += 1;
        assert(r@ =~= c@.subrange(start as int, i as int));
    }
    r
}

fn strip_cr_vec(mut l: Vec<u8>) -> (r: Vec<u8>)
    ensures
        r@ == strip_cr(l@),
{
    let n = l.len();
    if n > 0 && l[n - 1] == 13 {
        l.pop();
    }
    l
}

pub open spec fn lines_view(v: Seq<Vec<u8>>) -> Seq<Seq<u8>> {
    v.map_values(|l: Vec<u8>| l@)
}

/// Splits text content into lines; `Err(Binary)` when it is not text.
fn text_lines(content: &[u8]) -> (r: Result<Vec<Vec<u8>>, ContentStatus>)
    ensures
        r is Ok <==> is_text(content@),
        r matches Err(e) ==> e == ContentStatus::Binary,
        r matches Ok(v) ==> lines_view(v@) == lines(content@),
{
    if decode_utf8_bytes(content).is_none() {
        return Err(ContentStatus::Binary);
    }
    if contains_nul(content) {
        return Err(ContentStatus::Binary);
    }
    let mut out: Vec<Vec<u8>> = Vec::new();
    let mut start: usize = 0;
    let mut p: usize = 0;
    while p < content.len()
        invariant
            start <= p <= content@.len(),
            lines_view(out@) + lines_from(content@, start as int, p as int) == lines(content@),
        decreases content@.len() - p,
    {
        if content[p] == 10 {
            let line = strip_cr_vec(copy_range(content, start, p));
            let ghost before = out@;
            out.push(line);
            assert(lines_view(out@) =~= lines_view(before).push(line@));
            assert(lines_view(out@) + lines_from(content@, p + 1, p + 1) =~= lines_view(before)
                + lines_from(content@, start as int, p as int));
            p += 1;
            start = p;
        } else {
            p += 1;
        }
    }
    if start < content.len() {
        let line = strip_cr_vec(copy_range(content, start, content.len()));
        let ghost before = out@;
        out.push(line);
        assert(lines_view(out@) =~= lines_view(before).push(line@));
        assert(lines_view(out@) =~= lines_view(before) + lines_from(
            content@,
            start as int,
            p as int,
        ));
    } else {
        assert(lines_view(out@) =~= lines_view(out@) + lines_from(
            content@,
            start as int,
            p as int,
        ));
    }
    Ok(out)
}

/// The number of lines of text content.
pub fn line_count(content: &[u8]) -> (r: Result<u64, ContentStatus>)
    ensures
        r is Ok <==> is_text(content@),
        r matches Err(e) ==> e == ContentStatus::Binary,
        r matches Ok(n) ==> n == lines(content@).len(),
{
    match text_lines(content) {
        Ok(v) => {
            assert(lines_view(v@).len() == v@.len());
            Ok(v.len() as u64)
        },
        Err(e) => Err(e),
    }
}

// ---------------------------------------------------------------- line changes

/// The length of a longest common subsequence of two sequences of lines.
pub open spec fn lcs(a: Seq<Seq<u8>>, b: Seq<Seq<u8>>) -> nat
    decreases a.len() + b.len(),
{
    if a.len() == 0 || b.len() == 0 {
        0
    } else if a.last() == b.last() {
        lcs(a.drop_last(), b.drop_last()) + 1
    } else {
        let x = lcs(a.drop_last(), b);
        let y = lcs(a, b.drop_last());
        if x >= y {
            x
        } else {
            y
        }
    }
}

pub proof fn lemma_lcs_bounds(a: Seq<Seq<u8>>, b: Seq<Seq<u8>>)
    ensures
        lcs(a, b) <= a.len(),
        lcs(a, b) <= b.len(),
    decreases a.len() + b.len(),
{
    if a.len() > 0 && b.len() > 0 {
        lemma_lcs_bounds(a.drop_last(), b.drop_last());
        lemma_lcs_bounds(a.drop_last(), b);
        lemma_lcs_bounds(a, b.drop_last());
    }
}

/// A longest common subsequence does not depend on which side comes first.
pub proof fn lemma_lcs_symmetric(a: Seq<Seq<u8>>, b: Seq<Seq<u8>>)
    ensures
        lcs(a, b) == lcs(b, a),
    decreases a.len() + b.len(),
{
    if a.len() > 0 && b.len() > 0 {
        lemma_lcs_symmetric(a.drop_last(), b.drop_last());
        lemma_lcs_symmetric(a.drop_last(), b);
        lemma_lcs_symmetric(a, b.drop_last());
    }
}

/// A sequence has itself as a longest common subsequence with itself.
pub proof fn lemma_lcs_self(a: Seq<Seq<u8>>)
    ensures
        lcs(a, a) == a.len(),
    decreases a.len(),
{
    if a.len() > 0 {
        lemma_lcs_self(a.drop_last());
    }
}

/// Lines added and deleted between two texts: the lines of each outside a
/// longest common subsequence of lines.
pub open spec fn line_changes(before: Seq<u8>, after: Seq<u8>) -> (int, int) {
    let common = lcs(lines(before), lines(after));
    (lines(after).len() - common, lines(before).len() - common)
}

fn lines_equal(a: &Vec<u8>, b: &Vec<u8>) -> (r: bool)
    ensures
        r == (a@ == b@),
{
    if a.len() != b.len() {
        return false;
    }
    let mut i: usize = 0;
    while i < a.len()
        invariant
            i <= a@.len(),
            a@.len() == b@.len(),
            forall|j: int| 0 <= j < i ==> a@[j] == b@[j],
        decreases a@.len() - i,
    {
        if a[i] != b[i] {
            return false;
        }
        i += 1;
    }
    assert(a@ =~= b@);
    true
}

/// Counts the lines added and deleted between two contents with a
/// deterministic longest-common-subsequence comparison.  CRLF and LF count as
/// the same line ending, and a missing final newline adds no line.
pub fn count_line_changes(before: &[u8], after: &[u8]) -> (r: Result<(u64, u64), ContentStatus>)
    ensures
        r is Ok <==> is_text(before@) && is_text(after@),
        r matches Err(e) ==> e == ContentStatus::Binary,
        r matches Ok((added, deleted)) ==> added == line_changes(before@, after@).0 && deleted
            == line_changes(before@, after@).1,
{
    let before_lines = match text_lines(before) {
        Ok(v) => v,
        Err(e) => return Err(e),
    };
    let after_lines = match text_lines(after) {
        Ok(v) => v,
        Err(e) => return Err(e),
    };
    let ghost a = lines_view(before_lines@);
    let ghost b = lines_view(after_lines@);
    let n = after_lines.len();
    let mut previous: Vec<u64> = Vec::new();
    previous.push(0);
    let mut j: usize = 0;
    while j < n
        invariant
            j <= n,
            n == after_lines@.len(),
            previous@.len() == j + 1,
            forall|k: int| 0 <= k <= j ==> previous@[k] == 0,
        decreases n - j,
    {
        previous.push(0);
        j += 1;
    }
    let mut i: usize = 0;
    while i < before_lines.len()
        invariant
            i <= before_lines@.len(),
            n == after_lines@.len(),
            a == lines_view(before_lines@),
            b == lines_view(after_lines@),
            previous@.len() == n + 1,
            forall|k: int| 0 <= k <= n ==> previous@[k] == lcs(a.take(i as int), b.take(k)),
        decreases before_lines@.len() - i,
    {
        let mut current: Vec<u64> = Vec::new();
        current.push(0);
        proof {
            assert(b.take(0).len() == 0);
        }
        let mut k: usize = 0;
        while k < n
            invariant
                i < before_lines@.len(),
                k <= n,
                n == after_lines@.len(),
                a == lines_view(before_lines@),
                b == lines_view(after_lines@),
                previous@.len() == n + 1,
                forall|m: int| 0 <= m <= n ==> previous@[m] == lcs(a.take(i as int), b.take(m)),
                current@.len() == k + 1,
                forall|m: int| 0 <= m <= k ==> current@[m] == lcs(a.take(i + 1), b.take(m)),
            decreases n - k,
        {
            proof {
                lemma_lcs_bounds(a.take(i as int), b.take(k as int));
                assert(a.take(i + 1).drop_last() =~= a.take(i as int));
                assert(b.take(k + 1).drop_last() =~= b.take(k as int));
                assert(a.take(i + 1).last() == a[i as int]);
                assert(b.take(k + 1).last() == b[k as int]);
            }
            let value = if lines_equal(&before_lines[i], &after_lines[k]) {
                previous[k] + 1
            } else {
                let left = current[k];
                let up = previous[k + 1];
                if left >= up {
                    left
                } else {
                    up
                }
            };
            current.push(value);
            k += 1;
        }
        proof {
            assert forall|m: int| 0 <= m <= n implies current@[m] == lcs(
                a.take((i + 1) as int),
                b.take(m),
            ) by {}
        }
        previous = current;
        i += 1;
    }
    proof {
        assert(a.take(before_lines@.len() as int) =~= a);
        assert(b.take(n as int) =~= b);
        lemma_lcs_bounds(a, b);
    }
    let common = previous[n];
    Ok((n as u64 - common, before_lines.len() as u64 - common))
}

// ---------------------------------------------------------------- file records

pub open spec fn deref_entry(e: Option<&SnapshotEntry>) -> Option<SnapshotEntry> {
    match e {
        Some(x) => Some(*x),
        None => None,
    }
}

/// What one side of a change is: unreadable, binary or text.  A missing side
/// counts as text.
pub open spec fn entry_status(e: Option<SnapshotEntry>) -> ContentStatus {
    match e {
        Some(SnapshotEntry::Unavailable) => ContentStatus::Unavailable,
        Some(SnapshotEntry::Content(c)) => if is_text(c@) {
            ContentStatus::Text
        } else {
            ContentStatus::Binary
        },
        None => ContentStatus::Text,
    }
}

/// Unavailable wins over binary, and binary over text.
pub open spec fn combined_status(before: Option<SnapshotEntry>, after: Option<SnapshotEntry>) -> ContentStatus {
    let b = entry_status(before);
    let a = entry_status(after);
    if b == ContentStatus::Unavailable || a == ContentStatus::Unavailable {
        ContentStatus::Unavailable
    } else if b == ContentStatus::Binary || a == ContentStatus::Binary {
        ContentStatus::Binary
    } else {
        ContentStatus::Text
    }
}

/// The line counts of a change, `None` where they are unknown: an added file
/// adds all its lines, a deleted one deletes them, a modified one counts
/// both ways; counts are known only for text on both sides.
pub open spec fn change_counts(
    status: FileChangeStatus,
    before: Option<SnapshotEntry>,
    after: Option<SnapshotEntry>,
) -> (Option<u64>, Option<u64>) {
    if combined_status(before, after) != ContentStatus::Text {
        (None, None)
    } else {
        match (status, before, after) {
            (FileChangeStatus::Added, _, Some(SnapshotEntry::Content(a))) => (
                Some(lines(a@).len() as u64),
                Some(0u64),
            ),
            (FileChangeStatus::Deleted, Some(SnapshotEntry::Content(b)), _) => (
                Some(0u64),
                Some(lines(b@).len() as u64),
            ),
            (
                FileChangeStatus::Modified,
                Some(SnapshotEntry::Content(b)),
                Some(SnapshotEntry::Content(a)),
            ) => (
                Some(line_changes(b@, a@).0 as u64),
                Some(line_changes(b@, a@).1 as u64),
            ),
            _ => (None, None),
        }
    }
}

/// `rec` describes a change of the given status between `before` and `after`.
pub open spec fn record_describes(
    rec: FileDiffRecord,
    status: FileChangeStatus,
    before: Option<SnapshotEntry>,
    after: Option<SnapshotEntry>,
) -> bool {
    &&& rec.status == status
    &&& rec.content_status == combined_status(before, after)
    &&& (rec.lines_added, rec.lines_deleted) == change_counts(status, before, after)
}

fn content_status(entry: Option<&SnapshotEntry>) -> (r: ContentStatus)
    ensures
        r == entry_status(deref_entry(entry)),
{
    match entry {
        Some(SnapshotEntry::Unavailable) => ContentStatus::Unavailable,
        Some(SnapshotEntry::Content(content)) => match text_lines(content.as_slice()) {
            Ok(_) => ContentStatus::Text,
            Err(status) => status,
        },
        None => ContentStatus::Text,
    }
}

/// The diff record of one changed path.
pub fn file_diff(
    path: String,
    status: FileChangeStatus,
    before: Option<&SnapshotEntry>,
    after: Option<&SnapshotEntry>,
) -> (r: FileDiffRecord)
    ensures
        r.path == path,
        record_describes(r, status, deref_entry(before), deref_entry(after)),
{
    let status_before = content_status(before);
    let status_after = content_status(after);
    let content_status = if status_before == ContentStatus::Unavailable || status_after
        == ContentStatus::Unavailable {
        ContentStatus::Unavailable
    } else if status_before == ContentStatus::Binary || status_after == ContentStatus::Binary {
        ContentStatus::Binary
    } else {
        ContentStatus::Text
    };
    let (mut lines_added, mut lines_deleted): (Option<u64>, Option<u64>) = match (
        status,
        before,
        after,
    ) {
        (FileChangeStatus::Added, _, Some(SnapshotEntry::Content(a))) => {
            (line_count(a.as_slice()).ok(), Some(0))
        },
        (FileChangeStatus::Deleted, Some(SnapshotEntry::Content(b)), _) => {
            (Some(0), line_count(b.as_slice()).ok())
        },
        (
            FileChangeStatus::Modified,
            Some(SnapshotEntry::Content(b)),
            Some(SnapshotEntry::Content(a)),
        ) => {
            match count_line_changes(b.as_slice(), a.as_slice()) {
                Ok((added, deleted)) => (Some(added), Some(deleted)),
                Err(_) => (None, None),
            }
        },
        _ => (None, None),
    };
    if content_status != ContentStatus::Text {
        lines_added = None;
        lines_deleted = None;
    }
    FileDiffRecord { path, status, lines_added, lines_deleted, content_status }
}

// ---------------------------------------------------------------- totals

/// The sum of the counts, or `None` when one of them is unknown.
pub open spec fn sum_known(s: Seq<Option<u64>>) -> Option<int>
    decreases s.len(),
{
    if s.len() == 0 {
        Some(0)
    } else {
        match (sum_known(s.drop_last()), s.last()) {
            (Some(t), Some(v)) => Some(t + v),
            _ => None,
        }
    }
}

/// The total of the counts when all are known and it fits in a `u64`.
pub open spec fn total_spec(s: Seq<Option<u64>>) -> Option<u64> {
    match sum_known(s) {
        Some(t) => if t <= u64::MAX {
            Some(t as u64)
        } else {
            None
        },
        None => None,
    }
}

pub open spec fn added_counts(files: Seq<FileDiffRecord>) -> Seq<Option<u64>> {
    files.map_values(|f: FileDiffRecord| f.lines_added)
}

pub open spec fn deleted_counts(files: Seq<FileDiffRecord>) -> Seq<Option<u64>> {
    files.map_values(|f: FileDiffRecord| f.lines_deleted)
}

/// The number of records with an unknown line count.
pub open spec fn unknown_count(files: Seq<FileDiffRecord>) -> nat
    decreases files.len(),
{
    if files.len() == 0 {
        0
    } else {
        unknown_count(files.drop_last()) + if files.last().lines_added is None
            || files.last().lines_deleted is None {
            1nat
        } else {
            0nat
        }
    }
}

proof fn lemma_sum_known_monotone(s: Seq<Option<u64>>, i: int)
    requires
        0 <= i <= s.len(),
        sum_known(s) is Some,
    ensures
        sum_known(s.take(i)) is Some,
        sum_known(s.take(i))->0 <= sum_known(s)->0,
    decreases s.len() - i,
{
    if i < s.len() {
        lemma_sum_known_monotone(s, i + 1);
        assert(s.take(i + 1).drop_last() =~= s.take(i));
    } else {
        assert(s.take(i) =~= s);
    }
}

fn total(counts: &Vec<Option<u64>>) -> (r: Option<u64>)
    ensures
        r == total_spec(counts@),
{
    let mut acc: u64 = 0;
    let mut known = true;
    let mut i: usize = 0;
    while i < counts.len()
        invariant
            i <= counts@.len(),
            known ==> sum_known(counts@.take(i as int)) == Some(acc as int),
            !known ==> sum_known(counts@.take(i as int)) is None || sum_known(counts@.take(
                i as int,
            ))->0 > u64::MAX,
        decreases counts@.len() - i,
    {
        proof {
            assert(counts@.take(i + 1).drop_last() =~= counts@.take(i as int));
        }
        if known {
            match counts[i] {
                Some(v) => match acc.checked_add(v) {
                    Some(t) => {
                        acc = t;
                    },
                    None => {
                        known = false;
                    },
                },
                None => {
                    known = false;
                },
            }
        }
        i += 1;
    }
    proof {
        assert(counts@.take(counts@.len() as int) =~= counts@);
    }
    if known {
        Some(acc)
    } else {
        None
    }
}

fn count_unknown(files: &Vec<FileDiffRecord>) -> (r: usize)
    ensures
        r == unknown_count(files@),
{
    let mut n: usize = 0;
    let mut i: usize = 0;
    while i < files.len()
        invariant
            i <= files@.len(),
            n == unknown_count(files@.take(i as int)),
            n <= i,
        decreases files@.len() - i,
    {
        proof {
            assert(files@.take(i + 1).drop_last() =~= files@.take(i as int));
        }
        if files[i].lines_added.is_none() || files[i].lines_deleted.is_none() {
            n += 1;
        }
        i += 1;
    }
    proof {
        assert(files@.take(files@.len() as int) =~= files@);
    }
    n
}

/// Assembles a diff state: the records sorted stably by path, with the
/// totals that they imply.
pub fn finalize_state(
    project_path: Option<String>,
    source: DiffSource,
    fallback: bool,
    files: Vec<FileDiffRecord>,
    error: Option<String>,
) -> (r: DiffState)
    ensures
        r.project_path == project_path,
        r.source == source,
        r.fallback == fallback,
        r.files@ == crate::order::sort_by_key_spec(files@),
        r.total_lines_added == total_spec(added_counts(r.files@)),
        r.total_lines_deleted == total_spec(deleted_counts(r.files@)),
        r.unknown_line_count_files == unknown_count(r.files@),
        r.error == error,
{
    let files = crate::order::sort_by_key(files);
    let mut added: Vec<Option<u64>> = Vec::new();
    let mut deleted: Vec<Option<u64>> = Vec::new();
    let mut i: usize = 0;
    while i < files.len()
        invariant
            i <= files@.len(),
            added@ == added_counts(files@.take(i as int)),
            deleted@ == deleted_counts(files@.take(i as int)),
        decreases files@.len() - i,
    {
        added.push(files[i].lines_added);
        deleted.push(files[i].lines_deleted);
        i += 1;
        assert(added@ =~= added_counts(files@.take(i as int)));
        assert(deleted@ =~= deleted_counts(files@.take(i as int)));
    }
    assert(files@.take(files@.len() as int) =~= files@);
    let total_lines_added = total(&added);
    let total_lines_deleted = total(&deleted);
    let unknown_line_count_files = count_unknown(&files);
    DiffState {
        project_path,
        source,
        fallback,
        files,
        total_lines_added,
        total_lines_deleted,
        unknown_line_count_files,
        error,
    }
}

// ---------------------------------------------------------------- snapshot diff

/// How a path changed between two entries: `None` when its content is the
/// same (or unreadable on both sides).
pub open spec fn change_status(before: Option<SnapshotEntry>, after: Option<SnapshotEntry>) -> Option<
    FileChangeStatus,
> {
    match (before, after) {
        (None, Some(_)) => Some(FileChangeStatus::Added),
        (Some(_), None) => Some(FileChangeStatus::Deleted),
        (Some(SnapshotEntry::Content(b)), Some(SnapshotEntry::Content(a))) => if b@ == a@ {
            None
        } else {
            Some(FileChangeStatus::Modified)
        },
        (Some(SnapshotEntry::Unavailable), Some(SnapshotEntry::Unavailable)) => None,
        (Some(_), Some(_)) => Some(FileChangeStatus::Modified),
        (None, None) => None,
    }
}

/// The change of `path` between two snapshots.
pub open spec fn path_change(before: Seq<SnapshotFile>, after: Seq<SnapshotFile>, path: Seq<char>) -> Option<
    FileChangeStatus,
> {
    change_status(snapshot_entry(before, path), snapshot_entry(after, path))
}

/// The records hold exactly the changed paths, once each in path order, and
/// each describes its path's change.
pub open spec fn records_describe_changes(
    files: Seq<FileDiffRecord>,
    before: Seq<SnapshotFile>,
    after: Seq<SnapshotFile>,
) -> bool {
    &&& strictly_sorted(files)
    &&& forall|k: Seq<char>| #[trigger]
        key_map(files).contains_key(k) <==> path_change(before, after, k) is Some
    &&& forall|i: int|
        0 <= i < files.len() ==> record_describes(
            #[trigger] files[i],
            path_change(before, after, files[i].path@)->0,
            snapshot_entry(before, files[i].path@),
            snapshot_entry(after, files[i].path@),
        )
}

fn change_of(before: Option<&SnapshotEntry>, after: Option<&SnapshotEntry>) -> (r: Option<
    FileChangeStatus,
>)
    ensures
        r == change_status(deref_entry(before), deref_entry(after)),
{
    match (before, after) {
        (None, Some(_)) => Some(FileChangeStatus::Added),
        (Some(_), None) => Some(FileChangeStatus::Deleted),
        (Some(SnapshotEntry::Content(b)), Some(SnapshotEntry::Content(a))) => {
            if lines_equal(b, a) {
                None
            } else {
                Some(FileChangeStatus::Modified)
            }
        },
        (Some(SnapshotEntry::Unavailable), Some(SnapshotEntry::Unavailable)) => None,
        (Some(_), Some(_)) => Some(FileChangeStatus::Modified),
        (None, None) => None,
    }
}

/// Compares two snapshots.  A path is reported only when its final entry
/// differs from its entry in `before`.
pub fn diff_snapshots(project_path: Option<String>, before: &FileSnapshot, after: &FileSnapshot) -> (r:
    DiffState)
    requires
        before.wf(),
        after.wf(),
    ensures
        r.project_path == project_path,
        r.source == DiffSource::Snapshot,
        r.fallback,
        r.error is None,
        records_describe_changes(r.files@, before.files@, after.files@),
        before.files@ == after.files@ ==> r.files@.len() == 0,
        r.total_lines_added == total_spec(added_counts(r.files@)),
        r.total_lines_deleted == total_spec(deleted_counts(r.files@)),
        r.unknown_line_count_files == unknown_count(r.files@),
{
    let mut out: Vec<FileDiffRecord> = Vec::new();
    let mut i: usize = 0;
    while i < before.files.len()
        invariant
            i <= before.files@.len(),
            before.wf(),
            after.wf(),
            strictly_sorted(out@),
            forall|k: Seq<char>| #[trigger]
                key_map(out@).contains_key(k) <==> (exists|j: int|
                    0 <= j < i && #[trigger] before.files@[j].key() == k) && path_change(
                    before.files@,
                    after.files@,
                    k,
                ) is Some,
            forall|k: Seq<char>| #[trigger]
                key_map(out@).contains_key(k) ==> key_map(out@)[k].path@ == k && record_describes(
                    key_map(out@)[k],
                    path_change(before.files@, after.files@, k)->0,
                    before.entry(k),
                    after.entry(k),
                ),
        decreases before.files@.len() - i,
    {
        let file = &before.files[i];
        let after_entry = after.get(file.path.as_str());
        proof {
            lemma_key_map_value(before.files@, i as int);
        }
        match change_of(Some(&file.entry), after_entry) {
            Some(status) => {
                let rec = file_diff(file.path.clone(), status, Some(&file.entry), after_entry);
                upsert(&mut out, rec);
            },
            None => {},
        }
        i += 1;
    }
    proof {
        assert forall|k: Seq<char>| #[trigger]
            key_map(out@).contains_key(k) <==> ((before.entry(k) is Some && path_change(
                before.files@,
                after.files@,
                k,
            ) is Some) || (before.entry(k) is None && exists|m: int|
                0 <= m < 0 && #[trigger] after.files@[m].key() == k)) by {
            lemma_key_map_domain(before.files@, k);
        }
    }
    let mut j: usize = 0;
    while j < after.files.len()
        invariant
            j <= after.files@.len(),
            before.wf(),
            after.wf(),
            strictly_sorted(out@),
            forall|k: Seq<char>| #[trigger]
                key_map(out@).contains_key(k) <==> ((before.entry(k) is Some && path_change(
                    before.files@,
                    after.files@,
                    k,
                ) is Some) || (before.entry(k) is None && exists|m: int|
                    0 <= m < j && #[trigger] after.files@[m].key() == k)),
            forall|k: Seq<char>| #[trigger]
                key_map(out@).contains_key(k) ==> key_map(out@)[k].path@ == k && record_describes(
                    key_map(out@)[k],
                    path_change(before.files@, after.files@, k)->0,
                    before.entry(k),
                    after.entry(k),
                ),
        decreases after.files@.len() - j,
    {
        let file = &after.files[j];
        proof {
            lemma_key_map_value(after.files@, j as int);
        }
        if before.get(file.path.as_str()).is_none() {
            let rec = file_diff(file.path.clone(), FileChangeStatus::Added, None, Some(&file.entry));
            upsert(&mut out, rec);
        }
        j += 1;
    }
    proof {
        assert forall|k: Seq<char>| #[trigger]
            key_map(out@).contains_key(k) <==> path_change(before.files@, after.files@, k) is Some by {
            lemma_key_map_domain(after.files@, k);
        }
        assert forall|x: int| 0 <= x < out@.len() implies record_describes(
            #[trigger] out@[x],
            path_change(before.files@, after.files@, out@[x].path@)->0,
            before.entry(out@[x].path@),
            after.entry(out@[x].path@),
        ) by {
            lemma_key_map_value(out@, x);
        }
        crate::order::lemma_strictly_sorted_is_sorted(out@);
        crate::order::lemma_sort_of_sorted(out@);
        assert(records_describe_changes(out@, before.files@, after.files@));
        if before.files@ == after.files@ {
            law_identical_snapshots_have_no_records(out@, before.files@);
        }
    }
    finalize_state(project_path, DiffSource::Snapshot, true, out, None)
}

// ---------------------------------------------------------------- capture

/// The relative path under which a file found at `path` is captured, when
/// it may be: inside the root and outside metadata.
pub open spec fn captured_path(style: PathStyle, root: Seq<char>, path: Seq<char>) -> Option<Seq<char>> {
    match crate::watcher::relative_to(style, root, path) {
        Ok(rel) => if crate::watcher::metadata_path(style, rel) {
            None
        } else {
            Some(rel)
        },
        Err(_) => None,
    }
}

/// The entry that the last capture of `path` among the found files gives.
pub open spec fn last_capture(style: PathStyle, root: Seq<char>, found: Seq<(String, SnapshotEntry)>, path: Seq<char>) -> Option<
    SnapshotEntry,
>
    decreases found.len(),
{
    if found.len() == 0 {
        None
    } else if captured_path(style, root, found.last().0@) == Some(path) {
        Some(found.last().1)
    } else {
        last_capture(style, root, found.drop_last(), path)
    }
}

/// Captures the files found under the root, each with its absolute path and
/// its content (or `Unavailable` when it could not be read), into a snapshot
/// keyed by relative path; metadata and paths outside the root are left out.
pub fn capture_snapshot(style: PathStyle, root: &str, found: Vec<(String, SnapshotEntry)>) -> (r: FileSnapshot)
    ensures
        r.wf(),
        forall|k: Seq<char>| #[trigger] r.entry(k) == last_capture(style, root@, found@, k),
{
    let ghost whole = found@;
    let mut snapshot = FileSnapshot::new();
    for item in it: found.into_iter()
        invariant
            it.seq() == whole,
            snapshot.wf(),
            forall|k: Seq<char>| #[trigger]
                snapshot.entry(k) == last_capture(style, root@, whole.take(it.index() as int), k),
    {
        let ghost i = it.index();
        proof {
            assert(whole.take(i + 1).drop_last() =~= whole.take(i as int));
            assert(whole.take(i + 1).last() == item);
        }
        let (path, entry) = item;
        match crate::git::git_relative_path(style, root, path.as_str()) {
            Some(rel) => {
                snapshot.insert(rel, entry);
            },
            None => {},
        }
    }
    proof {
        assert(whole.take(whole.len() as int) =~= whole);
    }
    snapshot
}

// ---------------------------------------------------------------- laws

/// Identical contents have no added and no deleted lines.
pub proof fn law_same_content_has_no_line_changes(content: Seq<u8>)
    ensures
        line_changes(content, content) == (0int, 0int),
{
    lemma_lcs_self(lines(content));
}

/// Swapping the two contents swaps the added and deleted counts.
pub proof fn law_line_changes_swap(before: Seq<u8>, after: Seq<u8>)
    ensures
        line_changes(after, before) == (line_changes(before, after).1, line_changes(
            before,
            after,
        ).0),
{
    lemma_lcs_symmetric(lines(before), lines(after));
}

/// Records that describe the changes between a snapshot and itself are
/// empty: nothing changes.
pub proof fn law_identical_snapshots_have_no_records(
    files: Seq<FileDiffRecord>,
    snapshot: Seq<SnapshotFile>,
)
    requires
        records_describe_changes(files, snapshot, snapshot),
    ensures
        files.len() == 0,
{
    if files.len() > 0 {
        crate::order::lemma_key_map_value(files, 0);
        assert(path_change(snapshot, snapshot, files[0].path@) is Some);
    }
}


/// A change record as plain values.
pub open spec fn diff_record_view(r: FileDiffRecord) -> (
    Seq<char>,
    FileChangeStatus,
    Option<u64>,
    Option<u64>,
    ContentStatus,
) {
    (r.path@, r.status, r.lines_added, r.lines_deleted, r.content_status)
}

/// The change records between two snapshots are determined by the
/// snapshots: any two lists that describe the changes hold the same
/// records, in the same order.  So the snapshot comparison and the diff
/// against a baseline give the same records for the same two snapshots.
pub proof fn law_change_records_are_determined(
    f1: Seq<FileDiffRecord>,
    f2: Seq<FileDiffRecord>,
    before: Seq<SnapshotFile>,
    after: Seq<SnapshotFile>,
)
    requires
        records_describe_changes(f1, before, after),
        records_describe_changes(f2, before, after),
    ensures
        f1.map_values(|r: FileDiffRecord| diff_record_view(r)) == f2.map_values(
            |r: FileDiffRecord| diff_record_view(r),
        ),
{
    assert forall|k: Seq<char>| key_map(f1).contains_key(k) == #[trigger] key_map(f2).contains_key(k) by {
        assert(key_map(f1).contains_key(k) <==> path_change(before, after, k) is Some);
        assert(key_map(f2).contains_key(k) <==> path_change(before, after, k) is Some);
    }
    crate::order::lemma_sorted_keys_unique(f1, f2);
    assert forall|i: int| 0 <= i < f1.len() implies diff_record_view(#[trigger] f1[i]) == diff_record_view(
        f2[i],
    ) by {
        assert(f1[i].key() == f2[i].key());
        assert(record_describes(
            f1[i],
            path_change(before, after, f1[i].path@)->0,
            snapshot_entry(before, f1[i].path@),
            snapshot_entry(after, f1[i].path@),
        ));
        assert(record_describes(
            f2[i],
            path_change(before, after, f2[i].path@)->0,
            snapshot_entry(before, f2[i].path@),
            snapshot_entry(after, f2[i].path@),
        ));
    }
    assert(f1.map_values(|r: FileDiffRecord| diff_record_view(r)) =~= f2.map_values(
        |r: FileDiffRecord| diff_record_view(r),
    ));
}


/// An empty text has no lines.
proof fn lemma_no_lines(c: Seq<u8>)
    requires
        c.len() == 0,
    ensures
        lines(c).len() == 0,
{
}

/// No line is shared with nothing.
proof fn lemma_lcs_empty(a: Seq<Seq<u8>>, b: Seq<Seq<u8>>)
    requires
        b.len() == 0,
    ensures
        lcs(a, b) == 0,
{
}

/// Deleting a text file counts as turning it into an empty file: it adds no
/// lines and deletes all of its lines.  Adding a text file counts as filling
/// an empty file: it deletes no lines and adds all of its lines.  So the
/// records of an added and a deleted file carry the counts that the line
/// comparison gives against an empty file.
pub proof fn law_added_and_deleted_files_count_against_nothing(
    content: SnapshotEntry,
    empty: SnapshotEntry,
    added: FileDiffRecord,
    deleted: FileDiffRecord,
)
    requires
        content matches SnapshotEntry::Content(c) && is_text(c@),
        empty matches SnapshotEntry::Content(e) && e@.len() == 0,
        record_describes(added, FileChangeStatus::Added, None, Some(content)),
        record_describes(deleted, FileChangeStatus::Deleted, Some(content), None),
    ensures
        (deleted.lines_added, deleted.lines_deleted) == change_counts(
            FileChangeStatus::Modified,
            Some(content),
            Some(empty),
        ),
        (added.lines_added, added.lines_deleted) == change_counts(
            FileChangeStatus::Modified,
            Some(empty),
            Some(content),
        ),
        deleted.lines_added == Some(0u64),
        added.lines_deleted == Some(0u64),
        deleted.lines_deleted == added.lines_added,
{
    let c = content->Content_0;
    let e = empty->Content_0;
    lemma_no_lines(e@);
    assert(vstd::utf8::valid_utf8(e@));
    assert(!e@.contains(0u8));
    assert(is_text(e@));
    lemma_lcs_empty(lines(c@), lines(e@));
    lemma_lcs_symmetric(lines(e@), lines(c@));
    lemma_lines_from_len(c@, 0, 0);
}

proof fn lemma_lines_from_shift(c: Seq<u8>, k: int, start: int, p: int)
    requires
        0 <= k <= start <= p <= c.len(),
    ensures
        lines_from(c, start, p) == lines_from(c.skip(k), start - k, p - k),
    decreases c.len() - p,
{
    let d = c.skip(k);
    if p >= c.len() {
        if start < c.len() {
            assert(c.subrange(start, c.len() as int) =~= d.subrange(start - k, d.len() as int));
        }
    } else {
        assert(d[p - k] == c[p]);
        if c[p] == 10u8 {
            assert(c.subrange(start, p) =~= d.subrange(start - k, p - k));
            lemma_lines_from_shift(c, k, p + 1, p + 1);
        } else {
            lemma_lines_from_shift(c, k, start, p + 1);
        }
    }
}

proof fn lemma_lines_from_skip_plain(c: Seq<u8>, start: int, p: int, q: int)
    requires
        0 <= start <= p <= q <= c.len(),
        forall|i: int| p <= i < q ==> c[i] != 10u8,
    ensures
        lines_from(c, start, p) == lines_from(c, start, q),
    decreases q - p,
{
    if p < q {
        lemma_lines_from_skip_plain(c, start, p + 1, q);
    }
}

/// A text whose first line is `x` followed by a line feed has the line `x`,
/// less a final carriage return, and then the lines of the rest.
proof fn lemma_lines_split(x: Seq<u8>, y: Seq<u8>)
    requires
        !x.contains(10u8),
    ensures
        lines(x + seq![10u8] + y) == seq![strip_cr(x)] + lines(y),
{
    let c = x + seq![10u8] + y;
    let n = x.len() as int;
    assert forall|i: int| 0 <= i < n implies c[i] != 10u8 by {
        assert(c[i] == x[i]);
    }
    lemma_lines_from_skip_plain(c, 0, 0, n);
    assert(c[n] == 10u8);
    assert(c.subrange(0, n) =~= x);
    lemma_lines_from_shift(c, n + 1, n + 1, n + 1);
    assert(c.skip(n + 1) =~= y);
}

/// A non-empty text without a line feed is one line.
proof fn lemma_single_line(x: Seq<u8>)
    requires
        x.len() > 0,
        !x.contains(10u8),
    ensures
        lines(x) == seq![strip_cr(x)],
{
    assert forall|i: int| 0 <= i < x.len() implies x[i] != 10u8 by {
        if x[i] == 10u8 {
            assert(x.contains(10u8));
        }
    }
    lemma_lines_from_skip_plain(x, 0, 0, x.len() as int);
    assert(x.subrange(0, x.len() as int) =~= x);
}

/// The first line feed at or after `p`, or the length when there is none.
proof fn first_line_feed(c: Seq<u8>, p: int) -> (i: int)
    requires
        0 <= p <= c.len(),
    ensures
        p <= i <= c.len(),
        i < c.len() ==> c[i] == 10u8,
        forall|j: int| p <= j < i ==> c[j] != 10u8,
    decreases c.len() - p,
{
    if p == c.len() || c[p] == 10u8 {
        p
    } else {
        first_line_feed(c, p + 1)
    }
}

proof fn lemma_final_line_feed(c: Seq<u8>)
    requires
        c.len() > 0,
        c.last() != 10u8,
    ensures
        lines(c.push(10u8)) == lines(c),
    decreases c.len(),
{
    let i = first_line_feed(c, 0);
    let x = c.take(i);
    assert(!x.contains(10u8)) by {
        if x.contains(10u8) {
            let j = choose|j: int| 0 <= j < x.len() && x[j] == 10u8;
            assert(c[j] == 10u8);
        }
    }
    if i == c.len() {
        assert(x =~= c);
        lemma_single_line(c);
        assert(c.push(10u8) =~= c + seq![10u8] + seq![]);
        lemma_lines_split(c, seq![]);
        assert(seq![strip_cr(c)] + lines(seq![]) =~= seq![strip_cr(c)]);
    } else {
        let y = c.skip(i + 1);
        assert(c =~= x + seq![10u8] + y);
        assert(y.len() > 0);
        assert(y.last() == c.last());
        assert(c.push(10u8) =~= x + seq![10u8] + y.push(10u8));
        lemma_lines_split(x, y);
        lemma_lines_split(x, y.push(10u8));
        lemma_final_line_feed(y);
    }
}

proof fn lemma_crlf_as_lf(x: Seq<u8>, y: Seq<u8>)
    requires
        x.len() == 0 || x.last() != 13u8,
    ensures
        lines(x + seq![13u8, 10u8] + y) == lines(x + seq![10u8] + y),
    decreases x.len(),
{
    let i = first_line_feed(x, 0);
    if i == x.len() {
        let xr = x.push(13u8);
        assert(!x.contains(10u8)) by {
            if x.contains(10u8) {
                let j = choose|j: int| 0 <= j < x.len() && x[j] == 10u8;
            }
        }
        assert(!xr.contains(10u8)) by {
            if xr.contains(10u8) {
                let j = choose|j: int| 0 <= j < xr.len() && xr[j] == 10u8;
                if j < x.len() {
                    assert(x[j] == 10u8);
                }
            }
        }
        assert(x + seq![13u8, 10u8] + y =~= xr + seq![10u8] + y);
        lemma_lines_split(xr, y);
        lemma_lines_split(x, y);
        assert(xr.drop_last() =~= x);
    } else {
        let x1 = x.take(i);
        let x2 = x.skip(i + 1);
        assert(!x1.contains(10u8)) by {
            if x1.contains(10u8) {
                let j = choose|j: int| 0 <= j < x1.len() && x1[j] == 10u8;
                assert(x[j] == 10u8);
            }
        }
        assert(x2.len() > 0 ==> x2.last() == x.last());
        assert(x + seq![13u8, 10u8] + y =~= x1 + seq![10u8] + (x2 + seq![13u8, 10u8] + y));
        assert(x + seq![10u8] + y =~= x1 + seq![10u8] + (x2 + seq![10u8] + y));
        lemma_lines_split(x1, x2 + seq![13u8, 10u8] + y);
        lemma_lines_split(x1, x2 + seq![10u8] + y);
        lemma_crlf_as_lf(x2, y);
    }
}

/// Line endings, as the line comparison sees them: CRLF ends a line as LF
/// does, so texts that differ only in that one line ends in CRLF in one and
/// in LF in the other have the same lines and no line changes; and a final
/// line feed adds no line, so a text and the same text with a line feed
/// after its last line have no line changes.
pub proof fn law_line_endings(x: Seq<u8>, y: Seq<u8>, c: Seq<u8>)
    ensures
        x.len() == 0 || x.last() != 13u8 ==> lines(x + seq![13u8, 10u8] + y) == lines(
            x + seq![10u8] + y,
        ) && line_changes(x + seq![13u8, 10u8] + y, x + seq![10u8] + y) == (0int, 0int),
        c.len() > 0 && c.last() != 10u8 ==> lines(c.push(10u8)) == lines(c) && line_changes(
            c,
            c.push(10u8),
        ) == (0int, 0int),
{
    if x.len() == 0 || x.last() != 13u8 {
        lemma_crlf_as_lf(x, y);
        lemma_lcs_self(lines(x + seq![10u8] + y));
    }
    if c.len() > 0 && c.last() != 10u8 {
        lemma_final_line_feed(c);
        lemma_lcs_self(lines(c));
    }
}

/// Line counts are known only for text: a side that holds a NUL byte is
/// binary, a side that could not be read is unavailable (whatever the other
/// side is), and a change with such a side has neither count, whatever its
/// status.  A side with text on it does not hide a binary or unreadable
/// other side.
pub proof fn law_only_text_has_line_counts(
    e: SnapshotEntry,
    other: Option<SnapshotEntry>,
    status: FileChangeStatus,
)
    ensures
        e matches SnapshotEntry::Content(v) && v@.contains(0u8) ==> entry_status(Some(e))
            == ContentStatus::Binary && combined_status(Some(e), other) != ContentStatus::Text
            && combined_status(other, Some(e)) != ContentStatus::Text,
        e is Unavailable ==> combined_status(Some(e), other) == ContentStatus::Unavailable
            && combined_status(other, Some(e)) == ContentStatus::Unavailable,
        entry_status(Some(e)) != ContentStatus::Text ==> change_counts(status, Some(e), other) == (
            None::<u64>,
            None::<u64>,
        ) && change_counts(status, other, Some(e)) == (None::<u64>, None::<u64>),
{
}

/// Totals: a total is known only when every count is known, so one unknown
/// count makes it unknown; and the total of two lists of counts is the sum
/// of their totals when both are known.
pub proof fn law_totals_need_every_count(a: Seq<Option<u64>>, b: Seq<Option<u64>>, i: int)
    ensures
        0 <= i < a.len() && a[i] is None ==> sum_known(a) is None && total_spec(a) is None,
        sum_known(a + b) == match (sum_known(a), sum_known(b)) {
            (Some(x), Some(y)) => Some(x + y),
            _ => None::<int>,
        },
    decreases b.len(),
{
    if 0 <= i < a.len() && a[i] is None {
        lemma_unknown_count_spoils(a, i);
    }
    if b.len() == 0 {
        assert(a + b =~= a);
    } else {
        assert((a + b).drop_last() =~= a + b.drop_last());
        assert((a + b).last() == b.last());
        law_totals_need_every_count(a, b.drop_last(), -1);
    }
}

proof fn lemma_unknown_count_spoils(a: Seq<Option<u64>>, i: int)
    requires
        0 <= i < a.len(),
        a[i] is None,
    ensures
        sum_known(a) is None,
    decreases a.len(),
{
    if i < a.len() - 1 {
        assert(a.drop_last()[i] == a[i]);
        lemma_unknown_count_spoils(a.drop_last(), i);
    }
}

} // verus!
