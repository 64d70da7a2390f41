//! Git's machine-readable status output, and how a Git result combines with
//! the snapshot comparison.

use vstd::prelude::*;
use crate::analysis::PathStyle;
use crate::diff::{
    deref_entry, diff_snapshots, file_diff, finalize_state, is_text, lines, record_describes,
    records_describe_changes,
    DiffSource, DiffState, FileDiffRecord, FileSnapshot, SnapshotEntry, SnapshotFile,
};
use crate::order::sort_by_key_spec;
use crate::text::{decode_utf8_lossy, owned, push_str, utf8_lossy};
use crate::watcher::FileChangeStatus;

verus! {

#[derive(Debug, Clone, PartialEq, Eq)]
pub enum GitError {
    NotRepository,
    CommandUnavailable(String),
    CommandFailed(String),
    InvalidOutput(String),
}

impl GitError {
    /// The sentence that describes the error to the user.
    pub fn message(&self) -> (m: String)
        ensures
            m@ == match self {
                GitError::NotRepository => "The selected folder is not a Git repository"@,
                GitError::CommandUnavailable(e) => "Git is unavailable: "@ + e@,
                GitError::CommandFailed(e) => "Git could not read the current changes: "@ + e@,
                GitError::InvalidOutput(e) => "Git returned unreadable change data: "@ + e@,
            },
    {
        match self {
            GitError::NotRepository => owned("The selected folder is not a Git repository"),
            GitError::CommandUnavailable(e) => {
                let mut m = owned("Git is unavailable: ");
                push_str(&mut m, e.as_str());
                m
            },
            GitError::CommandFailed(e) => {
                let mut m = owned("Git could not read the current changes: ");
                push_str(&mut m, e.as_str());
                m
            },
            GitError::InvalidOutput(e) => {
                let mut m = owned("Git returned unreadable change data: ");
                push_str(&mut m, e.as_str());
                m
            },
        }
    }
}

/// The non-empty NUL-delimited segments of `c[start..]`, scanning from `p`.
pub open spec fn nul_segments_from(c: Seq<u8>, start: int, p: int) -> Seq<Seq<u8>>
    decreases c.len() - p,
{
    if p >= c.len() {
        if start < c.len() {
            seq![c.subrange(start, c.len() as int)]
        } else {
            seq![]
        }
    } else if c[p] == 0u8 {
        if start < p {
            seq![c.subrange(start, p)] + nul_segments_from(c, p + 1, p + 1)
        } else {
            nul_segments_from(c, p + 1, p + 1)
        }
    } else {
        nul_segments_from(c, start, p + 1)
    }
}

/// Why status output is malformed.
#[derive(Debug, Clone, Copy, PartialEq, Eq, Structural)]
pub enum StatusFormatError {
    RecordTooShort,
    RenameWithoutOriginal,
}

/// One status record in bytes: its path, its destination when it is a rename
/// or copy, and its two status letters.
pub type RawStatusRecord = (Seq<u8>, Option<Seq<u8>>, u8, u8);

/// Status records read from NUL-delimited segments.  A record is two status
/// letters, a separator and a path; a rename or copy (`R`, `C`) names its
/// destination there and its original path in the next segment.
pub open spec fn parse_status_segments(segs: Seq<Seq<u8>>) -> Result<
    Seq<RawStatusRecord>,
    StatusFormatError,
>
    decreases segs.len(),
{
    if segs.len() == 0 {
        Ok(seq![])
    } else {
        let seg = segs[0];
        if seg.len() < 4 {
            Err(StatusFormatError::RecordTooShort)
        } else {
            let path = seg.subrange(3, seg.len() as int);
            if seg[0] == 82u8 || seg[0] == 67u8 {
                if segs.len() < 2 {
                    Err(StatusFormatError::RenameWithoutOriginal)
                } else {
                    match parse_status_segments(segs.subrange(2, segs.len() as int)) {
                        Ok(rest) => Ok(seq![(segs[1], Some(path), seg[0], seg[1])] + rest),
                        Err(e) => Err(e),
                    }
                }
            } else {
                match parse_status_segments(segs.drop_first()) {
                    Ok(rest) => Ok(seq![(path, None::<Seq<u8>>, seg[0], seg[1])] + rest),
                    Err(e) => Err(e),
                }
            }
        }
    }
}

pub open spec fn status_format_message(e: StatusFormatError) -> Seq<char> {
    match e {
        StatusFormatError::RecordTooShort => "status record is too short"@,
        StatusFormatError::RenameWithoutOriginal => "rename record has no original path"@,
    }
}

/// A parsed record describes a raw one: paths decoded as lossy UTF-8.
pub open spec fn record_decodes(rec: (String, Option<String>, [u8; 2]), raw: RawStatusRecord) -> bool {
    &&& rec.0@ == utf8_lossy(raw.0)
    &&& rec.1 is Some == raw.1 is Some
    &&& rec.1 is Some ==> rec.1->0@ == utf8_lossy(raw.1->0)
    &&& rec.2@ == seq![raw.2, raw.3]
}

fn nul_segments(output: &[u8]) -> (r: Vec<Vec<u8>>)
    ensures
        r@.map_values(|s: Vec<u8>| s@) == nul_segments_from(output@, 0, 0),
{
    let mut out: Vec<Vec<u8>> = Vec::new();
    let mut start: usize = 0;
    let mut p: usize = 0;
    while p < output.len()
        invariant
            start <= p <= output@.len(),
            out@.map_values(|s: Vec<u8>| s@) + nul_segments_from(output@, start as int, p as int)
                == nul_segments_from(output@, 0, 0),
        decreases output@.len() - p,
    {
        if output[p] == 0 {
            if start < p {
                let seg = copy_bytes(output, start, p);
                let ghost before = out@;
                out.push(seg);
                assert(out@.map_values(|s: Vec<u8>| s@) =~= before.map_values(|s: Vec<u8>| s@).push(
                    seg@,
                ));
                assert(out@.map_values(|s: Vec<u8>| s@) + nul_segments_from(
                    output@,
                    p + 1,
                    p + 1,
                ) =~= before.map_values(|s: Vec<u8>| s@) + nul_segments_from(
                    output@,
                    start as int,
                    p as int,
                ));
            }
            p += 1;
            start = p;
        } else {
            p += 1;
        }
    }
    if start < output.len() {
        let seg = copy_bytes(output, start, output.len());
        let ghost before = out@;
        out.push(seg);
        assert(out@.map_values(|s: Vec<u8>| s@) =~= before.map_values(|s: Vec<u8>| s@) + nul_segments_from(
            output@,
            start as int,
            p as int,
        ));
    } else {
        assert(out@.map_values(|s: Vec<u8>| s@) =~= out@.map_values(|s: Vec<u8>| s@)
            + nul_segments_from(output@, start as int, p as int));
    }
    out
}

fn copy_bytes(c: &[u8], start: usize, end: usize) -> (r: Vec<u8>)
    requires
        start <= end <= c@.len(),
    ensures
        r@ == c@.subrange(start as int, end as int),
{
    let mut r: Vec<u8> = Vec::new();
    let mut i = start;
    while i < end
        invariant
            start <= i <= end,
            end <= c@.len(),
            r@ == c@.subrange(start as int, i as int),
        decreases end - i,
    {
        r.push(c[i]);
        i += 1;
        assert(r@ =~= c@.subrange(start as int, i as int));
    }
    r
}

/// Reads `git status --porcelain=v1 -z` output into (path, destination,
/// status letters) records.
pub fn parse_status_paths(output: &[u8]) -> (r: Result<Vec<(String, Option<String>, [u8; 2])>, GitError>)
    ensures
        parse_status_segments(nul_segments_from(output@, 0, 0)) is Ok <==> r is Ok,
        r matches Ok(v) ==> v@.len() == parse_status_segments(nul_segments_from(output@, 0, 0))->Ok_0.len()
            && forall|i: int|
            0 <= i < v@.len() ==> record_decodes(
                #[trigger] v@[i],
                parse_status_segments(nul_segments_from(output@, 0, 0))->Ok_0[i],
            ),
        r matches Err(e) ==> e matches GitError::InvalidOutput(m) && m@ == status_format_message(
            parse_status_segments(nul_segments_from(output@, 0, 0))->Err_0,
        ),
{
    let segments = nul_segments(output);
    let ghost segs = nul_segments_from(output@, 0, 0);
    let mut records: Vec<(String, Option<String>, [u8; 2])> = Vec::new();
    let mut i: usize = 0;
    assert(segs.subrange(0, segs.len() as int) =~= segs);
    while i < segments.len()
        invariant
            i <= segments@.len(),
            segs == nul_segments_from(output@, 0, 0),
            segments@.map_values(|s: Vec<u8>| s@) == segs,
            parse_status_segments(segs) is Ok <==> parse_status_segments(
                segs.subrange(i as int, segs.len() as int),
            ) is Ok,
            parse_status_segments(segs) is Err ==> parse_status_segments(segs)->Err_0
                == parse_status_segments(segs.subrange(i as int, segs.len() as int))->Err_0,
            parse_status_segments(segs.subrange(i as int, segs.len() as int)) is Ok ==> {
                let whole = parse_status_segments(segs)->Ok_0;
                let rest = parse_status_segments(segs.subrange(i as int, segs.len() as int))->Ok_0;
                &&& whole.len() == records@.len() + rest.len()
                &&& forall|j: int| 0 <= j < records@.len() ==> record_decodes(#[trigger] records@[j], whole[j])
                &&& forall|j: int| 0 <= j < rest.len() ==> whole[records@.len() + j] == #[trigger] rest[j]
            },
        decreases segments@.len() - i,
    {
        let ghost tail = segs.subrange(i as int, segs.len() as int);
        let segment = &segments[i];
        assert(tail[0] == segment@);
        if segment.len() < 4 {
            assert(parse_status_segments(tail) == Err::<Seq<RawStatusRecord>, StatusFormatError>(
                StatusFormatError::RecordTooShort,
            ));
            assert(parse_status_segments(segs) is Err);
            assert(parse_status_segments(segs)->Err_0 == StatusFormatError::RecordTooShort);
            return Err(GitError::InvalidOutput(owned("status record is too short")));
        }
        let code: [u8; 2] = [segment[0], segment[1]];
        let path = decode_utf8_lossy(copy_bytes(segment.as_slice(), 3, segment.len()).as_slice());
        if segment[0] == 82 || segment[0] == 67 {
            if i + 1 >= segments.len() {
                assert(parse_status_segments(tail) == Err::<Seq<RawStatusRecord>, StatusFormatError>(
                    StatusFormatError::RenameWithoutOriginal,
                ));
                return Err(GitError::InvalidOutput(owned("rename record has no original path")));
            }
            let old_path = decode_utf8_lossy(segments[i + 1].as_slice());
            proof {
                assert(tail.subrange(2, tail.len() as int) =~= segs.subrange(
                    i + 2,
                    segs.len() as int,
                ));
                assert(tail[1] == segments@[i + 1]@);
            }
            let ghost n = records@.len();
            let ghost raw: RawStatusRecord = (segs[i + 1], Some(tail[0].subrange(3, tail[0].len() as int)), tail[0][0], tail[0][1]);
            let ghost next = segs.subrange(i + 2, segs.len() as int);
            proof {
                assert(code@ =~= seq![raw.2, raw.3]);
                if parse_status_segments(next) is Ok {
                    assert(parse_status_segments(tail)->Ok_0 =~= seq![raw] + parse_status_segments(next)->Ok_0);
                    assert(parse_status_segments(tail)->Ok_0[0] == raw);
                    assert(parse_status_segments(segs)->Ok_0[n as int + 0] == parse_status_segments(tail)->Ok_0[0]);
                }
            }
            records.push((old_path, Some(path), code));
            i += 2;
            proof {
                if parse_status_segments(next) is Ok {
                    let whole = parse_status_segments(segs)->Ok_0;
                    let rest = parse_status_segments(next)->Ok_0;
                    assert forall|j: int| 0 <= j < rest.len() implies whole[records@.len() + j] == #[trigger] rest[j] by {
                        assert(parse_status_segments(tail)->Ok_0[j + 1] == rest[j]);
                    }
                    assert(record_decodes(records@[n as int], whole[n as int]));
                }
            }
        } else {
            proof {
                assert(tail.drop_first() =~= segs.subrange(i + 1, segs.len() as int));
            }
            let ghost n = records@.len();
            let ghost raw: RawStatusRecord = (tail[0].subrange(3, tail[0].len() as int), None, tail[0][0], tail[0][1]);
            let ghost next = segs.subrange(i + 1, segs.len() as int);
            proof {
                assert(code@ =~= seq![raw.2, raw.3]);
                if parse_status_segments(next) is Ok {
                    assert(parse_status_segments(tail)->Ok_0 =~= seq![raw] + parse_status_segments(next)->Ok_0);
                    assert(parse_status_segments(tail)->Ok_0[0] == raw);
                    assert(parse_status_segments(segs)->Ok_0[n as int + 0] == parse_status_segments(tail)->Ok_0[0]);
                }
            }
            records.push((path, None, code));
            i += 1;
            proof {
                if parse_status_segments(next) is Ok {
                    let whole = parse_status_segments(segs)->Ok_0;
                    let rest = parse_status_segments(next)->Ok_0;
                    assert forall|j: int| 0 <= j < rest.len() implies whole[records@.len() + j] == #[trigger] rest[j] by {
                        assert(parse_status_segments(tail)->Ok_0[j + 1] == rest[j]);
                    }
                    assert(record_decodes(records@[n as int], whole[n as int]));
                }
            }
        }
    }
    proof {
        assert(segs.subrange(i as int, segs.len() as int) =~= Seq::<Seq<u8>>::empty());
    }
    Ok(records)
}

/// The status that a tracked-path record's letters give: a deletion on
/// either side wins, then an addition, else a modification.
pub fn status_for_code(code: [u8; 2]) -> (s: FileChangeStatus)
    ensures
        s == if code@[0] == 68u8 || code@[1] == 68u8 {
            FileChangeStatus::Deleted
        } else if code@[0] == 65u8 || code@[1] == 65u8 {
            FileChangeStatus::Added
        } else {
            FileChangeStatus::Modified
        },
{
    if code[0] == 68 || code[1] == 68 {
        FileChangeStatus::Deleted
    } else if code[0] == 65 || code[1] == 65 {
        FileChangeStatus::Added
    } else {
        FileChangeStatus::Modified
    }
}

/// Combines the watch-start snapshot comparison with Git's answer.  When Git
/// describes the repository, Git becomes the source marker but the snapshot
/// records stay authoritative; when it fails, the snapshot state keeps its
/// fallback and carries Git's error.
fn combine_with_git(snapshot_state: DiffState, git: Result<DiffState, GitError>) -> (r: DiffState)
    ensures
        match git {
            Ok(g) => {
                &&& r.project_path == g.project_path
                &&& r.source == DiffSource::Git
                &&& !r.fallback
                &&& r.files@ == crate::order::sort_by_key_spec(snapshot_state.files@)
                &&& r.total_lines_added == crate::diff::total_spec(crate::diff::added_counts(r.files@))
                &&& r.total_lines_deleted == crate::diff::total_spec(
                    crate::diff::deleted_counts(r.files@),
                )
                &&& r.unknown_line_count_files == crate::diff::unknown_count(r.files@)
                &&& r.error is None
            },
            Err(e) => {
                &&& r.project_path == snapshot_state.project_path
                &&& r.source == snapshot_state.source
                &&& r.fallback == snapshot_state.fallback
                &&& r.files == snapshot_state.files
                &&& r.total_lines_added == snapshot_state.total_lines_added
                &&& r.total_lines_deleted == snapshot_state.total_lines_deleted
                &&& r.unknown_line_count_files == snapshot_state.unknown_line_count_files
                &&& r.error is Some
                &&& r.error->0@ == e.message_spec() + "; using snapshot comparison"@
            },
        },
{
    match git {
        Ok(git_state) => finalize_state(
            git_state.project_path,
            DiffSource::Git,
            false,
            snapshot_state.files,
            None,
        ),
        Err(error) => {
            let mut message = error.message();
            push_str(&mut message, "; using snapshot comparison");
            DiffState { error: Some(message), ..snapshot_state }
        },
    }
}

impl GitError {
    pub open spec fn message_spec(&self) -> Seq<char> {
        match self {
            GitError::NotRepository => "The selected folder is not a Git repository"@,
            GitError::CommandUnavailable(e) => "Git is unavailable: "@ + e@,
            GitError::CommandFailed(e) => "Git could not read the current changes: "@ + e@,
            GitError::InvalidOutput(e) => "Git returned unreadable change data: "@ + e@,
        }
    }
}

// ---------------------------------------------------------------- Git changes

/// A path of a status record as the selected working tree resolves it.
pub struct ResolvedPath {
    /// The path relative to the selected root; `None` when it lies outside
    /// the root or in metadata.
    pub relative: Option<String>,
    /// Its content at `HEAD`, when Git has the path there.
    pub head: Option<SnapshotEntry>,
    /// Its content in the working tree, when the path exists there.
    pub worktree: Option<SnapshotEntry>,
}

/// A status record with its paths resolved.
pub struct GitStatusItem {
    pub code: [u8; 2],
    pub path: ResolvedPath,
    pub destination: Option<ResolvedPath>,
}

/// A change that Git reports: path, status and the two sides.
pub type GitChange = (Seq<char>, FileChangeStatus, Option<SnapshotEntry>, Option<SnapshotEntry>);

pub open spec fn tracked_status(code: [u8; 2]) -> FileChangeStatus {
    if code@[0] == 68u8 || code@[1] == 68u8 {
        FileChangeStatus::Deleted
    } else if code@[0] == 65u8 || code@[1] == 65u8 {
        FileChangeStatus::Added
    } else {
        FileChangeStatus::Modified
    }
}

/// The changes of one status record: none for an ignored path (`!!`); an
/// addition for an untracked one (`??`); a deletion of the original and an
/// addition of the destination for a rename or copy; otherwise the change
/// that the status letters give, between `HEAD` and the working tree.
/// Paths outside the selected root give nothing.
pub open spec fn item_changes(item: GitStatusItem) -> Seq<GitChange> {
    if item.code@[0] == 33u8 && item.code@[1] == 33u8 {
        seq![]
    } else if item.code@[0] == 63u8 && item.code@[1] == 63u8 {
        match item.path.relative {
            Some(r) => seq![(r@, FileChangeStatus::Added, None, item.path.worktree)],
            None => seq![],
        }
    } else {
        match item.destination {
            Some(d) => deletion_part(item) + (match d.relative {
                Some(r) => seq![(r@, FileChangeStatus::Added, None, d.worktree)],
                None => seq![],
            }),
            None => match item.path.relative {
                Some(r) => seq![
                    (r@, tracked_status(item.code), item.path.head, item.path.worktree),
                ],
                None => seq![],
            },
        }
    }
}

/// The deletion of the original path of a rename or copy.
pub open spec fn deletion_part(item: GitStatusItem) -> Seq<GitChange> {
    match item.path.relative {
        Some(r) => seq![(r@, FileChangeStatus::Deleted, item.path.head, None)],
        None => seq![],
    }
}

pub open spec fn all_changes(items: Seq<GitStatusItem>) -> Seq<GitChange>
    decreases items.len(),
{
    if items.len() == 0 {
        seq![]
    } else {
        all_changes(items.drop_last()) + item_changes(items.last())
    }
}

/// Each record describes the change at its position.
pub open spec fn records_match_changes(files: Seq<FileDiffRecord>, changes: Seq<GitChange>) -> bool {
    &&& files.len() == changes.len()
    &&& forall|i: int|
        0 <= i < files.len() ==> (#[trigger] files[i]).path@ == changes[i].0 && record_describes(
            files[i],
            changes[i].1,
            changes[i].2,
            changes[i].3,
        )
}

fn push_change(
    files: &mut Vec<FileDiffRecord>,
    path: &String,
    status: FileChangeStatus,
    before: Option<&SnapshotEntry>,
    after: Option<&SnapshotEntry>,
) -> (ghost_out: Ghost<GitChange>)
    ensures
        ghost_out@ == (path@, status, deref_entry(before), deref_entry(after)),
        final(files)@.len() == old(files)@.len() + 1,
        forall|i: int| 0 <= i < old(files)@.len() ==> final(files)@[i] == old(files)@[i],
        final(files)@.last().path@ == path@,
        record_describes(final(files)@.last(), status, deref_entry(before), deref_entry(after)),
{
    let rec = file_diff(path.clone(), status, before, after);
    files.push(rec);
    Ghost((path@, status, deref_entry(before), deref_entry(after)))
}

/// The changes that Git reports against `HEAD`, for the selected root.
pub fn git_diff(selected_root: String, items: Vec<GitStatusItem>) -> (r: DiffState)
    ensures
        r.project_path == Some(selected_root),
        r.source == DiffSource::Git,
        !r.fallback,
        r.error is None,
        exists|files: Seq<FileDiffRecord>|
            records_match_changes(files, all_changes(items@)) && r.files@ == sort_by_key_spec(
                files,
            ),
        r.total_lines_added == crate::diff::total_spec(crate::diff::added_counts(r.files@)),
        r.total_lines_deleted == crate::diff::total_spec(crate::diff::deleted_counts(r.files@)),
        r.unknown_line_count_files == crate::diff::unknown_count(r.files@),
{
    let mut files: Vec<FileDiffRecord> = Vec::new();
    let mut i: usize = 0;
    while i < items.len()
        invariant
            i <= items@.len(),
            records_match_changes(files@, all_changes(items@.take(i as int))),
        decreases items@.len() - i,
    {
        let item = &items[i];
        let ghost before_files = files@;
        let ghost prior = all_changes(items@.take(i as int));
        proof {
            assert(items@.take(i + 1).drop_last() =~= items@.take(i as int));
            assert(items@.take(i + 1).last() == *item);
        }
        let ignored = item.code[0] == 33 && item.code[1] == 33;
        let untracked = item.code[0] == 63 && item.code[1] == 63;
        if ignored {
            assert(all_changes(items@.take(i + 1)) =~= prior);
        } else if untracked {
            match &item.path.relative {
                Some(rel) => {
                    let g = push_change(
                        &mut files,
                        rel,
                        FileChangeStatus::Added,
                        None,
                        item.path.worktree.as_ref(),
                    );
                    proof {
                        let next = all_changes(items@.take(i + 1));
                        assert(next =~= prior.push(g@));
                        assert forall|j: int| 0 <= j < files@.len() implies (
                        #[trigger] files@[j]).path@ == next[j].0 && record_describes(
                            files@[j],
                            next[j].1,
                            next[j].2,
                            next[j].3,
                        ) by {
                            if j < before_files.len() {
                                assert(files@[j] == before_files[j]);
                            }
                        }
                    }
                },
                None => {
                    assert(all_changes(items@.take(i + 1)) =~= prior);
                },
            }
        } else {
            match &item.destination {
                Some(dest) => {
                    let ghost mid_changes = prior + deletion_part(*item);
                    match &item.path.relative {
                        Some(rel) => {
                            let ghost bf = files@;
                            let g = push_change(
                                &mut files,
                                rel,
                                FileChangeStatus::Deleted,
                                item.path.head.as_ref(),
                                None,
                            );
                            proof {
                                assert forall|j: int| 0 <= j < files@.len() implies (
                                #[trigger] files@[j]).path@ == mid_changes[j].0 && record_describes(
                                    files@[j],
                                    mid_changes[j].1,
                                    mid_changes[j].2,
                                    mid_changes[j].3,
                                ) by {
                                    if j < bf.len() {
                                        assert(files@[j] == bf[j]);
                                    }
                                }
                            }
                        },
                        None => {},
                    }
                    let ghost mid_files = files@;
                    match &dest.relative {
                        Some(rel) => {
                            let g = push_change(
                                &mut files,
                                rel,
                                FileChangeStatus::Added,
                                None,
                                dest.worktree.as_ref(),
                            );
                            proof {
                                let next = all_changes(items@.take(i + 1));
                                assert(next =~= mid_changes.push(g@));
                                assert forall|j: int| 0 <= j < files@.len() implies (
                                #[trigger] files@[j]).path@ == next[j].0 && record_describes(
                                    files@[j],
                                    next[j].1,
                                    next[j].2,
                                    next[j].3,
                                ) by {
                                    if j < mid_files.len() {
                                        assert(files@[j] == mid_files[j]);
                                    }
                                }
                            }
                        },
                        None => {
                            assert(all_changes(items@.take(i + 1)) =~= mid_changes);
                        },
                    }
                },
                None => {
                    match &item.path.relative {
                        Some(rel) => {
                            let status = status_for_code(item.code);
                            let g = push_change(
                                &mut files,
                                rel,
                                status,
                                item.path.head.as_ref(),
                                item.path.worktree.as_ref(),
                            );
                            proof {
                                let next = all_changes(items@.take(i + 1));
                                assert(next =~= prior.push(g@));
                                assert forall|j: int| 0 <= j < files@.len() implies (
                                #[trigger] files@[j]).path@ == next[j].0 && record_describes(
                                    files@[j],
                                    next[j].1,
                                    next[j].2,
                                    next[j].3,
                                ) by {
                                    if j < before_files.len() {
                                        assert(files@[j] == before_files[j]);
                                    }
                                }
                            }
                        },
                        None => {
                            assert(all_changes(items@.take(i + 1)) =~= prior);
                        },
                    }
                },
            }
        }
        i += 1;
    }
    assert(items@.take(items@.len() as int) =~= items@);
    let ghost unsorted = files@;
    let r = finalize_state(Some(selected_root), DiffSource::Git, false, files, None);
    assert(records_match_changes(unsorted, all_changes(items@)));
    r
}

// ---------------------------------------------------------------- baseline

/// What reading the project folder again gave.
pub enum BaselineReading {
    /// The folder could not be opened.
    NoRoot,
    /// The folder opened, at its canonical path, but its current snapshot
    /// could not be read.
    Unreadable(String),
    /// The folder's canonical path, its current snapshot, and Git's answer
    /// for it.
    Read(String, FileSnapshot, Result<DiffState, GitError>),
}

pub open spec fn unreadable_message() -> Seq<char> {
    "The current project snapshot could not be read"@
}

/// The diff of the current change against the watch-start baseline.  Git is
/// preferred as the source when it can describe the repository, but the
/// comparison with the baseline decides the records, their counts and which
/// paths appear, also for files that Git ignores or has not seen.  Without
/// Git the state stays a snapshot fallback that carries Git's error.
pub fn state_for_baseline(baseline: &FileSnapshot, reading: BaselineReading) -> (r: DiffState)
    requires
        baseline.wf(),
        reading matches BaselineReading::Read(_, current, _) ==> current.wf(),
    ensures
        r.total_lines_added == crate::diff::total_spec(crate::diff::added_counts(r.files@)),
        r.total_lines_deleted == crate::diff::total_spec(crate::diff::deleted_counts(r.files@)),
        r.unknown_line_count_files == crate::diff::unknown_count(r.files@),
        match reading {
            BaselineReading::NoRoot => {
                &&& r.project_path is None
                &&& r.source == DiffSource::Snapshot
                &&& r.fallback
                &&& r.error is None
                &&& records_describe_changes(r.files@, baseline.files@, seq![])
            },
            BaselineReading::Unreadable(root) => {
                &&& r.project_path == Some(root)
                &&& r.source == DiffSource::Snapshot
                &&& r.fallback
                &&& r.files@.len() == 0
                &&& (r.error matches Some(e) && e@ == unreadable_message())
            },
            BaselineReading::Read(root, current, Ok(g)) => {
                &&& r.project_path == g.project_path
                &&& r.source == DiffSource::Git
                &&& !r.fallback
                &&& r.error is None
                &&& records_describe_changes(r.files@, baseline.files@, current.files@)
            },
            BaselineReading::Read(root, current, Err(e)) => {
                &&& r.project_path matches Some(p) && p@ == root@
                &&& r.source == DiffSource::Snapshot
                &&& r.fallback
                &&& records_describe_changes(r.files@, baseline.files@, current.files@)
                &&& (r.error matches Some(x) && x@ == e.message_spec()
                    + "; using snapshot comparison"@)
            },
        },
{
    match reading {
        BaselineReading::NoRoot => {
            let empty = FileSnapshot::new();
            assert(empty.files@ =~= Seq::<SnapshotFile>::empty());
            diff_snapshots(None, baseline, &empty)
        },
        BaselineReading::Unreadable(root) => {
            let r = finalize_state(
                Some(root),
                DiffSource::Snapshot,
                true,
                Vec::new(),
                Some(owned("The current project snapshot could not be read")),
            );
            proof {
                crate::order::lemma_sort_len(Seq::<FileDiffRecord>::empty());
            }
            r
        },
        BaselineReading::Read(root, current, git) => {
            let snapshot_state = diff_snapshots(Some(root.clone()), baseline, &current);
            proof {
                crate::order::lemma_strictly_sorted_is_sorted(snapshot_state.files@);
                crate::order::lemma_sort_of_sorted(snapshot_state.files@);
            }
            combine_with_git(snapshot_state, git)
        },
    }
}

/// A path that Git names, resolved against the repository, as a path
/// relative to the selected root: `None` when it lies outside the root, is
/// the root itself, climbs out with `..`, or names metadata.
pub fn git_relative_path(style: PathStyle, selected_root: &str, candidate: &str) -> (r: Option<String>)
    ensures
        match crate::watcher::relative_to(style, selected_root@, candidate@) {
            Ok(rel) => if crate::watcher::metadata_path(style, rel) {
                r is None
            } else {
                r matches Some(x) && x@ == rel
            },
            Err(_) => r is None,
        },
{
    match crate::watcher::normalize_relative_path(style, selected_root, candidate) {
        Ok(rel) => if crate::watcher::is_metadata_path(style, rel.as_str()) {
            None
        } else {
            Some(rel)
        },
        Err(_) => None,
    }
}


/// A tracked path that Git reports with status letters `XY` (no rename, no
/// untracked or ignored mark) is one change of that path between `HEAD` and
/// the working tree: a `D` on either side deletes it; otherwise an `A` on
/// either side adds it, as for a new file staged with `git add`; any other
/// letters modify it.  Such an item adds exactly that change to what the
/// items before it give, and the record of a staged new text file counts
/// all its lines as added and none as deleted.
pub proof fn law_tracked_items_follow_their_status_letters(
    items: Seq<GitStatusItem>,
    item: GitStatusItem,
    files: Seq<FileDiffRecord>,
)
    requires
        !(item.code@[0] == 33u8 && item.code@[1] == 33u8),
        !(item.code@[0] == 63u8 && item.code@[1] == 63u8),
        item.destination is None,
        item.path.relative is Some,
        records_match_changes(files, all_changes(items.push(item))),
    ensures
        ({
            let status = if item.code@[0] == 'D' as u8 || item.code@[1] == 'D' as u8 {
                FileChangeStatus::Deleted
            } else if item.code@[0] == 'A' as u8 || item.code@[1] == 'A' as u8 {
                FileChangeStatus::Added
            } else {
                FileChangeStatus::Modified
            };
            &&& all_changes(items.push(item)) == all_changes(items) + seq![
                (item.path.relative->0@, status, item.path.head, item.path.worktree),
            ]
            &&& files.last().path@ == item.path.relative->0@
            &&& files.last().status == status
        }),
        (item.code@[0] == 'A' as u8 || item.code@[1] == 'A' as u8) && item.code@[0] != 'D' as u8
            && item.code@[1] != 'D' as u8 && item.path.head is None && (item.path.worktree matches Some(
            SnapshotEntry::Content(c),
        ) && is_text(c@)) ==> files.last().status == FileChangeStatus::Added
            && files.last().lines_deleted == Some(0u64) && files.last().lines_added == Some(
            lines(item.path.worktree->0->Content_0@).len() as u64,
        ),
{
    let all = items.push(item);
    assert(all.drop_last() =~= items);
    assert(all.last() == item);
    let n = files.len() - 1;
    assert(all_changes(all).len() == all_changes(items).len() + 1);
    assert(files[n].path@ == all_changes(all)[n].0);
}

/// The other status records: an ignored path (`!!`) adds no change; an
/// untracked path (`??`) inside the selected root adds one addition, from
/// nothing to its working-tree content, whatever Git has at `HEAD`; a rename
/// or copy whose two paths lie inside the root adds the deletion of the
/// original path, with its `HEAD` content, and then the addition of the
/// destination, with its working-tree content.
pub proof fn law_ignored_untracked_and_renamed_items(items: Seq<GitStatusItem>, item: GitStatusItem)
    ensures
        item.code@[0] == '!' as u8 && item.code@[1] == '!' as u8 ==> all_changes(items.push(item))
            == all_changes(items),
        item.code@[0] == '?' as u8 && item.code@[1] == '?' as u8 && item.path.relative is Some
            ==> all_changes(items.push(item)) == all_changes(items) + seq![
            (item.path.relative->0@, FileChangeStatus::Added, None, item.path.worktree),
        ],
        !(item.code@[0] == '!' as u8 && item.code@[1] == '!' as u8) && !(item.code@[0] == '?' as u8
            && item.code@[1] == '?' as u8) && item.path.relative is Some
            && item.destination is Some && item.destination->0.relative is Some ==> all_changes(
            items.push(item),
        ) == all_changes(items) + seq![
            (item.path.relative->0@, FileChangeStatus::Deleted, item.path.head, None),
            (
                item.destination->0.relative->0@,
                FileChangeStatus::Added,
                None,
                item.destination->0.worktree,
            ),
        ],
{
    let all = items.push(item);
    assert(all.drop_last() =~= items);
    assert(all.last() == item);
    assert(all_changes(items) + seq![] =~= all_changes(items));
    if !(item.code@[0] == 33u8 && item.code@[1] == 33u8) && !(item.code@[0] == 63u8
        && item.code@[1] == 63u8) && item.path.relative is Some && item.destination is Some
        && item.destination->0.relative is Some {
        let r = item.path.relative->0;
        let d = item.destination->0;
        assert(item_changes(item) =~= seq![
            (r@, FileChangeStatus::Deleted, item.path.head, None),
            (d.relative->0@, FileChangeStatus::Added, None, d.worktree),
        ]);
    }
}

} // verus!
