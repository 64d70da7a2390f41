use codex_mentor::analysis::PathStyle;
use codex_mentor::diff::{
    capture_snapshot, count_line_changes, diff_snapshots, line_count, ContentStatus, DiffSource,
    DiffState, FileSnapshot, SnapshotEntry,
};
use codex_mentor::git::{
    git_diff, git_relative_path, parse_status_paths, state_for_baseline, BaselineReading,
    GitError, GitStatusItem, ResolvedPath,
};
use codex_mentor::watcher::FileChangeStatus;

fn snapshot(entries: &[(&str, SnapshotEntry)]) -> FileSnapshot {
    let mut snapshot = FileSnapshot::new();
    for (path, entry) in entries {
        snapshot.insert((*path).to_string(), entry.clone());
    }
    snapshot
}

#[test]
fn classifies_add_modify_delete_and_reverted_changes() {
    let before = snapshot(&[("a.ts", SnapshotEntry::Content(b"one\n".to_vec()))]);
    let changed = snapshot(&[
        ("a.ts", SnapshotEntry::Content(b"two\n".to_vec())),
        ("nested/new.ts", SnapshotEntry::Content(b"new\n".to_vec())),
    ]);
    let state = diff_snapshots(None, &before, &changed);
    assert_eq!(
        state
            .files
            .iter()
            .map(|file| (file.path.as_str(), file.status))
            .collect::<Vec<_>>(),
        vec![
            ("a.ts", FileChangeStatus::Modified),
            ("nested/new.ts", FileChangeStatus::Added),
        ]
    );
    assert!(diff_snapshots(None, &before, &before).files.is_empty());
    let deleted = snapshot(&[]);
    assert_eq!(diff_snapshots(None, &before, &deleted).files[0].status, FileChangeStatus::Deleted);
}

#[test]
fn counts_empty_crlf_and_missing_final_newline() {
    assert_eq!(count_line_changes(b"", b"").unwrap(), (0, 0));
    assert_eq!(line_count(b"").unwrap(), 0);
    assert_eq!(line_count(b"a").unwrap(), 1);
    assert_eq!(count_line_changes(b"", b"a").unwrap(), (1, 0));
    assert_eq!(count_line_changes(b"a", b"").unwrap(), (0, 1));
    assert_eq!(count_line_changes(b"a\r\nb\r\n", b"a\nb\n").unwrap(), (0, 0));
    assert_eq!(count_line_changes(b"a\n", b"a\nb").unwrap(), (1, 0));
}

#[test]
fn binary_and_invalid_utf8_line_counts_are_unknown() {
    assert!(count_line_changes(b"a\0b", b"a\0c").is_err());
    assert!(count_line_changes(&[0xff], b"text").is_err());
    let before = snapshot(&[("binary", SnapshotEntry::Content(vec![0, 1]))]);
    let after = snapshot(&[("binary", SnapshotEntry::Content(vec![0, 2]))]);
    let file = &diff_snapshots(None, &before, &after).files[0];
    assert_eq!(file.lines_added, None);
    assert_eq!(file.lines_deleted, None);
}

#[test]
fn same_content_has_no_line_changes_and_swapping_swaps_counts() {
    assert_eq!(count_line_changes(b"x\ny\n", b"x\ny\n").unwrap(), (0, 0));
    assert_eq!(count_line_changes(b"a\nb\nc\n", b"a\nc\nd\ne\n").unwrap(), (2, 1));
    assert_eq!(count_line_changes(b"a\nc\nd\ne\n", b"a\nb\nc\n").unwrap(), (1, 2));
    assert_eq!(count_line_changes(b"a\n", b"\xff"), Err(ContentStatus::Binary));
}

#[test]
fn totals_sum_known_counts_and_count_unknown_files() {
    let before = snapshot(&[
        ("a.txt", SnapshotEntry::Content(b"1\n2\n".to_vec())),
        ("b.bin", SnapshotEntry::Content(vec![0])),
    ]);
    let after = snapshot(&[
        ("a.txt", SnapshotEntry::Content(b"1\n3\n4\n".to_vec())),
        ("b.bin", SnapshotEntry::Content(vec![1, 0])),
        ("c.txt", SnapshotEntry::Content(b"x\n".to_vec())),
    ]);
    let state = diff_snapshots(Some("root".to_string()), &before, &after);
    assert_eq!(state.source, DiffSource::Snapshot);
    assert!(state.fallback);
    assert_eq!(state.files.len(), 3);
    assert_eq!(state.files[0].lines_added, Some(2));
    assert_eq!(state.files[0].lines_deleted, Some(1));
    assert_eq!(state.files[1].content_status, ContentStatus::Binary);
    assert_eq!(state.total_lines_added, None);
    assert_eq!(state.unknown_line_count_files, 1);
    let text_only = diff_snapshots(
        None,
        &snapshot(&[("a.txt", SnapshotEntry::Content(b"1\n".to_vec()))]),
        &snapshot(&[("a.txt", SnapshotEntry::Content(b"1\n2\n".to_vec()))]),
    );
    assert_eq!(text_only.total_lines_added, Some(1));
    assert_eq!(text_only.total_lines_deleted, Some(0));
}

#[test]
fn unavailable_entries_compare_as_unknown_content() {
    let before = snapshot(&[("x", SnapshotEntry::Unavailable)]);
    let same = snapshot(&[("x", SnapshotEntry::Unavailable)]);
    assert!(diff_snapshots(None, &before, &same).files.is_empty());
    let readable = snapshot(&[("x", SnapshotEntry::Content(b"a\n".to_vec()))]);
    let state = diff_snapshots(None, &before, &readable);
    assert_eq!(state.files[0].status, FileChangeStatus::Modified);
    assert_eq!(state.files[0].content_status, ContentStatus::Unavailable);
}

#[test]
fn status_paths_parse_renames_and_reject_short_records() {
    let records = parse_status_paths(b" M src/a.ts\0R  new.ts\0old.ts\0?? u.ts\0").unwrap();
    assert_eq!(records.len(), 3);
    assert_eq!(records[0], ("src/a.ts".to_string(), None, *b" M"));
    assert_eq!(records[1], ("old.ts".to_string(), Some("new.ts".to_string()), *b"R "));
    assert_eq!(records[2].2, *b"??");
    assert_eq!(
        parse_status_paths(b"M\0"),
        Err(GitError::InvalidOutput("status record is too short".to_string()))
    );
    assert_eq!(
        parse_status_paths(b"R  new.ts\0"),
        Err(GitError::InvalidOutput("rename record has no original path".to_string()))
    );
    let lossy = parse_status_paths(b" M a\xffb\0").unwrap();
    assert_eq!(lossy[0].0, "a\u{fffd}b");
}

fn resolved(relative: Option<&str>, head: Option<&[u8]>, worktree: Option<&[u8]>) -> ResolvedPath {
    ResolvedPath {
        relative: relative.map(str::to_string),
        head: head.map(|bytes| SnapshotEntry::Content(bytes.to_vec())),
        worktree: worktree.map(|bytes| SnapshotEntry::Content(bytes.to_vec())),
    }
}

#[test]
fn git_changes_follow_status_letters_renames_and_untracked_files() {
    let items = vec![
        GitStatusItem { code: *b"!!", path: resolved(Some("ignored.txt"), None, Some(b"x\n")), destination: None },
        GitStatusItem { code: *b"??", path: resolved(Some("untracked.ts"), None, Some(b"new\n")), destination: None },
        GitStatusItem {
            code: *b"R ",
            path: resolved(Some("src/main.ts"), Some(b"one\n"), None),
            destination: Some(resolved(Some("src/nested/renamed.ts"), None, Some(b"one\ntwo\n"))),
        },
        GitStatusItem { code: *b" D", path: resolved(Some("delete.ts"), Some(b"gone\n"), None), destination: None },
        GitStatusItem { code: *b" M", path: resolved(None, Some(b"a\n"), Some(b"b\n")), destination: None },
    ];
    let state = git_diff("/repo".to_string(), items);
    assert_eq!(state.source, DiffSource::Git);
    assert!(!state.fallback);
    let paths = state.files.iter().map(|file| (file.path.as_str(), file.status)).collect::<Vec<_>>();
    assert_eq!(
        paths,
        vec![
            ("delete.ts", FileChangeStatus::Deleted),
            ("src/main.ts", FileChangeStatus::Deleted),
            ("src/nested/renamed.ts", FileChangeStatus::Added),
            ("untracked.ts", FileChangeStatus::Added),
        ]
    );
    assert_eq!(state.files[2].lines_added, Some(2));
}

#[test]
fn baseline_state_prefers_git_as_source_but_keeps_snapshot_records() {
    let baseline = snapshot(&[("a.ts", SnapshotEntry::Content(b"one\n".to_vec()))]);
    let current = snapshot(&[
        ("a.ts", SnapshotEntry::Content(b"one\n".to_vec())),
        ("ignored.txt", SnapshotEntry::Content(b"new\n".to_vec())),
    ]);
    let git = DiffState {
        project_path: Some("/repo".to_string()),
        ..DiffState::idle()
    };
    let state = state_for_baseline(&baseline, BaselineReading::Read("/repo".to_string(), current.clone(), Ok(git)));
    assert_eq!(state.source, DiffSource::Git);
    assert!(!state.fallback);
    assert_eq!(state.error, None);
    assert_eq!(state.files.len(), 1);
    assert_eq!(state.files[0].path, "ignored.txt");
    assert_eq!(state.files[0].lines_added, Some(1));

    let failed = state_for_baseline(
        &baseline,
        BaselineReading::Read("/repo".to_string(), current, Err(GitError::NotRepository)),
    );
    assert_eq!(failed.source, DiffSource::Snapshot);
    assert!(failed.fallback);
    assert_eq!(
        failed.error.as_deref(),
        Some("The selected folder is not a Git repository; using snapshot comparison")
    );

    let unreadable = state_for_baseline(&baseline, BaselineReading::Unreadable("/repo".to_string()));
    assert_eq!(unreadable.error.as_deref(), Some("The current project snapshot could not be read"));
    let no_root = state_for_baseline(&baseline, BaselineReading::NoRoot);
    assert_eq!(no_root.files[0].status, FileChangeStatus::Deleted);
    assert_eq!(no_root.project_path, None);
}

#[test]
fn git_errors_read_as_sentences() {
    assert_eq!(
        GitError::CommandFailed("boom".to_string()).message(),
        "Git could not read the current changes: boom"
    );
    assert_eq!(
        GitError::CommandUnavailable("missing".to_string()).message(),
        "Git is unavailable: missing"
    );
    assert_eq!(
        GitError::InvalidOutput("bad".to_string()).message(),
        "Git returned unreadable change data: bad"
    );
}

#[test]
fn normalize_git_path_rejects_lexical_parent_traversal() {
    assert!(git_relative_path(PathStyle::Unix, "/project", "/project/../outside.ts").is_none());
    assert_eq!(git_relative_path(PathStyle::Unix, "/project", "/project/src/a.ts").as_deref(), Some("src/a.ts"));
    assert!(git_relative_path(PathStyle::Unix, "/project", "/project/.git/index").is_none());
    assert!(git_relative_path(PathStyle::Unix, "/project", "/project").is_none());
}

#[test]
fn excludes_git_and_codex_from_snapshots() {
    let snapshot = capture_snapshot(
        PathStyle::Unix,
        "/project",
        vec![
            ("/project/README.md".to_string(), SnapshotEntry::Content(b"hello".to_vec())),
            ("/project/.git/objects/index".to_string(), SnapshotEntry::Content(b"metadata".to_vec())),
            ("/project/.codex/session.json".to_string(), SnapshotEntry::Content(b"metadata".to_vec())),
        ],
    );
    assert_eq!(
        snapshot.files.iter().map(|file| file.path.clone()).collect::<Vec<_>>(),
        vec!["README.md".to_string()]
    );
}

#[test]
fn windows_snapshots_keep_project_files_and_drop_metadata() {
    let snapshot = capture_snapshot(
        PathStyle::Windows,
        "\\\\?\\C:\\project",
        vec![
            ("\\\\?\\C:\\project\\README.md".to_string(), SnapshotEntry::Content(b"hello".to_vec())),
            ("\\\\?\\C:\\project\\src\\main.ts".to_string(), SnapshotEntry::Content(b"x".to_vec())),
            ("\\\\?\\C:\\project\\.git\\objects\\index".to_string(), SnapshotEntry::Content(b"metadata".to_vec())),
            ("\\\\?\\C:\\project\\.codex\\session.json".to_string(), SnapshotEntry::Content(b"metadata".to_vec())),
        ],
    );
    assert_eq!(
        snapshot.files.iter().map(|file| file.path.clone()).collect::<Vec<_>>(),
        vec!["README.md".to_string(), "src/main.ts".to_string()]
    );
}

#[test]
fn baseline_state_holds_the_records_of_the_snapshot_comparison() {
    let baseline = snapshot(&[
        ("a.ts", SnapshotEntry::Content(b"one\n".to_vec())),
        ("gone.ts", SnapshotEntry::Content(b"x\n".to_vec())),
    ]);
    let current = snapshot(&[
        ("a.ts", SnapshotEntry::Content(b"one\ntwo\n".to_vec())),
        ("new.bin", SnapshotEntry::Content(vec![0, 1, 2])),
    ]);
    let compared = diff_snapshots(None, &baseline, &current);
    let read = state_for_baseline(
        &baseline,
        BaselineReading::Read("/repo".to_string(), current.clone(), Err(GitError::NotRepository)),
    );
    assert_eq!(read.files, compared.files);
    assert_eq!(read.project_path.as_deref(), Some("/repo"));
}
