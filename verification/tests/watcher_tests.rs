use codex_mentor::analysis::PathStyle;
use codex_mentor::diff::{DiffSource, DiffState, FileDiffRecord, FileSnapshot, ContentStatus};
use codex_mentor::watcher::{
    baseline_paths_under, candidate_action, classify_path, coalesce_changes, initial_snapshot,
    is_metadata_path, normalize_relative_path, plan_burst, CandidateAction, FileChangeRecord,
    FileChangeStatus, WatchEventKind, WatchRuntime, WatcherState, WatcherStatus,
};

fn strings(items: &[&str]) -> Vec<String> {
    items.iter().map(|item| item.to_string()).collect()
}

fn watching(project: &str) -> WatcherState {
    WatcherState {
        project_path: Some(project.into()),
        status: WatcherStatus::Watching,
        records: Vec::new(),
        diff: DiffState::idle(),
        error: None,
    }
}

#[test]
fn coalesces_duplicate_notify_events() {
    let changes = coalesce_changes(vec![
        FileChangeRecord { path: "a.ts".into(), status: FileChangeStatus::Added },
        FileChangeRecord { path: "a.ts".into(), status: FileChangeStatus::Modified },
        FileChangeRecord { path: "b.ts".into(), status: FileChangeStatus::Deleted },
    ]);
    assert_eq!(changes.len(), 2);
    assert_eq!(changes[0].path, "a.ts");
    assert_eq!(changes[0].status, FileChangeStatus::Modified);
}

#[test]
fn normalizes_nested_paths_and_rejects_outside_paths() {
    assert_eq!(normalize_relative_path(PathStyle::Unix, "/tmp/project", "/tmp/project/src/main.ts").unwrap(), "src/main.ts");
    assert!(normalize_relative_path(PathStyle::Unix, "/tmp/project", "/tmp/outside.ts").is_err());
    assert!(normalize_relative_path(PathStyle::Unix, "/tmp/project", "/tmp/project/../outside.ts").is_err());
    assert_eq!(
        normalize_relative_path(PathStyle::Unix, "/tmp/project", "/tmp/project"),
        Err("The selected project root is not a file".to_string())
    );
    assert_eq!(normalize_relative_path(PathStyle::Unix, "/tmp/project", "/tmp/project//a/./b").unwrap(), "a/b");
    assert!(normalize_relative_path(PathStyle::Unix, "/tmp/project", "tmp/project/a").is_err());
}

#[test]
fn classifies_added_modified_deleted_without_emitting_baseline_files() {
    let baseline = initial_snapshot(PathStyle::Unix, "/p", strings(&["/p/existing.ts"]));
    let modified = classify_path(PathStyle::Unix, "/p", &baseline, "/p/existing.ts", true).unwrap();
    assert!(modified.status == FileChangeStatus::Modified);
    assert_eq!(classify_path(PathStyle::Unix, "/p", &baseline, "/p/new.ts", true).unwrap().status, FileChangeStatus::Added);
    assert_eq!(
        classify_path(PathStyle::Unix, "/p", &baseline, "/p/existing.ts", false).unwrap().status,
        FileChangeStatus::Deleted
    );
    assert!(classify_path(PathStyle::Unix, "/p", &baseline, "/p/never.ts", false).is_none());
}

#[test]
fn metadata_events_are_ignored() {
    let baseline = initial_snapshot(PathStyle::Unix, "/p", Vec::new());
    assert!(classify_path(PathStyle::Unix, "/p", &baseline, "/p/.git/index", true).is_none());
    assert!(is_metadata_path(PathStyle::Unix, "/p/.codex/session.json"));
    assert!(!is_metadata_path(PathStyle::Unix, "/p/src/git.rs"));
}

#[test]
fn initial_snapshot_excludes_git_and_codex_metadata() {
    let snapshot = initial_snapshot(
        PathStyle::Unix,
        "/tmp/project",
        strings(&[
            "/tmp/project/README.md",
            "/tmp/project/.git/objects/index",
            "/tmp/project/.codex/session.json",
        ]),
    );
    assert_eq!(snapshot.into_iter().collect::<Vec<_>>(), vec!["README.md"]);
}

#[test]
fn initial_snapshot_orders_deduplicates_and_keeps_inside_paths() {
    let snapshot = initial_snapshot(
        PathStyle::Unix,
        "/p",
        strings(&["/p/src/b.ts", "/p/README.md", "/p/src/b.ts", "/elsewhere/x.ts", "/p"]),
    );
    assert_eq!(snapshot, strings(&["README.md", "src/b.ts"]));
}

#[test]
fn windows_paths_are_made_relative_to_the_canonical_root() {
    assert_eq!(
        normalize_relative_path(PathStyle::Windows, "\\\\?\\C:\\p", "\\\\?\\C:\\p\\src\\main.ts").unwrap(),
        "src/main.ts"
    );
    assert_eq!(normalize_relative_path(PathStyle::Windows, "C:\\p", "C:\\p\\src\\main.ts").unwrap(), "src/main.ts");
    assert!(normalize_relative_path(PathStyle::Windows, "\\\\?\\C:\\p", "\\\\?\\C:\\other\\main.ts").is_err());
    assert!(normalize_relative_path(PathStyle::Windows, "\\\\?\\C:\\p", "\\\\?\\D:\\p\\main.ts").is_err());
    assert!(normalize_relative_path(PathStyle::Windows, "\\\\?\\C:\\p", "\\\\?\\C:\\p\\..\\main.ts").is_err());
    assert!(normalize_relative_path(PathStyle::Windows, "\\\\?\\C:\\p", "\\\\?\\C:\\p").is_err());
    let snapshot = initial_snapshot(
        PathStyle::Windows,
        "\\\\?\\C:\\p",
        strings(&["\\\\?\\C:\\p\\README.md", "\\\\?\\C:\\p\\.git\\index"]),
    );
    assert_eq!(snapshot, strings(&["README.md"]));
}

#[test]
fn removed_directories_take_their_baseline_files() {
    let baseline = strings(&["before", "before/nested.ts", "beforehand.ts", "other/x.ts"]);
    assert_eq!(
        baseline_paths_under("before", &baseline),
        strings(&["before", "before/nested.ts"])
    );
}

#[test]
fn a_new_generation_invalidates_the_previous_preview_baseline() {
    let mut runtime = WatchRuntime::new();
    runtime.generation = 3;
    runtime.baseline = Some(FileSnapshot::new());
    let generation = runtime.claim_start_generation();
    assert_eq!(runtime.generation, generation);
    assert_eq!(generation, 4);
    assert!(runtime.baseline.is_none());
}

#[test]
fn start_claims_generation_before_slow_snapshot_and_rejects_stale_install() {
    let mut runtime = WatchRuntime::new();
    let first_generation = runtime.claim_start_generation();
    let second_generation = runtime.claim_start_generation();
    assert_eq!(second_generation, first_generation.wrapping_add(1));
    assert!(!runtime.install_start_state(first_generation, watching("stale-project")));
    assert_eq!(runtime.generation, second_generation);
    assert!(runtime.state.project_path.is_none());
    assert_eq!(runtime.state.status, WatcherStatus::Idle);
    assert!(runtime.state.records.is_empty());
}

#[test]
fn stale_start_error_event_is_suppressed_after_newer_claim() {
    let mut runtime = WatchRuntime::new();
    let stale_generation = runtime.claim_start_generation();
    let current_generation = runtime.claim_start_generation();
    assert!(!runtime.set_runtime_error(stale_generation, "start-error".to_string()));
    assert_eq!(runtime.generation, current_generation);
    assert_eq!(runtime.state.status, WatcherStatus::Idle);
}

#[test]
fn stale_stop_event_is_suppressed_after_newer_claim() {
    let mut runtime = WatchRuntime::new();
    runtime.state = watching("current");
    let stale_generation = runtime.claim_start_generation();
    let current_generation = runtime.claim_start_generation();
    assert!(!runtime.reset_state(stale_generation));
    assert_eq!(runtime.generation, current_generation);
    assert_eq!(runtime.state.project_path.as_deref(), Some("current"));
}

#[test]
fn stale_generation_cannot_update_a_switched_project() {
    let mut runtime = WatchRuntime::new();
    runtime.generation = 2;
    runtime.state = watching("new");
    let stale = FileChangeRecord { path: "old.ts".into(), status: FileChangeStatus::Modified };
    assert!(!runtime.update_runtime(1, stale));
    assert!(runtime.state.records.is_empty());
}

#[test]
fn stale_generation_cannot_install_start_state_or_watcher() {
    let mut runtime = WatchRuntime::new();
    runtime.generation = 2;
    runtime.state = watching("new");
    assert!(!runtime.install_start_state(1, watching("old")));
    assert_eq!(runtime.state.project_path.as_deref(), Some("new"));
    assert!(!runtime.is_current(1));
    assert!(!runtime.install_baseline(1, FileSnapshot::new()));
    assert!(runtime.baseline.is_none());
}

fn diff_with(path: &str) -> DiffState {
    DiffState {
        project_path: Some("/p".to_string()),
        source: DiffSource::Snapshot,
        fallback: true,
        files: vec![FileDiffRecord {
            path: path.to_string(),
            status: FileChangeStatus::Added,
            lines_added: Some(1),
            lines_deleted: Some(0),
            content_status: ContentStatus::Text,
        }],
        total_lines_added: Some(1),
        total_lines_deleted: Some(0),
        unknown_line_count_files: 0,
        error: None,
    }
}

#[test]
fn diff_refresh_clears_a_spurious_record_when_content_matches_baseline() {
    let mut runtime = WatchRuntime::new();
    runtime.generation = 1;
    runtime.state = watching("/p");
    runtime.state.records = vec![FileChangeRecord { path: "main.ts".into(), status: FileChangeStatus::Modified }];
    assert!(runtime.refresh_runtime_diff(1, DiffState::idle()));
    assert!(runtime.state.records.is_empty());
    assert!(!runtime.refresh_runtime_diff(1, DiffState::idle()));
    assert!(!runtime.refresh_runtime_diff(0, diff_with("x.ts")));
    assert!(runtime.refresh_runtime_diff(1, diff_with("x.ts")));
    assert_eq!(runtime.state.records, vec![FileChangeRecord { path: "x.ts".into(), status: FileChangeStatus::Added }]);
}

#[test]
fn stale_generation_cannot_publish_a_diff_for_a_switched_project() {
    let mut runtime = WatchRuntime::new();
    runtime.generation = 2;
    runtime.state = watching("new");
    assert!(!runtime.refresh_runtime_diff(1, diff_with("main.ts")));
    assert!(runtime.state.diff == DiffState::idle());
}

#[test]
fn clears_added_record_when_a_later_delete_returns_path_to_baseline() {
    let mut runtime = WatchRuntime::new();
    runtime.generation = 1;
    runtime.state = watching("/p");
    let baseline = initial_snapshot(PathStyle::Unix, "/p", Vec::new());
    let added = classify_path(PathStyle::Unix, "/p", &baseline, "/p/new.ts", true).unwrap();
    assert_eq!(added, FileChangeRecord { path: "new.ts".into(), status: FileChangeStatus::Added });
    assert!(runtime.update_runtime(1, added));
    assert!(classify_path(PathStyle::Unix, "/p", &baseline, "/p/new.ts", false).is_none());
    assert!(runtime.clear_runtime_path(1, "new.ts"));
    assert!(runtime.state.records.is_empty());
    assert!(!runtime.clear_runtime_path(1, "new.ts"));
}

#[test]
fn updates_keep_one_record_per_path_in_order() {
    let mut runtime = WatchRuntime::new();
    let g = runtime.claim_start_generation();
    assert!(runtime.update_runtime(g, FileChangeRecord { path: "b.ts".into(), status: FileChangeStatus::Added }));
    assert!(runtime.update_runtime(g, FileChangeRecord { path: "a/x.ts".into(), status: FileChangeStatus::Added }));
    assert!(runtime.update_runtime(g, FileChangeRecord { path: "b.ts".into(), status: FileChangeStatus::Deleted }));
    assert_eq!(
        runtime.state.records,
        vec![
            FileChangeRecord { path: "a/x.ts".into(), status: FileChangeStatus::Added },
            FileChangeRecord { path: "b.ts".into(), status: FileChangeStatus::Deleted },
        ]
    );
    assert!(runtime.clear_runtime_path(g, "a"));
    assert_eq!(runtime.state.records.len(), 1);
    assert!(runtime.set_runtime_error(g, "boom".to_string()));
    assert_eq!(runtime.state.status, WatcherStatus::Error);
    assert!(runtime.reset_state(g));
    assert_eq!(runtime.state.status, WatcherStatus::Idle);
}

#[test]
fn coalescing_twice_gives_the_same_records() {
    let once = coalesce_changes(vec![
        FileChangeRecord { path: "b.ts".into(), status: FileChangeStatus::Added },
        FileChangeRecord { path: "a.ts".into(), status: FileChangeStatus::Deleted },
        FileChangeRecord { path: "b.ts".into(), status: FileChangeStatus::Modified },
    ]);
    let twice = coalesce_changes(once.clone());
    assert_eq!(once, twice);
    assert_eq!(once.iter().map(|c| c.path.as_str()).collect::<Vec<_>>(), vec!["a.ts", "b.ts"]);
    assert_eq!(once[1].status, FileChangeStatus::Modified);
}

#[test]
fn candidate_actions_follow_event_kind_and_path_facts() {
    assert_eq!(candidate_action(WatchEventKind::Other, false, true, false, true), CandidateAction::Skip);
    assert_eq!(candidate_action(WatchEventKind::Modify, true, true, false, true), CandidateAction::Skip);
    assert_eq!(candidate_action(WatchEventKind::Modify, false, true, false, true), CandidateAction::Take);
    assert_eq!(candidate_action(WatchEventKind::Create, false, false, true, true), CandidateAction::ExpandDirectory);
    assert_eq!(candidate_action(WatchEventKind::Rename, false, false, true, true), CandidateAction::ExpandDirectory);
    assert_eq!(candidate_action(WatchEventKind::Modify, false, false, true, true), CandidateAction::Skip);
    assert_eq!(candidate_action(WatchEventKind::Remove, false, false, false, false), CandidateAction::TakeWithBaselineBelow);
    assert_eq!(candidate_action(WatchEventKind::Modify, false, false, false, false), CandidateAction::TakeWithBaselineBelow);
    assert_eq!(candidate_action(WatchEventKind::Remove, false, false, false, true), CandidateAction::TakeWithBaselineBelow);
    assert_eq!(candidate_action(WatchEventKind::Create, false, false, false, true), CandidateAction::Skip);
}

#[test]
fn burst_plan_clears_affected_paths_without_a_change_once_in_order() {
    let plan = plan_burst(
        strings(&["src/z.ts", "src/a.ts", "src/gone", "src/a.ts", "src/gone"]),
        vec![
            FileChangeRecord { path: "src/a.ts".into(), status: FileChangeStatus::Added },
            FileChangeRecord { path: "src/a.ts".into(), status: FileChangeStatus::Modified },
        ],
    );
    assert_eq!(plan.changes.len(), 1);
    assert_eq!(plan.changes[0].status, FileChangeStatus::Modified);
    assert_eq!(plan.clear, strings(&["src/gone", "src/z.ts"]));
}

#[test]
fn backslashes_separate_paths_only_in_the_windows_style() {
    assert_eq!(normalize_relative_path(PathStyle::Unix, "/p", "/p/a\\b.ts").unwrap(), "a\\b.ts");
    assert_eq!(normalize_relative_path(PathStyle::Windows, "/p", "/p/a\\b.ts").unwrap(), "a/b.ts");
    assert!(!is_metadata_path(PathStyle::Unix, "/p/a\\.git"));
    assert!(is_metadata_path(PathStyle::Windows, "/p/a\\.git"));
    assert!(normalize_relative_path(PathStyle::Unix, "C:\\p", "C:\\p\\x.ts").is_err());
}
