use codex_mentor::analysis::PathStyle;
use codex_mentor::analysis::{
    build_analysis, build_analysis_with_generation, build_context, decimal_string,
    is_scoped_relative_path, programming_concepts, record_from_context, AnalysisContext,
    CompletionMetadata, ScopedFileContext,
};
use codex_mentor::code::{code_features, mask_non_code};
use codex_mentor::concepts::{concepts_from_texts, default_concept_map, ConceptDefinition};
use codex_mentor::diff::{ContentStatus, FileSnapshot, SnapshotEntry};
use codex_mentor::watcher::FileChangeStatus;

fn snapshot(entries: &[(&str, SnapshotEntry)]) -> FileSnapshot {
    let mut snapshot = FileSnapshot::new();
    for (path, entry) in entries {
        snapshot.insert((*path).to_string(), entry.clone());
    }
    snapshot
}

fn concept_map(text: &str) -> Option<Vec<ConceptDefinition>> {
    let value: serde_json::Value = serde_json::from_str(text).ok()?;
    let concepts = value.get("concepts")?.as_array()?;
    let mut out = Vec::new();
    for concept in concepts {
        let id = concept.get("id")?.as_str()?.to_string();
        let prerequisites = match concept.get("prerequisites") {
            None => Vec::new(),
            Some(list) => {
                let mut items = Vec::new();
                for item in list.as_array()? {
                    items.push(item.as_str()?.to_string());
                }
                items
            }
        };
        out.push(ConceptDefinition { id, prerequisites });
    }
    Some(out)
}

fn texts(items: &[&str]) -> Vec<String> {
    items.iter().map(|text| text.to_string()).collect()
}

#[test]
fn scopes_changed_files_and_excludes_metadata_and_unrelated_files() {
    let before = snapshot(&[
        ("src/app.ts", SnapshotEntry::Content(b"old\n".to_vec())),
        ("README.md", SnapshotEntry::Content(b"same\n".to_vec())),
        (".git/config", SnapshotEntry::Content(b"secret\n".to_vec())),
    ]);
    let after = snapshot(&[
        ("src/app.ts", SnapshotEntry::Content(b"new\n".to_vec())),
        ("README.md", SnapshotEntry::Content(b"same\n".to_vec())),
        ("notes.txt", SnapshotEntry::Content(b"new file\n".to_vec())),
        (".codex/session.json", SnapshotEntry::Content(b"hidden\n".to_vec())),
    ]);

    let context = build_context(PathStyle::Unix, "C:/project", &before, &after, CompletionMetadata::default())
        .unwrap()
        .unwrap();
    assert_eq!(
        context.files.iter().map(|file| file.path.as_str()).collect::<Vec<_>>(),
        vec!["notes.txt", "src/app.ts"]
    );
    assert!(!context.files.iter().any(|file| file.path.starts_with(".")));
}

#[test]
fn text_is_included_but_binary_and_unavailable_are_metadata_only() {
    let before = snapshot(&[
        ("text.ts", SnapshotEntry::Content(b"old\n".to_vec())),
        ("binary.bin", SnapshotEntry::Content(vec![0, 1, 2])),
        ("locked.txt", SnapshotEntry::Unavailable),
    ]);
    let after = snapshot(&[
        ("text.ts", SnapshotEntry::Content(b"new\n".to_vec())),
        ("binary.bin", SnapshotEntry::Content(vec![0, 1, 3])),
        ("locked.txt", SnapshotEntry::Content(b"now readable\n".to_vec())),
    ]);
    let context = build_context(PathStyle::Unix, "C:/project", &before, &after, CompletionMetadata::default())
        .unwrap()
        .unwrap();
    let text = context.files.iter().find(|file| file.path == "text.ts").unwrap();
    assert_eq!(text.before.as_deref(), Some("old\n"));
    assert_eq!(text.after.as_deref(), Some("new\n"));
    for path in ["binary.bin", "locked.txt"] {
        let file = context.files.iter().find(|file| file.path == path).unwrap();
        assert!(file.before.is_none());
        assert!(file.after.is_none());
    }
}

#[test]
fn build_analysis_detects_concepts_from_frozen_text_in_any_path() {
    let before = snapshot(&[(
        "notes.weird",
        SnapshotEntry::Content(b"const add = (left, right) => left + right;\n".to_vec()),
    )]);
    let after = snapshot(&[(
        "notes.weird",
        SnapshotEntry::Content(
            b"#[tauri::command]\npub fn serve() {}\nasync fn load() { await fetch(); }\n".to_vec(),
        ),
    )]);
    let analysis = build_analysis(PathStyle::Unix, "C:/project", &before, &after, CompletionMetadata::default())
        .unwrap()
        .unwrap();
    assert_eq!(analysis.record.programming_concepts, vec!["functions", "api", "async-await"]);
}

#[test]
fn comments_strings_near_tokens_and_prose_do_not_detect_concepts() {
    let before = snapshot(&[(
        "plain.data",
        SnapshotEntry::Content(
            b"// fn fake() {}\n/* pub fn hidden() {} */\nlet value = \"function text() async await\";\n"
                .to_vec(),
        ),
    )]);
    let after = snapshot(&[(
        "plain.data",
        SnapshotEntry::Content(
            b"myfunction fake(\nasyncThing awaitable\nThe function prose() and async await are words.\n"
                .to_vec(),
        ),
    )]);
    let analysis = build_analysis(PathStyle::Unix, "C:/project", &before, &after, CompletionMetadata::default())
        .unwrap()
        .unwrap();
    assert!(analysis.record.programming_concepts.is_empty());
}

#[test]
fn nested_block_comments_do_not_detect_hidden_functions() {
    let features = code_features("/* outer /* inner */ pub fn fake() {} */\n");
    assert!(!features.functions);
    assert!(!features.api);
    assert!(!features.async_await);
}

#[test]
fn unicode_masking_and_tokenization_do_not_panic_or_corrupt_code() {
    let text = "// 中文 fn fake() {}\npub fn serve() { let message = \"你好\"; }\n";
    let features = code_features(text);
    assert!(features.functions);
    assert!(!features.async_await);
    let multibyte_text = "// \u{524d}\u{7f6e} \u{4e2d}\u{6587}\n\npub /* \u{4e2d}\u{9593} \u{6587}\u{5b57} */ fn serve() {}\n";
    let multibyte_features = code_features(multibyte_text);
    assert!(multibyte_features.functions);
    assert!(!multibyte_features.async_await);
}

#[test]
fn function_detection_requires_structural_declarations() {
    assert!(!code_features("function prose()\nobj.await;\n").functions);
    assert!(!code_features("function prose()\nwords {}\n").functions);
    assert!(!code_features("prose #[tauri::command] fn serve() {}\n").functions);
    assert!(!code_features("fn declaration()\n").functions);
    assert!(code_features("pub fn serve()\n{}\n").functions);
    let tauri_command = code_features("#[tauri::command] fn serve() {}\n");
    assert!(tauri_command.functions);
    assert!(tauri_command.api);
    assert!(code_features("def serve():\n    pass\n").functions);
    assert!(code_features("async def serve():\n    pass\n").functions);
    assert!(code_features("function real() { return 1; }\n").functions);
}

#[test]
fn async_function_with_member_await_is_not_async_await() {
    assert!(!code_features("function regular() { obj.await; }\n").async_await);
    assert!(!code_features("async function load() { obj.await; }\n").async_await);
}

#[test]
fn async_function_without_await_is_not_async_await() {
    assert!(!code_features("async function load() { return fetch(); }\n").async_await);
}

#[test]
fn async_function_with_standalone_await_is_async_await() {
    assert!(code_features("async function load() { await fetch(); }\n").async_await);
}

#[test]
fn non_text_scoped_context_is_never_used_for_concepts() {
    let files = vec![
        ScopedFileContext {
            path: "binary.bin".to_string(),
            status: FileChangeStatus::Modified,
            content_status: ContentStatus::Binary,
            before: Some("pub fn hidden() {}".to_string()),
            after: Some("pub fn hidden() {}".to_string()),
        },
        ScopedFileContext {
            path: "text.rs".to_string(),
            status: FileChangeStatus::Modified,
            content_status: ContentStatus::Text,
            before: Some("old".to_string()),
            after: Some("pub fn visible() {}".to_string()),
        },
    ];
    assert_eq!(programming_concepts(&files), vec!["functions"]);
}

#[test]
fn binary_and_unavailable_frozen_entries_have_no_concepts() {
    let before = snapshot(&[
        ("blob.data", SnapshotEntry::Content(vec![0, 1, 2])),
        ("locked.data", SnapshotEntry::Unavailable),
    ]);
    let after = snapshot(&[
        ("blob.data", SnapshotEntry::Content(vec![0, 1, 3])),
        ("locked.data", SnapshotEntry::Unavailable),
    ]);
    let analysis = build_analysis(PathStyle::Unix, "C:/project", &before, &after, CompletionMetadata::default())
        .unwrap()
        .unwrap();
    assert!(analysis.record.programming_concepts.is_empty());
}

#[test]
fn invalid_concept_map_emits_no_concepts() {
    assert!(concepts_from_texts(&texts(&["pub fn valid() {}"]), concept_map("not json")).is_empty());
    assert!(concepts_from_texts(
        &texts(&["pub fn valid() {}"]),
        concept_map(r#"{"concepts":[]}"#)
    )
    .is_empty());
    assert!(concepts_from_texts(
        &texts(&["pub fn valid() {}"]),
        concept_map(
            r#"{"concepts":[{"id":"functions","prerequisites":["api"]},{"id":"api","prerequisites":[]}]}"#
        )
    )
    .is_empty());
    assert!(concepts_from_texts(
        &texts(&["pub fn valid() {}"]),
        concept_map(
            r#"{"concepts":[{"id":"functions","prerequisites":["api"]},{"id":"api","prerequisites":["functions"]}]}"#
        )
    )
    .is_empty());
}

#[test]
fn concept_output_contains_only_valid_map_ids_in_map_order() {
    let map = r#"{
        "concepts": [
            {"id":"functions","prerequisites":[]},
            {"id":"api","prerequisites":["functions"]},
            {"id":"unused","prerequisites":[]}
        ]
    }"#;
    assert_eq!(
        concepts_from_texts(&texts(&["#[tauri::command]\npub fn serve() {}"]), concept_map(map)),
        vec!["functions", "api"]
    );
}

#[test]
fn deterministic_fields_are_stable_and_unknowns_are_honest() {
    let before = snapshot(&[("src/app.ts", SnapshotEntry::Content(b"old\n".to_vec()))]);
    let after = snapshot(&[("src/app.ts", SnapshotEntry::Content(b"new\n".to_vec()))]);
    let first = build_analysis(PathStyle::Unix, "C:/project", &before, &after, CompletionMetadata::default())
        .unwrap()
        .unwrap();
    let second = build_analysis(PathStyle::Unix, "C:/project", &before, &after, CompletionMetadata::default())
        .unwrap()
        .unwrap();
    assert_eq!(first, second);
    assert_eq!(first.record.changed_components, vec!["src/app.ts"]);
    assert_eq!(first.record.impact, "Unknown: runtime and product impact was not supplied.");
    assert!(first.record.programming_concepts.is_empty());
}

#[test]
fn completion_generation_distinguishes_identical_sequential_boundaries() {
    let before = snapshot(&[("src/app.ts", SnapshotEntry::Content(b"old\n".to_vec()))]);
    let after = snapshot(&[("src/app.ts", SnapshotEntry::Content(b"new\n".to_vec()))]);
    let first = build_analysis_with_generation(
        PathStyle::Unix,
        "C:/project",
        &before,
        &after,
        CompletionMetadata::default(),
        1,
    )
    .unwrap()
    .unwrap();
    let second = build_analysis_with_generation(
        PathStyle::Unix,
        "C:/project",
        &before,
        &after,
        CompletionMetadata::default(),
        2,
    )
    .unwrap()
    .unwrap();
    assert_ne!(first.metadata.completion_generation, second.metadata.completion_generation);
    assert_ne!(first, second);
}

#[test]
fn empty_diff_returns_no_analysis() {
    let before = snapshot(&[("same.ts", SnapshotEntry::Content(b"same\n".to_vec()))]);
    let result = build_analysis(PathStyle::Unix, "C:/project", &before, &before, CompletionMetadata::default()).unwrap();
    assert!(result.is_none());
}

#[test]
fn rotating_the_baseline_makes_repeated_completion_idempotent() {
    let initial = snapshot(&[("app.ts", SnapshotEntry::Content(b"one\n".to_vec()))]);
    let completed_snapshot = snapshot(&[("app.ts", SnapshotEntry::Content(b"two\n".to_vec()))]);
    let next_change = snapshot(&[("app.ts", SnapshotEntry::Content(b"three\n".to_vec()))]);

    let first = build_analysis(
        PathStyle::Unix,
        "C:/project",
        &initial,
        &completed_snapshot,
        CompletionMetadata::default(),
    )
    .unwrap()
    .unwrap();
    assert!(build_analysis(
        PathStyle::Unix,
        "C:/project",
        &completed_snapshot,
        &completed_snapshot,
        CompletionMetadata::default(),
    )
    .unwrap()
    .is_none());

    let second = build_analysis(
        PathStyle::Unix,
        "C:/project",
        &completed_snapshot,
        &next_change,
        CompletionMetadata::default(),
    )
    .unwrap()
    .unwrap();
    assert_ne!(first, second);
    assert_eq!(second.record.changed_components, vec!["app.ts"]);
}

#[test]
fn completed_analysis_keeps_frozen_preview_when_the_same_path_changes_again() {
    let before = snapshot(&[("app.ts", SnapshotEntry::Content(b"before\n".to_vec()))]);
    let completed = snapshot(&[("app.ts", SnapshotEntry::Content(b"completed\n".to_vec()))]);
    let later = snapshot(&[("app.ts", SnapshotEntry::Content(b"later\n".to_vec()))]);

    let first = build_analysis(PathStyle::Unix, "C:/project", &before, &completed, CompletionMetadata::default())
        .unwrap()
        .unwrap();
    let second = build_analysis(PathStyle::Unix, "C:/project", &completed, &later, CompletionMetadata::default())
        .unwrap()
        .unwrap();

    let first_file = &first.frozen_files[0];
    assert_eq!(first_file.path, "app.ts");
    assert_eq!(first_file.before.as_deref(), Some("before\n"));
    assert_eq!(first_file.after.as_deref(), Some("completed\n"));
    assert_eq!(second.frozen_files[0].after.as_deref(), Some("later\n"));
    assert_ne!(first.frozen_files, second.frozen_files);
}

#[test]
fn scoped_paths_reject_roots_parents_and_metadata() {
    assert!(is_scoped_relative_path(PathStyle::Unix, "src/app.ts"));
    assert!(is_scoped_relative_path(PathStyle::Unix, "a/./b"));
    assert!(!is_scoped_relative_path(PathStyle::Unix, ""));
    assert!(!is_scoped_relative_path(PathStyle::Unix, "/etc/passwd"));
    assert!(!is_scoped_relative_path(PathStyle::Unix, "./a"));
    assert!(!is_scoped_relative_path(PathStyle::Unix, "a/../b"));
    assert!(!is_scoped_relative_path(PathStyle::Unix, "src/.git/config"));
    assert!(!is_scoped_relative_path(PathStyle::Unix, ".codex"));
}

#[test]
fn record_reports_risky_files_in_path_order_and_supplied_metadata() {
    let before = snapshot(&[
        ("z.bin", SnapshotEntry::Content(vec![0, 1])),
        ("gone.ts", SnapshotEntry::Content(b"x\n".to_vec())),
        ("keep.ts", SnapshotEntry::Content(b"a\n".to_vec())),
    ]);
    let after = snapshot(&[
        ("z.bin", SnapshotEntry::Content(vec![0, 2])),
        ("keep.ts", SnapshotEntry::Content(b"b\n".to_vec())),
    ]);
    let supplied = CompletionMetadata {
        task: Some("Fix the bug".to_string()),
        plan: Some(vec!["  ".to_string(), "Use a map".to_string()]),
        completion: None,
        tests: None,
    };
    let analysis = build_analysis(PathStyle::Unix, "C:/project", &before, &after, supplied).unwrap().unwrap();
    let record = &analysis.record;
    assert_eq!(record.summary, "3 files changed since the watch-start snapshot.");
    assert_eq!(record.purpose, "Fix the bug");
    assert_eq!(record.key_decisions, vec!["Use a map"]);
    assert_eq!(
        record.risk,
        "Review deleted, binary, or unavailable content: gone.ts, z.bin."
    );
    assert_eq!(record.review_priority, "high");
    assert_eq!(analysis.metadata.changed_file_count, 3);
    assert_eq!(analysis.metadata.source, "local-snapshot");
    assert_eq!(analysis.metadata.completion, "explicit");
}

#[test]
fn record_of_one_text_file_is_honest_about_unknowns() {
    let files = vec![ScopedFileContext {
        path: "a.rs".to_string(),
        status: FileChangeStatus::Added,
        content_status: ContentStatus::Text,
        before: None,
        after: Some("fn main() {}".to_string()),
    }];
    let context = AnalysisContext {
        project_path: "p".to_string(),
        diff: codex_mentor::diff::DiffState::idle(),
        files,
        supplied: CompletionMetadata {
            task: Some("   ".to_string()),
            plan: None,
            completion: None,
            tests: None,
        },
    };
    let record = record_from_context(&context);
    assert_eq!(record.summary, "1 file changed since the watch-start snapshot.");
    assert_eq!(record.purpose, "Unknown: task purpose was not supplied.");
    assert_eq!(record.risk, "Unknown: risk assessment was not supplied.");
    assert_eq!(record.review_priority, "Unknown: review priority was not supplied.");
    assert!(record.key_decisions.is_empty());
    assert_eq!(record.programming_concepts, vec!["functions"]);
}

#[test]
fn decimal_numbers_have_no_leading_zeros() {
    assert_eq!(decimal_string(0), "0");
    assert_eq!(decimal_string(7), "7");
    assert_eq!(decimal_string(1200), "1200");
    assert_eq!(decimal_string(u64::MAX), "18446744073709551615");
}

#[test]
fn default_concept_map_builds_on_functions() {
    let map = default_concept_map();
    assert_eq!(map.len(), 3);
    assert_eq!(map[1].prerequisites, vec!["functions"]);
    assert_eq!(
        concepts_from_texts(&texts(&["async function load() { await fetch(); }"]), Some(map)),
        vec!["functions", "async-await"]
    );
}

#[test]
fn masking_keeps_or_blanks_each_character_and_every_line_feed() {
    let text: Vec<char> = "fn é() { // ünï\n let s = \"x\\\ny\"; /* a\n*/ }".chars().collect();
    let masked = mask_non_code(&text);
    assert_eq!(masked.len(), text.len());
    for (m, c) in masked.iter().zip(text.iter()) {
        assert!(*m == *c || *m == ' ');
        assert_eq!(*m == '\n', *c == '\n');
        assert!(m.is_ascii());
    }
}

#[test]
fn paths_outside_the_scope_do_not_change_the_analysis() {
    let before = snapshot(&[("src/app.ts", SnapshotEntry::Content(b"old\n".to_vec()))]);
    let after = snapshot(&[("src/app.ts", SnapshotEntry::Content(b"new\n".to_vec()))]);
    let noisy_before = snapshot(&[
        ("src/app.ts", SnapshotEntry::Content(b"old\n".to_vec())),
        (".git/index", SnapshotEntry::Content(b"a".to_vec())),
        ("../outside.ts", SnapshotEntry::Content(b"x".to_vec())),
    ]);
    let noisy_after = snapshot(&[
        ("src/app.ts", SnapshotEntry::Content(b"new\n".to_vec())),
        (".git/index", SnapshotEntry::Content(b"b".to_vec())),
        (".codex/session.json", SnapshotEntry::Content(b"y".to_vec())),
    ]);
    let clean = build_analysis(PathStyle::Unix, "C:/project", &before, &after, CompletionMetadata::default()).unwrap();
    let noisy = build_analysis(PathStyle::Unix, "C:/project", &noisy_before, &noisy_after, CompletionMetadata::default()).unwrap();
    assert_eq!(clean, noisy);
    assert!(build_analysis(PathStyle::Unix, "C:/project", &before, &before, CompletionMetadata::default()).unwrap().is_none());
    let only_metadata = snapshot(&[
        ("src/app.ts", SnapshotEntry::Content(b"old\n".to_vec())),
        (".git/index", SnapshotEntry::Content(b"changed".to_vec())),
    ]);
    assert!(build_analysis(PathStyle::Unix, "C:/project", &before, &only_metadata, CompletionMetadata::default()).unwrap().is_none());
}

#[test]
fn scoped_paths_follow_the_path_style() {
    assert!(is_scoped_relative_path(PathStyle::Unix, "a\\.git"));
    assert!(!is_scoped_relative_path(PathStyle::Windows, "a\\.git"));
    assert!(!is_scoped_relative_path(PathStyle::Windows, "\\etc"));
    assert!(is_scoped_relative_path(PathStyle::Unix, "\\etc"));
}

#[test]
fn context_files_pair_with_their_diff_records() {
    let before = snapshot(&[
        ("src/a.ts", SnapshotEntry::Content(b"old\n".to_vec())),
        ("src/gone.ts", SnapshotEntry::Unavailable),
    ]);
    let after = snapshot(&[
        ("src/a.ts", SnapshotEntry::Content(b"new\n".to_vec())),
        ("src/b.bin", SnapshotEntry::Content(vec![0, 159])),
    ]);
    let context = build_context(PathStyle::Unix, "C:/project", &before, &after, CompletionMetadata::default())
        .unwrap()
        .unwrap();
    assert_eq!(context.files.len(), context.diff.files.len());
    for (file, record) in context.files.iter().zip(context.diff.files.iter()) {
        assert_eq!(file.path, record.path);
        assert_eq!(file.status, record.status);
        assert_eq!(file.content_status, record.content_status);
    }
    assert_eq!(
        context.files.iter().map(|file| file.path.as_str()).collect::<Vec<_>>(),
        vec!["src/a.ts", "src/b.bin", "src/gone.ts"]
    );
}
