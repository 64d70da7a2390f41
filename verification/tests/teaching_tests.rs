use codex_mentor::analysis::{AnalysisMetadata, ChangeAnalysis, ChangeRecord, CompletionMetadata, ScopedFileContext};
use codex_mentor::diff::ContentStatus;
use codex_mentor::teaching::{
    build_teaching_prompt, build_teaching_prompt_with_memory, level_depth_rules,
    load_teaching_source, memory_depth_rules, teaching_outcome, TeachingLevel, TeachingRuntime,
    TeachingSources,
};
use codex_mentor::watcher::{FileChangeStatus, MentorContext};

fn context() -> MentorContext {
    MentorContext {
        project_path: "C:/project".to_string(),
        generation: 4,
        analysis: ChangeAnalysis {
            record: ChangeRecord {
                summary: "A function changed".to_string(),
                purpose: "Teach the flow".to_string(),
                changed_components: vec!["src/lib.rs".to_string()],
                key_decisions: vec![],
                how_it_works: "The function returns a value.".to_string(),
                impact: "Local".to_string(),
                risk: "Low".to_string(),
                review_priority: "Normal".to_string(),
                programming_concepts: vec!["functions".to_string()],
                relevant_code_locations: vec!["src/lib.rs".to_string()],
            },
            metadata: AnalysisMetadata {
                project_path: "C:/project".to_string(),
                source: "snapshot".to_string(),
                completion: "complete".to_string(),
                completion_generation: 4,
                changed_file_count: 1,
                supplied: CompletionMetadata::default(),
            },
            frozen_files: vec![ScopedFileContext {
                path: "src/lib.rs".to_string(),
                status: FileChangeStatus::Modified,
                content_status: ContentStatus::Text,
                before: Some("old".to_string()),
                after: Some("new".to_string()),
            }],
        },
    }
}

#[test]
fn prompt_names_the_level_and_refuses_other_files() {
    let context = context();
    let prompt = build_teaching_prompt(
        &TeachingLevel::Intermediate,
        &context,
        Some("src/lib.rs"),
        "SOURCE",
        "{\"selectedFrozenFile\":{\"path\":\"src/lib.rs\"}}",
    )
    .unwrap();
    assert!(prompt.contains("Selected level: intermediate"));
    assert!(prompt.contains("src/lib.rs"));
    assert!(prompt.contains("Teaching Source:\nSOURCE"));
    assert!(prompt.contains("Matching Learning Memory (only concepts from this current Change Record):\n[]"));
    assert!(build_teaching_prompt(&TeachingLevel::Beginner, &context, Some("other.rs"), "S", "{}").is_err());
    assert!(build_teaching_prompt(&TeachingLevel::Beginner, &context, Some("  "), "S", "{}").is_err());
}

#[test]
fn only_the_requested_level_rules_are_in_the_prompt() {
    let prompt = build_teaching_prompt_with_memory(
        &TeachingLevel::Beginner,
        &context(),
        None,
        "S",
        "[{\"timesEncountered\":2}]",
        "{}",
    )
    .unwrap();
    assert!(prompt.contains("status as user-controlled"));
    assert!(prompt.contains("\"timesEncountered\":2"));
    assert!(prompt.contains("Proceed step by step"));
    assert!(prompt.contains(memory_depth_rules(&TeachingLevel::Beginner)));
    assert!(!prompt.contains("Focus on architecture, data flow, abstraction"));
    assert!(level_depth_rules(&TeachingLevel::Intermediate).contains("Focus on architecture"));
}

fn sources(map: &str) -> TeachingSources {
    TeachingSources {
        guide: "# Teaching rules".to_string(),
        concept_map: map.to_string(),
        functions: "functions".to_string(),
        api: "api".to_string(),
        async_await: "async".to_string(),
    }
}

#[test]
fn teaching_source_needs_three_concepts_and_every_page() {
    let map = r#"{"concepts":[{"id":"a"},{"id":"b"},{"id":"c"}]}"#;
    let text = load_teaching_source(&sources(map)).unwrap();
    assert!(text.starts_with("# Teaching rules\n\n{"));
    assert!(text.ends_with("\n\nfunctions\n\napi\n\nasync"));
    assert_eq!(
        load_teaching_source(&sources(r#"{"concepts":[]}"#)),
        Err("Teaching Source is incomplete".to_string())
    );
    assert_eq!(
        load_teaching_source(&sources(r#"{"other":1}"#)),
        Err("Teaching Source concept map has no concepts".to_string())
    );
    assert!(load_teaching_source(&sources("nope"))
        .unwrap_err()
        .starts_with("Teaching Source concept map is invalid: "));
    let mut blank = sources(map);
    blank.api = "  ".to_string();
    assert_eq!(load_teaching_source(&blank), Err("Teaching Source is incomplete".to_string()));
}

#[test]
fn teaching_requests_publish_only_while_in_flight() {
    let mut runtime = TeachingRuntime::new();
    let id = runtime.begin_request().unwrap();
    assert_eq!(runtime.state.status, "loading");
    assert!(runtime.begin_request().is_err());
    assert_eq!(runtime.reset(), Some(id));
    let outcome = teaching_outcome(TeachingLevel::Beginner, 4, Ok("Explained".to_string()));
    assert!(!runtime.finish(id, outcome.clone()));
    assert_eq!(runtime.state.status, "idle");
    let next = runtime.begin_request().unwrap();
    assert!(runtime.finish(next, outcome));
    assert_eq!(runtime.state.status, "available");
    assert_eq!(runtime.state.answer.as_ref().unwrap().generation, 4);
}

#[test]
fn level_is_explicit_and_prompt_is_scoped() {
    let context = context();
    let evidence = r#"{"changeRecord":{"changedComponents":["src/lib.rs"]},"selectedFrozenFile":{"path":"src/lib.rs"}}"#;
    let prompt =
        build_teaching_prompt(&TeachingLevel::Intermediate, &context, Some("src/lib.rs"), "S", evidence).unwrap();
    assert!(prompt.contains("Selected level: intermediate"));
    assert!(prompt.contains("src/lib.rs"));
    assert!(build_teaching_prompt(&TeachingLevel::Beginner, &context, Some("other.rs"), "S", "{}").is_err());
}

#[test]
fn memory_and_only_requested_level_rules_are_in_prompt() {
    let mut record = serde_json::Map::new();
    record.insert("concept".to_string(), serde_json::Value::from("functions"));
    record.insert("timesEncountered".to_string(), serde_json::Value::from(2));
    record.insert("status".to_string(), serde_json::Value::from("Learning"));
    record.insert("lastEncountered".to_string(), serde_json::Value::from("2026-08-14T01:02:03.000Z"));
    record.insert(
        "projectsEncountered".to_string(),
        serde_json::Value::Array(vec![serde_json::Value::from("C:/project")]),
    );
    let memory = serde_json::to_string(&serde_json::Value::Array(vec![serde_json::Value::Object(record)])).unwrap();
    let prompt =
        build_teaching_prompt_with_memory(&TeachingLevel::Beginner, &context(), None, "S", &memory, "{}").unwrap();
    assert!(prompt.contains("status as user-controlled"));
    assert!(prompt.contains("\"timesEncountered\":2"));
    assert!(prompt.contains("Proceed step by step"));
    assert!(!prompt.contains("Focus on architecture, data flow, abstraction"));
}
