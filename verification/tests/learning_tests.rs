use codex_mentor::learning::{
    check_schema_columns, check_schema_constraints, civil_date_from_days, dedupe_projects,
    encounter_record, normalize_concept, normalize_concepts, normalize_project, parse_projects,
    plan_schema, projects_json, record_from_values, status_from_database, timestamp_text,
    LearningMemoryRecord, LearningMemoryRuntime, LearningMemoryStateStatus, LearningStatus,
    SchemaAction,
};

fn strings(items: &[&str]) -> Vec<String> {
    items.iter().map(|item| item.to_string()).collect()
}

#[test]
fn normalizes_and_deduplicates_current_concepts() {
    let concepts = vec![
        " Functions ".to_string(),
        "functions".to_string(),
        "FUNCTIONS".to_string(),
        " async   await ".to_string(),
        "".to_string(),
    ];
    assert_eq!(
        normalize_concepts(&concepts),
        vec!["async await".to_string(), "functions".to_string()]
    );
}

#[test]
fn reverse_generation_reservation_keeps_newer_scope() {
    let mut runtime = LearningMemoryRuntime::new();
    let newer_concepts = vec!["new concept".to_string()];
    let newer_revision = runtime.reserve_revision(newer_concepts.clone(), 8).unwrap();

    let stale = runtime.reserve_revision(vec!["old concept".to_string()], 7);

    assert!(stale.unwrap_err().contains("stale analysis generation"));
    assert_eq!(runtime.analysis_generation, Some(8));
    assert_eq!(runtime.relevant_concepts, newer_concepts);
    assert_eq!(runtime.next_revision, newer_revision);
}

#[test]
fn same_generation_stale_concepts_cannot_reserve_a_revision() {
    let mut runtime = LearningMemoryRuntime::new();
    let current_concepts = vec!["functions".to_string()];
    let current_revision = runtime.reserve_revision(current_concepts.clone(), 8).unwrap();

    let stale = runtime.reserve_revision(vec!["loops".to_string()], 8);

    assert!(stale.unwrap_err().contains("current Change Record scope"));
    assert_eq!(runtime.analysis_generation, Some(8));
    assert_eq!(runtime.relevant_concepts, current_concepts);
    assert_eq!(runtime.next_revision, current_revision);
}

#[test]
fn timestamps_are_explicit_utc_text() {
    let now = std::time::SystemTime::now()
        .duration_since(std::time::UNIX_EPOCH)
        .unwrap_or_default();
    assert!(timestamp_text(now.as_secs() as i64, now.subsec_millis()).ends_with('Z'));
    assert_eq!(civil_date_from_days(0), (1970, 1, 1));
    assert_eq!(civil_date_from_days(20_000), (2024, 10, 4));
}

#[test]
fn timestamps_pad_every_field() {
    assert_eq!(timestamp_text(0, 0), "1970-01-01T00:00:00.000Z");
    assert_eq!(timestamp_text(1_723_597_323, 7), "2024-08-14T01:02:03.007Z");
    assert_eq!(civil_date_from_days(-1), (1969, 12, 31));
    assert_eq!(civil_date_from_days(11_016), (2000, 2, 29));
}

#[test]
fn stale_stale_revision_cannot_publish_and_status_updates_need_the_scope() {
    let mut runtime = LearningMemoryRuntime::new();
    assert_eq!(
        runtime.reserve_status_revision(3).unwrap_err(),
        "The status update does not match the current Change Record"
    );
    let first = runtime.reserve_revision(strings(&["functions"]), 3).unwrap();
    let (concepts, second) = runtime.reserve_status_revision(3).unwrap();
    assert_eq!(concepts, strings(&["functions"]));
    assert!(second > first);
    assert!(!runtime.publish_state(
        first,
        strings(&["functions"]),
        Some(3),
        LearningMemoryStateStatus::Available,
        Vec::new(),
        None,
    ));
    assert_eq!(runtime.state.revision, 0);
    assert!(runtime.publish_state(
        second,
        strings(&["functions"]),
        Some(3),
        LearningMemoryStateStatus::Available,
        Vec::new(),
        None,
    ));
    assert_eq!(runtime.state.revision, second);
    assert_eq!(runtime.state.status, LearningMemoryStateStatus::Available);
}

#[test]
fn statuses_round_trip_through_the_database_text() {
    for status in [LearningStatus::New, LearningStatus::Learning, LearningStatus::Familiar] {
        assert_eq!(status_from_database(status.as_database_value()), Ok(status));
    }
    assert_eq!(
        status_from_database("new"),
        Err("Learning Memory contains an invalid status: new".to_string())
    );
}

#[test]
fn concepts_and_projects_normalize_to_one_spelling() {
    assert_eq!(normalize_concept("  Async\tAwait \n"), Some("async await".to_string()));
    assert_eq!(normalize_concept(" \t "), None);
    assert_eq!(normalize_concept("ÄPI"), Some("äpi".to_string()));
    assert_eq!(normalize_project("  C:/one "), Some("C:/one".to_string()));
    assert_eq!(normalize_project("   "), None);
    assert_eq!(
        dedupe_projects(strings(&["C:/two", " C:/one", "C:/two ", ""])),
        strings(&["C:/one", "C:/two"])
    );
}

#[test]
fn stored_project_lists_must_be_canonical_json() {
    assert_eq!(parse_projects(r#"["C:/one","C:/two"]"#), Ok(strings(&["C:/one", "C:/two"])));
    assert_eq!(
        parse_projects(r#"["C:/two","C:/one"]"#),
        Err("Learning Memory contains a non-deduplicated project list".to_string())
    );
    assert_eq!(
        parse_projects(r#"[" C:/one"]"#),
        Err("Learning Memory contains a non-deduplicated project list".to_string())
    );
    assert!(parse_projects("not json")
        .unwrap_err()
        .starts_with("Learning Memory contains invalid project JSON: "));
    assert_eq!(projects_json(&strings(&["C:/one", "a\"b"])), Ok(r#"["C:/one","a\"b"]"#.to_string()));
}

#[test]
fn records_are_read_from_database_values() {
    let record = record_from_values(
        "api".to_string(),
        2,
        "Learning".to_string(),
        "2026-08-14T01:02:03.000Z".to_string(),
        r#"["C:/one"]"#.to_string(),
    )
    .unwrap();
    assert_eq!(record.status, LearningStatus::Learning);
    assert_eq!(record.projects_encountered, strings(&["C:/one"]));
    assert_eq!(
        record_from_values("api".into(), 0, "New".into(), "t".into(), "[]".into()),
        Err("Learning Memory contains an encounter count below 1".to_string())
    );
    assert!(record_from_values("api".into(), 1, "Done".into(), "t".into(), "[]".into()).is_err());
}

fn encounter(existing: Option<LearningMemoryRecord>, concept: &str, project: &str, at: &str) -> LearningMemoryRecord {
    encounter_record(existing, concept.to_string(), normalize_project(project), at.to_string()).unwrap()
}

#[test]
fn later_encounters_increment_once_and_preserve_user_status() {
    let concepts = normalize_concepts(&strings(&["api", "API"]));
    assert_eq!(concepts, strings(&["api"]));
    let first = encounter(None, &concepts[0], "C:/one", "2026-08-14T01:02:03.000Z");
    let first = LearningMemoryRecord { status: LearningStatus::Learning, ..first };
    assert_eq!(first.status, LearningStatus::Learning);

    let again = normalize_concepts(&strings(&[" api ", "API"]));
    assert_eq!(again, strings(&["api"]));
    let second = encounter(Some(first), &again[0], "C:/one", "2026-08-15T01:02:03.000Z");
    assert_eq!(second.times_encountered, 2);
    assert_eq!(second.status, LearningStatus::Learning);
    assert_eq!(second.last_encountered, "2026-08-15T01:02:03.000Z");
    assert_eq!(second.projects_encountered, strings(&["C:/one"]));

    let third = encounter(Some(second), "api", "C:/two", "2026-08-16T01:02:03.000Z");
    assert_eq!(third.times_encountered, 3);
    assert_eq!(third.status, LearningStatus::Learning);
    assert_eq!(third.projects_encountered, strings(&["C:/one", "C:/two"]));
}

#[test]
fn explicit_status_update_does_not_change_encounter_data() {
    let before = encounter(None, "loops", "C:/one", "2026-08-14T01:02:03.000Z");
    assert_eq!(before.status, LearningStatus::New);
    let after = LearningMemoryRecord { status: LearningStatus::Familiar, ..before.clone() };
    assert_eq!(after.times_encountered, before.times_encountered);
    assert_eq!(after.last_encountered, before.last_encountered);
    assert_eq!(after.projects_encountered, before.projects_encountered);
    assert_eq!(after.status, LearningStatus::Familiar);
}

#[test]
fn encounter_counts_cannot_overflow() {
    let full = LearningMemoryRecord {
        concept: "api".to_string(),
        times_encountered: i64::MAX,
        status: LearningStatus::New,
        last_encountered: "t".to_string(),
        projects_encountered: Vec::new(),
    };
    assert_eq!(
        encounter_record(Some(full), "api".to_string(), None, "u".to_string()),
        Err("Learning Memory encounter count overflowed".to_string())
    );
}

#[test]
fn future_schema_is_rejected_without_initializing_or_mutating_it() {
    let result = plan_schema(2, false);
    assert!(result.unwrap_err().contains("newer than supported"));
    assert_eq!(plan_schema(1, true), Ok(SchemaAction::Validate));
    assert_eq!(plan_schema(0, false), Ok(SchemaAction::Create));
    assert!(plan_schema(0, true).is_err());
}

#[test]
fn schema_checks_columns_and_constraints() {
    let columns = vec![
        ("concept".to_string(), 1, 1),
        ("times_encountered".to_string(), 1, 0),
        ("status".to_string(), 1, 0),
        ("last_encountered".to_string(), 1, 0),
        ("projects_encountered".to_string(), 1, 0),
    ];
    assert_eq!(check_schema_columns(&columns), Ok(()));
    let mut wrong = columns.clone();
    wrong[2].1 = 0;
    assert!(check_schema_columns(&wrong).is_err());
    let sql = "CREATE TABLE learning_memory (\n concept TEXT NOT NULL PRIMARY KEY,\n times_encountered INTEGER NOT NULL CHECK (times_encountered >= 1),\n status TEXT NOT NULL CHECK (status IN ('New', 'Learning', 'Familiar')),\n last_encountered TEXT NOT NULL,\n projects_encountered TEXT NOT NULL CHECK (\n json_valid(projects_encountered) = 1\n AND json_type(projects_encountered) = 'array'\n )\n);";
    assert_eq!(check_schema_constraints(sql), Ok(()));
    assert_eq!(
        check_schema_constraints("CREATE TABLE learning_memory (concept TEXT)"),
        Err("Learning Memory schema v1 constraints are incomplete".to_string())
    );
}

#[test]
fn day_counts_land_on_real_calendar_dates() {
    assert_eq!(civil_date_from_days(11_016), (2000, 2, 29));
    assert_eq!(civil_date_from_days(11_017), (2000, 3, 1));
    assert_eq!(civil_date_from_days(-25_509), (1900, 2, 28));
    assert_eq!(civil_date_from_days(-25_508), (1900, 3, 1));
    assert_eq!(civil_date_from_days(-719_468), (0, 3, 1));
    assert_eq!(civil_date_from_days(19_782), (2024, 2, 29));
    assert_eq!(civil_date_from_days(-1_000_000), (-768, 2, 4));
}

#[test]
fn timestamps_before_the_epoch_round_down_to_the_day() {
    assert_eq!(timestamp_text(-1, 0), "1969-12-31T23:59:59.000Z");
    assert_eq!(timestamp_text(-86_400, 5), "1969-12-31T00:00:00.005Z");
    assert_eq!(timestamp_text(-86_401, 0), "1969-12-30T23:59:59.000Z");
}

#[test]
fn extreme_day_counts_still_give_calendar_dates() {
    let (_, month, day) = civil_date_from_days(i64::MIN);
    assert!((1..=12).contains(&month) && (1..=31).contains(&day));
    let (_, month, day) = civil_date_from_days(i64::MAX - 719_468);
    assert!((1..=12).contains(&month) && (1..=31).contains(&day));
}

#[test]
fn project_lists_are_written_as_compact_escaped_json() {
    assert_eq!(projects_json(&Vec::new()), Ok("[]".to_string()));
    assert_eq!(
        projects_json(&strings(&["a\\b", "t\tab", "\u{1}\u{1f}", "é/\u{8}\u{c}\r\n"])),
        Ok(r#"["a\\b","t\tab","\u0001\u001f","é/\b\f\r\n"]"#.to_string())
    );
}

#[test]
fn ascii_concept_names_are_lowercased_and_spaced_once() {
    assert_eq!(normalize_concepts(&strings(&["  Async   AWAIT ", "API", "api", "\t"])), strings(&["api", "async await"]));
}

#[test]
fn normalizing_a_concept_name_twice_changes_nothing() {
    let once = normalize_concept("  Async \t AWAIT ").unwrap();
    assert_eq!(once, "async await");
    assert_eq!(normalize_concept(&once), Some(once.clone()));
}

#[test]
fn schema_v1_creates_new_records_with_new_status() {
    assert_eq!(plan_schema(0, false), Ok(SchemaAction::Create));
    let concepts = normalize_concepts(&strings(&[" Functions ", "functions"]));
    assert_eq!(concepts, strings(&["functions"]));
    let records: Vec<LearningMemoryRecord> = concepts
        .iter()
        .map(|concept| {
            encounter_record(
                None,
                concept.clone(),
                normalize_project("C:/one"),
                "2026-08-14T01:02:03.000Z".to_string(),
            )
            .unwrap()
        })
        .collect();
    assert_eq!(records.len(), 1);
    assert_eq!(records[0].concept, "functions");
    assert_eq!(records[0].times_encountered, 1);
    assert_eq!(records[0].status, LearningStatus::New);
    assert_eq!(records[0].projects_encountered, vec!["C:/one"]);
    assert_eq!(records[0].last_encountered, "2026-08-14T01:02:03.000Z");
}
