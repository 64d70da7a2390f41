use codex_mentor::analysis::{AnalysisMetadata, ChangeAnalysis, ChangeRecord, CompletionMetadata, ScopedFileContext};
use codex_mentor::diff::ContentStatus;
use codex_mentor::mentor::{
    compact_text, completion_state, disallowed_item, disallowed_method, finalize_protocol_result,
    frame_prompt, parse_structured_text, prepare_question, selected_frozen_file,
    turn_event_matches, AskMentorRequest, MentorRuntime, MentorStatus, ProtocolAction,
    ProtocolEvent, ProtocolFailure, ProtocolItem, ProtocolMessage, ProtocolSession, SandboxPolicy,
    ThreadStartRequest, TurnStartRequest, TIMEOUT_ERROR, thread_start_request, turn_start_request,
};
use codex_mentor::watcher::FileChangeStatus;

fn analysis() -> ChangeAnalysis {
    ChangeAnalysis {
        record: ChangeRecord {
            summary: "One file changed".to_string(),
            purpose: "Unknown: task purpose was not supplied.".to_string(),
            changed_components: vec!["src/main.ts".to_string()],
            key_decisions: vec![],
            how_it_works: "Snapshots are compared.".to_string(),
            impact: "Unknown: runtime and product impact was not supplied.".to_string(),
            risk: "Unknown: risk assessment was not supplied.".to_string(),
            review_priority: "Unknown: review priority was not supplied.".to_string(),
            programming_concepts: vec![],
            relevant_code_locations: vec!["src/main.ts".to_string()],
        },
        metadata: AnalysisMetadata {
            project_path: "C:/project".to_string(),
            source: "local-snapshot".to_string(),
            completion: "explicit".to_string(),
            completion_generation: 2,
            changed_file_count: 1,
            supplied: CompletionMetadata::default(),
        },
        frozen_files: vec![ScopedFileContext {
            path: "src/main.ts".to_string(),
            status: FileChangeStatus::Modified,
            content_status: ContentStatus::Text,
            before: Some("before\n".to_string()),
            after: Some("after\n".to_string()),
        }],
    }
}

fn empty() -> ProtocolMessage {
    ProtocolMessage {
        method: None,
        has_id: false,
        id: None,
        error_message: None,
        has_result: false,
        result_thread_id: None,
        result_turn_id: None,
        has_params: false,
        params_thread_id: None,
        params_thread_object_id: None,
        params_turn_id: None,
        params_turn_object_id: None,
        params_item_id: None,
        item: None,
        delta: None,
        params_text: None,
        turn_status: None,
        turn_error_message: None,
        params_error_message: None,
    }
}

fn response(id: u64) -> ProtocolMessage {
    ProtocolMessage { has_id: true, id: Some(id), has_result: true, ..empty() }
}

fn thread_response(id: u64, thread: &str) -> ProtocolMessage {
    ProtocolMessage { result_thread_id: Some(thread.to_string()), ..response(id) }
}

fn turn_response(id: u64, turn: &str) -> ProtocolMessage {
    ProtocolMessage { result_turn_id: Some(turn.to_string()), ..response(id) }
}

fn item(id: &str, kind: &str, text: Option<&str>) -> ProtocolItem {
    ProtocolItem {
        id: Some(id.to_string()),
        item_type: Some(kind.to_string()),
        text: text.map(str::to_string),
        thread_id: None,
        turn_id: None,
    }
}

fn item_event(method: &str, item: ProtocolItem) -> ProtocolMessage {
    ProtocolMessage {
        method: Some(method.to_string()),
        has_params: true,
        item: Some(item),
        ..empty()
    }
}

fn delta(item_id: &str, text: &str) -> ProtocolMessage {
    ProtocolMessage {
        method: Some("item/agentMessage/delta".to_string()),
        has_params: true,
        params_item_id: Some(item_id.to_string()),
        delta: Some(text.to_string()),
        ..empty()
    }
}

fn turn_completed(thread: Option<&str>, turn: &str, status: &str) -> ProtocolMessage {
    ProtocolMessage {
        method: Some("turn/completed".to_string()),
        has_params: true,
        params_thread_id: thread.map(str::to_string),
        params_turn_object_id: Some(turn.to_string()),
        turn_status: Some(status.to_string()),
        ..empty()
    }
}

/// Runs a conversation over the given messages as the app does, and gives
/// its outcome and the methods it sent.
struct Transcript {
    result: Result<String, ProtocolFailure>,
    methods: Vec<String>,
    thread_start: Option<ThreadStartRequest>,
    turn_start: Option<TurnStartRequest>,
}

fn run_protocol_transcript(messages: Vec<ProtocolMessage>) -> Transcript {
    let mut methods = vec!["initialize".to_string()];
    let mut thread_start = None;
    let mut turn_start = None;
    let mut session = ProtocolSession::new();
    let mut messages = messages.into_iter();
    let result = loop {
        let event = match messages.next() {
            Some(message) => ProtocolEvent::Message(message),
            None => ProtocolEvent::Deadline,
        };
        match session.step(event) {
            ProtocolAction::Wait => {}
            ProtocolAction::StartThread => {
                methods.push("initialized".to_string());
                methods.push("thread/start".to_string());
                thread_start = Some(thread_start_request("C:/project"));
            }
            ProtocolAction::StartTurn => {
                methods.push("turn/start".to_string());
                let thread = session.thread.clone().unwrap_or_default();
                turn_start = Some(turn_start_request(&thread, "Why?", "C:/project"));
            }
            ProtocolAction::Reject(failure) => {
                methods.push("rejection".to_string());
                break Err(failure);
            }
            ProtocolAction::Interrupt(failure) => {
                methods.push("turn/interrupt".to_string());
                break Err(failure);
            }
            ProtocolAction::Finish(result) => break result,
        }
    };
    if session.thread.is_some() {
        methods.push("thread/delete".to_string());
    }
    Transcript { result, methods, thread_start, turn_start }
}

fn run_protocol(messages: Vec<ProtocolMessage>) -> (Result<String, ProtocolFailure>, Vec<String>) {
    let transcript = run_protocol_transcript(messages);
    (transcript.result, transcript.methods)
}

fn handshake() -> Vec<ProtocolMessage> {
    vec![response(1), thread_response(2, "thread-1"), turn_response(3, "turn-1")]
}

#[test]
fn cleanup_deadline_cannot_override_primary_protocol_outcome() {
    assert_eq!(
        finalize_protocol_result(Ok("answer".to_string()), false, true),
        Ok("answer".to_string())
    );
    assert_eq!(
        finalize_protocol_result(
            Err(ProtocolFailure::Error("server rejected the turn".to_string())),
            false,
            true,
        ),
        Err("server rejected the turn".to_string())
    );
    assert_eq!(
        finalize_protocol_result(Err(ProtocolFailure::Error(TIMEOUT_ERROR.to_string())), false, true),
        Err(TIMEOUT_ERROR.to_string())
    );
}

#[test]
fn cancellation_wins_over_every_outcome() {
    assert_eq!(
        finalize_protocol_result(Ok("answer".to_string()), true, false),
        Err("Ask Mentor was cancelled".to_string())
    );
    assert_eq!(
        finalize_protocol_result(Err(ProtocolFailure::Cancelled), false, false),
        Err("Ask Mentor was cancelled".to_string())
    );
}

#[test]
fn selected_path_must_match_frozen_file_exactly() {
    let result = selected_frozen_file(&analysis(), Some("src\\main.ts"));
    assert!(result.is_err());
    assert_eq!(selected_frozen_file(&analysis(), Some("src/main.ts")), Ok(Some(0)));
    assert_eq!(selected_frozen_file(&analysis(), None), Ok(None));
}

#[test]
fn malformed_and_empty_structured_answers_are_rejected() {
    assert!(parse_structured_text("plain text").is_err());
    assert!(parse_structured_text(r#"{"answer":"  "}"#).is_err());
    assert_eq!(parse_structured_text(r#"{"answer":"Looks good."}"#).unwrap(), "Looks good.");
    assert_eq!(parse_structured_text("  {\"answer\":\" padded \"}\n").unwrap(), "padded");
}

#[test]
fn protocol_sends_handshake_restrictions_and_prefers_completed_message() {
    let mut messages = handshake();
    messages.push(item_event("item/started", item("item-1", "agentMessage", None)));
    messages.push(delta("item-1", r#"{"answer":"streamed"}"#));
    messages.push(item_event(
        "item/completed",
        item("item-1", "agentMessage", Some(r#"{"answer":"completed"}"#)),
    ));
    messages.push(turn_completed(Some("thread-1"), "turn-1", "completed"));
    let transcript = run_protocol_transcript(messages);
    assert_eq!(transcript.result, Ok("completed".to_string()));
    let sent = &transcript.methods;
    assert_eq!(sent[0], "initialize");
    assert_eq!(sent[1], "initialized");
    assert_eq!(sent[2], "thread/start");
    assert_eq!(sent[3], "turn/start");
    let thread_start = transcript.thread_start.unwrap();
    assert_eq!(thread_start.sandbox, "read-only");
    assert_eq!(thread_start.approval_policy, "never");
    let turn_start = transcript.turn_start.unwrap();
    assert_eq!(turn_start.thread_id, "thread-1");
    assert_eq!(turn_start.approval_policy, "never");
    assert_eq!(
        turn_start.sandbox_policy,
        SandboxPolicy { kind: "readOnly".to_string(), network_access: false }
    );
}

#[test]
fn protocol_accepts_completed_message_without_started_notification() {
    let mut messages = handshake();
    messages.push(item_event(
        "item/completed",
        item("item-1", "agentMessage", Some(r#"{"answer":"completed"}"#)),
    ));
    messages.push(turn_completed(Some("thread-1"), "turn-1", "completed"));
    let (result, _) = run_protocol(messages);
    assert_eq!(result.unwrap(), "completed");
}

#[test]
fn protocol_ignores_interleaved_agent_items() {
    let mut messages = handshake();
    messages.push(item_event("item/started", item("item-1", "agentMessage", None)));
    messages.push(delta("item-other", r#"{"answer":"wrong-item"}"#));
    messages.push(item_event("item/started", item("item-other", "agentMessage", None)));
    messages.push(item_event("item/completed", item("tool-item", "commandExecution", None)));
    messages.push(delta("item-1", r#"{"answer":"right"}"#));
    messages.push(item_event(
        "item/completed",
        item("item-other", "agentMessage", Some(r#"{"answer":"wrong-completed"}"#)),
    ));
    messages.push(item_event(
        "item/completed",
        item("item-1", "agentMessage", Some(r#"{"answer":"right-completed"}"#)),
    ));
    messages.push(turn_completed(Some("thread-1"), "turn-other", "completed"));
    messages.push(turn_completed(Some("thread-1"), "turn-1", "completed"));
    let (result, sent) = run_protocol(messages);
    assert_eq!(result.unwrap(), "right-completed");
    assert!(sent.iter().any(|method| method == "thread/delete"));
}

#[test]
fn protocol_rejects_tool_items() {
    let mut messages = handshake();
    messages.push(item_event("item/started", item("tool-item", "commandExecution", None)));
    let (result, sent) = run_protocol(messages);
    assert!(
        matches!(result, Err(ProtocolFailure::Error(message)) if message.contains("unsupported Codex tool item") || message.contains("unsupported Codex request"))
    );
    assert!(sent.iter().any(|method| method == "thread/delete"));
}

#[test]
fn interrupted_turn_is_explicit_cancellation() {
    let mut messages = handshake();
    messages.push(turn_completed(Some("thread-1"), "turn-1", "interrupted"));
    let (result, sent) = run_protocol(messages);
    assert_eq!(result, Err(ProtocolFailure::Cancelled));
    assert!(sent.iter().any(|method| method == "thread/delete"));
}

#[test]
fn turn_completion_correlates_present_thread_and_exact_turn_ids() {
    let thread = "thread-1".to_string();
    let turn = "turn-1".to_string();
    let documented_without_thread = turn_completed(None, "turn-1", "completed");
    let wrong_thread = turn_completed(Some("thread-other"), "turn-1", "completed");
    let wrong_turn = turn_completed(Some("thread-1"), "turn-other", "completed");
    let exact = turn_completed(Some("thread-1"), "turn-1", "completed");

    assert!(turn_event_matches(&documented_without_thread, &thread, &turn));
    assert!(!turn_event_matches(&wrong_thread, &thread, &turn));
    assert!(!turn_event_matches(&wrong_turn, &thread, &turn));
    assert!(turn_event_matches(&exact, &thread, &turn));

    let error_missing_thread = ProtocolMessage {
        method: Some("error".to_string()),
        has_params: true,
        params_turn_id: Some("turn-1".to_string()),
        params_error_message: Some("failed".to_string()),
        ..empty()
    };
    let error_exact = ProtocolMessage {
        params_thread_id: Some("thread-1".to_string()),
        ..error_missing_thread.clone()
    };
    assert!(!turn_event_matches(&error_missing_thread, &thread, &turn));
    assert!(turn_event_matches(&error_exact, &thread, &turn));
}

#[test]
fn server_requests_and_unexpected_responses_end_the_conversation() {
    let request = ProtocolMessage {
        method: Some("item/commandExecution/requestApproval".to_string()),
        has_id: true,
        id: Some(7),
        has_params: true,
        ..empty()
    };
    let (result, sent) = run_protocol(vec![response(1), request]);
    assert_eq!(
        result,
        Err(ProtocolFailure::Error(
            "Ask Mentor rejected unsupported Codex request: item/commandExecution/requestApproval"
                .to_string()
        ))
    );
    assert_eq!(sent.last().unwrap(), "rejection");
    let (wrong, _) = run_protocol(vec![response(2)]);
    assert_eq!(
        wrong,
        Err(ProtocolFailure::Error(
            "Codex returned an unexpected response while calling initialize".to_string()
        ))
    );
    let failing = ProtocolMessage { error_message: Some("no".to_string()), ..response(1) };
    assert_eq!(
        run_protocol(vec![failing]).0,
        Err(ProtocolFailure::Error("Codex initialize failed: no".to_string()))
    );
    let (timeout, sent) = run_protocol(handshake());
    assert_eq!(timeout, Err(ProtocolFailure::Error(TIMEOUT_ERROR.to_string())));
    assert!(sent.iter().any(|method| method == "thread/delete"));
}

#[test]
fn cancelling_a_running_turn_interrupts_it() {
    let mut session = ProtocolSession::new();
    for message in handshake() {
        let _ = session.step(ProtocolEvent::Message(message));
    }
    assert!(matches!(
        session.step(ProtocolEvent::Cancel),
        ProtocolAction::Interrupt(ProtocolFailure::Cancelled)
    ));
    let mut fresh = ProtocolSession::new();
    assert!(matches!(
        fresh.step(ProtocolEvent::Cancel),
        ProtocolAction::Finish(Err(ProtocolFailure::Cancelled))
    ));
}

#[test]
fn disallowed_methods_and_items_are_recognized() {
    assert!(disallowed_method("item/commandExecution/requestApproval"));
    assert!(disallowed_method("MCP/server"));
    assert!(!disallowed_method("item/agentMessage/delta"));
    assert!(disallowed_item(Some("webSearch")));
    assert!(!disallowed_item(Some("agentMessage")));
    assert!(!disallowed_item(None));
}

#[test]
fn long_evidence_is_compacted_with_a_note() {
    let short = "a".repeat(4000);
    assert_eq!(compact_text(&short), short);
    let long = "é".repeat(4001);
    let compact = compact_text(&long);
    assert!(compact.starts_with(&"é".repeat(4000)));
    assert!(compact.ends_with("\n[truncated by Mentor; supplied evidence continues]"));
    assert_eq!(compact.chars().count(), 4000 + 51);
}

#[test]
fn prompt_frames_the_trimmed_question_and_evidence() {
    let prompt = frame_prompt("  Why?  ", "{}");
    assert!(prompt.contains("only the supplied current-change evidence"));
    assert!(prompt.contains("Question:\nWhy?\n\nSupplied current-change evidence (JSON):\n{}"));
}

#[test]
fn mentor_requests_publish_only_while_in_flight() {
    let mut runtime = MentorRuntime::new();
    let (question, selected) = prepare_question(AskMentorRequest {
        question: "  Why?  ".to_string(),
        selected_path: Some("  ".to_string()),
    })
    .unwrap();
    assert_eq!(question, "Why?");
    assert_eq!(selected, None);
    assert!(prepare_question(AskMentorRequest { question: " ".to_string(), selected_path: None }).is_err());
    let id = runtime.begin_request(question.clone(), selected.clone()).unwrap();
    assert_eq!(runtime.state.status, MentorStatus::Loading);
    assert!(runtime.begin_request("again".to_string(), None).is_err());
    assert_eq!(runtime.cancel(), Ok(id));
    let done = completion_state(question, selected, 2, Ok("answer".to_string()));
    assert!(!runtime.set_state(id, done));
    assert_eq!(runtime.state.status, MentorStatus::Error);
    assert_eq!(runtime.state.error.as_deref(), Some("Ask Mentor was cancelled"));
    assert_eq!(runtime.reset(), None);
    assert_eq!(runtime.state.status, MentorStatus::Idle);
}

#[test]
fn turn_requests_carry_the_prompt_and_read_only_restrictions() {
    let turn = turn_start_request("thread-7", "Explain", "/p");
    assert_eq!(turn.id, 3);
    assert_eq!(turn.thread_id, "thread-7");
    assert_eq!(turn.prompt, "Explain");
    assert_eq!(turn.cwd, "/p");
    assert_eq!(turn.answer_member, "answer");
    assert!(!turn.sandbox_policy.network_access);
    let thread = thread_start_request("/p");
    assert_eq!(thread.id, 2);
    assert_eq!(thread.cwd, "/p");
}
