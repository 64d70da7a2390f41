//! Ask Mentor: the state of a question, the checks on what may be asked and
//! answered, and the decisions of the app-server conversation.

use vstd::prelude::*;
use crate::analysis::{blank, is_blank, opt_view, ChangeAnalysis};
use crate::text::{from_chars, owned, push_str, to_chars, trim, trimmed};

verus! {

/// The name of the event that carries the Ask Mentor state.
pub const MENTOR_STATE_EVENT: &'static str = "mentor-state";

/// The error of a conversation that ran out of time.
pub const TIMEOUT_ERROR: &'static str = "Ask Mentor timed out waiting for Codex";

#[derive(Clone, Copy, Debug, PartialEq, Eq, Structural)]
pub enum MentorStatus {
    Idle,
    Loading,
    Available,
    Error,
}

#[derive(Clone, Debug, PartialEq, Eq)]
pub struct MentorAnswer {
    pub answer: String,
    pub question: String,
    pub selected_path: Option<String>,
    pub generation: u64,
}

#[derive(Clone, Debug, PartialEq, Eq)]
pub struct MentorStateSnapshot {
    pub status: MentorStatus,
    pub answer: Option<MentorAnswer>,
    pub question: Option<String>,
    pub selected_path: Option<String>,
    pub error: Option<String>,
}

impl MentorStateSnapshot {
    pub open spec fn is_idle(&self) -> bool {
        &&& self.status == MentorStatus::Idle
        &&& self.answer is None
        &&& self.question is None
        &&& self.selected_path is None
        &&& self.error is None
    }
}

impl Default for MentorStateSnapshot {
    fn default() -> (s: MentorStateSnapshot)
        ensures
            s.is_idle(),
    {
        MentorStateSnapshot {
            status: MentorStatus::Idle,
            answer: None,
            question: None,
            selected_path: None,
            error: None,
        }
    }
}

#[derive(Clone, Debug)]
pub struct AskMentorRequest {
    pub question: String,
    pub selected_path: Option<String>,
}

/// Why a conversation ended without an answer.
#[derive(Clone, Debug, PartialEq, Eq)]
pub enum ProtocolFailure {
    Error(String),
    Cancelled,
}

/// The error state of a question.
pub fn error_state(question: Option<String>, selected_path: Option<String>, message: String) -> (r:
    MentorStateSnapshot)
    ensures
        r.status == MentorStatus::Error,
        r.answer is None,
        r.question == question,
        r.selected_path == selected_path,
        r.error == Some(message),
{
    MentorStateSnapshot {
        status: MentorStatus::Error,
        answer: None,
        question,
        selected_path,
        error: Some(message),
    }
}

pub open spec fn cancelled_message() -> Seq<char> {
    "Ask Mentor was cancelled"@
}

/// The outcome of a conversation once its process is stopped.  A user's
/// cancellation wins; otherwise the conversation's own outcome stands, so
/// that the cleanup deadline can never replace an answer or an error.
pub fn finalize_protocol_result(
    result: Result<String, ProtocolFailure>,
    cancel_requested: bool,
    monitor_timed_out: bool,
) -> (r: Result<String, String>)
    ensures
        cancel_requested ==> (r matches Err(e) && e@ == cancelled_message()),
        !cancel_requested ==> match result {
            Ok(a) => r == Ok::<String, String>(a),
            Err(ProtocolFailure::Cancelled) => (r matches Err(e) && e@ == cancelled_message()),
            Err(ProtocolFailure::Error(e)) => (r matches Err(x) && x@ == e@),
        },
{
    if cancel_requested {
        return Err(owned("Ask Mentor was cancelled"));
    }
    match result {
        Ok(answer) => Ok(answer),
        Err(ProtocolFailure::Cancelled) => Err(owned("Ask Mentor was cancelled")),
        Err(ProtocolFailure::Error(error)) => {
            if monitor_timed_out && crate::concepts::string_is(&error, TIMEOUT_ERROR) {
                Err(owned(TIMEOUT_ERROR))
            } else {
                Err(error)
            }
        },
    }
}

/// A question as it is asked: trimmed, and with a blank selection dropped.
pub fn prepare_question(request: AskMentorRequest) -> (r: Result<(String, Option<String>), String>)
    ensures
        trim(request.question@).len() == 0 <==> r is Err,
        r matches Err(e) ==> e@ == "Ask Mentor question cannot be empty"@,
        r matches Ok((q, p)) ==> q@ == trim(request.question@) && match request.selected_path {
            Some(s) => if crate::analysis::blank(s@) {
                p is None
            } else {
                p == Some(s)
            },
            None => p is None,
        },
{
    let question = trimmed(request.question.as_str());
    if question.as_str().is_empty() {
        return Err(owned("Ask Mentor question cannot be empty"));
    }
    let selected_path = match request.selected_path {
        Some(path) => if crate::analysis::is_blank(&path) {
            None
        } else {
            Some(path)
        },
        None => None,
    };
    Ok((question, selected_path))
}

/// The state that a finished question publishes.
pub fn completion_state(
    question: String,
    selected_path: Option<String>,
    generation: u64,
    result: Result<String, String>,
) -> (r: MentorStateSnapshot)
    ensures
        r.question == Some(question),
        r.selected_path == selected_path,
        match result {
            Ok(a) => {
                &&& r.status == MentorStatus::Available
                &&& r.error is None
                &&& (r.answer matches Some(x) && x.answer == a && x.question == question
                    && x.selected_path == selected_path && x.generation == generation)
            },
            Err(e) => {
                &&& r.status == MentorStatus::Error
                &&& r.answer is None
                &&& r.error == Some(e)
            },
        },
{
    match result {
        Ok(answer) => MentorStateSnapshot {
            status: MentorStatus::Available,
            answer: Some(
                MentorAnswer {
                    answer,
                    question: question.clone(),
                    selected_path: clone_opt(&selected_path),
                    generation,
                },
            ),
            question: Some(question),
            selected_path,
            error: None,
        },
        Err(error) => error_state(Some(question), selected_path, error),
    }
}

pub(crate) fn clone_opt(a: &Option<String>) -> (r: Option<String>)
    ensures
        r == *a,
{
    match a {
        Some(x) => Some(x.clone()),
        None => None,
    }
}

/// The request state of Ask Mentor: the published state, the last request
/// id, and the id of the request in flight.  Only the request in flight may
/// publish, so a cancelled or replaced request can never overwrite newer
/// state.
pub struct MentorRuntime {
    pub state: MentorStateSnapshot,
    pub next_id: u64,
    pub inflight: Option<u64>,
}

impl MentorRuntime {
    pub fn new() -> (r: MentorRuntime)
        ensures
            r.state.is_idle(),
            r.next_id == 0,
            r.inflight is None,
    {
        MentorRuntime { state: MentorStateSnapshot::default(), next_id: 0, inflight: None }
    }

    /// Starts a question unless one is in progress, and returns its id.
    pub fn begin_request(&mut self, question: String, selected_path: Option<String>) -> (r: Result<
        u64,
        String,
    >)
        ensures
            old(self).inflight is Some <==> r is Err,
            r matches Err(e) ==> e@ == "Ask Mentor already has a question in progress"@ && *final(self) == *old(self),
            r matches Ok(id) ==> {
                &&& id == (if old(self).next_id == u64::MAX {
                    0
                } else {
                    (old(self).next_id + 1) as u64
                })
                &&& final(self).next_id == id
                &&& final(self).inflight == Some(id)
                &&& final(self).state.status == MentorStatus::Loading
                &&& final(self).state.answer is None
                &&& final(self).state.question == Some(question)
                &&& final(self).state.selected_path == selected_path
                &&& final(self).state.error is None
            },
    {
        if self.inflight.is_some() {
            return Err(owned("Ask Mentor already has a question in progress"));
        }
        self.next_id = self.next_id.wrapping_add(1);
        let id = self.next_id;
        self.inflight = Some(id);
        self.state = MentorStateSnapshot {
            status: MentorStatus::Loading,
            answer: None,
            question: Some(question),
            selected_path,
            error: None,
        };
        Ok(id)
    }

    /// Publishes the outcome of a request, if it is still the one in flight.
    pub fn set_state(&mut self, request_id: u64, next: MentorStateSnapshot) -> (r: bool)
        ensures
            r == (old(self).inflight == Some(request_id)),
            r ==> final(self).state == next && final(self).inflight is None && final(self).next_id
                == old(self).next_id,
            !r ==> *final(self) == *old(self),
    {
        if self.inflight != Some(request_id) {
            return false;
        }
        self.inflight = None;
        self.state = next;
        true
    }

    /// Forgets a request that may not publish, if it is still in flight.
    pub fn clear_request(&mut self, request_id: u64) -> (r: bool)
        ensures
            r == (old(self).inflight == Some(request_id)),
            r ==> final(self).state == old(self).state && final(self).inflight is None && final(self).next_id == old(self).next_id,
            !r ==> *final(self) == *old(self),
    {
        if self.inflight != Some(request_id) {
            return false;
        }
        self.inflight = None;
        true
    }

    /// Cancels the request in flight: it can no longer publish, and the state
    /// reports the cancellation for the same question.
    pub fn cancel(&mut self) -> (r: Result<u64, String>)
        ensures
            old(self).inflight is None <==> r is Err,
            r matches Err(e) ==> e@ == "Ask Mentor has no question in progress"@ && *final(self)
                == *old(self),
            r matches Ok(id) ==> {
                &&& old(self).inflight == Some(id)
                &&& final(self).inflight is None
                &&& final(self).next_id == old(self).next_id
                &&& final(self).state.status == MentorStatus::Error
                &&& final(self).state.answer is None
                &&& final(self).state.question == old(self).state.question
                &&& final(self).state.selected_path == old(self).state.selected_path
                &&& (final(self).state.error matches Some(e) && e@ == cancelled_message())
            },
    {
        let id = match self.inflight {
            Some(id) => id,
            None => {
                return Err(owned("Ask Mentor has no question in progress"));
            },
        };
        self.inflight = None;
        let question = clone_opt(&self.state.question);
        let selected_path = clone_opt(&self.state.selected_path);
        self.state = error_state(question, selected_path, owned("Ask Mentor was cancelled"));
        Ok(id)
    }

    /// Returns to idle, cancelling the request in flight, whose id it gives.
    pub fn reset(&mut self) -> (r: Option<u64>)
        ensures
            r == old(self).inflight,
            final(self).inflight is None,
            final(self).next_id == old(self).next_id,
            final(self).state.is_idle(),
    {
        let inflight = self.inflight;
        self.inflight = None;
        self.state = MentorStateSnapshot::default();
        inflight
    }
}

// ---------------------------------------------------------------- evidence

/// The longest text that enters a prompt whole, in characters.
pub const MAX_CHARS: usize = 4000;

pub open spec fn truncation_note() -> Seq<char> {
    "\n[truncated by Mentor; supplied evidence continues]"@
}

/// A long text cut to its first characters, with a note that it goes on.
pub open spec fn compact_spec(t: Seq<char>) -> Seq<char> {
    if t.len() <= MAX_CHARS {
        t
    } else {
        t.take(MAX_CHARS as int) + truncation_note()
    }
}

pub fn compact_text(text: &str) -> (r: String)
    ensures
        r@ == compact_spec(text@),
{
    let chars = to_chars(text);
    if chars.len() <= MAX_CHARS {
        return from_chars(chars.as_slice());
    }
    let mut prefix: Vec<char> = Vec::new();
    let mut i: usize = 0;
    while i < MAX_CHARS
        invariant
            chars@ == text@,
            chars@.len() > MAX_CHARS,
            i <= MAX_CHARS,
            prefix@ == text@.take(i as int),
        decreases MAX_CHARS - i,
    {
        prefix.push(chars[i]);
        i += 1;
        assert(prefix@ =~= text@.take(i as int));
    }
    let mut r = from_chars(prefix.as_slice());
    push_str(&mut r, "\n[truncated by Mentor; supplied evidence continues]");
    r
}

pub open spec fn ascii_lower(c: char) -> char {
    if 'A' <= c && c <= 'Z' {
        ((c as u32) + 32) as char
    } else {
        c
    }
}

pub open spec fn lower_ascii(s: Seq<char>) -> Seq<char> {
    s.map_values(|c: char| ascii_lower(c))
}

/// `needle` occurs in `s`.
pub open spec fn has_substring(s: Seq<char>, needle: Seq<char>) -> bool {
    exists|i: int| 0 <= i && i + needle.len() <= s.len() && #[trigger] s.subrange(i, i + needle.len()) == needle
}

pub(crate) fn to_lower_ascii(s: &str) -> (r: Vec<char>)
    ensures
        r@ == lower_ascii(s@),
{
    let c = to_chars(s);
    let mut out: Vec<char> = Vec::new();
    let mut i: usize = 0;
    while i < c.len()
        invariant
            c@ == s@,
            i <= c@.len(),
            out@ == lower_ascii(s@.take(i as int)),
        decreases c@.len() - i,
    {
        let ch = c[i];
        let lo = if 'A' <= ch && ch <= 'Z' {
            let u = (ch as u32) + 32;
            char_from(u)
        } else {
            ch
        };
        out.push(lo);
        i += 1;
        assert(out@ =~= lower_ascii(s@.take(i as int)));
    }
    assert(s@.take(c@.len() as int) =~= s@);
    out
}

fn char_from(u: u32) -> (c: char)
    requires
        97 <= u <= 122,
    ensures
        c == u as char,
{
    if u == 97 { 'a' } else if u == 98 { 'b' } else if u == 99 { 'c' } else if u == 100 { 'd' }
    else if u == 101 { 'e' } else if u == 102 { 'f' } else if u == 103 { 'g' } else if u == 104 { 'h' }
    else if u == 105 { 'i' } else if u == 106 { 'j' } else if u == 107 { 'k' } else if u == 108 { 'l' }
    else if u == 109 { 'm' } else if u == 110 { 'n' } else if u == 111 { 'o' } else if u == 112 { 'p' }
    else if u == 113 { 'q' } else if u == 114 { 'r' } else if u == 115 { 's' } else if u == 116 { 't' }
    else if u == 117 { 'u' } else if u == 118 { 'v' } else if u == 119 { 'w' } else if u == 120 { 'x' }
    else if u == 121 { 'y' } else { 'z' }
}

pub(crate) fn contains_chars(s: &Vec<char>, needle: &str) -> (r: bool)
    ensures
        r == has_substring(s@, needle@),
{
    let nd = to_chars(needle);
    let n = s.len();
    let m = nd.len();
    if m > n {
        return false;
    }
    let mut i: usize = 0;
    while i <= n - m
        invariant
            nd@ == needle@,
            n == s@.len(),
            m == nd@.len(),
            m <= n,
            i <= n - m + 1,
            forall|k: int| 0 <= k < i ==> #[trigger] s@.subrange(k, k + m) != needle@,
        decreases n - m + 1 - i,
    {
        let mut j: usize = 0;
        let mut same = true;
        while j < m
            invariant
                nd@ == needle@,
                n == s@.len(),
                m == nd@.len(),
                i + m <= n,
                j <= m,
                same == forall|x: int| 0 <= x < j ==> s@[i + x] == nd@[x],
            decreases m - j,
        {
            if s[i + j] != nd[j] {
                same = false;
            }
            j += 1;
        }
        if same {
            assert(s@.subrange(i as int, i + m) =~= needle@);
            return true;
        }
        proof {
            let x = choose|x: int| 0 <= x < m && s@[i + x] != nd@[x];
            assert(s@.subrange(i as int, i + m)[x] != needle@[x]);
        }
        i += 1;
    }
    proof {
        assert forall|k: int| 0 <= k && k + needle@.len() <= s@.len() implies #[trigger] s@.subrange(
            k,
            k + needle@.len(),
        ) != needle@ by {
            assert(k < i);
        }
    }
    false
}

/// Notification methods that ask for tools, approvals or input; Ask Mentor
/// never takes part in them.
pub open spec fn disallowed_method_spec(method: Seq<char>) -> bool {
    let m = lower_ascii(method);
    ||| has_substring(m, "approval"@)
    ||| has_substring(m, "requestuserinput"@)
    ||| has_substring(m, "mcp"@)
    ||| has_substring(m, "tool/"@)
    ||| has_substring(m, "command"@)
    ||| has_substring(m, "file"@)
    ||| has_substring(m, "web"@)
    ||| has_substring(m, "process"@)
    ||| has_substring(m, "shell"@)
}

pub fn disallowed_method(method: &str) -> (r: bool)
    ensures
        r == disallowed_method_spec(method@),
{
    let m = to_lower_ascii(method);
    contains_chars(&m, "approval") || contains_chars(&m, "requestuserinput") || contains_chars(
        &m,
        "mcp",
    ) || contains_chars(&m, "tool/") || contains_chars(&m, "command") || contains_chars(&m, "file")
        || contains_chars(&m, "web") || contains_chars(&m, "process") || contains_chars(&m, "shell")
}

/// Item types that run tools; Ask Mentor rejects them.
pub open spec fn disallowed_item_type(t: Seq<char>) -> bool {
    ||| t == "commandExecution"@
    ||| t == "fileChange"@
    ||| t == "mcpToolCall"@
    ||| t == "dynamicToolCall"@
    ||| t == "collabToolCall"@
    ||| t == "webSearch"@
    ||| t == "imageView"@
}

pub fn disallowed_item(item_type: Option<&str>) -> (r: bool)
    ensures
        r == match item_type {
            Some(t) => disallowed_item_type(t@),
            None => false,
        },
{
    match item_type {
        Some(t) => {
            let c = to_chars(t);
            crate::analysis::chars_are(&c, "commandExecution") || crate::analysis::chars_are(
                &c,
                "fileChange",
            ) || crate::analysis::chars_are(&c, "mcpToolCall") || crate::analysis::chars_are(
                &c,
                "dynamicToolCall",
            ) || crate::analysis::chars_are(&c, "collabToolCall") || crate::analysis::chars_are(
                &c,
                "webSearch",
            ) || crate::analysis::chars_are(&c, "imageView")
        },
        None => false,
    }
}

// ---------------------------------------------------------------- answers

/// What reading a text as JSON and taking its `answer` member as a string
/// gives: `None` when the text is not JSON, or has no such member, or the
/// member is not a string.
pub uninterp spec fn json_answer(text: Seq<char>) -> Option<Seq<char>>;

/// `serde_json::from_str` into a JSON value, and the value's `answer`
/// member read as a string.
#[verifier::external_body]
fn answer_member(text: &str) -> (r: Option<String>)
    ensures
        opt_view(r) == json_answer(text@),
{
    let value: serde_json::Value = serde_json::from_str(text).ok()?;
    value.get("answer").and_then(serde_json::Value::as_str).map(str::to_string)
}

pub open spec fn malformed_answer_message() -> Seq<char> {
    "Codex returned a malformed structured answer"@
}

/// The answer that a structured reply carries: its trimmed `answer` member,
/// which must not be empty.
pub open spec fn structured_answer(text: Seq<char>) -> Result<Seq<char>, Seq<char>> {
    match json_answer(trim(text)) {
        None => Err(malformed_answer_message()),
        Some(a) => if trim(a).len() == 0 {
            Err("Codex returned an empty Ask Mentor answer"@)
        } else {
            Ok(trim(a))
        },
    }
}

/// Reads the answer out of the model's structured reply.
pub fn parse_structured_text(text: &str) -> (r: Result<String, String>)
    ensures
        match r {
            Ok(a) => structured_answer(text@) == Ok::<Seq<char>, Seq<char>>(a@),
            Err(e) => structured_answer(text@) == Err::<Seq<char>, Seq<char>>(e@),
        },
{
    let t = trimmed(text);
    match answer_member(t.as_str()) {
        None => Err(owned("Codex returned a malformed structured answer")),
        Some(a) => {
            let answer = trimmed(a.as_str());
            if answer.as_str().is_empty() {
                Err(owned("Codex returned an empty Ask Mentor answer"))
            } else {
                Ok(answer)
            }
        },
    }
}

// ---------------------------------------------------------------- prompt

/// The position of the selected frozen file; an error when the selection
/// names no frozen file exactly, or is blank.
pub fn selected_frozen_file(analysis: &ChangeAnalysis, selected_path: Option<&str>) -> (r: Result<
    Option<usize>,
    String,
>)
    ensures
        selected_path is None ==> r == Ok::<Option<usize>, String>(None),
        selected_path matches Some(p) ==> match r {
            Ok(Some(i)) => i < analysis.frozen_files@.len() && analysis.frozen_files@[i as int].path@
                == p@ && (forall|j: int|
                0 <= j < i ==> (#[trigger] analysis.frozen_files@[j]).path@ != p@) && !blank(p@),
            Ok(None) => false,
            Err(e) => if (forall|j: int|
                0 <= j < analysis.frozen_files@.len() ==> (#[trigger] analysis.frozen_files@[j]).path@
                    != p@) {
                e@ == "The selected file is not part of the frozen current change"@
            } else {
                blank(p@) && e@ == "The selected file path cannot be empty"@
            },
        },
{
    let path = match selected_path {
        None => {
            return Ok(None);
        },
        Some(p) => p,
    };
    let files = &analysis.frozen_files;
    let mut i: usize = 0;
    while i < files.len()
        invariant
            i <= files@.len(),
            selected_path == Some(path),
            files@ == analysis.frozen_files@,
            forall|j: int| 0 <= j < i ==> (#[trigger] files@[j]).path@ != path@,
        decreases files@.len() - i,
    {
        if crate::concepts::string_is(&files[i].path, path) {
            assert(files@[i as int].path@ == path@);
            let owned_path = owned(path);
            if is_blank(&owned_path) {
                return Err(owned("The selected file path cannot be empty"));
            }
            return Ok(Some(i));
        }
        i += 1;
    }
    Err(owned("The selected file is not part of the frozen current change"))
}

pub open spec fn prompt_intro() -> Seq<char> {
    "You are Ask Mentor in Codex Mentor. Answer the user's question using only the supplied current-change evidence below. Do not inspect the project, read files, run commands, use tools, browse the web, call MCP, ask for approval, or infer hidden reasoning. If the evidence is insufficient, say what is missing instead of guessing. Answer only the question in concise technical prose; do not include chain-of-thought.\n\nQuestion:\n"@
}

pub open spec fn evidence_heading() -> Seq<char> {
    "\n\nSupplied current-change evidence (JSON):\n"@
}

/// The Ask Mentor prompt around the trimmed question and the evidence.
pub fn frame_prompt(question: &str, evidence_json: &str) -> (r: String)
    ensures
        r@ == prompt_intro() + trim(question@) + evidence_heading() + evidence_json@,
{
    let mut r = owned(
        "You are Ask Mentor in Codex Mentor. Answer the user's question using only the supplied current-change evidence below. Do not inspect the project, read files, run commands, use tools, browse the web, call MCP, ask for approval, or infer hidden reasoning. If the evidence is insufficient, say what is missing instead of guessing. Answer only the question in concise technical prose; do not include chain-of-thought.\n\nQuestion:\n",
    );
    let q = trimmed(question);
    push_str(&mut r, q.as_str());
    push_str(&mut r, "\n\nSupplied current-change evidence (JSON):\n");
    push_str(&mut r, evidence_json);
    r
}

// ---------------------------------------------------------------- conversation

/// An item of an app-server notification, as the values that Ask Mentor
/// reads from it.
#[derive(Clone, Debug)]
pub struct ProtocolItem {
    pub id: Option<String>,
    pub item_type: Option<String>,
    pub text: Option<String>,
    pub thread_id: Option<String>,
    pub turn_id: Option<String>,
}

/// A message from the app server, as the values that Ask Mentor reads from
/// it: each string member that is present and is a string, and whether the
/// members that are tested for presence are there.
#[derive(Clone, Debug)]
pub struct ProtocolMessage {
    pub method: Option<String>,
    pub has_id: bool,
    pub id: Option<u64>,
    pub error_message: Option<String>,
    pub has_result: bool,
    pub result_thread_id: Option<String>,
    pub result_turn_id: Option<String>,
    pub has_params: bool,
    pub params_thread_id: Option<String>,
    pub params_thread_object_id: Option<String>,
    pub params_turn_id: Option<String>,
    pub params_turn_object_id: Option<String>,
    pub params_item_id: Option<String>,
    pub item: Option<ProtocolItem>,
    pub delta: Option<String>,
    pub params_text: Option<String>,
    pub turn_status: Option<String>,
    pub turn_error_message: Option<String>,
    pub params_error_message: Option<String>,
}

/// What happened while waiting for the app server.
pub enum ProtocolEvent {
    Message(ProtocolMessage),
    Cancel,
    Deadline,
    ReceiveFailed(String),
    SendFailed(String),
}

#[derive(Clone, Copy, Debug, PartialEq, Eq, Structural)]
pub enum ProtocolPhase {
    Initializing,
    StartingThread,
    StartingTurn,
    Streaming,
    Done,
}

/// A conversation with the app server: the handshake step it waits on, the
/// thread and turn it created, and the answer text gathered so far.
pub struct ProtocolSession {
    pub phase: ProtocolPhase,
    pub thread: Option<String>,
    pub turn: Option<String>,
    pub streamed: String,
    pub completed_text: Option<String>,
    pub agent_item_id: Option<String>,
}

/// The request that starts the conversation's thread.  Mentor only reads:
/// the thread runs in a read-only sandbox and never asks for approval.
#[derive(Clone, Debug, PartialEq, Eq)]
pub struct ThreadStartRequest {
    pub id: u64,
    pub cwd: String,
    pub approval_policy: String,
    pub sandbox: String,
}

/// The sandbox policy of a turn.
#[derive(Clone, Debug, PartialEq, Eq)]
pub struct SandboxPolicy {
    pub kind: String,
    pub network_access: bool,
}

/// The request that starts the one turn of the conversation: the prompt as
/// its only input, read-only with no network, never asking for approval,
/// and an answer that must be an object with one required string member.
#[derive(Clone, Debug, PartialEq, Eq)]
pub struct TurnStartRequest {
    pub id: u64,
    pub thread_id: String,
    pub prompt: String,
    pub cwd: String,
    pub approval_policy: String,
    pub sandbox_policy: SandboxPolicy,
    pub answer_member: String,
}

/// The `thread/start` request for a project.
pub fn thread_start_request(project_path: &str) -> (r: ThreadStartRequest)
    ensures
        r.id == 2,
        r.cwd@ == project_path@,
        r.approval_policy@ == "never"@,
        r.sandbox@ == "read-only"@,
{
    ThreadStartRequest {
        id: 2,
        cwd: owned(project_path),
        approval_policy: owned("never"),
        sandbox: owned("read-only"),
    }
}

/// The `turn/start` request that asks the prompt on a thread.
pub fn turn_start_request(thread_id: &str, prompt: &str, project_path: &str) -> (r: TurnStartRequest)
    ensures
        r.id == 3,
        r.thread_id@ == thread_id@,
        r.prompt@ == prompt@,
        r.cwd@ == project_path@,
        r.approval_policy@ == "never"@,
        r.sandbox_policy.kind@ == "readOnly"@,
        !r.sandbox_policy.network_access,
        r.answer_member@ == "answer"@,
{
    TurnStartRequest {
        id: 3,
        thread_id: owned(thread_id),
        prompt: owned(prompt),
        cwd: owned(project_path),
        approval_policy: owned("never"),
        sandbox_policy: SandboxPolicy { kind: owned("readOnly"), network_access: false },
        answer_member: owned("answer"),
    }
}

/// What the conversation does next.
#[derive(Debug)]
pub enum ProtocolAction {
    /// Keep receiving.
    Wait,
    /// Send `initialized`, then `thread/start`.
    StartThread,
    /// Send `turn/start` with the prompt on the session's thread.
    StartTurn,
    /// Answer the server's request with a rejection, then end with the failure.
    Reject(ProtocolFailure),
    /// Ask the server to interrupt the session's turn, then end with the failure.
    Interrupt(ProtocolFailure),
    /// End the conversation.
    Finish(Result<String, ProtocolFailure>),
}

pub struct SessionView {
    pub phase: ProtocolPhase,
    pub thread: Option<Seq<char>>,
    pub turn: Option<Seq<char>>,
    pub streamed: Seq<char>,
    pub completed_text: Option<Seq<char>>,
    pub agent_item_id: Option<Seq<char>>,
}

pub enum FailureView {
    Error(Seq<char>),
    Cancelled,
}

pub enum ActionView {
    Wait,
    StartThread,
    StartTurn,
    Reject(FailureView),
    Interrupt(FailureView),
    Finish(Result<Seq<char>, FailureView>),
}

impl ProtocolSession {
    pub open spec fn view(&self) -> SessionView {
        SessionView {
            phase: self.phase,
            thread: opt_view(self.thread),
            turn: opt_view(self.turn),
            streamed: self.streamed@,
            completed_text: opt_view(self.completed_text),
            agent_item_id: opt_view(self.agent_item_id),
        }
    }

    /// A conversation that has sent `initialize` and waits for its answer.
    pub fn new() -> (s: ProtocolSession)
        ensures
            s.view() == (SessionView {
                phase: ProtocolPhase::Initializing,
                thread: None,
                turn: None,
                streamed: seq![],
                completed_text: None,
                agent_item_id: None,
            }),
    {
        ProtocolSession {
            phase: ProtocolPhase::Initializing,
            thread: None,
            turn: None,
            streamed: String::new(),
            completed_text: None,
            agent_item_id: None,
        }
    }
}

pub open spec fn failure_view(f: ProtocolFailure) -> FailureView {
    match f {
        ProtocolFailure::Error(e) => FailureView::Error(e@),
        ProtocolFailure::Cancelled => FailureView::Cancelled,
    }
}

pub open spec fn action_view(a: ProtocolAction) -> ActionView {
    match a {
        ProtocolAction::Wait => ActionView::Wait,
        ProtocolAction::StartThread => ActionView::StartThread,
        ProtocolAction::StartTurn => ActionView::StartTurn,
        ProtocolAction::Reject(f) => ActionView::Reject(failure_view(f)),
        ProtocolAction::Interrupt(f) => ActionView::Interrupt(failure_view(f)),
        ProtocolAction::Finish(Ok(a)) => ActionView::Finish(Ok(a@)),
        ProtocolAction::Finish(Err(f)) => ActionView::Finish(Err(failure_view(f))),
    }
}

/// A string member that is present and not blank.
pub open spec fn present(o: Option<String>) -> Option<Seq<char>> {
    match o {
        Some(s) => if blank(s@) {
            None
        } else {
            Some(s@)
        },
        None => None,
    }
}

pub open spec fn is_text(o: Option<String>, t: Seq<char>) -> bool {
    o matches Some(x) && x@ == t
}

pub open spec fn event_thread_id(m: ProtocolMessage) -> Option<Seq<char>> {
    if !m.has_params {
        None
    } else if present(m.params_thread_id) is Some {
        present(m.params_thread_id)
    } else if present(m.params_thread_object_id) is Some {
        present(m.params_thread_object_id)
    } else {
        match m.item {
            Some(it) => present(it.thread_id),
            None => None,
        }
    }
}

pub open spec fn event_turn_id(m: ProtocolMessage) -> Option<Seq<char>> {
    if !m.has_params {
        None
    } else if present(m.params_turn_id) is Some {
        present(m.params_turn_id)
    } else if present(m.params_turn_object_id) is Some {
        present(m.params_turn_object_id)
    } else {
        match m.item {
            Some(it) => present(it.turn_id),
            None => None,
        }
    }
}

/// A notification belongs to the conversation's turn: it names the turn,
/// and it names the thread unless it is a `turn/completed` notification.
pub open spec fn turn_event_matches_spec(m: ProtocolMessage, thread: Seq<char>, turn: Seq<char>) -> bool {
    &&& m.has_params
    &&& match event_thread_id(m) {
        Some(t) => t == thread,
        None => is_text(m.method, "turn/completed"@),
    }
    &&& event_turn_id(m) == Some(turn)
}

pub open spec fn finished(s: SessionView) -> SessionView {
    SessionView { phase: ProtocolPhase::Done, ..s }
}

pub open spec fn fail(s: SessionView, e: Seq<char>) -> (SessionView, ActionView) {
    (finished(s), ActionView::Finish(Err(FailureView::Error(e))))
}

pub open spec fn rejected_request(method: Seq<char>) -> Seq<char> {
    "Ask Mentor rejected unsupported Codex request: "@ + method
}

pub open spec fn tool_item_message() -> Seq<char> {
    "Ask Mentor rejected an unsupported Codex tool item"@
}

pub open spec fn item_disallowed(it: ProtocolItem) -> bool {
    match it.item_type {
        Some(t) => disallowed_item_type(t@),
        None => false,
    }
}

/// The handshake step that a phase waits on: the request id and method.
pub open spec fn awaited(p: ProtocolPhase) -> (u64, Seq<char>) {
    match p {
        ProtocolPhase::Initializing => (1u64, "initialize"@),
        ProtocolPhase::StartingThread => (2u64, "thread/start"@),
        _ => (3u64, "turn/start"@),
    }
}

/// The answer to a handshake request.
pub open spec fn accept_response(s: SessionView, m: ProtocolMessage) -> (SessionView, ActionView) {
    let name = awaited(s.phase).1;
    if m.error_message is Some {
        fail(s, "Codex "@ + name + " failed: "@ + m.error_message->0@)
    } else if !m.has_result {
        fail(s, "Codex returned a malformed "@ + name + " response"@)
    } else if s.phase == ProtocolPhase::Initializing {
        (SessionView { phase: ProtocolPhase::StartingThread, ..s }, ActionView::StartThread)
    } else if s.phase == ProtocolPhase::StartingThread {
        match present(m.result_thread_id) {
            None => fail(s, "Codex returned a malformed thread/start response"@),
            Some(t) => (
                SessionView { phase: ProtocolPhase::StartingTurn, thread: Some(t), ..s },
                ActionView::StartTurn,
            ),
        }
    } else {
        match present(m.result_turn_id) {
            None => fail(s, "Codex returned a malformed turn/start response"@),
            Some(u) => (
                SessionView { phase: ProtocolPhase::Streaming, turn: Some(u), ..s },
                ActionView::Wait,
            ),
        }
    }
}

/// A message while a handshake response is awaited: notifications pass
/// unless they ask for something Ask Mentor refuses; the awaited response
/// advances the handshake; any other response ends it.
pub open spec fn handshake_step(s: SessionView, m: ProtocolMessage) -> (SessionView, ActionView) {
    match m.method {
        Some(meth) => if m.has_id {
            (finished(s), ActionView::Reject(FailureView::Error(rejected_request(meth@))))
        } else if disallowed_method_spec(meth@) {
            fail(s, rejected_request(meth@))
        } else if (meth@ == "item/started"@ || meth@ == "item/completed"@) && (m.item matches Some(
            it,
        ) && item_disallowed(it)) {
            fail(s, tool_item_message())
        } else {
            (s, ActionView::Wait)
        },
        None => if m.id == Some(awaited(s.phase).0) {
            accept_response(s, m)
        } else {
            fail(s, "Codex returned an unexpected response while calling "@ + awaited(s.phase).1)
        },
    }
}

/// The item named by a lifecycle notification, when it is not the agent
/// message already followed.
pub open spec fn other_item(s: SessionView, iid: Seq<char>) -> bool {
    s.agent_item_id matches Some(x) && iid != x
}

/// The text that a delta notification adds.
pub open spec fn delta_text(m: ProtocolMessage) -> Option<Seq<char>> {
    match m.delta {
        Some(d) => Some(d@),
        None => opt_view(m.params_text),
    }
}

/// A notification of the conversation's turn.
pub open spec fn streaming_notification(s: SessionView, m: ProtocolMessage, meth: Seq<char>) -> (
    SessionView,
    ActionView,
) {
    if meth == "item/agentMessage/delta"@ {
        match (s.agent_item_id, present(m.params_item_id)) {
            (Some(x), Some(iid)) => if iid == x && delta_text(m) is Some {
                (SessionView { streamed: s.streamed + delta_text(m)->0, ..s }, ActionView::Wait)
            } else {
                (s, ActionView::Wait)
            },
            _ => (s, ActionView::Wait),
        }
    } else if meth == "item/completed"@ {
        match m.item {
            None => fail(s, "Codex returned a malformed item/completed notification"@),
            Some(it) => match present(it.id) {
                None => (s, ActionView::Wait),
                Some(iid) => if other_item(s, iid) {
                    (s, ActionView::Wait)
                } else if is_text(it.item_type, "agentMessage"@) {
                    (
                        SessionView {
                            agent_item_id: if s.agent_item_id is None {
                                Some(iid)
                            } else {
                                s.agent_item_id
                            },
                            completed_text: opt_view(it.text),
                            ..s
                        },
                        ActionView::Wait,
                    )
                } else if item_disallowed(it) {
                    fail(s, tool_item_message())
                } else {
                    (s, ActionView::Wait)
                },
            },
        }
    } else if meth == "item/started"@ {
        match m.item {
            None => fail(s, "Codex returned a malformed item/started notification"@),
            Some(it) => match present(it.id) {
                None => (s, ActionView::Wait),
                Some(iid) => if other_item(s, iid) {
                    (s, ActionView::Wait)
                } else if item_disallowed(it) {
                    fail(s, tool_item_message())
                } else if is_text(it.item_type, "agentMessage"@) {
                    (SessionView { agent_item_id: Some(iid), ..s }, ActionView::Wait)
                } else {
                    (s, ActionView::Wait)
                },
            },
        }
    } else if meth == "turn/completed"@ {
        if !turn_event_matches_spec(m, s.thread->0, s.turn->0) {
            (s, ActionView::Wait)
        } else if is_text(m.turn_status, "interrupted"@) {
            (finished(s), ActionView::Finish(Err(FailureView::Cancelled)))
        } else if !is_text(m.turn_status, "completed"@) {
            fail(
                s,
                match m.turn_error_message {
                    Some(e) => e@,
                    None => "Codex did not complete the Ask Mentor turn"@,
                },
            )
        } else {
            let text = match s.completed_text {
                Some(c) => c,
                None => s.streamed,
            };
            match structured_answer(text) {
                Ok(a) => (finished(s), ActionView::Finish(Ok(a))),
                Err(e) => fail(s, e),
            }
        }
    } else if meth == "error"@ {
        if !turn_event_matches_spec(m, s.thread->0, s.turn->0) {
            (s, ActionView::Wait)
        } else {
            fail(
                s,
                match m.params_error_message {
                    Some(e) => e@,
                    None => "Codex reported an Ask Mentor error"@,
                },
            )
        }
    } else {
        (s, ActionView::Wait)
    }
}

/// A message while the turn runs.
pub open spec fn streaming_step(s: SessionView, m: ProtocolMessage) -> (SessionView, ActionView) {
    match m.method {
        Some(meth) => if m.has_id {
            (finished(s), ActionView::Reject(FailureView::Error(rejected_request(meth@))))
        } else if disallowed_method_spec(meth@) {
            fail(s, rejected_request(meth@))
        } else {
            streaming_notification(s, m, meth@)
        },
        None => if m.has_id {
            fail(s, "Codex returned an unexpected response during Ask Mentor"@)
        } else {
            (s, ActionView::Wait)
        },
    }
}

/// One step of the conversation.
pub open spec fn step_spec(s: SessionView, e: ProtocolEvent) -> (SessionView, ActionView) {
    match e {
        ProtocolEvent::Message(m) => if s.phase == ProtocolPhase::Streaming {
            streaming_step(s, m)
        } else {
            handshake_step(s, m)
        },
        ProtocolEvent::Cancel => if s.thread is Some && s.turn is Some {
            (finished(s), ActionView::Interrupt(FailureView::Cancelled))
        } else {
            (finished(s), ActionView::Finish(Err(FailureView::Cancelled)))
        },
        ProtocolEvent::Deadline => fail(s, TIMEOUT_ERROR@),
        ProtocolEvent::ReceiveFailed(x) => fail(s, x@),
        ProtocolEvent::SendFailed(x) => fail(s, x@),
    }
}

fn present_of(o: &Option<String>) -> (r: Option<String>)
    ensures
        opt_view(r) == present(*o),
{
    match o {
        Some(x) => if is_blank(x) {
            None
        } else {
            Some(x.clone())
        },
        None => None,
    }
}

fn is_text_of(o: &Option<String>, t: &str) -> (r: bool)
    ensures
        r == is_text(*o, t@),
{
    match o {
        Some(x) => crate::concepts::string_is(x, t),
        None => false,
    }
}

fn event_thread_id_of(m: &ProtocolMessage) -> (r: Option<String>)
    ensures
        opt_view(r) == event_thread_id(*m),
{
    if !m.has_params {
        return None;
    }
    let a = present_of(&m.params_thread_id);
    if a.is_some() {
        return a;
    }
    let b = present_of(&m.params_thread_object_id);
    if b.is_some() {
        return b;
    }
    match &m.item {
        Some(it) => present_of(&it.thread_id),
        None => None,
    }
}

fn event_turn_id_of(m: &ProtocolMessage) -> (r: Option<String>)
    ensures
        opt_view(r) == event_turn_id(*m),
{
    if !m.has_params {
        return None;
    }
    let a = present_of(&m.params_turn_id);
    if a.is_some() {
        return a;
    }
    let b = present_of(&m.params_turn_object_id);
    if b.is_some() {
        return b;
    }
    match &m.item {
        Some(it) => present_of(&it.turn_id),
        None => None,
    }
}

/// Whether a notification belongs to the conversation's turn.
pub fn turn_event_matches(m: &ProtocolMessage, thread: &String, turn: &String) -> (r: bool)
    ensures
        r == turn_event_matches_spec(*m, thread@, turn@),
{
    if !m.has_params {
        return false;
    }
    let thread_matches = match event_thread_id_of(m) {
        Some(t) => t == *thread,
        None => is_text_of(&m.method, "turn/completed"),
    };
    let turn_matches = match event_turn_id_of(m) {
        Some(u) => u == *turn,
        None => false,
    };
    thread_matches && turn_matches
}

fn join3(a: &str, b: &str, c: &str) -> (r: String)
    ensures
        r@ == a@ + b@ + c@,
{
    let mut r = owned(a);
    push_str(&mut r, b);
    push_str(&mut r, c);
    r
}

fn awaited_name(p: ProtocolPhase) -> (r: &'static str)
    ensures
        r@ == awaited(p).1,
{
    match p {
        ProtocolPhase::Initializing => "initialize",
        ProtocolPhase::StartingThread => "thread/start",
        _ => "turn/start",
    }
}

fn awaited_id(p: ProtocolPhase) -> (r: u64)
    ensures
        r == awaited(p).0,
{
    match p {
        ProtocolPhase::Initializing => 1,
        ProtocolPhase::StartingThread => 2,
        _ => 3,
    }
}

impl ProtocolSession {
    fn fail_with(&mut self, message: String) -> (r: ProtocolAction)
        ensures
            (final(self).view(), action_view(r)) == fail(old(self).view(), message@),
    {
        self.phase = ProtocolPhase::Done;
        ProtocolAction::Finish(Err(ProtocolFailure::Error(message)))
    }

    fn accept(&mut self, m: &ProtocolMessage) -> (r: ProtocolAction)
        requires
            old(self).phase == ProtocolPhase::Initializing || old(self).phase
                == ProtocolPhase::StartingThread || old(self).phase == ProtocolPhase::StartingTurn,
        ensures
            (final(self).view(), action_view(r)) == accept_response(old(self).view(), *m),
    {
        let name = awaited_name(self.phase);
        if let Some(e) = &m.error_message {
            let mut msg = join3("Codex ", name, " failed: ");
            push_str(&mut msg, e.as_str());
            return self.fail_with(msg);
        }
        if !m.has_result {
            return self.fail_with(join3("Codex returned a malformed ", name, " response"));
        }
        match self.phase {
            ProtocolPhase::Initializing => {
                self.phase = ProtocolPhase::StartingThread;
                ProtocolAction::StartThread
            },
            ProtocolPhase::StartingThread => match present_of(&m.result_thread_id) {
                None => self.fail_with(owned("Codex returned a malformed thread/start response")),
                Some(t) => {
                    self.phase = ProtocolPhase::StartingTurn;
                    self.thread = Some(t);
                    ProtocolAction::StartTurn
                },
            },
            _ => match present_of(&m.result_turn_id) {
                None => self.fail_with(owned("Codex returned a malformed turn/start response")),
                Some(u) => {
                    self.phase = ProtocolPhase::Streaming;
                    self.turn = Some(u);
                    ProtocolAction::Wait
                },
            },
        }
    }

    fn handshake(&mut self, m: &ProtocolMessage) -> (r: ProtocolAction)
        requires
            old(self).phase == ProtocolPhase::Initializing || old(self).phase
                == ProtocolPhase::StartingThread || old(self).phase == ProtocolPhase::StartingTurn,
        ensures
            (final(self).view(), action_view(r)) == handshake_step(old(self).view(), *m),
    {
        match &m.method {
            Some(meth) => {
                if m.has_id {
                    self.phase = ProtocolPhase::Done;
                    let mut msg = owned("Ask Mentor rejected unsupported Codex request: ");
                    push_str(&mut msg, meth.as_str());
                    return ProtocolAction::Reject(ProtocolFailure::Error(msg));
                }
                if disallowed_method(meth.as_str()) {
                    let mut msg = owned("Ask Mentor rejected unsupported Codex request: ");
                    push_str(&mut msg, meth.as_str());
                    return self.fail_with(msg);
                }
                let lifecycle = crate::concepts::string_is(meth, "item/started")
                    || crate::concepts::string_is(meth, "item/completed");
                let tool = match &m.item {
                    Some(it) => disallowed_item(
                        match &it.item_type {
                            Some(t) => Some(t.as_str()),
                            None => None,
                        },
                    ),
                    None => false,
                };
                if lifecycle && tool {
                    return self.fail_with(
                        owned("Ask Mentor rejected an unsupported Codex tool item"),
                    );
                }
                ProtocolAction::Wait
            },
            None => {
                let expected = awaited_id(self.phase);
                if m.id == Some(expected) {
                    self.accept(m)
                } else {
                    let mut msg = owned("Codex returned an unexpected response while calling ");
                    push_str(&mut msg, awaited_name(self.phase));
                    self.fail_with(msg)
                }
            },
        }
    }
}

impl ProtocolSession {
    fn notification(&mut self, m: &ProtocolMessage, meth: &String) -> (r: ProtocolAction)
        requires
            old(self).phase == ProtocolPhase::Streaming,
            old(self).thread is Some,
            old(self).turn is Some,
        ensures
            (final(self).view(), action_view(r)) == streaming_notification(
                old(self).view(),
                *m,
                meth@,
            ),
    {
        if crate::concepts::string_is(meth, "item/agentMessage/delta") {
            let expected = match &self.agent_item_id {
                Some(x) => x,
                None => {
                    return ProtocolAction::Wait;
                },
            };
            let item_id = match present_of(&m.params_item_id) {
                Some(i) => i,
                None => {
                    return ProtocolAction::Wait;
                },
            };
            if item_id != *expected {
                return ProtocolAction::Wait;
            }
            let delta = match &m.delta {
                Some(d) => Some(d),
                None => match &m.params_text {
                    Some(t) => Some(t),
                    None => None,
                },
            };
            if let Some(d) = delta {
                push_str(&mut self.streamed, d.as_str());
            }
            return ProtocolAction::Wait;
        }
        if crate::concepts::string_is(meth, "item/completed") {
            let item = match &m.item {
                Some(it) => it,
                None => {
                    return self.fail_with(
                        owned("Codex returned a malformed item/completed notification"),
                    );
                },
            };
            let item_id = match present_of(&item.id) {
                Some(i) => i,
                None => {
                    return ProtocolAction::Wait;
                },
            };
            if let Some(expected) = &self.agent_item_id {
                if item_id != *expected {
                    return ProtocolAction::Wait;
                }
            }
            if is_text_of(&item.item_type, "agentMessage") {
                if self.agent_item_id.is_none() {
                    self.agent_item_id = Some(item_id);
                }
                self.completed_text = clone_opt(&item.text);
                return ProtocolAction::Wait;
            }
            let tool = disallowed_item(
                match &item.item_type {
                    Some(t) => Some(t.as_str()),
                    None => None,
                },
            );
            if tool {
                return self.fail_with(owned("Ask Mentor rejected an unsupported Codex tool item"));
            }
            return ProtocolAction::Wait;
        }
        if crate::concepts::string_is(meth, "item/started") {
            let item = match &m.item {
                Some(it) => it,
                None => {
                    return self.fail_with(
                        owned("Codex returned a malformed item/started notification"),
                    );
                },
            };
            let item_id = match present_of(&item.id) {
                Some(i) => i,
                None => {
                    return ProtocolAction::Wait;
                },
            };
            if let Some(expected) = &self.agent_item_id {
                if item_id != *expected {
                    return ProtocolAction::Wait;
                }
            }
            let tool = disallowed_item(
                match &item.item_type {
                    Some(t) => Some(t.as_str()),
                    None => None,
                },
            );
            if tool {
                return self.fail_with(owned("Ask Mentor rejected an unsupported Codex tool item"));
            }
            if is_text_of(&item.item_type, "agentMessage") {
                self.agent_item_id = Some(item_id);
            }
            return ProtocolAction::Wait;
        }
        if crate::concepts::string_is(meth, "turn/completed") {
            let matches = match (&self.thread, &self.turn) {
                (Some(t), Some(u)) => turn_event_matches(m, t, u),
                _ => false,
            };
            if !matches {
                return ProtocolAction::Wait;
            }
            if is_text_of(&m.turn_status, "interrupted") {
                self.phase = ProtocolPhase::Done;
                return ProtocolAction::Finish(Err(ProtocolFailure::Cancelled));
            }
            if !is_text_of(&m.turn_status, "completed") {
                let detail = match &m.turn_error_message {
                    Some(e) => e.clone(),
                    None => owned("Codex did not complete the Ask Mentor turn"),
                };
                return self.fail_with(detail);
            }
            let parsed = match &self.completed_text {
                Some(c) => parse_structured_text(c.as_str()),
                None => parse_structured_text(self.streamed.as_str()),
            };
            return match parsed {
                Ok(a) => {
                    self.phase = ProtocolPhase::Done;
                    ProtocolAction::Finish(Ok(a))
                },
                Err(e) => self.fail_with(e),
            };
        }
        if crate::concepts::string_is(meth, "error") {
            let matches = match (&self.thread, &self.turn) {
                (Some(t), Some(u)) => turn_event_matches(m, t, u),
                _ => false,
            };
            if !matches {
                return ProtocolAction::Wait;
            }
            let detail = match &m.params_error_message {
                Some(e) => e.clone(),
                None => owned("Codex reported an Ask Mentor error"),
            };
            return self.fail_with(detail);
        }
        ProtocolAction::Wait
    }

    fn streaming(&mut self, m: &ProtocolMessage) -> (r: ProtocolAction)
        requires
            old(self).phase == ProtocolPhase::Streaming,
            old(self).thread is Some,
            old(self).turn is Some,
        ensures
            (final(self).view(), action_view(r)) == streaming_step(old(self).view(), *m),
    {
        match &m.method {
            Some(meth) => {
                if m.has_id {
                    self.phase = ProtocolPhase::Done;
                    let mut msg = owned("Ask Mentor rejected unsupported Codex request: ");
                    push_str(&mut msg, meth.as_str());
                    return ProtocolAction::Reject(ProtocolFailure::Error(msg));
                }
                if disallowed_method(meth.as_str()) {
                    let mut msg = owned("Ask Mentor rejected unsupported Codex request: ");
                    push_str(&mut msg, meth.as_str());
                    return self.fail_with(msg);
                }
                self.notification(m, meth)
            },
            None => if m.has_id {
                self.fail_with(owned("Codex returned an unexpected response during Ask Mentor"))
            } else {
                ProtocolAction::Wait
            },
        }
    }

    /// The well-formed sessions: a conversation streams exactly when it has
    /// created its thread and its turn.
    pub open spec fn wf(&self) -> bool {
        &&& (self.phase == ProtocolPhase::StartingTurn ==> self.thread is Some)
        &&& (self.phase == ProtocolPhase::Streaming ==> self.thread is Some && self.turn is Some)
    }

    /// Takes one event of the conversation and says what to do next.
    pub fn step(&mut self, event: ProtocolEvent) -> (r: ProtocolAction)
        requires
            old(self).wf(),
            old(self).phase != ProtocolPhase::Done,
        ensures
            final(self).wf(),
            (final(self).view(), action_view(r)) == step_spec(old(self).view(), event),
    {
        match event {
            ProtocolEvent::Message(m) => if self.phase == ProtocolPhase::Streaming {
                self.streaming(&m)
            } else {
                self.handshake(&m)
            },
            ProtocolEvent::Cancel => {
                self.phase = ProtocolPhase::Done;
                if self.thread.is_some() && self.turn.is_some() {
                    ProtocolAction::Interrupt(ProtocolFailure::Cancelled)
                } else {
                    ProtocolAction::Finish(Err(ProtocolFailure::Cancelled))
                }
            },
            ProtocolEvent::Deadline => self.fail_with(owned(TIMEOUT_ERROR)),
            ProtocolEvent::ReceiveFailed(x) => self.fail_with(x),
            ProtocolEvent::SendFailed(x) => self.fail_with(x),
        }
    }
}

/// The words whose mention, in any ASCII case, marks a notification method
/// that asks for tools, approvals or input.
pub open spec fn refused_word(w: Seq<char>) -> bool {
    ||| lower_ascii(w) == "approval"@
    ||| lower_ascii(w) == "requestuserinput"@
    ||| lower_ascii(w) == "mcp"@
    ||| lower_ascii(w) == "tool/"@
    ||| lower_ascii(w) == "command"@
    ||| lower_ascii(w) == "file"@
    ||| lower_ascii(w) == "web"@
    ||| lower_ascii(w) == "process"@
    ||| lower_ascii(w) == "shell"@
}

/// The item types that run tools.
pub open spec fn tool_item_type(t: Seq<char>) -> bool {
    ||| t == "commandExecution"@
    ||| t == "fileChange"@
    ||| t == "mcpToolCall"@
    ||| t == "dynamicToolCall"@
    ||| t == "collabToolCall"@
    ||| t == "webSearch"@
    ||| t == "imageView"@
}

proof fn lemma_lower_concat(a: Seq<char>, w: Seq<char>, b: Seq<char>)
    ensures
        lower_ascii(a + w + b) == lower_ascii(a) + lower_ascii(w) + lower_ascii(b),
        has_substring(lower_ascii(a + w + b), lower_ascii(w)),
{
    let l = lower_ascii(a + w + b);
    assert(l =~= lower_ascii(a) + lower_ascii(w) + lower_ascii(b));
    let i = a.len() as int;
    assert(l.subrange(i, i + lower_ascii(w).len()) =~= lower_ascii(w));
}

/// Ask Mentor only reads, so it takes no part in what the server asks of
/// it: in every phase before the end, a request from the server (a message
/// with a method and an id) is answered with a rejection and ends the
/// conversation; a notification whose method mentions approval, user input,
/// MCP, tools, commands, files, the web, processes or the shell, in any
/// ASCII case, ends it with a failure; and an `item/started` or
/// `item/completed` notification that carries a tool item (a command, a
/// file change, a tool call, a web search or an image view) ends it with a
/// failure, while the handshake runs and, once the turn streams, unless the
/// item is not the one followed.
pub proof fn law_mentor_takes_no_part_in_tools(
    s: SessionView,
    m: ProtocolMessage,
    a: Seq<char>,
    w: Seq<char>,
    b: Seq<char>,
)
    requires
        s.phase != ProtocolPhase::Done,
    ensures
        m.method is Some && m.has_id ==> step_spec(s, ProtocolEvent::Message(m)) == (
            finished(s),
            ActionView::Reject(
                FailureView::Error("Ask Mentor rejected unsupported Codex request: "@ + m.method->0@),
            ),
        ),
        m.method is Some && !m.has_id && m.method->0@ == a + w + b && refused_word(w) ==> step_spec(
            s,
            ProtocolEvent::Message(m),
        ) == (
            finished(s),
            ActionView::Finish(
                Err(
                    FailureView::Error(
                        "Ask Mentor rejected unsupported Codex request: "@ + m.method->0@,
                    ),
                ),
            ),
        ),
        m.method is Some && !m.has_id && !disallowed_method_spec(m.method->0@) && (m.method->0@
            == "item/started"@ || m.method->0@ == "item/completed"@) && (m.item matches Some(it)
            && it.item_type is Some && tool_item_type(it.item_type->0@) && (s.phase
            != ProtocolPhase::Streaming || (present(it.id) matches Some(iid) && !other_item(s, iid))))
            ==> step_spec(s, ProtocolEvent::Message(m)) == (
            finished(s),
            ActionView::Finish(
                Err(FailureView::Error("Ask Mentor rejected an unsupported Codex tool item"@)),
            ),
        ),
{
    if m.method is Some && !m.has_id && m.method->0@ == a + w + b && refused_word(w) {
        lemma_lower_concat(a, w, b);
    }
    reveal_strlit("item/started");
    reveal_strlit("item/completed");
    reveal_strlit("item/agentMessage/delta");
    reveal_strlit("agentMessage");
    reveal_strlit("commandExecution");
    reveal_strlit("fileChange");
    reveal_strlit("mcpToolCall");
    reveal_strlit("dynamicToolCall");
    reveal_strlit("collabToolCall");
    reveal_strlit("webSearch");
    reveal_strlit("imageView");
    if m.method is Some && m.item is Some && m.item->0.item_type is Some {
        let meth = m.method->0@;
        let it = m.item->0;
        let t = it.item_type->0@;
        if tool_item_type(t) {
            assert(item_disallowed(it));
            assert("agentMessage"@.len() == 12);
            assert(t.len() != 12);
            assert(!is_text(it.item_type, "agentMessage"@));
            assert(meth == "item/started"@ ==> meth != "item/agentMessage/delta"@ && meth
                != "item/completed"@);
            assert(meth == "item/completed"@ ==> meth != "item/agentMessage/delta"@);
        }
    }
}

} // verus!
