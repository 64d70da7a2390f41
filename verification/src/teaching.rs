//! Teaching Mode: the teaching source, the prompt of one explanation at the
//! chosen level, and the state of an explanation request.

use vstd::prelude::*;
use crate::analysis::{blank, is_blank};
use crate::text::{owned, push_str, trim, trimmed};
use crate::watcher::MentorContext;

verus! {

/// The name of the event that carries the teaching state.
pub const TEACHING_STATE_EVENT: &'static str = "teaching-state";

#[derive(Clone, Copy, Debug, PartialEq, Eq, Structural)]
pub enum TeachingLevel {
    Beginner,
    Intermediate,
}

#[derive(Clone, Debug)]
pub struct TeachChangeRequest {
    pub level: TeachingLevel,
    pub selected_path: Option<String>,
}

#[derive(Clone, Debug, PartialEq, Eq)]
pub struct TeachingAnswer {
    pub explanation: String,
    pub level: TeachingLevel,
    pub generation: u64,
}

#[derive(Clone, Debug, PartialEq, Eq)]
pub struct TeachingStateSnapshot {
    pub status: String,
    pub answer: Option<TeachingAnswer>,
    pub error: Option<String>,
}

impl TeachingStateSnapshot {
    pub open spec fn is_idle(&self) -> bool {
        &&& self.status@ == "idle"@
        &&& self.answer is None
        &&& self.error is None
    }
}

impl Default for TeachingStateSnapshot {
    fn default() -> (s: TeachingStateSnapshot)
        ensures
            s.is_idle(),
    {
        TeachingStateSnapshot { status: owned("idle"), answer: None, error: None }
    }
}

// ---------------------------------------------------------------- source

/// What reading a concept map as JSON gives: the error when it is not JSON,
/// else the length of its `concepts` array, or `None` when it has none.
pub uninterp spec fn json_concept_count(text: Seq<char>) -> Result<Option<nat>, Seq<char>>;

/// `serde_json::from_str` into a JSON value, and the length of the value's
/// `concepts` member read as an array; the parse error as its text.
#[verifier::external_body]
fn concept_count(text: &str) -> (r: Result<Option<usize>, String>)
    ensures
        match r {
            Ok(Some(n)) => json_concept_count(text@) == Ok::<Option<nat>, Seq<char>>(Some(n as nat)),
            Ok(None) => json_concept_count(text@) == Ok::<Option<nat>, Seq<char>>(None),
            Err(e) => json_concept_count(text@) == Err::<Option<nat>, Seq<char>>(e@),
        },
{
    match serde_json::from_str::<serde_json::Value>(text) {
        Ok(value) => Ok(value.get("concepts").and_then(serde_json::Value::as_array).map(Vec::len)),
        Err(error) => Err(error.to_string()),
    }
}

/// The files of the teaching source.
pub struct TeachingSources {
    pub guide: String,
    pub concept_map: String,
    pub functions: String,
    pub api: String,
    pub async_await: String,
}

pub open spec fn source_text(s: TeachingSources) -> Seq<char> {
    s.guide@ + "\n\n"@ + s.concept_map@ + "\n\n"@ + s.functions@ + "\n\n"@ + s.api@ + "\n\n"@
        + s.async_await@
}

/// The teaching source as one text: the guide, the concept map and the three
/// concept pages.  An error when the map is not JSON or has no concepts, and
/// when the map does not have three concepts or a page is blank.
pub fn load_teaching_source(sources: &TeachingSources) -> (r: Result<String, String>)
    ensures
        match json_concept_count(sources.concept_map@) {
            Err(e) => r matches Err(x) && x@ == "Teaching Source concept map is invalid: "@ + e,
            Ok(None) => r matches Err(x) && x@ == "Teaching Source concept map has no concepts"@,
            Ok(Some(n)) => if n != 3 || trim(sources.functions@).len() == 0 || trim(
                sources.api@,
            ).len() == 0 || trim(sources.async_await@).len() == 0 || trim(sources.guide@).len()
                == 0 {
                r matches Err(x) && x@ == "Teaching Source is incomplete"@
            } else {
                r matches Ok(x) && x@ == source_text(*sources)
            },
        },
{
    let count = match concept_count(sources.concept_map.as_str()) {
        Err(e) => {
            let mut m = owned("Teaching Source concept map is invalid: ");
            push_str(&mut m, e.as_str());
            return Err(m);
        },
        Ok(None) => {
            return Err(owned("Teaching Source concept map has no concepts"));
        },
        Ok(Some(n)) => n,
    };
    if count != 3 || trimmed(sources.functions.as_str()).as_str().is_empty() || trimmed(
        sources.api.as_str(),
    ).as_str().is_empty() || trimmed(sources.async_await.as_str()).as_str().is_empty() || trimmed(
        sources.guide.as_str(),
    ).as_str().is_empty() {
        return Err(owned("Teaching Source is incomplete"));
    }
    let mut text = sources.guide.clone();
    push_str(&mut text, "\n\n");
    push_str(&mut text, sources.concept_map.as_str());
    push_str(&mut text, "\n\n");
    push_str(&mut text, sources.functions.as_str());
    push_str(&mut text, "\n\n");
    push_str(&mut text, sources.api.as_str());
    push_str(&mut text, "\n\n");
    push_str(&mut text, sources.async_await.as_str());
    Ok(text)
}

// ---------------------------------------------------------------- prompt

pub open spec fn level_name(level: TeachingLevel) -> Seq<char> {
    match level {
        TeachingLevel::Beginner => "beginner"@,
        TeachingLevel::Intermediate => "intermediate"@,
    }
}

pub open spec fn level_rules(level: TeachingLevel) -> Seq<char> {
    match level {
        TeachingLevel::Beginner => "Proceed step by step. Introduce necessary concepts, explain both why and how, provide a reading order, connect abstract ideas to this real code, and avoid introducing too many concepts at once."@,
        TeachingLevel::Intermediate => "Do not repeat basic syntax unnecessarily. Focus on architecture, data flow, abstraction, design decisions, dependencies, testing, and software-engineering concepts."@,
    }
}

pub open spec fn memory_rules(level: TeachingLevel) -> Seq<char> {
    match level {
        TeachingLevel::Beginner => "For a New or unrecorded concept, give the full step-by-step introduction. For Learning, briefly reinforce the core idea before focusing on its flow in this change. For Familiar, give a concise refresher and spend more space on how this change connects the concept to the other code."@,
        TeachingLevel::Intermediate => "For a New or unrecorded concept, define only the essentials before analyzing the design. For Learning, emphasize implementation choices, dependencies, testing, and tradeoffs. For Familiar, assume the foundation and focus on code-specific implications, abstractions, alternatives, and testing."@,
    }
}

fn level_name_text(level: &TeachingLevel) -> (r: &'static str)
    ensures
        r@ == level_name(*level),
{
    match level {
        TeachingLevel::Beginner => "beginner",
        TeachingLevel::Intermediate => "intermediate",
    }
}

/// How deep an explanation at the level goes.
pub fn level_depth_rules(level: &TeachingLevel) -> (r: &'static str)
    ensures
        r@ == level_rules(*level),
{
    match level {
        TeachingLevel::Beginner => "Proceed step by step. Introduce necessary concepts, explain both why and how, provide a reading order, connect abstract ideas to this real code, and avoid introducing too many concepts at once.",
        TeachingLevel::Intermediate => "Do not repeat basic syntax unnecessarily. Focus on architecture, data flow, abstraction, design decisions, dependencies, testing, and software-engineering concepts.",
    }
}

/// How the learning status of a concept adjusts the depth at the level.
pub fn memory_depth_rules(level: &TeachingLevel) -> (r: &'static str)
    ensures
        r@ == memory_rules(*level),
{
    match level {
        TeachingLevel::Beginner => "For a New or unrecorded concept, give the full step-by-step introduction. For Learning, briefly reinforce the core idea before focusing on its flow in this change. For Familiar, give a concise refresher and spend more space on how this change connects the concept to the other code.",
        TeachingLevel::Intermediate => "For a New or unrecorded concept, define only the essentials before analyzing the design. For Learning, emphasize implementation choices, dependencies, testing, and tradeoffs. For Familiar, assume the foundation and focus on code-specific implications, abstractions, alternatives, and testing.",
    }
}

pub open spec fn teaching_prompt(
    level: TeachingLevel,
    source: Seq<char>,
    memory_json: Seq<char>,
    evidence_json: Seq<char>,
) -> Seq<char> {
    "You are Teaching Mode in Codex Mentor. Produce exactly one "@ + level_name(level)
        + " explanation of this current change. Use only the supplied Change Record, frozen changed-file evidence, Teaching Source, and matching Learning Memory. Do not scan the repository, inspect files, use tools, browse, or generate a second explanation. Return only the requested explanation in clear prose.\n\nSelected level: "@
        + level_name(level) + "\n\nLevel depth rules:\n"@ + level_rules(level)
        + "\n\nLearning Memory depth adjustment:\n"@ + memory_rules(level)
        + "\nUse status as user-controlled context for explanation depth. Encounter count and recency are context only; never infer mastery from them. A concept missing from the memory list is unrecorded/New for depth guidance only.\n\nTeaching Source:\n"@
        + source + "\n\nMatching Learning Memory (only concepts from this current Change Record):\n"@
        + memory_json + "\n\nFrozen change evidence (JSON):\n"@ + evidence_json
}

/// The position of the selected frozen file: an error when the selection is
/// blank or names no frozen file exactly.
pub fn teaching_selection(context: &MentorContext, selected_path: Option<&str>) -> (r: Result<
    Option<usize>,
    String,
>)
    ensures
        selected_path is None ==> r == Ok::<Option<usize>, String>(None),
        selected_path matches Some(p) ==> match r {
            Ok(Some(i)) => i < context.analysis.frozen_files@.len()
                && context.analysis.frozen_files@[i as int].path@ == p@ && (forall|j: int|
                0 <= j < i ==> (#[trigger] context.analysis.frozen_files@[j]).path@ != p@)
                && !blank(p@),
            Ok(None) => false,
            Err(e) => e@ == "The selected file is not part of the frozen current change"@ && (blank(
                p@,
            ) || forall|j: int|
                0 <= j < context.analysis.frozen_files@.len() ==> (
                #[trigger] context.analysis.frozen_files@[j]).path@ != p@),
        },
{
    let path = match selected_path {
        None => {
            return Ok(None);
        },
        Some(p) => p,
    };
    let files = &context.analysis.frozen_files;
    let mut i: usize = 0;
    while i < files.len()
        invariant
            i <= files@.len(),
            selected_path == Some(path),
            files@ == context.analysis.frozen_files@,
            forall|j: int| 0 <= j < i ==> (#[trigger] files@[j]).path@ != path@,
        decreases files@.len() - i,
    {
        if crate::concepts::string_is(&files[i].path, path) {
            let owned_path = owned(path);
            if is_blank(&owned_path) {
                return Err(owned("The selected file is not part of the frozen current change"));
            }
            return Ok(Some(i));
        }
        i += 1;
    }
    Err(owned("The selected file is not part of the frozen current change"))
}

/// The prompt of one explanation at the chosen level, from the loaded
/// teaching source, the matching learning memory and the frozen evidence,
/// each as JSON.
pub fn build_teaching_prompt_with_memory(
    level: &TeachingLevel,
    context: &MentorContext,
    selected_path: Option<&str>,
    source: &str,
    memory_json: &str,
    evidence_json: &str,
) -> (r: Result<String, String>)
    ensures
        match selected_path {
            Some(p) => (blank(p@) || forall|j: int|
                0 <= j < context.analysis.frozen_files@.len() ==> (
                #[trigger] context.analysis.frozen_files@[j]).path@ != p@) <==> r is Err,
            None => r is Ok,
        },
        r matches Err(e) ==> e@ == "The selected file is not part of the frozen current change"@,
        r matches Ok(x) ==> x@ == teaching_prompt(*level, source@, memory_json@, evidence_json@),
{
    match teaching_selection(context, selected_path) {
        Err(e) => {
            return Err(e);
        },
        Ok(_) => {},
    }
    let name = level_name_text(level);
    let mut p = owned("You are Teaching Mode in Codex Mentor. Produce exactly one ");
    push_str(&mut p, name);
    push_str(
        &mut p,
        " explanation of this current change. Use only the supplied Change Record, frozen changed-file evidence, Teaching Source, and matching Learning Memory. Do not scan the repository, inspect files, use tools, browse, or generate a second explanation. Return only the requested explanation in clear prose.\n\nSelected level: ",
    );
    push_str(&mut p, name);
    push_str(&mut p, "\n\nLevel depth rules:\n");
    push_str(&mut p, level_depth_rules(level));
    push_str(&mut p, "\n\nLearning Memory depth adjustment:\n");
    push_str(&mut p, memory_depth_rules(level));
    push_str(
        &mut p,
        "\nUse status as user-controlled context for explanation depth. Encounter count and recency are context only; never infer mastery from them. A concept missing from the memory list is unrecorded/New for depth guidance only.\n\nTeaching Source:\n",
    );
    push_str(&mut p, source);
    push_str(
        &mut p,
        "\n\nMatching Learning Memory (only concepts from this current Change Record):\n",
    );
    push_str(&mut p, memory_json);
    push_str(&mut p, "\n\nFrozen change evidence (JSON):\n");
    push_str(&mut p, evidence_json);
    Ok(p)
}

/// The prompt with no learning memory.
pub fn build_teaching_prompt(
    level: &TeachingLevel,
    context: &MentorContext,
    selected_path: Option<&str>,
    source: &str,
    evidence_json: &str,
) -> (r: Result<String, String>)
    ensures
        match selected_path {
            Some(p) => (blank(p@) || forall|j: int|
                0 <= j < context.analysis.frozen_files@.len() ==> (
                #[trigger] context.analysis.frozen_files@[j]).path@ != p@) <==> r is Err,
            None => r is Ok,
        },
        r matches Err(e) ==> e@ == "The selected file is not part of the frozen current change"@,
        r matches Ok(x) ==> x@ == teaching_prompt(*level, source@, "[]"@, evidence_json@),
{
    build_teaching_prompt_with_memory(level, context, selected_path, source, "[]", evidence_json)
}

// ---------------------------------------------------------------- state

/// The state of an explanation request.  Only the request in flight may
/// publish, so a reset can never be overwritten by an older explanation.
pub struct TeachingRuntime {
    pub state: TeachingStateSnapshot,
    pub next_id: u64,
    pub inflight: Option<u64>,
}

impl TeachingRuntime {
    pub fn new() -> (r: TeachingRuntime)
        ensures
            r.state.is_idle(),
            r.next_id == 0,
            r.inflight is None,
    {
        TeachingRuntime { state: TeachingStateSnapshot::default(), next_id: 0, inflight: None }
    }

    /// Starts an explanation unless one is in progress, and returns its id.
    pub fn begin_request(&mut self) -> (r: Result<u64, String>)
        ensures
            old(self).inflight is Some <==> r is Err,
            r matches Err(e) ==> e@ == "Teaching explanation already in progress"@ && *final(self)
                == *old(self),
            r matches Ok(id) ==> {
                &&& id == (if old(self).next_id == u64::MAX {
                    0
                } else {
                    (old(self).next_id + 1) as u64
                })
                &&& final(self).next_id == id
                &&& final(self).inflight == Some(id)
                &&& final(self).state.status@ == "loading"@
                &&& final(self).state.answer is None
                &&& final(self).state.error is None
            },
    {
        if self.inflight.is_some() {
            return Err(owned("Teaching explanation already in progress"));
        }
        self.next_id = self.next_id.wrapping_add(1);
        self.inflight = Some(self.next_id);
        self.state = TeachingStateSnapshot { status: owned("loading"), answer: None, error: None };
        Ok(self.next_id)
    }

    /// Publishes the outcome of a request, if it is still the one in flight.
    pub fn finish(&mut self, request_id: u64, next: TeachingStateSnapshot) -> (r: bool)
        ensures
            r == (old(self).inflight == Some(request_id)),
            r ==> final(self).state == next && final(self).inflight is None && final(self).next_id
                == old(self).next_id,
            !r ==> *final(self) == *old(self),
    {
        if self.inflight != Some(request_id) {
            return false;
        }
        self.inflight = None;
        self.state = next;
        true
    }

    /// Forgets a request that may not publish, if it is still in flight.
    pub fn clear_request(&mut self, request_id: u64) -> (r: bool)
        ensures
            r == (old(self).inflight == Some(request_id)),
            r ==> final(self).state == old(self).state && final(self).inflight is None && final(self).next_id
                == old(self).next_id,
            !r ==> *final(self) == *old(self),
    {
        if self.inflight != Some(request_id) {
            return false;
        }
        self.inflight = None;
        true
    }

    /// Returns to idle, cancelling the request in flight, whose id it gives.
    pub fn reset(&mut self) -> (r: Option<u64>)
        ensures
            r == old(self).inflight,
            final(self).inflight is None,
            final(self).next_id == old(self).next_id,
            final(self).state.is_idle(),
    {
        let inflight = self.inflight;
        self.inflight = None;
        self.state = TeachingStateSnapshot::default();
        inflight
    }
}

/// The state that a finished explanation publishes.
pub fn teaching_outcome(level: TeachingLevel, generation: u64, result: Result<String, String>) -> (r:
    TeachingStateSnapshot)
    ensures
        match result {
            Ok(x) => r.status@ == "available"@ && r.error is None && (r.answer matches Some(a)
                && a.explanation == x && a.level == level && a.generation == generation),
            Err(e) => r.status@ == "error"@ && r.answer is None && r.error == Some(e),
        },
{
    match result {
        Ok(explanation) => TeachingStateSnapshot {
            status: owned("available"),
            answer: Some(TeachingAnswer { explanation, level, generation }),
            error: None,
        },
        Err(error) => TeachingStateSnapshot { status: owned("error"), answer: None, error: Some(error) },
    }
}

} // verus!
