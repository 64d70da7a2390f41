//! Learning Memory: which programming concepts a user met, how often and
//! where, the status the user gave each, and the revision-guarded state of
//! the memory shown for the current change.

use vstd::prelude::*;
use crate::analysis::{decimal, decimal_string, join, join_strings, opt_view};
use crate::concepts::strings_view;
use crate::order::{key_map, lemma_key_map_domain, lex_lt, strictly_sorted, upsert, Keyed};
use crate::mentor::{has_substring, lower_ascii};
use crate::text::{from_chars, is_white_space, is_whitespace, owned, push_str, to_chars, trim, trimmed};

verus! {

/// The name of the event that carries the Learning Memory state.
pub const LEARNING_MEMORY_STATE_EVENT: &'static str = "learning-memory-state";

#[derive(Clone, Copy, Debug, PartialEq, Eq, Structural)]
pub enum LearningStatus {
    New,
    Learning,
    Familiar,
}

pub open spec fn status_text(s: LearningStatus) -> Seq<char> {
    match s {
        LearningStatus::New => "New"@,
        LearningStatus::Learning => "Learning"@,
        LearningStatus::Familiar => "Familiar"@,
    }
}

impl LearningStatus {
    /// The status as the database stores it.
    pub fn as_database_value(&self) -> (r: &'static str)
        ensures
            r@ == status_text(*self),
    {
        match self {
            LearningStatus::New => "New",
            LearningStatus::Learning => "Learning",
            LearningStatus::Familiar => "Familiar",
        }
    }
}

/// Reads a status as the database stores it.
pub fn status_from_database(value: &str) -> (r: Result<LearningStatus, String>)
    ensures
        match r {
            Ok(s) => status_text(s) == value@,
            Err(e) => (forall|s: LearningStatus| status_text(s) != value@) && e@
                == "Learning Memory contains an invalid status: "@ + value@,
        },
{
    let c = to_chars(value);
    if crate::analysis::chars_are(&c, "New") {
        Ok(LearningStatus::New)
    } else if crate::analysis::chars_are(&c, "Learning") {
        Ok(LearningStatus::Learning)
    } else if crate::analysis::chars_are(&c, "Familiar") {
        Ok(LearningStatus::Familiar)
    } else {
        let mut e = owned("Learning Memory contains an invalid status: ");
        push_str(&mut e, value);
        Err(e)
    }
}

#[derive(Clone, Debug, PartialEq, Eq)]
pub struct LearningMemoryRecord {
    pub concept: String,
    pub times_encountered: i64,
    pub status: LearningStatus,
    pub last_encountered: String,
    pub projects_encountered: Vec<String>,
}

#[derive(Clone, Copy, Debug, PartialEq, Eq, Structural)]
pub enum LearningMemoryStateStatus {
    Idle,
    Available,
    Error,
}

#[derive(Clone, Debug, PartialEq, Eq)]
pub struct LearningMemoryStateSnapshot {
    pub revision: u64,
    pub relevant_concepts: Vec<String>,
    pub analysis_generation: Option<u64>,
    pub status: LearningMemoryStateStatus,
    pub records: Vec<LearningMemoryRecord>,
    pub error: Option<String>,
}

impl LearningMemoryStateSnapshot {
    pub open spec fn is_idle(&self) -> bool {
        &&& self.revision == 0
        &&& self.relevant_concepts@.len() == 0
        &&& self.analysis_generation is None
        &&& self.status == LearningMemoryStateStatus::Idle
        &&& self.records@.len() == 0
        &&& self.error is None
    }
}

impl Default for LearningMemoryStateSnapshot {
    fn default() -> (s: LearningMemoryStateSnapshot)
        ensures
            s.is_idle(),
    {
        LearningMemoryStateSnapshot {
            revision: 0,
            relevant_concepts: Vec::new(),
            analysis_generation: None,
            status: LearningMemoryStateStatus::Idle,
            records: Vec::new(),
            error: None,
        }
    }
}

#[derive(Clone, Debug, Default)]
pub struct GetRelevantLearningMemoryRequest {
    pub concepts: Vec<String>,
    pub analysis_generation: u64,
}

#[derive(Clone, Debug)]
pub struct UpdateLearningMemoryStatusRequest {
    pub concept: String,
    pub status: LearningStatus,
    pub analysis_generation: u64,
}

// ---------------------------------------------------------------- revisions

fn strings_equal(a: &Vec<String>, b: &Vec<String>) -> (r: bool)
    ensures
        r == (strings_view(a@) == strings_view(b@)),
{
    let ghost av = strings_view(a@);
    let ghost bv = strings_view(b@);
    if a.len() != b.len() {
        assert(av.len() != bv.len());
        return false;
    }
    let mut i: usize = 0;
    while i < a.len()
        invariant
            av == strings_view(a@),
            bv == strings_view(b@),
            a@.len() == b@.len(),
            i <= a@.len(),
            forall|j: int| 0 <= j < i ==> av[j] == bv[j],
        decreases a@.len() - i,
    {
        if a[i] != b[i] {
            assert(av[i as int] != bv[i as int]);
            return false;
        }
        i += 1;
    }
    assert(av =~= bv);
    true
}

fn clone_strings(a: &Vec<String>) -> (r: Vec<String>)
    ensures
        r@ == a@,
{
    let mut r: Vec<String> = Vec::new();
    let mut i: usize = 0;
    while i < a.len()
        invariant
            i <= a@.len(),
            r@ == a@.take(i as int),
        decreases a@.len() - i,
    {
        r.push(a[i].clone());
        i += 1;
        assert(r@ =~= a@.take(i as int));
    }
    assert(a@.take(a@.len() as int) =~= a@);
    r
}

pub open spec fn stale_message(requested: u64, current: u64) -> Seq<char> {
    "The Learning Memory request belongs to stale analysis generation "@ + decimal(
        requested as nat,
    ) + "; current generation is "@ + decimal(current as nat)
}

pub open spec fn scope_message() -> Seq<char> {
    "The Learning Memory request does not match the current Change Record scope"@
}

/// The runtime of Learning Memory: the published state, the scope of the
/// current change (its concepts and analysis generation), and the last
/// revision reserved.  Only the latest reservation may publish, and an older
/// generation, or the same generation with other concepts, cannot reserve.
pub struct LearningMemoryRuntime {
    pub state: LearningMemoryStateSnapshot,
    pub relevant_concepts: Vec<String>,
    pub analysis_generation: Option<u64>,
    pub next_revision: u64,
}

impl LearningMemoryRuntime {
    pub fn new() -> (r: LearningMemoryRuntime)
        ensures
            r.state.is_idle(),
            r.relevant_concepts@.len() == 0,
            r.analysis_generation is None,
            r.next_revision == 0,
    {
        LearningMemoryRuntime {
            state: LearningMemoryStateSnapshot::default(),
            relevant_concepts: Vec::new(),
            analysis_generation: None,
            next_revision: 0,
        }
    }

    /// Reserves the next revision for a request about the given concepts of
    /// an analysis generation, which becomes the current scope.
    pub fn reserve_revision(&mut self, relevant_concepts: Vec<String>, analysis_generation: u64) -> (r:
        Result<u64, String>)
        ensures
            match old(self).analysis_generation {
                Some(g) => if analysis_generation < g {
                    r matches Err(e) && e@ == stale_message(analysis_generation, g)
                } else if analysis_generation == g && strings_view(old(self).relevant_concepts@)
                    != strings_view(relevant_concepts@) {
                    r matches Err(e) && e@ == scope_message()
                } else {
                    r is Ok
                },
                None => r is Ok,
            },
            r is Err ==> *final(self) == *old(self),
            old(self).analysis_generation matches Some(g) ==> (final(self).analysis_generation matches Some(h) && g <= h),
            r matches Ok(rev) ==> {
                &&& rev == (if old(self).next_revision == u64::MAX {
                    u64::MAX
                } else {
                    (old(self).next_revision + 1) as u64
                })
                &&& final(self).next_revision == rev
                &&& final(self).relevant_concepts == relevant_concepts
                &&& final(self).analysis_generation == Some(analysis_generation)
                &&& final(self).state == old(self).state
            },
    {
        if let Some(current) = self.analysis_generation {
            if analysis_generation < current {
                let mut e = owned("The Learning Memory request belongs to stale analysis generation ");
                let a = decimal_string(analysis_generation);
                push_str(&mut e, a.as_str());
                push_str(&mut e, "; current generation is ");
                let c = decimal_string(current);
                push_str(&mut e, c.as_str());
                return Err(e);
            }
            if analysis_generation == current && !strings_equal(
                &self.relevant_concepts,
                &relevant_concepts,
            ) {
                return Err(
                    owned("The Learning Memory request does not match the current Change Record scope"),
                );
            }
        }
        self.next_revision = match self.next_revision.checked_add(1) {
            Some(n) => n,
            None => u64::MAX,
        };
        self.relevant_concepts = relevant_concepts;
        self.analysis_generation = Some(analysis_generation);
        Ok(self.next_revision)
    }

    /// Reserves a revision for a status update of the current scope, and
    /// gives the scope's concepts.
    pub fn reserve_status_revision(&mut self, analysis_generation: u64) -> (r: Result<
        (Vec<String>, u64),
        String,
    >)
        ensures
            (old(self).analysis_generation != Some(analysis_generation)) <==> r is Err,
            r matches Err(e) ==> e@ == "The status update does not match the current Change Record"@
                && *final(self) == *old(self),
            r matches Ok((concepts, rev)) ==> {
                &&& concepts@ == old(self).relevant_concepts@
                &&& rev == (if old(self).next_revision == u64::MAX {
                    u64::MAX
                } else {
                    (old(self).next_revision + 1) as u64
                })
                &&& final(self).next_revision == rev
                &&& final(self).relevant_concepts@ == old(self).relevant_concepts@
                &&& final(self).analysis_generation == old(self).analysis_generation
                &&& final(self).state == old(self).state
            },
    {
        if self.analysis_generation != Some(analysis_generation) {
            return Err(owned("The status update does not match the current Change Record"));
        }
        let relevant_concepts = clone_strings(&self.relevant_concepts);
        let again = clone_strings(&relevant_concepts);
        match self.reserve_revision(again, analysis_generation) {
            Ok(revision) => Ok((relevant_concepts, revision)),
            Err(e) => Err(e),
        }
    }

    /// Publishes a state for a reserved revision, unless a later revision
    /// was reserved since.
    pub fn publish_state(
        &mut self,
        revision: u64,
        relevant_concepts: Vec<String>,
        analysis_generation: Option<u64>,
        status: LearningMemoryStateStatus,
        records: Vec<LearningMemoryRecord>,
        error: Option<String>,
    ) -> (r: bool)
        ensures
            r == (revision == old(self).next_revision),
            !r ==> *final(self) == *old(self),
            r ==> {
                &&& final(self).state.revision == revision
                &&& final(self).state.relevant_concepts@ == relevant_concepts@
                &&& final(self).state.analysis_generation == analysis_generation
                &&& final(self).state.status == status
                &&& final(self).state.records == records
                &&& final(self).state.error == error
                &&& final(self).relevant_concepts == relevant_concepts
                &&& final(self).analysis_generation == analysis_generation
                &&& final(self).next_revision == old(self).next_revision
            },
    {
        if revision != self.next_revision {
            return false;
        }
        let published = clone_strings(&relevant_concepts);
        self.state = LearningMemoryStateSnapshot {
            revision,
            relevant_concepts: published,
            analysis_generation,
            status,
            records,
            error,
        };
        self.relevant_concepts = relevant_concepts;
        self.analysis_generation = analysis_generation;
        true
    }
}

// ---------------------------------------------------------------- concepts

/// What `str::to_lowercase` gives for a text: its Unicode lowercase mapping.
pub uninterp spec fn lowercase(s: Seq<char>) -> Seq<char>;

/// The lowercase of an ASCII character: `A` to `Z` become `a` to `z`, and
/// every other character stays.
pub open spec fn ascii_lower(c: char) -> char {
    if 'A' <= c <= 'Z' {
        ((c as u32) + 32) as char
    } else {
        c
    }
}

/// `str::to_lowercase`.  On ASCII text the Unicode lowercase mapping is the
/// ASCII one, character by character, so the length stays; of other text
/// only that the result is its lowercase mapping is stated.
#[verifier::external_body]
fn to_lowercase(s: &str) -> (r: String)
    ensures
        r@ == lowercase(s@),
        (forall|i: int| 0 <= i < s@.len() ==> (#[trigger] s@[i] as u32) < 128) ==> r@ == s@.map_values(
            |c: char| ascii_lower(c),
        ),
{
    s.to_lowercase()
}

/// The white-space-separated segments of a text, empty ones included.
pub open spec fn ws_segments(s: Seq<char>) -> Seq<Seq<char>>
    decreases s.len(),
{
    if s.len() == 0 {
        seq![seq![]]
    } else {
        let r = ws_segments(s.drop_last());
        if is_white_space(s.last()) {
            r.push(seq![])
        } else {
            r.update(r.len() - 1, r.last().push(s.last()))
        }
    }
}

pub open spec fn non_empty(segs: Seq<Seq<char>>) -> Seq<Seq<char>>
    decreases segs.len(),
{
    if segs.len() == 0 {
        seq![]
    } else if segs.last().len() == 0 {
        non_empty(segs.drop_last())
    } else {
        non_empty(segs.drop_last()).push(segs.last())
    }
}

/// The words of a text, as `str::split_whitespace` gives them.
pub open spec fn words(s: Seq<char>) -> Seq<Seq<char>> {
    non_empty(ws_segments(s))
}

/// A concept name in its one spelling: its words joined by single spaces,
/// in lowercase; `None` when nothing remains.
pub open spec fn normalized_concept(s: Seq<char>) -> Option<Seq<char>> {
    let l = lowercase(join(words(s), " "@));
    if l.len() == 0 {
        None
    } else {
        Some(l)
    }
}

proof fn lemma_ws_segments_len(s: Seq<char>)
    ensures
        ws_segments(s).len() >= 1,
    decreases s.len(),
{
    if s.len() > 0 {
        lemma_ws_segments_len(s.drop_last());
    }
}

fn finish_word(out: &mut Vec<String>, cur: &Vec<char>)
    ensures
        strings_view(final(out)@) == if cur@.len() == 0 {
            strings_view(old(out)@)
        } else {
            strings_view(old(out)@).push(cur@)
        },
{
    if cur.len() > 0 {
        let ghost prev = out@;
        out.push(from_chars(cur.as_slice()));
        assert(strings_view(out@) =~= strings_view(prev).push(cur@));
    }
}

fn words_of(text: &str) -> (r: Vec<String>)
    ensures
        strings_view(r@) == words(text@),
{
    let chars = to_chars(text);
    let ghost s = text@;
    let n = chars.len();
    let mut out: Vec<String> = Vec::new();
    let mut cur: Vec<char> = Vec::new();
    let mut i: usize = 0;
    assert(s.take(0) =~= seq![]);
    while i < n
        invariant
            chars@ == s,
            n == s.len(),
            i <= n,
            ws_segments(s.take(i as int)).len() >= 1,
            cur@ == ws_segments(s.take(i as int)).last(),
            strings_view(out@) == non_empty(ws_segments(s.take(i as int)).drop_last()),
        decreases n - i,
    {
        let c = chars[i];
        let ghost prev = ws_segments(s.take(i as int));
        assert(s.take(i + 1).drop_last() =~= s.take(i as int));
        assert(s.take(i + 1).last() == c);
        if is_whitespace(c) {
            finish_word(&mut out, &cur);
            cur = Vec::new();
            proof {
                let next = ws_segments(s.take(i + 1));
                assert(next == prev.push(seq![]));
                assert(next.drop_last() =~= prev);
                assert(prev.drop_last().push(prev.last()) =~= prev);
            }
        } else {
            cur.push(c);
            proof {
                let next = ws_segments(s.take(i + 1));
                assert(next == prev.update(prev.len() - 1, prev.last().push(c)));
                assert(next.drop_last() =~= prev.drop_last());
            }
        }
        i += 1;
    }
    assert(s.take(n as int) =~= s);
    let ghost segs = ws_segments(s);
    finish_word(&mut out, &cur);
    assert(segs.drop_last().push(segs.last()) =~= segs);
    out
}

/// Brings a concept name to its one spelling.
/// Every character of the text is ASCII.
pub open spec fn all_ascii(s: Seq<char>) -> bool {
    forall|i: int| 0 <= i < s.len() ==> (#[trigger] s[i] as u32) < 128
}

/// The normalized name of an ASCII text: its words joined by single spaces,
/// with `A` to `Z` made lowercase; `None` when nothing remains.
pub open spec fn ascii_normalized_concept(s: Seq<char>) -> Option<Seq<char>> {
    let l = join(words(s), " "@).map_values(|c: char| ascii_lower(c));
    if l.len() == 0 {
        None
    } else {
        Some(l)
    }
}

proof fn lemma_ws_segments_ascii(s: Seq<char>)
    requires
        all_ascii(s),
    ensures
        forall|k: int| 0 <= k < ws_segments(s).len() ==> all_ascii(#[trigger] ws_segments(s)[k]),
    decreases s.len(),
{
    if s.len() > 0 {
        let d = s.drop_last();
        assert(all_ascii(d)) by {
            assert forall|i: int| 0 <= i < d.len() implies (#[trigger] d[i] as u32) < 128 by {
                assert(d[i] == s[i]);
            }
        }
        lemma_ws_segments_ascii(d);
        lemma_ws_segments_len(d);
        let r = ws_segments(d);
        let x = s.last();
        assert((s[s.len() - 1] as u32) < 128);
        if !is_white_space(x) {
            let t = ws_segments(s);
            assert forall|k: int| 0 <= k < t.len() implies all_ascii(#[trigger] t[k]) by {
                if k == r.len() - 1 {
                    let l = r.last().push(x);
                    assert(t[k] == l);
                    assert(all_ascii(r[r.len() - 1]));
                    assert forall|i: int| 0 <= i < l.len() implies (#[trigger] l[i] as u32) < 128 by {
                        if i < l.len() - 1 {
                            assert(l[i] == r.last()[i]);
                        }
                    }
                } else {
                    assert(t[k] == r[k]);
                }
            }
        } else {
            let t = ws_segments(s);
            assert forall|k: int| 0 <= k < t.len() implies all_ascii(#[trigger] t[k]) by {
                if k < r.len() {
                    assert(t[k] == r[k]);
                }
            }
        }
    }
}

proof fn lemma_non_empty_ascii(segs: Seq<Seq<char>>)
    requires
        forall|k: int| 0 <= k < segs.len() ==> all_ascii(#[trigger] segs[k]),
    ensures
        forall|k: int| 0 <= k < non_empty(segs).len() ==> all_ascii(#[trigger] non_empty(segs)[k]),
    decreases segs.len(),
{
    if segs.len() > 0 {
        let d = segs.drop_last();
        assert forall|k: int| 0 <= k < d.len() implies all_ascii(#[trigger] d[k]) by {
            assert(d[k] == segs[k]);
        }
        lemma_non_empty_ascii(d);
        assert(all_ascii(segs[segs.len() - 1]));
        let n = non_empty(d);
        if segs.last().len() > 0 {
            assert forall|k: int| 0 <= k < n.push(segs.last()).len() implies all_ascii(
                #[trigger] n.push(segs.last())[k],
            ) by {
                if k < n.len() {
                    assert(n.push(segs.last())[k] == n[k]);
                }
            }
        }
    }
}

proof fn lemma_join_ascii(parts: Seq<Seq<char>>, sep: Seq<char>)
    requires
        all_ascii(sep),
        forall|k: int| 0 <= k < parts.len() ==> all_ascii(#[trigger] parts[k]),
    ensures
        all_ascii(join(parts, sep)),
    decreases parts.len(),
{
    if parts.len() > 1 {
        let d = parts.drop_last();
        assert forall|k: int| 0 <= k < d.len() implies all_ascii(#[trigger] d[k]) by {
            assert(d[k] == parts[k]);
        }
        lemma_join_ascii(d, sep);
        let a = join(d, sep);
        let b = parts.last();
        assert(all_ascii(parts[parts.len() - 1]));
        let j = a + sep + b;
        assert forall|i: int| 0 <= i < j.len() implies (#[trigger] j[i] as u32) < 128 by {
            if i < a.len() {
                assert(j[i] == a[i]);
            } else if i < a.len() + sep.len() {
                assert(j[i] == sep[i - a.len()]);
            } else {
                assert(j[i] == b[i - a.len() - sep.len()]);
            }
        }
    } else if parts.len() == 1 {
        assert(all_ascii(parts[0]));
    }
}

/// The words of an ASCII text, joined by single spaces, are ASCII.
proof fn lemma_joined_words_ascii(s: Seq<char>)
    requires
        all_ascii(s),
    ensures
        all_ascii(join(words(s), " "@)),
{
    lemma_ws_segments_ascii(s);
    lemma_non_empty_ascii(ws_segments(s));
    reveal_strlit(" ");
    lemma_join_ascii(words(s), " "@);
}

pub fn normalize_concept(value: &str) -> (r: Option<String>)
    ensures
        opt_view(r) == normalized_concept(value@),
        all_ascii(value@) ==> opt_view(r) == ascii_normalized_concept(value@),
{
    let w = words_of(value);
    let joined = join_strings(&w, " ");
    proof {
        if all_ascii(value@) {
            lemma_joined_words_ascii(value@);
        }
    }
    let lower = to_lowercase(joined.as_str());
    if lower.as_str().is_empty() {
        None
    } else {
        Some(lower)
    }
}

/// What lowering an ASCII letter keeps.
proof fn lemma_lower_facts(c: char)
    ensures
        ascii_lower(ascii_lower(c)) == ascii_lower(c),
        is_white_space(ascii_lower(c)) == is_white_space(c),
        (c as u32) < 128 ==> (ascii_lower(c) as u32) < 128,
        ascii_lower(' ') == ' ',
{
}


/// No character of the text is white space.
spec fn no_white_space(w: Seq<char>) -> bool {
    forall|i: int| 0 <= i < w.len() ==> !is_white_space(#[trigger] w[i])
}

/// A space splits a text into the segments on either side.
proof fn lemma_ws_segments_split(x: Seq<char>, y: Seq<char>)
    ensures
        ws_segments(x + seq![' '] + y) == ws_segments(x) + ws_segments(y),
    decreases y.len(),
{
    let z = x + seq![' '] + y;
    if y.len() == 0 {
        assert(z.drop_last() =~= x);
        assert(z.last() == ' ');
        assert(is_white_space(' '));
        assert(ws_segments(y) == seq![Seq::<char>::empty()]);
        assert(ws_segments(x).push(Seq::<char>::empty()) =~= ws_segments(x) + seq![Seq::<char>::empty()]);
    } else {
        let yd = y.drop_last();
        lemma_ws_segments_split(x, yd);
        assert(z.drop_last() =~= x + seq![' '] + yd);
        assert(z.last() == y.last());
        lemma_ws_segments_len(yd);
        lemma_ws_segments_len(x);
        let a = ws_segments(x);
        let b = ws_segments(yd);
        if is_white_space(y.last()) {
            assert((a + b).push(Seq::<char>::empty()) =~= a + b.push(Seq::<char>::empty()));
        } else {
            assert((a + b).update((a + b).len() - 1, (a + b).last().push(y.last())) =~= a + b.update(
                b.len() - 1,
                b.last().push(y.last()),
            ));
        }
    }
}

/// A word without white space is one segment.
proof fn lemma_ws_segments_word(w: Seq<char>)
    requires
        no_white_space(w),
    ensures
        ws_segments(w) == seq![w],
    decreases w.len(),
{
    if w.len() > 0 {
        let d = w.drop_last();
        assert(no_white_space(d)) by {
            assert forall|i: int| 0 <= i < d.len() implies !is_white_space(#[trigger] d[i]) by {
                assert(d[i] == w[i]);
            }
        }
        lemma_ws_segments_word(d);
        assert(!is_white_space(w[w.len() - 1]));
        assert(d.push(w.last()) =~= w);
        assert(seq![d].update(0, d.push(w.last())) =~= seq![w]);
    } else {
        assert(w =~= seq![]);
    }
}

/// Words without white space, joined by single spaces, split back into them.
proof fn lemma_words_of_join(p: Seq<Seq<char>>)
    requires
        forall|k: int| 0 <= k < p.len() ==> (#[trigger] p[k]).len() > 0 && no_white_space(p[k]),
    ensures
        p.len() > 0 ==> ws_segments(join(p, seq![' '])) == p,
        words(join(p, seq![' '])) == p,
    decreases p.len(),
{
    if p.len() == 0 {
        assert(join(p, seq![' ']) == Seq::<char>::empty());
        assert(ws_segments(Seq::<char>::empty()) == seq![Seq::<char>::empty()]);
        let one = seq![Seq::<char>::empty()];
        assert(one.drop_last() =~= Seq::<Seq<char>>::empty());
        assert(one.last().len() == 0);
        assert(non_empty(one.drop_last()) == Seq::<Seq<char>>::empty());
        assert(non_empty(one) =~= Seq::<Seq<char>>::empty());
    } else {
        let d = p.drop_last();
        assert forall|k: int| 0 <= k < d.len() implies (#[trigger] d[k]).len() > 0 && no_white_space(d[k]) by {
            assert(d[k] == p[k]);
        }
        lemma_words_of_join(d);
        assert(p[p.len() - 1].len() > 0 && no_white_space(p[p.len() - 1]));
        lemma_ws_segments_word(p.last());
        if p.len() == 1 {
            assert(join(p, seq![' ']) == p[0]);
            assert(seq![p[0]] =~= p);
        } else {
            lemma_ws_segments_split(join(d, seq![' ']), p.last());
            assert(join(p, seq![' ']) == join(d, seq![' ']) + seq![' '] + p.last());
            assert(d + seq![p.last()] =~= p);
        }
        lemma_non_empty_all(p);
    }
}

/// Dropping empty segments keeps segments that are all non-empty.
proof fn lemma_non_empty_all(p: Seq<Seq<char>>)
    requires
        forall|k: int| 0 <= k < p.len() ==> (#[trigger] p[k]).len() > 0,
    ensures
        non_empty(p) == p,
    decreases p.len(),
{
    if p.len() > 0 {
        let d = p.drop_last();
        assert forall|k: int| 0 <= k < d.len() implies (#[trigger] d[k]).len() > 0 by {
            assert(d[k] == p[k]);
        }
        lemma_non_empty_all(d);
        assert(p[p.len() - 1].len() > 0);
        assert(d.push(p.last()) =~= p);
    }
}


/// Segments hold no white space.
proof fn lemma_ws_segments_clean(s: Seq<char>)
    ensures
        forall|k: int| 0 <= k < ws_segments(s).len() ==> no_white_space(#[trigger] ws_segments(s)[k]),
    decreases s.len(),
{
    if s.len() > 0 {
        let d = s.drop_last();
        lemma_ws_segments_clean(d);
        lemma_ws_segments_len(d);
        let r = ws_segments(d);
        let t = ws_segments(s);
        let x = s.last();
        assert forall|k: int| 0 <= k < t.len() implies no_white_space(#[trigger] t[k]) by {
            if is_white_space(x) {
                if k < r.len() {
                    assert(t[k] == r[k]);
                } else {
                    assert(t[k] == Seq::<char>::empty());
                }
            } else if k == r.len() - 1 {
                let l = r.last().push(x);
                assert(t[k] == l);
                assert(no_white_space(r[r.len() - 1]));
                assert forall|i: int| 0 <= i < l.len() implies !is_white_space(#[trigger] l[i]) by {
                    if i < l.len() - 1 {
                        assert(l[i] == r.last()[i]);
                    }
                }
            } else {
                assert(t[k] == r[k]);
            }
        }
    }
}

/// Words are non-empty and hold no white space.
proof fn lemma_non_empty_clean(segs: Seq<Seq<char>>)
    requires
        forall|k: int| 0 <= k < segs.len() ==> no_white_space(#[trigger] segs[k]),
    ensures
        forall|k: int|
            0 <= k < non_empty(segs).len() ==> (#[trigger] non_empty(segs)[k]).len() > 0
                && no_white_space(non_empty(segs)[k]),
    decreases segs.len(),
{
    if segs.len() > 0 {
        let d = segs.drop_last();
        assert forall|k: int| 0 <= k < d.len() implies no_white_space(#[trigger] d[k]) by {
            assert(d[k] == segs[k]);
        }
        lemma_non_empty_clean(d);
        assert(no_white_space(segs[segs.len() - 1]));
        let n = non_empty(d);
        if segs.last().len() > 0 {
            assert forall|k: int| 0 <= k < n.push(segs.last()).len() implies (#[trigger] n.push(
                segs.last(),
            )[k]).len() > 0 && no_white_space(n.push(segs.last())[k]) by {
                if k < n.len() {
                    assert(n.push(segs.last())[k] == n[k]);
                }
            }
        }
    }
}

/// A text with `A` to `Z` made lowercase.
spec fn lower_text(w: Seq<char>) -> Seq<char> {
    w.map_values(|c: char| ascii_lower(c))
}

/// Lowering commutes with joining by spaces.
proof fn lemma_join_lower(p: Seq<Seq<char>>)
    ensures
        lower_text(join(p, seq![' '])) == join(p.map_values(|w: Seq<char>| lower_text(w)), seq![' ']),
    decreases p.len(),
{
    let q = p.map_values(|w: Seq<char>| lower_text(w));
    if p.len() == 1 {
        assert(q[0] == lower_text(p[0]));
    } else if p.len() > 1 {
        let d = p.drop_last();
        lemma_join_lower(d);
        assert(d.map_values(|w: Seq<char>| lower_text(w)) =~= q.drop_last());
        let a = join(d, seq![' ']);
        lemma_lower_facts(' ');
        assert(lower_text(a + seq![' '] + p.last()) =~= lower_text(a) + seq![' '] + lower_text(p.last()));
        assert(q.last() == lower_text(p.last()));
    } else {
        assert(lower_text(join(p, seq![' '])) =~= Seq::<char>::empty());
    }
}

/// Normalizing an ASCII concept name a second time changes nothing: the
/// normalized name is ASCII and is its own normalized name.
pub proof fn law_normalizing_a_concept_name_twice_changes_nothing(s: Seq<char>)
    requires
        all_ascii(s),
    ensures
        ascii_normalized_concept(s) matches Some(n) ==> all_ascii(n) && ascii_normalized_concept(n)
            == Some(n),
{
    reveal_strlit(" ");
    assert(" "@ =~= seq![' ']);
    let w = words(s);
    let j = join(w, seq![' ']);
    let l = lower_text(j);
    lemma_ws_segments_clean(s);
    lemma_non_empty_clean(ws_segments(s));
    lemma_join_lower(w);
    let w2 = w.map_values(|x: Seq<char>| lower_text(x));
    assert forall|k: int| 0 <= k < w2.len() implies (#[trigger] w2[k]).len() > 0 && no_white_space(w2[k]) by {
        assert(w2[k] == lower_text(w[k]));
        assert(w[k].len() > 0 && no_white_space(w[k]));
        assert forall|i: int| 0 <= i < w2[k].len() implies !is_white_space(#[trigger] w2[k][i]) by {
            lemma_lower_facts(w[k][i]);
        }
    }
    lemma_words_of_join(w2);
    assert(words(l) == w2);
    assert(lower_text(l) =~= l) by {
        assert forall|i: int| 0 <= i < l.len() implies lower_text(l)[i] == l[i] by {
            lemma_lower_facts(j[i]);
        }
    }
    lemma_joined_words_ascii(s);
    assert forall|i: int| 0 <= i < l.len() implies (#[trigger] l[i] as u32) < 128 by {
        lemma_lower_facts(j[i]);
    }
}

/// The normalized names of the values that have one, in order.
pub open spec fn normalized_all(values: Seq<String>) -> Seq<Seq<char>>
    decreases values.len(),
{
    if values.len() == 0 {
        seq![]
    } else {
        match normalized_concept(values.last()@) {
            Some(c) => normalized_all(values.drop_last()).push(c),
            None => normalized_all(values.drop_last()),
        }
    }
}

/// The strings of `r` in strictly increasing order, each once, and exactly
/// the members of `items`.
pub open spec fn sorted_set_of(r: Seq<String>, items: Seq<Seq<char>>) -> bool {
    &&& strictly_sorted(r)
    &&& forall|k: Seq<char>| strings_view(r).contains(k) <==> items.contains(k)
}

proof fn lemma_push_contains(s: Seq<Seq<char>>, x: Seq<char>, k: Seq<char>)
    ensures
        s.push(x).contains(k) == (s.contains(k) || x == k),
{
    if s.contains(k) {
        let i = choose|i: int| 0 <= i < s.len() && s[i] == k;
        assert(s.push(x)[i] == k);
    }
    if x == k {
        assert(s.push(x)[s.len() as int] == k);
    }
    if s.push(x).contains(k) {
        let i = choose|i: int| 0 <= i < s.push(x).len() && s.push(x)[i] == k;
        if i < s.len() {
            assert(s[i] == k);
        }
    }
}

proof fn lemma_key_map_strings(r: Seq<String>, k: Seq<char>)
    ensures
        key_map(r).contains_key(k) <==> strings_view(r).contains(k),
{
    lemma_key_map_domain(r, k);
    if strings_view(r).contains(k) {
        let i = choose|i: int| 0 <= i < strings_view(r).len() && strings_view(r)[i] == k;
        assert(r[i].key() == k);
    }
    if key_map(r).contains_key(k) {
        let i = choose|i: int| 0 <= i < r.len() && #[trigger] r[i].key() == k;
        assert(strings_view(r)[i] == k);
    }
}

/// The normalized concept names, each once, in order.
/// The normalized names of ASCII values that have one, in order.
pub open spec fn ascii_normalized_all(values: Seq<String>) -> Seq<Seq<char>>
    decreases values.len(),
{
    if values.len() == 0 {
        seq![]
    } else {
        match ascii_normalized_concept(values.last()@) {
            Some(c) => ascii_normalized_all(values.drop_last()).push(c),
            None => ascii_normalized_all(values.drop_last()),
        }
    }
}

pub fn normalize_concepts(values: &[String]) -> (r: Vec<String>)
    ensures
        sorted_set_of(r@, normalized_all(values@)),
        (forall|i: int| 0 <= i < values@.len() ==> all_ascii(#[trigger] values@[i]@)) ==> sorted_set_of(
            r@,
            ascii_normalized_all(values@),
        ),
{
    let mut out: Vec<String> = Vec::new();
    let mut i: usize = 0;
    while i < values.len()
        invariant
            i <= values@.len(),
            (forall|j: int| 0 <= j < i ==> all_ascii(#[trigger] values@[j]@)) ==> normalized_all(
                values@.take(i as int),
            ) == ascii_normalized_all(values@.take(i as int)),
            strictly_sorted(out@),
            forall|k: Seq<char>| #[trigger]
                key_map(out@).contains_key(k) <==> normalized_all(values@.take(i as int)).contains(
                    k,
                ),
        decreases values@.len() - i,
    {
        proof {
            assert(values@.take(i + 1).drop_last() =~= values@.take(i as int));
            assert(values@.take(i + 1).last() == values@[i as int]);
        }
        let normalized = normalize_concept(values[i].as_str());
        proof {
            let t = values@.take(i + 1);
            let t0 = values@.take(i as int);
            if forall|j: int| 0 <= j < i + 1 ==> all_ascii(#[trigger] values@[j]@) {
                assert forall|j: int| 0 <= j < i implies all_ascii(#[trigger] values@[j]@) by {}
                assert(all_ascii(values@[i as int]@));
                assert(normalized_all(t0) == ascii_normalized_all(t0));
                assert(normalized_all(t) == ascii_normalized_all(t));
            }
        }
        match normalized {
            Some(c) => {
                let ghost cv = c@;
                upsert(&mut out, c);
                proof {
                    assert forall|k: Seq<char>| #[trigger]
                        key_map(out@).contains_key(k) <==> normalized_all(
                            values@.take(i + 1),
                        ).contains(k) by {
                        lemma_push_contains(normalized_all(values@.take(i as int)), cv, k);
                    }
                }
            },
            None => {},
        }
        i += 1;
    }
    assert(values@.take(values@.len() as int) =~= values@);
    proof {
        assert forall|k: Seq<char>| strings_view(out@).contains(k) <==> normalized_all(
            values@,
        ).contains(k) by {
            lemma_key_map_strings(out@, k);
        }
    }
    out
}

// ---------------------------------------------------------------- projects

/// A project path in its one spelling: trimmed; `None` when blank.
pub open spec fn normalized_project(s: Seq<char>) -> Option<Seq<char>> {
    if trim(s).len() == 0 {
        None
    } else {
        Some(trim(s))
    }
}

pub fn normalize_project(value: &str) -> (r: Option<String>)
    ensures
        opt_view(r) == normalized_project(value@),
{
    let project = trimmed(value);
    if project.as_str().is_empty() {
        None
    } else {
        Some(project)
    }
}

pub open spec fn normalized_projects(values: Seq<String>) -> Seq<Seq<char>>
    decreases values.len(),
{
    if values.len() == 0 {
        seq![]
    } else {
        match normalized_project(values.last()@) {
            Some(c) => normalized_projects(values.drop_last()).push(c),
            None => normalized_projects(values.drop_last()),
        }
    }
}

/// The normalized project paths, each once, in order.
pub fn dedupe_projects(projects: Vec<String>) -> (r: Vec<String>)
    ensures
        sorted_set_of(r@, normalized_projects(projects@)),
{
    let mut out: Vec<String> = Vec::new();
    let mut i: usize = 0;
    while i < projects.len()
        invariant
            i <= projects@.len(),
            strictly_sorted(out@),
            forall|k: Seq<char>| #[trigger]
                key_map(out@).contains_key(k) <==> normalized_projects(projects@.take(i as int)).contains(
                    k,
                ),
        decreases projects@.len() - i,
    {
        proof {
            assert(projects@.take(i + 1).drop_last() =~= projects@.take(i as int));
            assert(projects@.take(i + 1).last() == projects@[i as int]);
        }
        match normalize_project(projects[i].as_str()) {
            Some(c) => {
                let ghost cv = c@;
                upsert(&mut out, c);
                proof {
                    assert forall|k: Seq<char>| #[trigger]
                        key_map(out@).contains_key(k) <==> normalized_projects(
                            projects@.take(i + 1),
                        ).contains(k) by {
                        lemma_push_contains(normalized_projects(projects@.take(i as int)), cv, k);
                    }
                }
            },
            None => {},
        }
        i += 1;
    }
    assert(projects@.take(projects@.len() as int) =~= projects@);
    proof {
        assert forall|k: Seq<char>| strings_view(out@).contains(k) <==> normalized_projects(
            projects@,
        ).contains(k) by {
            lemma_key_map_strings(out@, k);
        }
    }
    out
}

/// What reading a text as a JSON array of strings gives: the strings, or
/// the parse error as its text.
pub uninterp spec fn json_string_list(text: Seq<char>) -> Result<Seq<Seq<char>>, Seq<char>>;

/// `serde_json::from_str` into a vector of strings; the error as its text.
#[verifier::external_body]
fn strings_from_json(text: &str) -> (r: Result<Vec<String>, String>)
    ensures
        match r {
            Ok(v) => json_string_list(text@) == Ok::<Seq<Seq<char>>, Seq<char>>(strings_view(v@)),
            Err(e) => json_string_list(text@) == Err::<Seq<Seq<char>>, Seq<char>>(e@),
        },
{
    serde_json::from_str::<Vec<String>>(text).map_err(|error| error.to_string())
}

/// The hexadecimal digit of `d`, in lowercase.
pub open spec fn hex_digit(d: int) -> char {
    seq!['0', '1', '2', '3', '4', '5', '6', '7', '8', '9', 'a', 'b', 'c', 'd', 'e', 'f'][d]
}

/// A character inside a JSON string as `serde_json` writes it: the quote and
/// the backslash escaped, the five control characters with a short escape
/// written so, the other control characters as `\u00` and two hex digits,
/// and every other character as it is.
pub open spec fn json_char(c: char) -> Seq<char> {
    if c == '"' {
        seq!['\\', '"']
    } else if c == '\\' {
        seq!['\\', '\\']
    } else if c == '\u{8}' {
        seq!['\\', 'b']
    } else if c == '\t' {
        seq!['\\', 't']
    } else if c == '\n' {
        seq!['\\', 'n']
    } else if c == '\u{c}' {
        seq!['\\', 'f']
    } else if c == '\r' {
        seq!['\\', 'r']
    } else if (c as u32) < 32 {
        seq!['\\', 'u', '0', '0', hex_digit((c as int) / 16), hex_digit((c as int) % 16)]
    } else {
        seq![c]
    }
}

/// The characters of a text, each written as inside a JSON string.
pub open spec fn json_chars(s: Seq<char>) -> Seq<char>
    decreases s.len(),
{
    if s.len() == 0 {
        seq![]
    } else {
        json_chars(s.drop_last()) + json_char(s.last())
    }
}

/// A text as a JSON string literal.
pub open spec fn json_string(s: Seq<char>) -> Seq<char> {
    seq!['"'] + json_chars(s) + seq!['"']
}

/// A list of texts as `serde_json` writes it compactly: a JSON array of
/// string literals, separated by commas, with no spaces.
pub open spec fn json_of_strings(items: Seq<Seq<char>>) -> Seq<char> {
    seq!['['] + join(items.map_values(|t: Seq<char>| json_string(t)), seq![',']) + seq![']']
}

/// `serde_json::to_string` of a vector of strings.  Writing strings cannot
/// fail, since no map and no failing `Serialize` impl is involved; the error
/// is kept as its text all the same.
#[verifier::external_body]
fn strings_to_json(items: &Vec<String>) -> (r: Result<String, String>)
    ensures
        r is Ok,
        match r {
            Ok(t) => t@ == json_of_strings(strings_view(items@)),
            Err(_) => true,
        },
{
    serde_json::to_string(items).map_err(|error| error.to_string())
}

/// The stored project list of a record, as JSON.
pub fn projects_json(projects: &Vec<String>) -> (r: Result<String, String>)
    ensures
        r matches Ok(x) && x@ == json_of_strings(strings_view(projects@)),
{
    match strings_to_json(projects) {
        Ok(t) => Ok(t),
        Err(e) => {
            let mut m = owned("Unable to encode Learning Memory projects: ");
            push_str(&mut m, e.as_str());
            Err(m)
        },
    }
}

/// A project list as it is stored: normalized paths in strictly increasing
/// order, so that deduplicating it changes nothing.
pub open spec fn canonical_projects(list: Seq<Seq<char>>) -> bool {
    &&& forall|i: int, j: int| 0 <= i < j < list.len() ==> lex_lt(#[trigger] list[i], #[trigger] list[j])
    &&& forall|i: int| 0 <= i < list.len() ==> normalized_project(#[trigger] list[i]) == Some(list[i])
}

/// What a stored project list reads as.
pub open spec fn projects_result(text: Seq<char>) -> Result<Seq<Seq<char>>, Seq<char>> {
    match json_string_list(text) {
        Err(e) => Err("Learning Memory contains invalid project JSON: "@ + e),
        Ok(list) => if canonical_projects(list) {
            Ok(list)
        } else {
            Err("Learning Memory contains a non-deduplicated project list"@)
        },
    }
}

fn is_canonical_projects(list: &Vec<String>) -> (r: bool)
    ensures
        r == canonical_projects(strings_view(list@)),
{
    let ghost lv = strings_view(list@);
    let mut i: usize = 0;
    while i < list.len()
        invariant
            lv == strings_view(list@),
            i <= list@.len(),
            forall|a: int, b: int| 0 <= a < b < i ==> lex_lt(#[trigger] lv[a], #[trigger] lv[b]),
            forall|a: int| 0 <= a < i ==> normalized_project(#[trigger] lv[a]) == Some(lv[a]),
        decreases list@.len() - i,
    {
        let t = trimmed(list[i].as_str());
        if t.as_str().is_empty() || t != list[i] {
            assert(normalized_project(lv[i as int]) != Some(lv[i as int]));
            return false;
        }
        if i > 0 {
            let prev = to_chars(list[i - 1].as_str());
            let cur = to_chars(list[i].as_str());
            if !crate::order::lex_less(prev.as_slice(), cur.as_slice()) {
                assert(!lex_lt(lv[i - 1], lv[i as int]));
                return false;
            }
            proof {
                assert forall|a: int, b: int| 0 <= a < b < i + 1 implies lex_lt(
                    #[trigger] lv[a],
                    #[trigger] lv[b],
                ) by {
                    if b == i && a < i - 1 {
                        crate::order::lemma_lex_transitive(lv[a], lv[i - 1], lv[b]);
                    }
                }
            }
        }
        i += 1;
    }
    true
}

/// Reads a stored project list, which must already be deduplicated.
pub fn parse_projects(value: &str) -> (r: Result<Vec<String>, String>)
    ensures
        match r {
            Ok(v) => projects_result(value@) == Ok::<Seq<Seq<char>>, Seq<char>>(strings_view(v@)),
            Err(e) => projects_result(value@) == Err::<Seq<Seq<char>>, Seq<char>>(e@),
        },
{
    match strings_from_json(value) {
        Err(e) => {
            let mut m = owned("Learning Memory contains invalid project JSON: ");
            push_str(&mut m, e.as_str());
            Err(m)
        },
        Ok(projects) => if is_canonical_projects(&projects) {
            Ok(projects)
        } else {
            Err(owned("Learning Memory contains a non-deduplicated project list"))
        },
    }
}

/// A record read from the values of a database row.
pub fn record_from_values(
    concept: String,
    times_encountered: i64,
    status: String,
    last_encountered: String,
    projects_encountered: String,
) -> (r: Result<LearningMemoryRecord, String>)
    ensures
        times_encountered < 1 ==> (r matches Err(e) && e@
            == "Learning Memory contains an encounter count below 1"@),
        times_encountered >= 1 && (forall|s: LearningStatus| status_text(s) != status@) ==> (
        r matches Err(e) && e@ == "Learning Memory contains an invalid status: "@ + status@),
        times_encountered >= 1 && (exists|s: LearningStatus| status_text(s) == status@) ==> match projects_result(projects_encountered@) {
            Err(x) => r matches Err(e) && e@ == x,
            Ok(list) => r matches Ok(rec) && rec.concept == concept && rec.times_encountered
                == times_encountered && status_text(rec.status) == status@ && rec.last_encountered
                == last_encountered && strings_view(rec.projects_encountered@) == list,
        },
{
    if times_encountered < 1 {
        return Err(owned("Learning Memory contains an encounter count below 1"));
    }
    let status = match status_from_database(status.as_str()) {
        Ok(s) => s,
        Err(e) => {
            return Err(e);
        },
    };
    let projects = match parse_projects(projects_encountered.as_str()) {
        Ok(p) => p,
        Err(e) => {
            return Err(e);
        },
    };
    Ok(
        LearningMemoryRecord {
            concept,
            times_encountered,
            status,
            last_encountered,
            projects_encountered: projects,
        },
    )
}

/// The record of a concept after one more successful teaching: a first
/// encounter starts at one, as `New`, in the project; a later one counts up
/// once, keeps the user's status and adds the project.  An error when the
/// count cannot grow.
pub fn encounter_record(
    existing: Option<LearningMemoryRecord>,
    concept: String,
    project: Option<String>,
    encountered_at: String,
) -> (r: Result<LearningMemoryRecord, String>)
    ensures
        match existing {
            Some(e) => if e.times_encountered == i64::MAX {
                r matches Err(x) && x@ == "Learning Memory encounter count overflowed"@
            } else {
                r matches Ok(rec) && rec.concept == e.concept && rec.times_encountered
                    == e.times_encountered + 1 && rec.status == e.status && rec.last_encountered
                    == encountered_at && sorted_set_of(
                    rec.projects_encountered@,
                    normalized_projects(
                        e.projects_encountered@ + match project {
                            Some(p) => seq![p],
                            None => seq![],
                        },
                    ),
                )
            },
            None => r matches Ok(rec) && rec.concept == concept && rec.times_encountered == 1
                && rec.status == LearningStatus::New && rec.last_encountered == encountered_at
                && rec.projects_encountered@ == match project {
                Some(p) => seq![p],
                None => seq![],
            },
        },
{
    match existing {
        Some(e) => {
            if e.times_encountered == i64::MAX {
                return Err(owned("Learning Memory encounter count overflowed"));
            }
            let ghost before = e.projects_encountered@;
            let mut projects = e.projects_encountered;
            match project {
                Some(p) => {
                    projects.push(p);
                },
                None => {},
            }
            assert(projects@ =~= before + match project {
                Some(p) => seq![p],
                None => seq![],
            });
            Ok(
                LearningMemoryRecord {
                    concept: e.concept,
                    times_encountered: e.times_encountered + 1,
                    status: e.status,
                    last_encountered: encountered_at,
                    projects_encountered: dedupe_projects(projects),
                },
            )
        },
        None => {
            let mut projects: Vec<String> = Vec::new();
            match project {
                Some(p) => {
                    projects.push(p);
                },
                None => {},
            }
            assert(projects@ =~= match project {
                Some(p) => seq![p],
                None => seq![],
            });
            Ok(
                LearningMemoryRecord {
                    concept,
                    times_encountered: 1,
                    status: LearningStatus::New,
                    last_encountered: encountered_at,
                    projects_encountered: projects,
                },
            )
        },
    }
}

// ---------------------------------------------------------------- time

/// A leap year of the proleptic Gregorian calendar.
pub open spec fn is_leap_year(y: int) -> bool {
    y % 4 == 0 && (y % 100 != 0 || y % 400 == 0)
}

/// The number of days in month `m` (1 to 12) of year `y`.
pub open spec fn days_in_month(y: int, m: int) -> int {
    if m == 2 {
        if is_leap_year(y) { 29 } else { 28 }
    } else if m == 4 || m == 6 || m == 9 || m == 11 {
        30
    } else {
        31
    }
}

/// A calendar date: a month of the year and a day of that month.
pub open spec fn valid_date(y: int, m: int, d: int) -> bool {
    1 <= m <= 12 && 1 <= d <= days_in_month(y, m)
}

/// The days of the months of year `y` before month `m`.
pub open spec fn days_before_month(y: int, m: int) -> int
    decreases m,
{
    if m <= 1 {
        0
    } else {
        days_before_month(y, m - 1) + days_in_month(y, m - 1)
    }
}

/// The days from 0001-01-01 to the first day of year `y`: 365 for each
/// year before it, and one more for each leap year among them.
pub open spec fn days_before_year(y: int) -> int {
    let p = y - 1;
    365 * p + p / 4 - p / 100 + p / 400
}

/// The number of days from 1970-01-01 to the date `y`-`m`-`d`.
pub open spec fn days_from_civil(y: int, m: int, d: int) -> int {
    days_before_year(y) - days_before_year(1970) + days_before_month(y, m) + d - 1
}

/// The days from 0000-03-01 to March 1 of year `y`.
spec fn march_days(y: int) -> int {
    365 * y + y / 4 - y / 100 + y / 400
}

/// Adding `k` times the divisor adds `k` to the quotient.
proof fn lemma_div_shift(y: int, c: int, k: int)
    requires
        c > 0,
    ensures
        (y + c * k) / c == y / c + k,
{
    vstd::arithmetic::div_mod::lemma_fundamental_div_mod(y, c);
    let q = y / c;
    let r = y % c;
    assert(y + c * k == c * (q + k) + r) by (nonlinear_arith)
        requires
            y == c * q + r,
    ;
    vstd::arithmetic::div_mod::lemma_fundamental_div_mod_converse(y + c * k, c, q + k, r);
}

/// A 400-year era has 146097 days.
proof fn lemma_march_shift(y: int, e: int)
    ensures
        march_days(y + 400 * e) == march_days(y) + 146097 * e,
{
    lemma_div_shift(y, 4, 100 * e);
    lemma_div_shift(y, 100, 4 * e);
    lemma_div_shift(y, 400, e);
    assert(4 * (100 * e) == 400 * e);
    assert(100 * (4 * e) == 400 * e);
}

/// A year that starts in March ends with the leap day of the next year.
proof fn lemma_march_step(y: int)
    ensures
        march_days(y + 1) - march_days(y) == if is_leap_year(y + 1) { 366int } else { 365int },
{
}

/// Each year adds its own length to the day count: 366 days for a leap
/// year and 365 for another.
pub proof fn law_years_have_their_length(y: int)
    ensures
        days_before_year(y + 1) - days_before_year(y) == if is_leap_year(y) {
            366int
        } else {
            365int
        },
{
    lemma_march_step(y - 1);
}

/// Later years start later.
proof fn lemma_march_monotone(a: int, b: int)
    requires
        a < b,
    ensures
        march_days(a + 1) <= march_days(b),
{
}


/// The days before month `mp` of a year that starts in March.
spec fn march_month_start(mp: int) -> int {
    (153 * mp + 2) / 5
}

/// The days before each month, with the leap day counted from March on.
proof fn lemma_days_before_month(y: int, m: int)
    requires
        1 <= m <= 12,
    ensures
        days_before_month(y, m) == if m <= 2 {
            if m == 2 { 31int } else { 0int }
        } else {
            59 + (if is_leap_year(y) { 1int } else { 0int }) + march_month_start(m - 3)
        },
{
    reveal_with_fuel(days_before_month, 12);
}

/// The month that a day of a year starting in March falls in.
proof fn lemma_month_split(doy: int)
    requires
        0 <= doy <= 365,
    ensures
        ({
            let mp = (5 * doy + 2) / 153;
            0 <= mp <= 11 && march_month_start(mp) <= doy < march_month_start(mp + 1)
        }),
{
}

/// The day count of a date, counted from 0000-03-01 in years that start in March.
proof fn lemma_march_count(y: int, m: int, d: int)
    requires
        1 <= m <= 12,
    ensures
        days_from_civil(y, m, d) + 719468 == (if m <= 2 {
            march_days(y - 1) + march_month_start(m + 9)
        } else {
            march_days(y) + march_month_start(m - 3)
        }) + d - 1,
{
    lemma_days_before_month(y, m);
    lemma_march_step(y - 1);
    assert(days_before_year(1970) == 719162);
}


/// Adding a multiple of the divisor leaves the remainder.
proof fn lemma_mod_shift(y: int, c: int, k: int)
    requires
        c > 0,
    ensures
        (y + c * k) % c == y % c,
{
    vstd::arithmetic::div_mod::lemma_fundamental_div_mod(y, c);
    let q = y / c;
    let r = y % c;
    assert(y + c * k == c * (q + k) + r) by (nonlinear_arith)
        requires
            y == c * q + r,
    ;
    vstd::arithmetic::div_mod::lemma_fundamental_div_mod_converse(y + c * k, c, q + k, r);
}

/// Leap years repeat every 400 years.
proof fn lemma_leap_shift(y: int, e: int)
    ensures
        is_leap_year(y + 400 * e) == is_leap_year(y),
{
    lemma_mod_shift(y, 4, 100 * e);
    lemma_mod_shift(y, 100, 4 * e);
    lemma_mod_shift(y, 400, e);
    assert(4 * (100 * e) == 400 * e);
    assert(100 * (4 * e) == 400 * e);
}

/// The year of an era that a day of the era falls in.
proof fn lemma_year_of_era(doe: int)
    requires
        0 <= doe <= 146096,
    ensures
        ({
            let yoe = (doe - doe / 1460 + doe / 36524 - doe / 146096) / 365;
            0 <= yoe <= 399 && march_days(yoe) <= doe < march_days(yoe + 1)
        }),
{
}

/// The era arithmetic finds the calendar date of a day count.
proof fn lemma_civil(days: int)
    ensures
        valid_date(civil_from_days(days).0, civil_from_days(days).1, civil_from_days(days).2),
        days_from_civil(civil_from_days(days).0, civil_from_days(days).1, civil_from_days(days).2)
            == days,
{
    let z = days + 719468;
    let era = z / 146097;
    let doe = z - era * 146097;
    vstd::arithmetic::div_mod::lemma_fundamental_div_mod(z, 146097);
    lemma_year_of_era(doe);
    let yoe = (doe - doe / 1460 + doe / 36524 - doe / 146096) / 365;
    assert(yoe / 400 == 0);
    let doy = doe - (365 * yoe + yoe / 4 - yoe / 100);
    assert(doy == doe - march_days(yoe));
    lemma_march_step(yoe);
    lemma_month_split(doy);
    let mp = (5 * doy + 2) / 153;
    let big_y = yoe + era * 400;
    lemma_march_shift(yoe, era);
    assert(march_days(big_y) == march_days(yoe) + 146097 * era);
    let d = doy - (153 * mp + 2) / 5 + 1;
    let r = civil_from_days(days);
    if mp < 10 {
        assert(r == (big_y, mp + 3, d));
        lemma_march_count(big_y, mp + 3, d);
    } else {
        assert(r == (big_y + 1, mp - 9, d));
        lemma_march_count(big_y + 1, mp - 9, d);
        lemma_leap_shift(yoe + 1, era);
        assert(big_y + 1 == (yoe + 1) + 400 * era);
    }
}


/// The year, starting in March, that holds a date.
spec fn march_year(y: int, m: int) -> int {
    if m <= 2 { y - 1 } else { y }
}

/// The month of a date counted from March as 0.
spec fn march_month(m: int) -> int {
    if m <= 2 { m + 9 } else { m - 3 }
}

/// Where a date lies in its year that starts in March.
proof fn lemma_date_offset(y: int, m: int, d: int)
    requires
        valid_date(y, m, d),
    ensures
        0 <= march_month(m) <= 11,
        march_month_start(march_month(m)) + d - 1 < march_month_start(march_month(m) + 1),
        march_month_start(march_month(m)) + d - 1 < march_days(march_year(y, m) + 1) - march_days(
            march_year(y, m),
        ),
        days_from_civil(y, m, d) + 719468 == march_days(march_year(y, m)) + march_month_start(
            march_month(m),
        ) + d - 1,
{
    lemma_march_count(y, m, d);
    lemma_march_step(march_year(y, m));
}

/// Different calendar dates have different day counts, so a day count
/// names one date.
pub proof fn law_day_count_names_one_date(y1: int, m1: int, d1: int, y2: int, m2: int, d2: int)
    requires
        valid_date(y1, m1, d1),
        valid_date(y2, m2, d2),
        days_from_civil(y1, m1, d1) == days_from_civil(y2, m2, d2),
    ensures
        y1 == y2 && m1 == m2 && d1 == d2,
{
    lemma_date_offset(y1, m1, d1);
    lemma_date_offset(y2, m2, d2);
    let a = march_year(y1, m1);
    let b = march_year(y2, m2);
    if a < b {
        lemma_march_monotone(a, b);
    } else if b < a {
        lemma_march_monotone(b, a);
    }
    assert(a == b);
}

/// The proleptic Gregorian date of a day count from 1970-01-01, as year,
/// month and day: the day counts from 0000-03-01 in 400-year eras of
/// 146097 days, and each year of an era runs from March to February.
spec fn civil_from_days(days: int) -> (int, int, int) {
    let shifted = days + 719468;
    let era = shifted / 146097;
    let day_of_era = shifted - era * 146097;
    let year_of_era = (day_of_era - day_of_era / 1460 + day_of_era / 36524 - day_of_era / 146096)
        / 365;
    let year = year_of_era + era * 400;
    let day_of_year = day_of_era - (365 * year_of_era + year_of_era / 4 - year_of_era / 100);
    let month_part = (5 * day_of_year + 2) / 153;
    let day = day_of_year - (153 * month_part + 2) / 5 + 1;
    let month = if month_part < 10 {
        month_part + 3
    } else {
        month_part - 9
    };
    (if month <= 2 {
        year + 1
    } else {
        year
    }, month, day)
}

/// Rust's division rounds toward zero; for a negative dividend, dividing
/// the next number up and stepping one down rounds down instead.
proof fn lemma_floor_of_negative(x: int, q: int, c: int)
    requires
        x < 0,
        c > 0,
        q == -((-x - 1) / c) - 1,
    ensures
        q == x / c,
{
    let n = -x - 1;
    let k = n / c;
    let r = n % c;
    vstd::arithmetic::div_mod::lemma_fundamental_div_mod(n, c);
    assert(x == c * (-k - 1) + (c - 1 - r)) by (nonlinear_arith)
        requires
            n == c * k + r,
            x == -n - 1,
    ;
    vstd::arithmetic::div_mod::lemma_fundamental_div_mod_converse(x, c, -k - 1, c - 1 - r);
}

/// The calendar date that falls `days` days after 1970-01-01.
pub open spec fn date_of_days(days: int) -> (int, int, int) {
    choose|date: (int, int, int)|
        valid_date(date.0, date.1, date.2) && days_from_civil(date.0, date.1, date.2) == days
}

/// Every day count, before or after 1970-01-01, falls on a calendar date.
pub proof fn law_every_day_count_has_a_date(days: int)
    ensures
        valid_date(date_of_days(days).0, date_of_days(days).1, date_of_days(days).2),
        days_from_civil(date_of_days(days).0, date_of_days(days).1, date_of_days(days).2) == days,
{
    lemma_civil(days);
    let c = civil_from_days(days);
    assert(valid_date(c.0, c.1, c.2) && days_from_civil(c.0, c.1, c.2) == days);
}

/// The calendar date of a day count from 1970-01-01.
#[verifier::rlimit(60)]
pub fn civil_date_from_days(days_since_unix_epoch: i64) -> (r: (i64, i64, i64))
    requires
        days_since_unix_epoch <= i64::MAX - 719_468,
    ensures
        valid_date(r.0 as int, r.1 as int, r.2 as int),
        days_from_civil(r.0 as int, r.1 as int, r.2 as int) == days_since_unix_epoch as int,
        (r.0 as int, r.1 as int, r.2 as int) == date_of_days(days_since_unix_epoch as int),
        r.0 > i64::MIN,
{
    let shifted = days_since_unix_epoch + 719_468;
    let era = if shifted >= 0 {
        shifted / 146_097
    } else {
        let q = (shifted + 1) / 146_097 - 1;
        proof {
            lemma_floor_of_negative(shifted as int, q as int, 146097);
        }
        q
    };
    let day_of_era = shifted - era * 146_097;
    let year_of_era = (day_of_era - day_of_era / 1_460 + day_of_era / 36_524 - day_of_era
        / 146_096) / 365;
    let year = year_of_era + era * 400;
    let day_of_year = day_of_era - (365 * year_of_era + year_of_era / 4 - year_of_era / 100);
    let month_part = (5 * day_of_year + 2) / 153;
    let day = day_of_year - (153 * month_part + 2) / 5 + 1;
    let month = month_part + if month_part < 10 {
        3
    } else {
        -9
    };
    let year = year + if month <= 2 {
        1
    } else {
        0
    };
    proof {
        let ghost n = days_since_unix_epoch as int;
        assert((year as int, month as int, day as int) == civil_from_days(n));
        lemma_civil(n);
        law_every_day_count_has_a_date(n);
        let w = date_of_days(n);
        law_day_count_names_one_date(year as int, month as int, day as int, w.0, w.1, w.2);
    }
    (year, month, day)
}

/// A number in decimal, padded with zeros in front to at least `width`
/// characters.
pub open spec fn padded(n: nat, width: nat) -> Seq<char> {
    let d = decimal(n);
    if d.len() >= width {
        d
    } else {
        Seq::new((width - d.len()) as nat, |i: int| '0') + d
    }
}

/// A signed number as `format!` pads it with zeros: the sign counts
/// toward the width.
pub open spec fn padded_int(n: int, width: nat) -> Seq<char> {
    if n >= 0 {
        padded(n as nat, width)
    } else {
        "-"@ + padded((-n) as nat, if width > 0 {
            (width - 1) as nat
        } else {
            0
        })
    }
}

fn pad_unsigned(n: u64, width: usize) -> (r: String)
    ensures
        r@ == padded(n as nat, width as nat),
{
    let d = decimal_string(n);
    let dc = to_chars(d.as_str());
    if dc.len() >= width {
        return d;
    }
    let mut zeros: Vec<char> = Vec::new();
    let count = width - dc.len();
    let mut i: usize = 0;
    while i < count
        invariant
            i <= count,
            zeros@ == Seq::new(i as nat, |k: int| '0'),
        decreases count - i,
    {
        zeros.push('0');
        i += 1;
        assert(zeros@ =~= Seq::new(i as nat, |k: int| '0'));
    }
    let mut r = from_chars(zeros.as_slice());
    push_str(&mut r, d.as_str());
    r
}

fn pad_signed(n: i64, width: usize) -> (r: String)
    requires
        n > i64::MIN,
    ensures
        r@ == padded_int(n as int, width as nat),
{
    if n >= 0 {
        pad_unsigned(n as u64, width)
    } else {
        let w = if width > 0 {
            width - 1
        } else {
            0
        };
        let digits = pad_unsigned((-n) as u64, w);
        let mut r = owned("-");
        push_str(&mut r, digits.as_str());
        r
    }
}

/// The UTC time of a moment as text.
pub open spec fn timestamp_spec(total_seconds: int, millis: nat) -> Seq<char> {
    let days = total_seconds / 86400;
    let second_of_day = total_seconds % 86400;
    let date = date_of_days(days);
    padded_int(date.0, 4) + "-"@ + padded_int(date.1, 2) + "-"@ + padded_int(date.2, 2) + "T"@
        + padded_int(second_of_day / 3600, 2) + ":"@ + padded_int((second_of_day % 3600) / 60, 2)
        + ":"@ + padded_int(second_of_day % 60, 2) + "."@ + padded(millis, 3) + "Z"@
}

/// Writes the UTC time of a moment, given in whole seconds and milliseconds
/// since 1970-01-01T00:00:00Z, as `YYYY-MM-DDTHH:MM:SS.mmmZ`.
pub fn timestamp_text(total_seconds: i64, millis: u32) -> (r: String)
    ensures
        r@ == timestamp_spec(total_seconds as int, millis as nat),
{
    let days = if total_seconds >= 0 {
        total_seconds / 86_400
    } else {
        let q = (total_seconds + 1) / 86_400 - 1;
        proof {
            lemma_floor_of_negative(total_seconds as int, q as int, 86400);
        }
        q
    };
    let rem = total_seconds % 86_400;
    let second_of_day = if rem < 0 {
        rem + 86_400
    } else {
        rem
    };
    assert(second_of_day == total_seconds as int - days * 86400);
    let (year, month, day) = civil_date_from_days(days);
    assert(year > i64::MIN && month > i64::MIN && day > i64::MIN) by {
        assert(1 <= month <= 12);
        assert(1 <= day);
    }
    let hour = second_of_day / 3_600;
    let minute = (second_of_day % 3_600) / 60;
    let second = second_of_day % 60;
    let mut r = pad_signed(year, 4);
    push_str(&mut r, "-");
    push_str(&mut r, pad_signed(month, 2).as_str());
    push_str(&mut r, "-");
    push_str(&mut r, pad_signed(day, 2).as_str());
    push_str(&mut r, "T");
    push_str(&mut r, pad_signed(hour, 2).as_str());
    push_str(&mut r, ":");
    push_str(&mut r, pad_signed(minute, 2).as_str());
    push_str(&mut r, ":");
    push_str(&mut r, pad_signed(second, 2).as_str());
    push_str(&mut r, ".");
    push_str(&mut r, pad_unsigned(millis as u64, 3).as_str());
    push_str(&mut r, "Z");
    r
}

// ---------------------------------------------------------------- schema

/// The only schema version this store knows.
pub const SCHEMA_VERSION: i64 = 1;

/// The columns of the version 1 table: name, `NOT NULL` and primary-key
/// position.
pub open spec fn expected_column(i: int) -> (Seq<char>, i64, i64) {
    if i == 0 {
        ("concept"@, 1i64, 1i64)
    } else if i == 1 {
        ("times_encountered"@, 1i64, 0i64)
    } else if i == 2 {
        ("status"@, 1i64, 0i64)
    } else if i == 3 {
        ("last_encountered"@, 1i64, 0i64)
    } else {
        ("projects_encountered"@, 1i64, 0i64)
    }
}

pub open spec fn columns_match(columns: Seq<(String, i64, i64)>) -> bool {
    &&& columns.len() == 5
    &&& forall|i: int|
        0 <= i < 5 ==> (#[trigger] columns[i]).0@ == expected_column(i).0 && columns[i].1
            == expected_column(i).1 && columns[i].2 == expected_column(i).2
}

fn expected_column_at(i: usize) -> (r: (&'static str, i64, i64))
    requires
        i < 5,
    ensures
        (r.0@, r.1, r.2) == expected_column(i as int),
{
    if i == 0 {
        ("concept", 1, 1)
    } else if i == 1 {
        ("times_encountered", 1, 0)
    } else if i == 2 {
        ("status", 1, 0)
    } else if i == 3 {
        ("last_encountered", 1, 0)
    } else {
        ("projects_encountered", 1, 0)
    }
}

/// Checks the columns that the table reports: name, `NOT NULL` and
/// primary-key position of each, in order.
pub fn check_schema_columns(columns: &Vec<(String, i64, i64)>) -> (r: Result<(), String>)
    ensures
        r is Ok <==> columns_match(columns@),
        r matches Err(e) ==> e@ == "Learning Memory schema v1 has unexpected columns"@,
{
    if columns.len() != 5 {
        return Err(owned("Learning Memory schema v1 has unexpected columns"));
    }
    let mut i: usize = 0;
    while i < 5
        invariant
            columns@.len() == 5,
            i <= 5,
            forall|j: int|
                0 <= j < i ==> (#[trigger] columns@[j]).0@ == expected_column(j).0
                    && columns@[j].1 == expected_column(j).1 && columns@[j].2 == expected_column(
                    j,
                ).2,
        decreases 5 - i,
    {
        let (name, not_null, primary_key) = expected_column_at(i);
        let c = &columns[i];
        if !crate::concepts::string_is(&c.0, name) || c.1 != not_null || c.2 != primary_key {
            assert(!(columns@[i as int].0@ == expected_column(i as int).0 && columns@[i as int].1
                == expected_column(i as int).1 && columns@[i as int].2 == expected_column(
                i as int,
            ).2));
            return Err(owned("Learning Memory schema v1 has unexpected columns"));
        }
        i += 1;
    }
    Ok(())
}

/// The text without white space, in ASCII lowercase.
pub open spec fn compact_sql(s: Seq<char>) -> Seq<char>
    decreases s.len(),
{
    if s.len() == 0 {
        seq![]
    } else if is_white_space(s.last()) {
        compact_sql(s.drop_last())
    } else {
        compact_sql(s.drop_last()).push(lower_ascii(seq![s.last()])[0])
    }
}

pub open spec fn constraints_complete(create_sql: Seq<char>) -> bool {
    let c = compact_sql(create_sql);
    &&& has_substring(c, "check(times_encountered>=1)"@)
    &&& has_substring(c, "check(statusin('new','learning','familiar'))"@)
    &&& has_substring(c, "json_valid(projects_encountered)=1"@)
    &&& has_substring(c, "json_type(projects_encountered)='array'"@)
}

fn compact(s: &str) -> (r: Vec<char>)
    ensures
        r@ == compact_sql(s@),
{
    let c = to_chars(s);
    let mut out: Vec<char> = Vec::new();
    let mut i: usize = 0;
    while i < c.len()
        invariant
            c@ == s@,
            i <= c@.len(),
            out@ == compact_sql(s@.take(i as int)),
        decreases c@.len() - i,
    {
        proof {
            assert(s@.take(i + 1).drop_last() =~= s@.take(i as int));
            assert(s@.take(i + 1).last() == c@[i as int]);
        }
        if !is_whitespace(c[i]) {
            let one = from_chars(&[c[i]]);
            let lowered = crate::mentor::to_lower_ascii(one.as_str());
            assert(one@ =~= seq![c@[i as int]]);
            out.push(lowered[0]);
        }
        i += 1;
    }
    assert(s@.take(c@.len() as int) =~= s@);
    out
}

/// Checks that the table's `CREATE` statement keeps every constraint of
/// version 1, whatever its spacing and case.
pub fn check_schema_constraints(create_sql: &str) -> (r: Result<(), String>)
    ensures
        r is Ok <==> constraints_complete(create_sql@),
        r matches Err(e) ==> e@ == "Learning Memory schema v1 constraints are incomplete"@,
{
    let c = compact(create_sql);
    if crate::mentor::contains_chars(&c, "check(times_encountered>=1)") && crate::mentor::contains_chars(
        &c,
        "check(statusin('new','learning','familiar'))",
    ) && crate::mentor::contains_chars(&c, "json_valid(projects_encountered)=1")
        && crate::mentor::contains_chars(&c, "json_type(projects_encountered)='array'") {
        Ok(())
    } else {
        Err(owned("Learning Memory schema v1 constraints are incomplete"))
    }
}

/// What opening the store does with its schema.
#[derive(Clone, Copy, Debug, PartialEq, Eq, Structural)]
pub enum SchemaAction {
    /// Check the version 1 table.
    Validate,
    /// Create the version 1 table in an empty store.
    Create,
}

/// Decides how to open a store from its schema version and whether it holds
/// the table: a newer version, or a table without a version, is refused.
pub fn plan_schema(version: i64, table_exists: bool) -> (r: Result<SchemaAction, String>)
    ensures
        version > SCHEMA_VERSION ==> (r matches Err(e) && e@ == "Learning Memory schema version "@
            + decimal(version as nat) + " is newer than supported version 1"@),
        version == SCHEMA_VERSION ==> r == Ok::<SchemaAction, String>(SchemaAction::Validate),
        version < SCHEMA_VERSION && table_exists ==> (r matches Err(e) && e@
            == "Learning Memory database has a table without a supported schema version"@),
        version < SCHEMA_VERSION && !table_exists ==> r == Ok::<SchemaAction, String>(
            SchemaAction::Create,
        ),
{
    if version > SCHEMA_VERSION {
        let mut e = owned("Learning Memory schema version ");
        push_str(&mut e, decimal_string(version as u64).as_str());
        push_str(&mut e, " is newer than supported version 1");
        return Err(e);
    }
    if version == SCHEMA_VERSION {
        return Ok(SchemaAction::Validate);
    }
    if table_exists {
        return Err(owned("Learning Memory database has a table without a supported schema version"));
    }
    Ok(SchemaAction::Create)
}

/// A stored status reads back as itself: no two statuses share the text the
/// database stores, so reading the text of a status gives that status.
pub proof fn law_stored_statuses_read_back(a: LearningStatus, b: LearningStatus)
    ensures
        status_text(a) == status_text(b) ==> a == b,
{
    reveal_strlit("New");
    reveal_strlit("Learning");
    reveal_strlit("Familiar");
    assert("New"@.len() == 3 && "Learning"@.len() == 8 && "Familiar"@.len() == 8);
    assert("Learning"@[0] != "Familiar"@[0]);
}

} // verus!
