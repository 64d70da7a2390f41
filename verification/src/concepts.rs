//! The concept map of the teaching material, and which of its concepts a
//! change's code shows.

use vstd::prelude::*;
use crate::code::{code_features, spec_api, spec_async_await, spec_functions};
use crate::code::CodeFeatures;
use crate::text::owned;

verus! {

/// A concept of the teaching material and the concepts it builds on.
#[derive(Clone, Debug, PartialEq, Eq)]
pub struct ConceptDefinition {
    pub id: String,
    pub prerequisites: Vec<String>,
}

pub open spec fn strings_view(v: Seq<String>) -> Seq<Seq<char>> {
    v.map_values(|s: String| s@)
}

/// A concept as plain values: its id and its prerequisites' ids.
pub type ConceptView = (Seq<char>, Seq<Seq<char>>);

pub open spec fn concept_view(d: ConceptDefinition) -> ConceptView {
    (d.id@, strings_view(d.prerequisites@))
}

pub open spec fn map_view(c: Seq<ConceptDefinition>) -> Seq<ConceptView> {
    c.map_values(|d: ConceptDefinition| concept_view(d))
}

/// Some concept before position `i` has the id `id`.
pub open spec fn listed_before(c: Seq<ConceptView>, i: int, id: Seq<char>) -> bool {
    exists|j: int| 0 <= j < i && (#[trigger] c[j]).0 == id
}

/// Every prerequisite of the concept at position `i` is listed before it.
pub open spec fn prerequisites_before(c: Seq<ConceptView>, i: int) -> bool {
    forall|p: int| 0 <= p < c[i].1.len() ==> listed_before(c, i, #[trigger] c[i].1[p])
}

/// A usable concept map: it is not empty, every id is non-empty and unique,
/// and every prerequisite names a concept listed before its dependent (so
/// the prerequisites can form no cycle).
pub open spec fn valid_map(c: Seq<ConceptView>) -> bool {
    &&& c.len() > 0
    &&& forall|i: int| 0 <= i < c.len() ==> (#[trigger] c[i]).0.len() > 0
    &&& forall|i: int, j: int| 0 <= i < j < c.len() ==> (#[trigger] c[i]).0 != (#[trigger] c[j]).0
    &&& forall|i: int| 0 <= i < c.len() ==> #[trigger] prerequisites_before(c, i)
}

/// The concept ids that the code features show directly.
pub open spec fn detected(functions: bool, api: bool, async_await: bool, id: Seq<char>) -> bool {
    ||| functions && id == "functions"@
    ||| api && id == "api"@
    ||| async_await && id == "async-await"@
}

/// The ids that the needed concepts at positions `k..` build on.
pub open spec fn demand(c: Seq<ConceptView>, f: bool, a: bool, w: bool, k: int) -> Set<Seq<char>>
    decreases c.len() - k,
{
    if k < 0 || k >= c.len() {
        Set::empty()
    } else {
        let rest = demand(c, f, a, w, k + 1);
        if detected(f, a, w, c[k].0) || rest.contains(c[k].0) {
            rest.union(c[k].1.to_set())
        } else {
            rest
        }
    }
}

/// A concept is needed when the code shows it, or when a needed concept
/// listed after it builds on it.
pub open spec fn needed(c: Seq<ConceptView>, f: bool, a: bool, w: bool, i: int) -> bool {
    detected(f, a, w, c[i].0) || demand(c, f, a, w, i + 1).contains(c[i].0)
}

/// The needed concepts' ids from position `i` on, in map order.
pub open spec fn selected(c: Seq<ConceptView>, f: bool, a: bool, w: bool, i: int) -> Seq<Seq<char>>
    decreases c.len() - i,
{
    if i < 0 || i >= c.len() {
        seq![]
    } else if needed(c, f, a, w, i) {
        seq![c[i].0] + selected(c, f, a, w, i + 1)
    } else {
        selected(c, f, a, w, i + 1)
    }
}

pub open spec fn any_functions(texts: Seq<Seq<char>>) -> bool {
    exists|i: int| 0 <= i < texts.len() && spec_functions(#[trigger] texts[i])
}

pub open spec fn any_api(texts: Seq<Seq<char>>) -> bool {
    exists|i: int| 0 <= i < texts.len() && spec_api(#[trigger] texts[i])
}

pub open spec fn any_async_await(texts: Seq<Seq<char>>) -> bool {
    exists|i: int| 0 <= i < texts.len() && spec_async_await(#[trigger] texts[i])
}

/// The concepts that the texts show, with everything they build on, in map
/// order; nothing when the map is missing or unusable.
pub open spec fn concepts_for(texts: Seq<Seq<char>>, map: Option<Seq<ConceptView>>) -> Seq<Seq<char>> {
    match map {
        Some(c) => if valid_map(c) {
            selected(c, any_functions(texts), any_api(texts), any_async_await(texts), 0)
        } else {
            seq![]
        },
        None => seq![],
    }
}

/// The concept map that ships with the teaching material, in
/// `teaching-source/concept-map.json`: functions, then api and async-await,
/// which both build on functions.  The three concept pages of the teaching
/// source (`concepts/functions.md`, `concepts/api.md` and
/// `concepts/async-await.md`) are its concepts; the analysis uses this map,
/// so that it does not depend on reading the teaching source.
pub open spec fn default_map_view() -> Seq<ConceptView> {
    seq![
        ("functions"@, seq![]),
        ("api"@, seq!["functions"@]),
        ("async-await"@, seq!["functions"@]),
    ]
}

/// The concept map of `teaching-source/concept-map.json` (see
/// [`default_map_view`]).
pub fn default_concept_map() -> (r: Vec<ConceptDefinition>)
    ensures
        map_view(r@) == default_map_view(),
{
    let mut api_pre: Vec<String> = Vec::new();
    api_pre.push(owned("functions"));
    let mut async_pre: Vec<String> = Vec::new();
    async_pre.push(owned("functions"));
    let mut r: Vec<ConceptDefinition> = Vec::new();
    r.push(ConceptDefinition { id: owned("functions"), prerequisites: Vec::new() });
    r.push(ConceptDefinition { id: owned("api"), prerequisites: api_pre });
    r.push(ConceptDefinition { id: owned("async-await"), prerequisites: async_pre });
    proof {
        assert(strings_view(r@[0].prerequisites@) =~= seq![]);
        assert(strings_view(r@[1].prerequisites@) =~= seq!["functions"@]);
        assert(strings_view(r@[2].prerequisites@) =~= seq!["functions"@]);
        assert(map_view(r@) =~= default_map_view());
    }
    r
}

pub(crate) fn string_eq(a: &String, b: &String) -> (r: bool)
    ensures
        r == (a@ == b@),
{
    *a == *b
}

pub(crate) fn string_is(a: &String, b: &str) -> (r: bool)
    ensures
        r == (a@ == b@),
{
    let x = crate::text::to_chars(a.as_str());
    let y = crate::text::to_chars(b);
    crate::order::chars_equal(&x, &y)
}

fn id_listed_before(concepts: &Vec<ConceptDefinition>, i: usize, id: &String) -> (r: bool)
    requires
        i <= concepts@.len(),
    ensures
        r == listed_before(map_view(concepts@), i as int, id@),
{
    let ghost c = map_view(concepts@);
    let mut j: usize = 0;
    while j < i
        invariant
            i <= concepts@.len(),
            c == map_view(concepts@),
            j <= i,
            forall|x: int| 0 <= x < j ==> (#[trigger] c[x]).0 != id@,
        decreases i - j,
    {
        if string_eq(&concepts[j].id, id) {
            assert(c[j as int].0 == id@);
            return true;
        }
        j += 1;
    }
    false
}

fn prerequisites_listed_before(concepts: &Vec<ConceptDefinition>, i: usize) -> (r: bool)
    requires
        i < concepts@.len(),
    ensures
        r == prerequisites_before(map_view(concepts@), i as int),
{
    let ghost c = map_view(concepts@);
    let d = &concepts[i];
    assert(c[i as int] == concept_view(*d));
    let mut p: usize = 0;
    while p < d.prerequisites.len()
        invariant
            i < concepts@.len(),
            c == map_view(concepts@),
            c[i as int] == concept_view(*d),
            p <= d.prerequisites@.len(),
            forall|q: int| 0 <= q < p ==> listed_before(c, i as int, #[trigger] c[i as int].1[q]),
        decreases d.prerequisites@.len() - p,
    {
        assert(c[i as int].1[p as int] == d.prerequisites@[p as int]@);
        if !id_listed_before(concepts, i, &d.prerequisites[p]) {
            return false;
        }
        p += 1;
    }
    true
}

/// Checks a concept map, returning it when it is usable.
pub fn valid_concept_map(concepts: Vec<ConceptDefinition>) -> (r: Option<Vec<ConceptDefinition>>)
    ensures
        r is Some <==> valid_map(map_view(concepts@)),
        r matches Some(v) ==> v@ == concepts@,
{
    let ghost c = map_view(concepts@);
    if concepts.len() == 0 {
        return None;
    }
    let n = concepts.len();
    let mut i: usize = 0;
    while i < n
        invariant
            n == concepts@.len(),
            n > 0,
            c == map_view(concepts@),
            i <= n,
            forall|x: int| 0 <= x < i ==> (#[trigger] c[x]).0.len() > 0,
            forall|x: int, y: int| 0 <= x < y < i ==> (#[trigger] c[x]).0 != (#[trigger] c[y]).0,
            forall|x: int| 0 <= x < i ==> #[trigger] prerequisites_before(c, x),
        decreases n - i,
    {
        let d = &concepts[i];
        assert(c[i as int] == concept_view(*d));
        if d.id.as_str().is_empty() {
            assert(!(c[i as int].0.len() > 0));
            return None;
        }
        if id_listed_before(&concepts, i, &d.id) {
            let ghost j = choose|j: int| 0 <= j < i && (#[trigger] c[j]).0 == c[i as int].0;
            assert(c[j].0 == c[i as int].0);
            return None;
        }
        if !prerequisites_listed_before(&concepts, i) {
            assert(!prerequisites_before(c, i as int));
            return None;
        }
        i += 1;
    }
    Some(concepts)
}

fn contains_id(v: &Vec<String>, id: &String) -> (r: bool)
    ensures
        r == strings_view(v@).contains(id@),
{
    let ghost sv = strings_view(v@);
    let mut k: usize = 0;
    while k < v.len()
        invariant
            sv == strings_view(v@),
            k <= v@.len(),
            forall|x: int| 0 <= x < k ==> sv[x] != id@,
        decreases v@.len() - k,
    {
        if string_eq(&v[k], id) {
            assert(sv[k as int] == id@);
            return true;
        }
        k += 1;
    }
    false
}

/// The code features that any of the texts shows.
fn features_of(texts: &Vec<String>) -> (r: CodeFeatures)
    ensures
        r.functions == any_functions(strings_view(texts@)),
        r.api == any_api(strings_view(texts@)),
        r.async_await == any_async_await(strings_view(texts@)),
{
    let ghost tv = strings_view(texts@);
    let mut functions = false;
    let mut api = false;
    let mut async_await = false;
    let mut k: usize = 0;
    while k < texts.len()
        invariant
            tv == strings_view(texts@),
            k <= texts@.len(),
            functions == exists|i: int| 0 <= i < k && spec_functions(#[trigger] tv[i]),
            api == exists|i: int| 0 <= i < k && spec_api(#[trigger] tv[i]),
            async_await == exists|i: int| 0 <= i < k && spec_async_await(#[trigger] tv[i]),
        decreases texts@.len() - k,
    {
        let f = code_features(texts[k].as_str());
        assert(tv[k as int] == texts@[k as int]@);
        functions = functions || f.functions;
        api = api || f.api;
        async_await = async_await || f.async_await;
        k += 1;
    }
    CodeFeatures { functions, api, async_await }
}

fn is_detected(f: &CodeFeatures, id: &String) -> (r: bool)
    ensures
        r == detected(f.functions, f.api, f.async_await, id@),
{
    (f.functions && string_is(id, "functions")) || (f.api && string_is(id, "api")) || (
    f.async_await && string_is(id, "async-await"))
}

fn push_all(v: &mut Vec<String>, extra: &Vec<String>)
    ensures
        strings_view(final(v)@) == strings_view(old(v)@) + strings_view(extra@),
{
    let ghost start = strings_view(v@);
    let mut k: usize = 0;
    while k < extra.len()
        invariant
            k <= extra@.len(),
            strings_view(v@) == start + strings_view(extra@).take(k as int),
        decreases extra@.len() - k,
    {
        let ghost prev = v@;
        v.push(extra[k].clone());
        proof {
            assert(strings_view(v@) =~= strings_view(prev).push(extra@[k as int]@));
            assert(strings_view(extra@).take(k + 1) =~= strings_view(extra@).take(k as int).push(
                extra@[k as int]@,
            ));
        }
        k += 1;
    }
    assert(strings_view(extra@).take(extra@.len() as int) =~= strings_view(extra@));
}

/// The concepts of a usable map that the texts show, together with all the
/// concepts they build on, in the map's order.  A missing or unusable map
/// gives no concepts.
pub fn concepts_from_texts(texts: &Vec<String>, map: Option<Vec<ConceptDefinition>>) -> (r: Vec<
    String,
>)
    ensures
        strings_view(r@) == concepts_for(
            strings_view(texts@),
            match map {
                Some(m) => Some(map_view(m@)),
                None => None,
            },
        ),
{
    let concepts = match map {
        Some(m) => match valid_concept_map(m) {
            Some(v) => v,
            None => {
                return Vec::new();
            },
        },
        None => {
            return Vec::new();
        },
    };
    let ghost c = map_view(concepts@);
    let features = features_of(texts);
    let ghost f = features.functions;
    let ghost a = features.api;
    let ghost w = features.async_await;
    let mut demanded: Vec<String> = Vec::new();
    let mut out: Vec<String> = Vec::new();
    let mut k: usize = concepts.len();
    while k > 0
        invariant
            c == map_view(concepts@),
            k <= concepts@.len(),
            f == features.functions,
            a == features.api,
            w == features.async_await,
            strings_view(demanded@).to_set() == demand(c, f, a, w, k as int),
            strings_view(out@) == selected(c, f, a, w, k as int),
        decreases k,
    {
        let i = k - 1;
        let d = &concepts[i];
        assert(c[i as int] == concept_view(*d));
        let is_needed = is_detected(&features, &d.id) || contains_id(&demanded, &d.id);
        assert(is_needed == needed(c, f, a, w, i as int));
        if is_needed {
            let ghost before = strings_view(demanded@);
            push_all(&mut demanded, &d.prerequisites);
            proof {
                assert(strings_view(demanded@).to_set() =~= before.to_set().union(
                    c[i as int].1.to_set(),
                )) by {
                    vstd::seq_lib::seq_to_set_distributes_over_add(before, c[i as int].1);
                }
            }
            out.insert(0, d.id.clone());
            assert(strings_view(out@) =~= seq![c[i as int].0] + selected(c, f, a, w, k as int));
        }
        k = i;
    }
    out
}


/// Going back through the map only adds to what is demanded.
proof fn lemma_demand_grows(c: Seq<ConceptView>, f: bool, a: bool, w: bool, lo: int, hi: int)
    requires
        0 <= lo <= hi,
    ensures
        demand(c, f, a, w, hi).subset_of(demand(c, f, a, w, lo)),
    decreases hi - lo,
{
    if lo < hi {
        lemma_demand_grows(c, f, a, w, lo + 1, hi);
        let inner = demand(c, f, a, w, lo + 1);
        assert(inner.subset_of(demand(c, f, a, w, lo)));
    }
}

/// A needed concept's prerequisites are demanded from its own position on.
proof fn lemma_needed_demands(c: Seq<ConceptView>, f: bool, a: bool, w: bool, i: int, t: int)
    requires
        0 <= i < c.len(),
        needed(c, f, a, w, i),
        0 <= t < c[i].1.len(),
    ensures
        demand(c, f, a, w, i).contains(c[i].1[t]),
{
    assert(c[i].1.to_set().contains(c[i].1[t]));
}

/// Every needed concept at or after `k` is among the concepts selected from `k`.
proof fn lemma_selected_contains(c: Seq<ConceptView>, f: bool, a: bool, w: bool, k: int, i: int)
    requires
        0 <= k <= i < c.len(),
        needed(c, f, a, w, i),
    ensures
        selected(c, f, a, w, k).contains(c[i].0),
    decreases i - k,
{
    if k == i {
        assert(selected(c, f, a, w, k)[0] == c[i].0);
    } else {
        lemma_selected_contains(c, f, a, w, k + 1, i);
        let s1 = selected(c, f, a, w, k + 1);
        let j = choose|j: int| 0 <= j < s1.len() && s1[j] == c[i].0;
        if needed(c, f, a, w, k) {
            assert(selected(c, f, a, w, k)[j + 1] == c[i].0);
        } else {
            assert(selected(c, f, a, w, k)[j] == c[i].0);
        }
    }
}

/// The position in `c` of a concept with the id `id`.
pub open spec fn position_of(c: Seq<ConceptView>, id: Seq<char>) -> int {
    choose|i: int| 0 <= i < c.len() && (#[trigger] c[i]).0 == id
}

/// No two concepts of `c` share an id.
pub open spec fn unique_ids(c: Seq<ConceptView>) -> bool {
    forall|i: int, j: int| 0 <= i < j < c.len() ==> (#[trigger] c[i]).0 != (#[trigger] c[j]).0
}

/// Every entry of `r` is the id of a concept of `c`.
pub open spec fn map_ids(r: Seq<Seq<char>>, c: Seq<ConceptView>) -> bool {
    forall|p: int|
        #![trigger r[p]]
        0 <= p < r.len() ==> 0 <= position_of(c, r[p]) < c.len() && c[position_of(c, r[p])].0
            == r[p]
}

/// The entries of `r` come in the order in which `c` lists them.
pub open spec fn in_map_order(r: Seq<Seq<char>>, c: Seq<ConceptView>) -> bool {
    forall|p: int, q: int|
        #![trigger r[p], r[q]]
        0 <= p < q < r.len() ==> position_of(c, r[p]) < position_of(c, r[q])
}

/// With every concept of `c` that `r` holds, `r` holds all its prerequisites.
pub open spec fn prerequisites_included(r: Seq<Seq<char>>, c: Seq<ConceptView>) -> bool {
    forall|i: int, t: int|
        0 <= i < c.len() && r.contains(#[trigger] c[i].0) && 0 <= t < c[i].1.len() ==> r.contains(
            #[trigger] c[i].1[t],
        )
}

/// With unique ids, the position of a concept's id is that concept's position.
proof fn lemma_position(c: Seq<ConceptView>, i: int)
    requires
        unique_ids(c),
        0 <= i < c.len(),
    ensures
        position_of(c, c[i].0) == i,
{
    assert(c[i].0 == c[i].0);
    let j = position_of(c, c[i].0);
    if j < i {
        assert(c[j].0 != c[i].0);
    } else if i < j {
        assert(c[i].0 != c[j].0);
    }
}

/// The concepts selected from `k` are needed concepts at or after `k`, in
/// map order.
proof fn lemma_selected_from_map(c: Seq<ConceptView>, f: bool, a: bool, w: bool, k: int)
    requires
        0 <= k,
        unique_ids(c),
    ensures
        forall|p: int|
            #![trigger selected(c, f, a, w, k)[p]]
            0 <= p < selected(c, f, a, w, k).len() ==> {
                let i = position_of(c, selected(c, f, a, w, k)[p]);
                k <= i < c.len() && c[i].0 == selected(c, f, a, w, k)[p] && needed(c, f, a, w, i)
            },
        in_map_order(selected(c, f, a, w, k), c),
    decreases c.len() - k,
{
    let s = selected(c, f, a, w, k);
    if k < c.len() {
        lemma_selected_from_map(c, f, a, w, k + 1);
        let s1 = selected(c, f, a, w, k + 1);
        if needed(c, f, a, w, k) {
            assert(s == seq![c[k].0] + s1);
            lemma_position(c, k);
            assert forall|p: int| #![trigger s[p]] 0 < p < s.len() implies s[p] == s1[p - 1] by {}
            assert(s[0] == c[k].0);
        } else {
            assert(s == s1);
        }
    }
}

/// The concepts found for a change are ids of the concept map, in the map's
/// order and each once; with every concept come all the concepts it builds
/// on; and a missing or unusable map gives no concepts at all.
pub proof fn law_concepts_follow_the_map(texts: Seq<Seq<char>>, c: Seq<ConceptView>)
    ensures
        concepts_for(texts, None).len() == 0,
        !valid_map(c) ==> concepts_for(texts, Some(c)).len() == 0,
        map_ids(concepts_for(texts, Some(c)), c),
        in_map_order(concepts_for(texts, Some(c)), c),
        concepts_for(texts, Some(c)).no_duplicates(),
        prerequisites_included(concepts_for(texts, Some(c)), c),
{
    let f = any_functions(texts);
    let a = any_api(texts);
    let w = any_async_await(texts);
    let r = concepts_for(texts, Some(c));
    if valid_map(c) {
        lemma_selected_from_map(c, f, a, w, 0);
        let s = selected(c, f, a, w, 0);
        assert(r == s);
        assert forall|p: int, q: int| #![trigger s[p], s[q]] 0 <= p < q < s.len() implies s[p] != s[q] by {
            assert(position_of(c, s[p]) < position_of(c, s[q]));
        }
        assert forall|i: int, t: int|
            0 <= i < c.len() && s.contains(#[trigger] c[i].0) && 0 <= t < c[i].1.len() implies s.contains(
            #[trigger] c[i].1[t]) by {
            let p = choose|p: int| 0 <= p < s.len() && s[p] == c[i].0;
            lemma_position(c, i);
            assert(needed(c, f, a, w, position_of(c, s[p])));
            lemma_needed_demands(c, f, a, w, i, t);
            assert(prerequisites_before(c, i));
            assert(listed_before(c, i, c[i].1[t]));
            let j = choose|j: int| 0 <= j < i && (#[trigger] c[j]).0 == c[i].1[t];
            lemma_demand_grows(c, f, a, w, j + 1, i);
            assert(needed(c, f, a, w, j));
            lemma_selected_contains(c, f, a, w, 0, j);
        }
    } else {
        assert(r.len() == 0);
    }
}

/// With the concept map that ships with the teaching material, a change
/// shows `functions` when its code shows any of the three features (API
/// commands and async code build on functions), then `api` when it shows an
/// API command, then `async-await` when it shows async code that awaits.
pub proof fn law_default_map_concepts(texts: Seq<Seq<char>>)
    ensures
        concepts_for(texts, Some(default_map_view())) == (if any_functions(texts) || any_api(texts)
            || any_async_await(texts) {
            seq!["functions"@]
        } else {
            seq![]
        }) + (if any_api(texts) {
            seq!["api"@]
        } else {
            seq![]
        }) + (if any_async_await(texts) {
            seq!["async-await"@]
        } else {
            seq![]
        }),
{
    reveal_strlit("functions");
    reveal_strlit("api");
    reveal_strlit("async-await");
    let c = default_map_view();
    let f = any_functions(texts);
    let a = any_api(texts);
    let w = any_async_await(texts);
    assert(c[1].1[0] == c[0].0);
    assert(c[2].1[0] == c[0].0);
    assert(listed_before(c, 1, c[1].1[0]));
    assert(listed_before(c, 2, c[2].1[0]));
    assert(prerequisites_before(c, 0));
    assert(prerequisites_before(c, 1));
    assert(prerequisites_before(c, 2));
    assert("functions"@.len() == 9 && "api"@.len() == 3 && "async-await"@.len() == 11);
    assert forall|i: int| 0 <= i < c.len() implies (#[trigger] c[i]).0.len() > 0 by {
        if i == 0 {
        } else if i == 1 {
        } else {
        }
    }
    assert forall|i: int, j: int| 0 <= i < j < c.len() implies (#[trigger] c[i]).0 != (
    #[trigger] c[j]).0 by {
        if i == 0 && j == 1 {
        } else if i == 0 && j == 2 {
        } else {
        }
    }
    assert forall|i: int| 0 <= i < c.len() implies #[trigger] prerequisites_before(c, i) by {
        if i == 0 {
        } else if i == 1 {
        } else {
        }
    }
    assert(valid_map(c));
    let fs: Set<Seq<char>> = seq!["functions"@].to_set();
    assert(demand(c, f, a, w, 3) == Set::<Seq<char>>::empty());
    assert(demand(c, f, a, w, 2) == if w {
        Set::<Seq<char>>::empty().union(fs)
    } else {
        Set::<Seq<char>>::empty()
    });
    assert(!demand(c, f, a, w, 2).contains("api"@));
    assert(demand(c, f, a, w, 2).contains("functions"@) == w);
    assert(demand(c, f, a, w, 1).contains("functions"@) == (a || w));
    assert(needed(c, f, a, w, 0) == (f || a || w));
    assert(needed(c, f, a, w, 1) == a);
    assert(needed(c, f, a, w, 2) == w);
    assert(selected(c, f, a, w, 3) == Seq::<Seq<char>>::empty());
    assert(selected(c, f, a, w, 2) =~= if w {
        seq!["async-await"@]
    } else {
        seq![]
    });
    assert(selected(c, f, a, w, 1) =~= (if a {
        seq!["api"@]
    } else {
        seq![]
    }) + (if w {
        seq!["async-await"@]
    } else {
        seq![]
    }));
    assert(selected(c, f, a, w, 0) =~= (if f || a || w {
        seq!["functions"@]
    } else {
        seq![]
    }) + (if a {
        seq!["api"@]
    } else {
        seq![]
    }) + (if w {
        seq!["async-await"@]
    } else {
        seq![]
    }));
}

} // verus!
