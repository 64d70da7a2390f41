//! Lexicographic order on character sequences, and vectors kept sorted by a
//! string key (the order in which `String`s compare).

use vstd::prelude::*;

verus! {

/// `a` sorts strictly before `b`, comparing code points from the left; a
/// proper prefix sorts first.  For strings this is the order of `String`'s
/// `Ord`, since UTF-8 preserves code-point order.
pub open spec fn lex_lt(a: Seq<char>, b: Seq<char>) -> bool
    decreases a.len(),
{
    if a.len() == 0 {
        b.len() > 0
    } else if b.len() == 0 {
        false
    } else if a[0] != b[0] {
        (a[0] as int) < (b[0] as int)
    } else {
        lex_lt(a.drop_first(), b.drop_first())
    }
}

pub proof fn lemma_lex_irreflexive(a: Seq<char>)
    ensures
        !lex_lt(a, a),
    decreases a.len(),
{
    if a.len() > 0 {
        lemma_lex_irreflexive(a.drop_first());
    }
}

pub proof fn lemma_lex_transitive(a: Seq<char>, b: Seq<char>, c: Seq<char>)
    requires
        lex_lt(a, b),
        lex_lt(b, c),
    ensures
        lex_lt(a, c),
    decreases a.len(),
{
    if a.len() > 0 && b.len() > 0 && c.len() > 0 {
        if a[0] == b[0] && b[0] == c[0] {
            lemma_lex_transitive(a.drop_first(), b.drop_first(), c.drop_first());
        }
    }
}

pub proof fn lemma_lex_total(a: Seq<char>, b: Seq<char>)
    ensures
        a == b || lex_lt(a, b) || lex_lt(b, a),
    decreases a.len(),
{
    if a.len() > 0 && b.len() > 0 {
        if a[0] == b[0] {
            lemma_lex_total(a.drop_first(), b.drop_first());
            if a.drop_first() == b.drop_first() {
                assert(a =~= seq![a[0]] + a.drop_first());
                assert(b =~= seq![b[0]] + b.drop_first());
            }
        } else {
            assert((a[0] as int) != (b[0] as int));
        }
    } else if a.len() == 0 && b.len() == 0 {
        assert(a =~= b);
    }
}

pub proof fn lemma_lex_asymmetric(a: Seq<char>, b: Seq<char>)
    requires
        lex_lt(a, b),
    ensures
        !lex_lt(b, a),
{
    if lex_lt(b, a) {
        lemma_lex_transitive(a, b, a);
        lemma_lex_irreflexive(a);
    }
}

/// Compares two character slices in lexicographic order.
pub fn lex_less(a: &[char], b: &[char]) -> (r: bool)
    ensures
        r == lex_lt(a@, b@),
{
    let mut i: usize = 0;
    assert(a@.skip(0) =~= a@);
    assert(b@.skip(0) =~= b@);
    while i < a.len() && i < b.len()
        invariant
            i <= a@.len(),
            i <= b@.len(),
            lex_lt(a@, b@) == lex_lt(a@.skip(i as int), b@.skip(i as int)),
        decreases a@.len() - i,
    {
        if a[i] != b[i] {
            return a[i] < b[i];
        }
        assert(a@.skip(i as int).drop_first() =~= a@.skip(i + 1));
        assert(b@.skip(i as int).drop_first() =~= b@.skip(i + 1));
        i += 1;
    }
    i == a.len() && i < b.len()
}

/// Tests two character slices for equality.
pub fn chars_equal(a: &[char], b: &[char]) -> (r: bool)
    ensures
        r == (a@ == b@),
{
    if a.len() != b.len() {
        return false;
    }
    let mut i: usize = 0;
    while i < a.len()
        invariant
            i <= a@.len(),
            a@.len() == b@.len(),
            forall|j: int| 0 <= j < i ==> a@[j] == b@[j],
        decreases a@.len() - i,
    {
        if a[i] != b[i] {
            return false;
        }
        i += 1;
    }
    assert(a@ =~= b@);
    true
}

/// A value with a string key that orders and identifies it.
pub trait Keyed: Sized {
    spec fn key(&self) -> Seq<char>;

    fn key_chars(&self) -> (k: Vec<char>)
        ensures
            k@ == self.key(),
    ;
}

impl Keyed for String {
    open spec fn key(&self) -> Seq<char> {
        self@
    }

    fn key_chars(&self) -> (k: Vec<char>) {
        crate::text::to_chars(self.as_str())
    }
}

/// Keys never decrease along `s`.
pub open spec fn sorted_by_key<T: Keyed>(s: Seq<T>) -> bool {
    forall|i: int, j: int| 0 <= i < j < s.len() ==> !lex_lt(#[trigger] s[j].key(), #[trigger] s[i].key())
}

/// Keys strictly increase along `s`, so no key occurs twice.
pub open spec fn strictly_sorted<T: Keyed>(s: Seq<T>) -> bool {
    forall|i: int, j: int| 0 <= i < j < s.len() ==> lex_lt(#[trigger] s[i].key(), #[trigger] s[j].key())
}

/// The first position from `p` on whose key sorts after `k`.
pub open spec fn upper_bound_from<T: Keyed>(s: Seq<T>, k: Seq<char>, p: int) -> int
    decreases s.len() - p,
{
    if p >= s.len() {
        s.len() as int
    } else if lex_lt(k, s[p].key()) {
        p
    } else {
        upper_bound_from(s, k, p + 1)
    }
}

/// `x` inserted after every element whose key does not sort after its own.
pub open spec fn insert_stable<T: Keyed>(s: Seq<T>, x: T) -> Seq<T> {
    s.insert(upper_bound_from(s, x.key(), 0), x)
}

/// The stable sort of `s` by key: each element in turn is placed after all
/// earlier elements with a key that does not sort after its own.
pub open spec fn sort_by_key_spec<T: Keyed>(s: Seq<T>) -> Seq<T>
    decreases s.len(),
{
    if s.len() == 0 {
        Seq::empty()
    } else {
        insert_stable(sort_by_key_spec(s.drop_last()), s.last())
    }
}

/// The map from keys to elements that `s` describes; a later element
/// replaces an earlier one with the same key.
pub open spec fn key_map<T: Keyed>(s: Seq<T>) -> Map<Seq<char>, T>
    decreases s.len(),
{
    if s.len() == 0 {
        Map::empty()
    } else {
        key_map(s.drop_last()).insert(s.last().key(), s.last())
    }
}

pub proof fn lemma_key_map_domain<T: Keyed>(s: Seq<T>, k: Seq<char>)
    ensures
        key_map(s).contains_key(k) <==> exists|i: int| 0 <= i < s.len() && #[trigger] s[i].key() == k,
    decreases s.len(),
{
    if s.len() > 0 {
        lemma_key_map_domain(s.drop_last(), k);
        if exists|i: int| 0 <= i < s.len() && #[trigger] s[i].key() == k {
            let i = choose|i: int| 0 <= i < s.len() && #[trigger] s[i].key() == k;
            if i < s.len() - 1 {
                assert(s.drop_last()[i].key() == k);
            }
        }
        if exists|i: int| 0 <= i < s.len() - 1 && #[trigger] s.drop_last()[i].key() == k {
            let i = choose|i: int| 0 <= i < s.len() - 1 && #[trigger] s.drop_last()[i].key() == k;
            assert(s[i].key() == k);
        }
    }
}

pub proof fn lemma_key_map_value<T: Keyed>(s: Seq<T>, i: int)
    requires
        strictly_sorted(s),
        0 <= i < s.len(),
    ensures
        key_map(s).contains_key(s[i].key()),
        key_map(s)[s[i].key()] == s[i],
    decreases s.len(),
{
    if i < s.len() - 1 {
        assert(strictly_sorted(s.drop_last()));
        lemma_key_map_value(s.drop_last(), i);
        assert(lex_lt(s[i].key(), s[s.len() - 1].key()));
        lemma_lex_irreflexive(s[i].key());
    }
}

/// The first position from `p` on whose key does not sort before `k`.
pub open spec fn lower_bound_from<T: Keyed>(s: Seq<T>, k: Seq<char>, p: int) -> int
    decreases s.len() - p,
{
    if p >= s.len() {
        s.len() as int
    } else if !lex_lt(s[p].key(), k) {
        p
    } else {
        lower_bound_from(s, k, p + 1)
    }
}

pub proof fn lemma_lower_bound<T: Keyed>(s: Seq<T>, k: Seq<char>, p: int)
    requires
        0 <= p <= s.len(),
        forall|j: int| 0 <= j < p ==> lex_lt(#[trigger] s[j].key(), k),
    ensures
        p <= lower_bound_from(s, k, p) <= s.len(),
        forall|j: int| 0 <= j < lower_bound_from(s, k, p) ==> lex_lt(#[trigger] s[j].key(), k),
        lower_bound_from(s, k, p) < s.len() ==> !lex_lt(s[lower_bound_from(s, k, p)].key(), k),
    decreases s.len() - p,
{
    if p < s.len() && lex_lt(s[p].key(), k) {
        lemma_lower_bound(s, k, p + 1);
    }
}

/// `x` stored under its key in a strictly sorted sequence: it replaces the
/// element with the same key, or is inserted where its key belongs.
pub open spec fn upsert_spec<T: Keyed>(s: Seq<T>, x: T) -> Seq<T> {
    let p = lower_bound_from(s, x.key(), 0);
    if p < s.len() && s[p].key() == x.key() {
        s.update(p, x)
    } else {
        s.insert(p, x)
    }
}

pub proof fn lemma_upsert<T: Keyed>(s: Seq<T>, x: T)
    requires
        strictly_sorted(s),
    ensures
        strictly_sorted(upsert_spec(s, x)),
        key_map(upsert_spec(s, x)) == key_map(s).insert(x.key(), x),
{
    let k = x.key();
    lemma_lower_bound(s, k, 0);
    let p = lower_bound_from(s, k, 0);
    let r = upsert_spec(s, x);
    if p < s.len() && s[p].key() == k {
        assert forall|i: int, j: int| 0 <= i < j < r.len() implies lex_lt(
            #[trigger] r[i].key(),
            #[trigger] r[j].key(),
        ) by {
            assert(lex_lt(s[i].key(), s[j].key()));
        }
    } else {
        if p < s.len() {
            lemma_lex_total(s[p].key(), k);
        }
        assert forall|i: int, j: int| 0 <= i < j < r.len() implies lex_lt(
            #[trigger] r[i].key(),
            #[trigger] r[j].key(),
        ) by {
            if j == p {
                assert(r[i] == s[i]);
            } else if i == p {
                assert(r[j] == s[j - 1]);
                if j - 1 > p {
                    assert(lex_lt(s[p].key(), s[j - 1].key()));
                    lemma_lex_transitive(k, s[p].key(), s[j - 1].key());
                }
            } else if i < p && j > p {
                assert(lex_lt(s[i].key(), k));
                assert(r[j] == s[j - 1]);
                if p < s.len() {
                    if j - 1 > p {
                        assert(lex_lt(s[p].key(), s[j - 1].key()));
                        lemma_lex_transitive(k, s[p].key(), s[j - 1].key());
                    }
                    lemma_lex_transitive(s[i].key(), k, s[j - 1].key());
                }
            } else if i > p {
                assert(r[i] == s[i - 1] && r[j] == s[j - 1]);
            } else {
                assert(r[i] == s[i] && r[j] == s[j]);
            }
        }
    }
    let m = key_map(s).insert(k, x);
    assert forall|key: Seq<char>| #[trigger] key_map(r).contains_key(key) <==> m.contains_key(key) by {
        lemma_key_map_domain(r, key);
        lemma_key_map_domain(s, key);
        if exists|i: int| 0 <= i < s.len() && #[trigger] s[i].key() == key {
            let i = choose|i: int| 0 <= i < s.len() && #[trigger] s[i].key() == key;
            if key != k {
                if p < s.len() && s[p].key() == k {
                    assert(r[i].key() == key);
                } else if i < p {
                    assert(r[i].key() == key);
                } else {
                    assert(r[i + 1].key() == key);
                }
            }
        }
        if exists|i: int| 0 <= i < r.len() && #[trigger] r[i].key() == key {
            let i = choose|i: int| 0 <= i < r.len() && #[trigger] r[i].key() == key;
            if key != k {
                if p < s.len() && s[p].key() == k {
                    assert(s[i].key() == key);
                } else if i < p {
                    assert(s[i].key() == key);
                } else {
                    assert(s[i - 1].key() == key);
                }
            }
        }
        if key == k {
            if p < s.len() && s[p].key() == k {
                assert(r[p].key() == key);
            } else {
                assert(r[p].key() == key);
            }
        }
    }
    assert forall|key: Seq<char>| #[trigger] key_map(r).contains_key(key) implies key_map(r)[key]
        == m[key] by {
        lemma_key_map_domain(r, key);
        let i = choose|i: int| 0 <= i < r.len() && #[trigger] r[i].key() == key;
        lemma_key_map_value(r, i);
        lemma_lex_irreflexive(k);
        assert(r[p] == x);
        if key != k {
            assert(i != p);
            if p < s.len() && s[p].key() == k {
                assert(r[i] == s[i]);
                lemma_key_map_value(s, i);
            } else if i < p {
                assert(r[i] == s[i]);
                lemma_key_map_value(s, i);
            } else {
                assert(r[i] == s[i - 1]);
                lemma_key_map_value(s, i - 1);
            }
        } else {
            if i != p {
                if i < p {
                    assert(lex_lt(r[i].key(), r[p].key()));
                } else {
                    assert(lex_lt(r[p].key(), r[i].key()));
                }
            }
        }
    }
    assert(key_map(r) =~= m);
}

/// Stores `x` under its key in a vector that is strictly sorted by key.
pub fn upsert<T: Keyed>(v: &mut Vec<T>, x: T)
    requires
        strictly_sorted(old(v)@),
    ensures
        final(v)@ == upsert_spec(old(v)@, x),
        strictly_sorted(final(v)@),
        key_map(final(v)@) == key_map(old(v)@).insert(x.key(), x),
{
    proof {
        lemma_upsert(v@, x);
    }
    let k = x.key_chars();
    let mut p: usize = 0;
    let mut found = false;
    while p < v.len() && !found
        invariant
            p <= v@.len(),
            v@ == old(v)@,
            k@ == x.key(),
            lower_bound_from(v@, x.key(), 0) == if found {
                p as int
            } else {
                lower_bound_from(v@, x.key(), p as int)
            },
        decreases v@.len() - p + if found { 0int } else { 1int },
    {
        let pk = v[p].key_chars();
        if !lex_less(&pk, &k) {
            found = true;
        } else {
            p += 1;
        }
    }
    if p < v.len() {
        let pk = v[p].key_chars();
        if chars_equal(&pk, &k) {
            v.set(p, x);
            return ;
        }
    }
    v.insert(p, x);
}

pub proof fn lemma_upper_bound_end<T: Keyed>(s: Seq<T>, k: Seq<char>, p: int)
    requires
        0 <= p <= s.len(),
        forall|j: int| p <= j < s.len() ==> !lex_lt(k, #[trigger] s[j].key()),
    ensures
        upper_bound_from(s, k, p) == s.len(),
    decreases s.len() - p,
{
    if p < s.len() {
        lemma_upper_bound_end(s, k, p + 1);
    }
}

/// Sorting a sequence that is already in key order leaves it unchanged.
pub proof fn lemma_sort_of_sorted<T: Keyed>(s: Seq<T>)
    requires
        sorted_by_key(s),
    ensures
        sort_by_key_spec(s) == s,
    decreases s.len(),
{
    if s.len() > 0 {
        let init = s.drop_last();
        assert(sorted_by_key(init));
        lemma_sort_of_sorted(init);
        assert forall|j: int| 0 <= j < init.len() implies !lex_lt(
            s.last().key(),
            #[trigger] init[j].key(),
        ) by {
            assert(init[j] == s[j]);
        }
        lemma_upper_bound_end(init, s.last().key(), 0);
        assert(init.insert(init.len() as int, s.last()) =~= s);
    }
}

pub proof fn lemma_strictly_sorted_is_sorted<T: Keyed>(s: Seq<T>)
    requires
        strictly_sorted(s),
    ensures
        sorted_by_key(s),
{
    assert forall|i: int, j: int| 0 <= i < j < s.len() implies !lex_lt(
        #[trigger] s[j].key(),
        #[trigger] s[i].key(),
    ) by {
        lemma_lex_asymmetric(s[i].key(), s[j].key());
    }
}

/// Sorts a vector stably by key.
pub fn sort_by_key<T: Keyed>(v: Vec<T>) -> (r: Vec<T>)
    ensures
        r@ == sort_by_key_spec(v@),
{
    let mut out: Vec<T> = Vec::new();
    let ghost whole = v@;
    for x in it: v.into_iter()
        invariant
            it.seq() == whole,
            out@ == sort_by_key_spec(whole.take(it.index() as int)),
    {
        let ghost i = it.index();
        let k = x.key_chars();
        let mut p: usize = 0;
        let mut found = false;
        while p < out.len() && !found
            invariant
                p <= out@.len(),
                k@ == x.key(),
                upper_bound_from(out@, x.key(), 0) == if found {
                    p as int
                } else {
                    upper_bound_from(out@, x.key(), p as int)
                },
            decreases out@.len() - p + if found { 0int } else { 1int },
        {
            let pk = out[p].key_chars();
            if lex_less(&k, &pk) {
                found = true;
            } else {
                p += 1;
            }
        }
        proof {
            assert(whole.take(i + 1).drop_last() =~= whole.take(i as int));
            assert(whole.take(i + 1).last() == x);
        }
        out.insert(p, x);
    }
    proof {
        assert(whole.take(whole.len() as int) =~= whole);
    }
    out
}

pub proof fn lemma_upper_bound_range<T: Keyed>(s: Seq<T>, k: Seq<char>, p: int)
    requires
        0 <= p <= s.len(),
    ensures
        p <= upper_bound_from(s, k, p) <= s.len(),
    decreases s.len() - p,
{
    if p < s.len() {
        lemma_upper_bound_range(s, k, p + 1);
    }
}

/// Sorting keeps the length.
pub proof fn lemma_sort_len<T: Keyed>(s: Seq<T>)
    ensures
        sort_by_key_spec(s).len() == s.len(),
    decreases s.len(),
{
    if s.len() > 0 {
        lemma_sort_len(s.drop_last());
        lemma_upper_bound_range(sort_by_key_spec(s.drop_last()), s.last().key(), 0);
    }
}


/// In a strictly sorted sequence the last key occurs nowhere before it, so
/// dropping the last element removes exactly its key.
proof fn lemma_key_map_drop_last<T: Keyed>(s: Seq<T>)
    requires
        strictly_sorted(s),
        s.len() > 0,
    ensures
        key_map(s.drop_last()) == key_map(s).remove(s.last().key()),
{
    let d = s.drop_last();
    let k = s.last().key();
    lemma_key_map_domain(d, k);
    if key_map(d).contains_key(k) {
        let i = choose|i: int| 0 <= i < d.len() && #[trigger] d[i].key() == k;
        assert(lex_lt(s[i].key(), s[s.len() - 1].key()));
        lemma_lex_irreflexive(k);
    }
    assert(key_map(d) =~= key_map(d).insert(k, s.last()).remove(k));
}

/// A strictly sorted sequence is determined by the map from its keys to its
/// elements.
pub proof fn lemma_sorted_unique<T: Keyed>(a: Seq<T>, b: Seq<T>)
    requires
        strictly_sorted(a),
        strictly_sorted(b),
        key_map(a) == key_map(b),
    ensures
        a == b,
    decreases a.len(),
{
    if a.len() == 0 {
        if b.len() > 0 {
            lemma_key_map_value(b, 0);
        }
        assert(a =~= b);
    } else {
        let ka = a.last().key();
        lemma_key_map_value(a, a.len() - 1);
        lemma_key_map_domain(b, ka);
        let jb = choose|i: int| 0 <= i < b.len() && #[trigger] b[i].key() == ka;
        let kb = b.last().key();
        lemma_key_map_value(b, b.len() - 1);
        lemma_key_map_domain(a, kb);
        let ja = choose|i: int| 0 <= i < a.len() && #[trigger] a[i].key() == kb;
        if ka != kb {
            if ja < a.len() - 1 {
                assert(lex_lt(a[ja].key(), a[a.len() - 1].key()));
            }
            if jb < b.len() - 1 {
                assert(lex_lt(b[jb].key(), b[b.len() - 1].key()));
            }
            lemma_lex_asymmetric(kb, ka);
        }
        assert(a.last() == b.last());
        lemma_key_map_drop_last(a);
        lemma_key_map_drop_last(b);
        assert(strictly_sorted(a.drop_last()));
        assert(strictly_sorted(b.drop_last()));
        lemma_sorted_unique(a.drop_last(), b.drop_last());
        assert(a =~= a.drop_last().push(a.last()));
        assert(b =~= b.drop_last().push(b.last()));
    }
}


/// Two strictly sorted sequences with the same keys hold them at the same
/// positions.
pub proof fn lemma_sorted_keys_unique<T: Keyed, U: Keyed>(a: Seq<T>, b: Seq<U>)
    requires
        strictly_sorted(a),
        strictly_sorted(b),
        forall|k: Seq<char>| key_map(a).contains_key(k) == #[trigger] key_map(b).contains_key(k),
    ensures
        a.len() == b.len(),
        forall|i: int| 0 <= i < a.len() ==> (#[trigger] a[i]).key() == b[i].key(),
    decreases a.len(),
{
    if a.len() == 0 {
        if b.len() > 0 {
            lemma_key_map_value(b, 0);
            lemma_key_map_domain(a, b[0].key());
        }
    } else {
        let ka = a.last().key();
        lemma_key_map_value(a, a.len() - 1);
        lemma_key_map_domain(b, ka);
        let jb = choose|i: int| 0 <= i < b.len() && #[trigger] b[i].key() == ka;
        let kb = b.last().key();
        lemma_key_map_value(b, b.len() - 1);
        lemma_key_map_domain(a, kb);
        let ja = choose|i: int| 0 <= i < a.len() && #[trigger] a[i].key() == kb;
        if ka != kb {
            if ja < a.len() - 1 {
                assert(lex_lt(a[ja].key(), a[a.len() - 1].key()));
            }
            if jb < b.len() - 1 {
                assert(lex_lt(b[jb].key(), b[b.len() - 1].key()));
            }
            lemma_lex_asymmetric(kb, ka);
        }
        lemma_key_map_drop_last(a);
        lemma_key_map_drop_last(b);
        assert(strictly_sorted(a.drop_last()));
        assert(strictly_sorted(b.drop_last()));
        assert forall|k: Seq<char>|
            key_map(a.drop_last()).contains_key(k) == #[trigger] key_map(
                b.drop_last(),
            ).contains_key(k) by {
            assert(key_map(a).contains_key(k) == key_map(b).contains_key(k));
        }
        lemma_sorted_keys_unique(a.drop_last(), b.drop_last());
        assert forall|i: int| 0 <= i < a.len() implies (#[trigger] a[i]).key() == b[i].key() by {
            if i < a.len() - 1 {
                assert(a.drop_last()[i].key() == b.drop_last()[i].key());
            }
        }
    }
}

/// Where `p` lands for key `k` depends only on the keys along the sequence.
proof fn lemma_upper_bound_keys<T: Keyed>(a: Seq<T>, b: Seq<T>, k: Seq<char>, p: int)
    requires
        0 <= p,
        a.len() == b.len(),
        forall|i: int| 0 <= i < a.len() ==> (#[trigger] a[i]).key() == b[i].key(),
    ensures
        upper_bound_from(a, k, p) == upper_bound_from(b, k, p),
    decreases a.len() - p,
{
    if p < a.len() {
        assert(a[p].key() == b[p].key());
        lemma_upper_bound_keys(a, b, k, p + 1);
    }
}

/// Sorting by key sends sequences with the same keys to sequences with the
/// same keys.
pub proof fn lemma_sort_keys<T: Keyed>(a: Seq<T>, b: Seq<T>)
    requires
        a.len() == b.len(),
        forall|i: int| 0 <= i < a.len() ==> (#[trigger] a[i]).key() == b[i].key(),
    ensures
        sort_by_key_spec(a).len() == sort_by_key_spec(b).len(),
        forall|i: int|
            0 <= i < sort_by_key_spec(a).len() ==> (#[trigger] sort_by_key_spec(a)[i]).key()
                == sort_by_key_spec(b)[i].key(),
    decreases a.len(),
{
    if a.len() > 0 {
        let da = a.drop_last();
        let db = b.drop_last();
        assert forall|i: int| 0 <= i < da.len() implies (#[trigger] da[i]).key() == db[i].key() by {
            assert(a[i].key() == b[i].key());
        }
        lemma_sort_keys(da, db);
        let sa = sort_by_key_spec(da);
        let sb = sort_by_key_spec(db);
        assert(a.last().key() == b[b.len() - 1].key());
        lemma_upper_bound_keys(sa, sb, a.last().key(), 0);
        let p = upper_bound_from(sa, a.last().key(), 0);
        lemma_upper_bound_range(sa, a.last().key(), 0);
        let ra = sa.insert(p, a.last());
        let rb = sb.insert(p, b.last());
        assert(sort_by_key_spec(a) == ra);
        assert(sort_by_key_spec(b) == rb);
        assert forall|i: int| 0 <= i < ra.len() implies (#[trigger] ra[i]).key() == rb[i].key() by {
            if i < p {
                assert(ra[i] == sa[i] && rb[i] == sb[i]);
            } else if i > p {
                assert(ra[i] == sa[i - 1] && rb[i] == sb[i - 1]);
            }
        }
    }
}


/// Where no element has key `k`, inserting `k` after its equals and
/// before its successors land on the same position.
pub proof fn lemma_bounds_agree_when_absent<T: Keyed>(s: Seq<T>, k: Seq<char>, p: int)
    requires
        0 <= p,
        forall|i: int| 0 <= i < s.len() ==> (#[trigger] s[i]).key() != k,
    ensures
        upper_bound_from(s, k, p) == lower_bound_from(s, k, p),
    decreases s.len() - p,
{
    if p < s.len() {
        assert(s[p].key() != k);
        lemma_lex_total(k, s[p].key());
        if lex_lt(k, s[p].key()) {
            lemma_lex_asymmetric(k, s[p].key());
        }
        lemma_bounds_agree_when_absent(s, k, p + 1);
    }
}

} // verus!
