//! A specification-level model of an association sequence: ordered key/value
//! pairs with unique string keys, looked up by first occurrence.
//!
//! Both maps the registry owns (sensor id to exported series, sensor id to
//! last known state) are modelled this way; insertion order is kept.

use vstd::prelude::*;

verus! {

/// The keys of the pairs, in order.
pub open spec fn keys<V>(s: Seq<(Seq<char>, V)>) -> Seq<Seq<char>> {
    s.map_values(|p: (Seq<char>, V)| p.0)
}

/// Index of the first pair with key `id` at or after `from`; `s.len()` if none.
pub open spec fn find_key<V>(s: Seq<(Seq<char>, V)>, id: Seq<char>, from: int) -> int
    decreases s.len() - from,
{
    if from < 0 || from >= s.len() {
        s.len() as int
    } else if s[from].0 == id {
        from
    } else {
        find_key(s, id, from + 1)
    }
}

/// Index of the first pair with key `id`; `s.len()` if none.
pub open spec fn idx_of<V>(s: Seq<(Seq<char>, V)>, id: Seq<char>) -> int {
    find_key(s, id, 0)
}

pub open spec fn has_key<V>(s: Seq<(Seq<char>, V)>, id: Seq<char>) -> bool {
    idx_of(s, id) < s.len()
}

/// The value associated with `id`, if any.
pub open spec fn lookup<V>(s: Seq<(Seq<char>, V)>, id: Seq<char>) -> Option<V> {
    if has_key(s, id) {
        Some(s[idx_of(s, id)].1)
    } else {
        None
    }
}

/// Associate `id` with `v`: update in place if present, else append.
pub open spec fn put<V>(s: Seq<(Seq<char>, V)>, id: Seq<char>, v: V) -> Seq<(Seq<char>, V)> {
    if has_key(s, id) {
        s.update(idx_of(s, id), (id, v))
    } else {
        s.push((id, v))
    }
}

/// No two pairs share a key.
pub open spec fn uniq_keys<V>(s: Seq<(Seq<char>, V)>) -> bool {
    forall|i: int, j: int| 0 <= i < j < s.len() ==> (#[trigger] s[i]).0 != (#[trigger] s[j]).0
}

/// `find_key` stays within bounds, lands on a matching key, and skips no match.
pub proof fn lemma_find_key_props<V>(s: Seq<(Seq<char>, V)>, id: Seq<char>, from: int)
    requires
        0 <= from <= s.len(),
    ensures
        from <= find_key(s, id, from) <= s.len(),
        find_key(s, id, from) < s.len() ==> s[find_key(s, id, from)].0 == id,
        forall|m: int| from <= m < find_key(s, id, from) ==> (#[trigger] s[m]).0 != id,
    decreases s.len() - from,
{
    if from < s.len() && s[from].0 != id {
        lemma_find_key_props(s, id, from + 1);
    }
}

/// Two sequences with pointwise equal keys agree on `find_key`.
pub proof fn lemma_find_key_same_keys<V, W>(
    a: Seq<(Seq<char>, V)>,
    b: Seq<(Seq<char>, W)>,
    id: Seq<char>,
    from: int,
)
    requires
        a.len() == b.len(),
        forall|m: int| 0 <= m < a.len() ==> (#[trigger] a[m]).0 == b[m].0,
    ensures
        find_key(a, id, from) == find_key(b, id, from),
    decreases a.len() - from,
{
    if 0 <= from < a.len() && a[from].0 != id {
        lemma_find_key_same_keys(a, b, id, from + 1);
    }
}

/// How `find_key` behaves on a sequence extended by one pair.
pub proof fn lemma_find_key_push<V>(
    s: Seq<(Seq<char>, V)>,
    p: (Seq<char>, V),
    id: Seq<char>,
    from: int,
)
    requires
        0 <= from <= s.len(),
    ensures
        find_key(s.push(p), id, from) == (if find_key(s, id, from) < s.len() {
            find_key(s, id, from)
        } else if p.0 == id {
            s.len() as int
        } else {
            s.len() + 1int
        }),
    decreases s.len() - from,
{
    if from < s.len() {
        if s[from].0 != id {
            lemma_find_key_push(s, p, id, from + 1);
        }
    } else {
        let sp = s.push(p);
        assert(sp[from] == p);
        if p.0 != id {
            assert(find_key(sp, id, from) == find_key(sp, id, from + 1));
            assert(find_key(sp, id, from + 1) == sp.len());
        }
    }
}

/// A key is present exactly when it occurs among the keys.
pub proof fn lemma_has_key_contains<V>(s: Seq<(Seq<char>, V)>, id: Seq<char>)
    ensures
        has_key(s, id) <==> keys(s).contains(id),
{
    lemma_find_key_props(s, id, 0);
    if has_key(s, id) {
        assert(keys(s)[idx_of(s, id)] == id);
    }
    if keys(s).contains(id) {
        let m = choose|m: int| 0 <= m < keys(s).len() && keys(s)[m] == id;
        assert(s[m].0 == id);
    }
}

/// The keys after `put`: unchanged if the key was present, else extended by it.
pub proof fn lemma_put_keys<V>(s: Seq<(Seq<char>, V)>, id: Seq<char>, v: V)
    ensures
        has_key(s, id) ==> keys(put(s, id, v)) == keys(s),
        !has_key(s, id) ==> keys(put(s, id, v)) == keys(s).push(id),
        put(s, id, v).len() == (if has_key(s, id) {
            s.len() as int
        } else {
            s.len() + 1int
        }),
{
    lemma_find_key_props(s, id, 0);
    if has_key(s, id) {
        assert(keys(put(s, id, v)) =~= keys(s));
    } else {
        assert(keys(put(s, id, v)) =~= keys(s).push(id));
    }
}

/// `put` preserves key uniqueness.
pub proof fn lemma_put_uniq<V>(s: Seq<(Seq<char>, V)>, id: Seq<char>, v: V)
    requires
        uniq_keys(s),
    ensures
        uniq_keys(put(s, id, v)),
{
    lemma_find_key_props(s, id, 0);
    if has_key(s, id) {
        let k = idx_of(s, id);
        assert(s[k].0 == id);
    }
}

/// What `lookup` returns after a `put`.
pub proof fn lemma_put_lookup<V>(s: Seq<(Seq<char>, V)>, id: Seq<char>, v: V, id2: Seq<char>)
    requires
        uniq_keys(s),
    ensures
        lookup(put(s, id, v), id2) == (if id2 == id {
            Some(v)
        } else {
            lookup(s, id2)
        }),
{
    lemma_find_key_props(s, id, 0);
    lemma_find_key_props(s, id2, 0);
    if has_key(s, id) {
        let k = idx_of(s, id);
        let s2 = s.update(k, (id, v));
        assert(forall|m: int| 0 <= m < s2.len() ==> (#[trigger] s2[m]).0 == s[m].0);
        lemma_find_key_same_keys(s2, s, id2, 0);
        lemma_find_key_props(s2, id2, 0);
    } else {
        let s2 = s.push((id, v));
        lemma_find_key_push(s, (id, v), id2, 0);
        lemma_find_key_props(s2, id2, 0);
    }
}

/// A sequence with unique keys is determined by its key order and lookups.
pub proof fn lemma_assoc_determined<V>(a: Seq<(Seq<char>, V)>, b: Seq<(Seq<char>, V)>)
    requires
        a.len() == b.len(),
        forall|m: int| 0 <= m < a.len() ==> (#[trigger] a[m]).0 == b[m].0,
        uniq_keys(a),
        forall|id: Seq<char>| #[trigger] lookup(a, id) == lookup(b, id),
    ensures
        a == b,
{
    assert forall|m: int| 0 <= m < a.len() implies a[m] == b[m] by {
        let k = a[m].0;
        lemma_find_key_props(a, k, 0);
        lemma_find_key_props(b, k, 0);
        lemma_find_key_same_keys(a, b, k, 0);
        let ix = idx_of(a, k);
        assert(ix <= m);
        assert(ix == m);
        assert(lookup(a, k) == Some(a[m].1));
        assert(lookup(b, k) == Some(b[m].1));
    }
    assert(a =~= b);
}

/// Membership in a concatenation is membership in either part.
pub proof fn lemma_concat_contains<A>(a: Seq<A>, b: Seq<A>, x: A)
    ensures
        (a + b).contains(x) <==> a.contains(x) || b.contains(x),
{
    if a.contains(x) {
        let m = choose|m: int| 0 <= m < a.len() && a[m] == x;
        assert((a + b)[m] == x);
    }
    if b.contains(x) {
        let m = choose|m: int| 0 <= m < b.len() && b[m] == x;
        assert((a + b)[a.len() + m] == x);
    }
    if (a + b).contains(x) {
        let m = choose|m: int| 0 <= m < (a + b).len() && (a + b)[m] == x;
        if m < a.len() {
            assert(a[m] == x);
        } else {
            assert(b[m - a.len()] == x);
        }
    }
}

} // verus!
