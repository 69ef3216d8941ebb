//! The version model: immutable snapshots of kernel-tracked state and the
//! deltas that advance them.

use vstd::prelude::*;

verus! {

/// An increasing number to order versions.
pub type Sequence = u64;

/// Mathematical view of a [`Version`]: the metadata as a map from key
/// characters to value bytes, and the registered objects in order.
#[verifier::ext_equal]
pub ghost struct VersionView {
    pub sequence: Sequence,
    pub meta: Map<Seq<char>, Seq<u8>>,
    pub objects: Seq<Seq<char>>,
}

/// The state of a kernel at a specific time.
///
/// A `Version` is immutable once constructed: folding a delta in produces
/// a new `Version` and never changes an existing one.
#[derive(Debug, PartialEq)]
pub struct Version {
    pub sequence: Sequence,
    pub meta: Vec<(String, Vec<u8>)>,
    pub objects: Vec<String>,
}

/// Mathematical view of a [`VersionUpdate`]: each field with strings and
/// byte vectors replaced by their character and byte sequences.
#[verifier::ext_equal]
pub ghost struct VersionUpdateView {
    pub sequence: Sequence,
    pub set_meta: Seq<(Seq<char>, Seq<u8>)>,
    pub delete_meta: Seq<Seq<char>>,
    pub add_objects: Seq<Seq<char>>,
    pub delete_objects: Seq<Seq<char>>,
}

/// A sequenced delta describing one accepted change to a [`Version`].
///
/// The sequence number is assigned by the kernel, never by the caller.
#[derive(Debug, PartialEq)]
pub struct VersionUpdate {
    pub sequence: Sequence,
    pub set_meta: Vec<(String, Vec<u8>)>,
    pub delete_meta: Vec<String>,
    pub add_objects: Vec<String>,
    pub delete_objects: Vec<String>,
}

/// True when no two entries of `s` carry the same key.
pub open spec fn meta_keys_unique(s: Seq<(String, Vec<u8>)>) -> bool {
    forall|i: int, j: int| 0 <= i < j < s.len() ==> s[i].0@ != s[j].0@
}

/// True when some entry of `s` carries the key `k`.
pub open spec fn meta_has_key(s: Seq<(String, Vec<u8>)>, k: Seq<char>) -> bool {
    exists|i: int| 0 <= i < s.len() && s[i].0@ == k
}

/// The value that `s` associates with `k` (meaningful only when
/// `meta_has_key(s, k)` holds and the keys are unique).
pub open spec fn meta_value(s: Seq<(String, Vec<u8>)>, k: Seq<char>) -> Seq<u8> {
    s[choose|i: int| 0 <= i < s.len() && s[i].0@ == k].1@
}

/// The metadata association list as a map.
pub open spec fn meta_map(s: Seq<(String, Vec<u8>)>) -> Map<Seq<char>, Seq<u8>> {
    Map::new(|k: Seq<char>| meta_has_key(s, k), |k: Seq<char>| meta_value(s, k))
}

/// The identifiers of `s`, as character sequences.
pub open spec fn names_view(s: Seq<String>) -> Seq<Seq<char>> {
    s.map_values(|o: String| o@)
}

/// `m` with the entries of `sets` written in, in order (later entries win).
pub open spec fn set_metas(
    m: Map<Seq<char>, Seq<u8>>,
    sets: Seq<(Seq<char>, Seq<u8>)>,
) -> Map<Seq<char>, Seq<u8>>
    decreases sets.len(),
{
    if sets.len() == 0 {
        m
    } else {
        set_metas(m, sets.drop_last()).insert(sets.last().0, sets.last().1)
    }
}

/// `m` with every key of `dels` removed; removing an absent key changes
/// nothing.
pub open spec fn delete_metas(
    m: Map<Seq<char>, Seq<u8>>,
    dels: Seq<Seq<char>>,
) -> Map<Seq<char>, Seq<u8>>
    decreases dels.len(),
{
    if dels.len() == 0 {
        m
    } else {
        delete_metas(m, dels.drop_last()).remove(dels.last())
    }
}

/// `objs` with each identifier of `adds` appended in order, skipping those
/// already present: a duplicate addition is idempotent.
pub open spec fn add_objs(objs: Seq<Seq<char>>, adds: Seq<Seq<char>>) -> Seq<Seq<char>>
    decreases adds.len(),
{
    if adds.len() == 0 {
        objs
    } else {
        let rest = add_objs(objs, adds.drop_last());
        if rest.contains(adds.last()) {
            rest
        } else {
            rest.push(adds.last())
        }
    }
}

/// `objs` without the identifiers of `dels`; removing an absent identifier
/// changes nothing.
pub open spec fn remove_objs(objs: Seq<Seq<char>>, dels: Seq<Seq<char>>) -> Seq<Seq<char>>
    decreases objs.len(),
{
    if objs.len() == 0 {
        Seq::empty()
    } else {
        let rest = remove_objs(objs.drop_last(), dels);
        if dels.contains(objs.last()) {
            rest
        } else {
            rest.push(objs.last())
        }
    }
}

/// The fold rule: the state reached by applying the delta `u` to `v`.
///
/// Metadata sets are written first and deletions second, so when one
/// delta both sets and deletes a key the deletion wins; objects likewise.
pub open spec fn fold_update(v: VersionView, u: VersionUpdateView) -> VersionView {
    VersionView {
        sequence: u.sequence,
        meta: delete_metas(set_metas(v.meta, u.set_meta), u.delete_meta),
        objects: remove_objs(add_objs(v.objects, u.add_objects), u.delete_objects),
    }
}

/// A byte-for-byte copy of `v`.
pub fn clone_bytes(v: &Vec<u8>) -> (r: Vec<u8>)
    ensures
        r@ == v@,
{
    let mut r: Vec<u8> = Vec::new();
    let mut i: usize = 0;
    while i < v.len()
        invariant
            i <= v.len(),
            r@ == v@.subrange(0, i as int),
        decreases v.len() - i,
    {
        r.push(v[i]);
        i = i + 1;
        proof {
            assert(r@ =~= v@.subrange(0, i as int));
        }
    }
    proof {
        assert(v@.subrange(0, v.len() as int) =~= v@);
    }
    r
}

/// An element-for-element copy of `v`.
pub fn clone_names(v: &Vec<String>) -> (r: Vec<String>)
    ensures
        r@ == v@,
{
    let mut r: Vec<String> = Vec::new();
    let mut i: usize = 0;
    while i < v.len()
        invariant
            i <= v.len(),
            r@ == v@.subrange(0, i as int),
        decreases v.len() - i,
    {
        r.push(v[i].clone());
        i = i + 1;
        proof {
            assert(r@ =~= v@.subrange(0, i as int));
        }
    }
    proof {
        assert(v@.subrange(0, v.len() as int) =~= v@);
    }
    r
}

/// Whether `x` is among the identifiers of `v`.
pub fn contains_name(v: &Vec<String>, x: &String) -> (r: bool)
    ensures
        r == names_view(v@).contains(x@),
{
    let mut i: usize = 0;
    while i < v.len()
        invariant
            i <= v.len(),
            forall|j: int| 0 <= j < i ==> v@[j]@ != x@,
        decreases v.len() - i,
    {
        if v[i] == *x {
            proof {
                assert(names_view(v@)[i as int] == x@);
            }
            return true;
        }
        i = i + 1;
    }
    proof {
        assert(forall|j: int|
            0 <= j < names_view(v@).len() ==> #[trigger] names_view(v@)[j] != x@);
    }
    false
}

/// An entry-for-entry copy of the association list `m`: the keys are equal
/// strings and the values carry the same bytes.
pub fn clone_meta(m: &Vec<(String, Vec<u8>)>) -> (r: Vec<(String, Vec<u8>)>)
    ensures
        r@.len() == m@.len(),
        forall|i: int| 0 <= i < m@.len() ==> r@[i].0 == m@[i].0 && r@[i].1@ == m@[i].1@,
{
    let mut r: Vec<(String, Vec<u8>)> = Vec::new();
    let mut i: usize = 0;
    while i < m.len()
        invariant
            i <= m.len(),
            r@.len() == i,
            forall|j: int| 0 <= j < i ==> r@[j].0 == m@[j].0 && r@[j].1@ == m@[j].1@,
        decreases m.len() - i,
    {
        let key = m[i].0.clone();
        let val = clone_bytes(&m[i].1);
        r.push((key, val));
        i = i + 1;
    }
    r
}

/// With unique keys, the entry at a matching index is the map's value.
pub proof fn lemma_meta_value_at(s: Seq<(String, Vec<u8>)>, k: Seq<char>, i: int)
    requires
        meta_keys_unique(s),
        0 <= i < s.len(),
        s[i].0@ == k,
    ensures
        meta_has_key(s, k),
        meta_value(s, k) == s[i].1@,
{
    assert(meta_has_key(s, k));
    let c = choose|j: int| 0 <= j < s.len() && s[j].0@ == k;
    assert(c == i);
}

/// Two association lists whose entries agree key for key and byte for byte
/// denote the same map.
pub proof fn lemma_meta_map_congruent(a: Seq<(String, Vec<u8>)>, b: Seq<(String, Vec<u8>)>)
    requires
        meta_keys_unique(a),
        a.len() == b.len(),
        forall|i: int| 0 <= i < a.len() ==> a[i].0 == b[i].0 && a[i].1@ == b[i].1@,
    ensures
        meta_keys_unique(b),
        meta_map(a) == meta_map(b),
{
    assert(meta_keys_unique(b));
    assert forall|k: Seq<char>| meta_has_key(a, k) == meta_has_key(b, k) by {
        if meta_has_key(a, k) {
            let i = choose|i: int| 0 <= i < a.len() && a[i].0@ == k;
            assert(b[i].0@ == k);
        }
        if meta_has_key(b, k) {
            let i = choose|i: int| 0 <= i < b.len() && b[i].0@ == k;
            assert(a[i].0@ == k);
        }
    }
    assert forall|k: Seq<char>| meta_has_key(a, k) implies meta_value(a, k) == meta_value(b, k) by {
        let i = choose|i: int| 0 <= i < a.len() && a[i].0@ == k;
        lemma_meta_value_at(a, k, i);
        lemma_meta_value_at(b, k, i);
    }
    assert(meta_map(a) =~= meta_map(b));
}

/// Writes `k -> v` into the association list, overwriting an entry that
/// already carries `k`.
pub fn meta_set(m: &mut Vec<(String, Vec<u8>)>, k: String, v: Vec<u8>)
    requires
        meta_keys_unique(old(m)@),
    ensures
        meta_keys_unique(final(m)@),
        meta_map(final(m)@) == meta_map(old(m)@).insert(k@, v@),
        !meta_has_key(old(m)@, k@) ==> final(m)@ == old(m)@.push((k, v)),
{
    let ghost m0 = m@;
    let mut i: usize = 0;
    while i < m.len()
        invariant
            i <= m.len(),
            m@ == m0,
            m0 == old(m)@,
            meta_keys_unique(m0),
            forall|j: int| 0 <= j < i ==> m0[j].0@ != k@,
        decreases m.len() - i,
    {
        if m[i].0 == k {
            proof {
                assert(meta_has_key(m0, k@));
            }
            m.set(i, (k, v));
            proof {
                let ghost mi = m@;
                assert(forall|j: int| 0 <= j < mi.len() && j != i ==> mi[j] == m0[j]);
                assert(mi[i as int].0@ == m0[i as int].0@);
                assert(meta_keys_unique(mi));
                assert forall|q: Seq<char>|
                    #[trigger] meta_map(mi).contains_key(q)
                        == meta_map(m0).insert(k@, v@).contains_key(q) by {
                    if q == k@ {
                        assert(mi[i as int].0@ == k@);
                        assert(meta_has_key(mi, q));
                        assert(meta_has_key(m0, q));
                    } else {
                        if meta_has_key(mi, q) {
                            let w = choose|j: int| 0 <= j < mi.len() && mi[j].0@ == q;
                            assert(m0[w].0@ == q);
                        }
                        if meta_has_key(m0, q) {
                            let w = choose|j: int| 0 <= j < m0.len() && m0[j].0@ == q;
                            assert(mi[w].0@ == q);
                        }
                    }
                }
                assert forall|q: Seq<char>| meta_map(mi).contains_key(q)
                    implies meta_map(mi)[q] == meta_map(m0).insert(k@, v@)[q] by {
                    if q == k@ {
                        lemma_meta_value_at(mi, q, i as int);
                    } else {
                        let w = choose|j: int| 0 <= j < mi.len() && mi[j].0@ == q;
                        lemma_meta_value_at(mi, q, w);
                        lemma_meta_value_at(m0, q, w);
                    }
                }
                assert(meta_map(m@) =~= meta_map(m0).insert(k@, v@));
            }
            return;
        }
        i = i + 1;
    }
    m.push((k, v));
    proof {
        let ghost mi = m@;
        assert(forall|j: int| 0 <= j < m0.len() ==> mi[j] == m0[j]);
        assert(mi[m0.len() as int].0@ == k@);
        assert(meta_keys_unique(mi));
        assert forall|q: Seq<char>|
            #[trigger] meta_map(mi).contains_key(q)
                == meta_map(m0).insert(k@, v@).contains_key(q) by {
            if q == k@ {
                assert(meta_has_key(mi, q));
            } else {
                if meta_has_key(mi, q) {
                    let w = choose|j: int| 0 <= j < mi.len() && mi[j].0@ == q;
                    assert(w < m0.len());
                    assert(m0[w].0@ == q);
                }
                if meta_has_key(m0, q) {
                    let w = choose|j: int| 0 <= j < m0.len() && m0[j].0@ == q;
                    assert(mi[w].0@ == q);
                }
            }
        }
        assert forall|q: Seq<char>| meta_map(mi).contains_key(q)
            implies meta_map(mi)[q] == meta_map(m0).insert(k@, v@)[q] by {
            if q == k@ {
                lemma_meta_value_at(mi, q, m0.len() as int);
            } else {
                let w = choose|j: int| 0 <= j < mi.len() && mi[j].0@ == q;
                assert(w < m0.len());
                lemma_meta_value_at(mi, q, w);
                lemma_meta_value_at(m0, q, w);
            }
        }
        assert(meta_map(m@) =~= meta_map(m0).insert(k@, v@));
    }
}

/// Removes the entry carrying `k`, if any; removing an absent key changes
/// nothing.
pub fn meta_remove(m: &mut Vec<(String, Vec<u8>)>, k: &String)
    requires
        meta_keys_unique(old(m)@),
    ensures
        meta_keys_unique(final(m)@),
        meta_map(final(m)@) == meta_map(old(m)@).remove(k@),
{
    let ghost m0 = m@;
    let mut i: usize = 0;
    while i < m.len()
        invariant
            i <= m.len(),
            m@ == m0,
            m0 == old(m)@,
            meta_keys_unique(m0),
            forall|j: int| 0 <= j < i ==> m0[j].0@ != k@,
        decreases m.len() - i,
    {
        if m[i].0 == *k {
            m.remove(i);
            proof {
                let ghost mi = m@;
                m0.remove_ensures(i as int);
                assert(forall|j: int| 0 <= j < i ==> #[trigger] mi[j] == m0[j]);
                assert(forall|j: int| i <= j < mi.len() ==> #[trigger] mi[j] == m0[j + 1]);
                assert forall|j1: int, j2: int| 0 <= j1 < j2 < mi.len()
                    implies mi[j1].0@ != mi[j2].0@ by {
                    if j1 < i && j2 < i {
                        assert(mi[j1] == m0[j1] && mi[j2] == m0[j2]);
                    } else if j1 < i {
                        assert(mi[j1] == m0[j1] && mi[j2] == m0[j2 + 1]);
                    } else {
                        assert(mi[j1] == m0[j1 + 1] && mi[j2] == m0[j2 + 1]);
                    }
                }
                assert(meta_keys_unique(mi));
                assert forall|q: Seq<char>|
                    #[trigger] meta_map(mi).contains_key(q)
                        == meta_map(m0).remove(k@).contains_key(q) by {
                    if q == k@ {
                        if meta_has_key(mi, q) {
                            let w = choose|j: int| 0 <= j < mi.len() && mi[j].0@ == q;
                            if w < i {
                                assert(m0[w].0@ == q);
                            } else {
                                assert(m0[w + 1].0@ == q);
                            }
                            assert(false);
                        }
                    } else {
                        if meta_has_key(mi, q) {
                            let w = choose|j: int| 0 <= j < mi.len() && mi[j].0@ == q;
                            if w < i {
                                assert(m0[w].0@ == q);
                            } else {
                                assert(m0[w + 1].0@ == q);
                            }
                        }
                        if meta_has_key(m0, q) {
                            let w = choose|j: int| 0 <= j < m0.len() && m0[j].0@ == q;
                            if w < i {
                                assert(mi[w].0@ == q);
                            } else {
                                assert(w != i);
                                assert(mi[w - 1].0@ == q);
                            }
                        }
                    }
                }
                assert forall|q: Seq<char>| meta_map(mi).contains_key(q)
                    implies meta_map(mi)[q] == meta_map(m0).remove(k@)[q] by {
                    let w = choose|j: int| 0 <= j < mi.len() && mi[j].0@ == q;
                    lemma_meta_value_at(mi, q, w);
                    if w < i {
                        lemma_meta_value_at(m0, q, w);
                    } else {
                        lemma_meta_value_at(m0, q, w + 1);
                    }
                }
                assert(meta_map(m@) =~= meta_map(m0).remove(k@));
            }
            return;
        }
        i = i + 1;
    }
    proof {
        assert(!meta_has_key(m0, k@));
        assert(meta_map(m@) =~= meta_map(m0).remove(k@));
    }
}

/// What `add_objs` holds: appending keeps uniqueness, and an identifier is
/// present afterwards exactly when it was present before or was added.
pub proof fn lemma_add_objs_props(objs: Seq<Seq<char>>, adds: Seq<Seq<char>>)
    requires
        objs.no_duplicates(),
    ensures
        add_objs(objs, adds).no_duplicates(),
        forall|q: Seq<char>|
            #[trigger] add_objs(objs, adds).contains(q) <==> objs.contains(q) || adds.contains(q),
    decreases adds.len(),
{
    if adds.len() == 0 {
    } else {
        lemma_add_objs_props(objs, adds.drop_last());
        let rest = add_objs(objs, adds.drop_last());
        let x = adds.last();
        assert(adds[adds.len() - 1] == x);
        assert(adds.contains(x));
        assert forall|q: Seq<char>|
            #[trigger] adds.contains(q) implies adds.drop_last().contains(q) || q == x by {
            let w = choose|i: int| 0 <= i < adds.len() && adds[i] == q;
            if w < adds.len() - 1 {
                assert(adds.drop_last()[w] == q);
            }
        }
        assert forall|q: Seq<char>| #[trigger] adds.drop_last().contains(q)
            implies adds.contains(q) by {
            let w = choose|i: int| 0 <= i < adds.len() - 1 && adds.drop_last()[i] == q;
            assert(adds[w] == q);
        }
        if rest.contains(x) {
            assert forall|q: Seq<char>| #[trigger] add_objs(objs, adds).contains(q)
                <==> objs.contains(q) || adds.contains(q) by {
                assert(add_objs(objs, adds) == rest);
                assert(add_objs(objs, adds).contains(q) == rest.contains(q));
                assert(add_objs(objs, adds.drop_last()).contains(q) == rest.contains(q));
            }
        } else {
            let res = rest.push(x);
            assert forall|q: Seq<char>| #[trigger] res.contains(q)
                implies rest.contains(q) || q == x by {
                let w = choose|i: int| 0 <= i < res.len() && res[i] == q;
                if w < rest.len() {
                    assert(rest[w] == q);
                }
            }
            assert forall|q: Seq<char>| #[trigger] rest.contains(q)
                implies res.contains(q) by {
                let w = choose|i: int| 0 <= i < rest.len() && rest[i] == q;
                assert(res[w] == q);
            }
            assert(res[rest.len() as int] == x);
            assert(res.contains(x));
            assert(res.drop_last() =~= rest);
            assert(res.no_duplicates());
            assert forall|q: Seq<char>| #[trigger] add_objs(objs, adds).contains(q)
                <==> objs.contains(q) || adds.contains(q) by {
                assert(add_objs(objs, adds) == res);
                assert(add_objs(objs, adds).contains(q) == res.contains(q));
                assert(add_objs(objs, adds.drop_last()).contains(q) == rest.contains(q));
            }
        }
    }
}

/// What `remove_objs` holds: filtering keeps uniqueness, and an identifier
/// is present afterwards exactly when it was present and not deleted.
pub proof fn lemma_remove_objs_props(objs: Seq<Seq<char>>, dels: Seq<Seq<char>>)
    requires
        objs.no_duplicates(),
    ensures
        remove_objs(objs, dels).no_duplicates(),
        forall|q: Seq<char>|
            #[trigger] remove_objs(objs, dels).contains(q)
                <==> objs.contains(q) && !dels.contains(q),
    decreases objs.len(),
{
    if objs.len() == 0 {
    } else {
        assert(objs.drop_last().no_duplicates());
        lemma_remove_objs_props(objs.drop_last(), dels);
        let rest = remove_objs(objs.drop_last(), dels);
        let x = objs.last();
        assert(objs[objs.len() - 1] == x);
        assert(objs.contains(x));
        assert(!objs.drop_last().contains(x)) by {
            if objs.drop_last().contains(x) {
                let w = choose|i: int| 0 <= i < objs.len() - 1 && objs.drop_last()[i] == x;
                assert(objs[w] == objs.last());
            }
        }
        assert forall|q: Seq<char>|
            #[trigger] objs.contains(q) implies objs.drop_last().contains(q) || q == x by {
            let w = choose|i: int| 0 <= i < objs.len() && objs[i] == q;
            if w < objs.len() - 1 {
                assert(objs.drop_last()[w] == q);
            }
        }
        assert forall|q: Seq<char>| #[trigger] objs.drop_last().contains(q)
            implies objs.contains(q) by {
            let w = choose|i: int| 0 <= i < objs.len() - 1 && objs.drop_last()[i] == q;
            assert(objs[w] == q);
        }
        if dels.contains(x) {
            assert forall|q: Seq<char>| #[trigger] remove_objs(objs, dels).contains(q)
                <==> objs.contains(q) && !dels.contains(q) by {
                assert(remove_objs(objs, dels) == rest);
                assert(remove_objs(objs, dels).contains(q) == rest.contains(q));
                assert(remove_objs(objs.drop_last(), dels).contains(q) == rest.contains(q));
            }
        } else {
            let res = rest.push(x);
            assert forall|q: Seq<char>| #[trigger] res.contains(q)
                implies rest.contains(q) || q == x by {
                let w = choose|i: int| 0 <= i < res.len() && res[i] == q;
                if w < rest.len() {
                    assert(rest[w] == q);
                }
            }
            assert forall|q: Seq<char>| #[trigger] rest.contains(q)
                implies res.contains(q) by {
                let w = choose|i: int| 0 <= i < rest.len() && rest[i] == q;
                assert(res[w] == q);
            }
            assert(res[rest.len() as int] == x);
            assert(res.contains(x));
            assert(!rest.contains(x));
            assert(res.drop_last() =~= rest);
            assert(res.no_duplicates());
            assert forall|q: Seq<char>| #[trigger] remove_objs(objs, dels).contains(q)
                <==> objs.contains(q) && !dels.contains(q) by {
                assert(remove_objs(objs, dels) == res);
                assert(remove_objs(objs, dels).contains(q) == res.contains(q));
                assert(remove_objs(objs.drop_last(), dels).contains(q) == rest.contains(q));
            }
        }
    }
}

/// Deleting a superset of what is present leaves nothing.
pub proof fn lemma_remove_objs_all(objs: Seq<Seq<char>>, dels: Seq<Seq<char>>)
    requires
        forall|o: Seq<char>| objs.contains(o) ==> dels.contains(o),
    ensures
        remove_objs(objs, dels) == Seq::<Seq<char>>::empty(),
    decreases objs.len(),
{
    if objs.len() == 0 {
        assert(remove_objs(objs, dels) =~= Seq::<Seq<char>>::empty());
    } else {
        assert forall|o: Seq<char>| #[trigger] objs.drop_last().contains(o)
            implies dels.contains(o) by {
            let w = choose|i: int| 0 <= i < objs.len() - 1 && objs.drop_last()[i] == o;
            assert(objs[w] == o);
            assert(objs.contains(o));
        }
        lemma_remove_objs_all(objs.drop_last(), dels);
        assert(objs[objs.len() - 1] == objs.last());
        assert(objs.contains(objs.last()));
        assert(dels.contains(objs.last()));
    }
}

/// Deleting keys that a map does not hold leaves the map unchanged.
pub proof fn lemma_delete_metas_absent(m: Map<Seq<char>, Seq<u8>>, dels: Seq<Seq<char>>)
    requires
        forall|k: Seq<char>| dels.contains(k) ==> !m.contains_key(k),
    ensures
        delete_metas(m, dels) == m,
    decreases dels.len(),
{
    if dels.len() == 0 {
    } else {
        assert forall|k: Seq<char>| #[trigger] dels.drop_last().contains(k)
            implies !m.contains_key(k) by {
            let w = choose|i: int| 0 <= i < dels.len() - 1 && dels.drop_last()[i] == k;
            assert(dels[w] == k);
            assert(dels.contains(k));
        }
        lemma_delete_metas_absent(m, dels.drop_last());
        assert(dels.contains(dels.last()));
        assert(delete_metas(m, dels) =~= m);
    }
}

/// Adding identifiers that are all already present changes nothing.
pub proof fn lemma_add_objs_present(objs: Seq<Seq<char>>, adds: Seq<Seq<char>>)
    requires
        forall|o: Seq<char>| adds.contains(o) ==> objs.contains(o),
    ensures
        add_objs(objs, adds) == objs,
    decreases adds.len(),
{
    if adds.len() == 0 {
    } else {
        assert forall|o: Seq<char>| #[trigger] adds.drop_last().contains(o)
            implies objs.contains(o) by {
            let w = choose|i: int| 0 <= i < adds.len() - 1 && adds.drop_last()[i] == o;
            assert(adds[w] == o);
            assert(adds.contains(o));
        }
        lemma_add_objs_present(objs, adds.drop_last());
        assert(adds.contains(adds.last()));
    }
}

/// Deleting identifiers that are all absent changes nothing.
pub proof fn lemma_remove_objs_absent(objs: Seq<Seq<char>>, dels: Seq<Seq<char>>)
    requires
        forall|o: Seq<char>| dels.contains(o) ==> !objs.contains(o),
    ensures
        remove_objs(objs, dels) == objs,
    decreases objs.len(),
{
    if objs.len() == 0 {
        assert(remove_objs(objs, dels) =~= objs);
    } else {
        assert forall|o: Seq<char>| #[trigger] dels.contains(o)
            implies !objs.drop_last().contains(o) by {
            if objs.drop_last().contains(o) {
                let w = choose|i: int| 0 <= i < objs.len() - 1 && objs.drop_last()[i] == o;
                assert(objs[w] == o);
                assert(objs.contains(o));
            }
        }
        lemma_remove_objs_absent(objs.drop_last(), dels);
        assert(objs.contains(objs.last()));
        assert(!dels.contains(objs.last()));
        assert(remove_objs(objs, dels) =~= objs);
    }
}

/// Folding is idempotent on absent deletions and present additions: a delta
/// that writes no metadata, deletes only absent metadata keys and absent
/// objects, and adds only objects that are already registered changes
/// nothing in the version but its sequence number.
pub proof fn lemma_fold_idempotent_edges(v: VersionView, u: VersionUpdateView)
    requires
        v.objects.no_duplicates(),
        u.set_meta == Seq::<(Seq<char>, Seq<u8>)>::empty(),
        forall|k: Seq<char>| u.delete_meta.contains(k) ==> !v.meta.contains_key(k),
        forall|o: Seq<char>| u.add_objects.contains(o) ==> v.objects.contains(o),
        forall|o: Seq<char>| u.delete_objects.contains(o) ==> !v.objects.contains(o),
    ensures
        fold_update(v, u).meta == v.meta,
        fold_update(v, u).objects == v.objects,
        fold_update(v, u).sequence == u.sequence,
{
    assert(set_metas(v.meta, u.set_meta) == v.meta);
    lemma_delete_metas_absent(v.meta, u.delete_meta);
    lemma_add_objs_present(v.objects, u.add_objects);
    lemma_remove_objs_absent(v.objects, u.delete_objects);
}

impl View for Version {
    type V = VersionView;

    open spec fn view(&self) -> VersionView {
        VersionView {
            sequence: self.sequence,
            meta: meta_map(self.meta@),
            objects: names_view(self.objects@),
        }
    }
}

impl View for VersionUpdate {
    type V = VersionUpdateView;

    open spec fn view(&self) -> VersionUpdateView {
        VersionUpdateView {
            sequence: self.sequence,
            set_meta: self.set_meta@.map_values(|e: (String, Vec<u8>)| (e.0@, e.1@)),
            delete_meta: names_view(self.delete_meta@),
            add_objects: names_view(self.add_objects@),
            delete_objects: names_view(self.delete_objects@),
        }
    }
}

impl Version {
    /// Well-formed: metadata keys are unique and no object is registered
    /// twice.
    pub open spec fn wf(&self) -> bool {
        &&& meta_keys_unique(self.meta@)
        &&& self@.objects.no_duplicates()
    }

    /// The empty snapshot a kernel starts from.
    pub fn new() -> (v: Version)
        ensures
            v.wf(),
            v@.sequence == 0,
            v@.meta == Map::<Seq<char>, Seq<u8>>::empty(),
            v@.objects == Seq::<Seq<char>>::empty(),
    {
        let v = Version { sequence: 0, meta: Vec::new(), objects: Vec::new() };
        proof {
            assert(v@.meta =~= Map::<Seq<char>, Seq<u8>>::empty());
            assert(v@.objects =~= Seq::<Seq<char>>::empty());
        }
        v
    }

    /// The version reached by folding the delta `u` into `self`: a new
    /// snapshot carrying `u`'s sequence number. `self` is left as it was.
    pub fn apply(&self, u: &VersionUpdate) -> (r: Version)
        requires
            self.wf(),
        ensures
            r.wf(),
            r@ == fold_update(self@, u@),
    {
        let mut meta = clone_meta(&self.meta);
        proof {
            lemma_meta_map_congruent(self.meta@, meta@);
        }
        let mut i: usize = 0;
        while i < u.set_meta.len()
            invariant
                i <= u.set_meta.len(),
                meta_keys_unique(meta@),
                meta_map(meta@) == set_metas(
                    meta_map(self.meta@),
                    u@.set_meta.subrange(0, i as int),
                ),
            decreases u.set_meta.len() - i,
        {
            let key = u.set_meta[i].0.clone();
            let val = clone_bytes(&u.set_meta[i].1);
            meta_set(&mut meta, key, val);
            i = i + 1;
            proof {
                assert(u@.set_meta.subrange(0, i as int).drop_last()
                    =~= u@.set_meta.subrange(0, i - 1));
                assert(u@.set_meta.subrange(0, i as int).last() == u@.set_meta[i - 1]);
                assert(u@.set_meta[i - 1] == (u.set_meta@[i - 1].0@, u.set_meta@[i - 1].1@));
            }
        }
        proof {
            assert(u@.set_meta.subrange(0, u.set_meta@.len() as int) =~= u@.set_meta);
        }
        let mut i: usize = 0;
        while i < u.delete_meta.len()
            invariant
                i <= u.delete_meta.len(),
                meta_keys_unique(meta@),
                meta_map(meta@) == delete_metas(
                    set_metas(meta_map(self.meta@), u@.set_meta),
                    u@.delete_meta.subrange(0, i as int),
                ),
            decreases u.delete_meta.len() - i,
        {
            meta_remove(&mut meta, &u.delete_meta[i]);
            i = i + 1;
            proof {
                assert(u@.delete_meta.subrange(0, i as int).drop_last()
                    =~= u@.delete_meta.subrange(0, i - 1));
                assert(u@.delete_meta.subrange(0, i as int).last() == u.delete_meta@[i - 1]@);
            }
        }
        proof {
            assert(u@.delete_meta.subrange(0, u.delete_meta@.len() as int) =~= u@.delete_meta);
        }
        let mut objects = clone_names(&self.objects);
        let mut i: usize = 0;
        while i < u.add_objects.len()
            invariant
                i <= u.add_objects.len(),
                names_view(objects@) == add_objs(
                    names_view(self.objects@),
                    u@.add_objects.subrange(0, i as int),
                ),
            decreases u.add_objects.len() - i,
        {
            let ghost pre = objects@;
            if !contains_name(&objects, &u.add_objects[i]) {
                objects.push(u.add_objects[i].clone());
                proof {
                    assert(names_view(objects@) =~= names_view(pre).push(u.add_objects@[i as int]@));
                }
            }
            i = i + 1;
            proof {
                assert(u@.add_objects.subrange(0, i as int).drop_last()
                    =~= u@.add_objects.subrange(0, i - 1));
                assert(u@.add_objects.subrange(0, i as int).last() == u.add_objects@[i - 1]@);
            }
        }
        proof {
            assert(u@.add_objects.subrange(0, u.add_objects@.len() as int) =~= u@.add_objects);
        }
        let mut kept: Vec<String> = Vec::new();
        let mut i: usize = 0;
        while i < objects.len()
            invariant
                i <= objects.len(),
                names_view(kept@) == remove_objs(
                    names_view(objects@.subrange(0, i as int)),
                    u@.delete_objects,
                ),
            decreases objects.len() - i,
        {
            let ghost pre = kept@;
            if !contains_name(&u.delete_objects, &objects[i]) {
                kept.push(objects[i].clone());
                proof {
                    assert(names_view(kept@) =~= names_view(pre).push(objects@[i as int]@));
                }
            }
            i = i + 1;
            proof {
                assert(names_view(objects@.subrange(0, i as int)).drop_last()
                    =~= names_view(objects@.subrange(0, i - 1)));
                assert(names_view(objects@.subrange(0, i as int)).last() == objects@[i - 1]@);
            }
        }
        proof {
            assert(objects@.subrange(0, objects@.len() as int) =~= objects@);
        }
        let r = Version { sequence: u.sequence, meta, objects: kept };
        proof {
            lemma_add_objs_props(names_view(self.objects@), u@.add_objects);
            lemma_remove_objs_props(names_view(objects@), u@.delete_objects);
            assert(r@ =~= fold_update(self@, u@));
        }
        r
    }
}

impl Clone for Version {
    /// A copy denoting the same snapshot: on a well-formed version the
    /// clone's view equals the original's.
    fn clone(&self) -> (r: Self)
        ensures
            self.wf() ==> r.wf() && r@ == self@,
    {
        let r = Version {
            sequence: self.sequence,
            meta: clone_meta(&self.meta),
            objects: clone_names(&self.objects),
        };
        proof {
            if self.wf() {
                lemma_meta_map_congruent(self.meta@, r.meta@);
                assert(r@ =~= self@);
            }
        }
        r
    }
}

impl Clone for VersionUpdate {
    /// A copy carrying the same delta: the clone's view equals the
    /// original's.
    fn clone(&self) -> (r: Self)
        ensures
            r@ == self@,
            r.wf() == self.wf(),
    {
        let r = VersionUpdate {
            sequence: self.sequence,
            set_meta: clone_meta(&self.set_meta),
            delete_meta: clone_names(&self.delete_meta),
            add_objects: clone_names(&self.add_objects),
            delete_objects: clone_names(&self.delete_objects),
        };
        proof {
            assert(r@.set_meta =~= self@.set_meta);
            assert(r@ =~= self@);
            assert(forall|i: int, j: int|
                0 <= i < j < self.set_meta@.len()
                    ==> r.set_meta@[i].0@ == self.set_meta@[i].0@
                        && r.set_meta@[j].0@ == self.set_meta@[j].0@);
        }
        r
    }
}

impl VersionUpdate {
    /// Well-formed: the keys written by the delta are unique.
    pub open spec fn wf(&self) -> bool {
        meta_keys_unique(self.set_meta@)
    }

    /// The empty delta, carrying no change and no sequence number.
    pub fn new() -> (u: VersionUpdate)
        ensures
            u.wf(),
            u@.sequence == 0,
            u@.set_meta == Seq::<(Seq<char>, Seq<u8>)>::empty(),
            u@.delete_meta == Seq::<Seq<char>>::empty(),
            u@.add_objects == Seq::<Seq<char>>::empty(),
            u@.delete_objects == Seq::<Seq<char>>::empty(),
    {
        let u = VersionUpdate {
            sequence: 0,
            set_meta: Vec::new(),
            delete_meta: Vec::new(),
            add_objects: Vec::new(),
            delete_objects: Vec::new(),
        };
        proof {
            assert(u@.set_meta =~= Seq::<(Seq<char>, Seq<u8>)>::empty());
            assert(u@.delete_meta =~= Seq::<Seq<char>>::empty());
            assert(u@.add_objects =~= Seq::<Seq<char>>::empty());
            assert(u@.delete_objects =~= Seq::<Seq<char>>::empty());
        }
        u
    }

    /// Whether this delta both writes and deletes one metadata key, or both
    /// adds and deletes one object: such a delta is rejected by the kernel.
    pub fn is_conflicted(&self) -> (r: bool)
        ensures
            r == update_conflicted(self@),
    {
        let mut i: usize = 0;
        while i < self.set_meta.len()
            invariant
                i <= self.set_meta.len(),
                forall|j: int| 0 <= j < i
                    ==> !names_view(self.delete_meta@).contains(#[trigger] self.set_meta@[j].0@),
            decreases self.set_meta.len() - i,
        {
            if contains_name(&self.delete_meta, &self.set_meta[i].0) {
                proof {
                    assert(self@.set_meta[i as int].0 == self.set_meta@[i as int].0@);
                    assert(update_conflicted(self@));
                }
                return true;
            }
            i = i + 1;
        }
        let mut i: usize = 0;
        while i < self.add_objects.len()
            invariant
                i <= self.add_objects.len(),
                forall|j: int| 0 <= j < i
                    ==> !names_view(self.delete_objects@).contains(#[trigger] self.add_objects@[j]@),
            decreases self.add_objects.len() - i,
        {
            if contains_name(&self.delete_objects, &self.add_objects[i]) {
                proof {
                    assert(self@.add_objects[i as int] == self.add_objects@[i as int]@);
                    assert(self@.add_objects.contains(self.add_objects@[i as int]@));
                    assert(update_conflicted(self@));
                }
                return true;
            }
            i = i + 1;
        }
        proof {
            assert(!update_conflicted(self@)) by {
                if update_conflicted(self@) {
                    if exists|k: int|
                        0 <= k < self@.set_meta.len()
                            && self@.delete_meta.contains(#[trigger] self@.set_meta[k].0) {
                        let k = choose|k: int|
                            0 <= k < self@.set_meta.len()
                                && self@.delete_meta.contains(#[trigger] self@.set_meta[k].0);
                        assert(self@.set_meta[k].0 == self.set_meta@[k].0@);
                    } else {
                        let o = choose|o: Seq<char>|
                            #[trigger] self@.add_objects.contains(o)
                                && self@.delete_objects.contains(o);
                        let w = choose|w: int|
                            0 <= w < self@.add_objects.len() && self@.add_objects[w] == o;
                        assert(self.add_objects@[w]@ == o);
                    }
                }
            }
        }
        false
    }
}

/// A delta conflicts with itself when it writes and deletes one metadata
/// key, or adds and deletes one object identifier.
pub open spec fn update_conflicted(u: VersionUpdateView) -> bool {
    ||| exists|k: int|
        0 <= k < u.set_meta.len() && u.delete_meta.contains(#[trigger] u.set_meta[k].0)
    ||| exists|o: Seq<char>| #[trigger] u.add_objects.contains(o) && u.delete_objects.contains(o)
}

/// The caller-facing builder of one state transition: an accumulator of
/// metadata writes and deletions and object additions and removals, with
/// no sequence number assigned. The kernel stamps it into a
/// [`VersionUpdate`].
#[derive(Debug, PartialEq)]
pub struct KernelUpdate {
    pub update: VersionUpdate,
}

impl KernelUpdate {
    /// Well-formed: the accumulated delta is well-formed.
    pub open spec fn wf(&self) -> bool {
        self.update.wf()
    }

    /// An empty accumulator.
    pub fn new() -> (u: KernelUpdate)
        ensures
            u.wf(),
            u.update@.sequence == 0,
            u.update@.set_meta == Seq::<(Seq<char>, Seq<u8>)>::empty(),
            u.update@.delete_meta == Seq::<Seq<char>>::empty(),
            u.update@.add_objects == Seq::<Seq<char>>::empty(),
            u.update@.delete_objects == Seq::<Seq<char>>::empty(),
    {
        KernelUpdate { update: VersionUpdate::new() }
    }

    /// Records that `key` is to be set to `value`, overwriting a previously
    /// recorded write of the same key.
    pub fn set_meta(&mut self, key: String, value: Vec<u8>)
        requires
            old(self).wf(),
        ensures
            final(self).wf(),
            meta_map(final(self).update.set_meta@)
                == meta_map(old(self).update.set_meta@).insert(key@, value@),
            !meta_has_key(old(self).update.set_meta@, key@)
                ==> final(self).update@.set_meta
                    == old(self).update@.set_meta.push((key@, value@)),
            final(self).update@.delete_meta == old(self).update@.delete_meta,
            final(self).update@.add_objects == old(self).update@.add_objects,
            final(self).update@.delete_objects == old(self).update@.delete_objects,
            final(self).update@.sequence == old(self).update@.sequence,
    {
        let ghost pre = self.update.set_meta@;
        let ghost had = meta_has_key(pre, key@);
        proof {
            let k = key@;
            let v = value@;
            assert(!had ==> pre.push((key, value)).map_values(
                |e: (String, Vec<u8>)| (e.0@, e.1@),
            ) =~= pre.map_values(|e: (String, Vec<u8>)| (e.0@, e.1@)).push((k, v)));
        }
        meta_set(&mut self.update.set_meta, key, value);
    }

    /// Records that `key` is to be deleted.
    pub fn delete_meta(&mut self, key: String)
        requires
            old(self).wf(),
        ensures
            final(self).wf(),
            final(self).update@.delete_meta == old(self).update@.delete_meta.push(key@),
            final(self).update@.set_meta == old(self).update@.set_meta,
            final(self).update@.add_objects == old(self).update@.add_objects,
            final(self).update@.delete_objects == old(self).update@.delete_objects,
            final(self).update@.sequence == old(self).update@.sequence,
    {
        let ghost pre = self.update.delete_meta@;
        let ghost k = key@;
        self.update.delete_meta.push(key);
        proof {
            assert(names_view(self.update.delete_meta@) =~= names_view(pre).push(k));
        }
    }

    /// Records that the object `id` is to be registered.
    pub fn add_object(&mut self, id: String)
        requires
            old(self).wf(),
        ensures
            final(self).wf(),
            final(self).update@.add_objects == old(self).update@.add_objects.push(id@),
            final(self).update@.set_meta == old(self).update@.set_meta,
            final(self).update@.delete_meta == old(self).update@.delete_meta,
            final(self).update@.delete_objects == old(self).update@.delete_objects,
            final(self).update@.sequence == old(self).update@.sequence,
    {
        let ghost pre = self.update.add_objects@;
        let ghost k = id@;
        self.update.add_objects.push(id);
        proof {
            assert(names_view(self.update.add_objects@) =~= names_view(pre).push(k));
        }
    }

    /// Records that the object `id` is to be removed.
    pub fn delete_object(&mut self, id: String)
        requires
            old(self).wf(),
        ensures
            final(self).wf(),
            final(self).update@.delete_objects == old(self).update@.delete_objects.push(id@),
            final(self).update@.set_meta == old(self).update@.set_meta,
            final(self).update@.delete_meta == old(self).update@.delete_meta,
            final(self).update@.add_objects == old(self).update@.add_objects,
            final(self).update@.sequence == old(self).update@.sequence,
    {
        let ghost pre = self.update.delete_objects@;
        let ghost k = id@;
        self.update.delete_objects.push(id);
        proof {
            assert(names_view(self.update.delete_objects@) =~= names_view(pre).push(k));
        }
    }
}

} // verus!
