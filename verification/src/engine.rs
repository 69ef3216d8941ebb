//! The log-structured storage engine: point reads and writes over byte
//! keys, built from a write-ahead journal, a mutable buffer, immutable
//! tables, background-style compaction, and a manifest kept as kernel
//! updates.
//!
//! Reads probe the mutable buffer first, then the tables from newest to
//! oldest; a deleted key is shadowed by a tombstone until compaction
//! physically removes it. Every flushed or compacted table is registered
//! in the kernel's object list, so "which tables constitute the store" is
//! recoverable by replaying the kernel's update stream.

use vstd::prelude::*;

use crate::kernel::Kernel;
use crate::version::{clone_bytes, KernelUpdate};

verus! {

/// An entry of a run: a key and either its value or a tombstone.
pub type Entry = (Vec<u8>, Option<Vec<u8>>);

/// An immutable run of key-value entries with unique keys, registered in
/// the manifest under its identifier.
pub struct Table {
    pub id: String,
    pub entries: Vec<Entry>,
}

/// The bytes of an entry's value, or `None` for a tombstone.
pub open spec fn val_view(v: Option<Vec<u8>>) -> Option<Seq<u8>> {
    match v {
        Option::Some(b) => Option::Some(b@),
        Option::None => Option::None,
    }
}

/// True when no two entries of `s` carry the same key.
pub open spec fn entry_keys_unique(s: Seq<Entry>) -> bool {
    forall|i: int, j: int| 0 <= i < j < s.len() ==> s[i].0@ != s[j].0@
}

/// True when some entry of `s` carries the key `k`.
pub open spec fn run_has_key(s: Seq<Entry>, k: Seq<u8>) -> bool {
    exists|i: int| 0 <= i < s.len() && s[i].0@ == k
}

/// What the run `s` holds for the key `k`: nothing, a tombstone, or a
/// value (meaningful when the run's keys are unique).
pub open spec fn run_find(s: Seq<Entry>, k: Seq<u8>) -> Option<Option<Seq<u8>>> {
    if run_has_key(s, k) {
        Option::Some(val_view(s[choose|i: int| 0 <= i < s.len() && s[i].0@ == k].1))
    } else {
        Option::None
    }
}

/// What the table stack holds for `k`, probing from the newest table (the
/// last) to the oldest: the first run that knows the key decides.
pub open spec fn stack_find(ts: Seq<Table>, k: Seq<u8>) -> Option<Option<Seq<u8>>>
    decreases ts.len(),
{
    if ts.len() == 0 {
        Option::None
    } else if run_find(ts.last().entries@, k) is Some {
        run_find(ts.last().entries@, k)
    } else {
        stack_find(ts.drop_last(), k)
    }
}

/// The identifiers of the tables, in stack order.
pub open spec fn table_ids(ts: Seq<Table>) -> Seq<Seq<char>> {
    ts.map_values(|t: Table| t.id@)
}

/// With unique keys, the entry at a matching index decides `run_find`.
pub proof fn lemma_run_find_at(s: Seq<Entry>, k: Seq<u8>, i: int)
    requires
        entry_keys_unique(s),
        0 <= i < s.len(),
        s[i].0@ == k,
    ensures
        run_find(s, k) == Option::Some(val_view(s[i].1)),
{
    assert(run_has_key(s, k));
    let c = choose|j: int| 0 <= j < s.len() && s[j].0@ == k;
    assert(c == i);
}

/// Appending an entry with a fresh key changes `run_find` at that key
/// alone.
pub proof fn lemma_run_find_push(s: Seq<Entry>, e: Entry, q: Seq<u8>)
    requires
        entry_keys_unique(s),
        !run_has_key(s, e.0@),
    ensures
        run_find(s.push(e), q) == if q == e.0@ {
            Option::Some(val_view(e.1))
        } else {
            run_find(s, q)
        },
{
    let sp = s.push(e);
    assert(sp[s.len() as int] == e);
    if q == e.0@ {
        assert(run_has_key(sp, q));
        let c = choose|j: int| 0 <= j < sp.len() && sp[j].0@ == q;
        if c < s.len() {
            assert(s[c].0@ == q);
            assert(false);
        }
        assert(sp[c] == e);
    } else {
        if run_has_key(sp, q) {
            let c = choose|j: int| 0 <= j < sp.len() && sp[j].0@ == q;
            assert(c < s.len());
            assert(s[c].0@ == q);
            assert(run_has_key(s, q));
            let w = choose|j: int| 0 <= j < s.len() && s[j].0@ == q;
            assert(w == c);
            assert(sp[c].1 == s[c].1);
        }
        if run_has_key(s, q) {
            let w = choose|j: int| 0 <= j < s.len() && s[j].0@ == q;
            assert(sp[w].0@ == q);
            assert(run_has_key(sp, q));
        }
    }
}

/// Whether some entry of `v` carries the key `k`.
fn entry_has_key(v: &Vec<Entry>, k: &Vec<u8>) -> (r: bool)
    ensures
        r == run_has_key(v@, k@),
{
    let mut i: usize = 0;
    while i < v.len()
        invariant
            i <= v.len(),
            forall|j: int| 0 <= j < i ==> v@[j].0@ != k@,
        decreases v.len() - i,
    {
        if compare_bytes(&v[i].0, k) {
            return true;
        }
        i = i + 1;
    }
    false
}

/// Byte-for-byte equality of two keys.
fn compare_bytes(a: &Vec<u8>, b: &Vec<u8>) -> (r: bool)
    ensures
        r == (a@ == b@),
{
    if a.len() != b.len() {
        proof {
            assert(a@.len() != b@.len());
        }
        return false;
    }
    let mut i: usize = 0;
    while i < a.len()
        invariant
            i <= a.len(),
            a@.len() == b@.len(),
            forall|j: int| 0 <= j < i ==> a@[j] == b@[j],
        decreases a.len() - i,
    {
        if a[i] != b[i] {
            return false;
        }
        i = i + 1;
    }
    proof {
        assert(a@ =~= b@);
    }
    true
}

/// A copy of an optional value carrying the same bytes.
fn clone_opt_bytes(v: &Option<Vec<u8>>) -> (r: Option<Vec<u8>>)
    ensures
        val_view(r) == val_view(*v),
{
    match v {
        Option::Some(b) => Option::Some(clone_bytes(b)),
        Option::None => Option::None,
    }
}

/// Writes `k -> v` into the run, overwriting an entry that already carries
/// `k`; probes of every other key are unchanged.
fn entry_set(m: &mut Vec<Entry>, k: Vec<u8>, v: Option<Vec<u8>>)
    requires
        entry_keys_unique(old(m)@),
    ensures
        entry_keys_unique(final(m)@),
        final(m)@.len() <= old(m)@.len() + 1,
        forall|q: Seq<u8>| #[trigger] run_find(final(m)@, q) == if q == k@ {
            Option::Some(val_view(v))
        } else {
            run_find(old(m)@, q)
        },
{
    let ghost m0 = m@;
    let mut i: usize = 0;
    while i < m.len()
        invariant
            i <= m.len(),
            m@ == m0,
            m0 == old(m)@,
            entry_keys_unique(m0),
            forall|j: int| 0 <= j < i ==> m0[j].0@ != k@,
        decreases m.len() - i,
    {
        if compare_bytes(&m[i].0, &k) {
            m.set(i, (k, v));
            proof {
                let mi = m@;
                assert(forall|j: int| 0 <= j < mi.len() && j != i ==> mi[j] == m0[j]);
                assert(mi[i as int].0@ == m0[i as int].0@);
                assert(entry_keys_unique(mi));
                assert forall|q: Seq<u8>| #[trigger] run_find(mi, q) == if q == k@ {
                    Option::Some(val_view(v))
                } else {
                    run_find(m0, q)
                } by {
                    assert(run_has_key(mi, q) == run_has_key(m0, q)) by {
                        if run_has_key(mi, q) {
                            let w = choose|j: int| 0 <= j < mi.len() && mi[j].0@ == q;
                            assert(m0[w].0@ == q);
                        }
                        if run_has_key(m0, q) {
                            let w = choose|j: int| 0 <= j < m0.len() && m0[j].0@ == q;
                            assert(mi[w].0@ == q);
                        }
                    }
                    if q == k@ {
                        lemma_run_find_at(mi, q, i as int);
                    } else if run_has_key(mi, q) {
                        let w = choose|j: int| 0 <= j < mi.len() && mi[j].0@ == q;
                        assert(w != i);
                        lemma_run_find_at(mi, q, w);
                        lemma_run_find_at(m0, q, w);
                    }
                }
            }
            return;
        }
        i = i + 1;
    }
    proof {
        assert(!run_has_key(m0, k@));
    }
    m.push((k, v));
    proof {
        let mi = m@;
        assert(mi.drop_last() =~= m0);
        assert(mi[m0.len() as int].0@ == k@);
        assert(entry_keys_unique(mi));
        assert forall|q: Seq<u8>| #[trigger] run_find(mi, q) == if q == k@ {
            Option::Some(val_view(v))
        } else {
            run_find(m0, q)
        } by {
            lemma_run_find_push(m0, mi[m0.len() as int], q);
            assert(mi == m0.push(mi[m0.len() as int]));
        }
    }
}

/// A name for what `u64::to_string` returns on `n`.
pub uninterp spec fn dec_str(n: u64) -> Seq<char>;

/// Relies on `u64::to_string`: the decimal digits of `n`, so distinct
/// numbers render as distinct strings. Table identifiers are generated
/// from a strictly increasing counter, so every identifier is fresh.
#[verifier::external_body]
fn render_id(n: u64) -> (s: String)
    ensures
        s@ == dec_str(n),
        forall|m: u64| m != n ==> dec_str(m) != s@,
{
    n.to_string()
}

/// The entry of `v` carrying the key `k`, if any.
fn entry_get<'a>(v: &'a Vec<Entry>, k: &Vec<u8>) -> (r: Option<&'a Option<Vec<u8>>>)
    requires
        entry_keys_unique(v@),
    ensures
        r is None ==> run_find(v@, k@) is None,
        r matches Option::Some(val) ==> run_find(v@, k@) == Option::Some(val_view(*val)),
{
    let mut i: usize = 0;
    while i < v.len()
        invariant
            i <= v.len(),
            entry_keys_unique(v@),
            forall|j: int| 0 <= j < i ==> v@[j].0@ != k@,
        decreases v.len() - i,
    {
        if compare_bytes(&v[i].0, k) {
            proof {
                lemma_run_find_at(v@, k@, i as int);
            }
            return Option::Some(&v[i].1);
        }
        i = i + 1;
    }
    proof {
        assert(!run_has_key(v@, k@));
    }
    Option::None
}

/// Probing a stack can equally peel the oldest table: the rest of the
/// stack (everything newer) decides first, the oldest only as fallback.
pub proof fn lemma_stack_find_first(ts: Seq<Table>, k: Seq<u8>)
    requires
        ts.len() > 0,
    ensures
        stack_find(ts, k) == if stack_find(ts.drop_first(), k) is Some {
            stack_find(ts.drop_first(), k)
        } else {
            run_find(ts.first().entries@, k)
        },
    decreases ts.len(),
{
    if ts.len() == 1 {
        assert(ts.drop_first() =~= Seq::<Table>::empty());
        assert(ts.drop_last() =~= Seq::<Table>::empty());
        assert(ts.last() == ts.first());
    } else {
        let dl = ts.drop_last();
        lemma_stack_find_first(dl, k);
        assert(dl.first() == ts.first());
        assert(ts.drop_first().drop_last() =~= dl.drop_first());
        assert(ts.drop_first().last() == ts.last());
        assert(ts.drop_first().len() > 0);
    }
}

/// The engine: `put`/`delete`/`get`/`count` over byte keys, composed from
/// a journal, a mutable buffer, immutable tables and a kernel-backed
/// manifest. `S` and `B` are the kernel's capability handles.
pub struct Engine<S, B> {
    pub kernel: Kernel<S, B>,
    pub memtable: Vec<Entry>,
    pub tables: Vec<Table>,
    pub journal: Vec<Entry>,
    pub flush_threshold: usize,
    pub compact_threshold: usize,
    pub next_table_id: u64,
}

impl<S, B> Engine<S, B> {
    /// What the engine holds for the key `k`: the mutable buffer decides
    /// first, then the tables from newest to oldest; a tombstone anywhere
    /// shadows older values.
    pub open spec fn lookup(&self, k: Seq<u8>) -> Option<Seq<u8>> {
        match run_find(self.memtable@, k) {
            Option::Some(x) => x,
            Option::None => match stack_find(self.tables@, k) {
                Option::Some(Option::Some(v)) => Option::Some(v),
                _ => Option::None,
            },
        }
    }

    /// The logical key-value map the engine denotes.
    pub open spec fn as_map(&self) -> Map<Seq<u8>, Seq<u8>> {
        Map::new(
            |k: Seq<u8>| self.lookup(k) is Some,
            |k: Seq<u8>| self.lookup(k)->Some_0,
        )
    }

    /// The engine's internal invariant: every run has unique keys, the
    /// kernel's object list is exactly the stack of table identifiers,
    /// and every identifier was rendered from a counter value below
    /// `next_table_id` (so the next identifier is fresh).
    pub open spec fn wf(&self) -> bool {
        &&& self.kernel.wf()
        &&& entry_keys_unique(self.memtable@)
        &&& forall|t: int| 0 <= t < self.tables@.len()
            ==> entry_keys_unique((#[trigger] self.tables@[t]).entries@)
        &&& self.kernel.current@.objects == table_ids(self.tables@)
        &&& forall|t: int| 0 <= t < self.tables@.len()
            ==> exists|m: u64| m < self.next_table_id
                && (#[trigger] self.tables@[t]).id@ == dec_str(m)
        &&& self.flush_threshold >= 1
        &&& self.compact_threshold >= 2
    }

    /// A fresh engine over a kernel with an empty manifest. The buffer is
    /// flushed to a table when it reaches `flush_threshold` entries, and
    /// the tables are compacted into one when `compact_threshold` of them
    /// have accumulated.
    pub fn new(kernel: Kernel<S, B>, flush_threshold: usize, compact_threshold: usize) -> (e:
        Engine<S, B>)
        requires
            kernel.wf(),
            kernel.current@.objects == Seq::<Seq<char>>::empty(),
            flush_threshold >= 1,
            compact_threshold >= 2,
        ensures
            e.wf(),
            e.as_map() == Map::<Seq<u8>, Seq<u8>>::empty(),
            forall|q: Seq<u8>| e.lookup(q) is None,
            e.journal@.len() == 0,
            e.kernel == kernel,
            e.flush_threshold == flush_threshold,
            e.compact_threshold == compact_threshold,
    {
        let e = Engine {
            kernel,
            memtable: Vec::new(),
            tables: Vec::new(),
            journal: Vec::new(),
            flush_threshold,
            compact_threshold,
            next_table_id: 0,
        };
        proof {
            assert(table_ids(e.tables@) =~= Seq::<Seq<char>>::empty());
            assert(forall|q: Seq<u8>| e.lookup(q) is None);
            assert(e.as_map() =~= Map::<Seq<u8>, Seq<u8>>::empty());
        }
        e
    }

    /// Flushes the mutable buffer into a new immutable table and registers
    /// the table in the manifest through the kernel. What the engine holds
    /// for every key is unchanged.
    fn flush(&mut self)
        requires
            old(self).wf(),
            old(self).next_table_id < u64::MAX,
            old(self).kernel.last_sequence < u64::MAX,
        ensures
            final(self).wf(),
            forall|q: Seq<u8>| final(self).lookup(q) == old(self).lookup(q),
            final(self).journal@ == old(self).journal@,
            final(self).memtable@.len() == 0,
            final(self).tables@.len() == old(self).tables@.len() + 1,
            final(self).flush_threshold == old(self).flush_threshold,
            final(self).compact_threshold == old(self).compact_threshold,
            final(self).kernel.stream == old(self).kernel.stream,
            final(self).kernel.bucket == old(self).kernel.bucket,
            final(self).next_table_id == old(self).next_table_id + 1,
            final(self).kernel.last_sequence == old(self).kernel.last_sequence + 1,
    {
        let ghost pre = *self;
        let id = render_id(self.next_table_id);
        self.next_table_id = self.next_table_id + 1;
        let mut entries: Vec<Entry> = Vec::new();
        core::mem::swap(&mut entries, &mut self.memtable);
        let table = Table { id: id.clone(), entries };
        self.tables.push(table);
        let mut u = KernelUpdate::new();
        u.add_object(id);
        proof {
            assert(u.update@.add_objects =~= Seq::<Seq<char>>::empty().push(dec_str(
                pre.next_table_id,
            )));
            assert(!crate::version::update_conflicted(u.update@)) by {
                if exists|o: Seq<char>|
                    #[trigger] u.update@.add_objects.contains(o)
                        && u.update@.delete_objects.contains(o) {
                    let o = choose|o: Seq<char>|
                        #[trigger] u.update@.add_objects.contains(o)
                            && u.update@.delete_objects.contains(o);
                    let w = choose|i: int|
                        0 <= i < u.update@.delete_objects.len()
                            && u.update@.delete_objects[i] == o;
                }
            }
        }
        let _ = self.kernel.apply_update(u);
        proof {
            let nid = dec_str(pre.next_table_id);
            let objs0 = pre.kernel.current@.objects;
            assert(!objs0.contains(nid)) by {
                if objs0.contains(nid) {
                    let w = choose|i: int| 0 <= i < objs0.len() && objs0[i] == nid;
                    assert(objs0[w] == pre.tables@[w].id@);
                    let m = choose|m: u64|
                        m < pre.next_table_id && pre.tables@[w].id@ == dec_str(m);
                    assert(dec_str(m) != nid);
                }
            }
            let adds = u.update@.add_objects;
            assert(adds.len() == 1);
            assert(adds.last() == nid);
            assert(adds.drop_last() =~= Seq::<Seq<char>>::empty());
            assert(crate::version::add_objs(objs0, Seq::<Seq<char>>::empty()) == objs0);
            assert(crate::version::add_objs(objs0, adds.drop_last()) == objs0);
            assert(crate::version::add_objs(objs0, adds) == objs0.push(nid));
            crate::version::lemma_remove_objs_absent(
                objs0.push(nid),
                u.update@.delete_objects,
            );
            assert(u.update@.set_meta =~= Seq::<(Seq<char>, Seq<u8>)>::empty());
            assert(u.update@.delete_meta =~= Seq::<Seq<char>>::empty());
            assert(self.kernel.current@.objects == objs0.push(nid));
            assert(table_ids(self.tables@) =~= table_ids(pre.tables@).push(nid));
            assert(self.tables@.drop_last() =~= pre.tables@);
            assert forall|t: int| 0 <= t < self.tables@.len()
                implies exists|m: u64| m < self.next_table_id
                    && (#[trigger] self.tables@[t]).id@ == dec_str(m) by {
                if t < pre.tables@.len() {
                    assert(self.tables@[t] == pre.tables@[t]);
                    let m = choose|m: u64|
                        m < pre.next_table_id && pre.tables@[t].id@ == dec_str(m);
                    assert(m < self.next_table_id && self.tables@[t].id@ == dec_str(m));
                } else {
                    assert(self.tables@[t].id@ == dec_str(pre.next_table_id));
                    assert(pre.next_table_id < self.next_table_id);
                }
            }
            assert(self.wf());
            assert forall|q: Seq<u8>| final(self).lookup(q) == pre.lookup(q) by {
                assert(self.memtable@.len() == 0);
                assert(!run_has_key(self.memtable@, q));
                assert(run_find(self.memtable@, q) is None);
                assert(self.tables@.last().entries@ == pre.memtable@);
                if run_find(pre.memtable@, q) is Some {
                } else {
                    assert(stack_find(self.tables@, q) == stack_find(pre.tables@, q));
                }
            }
        }
    }

    /// Records `key -> value` (or a tombstone) durably in the journal,
    /// writes it into the mutable buffer, and flushes when the buffer
    /// reaches the flush threshold.
    fn write_entry(&mut self, key: Vec<u8>, value: Option<Vec<u8>>)
        requires
            old(self).wf(),
            old(self).next_table_id <= u64::MAX - 2,
            old(self).kernel.last_sequence <= u64::MAX - 2,
        ensures
            final(self).wf(),
            forall|q: Seq<u8>| final(self).lookup(q) == if q == key@ {
                val_view(value)
            } else {
                old(self).lookup(q)
            },
            final(self).journal@.len() == old(self).journal@.len() + 1,
            forall|i: int| 0 <= i < old(self).journal@.len()
                ==> final(self).journal@[i] == old(self).journal@[i],
            final(self).journal@.last().0@ == key@,
            val_view(final(self).journal@.last().1) == val_view(value),
            final(self).flush_threshold == old(self).flush_threshold,
            final(self).compact_threshold == old(self).compact_threshold,
            final(self).kernel.stream == old(self).kernel.stream,
            final(self).kernel.bucket == old(self).kernel.bucket,
    {
        let krec = clone_bytes(&key);
        let vrec = clone_opt_bytes(&value);
        self.journal.push((krec, vrec));
        let ghost val = val_view(value);
        entry_set(&mut self.memtable, key, value);
        let ghost mid = *self;
        proof {
            assert forall|q: Seq<u8>| mid.lookup(q) == if q == key@ {
                val
            } else {
                old(self).lookup(q)
            } by {
                assert(run_find(mid.memtable@, q) == if q == key@ {
                    Option::Some(val)
                } else {
                    run_find(old(self).memtable@, q)
                });
            }
        }
        if self.memtable.len() >= self.flush_threshold {
            self.flush();
            if self.tables.len() >= self.compact_threshold {
                self.compact();
            }
        }
    }

    /// Writes `key -> value`: the write is journaled before it is
    /// acknowledged, and a read of `key` afterwards returns `value` while
    /// every other key is unchanged.
    pub fn put(&mut self, key: Vec<u8>, value: Vec<u8>)
        requires
            old(self).wf(),
            old(self).next_table_id <= u64::MAX - 2,
            old(self).kernel.last_sequence <= u64::MAX - 2,
        ensures
            final(self).wf(),
            forall|q: Seq<u8>| final(self).lookup(q) == if q == key@ {
                Option::Some(value@)
            } else {
                old(self).lookup(q)
            },
            final(self).as_map() == old(self).as_map().insert(key@, value@),
            final(self).journal@.len() == old(self).journal@.len() + 1,
            forall|i: int| 0 <= i < old(self).journal@.len()
                ==> final(self).journal@[i] == old(self).journal@[i],
            final(self).journal@.last().0@ == key@,
            val_view(final(self).journal@.last().1) == Option::Some(value@),
            final(self).flush_threshold == old(self).flush_threshold,
            final(self).compact_threshold == old(self).compact_threshold,
            final(self).kernel.stream == old(self).kernel.stream,
            final(self).kernel.bucket == old(self).kernel.bucket,
    {
        let ghost v = value@;
        self.write_entry(key, Option::Some(value));
        proof {
            assert(final(self).as_map() =~= old(self).as_map().insert(key@, v));
        }
    }

    /// Deletes `key`: the tombstone is journaled and buffered, and a read
    /// of `key` afterwards finds nothing while every other key is
    /// unchanged.
    pub fn delete(&mut self, key: Vec<u8>)
        requires
            old(self).wf(),
            old(self).next_table_id <= u64::MAX - 2,
            old(self).kernel.last_sequence <= u64::MAX - 2,
        ensures
            final(self).wf(),
            forall|q: Seq<u8>| final(self).lookup(q) == if q == key@ {
                Option::<Seq<u8>>::None
            } else {
                old(self).lookup(q)
            },
            final(self).as_map() == old(self).as_map().remove(key@),
            final(self).journal@.len() == old(self).journal@.len() + 1,
            final(self).flush_threshold == old(self).flush_threshold,
            final(self).compact_threshold == old(self).compact_threshold,
            final(self).kernel.stream == old(self).kernel.stream,
            final(self).kernel.bucket == old(self).kernel.bucket,
    {
        self.write_entry(key, Option::None);
        proof {
            assert(final(self).as_map() =~= old(self).as_map().remove(key@));
        }
    }

    /// Reads `key`: the value it holds, or nothing when the key is absent
    /// or deleted. A missing key is a normal negative result, never an
    /// error.
    pub fn get(&self, key: &Vec<u8>) -> (r: Option<Vec<u8>>)
        requires
            self.wf(),
        ensures
            r is Some <==> self.lookup(key@) is Some,
            r matches Option::Some(v) ==> self.lookup(key@) == Option::Some(v@),
            r is Some <==> self.as_map().dom().contains(key@),
            r matches Option::Some(v) ==> self.as_map()[key@] == v@,
    {
        match entry_get(&self.memtable, key) {
            Option::Some(found) => match found {
                Option::Some(v) => Option::Some(clone_bytes(v)),
                Option::None => Option::None,
            },
            Option::None => {
                proof {
                    assert(self.tables@.subrange(0, self.tables@.len() as int)
                        =~= self.tables@);
                }
                let mut j = self.tables.len();
                while j > 0
                    invariant
                        j <= self.tables.len(),
                        self.wf(),
                        run_find(self.memtable@, key@) is None,
                        stack_find(self.tables@.subrange(0, j as int), key@)
                            == stack_find(self.tables@, key@),
                    decreases j,
                {
                    j = j - 1;
                    let found = entry_get(&self.tables[j].entries, key);
                    proof {
                        assert(self.tables@.subrange(0, j + 1).last() == self.tables@[j as int]);
                        assert(self.tables@.subrange(0, j + 1).drop_last()
                            =~= self.tables@.subrange(0, j as int));
                    }
                    match found {
                        Option::Some(x) => {
                            proof {
                                assert(stack_find(self.tables@.subrange(0, j + 1), key@)
                                    == Option::Some(val_view(*x)));
                            }
                            return match x {
                                Option::Some(v) => Option::Some(clone_bytes(v)),
                                Option::None => Option::None,
                            };
                        },
                        Option::None => {},
                    }
                }
                proof {
                    assert(self.tables@.subrange(0, 0) =~= Seq::<Table>::empty());
                }
                Option::None
            },
        }
    }
}

impl<S, B> Engine<S, B> {
    /// Compacts every table into one: shadowed entries and tombstones are
    /// physically removed, the compacted table is registered in the
    /// manifest, and the superseded tables are de-registered, all in one
    /// kernel update. What the engine holds for every key is unchanged.
    fn compact(&mut self)
        requires
            old(self).wf(),
            old(self).tables@.len() >= 1,
            old(self).next_table_id < u64::MAX,
            old(self).kernel.last_sequence < u64::MAX,
        ensures
            final(self).wf(),
            forall|q: Seq<u8>| final(self).lookup(q) == old(self).lookup(q),
            final(self).journal@ == old(self).journal@,
            final(self).memtable@ == old(self).memtable@,
            final(self).tables@.len() == 1,
            final(self).flush_threshold == old(self).flush_threshold,
            final(self).compact_threshold == old(self).compact_threshold,
            final(self).kernel.stream == old(self).kernel.stream,
            final(self).kernel.bucket == old(self).kernel.bucket,
            final(self).next_table_id == old(self).next_table_id + 1,
            final(self).kernel.last_sequence == old(self).kernel.last_sequence + 1,
    {
        let ghost pre = *self;
        let ghost tlen = self.tables@.len() as int;
        // Merge the tables newest-first, so newer entries shadow older ones.
        let mut merged: Vec<Entry> = Vec::new();
        proof {
            assert(self.tables@.subrange(tlen, tlen) =~= Seq::<Table>::empty());
        }
        let mut j = self.tables.len();
        while j > 0
            invariant
                j <= self.tables@.len(),
                self.wf(),
                *self == pre,
                tlen == self.tables@.len() as int,
                entry_keys_unique(merged@),
                forall|q: Seq<u8>| #[trigger] run_find(merged@, q)
                    == stack_find(self.tables@.subrange(j as int, tlen), q),
            decreases j,
        {
            j = j - 1;
            let ghost jj = j as int;
            let ghost run = self.tables@[jj].entries@;
            proof {
                assert(entry_keys_unique(run));
                assert(run.subrange(0, 0) =~= Seq::<Entry>::empty());
            }
            let mut i: usize = 0;
            while i < self.tables[j].entries.len()
                invariant
                    j < self.tables@.len(),
                    jj == j as int,
                    tlen == self.tables@.len() as int,
                    self.wf(),
                    *self == pre,
                    run == self.tables@[jj].entries@,
                    entry_keys_unique(run),
                    i <= run.len(),
                    entry_keys_unique(merged@),
                    forall|q: Seq<u8>| #[trigger] run_find(merged@, q)
                        == if stack_find(self.tables@.subrange(jj + 1, tlen), q) is Some {
                            stack_find(self.tables@.subrange(jj + 1, tlen), q)
                        } else {
                            run_find(run.subrange(0, i as int), q)
                        },
                decreases run.len() - i,
            {
                let ghost mpre = merged@;
                let ghost e = run[i as int];
                let ghost prefix = run.subrange(0, i as int);
                proof {
                    assert(entry_keys_unique(prefix));
                    assert(!run_has_key(prefix, e.0@)) by {
                        if run_has_key(prefix, e.0@) {
                            let w = choose|x: int|
                                0 <= x < prefix.len() && prefix[x].0@ == e.0@;
                            assert(run[w].0@ == run[i as int].0@);
                        }
                    }
                    assert(run.subrange(0, i + 1).drop_last() =~= prefix);
                    assert(run.subrange(0, i + 1).last() == e);
                    assert(run.subrange(0, i + 1) =~= prefix.push(e));
                }
                let present = entry_has_key(&merged, &self.tables[j].entries[i].0);
                if !present {
                    let k = clone_bytes(&self.tables[j].entries[i].0);
                    let v = clone_opt_bytes(&self.tables[j].entries[i].1);
                    merged.push((k, v));
                    proof {
                        assert(merged@.last().0@ == e.0@);
                        assert(val_view(merged@.last().1) == val_view(e.1));
                        assert(merged@.drop_last() =~= mpre);
                        assert(merged@ =~= mpre.push(merged@.last()));
                        assert(entry_keys_unique(merged@));
                    }
                }
                i = i + 1;
                proof {
                    let rest = stack_find(self.tables@.subrange(jj + 1, tlen), e.0@);
                    assert forall|q: Seq<u8>| #[trigger] run_find(merged@, q)
                        == if stack_find(self.tables@.subrange(jj + 1, tlen), q) is Some {
                            stack_find(self.tables@.subrange(jj + 1, tlen), q)
                        } else {
                            run_find(run.subrange(0, i as int), q)
                        } by {
                        lemma_run_find_push(prefix, e, q);
                        assert(run_find(run.subrange(0, i as int), q) == run_find(
                            prefix.push(e),
                            q,
                        ));
                        if present {
                            assert(run_find(mpre, e.0@) is Some);
                            assert(rest is Some);
                        } else {
                            lemma_run_find_push(mpre, merged@.last(), q);
                            assert(run_find(merged@, q) == run_find(mpre.push(merged@.last()), q));
                            if q == e.0@ {
                                assert(run_find(mpre, e.0@) is None);
                                assert(!(rest is Some));
                            }
                        }
                    }
                }
            }
            proof {
                assert(run.subrange(0, run.len() as int) =~= run);
                assert forall|q: Seq<u8>| #[trigger] run_find(merged@, q)
                    == stack_find(self.tables@.subrange(jj, tlen), q) by {
                    lemma_stack_find_first(self.tables@.subrange(jj, tlen), q);
                    assert(self.tables@.subrange(jj, tlen).drop_first()
                        =~= self.tables@.subrange(jj + 1, tlen));
                    assert(self.tables@.subrange(jj, tlen).first() == self.tables@[jj]);
                }
            }
        }
        proof {
            assert(self.tables@.subrange(0, tlen) =~= self.tables@);
        }
        // Drop tombstones: with every table merged there is nothing older
        // for them to shadow.
        let mut live: Vec<Entry> = Vec::new();
        let ghost msnap = merged@;
        proof {
            assert(msnap.subrange(0, 0) =~= Seq::<Entry>::empty());
        }
        let mut i: usize = 0;
        while i < merged.len()
            invariant
                i <= merged@.len(),
                merged@ == msnap,
                entry_keys_unique(msnap),
                entry_keys_unique(live@),
                forall|q: Seq<u8>| #[trigger] run_find(live@, q)
                    == match run_find(msnap.subrange(0, i as int), q) {
                        Option::Some(Option::Some(v)) => Option::Some(Option::Some(v)),
                        _ => Option::<Option<Seq<u8>>>::None,
                    },
            decreases merged@.len() - i,
        {
            let ghost lpre = live@;
            let ghost e = msnap[i as int];
            let ghost prefix = msnap.subrange(0, i as int);
            proof {
                assert(!run_has_key(prefix, e.0@)) by {
                    if run_has_key(prefix, e.0@) {
                        let w = choose|x: int| 0 <= x < prefix.len() && prefix[x].0@ == e.0@;
                        assert(msnap[w].0@ == msnap[i as int].0@);
                    }
                }
                assert(run_find(prefix, e.0@) is None);
                assert(run_find(lpre, e.0@) is None);
                assert(!run_has_key(lpre, e.0@));
                assert(prefix.push(e) =~= msnap.subrange(0, i + 1));
            }
            if merged[i].1.is_some() {
                let k = clone_bytes(&merged[i].0);
                let v = clone_opt_bytes(&merged[i].1);
                live.push((k, v));
                proof {
                    assert(live@.last().0@ == e.0@);
                    assert(val_view(live@.last().1) == val_view(e.1));
                    assert(live@.drop_last() =~= lpre);
                    assert(live@ =~= lpre.push(live@.last()));
                    assert(entry_keys_unique(live@));
                }
            }
            i = i + 1;
            proof {
                assert forall|q: Seq<u8>| #[trigger] run_find(live@, q)
                    == match run_find(msnap.subrange(0, i as int), q) {
                        Option::Some(Option::Some(v)) => Option::Some(Option::Some(v)),
                        _ => Option::<Option<Seq<u8>>>::None,
                    } by {
                    lemma_run_find_push(prefix, e, q);
                    assert(run_find(msnap.subrange(0, i as int), q) == run_find(
                        prefix.push(e),
                        q,
                    ));
                    if val_view(e.1) is Some {
                        lemma_run_find_push(lpre, live@.last(), q);
                        assert(run_find(live@, q) == run_find(lpre.push(live@.last()), q));
                    }
                }
            }
        }
        proof {
            assert(msnap.subrange(0, msnap.len() as int) =~= msnap);
        }
        // Register the compacted table and de-register the superseded ones
        // in one kernel update.
        let id = render_id(self.next_table_id);
        self.next_table_id = self.next_table_id + 1;
        let mut u = KernelUpdate::new();
        u.add_object(id.clone());
        proof {
            assert(u.update@.add_objects =~= Seq::<Seq<char>>::empty().push(dec_str(
                pre.next_table_id,
            )));
            assert(table_ids(self.tables@.subrange(0, 0)) =~= Seq::<Seq<char>>::empty());
        }
        let mut t: usize = 0;
        while t < self.tables.len()
            invariant
                t <= self.tables@.len(),
                self.tables@ == pre.tables@,
                u.wf(),
                u.update@.sequence == 0,
                u.update@.set_meta == Seq::<(Seq<char>, Seq<u8>)>::empty(),
                u.update@.delete_meta == Seq::<Seq<char>>::empty(),
                u.update@.add_objects
                    == Seq::<Seq<char>>::empty().push(dec_str(pre.next_table_id)),
                u.update@.delete_objects == table_ids(self.tables@.subrange(0, t as int)),
            decreases self.tables@.len() - t,
        {
            let oid = self.tables[t].id.clone();
            u.delete_object(oid);
            t = t + 1;
            proof {
                assert(table_ids(self.tables@.subrange(0, t as int))
                    =~= table_ids(self.tables@.subrange(0, t - 1)).push(
                    self.tables@[t - 1].id@,
                ));
            }
        }
        proof {
            assert(self.tables@.subrange(0, self.tables@.len() as int) =~= self.tables@);
            assert(u.update@.delete_objects == table_ids(pre.tables@));
        }
        let new_table = Table { id, entries: live };
        let mut new_tables: Vec<Table> = Vec::new();
        new_tables.push(new_table);
        self.tables = new_tables;
        let ghost nid = dec_str(pre.next_table_id);
        let ghost objs0 = pre.kernel.current@.objects;
        proof {
            assert(!objs0.contains(nid)) by {
                if objs0.contains(nid) {
                    let w = choose|x: int| 0 <= x < objs0.len() && objs0[x] == nid;
                    assert(objs0[w] == pre.tables@[w].id@);
                    let m = choose|m: u64|
                        m < pre.next_table_id && pre.tables@[w].id@ == dec_str(m);
                    assert(dec_str(m) != nid);
                }
            }
            assert(!crate::version::update_conflicted(u.update@)) by {
                if exists|o: Seq<char>|
                    #[trigger] u.update@.add_objects.contains(o)
                        && u.update@.delete_objects.contains(o) {
                    let o = choose|o: Seq<char>|
                        #[trigger] u.update@.add_objects.contains(o)
                            && u.update@.delete_objects.contains(o);
                    let w = choose|x: int|
                        0 <= x < u.update@.add_objects.len() && u.update@.add_objects[x] == o;
                    assert(o == nid);
                    assert(objs0 == table_ids(pre.tables@));
                    assert(objs0.contains(nid));
                }
            }
        }
        let _ = self.kernel.apply_update(u);
        proof {
            let adds = u.update@.add_objects;
            assert(adds.len() == 1);
            assert(adds.last() == nid);
            assert(adds.drop_last() =~= Seq::<Seq<char>>::empty());
            assert(crate::version::add_objs(objs0, Seq::<Seq<char>>::empty()) == objs0);
            assert(crate::version::add_objs(objs0, adds.drop_last()) == objs0);
            assert(crate::version::add_objs(objs0, adds) == objs0.push(nid));
            let dels = u.update@.delete_objects;
            assert forall|o: Seq<char>| objs0.contains(o) implies dels.contains(o) by {}
            crate::version::lemma_remove_objs_all(objs0, dels);
            assert(objs0.push(nid).drop_last() =~= objs0);
            assert(objs0.push(nid).last() == nid);
            assert(!dels.contains(nid)) by {
                if dels.contains(nid) {
                    assert(objs0.contains(nid));
                }
            }
            assert(crate::version::remove_objs(objs0.push(nid), dels)
                == Seq::<Seq<char>>::empty().push(nid));
            assert(u.update@.set_meta =~= Seq::<(Seq<char>, Seq<u8>)>::empty());
            assert(u.update@.delete_meta =~= Seq::<Seq<char>>::empty());
            assert(self.kernel.current@.objects == Seq::<Seq<char>>::empty().push(nid));
            assert(table_ids(self.tables@) =~= Seq::<Seq<char>>::empty().push(nid));
            assert forall|tt: int| 0 <= tt < self.tables@.len()
                implies exists|m: u64| m < self.next_table_id
                    && (#[trigger] self.tables@[tt]).id@ == dec_str(m) by {
                assert(self.tables@[tt].id@ == dec_str(pre.next_table_id));
                assert(pre.next_table_id < self.next_table_id);
            }
            assert(self.wf());
            assert forall|q: Seq<u8>| final(self).lookup(q) == pre.lookup(q) by {
                assert(self.tables@.len() == 1);
                assert(self.tables@.drop_last() =~= Seq::<Table>::empty());
                assert(self.tables@.last().entries@ == live@);
                assert(run_find(live@, q) == match run_find(msnap, q) {
                    Option::Some(Option::Some(v)) => Option::Some(Option::Some(v)),
                    _ => Option::<Option<Seq<u8>>>::None,
                });
                assert(run_find(msnap, q) == stack_find(pre.tables@, q));
                assert(stack_find(Seq::<Table>::empty(), q) is None);
                assert(stack_find(self.tables@.drop_last(), q) == stack_find(
                    Seq::<Table>::empty(),
                    q,
                ));
                assert(stack_find(self.tables@, q) == match stack_find(pre.tables@, q) {
                    Option::Some(Option::Some(v)) => Option::Some(Option::Some(v)),
                    _ => Option::<Option<Seq<u8>>>::None,
                });
            }
        }
    }
}

/// The keys of `s`, as byte sequences.
pub open spec fn keys_view(s: Seq<Vec<u8>>) -> Seq<Seq<u8>> {
    s.map_values(|v: Vec<u8>| v@)
}

/// Whether `x` is among the keys collected in `v`.
fn bytes_contains(v: &Vec<Vec<u8>>, x: &Vec<u8>) -> (r: bool)
    ensures
        r == keys_view(v@).contains(x@),
{
    let mut i: usize = 0;
    while i < v.len()
        invariant
            i <= v.len(),
            forall|j: int| 0 <= j < i ==> v@[j]@ != x@,
        decreases v.len() - i,
    {
        if compare_bytes(&v[i], x) {
            proof {
                assert(keys_view(v@)[i as int] == x@);
            }
            return true;
        }
        i = i + 1;
    }
    proof {
        assert(forall|j: int|
            0 <= j < keys_view(v@).len() ==> #[trigger] keys_view(v@)[j] != x@);
    }
    false
}

/// A key the stack knows is carried by some table.
pub proof fn lemma_stack_find_some_has_entry(ts: Seq<Table>, k: Seq<u8>)
    requires
        stack_find(ts, k) is Some,
    ensures
        exists|j: int| 0 <= j < ts.len() && run_has_key((#[trigger] ts[j]).entries@, k),
    decreases ts.len(),
{
    if run_find(ts.last().entries@, k) is Some {
        assert(run_has_key(ts[ts.len() - 1].entries@, k));
    } else {
        lemma_stack_find_some_has_entry(ts.drop_last(), k);
        let j = choose|j: int|
            0 <= j < ts.drop_last().len() && run_has_key((#[trigger] ts.drop_last()[j]).entries@, k);
        assert(ts[j] == ts.drop_last()[j]);
        assert(run_has_key(ts[j].entries@, k));
    }
}

impl<S, B> Engine<S, B> {
    /// Appends `key` to the collected distinct live keys when it is live
    /// and not yet collected.
    fn collect_key(&self, keys: &mut Vec<Vec<u8>>, key: &Vec<u8>)
        requires
            self.wf(),
            keys_view(old(keys)@).no_duplicates(),
            forall|x: Seq<u8>| #[trigger] keys_view(old(keys)@).contains(x)
                ==> self.lookup(x) is Some,
        ensures
            keys_view(final(keys)@).no_duplicates(),
            forall|x: Seq<u8>| #[trigger] keys_view(final(keys)@).contains(x)
                ==> self.lookup(x) is Some,
            forall|x: Seq<u8>| keys_view(old(keys)@).contains(x)
                ==> #[trigger] keys_view(final(keys)@).contains(x),
            self.lookup(key@) is Some ==> keys_view(final(keys)@).contains(key@),
            self.lookup(key@) is None ==> final(keys)@ == old(keys)@,
    {
        let ghost pre = keys@;
        if !bytes_contains(keys, key) {
            let live = self.get(key);
            if live.is_some() {
                keys.push(clone_bytes(key));
                proof {
                    assert(keys_view(keys@) =~= keys_view(pre).push(key@));
                    let kv = keys_view(keys@);
                    assert forall|x: Seq<u8>| #[trigger] kv.contains(x)
                        implies keys_view(pre).contains(x) || x == key@ by {
                        let w = choose|j: int| 0 <= j < kv.len() && kv[j] == x;
                        if w < keys_view(pre).len() {
                            assert(keys_view(pre)[w] == x);
                        }
                    }
                    assert forall|x: Seq<u8>| #[trigger] keys_view(pre).contains(x)
                        implies kv.contains(x) by {
                        let w = choose|j: int| 0 <= j < keys_view(pre).len()
                            && keys_view(pre)[j] == x;
                        assert(kv[w] == x);
                    }
                    assert(kv[keys_view(pre).len() as int] == key@);
                    assert(kv.contains(key@));
                    assert(keys_view(pre).push(key@).drop_last() =~= keys_view(pre));
                    assert(kv.no_duplicates());
                }
            }
        }
    }

    /// The number of distinct live keys across the buffer and every table:
    /// the size of the logical map's domain. Tombstone-shadowed and
    /// deleted keys are not counted.
    pub fn count(&self) -> (r: usize)
        requires
            self.wf(),
        ensures
            r == self.as_map().dom().len(),
    {
        let mut keys: Vec<Vec<u8>> = Vec::new();
        let mut i: usize = 0;
        while i < self.memtable.len()
            invariant
                i <= self.memtable@.len(),
                self.wf(),
                keys_view(keys@).no_duplicates(),
                forall|x: Seq<u8>| #[trigger] keys_view(keys@).contains(x)
                    ==> self.lookup(x) is Some,
                forall|w: int| 0 <= w < i && self.lookup(self.memtable@[w].0@) is Some
                    ==> keys_view(keys@).contains((#[trigger] self.memtable@[w]).0@),
            decreases self.memtable@.len() - i,
        {
            self.collect_key(&mut keys, &self.memtable[i].0);
            i = i + 1;
        }
        let mut j: usize = 0;
        while j < self.tables.len()
            invariant
                j <= self.tables@.len(),
                self.wf(),
                keys_view(keys@).no_duplicates(),
                forall|x: Seq<u8>| #[trigger] keys_view(keys@).contains(x)
                    ==> self.lookup(x) is Some,
                forall|w: int| 0 <= w < self.memtable@.len()
                    && self.lookup(self.memtable@[w].0@) is Some
                    ==> keys_view(keys@).contains((#[trigger] self.memtable@[w]).0@),
                forall|t: int, w: int| 0 <= t < j
                    && 0 <= w < self.tables@[t].entries@.len()
                    && self.lookup((#[trigger] self.tables@[t].entries@[w]).0@) is Some
                    ==> keys_view(keys@).contains(self.tables@[t].entries@[w].0@),
            decreases self.tables@.len() - j,
        {
            let mut i: usize = 0;
            while i < self.tables[j].entries.len()
                invariant
                    j < self.tables@.len(),
                    i <= self.tables@[j as int].entries@.len(),
                    self.wf(),
                    keys_view(keys@).no_duplicates(),
                    forall|x: Seq<u8>| #[trigger] keys_view(keys@).contains(x)
                        ==> self.lookup(x) is Some,
                    forall|w: int| 0 <= w < self.memtable@.len()
                        && self.lookup(self.memtable@[w].0@) is Some
                        ==> keys_view(keys@).contains((#[trigger] self.memtable@[w]).0@),
                    forall|t: int, w: int| 0 <= t < j
                        && 0 <= w < self.tables@[t].entries@.len()
                        && self.lookup((#[trigger] self.tables@[t].entries@[w]).0@) is Some
                        ==> keys_view(keys@).contains(self.tables@[t].entries@[w].0@),
                    forall|w: int| 0 <= w < i
                        && self.lookup(self.tables@[j as int].entries@[w].0@) is Some
                        ==> keys_view(keys@).contains(
                        (#[trigger] self.tables@[j as int].entries@[w]).0@,
                    ),
                decreases self.tables@[j as int].entries@.len() - i,
            {
                self.collect_key(&mut keys, &self.tables[j].entries[i].0);
                i = i + 1;
            }
            j = j + 1;
        }
        proof {
            let kv = keys_view(keys@);
            assert forall|x: Seq<u8>| #[trigger] self.lookup(x) is Some
                implies kv.contains(x) by {
                if run_find(self.memtable@, x) is Some {
                    let w = choose|w: int|
                        0 <= w < self.memtable@.len() && self.memtable@[w].0@ == x;
                    assert(self.lookup(self.memtable@[w].0@) is Some);
                } else {
                    assert(stack_find(self.tables@, x) is Some);
                    lemma_stack_find_some_has_entry(self.tables@, x);
                    let t = choose|t: int|
                        0 <= t < self.tables@.len()
                            && run_has_key((#[trigger] self.tables@[t]).entries@, x);
                    let w = choose|w: int|
                        0 <= w < self.tables@[t].entries@.len()
                            && self.tables@[t].entries@[w].0@ == x;
                    assert(self.lookup(self.tables@[t].entries@[w].0@) is Some);
                }
            }
            assert(self.as_map().dom() =~= kv.to_set());
            kv.unique_seq_to_set();
        }
        keys.len()
    }
}

/// Round trip, in the map model that `put` and `get` are specified over:
/// after `put(k, v)` the engine's map holds `v` at `k`, so a `get(k)` in
/// the same single-writer context returns `v`; after a second
/// `put(k, v2)` it returns `v2`.
pub proof fn lemma_put_get_round_trip(m: Map<Seq<u8>, Seq<u8>>, k: Seq<u8>, v1: Seq<u8>, v2: Seq<u8>)
    ensures
        m.insert(k, v1).dom().contains(k),
        m.insert(k, v1)[k] == v1,
        m.insert(k, v1).insert(k, v2)[k] == v2,
{
}

} // verus!
