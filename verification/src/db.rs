//! The data store: [`KvMap`], the in-memory mapping with exact contracts,
//! and [`DataStore`], the shell that shares one `KvMap` across concurrent
//! callers behind a reader/writer lock.

use vstd::prelude::*;

use crate::errors::KvError;
use crate::file_ops::{
    decode_entries, encode_entries, lemma_round_trip, line_ok, spec_decode, spec_encode,
};
use crate::table::{table_contents, Table};

verus! {

/// The result of folding a listing of entries into a mapping, one insert per
/// entry in listing order: on a repeated key the last entry wins. This is the
/// meaning of a bulk load ([`KvMap::merge_entries`]).
pub open spec fn merged(
    m0: Map<Seq<char>, Seq<u8>>,
    es: Seq<(Seq<char>, Seq<u8>)>,
) -> Map<Seq<char>, Seq<u8>>
    decreases es.len(),
{
    if es.len() == 0 {
        m0
    } else {
        merged(m0, es.drop_last()).insert(es.last().0, es.last().1)
    }
}

/// The mapping from string keys to byte values. Its abstract value (the view)
/// is a `Map<Seq<char>, Seq<u8>>`; every operation states exactly how it
/// reads or changes that map.
pub struct KvMap {
    table: Table,
}

impl View for KvMap {
    type V = Map<Seq<char>, Seq<u8>>;

    closed spec fn view(&self) -> Map<Seq<char>, Seq<u8>> {
        table_contents(self.table)
    }
}

impl KvMap {
    /// Every map built by `create` and changed by the methods here has
    /// finitely many keys, which makes `size` meaningful.
    pub open spec fn wf(&self) -> bool {
        self@.dom().finite()
    }

    /// Returns an empty mapping.
    pub fn create() -> (r: KvMap)
        ensures
            r@ == Map::<Seq<char>, Seq<u8>>::empty(),
            r.wf(),
    {
        let r = KvMap { table: Table::new() };
        proof {
            assert(r@.dom() =~= Set::<Seq<char>>::empty());
        }
        r
    }

    /// Inserts or overwrites the entry for `key`, returning the prior value
    /// if one existed.
    pub fn set(&mut self, key: &str, value: Vec<u8>) -> (r: Option<Vec<u8>>)
        requires
            old(self).wf(),
        ensures
            final(self)@ == old(self)@.insert(key@, value@),
            final(self).wf(),
            match r {
                Some(prev) => old(self)@.contains_key(key@) && prev@ == old(self)@[key@],
                None => !old(self)@.contains_key(key@),
            },
    {
        self.table.insert(key, value)
    }

    /// Returns a copy of the current value for `key`, or `None` if the key is
    /// not present. Never mutates.
    pub fn get(&self, key: &str) -> (r: Option<Vec<u8>>)
        ensures
            match r {
                Some(v) => self@.contains_key(key@) && v@ == self@[key@],
                None => !self@.contains_key(key@),
            },
    {
        self.table.get(key)
    }

    /// Deletes the entry for `key` if present, returning its value;
    /// removing a missing key is not an error and returns `None`.
    pub fn remove(&mut self, key: &str) -> (r: Option<Vec<u8>>)
        requires
            old(self).wf(),
        ensures
            final(self)@ == old(self)@.remove(key@),
            final(self).wf(),
            match r {
                Some(prev) => old(self)@.contains_key(key@) && prev@ == old(self)@[key@],
                None => !old(self)@.contains_key(key@),
            },
    {
        self.table.remove(key)
    }

    /// The number of entries currently mapped.
    pub fn size(&self) -> (r: usize)
        requires
            self.wf(),
        ensures
            r == self@.dom().len(),
    {
        self.table.len()
    }

    /// A point-in-time listing of all entries, each key exactly once, in no
    /// promised order.
    pub fn entries(&self) -> (r: Vec<(String, Vec<u8>)>)
        requires
            self.wf(),
        ensures
            r@.len() == self@.dom().len(),
            forall|i: int| 0 <= i < r@.len() ==> {
                &&& self@.contains_key((#[trigger] r@[i]).0@)
                &&& r@[i].1@ == self@[r@[i].0@]
            },
            forall|i: int, j: int|
                0 <= i < j < r@.len() ==> (#[trigger] r@[i]).0@ != (#[trigger] r@[j]).0@,
            forall|k: Seq<char>| #[trigger]
                self@.contains_key(k) ==> exists|i: int|
                    0 <= i < r@.len() && (#[trigger] r@[i]).0@ == k,
    {
        self.table.entries()
    }

    /// A point-in-time listing of all current keys, each exactly once, in no
    /// promised order.
    pub fn keys(&self) -> (r: Vec<String>)
        requires
            self.wf(),
        ensures
            r@.len() == self@.dom().len(),
            forall|i: int| 0 <= i < r@.len() ==> self@.contains_key((#[trigger] r@[i])@),
            forall|i: int, j: int|
                0 <= i < j < r@.len() ==> (#[trigger] r@[i])@ != (#[trigger] r@[j])@,
            forall|k: Seq<char>| #[trigger]
                self@.contains_key(k) ==> exists|i: int| 0 <= i < r@.len() && (#[trigger] r@[i])@ == k,
    {
        let es = self.entries();
        let mut r: Vec<String> = Vec::new();
        let n = es.len();
        for i in 0..n
            invariant
                n == es.len(),
                r@.len() == i,
                forall|j: int| 0 <= j < i ==> (#[trigger] r@[j]) == es@[j].0,
        {
            r.push(es[i].0.clone());
        }
        proof {
            assert forall|k: Seq<char>| #[trigger]
                self@.contains_key(k) implies exists|i: int|
                0 <= i < r@.len() && (#[trigger] r@[i])@ == k by {
                let w = choose|i: int| 0 <= i < es@.len() && (#[trigger] es@[i]).0@ == k;
                assert(r@[w]@ == k);
            }
        }
        r
    }

    /// Merges a listing of entries into the mapping, in listing order:
    /// existing keys not listed survive, listed keys are inserted or
    /// overwritten, and on a repeated key the last entry wins.
    pub fn merge_entries(&mut self, entries: &Vec<(String, Vec<u8>)>) -> (n: usize)
        requires
            old(self).wf(),
        ensures
            final(self)@ == merged(old(self)@, entries.deep_view()),
            final(self).wf(),
            n == final(self)@.dom().len(),
    {
        let m = entries.len();
        for i in 0..m
            invariant
                m == entries.len(),
                self@ == merged(old(self)@, entries.deep_view().take(i as int)),
                self.wf(),
        {
            let value = vstd::slice::slice_to_vec(entries[i].1.as_slice());
            self.set(entries[i].0.as_str(), value);
            proof {
                let es = entries.deep_view();
                assert(es[i as int] == (entries@[i as int].0@, entries@[i as int].1@));
                assert(es.take(i as int + 1).drop_last() =~= es.take(i as int));
                assert(es.take(i as int + 1).last() == es[i as int]);
                assert(self@ == merged(old(self)@, es.take(i as int + 1)));
            }
        }
        proof {
            assert(entries.deep_view().take(m as int) =~= entries.deep_view());
        }
        self.size()
    }

    /// Writes the whole mapping as kv file bytes, one line per entry, in no
    /// promised order, with the count of entries written. Fails with
    /// `FormatError` exactly when some entry cannot stand on a line (see
    /// [`line_ok`]); nothing is written then, so an unrepresentable entry is
    /// never silently mangled. What is written always reads back: the bytes
    /// decode to a listing of this mapping with each key exactly once.
    pub fn to_file_bytes(&self) -> (r: Result<(Vec<u8>, usize), KvError>)
        requires
            self.wf(),
        ensures
            match r {
                Ok(p) => (exists|es: Seq<(Seq<char>, Seq<u8>)>|
                    {
                        &&& p.0@ == spec_encode(es)
                        &&& spec_decode(p.0@) == Some(es)
                        &&& p.1 == es.len()
                        &&& es.len() == self@.dom().len()
                        &&& (forall|i: int|
                            0 <= i < es.len() ==> line_ok((#[trigger] es[i]).0, es[i].1))
                        &&& (forall|i: int|
                            0 <= i < es.len() ==> self@.contains_key((#[trigger] es[i]).0)
                                && self@[es[i].0] == es[i].1)
                        &&& (forall|i: int, j: int|
                            0 <= i < j < es.len() ==> (#[trigger] es[i]).0 != (
                            #[trigger] es[j]).0)
                        &&& (forall|k: Seq<char>| #[trigger]
                            self@.contains_key(k) ==> exists|i: int|
                                0 <= i < es.len() && (#[trigger] es[i]).0 == k)
                    }),
                Err(e) => e == KvError::FormatError && (exists|k: Seq<char>| #[trigger]
                    self@.contains_key(k) && !line_ok(k, self@[k])),
            },
    {
        let listing = self.entries();
        let ghost dv = listing.deep_view();
        proof {
            assert forall|i: int| 0 <= i < dv.len() implies (#[trigger] dv[i]) == (
                listing@[i].0@,
                listing@[i].1@,
            ) by {}
        }
        match encode_entries(&listing) {
            Ok(bytes) => {
                let count = listing.len();
                proof {
                    assert forall|k: Seq<char>| #[trigger]
                        self@.contains_key(k) implies exists|i: int|
                        0 <= i < dv.len() && (#[trigger] dv[i]).0 == k by {
                        let w = choose|w: int|
                            0 <= w < listing@.len() && (#[trigger] listing@[w]).0@ == k;
                        assert(dv[w].0 == k);
                    }
                    lemma_round_trip(dv);
                }
                Ok((bytes, count))
            },
            Err(e) => {
                proof {
                    let w = choose|i: int|
                        0 <= i < dv.len() && !line_ok((#[trigger] dv[i]).0, dv[i].1);
                    assert(self@.contains_key(dv[w].0) && self@[dv[w].0] == dv[w].1);
                }
                Err(e)
            },
        }
    }
}

/// The predicate that governs a [`DataStore`]'s lock: every mapping put into
/// the lock is well formed, so every mapping taken out of it is too.
pub struct MapWf {}

impl vstd::rwlock::RwLockPredicate<KvMap> for MapWf {
    open spec fn inv(self, m: KvMap) -> bool {
        m.wf()
    }
}

/// The store: one [`KvMap`] owned by a reader/writer lock and shared through
/// an `Arc`, so that clones of the store work on the same mapping from
/// concurrent callers. Readers (`get`, `keys`, `dbsize`) take the shared
/// lock; writers (`set`, `remove`, and the bulk merge of a load) take the
/// exclusive lock and serialize.
///
/// The lock hides the mapping's value, so the contracts here cannot relate
/// one call's result to the next across the shared state; the exact
/// semantics of each operation on the mapping itself stand on [`KvMap`],
/// which every method calls under the lock.
pub struct DataStore {
    map: std::sync::Arc<vstd::rwlock::RwLock<KvMap, MapWf>>,
}

impl Clone for DataStore {
    /// A clone is the same store: it shares the lock and the mapping.
    fn clone(&self) -> (r: Self)
        ensures
            r == *self,
    {
        DataStore { map: self.map.clone() }
    }
}

impl DataStore {
    /// Holds of every store `create` returns, and of every clone of one: the
    /// lock is governed by [`MapWf`].
    pub closed spec fn wf(&self) -> bool {
        (*self.map).pred() == (MapWf {  })
    }

    /// Returns an empty store. No failure mode.
    pub fn create() -> (r: DataStore)
        ensures
            r.wf(),
    {
        let m = KvMap::create();
        let lock = vstd::rwlock::RwLock::new(m, Ghost(MapWf {  }));
        DataStore { map: std::sync::Arc::new(lock) }
    }

    /// Inserts or overwrites the entry for `key` in the shared mapping, as
    /// [`KvMap::set`] does, under the write lock; returns the prior value if
    /// one existed at that moment.
    pub fn set(&mut self, key: &str, value: Vec<u8>) -> (r: Option<Vec<u8>>)
        requires
            old(self).wf(),
        ensures
            *final(self) == *old(self),
    {
        let (mut m, handle) = (*self.map).acquire_write();
        let r = m.set(key, value);
        handle.release_write(m);
        r
    }

    /// Returns a copy of the value for `key` in the shared mapping at the
    /// moment of the call, as [`KvMap::get`] does, under the read lock.
    pub fn get(&self, key: &str) -> (r: Option<Vec<u8>>)
        requires
            self.wf(),
    {
        let handle = (*self.map).acquire_read();
        let r = handle.borrow().get(key);
        handle.release_read();
        r
    }

    /// Deletes the entry for `key` in the shared mapping, as
    /// [`KvMap::remove`] does, under the write lock; removing a missing key
    /// is not an error.
    pub fn remove(&mut self, key: &str) -> (r: Option<Vec<u8>>)
        requires
            old(self).wf(),
        ensures
            *final(self) == *old(self),
    {
        let (mut m, handle) = (*self.map).acquire_write();
        let r = m.remove(key);
        handle.release_write(m);
        r
    }

    /// A snapshot listing of all keys at the moment of the call, each key
    /// exactly once, in no promised order, under the read lock.
    pub fn keys(&self) -> (r: Vec<String>)
        requires
            self.wf(),
        ensures
            forall|i: int, j: int|
                0 <= i < j < r@.len() ==> (#[trigger] r@[i])@ != (#[trigger] r@[j])@,
    {
        let handle = (*self.map).acquire_read();
        let r = handle.borrow().keys();
        handle.release_read();
        r
    }

    /// The number of entries in the shared mapping at the moment of the
    /// call, under the read lock.
    pub fn dbsize(&self) -> (r: usize)
        requires
            self.wf(),
    {
        let handle = (*self.map).acquire_read();
        let r = handle.borrow().size();
        handle.release_read();
        r
    }

    /// Decodes kv file bytes and merges every entry into the shared mapping
    /// under the write lock, as [`KvMap::merge_entries`] does: keys already
    /// present and not in the file survive, the file's entries are inserted
    /// or overwrite, and on a repeated key the file's last line wins.
    /// Returns the store's total size after the merge.
    ///
    /// The call is all-or-nothing: a malformed file fails with
    /// `FormatError`, exactly when [`spec_decode`] refuses the bytes, before
    /// anything is merged.
    pub fn load_bytes(&self, data: &[u8]) -> (r: Result<usize, KvError>)
        requires
            self.wf(),
        ensures
            match r {
                Ok(n) => spec_decode(data@) is Some,
                Err(e) => e == KvError::FormatError && spec_decode(data@) is None,
            },
    {
        match decode_entries(data) {
            Err(e) => Err(e),
            Ok(listing) => {
                let (mut m, handle) = (*self.map).acquire_write();
                let n = m.merge_entries(&listing);
                handle.release_write(m);
                Ok(n)
            },
        }
    }

    /// Writes a snapshot of the shared mapping as kv file bytes, under the
    /// read lock, with the count of entries written. The bytes always read
    /// back: they decode to a listing with each key exactly once, every
    /// entry of which can stand on a line. Fails with `FormatError` when
    /// some entry of the snapshot cannot stand on a line (see
    /// [`KvMap::to_file_bytes`]); nothing is written then.
    pub fn save_bytes(&self) -> (r: Result<(Vec<u8>, usize), KvError>)
        requires
            self.wf(),
        ensures
            match r {
                Ok(p) => (exists|es: Seq<(Seq<char>, Seq<u8>)>|
                    {
                        &&& p.0@ == spec_encode(es)
                        &&& spec_decode(p.0@) == Some(es)
                        &&& p.1 == es.len()
                        &&& (forall|i: int|
                            0 <= i < es.len() ==> line_ok((#[trigger] es[i]).0, es[i].1))
                        &&& (forall|i: int, j: int|
                            0 <= i < j < es.len() ==> (#[trigger] es[i]).0 != (
                            #[trigger] es[j]).0)
                    }),
                Err(e) => e == KvError::FormatError,
            },
    {
        let handle = (*self.map).acquire_read();
        let r = handle.borrow().to_file_bytes();
        handle.release_read();
        r
    }
}

/// Law: setting a key and then reading it yields the value just set.
///
/// `KvMap::set` turns a mapping `m` into `m.insert(k, v)`; on that mapping
/// the contract of `KvMap::get` returns exactly `Some` of the value below.
pub proof fn lemma_set_then_get(m: Map<Seq<char>, Seq<u8>>, k: Seq<char>, v: Seq<u8>)
    ensures
        m.insert(k, v).contains_key(k),
        m.insert(k, v)[k] == v,
{
}

/// Law: after a removal the key is absent, and a second removal of the same
/// key changes nothing (and, by the contract of `KvMap::remove` on a mapping
/// without the key, also reports absence rather than an error).
pub proof fn lemma_remove_then_absent(m: Map<Seq<char>, Seq<u8>>, k: Seq<char>)
    ensures
        !m.remove(k).contains_key(k),
        m.remove(k).remove(k) == m.remove(k),
{
    assert(m.remove(k).remove(k) =~= m.remove(k));
}

/// Law: the size is the number of distinct keys ever set minus those since
/// removed. Setting a fresh key grows the count by one; overwriting a
/// present key never double-counts it; removing a present key shrinks the
/// count by one; removing an absent key changes nothing.
pub proof fn lemma_size_accounting(m: Map<Seq<char>, Seq<u8>>, k: Seq<char>, v: Seq<u8>)
    requires
        m.dom().finite(),
    ensures
        m.contains_key(k) ==> m.insert(k, v).dom().len() == m.dom().len(),
        !m.contains_key(k) ==> m.insert(k, v).dom().len() == m.dom().len() + 1,
        m.contains_key(k) ==> m.remove(k).dom().len() == m.dom().len() - 1,
        !m.contains_key(k) ==> m.remove(k).dom().len() == m.dom().len(),
{
    vstd::set::axiom_set_insert_len(m.dom(), k);
    vstd::set::axiom_set_remove_len(m.dom(), k);
    assert(m.insert(k, v).dom() =~= m.dom().insert(k));
    assert(m.remove(k).dom() =~= m.dom().remove(k));
}

/// Every key a merge leaves untouched: merging entries into a mapping
/// neither adds, changes nor drops a key that none of the entries carries.
pub proof fn lemma_merged_frame(
    m: Map<Seq<char>, Seq<u8>>,
    es: Seq<(Seq<char>, Seq<u8>)>,
    k: Seq<char>,
)
    requires
        forall|i: int| 0 <= i < es.len() ==> (#[trigger] es[i]).0 != k,
    ensures
        merged(m, es).contains_key(k) == m.contains_key(k),
        m.contains_key(k) ==> merged(m, es)[k] == m[k],
    decreases es.len(),
{
    if es.len() > 0 {
        lemma_merged_frame(m, es.drop_last(), k);
    }
}

/// Every key a merge brings in: after merging, each key carried by some
/// entry is present in the mapping.
pub proof fn lemma_merged_covers(m: Map<Seq<char>, Seq<u8>>, es: Seq<(Seq<char>, Seq<u8>)>)
    ensures
        forall|i: int|
            0 <= i < es.len() ==> merged(m, es).contains_key((#[trigger] es[i]).0),
    decreases es.len(),
{
    if es.len() > 0 {
        lemma_merged_covers(m, es.drop_last());
        assert forall|i: int|
            0 <= i < es.len() implies merged(m, es).contains_key((#[trigger] es[i]).0) by {
            if i < es.len() - 1 {
                assert(es.drop_last()[i] == es[i]);
                assert(merged(m, es.drop_last()).contains_key(es[i].0));
            }
        }
    }
}

/// Law: a bulk load is additive. A key `a` already present and not listed in
/// the loaded entries survives with its value, and every listed key is
/// present afterwards.
pub proof fn lemma_load_additive(
    m: Map<Seq<char>, Seq<u8>>,
    es: Seq<(Seq<char>, Seq<u8>)>,
    a: Seq<char>,
)
    requires
        m.contains_key(a),
        forall|i: int| 0 <= i < es.len() ==> (#[trigger] es[i]).0 != a,
    ensures
        merged(m, es).contains_key(a),
        merged(m, es)[a] == m[a],
        forall|i: int|
            0 <= i < es.len() ==> merged(m, es).contains_key((#[trigger] es[i]).0),
{
    lemma_merged_frame(m, es, a);
    lemma_merged_covers(m, es);
}

/// Merging entries that all agree with a mapping `m` (each key present in
/// `m` with that very value) into a start that agrees with `m` yields a
/// mapping that agrees with `m`.
proof fn lemma_merged_agrees(
    m: Map<Seq<char>, Seq<u8>>,
    m0: Map<Seq<char>, Seq<u8>>,
    es: Seq<(Seq<char>, Seq<u8>)>,
)
    requires
        forall|k: Seq<char>| #[trigger] m0.contains_key(k) ==> m.contains_key(k) && m0[k] == m[k],
        forall|i: int|
            0 <= i < es.len() ==> m.contains_key((#[trigger] es[i]).0) && m[es[i].0] == es[i].1,
    ensures
        forall|k: Seq<char>| #[trigger]
            merged(m0, es).contains_key(k) ==> m.contains_key(k) && merged(m0, es)[k] == m[k],
    decreases es.len(),
{
    if es.len() > 0 {
        assert forall|i: int|
            0 <= i < es.drop_last().len() implies m.contains_key(
            (#[trigger] es.drop_last()[i]).0,
        ) && m[es.drop_last()[i].0] == es.drop_last()[i].1 by {
            assert(es.drop_last()[i] == es[i]);
        }
        lemma_merged_agrees(m, m0, es.drop_last());
        assert(es.last() == es[es.len() - 1]);
        assert forall|k: Seq<char>| #[trigger]
            merged(m0, es).contains_key(k) implies m.contains_key(k) && merged(m0, es)[k]
            == m[k] by {
            let prev = merged(m0, es.drop_last());
            assert(merged(m0, es) == prev.insert(es.last().0, es.last().1));
            if k == es.last().0 {
                assert(m.contains_key(es.last().0) && m[es.last().0] == es.last().1);
            } else {
                assert(prev.contains_key(k));
            }
        }
    }
}

/// Law: the round trip through a kv file restores the mapping. A listing of
/// a mapping (each entry in the mapping, every key covered) whose entries
/// can all stand on a line encodes to bytes that decode back to that very
/// listing, and merging the listing into a fresh empty mapping yields the
/// mapping that was saved: same keys, same values.
pub proof fn lemma_save_load_round_trip(
    m: Map<Seq<char>, Seq<u8>>,
    es: Seq<(Seq<char>, Seq<u8>)>,
)
    requires
        forall|i: int| 0 <= i < es.len() ==> line_ok((#[trigger] es[i]).0, es[i].1),
        forall|i: int|
            0 <= i < es.len() ==> m.contains_key((#[trigger] es[i]).0) && m[es[i].0] == es[i].1,
        forall|k: Seq<char>| #[trigger]
            m.contains_key(k) ==> exists|i: int| 0 <= i < es.len() && (#[trigger] es[i]).0 == k,
    ensures
        spec_decode(spec_encode(es)) == Some(es),
        merged(Map::empty(), es) == m,
{
    lemma_round_trip(es);
    lemma_merged_agrees(m, Map::empty(), es);
    lemma_merged_covers(Map::empty(), es);
    assert forall|k: Seq<char>| #[trigger]
        m.contains_key(k) implies merged(Map::empty(), es).contains_key(k) by {
        let w = choose|i: int| 0 <= i < es.len() && (#[trigger] es[i]).0 == k;
        assert(merged(Map::empty(), es).contains_key(es[w].0));
    }
    assert(merged(Map::empty(), es) =~= m);
}

} // verus!
