//! The in-memory database that is saved as a whole on every commit.
//!
//! A database holds one ordered map from keys to values. A transaction works
//! directly on that map. Its commit hands out a snapshot of the whole map,
//! to be written under the database's name as one blob; opening a database
//! replays such a snapshot. A transaction that is dropped writes nothing.

use vstd::prelude::*;
use vstd::slice::slice_to_vec;
use crate::error::StoreError;
use crate::model::{
    ascending, first_keys, is_listing, lemma_ascending_is_listing, lemma_listing_absent,
    lemma_listing_insert, lemma_listing_remove, lemma_listing_stretch, lemma_listing_update,
    lemma_remove_listed_keys, lemma_remove_next_key, lemma_replay_listing, lookup, replay,
    with_prefix, without_prefix,
};
use crate::order::{
    bytes_eq, bytes_lt, lemma_lex_lt_le, lemma_lex_transitive, lemma_lex_trichotomy, lex_le,
    lex_lt,
};
use crate::prefix::{
    lemma_next_prefix_exact, lemma_next_prefix_unbounded, next_prefix, next_prefix_spec,
};

verus! {

/// The pairs of byte strings that a vector of entries holds.
pub open spec fn pairs_of(entries: Vec<(Vec<u8>, Vec<u8>)>) -> Seq<(Seq<u8>, Seq<u8>)> {
    Seq::new(entries@.len(), |i: int| (entries@[i].0@, entries@[i].1@))
}

/// The bytes of an optional value.
pub open spec fn bytes_of(value: Option<Vec<u8>>) -> Option<Seq<u8>> {
    match value {
        Some(v) => Some(v@),
        None => None,
    }
}

/// The first position in `entries` whose key does not sort before `key`.
fn lower_bound(entries: &Vec<(Vec<u8>, Vec<u8>)>, key: &[u8]) -> (at: usize)
    requires
        ascending(pairs_of(*entries)),
    ensures
        at <= entries.len(),
        forall|i: int| 0 <= i < at ==> lex_lt((#[trigger] pairs_of(*entries)[i]).0, key@),
        forall|i: int|
            at <= i < entries.len() ==> lex_le(key@, (#[trigger] pairs_of(*entries)[i]).0),
{
    let ghost pairs = pairs_of(*entries);
    let mut lo: usize = 0;
    let mut hi: usize = entries.len();
    while lo < hi
        invariant
            lo <= hi <= entries.len(),
            pairs == pairs_of(*entries),
            ascending(pairs),
            forall|i: int| 0 <= i < lo ==> lex_lt((#[trigger] pairs[i]).0, key@),
            forall|i: int| hi <= i < entries.len() ==> lex_le(key@, (#[trigger] pairs[i]).0),
        decreases hi - lo,
    {
        let mid: usize = lo + (hi - lo) / 2;
        assert(pairs[mid as int].0 == entries@[mid as int].0@);
        if bytes_lt(entries[mid].0.as_slice(), key) {
            assert forall|i: int| 0 <= i < mid + 1 implies lex_lt((#[trigger] pairs[i]).0, key@) by {
                if i < mid {
                    assert(lex_lt(pairs[i].0, pairs[mid as int].0));
                    lemma_lex_transitive(pairs[i].0, pairs[mid as int].0, key@);
                }
            }
            lo = mid + 1;
        } else {
            assert forall|i: int| mid <= i < entries.len() implies lex_le(
                key@,
                (#[trigger] pairs[i]).0,
            ) by {
                if i > mid {
                    assert(lex_lt(pairs[mid as int].0, pairs[i].0));
                    if lex_lt(pairs[i].0, key@) {
                        lemma_lex_transitive(pairs[mid as int].0, pairs[i].0, key@);
                    }
                }
            }
            hi = mid;
        }
    }
    lo
}

/// The value that `entries` holds under `key`.
fn entries_get(entries: &Vec<(Vec<u8>, Vec<u8>)>, key: &[u8]) -> (found: Option<Vec<u8>>)
    requires
        ascending(pairs_of(*entries)),
    ensures
        bytes_of(found) == lookup(replay(pairs_of(*entries)), key@),
{
    let ghost pairs = pairs_of(*entries);
    let ghost m = replay(pairs);
    let at: usize = lower_bound(entries, key);
    proof {
        lemma_ascending_is_listing(pairs);
    }
    if at < entries.len() && bytes_eq(entries[at].0.as_slice(), key) {
        assert(pairs[at as int].0 == key@);
        assert(pairs[at as int].1 == entries@[at as int].1@);
        Some(slice_to_vec(entries[at].1.as_slice()))
    } else {
        proof {
            lemma_strictly_after(pairs, at as int, key@);
            lemma_listing_absent(pairs, m, at as int, key@);
        }
        None
    }
}

/// From a lower bound of `k` that is not `k` itself on, every key sorts
/// strictly after `k`.
proof fn lemma_strictly_after(pairs: Seq<(Seq<u8>, Seq<u8>)>, at: int, k: Seq<u8>)
    requires
        ascending(pairs),
        0 <= at <= pairs.len(),
        forall|i: int| at <= i < pairs.len() ==> lex_le(k, (#[trigger] pairs[i]).0),
        at < pairs.len() ==> pairs[at].0 != k,
    ensures
        forall|i: int| at <= i < pairs.len() ==> lex_lt(k, (#[trigger] pairs[i]).0),
{
    assert forall|i: int| at <= i < pairs.len() implies lex_lt(k, (#[trigger] pairs[i]).0) by {
        lemma_lex_trichotomy(k, pairs[at].0);
        if i > at {
            assert(lex_lt(pairs[at].0, pairs[i].0));
            lemma_lex_transitive(k, pairs[at].0, pairs[i].0);
        }
    }
}

/// Puts `value` under `key` and gives back the value that was there.
fn entries_insert(entries: &mut Vec<(Vec<u8>, Vec<u8>)>, key: &[u8], value: &[u8]) -> (prev:
    Option<Vec<u8>>)
    requires
        ascending(pairs_of(*old(entries))),
    ensures
        ascending(pairs_of(*final(entries))),
        replay(pairs_of(*final(entries))) == replay(pairs_of(*old(entries))).insert(
            key@,
            value@,
        ),
        bytes_of(prev) == lookup(replay(pairs_of(*old(entries))), key@),
{
    let ghost pairs = pairs_of(*entries);
    let ghost m = replay(pairs);
    let at: usize = lower_bound(entries, key);
    proof {
        lemma_ascending_is_listing(pairs);
    }
    if at < entries.len() && bytes_eq(entries[at].0.as_slice(), key) {
        assert(pairs[at as int].0 == key@);
        let (old_key, old_value) = entries.remove(at);
        entries.insert(at, (old_key, slice_to_vec(value)));
        proof {
            assert(pairs[at as int].1 == old_value@);
            assert(pairs_of(*entries) =~= pairs.update(at as int, (key@, value@)));
            lemma_listing_update(pairs, m, at as int, value@);
            lemma_replay_listing(pairs_of(*entries), m.insert(key@, value@));
        }
        Some(old_value)
    } else {
        entries.insert(at, (slice_to_vec(key), slice_to_vec(value)));
        proof {
            lemma_strictly_after(pairs, at as int, key@);
            lemma_listing_absent(pairs, m, at as int, key@);
            assert(pairs_of(*entries) =~= pairs.insert(at as int, (key@, value@)));
            lemma_listing_insert(pairs, m, at as int, key@, value@);
            lemma_replay_listing(pairs_of(*entries), m.insert(key@, value@));
        }
        None
    }
}

/// Takes `key` out and gives back the value that was under it.
fn entries_remove(entries: &mut Vec<(Vec<u8>, Vec<u8>)>, key: &[u8]) -> (prev: Option<Vec<u8>>)
    requires
        ascending(pairs_of(*old(entries))),
    ensures
        ascending(pairs_of(*final(entries))),
        replay(pairs_of(*final(entries))) == replay(pairs_of(*old(entries))).remove(key@),
        bytes_of(prev) == lookup(replay(pairs_of(*old(entries))), key@),
{
    let ghost pairs = pairs_of(*entries);
    let ghost m = replay(pairs);
    let at: usize = lower_bound(entries, key);
    proof {
        lemma_ascending_is_listing(pairs);
    }
    if at < entries.len() && bytes_eq(entries[at].0.as_slice(), key) {
        assert(pairs[at as int].0 == key@);
        let (_, old_value) = entries.remove(at);
        proof {
            assert(pairs[at as int].1 == old_value@);
            assert(pairs_of(*entries) =~= pairs.remove(at as int));
            lemma_listing_remove(pairs, m, at as int);
            lemma_replay_listing(pairs_of(*entries), m.remove(key@));
        }
        Some(old_value)
    } else {
        proof {
            lemma_strictly_after(pairs, at as int, key@);
            lemma_listing_absent(pairs, m, at as int, key@);
            assert(m.remove(key@) =~= m);
        }
        None
    }
}

/// The entries whose keys start with `prefix`, in ascending order.
fn entries_scan(entries: &Vec<(Vec<u8>, Vec<u8>)>, prefix: &[u8]) -> (found: Vec<
    (Vec<u8>, Vec<u8>),
>)
    requires
        ascending(pairs_of(*entries)),
    ensures
        is_listing(pairs_of(found), with_prefix(replay(pairs_of(*entries)), prefix@)),
{
    let ghost pairs = pairs_of(*entries);
    let ghost m = replay(pairs);
    let from: usize = lower_bound(entries, prefix);
    let to: usize = match next_prefix(prefix) {
        Some(bound) => lower_bound(entries, bound.as_slice()),
        None => entries.len(),
    };
    proof {
        lemma_ascending_is_listing(pairs);
        assert forall|i: int| 0 <= i < pairs.len() implies (prefix@.is_prefix_of(
            (#[trigger] pairs[i]).0,
        ) <==> from <= i < to) by {
            let k = pairs[i].0;
            lemma_lex_trichotomy(prefix@, k);
            if next_prefix_spec(prefix@) is Some {
                let b = next_prefix_spec(prefix@).unwrap();
                lemma_next_prefix_exact(prefix@, k);
                lemma_lex_trichotomy(b, k);
            } else {
                lemma_next_prefix_unbounded(prefix@, k);
            }
        }
        if from > to {
            // The bound sorts after the prefix, so its place is not before.
            let b = next_prefix_spec(prefix@).unwrap();
            lemma_next_prefix_exact(prefix@, prefix@);
            assert(prefix@.is_prefix_of(prefix@)) by {
                assert(prefix@ =~= prefix@.subrange(0, prefix@.len() as int));
            }
            lemma_lex_lt_le(prefix@, b, pairs[to as int].0);
            lemma_lex_trichotomy(prefix@, pairs[to as int].0);
            assert(false);
        }
        lemma_listing_stretch(pairs, m, from as int, to as int, prefix@);
    }
    let mut found: Vec<(Vec<u8>, Vec<u8>)> = Vec::new();
    let mut i: usize = from;
    while i < to
        invariant
            from <= i <= to <= entries.len(),
            pairs == pairs_of(*entries),
            pairs_of(found) == pairs.subrange(from as int, i as int),
        decreases to - i,
    {
        let ghost before = pairs_of(found);
        let key: Vec<u8> = slice_to_vec(entries[i].0.as_slice());
        let value: Vec<u8> = slice_to_vec(entries[i].1.as_slice());
        found.push((key, value));
        assert(pairs_of(found) =~= before.push(pairs[i as int]));
        i += 1;
        assert(pairs_of(found) =~= pairs.subrange(from as int, i as int));
    }
    found
}

/// Takes out every entry whose key starts with `prefix`: scans for them,
/// then removes them one by one.
fn entries_remove_prefix(entries: &mut Vec<(Vec<u8>, Vec<u8>)>, prefix: &[u8])
    requires
        ascending(pairs_of(*old(entries))),
    ensures
        ascending(pairs_of(*final(entries))),
        replay(pairs_of(*final(entries))) == without_prefix(
            replay(pairs_of(*old(entries))),
            prefix@,
        ),
{
    let found = entries_scan(entries, prefix);
    let ghost m = replay(pairs_of(*entries));
    let ghost listed = pairs_of(found);
    assert(m.remove_keys(first_keys(listed, 0)) =~= m);
    let mut i: usize = 0;
    while i < found.len()
        invariant
            i <= found.len(),
            listed == pairs_of(found),
            ascending(pairs_of(*entries)),
            replay(pairs_of(*entries)) == m.remove_keys(first_keys(listed, i as int)),
        decreases found.len() - i,
    {
        entries_remove(entries, found[i].0.as_slice());
        proof {
            assert(listed[i as int].0 == found@[i as int].0@);
            lemma_remove_next_key(m, listed, i as int);
        }
        i += 1;
    }
    proof {
        lemma_remove_listed_keys(m, listed, prefix@);
    }
}

/// The entries in the opposite order.
pub(crate) fn entries_reversed(entries: &Vec<(Vec<u8>, Vec<u8>)>) -> (out: Vec<(Vec<u8>, Vec<u8>)>)
    ensures
        pairs_of(out) == pairs_of(*entries).reverse(),
{
    let ghost pairs = pairs_of(*entries);
    let mut out: Vec<(Vec<u8>, Vec<u8>)> = Vec::new();
    let mut i: usize = entries.len();
    while i > 0
        invariant
            i <= entries.len(),
            pairs == pairs_of(*entries),
            pairs_of(out) == pairs.reverse().take(entries.len() - i),
        decreases i,
    {
        let ghost before = pairs_of(out);
        i -= 1;
        let key: Vec<u8> = slice_to_vec(entries[i].0.as_slice());
        let value: Vec<u8> = slice_to_vec(entries[i].1.as_slice());
        out.push((key, value));
        assert(pairs_of(out) =~= before.push(pairs[i as int]));
        assert(pairs_of(out) =~= pairs.reverse().take(entries.len() - i));
    }
    assert(pairs.reverse().take(entries.len() as int) =~= pairs.reverse());
    out
}

/// What a commit asks to be written: the whole database, as one blob under
/// the database's name.
pub struct Snapshot {
    /// The name of the database, under which the blob is kept.
    pub name: String,
    /// Every pair of the database, in ascending order of the keys.
    pub entries: Vec<(Vec<u8>, Vec<u8>)>,
}

/// A named database that lives in memory.
pub struct PersistentMemDb {
    name: String,
    entries: Vec<(Vec<u8>, Vec<u8>)>,
}

/// One unit of work on a database. It reads and writes the database's map
/// directly, so it sees its own writes, and what it wrote stays in memory
/// when it is dropped. Only `commit_tx` asks for anything to be saved, so a
/// database that is opened again from its last snapshot has none of the
/// writes of a transaction that was dropped.
///
/// The contract of each operation ends with a clause on `final(..db)`: the
/// handle goes on to stand for the same database, so that what the database
/// holds in the end is what the handle held last.
pub struct PersistentMemDbTransaction<'a> {
    /// The database that the transaction works on.
    pub db: &'a mut PersistentMemDb,
}

impl PersistentMemDb {
    #[verifier::type_invariant]
    spec fn well_formed(self) -> bool {
        ascending(pairs_of(self.entries))
    }

    /// The map from keys to values that the database holds.
    pub closed spec fn view(&self) -> Map<Seq<u8>, Seq<u8>> {
        replay(pairs_of(self.entries))
    }

    /// The name of the database.
    pub closed spec fn label(&self) -> Seq<char> {
        self.name@
    }

    /// Opens the database `name`. `stored` is the snapshot that was last
    /// saved under that name, if there is one: its pairs are inserted one
    /// after the other. Without a snapshot the database starts empty.
    pub fn new(name: String, stored: Option<Vec<(Vec<u8>, Vec<u8>)>>) -> (db: PersistentMemDb)
        ensures
            db.label() == name@,
            db@ == match stored {
                Some(data) => replay(pairs_of(data)),
                None => Map::empty(),
            },
    {
        let mut entries: Vec<(Vec<u8>, Vec<u8>)> = Vec::new();
        if let Some(data) = stored {
            let ghost pairs = pairs_of(data);
            let mut i: usize = 0;
            while i < data.len()
                invariant
                    i <= data.len(),
                    pairs == pairs_of(data),
                    ascending(pairs_of(entries)),
                    replay(pairs_of(entries)) == replay(pairs.take(i as int)),
                decreases data.len() - i,
            {
                entries_insert(&mut entries, data[i].0.as_slice(), data[i].1.as_slice());
                i += 1;
                proof {
                    let upto = pairs.take(i as int);
                    assert(upto.drop_last() =~= pairs.take(i - 1));
                    assert(upto.last() == pairs[i - 1]);
                }
            }
            assert(pairs.take(i as int) =~= pairs);
        }
        PersistentMemDb { name, entries }
    }

    /// The name of the database.
    pub fn name(&self) -> (r: &str)
        ensures
            r@ == self.label(),
    {
        self.name.as_str()
    }

    /// Begins a transaction. While it lives it alone has the database; when
    /// it ends the database holds what the transaction last held.
    pub fn begin_transaction<'a>(&'a mut self) -> (tx: PersistentMemDbTransaction<'a>)
        ensures
            *tx.db == *old(self),
            *final(self) == *final(tx.db),
    {
        PersistentMemDbTransaction { db: self }
    }

    fn get(&self, key: &[u8]) -> (found: Option<Vec<u8>>)
        ensures
            bytes_of(found) == lookup(self@, key@),
    {
        proof {
            use_type_invariant(self);
        }
        entries_get(&self.entries, key)
    }

    fn put(&mut self, key: &[u8], value: &[u8]) -> (prev: Option<Vec<u8>>)
        ensures
            final(self)@ == old(self)@.insert(key@, value@),
            final(self).label() == old(self).label(),
            bytes_of(prev) == lookup(old(self)@, key@),
    {
        proof {
            use_type_invariant(&*self);
        }
        let mut entries: Vec<(Vec<u8>, Vec<u8>)> = Vec::new();
        std::mem::swap(&mut entries, &mut self.entries);
        let prev = entries_insert(&mut entries, key, value);
        self.entries = entries;
        prev
    }

    fn take(&mut self, key: &[u8]) -> (prev: Option<Vec<u8>>)
        ensures
            final(self)@ == old(self)@.remove(key@),
            final(self).label() == old(self).label(),
            bytes_of(prev) == lookup(old(self)@, key@),
    {
        proof {
            use_type_invariant(&*self);
        }
        let mut entries: Vec<(Vec<u8>, Vec<u8>)> = Vec::new();
        std::mem::swap(&mut entries, &mut self.entries);
        let prev = entries_remove(&mut entries, key);
        self.entries = entries;
        prev
    }

    fn take_prefix(&mut self, prefix: &[u8])
        ensures
            final(self)@ == without_prefix(old(self)@, prefix@),
            final(self).label() == old(self).label(),
    {
        proof {
            use_type_invariant(&*self);
        }
        let mut entries: Vec<(Vec<u8>, Vec<u8>)> = Vec::new();
        std::mem::swap(&mut entries, &mut self.entries);
        entries_remove_prefix(&mut entries, prefix);
        self.entries = entries;
    }

    fn snapshot(&self) -> (snapshot: Snapshot)
        ensures
            snapshot.name@ == self.label(),
            is_listing(pairs_of(snapshot.entries), self@),
    {
        let all: Vec<u8> = Vec::new();
        let entries = self.scan(all.as_slice());
        proof {
            assert(with_prefix(self@, all@) =~= self@);
        }
        Snapshot { name: self.name.clone(), entries }
    }

    fn scan(&self, prefix: &[u8]) -> (found: Vec<(Vec<u8>, Vec<u8>)>)
        ensures
            is_listing(pairs_of(found), with_prefix(self@, prefix@)),
    {
        proof {
            use_type_invariant(self);
        }
        entries_scan(&self.entries, prefix)
    }
}

impl<'a> PersistentMemDbTransaction<'a> {
    /// The map from keys to values that the transaction sees.
    pub open spec fn view(&self) -> Map<Seq<u8>, Seq<u8>> {
        self.db@
    }

    /// Puts `value` under `key`, whether or not the key was there, and gives
    /// back the value that it replaced.
    pub fn raw_insert_bytes(&mut self, key: &[u8], value: &[u8]) -> (r: Result<
        Option<Vec<u8>>,
        StoreError,
    >)
        ensures
            r matches Ok(prev) && bytes_of(prev) == lookup(old(self)@, key@),
            final(self)@ == old(self)@.insert(key@, value@),
            final(self).db.label() == old(self).db.label(),
            *final(final(self).db) == *final(old(self).db),
    {
        Ok(self.db.put(key, value))
    }

    /// The value under `key`, if there is one.
    pub fn raw_get_bytes(&mut self, key: &[u8]) -> (r: Result<Option<Vec<u8>>, StoreError>)
        ensures
            r matches Ok(found) && bytes_of(found) == lookup(old(self)@, key@),
            *final(self).db == *old(self).db,
            *final(final(self).db) == *final(old(self).db),
    {
        Ok(self.db.get(key))
    }

    /// Takes `key` out of the database and gives back the value that was
    /// under it. A key that is not there leaves the database as it is.
    pub fn raw_remove_entry(&mut self, key: &[u8]) -> (r: Result<Option<Vec<u8>>, StoreError>)
        ensures
            r matches Ok(prev) && bytes_of(prev) == lookup(old(self)@, key@),
            final(self)@ == old(self)@.remove(key@),
            final(self).db.label() == old(self).db.label(),
            *final(final(self).db) == *final(old(self).db),
    {
        Ok(self.db.take(key))
    }

    /// The pairs whose keys start with `key_prefix`, in ascending order of
    /// the keys. A key that equals the prefix is among them. The result is
    /// the listing of that part of the map, and a map has one listing only.
    pub fn raw_find_by_prefix(&mut self, key_prefix: &[u8]) -> (r: Result<
        Vec<(Vec<u8>, Vec<u8>)>,
        StoreError,
    >)
        ensures
            r matches Ok(found) && is_listing(
                pairs_of(found),
                with_prefix(old(self)@, key_prefix@),
            ),
            *final(self).db == *old(self).db,
            *final(final(self).db) == *final(old(self).db),
    {
        Ok(self.db.scan(key_prefix))
    }

    /// The pairs whose keys start with `key_prefix`, in descending order of
    /// the keys: the pairs of `raw_find_by_prefix`, the last one first.
    pub fn raw_find_by_prefix_sorted_descending(&mut self, key_prefix: &[u8]) -> (r: Result<
        Vec<(Vec<u8>, Vec<u8>)>,
        StoreError,
    >)
        ensures
            r matches Ok(found) && is_listing(
                pairs_of(found).reverse(),
                with_prefix(old(self)@, key_prefix@),
            ),
            *final(self).db == *old(self).db,
            *final(final(self).db) == *final(old(self).db),
    {
        let ascending = self.db.scan(key_prefix);
        let found = entries_reversed(&ascending);
        proof {
            assert(pairs_of(found).reverse() =~= pairs_of(ascending));
        }
        Ok(found)
    }

    /// Takes every key that starts with `key_prefix` out of the database.
    pub fn raw_remove_by_prefix(&mut self, key_prefix: &[u8]) -> (r: Result<(), StoreError>)
        ensures
            r is Ok,
            final(self)@ == without_prefix(old(self)@, key_prefix@),
            final(self).db.label() == old(self).db.label(),
            *final(final(self).db) == *final(old(self).db),
    {
        self.db.take_prefix(key_prefix);
        Ok(())
    }

    /// Savepoints are not supported: the call is refused and changes nothing.
    pub fn set_tx_savepoint(&mut self) -> (r: Result<(), StoreError>)
        ensures
            r == Err::<(), StoreError>(StoreError::SavepointsUnsupported),
            *final(self).db == *old(self).db,
            *final(final(self).db) == *final(old(self).db),
    {
        Err(StoreError::SavepointsUnsupported)
    }

    /// Savepoints are not supported: the call is refused and changes nothing.
    pub fn rollback_tx_to_savepoint(&mut self) -> (r: Result<(), StoreError>)
        ensures
            r == Err::<(), StoreError>(StoreError::SavepointsUnsupported),
            *final(self).db == *old(self).db,
            *final(final(self).db) == *final(old(self).db),
    {
        Err(StoreError::SavepointsUnsupported)
    }

    /// Ends the transaction and hands out what is to be saved: one snapshot
    /// that holds the whole database under its name. Replaying the snapshot
    /// gives the database back. The database itself stays as it is.
    pub fn commit_tx(self) -> (r: Result<Snapshot, StoreError>)
        ensures
            r matches Ok(snapshot) && snapshot.name@ == old(self.db).label() && is_listing(
                pairs_of(snapshot.entries),
                old(self.db)@,
            ) && replay(pairs_of(snapshot.entries)) == old(self.db)@,
            *final(self.db) == *old(self.db),
    {
        let snapshot = self.db.snapshot();
        proof {
            lemma_replay_listing(pairs_of(snapshot.entries), self.db@);
        }
        Ok(snapshot)
    }
}

} // verus!
