//! The in-memory store: objects under keys, with the time of their last
//! write, over a sharded map.

use vstd::prelude::*;
use crate::concurrent_map::ConcurrentMap;
use crate::object::{Key, Object};

verus! {

/// An operation on a store: a key with `Some(encoding)` for a write of that
/// object, `None` for a removal.
pub type StoreOp = (Seq<u8>, Option<Seq<u8>>);

/// What a read of `k` returns from contents `m`: the stored encoding, or the
/// null object's.
pub open spec fn lookup(m: Map<Seq<u8>, Seq<u8>>, k: Seq<u8>) -> Seq<u8> {
    if m.contains_key(k) {
        m[k]
    } else {
        seq![0u8]
    }
}

/// Contents `m` after the operation `op`.
pub open spec fn apply_op(m: Map<Seq<u8>, Seq<u8>>, op: StoreOp) -> Map<Seq<u8>, Seq<u8>> {
    match op.1 {
        Some(v) => m.insert(op.0, v),
        None => m.remove(op.0),
    }
}

/// Contents `m` after the operations `ops`, first to last.
pub open spec fn apply_ops(m: Map<Seq<u8>, Seq<u8>>, ops: Seq<StoreOp>) -> Map<Seq<u8>, Seq<u8>>
    decreases ops.len(),
{
    if ops.len() == 0 {
        m
    } else {
        apply_op(apply_ops(m, ops.drop_last()), ops.last())
    }
}

/// The object written by the last operation of `ops` on `k`, if that
/// operation is a write.
pub open spec fn latest(ops: Seq<StoreOp>, k: Seq<u8>) -> Option<Seq<u8>>
    decreases ops.len(),
{
    if ops.len() == 0 {
        None
    } else if ops.last().0 == k {
        ops.last().1
    } else {
        latest(ops.drop_last(), k)
    }
}

/// After any sequence of writes and removals on an empty store, a read of a
/// key returns the object of the most recent write to it that no removal
/// followed, and the null object when there is none.
pub proof fn law_last_write_wins(ops: Seq<StoreOp>, k: Seq<u8>)
    ensures
        lookup(apply_ops(Map::empty(), ops), k) == match latest(ops, k) {
            Some(v) => v,
            None => seq![0u8],
        },
        apply_ops(Map::empty(), ops).contains_key(k) == latest(ops, k) is Some,
    decreases ops.len(),
{
    if ops.len() > 0 {
        law_last_write_wins(ops.drop_last(), k);
    }
}

/// A store operation could not be carried out.
#[derive(Debug, Clone, Copy, PartialEq, Eq, Structural)]
pub struct StoreError;

/// An object with the time, in seconds since the Unix epoch, of its last
/// write.
#[derive(Debug)]
pub struct StoredEntry {
    pub object: Object,
    pub updated_at: u64,
}

/// Objects stored in memory under keys, over a sharded map.
pub struct InMemoryStore {
    map: ConcurrentMap<StoredEntry>,
}

impl InMemoryStore {
    /// The underlying map is well-formed.
    pub closed spec fn wf(&self) -> bool {
        self.map.wf()
    }

    /// The encoding of the object stored under each key.
    pub closed spec fn contents(&self) -> Map<Seq<u8>, Seq<u8>> {
        Map::new(|k: Seq<u8>| self.map@.contains_key(k), |k: Seq<u8>| self.map@[k].object@)
    }

    /// The time of the last write of each stored key.
    pub closed spec fn times(&self) -> Map<Seq<u8>, u64> {
        Map::new(|k: Seq<u8>| self.map@.contains_key(k), |k: Seq<u8>| self.map@[k].updated_at)
    }

    /// An empty store over `num_shards` shards.
    pub fn new(num_shards: usize) -> (r: InMemoryStore)
        requires
            num_shards >= 1,
        ensures
            r.wf(),
            r.contents() == Map::<Seq<u8>, Seq<u8>>::empty(),
    {
        let r = InMemoryStore { map: ConcurrentMap::new(num_shards) };
        assert(r.contents() =~= Map::<Seq<u8>, Seq<u8>>::empty());
        r
    }

    /// Stores `object` under `key` with the time `now` (seconds since the
    /// Unix epoch, read by the caller), returning the object it replaces, or
    /// null.
    pub fn store(&mut self, key: Key, object: Object, now: u64) -> (r: Result<
        Object,
        StoreError,
    >)
        requires
            old(self).wf(),
        ensures
            final(self).wf(),
            final(self).contents() == old(self).contents().insert(key@, object@),
            final(self).times() == old(self).times().insert(key@, now),
            r matches Ok(prior) && prior@ == lookup(old(self).contents(), key@),
    {
        let ghost k = key@;
        let ghost o = object@;
        let prior = self.map.insert(key, StoredEntry { object, updated_at: now });
        assert(self.contents() =~= old(self).contents().insert(k, o));
        assert(self.times() =~= old(self).times().insert(k, now));
        match prior {
            Some(entry) => Ok(entry.object),
            None => Ok(Object::null()),
        }
    }

    /// A copy of the object stored under `key`, or null.
    pub fn retrieve(&self, key: &Key) -> (r: Result<Object, StoreError>)
        requires
            self.wf(),
        ensures
            r matches Ok(o) && o@ == lookup(self.contents(), key@),
    {
        match self.map.get(key) {
            Some(entry) => Ok(entry.object.clone()),
            None => Ok(Object::null()),
        }
    }

    /// Removes the object stored under `key`, returning it, or null.
    pub fn remove(&mut self, key: &Key) -> (r: Result<Object, StoreError>)
        requires
            old(self).wf(),
        ensures
            final(self).wf(),
            final(self).contents() == old(self).contents().remove(key@),
            final(self).times() == old(self).times().remove(key@),
            r matches Ok(prior) && prior@ == lookup(old(self).contents(), key@),
    {
        let prior = self.map.remove(key);
        assert(self.contents() =~= old(self).contents().remove(key@));
        assert(self.times() =~= old(self).times().remove(key@));
        match prior {
            Some(entry) => Ok(entry.object),
            None => Ok(Object::null()),
        }
    }

    /// The time of the last write under `key`, or 0 when nothing is stored
    /// there.
    pub fn updated_at(&self, key: &Key) -> (r: u64)
        requires
            self.wf(),
        ensures
            r == (if self.times().contains_key(key@) {
                self.times()[key@]
            } else {
                0
            }),
    {
        match self.map.get(key) {
            Some(entry) => entry.updated_at,
            None => 0,
        }
    }
}

} // verus!
