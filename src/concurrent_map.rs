//! A map from keys to values split over a fixed number of shards; the shard
//! of a key is its FNV-1a fingerprint modulo the number of shards.

use vstd::prelude::*;
use crate::object::Key;

verus! {

/// The FNV-1a offset basis.
pub const FNV_OFFSET: u64 = 0xcbf2_9ce4_8422_2325;

/// The FNV-1a prime.
pub const FNV_PRIME: u64 = 0x0000_0100_0000_01b3;

/// The 64-bit FNV-1a hash of `b`.
pub open spec fn fnv1a(b: Seq<u8>) -> u64
    decreases b.len(),
{
    if b.len() == 0 {
        FNV_OFFSET
    } else {
        vstd::wrapping::u64_specs::wrapping_mul(fnv1a(b.drop_last()) ^ (b.last() as u64), FNV_PRIME)
    }
}

/// The shard, among `n`, that hosts the key with bytes `k`.
pub open spec fn shard_of(k: Seq<u8>, n: nat) -> nat
    recommends
        n > 0,
{
    (fnv1a(k) as nat) % n
}

/// The FNV-1a hash of `b`: a stable fingerprint, the same in every process.
pub fn fingerprint(b: &[u8]) -> (r: u64)
    ensures
        r == fnv1a(b@),
{
    let mut h: u64 = FNV_OFFSET;
    let mut i: usize = 0;
    while i < b.len()
        invariant
            i <= b@.len(),
            h == fnv1a(b@.subrange(0, i as int)),
        decreases b@.len() - i,
    {
        proof {
            assert(b@.subrange(0, i + 1).drop_last() =~= b@.subrange(0, i as int));
        }
        h = (h ^ (b[i] as u64)).wrapping_mul(FNV_PRIME);
        i = i + 1;
    }
    assert(b@.subrange(0, b@.len() as int) =~= b@);
    h
}

/// One shard: entries with distinct keys, seen as a map. The entries are a
/// vector: vstd specifies `HashMap` only for key types known to follow its
/// hashing model, which a byte-string key cannot be shown to do.
struct Shard<V> {
    entries: Vec<(Key, V)>,
    contents: Ghost<Map<Seq<u8>, V>>,
}

impl<V> Shard<V> {
    spec fn wf(&self) -> bool {
        &&& forall|j: int|
            0 <= j < self.entries@.len() ==> {
                &&& self.contents@.contains_key(#[trigger] self.entries@[j].0@)
                &&& self.contents@[self.entries@[j].0@] == self.entries@[j].1
            }
        &&& forall|j1: int, j2: int|
            0 <= j1 < self.entries@.len() && 0 <= j2 < self.entries@.len() && j1 != j2
                ==> #[trigger] self.entries@[j1].0@ != #[trigger] self.entries@[j2].0@
        &&& forall|k: Seq<u8>|
            #[trigger] self.contents@.contains_key(k) ==> exists|j: int|
                0 <= j < self.entries@.len() && #[trigger] self.entries@[j].0@ == k
    }

    fn new() -> (r: Shard<V>)
        ensures
            r.wf(),
            r.contents@ == Map::<Seq<u8>, V>::empty(),
    {
        Shard { entries: Vec::new(), contents: Ghost(Map::empty()) }
    }

    fn find(&self, key: &Key) -> (r: Option<usize>)
        requires
            self.wf(),
        ensures
            r matches Some(j) ==> j < self.entries@.len() && self.entries@[j as int].0@ == key@,
            r is None ==> !self.contents@.contains_key(key@),
            r is None <==> !self.contents@.contains_key(key@),
    {
        let mut j: usize = 0;
        while j < self.entries.len()
            invariant
                self.wf(),
                j <= self.entries@.len(),
                forall|i: int| 0 <= i < j ==> self.entries@[i].0@ != key@,
            decreases self.entries@.len() - j,
        {
            if self.entries[j].0.same_as(key) {
                return Some(j);
            }
            j = j + 1;
        }
        None
    }

    fn get(&self, key: &Key) -> (r: Option<&V>)
        requires
            self.wf(),
        ensures
            r == (if self.contents@.contains_key(key@) {
                Some(&self.contents@[key@])
            } else {
                None
            }),
    {
        match self.find(key) {
            Some(j) => Some(&self.entries[j].1),
            None => None,
        }
    }

    fn remove(&mut self, key: &Key) -> (r: Option<V>)
        requires
            old(self).wf(),
        ensures
            final(self).wf(),
            final(self).contents@ == old(self).contents@.remove(key@),
            r == (if old(self).contents@.contains_key(key@) {
                Some(old(self).contents@[key@])
            } else {
                None
            }),
    {
        match self.find(key) {
            None => {
                assert(self.contents@.remove(key@) =~= self.contents@);
                None
            },
            Some(j) => {
                let ghost old_entries = self.entries@;
                let ghost old_contents = self.contents@;
                let (_, v) = self.entries.swap_remove(j);
                proof {
                    self.contents = Ghost(old_contents.remove(key@));
                    let last = old_entries.len() - 1;
                    assert forall|k: Seq<u8>| #[trigger]
                        self.contents@.contains_key(k) implies exists|i: int|
                        0 <= i < self.entries@.len() && #[trigger] self.entries@[i].0@ == k by {
                        let i = choose|i: int| 0 <= i < old_entries.len() && old_entries[i].0@ == k;
                        if i == last {
                            assert(self.entries@[j as int].0@ == k);
                        } else {
                            assert(self.entries@[i].0@ == k);
                        }
                    }
                    assert forall|i1: int, i2: int|
                        0 <= i1 < self.entries@.len() && 0 <= i2 < self.entries@.len() && i1
                            != i2 implies #[trigger] self.entries@[i1].0@
                        != #[trigger] self.entries@[i2].0@ by {
                        let o1 = if i1 == j { last } else { i1 };
                        let o2 = if i2 == j { last } else { i2 };
                        assert(self.entries@[i1] == old_entries[o1]);
                        assert(self.entries@[i2] == old_entries[o2]);
                    }
                    assert forall|i: int| 0 <= i < self.entries@.len() implies {
                        &&& self.contents@.contains_key(#[trigger] self.entries@[i].0@)
                        &&& self.contents@[self.entries@[i].0@] == self.entries@[i].1
                    } by {
                        let o = if i == j { last } else { i };
                        assert(self.entries@[i] == old_entries[o]);
                        assert(o != j);
                    }
                }
                Some(v)
            },
        }
    }

    fn push_new(&mut self, key: Key, value: V)
        requires
            old(self).wf(),
            !old(self).contents@.contains_key(key@),
        ensures
            final(self).wf(),
            final(self).contents@ == old(self).contents@.insert(key@, value),
    {
        let ghost k = key@;
        let ghost old_entries = self.entries@;
        let ghost old_contents = self.contents@;
        self.entries.push((key, value));
        proof {
            self.contents = Ghost(old_contents.insert(k, value));
            assert forall|q: Seq<u8>| #[trigger]
                self.contents@.contains_key(q) implies exists|i: int|
                0 <= i < self.entries@.len() && #[trigger] self.entries@[i].0@ == q by {
                if q == k {
                    assert(self.entries@[old_entries.len() as int].0@ == q);
                } else {
                    let i = choose|i: int| 0 <= i < old_entries.len() && old_entries[i].0@ == q;
                    assert(self.entries@[i].0@ == q);
                }
            }
            assert forall|i: int| 0 <= i < self.entries@.len() implies {
                &&& self.contents@.contains_key(#[trigger] self.entries@[i].0@)
                &&& self.contents@[self.entries@[i].0@] == self.entries@[i].1
            } by {
                if i < old_entries.len() {
                    assert(self.entries@[i] == old_entries[i]);
                }
            }
        }
    }
}

/// A map from keys to values over a fixed number of shards. Each key lives in
/// the one shard its fingerprint selects, for the life of the map. Changes
/// take `&mut self`: threads that share a map hold it behind a lock.
pub struct ConcurrentMap<V> {
    shards: Vec<Shard<V>>,
    contents: Ghost<Map<Seq<u8>, V>>,
}

impl<V> View for ConcurrentMap<V> {
    type V = Map<Seq<u8>, V>;

    closed spec fn view(&self) -> Map<Seq<u8>, V> {
        self.contents@
    }
}

impl<V> ConcurrentMap<V> {
    /// The shards are well-formed, each key lives in its own shard, and the
    /// map is the union of the shards.
    pub closed spec fn wf(&self) -> bool {
        &&& self.shards@.len() >= 1
        &&& forall|i: int| 0 <= i < self.shards@.len() ==> (#[trigger] self.shards@[i]).wf()
        &&& forall|i: int, k: Seq<u8>|
            #![trigger self.shards@[i].contents@.contains_key(k)]
            0 <= i < self.shards@.len() && self.shards@[i].contents@.contains_key(k)
                ==> shard_of(k, self.shards@.len() as nat) == i
        &&& forall|k: Seq<u8>|
            #![trigger self.contents@.contains_key(k)]
            self.contents@.contains_key(k) <==> self.shards@[shard_of(
                k,
                self.shards@.len() as nat,
            ) as int].contents@.contains_key(k)
        &&& forall|k: Seq<u8>|
            #![trigger self.contents@[k]]
            self.contents@.contains_key(k) ==> self.contents@[k] == self.shards@[shard_of(
                k,
                self.shards@.len() as nat,
            ) as int].contents@[k]
    }

    /// The number of shards.
    pub closed spec fn num_shards(&self) -> nat {
        self.shards@.len() as nat
    }

    /// An empty map over `num_shards` shards.
    pub fn new(num_shards: usize) -> (r: ConcurrentMap<V>)
        requires
            num_shards >= 1,
        ensures
            r.wf(),
            r@ == Map::<Seq<u8>, V>::empty(),
            r.num_shards() == num_shards,
    {
        let mut shards: Vec<Shard<V>> = Vec::new();
        let mut i: usize = 0;
        while i < num_shards
            invariant
                i <= num_shards,
                shards@.len() == i,
                forall|j: int|
                    0 <= j < i ==> (#[trigger] shards@[j]).wf() && shards@[j].contents@
                        == Map::<Seq<u8>, V>::empty(),
            decreases num_shards - i,
        {
            shards.push(Shard::new());
            i = i + 1;
        }
        ConcurrentMap { shards, contents: Ghost(Map::empty()) }
    }

    /// The index of the shard that hosts `key`.
    pub fn shard_index(&self, key: &Key) -> (r: usize)
        requires
            self.wf(),
        ensures
            r == shard_of(key@, self.num_shards()),
            r < self.num_shards(),
    {
        (fingerprint(key.as_bytes()) % (self.shards.len() as u64)) as usize
    }

    /// The value stored under `key`, if any.
    pub fn get(&self, key: &Key) -> (r: Option<&V>)
        requires
            self.wf(),
        ensures
            r == (if self@.contains_key(key@) {
                Some(&self@[key@])
            } else {
                None
            }),
    {
        let i = self.shard_index(key);
        let r = self.shards[i].get(key);
        proof {
            if self@.contains_key(key@) {
                assert(self.contents@[key@] == self.shards@[i as int].contents@[key@]);
            }
        }
        r
    }

    /// Removes the value stored under `key`, returning it.
    pub fn remove(&mut self, key: &Key) -> (r: Option<V>)
        requires
            old(self).wf(),
        ensures
            final(self).wf(),
            final(self)@ == old(self)@.remove(key@),
            final(self).num_shards() == old(self).num_shards(),
            r == (if old(self)@.contains_key(key@) {
                Some(old(self)@[key@])
            } else {
                None
            }),
    {
        let i = self.shard_index(key);
        let ghost old_shards = self.shards@;
        let ghost old_contents = self.contents@;
        let ghost n = self.shards@.len() as nat;
        assert(self.shards@[i as int].wf());
        let r = self.shards[i].remove(key);
        proof {
            self.contents = Ghost(old_contents.remove(key@));
            assert forall|j: int| 0 <= j < self.shards@.len() implies (
            #[trigger] self.shards@[j]).wf() by {
                if j != i {
                    assert(self.shards@[j] == old_shards[j]);
                }
            }
            assert forall|j: int, k: Seq<u8>|
                #![trigger self.shards@[j].contents@.contains_key(k)]
                0 <= j < self.shards@.len() && self.shards@[j].contents@.contains_key(k)
                implies shard_of(k, n) == j by {
                if j != i {
                    assert(self.shards@[j] == old_shards[j]);
                } else {
                    assert(old_shards[j].contents@.contains_key(k));
                }
            }
            assert forall|k: Seq<u8>|
                #![trigger self.contents@.contains_key(k)]
                self.contents@.contains_key(k) <==> self.shards@[shard_of(
                    k,
                    n,
                ) as int].contents@.contains_key(k) by {
                if shard_of(k, n) != i {
                    assert(self.shards@[shard_of(k, n) as int] == old_shards[shard_of(
                        k,
                        n,
                    ) as int]);
                    assert(old_contents.contains_key(k) <==> old_shards[shard_of(
                        k,
                        n,
                    ) as int].contents@.contains_key(k));
                }
            }
            assert forall|k: Seq<u8>|
                #![trigger self.contents@[k]]
                self.contents@.contains_key(k) implies self.contents@[k] == self.shards@[shard_of(
                    k,
                    n,
                ) as int].contents@[k] by {
                assert(old_contents.contains_key(k));
                assert(old_contents[k] == old_shards[shard_of(k, n) as int].contents@[k]);
                if shard_of(k, n) != i {
                    assert(self.shards@[shard_of(k, n) as int] == old_shards[shard_of(
                        k,
                        n,
                    ) as int]);
                }
            }
            if old_contents.contains_key(key@) {
                assert(old_contents[key@] == old_shards[i as int].contents@[key@]);
            }
        }
        r
    }

    /// Stores `value` under `key`, returning the value it replaces.
    pub fn insert(&mut self, key: Key, value: V) -> (r: Option<V>)
        requires
            old(self).wf(),
        ensures
            final(self).wf(),
            final(self)@ == old(self)@.insert(key@, value),
            final(self).num_shards() == old(self).num_shards(),
            r == (if old(self)@.contains_key(key@) {
                Some(old(self)@[key@])
            } else {
                None
            }),
    {
        let r = self.remove(&key);
        let i = self.shard_index(&key);
        let ghost k = key@;
        let ghost old_shards = self.shards@;
        let ghost old_contents = self.contents@;
        let ghost n = self.shards@.len() as nat;
        assert(self.shards@[i as int].wf());
        assert(!self.contents@.contains_key(k));
        assert(!self.shards@[i as int].contents@.contains_key(k));
        self.shards[i].push_new(key, value);
        proof {
            self.contents = Ghost(old_contents.insert(k, value));
            assert forall|j: int| 0 <= j < self.shards@.len() implies (
            #[trigger] self.shards@[j]).wf() by {
                if j != i {
                    assert(self.shards@[j] == old_shards[j]);
                }
            }
            assert forall|j: int, q: Seq<u8>|
                #![trigger self.shards@[j].contents@.contains_key(q)]
                0 <= j < self.shards@.len() && self.shards@[j].contents@.contains_key(q)
                implies shard_of(q, n) == j by {
                if j != i {
                    assert(self.shards@[j] == old_shards[j]);
                } else if q != k {
                    assert(old_shards[j].contents@.contains_key(q));
                }
            }
            assert forall|q: Seq<u8>|
                #![trigger self.contents@.contains_key(q)]
                self.contents@.contains_key(q) <==> self.shards@[shard_of(
                    q,
                    n,
                ) as int].contents@.contains_key(q) by {
                if shard_of(q, n) != i {
                    assert(self.shards@[shard_of(q, n) as int] == old_shards[shard_of(
                        q,
                        n,
                    ) as int]);
                    assert(old_contents.contains_key(q) <==> old_shards[shard_of(
                        q,
                        n,
                    ) as int].contents@.contains_key(q));
                } else if q != k {
                    assert(old_contents.contains_key(q) <==> old_shards[shard_of(
                        q,
                        n,
                    ) as int].contents@.contains_key(q));
                }
            }
            assert forall|q: Seq<u8>|
                #![trigger self.contents@[q]]
                self.contents@.contains_key(q) implies self.contents@[q] == self.shards@[shard_of(
                    q,
                    n,
                ) as int].contents@[q] by {
                if q != k {
                    assert(old_contents.contains_key(q));
                    assert(old_contents[q] == old_shards[shard_of(q, n) as int].contents@[q]);
                    if shard_of(q, n) != i {
                        assert(self.shards@[shard_of(q, n) as int] == old_shards[shard_of(
                            q,
                            n,
                        ) as int]);
                    }
                }
            }
        }
        r
    }
}

} // verus!
