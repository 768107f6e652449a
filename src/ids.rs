//! Identities of nodes, and the source that hands them out.
use vstd::prelude::*;
use vstd::set_lib::*;

verus! {

/// Identity of a node, and one half of the identity of a connection.
#[derive(Clone, Copy, PartialEq, Eq, Structural, Hash, Debug, PartialOrd, Ord)]
pub struct Id(pub u64);

/// One structural context of the cache and the identities handed out for it so far.
#[derive(Debug)]
pub struct CacheEntry {
    pub key: (Id, Id),
    pub ids: Vec<Id>,
}

/// Generator and cache of node identities.
///
/// `next` is the first identity never handed out. For each structural context (a pair of
/// identities) the cache keeps the identities handed out for it, in order, so that the same
/// structural mutation performed on different genomes yields the same identities.
#[derive(Debug)]
pub struct IdGenerator {
    next: u64,
    cache: Vec<CacheEntry>,
}

/// Position of the entry for `key` in `entries`, if any.
pub open spec fn entry_index(entries: Seq<CacheEntry>, key: (Id, Id)) -> int {
    choose|i: int| 0 <= i < entries.len() && entries[i].key == key
}

/// Some entry of `entries` is for `key`.
pub open spec fn has_entry(entries: Seq<CacheEntry>, key: (Id, Id)) -> bool {
    exists|i: int| 0 <= i < entries.len() && entries[i].key == key
}

/// `v` holds `x`.
fn vec_contains(v: &Vec<Id>, x: Id) -> (r: bool)
    ensures
        r == v@.contains(x),
{
    let mut i: usize = 0;
    while i < v.len()
        invariant
            i <= v@.len(),
            forall|j: int| 0 <= j < i ==> v@[j] != x,
        decreases v@.len() - i,
    {
        if v[i].0 == x.0 {
            assert(v@[i as int] == x);
            return true;
        }
        i = i + 1;
    }
    false
}

/// Distinct values all held by `taken` are no more than `taken` is long.
pub proof fn lemma_pigeonhole(a: Seq<Id>, taken: Seq<Id>)
    requires
        a.no_duplicates(),
        forall|i: int| 0 <= i < a.len() ==> taken.contains(#[trigger] a[i]),
    ensures
        a.len() <= taken.len(),
{
    a.unique_seq_to_set();
    taken.lemma_cardinality_of_set();
    assert(a.to_set().subset_of(taken.to_set())) by {
        assert forall|x: Id| a.to_set().contains(x) implies taken.to_set().contains(x) by {
            let i = choose|i: int| 0 <= i < a.len() && a[i] == x;
            assert(taken.contains(a[i]));
        }
    }
    lemma_len_subset(a.to_set(), taken.to_set());
}

impl IdGenerator {
    /// Every context's identities in `earlier` are still the first ones in `self`: the cache
    /// only ever grows at the end.
    pub open spec fn extends(&self, earlier: IdGenerator) -> bool {
        forall|key: (Id, Id)|
            #![trigger self.cached(key)]
            self.cached(key).len() >= earlier.cached(key).len() && self.cached(key).subrange(
                0,
                earlier.cached(key).len() as int,
            ) == earlier.cached(key)
    }

    /// A cache extends itself.
    pub proof fn lemma_extends_itself(&self)
        ensures
            self.extends(*self),
    {
        assert forall|key: (Id, Id)| #[trigger] self.cached(key).subrange(0, self.cached(key).len() as int) == self.cached(key) by {
            assert(self.cached(key).subrange(0, self.cached(key).len() as int) =~= self.cached(key));
        }
    }

    /// Extending is transitive.
    pub proof fn lemma_extends_trans(&self, mid: IdGenerator, earlier: IdGenerator)
        requires
            self.extends(mid),
            mid.extends(earlier),
        ensures
            self.extends(earlier),
    {
        assert forall|key: (Id, Id)| #[trigger] self.cached(key).subrange(0, earlier.cached(key).len() as int) == earlier.cached(key) by {
            assert(self.cached(key).subrange(0, mid.cached(key).len() as int) == mid.cached(key));
            assert(mid.cached(key).subrange(0, earlier.cached(key).len() as int) == earlier.cached(key));
            assert(self.cached(key).subrange(0, earlier.cached(key).len() as int) =~= self.cached(key).subrange(0, mid.cached(key).len() as int).subrange(0, earlier.cached(key).len() as int));
        }
    }

    /// The first identity that was never handed out.
    pub closed spec fn counter(&self) -> nat {
        self.next as nat
    }

    /// The identities handed out so far for the context `key`, in order.
    pub closed spec fn cached(&self, key: (Id, Id)) -> Seq<Id> {
        if has_entry(self.cache@, key) {
            self.cache@[entry_index(self.cache@, key)].ids@
        } else {
            Seq::empty()
        }
    }

    /// Keys are unique, and every identity in the cache was handed out before `next`.
    pub closed spec fn wf(&self) -> bool {
        &&& forall|i: int, j: int|
            0 <= i < j < self.cache@.len() ==> self.cache@[i].key != self.cache@[j].key
        &&& forall|i: int, j: int|
            #![trigger self.cache@[i].ids@[j]]
            0 <= i < self.cache@.len() && 0 <= j < self.cache@[i].ids@.len()
                ==> self.cache@[i].ids@[j].0 < self.next
        &&& forall|i: int, a: int, b: int|
            0 <= i < self.cache@.len() && 0 <= a < b < self.cache@[i].ids@.len()
                ==> #[trigger] self.cache@[i].ids@[a].0 < #[trigger] self.cache@[i].ids@[b].0
    }

    /// A generator that has handed out nothing.
    pub fn new() -> (r: IdGenerator)
        ensures
            r.wf(),
            r.counter() == 0,
            forall|key: (Id, Id)| r.cached(key) == Seq::<Id>::empty(),
    {
        IdGenerator { next: 0, cache: Vec::new() }
    }

    /// Returns an identity that was never handed out before: the counter, which then advances.
    pub fn next_id(&mut self) -> (r: Id)
        requires
            old(self).wf(),
            old(self).counter() < u64::MAX,
        ensures
            final(self).wf(),
            r.0 == old(self).counter(),
            final(self).counter() == old(self).counter() + 1,
            forall|key: (Id, Id)| final(self).cached(key) == old(self).cached(key),
            final(self).extends(*old(self)),
    {
        let r = Id(self.next);
        self.next = self.next + 1;
        proof {
            assert forall|key: (Id, Id)| #[trigger] self.cached(key).subrange(0, old(self).cached(key).len() as int) == old(self).cached(key) by {
                assert(self.cached(key).subrange(0, old(self).cached(key).len() as int) =~= old(self).cached(key));
            }
        }
        r
    }

    /// Returns the `index`-th identity for the context `key`: the cached one if the cache holds
    /// that many, else the cache for `key` is first filled up with fresh identities.
    pub fn cached_id(&mut self, key: (Id, Id), index: usize) -> (r: Id)
        requires
            old(self).wf(),
            index >= old(self).cached(key).len() ==> old(self).counter() + index + 1 - old(
                self,
            ).cached(key).len() < u64::MAX,
        ensures
            final(self).wf(),
            index < old(self).cached(key).len() ==> {
                &&& r == old(self).cached(key)[index as int]
                &&& final(self).counter() == old(self).counter()
                &&& final(self).cached(key) == old(self).cached(key)
            },
            index >= old(self).cached(key).len() ==> {
                let fresh = index + 1 - old(self).cached(key).len();
                &&& final(self).counter() == old(self).counter() + fresh
                &&& final(self).cached(key).len() == index + 1
                &&& final(self).cached(key).subrange(0, old(self).cached(key).len() as int)
                    == old(self).cached(key)
                &&& forall|j: int|
                    old(self).cached(key).len() <= j <= index ==> #[trigger] final(self).cached(
                        key,
                    )[j].0 == old(self).counter() + (j - old(self).cached(key).len())
                &&& r == final(self).cached(key)[index as int]
            },
            forall|other: (Id, Id)| other != key ==> final(self).cached(other) == old(self).cached(other),
            final(self).extends(*old(self)),
    {
        let mut pos: usize = 0;
        let n = self.cache.len();
        while pos < n && !(self.cache[pos].key.0 == key.0 && self.cache[pos].key.1 == key.1)
            invariant
                n == self.cache@.len(),
                pos <= n,
                forall|i: int| 0 <= i < pos ==> self.cache@[i].key != key,
            decreases n - pos,
        {
            pos = pos + 1;
        }
        if pos == n {
            self.cache.push(CacheEntry { key, ids: Vec::new() });
            proof {
                assert(!has_entry(old(self).cache@, key));
                assert(self.cache@[n as int].key == key);
                assert(entry_index(self.cache@, key) == n as int);
                assert forall|other: (Id, Id)| other != key implies self.cached(other) == old(
                    self,
                ).cached(other) by {
                    if has_entry(old(self).cache@, other) {
                        let k = entry_index(old(self).cache@, other);
                        assert(self.cache@[k].key == other);
                        assert(entry_index(self.cache@, other) == k);
                    }
                    if has_entry(self.cache@, other) {
                        let k = entry_index(self.cache@, other);
                        assert(k != n);
                        assert(old(self).cache@[k].key == other);
                    }
                }
            }
        }
        proof {
            assert(self.cache@[pos as int].key == key);
            assert(entry_index(self.cache@, key) == pos as int);
        }
        let ghost mid = *self;
        let ghost start_len = self.cache@[pos as int].ids@.len();
        assert(mid.cached(key) == old(self).cached(key)) by {
            if has_entry(old(self).cache@, key) {
                assert(old(self).cache@[pos as int].key == key);
                assert(entry_index(old(self).cache@, key) == pos as int);
            }
        }
        while self.cache[pos].ids.len() <= index
            invariant
                self.wf(),
                pos < self.cache@.len(),
                self.cache@.len() == mid.cache@.len(),
                self.cache@[pos as int].key == key,
                forall|i: int| 0 <= i < self.cache@.len() && i != pos ==> self.cache@[i] == mid.cache@[i],
                forall|i: int| 0 <= i < self.cache@.len() ==> self.cache@[i].key == mid.cache@[i].key,
                start_len <= self.cache@[pos as int].ids@.len(),
                self.cache@[pos as int].ids@.len() <= index + 1 || self.cache@[pos as int].ids@.len()
                    == start_len,
                self.cache@[pos as int].ids@.subrange(0, start_len as int)
                    == mid.cache@[pos as int].ids@,
                self.next == mid.next + (self.cache@[pos as int].ids@.len() - start_len),
                index >= start_len ==> mid.next + index + 1 - start_len < u64::MAX,
                forall|j: int|
                    start_len <= j < self.cache@[pos as int].ids@.len()
                        ==> #[trigger] self.cache@[pos as int].ids@[j].0 == mid.next + (j - start_len),
            decreases index + 1 - self.cache@[pos as int].ids@.len(),
        {
            let fresh = Id(self.next);
            let ghost before = self.cache@;
            assert forall|i: int, j: int|
                0 <= i < before.len() && 0 <= j < before[i].ids@.len() implies #[trigger] before[i].ids@[j].0
                < fresh.0 by {
                assert(self.cache@[i].ids@[j].0 < self.next);
            }
            self.next = self.next + 1;
            self.cache[pos].ids.push(fresh);
            proof {
                assert forall|i: int, j: int|
                    0 <= i < self.cache@.len() && 0 <= j < self.cache@[i].ids@.len() implies #[trigger] self.cache@[i].ids@[j].0
                    < self.next by {
                    if i != pos {
                        assert(self.cache@[i] == before[i]);
                    } else if j < before[i].ids@.len() {
                        assert(self.cache@[i].ids@[j] == before[i].ids@[j]);
                    }
                }
                assert forall|i: int, a: int, b: int|
                    0 <= i < self.cache@.len() && 0 <= a < b < self.cache@[i].ids@.len() implies #[trigger] self.cache@[i].ids@[a].0
                    < #[trigger] self.cache@[i].ids@[b].0 by {
                    if i != pos {
                        assert(self.cache@[i] == before[i]);
                    } else {
                        assert(self.cache@[i].ids@[a] == before[i].ids@[a]);
                        assert(before[i].ids@[a].0 < self.next - 1);
                        if b < before[i].ids@.len() {
                            assert(self.cache@[i].ids@[b] == before[i].ids@[b]);
                        }
                    }
                }
                assert(self.cache@[pos as int].ids@.subrange(0, start_len as int)
                    =~= mid.cache@[pos as int].ids@);
            }
        }
        let r = self.cache[pos].ids[index];
        proof {
            assert(entry_index(self.cache@, key) == pos as int);
            assert forall|other: (Id, Id)| other != key implies self.cached(other) == mid.cached(
                other,
            ) by {
                if has_entry(mid.cache@, other) {
                    let k = entry_index(mid.cache@, other);
                    assert(self.cache@[k].key == other);
                    assert(entry_index(self.cache@, other) == k);
                }
                if has_entry(self.cache@, other) {
                    let k = entry_index(self.cache@, other);
                    assert(mid.cache@[k].key == other);
                }
            }
            if index < start_len {
                assert(self.cache@[pos as int].ids@ =~= mid.cache@[pos as int].ids@);
            }
            assert forall|k: (Id, Id)| #[trigger] self.cached(k).subrange(0, old(self).cached(k).len() as int) == old(self).cached(k) by {
                if k != key {
                    assert(self.cached(k).subrange(0, old(self).cached(k).len() as int) =~= old(self).cached(k));
                }
            }
        }
        r
    }

    /// How many identities can still be handed out.
    pub fn room(&self) -> (r: u64)
        ensures
            r == u64::MAX - self.counter(),
    {
        u64::MAX - self.next
    }

    /// The identities cached for a context are strictly increasing.
    pub proof fn lemma_cached_increasing(&self, key: (Id, Id))
        requires
            self.wf(),
        ensures
            forall|a: int, b: int|
                0 <= a < b < self.cached(key).len() ==> #[trigger] self.cached(key)[a].0
                    < #[trigger] self.cached(key)[b].0,
    {
        if has_entry(self.cache@, key) {
            let i = entry_index(self.cache@, key);
            assert forall|a: int, b: int| 0 <= a < b < self.cached(key).len() implies #[trigger] self.cached(key)[a].0
                < #[trigger] self.cached(key)[b].0 by {
                assert(self.cache@[i].ids@[a].0 < self.cache@[i].ids@[b].0);
            }
        }
    }

    /// The first identity cached for the context `key` (extending the cache as needed) that
    /// `taken` does not hold.
    pub fn cached_id_avoiding(&mut self, key: (Id, Id), taken: &Vec<Id>) -> (r: Id)
        requires
            old(self).wf(),
            old(self).counter() + taken@.len() + 1 < u64::MAX,
        ensures
            final(self).wf(),
            !taken@.contains(r),
            exists|k: int|
                0 <= k < final(self).cached(key).len() && final(self).cached(key)[k] == r && forall|j: int|
                    0 <= j < k ==> taken@.contains(#[trigger] final(self).cached(key)[j]),
            final(self).counter() >= old(self).counter(),
            final(self).counter() <= old(self).counter() + taken@.len() + 1,
            forall|other: (Id, Id)| other != key ==> final(self).cached(other) == old(self).cached(other),
            final(self).cached(key).len() >= old(self).cached(key).len(),
            final(self).cached(key).subrange(0, old(self).cached(key).len() as int) == old(self).cached(key),
            final(self).extends(*old(self)),
    {
        let mut k: usize = 0;
        let tl = taken.len();
        loop
            invariant
                tl == taken@.len(),
                self.wf(),
                old(self).counter() + taken@.len() + 1 < u64::MAX,
                k <= taken@.len(),
                self.counter() >= old(self).counter(),
                self.counter() <= old(self).counter() + (if k > old(self).cached(key).len() { k - old(self).cached(key).len() } else { 0 }),
                k <= self.cached(key).len() || k == 0 || k <= old(self).cached(key).len(),
                self.cached(key).len() >= k,
                forall|j: int| 0 <= j < k ==> taken@.contains(#[trigger] self.cached(key)[j]),
                forall|other: (Id, Id)| other != key ==> self.cached(other) == old(self).cached(other),
                self.cached(key).len() >= old(self).cached(key).len(),
                self.cached(key).subrange(0, old(self).cached(key).len() as int) == old(self).cached(key),
            decreases taken@.len() + 1 - k,
        {
            let ghost prev = *self;
            let id = self.cached_id(key, k);
            proof {
                if k >= prev.cached(key).len() {
                    assert(self.cached(key).subrange(0, prev.cached(key).len() as int) == prev.cached(key));
                    assert forall|j: int| 0 <= j < k implies taken@.contains(#[trigger] self.cached(key)[j]) by {
                        assert(self.cached(key)[j] == self.cached(key).subrange(0, prev.cached(key).len() as int)[j]);
                    }
                    assert(self.cached(key).subrange(0, old(self).cached(key).len() as int) =~= self.cached(key).subrange(0, prev.cached(key).len() as int).subrange(0, old(self).cached(key).len() as int));
                }
            }
            if !vec_contains(taken, id) {
                proof {
                    assert forall|k2: (Id, Id)| #[trigger] self.cached(k2).subrange(0, old(self).cached(k2).len() as int) == old(self).cached(k2) by {
                        if k2 != key {
                            assert(self.cached(k2).subrange(0, old(self).cached(k2).len() as int) =~= old(self).cached(k2));
                        }
                    }
                }
                return id;
            }
            proof {
                self.lemma_cached_increasing(key);
                let a = self.cached(key).subrange(0, k + 1);
                assert forall|x: int, y: int| 0 <= x < a.len() && 0 <= y < a.len() && x != y implies a[x] != a[y] by {
                    if x < y {
                        assert(self.cached(key)[x].0 < self.cached(key)[y].0);
                    } else {
                        assert(self.cached(key)[y].0 < self.cached(key)[x].0);
                    }
                }
                lemma_pigeonhole(a, taken@);
            }
            k = k + 1;
        }
    }

    /// A cursor over the identities for the context `key`, starting at the first one.
    pub fn cached_id_iter(&mut self, key: (Id, Id)) -> (r: IdIter)
        ensures
            r.key == key,
            r.position == 0,
            *final(self) == *old(self),
    {
        IdIter { key, position: 0 }
    }
}

impl Default for IdGenerator {
    /// A generator that has handed out nothing.
    fn default() -> (r: IdGenerator)
        ensures
            r.wf(),
            r.counter() == 0,
            forall|key: (Id, Id)| r.cached(key) == Seq::<Id>::empty(),
    {
        IdGenerator::new()
    }
}

/// A cursor over the identities that an [`IdGenerator`] hands out for one context; each step
/// extends the cache where it runs out.
#[derive(Debug, Clone, Copy)]
pub struct IdIter {
    pub key: (Id, Id),
    pub position: usize,
}

impl IdIter {
    /// The identity at the cursor (the cached one, or a fresh one added to the cache), after
    /// which the cursor advances.
    pub fn next(&mut self, generator: &mut IdGenerator) -> (r: Option<Id>)
        requires
            old(generator).wf(),
            old(generator).counter() + old(self).position + 1 < u64::MAX,
            old(self).position < usize::MAX,
        ensures
            final(generator).wf(),
            final(self).key == old(self).key,
            final(self).position == old(self).position + 1,
            r == Some(final(generator).cached(old(self).key)[old(self).position as int]),
            old(self).position < old(generator).cached(old(self).key).len() ==> final(generator).counter() == old(generator).counter(),
            old(self).position >= old(generator).cached(old(self).key).len() ==> final(generator).counter() > old(generator).counter(),
            final(generator).extends(*old(generator)),
    {
        let id = generator.cached_id(self.key, self.position);
        self.position = self.position + 1;
        Some(id)
    }
}

} // verus!
