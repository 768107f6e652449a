//! Sets of genes: collections that hold at most one gene per key, and their algebra.
use crate::rng::GenomeRng;
use vstd::multiset::Multiset;
use vstd::prelude::*;

verus! {

/// A gene: a value identified by a key, whatever else it carries.
pub trait Gene: Copy {
    /// The identity of the gene.
    spec fn key(&self) -> (u64, u64);

    fn gene_key(&self) -> (r: (u64, u64))
        ensures
            r == self.key(),
    ;
}

/// Some gene of `s` has key `k`.
pub open spec fn has_key<T: Gene>(s: Seq<T>, k: (u64, u64)) -> bool {
    exists|i: int| 0 <= i < s.len() && (#[trigger] s[i]).key() == k
}

/// No two genes of `s` share a key.
pub open spec fn keys_unique<T: Gene>(s: Seq<T>) -> bool {
    forall|i: int, j: int| 0 <= i < s.len() && 0 <= j < s.len() && i != j ==> (#[trigger] s[i]).key() != (#[trigger] s[j]).key()
}

/// The gene of `s` with key `k` (meaningful where `has_key(s, k)`).
pub open spec fn gene_for<T: Gene>(s: Seq<T>, k: (u64, u64)) -> T {
    s[choose|i: int| 0 <= i < s.len() && (#[trigger] s[i]).key() == k]
}

/// The genes of `s` whose key `o` holds too, each paired with the gene of `o` of that key, in the
/// order of `s`.
pub open spec fn matching<T: Gene>(s: Seq<T>, o: Seq<T>) -> Seq<(T, T)>
    decreases s.len(),
{
    if s.len() == 0 {
        Seq::empty()
    } else {
        let rest = matching(s.drop_last(), o);
        if has_key(o, s.last().key()) {
            rest.push((s.last(), gene_for(o, s.last().key())))
        } else {
            rest
        }
    }
}

/// The genes of `s` whose key `o` lacks, in the order of `s`.
pub open spec fn only_in<T: Gene>(s: Seq<T>, o: Seq<T>) -> Seq<T>
    decreases s.len(),
{
    if s.len() == 0 {
        Seq::empty()
    } else {
        let rest = only_in(s.drop_last(), o);
        if has_key(o, s.last().key()) {
            rest
        } else {
            rest.push(s.last())
        }
    }
}

/// The order of keys: by first component, then by second.
pub open spec fn key_lt(a: (u64, u64), b: (u64, u64)) -> bool {
    a.0 < b.0 || (a.0 == b.0 && a.1 < b.1)
}

/// The genes of `s` are in strictly increasing order of keys.
pub open spec fn sorted_by_key<T: Gene>(s: Seq<T>) -> bool {
    forall|i: int, j: int| 0 <= i < j < s.len() ==> key_lt((#[trigger] s[i]).key(), (#[trigger] s[j]).key())
}

/// The key of `g` comes before `k`.
fn key_before<T: Gene>(g: &T, k: (u64, u64)) -> (r: bool)
    ensures
        r == key_lt(g.key(), k),
{
    let q = g.gene_key();
    q.0 < k.0 || (q.0 == k.0 && q.1 < k.1)
}

/// `s` rotated left by `offset`: the gene at `offset` first, wrapping around.
pub open spec fn rotated<T>(s: Seq<T>, offset: int) -> Seq<T> {
    Seq::new(s.len(), |t: int| if offset + t >= s.len() { s[offset + t - s.len()] } else { s[offset + t] })
}

/// Crossover of `s` with `o`: at each position the gene of `s`, or the gene of `o` with the same
/// key where `o` has one and `picks` says so.
pub open spec fn crossed<T: Gene>(s: Seq<T>, o: Seq<T>, picks: Seq<bool>) -> Seq<T> {
    Seq::new(s.len(), |i: int| if picks[i] && has_key(o, s[i].key()) { gene_for(o, s[i].key()) } else { s[i] })
}

/// Crossing a set of genes with itself gives the same set, whatever the coins say.
pub proof fn lemma_crossed_self<T: Gene>(s: Seq<T>, picks: Seq<bool>)
    requires
        keys_unique(s),
    ensures
        crossed(s, s, picks) == s,
{
    assert forall|i: int| 0 <= i < s.len() implies #[trigger] crossed(s, s, picks)[i] == s[i] by {
        lemma_gene_for(s, i);
    }
    assert(crossed(s, s, picks) =~= s);
}

/// Crossover keeps the key at every position.
pub proof fn lemma_crossed_keys<T: Gene>(s: Seq<T>, o: Seq<T>, picks: Seq<bool>)
    requires
        keys_unique(s),
        keys_unique(o),
    ensures
        crossed(s, o, picks).len() == s.len(),
        forall|i: int| 0 <= i < s.len() ==> (#[trigger] crossed(s, o, picks)[i]).key() == s[i].key(),
        keys_unique(crossed(s, o, picks)),
{
    let c = crossed(s, o, picks);
    assert forall|i: int| 0 <= i < s.len() implies (#[trigger] c[i]).key() == s[i].key() by {
        if picks[i] && has_key(o, s[i].key()) {
            let j = choose|j: int| 0 <= j < o.len() && (#[trigger] o[j]).key() == s[i].key();
            assert(o[j].key() == s[i].key());
        }
    }
    assert forall|i: int, j: int| 0 <= i < c.len() && 0 <= j < c.len() && i != j implies (#[trigger] c[i]).key() != (#[trigger] c[j]).key() by {
        assert(c[i].key() == s[i].key());
        assert(c[j].key() == s[j].key());
    }
}

/// In a sequence with unique keys, the gene of key `s[i].key()` is `s[i]`.
pub proof fn lemma_gene_for<T: Gene>(s: Seq<T>, i: int)
    requires
        keys_unique(s),
        0 <= i < s.len(),
    ensures
        has_key(s, s[i].key()),
        gene_for(s, s[i].key()) == s[i],
{
    assert(has_key(s, s[i].key()));
    let j = choose|j: int| 0 <= j < s.len() && (#[trigger] s[j]).key() == s[i].key();
    assert(s[j].key() == s[i].key());
}

/// A set of genes: at most one gene per key (see [`Genes::wf`]). Order carries no meaning, but
/// the operations below keep it where they can.
#[derive(Debug, Clone)]
pub struct Genes<T: Gene>(pub Vec<T>);

impl<T: Gene> View for Genes<T> {
    type V = Seq<T>;

    open spec fn view(&self) -> Seq<T> {
        self.0@
    }
}

impl<T: Gene> Genes<T> {
    /// No two genes share a key.
    pub open spec fn wf(&self) -> bool {
        keys_unique(self@)
    }

    /// The empty set.
    pub fn new() -> (r: Genes<T>)
        ensures
            r.wf(),
            r@ == Seq::<T>::empty(),
    {
        Genes(Vec::new())
    }

    /// A set holding, for each key among the genes of `genes`, one gene of that key.
    pub fn from_vec(genes: Vec<T>) -> (r: Genes<T>)
        ensures
            r.wf(),
            forall|k: (u64, u64)| has_key(r@, k) <==> has_key(genes@, k),
            forall|i: int| 0 <= i < r@.len() ==> genes@.contains(#[trigger] r@[i]),
    {
        let mut r = Genes::new();
        let mut i: usize = 0;
        while i < genes.len()
            invariant
                r.wf(),
                i <= genes@.len(),
                forall|k: (u64, u64)| has_key(r@, k) <==> has_key(genes@.subrange(0, i as int), k),
                forall|j: int| 0 <= j < r@.len() ==> genes@.contains(#[trigger] r@[j]),
            decreases genes@.len() - i,
        {
            let g = genes[i];
            let ghost before = r@;
            r.insert(g);
            proof {
                assert forall|j: int| 0 <= j < r@.len() implies genes@.contains(#[trigger] r@[j]) by {
                    if j < before.len() {
                        assert(r@[j] == before[j]);
                    } else {
                        assert(r@[j] == genes@[i as int]);
                    }
                }
                let pre = genes@.subrange(0, i as int);
                let sub = genes@.subrange(0, i + 1);
                assert(sub =~= pre.push(g));
                assert forall|k: (u64, u64)| has_key(r@, k) <==> has_key(sub, k) by {
                    if has_key(before, k) {
                        let j = choose|j: int| 0 <= j < before.len() && (#[trigger] before[j]).key() == k;
                        assert(r@[j] == before[j]);
                    }
                    if has_key(r@, k) && k != g.key() {
                        let j = choose|j: int| 0 <= j < r@.len() && (#[trigger] r@[j]).key() == k;
                        if j < before.len() {
                            assert(r@[j] == before[j]);
                        }
                        assert(has_key(before, k));
                        let j2 = choose|j2: int| 0 <= j2 < pre.len() && (#[trigger] pre[j2]).key() == k;
                        assert(sub[j2] == pre[j2]);
                    }
                    if has_key(sub, k) && k != g.key() {
                        let j = choose|j: int| 0 <= j < sub.len() && (#[trigger] sub[j]).key() == k;
                        assert(j < i);
                        assert(sub[j] == pre[j]);
                        assert(has_key(pre, k));
                    }
                    if k == g.key() {
                        assert(sub[i as int] == g);
                        if !has_key(before, k) {
                            assert(r@[before.len() as int] == g);
                        }
                    }
                }
            }
            i = i + 1;
        }
        assert(genes@.subrange(0, genes@.len() as int) =~= genes@);
        r
    }

    /// The number of genes.
    pub fn len(&self) -> (r: usize)
        ensures
            r == self@.len(),
    {
        self.0.len()
    }

    /// The set holds no gene.
    pub fn is_empty(&self) -> (r: bool)
        ensures
            r == (self@.len() == 0),
    {
        self.0.len() == 0
    }

    /// The position of the gene with key `k`, if the set holds one.
    pub fn position(&self, k: (u64, u64)) -> (r: Option<usize>)
        ensures
            r.is_none() ==> !has_key(self@, k),
            r.is_some() ==> r.unwrap() < self@.len() && self@[r.unwrap() as int].key() == k,
    {
        let mut i: usize = 0;
        while i < self.0.len()
            invariant
                i <= self@.len(),
                forall|j: int| 0 <= j < i ==> (#[trigger] self@[j]).key() != k,
            decreases self@.len() - i,
        {
            let gk = self.0[i].gene_key();
            if gk.0 == k.0 && gk.1 == k.1 {
                return Some(i);
            }
            i = i + 1;
        }
        None
    }

    /// The set holds a gene with key `k`.
    pub fn contains_key(&self, k: (u64, u64)) -> (r: bool)
        ensures
            r == has_key(self@, k),
    {
        self.position(k).is_some()
    }

    /// The gene with key `k`, if the set holds one.
    pub fn get(&self, k: (u64, u64)) -> (r: Option<T>)
        requires
            self.wf(),
        ensures
            r.is_none() ==> !has_key(self@, k),
            r.is_some() ==> has_key(self@, k) && r.unwrap() == gene_for(self@, k),
    {
        match self.position(k) {
            Some(i) => {
                proof {
                    lemma_gene_for(self@, i as int);
                }
                Some(self.0[i])
            },
            None => None,
        }
    }

    /// Adds `g` unless a gene of its key is present; tells whether it was added.
    pub fn insert(&mut self, g: T) -> (r: bool)
        requires
            old(self).wf(),
        ensures
            final(self).wf(),
            r == !has_key(old(self)@, g.key()),
            r ==> final(self)@ == old(self)@.push(g),
            !r ==> final(self)@ == old(self)@,
    {
        if self.contains_key(g.gene_key()) {
            false
        } else {
            self.0.push(g);
            proof {
                assert forall|i: int, j: int|
                    0 <= i < self@.len() && 0 <= j < self@.len() && i != j implies (#[trigger] self@[i]).key()
                    != (#[trigger] self@[j]).key() by {
                    if i < old(self)@.len() && j < old(self)@.len() {
                        assert(self@[i] == old(self)@[i]);
                        assert(self@[j] == old(self)@[j]);
                    } else if i < old(self)@.len() {
                        assert(self@[i] == old(self)@[i]);
                    } else {
                        assert(self@[j] == old(self)@[j]);
                    }
                }
            }
            true
        }
    }

    /// Puts `g` in place of the gene of its key and returns that gene; where there is none, adds
    /// `g` and returns `None`.
    pub fn replace(&mut self, g: T) -> (r: Option<T>)
        requires
            old(self).wf(),
        ensures
            final(self).wf(),
            r.is_none() ==> !has_key(old(self)@, g.key()) && final(self)@ == old(self)@.push(g),
            r.is_some() ==> has_key(old(self)@, g.key()) && r.unwrap() == gene_for(old(self)@, g.key())
                && final(self)@ == old(self)@.update(
                choose|i: int| 0 <= i < old(self)@.len() && (#[trigger] old(self)@[i]).key() == g.key(),
                g,
            ),
    {
        match self.position(g.gene_key()) {
            Some(i) => {
                let prev = self.0[i];
                self.0.set(i, g);
                proof {
                    lemma_gene_for(old(self)@, i as int);
                    let c = choose|c: int| 0 <= c < old(self)@.len() && (#[trigger] old(self)@[c]).key() == g.key();
                    assert(old(self)@[c].key() == old(self)@[i as int].key());
                    assert(c == i);
                    assert forall|a: int, b: int|
                        0 <= a < self@.len() && 0 <= b < self@.len() && a != b implies (#[trigger] self@[a]).key()
                        != (#[trigger] self@[b]).key() by {
                        assert(a != i ==> self@[a] == old(self)@[a]);
                        assert(b != i ==> self@[b] == old(self)@[b]);
                    }
                }
                Some(prev)
            },
            None => {
                self.insert(g);
                None
            },
        }
    }

    /// Takes out the gene with key `k`; tells whether there was one. The others keep their order.
    pub fn remove(&mut self, k: (u64, u64)) -> (r: bool)
        requires
            old(self).wf(),
        ensures
            final(self).wf(),
            r == has_key(old(self)@, k),
            !r ==> final(self)@ == old(self)@,
            r ==> final(self)@ == old(self)@.remove(
                choose|i: int| 0 <= i < old(self)@.len() && (#[trigger] old(self)@[i]).key() == k,
            ),
            !has_key(final(self)@, k),
            forall|x: (u64, u64)| x != k ==> (has_key(final(self)@, x) <==> has_key(old(self)@, x)),
    {
        match self.position(k) {
            Some(i) => {
                self.0.remove(i);
                proof {
                    let c = choose|c: int| 0 <= c < old(self)@.len() && (#[trigger] old(self)@[c]).key() == k;
                    assert(old(self)@[c].key() == old(self)@[i as int].key());
                    assert(c == i);
                    assert forall|a: int, b: int|
                        0 <= a < self@.len() && 0 <= b < self@.len() && a != b implies (#[trigger] self@[a]).key()
                        != (#[trigger] self@[b]).key() by {
                        let a2 = if a < i { a } else { a + 1 };
                        let b2 = if b < i { b } else { b + 1 };
                        assert(self@[a] == old(self)@[a2]);
                        assert(self@[b] == old(self)@[b2]);
                    }
                    assert forall|x: (u64, u64)| #![auto] has_key(self@, x) ==> x != k && has_key(old(self)@, x) by {
                        if has_key(self@, x) {
                            let a = choose|a: int| 0 <= a < self@.len() && (#[trigger] self@[a]).key() == x;
                            let a2 = if a < i { a } else { a + 1 };
                            assert(self@[a] == old(self)@[a2]);
                        }
                    }
                    assert forall|x: (u64, u64)| x != k && has_key(old(self)@, x) implies has_key(self@, x) by {
                        let a = choose|a: int| 0 <= a < old(self)@.len() && (#[trigger] old(self)@[a]).key() == x;
                        assert(a != i);
                        let a2 = if a < i { a } else { a - 1 };
                        assert(self@[a2] == old(self)@[a]);
                    }
                }
                true
            },
            None => false,
        }
    }

    /// A copy of the set, gene for gene.
    pub fn copied(&self) -> (r: Genes<T>)
        ensures
            r@ == self@,
    {
        let mut v: Vec<T> = Vec::new();
        let mut i: usize = 0;
        while i < self.0.len()
            invariant
                i <= self@.len(),
                v@ == self@.subrange(0, i as int),
            decreases self@.len() - i,
        {
            v.push(self.0[i]);
            i = i + 1;
            assert(v@ =~= self@.subrange(0, i as int));
        }
        assert(v@ =~= self@);
        Genes(v)
    }

    /// The genes present (by key) in both sets, as pairs of the gene of `self` and the gene of
    /// `other`, in the order of `self`.
    pub fn iterate_matching_genes(&self, other: &Genes<T>) -> (r: Vec<(T, T)>)
        requires
            other.wf(),
        ensures
            r@ == matching(self@, other@),
    {
        let mut r: Vec<(T, T)> = Vec::new();
        let mut i: usize = 0;
        while i < self.0.len()
            invariant
                other.wf(),
                i <= self@.len(),
                r@ == matching(self@.subrange(0, i as int), other@),
            decreases self@.len() - i,
        {
            let g = self.0[i];
            assert(self@.subrange(0, i + 1).drop_last() =~= self@.subrange(0, i as int));
            assert(self@.subrange(0, i + 1).last() == g);
            match other.get(g.gene_key()) {
                Some(h) => {
                    r.push((g, h));
                },
                None => {},
            }
            i = i + 1;
        }
        assert(self@.subrange(0, self@.len() as int) =~= self@);
        r
    }

    /// The genes whose key only one of the two sets holds: those of `self`, then those of
    /// `other`.
    pub fn iterate_unique_genes(&self, other: &Genes<T>) -> (r: Vec<T>)
        ensures
            r@ == only_in(self@, other@) + only_in(other@, self@),
    {
        let mut r = self.only_in(other);
        let mut rest = other.only_in(self);
        r.append(&mut rest);
        r
    }

    /// The genes of `self` whose key `other` lacks, in the order of `self`.
    pub fn only_in(&self, other: &Genes<T>) -> (r: Vec<T>)
        ensures
            r@ == only_in(self@, other@),
    {
        let mut r: Vec<T> = Vec::new();
        let mut i: usize = 0;
        while i < self.0.len()
            invariant
                i <= self@.len(),
                r@ == only_in(self@.subrange(0, i as int), other@),
            decreases self@.len() - i,
        {
            let g = self.0[i];
            assert(self@.subrange(0, i + 1).drop_last() =~= self@.subrange(0, i as int));
            assert(self@.subrange(0, i + 1).last() == g);
            if !other.contains_key(g.gene_key()) {
                r.push(g);
            }
            i = i + 1;
        }
        assert(self@.subrange(0, self@.len() as int) =~= self@);
        r
    }

    /// A gene drawn uniformly, or `None` when the set is empty.
    pub fn random(&self, rng: &mut GenomeRng) -> (r: Option<T>)
        ensures
            r.is_none() <==> self@.len() == 0,
            r.is_some() ==> self@.contains(r.unwrap()),
            final(rng).std_dev == old(rng).std_dev,
            final(rng).cap == old(rng).cap,
    {
        if self.0.len() == 0 {
            None
        } else {
            let i = rng.index_below(self.0.len());
            Some(self.0[i])
        }
    }

    /// Every gene once: the set rotated by a uniformly drawn offset.
    pub fn iterate_with_random_offset(&self, rng: &mut GenomeRng) -> (r: Vec<T>)
        ensures
            r@.len() == self@.len(),
            self@.len() > 0 ==> exists|offset: int|
                0 <= offset < self@.len() && r@ =~= rotated(self@, offset),
            final(rng).std_dev == old(rng).std_dev,
            final(rng).cap == old(rng).cap,
    {
        let n = self.0.len();
        if n == 0 {
            return Vec::new();
        }
        let offset = rng.index_below(n);
        let mut r: Vec<T> = Vec::new();
        let mut t: usize = 0;
        while t < n
            invariant
                n == self@.len(),
                offset < n,
                t <= n,
                r@ =~= rotated(self@, offset as int).subrange(0, t as int),
            decreases n - t,
        {
            let i = if t >= n - offset { t - (n - offset) } else { offset + t };
            r.push(self.0[i]);
            t = t + 1;
        }
        r
    }

    /// Crossover rooted at `self`: every gene of `self` is kept, except that a gene whose key
    /// `other` holds too is taken from `other` where the coin in `picks` at its position says so.
    pub fn cross_in_with(&self, other: &Genes<T>, picks: &Vec<bool>) -> (r: Genes<T>)
        requires
            self.wf(),
            other.wf(),
            picks@.len() == self@.len(),
        ensures
            r.wf(),
            r@ == crossed(self@, other@, picks@),
    {
        let mut v: Vec<T> = Vec::new();
        let mut i: usize = 0;
        while i < self.0.len()
            invariant
                other.wf(),
                picks@.len() == self@.len(),
                i <= self@.len(),
                v@ =~= crossed(self@, other@, picks@).subrange(0, i as int),
            decreases self@.len() - i,
        {
            let g = self.0[i];
            let chosen = if picks[i] {
                match other.get(g.gene_key()) {
                    Some(h) => h,
                    None => g,
                }
            } else {
                g
            };
            v.push(chosen);
            i = i + 1;
        }
        proof {
            lemma_crossed_keys(self@, other@, picks@);
        }
        Genes(v)
    }

    /// Crossover rooted at `self`, as [`Genes::cross_in_with`] with a fair coin for every gene.
    pub fn cross_in(&self, other: &Genes<T>, rng: &mut GenomeRng) -> (r: Genes<T>)
        requires
            self.wf(),
            other.wf(),
        ensures
            r.wf(),
            exists|picks: Seq<bool>| picks.len() == self@.len() && r@ == crossed(self@, other@, picks),
            final(rng).std_dev == old(rng).std_dev,
            final(rng).cap == old(rng).cap,
    {
        let mut picks: Vec<bool> = Vec::new();
        let mut i: usize = 0;
        while i < self.0.len()
            invariant
                i <= self@.len(),
                picks@.len() == i,
                rng.std_dev == old(rng).std_dev,
                rng.cap == old(rng).cap,
            decreases self@.len() - i,
        {
            picks.push(rng.coin());
            i = i + 1;
        }
        self.cross_in_with(other, &picks)
    }

    /// The genes in increasing order of keys.
    pub fn as_sorted_vec(&self) -> (r: Vec<T>)
        requires
            self.wf(),
        ensures
            r@.len() == self@.len(),
            sorted_by_key(r@),
            forall|x: T| r@.contains(x) <==> self@.contains(x),
    {
        let mut r: Vec<T> = Vec::new();
        let mut i: usize = 0;
        while i < self.0.len()
            invariant
                self.wf(),
                i <= self@.len(),
                r@.len() == i,
                sorted_by_key(r@),
                forall|x: T| r@.contains(x) <==> self@.subrange(0, i as int).contains(x),
            decreases self@.len() - i,
        {
            let x = self.0[i];
            let k = x.gene_key();
            let mut p: usize = 0;
            while p < r.len() && key_before(&r[p], k)
                invariant
                    p <= r@.len(),
                    forall|j: int| 0 <= j < p ==> key_lt((#[trigger] r@[j]).key(), k),
                decreases r@.len() - p,
            {
                p = p + 1;
            }
            proof {
                assert forall|j: int| 0 <= j < r@.len() implies (#[trigger] r@[j]).key() != k by {
                    assert(r@.contains(r@[j]));
                    assert(self@.subrange(0, i as int).contains(r@[j]));
                    let a = choose|a: int| 0 <= a < i && self@.subrange(0, i as int)[a] == r@[j];
                    assert(self@[a] == r@[j]);
                }
                if p < r@.len() {
                    assert(!key_lt(r@[p as int].key(), k));
                    assert(key_lt(k, r@[p as int].key()));
                    assert forall|j: int| p <= j < r@.len() implies key_lt(k, #[trigger] r@[j].key()) by {
                        if j > p {
                            assert(key_lt(r@[p as int].key(), r@[j].key()));
                        }
                    }
                }
            }
            let ghost before = r@;
            r.insert(p, x);
            proof {
                assert(r@ == before.insert(p as int, x));
                assert forall|a: int, b: int| 0 <= a < b < r@.len() implies key_lt((#[trigger] r@[a]).key(), (#[trigger] r@[b]).key()) by {
                    if b < p {
                        assert(r@[a] == before[a] && r@[b] == before[b]);
                    } else if b == p {
                        assert(r@[a] == before[a]);
                    } else if a < p {
                        assert(r@[a] == before[a] && r@[b] == before[b - 1]);
                        if p < before.len() {
                            assert(key_lt(k, before[b - 1].key()));
                        }
                    } else if a == p {
                        assert(r@[b] == before[b - 1]);
                    } else {
                        assert(r@[a] == before[a - 1] && r@[b] == before[b - 1]);
                    }
                }
                let sub = self@.subrange(0, i + 1);
                assert(sub =~= self@.subrange(0, i as int).push(x));
                assert forall|y: T| r@.contains(y) <==> sub.contains(y) by {
                    if r@.contains(y) {
                        let a = choose|a: int| 0 <= a < r@.len() && r@[a] == y;
                        if a < p {
                            assert(before[a] == y);
                            assert(before.contains(y));
                        } else if a > p {
                            assert(before[a - 1] == y);
                            assert(before.contains(y));
                        } else {
                            assert(sub[i as int] == y);
                        }
                        if before.contains(y) {
                            let c = choose|c: int| 0 <= c < i && self@.subrange(0, i as int)[c] == y;
                            assert(sub[c] == y);
                        }
                    }
                    if sub.contains(y) {
                        let c = choose|c: int| 0 <= c < sub.len() && sub[c] == y;
                        if c < i {
                            assert(self@.subrange(0, i as int)[c] == y);
                            assert(self@.subrange(0, i as int).contains(y));
                            assert(before.contains(y));
                            let a = choose|a: int| 0 <= a < before.len() && before[a] == y;
                            if a < p {
                                assert(r@[a] == y);
                            } else {
                                assert(r@[a + 1] == y);
                            }
                        } else {
                            assert(r@[p as int] == y);
                        }
                    }
                }
            }
            i = i + 1;
        }
        assert(self@.subrange(0, self@.len() as int) =~= self@);
        r
    }

    /// Takes every gene out of the set, in an order drawn at random: each step removes a
    /// uniformly drawn gene of those left.
    pub fn drain_into_random(&mut self, rng: &mut GenomeRng) -> (r: Vec<T>)
        ensures
            final(self)@.len() == 0,
            final(self).wf(),
            r@.to_multiset() == old(self)@.to_multiset(),
            final(rng).std_dev == old(rng).std_dev,
            final(rng).cap == old(rng).cap,
    {
        let mut r: Vec<T> = Vec::new();
        proof {
            vstd::seq_lib::to_multiset_len(r@);
            vstd::multiset::lemma_multiset_empty_len(r@.to_multiset());
            assert(r@.to_multiset().add(self@.to_multiset()) =~= self@.to_multiset());
        }
        while self.0.len() > 0
            invariant
                r@.to_multiset().add(self@.to_multiset()) == old(self)@.to_multiset(),
                rng.std_dev == old(rng).std_dev,
                rng.cap == old(rng).cap,
            decreases self@.len(),
        {
            let j = rng.index_below(self.0.len());
            let ghost before = self@;
            let x = self.0.remove(j);
            proof {
                vstd::seq_lib::to_multiset_remove(before, j as int);
                assert(x == before[j as int]);
                assert(before.contains(x));
                vstd::seq_lib::to_multiset_contains(before, x);
                assert(before.to_multiset().contains(x));
                vstd::seq_lib::to_multiset_build(r@, x);
                assert(r@.push(x).to_multiset() =~= r@.to_multiset().insert(x));
                assert(r@.to_multiset().insert(x).add(before.to_multiset().remove(x)) =~= r@.to_multiset().add(before.to_multiset()));
            }
            r.push(x);
        }
        proof {
            vstd::seq_lib::to_multiset_len(self@);
            vstd::multiset::lemma_multiset_empty_len(self@.to_multiset());
            assert(self@.to_multiset() =~= Multiset::<T>::empty());
            assert(r@.to_multiset().add(Multiset::<T>::empty()) =~= r@.to_multiset());
        }
        r
    }
}

} // verus!
