use vstd::prelude::*;
use crate::{CombEq, CombGrad, lawful_keys, lawful_entries};
use rayon::iter::{IntoParallelRefIterator, IndexedParallelIterator};

verus! {

// ---------------------------------------------------------------------------------------------
// buckets: a list of (hash, entries) pairs, viewed as a map from hash to entries
// ---------------------------------------------------------------------------------------------

/// The bucket keys of `bs` are pairwise distinct.
pub open spec fn keys_distinct<A>(bs: Seq<(Seq<usize>, A)>) -> bool {
    forall|i: int, j: int| 0 <= i < bs.len() && 0 <= j < bs.len() && i != j ==> bs[i].0 != bs[j].0
}

/// The map from bucket key to bucket contents.
pub open spec fn key_map<A>(bs: Seq<(Seq<usize>, A)>) -> Map<Seq<usize>, A> {
    Map::new(
        |k: Seq<usize>| exists|i: int| 0 <= i < bs.len() && bs[i].0 == k,
        |k: Seq<usize>| bs[choose|i: int| 0 <= i < bs.len() && bs[i].0 == k].1,
    )
}

/// The total number of entries over all buckets.
pub open spec fn total_len<K, E>(bs: Seq<(K, Seq<E>)>) -> nat
    decreases bs.len(),
{
    if bs.len() == 0 {
        0
    } else {
        total_len(bs.drop_last()) + bs.last().1.len()
    }
}

/// All entries, bucket after bucket.
pub open spec fn flat<K, E>(bs: Seq<(K, Seq<E>)>) -> Seq<E>
    decreases bs.len(),
{
    if bs.len() == 0 {
        Seq::empty()
    } else {
        flat(bs.drop_last()) + bs.last().1
    }
}

/// The bucket stored under `k`, or the empty bucket.
pub open spec fn bucket_at<E>(m: Map<Seq<usize>, Seq<E>>, k: Seq<usize>) -> Seq<E> {
    if m.dom().contains(k) {
        m[k]
    } else {
        Seq::empty()
    }
}

/// Entries whose key `g` is isomorphic to, as `g.is_isomorphic(key)` decides.
pub open spec fn matches_from<G: CombEq, T>(g: G) -> spec_fn((G, T)) -> bool {
    |e: (G, T)| g.spec_iso(&e.0)
}

/// Entries whose key is isomorphic to `g`, as `key.is_isomorphic(g)` decides.
pub open spec fn matches_to<G: CombEq, T>(g: G) -> spec_fn((G, T)) -> bool {
    |e: (G, T)| e.0.spec_iso(&g)
}

/// The first position of `s` that satisfies `p`, or -1.
pub open spec fn first_where<E>(s: Seq<E>, p: spec_fn(E) -> bool) -> int
    decreases s.len(),
{
    if s.len() == 0 {
        -1
    } else if p(s[0]) {
        0
    } else {
        let r = first_where(s.drop_first(), p);
        if r < 0 {
            -1
        } else {
            r + 1
        }
    }
}

pub proof fn lemma_first_where<E>(s: Seq<E>, p: spec_fn(E) -> bool, i: int)
    requires
        0 <= i <= s.len(),
        forall|j: int| 0 <= j < i ==> !p(#[trigger] s[j]),
    ensures
        i < s.len() && p(s[i]) ==> first_where(s, p) == i,
        i == s.len() ==> first_where(s, p) == -1,
    decreases i,
{
    if i > 0 {
        lemma_first_where(s.drop_first(), p, i - 1);
        assert forall|j: int| 0 <= j < i - 1 implies !p(#[trigger] s.drop_first()[j]) by {
            assert(s.drop_first()[j] == s[j + 1]);
        }
    }
}

pub proof fn lemma_first_where_props<E>(s: Seq<E>, p: spec_fn(E) -> bool)
    ensures
        -1 <= first_where(s, p) < s.len(),
        first_where(s, p) >= 0 ==> p(s[first_where(s, p)]),
        first_where(s, p) >= 0 ==> forall|j: int| 0 <= j < first_where(s, p) ==> !p(#[trigger] s[j]),
        first_where(s, p) < 0 ==> forall|j: int| 0 <= j < s.len() ==> !p(#[trigger] s[j]),
    decreases s.len(),
{
    if s.len() > 0 {
        lemma_first_where_props(s.drop_first(), p);
        if !p(s[0]) {
            assert forall|j: int| 0 <= j < s.len() && first_where(s, p) < 0 implies !p(#[trigger] s[j]) by {
                if j > 0 {
                    assert(s[j] == s.drop_first()[j - 1]);
                }
            }
            assert forall|j: int| 0 <= j < first_where(s, p) implies !p(#[trigger] s[j]) by {
                if j > 0 {
                    assert(s[j] == s.drop_first()[j - 1]);
                }
            }
        }
    }
}

proof fn lemma_key_map_at<A>(bs: Seq<(Seq<usize>, A)>, i: int)
    requires
        keys_distinct(bs),
        0 <= i < bs.len(),
    ensures
        key_map(bs).dom().contains(bs[i].0),
        key_map(bs)[bs[i].0] == bs[i].1,
{
    let k = bs[i].0;
    assert(exists|j: int| 0 <= j < bs.len() && bs[j].0 == k);
    let j = choose|j: int| 0 <= j < bs.len() && bs[j].0 == k;
    assert(j == i);
}

proof fn lemma_key_map_update<A>(bs: Seq<(Seq<usize>, A)>, i: int, a: A)
    requires
        keys_distinct(bs),
        0 <= i < bs.len(),
    ensures
        keys_distinct(bs.update(i, (bs[i].0, a))),
        key_map(bs.update(i, (bs[i].0, a))) == key_map(bs).insert(bs[i].0, a),
{
    let nbs = bs.update(i, (bs[i].0, a));
    assert(keys_distinct(nbs));
    let m1 = key_map(nbs);
    let m2 = key_map(bs).insert(bs[i].0, a);
    assert forall|k: Seq<usize>| m1.dom().contains(k) <==> m2.dom().contains(k) by {
        if m1.dom().contains(k) {
            let j = choose|j: int| 0 <= j < nbs.len() && nbs[j].0 == k;
            assert(bs[j].0 == k);
        }
        if m2.dom().contains(k) && k != bs[i].0 {
            let j = choose|j: int| 0 <= j < bs.len() && bs[j].0 == k;
            assert(nbs[j].0 == k);
        }
        if k == bs[i].0 {
            assert(nbs[i].0 == k);
        }
    }
    assert forall|k: Seq<usize>| m1.dom().contains(k) implies m1[k] == m2[k] by {
        let j = choose|j: int| 0 <= j < nbs.len() && nbs[j].0 == k;
        lemma_key_map_at(nbs, j);
        if j != i {
            lemma_key_map_at(bs, j);
        }
    }
    assert(m1 =~= m2);
}

proof fn lemma_key_map_push<A>(bs: Seq<(Seq<usize>, A)>, k: Seq<usize>, a: A)
    requires
        keys_distinct(bs),
        !key_map(bs).dom().contains(k),
    ensures
        keys_distinct(bs.push((k, a))),
        key_map(bs.push((k, a))) == key_map(bs).insert(k, a),
{
    let nbs = bs.push((k, a));
    assert forall|i: int| 0 <= i < bs.len() implies bs[i].0 != k by {
        if bs[i].0 == k {
            assert(key_map(bs).dom().contains(k));
        }
    }
    assert(keys_distinct(nbs));
    let m1 = key_map(nbs);
    let m2 = key_map(bs).insert(k, a);
    assert forall|kk: Seq<usize>| m1.dom().contains(kk) <==> m2.dom().contains(kk) by {
        if m1.dom().contains(kk) && kk != k {
            let j = choose|j: int| 0 <= j < nbs.len() && nbs[j].0 == kk;
            assert(bs[j].0 == kk);
        }
        if m2.dom().contains(kk) && kk != k {
            let j = choose|j: int| 0 <= j < bs.len() && bs[j].0 == kk;
            assert(nbs[j].0 == kk);
        }
        if kk == k {
            assert(nbs[bs.len() as int].0 == k);
        }
    }
    assert forall|kk: Seq<usize>| m1.dom().contains(kk) implies m1[kk] == m2[kk] by {
        let j = choose|j: int| 0 <= j < nbs.len() && nbs[j].0 == kk;
        lemma_key_map_at(nbs, j);
        if j < bs.len() {
            lemma_key_map_at(bs, j);
        }
    }
    assert(m1 =~= m2);
}

proof fn lemma_key_map_remove<A>(bs: Seq<(Seq<usize>, A)>, i: int)
    requires
        keys_distinct(bs),
        0 <= i < bs.len(),
    ensures
        keys_distinct(bs.remove(i)),
        key_map(bs.remove(i)) == key_map(bs).remove(bs[i].0),
{
    let nbs = bs.remove(i);
    assert(keys_distinct(nbs)) by {
        assert forall|a: int, b: int| 0 <= a < nbs.len() && 0 <= b < nbs.len() && a != b implies nbs[a].0 != nbs[b].0 by {
            let a2 = if a < i { a } else { a + 1 };
            let b2 = if b < i { b } else { b + 1 };
            assert(nbs[a] == bs[a2]);
            assert(nbs[b] == bs[b2]);
        }
    }
    let m1 = key_map(nbs);
    let m2 = key_map(bs).remove(bs[i].0);
    assert forall|k: Seq<usize>| m1.dom().contains(k) <==> m2.dom().contains(k) by {
        if m1.dom().contains(k) {
            let j = choose|j: int| 0 <= j < nbs.len() && nbs[j].0 == k;
            let j2 = if j < i { j } else { j + 1 };
            assert(nbs[j] == bs[j2]);
        }
        if m2.dom().contains(k) {
            let j = choose|j: int| 0 <= j < bs.len() && bs[j].0 == k;
            assert(j != i);
            let j2 = if j < i { j } else { j - 1 };
            assert(nbs[j2] == bs[j]);
        }
    }
    assert forall|k: Seq<usize>| m1.dom().contains(k) implies m1[k] == m2[k] by {
        let j = choose|j: int| 0 <= j < nbs.len() && nbs[j].0 == k;
        let j2 = if j < i { j } else { j + 1 };
        assert(nbs[j] == bs[j2]);
        lemma_key_map_at(nbs, j);
        lemma_key_map_at(bs, j2);
    }
    assert(m1 =~= m2);
}

proof fn lemma_total_len_update<K, E>(bs: Seq<(K, Seq<E>)>, i: int, b: (K, Seq<E>))
    requires
        0 <= i < bs.len(),
    ensures
        total_len(bs.update(i, b)) + bs[i].1.len() == total_len(bs) + b.1.len(),
    decreases bs.len(),
{
    let nbs = bs.update(i, b);
    if i < bs.len() - 1 {
        assert(nbs.drop_last() =~= bs.drop_last().update(i, b));
        lemma_total_len_update(bs.drop_last(), i, b);
    } else {
        assert(nbs.drop_last() =~= bs.drop_last());
    }
}

proof fn lemma_total_len_remove<K, E>(bs: Seq<(K, Seq<E>)>, i: int)
    requires
        0 <= i < bs.len(),
    ensures
        total_len(bs.remove(i)) + bs[i].1.len() == total_len(bs),
    decreases bs.len(),
{
    let nbs = bs.remove(i);
    if i < bs.len() - 1 {
        assert(nbs.drop_last() =~= bs.drop_last().remove(i));
        lemma_total_len_remove(bs.drop_last(), i);
    } else {
        assert(nbs =~= bs.drop_last());
    }
}

proof fn lemma_flat_len<K, E>(bs: Seq<(K, Seq<E>)>)
    ensures
        flat(bs).len() == total_len(bs),
    decreases bs.len(),
{
    if bs.len() > 0 {
        lemma_flat_len(bs.drop_last());
    }
}

// ---------------------------------------------------------------------------------------------
// statistics
// ---------------------------------------------------------------------------------------------

/// Statistics that a collection keeps up to date as items are inserted.
pub trait CombStats<G>: Sized {
    /// The statistics after `item` is inserted.
    spec fn spec_on_insert(self, item: G) -> Self;

    /// The statistics after `clear`.
    spec fn spec_cleared(self) -> Self;

    fn on_insert(&mut self, item: &G)
        ensures
            *final(self) == old(self).spec_on_insert(*item),
    ;

    fn clear(&mut self)
        ensures
            *final(self) == old(self).spec_cleared(),
    ;
}

/// The keys of the entries.
pub open spec fn keys_of<G, T>(entries: Seq<(G, T)>) -> Seq<G> {
    entries.map_values(|e: (G, T)| e.0)
}

/// The statistics after each of `items` is inserted in turn, starting from `s`.
pub open spec fn stats_after<G, S: CombStats<G>>(s: S, items: Seq<G>) -> S
    decreases items.len(),
{
    if items.len() == 0 {
        s
    } else {
        stats_after(s, items.drop_last()).spec_on_insert(items.last())
    }
}

impl<G> CombStats<G> for () {
    open spec fn spec_on_insert(self, item: G) -> Self {
        ()
    }

    open spec fn spec_cleared(self) -> Self {
        ()
    }

    fn on_insert(&mut self, item: &G) {
    }

    fn clear(&mut self) {
    }
}

/// The largest degree among the inserted items.
#[derive(Clone, Copy, Debug)]
pub struct MaxDegree {
    pub max_deg: usize,
}

impl Default for MaxDegree {
    /// No degree seen yet: zero.
    fn default() -> (r: Self)
        ensures
            r.max_deg == 0,
    {
        MaxDegree { max_deg: 0 }
    }
}

impl<G: CombGrad<usize>> CombStats<G> for MaxDegree {
    open spec fn spec_on_insert(self, item: G) -> Self {
        MaxDegree { max_deg: if self.max_deg >= item.spec_degree() { self.max_deg } else { item.spec_degree() } }
    }

    open spec fn spec_cleared(self) -> Self {
        MaxDegree { max_deg: 0 }
    }

    fn on_insert(&mut self, item: &G) {
        let d = item.degree();
        if d > self.max_deg {
            self.max_deg = d;
        }
    }

    fn clear(&mut self) {
        self.max_deg = 0;
    }
}

/// Collections that keep statistics of their items.
pub trait HasStats<G> {
    type Stats: CombStats<G>;

    fn stats(&self) -> &Self::Stats;
}

// ---------------------------------------------------------------------------------------------
// CombMap
// ---------------------------------------------------------------------------------------------

/// A map structure where key equality is considered up to isomorphism.
///
/// Entries are kept in buckets, one bucket for each value of the key hash; within a bucket,
/// keys are compared with `is_isomorphic`. The map normally holds at most one entry for each
/// key isomorphism class; `insert_unchecked` and `extend_unchecked` may break this, and `dedup`
/// restores it.
pub struct CombMap<G, T, S = ()> {
    buckets: Vec<(Vec<usize>, Vec<(G, T)>)>,
    stats: S,
}

impl<G: CombEq, T, S: CombStats<G>> View for CombMap<G, T, S> {
    type V = Map<Seq<usize>, Seq<(G, T)>>;

    /// The map from each key hash to the entries whose keys have that hash.
    open spec fn view(&self) -> Map<Seq<usize>, Seq<(G, T)>> {
        key_map(self.bucket_seq())
    }
}

impl<G: CombEq, T, S: CombStats<G>> CombMap<G, T, S> {
    /// The buckets in their storage order.
    pub closed spec fn bucket_seq(self) -> Seq<(Seq<usize>, Seq<(G, T)>)> {
        self.buckets@.map_values(|p: (Vec<usize>, Vec<(G, T)>)| (p.0@, p.1@))
    }

    /// The number of entries.
    pub open spec fn size(self) -> nat {
        total_len(self.bucket_seq())
    }

    /// All entries, bucket after bucket.
    pub open spec fn entries(self) -> Seq<(G, T)> {
        flat(self.bucket_seq())
    }

    /// Well-formedness: bucket keys are distinct, no bucket is empty, and every entry lies in
    /// the bucket of its key's hash.
    pub open spec fn wf(self) -> bool {
        let bs = self.bucket_seq();
        &&& keys_distinct(bs)
        &&& forall|i: int| 0 <= i < bs.len() ==> #[trigger] bs[i].1.len() > 0
        &&& forall|i: int, j: int|
            0 <= i < bs.len() && 0 <= j < bs[i].1.len() ==> (#[trigger] bs[i].1[j]).0.spec_hash() == bs[i].0
    }

    /// The statistics of the map.
    pub closed spec fn spec_stats(self) -> S {
        self.stats
    }

    /// The keys of the entries, bucket by bucket in the order in which the buckets were made.
    pub open spec fn entry_keys(self) -> Seq<G> {
        keys_of(flat(self.bucket_seq()))
    }

    /// Creates an empty map.
    pub fn new() -> (r: Self)
        where S: Default
        ensures
            r.wf(),
            r@ == Map::<Seq<usize>, Seq<(G, T)>>::empty(),
            r.size() == 0,
            call_ensures(S::default, (), r.spec_stats()),
    {
        let r = CombMap { buckets: Vec::new(), stats: S::default() };
        assert(r.bucket_seq() =~= Seq::empty());
        assert(r@ =~= Map::empty());
        r
    }
}


impl<G: CombEq, T, S: CombStats<G>> CombMap<G, T, S> {
    proof fn lemma_wf_bucket(self, i: int)
        requires
            self.wf(),
            0 <= i < self.bucket_seq().len(),
        ensures
            self@.dom().contains(self.bucket_seq()[i].0),
            self@[self.bucket_seq()[i].0] == self.bucket_seq()[i].1,
    {
        lemma_key_map_at(self.bucket_seq(), i);
    }

    /// The position of the bucket with key `key`.
    fn find_bucket(&self, key: &Vec<usize>) -> (r: Option<usize>)
        requires
            self.wf(),
        ensures
            match r {
                Some(i) => i < self.bucket_seq().len() && self.bucket_seq()[i as int].0 == key@,
                None => !self@.dom().contains(key@),
            },
    {
        let mut i: usize = 0;
        while i < self.buckets.len()
            invariant
                self.wf(),
                i <= self.buckets.len(),
                forall|j: int| 0 <= j < i ==> self.bucket_seq()[j].0 != key@,
            decreases self.buckets.len() - i,
        {
            proof {
                assert(self.bucket_seq()[i as int].0 == self.buckets@[i as int].0@);
            }
            if vec_eq(&self.buckets[i].0, key) {
                return Some(i);
            }
            i = i + 1;
        }
        proof {
            if self@.dom().contains(key@) {
                let j = choose|j: int| 0 <= j < self.bucket_seq().len() && self.bucket_seq()[j].0 == key@;
                assert(self.bucket_seq()[j].0 != key@);
            }
        }
        None
    }

    /// Clears the map, removing all key-value pairs.
    pub fn clear(&mut self)
        ensures
            final(self).wf(),
            final(self)@ == Map::<Seq<usize>, Seq<(G, T)>>::empty(),
            final(self).size() == 0,
    {
        self.buckets.clear();
        self.stats.clear();
        assert(self.bucket_seq() =~= Seq::empty());
        assert(self@ =~= Map::empty());
    }

    /// Returns the number of entries in the map; entries with isomorphic keys count separately.
    pub fn len(&self) -> (r: usize)
        requires
            self.size() <= usize::MAX,
        ensures
            r == self.size(),
    {
        let mut n: usize = 0;
        let mut i: usize = 0;
        while i < self.buckets.len()
            invariant
                i <= self.buckets.len(),
                n == total_len(self.bucket_seq().take(i as int)),
                total_len(self.bucket_seq()) <= usize::MAX,
            decreases self.buckets.len() - i,
        {
            proof {
                let bs = self.bucket_seq();
                assert(bs.take(i + 1).drop_last() =~= bs.take(i as int));
                lemma_total_len_prefix(bs, i + 1);
            }
            n = n + self.buckets[i].1.len();
            i = i + 1;
        }
        proof {
            assert(self.bucket_seq().take(i as int) =~= self.bucket_seq());
        }
        n
    }

    /// Inserts a key-value pair into the map.
    ///
    /// If the bucket of the key's hash holds a key isomorphic to `g` (as decided by
    /// `g.is_isomorphic`), the value of the first such entry is replaced and the old value is
    /// returned; the stored key is kept. Otherwise the entry is added and `None` is returned.
    pub fn insert(&mut self, g: G, val: T) -> (r: Option<T>)
        requires
            old(self).wf(),
        ensures
            final(self).wf(),
            final(self)@ == model_insert(old(self)@, g, val),
            ({
                let k = g.spec_hash();
                let b = bucket_at(old(self)@, k);
                let i = first_where(b, matches_from(g));
                if i >= 0 {
                    &&& r == Some(b[i].1)
                    &&& final(self)@ == old(self)@.insert(k, b.update(i, (b[i].0, val)))
                    &&& final(self).size() == old(self).size()
                    &&& final(self).spec_stats() == old(self).spec_stats()
                } else {
                    &&& r is None
                    &&& final(self)@ == old(self)@.insert(k, b.push((g, val)))
                    &&& final(self).size() == old(self).size() + 1
                    &&& final(self).spec_stats() == old(self).spec_stats().spec_on_insert(g)
                }
            }),
    {
        let ghost old_bs = self.bucket_seq();
        let ghost p = matches_from::<G, T>(g);
        let key = g.hash();
        match self.find_bucket(&key) {
            None => {
                proof {
                    lemma_first_where(Seq::<(G, T)>::empty(), p, 0);
                }
                self.put_new_bucket(key, g, val);
                proof {
                    assert(Seq::<(G, T)>::empty().push((g, val)) == bucket_at(old(self)@, g.spec_hash()).push((g, val)));
                }
                None
            },
            Some(bi) => {
                proof {
                    self.lemma_wf_bucket(bi as int);
                }
                let ghost b = old_bs[bi as int].1;
                let mut j: usize = 0;
                while j < self.buckets[bi].1.len()
                    invariant
                        self.wf(),
                        self.bucket_seq() == old_bs,
                        bi < old_bs.len(),
                        b == old_bs[bi as int].1,
                        j <= b.len(),
                        forall|jj: int| 0 <= jj < j ==> !p(#[trigger] b[jj]),
                        p == matches_from::<G, T>(g),
                        self.spec_stats() == old(self).spec_stats(),
                    ensures
                        j <= b.len(),
                        forall|jj: int| 0 <= jj < j ==> !p(#[trigger] b[jj]),
                        j < b.len() ==> p(b[j as int]),
                        self.bucket_seq() == old_bs,
                        self.spec_stats() == old(self).spec_stats(),
                    decreases b.len() - j,
                {
                    proof {
                        assert(self.buckets@[bi as int].1@ == b);
                    }
                    if g.is_isomorphic(&self.buckets[bi].1[j].0) {
                        assert(p(b[j as int]));
                        break;
                    }
                    j = j + 1;
                }
                proof {
                    lemma_first_where(b, p, j as int);
                }
                self.put_at(bi, j, g, val)
            },
        }
    }
}

impl<G: CombEq, T, S: CombStats<G>> CombMap<G, T, S> {
    /// The position in bucket `bi` of the first entry whose key is isomorphic to `g`, as
    /// `key.is_isomorphic(g)` decides, or the bucket's length.
    fn position_to(&self, bi: usize, g: &G) -> (r: usize)
        requires
            bi < self.bucket_seq().len(),
        ensures
            r <= self.bucket_seq()[bi as int].1.len(),
            r < self.bucket_seq()[bi as int].1.len() ==> first_where(self.bucket_seq()[bi as int].1, matches_to(*g)) == r,
            r == self.bucket_seq()[bi as int].1.len() ==> first_where(self.bucket_seq()[bi as int].1, matches_to(*g)) == -1,
    {
        let ghost b = self.bucket_seq()[bi as int].1;
        let ghost p = matches_to::<G, T>(*g);
        proof {
            assert(self.buckets@[bi as int].1@ == b);
        }
        let mut j: usize = 0;
        while j < self.buckets[bi].1.len()
            invariant
                bi < self.buckets.len(),
                self.buckets@[bi as int].1@ == b,
                j <= b.len(),
                forall|jj: int| 0 <= jj < j ==> !p(#[trigger] b[jj]),
                p == matches_to::<G, T>(*g),
            ensures
                j <= b.len(),
                forall|jj: int| 0 <= jj < j ==> !p(#[trigger] b[jj]),
                j < b.len() ==> p(b[j as int]),
            decreases b.len() - j,
        {
            if self.buckets[bi].1[j].0.is_isomorphic(g) {
                assert(p(b[j as int]));
                break;
            }
            j = j + 1;
        }
        proof {
            lemma_first_where(b, p, j as int);
        }
        j
    }

    /// Inserts a key-value pair, assuming the key is not isomorphic to any present key.
    ///
    /// If an isomorphic key is present, the map now holds several entries with isomorphic keys.
    pub fn insert_unchecked(&mut self, g: G, val: T)
        requires
            old(self).wf(),
        ensures
            final(self).wf(),
            final(self)@ == old(self)@.insert(g.spec_hash(), bucket_at(old(self)@, g.spec_hash()).push((g, val))),
            final(self).size() == old(self).size() + 1,
            final(self).spec_stats() == old(self).spec_stats().spec_on_insert(g),
    {
        let ghost old_bs = self.bucket_seq();
        let key = g.hash();
        match self.find_bucket(&key) {
            None => {
                self.stats.on_insert(&g);
                let mut v: Vec<(G, T)> = Vec::new();
                v.push((g, val));
                self.buckets.push((key, v));
                proof {
                    assert(self.bucket_seq() =~= old_bs.push((key@, v@)));
                    lemma_key_map_push(old_bs, key@, v@);
                    assert(v@ =~= Seq::<(G, T)>::empty().push((g, val)));
                    assert(old_bs.push((key@, v@)).drop_last() =~= old_bs);
                    assert forall|i: int| 0 <= i < self.bucket_seq().len() implies #[trigger] self.bucket_seq()[i].1.len() > 0 by {
                        if i < old_bs.len() { assert(self.bucket_seq()[i] == old_bs[i]); }
                    }
                    assert forall|i: int, j: int|
                        0 <= i < self.bucket_seq().len() && 0 <= j < self.bucket_seq()[i].1.len()
                        implies (#[trigger] self.bucket_seq()[i].1[j]).0.spec_hash() == self.bucket_seq()[i].0 by {
                        if i < old_bs.len() { assert(self.bucket_seq()[i] == old_bs[i]); }
                    }
                }
            },
            Some(bi) => {
                proof {
                    self.lemma_wf_bucket(bi as int);
                    assert(self.buckets@[bi as int].1@ == old_bs[bi as int].1);
                }
                let ghost b = old_bs[bi as int].1;
                self.stats.on_insert(&g);
                self.buckets[bi].1.push((g, val));
                proof {
                    let nb = b.push((g, val));
                    assert(self.buckets@[bi as int].1@ =~= nb);
                    assert(self.bucket_seq() =~= old_bs.update(bi as int, (old_bs[bi as int].0, nb)));
                    lemma_key_map_update(old_bs, bi as int, nb);
                    lemma_total_len_update(old_bs, bi as int, (old_bs[bi as int].0, nb));
                    assert forall|i: int| 0 <= i < self.bucket_seq().len() implies #[trigger] self.bucket_seq()[i].1.len() > 0 by {
                        if i != bi { assert(self.bucket_seq()[i] == old_bs[i]); }
                    }
                    assert forall|i: int, jj: int|
                        0 <= i < self.bucket_seq().len() && 0 <= jj < self.bucket_seq()[i].1.len()
                        implies (#[trigger] self.bucket_seq()[i].1[jj]).0.spec_hash() == self.bucket_seq()[i].0 by {
                        if i != bi { assert(self.bucket_seq()[i] == old_bs[i]); } else if jj < b.len() {
                            assert(self.bucket_seq()[i].1[jj] == b[jj]);
                        }
                    }
                }
            },
        }
    }

    /// Returns a reference to the value of the first entry, in the bucket of `g`'s hash, whose
    /// key is isomorphic to `g` (as `key.is_isomorphic(g)` decides).
    pub fn get(&self, g: &G) -> (r: Option<&T>)
        requires
            self.wf(),
        ensures
            r is Some <==> model_get(self@, *g) is Some,
            r matches Some(v) ==> model_get(self@, *g) == Some(*v),
            ({
                let b = bucket_at(self@, g.spec_hash());
                let i = first_where(b, matches_to(*g));
                if i >= 0 {
                    r == Some(&b[i].1)
                } else {
                    r is None
                }
            }),
    {
        let key = g.hash();
        match self.find_bucket(&key) {
            None => {
                proof {
                    lemma_first_where(Seq::<(G, T)>::empty(), matches_to(*g), 0);
                }
                None
            },
            Some(bi) => {
                proof {
                    self.lemma_wf_bucket(bi as int);
                }
                let j = self.position_to(bi, g);
                if j < self.buckets[bi].1.len() {
                    proof {
                        assert(self.buckets@[bi as int].1@ == self.bucket_seq()[bi as int].1);
                    }
                    Some(&self.buckets[bi].1[j].1)
                } else {
                    None
                }
            },
        }
    }

    /// Returns `true` if the map holds a key isomorphic to `g`, as `get` finds it.
    pub fn contains_key(&self, g: &G) -> (r: bool)
        requires
            self.wf(),
        ensures
            r == (first_where(bucket_at(self@, g.spec_hash()), matches_to(*g)) >= 0),
    {
        self.get(g).is_some()
    }

    /// Removes the first entry, in the bucket of `g`'s hash, whose key is isomorphic to `g`
    /// (as `key.is_isomorphic(g)` decides), and returns its value. The last entry of the bucket
    /// takes the place of the removed one; a bucket left empty is dropped.
    pub fn remove(&mut self, g: &G) -> (r: Option<T>)
        requires
            old(self).wf(),
        ensures
            final(self).wf(),
            final(self)@ == model_remove(old(self)@, *g),
            r == model_get(old(self)@, *g),
            ({
                let k = g.spec_hash();
                let b = bucket_at(old(self)@, k);
                let i = first_where(b, matches_to(*g));
                if i >= 0 {
                    let nb = b.update(i, b.last()).drop_last();
                    &&& r == Some(b[i].1)
                    &&& final(self)@ == if nb.len() == 0 { old(self)@.remove(k) } else { old(self)@.insert(k, nb) }
                    &&& final(self).size() + 1 == old(self).size()
                } else {
                    &&& r is None
                    &&& final(self)@ == old(self)@
                    &&& final(self).size() == old(self).size()
                }
            }),
    {
        let ghost old_bs = self.bucket_seq();
        let key = g.hash();
        match self.find_bucket(&key) {
            None => {
                proof {
                    lemma_first_where(Seq::<(G, T)>::empty(), matches_to(*g), 0);
                }
                None
            },
            Some(bi) => {
                proof {
                    self.lemma_wf_bucket(bi as int);
                    assert(self.buckets@[bi as int].1@ == old_bs[bi as int].1);
                }
                let ghost b = old_bs[bi as int].1;
                let j = self.position_to(bi, g);
                if j < self.buckets[bi].1.len() {
                    Some(self.take_at(bi, j))
                } else {
                    None
                }
            },
        }
    }
}

impl<G: CombEq, T, S: CombStats<G>> CombMap<G, T, S> {
    /// Takes out the entry at position `j` of bucket `bi` (the bucket's last entry takes its
    /// place) and returns its value; a bucket left empty is dropped.
    fn take_at(&mut self, bi: usize, j: usize) -> (val: T)
        requires
            old(self).wf(),
            bi < old(self).bucket_seq().len(),
            j < old(self).bucket_seq()[bi as int].1.len(),
        ensures
            final(self).wf(),
            ({
                let k = old(self).bucket_seq()[bi as int].0;
                let b = old(self).bucket_seq()[bi as int].1;
                let nb = b.update(j as int, b.last()).drop_last();
                &&& val == b[j as int].1
                &&& old(self)@.dom().contains(k)
                &&& old(self)@[k] == b
                &&& final(self)@ == if nb.len() == 0 { old(self)@.remove(k) } else { old(self)@.insert(k, nb) }
                &&& final(self).size() + 1 == old(self).size()
            }),
    {
        let ghost old_bs = self.bucket_seq();
        let ghost key = old_bs[bi as int].0;
        proof {
            self.lemma_wf_bucket(bi as int);
            assert(self.buckets@[bi as int].1@ == old_bs[bi as int].1);
            assert(self.buckets@[bi as int].0@ == key);
        }
        let ghost b = old_bs[bi as int].1;
        let (_, val) = self.buckets[bi].1.swap_remove(j);
        let ghost nb = b.update(j as int, b.last()).drop_last();
        proof {
            assert(self.buckets@[bi as int].1@ =~= nb);
            lemma_total_len_update(old_bs, bi as int, (old_bs[bi as int].0, nb));
            lemma_key_map_update(old_bs, bi as int, nb);
        }
        if self.buckets[bi].1.len() == 0 {
            let ghost mid = self.bucket_seq();
            proof {
                assert(mid =~= old_bs.update(bi as int, (old_bs[bi as int].0, nb)));
            }
            self.buckets.remove(bi);
            proof {
                assert(self.bucket_seq() =~= mid.remove(bi as int));
                lemma_key_map_remove(mid, bi as int);
                lemma_total_len_remove(mid, bi as int);
                assert(key_map(mid).remove(key) =~= old(self)@.remove(key));
                assert forall|i: int| 0 <= i < self.bucket_seq().len() implies #[trigger] self.bucket_seq()[i].1.len() > 0 by {
                    let i2 = if i < bi { i } else { i + 1 };
                    assert(self.bucket_seq()[i] == old_bs[i2]);
                }
                assert forall|i: int, jj: int|
                    0 <= i < self.bucket_seq().len() && 0 <= jj < self.bucket_seq()[i].1.len()
                    implies (#[trigger] self.bucket_seq()[i].1[jj]).0.spec_hash() == self.bucket_seq()[i].0 by {
                    let i2 = if i < bi { i } else { i + 1 };
                    assert(self.bucket_seq()[i] == old_bs[i2]);
                }
            }
        } else {
            proof {
                assert(self.bucket_seq() =~= old_bs.update(bi as int, (old_bs[bi as int].0, nb)));
                assert forall|i: int| 0 <= i < self.bucket_seq().len() implies #[trigger] self.bucket_seq()[i].1.len() > 0 by {
                    if i != bi { assert(self.bucket_seq()[i] == old_bs[i]); }
                }
                assert forall|i: int, jj: int|
                    0 <= i < self.bucket_seq().len() && 0 <= jj < self.bucket_seq()[i].1.len()
                    implies (#[trigger] self.bucket_seq()[i].1[jj]).0.spec_hash() == self.bucket_seq()[i].0 by {
                    if i != bi { assert(self.bucket_seq()[i] == old_bs[i]); } else {
                        if jj == j { assert(nb[jj] == b[b.len() - 1]); } else { assert(nb[jj] == b[jj]); }
                    }
                }
            }
        }
        val
    }
}

/// The entries of `s` whose flag in `keep` is set, in order.
pub open spec fn filter_keep<E>(s: Seq<E>, keep: Seq<bool>) -> Seq<E>
    decreases s.len(),
{
    if s.len() == 0 {
        Seq::empty()
    } else {
        let r = filter_keep(s.drop_last(), keep.drop_last());
        if keep.last() {
            r.push(s.last())
        } else {
            r
        }
    }
}

/// For each entry of `s`: no earlier entry's key is isomorphic to its key (as
/// `earlier.is_isomorphic(later)` decides).
pub open spec fn first_of_class<G: CombEq, T>(s: Seq<(G, T)>) -> Seq<bool> {
    Seq::new(s.len(), |j: int| forall|i: int| 0 <= i < j ==> !(#[trigger] s[i]).0.spec_iso(&s[j].0))
}

proof fn lemma_filter_keep_len<E>(s: Seq<E>, keep: Seq<bool>)
    requires
        keep.len() == s.len(),
    ensures
        filter_keep(s, keep).len() <= s.len(),
        forall|j: int| 0 <= j < filter_keep(s, keep).len() ==> s.contains(#[trigger] filter_keep(s, keep)[j]),
    decreases s.len(),
{
    if s.len() > 0 {
        lemma_filter_keep_len(s.drop_last(), keep.drop_last());
        let r = filter_keep(s.drop_last(), keep.drop_last());
        assert forall|j: int| 0 <= j < filter_keep(s, keep).len() implies s.contains(#[trigger] filter_keep(s, keep)[j]) by {
            if j < r.len() {
                let x = r[j];
                assert(s.drop_last().contains(x));
                let t = choose|t: int| 0 <= t < s.drop_last().len() && s.drop_last()[t] == x;
                assert(s[t] == x);
            } else {
                assert(s[s.len() - 1] == s.last());
            }
        }
    }
}

/// Moves the flagged entries of `v` into a new vector, in order.
pub(crate) fn move_filter<E>(v: Vec<E>, flags: &Vec<bool>) -> (r: Vec<E>)
    requires
        flags@.len() == v@.len(),
    ensures
        r@ == filter_keep(v@, flags@),
{
    let ghost orig = v@;
    let n = v.len();
    assert(orig.len() == n);
    let mut v = v;
    let mut rev: Vec<E> = Vec::new();
    while v.len() > 0
        invariant
            orig.len() == v@.len() + rev@.len(),
            forall|j: int| 0 <= j < v@.len() ==> v@[j] == orig[j],
            forall|j: int| 0 <= j < rev@.len() ==> rev@[j] == orig[orig.len() - 1 - j],
        decreases v@.len(),
    {
        let e = v.pop().unwrap();
        rev.push(e);
    }
    let mut out: Vec<E> = Vec::new();
    let mut i: usize = 0;
    while rev.len() > 0
        invariant
            i + rev@.len() == orig.len(),
            orig.len() == n,
            flags@.len() == orig.len(),
            forall|j: int| 0 <= j < rev@.len() ==> rev@[j] == orig[orig.len() - 1 - j],
            out@ == filter_keep(orig.take(i as int), flags@.take(i as int)),
        decreases rev@.len(),
    {
        let e = rev.pop().unwrap();
        proof {
            assert(e == orig[i as int]);
            assert(orig.take(i + 1).drop_last() =~= orig.take(i as int));
            assert(flags@.take(i + 1).drop_last() =~= flags@.take(i as int));
        }
        if flags[i] {
            out.push(e);
        }
        i = i + 1;
    }
    proof {
        assert(orig.take(i as int) =~= orig);
        assert(flags@.take(i as int) =~= flags@);
    }
    out
}

/// `after` keeps, of each bucket of `before`, the entries on which `f` returned `true`.
pub open spec fn retained_by<G, T, F: Fn(&G, &T) -> bool>(
    before: Map<Seq<usize>, Seq<(G, T)>>,
    after: Map<Seq<usize>, Seq<(G, T)>>,
    f: F,
) -> bool {
    forall|k: Seq<usize>| #[trigger] retained_at(before, after, f, k)
}

/// `retained_by` at the bucket key `k`.
pub open spec fn retained_at<G, T, F: Fn(&G, &T) -> bool>(
    before: Map<Seq<usize>, Seq<(G, T)>>,
    after: Map<Seq<usize>, Seq<(G, T)>>,
    f: F,
    k: Seq<usize>,
) -> bool {
    exists|keep: Seq<bool>| #![trigger filter_keep(bucket_at(before, k), keep)] {
        let b = bucket_at(before, k);
        &&& keep.len() == b.len()
        &&& forall|j: int| 0 <= j < b.len() ==> call_ensures(f, (&(#[trigger] b[j]).0, &b[j].1), keep[j])
        &&& bucket_at(after, k) == filter_keep(b, keep)
    }
}

proof fn lemma_bucket_at_remove_empty<E>(m: Map<Seq<usize>, Seq<E>>, k0: Seq<usize>, k: Seq<usize>)
    requires
        m.dom().contains(k0),
        m[k0].len() == 0,
    ensures
        bucket_at(m.remove(k0), k) == bucket_at(m, k),
{
    if k == k0 {
        assert(m[k0] =~= Seq::<E>::empty());
    }
}

impl<G: CombEq, T, S: CombStats<G>> CombMap<G, T, S> {
    /// Drops the empty buckets; with `keys_distinct` and the hash property this restores `wf`.
    fn drop_empty_buckets(&mut self)
        requires
            keys_distinct(old(self).bucket_seq()),
            forall|i: int, j: int|
                0 <= i < old(self).bucket_seq().len() && 0 <= j < old(self).bucket_seq()[i].1.len()
                ==> (#[trigger] old(self).bucket_seq()[i].1[j]).0.spec_hash() == old(self).bucket_seq()[i].0,
        ensures
            final(self).wf(),
            forall|k: Seq<usize>| bucket_at(final(self)@, k) == bucket_at(old(self)@, k),
            final(self).size() == old(self).size(),
    {
        let ghost orig = self.bucket_seq();
        let mut i: usize = self.buckets.len();
        while i > 0
            invariant
                i <= self.bucket_seq().len(),
                keys_distinct(self.bucket_seq()),
                forall|a: int, j: int|
                    0 <= a < self.bucket_seq().len() && 0 <= j < self.bucket_seq()[a].1.len()
                    ==> (#[trigger] self.bucket_seq()[a].1[j]).0.spec_hash() == self.bucket_seq()[a].0,
                forall|a: int| i <= a < self.bucket_seq().len() ==> #[trigger] self.bucket_seq()[a].1.len() > 0,
                forall|k: Seq<usize>| bucket_at(self@, k) == bucket_at(key_map(orig), k),
                total_len(self.bucket_seq()) == total_len(orig),
            decreases i,
        {
            i = i - 1;
            proof {
                assert(self.bucket_seq()[i as int].1 == self.buckets@[i as int].1@);
            }
            if self.buckets[i].1.len() == 0 {
                let ghost cur = self.bucket_seq();
                self.buckets.remove(i);
                proof {
                    assert(self.bucket_seq() =~= cur.remove(i as int));
                    lemma_key_map_remove(cur, i as int);
                    lemma_total_len_remove(cur, i as int);
                    lemma_key_map_at(cur, i as int);
                    assert forall|k: Seq<usize>| bucket_at(self@, k) == bucket_at(key_map(orig), k) by {
                        lemma_bucket_at_remove_empty(key_map(cur), cur[i as int].0, k);
                    }
                    assert forall|a: int, j: int|
                        0 <= a < self.bucket_seq().len() && 0 <= j < self.bucket_seq()[a].1.len()
                        implies (#[trigger] self.bucket_seq()[a].1[j]).0.spec_hash() == self.bucket_seq()[a].0 by {
                        let a2 = if a < i { a } else { a + 1 };
                        assert(self.bucket_seq()[a] == cur[a2]);
                    }
                    assert forall|a: int| i <= a < self.bucket_seq().len() implies #[trigger] self.bucket_seq()[a].1.len() > 0 by {
                        assert(self.bucket_seq()[a] == cur[a + 1]);
                    }
                }
            }
        }
    }

    /// Retains only the entries for which `f` returns `true`; entries are visited bucket by
    /// bucket. The predicate receives a shared reference to the value.
    pub fn retain<F: Fn(&G, &T) -> bool>(&mut self, f: F)
        requires
            old(self).wf(),
            forall|k: Seq<usize>, j: int| old(self)@.dom().contains(k) && 0 <= j < old(self)@[k].len()
                ==> call_requires(f, (&(#[trigger] old(self)@[k][j]).0, &old(self)@[k][j].1)),
        ensures
            final(self).wf(),
            retained_by(old(self)@, final(self)@, f),
    {
        let ghost orig = self.bucket_seq();
        let ghost mut decisions: Seq<Seq<bool>> = Seq::empty();
        proof {
            assert forall|a: int, j: int| 0 <= a < orig.len() && 0 <= j < orig[a].1.len() implies
                call_requires(f, (&(#[trigger] orig[a].1[j]).0, &orig[a].1[j].1)) by {
                lemma_key_map_at(orig, a);
                assert(old(self)@[orig[a].0][j] == orig[a].1[j]);
            }
        }
        let mut i: usize = 0;
        while i < self.buckets.len()
            invariant
                keys_distinct(orig),
                self.bucket_seq().len() == orig.len(),
                i <= orig.len(),
                decisions.len() == i,
                forall|a: int| 0 <= a < orig.len() ==> (#[trigger] self.bucket_seq()[a]).0 == orig[a].0,
                forall|a: int| i <= a < orig.len() ==> (#[trigger] self.bucket_seq()[a]) == orig[a],
                forall|a: int| 0 <= a < i ==> {
                    &&& (#[trigger] decisions[a]).len() == orig[a].1.len()
                    &&& forall|j: int| 0 <= j < orig[a].1.len() ==> call_ensures(f, (&(#[trigger] orig[a].1[j]).0, &orig[a].1[j].1), decisions[a][j])
                    &&& self.bucket_seq()[a].1 == filter_keep(orig[a].1, decisions[a])
                },
                forall|a: int, j: int| 0 <= a < orig.len() && 0 <= j < orig[a].1.len() ==>
                    call_requires(f, (&(#[trigger] orig[a].1[j]).0, &orig[a].1[j].1)),
                forall|a: int, j: int|
                    0 <= a < orig.len() && 0 <= j < orig[a].1.len() ==> (#[trigger] orig[a].1[j]).0.spec_hash() == orig[a].0,
            decreases orig.len() - i,
        {
            proof {
                assert(self.bucket_seq()[i as int] == orig[i as int]);
                assert(self.buckets@[i as int].1@ == orig[i as int].1);
            }
            let mut flags: Vec<bool> = Vec::new();
            let mut j: usize = 0;
            while j < self.buckets[i].1.len()
                invariant
                    i < self.buckets.len(),
                    self.buckets@[i as int].1@ == orig[i as int].1,
                    j <= orig[i as int].1.len(),
                    flags@.len() == j,
                    forall|jj: int| 0 <= jj < orig[i as int].1.len() ==>
                        call_requires(f, (&(#[trigger] orig[i as int].1[jj]).0, &orig[i as int].1[jj].1)),
                    forall|jj: int| 0 <= jj < j ==>
                        call_ensures(f, (&(#[trigger] orig[i as int].1[jj]).0, &orig[i as int].1[jj].1), flags@[jj]),
                decreases orig[i as int].1.len() - j,
            {
                let keep = f(&self.buckets[i].1[j].0, &self.buckets[i].1[j].1);
                flags.push(keep);
                j = j + 1;
            }
            let ghost pre = self.buckets@;
            let ghost pre_seq = self.bucket_seq();
            let mut v: Vec<(G, T)> = Vec::new();
            core::mem::swap(&mut self.buckets[i].1, &mut v);
            assert(v@ == orig[i as int].1);
            let kept = move_filter(v, &flags);
            self.buckets[i].1 = kept;
            proof {
                assert(self.buckets@.len() == pre.len());
                assert(self.buckets@[i as int].0 == pre[i as int].0);
                assert(self.buckets@[i as int].1@ == filter_keep(orig[i as int].1, flags@));
                assert forall|a: int| 0 <= a < pre.len() && a != i implies self.bucket_seq()[a] == pre_seq[a] by {
                    assert(self.buckets@[a] == pre[a]);
                }
                decisions = decisions.push(flags@);
                assert(self.bucket_seq()[i as int] == (orig[i as int].0, filter_keep(orig[i as int].1, flags@)));
                assert(self.bucket_seq().len() == orig.len());
                assert forall|a: int| 0 <= a < orig.len() implies (#[trigger] self.bucket_seq()[a]).0 == orig[a].0 by {
                    if a != i {
                        assert(pre_seq[a].0 == orig[a].0);
                    }
                }
                assert forall|a: int| i < a < orig.len() implies (#[trigger] self.bucket_seq()[a]) == orig[a] by {
                    assert(pre_seq[a] == orig[a]);
                }
            }
            i = i + 1;
        }
        let ghost filtered = self.bucket_seq();
        proof {
            assert(keys_distinct(filtered));
            assert forall|a: int, j: int|
                0 <= a < filtered.len() && 0 <= j < filtered[a].1.len()
                implies (#[trigger] filtered[a].1[j]).0.spec_hash() == filtered[a].0 by {
                lemma_filter_keep_len(orig[a].1, decisions[a]);
                assert(orig[a].1.contains(filtered[a].1[j]));
            }
        }
        self.drop_empty_buckets();
        proof {
            assert forall|k: Seq<usize>| #[trigger] retained_at(old(self)@, self@, f, k) by {
                assert(old(self)@ == key_map(orig));
                if key_map(orig).dom().contains(k) {
                    let a = choose|a: int| 0 <= a < orig.len() && orig[a].0 == k;
                    lemma_key_map_at(orig, a);
                    lemma_key_map_at(filtered, a);
                    let keep = decisions[a];
                    assert(bucket_at(old(self)@, k) == orig[a].1);
                    assert(bucket_at(key_map(filtered), k) == filtered[a].1);
                    assert(bucket_at(self@, k) == filter_keep(bucket_at(old(self)@, k), keep));
                } else {
                    let keep = Seq::<bool>::empty();
                    assert(!key_map(filtered).dom().contains(k)) by {
                        if key_map(filtered).dom().contains(k) {
                            let a = choose|a: int| 0 <= a < filtered.len() && filtered[a].0 == k;
                            assert(orig[a].0 == k);
                        }
                    }
                    assert(bucket_at(old(self)@, k) == Seq::<(G, T)>::empty());
                    assert(filter_keep(Seq::<(G, T)>::empty(), keep) == Seq::<(G, T)>::empty());
                    assert(bucket_at(self@, k) == filter_keep(bucket_at(old(self)@, k), keep));
                }
            }
        }
        assert(retained_by(old(self)@, self@, f));
    }
}

/// A bucket after `dedup`: the entries whose key is not isomorphic from an earlier key.
pub open spec fn dedup_bucket<G: CombEq, T>(b: Seq<(G, T)>) -> Seq<(G, T)> {
    filter_keep(b, first_of_class(b))
}

proof fn lemma_filter_keep_first<E>(s: Seq<E>, keep: Seq<bool>)
    requires
        keep.len() == s.len(),
        s.len() > 0,
        keep[0],
    ensures
        filter_keep(s, keep).len() > 0,
    decreases s.len(),
{
    if s.len() > 1 {
        lemma_filter_keep_first(s.drop_last(), keep.drop_last());
    }
}

/// No entry kept by `dedup` has a key that an earlier kept key is isomorphic to.
pub proof fn lemma_dedup_bucket_unique<G: CombEq, T>(b: Seq<(G, T)>)
    ensures
        forall|x: int, y: int| 0 <= x < y < dedup_bucket(b).len() ==> !(#[trigger] dedup_bucket(b)[x]).0.spec_iso(&(#[trigger] dedup_bucket(b)[y]).0),
    decreases b.len(),
{
    if b.len() > 0 {
        let b2 = b.drop_last();
        lemma_dedup_bucket_unique(b2);
        assert forall|j: int| 0 <= j < b2.len() implies first_of_class(b).drop_last()[j] == first_of_class(b2)[j] by {
            assert forall|t: int| 0 <= t < j implies b2[t] == b[t] by {}
            assert(b2[j] == b[j]);
        }
        assert(first_of_class(b).drop_last() =~= first_of_class(b2));
        let r2 = dedup_bucket(b2);
        let r = dedup_bucket(b);
        lemma_filter_keep_len(b2, first_of_class(b2));
        if first_of_class(b).last() {
            assert(r == r2.push(b.last()));
            assert forall|x: int, y: int| 0 <= x < y < r.len() implies !(#[trigger] r[x]).0.spec_iso(&(#[trigger] r[y]).0) by {
                if y == r.len() - 1 {
                    assert(b2.contains(r2[x]));
                    let t = choose|t: int| 0 <= t < b2.len() && b2[t] == r2[x];
                    assert(b[t] == r2[x]);
                    assert(first_of_class(b)[b.len() - 1]);
                } else {
                    assert(r[x] == r2[x] && r[y] == r2[y]);
                }
            }
        } else {
            assert(r == r2);
        }
    }
}

impl<G: CombEq, T, S: CombStats<G>> CombMap<G, T, S> {
    /// Removes the entries whose key an earlier key of the same bucket is isomorphic to (as
    /// `earlier.is_isomorphic(later)` decides); the first entry of each class is kept.
    pub fn dedup(&mut self)
        requires
            old(self).wf(),
        ensures
            final(self).wf(),
            final(self)@ == old(self)@.map_values(|b: Seq<(G, T)>| dedup_bucket(b)),
            final(self).spec_stats() == old(self).spec_stats(),
    {
        let ghost orig = self.bucket_seq();
        let mut i: usize = 0;
        while i < self.buckets.len()
            invariant
                self.spec_stats() == old(self).spec_stats(),
                keys_distinct(orig),
                self.bucket_seq().len() == orig.len(),
                i <= orig.len(),
                forall|a: int| 0 <= a < orig.len() ==> (#[trigger] self.bucket_seq()[a]).0 == orig[a].0,
                forall|a: int| i <= a < orig.len() ==> (#[trigger] self.bucket_seq()[a]) == orig[a],
                forall|a: int| 0 <= a < i ==> (#[trigger] self.bucket_seq()[a]).1 == dedup_bucket(orig[a].1),
                forall|a: int| 0 <= a < orig.len() ==> (#[trigger] orig[a]).1.len() > 0,
                forall|a: int, j: int|
                    0 <= a < orig.len() && 0 <= j < orig[a].1.len() ==> (#[trigger] orig[a].1[j]).0.spec_hash() == orig[a].0,
            decreases orig.len() - i,
        {
            proof {
                assert(self.bucket_seq()[i as int] == orig[i as int]);
                assert(self.buckets@[i as int].1@ == orig[i as int].1);
            }
            let ghost b = orig[i as int].1;
            let n = self.buckets[i].1.len();
            let mut flags: Vec<bool> = Vec::new();
            let mut j: usize = 0;
            while j < n
                invariant
                    i < self.buckets.len(),
                    self.buckets@[i as int].1@ == b,
                    n == b.len(),
                    j <= n,
                    flags@.len() == j,
                    forall|jj: int| 0 <= jj < j ==> flags@[jj] == (#[trigger] first_of_class(b)[jj]),
                decreases n - j,
            {
                let mut keep = true;
                let mut x: usize = 0;
                while x < j
                    invariant
                        i < self.buckets.len(),
                        self.buckets@[i as int].1@ == b,
                        j < n,
                        n == b.len(),
                        x <= j,
                        keep == forall|y: int| 0 <= y < x ==> !(#[trigger] b[y]).0.spec_iso(&b[j as int].0),
                    decreases j - x,
                {
                    if self.buckets[i].1[x].0.is_isomorphic(&self.buckets[i].1[j].0) {
                        keep = false;
                    }
                    x = x + 1;
                }
                flags.push(keep);
                j = j + 1;
            }
            proof {
                assert(flags@ =~= first_of_class(b));
            }
            let ghost pre = self.buckets@;
            let ghost pre_seq = self.bucket_seq();
            let mut v: Vec<(G, T)> = Vec::new();
            core::mem::swap(&mut self.buckets[i].1, &mut v);
            let kept = move_filter(v, &flags);
            self.buckets[i].1 = kept;
            proof {
                assert forall|a: int| 0 <= a < pre.len() && a != i implies self.bucket_seq()[a] == pre_seq[a] by {
                    assert(self.buckets@[a] == pre[a]);
                }
                assert(self.bucket_seq()[i as int] == (orig[i as int].0, dedup_bucket(b)));
                assert forall|a: int| 0 <= a < orig.len() implies (#[trigger] self.bucket_seq()[a]).0 == orig[a].0 by {
                    if a != i {
                        assert(pre_seq[a].0 == orig[a].0);
                    }
                }
                assert forall|a: int| i < a < orig.len() implies (#[trigger] self.bucket_seq()[a]) == orig[a] by {
                    assert(pre_seq[a] == orig[a]);
                }
                assert forall|a: int| 0 <= a <= i implies (#[trigger] self.bucket_seq()[a]).1 == dedup_bucket(orig[a].1) by {
                    if a < i {
                        assert(pre_seq[a].1 == dedup_bucket(orig[a].1));
                    }
                }
            }
            i = i + 1;
        }
        proof {
            let cur = self.bucket_seq();
            assert(keys_distinct(cur));
            assert forall|a: int| 0 <= a < cur.len() implies #[trigger] cur[a].1.len() > 0 by {
                lemma_filter_keep_first(orig[a].1, first_of_class(orig[a].1));
            }
            assert forall|a: int, j: int|
                0 <= a < cur.len() && 0 <= j < cur[a].1.len()
                implies (#[trigger] cur[a].1[j]).0.spec_hash() == cur[a].0 by {
                lemma_filter_keep_len(orig[a].1, first_of_class(orig[a].1));
                assert(orig[a].1.contains(cur[a].1[j]));
            }
            let m = old(self)@.map_values(|b: Seq<(G, T)>| dedup_bucket(b));
            assert(old(self)@ == key_map(orig));
            assert forall|k: Seq<usize>| self@.dom().contains(k) <==> m.dom().contains(k) by {
                if self@.dom().contains(k) {
                    let a = choose|a: int| 0 <= a < cur.len() && cur[a].0 == k;
                    assert(orig[a].0 == k);
                }
                if m.dom().contains(k) {
                    let a = choose|a: int| 0 <= a < orig.len() && orig[a].0 == k;
                    assert(cur[a].0 == k);
                }
            }
            assert forall|k: Seq<usize>| self@.dom().contains(k) implies self@[k] == m[k] by {
                let a = choose|a: int| 0 <= a < cur.len() && cur[a].0 == k;
                lemma_key_map_at(cur, a);
                lemma_key_map_at(orig, a);
            }
            assert(self@ =~= m);
        }
    }
}

/// Inserts `(g, val)` into the bucket model `m` as `CombMap::insert` does.
pub open spec fn model_insert<G: CombEq, T>(m: Map<Seq<usize>, Seq<(G, T)>>, g: G, val: T) -> Map<Seq<usize>, Seq<(G, T)>> {
    let k = g.spec_hash();
    let b = bucket_at(m, k);
    let i = first_where(b, matches_from(g));
    if i >= 0 {
        m.insert(k, b.update(i, (b[i].0, val)))
    } else {
        m.insert(k, b.push((g, val)))
    }
}

/// Inserts `(g, val)` into the bucket model `m` as `CombMap::insert_unchecked` does.
pub open spec fn model_insert_unchecked<G: CombEq, T>(m: Map<Seq<usize>, Seq<(G, T)>>, g: G, val: T) -> Map<Seq<usize>, Seq<(G, T)>> {
    m.insert(g.spec_hash(), bucket_at(m, g.spec_hash()).push((g, val)))
}

/// Inserts the pairs of `items` into `m` one after the other with `model_insert`.
pub open spec fn model_insert_all<G: CombEq, T>(m: Map<Seq<usize>, Seq<(G, T)>>, items: Seq<(G, T)>) -> Map<Seq<usize>, Seq<(G, T)>>
    decreases items.len(),
{
    if items.len() == 0 {
        m
    } else {
        let p = items.last();
        model_insert(model_insert_all(m, items.drop_last()), p.0, p.1)
    }
}

/// Inserts the pairs of `items` into `m` one after the other with `model_insert_unchecked`.
pub open spec fn model_insert_all_unchecked<G: CombEq, T>(m: Map<Seq<usize>, Seq<(G, T)>>, items: Seq<(G, T)>) -> Map<Seq<usize>, Seq<(G, T)>>
    decreases items.len(),
{
    if items.len() == 0 {
        m
    } else {
        let p = items.last();
        model_insert_unchecked(model_insert_all_unchecked(m, items.drop_last()), p.0, p.1)
    }
}

/// Reverses a vector by moving its elements.
fn reverse_vec<E>(v: Vec<E>) -> (r: Vec<E>)
    ensures
        r@ == v@.reverse(),
{
    let ghost orig = v@;
    let mut v = v;
    let mut rev: Vec<E> = Vec::new();
    while v.len() > 0
        invariant
            orig.len() == v@.len() + rev@.len(),
            forall|j: int| 0 <= j < v@.len() ==> v@[j] == orig[j],
            forall|j: int| 0 <= j < rev@.len() ==> rev@[j] == orig[orig.len() - 1 - j],
        decreases v@.len(),
    {
        let e = v.pop().unwrap();
        rev.push(e);
    }
    assert(rev@ =~= orig.reverse());
    rev
}

impl<G: CombEq, T, S: CombStats<G>> CombMap<G, T, S> {
    /// The entries, bucket after bucket, by reference.
    pub fn iter(&self) -> (r: Vec<(&G, &T)>)
        ensures
            r@.len() == self.entries().len(),
            forall|j: int| 0 <= j < r@.len() ==> *(#[trigger] r@[j]).0 == self.entries()[j].0 && *r@[j].1 == self.entries()[j].1,
    {
        let ghost bs = self.bucket_seq();
        let mut r: Vec<(&G, &T)> = Vec::new();
        let mut i: usize = 0;
        while i < self.buckets.len()
            invariant
                bs == self.bucket_seq(),
                i <= bs.len(),
                r@.len() == flat(bs.take(i as int)).len(),
                forall|j: int| 0 <= j < r@.len() ==> *(#[trigger] r@[j]).0 == flat(bs.take(i as int))[j].0 && *r@[j].1 == flat(bs.take(i as int))[j].1,
            decreases bs.len() - i,
        {
            proof {
                assert(self.buckets@[i as int].1@ == bs[i as int].1);
                assert(bs.take(i + 1).drop_last() =~= bs.take(i as int));
            }
            let ghost before = r@;
            let mut j: usize = 0;
            while j < self.buckets[i].1.len()
                invariant
                    bs == self.bucket_seq(),
                    i < bs.len(),
                    self.buckets@[i as int].1@ == bs[i as int].1,
                    j <= bs[i as int].1.len(),
                    r@.len() == before.len() + j,
                    forall|t: int| 0 <= t < before.len() ==> r@[t] == before[t],
                    forall|t: int| 0 <= t < j ==> *(#[trigger] r@[before.len() + t]).0 == bs[i as int].1[t].0 && *r@[before.len() + t].1 == bs[i as int].1[t].1,
                decreases bs[i as int].1.len() - j,
            {
                let e = &self.buckets[i].1[j];
                r.push((&e.0, &e.1));
                proof {
                    assert(r@[before.len() + j] == (&e.0, &e.1));
                }
                j = j + 1;
            }
            proof {
                let fl = flat(bs.take(i + 1));
                assert(fl == flat(bs.take(i as int)) + bs[i as int].1);
                let fl0 = flat(bs.take(i as int));
                assert forall|t: int| 0 <= t < r@.len() implies *(#[trigger] r@[t]).0 == fl[t].0 && *r@[t].1 == fl[t].1 by {
                    if t >= before.len() {
                        let u = t - before.len();
                        assert(r@[before.len() + u] == r@[t]);
                        assert(fl[t] == bs[i as int].1[u]);
                    } else {
                        assert(r@[t] == before[t]);
                        assert(fl[t] == fl0[t]);
                    }
                }
            }
            i = i + 1;
        }
        proof {
            assert(bs.take(i as int) =~= bs);
        }
        r
    }

    /// The keys, bucket after bucket, by reference.
    pub fn keys(&self) -> (r: Vec<&G>)
        ensures
            r@.len() == self.entries().len(),
            forall|j: int| 0 <= j < r@.len() ==> *(#[trigger] r@[j]) == self.entries()[j].0,
    {
        let pairs = self.iter();
        let mut r: Vec<&G> = Vec::new();
        let mut j: usize = 0;
        while j < pairs.len()
            invariant
                j <= pairs@.len(),
                r@.len() == j,
                forall|t: int| 0 <= t < j ==> *(#[trigger] r@[t]) == *pairs@[t].0,
            decreases pairs@.len() - j,
        {
            r.push(pairs[j].0);
            j = j + 1;
        }
        r
    }

    /// The values, bucket after bucket, by reference.
    pub fn values(&self) -> (r: Vec<&T>)
        ensures
            r@.len() == self.entries().len(),
            forall|j: int| 0 <= j < r@.len() ==> *(#[trigger] r@[j]) == self.entries()[j].1,
    {
        let pairs = self.iter();
        let mut r: Vec<&T> = Vec::new();
        let mut j: usize = 0;
        while j < pairs.len()
            invariant
                j <= pairs@.len(),
                r@.len() == j,
                forall|t: int| 0 <= t < j ==> *(#[trigger] r@[t]) == *pairs@[t].1,
            decreases pairs@.len() - j,
        {
            r.push(pairs[j].1);
            j = j + 1;
        }
        r
    }

    /// Consumes the map and returns its entries, bucket after bucket.
    pub fn into_entries(self) -> (r: Vec<(G, T)>)
        ensures
            r@ == self.entries(),
    {
        let ghost bs = self.bucket_seq();
        let rev = reverse_vec(self.buckets);
        let mut rev = rev;
        let mut out: Vec<(G, T)> = Vec::new();
        let ghost mut i: int = 0;
        while rev.len() > 0
            invariant
                0 <= i,
                i + rev@.len() == bs.len(),
                forall|j: int| 0 <= j < rev@.len() ==> (rev@[j].0@, rev@[j].1@) == bs[bs.len() - 1 - j],
                out@ == flat(bs.take(i as int)),
            decreases rev@.len(),
        {
            let (_, mut bucket) = rev.pop().unwrap();
            proof {
                assert(bs.take(i + 1).drop_last() =~= bs.take(i as int));
                assert(bucket@ == bs[i as int].1);
            }
            out.append(&mut bucket);
            proof { i = i + 1; }
        }
        proof {
            assert(bs.take(i as int) =~= bs);
        }
        out
    }

    /// Consumes the map and returns its keys, bucket after bucket.
    pub fn into_keys(self) -> (r: Vec<G>)
        ensures
            r@ == self.entries().map_values(|e: (G, T)| e.0),
    {
        let ghost es = self.entries();
        let rev = reverse_vec(self.into_entries());
        let mut rev = rev;
        let mut out: Vec<G> = Vec::new();
        while rev.len() > 0
            invariant
                out@.len() + rev@.len() == es.len(),
                forall|j: int| 0 <= j < rev@.len() ==> rev@[j] == es[es.len() - 1 - j],
                forall|j: int| 0 <= j < out@.len() ==> out@[j] == es[j].0,
            decreases rev@.len(),
        {
            let (g, _) = rev.pop().unwrap();
            out.push(g);
        }
        assert(out@ =~= es.map_values(|e: (G, T)| e.0));
        out
    }

    /// Consumes the map and returns its values, bucket after bucket.
    pub fn into_values(self) -> (r: Vec<T>)
        ensures
            r@ == self.entries().map_values(|e: (G, T)| e.1),
    {
        let ghost es = self.entries();
        let rev = reverse_vec(self.into_entries());
        let mut rev = rev;
        let mut out: Vec<T> = Vec::new();
        while rev.len() > 0
            invariant
                out@.len() + rev@.len() == es.len(),
                forall|j: int| 0 <= j < rev@.len() ==> rev@[j] == es[es.len() - 1 - j],
                forall|j: int| 0 <= j < out@.len() ==> out@[j] == es[j].1,
            decreases rev@.len(),
        {
            let (_, v) = rev.pop().unwrap();
            out.push(v);
        }
        assert(out@ =~= es.map_values(|e: (G, T)| e.1));
        out
    }

    /// Inserts the pairs of `items` one after the other, as `insert` does.
    pub fn extend(&mut self, items: Vec<(G, T)>)
        requires
            old(self).wf(),
        ensures
            final(self).wf(),
            final(self)@ == model_insert_all(old(self)@, items@),
    {
        let ghost its = items@;
        let mut rev = reverse_vec(items);
        let ghost mut i: int = 0;
        while rev.len() > 0
            invariant
                self.wf(),
                0 <= i,
                i + rev@.len() == its.len(),
                forall|j: int| 0 <= j < rev@.len() ==> rev@[j] == its[its.len() - 1 - j],
                self@ == model_insert_all(old(self)@, its.take(i as int)),
            decreases rev@.len(),
        {
            let (g, val) = rev.pop().unwrap();
            proof {
                assert(its.take(i + 1).drop_last() =~= its.take(i as int));
                assert(its.take(i + 1).last() == (g, val));
            }
            self.insert(g, val);
            proof { i = i + 1; }
        }
        proof {
            assert(its.take(i as int) =~= its);
        }
    }

    /// Inserts the pairs of `items` one after the other, as `insert_unchecked` does.
    pub fn extend_unchecked(&mut self, items: Vec<(G, T)>)
        requires
            old(self).wf(),
        ensures
            final(self).wf(),
            final(self)@ == model_insert_all_unchecked(old(self)@, items@),
            final(self).size() == old(self).size() + items@.len(),
            final(self).spec_stats() == stats_after(old(self).spec_stats(), keys_of(items@)),
    {
        let ghost its = items@;
        let mut rev = reverse_vec(items);
        let ghost mut i: int = 0;
        while rev.len() > 0
            invariant
                self.wf(),
                0 <= i,
                i + rev@.len() == its.len(),
                forall|j: int| 0 <= j < rev@.len() ==> rev@[j] == its[its.len() - 1 - j],
                self@ == model_insert_all_unchecked(old(self)@, its.take(i as int)),
                self.size() == old(self).size() + i,
                self.spec_stats() == stats_after(old(self).spec_stats(), keys_of(its.take(i as int))),
            decreases rev@.len(),
        {
            let (g, val) = rev.pop().unwrap();
            proof {
                assert(its.take(i + 1).drop_last() =~= its.take(i as int));
                assert(its.take(i + 1).last() == (g, val));
            }
            self.insert_unchecked(g, val);
            proof {
                assert(keys_of(its.take(i + 1)).drop_last() =~= keys_of(its.take(i as int)));
                i = i + 1;
            }
        }
        proof {
            assert(its.take(i as int) =~= its);
        }
    }
}

/// `after` has the keys and bucket layout of `before`, and each value of `after` is a result
/// of `f` on the corresponding value of `before`.
pub open spec fn values_mapped_by<G, T, T2, F: Fn(T) -> T2>(
    before: Map<Seq<usize>, Seq<(G, T)>>,
    after: Map<Seq<usize>, Seq<(G, T2)>>,
    f: F,
) -> bool {
    &&& after.dom() == before.dom()
    &&& forall|k: Seq<usize>| #[trigger] before.dom().contains(k) ==> {
        &&& after[k].len() == before[k].len()
        &&& forall|j: int| 0 <= j < before[k].len() ==> {
            &&& (#[trigger] after[k][j]).0 == before[k][j].0
            &&& call_ensures(f, (before[k][j].1,), after[k][j].1)
        }
    }
}

/// Applies `f` to the value of each entry, keeping the order of the entries.
fn map_bucket<G, T, T2, F: Fn(T) -> T2>(v: Vec<(G, T)>, f: &F) -> (r: Vec<(G, T2)>)
    requires
        forall|j: int| 0 <= j < v@.len() ==> call_requires(*f, ((#[trigger] v@[j]).1,)),
    ensures
        r@.len() == v@.len(),
        forall|j: int| 0 <= j < v@.len() ==> (#[trigger] r@[j]).0 == v@[j].0 && call_ensures(*f, (v@[j].1,), r@[j].1),
{
    let ghost orig = v@;
    let mut rev = reverse_vec(v);
    let mut out: Vec<(G, T2)> = Vec::new();
    while rev.len() > 0
        invariant
            out@.len() + rev@.len() == orig.len(),
            forall|j: int| 0 <= j < rev@.len() ==> rev@[j] == orig[orig.len() - 1 - j],
            forall|j: int| 0 <= j < orig.len() ==> call_requires(*f, ((#[trigger] orig[j]).1,)),
            forall|j: int| 0 <= j < out@.len() ==> (#[trigger] out@[j]).0 == orig[j].0 && call_ensures(*f, (orig[j].1,), out@[j].1),
        decreases rev@.len(),
    {
        let (g, val) = rev.pop().unwrap();
        let nv = f(val);
        out.push((g, nv));
    }
    out
}

impl<G: CombEq, T, S: CombStats<G>> CombMap<G, T, S> {
    /// Returns `true` if the map holds no entry.
    pub fn is_empty(&self) -> (r: bool)
        requires
            self.wf(),
        ensures
            r == (self.size() == 0),
            r == (self@ == Map::<Seq<usize>, Seq<(G, T)>>::empty()),
    {
        proof {
            if self.buckets@.len() > 0 {
                self.lemma_wf_bucket(0);
                lemma_total_len_positive(self.bucket_seq(), 0);
                assert(self@.dom().contains(self.bucket_seq()[0].0));
            } else {
                assert(self@ =~= Map::empty());
            }
        }
        self.buckets.len() == 0
    }

    /// Consumes the map and applies `f` to every value; keys, buckets and statistics are kept.
    pub fn apply<T2, F: Fn(T) -> T2>(self, f: F) -> (r: CombMap<G, T2, S>)
        requires
            self.wf(),
            forall|k: Seq<usize>, j: int| self@.dom().contains(k) && 0 <= j < self@[k].len() ==> call_requires(f, ((#[trigger] self@[k][j]).1,)),
        ensures
            r.wf(),
            values_mapped_by(self@, r@, f),
            r.size() == self.size(),
            r.spec_stats() == self.spec_stats(),
    {
        let ghost bs = self.bucket_seq();
        let ghost m = self@;
        let CombMap { buckets, stats } = self;
        let mut rev = reverse_vec(buckets);
        let mut out: Vec<(Vec<usize>, Vec<(G, T2)>)> = Vec::new();
        proof {
            assert forall|a: int, j: int| 0 <= a < bs.len() && 0 <= j < bs[a].1.len() implies call_requires(f, ((#[trigger] bs[a].1[j]).1,)) by {
                lemma_key_map_at(bs, a);
                assert(m[bs[a].0][j] == bs[a].1[j]);
            }
        }
        while rev.len() > 0
            invariant
                out@.len() + rev@.len() == bs.len(),
                forall|j: int| 0 <= j < rev@.len() ==> (rev@[j].0@, rev@[j].1@) == bs[bs.len() - 1 - j],
                forall|a: int, j: int| 0 <= a < bs.len() && 0 <= j < bs[a].1.len() ==> call_requires(f, ((#[trigger] bs[a].1[j]).1,)),
                forall|a: int| 0 <= a < out@.len() ==> {
                    &&& (#[trigger] out@[a]).0@ == bs[a].0
                    &&& out@[a].1@.len() == bs[a].1.len()
                    &&& forall|j: int| 0 <= j < bs[a].1.len() ==> (#[trigger] out@[a].1@[j]).0 == bs[a].1[j].0 && call_ensures(f, (bs[a].1[j].1,), out@[a].1@[j].1)
                },
            decreases rev@.len(),
        {
            let (key, bucket) = rev.pop().unwrap();
            let ghost a = out@.len() as int;
            proof {
                assert(bucket@ == bs[a].1);
                assert forall|j: int| 0 <= j < bucket@.len() implies call_requires(f, ((#[trigger] bucket@[j]).1,)) by {
                    assert(bucket@[j] == bs[a].1[j]);
                }
            }
            let nb = map_bucket(bucket, &f);
            out.push((key, nb));
        }
        let r = CombMap { buckets: out, stats };
        proof {
            let nbs = r.bucket_seq();
            assert(nbs.len() == bs.len());
            assert forall|a: int| 0 <= a < nbs.len() implies (#[trigger] nbs[a]).0 == bs[a].0 by {}
            assert(keys_distinct(nbs));
            assert forall|a: int| 0 <= a < nbs.len() implies #[trigger] nbs[a].1.len() > 0 by {
                assert(bs[a].1.len() > 0);
            }
            assert forall|a: int, j: int| 0 <= a < nbs.len() && 0 <= j < nbs[a].1.len()
                implies (#[trigger] nbs[a].1[j]).0.spec_hash() == nbs[a].0 by {
                assert(nbs[a].1[j].0 == bs[a].1[j].0);
            }
            assert forall|k: Seq<usize>| r@.dom().contains(k) <==> m.dom().contains(k) by {
                if r@.dom().contains(k) {
                    let a = choose|a: int| 0 <= a < nbs.len() && nbs[a].0 == k;
                    assert(bs[a].0 == k);
                }
                if m.dom().contains(k) {
                    let a = choose|a: int| 0 <= a < bs.len() && bs[a].0 == k;
                    assert(nbs[a].0 == k);
                }
            }
            assert(r@.dom() =~= m.dom());
            assert forall|k: Seq<usize>| #[trigger] m.dom().contains(k) implies {
                &&& r@[k].len() == m[k].len()
                &&& forall|j: int| 0 <= j < m[k].len() ==> {
                    &&& (#[trigger] r@[k][j]).0 == m[k][j].0
                    &&& call_ensures(f, (m[k][j].1,), r@[k][j].1)
                }
            } by {
                let a = choose|a: int| 0 <= a < bs.len() && bs[a].0 == k;
                lemma_key_map_at(bs, a);
                lemma_key_map_at(nbs, a);
                assert forall|j: int| 0 <= j < m[k].len() implies {
                    &&& (#[trigger] r@[k][j]).0 == m[k][j].0
                    &&& call_ensures(f, (m[k][j].1,), r@[k][j].1)
                } by {
                    assert(r@[k][j] == out@[a].1@[j]);
                }
            }
            lemma_total_len_same(bs, nbs);
        }
        r
    }

    /// Consumes the map and rebuilds its statistics from scratch for the new statistics type.
    pub fn with_stats<S2: CombStats<G> + Default>(self) -> (r: CombMap<G, T, S2>)
        requires
            self.wf(),
        ensures
            r.wf(),
            r@ == self@,
            r.size() == self.size(),
            exists|d: S2| call_ensures(S2::default, (), d) && r.spec_stats() == stats_after(d, self.entry_keys()),
    {
        let mut stats = S2::default();
        let ghost d = stats;
        let ghost bs = self.bucket_seq();
        let ghost mut ks: Seq<G> = Seq::empty();
        let mut i: usize = 0;
        while i < self.buckets.len()
            invariant
                i <= self.buckets.len(),
                bs == self.bucket_seq(),
                call_ensures(S2::default, (), d),
                stats == stats_after(d, ks),
                ks == keys_of(flat(bs.take(i as int))),
            decreases self.buckets.len() - i,
        {
            let mut j: usize = 0;
            while j < self.buckets[i].1.len()
                invariant
                    i < self.buckets.len(),
                    bs == self.bucket_seq(),
                    j <= self.buckets@[i as int].1.len(),
                    stats == stats_after(d, ks),
                    ks == keys_of(flat(bs.take(i as int))) + keys_of(bs[i as int].1.take(j as int)),
                decreases self.buckets@[i as int].1.len() - j,
            {
                stats.on_insert(&self.buckets[i].1[j].0);
                proof {
                    assert(self.buckets@[i as int].1@[j as int] == bs[i as int].1[j as int]);
                    let ks2 = ks.push(bs[i as int].1[j as int].0);
                    assert(ks2.drop_last() =~= ks);
                    assert(keys_of(bs[i as int].1.take(j + 1)) =~= keys_of(bs[i as int].1.take(j as int)).push(bs[i as int].1[j as int].0));
                    ks = ks2;
                }
                j = j + 1;
            }
            proof {
                assert(bs.take(i + 1).drop_last() =~= bs.take(i as int));
                assert(bs[i as int].1.take(j as int) =~= bs[i as int].1);
                assert(keys_of(flat(bs.take(i as int)) + bs[i as int].1) =~= keys_of(flat(bs.take(i as int))) + keys_of(bs[i as int].1));
            }
            i = i + 1;
        }
        proof {
            assert(bs.take(i as int) =~= bs);
        }
        let r = CombMap { buckets: self.buckets, stats };
        assert(r.bucket_seq() == self.bucket_seq());
        assert(call_ensures(S2::default, (), d) && r.spec_stats() == stats_after(d, self.entry_keys()));
        r
    }
}

impl<G: CombEq, T, S: CombStats<G>> HasStats<G> for CombMap<G, T, S> {
    type Stats = S;

    fn stats(&self) -> (r: &S)
        ensures
            *r == self.spec_stats(),
    {
        &self.stats
    }
}

proof fn lemma_total_len_positive<K, E>(bs: Seq<(K, Seq<E>)>, i: int)
    requires
        0 <= i < bs.len(),
    ensures
        total_len(bs) >= bs[i].1.len(),
    decreases bs.len(),
{
    if i < bs.len() - 1 {
        lemma_total_len_positive(bs.drop_last(), i);
    }
}

proof fn lemma_total_len_same<K1, K2, E1, E2>(a: Seq<(K1, Seq<E1>)>, b: Seq<(K2, Seq<E2>)>)
    requires
        a.len() == b.len(),
        forall|i: int| 0 <= i < a.len() ==> (#[trigger] a[i]).1.len() == b[i].1.len(),
    ensures
        total_len(a) == total_len(b),
    decreases a.len(),
{
    if a.len() > 0 {
        lemma_total_len_same(a.drop_last(), b.drop_last());
    }
}

// ---------------------------------------------------------------------------------------------
// laws
// ---------------------------------------------------------------------------------------------

/// The value that `CombMap::get` finds for `g` in the bucket model `m`.
pub open spec fn model_get<G: CombEq, T>(m: Map<Seq<usize>, Seq<(G, T)>>, g: G) -> Option<T> {
    let b = bucket_at(m, g.spec_hash());
    let i = first_where(b, matches_to(g));
    if i >= 0 {
        Some(b[i].1)
    } else {
        None
    }
}

/// The bucket model after `CombMap::remove` of `g`.
pub open spec fn model_remove<G: CombEq, T>(m: Map<Seq<usize>, Seq<(G, T)>>, g: G) -> Map<Seq<usize>, Seq<(G, T)>> {
    let k = g.spec_hash();
    let b = bucket_at(m, k);
    let i = first_where(b, matches_to(g));
    if i >= 0 {
        let nb = b.update(i, b.last()).drop_last();
        if nb.len() == 0 { m.remove(k) } else { m.insert(k, nb) }
    } else {
        m
    }
}

/// Every entry of the bucket model lies in the bucket of its key's hash.
pub open spec fn model_wf<G: CombEq, T>(m: Map<Seq<usize>, Seq<(G, T)>>) -> bool {
    forall|k: Seq<usize>, j: int| m.dom().contains(k) && 0 <= j < m[k].len() ==> (#[trigger] m[k][j]).0.spec_hash() == k
}

/// No bucket holds two entries with isomorphic keys.
pub open spec fn model_unique<G: CombEq, T>(m: Map<Seq<usize>, Seq<(G, T)>>) -> bool {
    forall|k: Seq<usize>, x: int, y: int|
        m.dom().contains(k) && 0 <= x < m[k].len() && 0 <= y < m[k].len() && x != y
        ==> !(#[trigger] m[k][x]).0.spec_iso(&(#[trigger] m[k][y]).0)
}

impl<G: CombEq, T, S: CombStats<G>> CombMap<G, T, S> {
    /// A well-formed map has a well-formed bucket model.
    pub proof fn lemma_wf_model(self)
        requires
            self.wf(),
        ensures
            model_wf(self@),
            forall|k: Seq<usize>| #[trigger] self@.dom().contains(k) ==> self@[k].len() > 0,
    {
        let bs = self.bucket_seq();
        assert forall|k: Seq<usize>, j: int| self@.dom().contains(k) && 0 <= j < self@[k].len() implies (#[trigger] self@[k][j]).0.spec_hash() == k by {
            let a = choose|a: int| 0 <= a < bs.len() && bs[a].0 == k;
            lemma_key_map_at(bs, a);
        }
        assert forall|k: Seq<usize>| #[trigger] self@.dom().contains(k) implies self@[k].len() > 0 by {
            let a = choose|a: int| 0 <= a < bs.len() && bs[a].0 == k;
            lemma_key_map_at(bs, a);
        }
    }
}

/// The bucket of a map whose keys are all vouched for holds such keys only.
pub proof fn lemma_bucket_lawful<G: CombEq, T>(m: Map<Seq<usize>, Seq<(G, T)>>, k: Seq<usize>)
    requires
        lawful_keys(m),
    ensures
        lawful_entries(bucket_at(m, k)),
{
    if m.dom().contains(k) {
        assert forall|j: int| 0 <= j < bucket_at(m, k).len() implies (#[trigger] bucket_at(m, k)[j]).0.spec_lawful() by {
            assert(bucket_at(m, k)[j] == m[k][j]);
        }
    }
}

/// A read gives back what a write wrote: after `insert(g, val)`, `get(g)` finds `val`.
pub proof fn law_get_after_insert<G: CombEq, T>(m: Map<Seq<usize>, Seq<(G, T)>>, g: G, val: T)
    requires
        crate::obeys_comb_eq::<G>(),
        lawful_keys(m),
        g.spec_lawful(),
    ensures
        model_get(model_insert(m, g, val), g) == Some(val),
{
    let k = g.spec_hash();
    lemma_bucket_lawful(m, k);
    let b = bucket_at(m, k);
    let i = first_where(b, matches_from(g));
    lemma_first_where_props(b, matches_from(g));
    let m2 = model_insert(m, g, val);
    assert(m2.dom().contains(k));
    if i >= 0 {
        let nb = b.update(i, (b[i].0, val));
        assert(bucket_at(m2, k) == nb);
        assert forall|j: int| 0 <= j < i implies !matches_to(g)(#[trigger] nb[j]) by {
            assert(!matches_from(g)(b[j]));
            assert(nb[j] == b[j]);
        }
        assert(matches_to(g)(nb[i])) by {
            assert(matches_from(g)(b[i]));
        }
        lemma_first_where(nb, matches_to(g), i);
    } else {
        let nb = b.push((g, val));
        assert(bucket_at(m2, k) == nb);
        assert forall|j: int| 0 <= j < b.len() implies !matches_to(g)(#[trigger] nb[j]) by {
            assert(!matches_from(g)(b[j]));
            assert(nb[j] == b[j]);
        }
        assert(matches_to(g)(nb[b.len() as int])) by {
            assert(g.spec_iso(&g));
        }
        lemma_first_where(nb, matches_to(g), b.len() as int);
    }
}

/// Inserting keeps a map free of isomorphic duplicates.
pub proof fn law_insert_keeps_unique<G: CombEq, T>(m: Map<Seq<usize>, Seq<(G, T)>>, g: G, val: T)
    requires
        crate::obeys_comb_eq::<G>(),
        lawful_keys(m),
        g.spec_lawful(),
        model_unique(m),
    ensures
        model_unique(model_insert(m, g, val)),
{
    let k = g.spec_hash();
    lemma_bucket_lawful(m, k);
    let b = bucket_at(m, k);
    let i = first_where(b, matches_from(g));
    lemma_first_where_props(b, matches_from(g));
    let m2 = model_insert(m, g, val);
    assert forall|kk: Seq<usize>, x: int, y: int|
        m2.dom().contains(kk) && 0 <= x < m2[kk].len() && 0 <= y < m2[kk].len() && x != y
        implies !(#[trigger] m2[kk][x]).0.spec_iso(&(#[trigger] m2[kk][y]).0) by {
        if kk == k {
            if m.dom().contains(k) {
                assert(b == m[k]);
            }
            if i >= 0 {
                let nb = b.update(i, (b[i].0, val));
                assert(m2[kk] == nb);
                assert(nb[x].0 == b[x].0 && nb[y].0 == b[y].0);
                assert(m.dom().contains(k));
            } else {
                let nb = b.push((g, val));
                assert(m2[kk] == nb);
                if x == b.len() {
                    assert(!matches_from(g)(b[y]));
                } else if y == b.len() {
                    assert(!matches_from(g)(b[x]));
                    if b[x].0.spec_iso(&g) {
                        assert(g.spec_iso(&b[x].0));
                    }
                } else {
                    assert(nb[x] == b[x] && nb[y] == b[y]);
                    assert(m.dom().contains(k));
                }
            }
        } else {
            assert(m2[kk] == m[kk]);
        }
    }
}

/// Removing from a map free of isomorphic duplicates leaves no key isomorphic to the removed
/// one to be found.
pub proof fn law_get_after_remove<G: CombEq, T>(m: Map<Seq<usize>, Seq<(G, T)>>, g: G)
    requires
        crate::obeys_comb_eq::<G>(),
        lawful_keys(m),
        g.spec_lawful(),
        model_unique(m),
    ensures
        model_get(model_remove(m, g), g) is None,
{
    let k = g.spec_hash();
    lemma_bucket_lawful(m, k);
    let b = bucket_at(m, k);
    let i = first_where(b, matches_to(g));
    lemma_first_where_props(b, matches_to(g));
    let m2 = model_remove(m, g);
    if i >= 0 {
        assert(m.dom().contains(k));
        assert(b == m[k]);
        let nb = b.update(i, b.last()).drop_last();
        let b2 = bucket_at(m2, k);
        if nb.len() == 0 {
            assert(b2 =~= Seq::<(G, T)>::empty());
        } else {
            assert(b2 == nb);
        }
        assert forall|j: int| 0 <= j < b2.len() implies !matches_to(g)(#[trigger] b2[j]) by {
            let src = if j == i { b.len() - 1 } else { j };
            assert(b2[j] == b[src]);
            assert(src != i);
            if b[src].0.spec_iso(&g) {
                assert(b[i].0.spec_iso(&g));
                assert(g.spec_iso(&b[i].0));
                assert(b[src].0.spec_iso(&b[i].0));
            }
        }
        lemma_first_where(b2, matches_to(g), b2.len() as int);
    }
}

/// In a well-formed model, `get` finds a key exactly when some key anywhere in the map is
/// isomorphic to it: hashing never hides an isomorphic key.
pub proof fn law_get_finds_any_isomorphic<G: CombEq, T>(m: Map<Seq<usize>, Seq<(G, T)>>, g: G)
    requires
        crate::obeys_comb_eq::<G>(),
        lawful_keys(m),
        g.spec_lawful(),
        model_wf(m),
    ensures
        model_get(m, g) is Some <==> exists|k: Seq<usize>, j: int| m.dom().contains(k) && 0 <= j < m[k].len() && (#[trigger] m[k][j]).0.spec_iso(&g),
{
    let k = g.spec_hash();
    let b = bucket_at(m, k);
    lemma_first_where_props(b, matches_to(g));
    if exists|kk: Seq<usize>, j: int| m.dom().contains(kk) && 0 <= j < m[kk].len() && (#[trigger] m[kk][j]).0.spec_iso(&g) {
        let (kk, j) = choose|kk: Seq<usize>, j: int| m.dom().contains(kk) && 0 <= j < m[kk].len() && (#[trigger] m[kk][j]).0.spec_iso(&g);
        assert(m[kk][j].0.spec_hash() == kk);
        assert(kk == k);
        assert(b[j] == m[kk][j]);
        assert(matches_to(g)(b[j]));
    }
    if model_get(m, g) is Some {
        let i = first_where(b, matches_to(g));
        assert(m.dom().contains(k));
        assert(m[k][i].0.spec_iso(&g));
    }
}

/// After `dedup` no bucket holds two entries with isomorphic keys.
pub proof fn law_dedup_unique<G: CombEq, T>(m: Map<Seq<usize>, Seq<(G, T)>>)
    requires
        crate::obeys_comb_eq::<G>(),
        lawful_keys(m),
    ensures
        model_unique(m.map_values(|b: Seq<(G, T)>| dedup_bucket(b))),
{
    let m2 = m.map_values(|b: Seq<(G, T)>| dedup_bucket(b));
    assert forall|k: Seq<usize>, x: int, y: int|
        m2.dom().contains(k) && 0 <= x < m2[k].len() && 0 <= y < m2[k].len() && x != y
        implies !(#[trigger] m2[k][x]).0.spec_iso(&(#[trigger] m2[k][y]).0) by {
        lemma_dedup_bucket_unique(m[k]);
        assert(m2[k] == dedup_bucket(m[k]));
        lemma_filter_keep_len(m[k], first_of_class(m[k]));
        assert(m[k].contains(m2[k][x]) && m[k].contains(m2[k][y]));
        let ix = choose|i: int| 0 <= i < m[k].len() && m[k][i] == m2[k][x];
        let iy = choose|i: int| 0 <= i < m[k].len() && m[k][i] == m2[k][y];
        assert(m[k][ix].0.spec_lawful() && m[k][iy].0.spec_lawful());
        if x < y {
            assert(!m2[k][x].0.spec_iso(&m2[k][y].0));
        } else {
            assert(!m2[k][y].0.spec_iso(&m2[k][x].0));
        }
    }
}

impl<G: CombEq, T, S: CombStats<G>> CombMap<G, T, S> {
    /// Replaces the value of the first entry, in the bucket of `g`'s hash, whose key is
    /// isomorphic to `g` (as `key.is_isomorphic(g)` decides); returns the old value, or `None`
    /// (and leaves the map unchanged) if there is no such entry.
    pub fn replace_value(&mut self, g: &G, val: T) -> (r: Option<T>)
        requires
            old(self).wf(),
        ensures
            final(self).wf(),
            r == model_get(old(self)@, *g),
            ({
                let k = g.spec_hash();
                let b = bucket_at(old(self)@, k);
                let i = first_where(b, matches_to(*g));
                if i >= 0 {
                    final(self)@ == old(self)@.insert(k, b.update(i, (b[i].0, val)))
                } else {
                    final(self)@ == old(self)@
                }
            }),
            final(self).size() == old(self).size(),
    {
        let ghost old_bs = self.bucket_seq();
        let key = g.hash();
        match self.find_bucket(&key) {
            None => {
                proof {
                    lemma_first_where(Seq::<(G, T)>::empty(), matches_to(*g), 0);
                }
                None
            },
            Some(bi) => {
                proof {
                    self.lemma_wf_bucket(bi as int);
                    assert(self.buckets@[bi as int].1@ == old_bs[bi as int].1);
                }
                let ghost b = old_bs[bi as int].1;
                let j = self.position_to(bi, g);
                if j < self.buckets[bi].1.len() {
                    let mut v = val;
                    let ghost e = b[j as int];
                    core::mem::swap(&mut self.buckets[bi].1[j].1, &mut v);
                    proof {
                        let nb = b.update(j as int, (e.0, val));
                        assert(self.buckets@[bi as int].1@ =~= nb);
                        assert(self.bucket_seq() =~= old_bs.update(bi as int, (old_bs[bi as int].0, nb)));
                        lemma_key_map_update(old_bs, bi as int, nb);
                        lemma_total_len_update(old_bs, bi as int, (old_bs[bi as int].0, nb));
                        assert forall|i: int| 0 <= i < self.bucket_seq().len() implies #[trigger] self.bucket_seq()[i].1.len() > 0 by {
                            if i != bi { assert(self.bucket_seq()[i] == old_bs[i]); }
                        }
                        assert forall|i: int, jj: int|
                            0 <= i < self.bucket_seq().len() && 0 <= jj < self.bucket_seq()[i].1.len()
                            implies (#[trigger] self.bucket_seq()[i].1[jj]).0.spec_hash() == self.bucket_seq()[i].0 by {
                            if i != bi { assert(self.bucket_seq()[i] == old_bs[i]); } else {
                                assert(self.bucket_seq()[i].1[jj].0 == b[jj].0);
                            }
                        }
                    }
                    Some(v)
                } else {
                    None
                }
            },
        }
    }
}

proof fn lemma_total_len_prefix<K, E>(bs: Seq<(K, Seq<E>)>, i: int)
    requires
        0 < i <= bs.len(),
    ensures
        total_len(bs.take(i)) == total_len(bs.take(i - 1)) + bs[i - 1].1.len(),
        total_len(bs.take(i)) <= total_len(bs),
    decreases bs.len() - i,
{
    assert(bs.take(i).drop_last() =~= bs.take(i - 1));
    if i < bs.len() {
        lemma_total_len_prefix(bs, i + 1);
    } else {
        assert(bs.take(i) =~= bs);
    }
}

/// Element-wise equality of two vectors of integers.
fn vec_eq(a: &Vec<usize>, b: &Vec<usize>) -> (r: bool)
    ensures
        r == (a@ == b@),
{
    if a.len() != b.len() {
        return false;
    }
    let mut i: usize = 0;
    while i < a.len()
        invariant
            a.len() == b.len(),
            i <= a.len(),
            forall|j: int| 0 <= j < i ==> a@[j] == b@[j],
        decreases a.len() - i,
    {
        if a[i] != b[i] {
            return false;
        }
        i = i + 1;
    }
    assert(a@ =~= b@);
    true
}

/// `rayon`'s `par_iter().position_any(pred)` on `items`: as its documentation says, the
/// position of some item that `pred` accepts, not necessarily the first, or `None` when it
/// accepts none (then it was asked about every item).
#[verifier::external_body]
fn par_position<E: Sync, P: Fn(&E) -> bool + Sync + Send>(items: &Vec<E>, pred: P) -> (r: Option<usize>)
    requires
        forall|j: int| 0 <= j < items.len() ==> call_requires(pred, (&items@[j],)),
    ensures
        match r {
            Some(i) => i < items.len() && call_ensures(pred, (&items@[i as int],), true),
            None => forall|j: int| 0 <= j < items.len() ==> call_ensures(pred, (&items@[j],), false),
        },
{
    items.par_iter().position_any(pred)
}

/// The bucket model after `par_insert` wrote at position `i` of the bucket of `g` (a position
/// of an isomorphic key), or appended `(g, val)` (for `i == -1`).
pub open spec fn model_insert_at<G: CombEq, T>(m: Map<Seq<usize>, Seq<(G, T)>>, g: G, val: T, i: int) -> Map<Seq<usize>, Seq<(G, T)>> {
    let k = g.spec_hash();
    let b = bucket_at(m, k);
    if 0 <= i < b.len() {
        m.insert(k, b.update(i, (b[i].0, val)))
    } else {
        m.insert(k, b.push((g, val)))
    }
}

/// `i` is a position of the bucket of `g` whose key `p` accepts, or -1 when `p` accepts none.
pub open spec fn found_at<G: CombEq, T>(m: Map<Seq<usize>, Seq<(G, T)>>, g: G, p: spec_fn((G, T)) -> bool, i: int) -> bool {
    let b = bucket_at(m, g.spec_hash());
    ||| (i == -1 && first_where(b, p) == -1)
    ||| (0 <= i < b.len() && p(b[i]))
}

/// The bucket model after `par_remove` took out position `i` of the bucket of `g`.
pub open spec fn model_remove_at<G: CombEq, T>(m: Map<Seq<usize>, Seq<(G, T)>>, g: G, i: int) -> Map<Seq<usize>, Seq<(G, T)>> {
    let k = g.spec_hash();
    let b = bucket_at(m, k);
    if 0 <= i < b.len() {
        let nb = b.update(i, b.last()).drop_last();
        if nb.len() == 0 { m.remove(k) } else { m.insert(k, nb) }
    } else {
        m
    }
}

/// In a bucket without isomorphic keys, any key isomorphic to `g` is the first one.
pub proof fn lemma_match_is_first<G: CombEq, T>(m: Map<Seq<usize>, Seq<(G, T)>>, g: G, i: int, from: bool)
    requires
        crate::obeys_comb_eq::<G>(),
        lawful_keys(m),
        g.spec_lawful(),
        model_unique(m),
        found_at(m, g, if from { matches_from(g) } else { matches_to(g) }, i),
    ensures
        i == first_where(bucket_at(m, g.spec_hash()), if from { matches_from::<G, T>(g) } else { matches_to::<G, T>(g) }),
{
    let k = g.spec_hash();
    lemma_bucket_lawful(m, k);
    let b = bucket_at(m, k);
    let p = if from { matches_from::<G, T>(g) } else { matches_to::<G, T>(g) };
    lemma_first_where_props(b, p);
    let f = first_where(b, p);
    if i >= 0 && f != i {
        assert(f >= 0);
        assert(m.dom().contains(k));
        assert(b == m[k]);
        assert(p(b[i]) && p(b[f]));
        if from {
            assert(g.spec_iso(&b[i].0) && g.spec_iso(&b[f].0));
            assert(b[i].0.spec_iso(&g));
        } else {
            assert(b[i].0.spec_iso(&g) && b[f].0.spec_iso(&g));
            assert(g.spec_iso(&b[f].0));
        }
        assert(b[i].0.spec_iso(&b[f].0));
        assert(m[k][i] == b[i] && m[k][f] == b[f]);
    }
}

impl<G: CombEq, T, S: CombStats<G>> CombMap<G, T, S> {
    /// Writes `(g, val)` at position `j` of bucket `bi`: replaces the value there when `j` is
    /// in the bucket (keeping the stored key), else appends the entry.
    fn put_at(&mut self, bi: usize, j: usize, g: G, val: T) -> (r: Option<T>)
        requires
            old(self).wf(),
            bi < old(self).bucket_seq().len(),
            j <= old(self).bucket_seq()[bi as int].1.len(),
            g.spec_hash() == old(self).bucket_seq()[bi as int].0,
        ensures
            final(self).wf(),
            ({
                let k = g.spec_hash();
                let b = bucket_at(old(self)@, k);
                if j < b.len() {
                    &&& r == Some(b[j as int].1)
                    &&& final(self)@ == old(self)@.insert(k, b.update(j as int, (b[j as int].0, val)))
                    &&& final(self).size() == old(self).size()
                    &&& final(self).spec_stats() == old(self).spec_stats()
                } else {
                    &&& r is None
                    &&& final(self)@ == old(self)@.insert(k, b.push((g, val)))
                    &&& final(self).size() == old(self).size() + 1
                    &&& final(self).spec_stats() == old(self).spec_stats().spec_on_insert(g)
                }
            }),
    {
        let ghost old_bs = self.bucket_seq();
        proof {
            self.lemma_wf_bucket(bi as int);
            assert(self.buckets@[bi as int].1@ == old_bs[bi as int].1);
        }
        let ghost b = old_bs[bi as int].1;
        if j < self.buckets[bi].1.len() {
            let mut v = val;
            let ghost e = b[j as int];
            core::mem::swap(&mut self.buckets[bi].1[j].1, &mut v);
            proof {
                let nb = b.update(j as int, (e.0, val));
                assert(self.buckets@[bi as int].1@ =~= nb);
                assert(self.bucket_seq() =~= old_bs.update(bi as int, (old_bs[bi as int].0, nb)));
                lemma_key_map_update(old_bs, bi as int, nb);
                lemma_total_len_update(old_bs, bi as int, (old_bs[bi as int].0, nb));
                assert forall|i: int| 0 <= i < self.bucket_seq().len() implies #[trigger] self.bucket_seq()[i].1.len() > 0 by {
                    if i != bi { assert(self.bucket_seq()[i] == old_bs[i]); }
                }
                assert forall|i: int, jj: int|
                    0 <= i < self.bucket_seq().len() && 0 <= jj < self.bucket_seq()[i].1.len()
                    implies (#[trigger] self.bucket_seq()[i].1[jj]).0.spec_hash() == self.bucket_seq()[i].0 by {
                    if i != bi { assert(self.bucket_seq()[i] == old_bs[i]); } else {
                        assert(self.bucket_seq()[i].1[jj].0 == b[jj].0);
                    }
                }
            }
            Some(v)
        } else {
            self.stats.on_insert(&g);
            self.buckets[bi].1.push((g, val));
            proof {
                let nb = b.push((g, val));
                assert(self.buckets@[bi as int].1@ =~= nb);
                assert(self.bucket_seq() =~= old_bs.update(bi as int, (old_bs[bi as int].0, nb)));
                lemma_key_map_update(old_bs, bi as int, nb);
                lemma_total_len_update(old_bs, bi as int, (old_bs[bi as int].0, nb));
                assert forall|i: int| 0 <= i < self.bucket_seq().len() implies #[trigger] self.bucket_seq()[i].1.len() > 0 by {
                    if i != bi { assert(self.bucket_seq()[i] == old_bs[i]); }
                }
                assert forall|i: int, jj: int|
                    0 <= i < self.bucket_seq().len() && 0 <= jj < self.bucket_seq()[i].1.len()
                    implies (#[trigger] self.bucket_seq()[i].1[jj]).0.spec_hash() == self.bucket_seq()[i].0 by {
                    if i != bi { assert(self.bucket_seq()[i] == old_bs[i]); } else if jj < b.len() {
                        assert(self.bucket_seq()[i].1[jj] == b[jj]);
                    }
                }
            }
            None
        }
    }

    /// Adds a bucket with key `key` holding `(g, val)`.
    fn put_new_bucket(&mut self, key: Vec<usize>, g: G, val: T)
        requires
            old(self).wf(),
            key@ == g.spec_hash(),
            !old(self)@.dom().contains(key@),
        ensures
            final(self).wf(),
            final(self)@ == old(self)@.insert(key@, Seq::<(G, T)>::empty().push((g, val))),
            final(self).size() == old(self).size() + 1,
            final(self).spec_stats() == old(self).spec_stats().spec_on_insert(g),
    {
        let ghost old_bs = self.bucket_seq();
        self.stats.on_insert(&g);
        let mut v: Vec<(G, T)> = Vec::new();
        v.push((g, val));
        self.buckets.push((key, v));
        proof {
            assert(self.bucket_seq() =~= old_bs.push((key@, v@)));
            lemma_key_map_push(old_bs, key@, v@);
            assert(v@ =~= Seq::<(G, T)>::empty().push((g, val)));
            assert(old_bs.push((key@, v@)).drop_last() =~= old_bs);
            assert forall|i: int| 0 <= i < self.bucket_seq().len() implies #[trigger] self.bucket_seq()[i].1.len() > 0 by {
                if i < old_bs.len() { assert(self.bucket_seq()[i] == old_bs[i]); }
            }
            assert forall|i: int, j: int|
                0 <= i < self.bucket_seq().len() && 0 <= j < self.bucket_seq()[i].1.len()
                implies (#[trigger] self.bucket_seq()[i].1[j]).0.spec_hash() == self.bucket_seq()[i].0 by {
                if i < old_bs.len() { assert(self.bucket_seq()[i] == old_bs[i]); }
            }
        }
    }

    /// Like `insert`, but the bucket is searched in parallel: when it holds keys isomorphic to
    /// `g` (as `g.is_isomorphic` decides), the value of one of them is replaced, not
    /// necessarily the first. Without isomorphic duplicates this is `insert`.
    pub fn par_insert(&mut self, g: G, val: T) -> (r: Option<T>)
        where G: Sync, T: Sync,
        requires
            old(self).wf(),
        ensures
            final(self).wf(),
            exists|i: int| #[trigger] found_at(old(self)@, g, matches_from(g), i) && {
                let b = bucket_at(old(self)@, g.spec_hash());
                &&& final(self)@ == model_insert_at(old(self)@, g, val, i)
                &&& r == if i >= 0 { Some(b[i].1) } else { None }
            },
            crate::obeys_comb_eq::<G>() && model_unique(old(self)@) && crate::lawful_keys(old(self)@) && g.spec_lawful() ==> final(self)@ == model_insert(old(self)@, g, val),
    {
        let ghost m0 = self@;
        let key = g.hash();
        match self.find_bucket(&key) {
            None => {
                proof {
                    lemma_first_where(Seq::<(G, T)>::empty(), matches_from::<G, T>(g), 0);
                    assert(found_at(m0, g, matches_from(g), -1));
                }
                self.put_new_bucket(key, g, val);
                proof {
                    assert(Seq::<(G, T)>::empty().push((g, val)) == bucket_at(m0, g.spec_hash()).push((g, val)));
                }
                None
            },
            Some(bi) => {
                proof {
                    self.lemma_wf_bucket(bi as int);
                    assert(self.buckets@[bi as int].1@ == self.bucket_seq()[bi as int].1);
                }
                let ghost b = bucket_at(m0, g.spec_hash());
                let found = par_position(&self.buckets[bi].1, |e: &(G, T)| -> (t: bool)
                    ensures
                        t == g.spec_iso(&e.0),
                    { g.is_isomorphic(&e.0) });
                let j = match found {
                    Some(j) => j,
                    None => self.buckets[bi].1.len(),
                };
                proof {
                    if j == b.len() {
                        assert forall|jj: int| 0 <= jj < b.len() implies !matches_from::<G, T>(g)(#[trigger] b[jj]) by {
                            assert(self.buckets@[bi as int].1@[jj] == b[jj]);
                        }
                        lemma_first_where_props(b, matches_from::<G, T>(g));
                        if first_where(b, matches_from::<G, T>(g)) >= 0 {
                            assert(!matches_from::<G, T>(g)(b[first_where(b, matches_from::<G, T>(g))]));
                        }
                        assert(found_at(m0, g, matches_from(g), -1));
                    } else {
                        assert(self.buckets@[bi as int].1@[j as int] == b[j as int]);
                        assert(found_at(m0, g, matches_from(g), j as int));
                    }
                }
                let r = self.put_at(bi, j, g, val);
                proof {
                    let i = if j < b.len() { j as int } else { -1 };
                    assert(found_at(m0, g, matches_from(g), i));
                    if crate::obeys_comb_eq::<G>() && model_unique(m0) && crate::lawful_keys(m0) && g.spec_lawful() {
                        lemma_match_is_first::<G, T>(m0, g, i, true);
                    }
                }
                r
            },
        }
    }

    /// Like `get`, but the bucket is searched in parallel: the value of some entry whose key
    /// is isomorphic to `g` (as `key.is_isomorphic(g)` decides), not necessarily the first.
    pub fn par_get(&self, g: &G) -> (r: Option<&T>)
        where G: Sync, T: Sync,
        requires
            self.wf(),
        ensures
            exists|i: int| #[trigger] found_at(self@, *g, matches_to(*g), i) &&
                r == if i >= 0 { Some(&bucket_at(self@, g.spec_hash())[i].1) } else { None },
            crate::obeys_comb_eq::<G>() && model_unique(self@) && crate::lawful_keys(self@) && g.spec_lawful() ==> (r matches Some(v) ==> model_get(self@, *g) == Some(*v)) && (r is None <==> model_get(self@, *g) is None),
    {
        let key = g.hash();
        match self.find_bucket(&key) {
            None => {
                proof {
                    lemma_first_where(Seq::<(G, T)>::empty(), matches_to::<G, T>(*g), 0);
                    assert(found_at(self@, *g, matches_to(*g), -1));
                }
                None
            },
            Some(bi) => {
                proof {
                    self.lemma_wf_bucket(bi as int);
                    assert(self.buckets@[bi as int].1@ == self.bucket_seq()[bi as int].1);
                }
                let ghost b = bucket_at(self@, g.spec_hash());
                let found = par_position(&self.buckets[bi].1, |e: &(G, T)| -> (t: bool)
                    ensures
                        t == e.0.spec_iso(g),
                    { e.0.is_isomorphic(g) });
                match found {
                    Some(j) => {
                        proof {
                            assert(self.buckets@[bi as int].1@[j as int] == b[j as int]);
                            assert(found_at(self@, *g, matches_to(*g), j as int));
                            if crate::obeys_comb_eq::<G>() && model_unique(self@) && crate::lawful_keys(self@) && g.spec_lawful() {
                                lemma_match_is_first::<G, T>(self@, *g, j as int, false);
                            }
                        }
                        Some(&self.buckets[bi].1[j].1)
                    },
                    None => {
                        proof {
                            assert forall|jj: int| 0 <= jj < b.len() implies !matches_to::<G, T>(*g)(#[trigger] b[jj]) by {
                                assert(self.buckets@[bi as int].1@[jj] == b[jj]);
                            }
                            lemma_first_where_props(b, matches_to::<G, T>(*g));
                            if first_where(b, matches_to::<G, T>(*g)) >= 0 {
                                assert(!matches_to::<G, T>(*g)(b[first_where(b, matches_to::<G, T>(*g))]));
                            }
                            assert(found_at(self@, *g, matches_to(*g), -1));
                        }
                        None
                    },
                }
            },
        }
    }

    /// Like `contains_key`, with the bucket searched in parallel.
    pub fn par_contains_key(&self, g: &G) -> (r: bool)
        where G: Sync, T: Sync,
        requires
            self.wf(),
        ensures
            r == (first_where(bucket_at(self@, g.spec_hash()), matches_to::<G, T>(*g)) >= 0),
    {
        let r = self.par_get(g);
        proof {
            let i = choose|i: int| #[trigger] found_at(self@, *g, matches_to(*g), i) &&
                r == if i >= 0 { Some(&bucket_at(self@, g.spec_hash())[i].1) } else { None };
            let b = bucket_at(self@, g.spec_hash());
            lemma_first_where_props(b, matches_to::<G, T>(*g));
            if i >= 0 {
                assert(matches_to::<G, T>(*g)(b[i]));
            }
        }
        r.is_some()
    }
}

/// `after` has the keys of `before`, in the same buckets and order, as clones, and values that
/// `f` gives for the values of `before`.
pub open spec fn refs_mapped_by<G: Clone, T, T2, F: Fn(&T) -> T2>(
    before: Map<Seq<usize>, Seq<(G, T)>>,
    after: Map<Seq<usize>, Seq<(G, T2)>>,
    f: F,
) -> bool {
    &&& after.dom() == before.dom()
    &&& forall|k: Seq<usize>| #[trigger] before.dom().contains(k) ==> {
        &&& after[k].len() == before[k].len()
        &&& forall|j: int| 0 <= j < before[k].len() ==> {
            &&& cloned((#[trigger] before[k][j]).0, after[k][j].0)
            &&& call_ensures(f, (&before[k][j].1,), after[k][j].1)
        }
    }
}

/// Clones keep the hash of the object they were made from.
pub open spec fn clones_keep_hash<G: CombEq + Clone>() -> bool {
    forall|a: G, b: G| #[trigger] cloned(a, b) ==> a.spec_hash() == b.spec_hash()
}

/// Every key hashes to the hash of its bucket.
fn keys_fit<G: CombEq, T>(bs: &Vec<(Vec<usize>, Vec<(G, T)>)>) -> (r: bool)
    ensures
        r == forall|a: int, j: int| 0 <= a < bs@.len() && 0 <= j < bs@[a].1@.len()
            ==> (#[trigger] bs@[a].1@[j]).0.spec_hash() == bs@[a].0@,
{
    let mut a: usize = 0;
    while a < bs.len()
        invariant
            a <= bs@.len(),
            forall|x: int, j: int| 0 <= x < a && 0 <= j < bs@[x].1@.len() ==> (#[trigger] bs@[x].1@[j]).0.spec_hash() == bs@[x].0@,
        decreases bs@.len() - a,
    {
        let mut j: usize = 0;
        while j < bs[a].1.len()
            invariant
                a < bs@.len(),
                j <= bs@[a as int].1@.len(),
                forall|x: int, jj: int| 0 <= x < a && 0 <= jj < bs@[x].1@.len() ==> (#[trigger] bs@[x].1@[jj]).0.spec_hash() == bs@[x].0@,
                forall|jj: int| 0 <= jj < j ==> (#[trigger] bs@[a as int].1@[jj]).0.spec_hash() == bs@[a as int].0@,
            decreases bs@[a as int].1@.len() - j,
        {
            let h = bs[a].1[j].0.hash();
            if !vec_eq(&h, &bs[a].0) {
                return false;
            }
            j = j + 1;
        }
        a = a + 1;
    }
    true
}

/// The entries of the buckets, bucket after bucket.
fn flatten_buckets<G, T>(bs: Vec<(Vec<usize>, Vec<(G, T)>)>) -> (r: Vec<(G, T)>)
    ensures
        r@ == flat(bs@.map_values(|p: (Vec<usize>, Vec<(G, T)>)| (p.0@, p.1@))),
{
    let ghost s = bs@.map_values(|p: (Vec<usize>, Vec<(G, T)>)| (p.0@, p.1@));
    let ghost b0 = bs@;
    let mut rev = reverse_vec(bs);
    let mut r: Vec<(G, T)> = Vec::new();
    let ghost mut i: int = 0;
    proof {
        assert forall|j: int| 0 <= j < rev@.len() implies (rev@[j].0@, rev@[j].1@) == s[s.len() - 1 - j] by {
            assert(rev@[j] == b0[b0.len() - 1 - j]);
        }
    }
    while rev.len() > 0
        invariant
            0 <= i,
            i + rev@.len() == s.len(),
            forall|j: int| 0 <= j < rev@.len() ==> (rev@[j].0@, rev@[j].1@) == s[s.len() - 1 - j],
            r@ == flat(s.take(i)),
        decreases rev@.len(),
    {
        let (_, mut b) = rev.pop().unwrap();
        proof {
            assert(s.take(i + 1).drop_last() =~= s.take(i));
            assert(b@ == s[i].1);
        }
        r.append(&mut b);
        proof {
            i = i + 1;
        }
    }
    proof {
        assert(s.take(i) =~= s);
    }
    r
}

fn map_ref_bucket<G: Clone, T, T2, F: Fn(&T) -> T2>(v: &Vec<(G, T)>, f: &F) -> (r: Vec<(G, T2)>)
    requires
        forall|j: int| 0 <= j < v@.len() ==> call_requires(*f, (&(#[trigger] v@[j]).1,)),
    ensures
        r@.len() == v@.len(),
        forall|j: int| 0 <= j < v@.len() ==> cloned((#[trigger] v@[j]).0, r@[j].0) && call_ensures(*f, (&v@[j].1,), r@[j].1),
{
    let mut out: Vec<(G, T2)> = Vec::new();
    let mut j: usize = 0;
    while j < v.len()
        invariant
            j <= v@.len(),
            out@.len() == j,
            forall|i: int| 0 <= i < v@.len() ==> call_requires(*f, (&(#[trigger] v@[i]).1,)),
            forall|i: int| 0 <= i < j ==> cloned((#[trigger] v@[i]).0, out@[i].0) && call_ensures(*f, (&v@[i].1,), out@[i].1),
        decreases v@.len() - j,
    {
        let g = v[j].0.clone();
        let nv = f(&v[j].1);
        let ghost before = out@;
        out.push((g, nv));
        proof {
            assert forall|i: int| 0 <= i < j + 1 implies cloned((#[trigger] v@[i]).0, out@[i].0) && call_ensures(*f, (&v@[i].1,), out@[i].1) by {
                if i < j {
                    assert(out@[i] == before[i]);
                }
            }
        }
        j = j + 1;
    }
    out
}

impl<G: CombEq + Clone, T, S: CombStats<G> + Clone> CombMap<G, T, S> {
    /// A map with clones of the keys and the values that `f` gives for the values: the same
    /// map as `apply_ref` builds.
    pub fn transform<T2, F: Fn(&T) -> T2>(&self, f: F) -> (r: CombMap<G, T2, S>)
        requires
            self.wf(),
            forall|k: Seq<usize>, j: int| self@.dom().contains(k) && 0 <= j < self@[k].len() ==> call_requires(f, (&(#[trigger] self@[k][j]).1,)),
        ensures
            r.wf(),
            clones_keep_hash::<G>() ==> refs_mapped_by(self@, r@, f),
            r.size() == self.size(),
            cloned(self.spec_stats(), r.spec_stats()),
    {
        self.apply_ref(f)
    }

    /// A map with clones of the keys, in the same buckets, and the values that `f` gives for
    /// the values; the statistics are cloned.
    pub fn apply_ref<T2, F: Fn(&T) -> T2>(&self, f: F) -> (r: CombMap<G, T2, S>)
        requires
            self.wf(),
            forall|k: Seq<usize>, j: int| self@.dom().contains(k) && 0 <= j < self@[k].len() ==> call_requires(f, (&(#[trigger] self@[k][j]).1,)),
        ensures
            r.wf(),
            clones_keep_hash::<G>() ==> refs_mapped_by(self@, r@, f),
            r.size() == self.size(),
            cloned(self.spec_stats(), r.spec_stats()),
    {
        let ghost bs = self.bucket_seq();
        let ghost m = self@;
        let mut out: Vec<(Vec<usize>, Vec<(G, T2)>)> = Vec::new();
        proof {
            assert forall|a: int, j: int| 0 <= a < bs.len() && 0 <= j < bs[a].1.len() implies call_requires(f, (&(#[trigger] bs[a].1[j]).1,)) by {
                lemma_key_map_at(bs, a);
                assert(m[bs[a].0][j] == bs[a].1[j]);
            }
        }
        let mut i: usize = 0;
        while i < self.buckets.len()
            invariant
                self.wf(),
                bs == self.bucket_seq(),
                i <= bs.len(),
                out@.len() == i,
                forall|a: int, j: int| 0 <= a < bs.len() && 0 <= j < bs[a].1.len() ==> call_requires(f, (&(#[trigger] bs[a].1[j]).1,)),
                forall|a: int| 0 <= a < i ==> {
                    &&& (#[trigger] out@[a]).0@ == bs[a].0
                    &&& out@[a].1@.len() == bs[a].1.len()
                    &&& forall|j: int| 0 <= j < bs[a].1.len() ==> cloned(bs[a].1[j].0, (#[trigger] out@[a].1@[j]).0) && call_ensures(f, (&bs[a].1[j].1,), out@[a].1@[j].1)
                },
            decreases bs.len() - i,
        {
            proof {
                assert(self.buckets@[i as int].1@ == bs[i as int].1);
                assert(self.buckets@[i as int].0@ == bs[i as int].0);
                assert forall|j: int| 0 <= j < self.buckets@[i as int].1@.len() implies call_requires(f, (&(#[trigger] self.buckets@[i as int].1@[j]).1,)) by {
                    assert(self.buckets@[i as int].1@[j] == bs[i as int].1[j]);
                }
            }
            let key = self.buckets[i].0.clone();
            let nb = map_ref_bucket(&self.buckets[i].1, &f);
            let ghost before = out@;
            out.push((key, nb));
            proof {
                assert forall|a: int| 0 <= a < i + 1 implies {
                    &&& (#[trigger] out@[a]).0@ == bs[a].0
                    &&& out@[a].1@.len() == bs[a].1.len()
                    &&& forall|j: int| 0 <= j < bs[a].1.len() ==> cloned(bs[a].1[j].0, (#[trigger] out@[a].1@[j]).0) && call_ensures(f, (&bs[a].1[j].1,), out@[a].1@[j].1)
                } by {
                    if a < i {
                        assert(out@[a] == before[a]);
                    } else {
                        assert forall|j: int| 0 <= j < bs[a].1.len() implies cloned(bs[a].1[j].0, (#[trigger] out@[a].1@[j]).0) && call_ensures(f, (&bs[a].1[j].1,), out@[a].1@[j].1) by {
                            assert(self.buckets@[i as int].1@[j] == bs[a].1[j]);
                        }
                    }
                }
            }
            i = i + 1;
        }
        proof {
            if clones_keep_hash::<G>() {
                assert forall|a: int, j: int| 0 <= a < out@.len() && 0 <= j < out@[a].1@.len()
                    implies (#[trigger] out@[a].1@[j]).0.spec_hash() == out@[a].0@ by {
                    assert(cloned(bs[a].1[j].0, out@[a].1@[j].0));
                }
            }
        }
        if !keys_fit(&out) {
            // some clone hashes otherwise than the key it was made from: the clones are put
            // into the buckets of their own hashes
            let ghost os = out@.map_values(|p: (Vec<usize>, Vec<(G, T2)>)| (p.0@, p.1@));
            proof {
                assert forall|a: int| 0 <= a < os.len() implies (#[trigger] os[a]).1.len() == bs[a].1.len() by {}
                lemma_total_len_same(bs, os);
                lemma_flat_len(os);
            }
            let pairs = flatten_buckets(out);
            let mut r = CombMap { buckets: Vec::new(), stats: self.stats.clone() };
            proof {
                assert(r.bucket_seq() =~= Seq::empty());
                assert(r.size() == 0);
            }
            r.extend_unchecked(pairs);
            r.stats = self.stats.clone();
            return r;
        }
        let r = CombMap { buckets: out, stats: self.stats.clone() };
        proof {
            let nbs = r.bucket_seq();
            assert(nbs.len() == bs.len());
            assert forall|a: int| 0 <= a < nbs.len() implies (#[trigger] nbs[a]).0 == bs[a].0 by {}
            assert(keys_distinct(nbs));
            assert forall|a: int| 0 <= a < nbs.len() implies #[trigger] nbs[a].1.len() > 0 by {
                assert(bs[a].1.len() > 0);
            }
            assert forall|a: int, j: int| 0 <= a < nbs.len() && 0 <= j < nbs[a].1.len()
                implies (#[trigger] nbs[a].1[j]).0.spec_hash() == nbs[a].0 by {
                assert(r.buckets@[a].1@[j] == nbs[a].1[j]);
            }
            assert forall|k: Seq<usize>| r@.dom().contains(k) <==> m.dom().contains(k) by {
                if r@.dom().contains(k) {
                    let a = choose|a: int| 0 <= a < nbs.len() && nbs[a].0 == k;
                    assert(bs[a].0 == k);
                }
                if m.dom().contains(k) {
                    let a = choose|a: int| 0 <= a < bs.len() && bs[a].0 == k;
                    assert(nbs[a].0 == k);
                }
            }
            assert(r@.dom() =~= m.dom());
            assert forall|k: Seq<usize>| #[trigger] m.dom().contains(k) implies {
                &&& r@[k].len() == m[k].len()
                &&& forall|j: int| 0 <= j < m[k].len() ==> {
                    &&& cloned((#[trigger] m[k][j]).0, r@[k][j].0)
                    &&& call_ensures(f, (&m[k][j].1,), r@[k][j].1)
                }
            } by {
                let a = choose|a: int| 0 <= a < bs.len() && bs[a].0 == k;
                lemma_key_map_at(bs, a);
                lemma_key_map_at(nbs, a);
                assert forall|j: int| 0 <= j < m[k].len() implies {
                    &&& cloned((#[trigger] m[k][j]).0, r@[k][j].0)
                    &&& call_ensures(f, (&m[k][j].1,), r@[k][j].1)
                } by {
                    assert(r@[k][j] == out@[a].1@[j]);
                }
            }
            lemma_total_len_same(bs, nbs);
        }
        r
    }

    /// `apply_ref`, for callers of the parallel interface: the values are mapped bucket by
    /// bucket in turn.
    pub fn par_apply_ref<T2, F: Fn(&T) -> T2>(&self, f: F) -> (r: CombMap<G, T2, S>)
        requires
            self.wf(),
            forall|k: Seq<usize>, j: int| self@.dom().contains(k) && 0 <= j < self@[k].len() ==> call_requires(f, (&(#[trigger] self@[k][j]).1,)),
        ensures
            r.wf(),
            clones_keep_hash::<G>() ==> refs_mapped_by(self@, r@, f),
            r.size() == self.size(),
            cloned(self.spec_stats(), r.spec_stats()),
    {
        self.apply_ref(f)
    }

    /// A copy of the map: clones of the keys, the values that `clone` gives, cloned statistics.
    pub fn clone_with<F: Fn(&T) -> T>(&self, clone: F) -> (r: Self)
        requires
            self.wf(),
            forall|k: Seq<usize>, j: int| self@.dom().contains(k) && 0 <= j < self@[k].len() ==> call_requires(clone, (&(#[trigger] self@[k][j]).1,)),
        ensures
            r.wf(),
            clones_keep_hash::<G>() ==> refs_mapped_by(self@, r@, clone),
            r.size() == self.size(),
            cloned(self.spec_stats(), r.spec_stats()),
    {
        self.apply_ref(clone)
    }
}

proof fn lemma_deduped_iso<G: CombEq, T, F: Fn(&(G, T), &(G, T)) -> bool>(b: Seq<(G, T)>, nb: Seq<(G, T)>, eq: F)
    requires
        crate::util::deduped_by(b, nb, eq),
        forall|x: &(G, T), y: &(G, T), t: bool| call_ensures(eq, (x, y), t) ==> t == x.0.spec_iso(&y.0),
    ensures
        deduped_iso(b, nb),
{
    let keep = choose|keep: Seq<bool>| #[trigger] filter_keep(b, keep) == nb && {
        &&& keep.len() == b.len()
        &&& forall|i: int, j: int| 0 <= i < j < b.len() && keep[i] && keep[j] ==> crate::util::eq_pair(b, eq, i, j, false)
        &&& forall|j: int| 0 <= j < b.len() && !keep[j] ==> exists|i: int| 0 <= i < b.len() && i != j && #[trigger] crate::util::eq_pair(b, eq, i, j, true)
        &&& b.len() > 0 ==> exists|i: int| 0 <= i < b.len() && keep[i]
        &&& forall|j: int| 0 <= j < b.len() ==> #[trigger] crate::util::linked_to_kept(b, eq, keep, j)
    };
    if crate::obeys_comb_eq::<G>() && lawful_entries(b) {
        assert forall|j: int| 0 <= j < b.len() implies #[trigger] iso_to_kept(b, keep, j) by {
            assert(crate::util::linked_to_kept(b, eq, keep, j));
            let i = choose|i: int| 0 <= i < b.len() && keep[i] && #[trigger] crate::util::eq_linked(b, eq, j, i);
            let p = choose|p: Seq<int>| #[trigger] crate::util::eq_walk(b, eq, p) && p[0] == j && p.last() == i;
            lemma_walk_iso(b, eq, p, p.len() - 1);
        }
    }
    assert forall|i: int, j: int| 0 <= i < j < b.len() && keep[i] && keep[j] implies !b[i].0.spec_iso(&b[j].0) by {
        assert(crate::util::eq_pair(b, eq, i, j, false));
    }
    assert forall|j: int| 0 <= j < b.len() && !keep[j] implies exists|i: int| 0 <= i < b.len() && i != j &&
        #[trigger] iso_in_order(b, i, j) by {
        let i = choose|i: int| 0 <= i < b.len() && i != j && #[trigger] crate::util::eq_pair(b, eq, i, j, true);
        assert(iso_in_order(b, i, j));
    }
}

proof fn lemma_filter_keep_nonempty<E>(s: Seq<E>, keep: Seq<bool>, i: int)
    requires
        keep.len() == s.len(),
        0 <= i < s.len(),
        keep[i],
    ensures
        filter_keep(s, keep).len() > 0,
    decreases s.len(),
{
    if i < s.len() - 1 {
        lemma_filter_keep_nonempty(s.drop_last(), keep.drop_last(), i);
    }
}

/// `after` keeps some entries of `before`, in order: no two kept keys are isomorphic (the
/// earlier one deciding), every dropped key is isomorphic to another key, some entry is kept
/// when `before` is not empty, and, where isomorphism is an equivalence, every key is
/// isomorphic to a kept one.
pub open spec fn deduped_iso<G: CombEq, T>(before: Seq<(G, T)>, after: Seq<(G, T)>) -> bool {
    exists|keep: Seq<bool>| #[trigger] filter_keep(before, keep) == after && {
        &&& keep.len() == before.len()
        &&& forall|i: int, j: int| 0 <= i < j < before.len() && keep[i] && keep[j] ==> !before[i].0.spec_iso(&before[j].0)
        &&& forall|j: int| 0 <= j < before.len() && !keep[j] ==> exists|i: int| 0 <= i < before.len() && i != j &&
            #[trigger] iso_in_order(before, i, j)
        &&& before.len() > 0 ==> exists|i: int| 0 <= i < before.len() && keep[i]
        &&& crate::obeys_comb_eq::<G>() && lawful_entries(before) ==> forall|j: int| 0 <= j < before.len() ==> #[trigger] iso_to_kept(before, keep, j)
    }
}

/// The key at `j` of `s` is isomorphic to a key that `keep` marks.
pub open spec fn iso_to_kept<G: CombEq, T>(s: Seq<(G, T)>, keep: Seq<bool>, j: int) -> bool {
    exists|i: int| 0 <= i < s.len() && keep[i] && s[j].0.spec_iso(&s[i].0)
}

/// Along a walk of steps that `eq` allows, the keys stay isomorphic to the first one.
proof fn lemma_walk_iso<G: CombEq, T, F: Fn(&(G, T), &(G, T)) -> bool>(b: Seq<(G, T)>, eq: F, p: Seq<int>, k: int)
    requires
        crate::obeys_comb_eq::<G>(),
        lawful_entries(b),
        forall|x: &(G, T), y: &(G, T), t: bool| call_ensures(eq, (x, y), t) ==> t == x.0.spec_iso(&y.0),
        crate::util::eq_walk(b, eq, p),
        0 <= k < p.len(),
    ensures
        b[p[0]].0.spec_iso(&b[p[k]].0),
    decreases k,
{
    if k == 0 {
        assert(b[p[0]].0.spec_iso(&b[p[0]].0));
    } else {
        lemma_walk_iso(b, eq, p, k - 1);
        let m = k - 1;
        assert(crate::util::eq_step(b, eq, p[m], p[m + 1]));
        assert(m + 1 == k);
        let x = p[k - 1];
        let y = p[k];
        if x != y {
            if x < y {
                assert(b[x].0.spec_iso(&b[y].0));
            } else {
                assert(b[y].0.spec_iso(&b[x].0));
                assert(b[x].0.spec_iso(&b[y].0));
            }
            assert(b[p[0]].0.spec_iso(&b[y].0));
        }
    }
}

/// The keys at `i` and `j` are isomorphic, the earlier one deciding.
pub open spec fn iso_in_order<G: CombEq, T>(s: Seq<(G, T)>, i: int, j: int) -> bool {
    if i < j { s[i].0.spec_iso(&s[j].0) } else { s[j].0.spec_iso(&s[i].0) }
}

impl<G: CombEq, T, S: CombStats<G>> CombMap<G, T, S> {
    /// Like `remove`, but the bucket is searched in parallel: one of the entries whose key is
    /// isomorphic to `g` (as `key.is_isomorphic(g)` decides) is removed, not necessarily the
    /// first. Without isomorphic duplicates this is `remove`.
    pub fn par_remove(&mut self, g: &G) -> (r: Option<T>)
        where G: Sync, T: Sync,
        requires
            old(self).wf(),
        ensures
            final(self).wf(),
            exists|i: int| #[trigger] found_at(old(self)@, *g, matches_to(*g), i) && {
                let b = bucket_at(old(self)@, g.spec_hash());
                &&& final(self)@ == model_remove_at(old(self)@, *g, i)
                &&& r == if i >= 0 { Some(b[i].1) } else { None }
            },
            crate::obeys_comb_eq::<G>() && model_unique(old(self)@) && crate::lawful_keys(old(self)@) && g.spec_lawful() ==> final(self)@ == model_remove(old(self)@, *g) && r == model_get(old(self)@, *g),
    {
        let ghost m0 = self@;
        let key = g.hash();
        match self.find_bucket(&key) {
            None => {
                proof {
                    lemma_first_where(Seq::<(G, T)>::empty(), matches_to::<G, T>(*g), 0);
                    assert(found_at(m0, *g, matches_to(*g), -1));
                }
                None
            },
            Some(bi) => {
                proof {
                    self.lemma_wf_bucket(bi as int);
                    assert(self.buckets@[bi as int].1@ == self.bucket_seq()[bi as int].1);
                }
                let ghost b = bucket_at(m0, g.spec_hash());
                let found = par_position(&self.buckets[bi].1, |e: &(G, T)| -> (t: bool)
                    ensures
                        t == e.0.spec_iso(g),
                    { e.0.is_isomorphic(g) });
                match found {
                    Some(j) => {
                        proof {
                            assert(self.buckets@[bi as int].1@[j as int] == b[j as int]);
                            assert(found_at(m0, *g, matches_to(*g), j as int));
                            if crate::obeys_comb_eq::<G>() && model_unique(m0) && crate::lawful_keys(m0) && g.spec_lawful() {
                                lemma_match_is_first::<G, T>(m0, *g, j as int, false);
                            }
                        }
                        Some(self.take_at(bi, j))
                    },
                    None => {
                        proof {
                            assert forall|jj: int| 0 <= jj < b.len() implies !matches_to::<G, T>(*g)(#[trigger] b[jj]) by {
                                assert(self.buckets@[bi as int].1@[jj] == b[jj]);
                            }
                            lemma_first_where_props(b, matches_to::<G, T>(*g));
                            if first_where(b, matches_to::<G, T>(*g)) >= 0 {
                                assert(!matches_to::<G, T>(*g)(b[first_where(b, matches_to::<G, T>(*g))]));
                            }
                            assert(found_at(m0, *g, matches_to(*g), -1));
                        }
                        None
                    },
                }
            },
        }
    }

    /// Replaces every value by what `f` gives for it, in place; keys, buckets and statistics
    /// are kept.
    pub fn update_values<F: Fn(T) -> T>(&mut self, f: F)
        requires
            old(self).wf(),
            forall|k: Seq<usize>, j: int| old(self)@.dom().contains(k) && 0 <= j < old(self)@[k].len() ==> call_requires(f, ((#[trigger] old(self)@[k][j]).1,)),
        ensures
            final(self).wf(),
            values_mapped_by(old(self)@, final(self)@, f),
            final(self).size() == old(self).size(),
            final(self).spec_stats() == old(self).spec_stats(),
    {
        let ghost orig = self.bucket_seq();
        let ghost m = self@;
        proof {
            assert forall|a: int, j: int| 0 <= a < orig.len() && 0 <= j < orig[a].1.len() implies call_requires(f, ((#[trigger] orig[a].1[j]).1,)) by {
                lemma_key_map_at(orig, a);
                assert(m[orig[a].0][j] == orig[a].1[j]);
            }
        }
        let mut i: usize = 0;
        while i < self.buckets.len()
            invariant
                self.bucket_seq().len() == orig.len(),
                keys_distinct(orig),
                i <= orig.len(),
                self.spec_stats() == old(self).spec_stats(),
                forall|a: int| 0 <= a < orig.len() ==> #[trigger] orig[a].1.len() > 0,
                forall|a: int, j: int| 0 <= a < orig.len() && 0 <= j < orig[a].1.len() ==> (#[trigger] orig[a].1[j]).0.spec_hash() == orig[a].0,
                forall|a: int| 0 <= a < orig.len() ==> (#[trigger] self.bucket_seq()[a]).0 == orig[a].0,
                forall|a: int| i <= a < orig.len() ==> (#[trigger] self.bucket_seq()[a]) == orig[a],
                forall|a: int, j: int| 0 <= a < orig.len() && 0 <= j < orig[a].1.len() ==> call_requires(f, ((#[trigger] orig[a].1[j]).1,)),
                forall|a: int| 0 <= a < i ==> {
                    &&& (#[trigger] self.bucket_seq()[a]).1.len() == orig[a].1.len()
                    &&& forall|j: int| 0 <= j < orig[a].1.len() ==> (#[trigger] self.bucket_seq()[a].1[j]).0 == orig[a].1[j].0
                        && call_ensures(f, (orig[a].1[j].1,), self.bucket_seq()[a].1[j].1)
                },
            decreases orig.len() - i,
        {
            let ghost before = self.bucket_seq();
            let mut v: Vec<(G, T)> = Vec::new();
            core::mem::swap(&mut v, &mut self.buckets[i].1);
            proof {
                assert(v@ == before[i as int].1);
                assert(before[i as int] == orig[i as int]);
                assert forall|j: int| 0 <= j < v@.len() implies call_requires(f, ((#[trigger] v@[j]).1,)) by {
                    assert(v@[j] == orig[i as int].1[j]);
                }
            }
            let ghost ov = v@;
            let mut nv = map_bucket(v, &f);
            core::mem::swap(&mut nv, &mut self.buckets[i].1);
            proof {
                let ns = self.buckets@[i as int].1@;
                assert(self.bucket_seq() =~= before.update(i as int, (before[i as int].0, ns)));
            }
            i = i + 1;
        }
        proof {
            let bs = self.bucket_seq();
            assert(keys_distinct(bs)) by {
                assert forall|a: int, c: int| 0 <= a < c < bs.len() implies bs[a].0 != bs[c].0 by {
                    assert(bs[a].0 == orig[a].0 && bs[c].0 == orig[c].0);
                }
            }
            assert forall|a: int| 0 <= a < bs.len() implies #[trigger] bs[a].1.len() > 0 by {
                assert(orig[a].1.len() > 0);
            }
            assert forall|a: int, j: int| 0 <= a < bs.len() && 0 <= j < bs[a].1.len()
                implies (#[trigger] bs[a].1[j]).0.spec_hash() == bs[a].0 by {
                assert(bs[a].1[j].0 == orig[a].1[j].0);
                assert(orig[a].1[j].0.spec_hash() == orig[a].0);
            }
            assert forall|k: Seq<usize>| self@.dom().contains(k) <==> m.dom().contains(k) by {
                if self@.dom().contains(k) {
                    let a = choose|a: int| 0 <= a < bs.len() && bs[a].0 == k;
                    assert(orig[a].0 == k);
                }
                if m.dom().contains(k) {
                    let a = choose|a: int| 0 <= a < orig.len() && orig[a].0 == k;
                    assert(bs[a].0 == k);
                }
            }
            assert(self@.dom() =~= m.dom());
            assert forall|k: Seq<usize>| #[trigger] m.dom().contains(k) implies {
                &&& self@[k].len() == m[k].len()
                &&& forall|j: int| 0 <= j < m[k].len() ==> {
                    &&& (#[trigger] self@[k][j]).0 == m[k][j].0
                    &&& call_ensures(f, (m[k][j].1,), self@[k][j].1)
                }
            } by {
                let a = choose|a: int| 0 <= a < orig.len() && orig[a].0 == k;
                lemma_key_map_at(orig, a);
                lemma_key_map_at(bs, a);
            }
            lemma_total_len_same(orig, bs);
        }
    }

    /// `into_keys`, for callers of the parallel interface.
    pub fn into_par_keys(self) -> (r: Vec<G>)
        ensures
            r@ == self.entries().map_values(|e: (G, T)| e.0),
    {
        self.into_keys()
    }

    /// `into_values`, for callers of the parallel interface.
    pub fn into_par_values(self) -> (r: Vec<T>)
        ensures
            r@ == self.entries().map_values(|e: (G, T)| e.1),
    {
        self.into_values()
    }

    /// `keys`, for callers of the parallel interface.
    pub fn par_keys(&self) -> (r: Vec<&G>)
        ensures
            r@.len() == self.entries().len(),
            forall|j: int| 0 <= j < r@.len() ==> *(#[trigger] r@[j]) == self.entries()[j].0,
    {
        self.keys()
    }

    /// `values`, for callers of the parallel interface.
    pub fn par_values(&self) -> (r: Vec<&T>)
        ensures
            r@.len() == self.entries().len(),
            forall|j: int| 0 <= j < r@.len() ==> *(#[trigger] r@[j]) == self.entries()[j].1,
    {
        self.values()
    }

    /// `extend_unchecked`, for callers of the parallel interface: the pairs go into the
    /// buckets of their keys' hashes one after the other.
    pub fn par_extend_unchecked(&mut self, items: Vec<(G, T)>)
        requires
            old(self).wf(),
        ensures
            final(self).wf(),
            final(self)@ == model_insert_all_unchecked(old(self)@, items@),
            final(self).size() == old(self).size() + items@.len(),
            final(self).spec_stats() == stats_after(old(self).spec_stats(), keys_of(items@)),
    {
        self.extend_unchecked(items)
    }

    /// `retain`, for callers of the parallel interface: the entries are filtered bucket by
    /// bucket in turn.
    pub fn par_retain<F: Fn(&G, &T) -> bool>(&mut self, f: F)
        requires
            old(self).wf(),
            forall|k: Seq<usize>, j: int| old(self)@.dom().contains(k) && 0 <= j < old(self)@[k].len()
                ==> call_requires(f, (&(#[trigger] old(self)@[k][j]).0, &old(self)@[k][j].1)),
        ensures
            final(self).wf(),
            retained_by(old(self)@, final(self)@, f),
    {
        self.retain(f)
    }

    /// `apply`, for callers of the parallel interface: the values are mapped bucket by bucket
    /// in turn.
    pub fn par_apply<T2, F: Fn(T) -> T2>(self, f: F) -> (r: CombMap<G, T2, S>)
        requires
            self.wf(),
            forall|k: Seq<usize>, j: int| self@.dom().contains(k) && 0 <= j < self@[k].len() ==> call_requires(f, ((#[trigger] self@[k][j]).1,)),
        ensures
            r.wf(),
            values_mapped_by(self@, r@, f),
            r.size() == self.size(),
            r.spec_stats() == self.spec_stats(),
    {
        self.apply(f)
    }

    /// Removes isomorphic duplicates bucket by bucket, by union-find over the pairs of entries
    /// (see `util::par_dedup`): which entry of a class stays is not the first in general.
    pub fn par_dedup(&mut self)
        requires
            old(self).wf(),
            forall|k: Seq<usize>| #[trigger] old(self)@.dom().contains(k) ==> old(self)@[k].len() <= crate::util::uf_max_size(),
        ensures
            final(self).wf(),
            final(self)@.dom() == old(self)@.dom(),
            forall|k: Seq<usize>| #[trigger] old(self)@.dom().contains(k) ==> deduped_iso(old(self)@[k], final(self)@[k]),
            final(self).spec_stats() == old(self).spec_stats(),
    {
        let ghost orig = self.bucket_seq();
        proof {
            assert forall|a: int| 0 <= a < orig.len() implies #[trigger] orig[a].1.len() <= crate::util::uf_max_size() by {
                self.lemma_wf_bucket(a);
            }
        }
        let mut i: usize = 0;
        while i < self.buckets.len()
            invariant
                keys_distinct(orig),
                self.bucket_seq().len() == orig.len(),
                i <= orig.len(),
                forall|a: int| 0 <= a < orig.len() ==> (#[trigger] self.bucket_seq()[a]).0 == orig[a].0,
                forall|a: int| i <= a < orig.len() ==> (#[trigger] self.bucket_seq()[a]) == orig[a],
                forall|a: int| 0 <= a < i ==> deduped_iso(orig[a].1, (#[trigger] self.bucket_seq()[a]).1),
                forall|a: int| 0 <= a < orig.len() ==> #[trigger] orig[a].1.len() > 0,
                forall|a: int| 0 <= a < orig.len() ==> #[trigger] self.bucket_seq()[a].1.len() > 0,
                forall|a: int, j: int| 0 <= a < orig.len() && 0 <= j < orig[a].1.len() ==>
                    (#[trigger] orig[a].1[j]).0.spec_hash() == orig[a].0,
                forall|a: int, j: int| 0 <= a < orig.len() && 0 <= j < self.bucket_seq()[a].1.len() ==>
                    (#[trigger] self.bucket_seq()[a].1[j]).0.spec_hash() == orig[a].0,
                forall|a: int| 0 <= a < orig.len() ==> #[trigger] orig[a].1.len() <= crate::util::uf_max_size(),
                self.spec_stats() == old(self).spec_stats(),
            decreases orig.len() - i,
        {
            let mut v: Vec<(G, T)> = Vec::new();
            let ghost before = self.bucket_seq();
            core::mem::swap(&mut v, &mut self.buckets[i].1);
            let ghost b = v@;
            proof {
                assert(before[i as int].1 == b);
                assert(b == orig[i as int].1);
            }
            let eq = |x: &(G, T), y: &(G, T)| -> (t: bool)
                ensures
                    t == x.0.spec_iso(&y.0),
                { x.0.is_isomorphic(&y.0) };
            crate::util::par_dedup(&mut v, eq);
            proof {
                lemma_deduped_iso(b, v@, eq);
                let keep = choose|keep: Seq<bool>| #[trigger] filter_keep(b, keep) == v@ && {
                    &&& keep.len() == b.len()
                    &&& forall|x: int, y: int| 0 <= x < y < b.len() && keep[x] && keep[y] ==> !b[x].0.spec_iso(&b[y].0)
                    &&& forall|y: int| 0 <= y < b.len() && !keep[y] ==> exists|x: int| 0 <= x < b.len() && x != y &&
                        #[trigger] iso_in_order(b, x, y)
                    &&& b.len() > 0 ==> exists|x: int| 0 <= x < b.len() && keep[x]
                    &&& crate::obeys_comb_eq::<G>() && lawful_entries(b) ==> forall|y: int| 0 <= y < b.len() ==> #[trigger] iso_to_kept(b, keep, y)
                };
                let x = choose|x: int| 0 <= x < b.len() && keep[x];
                lemma_filter_keep_nonempty(b, keep, x);
                lemma_filter_keep_len(b, keep);
            }
            let ghost nb = v@;
            core::mem::swap(&mut v, &mut self.buckets[i].1);
            proof {
                assert(self.bucket_seq() =~= before.update(i as int, (before[i as int].0, nb)));
                assert forall|a: int, j: int| 0 <= a < orig.len() && 0 <= j < self.bucket_seq()[a].1.len() implies
                    (#[trigger] self.bucket_seq()[a].1[j]).0.spec_hash() == orig[a].0 by {
                    if a == i {
                        assert(b.contains(nb[j]));
                        let jj = choose|jj: int| 0 <= jj < b.len() && b[jj] == nb[j];
                        assert(orig[a].1[jj] == b[jj]);
                    } else {
                        assert(self.bucket_seq()[a] == before[a]);
                    }
                }
            }
            i = i + 1;
        }
        proof {
            let bs = self.bucket_seq();
            assert(keys_distinct(bs)) by {
                assert forall|a: int, c: int| 0 <= a < c < bs.len() implies bs[a].0 != bs[c].0 by {
                    assert(bs[a].0 == orig[a].0 && bs[c].0 == orig[c].0);
                }
            }
            assert forall|k: Seq<usize>| self@.dom().contains(k) <==> old(self)@.dom().contains(k) by {
                if self@.dom().contains(k) {
                    let a = choose|a: int| 0 <= a < bs.len() && bs[a].0 == k;
                    assert(orig[a].0 == k);
                }
                if old(self)@.dom().contains(k) {
                    let a = choose|a: int| 0 <= a < orig.len() && orig[a].0 == k;
                    assert(bs[a].0 == k);
                }
            }
            assert(self@.dom() =~= old(self)@.dom());
            assert forall|k: Seq<usize>| #[trigger] old(self)@.dom().contains(k) implies deduped_iso(old(self)@[k], self@[k]) by {
                let a = choose|a: int| 0 <= a < orig.len() && orig[a].0 == k;
                lemma_key_map_at(orig, a);
                lemma_key_map_at(bs, a);
            }
        }
    }
}

impl<G: CombEq, T, S: CombStats<G>> CombMap<G, T, S> {
    /// Adds the pairs of `items` without looking for isomorphic keys, then removes isomorphic
    /// duplicates from every bucket with `par_dedup`.
    pub fn par_extend(&mut self, items: Vec<(G, T)>)
        requires
            old(self).wf(),
            forall|k: Seq<usize>| #[trigger] model_insert_all_unchecked(old(self)@, items@).dom().contains(k) ==>
                model_insert_all_unchecked(old(self)@, items@)[k].len() <= crate::util::uf_max_size(),
        ensures
            final(self).wf(),
            final(self)@.dom() == model_insert_all_unchecked(old(self)@, items@).dom(),
            forall|k: Seq<usize>| #[trigger] final(self)@.dom().contains(k) ==>
                deduped_iso(model_insert_all_unchecked(old(self)@, items@)[k], final(self)@[k]),
            final(self).spec_stats() == stats_after(old(self).spec_stats(), keys_of(items@)),
    {
        self.extend_unchecked(items);
        self.par_dedup();
    }
}

/// Inserting `items` into an empty map without looking for isomorphic keys makes no bucket
/// longer than `items`.
proof fn lemma_insert_all_unchecked_bucket_len<G: CombEq, T>(items: Seq<(G, T)>, k: Seq<usize>)
    ensures
        bucket_at(model_insert_all_unchecked(Map::<Seq<usize>, Seq<(G, T)>>::empty(), items), k).len() <= items.len(),
    decreases items.len(),
{
    if items.len() > 0 {
        lemma_insert_all_unchecked_bucket_len(items.drop_last(), k);
    }
}

impl<G: CombEq, T, S: CombStats<G> + Default> CombMap<G, T, S> {
    /// The map of the pairs of `items` without isomorphic duplicates: the pairs go into the
    /// buckets of their keys' hashes, and every bucket is deduplicated as `par_dedup` does.
    pub fn par_from_vec(items: Vec<(G, T)>) -> (r: Self)
        requires
            items@.len() <= crate::util::uf_max_size(),
        ensures
            r.wf(),
            r@.dom() == model_insert_all_unchecked(Map::<Seq<usize>, Seq<(G, T)>>::empty(), items@).dom(),
            forall|k: Seq<usize>| #[trigger] r@.dom().contains(k) ==> deduped_iso(
                model_insert_all_unchecked(Map::<Seq<usize>, Seq<(G, T)>>::empty(), items@)[k], r@[k]),
            exists|d: S| call_ensures(S::default, (), d) && r.spec_stats() == stats_after(d, keys_of(items@)),
    {
        let mut m = Self::new();
        let ghost d = m.spec_stats();
        proof {
            assert forall|k: Seq<usize>| #[trigger] model_insert_all_unchecked(m@, items@).dom().contains(k) implies
                model_insert_all_unchecked(m@, items@)[k].len() <= crate::util::uf_max_size() by {
                lemma_insert_all_unchecked_bucket_len(items@, k);
            }
        }
        let ghost its = items@;
        m.par_extend(items);
        assert(call_ensures(S::default, (), d) && m.spec_stats() == stats_after(d, keys_of(its)));
        m
    }
}

/// `after` is `before` with the value of entry `j` of bucket `bi` set to `x`.
pub open spec fn entry_value_set<G, T>(
    before: Seq<(Vec<usize>, Vec<(G, T)>)>,
    after: Seq<(Vec<usize>, Vec<(G, T)>)>,
    bi: int,
    j: int,
    x: T,
) -> bool {
    &&& after.len() == before.len()
    &&& forall|i: int| 0 <= i < before.len() && i != bi ==> #[trigger] after[i] == before[i]
    &&& after[bi].0 == before[bi].0
    &&& after[bi].1@ == before[bi].1@.update(j, (before[bi].1@[j].0, x))
}

/// A mutable reference to the value of entry `j` of bucket `bi`.
fn entry_value_mut<G, T>(buckets: &mut Vec<(Vec<usize>, Vec<(G, T)>)>, bi: usize, j: usize) -> (r: &mut T)
    requires
        bi < old(buckets)@.len(),
        j < old(buckets)@[bi as int].1@.len(),
    ensures
        *r == old(buckets)@[bi as int].1@[j as int].1,
        entry_value_set(old(buckets)@, final(buckets)@, bi as int, j as int, *final(r)),
{
    &mut buckets[bi].1[j].1
}

impl<G: CombEq, T, S: CombStats<G>> CombMap<G, T, S> {
    /// Any storage that differs from this map's only in the value of entry `j` of bucket `bi`
    /// is a well-formed map whose model has that value replaced.
    proof fn lemma_entry_value_set(self, bi: int, j: int)
        requires
            self.wf(),
            0 <= bi < self.bucket_seq().len(),
            0 <= j < self.bucket_seq()[bi].1.len(),
        ensures
            forall|nr: Seq<(Vec<usize>, Vec<(G, T)>)>, x: T| #[trigger] entry_value_set(self.buckets@, nr, bi, j, x)
                ==> ({
                    let nbs = nr.map_values(|p: (Vec<usize>, Vec<(G, T)>)| (p.0@, p.1@));
                    let b = self.bucket_seq()[bi].1;
                    &&& key_map(nbs) == self@.insert(self.bucket_seq()[bi].0, b.update(j, (b[j].0, x)))
                    &&& keys_distinct(nbs)
                    &&& forall|i: int| 0 <= i < nbs.len() ==> #[trigger] nbs[i].1.len() > 0
                    &&& forall|i: int, jj: int| 0 <= i < nbs.len() && 0 <= jj < nbs[i].1.len()
                        ==> (#[trigger] nbs[i].1[jj]).0.spec_hash() == nbs[i].0
                }),
    {
        let old_bs = self.bucket_seq();
        let b = old_bs[bi].1;
        let f = |p: (Vec<usize>, Vec<(G, T)>)| (p.0@, p.1@);
        assert forall|nr: Seq<(Vec<usize>, Vec<(G, T)>)>, x: T| #[trigger] entry_value_set(self.buckets@, nr, bi, j, x)
            implies key_map(nr.map_values(f)) == key_map(old_bs).insert(old_bs[bi].0, b.update(j, (b[j].0, x)))
            && keys_distinct(nr.map_values(f))
            && (forall|i: int| 0 <= i < nr.map_values(f).len() ==> #[trigger] nr.map_values(f)[i].1.len() > 0)
            && (forall|i: int, jj: int| 0 <= i < nr.map_values(f).len() && 0 <= jj < nr.map_values(f)[i].1.len()
                ==> (#[trigger] nr.map_values(f)[i].1[jj]).0.spec_hash() == nr.map_values(f)[i].0) by {
            let nb = b.update(j, (b[j].0, x));
            assert(nr.map_values(f) =~= old_bs.update(bi, (old_bs[bi].0, nb)));
            lemma_key_map_update(old_bs, bi, nb);
            assert forall|i: int| 0 <= i < nr.map_values(f).len() implies #[trigger] nr.map_values(f)[i].1.len() > 0 by {
                if i != bi { assert(nr.map_values(f)[i] == old_bs[i]); }
            }
            assert forall|i: int, jj: int| 0 <= i < nr.map_values(f).len() && 0 <= jj < nr.map_values(f)[i].1.len()
                implies (#[trigger] nr.map_values(f)[i].1[jj]).0.spec_hash() == nr.map_values(f)[i].0 by {
                if i != bi { assert(nr.map_values(f)[i] == old_bs[i]); } else {
                    assert(nr.map_values(f)[i].1[jj].0 == b[jj].0);
                }
            }
        }
    }

    /// A mutable reference to the value of the first entry whose key is isomorphic to `g` (as
    /// `key.is_isomorphic(g)` decides), if there is one.
    pub fn get_mut(&mut self, g: &G) -> (r: Option<&mut T>)
        requires
            old(self).wf(),
        ensures
            ({
                let k = g.spec_hash();
                let b = bucket_at(old(self)@, k);
                let i = first_where(b, matches_to(*g));
                if i >= 0 {
                    &&& r matches Some(v) && *v == b[i].1 && final(self).wf()
                        && final(self)@ == old(self)@.insert(k, b.update(i, (b[i].0, *final(v))))
                } else {
                    &&& r is None
                    &&& final(self)@ == old(self)@
                    &&& final(self).wf()
                }
            }),
    {
        let key = g.hash();
        match self.find_bucket(&key) {
            None => {
                proof {
                    lemma_first_where(Seq::<(G, T)>::empty(), matches_to(*g), 0);
                }
                None
            },
            Some(bi) => {
                proof {
                    self.lemma_wf_bucket(bi as int);
                }
                let j = self.position_to(bi, g);
                if j < self.buckets[bi].1.len() {
                    proof {
                        assert(self.buckets@[bi as int].1@ == self.bucket_seq()[bi as int].1);
                        self.lemma_entry_value_set(bi as int, j as int);
                    }
                    let r = entry_value_mut(&mut self.buckets, bi, j);
                    Some(r)
                } else {
                    None
                }
            },
        }
    }

    /// Like `get_mut`, but the bucket is searched in parallel: a mutable reference to the value
    /// of some entry whose key is isomorphic to `g` (as `key.is_isomorphic(g)` decides), not
    /// necessarily the first.
    pub fn par_get_mut(&mut self, g: &G) -> (r: Option<&mut T>)
        where G: Sync, T: Sync,
        requires
            old(self).wf(),
        ensures
            exists|i: int| #[trigger] found_at(old(self)@, *g, matches_to(*g), i) && ({
                let k = g.spec_hash();
                let b = bucket_at(old(self)@, k);
                if i >= 0 {
                    &&& r matches Some(v) && *v == b[i].1 && final(self).wf()
                        && final(self)@ == old(self)@.insert(k, b.update(i, (b[i].0, *final(v))))
                } else {
                    &&& r is None
                    &&& final(self)@ == old(self)@
                    &&& final(self).wf()
                }
            }),
    {
        let key = g.hash();
        match self.find_bucket(&key) {
            None => {
                proof {
                    lemma_first_where(Seq::<(G, T)>::empty(), matches_to::<G, T>(*g), 0);
                    assert(found_at(self@, *g, matches_to(*g), -1));
                }
                None
            },
            Some(bi) => {
                proof {
                    self.lemma_wf_bucket(bi as int);
                    assert(self.buckets@[bi as int].1@ == self.bucket_seq()[bi as int].1);
                }
                let ghost b = bucket_at(self@, g.spec_hash());
                let found = par_position(&self.buckets[bi].1, |e: &(G, T)| -> (t: bool)
                    ensures
                        t == e.0.spec_iso(g),
                    { e.0.is_isomorphic(g) });
                match found {
                    Some(j) => {
                        proof {
                            assert(self.buckets@[bi as int].1@[j as int] == b[j as int]);
                            assert(found_at(self@, *g, matches_to(*g), j as int));
                            self.lemma_entry_value_set(bi as int, j as int);
                        }
                        let r = entry_value_mut(&mut self.buckets, bi, j);
                        Some(r)
                    },
                    None => {
                        proof {
                            assert forall|jj: int| 0 <= jj < b.len() implies !matches_to::<G, T>(*g)(#[trigger] b[jj]) by {
                                assert(self.buckets@[bi as int].1@[jj] == b[jj]);
                            }
                            lemma_first_where_props(b, matches_to::<G, T>(*g));
                            if first_where(b, matches_to::<G, T>(*g)) >= 0 {
                                assert(!matches_to::<G, T>(*g)(b[first_where(b, matches_to::<G, T>(*g))]));
                            }
                            assert(found_at(self@, *g, matches_to(*g), -1));
                        }
                        None
                    },
                }
            },
        }
    }
}

} // verus!
