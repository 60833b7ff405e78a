use vstd::prelude::*;
use crate::CombEq;
use crate::collections::comb_map::{
    CombMap, CombStats, HasStats, bucket_at, dedup_bucket, found_at, matches_from,
    matches_to, model_get, model_insert, model_insert_all_unchecked, model_insert_at,
    model_remove, model_remove_at, model_unique, refs_mapped_by, retained_by, clones_keep_hash,
    first_where, stats_after,
};

verus! {

/// A `CombMap` for parallel use: lookups, insertions and removals search a bucket in parallel,
/// so among several isomorphic keys of one bucket any one may be the one found.
///
/// `CombMap::par` and `CombParMap::seq` convert between the two without touching the entries.
pub struct CombParMap<G, T, S = ()> {
    map: CombMap<G, T, S>,
}

impl<G: CombEq, T, S: CombStats<G>> View for CombParMap<G, T, S> {
    type V = Map<Seq<usize>, Seq<(G, T)>>;

    /// The map from each key hash to the entries whose keys have that hash.
    open spec fn view(&self) -> Map<Seq<usize>, Seq<(G, T)>> {
        self.as_seq()@
    }
}

impl<G: CombEq, T, S: CombStats<G>> CombParMap<G, T, S> {
    /// The same entries as a sequential map.
    pub closed spec fn as_seq(self) -> CombMap<G, T, S> {
        self.map
    }

    /// Well-formedness, as for `CombMap`.
    pub open spec fn wf(self) -> bool {
        self.as_seq().wf()
    }

    /// The number of entries.
    pub open spec fn size(self) -> nat {
        self.as_seq().size()
    }

    /// All entries, bucket after bucket.
    pub open spec fn entries(self) -> Seq<(G, T)> {
        self.as_seq().entries()
    }
}

impl<G: CombEq, T, S: CombStats<G>> CombMap<G, T, S> {
    /// The same map, for parallel use.
    pub fn par(self) -> (r: CombParMap<G, T, S>)
        ensures
            r.as_seq() == self,
    {
        CombParMap { map: self }
    }
}

impl<G: CombEq, T, S: CombStats<G>> CombParMap<G, T, S> {
    /// The same map, for sequential use.
    pub fn seq(self) -> (r: CombMap<G, T, S>)
        ensures
            r == self.as_seq(),
    {
        self.map
    }

    /// Creates an empty map.
    pub fn new() -> (r: Self)
        where S: Default
        ensures
            r.wf(),
            r@ == Map::<Seq<usize>, Seq<(G, T)>>::empty(),
            r.size() == 0,
    {
        CombParMap { map: CombMap::new() }
    }

    /// Clears the map, removing all key-value pairs.
    pub fn clear(&mut self)
        ensures
            final(self).wf(),
            final(self)@ == Map::<Seq<usize>, Seq<(G, T)>>::empty(),
            final(self).size() == 0,
    {
        self.map.clear();
    }

    /// Returns the number of entries in the map; entries with isomorphic keys count separately.
    pub fn len(&self) -> (r: usize)
        requires
            self.size() <= usize::MAX,
        ensures
            r == self.size(),
    {
        self.map.len()
    }

    /// Returns `true` if the map holds no entry.
    pub fn is_empty(&self) -> (r: bool)
        requires
            self.wf(),
        ensures
            r == (self.size() == 0),
            r == (self@ == Map::<Seq<usize>, Seq<(G, T)>>::empty()),
    {
        self.map.is_empty()
    }

    /// Inserts a key-value pair: when the bucket of `g`'s hash holds keys isomorphic to `g` (as
    /// `g.is_isomorphic` decides), the value of one of them is replaced, not necessarily the
    /// first, and the old value is returned; otherwise the entry is added.
    pub fn insert(&mut self, g: G, val: T) -> (r: Option<T>)
        where G: Sync, T: Sync,
        requires
            old(self).wf(),
        ensures
            final(self).wf(),
            exists|i: int| #[trigger] found_at(old(self)@, g, matches_from(g), i) && {
                let b = bucket_at(old(self)@, g.spec_hash());
                &&& final(self)@ == model_insert_at(old(self)@, g, val, i)
                &&& r == if i >= 0 { Some(b[i].1) } else { None }
            },
            crate::obeys_comb_eq::<G>() && model_unique(old(self)@) && crate::lawful_keys(old(self)@) && g.spec_lawful() ==> final(self)@ == model_insert(old(self)@, g, val),
    {
        proof {
            assert(old(self)@ == old(self).map@);
        }
        let r = self.map.par_insert(g, val);
        proof {
            assert(self@ == self.map@);
        }
        r
    }

    /// Inserts a key-value pair, assuming the key is not isomorphic to any present key.
    pub fn insert_unchecked(&mut self, g: G, val: T)
        requires
            old(self).wf(),
        ensures
            final(self).wf(),
            final(self)@ == old(self)@.insert(g.spec_hash(), bucket_at(old(self)@, g.spec_hash()).push((g, val))),
            final(self).size() == old(self).size() + 1,
    {
        self.map.insert_unchecked(g, val)
    }

    /// Inserts the pairs of `items` one after the other, as `insert_unchecked` does.
    pub fn extend_unchecked(&mut self, items: Vec<(G, T)>)
        requires
            old(self).wf(),
        ensures
            final(self).wf(),
            final(self)@ == model_insert_all_unchecked(old(self)@, items@),
            final(self).size() == old(self).size() + items@.len(),
    {
        self.map.extend_unchecked(items)
    }

    /// Removes one of the entries whose key is isomorphic to `g` (as `key.is_isomorphic(g)`
    /// decides), not necessarily the first, and returns its value; the last entry of the bucket
    /// takes its place and a bucket left empty is dropped.
    pub fn remove(&mut self, g: &G) -> (r: Option<T>)
        where G: Sync, T: Sync,
        requires
            old(self).wf(),
        ensures
            final(self).wf(),
            exists|i: int| #[trigger] found_at(old(self)@, *g, matches_to(*g), i) && {
                let b = bucket_at(old(self)@, g.spec_hash());
                &&& final(self)@ == model_remove_at(old(self)@, *g, i)
                &&& r == if i >= 0 { Some(b[i].1) } else { None }
            },
            crate::obeys_comb_eq::<G>() && model_unique(old(self)@) && crate::lawful_keys(old(self)@) && g.spec_lawful() ==> final(self)@ == model_remove(old(self)@, *g) && r == model_get(old(self)@, *g),
    {
        self.map.par_remove(g)
    }

    /// Retains only the entries for which `f` returns `true`.
    pub fn retain<F: Fn(&G, &T) -> bool>(&mut self, f: F)
        requires
            old(self).wf(),
            forall|k: Seq<usize>, j: int| old(self)@.dom().contains(k) && 0 <= j < old(self)@[k].len()
                ==> call_requires(f, (&(#[trigger] old(self)@[k][j]).0, &old(self)@[k][j].1)),
        ensures
            final(self).wf(),
            retained_by(old(self)@, final(self)@, f),
    {
        self.map.par_retain(f)
    }

    /// Removes the entries whose key an earlier key of the same bucket is isomorphic to (as
    /// `earlier.is_isomorphic(later)` decides); the first entry of each class is kept.
    pub fn dedup(&mut self)
        requires
            old(self).wf(),
        ensures
            final(self).wf(),
            final(self)@ == old(self)@.map_values(|b: Seq<(G, T)>| dedup_bucket(b)),
    {
        self.map.dedup()
    }

    /// The value of one of the entries whose key is isomorphic to `g` (as
    /// `key.is_isomorphic(g)` decides), not necessarily the first.
    pub fn get(&self, g: &G) -> (r: Option<&T>)
        where G: Sync, T: Sync,
        requires
            self.wf(),
        ensures
            exists|i: int| #[trigger] found_at(self@, *g, matches_to(*g), i) &&
                r == if i >= 0 { Some(&bucket_at(self@, g.spec_hash())[i].1) } else { None },
            crate::obeys_comb_eq::<G>() && model_unique(self@) && crate::lawful_keys(self@) && g.spec_lawful() ==> (r matches Some(v) ==> model_get(self@, *g) == Some(*v)) && (r is None <==> model_get(self@, *g) is None),
    {
        self.map.par_get(g)
    }

    /// A mutable reference to the value of one of the entries whose key is isomorphic to `g`
    /// (as `key.is_isomorphic(g)` decides), not necessarily the first.
    pub fn get_mut(&mut self, g: &G) -> (r: Option<&mut T>)
        where G: Sync, T: Sync,
        requires
            old(self).wf(),
        ensures
            exists|i: int| #[trigger] found_at(old(self)@, *g, matches_to(*g), i) && ({
                let k = g.spec_hash();
                let b = bucket_at(old(self)@, k);
                if i >= 0 {
                    &&& r matches Some(v) && *v == b[i].1 && final(self).wf()
                        && final(self)@ == old(self)@.insert(k, b.update(i, (b[i].0, *final(v))))
                } else {
                    &&& r is None
                    &&& final(self)@ == old(self)@
                    &&& final(self).wf()
                }
            }),
    {
        proof {
            assert(old(self)@ == old(self).map@);
        }
        self.map.par_get_mut(g)
    }

    /// Returns `true` if the map holds a key isomorphic to `g`, as `get` finds it.
    pub fn contains_key(&self, g: &G) -> (r: bool)
        where G: Sync, T: Sync,
        requires
            self.wf(),
        ensures
            r == (first_where(bucket_at(self@, g.spec_hash()), matches_to::<G, T>(*g)) >= 0),
    {
        self.map.par_contains_key(g)
    }

    /// The entries, bucket after bucket, by reference.
    pub fn iter(&self) -> (r: Vec<(&G, &T)>)
        ensures
            r@.len() == self.entries().len(),
            forall|j: int| 0 <= j < r@.len() ==> *(#[trigger] r@[j]).0 == self.entries()[j].0 && *r@[j].1 == self.entries()[j].1,
    {
        self.map.iter()
    }

    /// The keys, bucket after bucket, by reference.
    pub fn keys(&self) -> (r: Vec<&G>)
        ensures
            r@.len() == self.entries().len(),
            forall|j: int| 0 <= j < r@.len() ==> *(#[trigger] r@[j]) == self.entries()[j].0,
    {
        self.map.keys()
    }

    /// Consumes the map and rebuilds its statistics from scratch for the new statistics type.
    pub fn with_stats<S2: CombStats<G> + Default>(self) -> (r: CombParMap<G, T, S2>)
        requires
            self.wf(),
        ensures
            r.wf(),
            r@ == self@,
            r.size() == self.size(),
            exists|d: S2| call_ensures(S2::default, (), d) && r.as_seq().spec_stats() == stats_after(d, self.as_seq().entry_keys()),
    {
        CombParMap { map: self.map.with_stats() }
    }
}

impl<G: CombEq + Clone, T, S: CombStats<G> + Clone> CombParMap<G, T, S> {
    /// A copy of the map: clones of the keys, the values that `clone` gives, cloned statistics.
    pub fn clone_with<F: Fn(&T) -> T>(&self, clone: F) -> (r: Self)
        requires
            self.wf(),
            forall|k: Seq<usize>, j: int| self@.dom().contains(k) && 0 <= j < self@[k].len() ==> call_requires(clone, (&(#[trigger] self@[k][j]).1,)),
        ensures
            r.wf(),
            clones_keep_hash::<G>() ==> refs_mapped_by(self@, r@, clone),
            r.size() == self.size(),
            cloned(self.as_seq().spec_stats(), r.as_seq().spec_stats()),
    {
        proof {
            assert(self@ == self.map@);
        }
        CombParMap { map: self.map.clone_with(clone) }
    }

    /// A map with clones of the keys, in the same buckets, and the values that `f` gives for
    /// the values; the statistics are cloned.
    pub fn transform<T2, F: Fn(&T) -> T2>(&self, f: F) -> (r: CombParMap<G, T2, S>)
        requires
            self.wf(),
            forall|k: Seq<usize>, j: int| self@.dom().contains(k) && 0 <= j < self@[k].len() ==> call_requires(f, (&(#[trigger] self@[k][j]).1,)),
        ensures
            r.wf(),
            clones_keep_hash::<G>() ==> refs_mapped_by(self@, r@, f),
            r.size() == self.size(),
            cloned(self.as_seq().spec_stats(), r.as_seq().spec_stats()),
    {
        proof {
            assert(self@ == self.map@);
        }
        CombParMap { map: self.map.par_apply_ref(f) }
    }
}

impl<G: CombEq, T, S: CombStats<G>> HasStats<G> for CombParMap<G, T, S> {
    type Stats = S;

    fn stats(&self) -> (r: &S)
        ensures
            *r == self.as_seq().spec_stats(),
    {
        self.map.stats()
    }
}

} // verus!
