use vstd::prelude::*;
use crate::CombEq;
use crate::collections::comb_map::{CombMap, bucket_at, filter_keep, retained_at, model_insert, model_insert_unchecked, model_insert_all, model_insert_all_unchecked, model_remove, model_get, dedup_bucket, model_unique, model_insert_at, model_remove_at, found_at, matches_from, matches_to, first_where, deduped_iso};

verus! {

/// The keys of a bucket model, bucket by bucket.
pub open spec fn keys_of<G, T>(m: Map<Seq<usize>, Seq<(G, T)>>) -> Map<Seq<usize>, Seq<G>> {
    m.map_values(|b: Seq<(G, T)>| b.map_values(|e: (G, T)| e.0))
}

/// Pairs every item of `items` with the unit value.
pub open spec fn with_unit<G>(items: Seq<G>) -> Seq<(G, ())> {
    items.map_values(|g: G| (g, ()))
}

/// `after` keeps, of each bucket of `before`, the items on which `f` returned `true`.
pub open spec fn set_retained_by<G, F: Fn(&G) -> bool>(
    before: Map<Seq<usize>, Seq<(G, ())>>,
    after: Map<Seq<usize>, Seq<(G, ())>>,
    f: F,
) -> bool {
    forall|k: Seq<usize>| #[trigger] set_retained_at(before, after, f, k)
}

/// `set_retained_by` at the bucket key `k`.
pub open spec fn set_retained_at<G, F: Fn(&G) -> bool>(
    before: Map<Seq<usize>, Seq<(G, ())>>,
    after: Map<Seq<usize>, Seq<(G, ())>>,
    f: F,
    k: Seq<usize>,
) -> bool {
    exists|keep: Seq<bool>| #![trigger filter_keep(bucket_at(before, k), keep)] {
        let b = bucket_at(before, k);
        &&& keep.len() == b.len()
        &&& forall|j: int| 0 <= j < b.len() ==> call_ensures(f, (&(#[trigger] b[j]).0,), keep[j])
        &&& bucket_at(after, k) == filter_keep(b, keep)
    }
}

/// A set structure where item equality is considered up to isomorphism.
///
/// It is a `CombMap` with unit values; the set normally holds at most one item of each
/// isomorphism class, `insert_unchecked` and `extend_unchecked` may break this and `dedup`
/// restores it.
pub struct CombSet<G>(CombMap<G, ()>);

impl<G: CombEq> View for CombSet<G> {
    type V = Map<Seq<usize>, Seq<G>>;

    /// The map from each hash to the items with that hash.
    open spec fn view(&self) -> Map<Seq<usize>, Seq<G>> {
        keys_of(self.inner()@)
    }
}

impl<G: CombEq> CombSet<G> {
    /// The underlying map.
    pub closed spec fn inner(self) -> CombMap<G, ()> {
        self.0
    }

    /// Well-formedness of the underlying map.
    pub open spec fn wf(self) -> bool {
        self.inner().wf()
    }

    /// The number of items.
    pub open spec fn size(self) -> nat {
        self.inner().size()
    }

    /// Creates an empty set.
    pub fn new() -> (r: Self)
        ensures
            r.wf(),
            r.inner()@ == Map::<Seq<usize>, Seq<(G, ())>>::empty(),
            r.size() == 0,
    {
        CombSet(CombMap::new())
    }

    /// Clears the set.
    pub fn clear(&mut self)
        ensures
            final(self).wf(),
            final(self).inner()@ == Map::<Seq<usize>, Seq<(G, ())>>::empty(),
            final(self).size() == 0,
    {
        self.0.clear()
    }

    /// The number of items; isomorphic items count separately.
    pub fn len(&self) -> (r: usize)
        requires
            self.size() <= usize::MAX,
        ensures
            r == self.size(),
    {
        self.0.len()
    }

    /// Returns `true` if the set holds no item.
    pub fn is_empty(&self) -> (r: bool)
        requires
            self.wf(),
        ensures
            r == (self.size() == 0),
    {
        self.0.is_empty()
    }

    /// Inserts an item unless an isomorphic one is present (which is then kept).
    pub fn insert(&mut self, g: G)
        requires
            old(self).wf(),
        ensures
            final(self).wf(),
            final(self).inner()@ == model_insert(old(self).inner()@, g, ()),
    {
        self.0.insert(g, ());
    }

    /// Inserts an item, assuming it is not isomorphic to any present one.
    pub fn insert_unchecked(&mut self, g: G)
        requires
            old(self).wf(),
        ensures
            final(self).wf(),
            final(self).inner()@ == model_insert_unchecked(old(self).inner()@, g, ()),
            final(self).size() == old(self).size() + 1,
    {
        self.0.insert_unchecked(g, ())
    }

    /// Removes the first item, in the bucket of `g`'s hash, that is isomorphic to `g`.
    pub fn remove(&mut self, g: &G)
        requires
            old(self).wf(),
        ensures
            final(self).wf(),
            final(self).inner()@ == model_remove(old(self).inner()@, *g),
    {
        self.0.remove(g);
    }

    /// Inserts the items one after the other, as `insert` does.
    pub fn extend(&mut self, items: Vec<G>)
        requires
            old(self).wf(),
        ensures
            final(self).wf(),
            final(self).inner()@ == model_insert_all(old(self).inner()@, with_unit(items@)),
    {
        let pairs = pair_with_unit(items);
        self.0.extend(pairs);
    }

    /// `extend_unchecked`, for callers of the parallel interface.
    pub fn par_extend_unchecked(&mut self, items: Vec<G>)
        requires
            old(self).wf(),
        ensures
            final(self).wf(),
            final(self).inner()@ == model_insert_all_unchecked(old(self).inner()@, with_unit(items@)),
            final(self).size() == old(self).size() + items@.len(),
    {
        self.extend_unchecked(items)
    }

    /// Inserts the items one after the other, as `insert_unchecked` does.
    pub fn extend_unchecked(&mut self, items: Vec<G>)
        requires
            old(self).wf(),
        ensures
            final(self).wf(),
            final(self).inner()@ == model_insert_all_unchecked(old(self).inner()@, with_unit(items@)),
            final(self).size() == old(self).size() + items@.len(),
    {
        let pairs = pair_with_unit(items);
        self.0.extend_unchecked(pairs);
    }

    /// Builds a set from the items, as `extend_unchecked` does on an empty set.
    pub fn from_vec(items: Vec<G>) -> (r: Self)
        ensures
            r.wf(),
            r.inner()@ == model_insert_all_unchecked(Map::<Seq<usize>, Seq<(G, ())>>::empty(), with_unit(items@)),
            r.size() == items@.len(),
    {
        let mut set = Self::new();
        set.extend_unchecked(items);
        set
    }

    /// Returns `true` if the set holds an item isomorphic to `g`, as `CombMap::get` finds it.
    pub fn contains(&self, g: &G) -> (r: bool)
        requires
            self.wf(),
        ensures
            r == model_get(self.inner()@, *g) is Some,
    {
        self.0.contains_key(g)
    }

    /// Removes the duplicate items (up to isomorphism); the first of each class is kept.
    pub fn dedup(&mut self)
        requires
            old(self).wf(),
        ensures
            final(self).wf(),
            final(self).inner()@ == old(self).inner()@.map_values(|b: Seq<(G, ())>| dedup_bucket(b)),
    {
        self.0.dedup()
    }

    /// Retains only the items for which `f` returns `true`.
    pub fn retain<F: Fn(&G) -> bool>(&mut self, f: F)
        requires
            old(self).wf(),
            forall|k: Seq<usize>, j: int| old(self).inner()@.dom().contains(k) && 0 <= j < old(self).inner()@[k].len()
                ==> call_requires(f, (&(#[trigger] old(self).inner()@[k][j]).0,)),
        ensures
            final(self).wf(),
            set_retained_by(old(self).inner()@, final(self).inner()@, f),
    {
        let ghost before = self.inner()@;
        let fr = &f;
        let pred = |g: &G, u: &()| -> (b: bool)
            requires
                call_requires(fr, (g,)),
            ensures
                call_ensures(fr, (g,), b),
        {
            fr(g)
        };
        self.0.retain(pred);
        proof {
            let after = self.inner()@;
            assert forall|k: Seq<usize>| #[trigger] set_retained_at(before, after, f, k) by {
                assert(retained_at(before, after, pred, k));
                let keep = choose|keep: Seq<bool>| #![trigger filter_keep(bucket_at(before, k), keep)] {
                    let b = bucket_at(before, k);
                    &&& keep.len() == b.len()
                    &&& forall|j: int| 0 <= j < b.len() ==> call_ensures(pred, (&(#[trigger] b[j]).0, &b[j].1), keep[j])
                    &&& bucket_at(after, k) == filter_keep(b, keep)
                };
                let b = bucket_at(before, k);
                assert forall|j: int| 0 <= j < b.len() implies call_ensures(f, (&(#[trigger] b[j]).0,), keep[j]) by {
                    assert(call_ensures(pred, (&b[j].0, &b[j].1), keep[j]));
                }
                assert(bucket_at(after, k) == filter_keep(bucket_at(before, k), keep));
            }
        }
    }

    /// The items, bucket after bucket, by reference.
    pub fn iter(&self) -> (r: Vec<&G>)
        ensures
            r@.len() == self.inner().entries().len(),
            forall|j: int| 0 <= j < r@.len() ==> *(#[trigger] r@[j]) == self.inner().entries()[j].0,
    {
        self.0.keys()
    }

    /// Consumes the set and returns its items, bucket after bucket.
    pub fn into_vec(self) -> (r: Vec<G>)
        ensures
            r@ == self.inner().entries().map_values(|e: (G, ())| e.0),
    {
        self.0.into_keys()
    }
}

impl<G: CombEq + Sync> CombSet<G> {
    /// Like `insert`, with the bucket searched in parallel: when isomorphic items are present,
    /// one of them, not necessarily the first, is kept.
    pub fn par_insert(&mut self, g: G)
        requires
            old(self).wf(),
        ensures
            final(self).wf(),
            exists|i: int| #[trigger] found_at(old(self).inner()@, g, matches_from(g), i)
                && final(self).inner()@ == model_insert_at(old(self).inner()@, g, (), i),
            crate::obeys_comb_eq::<G>() && model_unique(old(self).inner()@) && crate::lawful_keys(old(self).inner()@) && g.spec_lawful() ==> final(self).inner()@ == model_insert(old(self).inner()@, g, ()),
    {
        self.0.par_insert(g, ());
    }

    /// Like `remove`, with the bucket searched in parallel: one of the items isomorphic to
    /// `g`, not necessarily the first, is removed.
    pub fn par_remove(&mut self, g: &G)
        requires
            old(self).wf(),
        ensures
            final(self).wf(),
            exists|i: int| #[trigger] found_at(old(self).inner()@, *g, matches_to(*g), i)
                && final(self).inner()@ == model_remove_at(old(self).inner()@, *g, i),
            crate::obeys_comb_eq::<G>() && model_unique(old(self).inner()@) && crate::lawful_keys(old(self).inner()@) && g.spec_lawful() ==> final(self).inner()@ == model_remove(old(self).inner()@, *g),
    {
        self.0.par_remove(g);
    }

    /// Like `contains`, with the bucket searched in parallel.
    pub fn par_contains(&self, g: &G) -> (r: bool)
        requires
            self.wf(),
        ensures
            r == (first_where(bucket_at(self.inner()@, g.spec_hash()), matches_to::<G, ()>(*g)) >= 0),
    {
        self.0.par_contains_key(g)
    }

    /// `retain`, for callers of the parallel interface.
    pub fn par_retain<F: Fn(&G) -> bool>(&mut self, f: F)
        requires
            old(self).wf(),
            forall|k: Seq<usize>, j: int| old(self).inner()@.dom().contains(k) && 0 <= j < old(self).inner()@[k].len()
                ==> call_requires(f, (&(#[trigger] old(self).inner()@[k][j]).0,)),
        ensures
            final(self).wf(),
            set_retained_by(old(self).inner()@, final(self).inner()@, f),
    {
        self.retain(f)
    }

    /// Removes isomorphic duplicates bucket by bucket, by union-find over the pairs of items.
    pub fn par_dedup(&mut self)
        requires
            old(self).wf(),
            forall|k: Seq<usize>| #[trigger] old(self).inner()@.dom().contains(k) ==> old(self).inner()@[k].len() <= crate::util::uf_max_size(),
        ensures
            final(self).wf(),
            final(self).inner()@.dom() == old(self).inner()@.dom(),
            forall|k: Seq<usize>| #[trigger] old(self).inner()@.dom().contains(k) ==> deduped_iso(old(self).inner()@[k], final(self).inner()@[k]),
    {
        self.0.par_dedup()
    }
}

impl<G: CombEq> CombSet<G> {
    /// The set of `items` without isomorphic duplicates, as `CombMap::par_from_vec` builds it.
    pub fn par_from_vec(items: Vec<G>) -> (r: Self)
        requires
            items@.len() <= crate::util::uf_max_size(),
        ensures
            r.wf(),
            r.inner()@.dom() == model_insert_all_unchecked(Map::<Seq<usize>, Seq<(G, ())>>::empty(), with_unit(items@)).dom(),
            forall|k: Seq<usize>| #[trigger] r.inner()@.dom().contains(k) ==> deduped_iso(
                model_insert_all_unchecked(Map::<Seq<usize>, Seq<(G, ())>>::empty(), with_unit(items@))[k], r.inner()@[k]),
    {
        let pairs = pair_with_unit(items);
        CombSet(CombMap::par_from_vec(pairs))
    }
}

/// Pairs every item with the unit value.
fn pair_with_unit<G>(items: Vec<G>) -> (r: Vec<(G, ())>)
    ensures
        r@ == with_unit(items@),
{
    let ghost its = items@;
    let mut items = items;
    let mut rev: Vec<(G, ())> = Vec::new();
    while items.len() > 0
        invariant
            its.len() == items@.len() + rev@.len(),
            forall|j: int| 0 <= j < items@.len() ==> items@[j] == its[j],
            forall|j: int| 0 <= j < rev@.len() ==> rev@[j] == (its[its.len() - 1 - j], ()),
        decreases items@.len(),
    {
        let g = items.pop().unwrap();
        rev.push((g, ()));
    }
    let mut out: Vec<(G, ())> = Vec::new();
    while rev.len() > 0
        invariant
            its.len() == out@.len() + rev@.len(),
            forall|j: int| 0 <= j < rev@.len() ==> rev@[j] == (its[its.len() - 1 - j], ()),
            forall|j: int| 0 <= j < out@.len() ==> out@[j] == (its[j], ()),
        decreases rev@.len(),
    {
        let p = rev.pop().unwrap();
        out.push(p);
    }
    assert(out@ =~= with_unit(its));
    out
}

} // verus!
