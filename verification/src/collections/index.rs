use vstd::prelude::*;
use vstd::pervasive::cloned;
use std::collections::HashMap;
use std::marker::PhantomData;
use std::hash::Hash;
use vstd::std_specs::hash::obeys_key_model;
use crate::{CombEq, obeys_comb_eq};
use crate::util::Sealed;
use crate::collections::comb_map::{CombMap, bucket_at, lemma_bucket_lawful, first_where, matches_to, model_get, model_remove, model_unique, lemma_first_where_props};

verus! {

broadcast use vstd::std_specs::hash::group_hash_axioms;

/// What an index does with the index of a removed item.
pub trait IndexStrategy: Sized + Sealed {
    /// Whether the largest index is moved into the gap that a removal leaves.
    spec fn spec_reuses() -> bool;

    fn reuses() -> (r: bool)
        ensures
            r == Self::spec_reuses(),
    ;
}

/// Indices of removed items are never given out again.
#[derive(Clone, Copy, Debug)]
pub struct KeepIndex;

impl Sealed for KeepIndex {}

impl IndexStrategy for KeepIndex {
    open spec fn spec_reuses() -> bool {
        false
    }

    fn reuses() -> (r: bool) {
        false
    }
}

/// When an item is removed, the item with the largest index takes over its index.
#[derive(Clone, Copy, Debug)]
pub struct ReuseIndex;

impl Sealed for ReuseIndex {}

impl IndexStrategy for ReuseIndex {
    open spec fn spec_reuses() -> bool {
        true
    }

    fn reuses() -> (r: bool) {
        true
    }
}

/// The laws that an index asks of its items: `CombEq`'s laws, and clones of the objects that
/// `CombEq` vouches for that are vouched for too, isomorphic to, and hash like, the objects
/// they were made from.
pub open spec fn obeys_index_laws<G: CombEq + Clone>() -> bool {
    &&& obeys_comb_eq::<G>()
    &&& forall|a: G, b: G| #[trigger] cloned(a, b) && a.spec_lawful() ==> b.spec_lawful() && a.spec_iso(&b) && a.spec_hash() == b.spec_hash()
}

/// The keys of `km` (a bucket model with index values) and the index map `vals` describe the
/// same items: each entry's index is in `vals` and maps to a clone of the entry's key, each
/// index of `vals` is held by exactly one entry.
pub open spec fn keys_match_vals<G: Clone>(km: Map<Seq<usize>, Seq<(G, usize)>>, vals: Map<usize, G>) -> bool {
    &&& forall|k: Seq<usize>, j: int| km.dom().contains(k) && 0 <= j < km[k].len() ==>
        vals.dom().contains((#[trigger] km[k][j]).1) && cloned(km[k][j].0, vals[km[k][j].1])
    &&& forall|i: usize| #[trigger] vals.dom().contains(i) ==>
        exists|k: Seq<usize>, j: int| km.dom().contains(k) && 0 <= j < km[k].len() && (#[trigger] km[k][j]).1 == i
    &&& forall|k1: Seq<usize>, j1: int, k2: Seq<usize>, j2: int|
        km.dom().contains(k1) && 0 <= j1 < km[k1].len() && km.dom().contains(k2) && 0 <= j2 < km[k2].len()
        && (#[trigger] km[k1][j1]).1 == (#[trigger] km[k2][j2]).1 ==> k1 == k2 && j1 == j2
}

proof fn lemma_match_insert_new<G: CombEq + Clone>(
    km: Map<Seq<usize>, Seq<(G, usize)>>,
    vals: Map<usize, G>,
    g: G,
    h: G,
    n: usize,
)
    requires
        keys_match_vals(km, vals),
        !vals.dom().contains(n),
        cloned(g, h),
    ensures
        keys_match_vals(
            km.insert(g.spec_hash(), bucket_at(km, g.spec_hash()).push((g, n))),
            vals.insert(n, h),
        ),
{
    let kh = g.spec_hash();
    let b = bucket_at(km, kh);
    let km2 = km.insert(kh, b.push((g, n)));
    let vals2 = vals.insert(n, h);
    assert forall|k: Seq<usize>, j: int| km2.dom().contains(k) && 0 <= j < km2[k].len() implies
        vals2.dom().contains((#[trigger] km2[k][j]).1) && cloned(km2[k][j].0, vals2[km2[k][j].1]) by {
        if k == kh && j == b.len() {
        } else {
            assert(km.dom().contains(k) && km2[k][j] == km[k][j]);
            assert(vals.dom().contains(km[k][j].1));
        }
    }
    assert forall|i: usize| #[trigger] vals2.dom().contains(i) implies
        exists|k: Seq<usize>, j: int| km2.dom().contains(k) && 0 <= j < km2[k].len() && (#[trigger] km2[k][j]).1 == i by {
        if i == n {
            assert(km2[kh][b.len() as int].1 == i);
        } else {
            let (k, j) = choose|k: Seq<usize>, j: int| km.dom().contains(k) && 0 <= j < km[k].len() && (#[trigger] km[k][j]).1 == i;
            assert(km2[k][j] == km[k][j]);
        }
    }
    assert forall|k1: Seq<usize>, j1: int, k2: Seq<usize>, j2: int|
        km2.dom().contains(k1) && 0 <= j1 < km2[k1].len() && km2.dom().contains(k2) && 0 <= j2 < km2[k2].len()
        && (#[trigger] km2[k1][j1]).1 == (#[trigger] km2[k2][j2]).1 implies k1 == k2 && j1 == j2 by {
        let new1 = k1 == kh && j1 == b.len();
        let new2 = k2 == kh && j2 == b.len();
        if !new1 {
            assert(km2[k1][j1] == km[k1][j1]);
            assert(vals.dom().contains(km[k1][j1].1));
        }
        if !new2 {
            assert(km2[k2][j2] == km[k2][j2]);
            assert(vals.dom().contains(km[k2][j2].1));
        }
    }
}

proof fn lemma_match_remove<G: CombEq + Clone>(
    km: Map<Seq<usize>, Seq<(G, usize)>>,
    vals: Map<usize, G>,
    g: G,
)
    requires
        keys_match_vals(km, vals),
        model_get(km, g) is Some,
    ensures
        vals.dom().contains(model_get(km, g).unwrap()),
        keys_match_vals(model_remove(km, g), vals.remove(model_get(km, g).unwrap())),
{
    let kh = g.spec_hash();
    let b = bucket_at(km, kh);
    let p = first_where(b, matches_to(g));
    lemma_first_where_props(b, matches_to(g));
    assert(km.dom().contains(kh));
    assert(b == km[kh]);
    let i = b[p].1;
    assert(km[kh][p] == b[p]);
    let nb = b.update(p, b.last()).drop_last();
    let km2 = model_remove(km, g);
    let vals2 = vals.remove(i);
    let last = b.len() - 1;
    // where an entry of km2 came from
    assert forall|k: Seq<usize>, j: int| km2.dom().contains(k) && 0 <= j < km2[k].len() implies
        km.dom().contains(k) && 0 <= (if k == kh && j == p { last } else { j }) < km[k].len()
        && km2[k][j] == km[k][if k == kh && j == p { last } else { j }]
        && !(k == kh && (if k == kh && j == p { last } else { j }) == p) by {
        if k == kh {
            assert(nb.len() > 0);
            assert(km2[k] == nb);
        } else {
            assert(km2[k] == km[k]);
        }
    }
    assert forall|k: Seq<usize>, j: int| km2.dom().contains(k) && 0 <= j < km2[k].len() implies
        vals2.dom().contains((#[trigger] km2[k][j]).1) && cloned(km2[k][j].0, vals2[km2[k][j].1]) by {
        let j0 = if k == kh && j == p { last } else { j };
        assert(km2[k][j] == km[k][j0]);
        assert(vals.dom().contains(km[k][j0].1));
        assert(km[k][j0].1 != i);
    }
    assert forall|x: usize| #[trigger] vals2.dom().contains(x) implies
        exists|k: Seq<usize>, j: int| km2.dom().contains(k) && 0 <= j < km2[k].len() && (#[trigger] km2[k][j]).1 == x by {
        let (k, j) = choose|k: Seq<usize>, j: int| km.dom().contains(k) && 0 <= j < km[k].len() && (#[trigger] km[k][j]).1 == x;
        assert(!(k == kh && j == p));
        if k == kh {
            assert(nb.len() > 0);
            assert(km2.dom().contains(kh) && km2[kh] == nb);
            if j == last {
                assert(km2[k][p] == km[k][j]);
            } else {
                assert(km2[k][j] == km[k][j]);
            }
        } else {
            assert(km2[k] == km[k]);
        }
    }
    assert forall|k1: Seq<usize>, j1: int, k2: Seq<usize>, j2: int|
        km2.dom().contains(k1) && 0 <= j1 < km2[k1].len() && km2.dom().contains(k2) && 0 <= j2 < km2[k2].len()
        && (#[trigger] km2[k1][j1]).1 == (#[trigger] km2[k2][j2]).1 implies k1 == k2 && j1 == j2 by {
        let a1 = if k1 == kh && j1 == p { last } else { j1 };
        let a2 = if k2 == kh && j2 == p { last } else { j2 };
        assert(km2[k1][j1] == km[k1][a1]);
        assert(km2[k2][j2] == km[k2][a2]);
    }
}

proof fn lemma_match_reassign<G: CombEq + Clone>(
    km: Map<Seq<usize>, Seq<(G, usize)>>,
    vals: Map<usize, G>,
    kh: Seq<usize>,
    p: int,
    dst: usize,
)
    requires
        keys_match_vals(km, vals),
        km.dom().contains(kh),
        0 <= p < km[kh].len(),
        !vals.dom().contains(dst),
    ensures
        keys_match_vals(
            km.insert(kh, km[kh].update(p, (km[kh][p].0, dst))),
            vals.remove(km[kh][p].1).insert(dst, vals[km[kh][p].1]),
        ),
{
    let b = km[kh];
    let src = b[p].1;
    let km2 = km.insert(kh, b.update(p, (b[p].0, dst)));
    let vals2 = vals.remove(src).insert(dst, vals[src]);
    assert(vals.dom().contains(src));
    assert forall|k: Seq<usize>, j: int| km2.dom().contains(k) && 0 <= j < km2[k].len() implies
        vals2.dom().contains((#[trigger] km2[k][j]).1) && cloned(km2[k][j].0, vals2[km2[k][j].1]) by {
        if k == kh && j == p {
        } else {
            assert(km2[k][j] == km[k][j]);
            assert(vals.dom().contains(km[k][j].1));
            assert(km[k][j].1 != src);
        }
    }
    assert forall|x: usize| #[trigger] vals2.dom().contains(x) implies
        exists|k: Seq<usize>, j: int| km2.dom().contains(k) && 0 <= j < km2[k].len() && (#[trigger] km2[k][j]).1 == x by {
        if x == dst {
            assert(km2[kh][p].1 == x);
        } else {
            let (k, j) = choose|k: Seq<usize>, j: int| km.dom().contains(k) && 0 <= j < km[k].len() && (#[trigger] km[k][j]).1 == x;
            assert(!(k == kh && j == p));
            assert(km2[k][j] == km[k][j]);
        }
    }
    assert forall|k1: Seq<usize>, j1: int, k2: Seq<usize>, j2: int|
        km2.dom().contains(k1) && 0 <= j1 < km2[k1].len() && km2.dom().contains(k2) && 0 <= j2 < km2[k2].len()
        && (#[trigger] km2[k1][j1]).1 == (#[trigger] km2[k2][j2]).1 implies k1 == k2 && j1 == j2 by {
        let n1 = k1 == kh && j1 == p;
        let n2 = k2 == kh && j2 == p;
        if !n1 {
            assert(km2[k1][j1] == km[k1][j1]);
            assert(vals.dom().contains(km[k1][j1].1));
        }
        if !n2 {
            assert(km2[k2][j2] == km[k2][j2]);
            assert(vals.dom().contains(km[k2][j2].1));
        }
    }
}

proof fn lemma_unique_push<G: CombEq, T>(m: Map<Seq<usize>, Seq<(G, T)>>, g: G, val: T)
    requires
        obeys_comb_eq::<G>(),
        model_unique(m),
        crate::lawful_keys(m),
        g.spec_lawful(),
        model_get(m, g) is None,
    ensures
        model_unique(m.insert(g.spec_hash(), bucket_at(m, g.spec_hash()).push((g, val)))),
        crate::lawful_keys(m.insert(g.spec_hash(), bucket_at(m, g.spec_hash()).push((g, val)))),
{
    let kh = g.spec_hash();
    let b = bucket_at(m, kh);
    lemma_bucket_lawful(m, kh);
    lemma_first_where_props(b, matches_to(g));
    let m2 = m.insert(kh, b.push((g, val)));
    assert forall|k: Seq<usize>, x: int, y: int|
        m2.dom().contains(k) && 0 <= x < m2[k].len() && 0 <= y < m2[k].len() && x != y
        implies !(#[trigger] m2[k][x]).0.spec_iso(&(#[trigger] m2[k][y]).0) by {
        if k == kh {
            if x == b.len() {
                assert(!matches_to(g)(b[y]));
                if g.spec_iso(&b[y].0) {
                    assert(b[y].0.spec_iso(&g));
                }
            } else if y == b.len() {
                assert(!matches_to(g)(b[x]));
            } else {
                assert(m.dom().contains(k));
                assert(m2[k][x] == m[k][x] && m2[k][y] == m[k][y]);
            }
        } else {
            assert(m2[k] == m[k]);
        }
    }
    assert forall|k: Seq<usize>, j: int| m2.dom().contains(k) && 0 <= j < m2[k].len() implies (#[trigger] m2[k][j]).0.spec_lawful() by {
        if k == kh {
            if j < b.len() {
                assert(m2[k][j] == b[j]);
            }
        } else {
            assert(m2[k] == m[k]);
        }
    }
}
proof fn lemma_lawful_remove<G: CombEq, T>(m: Map<Seq<usize>, Seq<(G, T)>>, g: G)
    requires
        crate::lawful_keys(m),
    ensures
        crate::lawful_keys(model_remove(m, g)),
{
    let kh = g.spec_hash();
    let b = bucket_at(m, kh);
    let p = first_where(b, matches_to(g));
    let m2 = model_remove(m, g);
    lemma_bucket_lawful(m, kh);
    lemma_first_where_props(b, matches_to(g));
    assert forall|k: Seq<usize>, j: int| m2.dom().contains(k) && 0 <= j < m2[k].len() implies (#[trigger] m2[k][j]).0.spec_lawful() by {
        if k == kh && p >= 0 {
            let nb = b.update(p, b.last()).drop_last();
            assert(m2[k] == nb);
            if j == p {
                assert(nb[j] == b[b.len() - 1]);
            } else {
                assert(nb[j] == b[j]);
            }
        } else {
            assert(m2[k] == m[k]);
        }
    }
}

proof fn lemma_unique_remove<G: CombEq, T>(m: Map<Seq<usize>, Seq<(G, T)>>, g: G)
    requires
        model_unique(m),
        crate::lawful_keys(m),
    ensures
        model_unique(model_remove(m, g)),
        crate::lawful_keys(model_remove(m, g)),
{
    lemma_lawful_remove(m, g);
    let kh = g.spec_hash();
    let b = bucket_at(m, kh);
    let p = first_where(b, matches_to(g));
    lemma_first_where_props(b, matches_to(g));
    let m2 = model_remove(m, g);
    if p >= 0 {
        let last = b.len() - 1;
        assert forall|k: Seq<usize>, x: int, y: int|
            m2.dom().contains(k) && 0 <= x < m2[k].len() && 0 <= y < m2[k].len() && x != y
            implies !(#[trigger] m2[k][x]).0.spec_iso(&(#[trigger] m2[k][y]).0) by {
            if k == kh {
                let x0 = if x == p { last } else { x };
                let y0 = if y == p { last } else { y };
                assert(m2[k][x] == m[k][x0] && m2[k][y] == m[k][y0]);
            } else {
                assert(m2[k] == m[k]);
            }
        }
    }
}

proof fn lemma_unique_update_value<G: CombEq, T>(m: Map<Seq<usize>, Seq<(G, T)>>, kh: Seq<usize>, p: int, v: T)
    requires
        model_unique(m),
        m.dom().contains(kh),
        0 <= p < m[kh].len(),
    ensures
        model_unique(m.insert(kh, m[kh].update(p, (m[kh][p].0, v)))),
{
    let m2 = m.insert(kh, m[kh].update(p, (m[kh][p].0, v)));
    assert forall|k: Seq<usize>, x: int, y: int|
        m2.dom().contains(k) && 0 <= x < m2[k].len() && 0 <= y < m2[k].len() && x != y
        implies !(#[trigger] m2[k][x]).0.spec_iso(&(#[trigger] m2[k][y]).0) by {
        assert(m2[k][x].0 == m[k][x].0 && m2[k][y].0 == m[k][y].0);
    }
}

/// Some entry of `r` carries the index `x`.
pub open spec fn listed_at<'a, G>(r: Seq<(usize, &'a G)>, x: usize) -> bool {
    exists|k: int| 0 <= k < r.len() && (#[trigger] r[k]).0 == x
}

/// `r` lists each index of `m` once, with its object, by increasing index.
pub open spec fn index_listing<'a, G>(m: Map<usize, G>, r: Seq<(usize, &'a G)>) -> bool {
    &&& forall|k: int| 0 <= k < r.len() ==> m.dom().contains((#[trigger] r[k]).0) && *r[k].1 == m[r[k].0]
    &&& forall|x: usize| #[trigger] m.dom().contains(x) ==> listed_at(r, x)
    &&& forall|a: int, b: int| 0 <= a < b < r.len() ==> (#[trigger] r[a]).0 < (#[trigger] r[b]).0
}

/// `r` lists, by increasing index, exactly the indices of `m` whose objects `f` marks: each
/// listed object can give `true`, each other object can give `false`.
pub open spec fn marked_by<G, F: Fn(&G) -> bool>(m: Map<usize, G>, r: Seq<usize>, f: F) -> bool {
    &&& forall|k: int| 0 <= k < r.len() ==> m.dom().contains(#[trigger] r[k]) && call_ensures(f, (&m[r[k]],), true)
    &&& forall|x: usize| #[trigger] m.dom().contains(x) ==> r.contains(x) || call_ensures(f, (&m[x],), false)
    &&& forall|a: int, b: int| 0 <= a < b < r.len() ==> (#[trigger] r[a]) < (#[trigger] r[b])
}

/// `after` is `before` without the objects that `f` marks.
pub open spec fn index_retained<G, F: Fn(&G) -> bool>(before: Map<usize, G>, after: Map<usize, G>, f: F) -> bool {
    exists|r: Seq<usize>| #[trigger] marked_by(before, r, f) && after == before.remove_keys(r.to_set())
}

/// A bijection between the isomorphism classes of the inserted objects and indices.
pub struct CombIndex<G, Strategy = KeepIndex> {
    keys: CombMap<G, usize>,
    vals: HashMap<usize, G>,
    next: usize,
    strategy: PhantomData<Strategy>,
}

impl<G: CombEq + Clone, Strategy: IndexStrategy> View for CombIndex<G, Strategy> {
    type V = Map<usize, G>;

    /// The map from each index to its object.
    open spec fn view(&self) -> Map<usize, G> {
        self.spec_vals()
    }
}

impl<G: CombEq + Clone, Strategy: IndexStrategy> CombIndex<G, Strategy> {
    /// The map from each index to its object.
    pub closed spec fn spec_vals(self) -> Map<usize, G> {
        self.vals@
    }

    /// The bucket model of the key map, from objects to indices.
    pub closed spec fn spec_keys(self) -> Map<Seq<usize>, Seq<(G, usize)>> {
        self.keys@
    }

    /// The index that the next new object receives.
    pub closed spec fn next_index(self) -> nat {
        self.next as nat
    }

    /// The index that `idx` finds for `g`.
    pub open spec fn spec_idx(self, g: G) -> Option<usize> {
        model_get(self.spec_keys(), g)
    }

    /// Well-formedness: the key map and the index map describe the same objects, the key map
    /// holds no isomorphic duplicates, and every index is below `next_index`.
    pub closed spec fn wf(self) -> bool {
        &&& self.keys.wf()
        &&& model_unique(self.keys@)
        &&& crate::lawful_keys(self.keys@)
        &&& keys_match_vals(self.keys@, self.vals@)
        &&& forall|i: usize| #[trigger] self.vals@.dom().contains(i) ==> i < self.next
    }

    /// Creates an empty index.
    pub fn new() -> (r: Self)
        ensures
            r.wf(),
            r@ == Map::<usize, G>::empty(),
            r.next_index() == 0,
    {
        let r = CombIndex { keys: CombMap::new(), vals: HashMap::new(), next: 0, strategy: PhantomData };
        assert(keys_match_vals(r.keys@, r.vals@));
        r
    }

    /// The number of objects.
    pub fn len(&self) -> (r: usize)
        ensures
            r == self@.len(),
    {
        self.vals.len()
    }

    /// Returns `true` if the index holds no object.
    pub fn is_empty(&self) -> (r: bool)
        ensures
            r == (self@.len() == 0),
    {
        proof {
            if self.vals@.len() == 0 {
                assert(self.vals@.dom() =~= Set::empty()) by {
                    if exists|i: usize| self.vals@.dom().contains(i) {
                        let i = choose|i: usize| self.vals@.dom().contains(i);
                        vstd::set_lib::lemma_set_empty_equivalency_len(self.vals@.dom());
                    }
                }
            }
        }
        self.vals.len() == 0
    }

    /// Returns `true` if an object isomorphic to `g` has an index.
    pub fn contains_val(&self, g: &G) -> (r: bool)
        requires
            self.wf(),
        ensures
            r == self.spec_idx(*g) is Some,
    {
        self.keys.contains_key(g)
    }

    /// Returns `true` if `i` is the index of an object.
    pub fn contains_idx(&self, i: usize) -> (r: bool)
        ensures
            r == self@.dom().contains(i),
    {
        self.vals.contains_key(&i)
    }

    /// The index of the object isomorphic to `g`.
    pub fn idx(&self, g: &G) -> (r: Option<usize>)
        requires
            self.wf(),
        ensures
            r == self.spec_idx(*g),
    {
        match self.keys.get(g) {
            Some(i) => Some(*i),
            None => None,
        }
    }

    /// The object with index `i`.
    pub fn val(&self, i: usize) -> (r: Option<&G>)
        ensures
            r is Some <==> self@.dom().contains(i),
            r matches Some(g) ==> *g == self@[i],
    {
        self.vals.get(&i)
    }
}

/// The index map after removing index `i` from `vals`: with index reuse, the largest index
/// `next - 1` then moves into the gap.
pub open spec fn vals_after_removal<G>(vals: Map<usize, G>, i: usize, next: nat, reuse: bool) -> Map<usize, G> {
    if reuse && i + 1 < next {
        vals.remove(i).remove((next - 1) as usize).insert(i, vals[(next - 1) as usize])
    } else {
        vals.remove(i)
    }
}

/// The next index after removing index `i`.
pub open spec fn next_after_removal(i: usize, next: nat, reuse: bool) -> nat {
    if reuse && i + 1 < next {
        (next - 1) as nat
    } else {
        next
    }
}

/// The objects and the next index after removing the indices of `r` one after the other,
/// with index reuse: each removal of an index that is still in use moves the largest index
/// into the gap, and one that is no longer in use does nothing.
pub open spec fn reuse_removals<G>(vals: Map<usize, G>, next: nat, r: Seq<usize>) -> (Map<usize, G>, nat)
    decreases r.len(),
{
    if r.len() == 0 {
        (vals, next)
    } else {
        let (v1, n1) = reuse_removals(vals, next, r.drop_last());
        let i = r.last();
        if v1.dom().contains(i) {
            (vals_after_removal(v1, i, n1, true), next_after_removal(i, n1, true))
        } else {
            (v1, n1)
        }
    }
}

/// With index reuse, `after` and `next` are what removing the objects that `f` marks, in
/// increasing order of index, leaves.
pub open spec fn index_retained_reusing<G, F: Fn(&G) -> bool>(before: Map<usize, G>, next: nat, after: Map<usize, G>, after_next: nat, f: F) -> bool {
    exists|r: Seq<usize>| #[trigger] marked_by(before, r, f) && reuse_removals(before, next, r) == (after, after_next)
}

impl<G: CombEq + Clone, Strategy: IndexStrategy> CombIndex<G, Strategy> {
    /// Removing index `i` does not panic: with index reuse, the index that moves into the gap
    /// must be in use.
    pub open spec fn removal_ok(self, i: usize) -> bool {
        Strategy::spec_reuses() && i + 1 < self.next_index() ==> self@.dom().contains((self.next_index() - 1) as usize)
    }

    /// Moves the object with index `src` to index `dst`.
    fn reassign(&mut self, src: usize, dst: usize)
        requires
            old(self).keys.wf(),
            model_unique(old(self).keys@),
            keys_match_vals(old(self).keys@, old(self).vals@),
            obeys_index_laws::<G>(),
            crate::lawful_keys(old(self).keys@),
            old(self).vals@.dom().contains(src),
            !old(self).vals@.dom().contains(dst),
        ensures
            final(self).keys.wf(),
            model_unique(final(self).keys@),
            crate::lawful_keys(final(self).keys@),
            keys_match_vals(final(self).keys@, final(self).vals@),
            final(self).vals@ == old(self).vals@.remove(src).insert(dst, old(self).vals@[src]),
            final(self).next == old(self).next,
    {
        proof {
            self.lemma_idx_of_val_parts(src);
        }
        let h = self.vals.remove(&src).unwrap();
        let ghost km = self.keys@;
        let ghost k = h.spec_hash();
        let ghost p = first_where(bucket_at(km, k), matches_to(h));
        let old_v = self.keys.replace_value(&h, dst);
        proof {
            assert(old_v == Some(src));
            lemma_match_reassign(km, old(self).vals@, k, p, dst);
            lemma_unique_update_value(km, k, p, dst);
            assert(bucket_at(km, k) == km[k]);
        }
        self.vals.insert(dst, h);
    }

    /// With index reuse, `retain` does not panic: the indices in use are those below
    /// `next_index`, but perhaps the last, and when the last is free, `f` removes nothing.
    pub open spec fn retain_ok<F: Fn(&G) -> bool>(self, f: F) -> bool {
        &&& forall|x: usize| x + 1 < self.next_index() ==> #[trigger] self@.dom().contains(x)
        &&& self.next_index() > 0 && !self@.dom().contains((self.next_index() - 1) as usize) ==>
            forall|x: usize| #[trigger] self@.dom().contains(x) ==> !call_ensures(f, (&self@[x],), true)
    }

    /// `idx` finds the index of each object of the index, at the entry that holds it.
    proof fn lemma_idx_of_val_parts(self, v: usize)
        requires
            self.keys.wf(),
            model_unique(self.keys@),
            keys_match_vals(self.keys@, self.vals@),
            obeys_index_laws::<G>(),
            crate::lawful_keys(self.keys@),
            self.vals@.dom().contains(v),
        ensures
            ({
                let g = self.vals@[v];
                let k = g.spec_hash();
                let b = bucket_at(self.keys@, k);
                let p = first_where(b, matches_to(g));
                &&& self.keys@.dom().contains(k)
                &&& 0 <= p < b.len()
                &&& b == self.keys@[k]
                &&& b[p].1 == v
                &&& model_get(self.keys@, g) == Some(v)
            }),
    {
        let km = self.keys@;
        let g = self.vals@[v];
        let (k0, j0) = choose|k: Seq<usize>, j: int| km.dom().contains(k) && 0 <= j < km[k].len() && (#[trigger] km[k][j]).1 == v;
        assert(cloned(km[k0][j0].0, g));
        self.keys.lemma_wf_model();
        assert(km[k0][j0].0.spec_hash() == k0);
        let k = g.spec_hash();
        assert(k == k0);
        let b = bucket_at(km, k);
        assert(b == km[k0]);
        assert(matches_to(g)(b[j0]));
        lemma_first_where_props(b, matches_to(g));
        let p = first_where(b, matches_to(g));
        if p != j0 {
            assert(b[p].0.spec_iso(&g));
            assert(km[k0][j0].0.spec_iso(&g));
            assert(g.spec_iso(&km[k0][j0].0));
            assert(b[p].0.spec_iso(&b[j0].0));
            assert(km[k0][p] == b[p]);
        }
    }

    /// Applies the index strategy after index `i` was freed.
    fn on_remove(&mut self, i: usize)
        requires
            old(self).keys.wf(),
            model_unique(old(self).keys@),
            keys_match_vals(old(self).keys@, old(self).vals@),
            obeys_index_laws::<G>(),
            crate::lawful_keys(old(self).keys@),
            forall|x: usize| #[trigger] old(self).vals@.dom().contains(x) ==> x < old(self).next,
            !old(self).vals@.dom().contains(i),
            i < old(self).next,
            Strategy::spec_reuses() && i + 1 < old(self).next ==> old(self).vals@.dom().contains((old(self).next - 1) as usize),
        ensures
            final(self).wf(),
            final(self).vals@ == if Strategy::spec_reuses() && i + 1 < old(self).next {
                old(self).vals@.remove((old(self).next - 1) as usize).insert(i, old(self).vals@[(old(self).next - 1) as usize])
            } else {
                old(self).vals@
            },
            final(self).next == next_after_removal(i, old(self).next as nat, Strategy::spec_reuses()),
    {
        if Strategy::reuses() {
            let j = self.next - 1;
            if i < j {
                self.reassign(j, i);
                self.next = j;
                proof {
                    assert forall|x: usize| #[trigger] self.vals@.dom().contains(x) implies x < self.next by {
                        if x != i {
                            assert(old(self).vals@.dom().contains(x));
                        }
                    }
                }
            }
        }
    }

    /// Gives `g` an index: the index of an isomorphic object if there is one, else the next
    /// index, under which a clone of `g` is stored.
    pub fn insert(&mut self, g: G) -> (r: usize)
        requires
            old(self).wf(),
            obeys_index_laws::<G>(),
            g.spec_lawful(),
            old(self).spec_idx(g) is None ==> old(self).next_index() < usize::MAX,
        ensures
            final(self).wf(),
            match old(self).spec_idx(g) {
                Some(i) => {
                    &&& r == i
                    &&& final(self)@ == old(self)@
                    &&& final(self).spec_keys() == old(self).spec_keys()
                    &&& final(self).next_index() == old(self).next_index()
                },
                None => {
                    &&& r == old(self).next_index()
                    &&& !old(self)@.dom().contains(r)
                    &&& final(self)@ == old(self)@.insert(r, final(self)@[r])
                    &&& cloned(g, final(self)@[r])
                    &&& final(self).next_index() == old(self).next_index() + 1
                },
            },
    {
        match self.idx(&g) {
            Some(i) => i,
            None => {
                let i = self.next;
                self.next = self.next + 1;
                let h = g.clone();
                let ghost km = self.keys@;
                let ghost vm = self.vals@;
                proof {
                    assert(!vm.dom().contains(i));
                    lemma_match_insert_new(km, vm, g, h, i);
                    lemma_unique_push(km, g, i);
                }
                self.vals.insert(i, h);
                self.keys.insert_unchecked(g, i);
                proof {
                    assert forall|x: usize| #[trigger] self.vals@.dom().contains(x) implies x < self.next by {
                        if x != i {
                            assert(vm.dom().contains(x));
                        }
                    }
                }
                i
            },
        }
    }

    /// Removes the object isomorphic to `g` and returns it with its index.
    pub fn remove_val(&mut self, g: &G) -> (r: Option<(usize, G)>)
        requires
            old(self).wf(),
            obeys_index_laws::<G>(),
            old(self).spec_idx(*g) matches Some(i) ==> old(self).removal_ok(i),
        ensures
            final(self).wf(),
            match old(self).spec_idx(*g) {
                Some(i) => {
                    &&& r == Some((i, old(self)@[i]))
                    &&& final(self)@ == vals_after_removal(old(self)@, i, old(self).next_index(), Strategy::spec_reuses())
                    &&& final(self).next_index() == next_after_removal(i, old(self).next_index(), Strategy::spec_reuses())
                },
                None => {
                    &&& r is None
                    &&& final(self)@ == old(self)@
                    &&& final(self).next_index() == old(self).next_index()
                },
            },
    {
        let ghost km = self.keys@;
        let ghost vm = self.vals@;
        if let Some(i) = self.keys.remove(g) {
            proof {
                lemma_match_remove(km, vm, *g);
                lemma_unique_remove(km, *g);
            }
            let v = self.vals.remove(&i).unwrap();
            proof {
                assert forall|x: usize| #[trigger] self.vals@.dom().contains(x) implies x < self.next by {
                    assert(vm.dom().contains(x));
                }
            }
            self.on_remove(i);
            Some((i, v))
        } else {
            None
        }
    }

    /// Removes the object with index `i` and returns it with its index.
    pub fn remove_idx(&mut self, i: usize) -> (r: Option<(usize, G)>)
        requires
            old(self).wf(),
            obeys_index_laws::<G>(),
            old(self)@.dom().contains(i) ==> old(self).removal_ok(i),
        ensures
            final(self).wf(),
            if old(self)@.dom().contains(i) {
                &&& r == Some((i, old(self)@[i]))
                &&& final(self)@ == vals_after_removal(old(self)@, i, old(self).next_index(), Strategy::spec_reuses())
                &&& final(self).next_index() == next_after_removal(i, old(self).next_index(), Strategy::spec_reuses())
            } else {
                &&& r is None
                &&& final(self)@ == old(self)@
                &&& final(self).next_index() == old(self).next_index()
            },
    {
        let ghost km = self.keys@;
        let ghost vm = self.vals@;
        proof {
            if vm.dom().contains(i) {
                self.lemma_idx_of_val_parts(i);
            }
        }
        if let Some(g) = self.vals.remove(&i) {
            proof {
                lemma_match_remove(km, vm, g);
                lemma_unique_remove(km, g);
            }
            let i2 = self.keys.remove(&g).unwrap();
            proof {
                assert(i2 == i);
                assert forall|x: usize| #[trigger] self.vals@.dom().contains(x) implies x < self.next by {
                    assert(vm.dom().contains(x));
                }
            }
            self.on_remove(i2);
            Some((i2, g))
        } else {
            None
        }
    }

    /// The indices in use and their objects, by increasing index.
    pub fn iter(&self) -> (r: Vec<(usize, &G)>)
        requires
            self.wf(),
        ensures
            index_listing(self@, r@),
    {
        let mut r: Vec<(usize, &G)> = Vec::new();
        let mut i: usize = 0;
        while i < self.next
            invariant
                self.wf(),
                i <= self.next,
                forall|k: int| 0 <= k < r.len() ==> (#[trigger] r@[k]).0 < i,
                forall|k: int| 0 <= k < r.len() ==> self@.dom().contains((#[trigger] r@[k]).0) && *r@[k].1 == self@[r@[k].0],
                forall|x: usize| #[trigger] self@.dom().contains(x) && x < i ==> listed_at(r@, x),
                forall|a: int, b: int| 0 <= a < b < r.len() ==> (#[trigger] r@[a]).0 < (#[trigger] r@[b]).0,
            decreases self.next - i,
        {
            match self.vals.get(&i) {
                Some(g) => {
                    let ghost before = r@;
                    r.push((i, g));
                    proof {
                        assert(r@[before.len() as int].0 == i);
                        assert forall|x: usize| #[trigger] self@.dom().contains(x) && x < i + 1 implies listed_at(r@, x) by {
                            if x < i {
                                let k = choose|k: int| 0 <= k < before.len() && (#[trigger] before[k]).0 == x;
                                assert(r@[k] == before[k]);
                            } else {
                                assert(r@[before.len() as int].0 == x);
                            }
                        }
                    }
                },
                None => {},
            }
            i = i + 1;
        }
        proof {
            assert forall|x: usize| #[trigger] self@.dom().contains(x) implies listed_at(r@, x) by {
                assert(x < self.next);
            }
        }
        r
    }

    /// The indices of the objects on which `f` returns `true`, by increasing index.
    fn marked<F: Fn(&G) -> bool>(&self, f: F) -> (r: Vec<usize>)
        requires
            self.wf(),
            forall|x: usize| #[trigger] self@.dom().contains(x) ==> call_requires(f, (&self@[x],)),
        ensures
            marked_by(self@, r@, f),
            forall|k: int| 0 <= k < r.len() ==> (#[trigger] r@[k]) < self.next_index(),
    {
        let mut r: Vec<usize> = Vec::new();
        let mut i: usize = 0;
        while i < self.next
            invariant
                self.wf(),
                i <= self.next,
                forall|x: usize| #[trigger] self@.dom().contains(x) ==> call_requires(f, (&self@[x],)),
                forall|k: int| 0 <= k < r.len() ==> (#[trigger] r@[k]) < i,
                forall|k: int| 0 <= k < r.len() ==> self@.dom().contains(#[trigger] r@[k]) && call_ensures(f, (&self@[r@[k]],), true),
                forall|x: usize| #[trigger] self@.dom().contains(x) && x < i ==> r@.contains(x) || call_ensures(f, (&self@[x],), false),
                forall|a: int, b: int| 0 <= a < b < r.len() ==> (#[trigger] r@[a]) < (#[trigger] r@[b]),
            decreases self.next - i,
        {
            match self.vals.get(&i) {
                Some(g) => {
                    let ghost before = r@;
                    assert(self@.dom().contains(i));
                    if f(g) {
                        r.push(i);
                        proof {
                            assert forall|x: usize| #[trigger] self@.dom().contains(x) && x < i + 1 implies
                                r@.contains(x) || call_ensures(f, (&self@[x],), false) by {
                                if x < i {
                                    if before.contains(x) {
                                        let k = choose|k: int| 0 <= k < before.len() && before[k] == x;
                                        assert(r@[k] == x);
                                    }
                                } else {
                                    assert(r@[before.len() as int] == x);
                                }
                            }
                        }
                    }
                },
                None => {},
            }
            i = i + 1;
        }
        proof {
            assert forall|x: usize| #[trigger] self@.dom().contains(x) implies r@.contains(x) || call_ensures(f, (&self@[x],), false) by {
                assert(x < self.next);
            }
        }
        r
    }

    /// Removes the objects on which `f` returns `true`, one after the other by increasing index.
    pub fn retain<F: Fn(&G) -> bool>(&mut self, f: F)
        requires
            old(self).wf(),
            obeys_index_laws::<G>(),
            forall|x: usize| #[trigger] old(self)@.dom().contains(x) ==> call_requires(f, (&old(self)@[x],)),
            Strategy::spec_reuses() ==> old(self).retain_ok(f),
        ensures
            final(self).wf(),
            !Strategy::spec_reuses() ==> index_retained(old(self)@, final(self)@, f),
            !Strategy::spec_reuses() ==> final(self).next_index() == old(self).next_index(),
            Strategy::spec_reuses() ==> index_retained_reusing(old(self)@, old(self).next_index() as nat, final(self)@,
                final(self).next_index() as nat, f),
    {
        let r = self.marked(f);
        let ghost m0 = self@;
        let ghost reuse = Strategy::spec_reuses();
        let mut k: usize = 0;
        while k < r.len()
            invariant
                self.wf(),
                obeys_index_laws::<G>(),
                reuse == Strategy::spec_reuses(),
                k <= r.len(),
                marked_by(m0, r@, f),
                !reuse ==> self@ == m0.remove_keys(r@.subrange(0, k as int).to_set()),
                !reuse ==> self.next_index() == old(self).next_index(),
                reuse ==> forall|x: usize| x + 1 < self.next_index() ==> #[trigger] self@.dom().contains(x),
                reuse && self.next_index() > 0 && !self@.dom().contains((self.next_index() - 1) as usize) ==>
                    forall|m: int| k <= m < r.len() ==> (#[trigger] r@[m]) >= self.next_index(),
                reuse && k == 0 ==> forall|m: int| 0 <= m < r.len() ==> (#[trigger] r@[m]) < self.next_index(),
                reuse ==> reuse_removals(m0, old(self).next_index() as nat, r@.subrange(0, k as int)) == (self@, self.next_index() as nat),
            decreases r.len() - k,
        {
            let i = r[k];
            let ghost before = self@;
            let ghost nb = self.next_index();
            proof {
                if reuse && before.dom().contains(i) && i + 1 < nb {
                    if !before.dom().contains((nb - 1) as usize) {
                        assert(i >= nb);
                        assert(i < self.next);
                    }
                }
            }
            self.remove_idx(i);
            proof {
                if reuse {
                    assert(r@.subrange(0, k + 1).drop_last() == r@.subrange(0, k as int));
                }
                if !reuse {
                    assert(r@.subrange(0, k + 1).to_set() =~= r@.subrange(0, k as int).to_set().insert(i)) by {
                        assert(r@.subrange(0, k + 1) =~= r@.subrange(0, k as int).push(i));
                        r@.subrange(0, k as int).lemma_push_to_set_commute(i);
                    }
                    assert(self@ =~= m0.remove_keys(r@.subrange(0, k + 1).to_set()));
                }
                if reuse && before.dom().contains(i) {
                    if i + 1 < nb {
                        assert forall|x: usize| x + 1 < self.next_index() implies #[trigger] self@.dom().contains(x) by {
                            assert(before.dom().contains(x));
                        }
                        if self.next_index() > 0 {
                            let y = (self.next_index() - 1) as usize;
                            if y != i {
                                assert(before.dom().contains(y));
                            }
                        }
                    } else {
                        assert forall|m: int| k + 1 <= m < r.len() implies (#[trigger] r@[m]) >= self.next_index() by {
                            assert(r@[k as int] < r@[m]);
                        }
                    }
                }
            }
            k = k + 1;
        }
        proof {
            assert(r@.subrange(0, r.len() as int) == r@);
            if reuse {
                assert(marked_by(old(self)@, r@, f));
            }
        }
    }

    /// Round trip from an index to its object and back: looking up the object of an index
    /// gives back that index.
    pub proof fn law_idx_of_val(self, i: usize)
        requires
            self.wf(),
            obeys_index_laws::<G>(),
            self@.dom().contains(i),
        ensures
            self.spec_idx(self@[i]) == Some(i),
    {
        self.lemma_idx_of_val_parts(i);
    }

    /// Round trip from an object to its index and back: the object under the index found for
    /// `g` is isomorphic to `g`.
    pub proof fn law_val_of_idx(self, g: G)
        requires
            self.wf(),
            obeys_index_laws::<G>(),
            g.spec_lawful(),
            self.spec_idx(g) is Some,
        ensures
            self@.dom().contains(self.spec_idx(g).unwrap()),
            self@[self.spec_idx(g).unwrap()].spec_iso(&g),
    {
        let km = self.keys@;
        let k = g.spec_hash();
        let b = bucket_at(km, k);
        let p = first_where(b, matches_to(g));
        lemma_first_where_props(b, matches_to(g));
        assert(km.dom().contains(k));
        assert(b == km[k]);
        assert(km[k][p] == b[p]);
        let h = b[p].0;
        let i = b[p].1;
        assert(self.vals@.dom().contains(i) && cloned(h, self.vals@[i]));
        assert(h.spec_iso(&self.vals@[i]));
        assert(self.vals@[i].spec_iso(&h));
        assert(h.spec_iso(&g));
    }
}

impl<G: CombEq + Clone + Sync, Strategy: IndexStrategy> CombIndex<G, Strategy> {
    /// Like `contains_val`, with the bucket searched in parallel.
    pub fn par_contains_val(&self, g: &G) -> (r: bool)
        requires
            self.wf(),
        ensures
            obeys_comb_eq::<G>() && g.spec_lawful() ==> r == self.spec_idx(*g) is Some,
    {
        self.keys.par_contains_key(g)
    }

    /// Like `idx`, with the bucket searched in parallel; as the index holds no isomorphic
    /// duplicates, the same index is found.
    pub fn par_idx(&self, g: &G) -> (r: Option<usize>)
        requires
            self.wf(),
        ensures
            obeys_comb_eq::<G>() && g.spec_lawful() ==> r == self.spec_idx(*g),
    {
        match self.keys.par_get(g) {
            Some(i) => Some(*i),
            None => None,
        }
    }

    /// Like `insert`, with the bucket searched in parallel.
    pub fn par_insert(&mut self, g: G) -> (r: usize)
        requires
            old(self).wf(),
            obeys_index_laws::<G>(),
            g.spec_lawful(),
            old(self).spec_idx(g) is None ==> old(self).next_index() < usize::MAX,
        ensures
            final(self).wf(),
            match old(self).spec_idx(g) {
                Some(i) => {
                    &&& r == i
                    &&& final(self)@ == old(self)@
                    &&& final(self).spec_keys() == old(self).spec_keys()
                    &&& final(self).next_index() == old(self).next_index()
                },
                None => {
                    &&& r == old(self).next_index()
                    &&& !old(self)@.dom().contains(r)
                    &&& final(self)@ == old(self)@.insert(r, final(self)@[r])
                    &&& cloned(g, final(self)@[r])
                    &&& final(self).next_index() == old(self).next_index() + 1
                },
            },
    {
        match self.par_idx(&g) {
            Some(i) => i,
            None => self.insert(g),
        }
    }

    /// Like `remove_val`, with the bucket searched in parallel.
    pub fn par_remove_val(&mut self, g: &G) -> (r: Option<(usize, G)>)
        requires
            old(self).wf(),
            obeys_index_laws::<G>(),
            g.spec_lawful(),
            old(self).spec_idx(*g) matches Some(i) ==> old(self).removal_ok(i),
        ensures
            final(self).wf(),
            match old(self).spec_idx(*g) {
                Some(i) => {
                    &&& r == Some((i, old(self)@[i]))
                    &&& final(self)@ == vals_after_removal(old(self)@, i, old(self).next_index(), Strategy::spec_reuses())
                    &&& final(self).next_index() == next_after_removal(i, old(self).next_index(), Strategy::spec_reuses())
                },
                None => {
                    &&& r is None
                    &&& final(self)@ == old(self)@
                    &&& final(self).next_index() == old(self).next_index()
                },
            },
    {
        let ghost km = self.keys@;
        let ghost vm = self.vals@;
        if let Some(i) = self.keys.par_remove(g) {
            proof {
                assert(self.keys@ == model_remove(km, *g));
                lemma_match_remove(km, vm, *g);
                lemma_unique_remove(km, *g);
            }
            let v = self.vals.remove(&i).unwrap();
            proof {
                assert forall|x: usize| #[trigger] self.vals@.dom().contains(x) implies x < self.next by {
                    assert(vm.dom().contains(x));
                }
            }
            self.on_remove(i);
            Some((i, v))
        } else {
            None
        }
    }

    /// Like `remove_idx`, with the bucket searched in parallel.
    pub fn par_remove_idx(&mut self, i: usize) -> (r: Option<(usize, G)>)
        requires
            old(self).wf(),
            obeys_index_laws::<G>(),
            old(self)@.dom().contains(i) ==> old(self).removal_ok(i),
        ensures
            final(self).wf(),
            if old(self)@.dom().contains(i) {
                &&& r == Some((i, old(self)@[i]))
                &&& final(self)@ == vals_after_removal(old(self)@, i, old(self).next_index(), Strategy::spec_reuses())
                &&& final(self).next_index() == next_after_removal(i, old(self).next_index(), Strategy::spec_reuses())
            } else {
                &&& r is None
                &&& final(self)@ == old(self)@
                &&& final(self).next_index() == old(self).next_index()
            },
    {
        let ghost km = self.keys@;
        let ghost vm = self.vals@;
        proof {
            if vm.dom().contains(i) {
                self.lemma_idx_of_val_parts(i);
            }
        }
        if let Some(g) = self.vals.remove(&i) {
            proof {
                lemma_match_remove(km, vm, g);
                lemma_unique_remove(km, g);
            }
            let i2 = self.keys.par_remove(&g).unwrap();
            proof {
                assert(self.keys@ == model_remove(km, g));
                assert(i2 == i);
                assert forall|x: usize| #[trigger] self.vals@.dom().contains(x) implies x < self.next by {
                    assert(vm.dom().contains(x));
                }
            }
            self.on_remove(i2);
            Some((i2, g))
        } else {
            None
        }
    }

    /// `retain`, for callers of the parallel interface.
    pub fn par_retain<F: Fn(&G) -> bool>(&mut self, f: F)
        requires
            old(self).wf(),
            obeys_index_laws::<G>(),
            forall|x: usize| #[trigger] old(self)@.dom().contains(x) ==> call_requires(f, (&old(self)@[x],)),
            Strategy::spec_reuses() ==> old(self).retain_ok(f),
        ensures
            final(self).wf(),
            !Strategy::spec_reuses() ==> index_retained(old(self)@, final(self)@, f),
            !Strategy::spec_reuses() ==> final(self).next_index() == old(self).next_index(),
            Strategy::spec_reuses() ==> index_retained_reusing(old(self)@, old(self).next_index() as nat, final(self)@,
                final(self).next_index() as nat, f),
    {
        self.retain(f)
    }
}

/// The laws that a `HashIndex` asks of its items: `==` and `Hash` agree with spec equality,
/// and a clone equals the object it was made from.
pub open spec fn obeys_hash_index_laws<G: Clone>() -> bool {
    &&& obeys_key_model::<G>()
    &&& forall|a: G, b: G| #[trigger] cloned(a, b) ==> a == b
}

/// The index under which `m` holds `g`, if it holds it.
pub open spec fn index_of<G>(m: Map<usize, G>, g: G) -> Option<usize> {
    if exists|i: usize| #[trigger] m.dom().contains(i) && m[i] == g {
        Some(choose|i: usize| #[trigger] m.dom().contains(i) && m[i] == g)
    } else {
        None
    }
}

/// No two indices of `m` hold the same object.
pub open spec fn injective<G>(m: Map<usize, G>) -> bool {
    forall|i: usize, j: usize| #[trigger] m.dom().contains(i) && #[trigger] m.dom().contains(j) && m[i] == m[j] ==> i == j
}

proof fn lemma_index_of<G>(m: Map<usize, G>, g: G, i: usize)
    requires
        injective(m),
        m.dom().contains(i),
        m[i] == g,
    ensures
        index_of(m, g) == Some(i),
{
}

/// A bijection between the inserted objects, compared by `==`, and indices.
pub struct HashIndex<G, Strategy = KeepIndex> {
    keys: HashMap<G, usize>,
    vals: HashMap<usize, G>,
    next: usize,
    strategy: PhantomData<Strategy>,
}

impl<G: Hash + Eq + Clone, Strategy: IndexStrategy> View for HashIndex<G, Strategy> {
    type V = Map<usize, G>;

    /// The map from each index to its object.
    open spec fn view(&self) -> Map<usize, G> {
        self.spec_vals()
    }
}

impl<G: Hash + Eq + Clone, Strategy: IndexStrategy> HashIndex<G, Strategy> {
    /// The map from each index to its object.
    pub closed spec fn spec_vals(self) -> Map<usize, G> {
        self.vals@
    }

    /// The index that the next new object receives.
    pub closed spec fn next_index(self) -> nat {
        self.next as nat
    }

    /// Well-formedness: the two maps are inverse to each other, and every index is below
    /// `next_index`.
    pub closed spec fn wf(self) -> bool {
        &&& forall|g: G| #[trigger] self.keys@.contains_key(g) ==>
            self.vals@.contains_key(self.keys@[g]) && self.vals@[self.keys@[g]] == g
        &&& forall|i: usize| #[trigger] self.vals@.contains_key(i) ==>
            self.keys@.contains_key(self.vals@[i]) && self.keys@[self.vals@[i]] == i
        &&& forall|i: usize| #[trigger] self.vals@.contains_key(i) ==> i < self.next
    }

    /// A well-formed index holds no object twice.
    pub proof fn lemma_injective(self)
        requires
            self.wf(),
        ensures
            injective(self@),
    {
    }

    /// Removing index `i` does not panic: with index reuse, the index that moves into the gap
    /// must be in use.
    pub open spec fn removal_ok(self, i: usize) -> bool {
        Strategy::spec_reuses() && i + 1 < self.next_index() ==> self@.dom().contains((self.next_index() - 1) as usize)
    }

    /// With index reuse, `retain` does not panic: the indices in use are those below
    /// `next_index`, but perhaps the last, and when the last is free, `f` removes nothing.
    pub open spec fn retain_ok<F: Fn(&G) -> bool>(self, f: F) -> bool {
        &&& forall|x: usize| x + 1 < self.next_index() ==> #[trigger] self@.dom().contains(x)
        &&& self.next_index() > 0 && !self@.dom().contains((self.next_index() - 1) as usize) ==>
            forall|x: usize| #[trigger] self@.dom().contains(x) ==> !call_ensures(f, (&self@[x],), true)
    }

    /// Creates an empty index.
    pub fn new() -> (r: Self)
        ensures
            r.wf(),
            r@ == Map::<usize, G>::empty(),
            r.next_index() == 0,
    {
        HashIndex { keys: HashMap::new(), vals: HashMap::new(), next: 0, strategy: PhantomData }
    }

    /// The number of objects.
    pub fn len(&self) -> (r: usize)
        ensures
            r == self@.len(),
    {
        self.vals.len()
    }

    /// Returns `true` if the index holds no object.
    pub fn is_empty(&self) -> (r: bool)
        ensures
            r == (self@.len() == 0),
    {
        proof {
            if self.vals@.len() == 0 {
                assert(self.vals@.dom() =~= Set::empty()) by {
                    if exists|i: usize| self.vals@.dom().contains(i) {
                        vstd::set_lib::lemma_set_empty_equivalency_len(self.vals@.dom());
                    }
                }
            }
        }
        self.vals.len() == 0
    }

    /// Returns `true` if `g` has an index.
    pub fn contains_val(&self, g: &G) -> (r: bool)
        requires
            self.wf(),
            obeys_hash_index_laws::<G>(),
        ensures
            r == index_of(self@, *g) is Some,
    {
        let r = self.keys.contains_key(g);
        proof {
            if r {
                lemma_index_of(self@, *g, self.keys@[*g]);
            }
        }
        r
    }

    /// Returns `true` if `i` is the index of an object.
    pub fn contains_idx(&self, i: usize) -> (r: bool)
        ensures
            r == self@.dom().contains(i),
    {
        self.vals.contains_key(&i)
    }

    /// The index of `g`.
    pub fn idx(&self, g: &G) -> (r: Option<usize>)
        requires
            self.wf(),
            obeys_hash_index_laws::<G>(),
        ensures
            r == index_of(self@, *g),
    {
        match self.keys.get(g) {
            Some(i) => {
                proof {
                    lemma_index_of(self@, *g, *i);
                }
                Some(*i)
            },
            None => None,
        }
    }

    /// The object with index `i`.
    pub fn val(&self, i: usize) -> (r: Option<&G>)
        ensures
            r is Some <==> self@.dom().contains(i),
            r matches Some(g) ==> *g == self@[i],
    {
        self.vals.get(&i)
    }

    /// Gives `g` an index: its index if it has one, else the next index.
    pub fn insert(&mut self, g: G) -> (r: usize)
        requires
            old(self).wf(),
            obeys_hash_index_laws::<G>(),
            index_of(old(self)@, g) is None ==> old(self).next_index() < usize::MAX,
        ensures
            final(self).wf(),
            match index_of(old(self)@, g) {
                Some(i) => {
                    &&& r == i
                    &&& final(self)@ == old(self)@
                    &&& final(self).next_index() == old(self).next_index()
                },
                None => {
                    &&& r == old(self).next_index()
                    &&& !old(self)@.dom().contains(r)
                    &&& final(self)@ == old(self)@.insert(r, g)
                    &&& final(self).next_index() == old(self).next_index() + 1
                },
            },
    {
        match self.idx(&g) {
            Some(i) => i,
            None => {
                let i = self.next;
                self.next = self.next + 1;
                let h = g.clone();
                proof {
                    assert(cloned(g, h));
                    if self.keys@.contains_key(g) {
                        lemma_index_of(self@, g, self.keys@[g]);
                    }
                    assert(!self.vals@.contains_key(i));
                }
                self.vals.insert(i, h);
                self.keys.insert(g, i);
                proof {
                    assert forall|x: usize| #[trigger] self.vals@.contains_key(x) implies
                        self.keys@.contains_key(self.vals@[x]) && self.keys@[self.vals@[x]] == x by {
                        if x != i {
                            assert(old(self).vals@.contains_key(x));
                        }
                    }
                    assert forall|k: G| #[trigger] self.keys@.contains_key(k) implies
                        self.vals@.contains_key(self.keys@[k]) && self.vals@[self.keys@[k]] == k by {
                        if k != g {
                            assert(old(self).keys@.contains_key(k));
                        }
                    }
                }
                i
            },
        }
    }

    /// Moves the object with index `src` to index `dst`.
    fn reassign(&mut self, src: usize, dst: usize)
        requires
            old(self).wf(),
            obeys_hash_index_laws::<G>(),
            old(self).vals@.dom().contains(src),
            !old(self).vals@.dom().contains(dst),
            dst < old(self).next,
        ensures
            final(self).wf(),
            final(self).vals@ == old(self).vals@.remove(src).insert(dst, old(self).vals@[src]),
            final(self).next == old(self).next,
    {
        let h = self.vals.remove(&src).unwrap();
        let c = h.clone();
        proof {
            assert(cloned(h, c));
            assert(old(self).keys@.contains_key(h) && old(self).keys@[h] == src);
        }
        self.keys.insert(c, dst);
        self.vals.insert(dst, h);
        proof {
            assert forall|i: usize| #[trigger] self.vals@.contains_key(i) implies
                self.keys@.contains_key(self.vals@[i]) && self.keys@[self.vals@[i]] == i by {
                if i != dst {
                    assert(old(self).vals@.contains_key(i));
                    assert(old(self).keys@[old(self).vals@[i]] == i);
                    assert(old(self).vals@[i] != h);
                }
            }
            assert forall|g: G| #[trigger] self.keys@.contains_key(g) implies
                self.vals@.contains_key(self.keys@[g]) && self.vals@[self.keys@[g]] == g by {
                if g != h {
                    assert(old(self).keys@.contains_key(g));
                    assert(old(self).keys@[g] != src);
                }
            }
            assert forall|x: usize| #[trigger] self.vals@.contains_key(x) implies x < self.next by {
                if x != dst {
                    assert(old(self).vals@.contains_key(x));
                }
            }
        }
    }

    /// Applies the index strategy after index `i` was freed.
    fn on_remove(&mut self, i: usize)
        requires
            old(self).wf(),
            obeys_hash_index_laws::<G>(),
            !old(self).vals@.dom().contains(i),
            i < old(self).next,
            Strategy::spec_reuses() && i + 1 < old(self).next ==> old(self).vals@.dom().contains((old(self).next - 1) as usize),
        ensures
            final(self).wf(),
            final(self).vals@ == if Strategy::spec_reuses() && i + 1 < old(self).next {
                old(self).vals@.remove((old(self).next - 1) as usize).insert(i, old(self).vals@[(old(self).next - 1) as usize])
            } else {
                old(self).vals@
            },
            final(self).next == next_after_removal(i, old(self).next as nat, Strategy::spec_reuses()),
    {
        if Strategy::reuses() {
            let j = self.next - 1;
            if i < j {
                self.reassign(j, i);
                self.next = j;
                proof {
                    assert forall|x: usize| #[trigger] self.vals@.contains_key(x) implies x < self.next by {
                        if x != i {
                            assert(old(self).vals@.dom().contains(x));
                        }
                    }
                }
            }
        }
    }

    /// Removes `g` and returns it with its index.
    pub fn remove_val(&mut self, g: &G) -> (r: Option<(usize, G)>)
        requires
            old(self).wf(),
            obeys_hash_index_laws::<G>(),
            index_of(old(self)@, *g) matches Some(i) ==> old(self).removal_ok(i),
        ensures
            final(self).wf(),
            match index_of(old(self)@, *g) {
                Some(i) => {
                    &&& r == Some((i, old(self)@[i]))
                    &&& final(self)@ == vals_after_removal(old(self)@, i, old(self).next_index(), Strategy::spec_reuses())
                    &&& final(self).next_index() == next_after_removal(i, old(self).next_index(), Strategy::spec_reuses())
                },
                None => {
                    &&& r is None
                    &&& final(self)@ == old(self)@
                    &&& final(self).next_index() == old(self).next_index()
                },
            },
    {
        if let Some(i) = self.keys.remove(g) {
            proof {
                lemma_index_of(old(self)@, *g, i);
            }
            let v = self.vals.remove(&i).unwrap();
            proof {
                assert forall|x: usize| #[trigger] self.vals@.contains_key(x) implies
                    self.keys@.contains_key(self.vals@[x]) && self.keys@[self.vals@[x]] == x by {
                    assert(old(self).vals@.contains_key(x));
                }
            }
            self.on_remove(i);
            Some((i, v))
        } else {
            proof {
                if index_of(old(self)@, *g) is Some {
                    let i = index_of(old(self)@, *g).unwrap();
                    assert(old(self).vals@.contains_key(i));
                }
            }
            None
        }
    }

    /// Removes the object with index `i` and returns it with its index.
    pub fn remove_idx(&mut self, i: usize) -> (r: Option<(usize, G)>)
        requires
            old(self).wf(),
            obeys_hash_index_laws::<G>(),
            old(self)@.dom().contains(i) ==> old(self).removal_ok(i),
        ensures
            final(self).wf(),
            if old(self)@.dom().contains(i) {
                &&& r == Some((i, old(self)@[i]))
                &&& final(self)@ == vals_after_removal(old(self)@, i, old(self).next_index(), Strategy::spec_reuses())
                &&& final(self).next_index() == next_after_removal(i, old(self).next_index(), Strategy::spec_reuses())
            } else {
                &&& r is None
                &&& final(self)@ == old(self)@
                &&& final(self).next_index() == old(self).next_index()
            },
    {
        if let Some(g) = self.vals.remove(&i) {
            let i2 = self.keys.remove(&g).unwrap();
            proof {
                assert forall|h: G| #[trigger] self.keys@.contains_key(h) implies
                    self.vals@.contains_key(self.keys@[h]) && self.vals@[self.keys@[h]] == h by {
                    assert(old(self).keys@.contains_key(h));
                }
            }
            self.on_remove(i2);
            Some((i2, g))
        } else {
            None
        }
    }

    /// The indices in use and their objects, by increasing index.
    pub fn iter(&self) -> (r: Vec<(usize, &G)>)
        requires
            self.wf(),
        ensures
            index_listing(self@, r@),
    {
        let mut r: Vec<(usize, &G)> = Vec::new();
        let mut i: usize = 0;
        while i < self.next
            invariant
                self.wf(),
                i <= self.next,
                forall|k: int| 0 <= k < r.len() ==> (#[trigger] r@[k]).0 < i,
                forall|k: int| 0 <= k < r.len() ==> self@.dom().contains((#[trigger] r@[k]).0) && *r@[k].1 == self@[r@[k].0],
                forall|x: usize| #[trigger] self@.dom().contains(x) && x < i ==> listed_at(r@, x),
                forall|a: int, b: int| 0 <= a < b < r.len() ==> (#[trigger] r@[a]).0 < (#[trigger] r@[b]).0,
            decreases self.next - i,
        {
            match self.vals.get(&i) {
                Some(g) => {
                    let ghost before = r@;
                    r.push((i, g));
                    proof {
                        assert(r@[before.len() as int].0 == i);
                        assert forall|x: usize| #[trigger] self@.dom().contains(x) && x < i + 1 implies listed_at(r@, x) by {
                            if x < i {
                                let k = choose|k: int| 0 <= k < before.len() && (#[trigger] before[k]).0 == x;
                                assert(r@[k] == before[k]);
                            } else {
                                assert(r@[before.len() as int].0 == x);
                            }
                        }
                    }
                },
                None => {},
            }
            i = i + 1;
        }
        proof {
            assert forall|x: usize| #[trigger] self@.dom().contains(x) implies listed_at(r@, x) by {
                assert(x < self.next);
            }
        }
        r
    }

    /// The indices of the objects on which `f` returns `true`, by increasing index.
    fn marked<F: Fn(&G) -> bool>(&self, f: F) -> (r: Vec<usize>)
        requires
            self.wf(),
            forall|x: usize| #[trigger] self@.dom().contains(x) ==> call_requires(f, (&self@[x],)),
        ensures
            marked_by(self@, r@, f),
            forall|k: int| 0 <= k < r.len() ==> (#[trigger] r@[k]) < self.next_index(),
    {
        let mut r: Vec<usize> = Vec::new();
        let mut i: usize = 0;
        while i < self.next
            invariant
                self.wf(),
                i <= self.next,
                forall|x: usize| #[trigger] self@.dom().contains(x) ==> call_requires(f, (&self@[x],)),
                forall|k: int| 0 <= k < r.len() ==> (#[trigger] r@[k]) < i,
                forall|k: int| 0 <= k < r.len() ==> self@.dom().contains(#[trigger] r@[k]) && call_ensures(f, (&self@[r@[k]],), true),
                forall|x: usize| #[trigger] self@.dom().contains(x) && x < i ==> r@.contains(x) || call_ensures(f, (&self@[x],), false),
                forall|a: int, b: int| 0 <= a < b < r.len() ==> (#[trigger] r@[a]) < (#[trigger] r@[b]),
            decreases self.next - i,
        {
            match self.vals.get(&i) {
                Some(g) => {
                    let ghost before = r@;
                    assert(self@.dom().contains(i));
                    if f(g) {
                        r.push(i);
                        proof {
                            assert forall|x: usize| #[trigger] self@.dom().contains(x) && x < i + 1 implies
                                r@.contains(x) || call_ensures(f, (&self@[x],), false) by {
                                if x < i {
                                    if before.contains(x) {
                                        let k = choose|k: int| 0 <= k < before.len() && before[k] == x;
                                        assert(r@[k] == x);
                                    }
                                } else {
                                    assert(r@[before.len() as int] == x);
                                }
                            }
                        }
                    }
                },
                None => {},
            }
            i = i + 1;
        }
        proof {
            assert forall|x: usize| #[trigger] self@.dom().contains(x) implies r@.contains(x) || call_ensures(f, (&self@[x],), false) by {
                assert(x < self.next);
            }
        }
        r
    }

    /// Removes the objects on which `f` returns `true`, one after the other by increasing index.
    pub fn retain<F: Fn(&G) -> bool>(&mut self, f: F)
        requires
            old(self).wf(),
            obeys_hash_index_laws::<G>(),
            forall|x: usize| #[trigger] old(self)@.dom().contains(x) ==> call_requires(f, (&old(self)@[x],)),
            Strategy::spec_reuses() ==> old(self).retain_ok(f),
        ensures
            final(self).wf(),
            !Strategy::spec_reuses() ==> index_retained(old(self)@, final(self)@, f),
            !Strategy::spec_reuses() ==> final(self).next_index() == old(self).next_index(),
            Strategy::spec_reuses() ==> index_retained_reusing(old(self)@, old(self).next_index() as nat, final(self)@,
                final(self).next_index() as nat, f),
    {
        let r = self.marked(f);
        let ghost m0 = self@;
        let ghost reuse = Strategy::spec_reuses();
        let mut k: usize = 0;
        while k < r.len()
            invariant
                self.wf(),
                obeys_hash_index_laws::<G>(),
                reuse == Strategy::spec_reuses(),
                k <= r.len(),
                marked_by(m0, r@, f),
                !reuse ==> self@ == m0.remove_keys(r@.subrange(0, k as int).to_set()),
                !reuse ==> self.next_index() == old(self).next_index(),
                reuse ==> forall|x: usize| x + 1 < self.next_index() ==> #[trigger] self@.dom().contains(x),
                reuse && self.next_index() > 0 && !self@.dom().contains((self.next_index() - 1) as usize) ==>
                    forall|m: int| k <= m < r.len() ==> (#[trigger] r@[m]) >= self.next_index(),
                reuse && k == 0 ==> forall|m: int| 0 <= m < r.len() ==> (#[trigger] r@[m]) < self.next_index(),
                reuse ==> reuse_removals(m0, old(self).next_index() as nat, r@.subrange(0, k as int)) == (self@, self.next_index() as nat),
            decreases r.len() - k,
        {
            let i = r[k];
            let ghost before = self@;
            let ghost nb = self.next_index();
            proof {
                if reuse && before.dom().contains(i) && i + 1 < nb {
                    if !before.dom().contains((nb - 1) as usize) {
                        assert(i >= nb);
                        assert(i < self.next);
                    }
                }
            }
            self.remove_idx(i);
            proof {
                if reuse {
                    assert(r@.subrange(0, k + 1).drop_last() == r@.subrange(0, k as int));
                }
                if !reuse {
                    assert(r@.subrange(0, k + 1).to_set() =~= r@.subrange(0, k as int).to_set().insert(i)) by {
                        assert(r@.subrange(0, k + 1) =~= r@.subrange(0, k as int).push(i));
                        r@.subrange(0, k as int).lemma_push_to_set_commute(i);
                    }
                    assert(self@ =~= m0.remove_keys(r@.subrange(0, k + 1).to_set()));
                }
                if reuse && before.dom().contains(i) {
                    if i + 1 < nb {
                        assert forall|x: usize| x + 1 < self.next_index() implies #[trigger] self@.dom().contains(x) by {
                            assert(before.dom().contains(x));
                        }
                        if self.next_index() > 0 {
                            let y = (self.next_index() - 1) as usize;
                            if y != i {
                                assert(before.dom().contains(y));
                            }
                        }
                    } else {
                        assert forall|m: int| k + 1 <= m < r.len() implies (#[trigger] r@[m]) >= self.next_index() by {
                            assert(r@[k as int] < r@[m]);
                        }
                    }
                }
            }
            k = k + 1;
        }
        proof {
            assert(r@.subrange(0, r.len() as int) == r@);
            if reuse {
                assert(marked_by(old(self)@, r@, f));
            }
        }
    }

    /// Round trip from an index to its object and back: looking up the object of an index
    /// gives back that index.
    pub proof fn law_idx_of_val(self, i: usize)
        requires
            self.wf(),
            self@.dom().contains(i),
        ensures
            index_of(self@, self@[i]) == Some(i),
    {
        lemma_index_of(self@, self@[i], i);
    }
}

} // verus!
