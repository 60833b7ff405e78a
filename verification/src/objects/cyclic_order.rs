use vstd::prelude::*;
use vstd::laws_eq::obeys_concrete_eq;
use itertools::Itertools;
use crate::collections::comb_map::{first_where, lemma_first_where_props};

use crate::text::{decimals, push_decimals, string_of};

verus! {

/// The first position of `x` in `s`, or -1.
pub open spec fn first_pos<T>(s: Seq<T>, x: T) -> int {
    first_where(s, |y: T| y == x)
}

/// What `first_pos` finds.
pub proof fn lemma_first_pos<T>(s: Seq<T>, x: T)
    ensures
        -1 <= first_pos(s, x) < s.len(),
        first_pos(s, x) >= 0 ==> s[first_pos(s, x)] == x,
        s.contains(x) <==> first_pos(s, x) >= 0,
        forall|j: int| 0 <= j < first_pos(s, x) ==> s[j] != x,
{
    lemma_first_where_props(s, |y: T| y == x);
    if s.contains(x) {
        let k = choose|k: int| 0 <= k < s.len() && s[k] == x;
        assert((|y: T| y == x)(s[k]));
    }
    if first_pos(s, x) >= 0 {
        assert(s[first_pos(s, x)] == x);
    }
    if first_pos(s, x) > 0 {
        assert forall|j: int| 0 <= j < first_pos(s, x) implies s[j] != x by {
            assert(!(|y: T| y == x)(s[j]));
        }
    }
}

/// `t` is `s` rotated: both have the same length, and reading `t` from some offset on, round
/// the end, gives `s`.
pub open spec fn rotation_of<T>(s: Seq<T>, t: Seq<T>) -> bool {
    &&& s.len() == t.len()
    &&& (s.len() == 0 || exists|offset: int| 0 <= offset < s.len() && #[trigger] rotated_by(s, t, offset))
}

/// `t` read from `offset` on, round the end, is `s`.
pub open spec fn rotated_by<T>(s: Seq<T>, t: Seq<T>, offset: int) -> bool {
    forall|i: int| 0 <= i < s.len() ==> s[i] == #[trigger] t[(offset + i) % (s.len() as int)]
}

/// `s` read from position `i` on, round the end.
pub open spec fn rotate<T>(s: Seq<T>, i: int) -> Seq<T> {
    s.subrange(i, s.len() as int) + s.subrange(0, i)
}

/// The values of `outs` that are present, in order.
pub open spec fn somes<T>(outs: Seq<Option<T>>) -> Seq<T>
    decreases outs.len(),
{
    if outs.len() == 0 {
        Seq::empty()
    } else {
        let r = somes(outs.drop_last());
        match outs.last() {
            Some(x) => r.push(x),
            None => r,
        }
    }
}

/// `p` lists each of `lo..hi` once.
pub open spec fn is_permutation(p: Seq<usize>, lo: int, hi: int) -> bool {
    &&& p.len() == hi - lo
    &&& forall|i: int| 0 <= i < p.len() ==> lo <= #[trigger] p[i] < hi
    &&& forall|i: int, j: int| 0 <= i < j < p.len() ==> p[i] != p[j]
}

/// The arrangement of `s` that keeps its first element first and then takes the elements
/// at the positions `p`.
pub open spec fn arranged<T>(s: Seq<T>, p: Seq<usize>) -> Seq<T> {
    seq![s[0]] + p.map_values(|i: usize| s[i as int])
}

/// `c` arranges `s`: it keeps the first element of `s` first and then takes the others in
/// some order.
pub open spec fn is_arrangement<T>(s: Seq<T>, c: Seq<T>) -> bool {
    exists|p: Seq<usize>| is_permutation(p, 1, s.len() as int) && c == #[trigger] arranged(s, p)
}

/// `n!`.
pub open spec fn factorial(n: nat) -> nat
    decreases n,
{
    if n == 0 { 1 } else { n * factorial((n - 1) as nat) }
}

/// On elements without repetition, two arrangements that are rotations of each other are
/// made by the same permutation: both start with the first element, which occurs once.
proof fn lemma_arranged_rotation<T>(s: Seq<T>, p: Seq<usize>, q: Seq<usize>)
    requires
        s.len() > 0,
        s.no_duplicates(),
        is_permutation(p, 1, s.len() as int),
        is_permutation(q, 1, s.len() as int),
        rotation_of(arranged(s, p), arranged(s, q)),
    ensures
        p == q,
{
    let a = arranged(s, p);
    let b = arranged(s, q);
    let n = s.len() as int;
    let offset = choose|offset: int| 0 <= offset < n && #[trigger] rotated_by(a, b, offset);
    assert(a[0] == b[(offset + 0) % n]);
    assert((offset + 0) % n == offset) by {
        vstd::arithmetic::div_mod::lemma_small_mod(offset as nat, n as nat);
    }
    if offset > 0 {
        assert(b[offset] == s[q[offset - 1] as int]);
        assert(q[offset - 1] >= 1);
        assert(s[0] == s[q[offset - 1] as int]);
        assert(false);
    }
    assert forall|i: int| 0 <= i < p.len() implies p[i] == q[i] by {
        assert(a[i + 1] == b[(0 + (i + 1)) % n]);
        vstd::arithmetic::div_mod::lemma_small_mod((i + 1) as nat, n as nat);
        assert(a[i + 1] == s[p[i] as int]);
        assert(b[i + 1] == s[q[i] as int]);
    }
    assert(p =~= q);
}

/// The permutations of `lo..hi` in the order in which itertools' `permutations` gives them.
pub uninterp spec fn itertools_permutations(lo: nat, hi: nat) -> Seq<Seq<usize>>;

/// `(lo..hi).permutations(hi - lo)` of itertools, collected: as its documentation says, all
/// permutations of `lo..hi`, each once; their order is itertools' and is only named here.
#[verifier::external_body]
pub(crate) fn index_permutations(lo: usize, hi: usize) -> (r: Vec<Vec<usize>>)
    requires
        lo <= hi,
    ensures
        r@.map_values(|v: Vec<usize>| v@) == itertools_permutations(lo as nat, hi as nat),
        forall|k: int| 0 <= k < r.len() ==> is_permutation(#[trigger] r@[k]@, lo as int, hi as int),
        forall|a: int, b: int| 0 <= a < b < r.len() ==> r@[a]@ != r@[b]@,
        forall|p: Seq<usize>| #[trigger] is_permutation(p, lo as int, hi as int) ==> exists|k: int| 0 <= k < r.len() && r@[k]@ == p,
        r@.len() == factorial((hi - lo) as nat),
{
    (lo..hi).permutations(hi - lo).collect()
}

/// A cyclic order: a sequence read up to rotation.
#[derive(Debug)]
pub struct CyclicOrder<T> {
    pub data: Vec<T>,
}

impl<T: Copy> Clone for CyclicOrder<T> {
    fn clone(&self) -> (r: Self)
        ensures
            r@ == self@,
    {
        let mut data: Vec<T> = Vec::new();
        let mut i: usize = 0;
        while i < self.data.len()
            invariant
                i <= self@.len(),
                data@ == self@.subrange(0, i as int),
            decreases self@.len() - i,
        {
            data.push(self.data[i]);
            i = i + 1;
        }
        CyclicOrder { data }
    }
}

impl<T> View for CyclicOrder<T> {
    type V = Seq<T>;

    open spec fn view(&self) -> Seq<T> {
        self.data@
    }
}

impl<T: Copy + Eq> PartialEq for CyclicOrder<T> {
    fn eq(&self, other: &Self) -> (r: bool) {
        let n = self.data.len();
        if n != other.data.len() {
            return false;
        }
        if n == 0 {
            return true;
        }
        proof {
            reveal(obeys_concrete_eq);
        }
        let mut offset: usize = 0;
        while offset < n
            invariant
                n == self@.len(),
                n == other@.len(),
                n > 0,
                offset <= n,
                obeys_concrete_eq::<T>() ==> forall|o: int| 0 <= o < offset ==> !rotated_by(self@, other@, o),
            decreases n - offset,
        {
            let mut i: usize = 0;
            let mut all = true;
            while i < n
                invariant
                    n == self@.len(),
                    n == other@.len(),
                    n > 0,
                    offset < n,
                    i <= n,
                    obeys_concrete_eq::<T>() ==> (all <==> forall|k: int| 0 <= k < i ==> self@[k] == other@[(offset + k) % (n as int)]),
                decreases n - i,
            {
                proof {
                    reveal(obeys_concrete_eq);
                }
                let j = if i < n - offset { offset + i } else { i - (n - offset) };
                assert((offset + i) % (n as int) == j) by (nonlinear_arith)
                    requires
                        offset < n,
                        i < n,
                        j == (if i < n - offset { offset + i } else { i - (n - offset) }),
                ;
                if self.data[i] != other.data[j] {
                    all = false;
                }
                i = i + 1;
            }
            if all {
                proof {
                    if obeys_concrete_eq::<T>() {
                        assert(rotated_by(self@, other@, offset as int));
                    }
                }
                return true;
            }
            proof {
                if obeys_concrete_eq::<T>() {
                    assert(!rotated_by(self@, other@, offset as int)) by {
                        let k = choose|k: int| 0 <= k < n && self@[k] != other@[(offset + k) % (n as int)];
                    }
                }
            }
            offset = offset + 1;
        }
        false
    }
}

impl<T: Copy + Eq> vstd::std_specs::cmp::PartialEqSpecImpl for CyclicOrder<T> {
    open spec fn obeys_eq_spec() -> bool {
        obeys_concrete_eq::<T>()
    }

    open spec fn eq_spec(&self, other: &CyclicOrder<T>) -> bool {
        rotation_of(self@, other@)
    }
}

impl<T: Copy + Eq> Eq for CyclicOrder<T> {}

impl<T> Default for CyclicOrder<T> {
    fn default() -> (r: Self)
        ensures
            r@ == Seq::<T>::empty(),
    {
        CyclicOrder { data: Vec::new() }
    }
}

impl<T: Copy + Eq> CyclicOrder<T> {
    /// The first position of `x`.
    fn position(&self, x: T) -> (r: Option<usize>)
        requires
            obeys_concrete_eq::<T>(),
        ensures
            match r {
                Some(i) => i == first_pos(self@, x) && 0 <= i < self@.len(),
                None => first_pos(self@, x) == -1 && !self@.contains(x),
            },
    {
        proof {
            lemma_first_where_props(self@, |y: T| y == x);
        }
        let mut i: usize = 0;
        while i < self.data.len()
            invariant
                i <= self@.len(),
                obeys_concrete_eq::<T>(),
                forall|k: int| 0 <= k < i ==> self@[k] != x,
            decreases self@.len() - i,
        {
            proof {
                reveal(obeys_concrete_eq);
            }
            if self.data[i] == x {
                proof {
                    lemma_first_where_props(self@, |y: T| y == x);
                    let p = first_pos(self@, x);
                    if p != i {
                        assert(p >= 0 ==> self@[p] == x);
                    }
                }
                return Some(i);
            }
            i = i + 1;
        }
        None
    }

    /// Inserts `x` just after `after`, or last when `after` is `None`. `after` must be in the
    /// order.
    pub fn insert(&mut self, x: T, after: Option<T>)
        requires
            obeys_concrete_eq::<T>(),
            after matches Some(a) ==> old(self)@.contains(a),
        ensures
            final(self)@ == old(self)@.insert(
                match after {
                    Some(a) => first_pos(old(self)@, a) + 1,
                    None => old(self)@.len() as int,
                },
                x,
            ),
    {
        let i = match after {
            Some(a) => {
                let p = self.position(a).unwrap();
                assert(p < self.data.len());
                p + 1
            },
            None => self.data.len(),
        };
        self.data.insert(i, x);
    }

    /// The number of elements.
    pub fn len(&self) -> (r: usize)
        ensures
            r == self@.len(),
    {
        self.data.len()
    }

    /// Puts `y` in the place of `x`, which must be in the order.
    pub fn replace(&mut self, x: T, y: T)
        requires
            obeys_concrete_eq::<T>(),
            old(self)@.contains(x),
        ensures
            final(self)@ == old(self)@.update(first_pos(old(self)@, x), y),
    {
        let i = self.position(x).unwrap();
        self.data.set(i, y);
    }

    /// Removes `x`, which must be in the order.
    pub fn remove(&mut self, x: T)
        requires
            obeys_concrete_eq::<T>(),
            old(self)@.contains(x),
        ensures
            final(self)@ == old(self)@.remove(first_pos(old(self)@, x)),
    {
        let i = self.position(x).unwrap();
        self.data.remove(i);
    }

    /// The element after `x`, which must be in the order; after the last comes the first.
    pub fn next(&self, x: T) -> (r: T)
        requires
            obeys_concrete_eq::<T>(),
            self@.contains(x),
        ensures
            r == next_in(self@, x),
    {
        let i = self.position(x).unwrap();
        let n = self.data.len();
        let j = if i + 1 < n { i + 1 } else { 0 };
        assert((i + 1) % (n as int) == j) by (nonlinear_arith)
            requires
                i < n,
                j == (if i + 1 < n { i + 1 } else { 0 }),
        ;
        self.data[j]
    }

    /// The elements from `x` on, round the end; `x` must be in the order.
    pub fn iter_from(&self, x: T) -> (r: Vec<T>)
        requires
            obeys_concrete_eq::<T>(),
            self@.contains(x),
        ensures
            r@ == rotate(self@, first_pos(self@, x)),
    {
        let i = self.position(x).unwrap();
        let n = self.data.len();
        let mut r: Vec<T> = Vec::new();
        let mut k: usize = i;
        while k < n
            invariant
                i <= k <= n,
                n == self@.len(),
                r@ == self@.subrange(i as int, k as int),
            decreases n - k,
        {
            r.push(self.data[k]);
            k = k + 1;
        }
        let mut k: usize = 0;
        while k < i
            invariant
                k <= i,
                i <= n,
                n == self@.len(),
                r@ == self@.subrange(i as int, n as int) + self@.subrange(0, k as int),
            decreases i - k,
        {
            r.push(self.data[k]);
            proof {
                assert(self@.subrange(0, k + 1) == self@.subrange(0, k as int).push(self@[k as int]));
            }
            k = k + 1;
        }
        r
    }

    /// The order of the values that `f` gives for the elements, where it gives one.
    pub fn filter_map<T2: Copy + Eq, F: Fn(&T) -> Option<T2>>(&self, f: F) -> (r: CyclicOrder<T2>)
        requires
            forall|i: int| 0 <= i < self@.len() ==> call_requires(f, (&self@[i],)),
        ensures
            exists|outs: Seq<Option<T2>>| #[trigger] somes(outs) == r@ && outs.len() == self@.len()
                && forall|i: int| 0 <= i < self@.len() ==> call_ensures(f, (&self@[i],), #[trigger] outs[i]),
    {
        let mut data: Vec<T2> = Vec::new();
        let ghost mut outs: Seq<Option<T2>> = Seq::empty();
        let mut i: usize = 0;
        while i < self.data.len()
            invariant
                i <= self@.len(),
                outs.len() == i,
                somes(outs) == data@,
                forall|k: int| 0 <= k < self@.len() ==> call_requires(f, (&self@[k],)),
                forall|k: int| 0 <= k < i ==> call_ensures(f, (&self@[k],), #[trigger] outs[k]),
            decreases self@.len() - i,
        {
            let o = f(&self.data[i]);
            let ghost prev = outs;
            proof {
                outs = outs.push(o);
                assert(outs.drop_last() =~= prev);
            }
            match o {
                Some(y) => data.push(y),
                None => {},
            }
            i = i + 1;
        }
        CyclicOrder { data }
    }

    /// The reverse order.
    pub fn rev(&self) -> (r: Self)
        ensures
            r@ == self@.reverse(),
    {
        let mut data: Vec<T> = Vec::new();
        let n = self.data.len();
        let mut k: usize = n;
        while k > 0
            invariant
                k <= n,
                n == self@.len(),
                data.len() == n - k,
                forall|j: int| 0 <= j < n - k ==> data@[j] == self@[n - 1 - j],
            decreases k,
        {
            k = k - 1;
            data.push(self.data[k]);
        }
        CyclicOrder { data }
    }

    /// The arrangement of the order that keeps its first element first and takes the rest in
    /// the order of the positions `p`.
    fn arrangement(&self, p: &Vec<usize>) -> (r: Self)
        requires
            self@.len() > 0,
            forall|i: int| 0 <= i < p.len() ==> #[trigger] p@[i] < self@.len(),
        ensures
            r@ == arranged(self@, p@),
    {
        let mut data: Vec<T> = vec![self.data[0]];
        let mut i: usize = 0;
        while i < p.len()
            invariant
                i <= p.len(),
                self@.len() > 0,
                forall|k: int| 0 <= k < p.len() ==> #[trigger] p@[k] < self@.len(),
                data@ == arranged(self@, p@.subrange(0, i as int)),
            decreases p.len() - i,
        {
            data.push(self.data[p[i]]);
            proof {
                let q = p@.subrange(0, i + 1);
                assert(q.map_values(|j: usize| self@[j as int]) =~= p@.subrange(0, i as int).map_values(|j: usize| self@[j as int]).push(self@[p@[i as int] as int]));
            }
            i = i + 1;
        }
        proof {
            assert(p@.subrange(0, p.len() as int) == p@);
        }
        CyclicOrder { data }
    }

    /// The distinct cyclic orders on the elements: every arrangement that keeps the first
    /// element first, up to rotation, with neighbouring equal ones left out. When no element
    /// repeats, these are `(n - 1)!` orders, no two of them equal as cyclic orders.
    pub fn permutations(&self) -> (r: Vec<Self>)
        requires
            obeys_concrete_eq::<T>(),
            self@.len() > 0,
        ensures
            forall|k: int| 0 <= k < r.len() ==> is_arrangement(self@, #[trigger] r@[k]@),
            forall|p: Seq<usize>| #[trigger] is_permutation(p, 1, self@.len() as int) ==>
                exists|k: int| 0 <= k < r.len() && rotation_of(r@[k]@, arranged(self@, p)),
            forall|k: int| 0 < k < r.len() ==> !rotation_of(r@[k - 1]@, #[trigger] r@[k]@),
            forall|k: int| 0 <= k < r.len() ==> (#[trigger] r@[k]@).len() == self@.len() && r@[k]@[0] == self@[0],
            self@.no_duplicates() ==> r.len() == factorial((self@.len() - 1) as nat),
            self@.no_duplicates() ==> forall|a: int, b: int| 0 <= a < b < r.len() ==> !rotation_of(#[trigger] r@[a]@, #[trigger] r@[b]@),
    {
        let n = self.data.len();
        let perms = index_permutations(1, n);
        let mut r: Vec<Self> = Vec::new();
        let mut m: usize = 0;
        while m < perms.len()
            invariant
                m <= perms.len(),
                n == self@.len(),
                n > 0,
                obeys_concrete_eq::<T>(),
                forall|k: int| 0 <= k < perms.len() ==> is_permutation(#[trigger] perms@[k]@, 1, n as int),
                forall|k: int| 0 <= k < r.len() ==> exists|p: Seq<usize>| is_permutation(p, 1, n as int)
                    && #[trigger] r@[k]@ == arranged(self@, p),
                forall|j: int| 0 <= j < m ==> exists|k: int| 0 <= k < r.len() && rotation_of(r@[k]@, arranged(self@, #[trigger] perms@[j]@)),
                forall|k: int| 0 < k < r.len() ==> !rotation_of(r@[k - 1]@, #[trigger] r@[k]@),
                forall|a: int, b: int| 0 <= a < b < perms.len() ==> perms@[a]@ != perms@[b]@,
                self@.no_duplicates() ==> r.len() == m && forall|k: int| 0 <= k < m ==> #[trigger] r@[k]@ == arranged(self@, perms@[k]@),
            decreases perms.len() - m,
        {
            let p = &perms[m];
            proof {
                assert(is_permutation(perms@[m as int]@, 1, n as int));
                assert forall|i: int| 0 <= i < p.len() implies #[trigger] p@[i] < self@.len() by {
                    assert(1 <= p@[i] < n);
                }
            }
            let c = self.arrangement(p);
            let dup = r.len() > 0 && r[r.len() - 1] == c;
            let ghost r_before = r@;
            proof {
                if self@.no_duplicates() && dup {
                    assert(r@[r.len() - 1]@ == c@ || rotation_of(r@[r.len() - 1]@, c@)) by {
                        reveal(obeys_concrete_eq);
                    }
                    let k = m - 1;
                    assert(r@[k]@ == arranged(self@, perms@[k]@));
                    if r@[k]@ == c@ {
                        law_rotation_reflexive(c@);
                    }
                    lemma_arranged_rotation(self@, perms@[k]@, perms@[m as int]@);
                    assert(perms@[k]@ != perms@[m as int]@);
                }
            }
            if !dup {
                r.push(c);
            }
            proof {
                if self@.no_duplicates() {
                    assert forall|k: int| 0 <= k < m + 1 implies #[trigger] r@[k]@ == arranged(self@, perms@[k]@) by {
                        if k < m {
                            assert(r@[k] == r_before[k]);
                        }
                    }
                }
                assert(r@[r.len() - 1]@ == c@ || rotation_of(r@[r.len() - 1]@, c@)) by {
                    reveal(obeys_concrete_eq);
                }
                assert forall|k: int| 0 <= k < r.len() implies exists|p: Seq<usize>| is_permutation(p, 1, n as int)
                    && #[trigger] r@[k]@ == arranged(self@, p) by {
                    if k < r_before.len() {
                        assert(r@[k] == r_before[k]);
                    } else {
                        assert(is_permutation(perms@[m as int]@, 1, n as int));
                    }
                }
                assert forall|k: int| 0 < k < r.len() implies !rotation_of(r@[k - 1]@, #[trigger] r@[k]@) by {
                    if k < r_before.len() {
                        assert(r@[k] == r_before[k] && r@[k - 1] == r_before[k - 1]);
                    } else {
                        reveal(obeys_concrete_eq);
                        assert(r@[k - 1] == r_before[k - 1]);
                    }
                }
                assert forall|j: int| 0 <= j < m + 1 implies exists|k: int| 0 <= k < r.len() && rotation_of(r@[k]@, arranged(self@, #[trigger] perms@[j]@)) by {
                    if j == m {
                        let k = r.len() - 1;
                        if r@[k]@ == c@ {
                            law_rotation_reflexive(c@);
                        }
                        assert(rotation_of(r@[k]@, arranged(self@, perms@[j]@)));
                    } else {
                        let k = choose|k: int| 0 <= k < r_before.len() && rotation_of(r_before[k]@, arranged(self@, perms@[j]@));
                        assert(r@[k] == r_before[k]);
                    }
                }
            }
            m = m + 1;
        }
        proof {
            assert forall|k: int| 0 <= k < r.len() implies is_arrangement(self@, #[trigger] r@[k]@) by {
                let c = r@[k]@;
                let p = choose|p: Seq<usize>| is_permutation(p, 1, n as int) && #[trigger] r@[k]@ == arranged(self@, p);
                assert(r@[k]@ == arranged(self@, p));
                assert(is_permutation(p, 1, self@.len() as int));
            }
            assert forall|k: int| 0 <= k < r.len() implies (#[trigger] r@[k]@).len() == self@.len() && r@[k]@[0] == self@[0] by {
                let p = choose|p: Seq<usize>| is_permutation(p, 1, n as int) && #[trigger] r@[k]@ == arranged(self@, p);
                assert(r@[k]@ == arranged(self@, p));
            }
            if self@.no_duplicates() {
                assert forall|a: int, b: int| 0 <= a < b < r.len() implies !rotation_of(#[trigger] r@[a]@, #[trigger] r@[b]@) by {
                    assert(r@[a]@ == arranged(self@, perms@[a]@));
                    assert(r@[b]@ == arranged(self@, perms@[b]@));
                    if rotation_of(r@[a]@, r@[b]@) {
                        lemma_arranged_rotation(self@, perms@[a]@, perms@[b]@);
                    }
                }
            }
        }
        r
    }
}

/// Every cyclic order equals itself: every sequence is a rotation of itself.
pub proof fn law_rotation_reflexive<T>(s: Seq<T>)
    ensures
        rotation_of(s, s),
{
    if s.len() > 0 {
        assert forall|i: int| 0 <= i < s.len() implies s[i] == #[trigger] s[(0 + i) % (s.len() as int)] by {
            vstd::arithmetic::div_mod::lemma_small_mod(i as nat, s.len());
        }
        assert(rotated_by(s, s, 0));
    }
}

proof fn lemma_mod_once(x: int, n: int)
    requires
        0 < n,
        0 <= x < 2 * n,
    ensures
        x % n == (if x < n { x } else { x - n }),
{
    if x < n {
        vstd::arithmetic::div_mod::lemma_small_mod(x as nat, n as nat);
    } else {
        vstd::arithmetic::div_mod::lemma_small_mod((x - n) as nat, n as nat);
        vstd::arithmetic::div_mod::lemma_mod_sub_multiples_vanish(x, n);
    }
}

/// A rotation undone: if `t` read from `offset` on is `s`, then `s` read from `n - offset` on
/// is `t`.
pub proof fn law_rotation_symmetric<T>(s: Seq<T>, t: Seq<T>)
    requires
        rotation_of(s, t),
    ensures
        rotation_of(t, s),
{
    let n = s.len() as int;
    if n > 0 {
        let o = choose|o: int| 0 <= o < n && #[trigger] rotated_by(s, t, o);
        let back = if o == 0 { 0 } else { n - o };
        assert forall|i: int| 0 <= i < n implies t[i] == #[trigger] s[(back + i) % n] by {
            lemma_mod_once(back + i, n);
            let k = (back + i) % n;
            assert(s[k] == t[(o + k) % n]);
            lemma_mod_once(o + k, n);
        }
        assert(rotated_by(t, s, back));
    }
}

/// Rotations compose: a rotation of a rotation is a rotation.
pub proof fn law_rotation_transitive<T>(s: Seq<T>, t: Seq<T>, u: Seq<T>)
    requires
        rotation_of(s, t),
        rotation_of(t, u),
    ensures
        rotation_of(s, u),
{
    let n = s.len() as int;
    if n > 0 {
        let o1 = choose|o: int| 0 <= o < n && #[trigger] rotated_by(s, t, o);
        let o2 = choose|o: int| 0 <= o < n && #[trigger] rotated_by(t, u, o);
        lemma_mod_once(o1 + o2, n);
        let o = (o1 + o2) % n;
        assert forall|i: int| 0 <= i < n implies s[i] == #[trigger] u[(o + i) % n] by {
            lemma_mod_once(o1 + i, n);
            let k = (o1 + i) % n;
            assert(s[i] == t[k]);
            assert(t[k] == u[(o2 + k) % n]);
            lemma_mod_once(o2 + k, n);
            lemma_mod_once(o + i, n);
        }
        assert(rotated_by(s, u, o));
    }
}

/// The element after `x` in `s`, read cyclically: what `CyclicOrder::next` returns.
pub open spec fn next_in<T>(s: Seq<T>, x: T) -> T {
    s[(first_pos(s, x) + 1) % (s.len() as int)]
}

/// Reversing an order twice gives it back, and on an order without repeated elements, `y`
/// follows `x` exactly when `x` follows `y` in the reversed order.
pub proof fn law_rev_next_seq<T>(s: Seq<T>, x: T, y: T)
    requires
        s.no_duplicates(),
        s.contains(x),
        s.contains(y),
    ensures
        s.reverse().reverse() == s,
        (next_in(s.reverse(), y) == x) <==> (next_in(s, x) == y),
{
    let n = s.len() as int;
    let r = s.reverse();
    assert(r.reverse() =~= s);
    lemma_first_pos(s, x);
    lemma_first_pos(s, y);
    let i = first_pos(s, x);
    let j = first_pos(s, y);
    assert(r[n - 1 - j] == y);
    assert(r.contains(y));
    lemma_first_pos(r, y);
    let jr = first_pos(r, y);
    assert(jr == n - 1 - j) by {
        if jr < n - 1 - j {
            assert(r[jr] == s[n - 1 - jr]);
        }
    }
    let a = (i + 1) % n;
    let b = (jr + 1) % n;
    assert(a == if i + 1 < n { i + 1 } else { 0 }) by (nonlinear_arith)
        requires
            0 <= i < n,
            a == (i + 1) % n,
    ;
    assert(b == if jr + 1 < n { jr + 1 } else { 0 }) by (nonlinear_arith)
        requires
            0 <= jr < n,
            b == (jr + 1) % n,
    ;
    assert(next_in(s, x) == s[a]);
    assert(next_in(r, y) == r[b]);
    assert(r[b] == s[n - 1 - b]);
    if next_in(s, x) == y {
        assert(s[a] == s[j]);
        assert(a == j);
        assert(n - 1 - b == i);
    }
    if next_in(r, y) == x {
        assert(s[n - 1 - b] == s[i]);
        assert(n - 1 - b == i);
        assert(a == j);
    }
}

impl CyclicOrder<usize> {
    /// The text form: the elements between round brackets, separated by commas, as in
    /// `(0, 2, 1)`.
    pub fn to_string(&self) -> (r: String)
        ensures
            r@ == seq!['('] + decimals(self@) + seq![')'],
    {
        let mut out: Vec<char> = Vec::new();
        out.push('(');
        push_decimals(&mut out, &self.data);
        out.push(')');
        proof {
            assert(out@ =~= seq!['('] + decimals(self@) + seq![')']);
        }
        string_of(out)
    }
}

impl<T> CyclicOrder<T> {
    /// `rev` undoes itself, and on an order without repeated elements `next` runs backwards
    /// on the reversed order: with `r` the result of `self.rev()`, `r.rev()` gives `self`
    /// back, and `r.next(y) == x` exactly when `self.next(x) == y`.
    pub proof fn law_rev_next(self, r: Self, x: T, y: T)
        requires
            r@ == self@.reverse(),
            self@.no_duplicates(),
            self@.contains(x),
            self@.contains(y),
        ensures
            r@.reverse() == self@,
            (next_in(r@, y) == x) <==> (next_in(self@, x) == y),
    {
        law_rev_next_seq(self@, x, y);
    }
}

} // verus!
