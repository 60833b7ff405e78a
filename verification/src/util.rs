use vstd::prelude::*;
use uf_rush::UFRush;
use crate::collections::comb_map::{filter_keep, move_filter};

verus! {

/// A marker for traits whose implementations stay within this crate.
pub trait Sealed {}

/// The binomial coefficient `n` choose `k`, by Pascal's rule.
pub open spec fn binom(n: nat, k: nat) -> nat
    decreases n,
{
    if k == 0 {
        1
    } else if n == 0 {
        0
    } else {
        binom((n - 1) as nat, (k - 1) as nat) + binom((n - 1) as nat, k)
    }
}

/// There are no subsets larger than the set.
pub proof fn lemma_binom_zero(n: nat, k: nat)
    requires
        k > n,
    ensures
        binom(n, k) == 0,
    decreases n,
{
    if n > 0 {
        lemma_binom_zero((n - 1) as nat, (k - 1) as nat);
        lemma_binom_zero((n - 1) as nat, k);
    }
}

/// There is one subset as large as the set.
pub proof fn lemma_binom_full(n: nat)
    ensures
        binom(n, n) == 1,
    decreases n,
{
    if n > 0 {
        lemma_binom_full((n - 1) as nat);
        lemma_binom_zero((n - 1) as nat, n);
    }
}

/// The absorption identity `(k + 1) C(n, k + 1) == (n - k) C(n, k)`.
pub proof fn lemma_binom_absorb(n: nat, k: nat)
    requires
        k <= n,
    ensures
        (k + 1) * binom(n, k + 1) == (n - k) * binom(n, k),
    decreases n,
{
    if k == n {
        lemma_binom_zero(n, k + 1);
    } else {
        let m = (n - 1) as nat;
        lemma_binom_absorb(m, k);
        let a = binom(m, k);
        let b = binom(m, k + 1);
        assert(binom(n, k + 1) == a + b);
        assert((k + 1) * binom(n, k + 1) == n * a) by (nonlinear_arith)
            requires
                binom(n, k + 1) == a + b,
                (k + 1) * b == (m - k) * a,
                m == n - 1,
        ;
        if k == 0 {
            assert(binom(n, 0) == 1);
            assert(binom(m, 0) == 1);
        } else {
            let km = (k - 1) as nat;
            lemma_binom_absorb(m, km);
            let c = binom(m, km);
            assert(binom(n, k) == c + a);
            assert((n - k) * binom(n, k) == n * a) by (nonlinear_arith)
                requires
                    binom(n, k) == c + a,
                    (km + 1) * a == (m - km) * c,
                    km == k - 1,
                    m == n - 1,
        ;
        }
    }
}

/// Choosing `k` is choosing the `n - k` left out.
pub proof fn lemma_binom_symmetric(n: nat, k: nat)
    requires
        k <= n,
    ensures
        binom(n, k) == binom(n, (n - k) as nat),
    decreases n,
{
    if k == 0 {
        lemma_binom_full(n);
    } else if k == n {
        lemma_binom_full(n);
    } else {
        let m = (n - 1) as nat;
        lemma_binom_symmetric(m, (k - 1) as nat);
        lemma_binom_symmetric(m, k);
        assert(binom(n, (n - k) as nat) == binom(m, (n - k - 1) as nat) + binom(m, (n - k) as nat));
    }
}

/// The intermediate products of `binomial(n, k)` fit in `u128`: with `m` the smaller of `k`
/// and `n - k`, each `C(n, i - 1) * (n + 1 - i)` for `1 <= i <= m`.
pub open spec fn binomial_fits(n: u128, k: u128) -> bool {
    let m = if k <= n - k { k } else { (n - k) as u128 };
    k <= n ==> forall|i: nat| 1 <= i <= m ==> #[trigger] binomial_step(n as nat, i) <= u128::MAX
}

/// The product `C(n, i - 1) * (n + 1 - i)`, which is `i * C(n, i)`.
pub open spec fn binomial_step(n: nat, i: nat) -> int {
    binom(n, (i - 1) as nat) * (n + 1 - i)
}

/// A subset of a set has at least one subset of each size up to its own.
pub proof fn lemma_binom_pos(n: nat, k: nat)
    requires
        k <= n,
    ensures
        binom(n, k) >= 1,
    decreases n,
{
    if k > 0 {
        lemma_binom_pos((n - 1) as nat, (k - 1) as nat);
    }
}

/// The binomial coefficient `n` choose `k`, or `None` when one of the products formed on the
/// way (see `binomial_fits`) exceeds `u128`.
pub fn checked_binomial(n: u128, k: u128) -> (r: Option<u128>)
    ensures
        r is Some <==> binomial_fits(n, k),
        r matches Some(v) ==> v == binom(n as nat, k as nat),
{
    if k > n {
        proof {
            lemma_binom_zero(n as nat, k as nat);
        }
        return Some(0);
    }
    let m: u128 = if k <= n - k { k } else { n - k };
    proof {
        lemma_binom_symmetric(n as nat, k as nat);
    }
    let mut c_nk: u128 = 1;
    let mut i: u128 = 1;
    while i <= m
        invariant
            1 <= i <= m + 1,
            m <= n,
            k <= n,
            m == (if k <= n - k { k } else { (n - k) as u128 }),
            c_nk == binom(n as nat, (i - 1) as nat),
            forall|j: nat| 1 <= j < i ==> #[trigger] binomial_step(n as nat, j) <= u128::MAX,
        decreases m + 1 - i,
    {
        let step = c_nk.checked_mul(n - i + 1);
        match step {
            None => {
                proof {
                    assert(binomial_step(n as nat, i as nat) > u128::MAX);
                }
                return None;
            },
            Some(prod) => {
                proof {
                    lemma_binom_absorb(n as nat, (i - 1) as nat);
                    let b = binom(n as nat, i as nat);
                    let x = binom(n as nat, (i - 1) as nat);
                    assert(prod == i * b) by (nonlinear_arith)
                        requires
                            prod == x * (n - i + 1),
                            i * b == (n - (i - 1)) * x,
                    ;
                    assert((i * b) / (i as int) == b) by (nonlinear_arith)
                        requires
                            i >= 1,
                    ;
                    assert(binomial_step(n as nat, i as nat) == prod);
                }
                c_nk = prod / i;
            },
        }
        i = i + 1;
    }
    Some(c_nk)
}

/// The binomial coefficient `n` choose `k` (zero when `k > n`).
pub fn binomial(n: u128, k: u128) -> (r: u128)
    requires
        binomial_fits(n, k),
    ensures
        r == binom(n as nat, k as nat),
{
    match checked_binomial(n, k) {
        Some(v) => v,
        None => 0,
    }
}

/// The double factorial `n!!`, the product of the positive integers up to `n` with the
/// parity of `n` (1 for `n <= 1`).
pub open spec fn double_fact(n: int) -> int
    decreases n,
{
    if n <= 1 {
        1
    } else {
        n * double_fact(n - 2)
    }
}

pub proof fn lemma_double_fact_pos(n: int)
    ensures
        double_fact(n) >= 1,
    decreases n,
{
    if n > 1 {
        lemma_double_fact_pos(n - 2);
        assert(n * double_fact(n - 2) >= 1) by (nonlinear_arith)
            requires
                n > 1,
                double_fact(n - 2) >= 1,
        ;
    }
}

pub proof fn lemma_double_fact_mono(k: int, n: int)
    requires
        -1 <= k <= n,
        (n - k) % 2 == 0,
    ensures
        double_fact(k) <= double_fact(n),
    decreases n - k,
{
    if k < n {
        lemma_double_fact_mono(k, n - 2);
        lemma_double_fact_pos(n - 2);
        assert(double_fact(n - 2) <= n * double_fact(n - 2)) by (nonlinear_arith)
            requires
                n >= 1,
                double_fact(n - 2) >= 1,
        ;
    }
}

/// The double factorial `n!!`; at `u128::MAX`, which stands for `-1`, it is 1.
pub fn double_factorial(n: u128) -> (r: u128)
    requires
        n == u128::MAX || double_fact(n as int) <= u128::MAX,
    ensures
        n == u128::MAX ==> r == 1,
        n < u128::MAX ==> r == double_fact(n as int),
{
    if n == u128::MAX {
        return 1;
    }
    let mut k: u128 = if n % 2 == 0 { 2 } else { 1 };
    let mut prod: u128 = 1;
    while k <= n
        invariant_except_break
            prod == double_fact(k - 2),
        invariant
            1 <= k <= n + 2,
            (n - k) % 2 == 0,
            n < u128::MAX,
            double_fact(n as int) <= u128::MAX,
        ensures
            prod == double_fact(n as int),
        decreases n + 2 - k,
    {
        proof {
            lemma_double_fact_mono(k as int, n as int);
            assert(double_fact(k as int) == k * double_fact(k - 2));
            assert(prod * k == double_fact(k as int)) by (nonlinear_arith)
                requires
                    prod == double_fact(k - 2),
                    double_fact(k as int) == k * double_fact(k - 2),
            ;
        }
        prod = prod * k;
        if n - k < 2 {
            break;
        }
        k = k + 2;
    }
    prod
}

/// `n` is a multiple of `d`.
pub open spec fn divides(d: int, n: int) -> bool {
    d != 0 && n % d == 0
}

/// The list of `divisors::get_divisors`: as its source shows, the divisors of `n` strictly
/// between 1 and `n`, in increasing order, except that for `n == 2` it is `[2]`. It does not
/// return for `n == 0`.
#[verifier::external_body]
fn proper_divisors(n: u128) -> (r: Vec<u128>)
    requires
        n > 0,
    ensures
        forall|i: int, j: int| 0 <= i < j < r.len() ==> r@[i] < r@[j],
        forall|d: u128| #[trigger] r@.contains(d) <==> ((1 < d < n && divides(d as int, n as int)) || (n == 2 && d == 2)),
{
    divisors::get_divisors(n)
}

/// All divisors of `n`, in increasing order.
#[verifier::spinoff_prover]
pub fn divisors(n: u128) -> (r: Vec<u128>)
    requires
        n > 0,
    ensures
        forall|i: int, j: int| 0 <= i < j < r.len() ==> r@[i] < r@[j],
        forall|d: u128| #[trigger] r@.contains(d) <==> divides(d as int, n as int),
{
    let inner = proper_divisors(n);
    let mut r: Vec<u128> = vec![1];
    let mut i: usize = 0;
    proof {
        assert(r@[0] == 1);
        assert forall|d: u128| #[trigger] inner@.contains(d) implies d > 1 by {}
    }
    while i < inner.len()
        invariant
            i <= inner.len(),
            r.len() == i + 1,
            r@[0] == 1,
            forall|j: int| 0 <= j < i ==> r@[j + 1] == inner@[j],
            forall|a: int, b: int| 0 <= a < b < inner.len() ==> inner@[a] < inner@[b],
            forall|d: u128| #[trigger] inner@.contains(d) ==> d > 1,
            forall|a: int, b: int| 0 <= a < b < r.len() ==> r@[a] < r@[b],
        decreases inner.len() - i,
    {
        proof {
            assert(inner@.contains(inner@[i as int]));
            if i > 0 {
                assert(r@[i as int] == inner@[i - 1]);
            }
        }
        r.push(inner[i]);
        i = i + 1;
    }
    let last = r[r.len() - 1];
    let ghost r0 = r@;
    proof {
        assert forall|j: int| 0 <= j < r0.len() implies r0[j] <= last && r0[j] <= n by {
            if j > 0 {
                assert(inner@.contains(inner@[j - 1]));
            }
        }
    }
    if last != n {
        r.push(n);
    }
    proof {
        assert forall|d: u128| divides(d as int, n as int) implies #[trigger] r@.contains(d) by {
            if d == 1 {
                assert(r@[0] == d);
            } else if d == n {
                if last == n {
                    assert(r@[r0.len() - 1] == d);
                } else {
                    assert(r@[r.len() - 1] == d);
                }
            } else {
                assert(d <= n) by (nonlinear_arith)
                    requires
                        d > 0,
                        n > 0,
                        n % d == 0,
                ;
                assert(inner@.contains(d));
                let j = choose|j: int| 0 <= j < inner.len() && inner@[j] == d;
                assert(r@[j + 1] == d);
            }
        }
        assert forall|d: u128| #[trigger] r@.contains(d) implies divides(d as int, n as int) by {
            let j = choose|j: int| 0 <= j < r.len() && r@[j] == d;
            if j == 0 {
                assert(d == 1);
                assert((n as int) % 1 == 0);
            } else if j < r0.len() {
                assert(inner@[j - 1] == d);
                assert(inner@.contains(d));
            } else {
                assert(d == n);
            }
        }
    }
    r
}

/// `n` after removing the fraction `1 / p` for each `p` of `primes` in turn.
pub open spec fn phi_product(n: nat, primes: Seq<u128>) -> nat
    decreases primes.len(),
{
    if primes.len() == 0 {
        n
    } else {
        let m = phi_product(n, primes.drop_last());
        (m - m / (primes.last() as nat)) as nat
    }
}

/// Euler's totient of `n` by Euler's product, given the distinct prime factors of `n`.
pub fn euler_phi_from_primes(n: u128, primes: &Vec<u128>) -> (r: u128)
    requires
        forall|i: int| 0 <= i < primes.len() ==> primes@[i] > 0,
    ensures
        r == phi_product(n as nat, primes@),
{
    let mut m: u128 = n;
    let mut i: usize = 0;
    while i < primes.len()
        invariant
            i <= primes.len(),
            forall|j: int| 0 <= j < primes.len() ==> primes@[j] > 0,
            m == phi_product(n as nat, primes@.subrange(0, i as int)),
        decreases primes.len() - i,
    {
        let p = primes[i];
        proof {
            assert(primes@.subrange(0, i + 1).drop_last() == primes@.subrange(0, i as int));
        }
        m = m - m / p;
        i = i + 1;
    }
    proof {
        assert(primes@.subrange(0, primes.len() as int) == primes@);
    }
    m
}

/// The value of a key-value pair.
pub fn entry_value<G, T>(tuple: (G, T)) -> (r: T)
    ensures
        r == tuple.1,
{
    tuple.1
}

/// `uf_rush::UFRush`, a concurrent union-find structure.
#[verifier::external_type_specification]
#[verifier::external_body]
pub struct ExUFRush(UFRush);

/// The representative of each element's class in a `UFRush`.
pub uninterp spec fn uf_reps(uf: UFRush) -> Seq<usize>;

/// `uf_rush::MAX_SIZE`: `usize::MAX` shifted right by the base-2 logarithm of `usize::BITS`.
pub open spec fn uf_max_size() -> int {
    if usize::BITS == 64 {
        0x3FF_FFFF_FFFF_FFFF
    } else {
        0x7FF_FFFF
    }
}

/// The largest number of elements for which a union-find structure is made.
pub fn uf_max_items() -> (r: usize)
    ensures
        r == uf_max_size(),
{
    if usize::BITS == 64 {
        0x3FF_FFFF_FFFF_FFFFu64 as usize
    } else {
        0x7FF_FFFFu64 as usize
    }
}

/// Every representative is in range and represents itself.
pub open spec fn uf_valid(reps: Seq<usize>) -> bool {
    forall|z: int| 0 <= z < reps.len() ==> (#[trigger] reps[z]) < reps.len() && reps[reps[z] as int] == reps[z]
}

/// The classes of `reps` after the class with representative `from` is joined to the class
/// with representative `to`.
pub open spec fn merge_into(reps: Seq<usize>, from: usize, to: usize) -> Seq<usize> {
    Seq::new(reps.len(), |z: int| if reps[z] == from || reps[z] == to { to } else { reps[z] })
}

/// `UFRush::new`: `size` singleton classes. It asserts `size <= MAX_SIZE`.
#[verifier::external_body]
fn uf_new(size: usize) -> (uf: UFRush)
    requires
        size <= uf_max_size(),
    ensures
        uf_reps(uf).len() == size,
        forall|z: int| 0 <= z < size ==> #[trigger] uf_reps(uf)[z] == z,
{
    UFRush::new(size)
}

/// `UFRush::find`: the representative of `x`. Without concurrent updates it changes no
/// class and no representative. It asserts that `x` is in range.
#[verifier::external_body]
fn uf_find(uf: &UFRush, x: usize) -> (r: usize)
    requires
        x < uf_reps(*uf).len(),
    ensures
        r == uf_reps(*uf)[x as int],
{
    uf.find(x)
}

/// `UFRush::same`: whether `x` and `y` have the same representative.
#[verifier::external_body]
fn uf_same(uf: &UFRush, x: usize, y: usize) -> (r: bool)
    requires
        x < uf_reps(*uf).len(),
        y < uf_reps(*uf).len(),
    ensures
        r == (uf_reps(*uf)[x as int] == uf_reps(*uf)[y as int]),
{
    uf.same(x, y)
}

/// `UFRush::unite`: joins the classes of `x` and `y`; one of the two representatives, chosen
/// by rank and index, represents the joined class. Returns whether the classes differed.
#[verifier::external_body]
fn uf_unite(uf: &mut UFRush, x: usize, y: usize) -> (r: bool)
    requires
        x < uf_reps(*old(uf)).len(),
        y < uf_reps(*old(uf)).len(),
    ensures
        r == (uf_reps(*old(uf))[x as int] != uf_reps(*old(uf))[y as int]),
        ({
            let a = uf_reps(*old(uf));
            uf_reps(*final(uf)) == merge_into(a, a[x as int], a[y as int])
                || uf_reps(*final(uf)) == merge_into(a, a[y as int], a[x as int])
        }),
{
    uf.unite(x, y)
}

/// What `eq` can answer on the elements at `a` and `b` of `d`, taken in increasing position.
pub open spec fn eq_pair<T, F: Fn(&T, &T) -> bool>(d: Seq<T>, eq: F, a: int, b: int, out: bool) -> bool {
    if a < b {
        call_ensures(eq, (&d[a], &d[b]), out)
    } else {
        call_ensures(eq, (&d[b], &d[a]), out)
    }
}

/// Positions `a` and `b` of `d` are the same, or `eq` finds their elements equal.
pub open spec fn eq_step<T, F: Fn(&T, &T) -> bool>(d: Seq<T>, eq: F, a: int, b: int) -> bool {
    a == b || eq_pair(d, eq, a, b, true)
}

/// `p` is a walk over positions of `d` whose every step `eq_step` allows.
pub open spec fn eq_walk<T, F: Fn(&T, &T) -> bool>(d: Seq<T>, eq: F, p: Seq<int>) -> bool {
    &&& p.len() >= 1
    &&& forall|k: int| 0 <= k < p.len() ==> 0 <= #[trigger] p[k] < d.len()
    &&& forall|k: int| 0 <= k < p.len() - 1 ==> #[trigger] eq_step(d, eq, p[k], p[k + 1])
}

/// The elements at `a` and `b` of `d` are equal by `eq` through a chain of others.
pub open spec fn eq_linked<T, F: Fn(&T, &T) -> bool>(d: Seq<T>, eq: F, a: int, b: int) -> bool {
    exists|p: Seq<int>| #[trigger] eq_walk(d, eq, p) && p[0] == a && p.last() == b
}

/// The element at `j` of `d` is linked by `eq` to an element that `keep` marks.
pub open spec fn linked_to_kept<T, F: Fn(&T, &T) -> bool>(d: Seq<T>, eq: F, keep: Seq<bool>, j: int) -> bool {
    exists|i: int| 0 <= i < d.len() && keep[i] && #[trigger] eq_linked(d, eq, j, i)
}

proof fn lemma_linked_refl<T, F: Fn(&T, &T) -> bool>(d: Seq<T>, eq: F, a: int)
    requires
        0 <= a < d.len(),
    ensures
        eq_linked(d, eq, a, a),
{
    let p = seq![a];
    assert(eq_walk(d, eq, p));
}

proof fn lemma_linked_step<T, F: Fn(&T, &T) -> bool>(d: Seq<T>, eq: F, a: int, b: int)
    requires
        0 <= a < d.len(),
        0 <= b < d.len(),
        eq_step(d, eq, a, b),
    ensures
        eq_linked(d, eq, a, b),
{
    let p = seq![a, b];
    assert(eq_step(d, eq, p[0], p[1]));
    assert(eq_walk(d, eq, p));
}

proof fn lemma_linked_rev<T, F: Fn(&T, &T) -> bool>(d: Seq<T>, eq: F, a: int, b: int)
    requires
        eq_linked(d, eq, a, b),
    ensures
        eq_linked(d, eq, b, a),
{
    let p = choose|p: Seq<int>| #[trigger] eq_walk(d, eq, p) && p[0] == a && p.last() == b;
    let n = p.len();
    let q = Seq::new(n, |k: int| p[n - 1 - k]);
    assert forall|k: int| 0 <= k < q.len() - 1 implies #[trigger] eq_step(d, eq, q[k], q[k + 1]) by {
        assert(eq_step(d, eq, p[n - 2 - k], p[n - 2 - k + 1]));
    }
    assert forall|k: int| 0 <= k < q.len() implies 0 <= #[trigger] q[k] < d.len() by {
        assert(0 <= p[n - 1 - k] < d.len());
    }
    assert(eq_walk(d, eq, q));
}

proof fn lemma_linked_trans<T, F: Fn(&T, &T) -> bool>(d: Seq<T>, eq: F, a: int, b: int, c: int)
    requires
        eq_linked(d, eq, a, b),
        eq_linked(d, eq, b, c),
    ensures
        eq_linked(d, eq, a, c),
{
    let p = choose|p: Seq<int>| #[trigger] eq_walk(d, eq, p) && p[0] == a && p.last() == b;
    let q = choose|q: Seq<int>| #[trigger] eq_walk(d, eq, q) && q[0] == b && q.last() == c;
    let r = p + q.skip(1);
    assert forall|k: int| 0 <= k < r.len() implies 0 <= #[trigger] r[k] < d.len() by {
        if k >= p.len() {
            assert(r[k] == q[k - p.len() + 1]);
        }
    }
    assert forall|k: int| 0 <= k < r.len() - 1 implies #[trigger] eq_step(d, eq, r[k], r[k + 1]) by {
        if k < p.len() - 1 {
            assert(eq_step(d, eq, p[k], p[k + 1]));
        } else if k == p.len() - 1 {
            assert(r[k + 1] == q[1]);
            assert(eq_step(d, eq, q[0], q[1]));
        } else {
            let m = k - p.len() + 1;
            assert(r[k] == q[m] && r[k + 1] == q[m + 1]);
            assert(eq_step(d, eq, q[m], q[m + 1]));
        }
    }
    assert(eq_walk(d, eq, r));
    if q.len() == 1 {
        assert(r =~= p);
    } else {
        assert(r.last() == q.last());
    }
}

/// `after` keeps some elements of `before`, in order: no two kept elements are equal by `eq`,
/// every dropped element was found equal to another one, and every element is linked by
/// `eq` to a kept one, so that each class keeps an element.
pub open spec fn deduped_by<T, F: Fn(&T, &T) -> bool>(before: Seq<T>, after: Seq<T>, eq: F) -> bool {
    exists|keep: Seq<bool>| #[trigger] filter_keep(before, keep) == after && {
        &&& keep.len() == before.len()
        &&& forall|i: int, j: int| 0 <= i < j < before.len() && keep[i] && keep[j] ==> eq_pair(before, eq, i, j, false)
        &&& forall|j: int| 0 <= j < before.len() && !keep[j] ==> exists|i: int| 0 <= i < before.len() && i != j && #[trigger] eq_pair(before, eq, i, j, true)
        &&& before.len() > 0 ==> exists|i: int| 0 <= i < before.len() && keep[i]
        &&& forall|j: int| 0 <= j < before.len() ==> #[trigger] linked_to_kept(before, eq, keep, j)
    }
}

/// The pair `(a, b)` with `a < b` comes before `(i, j)` in the order in which `dedup_unions`
/// visits pairs.
pub open spec fn pair_before(a: int, b: int, i: int, j: int) -> bool {
    a < i || (a == i && b < j)
}

proof fn lemma_merge_valid(reps: Seq<usize>, from: usize, to: usize)
    requires
        uf_valid(reps),
        from < reps.len(),
        to < reps.len(),
        reps[from as int] == from,
        reps[to as int] == to,
    ensures
        uf_valid(merge_into(reps, from, to)),
        merge_into(reps, from, to).len() == reps.len(),
{
    let m = merge_into(reps, from, to);
    assert forall|z: int| 0 <= z < m.len() implies (#[trigger] m[z]) < m.len() && m[m[z] as int] == m[z] by {
        assert(reps[reps[z] as int] == reps[z]);
    }
}

/// Joins, for each pair `i < j` in turn, the classes of `i` and `j` when they differ and
/// `eq` finds the elements equal.
fn dedup_unions<T, F: Fn(&T, &T) -> bool>(data: &Vec<T>, eq: &F) -> (uf: UFRush)
    requires
        data.len() <= uf_max_size(),
        forall|i: int, j: int| 0 <= i < j < data.len() ==> call_requires(*eq, (&data@[i], &data@[j])),
    ensures
        uf_reps(uf).len() == data.len(),
        uf_valid(uf_reps(uf)),
        forall|a: int, b: int| 0 <= a < b < data.len() ==>
            uf_reps(uf)[a] == uf_reps(uf)[b] || #[trigger] eq_pair(data@, *eq, a, b, false),
        forall|z: int| 0 <= z < data.len() && uf_reps(uf)[z] != z ==>
            exists|w: int| 0 <= w < data.len() && w != z && #[trigger] eq_pair(data@, *eq, z, w, true),
        forall|z: int| 0 <= z < data.len() ==> eq_linked(data@, *eq, z, #[trigger] uf_reps(uf)[z] as int),
{
    let n = data.len();
    let mut uf = uf_new(n);
    proof {
        assert forall|z: int| 0 <= z < n implies eq_linked(data@, *eq, z, #[trigger] uf_reps(uf)[z] as int) by {
            lemma_linked_refl(data@, *eq, z);
        }
    }
    let mut i: usize = 0;
    while i < n
        invariant
            n == data.len(),
            i <= n,
            uf_reps(uf).len() == n,
            uf_valid(uf_reps(uf)),
            forall|a: int, b: int| 0 <= a < b < n ==> call_requires(*eq, (&data@[a], &data@[b])),
            forall|a: int, b: int| 0 <= a < b < n && a < i ==>
                uf_reps(uf)[a] == uf_reps(uf)[b] || #[trigger] eq_pair(data@, *eq, a, b, false),
            forall|z: int, y: int| 0 <= z < n && 0 <= y < n && z != y && (#[trigger] uf_reps(uf)[z]) == #[trigger] uf_reps(uf)[y] ==>
                exists|w: int| 0 <= w < n && w != z && #[trigger] eq_pair(data@, *eq, z, w, true),
            forall|z: int| 0 <= z < n ==> eq_linked(data@, *eq, z, #[trigger] uf_reps(uf)[z] as int),
        decreases n - i,
    {
        let mut j: usize = i + 1;
        while j < n
            invariant
                n == data.len(),
                i < n,
                i + 1 <= j <= n,
                uf_reps(uf).len() == n,
                uf_valid(uf_reps(uf)),
                forall|a: int, b: int| 0 <= a < b < n ==> call_requires(*eq, (&data@[a], &data@[b])),
                forall|a: int, b: int| 0 <= a < b < n && pair_before(a, b, i as int, j as int) ==>
                    uf_reps(uf)[a] == uf_reps(uf)[b] || #[trigger] eq_pair(data@, *eq, a, b, false),
                forall|z: int, y: int| 0 <= z < n && 0 <= y < n && z != y && (#[trigger] uf_reps(uf)[z]) == #[trigger] uf_reps(uf)[y] ==>
                    exists|w: int| 0 <= w < n && w != z && #[trigger] eq_pair(data@, *eq, z, w, true),
                forall|z: int| 0 <= z < n ==> eq_linked(data@, *eq, z, #[trigger] uf_reps(uf)[z] as int),
            decreases n - j,
        {
            if !uf_same(&uf, i, j) {
                if eq(&data[i], &data[j]) {
                    let ghost a = uf_reps(uf);
                    uf_unite(&mut uf, i, j);
                    proof {
                        let ri = a[i as int];
                        let rj = a[j as int];
                        assert(eq_pair(data@, *eq, i as int, j as int, true));
                        assert(eq_pair(data@, *eq, j as int, i as int, true));
                        let b = uf_reps(uf);
                        if b == merge_into(a, ri, rj) {
                            lemma_merge_valid(a, ri, rj);
                        } else {
                            lemma_merge_valid(a, rj, ri);
                        }
                        assert forall|x: int, y: int| 0 <= x < y < n && pair_before(x, y, i as int, j + 1) implies
                            b[x] == b[y] || #[trigger] eq_pair(data@, *eq, x, y, false) by {
                            if x == i && y == j {
                            } else {
                                assert(pair_before(x, y, i as int, j as int));
                                if a[x] == a[y] {
                                }
                            }
                        }
                        assert(eq_linked(data@, *eq, i as int, ri as int));
                        assert(eq_linked(data@, *eq, j as int, rj as int));
                        lemma_linked_step(data@, *eq, i as int, j as int);
                        lemma_linked_rev(data@, *eq, i as int, ri as int);
                        lemma_linked_trans(data@, *eq, ri as int, i as int, j as int);
                        lemma_linked_trans(data@, *eq, ri as int, j as int, rj as int);
                        lemma_linked_rev(data@, *eq, ri as int, rj as int);
                        assert forall|z: int| 0 <= z < n implies eq_linked(data@, *eq, z, #[trigger] b[z] as int) by {
                            assert(eq_linked(data@, *eq, z, a[z] as int));
                            if a[z] == ri && b[z] == rj {
                                lemma_linked_trans(data@, *eq, z, ri as int, rj as int);
                            } else if a[z] == rj && b[z] == ri {
                                lemma_linked_trans(data@, *eq, z, rj as int, ri as int);
                            }
                        }
                        assert forall|z: int, y: int| 0 <= z < n && 0 <= y < n && z != y && (#[trigger] b[z]) == #[trigger] b[y] implies
                            exists|w: int| 0 <= w < n && w != z && #[trigger] eq_pair(data@, *eq, z, w, true) by {
                            if a[z] == a[y] {
                                assert(a[z] == a[y]);
                            } else if a[z] == ri || a[z] == rj {
                                let zc = if a[z] == ri { i as int } else { j as int };
                                let other = if a[z] == ri { j as int } else { i as int };
                                if z == zc {
                                    assert(eq_pair(data@, *eq, z, other, true));
                                } else {
                                    assert(a[z] == a[zc]);
                                }
                            } else {
                                assert(b[z] == a[z]);
                                assert(a[y] == ri || a[y] == rj);
                                assert(b[y] == ri || b[y] == rj);
                                assert(a[a[z] as int] == a[z]);
                                assert(false);
                            }
                        }
                    }
                } else {
                    proof {
                        assert(eq_pair(data@, *eq, i as int, j as int, false));
                    }
                }
            }
            j = j + 1;
        }
        i = i + 1;
    }
    proof {
        assert forall|z: int| 0 <= z < n && uf_reps(uf)[z] != z implies
            exists|w: int| 0 <= w < n && w != z && #[trigger] eq_pair(data@, *eq, z, w, true) by {
            let y = uf_reps(uf)[z] as int;
            assert(uf_reps(uf)[y] == uf_reps(uf)[z]);
        }
    }
    uf
}

/// Removes duplicates: of elements that `eq` finds equal, directly or through others, one
/// is kept.
pub fn par_dedup<T, F: Fn(&T, &T) -> bool>(data: &mut Vec<T>, eq: F)
    requires
        old(data).len() <= uf_max_size(),
        forall|i: int, j: int| 0 <= i < j < old(data).len() ==> call_requires(eq, (&old(data)@[i], &old(data)@[j])),
    ensures
        deduped_by(old(data)@, final(data)@, eq),
{
    let uf = dedup_unions(data, &eq);
    let n = data.len();
    let mut keep: Vec<bool> = Vec::new();
    let mut i: usize = 0;
    while i < n
        invariant
            n == data.len(),
            i <= n,
            uf_reps(uf).len() == n,
            keep.len() == i,
            forall|z: int| 0 <= z < i ==> keep@[z] == (uf_reps(uf)[z] == z),
        decreases n - i,
    {
        keep.push(uf_find(&uf, i) == i);
        i = i + 1;
    }
    let ghost d = data@;
    let mut items: Vec<T> = Vec::new();
    core::mem::swap(data, &mut items);
    *data = move_filter(items, &keep);
    proof {
        let reps = uf_reps(uf);
        let k = keep@;
        assert forall|a: int, b: int| 0 <= a < b < d.len() && k[a] && k[b] implies eq_pair(d, eq, a, b, false) by {
            assert(eq_pair(d, eq, a, b, false) || reps[a] == reps[b]);
        }
        assert forall|j: int| 0 <= j < d.len() && !k[j] implies
            exists|w: int| 0 <= w < d.len() && w != j && #[trigger] eq_pair(d, eq, w, j, true) by {
            let w = choose|w: int| 0 <= w < d.len() && w != j && #[trigger] eq_pair(d, eq, j, w, true);
            assert(eq_pair(d, eq, w, j, true));
        }
        if d.len() > 0 {
            let r0 = reps[0] as int;
            assert(k[r0]);
        }
        assert forall|j: int| 0 <= j < d.len() implies #[trigger] linked_to_kept(d, eq, k, j) by {
            let r = reps[j] as int;
            assert(eq_linked(d, eq, j, reps[j] as int));
            assert(k[r]);
        }
        assert(filter_keep(d, k) == data@);
    }
}

/// An iterator that knows, when it can, how many items it has left.
#[derive(Clone, Debug)]
pub struct SizedIter<I> {
    pub iter: I,
    pub n_remaining: Option<usize>,
}

impl<I: Iterator> SizedIter<I> {
    /// The next item of the inner iterator; the count of items left goes down by one, and
    /// stays at zero.
    pub fn next(&mut self) -> (r: Option<I::Item>)
        ensures
            final(self).n_remaining == match old(self).n_remaining {
                Some(n) => Some(if n == 0 { 0usize } else { (n - 1) as usize }),
                None => None,
            },
    {
        let item = self.iter.next();
        self.n_remaining = match self.n_remaining {
            Some(n) => Some(n.saturating_sub(1)),
            None => None,
        };
        item
    }

    /// The bounds on the number of items left: exact when the count is known, else none.
    pub fn size_hint(&self) -> (r: (usize, Option<usize>))
        ensures
            r == match self.n_remaining {
                Some(n) => (n, Some(n)),
                None => (0usize, None),
            },
    {
        match self.n_remaining {
            Some(n) => (n, Some(n)),
            None => (0, None),
        }
    }
}

/// `a` and `b` have no common divisor above 1.
pub open spec fn coprime(a: int, b: int) -> bool {
    forall|d: int| d > 1 ==> !(#[trigger] divides(d, a) && divides(d, b))
}

/// The number of `1..=x` that are coprime to `n`.
pub open spec fn coprimes_upto(n: int, x: int) -> nat
    decreases x,
{
    if x <= 0 {
        0
    } else {
        coprimes_upto(n, x - 1) + if coprime(x, n) { 1nat } else { 0nat }
    }
}

/// Euler's totient: the number of `1..=n` that are coprime to `n`.
pub open spec fn totient(n: int) -> nat {
    coprimes_upto(n, n)
}

/// 1 is coprime to every positive `n`, so its totient is positive.
pub proof fn lemma_totient_pos(n: int)
    requires
        n >= 1,
    ensures
        totient(n) >= 1,
{
    assert(coprime(1, n)) by {
        assert forall|d: int| d > 1 implies !(#[trigger] divides(d, 1) && divides(d, n)) by {
            assert(1int % d == 1) by (nonlinear_arith)
                requires
                    d > 1,
            ;
        }
    }
    lemma_coprimes_upto_mono(n, 1, n);
}

proof fn lemma_coprimes_upto_mono(n: int, a: int, b: int)
    requires
        a <= b,
    ensures
        coprimes_upto(n, a) <= coprimes_upto(n, b),
    decreases b - a,
{
    if a < b {
        lemma_coprimes_upto_mono(n, a, b - 1);
    }
}

/// One step of Euclid's algorithm keeps the common divisors: `d` divides `x` and `y` exactly
/// when it divides `y` and `x % y`.
proof fn lemma_euclid_step(x: int, y: int, d: int)
    requires
        x >= 0,
        y > 0,
        d > 1,
    ensures
        (divides(d, x) && divides(d, y)) <==> (divides(d, y) && divides(d, x % y)),
{
    let q = x / y;
    let r = x % y;
    assert(x == q * y + r) by {
        vstd::arithmetic::div_mod::lemma_fundamental_div_mod(x, y);
    }
    if divides(d, y) {
        let s = y / d;
        assert(y == d * s) by {
            vstd::arithmetic::div_mod::lemma_fundamental_div_mod(y, d);
        }
        if divides(d, x) {
            let t = x / d;
            assert(x == d * t) by {
                vstd::arithmetic::div_mod::lemma_fundamental_div_mod(x, d);
            }
            assert(r == d * (t - q * s)) by (nonlinear_arith)
                requires
                    x == q * y + r,
                    y == d * s,
                    x == d * t,
            ;
            vstd::arithmetic::div_mod::lemma_mod_multiples_basic(t - q * s, d);
            assert((t - q * s) * d == d * (t - q * s)) by (nonlinear_arith);
        }
        if divides(d, r) {
            let u = r / d;
            assert(r == d * u) by {
                vstd::arithmetic::div_mod::lemma_fundamental_div_mod(r, d);
            }
            assert(x == d * (q * s + u)) by (nonlinear_arith)
                requires
                    x == q * y + r,
                    y == d * s,
                    r == d * u,
            ;
            vstd::arithmetic::div_mod::lemma_mod_multiples_basic(q * s + u, d);
            assert((q * s + u) * d == d * (q * s + u)) by (nonlinear_arith);
        }
    }
}

/// Whether `a` and `b` are coprime, by Euclid's algorithm.
pub fn is_coprime(a: u128, b: u128) -> (r: bool)
    ensures
        r == coprime(a as int, b as int),
{
    let mut x = a;
    let mut y = b;
    while y > 0
        invariant
            forall|d: int| d > 1 ==> ((divides(d, x as int) && divides(d, y as int)) <==> (divides(d, a as int) && divides(d, b as int))),
        decreases y,
    {
        let r = x % y;
        proof {
            assert forall|d: int| d > 1 implies ((divides(d, y as int) && divides(d, r as int)) <==> (divides(d, a as int) && divides(d, b as int))) by {
                lemma_euclid_step(x as int, y as int, d);
            }
        }
        x = y;
        y = r;
    }
    proof {
        assert forall|d: int| d > 1 implies divides(d, 0) by {}
        if x == 1 {
            assert forall|d: int| d > 1 implies !(#[trigger] divides(d, a as int) && divides(d, b as int)) by {
                assert(1int % d == 1) by (nonlinear_arith)
                    requires
                        d > 1,
                ;
                assert(!divides(d, x as int));
            }
        } else if x == 0 {
            assert(divides(2, x as int) && divides(2, y as int));
        } else {
            assert((x as int) % (x as int) == 0) by (nonlinear_arith)
                requires
                    x > 1,
            ;
            assert(divides(x as int, x as int) && divides(x as int, y as int));
        }
    }
    x == 1
}

/// Euler's totient of `n`: the number of `1..=n` coprime to `n`, counted one by one.
pub fn totient_by_counting(n: u128) -> (r: u128)
    ensures
        r == totient(n as int),
{
    let mut c: u128 = 0;
    let mut k: u128 = 0;
    while k < n
        invariant
            k <= n,
            c <= k,
            c == coprimes_upto(n as int, k as int),
        decreases n - k,
    {
        k = k + 1;
        if is_coprime(k, n) {
            c = c + 1;
        }
    }
    c
}

} // verus!
