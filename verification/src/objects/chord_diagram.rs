use vstd::prelude::*;
use crate::objects::cyclic_order::{rotate, first_pos, lemma_first_pos};
use crate::util::{binom, binomial_fits, checked_binomial, double_fact, divides, divisors, totient, lemma_binom_pos, lemma_totient_pos, lemma_double_fact_pos, lemma_double_fact_mono};
use vstd::arithmetic::power::{pow, lemma_pow_positive, lemma_pow_increases};
use radix_trie::Trie;
use crate::text::{decimals, push_decimals, string_of};
use vstd::string::StringSliceAdditionalSpecFns;

verus! {

/// The number of positions before `i` that hold `x`.
pub open spec fn occ(s: Seq<u8>, x: u8, i: int) -> nat
    decreases i,
{
    if i <= 0 {
        0
    } else {
        occ(s, x, i - 1) + if s[i - 1] == x { 1nat } else { 0nat }
    }
}

/// Position `i` opens a chord: its end label has occurred an even number of times before.
pub open spec fn opens(s: Seq<u8>, i: int) -> bool {
    occ(s, s[i], i) % 2 == 0
}

/// The number of positions before `i` that open a chord.
pub open spec fn openings(s: Seq<u8>, i: int) -> nat
    decreases i,
{
    if i <= 0 {
        0
    } else {
        openings(s, i - 1) + if opens(s, i - 1) { 1nat } else { 0nat }
    }
}

/// The last position before `i` that holds `x`, or -1.
pub open spec fn last_pos(s: Seq<u8>, x: u8, i: int) -> int
    decreases i,
{
    if i <= 0 {
        -1
    } else if s[i - 1] == x {
        i - 1
    } else {
        last_pos(s, x, i - 1)
    }
}

/// The label that relabelling gives position `i`: chords are numbered in the order in which
/// they open, and a position that closes a chord repeats the label of the position it closes.
pub open spec fn label_at(s: Seq<u8>, i: int) -> nat {
    if opens(s, i) {
        openings(s, i)
    } else {
        openings(s, last_pos(s, s[i], i))
    }
}

/// `s` with its chords renumbered in the order in which they open.
pub open spec fn relabelled(s: Seq<u8>) -> Seq<u8> {
    Seq::new(s.len(), |i: int| label_at(s, i) as u8)
}

/// The labels of `relabelled(s)` fit in a byte, with room to count past the last one.
pub open spec fn labels_fit(s: Seq<u8>) -> bool {
    openings(s, s.len() as int) <= 255
}

/// `a` comes before `b` in lexicographic order (for sequences of one length).
pub open spec fn lex_lt(a: Seq<u8>, b: Seq<u8>) -> bool {
    exists|i: int| 0 <= i < a.len() && #[trigger] differ_first_at(a, b, i) && a[i] < b[i]
}

/// `a` and `b` agree before position `i` and differ at it.
pub open spec fn differ_first_at(a: Seq<u8>, b: Seq<u8>, i: int) -> bool {
    &&& forall|j: int| 0 <= j < i ==> a[j] == b[j]
    &&& a[i] != b[i]
}

/// The lexicographically least of the relabelled rotations of `s` by `0..m`.
pub open spec fn least_rotation(s: Seq<u8>, m: int) -> Seq<u8>
    decreases m,
{
    if m <= 1 {
        relabelled(rotate(s, 0))
    } else {
        let best = least_rotation(s, m - 1);
        let cand = relabelled(rotate(s, m - 1));
        if lex_lt(cand, best) {
            cand
        } else {
            best
        }
    }
}

/// The canonical form of the chord diagram with ends `s`: the lexicographically least
/// relabelling of its rotations (empty for the empty diagram).
pub open spec fn canonical(s: Seq<u8>) -> Seq<u8> {
    if s.len() == 0 {
        Seq::empty()
    } else {
        least_rotation(s, s.len() as int)
    }
}

/// Every rotation of `s` has labels that fit in a byte.
pub open spec fn canon_fits(s: Seq<u8>) -> bool {
    forall|k: int| 0 <= k < s.len() ==> labels_fit(#[trigger] rotate(s, k))
}

proof fn lemma_openings_mono(s: Seq<u8>, a: int, b: int)
    requires
        0 <= a <= b,
    ensures
        openings(s, a) <= openings(s, b),
    decreases b - a,
{
    if a < b {
        lemma_openings_mono(s, a, b - 1);
    }
}

pub proof fn lemma_last_pos(s: Seq<u8>, x: u8, i: int)
    requires
        0 <= i <= s.len(),
    ensures
        -1 <= last_pos(s, x, i) < i,
        occ(s, x, i) > 0 ==> last_pos(s, x, i) >= 0,
        last_pos(s, x, i) >= 0 ==> s[last_pos(s, x, i)] == x,
        last_pos(s, x, i) >= 0 ==> occ(s, x, last_pos(s, x, i)) + 1 == occ(s, x, i),
    decreases i,
{
    if i > 0 {
        lemma_last_pos(s, x, i - 1);
    }
}

/// Relabels `v` in place, numbering its chords in the order in which they open.
#[verifier::spinoff_prover]
fn relabel(v: &mut Vec<u8>)
    requires
        labels_fit(old(v)@),
    ensures
        final(v)@ == relabelled(old(v)@),
{
    let ghost s = v@;
    let n = v.len();
    let mut mapping: Vec<u16> = Vec::new();
    let mut t: usize = 0;
    while t < 256
        invariant
            t <= 256,
            mapping.len() == t,
            forall|x: int| 0 <= x < t ==> mapping@[x] == 256,
        decreases 256 - t,
    {
        mapping.push(256);
        t = t + 1;
    }
    let mut k: u8 = 0;
    let mut i: usize = 0;
    while i < n
        invariant
            n == s.len(),
            v.len() == n,
            i <= n,
            labels_fit(s),
            k == openings(s, i as int),
            forall|j: int| 0 <= j < i ==> v@[j] == label_at(s, j) as u8,
            forall|j: int| i <= j < n ==> v@[j] == s[j],
            mapping.len() == 256,
            forall|x: u8| (#[trigger] mapping@[x as int] != 256) <==> occ(s, x, i as int) % 2 == 1,
            forall|x: u8| occ(s, x, i as int) % 2 == 1 ==> #[trigger] mapping@[x as int]
                == openings(s, last_pos(s, x, i as int)) && openings(s, last_pos(s, x, i as int)) < k,
        decreases n - i,
    {
        let x = v[i];
        let m = mapping[x as usize];
        proof {
            lemma_openings_mono(s, i + 1, n as int);
            lemma_last_pos(s, x, i as int);
            lemma_last_pos(s, x, i + 1);
            assert(occ(s, x, i + 1) == occ(s, x, i as int) + 1);
            assert forall|y: u8| y != x implies occ(s, y, i + 1) == occ(s, y, i as int)
                && last_pos(s, y, i + 1) == last_pos(s, y, i as int) by {}
        }
        if m != 256 {
            proof {
                assert(!opens(s, i as int));
                assert(openings(s, i + 1) == openings(s, i as int));
            }
            v.set(i, m as u8);
            let ghost before = mapping@;
            mapping.set(x as usize, 256);
            proof {
                assert forall|y: u8| occ(s, y, i + 1) % 2 == 1 implies #[trigger] mapping@[y as int]
                    == openings(s, last_pos(s, y, i + 1)) && openings(s, last_pos(s, y, i + 1)) < k by {
                    assert(y != x);
                    assert(mapping@[y as int] == before[y as int]);
                }
            }
        } else {
            proof {
                assert(opens(s, i as int));
                assert(openings(s, i + 1) == openings(s, i as int) + 1);
                assert(last_pos(s, x, i + 1) == i);
            }
            v.set(i, k);
            let ghost before = mapping@;
            mapping.set(x as usize, k as u16);
            k = k + 1;
            proof {
                assert forall|y: u8| occ(s, y, i + 1) % 2 == 1 implies #[trigger] mapping@[y as int]
                    == openings(s, last_pos(s, y, i + 1)) && openings(s, last_pos(s, y, i + 1)) < k by {
                    if y != x {
                        assert(mapping@[y as int] == before[y as int]);
                    }
                }
            }
        }
        i = i + 1;
    }
    proof {
        assert(v@ =~= relabelled(s));
    }
}

/// `a` comes before `b` in lexicographic order.
fn lex_less(a: &Vec<u8>, b: &Vec<u8>) -> (r: bool)
    requires
        a.len() == b.len(),
    ensures
        r == lex_lt(a@, b@),
{
    let n = a.len();
    let mut j: usize = 0;
    while j < n && a[j] == b[j]
        invariant
            j <= n,
            a.len() == n,
            b.len() == n,
            forall|i: int| 0 <= i < j ==> a@[i] == b@[i],
        decreases n - j,
    {
        j = j + 1;
    }
    if j == n {
        proof {
            assert forall|i: int| 0 <= i < a@.len() implies !(#[trigger] differ_first_at(a@, b@, i)
                && a@[i] < b@[i]) by {}
        }
        false
    } else {
        proof {
            assert(differ_first_at(a@, b@, j as int));
            assert forall|i: int| 0 <= i < a@.len() && #[trigger] differ_first_at(a@, b@, i)
                implies i == j by {
                if i < j {
                    assert(a@[i] == b@[i]);
                } else if i > j {
                    assert(a@[j as int] == b@[j as int]);
                }
            }
        }
        a[j] < b[j]
    }
}

/// The elements of `v` from position `shift` on, round the end.
fn rotated(v: &Vec<u8>, shift: usize) -> (r: Vec<u8>)
    requires
        shift <= v.len(),
    ensures
        r@ == rotate(v@, shift as int),
{
    let n = v.len();
    let mut r: Vec<u8> = Vec::new();
    let mut i: usize = shift;
    while i < n
        invariant
            shift <= i <= n,
            n == v.len(),
            r@ == v@.subrange(shift as int, i as int),
        decreases n - i,
    {
        r.push(v[i]);
        i = i + 1;
    }
    let mut j: usize = 0;
    while j < shift
        invariant
            j <= shift <= n,
            n == v.len(),
            r@ == v@.subrange(shift as int, n as int) + v@.subrange(0, j as int),
        decreases shift - j,
    {
        r.push(v[j]);
        j = j + 1;
    }
    r
}

/// Replaces `ends` by its canonical form: the lexicographically least relabelling of its
/// rotations.
fn canonicalise_ends(ends: &mut Vec<u8>)
    requires
        canon_fits(old(ends)@),
    ensures
        final(ends)@ == canonical(old(ends)@),
{
    let n = ends.len();
    if n == 0 {
        return;
    }
    let ghost s = ends@;
    let mut best = rotated(ends, 0);
    proof {
        assert(labels_fit(rotate(s, 0)));
    }
    relabel(&mut best);
    let mut shift: usize = 1;
    while shift < n
        invariant
            1 <= shift <= n,
            n == s.len(),
            ends@ == s,
            canon_fits(s),
            best@ == least_rotation(s, shift as int),
            best@.len() == n,
        decreases n - shift,
    {
        let mut cand = rotated(ends, shift);
        proof {
            assert(labels_fit(rotate(s, shift as int)));
        }
        relabel(&mut cand);
        if lex_less(&cand, &best) {
            best = cand;
        }
        shift = shift + 1;
    }
    *ends = best;
}

/// The position of the next end labelled `x` from position `start` on, or the length of `s`.
pub open spec fn next_end(s: Seq<u8>, x: u8, start: int) -> int {
    let f = first_pos(s.subrange(start, s.len() as int), x);
    if f >= 0 {
        start + f
    } else {
        s.len() as int
    }
}

/// Chord `a` crosses chord `chord` in the diagram with ends `s`: `a` has an odd number of ends
/// between the first end of `chord` and the next one (or the end of `s`).
pub open spec fn crosses(s: Seq<u8>, chord: u8, a: u8) -> bool {
    let i0 = first_pos(s, chord);
    &&& i0 >= 0
    &&& (occ(s, a, next_end(s, chord, i0 + 1)) - occ(s, a, i0 + 1)) % 2 == 1
}

proof fn lemma_occ_mono(s: Seq<u8>, x: u8, a: int, b: int)
    requires
        0 <= a <= b,
    ensures
        occ(s, x, a) <= occ(s, x, b),
    decreases b - a,
{
    if a < b {
        lemma_occ_mono(s, x, a, b - 1);
    }
}

/// A chord diagram, given by the sequence of its ends on a circle: each chord is a label that
/// occurs at both of its ends.
#[derive(Clone, Debug, Default, PartialEq, Eq, Hash)]
pub struct ChordDiagram {
    ends: Vec<u8>,
}

impl View for ChordDiagram {
    type V = Seq<u8>;

    closed spec fn view(&self) -> Seq<u8> {
        self.ends@
    }
}

impl ChordDiagram {
    /// The text form: the ends between round brackets, separated by commas, as in
    /// `(0, 1, 0, 1)`.
    pub fn to_string(&self) -> (r: String)
        ensures
            r@ == seq!['('] + decimals(self@.map_values(|e: u8| e as usize)) + seq![')'],
    {
        let mut xs: Vec<usize> = Vec::new();
        let mut i: usize = 0;
        while i < self.ends.len()
            invariant
                i <= self@.len(),
                xs@ == self@.take(i as int).map_values(|e: u8| e as usize),
            decreases self@.len() - i,
        {
            xs.push(self.ends[i] as usize);
            i = i + 1;
            proof {
                assert(xs@ =~= self@.take(i as int).map_values(|e: u8| e as usize));
            }
        }
        proof {
            assert(self@.take(i as int) =~= self@);
        }
        let mut out: Vec<char> = Vec::new();
        out.push('(');
        push_decimals(&mut out, &xs);
        out.push(')');
        proof {
            assert(out@ =~= seq!['('] + decimals(self@.map_values(|e: u8| e as usize)) + seq![')']);
        }
        string_of(out)
    }

    /// The ends of the chords, in order round the circle.
    pub fn ends(&self) -> (r: &[u8])
        ensures
            r@ == self@,
    {
        self.ends.as_slice()
    }

    /// The input is a chord diagram: every chord has two ends, so there is an even number of
    /// them.
    pub fn validate(ends: &Vec<u8>) -> (r: bool)
        ensures
            r == (ends@.len() % 2 == 0),
    {
        ends.len() % 2 == 0
    }

    /// Replaces `ends` by its canonical form: the lexicographically least relabelling of its
    /// rotations.
    pub fn canonicalise(ends: &mut Vec<u8>)
        requires
            canon_fits(old(ends)@),
        ensures
            final(ends)@ == canonical(old(ends)@),
    {
        canonicalise_ends(ends);
    }

    /// The diagram with exactly these ends, as they are.
    pub fn from_raw(ends: Vec<u8>) -> (r: Self)
        ensures
            r@ == ends@,
    {
        ChordDiagram { ends }
    }

    /// The diagram with these ends, which must be valid; they are taken as they are.
    pub fn new_unchecked(ends: Vec<u8>) -> (r: Self)
        requires
            ends@.len() % 2 == 0,
        ensures
            r@ == ends@,
    {
        ChordDiagram { ends }
    }

    /// The diagram with these ends, which must be valid, in canonical form.
    pub fn new(ends: Vec<u8>) -> (r: Self)
        requires
            ends@.len() % 2 == 0,
            canon_fits(ends@),
        ensures
            r@ == canonical(ends@),
    {
        let mut ends = ends;
        canonicalise_ends(&mut ends);
        ChordDiagram { ends }
    }

    /// The chords that cross `chord`, in increasing order: those with an odd number of ends
    /// between the first end of `chord` and the next. Empty when `chord` is not in the diagram.
    pub fn neighbours(&self, chord: u8) -> (r: Vec<u8>)
        ensures
            forall|i: int, j: int| 0 <= i < j < r@.len() ==> r@[i] < r@[j],
            forall|a: u8| #[trigger] r@.contains(a) <==> crosses(self@, chord, a),
    {
        let ghost s = self@;
        let n = self.ends.len();
        let mut i0: usize = 0;
        while i0 < n && self.ends[i0] != chord
            invariant
                i0 <= n,
                n == s.len(),
                s == self.ends@,
                forall|q: int| 0 <= q < i0 ==> s[q] != chord,
            decreases n - i0,
        {
            i0 = i0 + 1;
        }
        proof {
            lemma_first_pos(s, chord);
            let f = first_pos(s, chord);
            if i0 < n {
                assert(s.contains(chord));
                if f < i0 {
                    assert(s[f] == chord);
                } else if f > i0 {
                    assert(s[i0 as int] != chord);
                }
                assert(f == i0);
            } else {
                assert(!s.contains(chord));
            }
        }
        if i0 == n {
            let r: Vec<u8> = Vec::new();
            proof {
                assert forall|a: u8| #[trigger] r@.contains(a) <==> crosses(s, chord, a) by {}
            }
            return r;
        }
        let mut flags: Vec<bool> = Vec::new();
        let mut t: usize = 0;
        while t < 256
            invariant
                t <= 256,
                flags.len() == t,
                forall|x: int| 0 <= x < t ==> !flags@[x],
            decreases 256 - t,
        {
            flags.push(false);
            t = t + 1;
        }
        let mut j: usize = i0 + 1;
        while j < n && self.ends[j] != chord
            invariant
                i0 < j <= n,
                n == s.len(),
                s == self.ends@,
                flags.len() == 256,
                forall|q: int| i0 < q < j ==> s[q] != chord,
                forall|x: u8| #[trigger] flags@[x as int] == ((occ(s, x, j as int) - occ(s, x, i0 + 1))
                    % 2 == 1),
            decreases n - j,
        {
            let a = self.ends[j];
            let fa = flags[a as usize];
            let ghost before = flags@;
            flags.set(a as usize, !fa);
            proof {
                assert forall|x: u8| #[trigger] flags@[x as int] == ((occ(s, x, j + 1) - occ(s, x, i0
                    + 1)) % 2 == 1) by {
                    lemma_occ_mono(s, x, i0 + 1, j as int);
                    if x != a {
                        assert(flags@[x as int] == before[x as int]);
                    }
                }
            }
            j = j + 1;
        }
        proof {
            let start = i0 + 1;
            let u = s.subrange(start, n as int);
            lemma_first_pos(u, chord);
            let f = first_pos(u, chord);
            if j < n {
                assert(u[j - start] == chord);
                assert(u.contains(chord));
                if f < j - start {
                    assert(u[f] == s[start + f]);
                } else if f > j - start {
                    assert(u[j - start] != chord);
                }
                assert(next_end(s, chord, start) == j);
            } else {
                assert forall|q: int| 0 <= q < u.len() implies u[q] != chord by {
                    assert(u[q] == s[start + q]);
                }
                assert(!u.contains(chord));
                assert(next_end(s, chord, start) == n);
            }
        }
        let mut r: Vec<u8> = Vec::new();
        let mut x: usize = 0;
        while x < 256
            invariant
                x <= 256,
                flags.len() == 256,
                forall|i: int, k: int| 0 <= i < k < r@.len() ==> r@[i] < r@[k],
                forall|i: int| 0 <= i < r@.len() ==> r@[i] < x,
                forall|a: u8| a < x ==> (#[trigger] r@.contains(a) <==> flags@[a as int]),
                forall|a: u8| a >= x ==> !#[trigger] r@.contains(a),
            decreases 256 - x,
        {
            let ghost before = r@;
            if flags[x] {
                r.push(x as u8);
            }
            proof {
                assert forall|a: u8| #[trigger] r@.contains(a) <==> (before.contains(a) || (a == x
                    && flags@[x as int])) by {
                    if r@.contains(a) && !before.contains(a) {
                        let k = choose|k: int| 0 <= k < r@.len() && r@[k] == a;
                        assert(k == before.len());
                    }
                    if before.contains(a) {
                        let k = choose|k: int| 0 <= k < before.len() && before[k] == a;
                        assert(r@[k] == a);
                    }
                    if a == x && flags@[x as int] {
                        assert(r@[before.len() as int] == a);
                    }
                }
            }
            x = x + 1;
        }
        proof {
            assert forall|a: u8| #[trigger] r@.contains(a) <==> crosses(s, chord, a) by {
                assert(r@.contains(a) <==> flags@[a as int]);
            }
        }
        r
    }
}

impl crate::CombGrad for ChordDiagram {
    /// The number of chords.
    open spec fn spec_degree(&self) -> usize {
        (self@.len() / 2) as usize
    }

    fn degree(&self) -> (r: usize) {
        self.ends.len() / 2
    }
}

proof fn lemma_lex_trans(a: Seq<u8>, b: Seq<u8>, c: Seq<u8>)
    requires
        a.len() == b.len() == c.len(),
        lex_lt(a, b),
        lex_lt(b, c),
    ensures
        lex_lt(a, c),
{
    let i = choose|i: int| 0 <= i < a.len() && #[trigger] differ_first_at(a, b, i) && a[i] < b[i];
    let j = choose|j: int| 0 <= j < b.len() && #[trigger] differ_first_at(b, c, j) && b[j] < c[j];
    let m = if i < j { i } else { j };
    assert forall|q: int| 0 <= q < m implies a[q] == c[q] by {
        assert(a[q] == b[q]);
        assert(b[q] == c[q]);
    }
    if i < j {
        assert(b[i] == c[i]);
    } else if j < i {
        assert(a[j] == b[j]);
    }
    assert(differ_first_at(a, c, m));
}

proof fn lemma_lex_total(a: Seq<u8>, b: Seq<u8>)
    requires
        a.len() == b.len(),
        a != b,
    ensures
        lex_lt(a, b) || lex_lt(b, a),
{
    if forall|q: int| 0 <= q < a.len() ==> a[q] == b[q] {
        assert(a =~= b);
    }
    let q = choose|q: int| 0 <= q < a.len() && a[q] != b[q];
    lemma_first_diff(a, b, q);
}

proof fn lemma_first_diff(a: Seq<u8>, b: Seq<u8>, q: int)
    requires
        a.len() == b.len(),
        0 <= q < a.len(),
        a[q] != b[q],
    ensures
        lex_lt(a, b) || lex_lt(b, a),
    decreases q,
{
    if exists|p: int| 0 <= p < q && a[p] != b[p] {
        let p = choose|p: int| 0 <= p < q && a[p] != b[p];
        lemma_first_diff(a, b, p);
    } else {
        assert(differ_first_at(a, b, q));
        assert(differ_first_at(b, a, q));
    }
}

proof fn lemma_lex_irrefl(a: Seq<u8>, b: Seq<u8>)
    requires
        a.len() == b.len(),
        lex_lt(a, b),
    ensures
        !lex_lt(b, a),
        a != b,
{
    let i = choose|i: int| 0 <= i < a.len() && #[trigger] differ_first_at(a, b, i) && a[i] < b[i];
    if lex_lt(b, a) {
        let j = choose|j: int| 0 <= j < b.len() && #[trigger] differ_first_at(b, a, j) && b[j] < a[j];
        if i < j {
            assert(b[i] == a[i]);
        } else if j < i {
            assert(a[j] == b[j]);
        }
    }
}

/// The relabelled rotation of `s` by `j` is among the candidates of `canonical(s)`.
pub open spec fn is_rotation_label(s: Seq<u8>, r: Seq<u8>, j: int) -> bool {
    0 <= j < s.len() && r == relabelled(rotate(s, j))
}

proof fn lemma_least_rotation(s: Seq<u8>, m: int)
    requires
        1 <= m <= s.len(),
    ensures
        exists|j: int| 0 <= j < m && #[trigger] is_rotation_label(s, least_rotation(s, m), j),
        forall|j: int| 0 <= j < m ==> !lex_lt(#[trigger] relabelled(rotate(s, j)), least_rotation(s, m)),
        least_rotation(s, m).len() == s.len(),
    decreases m,
{
    if m == 1 {
        assert(is_rotation_label(s, least_rotation(s, m), 0));
        if lex_lt(relabelled(rotate(s, 0)), least_rotation(s, m)) {
            lemma_lex_irrefl(relabelled(rotate(s, 0)), least_rotation(s, m));
        }
    } else {
        lemma_least_rotation(s, m - 1);
        let best = least_rotation(s, m - 1);
        let cand = relabelled(rotate(s, m - 1));
        let j0 = choose|j: int| 0 <= j < m - 1 && #[trigger] is_rotation_label(s, best, j);
        if lex_lt(cand, best) {
            assert(is_rotation_label(s, least_rotation(s, m), m - 1));
            assert forall|j: int| 0 <= j < m implies !lex_lt(#[trigger] relabelled(rotate(s, j)), cand) by {
                if j < m - 1 && lex_lt(relabelled(rotate(s, j)), cand) {
                    lemma_lex_trans(relabelled(rotate(s, j)), cand, best);
                }
                if j == m - 1 && lex_lt(cand, cand) {
                    lemma_lex_irrefl(cand, cand);
                }
            }
        } else {
            assert(is_rotation_label(s, least_rotation(s, m), j0));
        }
    }
}

/// What `canonical(s)` is: of the relabelled rotations of `s`, the one that no other comes
/// before in lexicographic order.
pub proof fn lemma_canonical_least(s: Seq<u8>)
    requires
        s.len() > 0,
    ensures
        exists|j: int| 0 <= j < s.len() && #[trigger] is_rotation_label(s, canonical(s), j),
        forall|j: int| 0 <= j < s.len() ==> !lex_lt(#[trigger] relabelled(rotate(s, j)), canonical(s)),
        canonical(s).len() == s.len(),
{
    lemma_least_rotation(s, s.len() as int);
    let j = choose|j: int| 0 <= j < s.len() && #[trigger] is_rotation_label(s, least_rotation(s, s.len() as int), j);
    assert(is_rotation_label(s, canonical(s), j));
}

/// `i + t` taken round a circle of `n` positions (for `i` and `t` below `n`).
pub open spec fn wrap(i: int, t: int, n: int) -> int {
    if i + t < n {
        i + t
    } else {
        i + t - n
    }
}

proof fn lemma_rotate_index(s: Seq<u8>, i: int, t: int)
    requires
        0 <= i < s.len(),
        0 <= t < s.len(),
    ensures
        rotate(s, i)[t] == s[wrap(i, t, s.len() as int)],
        rotate(s, i).len() == s.len(),
{
}

proof fn lemma_rotate_rotate(s: Seq<u8>, k: int, j: int)
    requires
        0 <= k < s.len(),
        0 <= j < s.len(),
    ensures
        rotate(rotate(s, k), j) == rotate(s, wrap(k, j, s.len() as int)),
{
    let n = s.len() as int;
    let m = wrap(k, j, n);
    assert forall|t: int| 0 <= t < n implies rotate(rotate(s, k), j)[t] == rotate(s, m)[t] by {
        lemma_rotate_index(rotate(s, k), j, t);
        lemma_rotate_index(s, k, wrap(j, t, n));
        lemma_rotate_index(s, m, t);
    }
    assert(rotate(rotate(s, k), j) =~= rotate(s, m));
}

/// Rotating the ends of a chord diagram does not change its canonical form.
pub proof fn law_canonical_rotation(s: Seq<u8>, k: int)
    requires
        0 <= k < s.len(),
    ensures
        canonical(rotate(s, k)) == canonical(s),
{
    let n = s.len() as int;
    let s2 = rotate(s, k);
    assert(s2.len() == n);
    lemma_canonical_least(s);
    lemma_canonical_least(s2);
    let c1 = canonical(s);
    let c2 = canonical(s2);
    let j1 = choose|j: int| 0 <= j < n && #[trigger] is_rotation_label(s, c1, j);
    let j2 = choose|j: int| 0 <= j < n && #[trigger] is_rotation_label(s2, c2, j);
    lemma_rotate_rotate(s, k, j2);
    let m2 = wrap(k, j2, n);
    assert(c2 == relabelled(rotate(s, m2)));
    assert(!lex_lt(relabelled(rotate(s, m2)), c1));
    let back = if j1 >= k { j1 - k } else { j1 + n - k };
    lemma_rotate_rotate(s, k, back);
    assert(wrap(k, back, n) == j1);
    assert(c1 == relabelled(rotate(s2, back)));
    assert(!lex_lt(relabelled(rotate(s2, back)), c2));
    if c1 != c2 {
        lemma_lex_total(c1, c2);
    }
}

/// `f` renames the labels that occur in `s` without merging any two.
pub open spec fn injective_on(f: spec_fn(u8) -> u8, s: Seq<u8>) -> bool {
    forall|i: int, j: int| 0 <= i < s.len() && 0 <= j < s.len() && #[trigger] f(s[i]) == #[trigger] f(s[j])
        ==> s[i] == s[j]
}

/// The ends of `s` with every label renamed by `f`.
pub open spec fn renamed(s: Seq<u8>, f: spec_fn(u8) -> u8) -> Seq<u8> {
    s.map_values(|x: u8| f(x))
}

proof fn lemma_renamed_counts(s: Seq<u8>, f: spec_fn(u8) -> u8, k: int, i: int)
    requires
        injective_on(f, s),
        0 <= k < s.len(),
        0 <= i <= s.len(),
    ensures
        occ(renamed(s, f), f(s[k]), i) == occ(s, s[k], i),
        last_pos(renamed(s, f), f(s[k]), i) == last_pos(s, s[k], i),
    decreases i,
{
    if i > 0 {
        lemma_renamed_counts(s, f, k, i - 1);
        assert(renamed(s, f)[i - 1] == f(s[i - 1]));
        if f(s[i - 1]) == f(s[k]) {
            assert(s[i - 1] == s[k]);
        }
    }
}

proof fn lemma_renamed_openings(s: Seq<u8>, f: spec_fn(u8) -> u8, i: int)
    requires
        injective_on(f, s),
        0 <= i <= s.len(),
    ensures
        openings(renamed(s, f), i) == openings(s, i),
    decreases i,
{
    if i > 0 {
        lemma_renamed_openings(s, f, i - 1);
        lemma_renamed_counts(s, f, i - 1, i - 1);
        assert(renamed(s, f)[i - 1] == f(s[i - 1]));
    }
}

proof fn lemma_renamed_relabelled(s: Seq<u8>, f: spec_fn(u8) -> u8)
    requires
        injective_on(f, s),
    ensures
        relabelled(renamed(s, f)) == relabelled(s),
{
    let t = renamed(s, f);
    assert forall|i: int| 0 <= i < s.len() implies label_at(t, i) == label_at(s, i) by {
        assert(t[i] == f(s[i]));
        lemma_renamed_counts(s, f, i, i);
        lemma_renamed_openings(s, f, i);
        lemma_last_pos(s, s[i], i);
        if !opens(s, i) {
            lemma_renamed_openings(s, f, last_pos(s, s[i], i));
        }
    }
    assert(relabelled(t) =~= relabelled(s));
}

/// Renaming the chords of a diagram, without merging any two of them, does not change its
/// canonical form.
pub proof fn law_canonical_renaming(s: Seq<u8>, f: spec_fn(u8) -> u8)
    requires
        injective_on(f, s),
    ensures
        canonical(renamed(s, f)) == canonical(s),
{
    let t = renamed(s, f);
    let n = s.len() as int;
    assert forall|j: int| 0 <= j < n implies #[trigger] relabelled(rotate(t, j)) == relabelled(rotate(s, j)) by {
        assert(rotate(t, j) =~= renamed(rotate(s, j), f));
        let r = rotate(s, j);
        assert forall|a: int, b: int| 0 <= a < r.len() && 0 <= b < r.len() && #[trigger] f(r[a]) == #[trigger] f(r[b])
            implies r[a] == r[b] by {
            lemma_rotate_index(s, j, a);
            lemma_rotate_index(s, j, b);
            let wa = wrap(j, a, n);
            let wb = wrap(j, b, n);
            assert(f(s[wa]) == f(s[wb]));
        }
        lemma_renamed_relabelled(r, f);
    }
    if n > 0 {
        assert forall|m: int| 1 <= m <= n implies #[trigger] least_rotation(t, m) == least_rotation(s, m) by {
            lemma_least_rotation_eq(s, t, m);
        }
    }
}

proof fn lemma_least_rotation_eq(s: Seq<u8>, t: Seq<u8>, m: int)
    requires
        1 <= m <= s.len(),
        forall|j: int| 0 <= j < s.len() ==> #[trigger] relabelled(rotate(t, j)) == relabelled(rotate(s, j)),
    ensures
        least_rotation(t, m) == least_rotation(s, m),
    decreases m,
{
    assert(relabelled(rotate(t, 0)) == relabelled(rotate(s, 0)));
    if m > 1 {
        lemma_least_rotation_eq(s, t, m - 1);
        assert(relabelled(rotate(t, m - 1)) == relabelled(rotate(s, m - 1)));
    }
}

/// The `k`-th summand of `alpha(p, q)` for even `q`: `C(p, 2k) q^k (2k - 1)!!`.
pub open spec fn alpha_term(p: nat, q: nat, k: nat) -> int {
    binom(p, 2 * k) * pow(q as int, k) * double_fact(2 * k - 1)
}

/// The sum of the first `j` summands of `alpha(p, q)`.
pub open spec fn alpha_sum(p: nat, q: nat, j: nat) -> int
    decreases j,
{
    if j == 0 {
        0
    } else {
        alpha_sum(p, q, (j - 1) as nat) + alpha_term(p, q, (j - 1) as nat)
    }
}

/// The number of chord diagrams with `p` chords (counted with their labels) that a rotation
/// of order `q` maps to themselves, as it enters the count of chord diagrams.
pub open spec fn alpha(p: nat, q: nat) -> int {
    if q % 2 == 0 {
        alpha_sum(p, q, p / 2 + 1)
    } else {
        pow(q as int, p / 2) * double_fact(p - 1)
    }
}

/// A quantity that the computation of `alpha(p, q)` forms exceeds `u128`.
pub open spec fn alpha_overflows(p: nat, q: nat) -> bool {
    ||| alpha(p, q) > u128::MAX
    ||| (q % 2 == 0 && exists|k: nat| k <= p / 2 && !#[trigger] binomial_fits(p as u128, (2 * k) as u128))
}

/// The summand of the count of chord diagrams for the rotations of order `d` of `m` ends.
pub open spec fn rotation_term(m: nat, d: nat) -> int {
    alpha(m / d, d) * totient(d as int)
}

/// The sum of `rotation_term(m, d)` over the divisors `d <= x` of `m`.
pub open spec fn rotation_sum(m: nat, x: nat) -> int
    decreases x,
{
    if x == 0 {
        0
    } else {
        rotation_sum(m, (x - 1) as nat) + if divides(x as int, m as int) { rotation_term(m, x) } else { 0 }
    }
}

/// The number of chord diagrams with `n` chords up to rotation, by Burnside's lemma.
pub open spec fn chord_diagram_count(n: nat) -> int {
    if n == 0 {
        1
    } else {
        rotation_sum(2 * n, 2 * n) / ((2 * n) as int)
    }
}

/// Every quantity that the computation of `chord_diagram_count(n)` forms fits in `u128`.
pub open spec fn count_fits(n: nat) -> bool {
    n == 0 || {
        &&& rotation_sum(2 * n, 2 * n) <= u128::MAX
        &&& forall|d: nat| #[trigger] divides(d as int, (2 * n) as int) ==> !alpha_overflows((2 * n) / d, d)
    }
}

/// `phi` computes Euler's totient.
pub open spec fn computes_totient<F: Fn(u128) -> u128>(phi: F) -> bool {
    &&& forall|d: u128| #[trigger] call_requires(phi, (d,))
    &&& forall|d: u128, r: u128| #[trigger] call_ensures(phi, (d,), r) ==> r == totient(d as int)
}

proof fn lemma_alpha_term_bounds(p: nat, q: nat, k: nat)
    requires
        2 * k <= p,
        q >= 1,
    ensures
        binom(p, 2 * k) >= 1,
        pow(q as int, k) >= 1,
        double_fact(2 * k - 1) >= 1,
        pow(q as int, k) <= binom(p, 2 * k) * pow(q as int, k),
        binom(p, 2 * k) * pow(q as int, k) <= alpha_term(p, q, k),
        double_fact(2 * k - 1) <= alpha_term(p, q, k),
        alpha_term(p, q, k) >= 1,
{
    lemma_binom_pos(p, 2 * k);
    lemma_pow_positive(q as int, k);
    lemma_double_fact_pos(2 * k - 1);
    let b = binom(p, 2 * k) as int;
    let w = pow(q as int, k);
    let f = double_fact(2 * k - 1);
    assert(w <= b * w && b * w <= b * w * f && f <= b * w * f && b * w * f >= 1) by (nonlinear_arith)
        requires
            b >= 1,
            w >= 1,
            f >= 1,
    ;
}

proof fn lemma_alpha_sum_mono(p: nat, q: nat, a: nat, b: nat)
    requires
        a <= b,
        q >= 1,
        2 * (b - 1) <= p,
    ensures
        alpha_sum(p, q, a) <= alpha_sum(p, q, b),
        alpha_sum(p, q, a) >= 0,
    decreases b,
{
    if a < b {
        lemma_alpha_sum_mono(p, q, a, (b - 1) as nat);
        lemma_alpha_term_bounds(p, q, (b - 1) as nat);
    } else if b > 0 {
        lemma_alpha_sum_mono(p, q, (b - 1) as nat, (b - 1) as nat);
        lemma_alpha_term_bounds(p, q, (b - 1) as nat);
    }
}

/// `alpha(p, q)`, or `None` when a quantity formed on the way exceeds `u128`.
#[verifier::spinoff_prover]
fn checked_alpha(p: u128, q: u128) -> (r: Option<u128>)
    requires
        p >= 1,
        q >= 1,
    ensures
        r is None <==> alpha_overflows(p as nat, q as nat),
        r matches Some(v) ==> v == alpha(p as nat, q as nat),
{
    let ghost pn = p as nat;
    let ghost qn = q as nat;
    let half = p / 2;
    proof {
        assert(2 * half <= p) by (nonlinear_arith)
            requires
                half == p / 2,
        ;
    }
    if q % 2 == 0 {
        proof {
            lemma_alpha_sum_mono(pn, qn, 0, (half + 1) as nat);
        }
        let mut acc: u128 = 0;
        let mut pw: u128 = 1;
        let mut df: u128 = 1;
        let mut k: u128 = 0;
        proof {
            reveal(pow);
        }
        while k <= half
            invariant
                half == p / 2,
                2 * half <= p,
                pn == p,
                qn == q,
                q >= 1,
                q % 2 == 0,
                k <= half + 1,
                acc == alpha_sum(pn, qn, k as nat),
                k <= half ==> pw == pow(qn as int, k as nat),
                k <= half ==> df == double_fact(2 * k - 1),
                forall|j: nat| j < k ==> #[trigger] binomial_fits(p, (2 * j) as u128),
            decreases half + 1 - k,
        {
            proof {
                lemma_alpha_term_bounds(pn, qn, k as nat);
                lemma_alpha_sum_mono(pn, qn, (k + 1) as nat, (half + 1) as nat);
            }
            let b = match checked_binomial(p, 2 * k) {
                Some(b) => b,
                None => {
                    proof {
                        assert(k as nat <= pn / 2);
                        assert(!binomial_fits(pn as u128, (2 * (k as nat)) as u128));
                    }
                    return None;
                },
            };
            let t1 = match b.checked_mul(pw) {
                Some(t1) => t1,
                None => {
                    return None;
                },
            };
            let t = match t1.checked_mul(df) {
                Some(t) => t,
                None => {
                    return None;
                },
            };
            acc = match acc.checked_add(t) {
                Some(a) => a,
                None => {
                    return None;
                },
            };
            if k < half {
                proof {
                    lemma_alpha_term_bounds(pn, qn, (k + 1) as nat);
                    lemma_alpha_sum_mono(pn, qn, (k + 2) as nat, (half + 1) as nat);
                    lemma_alpha_sum_mono(pn, qn, (k + 1) as nat, (k + 1) as nat);
                    assert(alpha_sum(pn, qn, (k + 2) as nat) == alpha_sum(pn, qn, (k + 1) as nat)
                        + alpha_term(pn, qn, (k + 1) as nat));
                    assert(alpha_term(pn, qn, (k + 1) as nat) <= alpha(pn, qn));
                    assert(pow(qn as int, (k + 1) as nat) == qn * pow(qn as int, k as nat)) by {
                        reveal(pow);
                    }
                    assert(double_fact(2 * (k + 1) - 1) == (2 * k + 1) * double_fact(2 * k - 1));
                }
                pw = match pw.checked_mul(q) {
                    Some(w) => w,
                    None => {
                        return None;
                    },
                };
                df = match df.checked_mul(2 * k + 1) {
                    Some(f) => f,
                    None => {
                        return None;
                    },
                };
            }
            k = k + 1;
        }
        proof {
            assert forall|j: nat| j <= pn / 2 implies #[trigger] binomial_fits(p, (2 * j) as u128) by {
                assert(j < k);
            }
        }
        Some(acc)
    } else {
        let mut pw: u128 = 1;
        let mut i: u128 = 0;
        proof {
            reveal(pow);
            lemma_pow_positive(qn as int, half as nat);
            lemma_double_fact_pos(p - 1);
            assert(pow(qn as int, half as nat) <= pow(qn as int, half as nat) * double_fact(p - 1)) by (nonlinear_arith)
                requires
                    pow(qn as int, half as nat) >= 1,
                    double_fact(p - 1) >= 1,
            ;
            assert(double_fact(p - 1) <= pow(qn as int, half as nat) * double_fact(p - 1)) by (nonlinear_arith)
                requires
                    pow(qn as int, half as nat) >= 1,
                    double_fact(p - 1) >= 1,
            ;
        }
        while i < half
            invariant
                i <= half,
                half == p / 2,
                pn == p,
                qn == q,
                q >= 1,
                pw == pow(qn as int, i as nat),
                pow(qn as int, half as nat) <= alpha(pn, qn),
            decreases half - i,
        {
            proof {
                lemma_pow_increases(qn, (i + 1) as nat, half as nat);
                assert(pow(qn as int, (i + 1) as nat) == qn * pow(qn as int, i as nat)) by {
                    reveal(pow);
                }
            }
            pw = match pw.checked_mul(q) {
                Some(w) => w,
                None => {
                    return None;
                },
            };
            i = i + 1;
        }
        let top = p - 1;
        let mut j: u128 = top % 2;
        let mut df: u128 = 1;
        while top - j >= 2
            invariant
                pn == p,
                qn == q,
                j <= top,
                top == p - 1,
                (top - j) % 2 == 0,
                df == double_fact(j as int),
                double_fact(top as int) <= alpha(pn, qn),
            decreases top - j,
        {
            proof {
                lemma_double_fact_mono(j + 2, top as int);
                assert(double_fact(j + 2) == (j + 2) * double_fact(j as int));
            }
            df = match df.checked_mul(j + 2) {
                Some(f) => f,
                None => {
                    return None;
                },
            };
            j = j + 2;
        }
        assert(j == top);
        match pw.checked_mul(df) {
            Some(a) => Some(a),
            None => None,
        }
    }
}

proof fn lemma_alpha_nonneg(p: nat, q: nat)
    requires
        q >= 1,
    ensures
        alpha(p, q) >= 0,
{
    if q % 2 == 0 {
        assert(2 * (p / 2) <= p) by (nonlinear_arith);
        lemma_alpha_sum_mono(p, q, 0, p / 2 + 1);
    } else {
        lemma_pow_positive(q as int, p / 2);
        lemma_double_fact_pos(p - 1);
        assert(pow(q as int, p / 2) * double_fact(p - 1) >= 0) by (nonlinear_arith)
            requires
                pow(q as int, p / 2) >= 1,
                double_fact(p - 1) >= 1,
        ;
    }
}

proof fn lemma_divisor_bounds(d: int, m: int)
    requires
        m > 0,
        d >= 0,
        divides(d, m),
    ensures
        1 <= d <= m,
        m / d >= 1,
{
    assert(1 <= d <= m && m / d >= 1) by (nonlinear_arith)
        requires
            m > 0,
            d >= 0,
            d != 0,
            m % d == 0,
    ;
}

proof fn lemma_rotation_term_nonneg(m: nat, d: nat)
    requires
        m > 0,
        divides(d as int, m as int),
    ensures
        rotation_term(m, d) >= alpha(m / d, d),
        alpha(m / d, d) >= 0,
{
    lemma_divisor_bounds(d as int, m as int);
    lemma_alpha_nonneg(m / d, d);
    lemma_totient_pos(d as int);
    let a = alpha(m / d, d);
    let t = totient(d as int) as int;
    assert(a * t >= a) by (nonlinear_arith)
        requires
            a >= 0,
            t >= 1,
    ;
}

proof fn lemma_rotation_sum_mono(m: nat, a: nat, b: nat)
    requires
        m > 0,
        a <= b,
    ensures
        0 <= rotation_sum(m, a) <= rotation_sum(m, b),
    decreases b,
{
    if b > 0 {
        if a < b {
            lemma_rotation_sum_mono(m, a, (b - 1) as nat);
        } else {
            lemma_rotation_sum_mono(m, (b - 1) as nat, (b - 1) as nat);
        }
        if divides(b as int, m as int) {
            lemma_rotation_term_nonneg(m, b);
        }
    }
}

proof fn lemma_rotation_sum_gap(m: nat, a: nat, b: nat)
    requires
        a <= b,
        forall|x: nat| a < x <= b ==> !divides(x as int, m as int),
    ensures
        rotation_sum(m, b) == rotation_sum(m, a),
    decreases b,
{
    if a < b {
        lemma_rotation_sum_gap(m, a, (b - 1) as nat);
    }
}

/// The number of chord diagrams with `n` chords up to rotation, by Burnside's lemma, or `None`
/// when a quantity formed on the way exceeds `u128`; `phi` computes Euler's totient.
pub fn checked_count<F: Fn(u128) -> u128>(n: usize, phi: &F) -> (r: Option<u128>)
    requires
        computes_totient(*phi),
    ensures
        r is Some <==> count_fits(n as nat),
        r matches Some(v) ==> v == chord_diagram_count(n as nat),
{
    if n == 0 {
        return Some(1);
    }
    let m: u128 = 2 * (n as u128);
    let ghost mn = m as nat;
    let ds = divisors(m);
    let ghost total = rotation_sum(mn, mn);
    proof {
        assert(divides(m as int, m as int));
        assert(ds@.contains(m));
        assert forall|j: int| 0 <= j < ds.len() implies 1 <= #[trigger] ds@[j] <= m by {
            assert(ds@.contains(ds@[j]));
            lemma_divisor_bounds(ds@[j] as int, m as int);
        }
        lemma_rotation_sum_mono(mn, 0, mn);
    }
    let mut acc: u128 = 0;
    let mut i: usize = 0;
    while i < ds.len()
        invariant
            computes_totient(*phi),
            m == mn,
            mn == 2 * (n as nat),
            mn > 0,
            total == rotation_sum(mn, mn),
            i <= ds.len(),
            forall|a: int, b: int| 0 <= a < b < ds.len() ==> ds@[a] < ds@[b],
            forall|d: u128| #[trigger] ds@.contains(d) <==> divides(d as int, m as int),
            forall|j: int| 0 <= j < ds.len() ==> 1 <= #[trigger] ds@[j] <= m,
            acc == rotation_sum(mn, if i == 0 { 0 } else { ds@[i - 1] as nat }),
            forall|d: nat| #[trigger] divides(d as int, mn as int) && d <= (if i == 0 { 0 } else { ds@[i - 1] as nat })
                ==> !alpha_overflows(mn / d, d),
        decreases ds.len() - i,
    {
        let d = ds[i];
        let ghost prev: nat = if i == 0 { 0 } else { ds@[i - 1] as nat };
        proof {
            assert(ds@.contains(d));
            assert(prev < d) by {
                if i > 0 {
                    assert(ds@[i - 1] < ds@[i as int]);
                }
            }
            assert forall|x: nat| prev < x <= (d - 1) as nat implies !divides(x as int, mn as int) by {
                if divides(x as int, mn as int) {
                    lemma_divisor_bounds(x as int, mn as int);
                    assert(ds@.contains(x as u128));
                    let j = choose|j: int| 0 <= j < ds.len() && ds@[j] == x as u128;
                    if j < i {
                        if j < i - 1 {
                            assert(ds@[j] < ds@[i - 1]);
                        }
                    } else {
                        if j > i {
                            assert(ds@[i as int] < ds@[j]);
                        }
                    }
                }
            }
            lemma_rotation_sum_gap(mn, prev, (d - 1) as nat);
            lemma_rotation_term_nonneg(mn, d as nat);
            lemma_rotation_sum_mono(mn, d as nat, mn);
            lemma_divisor_bounds(d as int, m as int);
            assert(rotation_sum(mn, d as nat) == acc + rotation_term(mn, d as nat));
        }
        let a = match checked_alpha(m / d, d) {
            Some(a) => a,
            None => {
                proof {
                    assert(mn == 2 * (n as nat));
                    assert(divides(d as int, (2 * (n as nat)) as int));
                }
                return None;
            },
        };
        let ph = phi(d);
        proof {
            assert(ph == totient(d as int));
            assert(mn == 2 * (n as nat));
        }
        let t = match a.checked_mul(ph) {
            Some(t) => t,
            None => {
                proof {
                    assert(a * ph == rotation_term(mn, d as nat));
                }
                return None;
            },
        };
        acc = match acc.checked_add(t) {
            Some(x) => x,
            None => {
                return None;
            },
        };
        i = i + 1;
    }
    proof {
        let last = ds@[ds.len() - 1];
        let jm = choose|j: int| 0 <= j < ds.len() && ds@[j] == m;
        if jm < ds.len() - 1 {
            assert(ds@[jm] < last);
        }
        assert(last == m);
        assert forall|d: nat| #[trigger] divides(d as int, (2 * (n as nat)) as int) implies !alpha_overflows(
            (2 * (n as nat)) / d, d) by {
            lemma_divisor_bounds(d as int, mn as int);
        }
    }
    Some(acc / m)
}

/// `x + 1`, wrapping round at 256.
pub open spec fn succ_label(x: u8) -> u8 {
    if x == 255 {
        0
    } else {
        (x + 1) as u8
    }
}

/// The rooted diagram with one more chord: a new chord `0` whose ends stand first and at
/// position `i`, before the ends of `d` with their labels raised by one.
pub open spec fn rooted_step(d: Seq<u8>, i: int) -> Seq<u8> {
    let base = seq![0u8, 0u8] + d.map_values(|x: u8| succ_label(x));
    base.update(1, base[i]).update(i, 0u8)
}

/// The rooted diagrams that `d` grows into, with the new chord's second end at `1..2m`.
pub open spec fn expand(d: Seq<u8>, m: nat) -> Seq<Seq<u8>> {
    Seq::new((2 * m - 1) as nat, |t: int| rooted_step(d, t + 1))
}

/// `expand(d, m)` for each `d` of `ds` in turn, one after the other.
pub open spec fn expand_all(ds: Seq<Seq<u8>>, m: nat) -> Seq<Seq<u8>>
    decreases ds.len(),
{
    if ds.len() == 0 {
        Seq::empty()
    } else {
        expand(ds[0], m) + expand_all(ds.drop_first(), m)
    }
}

/// The rooted chord diagrams with `m` chords, in the order of their construction: every
/// diagram with `m - 1` chords grows a new chord `0` from the first position to each later one.
pub open spec fn rooted(m: nat) -> Seq<Seq<u8>>
    decreases m,
{
    if m == 0 {
        seq![Seq::empty()]
    } else {
        expand_all(rooted((m - 1) as nat), m)
    }
}

/// Every item of `ds` has length `len`.
pub open spec fn all_of_len(ds: Seq<Seq<u8>>, len: nat) -> bool {
    forall|t: int| 0 <= t < ds.len() ==> (#[trigger] ds[t]).len() == len
}

proof fn lemma_expand_all_len(ds: Seq<Seq<u8>>, m: nat)
    requires
        m >= 1,
        all_of_len(ds, (2 * (m - 1)) as nat),
    ensures
        all_of_len(expand_all(ds, m), 2 * m),
    decreases ds.len(),
{
    if ds.len() > 0 {
        lemma_expand_all_len(ds.drop_first(), m);
        let a = expand(ds[0], m);
        let b = expand_all(ds.drop_first(), m);
        assert(all_of_len(a, 2 * m));
        assert forall|t: int| 0 <= t < (a + b).len() implies (#[trigger] (a + b)[t]).len() == 2 * m by {
            if t >= a.len() {
                assert((a + b)[t] == b[t - a.len()]);
            }
        }
    }
}

proof fn lemma_rooted_len(m: nat)
    ensures
        all_of_len(rooted(m), 2 * m),
    decreases m,
{
    if m > 0 {
        lemma_rooted_len((m - 1) as nat);
        lemma_expand_all_len(rooted((m - 1) as nat), m);
    }
}

/// The rooted chord diagrams with `size` chords, produced one at a time in the order of
/// `rooted(size)`.
pub struct RootedDiagrams {
    size: usize,
    inner: Option<Box<RootedDiagrams>>,
    current: Option<Vec<u8>>,
    next_end: usize,
    done: bool,
}

impl RootedDiagrams {
    /// The diagrams that are still to come.
    pub closed spec fn remaining(&self) -> Seq<Seq<u8>>
        decreases self,
    {
        if self.size == 0 {
            if self.done {
                Seq::empty()
            } else {
                seq![Seq::empty()]
            }
        } else {
            let here = match self.current {
                Some(c) => Seq::new((2 * self.size - self.next_end) as nat, |t: int| rooted_step(c@, self.next_end + t)),
                None => Seq::empty(),
            };
            let rest = match self.inner {
                Some(b) => expand_all(b.remaining(), self.size as nat),
                None => Seq::empty(),
            };
            here + rest
        }
    }

    /// The state is consistent.
    pub closed spec fn wf(&self) -> bool
        decreases self,
    {
        if self.size == 0 {
            true
        } else {
            &&& self.size <= 256
            &&& 1 <= self.next_end <= 2 * self.size
            &&& (self.current matches Some(c) ==> c@.len() == 2 * (self.size - 1))
            &&& (self.current is None ==> self.next_end == 2 * self.size)
            &&& match self.inner {
                Some(b) => b.size == self.size - 1 && b.wf(),
                None => false,
            }
        }
    }

    proof fn lemma_remaining_len(&self)
        requires
            self.wf(),
        ensures
            all_of_len(self.remaining(), (2 * self.size) as nat),
        decreases self,
    {
        if self.size > 0 {
            let b = self.inner.unwrap();
            b.lemma_remaining_len();
            lemma_expand_all_len(b.remaining(), self.size as nat);
            let here = match self.current {
                Some(c) => Seq::new((2 * self.size - self.next_end) as nat, |t: int| rooted_step(c@, self.next_end + t)),
                None => Seq::empty(),
            };
            let rest = expand_all(b.remaining(), self.size as nat);
            assert(self.remaining() == here + rest);
            assert forall|t: int| 0 <= t < (here + rest).len() implies (#[trigger] (here + rest)[t]).len() == 2 * self.size by {
                if t >= here.len() {
                    assert((here + rest)[t] == rest[t - here.len()]);
                }
            }
        }
    }

    /// The size of the diagrams produced.
    pub closed spec fn spec_size(&self) -> nat {
        self.size as nat
    }

    /// All rooted diagrams with `size` chords, to come.
    pub fn new(size: usize) -> (r: Self)
        requires
            size <= 256,
        ensures
            r.wf(),
            r.spec_size() == size,
            r.remaining() == rooted(size as nat),
        decreases size,
    {
        if size == 0 {
            RootedDiagrams { size, inner: None, current: None, next_end: 1, done: false }
        } else {
            let inner = RootedDiagrams::new(size - 1);
            let r = RootedDiagrams {
                size,
                inner: Some(Box::new(inner)),
                current: None,
                next_end: 2 * size,
                done: false,
            };
            proof {
                assert(r.remaining() =~= Seq::<Seq<u8>>::empty() + expand_all(rooted((size - 1) as nat), size as nat));
            }
            r
        }
    }

    /// The next diagram to come, if any.
    pub fn next(&mut self) -> (r: Option<Vec<u8>>)
        requires
            old(self).wf(),
        ensures
            final(self).wf(),
            final(self).spec_size() == old(self).spec_size(),
            old(self).remaining().len() == 0 ==> r is None && final(self).remaining().len() == 0,
            old(self).remaining().len() > 0 ==> (r matches Some(d) && d@ == old(self).remaining()[0]
                && final(self).remaining() == old(self).remaining().drop_first()),
        decreases old(self).spec_size(),
    {
        if self.size == 0 {
            if self.done {
                return None;
            }
            self.done = true;
            return Some(Vec::new());
        }
        if self.next_end < 2 * self.size {
            let d = match &self.current {
                Some(c) => grow(c, self.next_end),
                None => {
                    proof {
                        assert(false);
                    }
                    Vec::new()
                },
            };
            self.next_end = self.next_end + 1;
            return Some(d);
        }
        let mut inner = match self.inner.take() {
            Some(b) => b,
            None => {
                return None;
            },
        };
        proof {
            inner.lemma_remaining_len();
        }
        let got = inner.next();
        self.inner = Some(inner);
        match got {
            None => None,
            Some(c) => {
                let d = grow(&c, 1);
                self.current = Some(c);
                self.next_end = 2;
                Some(d)
            },
        }
    }
}

/// The rooted diagram that grows from `d` with the new chord's second end at `i`.
fn grow(d: &Vec<u8>, i: usize) -> (r: Vec<u8>)
    requires
        1 <= i <= d.len() + 1,
    ensures
        r@ == rooted_step(d@, i as int),
{
    let mut base: Vec<u8> = Vec::new();
    base.push(0);
    base.push(0);
    let mut j: usize = 0;
    while j < d.len()
        invariant
            j <= d.len(),
            base@ == seq![0u8, 0u8] + d@.subrange(0, j as int).map_values(|x: u8| succ_label(x)),
        decreases d.len() - j,
    {
        base.push(d[j].wrapping_add(1));
        proof {
            assert(d@.subrange(0, j + 1) == d@.subrange(0, j as int).push(d@[j as int]));
        }
        j = j + 1;
    }
    proof {
        assert(d@.subrange(0, d.len() as int) == d@);
    }
    let moved = base[i];
    base.set(1, moved);
    base.set(i, 0);
    base
}

/// `radix_trie::Trie`, a map keyed by byte strings.
#[verifier::external_type_specification]
#[verifier::external_body]
#[verifier::reject_recursive_types(K)]
#[verifier::reject_recursive_types(V)]
pub struct ExTrie<K, V>(Trie<K, V>);

/// The keys that a trie of byte strings holds.
pub uninterp spec fn trie_keys(t: Trie<Vec<u8>, ()>) -> Set<Seq<u8>>;

/// `radix_trie::Trie::new`: a trie that holds no key.
#[verifier::external_body]
fn trie_new() -> (r: Trie<Vec<u8>, ()>)
    ensures
        trie_keys(r) == Set::<Seq<u8>>::empty(),
{
    Trie::new()
}

/// `radix_trie::Trie::insert`: afterwards the trie holds `key`; it gives back the value that
/// the key held before, so `Some` exactly when the trie held the key already. (A `Vec<u8>` key
/// is stored under its own bytes.)
#[verifier::external_body]
fn trie_insert(t: &mut Trie<Vec<u8>, ()>, key: Vec<u8>) -> (r: Option<()>)
    ensures
        trie_keys(*final(t)) == trie_keys(*old(t)).insert(key@),
        r is Some <==> trie_keys(*old(t)).contains(key@),
{
    t.insert(key, ())
}

/// The canonical forms of the diagrams of `xs`.
pub open spec fn canonical_forms(xs: Seq<Seq<u8>>) -> Set<Seq<u8>> {
    Set::new(|c: Seq<u8>| exists|t: int| 0 <= t < xs.len() && c == canonical(#[trigger] xs[t]))
}

/// Each diagram of `xs` has a canonical form that `seen`, or an earlier diagram of `xs`, has
/// already.
pub open spec fn all_seen(seen: Set<Seq<u8>>, xs: Seq<Seq<u8>>) -> bool {
    forall|t: int| 0 <= t < xs.len() ==> seen.union(canonical_forms(xs.take(t))).contains(
        canonical(#[trigger] xs[t]))
}

/// The chord diagrams with a given number of chords, each once, in canonical form: it goes
/// through the rooted diagrams and skips those whose canonical form it has given already. It
/// stops early once it has given as many as it was told there are.
pub struct ChordDiagramIterator {
    rooted: RootedDiagrams,
    cache: Trie<Vec<u8>, ()>,
    n_left: Option<usize>,
}

impl ChordDiagramIterator {
    /// The state is consistent.
    pub closed spec fn wf(&self) -> bool {
        &&& self.rooted.wf()
        &&& self.rooted.spec_size() <= 127
    }

    /// The rooted diagrams still to go through.
    pub closed spec fn remaining(&self) -> Seq<Seq<u8>> {
        self.rooted.remaining()
    }

    /// The canonical forms given so far.
    pub closed spec fn given(&self) -> Set<Seq<u8>> {
        trie_keys(self.cache)
    }

    /// How many diagrams are still to come, where known.
    pub closed spec fn spec_n_left(&self) -> Option<usize> {
        self.n_left
    }

    /// The diagrams with `n` chords, of which there are `n_left` if that is given.
    pub fn new(n: usize, n_left: Option<usize>) -> (r: Self)
        requires
            n <= 127,
        ensures
            r.wf(),
            r.remaining() == rooted(n as nat),
            r.given() == Set::<Seq<u8>>::empty(),
            r.spec_n_left() == n_left,
    {
        ChordDiagramIterator { rooted: RootedDiagrams::new(n), cache: trie_new(), n_left }
    }

    /// The next chord diagram, in canonical form: the canonical form of the next rooted diagram
    /// whose canonical form has not been given yet. `None` once the count has reached zero or
    /// the rooted diagrams have run out.
    #[verifier::spinoff_prover]
    pub fn next(&mut self) -> (r: Option<ChordDiagram>)
        requires
            old(self).wf(),
        ensures
            final(self).wf(),
            old(self).spec_n_left() == Some(0usize) ==> r is None && *final(self) == *old(self),
            old(self).spec_n_left() != Some(0usize) ==> {
                let used = (old(self).remaining().len() - final(self).remaining().len()) as int;
                let taken = old(self).remaining().take(used);
                &&& final(self).remaining() == old(self).remaining().skip(used)
                &&& final(self).given() == old(self).given().union(canonical_forms(taken))
                &&& match r {
                    None => {
                        &&& final(self).remaining().len() == 0
                        &&& all_seen(old(self).given(), taken)
                        &&& final(self).given() == old(self).given()
                        &&& final(self).spec_n_left() == old(self).spec_n_left()
                    },
                    Some(d) => {
                        &&& used >= 1
                        &&& d@ == canonical(taken[used - 1])
                        &&& !old(self).given().contains(d@)
                        &&& final(self).given() == old(self).given().insert(d@)
                        &&& all_seen(old(self).given(), taken.take(used - 1))
                        &&& final(self).spec_n_left() == match old(self).spec_n_left() {
                            Some(k) => Some((k - 1) as usize),
                            None => None,
                        }
                    },
                }
            },
    {
        if self.n_left == Some(0usize) {
            return None;
        }
        let ghost start = self.rooted.remaining();
        let ghost seen0 = trie_keys(self.cache);
        loop
            invariant
                self.wf(),
                self.n_left == old(self).n_left,
                self.n_left != Some(0usize),
                start == old(self).remaining(),
                seen0 == old(self).given(),
                start.len() >= self.rooted.remaining().len(),
                self.rooted.remaining() == start.skip(start.len() - self.rooted.remaining().len()),
                trie_keys(self.cache) == seen0.union(canonical_forms(start.take(start.len() - self.rooted.remaining().len()))),
                all_seen(seen0, start.take(start.len() - self.rooted.remaining().len())),
            decreases self.rooted.remaining().len(),
        {
            let ghost before = self.rooted.remaining();
            let ghost used0 = start.len() - before.len();
            proof {
                self.rooted.lemma_remaining_len();
            }
            let mut ends = match self.rooted.next() {
                Some(e) => e,
                None => {
                    proof {
                        lemma_all_seen_closed(seen0, start.take(start.len() - self.rooted.remaining().len()));
                        assert(trie_keys(self.cache) =~= seen0);
                    }
                    return None;
                },
            };
            proof {
                assert(ends@ == before[0]);
                assert(ends@.len() == 2 * self.rooted.spec_size());
                assert(canon_fits(ends@)) by {
                    assert forall|k: int| 0 <= k < ends@.len() implies labels_fit(#[trigger] rotate(ends@, k)) by {
                        lemma_openings_bound(rotate(ends@, k), rotate(ends@, k).len() as int);
                    }
                }
                assert(start[used0] == ends@);
            }
            canonicalise_ends(&mut ends);
            let key = ends.clone();
            let had = trie_insert(&mut self.cache, key);
            proof {
                let used1 = used0 + 1;
                assert(start.take(used1) == start.take(used0).push(start[used0]));
                lemma_canonical_forms_push(start.take(used0), start[used0]);
                assert(self.rooted.remaining() == start.skip(used1));
            }
            match had {
                Some(_) => {
                    proof {
                        lemma_all_seen_push(seen0, start.take(used0), start[used0]);
                    }
                },
                None => {
                    self.n_left = match self.n_left {
                        Some(k) => Some(k - 1),
                        None => None,
                    };
                    proof {
                        let used1 = used0 + 1;
                        assert(start.take(used1).take(used0) == start.take(used0));
                        assert(start.take(used1)[used0] == start[used0]);
                        lemma_all_seen_closed(seen0, start.take(used0));
                        assert(trie_keys(self.cache) =~= seen0.insert(ends@));
                    }
                    return Some(ChordDiagram { ends });
                },
            }
        }
    }

    /// The number of diagrams still to come, as lower and upper bound, where known.
    pub fn size_hint(&self) -> (r: (usize, Option<usize>))
        ensures
            r == match self.spec_n_left() {
                Some(k) => (k, Some(k)),
                None => (0usize, None::<usize>),
            },
    {
        match self.n_left {
            Some(k) => (k, Some(k)),
            None => (0, None),
        }
    }
}

proof fn lemma_openings_bound(s: Seq<u8>, i: int)
    requires
        0 <= i,
    ensures
        openings(s, i) <= i,
    decreases i,
{
    if i > 0 {
        lemma_openings_bound(s, i - 1);
    }
}

proof fn lemma_canonical_forms_push(xs: Seq<Seq<u8>>, x: Seq<u8>)
    ensures
        canonical_forms(xs.push(x)) == canonical_forms(xs).insert(canonical(x)),
{
    let ys = xs.push(x);
    assert forall|c: Seq<u8>| canonical_forms(ys).contains(c) <==> canonical_forms(xs).insert(
        canonical(x)).contains(c) by {
        if canonical_forms(ys).contains(c) {
            let t = choose|t: int| 0 <= t < ys.len() && c == canonical(#[trigger] ys[t]);
            if t < xs.len() {
                assert(xs[t] == ys[t]);
            }
        }
        if canonical_forms(xs).contains(c) {
            let t = choose|t: int| 0 <= t < xs.len() && c == canonical(#[trigger] xs[t]);
            assert(ys[t] == xs[t]);
        }
        if c == canonical(x) {
            assert(ys[xs.len() as int] == x);
        }
    }
    assert(canonical_forms(ys) =~= canonical_forms(xs).insert(canonical(x)));
}

proof fn lemma_all_seen_push(seen: Set<Seq<u8>>, xs: Seq<Seq<u8>>, x: Seq<u8>)
    requires
        all_seen(seen, xs),
        seen.union(canonical_forms(xs)).contains(canonical(x)),
    ensures
        all_seen(seen, xs.push(x)),
{
    let ys = xs.push(x);
    assert forall|t: int| 0 <= t < ys.len() implies seen.union(canonical_forms(ys.take(t))).contains(
        canonical(#[trigger] ys[t])) by {
        if t < xs.len() {
            assert(ys.take(t) == xs.take(t));
            assert(ys[t] == xs[t]);
        } else {
            assert(ys.take(t) == xs);
        }
    }
}

/// Beyond this many chords, the number of chord diagrams does not fit in 64 bits, and it is
/// not formed.
pub const COUNT_LIMIT: usize = 18;

/// The largest number of chords for which diagrams are enumerated: twice it fits in a byte.
pub const ENUMERATION_LIMIT: usize = 127;

/// `xs.take(a)` and the next `b` items of what follows have the canonical forms of
/// `xs.take(a + b)`.
proof fn lemma_canonical_forms_split(xs: Seq<Seq<u8>>, a: int, b: int)
    requires
        0 <= a,
        0 <= b,
        a + b <= xs.len(),
    ensures
        canonical_forms(xs.take(a)).union(canonical_forms(xs.skip(a).take(b))) == canonical_forms(
            xs.take(a + b)),
{
    let l = canonical_forms(xs.take(a)).union(canonical_forms(xs.skip(a).take(b)));
    let r = canonical_forms(xs.take(a + b));
    assert forall|c: Seq<u8>| l.contains(c) <==> r.contains(c) by {
        if canonical_forms(xs.take(a)).contains(c) {
            let t = choose|t: int| 0 <= t < a && c == canonical(#[trigger] xs.take(a)[t]);
            assert(xs.take(a + b)[t] == xs.take(a)[t]);
        }
        if canonical_forms(xs.skip(a).take(b)).contains(c) {
            let t = choose|t: int| 0 <= t < b && c == canonical(#[trigger] xs.skip(a).take(b)[t]);
            assert(xs.take(a + b)[a + t] == xs.skip(a).take(b)[t]);
        }
        if r.contains(c) {
            let t = choose|t: int| 0 <= t < a + b && c == canonical(#[trigger] xs.take(a + b)[t]);
            if t < a {
                assert(xs.take(a)[t] == xs.take(a + b)[t]);
            } else {
                assert(xs.skip(a).take(b)[t - a] == xs.take(a + b)[t]);
            }
        }
    }
    assert(l =~= r);
}

proof fn lemma_canonical_forms_prefix(xs: Seq<Seq<u8>>, a: int)
    requires
        0 <= a <= xs.len(),
    ensures
        canonical_forms(xs.take(a)).subset_of(canonical_forms(xs)),
{
    assert forall|c: Seq<u8>| canonical_forms(xs.take(a)).contains(c) implies canonical_forms(xs).contains(c) by {
        let t = choose|t: int| 0 <= t < a && c == canonical(#[trigger] xs.take(a)[t]);
        assert(xs[t] == xs.take(a)[t]);
    }
}

impl ChordDiagram {
    /// `count_deg` with Euler's totient counted by `util::totient_by_counting`.
    pub fn count_deg_by_counting(degree: usize) -> (r: Option<usize>)
        ensures
            r == (if degree <= COUNT_LIMIT && count_fits(degree as nat) && chord_diagram_count(
                degree as nat) <= usize::MAX {
                Some(chord_diagram_count(degree as nat) as usize)
            } else {
                None
            }),
    {
        let phi = |d: u128| -> (t: u128)
            ensures
                t == totient(d as int),
            { crate::util::totient_by_counting(d) };
        Self::count_deg(degree, &phi)
    }

    /// The number of chord diagrams with `degree` chords, when it is formed: up to
    /// `COUNT_LIMIT` chords, and when it fits. `phi` computes Euler's totient.
    pub fn count_deg<F: Fn(u128) -> u128>(degree: usize, phi: &F) -> (r: Option<usize>)
        requires
            computes_totient(*phi),
        ensures
            r == (if degree <= COUNT_LIMIT && count_fits(degree as nat) && chord_diagram_count(
                degree as nat) <= usize::MAX {
                Some(chord_diagram_count(degree as nat) as usize)
            } else {
                None
            }),
    {
        if degree > COUNT_LIMIT {
            return None;
        }
        match checked_count(degree, phi) {
            Some(v) => {
                if v <= usize::MAX as u128 {
                    Some(v as usize)
                } else {
                    None
                }
            },
            None => None,
        }
    }

    /// The chord diagrams with `degree` chords, each once, in canonical form; it knows how
    /// many there are when `count_deg` does. `phi` computes Euler's totient.
    pub fn iterate_deg<F: Fn(u128) -> u128>(degree: usize, phi: &F) -> (r: ChordDiagramIterator)
        requires
            degree <= ENUMERATION_LIMIT,
            computes_totient(*phi),
        ensures
            r.wf(),
            r.remaining() == rooted(degree as nat),
            r.given() == Set::<Seq<u8>>::empty(),
            r.spec_n_left() == (if degree <= COUNT_LIMIT && count_fits(degree as nat)
                && chord_diagram_count(degree as nat) <= usize::MAX {
                Some(chord_diagram_count(degree as nat) as usize)
            } else {
                None
            }),
    {
        let n_left = ChordDiagram::count_deg(degree, phi);
        ChordDiagramIterator::new(degree, n_left)
    }

    /// All that `iterate_deg` gives: distinct canonical forms of rooted diagrams with `degree`
    /// chords, as many as `count_deg` says where it says, and otherwise all of them.
    pub fn collect_deg<F: Fn(u128) -> u128>(degree: usize, phi: &F) -> (r: Vec<ChordDiagram>)
        requires
            degree <= ENUMERATION_LIMIT,
            computes_totient(*phi),
        ensures
            forall|i: int, j: int| 0 <= i < j < r@.len() ==> r@[i]@ != r@[j]@,
            forall|i: int| 0 <= i < r@.len() ==> canonical_forms(rooted(degree as nat)).contains(
                #[trigger] r@[i]@),
            ChordDiagram::count_deg_spec(degree) is None ==> forall|c: Seq<u8>| canonical_forms(
                rooted(degree as nat)).contains(c) ==> exists|i: int| 0 <= i < r@.len() && #[trigger] r@[i]@ == c,
            ChordDiagram::count_deg_spec(degree) matches Some(k) ==> r@.len() <= k,
    {
        let mut it = ChordDiagram::iterate_deg(degree, phi);
        let ghost all = rooted(degree as nat);
        let mut r: Vec<ChordDiagram> = Vec::new();
        proof {
            assert(all.take(0) =~= Seq::<Seq<u8>>::empty());
            assert(canonical_forms(all.take(0)) =~= Set::<Seq<u8>>::empty());
            assert(views_of(r@) =~= Set::<Seq<u8>>::empty());
            assert(all.skip(0) == all);
        }
        loop
            invariant
                it.wf(),
                all == rooted(degree as nat),
                it.remaining().len() <= all.len(),
                it.remaining() == all.skip(all.len() - it.remaining().len()),
                it.given() == canonical_forms(all.take(all.len() - it.remaining().len())),
                it.given() == views_of(r@),
                forall|i: int, j: int| 0 <= i < j < r@.len() ==> r@[i]@ != r@[j]@,
                ChordDiagram::count_deg_spec(degree) is None ==> it.spec_n_left() is None,
                ChordDiagram::count_deg_spec(degree) matches Some(k) ==> it.spec_n_left() matches Some(m) && r@.len() + m == k,
            decreases it.remaining().len(),
        {
            let ghost before = it.remaining();
            let ghost used0 = all.len() - before.len();
            let got = it.next();
            proof {
                if it.spec_n_left() != Some(0usize) || got is Some {
                    lemma_collect_step(all, used0, before.len() - it.remaining().len());
                }
            }
            match got {
                None => {
                    proof {
                        lemma_canonical_forms_prefix(all, all.len() - it.remaining().len());
                        if ChordDiagram::count_deg_spec(degree) is None {
                            assert(all.take(all.len() as int) == all);
                        }
                        assert forall|i: int| 0 <= i < r@.len() implies canonical_forms(all).contains(#[trigger] r@[i]@) by {
                            assert(views_of(r@).contains(r@[i]@));
                        }
                        assert forall|c: Seq<u8>| canonical_forms(all).contains(c) && ChordDiagram::count_deg_spec(degree) is None
                            implies exists|i: int| 0 <= i < r@.len() && #[trigger] r@[i]@ == c by {
                            assert(views_of(r@).contains(c));
                        }
                    }
                    return r;
                },
                Some(d) => {
                    let ghost rv = r@;
                    r.push(d);
                    proof {
                        lemma_views_push(rv, d);
                        assert forall|i: int, j: int| 0 <= i < j < r@.len() implies r@[i]@ != r@[j]@ by {
                            if j == rv.len() {
                                assert(views_of(rv).contains(rv[i]@));
                            } else {
                                assert(rv[i] == r@[i] && rv[j] == r@[j]);
                            }
                        }
                    }
                },
            }
        }
    }

    /// What `count_deg` returns.
    pub open spec fn count_deg_spec(degree: usize) -> Option<usize> {
        if degree <= COUNT_LIMIT && count_fits(degree as nat) && chord_diagram_count(degree as nat)
            <= usize::MAX {
            Some(chord_diagram_count(degree as nat) as usize)
        } else {
            None
        }
    }
}

/// When each item's canonical form is in `seen` or comes from an earlier item, all of them are
/// in `seen`.
proof fn lemma_all_seen_closed(seen: Set<Seq<u8>>, xs: Seq<Seq<u8>>)
    requires
        all_seen(seen, xs),
    ensures
        canonical_forms(xs).subset_of(seen),
    decreases xs.len(),
{
    if xs.len() > 0 {
        let ys = xs.drop_last();
        assert forall|t: int| 0 <= t < ys.len() implies seen.union(canonical_forms(ys.take(t))).contains(
            canonical(#[trigger] ys[t])) by {
            assert(ys.take(t) == xs.take(t));
            assert(ys[t] == xs[t]);
        }
        lemma_all_seen_closed(seen, ys);
        assert(xs.take(ys.len() as int) == ys);
        assert(seen.union(canonical_forms(ys)).contains(canonical(xs[ys.len() as int])));
        assert(xs == ys.push(xs[ys.len() as int]));
        lemma_canonical_forms_push(ys, xs[ys.len() as int]);
    }
}

/// The ends of the diagrams of `r`.
pub open spec fn views_of(r: Seq<ChordDiagram>) -> Set<Seq<u8>> {
    Set::new(|c: Seq<u8>| exists|i: int| 0 <= i < r.len() && #[trigger] r[i]@ == c)
}

proof fn lemma_views_push(r: Seq<ChordDiagram>, d: ChordDiagram)
    ensures
        views_of(r.push(d)) == views_of(r).insert(d@),
{
    let q = r.push(d);
    assert forall|c: Seq<u8>| views_of(q).contains(c) <==> views_of(r).insert(d@).contains(c) by {
        if views_of(q).contains(c) {
            let i = choose|i: int| 0 <= i < q.len() && #[trigger] q[i]@ == c;
            if i < r.len() {
                assert(r[i] == q[i]);
            }
        }
        if views_of(r).contains(c) {
            let i = choose|i: int| 0 <= i < r.len() && #[trigger] r[i]@ == c;
            assert(q[i] == r[i]);
        }
        if c == d@ {
            assert(q[r.len() as int]@ == c);
        }
    }
    assert(views_of(q) =~= views_of(r).insert(d@));
}

proof fn lemma_collect_step(all: Seq<Seq<u8>>, used0: int, used: int)
    requires
        0 <= used0,
        0 <= used,
        used0 + used <= all.len(),
    ensures
        all.skip(used0).skip(used) == all.skip(used0 + used),
        canonical_forms(all.take(used0)).union(canonical_forms(all.skip(used0).take(used)))
            == canonical_forms(all.take(used0 + used)),
        all.len() - all.skip(used0).skip(used).len() == used0 + used,
{
    assert(all.skip(used0).skip(used) =~= all.skip(used0 + used));
    lemma_canonical_forms_split(all, used0, used);
}

impl ChordDiagram {
    /// Hands the ends to `f`, which gives them back changed together with a value, puts them in
    /// canonical form, and gives that value.
    pub fn apply<T, F: FnOnce(Vec<u8>) -> (Vec<u8>, T)>(&mut self, f: F) -> (r: T)
        requires
            forall|v: Vec<u8>| v@ == old(self)@ ==> #[trigger] call_requires(f, (v,)),
            forall|v: Vec<u8>, out: (Vec<u8>, T)| v@ == old(self)@ && #[trigger] call_ensures(f, (v,), out)
                ==> canon_fits(out.0@),
        ensures
            exists|v: Vec<u8>, out: (Vec<u8>, T)| v@ == old(self)@ && #[trigger] call_ensures(f, (v,), out)
                && final(self)@ == canonical(out.0@) && r == out.1,
    {
        let mut ends: Vec<u8> = Vec::new();
        core::mem::swap(&mut ends, &mut self.ends);
        let (mut changed, value) = f(ends);
        canonicalise_ends(&mut changed);
        self.ends = changed;
        value
    }
}

/// The byte of a space.
pub const SPACE: u8 = 32;

/// The fields of `s` between single spaces, as `str::split(" ")` gives them.
pub open spec fn fields(s: Seq<u8>) -> Seq<Seq<u8>>
    decreases s.len(),
{
    let i = last_pos(s, SPACE, s.len() as int);
    if i < 0 {
        seq![s]
    } else {
        proof {
            lemma_last_pos(s, SPACE, s.len() as int);
        }
        fields(s.take(i)) + seq![s.skip(i + 1)]
    }
}

/// The value of the decimal digits `d`.
pub open spec fn digits_value(d: Seq<u8>) -> int
    decreases d.len(),
{
    if d.len() == 0 {
        0
    } else {
        digits_value(d.drop_last()) * 10 + (d.last() - 48)
    }
}

/// `d` holds decimal digits only.
pub open spec fn all_digits(d: Seq<u8>) -> bool {
    forall|i: int| 0 <= i < d.len() ==> 48 <= #[trigger] d[i] <= 57
}

/// The digits of a field, after a leading `+` if there is one.
pub open spec fn unsigned_digits(f: Seq<u8>) -> Seq<u8> {
    if f.len() > 0 && f[0] == 43 {
        f.drop_first()
    } else {
        f
    }
}

/// The field is a byte in decimal, as `u8::from_str` reads it: an optional `+`, then at least
/// one digit, with a value below 256.
pub open spec fn field_parses(f: Seq<u8>) -> bool {
    let d = unsigned_digits(f);
    &&& d.len() > 0
    &&& all_digits(d)
    &&& digits_value(d) <= 255
}

/// The byte that a field that parses stands for.
pub open spec fn field_value(f: Seq<u8>) -> u8 {
    digits_value(unsigned_digits(f)) as u8
}

/// `s` lists chord ends: it is empty, or each of its fields between spaces is a byte.
pub open spec fn ends_parse(s: Seq<u8>) -> bool {
    s.len() == 0 || forall|j: int| 0 <= j < fields(s).len() ==> field_parses(#[trigger] fields(s)[j])
}

/// The chord ends that `s` lists.
pub open spec fn parsed_ends(s: Seq<u8>) -> Seq<u8> {
    if s.len() == 0 {
        Seq::empty()
    } else {
        fields(s).map_values(|f: Seq<u8>| field_value(f))
    }
}

/// `s` without the brackets round it, if it has both.
pub open spec fn unbracketed(s: Seq<u8>) -> Seq<u8> {
    if s.len() >= 2 && s[0] == 40 && s[s.len() - 1] == 41 {
        s.subrange(1, s.len() - 1)
    } else {
        s
    }
}

pub proof fn lemma_digits_value_grows(d: Seq<u8>, k: int)
    requires
        all_digits(d),
        0 <= k <= d.len(),
    ensures
        digits_value(d.take(k)) <= digits_value(d),
        digits_value(d) >= 0,
    decreases d.len(),
{
    if d.len() > 0 {
        let e = d.drop_last();
        assert(all_digits(e));
        if k == d.len() {
            assert(d.take(k) == d);
            lemma_digits_value_grows(e, 0);
        } else {
            assert(d.take(k) == e.take(k));
            lemma_digits_value_grows(e, k);
        }
    }
}

/// The byte that the field `s[lo..hi]` stands for, or `None` if it does not parse.
pub(crate) fn parse_field(s: &[u8], lo: usize, hi: usize) -> (r: Option<u8>)
    requires
        lo <= hi <= s@.len(),
    ensures
        r is Some <==> field_parses(s@.subrange(lo as int, hi as int)),
        r matches Some(v) ==> v == field_value(s@.subrange(lo as int, hi as int)),
{
    let ghost f = s@.subrange(lo as int, hi as int);
    let start = if lo < hi && s[lo] == 43 { lo + 1 } else { lo };
    let ghost d = s@.subrange(start as int, hi as int);
    proof {
        assert(unsigned_digits(f) == d);
    }
    if start == hi {
        return None;
    }
    let mut value: u32 = 0;
    let mut i: usize = start;
    while i < hi
        invariant
            start <= i <= hi <= s@.len(),
            lo <= hi,
            d == s@.subrange(start as int, hi as int),
            unsigned_digits(s@.subrange(lo as int, hi as int)) == d,
            all_digits(d.take(i - start)),
            value == digits_value(d.take(i - start)),
            value <= 255,
        decreases hi - i,
    {
        let c = s[i];
        proof {
            assert(d.take(i - start + 1).drop_last() == d.take(i - start));
            assert(d[i - start] == c);
        }
        if c < 48 || c > 57 {
            proof {
                assert(!all_digits(d)) by {
                    assert(d[i - start] == c);
                }
            }
            return None;
        }
        value = value * 10 + (c - 48) as u32;
        proof {
            assert(all_digits(d.take(i - start + 1))) by {
                assert forall|q: int| 0 <= q < i - start + 1 implies 48 <= #[trigger] d.take(i - start + 1)[q] <= 57 by {
                    if q < i - start {
                        assert(d.take(i - start + 1)[q] == d.take(i - start)[q]);
                    }
                }
            }
        }
        if value > 255 {
            proof {
                if all_digits(d) {
                    lemma_digits_value_grows(d, i - start + 1);
                }
            }
            return None;
        }
        i = i + 1;
    }
    proof {
        assert(d.take(hi - start) == d);
    }
    Some(value as u8)
}

proof fn lemma_last_pos_prefix(s: Seq<u8>, x: u8, n: int, k: int)
    requires
        0 <= k <= n <= s.len(),
    ensures
        last_pos(s.take(n), x, k) == last_pos(s, x, k),
    decreases k,
{
    if k > 0 {
        lemma_last_pos_prefix(s, x, n, k - 1);
        assert(s.take(n)[k - 1] == s[k - 1]);
    }
}

proof fn lemma_last_pos_skip(s: Seq<u8>, x: u8, a: int, b: int)
    requires
        0 <= a <= b <= s.len(),
        forall|q: int| a <= q < b ==> s[q] != x,
    ensures
        last_pos(s, x, b) == last_pos(s, x, a),
    decreases b,
{
    if a < b {
        lemma_last_pos_skip(s, x, a, b - 1);
    }
}

/// The fields of `s.take(i)`, where the current field starts at `start`, just after a space
/// (or at 0), and has no space.
proof fn lemma_fields_prefix(s: Seq<u8>, start: int, i: int)
    requires
        0 <= start <= i <= s.len(),
        start > 0 ==> s[start - 1] == SPACE,
        forall|q: int| start <= q < i ==> s[q] != SPACE,
    ensures
        fields(s.take(i)) == (if start > 0 { fields(s.take(start - 1)) } else { Seq::empty() }) + seq![
            s.subrange(start, i)],
{
    let t = s.take(i);
    lemma_last_pos_prefix(s, SPACE, i, i);
    lemma_last_pos_skip(s, SPACE, start, i);
    if start > 0 {
        assert(last_pos(s, SPACE, start) == start - 1);
        assert(t.take(start - 1) =~= s.take(start - 1));
        assert(t.skip(start) =~= s.subrange(start, i));
    } else {
        assert(t =~= s.subrange(0, i));
        assert(Seq::<Seq<u8>>::empty() + seq![s.subrange(start, i)] =~= seq![s.subrange(0, i)]);
    }
}

/// The chord ends that `s` lists, as `str::split(" ")` and `u8::from_str` read them; `Err` if a
/// field is not a byte.
pub fn parse_ends(s: &[u8]) -> (r: Result<Vec<u8>, ()>)
    ensures
        r is Ok <==> ends_parse(s@),
        r matches Ok(v) ==> v@ == parsed_ends(s@),
{
    let n = s.len();
    if n == 0 {
        return Ok(Vec::new());
    }
    let mut out: Vec<u8> = Vec::new();
    let mut ok = true;
    let mut start: usize = 0;
    let mut i: usize = 0;
    while i < n
        invariant
            n == s@.len(),
            start <= i <= n,
            start > 0 ==> s@[start - 1] == SPACE,
            forall|q: int| start <= q < i ==> s@[q] != SPACE,
            start == 0 ==> ok && out@.len() == 0,
            start > 0 ==> (ok <==> forall|j: int| 0 <= j < fields(s@.take(start - 1)).len() ==> field_parses(
                #[trigger] fields(s@.take(start - 1))[j])),
            start > 0 && ok ==> out@ == fields(s@.take(start - 1)).map_values(|f: Seq<u8>| field_value(f)),
        decreases n - i,
    {
        if s[i] == SPACE {
            proof {
                lemma_fields_prefix(s@, start as int, i as int);
            }
            let ghost prev = if start > 0 { fields(s@.take(start - 1)) } else { Seq::empty() };
            let ghost now = fields(s@.take(i as int));
            if ok {
                match parse_field(s, start, i) {
                    Some(v) => {
                        out.push(v);
                        proof {
                            assert(out@ =~= now.map_values(|f: Seq<u8>| field_value(f)));
                        }
                    },
                    None => {
                        ok = false;
                        proof {
                            assert(!field_parses(now[now.len() - 1]));
                        }
                    },
                }
            }
            proof {
                if ok {
                    assert forall|j: int| 0 <= j < now.len() implies field_parses(#[trigger] now[j]) by {
                        if j < prev.len() {
                            assert(now[j] == prev[j]);
                        }
                    }
                } else {
                    if start > 0 && !(forall|j: int| 0 <= j < prev.len() ==> field_parses(#[trigger] prev[j])) {
                        let j = choose|j: int| 0 <= j < prev.len() && !field_parses(#[trigger] prev[j]);
                        assert(now[j] == prev[j]);
                        assert(!field_parses(now[j]));
                    } else {
                        assert(!field_parses(now[now.len() - 1]));
                    }
                }
            }
            start = i + 1;
            proof {
                assert(s@.take(start - 1) == s@.take(i as int));
                if !ok {
                    let j = choose|j: int| 0 <= j < now.len() && !field_parses(#[trigger] now[j]);
                    assert(!field_parses(fields(s@.take(start - 1))[j]));
                }
            }
        }
        i = i + 1;
    }
    proof {
        lemma_fields_prefix(s@, start as int, n as int);
        assert(s@.take(n as int) == s@);
    }
    let ghost prev = if start > 0 { fields(s@.take(start - 1)) } else { Seq::empty() };
    let ghost all = fields(s@);
    if !ok {
        proof {
            let j = choose|j: int| 0 <= j < prev.len() && !field_parses(#[trigger] prev[j]);
            assert(all[j] == prev[j]);
        }
        return Err(());
    }
    match parse_field(s, start, n) {
        Some(v) => {
            out.push(v);
            proof {
                assert(out@ =~= all.map_values(|f: Seq<u8>| field_value(f)));
                assert forall|j: int| 0 <= j < all.len() implies field_parses(#[trigger] all[j]) by {
                    if j < prev.len() {
                        assert(all[j] == prev[j]);
                    }
                }
            }
            Ok(out)
        },
        None => {
            proof {
                assert(!field_parses(all[all.len() - 1]));
            }
            Err(())
        },
    }
}

impl ChordDiagram {
    /// The diagram that `s` writes, as its ends between spaces, in brackets or not; the ends
    /// are taken as they are. `Err` if a field is not a byte.
    pub fn parse(s: &str) -> (r: Result<ChordDiagram, ()>)
        ensures
            r is Ok <==> ends_parse(unbracketed(s.spec_bytes())),
            r matches Ok(d) ==> d@ == parsed_ends(unbracketed(s.spec_bytes())),
    {
        let b = s.as_bytes();
        let n = b.len();
        let inner: &[u8] = if n >= 2 && b[0] == 40 && b[n - 1] == 41 {
            slice_between(b, 1, n - 1)
        } else {
            b
        };
        match parse_ends(inner) {
            Ok(ends) => Ok(ChordDiagram { ends }),
            Err(e) => Err(e),
        }
    }

    /// The diagram that a CSV field writes, as its ends between spaces; the ends are taken as
    /// they are. `Err` if a field is not a byte.
    pub fn from_csv_string(s: &str) -> (r: Result<ChordDiagram, ()>)
        ensures
            r is Ok <==> ends_parse(s.spec_bytes()),
            r matches Ok(d) ==> d@ == parsed_ends(s.spec_bytes()),
    {
        match parse_ends(s.as_bytes()) {
            Ok(ends) => Ok(ChordDiagram { ends }),
            Err(e) => Err(e),
        }
    }
}

/// `s[lo..hi]`.
fn slice_between(s: &[u8], lo: usize, hi: usize) -> (r: &[u8])
    requires
        lo <= hi <= s@.len(),
    ensures
        r@ == s@.subrange(lo as int, hi as int),
{
    vstd::slice::slice_subrange(s, lo, hi)
}

/// `p` comes before `q` in lexicographic order.
pub open spec fn pair_lt(p: (usize, usize), q: (usize, usize)) -> bool {
    p.0 < q.0 || (p.0 == q.0 && p.1 < q.1)
}

proof fn lemma_occ_witness(s: Seq<u8>, x: u8, a: int, b: int)
    requires
        0 <= a <= b <= s.len(),
        occ(s, x, b) > occ(s, x, a),
    ensures
        s.contains(x),
    decreases b - a,
{
    if s[b - 1] == x {
        assert(s[b - 1] == x);
    } else {
        lemma_occ_witness(s, x, a, b - 1);
    }
}

proof fn lemma_crosses_present(s: Seq<u8>, chord: u8, a: u8)
    requires
        crosses(s, chord, a),
    ensures
        s.contains(a),
{
    let i0 = first_pos(s, chord);
    lemma_first_pos(s, chord);
    let start = i0 + 1;
    let u = s.subrange(start, s.len() as int);
    lemma_first_pos(u, chord);
    let stop = next_end(s, chord, start);
    assert(start <= stop <= s.len());
    lemma_occ_mono(s, a, start, stop);
    lemma_occ_witness(s, a, start, stop);
}

impl ChordDiagram {
    /// The intersection graph of the diagram: its vertices are the chords, in increasing
    /// order of label, and vertices `i < j` are joined when chord `j` crosses chord `i` (see
    /// `neighbours`). The edges are listed in lexicographic order.
    pub fn intersection_edges(&self) -> (r: (Vec<u8>, Vec<(usize, usize)>))
        ensures
            forall|i: int, j: int| 0 <= i < j < r.0@.len() ==> r.0@[i] < r.0@[j],
            forall|a: u8| #[trigger] r.0@.contains(a) <==> self@.contains(a),
            forall|e: (usize, usize)| #[trigger] r.1@.contains(e) <==> (e.0 < e.1 < r.0@.len() && crosses(
                self@, r.0@[e.0 as int], r.0@[e.1 as int])),
            forall|p: int, q: int| 0 <= p < q < r.1@.len() ==> pair_lt(r.1@[p], r.1@[q]),
    {
        let ghost s = self@;
        let n = self.ends.len();
        let mut flags: Vec<bool> = Vec::new();
        let mut t: usize = 0;
        while t < 256
            invariant
                t <= 256,
                flags.len() == t,
                forall|x: int| 0 <= x < t ==> !flags@[x],
            decreases 256 - t,
        {
            flags.push(false);
            t = t + 1;
        }
        let mut q: usize = 0;
        while q < n
            invariant
                q <= n,
                n == s.len(),
                s == self.ends@,
                flags.len() == 256,
                forall|x: u8| #[trigger] flags@[x as int] <==> s.take(q as int).contains(x),
            decreases n - q,
        {
            let x = self.ends[q];
            flags.set(x as usize, true);
            proof {
                assert forall|y: u8| #[trigger] flags@[y as int] <==> s.take(q + 1).contains(y) by {
                    if s.take(q + 1).contains(y) && y != x {
                        let j = choose|j: int| 0 <= j < q + 1 && #[trigger] s.take(q + 1)[j] == y;
                        assert(s.take(q as int)[j] == y);
                    }
                    if s.take(q as int).contains(y) {
                        let j = choose|j: int| 0 <= j < q && #[trigger] s.take(q as int)[j] == y;
                        assert(s.take(q + 1)[j] == y);
                    }
                    if y == x {
                        assert(s.take(q + 1)[q as int] == y);
                    }
                }
            }
            q = q + 1;
        }
        proof {
            assert(s.take(n as int) == s);
        }
        let mut chords: Vec<u8> = Vec::new();
        let mut pos: Vec<usize> = Vec::new();
        let mut x: usize = 0;
        while x < 256
            invariant
                x <= 256,
                flags.len() == 256,
                forall|y: u8| #[trigger] flags@[y as int] <==> s.contains(y),
                pos.len() == x,
                forall|i: int, j: int| 0 <= i < j < chords@.len() ==> chords@[i] < chords@[j],
                forall|i: int| 0 <= i < chords@.len() ==> chords@[i] < x,
                forall|y: u8| y < x ==> (#[trigger] chords@.contains(y) <==> flags@[y as int]),
                forall|y: u8| y >= x ==> !#[trigger] chords@.contains(y),
                forall|y: int| 0 <= y < x ==> #[trigger] pos@[y] <= chords@.len(),
                forall|y: int| 0 <= y < x && flags@[y] ==> #[trigger] pos@[y] < chords@.len() && chords@[pos@[y] as int] == y,
                chords@.len() <= x,
            decreases 256 - x,
        {
            pos.push(chords.len());
            let ghost before = chords@;
            if flags[x] {
                chords.push(x as u8);
            }
            proof {
                assert forall|y: u8| #[trigger] chords@.contains(y) <==> (before.contains(y) || (y == x && flags@[x as int])) by {
                    if chords@.contains(y) && !before.contains(y) {
                        let k = choose|k: int| 0 <= k < chords@.len() && chords@[k] == y;
                        assert(k == before.len());
                    }
                    if before.contains(y) {
                        let k = choose|k: int| 0 <= k < before.len() && before[k] == y;
                        assert(chords@[k] == y);
                    }
                    if y == x && flags@[x as int] {
                        assert(chords@[before.len() as int] == y);
                    }
                }
                assert forall|y: int| 0 <= y < x + 1 && flags@[y] implies #[trigger] pos@[y] < chords@.len() && chords@[pos@[y] as int] == y by {
                    if y < x {
                        assert(pos@[y] < before.len());
                        assert(chords@[pos@[y] as int] == before[pos@[y] as int]);
                    }
                }
            }
            x = x + 1;
        }
        let k = chords.len();
        let mut edges: Vec<(usize, usize)> = Vec::new();
        let mut i: usize = 0;
        while i < k
            invariant
                i <= k,
                k == chords@.len(),
                s == self@,
                pos.len() == 256,
                forall|a: int, b: int| 0 <= a < b < k ==> chords@[a] < chords@[b],
                forall|y: u8| #[trigger] chords@.contains(y) <==> s.contains(y),
                forall|y: u8| #[trigger] s.contains(y) ==> pos@[y as int] < k && chords@[pos@[y as int] as int] == y,
                forall|e: (usize, usize)| #[trigger] edges@.contains(e) <==> (e.0 < i && e.0 < e.1 < k && crosses(
                    s, chords@[e.0 as int], chords@[e.1 as int])),
                forall|p: int, q: int| 0 <= p < q < edges@.len() ==> pair_lt(edges@[p], edges@[q]),
                forall|p: int| 0 <= p < edges@.len() ==> (#[trigger] edges@[p]).0 < i,
            decreases k - i,
        {
            let a = chords[i];
            let nb = self.neighbours(a);
            let mut t: usize = 0;
            let ghost before = edges@;
            while t < nb.len()
                invariant
                    i < k,
                    k == chords@.len(),
                    a == chords@[i as int],
                    s == self@,
                    pos.len() == 256,
                    t <= nb@.len(),
                    forall|c: int, d: int| 0 <= c < d < nb@.len() ==> nb@[c] < nb@[d],
                    forall|y: u8| #[trigger] nb@.contains(y) <==> crosses(s, a, y),
                    forall|c: int, d: int| 0 <= c < d < k ==> chords@[c] < chords@[d],
                    forall|y: u8| #[trigger] chords@.contains(y) <==> s.contains(y),
                    forall|y: u8| #[trigger] s.contains(y) ==> pos@[y as int] < k && chords@[pos@[y as int] as int] == y,
                    forall|e: (usize, usize)| #[trigger] before.contains(e) <==> (e.0 < i && e.0 < e.1 < k && crosses(
                        s, chords@[e.0 as int], chords@[e.1 as int])),
                    forall|p: int| 0 <= p < before.len() ==> (#[trigger] before[p]).0 < i,
                    edges@.len() >= before.len(),
                    edges@.take(before.len() as int) == before,
                    forall|p: int, q: int| 0 <= p < q < edges@.len() ==> pair_lt(edges@[p], edges@[q]),
                    forall|p: int| before.len() <= p < edges@.len() ==> (#[trigger] edges@[p]).0 == i
                        && i < edges@[p].1 < k && crosses(s, a, chords@[edges@[p].1 as int])
                        && exists|c: int| 0 <= c < t && nb@[c] == chords@[edges@[p].1 as int],
                    forall|c: int| 0 <= c < t && nb@[c] > a ==> edges@.contains((i, pos@[nb@[c] as int])),
                decreases nb@.len() - t,
            {
                let b = nb[t];
                if b > a {
                    proof {
                        assert(nb@.contains(b));
                        lemma_crosses_present(s, a, b);
                        assert(chords@.contains(b));
                    }
                    let j = pos[b as usize];
                    proof {
                        if i >= j {
                            if i == j {
                            } else {
                                assert(chords@[j as int] < chords@[i as int]);
                            }
                        }
                        assert(i < j);
                        assert forall|p: int| 0 <= p < edges@.len() implies pair_lt(#[trigger] edges@[p], (i, j)) by {
                            if p < before.len() {
                                assert(edges@.take(before.len() as int)[p] == edges@[p]);
                                assert(before[p].0 < i);
                            } else {
                                let e = edges@[p];
                                let c = choose|c: int| 0 <= c < t && nb@[c] == chords@[e.1 as int];
                                assert(nb@[c] < b);
                                if e.1 >= j {
                                    if e.1 > j {
                                        assert(chords@[j as int] < chords@[e.1 as int]);
                                    }
                                }
                            }
                        }
                    }
                    let ghost prev = edges@;
                    edges.push((i, j));
                    proof {
                        assert(edges@.take(before.len() as int) == prev.take(before.len() as int));
                        assert forall|p: int| before.len() <= p < edges@.len() implies (#[trigger] edges@[p]).0 == i
                            && i < edges@[p].1 < k && crosses(s, a, chords@[edges@[p].1 as int])
                            && exists|c: int| 0 <= c < t + 1 && nb@[c] == chords@[edges@[p].1 as int] by {
                            if p < prev.len() {
                                assert(edges@[p] == prev[p]);
                                let c = choose|c: int| 0 <= c < t && nb@[c] == chords@[prev[p].1 as int];
                                assert(nb@[c] == chords@[edges@[p].1 as int]);
                            } else {
                                assert(nb@[t as int] == chords@[j as int]);
                            }
                        }
                        assert forall|c: int| 0 <= c < t + 1 && nb@[c] > a implies edges@.contains((i, pos@[nb@[c] as int])) by {
                            if c < t {
                                let w = choose|w: int| 0 <= w < prev.len() && prev[w] == (i, pos@[nb@[c] as int]);
                                assert(edges@[w] == prev[w]);
                            } else {
                                assert(edges@[prev.len() as int] == (i, j));
                            }
                        }
                    }
                }
                t = t + 1;
            }
            proof {
                assert forall|e: (usize, usize)| #[trigger] edges@.contains(e) <==> (e.0 < i + 1 && e.0 < e.1 < k
                    && crosses(s, chords@[e.0 as int], chords@[e.1 as int])) by {
                    if edges@.contains(e) {
                        let p = choose|p: int| 0 <= p < edges@.len() && edges@[p] == e;
                        if p < before.len() {
                            assert(edges@.take(before.len() as int)[p] == e);
                            assert(before.contains(e));
                        }
                    }
                    if e.0 < i + 1 && e.0 < e.1 < k && crosses(s, chords@[e.0 as int], chords@[e.1 as int]) {
                        if e.0 < i {
                            assert(before.contains(e));
                            let p = choose|p: int| 0 <= p < before.len() && before[p] == e;
                            assert(edges@.take(before.len() as int)[p] == e);
                            assert(edges@[p] == e);
                        } else {
                            let b = chords@[e.1 as int];
                            assert(nb@.contains(b));
                            let c = choose|c: int| 0 <= c < nb@.len() && nb@[c] == b;
                            assert(chords@[e.0 as int] < b);
                            assert(s.contains(b)) by {
                                assert(chords@.contains(b));
                            }
                            if pos@[b as int] != e.1 {
                                let pj = pos@[b as int];
                                if pj < e.1 {
                                    assert(chords@[pj as int] < chords@[e.1 as int]);
                                } else {
                                    assert(chords@[e.1 as int] < chords@[pj as int]);
                                }
                            }
                        }
                    }
                }
                assert forall|p: int| 0 <= p < edges@.len() implies (#[trigger] edges@[p]).0 < i + 1 by {
                    if p < before.len() {
                        assert(edges@.take(before.len() as int)[p] == edges@[p]);
                    }
                }
            }
            i = i + 1;
        }
        (chords, edges)
    }
}

/// Every chord of `s` has exactly two ends.
pub open spec fn is_pairing(s: Seq<u8>) -> bool {
    forall|i: int| 0 <= i < s.len() ==> occ(s, #[trigger] s[i], s.len() as int) == 2
}

proof fn lemma_occ_prefix_concat(a: Seq<u8>, b: Seq<u8>, x: u8, i: int)
    requires
        0 <= i <= a.len(),
    ensures
        occ(a + b, x, i) == occ(a, x, i),
    decreases i,
{
    if i > 0 {
        lemma_occ_prefix_concat(a, b, x, i - 1);
        assert((a + b)[i - 1] == a[i - 1]);
    }
}

proof fn lemma_occ_concat(a: Seq<u8>, b: Seq<u8>, x: u8, j: int)
    requires
        0 <= j <= b.len(),
    ensures
        occ(a + b, x, a.len() + j) == occ(a, x, a.len() as int) + occ(b, x, j),
    decreases j,
{
    if j == 0 {
        lemma_occ_prefix_concat(a, b, x, a.len() as int);
    } else {
        lemma_occ_concat(a, b, x, j - 1);
        assert((a + b)[a.len() + j - 1] == b[j - 1]);
    }
}

proof fn lemma_occ_rotate(s: Seq<u8>, k: int, x: u8)
    requires
        0 <= k < s.len(),
    ensures
        occ(rotate(s, k), x, s.len() as int) == occ(s, x, s.len() as int),
{
    let n = s.len() as int;
    let a = s.subrange(0, k);
    let b = s.subrange(k, n);
    assert(s == a + b);
    lemma_occ_concat(a, b, x, b.len() as int);
    lemma_occ_concat(b, a, x, a.len() as int);
}

proof fn lemma_rotate_pairing(s: Seq<u8>, k: int)
    requires
        is_pairing(s),
        0 <= k < s.len(),
    ensures
        is_pairing(rotate(s, k)),
{
    let n = s.len() as int;
    let t = rotate(s, k);
    assert forall|i: int| 0 <= i < t.len() implies occ(t, #[trigger] t[i], t.len() as int) == 2 by {
        lemma_rotate_index(s, k, i);
        lemma_occ_rotate(s, k, t[i]);
        assert(t[i] == s[wrap(k, i, n)]);
    }
}

proof fn lemma_occ_zero(t: Seq<u8>, x: u8, p: int)
    requires
        0 <= p <= t.len(),
        forall|q: int| 0 <= q < p ==> t[q] != x,
    ensures
        occ(t, x, p) == 0,
    decreases p,
{
    if p > 0 {
        lemma_occ_zero(t, x, p - 1);
    }
}

/// The label that relabelling gives the chord `x` of `t`: the number of chords that open
/// before its first end.
pub open spec fn first_label(t: Seq<u8>) -> spec_fn(u8) -> u8 {
    |x: u8| openings(t, first_pos(t, x)) as u8
}

proof fn lemma_first_end(t: Seq<u8>, x: u8, p: int)
    requires
        0 <= p < t.len(),
        t[p] == x,
        occ(t, x, p) == 0,
    ensures
        first_pos(t, x) == p,
{
    lemma_first_pos(t, x);
    assert(t.contains(x));
    let f = first_pos(t, x);
    if f < p {
        lemma_occ_mono(t, x, f + 1, p);
    } else if f > p {
        assert(t[p] != x);
    }
}

/// In a pairing, each position gets the label of the chord's first end.
#[verifier::spinoff_prover]
proof fn lemma_label_is_first_label(t: Seq<u8>, i: int)
    requires
        is_pairing(t),
        0 <= i < t.len(),
    ensures
        label_at(t, i) as u8 == first_label(t)(t[i]),
{
    let n = t.len() as int;
    let x = t[i];
    lemma_occ_mono(t, x, i + 1, n);
    assert(occ(t, x, n) == 2);
    if occ(t, x, i) == 0 {
        lemma_first_end(t, x, i);
    } else {
        lemma_last_pos(t, x, i);
        let p = last_pos(t, x, i);
        lemma_first_end(t, x, p);
    }
}

/// In a pairing whose labels fit, chords with different first ends get different labels.
#[verifier::spinoff_prover]
proof fn lemma_first_label_injective(t: Seq<u8>, i: int, j: int)
    requires
        labels_fit(t),
        0 <= i < t.len(),
        0 <= j < t.len(),
        t[i] != t[j],
    ensures
        first_label(t)(t[i]) != first_label(t)(t[j]),
{
    let n = t.len() as int;
    lemma_first_pos(t, t[i]);
    lemma_first_pos(t, t[j]);
    assert(t.contains(t[i]));
    assert(t.contains(t[j]));
    let p = first_pos(t, t[i]);
    let q = first_pos(t, t[j]);
    lemma_occ_zero(t, t[i], p);
    lemma_occ_zero(t, t[j], q);
    lemma_openings_mono(t, q + 1, n);
    lemma_openings_mono(t, p + 1, n);
    if p < q {
        lemma_openings_mono(t, p + 1, q);
    } else {
        lemma_openings_mono(t, q + 1, p);
    }
}

/// For a pairing whose labels fit, relabelling is a renaming that merges no two chords.
proof fn lemma_relabelled_is_renaming(t: Seq<u8>)
    requires
        is_pairing(t),
        labels_fit(t),
    ensures
        relabelled(t) == renamed(t, first_label(t)),
        injective_on(first_label(t), t),
{
    let n = t.len() as int;
    let f = first_label(t);
    assert forall|i: int| 0 <= i < n implies label_at(t, i) as u8 == f(t[i]) by {
        lemma_label_is_first_label(t, i);
    }
    assert(relabelled(t) =~= renamed(t, f));
    assert forall|i: int, j: int| 0 <= i < n && 0 <= j < n && #[trigger] f(t[i]) == #[trigger] f(t[j]) implies t[i] == t[j] by {
        if t[i] != t[j] {
            lemma_first_label_injective(t, i, j);
        }
    }
}

/// Putting a chord diagram whose chords all have two ends in canonical form a second time
/// changes nothing: canonical forms are their own canonical forms.
pub proof fn law_canonical_idempotent(s: Seq<u8>)
    requires
        is_pairing(s),
        canon_fits(s),
    ensures
        canonical(canonical(s)) == canonical(s),
{
    if s.len() > 0 {
        lemma_canonical_least(s);
        let j0 = choose|j: int| 0 <= j < s.len() && #[trigger] is_rotation_label(s, canonical(s), j);
        let t = rotate(s, j0);
        lemma_rotate_pairing(s, j0);
        assert(labels_fit(t));
        lemma_relabelled_is_renaming(t);
        law_canonical_renaming(t, first_label(t));
        law_canonical_rotation(s, j0);
    }
}

} // verus!
