use vstd::prelude::*;
use vstd::string::StringSliceAdditionalSpecFns;
use crate::collections::comb_map::{first_where, lemma_first_where, lemma_first_where_props};
use crate::objects::chord_diagram::{last_pos, unsigned_digits, all_digits, digits_value, field_parses,
    field_value, lemma_digits_value_grows, parse_field, lemma_last_pos};
use crate::objects::graph::{Graph, kept_values, count_kept, lemma_kept_values_len, lemma_count_kept_mono};
use crate::objects::graph_template::{GraphTemplateVertex, index_seq};

verus! {

/// The bytes equal to `c`.
pub open spec fn is_byte(c: u8) -> spec_fn(u8) -> bool {
    |x: u8| x == c
}

/// The position of the first byte `c` of `s`, or -1.
pub open spec fn first_pos(s: Seq<u8>, c: u8) -> int {
    first_where(s, is_byte(c))
}

/// `sep` occurs in `s` at position `i`.
pub open spec fn occurs_at(s: Seq<u8>, sep: Seq<u8>, i: int) -> bool {
    0 <= i && i + sep.len() <= s.len() && s.subrange(i, i + sep.len()) == sep
}

/// The first position at which `sep` occurs in `s`, or -1.
pub open spec fn first_occurrence(s: Seq<u8>, sep: Seq<u8>) -> int
    decreases s.len(),
{
    if s.len() < sep.len() {
        -1
    } else if s.take(sep.len() as int) == sep {
        0
    } else if s.len() == 0 {
        -1
    } else {
        let r = first_occurrence(s.drop_first(), sep);
        if r < 0 {
            -1
        } else {
            r + 1
        }
    }
}

pub proof fn lemma_first_occurrence(s: Seq<u8>, sep: Seq<u8>)
    ensures
        -1 <= first_occurrence(s, sep),
        first_occurrence(s, sep) >= 0 ==> occurs_at(s, sep, first_occurrence(s, sep)),
        forall|j: int| 0 <= j && (first_occurrence(s, sep) < 0 || j < first_occurrence(s, sep)) ==> !#[trigger] occurs_at(s, sep, j),
    decreases s.len(),
{
    if s.len() < sep.len() {
    } else if s.take(sep.len() as int) == sep {
        assert(s.subrange(0, sep.len() as int) == s.take(sep.len() as int));
    } else if s.len() == 0 {
        assert(s.take(sep.len() as int) =~= sep);
    } else {
        let t = s.drop_first();
        lemma_first_occurrence(t, sep);
        assert forall|j: int| 0 <= j && (first_occurrence(s, sep) < 0 || j < first_occurrence(s, sep)) implies !#[trigger] occurs_at(s, sep, j) by {
            if j == 0 {
                if occurs_at(s, sep, 0) {
                    assert(s.subrange(0, sep.len() as int) =~= s.take(sep.len() as int));
                }
            } else if occurs_at(s, sep, j) {
                assert(t.subrange(j - 1, j - 1 + sep.len()) =~= s.subrange(j, j + sep.len()));
                assert(occurs_at(t, sep, j - 1));
            }
        }
        let r = first_occurrence(t, sep);
        if r >= 0 {
            assert(t.subrange(r, r + sep.len()) =~= s.subrange(r + 1, r + 1 + sep.len()));
        }
    }
}

/// The first occurrence is the occurrence before which there is none.
pub proof fn lemma_first_occurrence_at(s: Seq<u8>, sep: Seq<u8>, i: int)
    requires
        occurs_at(s, sep, i),
        forall|j: int| 0 <= j < i ==> !#[trigger] occurs_at(s, sep, j),
    ensures
        first_occurrence(s, sep) == i,
{
    lemma_first_occurrence(s, sep);
}

/// The pieces of `s` between the occurrences of `sep`, as `str::split` gives them.
pub open spec fn split_on(s: Seq<u8>, sep: Seq<u8>) -> Seq<Seq<u8>>
    decreases s.len(),
{
    let i = first_occurrence(s, sep);
    if sep.len() == 0 || i < 0 {
        seq![s]
    } else {
        proof {
            lemma_first_occurrence(s, sep);
        }
        seq![s.take(i)] + split_on(s.skip(i + sep.len()), sep)
    }
}

/// The first position of `c` in `s`.
pub fn find_byte(s: &[u8], c: u8) -> (r: Option<usize>)
    ensures
        match r {
            Some(i) => i == first_pos(s@, c),
            None => first_pos(s@, c) == -1,
        },
{
    let mut i: usize = 0;
    while i < s.len()
        invariant
            i <= s@.len(),
            forall|j: int| 0 <= j < i ==> !is_byte(c)(#[trigger] s@[j]),
        decreases s@.len() - i,
    {
        if s[i] == c {
            proof {
                lemma_first_where(s@, is_byte(c), i as int);
            }
            return Some(i);
        }
        i = i + 1;
    }
    proof {
        lemma_first_where(s@, is_byte(c), i as int);
    }
    None
}

/// The last position of `c` in `s`.
pub fn rfind_byte(s: &[u8], c: u8) -> (r: Option<usize>)
    ensures
        match r {
            Some(i) => i == last_pos(s@, c, s@.len() as int),
            None => last_pos(s@, c, s@.len() as int) == -1,
        },
{
    let mut i: usize = s.len();
    while i > 0
        invariant
            i <= s@.len(),
            last_pos(s@, c, s@.len() as int) == last_pos(s@, c, i as int),
        decreases i,
    {
        if s[i - 1] == c {
            return Some(i - 1);
        }
        i = i - 1;
    }
    None
}

/// `sep` occurs in `s` at `i`.
fn matches_at(s: &[u8], i: usize, sep: &[u8]) -> (r: bool)
    requires
        i + sep@.len() <= s@.len(),
    ensures
        r == occurs_at(s@, sep@, i as int),
{
    let n = s.len();
    let mut j: usize = 0;
    while j < sep.len()
        invariant
            j <= sep@.len(),
            n == s@.len(),
            i + sep@.len() <= s@.len(),
            forall|q: int| 0 <= q < j ==> s@[i + q] == sep@[q],
        decreases sep@.len() - j,
    {
        if s[i + j] != sep[j] {
            proof {
                assert(s@.subrange(i as int, i + sep@.len())[j as int] != sep@[j as int]);
            }
            return false;
        }
        j = j + 1;
    }
    proof {
        assert(s@.subrange(i as int, i + sep@.len()) =~= sep@);
    }
    true
}

/// The pieces of `s[lo..hi]` between the occurrences of `sep`, as ranges of `s`.
pub fn split_ranges(s: &[u8], lo: usize, hi: usize, sep: &[u8]) -> (r: Vec<(usize, usize)>)
    requires
        lo <= hi <= s@.len(),
        sep@.len() > 0,
    ensures
        r@.len() == split_on(s@.subrange(lo as int, hi as int), sep@).len(),
        forall|k: int| 0 <= k < r@.len() ==> lo <= (#[trigger] r@[k]).0 <= r@[k].1 <= hi
            && s@.subrange(r@[k].0 as int, r@[k].1 as int) == split_on(s@.subrange(lo as int, hi as int), sep@)[k],
{
    let m = sep.len();
    let ghost whole = s@.subrange(lo as int, hi as int);
    let mut out: Vec<(usize, usize)> = Vec::new();
    let mut start: usize = lo;
    let mut i: usize = lo;
    while i < hi && m <= hi - i
        invariant
            lo <= start <= i <= hi <= s@.len(),
            m == sep@.len(),
            m > 0,
            forall|k: int| 0 <= k < out@.len() ==> lo <= (#[trigger] out@[k]).0 <= out@[k].1 <= hi,
            split_on(whole, sep@) == out@.map_values(|p: (usize, usize)| s@.subrange(p.0 as int, p.1 as int))
                + split_on(s@.subrange(start as int, hi as int), sep@),
            forall|j: int| 0 <= j < i - start ==> !#[trigger] occurs_at(s@.subrange(start as int, hi as int), sep@, j),
        decreases hi - i,
    {
        let ghost t = s@.subrange(start as int, hi as int);
        if matches_at(s, i, sep) {
            proof {
                assert(t.subrange(i - start, i - start + m) =~= s@.subrange(i as int, i + m));
                assert(occurs_at(t, sep@, i - start));
                lemma_first_occurrence_at(t, sep@, i - start);
                assert(t.take(i - start) =~= s@.subrange(start as int, i as int));
                assert(t.skip(i - start + m) =~= s@.subrange(i + m, hi as int));
                let f = |p: (usize, usize)| s@.subrange(p.0 as int, p.1 as int);
                assert(out@.push((start, i)).map_values(f) =~= out@.map_values(f).push(s@.subrange(start as int, i as int)));
            }
            out.push((start, i));
            i = i + m;
            start = i;
        } else {
            proof {
                assert(t.subrange(i - start, i - start + m) =~= s@.subrange(i as int, i + m));
                assert forall|j: int| 0 <= j < i + 1 - start implies !#[trigger] occurs_at(t, sep@, j) by {
                    if j == i - start {
                        assert(t.subrange(j, j + m) =~= s@.subrange(i as int, i + m));
                    }
                }
            }
            i = i + 1;
        }
    }
    proof {
        let t = s@.subrange(start as int, hi as int);
        lemma_first_occurrence(t, sep@);
        if first_occurrence(t, sep@) >= 0 {
            let f0 = first_occurrence(t, sep@);
            assert(occurs_at(t, sep@, f0));
        }
        assert(split_on(t, sep@) == seq![t]);
        let f = |p: (usize, usize)| s@.subrange(p.0 as int, p.1 as int);
        assert(out@.push((start, hi)).map_values(f) =~= out@.map_values(f).push(t));
    }
    out.push((start, hi));
    proof {
        let f = |p: (usize, usize)| s@.subrange(p.0 as int, p.1 as int);
        assert(split_on(whole, sep@) =~= out@.map_values(f));
        assert forall|k: int| 0 <= k < out@.len() implies s@.subrange((#[trigger] out@[k]).0 as int, out@[k].1 as int)
            == split_on(whole, sep@)[k] by {
            assert(out@.map_values(f)[k] == f(out@[k]));
        }
    }
    out
}

/// The field is a `usize` in decimal, as `usize::from_str` reads it: an optional `+`, then at
/// least one digit, with a value that fits.
pub open spec fn usize_parses(f: Seq<u8>) -> bool {
    let d = unsigned_digits(f);
    &&& d.len() > 0
    &&& all_digits(d)
    &&& digits_value(d) <= usize::MAX
}

/// The number that a field that parses stands for.
pub open spec fn usize_value(f: Seq<u8>) -> usize {
    digits_value(unsigned_digits(f)) as usize
}

/// The number that the field `s[lo..hi]` stands for, or `None` if it does not parse.
pub fn parse_usize(s: &[u8], lo: usize, hi: usize) -> (r: Option<usize>)
    requires
        lo <= hi <= s@.len(),
    ensures
        r is Some <==> usize_parses(s@.subrange(lo as int, hi as int)),
        r matches Some(v) ==> v == usize_value(s@.subrange(lo as int, hi as int)),
{
    let ghost f = s@.subrange(lo as int, hi as int);
    let start = if lo < hi && s[lo] == 43 { lo + 1 } else { lo };
    let ghost d = s@.subrange(start as int, hi as int);
    proof {
        assert(unsigned_digits(f) == d);
    }
    if start == hi {
        return None;
    }
    let mut value: usize = 0;
    let mut i: usize = start;
    while i < hi
        invariant
            start <= i <= hi <= s@.len(),
            lo <= hi,
            d == s@.subrange(start as int, hi as int),
            unsigned_digits(s@.subrange(lo as int, hi as int)) == d,
            all_digits(d.take(i - start)),
            value == digits_value(d.take(i - start)),
        decreases hi - i,
    {
        let c = s[i];
        proof {
            assert(d.take(i - start + 1).drop_last() == d.take(i - start));
            assert(d[i - start] == c);
        }
        if c < 48 || c > 57 {
            proof {
                assert(!all_digits(d)) by {
                    assert(d[i - start] == c);
                }
            }
            return None;
        }
        proof {
            assert(all_digits(d.take(i - start + 1))) by {
                assert forall|q: int| 0 <= q < i - start + 1 implies 48 <= #[trigger] d.take(i - start + 1)[q] <= 57 by {
                    if q < i - start {
                        assert(d.take(i - start + 1)[q] == d.take(i - start)[q]);
                    }
                }
            }
        }
        let next = match value.checked_mul(10) {
            Some(v10) => v10.checked_add((c - 48) as usize),
            None => None,
        };
        match next {
            Some(v) => {
                value = v;
            },
            None => {
                proof {
                    if all_digits(d) {
                        lemma_digits_value_grows(d, i - start + 1);
                    }
                }
                return None;
            },
        }
        i = i + 1;
    }
    proof {
        assert(d.take(i - start) == d);
    }
    Some(value)
}

/// `s[a.0..a.1]` and `s[b.0..b.1]` are the same bytes.
pub fn ranges_equal(s: &[u8], a: (usize, usize), b: (usize, usize)) -> (r: bool)
    requires
        a.0 <= a.1 <= s@.len(),
        b.0 <= b.1 <= s@.len(),
    ensures
        r == (s@.subrange(a.0 as int, a.1 as int) == s@.subrange(b.0 as int, b.1 as int)),
{
    if a.1 - a.0 != b.1 - b.0 {
        proof {
            assert(s@.subrange(a.0 as int, a.1 as int).len() != s@.subrange(b.0 as int, b.1 as int).len());
        }
        return false;
    }
    let len = a.1 - a.0;
    let mut i: usize = 0;
    while i < len
        invariant
            i <= len,
            len == a.1 - a.0,
            len == b.1 - b.0,
            a.0 <= a.1 <= s@.len(),
            b.0 <= b.1 <= s@.len(),
            forall|q: int| 0 <= q < i ==> #[trigger] s@.subrange(a.0 as int, a.1 as int)[q] == s@.subrange(b.0 as int, b.1 as int)[q],
        decreases len - i,
    {
        if s[a.0 + i] != s[b.0 + i] {
            proof {
                assert(s@.subrange(a.0 as int, a.1 as int)[i as int] != s@.subrange(b.0 as int, b.1 as int)[i as int]);
            }
            return false;
        }
        proof {
            assert(s@.subrange(a.0 as int, a.1 as int)[i as int] == s@.subrange(b.0 as int, b.1 as int)[i as int]);
        }
        i = i + 1;
    }
    proof {
        assert(s@.subrange(a.0 as int, a.1 as int) =~= s@.subrange(b.0 as int, b.1 as int));
    }
    true
}

/// `), (`, between two edges.
pub open spec fn edge_sep() -> Seq<u8> {
    seq![41u8, 44u8, 32u8, 40u8]
}

/// `, `, between the two ends of an edge.
pub open spec fn end_sep() -> Seq<u8> {
    seq![44u8, 32u8]
}

/// The text that gives the number of vertices: between the first `{` and the first space.
pub open spec fn count_text(s: Seq<u8>) -> Seq<u8> {
    s.subrange(first_pos(s, 123) + 1, first_pos(s, 32))
}

/// The text that lists the edges: between the first `[` and the first `]`.
pub open spec fn edge_list_text(s: Seq<u8>) -> Seq<u8> {
    s.subrange(first_pos(s, 91) + 1, first_pos(s, 93))
}

/// The texts of the edges: none if the list is empty, else the pieces of the text between its
/// first `(` and its last `)`, split at `), (`.
pub open spec fn edge_items(ed: Seq<u8>) -> Seq<Seq<u8>> {
    if ed.len() == 0 {
        Seq::empty()
    } else {
        split_on(ed.subrange(first_pos(ed, 40) + 1, last_pos(ed, 41, ed.len() as int)), edge_sep())
    }
}

/// The delimiters are there and in order, and the number of vertices parses.
pub open spec fn frame_ok(s: Seq<u8>) -> bool {
    &&& 0 <= first_pos(s, 123)
    &&& first_pos(s, 123) + 1 <= first_pos(s, 32)
    &&& usize_parses(count_text(s))
    &&& 0 <= first_pos(s, 91)
    &&& first_pos(s, 91) + 1 <= first_pos(s, 93)
    &&& edge_list_text(s).len() > 0 ==> {
        let ed = edge_list_text(s);
        0 <= first_pos(ed, 40) && first_pos(ed, 40) + 1 <= last_pos(ed, 41, ed.len() as int)
    }
}

/// Every edge text has two ends, split at `, `.
pub open spec fn items_ok(items: Seq<Seq<u8>>) -> bool {
    forall|k: int| 0 <= k < items.len() ==> #[trigger] split_on(items[k], end_sep()).len() == 2
}

/// The ends of the edges, two for each edge, in order.
pub open spec fn labels_of(items: Seq<Seq<u8>>) -> Seq<Seq<u8>> {
    Seq::new(2 * items.len(), |j: int| split_on(items[j / 2], end_sep())[j % 2])
}

/// A label that starts with `g` names a group vertex.
pub open spec fn is_group_label(l: Seq<u8>) -> bool {
    l.len() > 0 && l[0] == 103
}

/// A label of a free vertex is its number as `usize::to_string` writes it: digits without a
/// sign and without a leading zero, unless the number is zero.
pub open spec fn free_label_ok(l: Seq<u8>) -> bool {
    usize_parses(l) && l[0] != 43 && (l.len() == 1 || l[0] != 48)
}

/// The label is usable in a template of `n` vertices: a group label has a byte after its `g`,
/// a free label names a vertex below `n`.
pub open spec fn label_ok(l: Seq<u8>, n: nat) -> bool {
    if is_group_label(l) {
        field_parses(l.drop_first())
    } else {
        free_label_ok(l) && usize_value(l) < n
    }
}

/// The vertices below `n` that a free label names.
pub open spec fn free_marks(ls: Seq<Seq<u8>>, n: nat) -> Seq<bool> {
    Seq::new(n, |i: int| exists|j: int| 0 <= j < ls.len() && !is_group_label(ls[j]) && #[trigger] usize_value(ls[j]) == i)
}

/// The vertices below `n` that no free label names.
pub open spec fn unmarked(ls: Seq<Seq<u8>>, n: nat) -> Seq<bool> {
    Seq::new(n, |i: int| !free_marks(ls, n)[i])
}

/// The vertices that no free label names, in order.
pub open spec fn open_slots(ls: Seq<Seq<u8>>, n: nat) -> Seq<usize> {
    kept_values(index_seq(n), unmarked(ls, n))
}

/// `s` without repetitions: the first occurrence of each element, in order.
pub open spec fn distinct(s: Seq<Seq<u8>>) -> Seq<Seq<u8>>
    decreases s.len(),
{
    if s.len() == 0 {
        Seq::empty()
    } else {
        let d = distinct(s.drop_last());
        if d.contains(s.last()) {
            d
        } else {
            d.push(s.last())
        }
    }
}

/// Which labels are group labels.
pub open spec fn group_label_flags(ls: Seq<Seq<u8>>) -> Seq<bool> {
    Seq::new(ls.len(), |j: int| is_group_label(ls[j]))
}

/// The different group labels, in the order of their first appearance.
pub open spec fn group_list(ls: Seq<Seq<u8>>) -> Seq<Seq<u8>> {
    distinct(kept_values(ls, group_label_flags(ls)))
}

/// How many of the open vertices are free: the open vertices that the groups leave.
pub open spec fn spare(ls: Seq<Seq<u8>>, n: nat) -> int {
    open_slots(ls, n).len() - group_list(ls).len()
}

/// The type of vertex `i`: free if a free label names it; else, among the vertices that no
/// free label names, the first ones are free and the last ones go to the groups, in the order
/// of the groups' first appearance.
pub open spec fn parsed_type(ls: Seq<Seq<u8>>, n: nat, i: int) -> GraphTemplateVertex {
    if free_marks(ls, n)[i] {
        GraphTemplateVertex::Free
    } else {
        let r = count_kept(unmarked(ls, n), i);
        if r < spare(ls, n) {
            GraphTemplateVertex::Free
        } else {
            GraphTemplateVertex::Group(field_value(group_list(ls)[r - spare(ls, n)].drop_first()))
        }
    }
}

/// The labels equal to `l`.
pub open spec fn is_label(l: Seq<u8>) -> spec_fn(Seq<u8>) -> bool {
    |x: Seq<u8>| x == l
}

/// The vertex that a label names: a free label its number, a group label the vertex of its group.
pub open spec fn label_index(ls: Seq<Seq<u8>>, n: nat, l: Seq<u8>) -> usize {
    if is_group_label(l) {
        open_slots(ls, n)[spare(ls, n) + first_where(group_list(ls), is_label(l))]
    } else {
        usize_value(l)
    }
}

/// The text parses as a template: the delimiters are in order, the number of vertices and every
/// label parse, every edge has two ends, the labels leave room for the groups, and `petgraph`
/// can number the vertices and edges.
pub open spec fn template_parses(s: Seq<u8>) -> bool {
    &&& frame_ok(s)
    &&& {
        let n = usize_value(count_text(s)) as nat;
        let items = edge_items(edge_list_text(s));
        let ls = labels_of(items);
        &&& items_ok(items)
        &&& forall|j: int| 0 <= j < ls.len() ==> label_ok(#[trigger] ls[j], n)
        &&& group_list(ls).len() <= open_slots(ls, n).len()
        &&& n <= u32::MAX
        &&& items.len() <= u32::MAX
    }
}

/// The vertex types of the template that `s` writes.
pub open spec fn parsed_types(s: Seq<u8>) -> Seq<GraphTemplateVertex> {
    let n = usize_value(count_text(s)) as nat;
    let ls = labels_of(edge_items(edge_list_text(s)));
    Seq::new(n, |i: int| parsed_type(ls, n, i))
}

/// The edges of the template that `s` writes.
pub open spec fn parsed_edges(s: Seq<u8>) -> Seq<(usize, usize)> {
    let n = usize_value(count_text(s)) as nat;
    let items = edge_items(edge_list_text(s));
    let ls = labels_of(items);
    Seq::new(items.len(), |k: int| (label_index(ls, n, ls[2 * k]), label_index(ls, n, ls[2 * k + 1])))
}

/// The texts of the ranges of `ed`.
pub open spec fn range_texts(ed: Seq<u8>, rs: Seq<(usize, usize)>) -> Seq<Seq<u8>> {
    rs.map_values(|p: (usize, usize)| ed.subrange(p.0 as int, p.1 as int))
}

/// The ranges lie in `ed`.
pub open spec fn ranges_in(ed: Seq<u8>, rs: Seq<(usize, usize)>) -> bool {
    forall|k: int| 0 <= k < rs.len() ==> (#[trigger] rs[k]).0 <= rs[k].1 <= ed.len()
}

/// The ranges of the two ends of every edge, or `None` if an edge does not have two ends.
fn end_ranges(ed: &[u8], items: &Vec<(usize, usize)>, sep: &[u8]) -> (r: Option<Vec<(usize, usize)>>)
    requires
        ranges_in(ed@, items@),
        sep@ == end_sep(),
    ensures
        r is Some <==> items_ok(range_texts(ed@, items@)),
        r matches Some(ls) ==> ranges_in(ed@, ls@) && range_texts(ed@, ls@) == labels_of(range_texts(ed@, items@)),
{
    let ghost its = range_texts(ed@, items@);
    let mut out: Vec<(usize, usize)> = Vec::new();
    let mut k: usize = 0;
    while k < items.len()
        invariant
            k <= items@.len(),
            ranges_in(ed@, items@),
            sep@ == end_sep(),
            its == range_texts(ed@, items@),
            forall|q: int| 0 <= q < k ==> #[trigger] split_on(its[q], end_sep()).len() == 2,
            ranges_in(ed@, out@),
            range_texts(ed@, out@) == labels_of(its.take(k as int)),
        decreases items@.len() - k,
    {
        let (lo, hi) = items[k];
        let parts = split_ranges(ed, lo, hi, sep);
        proof {
            assert(its[k as int] == ed@.subrange(lo as int, hi as int));
        }
        if parts.len() != 2 {
            return None;
        }
        let ghost before = out@;
        out.push(parts[0]);
        out.push(parts[1]);
        proof {
            assert(ranges_in(ed@, out@)) by {
                assert forall|q: int| 0 <= q < out@.len() implies (#[trigger] out@[q]).0 <= out@[q].1 <= ed@.len() by {
                    if q < before.len() {
                        assert(out@[q] == before[q]);
                    }
                }
            }
            let t = its.take(k + 1);
            let f = |p: (usize, usize)| ed@.subrange(p.0 as int, p.1 as int);
            assert(range_texts(ed@, before).len() == before.len());
            assert(labels_of(its.take(k as int)).len() == 2 * k);
            assert(before.len() == 2 * k);
            assert(out@.len() == 2 * k + 2);
            assert(t[k as int] == ed@.subrange(lo as int, hi as int));
            let sp = split_on(ed@.subrange(lo as int, hi as int), end_sep());
            assert(ed@.subrange(parts@[0].0 as int, parts@[0].1 as int) == sp[0]);
            assert(ed@.subrange(parts@[1].0 as int, parts@[1].1 as int) == sp[1]);
            assert forall|q: int| 0 <= q < 2 * (k + 1) implies #[trigger] range_texts(ed@, out@)[q] == labels_of(t)[q] by {
                assert(range_texts(ed@, out@)[q] == f(out@[q]));
                if q < 2 * k {
                    assert(out@[q] == before[q]);
                    assert(range_texts(ed@, before)[q] == f(before[q]));
                    assert(labels_of(its.take(k as int))[q] == split_on(its.take(k as int)[q / 2], end_sep())[q % 2]);
                    assert(its.take(k as int)[q / 2] == t[q / 2]);
                } else if q == 2 * k {
                    assert(q / 2 == k && q % 2 == 0);
                    assert(out@[q] == parts@[0]);
                } else {
                    assert(q / 2 == k && q % 2 == 1);
                    assert(out@[q] == parts@[1]);
                }
            }
            assert(range_texts(ed@, out@) =~= labels_of(t));
        }
        k = k + 1;
    }
    proof {
        assert(its.take(k as int) =~= its);
    }
    Some(out)
}

/// What a label says: whether it names a group, and the group's number or the vertex's number.
pub open spec fn label_kind(l: Seq<u8>) -> (bool, usize) {
    if is_group_label(l) {
        (true, field_value(l.drop_first()) as usize)
    } else {
        (false, usize_value(l))
    }
}

/// What the labels say, or `None` if one of them is not usable in a template of `n` vertices.
fn label_kinds(ed: &[u8], labels: &Vec<(usize, usize)>, n: usize) -> (r: Option<Vec<(bool, usize)>>)
    requires
        ranges_in(ed@, labels@),
    ensures
        r is Some <==> forall|j: int| 0 <= j < labels@.len() ==> label_ok(#[trigger] range_texts(ed@, labels@)[j], n as nat),
        r matches Some(ks) ==> ks@ == range_texts(ed@, labels@).map_values(|l: Seq<u8>| label_kind(l)),
{
    let ghost ls = range_texts(ed@, labels@);
    let mut ks: Vec<(bool, usize)> = Vec::new();
    let mut j: usize = 0;
    while j < labels.len()
        invariant
            j <= labels@.len(),
            ranges_in(ed@, labels@),
            ls == range_texts(ed@, labels@),
            ks@.len() == j,
            forall|q: int| 0 <= q < j ==> label_ok(#[trigger] ls[q], n as nat) && ks@[q] == label_kind(ls[q]),
        decreases labels@.len() - j,
    {
        let (lo, hi) = labels[j];
        let ghost l = ed@.subrange(lo as int, hi as int);
        proof {
            assert(ls[j as int] == l);
        }
        if lo < hi && ed[lo] == 103 {
            proof {
                assert(l.drop_first() =~= ed@.subrange(lo + 1, hi as int));
            }
            match parse_field(ed, lo + 1, hi) {
                Some(g) => {
                    ks.push((true, g as usize));
                },
                None => {
                    return None;
                },
            }
        } else {
            match parse_usize(ed, lo, hi) {
                Some(v) => {
                    proof {
                        assert(unsigned_digits(l).len() > 0);
                        assert(l.len() > 0);
                        assert(l[0] == ed@[lo as int]);
                    }
                    if ed[lo] == 43 || (hi - lo > 1 && ed[lo] == 48) || v >= n {
                        return None;
                    }
                    ks.push((false, v));
                },
                None => {
                    return None;
                },
            }
        }
        j = j + 1;
    }
    proof {
        assert(ks@ =~= ls.map_values(|l: Seq<u8>| label_kind(l)));
    }
    Some(ks)
}

/// For each vertex below `n`, whether a free label names it.
fn mark_free(ks: &Vec<(bool, usize)>, n: usize) -> (r: Vec<bool>)
    requires
        forall|j: int| 0 <= j < ks@.len() && !(#[trigger] ks@[j]).0 ==> ks@[j].1 < n,
    ensures
        r@.len() == n,
        forall|i: int| 0 <= i < n ==> (#[trigger] r@[i] <==> exists|j: int| 0 <= j < ks@.len() && !ks@[j].0 && ks@[j].1 == i),
{
    let mut r: Vec<bool> = Vec::new();
    let mut i: usize = 0;
    while i < n
        invariant
            i <= n,
            r@.len() == i,
            forall|x: int| 0 <= x < i ==> !#[trigger] r@[x],
        decreases n - i,
    {
        r.push(false);
        i = i + 1;
    }
    let mut j: usize = 0;
    while j < ks.len()
        invariant
            j <= ks@.len(),
            r@.len() == n,
            forall|q: int| 0 <= q < ks@.len() && !(#[trigger] ks@[q]).0 ==> ks@[q].1 < n,
            forall|x: int| 0 <= x < n ==> (#[trigger] r@[x] <==> exists|q: int| 0 <= q < j && !ks@[q].0 && ks@[q].1 == x),
        decreases ks@.len() - j,
    {
        let (g, v) = ks[j];
        if !g {
            r.set(v, true);
        }
        proof {
            assert forall|x: int| 0 <= x < n implies (#[trigger] r@[x] <==> exists|q: int| 0 <= q < j + 1 && !ks@[q].0 && ks@[q].1 == x) by {
                if r@[x] && !(exists|q: int| 0 <= q < j && !ks@[q].0 && ks@[q].1 == x) {
                    assert(!ks@[j as int].0 && ks@[j as int].1 == x);
                }
                if exists|q: int| 0 <= q < j + 1 && !ks@[q].0 && ks@[q].1 == x {
                    let q = choose|q: int| 0 <= q < j + 1 && !ks@[q].0 && ks@[q].1 == x;
                    if q < j {
                        assert(exists|q2: int| 0 <= q2 < j && !ks@[q2].0 && ks@[q2].1 == x);
                    }
                }
            }
        }
        j = j + 1;
    }
    r
}

pub proof fn lemma_kept_values_contains<T>(vals: Seq<T>, keep: Seq<bool>, i: int)
    requires
        vals.len() <= keep.len(),
        0 <= i < vals.len(),
        keep[i],
    ensures
        kept_values(vals, keep).contains(vals[i]),
    decreases vals.len(),
{
    let k = kept_values(vals, keep);
    if i == vals.len() - 1 {
        assert(k[k.len() - 1] == vals[i]);
    } else {
        lemma_kept_values_contains(vals.drop_last(), keep, i);
        let k0 = kept_values(vals.drop_last(), keep);
        let q = choose|q: int| 0 <= q < k0.len() && k0[q] == vals[i];
        assert(k[q] == k0[q]);
    }
}

pub proof fn lemma_kept_values_from<T>(vals: Seq<T>, keep: Seq<bool>)
    ensures
        forall|k: int| 0 <= k < kept_values(vals, keep).len() ==> vals.contains(#[trigger] kept_values(vals, keep)[k]),
    decreases vals.len(),
{
    if vals.len() > 0 {
        let k0 = kept_values(vals.drop_last(), keep);
        lemma_kept_values_from(vals.drop_last(), keep);
        let kv = kept_values(vals, keep);
        assert forall|k: int| 0 <= k < kv.len() implies vals.contains(#[trigger] kv[k]) by {
            if k < k0.len() {
                assert(kv[k] == k0[k]);
                let q = choose|q: int| 0 <= q < vals.drop_last().len() && vals.drop_last()[q] == k0[k];
                assert(vals[q] == kv[k]);
            } else {
                assert(kv[k] == vals[vals.len() - 1]);
            }
        }
    }
}

pub proof fn lemma_distinct_contains(s: Seq<Seq<u8>>, y: Seq<u8>)
    requires
        s.contains(y),
    ensures
        distinct(s).contains(y),
    decreases s.len(),
{
    let d = distinct(s.drop_last());
    if s.last() == y {
        if !d.contains(y) {
            assert(distinct(s)[d.len() as int] == y);
        }
    } else {
        let q = choose|q: int| 0 <= q < s.len() && s[q] == y;
        assert(s.drop_last()[q] == y);
        lemma_distinct_contains(s.drop_last(), y);
        let q2 = choose|q2: int| 0 <= q2 < d.len() && d[q2] == y;
        if !d.contains(s.last()) {
            assert(distinct(s)[q2] == y);
        }
    }
}

/// The positions of the first appearances of the different group labels, in order.
fn group_firsts(ed: &[u8], labels: &Vec<(usize, usize)>, ks: &Vec<(bool, usize)>) -> (r: Vec<usize>)
    requires
        ranges_in(ed@, labels@),
        ks@ == range_texts(ed@, labels@).map_values(|l: Seq<u8>| label_kind(l)),
    ensures
        forall|k: int| 0 <= k < r@.len() ==> (#[trigger] r@[k]) < labels@.len() && ks@[r@[k] as int].0,
        r@.map_values(|j: usize| range_texts(ed@, labels@)[j as int]) == group_list(range_texts(ed@, labels@)),
{
    let ghost ls = range_texts(ed@, labels@);
    let ghost flags = group_label_flags(ls);
    let ghost pick = |j: usize| ls[j as int];
    let mut r: Vec<usize> = Vec::new();
    let mut j: usize = 0;
    while j < labels.len()
        invariant
            j <= labels@.len(),
            ranges_in(ed@, labels@),
            ls == range_texts(ed@, labels@),
            flags == group_label_flags(ls),
            pick == (|j: usize| ls[j as int]),
            ks@ == ls.map_values(|l: Seq<u8>| label_kind(l)),
            forall|k: int| 0 <= k < r@.len() ==> (#[trigger] r@[k]) < labels@.len() && ks@[r@[k] as int].0,
            r@.map_values(pick) == distinct(kept_values(ls.take(j as int), flags)),
        decreases labels@.len() - j,
    {
        let ghost x = kept_values(ls.take(j as int), flags);
        proof {
            assert(ls.take(j + 1).drop_last() =~= ls.take(j as int));
            assert(ls.take(j + 1).last() == ls[j as int]);
            assert(ks@[j as int] == label_kind(ls[j as int]));
        }
        if ks[j].0 {
            let mut q: usize = 0;
            let mut found = false;
            while q < r.len()
                invariant
                    q <= r@.len(),
                    ranges_in(ed@, labels@),
                    ls == range_texts(ed@, labels@),
                    j < labels@.len(),
                    forall|k: int| 0 <= k < r@.len() ==> (#[trigger] r@[k]) < labels@.len(),
                    found ==> q < r@.len() && ls[r@[q as int] as int] == ls[j as int],
                    !found ==> forall|k: int| 0 <= k < q ==> ls[(#[trigger] r@[k]) as int] != ls[j as int],
                ensures
                    found ==> q < r@.len() && ls[r@[q as int] as int] == ls[j as int],
                    !found ==> forall|k: int| 0 <= k < r@.len() ==> ls[(#[trigger] r@[k]) as int] != ls[j as int],
                decreases r@.len() - q,
            {
                if ranges_equal(ed, labels[r[q]], labels[j]) {
                    found = true;
                    break;
                }
                q = q + 1;
            }
            proof {
                let d = r@.map_values(pick);
                assert(kept_values(ls.take(j + 1), flags) == x.push(ls[j as int]));
                assert(x.push(ls[j as int]).drop_last() =~= x);
                if found {
                    assert(d[q as int] == ls[j as int]);
                    assert(d.contains(ls[j as int]));
                } else {
                    assert(!d.contains(ls[j as int])) by {
                        if d.contains(ls[j as int]) {
                            let k = choose|k: int| 0 <= k < d.len() && d[k] == ls[j as int];
                            assert(d[k] == ls[r@[k] as int]);
                        }
                    }
                }
            }
            if !found {
                r.push(j);
                proof {
                    assert(r@.map_values(pick) =~= r@.drop_last().map_values(pick).push(ls[j as int]));
                    assert(r@.drop_last() =~= r@.take(r@.len() - 1));
                }
            }
        } else {
            proof {
                assert(kept_values(ls.take(j + 1), flags) == x);
            }
        }
        j = j + 1;
    }
    proof {
        assert(ls.take(j as int) =~= ls);
    }
    r
}

/// The positions whose flag is not set, in order.
fn open_slots_of(marks: &Vec<bool>) -> (r: Vec<usize>)
    ensures
        r@ == kept_values(index_seq(marks@.len()), Seq::new(marks@.len(), |i: int| !marks@[i])),
{
    let n = marks.len();
    let ghost keep = Seq::new(marks@.len(), |i: int| !marks@[i]);
    let mut r: Vec<usize> = Vec::new();
    let mut i: usize = 0;
    while i < n
        invariant
            i <= n,
            n == marks@.len(),
            keep == Seq::new(marks@.len(), |i: int| !marks@[i]),
            r@ == kept_values(index_seq(n as nat).take(i as int), keep),
        decreases n - i,
    {
        proof {
            assert(index_seq(n as nat).take(i + 1).drop_last() =~= index_seq(n as nat).take(i as int));
            assert(index_seq(n as nat).take(i + 1).last() == i);
        }
        if !marks[i] {
            r.push(i);
        }
        i = i + 1;
        proof {
            let t = index_seq(n as nat).take(i as int);
            if keep[i - 1] {
                assert(r@ =~= kept_values(t.drop_last(), keep) + seq![t.last()]);
            } else {
                assert(r@ =~= kept_values(t.drop_last(), keep) + Seq::<usize>::empty());
            }
        }
    }
    proof {
        assert(index_seq(n as nat).take(i as int) =~= index_seq(n as nat));
    }
    r
}

/// The facts that the parts of a parse share about the labels `ls` of a template of `n`
/// vertices: what each label says, which vertices the free labels name, where the groups first
/// appear, and which vertices stay open.
pub open spec fn parse_state(
    ls: Seq<Seq<u8>>,
    n: nat,
    ks: Seq<(bool, usize)>,
    marks: Seq<bool>,
    gl: Seq<usize>,
    slots: Seq<usize>,
) -> bool {
    &&& forall|j: int| 0 <= j < ls.len() ==> label_ok(#[trigger] ls[j], n)
    &&& ks == ls.map_values(|l: Seq<u8>| label_kind(l))
    &&& marks == free_marks(ls, n)
    &&& forall|k: int| 0 <= k < gl.len() ==> (#[trigger] gl[k]) < ls.len() && ks[gl[k] as int].0
    &&& gl.map_values(|j: usize| ls[j as int]) == group_list(ls)
    &&& slots == open_slots(ls, n)
    &&& gl.len() <= slots.len()
}

/// The type of every vertex.
fn type_list(
    marks: &Vec<bool>,
    ks: &Vec<(bool, usize)>,
    gl: &Vec<usize>,
    slots: &Vec<usize>,
    Ghost(ls): Ghost<Seq<Seq<u8>>>,
    n: usize,
) -> (r: Vec<GraphTemplateVertex>)
    requires
        parse_state(ls, n as nat, ks@, marks@, gl@, slots@),
    ensures
        r@ == Seq::new(n as nat, |i: int| parsed_type(ls, n as nat, i)),
{
    let ghost um = unmarked(ls, n as nat);
    proof {
        lemma_kept_values_len(index_seq(n as nat), um);
        lemma_count_kept_mono(um, n as int, n as int);
    }
    let spare_n = slots.len() - gl.len();
    let mut r: Vec<GraphTemplateVertex> = Vec::new();
    let mut c: usize = 0;
    let mut i: usize = 0;
    while i < n
        invariant
            i <= n,
            parse_state(ls, n as nat, ks@, marks@, gl@, slots@),
            um == unmarked(ls, n as nat),
            slots@.len() == count_kept(um, n as int),
            spare_n == spare(ls, n as nat),
            c == count_kept(um, i as int),
            r@ == Seq::new(i as nat, |x: int| parsed_type(ls, n as nat, x)),
        decreases n - i,
    {
        proof {
            lemma_count_kept_mono(um, i as int, n as int);
            assert(gl@.map_values(|j: usize| ls[j as int]).len() == group_list(ls).len());
        }
        let t = if marks[i] {
            GraphTemplateVertex::Free
        } else if c < spare_n {
            GraphTemplateVertex::Free
        } else {
            let k = c - spare_n;
            let g = ks[gl[k]].1;
            proof {
                let l = ls[gl@[k as int] as int];
                assert(gl@.map_values(|j: usize| ls[j as int])[k as int] == l);
                assert(group_list(ls)[k as int] == l);
                assert(ks@[gl@[k as int] as int] == label_kind(l));
                assert(is_group_label(l));
                assert(label_ok(l, n as nat));
            }
            GraphTemplateVertex::Group(g as u8)
        };
        proof {
            assert(t == parsed_type(ls, n as nat, i as int));
        }
        r.push(t);
        if !marks[i] {
            c = c + 1;
        }
        i = i + 1;
        proof {
            assert(r@ =~= Seq::new(i as nat, |x: int| parsed_type(ls, n as nat, x)));
        }
    }
    r
}

/// The vertex that every label names.
fn label_indices(
    ed: &[u8],
    labels: &Vec<(usize, usize)>,
    ks: &Vec<(bool, usize)>,
    gl: &Vec<usize>,
    slots: &Vec<usize>,
    Ghost(ls): Ghost<Seq<Seq<u8>>>,
    n: usize,
) -> (r: Vec<usize>)
    requires
        ranges_in(ed@, labels@),
        ls == range_texts(ed@, labels@),
        parse_state(ls, n as nat, ks@, labels_marks(ls, n as nat), gl@, slots@),
    ensures
        r@.len() == ls.len(),
        forall|j: int| 0 <= j < ls.len() ==> #[trigger] r@[j] == label_index(ls, n as nat, ls[j]) && r@[j] < n,
{
    let ghost pick = |j: usize| ls[j as int];
    let ghost gls = group_list(ls);
    proof {
        lemma_kept_values_from(index_seq(n as nat), unmarked(ls, n as nat));
        assert(gl@.map_values(pick).len() == gls.len());
    }
    let spare_n = slots.len() - gl.len();
    let mut r: Vec<usize> = Vec::new();
    let mut j: usize = 0;
    while j < labels.len()
        invariant
            j <= labels@.len(),
            ranges_in(ed@, labels@),
            ls == range_texts(ed@, labels@),
            parse_state(ls, n as nat, ks@, labels_marks(ls, n as nat), gl@, slots@),
            pick == (|j: usize| ls[j as int]),
            gls == group_list(ls),
            gl@.map_values(pick) == gls,
            gl@.len() == gls.len(),
            spare_n == spare(ls, n as nat),
            forall|k: int| 0 <= k < slots@.len() ==> index_seq(n as nat).contains(#[trigger] slots@[k]),
            r@.len() == j,
            forall|q: int| 0 <= q < j ==> #[trigger] r@[q] == label_index(ls, n as nat, ls[q]) && r@[q] < n,
        decreases labels@.len() - j,
    {
        proof {
            assert(ks@[j as int] == label_kind(ls[j as int]));
            assert(label_ok(ls[j as int], n as nat));
        }
        let (g, v) = ks[j];
        if g {
            let mut q: usize = 0;
            while q < gl.len()
                invariant
                    q <= gl@.len(),
                    ranges_in(ed@, labels@),
                    ls == range_texts(ed@, labels@),
                    j < labels@.len(),
                    forall|k: int| 0 <= k < gl@.len() ==> (#[trigger] gl@[k]) < ls.len(),
                    gl@.map_values(pick) == gls,
                    pick == (|j: usize| ls[j as int]),
                    forall|k: int| 0 <= k < q ==> !is_label(ls[j as int])(#[trigger] gls[k]),
                ensures
                    q <= gl@.len(),
                    forall|k: int| 0 <= k < q ==> !is_label(ls[j as int])(#[trigger] gls[k]),
                    q == gl@.len() || gls[q as int] == ls[j as int],
                decreases gl@.len() - q,
            {
                proof {
                    assert(gls[q as int] == ls[gl@[q as int] as int]);
                }
                if ranges_equal(ed, labels[gl[q]], labels[j]) {
                    break;
                }
                q = q + 1;
            }
            proof {
                lemma_kept_values_contains(ls, group_label_flags(ls), j as int);
                lemma_distinct_contains(kept_values(ls, group_label_flags(ls)), ls[j as int]);
                if q == gl@.len() {
                    let k = choose|k: int| 0 <= k < gls.len() && gls[k] == ls[j as int];
                    assert(is_label(ls[j as int])(gls[k]));
                }
                assert(q < gl@.len());
                assert(gls[q as int] == ls[gl@[q as int] as int]);
                lemma_first_where(gls, is_label(ls[j as int]), q as int);
                assert(slots@.len() == open_slots(ls, n as nat).len());
                assert(spare_n + q < slots@.len());
                let x = slots@[spare_n + q];
                assert(index_seq(n as nat).contains(x));
            }
            let ns = slots.len();
            proof {
                assert(spare_n + q < ns);
            }
            r.push(slots[spare_n + q]);
        } else {
            r.push(v);
        }
        j = j + 1;
    }
    r
}

/// The marks of a parse state.
pub open spec fn labels_marks(ls: Seq<Seq<u8>>, n: nat) -> Seq<bool> {
    free_marks(ls, n)
}

impl Graph<GraphTemplateVertex> {
    /// The template that `s` writes as `{n [(a, b), (c, d), ...]}`: `n` is the number of
    /// vertices, and each edge names its ends by their numbers (free vertices) or by `g` and a
    /// group's number (group vertices). The vertices that no free label names are free, except
    /// the last ones, which go to the groups in the order of their first appearance. `Err` when
    /// `template_parses` fails.
    pub fn parse(s: &str) -> (r: Result<Self, ()>)
        ensures
            r is Ok <==> template_parses(s.spec_bytes()),
            r matches Ok(t) ==> t.wf() && t.weights() == parsed_types(s.spec_bytes()) && t.edge_list() == parsed_edges(s.spec_bytes()),
    {
        let b = s.as_bytes();
        let ghost bs = b@;
        let a = match find_byte(b, 123) {
            Some(x) => x,
            None => { return Err(()); },
        };
        let sp = match find_byte(b, 32) {
            Some(x) => x,
            None => { return Err(()); },
        };
        proof {
            lemma_first_where_props(bs, is_byte(123));
            lemma_first_where_props(bs, is_byte(32));
        }
        if sp <= a {
            return Err(());
        }
        let n = match parse_usize(b, a + 1, sp) {
            Some(v) => v,
            None => { return Err(()); },
        };
        let c = match find_byte(b, 91) {
            Some(x) => x,
            None => { return Err(()); },
        };
        let d = match find_byte(b, 93) {
            Some(x) => x,
            None => { return Err(()); },
        };
        proof {
            lemma_first_where_props(bs, is_byte(91));
            lemma_first_where_props(bs, is_byte(93));
        }
        if d <= c {
            return Err(());
        }
        let ed = vstd::slice::slice_subrange(b, c + 1, d);
        proof {
            assert(ed@ == edge_list_text(bs));
            assert(n == usize_value(count_text(bs)));
        }
        let esep: Vec<u8> = vec![41, 44, 32, 40];
        proof {
            assert(esep@ =~= edge_sep());
        }
        let items: Vec<(usize, usize)> = if ed.len() == 0 {
            Vec::new()
        } else {
            let p = match find_byte(ed, 40) {
                Some(x) => x,
                None => { return Err(()); },
            };
            let q = match rfind_byte(ed, 41) {
                Some(x) => x,
                None => { return Err(()); },
            };
            proof {
                lemma_last_pos(ed@, 41, ed@.len() as int);
            }
            if q <= p {
                return Err(());
            }
            let r = split_ranges(ed, p + 1, q, esep.as_slice());
            proof {
                assert forall|k: int| 0 <= k < r@.len() implies #[trigger] range_texts(ed@, r@)[k] == edge_items(ed@)[k] by {}
                assert(range_texts(ed@, r@) =~= edge_items(ed@));
                assert(ranges_in(ed@, r@));
            }
            r
        };
        let ghost its = edge_items(ed@);
        proof {
            if ed@.len() == 0 {
                assert(range_texts(ed@, items@) =~= its);
            }
        }
        let nsep: Vec<u8> = vec![44, 32];
        proof {
            assert(nsep@ =~= end_sep());
        }
        let labels = match end_ranges(ed, &items, nsep.as_slice()) {
            Some(l) => l,
            None => { return Err(()); },
        };
        let ghost ls = range_texts(ed@, labels@);
        proof {
            assert(ls == labels_of(its));
        }
        let ks = match label_kinds(ed, &labels, n) {
            Some(k) => k,
            None => { return Err(()); },
        };
        proof {
            assert forall|j: int| 0 <= j < ks@.len() && !(#[trigger] ks@[j]).0 implies ks@[j].1 < n by {
                assert(ks@[j] == label_kind(ls[j]));
                assert(label_ok(ls[j], n as nat));
            }
        }
        let marks = mark_free(&ks, n);
        proof {
            assert forall|i: int| 0 <= i < n implies #[trigger] marks@[i] == free_marks(ls, n as nat)[i] by {
                if marks@[i] {
                    let j = choose|j: int| 0 <= j < ks@.len() && !ks@[j].0 && ks@[j].1 == i;
                    assert(ks@[j] == label_kind(ls[j]));
                    assert(usize_value(ls[j]) == i);
                }
                if free_marks(ls, n as nat)[i] {
                    let j = choose|j: int| 0 <= j < ls.len() && !is_group_label(ls[j]) && #[trigger] usize_value(ls[j]) == i;
                    assert(ks@[j] == label_kind(ls[j]));
                }
            }
            assert(marks@ =~= free_marks(ls, n as nat));
        }
        let gl = group_firsts(ed, &labels, &ks);
        let slots = open_slots_of(&marks);
        proof {
            assert(Seq::new(marks@.len(), |i: int| !marks@[i]) =~= unmarked(ls, n as nat));
            assert(slots@ == open_slots(ls, n as nat));
            assert(gl@.map_values(|j: usize| ls[j as int]).len() == gl@.len());
        }
        if gl.len() > slots.len() {
            return Err(());
        }
        if n > 4294967295usize || items.len() > 4294967295usize {
            return Err(());
        }
        proof {
            assert(parse_state(ls, n as nat, ks@, marks@, gl@, slots@));
        }
        let types = type_list(&marks, &ks, &gl, &slots, Ghost(ls), n);
        let idx = label_indices(ed, &labels, &ks, &gl, &slots, Ghost(ls), n);
        let ghost target = Seq::new(items@.len(), |k: int| (label_index(ls, n as nat, ls[2 * k]), label_index(ls, n as nat, ls[2 * k + 1])));
        let mut edges: Vec<(usize, usize)> = Vec::new();
        let ni = idx.len();
        let mut k: usize = 0;
        while k < items.len()
            invariant
                ni == idx@.len(),
                k <= items@.len(),
                ls.len() == 2 * items@.len(),
                idx@.len() == ls.len(),
                forall|j: int| 0 <= j < ls.len() ==> #[trigger] idx@[j] == label_index(ls, n as nat, ls[j]) && idx@[j] < n,
                target == Seq::new(items@.len(), |k: int| (label_index(ls, n as nat, ls[2 * k]), label_index(ls, n as nat, ls[2 * k + 1]))),
                edges@ == target.take(k as int),
                forall|q: int| 0 <= q < k ==> (#[trigger] edges@[q]).0 < n && edges@[q].1 < n,
            decreases items@.len() - k,
        {
            proof {
                assert(2 * k + 1 < ni);
            }
            let e = (idx[2 * k], idx[2 * k + 1]);
            proof {
                assert(idx@[2 * k] < n);
                assert(idx@[2 * k + 1] < n);
            }
            edges.push(e);
            k = k + 1;
            proof {
                assert(edges@ =~= target.take(k as int));
            }
        }
        proof {
            assert(target.take(k as int) =~= target);
            assert(target == parsed_edges(bs));
            assert(types@ =~= parsed_types(bs));
            assert(template_parses(bs));
        }
        Ok(Graph::from_parts(types, edges))
    }
}

impl std::str::FromStr for Graph<GraphTemplateVertex> {
    type Err = ();

    /// `Graph::parse`.
    fn from_str(s: &str) -> (r: Result<Self, ()>)
        ensures
            r is Ok <==> template_parses(s.spec_bytes()),
            r matches Ok(t) ==> t.wf() && t.weights() == parsed_types(s.spec_bytes()) && t.edge_list() == parsed_edges(s.spec_bytes()),
    {
        Self::parse(s)
    }
}

} // verus!
