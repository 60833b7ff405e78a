use vstd::prelude::*;
use crate::objects::embedded_graph::EmbGraph;
use crate::text::{decimal, decimals, comma_joined, lemma_comma_joined_push, push_decimal, push_decimals, push_all, chars_of, string_of};

verus! {

/// The text of vertex `i`: its number, its cyclic order and its data text, as in
/// `v0((0, 2), x)`.
pub open spec fn vertex_item<V, HE, E>(g: EmbGraph<V, HE, E>, texts: Seq<Seq<char>>, i: int) -> Seq<char> {
    seq!['v'] + decimal(i as nat) + seq!['(', '('] + decimals(g.order(i)) + seq![')', ',', ' '] + texts[i] + seq![')']
}

/// The text of half-edge `i`: its number, its vertex, its edge and its data text, as in
/// `he0(v1, e0, x)`.
pub open spec fn half_edge_item<V, HE, E>(g: EmbGraph<V, HE, E>, texts: Seq<Seq<char>>, i: int) -> Seq<char> {
    seq!['h', 'e'] + decimal(i as nat) + seq!['(', 'v'] + decimal(g.half_edges@[i].0 as nat) + seq![',', ' ', 'e']
        + decimal(g.half_edges@[i].1 as nat) + seq![',', ' '] + texts[i] + seq![')']
}

/// The text of edge `i`: its number, its two half-edges and its data text, as in
/// `e0(he0-he1, x)`.
pub open spec fn edge_item<V, HE, E>(g: EmbGraph<V, HE, E>, texts: Seq<Seq<char>>, i: int) -> Seq<char> {
    seq!['e'] + decimal(i as nat) + seq!['(', 'h', 'e'] + decimal(g.edges@[i].0 as nat) + seq!['-', 'h', 'e']
        + decimal(g.edges@[i].1 as nat) + seq![',', ' '] + texts[i] + seq![')']
}

/// The text form of `g` with the given texts of its vertex, half-edge and edge data:
/// `{ vertices: [..], half_edges: [..], edges: [..] }`, the items separated by commas.
pub open spec fn emb_text<V, HE, E>(g: EmbGraph<V, HE, E>, vt: Seq<Seq<char>>, ht: Seq<Seq<char>>, et: Seq<Seq<char>>) -> Seq<char> {
    seq!['{', ' ', 'v', 'e', 'r', 't', 'i', 'c', 'e', 's', ':', ' ', '[']
        + comma_joined(Seq::new(g.nv() as nat, |i: int| vertex_item(g, vt, i)))
        + seq![']', ',', ' ', 'h', 'a', 'l', 'f', '_', 'e', 'd', 'g', 'e', 's', ':', ' ', '[']
        + comma_joined(Seq::new(g.nhe() as nat, |i: int| half_edge_item(g, ht, i)))
        + seq![']', ',', ' ', 'e', 'd', 'g', 'e', 's', ':', ' ', '[']
        + comma_joined(Seq::new(g.ne() as nat, |i: int| edge_item(g, et, i)))
        + seq![']', ' ', '}']
}

/// The texts as sequences of characters.
pub open spec fn texts_of(ts: Seq<String>) -> Seq<Seq<char>> {
    ts.map_values(|t: String| t@)
}

fn push_chars(out: &mut Vec<char>, cs: &[char])
    ensures
        final(out)@ == old(out)@ + cs@,
{
    let mut i: usize = 0;
    while i < cs.len()
        invariant
            i <= cs@.len(),
            out@ == old(out)@ + cs@.take(i as int),
        decreases cs@.len() - i,
    {
        out.push(cs[i]);
        i = i + 1;
        proof {
            assert(out@ =~= old(out)@ + cs@.take(i as int));
        }
    }
    proof {
        assert(cs@.take(i as int) =~= cs@);
    }
}

fn push_text(out: &mut Vec<char>, t: &String)
    ensures
        final(out)@ == old(out)@ + t@,
{
    let cs = chars_of(t.as_str());
    push_all(out, &cs);
}

impl<V, HE, E> EmbGraph<V, HE, E> {
    fn vertex_chars(&self, i: usize, texts: &Vec<String>) -> (r: Vec<char>)
        requires
            i < self.nv(),
            i < texts@.len(),
        ensures
            r@ == vertex_item(*self, texts_of(texts@), i as int),
    {
        let mut out: Vec<char> = Vec::new();
        out.push('v');
        push_decimal(&mut out, i);
        push_chars(&mut out, &['(', '(']);
        push_decimals(&mut out, &self.vertices[i].0.data);
        push_chars(&mut out, &[')', ',', ' ']);
        push_text(&mut out, &texts[i]);
        out.push(')');
        proof {
            assert(texts_of(texts@)[i as int] == texts@[i as int]@);
            assert(out@ =~= vertex_item(*self, texts_of(texts@), i as int));
        }
        out
    }

    fn half_edge_chars(&self, i: usize, texts: &Vec<String>) -> (r: Vec<char>)
        requires
            i < self.nhe(),
            i < texts@.len(),
        ensures
            r@ == half_edge_item(*self, texts_of(texts@), i as int),
    {
        let mut out: Vec<char> = Vec::new();
        push_chars(&mut out, &['h', 'e']);
        push_decimal(&mut out, i);
        push_chars(&mut out, &['(', 'v']);
        push_decimal(&mut out, self.half_edges[i].0);
        push_chars(&mut out, &[',', ' ', 'e']);
        push_decimal(&mut out, self.half_edges[i].1);
        push_chars(&mut out, &[',', ' ']);
        push_text(&mut out, &texts[i]);
        out.push(')');
        proof {
            assert(texts_of(texts@)[i as int] == texts@[i as int]@);
            assert(out@ =~= half_edge_item(*self, texts_of(texts@), i as int));
        }
        out
    }

    fn edge_chars(&self, i: usize, texts: &Vec<String>) -> (r: Vec<char>)
        requires
            i < self.ne(),
            i < texts@.len(),
        ensures
            r@ == edge_item(*self, texts_of(texts@), i as int),
    {
        let mut out: Vec<char> = Vec::new();
        out.push('e');
        push_decimal(&mut out, i);
        push_chars(&mut out, &['(', 'h', 'e']);
        push_decimal(&mut out, self.edges[i].0);
        push_chars(&mut out, &['-', 'h', 'e']);
        push_decimal(&mut out, self.edges[i].1);
        push_chars(&mut out, &[',', ' ']);
        push_text(&mut out, &texts[i]);
        out.push(')');
        proof {
            assert(texts_of(texts@)[i as int] == texts@[i as int]@);
            assert(out@ =~= edge_item(*self, texts_of(texts@), i as int));
        }
        out
    }

    /// The text form, with `vt`, `ht` and `et` as the texts of the data of the vertices,
    /// half-edges and edges (see `emb_text`).
    pub fn to_string_with(&self, vt: &Vec<String>, ht: &Vec<String>, et: &Vec<String>) -> (r: String)
        requires
            vt@.len() == self.nv(),
            ht@.len() == self.nhe(),
            et@.len() == self.ne(),
        ensures
            r@ == emb_text(*self, texts_of(vt@), texts_of(ht@), texts_of(et@)),
    {
        let ghost g = *self;
        let ghost fv = |i: int| vertex_item(g, texts_of(vt@), i);
        let ghost fh = |i: int| half_edge_item(g, texts_of(ht@), i);
        let ghost fe = |i: int| edge_item(g, texts_of(et@), i);
        let mut out: Vec<char> = Vec::new();
        push_chars(&mut out, &['{', ' ', 'v', 'e', 'r', 't', 'i', 'c', 'e', 's', ':', ' ', '[']);
        let ghost p0 = out@;
        let mut i: usize = 0;
        while i < self.vertices.len()
            invariant
                g == *self,
                i <= self.nv(),
                vt@.len() == self.nv(),
                fv == (|i: int| vertex_item(g, texts_of(vt@), i)),
                out@ == p0 + comma_joined(Seq::new(i as nat, fv)),
            decreases self.nv() - i,
        {
            if i > 0 {
                push_chars(&mut out, &[',', ' ']);
            }
            let item = self.vertex_chars(i, vt);
            push_all(&mut out, &item);
            proof {
                assert(Seq::new((i + 1) as nat, fv) =~= Seq::new(i as nat, fv).push(fv(i as int)));
                lemma_comma_joined_push(Seq::new(i as nat, fv), fv(i as int));
                assert(out@ =~= p0 + comma_joined(Seq::new((i + 1) as nat, fv)));
            }
            i = i + 1;
        }
        push_chars(&mut out, &[']', ',', ' ', 'h', 'a', 'l', 'f', '_', 'e', 'd', 'g', 'e', 's', ':', ' ', '[']);
        let ghost p1 = out@;
        let mut i: usize = 0;
        while i < self.half_edges.len()
            invariant
                g == *self,
                i <= self.nhe(),
                ht@.len() == self.nhe(),
                fh == (|i: int| half_edge_item(g, texts_of(ht@), i)),
                out@ == p1 + comma_joined(Seq::new(i as nat, fh)),
            decreases self.nhe() - i,
        {
            if i > 0 {
                push_chars(&mut out, &[',', ' ']);
            }
            let item = self.half_edge_chars(i, ht);
            push_all(&mut out, &item);
            proof {
                assert(Seq::new((i + 1) as nat, fh) =~= Seq::new(i as nat, fh).push(fh(i as int)));
                lemma_comma_joined_push(Seq::new(i as nat, fh), fh(i as int));
                assert(out@ =~= p1 + comma_joined(Seq::new((i + 1) as nat, fh)));
            }
            i = i + 1;
        }
        push_chars(&mut out, &[']', ',', ' ', 'e', 'd', 'g', 'e', 's', ':', ' ', '[']);
        let ghost p2 = out@;
        let mut i: usize = 0;
        while i < self.edges.len()
            invariant
                g == *self,
                i <= self.ne(),
                et@.len() == self.ne(),
                fe == (|i: int| edge_item(g, texts_of(et@), i)),
                out@ == p2 + comma_joined(Seq::new(i as nat, fe)),
            decreases self.ne() - i,
        {
            if i > 0 {
                push_chars(&mut out, &[',', ' ']);
            }
            let item = self.edge_chars(i, et);
            push_all(&mut out, &item);
            proof {
                assert(Seq::new((i + 1) as nat, fe) =~= Seq::new(i as nat, fe).push(fe(i as int)));
                lemma_comma_joined_push(Seq::new(i as nat, fe), fe(i as int));
                assert(out@ =~= p2 + comma_joined(Seq::new((i + 1) as nat, fe)));
            }
            i = i + 1;
        }
        push_chars(&mut out, &[']', ' ', '}']);
        proof {
            assert(out@ =~= emb_text(g, texts_of(vt@), texts_of(ht@), texts_of(et@)));
        }
        string_of(out)
    }
}

} // verus!
