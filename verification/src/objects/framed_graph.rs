use vstd::prelude::*;
use crate::objects::graph::{Graph, edges_text, push_edges};
use crate::text::{comma_joined, lemma_comma_joined_push, string_of};

verus! {

/// A framing, an element of the field with two elements.
#[derive(Clone, Copy, Debug, PartialEq, Eq, Hash, Structural)]
pub enum Framing {
    Zero,
    One,
}

/// A framing as a number.
pub open spec fn framing_value(f: Framing) -> int {
    match f {
        Framing::Zero => 0,
        Framing::One => 1,
    }
}

impl Default for Framing {
    fn default() -> (r: Self)
        ensures
            r == Framing::Zero,
    {
        Framing::Zero
    }
}

impl std::ops::Add for Framing {
    type Output = Self;

    /// The sum modulo two.
    fn add(self, other: Self) -> (r: Self)
        ensures
            framing_value(r) == (framing_value(self) + framing_value(other)) % 2,
    {
        match (self, other) {
            (Framing::Zero, Framing::Zero) => Framing::Zero,
            (Framing::Zero, Framing::One) => Framing::One,
            (Framing::One, Framing::Zero) => Framing::One,
            (Framing::One, Framing::One) => Framing::Zero,
        }
    }
}

impl vstd::std_specs::ops::AddSpecImpl for Framing {
    open spec fn obeys_add_spec() -> bool {
        true
    }

    open spec fn add_req(self, rhs: Framing) -> bool {
        true
    }

    open spec fn add_spec(self, rhs: Framing) -> Framing {
        if self == rhs {
            Framing::Zero
        } else {
            Framing::One
        }
    }
}

impl std::ops::AddAssign for Framing {
    fn add_assign(&mut self, other: Self)
        ensures
            framing_value(*final(self)) == (framing_value(*old(self)) + framing_value(other)) % 2,
    {
        *self = *self + other;
    }
}

impl Framing {
    /// The sum modulo two of all the framings.
    pub fn sum(items: &Vec<Framing>) -> (r: Framing)
        ensures
            framing_value(r) == framing_sum(items@) % 2,
    {
        let mut v = Framing::Zero;
        let mut i: usize = 0;
        while i < items.len()
            invariant
                i <= items.len(),
                framing_value(v) == framing_sum(items@.subrange(0, i as int)) % 2,
            decreases items.len() - i,
        {
            v = v + items[i];
            proof {
                assert(items@.subrange(0, i + 1).drop_last() == items@.subrange(0, i as int));
            }
            i = i + 1;
        }
        proof {
            assert(items@.subrange(0, items.len() as int) == items@);
        }
        v
    }

    /// The digit that displays the framing.
    pub fn symbol(&self) -> (r: char)
        ensures
            r == (if *self == Framing::One { '1' } else { '0' }),
    {
        match self {
            Framing::Zero => '0',
            Framing::One => '1',
        }
    }
}

/// The sum of the framings as numbers.
pub open spec fn framing_sum(s: Seq<Framing>) -> int
    decreases s.len(),
{
    if s.len() == 0 {
        0
    } else {
        framing_sum(s.drop_last()) + framing_value(s.last())
    }
}

impl From<bool> for Framing {
    fn from(v: bool) -> (r: Self) {
        if v {
            Framing::One
        } else {
            Framing::Zero
        }
    }
}

impl vstd::std_specs::convert::FromSpecImpl<bool> for Framing {
    open spec fn obeys_from_spec() -> bool {
        true
    }

    open spec fn from_spec(v: bool) -> Framing {
        if v {
            Framing::One
        } else {
            Framing::Zero
        }
    }
}

/// A graph whose vertices carry framings.
pub type FGraph = Graph<Framing>;

/// The digit that displays a framing.
pub open spec fn framing_char(f: Framing) -> char {
    if f == Framing::One { '1' } else { '0' }
}

/// The digits of the framings, separated by commas.
pub open spec fn framings_text(w: Seq<Framing>) -> Seq<char> {
    comma_joined(Seq::new(w.len(), |i: int| seq![framing_char(w[i])]))
}

impl Graph<Framing> {
    /// The text form: the framings between square brackets, then the edges between square
    /// brackets, as in `{[0, 1] [(0, 1)]}`.
    pub fn to_string(&self) -> (r: String)
        ensures
            r@ == seq!['{', '['] + framings_text(self.weights()) + seq![']', ' ', '['] + edges_text(self.edge_list()) + seq![']', '}'],
    {
        let mut out: Vec<char> = Vec::new();
        out.push('{');
        out.push('[');
        let ghost w = self.weights();
        let ghost f = |i: int| seq![framing_char(w[i])];
        let n = self.num_verts();
        let mut i: usize = 0;
        while i < n
            invariant
                i <= n,
                n == w.len(),
                w == self.weights(),
                f == (|i: int| seq![framing_char(w[i])]),
                out@ == seq!['{', '['] + comma_joined(Seq::new(i as nat, f)),
            decreases n - i,
        {
            if i > 0 {
                out.push(',');
                out.push(' ');
            }
            out.push(self.vertex(i).symbol());
            proof {
                assert(Seq::new((i + 1) as nat, f) =~= Seq::new(i as nat, f).push(seq![framing_char(w[i as int])]));
                lemma_comma_joined_push(Seq::new(i as nat, f), seq![framing_char(w[i as int])]);
                assert(out@ =~= seq!['{', '['] + comma_joined(Seq::new((i + 1) as nat, f)));
            }
            i = i + 1;
        }
        out.push(']');
        out.push(' ');
        out.push('[');
        push_edges(&mut out, &self.edges());
        out.push(']');
        out.push('}');
        proof {
            assert(Seq::new(n as nat, f) =~= Seq::new(w.len(), |i: int| seq![framing_char(w[i])]));
            assert(out@ =~= seq!['{', '['] + framings_text(self.weights()) + seq![']', ' ', '['] + edges_text(self.edge_list()) + seq![']', '}']);
        }
        string_of(out)
    }
}

} // verus!
