//! Combinatorial objects and collections that treat their items up to isomorphism.
use vstd::prelude::*;

pub mod collections;
pub mod objects;
pub mod util;
pub mod text;

verus! {

/// Equality up to isomorphism.
///
/// `hash` must be invariant under isomorphism: isomorphic objects must have equal hashes.
/// Implementations written in Verus should override the two specification functions; the
/// defaults are unconstrained placeholders for implementations that are not verified.
pub trait CombEq: Sized {
    /// The value that `hash` returns.
    closed spec fn spec_hash(&self) -> Seq<usize> {
        arbitrary()
    }

    /// The relation that `is_isomorphic` decides.
    closed spec fn spec_iso(&self, other: &Self) -> bool {
        arbitrary()
    }

    /// The objects of which `obeys_comb_eq` asks its laws: all of them, unless an
    /// implementation can vouch for its laws on some objects only.
    open spec fn spec_lawful(&self) -> bool {
        true
    }

    fn hash(&self) -> (r: Vec<usize>)
        ensures
            r@ == self.spec_hash(),
    ;

    fn is_isomorphic(&self, other: &Self) -> (r: bool)
        ensures
            r == self.spec_iso(other),
    ;
}

/// The laws that `CombEq` asks of its implementations, on the objects it vouches for
/// (`spec_lawful`): isomorphism is an equivalence relation and the hash does not distinguish
/// isomorphic objects.
pub open spec fn obeys_comb_eq<G: CombEq>() -> bool {
    &&& forall|a: G| #[trigger] a.spec_lawful() ==> a.spec_iso(&a)
    &&& forall|a: G, b: G| #[trigger] a.spec_iso(&b) && a.spec_lawful() && b.spec_lawful() ==> b.spec_iso(&a)
    &&& forall|a: G, b: G, c: G| #[trigger] a.spec_iso(&b) && #[trigger] b.spec_iso(&c) && a.spec_lawful() && b.spec_lawful() && c.spec_lawful()
        ==> a.spec_iso(&c)
    &&& forall|a: G, b: G| #[trigger] a.spec_iso(&b) && a.spec_lawful() && b.spec_lawful() ==> a.spec_hash() == b.spec_hash()
}

/// Every key in `m` is one that `CombEq` vouches for.
pub open spec fn lawful_keys<G: CombEq, T>(m: Map<Seq<usize>, Seq<(G, T)>>) -> bool {
    forall|k: Seq<usize>, j: int| m.dom().contains(k) && 0 <= j < m[k].len() ==> (#[trigger] m[k][j]).0.spec_lawful()
}

/// Every key in `s` is one that `CombEq` vouches for.
pub open spec fn lawful_entries<G: CombEq, T>(s: Seq<(G, T)>) -> bool {
    forall|j: int| 0 <= j < s.len() ==> (#[trigger] s[j]).0.spec_lawful()
}

/// A grading of combinatorial objects.
pub trait CombGrad<T: Copy + Eq = usize>: Sized {
    /// The value that `degree` returns.
    closed spec fn spec_degree(&self) -> T {
        arbitrary()
    }

    fn degree(&self) -> (r: T)
        ensures
            r == self.spec_degree(),
    ;
}

} // verus!
