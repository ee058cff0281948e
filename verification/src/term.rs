use vstd::prelude::*;

verus! {

/// Capability contract for values that the derivation engine can explore.
///
/// A term is an immutable, partially-resolved search state over a universe of
/// integer-numbered variables `0..domain()`.  Every variable used within the
/// term lies in that range, but a variable in the range need not be used.
/// Splitting on a variable yields exactly two child terms, one for each way of
/// resolving that variable; the split is pure and fully resolves the variable,
/// so neither child uses it any more.
pub trait DerivationTerm: Sized {
    /// Value equality of terms, as used for ancestor-duplicate detection.
    spec fn equiv(&self, other: &Self) -> bool;

    /// Mathematical size of this term's variable universe.
    spec fn dom(&self) -> nat;

    /// Mathematical multiplicity of variable `var` within this term.
    spec fn uses(&self, var: int) -> nat;

    /// `l` and `r` are the two terms this one splits into on `var`: the
    /// term under the positive and the negative resolution of the
    /// variable.  Pins, at the specification level, what `split` returns.
    spec fn is_split_of(&self, var: int, l: Self, r: Self) -> bool;

    /// Decide whether this term and `other` are equal by value.
    fn eq_term(&self, other: &Self) -> (r: bool)
        ensures
            r == self.equiv(other),
    ;

    /// Number of variables this term's universe ranges over.
    fn domain(&self) -> (n: usize)
        ensures
            n == self.dom(),
    ;

    /// Number of uses of `var` within this term; zero means the variable is
    /// irrelevant to the term.
    fn num_uses(&self, var: usize) -> (r: usize)
        ensures
            r == self.uses(var as int),
    ;

    /// Split this term in two by resolving `var` positively and negatively.
    /// Both children have the variable fully resolved, hence use it zero
    /// times.  The receiver is not mutated.
    fn split(&self, var: usize) -> (r: (Self, Self))
        requires
            (var as int) < self.dom(),
        ensures
            self.is_split_of(var as int, r.0, r.1),
            r.0.uses(var as int) == 0,
            r.1.uses(var as int) == 0,
    ;

    /// Produce a term equal by value to this one, for handing matches out of
    /// the tree by value.
    fn duplicate(&self) -> (r: Self)
        ensures
            self.equiv(&r),
    ;
}

} // verus!
