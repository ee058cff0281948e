use vstd::prelude::*;
use core::marker::PhantomData;
use core::ops::Range;
use crate::term::DerivationTerm;
use crate::tree::DerivationTree;

verus! {

/// No variable of `t`'s domain is used within `t`: the term is fully ground
/// with respect to its domain and cannot be split any further.
pub open spec fn no_used_var<T: DerivationTerm>(t: T) -> bool {
    forall|v: int| 0 <= v < t.dom() ==> #[trigger] t.uses(v) == 0
}

/// `v` is the first variable of `t`'s domain with a nonzero usage count.
pub open spec fn first_used_var<T: DerivationTerm>(t: T, v: int) -> bool {
    &&& 0 <= v < t.dom()
    &&& t.uses(v) != 0
    &&& forall|w: int| 0 <= w < v ==> #[trigger] t.uses(w) == 0
}

/// A derivation heuristic decides whether and how to expand a node of the
/// derivation tree.  It examines the term at the given index, pushes zero or
/// more child terms derived from it (each recorded with that node as its
/// parent), and returns the contiguous index range of the children it just
/// pushed: an empty range, leaving the tree unchanged, if the node cannot be
/// expanded.
pub trait DerivationHeuristic<T: DerivationTerm>: Sized {
    /// The expansions this heuristic can produce: which sequences of child
    /// terms it may derive from the term `t`.  Pins, at the specification
    /// level, what `apply` pushes.
    spec fn expands(&self, t: T, children: Seq<T>) -> bool;

    /// Apply this heuristic to the term at `index` in `tree`.  The pushed
    /// children are an expansion this heuristic admits for the term there,
    /// unless the tree is within two nodes of the greatest representable
    /// index and nothing at all can be pushed.
    fn apply(&self, index: usize, tree: &mut DerivationTree<T>) -> (r: Range<usize>)
        requires
            old(tree).wf(),
            (index as int) < old(tree).terms().len(),
        ensures
            final(tree).wf(),
            final(tree).terms().len() >= old(tree).terms().len(),
            r.end <= final(tree).terms().len(),
            final(tree).terms().subrange(0, old(tree).terms().len() as int) == old(tree).terms(),
            final(tree).parents().subrange(0, old(tree).terms().len() as int) == old(tree).parents(),
            r.start >= r.end ==> final(tree).terms() == old(tree).terms() && final(tree).parents() == old(tree).parents(),
            r.start < r.end ==> r.start == old(tree).terms().len() && r.end == final(tree).terms().len() && (forall|j: int|
                r.start <= j < r.end ==> #[trigger] final(tree).parents()[j] == index),
            self.expands(
                old(tree).terms()[index as int],
                final(tree).terms().subrange(
                    old(tree).terms().len() as int,
                    final(tree).terms().len() as int,
                ),
            ) || old(tree).terms().len() + 2 > usize::MAX,
    ;
}

/// The default expansion strategy.
pub type DefaultDerivationHeuristic<T> = SimplestHeuristic<T>;

/// Simplest-first strategy: scan the variables of the term in ascending
/// order and split on the first one that is actively used within it.
#[derive(Debug)]
pub struct SimplestHeuristic<T: DerivationTerm> {
    pub dummy: PhantomData<T>,
}

impl<T: DerivationTerm> Default for SimplestHeuristic<T> {
    fn default() -> (r: Self)
        ensures
            r == (SimplestHeuristic::<T> { dummy: PhantomData }),
    {
        SimplestHeuristic { dummy: PhantomData }
    }
}

impl<T: DerivationTerm> DerivationHeuristic<T> for SimplestHeuristic<T> {
    /// Either nothing, for a term with no used variable, or exactly the
    /// two terms the parent splits into on its first used variable.
    open spec fn expands(&self, t: T, children: Seq<T>) -> bool {
        ||| (children.len() == 0 && no_used_var(t))
        ||| (children.len() == 2 && exists|v: int|
            #[trigger] first_used_var(t, v) && t.is_split_of(v, children[0], children[1]))
    }

    /// Split the term at `index` by the first variable actively used within
    /// it, pushing the two resulting children; a variable with zero usage
    /// count is never selected.  If no variable is used at all (or the tree
    /// has no room left for two more nodes), nothing is pushed.
    fn apply(&self, index: usize, tree: &mut DerivationTree<T>) -> (r: Range<usize>)
        ensures
            r.start < r.end ==> r.end == r.start + 2 && (exists|v: int|
                {
                    &&& #[trigger] first_used_var(old(tree).terms()[index as int], v)
                    &&& final(tree).terms()[r.start as int].uses(v) == 0
                    &&& final(tree).terms()[r.start as int + 1].uses(v) == 0
                }),
            r.start >= r.end ==> no_used_var(old(tree).terms()[index as int]) || old(tree).terms().len() + 2 > usize::MAX,
    {
        let n = tree.len();
        if n > usize::MAX - 2 {
            proof {
                assert(tree.terms().subrange(0, old(tree).terms().len() as int) =~= old(tree).terms());
                assert(tree.parents().subrange(0, old(tree).terms().len() as int) =~= old(tree).parents());
                assert(old(tree).terms().len() + 2 > usize::MAX);
            }
            return 0..0;
        }
        let term_domain = tree.get(index).domain();
        let mut i: usize = 0;
        while i < term_domain
            invariant
                tree.wf(),
                *tree == *old(tree),
                (index as int) < tree.terms().len(),
                tree.terms().len() <= usize::MAX - 2,
                i <= term_domain,
                term_domain == tree.terms()[index as int].dom(),
                forall|w: int|
                    0 <= w < i ==> #[trigger] tree.terms()[index as int].uses(w) == 0,
            decreases term_domain - i,
        {
            let u = tree.get(index).num_uses(i);
            if u != 0 {
                let (left, right) = tree.get(index).split(i);
                let ghost lv = left;
                let ghost rv = right;
                let start = tree.len();
                tree.push(left, index);
                tree.push(right, index);
                proof {
                    let n0 = old(tree).terms().len() as int;
                    assert(tree.terms() =~= old(tree).terms().push(lv).push(rv));
                    assert(tree.parents() =~= old(tree).parents().push(index).push(index));
                    assert(tree.terms().subrange(0, n0) =~= old(tree).terms());
                    assert(tree.parents().subrange(0, n0) =~= old(tree).parents());
                    assert(first_used_var(old(tree).terms()[index as int], i as int));
                    assert(tree.terms()[n0] == lv && tree.terms()[n0 + 1] == rv);
                    let cs = tree.terms().subrange(n0, n0 + 2);
                    assert(cs =~= seq![lv, rv]);
                    assert(old(tree).terms()[index as int].is_split_of(i as int, cs[0], cs[1]));
                    assert(self.expands(old(tree).terms()[index as int], cs));
                }
                return start..start + 2;
            }
            i += 1;
        }
        proof {
            assert(no_used_var(tree.terms()[index as int]));
            assert(tree.terms().subrange(0, old(tree).terms().len() as int) =~= old(tree).terms());
            assert(tree.parents().subrange(0, old(tree).terms().len() as int) =~= old(tree).parents());
            let cs = tree.terms().subrange(
                old(tree).terms().len() as int,
                tree.terms().len() as int,
            );
            assert(cs =~= Seq::<T>::empty());
            assert(self.expands(old(tree).terms()[index as int], cs));
        }
        0..0
    }
}

} // verus!
