use vstd::prelude::*;
use crate::term::DerivationTerm;

verus! {

/// Parent index recorded for the root node: a sentinel that is never equal
/// to a real index, because a tree holding `usize::MAX` nodes can never be
/// built (pushing requires room for the new index).
pub const NO_PARENT: usize = usize::MAX;

/// A split tree provides an append-only ledger recording every term
/// encountered during a derivation.  Each node is identified by a dense
/// integer index (0 = root) and records the index of the single parent it
/// was derived from; the root records `NO_PARENT`.  Nodes are never removed
/// or reparented, and a node's parent index is always strictly less than
/// its own, so ancestor walks terminate at the sentinel.
pub struct DerivationTree<T: DerivationTerm> {
    /// Terms themselves.
    terms: Vec<T>,
    /// Parent index of each term, `NO_PARENT` for the root.
    parents: Vec<usize>,
}

impl<T: DerivationTerm> DerivationTree<T> {
    /// The sequence of terms ever pushed, in creation order.
    pub closed spec fn terms(&self) -> Seq<T> {
        self.terms@
    }

    /// The parent index recorded for each node.
    pub closed spec fn parents(&self) -> Seq<usize> {
        self.parents@
    }

    /// Structural invariant: one parent entry per term, at least the root,
    /// the root's parent is the sentinel, and every other node points to an
    /// earlier node.
    pub open spec fn wf(&self) -> bool {
        &&& self.parents().len() == self.terms().len()
        &&& self.terms().len() >= 1
        &&& self.parents()[0] == NO_PARENT
        &&& forall|i: int|
            1 <= i < self.parents().len() ==> (#[trigger] self.parents()[i] as int) < i
    }

    /// `a` lies on the strict ancestor chain of `i`: following parent links
    /// from `i` reaches `a` before the sentinel.
    pub open spec fn is_ancestor(&self, a: int, i: int) -> bool
        recommends
            self.wf(),
            0 <= i < self.terms().len(),
        decreases i,
        when 0 <= i < self.terms().len() && self.wf()
    {
        if i == 0 {
            false
        } else {
            let p = self.parents()[i] as int;
            a == p || self.is_ancestor(a, p)
        }
    }

    /// Some strict ancestor of `i` holds a term equal by value to the term
    /// at `i`.
    pub open spec fn has_equal_ancestor(&self, i: int) -> bool {
        exists|a: int|
            #[trigger] self.is_ancestor(a, i) && self.terms()[a].equiv(&self.terms()[i])
    }

    /// The node count always fits in a machine word, the ledger being held
    /// in memory.
    pub proof fn lemma_len_bound(&self)
        ensures
            self.terms().len() <= usize::MAX,
            self.parents().len() <= usize::MAX,
    {
        vstd::std_specs::vec::axiom_spec_len(&self.terms);
        vstd::std_specs::vec::axiom_spec_len(&self.parents);
    }

    /// An ancestor index is a valid index strictly below its descendant.
    pub proof fn lemma_ancestor_bounds(&self, a: int, i: int)
        requires
            self.wf(),
            0 <= i < self.terms().len(),
            self.is_ancestor(a, i),
        ensures
            0 <= a < i,
        decreases i,
    {
        if i != 0 {
            let p = self.parents()[i] as int;
            if a != p {
                self.lemma_ancestor_bounds(a, p);
            }
        }
    }

    /// Ancestry is transitive.
    pub proof fn lemma_ancestor_trans(&self, a: int, b: int, c: int)
        requires
            self.wf(),
            0 <= c < self.terms().len(),
            self.is_ancestor(b, c),
            self.is_ancestor(a, b),
        ensures
            self.is_ancestor(a, c),
        decreases c,
    {
        let p = self.parents()[c] as int;
        self.lemma_ancestor_bounds(b, c);
        if b != p {
            self.lemma_ancestor_trans(a, b, p);
        }
    }

    /// Construct a tree containing exactly one node, the root, holding
    /// `root` with the sentinel parent.
    pub fn new(root: T) -> (r: Self)
        ensures
            r.wf(),
            r.terms() == seq![root],
            r.parents() == seq![NO_PARENT],
    {
        let mut terms: Vec<T> = Vec::new();
        let mut parents: Vec<usize> = Vec::new();
        terms.push(root);
        parents.push(NO_PARENT);
        proof {
            assert(terms@ =~= seq![root]);
            assert(parents@ =~= seq![NO_PARENT]);
        }
        DerivationTree { terms, parents }
    }

    /// Total number of nodes ever created; it never shrinks.
    pub fn len(&self) -> (n: usize)
        ensures
            n == self.terms().len(),
    {
        self.terms.len()
    }

    /// The term at a previously returned valid index.
    pub fn get(&self, index: usize) -> (r: &T)
        requires
            (index as int) < self.terms().len(),
        ensures
            *r == self.terms()[index as int],
    {
        &self.terms[index]
    }

    /// Append a new node holding `term`, derived from the existing node
    /// `parent`; the new node's index is the previous length.
    pub fn push(&mut self, term: T, parent: usize) -> (index: usize)
        requires
            old(self).wf(),
            (parent as int) < old(self).terms().len(),
            old(self).terms().len() < NO_PARENT,
        ensures
            final(self).wf(),
            index == old(self).terms().len(),
            final(self).terms() == old(self).terms().push(term),
            final(self).parents() == old(self).parents().push(parent),
    {
        let index = self.terms.len();
        self.terms.push(term);
        self.parents.push(parent);
        index
    }

    /// True iff some strict ancestor of `index` holds a term equal by value
    /// to the term at `index`; in particular, false for the root.
    pub fn is_duplicate(&self, index: usize) -> (r: bool)
        requires
            self.wf(),
            (index as int) < self.terms().len(),
        ensures
            r == self.has_equal_ancestor(index as int),
            index == 0 ==> !r,
    {
        proof {
            if index == 0 && self.has_equal_ancestor(0) {
                let a = choose|a: int|
                    #[trigger] self.is_ancestor(a, 0) && self.terms()[a].equiv(&self.terms()[0]);
                assert(!self.is_ancestor(a, 0));
            }
        }
        let term = &self.terms[index];
        let mut cur: usize = self.parents[index];
        proof {
            if index != 0 {
                assert(self.is_ancestor(cur as int, index as int));
            }
        }
        while cur != NO_PARENT
            invariant
                self.wf(),
                *term == self.terms()[index as int],
                (index as int) < self.terms().len(),
                cur == NO_PARENT || self.is_ancestor(cur as int, index as int),
                cur == NO_PARENT ==> !self.has_equal_ancestor(index as int),
                cur != NO_PARENT ==> forall|a: int|
                    #[trigger] self.is_ancestor(a, index as int)
                        && self.terms()[a].equiv(&self.terms()[index as int]) ==> a
                        == cur as int || self.is_ancestor(a, cur as int),
            decreases (if cur == NO_PARENT { 0int } else { cur as int + 1 }),
        {
            proof {
                self.lemma_ancestor_bounds(cur as int, index as int);
            }
            let eq = self.terms[cur].eq_term(term);
            proof {
                assert(eq == self.terms()[cur as int].equiv(&self.terms()[index as int]));
            }
            if eq {
                proof {
                    assert(self.is_ancestor(cur as int, index as int)
                        && self.terms()[cur as int].equiv(&self.terms()[index as int]));
                }
                return true;
            }
            let prev: Ghost<usize> = Ghost(cur);
            cur = self.parents[cur];
            proof {
                let pi = prev@ as int;
                assert(0 <= pi < index as int);
                assert(!self.terms()[pi].equiv(&self.terms()[index as int]));
                if cur != NO_PARENT {
                    assert(pi != 0) by {
                        if pi == 0 {
                            assert(self.parents()[0] == NO_PARENT);
                        }
                    }
                    assert(self.parents()[pi] == cur);
                    assert(self.is_ancestor(cur as int, pi));
                    self.lemma_ancestor_trans(cur as int, pi, index as int);
                    assert forall|a: int|
                        #[trigger] self.is_ancestor(a, index as int)
                            && self.terms()[a].equiv(&self.terms()[index as int]) implies a
                        == cur as int || self.is_ancestor(a, cur as int) by {
                        assert(a == pi || self.is_ancestor(a, pi));
                        assert(a != pi);
                        assert(self.is_ancestor(a, pi));
                        assert(a == cur as int || self.is_ancestor(a, cur as int));
                    }
                } else {
                    assert(pi == 0) by {
                        if pi != 0 {
                            assert((self.parents()[pi] as int) < pi);
                        }
                    }
                    assert forall|a: int| #[trigger]
                        self.is_ancestor(a, index as int) implies !self.terms()[a].equiv(
                        &self.terms()[index as int],
                    ) by {
                        if self.terms()[a].equiv(&self.terms()[index as int]) {
                            assert(a == pi || self.is_ancestor(a, pi));
                            assert(!self.is_ancestor(a, 0));
                        }
                    }
                    assert(!self.has_equal_ancestor(index as int));
                }
            }
        }
        false
    }
}

} // verus!
