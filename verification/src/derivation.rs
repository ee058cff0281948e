use vstd::prelude::*;
use std::collections::VecDeque;
use crate::bounded::{BoundedIterator, BoundedOption};
use crate::heuristic::{DefaultDerivationHeuristic, DerivationHeuristic, SimplestHeuristic};
use crate::term::DerivationTerm;
use crate::tree::DerivationTree;

verus! {

/// Weight of a pending node whose term has measure `m`: the greatest
/// number of steps a binary split tree rooted in it can still cost.
pub open spec fn node_weight(m: nat) -> nat {
    (vstd::arithmetic::power2::pow2(m + 1) - 1) as nat
}

/// Sum of a sequence of weights.
pub open spec fn sum_weights(w: Seq<nat>) -> nat
    decreases w.len(),
{
    if w.len() == 0 {
        0
    } else {
        w[0] + sum_weights(w.drop_first())
    }
}

/// Sums of weight sequences concatenate.
proof fn lemma_sum_concat(a: Seq<nat>, b: Seq<nat>)
    ensures
        sum_weights(a + b) == sum_weights(a) + sum_weights(b),
    decreases a.len(),
{
    if a.len() == 0 {
        assert(a + b =~= b);
    } else {
        assert((a + b).drop_first() =~= a.drop_first() + b);
        assert((a + b)[0] == a[0]);
        lemma_sum_concat(a.drop_first(), b);
    }
}

/// Every node weight is at least one, and weights grow with the measure.
proof fn lemma_node_weight_facts(m: nat)
    ensures
        node_weight(m) >= 1,
        node_weight(m) == 2 * vstd::arithmetic::power2::pow2(m) - 1,
        vstd::arithmetic::power2::pow2(m + 1) == 2 * vstd::arithmetic::power2::pow2(m),
{
    vstd::arithmetic::power2::lemma_pow2_adds(1, m);
    vstd::arithmetic::power2::lemma_pow2_pos(m);
    vstd::arithmetic::power2::lemma2_to64();
}

/// Responsible for exploring the search space of assignments for a given
/// term.  The engine owns a split tree recording every term ever derived, a
/// FIFO worklist of tree indices still awaiting classification, a heuristic
/// that expands undetermined nodes, and a query function that classifies a
/// term as a definite match (`Some(true)`), a definite non-match
/// (`Some(false)`), or undetermined (`None`).
pub struct Derivation<F, T, H = DefaultDerivationHeuristic<T>> where
    F: Fn(&T) -> Option<bool>,
    T: DerivationTerm,
    H: DerivationHeuristic<T>,
 {
    tree: DerivationTree<T>,
    /// Worklist of nodes remaining to be explored, identified by their
    /// indices within the derivation tree.
    worklist: VecDeque<usize>,
    /// Heuristic responsible for deriving individual terms.
    heuristic: H,
    /// Function for determining when a terminal and/or goal state is
    /// reached.
    query: F,
}

impl<F, T> Derivation<F, T, DefaultDerivationHeuristic<T>> where
    F: Fn(&T) -> Option<bool>,
    T: DerivationTerm,
 {
    /// Construct an engine exploring derivations of `term`, using the
    /// default heuristic, with `query` as the classifier.  The tree holds
    /// exactly the root and the root is the only pending node.  The
    /// classifier must be applicable to every term.
    pub fn new(term: T, query: F) -> (r: Self)
        requires
            forall|t: &T| call_requires(query, (t,)),
        ensures
            r.wf(),
            r.tree().terms() == seq![term],
            r.tree().parents() == seq![crate::tree::NO_PARENT],
            r.wl() == seq![0usize],
            r.qf() == query,
            r.heur() == (SimplestHeuristic::<T> { dummy: core::marker::PhantomData }),
    {
        let tree = DerivationTree::new(term);
        let mut worklist: VecDeque<usize> = VecDeque::new();
        worklist.push_back(0);
        let heuristic: DefaultDerivationHeuristic<T> = Default::default();
        proof {
            assert(worklist@ =~= seq![0usize]);
        }
        Derivation { tree, heuristic, query, worklist }
    }
}

impl<F, T, H> Derivation<F, T, H> where
    F: Fn(&T) -> Option<bool>,
    T: DerivationTerm,
    H: DerivationHeuristic<T>,
 {
    /// The split tree accumulated so far.
    pub closed spec fn tree(&self) -> DerivationTree<T> {
        self.tree
    }

    /// The pending node indices, front first.
    pub closed spec fn wl(&self) -> Seq<usize> {
        self.worklist@
    }

    /// The classifier this engine was constructed with.
    pub closed spec fn qf(&self) -> F {
        self.query
    }

    /// The heuristic this engine uses to expand undetermined nodes.
    pub closed spec fn heur(&self) -> H {
        self.heuristic
    }

    /// Well-formedness: the tree is well formed, every pending index points
    /// into the tree, no index is pending twice, and the classifier can be
    /// applied to any term.
    pub open spec fn wf(&self) -> bool {
        &&& self.tree().wf()
        &&& forall|k: int|
            0 <= k < self.wl().len() ==> (#[trigger] self.wl()[k] as int)
                < self.tree().terms().len()
        &&& forall|k1: int, k2: int|
            0 <= k1 < k2 < self.wl().len() ==> self.wl()[k1] != self.wl()[k2]
        &&& forall|t: &T| call_requires(self.qf(), (t,))
    }

    /// The contiguous run of indices `lo`, `lo + 1`, ..., `hi - 1`.
    pub open spec fn index_run(lo: int, hi: int) -> Seq<usize> {
        Seq::new(if hi >= lo { (hi - lo) as nat } else { 0 }, |k: int| (lo + k) as usize)
    }

    /// The tree of `post` extends the tree of `pre` with zero or more
    /// children of node `i`, and the worklist loses its front entry and
    /// gains exactly those children, in index order, at the back.
    pub open spec fn expansion_of(pre: Self, post: Self, i: usize) -> bool {
        let n0 = pre.tree().terms().len() as int;
        let n1 = post.tree().terms().len() as int;
        &&& n1 >= n0
        &&& post.tree().parents().len() == n1
        &&& post.tree().terms().subrange(0, n0) == pre.tree().terms()
        &&& post.tree().parents().subrange(0, n0) == pre.tree().parents()
        &&& forall|j: int| n0 <= j < n1 ==> #[trigger] post.tree().parents()[j] == i
        &&& post.wl() == pre.wl().drop_first() + Self::index_run(n0, n1)
        &&& (pre.heur().expands(
            pre.tree().terms()[i as int],
            post.tree().terms().subrange(n0, n1),
        ) || n0 + 2 > usize::MAX)
    }

    /// One engine step from `pre` to `post`: the front node of the worklist
    /// is popped and classified.  On *accept* its index is the step's result
    /// and the tree is left alone; on *reject* the node is simply dropped;
    /// on *undetermined* the node is expanded and its children (if any)
    /// become pending.  The recorded verdict is one the classifier can
    /// return for the popped term.
    pub open spec fn step_rel(pre: Self, post: Self, found: Option<usize>) -> bool {
        &&& pre.wl().len() > 0
        &&& post.qf() == pre.qf()
        &&& post.heur() == pre.heur()
        &&& exists|v: Option<bool>|
            {
                &&& #[trigger] call_ensures(
                    pre.qf(),
                    (&pre.tree().terms()[pre.wl()[0] as int],),
                    v,
                )
                &&& match v {
                    Some(true) => found == Some(pre.wl()[0]) && post.tree() == pre.tree()
                        && post.wl() == pre.wl().drop_first(),
                    Some(false) => found == Option::<usize>::None && post.tree() == pre.tree()
                        && post.wl() == pre.wl().drop_first(),
                    None => found == Option::<usize>::None && Self::expansion_of(
                        pre,
                        post,
                        pre.wl()[0],
                    ),
                }
            }
    }

    /// Current size of the search: the number of pending nodes.  When this
    /// is zero, the search is complete: nothing further can be matched.
    pub fn size(&self) -> (n: usize)
        ensures
            n == self.wl().len(),
    {
        self.worklist.len()
    }

    /// Continue searching along the current branch; assumes at least one
    /// item remains in the worklist.  The query function is applied to the
    /// popped node to check whether a terminal node is reached (and, if so,
    /// whether it matches); otherwise the heuristic derives the node
    /// further.
    fn split(&mut self) -> (r: Option<usize>)
        requires
            old(self).wf(),
            old(self).wl().len() > 0,
        ensures
            final(self).wf(),
            Self::step_rel(*old(self), *final(self), r),
    {
        let next = self.worklist.pop_front().unwrap();
        let t = self.tree.get(next);
        proof {
            assert(forall|u: &T| call_requires(old(self).qf(), (u,)));
            assert(call_requires(old(self).qf(), (t,)));
            assert(self.qf() == old(self).qf());
            assert(call_requires(self.qf(), (t,)));
        }
        let verdict = (self.query)(t);
        match verdict {
            Some(true) => {
                proof {
                    let t = old(self).tree().terms()[next as int];
                    assert(call_ensures(old(self).qf(), (&t,), Some(true)));
                }
                Some(next)
            },
            Some(false) => {
                proof {
                    let t = old(self).tree().terms()[next as int];
                    assert(call_ensures(old(self).qf(), (&t,), Some(false)));
                }
                None
            },
            None => {
                let r = self.heuristic.apply(next, &mut self.tree);
                let ghost mid = *self;
                let mut j: usize = r.start;
                while j < r.end
                    invariant
                        r.start <= j,
                        self.tree() == mid.tree(),
                        self.qf() == mid.qf(),
                        self.heur() == mid.heur(),
                        r.start < r.end ==> j <= r.end && self.wl() == mid.wl()
                            + Self::index_run(r.start as int, j as int),
                        r.start >= r.end ==> self.wl() == mid.wl(),
                    decreases r.end - j,
                {
                    self.worklist.push_back(j);
                    proof {
                        assert(self.wl() =~= mid.wl() + Self::index_run(
                            r.start as int,
                            j as int + 1,
                        ));
                    }
                    j += 1;
                }
                proof {
                    let n0 = old(self).tree().terms().len() as int;
                    let n1 = self.tree().terms().len() as int;
                    if r.start < r.end {
                        assert(self.wl() == mid.wl() + Self::index_run(n0, n1));
                    } else {
                        assert(Self::index_run(n0, n1).len() == 0);
                        assert(self.wl() =~= mid.wl() + Self::index_run(n0, n1));
                    }
                    assert(self.wl() =~= old(self).wl().drop_first() + Self::index_run(n0, n1));
                    let t = old(self).tree().terms()[next as int];
                    assert(call_ensures(old(self).qf(), (&t,), Option::<bool>::None));
                    assert(Self::expansion_of(*old(self), *self, next));
                    assert forall|k1: int, k2: int|
                        0 <= k1 < k2 < self.wl().len() implies self.wl()[k1] != self.wl()[k2] by {
                        let m = old(self).wl().drop_first().len() as int;
                        if k2 >= m {
                            if k1 >= m {
                            } else {
                                assert((self.wl()[k1] as int) < n0);
                            }
                        }
                    }
                }
                None
            },
        }
    }

    /// `post` is reachable from `pre` by exactly `m` engine steps, none of
    /// which produced a match.
    pub open spec fn runs(pre: Self, post: Self, m: nat) -> bool
        decreases m,
    {
        if m == 0 {
            post == pre
        } else {
            exists|mid: Self|
                #[trigger] Self::step_rel(pre, mid, Option::<usize>::None) && Self::runs(
                    mid,
                    post,
                    (m - 1) as nat,
                )
        }
    }

    /// Steps compose: the steps of two back-to-back runs on the same
    /// engine sum to the steps of the single run that does the same work.
    /// In particular, the step counts reported by consecutive bounded
    /// probes add up to the count a single probe of the combined budget
    /// could report.
    pub proof fn lemma_runs_trans(a: Self, b: Self, c: Self, m1: nat, m2: nat)
        requires
            Self::runs(a, b, m1),
            Self::runs(b, c, m2),
        ensures
            Self::runs(a, c, m1 + m2),
        decreases m1,
    {
        if m1 != 0 {
            let mid = choose|mid: Self|
                #[trigger] Self::step_rel(a, mid, Option::<usize>::None) && Self::runs(
                    mid,
                    b,
                    (m1 - 1) as nat,
                );
            Self::lemma_runs_trans(mid, b, c, (m1 - 1) as nat, m2);
            assert(Self::step_rel(a, mid, Option::<usize>::None) && Self::runs(
                mid,
                c,
                ((m1 + m2) - 1) as nat,
            ));
        }
    }

    /// Matched probes compose the same way: work cut short after `m1`
    /// steps and finished by a later probe whose match came on step `m2`
    /// is the same work as a single probe matching on step `m1 + m2`.
    pub proof fn lemma_probe_steps_sum(
        a: Self,
        b: Self,
        mid: Self,
        c: Self,
        m1: nat,
        m2: nat,
        i: usize,
    )
        requires
            Self::runs(a, b, m1),
            m2 >= 1,
            Self::runs(b, mid, (m2 - 1) as nat),
            Self::step_rel(mid, c, Some(i)),
        ensures
            Self::runs(a, mid, ((m1 + m2) - 1) as nat),
    {
        Self::lemma_runs_trans(a, b, mid, m1, (m2 - 1) as nat);
    }

    /// A run extends by one further matchless step at its end.
    pub proof fn lemma_runs_snoc(a: Self, b: Self, c: Self, m: nat)
        requires
            Self::runs(a, b, m),
            Self::step_rel(b, c, Option::<usize>::None),
        ensures
            Self::runs(a, c, (m + 1) as nat),
        decreases m,
    {
        if m == 0 {
            assert(Self::step_rel(a, c, Option::<usize>::None));
            assert(Self::runs(c, c, 0));
        } else {
            let mid = choose|mid: Self|
                #[trigger] Self::step_rel(a, mid, Option::<usize>::None) && Self::runs(
                    mid,
                    b,
                    (m - 1) as nat,
                );
            Self::lemma_runs_snoc(mid, b, c, (m - 1) as nat);
            assert(Self::step_rel(a, mid, Option::<usize>::None) && Self::runs(mid, c, m));
        }
    }

    /// Index bookkeeping for a worklist assembled from a popped front and
    /// appended children.
    proof fn lemma_concat_entry(a: Seq<usize>, b: Seq<usize>, c: Seq<usize>, k: int)
        requires
            c == a + b,
            0 <= k < c.len(),
        ensures
            c.len() == a.len() + b.len(),
            k < a.len() ==> c[k] == a[k],
            k >= a.len() ==> c[k] == b[k - a.len()],
    {
        assert((a + b).len() == a.len() + b.len());
        if k < a.len() {
            assert((a + b)[k] == a[k]);
        } else {
            assert((a + b)[k] == b[k - a.len()]);
        }
    }

    /// Every engine step leads from a well-formed state to a well-formed
    /// state.
    pub proof fn lemma_step_preserves_wf(pre: Self, post: Self, found: Option<usize>)
        requires
            pre.wf(),
            Self::step_rel(pre, post, found),
        ensures
            post.wf(),
    {
        let i = pre.wl()[0];
        let n0 = pre.tree().terms().len() as int;
        let n1 = post.tree().terms().len() as int;
        pre.tree().lemma_len_bound();
        post.tree().lemma_len_bound();
        assert((post.tree() == pre.tree() && post.wl() == pre.wl().drop_first())
            || Self::expansion_of(pre, post, i));
        if post.tree() == pre.tree() && post.wl() == pre.wl().drop_first() {
            assert(pre.wl().drop_first().len() == pre.wl().len() - 1);
            assert forall|k: int|
                0 <= k < post.wl().len() implies #[trigger] post.wl()[k] == pre.wl()[k + 1] by {
                assert(pre.wl().drop_first()[k] == pre.wl()[k + 1]);
            }
        } else {
            assert(Self::expansion_of(pre, post, i));
            assert(post.tree().wf()) by {
                assert(post.tree().parents()[0] == pre.tree().parents()[0]) by {
                    assert(post.tree().parents().subrange(0, n0)[0] == post.tree().parents()[0]);
                }
                assert forall|j: int|
                    1 <= j < post.tree().parents().len() implies (
                #[trigger] post.tree().parents()[j] as int) < j by {
                    if j < n0 {
                        assert(post.tree().parents().subrange(0, n0)[j]
                            == post.tree().parents()[j]);
                    } else {
                        assert(post.tree().parents()[j] == i);
                        assert((i as int) < n0);
                    }
                }
            }
            let df = pre.wl().drop_first();
            let run = Self::index_run(n0, n1);
            let dflen = df.len() as int;
            assert(dflen == pre.wl().len() - 1);
            assert forall|k: int|
                0 <= k < post.wl().len() implies (#[trigger] post.wl()[k] as int) < n1 by {
                Self::lemma_concat_entry(df, run, post.wl(), k);
                if k < dflen {
                    assert(df[k] == pre.wl()[k + 1]);
                } else {
                    assert(run[k - dflen] == (n0 + (k - dflen)) as usize);
                }
            }
            assert forall|k1: int, k2: int|
                0 <= k1 < k2 < post.wl().len() implies post.wl()[k1] != post.wl()[k2] by {
                Self::lemma_concat_entry(df, run, post.wl(), k1);
                Self::lemma_concat_entry(df, run, post.wl(), k2);
                if k2 < dflen {
                    assert(df[k1] == pre.wl()[k1 + 1]);
                    assert(df[k2] == pre.wl()[k2 + 1]);
                } else if k1 < dflen {
                    assert(df[k1] == pre.wl()[k1 + 1]);
                    assert((pre.wl()[k1 + 1] as int) < n0);
                    assert(run[k2 - dflen] == (n0 + (k2 - dflen)) as usize);
                } else {
                    assert(run[k1 - dflen] == (n0 + (k1 - dflen)) as usize);
                    assert(run[k2 - dflen] == (n0 + (k2 - dflen)) as usize);
                }
            }
        }
    }

    /// The node resolved by a step is retired: whatever the verdict, the
    /// popped node is no longer pending afterwards; and when it was
    /// accepted or rejected the tree is untouched, so it produced no
    /// children.
    pub proof fn lemma_popped_node_retired(pre: Self, post: Self, found: Option<usize>)
        requires
            pre.wf(),
            Self::step_rel(pre, post, found),
        ensures
            !post.wl().contains(pre.wl()[0]),
            found is Some ==> post.tree() == pre.tree(),
    {
        let i = pre.wl()[0];
        let n0 = pre.tree().terms().len() as int;
        pre.tree().lemma_len_bound();
        post.tree().lemma_len_bound();
        assert((post.tree() == pre.tree() && post.wl() == pre.wl().drop_first())
            || Self::expansion_of(pre, post, i));
        let df = pre.wl().drop_first();
        let n1 = post.tree().terms().len() as int;
        let run = Self::index_run(n0, n1);
        let dflen = df.len() as int;
        assert(dflen == pre.wl().len() - 1);
        assert forall|k: int| 0 <= k < post.wl().len() implies #[trigger] post.wl()[k] != i by {
            if post.wl() == df {
                assert(df[k] == pre.wl()[k + 1]);
            } else {
                Self::lemma_concat_entry(df, run, post.wl(), k);
                if k < dflen {
                    assert(df[k] == pre.wl()[k + 1]);
                } else {
                    assert(run[k - dflen] == (n0 + (k - dflen)) as usize);
                    assert((i as int) < n0);
                }
            }
        }
        if post.wl().contains(i) {
            let k = choose|k: int| 0 <= k < post.wl().len() && post.wl()[k] == i;
        }
    }

    /// A node that is no longer pending never becomes pending again, over
    /// any number of further steps: only nodes newly added to the tree are
    /// ever enqueued.
    pub proof fn lemma_retired_node_stays_retired(pre: Self, post: Self, m: nat, i: usize)
        requires
            pre.wf(),
            Self::runs(pre, post, m),
            !pre.wl().contains(i),
            (i as int) < pre.tree().terms().len(),
        ensures
            post.wf(),
            !post.wl().contains(i),
            (i as int) < post.tree().terms().len(),
        decreases m,
    {
        if m != 0 {
            let mid = choose|mid: Self|
                #[trigger] Self::step_rel(pre, mid, Option::<usize>::None) && Self::runs(
                    mid,
                    post,
                    (m - 1) as nat,
                );
            Self::lemma_step_preserves_wf(pre, mid, Option::<usize>::None);
            let n0 = pre.tree().terms().len() as int;
            let n1 = mid.tree().terms().len() as int;
            pre.tree().lemma_len_bound();
            mid.tree().lemma_len_bound();
            assert((mid.tree() == pre.tree() && mid.wl() == pre.wl().drop_first())
                || Self::expansion_of(pre, mid, pre.wl()[0]));
            let df = pre.wl().drop_first();
            let run = Self::index_run(n0, n1);
            let dflen = df.len() as int;
            assert(dflen == pre.wl().len() - 1);
            assert forall|k: int| 0 <= k < mid.wl().len() implies #[trigger] mid.wl()[k] != i by {
                if mid.wl() == df {
                    assert(df[k] == pre.wl()[k + 1]);
                    assert(pre.wl().contains(pre.wl()[k + 1]));
                } else {
                    Self::lemma_concat_entry(df, run, mid.wl(), k);
                    if k < dflen {
                        assert(df[k] == pre.wl()[k + 1]);
                        assert(pre.wl().contains(pre.wl()[k + 1]));
                    } else {
                        assert(run[k - dflen] == (n0 + (k - dflen)) as usize);
                    }
                }
            }
            if mid.wl().contains(i) {
                let k = choose|k: int| 0 <= k < mid.wl().len() && mid.wl()[k] == i;
            }
            Self::lemma_retired_node_stays_retired(mid, post, (m - 1) as nat, i);
        }
    }

    /// When an undetermined node is expanded, each child it gained is
    /// pending exactly once: the worklist holds every new child and holds
    /// no index twice.
    pub proof fn lemma_children_pending_once(pre: Self, post: Self)
        requires
            pre.wf(),
            pre.wl().len() > 0,
            Self::expansion_of(pre, post, pre.wl()[0]),
        ensures
            forall|j: int|
                pre.tree().terms().len() <= j < post.tree().terms().len()
                    ==> #[trigger] post.wl().contains((j as usize)),
            forall|k1: int, k2: int|
                0 <= k1 < k2 < post.wl().len() ==> post.wl()[k1] != post.wl()[k2],
    {
        let i = pre.wl()[0];
        let n0 = pre.tree().terms().len() as int;
        let n1 = post.tree().terms().len() as int;
        pre.tree().lemma_len_bound();
        post.tree().lemma_len_bound();
        let df = pre.wl().drop_first();
        let run = Self::index_run(n0, n1);
        let dflen = df.len() as int;
        assert(dflen == pre.wl().len() - 1);
        assert forall|j: int| n0 <= j < n1 implies #[trigger] post.wl().contains(
            (j as usize),
        ) by {
            let k = dflen + (j - n0);
            Self::lemma_concat_entry(df, run, post.wl(), k);
            assert(run[j - n0] == (n0 + (j - n0)) as usize);
            assert(post.wl()[k] == j as usize);
        }
        assert forall|k1: int, k2: int|
            0 <= k1 < k2 < post.wl().len() implies post.wl()[k1] != post.wl()[k2] by {
            Self::lemma_concat_entry(df, run, post.wl(), k1);
            Self::lemma_concat_entry(df, run, post.wl(), k2);
            if k2 < dflen {
                assert(df[k1] == pre.wl()[k1 + 1]);
                assert(df[k2] == pre.wl()[k2 + 1]);
            } else if k1 < dflen {
                assert(df[k1] == pre.wl()[k1 + 1]);
                assert((pre.wl()[k1 + 1] as int) < n0);
                assert(run[k2 - dflen] == (n0 + (k2 - dflen)) as usize);
            } else {
                assert(run[k1 - dflen] == (n0 + (k1 - dflen)) as usize);
                assert(run[k2 - dflen] == (n0 + (k2 - dflen)) as usize);
            }
        }
    }

    /// Every step's verdict is one the classifier can return for the
    /// popped term: a match is reported exactly when that verdict is
    /// *accept*.
    pub proof fn lemma_step_verdict(pre: Self, post: Self, found: Option<usize>) -> (v: Option<
        bool,
    >)
        requires
            Self::step_rel(pre, post, found),
        ensures
            call_ensures(pre.qf(), (&pre.tree().terms()[pre.wl()[0] as int],), v),
            found is Some <==> v == Some(true),
    {
        let v = choose|v: Option<bool>|
            {
                &&& #[trigger] call_ensures(
                    pre.qf(),
                    (&pre.tree().terms()[pre.wl()[0] as int],),
                    v,
                )
                &&& match v {
                    Some(true) => found == Some(pre.wl()[0]) && post.tree() == pre.tree()
                        && post.wl() == pre.wl().drop_first(),
                    Some(false) => found == Option::<usize>::None && post.tree() == pre.tree()
                        && post.wl() == pre.wl().drop_first(),
                    None => found == Option::<usize>::None && Self::expansion_of(
                        pre,
                        post,
                        pre.wl()[0],
                    ),
                }
            };
        v
    }

    /// A run of zero steps leaves the engine as it was.
    pub proof fn lemma_runs_zero(pre: Self, post: Self)
        requires
            Self::runs(pre, post, 0),
        ensures
            post == pre,
    {
    }

    /// The first step of a matchless run carries a verdict other than
    /// *accept* for the front term.
    pub proof fn lemma_run_first_verdict(pre: Self, post: Self, m: nat) -> (v: Option<bool>)
        requires
            Self::runs(pre, post, m),
            m > 0,
        ensures
            pre.wl().len() > 0,
            call_ensures(pre.qf(), (&pre.tree().terms()[pre.wl()[0] as int],), v),
            v != Some(true),
    {
        let mid = choose|mid: Self|
            #[trigger] Self::step_rel(pre, mid, Option::<usize>::None) && Self::runs(
                mid,
                post,
                (m - 1) as nat,
            );
        Self::lemma_step_verdict(pre, mid, Option::<usize>::None)
    }

    /// The weights of all pending nodes, front first, under measure `mu`.
    pub open spec fn weights(s: Self, mu: spec_fn(T) -> nat) -> Seq<nat> {
        s.wl().map_values(|idx: usize| node_weight(mu(s.tree().terms()[idx as int])))
    }

    /// Total weight of a state: an upper bound on the steps the search can
    /// still take when every expansion is a reducing binary split.
    pub open spec fn potential(s: Self, mu: spec_fn(T) -> nat) -> nat {
        sum_weights(Self::weights(s, mu))
    }

    /// A matchless step that splits binarily and reduces the measure: at
    /// most two children are pushed, each of strictly smaller measure than
    /// the popped term.  The default heuristic takes exactly such steps
    /// whenever splitting a term strictly reduces the measure.
    pub open spec fn reducing_step(pre: Self, post: Self, mu: spec_fn(T) -> nat) -> bool {
        &&& Self::step_rel(pre, post, Option::<usize>::None)
        &&& post.tree().terms().len() <= pre.tree().terms().len() + 2
        &&& forall|j: int|
            pre.tree().terms().len() <= j < post.tree().terms().len() ==> mu(
                #[trigger] post.tree().terms()[j],
            ) < mu(pre.tree().terms()[pre.wl()[0] as int])
    }

    /// `post` is reachable from `pre` by exactly `m` reducing steps.
    pub open spec fn reducing_runs(pre: Self, post: Self, m: nat, mu: spec_fn(T) -> nat) -> bool
        decreases m,
    {
        if m == 0 {
            post == pre
        } else {
            exists|mid: Self|
                #[trigger] Self::reducing_step(pre, mid, mu) && Self::reducing_runs(
                    mid,
                    post,
                    (m - 1) as nat,
                    mu,
                )
        }
    }

    /// A reducing run is in particular a matchless run, so everything the
    /// probe contracts say of runs applies to it.
    pub proof fn lemma_reducing_runs_are_runs(pre: Self, post: Self, m: nat, mu: spec_fn(T) -> nat)
        requires
            Self::reducing_runs(pre, post, m, mu),
        ensures
            Self::runs(pre, post, m),
        decreases m,
    {
        if m != 0 {
            let mid = choose|mid: Self|
                #[trigger] Self::reducing_step(pre, mid, mu) && Self::reducing_runs(
                    mid,
                    post,
                    (m - 1) as nat,
                    mu,
                );
            Self::lemma_reducing_runs_are_runs(mid, post, (m - 1) as nat, mu);
            assert(Self::step_rel(pre, mid, Option::<usize>::None) && Self::runs(
                mid,
                post,
                (m - 1) as nat,
            ));
        }
    }

    /// A reducing step strictly decreases the total weight of the state.
    pub proof fn lemma_reducing_step_decreases(pre: Self, post: Self, mu: spec_fn(T) -> nat)
        requires
            pre.wf(),
            Self::reducing_step(pre, post, mu),
        ensures
            post.wf(),
            Self::potential(post, mu) < Self::potential(pre, mu),
    {
        Self::lemma_step_preserves_wf(pre, post, Option::<usize>::None);
        pre.tree().lemma_len_bound();
        post.tree().lemma_len_bound();
        let i = pre.wl()[0];
        let n0 = pre.tree().terms().len() as int;
        let n1 = post.tree().terms().len() as int;
        let mup = mu(pre.tree().terms()[i as int]);
        let wpre = Self::weights(pre, mu);
        let wpost = Self::weights(post, mu);
        let df = pre.wl().drop_first();
        let run = Self::index_run(n0, n1);
        let dflen = df.len() as int;
        assert(dflen == pre.wl().len() - 1);
        assert(wpre.len() == pre.wl().len());
        assert(wpre[0] == node_weight(mup));
        lemma_node_weight_facts(mup);
        assert(sum_weights(wpre) == wpre[0] + sum_weights(wpre.drop_first()));
        assert((post.tree() == pre.tree() && post.wl() == df) || Self::expansion_of(
            pre,
            post,
            i,
        ));
        // pending nodes carried over keep their terms, hence their weights
        assert forall|k: int| 0 <= k < post.wl().len() && (#[trigger] post.wl()[k] as int)
            < n0 implies post.tree().terms()[post.wl()[k] as int]
            == pre.tree().terms()[post.wl()[k] as int] by {
            if post.tree() != pre.tree() {
                assert(post.tree().terms().subrange(0, n0)[post.wl()[k] as int]
                    == post.tree().terms()[post.wl()[k] as int]);
            }
        }
        if post.wl() == df {
            assert(wpost =~= wpre.drop_first()) by {
                assert forall|k: int| 0 <= k < wpost.len() implies wpost[k]
                    == wpre.drop_first()[k] by {
                    assert(df[k] == pre.wl()[k + 1]);
                    assert((pre.wl()[k + 1] as int) < n0);
                }
            }
        } else {
            assert(Self::expansion_of(pre, post, i));
            let wa = wpost.subrange(0, dflen);
            let wb = wpost.subrange(dflen, wpost.len() as int);
            assert(wpost =~= wa + wb);
            lemma_sum_concat(wa, wb);
            assert(wa =~= wpre.drop_first()) by {
                assert forall|k: int| 0 <= k < wa.len() implies wa[k]
                    == wpre.drop_first()[k] by {
                    Self::lemma_concat_entry(df, run, post.wl(), k);
                    assert(df[k] == pre.wl()[k + 1]);
                    assert((pre.wl()[k + 1] as int) < n0);
                }
            }
            let c = n1 - n0;
            assert(0 < c <= 2);
            assert(mup >= 1) by {
                assert(mu(post.tree().terms()[n0]) < mup);
            }
            assert forall|k: int| 0 <= k < c implies #[trigger] wb[k] <= (
            vstd::arithmetic::power2::pow2(mup) - 1) by {
                Self::lemma_concat_entry(df, run, post.wl(), dflen + k);
                assert(run[k] == (n0 + k) as usize);
                assert(post.wl()[dflen + k] == (n0 + k) as usize);
                let cm = mu(post.tree().terms()[n0 + k]);
                assert(cm < mup);
                assert(wb[k] == node_weight(cm));
                vstd::arithmetic::power2::lemma_pow2_strictly_increases(cm + 1, mup + 1);
                lemma_node_weight_facts(mup);
                lemma_node_weight_facts(cm);
                assert(vstd::arithmetic::power2::pow2(cm + 1) <= vstd::arithmetic::power2::pow2(
                    mup,
                )) by {
                    if cm + 1 < mup {
                        vstd::arithmetic::power2::lemma_pow2_strictly_increases(cm + 1, mup);
                    }
                }
                assert(node_weight(cm) == vstd::arithmetic::power2::pow2(cm + 1) - 1);
                assert(wb[k] <= vstd::arithmetic::power2::pow2(mup) - 1);
            }
            assert(sum_weights(wb) < node_weight(mup)) by {
                lemma_node_weight_facts(mup);
                if c == 1 {
                    assert(sum_weights(wb) == wb[0] + sum_weights(wb.drop_first()));
                    assert(wb.drop_first().len() == 0);
                } else {
                    assert(sum_weights(wb) == wb[0] + sum_weights(wb.drop_first()));
                    assert(wb.drop_first()[0] == wb[1]);
                    assert(sum_weights(wb.drop_first()) == wb[1] + sum_weights(
                        wb.drop_first().drop_first(),
                    ));
                    assert(wb.drop_first().drop_first().len() == 0);
                }
            }
        }
    }

    /// Bounded exploration: when the term and heuristic make every
    /// expansion a reducing binary split (as the default heuristic does for
    /// terms whose split strictly reduces a well-founded measure, such as
    /// the total usage count), every run of the engine takes at most the
    /// total weight of its starting state: the enumeration terminates.
    pub proof fn lemma_reducing_run_bounded(pre: Self, post: Self, m: nat, mu: spec_fn(T) -> nat)
        requires
            pre.wf(),
            Self::reducing_runs(pre, post, m, mu),
        ensures
            m <= Self::potential(pre, mu),
        decreases m,
    {
        if m != 0 {
            let mid = choose|mid: Self|
                #[trigger] Self::reducing_step(pre, mid, mu) && Self::reducing_runs(
                    mid,
                    post,
                    (m - 1) as nat,
                    mu,
                );
            Self::lemma_reducing_step_decreases(pre, mid, mu);
            Self::lemma_reducing_run_bounded(mid, post, (m - 1) as nat, mu);
        }
    }

    /// Perform a bounded search for the next matching derived term,
    /// continuing along unexplored paths until a match is found, there is
    /// nothing left to explore, or the step bound is exhausted.  The exact
    /// number of steps consumed is reported in the first two cases; a
    /// budget-exhausted outcome consumed exactly `n` steps and leaves the
    /// state valid for resumption.
    fn internal_next_for(&mut self, n: usize) -> (r: BoundedOption<usize>)
        requires
            old(self).wf(),
        ensures
            final(self).wf(),
            final(self).qf() == old(self).qf(),
            final(self).heur() == old(self).heur(),
            match r {
                BoundedOption::Found(m, i) => {
                    &&& 1 <= m <= n
                    &&& exists|mid: Self|
                        #[trigger] Self::runs(*old(self), mid, (m - 1) as nat) && Self::step_rel(
                            mid,
                            *final(self),
                            Some(i),
                        )
                    &&& (i as int) < final(self).tree().terms().len()
                    &&& call_ensures(
                        final(self).qf(),
                        (&final(self).tree().terms()[i as int],),
                        Some(true),
                    )
                },
                BoundedOption::Exhausted(m) => {
                    &&& m < n
                    &&& Self::runs(*old(self), *final(self), m as nat)
                    &&& final(self).wl().len() == 0
                },
                BoundedOption::OutOfResource => Self::runs(*old(self), *final(self), n as nat),
            },
            old(self).wl().len() == 0 && n > 0 ==> r == BoundedOption::<usize>::Exhausted(0),
            r == BoundedOption::<usize>::Exhausted(0) ==> old(self).wl().len() == 0,
    {
        let mut m: usize = 0;
        while m < n && self.worklist.len() > 0
            invariant
                self.wf(),
                m <= n,
                self.qf() == old(self).qf(),
                self.heur() == old(self).heur(),
                Self::runs(*old(self), *self, m as nat),
            decreases n - m,
        {
            m += 1;
            let ghost prev = *self;
            match self.split() {
                Some(index) => {
                    proof {
                        assert(Self::step_rel(prev, *self, Some(index)));
                        assert(index == prev.wl()[0]);
                        assert((index as int) < prev.tree().terms().len());
                        assert(self.tree() == prev.tree());
                        assert(call_ensures(
                            self.qf(),
                            (&self.tree().terms()[index as int],),
                            Some(true),
                        ));
                        assert(Self::runs(*old(self), prev, (m - 1) as nat));
                    }
                    return BoundedOption::Found(m, index);
                },
                None => {
                    proof {
                        Self::lemma_runs_snoc(*old(self), prev, *self, (m - 1) as nat);
                    }
                },
            }
        }
        if m == n {
            BoundedOption::OutOfResource
        } else {
            BoundedOption::Exhausted(m)
        }
    }

    /// Search for the next matching derived term and hand a copy of it out
    /// by value; `None` normally means the reachable space is fully
    /// explored, after which the worklist is empty and every further call
    /// yields nothing.  A search is not guaranteed to resolve unless the
    /// term and heuristic together make the split relation well founded;
    /// so that even a degenerate search provably returns, each call stops
    /// after an astronomically large number of steps (far beyond what any
    /// real run can perform), reporting `None` with the state still valid:
    /// the second ensures arm records that a `None` with a non-empty
    /// worklist can only come from such a run.
    pub fn next(&mut self) -> (r: Option<T>)
        requires
            old(self).wf(),
        ensures
            final(self).wf(),
            match r {
                Some(item) => exists|m: nat, mid: Self, i: usize|
                    {
                        &&& #[trigger] Self::runs(*old(self), mid, m)
                        &&& #[trigger] Self::step_rel(mid, *final(self), Some(i))
                        &&& (i as int) < final(self).tree().terms().len()
                        &&& call_ensures(
                            final(self).qf(),
                            (&final(self).tree().terms()[i as int],),
                            Some(true),
                        )
                        &&& final(self).tree().terms()[i as int].equiv(&item)
                    },
                None => exists|m: nat|
                    #[trigger] Self::runs(*old(self), *final(self), m)
                        && (final(self).wl().len() == 0 || m >= usize::MAX),
            },
    {
        let mut attempts: usize = 0;
        while attempts < usize::MAX
            invariant
                self.wf(),
                attempts == 0 ==> *self == *old(self),
                attempts > 0 ==> exists|m: nat|
                    m >= usize::MAX && #[trigger] Self::runs(*old(self), *self, m),
            decreases usize::MAX - attempts,
        {
            let ghost prev = *self;
            match self.internal_next_for(usize::MAX) {
                BoundedOption::Found(m, index) => {
                    let item = self.tree.get(index).duplicate();
                    proof {
                        let mid = choose|mid: Self|
                            #[trigger] Self::runs(prev, mid, (m - 1) as nat) && Self::step_rel(
                                mid,
                                *self,
                                Some(index),
                            );
                        if attempts == 0 {
                            assert(Self::runs(*old(self), mid, (m - 1) as nat));
                        } else {
                            let done = choose|k: nat|
                                k >= usize::MAX && #[trigger] Self::runs(*old(self), prev, k);
                            Self::lemma_runs_trans(*old(self), prev, mid, done, (m - 1) as nat);
                        }
                        assert((index as int) < self.tree().terms().len() && call_ensures(
                            self.qf(),
                            (&self.tree().terms()[index as int],),
                            Some(true),
                        ) && self.tree().terms()[index as int].equiv(&item));
                    }
                    return Some(item);
                },
                BoundedOption::Exhausted(m) => {
                    proof {
                        if attempts == 0 {
                        } else {
                            let done = choose|k: nat|
                                k >= usize::MAX && #[trigger] Self::runs(*old(self), prev, k);
                            Self::lemma_runs_trans(*old(self), prev, *self, done, m as nat);
                        }
                    }
                    return None;
                },
                BoundedOption::OutOfResource => {
                    proof {
                        assert(Self::runs(prev, *self, usize::MAX as nat));
                        if attempts == 0 {
                        } else {
                            let m = choose|m: nat|
                                m >= usize::MAX && #[trigger] Self::runs(*old(self), prev, m);
                            Self::lemma_runs_trans(
                                *old(self),
                                prev,
                                *self,
                                m,
                                usize::MAX as nat,
                            );
                        }
                    }
                    attempts += 1;
                },
            }
        }
        None
    }
}

impl<F, T, H> BoundedIterator for Derivation<F, T, H> where
    F: Fn(&T) -> Option<bool>,
    T: DerivationTerm,
    H: DerivationHeuristic<T>,
 {
    type Item = usize;

    /// A derivation may be stepped whenever it is well formed.
    open spec fn inv(&self) -> bool {
        self.wf()
    }

    /// Bounded probe for the index of the next matching derived term; see
    /// the engine's probe contract for the meaning of each outcome.
    fn next_for(&mut self, n: usize) -> (r: BoundedOption<usize>)
        ensures
            final(self).qf() == old(self).qf(),
            final(self).heur() == old(self).heur(),
            match r {
                BoundedOption::Found(m, i) => {
                    &&& 1 <= m <= n
                    &&& exists|mid: Self|
                        #[trigger] Self::runs(*old(self), mid, (m - 1) as nat) && Self::step_rel(
                            mid,
                            *final(self),
                            Some(i),
                        )
                    &&& (i as int) < final(self).tree().terms().len()
                    &&& call_ensures(
                        final(self).qf(),
                        (&final(self).tree().terms()[i as int],),
                        Some(true),
                    )
                },
                BoundedOption::Exhausted(m) => {
                    &&& m < n
                    &&& Self::runs(*old(self), *final(self), m as nat)
                    &&& final(self).wl().len() == 0
                },
                BoundedOption::OutOfResource => Self::runs(*old(self), *final(self), n as nat),
            },
            old(self).wl().len() == 0 && n > 0 ==> r == BoundedOption::<usize>::Exhausted(0),
            r == BoundedOption::<usize>::Exhausted(0) ==> old(self).wl().len() == 0,
    {
        self.internal_next_for(n)
    }
}

} // verus!
