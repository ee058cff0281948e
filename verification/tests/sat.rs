use derivation_tree::{
    BoundedIterator, BoundedOption, Clause, Derivation, DerivationHeuristic, DerivationTerm,
    DerivationTree, Formula, SimplestHeuristic, Term,
};

fn a() -> Term {
    Term::new(0)
}

fn b() -> Term {
    Term::new(1)
}

#[test]
fn test_01() {
    // a || b
    let f1 = Formula::from(vec![vec![a(), b()]]);
    //
    assert!(f1.sat());
}

#[test]
fn test_02() {
    // a || !a
    let f1 = Formula::from(vec![vec![a(), a().negate()]]);
    //
    assert!(f1.sat());
}

#[test]
fn test_03() {
    // a && b
    let f1 = Formula::from(vec![vec![a()], vec![b()]]);
    //
    assert!(f1.sat());
}

#[test]
fn test_04() {
    // a && !a
    let f1 = Formula::from(vec![vec![a()], vec![a().negate()]]);
    //
    assert!(!f1.sat());
}

#[test]
fn test_05() {
    // !a||b && !a||!b
    let f1 = Formula::from(vec![vec![a().negate(), b()], vec![a().negate(), b().negate()]]);
    //
    assert!(f1.sat());
}

#[test]
fn test_06() {
    // a && !a||b && !a||!b
    let f1 = Formula::from(vec![
        vec![a()],
        vec![a().negate(), b()],
        vec![a().negate(), b().negate()],
    ]);
    //
    assert!(!f1.sat());
}

#[test]
fn unwrap_returns_the_found_item() {
    let r: BoundedOption<usize> = BoundedOption::Found(3, 7);
    assert_eq!(*r.unwrap(), 7);
}

#[test]
fn eval_exact_values() {
    let t: Vec<Vec<Term>> = vec![];
    assert_eq!(Formula::from(t).eval(), Some(true));
    let f: Vec<Vec<Term>> = vec![vec![]];
    assert_eq!(Formula::from(f).eval(), Some(false));
    assert_eq!(Formula::from(vec![vec![a()]]).eval(), None);
}

#[test]
fn formula_counts_and_domain() {
    let f = Formula::from(vec![vec![a(), a().negate(), b()]]);
    assert_eq!(f.num_uses(0), 2);
    assert_eq!(f.num_uses(1), 1);
    assert_eq!(f.num_uses(2), 0);
    assert_eq!(f.domain(), 2);
    let empty = Formula::from(vec![]);
    assert_eq!(empty.domain(), 0);
}

#[test]
fn clause_substitute_drops_and_removes() {
    let c = Clause::new(vec![a(), b()]);
    // resolving `a` true satisfies the clause outright
    assert!(c.substitute(a()).is_none());
    // resolving `a` false removes the literal, leaving only `b`
    let rest = c.substitute(a().negate()).unwrap();
    assert_eq!(rest.len(), 1);
    assert_eq!(rest.num_uses(0), 0);
    assert_eq!(rest.num_uses(1), 1);
}

#[test]
fn tree_duplicate_detection() {
    let mut tree = DerivationTree::new(Formula::from(vec![vec![a()]]));
    assert_eq!(tree.len(), 1);
    // the root has no strict ancestor, so it is never a duplicate
    assert!(!tree.is_duplicate(0));
    // a child holding an equal formula is a duplicate of its ancestor
    let same = tree.push(Formula::from(vec![vec![a()]]), 0);
    assert_eq!(same, 1);
    assert!(tree.is_duplicate(1));
    // a child holding a different formula is not
    let other = tree.push(Formula::from(vec![vec![b()]]), 0);
    assert_eq!(other, 2);
    assert!(!tree.is_duplicate(2));
    // a grandchild equal to the root is found across the chain
    let deep = tree.push(Formula::from(vec![vec![a()]]), 2);
    assert_eq!(deep, 3);
    assert!(tree.is_duplicate(3));
    assert_eq!(tree.len(), 4);
}

#[test]
fn heuristic_splits_first_used_variable() {
    // variable 0 is unused, so the default heuristic must split on 1
    let mut tree = DerivationTree::new(Formula::from(vec![vec![b()]]));
    let h: SimplestHeuristic<Formula> = Default::default();
    let r = h.apply(0, &mut tree);
    assert_eq!(r, 1..3);
    assert_eq!(tree.len(), 3);
    // resolving `b` true satisfies the only clause; false falsifies it
    assert_eq!(tree.get(1).eval(), Some(true));
    assert_eq!(tree.get(2).eval(), Some(false));
    // the split variable is fully resolved in both children
    assert_eq!(tree.get(1).num_uses(1), 0);
    assert_eq!(tree.get(2).num_uses(1), 0);
}

#[test]
fn heuristic_leaves_ground_terms_alone() {
    let mut tree = DerivationTree::new(Formula::from(vec![]));
    let h: SimplestHeuristic<Formula> = Default::default();
    let r = h.apply(0, &mut tree);
    assert!(r.is_empty());
    assert_eq!(tree.len(), 1);
}

#[test]
fn empty_probe_exhausts_immediately() {
    // a && !a: the space is finite and holds no match
    let f = Formula::from(vec![vec![a()], vec![a().negate()]]);
    let mut d = Derivation::new(f, |g: &Formula| g.eval());
    while d.size() > 0 {
        match d.next_for(1) {
            BoundedOption::Found(_, _) => panic!("unsatisfiable formula matched"),
            _ => {}
        }
    }
    // once the size is zero, any positive budget exhausts in zero steps
    assert!(matches!(d.next_for(1), BoundedOption::Exhausted(0)));
    assert!(matches!(d.next_for(100), BoundedOption::Exhausted(0)));
    // a zero budget is used up before anything is learnt, even here
    assert!(matches!(d.next_for(0), BoundedOption::OutOfResource));
}

#[test]
fn probe_steps_sum_across_calls() {
    // a && !a takes three steps in all: expand the root, reject both children
    let f = Formula::from(vec![vec![a()], vec![a().negate()]]);
    let mut whole = Derivation::new(f, |g: &Formula| g.eval());
    assert!(matches!(whole.next_for(10), BoundedOption::Exhausted(3)));

    let f2 = Formula::from(vec![vec![a()], vec![a().negate()]]);
    let mut pieces = Derivation::new(f2, |g: &Formula| g.eval());
    // a budget of one is used up entirely by the first step
    assert!(matches!(pieces.next_for(1), BoundedOption::OutOfResource));
    // the remaining work takes the remaining two steps: 1 + 2 = 3
    assert!(matches!(pieces.next_for(10), BoundedOption::Exhausted(2)));
}

#[test]
fn engine_stays_active_after_match() {
    // a: the root is undetermined, splitting yields one true and one false leaf
    let f = Formula::from(vec![vec![a()]]);
    let mut d = Derivation::new(f, |g: &Formula| g.eval());
    assert_eq!(d.size(), 1);
    match d.next_for(10) {
        BoundedOption::Found(steps, index) => {
            assert_eq!(steps, 2);
            assert_eq!(index, 1);
        },
        _ => panic!("expected a match"),
    }
    // the matched node is not requeued, but the sibling is still pending
    assert_eq!(d.size(), 1);
    assert!(matches!(d.next_for(10), BoundedOption::Exhausted(1)));
    assert_eq!(d.size(), 0);
}

#[test]
fn enumeration_yields_matches_then_ends() {
    // a || !a splits into two satisfied leaves: two matches, then the end
    let f = Formula::from(vec![vec![a(), a().negate()]]);
    let mut d = Derivation::new(f, |g: &Formula| g.eval());
    let first = d.next();
    assert!(first.is_some());
    assert_eq!(first.unwrap().eval(), Some(true));
    let second = d.next();
    assert!(second.is_some());
    assert_eq!(second.unwrap().eval(), Some(true));
    assert!(d.next().is_none());
    // the sequence is not restartable
    assert!(d.next().is_none());
    assert_eq!(d.size(), 0);
}
