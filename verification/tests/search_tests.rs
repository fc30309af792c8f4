use search::dag::MultiDag;
use search::search::{
    are_dyslexic, find_dag_equivalent_not_dyslexic_counterexample, find_dyslexic_dag_conjecture_counterexample,
    first_collision, first_disagreement, generate_dyslexic_pair, search_equality, generate_same_dag_pair_by_collision, rho_by_height,
};
use search::tree::Tree;

#[test]
fn dyslexic_reflexive() {
    let t: Tree = "(()(()))".parse().unwrap();
    assert!(are_dyslexic(&t, &t));
}

#[test]
fn dyslexic_reverse_at_root() {
    let t: Tree = "(()(()))".parse().unwrap();
    let t2: Tree = "((())())".parse().unwrap();
    assert!(are_dyslexic(&t, &t2));
    assert!(are_dyslexic(&t2, &t));
}

#[test]
fn dyslexic_distinguishes_non_examples() {
    let t: Tree = "((())(()))".parse().unwrap();
    let t2: Tree = "((())())".parse().unwrap();
    assert!(!are_dyslexic(&t, &t2));
}

#[test]
fn constant_at_height() {
    let t1: Tree = "(   ( ( ()(()) ) () )  ( (()(())) () )   )".parse().unwrap();
    let t2: Tree = "(   ( ( ()(()) ) () )  ( ((())()) () )   )".parse().unwrap();

    assert!(!are_dyslexic(&t1, &t2));
}

#[test]
fn rho_produces_dyslexic_pair() {
    let t: Tree = "((()(()))())".parse().unwrap();
    let t2 = rho_by_height(&t, 0, &|h| h == 0);
    assert!(are_dyslexic(&t, &t2));
}

#[test]
fn dag_implies_dyslexic_search_smoke() {
    let mut rng = rand::rng();
    let _ = find_dag_equivalent_not_dyslexic_counterexample(&mut rng, 9, 200, 20);
}

#[test]
fn conjecture_finds_counterexample_quickly() {
    let mut rng = rand::rng();
    // This test is only here to exercise the code path (and ensure it doesn't panic).
    let _ = find_dyslexic_dag_conjecture_counterexample(&mut rng, 10, 30);
}

#[test]
fn rho_reverses_at_chosen_heights() {
    let t: Tree = "((()(()))())".parse().unwrap();
    assert_eq!(rho_by_height(&t, 0, &|h| h == 0).to_string(), "(()(()(())))");
    assert_eq!(rho_by_height(&t, 0, &|h| h == 1).to_string(), "(((())())())");
    assert_eq!(rho_by_height(&t, 0, &|_h| false), t);
    let twice = rho_by_height(&rho_by_height(&t, 0, &|h| h % 2 == 0), 0, &|h| h % 2 == 0);
    assert_eq!(twice, t);
    assert_eq!(rho_by_height(&t, 1, &|h| h == 1).to_string(), "(()(()(())))");
}

#[test]
fn dyslexic_needs_same_degrees() {
    let t: Tree = "(()())".parse().unwrap();
    let t2: Tree = "((()))".parse().unwrap();
    assert!(!are_dyslexic(&t, &t2));
    assert!(are_dyslexic(&Tree::leaf(), &Tree::leaf()));
}

#[test]
fn generated_pairs_are_related() {
    let mut rng = rand::rng();
    for _ in 0..20 {
        let (t, t2) = generate_dyslexic_pair(&mut rng, 12, 6);
        assert_eq!(t.edge_count(), 12);
        assert_eq!(t2.edge_count(), 12);
        assert_eq!(t2.node_count(), t.node_count());
    }
}

#[test]
fn collisions_have_equal_dags() {
    let mut rng = rand::rng();
    if let Some((a, b)) = generate_same_dag_pair_by_collision(&mut rng, 4, 200, 10) {
        assert_eq!(a.edge_count(), 4);
        assert_eq!(b.edge_count(), 4);
        assert_eq!(MultiDag::from_tree(&a), MultiDag::from_tree(&b));
    }
    assert_eq!(generate_same_dag_pair_by_collision(&mut rng, 4, 0, 10), None);
}

#[test]
fn conjecture_counterexamples_disagree() {
    let mut rng = rand::rng();
    if let Some((a, b)) = find_dyslexic_dag_conjecture_counterexample(&mut rng, 5, 200) {
        let dag_eq = MultiDag::from_tree(&a) == MultiDag::from_tree(&b);
        assert_ne!(are_dyslexic(&a, &b), dag_eq);
    }
    if let Some((a, b)) = find_dag_equivalent_not_dyslexic_counterexample(&mut rng, 6, 300, 20) {
        assert_eq!(MultiDag::from_tree(&a), MultiDag::from_tree(&b));
        assert!(!are_dyslexic(&a, &b));
    }
}

#[test]
fn decisions_at_one_height_are_revisited_for_later_subtrees() {
    let t: Tree = "( (()()) ((())()) )".parse().unwrap();
    let t2 = rho_by_height(&t, 0, &|h| h == 1);
    assert_eq!(t2.to_string(), "((()())(()(())))");
    assert!(are_dyslexic(&t, &t2));
    let u: Tree = "((())(()(())))".parse().unwrap();
    let u2: Tree = "((())((())()))".parse().unwrap();
    assert_eq!(rho_by_height(&u, 0, &|h| h == 1).to_string(), u2.to_string());
    assert!(are_dyslexic(&u, &u2));
    assert!(are_dyslexic(&u2, &u));
    let w: Tree = "((())(()(())))".parse().unwrap();
    let w2: Tree = "((()())(()(())))".parse().unwrap();
    assert!(!are_dyslexic(&w, &w2));
}

#[test]
fn collisions_and_disagreements_over_given_trees() {
    let a: Tree = "(()())".parse().unwrap();
    let b: Tree = "(()()())".parse().unwrap();
    let a2: Tree = " ( () () ) ".parse().unwrap();
    let trees = vec![a.clone(), b.clone(), a2.clone()];
    let found = first_collision(&trees, 4, false).unwrap();
    assert_eq!((found.0.to_string(), found.1.to_string()), (a.to_string(), a2.to_string()));
    assert!(first_collision(&trees, 4, true).is_none());
    assert!(first_collision(&trees, 0, false).is_none());
    assert!(first_collision(&vec![], 4, false).is_none());
    assert!(first_disagreement(&vec![(a.clone(), a2.clone()), (b.clone(), b.clone())]).is_none());
    assert!(first_disagreement(&vec![]).is_none());
    let mut rng = rand::rng();
    assert!(find_dyslexic_dag_conjecture_counterexample(&mut rng, 5, 0).is_none());
    assert!(generate_same_dag_pair_by_collision(&mut rng, 5, 0, 4).is_none());
    assert!(find_dag_equivalent_not_dyslexic_counterexample(&mut rng, 5, 0, 4).is_none());
}

#[test]
fn equality_search_lists_the_disagreements() {
    for n in 0..3usize {
        for multi in [false, true] {
            for (a, b, dag_eq, canon_eq) in search_equality(n, multi) {
                assert_eq!(a.edge_count(), n + 1);
                assert_eq!(b.edge_count(), n + 1);
                assert!(a >= b);
                assert_ne!(dag_eq, canon_eq);
            }
        }
    }
}

#[test]
fn first_collision_takes_the_earliest_later_tree() {
    let a: Tree = "(()())".parse().unwrap();
    let b: Tree = "(()()())".parse().unwrap();
    let a2: Tree = "( () () )".parse().unwrap();
    let b2: Tree = " ( ()()() ) ".parse().unwrap();
    let trees = vec![a.clone(), b.clone(), b2.clone(), a2.clone()];
    let found = first_collision(&trees, 1, false).unwrap();
    assert_eq!((found.0.to_string(), found.1.to_string()), (b.to_string(), b2.to_string()));
    let same = vec![a.clone(), a2.clone(), a.clone()];
    let found = first_collision(&same, 1, false).unwrap();
    assert_eq!((found.0.to_string(), found.1.to_string()), (a.to_string(), a2.to_string()));
    assert!(first_collision(&same, 1, true).is_none());
}

#[test]
fn reordering_by_height_keeps_size_and_undoes_itself() {
    let t: Tree = "((()(()))(()())())".parse().unwrap();
    let p = |h: usize| h == 0 || h == 2;
    let r = rho_by_height(&t, 0, &p);
    assert_eq!(r.node_count(), t.node_count());
    assert_eq!(r.edge_count(), t.edge_count());
    assert_eq!(rho_by_height(&r, 0, &p), t);
    assert_eq!(rho_by_height(&t, 0, &|_h| false), t);
    let mut c1 = t.clone();
    c1.to_canonical();
    let mut c2 = r.clone();
    c2.to_canonical();
    assert_eq!(c1, c2);
}

#[test]
fn dyslexic_trees_have_equal_dags() {
    let t: Tree = "((()(()))(()())(()))".parse().unwrap();
    for mask in 0..8usize {
        let r = rho_by_height(&t, 0, &|h: usize| h < 3 && (mask >> h) & 1 == 1);
        assert!(are_dyslexic(&t, &r));
        assert!(MultiDag::from_tree(&t) == MultiDag::from_tree(&r));
    }
    let mut rng = rand::rng();
    for _ in 0..10 {
        let (a, b) = generate_dyslexic_pair(&mut rng, 7, 7);
        assert!(MultiDag::from_tree(&a) == MultiDag::from_tree(&b));
    }
}
