use search::enumerate::{
    catalan, get_hook_length, get_nb_reductions, get_random_tree, get_trees, tree_from_parents,
};
use search::reduction::immediate_reductions;
use search::tree::Tree;

fn texts(v: &[Tree]) -> Vec<String> {
    v.iter().map(|t| t.to_string()).collect()
}

fn count_for(r: &[(Tree, usize)], s: &str) -> usize {
    let t: Tree = s.parse().unwrap();
    let hits: Vec<usize> = r.iter().filter(|(k, _)| *k == t).map(|(_, v)| *v).collect();
    assert_eq!(hits.len(), 1);
    hits[0]
}

#[test]
fn enumerate_by_edges_matches_small_counts() {
    assert_eq!(texts(&get_trees(0)), vec!["()"]);
    assert_eq!(texts(&get_trees(1)), vec!["(())"]);
    assert_eq!(texts(&get_trees(2)), vec!["(()())", "((()))"]);
}

#[test]
fn enumeration_counts_are_catalan() {
    let expected: [u128; 8] = [1, 1, 2, 5, 14, 42, 132, 429];
    for n in 0..8 {
        assert_eq!(catalan(n), expected[n]);
        let trees = get_trees(n);
        assert_eq!(trees.len() as u128, catalan(n));
        for t in &trees {
            assert_eq!(t.edge_count(), n);
        }
        let mut seen = texts(&trees);
        seen.sort();
        seen.dedup();
        assert_eq!(seen.len(), trees.len());
    }
    assert_eq!(catalan(10), 16796);
    assert_eq!(texts(&get_trees(3)), vec!["(()()())", "(()(()))", "((())())", "((()()))", "(((())))"]);
}

#[test]
fn tree_from_parents_attaches_in_order() {
    assert_eq!(tree_from_parents(&vec![]).to_string(), "()");
    assert_eq!(tree_from_parents(&vec![0, 0, 1]).to_string(), "((())())");
    assert_eq!(tree_from_parents(&vec![0, 1, 2]).to_string(), "(((())))");
    assert_eq!(tree_from_parents(&vec![0, 0, 0]).to_string(), "(()()())");
}

#[test]
fn random_trees_have_the_requested_edges() {
    let mut rng = rand::rng();
    for n in [0usize, 1, 5, 30] {
        for _ in 0..10 {
            let t = get_random_tree(&mut rng, n);
            assert_eq!(t.edge_count(), n);
        }
    }
}

#[test]
fn reduction_counts() {
    let t: Tree = "(()())".parse().unwrap();
    let multi = get_nb_reductions(t.clone(), true);
    assert_eq!(multi.len(), 3);
    assert_eq!(count_for(&multi, "(()())"), 2);
    assert_eq!(count_for(&multi, "(())"), 1);
    assert_eq!(count_for(&multi, "()"), 1);
    let single = get_nb_reductions(t, false);
    assert_eq!(single.len(), 3);
    assert_eq!(count_for(&single, "(()())"), 1);

    let u: Tree = "(()(()))".parse().unwrap();
    let multi = get_nb_reductions(u.clone(), true);
    assert_eq!(multi.len(), 5);
    assert_eq!(count_for(&multi, "(()(()))"), 3);
    assert_eq!(count_for(&multi, "(()())"), 2);
    assert_eq!(count_for(&multi, "((()))"), 1);
    let single = get_nb_reductions(u, false);
    assert_eq!(count_for(&single, "(()(()))"), 2);

    let leaf = get_nb_reductions(Tree::leaf(), true);
    assert_eq!(leaf.len(), 1);
    assert_eq!(count_for(&leaf, "()"), 1);
}

#[test]
fn hook_length_formula() {
    let cases = [("()", 1), ("(())", 1), ("(()())", 2), ("((()))", 1), ("(()(()))", 3), ("(()()())", 6)];
    for (s, n) in cases {
        let t: Tree = s.parse().unwrap();
        assert_eq!(get_hook_length(&t), n);
        assert_eq!(count_for(&get_nb_reductions(t, true), s), n);
    }
    for s in ["((())(())(()))", "(((()))(())())", "((()())(()))"] {
        let t: Tree = s.parse().unwrap();
        assert_eq!(get_hook_length(&t), count_for(&get_nb_reductions(t.clone(), true), s));
    }
}

#[test]
fn enumeration_lists_every_tree_once() {
    let listed = texts(&get_trees(4));
    for parents in [vec![0, 0, 0, 0], vec![0, 1, 2, 3], vec![0, 1, 1, 0], vec![0, 0, 2, 2], vec![0, 1, 0, 3]] {
        let t = tree_from_parents(&parents);
        let text = t.to_string();
        assert_eq!(listed.iter().filter(|w| **w == text).count(), 1);
    }
}

#[test]
fn catalan_is_central_binomial_over_n_plus_one() {
    for n in 0..20u128 {
        let mut binom: u128 = 1;
        for k in 0..n {
            binom = binom * (2 * n - k) / (k + 1);
        }
        assert_eq!(catalan(n as usize) * (n + 1), binom);
    }
}

#[test]
fn reduction_counts_follow_the_recursion() {
    let t: Tree = "((())(()()))".parse().unwrap();
    for multi in [false, true] {
        let r = get_nb_reductions(t.clone(), multi);
        for (u, c) in &r {
            if u.children.is_empty() {
                assert_eq!(*c, 1);
            } else {
                let mut reds: Vec<String> = Vec::new();
                for v in immediate_reductions(u) {
                    let s = v.to_string();
                    if multi || !reds.contains(&s) {
                        reds.push(s);
                    }
                }
                let total: usize = reds.iter().map(|s| count_for(&r, s)).sum();
                assert_eq!(*c, total);
            }
        }
    }
}
