use std::collections::HashSet;

use search::dag::{DagNode, MultiDag};
use search::parse::parse_tree;
use search::reduction::immediate_reductions;
use search::tree::Tree;

fn dag_of(s: &str) -> MultiDag<Tree> {
    MultiDag::from_tree(&parse_tree(s).unwrap())
}

#[test]
fn eq_1() {
    let d1 = MultiDag::from_tree(&parse_tree("(()(()))").unwrap());
    let d2 = MultiDag::from_tree(&parse_tree("((())())").unwrap());
    assert_eq!(d1, d2);
}

#[test]
fn eq_2() {
    let d1 = MultiDag::from_tree(&parse_tree("( (()()) (((())())) )").unwrap());
    let d2 = MultiDag::from_tree(&parse_tree("( ((()(()))) (()()) )").unwrap());
    assert_eq!(d1, d2);
}

#[test]
fn neq_1() {
    let d1 = MultiDag::from_tree(&parse_tree("((())(()))").unwrap());
    let d2 = MultiDag::from_tree(&parse_tree("((())())").unwrap());
    assert_ne!(d1, d2);
}

#[test]
fn counter_example() {
    let d1 = MultiDag::from_tree(&parse_tree("( (()(())) (()(())) )").unwrap());
    let d2 = MultiDag::from_tree(&parse_tree("( (()(())) ((())()) )").unwrap());
    assert_ne!(d1, d2);
}

#[test]
fn gpt_example() {
    let d1 = MultiDag::from_tree(&parse_tree("(   ( ( ()(()) ) () )  ( (()(())) () )   )").unwrap());
    let d2 = MultiDag::from_tree(&parse_tree("(   ( ( ()(()) ) () )  ( ((())()) () )   )").unwrap());
    assert_ne!(d1, d2);
}

#[test]
fn reductions_keep_multiplicity() {
    let t: Tree = "(()())".parse().unwrap();
    let reductions = immediate_reductions(&t);
    assert_eq!(reductions.len(), 2);
    assert_eq!(reductions[0].to_string(), "(())");
    assert_eq!(reductions[1].to_string(), "(())");
}

#[test]
fn reductions_in_leaf_order() {
    let t: Tree = "((())(()()))".parse().unwrap();
    let texts: Vec<String> = immediate_reductions(&t).iter().map(|r| r.to_string()).collect();
    assert_eq!(texts, vec!["(()(()()))", "((())(()))", "((())(()))"]);
    assert!(immediate_reductions(&Tree::leaf()).is_empty());
}

#[test]
fn reduction_dag_of_small_tree() {
    let d = dag_of("(()())");
    assert_eq!(d.node_count(), 3);
    assert_eq!(d.root, 0);
    let labels: Vec<String> = d.nodes.iter().map(|n| n.label.to_string()).collect();
    assert_eq!(labels, vec!["(()())", "(())", "()"]);
    assert_eq!(d.edges_count(), 3);
    assert_eq!(d.edges_count_single(), 2);
    assert_eq!(d.children(0), vec![(1, 2)]);
    assert_eq!(d.parents(1), vec![(0, 2)]);
    assert_eq!(d.children(2), vec![]);
    assert_eq!(d.get_finals(), vec![2]);
    let finals: Vec<String> = d.get_final_nodes().iter().map(|n| n.label.to_string()).collect();
    assert_eq!(finals, vec!["()"]);
    assert_eq!(d.height(), 4);
}

#[test]
fn reduction_dag_numbers_breadth_first() {
    let d = dag_of("(()(()))");
    let labels: Vec<String> = d.nodes.iter().map(|n| n.label.to_string()).collect();
    assert_eq!(labels, vec!["(()(()))", "((()))", "(()())", "(())", "()"]);
    assert_eq!(d.edges.get(&0).unwrap(), &vec![1, 2]);
    assert_eq!(d.edges.get(&2).unwrap(), &vec![3, 3]);
    assert_eq!(d.rev_edges.get(&3).unwrap(), &vec![1, 2, 2]);
    assert_eq!(d.edges_count(), 6);
    assert_eq!(d.edges_count_single(), 5);
}

#[test]
fn above_and_below() {
    let d = dag_of("(()(()))");
    let above: HashSet<usize> = d.get_above(3);
    assert_eq!(above, [0, 1, 2].into_iter().collect());
    let below: HashSet<usize> = d.get_below(1);
    assert_eq!(below, [3, 4].into_iter().collect());
    assert!(d.get_above(0).is_empty());
    assert!(d.get_below(4).is_empty());
    for s in 0..5 {
        for x in 0..5 {
            assert_eq!(d.get_above(s).contains(&x), d.get_below(x).contains(&s));
        }
    }
}

#[test]
fn tags() {
    let d = dag_of("(()(()))");
    let t = d.clone().tag_above(3);
    let flags: Vec<bool> = t.nodes.iter().map(|n| n.label.1).collect();
    assert_eq!(flags, vec![true, true, true, false, false]);
    let t = d.clone().tag_below(1);
    let flags: Vec<bool> = t.nodes.iter().map(|n| n.label.1).collect();
    assert_eq!(flags, vec![false, false, false, true, true]);
    let t = d.clone().tag_vec(&vec![4, 0]);
    let flags: Vec<bool> = t.nodes.iter().map(|n| n.label.1).collect();
    assert_eq!(flags, vec![true, false, false, false, true]);
    let set: HashSet<usize> = [2].into_iter().collect();
    let t = d.clone().tag_set(&set);
    let flags: Vec<bool> = t.nodes.iter().map(|n| n.label.1).collect();
    assert_eq!(flags, vec![false, false, true, false, false]);
    assert_eq!(t.nodes[2].label.0.to_string(), "(()())");
    let plain = d.clone().remove_labels();
    assert_eq!(plain.nodes.len(), 5);
    assert_eq!(plain.edges, d.edges);
}

#[test]
fn map_relabels_in_order() {
    let d = dag_of("(()())");
    let m = d.map(|t: Tree, k: usize| (k, t.node_count()));
    let labels: Vec<(usize, usize)> = m.nodes.iter().map(|n| n.label).collect();
    assert_eq!(labels, vec![(0, 3), (1, 2), (2, 1)]);
}

#[test]
fn building_by_hand() {
    let mut d: MultiDag<u8> = MultiDag::default();
    assert_eq!(d.node_count(), 0);
    let a = d.add_node(10, vec![], vec![]);
    let b = d.add_node(20, vec![a], vec![]);
    let c = d.add_node(30, vec![a, b], vec![]);
    d.add_edge(a, c);
    assert_eq!((a, b, c), (0, 1, 2));
    assert_eq!(d.children(a), vec![(1, 1), (2, 2)]);
    assert_eq!(d.parents(c), vec![(0, 2), (1, 1)]);
    assert_eq!(d.edges_count(), 4);
    assert_eq!(d.edges_count_single(), 3);
    d.remove_multiedges();
    assert_eq!(d.edges.get(&0).unwrap(), &vec![1, 2]);
    assert_eq!(d.edges_count(), 3);
    let n = DagNode::new(7, 'x');
    assert_eq!((n.id, n.label), (7, 'x'));
}

#[test]
fn equality_is_reflexive_on_reduction_dags() {
    for s in ["()", "(()())", "((())(()()))"] {
        assert_eq!(dag_of(s), dag_of(s));
    }
    assert_ne!(dag_of("(()())"), dag_of("((()))"));
}

#[test]
fn reduction_dag_equals_itself() {
    for s in ["()", "(())", "((())(()))", "( (()(())) ((())()) )"] {
        assert_eq!(dag_of(s), dag_of(s));
        let spaced: String = s.chars().flat_map(|c| [c, ' ']).collect();
        assert_eq!(dag_of(s), dag_of(&spaced));
    }
}

#[test]
fn removing_multiedges_keeps_the_distinct_edges() {
    for s in ["(()())", "((())(())(()))", "(()()(()))"] {
        let mut d = dag_of(s);
        let single = d.edges_count_single();
        assert!(d.edges_count() >= single);
        d.remove_multiedges();
        assert_eq!(d.edges_count(), single);
        assert_eq!(d.edges_count_single(), single);
    }
}

#[test]
fn map_calls_a_stateful_closure_once_per_vertex_in_order() {
    let d = dag_of("((())())");
    let n = d.nodes.len();
    let mut calls: Vec<usize> = Vec::new();
    let m = d.map(|t: Tree, k: usize| {
        calls.push(k);
        t.node_count()
    });
    let expected: Vec<usize> = (0..n).collect();
    assert_eq!(calls, expected);
    assert_eq!(m.nodes.len(), n);
    assert_eq!(m.nodes[0].label, 4);
}

#[test]
fn reversed_root_children_give_equal_dags() {
    let d1 = dag_of("( ( () (()()) ) (()()()) )");
    let d2 = dag_of("( (()()()) ( () (()()) ) )");
    assert!(d1 == d2);
    assert!(d2 == d1);
}

#[test]
fn dag_labels_are_the_trees_reached_by_reductions() {
    let root = parse_tree("((()())(()))").unwrap();
    let d = MultiDag::from_tree(&root);
    let mut seen: Vec<String> = vec![root.to_string()];
    let mut todo: Vec<Tree> = vec![root.clone()];
    while let Some(t) = todo.pop() {
        for r in immediate_reductions(&t) {
            let s = r.to_string();
            if !seen.contains(&s) {
                seen.push(s);
                todo.push(r);
            }
        }
    }
    let mut labels: Vec<String> = d.nodes.iter().map(|n| n.label.to_string()).collect();
    seen.sort();
    labels.sort();
    assert_eq!(labels, seen);
}
