use search::dag::MultiDag;
use search::dot::to_dot;
use search::parse::parse_tree;

#[test]
fn dot_contains_nodes_and_edges() {
    let d = MultiDag::from_tree(&parse_tree("(())").unwrap());
    let s = to_dot(&d, false);
    assert_eq!(
        s,
        "digraph G {\n  rankdir=TB;\n  node [shape=box];\n  n0 [label=\"(())\", ];\n  n1 [label=\"()\", ];\n  n0 -> n1;\n}\n"
    );
}

#[test]
fn dot_colors_bool_true_as_red() {
    let d = MultiDag::from_tree(&parse_tree("(())").unwrap());
    let s = to_dot(&d.tag_vec(&vec![0]), false);
    assert!(s.contains("  n0 [label=\"(())\", color=red];\n"));
    assert!(s.contains("  n1 [label=\"()\", ];\n"));
}

#[test]
fn dot_shows_multiplicities() {
    let d = MultiDag::from_tree(&parse_tree("(()())").unwrap());
    let with = to_dot(&d, true);
    assert!(with.contains("  n0 -> n1 [label=\"2\"];\n"));
    assert!(with.contains("  n1 -> n2;\n"));
    let without = to_dot(&d, false);
    assert!(without.contains("  n0 -> n1;\n"));
    assert!(!without.contains("label=\"2\""));
    assert!(without.starts_with("digraph G {\n"));
    assert!(without.ends_with("}\n"));
}

#[test]
fn dot_numbers_past_ten() {
    let d = MultiDag::from_tree(&parse_tree("((())(())(()))").unwrap());
    let s = to_dot(&d, true);
    assert!(s.contains("  n14 [label=\"()\", ];\n"));
    assert!(s.contains("  n13 -> n14;\n"));
    assert!(s.contains("  n12 -> n13 [label=\"2\"];\n"));
    assert!(s.contains("  n10 -> n12 [label=\"3\"];\n"));
}
