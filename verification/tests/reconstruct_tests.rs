use search::dag::MultiDag;
use search::dot::DotLabel;
use search::parse::parse_tree;
use search::reconstruct::{
    all_spine_split, find_spine_split, get_spine, get_spine_ignorable, reconstruct, NodeType,
};

#[test]
fn spine_of_small_dag() {
    let d = MultiDag::from_tree(&parse_tree("(()(()))").unwrap());
    let spine = get_spine(&d);
    assert_eq!(spine, vec![4, 3, 1]);
    assert_eq!(all_spine_split(&d, &spine), vec![(2, 1)]);
    assert_eq!(find_spine_split(&d, spine.clone()), Some((2, 1)));
}

#[test]
fn spine_of_larger_dags() {
    let d = MultiDag::from_tree(&parse_tree("((())(())(()))").unwrap());
    let spine = get_spine(&d);
    assert_eq!(spine, vec![14, 13, 11]);
    assert_eq!(all_spine_split(&d, &spine), vec![(12, 1)]);
    let e = MultiDag::from_tree(&parse_tree("(((()))(()))").unwrap());
    let spine = get_spine(&e);
    assert_eq!(spine, vec![9, 8, 6, 5]);
    assert_eq!(all_spine_split(&e, &spine), vec![(7, 1)]);
}

#[test]
fn reconstruct_tags_above_first_split() {
    let d = MultiDag::from_tree(&parse_tree("(()(()))").unwrap());
    let r = reconstruct(&d);
    let flags: Vec<bool> = r.nodes.iter().map(|n| n.label.1).collect();
    assert_eq!(flags, vec![true, true, false, false, false]);
    assert_eq!(r.nodes[0].label.0.to_string(), "(()(()))");
    let e = MultiDag::from_tree(&parse_tree("(((()))(()))").unwrap());
    let r = reconstruct(&e);
    let flags: Vec<bool> = r.nodes.iter().map(|n| n.label.1).collect();
    assert_eq!(flags, vec![true, true, true, true, true, true, true, false, false, false]);
}

#[test]
fn spine_ignoring_marked_vertices() {
    let d = MultiDag::from_tree(&parse_tree("(()(()))").unwrap());
    let tagged = d.clone().tag_vec(&vec![]);
    assert_eq!(get_spine_ignorable(&tagged, 4), vec![4, 3, 1]);
    let tagged = d.clone().tag_vec(&vec![1]);
    assert_eq!(get_spine_ignorable(&tagged, 3), vec![3]);
    let tagged = d.tag_vec(&vec![2]);
    assert_eq!(get_spine_ignorable(&tagged, 3), vec![3, 1, 0]);
}

#[test]
fn node_type_colors() {
    assert_eq!(NodeType::Spine1.get_meta(), "color=red");
    assert_eq!(NodeType::Spine2.get_meta(), "color=green");
    assert_eq!(NodeType::Both.get_meta(), "color=yellow");
    assert_eq!(NodeType::Neither.get_meta(), "");
    assert_eq!(NodeType::Both.get_text(), "");
}

#[test]
fn spines_follow_the_discovery_numbering() {
    let d1 = MultiDag::from_tree(&parse_tree("(()())").unwrap());
    assert_eq!(get_spine(&d1), vec![2, 1]);
    let d2 = MultiDag::from_tree(&parse_tree("(()(()))").unwrap());
    assert_eq!(get_spine(&d2), vec![4, 3, 1]);
    let labels: Vec<String> = d2.nodes.iter().map(|n| n.label.to_string()).collect();
    assert_eq!(labels, vec!["(()(()))", "((()))", "(()())", "(())", "()"]);
}
