use search::parse::parse_tree;
use search::tree::{Tree, TreeEditError};
use search::TreeParseError;

fn tree(s: &str) -> Tree {
    s.parse().unwrap()
}

#[test]
fn display_is_canonical() {
    let t: Tree = " ( () (()) ) ".parse().unwrap();
    assert_eq!(t.to_string(), "(()(()))");
}

#[test]
fn parse_examples() {
    let leaf: Tree = "()".parse().unwrap();
    assert!(leaf.is_leaf());
    assert_eq!(leaf.node_count(), 1);
    assert_eq!(leaf.edge_count(), 0);

    let t: Tree = "(())".parse().unwrap();
    assert_eq!(t.edge_count(), 1);

    let t: Tree = "(()())".parse().unwrap();
    assert_eq!(t.edge_count(), 2);
}

#[test]
fn leaf_paths_and_delete() {
    let t: Tree = "(()())".parse().unwrap();
    let paths = t.non_root_leaf_paths();
    assert_eq!(paths, vec![vec![0], vec![1]]);
    assert_eq!(t.delete_leaf(&paths[0]).unwrap().to_string(), "(())");
    assert_eq!(t.delete_leaf(&paths[1]).unwrap().to_string(), "(())");
}

#[test]
fn edges_are_one_fewer_than_nodes() {
    for s in ["()", "(())", "(()())", "((())(()()))", "(((()))(())())"] {
        let t = tree(s);
        assert_eq!(t.edge_count() + 1, t.node_count());
    }
    assert_eq!(tree("((())(()()))").node_count(), 6);
}

#[test]
fn text_round_trip() {
    for s in ["()", "(())", "(()(()))", "((())(())(()))"] {
        let t = tree(s);
        assert_eq!(t.to_string(), s);
        assert_eq!(parse_tree(&t.to_string()).unwrap(), t);
    }
}

#[test]
fn parse_errors() {
    assert_eq!(parse_tree("x"), Err(TreeParseError::ExpectedOpenParen { at: 0 }));
    assert_eq!(parse_tree("  x"), Err(TreeParseError::ExpectedOpenParen { at: 2 }));
    assert_eq!(parse_tree("(x)"), Err(TreeParseError::ExpectedCloseParen { at: 1 }));
    assert_eq!(parse_tree("((x"), Err(TreeParseError::ExpectedCloseParen { at: 2 }));
    assert_eq!(parse_tree("(()"), Err(TreeParseError::UnexpectedEof));
    assert_eq!(parse_tree(""), Err(TreeParseError::UnexpectedEof));
    assert_eq!(parse_tree("()x"), Err(TreeParseError::TrailingCharacters { at: 2 }));
    assert_eq!(parse_tree("() ()"), Err(TreeParseError::TrailingCharacters { at: 3 }));
    assert!(parse_tree(" ( ( ) ) \n").is_ok());
}

#[test]
fn delete_leaf_errors() {
    let t = tree("((())())");
    assert_eq!(t.delete_leaf(&[]), Err(TreeEditError::EmptyPath));
    assert_eq!(t.delete_leaf(&[2]), Err(TreeEditError::InvalidIndex { depth: 0, index: 2 }));
    assert_eq!(t.delete_leaf(&[0, 1]), Err(TreeEditError::InvalidIndex { depth: 1, index: 1 }));
    assert_eq!(t.delete_leaf(&[0]), Err(TreeEditError::TargetNotLeaf));
    assert_eq!(t.delete_leaf(&[0, 0]).unwrap().to_string(), "(()())");
    assert_eq!(t.delete_leaf(&[1]).unwrap().to_string(), "((()))");
}

#[test]
fn leaf_paths_in_depth_first_order() {
    let t = tree("((())(()()))");
    assert_eq!(t.non_root_leaf_paths(), vec![vec![0, 0], vec![1, 0], vec![1, 1]]);
    assert!(tree("()").non_root_leaf_paths().is_empty());
}

#[test]
fn leaf_and_equality() {
    assert!(Tree::leaf().is_leaf());
    assert_eq!(Tree::leaf().to_string(), "()");
    assert_eq!(tree("(()(()))"), tree(" ( () ( () ) )"));
    assert_ne!(tree("(()(()))"), tree("((())())"));
    let t = tree("((())())");
    assert_eq!(t.clone(), t);
}

#[test]
fn identity_terms() {
    assert_eq!(tree("()").to_i(), "I");
    assert_eq!(tree("(())").to_i(), "(I I)");
    assert_eq!(tree("(()())").to_i(), "(I (I I))");
    assert_eq!(tree("(()(()))").to_i(), "(I ((I I) I))");
}

#[test]
fn canonical_form_sorts_children() {
    let mut t = tree("((())())");
    t.to_canonical();
    assert_eq!(t.to_string(), "(()(()))");
    let mut u = tree("(()(()))");
    u.to_canonical();
    assert_eq!(u.to_string(), "(()(()))");
    let mut v = tree("(((())())(()))");
    v.to_canonical();
    assert_eq!(v.to_string(), "((())(()(())))");
    let mut w = v.clone();
    w.to_canonical();
    assert_eq!(w, v);
}

#[test]
fn for_each_visits_every_subtree() {
    let t = tree("((())())");
    let mut seen: Vec<String> = Vec::new();
    t.for_each(&mut |x: &Tree| seen.push(x.to_string()));
    assert_eq!(seen, vec!["((())())", "(())", "()", "()"]);
    let mut strict: Vec<String> = Vec::new();
    t.for_each_strict(&mut |x: &Tree| strict.push(x.to_string()));
    assert_eq!(strict, vec!["(())", "()", "()"]);
}

#[test]
fn canonical_forms_ignore_the_order_of_children() {
    let canon = |s: &str| {
        let mut t: Tree = s.parse().unwrap();
        t.to_canonical();
        t.to_string()
    };
    assert_eq!(canon("((())(()()))"), canon("((()())(()))"));
    assert_eq!(canon("(((())())())"), canon("(()(()(())))"));
    assert_ne!(canon("((())())"), canon("(()()())"));
    let once = canon("(((())())())");
    assert_eq!(canon(&once), once);
}

#[test]
fn subtrees_and_for_each_go_in_pre_order() {
    let t = tree("(()(()))");
    let subs: Vec<String> = t.subtrees().iter().map(|x| x.to_string()).collect();
    assert_eq!(subs, vec!["(()(()))", "()", "(())", "()"]);
    let mut seen: Vec<String> = Vec::new();
    t.for_each(&mut |x: &Tree| seen.push(x.to_string()));
    assert_eq!(seen, subs);
    let mut strict: Vec<String> = Vec::new();
    t.for_each_strict(&mut |x: &Tree| strict.push(x.to_string()));
    assert_eq!(strict, subs[1..].to_vec());
}

fn children_sorted_everywhere(t: &Tree) -> bool {
    t.children.windows(2).all(|w| w[0] <= w[1]) && t.children.iter().all(children_sorted_everywhere)
}

#[test]
fn canonical_form_sorts_the_children_of_every_node() {
    let mut t = tree("(((()())(()))(())(()(())))");
    assert!(!children_sorted_everywhere(&t));
    t.to_canonical();
    assert!(children_sorted_everywhere(&t));
}

#[test]
fn a_text_parses_to_a_tree_exactly_when_its_parentheses_are_the_tree() {
    let t = tree("(()(()))");
    assert_eq!(parse_tree(" ( ( ) ( ( ) ) ) ").unwrap(), t);
    assert_eq!(parse_tree(&t.to_string()).unwrap(), t);
    assert!(parse_tree("(()(())").is_err());
}
