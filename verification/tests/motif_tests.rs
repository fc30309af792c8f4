use search::motifs::{find_diamond3, Diamond3Witness};
use search::tree::Tree;

#[test]
fn no_diamond3_on_small_example() {
    let t: Tree = "(()())".parse().unwrap();
    assert_eq!(find_diamond3(&t), None);
}

#[test]
fn diamond3_found() {
    let t: Tree = "((())(())(()))".parse().unwrap();
    assert_eq!(
        find_diamond3(&t),
        Some(Diamond3Witness {
            top: "((())(())(()))".to_string(),
            middle: ["((())(())())".to_string(), "((())()(()))".to_string(), "(()(())(()))".to_string()],
            bottom: "((())(()))".to_string(),
        })
    );
}

#[test]
fn diamond3_absent_with_few_middles() {
    for s in ["()", "(())", "((())(()()))", "(((()))(())())"] {
        let t: Tree = s.parse().unwrap();
        assert_eq!(find_diamond3(&t), None);
    }
}
