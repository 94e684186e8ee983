use lib_xch::failures::ErrorCases;
use lib_xch::node::NodeType;
use lib_xch::tree::ASTTree;

#[test]
fn cursor_starts_at_the_root() {
    let t = ASTTree::new();
    assert_eq!(t.get_index(), 0);
}

#[test]
fn new_node_appends_under_the_cursor() {
    let mut t = ASTTree::new();
    let a = t.new_node(NodeType::Molecule(1, 0)).unwrap();
    assert_eq!(a, 1);
    // the cursor did not move
    assert_eq!(t.get_index(), 0);
    t.change_index(a).unwrap();
    assert_eq!(t.get_index(), 1);
    let b = t.new_node(NodeType::Atom(b"H".to_vec(), 1)).unwrap();
    assert_eq!(b, 2);
}

#[test]
fn stale_index_is_an_internal_error() {
    let mut t = ASTTree::new();
    assert!(matches!(t.change_index(7), Err(ErrorCases::InternalError)));
    // the cursor is untouched by the failed move
    assert_eq!(t.get_index(), 0);
}

#[test]
fn reduction_multiplies_along_the_path() {
    let mut t = ASTTree::new();
    let m = t.new_node(NodeType::Molecule(2, 0)).unwrap();
    t.change_index(m).unwrap();
    let w = t.new_node(NodeType::ParenthesisWrapper(5)).unwrap();
    t.change_index(w).unwrap();
    t.new_node(NodeType::Atom(b"H".to_vec(), 3)).unwrap();
    let ad = t.to_atomdict().unwrap();
    let pairs: Vec<(String, i32)> = ad
        .get_dict()
        .iter()
        .map(|(k, v)| (String::from_utf8(k.clone()).unwrap(), *v))
        .collect();
    assert_eq!(pairs, vec![("H".to_string(), 30)]);
}

#[test]
fn reduction_books_a_nonzero_charge() {
    let mut t = ASTTree::new();
    let m = t.new_node(NodeType::Molecule(3, -2)).unwrap();
    t.change_index(m).unwrap();
    t.new_node(NodeType::Atom(b"O".to_vec(), 1)).unwrap();
    let ad = t.to_atomdict().unwrap();
    let pairs: Vec<(String, i32)> = ad
        .get_dict()
        .iter()
        .map(|(k, v)| (String::from_utf8(k.clone()).unwrap(), *v))
        .collect();
    assert_eq!(pairs, vec![("e".to_string(), -6), ("O".to_string(), 3)]);
}
