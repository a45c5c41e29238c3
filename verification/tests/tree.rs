use browser::tree::{Tree, TreeNode};

fn sample() -> Tree<&'static str> {
    let mut tree = Tree::new();
    let root = tree.insert(TreeNode::root("root"));
    let a = tree.insert(TreeNode::new("a", root));
    tree.add_child(root, a);
    let b = tree.insert(TreeNode::new("b", root));
    tree.add_child(root, b);
    let c = tree.insert(TreeNode::new("c", a));
    tree.add_child(a, c);
    let d = tree.insert(TreeNode::new("d", b));
    tree.add_child(b, d);
    tree
}

#[test]
fn root_node_has_no_links() {
    let node = TreeNode::root(7);
    assert_eq!(node.value, 7);
    assert_eq!(node.get_parent(), None);
    assert_eq!(node.get_child(0), None);
}

#[test]
fn new_node_names_its_parent() {
    let node = TreeNode::new("x", 3);
    assert_eq!(node.value, "x");
    assert_eq!(node.get_parent(), Some(3));
    assert!(node.children.is_empty());
}

#[test]
fn add_child_keeps_insertion_order() {
    let mut node = TreeNode::root(0);
    node.add_child(4);
    node.add_child(2);
    node.add_child(9);
    assert_eq!(node.get_child(0), Some(4));
    assert_eq!(node.get_child(1), Some(2));
    assert_eq!(node.get_child(2), Some(9));
    assert_eq!(node.get_child(3), None);
    assert_eq!(node.value, 0);
    assert_eq!(node.get_parent(), None);
}

#[test]
fn inserted_node_is_detached_until_added() {
    let mut tree = Tree::new();
    assert_eq!(tree.len(), 0);
    let root = tree.insert(TreeNode::root('r'));
    let child = tree.insert(TreeNode::new('c', root));
    assert_eq!((root, child), (0, 1));
    assert_eq!(tree.len(), 2);
    assert_eq!(tree.get(child).get_parent(), Some(root));
    assert_eq!(tree.get(root).get_child(0), None);
    tree.add_child(root, child);
    assert_eq!(tree.get(root).get_child(0), Some(child));
    assert_eq!(tree.get(child).value, 'c');
}

#[test]
fn replace_value_keeps_the_links() {
    let mut tree = sample();
    let old = tree.replace_value(1, "A");
    assert_eq!(old, "a");
    assert_eq!(tree.get(1).value, "A");
    assert_eq!(tree.get(1).get_parent(), Some(0));
    assert_eq!(tree.get(1).children, vec![3]);
    assert_eq!(tree.get(0).value, "root");
}

#[test]
fn preorder_visits_a_subtree_before_its_siblings() {
    let tree = sample();
    assert_eq!(tree.preorder_ids(0), vec![0, 1, 3, 2, 4]);
    assert_eq!(tree.preorder_ids(1), vec![1, 3]);
    assert_eq!(tree.preorder_ids(4), vec![4]);
}

#[test]
fn find_returns_matches_in_preorder() {
    let tree = sample();
    let found = tree.find(0, |node: &TreeNode<&'static str>| node.value != "a" && node.value != "root");
    assert_eq!(found, vec![3, 2, 4]);
    let none = tree.find(1, |node: &TreeNode<&'static str>| node.value == "d");
    assert!(none.is_empty());
}

#[test]
fn map_linear_maps_in_preorder() {
    let tree = sample();
    let names = tree.map_linear(0, |node: &TreeNode<&'static str>| node.value.to_uppercase());
    assert_eq!(names, vec!["ROOT", "A", "C", "B", "D"]);
    let below = tree.map_linear(2, |node: &TreeNode<&'static str>| node.children.len());
    assert_eq!(below, vec![1, 0]);
}

#[test]
fn map_values_keeps_positions_and_links() {
    let tree = sample();
    let lengths = tree.map_values(|node: &TreeNode<&'static str>| node.value.len());
    assert_eq!(lengths.len(), tree.len());
    for id in 0..tree.len() {
        assert_eq!(lengths.get(id).value, tree.get(id).value.len());
        assert_eq!(lengths.get(id).get_parent(), tree.get(id).get_parent());
        assert_eq!(lengths.get(id).children, tree.get(id).children);
    }
}

#[test]
fn map_copies_a_subtree_in_preorder() {
    let tree = sample();
    let whole = tree.map(0, |node: &TreeNode<&'static str>| node.value.to_uppercase());
    assert_eq!(whole.len(), 5);
    let values: Vec<&str> = (0..5).map(|id| whole.get(id).value.as_str()).collect();
    assert_eq!(values, vec!["ROOT", "A", "C", "B", "D"]);
    assert_eq!(whole.get(0).get_parent(), None);
    assert_eq!(whole.get(0).children, vec![1, 3]);
    assert_eq!(whole.get(1).children, vec![2]);
    assert_eq!(whole.get(2).get_parent(), Some(1));
    assert_eq!(whole.get(3).children, vec![4]);
    assert_eq!(whole.get(4).get_parent(), Some(3));

    let part = tree.map(2, |node: &TreeNode<&'static str>| node.value.len());
    assert_eq!(part.len(), 2);
    assert_eq!(part.get(0).value, 1);
    assert_eq!(part.get(0).get_parent(), None);
    assert_eq!(part.get(0).children, vec![1]);
    assert_eq!(part.get(1).get_parent(), Some(0));
    assert!(part.get(1).children.is_empty());
}

#[test]
fn walk_calls_back_for_every_node_of_the_subtree() {
    let tree = sample();
    let seen = std::cell::RefCell::new(Vec::new());
    tree.walk(0, |node: &TreeNode<&'static str>| seen.borrow_mut().push(node.value));
    assert_eq!(*seen.borrow(), vec!["root", "a", "c", "b", "d"]);
    let below = std::cell::RefCell::new(Vec::new());
    tree.walk(2, |node: &TreeNode<&'static str>| below.borrow_mut().push(node.value));
    assert_eq!(*below.borrow(), vec!["b", "d"]);
}
