use broadphase::bvh3::NodeIndex;
use broadphase::bvh6::BVH as ImplicitTree;

#[test]
fn test_node_index() {
    let leaf = NodeIndex::new_leaf(1234);
    assert!(leaf.is_leaf());
    assert!(!leaf.is_node());
    assert_eq!(leaf.index(), 1234);

    let node = NodeIndex::new_node(5498);
    assert!(!node.is_leaf());
    assert!(node.is_node());
    assert_eq!(node.index(), 5498);
}

#[test]
fn node_index_extremes() {
    let leaf = NodeIndex::new_leaf(0x7FFF_FFFF);
    assert!(leaf.is_leaf());
    assert_eq!(leaf.index(), 0x7FFF_FFFF);
    let node = NodeIndex::new_node(0);
    assert!(node.is_node());
    assert_eq!(node.index(), 0);
}

#[test]
fn implicit_tree_indices() {
    assert_eq!(ImplicitTree::get_parent(5), 2);
    assert_eq!(ImplicitTree::get_parent(6), 2);
    assert_eq!(ImplicitTree::get_parent(1), 0);
    assert_eq!(ImplicitTree::get_childs(2), (5, 6));
    assert_eq!(ImplicitTree::get_childs(0), (1, 2));
    assert!(ImplicitTree::is_leaf(4, 9));
    assert!(!ImplicitTree::is_leaf(3, 9));
}
