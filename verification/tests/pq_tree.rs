use planar_graphs::pq_tree::PqTree;

#[test]
fn a_new_tree_is_one_p_node() {
    let tree = PqTree::new();
    assert!(tree.root.children.is_empty());
    assert_eq!(tree.root.node_type, 'P');
    assert_eq!(tree.root.node_label, '0');
}
