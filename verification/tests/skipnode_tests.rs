use skiplist::skipnode::SkipNode;

#[test]
fn a_new_node_is_linked_to_nothing() {
    let node = SkipNode::new(7, 3);
    assert_eq!(node.key, 7);
    assert_eq!(node.level, 3);
    assert_eq!(node.next, vec![None, None, None]);
}

#[test]
fn a_node_of_no_level_has_no_links() {
    let node = SkipNode::new("k", 0);
    assert_eq!(node.level, 0);
    assert!(node.next.is_empty());
}
