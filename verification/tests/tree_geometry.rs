use lock_free_buddy_allocator::tree::Tree;

#[test]
fn geometry_of_a_sixteen_page_tree() {
    let t = Tree::new(4).unwrap();

    assert_eq!(t.height(), 5);
    assert_eq!(t.node_count(), 31);

    let root = t.root();
    assert_eq!(root.pos, 1);
    assert_eq!(root.order(), 4);
    assert_eq!(root.start, 0);
    assert_eq!(root.container_pos(), 1);
    assert!(!t.is_leaf(root));

    // The top container packs depths 0 through 3: node 8 sits in its bottom
    // row, at slot 8.
    let eight = t.node(8);
    assert_eq!(eight.order(), 1);
    assert_eq!(eight.container_pos(), 8);
    assert_eq!(eight.container_offset, root.container_offset);
    assert!(t.is_leaf(eight));
    assert_eq!(eight.start, 0);
    assert_eq!(t.node(9).start, 2);

    // Depth 4 nodes root containers of their own.
    let sixteen = t.node(16);
    assert_eq!(sixteen.order(), 0);
    assert_eq!(sixteen.container_pos(), 1);
    assert_ne!(sixteen.container_offset, root.container_offset);
    assert_eq!(t.container(sixteen.container_offset).root, 16);

    // Navigation follows the heap indexing.
    assert_eq!(t.parent_of(eight).pos, 4);
    assert_eq!(t.left_of(t.node(4)).pos, 8);
    assert_eq!(t.right_of(t.node(4)).pos, 9);

    // Page offsets tile each row.
    for i in 8..16usize {
        assert_eq!(t.node(i).start, (i - 8) * 2);
    }

    // A fresh container state has every slot clear.
    let s = t.container(root.container_offset).get_state();
    assert_eq!(s.raw(), 0);
}

#[test]
fn construction_rejects_only_unindexable_orders() {
    assert!(Tree::new(0).is_some());
    assert!(Tree::new(13).is_some());
    assert!(Tree::new(58).is_none());
}
