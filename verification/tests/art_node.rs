use kuzu_storage::art_node::{ArtNode, NodeBlock, NodeKind};

#[test]
fn test_node4_insert_and_get() {
    let mut node = ArtNode::new_node4();
    let child = Box::new(ArtNode::new_node4());
    node.insert_child(0x42, child);

    assert_eq!(node.count(), 1);
    assert!(node.get_child(0x42).is_some());
    assert!(node.get_child(0x00).is_none());
}

#[test]
fn test_node4_grows_to_node16() {
    let mut node = ArtNode::new_node4();
    for b in 0..5u8 {
        node.insert_child(b, Box::new(ArtNode::new_node4()));
    }
    assert_eq!(node.kind(), NodeKind::Node16);
    assert_eq!(node.count(), 5);
    for b in 0..5u8 {
        assert!(node.get_child(b).is_some(), "child {b} should exist");
    }
}

#[test]
fn test_node16_grows_to_node48() {
    let mut node = ArtNode::new_node4();
    for b in 0..18u8 {
        node.insert_child(b, Box::new(ArtNode::new_node4()));
    }
    assert_eq!(node.kind(), NodeKind::Node48);
    assert_eq!(node.count(), 18);
}

#[test]
fn test_node48_grows_to_node256() {
    let mut node = ArtNode::new_node4();
    for b in 0..50u8 {
        node.insert_child(b, Box::new(ArtNode::new_node4()));
    }
    assert_eq!(node.kind(), NodeKind::Node256);
    assert_eq!(node.count(), 50);
}

#[test]
fn test_remove_child() {
    let mut node = ArtNode::new_node4();
    node.insert_child(0x10, Box::new(ArtNode::new_node4()));
    node.insert_child(0x20, Box::new(ArtNode::new_node4()));
    assert_eq!(node.count(), 2);

    node.remove_child(0x10);
    assert_eq!(node.count(), 1);
    assert!(node.get_child(0x10).is_none());
    assert!(node.get_child(0x20).is_some());
}

#[test]
fn test_add_and_remove_offset() {
    let mut node = ArtNode::new_node4();
    assert!(!node.has_offsets());
    node.add_offset(42);
    assert!(node.has_offsets());
    assert_eq!(node.all_offsets(), vec![42]);

    node.add_offset(99);
    assert_eq!(node.all_offsets(), vec![42, 99]);

    assert!(node.remove_offset(42));
    assert!(!node.remove_offset(999));
    assert_eq!(node.all_offsets(), vec![99]);
}

#[test]
fn test_node_block_allocate() {
    let mut block = NodeBlock::new();
    let idx = block.allocate(ArtNode::new_node4());
    assert_eq!(idx, 0);
    assert_eq!(block.len(), 1);
    assert!(block.get(0).is_some());
}

#[test]
fn test_get_or_insert_child() {
    let mut node = ArtNode::new_node4();
    let _child = node.get_or_insert_child(0xAB);
    assert_eq!(node.count(), 1);

    // Getting again should not create a new child
    let _same = node.get_or_insert_child(0xAB);
    assert_eq!(node.count(), 1);
}

fn tagged(tag: u8) -> Box<ArtNode> {
    let mut n = ArtNode::new_node4();
    n.prefix_mut().push(tag);
    Box::new(n)
}

#[test]
fn node48_insert_after_removal_keeps_other_children() {
    let mut node = ArtNode::new_node4();
    for b in 0..20u8 {
        node.insert_child(b, tagged(b));
    }
    assert_eq!(node.kind(), NodeKind::Node48);
    node.remove_child(3);
    node.insert_child(100, tagged(100));
    assert_eq!(node.count(), 20);
    assert_eq!(node.get_child(100).unwrap().prefix(), &[100u8][..]);
    assert!(node.get_child(3).is_none());
    for b in 0..20u8 {
        if b != 3 {
            assert_eq!(node.get_child(b).unwrap().prefix(), &[b][..], "child {b}");
        }
    }
}

#[test]
fn distinct_inserts_give_one_child_per_byte() {
    // bytes in a scattered order, all distinct
    let bytes: Vec<u8> = (0..200u32).map(|i| ((i * 37 + 11) % 256) as u8).collect();
    let mut node = ArtNode::new_node4();
    for (k, &b) in bytes.iter().enumerate() {
        node.insert_child(b, Box::new(ArtNode::new_node4()));
        let n = k + 1;
        let expected = if n <= 4 {
            NodeKind::Node4
        } else if n <= 16 {
            NodeKind::Node16
        } else if n <= 48 {
            NodeKind::Node48
        } else {
            NodeKind::Node256
        };
        assert_eq!(node.kind(), expected);
        assert_eq!(node.count() as usize, n);
    }
    for b in 0..=255u8 {
        assert_eq!(node.get_child(b).is_some(), bytes.contains(&b));
    }
}
