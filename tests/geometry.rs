use buddy_alloc::geometry::{block_len, buddy, node_offset, parent};

#[test]
fn node_offsets_of_order_four() {
    assert_eq!(node_offset(4, 0, 4), 0);
    assert_eq!(node_offset(4, 1, 3), 0);
    assert_eq!(node_offset(4, 2, 3), 8);
    assert_eq!(node_offset(4, 4, 2), 4);
    assert_eq!(node_offset(4, 6, 2), 12);
    assert_eq!(node_offset(4, 15, 0), 0);
    assert_eq!(node_offset(4, 17, 0), 2);
    assert_eq!(node_offset(4, 30, 0), 15);
}

#[test]
fn parents_and_buddies() {
    assert_eq!(parent(1), 0);
    assert_eq!(parent(2), 0);
    assert_eq!(parent(7), 3);
    assert_eq!(parent(8), 3);
    assert_eq!(buddy(1), 2);
    assert_eq!(buddy(2), 1);
    assert_eq!(buddy(15), 16);
    assert_eq!(buddy(16), 15);
}

#[test]
fn block_lengths() {
    assert_eq!(block_len(0), 1);
    assert_eq!(block_len(4), 16);
    assert_eq!(block_len(63), 1usize << 63);
}
