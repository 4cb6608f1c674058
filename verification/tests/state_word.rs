use lock_free_buddy_allocator::state::NodeState;

#[test]
fn zero_word_is_fully_allocable() {
    let s = NodeState::from_raw(0);
    for p in 1..16u8 {
        assert!(s.is_allocable(p));
        assert!(!s.is_occupied(p));
    }
}

#[test]
fn lock_is_idempotent() {
    let s = NodeState::from_raw(0x55);
    for p in 1..8u8 {
        let once = s.lock_not_leaf(p);
        assert_eq!(once.lock_not_leaf(p), once);
    }
    for p in 8..16u8 {
        let once = s.lock_leaf(p);
        assert_eq!(once.lock_leaf(p), once);
    }
}

#[test]
fn unlock_after_lock_restores_a_clear_slot() {
    let s = NodeState::from_raw(0);
    for p in 1..16u8 {
        assert!(s.is_allocable(p));
        let locked = if p < 8 {
            s.lock_not_leaf(p)
        } else {
            s.lock_leaf(p)
        };
        assert!(!locked.is_allocable(p));
        assert_eq!(locked.unlock(p), s);
    }
}

#[test]
fn exact_masks_of_slot_eight() {
    let s = NodeState::from_raw(0);
    // Slot 8's field starts at bit 7: lock plus both occupy bits is 0x13.
    assert_eq!(s.lock_leaf(8).raw(), 0x13 << 7);
    assert_eq!(s.left_coalesce(8).raw(), 0x8 << 7);
    assert_eq!(s.rigth_coalesce(8).raw(), 0x4 << 7);
    assert_eq!(s.occupy_left(8).raw(), 0x2 << 7);
    assert_eq!(s.occupy_rigth(8).raw(), 0x1 << 7);
    // Slot 1 of the non-bottom rows is bit 0.
    assert_eq!(s.lock_not_leaf(1).raw(), 0x1);
    assert_eq!(s.lock_not_leaf(7).raw(), 0x40);
}

#[test]
fn coalescing_blocks_allocation_and_keeps_occupancy() {
    let s = NodeState::from_raw(0).occupy_left(9);
    let marked = s.left_coalesce(9);

    assert!(marked.is_left_coalescing(9));
    assert!(!marked.is_right_coalescing(9));
    assert!(!marked.is_allocable(9));
    for p in 1..16u8 {
        assert_eq!(marked.is_occupied(p), s.is_occupied(p));
    }

    let consumed = marked.clean_left_coalesce(9).clean_left_occupy(9);
    assert!(!consumed.is_left_coalescing(9));
    assert!(consumed.is_allocable(9));
}

#[test]
fn occupy_sides_read_back() {
    let s = NodeState::from_raw(0);
    let l = s.occupy_left(12);
    let r = s.occupy_rigth(12);

    assert!(l.is_occupied_left(12));
    assert!(!l.is_occupied_rigth(12));
    assert!(r.is_occupied_rigth(12));
    assert!(!r.is_occupied_left(12));
    assert_eq!(l.clean_left_occupy(12), s);
    assert_eq!(r.clean_rigth_occupy(12), s);
    assert_eq!(l.clean_rigth_occupy(12), l);

    // The lock bit alone decides `is_occupied` for a bottom-row slot.
    assert!(!l.is_occupied(12));
    assert!(!s.lock_leaf(12).is_allocable(12));
    assert!(s.lock_leaf(12).is_occupied(12));
}
