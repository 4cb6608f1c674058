use lock_free_buddy_allocator::buddy_alloc::BuddyAlloc;
use lock_free_buddy_allocator::cpuid;

const PAGE_SIZE: usize = 1 << 12;

struct Cpu;

impl cpuid::Cpu for Cpu {
    fn current_cpu() -> usize {
        0
    }
}

type Buddy = BuddyAlloc<Cpu, PAGE_SIZE>;

fn overlaps(a: (usize, usize), b: (usize, usize)) -> bool {
    let a_end = a.0 + (1usize << a.1) * PAGE_SIZE;
    let b_end = b.0 + (1usize << b.1) * PAGE_SIZE;
    a.0 < b_end && b.0 < a_end
}

fn any_overlap(regions: &[(usize, usize)]) -> bool {
    for i in 0..regions.len() {
        for j in 0..regions.len() {
            if i != j && overlaps(regions[i], regions[j]) {
                return true;
            }
        }
    }
    false
}

#[test]
fn eight_order_one_blocks_cover_the_region() {
    let buddy = Buddy::new(0, 4).unwrap();
    let mut got: Vec<usize> = Vec::new();

    for _ in 0..8 {
        got.push(buddy.allocate(1).unwrap());
    }

    let mut sorted = got.clone();
    sorted.sort();
    let expected: Vec<usize> = (0..8).map(|i| i * 2 * PAGE_SIZE).collect();
    assert_eq!(sorted, expected);

    assert!(buddy.allocate(0).is_none());
}

#[test]
fn refill_after_partial_free() {
    let buddy = Buddy::new(0, 4).unwrap();
    let mut got: Vec<usize> = Vec::new();

    for _ in 0..5 {
        got.push(buddy.allocate(1).unwrap());
    }
    for a in got {
        assert!(buddy.free(a, 1).is_some());
    }
    for _ in 0..8 {
        assert!(buddy.allocate(1).is_some());
    }
}

#[test]
fn order_two_fills_thousand_pages() {
    let buddy = Buddy::new(0, 10).unwrap();
    let mut live: Vec<(usize, usize)> = Vec::new();

    for _ in 0..512 {
        let i = buddy.allocate(2);
        if let Some(a) = i {
            live.push((a, 2));
        }
    }

    assert_eq!(live.len(), 256);
    assert!(!any_overlap(&live));
    assert!(buddy.allocate(0).is_none());
}

#[test]
fn mixed_orders_coalesce_to_whole_region() {
    let buddy = Buddy::new(0, 10).unwrap();
    let mut live: Vec<(usize, usize)> = Vec::new();

    for _ in 0..127 {
        if let Some(a) = buddy.allocate(4) {
            live.push((a, 4));
        }
    }
    for _ in 0..256 {
        if let Some(a) = buddy.allocate(2) {
            live.push((a, 2));
        }
    }

    assert!(!any_overlap(&live));

    for (a, k) in live {
        assert!(buddy.free(a, k).is_some());
    }

    assert!(buddy.allocate(10).is_some());
    assert!(buddy.allocate(10).is_none());
}

#[test]
fn page_by_page_to_exhaustion() {
    let buddy = Buddy::new(0, 13).unwrap();

    for _ in 0..(1usize << 13) {
        assert!(buddy.allocate(0).is_some());
    }

    assert!(buddy.allocate(0).is_none());
}

#[test]
fn interleaved_free_and_alloc() {
    let buddy = Buddy::new(0, 12).unwrap();
    let pre: Vec<usize> = (0..1usize << 11).map(|_| buddy.allocate(0).unwrap()).collect();

    let mut fresh: Vec<(usize, usize)> = Vec::new();
    for a in pre {
        buddy.free(a, 0);
        fresh.push((buddy.allocate(0).unwrap(), 0));
    }

    assert!(!any_overlap(&fresh));
}

#[test]
fn single_page_region() {
    let buddy = Buddy::new(0, 0).unwrap();

    let a = buddy.allocate(0).unwrap();
    assert_eq!(a, 0);
    assert!(buddy.allocate(0).is_none());
    assert!(buddy.free(a, 0).is_some());
    assert_eq!(buddy.allocate(0), Some(0));
}

#[test]
fn offset_region_addresses() {
    // Region based at page 16: all addresses shift by 16 pages and stay
    // aligned to their block size.
    let buddy = Buddy::new(16, 4).unwrap();
    let base = 16 * PAGE_SIZE;

    let a = buddy.allocate(2).unwrap();
    assert!(a >= base);
    assert!(a + 4 * PAGE_SIZE <= base + 16 * PAGE_SIZE);
    assert_eq!((a - base) % (4 * PAGE_SIZE), 0);
}

#[test]
fn free_rejects_only_oversized_order() {
    let buddy = Buddy::new(0, 4).unwrap();
    let a = buddy.allocate(0).unwrap();

    assert!(buddy.free(a, 5).is_none());
    assert!(buddy.free(a, 0).is_some());
}

#[test]
fn construction_limits() {
    // A zero page size can never be valid.
    assert!(BuddyAlloc::<Cpu, 0>::new(0, 4).is_none());
    // An order beyond the supported maximum is rejected.
    assert!(Buddy::new(0, 58).is_none());
    // A region whose last byte does not fit in a machine word is rejected.
    assert!(Buddy::new(usize::MAX / PAGE_SIZE, 4).is_none());
}
