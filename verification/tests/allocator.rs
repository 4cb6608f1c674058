use lock_free_buddy_allocator::buddy_alloc::BuddyAlloc;
use lock_free_buddy_allocator::cpuid;

const PAGE_SIZE: usize = 1 << 12;

struct Cpu;

impl cpuid::Cpu for Cpu {
    fn current_cpu() -> usize {
        0
    }
}

type Buddy = BuddyAlloc<Cpu, PAGE_SIZE>;

#[derive(Eq, Clone, Copy, Hash, Debug)]
pub struct MemRegion {
    pub start: usize,
    pub size: usize,
}

impl MemRegion {
    pub fn new(start: usize, size: usize) -> Self {
        Self { start, size }
    }
}

impl PartialEq for MemRegion {
    fn eq(&self, other: &Self) -> bool {
        if self.start > other.start {
            if other.start + PAGE_SIZE * (1 << other.size) > self.start {
                true
            } else {
                false
            }
        } else if self.start + (1 << self.size) * PAGE_SIZE > other.start {
            true
        } else {
            false
        }
    }
}

pub fn intersection(nums: Vec<MemRegion>) -> bool {
    for i in 0..nums.len() {
        let mut new = nums.clone();

        new.remove(i);

        for j in new {
            if j == nums[i] {
                return true;
            }
        }
    }

    false
}

#[test]
fn test_helpers() {
    {
        let mut vec = Vec::with_capacity(2);

        vec.push(MemRegion::new(1, 2));
        vec.push(MemRegion::new(2, 1));

        assert!(intersection(vec));
    }

    {
        let mut vec = Vec::with_capacity(2);

        vec.push(MemRegion::new(0, 0));
        vec.push(MemRegion::new(PAGE_SIZE, 0));
        vec.push(MemRegion::new(PAGE_SIZE * 2, 0));

        assert!(!intersection(vec));
    }

    {
        let mut vec = Vec::with_capacity(2);

        vec.push(MemRegion::new(0, 0));
        vec.push(MemRegion::new(PAGE_SIZE, 2));
        vec.push(MemRegion::new(PAGE_SIZE * 2, 1));

        assert!(intersection(vec));
    }
}

#[test]
fn basic_create() {
    assert!(Buddy::new(0, 10).is_some());
    assert!(Buddy::new(0, 4).is_some());
}

#[test]
fn alloc_child() {
    let buddy = Buddy::new(0, 10).unwrap();

    assert!(buddy.__try_alloc_node(513).is_none());
    assert!(buddy.__try_alloc_node(513 * 2 + 1).is_some());
}

#[test]
fn basic_alloc() {
    let buddy = Buddy::new(0, 4).unwrap();
    let mut vec = Vec::with_capacity(8);

    for _ in 0..8 {
        vec.push(MemRegion::new(buddy.allocate(1).unwrap(), 1));
    }

    assert!(!intersection(vec));
    assert!(buddy.allocate(1).is_none());
}

#[test]
fn basic_alloc_1() {
    let buddy = Buddy::new(0, 10).unwrap();
    let mut vec = Vec::with_capacity(8);

    for _ in 0..512 {
        vec.push(MemRegion::new(buddy.allocate(1).unwrap(), 1));
    }

    assert!(!intersection(vec));
    assert!(buddy.allocate(1).is_none());
}

#[test]
fn basic_free() {
    let buddy = Buddy::new(0, 4).unwrap();
    let mut addrs = Vec::with_capacity(16);

    for _ in 0..4 {
        addrs.push(buddy.allocate(2).unwrap());
    }

    for i in addrs {
        buddy.free(i, 2);
    }

    for _ in 0..4 {
        assert!(buddy.allocate(2).is_some())
    }
}

#[test]
fn lib_alloc_free() {
    let buddy = Buddy::new(0, 4).unwrap();

    for _ in 0..8 {
        buddy.free(buddy.allocate(1).unwrap(), 1);
    }
}
