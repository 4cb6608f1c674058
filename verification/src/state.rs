//! The packed state word of a container.
//!
//! One 64-bit word encodes the state of up to fifteen tree nodes: a four-level
//! sub-tree with slots numbered in heap-index convention, the root at slot 1
//! and the bottom row at slots 8 through 15. Slots 1 through 7 carry a single
//! occupied/locked bit each (slot `p` uses bit `p - 1`). Each bottom-row slot
//! `p` owns a five-bit field starting at bit `7 + 5 * (p - 8)`, holding, low
//! to high: occupy-right, occupy-left, coalesce-right, coalesce-left, lock.
//!
//! Every operation is a pure function from state to state; the allocator
//! publishes a new word only through a compare-and-swap on the container.

use vstd::prelude::*;

verus! {

/// Bit mask of a non-bottom slot (`1 <= p <= 7`).
pub open spec fn nl_mask(p: u8) -> u64
    recommends
        1 <= p < 8,
{
    1u64 << ((p - 1) as u64)
}

/// First bit of the five-bit field of a bottom-row slot (`8 <= p <= 15`).
pub open spec fn leaf_off(p: u8) -> u64
    recommends
        8 <= p < 16,
{
    (7 + 5 * (p - 8)) as u64
}

/// The whole five-bit field of a bottom-row slot.
pub open spec fn leaf_field_mask(p: u8) -> u64
    recommends
        8 <= p < 16,
{
    0x1fu64 << leaf_off(p)
}

/// Lock plus both occupy bits: the bits set when a bottom-row slot itself is
/// allocated, and the bits cleared when it is freed.
pub open spec fn lock_leaf_mask(p: u8) -> u64
    recommends
        8 <= p < 16,
{
    0x13u64 << leaf_off(p)
}

/// The lock bit alone of a bottom-row slot.
pub open spec fn occupied_leaf_mask(p: u8) -> u64
    recommends
        8 <= p < 16,
{
    0x10u64 << leaf_off(p)
}

/// The coalesce-left bit of a bottom-row slot.
pub open spec fn coal_left_mask(p: u8) -> u64
    recommends
        8 <= p < 16,
{
    0x8u64 << leaf_off(p)
}

/// The coalesce-right bit of a bottom-row slot.
pub open spec fn coal_right_mask(p: u8) -> u64
    recommends
        8 <= p < 16,
{
    0x4u64 << leaf_off(p)
}

/// The occupy-left bit of a bottom-row slot.
pub open spec fn occ_left_mask(p: u8) -> u64
    recommends
        8 <= p < 16,
{
    0x2u64 << leaf_off(p)
}

/// The occupy-right bit of a bottom-row slot.
pub open spec fn occ_right_mask(p: u8) -> u64
    recommends
        8 <= p < 16,
{
    0x1u64 << leaf_off(p)
}

/// A slot can be claimed: a non-bottom slot must have its bit clear, a
/// bottom-row slot must have all five bits of its field clear.
pub open spec fn spec_is_allocable(w: u64, p: u8) -> bool
    recommends
        1 <= p < 16,
{
    if p < 8 {
        w & nl_mask(p) == 0
    } else {
        w & leaf_field_mask(p) == 0
    }
}

/// A slot is occupied: a non-bottom slot by its bit, a bottom-row slot by its
/// lock bit.
pub open spec fn spec_is_occupied(w: u64, p: u8) -> bool
    recommends
        1 <= p < 16,
{
    if p < 8 {
        w & nl_mask(p) != 0
    } else {
        w & occupied_leaf_mask(p) != 0
    }
}

pub open spec fn spec_lock_not_leaf(w: u64, p: u8) -> u64
    recommends
        1 <= p < 8,
{
    w | nl_mask(p)
}

pub open spec fn spec_unlock_not_leaf(w: u64, p: u8) -> u64
    recommends
        1 <= p < 8,
{
    w & !nl_mask(p)
}

pub open spec fn spec_lock_leaf(w: u64, p: u8) -> u64
    recommends
        8 <= p < 16,
{
    w | lock_leaf_mask(p)
}

pub open spec fn spec_unlock_leaf(w: u64, p: u8) -> u64
    recommends
        8 <= p < 16,
{
    w & !lock_leaf_mask(p)
}

pub open spec fn spec_left_coalesce(w: u64, p: u8) -> u64
    recommends
        8 <= p < 16,
{
    w | coal_left_mask(p)
}

pub open spec fn spec_right_coalesce(w: u64, p: u8) -> u64
    recommends
        8 <= p < 16,
{
    w | coal_right_mask(p)
}

pub open spec fn spec_clean_left_coalesce(w: u64, p: u8) -> u64
    recommends
        8 <= p < 16,
{
    w & !coal_left_mask(p)
}

pub open spec fn spec_clean_right_coalesce(w: u64, p: u8) -> u64
    recommends
        8 <= p < 16,
{
    w & !coal_right_mask(p)
}

pub open spec fn spec_occupy_left(w: u64, p: u8) -> u64
    recommends
        8 <= p < 16,
{
    w | occ_left_mask(p)
}

pub open spec fn spec_occupy_right(w: u64, p: u8) -> u64
    recommends
        8 <= p < 16,
{
    w | occ_right_mask(p)
}

pub open spec fn spec_clean_left_occupy(w: u64, p: u8) -> u64
    recommends
        8 <= p < 16,
{
    w & !occ_left_mask(p)
}

pub open spec fn spec_clean_right_occupy(w: u64, p: u8) -> u64
    recommends
        8 <= p < 16,
{
    w & !occ_right_mask(p)
}

/// Membership is idempotence under the setter: the coalesce-left bit is set
/// exactly when setting it again changes nothing.
pub open spec fn spec_is_left_coalescing(w: u64, p: u8) -> bool
    recommends
        8 <= p < 16,
{
    w == spec_left_coalesce(w, p)
}

pub open spec fn spec_is_right_coalescing(w: u64, p: u8) -> bool
    recommends
        8 <= p < 16,
{
    w == spec_right_coalesce(w, p)
}

pub open spec fn spec_is_occupied_left(w: u64, p: u8) -> bool
    recommends
        8 <= p < 16,
{
    w == spec_occupy_left(w, p)
}

pub open spec fn spec_is_occupied_right(w: u64, p: u8) -> bool
    recommends
        8 <= p < 16,
{
    w == spec_occupy_right(w, p)
}

/// State of the fifteen nodes of one container, packed into a single word.
#[derive(Clone, Copy, PartialEq, Eq, Structural, Debug)]
pub struct NodeState {
    word: u64,
}

impl NodeState {
    /// The packed machine word.
    pub closed spec fn view(&self) -> u64 {
        self.word
    }

    /// Wraps a raw machine word.
    pub fn from_raw(w: u64) -> (r: Self)
        ensures
            r@ == w,
    {
        NodeState { word: w }
    }

    /// The raw machine word.
    pub fn raw(&self) -> (r: u64)
        ensures
            r == self@,
    {
        self.word
    }

    /// Whether slot `pos` can be claimed by an allocation.
    pub fn is_allocable(&self, pos: u8) -> (r: bool)
        requires
            1 <= pos < 16,
        ensures
            r == spec_is_allocable(self@, pos),
    {
        if pos < 8 {
            self.word & (1u64 << ((pos - 1) as u64)) == 0
        } else {
            self.word & (0x1fu64 << ((7 + 5 * (pos - 8)) as u64)) == 0
        }
    }

    /// Whether slot `pos` is occupied.
    pub fn is_occupied(&self, pos: u8) -> (r: bool)
        requires
            1 <= pos < 16,
        ensures
            r == spec_is_occupied(self@, pos),
    {
        if pos < 8 {
            self.word & (1u64 << ((pos - 1) as u64)) != 0
        } else {
            self.word & (0x10u64 << ((7 + 5 * (pos - 8)) as u64)) != 0
        }
    }

    /// Sets the occupied/locked bit of a non-bottom slot.
    pub fn lock_not_leaf(&self, pos: u8) -> (r: Self)
        requires
            1 <= pos < 8,
        ensures
            r@ == spec_lock_not_leaf(self@, pos),
    {
        NodeState { word: self.word | (1u64 << ((pos - 1) as u64)) }
    }

    /// Clears the occupied/locked bit of a non-bottom slot.
    pub fn unlock_not_leaf(&self, pos: u8) -> (r: Self)
        requires
            1 <= pos < 8,
        ensures
            r@ == spec_unlock_not_leaf(self@, pos),
    {
        NodeState { word: self.word & !(1u64 << ((pos - 1) as u64)) }
    }

    /// Marks a bottom-row slot as allocated: lock plus both occupy bits.
    pub fn lock_leaf(&self, pos: u8) -> (r: Self)
        requires
            8 <= pos < 16,
        ensures
            r@ == spec_lock_leaf(self@, pos),
    {
        NodeState { word: self.word | (0x13u64 << ((7 + 5 * (pos - 8)) as u64)) }
    }

    fn unlock_leaf(&self, pos: u8) -> (r: Self)
        requires
            8 <= pos < 16,
        ensures
            r@ == spec_unlock_leaf(self@, pos),
    {
        NodeState { word: self.word & !(0x13u64 << ((7 + 5 * (pos - 8)) as u64)) }
    }

    /// Clears the allocated marking of any slot, bottom-row or not.
    pub fn unlock(&self, pos: u8) -> (r: Self)
        requires
            1 <= pos < 16,
        ensures
            pos < 8 ==> r@ == spec_unlock_not_leaf(self@, pos),
            pos >= 8 ==> r@ == spec_unlock_leaf(self@, pos),
    {
        if pos >= 8 {
            self.unlock_leaf(pos)
        } else {
            self.unlock_not_leaf(pos)
        }
    }

    /// Sets the coalesce-left bit of a bottom-row slot.
    pub fn left_coalesce(&self, pos: u8) -> (r: Self)
        requires
            8 <= pos < 16,
        ensures
            r@ == spec_left_coalesce(self@, pos),
    {
        NodeState { word: self.word | (0x8u64 << ((7 + 5 * (pos - 8)) as u64)) }
    }

    /// Sets the coalesce-right bit of a bottom-row slot.
    pub fn rigth_coalesce(&self, pos: u8) -> (r: Self)
        requires
            8 <= pos < 16,
        ensures
            r@ == spec_right_coalesce(self@, pos),
    {
        NodeState { word: self.word | (0x4u64 << ((7 + 5 * (pos - 8)) as u64)) }
    }

    /// Clears the coalesce-left bit of a bottom-row slot.
    pub fn clean_left_coalesce(&self, pos: u8) -> (r: Self)
        requires
            8 <= pos < 16,
        ensures
            r@ == spec_clean_left_coalesce(self@, pos),
    {
        NodeState { word: self.word & !(0x8u64 << ((7 + 5 * (pos - 8)) as u64)) }
    }

    /// Clears the coalesce-right bit of a bottom-row slot.
    pub fn clean_rigth_coalesce(&self, pos: u8) -> (r: Self)
        requires
            8 <= pos < 16,
        ensures
            r@ == spec_clean_right_coalesce(self@, pos),
    {
        NodeState { word: self.word & !(0x4u64 << ((7 + 5 * (pos - 8)) as u64)) }
    }

    /// Sets the occupy-left bit of a bottom-row slot.
    pub fn occupy_left(&self, pos: u8) -> (r: Self)
        requires
            8 <= pos < 16,
        ensures
            r@ == spec_occupy_left(self@, pos),
    {
        NodeState { word: self.word | (0x2u64 << ((7 + 5 * (pos - 8)) as u64)) }
    }

    /// Sets the occupy-right bit of a bottom-row slot.
    pub fn occupy_rigth(&self, pos: u8) -> (r: Self)
        requires
            8 <= pos < 16,
        ensures
            r@ == spec_occupy_right(self@, pos),
    {
        NodeState { word: self.word | (0x1u64 << ((7 + 5 * (pos - 8)) as u64)) }
    }

    /// Clears the occupy-left bit of a bottom-row slot.
    pub fn clean_left_occupy(&self, pos: u8) -> (r: Self)
        requires
            8 <= pos < 16,
        ensures
            r@ == spec_clean_left_occupy(self@, pos),
    {
        NodeState { word: self.word & !(0x2u64 << ((7 + 5 * (pos - 8)) as u64)) }
    }

    /// Clears the occupy-right bit of a bottom-row slot.
    pub fn clean_rigth_occupy(&self, pos: u8) -> (r: Self)
        requires
            8 <= pos < 16,
        ensures
            r@ == spec_clean_right_occupy(self@, pos),
    {
        NodeState { word: self.word & !(0x1u64 << ((7 + 5 * (pos - 8)) as u64)) }
    }

    /// Whether the coalesce-left bit of a bottom-row slot is set.
    pub fn is_left_coalescing(&self, pos: u8) -> (r: bool)
        requires
            8 <= pos < 16,
        ensures
            r == spec_is_left_coalescing(self@, pos),
    {
        self.word == self.word | (0x8u64 << ((7 + 5 * (pos - 8)) as u64))
    }

    /// Whether the coalesce-right bit of a bottom-row slot is set.
    pub fn is_right_coalescing(&self, pos: u8) -> (r: bool)
        requires
            8 <= pos < 16,
        ensures
            r == spec_is_right_coalescing(self@, pos),
    {
        self.word == self.word | (0x4u64 << ((7 + 5 * (pos - 8)) as u64))
    }

    /// Whether the occupy-left bit of a bottom-row slot is set.
    pub fn is_occupied_left(&self, pos: u8) -> (r: bool)
        requires
            8 <= pos < 16,
        ensures
            r == spec_is_occupied_left(self@, pos),
    {
        self.word == self.word | (0x2u64 << ((7 + 5 * (pos - 8)) as u64))
    }

    /// Whether the occupy-right bit of a bottom-row slot is set.
    pub fn is_occupied_rigth(&self, pos: u8) -> (r: bool)
        requires
            8 <= pos < 16,
        ensures
            r == spec_is_occupied_right(self@, pos),
    {
        self.word == self.word | (0x1u64 << ((7 + 5 * (pos - 8)) as u64))
    }
}

/// Locking a slot twice is the same as locking it once, for non-bottom slots.
pub proof fn lemma_lock_not_leaf_idempotent(w: u64, p: u8)
    requires
        1 <= p < 8,
    ensures
        spec_lock_not_leaf(spec_lock_not_leaf(w, p), p) == spec_lock_not_leaf(w, p),
{
    let s = (p - 1) as u64;
    assert((w | (1u64 << s)) | (1u64 << s) == w | (1u64 << s)) by (bit_vector);
}

/// Locking a slot twice is the same as locking it once, for bottom-row slots.
pub proof fn lemma_lock_leaf_idempotent(w: u64, p: u8)
    requires
        8 <= p < 16,
    ensures
        spec_lock_leaf(spec_lock_leaf(w, p), p) == spec_lock_leaf(w, p),
{
    let s = leaf_off(p);
    assert((w | (0x13u64 << s)) | (0x13u64 << s) == w | (0x13u64 << s)) by (bit_vector);
}

/// Unlocking an allocable non-bottom slot right after locking it restores the
/// original word.
pub proof fn lemma_unlock_restores_not_leaf(w: u64, p: u8)
    requires
        1 <= p < 8,
        spec_is_allocable(w, p),
    ensures
        spec_unlock_not_leaf(spec_lock_not_leaf(w, p), p) == w,
{
    let s = (p - 1) as u64;
    assert(w & (1u64 << s) == 0 ==> (w | (1u64 << s)) & !(1u64 << s) == w) by (bit_vector);
}

/// Unlocking an allocable bottom-row slot right after locking it restores the
/// original word.
pub proof fn lemma_unlock_restores_leaf(w: u64, p: u8)
    requires
        8 <= p < 16,
        spec_is_allocable(w, p),
    ensures
        spec_unlock_leaf(spec_lock_leaf(w, p), p) == w,
{
    let s = leaf_off(p);
    assert(w & (0x1fu64 << s) == 0 ==> (w | (0x13u64 << s)) & !(0x13u64 << s) == w)
        by (bit_vector);
}

/// Every bit of a word survives an OR.
pub proof fn lemma_or_keeps_bits(w: u64, m: u64)
    ensures
        w & (w | m) == w,
{
    assert(w & (w | m) == w) by (bit_vector);
}

/// Bit containment is transitive.
pub proof fn lemma_bits_trans(a: u64, b: u64, c: u64)
    requires
        a & b == a,
        b & c == b,
    ensures
        a & c == a,
{
    assert(a & b == a && b & c == b ==> a & c == a) by (bit_vector);
}

/// Slot `q` lies strictly below slot `c` in the fifteen-slot tree of a
/// container: one, two or three rows down.
pub open spec fn slot_below(q: u8, c: u8) -> bool {
    ||| 2 * c <= q < 2 * c + 2
    ||| 4 * c <= q < 4 * c + 4
    ||| 8 * c <= q < 8 * c + 8
}

/// Slot `q` reads the same in `r` as in `w`: its single bit above the bottom
/// row, its whole five-bit field on it.
pub open spec fn slot_preserved(r: u64, w: u64, q: u8) -> bool {
    if q < 8 {
        r & nl_mask(q) == w & nl_mask(q)
    } else {
        r & leaf_field_mask(q) == w & leaf_field_mask(q)
    }
}

/// Setting a non-bottom slot's bit leaves every other slot's reading intact.
pub proof fn lemma_lock_not_leaf_frames(w: u64, m: u8, q: u8)
    requires
        1 <= m < 8,
        1 <= q < 16,
        q != m,
    ensures
        slot_preserved(spec_lock_not_leaf(w, m), w, q),
{
    let t = (m - 1) as u64;
    if q < 8 {
        let u = (q - 1) as u64;
        assert(t <= 6 && u <= 6 && t != u ==> (w | (1u64 << t)) & (1u64 << u) == w & (1u64
            << u)) by (bit_vector);
    } else {
        let s = leaf_off(q);
        assert(t <= 6 && 7 <= s && s <= 42 ==> (w | (1u64 << t)) & (0x1fu64 << s) == w & (0x1fu64
            << s)) by (bit_vector);
    }
}

/// Marking a bottom-row slot allocated leaves every other slot's reading
/// intact.
pub proof fn lemma_lock_leaf_frames(w: u64, m: u8, q: u8)
    requires
        8 <= m < 16,
        1 <= q < 16,
        q != m,
    ensures
        slot_preserved(spec_lock_leaf(w, m), w, q),
{
    let a = (m - 8) as u64;
    if q < 8 {
        let u = (q - 1) as u64;
        assert(a <= 7 && u <= 6 ==> (w | (0x13u64 << (7 + 5 * a))) & (1u64 << u) == w & (1u64
            << u)) by (bit_vector);
        assert(leaf_off(m) == 7 + 5 * a);
    } else {
        let b = (q - 8) as u64;
        assert(a <= 7 && b <= 7 && a != b ==> (w | (0x13u64 << (7 + 5 * a))) & (0x1fu64 << (7 + 5
            * b)) == w & (0x1fu64 << (7 + 5 * b))) by (bit_vector);
        assert(leaf_off(m) == 7 + 5 * a);
        assert(leaf_off(q) == 7 + 5 * b);
    }
}

/// A just-locked slot reads as unallocable, whichever kind it is.
pub proof fn lemma_lock_blocks(w: u64, p: u8)
    requires
        1 <= p < 16,
    ensures
        p < 8 ==> !spec_is_allocable(spec_lock_not_leaf(w, p), p),
        p >= 8 ==> !spec_is_allocable(spec_lock_leaf(w, p), p),
{
    if p < 8 {
        let t = (p - 1) as u64;
        assert(t <= 6 ==> (w | (1u64 << t)) & (1u64 << t) != 0) by (bit_vector);
    } else {
        let s = leaf_off(p);
        assert(7 <= s && s <= 42 ==> (w | (0x13u64 << s)) & (0x1fu64 << s) != 0) by (bit_vector);
    }
}

/// No slot is ever both allocable and occupied: a non-bottom slot reads both
/// off the same bit, and a bottom-row slot's lock bit lies inside the
/// five-bit field that allocability requires clear.
pub proof fn lemma_allocable_excludes_occupied(w: u64, p: u8)
    requires
        1 <= p < 16,
        spec_is_allocable(w, p),
    ensures
        !spec_is_occupied(w, p),
{
    if p >= 8 {
        let s = leaf_off(p);
        assert(s <= 42);
        assert(w & (0x1fu64 << s) == 0 && s <= 42 ==> w & (0x10u64 << s) == 0) by (bit_vector);
    }
}

/// A bottom-row slot with either coalesce bit set is not allocable: an
/// in-flight free below an ancestor makes a concurrent allocation of that
/// ancestor yield.
pub proof fn lemma_coalescing_not_allocable(w: u64, p: u8)
    requires
        8 <= p < 16,
        spec_is_left_coalescing(w, p) || spec_is_right_coalescing(w, p),
    ensures
        !spec_is_allocable(w, p),
{
    let s = leaf_off(p);
    assert(s <= 42);
    assert(w == (w | (0x8u64 << s)) && s <= 42 ==> w & (0x1fu64 << s) != 0) by (bit_vector);
    assert(w == (w | (0x4u64 << s)) && s <= 42 ==> w & (0x1fu64 << s) != 0) by (bit_vector);
}

/// Setting a coalesce bit of a slot publishes the in-flight free (the slot
/// reads as coalescing afterwards) while every occupancy observation, on any
/// slot, stays exactly as it was.
pub proof fn lemma_coalesce_publishes(w: u64, p: u8, q: u8)
    requires
        8 <= p < 16,
        1 <= q < 16,
    ensures
        spec_is_left_coalescing(spec_left_coalesce(w, p), p),
        spec_is_right_coalescing(spec_right_coalesce(w, p), p),
        spec_is_occupied(spec_left_coalesce(w, p), q) == spec_is_occupied(w, q),
        spec_is_occupied(spec_right_coalesce(w, p), q) == spec_is_occupied(w, q),
{
    let s = leaf_off(p);
    assert((w | (0x8u64 << s)) | (0x8u64 << s) == w | (0x8u64 << s)) by (bit_vector);
    assert((w | (0x4u64 << s)) | (0x4u64 << s) == w | (0x4u64 << s)) by (bit_vector);
    if q < 8 {
        let t = (q - 1) as u64;
        assert(t <= 6 && 7 <= s && s <= 42 ==> (w | (0x8u64 << s)) & (1u64 << t) == w & (1u64
            << t)) by (bit_vector);
        assert(t <= 6 && 7 <= s && s <= 42 ==> (w | (0x4u64 << s)) & (1u64 << t) == w & (1u64
            << t)) by (bit_vector);
        assert(t <= 6);
        assert(7 <= s <= 42);
    } else {
        let a = (p - 8) as u64;
        let b = (q - 8) as u64;
        assert(a <= 7 && b <= 7 ==> (w | (0x8u64 << (7 + 5 * a))) & (0x10u64 << (7 + 5 * b)) == w
            & (0x10u64 << (7 + 5 * b))) by (bit_vector);
        assert(a <= 7 && b <= 7 ==> (w | (0x4u64 << (7 + 5 * a))) & (0x10u64 << (7 + 5 * b)) == w
            & (0x10u64 << (7 + 5 * b))) by (bit_vector);
        assert(s == 7 + 5 * a);
        assert(leaf_off(q) == 7 + 5 * b);
    }
}

} // verus!
