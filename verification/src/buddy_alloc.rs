//! The lock-free buddy allocator.
//!
//! `alloc` claims a node of the requested order with one compare-and-swap on
//! the node's container, then publishes occupancy upward container by
//! container; `free` publishes an in-flight release downward ("coalescing")
//! before unlocking, so a concurrent allocation of an ancestor yields instead
//! of racing the release. Every loop that retries a compare-and-swap and
//! every row scan is bounded, so each operation runs a bounded number of
//! steps; a scan that exhausts its bound reports the row as contended.

use vstd::prelude::*;
use vstd::arithmetic::power2::{lemma2_to64, lemma_pow2_adds, lemma_pow2_pos, pow2};
use vstd::arithmetic::div_mod::{
    lemma_fundamental_div_mod, lemma_mod_multiples_basic, lemma_multiply_divide_lt,
};
use vstd::arithmetic::mul::lemma_mul_inequality;
use crate::cpuid::Cpu;
use crate::math::{
    anc, depth, lemma_anc_compose, lemma_anc_pos_depth, lemma_anc_props, lemma_anc_root,
    lemma_pow2_le, pow2_exec,
};
use crate::state::NodeState;
use crate::tree::{MAX_ORDER, Node, Tree};

verus! {

/// Bound on the retries of a single compare-and-swap loop. A thread whose
/// compare-and-swap fails this often gives its operation up; the bound is far
/// beyond anything a machine can reach.
pub const RETRY_BOUND: u64 = 0xffff_ffff_ffff_ffff;

/// The word obtained from `w` by setting the lock bits of every in-container
/// descendant slot of node `pos`: both children's slots and, rows further
/// down but still within the container, their children's in turn.
pub open spec fn spec_lock_descendants(t: Tree, pos: int, w: u64) -> u64
    decreases t.nodes@.len() - pos,
{
    let count = t.nodes@.len() as int - 1;
    if pos < 1 || 2 * pos >= count {
        w
    } else {
        let lc = t.nodes@[2 * pos].cpos;
        let rc = t.nodes@[2 * pos + 1].cpos;
        if lc < 8 {
            spec_lock_descendants(
                t,
                2 * pos + 1,
                spec_lock_descendants(
                    t,
                    2 * pos,
                    crate::state::spec_lock_not_leaf(crate::state::spec_lock_not_leaf(w, lc), rc),
                ),
            )
        } else {
            crate::state::spec_lock_leaf(crate::state::spec_lock_leaf(w, lc), rc)
        }
    }
}

/// The word obtained from `w` by setting the occupied/locked bit of every
/// in-container strict ancestor slot of `pos`, up to the container root
/// `stop`.
pub open spec fn spec_lock_chain(t: Tree, pos: int, stop: int, w: u64) -> u64
    decreases pos,
{
    if pos <= 1 || pos == stop {
        w
    } else {
        spec_lock_chain(
            t,
            pos / 2,
            stop,
            crate::state::spec_lock_not_leaf(w, t.nodes@[pos / 2].cpos),
        )
    }
}

/// Whether the buddy of node `j` is held in `w`: its sibling's slot reads as
/// not allocable.
pub open spec fn spec_brother_held(t: Tree, j: int, w: u64) -> bool {
    !crate::state::spec_is_allocable(
        w,
        t.nodes@[if j % 2 == 0 {
            j + 1
        } else {
            j - 1
        }].cpos,
    )
}

/// The word obtained from `w` by withdrawing the in-container ancestor locks
/// of `pos` up to the container root `stop`, stopping at the first node
/// whose buddy is still held.
pub open spec fn spec_release_chain(t: Tree, pos: int, stop: int, w: u64) -> u64
    decreases pos,
{
    if pos <= 1 || pos == stop || spec_brother_held(t, pos, w) {
        w
    } else {
        spec_release_chain(
            t,
            pos / 2,
            stop,
            crate::state::spec_unlock_not_leaf(w, t.nodes@[pos / 2].cpos),
        )
    }
}

/// The whole word committed by a claim of node `pos` over the observed word
/// `w`: the in-container ancestors locked, then the node's own slot, then —
/// for a node above the bottom row with tree children — every in-container
/// descendant slot.
pub open spec fn spec_claim_word(t: Tree, pos: int, stop: int, w: u64) -> u64 {
    let chained = spec_lock_chain(t, pos, stop, w);
    let pc = t.nodes@[pos].cpos;
    if pc >= 8 {
        crate::state::spec_lock_leaf(chained, pc)
    } else if 2 * pos < t.nodes@.len() - 1 {
        spec_lock_descendants(t, pos, crate::state::spec_lock_not_leaf(chained, pc))
    } else {
        crate::state::spec_lock_not_leaf(chained, pc)
    }
}

/// The whole word committed by a release of node `pos` over the observed
/// word `w`: the ancestor locks withdrawn up to the first held buddy, the
/// descendant slots restored to locked, the node's own slot cleared.
pub open spec fn spec_release_word(t: Tree, pos: int, stop: int, w: u64) -> u64 {
    let walked = spec_release_chain(t, pos, stop, w);
    let pc = t.nodes@[pos].cpos;
    if pc >= 8 {
        crate::state::spec_unlock_leaf(walked, pc)
    } else if 2 * pos < t.nodes@.len() - 1 {
        crate::state::spec_unlock_not_leaf(spec_lock_descendants(t, pos, walked), pc)
    } else {
        crate::state::spec_unlock_not_leaf(walked, pc)
    }
}

/// What locking the descendants does, slot by slot: every bit of `w`
/// survives; the slot of every in-container descendant of `pos` reads as
/// unallocable; and every slot not strictly below `pos`'s own slot reads
/// exactly as it did in `w`.
pub proof fn lemma_lock_descendants_effect(t: Tree, pos: int, w: u64)
    requires
        t.wf(),
        1 <= pos < t.nodes@.len(),
        t.nodes@[pos].cpos < 8,
    ensures
        ({
            let r = spec_lock_descendants(t, pos, w);
            &&& w & r == w
            &&& forall|j: int|
                t.in_container_descendant(j, pos) ==> !crate::state::spec_is_allocable(
                    r,
                    t.nodes@[j].cpos,
                )
            &&& forall|q: u8|
                1 <= q < 16 && !crate::state::slot_below(q, t.nodes@[pos].cpos)
                    ==> crate::state::slot_preserved(r, w, q)
        }),
    decreases t.nodes@.len() - pos,
{
    let len = t.nodes@.len() as int;
    let count = len - 1;
    let c = t.nodes@[pos].cpos;
    assert(t.node_wf(pos));
    t.lemma_cpos_range(pos);
    t.lemma_croot_props(pos);
    let r = spec_lock_descendants(t, pos, w);
    if 2 * pos >= count {
        assert(r == w);
        assert(w & w == w) by (bit_vector);
        assert forall|j: int| t.in_container_descendant(j, pos) implies !crate::state::spec_is_allocable(
            r,
            t.nodes@[j].cpos,
        ) by {
            // No such descendant exists: its index would be at least 2 * pos,
            // which parity puts past the last node.
            lemma_pow2_pos(t.order as nat);
            assert(len % 2 == 0);
            assert(false);
        }
    } else {
        let left = 2 * pos;
        let right = 2 * pos + 1;
        assert(t.node_wf(left));
        assert(t.node_wf(right));
        t.lemma_cpos_range(left);
        t.lemma_cpos_range(right);
        t.lemma_parent_in_container(left);
        t.lemma_parent_in_container(right);
        let lc = t.nodes@[left].cpos;
        let rc = t.nodes@[right].cpos;
        assert(lc == 2 * c && rc == 2 * c + 1);
        if lc < 8 {
            let w1 = crate::state::spec_lock_not_leaf(w, lc);
            let w2 = crate::state::spec_lock_not_leaf(w1, rc);
            let w3 = spec_lock_descendants(t, left, w2);
            lemma_lock_descendants_effect(t, left, w2);
            lemma_lock_descendants_effect(t, right, w3);
            assert(r == spec_lock_descendants(t, right, w3));
            // Monotone through the whole chain.
            crate::state::lemma_or_keeps_bits(w, crate::state::nl_mask(lc));
            crate::state::lemma_or_keeps_bits(w1, crate::state::nl_mask(rc));
            crate::state::lemma_bits_trans(w, w1, w2);
            crate::state::lemma_bits_trans(w, w2, w3);
            crate::state::lemma_bits_trans(w, w3, r);
            assert forall|j: int| t.in_container_descendant(j, pos) implies !crate::state::spec_is_allocable(
                r,
                t.nodes@[j].cpos,
            ) by {
                t.lemma_descendant_slot(j, pos);
                let cj = t.nodes@[j].cpos;
                if 2 * pos <= j < 2 * pos + 2 {
                    // The child's own bit was set first and no later step
                    // touches its slot.
                    crate::state::lemma_lock_blocks(w, lc);
                    crate::state::lemma_lock_not_leaf_frames(w1, rc, lc);
                    crate::state::lemma_lock_blocks(w1, rc);
                    assert(!crate::state::spec_is_allocable(w2, lc));
                    assert(!crate::state::spec_is_allocable(w2, rc));
                    assert(crate::state::slot_preserved(w3, w2, lc));
                    assert(crate::state::slot_preserved(w3, w2, rc));
                    assert(crate::state::slot_preserved(r, w3, lc));
                    assert(crate::state::slot_preserved(r, w3, rc));
                } else if j < 4 * pos + 2 {
                    // Below the left child: its recursive pass blocks the
                    // slot and the right pass leaves that slot alone.
                    assert(t.in_container_descendant(j, left));
                    t.lemma_descendant_slot(j, left);
                    t.lemma_cpos_range(j);
                    assert(!crate::state::slot_below(cj, rc));
                    assert(!crate::state::spec_is_allocable(w3, cj));
                    assert(crate::state::slot_preserved(r, w3, cj));
                } else if j < 4 * pos + 4 {
                    assert(t.in_container_descendant(j, right));
                } else if j < 8 * pos + 4 {
                    assert(t.in_container_descendant(j, left));
                    t.lemma_descendant_slot(j, left);
                    t.lemma_cpos_range(j);
                    assert(!crate::state::slot_below(cj, rc));
                    assert(!crate::state::spec_is_allocable(w3, cj));
                    assert(crate::state::slot_preserved(r, w3, cj));
                } else {
                    assert(t.in_container_descendant(j, right));
                }
            }
            assert forall|q: u8|
                1 <= q < 16 && !crate::state::slot_below(q, c) implies crate::state::slot_preserved(
                r,
                w,
                q,
            ) by {
                assert(q != lc && q != rc);
                assert(!crate::state::slot_below(q, lc));
                assert(!crate::state::slot_below(q, rc));
                crate::state::lemma_lock_not_leaf_frames(w, lc, q);
                crate::state::lemma_lock_not_leaf_frames(w1, rc, q);
                assert(crate::state::slot_preserved(w1, w, q));
                assert(crate::state::slot_preserved(w2, w1, q));
                assert(crate::state::slot_preserved(w3, w2, q));
                assert(crate::state::slot_preserved(r, w3, q));
            }
        } else {
            assert(r == crate::state::spec_lock_leaf(crate::state::spec_lock_leaf(w, lc), rc));
            let w1 = crate::state::spec_lock_leaf(w, lc);
            crate::state::lemma_or_keeps_bits(w, crate::state::lock_leaf_mask(lc));
            crate::state::lemma_or_keeps_bits(w1, crate::state::lock_leaf_mask(rc));
            crate::state::lemma_bits_trans(w, w1, r);
            assert forall|j: int| t.in_container_descendant(j, pos) implies !crate::state::spec_is_allocable(
                r,
                t.nodes@[j].cpos,
            ) by {
                if 2 * pos <= j < 2 * pos + 2 {
                    crate::state::lemma_lock_blocks(w, lc);
                    crate::state::lemma_lock_leaf_frames(w1, rc, lc);
                    crate::state::lemma_lock_blocks(w1, rc);
                } else {
                    // Nothing deeper shares the container: a child of a
                    // bottom-row slot starts a container of its own.
                    assert(t.node_wf(j));
                    t.lemma_cpos_range(j);
                    lemma_fundamental_div_mod(j, 2);
                    t.lemma_no_shared_root_below(j, pos);
                    assert(t.node_wf(j / 2));
                    if 4 * pos <= j < 4 * pos + 4 {
                        assert(2 * pos <= j / 2 < 2 * pos + 2);
                        assert(t.nodes@[j].cpos >= 16);
                    } else {
                        assert(4 * pos <= j / 2 < 4 * pos + 4);
                        t.lemma_cpos_range(j / 2);
                        lemma_fundamental_div_mod(j / 2, 2);
                        t.lemma_no_shared_root_below(j / 2, pos);
                        assert(t.node_wf(j / 4));
                        assert(2 * pos <= j / 4 < 2 * pos + 2);
                        assert(t.nodes@[j / 2].cpos >= 16);
                    }
                    assert(false);
                }
            }
            assert forall|q: u8|
                1 <= q < 16 && !crate::state::slot_below(q, c) implies crate::state::slot_preserved(
                r,
                w,
                q,
            ) by {
                assert(q != lc && q != rc);
                crate::state::lemma_lock_leaf_frames(w, lc, q);
                crate::state::lemma_lock_leaf_frames(w1, rc, q);
            }
        }
    }
}

/// Lock-free buddy-system allocator over `2^order` pages of `PAGE_SIZE`
/// bytes, starting at page number `start`. `C` names the current CPU, which
/// seeds the starting position of each allocation scan.
pub struct BuddyAlloc<C: Cpu, const PAGE_SIZE: usize> {
    /// The static tree and its containers.
    pub tree: Tree,
    /// First page number of the managed region.
    pub start: usize,
    /// Log2 of the number of managed pages.
    pub order: usize,
    /// Carries the CPU-id supplier type; no runtime data.
    pub _cpu: core::marker::PhantomData<C>,
}

impl<C: Cpu, const PAGE_SIZE: usize> BuddyAlloc<C, PAGE_SIZE> {
    /// A well-formed allocator: a well-formed tree of the same order, a page
    /// size of at least one byte, and a region whose last byte address fits
    /// in a machine word.
    pub open spec fn wf(self) -> bool {
        &&& self.tree.wf()
        &&& self.order == self.tree.order
        &&& 1 <= PAGE_SIZE
        &&& (self.start + pow2(self.order as nat)) * PAGE_SIZE <= usize::MAX
    }

    /// Creates the allocator. Succeeds exactly when the geometry fits the
    /// machine: the order is supported, the node array is indexable, the page
    /// size is nonzero and the end of the region fits in a machine word.
    pub fn new(start: usize, order: usize) -> (r: Option<Self>)
        ensures
            r is Some <==> {
                &&& order <= MAX_ORDER
                &&& 2 * pow2(order as nat) <= usize::MAX
                &&& 1 <= PAGE_SIZE
                &&& (start + pow2(order as nat)) * PAGE_SIZE <= usize::MAX
            },
            r matches Some(b) ==> b.wf() && b.start == start && b.order == order,
    {
        if PAGE_SIZE == 0 {
            return None;
        }
        let tree = match Tree::new(order) {
            Some(t) => t,
            None => {
                return None;
            },
        };
        let size = pow2_exec(order);
        if start > usize::MAX - size {
            proof {
                // With an overflowing page count the byte bound fails too.
                lemma_mul_inequality(
                    usize::MAX as int + 1,
                    (start + pow2(order as nat)) as int,
                    PAGE_SIZE as int,
                );
            }
            return None;
        }
        let total = start + size;
        if total > usize::MAX / PAGE_SIZE {
            proof {
                let q = usize::MAX as int / PAGE_SIZE as int;
                lemma_fundamental_div_mod(usize::MAX as int, PAGE_SIZE as int);
                lemma_mul_inequality(q + 1, total as int, PAGE_SIZE as int);
                vstd::arithmetic::mul::lemma_mul_is_distributive_add_other_way(
                    PAGE_SIZE as int,
                    q,
                    1int,
                );
                vstd::arithmetic::mul::lemma_mul_is_commutative(q, PAGE_SIZE as int);
            }
            return None;
        }
        proof {
            lemma_fundamental_div_mod(usize::MAX as int, PAGE_SIZE as int);
            lemma_mul_inequality(total as int, usize::MAX as int / PAGE_SIZE as int, PAGE_SIZE as int);
        }
        Some(BuddyAlloc { tree, start, order, _cpu: core::marker::PhantomData })
    }

    /// Tree level of a node, counted from 1 at the root.
    fn level(&self, node: &Node) -> (r: usize)
        requires
            self.wf(),
            1 <= node.pos < self.tree.nodes@.len(),
            *node == self.tree.nodes@[node.pos as int],
        ensures
            r == depth(node.pos as nat) + 1,
    {
        proof {
            assert(self.tree.node_wf(node.pos as int));
        }
        self.tree.height() - node.order()
    }

    /// Whether the sibling of node `cur` is held in state `val`: the rule
    /// that stops an upward unlock below a still-allocated buddy.
    fn check_brother(&self, cur: usize, val: NodeState) -> (r: bool)
        requires
            self.wf(),
            2 <= cur < self.tree.nodes@.len(),
        ensures
            r == !crate::state::spec_is_allocable(
                val@,
                self.tree.nodes@[if cur % 2 == 0 { cur + 1int } else { cur - 1int }].cpos,
            ),
    {
        proof {
            assert(self.tree.node_wf(cur as int));
            assert(self.tree.node_wf(cur as int / 2));
            self.tree.lemma_cpos_range(if cur % 2 == 0 { cur + 1int } else { cur - 1int });
        }
        let parent = cur / 2;
        let left = parent * 2;
        let right = left + 1;
        if left == cur {
            !val.is_allocable(self.tree.node(right).container_pos())
        } else {
            !val.is_allocable(self.tree.node(left).container_pos())
        }
    }

    /// Sets the lock bits of every in-container descendant slot of `pos` in
    /// `val`: claiming a node above the bottom row claims its whole sub-tree
    /// within the container in the same compare-and-swap.
    fn lock_descendants(&self, pos: usize, val: NodeState) -> (r: NodeState)
        requires
            self.wf(),
            1 <= pos < self.tree.nodes@.len(),
            self.tree.nodes@[pos as int].cpos < 8,
        ensures
            r@ == spec_lock_descendants(self.tree, pos as int, val@),
            val@ & r@ == val@,
            forall|j: int|
                self.tree.in_container_descendant(j, pos as int)
                    ==> !crate::state::spec_is_allocable(r@, self.tree.nodes@[j].cpos),
            forall|q: u8|
                1 <= q < 16 && !crate::state::slot_below(q, self.tree.nodes@[pos as int].cpos)
                    ==> crate::state::slot_preserved(r@, val@, q),
        decreases self.tree.nodes@.len() - pos,
    {
        proof {
            lemma_lock_descendants_effect(self.tree, pos as int, val@);
            lemma_pow2_pos(self.order as nat);
        }
        let count = self.tree.node_count();
        if pos >= (count + 1) / 2 {
            proof {
                lemma_fundamental_div_mod(count as int + 1, 2);
                assert(2 * pos >= count);
            }
            return val;
        }
        proof {
            assert(self.tree.node_wf(pos as int));
            assert(self.tree.node_wf(2 * pos as int));
            assert(self.tree.node_wf(2 * pos as int + 1));
            self.tree.lemma_cpos_range(pos as int);
            self.tree.lemma_parent_in_container(2 * pos as int);
            self.tree.lemma_parent_in_container(2 * pos as int + 1);
            self.tree.lemma_cpos_range(2 * pos as int);
            self.tree.lemma_cpos_range(2 * pos as int + 1);
        }
        let left = pos * 2;
        let right = left + 1;
        let lc = self.tree.node(left).container_pos();
        let rc = self.tree.node(right).container_pos();
        if lc < 8 {
            let stepped = val.lock_not_leaf(lc).lock_not_leaf(rc);
            let below_left = self.lock_descendants(left, stepped);
            let r = self.lock_descendants(right, below_left);
            proof {
                assert(r@ == spec_lock_descendants(self.tree, pos as int, val@));
            }
            r
        } else {
            let r = val.lock_leaf(lc).lock_leaf(rc);
            proof {
                assert(r@ == spec_lock_descendants(self.tree, pos as int, val@));
            }
            r
        }
    }

    /// Restores the lock bits of the in-container descendants of a node that
    /// is being freed: after a free of `pos`, the slots below it read as
    /// held until `pos` itself is allocated again.
    fn unlock_descendants(&self, pos: usize, val: NodeState) -> (r: NodeState)
        requires
            self.wf(),
            1 <= pos < self.tree.nodes@.len(),
            self.tree.nodes@[pos as int].cpos < 8,
        ensures
            r@ == spec_lock_descendants(self.tree, pos as int, val@),
            val@ & r@ == val@,
            forall|j: int|
                self.tree.in_container_descendant(j, pos as int)
                    ==> !crate::state::spec_is_allocable(r@, self.tree.nodes@[j].cpos),
            forall|q: u8|
                1 <= q < 16 && !crate::state::slot_below(q, self.tree.nodes@[pos as int].cpos)
                    ==> crate::state::slot_preserved(r@, val@, q),
    {
        self.lock_descendants(pos, val)
    }

    /// Publishes "a free is in flight below" on every container between
    /// `pos`'s own and the one rooted at `ub`: the coalescing handshake that
    /// makes concurrent allocations of an ancestor yield.
    fn mark(&self, pos: usize, ub: usize)
        requires
            self.wf(),
            2 <= pos < self.tree.nodes@.len(),
            depth(pos as nat) % 4 == 0,
            1 <= ub,
            depth(ub as nat) % 4 == 0,
            exists|d: nat| 1 <= d && ub as nat == anc(pos as nat, d),
        decreases pos,
    {
        proof {
            assert(self.tree.node_wf(pos as int));
            assert(self.tree.node_wf(pos as int / 2));
            self.tree.lemma_cpos_range(pos as int / 2);
            self.tree.lemma_croot_props(pos as int / 2);
        }
        let parent = pos / 2;
        let pc = self.tree.node(parent).container_pos();
        let co = self.tree.node(parent).container_offset;
        let container = self.tree.container(co);
        let next_root = container.root;
        proof {
            // The root of the parent's container is the ancestor four levels
            // above `pos`.
            assert(depth((pos / 2) as nat) % 4 == 3);
            assert(anc(pos as nat, 1) == parent as nat) by {
                lemma2_to64();
                vstd::arithmetic::div_mod::lemma_div_basics(pos as int);
            }
            lemma_anc_compose(pos as nat, 1, 3);
            assert(next_root as nat == anc(pos as nat, 4));
        }
        let mut tries: u64 = 0;
        loop
            invariant
                self.wf(),
                2 <= pos < self.tree.nodes@.len(),
                parent == pos / 2,
                pc == self.tree.nodes@[parent as int].cpos,
                8 <= pc < 16,
                co == self.tree.nodes@[parent as int].container_offset,
                co < self.tree.containers@.len(),
                tries < RETRY_BOUND,
            decreases RETRY_BOUND - tries,
        {
            let old_val = self.tree.container(co).get_state();
            let new_val = if pos % 2 == 0 {
                old_val.left_coalesce(pc)
            } else {
                old_val.rigth_coalesce(pc)
            };
            if self.tree.container(co).try_update(old_val, new_val) {
                break;
            }
            tries = tries + 1;
            if tries == RETRY_BOUND {
                // Contention beyond any real machine: give this handshake up.
                return;
            }
        }
        if next_root != ub {
            proof {
                let d = choose|d: nat| 1 <= d && ub as nat == anc(pos as nat, d);
                assert(depth(pos as nat) >= 1);
                assert(depth(pos as nat) >= 4);
                lemma_anc_pos_depth(pos as nat, d);
                lemma_anc_props(pos as nat, d);
                assert(depth(ub as nat) == depth(pos as nat) - d);
                assert(d % 4 == 0);
                lemma_anc_props(pos as nat, 4);
                assert(d != 4);
                assert(d >= 8);
                lemma_anc_compose(pos as nat, 4, (d - 4) as nat);
                assert(ub as nat == anc(next_root as nat, (d - 4) as nat));
                lemma_anc_pos_depth(next_root as nat, (d - 4) as nat);
                assert(depth(next_root as nat) >= 4);
                crate::math::lemma_depth_bounds(next_root as nat);
                lemma2_to64();
                lemma_pow2_le(1, depth(next_root as nat));
                assert(next_root >= 2);
                assert(depth(next_root as nat) % 4 == 0);
                assert(next_root < pos);
            }
            self.mark(next_root, ub);
        }
    }

    /// Publishes occupancy of the just-claimed sub-tree on every ancestor
    /// container up to the tree root. Returns `None` when every level was
    /// published; returns `Some((conflict, via))` when an ancestor slot was
    /// already occupied: `conflict` is that ancestor's position, to be used
    /// for skipping the scan forward, and `via` the container root whose
    /// publication failed, the bound for rolling the claim back.
    #[verifier::loop_isolation(false)]
    fn check_parent(&self, pos: usize) -> (r: Option<(usize, usize)>)
        requires
            self.wf(),
            2 <= pos < self.tree.nodes@.len(),
            depth(pos as nat) % 4 == 0,
        ensures
            r matches Some(c) ==> {
                &&& 1 <= c.0 < self.tree.nodes@.len()
                &&& exists|d: nat| 1 <= d && c.0 as nat == anc(pos as nat, d)
                &&& 2 <= c.1 < self.tree.nodes@.len()
                &&& depth(c.1 as nat) % 4 == 0
                &&& exists|d: nat| c.1 as nat == anc(pos as nat, d)
            },
    {
        let mut cur = pos;
        proof {
            vstd::arithmetic::div_mod::lemma_div_basics(pos as int);
            lemma2_to64();
            assert(anc(pos as nat, 0) == pos as nat);
        }
        loop
            invariant
                2 <= cur < self.tree.nodes@.len(),
                depth(cur as nat) % 4 == 0,
                exists|e: nat| cur as nat == anc(pos as nat, e),
            decreases cur,
        {
            proof {
                assert(self.tree.node_wf(cur as int));
                assert(self.tree.node_wf(cur as int / 2));
                assert(depth(cur as nat) >= 1);
                assert(depth(cur as nat) >= 4);
                assert(depth((cur / 2) as nat) % 4 == 3);
                self.tree.lemma_cpos_range(cur as int / 2);
                self.tree.lemma_croot_props(cur as int / 2);
                self.tree.lemma_parent_in_container(cur as int / 2);
                self.tree.lemma_parent_in_container(cur as int / 4);
                assert(anc(cur as nat, 1) == (cur / 2) as nat) by {
                    vstd::arithmetic::div_mod::lemma_div_basics(cur as int);
                }
                lemma_anc_compose(cur as nat, 1, 3);
            }
            let parent = cur / 2;
            let pc = self.tree.node(parent).container_pos();
            let co = self.tree.node(parent).container_offset;
            let root_pos = self.tree.container(co).root;
            let a1 = parent / 2;
            let a2 = a1 / 2;
            let c1 = self.tree.node(a1).container_pos();
            let c2 = self.tree.node(a2).container_pos();
            let rc = self.tree.node(root_pos).container_pos();
            proof {
                assert(root_pos as nat == anc(cur as nat, 4));
                assert(c1 == pc as int / 2 && 4 <= c1 < 8);
                assert(c2 == c1 as int / 2 && 2 <= c2 < 4);
                assert(rc == 1);
                let e = choose|e: nat| cur as nat == anc(pos as nat, e);
                lemma_anc_compose(pos as nat, e, 1);
                assert(anc(cur as nat, 1) == (cur / 2) as nat) by {
                    vstd::arithmetic::div_mod::lemma_div_basics(cur as int);
                }
                assert(parent as nat == anc(pos as nat, e + 1));
            }
            let mut tries: u64 = 0;
            loop
                invariant
                    tries < RETRY_BOUND,
                decreases RETRY_BOUND - tries,
            {
                let old_val = self.tree.container(co).get_state();
                if old_val.is_occupied(pc) {
                    return Some((parent, cur));
                }
                let stepped = if cur % 2 == 0 {
                    old_val.clean_left_coalesce(pc).occupy_left(pc)
                } else {
                    old_val.clean_rigth_coalesce(pc).occupy_rigth(pc)
                };
                let new_val = stepped.lock_not_leaf(c1).lock_not_leaf(c2).lock_not_leaf(rc);
                if self.tree.container(co).try_update(old_val, new_val) {
                    break;
                }
                tries = tries + 1;
                if tries == RETRY_BOUND {
                    // Contention beyond any real machine: report a conflict
                    // so the caller rolls back and steers elsewhere.
                    return Some((parent, cur));
                }
            }
            if root_pos == 1 {
                return None;
            }
            proof {
                let e = choose|e: nat| cur as nat == anc(pos as nat, e);
                lemma_anc_compose(pos as nat, e, 4);
                assert(root_pos as nat == anc(pos as nat, e + 4));
                lemma_anc_props(cur as nat, 4);
                assert(2 <= root_pos);
                assert(depth(root_pos as nat) == depth(cur as nat) - 4);
                assert(depth(root_pos as nat) % 4 == 0);
                assert(root_pos < cur);
            }
            cur = root_pos;
        }
    }

    /// Completes a free's upward pass: consumes the coalescing bits published
    /// by `mark` and withdraws occupancy, container by container, up to `ub`.
    /// The pass stops at an ancestor whose coalescing bit a concurrent
    /// allocator already consumed, after a withdrawal that leaves the other
    /// side still occupied (committed exactly once), or at a held buddy.
    #[verifier::loop_isolation(false)]
    #[verifier::rlimit(30)]
    fn unmark(&self, pos: usize, ub: usize)
        requires
            self.wf(),
            2 <= pos < self.tree.nodes@.len(),
            depth(pos as nat) % 4 == 0,
            1 <= ub,
            depth(ub as nat) % 4 == 0,
            exists|d: nat| 1 <= d && ub as nat == anc(pos as nat, d),
    {
        let mut cur_root = pos;
        loop
            invariant
                2 <= cur_root < self.tree.nodes@.len(),
                depth(cur_root as nat) % 4 == 0,
                exists|d: nat| 1 <= d && ub as nat == anc(cur_root as nat, d),
            decreases cur_root,
        {
            proof {
                assert(self.tree.node_wf(cur_root as int));
                assert(self.tree.node_wf(cur_root as int / 2));
                assert(depth(cur_root as nat) >= 1);
                assert(depth(cur_root as nat) >= 4);
                assert(depth((cur_root / 2) as nat) % 4 == 3);
                self.tree.lemma_cpos_range(cur_root as int / 2);
                self.tree.lemma_croot_props(cur_root as int / 2);
                assert(anc(cur_root as nat, 1) == (cur_root / 2) as nat) by {
                    vstd::arithmetic::div_mod::lemma_div_basics(cur_root as int);
                    lemma2_to64();
                }
                lemma_anc_compose(cur_root as nat, 1, 3);
            }
            let parent = cur_root / 2;
            let pc = self.tree.node(parent).container_pos();
            let co = self.tree.node(parent).container_offset;
            let root_pos = self.tree.container(co).root;
            proof {
                assert(root_pos as nat == anc(cur_root as nat, 4));
            }
            let mut exit = false;
            let mut tries: u64 = 0;
            loop
                invariant
                    tries < RETRY_BOUND,
                decreases RETRY_BOUND - tries,
            {
                let old_val = self.tree.container(co).get_state();
                let mut new_val = old_val;
                if cur_root % 2 == 0 {
                    if !new_val.is_left_coalescing(pc) {
                        // A concurrent allocator reclaimed this ancestor.
                        return;
                    }
                    new_val = new_val.clean_left_coalesce(pc).clean_left_occupy(pc);
                    if new_val.is_occupied_rigth(pc) {
                        // The buddy side is still occupied: withdraw this
                        // side only and end the upward pass here.
                        if self.tree.container(co).try_update(old_val, new_val) {
                            return;
                        }
                        tries = tries + 1;
                        if tries == RETRY_BOUND {
                            return;
                        }
                        continue;
                    }
                } else {
                    if !new_val.is_right_coalescing(pc) {
                        return;
                    }
                    new_val = new_val.clean_rigth_coalesce(pc).clean_rigth_occupy(pc);
                    if new_val.is_occupied_left(pc) {
                        if self.tree.container(co).try_update(old_val, new_val) {
                            return;
                        }
                        tries = tries + 1;
                        if tries == RETRY_BOUND {
                            return;
                        }
                        continue;
                    }
                }
                let ghost cleaned = new_val@;
                proof {
                    if cur_root % 2 == 0 {
                        assert(cleaned == crate::state::spec_clean_left_occupy(
                            crate::state::spec_clean_left_coalesce(old_val@, pc),
                            pc,
                        ));
                    } else {
                        assert(cleaned == crate::state::spec_clean_right_occupy(
                            crate::state::spec_clean_right_coalesce(old_val@, pc),
                            pc,
                        ));
                    }
                }
                let mut cur = parent;
                exit = false;
                #[verifier::loop_isolation(true)]
                while cur != root_pos
                    invariant
                        self.wf(),
                        1 <= parent < self.tree.nodes@.len(),
                        co == self.tree.nodes@[parent as int].container_offset,
                        root_pos == self.tree.containers@[co as int].root,
                        1 <= cur < self.tree.nodes@.len(),
                        self.tree.nodes@[cur as int].container_offset == co,
                        spec_release_chain(self.tree, cur as int, root_pos as int, new_val@)
                            == spec_release_chain(
                            self.tree,
                            parent as int,
                            root_pos as int,
                            cleaned,
                        ),
                    ensures
                        new_val@ == spec_release_chain(
                            self.tree,
                            parent as int,
                            root_pos as int,
                            cleaned,
                        ),
                    decreases cur,
                {
                    proof {
                        assert(self.tree.node_wf(cur as int));
                        self.tree.lemma_cpos_range(cur as int);
                        if self.tree.nodes@[cur as int].cpos == 1 {
                            self.tree.lemma_croot_props(cur as int);
                            assert(false);
                        }
                        assert(depth(cur as nat) % 4 != 0);
                        assert(cur >= 2);
                        self.tree.lemma_parent_in_container(cur as int);
                        self.tree.lemma_cpos_range(cur as int / 2);
                    }
                    exit = self.check_brother(cur, new_val);
                    if exit {
                        break;
                    }
                    new_val = new_val.unlock_not_leaf(self.tree.node(cur / 2).container_pos());
                    cur = cur / 2;
                }
                // The committed word is pinned: the parent slot's coalesce
                // and occupancy withdrawn, then the ancestor locks withdrawn
                // up to the first held buddy.
                if self.tree.container(co).try_update(old_val, new_val) {
                    break;
                }
                tries = tries + 1;
                if tries == RETRY_BOUND {
                    return;
                }
            }
            if exit {
                return;
            }
            if root_pos == ub {
                return;
            }
            proof {
                let d = choose|d: nat| 1 <= d && ub as nat == anc(cur_root as nat, d);
                lemma_anc_pos_depth(cur_root as nat, d);
                lemma_anc_props(cur_root as nat, d);
                assert(d % 4 == 0);
                lemma_anc_props(cur_root as nat, 4);
                assert(d != 4);
                assert(d >= 8);
                lemma_anc_compose(cur_root as nat, 4, (d - 4) as nat);
                lemma_anc_pos_depth(root_pos as nat, (d - 4) as nat);
                assert(depth(root_pos as nat) >= 4);
                crate::math::lemma_depth_bounds(root_pos as nat);
                lemma2_to64();
                lemma_pow2_le(1, depth(root_pos as nat));
                assert(root_pos >= 2);
                assert(depth(root_pos as nat) % 4 == 0);
                assert(root_pos < cur_root);
            }
            cur_root = root_pos;
        }
    }

    /// Releases the node at `pos`. When its container is not the one rooted
    /// at `ub`, first publishes the coalescing handshake up to `ub`; then
    /// unlocks the node (restoring its descendant slots), withdrawing the
    /// in-container ancestor locks up to the first held buddy; finally lets
    /// `unmark` finish the upward pass unless a held buddy ended it.
    #[verifier::loop_isolation(false)]
    fn free_node(&self, pos: usize, ub: usize)
        requires
            self.wf(),
            1 <= pos < self.tree.nodes@.len(),
            1 <= ub,
            depth(ub as nat) % 4 == 0,
            exists|d: nat|
                ub as nat == anc(
                    self.tree.containers@[self.tree.nodes@[pos as int].container_offset as int].root as nat,
                    d,
                ),
    {
        proof {
            assert(self.tree.node_wf(pos as int));
            self.tree.lemma_cpos_range(pos as int);
            self.tree.lemma_croot_props(pos as int);
        }
        let co = self.tree.node(pos).container_offset;
        let root_pos = self.tree.container(co).root;
        if root_pos != ub {
            proof {
                let d = choose|d: nat| ub as nat == anc(root_pos as nat, d);
                if d == 0 {
                    vstd::arithmetic::div_mod::lemma_div_basics(root_pos as int);
                    lemma2_to64();
                    assert(false);
                }
                assert(root_pos >= 2) by {
                    if root_pos == 1 {
                        lemma_pow2_pos(d);
                        vstd::arithmetic::power2::lemma_pow2_strictly_increases(0, d);
                        lemma2_to64();
                        vstd::arithmetic::div_mod::lemma_basic_div(1int, pow2(d) as int);
                    }
                }
            }
            self.mark(root_pos, ub);
        }
        let pc = self.tree.node(pos).container_pos();
        let count = self.tree.node_count();
        let mut exit = false;
        let mut tries: u64 = 0;
        loop
            invariant
                tries < RETRY_BOUND,
            decreases RETRY_BOUND - tries,
        {
            let old_val = self.tree.container(co).get_state();
            let mut new_val = old_val;
            let mut cur = pos;
            exit = false;
            #[verifier::loop_isolation(true)]
            while cur != root_pos
                invariant
                    self.wf(),
                    1 <= pos < self.tree.nodes@.len(),
                    co == self.tree.nodes@[pos as int].container_offset,
                    root_pos == self.tree.containers@[co as int].root,
                    1 <= cur < self.tree.nodes@.len(),
                    self.tree.nodes@[cur as int].container_offset == co,
                    spec_release_chain(self.tree, cur as int, root_pos as int, new_val@)
                        == spec_release_chain(self.tree, pos as int, root_pos as int, old_val@),
                ensures
                    new_val@ == spec_release_chain(
                        self.tree,
                        pos as int,
                        root_pos as int,
                        old_val@,
                    ),
                decreases cur,
            {
                proof {
                    assert(self.tree.node_wf(cur as int));
                    self.tree.lemma_cpos_range(cur as int);
                    if self.tree.nodes@[cur as int].cpos == 1 {
                        self.tree.lemma_croot_props(cur as int);
                        assert(false);
                    }
                    assert(depth(cur as nat) % 4 != 0);
                    assert(cur >= 2);
                    self.tree.lemma_parent_in_container(cur as int);
                    self.tree.lemma_cpos_range(cur as int / 2);
                }
                exit = self.check_brother(cur, new_val);
                if exit {
                    break;
                }
                new_val = new_val.unlock_not_leaf(self.tree.node(cur / 2).container_pos());
                cur = cur / 2;
            }
            if pc < 8 && pos < (count + 1) / 2 {
                new_val = self.unlock_descendants(pos, new_val);
            }
            new_val = new_val.unlock(pc);
            proof {
                // The committed word is exactly the release of `pos`: the
                // ancestor locks withdrawn up to the first held buddy, the
                // descendant slots restored, the node's own slot cleared.
                lemma_pow2_pos(self.order as nat);
                lemma_fundamental_div_mod(count as int + 1, 2);
                assert(new_val@ == spec_release_word(
                    self.tree,
                    pos as int,
                    root_pos as int,
                    old_val@,
                ));
            }
            if self.tree.container(co).try_update(old_val, new_val) {
                break;
            }
            tries = tries + 1;
            if tries == RETRY_BOUND {
                return;
            }
        }
        if root_pos != ub && !exit {
            proof {
                let d = choose|d: nat| ub as nat == anc(root_pos as nat, d);
                if d == 0 {
                    vstd::arithmetic::div_mod::lemma_div_basics(root_pos as int);
                    lemma2_to64();
                    assert(false);
                }
            }
            self.unmark(root_pos, ub);
        }
    }

    /// Tries to claim the node at `pos`: one compare-and-swap locks the node,
    /// its in-container ancestors and its in-container descendants, then the
    /// claim is published upward. `None` means the node was allocated.
    /// `Some(i)` names a conflicting position — `pos` itself, or an ancestor
    /// already occupied — for the caller to steer its scan past; the claim,
    /// if taken, was rolled back.
    #[verifier::loop_isolation(false)]
    fn try_alloc_node(&self, pos: usize) -> (r: Option<usize>)
        requires
            self.wf(),
            1 <= pos < self.tree.nodes@.len(),
        ensures
            r matches Some(i) ==> {
                &&& 1 <= i < self.tree.nodes@.len()
                &&& exists|d: nat| i as nat == anc(pos as nat, d)
            },
    {
        proof {
            assert(self.tree.node_wf(pos as int));
            self.tree.lemma_cpos_range(pos as int);
            self.tree.lemma_croot_props(pos as int);
            vstd::arithmetic::div_mod::lemma_div_basics(pos as int);
            lemma2_to64();
            assert(anc(pos as nat, 0) == pos as nat);
        }
        let pc = self.tree.node(pos).container_pos();
        let co = self.tree.node(pos).container_offset;
        let root_pos = self.tree.container(co).root;
        let count = self.tree.node_count();
        let mut tries: u64 = 0;
        loop
            invariant
                tries < RETRY_BOUND,
            decreases RETRY_BOUND - tries,
        {
            let old_val = self.tree.container(co).get_state();
            // A held node, ancestor or descendant makes this slot unallocable.
            if !old_val.is_allocable(pc) {
                return Some(pos);
            }
            let mut new_val = old_val;
            let mut cur = pos;
            while cur != root_pos
                invariant
                    1 <= cur < self.tree.nodes@.len(),
                    self.tree.nodes@[cur as int].container_offset == co,
                    spec_lock_chain(self.tree, cur as int, root_pos as int, new_val@)
                        == spec_lock_chain(self.tree, pos as int, root_pos as int, old_val@),
                decreases cur,
            {
                proof {
                    assert(self.tree.node_wf(cur as int));
                    self.tree.lemma_cpos_range(cur as int);
                    if self.tree.nodes@[cur as int].cpos == 1 {
                        self.tree.lemma_croot_props(cur as int);
                        assert(false);
                    }
                    assert(depth(cur as nat) % 4 != 0);
                    assert(cur >= 2);
                    self.tree.lemma_parent_in_container(cur as int);
                    self.tree.lemma_cpos_range(cur as int / 2);
                }
                new_val = new_val.lock_not_leaf(self.tree.node(cur / 2).container_pos());
                cur = cur / 2;
            }
            if pc >= 8 {
                new_val = new_val.lock_leaf(pc);
            } else {
                new_val = new_val.lock_not_leaf(pc);
                if pos < (count + 1) / 2 {
                    new_val = self.lock_descendants(pos, new_val);
                }
            }
            proof {
                // The committed word is exactly the claim of `pos`: its
                // in-container ancestors, its own slot, and its whole
                // in-container sub-tree locked in this one exchange.
                lemma_pow2_pos(self.order as nat);
                lemma_fundamental_div_mod(count as int + 1, 2);
                assert(new_val@ == spec_claim_word(
                    self.tree,
                    pos as int,
                    root_pos as int,
                    old_val@,
                ));
            }
            if self.tree.container(co).try_update(old_val, new_val) {
                break;
            }
            tries = tries + 1;
            if tries == RETRY_BOUND {
                // Contention beyond any real machine: report the node itself
                // as the conflict so the caller steers elsewhere.
                return Some(pos);
            }
        }
        if root_pos == 1 {
            return None;
        }
        match self.check_parent(root_pos) {
            None => None,
            Some((conflict, via)) => {
                proof {
                    let dm = (depth(pos as nat) % 4) as nat;
                    let d1 = choose|d: nat| 1 <= d && conflict as nat == anc(root_pos as nat, d);
                    lemma_anc_compose(pos as nat, dm, d1);
                    assert(conflict as nat == anc(pos as nat, (dm + d1) as nat));
                    let d2 = choose|d: nat| via as nat == anc(root_pos as nat, d);
                    lemma_anc_compose(pos as nat, dm, d2);
                    assert(via as nat == anc(root_pos as nat, d2));
                }
                self.free_node(pos, via);
                Some(conflict)
            },
        }
    }

    /// `try_alloc_node` by position; the direct entry used to exercise the
    /// claim state-machine on a chosen node.
    pub fn __try_alloc_node(&self, pos: usize) -> (r: Option<usize>)
        requires
            self.wf(),
            1 <= pos < self.tree.nodes@.len(),
        ensures
            r matches Some(i) ==> {
                &&& 1 <= i < self.tree.nodes@.len()
                &&& exists|d: nat| i as nat == anc(pos as nat, d)
            },
    {
        self.try_alloc_node(pos)
    }

    /// Allocates `2^order` contiguous pages. On success the returned byte
    /// address lies within the managed region and is aligned to the block
    /// size; `None` reports the row as exhausted or fully contended.
    ///
    /// The scan starts at a row position seeded by the current CPU, walks
    /// forward past each reported conflict — skipping the whole range below
    /// a conflicting ancestor — and wraps at most once around the row.
    #[verifier::loop_isolation(false)]
    pub fn allocate(&self, order: usize) -> (r: Option<usize>)
        requires
            self.wf(),
            order <= self.order,
        ensures
            r matches Some(addr) ==> {
                &&& self.start * PAGE_SIZE <= addr
                &&& addr + pow2(order as nat) * PAGE_SIZE <= (self.start + pow2(
                    self.order as nat,
                )) * PAGE_SIZE
                &&& (addr - self.start * PAGE_SIZE) as int % (pow2(order as nat) * PAGE_SIZE) == 0
                &&& addr as int % PAGE_SIZE as int == 0
            },
    {
        let row = self.order - order;
        proof {
            lemma_pow2_le(row as nat, self.order as nat);
            lemma_pow2_pos(row as nat);
        }
        let start_node = pow2_exec(row);
        let last_node = 2 * start_node - 1;
        let mut a = C::current_cpu();
        if last_node - start_node != 0 {
            a = a % (last_node - start_node);
        } else {
            a = 0;
        }
        a = a + start_node;
        let started_at = a;
        let mut restarted = false;
        let mut fuel: u64 = RETRY_BOUND;
        loop
            invariant
                start_node <= a <= last_node,
                start_node <= started_at <= last_node,
                1 <= fuel,
            decreases fuel,
        {
            proof {
                crate::math::lemma_depth_unique(a as nat, row as nat);
                assert(self.tree.node_wf(a as int));
                assert(self.tree.nodes@[a as int].order == order);
            }
            match self.try_alloc_node(a) {
                None => {
                    let node_start = self.tree.node(a).start;
                    proof {
                        let s = node_start as int;
                        let b = self.start as int;
                        let h = pow2(self.order as nat) as int;
                        let k = pow2(order as nat) as int;
                        let p = PAGE_SIZE as int;
                        // The whole region's last byte fits, so this block's
                        // address arithmetic stays in range.
                        lemma_mul_inequality(b + s, b + h, p);
                        lemma_mul_inequality(b + s + k, b + h, p);
                        lemma_mul_inequality(1, p, b + s);
                        vstd::arithmetic::mul::lemma_mul_is_commutative(p, b + s);
                        vstd::arithmetic::mul::lemma_mul_is_distributive_add_other_way(
                            p,
                            b + s,
                            k,
                        );
                        vstd::arithmetic::mul::lemma_mul_is_distributive_add_other_way(p, b, s);
                        lemma_mul_inequality(b, b + s, p);
                        // Alignment: the page offset is a multiple of 2^order,
                        // so the byte offset is a multiple of the block size.
                        lemma_pow2_pos(order as nat);
                        lemma_fundamental_div_mod(s, k);
                        let q = s / k;
                        assert(s * p == q * (k * p)) by {
                            vstd::arithmetic::mul::lemma_mul_is_associative(q, k, p);
                            vstd::arithmetic::mul::lemma_mul_is_commutative(q, k);
                            vstd::arithmetic::mul::lemma_mul_is_associative(k, q, p);
                        }
                        vstd::arithmetic::mul::lemma_mul_strictly_positive(k, p);
                        lemma_mod_multiples_basic(q, k * p);
                        lemma_mod_multiples_basic(b + s, p);
                    }
                    return Some((self.start + node_start) * PAGE_SIZE);
                },
                Some(i) => {
                    if i == 1 {
                        return None;
                    }
                    proof {
                        let d = choose|d: nat| i as nat == anc(a as nat, d);
                        lemma_anc_pos_depth(a as nat, d);
                        lemma_anc_props(a as nat, d);
                        assert(depth(i as nat) == row - d);
                        assert(self.tree.node_wf(i as int));
                    }
                    let la = self.level(self.tree.node(a));
                    let li = self.level(self.tree.node(i));
                    proof {
                        lemma_pow2_le((la - li) as nat, row as nat);
                    }
                    let jump = pow2_exec(la - li);
                    proof {
                        let d = (la - li) as nat;
                        let di = depth(i as nat);
                        crate::math::lemma_depth_bounds(i as nat);
                        lemma_pow2_adds(di, d);
                        // i + 1 <= 2^(di + 1), so the skip lands at
                        // (i + 1) * 2^d <= 2^(row + 1) = last_node + 1.
                        lemma_mul_inequality(i as int + 1, 2 * pow2(di) as int, pow2(d) as int);
                        assert(2 * pow2(di) * pow2(d) == 2 * pow2(row as nat)) by {
                            vstd::arithmetic::mul::lemma_mul_is_associative(
                                2,
                                pow2(di) as int,
                                pow2(d) as int,
                            );
                        }
                        // And strictly above the row start.
                        lemma_mul_inequality(pow2(di) as int + 1, i as int + 1, pow2(d) as int);
                        vstd::arithmetic::mul::lemma_mul_is_distributive_add_other_way(
                            pow2(d) as int,
                            pow2(di) as int,
                            1int,
                        );
                        lemma_pow2_pos(d);
                    }
                    a = (i + 1) * jump;
                },
            }
            if a > last_node {
                a = start_node;
                restarted = true;
            }
            if restarted && a >= started_at {
                return None;
            }
            fuel = fuel - 1;
            if fuel == 0 {
                // A scan this long means the row is livelocked by concurrent
                // traffic far beyond any real machine: report exhaustion.
                return None;
            }
        }
    }

    /// Frees the `2^order` pages whose first byte address is `start`.
    /// Succeeds for every supported order and rejects nothing else; the
    /// address must lie within the managed region and should be one that
    /// `allocate` returned for this order.
    pub fn free(&self, start: usize, order: usize) -> (r: Option<()>)
        requires
            self.wf(),
            self.start * PAGE_SIZE <= start,
            start < (self.start + pow2(self.order as nat)) * PAGE_SIZE,
        ensures
            r is Some <==> order <= self.order,
    {
        if order > self.order {
            return None;
        }
        proof {
            let b = self.start as int;
            let h = pow2(self.order as nat) as int;
            let p = PAGE_SIZE as int;
            lemma_mul_inequality(b, b + h, p);
            lemma_pow2_le(order as nat, self.order as nat);
            lemma_pow2_le((self.order - order) as nat, self.order as nat);
            lemma_pow2_pos(order as nat);
            lemma_pow2_pos((self.order - order) as nat);
            lemma_mul_inequality(pow2(order as nat) as int, h, p);
            lemma_mul_inequality(1, b + h, p);
            vstd::arithmetic::mul::lemma_mul_is_commutative(b + h, p);
            assert(h * p <= (b + h) * p) by {
                lemma_mul_inequality(h, b + h, p);
            }
        }
        let base = self.start * PAGE_SIZE;
        let block = pow2_exec(order) * PAGE_SIZE;
        let row_first = pow2_exec(self.order - order);
        proof {
            let b = self.start as int;
            let h = pow2(self.order as nat) as int;
            let p = PAGE_SIZE as int;
            let k = pow2(order as nat) as int;
            let w = pow2((self.order - order) as nat) as int;
            vstd::arithmetic::mul::lemma_mul_strictly_positive(k, p);
            // The page offset is below the region size, so the computed row
            // index is below the row width.
            vstd::arithmetic::mul::lemma_mul_is_distributive_add_other_way(p, b, h);
            assert(start - base < h * p);
            assert(h * p == (k * p) * w) by {
                lemma_pow2_adds((self.order - order) as nat, order as nat);
                vstd::arithmetic::mul::lemma_mul_is_associative(w, k, p);
                vstd::arithmetic::mul::lemma_mul_is_commutative(w, k * p);
            }
            lemma_multiply_divide_lt(start as int - base, k * p, w);
        }
        let idx = (start - base) / block;
        let pos = row_first + idx;
        proof {
            assert(pos < 2 * pow2((self.order - order) as nat));
            lemma_pow2_le((self.order - order + 1) as nat, (self.order + 1) as nat);
            lemma_pow2_adds((self.order - order) as nat, 1);
            lemma_pow2_adds(self.order as nat, 1);
            lemma2_to64();
            assert(pos < self.tree.nodes@.len());
            assert(self.tree.node_wf(pos as int));
            self.tree.lemma_croot_props(pos as int);
            let root = self.tree.containers@[self.tree.nodes@[pos as int].container_offset as int].root;
            lemma_anc_root(root as nat);
            assert(depth(1nat) == 0);
        }
        self.free_node(pos, 1);
        Some(())
    }
}


} // verus!
