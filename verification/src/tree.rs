//! The static full binary tree over the managed pages, tiled into containers.
//!
//! Node `i` (heap-index convention, root at 1) covers `2^order` pages starting
//! at page offset `start`. Containers pack four consecutive tree levels — up
//! to fifteen nodes — behind one atomic state word; a node at a tree depth
//! divisible by four roots its own container, every other node borrows its
//! parent's container and gets the next heap slot within it.
//!
//! The geometry is fixed at construction and `wf` captures it: positions,
//! orders, page offsets, container membership and the container-root links.
//! Only the state word of a container ever changes afterwards.

use vstd::prelude::*;
use vstd::arithmetic::power2::{
    lemma2_to64, lemma_pow2_adds, lemma_pow2_pos, lemma_pow2_unfold, pow2,
};
use vstd::arithmetic::div_mod::{
    lemma_div_basics, lemma_fundamental_div_mod, lemma_mod_add_multiples_vanish,
    lemma_mod_multiples_basic,
};
use crate::math::{anc, depth, lemma_anc_compose, lemma_pow2_le, pow2_exec};
use crate::state::NodeState;

verus! {

/// Largest supported tree order: the node array then holds `2^58` entries,
/// beyond any machine this can run on, and every shift stays well-defined.
pub const MAX_ORDER: usize = 57;

/// One node of the binary tree; immutable after construction.
pub struct Node {
    /// Position in the tree, heap-index convention (root is 1).
    pub pos: usize,
    /// First page of the region this node covers.
    pub start: usize,
    /// Log2 of the number of pages this node covers.
    pub order: usize,
    /// Slot within the owning container, heap-index convention (1 to 15).
    pub cpos: u8,
    /// Index of the owning container.
    pub container_offset: usize,
}

impl Node {
    /// Log2 of the number of pages this node covers.
    pub fn order(&self) -> (r: usize)
        ensures
            r == self.order,
    {
        self.order
    }

    /// Slot of this node within its container.
    pub fn container_pos(&self) -> (r: u8)
        ensures
            r == self.cpos,
    {
        self.cpos
    }
}

/// A container: the packed state word of a four-level sub-tree, plus the tree
/// position of that sub-tree's root. Only `state` is ever written after
/// construction, and only through `try_update`.
pub struct NodeContainer {
    /// The packed state word of the container's fifteen slots; the only
    /// mutable datum of the whole allocator.
    pub state: core::sync::atomic::AtomicU64,
    /// Tree position of the root of this container's sub-tree.
    pub root: usize,
}

impl NodeContainer {
    /// Reads the current state word. Concurrent writers may publish a new
    /// word at any moment, so nothing is promised of the value.
    pub fn get_state(&self) -> NodeState {
        NodeState::from_raw(self.state.load(core::sync::atomic::Ordering::Relaxed))
    }

    /// Publishes `current` if the word still equals `old`; reports whether
    /// the exchange took place. Under contention either outcome is possible.
    pub fn try_update(&self, old: NodeState, current: NodeState) -> bool {
        self.state.compare_exchange(
            old.raw(),
            current.raw(),
            core::sync::atomic::Ordering::Relaxed,
            core::sync::atomic::Ordering::Relaxed,
        ).is_ok()
    }

    fn fresh(root: usize) -> (r: Self)
        ensures
            r.root == root,
    {
        NodeContainer { state: core::sync::atomic::AtomicU64::new(0), root }
    }
}

/// The tree: node records, container records, and the order of the region.
pub struct Tree {
    /// Node records, indexed by tree position; index 0 is unused.
    pub nodes: Vec<Node>,
    /// Container records, indexed by `Node::container_offset`.
    pub containers: Vec<NodeContainer>,
    /// Log2 of the number of pages the whole tree covers.
    pub order: usize,
}

impl Tree {
    /// Geometric well-formedness of the record of node `i`, relative to its
    /// parent record and the container table.
    pub open spec fn node_wf(self, i: int) -> bool {
        let h = self.order as int;
        let n = self.nodes@[i];
        let p = self.nodes@[i / 2];
        let d = depth(i as nat) as int;
        &&& n.pos == i
        &&& d <= h
        &&& n.order == h - d
        &&& n.container_offset < self.containers@.len()
        &&& pow2((d % 4) as nat) <= n.cpos < 2 * pow2((d % 4) as nat)
        &&& self.containers@[n.container_offset as int].root == anc(i as nat, (d % 4) as nat)
        &&& n.start + pow2(n.order as nat) <= pow2(self.order as nat)
        &&& n.start as int % (pow2(n.order as nat) as int) == 0
        &&& (i == 1 ==> n.start == 0 && n.cpos == 1 && n.container_offset == 0)
        &&& (i >= 2 ==> {
            &&& n.order == p.order - 1
            &&& n.start == if i % 2 == 0 {
                p.start as int
            } else {
                p.start + pow2(n.order as nat)
            }
            &&& if d % 4 == 0 {
                &&& n.cpos == 1
                &&& self.containers@[n.container_offset as int].root == i
            } else {
                &&& n.container_offset == p.container_offset
                &&& n.cpos == 2 * p.cpos + (if i % 2 == 0 { 0int } else { 1int })
            }
        })
    }

    /// The container table entry `c` points back at a node that roots it.
    pub open spec fn container_ok(self, c: int) -> bool {
        let r = self.containers@[c].root;
        &&& 1 <= r < self.nodes@.len()
        &&& self.nodes@[r as int].cpos == 1
        &&& self.nodes@[r as int].container_offset == c
    }

    /// Well-formed tree: every node record and container record is
    /// geometrically consistent.
    pub open spec fn wf(self) -> bool {
        &&& self.order <= MAX_ORDER
        &&& self.nodes@.len() == 2 * pow2(self.order as nat)
        &&& self.nodes@.len() <= usize::MAX
        &&& 1 <= self.containers@.len()
        &&& forall|i: int| 1 <= i < self.nodes@.len() ==> #[trigger] self.node_wf(i)
        &&& forall|c: int| 0 <= c < self.containers@.len() ==> #[trigger] self.container_ok(c)
    }

    /// The container record at `offset`.
    pub fn container(&self, offset: usize) -> (r: &NodeContainer)
        requires
            offset < self.containers@.len(),
        ensures
            *r == self.containers@[offset as int],
    {
        &self.containers[offset]
    }

    /// The node record at position `offset`.
    pub fn node(&self, offset: usize) -> (r: &Node)
        requires
            offset < self.nodes@.len(),
        ensures
            *r == self.nodes@[offset as int],
    {
        &self.nodes[offset]
    }

    /// Number of tree levels.
    pub fn height(&self) -> (r: usize)
        requires
            self.order <= MAX_ORDER,
        ensures
            r == self.order + 1,
    {
        self.order + 1
    }

    /// Number of nodes in the tree.
    pub fn node_count(&self) -> (r: usize)
        requires
            self.wf(),
        ensures
            r == self.nodes@.len() - 1,
    {
        proof {
            lemma_pow2_pos(self.order as nat);
        }
        self.nodes.len() - 1
    }

    /// The root node.
    pub fn root(&self) -> (r: &Node)
        requires
            self.wf(),
        ensures
            *r == self.nodes@[1],
    {
        proof {
            lemma_pow2_pos(self.order as nat);
        }
        &self.nodes[1]
    }

    /// The parent record of `node`.
    pub fn parent_of(&self, node: &Node) -> (r: &Node)
        requires
            self.wf(),
            2 <= node.pos < self.nodes@.len(),
        ensures
            *r == self.nodes@[node.pos as int / 2],
    {
        &self.nodes[node.pos / 2]
    }

    /// The left child record of `node`.
    pub fn left_of(&self, node: &Node) -> (r: &Node)
        requires
            self.wf(),
            1 <= node.pos,
            2 * node.pos < self.nodes@.len(),
        ensures
            *r == self.nodes@[2 * node.pos as int],
    {
        &self.nodes[node.pos * 2]
    }

    /// The right child record of `node`.
    pub fn right_of(&self, node: &Node) -> (r: &Node)
        requires
            self.wf(),
            1 <= node.pos,
            2 * node.pos + 1 < self.nodes@.len(),
        ensures
            *r == self.nodes@[2 * node.pos as int + 1],
    {
        &self.nodes[node.pos * 2 + 1]
    }

    /// Whether `node` sits in the bottom row of its container.
    pub fn is_leaf(&self, node: &Node) -> (r: bool)
        ensures
            r == (node.cpos >= 8),
    {
        node.cpos >= 8
    }

    /// The slot of a node is bounded by its level within the container: slot
    /// 1 exactly at container roots, the bottom row exactly three levels in.
    pub proof fn lemma_cpos_range(self, i: int)
        requires
            self.wf(),
            1 <= i < self.nodes@.len(),
        ensures
            1 <= self.nodes@[i].cpos < 16,
            (self.nodes@[i].cpos == 1) == (depth(i as nat) % 4 == 0),
            (self.nodes@[i].cpos >= 8) == (depth(i as nat) % 4 == 3),
    {
        assert(self.node_wf(i));
        lemma2_to64();
        let dm = depth(i as nat) as int % 4;
        assert(0 <= dm < 4);
        assert(pow2(0) == 1 && pow2(1) == 2 && pow2(2) == 4 && pow2(3) == 8);
    }

    /// The container-root link of a node: the entry of its container points
    /// at the ancestor `depth(i) % 4` levels up, which roots the container.
    pub proof fn lemma_croot_props(self, i: int)
        requires
            self.wf(),
            1 <= i < self.nodes@.len(),
        ensures
            ({
                let r = self.containers@[self.nodes@[i].container_offset as int].root as int;
                &&& r == anc(i as nat, (depth(i as nat) % 4) as nat)
                &&& 1 <= r <= i
                &&& r < self.nodes@.len()
                &&& depth(r as nat) == depth(i as nat) - (depth(i as nat) % 4)
                &&& depth(r as nat) % 4 == 0
                &&& self.nodes@[r].cpos == 1
                &&& self.nodes@[r].container_offset == self.nodes@[i].container_offset
                &&& (r == i <==> depth(i as nat) % 4 == 0)
            }),
    {
        assert(self.node_wf(i));
        let dm = (depth(i as nat) % 4) as nat;
        crate::math::lemma_anc_props(i as nat, dm);
        assert(self.container_ok(self.nodes@[i].container_offset as int));
        if dm == 0 {
            lemma_div_basics(i);
            lemma2_to64();
            assert(anc(i as nat, 0) == i as nat);
        }
        let r = self.containers@[self.nodes@[i].container_offset as int].root as int;
        assert(self.node_wf(r));
    }

    /// A node below its container root shares the container with its parent,
    /// one slot row up.
    pub proof fn lemma_parent_in_container(self, i: int)
        requires
            self.wf(),
            2 <= i < self.nodes@.len(),
            depth(i as nat) % 4 != 0,
        ensures
            self.nodes@[i].container_offset == self.nodes@[i / 2].container_offset,
            self.nodes@[i].cpos == 2 * self.nodes@[i / 2].cpos + (if i % 2 == 0 { 0int } else {
                1int
            }),
            self.nodes@[i / 2].cpos == self.nodes@[i].cpos as int / 2,
            depth((i / 2) as nat) % 4 == depth(i as nat) % 4 - 1,
    {
        assert(self.node_wf(i));
        assert(self.node_wf(i / 2));
        assert(depth(i as nat) == depth((i / 2) as nat) + 1);
    }

    /// Tree node `j` is a strict descendant of node `p` that lies in `p`'s
    /// own container: at most three rows below it, same container record.
    pub open spec fn in_container_descendant(self, j: int, p: int) -> bool {
        &&& 1 <= j < self.nodes@.len()
        &&& self.nodes@[j].container_offset == self.nodes@[p].container_offset
        &&& (2 * p <= j < 2 * p + 2 || 4 * p <= j < 4 * p + 4 || 8 * p <= j < 8 * p + 8)
    }

    /// The slot of an in-container descendant sits the same number of rows
    /// below the node's own slot as the node itself does in the tree.
    pub proof fn lemma_descendant_slot(self, j: int, p: int)
        requires
            self.wf(),
            1 <= p < self.nodes@.len(),
            self.in_container_descendant(j, p),
        ensures
            ({
                let c = self.nodes@[p].cpos;
                let cj = self.nodes@[j].cpos;
                &&& (2 * p <= j < 2 * p + 2 ==> 2 * c <= cj < 2 * c + 2)
                &&& (4 * p <= j < 4 * p + 4 ==> 4 * c <= cj < 4 * c + 4)
                &&& (8 * p <= j < 8 * p + 8 ==> 8 * c <= cj < 8 * c + 8)
            }),
        decreases j,
    {
        assert(self.node_wf(j));
        self.lemma_croot_props(p);
        if depth(j as nat) % 4 == 0 {
            // Impossible: node `j` would root the shared container, yet the
            // container's root lies at or above `p`, strictly above `j`.
            assert(self.containers@[self.nodes@[j].container_offset as int].root == j);
            assert(false);
        }
        lemma_fundamental_div_mod(j, 2);
        if 2 * p <= j < 2 * p + 2 {
            assert(j / 2 == p);
        } else if 4 * p <= j < 4 * p + 4 {
            assert(2 * p <= j / 2 < 2 * p + 2);
            assert(self.in_container_descendant(j / 2, p));
            self.lemma_descendant_slot(j / 2, p);
        } else {
            assert(4 * p <= j / 2 < 4 * p + 4);
            assert(self.in_container_descendant(j / 2, p));
            self.lemma_descendant_slot(j / 2, p);
        }
    }

    /// No node strictly below another can root their shared container: the
    /// container's root lies at or above the higher node.
    pub proof fn lemma_no_shared_root_below(self, j: int, p: int)
        requires
            self.wf(),
            1 <= p < self.nodes@.len(),
            p < j < self.nodes@.len(),
            self.nodes@[j].container_offset == self.nodes@[p].container_offset,
        ensures
            depth(j as nat) % 4 != 0,
    {
        assert(self.node_wf(j));
        self.lemma_croot_props(p);
        if depth(j as nat) % 4 == 0 {
            assert(self.containers@[self.nodes@[j].container_offset as int].root == j);
            assert(false);
        }
    }

    /// Builds the tree for the given order: `2^(order + 1)` node records
    /// (index 0 unused) and one container per sub-tree root, assigned by a
    /// top-down walk in position order. Fails exactly when the node array
    /// cannot be indexed by a machine word.
    pub fn new(order: usize) -> (r: Option<Tree>)
        ensures
            r is Some <==> order <= MAX_ORDER && 2 * pow2(order as nat) <= usize::MAX,
            r matches Some(t) ==> t.wf() && t.order == order,
    {
        if order > MAX_ORDER {
            return None;
        }
        // size = 2^order, rejecting any order whose node array would not fit.
        let mut size: usize = 1;
        let mut k: usize = 0;
        proof {
            lemma2_to64();
        }
        while k < order
            invariant
                k <= order,
                size == pow2(k as nat),
                1 <= size,
                2 * size <= usize::MAX,
            decreases order - k,
        {
            if size > usize::MAX / 4 {
                proof {
                    lemma_pow2_unfold((k + 1) as nat);
                    lemma_pow2_le((k + 1) as nat, order as nat);
                    assert(4 * size > usize::MAX);
                    assert(2 * pow2(order as nat) >= 4 * size);
                }
                return None;
            }
            size = size * 2;
            k = k + 1;
            proof {
                lemma_pow2_unfold(k as nat);
            }
        }
        let count = 2 * size - 1;

        let mut nodes: Vec<Node> = Vec::new();
        let mut containers: Vec<NodeContainer> = Vec::new();
        // Index 0 is never used.
        nodes.push(Node { pos: 0, start: 0, order: 0, cpos: 1, container_offset: 0 });
        nodes.push(Node { pos: 1, start: 0, order, cpos: 1, container_offset: 0 });
        containers.push(NodeContainer::fresh(1));

        let t0 = Tree { nodes, containers, order };
        proof {
            lemma_pow2_pos(order as nat);
            lemma_div_basics(1int);
            assert(t0.node_wf(1)) by {
                lemma_pow2_pos(order as nat);
                lemma2_to64();
                lemma_mod_multiples_basic(0int, pow2(order as nat) as int);
            }
            assert(t0.container_ok(0));
        }
        let Tree { mut nodes, mut containers, order } = t0;

        let mut i: usize = 2;
        while i <= count
            invariant
                order <= MAX_ORDER,
                2 <= i <= count + 1,
                count == 2 * pow2(order as nat) - 1,
                count < usize::MAX,
                nodes@.len() == i,
                1 <= containers@.len(),
                forall|j: int| 1 <= j < i ==> #[trigger] (Tree {
                    nodes: nodes,
                    containers: containers,
                    order,
                }).node_wf(j),
                forall|c: int| 0 <= c < containers@.len() ==> #[trigger] (Tree {
                    nodes: nodes,
                    containers: containers,
                    order,
                }).container_ok(c),
            decreases count + 1 - i,
        {
            let ghost pre = Tree { nodes: nodes, containers: containers, order };
            proof {
                assert(pre.node_wf(i as int / 2));
                crate::math::lemma_depth_bounds(i as nat);
                assert(depth(i as nat) == depth((i / 2) as nat) + 1);
                assert(i / 2 >= 1);
                if depth(i as nat) > order {
                    // depth(i) <= order because i <= count < 2^(order + 1).
                    lemma_pow2_le((order + 1) as nat, depth(i as nat));
                    lemma_pow2_adds(1, order as nat);
                    lemma2_to64();
                    assert(false);
                }
                lemma_pow2_le(depth(i as nat), order as nat);
            }
            let parent_order = nodes[i / 2].order;
            let ord = parent_order - 1;
            let parent_start = nodes[i / 2].start;
            proof {
                lemma_pow2_le(ord as nat, order as nat);
            }
            let block = pow2_exec(ord);
            proof {
                lemma_pow2_unfold((ord + 1) as nat);
            }
            let start = if i % 2 == 0 {
                parent_start
            } else {
                parent_start + block
            };
            proof {
                let po = (ord + 1) as nat;
                // Alignment of the child offset.
                lemma_pow2_pos(ord as nat);
                lemma_pow2_pos(po);
                lemma_fundamental_div_mod(parent_start as int, pow2(po) as int);
                let q = parent_start as int / pow2(po) as int;
                assert(parent_start as int == pow2(po) * q);
                assert(pow2(po) * q == (2 * q) * pow2(ord as nat)) by {
                    lemma_pow2_unfold(po);
                    vstd::arithmetic::mul::lemma_mul_is_associative(2, pow2(ord as nat) as int, q);
                    vstd::arithmetic::mul::lemma_mul_is_commutative(pow2(ord as nat) as int, q);
                    vstd::arithmetic::mul::lemma_mul_is_associative(2, q, pow2(ord as nat) as int);
                }
                lemma_mod_multiples_basic(2 * q, pow2(ord as nat) as int);
                if i % 2 != 0 {
                    lemma_mod_add_multiples_vanish(pow2(ord as nat) as int, pow2(ord as nat) as int);
                    assert((pow2(ord as nat) + (2 * q) * pow2(ord as nat)) as int % (pow2(
                        ord as nat,
                    ) as int) == pow2(ord as nat) as int % (pow2(ord as nat) as int)) by {
                        lemma_mod_add_multiples_vanish(
                            pow2(ord as nat) as int,
                            pow2(ord as nat) as int,
                        );
                        vstd::arithmetic::div_mod::lemma_mod_multiples_vanish(
                            2 * q,
                            pow2(ord as nat) as int,
                            pow2(ord as nat) as int,
                        );
                    }
                    lemma_mod_multiples_basic(1int, pow2(ord as nat) as int);
                }
            }
            let height = order + 1;
            let new_node: Node;
            let pushed_container: bool;
            if (height - ord) % 4 == 1 {
                let co = containers.len();
                new_node = Node { pos: i, start, order: ord, cpos: 1, container_offset: co };
                containers.push(NodeContainer::fresh(i));
                pushed_container = true;
            } else {
                let pc = nodes[i / 2].cpos;
                let pco = nodes[i / 2].container_offset;
                proof {
                    // The parent sits above the bottom row of its container.
                    let dm = depth(i as nat) as int % 4;
                    assert(dm != 0);
                    assert(depth((i / 2) as nat) as int % 4 == dm - 1);
                    lemma_pow2_le((dm - 1) as nat, 2);
                    lemma2_to64();
                }
                let cp = 2 * pc + if i % 2 == 0 { 0u8 } else { 1u8 };
                new_node = Node { pos: i, start, order: ord, cpos: cp, container_offset: pco };
                pushed_container = false;
            }
            nodes.push(new_node);
            proof {
                let post = Tree { nodes: nodes, containers: containers, order };
                let dm = depth(i as nat) as int % 4;
                // Container-root link for the new node.
                lemma_div_basics(i as int);
                lemma2_to64();
                if dm == 0 {
                    assert(anc(i as nat, 0) == i as nat);
                } else {
                    assert(anc(i as nat, 1) == (i / 2) as nat);
                    lemma_anc_compose(i as nat, 1, (dm - 1) as nat);
                    assert(depth((i / 2) as nat) as int % 4 == dm - 1);
                }
                assert(post.node_wf(i as int));
                assert forall|j: int| 1 <= j < i + 1 implies #[trigger] post.node_wf(j) by {
                    if j < i {
                        assert(pre.node_wf(j));
                    }
                }
                assert forall|c: int| 0 <= c < containers@.len() implies #[trigger] post
                    .container_ok(c) by {
                    if c < pre.containers@.len() {
                        assert(pre.container_ok(c));
                    }
                }
            }
            i = i + 1;
        }
        let t = Tree { nodes, containers, order };
        proof {
            assert(t.wf());
        }
        Some(t)
    }
}

} // verus!
