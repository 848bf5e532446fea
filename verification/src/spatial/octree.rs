use vstd::prelude::*;

use std::collections::HashMap;

use crate::geometry::Intersects;
use crate::spatial::Octant;

verus! {

broadcast use vstd::std_specs::hash::group_hash_axioms;

/// Maximum depth of the octree: the deepest level whose location codes
/// still fit in a 64-bit word, one leading bit plus three bits per level.
pub const MAX_DEPTH: usize = 21;

/// Maximum number of items indexed on a leaf node before it is split.
pub const MAX_ITEMS_PER_NODE: usize = 100;

/// The depth of a location code: the root code 1 has depth 0, and each
/// base-8 digit appended below it adds one level.
pub open spec fn code_depth(code: u64) -> nat
    decreases code,
{
    if code <= 1 {
        0
    } else {
        1 + code_depth(code / 8)
    }
}

/// Powers of eight.
pub open spec fn pow8(n: nat) -> nat
    decreases n,
{
    if n == 0 {
        1
    } else {
        8 * pow8((n - 1) as nat)
    }
}

/// A location code is valid when it consists of a leading 1 digit followed
/// by one base-8 digit per level, no deeper than `MAX_DEPTH`.
pub open spec fn valid_code(code: u64) -> bool {
    &&& code_depth(code) <= MAX_DEPTH as nat
    &&& pow8(code_depth(code)) <= code < 2 * pow8(code_depth(code))
}

/// Powers of eight are monotone.
pub proof fn lemma_pow8_le(a: nat, b: nat)
    requires
        a <= b,
    ensures
        pow8(a) <= pow8(b),
    decreases b,
{
    if a < b && b > 0 {
        lemma_pow8_le(a, (b - 1) as nat);
    }
}

/// The numeric value of the largest power of eight a code can reach.
pub proof fn lemma_pow8_21()
    ensures
        pow8(21) == 0x8000000000000000,
{
    reveal_with_fuel(pow8, 22);
}

/// Law: appending an octant digit to a valid code of depth below
/// `MAX_DEPTH` yields a valid code one level deeper, and the parent's code
/// is recovered by dropping that digit again.
pub proof fn lemma_child_code(code: u64, k: u64)
    requires
        valid_code(code),
        code_depth(code) < MAX_DEPTH as nat,
        k < 8,
    ensures
        code * 8 + k <= u64::MAX,
        valid_code((code * 8 + k) as u64),
        code_depth((code * 8 + k) as u64) == code_depth(code) + 1,
        ((code * 8 + k) as u64) / 8 == code,
        (code * 8 + k) >= 8,
{
    let d = code_depth(code);
    lemma_pow8_le(d + 1, 21);
    lemma_pow8_21();
    assert(pow8(d + 1) == 8 * pow8(d));
    assert(code * 8 + k < 2 * pow8(d + 1)) by {
        assert(code <= 2 * pow8(d) - 1);
        assert(code * 8 <= (2 * pow8(d) - 1) * 8) by (nonlinear_arith)
            requires
                code <= 2 * pow8(d) - 1,
        ;
    }
    assert(pow8(d + 1) <= code * 8) by {
        assert(pow8(d) * 8 <= code * 8) by (nonlinear_arith)
            requires
                pow8(d) <= code,
        ;
    }
    let child = (code * 8 + k) as u64;
    assert(child / 8 == code);
    assert(child >= 8);
    assert(code_depth(child) == 1 + code_depth(code));
}

/// A node of the octree: its location code, its bounds, whether it is a
/// leaf, and the indices of the items indexed on it.
#[derive(Debug, Clone)]
pub struct OctreeNode<B> {
    code: u64,
    bounds: B,
    is_leaf: bool,
    items: Vec<usize>,
}

impl<B> OctreeNode<B> {
    pub closed spec fn spec_code(self) -> u64 {
        self.code
    }

    pub closed spec fn spec_bounds(self) -> B {
        self.bounds
    }

    pub closed spec fn spec_is_leaf(self) -> bool {
        self.is_leaf
    }

    pub closed spec fn spec_items(self) -> Seq<usize> {
        self.items@
    }

    /// Construct an OctreeNode from its code and bounds.
    pub fn new(code: u64, bounds: B) -> (r: OctreeNode<B>)
        ensures
            r.spec_code() == code,
            r.spec_bounds() == bounds,
            r.spec_is_leaf(),
            r.spec_items() == Seq::<usize>::empty(),
    {
        OctreeNode { code, bounds, is_leaf: true, items: Vec::new() }
    }

    /// Get the location code.
    pub fn code(&self) -> (r: u64)
        ensures
            r == self.spec_code(),
    {
        self.code
    }

    /// Get the bounds.
    pub fn bounds(&self) -> (r: &B)
        ensures
            *r == self.spec_bounds(),
    {
        &self.bounds
    }

    /// Check if the node is a leaf.
    pub fn is_leaf(&self) -> (r: bool)
        ensures
            r == self.spec_is_leaf(),
    {
        self.is_leaf
    }

    /// Get the indexed items.
    pub fn items(&self) -> (r: &Vec<usize>)
        ensures
            r@ == self.spec_items(),
    {
        &self.items
    }

    /// Get the depth of the node.
    pub fn depth(&self) -> (d: usize)
        requires
            valid_code(self.spec_code()),
        ensures
            d == code_depth(self.spec_code()),
    {
        let mut c = self.code;
        let mut d: usize = 0;
        proof {
            lemma_pow8_le(code_depth(self.code), 21);
            lemma_pow8_21();
        }
        while c >= 2
            invariant
                valid_code(c),
                code_depth(self.spec_code()) <= MAX_DEPTH as nat,
                code_depth(self.code) == d + code_depth(c),
            decreases c,
        {
            let ghost dc = code_depth(c);
            proof {
                // c >= 2 and valid means at least one full digit remains
                if dc == 0 {
                    assert(c < 2);
                }
                assert(pow8(dc) == 8 * pow8((dc - 1) as nat));
                assert(pow8((dc - 1) as nat) <= c / 8 < 2 * pow8((dc - 1) as nat));
                assert(c / 8 >= 1);
                assert(code_depth(c) == 1 + code_depth(c / 8));
                lemma_pow8_le((dc - 1) as nat, 21);
                lemma_pow8_21();
            }
            c = c / 8;
            d = d + 1;
        }
        proof {
            assert(code_depth(c) == 0);
        }
        d
    }

    /// Get the children location codes.
    pub fn children(&self) -> (r: Vec<u64>)
        requires
            valid_code(self.spec_code()),
            code_depth(self.spec_code()) < MAX_DEPTH as nat,
        ensures
            r@.len() == 8,
            forall|k: int|
                0 <= k < 8 ==> r@[k] == self.spec_code() * 8 + k && valid_code(r@[k])
                    && code_depth(r@[k]) == code_depth(self.spec_code()) + 1 && r@[k] / 8
                    == self.spec_code(),
    {
        proof {
            lemma_child_code(self.code, 7);
        }
        let mut r: Vec<u64> = Vec::new();
        let mut k: u64 = 0;
        while k < 8
            invariant
                k <= 8,
                valid_code(self.spec_code()),
                code_depth(self.spec_code()) < MAX_DEPTH as nat,
                self.code * 8 + 7 <= u64::MAX,
                r@.len() == k,
                forall|i: int|
                    0 <= i < k ==> r@[i] == self.spec_code() * 8 + i && valid_code(r@[i])
                        && code_depth(r@[i]) == code_depth(self.spec_code()) + 1 && r@[i] / 8
                        == self.spec_code(),
            decreases 8 - k,
        {
            proof {
                lemma_child_code(self.code, k);
            }
            r.push(self.code * 8 + k);
            k = k + 1;
        }
        r
    }

    /// Check if the node can be split: it is a leaf above the maximum depth.
    pub fn can_split(&self) -> (r: bool)
        requires
            valid_code(self.spec_code()),
        ensures
            r == (self.spec_is_leaf() && code_depth(self.spec_code()) < MAX_DEPTH as nat),
    {
        self.is_leaf && self.depth() < MAX_DEPTH
    }

    /// Check if the node should be split: it can be split and holds more
    /// items than a leaf may carry.
    pub fn should_split(&self) -> (r: bool)
        requires
            valid_code(self.spec_code()),
        ensures
            r == (self.spec_items().len() > MAX_ITEMS_PER_NODE as nat && self.spec_is_leaf()
                && code_depth(self.spec_code()) < MAX_DEPTH as nat),
    {
        self.items.len() > MAX_ITEMS_PER_NODE && self.can_split()
    }
}

/// A loose octree over items of type `T` indexed by how they intersect
/// node bounds of type `B`. Nodes are kept sparsely: only allocated nodes
/// are present, found from their location code through a side table.
#[derive(Debug, Clone)]
pub struct Octree<T, B> {
    nodes: Vec<OctreeNode<B>>,
    slot: HashMap<u64, usize>,
    items: Vec<T>,
}

impl<T, B> Octree<T, B> {
    pub closed spec fn spec_nodes(self) -> Seq<OctreeNode<B>> {
        self.nodes@
    }

    pub closed spec fn spec_slot(self) -> Map<u64, usize> {
        self.slot@
    }

    pub closed spec fn spec_items(self) -> Seq<T> {
        self.items@
    }

    /// The node table and the code index agree: every allocated node is
    /// found under its own code and vice versa.
    pub open spec fn slots_ok(self) -> bool {
        &&& forall|j: int|
            0 <= j < self.spec_nodes().len() ==> #[trigger] self.spec_slot().contains_key(
                self.spec_nodes()[j].spec_code(),
            ) && self.spec_slot()[self.spec_nodes()[j].spec_code()] == j
        &&& forall|c: u64|
            #[trigger] self.spec_slot().contains_key(c) ==> self.spec_slot()[c]
                < self.spec_nodes().len() && self.spec_nodes()[
                self.spec_slot()[c] as int
            ].spec_code() == c
    }

    /// The structural invariant of the tree: the root is allocated; codes
    /// are valid; every non-root node hangs under an allocated, already
    /// subdivided parent; a subdivided node has all eight children allocated
    /// and carries no items of its own.
    pub open spec fn wf_structure(self) -> bool {
        &&& self.slots_ok()
        &&& self.spec_slot().contains_key(1)
        &&& forall|j: int|
            0 <= j < self.spec_nodes().len() ==> valid_code(
                #[trigger] self.spec_nodes()[j].spec_code(),
            )
        &&& forall|j: int|
            0 <= j < self.spec_nodes().len() && self.spec_nodes()[j].spec_code() != 1
                ==> self.spec_slot().contains_key(#[trigger] self.spec_nodes()[j].spec_code() / 8)
                && !self.spec_nodes()[
                self.spec_slot()[self.spec_nodes()[j].spec_code() / 8] as int
            ].spec_is_leaf()
        &&& forall|j: int|
            0 <= j < self.spec_nodes().len() && !(#[trigger] self.spec_nodes()[j].spec_is_leaf())
                ==> code_depth(self.spec_nodes()[j].spec_code()) < MAX_DEPTH as nat && forall|
                k: u64,
            |
                k < 8 ==> self.spec_slot().contains_key(
                    #[trigger] ((self.spec_nodes()[j].spec_code() * 8 + k) as u64),
                )
        &&& forall|j: int|
            0 <= j < self.spec_nodes().len() && !(#[trigger] self.spec_nodes()[j].spec_is_leaf())
                ==> self.spec_nodes()[j].spec_items().len() == 0
    }

    /// Every item index recorded on a node refers into the item array.
    pub open spec fn items_in_range(self) -> bool {
        forall|j: int, p: int|
            0 <= j < self.spec_nodes().len() && 0 <= p < self.spec_nodes()[j].spec_items().len()
                ==> #[trigger] self.spec_nodes()[j].spec_items()[p] < self.spec_items().len()
    }

    /// Law: at rest, a leaf above the maximum depth carries at most
    /// `MAX_ITEMS_PER_NODE` items plus one per level of depth; leaves born
    /// of a split inherit their parent's overflow and are split again only
    /// by the next insertion that lands on them.
    pub open spec fn size_bounded(self) -> bool {
        forall|j: int|
            0 <= j < self.spec_nodes().len() && (#[trigger] self.spec_nodes()[j].spec_is_leaf())
                && code_depth(self.spec_nodes()[j].spec_code()) < MAX_DEPTH as nat ==> self.spec_nodes()[
                j
            ].spec_items().len() <= MAX_ITEMS_PER_NODE as nat + code_depth(
                self.spec_nodes()[j].spec_code(),
            )
    }

    /// The full invariant.
    pub open spec fn wf(self) -> bool {
        &&& self.wf_structure()
        &&& self.items_in_range()
        &&& self.size_bounded()
    }

    /// Construct an octree from its root bounds.
    pub fn new(bounds: B) -> (r: Octree<T, B>)
        ensures
            r.wf(),
            r.spec_items() == Seq::<T>::empty(),
            r.spec_nodes().len() == 1,
            r.spec_slot().contains_key(1),
            r.spec_nodes()[0].spec_code() == 1,
            r.spec_nodes()[0].spec_is_leaf(),
            r.spec_nodes()[0].spec_items() == Seq::<usize>::empty(),
            r.spec_nodes()[0].spec_bounds() == bounds,
    {
        let root = OctreeNode::new(1, bounds);
        let mut slot: HashMap<u64, usize> = HashMap::new();
        slot.insert(1, 0);
        let mut nodes: Vec<OctreeNode<B>> = Vec::new();
        nodes.push(root);
        let r = Octree { nodes, slot, items: Vec::new() };
        proof {
            assert(code_depth(1u64) == 0);
            assert(valid_code(1u64));
        }
        r
    }

    /// Get the number of allocated nodes.
    pub fn n_nodes(&self) -> (n: usize)
        ensures
            n == self.spec_nodes().len(),
    {
        self.nodes.len()
    }

    /// Check whether a node with this location code is allocated.
    pub fn has_node(&self, code: u64) -> (r: bool)
        ensures
            r == self.spec_slot().contains_key(code),
    {
        self.slot.contains_key(&code)
    }

    /// Get a borrowed reference to a node.
    pub fn node(&self, code: u64) -> (r: &OctreeNode<B>)
        requires
            self.slots_ok(),
            self.spec_slot().contains_key(code),
        ensures
            *r == self.spec_nodes()[self.spec_slot()[code] as int],
            r.spec_code() == code,
    {
        let j = *self.slot.get(&code).unwrap();
        &self.nodes[j]
    }

    /// Get a slice of the items.
    pub fn items(&self) -> (r: &Vec<T>)
        ensures
            r@ == self.spec_items(),
    {
        &self.items
    }

    /// Whether some allocated leaf's item list records the index `v`.
    pub open spec fn in_some_leaf(nodes: Seq<OctreeNode<B>>, v: usize) -> bool {
        exists|j: int|
            0 <= j < nodes.len() && (#[trigger] nodes[j]).spec_is_leaf()
                && nodes[j].spec_items().contains(v)
    }

    /// Two node tables describe the same tree: same length, and the nodes
    /// agree pairwise in code, bounds, leaf flag and item list.
    pub open spec fn same_nodes(a: Seq<OctreeNode<B>>, b: Seq<OctreeNode<B>>) -> bool {
        &&& a.len() == b.len()
        &&& forall|i: int|
            0 <= i < a.len() ==> (#[trigger] a[i]).spec_code() == b[i].spec_code()
                && a[i].spec_bounds() == b[i].spec_bounds() && a[i].spec_is_leaf()
                == b[i].spec_is_leaf() && a[i].spec_items() == b[i].spec_items()
    }

    /// What a split of the node at `code` does: the node keeps its code and
    /// bounds but stops being a leaf and drops its item list; eight fresh
    /// leaf children are appended, each holding some of the parent's items;
    /// the code index maps every old code as before and the children to the
    /// fresh slots.
    pub open spec fn split_post(pre: Octree<T, B>, post: Octree<T, B>, code: u64) -> bool {
        let j = pre.spec_slot()[code] as int;
        let n = pre.spec_nodes().len() as int;
        &&& post.spec_nodes().len() == n + 8
        &&& forall|i: int|
            0 <= i < n && i != j ==> post.spec_nodes()[i] == pre.spec_nodes()[i]
        &&& post.spec_nodes()[j].spec_code() == code
        &&& post.spec_nodes()[j].spec_bounds() == pre.spec_nodes()[j].spec_bounds()
        &&& !post.spec_nodes()[j].spec_is_leaf()
        &&& post.spec_nodes()[j].spec_items().len() == 0
        &&& forall|k: int|
            0 <= k < 8 ==> (#[trigger] post.spec_nodes()[n + k]).spec_code() == code * 8 + k
                && post.spec_nodes()[n + k].spec_is_leaf() && post.spec_nodes()[
                n + k
            ].spec_items().len() <= pre.spec_nodes()[j].spec_items().len() && forall|p: int|
                0 <= p < post.spec_nodes()[n + k].spec_items().len() ==> pre.spec_nodes()[
                    j
                ].spec_items().contains(#[trigger] post.spec_nodes()[n + k].spec_items()[p])
        &&& forall|c: u64|
            #[trigger] pre.spec_slot().contains_key(c) ==> post.spec_slot().contains_key(c)
                && post.spec_slot()[c] == pre.spec_slot()[c]
        &&& forall|k: int|
            0 <= k < 8 ==> post.spec_slot().contains_key(#[trigger] ((code * 8 + k) as u64))
                && post.spec_slot()[(code * 8 + k) as u64] == n + k
        &&& forall|c: u64|
            #[trigger] post.spec_slot().contains_key(c) ==> pre.spec_slot().contains_key(c) || (
            code * 8 <= c <= code * 8 + 7)
    }
}

/// Borrow one node of the table mutably.
fn node_mut<B>(nodes: &mut Vec<OctreeNode<B>>, i: usize) -> (r: &mut OctreeNode<B>)
    requires
        i < old(nodes)@.len(),
    ensures
        *r == old(nodes)@[i as int],
        final(nodes)@ == old(nodes)@.update(i as int, *final(r)),
{
    &mut nodes[i]
}

/// Copy a list of item indices.
fn copy_indices(v: &Vec<usize>) -> (r: Vec<usize>)
    ensures
        r@ == v@,
{
    let mut r: Vec<usize> = Vec::new();
    let mut i: usize = 0;
    while i < v.len()
        invariant
            i <= v@.len(),
            r@ == v@.subrange(0, i as int),
        decreases v@.len() - i,
    {
        r.push(v[i]);
        i += 1;
        proof {
            assert(r@ =~= v@.subrange(0, i as int));
        }
    }
    proof {
        assert(r@ =~= v@);
    }
    r
}

impl<T: Intersects<B>, B: Octant> Octree<T, B> {
    /// Split a leaf node and redistribute its indexed items amongst the
    /// eight children leaf nodes it gains: each child receives the items
    /// that intersect its octant of the parent's bounds. A code with no
    /// allocated node is left alone.
    #[verifier::rlimit(100)]
    #[verifier::spinoff_prover]
    pub fn split(&mut self, code: u64)
        requires
            old(self).wf_structure(),
            old(self).items_in_range(),
            old(self).spec_slot().contains_key(code) ==> old(self).spec_nodes()[old(self).spec_slot()[code] as int].spec_is_leaf() && code_depth(code) < MAX_DEPTH as nat,
        ensures
            final(self).wf_structure(),
            final(self).items_in_range(),
            final(self).spec_items() == old(self).spec_items(),
            !old(self).spec_slot().contains_key(code) ==> final(self).spec_nodes() == old(self).spec_nodes() && final(self).spec_slot() == old(self).spec_slot(),
            old(self).spec_slot().contains_key(code) ==> Self::split_post(
                *old(self),
                *final(self),
                code,
            ),
    {
        let j = match self.slot.get(&code) {
            Some(j) => *j,
            None => {
                return ;
            },
        };
        let ghost pre = *old(self);
        let ghost n0 = self.nodes@.len() as int;
        proof {
            assert(pre.spec_slot().contains_key(code));
            assert(j == pre.spec_slot()[code]);
            assert(j < n0 && pre.spec_nodes()[j as int].spec_code() == code);
        }
        let children = self.nodes[j].children();
        let items = copy_indices(&self.nodes[j].items);
        let ghost parent_items = items@;
        // the children codes are not yet allocated: an allocated child would
        // force its parent, this very node, to be subdivided already
        proof {
            assert forall|k: int| 0 <= k < 8 implies !pre.spec_slot().contains_key(
                children@[k],
            ) by {
                lemma_child_code(code, k as u64);
                if pre.spec_slot().contains_key(children@[k]) {
                    let s = pre.spec_slot()[children@[k]] as int;
                    assert(pre.spec_nodes()[s].spec_code() == children@[k]);
                    assert(pre.spec_nodes()[s].spec_code() != 1);
                    assert(pre.spec_nodes()[s].spec_code() / 8 == code);
                    assert(!pre.spec_nodes()[pre.spec_slot()[code] as int].spec_is_leaf());
                }
            }
        }
        let node = node_mut(&mut self.nodes, j);
        node.is_leaf = false;
        node.items = Vec::new();
        let mut k: usize = 0;
        while k < 8
            invariant
                k <= 8,
                j < n0,
                n0 == pre.spec_nodes().len(),
                self.items@ == pre.spec_items(),
                pre.wf_structure(),
                pre.items_in_range(),
                pre.spec_slot().contains_key(code),
                j == pre.spec_slot()[code],
                pre.spec_nodes()[j as int].spec_is_leaf(),
                pre.spec_nodes()[j as int].spec_code() == code,
                parent_items == pre.spec_nodes()[j as int].spec_items(),
                valid_code(code),
                code_depth(code) < MAX_DEPTH as nat,
                children@.len() == 8,
                items@ == parent_items,
                forall|i: int|
                    0 <= i < 8 ==> children@[i] == code * 8 + i && valid_code(children@[i])
                        && code_depth(children@[i]) == code_depth(code) + 1 && children@[i] / 8
                        == code,
                forall|i: int| 0 <= i < 8 ==> !pre.spec_slot().contains_key(children@[i]),
                self.nodes@.len() == n0 + k,
                forall|i: int|
                    0 <= i < n0 && i != j ==> self.spec_nodes()[i] == pre.spec_nodes()[i],
                self.spec_nodes()[j as int].spec_code() == code,
                self.spec_nodes()[j as int].spec_bounds() == pre.spec_nodes()[
                    j as int
                ].spec_bounds(),
                !self.spec_nodes()[j as int].spec_is_leaf(),
                self.spec_nodes()[j as int].spec_items().len() == 0,
                forall|i: int|
                    0 <= i < k ==> (#[trigger] self.spec_nodes()[n0 + i]).spec_code() == code * 8
                        + i && self.spec_nodes()[n0 + i].spec_is_leaf() && self.spec_nodes()[
                        n0 + i
                    ].spec_items().len() <= parent_items.len() && forall|p: int|
                        0 <= p < self.spec_nodes()[n0 + i].spec_items().len()
                            ==> parent_items.contains(
                            #[trigger] self.spec_nodes()[n0 + i].spec_items()[p],
                        ),
                forall|c: u64|
                    #[trigger] pre.spec_slot().contains_key(c) ==> self.spec_slot().contains_key(c)
                        && self.spec_slot()[c] == pre.spec_slot()[c],
                forall|i: int|
                    0 <= i < k ==> self.spec_slot().contains_key(#[trigger] children@[i])
                        && self.spec_slot()[children@[i]] == n0 + i,
                forall|c: u64|
                    #[trigger] self.spec_slot().contains_key(c) ==> pre.spec_slot().contains_key(c)
                        || exists|i: int| 0 <= i < k && children@[i] == c,
            decreases 8 - k,
        {
            let child_code = children[k];
            let child_bounds = self.nodes[j].bounds.octant(k);
            let mut child = OctreeNode::new(child_code, child_bounds);
            let mut p: usize = 0;
            while p < items.len()
                invariant
                    p <= items@.len(),
                    items@ == parent_items,
                    self.items@ == pre.spec_items(),
                    pre.items_in_range(),
                    j < n0 <= self.nodes@.len(),
                    pre.spec_nodes().len() == n0,
                    pre.spec_slot().contains_key(code),
                    j == pre.spec_slot()[code],
                    parent_items == pre.spec_nodes()[j as int].spec_items(),
                    child.spec_code() == child_code,
                    child.spec_is_leaf(),
                    child.spec_items().len() <= p,
                    forall|q: int|
                        0 <= q < child.spec_items().len() ==> parent_items.contains(
                            #[trigger] child.spec_items()[q],
                        ),
                decreases items@.len() - p,
            {
                let ip = items[p];
                proof {
                    assert(parent_items[p as int] == ip);
                    assert(pre.spec_nodes()[j as int].spec_items()[p as int] == ip);
                    assert(ip < pre.spec_items().len());
                }
                if self.items[ip].intersects(&child.bounds) {
                    child.items.push(ip);
                    proof {
                        assert(parent_items.contains(ip));
                    }
                }
                p += 1;
            }
            let fresh = self.nodes.len();
            self.slot.insert(child_code, fresh);
            self.nodes.push(child);
            k += 1;
        }
        proof {
            let post = *final(self);
            assert forall|k2: int| 0 <= k2 < 8 implies post.spec_slot().contains_key(
                #[trigger] ((code * 8 + k2) as u64),
            ) && post.spec_slot()[(code * 8 + k2) as u64] == n0 + k2 by {
                assert(children@[k2] == (code * 8 + k2) as u64);
                assert(post.spec_slot().contains_key(children@[k2]));
            }
            assert forall|c: u64| #[trigger] post.spec_slot().contains_key(c) implies
                pre.spec_slot().contains_key(c) || (code * 8 <= c <= code * 8 + 7) by {
                if !pre.spec_slot().contains_key(c) {
                    let i = choose|i: int| 0 <= i < 8 && children@[i] == c;
                    assert(children@[i] == code * 8 + i);
                }
            }
            assert forall|k2: int| 0 <= k2 < 8 implies (#[trigger] post.spec_nodes()[
                n0 + k2
            ]).spec_code() == code * 8 + k2 && post.spec_nodes()[n0 + k2].spec_is_leaf()
                && post.spec_nodes()[n0 + k2].spec_items().len() <= pre.spec_nodes()[
                j as int
            ].spec_items().len() by {}
            assert(Self::split_post(pre, post, code));
            Self::lemma_split_reestablish(pre, post, code);
        }
    }

    /// Insert an item, indexing it on every leaf whose bounds it intersects
    /// along a search from the root, and splitting any leaf this pushes over
    /// its capacity. Returns the item's index, or `None`, leaving the tree
    /// unchanged, when no leaf recorded it: the item does not overlap the
    /// tree's bounds.
    #[verifier::rlimit(100)]
    #[verifier::spinoff_prover]
    pub fn insert(&mut self, item: T) -> (r: Option<usize>)
        requires
            old(self).wf(),
        ensures
            final(self).wf(),
            match r {
                Some(i) => {
                    &&& i == old(self).spec_items().len()
                    &&& final(self).spec_items() == old(self).spec_items().push(item)
                    &&& final(self).spec_nodes().len() >= old(self).spec_nodes().len()
                    &&& forall|c: u64|
                        #[trigger] old(self).spec_slot().contains_key(c) ==> final(self).spec_slot().contains_key(c) && final(self).spec_slot()[c] == old(self).spec_slot()[c]
                    &&& forall|j: int|
                        0 <= j < old(self).spec_nodes().len() ==> (#[trigger] final(self).spec_nodes()[j]).spec_code() == old(self).spec_nodes()[j].spec_code()
                            && final(self).spec_nodes()[j].spec_bounds() == old(self).spec_nodes()[j].spec_bounds()
                    &&& forall|j: int|
                        0 <= j < old(self).spec_nodes().len() ==> (#[trigger] final(self).spec_nodes()[j]).spec_items() == old(self).spec_nodes()[j].spec_items()
                            || final(self).spec_nodes()[j].spec_items() == old(self).spec_nodes()[j].spec_items().push(i) || (final(self).spec_nodes()[
                            j
                        ].spec_items().len() == 0 && !final(self).spec_nodes()[j].spec_is_leaf())
                },
                None => {
                    &&& final(self).spec_items() == old(self).spec_items()
                    &&& final(self).spec_slot() == old(self).spec_slot()
                    &&& Self::same_nodes(final(self).spec_nodes(), old(self).spec_nodes())
                },
            },
    {
        let ghost pre = *old(self);
        let ghost n = pre.spec_nodes().len() as int;
        let index = self.items.len();
        let mut queue: Vec<u64> = Vec::new();
        queue.push(1u64);
        let mut codes: Vec<u64> = Vec::new();
        let ghost mut processed: Set<int> = Set::empty();
        proof {
            vstd::set_lib::lemma_int_range(0, n);
            assert(processed.subset_of(vstd::set_lib::set_int_range(0, n)));
            vstd::set_lib::lemma_len_subset(processed, vstd::set_lib::set_int_range(0, n));
        }
        while queue.len() > 0
            invariant
                pre.wf(),
                n == pre.spec_nodes().len(),
                index == pre.spec_items().len(),
                self.spec_slot() == pre.spec_slot(),
                self.spec_items() == pre.spec_items(),
                self.spec_nodes().len() == n,
                forall|i: int|
                    0 <= i < n ==> (#[trigger] self.spec_nodes()[i]).spec_code()
                        == pre.spec_nodes()[i].spec_code() && self.spec_nodes()[i].spec_is_leaf()
                        == pre.spec_nodes()[i].spec_is_leaf() && self.spec_nodes()[
                        i
                    ].spec_bounds() == pre.spec_nodes()[i].spec_bounds(),
                forall|i: int|
                    0 <= i < n && codes@.contains(#[trigger] self.spec_nodes()[i].spec_code())
                        ==> self.spec_nodes()[i].spec_items() == pre.spec_nodes()[
                        i
                    ].spec_items().push(index),
                forall|i: int|
                    0 <= i < n && !codes@.contains(#[trigger] self.spec_nodes()[i].spec_code())
                        ==> self.spec_nodes()[i].spec_items() == pre.spec_nodes()[i].spec_items(),
                forall|x: int|
                    0 <= x < codes@.len() ==> pre.spec_slot().contains_key(#[trigger] codes@[x])
                        && pre.spec_nodes()[pre.spec_slot()[codes@[x]] as int].spec_is_leaf()
                        && processed.contains(pre.spec_slot()[codes@[x]] as int),
                forall|x: int|
                    0 <= x < queue@.len() ==> pre.spec_slot().contains_key(#[trigger] queue@[x]),
                forall|x: int|
                    0 <= x < queue@.len() ==> !processed.contains(
                        pre.spec_slot()[#[trigger] queue@[x]] as int,
                    ),
                forall|x: int, y: int| 0 <= x < y < queue@.len() ==> queue@[x] != queue@[y],
                forall|x: int|
                    0 <= x < queue@.len() && #[trigger] queue@[x] != 1
                        ==> pre.spec_slot().contains_key(queue@[x] / 8) && processed.contains(
                        pre.spec_slot()[queue@[x] / 8] as int,
                    ),
                processed.finite(),
                processed.len() <= n,
                forall|s: int| #[trigger] processed.contains(s) ==> 0 <= s < n,
                forall|s: int|
                    #[trigger] processed.contains(s) && pre.spec_nodes()[s].spec_code() != 1
                        ==> pre.spec_slot().contains_key(pre.spec_nodes()[s].spec_code() / 8)
                        && processed.contains(
                        pre.spec_slot()[pre.spec_nodes()[s].spec_code() / 8] as int,
                    ),
            decreases n - processed.len(), queue@.len(),
        {
            let code = queue.pop().unwrap();
            let ghost qrest = queue@;
            let j = *self.slot.get(&code).unwrap();
            let ghost processed0 = processed;
            proof {
                assert(pre.spec_slot().contains_key(code));
                assert(j == pre.spec_slot()[code]);
                assert(j < n && pre.spec_nodes()[j as int].spec_code() == code);
                assert(!processed.contains(j as int));
                processed = processed.insert(j as int);
                vstd::set_lib::lemma_int_range(0, n);
                assert(processed.subset_of(vstd::set_lib::set_int_range(0, n)));
                vstd::set_lib::lemma_len_subset(processed, vstd::set_lib::set_int_range(0, n));
                if code != 1 {
                    assert(processed.contains(pre.spec_slot()[code / 8] as int));
                }
            }
            if item.intersects(&self.nodes[j].bounds) {
                if self.nodes[j].is_leaf {
                    let ghost codes0 = codes@;
                    let node = node_mut(&mut self.nodes, j);
                    node.items.push(index);
                    codes.push(code);
                    proof {
                        assert(codes@ == codes0.push(code));
                        assert(codes@[codes@.len() - 1] == code);
                        assert(codes@.contains(code));
                        assert(!codes0.contains(code)) by {
                            if codes0.contains(code) {
                                let x = choose|x: int|
                                    0 <= x < codes0.len() && codes0[x] == code;
                                assert(processed0.contains(pre.spec_slot()[codes0[x]] as int));
                            }
                        }
                        assert forall|i: int|
                            0 <= i < n && codes@.contains(
                                #[trigger] self.spec_nodes()[i].spec_code(),
                            ) implies self.spec_nodes()[i].spec_items() == pre.spec_nodes()[
                            i
                        ].spec_items().push(index) by {
                            let c2 = self.spec_nodes()[i].spec_code();
                            if i != j {
                                assert(pre.spec_nodes()[i].spec_code() == c2);
                                assert(c2 != code);
                                if codes0.contains(c2) {
                                } else {
                                    let x = choose|x: int|
                                        0 <= x < codes@.len() && codes@[x] == c2;
                                    assert(codes@[codes@.len() - 1] == code);
                                    assert(x < codes0.len() && codes0[x] == c2);
                                }
                            }
                        }
                        assert forall|i: int|
                            0 <= i < n && !codes@.contains(
                                #[trigger] self.spec_nodes()[i].spec_code(),
                            ) implies self.spec_nodes()[i].spec_items() == pre.spec_nodes()[
                            i
                        ].spec_items() by {
                            if i != j {
                                if codes0.contains(self.spec_nodes()[i].spec_code()) {
                                    let x = choose|x: int|
                                        0 <= x < codes0.len() && codes0[x] == self.spec_nodes()[
                                            i
                                        ].spec_code();
                                    assert(codes@[x] == codes0[x]);
                                }
                            }
                        }
                        assert forall|x: int| 0 <= x < codes@.len() implies
                            pre.spec_slot().contains_key(#[trigger] codes@[x])
                            && pre.spec_nodes()[pre.spec_slot()[codes@[x]] as int].spec_is_leaf()
                            && processed.contains(pre.spec_slot()[codes@[x]] as int) by {
                            if x < codes0.len() {
                                assert(codes@[x] == codes0[x]);
                            } else {
                                assert(codes@[x] == code);
                            }
                        }
                    }
                } else {
                    let mut children = self.nodes[j].children();
                    let ghost ch = children@;
                    queue.append(&mut children);
                    proof {
                        assert(queue@ == qrest + ch);
                        assert(!pre.spec_nodes()[j as int].spec_is_leaf());
                        assert(code_depth(code) < MAX_DEPTH as nat);
                        assert forall|x: int| 0 <= x < queue@.len() implies
                            pre.spec_slot().contains_key(#[trigger] queue@[x]) by {
                            if x >= qrest.len() {
                                let k2 = (x - qrest.len()) as u64;
                                assert(queue@[x] == ch[x - qrest.len()]);
                                assert(ch[x - qrest.len()] == code * 8 + k2);
                                assert(pre.spec_slot().contains_key(((code * 8 + k2) as u64)));
                            }
                        }
                        assert forall|x: int| 0 <= x < queue@.len() implies !processed.contains(
                            pre.spec_slot()[#[trigger] queue@[x]] as int,
                        ) by {
                            if x < qrest.len() {
                                assert(queue@[x] == qrest[x]);
                            } else {
                                let c2 = queue@[x];
                                assert(c2 == ch[x - qrest.len()]);
                                assert(c2 / 8 == code && c2 >= 8);
                                let s = pre.spec_slot()[c2] as int;
                                assert(pre.spec_nodes()[s].spec_code() == c2);
                                if processed.contains(s) {
                                    if s == j {
                                        assert(pre.spec_nodes()[s].spec_code() == code);
                                        assert(c2 != code);
                                    } else {
                                        assert(processed0.contains(s));
                                        assert(pre.spec_nodes()[s].spec_code() != 1);
                                        assert(processed0.contains(pre.spec_slot()[c2 / 8] as int));
                                        assert(pre.spec_slot()[code] == j);
                                        assert(!processed0.contains(j as int));
                                    }
                                }
                            }
                        }
                        assert forall|x: int, y: int| 0 <= x < y < queue@.len() implies queue@[x]
                            != queue@[y] by {
                            if y >= qrest.len() {
                                let cy = ch[y - qrest.len()];
                                assert(cy == code * 8 + (y - qrest.len()));
                                if x >= qrest.len() {
                                    assert(ch[x - qrest.len()] == code * 8 + (x - qrest.len()));
                                } else {
                                    // an old entry equal to a fresh child would have had
                                    // its parent processed before this step
                                    let cx = qrest[x];
                                    assert(queue@[x] == cx);
                                    if cx == cy {
                                        lemma_child_code(code, (y - qrest.len()) as u64);
                                        assert(cx != 1) by {
                                            assert(cy >= 8);
                                        }
                                        assert(cx / 8 == code);
                                        assert(processed0.contains(pre.spec_slot()[code] as int));
                                        assert(!processed0.contains(j as int));
                                    }
                                }
                            }
                        }
                        assert forall|x: int|
                            0 <= x < queue@.len() && #[trigger] queue@[x] != 1 implies
                            pre.spec_slot().contains_key(queue@[x] / 8) && processed.contains(
                            pre.spec_slot()[queue@[x] / 8] as int,
                        ) by {
                            if x < qrest.len() {
                                assert(queue@[x] == qrest[x]);
                            } else {
                                let k2 = (x - qrest.len()) as u64;
                                lemma_child_code(code, k2);
                                assert(queue@[x] == ch[x - qrest.len()]);
                                assert(queue@[x] / 8 == code);
                            }
                        }
                    }
                }
            }
        }
        if codes.len() == 0 {
            proof {
                assert forall|i: int| 0 <= i < n implies !codes@.contains(
                    #[trigger] self.spec_nodes()[i].spec_code(),
                ) by {}
                assert(Self::same_nodes(self.spec_nodes(), pre.spec_nodes()));
            }
            return None;
        }
        self.items.push(item);
        let ghost mid = *self;
        proof {
            assert(mid.spec_items() == pre.spec_items().push(item));
            assert(mid.wf_structure()) by {
                assert(mid.slots_ok());
            }
            assert(mid.items_in_range()) by {
                assert forall|i: int, p: int|
                    0 <= i < mid.spec_nodes().len() && 0 <= p < mid.spec_nodes()[
                    i
                ].spec_items().len() implies #[trigger] mid.spec_nodes()[i].spec_items()[p]
                    < mid.spec_items().len() by {
                    if codes@.contains(mid.spec_nodes()[i].spec_code()) {
                        if p < pre.spec_nodes()[i].spec_items().len() {
                            assert(pre.spec_nodes()[i].spec_items()[p] < index);
                        } else {
                            assert(mid.spec_nodes()[i].spec_items()[p] == index);
                        }
                    } else {
                        assert(pre.spec_nodes()[i].spec_items()[p] < index);
                    }
                }
            }
        }
        let ghost mid = *self;
        proof {
            assert forall|j: int| 0 <= j < n implies (#[trigger] mid.spec_nodes()[j]).spec_items()
                == pre.spec_nodes()[j].spec_items() || mid.spec_nodes()[j].spec_items()
                == pre.spec_nodes()[j].spec_items().push(index) by {
                if codes@.contains(mid.spec_nodes()[j].spec_code()) {
                } else {
                }
            }
        }
        let mut k: usize = 0;
        while k < codes.len()
            invariant
                pre.wf(),
                n == pre.spec_nodes().len(),
                index == pre.spec_items().len(),
                k <= codes@.len(),
                self.wf_structure(),
                self.items_in_range(),
                self.spec_nodes().len() >= n,
                forall|c: u64|
                    #[trigger] pre.spec_slot().contains_key(c) ==> self.spec_slot().contains_key(c)
                        && self.spec_slot()[c] == pre.spec_slot()[c],
                forall|j: int|
                    0 <= j < n ==> (#[trigger] self.spec_nodes()[j]).spec_code()
                        == pre.spec_nodes()[j].spec_code() && self.spec_nodes()[j].spec_bounds()
                        == pre.spec_nodes()[j].spec_bounds(),
                forall|j: int|
                    0 <= j < n ==> (#[trigger] self.spec_nodes()[j]).spec_items()
                        == pre.spec_nodes()[j].spec_items() || self.spec_nodes()[j].spec_items()
                        == pre.spec_nodes()[j].spec_items().push(index) || (self.spec_nodes()[
                        j
                    ].spec_items().len() == 0 && !self.spec_nodes()[j].spec_is_leaf()),
                self.spec_items() == pre.spec_items().push(item),
                forall|x: int|
                    k <= x < codes@.len() ==> self.spec_slot().contains_key(#[trigger] codes@[x]),
                forall|i: int|
                    0 <= i < self.spec_nodes().len() && (#[trigger] self.spec_nodes()[
                    i
                ].spec_is_leaf()) && code_depth(self.spec_nodes()[i].spec_code())
                    < MAX_DEPTH as nat ==> self.spec_nodes()[i].spec_items().len()
                    <= MAX_ITEMS_PER_NODE as nat + code_depth(self.spec_nodes()[i].spec_code())
                    + 1,
                forall|i: int|
                    0 <= i < self.spec_nodes().len() && (#[trigger] self.spec_nodes()[
                    i
                ].spec_is_leaf()) && code_depth(self.spec_nodes()[i].spec_code())
                    < MAX_DEPTH as nat && self.spec_nodes()[i].spec_items().len()
                    > MAX_ITEMS_PER_NODE as nat + code_depth(self.spec_nodes()[i].spec_code())
                    ==> exists|x: int|
                    k <= x < codes@.len() && codes@[x] == self.spec_nodes()[i].spec_code(),
            decreases codes@.len() - k,
        {
            let code = codes[k];
            let j = *self.slot.get(&code).unwrap();
            let ghost at = *self;
            if self.nodes[j].should_split() {
                self.split(code);
                proof {
                    assert(Self::split_post(at, *self, code));
                    let oj = at.spec_slot()[code] as int;
                    let n1 = at.spec_nodes().len() as int;
                    assert forall|i: int|
                        0 <= i < self.spec_nodes().len() && (#[trigger] self.spec_nodes()[
                        i
                    ].spec_is_leaf()) && code_depth(self.spec_nodes()[i].spec_code())
                        < MAX_DEPTH as nat implies self.spec_nodes()[i].spec_items().len()
                        <= MAX_ITEMS_PER_NODE as nat + code_depth(self.spec_nodes()[i].spec_code())
                        + 1 by {
                        if i < n1 && i != oj {
                            assert(self.spec_nodes()[i] == at.spec_nodes()[i]);
                        } else if i >= n1 {
                            let k2 = i - n1;
                            assert((#[trigger] self.spec_nodes()[n1 + k2]).spec_items().len()
                                <= at.spec_nodes()[oj].spec_items().len());
                            lemma_child_code(code, k2 as u64);
                            assert(self.spec_nodes()[i].spec_code() == code * 8 + k2);
                            assert(code_depth(self.spec_nodes()[i].spec_code()) == code_depth(code)
                                + 1);
                        }
                    }
                    assert forall|i: int|
                        0 <= i < self.spec_nodes().len() && (#[trigger] self.spec_nodes()[
                        i
                    ].spec_is_leaf()) && code_depth(self.spec_nodes()[i].spec_code())
                        < MAX_DEPTH as nat && self.spec_nodes()[i].spec_items().len()
                        > MAX_ITEMS_PER_NODE as nat + code_depth(self.spec_nodes()[i].spec_code())
                        implies exists|x: int|
                        k + 1 <= x < codes@.len() && codes@[x] == self.spec_nodes()[i].spec_code() by {
                        if i < n1 {
                            if i != oj {
                                assert(self.spec_nodes()[i] == at.spec_nodes()[i]);
                                let x = choose|x: int|
                                    k <= x < codes@.len() && codes@[x] == at.spec_nodes()[i].spec_code();
                                assert(x != k) by {
                                    if codes@[x] == code {
                                        assert(at.spec_slot()[code] == oj);
                                        assert(at.spec_nodes()[i].spec_code() == code ==> i == oj);
                                    }
                                }
                            }
                        } else {
                            let k2 = i - n1;
                            assert((#[trigger] self.spec_nodes()[n1 + k2]).spec_items().len()
                                <= at.spec_nodes()[oj].spec_items().len());
                            lemma_child_code(code, k2 as u64);
                            assert(code_depth(self.spec_nodes()[i].spec_code()) == code_depth(code)
                                + 1);
                            assert(at.spec_nodes()[oj].spec_items().len()
                                <= MAX_ITEMS_PER_NODE as nat + code_depth(code) + 1);
                            assert(false);
                        }
                    }
                }
            } else {
                proof {
                    assert forall|i: int|
                        0 <= i < self.spec_nodes().len() && (#[trigger] self.spec_nodes()[
                        i
                    ].spec_is_leaf()) && code_depth(self.spec_nodes()[i].spec_code())
                        < MAX_DEPTH as nat && self.spec_nodes()[i].spec_items().len()
                        > MAX_ITEMS_PER_NODE as nat + code_depth(self.spec_nodes()[i].spec_code())
                        implies exists|x: int|
                        k + 1 <= x < codes@.len() && codes@[x] == self.spec_nodes()[i].spec_code() by {
                        let x = choose|x: int|
                            k <= x < codes@.len() && codes@[x] == self.spec_nodes()[i].spec_code();
                        if x == k {
                            assert(self.spec_nodes()[i].spec_code() == code);
                            assert(at.spec_slot()[code] == j as usize);
                            assert(i == j as int);
                        }
                    }
                }
            }
            k += 1;
        }
        proof {
            assert(self.size_bounded()) by {
                assert forall|i: int|
                    0 <= i < self.spec_nodes().len() && (#[trigger] self.spec_nodes()[
                    i
                ].spec_is_leaf()) && code_depth(self.spec_nodes()[i].spec_code())
                    < MAX_DEPTH as nat implies self.spec_nodes()[i].spec_items().len()
                    <= MAX_ITEMS_PER_NODE as nat + code_depth(
                    self.spec_nodes()[i].spec_code(),
                ) by {}
            }
        }
        Some(index)
    }

    /// Find the indices of the items that intersect the query, walking the
    /// tree from the root and pruning every subtree whose bounds the query
    /// does not intersect. An item straddling several leaves is reported
    /// once: candidates are de-duplicated before the result is returned.
    #[verifier::rlimit(100)]
    #[verifier::spinoff_prover]
    pub fn query<Q: Intersects<B>>(&self, query: &Q) -> (r: Vec<usize>) where T: Intersects<Q>
        requires
            self.wf(),
        ensures
            forall|x: int| 0 <= x < r@.len() ==> r@[x] < self.spec_items().len(),
            forall|x: int, y: int| 0 <= x < y < r@.len() ==> r@[x] != r@[y],
            forall|x: int|
                0 <= x < r@.len() ==> Self::in_some_leaf(self.spec_nodes(), #[trigger] r@[x]),
    {
        let ghost n = self.spec_nodes().len() as int;
        let nitems = self.items.len();
        let mut seen: Vec<bool> = Vec::new();
        let mut w: usize = 0;
        while w < nitems
            invariant
                w <= nitems,
                seen@.len() == w,
            decreases nitems - w,
        {
            seen.push(false);
            w += 1;
        }
        let mut r: Vec<usize> = Vec::new();
        let mut queue: Vec<u64> = Vec::new();
        queue.push(1u64);
        let ghost mut processed: Set<int> = Set::empty();
        proof {
            vstd::set_lib::lemma_int_range(0, n);
            assert(processed.subset_of(vstd::set_lib::set_int_range(0, n)));
            vstd::set_lib::lemma_len_subset(processed, vstd::set_lib::set_int_range(0, n));
        }
        while queue.len() > 0
            invariant
                self.wf(),
                n == self.spec_nodes().len(),
                nitems == self.spec_items().len(),
                seen@.len() == nitems,
                forall|x: int| 0 <= x < r@.len() ==> #[trigger] r@[x] < nitems,
                forall|x: int| 0 <= x < r@.len() ==> seen@[#[trigger] r@[x] as int],
                forall|x: int, y: int| 0 <= x < y < r@.len() ==> r@[x] != r@[y],
                forall|x: int|
                    0 <= x < r@.len() ==> Self::in_some_leaf(self.spec_nodes(), #[trigger] r@[x]),
                forall|x: int|
                    0 <= x < queue@.len() ==> self.spec_slot().contains_key(#[trigger] queue@[x]),
                forall|x: int|
                    0 <= x < queue@.len() ==> !processed.contains(
                        self.spec_slot()[#[trigger] queue@[x]] as int,
                    ),
                forall|x: int, y: int| 0 <= x < y < queue@.len() ==> queue@[x] != queue@[y],
                forall|x: int|
                    0 <= x < queue@.len() && #[trigger] queue@[x] != 1
                        ==> self.spec_slot().contains_key(queue@[x] / 8) && processed.contains(
                        self.spec_slot()[queue@[x] / 8] as int,
                    ),
                processed.finite(),
                processed.len() <= n,
                forall|s: int| #[trigger] processed.contains(s) ==> 0 <= s < n,
                forall|s: int|
                    #[trigger] processed.contains(s) && self.spec_nodes()[s].spec_code() != 1
                        ==> self.spec_slot().contains_key(self.spec_nodes()[s].spec_code() / 8)
                        && processed.contains(
                        self.spec_slot()[self.spec_nodes()[s].spec_code() / 8] as int,
                    ),
            decreases n - processed.len(), queue@.len(),
        {
            let code = queue.pop().unwrap();
            let ghost qrest = queue@;
            let j = *self.slot.get(&code).unwrap();
            let ghost processed0 = processed;
            proof {
                assert(j == self.spec_slot()[code]);
                assert(j < n && self.spec_nodes()[j as int].spec_code() == code);
                assert(!processed.contains(j as int));
                processed = processed.insert(j as int);
                vstd::set_lib::lemma_int_range(0, n);
                assert(processed.subset_of(vstd::set_lib::set_int_range(0, n)));
                vstd::set_lib::lemma_len_subset(processed, vstd::set_lib::set_int_range(0, n));
            }
            if query.intersects(&self.nodes[j].bounds) {
                if self.nodes[j].is_leaf {
                    let node_items_len = self.nodes[j].items.len();
                    let mut p: usize = 0;
                    while p < node_items_len
                        invariant
                            self.wf(),
                            n == self.spec_nodes().len(),
                            nitems == self.spec_items().len(),
                            0 <= j < n,
                            node_items_len == self.spec_nodes()[j as int].spec_items().len(),
                            p <= node_items_len,
                            seen@.len() == nitems,
                            forall|x: int| 0 <= x < r@.len() ==> #[trigger] r@[x] < nitems,
                            forall|x: int| 0 <= x < r@.len() ==> seen@[#[trigger] r@[x] as int],
                            forall|x: int, y: int| 0 <= x < y < r@.len() ==> r@[x] != r@[y],
                            self.spec_nodes()[j as int].spec_is_leaf(),
                            forall|x: int|
                                0 <= x < r@.len() ==> Self::in_some_leaf(
                                    self.spec_nodes(),
                                    #[trigger] r@[x],
                                ),
                        decreases node_items_len - p,
                    {
                        let ip = self.nodes[j].items[p];
                        proof {
                            assert(self.spec_nodes()[j as int].spec_items()[p as int] < nitems);
                        }
                        if !seen[ip] {
                            if self.items[ip].intersects(query) {
                                let ghost r0 = r@;
                                r.push(ip);
                                proof {
                                    assert forall|x: int, y: int|
                                        0 <= x < y < r@.len() implies r@[x] != r@[y] by {
                                        if y == r@.len() - 1 {
                                            assert(r@[x] == r0[x]);
                                            assert(seen@[r0[x] as int]);
                                        }
                                    }
                                    assert(self.spec_nodes()[j as int].spec_items()[p as int]
                                        == ip);
                                    assert(self.spec_nodes()[j as int].spec_items().contains(
                                        ip as usize,
                                    ));
                                    assert(Self::in_some_leaf(self.spec_nodes(), ip)) by {
                                        assert(self.spec_nodes()[j as int].spec_is_leaf());
                                        assert(self.spec_nodes()[j as int].spec_items().contains(
                                            ip,
                                        ));
                                    }
                                    assert forall|x: int| 0 <= x < r@.len() implies
                                        Self::in_some_leaf(
                                        self.spec_nodes(),
                                        #[trigger] r@[x],
                                    ) by {
                                        if x < r0.len() {
                                            assert(r@[x] == r0[x]);
                                        } else {
                                            assert(r@[x] == ip);
                                        }
                                    }
                                }
                            }
                            seen.set(ip, true);
                            proof {
                                assert forall|x: int| 0 <= x < r@.len() implies seen@[
                                    #[trigger] r@[x] as int
                                ] by {}
                            }
                        }
                        p += 1;
                    }
                } else {
                    proof {
                        assert(!self.spec_nodes()[j as int].spec_is_leaf());
                        assert(code_depth(code) < MAX_DEPTH as nat);
                    }
                    let mut children = self.nodes[j].children();
                    let ghost ch = children@;
                    queue.append(&mut children);
                    proof {
                        assert(queue@ == qrest + ch);
                        assert forall|x: int| 0 <= x < queue@.len() implies
                            self.spec_slot().contains_key(#[trigger] queue@[x]) by {
                            if x >= qrest.len() {
                                let k2 = (x - qrest.len()) as u64;
                                assert(queue@[x] == ch[x - qrest.len()]);
                                assert(ch[x - qrest.len()] == code * 8 + k2);
                                assert(self.spec_slot().contains_key(((code * 8 + k2) as u64)));
                            }
                        }
                        assert forall|x: int| 0 <= x < queue@.len() implies !processed.contains(
                            self.spec_slot()[#[trigger] queue@[x]] as int,
                        ) by {
                            if x < qrest.len() {
                                assert(queue@[x] == qrest[x]);
                            } else {
                                let c2 = queue@[x];
                                assert(c2 == ch[x - qrest.len()]);
                                assert(c2 / 8 == code && c2 >= 8);
                                let s = self.spec_slot()[c2] as int;
                                assert(self.spec_nodes()[s].spec_code() == c2);
                                if processed.contains(s) {
                                    if s == j {
                                        assert(self.spec_nodes()[s].spec_code() == code);
                                        assert(c2 != code);
                                    } else {
                                        assert(processed0.contains(s));
                                        assert(self.spec_nodes()[s].spec_code() != 1);
                                        assert(processed0.contains(
                                            self.spec_slot()[c2 / 8] as int,
                                        ));
                                        assert(self.spec_slot()[code] == j);
                                        assert(!processed0.contains(j as int));
                                    }
                                }
                            }
                        }
                        assert forall|x: int, y: int| 0 <= x < y < queue@.len() implies queue@[x]
                            != queue@[y] by {
                            if y >= qrest.len() {
                                let cy = ch[y - qrest.len()];
                                assert(cy == code * 8 + (y - qrest.len()));
                                if x >= qrest.len() {
                                    assert(ch[x - qrest.len()] == code * 8 + (x - qrest.len()));
                                } else {
                                    let cx = qrest[x];
                                    assert(queue@[x] == cx);
                                    if cx == cy {
                                        lemma_child_code(code, (y - qrest.len()) as u64);
                                        assert(cx != 1) by {
                                            assert(cy >= 8);
                                        }
                                        assert(cx / 8 == code);
                                        assert(processed0.contains(self.spec_slot()[code] as int));
                                        assert(!processed0.contains(j as int));
                                    }
                                }
                            }
                        }
                        assert forall|x: int|
                            0 <= x < queue@.len() && #[trigger] queue@[x] != 1 implies
                            self.spec_slot().contains_key(queue@[x] / 8) && processed.contains(
                            self.spec_slot()[queue@[x] / 8] as int,
                        ) by {
                            if x < qrest.len() {
                                assert(queue@[x] == qrest[x]);
                            } else {
                                let k2 = (x - qrest.len()) as u64;
                                lemma_child_code(code, k2);
                                assert(queue@[x] == ch[x - qrest.len()]);
                                assert(queue@[x] / 8 == code);
                            }
                        }
                    }
                }
            }
        }
        r
    }

    /// Find, for each query, the indices of the items that intersect it.
    pub fn query_many<Q: Intersects<B>>(&self, queries: &[Q]) -> (r: Vec<Vec<usize>>) where
        T: Intersects<Q>,

        requires
            self.wf(),
        ensures
            r@.len() == queries@.len(),
            forall|i: int, x: int|
                0 <= i < r@.len() && 0 <= x < r@[i]@.len() ==> #[trigger] r@[i]@[x]
                    < self.spec_items().len(),
    {
        let mut r: Vec<Vec<usize>> = Vec::new();
        let mut i: usize = 0;
        while i < queries.len()
            invariant
                self.wf(),
                i <= queries@.len(),
                r@.len() == i,
                forall|k: int, x: int|
                    0 <= k < r@.len() && 0 <= x < r@[k]@.len() ==> #[trigger] r@[k]@[x]
                        < self.spec_items().len(),
            decreases queries@.len() - i,
        {
            let one = self.query(&queries[i]);
            r.push(one);
            i += 1;
        }
        r
    }

    /// A split that satisfies `split_post` preserves the structural
    /// invariant and keeps every recorded item index in range.
    #[verifier::rlimit(100)]
    #[verifier::spinoff_prover]
    proof fn lemma_split_reestablish(pre: Octree<T, B>, post: Octree<T, B>, code: u64)
        requires
            pre.wf_structure(),
            pre.items_in_range(),
            pre.spec_slot().contains_key(code),
            pre.spec_nodes()[pre.spec_slot()[code] as int].spec_is_leaf(),
            code_depth(code) < MAX_DEPTH as nat,
            post.spec_items() == pre.spec_items(),
            Self::split_post(pre, post, code),
        ensures
            post.wf_structure(),
            post.items_in_range(),
    {
        let j = pre.spec_slot()[code] as int;
        let n0 = pre.spec_nodes().len() as int;
        assert(pre.spec_nodes()[j].spec_code() == code);
        assert(valid_code(code));
        let parent_items = pre.spec_nodes()[j].spec_items();
        assert(post.slots_ok()) by {
            assert forall|i: int| 0 <= i < post.spec_nodes().len() implies
                post.spec_slot().contains_key(#[trigger] post.spec_nodes()[i].spec_code())
                && post.spec_slot()[post.spec_nodes()[i].spec_code()] == i by {
                if i < n0 {
                    if i != j {
                        assert(post.spec_nodes()[i] == pre.spec_nodes()[i]);
                    }
                    assert(pre.spec_slot().contains_key(pre.spec_nodes()[i].spec_code()));
                    assert(pre.spec_slot()[pre.spec_nodes()[i].spec_code()] == i);
                } else {
                    let k2 = i - n0;
                    assert(post.spec_nodes()[n0 + k2].spec_code() == code * 8 + k2);
                    assert(post.spec_nodes()[i].spec_code() == code * 8 + k2);
                    assert(post.spec_slot().contains_key(((code * 8 + k2) as u64)));
                }
            }
            assert forall|c: u64| #[trigger] post.spec_slot().contains_key(c) implies
                post.spec_slot()[c] < post.spec_nodes().len() && post.spec_nodes()[
                post.spec_slot()[c] as int
            ].spec_code() == c by {
                if pre.spec_slot().contains_key(c) {
                    assert(pre.spec_slot()[c] < n0);
                    if pre.spec_slot()[c] != j {
                        assert(post.spec_nodes()[pre.spec_slot()[c] as int] == pre.spec_nodes()[
                            pre.spec_slot()[c] as int
                        ]);
                    }
                } else {
                    let k2 = c - code * 8;
                    assert(0 <= k2 < 8);
                    assert(c == (code * 8 + k2) as u64);
                    assert(post.spec_slot()[(code * 8 + k2) as u64] == n0 + k2);
                    assert(post.spec_nodes()[n0 + k2].spec_code() == code * 8 + k2);
                }
            }
        }
        assert forall|i: int| 0 <= i < post.spec_nodes().len() implies valid_code(
            #[trigger] post.spec_nodes()[i].spec_code(),
        ) by {
            if i < n0 {
                if i != j {
                    assert(post.spec_nodes()[i] == pre.spec_nodes()[i]);
                }
                assert(valid_code(pre.spec_nodes()[i].spec_code()));
            } else {
                let k2 = i - n0;
                assert(post.spec_nodes()[n0 + k2].spec_code() == code * 8 + k2);
                lemma_child_code(code, k2 as u64);
            }
        }
        assert forall|i: int|
            0 <= i < post.spec_nodes().len() && post.spec_nodes()[i].spec_code() != 1 implies
            post.spec_slot().contains_key(#[trigger] post.spec_nodes()[i].spec_code() / 8)
            && !post.spec_nodes()[
            post.spec_slot()[post.spec_nodes()[i].spec_code() / 8] as int
        ].spec_is_leaf() by {
            if i < n0 {
                if i != j {
                    assert(post.spec_nodes()[i] == pre.spec_nodes()[i]);
                }
                if post.spec_nodes()[i].spec_code() != 1 {
                    let pc = pre.spec_nodes()[i].spec_code() / 8;
                    assert(pre.spec_slot().contains_key(pc));
                    let pj = pre.spec_slot()[pc] as int;
                    assert(!pre.spec_nodes()[pj].spec_is_leaf());
                    assert(pj != j);
                    assert(post.spec_nodes()[pj] == pre.spec_nodes()[pj]);
                    assert(post.spec_slot()[pc] == pj);
                }
            } else {
                let k2 = i - n0;
                assert(post.spec_nodes()[n0 + k2].spec_code() == code * 8 + k2);
                lemma_child_code(code, k2 as u64);
                assert(post.spec_nodes()[i].spec_code() == code * 8 + k2);
                assert(post.spec_nodes()[i].spec_code() / 8 == code);
                assert(post.spec_slot()[code] == j);
            }
        }
        assert forall|i: int|
            0 <= i < post.spec_nodes().len() && !(#[trigger] post.spec_nodes()[
            i
        ].spec_is_leaf()) implies code_depth(post.spec_nodes()[i].spec_code())
            < MAX_DEPTH as nat && forall|k2: u64|
            k2 < 8 ==> post.spec_slot().contains_key(
                #[trigger] ((post.spec_nodes()[i].spec_code() * 8 + k2) as u64),
            ) by {
            if i < n0 && i != j {
                assert(post.spec_nodes()[i] == pre.spec_nodes()[i]);
                assert forall|k2: u64| k2 < 8 implies post.spec_slot().contains_key(
                    #[trigger] ((post.spec_nodes()[i].spec_code() * 8 + k2) as u64),
                ) by {
                    assert(pre.spec_slot().contains_key(
                        ((pre.spec_nodes()[i].spec_code() * 8 + k2) as u64),
                    ));
                }
            } else if i == j {
                assert forall|k2: u64| k2 < 8 implies post.spec_slot().contains_key(
                    #[trigger] ((post.spec_nodes()[i].spec_code() * 8 + k2) as u64),
                ) by {
                    assert(post.spec_slot().contains_key(((code * 8 + k2) as u64)));
                }
            } else {
                // an appended child is a leaf
                let k2 = i - n0;
                assert(post.spec_nodes()[n0 + k2].spec_is_leaf());
                assert(post.spec_nodes()[i].spec_is_leaf());
            }
        }
        assert forall|i: int|
            0 <= i < post.spec_nodes().len() && !(#[trigger] post.spec_nodes()[
            i
        ].spec_is_leaf()) implies post.spec_nodes()[i].spec_items().len() == 0 by {
            if i < n0 && i != j {
                assert(post.spec_nodes()[i] == pre.spec_nodes()[i]);
            } else if i >= n0 {
                let k2 = i - n0;
                assert(post.spec_nodes()[n0 + k2].spec_is_leaf());
                assert(post.spec_nodes()[i].spec_is_leaf());
            }
        }
        assert(post.items_in_range()) by {
            assert forall|i: int, p: int|
                0 <= i < post.spec_nodes().len() && 0 <= p < post.spec_nodes()[
                i
            ].spec_items().len() implies #[trigger] post.spec_nodes()[i].spec_items()[p]
                < post.spec_items().len() by {
                if i < n0 {
                    if i != j {
                        assert(post.spec_nodes()[i] == pre.spec_nodes()[i]);
                    }
                } else {
                    let k2 = i - n0;
                    assert(parent_items.contains(post.spec_nodes()[n0 + k2].spec_items()[p]));
                    assert(parent_items.contains(post.spec_nodes()[i].spec_items()[p]));
                    let q = choose|q: int|
                        0 <= q < parent_items.len() && parent_items[q] == post.spec_nodes()[
                            i
                        ].spec_items()[p];
                    assert(pre.spec_nodes()[j].spec_items()[q] < pre.spec_items().len());
                }
            }
        }
    }
}

impl<T: Intersects<B> + Intersects<Q>, B: Octant, Q: Intersects<B>> crate::spatial::Query<
    Q,
> for Octree<T, B> {
    open spec fn query_pre(&self) -> bool {
        self.wf()
    }

    fn query(&self, query: &Q) -> Vec<usize> {
        Octree::query(self, query)
    }
}

impl<T: Intersects<B> + Intersects<Q>, B: Octant, Q: Intersects<B>> crate::spatial::QueryMany<
    Q,
> for Octree<T, B> {
    open spec fn query_many_pre(&self) -> bool {
        self.wf()
    }

    fn query_many(&self, queries: &[Q]) -> Vec<Vec<usize>> {
        Octree::query_many(self, queries)
    }
}

} // verus!