//! The mathematical picture of a tree: a sequence of slots, each empty or
//! holding a node, and the index of the root.
use vstd::prelude::*;

use crate::tree::{ALLOW_CHILDREN, ALLOW_DATA};

verus! {

/// The features word grants children.
pub open spec fn allows_children(features: u8) -> bool {
    features & ALLOW_CHILDREN == ALLOW_CHILDREN
}

/// The features word grants data.
pub open spec fn allows_data(features: u8) -> bool {
    features & ALLOW_DATA == ALLOW_DATA
}

/// One node as the contracts see it.
pub struct NodeModel<T> {
    pub node_type: Option<T>,
    pub features: u8,
    pub parent: Option<usize>,
    /// Present exactly when the features grant children.
    pub children: Option<Seq<usize>>,
    /// Present exactly when the features grant data.
    pub data: Option<Seq<T>>,
    pub data_type: Option<T>,
}

impl<T> NodeModel<T> {
    /// The children in order; empty for a node that may not have any.
    pub open spec fn kids(self) -> Seq<usize> {
        match self.children {
            Some(c) => c,
            None => Seq::empty(),
        }
    }

    /// A node as it is created: no children and no data yet.
    pub open spec fn fresh(
        features: u8,
        parent: Option<usize>,
        node_type: Option<T>,
        data_type: Option<T>,
    ) -> NodeModel<T> {
        NodeModel {
            node_type,
            features,
            parent,
            children: if allows_children(features) { Some(Seq::empty()) } else { None },
            data: if allows_data(features) { Some(Seq::empty()) } else { None },
            data_type,
        }
    }

    /// The same node with another list of children.
    pub open spec fn with_kids(self, kids: Seq<usize>) -> NodeModel<T> {
        NodeModel { children: Some(kids), ..self }
    }
}

/// The whole tree as the contracts see it.
pub struct TreeModel<T> {
    pub slots: Seq<Option<NodeModel<T>>>,
    pub root: Option<usize>,
}

/// `s` without its first occurrence of `x`.
pub open spec fn without(s: Seq<usize>, x: usize) -> Seq<usize> {
    s.remove_value(x)
}

impl<T> TreeModel<T> {
    /// A node lives in slot `i`.
    pub open spec fn occupied(self, i: int) -> bool {
        0 <= i < self.slots.len() && self.slots[i] is Some
    }

    /// The node in slot `i` (meaningful when the slot is occupied).
    pub open spec fn node(self, i: int) -> NodeModel<T> {
        self.slots[i]->0
    }

    /// The parent of the node in slot `i`; `None` for the root and for a vacant slot.
    pub open spec fn parent_of(self, i: int) -> Option<usize> {
        if self.occupied(i) {
            self.node(i).parent
        } else {
            None
        }
    }

    /// The children of the node in slot `i`, in order.
    pub open spec fn children_of(self, i: int) -> Seq<usize> {
        self.node(i).kids()
    }

    /// The number of occupied slots.
    pub open spec fn count(self) -> nat {
        occupied_count(self.slots)
    }

    /// The node reached from `i` by following `k` parent links, if each link exists.
    pub open spec fn climb(self, i: usize, k: nat) -> Option<usize>
        decreases k,
    {
        if k == 0 {
            Some(i)
        } else {
            match self.parent_of(i as int) {
                Some(p) => self.climb(p, (k - 1) as nat),
                None => None,
            }
        }
    }

    /// `a` is reached from `i` by following one or more parent links.
    pub open spec fn is_ancestor(self, i: usize, a: usize) -> bool {
        exists|k: nat| k >= 1 && #[trigger] self.climb(i, k) == Some(a)
    }

    /// `i` is `top` or lies below it.
    pub open spec fn in_subtree(self, i: usize, top: usize) -> bool {
        i == top || self.is_ancestor(i, top)
    }

    /// The node `i` lives and the root is `d` parent links above it.
    pub open spec fn is_depth(self, i: usize, d: nat) -> bool {
        self.occupied(i as int) && self.climb(i, d) == self.root
    }

    /// The slot that an insertion takes: the lowest vacant one, or a new one at the end.
    pub open spec fn is_first_vacant(self, i: int) -> bool {
        &&& 0 <= i <= self.slots.len()
        &&& forall|j: int| 0 <= j < i ==> #[trigger] self.slots[j] is Some
        &&& i < self.slots.len() ==> self.slots[i] is None
    }

    /// The slots with `n` stored at slot `i`, which is either a slot or the end.
    pub open spec fn placed(self, i: int, n: NodeModel<T>) -> Seq<Option<NodeModel<T>>> {
        if i == self.slots.len() {
            self.slots.push(Some(n))
        } else {
            self.slots.update(i, Some(n))
        }
    }

    /// The tree with the children of node `i` replaced by `kids`.
    pub open spec fn with_kids_at(self, i: int, kids: Seq<usize>) -> TreeModel<T> {
        TreeModel { slots: self.slots.update(i, Some(self.node(i).with_kids(kids))), root: self.root }
    }

    /// The tree with the parent of node `i` set to `p`.
    pub open spec fn with_parent_at(self, i: int, p: usize) -> TreeModel<T> {
        TreeModel {
            slots: self.slots.update(i, Some(NodeModel { parent: Some(p), ..self.node(i) })),
            root: self.root,
        }
    }

    /// The tree with `n` stored at slot `i`, which is either a slot or the end.
    pub open spec fn with_slot(self, i: int, n: NodeModel<T>) -> TreeModel<T> {
        TreeModel { slots: self.placed(i, n), root: self.root }
    }

    /// The tree with slot `i` vacant.
    pub open spec fn vacated(self, i: int) -> TreeModel<T> {
        TreeModel { slots: self.slots.update(i, None), root: self.root }
    }

    /// The tree after `n` is stored at slot `idx` and listed at `pos` among
    /// the children of `anchor`.
    pub open spec fn attached(self, anchor: usize, pos: int, idx: usize, n: NodeModel<T>) -> TreeModel<
        T,
    > {
        self.with_slot(idx as int, n).with_kids_at(
            anchor as int,
            self.children_of(anchor as int).insert(pos, idx),
        )
    }

    /// The tree after the childless node `i` is removed: removing the root
    /// empties the tree, removing another node takes it off its parent's list.
    pub open spec fn detached(self, i: usize) -> TreeModel<T> {
        if self.root == Some(i) {
            TreeModel { slots: Seq::empty(), root: None }
        } else {
            let p = self.node(i as int).parent->0;
            self.with_kids_at(p as int, without(self.children_of(p as int), i)).vacated(i as int)
        }
    }

    /// The tree after node `src` leaves the list of its parent and is listed
    /// at `pos` among the children of `dest`, which becomes its parent.
    pub open spec fn moved(self, src: usize, dest: usize, pos: int) -> TreeModel<T> {
        let lifted = self.lifted(src);
        lifted.with_kids_at(dest as int, lifted.children_of(dest as int).insert(pos, src)).with_parent_at(
            src as int,
            dest,
        )
    }

    /// The tree with node `src` taken off the list of its parent.
    pub open spec fn lifted(self, src: usize) -> TreeModel<T> {
        let p = self.node(src as int).parent->0;
        self.with_kids_at(p as int, without(self.children_of(p as int), src))
    }

    /// The tree with the data of node `i` replaced by `data`.
    pub open spec fn with_data_at(self, i: int, data: Seq<T>) -> TreeModel<T> {
        TreeModel {
            slots: self.slots.update(i, Some(NodeModel { data: Some(data), ..self.node(i) })),
            root: self.root,
        }
    }

    /// A fresh node alone in the tree, as its root.
    pub open spec fn planted(n: NodeModel<T>) -> TreeModel<T> {
        TreeModel { slots: seq![Some(n)], root: Some(0) }
    }

    /// The conditions under which `moved` hangs node `src` below `dest`
    /// without breaking the tree.
    pub open spec fn movable(self, src: usize, dest: usize, pos: int) -> bool {
        &&& self.occupied(src as int)
        &&& self.root != Some(src)
        &&& self.occupied(dest as int)
        &&& allows_children(self.node(dest as int).features)
        &&& src != dest
        &&& !self.is_ancestor(dest, src)
        &&& 0 <= pos <= self.lifted(src).children_of(dest as int).len()
    }

    /// What one node must satisfy.
    pub open spec fn node_wf(self, i: int) -> bool {
        let n = self.node(i);
        &&& (n.children is Some <==> allows_children(n.features))
        &&& (n.data is Some <==> allows_data(n.features))
        &&& (n.parent is None <==> self.root == Some(i as usize))
        &&& n.parent matches Some(p) ==> self.occupied(p as int) && self.children_of(
            p as int,
        ).contains(i as usize)
        &&& n.kids().no_duplicates()
    }

    /// Every child of `i` lives and names `i` as its parent.
    pub open spec fn child_wf(self, i: int, c: usize) -> bool {
        self.occupied(c as int) && self.node(c as int).parent == Some(i as usize)
    }

    /// Parent and child links agree, and the root is the one node without a parent.
    ///
    /// The tree is empty exactly when there is no root, and then there are
    /// no slots at all. A node is listed once among the children of its
    /// parent, and each child listed names that parent.
    pub open spec fn linked(self) -> bool {
        &&& self.slots.len() <= usize::MAX
        &&& (self.root is None <==> self.slots.len() == 0)
        &&& (self.root matches Some(r) ==> self.occupied(r as int))
        &&& forall|i: int| #[trigger] self.occupied(i) ==> self.node_wf(i)
        &&& forall|i: int, k: int|
            self.occupied(i) && 0 <= k < self.children_of(i).len() ==> self.child_wf(
                i,
                #[trigger] self.children_of(i)[k],
            )
    }

    /// Every node reaches the root by following parent links, so the links hold no cycle.
    pub open spec fn rooted(self) -> bool {
        forall|i: int| #[trigger]
            self.occupied(i) ==> exists|d: nat| #[trigger] self.climb(i as usize, d) == self.root
    }

    /// The invariant of the tree.
    pub open spec fn wf(self) -> bool {
        self.linked() && self.rooted()
    }

    /// `levels` gives each slot a level: the root is at level zero and every
    /// other node one level below its parent.
    pub open spec fn ranked_by(self, levels: Seq<nat>) -> bool {
        &&& levels.len() == self.slots.len()
        &&& (self.root matches Some(r) ==> levels[r as int] == 0)
        &&& forall|i: int|
            self.occupied(i) && (#[trigger] self.parent_of(i)) is Some ==> levels[i] == levels[(
            self.parent_of(i)->0) as int] + 1
    }
}

/// The number of `Some` entries in `s`.
pub open spec fn occupied_count<N>(s: Seq<Option<N>>) -> nat
    decreases s.len(),
{
    if s.len() == 0 {
        0
    } else {
        occupied_count(s.drop_last()) + if s.last() is Some {
            1nat
        } else {
            0nat
        }
    }
}

} // verus!
