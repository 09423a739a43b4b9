//! The arena tree itself.
use vstd::prelude::*;

use crate::error::TreeError;
use crate::lemmas::lemma_without;
use crate::model::{allows_children, allows_data, occupied_count, without, NodeModel, TreeModel};

verus! {

/// Feature bit: the node may have children.
pub const ALLOW_CHILDREN: u8 = 0b0000_0001;

/// Feature bit: the node may hold data.
pub const ALLOW_DATA: u8 = 0b0000_0010;

/// One node of the tree, stored in a slot of the arena.
struct Node<T> {
    node_type: Option<T>,
    features: u8,
    parent: Option<usize>,
    children: Option<Vec<usize>>,
    data: Option<Vec<T>>,
    data_type: Option<T>,
}

impl<T> View for Node<T> {
    type V = NodeModel<T>;

    closed spec fn view(&self) -> NodeModel<T> {
        NodeModel {
            node_type: self.node_type,
            features: self.features,
            parent: self.parent,
            children: match self.children {
                Some(c) => Some(c@),
                None => None,
            },
            data: match self.data {
                Some(d) => Some(d@),
                None => None,
            },
            data_type: self.data_type,
        }
    }
}

/// The view of one slot.
spec fn slot_view<T>(slot: Option<Node<T>>) -> Option<NodeModel<T>> {
    match slot {
        Some(n) => Some(n@),
        None => None,
    }
}

/// A tree whose nodes live in a vector of slots and are addressed by index.
///
/// Each node may carry a node type, a data type and a list of data values,
/// all of the payload type `T`, which the tree never inspects.
pub struct Tree<T> {
    nodes: Vec<Option<Node<T>>>,
    root: Option<usize>,
    /// For each slot, how far its node lies below the root.
    levels: Ghost<Seq<nat>>,
}

impl<T> View for Tree<T> {
    type V = TreeModel<T>;

    closed spec fn view(&self) -> TreeModel<T> {
        TreeModel { slots: self.nodes@.map_values(|s: Option<Node<T>>| slot_view(s)), root: self.root }
    }
}

impl<T> Tree<T> {
    /// The invariant that every operation keeps.
    pub open spec fn wf(&self) -> bool {
        self@.wf() && self.ranked()
    }

    /// Each node lies one level below its parent and the root lies at level
    /// zero, which rules out cycles among the parent links.
    pub closed spec fn ranked(&self) -> bool {
        self@.ranked_by(self.levels@)
    }

    /// Creates an empty tree.
    pub fn new() -> (r: Self)
        ensures
            r.wf(),
            r@.slots.len() == 0,
            r@.root is None,
    {
        let r = Tree { nodes: Vec::new(), root: None, levels: Ghost(Seq::empty()) };
        assert(r@.slots =~= Seq::empty());
        r
    }

    /// The number of slots, vacant ones included.
    pub fn len(&self) -> (r: usize)
        ensures
            r == self@.slots.len(),
    {
        self.nodes.len()
    }

    /// The number of nodes, that is of occupied slots.
    pub fn count(&self) -> (r: usize)
        ensures
            r == self@.count(),
    {
        let mut c: usize = 0;
        let mut i: usize = 0;
        while i < self.nodes.len()
            invariant
                i <= self.nodes@.len(),
                c <= i,
                c == occupied_count(self@.slots.take(i as int)),
            decreases self.nodes@.len() - i,
        {
            assert(self@.slots.take(i + 1).drop_last() =~= self@.slots.take(i as int));
            if self.nodes[i].is_some() {
                c = c + 1;
            }
            i = i + 1;
        }
        assert(self@.slots.take(i as int) =~= self@.slots);
        c
    }

    /// Whether a node lives at the index.
    pub fn node_exists(&self, node_index: usize) -> (r: bool)
        ensures
            r == self@.occupied(node_index as int),
    {
        node_index < self.nodes.len() && self.nodes[node_index].is_some()
    }

    /// The node at the index, if one lives there.
    fn node(&self, node_index: usize) -> (r: Option<&Node<T>>)
        ensures
            match r {
                Some(n) => self@.occupied(node_index as int) && n@ == self@.node(node_index as int),
                None => !self@.occupied(node_index as int),
            },
    {
        if node_index < self.nodes.len() {
            match &self.nodes[node_index] {
                Some(n) => Some(n),
                None => None,
            }
        } else {
            None
        }
    }

    /// The node type given at the node's creation.
    pub fn node_type(&self, node_index: usize) -> (r: Result<&Option<T>, TreeError>)
        ensures
            match r {
                Ok(v) => self@.occupied(node_index as int) && *v == self@.node(
                    node_index as int,
                ).node_type,
                Err(e) => !self@.occupied(node_index as int) && e == TreeError::RetrievingNode(
                    node_index,
                ),
            },
    {
        match self.node(node_index) {
            Some(n) => Ok(&n.node_type),
            None => Err(TreeError::RetrievingNode(node_index)),
        }
    }

    /// The features given at the node's creation.
    pub fn features(&self, node_index: usize) -> (r: Result<&u8, TreeError>)
        ensures
            match r {
                Ok(v) => self@.occupied(node_index as int) && *v == self@.node(
                    node_index as int,
                ).features,
                Err(e) => !self@.occupied(node_index as int) && e == TreeError::RetrievingNode(
                    node_index,
                ),
            },
    {
        match self.node(node_index) {
            Some(n) => Ok(&n.features),
            None => Err(TreeError::RetrievingNode(node_index)),
        }
    }

    /// The data type given at the node's creation.
    pub fn data_type(&self, node_index: usize) -> (r: Result<&Option<T>, TreeError>)
        ensures
            match r {
                Ok(v) => self@.occupied(node_index as int) && *v == self@.node(
                    node_index as int,
                ).data_type,
                Err(e) => !self@.occupied(node_index as int) && e == TreeError::RetrievingNode(
                    node_index,
                ),
            },
    {
        match self.node(node_index) {
            Some(n) => Ok(&n.data_type),
            None => Err(TreeError::RetrievingNode(node_index)),
        }
    }

    /// The parent of the node; the root has none.
    pub fn parent(&self, node_index: usize) -> (r: Result<usize, TreeError>)
        requires
            self.wf(),
        ensures
            r == if !self@.occupied(node_index as int) {
                Err(TreeError::RetrievingNode(node_index))
            } else if self@.root == Some(node_index) {
                Err(TreeError::RootHasNoParent(node_index))
            } else {
                Ok(self@.node(node_index as int).parent->0)
            },
    {
        if self.root == Some(node_index) {
            return Err(TreeError::RootHasNoParent(node_index));
        }
        match self.node(node_index) {
            Some(n) => {
                proof {
                    assert(self@.node_wf(node_index as int));
                }
                match n.parent {
                    Some(p) => Ok(p),
                    None => Err(TreeError::RootHasNoParent(node_index)),
                }
            },
            None => Err(TreeError::RetrievingNode(node_index)),
        }
    }

    /// Whether `is_ancestor` is reached from the node by following parent links.
    pub fn is_ancestor_of(&self, node_index: usize, is_ancestor: usize) -> (r: Result<
        bool,
        TreeError,
    >)
        requires
            self.wf(),
        ensures
            r == if !self@.occupied(node_index as int) {
                Err(TreeError::RetrievingNode(node_index))
            } else {
                Ok(self@.is_ancestor(node_index, is_ancestor))
            },
    {
        if !self.node_exists(node_index) {
            return Err(TreeError::RetrievingNode(node_index));
        }
        let ghost m = self@;
        let ghost levels = self.levels@;
        let mut current = node_index;
        let ghost mut d: nat = 0;
        loop
            invariant
                self.wf(),
                m == self@,
                levels == self.levels@,
                m.occupied(current as int),
                m.climb(node_index, d) == Some(current),
                d + levels[current as int] == levels[node_index as int],
                forall|k: nat| 1 <= k <= d ==> #[trigger] m.climb(node_index, k) != Some(is_ancestor),
            decreases levels[current as int],
        {
            proof {
                assert(m.node_wf(current as int));
                m.lemma_climb_step(node_index, d);
            }
            let n = self.node(current).unwrap();
            match n.parent {
                Some(p) => {
                    if p == is_ancestor {
                        assert(m.climb(node_index, d + 1) == Some(is_ancestor));
                        return Ok(true);
                    }
                    current = p;
                    proof {
                        d = d + 1;
                    }
                },
                None => {
                    assert forall|k: nat| k >= 1 implies #[trigger] m.climb(node_index, k) != Some(
                        is_ancestor,
                    ) by {
                        if k > d {
                            m.lemma_climb_past_top(node_index, d, k);
                        }
                    }
                    return Ok(false);
                },
            }
        }
    }

    /// The children of the node, in order.
    pub fn children(&self, node_index: usize) -> (r: Result<&Vec<usize>, TreeError>)
        requires
            self.wf(),
        ensures
            match r {
                Ok(v) => self@.occupied(node_index as int) && allows_children(
                    self@.node(node_index as int).features,
                ) && v@ == self@.children_of(node_index as int),
                Err(e) => e == if !self@.occupied(node_index as int) {
                    TreeError::RetrievingNode(node_index)
                } else {
                    TreeError::NoChildrenAllowed(node_index)
                } && !(self@.occupied(node_index as int) && allows_children(
                    self@.node(node_index as int).features,
                )),
            },
    {
        match self.node(node_index) {
            Some(n) => {
                proof {
                    assert(self@.node_wf(node_index as int));
                }
                if n.features & ALLOW_CHILDREN != ALLOW_CHILDREN {
                    return Err(TreeError::NoChildrenAllowed(node_index));
                }
                match &n.children {
                    Some(c) => Ok(c),
                    None => Err(TreeError::NoChildrenAllowed(node_index)),
                }
            },
            None => Err(TreeError::RetrievingNode(node_index)),
        }
    }

    /// The first child of the node.
    pub fn first(&self, node_index: usize) -> (r: Result<usize, TreeError>)
        requires
            self.wf(),
        ensures
            r == if !self@.occupied(node_index as int) {
                Err(TreeError::RetrievingNode(node_index))
            } else if !allows_children(self@.node(node_index as int).features) {
                Err(TreeError::NoChildrenAllowed(node_index))
            } else if self@.children_of(node_index as int).len() == 0 {
                Err(TreeError::NoChildrenFound(node_index))
            } else {
                Ok(self@.children_of(node_index as int).first())
            },
    {
        let children = self.children(node_index)?;
        if children.len() == 0 {
            return Err(TreeError::NoChildrenFound(node_index));
        }
        Ok(children[0])
    }

    /// The last child of the node.
    pub fn last(&self, node_index: usize) -> (r: Result<usize, TreeError>)
        requires
            self.wf(),
        ensures
            r == if !self@.occupied(node_index as int) {
                Err(TreeError::RetrievingNode(node_index))
            } else if !allows_children(self@.node(node_index as int).features) {
                Err(TreeError::NoChildrenAllowed(node_index))
            } else if self@.children_of(node_index as int).len() == 0 {
                Err(TreeError::NoChildrenFound(node_index))
            } else {
                Ok(self@.children_of(node_index as int).last())
            },
    {
        let children = self.children(node_index)?;
        if children.len() == 0 {
            return Err(TreeError::NoChildrenFound(node_index));
        }
        Ok(children[children.len() - 1])
    }

    /// The child of the node at the position.
    pub fn child(&self, node_index: usize, position: usize) -> (r: Result<usize, TreeError>)
        requires
            self.wf(),
        ensures
            r == if !self@.occupied(node_index as int) {
                Err(TreeError::RetrievingNode(node_index))
            } else if !allows_children(self@.node(node_index as int).features) {
                Err(TreeError::NoChildrenAllowed(node_index))
            } else if position >= self@.children_of(node_index as int).len() {
                Err(TreeError::NoChildrenFound(node_index))
            } else {
                Ok(self@.children_of(node_index as int)[position as int])
            },
    {
        let children = self.children(node_index)?;
        if position >= children.len() {
            return Err(TreeError::NoChildrenFound(node_index));
        }
        Ok(children[position])
    }

    /// How many parent links lie between the node and the root.
    pub fn depth(&self, node_index: usize) -> (r: Result<usize, TreeError>)
        requires
            self.wf(),
        ensures
            !self@.occupied(node_index as int) ==> r == Err::<usize, TreeError>(
                TreeError::RetrievingNode(node_index),
            ),
            self@.occupied(node_index as int) ==> (r matches Ok(d) && self@.is_depth(
                node_index,
                d as nat,
            )),
    {
        if !self.node_exists(node_index) {
            return Err(TreeError::RetrievingNode(node_index));
        }
        let ghost m = self@;
        let ghost levels = self.levels@;
        proof {
            m.lemma_level_below_len(levels, node_index);
            assert(m.slots.len() == self.nodes@.len());
        }
        let total = self.nodes.len();
        let mut current = node_index;
        let mut depth: usize = 0;
        loop
            invariant
                m.linked(),
                m.ranked_by(levels),
                m == self@,
                m.occupied(current as int),
                m.climb(node_index, depth as nat) == Some(current),
                depth + levels[current as int] == levels[node_index as int],
                levels[node_index as int] < total,
            decreases levels[current as int],
        {
            proof {
                assert(m.node_wf(current as int));
                m.lemma_climb_step(node_index, depth as nat);
            }
            let n = self.node(current).unwrap();
            match n.parent {
                Some(p) => {
                    assert(m.parent_of(current as int) == Some(p));
                    assert(levels[current as int] == levels[p as int] + 1);
                    current = p;
                    depth = depth + 1;
                },
                None => {
                    return Ok(depth);
                },
            }
        }
    }

    /// The data of the node.
    pub fn data_ref(&self, node_index: usize) -> (r: Result<&Vec<T>, TreeError>)
        requires
            self.wf(),
        ensures
            match r {
                Ok(v) => self@.occupied(node_index as int) && allows_data(
                    self@.node(node_index as int).features,
                ) && self@.node(node_index as int).data == Some(v@),
                Err(e) => e == if !self@.occupied(node_index as int) {
                    TreeError::RetrievingNode(node_index)
                } else {
                    TreeError::NoDataAllowed(node_index)
                } && !(self@.occupied(node_index as int) && allows_data(
                    self@.node(node_index as int).features,
                )),
            },
    {
        match self.node(node_index) {
            Some(n) => {
                proof {
                    assert(self@.node_wf(node_index as int));
                }
                if n.features & ALLOW_DATA != ALLOW_DATA {
                    return Err(TreeError::NoDataAllowed(node_index));
                }
                match &n.data {
                    Some(d) => Ok(d),
                    None => Err(TreeError::NoDataAllowed(node_index)),
                }
            },
            None => Err(TreeError::RetrievingNode(node_index)),
        }
    }
}

/// The first position of `x` in `v`, if any.
fn position_of(v: &Vec<usize>, x: usize) -> (r: Option<usize>)
    ensures
        match r {
            Some(i) => i < v@.len() && v@[i as int] == x && forall|j: int|
                0 <= j < i ==> v@[j] != x,
            None => !v@.contains(x),
        },
{
    let mut i: usize = 0;
    while i < v.len()
        invariant
            i <= v@.len(),
            forall|j: int| 0 <= j < i ==> v@[j] != x,
        decreases v@.len() - i,
    {
        if v[i] == x {
            return Some(i);
        }
        i = i + 1;
    }
    None
}

/// A node as it is created, with empty lists where the features grant them.
fn fresh_node<T>(features: u8, parent: Option<usize>, node_type: Option<T>, data_type: Option<T>) -> (r:
    Node<T>)
    ensures
        r@ == NodeModel::fresh(features, parent, node_type, data_type),
{
    let children = if features & ALLOW_CHILDREN == ALLOW_CHILDREN {
        Some(Vec::new())
    } else {
        None
    };
    let data = if features & ALLOW_DATA == ALLOW_DATA {
        Some(Vec::new())
    } else {
        None
    };
    let r = Node { node_type, features, parent, children, data, data_type };
    assert(r@.children == NodeModel::<T>::fresh(features, parent, node_type, data_type).children);
    r
}

impl<T> Tree<T> {
    /// Stores the node in the lowest vacant slot, or in a new slot at the end.
    fn place(&mut self, node: Node<T>) -> (idx: usize)
        ensures
            old(self)@.is_first_vacant(idx as int),
            final(self)@ == old(self)@.with_slot(idx as int, node@),
            final(self).levels == old(self).levels,
    {
        let ghost m = self@;
        let mut i: usize = 0;
        while i < self.nodes.len() && self.nodes[i].is_some()
            invariant
                m == self@,
                i <= self.nodes@.len(),
                forall|j: int| 0 <= j < i ==> #[trigger] m.slots[j] is Some,
            decreases self.nodes@.len() - i,
        {
            assert(m.slots[i as int] is Some);
            i = i + 1;
        }
        let ghost v = node@;
        if i == self.nodes.len() {
            self.nodes.push(Some(node));
        } else {
            assert(m.slots[i as int] is None);
            self.nodes[i] = Some(node);
        }
        assert(self@.slots =~= m.placed(i as int, v));
        i
    }

    /// Lists `child` at `position` among the children of `parent`.
    fn link_child(&mut self, parent: usize, position: usize, child: usize)
        requires
            old(self)@.occupied(parent as int),
            old(self)@.node(parent as int).children is Some,
            position <= old(self)@.children_of(parent as int).len(),
        ensures
            final(self)@ == old(self)@.with_kids_at(
                parent as int,
                old(self)@.children_of(parent as int).insert(position as int, child),
            ),
            final(self).levels == old(self).levels,
    {
        let ghost m = self@;
        match &mut self.nodes[parent] {
            Some(n) => match &mut n.children {
                Some(c) => {
                    c.insert(position, child);
                },
                None => {},
            },
            None => {},
        }
        assert(self@.slots =~= m.with_kids_at(
            parent as int,
            m.children_of(parent as int).insert(position as int, child),
        ).slots);
    }

    /// Takes `child` off the children of `parent`.
    fn unlink_child(&mut self, parent: usize, child: usize) -> (r: Result<(), TreeError>)
        requires
            old(self)@.occupied(parent as int),
        ensures
            old(self)@.children_of(parent as int).contains(child) ==> r is Ok && final(self)@
                == old(self)@.with_kids_at(
                parent as int,
                without(old(self)@.children_of(parent as int), child),
            ),
            !old(self)@.children_of(parent as int).contains(child) ==> r == Err::<(), TreeError>(
                TreeError::MissingInParent(child, parent),
            ) && final(self)@ == old(self)@,
            final(self).levels == old(self).levels,
    {
        let ghost m = self@;
        let ghost kids = m.children_of(parent as int);
        let found = match self.node(parent) {
            Some(n) => match &n.children {
                Some(c) => position_of(c, child),
                None => None,
            },
            None => None,
        };
        let position = match found {
            Some(i) => i,
            None => {
                return Err(TreeError::MissingInParent(child, parent));
            },
        };
        proof {
            kids.index_of_first_ensures(child);
            let f = kids.index_of_first(child)->0;
            assert(f == position as int) by {
                if f < position {
                    assert(kids[f] == child);
                } else if f > position {
                    assert(kids[position as int] == child);
                }
            }
        }
        match &mut self.nodes[parent] {
            Some(n) => match &mut n.children {
                Some(c) => {
                    c.remove(position);
                },
                None => {},
            },
            None => {},
        }
        assert(self@.slots =~= m.with_kids_at(parent as int, without(kids, child)).slots);
        Ok(())
    }

    /// Makes `p` the parent of node `i`.
    fn set_parent(&mut self, i: usize, p: usize)
        requires
            old(self)@.occupied(i as int),
        ensures
            final(self)@ == old(self)@.with_parent_at(i as int, p),
            final(self).levels == old(self).levels,
    {
        let ghost m = self@;
        match &mut self.nodes[i] {
            Some(n) => {
                n.parent = Some(p);
            },
            None => {},
        }
        assert(self@.slots =~= m.with_parent_at(i as int, p).slots);
    }
}

impl<T> Tree<T> {
    /// Stores a fresh root in an empty tree.
    fn plant(&mut self, features: u8, node_type: Option<T>, data_type: Option<T>) -> (idx: usize)
        requires
            old(self).wf(),
            old(self)@.root is None,
        ensures
            final(self).wf(),
            idx == 0,
            final(self)@ == TreeModel::planted(NodeModel::fresh(features, None, node_type, data_type)),
    {
        let ghost n = NodeModel::fresh(features, None, node_type, data_type);
        let idx = self.place(fresh_node(features, None, node_type, data_type));
        self.root = Some(idx);
        self.levels = Ghost(Seq::empty().push(0nat));
        proof {
            assert(self@.slots =~= seq![Some(n)]);
            TreeModel::lemma_planted(n);
        }
        idx
    }

    /// Stores a fresh node and lists it at `position` among the children of `anchor`.
    fn attach(
        &mut self,
        anchor: usize,
        position: usize,
        features: u8,
        node_type: Option<T>,
        data_type: Option<T>,
    ) -> (idx: usize)
        requires
            old(self).wf(),
            old(self)@.occupied(anchor as int),
            allows_children(old(self)@.node(anchor as int).features),
            position <= old(self)@.children_of(anchor as int).len(),
        ensures
            final(self).wf(),
            old(self)@.is_first_vacant(idx as int),
            final(self)@ == old(self)@.attached(
                anchor,
                position as int,
                idx,
                NodeModel::fresh(features, Some(anchor), node_type, data_type),
            ),
    {
        let ghost m = self@;
        let ghost levels = self.levels@;
        let ghost n = NodeModel::fresh(features, Some(anchor), node_type, data_type);
        proof {
            assert(m.node_wf(anchor as int));
        }
        let idx = self.place(fresh_node(features, Some(anchor), node_type, data_type));
        self.link_child(anchor, position, idx);
        self.levels = Ghost(m.levels_attached(levels, anchor, idx));
        proof {
            assert(self@.slots.len() == self.nodes.len());
            assert(self@ == m.attached(anchor, position as int, idx, n));
            m.lemma_attached(levels, anchor, position as int, idx, n);
            self@.lemma_ranked_rooted(self.levels@);
        }
        idx
    }

    /// Inserts a node as the last child of the node at `node_index`; in an
    /// empty tree the node becomes the root and `node_index` is ignored.
    /// Returns the index of the new node.
    pub fn insert(
        &mut self,
        node_index: usize,
        features: u8,
        node_type: Option<T>,
        data_type: Option<T>,
    ) -> (r: Result<usize, TreeError>)
        requires
            old(self).wf(),
        ensures
            final(self).wf(),
            match r {
                Ok(idx) => if old(self)@.root is None {
                    idx == 0 && final(self)@ == TreeModel::planted(
                        NodeModel::fresh(features, None, node_type, data_type),
                    )
                } else {
                    &&& old(self)@.occupied(node_index as int)
                    &&& allows_children(old(self)@.node(node_index as int).features)
                    &&& old(self)@.is_first_vacant(idx as int)
                    &&& final(self)@ == old(self)@.attached(
                        node_index,
                        old(self)@.children_of(node_index as int).len() as int,
                        idx,
                        NodeModel::fresh(features, Some(node_index), node_type, data_type),
                    )
                },
                Err(e) => {
                    &&& final(self)@ == old(self)@
                    &&& old(self)@.root is Some
                    &&& e == if !old(self)@.occupied(node_index as int) {
                        TreeError::RetrievingNode(node_index)
                    } else {
                        TreeError::NoChildrenAllowed(node_index)
                    }
                    &&& !(old(self)@.occupied(node_index as int) && allows_children(
                        old(self)@.node(node_index as int).features,
                    ))
                },
            },
    {
        if self.root.is_none() {
            return Ok(self.plant(features, node_type, data_type));
        }
        let count = match self.children(node_index) {
            Ok(c) => c.len(),
            Err(e) => {
                return Err(e);
            },
        };
        Ok(self.attach(node_index, count, features, node_type, data_type))
    }

    /// Inserts a node at `position` among the children of the node at
    /// `node_index`; in an empty tree the node becomes the root and both
    /// `node_index` and `position` are ignored. Returns the index of the new node.
    pub fn insert_at(
        &mut self,
        node_index: usize,
        position: usize,
        features: u8,
        node_type: Option<T>,
        data_type: Option<T>,
    ) -> (r: Result<usize, TreeError>)
        requires
            old(self).wf(),
        ensures
            final(self).wf(),
            match r {
                Ok(idx) => if old(self)@.root is None {
                    idx == 0 && final(self)@ == TreeModel::planted(
                        NodeModel::fresh(features, None, node_type, data_type),
                    )
                } else {
                    &&& old(self)@.occupied(node_index as int)
                    &&& allows_children(old(self)@.node(node_index as int).features)
                    &&& position <= old(self)@.children_of(node_index as int).len()
                    &&& old(self)@.is_first_vacant(idx as int)
                    &&& final(self)@ == old(self)@.attached(
                        node_index,
                        position as int,
                        idx,
                        NodeModel::fresh(features, Some(node_index), node_type, data_type),
                    )
                },
                Err(e) => {
                    &&& final(self)@ == old(self)@
                    &&& old(self)@.root is Some
                    &&& e == if !old(self)@.occupied(node_index as int) {
                        TreeError::RetrievingNode(node_index)
                    } else if !allows_children(old(self)@.node(node_index as int).features) {
                        TreeError::NoChildrenAllowed(node_index)
                    } else {
                        TreeError::ExceedsChildren(position, node_index)
                    }
                    &&& !(old(self)@.occupied(node_index as int) && allows_children(
                        old(self)@.node(node_index as int).features,
                    ) && position <= old(self)@.children_of(node_index as int).len())
                },
            },
    {
        if self.root.is_none() {
            return Ok(self.plant(features, node_type, data_type));
        }
        let count = match self.children(node_index) {
            Ok(c) => c.len(),
            Err(e) => {
                return Err(e);
            },
        };
        if position > count {
            return Err(TreeError::ExceedsChildren(position, node_index));
        }
        Ok(self.attach(node_index, position, features, node_type, data_type))
    }
}

impl<T> Tree<T> {
    /// Removes a node that has no children and hands back its data (`None`
    /// for a node that may not hold data). Removing the root empties the tree.
    pub fn take(&mut self, node_index: usize) -> (r: Result<Option<Vec<T>>, TreeError>)
        requires
            old(self).wf(),
        ensures
            final(self).wf(),
            match r {
                Ok(d) => {
                    &&& old(self)@.occupied(node_index as int)
                    &&& old(self)@.children_of(node_index as int).len() == 0
                    &&& final(self)@ == old(self)@.detached(node_index)
                    &&& old(self)@.node(node_index as int).data == match d {
                        Some(v) => Some(v@),
                        None => None,
                    }
                },
                Err(e) => {
                    &&& final(self)@ == old(self)@
                    &&& e == if !old(self)@.occupied(node_index as int) {
                        TreeError::RetrievingNode(node_index)
                    } else {
                        TreeError::HasChildren(node_index)
                    }
                    &&& !(old(self)@.occupied(node_index as int) && old(self)@.children_of(
                        node_index as int,
                    ).len() == 0)
                },
            },
    {
        let ghost m = self@;
        let ghost levels = self.levels@;
        let parent = match self.node(node_index) {
            Some(n) => {
                let has_children = match &n.children {
                    Some(c) => c.len() > 0,
                    None => false,
                };
                if n.features & ALLOW_CHILDREN == ALLOW_CHILDREN && has_children {
                    return Err(TreeError::HasChildren(node_index));
                }
                n.parent
            },
            None => {
                return Err(TreeError::RetrievingNode(node_index));
            },
        };
        proof {
            assert(m.node_wf(node_index as int));
        }
        if let Some(p) = parent {
            proof {
                assert(m.node_wf(p as int) && m.occupied(p as int));
            }
            self.unlink_child(p, node_index)?;
        }
        let ghost lifted = self@;
        proof {
            assert(self@.slots.len() == self.nodes@.len());
            assert(lifted.occupied(node_index as int) && lifted.node(node_index as int) == m.node(
                node_index as int,
            ));
        }
        let taken = self.nodes[node_index].take();
        proof {
            assert(self@.slots =~= lifted.vacated(node_index as int).slots);
            assert(taken is Some);
            assert(slot_view(taken) == Some(m.node(node_index as int)));
        }
        if self.root == Some(node_index) {
            self.root = None;
            self.nodes.clear();
            self.levels = Ghost(Seq::empty());
            proof {
                assert(self@.slots =~= Seq::empty());
            }
        }
        proof {
            m.lemma_detached(levels, node_index);
            self@.lemma_ranked_rooted(self.levels@);
        }
        match taken {
            Some(n) => Ok(n.data),
            None => Ok(None),
        }
    }

    /// Removes a node that has no children, dropping its data. Removing the
    /// root empties the tree.
    pub fn delete(&mut self, node_index: usize) -> (r: Result<(), TreeError>)
        requires
            old(self).wf(),
        ensures
            final(self).wf(),
            r == if !old(self)@.occupied(node_index as int) {
                Err(TreeError::RetrievingNode(node_index))
            } else if old(self)@.children_of(node_index as int).len() > 0 {
                Err(TreeError::HasChildren(node_index))
            } else {
                Ok(())
            },
            r is Ok ==> final(self)@ == old(self)@.detached(node_index),
            r is Err ==> final(self)@ == old(self)@,
    {
        match self.take(node_index) {
            Ok(_) => Ok(()),
            Err(e) => Err(e),
        }
    }

    /// Removes every node.
    pub fn clear(&mut self)
        ensures
            final(self).wf(),
            final(self)@.slots.len() == 0,
            final(self)@.root is None,
    {
        self.root = None;
        self.nodes.clear();
        self.levels = Ghost(Seq::empty());
        assert(self@.slots =~= Seq::empty());
    }
}

impl<T> Tree<T> {
    /// Moves the node at `source`, and with it everything below it, to
    /// become a child of `destination` at `position` (at the end when
    /// `None`). The position counts among the children of `destination`
    /// once `source` has left them. Moving a node onto itself changes nothing.
    pub fn move_nodes(&mut self, source: usize, destination: usize, position: Option<usize>) -> (r:
        Result<(), TreeError>)
        requires
            old(self).wf(),
        ensures
            final(self).wf(),
            r == if !old(self)@.occupied(destination as int) {
                Err(TreeError::RetrievingNode(destination))
            } else if !allows_children(old(self)@.node(destination as int).features) {
                Err(TreeError::NoChildrenAllowed(destination))
            } else if old(self)@.is_ancestor(destination, source) {
                Err(TreeError::IsAncestorOf(source, destination))
            } else if source == destination {
                Ok(())
            } else if !old(self)@.occupied(source as int) {
                Err(TreeError::RetrievingNode(source))
            } else if old(self)@.root == Some(source) {
                Err(TreeError::RootHasNoParent(source))
            } else if position is Some && position->0 > old(self)@.lifted(source).children_of(
                destination as int,
            ).len() {
                Err(TreeError::ExceedsChildren(position->0, destination))
            } else {
                Ok(())
            },
            r is Ok && source != destination ==> final(self)@ == old(self)@.moved(
                source,
                destination,
                match position {
                    Some(p) => p as int,
                    None => old(self)@.lifted(source).children_of(destination as int).len() as int,
                },
            ),
            r is Err || source == destination ==> final(self)@ == old(self)@,
    {
        let ghost m = self@;
        let ghost levels = self.levels@;
        match self.children(destination) {
            Ok(_) => {},
            Err(e) => {
                return Err(e);
            },
        }
        match self.is_ancestor_of(destination, source) {
            Ok(true) => {
                return Err(TreeError::IsAncestorOf(source, destination));
            },
            Ok(false) => {},
            Err(e) => {
                return Err(TreeError::NotAncestorOf(destination, source, Box::new(e)));
            },
        }
        if source == destination {
            return Ok(());
        }
        let parent = match self.parent(source) {
            Ok(p) => p,
            Err(e) => {
                return Err(e);
            },
        };
        proof {
            assert(m.node_wf(source as int));
            assert(m.node_wf(parent as int));
        }
        let mut count = self.children(destination).unwrap().len();
        if parent == destination {
            count = count - 1;
        }
        proof {
            if parent == destination {
                lemma_without(m.children_of(parent as int), source);
            }
            assert(count == m.lifted(source).children_of(destination as int).len());
        }
        let at = match position {
            Some(p) => {
                if p > count {
                    return Err(TreeError::ExceedsChildren(p, destination));
                }
                p
            },
            None => count,
        };
        self.unlink_child(parent, source)?;
        self.link_child(destination, at, source);
        self.set_parent(source, destination);
        self.levels = Ghost(m.levels_moved(levels, source, destination));
        proof {
            m.lemma_moved(levels, source, destination, at as int);
            self@.lemma_ranked_rooted(self.levels@);
        }
        Ok(())
    }
}

impl<T> Tree<T> {
    /// The node at the index, if one lives there, for changing in place.
    fn node_mut(&mut self, node_index: usize) -> (r: Option<&mut Node<T>>)
        ensures
            final(self).levels == old(self).levels,
            match r {
                Some(n) => {
                    &&& old(self)@.occupied(node_index as int)
                    &&& n@ == old(self)@.node(node_index as int)
                    &&& final(self)@.slots =~= old(self)@.slots.update(
                        node_index as int,
                        Some(final(n)@),
                    )
                    &&& final(self)@.root == old(self)@.root
                },
                None => !old(self)@.occupied(node_index as int) && final(self)@ == old(self)@,
            },
    {
        if !self.node_exists(node_index) {
            return None;
        }
        match &mut self.nodes[node_index] {
            Some(n) => Some(n),
            None => None,
        }
    }

    /// The data of the node, for changing in place.
    pub fn data_mut(&mut self, node_index: usize) -> (r: Result<&mut Vec<T>, TreeError>)
        requires
            old(self).wf(),
        ensures
            final(self).wf(),
            match r {
                Ok(v) => {
                    &&& old(self)@.occupied(node_index as int)
                    &&& allows_data(old(self)@.node(node_index as int).features)
                    &&& old(self)@.node(node_index as int).data == Some(v@)
                    &&& final(self)@ == old(self)@.with_data_at(node_index as int, final(v)@)
                },
                Err(e) => {
                    &&& final(self)@ == old(self)@
                    &&& e == if !old(self)@.occupied(node_index as int) {
                        TreeError::RetrievingNode(node_index)
                    } else {
                        TreeError::NoDataAllowed(node_index)
                    }
                    &&& !(old(self)@.occupied(node_index as int) && allows_data(
                        old(self)@.node(node_index as int).features,
                    ))
                },
            },
    {
        let ghost m = self@;
        let ghost levels = self.levels@;
        proof {
            if m.occupied(node_index as int) && allows_data(m.node(node_index as int).features) {
                assert forall|d: Seq<T>|
                    #![auto]
                    m.with_data_at(node_index as int, d).wf() && m.with_data_at(
                        node_index as int,
                        d,
                    ).ranked_by(levels) by {
                    m.lemma_with_data(levels, node_index as int, d);
                }
            }
        }
        match self.node(node_index) {
            Some(n) => {
                if n.features & ALLOW_DATA != ALLOW_DATA {
                    return Err(TreeError::NoDataAllowed(node_index));
                }
            },
            None => {
                return Err(TreeError::RetrievingNode(node_index));
            },
        }
        proof {
            assert(m.node_wf(node_index as int));
        }
        match self.node_mut(node_index) {
            Some(n) => {
                match &mut n.data {
                    Some(d) => Ok(d),
                    None => Err(TreeError::NoDataAllowed(node_index)),
                }
            },
            None => Err(TreeError::RetrievingNode(node_index)),
        }
    }
}

} // verus!
