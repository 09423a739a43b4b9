//! Properties that hold across operations of the tree, stated over the model
//! that the operations' contracts use.
use vstd::prelude::*;

use crate::lemmas::{lemma_count_le_len, lemma_count_update};
use crate::model::{allows_children, allows_data, without, NodeModel, TreeModel};

verus! {

/// There are never more nodes than slots.
pub proof fn law_count_within_len<T>(m: TreeModel<T>)
    ensures
        m.count() <= m.slots.len(),
{
    lemma_count_le_len(m.slots);
}

/// In a tree in order, a node with a parent is listed exactly once among
/// that parent's children, and every child listed names that parent.
/// Every operation that changes the tree keeps it in order.
pub proof fn law_parent_child_symmetry<T>(m: TreeModel<T>, i: int, t: int)
    requires
        m.wf(),
        m.occupied(i),
    ensures
        m.parent_of(i) matches Some(p) ==> m.children_of(p as int).contains(i as usize)
            && m.children_of(p as int).no_duplicates(),
        0 <= t < m.children_of(i).len() ==> m.parent_of(m.children_of(i)[t] as int) == Some(
            i as usize,
        ),
{
    assert(m.node_wf(i));
    if let Some(p) = m.parent_of(i) {
        assert(m.node_wf(p as int));
    }
    if 0 <= t < m.children_of(i).len() {
        assert(m.child_wf(i, m.children_of(i)[t]));
    }
}

/// Removing the root empties the tree: no slot is left and no index holds a node.
pub proof fn law_root_clears_all<T>(m: TreeModel<T>, j: int)
    requires
        m.wf(),
        m.root is Some,
    ensures
        m.detached(m.root->0).slots.len() == 0,
        m.detached(m.root->0).count() == 0,
        m.detached(m.root->0).root is None,
        !m.detached(m.root->0).occupied(j),
{
}

/// After a node other than the root is removed, the next insertion takes a
/// vacant slot instead of growing the arena: the number of slots stays, the
/// number of nodes grows by one. It takes the freed slot itself when every
/// slot below it is in use.
pub proof fn law_slot_reuse<T>(
    m: TreeModel<T>,
    i: usize,
    anchor: usize,
    pos: int,
    idx: usize,
    n: NodeModel<T>,
)
    requires
        m.wf(),
        m.occupied(i as int),
        m.root != Some(i),
        m.children_of(i as int).len() == 0,
        m.detached(i).occupied(anchor as int),
        m.detached(i).is_first_vacant(idx as int),
    ensures
        idx <= i,
        (forall|j: int| 0 <= j < i ==> #[trigger] m.slots[j] is Some) ==> idx == i,
        m.detached(i).count() + 1 == m.count(),
        m.detached(i).attached(anchor, pos, idx, n).slots.len() == m.slots.len(),
        m.detached(i).attached(anchor, pos, idx, n).count() == m.count(),
{
    let d = m.detached(i);
    let p = m.node(i as int).parent->0;
    assert(m.node_wf(i as int));
    let lifted = m.with_kids_at(p as int, without(m.children_of(p as int), i));
    lemma_count_update(m.slots, p as int, lifted.slots[p as int]);
    lemma_count_update(lifted.slots, i as int, None);
    assert(d.slots[i as int] is None);
    if (forall|j: int| 0 <= j < i ==> #[trigger] m.slots[j] is Some) {
        if idx < i {
            assert(m.slots[idx as int] is Some);
            assert(d.slots[idx as int] is Some);
        }
    }
    let placed = d.with_slot(idx as int, n);
    lemma_count_update(d.slots, idx as int, Some(n));
    lemma_count_update(placed.slots, anchor as int, Some(placed.node(anchor as int).with_kids(
        d.children_of(anchor as int).insert(pos, idx),
    )));
}

/// A node inserted below another gets the features it was created with:
/// created without the right to have children it lists none and refuses
/// them, created without the right to hold data it holds none.
pub proof fn law_capability_gating<T>(
    m: TreeModel<T>,
    anchor: usize,
    pos: int,
    idx: usize,
    features: u8,
    node_type: Option<T>,
    data_type: Option<T>,
)
    requires
        m.wf(),
        m.occupied(anchor as int),
        allows_children(m.node(anchor as int).features),
        0 <= pos <= m.children_of(anchor as int).len(),
        m.is_first_vacant(idx as int),
    ensures
        ({
            let m2 = m.attached(
                anchor,
                pos,
                idx,
                NodeModel::fresh(features, Some(anchor), node_type, data_type),
            );
            &&& m2.occupied(idx as int)
            &&& m2.node(idx as int).features == features
            &&& !allows_children(features) ==> m2.node(idx as int).children is None
                && m2.children_of(idx as int).len() == 0
            &&& !allows_data(features) ==> m2.node(idx as int).data is None
        }),
{
    assert(m.node_wf(anchor as int));
}

/// Inserting a node leaves the features of every other node as they were,
/// so a node created without the right to have children goes on refusing them.
pub proof fn law_features_fixed<T>(
    m: TreeModel<T>,
    anchor: usize,
    pos: int,
    idx: usize,
    n: NodeModel<T>,
    j: int,
)
    requires
        m.wf(),
        m.occupied(anchor as int),
        m.is_first_vacant(idx as int),
        m.occupied(j),
    ensures
        m.attached(anchor, pos, idx, n).occupied(j),
        m.attached(anchor, pos, idx, n).node(j).features == m.node(j).features,
        allows_children(m.attached(anchor, pos, idx, n).node(j).features) == allows_children(
            m.node(j).features,
        ),
{
}

/// Moving a node carries everything below it along. Every node of the moved
/// subtree ends up below the destination, the ancestry among the nodes of
/// the subtree stays as it was, and each of them sinks or rises by the same
/// amount: its new depth is its old depth, less that of the moved node, plus
/// that of the destination, plus one.
pub proof fn law_move_keeps_subtree<T>(
    m: TreeModel<T>,
    src: usize,
    dest: usize,
    pos: int,
    j: usize,
    a: usize,
)
    requires
        m.wf(),
        m.movable(src, dest, pos),
        m.in_subtree(j, src),
    ensures
        m.moved(src, dest, pos).wf(),
        m.moved(src, dest, pos).is_ancestor(j, dest),
        m.in_subtree(a, src) ==> (m.moved(src, dest, pos).is_ancestor(j, a) <==> m.is_ancestor(
            j,
            a,
        )),
        forall|dj: nat, ds: nat, dd: nat|
            m.is_depth(j, dj) && m.is_depth(src, ds) && m.is_depth(dest, dd) ==> m.moved(
                src,
                dest,
                pos,
            ).is_depth(j, (dj - ds + dd + 1) as nat),
{
    let m2 = m.moved(src, dest, pos);
    m.lemma_depths_rank();
    let levels = m.depths();
    m.lemma_moved(levels, src, dest, pos);
    m2.lemma_ranked_rooted(m.levels_moved(levels, src, dest));
    m.lemma_moved_reach(levels, src, dest, pos, j);
    if m.in_subtree(a, src) {
        m.lemma_moved_ancestry(levels, src, dest, pos, j, a);
    }
    m.lemma_moved_depth(levels, src, dest, pos, j);
    assert forall|dj: nat, ds: nat, dd: nat|
        m.is_depth(j, dj) && m.is_depth(src, ds) && m.is_depth(dest, dd) implies m2.is_depth(
        j,
        (dj - ds + dd + 1) as nat,
    ) by {
        m.lemma_climb_to_root(levels, j);
        m.lemma_climb_to_root(levels, src);
        m.lemma_climb_to_root(levels, dest);
        m.lemma_depth_unique(j, dj, levels[j as int]);
        m.lemma_depth_unique(src, ds, levels[src as int]);
        m.lemma_depth_unique(dest, dd, levels[dest as int]);
    }
}

} // verus!
