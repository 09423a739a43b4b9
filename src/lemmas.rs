//! Lemmas about the model: how climbing parent links behaves, and why each
//! change that the tree makes keeps it in order.
use vstd::prelude::*;
use vstd::set_lib::{lemma_int_range, lemma_len_subset, set_int_range};

use crate::model::{allows_children, allows_data, occupied_count, without, NodeModel, TreeModel};
use crate::tree::{ALLOW_CHILDREN, ALLOW_DATA};

verus! {

/// What each combination of the two feature bits grants.
pub proof fn lemma_feature_bits()
    ensures
        allows_children(ALLOW_CHILDREN) && !allows_data(ALLOW_CHILDREN),
        !allows_children(ALLOW_DATA) && allows_data(ALLOW_DATA),
        allows_children(ALLOW_CHILDREN | ALLOW_DATA) && allows_data(ALLOW_CHILDREN | ALLOW_DATA),
        !allows_children(0) && !allows_data(0),
{
    assert(1u8 & 1u8 == 1u8 && 1u8 & 2u8 != 2u8) by (bit_vector);
    assert(2u8 & 1u8 != 1u8 && 2u8 & 2u8 == 2u8) by (bit_vector);
    assert((1u8 | 2u8) & 1u8 == 1u8 && (1u8 | 2u8) & 2u8 == 2u8) by (bit_vector);
    assert(0u8 & 1u8 != 1u8 && 0u8 & 2u8 != 2u8) by (bit_vector);
}

/// The number of nodes never exceeds the number of slots.
pub proof fn lemma_count_le_len<N>(s: Seq<Option<N>>)
    ensures
        occupied_count(s) <= s.len(),
    decreases s.len(),
{
    if s.len() > 0 {
        lemma_count_le_len(s.drop_last());
    }
}

impl<T> TreeModel<T> {
    /// One more parent link from where `k` links led.
    pub proof fn lemma_climb_step(self, i: usize, k: nat)
        ensures
            self.climb(i, k + 1) == match self.climb(i, k) {
                Some(c) => self.parent_of(c as int),
                None => None,
            },
        decreases k,
    {
        if let Some(p) = self.parent_of(i as int) {
            assert(self.climb(p, 0) == Some(p));
            if k > 0 {
                self.lemma_climb_step(p, (k - 1) as nat);
            }
        }
    }

    /// Past a node without parent, climbing leads nowhere.
    pub proof fn lemma_climb_past_top(self, i: usize, d: nat, k: nat)
        requires
            self.climb(i, d) matches Some(c) && self.parent_of(c as int) is None,
            k > d,
        ensures
            self.climb(i, k) is None,
        decreases k,
    {
        self.lemma_climb_step(i, (k - 1) as nat);
        if k - 1 > d {
            self.lemma_climb_past_top(i, d, (k - 1) as nat);
        }
    }

    /// Climbing `k` links stays among living nodes and lowers the level by `k`.
    pub proof fn lemma_climb_levels(self, levels: Seq<nat>, i: usize, k: nat)
        requires
            self.linked(),
            self.ranked_by(levels),
            self.occupied(i as int),
            k <= levels[i as int],
        ensures
            self.climb(i, k) matches Some(c) && self.occupied(c as int) && levels[c as int] + k
                == levels[i as int],
        decreases k,
    {
        if k > 0 {
            self.lemma_climb_levels(levels, i, (k - 1) as nat);
            self.lemma_climb_step(i, (k - 1) as nat);
            let c = self.climb(i, (k - 1) as nat)->0;
            assert(self.occupied(c as int));
            assert(self.node_wf(c as int));
            if self.parent_of(c as int) is None {
                assert(self.root == Some(c));
            }
        }
    }

    /// A node reaches the root after as many links as its level.
    pub proof fn lemma_climb_to_root(self, levels: Seq<nat>, i: usize)
        requires
            self.linked(),
            self.ranked_by(levels),
            self.occupied(i as int),
        ensures
            self.climb(i, levels[i as int]) == self.root,
    {
        let l = levels[i as int];
        self.lemma_climb_levels(levels, i, l);
        let c = self.climb(i, l)->0;
        assert(self.node_wf(c as int));
        if self.parent_of(c as int) is Some {
            assert(levels[c as int] > 0);
        }
    }

    /// A ranking shows that every node reaches the root.
    pub proof fn lemma_ranked_rooted(self, levels: Seq<nat>)
        requires
            self.linked(),
            self.ranked_by(levels),
        ensures
            self.rooted(),
    {
        assert forall|i: int| #[trigger] self.occupied(i) implies exists|d: nat| #[trigger]
            self.climb(i as usize, d) == self.root by {
            self.lemma_climb_to_root(levels, i as usize);
        }
    }

    /// The nodes met on the first `k` links above `i`.
    pub open spec fn chain(self, i: usize, k: nat) -> Set<int>
        decreases k,
    {
        if k == 0 {
            set![i as int]
        } else {
            self.chain(i, (k - 1) as nat).insert(self.climb(i, k)->0 as int)
        }
    }

    /// The nodes above `i` are all distinct, so there are fewer levels than slots.
    pub proof fn lemma_chain_len(self, levels: Seq<nat>, i: usize, k: nat)
        requires
            self.linked(),
            self.ranked_by(levels),
            self.occupied(i as int),
            k <= levels[i as int],
        ensures
            self.chain(i, k).finite(),
            self.chain(i, k).len() == k + 1,
            forall|c: int| #[trigger]
                self.chain(i, k).contains(c) ==> 0 <= c < self.slots.len() && levels[c]
                    >= levels[i as int] - k,
        decreases k,
    {
        self.lemma_climb_levels(levels, i, k);
        if k > 0 {
            self.lemma_chain_len(levels, i, (k - 1) as nat);
        }
    }

    /// A level is below the number of slots.
    pub proof fn lemma_level_below_len(self, levels: Seq<nat>, i: usize)
        requires
            self.linked(),
            self.ranked_by(levels),
            self.occupied(i as int),
        ensures
            levels[i as int] < self.slots.len(),
    {
        let l = levels[i as int];
        self.lemma_chain_len(levels, i, l);
        lemma_int_range(0, self.slots.len() as int);
        lemma_len_subset(self.chain(i, l), set_int_range(0, self.slots.len() as int));
    }
}

/// Inserting `x` where it is absent keeps a list free of duplicates, and the
/// list then holds `x` besides what it held.
pub proof fn lemma_insert_fresh(s: Seq<usize>, pos: int, x: usize)
    requires
        0 <= pos <= s.len(),
        s.no_duplicates(),
        !s.contains(x),
    ensures
        s.insert(pos, x).no_duplicates(),
        forall|y: usize| s.insert(pos, x).contains(y) <==> (y == x || s.contains(y)),
{
    s.insert_ensures(pos, x);
    let t = s.insert(pos, x);
    assert forall|a: int, b: int| 0 <= a < t.len() && 0 <= b < t.len() && a != b implies t[a]
        != t[b] by {
        if a < pos && b > pos {
            assert(t[b] == s[b - 1]);
        } else if a > pos && b < pos {
            assert(t[a] == s[a - 1]);
        } else if a > pos && b > pos {
            assert(t[a] == s[a - 1] && t[b] == s[b - 1]);
        } else if a == pos && b < pos {
            assert(s.contains(t[b]));
        } else if a == pos && b > pos {
            assert(t[b] == s[b - 1]);
            assert(s.contains(t[b]));
        } else if b == pos && a < pos {
            assert(s.contains(t[a]));
        } else if b == pos && a > pos {
            assert(t[a] == s[a - 1]);
            assert(s.contains(t[a]));
        }
    }
    assert forall|y: usize| t.contains(y) <==> (y == x || s.contains(y)) by {
        if t.contains(y) {
            let a = choose|a: int| 0 <= a < t.len() && t[a] == y;
            if a < pos {
                assert(s[a] == y);
            } else if a > pos {
                assert(s[a - 1] == y);
            }
        }
        if s.contains(y) {
            let a = choose|a: int| 0 <= a < s.len() && s[a] == y;
            if a < pos {
                assert(t[a] == y);
            } else {
                assert(t[a + 1] == y);
            }
        }
        if y == x {
            assert(t[pos] == x);
        }
    }
}

/// Removing `x` from a list free of duplicates that holds it leaves the list
/// free of duplicates, one shorter, with everything but `x`.
pub proof fn lemma_without(s: Seq<usize>, x: usize)
    requires
        s.no_duplicates(),
        s.contains(x),
    ensures
        without(s, x).no_duplicates(),
        without(s, x).len() == s.len() - 1,
        forall|y: usize| without(s, x).contains(y) <==> (y != x && s.contains(y)),
{
    s.index_of_first_ensures(x);
    let i = s.index_of_first(x)->0;
    s.remove_ensures(i);
    let t = s.remove(i);
    assert(without(s, x) == t);
    assert forall|a: int, b: int| 0 <= a < t.len() && 0 <= b < t.len() && a != b implies t[a]
        != t[b] by {
        let a1 = if a < i { a } else { a + 1 };
        let b1 = if b < i { b } else { b + 1 };
        assert(t[a] == s[a1] && t[b] == s[b1]);
    }
    assert forall|y: usize| t.contains(y) <==> (y != x && s.contains(y)) by {
        if t.contains(y) {
            let a = choose|a: int| 0 <= a < t.len() && t[a] == y;
            let a1 = if a < i { a } else { a + 1 };
            assert(s[a1] == y);
            assert(a1 != i);
        }
        if y != x && s.contains(y) {
            let a = choose|a: int| 0 <= a < s.len() && s[a] == y;
            assert(a != i);
            if a < i {
                assert(t[a] == y);
            } else {
                assert(t[a - 1] == y);
            }
        }
    }
}

impl<T> TreeModel<T> {
    /// The levels after a node one level below `anchor` is stored at slot `idx`.
    pub open spec fn levels_attached(self, levels: Seq<nat>, anchor: usize, idx: usize) -> Seq<nat> {
        if idx == levels.len() {
            levels.push(levels[anchor as int] + 1)
        } else {
            levels.update(idx as int, levels[anchor as int] + 1)
        }
    }

    /// Storing a fresh node in the first vacant slot and listing it under a
    /// node that may have children keeps the links in order.
    pub proof fn lemma_attached(
        self,
        levels: Seq<nat>,
        anchor: usize,
        pos: int,
        idx: usize,
        n: NodeModel<T>,
    )
        requires
            self.linked(),
            self.ranked_by(levels),
            self.occupied(anchor as int),
            allows_children(self.node(anchor as int).features),
            0 <= pos <= self.children_of(anchor as int).len(),
            self.is_first_vacant(idx as int),
            self.with_slot(idx as int, n).slots.len() <= usize::MAX,
            n == NodeModel::fresh(n.features, Some(anchor), n.node_type, n.data_type),
        ensures
            self.attached(anchor, pos, idx, n).linked(),
            self.attached(anchor, pos, idx, n).ranked_by(self.levels_attached(levels, anchor, idx)),
    {
        let m2 = self.attached(anchor, pos, idx, n);
        let levels2 = self.levels_attached(levels, anchor, idx);
        let k = self.children_of(anchor as int);
        let k2 = k.insert(pos, idx);
        assert(self.node_wf(anchor as int));
        assert(!k.contains(idx)) by {
            if k.contains(idx) {
                let t = choose|t: int| 0 <= t < k.len() && k[t] == idx;
                assert(self.child_wf(anchor as int, k[t]));
            }
        }
        lemma_insert_fresh(k, pos, idx);
        assert(m2.children_of(anchor as int) == k2);
        assert(idx != anchor);
        assert forall|j: int| m2.occupied(j) <==> (self.occupied(j) || j == idx) by {}
        assert forall|j: int| #[trigger] m2.occupied(j) implies m2.node_wf(j) by {
            if j != idx {
                assert(self.node_wf(j));
                if let Some(p) = self.node(j).parent {
                    if p == anchor {
                        assert(k.contains(j as usize));
                    } else {
                        assert(m2.children_of(p as int) == self.children_of(p as int));
                    }
                }
            } else {
                assert(m2.node(j).kids() =~= Seq::<usize>::empty());
            }
        }
        assert forall|i: int, t: int|
            m2.occupied(i) && 0 <= t < m2.children_of(i).len() implies m2.child_wf(
            i,
            #[trigger] m2.children_of(i)[t],
        ) by {
            if i == anchor {
                let c = k2[t];
                assert(k2.contains(c));
                if c != idx {
                    assert(k.contains(c));
                    let u = choose|u: int| 0 <= u < k.len() && k[u] == c;
                    assert(self.child_wf(i, k[u]));
                }
            } else if i != idx {
                assert(self.child_wf(i, self.children_of(i)[t]));
            }
        }
        assert forall|j: int| m2.occupied(j) && (#[trigger] m2.parent_of(j)) is Some implies levels2[j]
            == levels2[(m2.parent_of(j)->0) as int] + 1 by {
            if j != idx {
                assert(self.parent_of(j) == m2.parent_of(j));
                assert(self.node_wf(j));
            }
        }
        if let Some(r) = self.root {
            assert(self.node_wf(r as int));
        }
    }

    /// A fresh root alone in the tree is in order.
    pub proof fn lemma_planted(n: NodeModel<T>)
        requires
            n == NodeModel::fresh(n.features, None, n.node_type, n.data_type),
        ensures
            Self::planted(n).wf(),
            Self::planted(n).ranked_by(seq![0nat]),
    {
        let m = Self::planted(n);
        assert(m.node(0).kids() =~= Seq::<usize>::empty());
        assert forall|j: int| #[trigger] m.occupied(j) implies m.node_wf(j) by {}
        m.lemma_ranked_rooted(seq![0nat]);
    }
}

impl<T> TreeModel<T> {
    /// Removing a childless node keeps the links in order.
    pub proof fn lemma_detached(self, levels: Seq<nat>, i: usize)
        requires
            self.linked(),
            self.ranked_by(levels),
            self.occupied(i as int),
            self.children_of(i as int).len() == 0,
        ensures
            self.detached(i).linked(),
            self.detached(i).ranked_by(if self.root == Some(i) { Seq::empty() } else { levels }),
    {
        let m2 = self.detached(i);
        assert(self.node_wf(i as int));
        if self.root != Some(i) {
            let p = self.node(i as int).parent->0;
            let k = self.children_of(p as int);
            assert(self.node_wf(p as int));
            lemma_without(k, i);
            assert(p != i);
            assert(m2.children_of(p as int) == without(k, i));
            assert forall|j: int| m2.occupied(j) <==> (self.occupied(j) && j != i) by {}
            assert forall|j: int| #[trigger] m2.occupied(j) implies m2.node_wf(j) by {
                assert(self.node_wf(j));
                if let Some(q) = self.node(j).parent {
                    if q == i {
                        assert(self.children_of(i as int).contains(j as usize));
                    }
                    if q == p {
                        assert(j != i as int);
                        assert(k.contains(j as usize));
                        assert(without(k, i).contains(j as usize));
                    } else {
                        assert(m2.children_of(q as int) == self.children_of(q as int));
                    }
                }
            }
            assert forall|a: int, t: int|
                m2.occupied(a) && 0 <= t < m2.children_of(a).len() implies m2.child_wf(
                a,
                #[trigger] m2.children_of(a)[t],
            ) by {
                if a == p {
                    let c = without(k, i)[t];
                    assert(without(k, i).contains(c));
                    assert(k.contains(c));
                    let u = choose|u: int| 0 <= u < k.len() && k[u] == c;
                    assert(self.child_wf(a, k[u]));
                } else {
                    assert(self.child_wf(a, self.children_of(a)[t]));
                }
            }
            assert forall|j: int| m2.occupied(j) && (#[trigger] m2.parent_of(j)) is Some implies levels[j]
                == levels[(m2.parent_of(j)->0) as int] + 1 by {
                assert(self.parent_of(j) == m2.parent_of(j));
            }
        } else {
            assert(m2.slots.len() == 0);
        }
    }
}

impl<T> TreeModel<T> {
    /// `a` lies above `j` exactly when it is the parent of `j` or lies above that parent.
    pub proof fn lemma_ancestor_via_parent(self, j: usize, a: usize)
        requires
            self.parent_of(j as int) is Some,
        ensures
            self.is_ancestor(j, a) <==> (self.parent_of(j as int) == Some(a) || self.is_ancestor(
                self.parent_of(j as int)->0,
                a,
            )),
    {
        let q = self.parent_of(j as int)->0;
        assert(self.climb(q, 0) == Some(q));
        assert(self.climb(j, 1) == Some(q));
        if self.is_ancestor(j, a) {
            let k = choose|k: nat| k >= 1 && #[trigger] self.climb(j, k) == Some(a);
            if k > 1 {
                assert(self.climb(q, (k - 1) as nat) == Some(a));
            }
        }
        if self.is_ancestor(q, a) {
            let k = choose|k: nat| k >= 1 && #[trigger] self.climb(q, k) == Some(a);
            assert(self.climb(j, k + 1) == Some(a));
        }
    }

    /// An ancestor lies as many levels higher as links lead to it.
    pub proof fn lemma_ancestor_level(self, levels: Seq<nat>, j: usize, a: usize, k: nat)
        requires
            self.linked(),
            self.ranked_by(levels),
            self.occupied(j as int),
            self.climb(j, k) == Some(a),
        ensures
            k <= levels[j as int],
            self.occupied(a as int),
            levels[a as int] + k == levels[j as int],
    {
        let l = levels[j as int];
        if k > l {
            self.lemma_climb_to_root(levels, j);
            let r = self.root->0;
            assert(self.node_wf(r as int));
            self.lemma_climb_past_top(j, l, k);
        }
        self.lemma_climb_levels(levels, j, k);
    }

    /// The levels after the subtree of `src` is hung below `dest`.
    pub open spec fn levels_moved(self, levels: Seq<nat>, src: usize, dest: usize) -> Seq<nat> {
        Seq::new(
            levels.len(),
            |j: int|
                if self.in_subtree(j as usize, src) {
                    (levels[j] - levels[src as int] + levels[dest as int] + 1) as nat
                } else {
                    levels[j]
                },
        )
    }

    /// Hanging a node that is not the root below a node that may have
    /// children and does not lie below it keeps the links in order.
    pub proof fn lemma_moved(self, levels: Seq<nat>, src: usize, dest: usize, pos: int)
        requires
            self.linked(),
            self.ranked_by(levels),
            self.movable(src, dest, pos),
        ensures
            self.moved(src, dest, pos).linked(),
            self.moved(src, dest, pos).ranked_by(self.levels_moved(levels, src, dest)),
    {
        let m2 = self.moved(src, dest, pos);
        let levels2 = self.levels_moved(levels, src, dest);
        let lifted = self.lifted(src);
        assert(self.node_wf(src as int));
        assert(self.node_wf(dest as int));
        let p = self.node(src as int).parent->0;
        assert(self.node_wf(p as int));
        let kp = self.children_of(p as int);
        lemma_without(kp, src);
        let l = lifted.children_of(dest as int);
        assert(l.no_duplicates());
        assert(!l.contains(src)) by {
            if p != dest && l.contains(src) {
                let u = choose|u: int| 0 <= u < l.len() && l[u] == src;
                assert(self.child_wf(dest as int, self.children_of(dest as int)[u]));
            }
        }
        lemma_insert_fresh(l, pos, src);
        let l2 = l.insert(pos, src);
        assert(m2.children_of(dest as int) == l2);
        assert(p != dest ==> m2.children_of(p as int) == without(kp, src));
        assert forall|j: int| m2.occupied(j) <==> self.occupied(j) by {}
        assert forall|j: int|
            0 <= j < self.slots.len() && j != src && j != dest && j != p implies #[trigger] m2.slots[j]
            == self.slots[j] by {}
        assert forall|j: int| j != src implies #[trigger] m2.parent_of(j) == self.parent_of(j) by {}
        assert forall|j: int| #[trigger] m2.occupied(j) implies m2.node_wf(j) by {
            assert(self.node_wf(j));
            if j == src {
                assert(l2.contains(src));
            } else if let Some(q) = self.node(j).parent {
                assert(self.children_of(q as int).contains(j as usize));
                if q == dest {
                    if p == dest {
                        assert(without(kp, src).contains(j as usize));
                    }
                    assert(l2.contains(j as usize));
                } else if q == p {
                    assert(without(kp, src).contains(j as usize));
                } else {
                    assert(m2.children_of(q as int) == self.children_of(q as int));
                }
            }
        }
        assert forall|i: int, t: int|
            m2.occupied(i) && 0 <= t < m2.children_of(i).len() implies m2.child_wf(
            i,
            #[trigger] m2.children_of(i)[t],
        ) by {
            let c = m2.children_of(i)[t];
            assert(m2.children_of(i).contains(c));
            if i == dest {
                if c != src {
                    assert(l.contains(c));
                    if p == dest {
                        assert(kp.contains(c));
                    }
                    assert(self.children_of(i).contains(c));
                    let u = choose|u: int|
                        0 <= u < self.children_of(i).len() && self.children_of(i)[u] == c;
                    assert(self.child_wf(i, self.children_of(i)[u]));
                }
            } else if i == p {
                assert(without(kp, src).contains(c));
                assert(kp.contains(c));
                let u = choose|u: int| 0 <= u < kp.len() && kp[u] == c;
                assert(self.child_wf(i, kp[u]));
            } else {
                assert(self.child_wf(i, self.children_of(i)[t]));
                assert(c != src);
            }
        }
        assert forall|j: int| m2.occupied(j) && (#[trigger] m2.parent_of(j)) is Some implies levels2[j]
            == levels2[(m2.parent_of(j)->0) as int] + 1 by {
            let q = m2.parent_of(j)->0;
            if j == src as int {
                assert(self.in_subtree(src, src));
                assert(!self.in_subtree(dest, src));
            } else {
                assert(self.parent_of(j) == Some(q));
                self.lemma_ancestor_via_parent(j as usize, src);
                if self.in_subtree(j as usize, src) {
                    assert(self.in_subtree(q, src));
                    if q != src {
                        let k = choose|k: nat| k >= 1 && #[trigger] self.climb(q, k) == Some(src);
                        self.lemma_ancestor_level(levels, q, src, k);
                    }
                } else {
                    assert(!self.in_subtree(q, src));
                }
            }
        }
        if let Some(r) = self.root {
            assert(self.node_wf(r as int));
            assert(levels2[r as int] == 0) by {
                if self.is_ancestor(r, src) {
                    let k = choose|k: nat| k >= 1 && #[trigger] self.climb(r, k) == Some(src);
                    self.lemma_ancestor_level(levels, r, src, k);
                }
            }
        }
    }
}

impl<T> TreeModel<T> {
    /// Changing the data of a node that may hold data leaves the links alone.
    pub proof fn lemma_with_data(self, levels: Seq<nat>, i: int, data: Seq<T>)
        requires
            self.linked(),
            self.ranked_by(levels),
            self.occupied(i),
            allows_data(self.node(i).features),
        ensures
            self.with_data_at(i, data).wf(),
            self.with_data_at(i, data).ranked_by(levels),
    {
        let m2 = self.with_data_at(i, data);
        assert forall|j: int| m2.occupied(j) <==> self.occupied(j) by {}
        assert forall|j: int| #[trigger] m2.occupied(j) implies m2.node_wf(j) by {
            assert(self.node_wf(j));
            if let Some(q) = self.node(j).parent {
                assert(m2.children_of(q as int) == self.children_of(q as int));
            }
        }
        assert forall|a: int, t: int|
            m2.occupied(a) && 0 <= t < m2.children_of(a).len() implies m2.child_wf(
            a,
            #[trigger] m2.children_of(a)[t],
        ) by {
            assert(self.child_wf(a, self.children_of(a)[t]));
        }
        assert forall|j: int| m2.occupied(j) && (#[trigger] m2.parent_of(j)) is Some implies levels[j]
            == levels[(m2.parent_of(j)->0) as int] + 1 by {
            assert(self.parent_of(j) == m2.parent_of(j));
        }
        m2.lemma_ranked_rooted(levels);
    }
}

/// Storing `x` at slot `i` changes the count by what leaves and what arrives.
pub proof fn lemma_count_update<N>(s: Seq<Option<N>>, i: int, x: Option<N>)
    requires
        0 <= i < s.len(),
    ensures
        occupied_count(s.update(i, x)) + (if s[i] is Some {
            1nat
        } else {
            0nat
        }) == occupied_count(s) + (if x is Some {
            1nat
        } else {
            0nat
        }),
    decreases s.len(),
{
    if i < s.len() - 1 {
        assert(s.update(i, x).drop_last() =~= s.drop_last().update(i, x));
        lemma_count_update(s.drop_last(), i, x);
    } else {
        assert(s.update(i, x).drop_last() =~= s.drop_last());
    }
}

impl<T> TreeModel<T> {
    /// Climbing `a` links and then `b` more is climbing `a + b` links.
    pub proof fn lemma_climb_add(self, i: usize, a: nat, b: nat)
        ensures
            self.climb(i, a + b) == match self.climb(i, a) {
                Some(c) => self.climb(c, b),
                None => None,
            },
        decreases a,
    {
        if a > 0 {
            if let Some(p) = self.parent_of(i as int) {
                self.lemma_climb_add(p, (a - 1) as nat, b);
            }
        }
    }

    /// A node lies at one distance from the root only.
    pub proof fn lemma_depth_unique(self, i: usize, a: nat, b: nat)
        requires
            self.linked(),
            self.root is Some,
            self.climb(i, a) == self.root,
            self.climb(i, b) == self.root,
        ensures
            a == b,
    {
        let r = self.root->0;
        assert(self.node_wf(r as int));
        if a < b {
            self.lemma_climb_add(i, a, (b - a) as nat);
            assert(self.climb(r, 0) == Some(r));
            self.lemma_climb_past_top(r, 0, (b - a) as nat);
        } else if b < a {
            self.lemma_climb_add(i, b, (a - b) as nat);
            assert(self.climb(r, 0) == Some(r));
            self.lemma_climb_past_top(r, 0, (a - b) as nat);
        }
    }

    /// How many links lead from node `i` up to the root.
    pub open spec fn depth_of(self, i: usize) -> nat {
        choose|d: nat| #[trigger] self.climb(i, d) == self.root
    }

    /// The depth of every slot, zero for a vacant one.
    pub open spec fn depths(self) -> Seq<nat> {
        Seq::new(
            self.slots.len(),
            |j: int|
                if self.occupied(j) {
                    self.depth_of(j as usize)
                } else {
                    0
                },
        )
    }

    /// In a tree in order, the depths rank the nodes.
    pub proof fn lemma_depths_rank(self)
        requires
            self.wf(),
        ensures
            self.ranked_by(self.depths()),
    {
        let levels = self.depths();
        assert forall|j: int| self.occupied(j) implies #[trigger] self.climb(j as usize, levels[j])
            == self.root by {
            assert(exists|d: nat| #[trigger] self.climb(j as usize, d) == self.root);
        }
        assert forall|j: int| self.occupied(j) && (#[trigger] self.parent_of(j)) is Some implies levels[j]
            == levels[(self.parent_of(j)->0) as int] + 1 by {
            let q = self.parent_of(j)->0;
            assert(self.node_wf(j));
            assert(self.climb(j as usize, levels[j]) == self.root);
            assert(self.climb(q, levels[q as int]) == self.root);
            if levels[j] == 0 {
                assert(self.climb(j as usize, 0) == Some(j as usize));
            }
            assert(self.climb(j as usize, levels[q as int] + 1) == self.root);
            self.lemma_depth_unique(j as usize, levels[j], levels[q as int] + 1);
        }
        if let Some(r) = self.root {
            assert(self.climb(r, levels[r as int]) == self.root);
            assert(self.climb(r, 0) == self.root);
            self.lemma_depth_unique(r, levels[r as int], 0);
        }
    }

    /// Below the moved node, the links up to it are those of before.
    pub proof fn lemma_moved_path(
        self,
        levels: Seq<nat>,
        src: usize,
        dest: usize,
        pos: int,
        j: usize,
        k0: nat,
        k: nat,
    )
        requires
            self.linked(),
            self.ranked_by(levels),
            self.occupied(j as int),
            self.climb(j, k0) == Some(src),
            self.root != Some(src),
            self.occupied(dest as int),
            k <= k0,
        ensures
            self.moved(src, dest, pos).climb(j, k) == self.climb(j, k),
        decreases k,
    {
        let m2 = self.moved(src, dest, pos);
        if k > 0 {
            self.lemma_moved_path(levels, src, dest, pos, j, k0, (k - 1) as nat);
            self.lemma_ancestor_level(levels, j, src, k0);
            self.lemma_climb_levels(levels, j, (k - 1) as nat);
            let x = self.climb(j, (k - 1) as nat)->0;
            assert(x != src);
            assert(self.node_wf(src as int));
            let lifted = self.lifted(src);
            assert(self.occupied(x as int));
            assert(lifted.slots.len() == self.slots.len());
            assert(lifted.occupied(x as int));
            assert(lifted.node(x as int).parent == self.node(x as int).parent);
            let l2 = lifted.with_kids_at(dest as int, lifted.children_of(dest as int).insert(pos, src));
            assert(l2.occupied(x as int) && l2.node(x as int).parent == self.node(x as int).parent);
            assert(m2.parent_of(x as int) == self.parent_of(x as int));
            self.lemma_climb_step(j, (k - 1) as nat);
            m2.lemma_climb_step(j, (k - 1) as nat);
        }
    }
}

impl<T> TreeModel<T> {
    /// From a node of the moved subtree, the links lead up to `src` as
    /// before, `k0` of them, and one more leads on to `dest`.
    pub proof fn lemma_moved_reach(
        self,
        levels: Seq<nat>,
        src: usize,
        dest: usize,
        pos: int,
        j: usize,
    ) -> (k0: nat)
        requires
            self.linked(),
            self.ranked_by(levels),
            self.movable(src, dest, pos),
            self.in_subtree(j, src),
        ensures
            self.occupied(j as int),
            self.climb(j, k0) == Some(src),
            levels[src as int] + k0 == levels[j as int],
            self.moved(src, dest, pos).climb(j, k0 + 1) == Some(dest),
    {
        let m2 = self.moved(src, dest, pos);
        let k0: nat = if j == src {
            0
        } else {
            choose|k: nat| k >= 1 && #[trigger] self.climb(j, k) == Some(src)
        };
        assert(self.climb(j, k0) == Some(src));
        assert(self.occupied(j as int));
        self.lemma_ancestor_level(levels, j, src, k0);
        self.lemma_moved_path(levels, src, dest, pos, j, k0, k0);
        assert(m2.parent_of(src as int) == Some(dest));
        m2.lemma_climb_step(j, k0);
        k0
    }

    /// Among the nodes of the moved subtree, ancestry is as before.
    pub proof fn lemma_moved_ancestry(
        self,
        levels: Seq<nat>,
        src: usize,
        dest: usize,
        pos: int,
        j: usize,
        a: usize,
    )
        requires
            self.linked(),
            self.ranked_by(levels),
            self.movable(src, dest, pos),
            self.in_subtree(j, src),
            self.in_subtree(a, src),
        ensures
            self.moved(src, dest, pos).is_ancestor(j, a) <==> self.is_ancestor(j, a),
    {
        let m2 = self.moved(src, dest, pos);
        let levels2 = self.levels_moved(levels, src, dest);
        self.lemma_moved(levels, src, dest, pos);
        let k0 = self.lemma_moved_reach(levels, src, dest, pos, j);
        if a != src {
            let ka = choose|ka: nat| ka >= 1 && #[trigger] self.climb(a, ka) == Some(src);
            self.lemma_ancestor_level(levels, a, src, ka);
        }
        if self.is_ancestor(j, a) {
            let k = choose|k: nat| k >= 1 && #[trigger] self.climb(j, k) == Some(a);
            self.lemma_ancestor_level(levels, j, a, k);
            self.lemma_moved_path(levels, src, dest, pos, j, k0, k);
            assert(m2.climb(j, k) == Some(a));
        }
        if m2.is_ancestor(j, a) {
            let k = choose|k: nat| k >= 1 && #[trigger] m2.climb(j, k) == Some(a);
            m2.lemma_ancestor_level(levels2, j, a, k);
            self.lemma_moved_path(levels, src, dest, pos, j, k0, k);
            assert(self.climb(j, k) == Some(a));
        }
    }
}

impl<T> TreeModel<T> {
    /// A node of the moved subtree keeps its distance below `src`, which
    /// now hangs one level below `dest`.
    pub proof fn lemma_moved_depth(
        self,
        levels: Seq<nat>,
        src: usize,
        dest: usize,
        pos: int,
        j: usize,
    )
        requires
            self.linked(),
            self.ranked_by(levels),
            self.movable(src, dest, pos),
            self.in_subtree(j, src),
        ensures
            self.moved(src, dest, pos).is_depth(
                j,
                (levels[j as int] - levels[src as int] + levels[dest as int] + 1) as nat,
            ),
    {
        let m2 = self.moved(src, dest, pos);
        let levels2 = self.levels_moved(levels, src, dest);
        self.lemma_moved(levels, src, dest, pos);
        self.lemma_moved_reach(levels, src, dest, pos, j);
        assert(m2.occupied(j as int));
        m2.lemma_climb_to_root(levels2, j);
    }
}

} // verus!
