//! An in-memory B-tree from ordered keys to values.

use crate::order::{
    binary_search, key_lt, lemma_sorted_concat, lemma_sorted_insert, lemma_sorted_remove,
    lemma_sorted_update, lemma_total_order, less, sorted, total_order,
};
use std::collections::HashMap;
use std::hash::Hash;
use vstd::prelude::*;
use vstd::std_specs::hash::obeys_key_model;

verus! {

/// What the tree asks of its key type: a total order through `<`, and hashing
/// that agrees with equality.  For the primitive integer types this follows
/// from the broadcast groups `vstd::laws_cmp::group_laws_cmp` and
/// `vstd::laws_eq::group_laws_eq`.
pub open spec fn key_model<K: Ord + Hash>() -> bool {
    &&& total_order::<K>()
    &&& obeys_key_model::<K>()
}

/// What a lookup of `k` in the map `m` gives.
pub open spec fn stored<K, V>(m: Map<K, V>, k: K) -> Option<V> {
    if m.contains_key(k) {
        Some(m[k])
    } else {
        None
    }
}

/// The map after an insertion that never overwrites: `k` gets `v` only if
/// `m` does not hold `k` yet.
pub open spec fn put_if_absent<K, V>(m: Map<K, V>, k: K, v: V) -> Map<K, V> {
    if m.contains_key(k) {
        m
    } else {
        m.insert(k, v)
    }
}

/// The map after inserting the pairs of `pairs` one after the other.
pub open spec fn put_all<K, V>(m: Map<K, V>, pairs: Seq<(K, V)>) -> Map<K, V>
    decreases pairs.len(),
{
    if pairs.len() == 0 {
        m
    } else {
        put_if_absent(put_all(m, pairs.drop_last()), pairs.last().0, pairs.last().1)
    }
}

/// The map after deleting the keys of `keys` one after the other.
pub open spec fn remove_all<K, V>(m: Map<K, V>, keys: Seq<K>) -> Map<K, V>
    decreases keys.len(),
{
    if keys.len() == 0 {
        m
    } else {
        remove_all(m, keys.drop_last()).remove(keys.last())
    }
}

/// One node of the tree: its keys in ascending order, the values of exactly
/// those keys, and, unless it is a leaf, one child more than it has keys.
pub struct TreeNode<K: Eq + Hash + Ord + Copy, V> {
    is_leaf: bool,
    degree: usize,
    keys: Vec<K>,
    payload: HashMap<K, V>,
    children: Vec<Box<TreeNode<K, V>>>,
}

/// A B-tree of minimum degree `degree`.
pub struct BTree<K: Eq + Hash + Ord + Copy, V> {
    root: TreeNode<K, V>,
    degree: usize,
}

impl<K: Eq + Hash + Ord + Copy, V> TreeNode<K, V> {
    /// `k` is stored in this node or below it.
    pub closed spec fn has(&self, k: K) -> bool
        decreases self,
    {
        self.payload@.contains_key(k) || exists|i: int|
            0 <= i < self.children@.len() && (#[trigger] self.children@[i]).has(k)
    }

    /// The value stored with `k` in this node or below it.
    pub closed spec fn val(&self, k: K) -> V
        decreases self,
    {
        if self.payload@.contains_key(k) {
            self.payload@[k]
        } else {
            let i = choose|i: int|
                0 <= i < self.children@.len() && (#[trigger] self.children@[i]).has(k);
            if 0 <= i < self.children@.len() {
                self.children@[i].val(k)
            } else {
                arbitrary()
            }
        }
    }

    /// Number of edges from this node down to its leaves.
    pub closed spec fn height(&self) -> nat
        decreases self,
    {
        if self.children@.len() == 0 {
            0
        } else {
            self.children@[0].height() + 1
        }
    }

    /// The minimum degree this node was made with.
    pub closed spec fn spec_degree(&self) -> int {
        self.degree as int
    }

    /// Number of keys held by this node itself.
    pub open spec fn key_count(&self) -> nat {
        self.node_keys().len()
    }

    /// Whether the node is marked as a leaf.
    pub closed spec fn leaf(&self) -> bool {
        self.is_leaf
    }

    /// The node holds no key, no value and no child.
    pub open spec fn blank(&self) -> bool {
        &&& self.node_keys().len() == 0
        &&& self.node_children().len() == 0
        &&& self.node_values() == Map::<K, V>::empty()
    }

    /// Number of children attached to this node.
    pub open spec fn child_count(&self) -> nat {
        self.node_children().len()
    }

    /// The keys held by this node itself, in the order it keeps them.
    pub closed spec fn node_keys(&self) -> Seq<K> {
        self.keys@
    }

    /// The values held by this node itself, by key.
    pub closed spec fn node_values(&self) -> Map<K, V> {
        self.payload@
    }

    /// The `i`-th child of this node.
    pub open spec fn child(&self, i: int) -> TreeNode<K, V> {
        *self.node_children()[i]
    }

    /// The children of this node, in their order.
    pub closed spec fn node_children(&self) -> Seq<Box<TreeNode<K, V>>> {
        self.children@
    }

    /// The child that a search for `key` enters: the one between the last
    /// key below `key` and the first key above it.
    pub open spec fn slot(&self, key: K) -> int {
        choose|i: int| 0 <= i <= self.node_keys().len() && self.in_gap(i, key)
    }

    /// The shape that the tree keeps: no node holds more than `2t - 1` keys,
    /// none but the root fewer than `t - 1`; an inner node has one child more
    /// than keys, a leaf has none; all children of a node are of one height
    /// and of the node's degree `t`.
    pub open spec fn shaped(&self, is_root: bool) -> bool
        decreases self,
    {
        let t = self.spec_degree();
        &&& self.key_count() <= 2 * t - 1
        &&& is_root || self.key_count() >= t - 1
        &&& if self.leaf() {
            self.child_count() == 0
        } else {
            self.child_count() == self.key_count() + 1
        }
        &&& forall|i: int|
            0 <= i < self.child_count() ==> {
                &&& (#[trigger] self.child(i)).shaped(false)
                &&& self.child(i).spec_degree() == t
                &&& self.child(i).height() + 1 == self.height()
            }
    }

    /// Both subtrees are built alike, node for node: the same kind and
    /// degree, the same keys and values in each node, children alike in turn.
    pub open spec fn same_structure(&self, other: &Self) -> bool
        decreases self,
    {
        &&& self.leaf() == other.leaf()
        &&& self.spec_degree() == other.spec_degree()
        &&& self.node_keys() == other.node_keys()
        &&& self.node_values() == other.node_values()
        &&& self.child_count() == other.child_count()
        &&& forall|i: int|
            0 <= i < self.child_count() ==> (#[trigger] self.child(i)).same_structure(
                &other.child(i),
            )
    }

    /// Every node that a search for `key` enters below this one holds at
    /// least `t` keys, so that a deletion can pass without rebalancing.
    pub open spec fn spares_along(&self, key: K) -> bool
        decreases self,
    {
        self.leaf() || {
            let i = self.slot(key);
            &&& 0 <= i < self.child_count()
            &&& self.child(i).key_count() >= self.spec_degree()
            &&& self.child(i).spares_along(key)
        }
    }

    /// The invariant of a subtree, whatever its position: bounded, sorted
    /// keys; values for exactly the keys; children that are themselves well
    /// formed, at least minimally filled, of one height, and each confined to
    /// the gap between its two neighbouring keys.
    pub closed spec fn wf(&self) -> bool
        decreases self,
    {
        &&& 2 <= self.degree <= usize::MAX / 2
        &&& self.keys@.len() <= 2 * self.degree - 1
        &&& sorted(self.keys@)
        &&& forall|k: K|
            #![trigger self.payload@.contains_key(k)]
            #![trigger self.keys@.contains(k)]
            self.payload@.contains_key(k) <==> self.keys@.contains(k)
        &&& if self.is_leaf {
            self.children@.len() == 0
        } else {
            self.children@.len() == self.keys@.len() + 1
        }
        &&& forall|i: int|
            0 <= i < self.children@.len() ==> (#[trigger] self.children@[i]).wf()
        &&& forall|i: int|
            0 <= i < self.children@.len() ==> {
                &&& (#[trigger] self.children@[i]).degree == self.degree
                &&& self.children@[i].keys@.len() >= self.degree - 1
                &&& self.children@[i].height() + 1 == self.height()
            }
        &&& forall|i: int, k: K|
            0 <= i < self.children@.len() && #[trigger] self.children@[i].has(k) ==> {
                &&& i > 0 ==> key_lt(self.keys@[i - 1], k)
                &&& i < self.keys@.len() ==> key_lt(k, self.keys@[i])
            }
    }
}

impl<K: Eq + Hash + Ord + Copy, V> View for TreeNode<K, V> {
    type V = Map<K, V>;

    closed spec fn view(&self) -> Map<K, V> {
        Map::new(|k: K| self.has(k), |k: K| self.val(k))
    }
}

impl<K: Eq + Hash + Ord + Copy, V> TreeNode<K, V> {
    /// A key found in child `i` is in no other child and not in the node itself.
    proof fn lemma_child_owns(&self, i: int, k: K)
        requires
            self.wf(),
            total_order::<K>(),
            0 <= i < self.children@.len(),
            self.children@[i].has(k),
        ensures
            !self.payload@.contains_key(k),
            forall|j: int| 0 <= j < self.children@.len() && j != i ==> !(#[trigger] self.children@[j]).has(k),
            self.has(k),
            self.val(k) == self.children@[i].val(k),
    {
        lemma_total_order::<K>();
        if self.payload@.contains_key(k) {
            assert(self.keys@.contains(k));
            let p = choose|p: int| 0 <= p < self.keys@.len() && self.keys@[p] == k;
            if p < i {
                if p < i - 1 {
                    assert(key_lt(self.keys@[p], self.keys@[i - 1]));
                }
            } else {
                if i < p {
                    assert(key_lt(self.keys@[i], self.keys@[p]));
                }
            }
            assert(false);
        }
        assert forall|j: int| 0 <= j < self.children@.len() && j != i implies !(
        #[trigger] self.children@[j]).has(k) by {
            if self.children@[j].has(k) {
                if j < i {
                    assert(key_lt(k, self.keys@[j]));
                    if j < i - 1 {
                        assert(key_lt(self.keys@[j], self.keys@[i - 1]));
                    }
                } else {
                    assert(key_lt(k, self.keys@[i]));
                    if i < j - 1 {
                        assert(key_lt(self.keys@[i], self.keys@[j - 1]));
                    }
                }
                assert(false);
            }
        }
        let c = choose|c: int| 0 <= c < self.children@.len() && (#[trigger] self.children@[c]).has(k);
        assert(c == i);
    }

    /// What `wf` says of the node itself, without looking into its children.
    proof fn lemma_wf_local(&self)
        requires
            self.wf(),
        ensures
            2 <= self.degree <= usize::MAX / 2,
            self.keys@.len() <= 2 * self.degree - 1,
            sorted(self.keys@),
            forall|k: K|
                #![trigger self.payload@.contains_key(k)]
                #![trigger self.keys@.contains(k)]
                self.payload@.contains_key(k) <==> self.keys@.contains(k),
            self.is_leaf ==> self.children@.len() == 0,
            !self.is_leaf ==> self.children@.len() == self.keys@.len() + 1,
            self.is_leaf <==> self.height() == 0,
            forall|i: int| 0 <= i < self.keys@.len() ==> self.has(#[trigger] self.keys@[i]),
            forall|i: int|
                0 <= i < self.keys@.len() ==> self.val(#[trigger] self.keys@[i])
                    == self.payload@[self.keys@[i]],
            forall|i: int|
                0 <= i < self.keys@.len() ==> self.payload@.contains_key(#[trigger] self.keys@[i]),
    {
        assert forall|i: int| 0 <= i < self.keys@.len() implies self.payload@.contains_key(
            #[trigger] self.keys@[i],
        ) by {
            assert(self.keys@.contains(self.keys@[i]));
        }
    }

    /// The view holds exactly the keys that `has` accepts, with the values
    /// that `val` gives.
    proof fn lemma_view(&self)
        ensures
            forall|k: K|
                #![trigger self@.contains_key(k)]
                #![trigger self.has(k)]
                self@.contains_key(k) <==> self.has(k),
            forall|k: K| self.has(k) ==> #[trigger] self@[k] == self.val(k),
    {
    }

    /// An empty node of the given kind.
    pub fn new(is_leaf: bool, degree: usize) -> (node: TreeNode<K, V>)
        requires
            2 <= degree <= usize::MAX / 2,
        ensures
            is_leaf ==> node.wf(),
            node@ == Map::<K, V>::empty(),
            node.blank(),
            node.key_count() == 0,
            node.child_count() == 0,
            node.height() == 0,
            node.spec_degree() == degree,
            node.leaf() == is_leaf,
    {
        let node = TreeNode { is_leaf, degree, keys: Vec::new(), payload: HashMap::new(), children: Vec::new() };
        proof {
            assert(node@ =~= Map::<K, V>::empty());
        }
        node
    }

    /// The most keys a node may hold: `2 * degree - 1`.
    fn capacity(&self) -> (c: usize)
        requires
            1 <= self.degree <= usize::MAX / 2,
        ensures
            c == 2 * self.degree - 1,
    {
        self.degree * 2 - 1
    }

    /// Whether the node holds as many keys as it may.
    pub fn is_full_node(&self) -> (full: bool)
        requires
            1 <= self.spec_degree() <= usize::MAX / 2,
        ensures
            full == (self.key_count() >= 2 * self.spec_degree() - 1),
    {
        self.keys.len() >= self.capacity()
    }

    /// Whether the node can give up a key and still hold the minimum.
    fn meet_degree(&self) -> (ok: bool)
        ensures
            ok == (self.keys@.len() >= self.degree),
    {
        self.keys.len() >= self.degree
    }

    /// The value stored for `target` in this subtree, if any.
    pub fn search(&self, target: &K) -> (found: Option<&V>)
        requires
            self.wf(),
            key_model::<K>(),
        ensures
            found == (if self@.contains_key(*target) {
                Some(&self@[*target])
            } else {
                None
            }),
        decreases self,
    {
        if self.payload.contains_key(target) {
            return self.payload.get(target);
        }
        if self.is_leaf {
            return None;
        }
        let index = match binary_search(&self.keys, target) {
            Ok(i) => i,
            Err(i) => i,
        };
        let found = self.children[index].search(target);
        proof {
            lemma_total_order::<K>();
            let k = *target;
            if self.children@[index as int].has(k) {
                self.lemma_child_owns(index as int, k);
            } else {
                assert forall|j: int| 0 <= j < self.children@.len() implies !(
                #[trigger] self.children@[j]).has(k) by {
                    if self.children@[j].has(k) && j != index {
                        self.lemma_child_owns(j, k);
                        if j < index {
                            assert(key_lt(k, self.keys@[j]));
                            assert(key_lt(self.keys@[j], k));
                        } else {
                            assert(key_lt(self.keys@[j - 1], k));
                            assert(key_lt(k, self.keys@[j - 1]));
                        }
                    }
                }
            }
        }
        found
    }
}


impl<K: Eq + Hash + Ord + Copy, V> TreeNode<K, V> {
    /// `lo` and `hi` are what is left of the full node `self` once its
    /// median key has been taken out: `lo` keeps the keys, values and
    /// children below the median, `hi` those above it.
    pub open spec fn split_into(&self, lo: &Self, hi: &Self) -> bool {
        let t = self.spec_degree();
        &&& lo.leaf() == self.leaf() && hi.leaf() == self.leaf()
        &&& lo.spec_degree() == self.spec_degree() && hi.spec_degree() == self.spec_degree()
        &&& lo.node_keys() == self.node_keys().subrange(0, t - 1)
        &&& hi.node_keys() == self.node_keys().subrange(t, 2 * t - 1)
        &&& forall|k: K|
            #![trigger lo.node_values().contains_key(k)]
            #![trigger lo.node_keys().contains(k)]
            lo.node_values().contains_key(k) <==> lo.node_keys().contains(k)
        &&& forall|k: K|
            #![trigger hi.node_values().contains_key(k)]
            #![trigger hi.node_keys().contains(k)]
            hi.node_values().contains_key(k) <==> hi.node_keys().contains(k)
        &&& forall|k: K| #[trigger]
            lo.node_values().contains_key(k) ==> lo.node_values()[k] == self.node_values()[k]
        &&& forall|k: K| #[trigger]
            hi.node_values().contains_key(k) ==> hi.node_values()[k] == self.node_values()[k]
        &&& if self.leaf() {
            lo.node_children().len() == 0 && hi.node_children().len() == 0
        } else {
            &&& lo.node_children() == self.node_children().subrange(0, t)
            &&& hi.node_children() == self.node_children().subrange(t, 2 * t)
        }
    }

    /// The two halves of a split node are well formed, minimally filled, as
    /// high as the node was, and hold between them everything but the median.
    proof fn lemma_split_halves(&self, lo: &Self, hi: &Self)
        requires
            self.wf(),
            total_order::<K>(),
            self.keys@.len() == 2 * self.degree - 1,
            self.split_into(lo, hi),
        ensures
            lo.wf(),
            hi.wf(),
            lo.keys@.len() == self.degree - 1,
            hi.keys@.len() == self.degree - 1,
            lo.height() == self.height(),
            hi.height() == self.height(),
            forall|k: K| #[trigger]
                self.has(k) <==> (lo.has(k) || k == self.keys@[self.degree - 1] || hi.has(k)),
            forall|k: K| #[trigger]
                lo.has(k) ==> key_lt(k, self.keys@[self.degree - 1]) && lo.val(k) == self.val(k),
            forall|k: K| #[trigger]
                hi.has(k) ==> key_lt(self.keys@[self.degree - 1], k) && hi.val(k) == self.val(k),
    {
        lemma_total_order::<K>();
        let t = self.degree as int;
        let m = self.keys@[t - 1];
        assert(lo.wf()) by {
            assert forall|i: int, k: K|
                0 <= i < lo.children@.len() && #[trigger] lo.children@[i].has(k) implies {
                &&& i > 0 ==> key_lt(lo.keys@[i - 1], k)
                &&& i < lo.keys@.len() ==> key_lt(k, lo.keys@[i])
            } by {
                assert(self.children@[i].has(k));
            }
            assert forall|i: int| 0 <= i < lo.children@.len() implies {
                &&& (#[trigger] lo.children@[i]).degree == lo.degree
                &&& lo.children@[i].keys@.len() >= lo.degree - 1
                &&& lo.children@[i].height() + 1 == lo.height()
            } by {
                assert(lo.children@[i] == self.children@[i]);
                assert(lo.children@[0] == self.children@[0]);
            }
        }
        assert(hi.wf()) by {
            assert forall|i: int, k: K|
                0 <= i < hi.children@.len() && #[trigger] hi.children@[i].has(k) implies {
                &&& i > 0 ==> key_lt(hi.keys@[i - 1], k)
                &&& i < hi.keys@.len() ==> key_lt(k, hi.keys@[i])
            } by {
                assert(self.children@[i + t].has(k));
            }
            assert forall|i: int| 0 <= i < hi.children@.len() implies {
                &&& (#[trigger] hi.children@[i]).wf()
                &&& hi.children@[i].degree == hi.degree
                &&& hi.children@[i].keys@.len() >= hi.degree - 1
                &&& hi.children@[i].height() + 1 == hi.height()
            } by {
                assert(hi.children@[i] == self.children@[i + t]);
                assert(hi.children@[0] == self.children@[t]);
            }
        }
        assert forall|k: K| #[trigger] lo.has(k) implies key_lt(k, m) && self.has(k) && lo.val(k)
            == self.val(k) by {
            if lo.payload@.contains_key(k) {
                let p = choose|p: int| 0 <= p < lo.keys@.len() && lo.keys@[p] == k;
                assert(self.keys@[p] == k);
                assert(key_lt(self.keys@[p], self.keys@[t - 1]));
            } else {
                let i = choose|i: int|
                    0 <= i < lo.children@.len() && (#[trigger] lo.children@[i]).has(k);
                assert(self.children@[i].has(k));
                self.lemma_child_owns(i, k);
                lo.lemma_child_owns(i, k);
                if i < t - 1 {
                    assert(key_lt(self.keys@[i], self.keys@[t - 1]));
                }
            }
        }
        assert forall|k: K| #[trigger] hi.has(k) implies key_lt(m, k) && self.has(k) && hi.val(k)
            == self.val(k) by {
            if hi.payload@.contains_key(k) {
                let p = choose|p: int| 0 <= p < hi.keys@.len() && hi.keys@[p] == k;
                assert(self.keys@[p + t] == k);
                assert(key_lt(self.keys@[t - 1], self.keys@[p + t]));
            } else {
                let i = choose|i: int|
                    0 <= i < hi.children@.len() && (#[trigger] hi.children@[i]).has(k);
                assert(self.children@[i + t].has(k));
                self.lemma_child_owns(i + t, k);
                hi.lemma_child_owns(i, k);
                if i > 0 {
                    assert(key_lt(self.keys@[t - 1], self.keys@[i + t - 1]));
                }
            }
        }
        assert forall|k: K| #[trigger] self.has(k) implies (lo.has(k) || k == m || hi.has(k)) by {
            if self.payload@.contains_key(k) {
                let p = choose|p: int| 0 <= p < self.keys@.len() && self.keys@[p] == k;
                if p < t - 1 {
                    assert(lo.keys@[p] == k);
                } else if p >= t {
                    assert(hi.keys@[p - t] == k);
                }
            } else {
                let i = choose|i: int|
                    0 <= i < self.children@.len() && (#[trigger] self.children@[i]).has(k);
                if i < t {
                    assert(lo.children@[i].has(k));
                } else {
                    assert(hi.children@[i - t].has(k));
                }
            }
        }
        assert(self.keys@.contains(m));
    }

    /// Takes the upper half out of a full node: returns the median key, its
    /// value, and a new node with everything above the median.
    fn split_off_upper(&mut self) -> (out: (K, V, TreeNode<K, V>))
        requires
            old(self).wf(),
            key_model::<K>(),
            old(self).keys@.len() == 2 * old(self).degree - 1,
        ensures
            old(self).split_into(final(self), &out.2),
            out.0 == old(self).keys@[old(self).degree - 1],
            out.1 == old(self).payload@[out.0],
    {
        let t = self.degree;
        let ghost y = *self;
        proof {
            lemma_total_order::<K>();
        }
        let mut upper = TreeNode::new(self.is_leaf, t);
        let moved = self.keys.split_off(t);
        let mut i: usize = 0;
        while i < moved.len()
            invariant
                key_model::<K>(),
                y.wf(),
                t == y.degree,
                y.keys@.len() == 2 * t - 1,
                moved@ == y.keys@.subrange(t as int, 2 * t - 1),
                0 <= i <= moved@.len(),
                self.degree == y.degree,
                self.is_leaf == y.is_leaf,
                self.keys@ == y.keys@.subrange(0, t as int),
                self.children == y.children,
                upper.degree == y.degree,
                upper.is_leaf == y.is_leaf,
                upper.children@.len() == 0,
                forall|k: K|
                    #![trigger self.payload@.contains_key(k)]
                    #![trigger y.payload@.contains_key(k)]
                    self.payload@.contains_key(k) <==> (y.payload@.contains_key(k)
                        && !moved@.subrange(0, i as int).contains(k)),
                forall|k: K| #[trigger]
                    self.payload@.contains_key(k) ==> self.payload@[k] == y.payload@[k],
                forall|k: K|
                    #![trigger upper.payload@.contains_key(k)]
                    #![trigger moved@.subrange(0, i as int).contains(k)]
                    upper.payload@.contains_key(k) <==> moved@.subrange(0, i as int).contains(k),
                forall|k: K| #[trigger]
                    upper.payload@.contains_key(k) ==> upper.payload@[k] == y.payload@[k],
            decreases moved@.len() - i,
        {
            let k = moved[i];
            proof {
                assert(y.keys@[t + i] == k);
                assert(y.keys@.contains(k));
                if moved@.subrange(0, i as int).contains(k) {
                    let p = choose|p: int|
                        0 <= p < i && moved@.subrange(0, i as int)[p] == k;
                    crate::order::lemma_sorted_distinct(y.keys@, t + p, t + i);
                }
            }
            let v = self.payload.remove(&k).unwrap();
            upper.payload.insert(k, v);
            proof {
                let before = moved@.subrange(0, i as int);
                let after = moved@.subrange(0, i + 1);
                assert(after =~= before.push(k));
                assert forall|x: K| after.contains(x) <==> (before.contains(x) || x == k) by {
                    if before.contains(x) {
                        let p = choose|p: int| 0 <= p < before.len() && before[p] == x;
                        assert(after[p] == x);
                    }
                    if x == k {
                        assert(after[i as int] == x);
                    }
                }
            }
            i += 1;
        }
        proof {
            assert(moved@.subrange(0, i as int) =~= moved@);
        }
        upper.keys = moved;
        if !self.is_leaf {
            upper.children = self.children.split_off(t);
        }
        let move_up_key = self.keys.pop().unwrap();
        proof {
            assert(move_up_key == y.keys@[t - 1]);
            assert(y.keys@.contains(move_up_key));
            if upper.keys@.contains(move_up_key) {
                let p = choose|p: int| 0 <= p < upper.keys@.len() && upper.keys@[p] == move_up_key;
                crate::order::lemma_sorted_distinct(y.keys@, t + p, t - 1);
            }
        }
        let move_up_val = self.payload.remove(&move_up_key).unwrap();
        proof {
            assert(self.keys@ =~= y.keys@.subrange(0, t - 1));
            assert forall|k: K| self.payload@.contains_key(k) <==> self.keys@.contains(k) by {
                if self.payload@.contains_key(k) {
                    let p = choose|p: int| 0 <= p < y.keys@.len() && y.keys@[p] == k;
                    if p >= t {
                        assert(upper.keys@[p - t] == k);
                    }
                    assert(self.keys@[p] == k);
                }
                if self.keys@.contains(k) {
                    let p = choose|p: int| 0 <= p < self.keys@.len() && self.keys@[p] == k;
                    assert(y.keys@[p] == k);
                    assert(y.keys@.contains(k));
                    if upper.keys@.contains(k) {
                        let q = choose|q: int| 0 <= q < upper.keys@.len() && upper.keys@[q] == k;
                        crate::order::lemma_sorted_distinct(y.keys@, t + q, p);
                    }
                    crate::order::lemma_sorted_distinct(y.keys@, p, p);
                    if k == move_up_key {
                        crate::order::lemma_sorted_distinct(y.keys@, p, t - 1);
                    }
                }
            }
        }
        (move_up_key, move_up_val, upper)
    }
}


impl<K: Eq + Hash + Ord + Copy, V> TreeNode<K, V> {
    /// `k` lies in the gap that the keys of this node leave for child `i`.
    pub open spec fn in_gap(&self, i: int, k: K) -> bool {
        &&& i > 0 ==> key_lt(self.node_keys()[i - 1], k)
        &&& i < self.node_keys().len() ==> key_lt(k, self.node_keys()[i])
    }

    /// `next` is `self` with child `i` exchanged for another subtree.
    pub open spec fn with_child(&self, i: int, next: &Self) -> bool {
        &&& next.leaf() == self.leaf()
        &&& next.spec_degree() == self.spec_degree()
        &&& next.node_keys() == self.node_keys()
        &&& next.node_values() == self.node_values()
        &&& 0 <= i < self.node_children().len()
        &&& next.node_children().len() == self.node_children().len()
        &&& forall|j: int|
            0 <= j < self.node_children().len() && j != i ==> #[trigger] next.node_children()[j]
                == self.node_children()[j]
    }

    /// Exchanging one child for a well-formed subtree of the same height
    /// that stays inside the child's gap keeps the node well formed; what the
    /// node holds changes only by what that child holds.
    proof fn lemma_with_child(&self, i: int, next: &Self)
        requires
            self.wf(),
            total_order::<K>(),
            self.with_child(i, next),
            next.children@[i].wf(),
            next.children@[i].degree == self.degree,
            next.children@[i].keys@.len() >= self.degree - 1,
            next.children@[i].height() == self.children@[i].height(),
            forall|k: K| #[trigger] next.children@[i].has(k) ==> self.in_gap(i, k),
        ensures
            next.wf(),
            next.height() == self.height(),
            forall|k: K| #[trigger]
                next.has(k) <==> ((self.has(k) && !self.children@[i].has(k))
                    || next.children@[i].has(k)),
            forall|k: K| #[trigger]
                next.children@[i].has(k) ==> next.val(k) == next.children@[i].val(k),
            forall|k: K|
                self.has(k) && !self.children@[i].has(k) && !next.children@[i].has(k)
                    ==> #[trigger] next.val(k) == self.val(k),
    {
        lemma_total_order::<K>();
        assert(next.wf()) by {
            assert forall|j: int| 0 <= j < next.children@.len() implies {
                &&& (#[trigger] next.children@[j]).wf()
                &&& next.children@[j].degree == next.degree
                &&& next.children@[j].keys@.len() >= next.degree - 1
                &&& next.children@[j].height() + 1 == next.height()
            } by {
                if j != i {
                    assert(next.children@[j] == self.children@[j]);
                }
                if i != 0 {
                    assert(next.children@[0] == self.children@[0]);
                }
            }
            assert forall|j: int, k: K|
                0 <= j < next.children@.len() && #[trigger] next.children@[j].has(k) implies {
                &&& j > 0 ==> key_lt(next.keys@[j - 1], k)
                &&& j < next.keys@.len() ==> key_lt(k, next.keys@[j])
            } by {
                if j != i {
                    assert(self.children@[j].has(k));
                }
            }
        }
        assert forall|k: K| #[trigger]
            next.has(k) <==> ((self.has(k) && !self.children@[i].has(k))
                || next.children@[i].has(k)) by {
            if next.has(k) && !next.children@[i].has(k) {
                if !next.payload@.contains_key(k) {
                    let j = choose|j: int|
                        0 <= j < next.children@.len() && (#[trigger] next.children@[j]).has(k);
                    assert(self.children@[j].has(k));
                    self.lemma_child_owns(j, k);
                } else {
                    if self.children@[i].has(k) {
                        self.lemma_child_owns(i, k);
                    }
                }
            }
            if self.has(k) && !self.children@[i].has(k) {
                if !self.payload@.contains_key(k) {
                    let j = choose|j: int|
                        0 <= j < self.children@.len() && (#[trigger] self.children@[j]).has(k);
                    assert(next.children@[j].has(k));
                }
            }
        }
        assert forall|k: K| #[trigger] next.children@[i].has(k) implies next.val(k)
            == next.children@[i].val(k) by {
            next.lemma_child_owns(i, k);
        }
        assert forall|k: K|
            self.has(k) && !self.children@[i].has(k) && !next.children@[i].has(k)
                implies #[trigger] next.val(k) == self.val(k) by {
            if !self.payload@.contains_key(k) {
                let j = choose|j: int|
                    0 <= j < self.children@.len() && (#[trigger] self.children@[j]).has(k);
                assert(next.children@[j].has(k));
                self.lemma_child_owns(j, k);
                next.lemma_child_owns(j, k);
            }
        }
    }

    /// `next` is `self` after its full child `i` gave its median up to
    /// `self` and its upper half to a new right neighbour.
    pub open spec fn split_at(&self, i: int, next: &Self) -> bool {
        let t = self.spec_degree();
        let full = self.node_children()[i];
        let m = full.node_keys()[t - 1];
        &&& next.leaf() == self.leaf()
        &&& next.spec_degree() == self.spec_degree()
        &&& next.node_keys() == self.node_keys().insert(i, m)
        &&& next.node_values() == self.node_values().insert(m, full.node_values()[m])
        &&& next.node_children().len() == self.node_children().len() + 1
        &&& forall|j: int| 0 <= j < i ==> #[trigger] next.node_children()[j] == self.node_children()[j]
        &&& forall|j: int|
            i + 1 < j < next.node_children().len() ==> #[trigger] next.node_children()[j]
                == self.node_children()[j - 1]
        &&& full.split_into(&*next.node_children()[i], &*next.node_children()[i + 1])
    }

    /// Splitting a full child keeps the parent well formed and changes
    /// neither what it holds nor its height.
    proof fn lemma_split_at(&self, i: int, next: &Self)
        requires
            self.wf(),
            total_order::<K>(),
            0 <= i < self.children@.len(),
            self.children@[i].keys@.len() == 2 * self.degree - 1,
            self.keys@.len() < 2 * self.degree - 1,
            self.split_at(i, next),
        ensures
            next.wf(),
            next.height() == self.height(),
            forall|k: K| next.has(k) <==> self.has(k),
            forall|k: K| self.has(k) ==> next.val(k) == self.val(k),
            next@ == self@,
            next.children@[i].keys@.len() == self.degree - 1,
            next.children@[i + 1].keys@.len() == self.degree - 1,
    {
        lemma_total_order::<K>();
        let t = self.degree as int;
        let full = self.children@[i];
        let lo = next.children@[i];
        let hi = next.children@[i + 1];
        let m = full.keys@[t - 1];
        full.lemma_split_halves(&*lo, &*hi);
        assert(full.keys@.contains(m));
        assert(full.has(m));
        assert(self.in_gap(i, m));
        lemma_sorted_insert(self.keys@, i, m);
        self.keys@.insert_ensures(i, m);
        assert(next.wf()) by {
            assert forall|j: int| 0 <= j < next.children@.len() implies {
                &&& (#[trigger] next.children@[j]).wf()
                &&& next.children@[j].degree == next.degree
                &&& next.children@[j].keys@.len() >= next.degree - 1
                &&& next.children@[j].height() + 1 == next.height()
            } by {
                if j < i {
                    assert(next.children@[j] == self.children@[j]);
                } else if j > i + 1 {
                    assert(next.children@[j] == self.children@[j - 1]);
                }
                if i > 0 {
                    assert(next.children@[0] == self.children@[0]);
                }
            }
            assert forall|j: int, k: K|
                0 <= j < next.children@.len() && #[trigger] next.children@[j].has(k) implies {
                &&& j > 0 ==> key_lt(next.keys@[j - 1], k)
                &&& j < next.keys@.len() ==> key_lt(k, next.keys@[j])
            } by {
                if j < i {
                    assert(self.children@[j].has(k));
                    assert(next.keys@[j] == self.keys@[j]);
                } else if j == i {
                    assert(full.has(k));
                } else if j == i + 1 {
                    assert(full.has(k));
                    if j < next.keys@.len() {
                        assert(next.keys@[j] == self.keys@[i]);
                    }
                } else {
                    assert(self.children@[j - 1].has(k));
                    assert(next.keys@[j - 1] == self.keys@[j - 2]);
                    if j < next.keys@.len() {
                        assert(next.keys@[j] == self.keys@[j - 1]);
                    }
                }
            }
        }
        assert forall|k: K| next.has(k) <==> self.has(k) by {
            if next.has(k) && !next.payload@.contains_key(k) {
                let j = choose|j: int|
                    0 <= j < next.children@.len() && (#[trigger] next.children@[j]).has(k);
                if j < i {
                    assert(self.children@[j].has(k));
                } else if j > i + 1 {
                    assert(self.children@[j - 1].has(k));
                } else {
                    assert(full.has(k));
                }
            }
            if self.has(k) && !self.payload@.contains_key(k) {
                let j = choose|j: int|
                    0 <= j < self.children@.len() && (#[trigger] self.children@[j]).has(k);
                if j < i {
                    assert(next.children@[j].has(k));
                } else if j > i {
                    assert(next.children@[j + 1] == self.children@[j]);
                    assert(next.children@[j + 1].has(k));
                } else {
                    if lo.has(k) {
                        assert(next.children@[i].has(k));
                    } else if hi.has(k) {
                        assert(next.children@[i + 1].has(k));
                    }
                }
            }
        }
        assert forall|k: K| self.has(k) implies next.val(k) == self.val(k) by {
            if self.payload@.contains_key(k) {
                if k == m {
                    self.lemma_child_owns(i, m);
                }
            } else {
                let j = choose|j: int|
                    0 <= j < self.children@.len() && (#[trigger] self.children@[j]).has(k);
                self.lemma_child_owns(j, k);
                if j < i {
                    next.lemma_child_owns(j, k);
                } else if j > i {
                    assert(next.children@[j + 1] == self.children@[j]);
                    next.lemma_child_owns(j + 1, k);
                } else {
                    if k == m {
                        full.lemma_wf_local();
                    } else if lo.has(k) {
                        next.lemma_child_owns(i, k);
                    } else {
                        assert(hi.has(k));
                        next.lemma_child_owns(i + 1, k);
                    }
                }
            }
        }
        assert(next@ =~= self@);
    }

    /// Splits the full child at `child` in two, lifting its median key and
    /// value into this node.
    fn split_child(&mut self, child: usize)
        requires
            old(self).wf(),
            key_model::<K>(),
            child < old(self).children@.len(),
            old(self).children@[child as int].keys@.len() == 2 * old(self).degree - 1,
            old(self).keys@.len() < 2 * old(self).degree - 1,
        ensures
            final(self).wf(),
            old(self).split_at(child as int, final(self)),
            final(self)@ == old(self)@,
            final(self).height() == old(self).height(),
            final(self).children@[child as int].keys@.len() == old(self).degree - 1,
            final(self).children@[child + 1].keys@.len() == old(self).degree - 1,
    {
        let ghost before = *self;
        let (move_up_key, move_up_val, node_z) = self.children[child].split_off_upper();
        self.payload.insert(move_up_key, move_up_val);
        self.keys.insert(child, move_up_key);
        self.children.insert(child + 1, Box::new(node_z));
        proof {
            before.children@.update(child as int, self.children@[child as int]).insert_ensures(
                child + 1,
                Box::new(node_z),
            );
            before.lemma_split_at(child as int, &*self);
        }
    }

    /// Adds a key that the subtree does not hold yet to a node that is not
    /// full, splitting full children on the way down.
    fn insert_non_full(&mut self, key: K, value: V)
        requires
            old(self).wf(),
            key_model::<K>(),
            !old(self).has(key),
            old(self).keys@.len() < 2 * old(self).degree - 1,
        ensures
            final(self).wf(),
            final(self)@ == old(self)@.insert(key, value),
            forall|k: K| #[trigger] final(self).has(k) <==> (old(self).has(k) || k == key),
            final(self).height() == old(self).height(),
            final(self).degree == old(self).degree,
            final(self).is_leaf == old(self).is_leaf,
            old(self).keys@.len() <= final(self).keys@.len() <= old(self).keys@.len() + 1,
            Self::insertion(old(self), key, value, final(self)),
        decreases old(self).height(),
    {
        let ghost before = *self;
        let ghost mut did_split = false;
        let mut index = match binary_search(&self.keys, &key) {
            Ok(i) => {
                proof {
                    assert(self.keys@.contains(key));
                    assert(self.payload@.contains_key(key));
                }
                i
            },
            Err(i) => i,
        };
        assert(before.in_gap(index as int, key));
        let ghost first = index as int;
        proof {
            before.lemma_slot(first, key);
        }
        if self.is_leaf {
            self.keys.insert(index, key);
            self.payload.insert(key, value);
            proof {
                lemma_sorted_insert(before.keys@, index as int, key);
                assert(self@ =~= before@.insert(key, value));
                assert(Self::insertion(&before, key, value, &*self));
            }
        } else {
            proof {
                self.children@[index as int].lemma_wf_local();
            }
            if self.children[index].is_full_node() {
                self.split_child(index);
                let ghost m = self.keys@[first];
                proof {
                    did_split = true;
                    before.keys@.insert_ensures(first, m);
                    self.lemma_wf_local();
                    self.lemma_view();
                    before.lemma_view();
                }
                if less(&self.keys[index], &key) {
                    index += 1;
                }
                assert(self.in_gap(index as int, key)) by {
                    lemma_total_order::<K>();
                }
            }
            let ghost mid = *self;
            proof {
                mid.lemma_view();
                before.lemma_view();
                assert(mid@.contains_key(key) == before@.contains_key(key));
                assert(!mid.has(key));
                assert(!mid.children@[index as int].has(key));
            }
            self.children[index].insert_non_full(key, value);
            proof {
                mid.lemma_insert_below(index as int, &*self, key, value);
                assert(self@ =~= before@.insert(key, value)) by {
                    self.lemma_view();
                }
                assert(mid.with_child(index as int, &*self));
                assert(mid.child(index as int).height() < before.height());
                assert(Self::insertion(
                    &mid.child(index as int),
                    key,
                    value,
                    &self.child(index as int),
                ));
                if did_split {
                    assert(before.split_at(first, &mid));
                }
                assert(Self::insertion(&before, key, value, &*self));
            }
        }
    }

    /// After child `i` took in a new key from its gap, the node is well
    /// formed and holds that key besides what it held.
    proof fn lemma_insert_below(&self, i: int, next: &Self, key: K, value: V)
        requires
            self.wf(),
            total_order::<K>(),
            self.with_child(i, next),
            self.in_gap(i, key),
            !self.has(key),
            next.children@[i].wf(),
            next.children@[i]@ == self.children@[i]@.insert(key, value),
            next.children@[i].degree == self.degree,
            next.children@[i].keys@.len() >= self.children@[i].keys@.len(),
            next.children@[i].height() == self.children@[i].height(),
        ensures
            next.wf(),
            next.height() == self.height(),
            forall|k: K| #[trigger] next.has(k) <==> (self.has(k) || k == key),
            forall|k: K| #[trigger] next.has(k) ==> next.val(k) == (if k == key { value } else { self.val(k) }),
    {
        let c1 = self.children@[i];
        let c2 = next.children@[i];
        c1.lemma_view();
        c2.lemma_view();
        assert forall|k: K| #[trigger] c2.has(k) implies self.in_gap(i, k) by {
            assert(c2@.contains_key(k));
            if k != key {
                assert(c1@.contains_key(k));
                assert(c1.has(k));
            }
        }
        self.lemma_with_child(i, next);
        assert forall|k: K| #[trigger] next.has(k) <==> (self.has(k) || k == key) by {
            assert(c2@.contains_key(k) <==> c2.has(k));
            assert(c1@.contains_key(k) <==> c1.has(k));
            if k == key {
                assert(c2@.contains_key(key));
            }
        }
        assert forall|k: K| #[trigger] next.has(k) implies next.val(k) == (if k == key {
            value
        } else {
            self.val(k)
        }) by {
            assert(c2@.contains_key(k) <==> c2.has(k));
            assert(c1@.contains_key(k) <==> c1.has(k));
            if c2.has(k) {
                assert(c2@[k] == c2.val(k));
                if k != key {
                    assert(c1@[k] == c1.val(k));
                    self.lemma_child_owns(i, k);
                }
            }
        }
    }
}


impl<K: Eq + Hash + Ord + Copy, V> TreeNode<K, V> {
    /// The largest key of the subtree: the last key of its rightmost leaf.
    pub open spec fn max_key(&self) -> K
        decreases self,
    {
        if self.node_children().len() == 0 {
            self.node_keys().last()
        } else {
            self.node_children().last().max_key()
        }
    }

    /// The smallest key of the subtree: the first key of its leftmost leaf.
    pub open spec fn min_key(&self) -> K
        decreases self,
    {
        if self.node_children().len() == 0 {
            self.node_keys().first()
        } else {
            self.node_children().first().min_key()
        }
    }

    /// `max_key` is held by the subtree and nothing in the subtree is above it.
    proof fn lemma_max_key(&self)
        requires
            self.wf(),
            total_order::<K>(),
            self.keys@.len() >= 1,
        ensures
            self.has(self.max_key()),
            forall|k: K| #[trigger] self.has(k) ==> k == self.max_key() || key_lt(k, self.max_key()),
        decreases self,
    {
        lemma_total_order::<K>();
        let top = self.max_key();
        let n = self.keys@.len() as int;
        if self.children@.len() == 0 {
            assert(self.keys@.contains(top));
            assert forall|k: K| #[trigger] self.has(k) implies k == top || key_lt(k, top) by {
                let p = choose|p: int| 0 <= p < self.keys@.len() && self.keys@[p] == k;
                if p < n - 1 {
                    assert(key_lt(self.keys@[p], self.keys@[n - 1]));
                }
            }
        } else {
            let c = self.children@[n];
            c.lemma_max_key();
            assert(self.children@[n].has(top));
            assert forall|k: K| #[trigger] self.has(k) implies k == top || key_lt(k, top) by {
                if self.payload@.contains_key(k) {
                    let p = choose|p: int| 0 <= p < self.keys@.len() && self.keys@[p] == k;
                    if p < n - 1 {
                        assert(key_lt(self.keys@[p], self.keys@[n - 1]));
                    }
                } else {
                    let j = choose|j: int|
                        0 <= j < self.children@.len() && (#[trigger] self.children@[j]).has(k);
                    if j < n {
                        if j < n - 1 {
                            assert(key_lt(self.keys@[j], self.keys@[n - 1]));
                        }
                    }
                }
            }
        }
    }

    /// `min_key` is held by the subtree and nothing in the subtree is below it.
    proof fn lemma_min_key(&self)
        requires
            self.wf(),
            total_order::<K>(),
            self.keys@.len() >= 1,
        ensures
            self.has(self.min_key()),
            forall|k: K| #[trigger] self.has(k) ==> k == self.min_key() || key_lt(self.min_key(), k),
        decreases self,
    {
        lemma_total_order::<K>();
        let low = self.min_key();
        if self.children@.len() == 0 {
            assert(self.keys@.contains(low));
            assert forall|k: K| #[trigger] self.has(k) implies k == low || key_lt(low, k) by {
                let p = choose|p: int| 0 <= p < self.keys@.len() && self.keys@[p] == k;
                if p > 0 {
                    assert(key_lt(self.keys@[0], self.keys@[p]));
                }
            }
        } else {
            let c = self.children@[0];
            c.lemma_min_key();
            assert(self.children@[0].has(low));
            assert forall|k: K| #[trigger] self.has(k) implies k == low || key_lt(low, k) by {
                if self.payload@.contains_key(k) {
                    let p = choose|p: int| 0 <= p < self.keys@.len() && self.keys@[p] == k;
                    if p > 0 {
                        assert(key_lt(self.keys@[0], self.keys@[p]));
                    }
                } else {
                    let j = choose|j: int|
                        0 <= j < self.children@.len() && (#[trigger] self.children@[j]).has(k);
                    if j > 1 {
                        assert(key_lt(self.keys@[0], self.keys@[j - 1]));
                    }
                }
            }
        }
    }

    /// The largest key below the separator at `index`: the predecessor of
    /// that separator.
    fn find_predecessor_of(&self, index: usize) -> (pred: K)
        requires
            self.wf(),
            index < self.children@.len(),
        ensures
            pred == self.children@[index as int].max_key(),
    {
        let mut child: &TreeNode<K, V> = &self.children[index];
        while !child.is_leaf
            invariant
                child.wf(),
                child.keys@.len() >= 1,
                child.max_key() == self.children@[index as int].max_key(),
            decreases child.height(),
        {
            child = &child.children[child.children.len() - 1];
        }
        child.keys[child.keys.len() - 1]
    }

    /// The smallest key above the separator at `index`: the successor of
    /// that separator.
    fn find_successor_of(&self, index: usize) -> (succ: K)
        requires
            self.wf(),
            index + 1 < self.children@.len(),
        ensures
            succ == self.children@[index + 1].min_key(),
    {
        let mut child: &TreeNode<K, V> = &self.children[index + 1];
        while !child.is_leaf
            invariant
                child.wf(),
                child.keys@.len() >= 1,
                child.min_key() == self.children@[index + 1].min_key(),
            decreases child.height(),
        {
            child = &child.children[0];
        }
        child.keys[0]
    }

    /// After child `i` gave up a key of its gap, the node is well formed
    /// and holds what it held but for that key.
    proof fn lemma_delete_below(&self, i: int, next: &Self, key: K)
        requires
            self.wf(),
            total_order::<K>(),
            self.with_child(i, next),
            self.in_gap(i, key),
            !self.payload@.contains_key(key),
            next.children@[i].wf(),
            next.children@[i]@ == self.children@[i]@.remove(key),
            next.children@[i].degree == self.degree,
            next.children@[i].keys@.len() >= self.degree - 1,
            next.children@[i].height() == self.children@[i].height(),
        ensures
            next.wf(),
            next.height() == self.height(),
            next@ == self@.remove(key),
            self@.contains_key(key) <==> self.children@[i]@.contains_key(key),
            self@.contains_key(key) ==> self@[key] == self.children@[i]@[key],
    {
        lemma_total_order::<K>();
        let c1 = self.children@[i];
        let c2 = next.children@[i];
        c1.lemma_view();
        c2.lemma_view();
        self.lemma_view();
        next.lemma_view();
        assert forall|k: K| #[trigger] c2.has(k) implies self.in_gap(i, k) by {
            assert(c2@.contains_key(k));
            assert(c1@.contains_key(k));
            assert(c1.has(k));
        }
        self.lemma_with_child(i, next);
        if self.has(key) && !c1.has(key) {
            let j = choose|j: int|
                0 <= j < self.children@.len() && (#[trigger] self.children@[j]).has(key);
            if j < i {
                if j < i - 1 {
                    assert(key_lt(self.keys@[j], self.keys@[i - 1]));
                }
            } else {
                if i < j - 1 {
                    assert(key_lt(self.keys@[i], self.keys@[j - 1]));
                }
            }
            assert(false);
        }
        if c1.has(key) {
            self.lemma_child_owns(i, key);
        }
        assert forall|k: K| next.has(k) <==> (self.has(k) && k != key) by {
            assert(c2@.contains_key(k) <==> c2.has(k));
            assert(c1@.contains_key(k) <==> c1.has(k));
        }
        assert forall|k: K| next.has(k) implies next.val(k) == self.val(k) by {
            assert(c2@.contains_key(k) <==> c2.has(k));
            assert(c1@.contains_key(k) <==> c1.has(k));
            if c2.has(k) {
                assert(c2@[k] == c2.val(k));
                assert(c1@[k] == c1.val(k));
                self.lemma_child_owns(i, k);
            }
        }
        assert(next@ =~= self@.remove(key));
    }

    /// `next` is `self` with the separator at `i` overwritten by the key
    /// `by` and its value, child `at` having been exchanged.
    pub open spec fn separator_replaced(&self, i: int, at: int, by: K, value: V, next: &Self) -> bool {
        &&& next.leaf() == self.leaf()
        &&& next.spec_degree() == self.spec_degree()
        &&& next.node_keys() == self.node_keys().update(i, by)
        &&& next.node_values() == self.node_values().insert(by, value).remove(self.node_keys()[i])
        &&& next.node_children().len() == self.node_children().len()
        &&& forall|j: int|
            0 <= j < self.node_children().len() && j != at ==> #[trigger] next.node_children()[j]
                == self.node_children()[j]
    }

    /// Overwriting a separator with the largest key of its left subtree,
    /// taken out of that subtree, removes the separator and nothing else.
    proof fn lemma_replace_with_pred(&self, i: int, value: V, next: &Self)
        requires
            self.wf(),
            total_order::<K>(),
            0 <= i < self.keys@.len(),
            !self.is_leaf,
            self.separator_replaced(i, i, self.children@[i].max_key(), value, next),
            next.children@[i].wf(),
            next.children@[i]@ == self.children@[i]@.remove(self.children@[i].max_key()),
            self.children@[i]@[self.children@[i].max_key()] == value,
            next.children@[i].degree == self.degree,
            next.children@[i].keys@.len() >= self.degree - 1,
            next.children@[i].height() == self.children@[i].height(),
        ensures
            next.wf(),
            next.height() == self.height(),
            next@ == self@.remove(self.keys@[i]),
    {
        lemma_total_order::<K>();
        let c1 = self.children@[i];
        let c2 = next.children@[i];
        let pred = c1.max_key();
        let key = self.keys@[i];
        c1.lemma_max_key();
        c1.lemma_view();
        c2.lemma_view();
        self.lemma_wf_local();
        assert(self.in_gap(i, pred));
        lemma_sorted_update(self.keys@, i, pred);
        assert forall|k: K| #[trigger] c2.has(k) implies c1.has(k) && k != pred && key_lt(k, pred) by {
            assert(c2@.contains_key(k));
            assert(c1@.contains_key(k));
        }
        assert(next.wf()) by {
            assert forall|j: int| 0 <= j < next.children@.len() implies {
                &&& (#[trigger] next.children@[j]).wf()
                &&& next.children@[j].degree == next.degree
                &&& next.children@[j].keys@.len() >= next.degree - 1
                &&& next.children@[j].height() + 1 == next.height()
            } by {
                if j != i {
                    assert(next.children@[j] == self.children@[j]);
                }
                if i != 0 {
                    assert(next.children@[0] == self.children@[0]);
                }
            }
            assert forall|j: int, k: K|
                0 <= j < next.children@.len() && #[trigger] next.children@[j].has(k) implies {
                &&& j > 0 ==> key_lt(next.keys@[j - 1], k)
                &&& j < next.keys@.len() ==> key_lt(k, next.keys@[j])
            } by {
                if j != i {
                    assert(self.children@[j].has(k));
                }
            }
        }
        assert forall|k: K| next.has(k) <==> (self.has(k) && k != key) by {
            assert(c2@.contains_key(k) <==> c2.has(k));
            assert(c1@.contains_key(k) <==> c1.has(k));
            if next.has(k) && !next.payload@.contains_key(k) {
                let j = choose|j: int|
                    0 <= j < next.children@.len() && (#[trigger] next.children@[j]).has(k);
                if j != i {
                    assert(self.children@[j].has(k));
                }
                self.lemma_child_owns(j, k);
            }
            if self.has(k) && k != key && !self.payload@.contains_key(k) {
                let j = choose|j: int|
                    0 <= j < self.children@.len() && (#[trigger] self.children@[j]).has(k);
                if j != i {
                    assert(next.children@[j].has(k));
                } else if k != pred {
                    assert(next.children@[i].has(k));
                }
            }
            if k == pred {
                assert(self.children@[i].has(pred));
                self.lemma_child_owns(i, pred);
            }
        }
        assert forall|k: K| next.has(k) implies next.val(k) == self.val(k) by {
            assert(c2@.contains_key(k) <==> c2.has(k));
            assert(c1@.contains_key(k) <==> c1.has(k));
            if k == pred {
                self.lemma_child_owns(i, pred);
                assert(c1@[pred] == c1.val(pred));
            } else if !next.payload@.contains_key(k) {
                let j = choose|j: int|
                    0 <= j < next.children@.len() && (#[trigger] next.children@[j]).has(k);
                next.lemma_child_owns(j, k);
                if j != i {
                    assert(self.children@[j].has(k));
                } else {
                    assert(c2@[k] == c2.val(k));
                    assert(c1@[k] == c1.val(k));
                }
                self.lemma_child_owns(j, k);
            }
        }
        self.lemma_view();
        next.lemma_view();
        assert(next@ =~= self@.remove(key));
    }

    /// Overwriting a separator with the smallest key of its right subtree,
    /// taken out of that subtree, removes the separator and nothing else.
    proof fn lemma_replace_with_succ(&self, i: int, value: V, next: &Self)
        requires
            self.wf(),
            total_order::<K>(),
            0 <= i < self.keys@.len(),
            !self.is_leaf,
            self.separator_replaced(i, i + 1, self.children@[i + 1].min_key(), value, next),
            next.children@[i + 1].wf(),
            next.children@[i + 1]@ == self.children@[i + 1]@.remove(self.children@[i + 1].min_key()),
            self.children@[i + 1]@[self.children@[i + 1].min_key()] == value,
            next.children@[i + 1].degree == self.degree,
            next.children@[i + 1].keys@.len() >= self.degree - 1,
            next.children@[i + 1].height() == self.children@[i + 1].height(),
        ensures
            next.wf(),
            next.height() == self.height(),
            next@ == self@.remove(self.keys@[i]),
    {
        lemma_total_order::<K>();
        let c1 = self.children@[i + 1];
        let c2 = next.children@[i + 1];
        let succ = c1.min_key();
        let key = self.keys@[i];
        c1.lemma_min_key();
        c1.lemma_view();
        c2.lemma_view();
        self.lemma_wf_local();
        assert(self.in_gap(i + 1, succ));
        lemma_sorted_update(self.keys@, i, succ);
        assert forall|k: K| #[trigger] c2.has(k) implies c1.has(k) && k != succ && key_lt(succ, k) by {
            assert(c2@.contains_key(k));
            assert(c1@.contains_key(k));
        }
        assert(next.wf()) by {
            assert forall|j: int| 0 <= j < next.children@.len() implies {
                &&& (#[trigger] next.children@[j]).wf()
                &&& next.children@[j].degree == next.degree
                &&& next.children@[j].keys@.len() >= next.degree - 1
                &&& next.children@[j].height() + 1 == next.height()
            } by {
                if j != i + 1 {
                    assert(next.children@[j] == self.children@[j]);
                }
                assert(next.children@[0] == self.children@[0]);
            }
            assert forall|j: int, k: K|
                0 <= j < next.children@.len() && #[trigger] next.children@[j].has(k) implies {
                &&& j > 0 ==> key_lt(next.keys@[j - 1], k)
                &&& j < next.keys@.len() ==> key_lt(k, next.keys@[j])
            } by {
                if j != i + 1 {
                    assert(self.children@[j].has(k));
                }
            }
        }
        assert forall|k: K| next.has(k) <==> (self.has(k) && k != key) by {
            assert(c2@.contains_key(k) <==> c2.has(k));
            assert(c1@.contains_key(k) <==> c1.has(k));
            if next.has(k) && !next.payload@.contains_key(k) {
                let j = choose|j: int|
                    0 <= j < next.children@.len() && (#[trigger] next.children@[j]).has(k);
                if j != i + 1 {
                    assert(self.children@[j].has(k));
                }
                self.lemma_child_owns(j, k);
            }
            if self.has(k) && k != key && !self.payload@.contains_key(k) {
                let j = choose|j: int|
                    0 <= j < self.children@.len() && (#[trigger] self.children@[j]).has(k);
                if j != i + 1 {
                    assert(next.children@[j].has(k));
                } else if k != succ {
                    assert(next.children@[i + 1].has(k));
                }
            }
            if k == succ {
                assert(self.children@[i + 1].has(succ));
                self.lemma_child_owns(i + 1, succ);
            }
        }
        assert forall|k: K| next.has(k) implies next.val(k) == self.val(k) by {
            assert(c2@.contains_key(k) <==> c2.has(k));
            assert(c1@.contains_key(k) <==> c1.has(k));
            if k == succ {
                self.lemma_child_owns(i + 1, succ);
                assert(c1@[succ] == c1.val(succ));
            } else if !next.payload@.contains_key(k) {
                let j = choose|j: int|
                    0 <= j < next.children@.len() && (#[trigger] next.children@[j]).has(k);
                next.lemma_child_owns(j, k);
                if j != i + 1 {
                    assert(self.children@[j].has(k));
                } else {
                    assert(c2@[k] == c2.val(k));
                    assert(c1@[k] == c1.val(k));
                }
                self.lemma_child_owns(j, k);
            }
        }
        self.lemma_view();
        next.lemma_view();
        assert(next@ =~= self@.remove(key));
    }
}


impl<K: Eq + Hash + Ord + Copy, V> TreeNode<K, V> {
    /// Whether an optional subtree holds `k`.
    spec fn opt_has(g: Option<Box<Self>>, k: K) -> bool {
        match g {
            Some(c) => c.has(k),
            None => false,
        }
    }

    /// An optional subtree that may be hung below a node of this degree and
    /// height: absent exactly for a leaf, else well formed, minimally filled
    /// and one level lower.
    spec fn fits_below(&self, g: Option<Box<Self>>) -> bool {
        match g {
            Some(c) => {
                &&& !self.is_leaf
                &&& c.wf()
                &&& c.degree == self.degree
                &&& c.keys@.len() >= self.degree - 1
                &&& c.height() + 1 == self.height()
            },
            None => self.is_leaf,
        }
    }

    /// The last child of an inner node, nothing for a leaf.
    pub open spec fn last_child(&self) -> Option<Box<Self>> {
        if self.leaf() {
            None
        } else {
            Some(self.node_children().last())
        }
    }

    /// The first child of an inner node, nothing for a leaf.
    pub open spec fn first_child(&self) -> Option<Box<Self>> {
        if self.leaf() {
            None
        } else {
            Some(self.node_children().first())
        }
    }

    /// `rest` is `self` without its last key, that key's value and, in an
    /// inner node, its last child.
    pub open spec fn without_last(&self, rest: &Self) -> bool {
        &&& rest.leaf() == self.leaf()
        &&& rest.spec_degree() == self.spec_degree()
        &&& rest.node_keys() == self.node_keys().drop_last()
        &&& rest.node_values() == self.node_values().remove(self.node_keys().last())
        &&& if self.leaf() {
            rest.node_children().len() == 0
        } else {
            rest.node_children() == self.node_children().drop_last()
        }
    }

    /// `rest` is `self` without its first key, that key's value and, in an
    /// inner node, its first child.
    pub open spec fn without_first(&self, rest: &Self) -> bool {
        &&& rest.leaf() == self.leaf()
        &&& rest.spec_degree() == self.spec_degree()
        &&& rest.node_keys() == self.node_keys().remove(0)
        &&& rest.node_values() == self.node_values().remove(self.node_keys().first())
        &&& if self.leaf() {
            rest.node_children().len() == 0
        } else {
            rest.node_children() == self.node_children().remove(0)
        }
    }

    /// `grown` is `self` with a key, its value and possibly a child put in
    /// front.
    pub open spec fn with_first(&self, k: K, v: V, g: Option<Box<Self>>, grown: &Self) -> bool {
        &&& grown.leaf() == self.leaf()
        &&& grown.spec_degree() == self.spec_degree()
        &&& grown.node_keys() == self.node_keys().insert(0, k)
        &&& grown.node_values() == self.node_values().insert(k, v)
        &&& grown.node_children() == match g {
            Some(c) => self.node_children().insert(0, c),
            None => self.node_children(),
        }
    }

    /// `grown` is `self` with a key, its value and possibly a child added at
    /// the end.
    pub open spec fn with_last(&self, k: K, v: V, g: Option<Box<Self>>, grown: &Self) -> bool {
        &&& grown.leaf() == self.leaf()
        &&& grown.spec_degree() == self.spec_degree()
        &&& grown.node_keys() == self.node_keys().push(k)
        &&& grown.node_values() == self.node_values().insert(k, v)
        &&& grown.node_children() == match g {
            Some(c) => self.node_children().push(c),
            None => self.node_children(),
        }
    }

    /// `out` is `self`, then the separator `sep`, then all of `right`.
    pub open spec fn merged_with(&self, sep: K, v: V, right: &Self, out: &Self) -> bool {
        &&& out.leaf() == self.leaf()
        &&& out.spec_degree() == self.spec_degree()
        &&& out.node_keys() == self.node_keys().push(sep) + right.node_keys()
        &&& out.node_values() == self.node_values().insert(sep, v).union_prefer_right(right.node_values())
        &&& out.node_children() == self.node_children() + right.node_children()
    }

    /// A node that can spare its last key stays well formed without it; the
    /// key taken is above all that stays and below all of the child taken.
    proof fn lemma_without_last(&self, rest: &Self)
        requires
            self.wf(),
            total_order::<K>(),
            self.keys@.len() >= 2,
            self.without_last(rest),
        ensures
            rest.wf(),
            rest.height() == self.height(),
            rest.keys@.len() == self.keys@.len() - 1,
            self.payload@.contains_key(self.keys@.last()),
            self.has(self.keys@.last()),
            self.val(self.keys@.last()) == self.payload@[self.keys@.last()],
            self.fits_below(self.last_child()),
            forall|k: K| #[trigger]
                rest.has(k) ==> self.has(k) && key_lt(k, self.keys@.last()) && rest.val(k)
                    == self.val(k),
            forall|k: K| #[trigger]
                Self::opt_has(self.last_child(), k) ==> self.has(k) && key_lt(
                    self.keys@.last(),
                    k,
                ) && self.val(k) == self.children@.last().val(k),
            forall|k: K| #[trigger]
                self.has(k) ==> rest.has(k) || k == self.keys@.last() || Self::opt_has(
                    self.last_child(),
                    k,
                ),
    {
        lemma_total_order::<K>();
        let n = self.keys@.len() as int;
        let last = self.keys@[n - 1];
        lemma_sorted_remove(self.keys@, n - 1);
        assert(self.keys@.remove(n - 1) =~= self.keys@.drop_last());
        self.lemma_wf_local();
        assert(rest.wf()) by {
            assert forall|j: int, k: K|
                0 <= j < rest.children@.len() && #[trigger] rest.children@[j].has(k) implies {
                &&& j > 0 ==> key_lt(rest.keys@[j - 1], k)
                &&& j < rest.keys@.len() ==> key_lt(k, rest.keys@[j])
            } by {
                assert(self.children@[j].has(k));
            }
            assert forall|j: int| 0 <= j < rest.children@.len() implies {
                &&& (#[trigger] rest.children@[j]).wf()
                &&& rest.children@[j].degree == rest.degree
                &&& rest.children@[j].keys@.len() >= rest.degree - 1
                &&& rest.children@[j].height() + 1 == rest.height()
            } by {
                assert(rest.children@[j] == self.children@[j]);
                assert(rest.children@[0] == self.children@[0]);
            }
        }
        assert forall|k: K| #[trigger] rest.has(k) implies self.has(k) && key_lt(k, last)
            && rest.val(k) == self.val(k) by {
            if rest.payload@.contains_key(k) {
                let p = choose|p: int| 0 <= p < self.keys@.len() && self.keys@[p] == k;
                if p == n - 1 {
                } else {
                    assert(key_lt(self.keys@[p], self.keys@[n - 1]));
                }
            } else {
                let j = choose|j: int|
                    0 <= j < rest.children@.len() && (#[trigger] rest.children@[j]).has(k);
                assert(self.children@[j].has(k));
                self.lemma_child_owns(j, k);
                rest.lemma_child_owns(j, k);
                if j < n - 1 {
                    assert(key_lt(self.keys@[j], self.keys@[n - 1]));
                }
            }
        }
        if !self.is_leaf {
            let g = self.children@[n];
            assert forall|k: K| #[trigger] g.has(k) implies self.has(k) && key_lt(last, k)
                && self.val(k) == g.val(k) by {
                assert(self.children@[n].has(k));
                self.lemma_child_owns(n, k);
            }
        }
        assert forall|k: K| #[trigger] self.has(k) implies rest.has(k) || k == last
            || Self::opt_has(self.last_child(), k) by {
            if self.payload@.contains_key(k) {
            } else {
                let j = choose|j: int|
                    0 <= j < self.children@.len() && (#[trigger] self.children@[j]).has(k);
                if j < n {
                    assert(rest.children@[j].has(k));
                }
            }
        }
    }

    /// A node that can spare its first key stays well formed without it; the
    /// key taken is below all that stays and above all of the child taken.
    proof fn lemma_without_first(&self, rest: &Self)
        requires
            self.wf(),
            total_order::<K>(),
            self.keys@.len() >= 2,
            self.without_first(rest),
        ensures
            rest.wf(),
            rest.height() == self.height(),
            rest.keys@.len() == self.keys@.len() - 1,
            self.payload@.contains_key(self.keys@.first()),
            self.has(self.keys@.first()),
            self.val(self.keys@.first()) == self.payload@[self.keys@.first()],
            self.fits_below(self.first_child()),
            forall|k: K| #[trigger]
                rest.has(k) ==> self.has(k) && key_lt(self.keys@.first(), k) && rest.val(k)
                    == self.val(k),
            forall|k: K| #[trigger]
                Self::opt_has(self.first_child(), k) ==> self.has(k) && key_lt(
                    k,
                    self.keys@.first(),
                ) && self.val(k) == self.children@.first().val(k),
            forall|k: K| #[trigger]
                self.has(k) ==> rest.has(k) || k == self.keys@.first() || Self::opt_has(
                    self.first_child(),
                    k,
                ),
    {
        lemma_total_order::<K>();
        let n = self.keys@.len() as int;
        let first = self.keys@[0];
        lemma_sorted_remove(self.keys@, 0);
        self.keys@.remove_ensures(0);
        self.lemma_wf_local();
        if !self.is_leaf {
            self.children@.remove_ensures(0);
        }
        assert(rest.wf()) by {
            assert forall|j: int, k: K|
                0 <= j < rest.children@.len() && #[trigger] rest.children@[j].has(k) implies {
                &&& j > 0 ==> key_lt(rest.keys@[j - 1], k)
                &&& j < rest.keys@.len() ==> key_lt(k, rest.keys@[j])
            } by {
                assert(rest.children@[j] == self.children@[j + 1]);
                assert(self.children@[j + 1].has(k));
            }
            assert forall|j: int| 0 <= j < rest.children@.len() implies {
                &&& (#[trigger] rest.children@[j]).wf()
                &&& rest.children@[j].degree == rest.degree
                &&& rest.children@[j].keys@.len() >= rest.degree - 1
                &&& rest.children@[j].height() + 1 == rest.height()
            } by {
                assert(rest.children@[j] == self.children@[j + 1]);
                assert(rest.children@[0] == self.children@[1]);
            }
        }
        assert forall|k: K| #[trigger] rest.has(k) implies self.has(k) && key_lt(first, k)
            && rest.val(k) == self.val(k) by {
            if rest.payload@.contains_key(k) {
                let p = choose|p: int| 0 <= p < self.keys@.len() && self.keys@[p] == k;
                if p != 0 {
                    assert(key_lt(self.keys@[0], self.keys@[p]));
                }
            } else {
                let j = choose|j: int|
                    0 <= j < rest.children@.len() && (#[trigger] rest.children@[j]).has(k);
                assert(rest.children@[j] == self.children@[j + 1]);
                assert(self.children@[j + 1].has(k));
                self.lemma_child_owns(j + 1, k);
                rest.lemma_child_owns(j, k);
                if j > 0 {
                    assert(key_lt(self.keys@[0], self.keys@[j]));
                }
            }
        }
        if !self.is_leaf {
            let g = self.children@[0];
            assert forall|k: K| #[trigger] g.has(k) implies self.has(k) && key_lt(k, first)
                && self.val(k) == g.val(k) by {
                assert(self.children@[0].has(k));
                self.lemma_child_owns(0, k);
            }
        }
        assert forall|k: K| #[trigger] self.has(k) implies rest.has(k) || k == first
            || Self::opt_has(self.first_child(), k) by {
            if self.payload@.contains_key(k) {
            } else {
                let j = choose|j: int|
                    0 <= j < self.children@.len() && (#[trigger] self.children@[j]).has(k);
                if j > 0 {
                    assert(rest.children@[j - 1] == self.children@[j]);
                    assert(rest.children@[j - 1].has(k));
                }
            }
        }
    }

    /// A node with room takes a key below all it holds, and a fitting child
    /// below that key, in front.
    proof fn lemma_with_first(&self, k: K, v: V, g: Option<Box<Self>>, grown: &Self)
        requires
            self.wf(),
            total_order::<K>(),
            self.keys@.len() < 2 * self.degree - 1,
            self.with_first(k, v, g, grown),
            self.fits_below(g),
            forall|x: K| #[trigger] self.has(x) ==> key_lt(k, x),
            forall|x: K| #[trigger] Self::opt_has(g, x) ==> key_lt(x, k),
        ensures
            grown.wf(),
            grown.height() == self.height(),
            grown.keys@.len() == self.keys@.len() + 1,
            forall|x: K| #[trigger]
                grown.has(x) <==> (self.has(x) || x == k || Self::opt_has(g, x)),
            grown.val(k) == v,
            forall|x: K| #[trigger] self.has(x) ==> grown.val(x) == self.val(x),
            forall|x: K| #[trigger] Self::opt_has(g, x) ==> grown.val(x) == g.unwrap().val(x),
    {
        lemma_total_order::<K>();
        self.lemma_wf_local();
        if self.keys@.len() > 0 {
            assert(self.has(self.keys@[0]));
        }
        lemma_sorted_insert(self.keys@, 0, k);
        self.keys@.insert_ensures(0, k);
        if g is Some {
            self.children@.insert_ensures(0, g.unwrap());
        }
        assert(grown.wf()) by {
            assert forall|j: int, x: K|
                0 <= j < grown.children@.len() && #[trigger] grown.children@[j].has(x) implies {
                &&& j > 0 ==> key_lt(grown.keys@[j - 1], x)
                &&& j < grown.keys@.len() ==> key_lt(x, grown.keys@[j])
            } by {
                if j > 0 {
                    assert(grown.children@[j] == self.children@[j - 1]);
                    assert(self.children@[j - 1].has(x));
                    assert(self.has(x));
                    if j > 1 {
                        assert(grown.keys@[j - 1] == self.keys@[j - 2]);
                    }
                    if j < grown.keys@.len() {
                        assert(grown.keys@[j] == self.keys@[j - 1]);
                    }
                } else {
                    assert(Self::opt_has(g, x));
                }
            }
            assert forall|j: int| 0 <= j < grown.children@.len() implies {
                &&& (#[trigger] grown.children@[j]).wf()
                &&& grown.children@[j].degree == grown.degree
                &&& grown.children@[j].keys@.len() >= grown.degree - 1
                &&& grown.children@[j].height() + 1 == grown.height()
            } by {
                if j > 0 {
                    assert(grown.children@[j] == self.children@[j - 1]);
                }
                assert(grown.children@[0] == g.unwrap());
            }
        }
        assert forall|x: K| #[trigger]
            grown.has(x) <==> (self.has(x) || x == k || Self::opt_has(g, x)) by {
            if grown.has(x) && !grown.payload@.contains_key(x) {
                let j = choose|j: int|
                    0 <= j < grown.children@.len() && (#[trigger] grown.children@[j]).has(x);
                if j > 0 {
                    assert(grown.children@[j] == self.children@[j - 1]);
                    assert(self.children@[j - 1].has(x));
                }
            }
            if self.has(x) && !self.payload@.contains_key(x) {
                let j = choose|j: int|
                    0 <= j < self.children@.len() && (#[trigger] self.children@[j]).has(x);
                assert(grown.children@[j + 1] == self.children@[j]);
                assert(grown.children@[j + 1].has(x));
            }
            if Self::opt_has(g, x) {
                assert(grown.children@[0].has(x));
            }
        }
        assert forall|x: K| #[trigger] self.has(x) implies grown.val(x) == self.val(x) by {
            if !self.payload@.contains_key(x) {
                let j = choose|j: int|
                    0 <= j < self.children@.len() && (#[trigger] self.children@[j]).has(x);
                assert(grown.children@[j + 1] == self.children@[j]);
                self.lemma_child_owns(j, x);
                grown.lemma_child_owns(j + 1, x);
            }
        }
        assert forall|x: K| #[trigger] Self::opt_has(g, x) implies grown.val(x)
            == g.unwrap().val(x) by {
            grown.lemma_child_owns(0, x);
        }
    }

    /// A node with room takes a key above all it holds, and a fitting child
    /// above that key, at its end.
    proof fn lemma_with_last(&self, k: K, v: V, g: Option<Box<Self>>, grown: &Self)
        requires
            self.wf(),
            total_order::<K>(),
            self.keys@.len() < 2 * self.degree - 1,
            self.with_last(k, v, g, grown),
            self.fits_below(g),
            forall|x: K| #[trigger] self.has(x) ==> key_lt(x, k),
            forall|x: K| #[trigger] Self::opt_has(g, x) ==> key_lt(k, x),
        ensures
            grown.wf(),
            grown.height() == self.height(),
            grown.keys@.len() == self.keys@.len() + 1,
            forall|x: K| #[trigger]
                grown.has(x) <==> (self.has(x) || x == k || Self::opt_has(g, x)),
            grown.val(k) == v,
            forall|x: K| #[trigger] self.has(x) ==> grown.val(x) == self.val(x),
            forall|x: K| #[trigger] Self::opt_has(g, x) ==> grown.val(x) == g.unwrap().val(x),
    {
        lemma_total_order::<K>();
        self.lemma_wf_local();
        let n = self.keys@.len() as int;
        if n > 0 {
            assert(self.has(self.keys@[n - 1]));
        }
        lemma_sorted_insert(self.keys@, n, k);
        assert(self.keys@.insert(n, k) =~= self.keys@.push(k));
        assert(grown.wf()) by {
            assert forall|j: int, x: K|
                0 <= j < grown.children@.len() && #[trigger] grown.children@[j].has(x) implies {
                &&& j > 0 ==> key_lt(grown.keys@[j - 1], x)
                &&& j < grown.keys@.len() ==> key_lt(x, grown.keys@[j])
            } by {
                if j <= n {
                    assert(grown.children@[j] == self.children@[j]);
                    assert(self.children@[j].has(x));
                    assert(self.has(x));
                } else {
                    assert(Self::opt_has(g, x));
                }
            }
            assert forall|j: int| 0 <= j < grown.children@.len() implies {
                &&& (#[trigger] grown.children@[j]).wf()
                &&& grown.children@[j].degree == grown.degree
                &&& grown.children@[j].keys@.len() >= grown.degree - 1
                &&& grown.children@[j].height() + 1 == grown.height()
            } by {
                if j <= n {
                    assert(grown.children@[j] == self.children@[j]);
                }
                assert(grown.children@[0] == self.children@[0]);
            }
        }
        assert forall|x: K| #[trigger]
            grown.has(x) <==> (self.has(x) || x == k || Self::opt_has(g, x)) by {
            if grown.has(x) && !grown.payload@.contains_key(x) {
                let j = choose|j: int|
                    0 <= j < grown.children@.len() && (#[trigger] grown.children@[j]).has(x);
                if j <= n {
                    assert(grown.children@[j] == self.children@[j]);
                    assert(self.children@[j].has(x));
                }
            }
            if self.has(x) && !self.payload@.contains_key(x) {
                let j = choose|j: int|
                    0 <= j < self.children@.len() && (#[trigger] self.children@[j]).has(x);
                assert(grown.children@[j] == self.children@[j]);
                assert(grown.children@[j].has(x));
            }
            if Self::opt_has(g, x) {
                assert(grown.children@[n + 1].has(x));
            }
        }
        assert forall|x: K| #[trigger] self.has(x) implies grown.val(x) == self.val(x) by {
            if !self.payload@.contains_key(x) {
                let j = choose|j: int|
                    0 <= j < self.children@.len() && (#[trigger] self.children@[j]).has(x);
                assert(grown.children@[j] == self.children@[j]);
                self.lemma_child_owns(j, x);
                grown.lemma_child_owns(j, x);
            }
        }
        assert forall|x: K| #[trigger] Self::opt_has(g, x) implies grown.val(x)
            == g.unwrap().val(x) by {
            grown.lemma_child_owns(n + 1, x);
        }
    }

    /// Two minimally filled neighbours and the separator between them make
    /// one well-formed node that holds what the three held.
    proof fn lemma_merged_with(&self, sep: K, v: V, right: &Self, out: &Self)
        requires
            self.wf(),
            right.wf(),
            total_order::<K>(),
            self.degree == right.degree,
            self.height() == right.height(),
            self.keys@.len() + 1 + right.keys@.len() <= 2 * self.degree - 1,
            self.merged_with(sep, v, right, out),
            forall|x: K| #[trigger] self.has(x) ==> key_lt(x, sep),
            forall|x: K| #[trigger] right.has(x) ==> key_lt(sep, x),
        ensures
            out.wf(),
            out.height() == self.height(),
            out.keys@.len() == self.keys@.len() + 1 + right.keys@.len(),
            forall|x: K| #[trigger] out.has(x) <==> (self.has(x) || x == sep || right.has(x)),
            out.val(sep) == v,
            forall|x: K| #[trigger] self.has(x) ==> out.val(x) == self.val(x),
            forall|x: K| #[trigger] right.has(x) ==> out.val(x) == right.val(x),
    {
        lemma_total_order::<K>();
        self.lemma_wf_local();
        right.lemma_wf_local();
        let n = self.keys@.len() as int;
        let c = self.children@.len() as int;
        assert forall|x: int, y: int| 0 <= x < y < out.keys@.len() implies key_lt(
            #[trigger] out.keys@[x],
            #[trigger] out.keys@[y],
        ) by {
            if y < n {
            } else if y == n {
                assert(self.has(self.keys@[x]));
            } else {
                assert(out.keys@[y] == right.keys@[y - n - 1]);
                assert(right.has(right.keys@[y - n - 1]));
                if x < n {
                    assert(self.has(self.keys@[x]));
                } else if x > n {
                    assert(out.keys@[x] == right.keys@[x - n - 1]);
                }
            }
        }
        assert forall|x: K|
            #![trigger out.payload@.contains_key(x)]
            #![trigger out.keys@.contains(x)]
            out.payload@.contains_key(x) <==> out.keys@.contains(x) by {
            if out.keys@.contains(x) {
                let p = choose|p: int| 0 <= p < out.keys@.len() && out.keys@[p] == x;
                if p < n {
                    assert(self.keys@.contains(x));
                } else if p > n {
                    assert(right.keys@[p - n - 1] == x);
                    assert(right.keys@.contains(x));
                }
            }
            if self.payload@.contains_key(x) {
                let p = choose|p: int| 0 <= p < self.keys@.len() && self.keys@[p] == x;
                assert(out.keys@[p] == x);
            }
            if right.payload@.contains_key(x) {
                let p = choose|p: int| 0 <= p < right.keys@.len() && right.keys@[p] == x;
                assert(out.keys@[p + n + 1] == x);
            }
            if x == sep {
                assert(out.keys@[n] == x);
            }
        }
        assert(out.wf()) by {
            assert forall|j: int, x: K|
                0 <= j < out.children@.len() && #[trigger] out.children@[j].has(x) implies {
                &&& j > 0 ==> key_lt(out.keys@[j - 1], x)
                &&& j < out.keys@.len() ==> key_lt(x, out.keys@[j])
            } by {
                if j < c {
                    assert(self.children@[j].has(x));
                    assert(self.has(x));
                } else {
                    assert(out.children@[j] == right.children@[j - c]);
                    assert(right.children@[j - c].has(x));
                    assert(right.has(x));
                    if j > c {
                        assert(out.keys@[j - 1] == right.keys@[j - 1 - c]);
                    }
                    if j < out.keys@.len() {
                        assert(out.keys@[j] == right.keys@[j - c]);
                    }
                }
            }
            assert forall|j: int| 0 <= j < out.children@.len() implies {
                &&& (#[trigger] out.children@[j]).wf()
                &&& out.children@[j].degree == out.degree
                &&& out.children@[j].keys@.len() >= out.degree - 1
                &&& out.children@[j].height() + 1 == out.height()
            } by {
                if j < c {
                    assert(out.children@[j] == self.children@[j]);
                } else {
                    assert(out.children@[j] == right.children@[j - c]);
                }
                assert(out.children@[0] == self.children@[0]);
            }
        }
        assert forall|x: K| #[trigger] out.has(x) <==> (self.has(x) || x == sep || right.has(x)) by {
            if out.has(x) && !out.payload@.contains_key(x) {
                let j = choose|j: int|
                    0 <= j < out.children@.len() && (#[trigger] out.children@[j]).has(x);
                if j < c {
                    assert(self.children@[j].has(x));
                } else {
                    assert(out.children@[j] == right.children@[j - c]);
                    assert(right.children@[j - c].has(x));
                }
            }
            if self.has(x) && !self.payload@.contains_key(x) {
                let j = choose|j: int|
                    0 <= j < self.children@.len() && (#[trigger] self.children@[j]).has(x);
                assert(out.children@[j].has(x));
            }
            if right.has(x) && !right.payload@.contains_key(x) {
                let j = choose|j: int|
                    0 <= j < right.children@.len() && (#[trigger] right.children@[j]).has(x);
                assert(out.children@[j + c] == right.children@[j]);
                assert(out.children@[j + c].has(x));
            }
        }
        assert(!right.has(sep));
        assert forall|x: K| #[trigger] self.has(x) implies out.val(x) == self.val(x) by {
            assert(!right.has(x));
            if !self.payload@.contains_key(x) {
                let j = choose|j: int|
                    0 <= j < self.children@.len() && (#[trigger] self.children@[j]).has(x);
                self.lemma_child_owns(j, x);
                assert(out.children@[j] == self.children@[j]);
                out.lemma_child_owns(j, x);
            }
        }
        assert forall|x: K| #[trigger] right.has(x) implies out.val(x) == right.val(x) by {
            if !right.payload@.contains_key(x) {
                let j = choose|j: int|
                    0 <= j < right.children@.len() && (#[trigger] right.children@[j]).has(x);
                right.lemma_child_owns(j, x);
                assert(out.children@[j + c] == right.children@[j]);
                out.lemma_child_owns(j + c, x);
            }
        }
    }
}


impl<K: Eq + Hash + Ord + Copy, V> TreeNode<K, V> {
    /// `next` is `self` after child `i` borrowed through the separator on
    /// its left: the last key of child `i - 1` became that separator, and the
    /// old separator, with the last child of child `i - 1`, went to the front
    /// of child `i`.
    pub open spec fn rotated_right(&self, i: int, next: &Self) -> bool {
        let left = self.node_children()[i - 1];
        let sep = self.node_keys()[i - 1];
        let up = left.node_keys().last();
        &&& next.leaf() == self.leaf()
        &&& next.spec_degree() == self.spec_degree()
        &&& next.node_keys() == self.node_keys().update(i - 1, up)
        &&& next.node_values() == self.node_values().remove(sep).insert(up, left.node_values()[up])
        &&& next.node_children().len() == self.node_children().len()
        &&& forall|j: int|
            0 <= j < self.node_children().len() && j != i && j != i - 1 ==> #[trigger] next.node_children()[j]
                == self.node_children()[j]
        &&& left.without_last(&*next.node_children()[i - 1])
        &&& self.node_children()[i].with_first(
            sep,
            self.node_values()[sep],
            left.last_child(),
            &*next.node_children()[i],
        )
    }

    /// `next` is `self` after child `i` borrowed through the separator on
    /// its right: the first key of child `i + 1` became that separator, and
    /// the old separator, with the first child of child `i + 1`, went to the
    /// end of child `i`.
    pub open spec fn rotated_left(&self, i: int, next: &Self) -> bool {
        let right = self.node_children()[i + 1];
        let sep = self.node_keys()[i];
        let up = right.node_keys().first();
        &&& next.leaf() == self.leaf()
        &&& next.spec_degree() == self.spec_degree()
        &&& next.node_keys() == self.node_keys().update(i, up)
        &&& next.node_values() == self.node_values().remove(sep).insert(up, right.node_values()[up])
        &&& next.node_children().len() == self.node_children().len()
        &&& forall|j: int|
            0 <= j < self.node_children().len() && j != i && j != i + 1 ==> #[trigger] next.node_children()[j]
                == self.node_children()[j]
        &&& right.without_first(&*next.node_children()[i + 1])
        &&& self.node_children()[i].with_last(
            sep,
            self.node_values()[sep],
            right.first_child(),
            &*next.node_children()[i],
        )
    }

    /// `next` is `self` after the separator at `i` and child `i + 1` were
    /// merged into child `i`.
    pub open spec fn merged_at(&self, i: int, next: &Self) -> bool {
        let sep = self.node_keys()[i];
        &&& next.leaf() == self.leaf()
        &&& next.spec_degree() == self.spec_degree()
        &&& next.node_keys() == self.node_keys().remove(i)
        &&& next.node_values() == self.node_values().remove(sep)
        &&& next.node_children().len() == self.node_children().len() - 1
        &&& forall|j: int| 0 <= j < i ==> #[trigger] next.node_children()[j] == self.node_children()[j]
        &&& forall|j: int|
            i < j < next.node_children().len() ==> #[trigger] next.node_children()[j] == self.node_children()[j + 1]
        &&& self.node_children()[i].merged_with(
            sep,
            self.node_values()[sep],
            &*self.node_children()[i + 1],
            &*next.node_children()[i],
        )
    }

    /// `k` is the separator at `lo` or held by one of the two children
    /// beside it.
    spec fn around(&self, lo: int, k: K) -> bool {
        self.children@[lo].has(k) || self.children@[lo + 1].has(k) || k == self.keys@[lo]
    }

    /// What a rotation through the separator at `lo` has to show of its two
    /// new children for the node to stay well formed and to hold what it held.
    proof fn lemma_rotated(&self, lo: int, next: &Self)
        requires
            self.wf(),
            total_order::<K>(),
            !self.is_leaf,
            0 <= lo < self.keys@.len(),
            next.is_leaf == self.is_leaf,
            next.degree == self.degree,
            next.keys@ == self.keys@.update(lo, next.keys@[lo]),
            next.payload@ == self.payload@.remove(self.keys@[lo]).insert(
                next.keys@[lo],
                next.payload@[next.keys@[lo]],
            ),
            next.children@.len() == self.children@.len(),
            forall|j: int|
                0 <= j < self.children@.len() && j != lo && j != lo + 1
                    ==> #[trigger] next.children@[j] == self.children@[j],
            next.children@[lo].wf(),
            next.children@[lo + 1].wf(),
            next.children@[lo].keys@.len() >= self.degree - 1,
            next.children@[lo + 1].keys@.len() >= self.degree - 1,
            next.children@[lo].degree == self.degree,
            next.children@[lo + 1].degree == self.degree,
            next.children@[lo].height() == self.children@[lo].height(),
            next.children@[lo + 1].height() == self.children@[lo + 1].height(),
            self.around(lo, next.keys@[lo]),
            next.payload@[next.keys@[lo]] == self.val(next.keys@[lo]),
            forall|k: K| #[trigger]
                next.children@[lo].has(k) ==> key_lt(k, next.keys@[lo]) && self.around(lo, k)
                    && next.children@[lo].val(k) == self.val(k),
            forall|k: K| #[trigger]
                next.children@[lo + 1].has(k) ==> key_lt(next.keys@[lo], k) && self.around(lo, k)
                    && next.children@[lo + 1].val(k) == self.val(k),
            forall|k: K| #[trigger]
                self.around(lo, k) ==> next.children@[lo].has(k) || next.children@[lo + 1].has(k)
                    || k == next.keys@[lo],
        ensures
            next.wf(),
            next.height() == self.height(),
            forall|k: K| next.has(k) <==> self.has(k),
            forall|k: K| self.has(k) ==> next.val(k) == self.val(k),
            next@ == self@,
    {
        lemma_total_order::<K>();
        self.lemma_wf_local();
        let up = next.keys@[lo];
        let sep = self.keys@[lo];
        assert(self.keys@.contains(sep));
        assert forall|k: K| #[trigger] self.around(lo, k) implies self.has(k) && (lo > 0
            ==> key_lt(self.keys@[lo - 1], k)) && (lo + 1 < self.keys@.len() ==> key_lt(
            k,
            self.keys@[lo + 1],
        )) by {
            if lo + 1 < self.keys@.len() {
                assert(key_lt(self.keys@[lo], self.keys@[lo + 1]));
            }
            if lo > 0 {
                assert(key_lt(self.keys@[lo - 1], self.keys@[lo]));
            }
        }
        lemma_sorted_update(self.keys@, lo, up);
        assert(next.wf()) by {
            assert forall|j: int| 0 <= j < next.children@.len() implies {
                &&& (#[trigger] next.children@[j]).wf()
                &&& next.children@[j].degree == next.degree
                &&& next.children@[j].keys@.len() >= next.degree - 1
                &&& next.children@[j].height() + 1 == next.height()
            } by {
                if j != lo && j != lo + 1 {
                    assert(next.children@[j] == self.children@[j]);
                }
                if lo != 0 {
                    assert(next.children@[0] == self.children@[0]);
                }
            }
            assert forall|j: int, k: K|
                0 <= j < next.children@.len() && #[trigger] next.children@[j].has(k) implies {
                &&& j > 0 ==> key_lt(next.keys@[j - 1], k)
                &&& j < next.keys@.len() ==> key_lt(k, next.keys@[j])
            } by {
                if j != lo && j != lo + 1 {
                    assert(self.children@[j].has(k));
                } else {
                    assert(self.around(lo, k));
                }
            }
        }
        assert forall|k: K| next.has(k) <==> self.has(k) by {
            if next.has(k) && !next.payload@.contains_key(k) {
                let j = choose|j: int|
                    0 <= j < next.children@.len() && (#[trigger] next.children@[j]).has(k);
                if j != lo && j != lo + 1 {
                    assert(self.children@[j].has(k));
                } else {
                    assert(self.around(lo, k));
                }
            }
            if self.has(k) && !self.payload@.contains_key(k) {
                let j = choose|j: int|
                    0 <= j < self.children@.len() && (#[trigger] self.children@[j]).has(k);
                if j != lo && j != lo + 1 {
                    assert(next.children@[j].has(k));
                } else {
                    assert(self.around(lo, k));
                }
            }
            if k == sep {
                assert(self.around(lo, k));
            }
        }
        assert forall|k: K| self.has(k) implies next.val(k) == self.val(k) by {
            assert(next.has(k));
            if next.payload@.contains_key(k) {
            } else {
                let j = choose|j: int|
                    0 <= j < next.children@.len() && (#[trigger] next.children@[j]).has(k);
                next.lemma_child_owns(j, k);
                if j != lo && j != lo + 1 {
                    assert(self.children@[j].has(k));
                    self.lemma_child_owns(j, k);
                }
            }
        }
        self.lemma_view();
        next.lemma_view();
        assert(next@ =~= self@);
    }

    /// Borrowing from the left neighbour keeps the node well formed and what
    /// it holds, and gives child `i` one key more.
    proof fn lemma_rotated_right(&self, i: int, next: &Self)
        requires
            self.wf(),
            total_order::<K>(),
            1 <= i < self.children@.len(),
            self.children@[i - 1].keys@.len() >= self.degree,
            self.children@[i].keys@.len() < 2 * self.degree - 1,
            self.rotated_right(i, next),
        ensures
            next.wf(),
            next.height() == self.height(),
            next@ == self@,
            next.children@[i].keys@.len() == self.children@[i].keys@.len() + 1,
            forall|k: K|
                self.in_gap(i, k) && !self.payload@.contains_key(k) ==> #[trigger] next.in_gap(i, k)
                    && !next.payload@.contains_key(k),
    {
        lemma_total_order::<K>();
        self.lemma_wf_local();
        let left = self.children@[i - 1];
        let mid = self.children@[i];
        let sep = self.keys@[i - 1];
        let up = left.keys@.last();
        let left2 = next.children@[i - 1];
        let mid2 = next.children@[i];
        let g = left.last_child();
        left.lemma_without_last(&*left2);
        left.lemma_wf_local();
        mid.lemma_wf_local();
        assert(self.has(sep));
        assert(self.children@[i - 1].has(up));
        self.lemma_child_owns(i - 1, up);
        assert forall|x: K| #[trigger] Self::opt_has(g, x) implies key_lt(x, sep) by {
            assert(left.has(x));
            assert(self.children@[i - 1].has(x));
        }
        assert forall|x: K| #[trigger] mid.has(x) implies key_lt(sep, x) by {
            assert(self.children@[i].has(x));
        }
        mid.lemma_with_first(sep, self.payload@[sep], g, &*mid2);
        assert forall|k: K| #[trigger] next.children@[i - 1].has(k) implies key_lt(k, up)
            && self.around(i - 1, k) && next.children@[i - 1].val(k) == self.val(k) by {
            assert(left.has(k));
            assert(self.children@[i - 1].has(k));
            self.lemma_child_owns(i - 1, k);
        }
        assert forall|k: K| #[trigger] next.children@[i].has(k) implies key_lt(up, k)
            && self.around(i - 1, k) && next.children@[i].val(k) == self.val(k) by {
            if mid.has(k) {
                assert(self.children@[i].has(k));
                self.lemma_child_owns(i, k);
            } else if k == sep {
            } else {
                assert(Self::opt_has(g, k));
                assert(left.has(k));
                assert(self.children@[i - 1].has(k));
                self.lemma_child_owns(i - 1, k);
            }
        }
        assert forall|k: K| #[trigger] self.around(i - 1, k) implies next.children@[i - 1].has(k)
            || next.children@[i].has(k) || k == up by {
            if self.children@[i - 1].has(k) {
                assert(left.has(k));
                if Self::opt_has(g, k) {
                    assert(mid2.has(k));
                }
            } else if self.children@[i].has(k) {
                assert(mid2.has(k));
            } else {
                assert(mid2.has(k));
            }
        }
        assert(self.around(i - 1, up));
        self.lemma_rotated(i - 1, next);
    }

    /// Borrowing from the right neighbour keeps the node well formed and
    /// what it holds, and gives child `i` one key more.
    proof fn lemma_rotated_left(&self, i: int, next: &Self)
        requires
            self.wf(),
            total_order::<K>(),
            0 <= i < self.children@.len() - 1,
            self.children@[i + 1].keys@.len() >= self.degree,
            self.children@[i].keys@.len() < 2 * self.degree - 1,
            self.rotated_left(i, next),
        ensures
            next.wf(),
            next.height() == self.height(),
            next@ == self@,
            next.children@[i].keys@.len() == self.children@[i].keys@.len() + 1,
            forall|k: K|
                self.in_gap(i, k) && !self.payload@.contains_key(k) ==> #[trigger] next.in_gap(i, k)
                    && !next.payload@.contains_key(k),
    {
        lemma_total_order::<K>();
        self.lemma_wf_local();
        let right = self.children@[i + 1];
        let mid = self.children@[i];
        let sep = self.keys@[i];
        let up = right.keys@.first();
        let right2 = next.children@[i + 1];
        let mid2 = next.children@[i];
        let g = right.first_child();
        right.lemma_without_first(&*right2);
        right.lemma_wf_local();
        mid.lemma_wf_local();
        assert(self.has(sep));
        assert(self.children@[i + 1].has(up));
        self.lemma_child_owns(i + 1, up);
        assert forall|x: K| #[trigger] Self::opt_has(g, x) implies key_lt(sep, x) by {
            assert(right.has(x));
            assert(self.children@[i + 1].has(x));
        }
        assert forall|x: K| #[trigger] mid.has(x) implies key_lt(x, sep) by {
            assert(self.children@[i].has(x));
        }
        mid.lemma_with_last(sep, self.payload@[sep], g, &*mid2);
        assert forall|k: K| #[trigger] next.children@[i + 1].has(k) implies key_lt(up, k)
            && self.around(i, k) && next.children@[i + 1].val(k) == self.val(k) by {
            assert(right.has(k));
            assert(self.children@[i + 1].has(k));
            self.lemma_child_owns(i + 1, k);
        }
        assert forall|k: K| #[trigger] next.children@[i].has(k) implies key_lt(k, up)
            && self.around(i, k) && next.children@[i].val(k) == self.val(k) by {
            if mid.has(k) {
                assert(self.children@[i].has(k));
                self.lemma_child_owns(i, k);
            } else if k == sep {
            } else {
                assert(Self::opt_has(g, k));
                assert(right.has(k));
                assert(self.children@[i + 1].has(k));
                self.lemma_child_owns(i + 1, k);
            }
        }
        assert forall|k: K| #[trigger] self.around(i, k) implies next.children@[i].has(k)
            || next.children@[i + 1].has(k) || k == up by {
            if self.children@[i + 1].has(k) {
                assert(right.has(k));
                if Self::opt_has(g, k) {
                    assert(mid2.has(k));
                }
            } else if self.children@[i].has(k) {
                assert(mid2.has(k));
            } else {
                assert(mid2.has(k));
            }
        }
        assert(self.around(i, up));
        self.lemma_rotated(i, next);
    }

    /// Merging two minimally filled neighbours around their separator keeps
    /// the node well formed and what it holds; the merged child is full.
    proof fn lemma_merged_at(&self, i: int, next: &Self)
        requires
            self.wf(),
            total_order::<K>(),
            0 <= i < self.keys@.len(),
            !self.is_leaf,
            self.children@[i].keys@.len() == self.degree - 1,
            self.children@[i + 1].keys@.len() == self.degree - 1,
            self.merged_at(i, next),
        ensures
            next.wf(),
            next.height() == self.height(),
            next@ == self@,
            next.keys@.len() == self.keys@.len() - 1,
            next.children@[i].keys@.len() == 2 * self.degree - 1,
            next.children@[i].height() == self.children@[i].height(),
            !next.payload@.contains_key(self.keys@[i]),
            next.in_gap(i, self.keys@[i]),
            forall|k: K|
                (self.in_gap(i, k) || self.in_gap(i + 1, k)) && !self.payload@.contains_key(k)
                    ==> #[trigger] next.in_gap(i, k) && !next.payload@.contains_key(k),
    {
        lemma_total_order::<K>();
        self.lemma_wf_local();
        let left = self.children@[i];
        let right = self.children@[i + 1];
        let sep = self.keys@[i];
        let out = next.children@[i];
        assert(self.keys@.contains(sep));
        assert forall|x: K| #[trigger] left.has(x) implies key_lt(x, sep) by {
            assert(self.children@[i].has(x));
        }
        assert forall|x: K| #[trigger] right.has(x) implies key_lt(sep, x) by {
            assert(self.children@[i + 1].has(x));
        }
        left.lemma_merged_with(sep, self.payload@[sep], &*right, &*out);
        lemma_sorted_remove(self.keys@, i);
        self.keys@.remove_ensures(i);
        assert(next.wf()) by {
            assert forall|j: int| 0 <= j < next.children@.len() implies {
                &&& (#[trigger] next.children@[j]).wf()
                &&& next.children@[j].degree == next.degree
                &&& next.children@[j].keys@.len() >= next.degree - 1
                &&& next.children@[j].height() + 1 == next.height()
            } by {
                if j < i {
                    assert(next.children@[j] == self.children@[j]);
                } else if j > i {
                    assert(next.children@[j] == self.children@[j + 1]);
                }
                if i > 0 {
                    assert(next.children@[0] == self.children@[0]);
                }
            }
            assert forall|j: int, k: K|
                0 <= j < next.children@.len() && #[trigger] next.children@[j].has(k) implies {
                &&& j > 0 ==> key_lt(next.keys@[j - 1], k)
                &&& j < next.keys@.len() ==> key_lt(k, next.keys@[j])
            } by {
                if j < i {
                    assert(self.children@[j].has(k));
                } else if j > i {
                    assert(next.children@[j] == self.children@[j + 1]);
                    assert(self.children@[j + 1].has(k));
                } else {
                    if left.has(k) {
                        assert(self.children@[i].has(k));
                        if i + 1 < self.keys@.len() {
                            assert(key_lt(self.keys@[i], self.keys@[i + 1]));
                        }
                    } else if right.has(k) {
                        assert(self.children@[i + 1].has(k));
                        if i > 0 {
                            assert(key_lt(self.keys@[i - 1], self.keys@[i]));
                        }
                    } else {
                        if i + 1 < self.keys@.len() {
                            assert(key_lt(self.keys@[i], self.keys@[i + 1]));
                        }
                        if i > 0 {
                            assert(key_lt(self.keys@[i - 1], self.keys@[i]));
                        }
                    }
                }
            }
        }
        assert forall|k: K| next.has(k) <==> self.has(k) by {
            if next.has(k) && !next.payload@.contains_key(k) {
                let j = choose|j: int|
                    0 <= j < next.children@.len() && (#[trigger] next.children@[j]).has(k);
                if j < i {
                    assert(self.children@[j].has(k));
                } else if j > i {
                    assert(next.children@[j] == self.children@[j + 1]);
                    assert(self.children@[j + 1].has(k));
                } else {
                    if left.has(k) {
                        assert(self.children@[i].has(k));
                    } else if right.has(k) {
                        assert(self.children@[i + 1].has(k));
                    }
                }
            }
            if self.has(k) && !self.payload@.contains_key(k) {
                let j = choose|j: int|
                    0 <= j < self.children@.len() && (#[trigger] self.children@[j]).has(k);
                if j < i {
                    assert(next.children@[j].has(k));
                } else if j > i + 1 {
                    assert(next.children@[j - 1] == self.children@[j]);
                    assert(next.children@[j - 1].has(k));
                } else {
                    assert(next.children@[i].has(k));
                }
            }
            if k == sep {
                assert(next.children@[i].has(k));
            }
        }
        assert forall|k: K| self.has(k) implies next.val(k) == self.val(k) by {
            assert(next.has(k));
            if k == sep {
                next.lemma_child_owns(i, k);
            } else if !self.payload@.contains_key(k) {
                let j = choose|j: int|
                    0 <= j < self.children@.len() && (#[trigger] self.children@[j]).has(k);
                self.lemma_child_owns(j, k);
                if j < i {
                    next.lemma_child_owns(j, k);
                } else if j > i + 1 {
                    assert(next.children@[j - 1] == self.children@[j]);
                    next.lemma_child_owns(j - 1, k);
                } else {
                    assert(next.children@[i].has(k));
                    next.lemma_child_owns(i, k);
                }
            }
        }
        self.lemma_view();
        next.lemma_view();
        assert(next@ =~= self@);
        assert(next.children@[i].has(sep));
        assert forall|k: K|
            (self.in_gap(i, k) || self.in_gap(i + 1, k)) && !self.payload@.contains_key(k)
                implies #[trigger] next.in_gap(i, k) && !next.payload@.contains_key(k) by {
            if i + 1 < self.keys@.len() {
                assert(key_lt(self.keys@[i], self.keys@[i + 1]));
            }
            if i > 0 {
                assert(key_lt(self.keys@[i - 1], self.keys@[i]));
            }
        }
    }
}


impl<K: Eq + Hash + Ord + Copy, V> TreeNode<K, V> {
    /// `after` is what inserting `key` with `value` makes of the subtree
    /// `before`, which is not full and does not hold `key`.
    ///
    /// A leaf takes the key and the value at the key's place.  An inner node
    /// first splits the child that the key belongs to if that child is
    /// full, and then goes on with the half on the key's side of the key
    /// lifted; else it goes on with that child.  Nothing else changes.
    pub open spec fn insertion(before: &Self, key: K, value: V, after: &Self) -> bool
        decreases before.height(),
    {
        let i = before.slot(key);
        if before.leaf() {
            &&& after.leaf()
            &&& after.spec_degree() == before.spec_degree()
            &&& after.node_keys() == before.node_keys().insert(i, key)
            &&& after.node_values() == before.node_values().insert(key, value)
            &&& after.node_children() == before.node_children()
        } else if before.child(i).key_count() >= 2 * before.spec_degree() - 1 {
            exists|mid: Self|
                {
                    let j = if key_lt(mid.node_keys()[i], key) {
                        i + 1
                    } else {
                        i
                    };
                    &&& #[trigger] before.split_at(i, &mid)
                    &&& mid.with_child(j, after)
                    &&& mid.child(j).height() < before.height()
                    &&& Self::insertion(&mid.child(j), key, value, &after.child(j))
                }
        } else {
            &&& before.with_child(i, after)
            &&& before.child(i).height() < before.height()
            &&& Self::insertion(&before.child(i), key, value, &after.child(i))
        }
    }

    /// `after` is what deleting `key` makes of the subtree `before`.
    ///
    /// A leaf gives the key up if it holds it.  An inner node that holds
    /// the key as a separator overwrites it with its predecessor, deleted
    /// from the left child, if that child can spare a key; else with its
    /// successor, deleted from the right child, if that one can; else it
    /// merges the two children round the key and deletes the key from the
    /// merged child.  An inner node that does not hold the key goes on with
    /// the child that the key belongs to, after it has made sure that this
    /// child can spare a key: by borrowing from the previous child if that
    /// one can spare a key, else from the next child if that one can, else
    /// by merging with the next child, or with the previous one if there is
    /// no next.
    pub open spec fn deletion(before: &Self, key: K, after: &Self) -> bool
        decreases before.height(),
    {
        let t = before.spec_degree();
        if before.leaf() {
            &&& after.leaf()
            &&& after.spec_degree() == t
            &&& after.node_children() == before.node_children()
            &&& if before.node_keys().contains(key) {
                &&& after.node_keys() == before.node_keys().remove(
                    before.node_keys().index_of(key),
                )
                &&& after.node_values() == before.node_values().remove(key)
            } else {
                &&& after.node_keys() == before.node_keys()
                &&& after.node_values() == before.node_values()
            }
        } else if before.node_keys().contains(key) {
            let i = before.node_keys().index_of(key);
            if before.child(i).key_count() >= t {
                let pred = before.child(i).max_key();
                &&& before.separator_replaced(i, i, pred, before.child(i)@[pred], after)
                &&& before.child(i).height() < before.height()
                &&& Self::deletion(&before.child(i), pred, &after.child(i))
            } else if before.child(i + 1).key_count() >= t {
                let succ = before.child(i + 1).min_key();
                &&& before.separator_replaced(i, i + 1, succ, before.child(i + 1)@[succ], after)
                &&& before.child(i + 1).height() < before.height()
                &&& Self::deletion(&before.child(i + 1), succ, &after.child(i + 1))
            } else {
                exists|mid: Self|
                    {
                        &&& #[trigger] before.merged_at(i, &mid)
                        &&& mid.with_child(i, after)
                        &&& mid.child(i).height() < before.height()
                        &&& Self::deletion(&mid.child(i), key, &after.child(i))
                    }
            }
        } else {
            let i = before.slot(key);
            if before.child(i).key_count() >= t {
                &&& before.with_child(i, after)
                &&& before.child(i).height() < before.height()
                &&& Self::deletion(&before.child(i), key, &after.child(i))
            } else if i > 0 && before.child(i - 1).key_count() >= t {
                exists|mid: Self|
                    {
                        &&& #[trigger] before.rotated_right(i, &mid)
                        &&& mid.with_child(i, after)
                        &&& mid.child(i).height() < before.height()
                        &&& Self::deletion(&mid.child(i), key, &after.child(i))
                    }
            } else if i < before.key_count() && before.child(i + 1).key_count() >= t {
                exists|mid: Self|
                    {
                        &&& #[trigger] before.rotated_left(i, &mid)
                        &&& mid.with_child(i, after)
                        &&& mid.child(i).height() < before.height()
                        &&& Self::deletion(&mid.child(i), key, &after.child(i))
                    }
            } else if i < before.key_count() {
                exists|mid: Self|
                    {
                        &&& #[trigger] before.merged_at(i, &mid)
                        &&& mid.with_child(i, after)
                        &&& mid.child(i).height() < before.height()
                        &&& Self::deletion(&mid.child(i), key, &after.child(i))
                    }
            } else {
                exists|mid: Self|
                    {
                        &&& #[trigger] before.merged_at(i - 1, &mid)
                        &&& mid.with_child(i - 1, after)
                        &&& mid.child(i - 1).height() < before.height()
                        &&& Self::deletion(&mid.child(i - 1), key, &after.child(i - 1))
                    }
            }
        }
    }

    /// After the step that made `mid` of `before`, the deletion of `key`
    /// goes on below child `at` of `mid`, and `after` is what it leaves.
    pub open spec fn goes_on(before: &Self, mid: &Self, at: int, key: K, after: &Self) -> bool {
        &&& mid.with_child(at, after)
        &&& mid.child(at).height() < before.height()
        &&& Self::deletion(&mid.child(at), key, &after.child(at))
    }

    /// The place of a key among the keys of a well-formed node is the only
    /// one where it stands.
    pub proof fn lemma_index_of(&self, i: int)
        requires
            self.wf(),
            total_order::<K>(),
            0 <= i < self.node_keys().len(),
        ensures
            self.node_keys().contains(self.node_keys()[i]),
            self.node_keys().index_of(self.node_keys()[i]) == i,
    {
        let key = self.keys@[i];
        assert(self.keys@.contains(key));
        crate::order::lemma_sorted_distinct(self.keys@, self.keys@.index_of(key), i);
    }

    /// What deleting `key` from the subtree `before` owes: the subtree
    /// `after` is well formed, of the same kind and height, holds what
    /// `before` held but for `key`, and `removed` is the value that `key` had.
    spec fn deleted(before: &Self, key: K, after: &Self, removed: Option<V>) -> bool {
        &&& after.wf()
        &&& after@ == before@.remove(key)
        &&& removed == (if before@.contains_key(key) {
            Some(before@[key])
        } else {
            None
        })
        &&& after.height() == before.height()
        &&& after.degree == before.degree
        &&& after.is_leaf == before.is_leaf
        &&& before.keys@.len() - 1 <= after.keys@.len() <= before.keys@.len()
        &&& !before.has(key) && before.spares_along(key) ==> after.same_structure(before)
    }

    /// A subtree is built like itself.
    proof fn lemma_same_structure_refl(&self)
        ensures
            self.same_structure(self),
        decreases self,
    {
        assert forall|i: int| 0 <= i < self.child_count() implies (#[trigger] self.child(
            i,
        )).same_structure(&self.child(i)) by {
            self.children@[i].lemma_same_structure_refl();
        }
    }

    /// The gap that holds `key` is the one that `slot` names.
    pub proof fn lemma_slot(&self, i: int, key: K)
        requires
            self.wf(),
            total_order::<K>(),
            0 <= i <= self.node_keys().len(),
            self.in_gap(i, key),
        ensures
            self.slot(key) == i,
    {
        lemma_total_order::<K>();
        let j = self.slot(key);
        if j < i {
            if j < i - 1 {
                assert(key_lt(self.keys@[j], self.keys@[i - 1]));
            }
        } else if i < j {
            if i < j - 1 {
                assert(key_lt(self.keys@[i], self.keys@[j - 1]));
            }
        }
    }

    /// With child `i` exchanged for one built like it, the node is built
    /// as it was.
    proof fn lemma_same_structure_child(&self, i: int, next: &Self)
        requires
            self.with_child(i, next),
            next.children@[i].same_structure(&*self.children@[i]),
        ensures
            next.same_structure(self),
    {
        assert forall|j: int| 0 <= j < next.child_count() implies (#[trigger] next.child(
            j,
        )).same_structure(&self.child(j)) by {
            if j != i {
                assert(next.children@[j] == self.children@[j]);
                self.children@[j].lemma_same_structure_refl();
            }
        }
    }

    /// Appends the keys, values and children of `node` to this node.
    fn merge_node(&mut self, node: Box<TreeNode<K, V>>)
        requires
            key_model::<K>(),
            node.wf(),
        ensures
            final(self).is_leaf == old(self).is_leaf,
            final(self).degree == old(self).degree,
            final(self).keys@ == old(self).keys@ + node.keys@,
            final(self).payload@ == old(self).payload@.union_prefer_right(node.payload@),
            final(self).children@ == old(self).children@ + node.children@,
    {
        let ghost before = *self;
        let inner = *node;
        let keys = inner.keys;
        let mut payload = inner.payload;
        let mut children = inner.children;
        proof {
            node.lemma_wf_local();
        }
        let mut i: usize = 0;
        while i < keys.len()
            invariant
                key_model::<K>(),
                0 <= i <= keys@.len(),
                keys@ == node.keys@,
                sorted(keys@),
                self.is_leaf == before.is_leaf,
                self.degree == before.degree,
                self.children == before.children,
                self.keys@ == before.keys@ + keys@.subrange(0, i as int),
                forall|x: K|
                    #![trigger payload@.contains_key(x)]
                    payload@.contains_key(x) <==> (node.payload@.contains_key(x) && !keys@.subrange(
                        0,
                        i as int,
                    ).contains(x)),
                forall|x: K| #[trigger] payload@.contains_key(x) ==> payload@[x] == node.payload@[x],
                forall|j: int| 0 <= j < keys@.len() ==> node.payload@.contains_key(#[trigger] keys@[j]),
                forall|x: K|
                    #![trigger self.payload@.contains_key(x)]
                    self.payload@.contains_key(x) <==> (before.payload@.contains_key(x)
                        || keys@.subrange(0, i as int).contains(x)),
                forall|x: K|
                    keys@.subrange(0, i as int).contains(x) ==> #[trigger] self.payload@[x]
                        == node.payload@[x],
                forall|x: K|
                    !keys@.subrange(0, i as int).contains(x) ==> #[trigger] self.payload@[x]
                        == before.payload@[x],
            decreases keys@.len() - i,
        {
            let k = keys[i];
            proof {
                if keys@.subrange(0, i as int).contains(k) {
                    let p = choose|p: int| 0 <= p < i && keys@.subrange(0, i as int)[p] == k;
                    crate::order::lemma_sorted_distinct(keys@, p, i as int);
                }
            }
            let v = payload.remove(&k).unwrap();
            self.keys.push(k);
            self.payload.insert(k, v);
            proof {
                let seen = keys@.subrange(0, i as int);
                let more = keys@.subrange(0, i + 1);
                assert(more =~= seen.push(k));
                assert forall|x: K| more.contains(x) <==> (seen.contains(x) || x == k) by {
                    if seen.contains(x) {
                        let p = choose|p: int| 0 <= p < seen.len() && seen[p] == x;
                        assert(more[p] == x);
                    }
                    if x == k {
                        assert(more[i as int] == x);
                    }
                }
                assert(self.keys@ =~= before.keys@ + more);
            }
            i += 1;
        }
        self.children.append(&mut children);
        proof {
            assert(keys@.subrange(0, i as int) =~= keys@);
            assert forall|x: K| node.payload@.contains_key(x) <==> keys@.contains(x) by {}
            assert(self.payload@ =~= before.payload@.union_prefer_right(node.payload@));
        }
    }

    /// Moves a key from the right neighbour of child `index` through the
    /// separator into that child, then deletes `key` below it.
    fn borrow_from_next_silbing(&mut self, key: K, index: usize) -> (removed: Option<V>)
        requires
            old(self).wf(),
            key_model::<K>(),
            index + 1 < old(self).children@.len(),
            old(self).children@[index + 1].keys@.len() >= old(self).degree,
            old(self).children@[index as int].keys@.len() < old(self).degree,
            old(self).in_gap(index as int, key),
            !old(self).payload@.contains_key(key),
        ensures
            Self::deleted(old(self), key, final(self), removed),
            final(self).keys@.len() == old(self).keys@.len(),
            exists|mid: Self| #[trigger]
                old(self).rotated_left(index as int, &mid) && Self::goes_on(
                    old(self),
                    &mid,
                    index as int,
                    key,
                    final(self),
                ),
        decreases old(self).height(), 0nat,
    {
        let ghost before = *self;
        proof {
            before.lemma_wf_local();
            before.children@[index + 1].lemma_wf_local();
            before.children@[index as int].lemma_wf_local();
            before.lemma_slot(index as int, key);
        }
        let move_up_key;
        let move_up_val;
        let move_down_child;
        {
            let next_sibling = &mut self.children[index + 1];
            move_up_key = next_sibling.keys.remove(0);
            move_up_val = next_sibling.payload.remove(&move_up_key).unwrap();
            move_down_child = if next_sibling.is_leaf {
                None
            } else {
                Some(next_sibling.children.remove(0))
            };
        }
        let move_down_key = self.keys.remove(index);
        proof {
            assert(before.keys@.contains(move_down_key));
        }
        let move_down_val = self.payload.remove(&move_down_key).unwrap();
        self.keys.insert(index, move_up_key);
        self.payload.insert(move_up_key, move_up_val);
        {
            let goto_child = &mut self.children[index];
            goto_child.keys.push(move_down_key);
            goto_child.payload.insert(move_down_key, move_down_val);
            match move_down_child {
                Some(child) => goto_child.children.push(child),
                None => {},
            }
        }
        let ghost mid = *self;
        proof {
            assert(mid.keys@ =~= before.keys@.update(index as int, move_up_key));
            before.lemma_rotated_left(index as int, &mid);
            assert(mid.in_gap(index as int, key));
        }
        let removed = self.children[index].delete_node(key);
        proof {
            mid.lemma_delete_below(index as int, &*self, key);
            assert(before.rotated_left(index as int, &mid));
            assert(mid.with_child(index as int, &*self));
            assert(mid.child(index as int).height() < before.height());
            assert(Self::goes_on(&before, &mid, index as int, key, &*self));
        }
        removed
    }

    /// Moves a key from the left neighbour of child `index` through the
    /// separator into that child, then deletes `key` below it.
    fn borrow_from_prev_silbing(&mut self, key: K, index: usize) -> (removed: Option<V>)
        requires
            old(self).wf(),
            key_model::<K>(),
            1 <= index < old(self).children@.len(),
            old(self).children@[index - 1].keys@.len() >= old(self).degree,
            old(self).children@[index as int].keys@.len() < old(self).degree,
            old(self).in_gap(index as int, key),
            !old(self).payload@.contains_key(key),
        ensures
            Self::deleted(old(self), key, final(self), removed),
            final(self).keys@.len() == old(self).keys@.len(),
            exists|mid: Self| #[trigger]
                old(self).rotated_right(index as int, &mid) && Self::goes_on(
                    old(self),
                    &mid,
                    index as int,
                    key,
                    final(self),
                ),
        decreases old(self).height(), 0nat,
    {
        let ghost before = *self;
        proof {
            before.lemma_wf_local();
            before.children@[index - 1].lemma_wf_local();
            before.children@[index as int].lemma_wf_local();
            before.lemma_slot(index as int, key);
        }
        let move_up_key;
        let move_up_val;
        let move_down_child;
        {
            let prev_sibling = &mut self.children[index - 1];
            move_up_key = prev_sibling.keys.pop().unwrap();
            move_up_val = prev_sibling.payload.remove(&move_up_key).unwrap();
            move_down_child = if prev_sibling.is_leaf {
                None
            } else {
                prev_sibling.children.pop()
            };
        }
        let move_down_key = self.keys.remove(index - 1);
        proof {
            assert(before.keys@.contains(move_down_key));
        }
        let move_down_val = self.payload.remove(&move_down_key).unwrap();
        self.keys.insert(index - 1, move_up_key);
        self.payload.insert(move_up_key, move_up_val);
        {
            let goto_child = &mut self.children[index];
            goto_child.keys.insert(0, move_down_key);
            goto_child.payload.insert(move_down_key, move_down_val);
            match move_down_child {
                Some(child) => goto_child.children.insert(0, child),
                None => {},
            }
        }
        let ghost mid = *self;
        proof {
            assert(mid.keys@ =~= before.keys@.update(index - 1, move_up_key));
            before.lemma_rotated_right(index as int, &mid);
            assert(mid.in_gap(index as int, key));
        }
        let removed = self.children[index].delete_node(key);
        proof {
            mid.lemma_delete_below(index as int, &*self, key);
            assert(before.rotated_right(index as int, &mid));
            assert(mid.with_child(index as int, &*self));
            assert(mid.child(index as int).height() < before.height());
            assert(Self::goes_on(&before, &mid, index as int, key, &*self));
        }
        removed
    }

    /// Merges child `index + 1` and the separator at `index` into child
    /// `index`, then deletes `key` below the merged child.
    fn merge_right_to_left(&mut self, key: K, index: usize) -> (removed: Option<V>)
        requires
            old(self).wf(),
            key_model::<K>(),
            !old(self).is_leaf,
            index < old(self).keys@.len(),
            old(self).children@[index as int].keys@.len() < old(self).degree,
            old(self).children@[index + 1].keys@.len() < old(self).degree,
            key == old(self).keys@[index as int] || (!old(self).payload@.contains_key(key) && (
            old(self).in_gap(index as int, key) || old(self).in_gap(index + 1, key))),
        ensures
            Self::deleted(old(self), key, final(self), removed),
            final(self).keys@.len() == old(self).keys@.len() - 1,
            exists|mid: Self| #[trigger]
                old(self).merged_at(index as int, &mid) && Self::goes_on(
                    old(self),
                    &mid,
                    index as int,
                    key,
                    final(self),
                ),
        decreases old(self).height(), 0nat,
    {
        let ghost before = *self;
        proof {
            before.lemma_wf_local();
            before.children@[index + 1].lemma_wf_local();
            before.children@[index as int].lemma_wf_local();
            if key != before.keys@[index as int] {
                if before.in_gap(index as int, key) {
                    before.lemma_slot(index as int, key);
                } else {
                    before.lemma_slot(index + 1, key);
                }
            } else {
                assert(before.keys@.contains(key));
            }
        }
        let move_down_key = self.keys.remove(index);
        proof {
            assert(before.keys@.contains(move_down_key));
        }
        let move_down_val = self.payload.remove(&move_down_key).unwrap();
        let right_child = self.children.remove(index + 1);
        {
            let left_child = &mut self.children[index];
            left_child.keys.push(move_down_key);
            left_child.payload.insert(move_down_key, move_down_val);
            left_child.merge_node(right_child);
        }
        let ghost mid = *self;
        proof {
            before.children@.remove_ensures(index + 1);
            before.lemma_merged_at(index as int, &mid);
            assert(mid.in_gap(index as int, key));
            assert(!mid.payload@.contains_key(key));
        }
        let removed = self.children[index].delete_node(key);
        proof {
            mid.lemma_delete_below(index as int, &*self, key);
            assert(before.merged_at(index as int, &mid));
            assert(mid.with_child(index as int, &*self));
            assert(mid.child(index as int).height() < before.height());
            assert(Self::goes_on(&before, &mid, index as int, key, &*self));
        }
        removed
    }

    /// Deletes `key` from the subtree and returns the value it had, making
    /// sure on the way down that every node entered can spare a key.
    fn delete_node(&mut self, key: K) -> (removed: Option<V>)
        requires
            old(self).wf(),
            key_model::<K>(),
            old(self).is_leaf || old(self).keys@.len() >= 1,
        ensures
            Self::deleted(old(self), key, final(self), removed),
            Self::deletion(old(self), key, final(self)),
        decreases old(self).height(), 1nat,
    {
        let ghost before = *self;
        proof {
            before.lemma_wf_local();
            before.lemma_view();
        }
        if self.is_leaf {
            match binary_search(&self.keys, &key) {
                Ok(index) => {
                    self.keys.remove(index);
                    let removed = self.payload.remove(&key);
                    proof {
                        lemma_sorted_remove(before.keys@, index as int);
                        self.lemma_view();
                        assert(self@ =~= before@.remove(key));
                        before.lemma_index_of(index as int);
                        assert(Self::deletion(&before, key, &*self));
                    }
                    return removed;
                },
                Err(_) => {
                    proof {
                        assert(self@ =~= before@.remove(key));
                        before.lemma_same_structure_refl();
                        assert(Self::deletion(&before, key, &*self));
                    }
                    return None;
                },
            }
        } else {
            match binary_search(&self.keys, &key) {
                Ok(index) => {
                    proof {
                        before.children@[index as int].lemma_wf_local();
                        before.children@[index + 1].lemma_wf_local();
                        assert(before.keys@.contains(key));
                        before.lemma_index_of(index as int);
                    }
                    let left_child_meet_degree = self.children[index].meet_degree();
                    let right_child_meet_degree = self.children[index + 1].meet_degree();
                    if left_child_meet_degree {
                        let pred_key = self.find_predecessor_of(index);
                        proof {
                            let c = before.children@[index as int];
                            c.lemma_max_key();
                            c.lemma_view();
                            assert(before.children@[index as int].has(pred_key));
                            lemma_total_order::<K>();
                        }
                        let pred_val = self.children[index].delete_node(pred_key).unwrap();
                        self.keys.set(index, pred_key);
                        self.payload.insert(pred_key, pred_val);
                        let removed = self.payload.remove(&key);
                        proof {
                            before.lemma_replace_with_pred(index as int, pred_val, &*self);
                            assert(before.separator_replaced(
                                index as int,
                                index as int,
                                pred_key,
                                pred_val,
                                &*self,
                            ));
                            assert(before.child(index as int)@[pred_key] == pred_val);
                            assert(Self::deletion(
                                &before.child(index as int),
                                pred_key,
                                &self.child(index as int),
                            ));
                            assert(Self::deletion(&before, key, &*self));
                        }
                        return removed;
                    } else if right_child_meet_degree {
                        let succ_key = self.find_successor_of(index);
                        proof {
                            let c = before.children@[index + 1];
                            c.lemma_min_key();
                            c.lemma_view();
                            assert(before.children@[index + 1].has(succ_key));
                            lemma_total_order::<K>();
                        }
                        let succ_val = self.children[index + 1].delete_node(succ_key).unwrap();
                        self.keys.set(index, succ_key);
                        self.payload.insert(succ_key, succ_val);
                        let removed = self.payload.remove(&key);
                        proof {
                            before.lemma_replace_with_succ(index as int, succ_val, &*self);
                            assert(before.separator_replaced(
                                index as int,
                                index + 1,
                                succ_key,
                                succ_val,
                                &*self,
                            ));
                            assert(before.child(index + 1)@[succ_key] == succ_val);
                            assert(Self::deletion(
                                &before.child(index + 1),
                                succ_key,
                                &self.child(index + 1),
                            ));
                            assert(Self::deletion(&before, key, &*self));
                        }
                        return removed;
                    } else {
                        let removed = self.merge_right_to_left(key, index);
                        proof {
                            assert(Self::deletion(&before, key, &*self));
                        }
                        return removed;
                    }
                },
                Err(index) => {
                    proof {
                        assert(before.in_gap(index as int, key));
                        before.children@[index as int].lemma_wf_local();
                        before.lemma_slot(index as int, key);
                        if index > 0 {
                            before.children@[index - 1].lemma_wf_local();
                        }
                        if index < before.keys@.len() {
                            before.children@[index + 1].lemma_wf_local();
                        }
                    }
                    if self.children[index].meet_degree() {
                        let removed = self.children[index].delete_node(key);
                        proof {
                            before.lemma_delete_below(index as int, &*self, key);
                            before.lemma_slot(index as int, key);
                            if !before.has(key) && before.spares_along(key) {
                                assert(!before.children@[index as int].has(key));
                                before.lemma_same_structure_child(index as int, &*self);
                            }
                            assert(before.with_child(index as int, &*self));
                            assert(Self::deletion(
                                &before.child(index as int),
                                key,
                                &self.child(index as int),
                            ));
                            assert(Self::deletion(&before, key, &*self));
                        }
                        return removed;
                    } else {
                        if index == 0 {
                            if self.children[1].meet_degree() {
                                let removed = self.borrow_from_next_silbing(key, index);
                                proof {
                                    assert(Self::deletion(&before, key, &*self));
                                }
                                return removed;
                            } else {
                                let removed = self.merge_right_to_left(key, index);
                                proof {
                                    assert(Self::deletion(&before, key, &*self));
                                }
                                return removed;
                            }
                        } else if index == self.keys.len() {
                            let prev_sibling_meet_degree = self.children[self.keys.len()
                                - 1].meet_degree();
                            if prev_sibling_meet_degree {
                                let removed = self.borrow_from_prev_silbing(key, index);
                                proof {
                                    assert(Self::deletion(&before, key, &*self));
                                }
                                return removed;
                            } else {
                                let removed = self.merge_right_to_left(key, index - 1);
                                proof {
                                    assert(Self::deletion(&before, key, &*self));
                                }
                                return removed;
                            }
                        } else {
                            let prev_sibling_meet_degree = self.children[index - 1].meet_degree();
                            let next_sibling_meet_degree = self.children[index + 1].meet_degree();
                            if prev_sibling_meet_degree {
                                let removed = self.borrow_from_prev_silbing(key, index);
                                proof {
                                    assert(Self::deletion(&before, key, &*self));
                                }
                                return removed;
                            } else if next_sibling_meet_degree {
                                let removed = self.borrow_from_next_silbing(key, index);
                                proof {
                                    assert(Self::deletion(&before, key, &*self));
                                }
                                return removed;
                            } else {
                                let removed = self.merge_right_to_left(key, index);
                                proof {
                                    assert(Self::deletion(&before, key, &*self));
                                }
                                return removed;
                            }
                        }
                    }
                },
            }
        }
    }
}


impl<K: Eq + Hash + Ord + Copy, V> View for BTree<K, V> {
    type V = Map<K, V>;

    /// The tree as the map from its keys to their values.
    closed spec fn view(&self) -> Map<K, V> {
        self.root@
    }
}

impl<K: Eq + Hash + Ord + Copy, V> TreeNode<K, V> {
    /// A node without keys over a single child holds what that child holds.
    proof fn lemma_only_child(&self)
        requires
            self.wf(),
            total_order::<K>(),
            !self.is_leaf,
            self.keys@.len() == 0,
        ensures
            self@ == self.children@[0]@,
            self.children@[0].wf(),
            self.children@[0].degree == self.degree,
            self.children@[0].height() + 1 == self.height(),
            self.children@[0].is_leaf || self.children@[0].keys@.len() >= 1,
    {
        let c = self.children@[0];
        assert forall|k: K| self.has(k) <==> c.has(k) by {
            if c.has(k) {
                assert(self.children@[0].has(k));
            }
        }
        assert forall|k: K| c.has(k) implies self.val(k) == c.val(k) by {
            self.lemma_child_owns(0, k);
        }
        self.lemma_view();
        c.lemma_view();
        assert(self@ =~= c@);
    }
}

impl<K: Eq + Hash + Ord + Copy, V> BTree<K, V> {
    /// The invariant of the tree: the key type is fit for it, the root is a
    /// well-formed subtree of the tree's minimum degree, and a root that is
    /// not a leaf holds at least one key.
    pub closed spec fn wf(&self) -> bool {
        &&& key_model::<K>()
        &&& self.root.wf()
        &&& self.root.degree == self.degree
        &&& self.root.is_leaf || self.root.keys@.len() >= 1
    }

    /// The minimum degree the tree was made with.
    pub closed spec fn spec_degree(&self) -> int {
        self.degree as int
    }

    /// Number of edges from the root down to the leaves.
    pub closed spec fn height(&self) -> nat {
        self.root.height()
    }

    /// The root of the tree.
    pub closed spec fn root_node(&self) -> TreeNode<K, V> {
        self.root
    }

    /// `after` is what inserting `key` with `value` makes of the tree
    /// `before`, which does not hold `key`.
    ///
    /// If the root is full, a new root without keys is put over it, the old
    /// root is split as the only child of the new one, and the insertion
    /// goes on with the half on the key's side of the key lifted.  Else the
    /// insertion goes on with the root.
    pub open spec fn insertion(before: &Self, key: K, value: V, after: &Self) -> bool {
        let root = before.root_node();
        &&& after.spec_degree() == before.spec_degree()
        &&& if root.key_count() >= 2 * before.spec_degree() - 1 {
            exists|grown: TreeNode<K, V>, mid: TreeNode<K, V>|
                {
                    let j = if key_lt(mid.node_keys()[0], key) {
                        1int
                    } else {
                        0int
                    };
                    &&& !grown.leaf()
                    &&& grown.spec_degree() == before.spec_degree()
                    &&& grown.node_keys() == Seq::<K>::empty()
                    &&& grown.node_values() == Map::<K, V>::empty()
                    &&& grown.node_children() == seq![Box::new(root)]
                    &&& #[trigger] grown.split_at(0, &mid)
                    &&& mid.with_child(j, &after.root_node())
                    &&& TreeNode::insertion(
                        &mid.child(j),
                        key,
                        value,
                        &after.root_node().child(j),
                    )
                }
        } else {
            TreeNode::insertion(&root, key, value, &after.root_node())
        }
    }

    /// `after` is what deleting `key` makes of the tree `before`: the
    /// deletion is done on the root, and a root that is left without keys
    /// over a single child gives way to that child.
    pub open spec fn deletion(before: &Self, key: K, after: &Self) -> bool {
        &&& after.spec_degree() == before.spec_degree()
        &&& exists|mid: TreeNode<K, V>|
            {
                &&& #[trigger] TreeNode::deletion(&before.root_node(), key, &mid)
                &&& if !mid.leaf() && mid.key_count() == 0 {
                    &&& after.root_node() == mid.child(0)
                    &&& after.height() + 1 == before.height()
                } else {
                    &&& after.root_node() == mid
                    &&& after.height() == before.height()
                }
            }
    }

    /// An empty tree of minimum degree `degree`: a single leaf without keys.
    pub fn new(degree: usize) -> (tree: BTree<K, V>)
        requires
            2 <= degree <= usize::MAX / 2,
            key_model::<K>(),
        ensures
            tree.wf(),
            tree@ == Map::<K, V>::empty(),
            tree.spec_degree() == degree,
            tree.height() == 0,
            tree.root_node().leaf(),
            tree.root_node().key_count() == 0,
            tree.root_node().blank(),
    {
        let root = TreeNode::new(true, degree);
        BTree { root, degree }
    }

    /// The value stored for `target`, if the tree holds that key.
    pub fn search(&self, target: &K) -> (found: Option<&V>)
        requires
            self.wf(),
        ensures
            found == (if self@.contains_key(*target) {
                Some(&self@[*target])
            } else {
                None
            }),
            stored(self@, *target) == (match found {
                Some(value) => Some(*value),
                None => None,
            }),
    {
        self.root.search(target)
    }

    /// Stores `value` under `key` unless the tree already holds `key`, in
    /// which case nothing changes and the value stored stays.
    pub fn insert(&mut self, key: K, value: V)
        requires
            old(self).wf(),
        ensures
            final(self).wf(),
            final(self)@ == put_if_absent(old(self)@, key, value),
            old(self)@.contains_key(key) ==> *final(self) == *old(self),
            !old(self)@.contains_key(key) ==> Self::insertion(old(self), key, value, final(self)),
            final(self).spec_degree() == old(self).spec_degree(),
            final(self).height() == old(self).height() + (if !old(self)@.contains_key(key) && old(
                self,
            ).root_node().key_count() == 2 * old(self).spec_degree() - 1 {
                1nat
            } else {
                0nat
            }),
    {
        if self.search(&key).is_some() {
            return ;
        }
        proof {
            self.root.lemma_view();
            self.root.lemma_wf_local();
        }
        if self.root.is_full_node() {
            let mut old_root = TreeNode::new(false, self.degree);
            core::mem::swap(&mut self.root, &mut old_root);
            let ghost full = old_root;
            self.root.children.insert(0, Box::new(old_root));
            let ghost grown = self.root;
            proof {
                assert(grown.children@[0] == full);
                assert(grown.wf()) by {
                    assert forall|j: int, k: K|
                        0 <= j < grown.children@.len() && #[trigger] grown.children@[j].has(
                            k,
                        ) implies {
                        &&& j > 0 ==> key_lt(grown.keys@[j - 1], k)
                        &&& j < grown.keys@.len() ==> key_lt(k, grown.keys@[j])
                    } by {}
                }
                grown.lemma_only_child();
                full.lemma_view();
            }
            self.root.split_child(0);
            let ghost split = self.root;
            proof {
                split.lemma_view();
                split.lemma_wf_local();
                grown.keys@.insert_ensures(0, split.keys@[0]);
                assert(split.has(split.keys@[0]));
            }
            let mut index: usize = 0;
            if less(&self.root.keys[0], &key) {
                index = 1;
            }
            proof {
                assert(split.in_gap(index as int, key)) by {
                    lemma_total_order::<K>();
                }
                assert(!split.children@[index as int].has(key));
                split.children@[index as int].lemma_wf_local();
            }
            self.root.children[index].insert_non_full(key, value);
            proof {
                split.lemma_insert_below(index as int, &self.root, key, value);
                self.root.lemma_view();
                assert(self.root@ =~= full@.insert(key, value));
                assert(grown.node_keys() =~= Seq::<K>::empty());
                assert(grown.node_children() =~= seq![Box::new(full)]);
                assert(grown.split_at(0, &split));
                assert(split.with_child(index as int, &self.root));
                assert(TreeNode::insertion(
                    &split.child(index as int),
                    key,
                    value,
                    &self.root.child(index as int),
                ));
                assert(Self::insertion(old(self), key, value, &*self));
            }
        } else {
            self.root.insert_non_full(key, value);
        }
    }

    /// Removes `key` and returns the value it had; `None`, with the map
    /// unchanged, if the tree does not hold `key`.
    pub fn delete(&mut self, key: K) -> (removed: Option<V>)
        requires
            old(self).wf(),
        ensures
            final(self).wf(),
            final(self)@ == old(self)@.remove(key),
            removed == stored(old(self)@, key),
            !old(self)@.contains_key(key) && old(self).spares_along(key)
                ==> final(self).same_structure(old(self)),
            final(self).spec_degree() == old(self).spec_degree(),
            final(self).height() <= old(self).height(),
            Self::deletion(old(self), key, final(self)),
    {
        proof {
            self.root.lemma_view();
        }
        let result = self.root.delete_node(key);
        let ghost mid = self.root;
        if !self.root.is_leaf && self.root.keys.is_empty() {
            proof {
                self.root.lemma_only_child();
                self.root.lemma_wf_local();
            }
            let mut empty_root = TreeNode::new(true, self.degree);
            core::mem::swap(&mut self.root, &mut empty_root);
            let new_root = empty_root.children.pop().unwrap();
            self.root = *new_root;
            proof {
                assert(mid.children@.len() == 1);
                assert(self.root == mid.child(0));
                assert(self.root.height() + 1 == mid.height());
            }
        }
        proof {
            assert(mid.height() == old(self).root.height());
            assert(TreeNode::deletion(&old(self).root_node(), key, &mid));
            assert(Self::deletion(old(self), key, &*self));
        }
        result
    }
}


/// The keys of an in-order walk, without their depths.
pub open spec fn walk_keys<K>(walk: Seq<(K, u8)>) -> Seq<K> {
    walk.map_values(|step: (K, u8)| step.0)
}

impl<K: Eq + Hash + Ord + Copy, V> TreeNode<K, V> {
    /// The in-order walk of the subtree with this node at depth `level`: a
    /// leaf gives its keys; an inner node gives, for each key in turn, the
    /// walk of the child before it and then the key, and at last the walk of
    /// its last child.  Every key comes with the depth of the node holding it.
    pub open spec fn walk(&self, level: u8) -> Seq<(K, u8)>
        decreases self, 1nat, 0nat,
    {
        if self.leaf() {
            Seq::new(self.key_count(), |i: int| (self.node_keys()[i], level))
        } else if self.key_count() < self.child_count() {
            self.walk_upto(level, self.key_count()) + self.child(self.key_count() as int).walk(
                (level + 1) as u8,
            )
        } else {
            self.walk_upto(level, self.key_count())
        }
    }

    /// The part of the walk of an inner node that ends with its `n`-th key.
    pub open spec fn walk_upto(&self, level: u8, n: nat) -> Seq<(K, u8)>
        decreases self, 0nat, n,
    {
        if n == 0 || n > self.child_count() || n > self.key_count() {
            Seq::empty()
        } else {
            self.walk_upto(level, (n - 1) as nat) + self.child(n - 1).walk((level + 1) as u8)
                + seq![(self.node_keys()[n - 1], level)]
        }
    }

    /// The walk of a well-formed subtree is strictly ascending and visits
    /// exactly the keys that the subtree holds.
    proof fn lemma_walk(&self, level: u8)
        requires
            self.wf(),
            total_order::<K>(),
        ensures
            sorted(walk_keys(self.walk(level))),
            forall|k: K| #[trigger] walk_keys(self.walk(level)).contains(k) <==> self.has(k),
        decreases self, 1nat, 0nat,
    {
        lemma_total_order::<K>();
        self.lemma_wf_local();
        let w = walk_keys(self.walk(level));
        if self.is_leaf {
            assert(w =~= self.keys@);
        } else {
            let n = self.keys@.len();
            let a = self.walk_upto(level, n);
            let c = self.children@[n as int];
            let b = c.walk((level + 1) as u8);
            self.lemma_walk_upto(level, n);
            c.lemma_walk((level + 1) as u8);
            assert(w =~= walk_keys(a) + walk_keys(b));
            assert forall|i: int, j: int|
                0 <= i < walk_keys(a).len() && 0 <= j < walk_keys(b).len() implies key_lt(
                #[trigger] walk_keys(a)[i],
                #[trigger] walk_keys(b)[j],
            ) by {
                let x = walk_keys(a)[i];
                let y = walk_keys(b)[j];
                assert(walk_keys(a).contains(x));
                assert(walk_keys(b).contains(y));
                assert(self.children@[n as int].has(y));
            }
            lemma_sorted_concat(walk_keys(a), walk_keys(b));
            assert forall|k: K| #[trigger] w.contains(k) <==> self.has(k) by {
                if w.contains(k) {
                    let p = choose|p: int| 0 <= p < w.len() && w[p] == k;
                    if p < walk_keys(a).len() {
                        assert(walk_keys(a)[p] == k);
                        assert(walk_keys(a).contains(k));
                        let j = choose|j: int|
                            0 <= j < n && (self.keys@[j] == k || self.children@[j].has(k));
                        if self.keys@[j] == k {
                        } else {
                            assert(self.children@[j].has(k));
                        }
                    } else {
                        assert(walk_keys(b)[p - walk_keys(a).len()] == k);
                        assert(walk_keys(b).contains(k));
                        assert(self.children@[n as int].has(k));
                    }
                }
                if self.has(k) {
                    if self.payload@.contains_key(k) {
                        let j = choose|j: int| 0 <= j < self.keys@.len() && self.keys@[j] == k;
                        assert(walk_keys(a).contains(k));
                        let p = choose|p: int| 0 <= p < walk_keys(a).len() && walk_keys(a)[p] == k;
                        assert(w[p] == k);
                    } else {
                        let j = choose|j: int|
                            0 <= j < self.children@.len() && (#[trigger] self.children@[j]).has(k);
                        if j < n {
                            assert(walk_keys(a).contains(k));
                            let p = choose|p: int|
                                0 <= p < walk_keys(a).len() && walk_keys(a)[p] == k;
                            assert(w[p] == k);
                        } else {
                            assert(walk_keys(b).contains(k));
                            let p = choose|p: int|
                                0 <= p < walk_keys(b).len() && walk_keys(b)[p] == k;
                            assert(w[p + walk_keys(a).len()] == k);
                        }
                    }
                }
            }
        }
    }

    /// The walk up to the `n`-th key is strictly ascending, visits exactly
    /// the first `n` keys and what the first `n` children hold, and stays
    /// at or below the `n`-th key.
    proof fn lemma_walk_upto(&self, level: u8, n: nat)
        requires
            self.wf(),
            total_order::<K>(),
            !self.is_leaf,
            n <= self.keys@.len(),
        ensures
            sorted(walk_keys(self.walk_upto(level, n))),
            forall|k: K| #[trigger]
                walk_keys(self.walk_upto(level, n)).contains(k) <==> (exists|j: int|
                    0 <= j < n && (self.keys@[j] == k || self.children@[j].has(k))),
            forall|k: K| #[trigger]
                walk_keys(self.walk_upto(level, n)).contains(k) ==> n > 0 && (k == self.keys@[n
                    - 1] || key_lt(k, self.keys@[n - 1])),
        decreases self, 0nat, n,
    {
        lemma_total_order::<K>();
        self.lemma_wf_local();
        let w = walk_keys(self.walk_upto(level, n));
        if n == 0 {
            assert(w =~= Seq::<K>::empty());
        } else {
            let a = walk_keys(self.walk_upto(level, (n - 1) as nat));
            let c = self.children@[n - 1];
            let b = walk_keys(c.walk((level + 1) as u8));
            let last = self.keys@[n - 1];
            self.lemma_walk_upto(level, (n - 1) as nat);
            c.lemma_walk((level + 1) as u8);
            assert(w =~= (a + b).push(last));
            assert forall|i: int, j: int| 0 <= i < a.len() && 0 <= j < b.len() implies key_lt(
                #[trigger] a[i],
                #[trigger] b[j],
            ) by {
                assert(a.contains(a[i]));
                assert(b.contains(b[j]));
                assert(self.children@[n - 1].has(b[j]));
            }
            lemma_sorted_concat(a, b);
            assert forall|i: int| 0 <= i < (a + b).len() implies key_lt(#[trigger] (a + b)[i], last) by {
                if i < a.len() {
                    assert(a.contains(a[i]));
                    assert(key_lt(self.keys@[n - 2], self.keys@[n - 1]));
                } else {
                    assert(b.contains(b[i - a.len()]));
                    assert(self.children@[n - 1].has(b[i - a.len()]));
                }
            }
            assert(sorted(w)) by {
                assert forall|x: int, y: int| 0 <= x < y < w.len() implies key_lt(
                    #[trigger] w[x],
                    #[trigger] w[y],
                ) by {
                    if y < (a + b).len() {
                        assert(w[x] == (a + b)[x] && w[y] == (a + b)[y]);
                    } else {
                        assert(w[x] == (a + b)[x]);
                    }
                }
            }
            assert forall|k: K| #[trigger] w.contains(k) <==> (exists|j: int|
                0 <= j < n && (self.keys@[j] == k || self.children@[j].has(k))) by {
                if w.contains(k) {
                    let p = choose|p: int| 0 <= p < w.len() && w[p] == k;
                    if p < a.len() {
                        assert(a[p] == k);
                        assert(a.contains(k));
                        let j = choose|j: int|
                            0 <= j < n - 1 && (self.keys@[j] == k || self.children@[j].has(k));
                        assert(0 <= j < n && (self.keys@[j] == k || self.children@[j].has(k)));
                    } else if p < a.len() + b.len() {
                        assert(b[p - a.len()] == k);
                        assert(b.contains(k));
                        assert(self.keys@[n - 1] == k || self.children@[n - 1].has(k));
                    } else {
                        assert(self.keys@[n - 1] == k || self.children@[n - 1].has(k));
                    }
                }
                if exists|j: int| 0 <= j < n && (self.keys@[j] == k || self.children@[j].has(k)) {
                    let j = choose|j: int|
                        0 <= j < n && (self.keys@[j] == k || self.children@[j].has(k));
                    if j < n - 1 {
                        assert(a.contains(k));
                        let p = choose|p: int| 0 <= p < a.len() && a[p] == k;
                        assert(w[p] == k);
                    } else if self.keys@[j] == k {
                        assert(w[(a.len() + b.len()) as int] == k);
                    } else {
                        assert(b.contains(k));
                        let p = choose|p: int| 0 <= p < b.len() && b[p] == k;
                        assert(w[p + a.len()] == k);
                    }
                }
            }
            assert forall|k: K| #[trigger] w.contains(k) implies (k == last || key_lt(k, last)) by {
                let p = choose|p: int| 0 <= p < w.len() && w[p] == k;
                if p < (a + b).len() {
                    assert(w[p] == (a + b)[p]);
                }
            }
        }
    }

    /// Appends the in-order walk of the subtree to `out`, this node being at
    /// depth `level`.
    pub fn traverse(&self, level: u8, out: &mut Vec<(K, u8)>)
        requires
            self.wf(),
            level + self.height() <= u8::MAX,
        ensures
            final(out)@ == old(out)@ + self.walk(level),
        decreases self,
    {
        let ghost start = out@;
        proof {
            self.lemma_wf_local();
        }
        if self.is_leaf {
            let mut i: usize = 0;
            while i < self.keys.len()
                invariant
                    0 <= i <= self.keys@.len(),
                    out@ == start + Seq::new(i as nat, |j: int| (self.keys@[j], level)),
                decreases self.keys@.len() - i,
            {
                out.push((self.keys[i], level));
                i += 1;
                proof {
                    assert(out@ =~= start + Seq::new(i as nat, |j: int| (self.keys@[j], level)));
                }
            }
        } else {
            let mut i: usize = 0;
            proof {
                assert(out@ =~= start + self.walk_upto(level, 0));
            }
            while i < self.keys.len()
                invariant
                    self.wf(),
                    !self.is_leaf,
                    level + self.height() <= u8::MAX,
                    self.children@.len() == self.keys@.len() + 1,
                    0 <= i <= self.keys@.len(),
                    out@ == start + self.walk_upto(level, i as nat),
                decreases self.keys@.len() - i,
            {
                self.children[i].traverse(level + 1, out);
                out.push((self.keys[i], level));
                i += 1;
                proof {
                    assert(out@ =~= start + self.walk_upto(level, i as nat));
                }
            }
            self.children[self.keys.len()].traverse(level + 1, out);
            proof {
                assert(out@ =~= start + self.walk(level));
            }
        }
    }
}

impl<K: Eq + Hash + Ord + Copy, V> BTree<K, V> {
    /// The in-order walk of the whole tree: every key with the depth of the
    /// node that holds it, the root being at depth 0.
    pub open spec fn inorder(&self) -> Seq<(K, u8)> {
        self.root_node().walk(0)
    }

    /// The in-order walk of the tree: its keys in strictly ascending order,
    /// each with the depth of the node that holds it.
    pub fn traverse(&self) -> (walk: Vec<(K, u8)>)
        requires
            self.wf(),
            self.height() <= u8::MAX,
        ensures
            walk@ == self.inorder(),
            sorted(walk_keys(walk@)),
            forall|k: K| #[trigger] walk_keys(walk@).contains(k) <==> self@.contains_key(k),
    {
        let mut walk: Vec<(K, u8)> = Vec::new();
        self.root.traverse(0, &mut walk);
        proof {
            self.root.lemma_walk(0);
            self.root.lemma_view();
            assert(walk@ =~= self.root.walk(0));
        }
        walk
    }
}


impl<K: Eq + Hash + Ord + Copy, V> TreeNode<K, V> {
    /// A well-formed subtree has the shape that `shaped` describes.
    proof fn lemma_wf_shaped(&self, is_root: bool)
        requires
            self.wf(),
            is_root || self.keys@.len() >= self.degree - 1,
        ensures
            self.shaped(is_root),
        decreases self,
    {
        assert forall|i: int| 0 <= i < self.child_count() implies {
            &&& (#[trigger] self.child(i)).shaped(false)
            &&& self.child(i).spec_degree() == self.spec_degree()
            &&& self.child(i).height() + 1 == self.height()
        } by {
            self.children@[i].lemma_wf_shaped(false);
        }
    }

    /// Checks the shape of the subtree and gives its height if the shape
    /// is right: the bounds on the number of keys, the number of children,
    /// and that all leaves are at one depth.
    pub fn check_shape(&self, is_root: bool) -> (height: Option<usize>)
        ensures
            height.is_some() <==> (self.shaped(is_root) && self.height() <= usize::MAX),
            height matches Some(h) ==> h == self.height(),
        decreases self,
    {
        let n: u128 = self.keys.len() as u128;
        let t: u128 = self.degree as u128;
        if n + 1 > 2 * t {
            return None;
        }
        if !is_root && n + 1 < t {
            return None;
        }
        if self.is_leaf {
            if self.children.len() != 0 {
                return None;
            }
            return Some(0);
        }
        if self.children.len() as u128 != n + 1 {
            return None;
        }
        let below = match self.children[0].check_shape(false) {
            Some(h) => h,
            None => {
                proof {
                    assert(self.child(0) == *self.children@[0]);
                }
                return None;
            },
        };
        if below == usize::MAX {
            return None;
        }
        let mut i: usize = 0;
        while i < self.children.len()
            invariant
                0 <= i <= self.children@.len(),
                below == self.children@[0].height(),
                below + 1 == self.height(),
                forall|j: int|
                    0 <= j < i ==> {
                        &&& (#[trigger] self.child(j)).shaped(false)
                        &&& self.child(j).spec_degree() == self.spec_degree()
                        &&& self.child(j).height() + 1 == self.height()
                    },
            decreases self.children@.len() - i,
        {
            let ok = match self.children[i].check_shape(false) {
                Some(h) => h == below && self.children[i].degree == self.degree,
                None => false,
            };
            if !ok {
                proof {
                    assert(self.child(i as int) == *self.children@[i as int]);
                }
                return None;
            }
            proof {
                assert(self.child(i as int) == *self.children@[i as int]);
            }
            i += 1;
        }
        Some(below + 1)
    }
}

impl<K: Eq + Hash + Ord + Copy, V> BTree<K, V> {
    /// The shape that every insertion and deletion keeps: the minimum
    /// degree is at least 2 and is that of the root; the nodes are `shaped`,
    /// the root being free of the lower bound on keys; and a root that is
    /// not a leaf holds at least one key.
    pub open spec fn shaped(&self) -> bool {
        &&& self.spec_degree() >= 2
        &&& self.root_node().spec_degree() == self.spec_degree()
        &&& self.root_node().shaped(true)
        &&& self.root_node().leaf() || self.root_node().key_count() >= 1
    }

    /// Both trees are built alike, node for node.
    pub open spec fn same_structure(&self, other: &Self) -> bool {
        &&& self.spec_degree() == other.spec_degree()
        &&& self.root_node().same_structure(&other.root_node())
    }

    /// Every node below the root that a search for `key` enters holds at
    /// least `t` keys.
    pub open spec fn spares_along(&self, key: K) -> bool {
        self.root_node().spares_along(key)
    }

    /// The tree is a single leaf without keys.
    pub open spec fn is_empty_leaf(&self) -> bool {
        self.root_node().leaf() && self.root_node().key_count() == 0
    }

    /// A well-formed tree has the shape that the validator checks.
    pub proof fn lemma_wf_shaped(&self)
        requires
            self.wf(),
        ensures
            self.shaped(),
    {
        self.root.lemma_wf_shaped(true);
    }

    /// A well-formed tree holds no key exactly if it is a single empty leaf.
    pub proof fn lemma_empty_is_leaf(&self)
        requires
            self.wf(),
        ensures
            self@ == Map::<K, V>::empty() <==> self.is_empty_leaf(),
    {
        self.root.lemma_wf_local();
        self.root.lemma_view();
        if self.is_empty_leaf() {
            assert(self@ =~= Map::<K, V>::empty());
        }
        if self.root.keys@.len() > 0 {
            assert(self.root.has(self.root.keys@[0]));
            assert(self@.contains_key(self.root.keys@[0]));
        }
    }

    /// The number of edges from the root down to the leaves.
    pub fn depth(&self) -> (depth: usize)
        requires
            self.wf(),
            self.height() <= usize::MAX,
        ensures
            depth == self.height(),
    {
        let mut node: &TreeNode<K, V> = &self.root;
        let mut depth: usize = 0;
        while !node.is_leaf
            invariant
                node.wf(),
                depth + node.height() == self.root.height(),
                self.root.height() <= usize::MAX,
            decreases node.height(),
        {
            proof {
                node.lemma_wf_local();
            }
            node = &node.children[0];
            depth += 1;
        }
        proof {
            node.lemma_wf_local();
        }
        depth
    }

    /// The full-tree validator: whether the tree has the shape that
    /// `shaped` describes (and a height that fits the machine's integers).
    pub fn validate(&self) -> (ok: bool)
        ensures
            ok <==> (self.shaped() && self.height() <= usize::MAX),
    {
        if self.degree < 2 || self.root.degree != self.degree {
            return false;
        }
        if !self.root.is_leaf && self.root.keys.len() == 0 {
            return false;
        }
        self.root.check_shape(true).is_some()
    }
}

/// Inserting pairs with distinct keys into an empty tree stores each pair's
/// value under its key, and stores nothing under any other key.
pub proof fn law_inserted_pairs_are_found<K, V>(pairs: Seq<(K, V)>)
    requires
        forall|i: int, j: int| 0 <= i < j < pairs.len() ==> pairs[i].0 != pairs[j].0,
    ensures
        forall|i: int|
            0 <= i < pairs.len() ==> stored(put_all(Map::empty(), pairs), #[trigger] pairs[i].0)
                == Some(pairs[i].1),
        forall|k: K|
            (forall|i: int| 0 <= i < pairs.len() ==> pairs[i].0 != k) ==> stored(
                #[trigger] put_all(Map::<K, V>::empty(), pairs),
                k,
            ) == None::<V>,
    decreases pairs.len(),
{
    lemma_put_all_dom(Map::<K, V>::empty(), pairs);
    if pairs.len() > 0 {
        let front = pairs.drop_last();
        law_inserted_pairs_are_found(front);
        lemma_put_all_dom(Map::<K, V>::empty(), front);
        assert forall|i: int| 0 <= i < pairs.len() implies stored(
            put_all(Map::empty(), pairs),
            #[trigger] pairs[i].0,
        ) == Some(pairs[i].1) by {
            if i < pairs.len() - 1 {
                assert(front[i] == pairs[i]);
            } else {
                if put_all(Map::<K, V>::empty(), front).contains_key(pairs[i].0) {
                    let j = choose|j: int| 0 <= j < front.len() && front[j].0 == pairs[i].0;
                    assert(front[j] == pairs[j]);
                }
            }
        }
    }
}

/// `put_all` holds what the map held and the keys of the pairs.
pub proof fn lemma_put_all_dom<K, V>(m: Map<K, V>, pairs: Seq<(K, V)>)
    ensures
        forall|k: K| #[trigger]
            put_all(m, pairs).contains_key(k) <==> (m.contains_key(k) || exists|i: int|
                0 <= i < pairs.len() && pairs[i].0 == k),
    decreases pairs.len(),
{
    if pairs.len() > 0 {
        let front = pairs.drop_last();
        lemma_put_all_dom(m, front);
        assert forall|k: K| #[trigger]
            put_all(m, pairs).contains_key(k) <==> (m.contains_key(k) || exists|i: int|
                0 <= i < pairs.len() && pairs[i].0 == k) by {
            if put_all(m, front).contains_key(k) && !m.contains_key(k) {
                let i = choose|i: int| 0 <= i < front.len() && front[i].0 == k;
                assert(pairs[i].0 == k);
            }
            if exists|i: int| 0 <= i < pairs.len() && pairs[i].0 == k {
                let i = choose|i: int| 0 <= i < pairs.len() && pairs[i].0 == k;
                if i < pairs.len() - 1 {
                    assert(front[i].0 == k);
                }
            }
            if k == pairs.last().0 {
                assert(pairs[pairs.len() - 1].0 == k);
            }
        }
    }
}

/// `remove_all` holds what the map held but for the keys removed.
pub proof fn lemma_remove_all_dom<K, V>(m: Map<K, V>, keys: Seq<K>)
    ensures
        forall|k: K| #[trigger]
            remove_all(m, keys).contains_key(k) <==> (m.contains_key(k) && !keys.contains(k)),
        forall|k: K| #[trigger]
            remove_all(m, keys).contains_key(k) ==> remove_all(m, keys)[k] == m[k],
    decreases keys.len(),
{
    if keys.len() > 0 {
        let front = keys.drop_last();
        let last = keys.last();
        let rest = remove_all(m, front);
        lemma_remove_all_dom(m, front);
        assert(remove_all(m, keys) == rest.remove(last));
        assert forall|k: K| keys.contains(k) <==> (front.contains(k) || k == last) by {
            if front.contains(k) {
                let i = choose|i: int| 0 <= i < front.len() && front[i] == k;
                assert(keys[i] == k);
            }
            if keys.contains(k) {
                let i = choose|i: int| 0 <= i < keys.len() && keys[i] == k;
                if i < keys.len() - 1 {
                    assert(front[i] == k);
                }
            }
            if k == last {
                assert(keys[keys.len() - 1] == k);
            }
        }
        assert forall|k: K| #[trigger]
            remove_all(m, keys).contains_key(k) <==> (m.contains_key(k) && !keys.contains(k)) by {
            assert(rest.contains_key(k) <==> (m.contains_key(k) && !front.contains(k)));
        }
        assert forall|k: K| #[trigger] remove_all(m, keys).contains_key(k) implies remove_all(
            m,
            keys,
        )[k] == m[k] by {
            assert(rest.contains_key(k));
        }
    }
}

/// After a key is deleted a lookup of it finds nothing; deleting a key
/// that is not held gives nothing back and leaves the map as it was.
pub proof fn law_deleted_is_absent<K, V>(m: Map<K, V>, k: K)
    ensures
        stored(m.remove(k), k) == None::<V>,
        !m.contains_key(k) ==> stored(m, k) == None::<V> && m.remove(k) == m,
{
    if !m.contains_key(k) {
        assert(m.remove(k) =~= m);
    }
}

/// Inserting pairs into an empty tree and then deleting every one of
/// their keys, in any order, leaves the empty map, which a well-formed tree
/// holds as a single empty leaf.
pub proof fn law_round_trip<K: Eq + Hash + Ord + Copy, V>(
    pairs: Seq<(K, V)>,
    keys: Seq<K>,
    tree: BTree<K, V>,
)
    requires
        forall|i: int| 0 <= i < pairs.len() ==> keys.contains(#[trigger] pairs[i].0),
        tree.wf(),
        tree@ == remove_all(put_all(Map::<K, V>::empty(), pairs), keys),
    ensures
        remove_all(put_all(Map::<K, V>::empty(), pairs), keys) == Map::<K, V>::empty(),
        tree.is_empty_leaf(),
{
    let full = put_all(Map::<K, V>::empty(), pairs);
    lemma_put_all_dom(Map::<K, V>::empty(), pairs);
    lemma_remove_all_dom(full, keys);
    assert forall|k: K| !remove_all(full, keys).contains_key(k) by {
        if full.contains_key(k) {
            let i = choose|i: int| 0 <= i < pairs.len() && pairs[i].0 == k;
            assert(keys.contains(pairs[i].0));
        }
    }
    assert(remove_all(full, keys) =~= Map::<K, V>::empty());
    tree.lemma_empty_is_leaf();
}

} // verus!
