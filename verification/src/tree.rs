//! The tree, the map it stands for, and its two operations.

use crate::laws::{lemma_insert_keeps_order, lemma_lookup_reads_map};
use crate::order::{key_lt, total_order};
use vstd::prelude::*;

verus! {

/// A mutable binary search tree from keys to values.
#[derive(PartialEq, Debug)]
pub enum BTree<K, V> where K: Ord {
    /// An absent subtree.
    Empty,
    /// One entry and the two subtrees below it.
    Node { key: K, val: V, left: Box<BTree<K, V>>, right: Box<BTree<K, V>> },
}

impl<K, V> View for BTree<K, V> where K: Ord {
    type V = Map<K, V>;

    /// A tree is seen as the map of its entries.
    open spec fn view(&self) -> Map<K, V> {
        self.as_map()
    }
}

impl<K, V> BTree<K, V> where K: Ord {
    /// The tree of one entry: `key` with `val`, and nothing below it.
    pub open spec fn leaf(key: K, val: V) -> Self {
        BTree::Node { key, val, left: Box::new(BTree::Empty), right: Box::new(BTree::Empty) }
    }

    /// The map that the tree stands for: every entry that it holds. Where a
    /// key occurs more than once, which an ordered tree rules out, the node
    /// nearest the root decides, and the right subtree before the left.
    pub open spec fn as_map(self) -> Map<K, V>
        decreases self,
    {
        match self {
            BTree::Empty => Map::empty(),
            BTree::Node { key, val, left, right } => left.as_map().union_prefer_right(
                right.as_map(),
            ).insert(key, val),
        }
    }

    /// The search-tree invariant: at every node, each key of the left subtree
    /// is smaller than the node's key and each key of the right subtree is
    /// greater.
    pub open spec fn is_ordered(self) -> bool
        decreases self,
    {
        match self {
            BTree::Empty => true,
            BTree::Node { key, val, left, right } => {
                &&& left.is_ordered()
                &&& right.is_ordered()
                &&& forall|k: K| #[trigger] left.as_map().contains_key(k) ==> key_lt(k, key)
                &&& forall|k: K| #[trigger] right.as_map().contains_key(k) ==> key_lt(key, k)
            },
        }
    }

    /// What a search for `key` meets when it walks down from the root, going
    /// left at a greater key and right at a smaller one.
    pub open spec fn lookup(self, key: K) -> Option<V>
        decreases self,
    {
        match self {
            BTree::Empty => None,
            BTree::Node { key: k0, val, left, right } => if key_lt(key, k0) {
                left.lookup(key)
            } else if key_lt(k0, key) {
                right.lookup(key)
            } else {
                Some(val)
            },
        }
    }

    /// The tree after `key` has been given the value `val`: the search path
    /// for `key` ends either at a node with that key, whose value is
    /// replaced, or at an empty place, which becomes a leaf. Nothing else
    /// changes.
    pub open spec fn inserted(self, key: K, val: V) -> Self
        decreases self,
    {
        match self {
            BTree::Empty => Self::leaf(key, val),
            BTree::Node { key: k0, val: v0, left, right } => if key_lt(key, k0) {
                BTree::Node { key: k0, val: v0, left: Box::new(left.inserted(key, val)), right }
            } else if key_lt(k0, key) {
                BTree::Node { key: k0, val: v0, left, right: Box::new(right.inserted(key, val)) }
            } else {
                BTree::Node { key: k0, val, left, right }
            },
        }
    }

    /// The keys as a walk from left to right meets them: those of the left
    /// subtree, the node's own key, those of the right subtree.
    pub open spec fn in_order(self) -> Seq<K>
        decreases self,
    {
        match self {
            BTree::Empty => Seq::empty(),
            BTree::Node { key, val, left, right } => left.in_order().push(key) + right.in_order(),
        }
    }

    /// The tree after the entries of `entries` have been inserted one after
    /// the other, the first of them first.
    pub open spec fn inserted_all(self, entries: Seq<(K, V)>) -> Self
        decreases entries.len(),
    {
        if entries.len() == 0 {
            self
        } else {
            self.inserted_all(entries.drop_last()).inserted(entries.last().0, entries.last().1)
        }
    }

    /// `self` has the shape of `other` and the same key at every node, and
    /// the same value at every node whose key is not `key`.
    pub open spec fn differs_at_most_at(self, other: Self, key: K) -> bool
        decreases self,
    {
        match (self, other) {
            (BTree::Empty, BTree::Empty) => true,
            (
                BTree::Node { key: k1, val: v1, left: l1, right: r1 },
                BTree::Node { key: k2, val: v2, left: l2, right: r2 },
            ) => {
                &&& k1 == k2
                &&& k1 != key ==> v1 == v2
                &&& l1.differs_at_most_at(*l2, key)
                &&& r1.differs_at_most_at(*r2, key)
            },
            _ => false,
        }
    }

    /// A single node that holds `key` and `val`, with both children empty.
    pub fn node(key: K, val: V) -> (tree: Self)
        ensures
            tree == Self::leaf(key, val),
            tree.is_ordered(),
            tree@ == Map::<K, V>::empty().insert(key, val),
    {
        let tree = BTree::Node {
            key: key,
            val: val,
            left: Box::new(BTree::Empty),
            right: Box::new(BTree::Empty),
        };
        proof {
            reveal_with_fuel(BTree::is_ordered, 2);
            reveal_with_fuel(BTree::as_map, 2);
            assert(tree@ =~= Map::<K, V>::empty().insert(key, val));
        }
        tree
    }

    /// Gives `key` the value `val`. A key that the tree does not hold yet
    /// becomes a new leaf where its search path ends; a key that it holds
    /// keeps its node, and only the value there is replaced.
    pub fn insert(&mut self, key: K, val: V)
        requires
            total_order::<K>(),
        ensures
            *final(self) == old(self).inserted(key, val),
            *old(self) == BTree::<K, V>::Empty ==> *final(self) == Self::leaf(key, val),
            old(self).is_ordered() ==> final(self).is_ordered(),
            old(self).is_ordered() ==> final(self)@ == old(self)@.insert(key, val),
        decreases *old(self),
    {
        proof {
            if self.is_ordered() {
                lemma_insert_keeps_order(*self, key, val);
            }
        }
        match self {
            BTree::Empty => {
                *self = BTree::node(key, val);
            },
            BTree::Node { key: k0, val: v0, left, right } => {
                if key < *k0 {
                    left.insert(key, val);
                } else if key > *k0 {
                    right.insert(key, val);
                } else {
                    *v0 = val;
                }
            },
        }
    }

    /// Looks `key` up. The answer borrows the value from the tree.
    pub fn find<'a>(&'a self, key: &K) -> (found: Option<&'a V>)
        requires
            total_order::<K>(),
        ensures
            match found {
                Some(v) => self.lookup(*key) == Some(*v),
                None => self.lookup(*key) is None,
            },
            *self == BTree::<K, V>::Empty ==> found is None,
            self.is_ordered() ==> match found {
                Some(v) => self@.contains_key(*key) && self@[*key] == *v,
                None => !self@.contains_key(*key),
            },
        decreases self,
    {
        proof {
            if self.is_ordered() {
                lemma_lookup_reads_map(*self, *key);
            }
        }
        match self {
            BTree::Empty => None,
            BTree::Node { key: k0, val, left, right } => {
                if key < k0 {
                    left.find(key)
                } else if key > k0 {
                    right.find(key)
                } else {
                    Some(val)
                }
            },
        }
    }
}

} // verus!
