//! Laws that relate insertion, lookup and the order of the keys.

use crate::order::{key_lt, lemma_trichotomy, total_order};
use crate::tree::BTree;
use vstd::prelude::*;

verus! {

/// Each key of `keys` is smaller than every key that comes after it.
pub open spec fn strictly_increasing<K: Ord>(keys: Seq<K>) -> bool {
    forall|i: int, j: int| 0 <= i < j < keys.len() ==> key_lt(#[trigger] keys[i], #[trigger] keys[j])
}

/// The empty tree holds no key: a search in it finds nothing.
pub proof fn lemma_empty_holds_nothing<K: Ord, V>(key: K)
    ensures
        BTree::<K, V>::Empty.lookup(key) is None,
        !BTree::<K, V>::Empty@.contains_key(key),
        BTree::<K, V>::Empty.is_ordered(),
{
}

/// An insertion into the empty tree gives the leaf of that entry.
pub proof fn lemma_insert_into_empty<K: Ord, V>(key: K, val: V)
    ensures
        BTree::<K, V>::Empty.inserted(key, val) == BTree::leaf(key, val),
{
}

/// An insertion beside a single node hangs the new leaf to the left of it
/// where the new key is smaller and to the right where it is greater, and
/// leaves the other side empty.
pub proof fn lemma_insert_beside_leaf<K: Ord, V>(root_key: K, root_val: V, key: K, val: V)
    requires
        total_order::<K>(),
    ensures
        key_lt(key, root_key) ==> BTree::leaf(root_key, root_val).inserted(key, val) == (BTree::Node {
            key: root_key,
            val: root_val,
            left: Box::new(BTree::leaf(key, val)),
            right: Box::new(BTree::Empty),
        }),
        key_lt(root_key, key) ==> BTree::leaf(root_key, root_val).inserted(key, val) == (BTree::Node {
            key: root_key,
            val: root_val,
            left: Box::new(BTree::Empty),
            right: Box::new(BTree::leaf(key, val)),
        }),
{
    lemma_trichotomy(key, root_key);
    reveal_with_fuel(BTree::inserted, 2);
}

/// An insertion into an ordered tree leaves it ordered and adds exactly
/// the one entry to its map.
pub proof fn lemma_insert_keeps_order<K: Ord, V>(tree: BTree<K, V>, key: K, val: V)
    requires
        total_order::<K>(),
        tree.is_ordered(),
    ensures
        tree.inserted(key, val).is_ordered(),
        tree.inserted(key, val)@ == tree@.insert(key, val),
    decreases tree,
{
    match tree {
        BTree::Empty => {
            assert(tree.inserted(key, val)@ =~= tree@.insert(key, val));
        },
        BTree::Node { key: k0, val: v0, left, right } => {
            lemma_trichotomy(key, k0);
            if key_lt(key, k0) {
                lemma_insert_keeps_order(*left, key, val);
                assert(!right@.contains_key(key)) by {
                    if right@.contains_key(key) {
                        lemma_trichotomy(k0, key);
                    }
                }
                assert(tree.inserted(key, val)@ =~= tree@.insert(key, val));
            } else if key_lt(k0, key) {
                lemma_insert_keeps_order(*right, key, val);
                assert(tree.inserted(key, val)@ =~= tree@.insert(key, val));
            } else {
                assert(tree.inserted(key, val)@ =~= tree@.insert(key, val));
            }
        },
    }
}

/// In an ordered tree the search path finds a key exactly when the map
/// holds it, and then with the map's value.
pub proof fn lemma_lookup_reads_map<K: Ord, V>(tree: BTree<K, V>, key: K)
    requires
        total_order::<K>(),
        tree.is_ordered(),
    ensures
        tree.lookup(key) == (if tree@.contains_key(key) {
            Some(tree@[key])
        } else {
            None
        }),
    decreases tree,
{
    match tree {
        BTree::Empty => {},
        BTree::Node { key: k0, val: v0, left, right } => {
            lemma_trichotomy(key, k0);
            if key_lt(key, k0) {
                lemma_lookup_reads_map(*left, key);
                if right@.contains_key(key) {
                    lemma_trichotomy(k0, key);
                }
            } else if key_lt(k0, key) {
                lemma_lookup_reads_map(*right, key);
                if left@.contains_key(key) {
                    lemma_trichotomy(k0, key);
                }
            }
        },
    }
}

/// After an insertion a search finds the new value under the inserted key,
/// and under every other key what it found before.
pub proof fn lemma_lookup_after_insert<K: Ord, V>(tree: BTree<K, V>, key: K, val: V, other: K)
    requires
        total_order::<K>(),
    ensures
        tree.inserted(key, val).lookup(other) == (if other == key {
            Some(val)
        } else {
            tree.lookup(other)
        }),
    decreases tree,
{
    lemma_trichotomy(other, key);
    match tree {
        BTree::Empty => {
            reveal_with_fuel(BTree::lookup, 2);
        },
        BTree::Node { key: k0, val: v0, left, right } => {
            lemma_trichotomy(key, k0);
            lemma_trichotomy(other, k0);
            if key_lt(key, k0) {
                lemma_lookup_after_insert(*left, key, val, other);
            } else if key_lt(k0, key) {
                lemma_lookup_after_insert(*right, key, val, other);
            }
        },
    }
}

/// A tree differs from itself at no key.
pub proof fn lemma_differs_reflexive<K: Ord, V>(tree: BTree<K, V>, key: K)
    ensures
        tree.differs_at_most_at(tree, key),
    decreases tree,
{
    match tree {
        BTree::Empty => {},
        BTree::Node { key: k0, val, left, right } => {
            lemma_differs_reflexive(*left, key);
            lemma_differs_reflexive(*right, key);
        },
    }
}

/// An insertion under a key that a search finds keeps the shape of the tree
/// and every key in its place, replaces the value at that key and no other,
/// and a search for the key then finds the new value.
pub proof fn lemma_insert_updates<K: Ord, V>(tree: BTree<K, V>, key: K, val: V)
    requires
        total_order::<K>(),
        tree.lookup(key) is Some,
    ensures
        tree.inserted(key, val).differs_at_most_at(tree, key),
        tree.inserted(key, val).in_order() == tree.in_order(),
        tree.inserted(key, val).lookup(key) == Some(val),
    decreases tree,
{
    match tree {
        BTree::Empty => {},
        BTree::Node { key: k0, val: v0, left, right } => {
            lemma_trichotomy(key, k0);
            lemma_differs_reflexive(*left, key);
            lemma_differs_reflexive(*right, key);
            if key_lt(key, k0) {
                lemma_insert_updates(*left, key, val);
            } else if key_lt(k0, key) {
                lemma_insert_updates(*right, key, val);
            }
        },
    }
}

/// The walk from left to right meets exactly the keys of the tree's map.
pub proof fn lemma_in_order_keys<K: Ord, V>(tree: BTree<K, V>)
    ensures
        forall|k: K| tree.in_order().contains(k) <==> tree@.contains_key(k),
    decreases tree,
{
    match tree {
        BTree::Empty => {},
        BTree::Node { key: k0, val, left, right } => {
            lemma_in_order_keys(*left);
            lemma_in_order_keys(*right);
            let l = left.in_order();
            let r = right.in_order();
            let s = tree.in_order();
            assert forall|k: K| s.contains(k) <==> tree@.contains_key(k) by {
                if s.contains(k) {
                    let i = choose|i: int| 0 <= i < s.len() && s[i] == k;
                    if i < l.len() {
                        assert(l[i] == k);
                    } else if i > l.len() {
                        assert(r[i - l.len() - 1] == k);
                    }
                }
                if k == k0 {
                    assert(s[l.len() as int] == k);
                } else if l.contains(k) {
                    let i = choose|i: int| 0 <= i < l.len() && l[i] == k;
                    assert(s[i] == k);
                } else if r.contains(k) {
                    let i = choose|i: int| 0 <= i < r.len() && r[i] == k;
                    assert(s[l.len() + 1 + i] == k);
                }
            }
        },
    }
}

/// In an ordered tree the walk from left to right meets the keys in
/// strictly increasing order, and so none of them twice.
pub proof fn lemma_in_order_increasing<K: Ord, V>(tree: BTree<K, V>)
    requires
        total_order::<K>(),
        tree.is_ordered(),
    ensures
        strictly_increasing(tree.in_order()),
        tree.in_order().no_duplicates(),
    decreases tree,
{
    let s = tree.in_order();
    match tree {
        BTree::Empty => {},
        BTree::Node { key: k0, val, left, right } => {
            lemma_in_order_increasing(*left);
            lemma_in_order_increasing(*right);
            lemma_in_order_keys(*left);
            lemma_in_order_keys(*right);
            let l = left.in_order();
            let r = right.in_order();
            assert forall|i: int, j: int| 0 <= i < j < s.len() implies key_lt(
                #[trigger] s[i],
                #[trigger] s[j],
            ) by {
                if i < l.len() {
                    assert(l.contains(l[i]));
                    assert(key_lt(l[i], k0));
                }
                if j > l.len() {
                    assert(r.contains(r[j - l.len() - 1]));
                    assert(key_lt(k0, r[j - l.len() - 1]));
                }
                if i > l.len() {
                    assert(key_lt(r[i - l.len() - 1], r[j - l.len() - 1]));
                }
                if j < l.len() {
                    assert(key_lt(l[i], l[j]));
                }
            }
        },
    }
    assert forall|i: int, j: int| 0 <= i < s.len() && 0 <= j < s.len() && i != j implies s[i]
        != s[j] by {
        lemma_trichotomy(s[i], s[j]);
    }
}

/// A tree whose walk from left to right meets the keys in strictly
/// increasing order is ordered: the walk decides the invariant.
pub proof fn lemma_increasing_walk_is_ordered<K: Ord, V>(tree: BTree<K, V>)
    requires
        strictly_increasing(tree.in_order()),
    ensures
        tree.is_ordered(),
    decreases tree,
{
    match tree {
        BTree::Empty => {},
        BTree::Node { key: k0, val, left, right } => {
            let l = left.in_order();
            let r = right.in_order();
            let s = tree.in_order();
            assert forall|i: int, j: int| 0 <= i < j < l.len() implies key_lt(
                #[trigger] l[i],
                #[trigger] l[j],
            ) by {
                assert(key_lt(s[i], s[j]));
            }
            assert forall|i: int, j: int| 0 <= i < j < r.len() implies key_lt(
                #[trigger] r[i],
                #[trigger] r[j],
            ) by {
                assert(key_lt(s[l.len() + 1 + i], s[l.len() + 1 + j]));
            }
            lemma_increasing_walk_is_ordered(*left);
            lemma_increasing_walk_is_ordered(*right);
            lemma_in_order_keys(*left);
            lemma_in_order_keys(*right);
            assert forall|k: K| #[trigger] left.as_map().contains_key(k) implies key_lt(k, k0) by {
                assert(l.contains(k));
                let i = choose|i: int| 0 <= i < l.len() && l[i] == k;
                assert(key_lt(s[i], s[l.len() as int]));
            }
            assert forall|k: K| #[trigger] right.as_map().contains_key(k) implies key_lt(k0, k) by {
                assert(r.contains(k));
                let i = choose|i: int| 0 <= i < r.len() && r[i] == k;
                assert(key_lt(s[l.len() as int], s[l.len() + 1 + i]));
            }
        },
    }
}

/// Insertions, however many and in whatever order, keep an ordered tree
/// ordered: its keys, walked from left to right, increase strictly.
pub proof fn lemma_insertions_keep_order<K: Ord, V>(tree: BTree<K, V>, entries: Seq<(K, V)>)
    requires
        total_order::<K>(),
        tree.is_ordered(),
    ensures
        tree.inserted_all(entries).is_ordered(),
        strictly_increasing(tree.inserted_all(entries).in_order()),
        tree.inserted_all(entries).in_order().no_duplicates(),
    decreases entries.len(),
{
    if entries.len() > 0 {
        lemma_insertions_keep_order(tree, entries.drop_last());
        lemma_insert_keeps_order(
            tree.inserted_all(entries.drop_last()),
            entries.last().0,
            entries.last().1,
        );
    }
    lemma_in_order_increasing(tree.inserted_all(entries));
}

} // verus!
