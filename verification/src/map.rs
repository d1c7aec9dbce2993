//! The map facade: an optional root node plus the tree-wide minimum degree,
//! with top-level `insert` (root-growth rule) and `search` (recursive
//! descent).

use crate::node::find_pos;
use crate::node::sorted_strict;
use crate::node::BTreeNode;
use vstd::prelude::*;

verus! {

/// The one defined failure mode: construction with a minimum degree below 2.
#[derive(Clone, Copy, Debug, PartialEq, Eq, Structural)]
pub enum BTreeError {
    InvalidDegree,
}

/// An ordered associative map from `u64` keys to `V` values, kept as a
/// B-tree of minimum degree `min_degree`.
#[derive(Debug)]
pub struct BTreeMap<V> {
    pub root: Option<BTreeNode<V>>,
    pub min_degree: usize,
}

impl<V> BTreeMap<V> {
    /// Exclusive lower sentinel below every `u64` key.
    pub open spec fn key_min_sentinel() -> int {
        -1
    }

    /// Exclusive upper sentinel above every `u64` key.
    pub open spec fn key_max_sentinel() -> int {
        u64::MAX as int + 1
    }

    /// The mathematical map this tree stands for.
    pub open spec fn view(self) -> Map<u64, V> {
        match self.root {
            None => Map::empty(),
            Some(r) => r.entry_map(),
        }
    }

    /// Tree-wide well-formedness: a legal minimum degree, and a well-formed,
    /// non-empty root whenever one exists.
    pub open spec fn wf(self) -> bool {
        &&& self.min_degree >= 2
        &&& self.min_degree <= usize::MAX / 2
        &&& match self.root {
            None => true,
            Some(r) => {
                &&& r.wf(Self::key_min_sentinel(), Self::key_max_sentinel())
                &&& r.min_degree == self.min_degree
                &&& r.keys@.len() >= 1
            },
        }
    }

    /// Number of levels in the tree; 0 when the tree is empty.
    pub open spec fn height(self) -> nat {
        match self.root {
            None => 0,
            Some(r) => r.height(),
        }
    }

    /// An empty map with the given minimum degree.
    pub fn new(min_degree: usize) -> (map: Self)
        requires
            min_degree >= 2,
            min_degree <= usize::MAX / 2,
        ensures
            map.wf(),
            map.view() == Map::<u64, V>::empty(),
            map.min_degree == min_degree,
            map.height() == 0,
    {
        BTreeMap { root: None, min_degree }
    }

    /// Checked construction: rejects any minimum degree below 2 with
    /// `InvalidDegree`.
    pub fn try_new(min_degree: usize) -> (result: Result<Self, BTreeError>)
        requires
            min_degree <= usize::MAX / 2,
        ensures
            match result {
                Ok(map) => {
                    &&& min_degree >= 2
                    &&& map.wf()
                    &&& map.view() == Map::<u64, V>::empty()
                    &&& map.min_degree == min_degree
                    &&& map.height() == 0
                },
                Err(e) => min_degree < 2 && e == BTreeError::InvalidDegree,
            },
    {
        if min_degree < 2 {
            Err(BTreeError::InvalidDegree)
        } else {
            Ok(Self::new(min_degree))
        }
    }

    /// Bind `key` to `value`, overwriting any existing binding.
    ///
    /// If the map is empty a fresh leaf root is created. If the root is full,
    /// a new internal root is grown above it and the old root is split; this
    /// is the only place the tree's height increases, which keeps all leaves
    /// at the same depth.
    pub fn insert(&mut self, key: u64, value: V)
        requires
            old(self).wf(),
        ensures
            final(self).wf(),
            final(self).view() == old(self).view().insert(key, value),
            final(self).min_degree == old(self).min_degree,
            final(self).height() == match old(self).root {
                None => 1nat,
                Some(r) => if r.keys@.len() == 2 * old(self).min_degree - 1 {
                    (r.height() + 1) as nat
                } else {
                    r.height()
                },
            },
    {
        let ghost glo = Self::key_min_sentinel();
        let ghost ghi = Self::key_max_sentinel();
        if self.root.is_none() {
            self.root = Some(BTreeNode::new(self.min_degree, true));
        }
        let mut root = self.root.take().unwrap();
        let ghost r0 = root;
        if root.keys.len() == 2 * self.min_degree - 1 {
            // the root is full: grow a new root above it, then split
            let mut new_root = BTreeNode::new(self.min_degree, false);
            new_root.children.push(Box::new(root));
            proof {
                assert(new_root.children@.len() == 1);
                assert(*new_root.children@[0] == r0);
                assert(new_root.wf(glo, ghi)) by {
                    assert forall|i: int| 0 <= i <= 0 implies (
                        #[trigger] new_root.children@[i]).wf(
                        new_root.lower(glo, i),
                        new_root.upper(ghi, i),
                    ) by {
                        assert(r0.wf(glo, ghi));
                    }
                };
                assert(new_root.entry_map() == r0.entry_map()) by {
                    assert(new_root.entry_map_from(0) == new_root.children@[0].entry_map());
                };
                assert(new_root.height() == r0.height() + 1);
            }
            new_root.split_child(0, Ghost(glo), Ghost(ghi));
            new_root.insert_non_full(key, value, Ghost(glo), Ghost(ghi));
            self.root = Some(new_root);
        } else {
            root.insert_non_full(key, value, Ghost(glo), Ghost(ghi));
            self.root = Some(root);
        }
    }

    /// Recursive descent: locate the first key `>= key` in the node, return
    /// its value on equality, otherwise fall through into the matching child
    /// (or report absence at a leaf).
    pub fn search_in_node<'a>(
        &self,
        node: &'a BTreeNode<V>,
        key: u64,
        Ghost(lo): Ghost<int>,
        Ghost(hi): Ghost<int>,
    ) -> (result: Option<&'a V>)
        requires
            node.wf(lo, hi),
        ensures
            result == (if node.entry_map().dom().contains(key) {
                Some(&node.entry_map()[key])
            } else {
                None::<&'a V>
            }),
        decreases node.height(),
    {
        let pos = find_pos(&node.keys, key);
        if pos < node.keys.len() && node.keys[pos] == key {
            proof {
                if node.is_leaf {
                    BTreeNode::<V>::lemma_kv_get(node.keys@, node.values@, pos as int);
                } else {
                    node.lemma_entry_map_sep_key(lo, hi, pos as int);
                }
            }
            return Some(&node.values[pos]);
        }
        if node.is_leaf {
            proof {
                BTreeNode::<V>::lemma_kv_dom(node.keys@, node.values@);
                assert(!node.keys@.contains(key)) by {
                    if node.keys@.contains(key) {
                        let i = choose|i: int|
                            0 <= i < node.keys@.len() && node.keys@[i] == key;
                        // keys below pos are smaller, keys above are larger
                        if i > pos {
                            assert(node.keys@[pos as int] < node.keys@[i]);
                        }
                    }
                };
                assert(!node.entry_map().dom().contains(key));
            }
            None
        } else {
            let ghost cl = node.lower(lo, pos as int);
            let ghost ch = node.upper(hi, pos as int);
            proof {
                assert(node.children@[pos as int].wf(cl, ch));
                assert(node.children@[pos as int].height() < node.height());
                if cl < key < ch {
                    node.lemma_entry_map_child_window(lo, hi, pos as int, key);
                } else {
                    // key falls outside this subtree's range altogether
                    node.lemma_entry_map_in_range(lo, hi);
                    node.children@[pos as int].lemma_entry_map_in_range(cl, ch);
                    assert(!node.entry_map().dom().contains(key));
                    assert(!node.children@[pos as int].entry_map().dom().contains(key));
                }
            }
            self.search_in_node(&node.children[pos], key, Ghost(cl), Ghost(ch))
        }
    }

    /// All keys of the map, in-order: strictly increasing, one entry for
    /// every bound key and no other.
    pub fn in_order_keys(&self) -> (keys: Vec<u64>)
        requires
            self.wf(),
        ensures
            sorted_strict(keys@),
            forall|k: u64| keys@.contains(k) <==> self.view().dom().contains(k),
    {
        let mut out: Vec<u64> = Vec::new();
        match &self.root {
            None => {},
            Some(r) => {
                r.collect_keys(
                    &mut out,
                    Ghost(Self::key_min_sentinel()),
                    Ghost(Self::key_max_sentinel()),
                );
            },
        }
        out
    }

    /// Look up the value bound to `key`, or report absence.
    pub fn search(&self, key: u64) -> (result: Option<&V>)
        requires
            self.wf(),
        ensures
            result == (if self.view().dom().contains(key) {
                Some(&self.view()[key])
            } else {
                None::<&V>
            }),
    {
        match &self.root {
            None => None,
            Some(r) => self.search_in_node(
                r,
                key,
                Ghost(Self::key_min_sentinel()),
                Ghost(Self::key_max_sentinel()),
            ),
        }
    }
}

} // verus!
