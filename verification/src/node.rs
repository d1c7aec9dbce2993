//! B-tree nodes: the invariant machinery, the abstract `Map` view of a
//! subtree, and the two structural operations (`split_child` and
//! `insert_non_full`) that carry the algorithmic content of the tree.

use vstd::prelude::*;

verus! {

broadcast use vstd::std_specs::vec::group_vec_axioms;

/// One node of the B-tree.
///
/// `keys` and `values` are parallel sequences; when the node is internal,
/// `children` holds exactly `keys.len() + 1` subtrees, and every key in
/// `children[i]` lies strictly between the separator keys `keys[i - 1]` and
/// `keys[i]`.
#[derive(Debug)]
pub struct BTreeNode<V> {
    pub keys: Vec<u64>,
    pub values: Vec<V>,
    pub children: Vec<Box<BTreeNode<V>>>,
    pub is_leaf: bool,
    pub min_degree: usize,
}

impl<V> BTreeNode<V> {
    /// The finite map holding `keys[i] |-> values[i]` for each index.
    pub open spec fn kv_map(keys: Seq<u64>, values: Seq<V>) -> Map<u64, V>
        decreases keys.len(),
    {
        if keys.len() == 0 || values.len() == 0 {
            Map::empty()
        } else {
            Self::kv_map(keys.drop_last(), values.drop_last()).insert(keys.last(), values.last())
        }
    }

    /// The abstract contents of the subtree rooted at this node.
    pub open spec fn entry_map(self) -> Map<u64, V>
        decreases self, self.keys@.len() + 1,
    {
        if self.is_leaf {
            Self::kv_map(self.keys@, self.values@)
        } else {
            self.entry_map_from(0)
        }
    }

    /// For an internal node: the contents of children `i..` together with the
    /// separator pairs `keys[i..]`.
    pub open spec fn entry_map_from(self, i: int) -> Map<u64, V>
        decreases self, self.keys@.len() - i,
    {
        if i < 0 || i > self.keys@.len() || self.children@.len() != self.keys@.len() + 1 {
            Map::empty()
        } else if i == self.keys@.len() {
            self.children@[i].entry_map()
        } else {
            self.children@[i].entry_map().union_prefer_right(self.entry_map_from(i + 1)).insert(
                self.keys@[i],
                self.values@[i],
            )
        }
    }

    /// Number of levels in this subtree; a single leaf has height 1.
    pub open spec fn height(self) -> nat
        decreases self,
    {
        if self.is_leaf || self.children@.len() == 0 {
            1
        } else {
            1 + self.children@[0].height()
        }
    }

    /// Lower key bound (exclusive) of child `i`, given this node's own bound.
    pub open spec fn lower(self, lo: int, i: int) -> int {
        if i == 0 {
            lo
        } else {
            self.keys@[i - 1] as int
        }
    }

    /// Upper key bound (exclusive) of child `i`, given this node's own bound.
    pub open spec fn upper(self, hi: int, i: int) -> int {
        if i == self.keys@.len() {
            hi
        } else {
            self.keys@[i] as int
        }
    }

    /// Well-formedness of the subtree rooted here, with every key strictly
    /// between `lo` and `hi`:
    /// keys strictly increasing, `values` parallel to `keys`, at most
    /// `2t - 1` keys per node, leaves childless, internal nodes with
    /// `keys.len() + 1` children whose key ranges are separated by the
    /// corresponding separator keys, every child with at least `t - 1` keys,
    /// and all children of equal height.
    pub open spec fn wf(self, lo: int, hi: int) -> bool
        decreases self,
    {
        let n = self.keys@.len() as int;
        &&& self.min_degree >= 2
        &&& self.min_degree <= usize::MAX / 2
        &&& self.values@.len() == n
        &&& n <= 2 * self.min_degree - 1
        &&& (forall|i: int| 0 <= i < n ==> lo < #[trigger] self.keys@[i] < hi)
        &&& (forall|i: int, j: int|
            0 <= i < j < n ==> #[trigger] self.keys@[i] < #[trigger] self.keys@[j])
        &&& if self.is_leaf {
            self.children@.len() == 0
        } else {
            &&& self.children@.len() == n + 1
            &&& (forall|i: int|
                0 <= i <= n ==> (#[trigger] self.children@[i]).wf(
                    self.lower(lo, i),
                    self.upper(hi, i),
                ))
            &&& (forall|i: int|
                0 <= i <= n ==> (#[trigger] self.children@[i]).min_degree == self.min_degree)
            &&& (forall|i: int|
                0 <= i <= n ==> (#[trigger] self.children@[i]).keys@.len() >= self.min_degree - 1)
            &&& (forall|i: int|
                0 <= i <= n ==> (#[trigger] self.children@[i]).height()
                    == self.children@[0].height())
        }
    }

    /// `kv_map` binds exactly the keys of `keys`.
    pub proof fn lemma_kv_dom(keys: Seq<u64>, values: Seq<V>)
        requires
            keys.len() == values.len(),
        ensures
            forall|k: u64|
                #[trigger] Self::kv_map(keys, values).dom().contains(k) <==> keys.contains(k),
        decreases keys.len(),
    {
        if keys.len() > 0 {
            Self::lemma_kv_dom(keys.drop_last(), values.drop_last());
            let m0 = Self::kv_map(keys.drop_last(), values.drop_last());
            assert(Self::kv_map(keys, values) == m0.insert(keys.last(), values.last()));
            assert forall|k: u64|
                #[trigger] Self::kv_map(keys, values).dom().contains(k) <==> keys.contains(
                    k,
                ) by {
                if Self::kv_map(keys, values).dom().contains(k) {
                    if k == keys.last() {
                        assert(keys[keys.len() - 1] == k);
                        assert(keys.contains(k));
                    } else {
                        assert(m0.dom().contains(k));
                        assert(keys.drop_last().contains(k));
                        let i = choose|i: int|
                            0 <= i < keys.drop_last().len() && keys.drop_last()[i] == k;
                        assert(keys[i] == k);
                        assert(keys.contains(k));
                    }
                }
                if keys.contains(k) {
                    let i = choose|i: int| 0 <= i < keys.len() && keys[i] == k;
                    if i < keys.len() - 1 {
                        assert(keys.drop_last()[i] == k);
                        assert(keys.drop_last().contains(k));
                        assert(m0.dom().contains(k));
                    }
                    assert(Self::kv_map(keys, values).dom().contains(k));
                }
            }
        }
    }

    /// With distinct keys, `kv_map` maps `keys[i]` to `values[i]`.
    pub proof fn lemma_kv_get(keys: Seq<u64>, values: Seq<V>, i: int)
        requires
            keys.len() == values.len(),
            forall|p: int, q: int| 0 <= p < q < keys.len() ==> keys[p] != keys[q],
            0 <= i < keys.len(),
        ensures
            Self::kv_map(keys, values).dom().contains(keys[i]),
            Self::kv_map(keys, values)[keys[i]] == values[i],
        decreases keys.len(),
    {
        if i < keys.len() - 1 {
            Self::lemma_kv_get(keys.drop_last(), values.drop_last(), i);
        }
    }

    /// Inserting a fresh pair at any position inserts it into the map.
    pub proof fn lemma_kv_insert(keys: Seq<u64>, values: Seq<V>, p: int, k: u64, v: V)
        requires
            keys.len() == values.len(),
            0 <= p <= keys.len(),
            !keys.contains(k),
        ensures
            Self::kv_map(keys.insert(p, k), values.insert(p, v)) =~= Self::kv_map(
                keys,
                values,
            ).insert(k, v),
        decreases keys.len(),
    {
        let ks2 = keys.insert(p, k);
        let vs2 = values.insert(p, v);
        if p == keys.len() {
            assert(ks2.drop_last() =~= keys);
            assert(vs2.drop_last() =~= values);
            assert(ks2.last() == k);
            assert(vs2.last() == v);
        } else {
            assert(ks2.last() == keys.last());
            assert(vs2.last() == values.last());
            assert(ks2.drop_last() =~= keys.drop_last().insert(p, k));
            assert(vs2.drop_last() =~= values.drop_last().insert(p, v));
            assert(!keys.drop_last().contains(k)) by {
                if keys.drop_last().contains(k) {
                    let i = choose|i: int|
                        0 <= i < keys.drop_last().len() && keys.drop_last()[i] == k;
                    assert(keys[i] == k);
                }
            };
            Self::lemma_kv_insert(keys.drop_last(), values.drop_last(), p, k, v);
            assert(keys[keys.len() - 1] == keys.last());
            assert(k != keys.last());
        }
    }

    /// Overwriting `values[p]` re-binds the key `keys[p]`.
    pub proof fn lemma_kv_update(keys: Seq<u64>, values: Seq<V>, p: int, v: V)
        requires
            keys.len() == values.len(),
            forall|i: int, j: int| 0 <= i < j < keys.len() ==> keys[i] != keys[j],
            0 <= p < keys.len(),
        ensures
            Self::kv_map(keys, values.update(p, v)) =~= Self::kv_map(keys, values).insert(
                keys[p],
                v,
            ),
        decreases keys.len(),
    {
        let vs2 = values.update(p, v);
        if p == keys.len() - 1 {
            assert(vs2.drop_last() =~= values.drop_last());
            assert(vs2.last() == v);
        } else {
            assert(vs2.last() == values.last());
            assert(vs2.drop_last() =~= values.drop_last().update(p, v));
            Self::lemma_kv_update(keys.drop_last(), values.drop_last(), p, v);
            assert(keys[p] != keys[keys.len() - 1]);
        }
    }

    /// `kv_map` over a concatenation is the union of the two halves.
    pub proof fn lemma_kv_concat(k1: Seq<u64>, v1: Seq<V>, k2: Seq<u64>, v2: Seq<V>)
        requires
            k1.len() == v1.len(),
            k2.len() == v2.len(),
        ensures
            Self::kv_map(k1 + k2, v1 + v2) =~= Self::kv_map(k1, v1).union_prefer_right(
                Self::kv_map(k2, v2),
            ),
        decreases k2.len(),
    {
        if k2.len() == 0 {
            assert(k1 + k2 =~= k1);
            assert(v1 + v2 =~= v1);
        } else {
            assert((k1 + k2).drop_last() =~= k1 + k2.drop_last());
            assert((v1 + v2).drop_last() =~= v1 + v2.drop_last());
            assert((k1 + k2).last() == k2.last());
            assert((v1 + v2).last() == v2.last());
            Self::lemma_kv_concat(k1, v1, k2.drop_last(), v2.drop_last());
        }
    }

    /// Every key of a well-formed subtree lies strictly between its bounds.
    pub proof fn lemma_entry_map_in_range(self, lo: int, hi: int)
        requires
            self.wf(lo, hi),
        ensures
            forall|k: u64| #[trigger] self.entry_map().dom().contains(k) ==> lo < k < hi,
        decreases self, self.keys@.len() + 2,
    {
        if self.is_leaf {
            Self::lemma_kv_dom(self.keys@, self.values@);
            assert forall|k: u64| #[trigger] self.entry_map().dom().contains(k) implies lo < k
                < hi by {
                assert(Self::kv_map(self.keys@, self.values@).dom().contains(k));
                assert(self.keys@.contains(k));
                let i = choose|i: int| 0 <= i < self.keys@.len() && self.keys@[i] == k;
                assert(lo < self.keys@[i] < hi);
            }
        } else {
            self.lemma_entry_map_from_in_range(lo, hi, 0);
            assert forall|k: u64| #[trigger] self.entry_map().dom().contains(k) implies lo < k
                < hi by {
                assert(self.entry_map_from(0).dom().contains(k));
            }
        }
    }

    /// Range bound for the partial chain `entry_map_from(i)`.
    pub proof fn lemma_entry_map_from_in_range(self, lo: int, hi: int, i: int)
        requires
            self.wf(lo, hi),
            !self.is_leaf,
            0 <= i <= self.keys@.len(),
        ensures
            forall|k: u64|
                #[trigger] self.entry_map_from(i).dom().contains(k) ==> self.lower(lo, i) < k
                    < hi,
        decreases self, self.keys@.len() - i,
    {
        let n = self.keys@.len() as int;
        self.children@[i].lemma_entry_map_in_range(self.lower(lo, i), self.upper(hi, i));
        if i == n {
            assert forall|k: u64|
                #[trigger] self.entry_map_from(i).dom().contains(k) implies self.lower(lo, i) < k
                < hi by {
                assert(self.children@[i].entry_map().dom().contains(k));
            }
        } else {
            self.lemma_entry_map_from_in_range(lo, hi, i + 1);
            assert forall|k: u64|
                #[trigger] self.entry_map_from(i).dom().contains(k) implies self.lower(lo, i) < k
                < hi by {
                assert(self.lower(lo, i) < self.keys@[i] < hi);
                if k == self.keys@[i] {
                } else if self.entry_map_from(i + 1).dom().contains(k) {
                    assert(self.lower(lo, i + 1) < k < hi);
                } else {
                    assert(self.children@[i].entry_map().dom().contains(k));
                }
            }
        }
    }

    /// A separator pair of an internal node is bound in the subtree's map.
    pub proof fn lemma_entry_map_sep_key(self, lo: int, hi: int, j: int)
        requires
            self.wf(lo, hi),
            !self.is_leaf,
            0 <= j < self.keys@.len(),
        ensures
            self.entry_map().dom().contains(self.keys@[j]),
            self.entry_map()[self.keys@[j]] == self.values@[j],
    {
        self.lemma_entry_map_from_sep_key(lo, hi, 0, j);
    }

    /// Separator lookup along the partial chain.
    pub proof fn lemma_entry_map_from_sep_key(self, lo: int, hi: int, i: int, j: int)
        requires
            self.wf(lo, hi),
            !self.is_leaf,
            0 <= i <= j < self.keys@.len(),
        ensures
            self.entry_map_from(i).dom().contains(self.keys@[j]),
            self.entry_map_from(i)[self.keys@[j]] == self.values@[j],
        decreases j - i,
    {
        if i < j {
            self.lemma_entry_map_from_sep_key(lo, hi, i + 1, j);
            assert(self.keys@[i] != self.keys@[j]);
        }
    }

    /// A key strictly inside child `j`'s window is found in the subtree's map
    /// exactly when child `j` holds it, with the same value.
    pub proof fn lemma_entry_map_child_window(self, lo: int, hi: int, j: int, k: u64)
        requires
            self.wf(lo, hi),
            !self.is_leaf,
            0 <= j <= self.keys@.len(),
            self.lower(lo, j) < k < self.upper(hi, j),
        ensures
            self.entry_map().dom().contains(k) <==> self.children@[j].entry_map().dom().contains(
                k,
            ),
            self.children@[j].entry_map().dom().contains(k) ==> self.entry_map()[k]
                == self.children@[j].entry_map()[k],
    {
        self.lemma_entry_map_from_child_window(lo, hi, 0, j, k);
    }

    /// Child-window lookup along the partial chain.
    pub proof fn lemma_entry_map_from_child_window(self, lo: int, hi: int, i: int, j: int, k: u64)
        requires
            self.wf(lo, hi),
            !self.is_leaf,
            0 <= i <= j <= self.keys@.len(),
            self.lower(lo, j) < k < self.upper(hi, j),
        ensures
            self.entry_map_from(i).dom().contains(k) <==> self.children@[j].entry_map().dom()
                .contains(k),
            self.children@[j].entry_map().dom().contains(k) ==> self.entry_map_from(i)[k]
                == self.children@[j].entry_map()[k],
        decreases j - i,
    {
        let n = self.keys@.len() as int;
        if i == j {
            if i < n {
                assert(k != self.keys@[i]);
                self.lemma_entry_map_from_in_range(lo, hi, i + 1);
                assert(!self.entry_map_from(i + 1).dom().contains(k));
            }
        } else {
            // k lies beyond keys[i], so neither child i nor the separator holds it
            assert(self.keys@[i] <= self.keys@[j - 1]);
            assert(k != self.keys@[i]);
            self.children@[i].lemma_entry_map_in_range(self.lower(lo, i), self.upper(hi, i));
            assert(!self.children@[i].entry_map().dom().contains(k));
            self.lemma_entry_map_from_child_window(lo, hi, i + 1, j, k);
        }
    }

    /// A node whose fields are the suffix slices of `c`'s fields carries the
    /// corresponding tail of `c`'s partial chain.
    pub proof fn lemma_entry_map_suffix(c: Self, r: Self, m: int, i: int)
        requires
            !c.is_leaf,
            !r.is_leaf,
            c.children@.len() == c.keys@.len() + 1,
            c.values@.len() == c.keys@.len(),
            0 <= m <= c.keys@.len(),
            r.keys@ == c.keys@.subrange(m, c.keys@.len() as int),
            r.values@ == c.values@.subrange(m, c.values@.len() as int),
            r.children@ == c.children@.subrange(m, c.children@.len() as int),
        ensures
            forall|i: int|
                0 <= i <= r.keys@.len() ==> #[trigger] r.entry_map_from(i) == c.entry_map_from(
                    m + i,
                ),
        decreases c.keys@.len() - m,
    {
        assert forall|i: int|
            0 <= i <= r.keys@.len() implies #[trigger] r.entry_map_from(i) == c.entry_map_from(
            m + i,
        ) by {
            Self::lemma_entry_map_suffix_at(c, r, m, i);
        }
    }

    /// One index of the suffix-slice correspondence.
    pub proof fn lemma_entry_map_suffix_at(c: Self, r: Self, m: int, i: int)
        requires
            !c.is_leaf,
            !r.is_leaf,
            c.children@.len() == c.keys@.len() + 1,
            c.values@.len() == c.keys@.len(),
            0 <= m <= c.keys@.len(),
            r.keys@ == c.keys@.subrange(m, c.keys@.len() as int),
            r.values@ == c.values@.subrange(m, c.values@.len() as int),
            r.children@ == c.children@.subrange(m, c.children@.len() as int),
            0 <= i <= r.keys@.len(),
        ensures
            r.entry_map_from(i) == c.entry_map_from(m + i),
        decreases r.keys@.len() - i,
    {
        assert(r.children@[i] == c.children@[m + i]);
        if i < r.keys@.len() {
            Self::lemma_entry_map_suffix_at(c, r, m, i + 1);
            assert(r.keys@[i] == c.keys@[m + i]);
            assert(r.values@[i] == c.values@[m + i]);
        }
    }

    /// A node whose fields are the prefix slices of `self`'s chains, joined
    /// with the rest of `self`'s chain, reassembles the partial chain.
    pub proof fn lemma_entry_map_prefix(self, l: Self, lo: int, hi: int, m: int, i: int)
        requires
            self.wf(lo, hi),
            !self.is_leaf,
            !l.is_leaf,
            0 <= i <= m < self.keys@.len(),
            l.keys@ == self.keys@.subrange(0, m),
            l.values@ == self.values@.subrange(0, m),
            l.children@ == self.children@.subrange(0, m + 1),
        ensures
            self.entry_map_from(i) =~= l.entry_map_from(i).union_prefer_right(
                self.entry_map_from(m + 1),
            ).insert(self.keys@[m], self.values@[m]),
        decreases m - i,
    {
        let km = self.keys@[m];
        let vm = self.values@[m];
        let t_rest = self.entry_map_from(m + 1);
        self.lemma_entry_map_from_in_range(lo, hi, m + 1);
        if i == m {
            assert(l.keys@.len() == m);
            assert(l.children@[m] == self.children@[m]);
            assert(l.entry_map_from(m) == self.children@[m].entry_map());
        } else {
            self.lemma_entry_map_prefix(l, lo, hi, m, i + 1);
            assert(l.children@[i] == self.children@[i]);
            assert(l.keys@[i] == self.keys@[i]);
            assert(l.values@[i] == self.values@[i]);
            assert(self.keys@[i] < km);
            assert(!t_rest.dom().contains(self.keys@[i]));
        }
    }

    /// Re-binding one child's subtree map to `old.insert(k, v)` re-binds the
    /// partial chain the same way, when `k` lies in that child's window.
    pub proof fn lemma_entry_map_update_child(
        n1: Self,
        n2: Self,
        lo: int,
        hi: int,
        j: int,
        k: u64,
        v: V,
        i: int,
    )
        requires
            n1.wf(lo, hi),
            !n1.is_leaf,
            !n2.is_leaf,
            0 <= j <= n1.keys@.len(),
            n2.keys@ == n1.keys@,
            n2.values@ == n1.values@,
            n2.children@.len() == n1.children@.len(),
            forall|p: int|
                0 <= p < n1.children@.len() && p != j ==> n2.children@[p] == n1.children@[p],
            n2.children@[j].entry_map() =~= n1.children@[j].entry_map().insert(k, v),
            n1.lower(lo, j) < k < n1.upper(hi, j),
            0 <= i <= n1.keys@.len(),
        ensures
            i <= j ==> n2.entry_map_from(i) =~= n1.entry_map_from(i).insert(k, v),
            i > j ==> n2.entry_map_from(i) == n1.entry_map_from(i),
        decreases n1.keys@.len() - i,
    {
        let n = n1.keys@.len() as int;
        if i < n {
            Self::lemma_entry_map_update_child(n1, n2, lo, hi, j, k, v, i + 1);
        }
        if i > j {
            assert(n2.children@[i] == n1.children@[i]);
        } else if i == j {
            if i < n {
                assert(k != n1.keys@[i]);
                n1.lemma_entry_map_from_in_range(lo, hi, i + 1);
                assert(!n1.entry_map_from(i + 1).dom().contains(k));
            }
        } else {
            assert(n1.keys@[i] <= n1.keys@[j - 1]);
            assert(k != n1.keys@[i]);
            n1.children@[i].lemma_entry_map_in_range(n1.lower(lo, i), n1.upper(hi, i));
            assert(!n1.children@[i].entry_map().dom().contains(k));
            assert(n2.children@[i] == n1.children@[i]);
        }
    }

    /// After re-binding child `j` in place (its window, height and minimum
    /// occupancy kept), the whole node is well formed again and its contents
    /// gained exactly the new pair.
    pub proof fn lemma_restore_after_child_insert(
        mid: Self,
        n2: Self,
        lo: int,
        hi: int,
        j: int,
        k: u64,
        v: V,
    )
        requires
            mid.wf(lo, hi),
            !mid.is_leaf,
            !n2.is_leaf,
            0 <= j <= mid.keys@.len(),
            n2.keys@ == mid.keys@,
            n2.values@ == mid.values@,
            n2.min_degree == mid.min_degree,
            n2.children@.len() == mid.children@.len(),
            forall|p: int|
                0 <= p < mid.children@.len() && p != j ==> n2.children@[p] == mid.children@[p],
            n2.children@[j].wf(mid.lower(lo, j), mid.upper(hi, j)),
            n2.children@[j].entry_map() =~= mid.children@[j].entry_map().insert(k, v),
            n2.children@[j].min_degree == mid.children@[j].min_degree,
            n2.children@[j].height() == mid.children@[j].height(),
            n2.children@[j].keys@.len() >= mid.children@[j].keys@.len(),
            mid.lower(lo, j) < k < mid.upper(hi, j),
        ensures
            n2.wf(lo, hi),
            n2.entry_map() =~= mid.entry_map().insert(k, v),
            n2.height() == mid.height(),
    {
        Self::lemma_entry_map_update_child(mid, n2, lo, hi, j, k, v, 0);
        assert(n2.wf(lo, hi)) by {
            assert forall|p: int| 0 <= p <= n2.keys@.len() implies (
                #[trigger] n2.children@[p]).wf(n2.lower(lo, p), n2.upper(hi, p)) by {
                if p != j {
                    assert(n2.children@[p] == mid.children@[p]);
                }
                assert(mid.children@[p].wf(mid.lower(lo, p), mid.upper(hi, p)));
            }
            assert forall|p: int| 0 <= p <= n2.keys@.len() implies (
                #[trigger] n2.children@[p]).height() == n2.children@[0].height() by {
                if p != j {
                    assert(n2.children@[p] == mid.children@[p]);
                }
                if j != 0 {
                    assert(n2.children@[0] == mid.children@[0]);
                }
                assert(mid.children@[p].height() == mid.children@[0].height());
            }
            assert forall|p: int| 0 <= p <= n2.keys@.len() implies (
                #[trigger] n2.children@[p]).min_degree == n2.min_degree by {
                if p != j {
                    assert(n2.children@[p] == mid.children@[p]);
                }
                assert(mid.children@[p].min_degree == mid.min_degree);
            }
            assert forall|p: int| 0 <= p <= n2.keys@.len() implies (
                #[trigger] n2.children@[p]).keys@.len() >= n2.min_degree - 1 by {
                if p != j {
                    assert(n2.children@[p] == mid.children@[p]);
                }
                assert(mid.children@[p].keys@.len() >= mid.min_degree - 1);
            }
        };
        assert(n2.height() == mid.height()) by {
            if j != 0 {
                assert(n2.children@[0] == mid.children@[0]);
            }
            assert(n2.children@[0].height() == mid.children@[0].height());
        };
    }

    /// Overwriting the separator value at `j` re-binds exactly `keys[j]` in
    /// the partial chain.
    pub proof fn lemma_entry_map_update_value(
        n1: Self,
        n2: Self,
        lo: int,
        hi: int,
        j: int,
        v: V,
        i: int,
    )
        requires
            n1.wf(lo, hi),
            !n1.is_leaf,
            !n2.is_leaf,
            0 <= j < n1.keys@.len(),
            n2.keys@ == n1.keys@,
            n2.values@ == n1.values@.update(j, v),
            n2.children@ == n1.children@,
            0 <= i <= n1.keys@.len(),
        ensures
            i <= j ==> n2.entry_map_from(i) =~= n1.entry_map_from(i).insert(n1.keys@[j], v),
            i > j ==> n2.entry_map_from(i) == n1.entry_map_from(i),
        decreases n1.keys@.len() - i,
    {
        let n = n1.keys@.len() as int;
        if i < n {
            Self::lemma_entry_map_update_value(n1, n2, lo, hi, j, v, i + 1);
        }
        if i > j {
            if i < n {
                assert(n2.values@[i] == n1.values@[i]);
            }
        } else if i == j {
            assert(n2.values@[i] == v);
        } else {
            assert(n1.keys@[i] < n1.keys@[j]);
            assert(n2.values@[i] == n1.values@[i]);
        }
    }

    /// Replacing child `x` by two children that reassemble it around a
    /// promoted median pair leaves the partial chain's contents unchanged.
    pub proof fn lemma_entry_map_split(
        n1: Self,
        n2: Self,
        lo: int,
        hi: int,
        x: int,
        mk: u64,
        mv: V,
        i: int,
    )
        requires
            n1.wf(lo, hi),
            !n1.is_leaf,
            !n2.is_leaf,
            0 <= x <= n1.keys@.len(),
            n2.keys@ == n1.keys@.insert(x, mk),
            n2.values@ == n1.values@.insert(x, mv),
            n2.children@.len() == n1.children@.len() + 1,
            forall|p: int| 0 <= p < x ==> n2.children@[p] == n1.children@[p],
            forall|p: int|
                x + 2 <= p < n2.children@.len() ==> n2.children@[p] == n1.children@[p - 1],
            n1.children@[x].entry_map() =~= n2.children@[x].entry_map().union_prefer_right(
                n2.children@[x + 1].entry_map(),
            ).insert(mk, mv),
            n1.lower(lo, x) < mk < n1.upper(hi, x),
            forall|k: u64|
                #[trigger] n2.children@[x].entry_map().dom().contains(k) ==> n1.lower(lo, x) < k
                    < mk,
            forall|k: u64|
                #[trigger] n2.children@[x + 1].entry_map().dom().contains(k) ==> mk < k
                    < n1.upper(hi, x),
            0 <= i <= n1.keys@.len(),
        ensures
            i <= x ==> n2.entry_map_from(i) =~= n1.entry_map_from(i),
            i > x ==> n2.entry_map_from(i + 1) == n1.entry_map_from(i),
        decreases n1.keys@.len() - i,
    {
        let n = n1.keys@.len() as int;
        if i < n {
            Self::lemma_entry_map_split(n1, n2, lo, hi, x, mk, mv, i + 1);
        }
        if i > x {
            assert(n2.children@[i + 1] == n1.children@[i]);
            if i < n {
                assert(n2.keys@[i + 1] == n1.keys@[i]);
                assert(n2.values@[i + 1] == n1.values@[i]);
            }
        } else if i == x {
            let lmap = n2.children@[x].entry_map();
            let rmap = n2.children@[x + 1].entry_map();
            assert(n2.keys@[x] == mk);
            assert(n2.values@[x] == mv);
            if x == n {
                assert(n2.entry_map_from(x + 1) == rmap);
                assert(n1.entry_map_from(x) == n1.children@[x].entry_map());
                assert(n2.entry_map_from(x) =~= n1.entry_map_from(x));
            } else {
                let kx = n1.keys@[x];
                let vx = n1.values@[x];
                assert(n2.keys@[x + 1] == kx);
                assert(n2.values@[x + 1] == vx);
                let t_rest = n1.entry_map_from(x + 1);
                n1.lemma_entry_map_from_in_range(lo, hi, x + 1);
                assert(mk < kx);
                assert(!t_rest.dom().contains(mk));
                // the right half holds only keys below keys[x]
                assert forall|k: u64| #[trigger] rmap.dom().contains(k) implies k != kx by {}
                assert(n2.entry_map_from(x + 1) == rmap.union_prefer_right(t_rest).insert(kx, vx));
                assert(n2.entry_map_from(x) == lmap.union_prefer_right(
                    rmap.union_prefer_right(t_rest).insert(kx, vx),
                ).insert(mk, mv));
                assert(n1.entry_map_from(x) =~= lmap.union_prefer_right(rmap).insert(
                    mk,
                    mv,
                ).union_prefer_right(t_rest).insert(kx, vx));
                assert(n2.entry_map_from(x) =~= n1.entry_map_from(x));
            }
        } else {
            // i < x: identical head, re-bound tail
            assert(n2.children@[i] == n1.children@[i]);
            assert(n2.keys@[i] == n1.keys@[i]);
            assert(n2.values@[i] == n1.values@[i]);
        }
    }

    /// A fresh node with no entries.
    pub fn new(min_degree: usize, is_leaf: bool) -> (node: Self)
        ensures
            node.keys@ == Seq::<u64>::empty(),
            node.values@ == Seq::<V>::empty(),
            node.children@ == Seq::<Box<BTreeNode<V>>>::empty(),
            node.is_leaf == is_leaf,
            node.min_degree == min_degree,
            node.entry_map() == Map::<u64, V>::empty(),
            min_degree >= 2 && min_degree <= usize::MAX / 2 && is_leaf ==> forall|lo: int, hi: int|
                node.wf(lo, hi),
    {
        let node = BTreeNode {
            keys: Vec::new(),
            values: Vec::new(),
            children: Vec::new(),
            is_leaf,
            min_degree,
        };
        proof {
            assert(node.entry_map() =~= Map::<u64, V>::empty());
        }
        node
    }

    /// Insert `(key, value)` into the subtree rooted at this non-full node,
    /// overwriting in place when `key` is already bound. Any full child met
    /// on the way down is split before the descent enters it, so all
    /// structural mutation happens on the downward path.
    #[verifier::rlimit(100)]
    pub fn insert_non_full(
        &mut self,
        key: u64,
        value: V,
        Ghost(lo): Ghost<int>,
        Ghost(hi): Ghost<int>,
    )
        requires
            old(self).wf(lo, hi),
            lo < key < hi,
            old(self).keys@.len() < 2 * old(self).min_degree - 1,
        ensures
            final(self).wf(lo, hi),
            final(self).entry_map() == old(self).entry_map().insert(key, value),
            final(self).min_degree == old(self).min_degree,
            final(self).is_leaf == old(self).is_leaf,
            final(self).height() == old(self).height(),
            old(self).keys@.len() <= final(self).keys@.len() <= old(self).keys@.len() + 1,
            old(self).is_leaf ==> final(self).keys@.len() >= 1,
        decreases old(self).height(),
    {
        let pos = find_pos(&self.keys, key);
        if pos < self.keys.len() && self.keys[pos] == key {
            // the key is already bound right here: overwrite in place
            self.values[pos] = value;
            proof {
                if old(self).is_leaf {
                    Self::lemma_kv_update(old(self).keys@, old(self).values@, pos as int, value);
                } else {
                    Self::lemma_entry_map_update_value(
                        *old(self),
                        *self,
                        lo,
                        hi,
                        pos as int,
                        value,
                        0,
                    );
                }
                assert(self.wf(lo, hi));
                assert(self.entry_map() =~= old(self).entry_map().insert(key, value));
            }
            return ;
        }
        if self.is_leaf {
            self.keys.insert(pos, key);
            self.values.insert(pos, value);
            proof {
                assert(!old(self).keys@.contains(key)) by {
                    if old(self).keys@.contains(key) {
                        let i = choose|i: int|
                            0 <= i < old(self).keys@.len() && old(self).keys@[i] == key;
                        if i > pos {
                            assert(old(self).keys@[pos as int] < old(self).keys@[i]);
                        }
                    }
                };
                Self::lemma_kv_insert(old(self).keys@, old(self).values@, pos as int, key, value);
                assert(self.wf(lo, hi)) by {
                    assert forall|p: int, q: int|
                        0 <= p < q < self.keys@.len() implies #[trigger] self.keys@[p]
                        < #[trigger] self.keys@[q] by {
                        if q == pos {
                            assert(self.keys@[p] == old(self).keys@[p]);
                        } else if p == pos && q > pos {
                            assert(self.keys@[q] == old(self).keys@[q - 1]);
                            assert(old(self).keys@[pos as int] > key || pos == old(
                                self,
                            ).keys@.len());
                        }
                    }
                };
                assert(self.entry_map() =~= old(self).entry_map().insert(key, value));
            }
            return ;
        }
        // internal node: pick the child to enter, splitting it first if full
        let mut idx = pos;
        if self.children[pos].keys.len() == 2 * self.min_degree - 1 {
            self.split_child(pos, Ghost(lo), Ghost(hi));
            if self.keys[pos] < key {
                idx = pos + 1;
            } else if key == self.keys[pos] {
                // the promoted median is the key itself: overwrite its value
                let ghost mid = *self;
                self.values[pos] = value;
                proof {
                    Self::lemma_entry_map_update_value(mid, *self, lo, hi, pos as int, value, 0);
                    assert(self.wf(lo, hi));
                    assert(self.entry_map() =~= old(self).entry_map().insert(key, value));
                    assert(self.height() == mid.height()) by {
                        assert(self.children@[0].height() == mid.children@[0].height());
                    };
                }
                return ;
            }
        }
        let ghost mid = *self;
        proof {
            assert(mid.wf(lo, hi));
            assert(mid.entry_map() == old(self).entry_map());
            assert(mid.lower(lo, idx as int) < key < mid.upper(hi, idx as int));
            assert(mid.children@[idx as int].wf(mid.lower(lo, idx as int), mid.upper(hi, idx as int)));
            assert(mid.children@[idx as int].min_degree == mid.min_degree);
            assert(mid.children@[idx as int].keys@.len() < 2 * mid.min_degree - 1);
        }
        let ghost cl = mid.lower(lo, idx as int);
        let ghost ch = mid.upper(hi, idx as int);
        let mut c = self.children.remove(idx);
        proof {
            assert(*c == *mid.children@[idx as int]);
            assert(c.wf(cl, ch));
            assert(c.height() < old(self).height()) by {
                assert(c.height() == mid.children@[0].height());
            };
        }
        (&mut *c).insert_non_full(key, value, Ghost(cl), Ghost(ch));
        self.children.insert(idx, c);
        proof {
            assert(self.keys@ == mid.keys@);
            assert(self.values@ == mid.values@);
            assert(self.children@.len() == mid.children@.len());
            assert forall|p: int|
                0 <= p < mid.children@.len() && p != idx as int implies self.children@[p]
                == mid.children@[p] by {}
            assert(*self.children@[idx as int] == *c);
            Self::lemma_restore_after_child_insert(mid, *self, lo, hi, idx as int, key, value);
            assert(self.entry_map() =~= old(self).entry_map().insert(key, value));
        }
    }

    /// Append every key of this subtree to `out` in in-order, keeping the
    /// whole vector strictly sorted.
    #[verifier::loop_isolation(false)]
    pub fn collect_keys(
        &self,
        out: &mut Vec<u64>,
        Ghost(lo): Ghost<int>,
        Ghost(hi): Ghost<int>,
    )
        requires
            self.wf(lo, hi),
            lo < hi,
            sorted_strict(old(out)@),
            forall|j: int| 0 <= j < old(out)@.len() ==> old(out)@[j] <= lo,
        ensures
            sorted_strict(final(out)@),
            forall|j: int| 0 <= j < final(out)@.len() ==> final(out)@[j] < hi,
            forall|k: u64|
                final(out)@.contains(k) <==> old(out)@.contains(k)
                    || self.entry_map().dom().contains(k),
        decreases self.height(),
    {
        if self.is_leaf {
            let mut i: usize = 0;
            while i < self.keys.len()
                invariant
                    0 <= i <= self.keys@.len(),
                    out@ == old(out)@ + self.keys@.subrange(0, i as int),
                decreases self.keys@.len() - i,
            {
                let k = self.keys[i];
                out.push(k);
                proof {
                    assert(out@ =~= old(out)@ + self.keys@.subrange(0, i as int + 1));
                }
                i = i + 1;
            }
            proof {
                assert(out@ == old(out)@ + self.keys@) by {
                    assert(self.keys@.subrange(0, self.keys@.len() as int) =~= self.keys@);
                };
                Self::lemma_kv_dom(self.keys@, self.values@);
                assert forall|k: u64|
                    out@.contains(k) <==> old(out)@.contains(k)
                        || self.entry_map().dom().contains(k) by {
                    assert(Self::kv_map(self.keys@, self.values@).dom().contains(k)
                        <==> self.keys@.contains(k));
                    if out@.contains(k) {
                        let j = choose|j: int| 0 <= j < out@.len() && out@[j] == k;
                        if j < old(out)@.len() {
                            assert(old(out)@[j] == k);
                        } else {
                            assert(self.keys@[j - old(out)@.len()] == k);
                        }
                    }
                    if old(out)@.contains(k) {
                        let j = choose|j: int| 0 <= j < old(out)@.len() && old(out)@[j] == k;
                        assert(out@[j] == k);
                    }
                    if self.keys@.contains(k) {
                        let j = choose|j: int| 0 <= j < self.keys@.len() && self.keys@[j] == k;
                        assert(out@[old(out)@.len() + j] == k);
                    }
                }
            }
            return ;
        }
        proof {
            self.lemma_entry_map_in_range(lo, hi);
        }
        let n = self.keys.len();
        let mut i: usize = 0;
        while i < n
            invariant
                0 <= i <= n,
                sorted_strict(out@),
                forall|j: int| 0 <= j < out@.len() ==> out@[j] <= self.lower(lo, i as int),
                forall|k: u64|
                    out@.contains(k) <==> old(out)@.contains(k) || (
                    self.entry_map().dom().contains(k) && k <= self.lower(lo, i as int)),
            decreases n - i,
        {
            let ghost cl = self.lower(lo, i as int);
            let ghost ch = self.upper(hi, i as int);
            proof {
                assert(self.children@[i as int].wf(cl, ch));
                assert(cl < ch) by {
                    assert(self.children@[i as int].keys@.len() >= self.min_degree - 1);
                    assert(cl < self.children@[i as int].keys@[0] < ch);
                };
                assert(self.children@[i as int].height() < self.height()) by {
                    assert(self.children@[i as int].height() == self.children@[0].height());
                };
            }
            let ghost pre = out@;
            let c = &self.children[i];
            c.collect_keys(out, Ghost(cl), Ghost(ch));
            let ghost mid = out@;
            let kk = self.keys[i];
            out.push(kk);
            proof {
                let ii = i as int;
                self.children@[ii].lemma_entry_map_in_range(cl, ch);
                self.lemma_entry_map_sep_key(lo, hi, ii);
                assert(out@ == mid.push(kk));
                assert(cl < kk < hi);
                assert(sorted_strict(out@)) by {
                    assert(forall|j: int| 0 <= j < mid.len() ==> mid[j] < kk);
                    assert(forall|j: int| 0 <= j < out@.len() - 1 ==> out@[j] == mid[j]);
                    assert(out@[out@.len() - 1] == kk);
                };
                assert(forall|j: int| 0 <= j < out@.len() ==> out@[j] <= self.lower(lo, ii + 1));
                assert forall|k: u64|
                    out@.contains(k) <==> old(out)@.contains(k) || (
                    self.entry_map().dom().contains(k) && k <= self.lower(lo, ii + 1)) by {
                    if cl < k < ch {
                        self.lemma_entry_map_child_window(lo, hi, ii, k);
                    }
                    assert(out@.contains(k) <==> mid.contains(k) || k == kk) by {
                        if out@.contains(k) {
                            let j = choose|j: int| 0 <= j < out@.len() && out@[j] == k;
                            if j < out@.len() - 1 {
                                assert(mid[j] == k);
                            }
                        }
                        if mid.contains(k) {
                            let j = choose|j: int| 0 <= j < mid.len() && mid[j] == k;
                            assert(out@[j] == k);
                        }
                        assert(out@[out@.len() - 1] == kk);
                    };
                    assert(mid.contains(k) <==> pre.contains(k) || self.children@[
                        ii
                    ].entry_map().dom().contains(k));
                }
            }
            i = i + 1;
        }
        let ghost cl = self.lower(lo, n as int);
        proof {
            assert(self.children@[n as int].wf(cl, hi));
            assert(cl < hi) by {
                assert(self.children@[n as int].keys@.len() >= self.min_degree - 1);
                assert(cl < self.children@[n as int].keys@[0] < hi);
            };
            assert(self.children@[n as int].height() < self.height()) by {
                assert(self.children@[n as int].height() == self.children@[0].height());
            };
        }
        let ghost pre2 = out@;
        let c = &self.children[n];
        c.collect_keys(out, Ghost(cl), Ghost(hi));
        proof {
            let nn = n as int;
            self.children@[nn].lemma_entry_map_in_range(cl, hi);
            assert forall|k: u64|
                out@.contains(k) <==> old(out)@.contains(k)
                    || self.entry_map().dom().contains(k) by {
                if cl < k < hi {
                    self.lemma_entry_map_child_window(lo, hi, nn, k);
                }
                assert(out@.contains(k) <==> pre2.contains(k) || self.children@[
                    nn
                ].entry_map().dom().contains(k));
            }
        }
    }

    /// Split the full child at `index` around its median: the child keeps its
    /// first `t - 1` pairs (and first `t` subtrees), a new right sibling takes
    /// the last `t - 1` pairs (and last `t` subtrees), and the median pair is
    /// promoted into this node at position `index`.
    pub fn split_child(&mut self, index: usize, Ghost(lo): Ghost<int>, Ghost(hi): Ghost<int>)
        requires
            old(self).wf(lo, hi),
            !old(self).is_leaf,
            index < old(self).children@.len(),
            old(self).children@[index as int].keys@.len() == 2 * old(self).min_degree - 1,
            old(self).keys@.len() < 2 * old(self).min_degree - 1,
        ensures
            final(self).wf(lo, hi),
            final(self).entry_map() == old(self).entry_map(),
            final(self).min_degree == old(self).min_degree,
            final(self).is_leaf == old(self).is_leaf,
            final(self).height() == old(self).height(),
            final(self).keys@ == old(self).keys@.insert(
                index as int,
                old(self).children@[index as int].keys@[old(self).min_degree - 1],
            ),
            final(self).children@.len() == old(self).children@.len() + 1,
            final(self).children@[index as int].keys@.len() == old(self).min_degree - 1,
            final(self).children@[index as int + 1].keys@.len() == old(self).min_degree - 1,
        {
        let t = self.min_degree;
        let ghost n = old(self).keys@.len() as int;
        let ghost cl = old(self).lower(lo, index as int);
        let ghost ch = old(self).upper(hi, index as int);
        let mut child = self.children.remove(index);
        let ghost c_old = *child;
        proof {
            assert(c_old.wf(cl, ch));
        }
        let mut sib = BTreeNode::new(t, child.is_leaf);
        sib.keys = child.keys.split_off(t);
        sib.values = child.values.split_off(t);
        if !child.is_leaf {
            sib.children = child.children.split_off(t);
        }
        let med_k = child.keys.pop().unwrap();
        let med_v = child.values.pop().unwrap();
        proof {
            let tt = t as int;
            assert(child.keys@ == c_old.keys@.subrange(0, tt - 1));
            assert(child.values@ == c_old.values@.subrange(0, tt - 1));
            assert(sib.keys@ == c_old.keys@.subrange(tt, 2 * tt - 1));
            assert(sib.values@ == c_old.values@.subrange(tt, 2 * tt - 1));
            assert(med_k == c_old.keys@[tt - 1]);
            assert(med_v == c_old.values@[tt - 1]);
            assert(cl < med_k < ch);
            // the two halves are well formed on the windows split by the median
            assert(child.wf(cl, med_k as int)) by {
                if !c_old.is_leaf {
                    assert(child.children@ == c_old.children@.subrange(0, tt));
                    assert forall|i: int| 0 <= i <= tt - 1 implies (
                        #[trigger] child.children@[i]).wf(
                        child.lower(cl, i),
                        child.upper(med_k as int, i),
                    ) by {
                        assert(child.children@[i] == c_old.children@[i]);
                        assert(c_old.children@[i].wf(c_old.lower(cl, i), c_old.upper(ch, i)));
                        assert(child.lower(cl, i) == c_old.lower(cl, i));
                        assert(child.upper(med_k as int, i) == c_old.upper(ch, i));
                    }
                }
            };
            assert(sib.wf(med_k as int, ch)) by {
                if !c_old.is_leaf {
                    assert(sib.children@ == c_old.children@.subrange(tt, 2 * tt));
                    assert forall|i: int| 0 <= i <= tt - 1 implies (#[trigger] sib.children@[i]).wf(
                        sib.lower(med_k as int, i),
                        sib.upper(ch, i),
                    ) by {
                        assert(sib.children@[i] == c_old.children@[tt + i]);
                        assert(c_old.children@[tt + i].wf(
                            c_old.lower(cl, tt + i),
                            c_old.upper(ch, tt + i),
                        ));
                        assert(sib.lower(med_k as int, i) == c_old.lower(cl, tt + i));
                        assert(sib.upper(ch, i) == c_old.upper(ch, tt + i));
                    }
                    assert forall|i: int| 0 <= i <= tt - 1 implies (
                        #[trigger] sib.children@[i]).height() == sib.children@[0].height() by {
                        assert(sib.children@[i] == c_old.children@[tt + i]);
                        assert(sib.children@[0] == c_old.children@[tt]);
                    }
                }
            };
            // both halves keep the split child's subtree height
            assert(child.height() == c_old.height()) by {
                if !c_old.is_leaf {
                    assert(child.children@[0] == c_old.children@[0]);
                }
            };
            assert(sib.height() == c_old.height()) by {
                if !c_old.is_leaf {
                    assert(sib.children@[0] == c_old.children@[tt]);
                    assert(c_old.children@[tt].height() == c_old.children@[0].height());
                }
            };
            // the halves and the median together hold exactly the old entries
            assert(c_old.entry_map() =~= child.entry_map().union_prefer_right(
                sib.entry_map(),
            ).insert(med_k, med_v)) by {
                if c_old.is_leaf {
                    let lk = child.keys@.push(med_k);
                    let lv = child.values@.push(med_v);
                    assert(c_old.keys@ =~= lk + sib.keys@);
                    assert(c_old.values@ =~= lv + sib.values@);
                    Self::lemma_kv_concat(lk, lv, sib.keys@, sib.values@);
                    assert(lk.drop_last() =~= child.keys@);
                    assert(lv.drop_last() =~= child.values@);
                    assert(Self::kv_map(lk, lv) == Self::kv_map(child.keys@, child.values@).insert(
                        med_k,
                        med_v,
                    ));
                    Self::lemma_kv_dom(sib.keys@, sib.values@);
                    assert(!Self::kv_map(sib.keys@, sib.values@).dom().contains(med_k)) by {
                        if Self::kv_map(sib.keys@, sib.values@).dom().contains(med_k) {
                            let i = choose|i: int|
                                0 <= i < sib.keys@.len() && sib.keys@[i] == med_k;
                            assert(c_old.keys@[tt + i] == med_k);
                            assert(c_old.keys@[tt - 1] < c_old.keys@[tt + i]);
                        }
                    };
                } else {
                    Self::lemma_entry_map_suffix(c_old, sib, tt, 0);
                    assert(sib.entry_map_from(0) == c_old.entry_map_from(tt));
                    assert(sib.entry_map() == c_old.entry_map_from(tt));
                    c_old.lemma_entry_map_prefix(*child, cl, ch, tt - 1, 0);
                    assert(child.entry_map() == child.entry_map_from(0));
                }
            };
            child.lemma_entry_map_in_range(cl, med_k as int);
            sib.lemma_entry_map_in_range(med_k as int, ch);
        }
        self.keys.insert(index, med_k);
        self.values.insert(index, med_v);
        self.children.insert(index, Box::new(sib));
        self.children.insert(index, child);
        proof {
            let x = index as int;
            let n1 = *old(self);
            let n2 = *self;
            assert(n2.keys@ == n1.keys@.insert(x, med_k));
            assert(n2.values@ == n1.values@.insert(x, med_v));
            assert(n2.children@.len() == n1.children@.len() + 1);
            assert forall|p: int| 0 <= p < x implies n2.children@[p] == n1.children@[p] by {}
            assert forall|p: int| x + 2 <= p < n2.children@.len() implies n2.children@[p]
                == n1.children@[p - 1] by {}
            assert(*n2.children@[x] == *child);
            assert(*n2.children@[x + 1] == sib);
            Self::lemma_entry_map_split(n1, n2, lo, hi, x, med_k, med_v, 0);
            assert(n2.entry_map() == n1.entry_map());
            // well-formedness of the widened node
            assert(n2.wf(lo, hi)) by {
                assert forall|p: int, q: int| 0 <= p < q < n + 1 implies #[trigger] n2.keys@[p]
                    < #[trigger] n2.keys@[q] by {
                    assert(cl < med_k < ch);
                }
                assert forall|p: int| 0 <= p < n + 1 implies lo < #[trigger] n2.keys@[p] < hi by {}
                assert forall|p: int| 0 <= p <= n + 1 implies (#[trigger] n2.children@[p]).wf(
                    n2.lower(lo, p),
                    n2.upper(hi, p),
                ) by {
                    if p < x {
                        assert(n2.children@[p] == n1.children@[p]);
                        assert(n1.children@[p].wf(n1.lower(lo, p), n1.upper(hi, p)));
                        assert(n2.lower(lo, p) == n1.lower(lo, p));
                        assert(n2.upper(hi, p) == n1.upper(hi, p));
                    } else if p == x {
                        assert(n2.lower(lo, p) == cl);
                        assert(n2.upper(hi, p) == med_k as int);
                    } else if p == x + 1 {
                        assert(n2.lower(lo, p) == med_k as int);
                        assert(n2.upper(hi, p) == ch);
                    } else {
                        assert(n2.children@[p] == n1.children@[p - 1]);
                        assert(n1.children@[p - 1].wf(n1.lower(lo, p - 1), n1.upper(hi, p - 1)));
                        assert(n2.lower(lo, p) == n1.lower(lo, p - 1));
                        assert(n2.upper(hi, p) == n1.upper(hi, p - 1));
                    }
                }
                assert forall|p: int| 0 <= p <= n + 1 implies (
                    #[trigger] n2.children@[p]).min_degree == n2.min_degree by {}
                assert forall|p: int| 0 <= p <= n + 1 implies (
                    #[trigger] n2.children@[p]).keys@.len() >= n2.min_degree - 1 by {}
                assert forall|p: int| 0 <= p <= n + 1 implies (#[trigger] n2.children@[p]).height()
                    == n2.children@[0].height() by {
                    assert(child.height() == c_old.height());
                    assert(sib.height() == c_old.height());
                    assert(c_old.height() == n1.children@[0].height());
                    if p != x && p != x + 1 {
                        if p < x {
                            assert(n2.children@[p] == n1.children@[p]);
                        } else {
                            assert(n2.children@[p] == n1.children@[p - 1]);
                        }
                    }
                }
            };
            assert(n2.height() == n1.height()) by {
                assert(n2.children@[0].height() == n1.children@[0].height());
            };
        }
    }
}

/// Whether a sequence of keys is strictly increasing.
pub open spec fn sorted_strict(s: Seq<u64>) -> bool {
    forall|p: int, q: int| 0 <= p < q < s.len() ==> s[p] < s[q]
}

/// The smallest index whose key is `>= key`, or `keys.len()` if every key is
/// smaller.
pub fn find_pos(keys: &Vec<u64>, key: u64) -> (pos: usize)
    ensures
        0 <= pos <= keys@.len(),
        forall|i: int| 0 <= i < pos ==> #[trigger] keys@[i] < key,
        pos < keys@.len() ==> keys@[pos as int] >= key,
{
    let mut i: usize = 0;
    while i < keys.len()
        invariant
            0 <= i <= keys@.len(),
            forall|j: int| 0 <= j < i ==> #[trigger] keys@[j] < key,
        decreases keys@.len() - i,
    {
        if keys[i] >= key {
            return i;
        }
        i = i + 1;
    }
    i
}

} // verus!
