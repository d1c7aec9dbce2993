//! The tree-wide laws, stated as public proof functions over the same spec
//! functions that the operations' contracts use: the per-node invariants,
//! the separation of child subtrees, the equal depth of all leaves, and the
//! view-level round trip of `insert` followed by `search`.

use crate::map::BTreeMap;
use crate::node::BTreeNode;
use vstd::arithmetic::power::lemma_pow0;
use vstd::arithmetic::power::lemma_pow1;
use vstd::arithmetic::power::lemma_pow_adds;
use vstd::arithmetic::power::lemma_pow_positive;
use vstd::arithmetic::power::pow;
use vstd::prelude::*;
use vstd::set_lib::lemma_set_disjoint_lens;

verus! {

broadcast use vstd::set::group_set_axioms;

impl<V> BTreeNode<V> {
    /// Keys within a well-formed node are strictly increasing, `values` runs
    /// parallel to `keys`, a leaf has no children while an internal node has
    /// exactly `keys.len() + 1`, and every node stays within the occupancy
    /// bounds: at most `2t - 1` keys here, at least `t - 1` in every child.
    pub proof fn lemma_node_shape(self, lo: int, hi: int)
        requires
            self.wf(lo, hi),
        ensures
            forall|i: int, j: int|
                0 <= i < j < self.keys@.len() ==> #[trigger] self.keys@[i]
                    < #[trigger] self.keys@[j],
            self.values@.len() == self.keys@.len(),
            self.is_leaf ==> self.children@.len() == 0,
            !self.is_leaf ==> self.children@.len() == self.keys@.len() + 1,
            self.keys@.len() <= 2 * self.min_degree - 1,
            forall|i: int|
                0 <= i < self.children@.len() ==> (#[trigger] self.children@[i]).keys@.len()
                    >= self.min_degree - 1,
    {
    }

    /// Separation across subtrees of an internal node: every key in child
    /// `j`'s subtree lies strictly between the neighbouring separator keys
    /// `keys[j - 1]` and `keys[j]` (with the node's own bounds at the ends).
    pub proof fn lemma_child_separation(self, lo: int, hi: int, j: int)
        requires
            self.wf(lo, hi),
            !self.is_leaf,
            0 <= j <= self.keys@.len(),
        ensures
            forall|k: u64|
                #[trigger] self.children@[j].entry_map().dom().contains(k) ==> self.lower(lo, j)
                    < k < self.upper(hi, j),
    {
        self.children@[j].lemma_entry_map_in_range(self.lower(lo, j), self.upper(hi, j));
    }

    /// Whether every leaf of this subtree sits exactly `d` levels down.
    pub open spec fn all_leaves_at_depth(self, d: int) -> bool
        decreases self,
    {
        if self.is_leaf {
            d == 1
        } else {
            forall|i: int|
                0 <= i < self.children@.len() ==> (
                #[trigger] self.children@[i]).all_leaves_at_depth(d - 1)
        }
    }

    /// All leaves of a well-formed subtree are at the same depth: its height.
    pub proof fn lemma_leaves_equal_depth(self, lo: int, hi: int)
        requires
            self.wf(lo, hi),
        ensures
            self.all_leaves_at_depth(self.height() as int),
        decreases self,
    {
        if !self.is_leaf {
            assert forall|i: int| 0 <= i < self.children@.len() implies (
                #[trigger] self.children@[i]).all_leaves_at_depth(
                self.height() as int - 1,
            ) by {
                assert(self.children@[i].wf(self.lower(lo, i), self.upper(hi, i)));
                self.children@[i].lemma_leaves_equal_depth(self.lower(lo, i), self.upper(hi, i));
                assert(self.children@[i].height() == self.children@[0].height());
            }
        }
    }
}

impl<V> BTreeNode<V> {
    /// With distinct keys, `kv_map` binds exactly `keys.len()` keys.
    pub proof fn lemma_kv_dom_len(keys: Seq<u64>, values: Seq<V>)
        requires
            keys.len() == values.len(),
            forall|p: int, q: int| 0 <= p < q < keys.len() ==> keys[p] != keys[q],
        ensures
            Self::kv_map(keys, values).dom().finite(),
            Self::kv_map(keys, values).dom().len() == keys.len(),
        decreases keys.len(),
    {
        if keys.len() > 0 {
            Self::lemma_kv_dom_len(keys.drop_last(), values.drop_last());
            Self::lemma_kv_dom(keys.drop_last(), values.drop_last());
            assert(!Self::kv_map(keys.drop_last(), values.drop_last()).dom().contains(
                keys.last(),
            )) by {
                if keys.drop_last().contains(keys.last()) {
                    let i = choose|i: int|
                        0 <= i < keys.drop_last().len() && keys.drop_last()[i] == keys.last();
                    assert(keys[i] == keys[keys.len() - 1]);
                }
            };
        }
    }

    /// Minimum occupancy of the partial chain of an internal node: each of
    /// the remaining subtrees contributes at least `t^(h-1) - 1` keys, plus
    /// the remaining separators.
    pub proof fn lemma_count_from(self, lo: int, hi: int, i: int)
        requires
            self.wf(lo, hi),
            !self.is_leaf,
            0 <= i <= self.keys@.len(),
        ensures
            self.entry_map_from(i).dom().finite(),
            self.entry_map_from(i).dom().len() >= (self.keys@.len() - i) + (self.keys@.len() + 1
                - i) * (pow(self.min_degree as int, (self.height() - 1) as nat) - 1),
        decreases self, self.keys@.len() - i,
    {
        let n = self.keys@.len() as int;
        let t = self.min_degree as int;
        let p = pow(t, (self.height() - 1) as nat);
        lemma_pow_positive(t, (self.height() - 1) as nat);
        let child = self.children@[i];
        assert(child.wf(self.lower(lo, i), self.upper(hi, i)));
        assert(child.keys@.len() >= t - 1);
        assert(child.height() == self.height() - 1) by {
            assert(child.height() == self.children@[0].height());
        };
        child.lemma_count_subtree(self.lower(lo, i), self.upper(hi, i));
        let cd = child.entry_map().dom();
        assert(cd.len() >= p - 1);
        if i == n {
            assert(self.entry_map_from(i) == child.entry_map());
            assert((n + 1 - i) * (p - 1) == p - 1) by (nonlinear_arith)
                requires
                    i == n,
            ;
        } else {
            self.lemma_count_from(lo, hi, i + 1);
            let rd = self.entry_map_from(i + 1).dom();
            let kk = self.keys@[i];
            // the three components are disjoint: child below keys[i], rest above
            child.lemma_entry_map_in_range(self.lower(lo, i), self.upper(hi, i));
            self.lemma_entry_map_from_in_range(lo, hi, i + 1);
            assert(cd.disjoint(rd)) by {
                assert forall|k: u64| cd.contains(k) implies !rd.contains(k) by {
                    assert(k < self.keys@[i]);
                }
            };
            assert(!cd.contains(kk));
            assert(!rd.contains(kk));
            lemma_set_disjoint_lens(cd, rd);
            assert(self.entry_map_from(i).dom() =~= (cd + rd).insert(kk));
            assert((cd + rd).insert(kk).len() == cd.len() + rd.len() + 1);
            assert((n - (i + 1)) + (n + 1 - (i + 1)) * (p - 1) == (n - i - 1) + (n - i) * (p
                - 1)) by (nonlinear_arith);
            assert((n - i - 1) + (n - i) * (p - 1) + (p - 1) + 1 == (n - i) + (n + 1 - i) * (p
                - 1)) by (nonlinear_arith);
        }
    }

    /// Minimum occupancy of a subtree whose own node already meets the
    /// non-root lower bound: at least `t^h - 1` keys in the whole subtree.
    pub proof fn lemma_count_subtree(self, lo: int, hi: int)
        requires
            self.wf(lo, hi),
            self.keys@.len() >= self.min_degree - 1,
        ensures
            self.entry_map().dom().finite(),
            self.entry_map().dom().len() >= pow(self.min_degree as int, self.height()) - 1,
        decreases self, self.keys@.len() + 1,
    {
        let n = self.keys@.len() as int;
        let t = self.min_degree as int;
        if self.is_leaf {
            Self::lemma_kv_dom_len(self.keys@, self.values@);
            lemma_pow1(t);
        } else {
            self.lemma_count_from(lo, hi, 0);
            let p = pow(t, (self.height() - 1) as nat);
            lemma_pow_positive(t, (self.height() - 1) as nat);
            assert(pow(t, self.height()) == t * p) by {
                lemma_pow1(t);
                lemma_pow_adds(t, 1nat, (self.height() - 1) as nat);
            };
            assert(n + (n + 1) * (p - 1) >= (t - 1) + t * (p - 1)) by (nonlinear_arith)
                requires
                    n + 1 >= t,
                    p >= 1,
            ;
            assert((t - 1) + t * (p - 1) == t * p - 1) by (nonlinear_arith);
        }
    }
}

impl<V> BTreeMap<V> {
    /// The height bound: a well-formed, non-empty tree of height `h` over
    /// minimum degree `t` holds at least `2 * t^(h-1) - 1` keys. Read the
    /// other way round, after `n` distinct keys have been inserted the height
    /// satisfies `h <= ceil(log_t((n + 1) / 2)) + 1`.
    pub proof fn lemma_height_bound(self)
        requires
            self.wf(),
            self.root is Some,
        ensures
            self.view().dom().finite(),
            self.view().dom().len() >= 2 * pow(
                self.min_degree as int,
                (self.height() - 1) as nat,
            ) - 1,
    {
        let r = self.root.unwrap();
        let t = self.min_degree as int;
        let glo = Self::key_min_sentinel();
        let ghi = Self::key_max_sentinel();
        let p = pow(t, (r.height() - 1) as nat);
        lemma_pow_positive(t, (r.height() - 1) as nat);
        if r.is_leaf {
            BTreeNode::<V>::lemma_kv_dom_len(r.keys@, r.values@);
            lemma_pow0(t);
        } else {
            r.lemma_count_from(glo, ghi, 0);
            let n = r.keys@.len() as int;
            assert(n + (n + 1) * (p - 1) >= 1 + 2 * (p - 1)) by (nonlinear_arith)
                requires
                    n >= 1,
                    p >= 1,
            ;
        }
    }

    /// The universal invariants at the map level: the root of a well-formed,
    /// non-empty tree is itself well-formed between the key sentinels, holds
    /// at least one key, and all its leaves sit at depth `height()`.
    pub proof fn lemma_map_invariants(self)
        requires
            self.wf(),
            self.root is Some,
        ensures
            self.root.unwrap().wf(Self::key_min_sentinel(), Self::key_max_sentinel()),
            self.root.unwrap().keys@.len() >= 1,
            self.root.unwrap().all_leaves_at_depth(self.height() as int),
    {
        self.root.unwrap().lemma_leaves_equal_depth(
            Self::key_min_sentinel(),
            Self::key_max_sentinel(),
        );
    }

    /// Insert-then-search, at the level of the abstract map that `insert`
    /// and `search` are specified against: after binding `k` to `v`, looking
    /// up `k` yields `v`, and every other key is bound exactly as before.
    /// Together with `insert`'s postcondition (`view` becomes
    /// `old.view().insert(k, v)`) and `search`'s postcondition (the result is
    /// determined by `view`), this gives the round trip for any sequence of
    /// inserts.
    pub proof fn lemma_insert_then_search(m: Map<u64, V>, k: u64, v: V, other: u64)
        ensures
            m.insert(k, v).dom().contains(k),
            m.insert(k, v)[k] == v,
            other != k ==> (m.insert(k, v).dom().contains(other) <==> m.dom().contains(other)),
            other != k && m.dom().contains(other) ==> m.insert(k, v)[other] == m[other],
    {
    }

    /// The view of a map that started empty and took this sequence of
    /// inserts, by `insert`'s postcondition.
    pub open spec fn inserted_map(pairs: Seq<(u64, V)>) -> Map<u64, V>
        decreases pairs.len(),
    {
        if pairs.len() == 0 {
            Map::empty()
        } else {
            Self::inserted_map(pairs.drop_last()).insert(pairs.last().0, pairs.last().1)
        }
    }

    /// Insert-then-search over a whole sequence of inserts on distinct keys:
    /// afterwards every inserted key is bound to the value inserted with it,
    /// and every key never inserted is absent. With `search`'s postcondition
    /// this pins the result of every lookup after such a sequence.
    pub proof fn lemma_sequence_insert_then_search(pairs: Seq<(u64, V)>, k: u64, w: int)
        requires
            forall|p: int, q: int| 0 <= p < q < pairs.len() ==> pairs[p].0 != pairs[q].0,
        ensures
            0 <= w < pairs.len() && pairs[w].0 == k ==> Self::inserted_map(
                pairs,
            ).dom().contains(k) && Self::inserted_map(pairs)[k] == pairs[w].1,
            (forall|i: int| 0 <= i < pairs.len() ==> pairs[i].0 != k) ==> !Self::inserted_map(
                pairs,
            ).dom().contains(k),
        decreases pairs.len(),
    {
        if pairs.len() > 0 {
            Self::lemma_sequence_insert_then_search(pairs.drop_last(), k, w);
            if 0 <= w < pairs.len() && pairs[w].0 == k {
                if w < pairs.len() - 1 {
                    assert(pairs.drop_last()[w] == pairs[w]);
                    assert(pairs.last().0 != k);
                }
            } else if forall|i: int| 0 <= i < pairs.len() ==> pairs[i].0 != k {
                assert(forall|i: int|
                    0 <= i < pairs.drop_last().len() ==> pairs.drop_last()[i].0 != k);
                assert(pairs.last().0 != k);
            }
        }
    }
}

} // verus!
