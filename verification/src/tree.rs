//! The adaptive radix tree: an ordered map from keys (byte strings) to values.
use vstd::prelude::*;
use crate::bytes::{copy_range, is_prefix_at, lemma_lex_extend_below, lemma_lex_extension};
use crate::search;
use crate::keys::{IntoKey, KeyTrait};
use crate::node::{Node, lemma_wf_nonempty};
use crate::merge::{merge_nodes_with, merged_value, resolvable, resolver_total};
use crate::merge_n::{
    folded, last_present, lemma_folded_none, lemma_folded_present, lemma_folded_push,
    lemma_folded_right_wins, lemma_folded_single, lemma_present_push, lookups, merge_n_nodes_with,
    present, fold_resolvable, lemma_fold_step_resolvable, lemma_fold_resolvable_total,
};
use crate::bytes::{lex_less, lex_lt, lemma_lex_asymmetric, lemma_lex_common_prefix, lemma_lex_irreflexive, lemma_lex_total, lemma_lex_transitive};
use crate::iter::{
    children_entries, collect_entries, collect_values, keys_sorted, lemma_children_entries, lemma_node_entries,
    lists_from, node_entries, prepend_all,
};
use crate::stats::{
    TreeStats, capped, get_tree_stats_recurse, lemma_has_leaf, lemma_tally_bounds, lemma_width_sum, node_count,
    node_tally, width_tally, widths_listed,
};

verus! {

/// The map a root stands for: empty without a root, else the root's lookups.
pub open spec fn map_of<V>(root: Option<Node<V>>) -> Map<Seq<u8>, V> {
    match root {
        None => Map::empty(),
        Some(n) => n.view_map(),
    }
}

/// The value a map holds for `k`, if any.
pub open spec fn map_get<V>(m: Map<Seq<u8>, V>, k: Seq<u8>) -> Option<V> {
    if m.contains_key(k) {
        Some(m[k])
    } else {
        None
    }
}

/// `s` lists the entries of `m`, each once, in increasing key order.
pub open spec fn lists_in_order<V>(m: Map<Seq<u8>, V>, s: Seq<(Seq<u8>, V)>) -> bool {
    &&& keys_sorted(s)
    &&& forall|i: int| 0 <= i < s.len() ==> m.contains_key((#[trigger] s[i]).0) && m[s[i].0] == s[i].1
    &&& forall|k: Seq<u8>| #[trigger] m.contains_key(k) ==> exists|i: int| 0 <= i < s.len() && (#[trigger] s[i]).0 == k
}

/// A listing of a map's entries has exactly as many entries as the map has keys.
pub proof fn lemma_listing_len<V>(m: Map<Seq<u8>, V>, s: Seq<(Seq<u8>, V)>)
    requires
        lists_in_order(m, s),
    ensures
        m.dom().finite(),
        m.len() == s.len(),
{
    let ks = s.map_values(|e: (Seq<u8>, V)| e.0);
    assert forall|i: int, j: int| 0 <= i < ks.len() && 0 <= j < ks.len() && i != j implies ks[i] != ks[j] by {
        lemma_lex_irreflexive(ks[i]);
        if i < j {
            assert(lex_lt(s[i].0, s[j].0));
        } else {
            assert(lex_lt(s[j].0, s[i].0));
        }
    }
    assert(ks.no_duplicates());
    ks.unique_seq_to_set();
    assert forall|k: Seq<u8>| ks.to_set().contains(k) <==> m.dom().contains(k) by {
        if m.dom().contains(k) {
            let i = choose|i: int| 0 <= i < s.len() && (#[trigger] s[i]).0 == k;
            assert(ks[i] == k);
        }
        if ks.to_set().contains(k) {
            let i = choose|i: int| 0 <= i < ks.len() && ks[i] == k;
            assert(m.contains_key(s[i].0));
        }
    }
    assert(ks.to_set() =~= m.dom());
    vstd::seq_lib::seq_to_set_is_finite(ks);
}

/// Two listings of the same map in key order agree on their first `i` entries.
proof fn lemma_listing_agree_upto<V>(m: Map<Seq<u8>, V>, s1: Seq<(Seq<u8>, V)>, s2: Seq<(Seq<u8>, V)>, i: int)
    requires
        lists_in_order(m, s1),
        lists_in_order(m, s2),
        s1.len() == s2.len(),
        0 <= i <= s1.len(),
    ensures
        forall|t: int| 0 <= t < i ==> s1[t] == s2[t],
    decreases i,
{
    if i > 0 {
        lemma_listing_agree_upto(m, s1, s2, i - 1);
        let t = i - 1;
        let a = s1[t].0;
        let b = s2[t].0;
        if a != b {
            lemma_lex_total(a, b);
            if lex_lt(a, b) {
                assert(m.contains_key(a));
                let j = choose|j: int| 0 <= j < s2.len() && (#[trigger] s2[j]).0 == a;
                if j < t {
                    assert(s1[j] == s2[j]);
                    assert(lex_lt(s1[j].0, s1[t].0));
                    lemma_lex_irreflexive(a);
                } else if j > t {
                    assert(lex_lt(s2[t].0, s2[j].0));
                    lemma_lex_transitive(a, b, a);
                    lemma_lex_irreflexive(a);
                }
            } else {
                assert(m.contains_key(b));
                let j = choose|j: int| 0 <= j < s1.len() && (#[trigger] s1[j]).0 == b;
                if j < t {
                    assert(s1[j] == s2[j]);
                    assert(lex_lt(s2[j].0, s2[t].0));
                    lemma_lex_irreflexive(b);
                } else if j > t {
                    assert(lex_lt(s1[t].0, s1[j].0));
                    lemma_lex_transitive(b, a, b);
                    lemma_lex_irreflexive(b);
                }
            }
        }
        assert(m[a] == s1[t].1);
        assert(m[b] == s2[t].1);
    }
}

/// A map has exactly one listing in key order.
pub proof fn lemma_listing_unique<V>(m: Map<Seq<u8>, V>, s1: Seq<(Seq<u8>, V)>, s2: Seq<(Seq<u8>, V)>)
    requires
        lists_in_order(m, s1),
        lists_in_order(m, s2),
    ensures
        s1 == s2,
{
    lemma_listing_len(m, s1);
    lemma_listing_len(m, s2);
    lemma_listing_agree_upto(m, s1, s2, s1.len() as int);
    assert(s1 =~= s2);
}

/// `values_iter` and `iter` agree: the values come in the same order as the
/// entries, one per key of the map.
pub proof fn lemma_values_iter_matches_iter<K: View<V = Seq<u8>>, V>(
    m: Map<Seq<u8>, V>,
    vals: Seq<&V>,
    entries: Seq<(K, &V)>,
)
    requires
        exists|s: Seq<(Seq<u8>, V)>|
            lists_in_order(m, s) && s.len() == vals.len() && forall|i: int|
                0 <= i < s.len() ==> *vals[i] == (#[trigger] s[i]).1,
        lists_in_order(m, entry_view(entries)),
    ensures
        vals.len() == entries.len(),
        vals.len() == m.len(),
        forall|i: int| 0 <= i < vals.len() ==> *vals[i] == *(#[trigger] entries[i]).1,
{
    let s = choose|s: Seq<(Seq<u8>, V)>|
        lists_in_order(m, s) && s.len() == vals.len() && forall|i: int|
            0 <= i < s.len() ==> *vals[i] == (#[trigger] s[i]).1;
    lemma_listing_unique(m, s, entry_view(entries));
    lemma_listing_len(m, s);
    assert forall|i: int| 0 <= i < vals.len() implies *vals[i] == *(#[trigger] entries[i]).1 by {
        assert(entry_view(entries)[i] == s[i]);
    }
}

/// The (key bytes, value) pairs of a listing of keys and value references.
pub open spec fn entry_view<K: View<V = Seq<u8>>, V>(r: Seq<(K, &V)>) -> Seq<(Seq<u8>, V)> {
    r.map_values(|e: (K, &V)| (e.0@, *e.1))
}

/// The entries of `m` whose keys satisfy `keep`.
pub open spec fn restrict_keys<V>(m: Map<Seq<u8>, V>, keep: spec_fn(Seq<u8>) -> bool) -> Map<Seq<u8>, V> {
    Map::new(|k: Seq<u8>| m.contains_key(k) && keep(k), |k: Seq<u8>| m[k])
}

/// One end of a key range.
pub enum KeyBound<K> {
    /// The range includes this key.
    Included(K),
    /// The range stops short of this key.
    Excluded(K),
    /// The range is open on this side.
    Unbounded,
}

/// Key `k` is not below the start bound.
pub open spec fn above_start<K: View<V = Seq<u8>>>(k: Seq<u8>, b: KeyBound<K>) -> bool {
    match b {
        KeyBound::Included(s) => !lex_lt(k, s@),
        KeyBound::Excluded(s) => lex_lt(s@, k),
        KeyBound::Unbounded => true,
    }
}

/// Key `k` is not beyond the end bound.
pub open spec fn below_end<K: View<V = Seq<u8>>>(k: Seq<u8>, b: KeyBound<K>) -> bool {
    match b {
        KeyBound::Included(e) => !lex_lt(e@, k),
        KeyBound::Excluded(e) => lex_lt(k, e@),
        KeyBound::Unbounded => true,
    }
}

/// Passing the start bound carries over to larger keys.
pub proof fn lemma_above_start_monotone<K: View<V = Seq<u8>>>(k1: Seq<u8>, k2: Seq<u8>, b: KeyBound<K>)
    requires
        above_start(k1, b),
        lex_lt(k1, k2),
    ensures
        above_start(k2, b),
{
    match b {
        KeyBound::Included(s) => {
            if lex_lt(k2, s@) {
                lemma_lex_transitive(k1, k2, s@);
            }
        },
        KeyBound::Excluded(s) => {
            lemma_lex_transitive(s@, k1, k2);
        },
        KeyBound::Unbounded => {},
    }
}

/// Failing the end bound carries over to larger keys.
pub proof fn lemma_below_end_antitone<K: View<V = Seq<u8>>>(k1: Seq<u8>, k2: Seq<u8>, b: KeyBound<K>)
    requires
        !below_end(k1, b),
        lex_lt(k1, k2),
    ensures
        !below_end(k2, b),
{
    match b {
        KeyBound::Included(e) => {
            lemma_lex_transitive(e@, k1, k2);
        },
        KeyBound::Excluded(e) => {
            if lex_lt(k2, e@) {
                lemma_lex_transitive(k1, k2, e@);
            }
            if k1 == e@ {
            } else {
                lemma_lex_total(k1, e@);
            }
            if lex_lt(k2, e@) {
                lemma_lex_asymmetric(k1, e@);
            }
        },
        KeyBound::Unbounded => {},
    }
}

/// An Adaptive Radix Tree: a trie over the bytes of its keys with compressed
/// paths, mapping each key to one value.
pub struct AdaptiveRadixTree<KeyType, ValueType> where KeyType: KeyTrait {
    root: Option<Node<ValueType>>,
    _phantom: core::marker::PhantomData<KeyType>,
}

impl<KeyType: KeyTrait, ValueType> View for AdaptiveRadixTree<KeyType, ValueType> {
    type V = Map<Seq<u8>, ValueType>;

    closed spec fn view(&self) -> Map<Seq<u8>, ValueType> {
        map_of(self.root)
    }
}

impl<KeyType: KeyTrait, ValueType> Default for AdaptiveRadixTree<KeyType, ValueType> {
    /// An empty tree.
    fn default() -> (t: Self)
        ensures
            t.wf(),
            t@ == Map::<Seq<u8>, ValueType>::empty(),
    {
        Self::new()
    }
}

impl<KeyType: KeyTrait, ValueType> AdaptiveRadixTree<KeyType, ValueType> {
    /// The tree's internal invariant: its root, if any, is a well-formed node.
    pub closed spec fn wf(self) -> bool {
        self.root matches Some(n) ==> n.wf()
    }

    /// Create a new empty tree.
    pub fn new() -> (t: Self)
        ensures
            t.wf(),
            t@ == Map::<Seq<u8>, ValueType>::empty(),
    {
        AdaptiveRadixTree { root: None, _phantom: core::marker::PhantomData }
    }

    /// A tree whose root is `root`.
    pub(crate) fn from_root(root: Node<ValueType>) -> (t: Self)
        requires
            root.wf(),
        ensures
            t.wf(),
            t@ == root.view_map(),
    {
        AdaptiveRadixTree { root: Some(root), _phantom: core::marker::PhantomData }
    }

    /// Check if the tree is empty.
    pub fn is_empty(&self) -> (r: bool)
        requires
            self.wf(),
        ensures
            r <==> self@ == Map::<Seq<u8>, ValueType>::empty(),
    {
        proof {
            if self.root is Some {
                let k = lemma_wf_nonempty(self.root->0);
                assert(self@.contains_key(k));
            }
        }
        self.root.is_none()
    }

    /// Get a value by key reference.
    pub fn get_k(&self, key: &KeyType) -> (r: Option<&ValueType>)
        requires
            self.wf(),
        ensures
            match r {
                Some(v) => self@.contains_key(key@) && self@[key@] == *v,
                None => !self@.contains_key(key@),
            },
    {
        match &self.root {
            None => None,
            Some(root) => {
                let r = root.get_iterate(key.as_slice(), 0);
                proof {
                    assert(key@.skip(0) == key@);
                }
                r
            },
        }
    }

    /// Get a value by any key that converts into the tree's key type.
    pub fn get<Key: IntoKey<KeyType>>(&self, key: Key) -> (r: Option<&ValueType>)
        requires
            self.wf(),
        ensures
            match r {
                Some(v) => self@.contains_key(key.key_bytes()) && self@[key.key_bytes()] == *v,
                None => !self@.contains_key(key.key_bytes()),
            },
    {
        let k = key.into_key();
        self.get_k(&k)
    }

    /// Insert a key-value pair using a key reference. Returns the value the key
    /// had before, if any. A key may be a proper prefix of a stored key, or have
    /// one as a proper prefix (as `VectorKey`s without a terminator can): both
    /// keys are kept, the shorter one's value sitting where the longer one's path
    /// continues.
    pub fn insert_k(&mut self, key: &KeyType, value: ValueType) -> (r: Option<ValueType>)
        requires
            old(self).wf(),
        ensures
            final(self).wf(),
            final(self)@ == old(self)@.insert(key@, value),
            r == (if old(self)@.contains_key(key@) { Some(old(self)@[key@]) } else { None }),
    {
        let mut root: Option<Node<ValueType>> = None;
        core::mem::swap(&mut root, &mut self.root);
        match root {
            None => {
                let leaf = Node::new_leaf(copy_range(key.as_slice(), 0, key.as_slice().len()), value);
                proof {
                    assert(key@.subrange(0, key@.len() as int) == key@);
                    assert(leaf.view_map() =~= Map::<Seq<u8>, ValueType>::empty().insert(key@, value));
                }
                self.root = Some(leaf);
                None
            },
            Some(n) => {
                let ghost old_map = n.view_map();
                let (n2, old) = n.insert_recurse(key.as_slice(), 0, value);
                proof {
                    assert(key@.skip(0) == key@);
                    assert(n2.view_map() =~= old_map.insert(key@, value));
                }
                self.root = Some(n2);
                old
            },
        }
    }

    /// Insert a key-value pair with any key that converts into the tree's key type.
    /// As with `insert_k`, keys that are prefixes of one another are all kept.
    pub fn insert<KV: IntoKey<KeyType>>(&mut self, key: KV, value: ValueType) -> (r: Option<ValueType>)
        requires
            old(self).wf(),
        ensures
            final(self).wf(),
            final(self)@ == old(self)@.insert(key.key_bytes(), value),
            r == (if old(self)@.contains_key(key.key_bytes()) {
                Some(old(self)@[key.key_bytes()])
            } else {
                None
            }),
    {
        let k = key.into_key();
        self.insert_k(&k, value)
    }

    /// Remove a key using a key reference. Returns the removed value if the key
    /// was present.
    pub fn remove_k(&mut self, key: &KeyType) -> (r: Option<ValueType>)
        requires
            old(self).wf(),
        ensures
            final(self).wf(),
            final(self)@ == old(self)@.remove(key@),
            r == (if old(self)@.contains_key(key@) { Some(old(self)@[key@]) } else { None }),
    {
        let mut root: Option<Node<ValueType>> = None;
        core::mem::swap(&mut root, &mut self.root);
        match root {
            None => {
                proof {
                    assert(Map::<Seq<u8>, ValueType>::empty().remove(key@) =~= Map::empty());
                }
                None
            },
            Some(n) => {
                let ghost old_map = n.view_map();
                let (n2, old) = n.remove_recurse(key.as_slice(), 0);
                proof {
                    assert(key@.skip(0) == key@);
                }
                match n2 {
                    None => {
                        proof {
                            assert(Map::<Seq<u8>, ValueType>::empty() =~= old_map.remove(key@));
                        }
                    },
                    Some(m) => {
                        proof {
                            assert(m.view_map() =~= old_map.remove(key@));
                        }
                        self.root = Some(m);
                    },
                }
                old
            },
        }
    }

    /// Remove a key given in any form that converts into the tree's key type.
    pub fn remove<KV: IntoKey<KeyType>>(&mut self, key: KV) -> (r: Option<ValueType>)
        requires
            old(self).wf(),
        ensures
            final(self).wf(),
            final(self)@ == old(self)@.remove(key.key_bytes()),
            r == (if old(self)@.contains_key(key.key_bytes()) {
                Some(old(self)@[key.key_bytes()])
            } else {
                None
            }),
    {
        let k = key.into_key();
        self.remove_k(&k)
    }
}


impl<KeyType: KeyTrait, ValueType> AdaptiveRadixTree<KeyType, ValueType> {
    /// Merge two trees into one with custom conflict resolution, consuming both.
    /// Keys present in only one tree keep their value; for a key present in both,
    /// the resolver is called with the value from `self` and the value from `other`,
    /// and its answer is used. The resolver need only accept the pairs of values
    /// that the two trees hold for a shared key.
    pub fn merge_with<F: FnMut(ValueType, ValueType) -> ValueType>(self, other: Self, f: F) -> (r: Self)
        requires
            self.wf(),
            other.wf(),
            forall|k: Seq<u8>| #[trigger] resolvable(f, map_get(self@, k), map_get(other@, k)),
        ensures
            r.wf(),
            forall|k: Seq<u8>|
                merged_value(f, map_get(self@, k), map_get(other@, k), #[trigger] map_get(r@, k)),
    {
        let ghost f0 = f;
        let mut f = f;
        let ghost m1 = self@;
        let ghost m2 = other@;
        let AdaptiveRadixTree { root: r1, _phantom: _ } = self;
        let AdaptiveRadixTree { root: r2, _phantom: _ } = other;
        match r1 {
            None => match r2 {
                None => Self::new(),
                Some(n2) => Self::from_root(n2),
            },
            Some(n1) => match r2 {
                None => Self::from_root(n1),
                Some(n2) => {
                    proof {
                        assert forall|k: Seq<u8>| #[trigger] resolvable(f0, n1.lookup(k), n2.lookup(k)) by {
                            assert(resolvable(f0, map_get(m1, k), map_get(m2, k)));
                        }
                    }
                    let m = merge_nodes_with(n1, n2, &mut f);
                    let t = Self::from_root(m);
                    proof {
                        assert forall|k: Seq<u8>|
                            merged_value(f0, map_get(m1, k), map_get(m2, k), #[trigger] map_get(t@, k)) by {
                            assert(merged_value(f0, n1.lookup(k), n2.lookup(k), m.lookup(k)));
                        }
                    }
                    t
                },
            },
        }
    }

    /// Merge another tree into this one, consuming both. When both trees contain
    /// the same key, the value from `other` is used.
    pub fn merge(self, other: Self) -> (r: Self)
        requires
            self.wf(),
            other.wf(),
        ensures
            r.wf(),
            r@ == self@.union_prefer_right(other@),
    {
        let right_wins = |left: ValueType, right: ValueType| -> (w: ValueType)
            ensures
                w == right,
            { right };
        Self::merge_preferring_right(self, other, right_wins)
    }

    /// Merging with a resolver that always answers its right argument.
    fn merge_preferring_right<F: FnMut(ValueType, ValueType) -> ValueType>(t1: Self, t2: Self, f: F) -> (r: Self)
        requires
            t1.wf(),
            t2.wf(),
            resolver_total(f),
            forall|a: ValueType, b: ValueType, w: ValueType|
                #[trigger] call_ensures(f, (a, b), w) ==> w == b,
        ensures
            r.wf(),
            r@ == t1@.union_prefer_right(t2@),
    {
        let ghost m1 = t1@;
        let ghost m2 = t2@;
        let r = t1.merge_with(t2, f);
        proof {
            lemma_right_wins_merge(f, m1, m2, r@);
        }
        r
    }
}


/// Two maps that hold the same value, or nothing, for every key are equal.
pub proof fn lemma_map_get_ext<V>(a: Map<Seq<u8>, V>, b: Map<Seq<u8>, V>)
    requires
        forall|k: Seq<u8>| #[trigger] map_get(a, k) == map_get(b, k),
    ensures
        a == b,
{
    assert forall|k: Seq<u8>| a.contains_key(k) <==> b.contains_key(k) by {
        assert(map_get(a, k) == map_get(b, k));
    }
    assert forall|k: Seq<u8>| a.contains_key(k) implies a[k] == b[k] by {
        assert(map_get(a, k) == map_get(b, k));
    }
    assert(a =~= b);
}

/// Merging with a resolver that always answers its right argument is the plain
/// merge: what `merge_with` promises for such a resolver is the union of the two
/// maps, the right one winning.
pub proof fn lemma_right_wins_merge<V, F: FnMut(V, V) -> V>(
    f: F,
    m1: Map<Seq<u8>, V>,
    m2: Map<Seq<u8>, V>,
    r: Map<Seq<u8>, V>,
)
    requires
        forall|k: Seq<u8>| merged_value(f, map_get(m1, k), map_get(m2, k), #[trigger] map_get(r, k)),
        forall|a: V, b: V, w: V| #[trigger] call_ensures(f, (a, b), w) ==> w == b,
    ensures
        r == m1.union_prefer_right(m2),
{
    let u = m1.union_prefer_right(m2);
    assert forall|k: Seq<u8>| #[trigger] map_get(r, k) == map_get(u, k) by {
        assert(merged_value(f, map_get(m1, k), map_get(m2, k), map_get(r, k)));
    }
    lemma_map_get_ext(r, u);
}

/// What each of the trees holds for key `k`.
pub open spec fn values_at<K: KeyTrait, V>(ts: Seq<AdaptiveRadixTree<K, V>>, k: Seq<u8>) -> Seq<Option<V>> {
    Seq::new(ts.len(), |i: int| map_get(ts[i]@, k))
}

/// The union of the trees' maps, later trees winning on keys held by several.
pub open spec fn union_all<K: KeyTrait, V>(ts: Seq<AdaptiveRadixTree<K, V>>) -> Map<Seq<u8>, V>
    decreases ts.len(),
{
    if ts.len() == 0 {
        Map::empty()
    } else {
        union_all(ts.drop_last()).union_prefer_right(ts.last()@)
    }
}

/// In the union of several trees, a key holds the value of the last tree that has it.
pub proof fn lemma_union_all_last<K: KeyTrait, V>(ts: Seq<AdaptiveRadixTree<K, V>>, k: Seq<u8>)
    ensures
        map_get(union_all(ts), k) == last_present(values_at(ts, k)),
    decreases ts.len(),
{
    if ts.len() > 0 {
        let init = ts.drop_last();
        lemma_union_all_last(init, k);
        assert(values_at(ts, k).drop_last() =~= values_at(init, k));
    }
}

/// Merging all of two trees is merging the pair: the union of two maps, the second
/// winning.
pub proof fn lemma_union_all_pair<K: KeyTrait, V>(a: AdaptiveRadixTree<K, V>, b: AdaptiveRadixTree<K, V>)
    ensures
        union_all(seq![a, b]) == a@.union_prefer_right(b@),
{
    let s = seq![a, b];
    assert(s.drop_last() == seq![a]);
    assert(seq![a].drop_last() == Seq::<AdaptiveRadixTree<K, V>>::empty());
    assert(union_all(Seq::<AdaptiveRadixTree<K, V>>::empty()) == Map::<Seq<u8>, V>::empty());
    assert(union_all(seq![a]) == union_all(seq![a].drop_last()).union_prefer_right(a@));
    assert(Map::<Seq<u8>, V>::empty().union_prefer_right(a@) =~= a@);
    assert(union_all(seq![a]) == a@);
}

/// Merging several trees is merging them one after the other: the union of the
/// first trees, then the next one merged into it.
pub proof fn lemma_union_all_push<K: KeyTrait, V>(ts: Seq<AdaptiveRadixTree<K, V>>, t: AdaptiveRadixTree<K, V>)
    ensures
        union_all(ts.push(t)) == union_all(ts).union_prefer_right(t@),
{
    assert(ts.push(t).drop_last() == ts);
}

/// Folding a resolver that always answers its right argument over several trees is
/// the plain merge of all of them: the union of their maps, later trees winning.
pub proof fn lemma_right_wins_merge_all<K: KeyTrait, V, F: FnMut(V, V) -> V>(
    f: F,
    ts: Seq<AdaptiveRadixTree<K, V>>,
    r: Map<Seq<u8>, V>,
)
    requires
        forall|k: Seq<u8>| folded(f, values_at(ts, k), #[trigger] map_get(r, k)),
        forall|a: V, b: V, w: V| #[trigger] call_ensures(f, (a, b), w) ==> w == b,
    ensures
        r == union_all(ts),
{
    let u = union_all(ts);
    assert forall|k: Seq<u8>| #[trigger] map_get(r, k) == map_get(u, k) by {
        lemma_folded_right_wins(f, values_at(ts, k), map_get(r, k));
        lemma_union_all_last(ts, k);
    }
    lemma_map_get_ext(r, u);
}

impl<KeyType: KeyTrait, ValueType> AdaptiveRadixTree<KeyType, ValueType> {
    /// Merge several trees into one with custom conflict resolution, consuming all.
    /// For a key held by several trees, the resolver is folded over their values in
    /// the order of the trees: the first value with the second, the result with the
    /// third, and so on. The resolver need only accept the pairs that such a fold
    /// hands it.
    pub fn merge_all_with<F: FnMut(ValueType, ValueType) -> ValueType>(trees: Vec<Self>, f: F) -> (r: Self)
        requires
            forall|i: int| 0 <= i < trees@.len() ==> (#[trigger] trees@[i]).wf(),
            forall|k: Seq<u8>| fold_resolvable(f, #[trigger] values_at(trees@, k)),
        ensures
            r.wf(),
            forall|k: Seq<u8>| folded(f, values_at(trees@, k), #[trigger] map_get(r@, k)),
    {
        let ghost f0 = f;
        let ghost ts = trees@;
        let mut f = f;
        let mut trees = trees;
        let n = trees.len();
        if n == 0 {
            let r = Self::new();
            proof {
                assert forall|k: Seq<u8>| folded(f0, values_at(ts, k), #[trigger] map_get(r@, k)) by {
                    lemma_folded_none(f0, values_at(ts, k));
                }
            }
            return r;
        }
        if n == 1 {
            let r = trees.remove(0);
            proof {
                assert(r == ts[0]);
                assert forall|k: Seq<u8>| folded(f0, values_at(ts, k), #[trigger] map_get(r@, k)) by {
                    assert(values_at(ts, k) =~= seq![map_get(r@, k)]);
                    lemma_folded_single(f0, map_get(r@, k));
                }
            }
            return r;
        }
        if n == 2 {
            let a = trees.remove(0);
            let b = trees.remove(0);
            proof {
                assert(a == ts[0]);
                assert(b == ts[1]);
                assert forall|k: Seq<u8>| #[trigger] resolvable(f, map_get(a@, k), map_get(b@, k)) by {
                    let vs = values_at(ts, k);
                    assert(vs.take(1) =~= seq![map_get(a@, k)]);
                    lemma_folded_single(f, map_get(a@, k));
                    assert(fold_resolvable(f, vs));
                    lemma_fold_step_resolvable(f, vs, 1, map_get(a@, k));
                }
            }
            let r = a.merge_with(b, f);
            proof {
                assert forall|k: Seq<u8>| folded(f0, values_at(ts, k), #[trigger] map_get(r@, k)) by {
                    lemma_folded_single(f0, map_get(a@, k));
                    lemma_folded_push(f0, seq![map_get(a@, k)], map_get(a@, k), map_get(b@, k), map_get(r@, k));
                    assert(values_at(ts, k) =~= seq![map_get(a@, k)].push(map_get(b@, k)));
                }
            }
            return r;
        }
        // Collect the non-empty roots, in the order of the trees.
        let mut roots: Vec<Node<ValueType>> = Vec::new();
        let mut i: usize = 0;
        proof {
            assert forall|k: Seq<u8>| present(#[trigger] values_at(ts.take(0), k))
                == present(lookups(roots@, k)) by {
                assert(values_at(ts.take(0), k) =~= Seq::<Option<ValueType>>::empty());
                assert(lookups(roots@, k) =~= Seq::<Option<ValueType>>::empty());
            }
        }
        while trees.len() > 0
            invariant
                0 <= i <= n,
                n == ts.len(),
                trees@ == ts.skip(i as int),
                forall|j: int| 0 <= j < ts.len() ==> (#[trigger] ts[j]).wf(),
                forall|j: int| 0 <= j < roots@.len() ==> (#[trigger] roots@[j]).wf(),
                forall|k: Seq<u8>| present(#[trigger] values_at(ts.take(i as int), k))
                    == present(lookups(roots@, k)),
            decreases trees@.len(),
        {
            let t = trees.remove(0);
            proof {
                assert(t == ts[i as int]);
                assert(trees@ =~= ts.skip(i + 1));
            }
            let ghost old_roots = roots@;
            let AdaptiveRadixTree { root, _phantom: _ } = t;
            match root {
                Some(node) => {
                    roots.push(node);
                    proof {
                        assert forall|k: Seq<u8>| present(#[trigger] values_at(ts.take(i + 1), k))
                            == present(lookups(roots@, k)) by {
                            let sq = values_at(ts.take(i as int), k);
                            assert(values_at(ts.take(i + 1), k) =~= sq.push(map_get(t@, k)));
                            assert(lookups(roots@, k) =~= lookups(old_roots, k).push(node.lookup(k)));
                            assert(map_get(t@, k) == node.lookup(k));
                            lemma_present_push(sq, node.lookup(k));
                            lemma_present_push(lookups(old_roots, k), node.lookup(k));
                        }
                    }
                },
                None => {
                    proof {
                        assert forall|k: Seq<u8>| present(#[trigger] values_at(ts.take(i + 1), k))
                            == present(lookups(roots@, k)) by {
                            let sq = values_at(ts.take(i as int), k);
                            assert(values_at(ts.take(i + 1), k) =~= sq.push(None));
                            lemma_present_push(sq, None);
                        }
                    }
                },
            }
            i = i + 1;
        }
        proof {
            assert(ts.take(n as int) == ts);
        }
        if roots.len() == 0 {
            let r = Self::new();
            proof {
                assert forall|k: Seq<u8>| folded(f0, values_at(ts, k), #[trigger] map_get(r@, k)) by {
                    assert(lookups(roots@, k) =~= Seq::<Option<ValueType>>::empty());
                    lemma_folded_none(f0, lookups(roots@, k));
                    lemma_folded_present(f0, lookups(roots@, k), None);
                    lemma_folded_present(f0, values_at(ts, k), None);
                }
            }
            r
        } else if roots.len() == 1 {
            let ghost rs = roots@;
            let node = roots.remove(0);
            proof {
                assert(rs =~= seq![node]);
            }
            let r = Self::from_root(node);
            proof {
                assert forall|k: Seq<u8>| folded(f0, values_at(ts, k), #[trigger] map_get(r@, k)) by {
                    assert(lookups(rs, k) =~= seq![node.lookup(k)]);
                    lemma_folded_single(f0, node.lookup(k));
                    lemma_folded_present(f0, lookups(rs, k), node.lookup(k));
                    lemma_folded_present(f0, values_at(ts, k), node.lookup(k));
                }
            }
            r
        } else {
            let ghost rs = roots@;
            proof {
                assert forall|k: Seq<u8>| fold_resolvable(f, #[trigger] lookups(rs, k)) by {
                    assert(present(values_at(ts, k)) == present(lookups(rs, k)));
                    assert(fold_resolvable(f, values_at(ts, k)));
                }
            }
            let m = merge_n_nodes_with(roots, &mut f);
            let r = Self::from_root(m);
            proof {
                assert forall|k: Seq<u8>| folded(f0, values_at(ts, k), #[trigger] map_get(r@, k)) by {
                    assert(folded(f0, lookups(rs, k), m.lookup(k)));
                    lemma_folded_present(f0, lookups(rs, k), m.lookup(k));
                    lemma_folded_present(f0, values_at(ts, k), m.lookup(k));
                }
            }
            r
        }
    }

    /// Merge several trees into one, consuming all. For a key held by several trees,
    /// the value from the last of them is used.
    pub fn merge_all(trees: Vec<Self>) -> (r: Self)
        requires
            forall|i: int| 0 <= i < trees@.len() ==> (#[trigger] trees@[i]).wf(),
        ensures
            r.wf(),
            r@ == union_all(trees@),
    {
        let ghost ts = trees@;
        let right_wins = |left: ValueType, right: ValueType| -> (w: ValueType)
            ensures
                w == right,
            { right };
        proof {
            assert forall|k: Seq<u8>| fold_resolvable(right_wins, #[trigger] values_at(ts, k)) by {
                lemma_fold_resolvable_total(right_wins, values_at(ts, k));
            }
        }
        let r = Self::merge_all_with(trees, right_wins);
        proof {
            lemma_right_wins_merge_all(right_wins, ts, r@);
        }
        r
    }
}

impl<KeyType: KeyTrait, ValueType> AdaptiveRadixTree<KeyType, ValueType> {
    /// All key-value pairs of the tree, in lexicographic order of the keys.
    pub fn iter(&self) -> (r: Vec<(KeyType, &ValueType)>)
        requires
            self.wf(),
        ensures
            lists_in_order(self@, entry_view(r@)),
    {
        let mut out: Vec<(KeyType, &ValueType)> = Vec::new();
        match &self.root {
            None => {
                proof {
                    assert(entry_view(out@) =~= Seq::<(Seq<u8>, ValueType)>::empty());
                }
            },
            Some(root) => {
                let mut path: Vec<u8> = Vec::new();
                collect_entries(root, &mut path, &mut out);
                proof {
                    let es = node_entries(*root);
                    lemma_node_entries(*root);
                    assert(entry_view(out@) =~= es) by {
                        assert forall|j: int| 0 <= j < es.len() implies entry_view(out@)[j] == es[j] by {
                            assert(out@[0 + j].0@ == Seq::<u8>::empty() + es[j].0);
                        }
                    }
                    assert forall|k: Seq<u8>| #[trigger] self@.contains_key(k) implies exists|i: int|
                        0 <= i < es.len() && (#[trigger] es[i]).0 == k by {
                        assert(root.lookup(k) is Some);
                    }
                }
            },
        }
        out
    }

    /// All values of the tree, in lexicographic order of their keys.
    pub fn values_iter(&self) -> (r: Vec<&ValueType>)
        requires
            self.wf(),
        ensures
            exists|s: Seq<(Seq<u8>, ValueType)>|
                lists_in_order(self@, s) && s.len() == r@.len() && forall|i: int|
                    0 <= i < s.len() ==> *r@[i] == (#[trigger] s[i]).1,
    {
        let mut out: Vec<&ValueType> = Vec::new();
        match &self.root {
            None => {
                proof {
                    let s = Seq::<(Seq<u8>, ValueType)>::empty();
                    assert(lists_in_order(self@, s));
                }
            },
            Some(root) => {
                collect_values(root, &mut out);
                proof {
                    let es = node_entries(*root);
                    lemma_node_entries(*root);
                    assert forall|j: int| 0 <= j < es.len() implies *out@[j] == (#[trigger] es[j]).1 by {
                        assert(*out@[0 + j] == es[j].1);
                    }
                    assert forall|k: Seq<u8>| #[trigger] self@.contains_key(k) implies exists|i: int|
                        0 <= i < es.len() && (#[trigger] es[i]).0 == k by {
                        assert(root.lookup(k) is Some);
                    }
                    assert(lists_in_order(self@, es));
                }
            },
        }
        out
    }
}


impl<KeyType: KeyTrait, ValueType> AdaptiveRadixTree<KeyType, ValueType> {
    /// Number of nodes of the tree.
    pub closed spec fn node_count(&self) -> nat {
        match self.root {
            None => 0,
            Some(n) => node_count(n),
        }
    }

    /// Number of nodes without children.
    pub closed spec fn leaf_count(&self) -> nat {
        match self.root {
            None => 0,
            Some(n) => node_tally(n).0,
        }
    }

    /// Number of nodes with children.
    pub closed spec fn inner_count(&self) -> nat {
        match self.root {
            None => 0,
            Some(n) => node_tally(n).1,
        }
    }

    /// Number of inner nodes whose children need width class `w` (see `width_class`).
    pub closed spec fn width_nodes(&self, w: int) -> nat {
        match self.root {
            None => 0,
            Some(n) => width_tally(n, w).0,
        }
    }

    /// Number of children of the inner nodes of width class `w`, summed.
    pub closed spec fn width_children(&self, w: int) -> nat {
        match self.root {
            None => 0,
            Some(n) => width_tally(n, w).1,
        }
    }

    /// Number of levels: zero for an empty tree, one for a lone root.
    pub closed spec fn levels(&self) -> nat {
        match self.root {
            None => 0,
            Some(n) => n.height(),
        }
    }

    /// Statistics of the tree's shape: values, leaves, inner nodes and levels. The
    /// number of values is the number of keys. Each count saturates at `usize::MAX`.
    pub fn get_tree_stats(&self) -> (s: TreeStats)
        requires
            self.wf(),
        ensures
            s.num_values == capped(self@.len() as int),
            s.num_leaves == capped(self.leaf_count() as int),
            s.num_inner_nodes == capped(self.inner_count() as int),
            s.max_height == capped(self.levels() as int),
            self.leaf_count() + self.inner_count() == self.node_count(),
            self@.len() <= self.node_count(),
            self@.len() == 0 <==> self.node_count() == 0,
            self@.len() == 0 <==> self.levels() == 0,
            s.num_values <= s.num_leaves + s.num_inner_nodes,
            self@.len() == 0 ==> s.num_values == 0 && s.num_leaves == 0 && s.num_inner_nodes == 0
                && s.max_height == 0,
            self@.len() > 0 ==> s.num_values >= 1 && s.num_leaves >= 1 && s.max_height >= 1,
            widths_listed(s.node_stats@),
            forall|w: int|
                0 <= w < 4 ==> (#[trigger] s.node_stats@[w]).total_nodes == capped(self.width_nodes(w) as int)
                    && s.node_stats@[w].total_children == capped(self.width_children(w) as int),
            self.width_nodes(0) + self.width_nodes(1) + self.width_nodes(2) + self.width_nodes(3)
                == self.inner_count(),
            self@.len() == 0 ==> forall|w: int|
                0 <= w < 4 ==> (#[trigger] s.node_stats@[w]).total_nodes == 0 && s.node_stats@[w].total_children
                    == 0,
    {
        let mut stats = TreeStats::default();
        match &self.root {
            None => {
                proof {
                    assert(self@ == Map::<Seq<u8>, ValueType>::empty());
                    assert(self@.dom() =~= Set::<Seq<u8>>::empty());
                }
            },
            Some(root) => {
                proof {
                    lemma_tally_bounds(*root);
                    lemma_has_leaf(*root);
                    lemma_width_sum(*root);
                    let es = node_entries(*root);
                    lemma_node_entries(*root);
                    assert forall|k: Seq<u8>| #[trigger] self@.contains_key(k) implies exists|i: int|
                        0 <= i < es.len() && (#[trigger] es[i]).0 == k by {
                        assert(root.lookup(k) is Some);
                    }
                    assert(lists_in_order(self@, es));
                    lemma_listing_len(self@, es);
                    let k = lemma_wf_nonempty(*root);
                    assert(self@.contains_key(k));
                }
                get_tree_stats_recurse(root, &mut stats, 1);
            },
        }
        stats
    }
}

impl<KeyType: KeyTrait, ValueType> AdaptiveRadixTree<KeyType, ValueType> {
    /// The stored key-value pair whose key is the longest prefix of `key`.
    pub fn longest_prefix_match_k(&self, key: &KeyType) -> (r: Option<(KeyType, &ValueType)>)
        requires
            self.wf(),
        ensures
            match r {
                Some(kv) => {
                    &&& kv.0@.is_prefix_of(key@)
                    &&& self@.contains_key(kv.0@)
                    &&& self@[kv.0@] == *kv.1
                    &&& forall|k2: Seq<u8>|
                        k2.is_prefix_of(key@) && #[trigger] self@.contains_key(k2) ==> k2.len() <= kv.0@.len()
                },
                None => forall|k2: Seq<u8>| k2.is_prefix_of(key@) ==> !#[trigger] self@.contains_key(k2),
            },
    {
        match &self.root {
            None => None,
            Some(root) => {
                let bytes = key.as_slice();
                let found = root.longest_prefix_match_iterate(bytes, 0);
                proof {
                    assert(key@.skip(0) == key@);
                    assert forall|k2: Seq<u8>| k2.is_prefix_of(key@) implies k2 == key@.take(k2.len() as int) by {}
                }
                match found {
                    None => None,
                    Some(ev) => {
                        let (end, v) = ev;
                        let kb = copy_range(bytes, 0, end);
                        let k = KeyType::new_from_slice(kb.as_slice());
                        proof {
                            assert(k@ == key@.take(end as int));
                            assert(k@.is_prefix_of(key@));
                            assert forall|k2: Seq<u8>| k2.is_prefix_of(key@) && #[trigger] self@.contains_key(k2)
                                implies k2.len() <= k@.len() by {
                                assert(k2 == key@.take(k2.len() as int));
                            }
                        }
                        Some((k, v))
                    },
                }
            },
        }
    }

    /// The stored key-value pair whose key is the longest prefix of `key`, for any
    /// key that converts into the tree's key type.
    pub fn longest_prefix_match<Key: IntoKey<KeyType>>(&self, key: Key) -> (r: Option<(KeyType, &ValueType)>)
        requires
            self.wf(),
        ensures
            match r {
                Some(kv) => {
                    &&& kv.0@.is_prefix_of(key.key_bytes())
                    &&& self@.contains_key(kv.0@)
                    &&& self@[kv.0@] == *kv.1
                    &&& forall|k2: Seq<u8>|
                        k2.is_prefix_of(key.key_bytes()) && #[trigger] self@.contains_key(k2) ==> k2.len() <= kv.0@.len()
                },
                None => forall|k2: Seq<u8>| k2.is_prefix_of(key.key_bytes()) ==> !#[trigger] self@.contains_key(k2),
            },
    {
        let k = key.into_key();
        self.longest_prefix_match_k(&k)
    }

    /// All entries whose keys start with `prefix`, in lexicographic order of the keys.
    #[verifier::spinoff_prover]
    pub fn prefix_iter_k(&self, prefix: &KeyType) -> (r: Vec<(KeyType, &ValueType)>)
        requires
            self.wf(),
        ensures
            lists_in_order(restrict_keys(self@, |k: Seq<u8>| prefix@.is_prefix_of(k)), entry_view(r@)),
    {
        let ghost m = restrict_keys(self@, |k: Seq<u8>| prefix@.is_prefix_of(k));
        let mut out: Vec<(KeyType, &ValueType)> = Vec::new();
        proof {
            assert(entry_view(out@) =~= Seq::<(Seq<u8>, ValueType)>::empty());
        }
        match &self.root {
            None => {
                proof {
                    assert(m =~= Map::<Seq<u8>, ValueType>::empty());
                }
            },
            Some(root) => {
                let mut path: Vec<u8> = Vec::new();
                let pb = prefix.as_slice();
                let found = root.find_prefix_subtree(pb, 0, &mut path);
                proof {
                    assert(prefix@.skip(0) == prefix@);
                    assert(path@.skip(0) == path@);
                }
                match found {
                    None => {
                        proof {
                            assert(m =~= Map::<Seq<u8>, ValueType>::empty());
                        }
                    },
                    Some(sub) => {
                        let ghost extra = path@;
                        collect_entries(sub, &mut path, &mut out);
                        proof {
                            let es = node_entries(*sub);
                            let r = entry_view(out@);
                            lemma_node_entries(*sub);
                            assert(r.len() == es.len());
                            assert forall|j: int| 0 <= j < es.len() implies r[j] == (extra + (#[trigger] es[j]).0, es[j].1) by {
                                assert(out@[0 + j].0@ == extra + es[j].0);
                            }
                            assert forall|i: int, j: int| 0 <= i < j < r.len() implies lex_lt(#[trigger] r[i].0, #[trigger] r[j].0) by {
                                lemma_lex_common_prefix(extra, es[i].0, es[j].0);
                            }
                            assert forall|i: int| 0 <= i < r.len() implies m.contains_key((#[trigger] r[i]).0) && m[r[i].0] == r[i].1 by {
                                let x = es[i].0;
                                assert(sub.lookup(x) is Some);
                                assert((extra + x).subrange(0, extra.len() as int) =~= extra);
                                assert((extra + x).skip(extra.len() as int) =~= x);
                                assert(root.lookup(extra + x) == sub.lookup(x));
                            }
                            assert forall|k: Seq<u8>| #[trigger] m.contains_key(k) implies exists|i: int|
                                0 <= i < r.len() && (#[trigger] r[i]).0 == k by {
                                assert(root.lookup(k) is Some);
                                let x = k.skip(extra.len() as int);
                                assert(sub.lookup(x) is Some);
                                let j = choose|j: int| 0 <= j < es.len() && (#[trigger] es[j]).0 == x;
                                assert(r[j].0 == extra + x);
                                assert(k =~= extra + x) by {
                                    assert(k.subrange(0, extra.len() as int) == extra);
                                }
                            }
                        }
                    },
                }
            },
        }
        out
    }

    /// All entries whose keys start with `prefix` (any value that converts into
    /// the tree's key type), in lexicographic order of the keys.
    pub fn prefix_iter<Key: IntoKey<KeyType>>(&self, prefix: Key) -> (r: Vec<(KeyType, &ValueType)>)
        requires
            self.wf(),
        ensures
            lists_in_order(restrict_keys(self@, |k: Seq<u8>| prefix.key_bytes().is_prefix_of(k)), entry_view(r@)),
    {
        let ghost pb = prefix.key_bytes();
        let p = prefix.into_key();
        let r = self.prefix_iter_k(&p);
        proof {
            assert(restrict_keys(self@, |k: Seq<u8>| p@.is_prefix_of(k)) =~= restrict_keys(
                self@,
                |k: Seq<u8>| pb.is_prefix_of(k),
            ));
        }
        r
    }

    /// All entries whose keys lie between the bounds, in lexicographic order. The
    /// search descends to the start bound, skipping the subtrees whose keys all
    /// sort before it; the keys from there on are then cut at the first one past
    /// the end bound.
    #[verifier::spinoff_prover]
    pub fn range(&self, start: KeyBound<KeyType>, end: KeyBound<KeyType>) -> (r: Vec<(KeyType, &ValueType)>)
        requires
            self.wf(),
        ensures
            lists_in_order(
                restrict_keys(self@, |k: Seq<u8>| above_start(k, start) && below_end(k, end)),
                entry_view(r@),
            ),
    {
        let ghost m = restrict_keys(self@, |k: Seq<u8>| above_start(k, start) && below_end(k, end));
        // Seek the first key that passes the start bound.
        let mut all: Vec<(KeyType, &ValueType)> = Vec::new();
        let ghost mut full: Seq<(Seq<u8>, ValueType)> = Seq::empty();
        let ghost mut lo: int = 0;
        match &self.root {
            None => {
                proof {
                    assert(self@ =~= Map::<Seq<u8>, ValueType>::empty());
                }
            },
            Some(root) => {
                let mut path: Vec<u8> = Vec::new();
                let Ghost(l) = collect_from_start(root, &mut path, &start, &mut all);
                proof {
                    lo = l;
                    full = node_entries(*root);
                    lemma_node_entries(*root);
                    assert forall|k: Seq<u8>| #[trigger] self@.contains_key(k) implies exists|i: int|
                        0 <= i < full.len() && (#[trigger] full[i]).0 == k by {
                        assert(root.lookup(k) is Some);
                    }
                    assert(lists_in_order(self@, full));
                    assert forall|t: int| 0 <= t < full.len() implies Seq::<u8>::empty() + (#[trigger] full[t]).0 == full[t].0 by {
                        assert(Seq::<u8>::empty() + full[t].0 =~= full[t].0);
                    }
                }
            },
        }
        let ghost es = entry_view(all@);
        proof {
            if self.root is None {
                assert(es =~= Seq::<(Seq<u8>, ValueType)>::empty());
                assert(full.skip(0) =~= full);
            }
            assert(lists_in_order(self@, full));
            assert(0 <= lo <= full.len());
            assert(es =~= full.skip(lo));
            assert forall|t: int| 0 <= t < lo implies !above_start((#[trigger] full[t]).0, start) by {
                if self.root is Some {
                    assert(Seq::<u8>::empty() + full[t].0 == full[t].0);
                }
            }
            assert forall|t: int| lo <= t < full.len() implies above_start((#[trigger] full[t]).0, start) by {
                if self.root is Some {
                    assert(Seq::<u8>::empty() + full[t].0 == full[t].0);
                }
            }
        }
        // Stop at the first key past the end bound.
        let n = all.len();
        let mut hi: usize = 0;
        while hi < n && self::within_end(all[hi].0.as_slice(), &end)
            invariant
                n == all@.len(),
                es == entry_view(all@),
                hi <= n,
                es == full.skip(lo),
                0 <= lo <= full.len(),
                forall|i: int| 0 <= i < hi ==> below_end((#[trigger] full[lo + i]).0, end),
            decreases n - hi,
        {
            proof {
                assert(es.len() == n);
                assert(full.skip(lo)[hi as int] == full[lo + hi]);
            }
            hi = hi + 1;
        }
        proof {
            assert(es.len() == n);
            if hi < n {
                assert(full.skip(lo)[hi as int] == full[lo + hi]);
            }
        }
        all.truncate(hi);
        let out = all;
        proof {
            assert(entry_view(out@) == es.take(hi as int));
            lemma_range_listing(self@, full, lo, hi as int, start, end);
        }
        out
    }
}

/// The entries of a listing in key order from the first one that passes the start
/// bound up to the first one past the end bound list exactly the keys in range.
proof fn lemma_range_listing<K: View<V = Seq<u8>>, V>(
    m0: Map<Seq<u8>, V>,
    full: Seq<(Seq<u8>, V)>,
    lo: int,
    hi: int,
    start: KeyBound<K>,
    end: KeyBound<K>,
)
    requires
        lists_in_order(m0, full),
        0 <= lo <= full.len(),
        0 <= hi <= full.len() - lo,
        forall|t: int| 0 <= t < lo ==> !above_start((#[trigger] full[t]).0, start),
        forall|t: int| lo <= t < full.len() ==> above_start((#[trigger] full[t]).0, start),
        forall|i: int| 0 <= i < hi ==> below_end((#[trigger] full[lo + i]).0, end),
        hi < full.len() - lo ==> !below_end(full[lo + hi].0, end),
    ensures
        lists_in_order(
            restrict_keys(m0, |k: Seq<u8>| above_start(k, start) && below_end(k, end)),
            full.skip(lo).take(hi),
        ),
{
    let m = restrict_keys(m0, |k: Seq<u8>| above_start(k, start) && below_end(k, end));
    let r = full.skip(lo).take(hi);
    assert forall|i: int| 0 <= i < r.len() implies m.contains_key((#[trigger] r[i]).0) && m[r[i].0] == r[i].1 by {
        assert(r[i] == full[lo + i]);
    }
    assert forall|i: int, j: int| 0 <= i < j < r.len() implies lex_lt(#[trigger] r[i].0, #[trigger] r[j].0) by {
        assert(r[i] == full[lo + i]);
        assert(r[j] == full[lo + j]);
    }
    assert forall|k: Seq<u8>| #[trigger] m.contains_key(k) implies exists|i: int|
        0 <= i < r.len() && (#[trigger] r[i]).0 == k by {
        assert(m0.contains_key(k));
        let i = choose|i: int| 0 <= i < full.len() && (#[trigger] full[i]).0 == k;
        assert(i >= lo);
        let x = i - lo;
        if x > hi {
            assert(lex_lt(full[lo + hi].0, full[i].0));
            lemma_below_end_antitone(full[lo + hi].0, full[i].0, end);
        }
        assert(x < hi);
        assert(r[x] == full[i]);
    }
}

/// Whether `q` is a prefix of the start bound's key (an open start has none).
fn start_extends<K: KeyTrait>(q: &[u8], b: &KeyBound<K>) -> (r: bool)
    ensures
        r == match *b {
            KeyBound::Included(s) => q@.is_prefix_of(s@),
            KeyBound::Excluded(s) => q@.is_prefix_of(s@),
            KeyBound::Unbounded => true,
        },
{
    match b {
        KeyBound::Included(s) => {
            let r = is_prefix_at(q, s.as_slice(), 0);
            proof {
                assert(s@.skip(0) == s@);
            }
            r
        },
        KeyBound::Excluded(s) => {
            let r = is_prefix_at(q, s.as_slice(), 0);
            proof {
                assert(s@.skip(0) == s@);
            }
            r
        },
        KeyBound::Unbounded => true,
    }
}

/// A key that fails the start bound and is not a prefix of its key fails it
/// however it is extended.
proof fn lemma_below_start_extended<K: View<V = Seq<u8>>>(q: Seq<u8>, x: Seq<u8>, b: KeyBound<K>)
    requires
        !above_start(q, b),
        match b {
            KeyBound::Included(s) => !q.is_prefix_of(s@),
            KeyBound::Excluded(s) => !q.is_prefix_of(s@),
            KeyBound::Unbounded => false,
        },
    ensures
        !above_start(q + x, b),
{
    match b {
        KeyBound::Included(s) => {
            lemma_lex_extend_below(q, s@, x);
        },
        KeyBound::Excluded(s) => {
            if q == s@ {
                assert(q.is_prefix_of(s@)) by {
                    assert(s@.subrange(0, q.len() as int) == q);
                }
            }
            lemma_lex_total(q, s@);
            lemma_lex_extend_below(q, s@, x);
            lemma_lex_asymmetric(q + x, s@);
        },
        KeyBound::Unbounded => {},
    }
}

/// A key that passes the start bound passes it however it is extended.
proof fn lemma_above_start_extended<K: View<V = Seq<u8>>>(q: Seq<u8>, x: Seq<u8>, b: KeyBound<K>)
    requires
        above_start(q, b),
    ensures
        above_start(q + x, b),
{
    if x.len() == 0 {
        assert(q + x == q);
    } else {
        lemma_lex_extension(q, x);
        lemma_above_start_monotone(q, q + x, b);
    }
}

/// Appends, in key order, the entries of `n` whose keys (with `path` in front) pass
/// the start bound. A subtree whose keys all pass is listed whole, and one whose
/// keys all fail is skipped without being visited: only the nodes on the way to
/// the start bound are searched. The entries that fail are the first `lo` ones.
#[verifier::rlimit(60)]
fn collect_from_start<'a, K: KeyTrait, V>(
    n: &'a Node<V>,
    path: &mut Vec<u8>,
    start: &KeyBound<K>,
    out: &mut Vec<(K, &'a V)>,
) -> (lo: Ghost<int>)
    requires
        n.wf(),
    ensures
        final(path)@ == old(path)@,
        forall|i: int| 0 <= i < old(out)@.len() ==> final(out)@[i] == old(out)@[i],
        0 <= lo@ <= node_entries(*n).len(),
        forall|t: int|
            0 <= t < lo@ ==> !above_start(old(path)@ + (#[trigger] node_entries(*n)[t]).0, *start),
        forall|t: int|
            lo@ <= t < node_entries(*n).len() ==> above_start(
                old(path)@ + (#[trigger] node_entries(*n)[t]).0,
                *start,
            ),
        lists_from(final(out)@, old(out)@.len() as int, old(path)@, node_entries(*n).skip(lo@)),
    decreases n,
{
    let ghost path0 = path@;
    let ghost out0 = out@;
    let ghost p = n.prefix@;
    let ghost cs = n.children@;
    let ghost es = node_entries(*n);
    proof {
        lemma_node_entries(*n);
    }
    let base = path.len();
    let mut i: usize = 0;
    while i < n.prefix.len()
        invariant
            0 <= i <= n.prefix@.len(),
            p == n.prefix@,
            path@ == path0 + p.take(i as int),
        decreases n.prefix@.len() - i,
    {
        path.push(n.prefix[i]);
        proof {
            assert(p.take(i + 1) == p.take(i as int).push(p[i as int]));
        }
        i = i + 1;
    }
    proof {
        assert(p.take(p.len() as int) == p);
        // Every key below `n` is its full segment followed by more bytes.
        assert forall|t: int| 0 <= t < es.len() implies path0 + (#[trigger] es[t]).0 == (path0 + p) + es[t].0.skip(p.len() as int) by {
            assert(es[t].0 =~= p + es[t].0.skip(p.len() as int)) by {
                assert(es[t].0.subrange(0, p.len() as int) == p);
            }
        }
    }
    if passes_start(path.as_slice(), start) {
        path.truncate(base);
        proof {
            assert(path@ == path0);
            assert forall|t: int| 0 <= t < es.len() implies above_start(path0 + (#[trigger] es[t]).0, *start) by {
                lemma_above_start_extended(path0 + p, es[t].0.skip(p.len() as int), *start);
            }
            assert(es.skip(0) == es);
        }
        collect_entries(n, path, out);
        return Ghost(0);
    }
    if !start_extends(path.as_slice(), start) {
        path.truncate(base);
        proof {
            assert(path@ == path0);
            assert forall|t: int| 0 <= t < es.len() implies !above_start(path0 + (#[trigger] es[t]).0, *start) by {
                lemma_below_start_extended(path0 + p, es[t].0.skip(p.len() as int), *start);
            }
            assert(es.skip(es.len() as int) =~= Seq::<(Seq<u8>, V)>::empty());
        }
        return Ghost(es.len() as int);
    }
    // The segment so far is a prefix of the start key and sorts before it: the
    // node's own key fails, and the children are searched in turn.
    let ghost own: int = if n.value is Some { 1 } else { 0 };
    let ghost q = path0 + p;
    let ghost mut lo: int = 0;
    proof {
        assert(children_entries(cs, 0) =~= Seq::<(Seq<u8>, V)>::empty());
        assert(children_entries(cs, 0).skip(0) =~= Seq::<(Seq<u8>, V)>::empty());
        assert forall|j: int| 0 <= j < cs.len() implies (#[trigger] cs[j]).wf() by {
            assert(n.children@[j].wf());
        }
        lemma_children_entries(cs, cs.len() as int);
    }
    let mut j: usize = 0;
    while j < n.children.len()
        invariant
            n.wf(),
            cs == n.children@,
            forall|x: int| 0 <= x < cs.len() ==> (#[trigger] cs[x]).wf(),
            keys_sorted(children_entries(cs, cs.len() as int)),
            0 <= j <= cs.len(),
            path@ == q,
            forall|i: int| 0 <= i < out0.len() ==> out@[i] == out0[i],
            0 <= lo <= children_entries(cs, j as int).len(),
            forall|t: int|
                0 <= t < lo ==> !above_start(q + (#[trigger] children_entries(cs, j as int)[t]).0, *start),
            forall|t: int|
                lo <= t < children_entries(cs, j as int).len() ==> above_start(
                    q + (#[trigger] children_entries(cs, j as int)[t]).0,
                    *start,
                ),
            lists_from(out@, out0.len() as int, q, children_entries(cs, j as int).skip(lo)),
        decreases cs.len() - j,
    {
        let ghost before = out@;
        let ghost prev = children_entries(cs, j as int);
        let ghost ec = node_entries(cs[j as int]);
        let Ghost(lc) = collect_from_start(&n.children[j], path, start, out);
        proof {
            let all = children_entries(cs, j + 1);
            assert(all == prev + ec);
            // Once an earlier entry passes, every later one does.
            if lo < prev.len() && lc > 0 {
                lemma_children_entries(cs, j + 1);
                assert(all[lo] == prev[lo]);
                assert(all[prev.len() as int] == ec[0]);
                assert(lex_lt(all[lo].0, all[prev.len() as int].0));
                lemma_lex_common_prefix(q, all[lo].0, all[prev.len() as int].0);
                lemma_above_start_monotone(q + prev[lo].0, q + ec[0].0, *start);
            }
            let new_lo = if lo < prev.len() { lo } else { lo + lc };
            assert forall|t: int| 0 <= t < new_lo implies !above_start(q + (#[trigger] all[t]).0, *start) by {
                if t >= prev.len() {
                    assert(all[t] == ec[t - prev.len()]);
                } else {
                    assert(all[t] == prev[t]);
                }
            }
            assert forall|t: int| new_lo <= t < all.len() implies above_start(q + (#[trigger] all[t]).0, *start) by {
                if t >= prev.len() {
                    assert(all[t] == ec[t - prev.len()]);
                } else {
                    assert(all[t] == prev[t]);
                }
            }
            let sk = all.skip(new_lo);
            let ps = prev.skip(lo);
            let cs2 = ec.skip(lc);
            assert(sk =~= ps + cs2);
            assert forall|x: int| 0 <= x < sk.len() implies out@[out0.len() + x].0@ == q + (#[trigger] sk[x]).0 && *out@[out0.len() + x].1 == sk[x].1 by {
                if x >= ps.len() {
                    assert(sk[x] == cs2[x - ps.len()]);
                } else {
                    assert(sk[x] == ps[x]);
                    assert(out@[out0.len() + x] == before[out0.len() + x]);
                }
            }
            lo = new_lo;
        }
        j = j + 1;
    }
    path.truncate(base);
    proof {
        assert(path@ == path0);
        let ce = children_entries(cs, cs.len() as int);
        let total = own + lo;
        assert(es == (if n.value is Some { seq![(p, n.value->0)] } else { Seq::<(Seq<u8>, V)>::empty() }) + prepend_all(p, ce));
        assert forall|t: int| 0 <= t < es.len() && t >= own implies (#[trigger] es[t]).0 == p + ce[t - own].0 by {}
        if own == 1 {
            assert(es[0].0 == p);
            assert(p == p + Seq::<u8>::empty());
            assert(path0 + es[0].0 == q);
        }
        assert forall|t: int| 0 <= t < total implies !above_start(path0 + (#[trigger] es[t]).0, *start) by {
            if t >= own {
                assert(path0 + es[t].0 =~= q + ce[t - own].0);
            } else {
                assert(path0 + es[t].0 == q);
            }
        }
        assert forall|t: int| total <= t < es.len() implies above_start(path0 + (#[trigger] es[t]).0, *start) by {
            assert(path0 + es[t].0 =~= q + ce[t - own].0);
        }
        let sk = es.skip(total);
        assert forall|x: int| 0 <= x < sk.len() implies out@[out0.len() + x].0@ == path0 + (#[trigger] sk[x]).0 && *out@[out0.len() + x].1 == sk[x].1 by {
            assert(sk[x] == es[total + x]);
            assert(ce.skip(lo)[x] == ce[lo + x]);
            assert(path0 + es[total + x].0 =~= q + ce[lo + x].0);
        }
        assert(out@.len() == out0.len() + sk.len());
    }
    Ghost(own + lo)
}

/// Whether `k` passes the start bound.
fn passes_start<K: KeyTrait>(k: &[u8], b: &KeyBound<K>) -> (r: bool)
    ensures
        r == above_start(k@, *b),
{
    match b {
        KeyBound::Included(s) => !lex_less(k, s.as_slice()),
        KeyBound::Excluded(s) => lex_less(s.as_slice(), k),
        KeyBound::Unbounded => true,
    }
}

/// Whether `k` passes the end bound.
fn within_end<K: KeyTrait>(k: &[u8], b: &KeyBound<K>) -> (r: bool)
    ensures
        r == below_end(k@, *b),
{
    match b {
        KeyBound::Included(e) => !lex_less(e.as_slice(), k),
        KeyBound::Excluded(e) => lex_less(k, e.as_slice()),
        KeyBound::Unbounded => true,
    }
}


impl<KeyType: KeyTrait, ValueType> AdaptiveRadixTree<KeyType, ValueType> {
    /// A mutable reference to the value under `key`. Writing through it changes
    /// that value only.
    pub fn get_mut_k(&mut self, key: &KeyType) -> (r: Option<&mut ValueType>)
        requires
            old(self).wf(),
        ensures
            final(self).wf(),
            match r {
                Some(v) => {
                    &&& old(self)@.contains_key(key@)
                    &&& old(self)@[key@] == *v
                    &&& final(self)@ == old(self)@.insert(key@, *final(v))
                },
                None => !old(self)@.contains_key(key@) && final(self)@ == old(self)@,
            },
    {
        proof {
            assert(key@.skip(0) == key@);
        }
        match &mut self.root {
            None => None,
            Some(root) => root.get_iterate_mut(key.as_slice(), 0),
        }
    }

    /// A mutable reference to the value under any key that converts into the
    /// tree's key type.
    pub fn get_mut<Key: IntoKey<KeyType>>(&mut self, key: Key) -> (r: Option<&mut ValueType>)
        requires
            old(self).wf(),
        ensures
            final(self).wf(),
            match r {
                Some(v) => {
                    &&& old(self)@.contains_key(key.key_bytes())
                    &&& old(self)@[key.key_bytes()] == *v
                    &&& final(self)@ == old(self)@.insert(key.key_bytes(), *final(v))
                },
                None => !old(self)@.contains_key(key.key_bytes()) && final(self)@ == old(self)@,
            },
    {
        let k = key.into_key();
        self.get_mut_k(&k)
    }
}

} // verus!
