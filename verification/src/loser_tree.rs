//! A loser tree (tournament tree) for N-way merging: it keeps the smallest of N
//! current values, and after the caller replaces the smallest one it replays only
//! the matches on that participant's path to the root.
//!
//! Participants are leaves `0..k` of a complete binary tree laid out as a heap:
//! leaf `l` sits at position `l + k`, internal nodes at positions `1..k`, and the
//! node at `p` has children `2p` and `2p + 1`. Each internal node remembers the
//! loser of its match; position 0 remembers the overall winner.
use vstd::prelude::*;
use vstd::std_specs::cmp::{PartialEqSpec, PartialOrdIs, PartialOrdSpec};

verus! {

/// Entry in the loser tree, tracking the source iterator index.
#[derive(Debug, Clone)]
pub struct Entry<T> {
    /// The current value from this source (`None` once the source is exhausted).
    pub value: Option<T>,
    /// Index of the source.
    pub source_idx: usize,
}

impl<T> Entry<T> {
    /// Create a new entry with the given value and source index.
    pub fn new(value: Option<T>, source_idx: usize) -> (e: Self)
        ensures
            e.value == value,
            e.source_idx == source_idx,
    {
        Entry { value, source_idx }
    }
}

/// The comparisons of `T` follow their specification and order values strictly
/// and totally, with `==` as the matching equivalence.
pub open spec fn order_laws<T: Ord>() -> bool {
    &&& T::obeys_eq_spec()
    &&& T::obeys_partial_cmp_spec()
    &&& forall|x: T| #![auto] !x.is_lt(&x)
    &&& forall|x: T| #![auto] x.eq_spec(&x)
    &&& forall|x: T, y: T| #![auto] x.is_lt(&y) || x.eq_spec(&y) || y.is_lt(&x)
    &&& forall|x: T, y: T| #![auto] x.is_lt(&y) ==> !y.is_lt(&x) && !x.eq_spec(&y)
    &&& forall|x: T, y: T| #![auto] x.eq_spec(&y) ==> y.eq_spec(&x)
    &&& forall|x: T, y: T, z: T| #![auto] x.is_lt(&y) && y.is_lt(&z) ==> x.is_lt(&z)
    &&& forall|x: T, y: T, z: T| #![auto] x.eq_spec(&y) && y.is_lt(&z) ==> x.is_lt(&z)
    &&& forall|x: T, y: T, z: T| #![auto] x.is_lt(&y) && y.eq_spec(&z) ==> x.is_lt(&z)
    &&& forall|x: T, y: T, z: T| #![auto] x.eq_spec(&y) && y.eq_spec(&z) ==> x.eq_spec(&z)
}

/// Leaf `a` beats leaf `b`: a smaller value wins, a value beats an exhausted
/// source, and ties go to the lower index.
pub open spec fn leaf_less<T: Ord>(leaves: Seq<Entry<T>>, a: int, b: int) -> bool {
    match (leaves[a].value, leaves[b].value) {
        (Some(va), Some(vb)) => va.is_lt(&vb) || (va.eq_spec(&vb) && a < b),
        (Some(_), None) => true,
        (None, Some(_)) => false,
        (None, None) => a < b,
    }
}

/// Leaf `w` beats every other leaf.
pub open spec fn is_min_leaf<T: Ord>(leaves: Seq<Entry<T>>, w: int) -> bool {
    &&& 0 <= w < leaves.len()
    &&& forall|l: int| 0 <= l < leaves.len() && l != w ==> #[trigger] leaf_less(leaves, w, l)
}

/// Leaf `w` holds the least value present, and every leaf to its left holds a
/// larger value or none; with no value present at all, `w` is the first leaf.
pub open spec fn least_leftmost<T: Ord>(leaves: Seq<Entry<T>>, w: int) -> bool {
    &&& 0 <= w < leaves.len()
    &&& match leaves[w].value {
        Some(m) => forall|i: int|
            0 <= i < leaves.len() && (#[trigger] leaves[i]).value is Some ==> !(leaves[i].value->0).is_lt(&m) && (
            i < w ==> m.is_lt(&(leaves[i].value->0))),
        None => w == 0 && forall|i: int| 0 <= i < leaves.len() ==> (#[trigger] leaves[i]).value is None,
    }
}

/// The leaf that beats every other one holds the least value, leftmost.
pub proof fn lemma_min_leaf_least<T: Ord>(leaves: Seq<Entry<T>>, w: int)
    requires
        order_laws::<T>(),
        is_min_leaf(leaves, w),
    ensures
        least_leftmost(leaves, w),
{
    match leaves[w].value {
        Some(m) => {
            assert forall|i: int| 0 <= i < leaves.len() && (#[trigger] leaves[i]).value is Some implies !(
            leaves[i].value->0).is_lt(&m) && (i < w ==> m.is_lt(&(leaves[i].value->0))) by {
                if i != w {
                    assert(leaf_less(leaves, w, i));
                }
            }
        },
        None => {
            assert forall|i: int| 0 <= i < leaves.len() implies (#[trigger] leaves[i]).value is None by {
                if i != w {
                    assert(leaf_less(leaves, w, i));
                }
            }
            if w != 0 {
                assert(leaf_less(leaves, w, 0));
            }
        },
    }
}

/// Only one leaf holds the least value leftmost: the winner is determined by the
/// values alone, whatever matches were played before.
pub proof fn lemma_least_leftmost_unique<T: Ord>(leaves: Seq<Entry<T>>, w1: int, w2: int)
    requires
        order_laws::<T>(),
        least_leftmost(leaves, w1),
        least_leftmost(leaves, w2),
    ensures
        w1 == w2,
{
    if leaves[w1].value is Some && leaves[w2].value is Some && w1 != w2 {
        if w1 < w2 {
            assert(leaves[w1].value is Some);
        } else {
            assert(leaves[w2].value is Some);
        }
    }
}

/// `n` is a power of two.
pub open spec fn is_pow2(n: int) -> bool
    decreases n,
{
    if n == 1 {
        true
    } else if n >= 2 {
        n % 2 == 0 && is_pow2(n / 2)
    } else {
        false
    }
}

/// Position `q` lies on the path from position `v` up to the root.
pub open spec fn is_ancestor(q: int, v: int) -> bool
    decreases v,
{
    if v == q {
        true
    } else if v >= 2 {
        is_ancestor(q, v / 2)
    } else {
        false
    }
}

/// The leaf that wins the matches below position `p`.
pub open spec fn win<T: Ord>(leaves: Seq<Entry<T>>, k: int, p: int) -> int
    decreases 2 * k - p,
{
    if p >= k || p < 1 {
        p - k
    } else {
        let a = win(leaves, k, 2 * p);
        let b = win(leaves, k, 2 * p + 1);
        if leaf_less(leaves, a, b) {
            a
        } else {
            b
        }
    }
}

/// The leaf that loses the match at internal position `p`.
pub open spec fn lose<T: Ord>(leaves: Seq<Entry<T>>, k: int, p: int) -> int {
    let a = win(leaves, k, 2 * p);
    let b = win(leaves, k, 2 * p + 1);
    if leaf_less(leaves, a, b) {
        b
    } else {
        a
    }
}

/// The order between leaves is a strict total order.
proof fn lemma_leaf_order<T: Ord>(leaves: Seq<Entry<T>>)
    requires
        order_laws::<T>(),
    ensures
        forall|a: int| #![auto] !leaf_less(leaves, a, a),
        forall|a: int, b: int| #![auto] a != b ==> leaf_less(leaves, a, b) || leaf_less(leaves, b, a),
        forall|a: int, b: int| #![auto] leaf_less(leaves, a, b) ==> !leaf_less(leaves, b, a),
        forall|a: int, b: int, c: int|
            #![auto]
            leaf_less(leaves, a, b) && leaf_less(leaves, b, c) ==> leaf_less(leaves, a, c),
{
}

proof fn lemma_ancestor_ge(q: int, v: int)
    requires
        is_ancestor(q, v),
    ensures
        v >= q,
    decreases v,
{
    if v != q {
        lemma_ancestor_ge(q, v / 2);
    }
}

proof fn lemma_ancestor_root(v: int)
    requires
        v >= 1,
    ensures
        is_ancestor(1, v),
    decreases v,
{
    if v >= 2 {
        lemma_ancestor_root(v / 2);
    }
}

/// Below an ancestor, the path goes through one of its two children.
proof fn lemma_ancestor_step(q: int, v: int)
    requires
        q >= 1,
        is_ancestor(q, v),
        v != q,
    ensures
        is_ancestor(2 * q, v) || is_ancestor(2 * q + 1, v),
    decreases v,
{
    let u = v / 2;
    if u == q {
        assert(is_ancestor(v, v));
    } else {
        lemma_ancestor_step(q, u);
        if is_ancestor(2 * q, u) {
            assert(is_ancestor(2 * q, v));
        } else {
            assert(is_ancestor(2 * q + 1, v));
        }
    }
}

/// The parent of an ancestor is an ancestor.
proof fn lemma_ancestor_up(c: int, v: int)
    requires
        c >= 2,
        is_ancestor(c, v),
    ensures
        is_ancestor(c / 2, v),
    decreases v,
{
    if v == c {
        assert(is_ancestor(c / 2, c / 2));
    } else {
        lemma_ancestor_up(c, v / 2);
    }
}

/// Two ancestors of the same position lie on one path.
proof fn lemma_ancestor_chain(a: int, b: int, v: int)
    requires
        is_ancestor(a, v),
        is_ancestor(b, v),
        a <= b,
    ensures
        is_ancestor(a, b),
    decreases v,
{
    if v == b {
    } else if v == a {
        lemma_ancestor_ge(b, v);
    } else {
        lemma_ancestor_chain(a, b, v / 2);
    }
}

/// No position lies below both children of a node.
proof fn lemma_siblings_disjoint(q: int, v: int)
    requires
        q >= 1,
    ensures
        !(is_ancestor(2 * q, v) && is_ancestor(2 * q + 1, v)),
{
    if is_ancestor(2 * q, v) && is_ancestor(2 * q + 1, v) {
        lemma_ancestor_chain(2 * q, 2 * q + 1, v);
        assert(is_ancestor(2 * q, q));
        lemma_ancestor_ge(2 * q, q);
    }
}

/// The winner below `p` is a leaf below `p` that beats every other leaf below `p`.
proof fn lemma_win_min<T: Ord>(leaves: Seq<Entry<T>>, k: int, p: int)
    requires
        order_laws::<T>(),
        k >= 1,
        leaves.len() == k,
        1 <= p < 2 * k,
    ensures
        0 <= win(leaves, k, p) < k,
        is_ancestor(p, win(leaves, k, p) + k),
        forall|l: int|
            0 <= l < k && is_ancestor(p, l + k) && l != win(leaves, k, p) ==> #[trigger] leaf_less(
                leaves,
                win(leaves, k, p),
                l,
            ),
    decreases 2 * k - p,
{
    lemma_leaf_order(leaves);
    let w = win(leaves, k, p);
    if p >= k {
        assert forall|l: int| 0 <= l < k && #[trigger] is_ancestor(p, l + k) implies l == w by {
            if l + k != p {
                lemma_ancestor_ge(p, (l + k) / 2);
            }
        }
    } else {
        lemma_win_min(leaves, k, 2 * p);
        lemma_win_min(leaves, k, 2 * p + 1);
        let a = win(leaves, k, 2 * p);
        let b = win(leaves, k, 2 * p + 1);
        if w == a {
            lemma_ancestor_up(2 * p, a + k);
        } else {
            lemma_ancestor_up(2 * p + 1, b + k);
        }
        assert forall|l: int|
            0 <= l < k && is_ancestor(p, l + k) && l != w implies #[trigger] leaf_less(leaves, w, l) by {
            lemma_ancestor_step(p, l + k);
        }
    }
}

/// The overall winner wins every match on its own path.
proof fn lemma_win_on_path<T: Ord>(leaves: Seq<Entry<T>>, k: int, q: int)
    requires
        order_laws::<T>(),
        k >= 1,
        leaves.len() == k,
        1 <= q < 2 * k,
        is_ancestor(q, win(leaves, k, 1) + k),
    ensures
        win(leaves, k, q) == win(leaves, k, 1),
{
    lemma_leaf_order(leaves);
    lemma_win_min(leaves, k, 1);
    lemma_win_min(leaves, k, q);
    let w = win(leaves, k, 1);
    let wq = win(leaves, k, q);
    lemma_ancestor_root(wq + k);
    if wq != w {
        assert(leaf_less(leaves, wq, w));
        assert(leaf_less(leaves, w, wq));
    }
}

/// Changing one leaf does not change the winners of subtrees without it.
proof fn lemma_win_unaffected<T: Ord>(l1: Seq<Entry<T>>, l2: Seq<Entry<T>>, k: int, w: int, p: int)
    requires
        order_laws::<T>(),
        k >= 1,
        l1.len() == k,
        l2.len() == k,
        0 <= w < k,
        forall|i: int| 0 <= i < k && i != w ==> l1[i] == l2[i],
        1 <= p < 2 * k,
        !is_ancestor(p, w + k),
    ensures
        win(l1, k, p) == win(l2, k, p),
    decreases 2 * k - p,
{
    if p < k {
        if is_ancestor(2 * p, w + k) {
            lemma_ancestor_up(2 * p, w + k);
        }
        if is_ancestor(2 * p + 1, w + k) {
            lemma_ancestor_up(2 * p + 1, w + k);
        }
        lemma_win_unaffected(l1, l2, k, w, 2 * p);
        lemma_win_unaffected(l1, l2, k, w, 2 * p + 1);
        lemma_win_min(l1, k, 2 * p);
        lemma_win_min(l1, k, 2 * p + 1);
        let a = win(l1, k, 2 * p);
        let b = win(l1, k, 2 * p + 1);
        assert(a != w);
        assert(b != w);
    }
}

/// Replacing the winner's value by one that is not smaller (or by nothing) never
/// brings up a smaller winner: fed from sorted sources, the loser tree hands out
/// their values in order.
pub proof fn lemma_winner_monotone<T: Ord>(leaves: Seq<Entry<T>>, w: int, next: Entry<T>, w2: int)
    requires
        order_laws::<T>(),
        is_min_leaf(leaves, w),
        leaves[w].value is Some,
        next.value matches Some(x) ==> !x.is_lt(&leaves[w].value->0),
        is_min_leaf(leaves.update(w, next), w2),
        leaves.update(w, next)[w2].value is Some,
    ensures
        !(leaves.update(w, next)[w2].value->0).is_lt(&(leaves[w].value->0)),
{
    if w2 != w {
        assert(leaf_less(leaves, w, w2));
        assert(leaves.update(w, next)[w2] == leaves[w2]);
    }
}

/// A loser tree for efficient N-way merge operations.
pub struct LoserTree<T> {
    /// Position 0 holds the overall winner, positions `1..k` the loser of each match.
    losers: Vec<usize>,
    /// The participants, padded to `k` with exhausted entries.
    leaves: Vec<Entry<T>>,
    /// Number of leaves: the smallest power of two at least the number of participants.
    k: usize,
}

impl<T: Ord> View for LoserTree<T> {
    type V = Seq<Entry<T>>;

    closed spec fn view(&self) -> Seq<Entry<T>> {
        self.leaves@
    }
}

impl<T: Ord> LoserTree<T> {
    /// Every stored match result agrees with the current leaves.
    pub closed spec fn wf(&self) -> bool {
        let k = self.k as int;
        &&& order_laws::<T>()
        &&& k >= 1
        &&& self.leaves@.len() == k
        &&& self.losers@.len() == k
        &&& 2 * k <= usize::MAX
        &&& self.losers@[0] == win(self.leaves@, k, 1)
        &&& forall|p: int| 1 <= p < k ==> #[trigger] self.losers@[p] == lose(self.leaves@, k, p)
    }

    /// The leaf that currently wins.
    pub closed spec fn winner(&self) -> int {
        self.losers@[0] as int
    }

    /// A well-formed tree's values obey the order laws.
    pub proof fn lemma_order_laws(&self)
        requires
            self.wf(),
        ensures
            order_laws::<T>(),
    {
    }

    /// The current winner beats every other participant.
    pub proof fn lemma_winner_is_min(&self)
        requires
            self.wf(),
        ensures
            is_min_leaf(self@, self.winner()),
    {
        let k = self.k as int;
        lemma_win_min(self.leaves@, k, 1);
        assert forall|l: int| 0 <= l < k && l != self.winner() implies #[trigger] leaf_less(self@, self.winner(), l) by {
            lemma_ancestor_root(l + k);
        }
    }

    /// The winner depends on the participants alone: two well-formed trees over
    /// the same participants, however they got there (built afresh or through any
    /// replacements), name the same winner, the leftmost least one.
    pub proof fn lemma_winner_determined(&self, other: &Self)
        requires
            self.wf(),
            other.wf(),
            self@ == other@,
        ensures
            self.winner() == other.winner(),
            least_leftmost(self@, self.winner()),
    {
        self.lemma_winner_is_min();
        other.lemma_winner_is_min();
        lemma_min_leaf_least(self@, self.winner());
        lemma_min_leaf_least(other@, other.winner());
        lemma_least_leftmost_unique(self@, self.winner(), other.winner());
    }

    /// Compare two leaves: whether leaf `a` beats leaf `b`.
    fn is_less(&self, a: usize, b: usize) -> (r: bool)
        requires
            order_laws::<T>(),
            a < self.leaves@.len(),
            b < self.leaves@.len(),
        ensures
            r == leaf_less(self.leaves@, a as int, b as int),
    {
        let val_a = &self.leaves[a].value;
        let val_b = &self.leaves[b].value;
        match val_a {
            Some(va) => match val_b {
                Some(vb) => va < vb || (va == vb && a < b),
                None => true,
            },
            None => match val_b {
                Some(_) => false,
                None => a < b,
            },
        }
    }
}


impl<T: Ord> LoserTree<T> {
    /// Build a new loser tree from the given entries, padded with exhausted
    /// entries up to the next power of two.
    pub fn new(entries: Vec<Entry<T>>) -> (r: Self)
        requires
            entries@.len() >= 1,
            entries@.len() <= usize::MAX / 4,
            order_laws::<T>(),
        ensures
            r.wf(),
            is_pow2(r@.len() as int),
            entries@.len() <= r@.len() < 2 * entries@.len(),
            r@.take(entries@.len() as int) == entries@,
            forall|i: int|
                entries@.len() <= i < r@.len() ==> (#[trigger] r@[i]).value is None && r@[i].source_idx == i,
    {
        let n = entries.len();
        let mut k: usize = 1;
        while k < n
            invariant
                1 <= k < 2 * n,
                n <= usize::MAX / 4,
                is_pow2(k as int),
            decreases 2 * n - k,
        {
            proof {
                assert((2 * k) as int / 2 == k as int);
            }
            k = k * 2;
        }
        let mut leaves = entries;
        let ghost e0 = leaves@;
        let mut i: usize = n;
        while i < k
            invariant
                n <= i <= k,
                leaves@.len() == i,
                leaves@.take(n as int) == e0,
                e0.len() == n,
                forall|j: int| n <= j < i ==> (#[trigger] leaves@[j]).value is None && leaves@[j].source_idx == j,
            decreases k - i,
        {
            let ghost before = leaves@;
            leaves.push(Entry::new(None, i));
            proof {
                assert(leaves@.take(n as int) == before.take(n as int));
            }
            i = i + 1;
        }
        let mut tree = LoserTree { losers: Vec::new(), leaves, k };
        tree.build();
        tree
    }

    /// Plays all matches bottom-up and records each loser.
    fn build(&mut self)
        requires
            order_laws::<T>(),
            old(self).k >= 1,
            old(self).leaves@.len() == old(self).k,
            2 * old(self).k <= usize::MAX,
        ensures
            final(self).wf(),
            final(self).leaves == old(self).leaves,
            final(self).k == old(self).k,
    {
        let k = self.k;
        let ghost kk = k as int;
        let ghost lv = self.leaves@;
        let mut losers: Vec<usize> = Vec::new();
        let mut wins: Vec<usize> = Vec::new();
        let mut i: usize = 0;
        while i < 2 * k
            invariant
                k == self.k,
                kk == k,
                2 * k <= usize::MAX,
                i <= 2 * k,
                wins@.len() == i,
                losers@.len() == (if i < k { i as int } else { k as int }),
                forall|q: int| k <= q < i ==> #[trigger] wins@[q] == q - k,
            decreases 2 * k - i,
        {
            if i < k {
                losers.push(0);
                wins.push(0);
            } else {
                wins.push(i - k);
            }
            i = i + 1;
        }
        proof {
            lemma_leaf_order(lv);
            assert forall|q: int| k <= q < 2 * k implies #[trigger] wins@[q] == win(lv, kk, q) by {}
        }
        let mut p: usize = k;
        while p > 1
            invariant
                order_laws::<T>(),
                k == self.k,
                kk == k,
                lv == self.leaves@,
                lv.len() == k,
                k >= 1,
                2 * k <= usize::MAX,
                1 <= p <= k,
                wins@.len() == 2 * k,
                losers@.len() == k,
                forall|q: int| p <= q < 2 * k ==> #[trigger] wins@[q] == win(lv, kk, q),
                forall|q: int| p <= q < k ==> #[trigger] losers@[q] == lose(lv, kk, q),
            decreases p,
        {
            p = p - 1;
            let a = wins[2 * p];
            let b = wins[2 * p + 1];
            proof {
                lemma_win_min(lv, kk, 2 * p);
                lemma_win_min(lv, kk, 2 * p + 1);
            }
            if self.is_less(a, b) {
                losers.set(p, b);
                wins.set(p, a);
            } else {
                losers.set(p, a);
                wins.set(p, b);
            }
        }
        let w1 = wins[1];
        losers.set(0, w1);
        self.losers = losers;
        proof {
            if k == 1 {
                assert(wins@[1] == win(lv, kk, 1));
            }
        }
    }

    /// Replays the matches on the path of leaf `leaf_idx`, whose value changed,
    /// from the leaf to the root. The leaf must have been the winner before.
    fn replay(&mut self, leaf_idx: usize, old_leaves: Ghost<Seq<Entry<T>>>)
        requires
            order_laws::<T>(),
            old(self).k >= 1,
            2 * old(self).k <= usize::MAX,
            old(self).leaves@.len() == old(self).k,
            old(self).losers@.len() == old(self).k,
            old_leaves@.len() == old(self).k,
            leaf_idx == win(old_leaves@, old(self).k as int, 1),
            forall|i: int| 0 <= i < old(self).k && i != leaf_idx ==> old_leaves@[i] == old(self).leaves@[i],
            forall|p: int|
                1 <= p < old(self).k ==> #[trigger] old(self).losers@[p] == lose(old_leaves@, old(self).k as int, p),
        ensures
            final(self).wf(),
            final(self).leaves == old(self).leaves,
            final(self).k == old(self).k,
    {
        let k = self.k;
        let ghost kk = k as int;
        let ghost l1 = old_leaves@;
        let ghost l2 = self.leaves@;
        let ghost v0 = leaf_idx + kk;
        proof {
            lemma_leaf_order(l1);
            lemma_leaf_order(l2);
            lemma_win_min(l1, kk, 1);
        }
        let mut pos = leaf_idx + k;
        let mut winner = leaf_idx;
        proof {
            assert(win(l2, kk, pos as int) == leaf_idx);
            assert(is_ancestor(pos as int, v0));
        }
        while pos > 1
            invariant
                order_laws::<T>(),
                k == self.k,
                kk == k,
                k >= 1,
                2 * k <= usize::MAX,
                l2 == self.leaves@,
                self.leaves == old(self).leaves,
                l1.len() == k,
                l2.len() == k,
                leaf_idx == win(l1, kk, 1),
                leaf_idx < k,
                v0 == leaf_idx + kk,
                forall|i: int| 0 <= i < k && i != leaf_idx ==> l1[i] == l2[i],
                1 <= pos < 2 * k,
                is_ancestor(pos as int, v0),
                winner == win(l2, kk, pos as int),
                self.losers@.len() == k,
                forall|q: int|
                    1 <= q < k ==> #[trigger] self.losers@[q] == if is_ancestor(q, v0) && q >= pos {
                        lose(l2, kk, q)
                    } else {
                        lose(l1, kk, q)
                    },
            decreases pos,
        {
            let parent = pos / 2;
            let opponent = self.losers[parent];
            proof {
                let par = parent as int;
                let sib: int = if pos % 2 == 0 { pos + 1 } else { pos - 1 };
                lemma_ancestor_up(pos as int, v0);
                lemma_siblings_disjoint(par, v0);
                assert(!is_ancestor(sib, v0));
                assert(!(par >= pos));
                lemma_win_on_path(l1, kk, pos as int);
                lemma_win_min(l1, kk, 1);
                lemma_win_min(l1, kk, sib);
                lemma_win_unaffected(l1, l2, kk, leaf_idx as int, sib);
                assert(par * 2 == pos || par * 2 + 1 == pos);
                assert(sib == par * 2 || sib == par * 2 + 1);
                assert(win(l1, kk, sib) != leaf_idx);
                lemma_ancestor_root(win(l1, kk, sib) + kk);
                assert(leaf_less(l1, leaf_idx as int, win(l1, kk, sib)));
                assert(opponent == win(l1, kk, sib));
                assert(opponent == win(l2, kk, sib));
                lemma_win_min(l2, kk, pos as int);
                lemma_win_min(l2, kk, sib);
                lemma_siblings_disjoint(par, winner + kk);
                assert(opponent != winner);
            }
            let ghost old_pos = pos as int;
            let ghost old_losers = self.losers@;
            if self.is_less(opponent, winner) {
                self.losers.set(parent, winner);
                winner = opponent;
            } else {
                self.losers.set(parent, opponent);
            }
            pos = parent;
            proof {
                let par = parent as int;
                assert(self.losers@[par] == lose(l2, kk, par));
                assert(winner == win(l2, kk, par));
                assert forall|q: int|
                    1 <= q < k implies #[trigger] self.losers@[q] == if is_ancestor(q, v0) && q >= pos {
                    lose(l2, kk, q)
                } else {
                    lose(l1, kk, q)
                } by {
                    if q != par {
                        assert(self.losers@[q] == old_losers[q]);
                        if is_ancestor(q, v0) && q >= par && q < old_pos {
                            lemma_ancestor_chain(q, old_pos, v0);
                            assert(is_ancestor(q, old_pos / 2));
                            lemma_ancestor_ge(q, old_pos / 2);
                        }
                    }
                }
            }
        }
        self.losers.set(0, winner);
        proof {
            assert forall|q: int| 1 <= q < k implies #[trigger] self.losers@[q] == lose(l2, kk, q) by {
                if !is_ancestor(q, v0) {
                    if is_ancestor(2 * q, v0) {
                        lemma_ancestor_up(2 * q, v0);
                    }
                    if is_ancestor(2 * q + 1, v0) {
                        lemma_ancestor_up(2 * q + 1, v0);
                    }
                    lemma_win_unaffected(l1, l2, kk, leaf_idx as int, 2 * q);
                    lemma_win_unaffected(l1, l2, kk, leaf_idx as int, 2 * q + 1);
                    lemma_win_min(l1, kk, 2 * q);
                    lemma_win_min(l1, kk, 2 * q + 1);
                    assert(win(l1, kk, 2 * q) != leaf_idx);
                    assert(win(l1, kk, 2 * q + 1) != leaf_idx);
                }
            }
        }
    }

    /// Return a reference to the current winner's entry, or `None` once every
    /// participant is exhausted.
    pub fn peek_min(&self) -> (r: Option<&Entry<T>>)
        requires
            self.wf(),
        ensures
            is_min_leaf(self@, self.winner()),
            least_leftmost(self@, self.winner()),
            match r {
                Some(e) => *e == self@[self.winner()] && e.value is Some,
                None => forall|i: int| 0 <= i < self@.len() ==> (#[trigger] self@[i]).value is None,
            },
    {
        proof {
            self.lemma_winner_is_min();
            lemma_min_leaf_least(self@, self.winner());
        }
        let winner = self.losers[0];
        let entry = &self.leaves[winner];
        if entry.value.is_some() {
            Some(entry)
        } else {
            proof {
                assert forall|i: int| 0 <= i < self@.len() implies (#[trigger] self@[i]).value is None by {
                    if i != self.winner() {
                        assert(leaf_less(self@, self.winner(), i));
                    }
                }
            }
            None
        }
    }

    /// Return the source index of the current winner.
    pub fn winner_idx(&self) -> (r: usize)
        requires
            self.wf(),
        ensures
            is_min_leaf(self@, self.winner()),
            least_leftmost(self@, self.winner()),
            r == self@[self.winner()].source_idx,
    {
        proof {
            self.lemma_winner_is_min();
            lemma_min_leaf_least(self@, self.winner());
        }
        self.leaves[self.losers[0]].source_idx
    }

    /// Replace the winner's value and replay its matches.
    pub fn replace_winner(&mut self, new_value: Option<T>)
        requires
            old(self).wf(),
        ensures
            final(self).wf(),
            final(self)@ == old(self)@.update(
                old(self).winner(),
                Entry { value: new_value, source_idx: old(self)@[old(self).winner()].source_idx },
            ),
            is_min_leaf(final(self)@, final(self).winner()),
            least_leftmost(final(self)@, final(self).winner()),
    {
        proof {
            lemma_win_min(self.leaves@, self.k as int, 1);
        }
        let ghost old_leaves = self.leaves@;
        let winner_leaf = self.losers[0];
        let src = self.leaves[winner_leaf].source_idx;
        self.leaves.set(winner_leaf, Entry::new(new_value, src));
        self.replay(winner_leaf, Ghost(old_leaves));
        proof {
            self.lemma_winner_is_min();
            lemma_min_leaf_least(self@, self.winner());
        }
    }
}


// The merge loop: sources handed to a loser tree one head at a time.

/// What a source offers once its first `p` items have been handed out.
pub open spec fn head_at<T>(src: Seq<T>, p: int) -> Option<T> {
    if 0 <= p < src.len() {
        Some(src[p])
    } else {
        None
    }
}

/// The participants of a `k`-leaf tree fed from `srcs`, where source `i` has
/// handed out its first `pos[i]` items; the leaves past the sources stay exhausted.
pub open spec fn merge_leaves<T>(srcs: Seq<Seq<T>>, pos: Seq<int>, k: int) -> Seq<Entry<T>> {
    Seq::new(
        k as nat,
        |i: int|
            Entry {
                value: if i < srcs.len() {
                    head_at(srcs[i], pos[i])
                } else {
                    None
                },
                source_idx: i as usize,
            },
    )
}

/// A state of the merge: at least one source, no more sources than leaves, and
/// source `i` has handed out `pos[i]` of its items.
pub open spec fn merge_state<T>(srcs: Seq<Seq<T>>, pos: Seq<int>, k: int) -> bool {
    &&& 1 <= srcs.len() <= k <= usize::MAX
    &&& pos.len() == srcs.len()
    &&& forall|i: int| 0 <= i < srcs.len() ==> 0 <= #[trigger] pos[i] <= srcs[i].len()
}

/// How many items the first `n` sources have still to hand out.
pub open spec fn items_left<T>(srcs: Seq<Seq<T>>, pos: Seq<int>, n: int) -> int
    decreases n,
{
    if n <= 0 {
        0
    } else {
        items_left(srcs, pos, n - 1) + (srcs[n - 1].len() - pos[n - 1])
    }
}

/// No item of `s` is smaller than one before it.
pub open spec fn ascending<T: Ord>(s: Seq<T>) -> bool {
    forall|a: int, b: int| #![trigger s[a], s[b]] 0 <= a < b < s.len() ==> !s[b].is_lt(&s[a])
}

/// Item `x`, tagged with its source, comes no later than `y`: the smaller value
/// first, and of equal values the one from the lower source.
pub open spec fn tagged_le<T: Ord>(x: (T, int), y: (T, int)) -> bool {
    x.0.is_lt(&y.0) || (x.0.eq_spec(&y.0) && x.1 <= y.1)
}

/// The items that `steps` rounds of the merge loop hand out, each tagged with its
/// source: every round takes the least value, leftmost, and advances that source.
pub open spec fn merge_run<T: Ord>(srcs: Seq<Seq<T>>, pos: Seq<int>, k: int, steps: nat) -> Seq<(T, int)>
    decreases steps,
{
    if steps == 0 {
        Seq::empty()
    } else {
        let leaves = merge_leaves(srcs, pos, k);
        let w = choose|w: int| least_leftmost(leaves, w);
        match leaves[w].value {
            Some(v) => seq![(v, w)] + merge_run(srcs, pos.update(w, pos[w] + 1), k, (steps - 1) as nat),
            None => Seq::empty(),
        }
    }
}

/// The items of `out` that came from source `i`, in their order.
pub open spec fn from_source<T>(out: Seq<(T, int)>, i: int) -> Seq<T>
    decreases out.len(),
{
    if out.len() == 0 {
        Seq::empty()
    } else {
        (if out[0].1 == i {
            seq![out[0].0]
        } else {
            Seq::empty()
        }) + from_source(out.drop_first(), i)
    }
}

proof fn lemma_items_left_step<T>(srcs: Seq<Seq<T>>, pos: Seq<int>, w: int, n: int)
    requires
        pos.len() == srcs.len(),
        0 <= w < srcs.len(),
        0 <= n <= srcs.len(),
    ensures
        items_left(srcs, pos.update(w, pos[w] + 1), n) == items_left(srcs, pos, n) - (if w < n {
            1int
        } else {
            0int
        }),
    decreases n,
{
    if n > 0 {
        lemma_items_left_step(srcs, pos, w, n - 1);
    }
}

proof fn lemma_items_left_zero<T>(srcs: Seq<Seq<T>>, pos: Seq<int>, n: int)
    requires
        pos.len() == srcs.len(),
        forall|i: int| 0 <= i < srcs.len() ==> 0 <= #[trigger] pos[i] <= srcs[i].len(),
        0 <= n <= srcs.len(),
    ensures
        items_left(srcs, pos, n) >= 0,
        items_left(srcs, pos, n) == 0 <==> forall|i: int| 0 <= i < n ==> #[trigger] pos[i] == srcs[i].len(),
    decreases n,
{
    if n > 0 {
        lemma_items_left_zero(srcs, pos, n - 1);
        assert(0 <= pos[n - 1] <= srcs[n - 1].len());
    }
}

/// Some leaf holds the least value leftmost.
proof fn lemma_least_leftmost_exists<T: Ord>(leaves: Seq<Entry<T>>)
    requires
        order_laws::<T>(),
        leaves.len() >= 1,
    ensures
        exists|w: int| least_leftmost(leaves, w),
{
    let k = leaves.len() as int;
    lemma_win_min(leaves, k, 1);
    let w = win(leaves, k, 1);
    assert forall|l: int| 0 <= l < k && l != w implies #[trigger] leaf_less(leaves, w, l) by {
        lemma_ancestor_root(l + k);
    }
    lemma_min_leaf_least(leaves, w);
}

/// In a merge state the leftmost least leaf holds a value exactly while items are
/// left, and that value is the head of its own source.
proof fn lemma_merge_winner<T: Ord>(srcs: Seq<Seq<T>>, pos: Seq<int>, k: int, w: int)
    requires
        order_laws::<T>(),
        merge_state(srcs, pos, k),
        least_leftmost(merge_leaves(srcs, pos, k), w),
    ensures
        (merge_leaves(srcs, pos, k)[w].value is None) <==> items_left(srcs, pos, srcs.len() as int) == 0,
        items_left(srcs, pos, srcs.len() as int) > 0 ==> {
            &&& w < srcs.len()
            &&& 0 <= pos[w] < srcs[w].len()
            &&& merge_leaves(srcs, pos, k)[w].value == Some(srcs[w][pos[w]])
        },
{
    let leaves = merge_leaves(srcs, pos, k);
    let n = srcs.len() as int;
    lemma_items_left_zero(srcs, pos, n);
    if items_left(srcs, pos, n) > 0 {
        let i = choose|i: int| 0 <= i < n && #[trigger] pos[i] != srcs[i].len();
        assert(leaves[i].value is Some);
        assert(leaves[w].value is Some);
    } else {
        assert forall|i: int| 0 <= i < k implies (#[trigger] leaves[i]).value is None by {
            if i < n {
                assert(pos[i] == srcs[i].len());
            }
        }
    }
}

/// One round of the merge: it hands out the head of the leftmost least source
/// and advances that source by one.
proof fn lemma_merge_run_step<T: Ord>(srcs: Seq<Seq<T>>, pos: Seq<int>, k: int, w: int, steps: nat)
    requires
        order_laws::<T>(),
        merge_state(srcs, pos, k),
        least_leftmost(merge_leaves(srcs, pos, k), w),
        steps > 0,
    ensures
        merge_run(srcs, pos, k, steps) == match merge_leaves(srcs, pos, k)[w].value {
            Some(v) => seq![(v, w)] + merge_run(srcs, pos.update(w, pos[w] + 1), k, (steps - 1) as nat),
            None => Seq::<(T, int)>::empty(),
        },
{
    let leaves = merge_leaves(srcs, pos, k);
    lemma_least_leftmost_exists(leaves);
    let c = choose|c: int| least_leftmost(leaves, c);
    lemma_least_leftmost_unique(leaves, c, w);
}

/// Fed from sources that each ascend, the merge loop hands out exactly the items
/// still left, in ascending order with ties going to the lower source, and takes
/// from every source its remaining items in their own order.
pub proof fn lemma_merge_run<T: Ord>(srcs: Seq<Seq<T>>, pos: Seq<int>, k: int)
    requires
        order_laws::<T>(),
        merge_state(srcs, pos, k),
        forall|i: int| 0 <= i < srcs.len() ==> ascending(#[trigger] srcs[i]),
    ensures
        ({
            let out = merge_run(srcs, pos, k, items_left(srcs, pos, srcs.len() as int) as nat);
            &&& out.len() == items_left(srcs, pos, srcs.len() as int)
            &&& forall|j: int| 0 <= j < out.len() - 1 ==> tagged_le(#[trigger] out[j], out[j + 1])
            &&& forall|i: int|
                0 <= i < srcs.len() ==> #[trigger] from_source(out, i) == srcs[i].subrange(
                    pos[i],
                    srcs[i].len() as int,
                )
        }),
    decreases items_left(srcs, pos, srcs.len() as int),
{
    let n = srcs.len() as int;
    let left = items_left(srcs, pos, n);
    let out = merge_run(srcs, pos, k, left as nat);
    let leaves = merge_leaves(srcs, pos, k);
    lemma_items_left_zero(srcs, pos, n);
    lemma_least_leftmost_exists(leaves);
    let w = choose|w: int| least_leftmost(leaves, w);
    lemma_merge_winner(srcs, pos, k, w);
    if left == 0 {
        assert forall|i: int| 0 <= i < n implies #[trigger] from_source(out, i) == srcs[i].subrange(
            pos[i],
            srcs[i].len() as int,
        ) by {
            assert(pos[i] == srcs[i].len());
        }
    } else {
        let v = srcs[w][pos[w]];
        let pos2 = pos.update(w, pos[w] + 1);
        lemma_items_left_step(srcs, pos, w, n);
        assert(merge_state(srcs, pos2, k)) by {
            assert forall|i: int| 0 <= i < srcs.len() implies 0 <= #[trigger] pos2[i] <= srcs[i].len() by {
                assert(0 <= pos[i] <= srcs[i].len());
            }
        }
        lemma_merge_run(srcs, pos2, k);
        let rest = merge_run(srcs, pos2, k, (left - 1) as nat);
        lemma_merge_run_step(srcs, pos, k, w, left as nat);
        assert(out == seq![(v, w)] + rest);
        assert(out.drop_first() =~= rest);
        // The first item of the rest comes no earlier than `(v, w)`.
        if rest.len() > 0 {
            let leaves2 = merge_leaves(srcs, pos2, k);
            lemma_least_leftmost_exists(leaves2);
            let w2 = choose|w2: int| least_leftmost(leaves2, w2);
            lemma_merge_winner(srcs, pos2, k, w2);
            lemma_merge_run_step(srcs, pos2, k, w2, (left - 1) as nat);
            let v2 = srcs[w2][pos2[w2]];
            assert(rest[0] == (v2, w2));
            if w2 == w {
                assert(ascending(srcs[w]));
                assert(!srcs[w][pos[w] + 1].is_lt(&srcs[w][pos[w]]));
            } else {
                assert(leaves2[w2] == leaves[w2]);
                assert(leaves[w2].value == Some(v2));
                assert(!v2.is_lt(&v));
            }
            assert(tagged_le(out[0], out[1]));
        }
        assert forall|j: int| 0 <= j < out.len() - 1 implies tagged_le(#[trigger] out[j], out[j + 1]) by {
            if j > 0 {
                assert(out[j] == rest[j - 1]);
                assert(out[j + 1] == rest[j]);
            }
        }
        assert forall|i: int| 0 <= i < n implies #[trigger] from_source(out, i) == srcs[i].subrange(
            pos[i],
            srcs[i].len() as int,
        ) by {
            assert(from_source(rest, i) == srcs[i].subrange(pos2[i], srcs[i].len() as int));
            if i == w {
                assert(srcs[i].subrange(pos[i], srcs[i].len() as int) =~= seq![v] + srcs[i].subrange(
                    pos2[i],
                    srcs[i].len() as int,
                ));
            } else {
                assert(seq![] + from_source(rest, i) =~= from_source(rest, i));
            }
        }
    }
}

/// A loser tree built from the first item of each source (source `i` at leaf
/// `i`) stands at the start of the merge.
pub proof fn lemma_merge_start<T: Ord>(srcs: Seq<Seq<T>>, entries: Seq<Entry<T>>, leaves: Seq<Entry<T>>)
    requires
        1 <= srcs.len() <= leaves.len() <= usize::MAX,
        entries == merge_leaves(srcs, Seq::new(srcs.len(), |i: int| 0int), srcs.len() as int),
        leaves.take(entries.len() as int) == entries,
        forall|i: int|
            entries.len() <= i < leaves.len() ==> (#[trigger] leaves[i]).value is None && leaves[i].source_idx
                == i,
    ensures
        merge_state(srcs, Seq::new(srcs.len(), |i: int| 0int), leaves.len() as int),
        leaves == merge_leaves(srcs, Seq::new(srcs.len(), |i: int| 0int), leaves.len() as int),
{
    let pos = Seq::new(srcs.len(), |i: int| 0int);
    let m = merge_leaves(srcs, pos, leaves.len() as int);
    assert forall|i: int| 0 <= i < leaves.len() implies #[trigger] leaves[i] == m[i] by {
        if i < entries.len() {
            assert(leaves[i] == leaves.take(entries.len() as int)[i]);
        }
    }
    assert(leaves =~= m);
}

/// One round of the merge loop on a loser tree that holds the sources' current
/// heads: the tree's winner has a value exactly while items are left; then that
/// value is the head of the winner's own source, replacing it by that source's
/// next item leaves the tree at the next state, and the round hands out what
/// `merge_run` hands out first.
pub proof fn lemma_merge_round<T: Ord>(t: LoserTree<T>, srcs: Seq<Seq<T>>, pos: Seq<int>)
    requires
        t.wf(),
        merge_state(srcs, pos, t@.len() as int),
        t@ == merge_leaves(srcs, pos, t@.len() as int),
    ensures
        ({
            let k = t@.len() as int;
            let w = t.winner();
            let left = items_left(srcs, pos, srcs.len() as int);
            let pos2 = pos.update(w, pos[w] + 1);
            &&& (t@[w].value is None <==> left == 0)
            &&& left > 0 ==> {
                &&& w < srcs.len()
                &&& t@[w].value == Some(srcs[w][pos[w]])
                &&& t@[w].source_idx == w
                &&& merge_state(srcs, pos2, k)
                &&& items_left(srcs, pos2, srcs.len() as int) == left - 1
                &&& t@.update(w, Entry { value: head_at(srcs[w], pos2[w]), source_idx: t@[w].source_idx })
                    == merge_leaves(srcs, pos2, k)
                &&& merge_run(srcs, pos, k, left as nat) == seq![(srcs[w][pos[w]], w)] + merge_run(
                    srcs,
                    pos2,
                    k,
                    (left - 1) as nat,
                )
            }
        }),
{
    let k = t@.len() as int;
    let w = t.winner();
    let n = srcs.len() as int;
    let left = items_left(srcs, pos, n);
    t.lemma_order_laws();
    t.lemma_winner_is_min();
    lemma_min_leaf_least(t@, w);
    lemma_merge_winner(srcs, pos, k, w);
    if left > 0 {
        let pos2 = pos.update(w, pos[w] + 1);
        lemma_items_left_step(srcs, pos, w, n);
        assert(merge_state(srcs, pos2, k)) by {
            assert forall|i: int| 0 <= i < srcs.len() implies 0 <= #[trigger] pos2[i] <= srcs[i].len() by {
                assert(0 <= pos[i] <= srcs[i].len());
            }
        }
        assert(t@.update(w, Entry { value: head_at(srcs[w], pos2[w]), source_idx: t@[w].source_idx })
            =~= merge_leaves(srcs, pos2, k));
        lemma_merge_run_step(srcs, pos, k, w, left as nat);
    }
}

} // verus!
