//! Shape statistics of a tree: how many values, leaves and inner nodes it holds,
//! how many levels it has, and how its inner nodes spread over the adaptive node
//! widths (4, 16, 48 and 256 children).
use vstd::prelude::*;
use crate::iter::{children_entries, node_entries};
use crate::node::{Node, lemma_child_height, max_height};

verus! {

/// Counts for the inner nodes of one adaptive width: the nodes whose number of
/// children needs that width and no smaller one.
#[derive(Clone, Copy)]
pub struct NodeStats {
    /// Largest number of children a node of this width holds.
    pub width: usize,
    /// Number of inner nodes of this width.
    pub total_nodes: usize,
    /// Number of children of those nodes, summed.
    pub total_children: usize,
}

/// The adaptive width class for a node with `c` children: 0 for up to 4
/// children, 1 for up to 16, 2 for up to 48, 3 beyond.
pub open spec fn width_class(c: nat) -> int {
    if c <= 4 {
        0
    } else if c <= 16 {
        1
    } else if c <= 48 {
        2
    } else {
        3
    }
}

/// The width of class `w`.
pub open spec fn class_width(w: int) -> int {
    if w == 0 {
        4
    } else if w == 1 {
        16
    } else if w == 2 {
        48
    } else {
        256
    }
}

/// A node is counted under the smallest adaptive width that holds its children:
/// the widths are 4, 16, 48 and 256, a node with `c` children (at most 256, one
/// per byte) fits its class, and it does not fit the class below.
pub proof fn lemma_width_class_smallest(c: nat)
    requires
        c <= 256,
    ensures
        class_width(0) == 4 && class_width(1) == 16 && class_width(2) == 48 && class_width(3) == 256,
        0 <= width_class(c) < 4,
        c <= class_width(width_class(c)),
        width_class(c) > 0 ==> c > class_width(width_class(c) - 1),
{
}

/// The class of a node with `c` children, computed.
fn width_class_of(c: usize) -> (w: usize)
    ensures
        w == width_class(c as nat),
        w < 4,
        c <= 256 ==> c <= class_width(w as int),
        w > 0 ==> c > class_width(w - 1),
{
    if c <= 4 {
        0
    } else if c <= 16 {
        1
    } else if c <= 48 {
        2
    } else {
        3
    }
}

/// Counts gathered over the nodes of a tree.
pub struct TreeStats {
    /// Number of values stored.
    pub num_values: usize,
    /// Number of nodes without children.
    pub num_leaves: usize,
    /// Number of nodes with children.
    pub num_inner_nodes: usize,
    /// Number of levels: one for a lone root, zero for an empty tree.
    pub max_height: usize,
    /// Inner nodes by width: four entries, for widths 4, 16, 48 and 256.
    pub node_stats: Vec<NodeStats>,
}

/// `ns` lists the four widths in order.
pub open spec fn widths_listed(ns: Seq<NodeStats>) -> bool {
    &&& ns.len() == 4
    &&& forall|w: int| 0 <= w < 4 ==> (#[trigger] ns[w]).width == class_width(w)
}

impl Default for TreeStats {
    /// All counts zero: the statistics of an empty tree.
    fn default() -> (s: Self)
        ensures
            s.num_values == 0,
            s.num_leaves == 0,
            s.num_inner_nodes == 0,
            s.max_height == 0,
            widths_listed(s.node_stats@),
            forall|w: int| 0 <= w < 4 ==> (#[trigger] s.node_stats@[w]).total_nodes == 0
                && s.node_stats@[w].total_children == 0,
    {
        let mut node_stats: Vec<NodeStats> = Vec::new();
        node_stats.push(NodeStats { width: 4, total_nodes: 0, total_children: 0 });
        node_stats.push(NodeStats { width: 16, total_nodes: 0, total_children: 0 });
        node_stats.push(NodeStats { width: 48, total_nodes: 0, total_children: 0 });
        node_stats.push(NodeStats { width: 256, total_nodes: 0, total_children: 0 });
        TreeStats { num_values: 0, num_leaves: 0, num_inner_nodes: 0, max_height: 0, node_stats }
    }
}

/// Leaves and inner nodes of the subtree below and including `n`.
pub open spec fn node_tally<V>(n: Node<V>) -> (nat, nat)
    decreases n, 0nat,
{
    let c = children_tally(n.children@, n.children@.len() as int);
    if n.children@.len() == 0 {
        (c.0 + 1, c.1)
    } else {
        (c.0, c.1 + 1)
    }
}

/// Leaves and inner nodes of the subtrees of the first `i` children.
pub open spec fn children_tally<V>(cs: Seq<Node<V>>, i: int) -> (nat, nat)
    decreases cs, i,
{
    if i <= 0 || i > cs.len() {
        (0, 0)
    } else {
        let a = children_tally(cs, i - 1);
        let b = node_tally(cs[i - 1]);
        (a.0 + b.0, a.1 + b.1)
    }
}

/// Inner nodes of width class `w` in the subtree below and including `n`, and
/// their children summed.
pub open spec fn width_tally<V>(n: Node<V>, w: int) -> (nat, nat)
    decreases n, 0nat,
{
    let c = children_width_tally(n.children@, n.children@.len() as int, w);
    let k = n.children@.len();
    if k > 0 && width_class(k) == w {
        (c.0 + 1, c.1 + k)
    } else {
        c
    }
}

/// The same counts over the subtrees of the first `i` children.
pub open spec fn children_width_tally<V>(cs: Seq<Node<V>>, i: int, w: int) -> (nat, nat)
    decreases cs, i,
{
    if i <= 0 || i > cs.len() {
        (0, 0)
    } else {
        let a = children_width_tally(cs, i - 1, w);
        let b = width_tally(cs[i - 1], w);
        (a.0 + b.0, a.1 + b.1)
    }
}

/// Every inner node has exactly one width class.
pub proof fn lemma_width_sum<V>(n: Node<V>)
    ensures
        width_tally(n, 0).0 + width_tally(n, 1).0 + width_tally(n, 2).0 + width_tally(n, 3).0
            == node_tally(n).1,
    decreases n, 0nat,
{
    let cs = n.children@;
    lemma_children_width_sum(cs, cs.len() as int);
}

/// Every inner node among the first `i` children's subtrees has exactly one width
/// class.
pub proof fn lemma_children_width_sum<V>(cs: Seq<Node<V>>, i: int)
    ensures
        children_width_tally(cs, i, 0).0 + children_width_tally(cs, i, 1).0 + children_width_tally(cs, i, 2).0
            + children_width_tally(cs, i, 3).0 == children_tally(cs, i).1,
    decreases cs, i,
{
    if 0 < i <= cs.len() {
        lemma_children_width_sum(cs, i - 1);
        lemma_width_sum(cs[i - 1]);
    }
}

/// Number of nodes of the subtree below and including `n`.
pub open spec fn node_count<V>(n: Node<V>) -> nat {
    node_tally(n).0 + node_tally(n).1
}

/// A subtree holds at most one value per node and has at most as many levels as
/// nodes.
pub proof fn lemma_tally_bounds<V>(n: Node<V>)
    ensures
        node_entries(n).len() <= node_count(n),
        n.height() <= node_count(n),
    decreases n, 0nat,
{
    let cs = n.children@;
    lemma_children_tally_bounds(cs, cs.len() as int);
}

/// The children up to the `i`-th hold at most one value per node, and the highest
/// of them has at most as many levels as they have nodes.
pub proof fn lemma_children_tally_bounds<V>(cs: Seq<Node<V>>, i: int)
    ensures
        children_entries(cs, i).len() <= children_tally(cs, i).0 + children_tally(cs, i).1,
        max_height(cs, i) <= children_tally(cs, i).0 + children_tally(cs, i).1,
    decreases cs, i,
{
    if 0 < i <= cs.len() {
        lemma_children_tally_bounds(cs, i - 1);
        lemma_tally_bounds(cs[i - 1]);
    }
}

/// `x`, or `usize::MAX` if it does not fit: what a count that saturates holds.
pub open spec fn capped(x: int) -> int {
    if x > usize::MAX {
        usize::MAX as int
    } else {
        x
    }
}

/// Every subtree has at least one leaf.
pub proof fn lemma_has_leaf<V>(n: Node<V>)
    ensures
        node_tally(n).0 >= 1,
    decreases n,
{
    let cs = n.children@;
    if cs.len() > 0 {
        let i = cs.len() - 1;
        assert(decreases_to!(n => n.children@[i]));
        lemma_has_leaf(cs[i]);
        assert(children_tally(cs, cs.len() as int).0 == children_tally(cs, i).0 + node_tally(cs[i]).0);
    }
}

/// Adds the counts of the subtree below and including `node`, found `height`
/// levels down, to `stats`. Counts saturate at `usize::MAX`.
pub fn get_tree_stats_recurse<V>(node: &Node<V>, stats: &mut TreeStats, height: usize)
    requires
        1 <= height,
        widths_listed(old(stats).node_stats@),
    ensures
        widths_listed(final(stats).node_stats@),
        forall|w: int|
            0 <= w < 4 ==> (#[trigger] final(stats).node_stats@[w]).total_nodes == capped(
                old(stats).node_stats@[w].total_nodes + width_tally(*node, w).0,
            ),
        forall|w: int|
            0 <= w < 4 ==> (#[trigger] final(stats).node_stats@[w]).total_children == capped(
                old(stats).node_stats@[w].total_children + width_tally(*node, w).1,
            ),
        final(stats).num_values == capped(old(stats).num_values + node_entries(*node).len()),
        final(stats).num_leaves == capped(old(stats).num_leaves + node_tally(*node).0),
        final(stats).num_inner_nodes == capped(old(stats).num_inner_nodes + node_tally(*node).1),
        final(stats).max_height == if old(stats).max_height >= capped(height + node.height() - 1) {
            old(stats).max_height as int
        } else {
            capped(height + node.height() - 1)
        },
    decreases node.height(),
{
    let ghost cs = node.children@;
    proof {
        assert(node_entries(*node).len() == (if node.value is Some { 1int } else { 0int })
            + children_entries(cs, cs.len() as int).len());
    }
    if height > stats.max_height {
        stats.max_height = height;
    }
    if node.value.is_some() {
        stats.num_values = stats.num_values.saturating_add(1);
    }
    if node.children.len() == 0 {
        stats.num_leaves = stats.num_leaves.saturating_add(1);
    } else {
        stats.num_inner_nodes = stats.num_inner_nodes.saturating_add(1);
        let c = node.children.len();
        let w = width_class_of(c);
        let mut e = stats.node_stats[w];
        e.total_nodes = e.total_nodes.saturating_add(1);
        e.total_children = e.total_children.saturating_add(c);
        stats.node_stats.set(w, e);
    }
    let ghost s1 = *stats;
    let ghost k = cs.len();
    proof {
        assert forall|w: int| 0 <= w < 4 implies (#[trigger] s1.node_stats@[w]).total_nodes == capped(
            old(stats).node_stats@[w].total_nodes + (if k > 0 && width_class(k) == w { 1int } else { 0int }),
        ) && s1.node_stats@[w].total_children == capped(
            old(stats).node_stats@[w].total_children + (if k > 0 && width_class(k) == w { k as int } else { 0int }),
        ) by {}
        assert(children_width_tally(cs, 0, 0) == (0nat, 0nat));
    }
    let child_height = height.saturating_add(1);
    let mut i: usize = 0;
    while i < node.children.len()
        invariant
            cs == node.children@,
            0 <= i <= cs.len(),
            1 <= height,
            child_height == capped(height + 1),
            widths_listed(stats.node_stats@),
            forall|w: int|
                0 <= w < 4 ==> (#[trigger] stats.node_stats@[w]).total_nodes == capped(
                    s1.node_stats@[w].total_nodes + children_width_tally(cs, i as int, w).0,
                ),
            forall|w: int|
                0 <= w < 4 ==> (#[trigger] stats.node_stats@[w]).total_children == capped(
                    s1.node_stats@[w].total_children + children_width_tally(cs, i as int, w).1,
                ),
            node.height() == 1 + max_height(cs, cs.len() as int),
            stats.num_values == capped(s1.num_values + children_entries(cs, i as int).len()),
            stats.num_leaves == capped(s1.num_leaves + children_tally(cs, i as int).0),
            stats.num_inner_nodes == capped(s1.num_inner_nodes + children_tally(cs, i as int).1),
            stats.max_height == if s1.max_height >= capped(height + max_height(cs, i as int)) {
                s1.max_height as int
            } else {
                capped(height + max_height(cs, i as int))
            },
        decreases cs.len() - i,
    {
        proof {
            lemma_child_height(*node, i as int);
        }
        get_tree_stats_recurse(&node.children[i], stats, child_height);
        i = i + 1;
    }
}

} // verus!
