pub mod node;
pub mod node_data;
pub mod greedy;
pub mod leaves;

use vstd::prelude::*;

use crate::utility::Occurences;
use crate::utility::heap::{NodeHeap, lemma_queue_contents, lemma_queue_weight, popped, pushed, total_weight};
use crate::utility::huffman_tree::node::Node;
use crate::utility::huffman_tree::node_data::{NodeData, weight_at};

verus! {

/// How many times `value` occurs in `input`.
pub open spec fn count_of(input: Seq<u8>, value: u8) -> nat
    decreases input.len(),
{
    if input.len() == 0 {
        0
    } else {
        count_of(input.drop_last(), value) + if input.last() == value { 1nat } else { 0nat }
    }
}

/// The count table of a byte string.
pub open spec fn input_counts(input: Seq<u8>) -> Seq<u64> {
    Seq::new(256, |v: int| count_of(input, v as u8) as u64)
}

pub proof fn lemma_count_bounded(input: Seq<u8>, value: u8)
    ensures
        count_of(input, value) <= input.len(),
    decreases input.len(),
{
    if input.len() > 0 {
        lemma_count_bounded(input.drop_last(), value);
    }
}

/// The children of an inner node come before it in the node collection.
pub open spec fn children_before(node: Node, i: int) -> bool {
    match node {
        Node::Node { left, right, .. } => left < i && right < i,
        Node::Leaf { .. } => true,
    }
}

/// Every inner node refers to nodes that come before it.
pub open spec fn nodes_wf(n: Seq<Node>) -> bool {
    forall|i: int| 0 <= i < n.len() ==> #[trigger] children_before(n[i], i)
}

/// A leaf with value `v` lies in the subtree at index `i`.
pub open spec fn leaf_reach(n: Seq<Node>, i: int, v: u8) -> bool
    decreases i,
{
    if 0 <= i < n.len() {
        match n[i] {
            Node::Leaf { value, .. } => value == v,
            Node::Node { left, right, .. } => if left < i && right < i {
                leaf_reach(n, left as int, v) || leaf_reach(n, right as int, v)
            } else {
                false
            },
        }
    } else {
        false
    }
}

/// The height of the subtree at index `i`.
pub open spec fn height(n: Seq<Node>, i: int) -> nat
    decreases i,
{
    if 0 <= i < n.len() {
        match n[i] {
            Node::Leaf { .. } => 0,
            Node::Node { left, right, .. } => if left < i && right < i {
                let hl = height(n, left as int);
                let hr = height(n, right as int);
                1 + if hl < hr { hr } else { hl }
            } else {
                0
            },
        }
    } else {
        0
    }
}

/// The leaves of the subtree at index `i`, left to right, each with the
/// path that leads to it from the root: `path` for node `i` itself, then
/// `true` for a step to the left child and `false` for one to the right.
pub open spec fn entries(n: Seq<Node>, i: int, path: Seq<bool>) -> Seq<(u8, Seq<bool>)>
    decreases i,
{
    if 0 <= i < n.len() {
        match n[i] {
            Node::Leaf { value, .. } => seq![(value, path)],
            Node::Node { left, right, .. } => if left < i && right < i {
                entries(n, left as int, path.push(true)) + entries(n, right as int, path.push(false))
            } else {
                Seq::empty()
            },
        }
    } else {
        Seq::empty()
    }
}

/// `p` is a prefix of `q`.
pub open spec fn is_prefix(p: Seq<bool>, q: Seq<bool>) -> bool {
    p.len() <= q.len() && forall|i: int| 0 <= i < p.len() ==> p[i] == q[i]
}

/// No path of the list is a prefix of another one.
pub open spec fn prefix_free(es: Seq<(u8, Seq<bool>)>) -> bool {
    forall|a: int, b: int|
        0 <= a < es.len() && 0 <= b < es.len() && a != b ==> !is_prefix(
            #[trigger] es[a].1,
            #[trigger] es[b].1,
        )
}

/// Appending nodes leaves every subtree of a well-formed collection unchanged.
pub proof fn lemma_extend_nodes(n: Seq<Node>, x: Node, i: int, path: Seq<bool>, v: u8)
    requires
        nodes_wf(n),
        0 <= i < n.len(),
    ensures
        leaf_reach(n.push(x), i, v) == leaf_reach(n, i, v),
        height(n.push(x), i) == height(n, i),
        entries(n.push(x), i, path) == entries(n, i, path),
    decreases i,
{
    assert(children_before(n[i], i));
    match n[i] {
        Node::Leaf { .. } => {},
        Node::Node { left, right, .. } => {
            lemma_extend_nodes(n, x, left as int, path.push(true), v);
            lemma_extend_nodes(n, x, right as int, path.push(false), v);
        },
    }
}

/// The paths of a subtree extend the path of its root, are at most its
/// height longer, and none is a prefix of another.
pub proof fn lemma_entries_prefix_free(n: Seq<Node>, i: int, path: Seq<bool>)
    requires
        nodes_wf(n),
    ensures
        prefix_free(entries(n, i, path)),
        forall|k: int|
            0 <= k < entries(n, i, path).len() ==> is_prefix(path, #[trigger] entries(n, i, path)[k].1)
                && entries(n, i, path)[k].1.len() <= path.len() + height(n, i),
    decreases i,
{
    if 0 <= i < n.len() {
        assert(children_before(n[i], i));
        match n[i] {
            Node::Leaf { .. } => {},
            Node::Node { left, right, .. } => {
                let pl = path.push(true);
                let pr = path.push(false);
                lemma_entries_prefix_free(n, left as int, pl);
                lemma_entries_prefix_free(n, right as int, pr);
                let l = entries(n, left as int, pl);
                let r = entries(n, right as int, pr);
                let es = entries(n, i, path);
                assert(es == l + r);
                assert forall|k: int| 0 <= k < es.len() implies is_prefix(path, #[trigger] es[k].1)
                    && es[k].1.len() <= path.len() + height(n, i) by {
                    if k < l.len() {
                        assert(es[k] == l[k]);
                        assert(is_prefix(pl, l[k].1));
                    } else {
                        assert(es[k] == r[k - l.len()]);
                        assert(is_prefix(pr, r[k - l.len()].1));
                    }
                }
                assert forall|a: int, b: int|
                    0 <= a < es.len() && 0 <= b < es.len() && a != b implies !is_prefix(
                    #[trigger] es[a].1,
                    #[trigger] es[b].1,
                ) by {
                    let d = path.len() as int;
                    if a < l.len() && b < l.len() {
                        assert(es[a] == l[a] && es[b] == l[b]);
                    } else if a >= l.len() && b >= l.len() {
                        assert(es[a] == r[a - l.len()] && es[b] == r[b - l.len()]);
                    } else if a < l.len() {
                        assert(es[a] == l[a] && es[b] == r[b - l.len()]);
                        assert(is_prefix(pl, es[a].1));
                        assert(is_prefix(pr, es[b].1));
                        assert(es[a].1[d] == true);
                        assert(es[b].1[d] == false);
                    } else {
                        assert(es[a] == r[a - l.len()] && es[b] == l[b]);
                        assert(is_prefix(pr, es[a].1));
                        assert(is_prefix(pl, es[b].1));
                        assert(es[a].1[d] == false);
                        assert(es[b].1[d] == true);
                    }
                }
            },
        }
    }
}

/// A leaf below node `i` has an entry.
pub proof fn lemma_reach_has_entry(n: Seq<Node>, i: int, path: Seq<bool>, v: u8)
    requires
        leaf_reach(n, i, v),
    ensures
        exists|k: int|
            0 <= k < entries(n, i, path).len() && (#[trigger] entries(n, i, path)[k]).0 == v,
    decreases i,
{
    match n[i] {
        Node::Leaf { .. } => {
            assert(entries(n, i, path)[0].0 == v);
        },
        Node::Node { left, right, .. } => {
            let l = entries(n, left as int, path.push(true));
            let r = entries(n, right as int, path.push(false));
            assert(entries(n, i, path) == l + r);
            if leaf_reach(n, left as int, v) {
                lemma_reach_has_entry(n, left as int, path.push(true), v);
                let k = choose|k: int| 0 <= k < l.len() && (#[trigger] l[k]).0 == v;
                assert(entries(n, i, path)[k] == l[k]);
            } else {
                lemma_reach_has_entry(n, right as int, path.push(false), v);
                let k = choose|k: int| 0 <= k < r.len() && (#[trigger] r[k]).0 == v;
                assert(entries(n, i, path)[l.len() + k] == r[k]);
            }
        },
    }
}

/// The path of the root: a tree that is a single leaf gives that leaf the
/// one-bit code 0, any other tree starts from the empty path.
pub open spec fn start_path_of(n: Seq<Node>) -> Seq<bool> {
    if n.len() == 1 {
        seq![false]
    } else {
        Seq::empty()
    }
}

/// The leaves of the tree at `root` with their codes, left to right.
pub open spec fn tree_entries(root: int, n: Seq<Node>) -> Seq<(u8, Seq<bool>)> {
    entries(n, root, start_path_of(n))
}

/// The length of the longest code of the tree at `root`.
pub open spec fn tree_code_length(root: int, n: Seq<Node>) -> nat {
    start_path_of(n).len() + height(n, root)
}

/// A tree whose root is an inner node, or which is a single leaf.
pub open spec fn tree_shaped(root: int, n: Seq<Node>) -> bool {
    &&& 0 <= root < n.len()
    &&& nodes_wf(n)
    &&& (n.len() == 1 || n[root] is Node)
}

/// The codes of a tree are prefix free, each is one to `tree_code_length`
/// bits long, and every leaf has one.
pub proof fn lemma_tree_codes(root: int, n: Seq<Node>)
    requires
        tree_shaped(root, n),
    ensures
        prefix_free(tree_entries(root, n)),
        forall|k: int|
            0 <= k < tree_entries(root, n).len() ==> 1 <= (#[trigger] tree_entries(root, n)[k]).1.len()
                <= tree_code_length(root, n),
        forall|u: u8|
            leaf_reach(n, root, u) ==> exists|k: int|
                0 <= k < tree_entries(root, n).len() && (#[trigger] tree_entries(root, n)[k]).0 == u,
{
    let es = tree_entries(root, n);
    lemma_entries_prefix_free(n, root, start_path_of(n));
    assert forall|u: u8| leaf_reach(n, root, u) implies exists|k: int|
        0 <= k < es.len() && (#[trigger] es[k]).0 == u by {
        lemma_reach_has_entry(n, root, start_path_of(n), u);
    }
    if n.len() != 1 {
        assert(children_before(n[root], root));
        match n[root] {
            Node::Node { left, right, .. } => {
                let l = entries(n, left as int, seq![true]);
                let r = entries(n, right as int, seq![false]);
                assert(Seq::<bool>::empty().push(true) =~= seq![true]);
                assert(Seq::<bool>::empty().push(false) =~= seq![false]);
                assert(es == l + r);
                lemma_entries_prefix_free(n, left as int, seq![true]);
                lemma_entries_prefix_free(n, right as int, seq![false]);
                assert forall|k: int| 0 <= k < es.len() implies 1 <= (#[trigger] es[k]).1.len() by {
                    if k < l.len() {
                        assert(es[k] == l[k]);
                        assert(is_prefix(seq![true], l[k].1));
                    } else {
                        assert(es[k] == r[k - l.len()]);
                        assert(is_prefix(seq![false], r[k - l.len()].1));
                    }
                }
            },
            Node::Leaf { .. } => {},
        }
    }
}

/// The sum of the first `v` counts.
pub open spec fn prefix_total(occ: Seq<u64>, v: int) -> nat
    decreases v,
{
    if v <= 0 {
        0
    } else {
        prefix_total(occ, v - 1) + occ[v - 1] as nat
    }
}

/// The sum of all counts.
pub open spec fn total_of(occ: Seq<u64>) -> nat {
    prefix_total(occ, occ.len() as int)
}

/// How many of the first `v` counts are not zero.
pub open spec fn nonzero_prefix(occ: Seq<u64>, v: int) -> nat
    decreases v,
{
    if v <= 0 {
        0
    } else {
        nonzero_prefix(occ, v - 1) + if occ[v - 1] != 0 { 1nat } else { 0nat }
    }
}

/// How many symbols occur at least once.
pub open spec fn symbol_count(occ: Seq<u64>) -> nat {
    nonzero_prefix(occ, occ.len() as int)
}

/// Queue and node collection after a leaf was made for each symbol below
/// `v` that occurs, in increasing order of the symbols.
pub open spec fn leaf_phase(occ: Seq<u64>, v: int) -> (Seq<NodeData>, Seq<Node>)
    decreases v,
{
    if v <= 0 {
        (Seq::empty(), Seq::empty())
    } else {
        let (h, n) = leaf_phase(occ, v - 1);
        if occ[v - 1] == 0 {
            (h, n)
        } else {
            let leaf = Node::Leaf { value: (v - 1) as u8, occurence: occ[v - 1] };
            (pushed(h, NodeData { node: leaf, id: n.len() as usize }), n.push(leaf))
        }
    }
}

/// One merge: the two first items of the queue leave it and become the
/// children (first one left) of a new inner node, which joins the queue.
pub open spec fn merge_step(h: Seq<NodeData>, n: Seq<Node>) -> (Seq<NodeData>, Seq<Node>) {
    let (a, h1) = popped(h);
    let (b, h2) = popped(h1);
    let node = Node::Node {
        left: a.id,
        right: b.id,
        occurence: (weight_at(n, a.id as int) + weight_at(n, b.id as int)) as u64,
    };
    (pushed(h2, NodeData { node, id: n.len() as usize }), n.push(node))
}

/// `steps` merges in a row.
pub open spec fn merge_phase(h: Seq<NodeData>, n: Seq<Node>, steps: nat) -> (
    Seq<NodeData>,
    Seq<Node>,
)
    decreases steps,
{
    if steps == 0 {
        (h, n)
    } else {
        let (h2, n2) = merge_step(h, n);
        merge_phase(h2, n2, (steps - 1) as nat)
    }
}

/// The Huffman tree of a count table: its root index and its nodes.
pub open spec fn tree_of(occ: Seq<u64>) -> (usize, Seq<Node>) {
    let (h, n) = leaf_phase(occ, 256);
    let (hf, nf) = merge_phase(h, n, (h.len() - 1) as nat);
    (hf[0].id, nf)
}

/// The queue holds, for each of its items, the node at the item's index,
/// and the weights of its items add up to `total`.
pub open spec fn queue_wf(h: Seq<NodeData>, n: Seq<Node>, total: nat) -> bool {
    &&& forall|x: NodeData| h.contains(x) ==> x.id < n.len() && n[x.id as int] == x.node
    &&& total_weight(h) == total
    &&& n.len() + h.len() <= 512
}

pub proof fn lemma_leaf_phase(occ: Seq<u64>, v: int)
    requires
        0 <= v <= occ.len() <= 256,
    ensures
        queue_wf(leaf_phase(occ, v).0, leaf_phase(occ, v).1, prefix_total(occ, v)),
        leaf_phase(occ, v).0.len() == nonzero_prefix(occ, v),
        leaf_phase(occ, v).1.len() == nonzero_prefix(occ, v),
        nonzero_prefix(occ, v) <= v,
    decreases v,
{
    broadcast use vstd::seq_lib::group_to_multiset_ensures;
    if v > 0 {
        lemma_leaf_phase(occ, v - 1);
        let (h, n) = leaf_phase(occ, v - 1);
        if occ[v - 1] != 0 {
            let leaf = Node::Leaf { value: (v - 1) as u8, occurence: occ[v - 1] };
            let x = NodeData { node: leaf, id: n.len() as usize };
            lemma_queue_contents(h, x);
            lemma_queue_weight(h, x);
            let h2 = pushed(h, x);
            assert forall|y: NodeData| h2.contains(y) implies y.id < n.len() + 1 && n.push(
                leaf,
            )[y.id as int] == y.node by {
                assert(h2.to_multiset().count(y) > 0);
                if y != x {
                    assert(h.to_multiset().count(y) > 0);
                    assert(h.contains(y));
                }
            }
        }
    }
}

pub proof fn lemma_merge_step(h: Seq<NodeData>, n: Seq<Node>, total: nat)
    requires
        queue_wf(h, n, total),
        h.len() >= 2,
        total <= u64::MAX,
    ensures
        ({
            let (a, h1) = popped(h);
            let (b, h2) = popped(h1);
            &&& h.contains(a) && h.contains(b)
            &&& h1.len() == h.len() - 1 && h2.len() == h.len() - 2
            &&& weight_at(n, a.id as int) + weight_at(n, b.id as int) <= total
        }),
        queue_wf(merge_step(h, n).0, merge_step(h, n).1, total),
        merge_step(h, n).0.len() == h.len() - 1,
        merge_step(h, n).1.len() == n.len() + 1,
{
    broadcast use vstd::seq_lib::group_to_multiset_ensures;
    let (a, h1) = popped(h);
    let (b, h2) = popped(h1);
    lemma_queue_contents(h, a);
    lemma_queue_weight(h, a);
    lemma_queue_contents(h1, a);
    lemma_queue_weight(h1, a);
    assert(h.to_multiset().count(a) > 0);
    assert(h1.to_multiset().count(b) > 0);
    assert(h.to_multiset().count(b) > 0);
    assert(h.contains(a));
    assert(h.contains(b));
    let node = Node::Node {
        left: a.id,
        right: b.id,
        occurence: (weight_at(n, a.id as int) + weight_at(n, b.id as int)) as u64,
    };
    let x = NodeData { node, id: n.len() as usize };
    lemma_queue_contents(h2, x);
    lemma_queue_weight(h2, x);
    let h3 = pushed(h2, x);
    assert forall|y: NodeData| h3.contains(y) implies y.id < n.len() + 1 && n.push(
        node,
    )[y.id as int] == y.node by {
        assert(h3.to_multiset().count(y) > 0);
        if y != x {
            assert(h2.to_multiset().count(y) > 0);
            assert(h1.to_multiset().count(y) > 0);
            assert(h.to_multiset().count(y) > 0);
            assert(h.contains(y));
        }
    }
}

/// Some item of the queue has a leaf with value `u` below it.
pub open spec fn covered(h: Seq<NodeData>, n: Seq<Node>, u: int) -> bool {
    exists|x: NodeData| h.contains(x) && leaf_reach(n, x.id as int, u as u8)
}

/// The node collection is well formed and every symbol below `v` that
/// occurs has its leaf below some item of the queue.
pub open spec fn forest_wf(h: Seq<NodeData>, n: Seq<Node>, occ: Seq<u64>, v: int) -> bool {
    &&& nodes_wf(n)
    &&& forall|u: int| 0 <= u < v && occ[u] != 0 ==> #[trigger] covered(h, n, u)
}

pub proof fn lemma_leaf_phase_forest(occ: Seq<u64>, v: int)
    requires
        0 <= v <= occ.len() <= 256,
    ensures
        forest_wf(leaf_phase(occ, v).0, leaf_phase(occ, v).1, occ, v),
    decreases v,
{
    broadcast use vstd::seq_lib::group_to_multiset_ensures;
    if v > 0 {
        lemma_leaf_phase_forest(occ, v - 1);
        lemma_leaf_phase(occ, v - 1);
        let (h, n) = leaf_phase(occ, v - 1);
        if occ[v - 1] != 0 {
            let leaf = Node::Leaf { value: (v - 1) as u8, occurence: occ[v - 1] };
            let x = NodeData { node: leaf, id: n.len() as usize };
            lemma_queue_contents(h, x);
            let h2 = pushed(h, x);
            let n2 = n.push(leaf);
            assert(nodes_wf(n2)) by {
                assert forall|i: int| 0 <= i < n2.len() implies #[trigger] children_before(
                    n2[i],
                    i,
                ) by {
                    if i < n.len() {
                        assert(children_before(n[i], i));
                    }
                }
            }
            assert forall|u: int| 0 <= u < v && occ[u] != 0 implies #[trigger] covered(
                h2,
                n2,
                u,
            ) by {
                if u == v - 1 {
                    assert(h2.to_multiset().count(x) > 0);
                    assert(h2.contains(x));
                    assert(leaf_reach(n2, x.id as int, u as u8));
                } else {
                    assert(covered(h, n, u));
                    let y = choose|y: NodeData|
                        h.contains(y) && leaf_reach(n, y.id as int, u as u8);
                    assert(h.to_multiset().count(y) > 0);
                    assert(h2.to_multiset().count(y) > 0);
                    assert(h2.contains(y));
                    lemma_extend_nodes(n, leaf, y.id as int, Seq::empty(), u as u8);
                }
            }
        }
    }
}

pub proof fn lemma_merge_forest(h: Seq<NodeData>, n: Seq<Node>, total: nat, occ: Seq<u64>)
    requires
        queue_wf(h, n, total),
        forest_wf(h, n, occ, occ.len() as int),
        h.len() >= 2,
        total <= u64::MAX,
    ensures
        forest_wf(merge_step(h, n).0, merge_step(h, n).1, occ, occ.len() as int),
{
    broadcast use vstd::seq_lib::group_to_multiset_ensures;
    lemma_merge_step(h, n, total);
    let (a, h1) = popped(h);
    let (b, h2) = popped(h1);
    lemma_queue_contents(h, a);
    lemma_queue_contents(h1, a);
    let node = Node::Node {
        left: a.id,
        right: b.id,
        occurence: (weight_at(n, a.id as int) + weight_at(n, b.id as int)) as u64,
    };
    let x = NodeData { node, id: n.len() as usize };
    lemma_queue_contents(h2, x);
    let h3 = pushed(h2, x);
    let n3 = n.push(node);
    assert(nodes_wf(n3)) by {
        assert forall|i: int| 0 <= i < n3.len() implies #[trigger] children_before(n3[i], i) by {
            if i < n.len() {
                assert(children_before(n[i], i));
            }
        }
    }
    assert(h3.to_multiset().count(x) > 0);
    assert(h3.contains(x));
    assert forall|u: int| 0 <= u < occ.len() && occ[u] != 0 implies #[trigger] covered(
        h3,
        n3,
        u,
    ) by {
        assert(covered(h, n, u));
        let y = choose|y: NodeData| h.contains(y) && leaf_reach(n, y.id as int, u as u8);
        lemma_extend_nodes(n, node, y.id as int, Seq::empty(), u as u8);
        if y == a || y == b {
            lemma_extend_nodes(n, node, a.id as int, Seq::empty(), u as u8);
            lemma_extend_nodes(n, node, b.id as int, Seq::empty(), u as u8);
            assert(leaf_reach(n3, x.id as int, u as u8));
        } else {
            assert(h.to_multiset().count(y) > 0);
            assert(h1.to_multiset().count(y) > 0);
            assert(h2.to_multiset().count(y) > 0);
            assert(h3.to_multiset().count(y) > 0);
            assert(h3.contains(y));
        }
    }
}

pub proof fn lemma_merge_phase(h: Seq<NodeData>, n: Seq<Node>, steps: nat, total: nat, occ: Seq<u64>)
    requires
        queue_wf(h, n, total),
        forest_wf(h, n, occ, occ.len() as int),
        h.len() == steps + 1,
        total <= u64::MAX,
    ensures
        queue_wf(merge_phase(h, n, steps).0, merge_phase(h, n, steps).1, total),
        forest_wf(merge_phase(h, n, steps).0, merge_phase(h, n, steps).1, occ, occ.len() as int),
        merge_phase(h, n, steps).0.len() == 1,
        steps > 0 ==> merge_phase(h, n, steps).1[merge_phase(h, n, steps).0[0].id as int] is Node,
        steps > 0 ==> merge_phase(h, n, steps).0[0].id == merge_phase(h, n, steps).1.len() - 1,
        merge_phase(h, n, steps).1.len() == n.len() + steps,
        merge_phase(h, n, steps).1.take(n.len() as int) == n,
    decreases steps,
{
    broadcast use vstd::seq_lib::group_to_multiset_ensures;
    if steps > 0 {
        lemma_merge_step(h, n, total);
        lemma_merge_forest(h, n, total, occ);
        let (h2, n2) = merge_step(h, n);
        lemma_merge_phase(h2, n2, (steps - 1) as nat, total, occ);
        let nf = merge_phase(h, n, steps).1;
        assert(nf.take(n.len() as int) =~= nf.take(n2.len() as int).take(n.len() as int));
        assert(n2.take(n.len() as int) =~= n);
        if steps == 1 {
            let (a, h1) = popped(h);
            let (b, hb) = popped(h1);
            assert(hb.len() == 0);
            assert(hb =~= Seq::<NodeData>::empty());
            let node = Node::Node {
                left: a.id,
                right: b.id,
                occurence: (weight_at(n, a.id as int) + weight_at(n, b.id as int)) as u64,
            };
            let x = NodeData { node, id: n.len() as usize };
            assert(hb.push(x) =~= seq![x]);
            assert(h2 == crate::utility::heap::sift_up(seq![x], 0));
            assert(h2[0] == x);
            assert(merge_phase(h2, n2, 0) == (h2, n2));
            assert(h2.len() == 1);
            assert(h2.contains(h2[0]));
        }
    }
}

/// The tree of a count table with at least one symbol and a total that fits
/// in 64 bits is well formed, and every symbol that occurs has a leaf in it.
pub proof fn lemma_tree_of_wf(occ: Seq<u64>)
    requires
        occ.len() == 256,
        symbol_count(occ) > 0,
        total_of(occ) <= u64::MAX,
    ensures
        tree_of(occ).0 < tree_of(occ).1.len(),
        nodes_wf(tree_of(occ).1),
        forall|u: u8| occ[u as int] != 0 ==> #[trigger] leaf_reach(tree_of(occ).1, tree_of(occ).0 as int, u),
        tree_shaped(tree_of(occ).0 as int, tree_of(occ).1),
{
    broadcast use vstd::seq_lib::group_to_multiset_ensures;
    lemma_leaf_phase(occ, 256);
    lemma_leaf_phase_forest(occ, 256);
    let (h, n) = leaf_phase(occ, 256);
    lemma_merge_phase(h, n, (h.len() - 1) as nat, total_of(occ), occ);
    let (hf, nf) = merge_phase(h, n, (h.len() - 1) as nat);
    assert(hf.contains(hf[0]));
    if h.len() == 1 {
        assert(merge_phase(h, n, 0) == (h, n));
        assert(h.contains(h[0]));
        assert(n.len() == 1);
    }
    assert forall|u: u8| occ[u as int] != 0 implies #[trigger] leaf_reach(nf, hf[0].id as int, u) by {
        assert(covered(hf, nf, u as int));
        let y = choose|y: NodeData| hf.contains(y) && leaf_reach(nf, y.id as int, u);
        let k = choose|k: int| 0 <= k < hf.len() && hf[k] == y;
        assert(k == 0);
    }
}

pub struct HuffmanTree {
    pub root: usize,
    pub nodes: Vec<Node>,
}

impl HuffmanTree {
    /// The root index is valid and the node collection well formed.
    pub open spec fn wf(&self) -> bool {
        &&& self.root < self.nodes@.len()
        &&& nodes_wf(self.nodes@)
    }

    /// The path of the root.
    pub open spec fn start_path(&self) -> Seq<bool> {
        start_path_of(self.nodes@)
    }

    /// The leaves of the tree with their codes, left to right.
    pub open spec fn code_entries(&self) -> Seq<(u8, Seq<bool>)> {
        tree_entries(self.root as int, self.nodes@)
    }

    /// The length of the longest code.
    pub open spec fn max_code_length(&self) -> nat {
        tree_code_length(self.root as int, self.nodes@)
    }

    /// The root node.
    pub fn root(&self) -> (node: &Node)
        requires
            self.wf(),
        ensures
            *node == self.nodes@[self.root as int],
    {
        &self.nodes[self.root]
    }

    /// The length of the longest code of the tree.
    pub fn longest_code(&self) -> (len: usize)
        requires
            self.wf(),
        ensures
            len == self.max_code_length(),
    {
        let mut heights: Vec<usize> = Vec::new();
        let mut i: usize = 0;
        while i < self.nodes.len()
            invariant
                self.wf(),
                i <= self.nodes@.len(),
                heights@.len() == i,
                forall|j: int| 0 <= j < i ==> #[trigger] heights@[j] == height(self.nodes@, j)
                    && heights@[j] <= j,
            decreases self.nodes@.len() - i,
        {
            assert(children_before(self.nodes@[i as int], i as int));
            let h = match self.nodes[i] {
                Node::Leaf { .. } => 0,
                Node::Node { left, right, .. } => {
                    let hl = heights[left];
                    let hr = heights[right];
                    1 + if hl < hr {
                        hr
                    } else {
                        hl
                    }
                },
            };
            heights.push(h);
            i = i + 1;
        }
        let start: usize = if self.nodes.len() == 1 {
            1
        } else {
            0
        };
        start + heights[self.root]
    }

    /// Counts the occurrences of every byte value in `input`.
    pub fn find_occurences(input: &[u8]) -> (occurences: Occurences)
        ensures
            forall|v: u8| #[trigger] occurences@[v as int] == count_of(input@, v),
            occurences@ == input_counts(input@),
    {
        let mut occurences: Occurences = [0u64; 256];
        let mut i: usize = 0;
        while i < input.len()
            invariant
                i <= input.len(),
                forall|v: u8| #[trigger] occurences@[v as int] == count_of(input@.take(i as int), v),
            decreases input.len() - i,
        {
            let byte = input[i];
            proof {
                assert(input@.take(i as int + 1).drop_last() =~= input@.take(i as int));
                lemma_count_bounded(input@.take(i as int), byte);
            }
            let old_count = occurences[byte as usize];
            occurences[byte as usize] = old_count + 1;
            i = i + 1;
        }
        assert(input@.take(i as int) =~= input@);
        assert forall|k: int| 0 <= k < 256 implies #[trigger] occurences@[k] == input_counts(
            input@,
        )[k] by {
            assert(occurences@[(k as u8) as int] == count_of(input@, k as u8));
            lemma_count_bounded(input@, k as u8);
        }
        assert(occurences@ =~= input_counts(input@));
        occurences
    }
    /// Builds the Huffman tree of a count table: one leaf per symbol that
    /// occurs, then repeated merges of the two first items of the queue.
    pub fn generate(occurences: Occurences) -> (tree: Self)
        requires
            symbol_count(occurences@) > 0,
            total_of(occurences@) <= u64::MAX,
        ensures
            (tree.root, tree.nodes@) == tree_of(occurences@),
            tree.wf(),
    {
        proof {
            lemma_tree_of_wf(occurences@);
        }
        let mut nodes = NodeHeap::new();
        let mut node_collection: Vec<Node> = Vec::new();
        let mut value: usize = 0;
        while value < 256
            invariant
                value <= 256,
                occurences@.len() == 256,
                (nodes@, node_collection@) == leaf_phase(occurences@, value as int),
            decreases 256 - value,
        {
            let occurence = occurences[value];
            proof {
                lemma_leaf_phase(occurences@, value as int);
            }
            if occurence != 0 {
                let leaf = NodeData::new_leaf(value as u8, occurence, &mut node_collection);
                nodes.push(leaf);
            }
            value = value + 1;
        }
        proof {
            lemma_leaf_phase(occurences@, 256);
        }
        let ghost target = merge_phase(nodes@, node_collection@, (nodes@.len() - 1) as nat);
        let ghost total = total_of(occurences@);
        while nodes.len() > 1
            invariant
                nodes@.len() >= 1,
                queue_wf(nodes@, node_collection@, total),
                total <= u64::MAX,
                merge_phase(nodes@, node_collection@, (nodes@.len() - 1) as nat) == target,
            decreases nodes@.len(),
        {
            proof {
                lemma_merge_step(nodes@, node_collection@, total);
            }
            let left = nodes.pop().unwrap().id;
            let right = nodes.pop().unwrap().id;
            let merged = NodeData::new_node(left, right, &mut node_collection);
            nodes.push(merged);
        }
        let root = nodes.pop().unwrap().id;
        HuffmanTree { root, nodes: node_collection }
    }
}

} // verus!
