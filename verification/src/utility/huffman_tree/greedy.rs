//! What the greedy construction guarantees of the tree it builds.
use vstd::prelude::*;

use crate::utility::heap::{
    heap_ordered,
    item_le,
    lemma_queue_contents,
    lemma_queue_order,
    lemma_queue_weight,
    popped,
    pushed,
};
use crate::utility::huffman_tree::node::{Node, lemma_ranks_le_weights};
use crate::utility::huffman_tree::node_data::{NodeData, weight_at};
use crate::utility::huffman_tree::{
    children_before,
    forest_wf,
    leaf_phase,
    lemma_leaf_phase,
    lemma_leaf_phase_forest,
    lemma_merge_forest,
    lemma_merge_step,
    height,
    merge_phase,
    merge_step,
    nodes_wf,
    tree_code_length,
    queue_wf,
    symbol_count,
    total_of,
    tree_of,
};

verus! {

/// Node `j` is a child of `node`.
pub open spec fn child_of(node: Node, j: int) -> bool {
    match node {
        Node::Node { left, right, .. } => left == j || right == j,
        Node::Leaf { .. } => false,
    }
}

/// Node `j` was the root of a subtree before node `k` was made: no node
/// before `k` has it as a child.
pub open spec fn root_before(n: Seq<Node>, j: int, k: int) -> bool {
    &&& 0 <= j < k
    &&& forall|m: int| 0 <= m < k ==> !#[trigger] child_of(n[m], j)
}

/// If node `k` is an inner node, its children were the first and the
/// second root in the queue order when it was made: the left child is not
/// below any other root, the right child not below any root but the left one.
pub open spec fn merged_first(n: Seq<Node>, k: int) -> bool {
    match n[k] {
        Node::Node { left, right, .. } => first_two(n, k, left as int, right as int),
        Node::Leaf { .. } => true,
    }
}

/// `left` and `right` were the first and the second root in the queue
/// order among the roots before node `k`.
pub open spec fn first_two(n: Seq<Node>, k: int, left: int, right: int) -> bool {
    &&& n[right].ranks_le(n[left])
    &&& forall|j: int|
        #[trigger] root_before(n, j, k) && j != left ==> n[j].ranks_le(n[left]) && (j != right
            ==> n[j].ranks_le(n[right]))
}

/// A leaf weighs the count of its value, which is not zero; an inner node
/// weighs what its children weigh together.
pub open spec fn weight_ok(n: Seq<Node>, occ: Seq<u64>, j: int) -> bool {
    match n[j] {
        Node::Leaf { value, occurence } => occurence == occ[value as int] && occurence != 0,
        Node::Node { left, right, occurence } => occurence == weight_at(n, left as int) + weight_at(
            n,
            right as int,
        ),
    }
}

/// What the construction keeps: the queue is ordered and holds each root
/// of the forest exactly once, every inner node so far merged the first
/// two roots, and every weight is right.
pub open spec fn greedy_wf(h: Seq<NodeData>, n: Seq<Node>, occ: Seq<u64>) -> bool {
    &&& heap_ordered(h)
    &&& forall|x: NodeData| #[trigger] h.to_multiset().count(x) <= 1
    &&& forall|x: NodeData| h.contains(x) ==> #[trigger] root_before(n, x.id as int, n.len() as int)
    &&& forall|j: int|
        #[trigger] root_before(n, j, n.len() as int) ==> exists|x: NodeData|
            h.contains(x) && x.id == j
    &&& forall|k: int| 0 <= k < n.len() ==> #[trigger] merged_first(n, k)
    &&& forall|j: int| 0 <= j < n.len() ==> #[trigger] weight_ok(n, occ, j)
}

proof fn lemma_extend(n: Seq<Node>, x: Node, occ: Seq<u64>)
    requires
        nodes_wf(n),
    ensures
        forall|j: int, k: int|
            0 <= k <= n.len() ==> (#[trigger] root_before(n.push(x), j, k) == root_before(n, j, k)),
        forall|k: int| 0 <= k < n.len() ==> (#[trigger] merged_first(n.push(x), k) == merged_first(n, k)),
        forall|j: int| 0 <= j < n.len() ==> (#[trigger] weight_ok(n.push(x), occ, j) == weight_ok(n, occ, j)),
{
    let m = n.push(x);
    assert forall|j: int, k: int| 0 <= k <= n.len() implies (#[trigger] root_before(m, j, k)
        == root_before(n, j, k)) by {
        assert forall|i: int| 0 <= i < k implies m[i] == n[i] by {}
    }
    assert forall|k: int| 0 <= k < n.len() implies (#[trigger] merged_first(m, k) == merged_first(
        n,
        k,
    )) by {
        assert(children_before(n[k], k));
        assert forall|j: int| root_before(m, j, k) == root_before(n, j, k) by {
            assert forall|i: int| 0 <= i < k implies m[i] == n[i] by {}
        }
        match n[k] {
            Node::Node { left, right, .. } => {
                let (l, r) = (left as int, right as int);
                assert(m[k] == n[k]);
                assert(m[l] == n[l] && m[r] == n[r]);
                if first_two(n, k, l, r) {
                    assert forall|j: int| #[trigger] root_before(m, j, k) && j != l implies m[j].ranks_le(
                        m[l],
                    ) && (j != r ==> m[j].ranks_le(m[r])) by {
                        assert(m[j] == n[j]);
                        assert(root_before(n, j, k));
                        assert(n[j].ranks_le(n[l]));
                    }
                }
                if first_two(m, k, l, r) {
                    assert forall|j: int| #[trigger] root_before(n, j, k) && j != l implies n[j].ranks_le(
                        n[l],
                    ) && (j != r ==> n[j].ranks_le(n[r])) by {
                        assert(m[j] == n[j]);
                        assert(root_before(m, j, k));
                        assert(m[j].ranks_le(m[l]));
                    }
                }
            },
            Node::Leaf { .. } => {
                assert(m[k] == n[k]);
            },
        }
    }
    assert forall|j: int| 0 <= j < n.len() implies (#[trigger] weight_ok(m, occ, j) == weight_ok(
        n,
        occ,
        j,
    )) by {
        assert(children_before(n[j], j));
    }
}

proof fn lemma_leaf_phase_greedy(occ: Seq<u64>, v: int)
    requires
        0 <= v <= occ.len() <= 256,
    ensures
        greedy_wf(leaf_phase(occ, v).0, leaf_phase(occ, v).1, occ),
        forall|j: int| 0 <= j < leaf_phase(occ, v).1.len() ==> #[trigger] leaf_phase(occ, v).1[j] is Leaf,
    decreases v,
{
    broadcast use vstd::seq_lib::group_to_multiset_ensures;
    if v > 0 {
        lemma_leaf_phase_greedy(occ, v - 1);
        lemma_leaf_phase(occ, v - 1);
        lemma_leaf_phase_forest(occ, v - 1);
        let (h, n) = leaf_phase(occ, v - 1);
        if occ[v - 1] != 0 {
            let leaf = Node::Leaf { value: (v - 1) as u8, occurence: occ[v - 1] };
            let x = NodeData { node: leaf, id: n.len() as usize };
            lemma_queue_contents(h, x);
            lemma_queue_order(h, x);
            lemma_extend(n, leaf, occ);
            let h2 = pushed(h, x);
            let n2 = n.push(leaf);
            assert(h.to_multiset().count(x) == 0) by {
                if h.to_multiset().count(x) > 0 {
                    assert(h.contains(x));
                }
            }
            assert forall|y: NodeData| #[trigger] h2.to_multiset().count(y) <= 1 by {
                assert(h.to_multiset().count(y) <= 1);
            }
            assert forall|j: int| 0 <= j < n2.len() implies #[trigger] n2[j] is Leaf by {
                if j < n.len() {
                    assert(n[j] is Leaf);
                }
            }
            assert forall|j: int, k: int| 0 <= j < k <= n2.len() implies #[trigger] root_before(
                n2,
                j,
                k,
            ) by {
                assert forall|m: int| 0 <= m < k implies !#[trigger] child_of(n2[m], j) by {
                    assert(n2[m] is Leaf);
                }
            }
            assert forall|y: NodeData| h2.contains(y) implies #[trigger] root_before(
                n2,
                y.id as int,
                n2.len() as int,
            ) by {
                assert(h2.to_multiset().count(y) > 0);
                if y != x {
                    assert(h.to_multiset().count(y) > 0);
                    assert(h.contains(y));
                }
            }
            assert forall|j: int| #[trigger] root_before(n2, j, n2.len() as int) implies exists|
                y: NodeData,
            | h2.contains(y) && y.id == j by {
                if j == n.len() {
                    assert(h2.to_multiset().count(x) > 0);
                    assert(h2.contains(x));
                } else {
                    assert(root_before(n, j, n.len() as int)) by {
                        assert forall|m: int| 0 <= m < n.len() implies !#[trigger] child_of(n[m], j) by {
                            assert(n[m] is Leaf);
                        }
                    }
                    let y = choose|y: NodeData| h.contains(y) && y.id == j;
                    assert(h.to_multiset().count(y) > 0);
                    assert(h2.to_multiset().count(y) > 0);
                    assert(h2.contains(y));
                }
            }
            assert forall|k: int| 0 <= k < n2.len() implies #[trigger] merged_first(n2, k) by {
                if k < n.len() {
                    assert(merged_first(n, k));
                }
            }
            assert forall|j: int| 0 <= j < n2.len() implies #[trigger] weight_ok(n2, occ, j) by {
                if j < n.len() {
                    assert(weight_ok(n, occ, j));
                }
            }
        }
    } else {
        assert forall|j: int| #[trigger] root_before(Seq::<Node>::empty(), j, 0) implies exists|
            y: NodeData,
        | Seq::<NodeData>::empty().contains(y) && y.id == j by {}
    }
}

#[verifier::rlimit(40)]
proof fn lemma_merge_greedy(h: Seq<NodeData>, n: Seq<Node>, total: nat, occ: Seq<u64>)
    requires
        queue_wf(h, n, total),
        forest_wf(h, n, occ, occ.len() as int),
        greedy_wf(h, n, occ),
        h.len() >= 2,
        total <= u64::MAX,
    ensures
        greedy_wf(merge_step(h, n).0, merge_step(h, n).1, occ),
{
    broadcast use vstd::seq_lib::group_to_multiset_ensures;
    lemma_merge_step(h, n, total);
    let (a, h1) = popped(h);
    let (b, h2) = popped(h1);
    lemma_queue_contents(h, a);
    lemma_queue_contents(h1, a);
    lemma_queue_order(h, a);
    lemma_queue_order(h1, a);
    let k = n.len() as int;
    let node = Node::Node {
        left: a.id,
        right: b.id,
        occurence: (weight_at(n, a.id as int) + weight_at(n, b.id as int)) as u64,
    };
    let x = NodeData { node, id: n.len() as usize };
    lemma_queue_contents(h2, x);
    lemma_queue_order(h2, x);
    lemma_extend(n, node, occ);
    let h3 = pushed(h2, x);
    let n3 = n.push(node);
    assert(h.to_multiset().count(a) <= 1);
    assert(h1.to_multiset().count(a) == 0);
    assert(h1.contains(b));
    assert(b != a);
    assert(a.id != b.id);
    // items of the queue are known by their index
    assert forall|y: NodeData| h.contains(y) && (y.id == a.id || y.id == b.id) implies y == a || y
        == b by {}
    // membership along the way
    assert forall|y: NodeData| h2.contains(y) implies h.contains(y) && y != a && y != b by {
        assert(h2.to_multiset().count(y) > 0);
        assert(h1.to_multiset().count(y) > 0);
        assert(h.to_multiset().count(y) > 0);
        if y == b {
            assert(h1.to_multiset().count(b) <= h.to_multiset().count(b));
            assert(h2.to_multiset().count(b) == 0);
        }
    }
    assert forall|y: NodeData| h.contains(y) && y != a && y != b implies #[trigger] h2.contains(y) by {
        assert(h.to_multiset().count(y) > 0);
        assert(h1.to_multiset().count(y) > 0);
        assert(h2.to_multiset().count(y) > 0);
    }
    assert forall|y: NodeData| h.contains(y) && y != a implies #[trigger] h1.contains(y) by {
        assert(h.to_multiset().count(y) > 0);
        assert(h1.to_multiset().count(y) > 0);
    }
    assert(!h2.contains(x)) by {
        if h2.contains(x) {
            assert(h.contains(x));
        }
    }
    assert(h2.to_multiset().count(x) == 0);
    // the roots after the merge
    assert forall|j: int| #[trigger] root_before(n3, j, k + 1) == (j == k || (root_before(n, j, k)
        && j != a.id && j != b.id)) by {
        assert(root_before(n3, j, k) == root_before(n, j, k));
        if j == k {
            assert forall|m: int| 0 <= m < k + 1 implies !#[trigger] child_of(n3[m], j) by {
                if m < k {
                    assert(children_before(n[m], m));
                }
            }
        }
        if root_before(n3, j, k + 1) && j != k {
            assert(!child_of(n3[k], j));
            assert(root_before(n3, j, k));
        }
        if root_before(n, j, k) && j != a.id && j != b.id {
            assert forall|m: int| 0 <= m < k + 1 implies !#[trigger] child_of(n3[m], j) by {
                if m < k {
                    assert(!child_of(n[m], j));
                }
            }
        }
    }
    assert forall|y: NodeData| #[trigger] h3.to_multiset().count(y) <= 1 by {
        if y != x {
            assert(h2.to_multiset().count(y) <= h.to_multiset().count(y));
        }
    }
    assert forall|y: NodeData| h3.contains(y) implies #[trigger] root_before(
        n3,
        y.id as int,
        n3.len() as int,
    ) by {
        assert(h3.to_multiset().count(y) > 0);
        if y != x {
            assert(h2.to_multiset().count(y) > 0);
            assert(h2.contains(y));
            assert(root_before(n, y.id as int, k));
        }
    }
    assert forall|j: int| #[trigger] root_before(n3, j, n3.len() as int) implies exists|y: NodeData|
        h3.contains(y) && y.id == j by {
        assert(h3.to_multiset().count(x) > 0);
        if j == k {
            assert(h3.contains(x));
        } else {
            assert(root_before(n, j, k));
            let y = choose|y: NodeData| h.contains(y) && y.id == j;
            assert(h2.contains(y));
            assert(h3.to_multiset().count(y) > 0);
            assert(h3.contains(y));
        }
    }
    assert(n3[k] == node);
    assert(first_two(n3, k, a.id as int, b.id as int)) by {
        assert(n3[b.id as int] == b.node && n3[a.id as int] == a.node);
        assert(item_le(b, a));
        assert forall|j: int| #[trigger] root_before(n3, j, k) && j != a.id implies n3[j].ranks_le(
            n3[a.id as int],
        ) && (j != b.id ==> n3[j].ranks_le(n3[b.id as int])) by {
            assert(root_before(n3, j, k) == root_before(n, j, k));
            assert(root_before(n, j, k));
            let y = choose|y: NodeData| h.contains(y) && y.id == j;
            assert(y.node == n[j]);
            assert(n3[j] == n[j]);
            assert(item_le(y, a));
            if j != b.id {
                assert(h1.contains(y));
                assert(item_le(y, b));
            }
        }
    }
    assert forall|i: int| 0 <= i < n3.len() implies #[trigger] merged_first(n3, i) by {
        if i < k {
            assert(merged_first(n, i));
        }
    }
    assert forall|j: int| 0 <= j < n3.len() implies #[trigger] weight_ok(n3, occ, j) by {
        if j < k {
            assert(weight_ok(n, occ, j));
        }
    }
}

proof fn lemma_merge_phase_greedy(
    h: Seq<NodeData>,
    n: Seq<Node>,
    steps: nat,
    total: nat,
    occ: Seq<u64>,
)
    requires
        queue_wf(h, n, total),
        forest_wf(h, n, occ, occ.len() as int),
        greedy_wf(h, n, occ),
        h.len() == steps + 1,
        total <= u64::MAX,
    ensures
        greedy_wf(merge_phase(h, n, steps).0, merge_phase(h, n, steps).1, occ),
    decreases steps,
{
    if steps > 0 {
        lemma_merge_step(h, n, total);
        lemma_merge_forest(h, n, total, occ);
        lemma_merge_greedy(h, n, total, occ);
        let (h2, n2) = merge_step(h, n);
        lemma_merge_phase_greedy(h2, n2, (steps - 1) as nat, total, occ);
    }
}

/// The tree of a count table is a Huffman tree: every inner node joined the
/// two roots that came first in the queue order at the time (no other root
/// weighed less), every leaf weighs the count of its symbol, every inner node
/// the sum of its children, and the root the sum of all counts.
pub proof fn lemma_tree_of_greedy(occ: Seq<u64>)
    requires
        occ.len() == 256,
        symbol_count(occ) > 0,
        total_of(occ) <= u64::MAX,
    ensures
        forall|k: int| 0 <= k < tree_of(occ).1.len() ==> #[trigger] merged_first(tree_of(occ).1, k),
        forall|j: int| 0 <= j < tree_of(occ).1.len() ==> #[trigger] weight_ok(tree_of(occ).1, occ, j),
        tree_of(occ).1[tree_of(occ).0 as int].weight() == total_of(occ),
{
    lemma_leaf_phase(occ, 256);
    lemma_leaf_phase_forest(occ, 256);
    lemma_leaf_phase_greedy(occ, 256);
    let (h, n) = leaf_phase(occ, 256);
    crate::utility::huffman_tree::lemma_merge_phase(h, n, (h.len() - 1) as nat, total_of(occ), occ);
    lemma_merge_phase_greedy(h, n, (h.len() - 1) as nat, total_of(occ), occ);
    let (hf, nf) = merge_phase(h, n, (h.len() - 1) as nat);
    assert(hf.contains(hf[0]));
    assert(hf.drop_last() =~= Seq::<NodeData>::empty());
    assert(crate::utility::heap::total_weight(hf.drop_last()) == 0);
    assert(crate::utility::heap::total_weight(hf) == hf[0].node.weight());
    assert(nf[hf[0].id as int] == hf[0].node);
}

/// The tree of a count table is a minimum-weight Huffman tree: each inner
/// node joins the two lightest roots of the forest at the time it was made.
/// No other root weighs less than its left child, and no root other than the
/// left child weighs less than its right child; the node weighs what they
/// weigh together.
pub proof fn lemma_tree_of_merges_lightest(occ: Seq<u64>)
    requires
        occ.len() == 256,
        symbol_count(occ) > 0,
        total_of(occ) <= u64::MAX,
    ensures
        forall|k: int, j: int|
            #![trigger tree_of(occ).1[k], root_before(tree_of(occ).1, j, k)]
            0 <= k < tree_of(occ).1.len() && tree_of(occ).1[k] is Node && root_before(
                tree_of(occ).1,
                j,
                k,
            ) ==> {
                let n = tree_of(occ).1;
                let left = n[k]->left as int;
                let right = n[k]->right as int;
                &&& n[right].weight() >= n[left].weight()
                &&& j != left ==> n[j].weight() >= n[left].weight()
                &&& j != left && j != right ==> n[j].weight() >= n[right].weight()
                &&& n[k].weight() == n[left].weight() + n[right].weight()
            },
{
    let n = tree_of(occ).1;
    lemma_tree_of_greedy(occ);
    crate::utility::huffman_tree::lemma_tree_of_wf(occ);
    assert forall|k: int, j: int|
        #![trigger n[k], root_before(n, j, k)]
        0 <= k < n.len() && n[k] is Node && root_before(n, j, k) implies {
        let left = n[k]->left as int;
        let right = n[k]->right as int;
        &&& n[right].weight() >= n[left].weight()
        &&& j != left ==> n[j].weight() >= n[left].weight()
        &&& j != left && j != right ==> n[j].weight() >= n[right].weight()
        &&& n[k].weight() == n[left].weight() + n[right].weight()
    } by {
        assert(merged_first(n, k));
        assert(weight_ok(n, occ, k));
        assert(children_before(n[k], k));
        let left = n[k]->left as int;
        let right = n[k]->right as int;
        lemma_ranks_le_weights(n[right], n[left]);
        lemma_ranks_le_weights(n[j], n[left]);
        lemma_ranks_le_weights(n[j], n[right]);
        assert(weight_at(n, left) == n[left].weight());
        assert(weight_at(n, right) == n[right].weight());
    }
}

/// The tree of a count table of `s` symbols has `2s - 1` nodes: first a leaf
/// for each symbol, in increasing order of the symbols, then the inner
/// nodes; the root is the last node.
pub proof fn lemma_tree_size(occ: Seq<u64>)
    requires
        occ.len() == 256,
        symbol_count(occ) > 0,
        total_of(occ) <= u64::MAX,
    ensures
        tree_of(occ).1.len() == 2 * symbol_count(occ) - 1,
        tree_of(occ).0 == tree_of(occ).1.len() - 1,
        tree_of(occ).1.take(symbol_count(occ) as int) == leaf_phase(occ, 256).1,
{
    lemma_leaf_phase(occ, 256);
    lemma_leaf_phase_forest(occ, 256);
    let (h, n) = leaf_phase(occ, 256);
    crate::utility::huffman_tree::lemma_merge_phase(h, n, (h.len() - 1) as nat, total_of(occ), occ);
    let (hf, nf) = merge_phase(h, n, (h.len() - 1) as nat);
    if h.len() == 1 {
        assert(merge_phase(h, n, 0) == (h, n));
        assert(h.contains(h[0]));
        assert(n.take(1) =~= n);
    }
}

/// A node is at most its index, less the number of leaves that come first,
/// plus one high.
proof fn lemma_height_bound(n: Seq<Node>, leaves: int, j: int)
    requires
        nodes_wf(n),
        0 <= leaves <= n.len(),
        forall|i: int| 0 <= i < leaves ==> #[trigger] n[i] is Leaf,
        0 <= j < n.len(),
    ensures
        height(n, j) <= if j < leaves {
            0
        } else {
            j - leaves + 1
        },
    decreases j,
{
    assert(children_before(n[j], j));
    match n[j] {
        Node::Leaf { .. } => {},
        Node::Node { left, right, .. } => {
            lemma_height_bound(n, leaves, left as int);
            lemma_height_bound(n, leaves, right as int);
            if j < leaves {
                assert(n[j] is Leaf);
            }
        },
    }
}

/// A count table of `s` symbols has codes of at most `s - 1` bits (one bit
/// when there is a single symbol): nine symbols or fewer always fit in a byte.
pub proof fn lemma_code_length_bound(occ: Seq<u64>)
    requires
        occ.len() == 256,
        symbol_count(occ) > 0,
        total_of(occ) <= u64::MAX,
    ensures
        tree_code_length(tree_of(occ).0 as int, tree_of(occ).1) <= if symbol_count(occ) == 1 {
            1
        } else {
            symbol_count(occ) - 1
        },
{
    lemma_leaf_phase(occ, 256);
    lemma_leaf_phase_forest(occ, 256);
    lemma_leaf_phase_greedy(occ, 256);
    let (h, n) = leaf_phase(occ, 256);
    let leaves = n.len() as int;
    crate::utility::huffman_tree::lemma_merge_phase(h, n, (h.len() - 1) as nat, total_of(occ), occ);
    let (hf, nf) = merge_phase(h, n, (h.len() - 1) as nat);
    assert forall|i: int| 0 <= i < leaves implies #[trigger] nf[i] is Leaf by {
        assert(nf.take(leaves)[i] == n[i]);
        assert(n[i] is Leaf);
    }
    assert(hf.contains(hf[0]));
    lemma_height_bound(nf, leaves, hf[0].id as int);
    if leaves == 1 {
        assert(merge_phase(h, n, 0) == (h, n));
    }
}

} // verus!
