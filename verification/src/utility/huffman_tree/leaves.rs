//! Every symbol that occurs has exactly one leaf in the tree of its count
//! table: the weights of the leaves add up to the total of the counts, and
//! each symbol that occurs has a leaf, so no symbol can have two.
use vstd::prelude::*;

use crate::utility::huffman_tree::greedy::{lemma_tree_of_greedy, weight_ok};
use crate::utility::huffman_tree::node::Node;
use crate::utility::huffman_tree::node_data::weight_at;
use crate::utility::huffman_tree::{
    children_before,
    entries,
    leaf_reach,
    lemma_reach_has_entry,
    lemma_tree_of_wf,
    nodes_wf,
    prefix_total,
    start_path_of,
    symbol_count,
    total_of,
    tree_entries,
    tree_of,
};

verus! {

/// The sum of the counts of the symbols of `es`, one term per entry.
pub open spec fn entry_weight(es: Seq<(u8, Seq<bool>)>, occ: Seq<u64>) -> nat
    decreases es.len(),
{
    if es.len() == 0 {
        0
    } else {
        entry_weight(es.drop_last(), occ) + occ[es.last().0 as int] as nat
    }
}

/// How many entries of `es` have the symbol `u`.
pub open spec fn value_count(es: Seq<(u8, Seq<bool>)>, u: u8) -> nat
    decreases es.len(),
{
    if es.len() == 0 {
        0
    } else {
        value_count(es.drop_last(), u) + if es.last().0 == u {
            1nat
        } else {
            0nat
        }
    }
}

/// The sum over the symbols below `v` of each count times how often the
/// symbol occurs in `es`.
pub open spec fn weighted_counts(es: Seq<(u8, Seq<bool>)>, occ: Seq<u64>, v: int) -> nat
    decreases v,
{
    if v <= 0 {
        0
    } else {
        weighted_counts(es, occ, v - 1) + occ[v - 1] as nat * value_count(es, (v - 1) as u8)
    }
}

proof fn lemma_entry_weight_concat(a: Seq<(u8, Seq<bool>)>, b: Seq<(u8, Seq<bool>)>, occ: Seq<u64>)
    ensures
        entry_weight(a + b, occ) == entry_weight(a, occ) + entry_weight(b, occ),
    decreases b.len(),
{
    if b.len() == 0 {
        assert(a + b =~= a);
    } else {
        lemma_entry_weight_concat(a, b.drop_last(), occ);
        assert((a + b).drop_last() =~= a + b.drop_last());
    }
}

/// The entries below a node weigh what the node weighs, and each of them is
/// a symbol that occurs.
proof fn lemma_subtree_weight(n: Seq<Node>, occ: Seq<u64>, i: int, path: Seq<bool>)
    requires
        occ.len() == 256,
        nodes_wf(n),
        forall|j: int| 0 <= j < n.len() ==> #[trigger] weight_ok(n, occ, j),
        0 <= i < n.len(),
    ensures
        entry_weight(entries(n, i, path), occ) == n[i].weight(),
        forall|k: int|
            0 <= k < entries(n, i, path).len() ==> occ[(#[trigger] entries(n, i, path)[k]).0 as int]
                != 0,
    decreases i,
{
    assert(children_before(n[i], i));
    assert(weight_ok(n, occ, i));
    match n[i] {
        Node::Leaf { value, .. } => {
            let es = entries(n, i, path);
            assert(es.drop_last() =~= Seq::<(u8, Seq<bool>)>::empty());
            assert(entry_weight(es.drop_last(), occ) == 0);
            assert(es[0].0 == value);
        },
        Node::Node { left, right, .. } => {
            let l = entries(n, left as int, path.push(true));
            let r = entries(n, right as int, path.push(false));
            lemma_subtree_weight(n, occ, left as int, path.push(true));
            lemma_subtree_weight(n, occ, right as int, path.push(false));
            lemma_entry_weight_concat(l, r, occ);
            assert(weight_at(n, left as int) == n[left as int].weight());
            assert(weight_at(n, right as int) == n[right as int].weight());
            assert forall|k: int| 0 <= k < (l + r).len() implies occ[(#[trigger] (l + r)[k]).0 as int]
                != 0 by {
                if k < l.len() {
                    assert((l + r)[k] == l[k]);
                } else {
                    assert((l + r)[k] == r[k - l.len()]);
                }
            }
        },
    }
}

/// One more entry adds its count once to the weighted sum.
proof fn lemma_weighted_push(es: Seq<(u8, Seq<bool>)>, e: (u8, Seq<bool>), occ: Seq<u64>, v: int)
    requires
        0 <= v <= 256,
    ensures
        weighted_counts(es.push(e), occ, v) == weighted_counts(es, occ, v) + if e.0 < v {
            occ[e.0 as int] as nat
        } else {
            0nat
        },
    decreases v,
{
    if v > 0 {
        lemma_weighted_push(es, e, occ, v - 1);
        let u = (v - 1) as u8;
        assert(es.push(e).drop_last() =~= es);
        let c = value_count(es, u);
        let w = occ[v - 1] as nat;
        if e.0 == u {
            assert(value_count(es.push(e), u) == c + 1);
            assert(w * (c + 1) == w * c + w) by (nonlinear_arith);
        } else {
            assert(value_count(es.push(e), u) == c);
        }
    }
}

/// The entry weight is the weighted sum of the symbol counts.
proof fn lemma_weight_by_symbol(es: Seq<(u8, Seq<bool>)>, occ: Seq<u64>)
    ensures
        entry_weight(es, occ) == weighted_counts(es, occ, 256),
    decreases es.len(),
{
    if es.len() == 0 {
        lemma_weighted_empty(es, occ, 256);
    } else {
        let init = es.drop_last();
        lemma_weight_by_symbol(init, occ);
        lemma_weighted_push(init, es.last(), occ, 256);
        assert(init.push(es.last()) =~= es);
    }
}

proof fn lemma_weighted_empty(es: Seq<(u8, Seq<bool>)>, occ: Seq<u64>, v: int)
    requires
        es.len() == 0,
    ensures
        weighted_counts(es, occ, v) == 0,
    decreases v,
{
    if v > 0 {
        lemma_weighted_empty(es, occ, v - 1);
        assert(value_count(es, (v - 1) as u8) == 0);
        assert(occ[v - 1] as nat * 0 == 0);
    }
}

/// Where every symbol that occurs is counted at least once, the weighted sum
/// is at least the total, and exceeds it by at least the count of any symbol
/// that is counted more than once.
proof fn lemma_weighted_excess(es: Seq<(u8, Seq<bool>)>, occ: Seq<u64>, v: int)
    requires
        0 <= v <= 256,
        forall|u: u8| occ[u as int] != 0 ==> #[trigger] value_count(es, u) >= 1,
    ensures
        weighted_counts(es, occ, v) >= prefix_total(occ, v),
        forall|u: u8|
            u < v && occ[u as int] != 0 && #[trigger] value_count(es, u) >= 2 ==> weighted_counts(
                es,
                occ,
                v,
            ) >= prefix_total(occ, v) + occ[u as int],
    decreases v,
{
    if v > 0 {
        lemma_weighted_excess(es, occ, v - 1);
        let u = (v - 1) as u8;
        let w = occ[v - 1] as nat;
        let c = value_count(es, u);
        if w != 0 {
            assert(c >= 1);
            assert(w * c >= w) by (nonlinear_arith)
                requires
                    c >= 1,
            ;
            if c >= 2 {
                assert(w * c >= w + w) by (nonlinear_arith)
                    requires
                        c >= 2,
                ;
            }
        }
    }
}

/// An entry that is in `es` is counted.
proof fn lemma_count_positive(es: Seq<(u8, Seq<bool>)>, k: int)
    requires
        0 <= k < es.len(),
    ensures
        value_count(es, es[k].0) >= 1,
    decreases es.len(),
{
    if k < es.len() - 1 {
        lemma_count_positive(es.drop_last(), k);
        assert(es.drop_last()[k] == es[k]);
    }
}

/// Two entries with the same symbol count it twice.
proof fn lemma_count_twice(es: Seq<(u8, Seq<bool>)>, j: int, m: int)
    requires
        0 <= j < m < es.len(),
        es[j].0 == es[m].0,
    ensures
        value_count(es, es[j].0) >= 2,
    decreases es.len(),
{
    let init = es.drop_last();
    if m == es.len() - 1 {
        lemma_count_positive(init, j);
        assert(init[j] == es[j]);
    } else {
        lemma_count_twice(init, j, m);
        assert(init[j] == es[j] && init[m] == es[m]);
    }
}

/// In the tree of a count table, no two leaves have the same symbol.
pub proof fn lemma_tree_leaves_distinct(occ: Seq<u64>)
    requires
        occ.len() == 256,
        symbol_count(occ) > 0,
        total_of(occ) <= u64::MAX,
    ensures
        forall|j: int, m: int|
            0 <= j < tree_entries(tree_of(occ).0 as int, tree_of(occ).1).len() && 0 <= m
                < tree_entries(tree_of(occ).0 as int, tree_of(occ).1).len() && j != m ==> (
            #[trigger] tree_entries(tree_of(occ).0 as int, tree_of(occ).1)[j]).0 != (
            #[trigger] tree_entries(tree_of(occ).0 as int, tree_of(occ).1)[m]).0,
{
    let (root, n) = tree_of(occ);
    let es = tree_entries(root as int, n);
    lemma_tree_of_wf(occ);
    lemma_tree_of_greedy(occ);
    lemma_subtree_weight(n, occ, root as int, start_path_of(n));
    lemma_weight_by_symbol(es, occ);
    assert forall|u: u8| occ[u as int] != 0 implies #[trigger] value_count(es, u) >= 1 by {
        assert(leaf_reach(n, root as int, u));
        lemma_reach_has_entry(n, root as int, start_path_of(n), u);
        let k = choose|k: int| 0 <= k < es.len() && (#[trigger] es[k]).0 == u;
        lemma_count_positive(es, k);
    }
    lemma_weighted_excess(es, occ, 256);
    assert forall|j: int, m: int| 0 <= j < es.len() && 0 <= m < es.len() && j != m implies (
    #[trigger] es[j]).0 != (#[trigger] es[m]).0 by {
        if es[j].0 == es[m].0 {
            if j < m {
                lemma_count_twice(es, j, m);
            } else {
                lemma_count_twice(es, m, j);
            }
            assert(occ[es[j].0 as int] != 0);
        }
    }
}

} // verus!
