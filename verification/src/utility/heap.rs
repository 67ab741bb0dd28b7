use vstd::prelude::*;

use crate::utility::huffman_tree::node_data::NodeData;

verus! {

/// `a <= b` in the queue order.
pub open spec fn item_le(a: NodeData, b: NodeData) -> bool {
    a.node.ranks_le(b.node)
}

/// The sequence with the items at `i` and `j` exchanged.
pub open spec fn swap_at(s: Seq<NodeData>, i: int, j: int) -> Seq<NodeData> {
    s.update(i, s[j]).update(j, s[i])
}

/// Moves the item at `pos` towards the root while it is greater than its parent.
pub open spec fn sift_up(s: Seq<NodeData>, pos: int) -> Seq<NodeData>
    decreases pos,
{
    if 0 < pos < s.len() {
        let parent = (pos - 1) / 2;
        if item_le(s[pos], s[parent]) {
            s
        } else {
            sift_up(swap_at(s, pos, parent), parent)
        }
    } else {
        s
    }
}

/// Moves the item at `pos` down to a leaf, always along the greater child,
/// then back up with `sift_up`.
pub open spec fn sift_down_to_bottom(s: Seq<NodeData>, pos: int) -> Seq<NodeData>
    decreases s.len() - pos,
{
    let end = s.len();
    let child = 2 * pos + 1;
    if 0 <= pos && child + 2 <= end {
        let greater = if item_le(s[child], s[child + 1]) {
            child + 1
        } else {
            child
        };
        sift_down_to_bottom(swap_at(s, pos, greater), greater)
    } else if 0 <= pos && child == end - 1 {
        sift_up(swap_at(s, pos, child), child)
    } else {
        sift_up(s, pos)
    }
}

/// The queue after pushing `x`.
pub open spec fn pushed(s: Seq<NodeData>, x: NodeData) -> Seq<NodeData> {
    sift_up(s.push(x), s.len() as int)
}

/// The item that leaves a non-empty queue, and the queue after it left.
pub open spec fn popped(s: Seq<NodeData>) -> (NodeData, Seq<NodeData>) {
    if s.len() <= 1 {
        (s[0], Seq::empty())
    } else {
        (s[0], sift_down_to_bottom(s.drop_last().update(0, s.last()), 0))
    }
}

pub proof fn lemma_swap_len(s: Seq<NodeData>, i: int, j: int)
    requires
        0 <= i < s.len(),
        0 <= j < s.len(),
    ensures
        swap_at(s, i, j).len() == s.len(),
        swap_at(s, i, j).to_multiset() == s.to_multiset(),
{
    broadcast use vstd::seq_lib::group_to_multiset_ensures;
    let t = s.update(i, s[j]);
    vstd::seq_lib::to_multiset_update(s, i, s[j]);
    vstd::seq_lib::to_multiset_update(t, j, s[i]);
    if i == j {
        assert(swap_at(s, i, j) =~= s);
    } else {
        assert(t[j] == s[j]);
        assert(swap_at(s, i, j).to_multiset() =~= s.to_multiset());
    }
}

pub proof fn lemma_sift_up_len(s: Seq<NodeData>, pos: int)
    ensures
        sift_up(s, pos).len() == s.len(),
        sift_up(s, pos).to_multiset() == s.to_multiset(),
    decreases pos,
{
    if 0 < pos < s.len() {
        let parent = (pos - 1) / 2;
        if !item_le(s[pos], s[parent]) {
            lemma_swap_len(s, pos, parent);
            lemma_sift_up_len(swap_at(s, pos, parent), parent);
        }
    }
}

pub proof fn lemma_sift_down_len(s: Seq<NodeData>, pos: int)
    ensures
        sift_down_to_bottom(s, pos).len() == s.len(),
        sift_down_to_bottom(s, pos).to_multiset() == s.to_multiset(),
    decreases s.len() - pos,
{
    let end = s.len();
    let child = 2 * pos + 1;
    if 0 <= pos && child + 2 <= end {
        let greater = if item_le(s[child], s[child + 1]) {
            child + 1
        } else {
            child
        };
        lemma_swap_len(s, pos, greater);
        lemma_sift_down_len(swap_at(s, pos, greater), greater);
    } else if 0 <= pos && child == end - 1 {
        lemma_swap_len(s, pos, child);
        lemma_sift_up_len(swap_at(s, pos, child), child);
    } else {
        lemma_sift_up_len(s, pos);
    }
}

/// Pushing adds one item; popping removes the item it returns.
pub proof fn lemma_queue_contents(s: Seq<NodeData>, x: NodeData)
    ensures
        pushed(s, x).len() == s.len() + 1,
        pushed(s, x).to_multiset() == s.to_multiset().insert(x),
        s.len() > 0 ==> popped(s).1.len() == s.len() - 1,
        s.len() > 0 ==> s.to_multiset() == popped(s).1.to_multiset().insert(popped(s).0),
{
    broadcast use vstd::seq_lib::group_to_multiset_ensures;
    lemma_sift_up_len(s.push(x), s.len() as int);
    if s.len() > 0 {
        if s.len() == 1 {
            assert(s =~= Seq::<NodeData>::empty().push(s[0]));
        } else {
            let rest = s.drop_last();
            let t = rest.update(0, s.last());
            vstd::seq_lib::to_multiset_update(rest, 0, s.last());
            lemma_sift_down_len(t, 0);
            assert(s =~= rest.push(s.last()));
            assert(s.to_multiset() =~= popped(s).1.to_multiset().insert(popped(s).0));
        }
    }
}

/// The summed weight of the items of a queue.
pub open spec fn total_weight(s: Seq<NodeData>) -> nat
    decreases s.len(),
{
    if s.len() == 0 {
        0
    } else {
        total_weight(s.drop_last()) + s.last().node.weight() as nat
    }
}

pub proof fn lemma_total_weight_update(s: Seq<NodeData>, i: int, a: NodeData)
    requires
        0 <= i < s.len(),
    ensures
        total_weight(s.update(i, a)) + s[i].node.weight() == total_weight(s) + a.node.weight(),
    decreases s.len(),
{
    if i < s.len() - 1 {
        lemma_total_weight_update(s.drop_last(), i, a);
        assert(s.update(i, a).drop_last() =~= s.drop_last().update(i, a));
    } else {
        assert(s.update(i, a).drop_last() =~= s.drop_last());
    }
}

pub proof fn lemma_total_weight_swap(s: Seq<NodeData>, i: int, j: int)
    requires
        0 <= i < s.len(),
        0 <= j < s.len(),
    ensures
        total_weight(swap_at(s, i, j)) == total_weight(s),
{
    lemma_total_weight_update(s, i, s[j]);
    lemma_total_weight_update(s.update(i, s[j]), j, s[i]);
}

pub proof fn lemma_sift_up_weight(s: Seq<NodeData>, pos: int)
    ensures
        total_weight(sift_up(s, pos)) == total_weight(s),
    decreases pos,
{
    if 0 < pos < s.len() {
        let parent = (pos - 1) / 2;
        if !item_le(s[pos], s[parent]) {
            lemma_total_weight_swap(s, pos, parent);
            lemma_swap_len(s, pos, parent);
            lemma_sift_up_weight(swap_at(s, pos, parent), parent);
        }
    }
}

pub proof fn lemma_sift_down_weight(s: Seq<NodeData>, pos: int)
    ensures
        total_weight(sift_down_to_bottom(s, pos)) == total_weight(s),
    decreases s.len() - pos,
{
    let end = s.len();
    let child = 2 * pos + 1;
    if 0 <= pos && child + 2 <= end {
        let greater = if item_le(s[child], s[child + 1]) {
            child + 1
        } else {
            child
        };
        lemma_total_weight_swap(s, pos, greater);
        lemma_swap_len(s, pos, greater);
        lemma_sift_down_weight(swap_at(s, pos, greater), greater);
    } else if 0 <= pos && child == end - 1 {
        lemma_total_weight_swap(s, pos, child);
        lemma_swap_len(s, pos, child);
        lemma_sift_up_weight(swap_at(s, pos, child), child);
    } else {
        lemma_sift_up_weight(s, pos);
    }
}

/// Pushing adds the item's weight; popping removes the popped item's weight.
pub proof fn lemma_queue_weight(s: Seq<NodeData>, x: NodeData)
    ensures
        total_weight(pushed(s, x)) == total_weight(s) + x.node.weight(),
        s.len() > 0 ==> total_weight(s) == total_weight(popped(s).1) + popped(s).0.node.weight(),
{
    lemma_sift_up_weight(s.push(x), s.len() as int);
    assert(s.push(x).drop_last() =~= s);
    if s.len() == 1 {
        assert(s.drop_last() =~= Seq::<NodeData>::empty());
    } else if s.len() > 1 {
        let rest = s.drop_last();
        lemma_total_weight_update(rest, 0, s.last());
        lemma_sift_down_weight(rest.update(0, s.last()), 0);
    }
}

/// The index of the parent of the item at `i > 0`.
pub open spec fn parent(i: int) -> int {
    (i - 1) / 2
}

/// No item is greater than its parent in the queue order.
pub open spec fn heap_ordered(s: Seq<NodeData>) -> bool {
    forall|i: int| 0 < i < s.len() ==> #[trigger] item_le(s[i], s[parent(i)])
}

/// Ordered but for the edge from `pos` to its parent; the children of
/// `pos` are below the parent of `pos`.
pub open spec fn ordered_but_up(s: Seq<NodeData>, pos: int) -> bool {
    &&& forall|i: int| 0 < i < s.len() && i != pos ==> #[trigger] item_le(s[i], s[parent(i)])
    &&& forall|c: int|
        0 < c < s.len() && parent(c) == pos && pos > 0 ==> #[trigger] item_le(s[c], s[parent(pos)])
}

/// Ordered but for the edges from the children of `pos` and from `pos` to
/// its parent; the children of `pos` are below the parent of `pos`.
pub open spec fn ordered_but_down(s: Seq<NodeData>, pos: int) -> bool {
    &&& forall|i: int|
        0 < i < s.len() && i != pos && parent(i) != pos ==> #[trigger] item_le(s[i], s[parent(i)])
    &&& forall|c: int|
        0 < c < s.len() && parent(c) == pos && pos > 0 ==> #[trigger] item_le(s[c], s[parent(pos)])
}

proof fn lemma_item_le_facts(a: NodeData, b: NodeData, c: NodeData)
    ensures
        item_le(a, a),
        item_le(a, b) || item_le(b, a),
        item_le(a, b) && item_le(b, c) ==> item_le(a, c),
{
    crate::utility::huffman_tree::node::lemma_ranks_le_total_preorder(a.node, b.node, c.node);
}

proof fn lemma_sift_up_ordered(s: Seq<NodeData>, pos: int)
    requires
        0 <= pos < s.len(),
        ordered_but_up(s, pos),
    ensures
        heap_ordered(sift_up(s, pos)),
    decreases pos,
{
    if pos > 0 {
        let p = parent(pos);
        if !item_le(s[pos], s[p]) {
            let t = swap_at(s, pos, p);
            lemma_item_le_facts(s[pos], s[p], s[p]);
            assert(item_le(s[p], s[pos]));
            assert forall|i: int| 0 < i < t.len() && i != p implies #[trigger] item_le(
                t[i],
                t[parent(i)],
            ) by {
                if i == pos {
                } else if parent(i) == pos {
                    assert(item_le(s[i], s[p]));
                } else if parent(i) == p {
                    assert(item_le(s[i], s[p]));
                    lemma_item_le_facts(s[i], s[p], s[pos]);
                } else {
                    assert(item_le(s[i], s[parent(i)]));
                }
            }
            assert forall|c: int| 0 < c < t.len() && parent(c) == p && p > 0 implies #[trigger] item_le(
                t[c],
                t[parent(p)],
            ) by {
                assert(item_le(s[p], s[parent(p)]));
                if c == pos {
                } else {
                    assert(item_le(s[c], s[p]));
                    lemma_item_le_facts(s[c], s[p], s[parent(p)]);
                }
            }
            lemma_sift_up_ordered(t, p);
        }
    }
}

proof fn lemma_sift_down_ordered(s: Seq<NodeData>, pos: int)
    requires
        0 <= pos < s.len(),
        ordered_but_down(s, pos),
    ensures
        heap_ordered(sift_down_to_bottom(s, pos)),
    decreases s.len() - pos,
{
    let end = s.len();
    let child = 2 * pos + 1;
    if child + 2 <= end {
        let g = if item_le(s[child], s[child + 1]) {
            child + 1
        } else {
            child
        };
        let o = if g == child {
            child + 1
        } else {
            child
        };
        lemma_item_le_facts(s[child], s[child + 1], s[child]);
        assert(item_le(s[o], s[g]));
        assert(parent(child) == pos && parent(child + 1) == pos);
        let t = swap_at(s, pos, g);
        assert forall|i: int|
            0 < i < t.len() && i != g && parent(i) != g implies #[trigger] item_le(
            t[i],
            t[parent(i)],
        ) by {
            if i == pos {
                assert(item_le(s[g], s[parent(pos)]));
            } else if i == o {
            } else {
                assert(parent(i) != pos);
                assert(item_le(s[i], s[parent(i)]));
            }
        }
        assert forall|c: int| 0 < c < t.len() && parent(c) == g && g > 0 implies #[trigger] item_le(
            t[c],
            t[parent(g)],
        ) by {
            assert(c != pos && c != g && parent(c) != pos);
            assert(item_le(s[c], s[parent(c)]));
        }
        lemma_sift_down_ordered(t, g);
    } else if child == end - 1 {
        let t = swap_at(s, pos, child);
        assert(parent(child) == pos);
        assert forall|i: int| 0 < i < t.len() && i != child implies #[trigger] item_le(
            t[i],
            t[parent(i)],
        ) by {
            if i == pos {
                assert(item_le(s[child], s[parent(pos)]));
            } else {
                assert(parent(i) != pos);
                assert(item_le(s[i], s[parent(i)]));
            }
        }
        lemma_sift_up_ordered(t, child);
    } else {
        assert forall|i: int| 0 < i < s.len() && i != pos implies #[trigger] item_le(
            s[i],
            s[parent(i)],
        ) by {
            assert(parent(i) != pos);
        }
        lemma_sift_up_ordered(s, pos);
    }
}

/// In an ordered queue the first item is not below any other.
pub proof fn lemma_first_is_greatest(s: Seq<NodeData>, i: int)
    requires
        heap_ordered(s),
        0 <= i < s.len(),
    ensures
        item_le(s[i], s[0]),
    decreases i,
{
    if i == 0 {
        lemma_item_le_facts(s[0], s[0], s[0]);
    } else {
        lemma_first_is_greatest(s, parent(i));
        assert(item_le(s[i], s[parent(i)]));
        lemma_item_le_facts(s[i], s[parent(i)], s[0]);
    }
}

/// Pushing and popping keep a queue ordered, and the popped item is not
/// below any item of the queue: the queue always hands out a greatest item.
pub proof fn lemma_queue_order(s: Seq<NodeData>, x: NodeData)
    requires
        heap_ordered(s),
    ensures
        heap_ordered(pushed(s, x)),
        s.len() > 0 ==> heap_ordered(popped(s).1),
        s.len() > 0 ==> forall|y: NodeData| s.contains(y) ==> #[trigger] item_le(y, popped(s).0),
{
    let t = s.push(x);
    assert forall|i: int| 0 < i < t.len() && i != s.len() implies #[trigger] item_le(
        t[i],
        t[parent(i)],
    ) by {
        assert(item_le(s[i], s[parent(i)]));
    }
    lemma_sift_up_ordered(t, s.len() as int);
    if s.len() > 0 {
        assert forall|y: NodeData| s.contains(y) implies #[trigger] item_le(y, popped(s).0) by {
            let i = choose|i: int| 0 <= i < s.len() && s[i] == y;
            lemma_first_is_greatest(s, i);
        }
        if s.len() > 1 {
            let rest = s.drop_last();
            let u = rest.update(0, s.last());
            assert forall|i: int|
                0 < i < u.len() && i != 0 && parent(i) != 0 implies #[trigger] item_le(
                u[i],
                u[parent(i)],
            ) by {
                assert(item_le(s[i], s[parent(i)]));
            }
            lemma_sift_down_ordered(u, 0);
        } else {
            assert forall|i: int| 0 < i < popped(s).1.len() implies #[trigger] item_le(
                popped(s).1[i],
                popped(s).1[parent(i)],
            ) by {}
        }
    }
}

/// A priority queue of tree nodes, laid out as a binary max-heap in a vector:
/// `push` and `pop` move items exactly as the standard library's binary heap does.
pub struct NodeHeap {
    data: Vec<NodeData>,
}

impl View for NodeHeap {
    type V = Seq<NodeData>;

    closed spec fn view(&self) -> Seq<NodeData> {
        self.data@
    }
}

impl NodeHeap {
    pub fn new() -> (heap: Self)
        ensures
            heap@ == Seq::<NodeData>::empty(),
    {
        NodeHeap { data: Vec::new() }
    }

    pub fn len(&self) -> (len: usize)
        ensures
            len == self@.len(),
    {
        self.data.len()
    }

    pub fn is_empty(&self) -> (empty: bool)
        ensures
            empty == (self@.len() == 0),
    {
        self.data.len() == 0
    }

    fn swap(&mut self, i: usize, j: usize)
        requires
            i < old(self)@.len(),
            j < old(self)@.len(),
        ensures
            final(self)@ == swap_at(old(self)@, i as int, j as int),
    {
        let a = self.data[i];
        let b = self.data[j];
        self.data.set(i, b);
        self.data.set(j, a);
    }

    fn sift_up(&mut self, pos: usize)
        requires
            pos < old(self)@.len(),
        ensures
            final(self)@ == sift_up(old(self)@, pos as int),
    {
        let ghost target = sift_up(self@, pos as int);
        let mut pos = pos;
        while pos > 0
            invariant
                pos < self@.len(),
                sift_up(self@, pos as int) == target,
            ensures
                self@ == target,
            decreases pos,
        {
            let parent = (pos - 1) / 2;
            if self.data[pos].rank_le(&self.data[parent]) {
                break;
            }
            proof {
                lemma_swap_len(self@, pos as int, parent as int);
            }
            self.swap(pos, parent);
            pos = parent;
        }
    }

    fn sift_down_to_bottom(&mut self, pos: usize)
        requires
            pos < old(self)@.len(),
            old(self)@.len() < usize::MAX / 2,
        ensures
            final(self)@ == sift_down_to_bottom(old(self)@, pos as int),
    {
        let ghost target = sift_down_to_bottom(self@, pos as int);
        let end = self.data.len();
        let mut pos = pos;
        let mut child = 2 * pos + 1;
        while end >= 2 && child <= end - 2
            invariant
                end == self@.len(),
                end < usize::MAX / 2,
                pos < end,
                child == 2 * pos + 1,
                sift_down_to_bottom(self@, pos as int) == target,
            decreases end - pos,
        {
            if self.data[child].rank_le(&self.data[child + 1]) {
                child = child + 1;
            }
            proof {
                lemma_swap_len(self@, pos as int, child as int);
            }
            self.swap(pos, child);
            pos = child;
            child = 2 * pos + 1;
        }
        if child == end - 1 {
            proof {
                lemma_swap_len(self@, pos as int, child as int);
            }
            self.swap(pos, child);
            pos = child;
        }
        self.sift_up(pos);
    }

    /// Adds an item.
    pub fn push(&mut self, item: NodeData)
        requires
            old(self)@.len() < usize::MAX,
        ensures
            final(self)@ == pushed(old(self)@, item),
    {
        let old_len = self.data.len();
        self.data.push(item);
        self.sift_up(old_len);
    }

    /// Removes and returns the first item in the queue order; `None` when empty.
    pub fn pop(&mut self) -> (item: Option<NodeData>)
        requires
            old(self)@.len() <= usize::MAX / 2,
        ensures
            old(self)@.len() == 0 ==> item is None && final(self)@ == old(self)@,
            old(self)@.len() > 0 ==> item == Some(popped(old(self)@).0) && final(self)@
                == popped(old(self)@).1,
    {
        if self.data.len() == 0 {
            return None;
        }
        let ghost before = self@;
        let last = self.data.pop().unwrap();
        if self.data.len() == 0 {
            return Some(last);
        }
        let first = self.data[0];
        self.data.set(0, last);
        self.sift_down_to_bottom(0);
        Some(first)
    }
}

} // verus!
