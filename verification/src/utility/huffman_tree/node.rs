use vstd::prelude::*;

verus! {

/// A node of a Huffman tree, stored in a vector and referring to its
/// children by their indices in that vector.
#[derive(Debug, Clone, Copy, PartialEq, Eq, Structural)]
pub enum Node {
    Leaf { value: u8, occurence: u64 },
    Node { left: usize, right: usize, occurence: u64 },
}

impl Node {
    /// The weight of the node: how often its symbol, or all symbols below it, occur.
    pub open spec fn weight(self) -> u64 {
        match self {
            Node::Leaf { occurence, .. } => occurence,
            Node::Node { occurence, .. } => occurence,
        }
    }

    /// `self <= other` in the order that decides which node leaves the queue
    /// first (the greatest does): a smaller weight is greater; at equal
    /// weight a leaf is greater than an inner node, two inner nodes are
    /// equal, and of two leaves the one with the smaller value is greater.
    pub open spec fn ranks_le(self, other: Node) -> bool {
        if self.weight() != other.weight() {
            other.weight() < self.weight()
        } else {
            match (self, other) {
                (Node::Node { .. }, _) => true,
                (Node::Leaf { .. }, Node::Node { .. }) => false,
                (Node::Leaf { value: v0, .. }, Node::Leaf { value: v1, .. }) => v1 <= v0,
            }
        }
    }

    pub fn occurence(&self) -> (occurence: u64)
        ensures
            occurence == self.weight(),
    {
        match self {
            Node::Leaf { occurence, .. } => *occurence,
            Node::Node { occurence, .. } => *occurence,
        }
    }

    /// Executable form of `ranks_le`: a node that weighs less comes later in
    /// the order, so it leaves the queue first.
    pub fn rank_le(&self, other: &Node) -> (le: bool)
        ensures
            le == self.ranks_le(*other),
            other.weight() < self.weight() ==> le,
            self.weight() < other.weight() ==> !le,
    {
        let mine = self.occurence();
        let theirs = other.occurence();
        if theirs != mine {
            theirs < mine
        } else {
            match (self, other) {
                (Node::Node { .. }, _) => true,
                (Node::Leaf { .. }, Node::Node { .. }) => false,
                (Node::Leaf { value: v0, .. }, Node::Leaf { value: v1, .. }) => *v1 <= *v0,
            }
        }
    }
}

/// The queue order follows the full weights: of two nodes, the one that
/// weighs strictly less is strictly greater in the order (it leaves the queue
/// first), and a node is never below one that weighs more.
pub proof fn lemma_ranks_le_weights(a: Node, b: Node)
    ensures
        a.weight() < b.weight() ==> b.ranks_le(a) && !a.ranks_le(b),
        a.ranks_le(b) ==> b.weight() <= a.weight(),
{
}

/// `ranks_le` is a total preorder.
pub proof fn lemma_ranks_le_total_preorder(a: Node, b: Node, c: Node)
    ensures
        a.ranks_le(a),
        a.ranks_le(b) || b.ranks_le(a),
        a.ranks_le(b) && b.ranks_le(c) ==> a.ranks_le(c),
{
}

} // verus!
