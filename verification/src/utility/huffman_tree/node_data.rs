use vstd::prelude::*;

use crate::utility::huffman_tree::node::Node;

verus! {

/// The weight of the node at index `i`, or 0 where there is none.
pub open spec fn weight_at(nodes: Seq<Node>, i: int) -> u64 {
    if 0 <= i < nodes.len() {
        nodes[i].weight()
    } else {
        0
    }
}

/// A node together with its index in the node collection: the item that
/// the priority queue of the tree construction holds.
#[derive(Debug, Clone, Copy, PartialEq, Eq, Structural)]
pub struct NodeData {
    pub node: Node,
    pub id: usize,
}

impl NodeData {
    /// Appends a leaf to `node_collection` and returns it with its index.
    pub fn new_leaf(value: u8, occurence: u64, node_collection: &mut Vec<Node>) -> (data: Self)
        requires
            old(node_collection).len() < usize::MAX,
        ensures
            final(node_collection)@ == old(node_collection)@.push(
                Node::Leaf { value, occurence },
            ),
            data.node == (Node::Leaf { value, occurence }),
            data.id == old(node_collection).len(),
    {
        let leaf = Node::Leaf { value, occurence };
        node_collection.push(leaf);
        NodeData { node: leaf, id: node_collection.len() - 1 }
    }

    /// Appends an inner node with the given children to `node_collection`;
    /// its weight is the sum of the children's weights, a missing child
    /// weighing 0.
    pub fn new_node(left: usize, right: usize, node_collection: &mut Vec<Node>) -> (data: Self)
        requires
            old(node_collection).len() < usize::MAX,
            weight_at(old(node_collection)@, left as int) + weight_at(
                old(node_collection)@,
                right as int,
            ) <= u64::MAX,
        ensures
            data.node == (Node::Node {
                left,
                right,
                occurence: (weight_at(old(node_collection)@, left as int) + weight_at(
                    old(node_collection)@,
                    right as int,
                )) as u64,
            }),
            final(node_collection)@ == old(node_collection)@.push(data.node),
            data.id == old(node_collection).len(),
    {
        let left_weight = if left < node_collection.len() {
            node_collection[left].occurence()
        } else {
            0
        };
        let right_weight = if right < node_collection.len() {
            node_collection[right].occurence()
        } else {
            0
        };
        let node = Node::Node { left, right, occurence: left_weight + right_weight };
        node_collection.push(node);
        NodeData { node, id: node_collection.len() - 1 }
    }

    /// `self <= other` in the queue order: that of the nodes.
    pub fn rank_le(&self, other: &NodeData) -> (le: bool)
        ensures
            le == self.node.ranks_le(other.node),
            other.node.weight() < self.node.weight() ==> le,
            self.node.weight() < other.node.weight() ==> !le,
    {
        self.node.rank_le(&other.node)
    }
}

} // verus!
