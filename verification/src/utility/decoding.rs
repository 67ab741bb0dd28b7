use vstd::prelude::*;

use std::collections::HashMap;

use crate::utility::bits::{bit, canonical, code_bits, code_of, lemma_canonical_shift, lemma_code_of, lemma_code_of_code_bits, lemma_set_bit, lemma_zero_byte};
use crate::utility::huffman_tree::node::Node;
use crate::utility::huffman_tree::{HuffmanTree, children_before, entries, height, is_prefix, prefix_free};

verus! {

broadcast use vstd::std_specs::hash::group_hash_axioms;

/// Number of slots: one per code of each length from 0 to 8.
pub const SLOTS: usize = 2304;

/// The slot of a code of at most 8 bits.
pub open spec fn slot(path: Seq<bool>) -> int {
    path.len() * 256 + code_of(path) as int
}

/// The value stored for a code, if any.
pub open spec fn lookup_in(t: Seq<Option<u8>>, path: Seq<bool>) -> Option<u8> {
    if path.len() <= 8 {
        t[slot(path)]
    } else {
        None
    }
}

/// A table with the entries of `es` written into it in order.
pub open spec fn apply_decodes(t: Seq<Option<u8>>, es: Seq<(u8, Seq<bool>)>) -> Seq<Option<u8>>
    decreases es.len(),
{
    if es.len() == 0 {
        t
    } else {
        apply_decodes(t, es.drop_last()).update(slot(es.last().1), Some(es.last().0))
    }
}

/// The greater of `m` and the lengths of the paths of `es`.
pub open spec fn longest(es: Seq<(u8, Seq<bool>)>, m: nat) -> nat
    decreases es.len(),
{
    if es.len() == 0 {
        m
    } else {
        let before = longest(es.drop_last(), m);
        if before < es.last().1.len() {
            es.last().1.len()
        } else {
            before
        }
    }
}

/// A table of empty slots.
pub open spec fn empty_decodes() -> Seq<Option<u8>> {
    Seq::new(SLOTS as nat, |i: int| None)
}

/// All paths of `es` are at most 8 bits long.
pub open spec fn short_paths(es: Seq<(u8, Seq<bool>)>) -> bool {
    forall|k: int| 0 <= k < es.len() ==> (#[trigger] es[k]).1.len() <= 8
}

pub proof fn lemma_apply_decodes_len(t: Seq<Option<u8>>, es: Seq<(u8, Seq<bool>)>)
    requires
        t.len() == SLOTS,
        short_paths(es),
    ensures
        apply_decodes(t, es).len() == SLOTS,
    decreases es.len(),
{
    if es.len() > 0 {
        assert(short_paths(es.drop_last())) by {
            assert forall|k: int| 0 <= k < es.len() - 1 implies (#[trigger] es.drop_last()[k]).1.len()
                <= 8 by {
                assert(es.drop_last()[k] == es[k]);
            }
        }
        lemma_apply_decodes_len(t, es.drop_last());
        assert(es[es.len() - 1].1.len() <= 8);
        lemma_code_of(es.last().1);
    }
}

pub proof fn lemma_apply_decodes_concat(
    t: Seq<Option<u8>>,
    a: Seq<(u8, Seq<bool>)>,
    b: Seq<(u8, Seq<bool>)>,
)
    ensures
        apply_decodes(apply_decodes(t, a), b) == apply_decodes(t, a + b),
        longest(b, longest(a, 0)) == longest(a + b, 0),
    decreases b.len(),
{
    if b.len() == 0 {
        assert(a + b =~= a);
    } else {
        lemma_apply_decodes_concat(t, a, b.drop_last());
        assert((a + b).drop_last() =~= a + b.drop_last());
    }
}

/// Codes of at most 8 bits have distinct slots.
pub proof fn lemma_slot_injective(p: Seq<bool>, q: Seq<bool>)
    requires
        p.len() <= 8,
        q.len() <= 8,
        slot(p) == slot(q),
    ensures
        p == q,
{
    lemma_code_of(p);
    lemma_code_of(q);
    assert(p.len() == q.len());
    assert(code_of(p) == code_of(q));
}

/// In a table filled with prefix-free codes of at most 8 bits, each code
/// finds its own value, and a code that finds a value is one of them.
pub proof fn lemma_decode_table_lookup(es: Seq<(u8, Seq<bool>)>, p: Seq<bool>)
    requires
        prefix_free(es),
        short_paths(es),
    ensures
        forall|k: int|
            0 <= k < es.len() ==> lookup_in(apply_decodes(empty_decodes(), es), (#[trigger] es[k]).1)
                == Some(es[k].0),
        lookup_in(apply_decodes(empty_decodes(), es), p) is Some ==> exists|k: int|
            0 <= k < es.len() && (#[trigger] es[k]).1 == p && lookup_in(
                apply_decodes(empty_decodes(), es),
                p,
            ) == Some(es[k].0),
    decreases es.len(),
{
    if es.len() > 0 {
        let init = es.drop_last();
        let last = es.last();
        assert(prefix_free(init)) by {
            assert forall|a: int, b: int|
                0 <= a < init.len() && 0 <= b < init.len() && a != b implies !is_prefix(
                #[trigger] init[a].1,
                #[trigger] init[b].1,
            ) by {
                assert(init[a] == es[a] && init[b] == es[b]);
            }
        }
        assert(short_paths(init)) by {
            assert forall|k: int| 0 <= k < init.len() implies (#[trigger] init[k]).1.len() <= 8 by {
                assert(init[k] == es[k]);
            }
        }
        lemma_decode_table_lookup(init, p);
        lemma_apply_decodes_len(empty_decodes(), init);
        lemma_apply_decodes_len(empty_decodes(), es);
        let t0 = apply_decodes(empty_decodes(), init);
        let t1 = apply_decodes(empty_decodes(), es);
        assert(es[es.len() - 1] == last);
        assert(last.1.len() <= 8);
        lemma_code_of(last.1);
        assert forall|k: int|
            0 <= k < es.len() implies lookup_in(t1, (#[trigger] es[k]).1) == Some(es[k].0) by {
            if k < es.len() - 1 {
                assert(es[k] == init[k]);
                assert(es[k].1.len() <= 8);
                lemma_code_of(es[k].1);
                if slot(es[k].1) == slot(last.1) {
                    lemma_slot_injective(es[k].1, last.1);
                    assert(is_prefix(es[k].1, es[es.len() - 1].1));
                }
                assert(lookup_in(t0, init[k].1) == Some(init[k].0));
            }
        }
        if lookup_in(t1, p) is Some {
            if p.len() <= 8 && slot(p) == slot(last.1) {
                lemma_slot_injective(p, last.1);
                assert(es[es.len() - 1].1 == p);
            } else {
                let k = choose|k: int|
                    0 <= k < init.len() && (#[trigger] init[k]).1 == p && lookup_in(t0, p) == Some(
                        init[k].0,
                    );
                assert(es[k] == init[k]);
            }
        }
    }
}

/// The slots of a map keyed by slot numbers: the value under each slot, if any.
pub open spec fn slots_of(m: Map<usize, u8>) -> Seq<Option<u8>> {
    Seq::new(SLOTS as nat, |i: int| if m.contains_key(i as usize) { Some(m[i as usize]) } else { None })
}

/// Inserting a value under a slot number fills that slot.
proof fn lemma_slots_insert(m: Map<usize, u8>, k: usize, v: u8)
    requires
        k < SLOTS,
    ensures
        slots_of(m.insert(k, v)) == slots_of(m).update(k as int, Some(v)),
{
    assert forall|i: int| 0 <= i < SLOTS implies #[trigger] slots_of(m.insert(k, v))[i] == slots_of(
        m,
    ).update(k as int, Some(v))[i] by {
        if i != k as int {
            assert((i as usize) != k);
        }
    }
    assert(slots_of(m.insert(k, v)) =~= slots_of(m).update(k as int, Some(v)));
}

/// The value of each code of a Huffman tree, keyed by the slot of the code:
/// its length times 256 plus the code.
pub struct DecodeTable {
    table: HashMap<usize, u8>,
    max_length: usize,
}

impl View for DecodeTable {
    type V = Seq<Option<u8>>;

    closed spec fn view(&self) -> Seq<Option<u8>> {
        slots_of(self.table@)
    }
}

impl DecodeTable {
    /// The length of the longest code in the table.
    pub closed spec fn longest_length(&self) -> nat {
        self.max_length as nat
    }

    /// The length of the longest code in the table.
    pub fn max_length(&self) -> (len: usize)
        ensures
            len == self.longest_length(),
    {
        self.max_length
    }

    /// The value of each leaf of `tree` under its code, and the length of the longest code.
    pub fn new(tree: HuffmanTree) -> (table: Self)
        requires
            tree.wf(),
            tree.max_code_length() <= 8,
        ensures
            table@ == apply_decodes(empty_decodes(), tree.code_entries()),
            table.longest_length() == longest(tree.code_entries(), 0),
    {
        let mut table: HashMap<usize, u8> = HashMap::new();
        proof {
            assert(slots_of(table@) =~= empty_decodes());
            lemma_zero_byte();
            assert(code_bits(0u8, 1) =~= seq![false]);
            assert(code_bits(0u8, 0) =~= Seq::<bool>::empty());
            crate::utility::huffman_tree::lemma_entries_prefix_free(
                tree.nodes@,
                tree.root as int,
                tree.start_path(),
            );
        }
        let length: u32 = if tree.nodes.len() == 1 {
            1
        } else {
            0
        };
        let max_length = Self::fill_map(
            tree.root(),
            &mut table,
            &tree,
            0,
            length,
            0,
            Ghost(tree.root as int),
        );
        DecodeTable { table, max_length: max_length as usize }
    }

    fn fill_map(
        node: &Node,
        table: &mut HashMap<usize, u8>,
        tree: &HuffmanTree,
        code: u8,
        length: u32,
        max_length: u32,
        Ghost(index): Ghost<int>,
    ) -> (new_max: u32)
        requires
            tree.wf(),
            0 <= index < tree.nodes@.len(),
            *node == tree.nodes@[index],
            canonical(code, length as nat),
            length + height(tree.nodes@, index) <= 8,
            max_length <= 8,
        ensures
            slots_of(final(table)@) == apply_decodes(
                slots_of(old(table)@),
                entries(tree.nodes@, index, code_bits(code, length as nat)),
            ),
            new_max == longest(
                entries(tree.nodes@, index, code_bits(code, length as nat)),
                max_length as nat,
            ),
            new_max <= 8,
        decreases index,
    {
        let ghost path = code_bits(code, length as nat);
        proof {
            assert(children_before(tree.nodes@[index], index));
        }
        match node {
            Node::Leaf { value, .. } => {
                proof {
                    lemma_code_of_code_bits(code, length as nat);
                    let es = entries(tree.nodes@, index, path);
                    assert(es == seq![(*value, path)]);
                    assert(es.drop_last() =~= Seq::<(u8, Seq<bool>)>::empty());
                    assert(es.last() == (*value, path));
                    assert(apply_decodes(slots_of(table@), es.drop_last()) == slots_of(table@));
                    assert(longest(es.drop_last(), max_length as nat) == max_length);
                    lemma_code_of(path);
                    lemma_slots_insert(table@, slot(path) as usize, *value);
                }
                table.insert((length as usize) * 256 + code as usize, *value);
                if max_length < length {
                    length
                } else {
                    max_length
                }
            },
            Node::Node { left, right, .. } => {
                let left_node = &tree.nodes[*left];
                let right_node = &tree.nodes[*right];
                let left_code = code | (1u8 << (length as u8));
                proof {
                    lemma_set_bit(code, length as int);
                    assert(code_bits(left_code, length as nat + 1) =~= path.push(true));
                    assert(code_bits(code, length as nat + 1) =~= path.push(false));
                }
                let left_max = Self::fill_map(
                    left_node,
                    table,
                    tree,
                    left_code,
                    length + 1,
                    max_length,
                    Ghost(*left as int),
                );
                let ghost l = entries(tree.nodes@, *left as int, path.push(true));
                let ghost r = entries(tree.nodes@, *right as int, path.push(false));
                let new_max = Self::fill_map(
                    right_node,
                    table,
                    tree,
                    code,
                    length + 1,
                    left_max,
                    Ghost(*right as int),
                );
                proof {
                    lemma_apply_decodes_concat(slots_of(old(table)@), l, r);
                    lemma_longest_concat(l, r, max_length as nat);
                }
                new_max
            },
        }
    }

    /// The value whose code is the `length` lowest bits of `code`; codes
    /// with bits set above `length` have none.
    pub fn get(&self, code: u8, length: usize) -> (value: Option<u8>)
        ensures
            value == if canonical(code, length as nat) {
                lookup_in(self@, code_bits(code, length as nat))
            } else {
                None::<u8>
            },
    {
        if length > 8 {
            return None;
        }
        let fits = length == 8 || (code >> (length as u8)) == 0;
        proof {
            lemma_canonical_shift(code, length as u8);
        }
        if !fits {
            return None;
        }
        proof {
            lemma_code_of_code_bits(code, length as nat);
        }
        match self.table.get(&(length * 256 + code as usize)) {
            Some(value) => Some(*value),
            None => None,
        }
    }
}

proof fn lemma_longest_concat(a: Seq<(u8, Seq<bool>)>, b: Seq<(u8, Seq<bool>)>, m: nat)
    ensures
        longest(b, longest(a, m)) == longest(a + b, m),
    decreases b.len(),
{
    if b.len() == 0 {
        assert(a + b =~= a);
    } else {
        lemma_longest_concat(a, b.drop_last(), m);
        assert((a + b).drop_last() =~= a + b.drop_last());
    }
}

} // verus!
