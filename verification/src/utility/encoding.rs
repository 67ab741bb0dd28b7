use vstd::prelude::*;

use std::collections::HashMap;

use crate::utility::bits::{bit, canonical, code_bits, code_of, lemma_code_of_code_bits, lemma_set_bit, lemma_zero_byte};
use crate::utility::huffman_tree::node::Node;
use crate::utility::huffman_tree::{HuffmanTree, children_before, entries, height, nodes_wf};

verus! {

broadcast use vstd::std_specs::hash::group_hash_axioms;

/// The code of a byte value: its `length` lowest bits, least significant first.
#[derive(Debug, Clone, Copy, PartialEq, Eq)]
pub struct EncodingData {
    pub code: u8,
    pub length: u32,
}

/// The table entry for a leaf reached by `path`.
pub open spec fn entry_for(path: Seq<bool>) -> EncodingData {
    EncodingData { code: code_of(path), length: path.len() as u32 }
}

/// The bits that an entry stands for.
pub open spec fn entry_bits(d: EncodingData) -> Seq<bool> {
    code_bits(d.code, d.length as nat)
}

/// A table with the entries of `es` written into it in order, a later
/// entry for a value replacing an earlier one.
pub open spec fn apply_codes(t: Seq<Option<EncodingData>>, es: Seq<(u8, Seq<bool>)>) -> Seq<
    Option<EncodingData>,
>
    decreases es.len(),
{
    if es.len() == 0 {
        t
    } else {
        apply_codes(t, es.drop_last()).update(es.last().0 as int, Some(entry_for(es.last().1)))
    }
}

/// A table of 256 empty slots.
pub open spec fn empty_codes() -> Seq<Option<EncodingData>> {
    Seq::new(256, |i: int| None)
}

/// The entries that are present, in increasing order of the byte value.
pub open spec fn present_values(t: Seq<Option<EncodingData>>) -> Seq<EncodingData>
    decreases t.len(),
{
    if t.len() == 0 {
        Seq::empty()
    } else {
        let rest = present_values(t.drop_last());
        match t.last() {
            Some(d) => rest.push(d),
            None => rest,
        }
    }
}

pub proof fn lemma_apply_codes_len(t: Seq<Option<EncodingData>>, es: Seq<(u8, Seq<bool>)>)
    requires
        t.len() == 256,
    ensures
        apply_codes(t, es).len() == t.len(),
    decreases es.len(),
{
    if es.len() > 0 {
        lemma_apply_codes_len(t, es.drop_last());
    }
}

pub proof fn lemma_apply_codes_concat(
    t: Seq<Option<EncodingData>>,
    a: Seq<(u8, Seq<bool>)>,
    b: Seq<(u8, Seq<bool>)>,
)
    ensures
        apply_codes(apply_codes(t, a), b) == apply_codes(t, a + b),
    decreases b.len(),
{
    if b.len() == 0 {
        assert(a + b =~= a);
    } else {
        lemma_apply_codes_concat(t, a, b.drop_last());
        assert((a + b).drop_last() =~= a + b.drop_last());
    }
}

/// After writing `es`, the slot of a value that has an entry in `es` holds
/// the entry of one of them; any other slot is unchanged.
pub proof fn lemma_apply_codes_lookup(
    t: Seq<Option<EncodingData>>,
    es: Seq<(u8, Seq<bool>)>,
    v: u8,
)
    requires
        t.len() == 256,
    ensures
        (exists|k: int| 0 <= k < es.len() && (#[trigger] es[k]).0 == v) ==> exists|k: int|
            0 <= k < es.len() && (#[trigger] es[k]).0 == v && apply_codes(t, es)[v as int] == Some(
                entry_for(es[k].1),
            ),
        !(exists|k: int| 0 <= k < es.len() && (#[trigger] es[k]).0 == v) ==> apply_codes(
            t,
            es,
        )[v as int] == t[v as int],
    decreases es.len(),
{
    if es.len() > 0 {
        let init = es.drop_last();
        lemma_apply_codes_lookup(t, init, v);
        lemma_apply_codes_len(t, init);
        if es.last().0 == v {
            assert(es[es.len() - 1].0 == v);
        } else {
            if exists|k: int| 0 <= k < es.len() && (#[trigger] es[k]).0 == v {
                let k = choose|k: int| 0 <= k < es.len() && (#[trigger] es[k]).0 == v;
                assert(init[k] == es[k]);
                let j = choose|j: int|
                    0 <= j < init.len() && (#[trigger] init[j]).0 == v && apply_codes(t, init)[v as int]
                        == Some(entry_for(init[j].1));
                assert(es[j] == init[j]);
            } else {
                assert forall|k: int| 0 <= k < init.len() implies (#[trigger] init[k]).0 != v by {
                    assert(init[k] == es[k]);
                }
            }
        }
    }
}

/// The slots of a map from byte values: the entry of each byte value, if any.
pub open spec fn slots_of(m: Map<u8, EncodingData>) -> Seq<Option<EncodingData>> {
    Seq::new(256, |i: int| if m.contains_key(i as u8) { Some(m[i as u8]) } else { None })
}

/// Inserting an entry into a map fills the slot of its byte value.
proof fn lemma_slots_insert(m: Map<u8, EncodingData>, v: u8, d: EncodingData)
    ensures
        slots_of(m.insert(v, d)) == slots_of(m).update(v as int, Some(d)),
{
    assert forall|i: int| 0 <= i < 256 implies #[trigger] slots_of(m.insert(v, d))[i] == slots_of(
        m,
    ).update(v as int, Some(d))[i] by {
        if i != v as int {
            assert((i as u8) != v);
        }
    }
    assert(slots_of(m.insert(v, d)) =~= slots_of(m).update(v as int, Some(d)));
}

/// The code of each byte value, read off a Huffman tree.
pub struct EncodingTable {
    table: HashMap<u8, EncodingData>,
}

impl View for EncodingTable {
    type V = Seq<Option<EncodingData>>;

    closed spec fn view(&self) -> Seq<Option<EncodingData>> {
        slots_of(self.table@)
    }
}

impl EncodingTable {
    /// The codes of the leaves of `tree`.
    pub fn new(tree: HuffmanTree) -> (table: Self)
        requires
            tree.wf(),
            tree.max_code_length() <= 8,
        ensures
            table@ == apply_codes(empty_codes(), tree.code_entries()),
    {
        let mut table: HashMap<u8, EncodingData> = HashMap::new();
        proof {
            assert(slots_of(table@) =~= empty_codes());
            lemma_zero_byte();
            assert(canonical(0u8, 0));
            assert(canonical(0u8, 1));
            assert(code_bits(0u8, 1) =~= seq![false]);
            assert(code_bits(0u8, 0) =~= Seq::<bool>::empty());
        }
        let length: u32 = if tree.nodes.len() == 1 {
            1
        } else {
            0
        };
        Self::fill_map(tree.root(), &mut table, &tree, 0, length, Ghost(tree.root as int));
        EncodingTable { table }
    }

    fn fill_map(
        node: &Node,
        table: &mut HashMap<u8, EncodingData>,
        tree: &HuffmanTree,
        code: u8,
        length: u32,
        Ghost(index): Ghost<int>,
    )
        requires
            tree.wf(),
            0 <= index < tree.nodes@.len(),
            *node == tree.nodes@[index],
            canonical(code, length as nat),
            length + height(tree.nodes@, index) <= 8,
        ensures
            slots_of(final(table)@) == apply_codes(
                slots_of(old(table)@),
                entries(tree.nodes@, index, code_bits(code, length as nat)),
            ),
        decreases index,
    {
        let ghost path = code_bits(code, length as nat);
        proof {
            assert(children_before(tree.nodes@[index], index));
        }
        match node {
            Node::Leaf { value, .. } => {
                proof {
                    lemma_code_of_code_bits(code, length as nat);
                    let es = entries(tree.nodes@, index, path);
                    assert(es == seq![(*value, path)]);
                    assert(es.drop_last() =~= Seq::<(u8, Seq<bool>)>::empty());
                    assert(es.last() == (*value, path));
                    assert(entry_for(path) == EncodingData { code, length });
                    assert(apply_codes(slots_of(table@), es.drop_last()) == slots_of(table@));
                    lemma_slots_insert(table@, *value, EncodingData { code, length });
                }
                table.insert(*value, EncodingData { code, length });
            },
            Node::Node { left, right, .. } => {
                let left_node = &tree.nodes[*left];
                let right_node = &tree.nodes[*right];
                let left_code = code | (1u8 << (length as u8));
                proof {
                    lemma_set_bit(code, length as int);
                    assert(code_bits(left_code, length as nat + 1) =~= path.push(true));
                    assert(code_bits(code, length as nat + 1) =~= path.push(false));
                }
                Self::fill_map(left_node, table, tree, left_code, length + 1, Ghost(*left as int));
                Self::fill_map(right_node, table, tree, code, length + 1, Ghost(*right as int));
                proof {
                    lemma_apply_codes_concat(
                        slots_of(old(table)@),
                        entries(tree.nodes@, *left as int, path.push(true)),
                        entries(tree.nodes@, *right as int, path.push(false)),
                    );
                }
            },
        }
    }

    /// The code of `value`, if it has one.
    pub fn get(&self, value: u8) -> (data: Option<EncodingData>)
        ensures
            data == self@[value as int],
    {
        match self.table.get(&value) {
            Some(d) => Some(*d),
            None => None,
        }
    }

    /// The codes that are present, in increasing order of the byte value.
    pub fn values(&self) -> (values: Vec<EncodingData>)
        ensures
            values@ == present_values(self@),
    {
        let mut values: Vec<EncodingData> = Vec::new();
        let mut i: usize = 0;
        while i < 256
            invariant
                i <= 256,
                values@ == present_values(self@.take(i as int)),
            decreases 256 - i,
        {
            proof {
                assert(self@.take(i as int + 1).drop_last() =~= self@.take(i as int));
            }
            match self.get(i as u8) {
                Some(d) => values.push(d),
                None => {},
            }
            i = i + 1;
        }
        assert(self@.take(i as int) =~= self@);
        values
    }
}

} // verus!
