use vstd::prelude::*;

use crate::Huffman;
use crate::utility::Occurences;
use crate::utility::bits::{
    bit,
    bits_of,
    canonical,
    code_bits,
    lemma_bits_of_concat,
    lemma_bits_of_push,
    lemma_canonical_byte_bits,
    lemma_canonical_shift,
    lemma_code_of,
    lemma_zero_byte,
    zeros,
};
use crate::utility::data_header::{DataHeader, header_bytes, header_len, lemma_header_length};
use crate::utility::encoding::{
    EncodingData,
    EncodingTable,
    apply_codes,
    empty_codes,
    entry_bits,
    entry_for,
    lemma_apply_codes_lookup,
};
use crate::utility::huffman_tree::{
    HuffmanTree,
    count_of,
    input_counts,
    leaf_reach,
    lemma_tree_codes,
    lemma_tree_of_wf,
    nonzero_prefix,
    prefix_total,
    symbol_count,
    total_of,
    tree_code_length,
    tree_entries,
    tree_of,
};

verus! {

/// The bits that the table gives the bytes of `input`, one code after the other.
pub open spec fn stream(table: Seq<Option<EncodingData>>, input: Seq<u8>) -> Seq<bool>
    decreases input.len(),
{
    if input.len() == 0 {
        Seq::empty()
    } else {
        stream(table, input.drop_last()) + entry_bits(table[input.last() as int].unwrap())
    }
}

/// `data` holds `bits`, eight to a byte least significant first, padded with
/// zero bits to a whole byte.
pub open spec fn packs(data: Seq<u8>, bits: Seq<bool>) -> bool {
    &&& bits.len() <= 8 * data.len() < bits.len() + 8
    &&& bits_of(data) == bits + zeros((8 * data.len() - bits.len()) as nat)
}

/// `out` is the encoding of `input`: the header of its counts and length,
/// then its bit stream packed into bytes.
pub open spec fn encoded(input: Seq<u8>, out: Seq<u8>) -> bool {
    let occ = input_counts(input);
    &&& out == header_bytes(occ, input.len() as u64) + out.skip(header_len(occ) as int)
    &&& packs(out.skip(header_len(occ) as int), stream(codes_of(occ), input))
}

/// The code table of the Huffman tree of a count table.
pub open spec fn codes_of(occ: Seq<u64>) -> Seq<Option<EncodingData>> {
    apply_codes(empty_codes(), tree_entries(tree_of(occ).0 as int, tree_of(occ).1))
}

/// The counts of a byte string add up to its length.
proof fn lemma_count_total(input: Seq<u8>, k: int)
    requires
        0 <= k <= 256,
        input.len() <= u64::MAX,
    ensures
        prefix_total(input_counts(input), k) == count_below(input, k),
    decreases k,
{
    if k == 0 {
        lemma_count_below_zero(input);
    } else {
        lemma_count_total(input, k - 1);
        lemma_count_below_step(input, k);
        crate::utility::huffman_tree::lemma_count_bounded(input, (k - 1) as u8);
        assert(input_counts(input)[k - 1] == count_of(input, (k - 1) as u8));
        assert(prefix_total(input_counts(input), k) == prefix_total(input_counts(input), k - 1)
            + input_counts(input)[k - 1] as nat);
    }
}

/// How many bytes of `input` are below `k`.
pub open spec fn count_below(input: Seq<u8>, k: int) -> nat
    decreases input.len(),
{
    if input.len() == 0 {
        0
    } else {
        count_below(input.drop_last(), k) + if input.last() < k { 1nat } else { 0nat }
    }
}

proof fn lemma_count_below_zero(input: Seq<u8>)
    ensures
        count_below(input, 0) == 0,
    decreases input.len(),
{
    if input.len() > 0 {
        lemma_count_below_zero(input.drop_last());
    }
}

proof fn lemma_count_below_step(input: Seq<u8>, k: int)
    requires
        0 < k <= 256,
    ensures
        count_below(input, k) == count_below(input, k - 1) + count_of(input, (k - 1) as u8),
    decreases input.len(),
{
    if input.len() > 0 {
        lemma_count_below_step(input.drop_last(), k);
    }
}

proof fn lemma_count_below_all(input: Seq<u8>)
    ensures
        count_below(input, 256) == input.len(),
    decreases input.len(),
{
    if input.len() > 0 {
        lemma_count_below_all(input.drop_last());
    }
}

proof fn lemma_nonzero_prefix_positive(occ: Seq<u64>, j: int, k: int)
    requires
        0 <= j < k,
        occ[j] != 0,
    ensures
        nonzero_prefix(occ, k) > 0,
    decreases k,
{
    if j < k - 1 {
        lemma_nonzero_prefix_positive(occ, j, k - 1);
    }
}

/// The counts of a non-empty byte string make a tree.
pub proof fn lemma_input_counts(input: Seq<u8>)
    requires
        input.len() > 0,
        input.len() <= u64::MAX,
    ensures
        input_counts(input).len() == 256,
        total_of(input_counts(input)) == input.len(),
        symbol_count(input_counts(input)) > 0,
        forall|j: int| 0 <= j < input.len() ==> input_counts(input)[#[trigger] input[j] as int] != 0,
{
    let occ = input_counts(input);
    lemma_count_total(input, 256);
    lemma_count_below_all(input);
    assert forall|j: int| 0 <= j < input.len() implies occ[#[trigger] input[j] as int] != 0 by {
        lemma_count_positive(input, j);
        crate::utility::huffman_tree::lemma_count_bounded(input, input[j]);
    }
    assert(occ[input[0] as int] != 0);
    lemma_nonzero_prefix_positive(occ, input[0] as int, 256);
}

proof fn lemma_count_positive(input: Seq<u8>, j: int)
    requires
        0 <= j < input.len(),
    ensures
        count_of(input, input[j]) > 0,
    decreases input.len(),
{
    if j < input.len() - 1 {
        lemma_count_positive(input.drop_last(), j);
    }
}

/// Every symbol that occurs has a code of one to eight bits in the code
/// table of a tree whose codes fit in a byte, and that code is the path of
/// one of the tree's leaves with that symbol.
pub proof fn lemma_codes_cover(occ: Seq<u64>, s: u8)
    requires
        occ.len() == 256,
        symbol_count(occ) > 0,
        total_of(occ) <= u64::MAX,
        occ[s as int] != 0,
        tree_code_length(tree_of(occ).0 as int, tree_of(occ).1) <= 8,
    ensures
        codes_of(occ)[s as int] is Some,
        1 <= codes_of(occ)[s as int]->Some_0.length <= 8,
        canonical(codes_of(occ)[s as int]->Some_0.code, codes_of(occ)[s as int]->Some_0.length as nat),
        exists|k: int|
            0 <= k < tree_entries(tree_of(occ).0 as int, tree_of(occ).1).len() && #[trigger] tree_entries(
                tree_of(occ).0 as int,
                tree_of(occ).1,
            )[k] == (s, entry_bits(codes_of(occ)[s as int]->Some_0)),
{
    let (root, nodes) = tree_of(occ);
    let es = tree_entries(root as int, nodes);
    lemma_tree_of_wf(occ);
    lemma_tree_codes(root as int, nodes);
    assert(leaf_reach(nodes, root as int, s));
    lemma_apply_codes_lookup(empty_codes(), es, s);
    let k = choose|k: int|
        0 <= k < es.len() && (#[trigger] es[k]).0 == s && apply_codes(empty_codes(), es)[s as int]
            == Some(entry_for(es[k].1));
    lemma_code_of(es[k].1);
}

/// Why a byte string could not be encoded.
#[derive(Debug, Clone, Copy, PartialEq, Eq, Structural)]
pub enum EncodeError {
    /// There is nothing to encode: no tree can be built from no symbols.
    EmptyInput,
    /// Some code of the tree is longer than 8 bits, which a code byte cannot hold.
    CodeTooLong,
}

/// Bits packed so far into the byte under construction.
pub struct EncodingState {
    pub current_byte: u8,
    pub offset: u32,
}

impl EncodingState {
    /// Fewer than 8 bits are pending and the byte holds nothing above them.
    pub open spec fn wf(&self) -> bool {
        &&& self.offset < 8
        &&& canonical(self.current_byte, self.offset as nat)
    }

    /// The pending bits.
    pub open spec fn pending(&self) -> Seq<bool> {
        code_bits(self.current_byte, self.offset as nat)
    }

    pub fn new() -> (state: Self)
        ensures
            state.current_byte == 0,
            state.offset == 0,
            state.wf(),
    {
        proof {
            lemma_zero_byte();
        }
        Self { current_byte: 0, offset: 0 }
    }
}

proof fn lemma_fit_bv(cur: u8, code: u8, off: u32, len: u32, j: u8)
    by (bit_vector)
    requires
        off < 8,
        len <= 8,
        off + len <= 8,
        cur >> (off as u8) == 0,
        len == 8 || code >> (len as u8) == 0,
        j < 8,
    ensures
        ((cur | (code << off)) >> j) & 1u8 == 1u8 <==> if j < off {
            (cur >> j) & 1u8 == 1u8
        } else if j < off + len {
            (code >> ((j - off) as u8)) & 1u8 == 1u8
        } else {
            false
        },
{
}

proof fn lemma_spill_bv(cur: u8, code: u8, off: u32, len: u32, j: u8)
    by (bit_vector)
    requires
        0 < off < 8,
        len <= 8,
        off + len > 8,
        cur >> (off as u8) == 0,
        j < 8,
    ensures
        ((cur | (code << off)) >> j) & 1u8 == 1u8 <==> if j < off {
            (cur >> j) & 1u8 == 1u8
        } else {
            (code >> ((j - off) as u8)) & 1u8 == 1u8
        },
{
}

proof fn lemma_rest_bv(code: u8, off: u32, len: u32, m: u32, shift: u32, mask: u8, j: u8)
    by (bit_vector)
    requires
        0 < off < 8,
        len <= 8,
        off + len > 8,
        m == off + len - 8,
        shift == len - m,
        mask == (1u8 << m) - 1,
        len == 8 || code >> (len as u8) == 0,
        j < 8,
    ensures
        (((code >> shift) & mask) >> j) & 1u8 == 1u8 <==> (j < m && (code >> ((j + 8 - off) as u8))
            & 1u8 == 1u8),
{
}

/// Adding a code that fits into the byte under construction.
proof fn lemma_fit(cur: u8, code: u8, off: u32, len: u32)
    requires
        off < 8,
        len <= 8,
        off + len <= 8,
        canonical(cur, off as nat),
        canonical(code, len as nat),
    ensures
        canonical(cur | (code << off), (off + len) as nat),
        code_bits(cur | (code << off), (off + len) as nat) == code_bits(cur, off as nat)
            + code_bits(code, len as nat),
{
    lemma_canonical_shift(cur, off as u8);
    if len < 8 {
        lemma_canonical_shift(code, len as u8);
    }
    let b = cur | (code << off);
    assert forall|i: int| 0 <= i < 8 implies #[trigger] bit(b, i) == if i < off {
        bit(cur, i)
    } else if i < off + len {
        bit(code, i - off)
    } else {
        false
    } by {
        lemma_fit_bv(cur, code, off, len, i as u8);
    }
    assert(code_bits(b, (off + len) as nat) =~= code_bits(cur, off as nat) + code_bits(
        code,
        len as nat,
    ));
}

/// Adding a code that spills over the byte under construction: the full
/// byte, and the bits left over.
proof fn lemma_spill(cur: u8, code: u8, off: u32, len: u32)
    requires
        off < 8,
        1 <= len <= 8,
        off + len > 8,
        canonical(cur, off as nat),
        canonical(code, len as nat),
    ensures
        code_bits(cur | (code << off), 8) == code_bits(cur, off as nat) + code_bits(
            code,
            len as nat,
        ).subrange(0, 8 - off),
{
    lemma_canonical_shift(cur, off as u8);
    let b = cur | (code << off);
    assert forall|i: int| 0 <= i < 8 implies #[trigger] bit(b, i) == if i < off {
        bit(cur, i)
    } else {
        bit(code, i - off)
    } by {
        lemma_spill_bv(cur, code, off, len, i as u8);
    }
    assert(code_bits(b, 8) =~= code_bits(cur, off as nat) + code_bits(code, len as nat).subrange(
        0,
        8 - off,
    ));
}

/// The bits of a spilling code that are left over for the next byte.
proof fn lemma_rest(code: u8, off: u32, len: u32, m: u32, shift: u32, mask: u8)
    requires
        0 < off < 8,
        1 <= len <= 8,
        off + len > 8,
        m == off + len - 8,
        shift == len - m,
        mask == (1u8 << m) - 1,
        canonical(code, len as nat),
    ensures
        canonical((code >> shift) & mask, m as nat),
        code_bits((code >> shift) & mask, m as nat) == code_bits(code, len as nat).subrange(
            8 - off,
            len as int,
        ),
{
    if len < 8 {
        lemma_canonical_shift(code, len as u8);
    }
    let r = (code >> shift) & mask;
    assert forall|i: int| 0 <= i < 8 implies #[trigger] bit(r, i) == (i < m && bit(
        code,
        i + 8 - off,
    )) by {
        lemma_rest_bv(code, off, len, m, shift, mask, i as u8);
    }
    assert(code_bits(r, m as nat) =~= code_bits(code, len as nat).subrange(8 - off, len as int));
}

/// Appends the code `input` to the bit stream: fills the byte under
/// construction and writes it out to `output` once it is full, so at most
/// one byte is written.
fn write(input: &EncodingData, output: &mut Vec<u8>, state: &mut EncodingState)
    requires
        old(state).wf(),
        1 <= input.length <= 8,
        canonical(input.code, input.length as nat),
    ensures
        final(state).wf(),
        old(output)@.is_prefix_of(final(output)@),
        final(output)@.len() <= old(output)@.len() + 1,
        bits_of(final(output)@) + final(state).pending() == bits_of(old(output)@) + old(
            state,
        ).pending() + entry_bits(*input),
{
    let ghost out0 = output@;
    let ghost pending0 = state.pending();
    if state.offset + input.length <= 7 {
        proof {
            lemma_fit(state.current_byte, input.code, state.offset, input.length);
        }
        state.current_byte = state.current_byte | (input.code << state.offset);
        state.offset = state.offset + input.length;
        assert(bits_of(output@) + state.pending() =~= bits_of(out0) + pending0 + entry_bits(*input));
    } else if state.offset + input.length == 8 {
        proof {
            lemma_fit(state.current_byte, input.code, state.offset, input.length);
        }
        state.current_byte = state.current_byte | (input.code << state.offset);
        state.offset = 0;
        output.push(state.current_byte);
        proof {
            lemma_bits_of_push(out0, state.current_byte);
        }
        state.current_byte = 0;
        proof {
            lemma_code_of(Seq::<bool>::empty());
            assert(state.pending() =~= Seq::<bool>::empty());
        }
        assert(bits_of(output@) + state.pending() =~= bits_of(out0) + pending0 + entry_bits(*input));
    } else {
        proof {
            lemma_spill(state.current_byte, input.code, state.offset, input.length);
        }
        let spilled = input.code.wrapping_shl(state.offset);
        assert(spilled == input.code << state.offset);
        state.current_byte = state.current_byte | spilled;
        output.push(state.current_byte);
        proof {
            lemma_bits_of_push(out0, state.current_byte);
        }
        let missing_bits = (state.offset + input.length) - 8;
        let shift = input.length - missing_bits;
        assert(1u8 << missing_bits >= 1u8) by (bit_vector)
            requires
                missing_bits < 8,
        ;
        let mask: u8 = (1u8 << missing_bits) - 1;
        let rest = input.code.wrapping_shr(shift);
        assert(rest == input.code >> shift);
        proof {
            lemma_rest(input.code, old(state).offset, input.length, missing_bits, shift, mask);
        }
        state.current_byte = rest & mask;
        state.offset = missing_bits;
        assert(bits_of(output@) + state.pending() =~= bits_of(out0) + pending0 + entry_bits(*input));
    }
    assert(out0.is_prefix_of(output@));
}

/// Appends the code of the byte `input` to the bit stream.
fn encode(input: u8, output: &mut Vec<u8>, encoding_table: &EncodingTable, state: &mut EncodingState)
    requires
        old(state).wf(),
        encoding_table@[input as int] is Some,
        1 <= encoding_table@[input as int]->Some_0.length <= 8,
        canonical(
            encoding_table@[input as int]->Some_0.code,
            encoding_table@[input as int]->Some_0.length as nat,
        ),
    ensures
        final(state).wf(),
        old(output)@.is_prefix_of(final(output)@),
        bits_of(final(output)@) + final(state).pending() == bits_of(old(output)@) + old(
            state,
        ).pending() + entry_bits(encoding_table@[input as int]->Some_0),
{
    let encoding_data = encoding_table.get(input).unwrap();
    write(&encoding_data, output, state);
}

/// Appends the codes of the bytes of `input` to `output`, packed eight bits
/// to a byte, least significant first, the last byte padded with zeros.
fn pack(input: &[u8], encoding_table: &EncodingTable, output: &mut Vec<u8>)
    requires
        forall|j: int|
            0 <= j < input@.len() ==> {
                let d = #[trigger] encoding_table@[input@[j] as int];
                &&& d is Some
                &&& 1 <= d->Some_0.length <= 8
                &&& canonical(d->Some_0.code, d->Some_0.length as nat)
            },
    ensures
        final(output)@ == old(output)@ + final(output)@.skip(old(output)@.len() as int),
        packs(final(output)@.skip(old(output)@.len() as int), stream(encoding_table@, input@)),
{
    let ghost header = output@;
    let ghost codes = encoding_table@;
    let mut state = EncodingState::new();
    proof {
        lemma_zero_byte();
        assert(state.pending() =~= Seq::<bool>::empty());
        assert(input@.take(0) =~= Seq::<u8>::empty());
    }
    let mut i: usize = 0;
    while i < input.len()
        invariant
            i <= input@.len(),
            state.wf(),
            header.is_prefix_of(output@),
            bits_of(output@) + state.pending() == bits_of(header) + stream(
                codes,
                input@.take(i as int),
            ),
            codes == encoding_table@,
            forall|j: int|
                0 <= j < input@.len() ==> {
                    let d = #[trigger] codes[input@[j] as int];
                    &&& d is Some
                    &&& 1 <= d->Some_0.length <= 8
                    &&& canonical(d->Some_0.code, d->Some_0.length as nat)
                },
        decreases input@.len() - i,
    {
        proof {
            assert(input@.take(i as int + 1).drop_last() =~= input@.take(i as int));
        }
        encode(input[i], output, encoding_table, &mut state);
        i = i + 1;
        proof {
            assert(bits_of(output@) + state.pending() =~= bits_of(header) + stream(
                codes,
                input@.take(i as int),
            ));
        }
    }
    proof {
        assert(input@.take(i as int) =~= input@);
    }
    let ghost before_flush = output@;
    if state.offset != 0 {
        output.push(state.current_byte);
        proof {
            lemma_bits_of_push(before_flush, state.current_byte);
            lemma_canonical_byte_bits(state.current_byte, state.offset as nat);
        }
    } else {
        proof {
            assert(state.pending() =~= Seq::<bool>::empty());
        }
    }
    let ghost data = output@.skip(header.len() as int);
    proof {
        assert(output@ =~= header + data);
        lemma_bits_of_concat(header, data);
        let st = stream(codes, input@);
        let hb = bits_of(header);
        let tail = if state.offset != 0 {
            zeros((8 - state.offset) as nat)
        } else {
            Seq::<bool>::empty()
        };
        assert(hb + bits_of(data) == hb + st + tail) by {
            if state.offset != 0 {
                assert(bits_of(output@) =~= bits_of(before_flush) + state.pending() + tail);
            } else {
                assert(bits_of(output@) =~= bits_of(before_flush) + state.pending());
                assert(hb + st + tail =~= hb + st);
            }
        }
        assert(bits_of(data) =~= (hb + bits_of(data)).skip(hb.len() as int));
        assert(st + tail =~= (hb + st + tail).skip(hb.len() as int));
        assert(bits_of(data) == st + tail);
        assert(tail =~= zeros((8 * data.len() - st.len()) as nat));
    }
}

impl Huffman {
    /// Compresses `input`: a header with the count table and the number of
    /// bytes, then the Huffman code of each byte, packed eight bits to a
    /// byte, least significant bit first, the last byte padded with zeros.
    #[verifier::spinoff_prover]
    pub fn encode(input: &[u8]) -> (result: Result<Vec<u8>, EncodeError>)
        ensures
            input@.len() == 0 ==> result == Err::<Vec<u8>, EncodeError>(EncodeError::EmptyInput),
            input@.len() > 0 ==> {
                let occ = input_counts(input@);
                let (root, nodes) = tree_of(occ);
                if tree_code_length(root as int, nodes) > 8 {
                    result == Err::<Vec<u8>, EncodeError>(EncodeError::CodeTooLong)
                } else {
                    match result {
                        Ok(out) => encoded(input@, out@),
                        Err(_) => false,
                    }
                }
            },
    {
        if input.len() == 0 {
            return Err(EncodeError::EmptyInput);
        }
        let occurences = HuffmanTree::find_occurences(input);
        let ghost occ = input_counts(input@);
        proof {
            lemma_input_counts(input@);
        }
        let tree = HuffmanTree::generate(occurences);
        if tree.longest_code() > 8 {
            return Err(EncodeError::CodeTooLong);
        }
        let encoding_table = EncodingTable::new(tree);
        let ghost codes = encoding_table@;
        proof {
            assert(codes == codes_of(occ));
            assert forall|j: int| 0 <= j < input@.len() implies {
                let d = #[trigger] codes[input@[j] as int];
                &&& d is Some
                &&& 1 <= d->Some_0.length <= 8
                &&& canonical(d->Some_0.code, d->Some_0.length as nat)
            } by {
                lemma_codes_cover(occ, input@[j]);
            }
        }
        // Write data header
        let data_header = DataHeader::new(occurences, input.len() as u64);
        let mut output: Vec<u8> = Vec::new();
        data_header.write_to(&mut output);
        let ghost header = output@;
        proof {
            assert(header =~= header_bytes(occ, input@.len() as u64));
            lemma_header_length(occ, input@.len() as u64);
        }
        pack(input, &encoding_table, &mut output);
        proof {
            assert(output@ =~= header + output@.skip(header.len() as int));
        }
        Ok(output)
    }
}

} // verus!
