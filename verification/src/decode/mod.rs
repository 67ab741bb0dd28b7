use vstd::prelude::*;

use crate::Huffman;
use crate::encode::{codes_of, encoded, lemma_codes_cover, lemma_input_counts, stream};
use crate::utility::huffman_tree::input_counts;
use crate::utility::encoding::{EncodingData, apply_codes, empty_codes, entry_bits, entry_for, lemma_apply_codes_lookup};
use crate::utility::huffman_tree::leaves::lemma_tree_leaves_distinct;
use crate::utility::bits::{bit, bits_of, canonical, code_bits, lemma_canonical_shift, lemma_code_of, lemma_code_of_code_bits};
use crate::utility::data_header::{DataHeader, HeaderError, header_len, header_size, parse_header, result_view};
use crate::utility::decoding::{
    DecodeTable,
    apply_decodes,
    empty_decodes,
    lemma_decode_table_lookup,
    longest,
    lookup_in,
    short_paths,
};
use crate::utility::huffman_tree::{
    HuffmanTree,
    is_prefix,
    leaf_reach,
    lemma_tree_codes,
    lemma_tree_of_wf,
    nonzero_prefix,
    prefix_free,
    prefix_total,
    symbol_count,
    total_of,
    tree_code_length,
    tree_entries,
    tree_of,
};
use crate::utility::wire::write_u8_to;
use crate::utility::Occurences;

verus! {

/// Some code of `es` begins `bits`.
pub open spec fn matching(es: Seq<(u8, Seq<bool>)>, bits: Seq<bool>) -> bool {
    exists|k: int| 0 <= k < es.len() && is_prefix(#[trigger] es[k].1, bits)
}

/// An entry whose code begins `bits`.
pub open spec fn match_index(es: Seq<(u8, Seq<bool>)>, bits: Seq<bool>) -> int {
    choose|k: int| 0 <= k < es.len() && is_prefix(#[trigger] es[k].1, bits)
}

/// The `n` symbols whose codes, one after the other, begin `bits`; `None`
/// when the bits run out or match no code first.
pub open spec fn decoded(es: Seq<(u8, Seq<bool>)>, bits: Seq<bool>, n: nat) -> Option<Seq<u8>>
    decreases n,
{
    if n == 0 {
        Some(Seq::empty())
    } else if !matching(es, bits) {
        None
    } else {
        let k = match_index(es, bits);
        match decoded(es, bits.skip(es[k].1.len() as int), (n - 1) as nat) {
            Some(rest) => Some(seq![es[k].0] + rest),
            None => None,
        }
    }
}

/// Why encoded bytes could not be decoded.
#[derive(Debug, Clone, Copy, PartialEq, Eq, Structural)]
pub enum DecodeError {
    /// The header could not be read.
    Header(HeaderError),
    /// The count table is empty, so there is no tree.
    EmptyTable,
    /// The counts add up to more than 64 bits hold.
    CountOverflow,
    /// Some code of the tree is longer than 8 bits.
    CodeTooLong,
    /// The data does not hold the codes of as many symbols as the header says.
    MalformedData,
}

proof fn lemma_low_bits_bv(b: u8, bo: u8, amount: u8, mask: u8, j: u8)
    by (bit_vector)
    requires
        bo + amount <= 8,
        1 <= amount <= 8,
        amount == 8 ==> mask == 0xffu8,
        amount < 8 ==> mask == (1u8 << amount) - 1,
        j < 8,
    ensures
        (((b >> bo) & mask) >> j) & 1u8 == 1u8 <==> (j < amount && (b >> ((bo + j) as u8)) & 1u8
            == 1u8),
{
}

proof fn lemma_two_bytes_bv(b0: u8, b1: u8, bo: u8, amount: u8, f: u8, mask_f: u8, mask: u8, j: u8)
    by (bit_vector)
    requires
        bo < 8,
        bo + amount > 8,
        amount <= 8,
        f == 8 - bo,
        mask_f == (1u8 << f) - 1,
        amount == 8 ==> mask == 0xffu8,
        amount < 8 ==> mask == (1u8 << amount) - 1,
        j < 8,
    ensures
        ((((b1 << f) | ((b0 >> bo) & mask_f)) & mask) >> j) & 1u8 == 1u8 <==> (j < amount && if j
            < f {
            (b0 >> ((bo + j) as u8)) & 1u8 == 1u8
        } else {
            (b1 >> ((j - f) as u8)) & 1u8 == 1u8
        }),
{
}

proof fn lemma_offset_split_bv(offset: usize)
    by (bit_vector)
    ensures
        offset >> 3usize == offset / 8,
        offset & 7usize == offset % 8,
{
}

/// The mask of the `amount` lowest bits of a byte.
fn low_mask(amount: usize) -> (mask: u8)
    requires
        1 <= amount <= 8,
    ensures
        amount == 8 ==> mask == 0xffu8,
        amount < 8 ==> mask == (1u8 << amount) - 1,
{
    if amount >= 8 {
        0xff
    } else {
        assert(1u8 << amount >= 1u8) by (bit_vector)
            requires
                amount < 8,
        ;
        (1u8 << amount) - 1
    }
}

/// The `amount` bits of `input` from bit `offset` on, each byte least
/// significant bit first, as the `amount` lowest bits of a byte.
fn get_bits(input: &[u8], offset: usize, amount: usize) -> (bits: u8)
    requires
        1 <= amount <= 8,
        offset + amount <= 8 * input@.len(),
    ensures
        canonical(bits, amount as nat),
        code_bits(bits, amount as nat) == bits_of(input@).subrange(
            offset as int,
            offset + amount,
        ),
{
    let byte_offset = offset >> 3;
    let bit_offset = offset & 0x7;
    proof {
        lemma_offset_split_bv(offset);
    }
    let mask = low_mask(amount);
    let ghost want = bits_of(input@).subrange(offset as int, offset + amount);
    if bit_offset + amount <= 8 {
        let b = input[byte_offset];
        let r = b.wrapping_shr(bit_offset as u32) & mask;
        assert(b.wrapping_shr(bit_offset as u32) == b >> (bit_offset as u8));
        proof {
            assert forall|i: int| 0 <= i < 8 implies #[trigger] bit(r, i) == (i < amount && bit(
                b,
                bit_offset + i,
            )) by {
                lemma_low_bits_bv(b, bit_offset as u8, amount as u8, mask, i as u8);
            }
            assert forall|i: int| 0 <= i < amount implies #[trigger] code_bits(r, amount as nat)[i]
                == want[i] by {
                assert((offset + i) / 8 == byte_offset);
                assert((offset + i) % 8 == bit_offset + i);
            }
            assert(code_bits(r, amount as nat) =~= want);
        }
        r
    } else {
        let bits_in_second_byte = bit_offset + amount - 8;
        let bits_in_first_byte = amount - bits_in_second_byte;
        let b0 = input[byte_offset];
        let b1 = input[byte_offset + 1];
        let mask_f = low_mask(bits_in_first_byte);
        let first_half = b0.wrapping_shr(bit_offset as u32) & mask_f;
        assert(b0.wrapping_shr(bit_offset as u32) == b0 >> (bit_offset as u8));
        let shifted = b1.wrapping_shl(bits_in_first_byte as u32);
        assert(shifted == b1 << (bits_in_first_byte as u8));
        let r = (shifted | first_half) & mask;
        proof {
            let f = bits_in_first_byte;
            assert forall|i: int| 0 <= i < 8 implies #[trigger] bit(r, i) == (i < amount && if i
                < f {
                bit(b0, bit_offset + i)
            } else {
                bit(b1, i - f)
            }) by {
                lemma_two_bytes_bv(
                    b0,
                    b1,
                    bit_offset as u8,
                    amount as u8,
                    f as u8,
                    mask_f,
                    mask,
                    i as u8,
                );
            }
            assert forall|i: int| 0 <= i < amount implies #[trigger] code_bits(r, amount as nat)[i]
                == want[i] by {
                if i < f {
                    assert((offset + i) / 8 == byte_offset);
                    assert((offset + i) % 8 == bit_offset + i);
                } else {
                    assert((offset + i) / 8 == byte_offset + 1);
                    assert((offset + i) % 8 == i - f);
                }
            }
            assert(code_bits(r, amount as nat) =~= want);
        }
        r
    }
}

/// `out` followed by `rest`, when there is a rest.
pub open spec fn after(out: Seq<u8>, rest: Option<Seq<u8>>) -> Option<Seq<u8>> {
    match rest {
        Some(r) => Some(out + r),
        None => None,
    }
}

/// What decoding `input` gives.
pub open spec fn decode_spec(input: Seq<u8>) -> Result<Seq<u8>, DecodeError> {
    match parse_header(input) {
        Err(e) => Err(DecodeError::Header(e)),
        Ok(h) => {
            let occ = h.occurences;
            if symbol_count(occ) == 0 {
                Err(DecodeError::EmptyTable)
            } else if total_of(occ) > u64::MAX {
                Err(DecodeError::CountOverflow)
            } else if tree_code_length(tree_of(occ).0 as int, tree_of(occ).1) > 8 {
                Err(DecodeError::CodeTooLong)
            } else if header_size(h) > input.len() {
                Err(DecodeError::MalformedData)
            } else {
                match decoded(
                    tree_entries(tree_of(occ).0 as int, tree_of(occ).1),
                    bits_of(input.skip(header_size(h) as int)),
                    h.data_amount as nat,
                ) {
                    Some(out) => Ok(out),
                    None => Err(DecodeError::MalformedData),
                }
            }
        },
    }
}

/// Of prefix-free codes, at most one begins a given bit string.
pub proof fn lemma_unique_match(es: Seq<(u8, Seq<bool>)>, bits: Seq<bool>, a: int, b: int)
    requires
        prefix_free(es),
        0 <= a < es.len(),
        0 <= b < es.len(),
        is_prefix(es[a].1, bits),
        is_prefix(es[b].1, bits),
    ensures
        a == b,
{
    if a != b {
        if es[a].1.len() <= es[b].1.len() {
            assert(is_prefix(es[a].1, es[b].1));
        } else {
            assert(is_prefix(es[b].1, es[a].1));
        }
    }
}

proof fn lemma_longest(es: Seq<(u8, Seq<bool>)>, m: nat)
    requires
        short_paths(es),
        m <= 8,
    ensures
        m <= longest(es, m) <= 8,
        forall|k: int| 0 <= k < es.len() ==> (#[trigger] es[k]).1.len() <= longest(es, m),
    decreases es.len(),
{
    if es.len() > 0 {
        let init = es.drop_last();
        assert(short_paths(init)) by {
            assert forall|k: int| 0 <= k < init.len() implies (#[trigger] init[k]).1.len() <= 8 by {
                assert(init[k] == es[k]);
            }
        }
        lemma_longest(init, m);
        assert(es[es.len() - 1].1.len() <= 8);
        assert forall|k: int| 0 <= k < es.len() implies (#[trigger] es[k]).1.len() <= longest(
            es,
            m,
        ) by {
            if k < es.len() - 1 {
                assert(es[k] == init[k]);
            }
        }
    }
}

proof fn lemma_totals(occ: Seq<u64>, k: int)
    requires
        0 <= k <= occ.len(),
    ensures
        (nonzero_prefix(occ, k) == 0) == (prefix_total(occ, k) == 0),
    decreases k,
{
    if k > 0 {
        lemma_totals(occ, k - 1);
    }
}

proof fn lemma_prefix_total_grows(occ: Seq<u64>, j: int, k: int)
    requires
        0 <= j <= k <= occ.len(),
    ensures
        prefix_total(occ, j) <= prefix_total(occ, k),
    decreases k - j,
{
    if j < k {
        lemma_prefix_total_grows(occ, j, k - 1);
    }
}

/// The sum of the counts, or `None` when it does not fit in 64 bits.
fn count_total(occurences: &Occurences) -> (total: Option<u64>)
    ensures
        total == if total_of(occurences@) <= u64::MAX {
            Some(total_of(occurences@) as u64)
        } else {
            None::<u64>
        },
{
    let mut total: u64 = 0;
    let mut i: usize = 0;
    while i < 256
        invariant
            i <= 256,
            occurences@.len() == 256,
            total == prefix_total(occurences@, i as int),
        decreases 256 - i,
    {
        match total.checked_add(occurences[i]) {
            Some(sum) => {
                total = sum;
            },
            None => {
                proof {
                    lemma_prefix_total_grows(occurences@, i as int + 1, 256);
                }
                return None;
            },
        }
        i = i + 1;
    }
    Some(total)
}

impl Huffman {
    /// Decompresses what `encode` produced: reads the header, rebuilds the
    /// tree from its counts, and reads as many codes from the data after the
    /// header as the header says.
    ///
    /// Headers of both versions are read on purpose: the second version (the
    /// range form) is what `encode` writes, and the first (the full table of
    /// 256 counts) is the layout of files written before it. Version 0 and
    /// versions above 2 are refused as header errors.
    pub fn decode(input: &[u8]) -> (result: Result<Vec<u8>, DecodeError>)
        requires
            input@.len() < usize::MAX / 8,
        ensures
            match result {
                Ok(out) => decode_spec(input@) == Ok::<Seq<u8>, DecodeError>(out@),
                Err(e) => decode_spec(input@) == Err::<Seq<u8>, DecodeError>(e),
            },
    {
        let data_header = match DataHeader::read_from(input) {
            Ok(header) => header,
            Err(e) => return Err(DecodeError::Header(e)),
        };
        let ghost occ = data_header.occurences@;
        proof {
            lemma_totals(occ, 256);
        }
        let total = match count_total(&data_header.occurences) {
            Some(total) => total,
            None => return Err(DecodeError::CountOverflow),
        };
        if total == 0 {
            return Err(DecodeError::EmptyTable);
        }
        let tree = HuffmanTree::generate(data_header.occurences);
        if tree.longest_code() > 8 {
            return Err(DecodeError::CodeTooLong);
        }
        let ghost es = tree.code_entries();
        proof {
            lemma_tree_of_wf(occ);
            lemma_tree_codes(tree.root as int, tree.nodes@);
            assert(short_paths(es));
            lemma_longest(es, 0);
        }
        let lookup_table = DecodeTable::new(tree);
        let header_size = data_header.size();
        if header_size > input.len() {
            return Err(DecodeError::MalformedData);
        }
        let (_, data) = input.split_at(header_size);
        let ghost bits = bits_of(data@);
        proof {
            assert(data@ =~= input@.skip(header_size as int));
        }
        let max_length = lookup_table.max_length();
        let ghost outcome = decode_spec(input@);
        assert(outcome == match decoded(es, bits, data_header.data_amount as nat) {
            Some(out) => Ok::<Seq<u8>, DecodeError>(out),
            None => Err::<Seq<u8>, DecodeError>(DecodeError::MalformedData),
        });
        let mut output: Vec<u8> = Vec::new();
        let mut offset: usize = 0;
        let mut produced: u64 = 0;
        let ghost n = data_header.data_amount as nat;
        proof {
            assert(output@ + Seq::<u8>::empty() =~= Seq::<u8>::empty());
            assert(bits.skip(0) =~= bits);
            assert forall|r: Seq<u8>| Seq::<u8>::empty() + r == r by {
                assert(Seq::<u8>::empty() + r =~= r);
            }
        }
        while produced < data_header.data_amount
            invariant
                produced <= data_header.data_amount,
                n == data_header.data_amount,
                output@.len() == produced,
                offset <= bits.len(),
                bits == bits_of(data@),
                bits.len() == 8 * data@.len(),
                data@.len() < usize::MAX / 8,
                decoded(es, bits, n) == after(
                    output@,
                    decoded(es, bits.skip(offset as int), (n - produced) as nat),
                ),
                outcome == decode_spec(input@),
                outcome == match decoded(es, bits, n) {
                    Some(out) => Ok::<Seq<u8>, DecodeError>(out),
                    None => Err::<Seq<u8>, DecodeError>(DecodeError::MalformedData),
                },
                lookup_table@ == apply_decodes(empty_decodes(), es),
                prefix_free(es),
                short_paths(es),
                max_length == longest(es, 0),
                max_length <= 8,
                forall|k: int| 0 <= k < es.len() ==> 1 <= (#[trigger] es[k]).1.len() <= max_length,
            decreases data_header.data_amount - produced,
        {
            let ghost rest = bits.skip(offset as int);
            let ghost rem = (n - produced) as nat;
            let ghost prior_out = output@;
            let mut length: usize = 1;
            let mut found = false;
            let mut step: usize = 0;
            while length <= max_length
                invariant_except_break
                    1 <= length <= max_length + 1,
                    !found,
                    output@ == prior_out,
                    forall|k: int|
                        0 <= k < es.len() && (#[trigger] es[k]).1.len() < length ==> !is_prefix(
                            es[k].1,
                            rest,
                        ),
                invariant
                    rest == bits.skip(offset as int),
                    bits == bits_of(data@),
                    rem == n - produced,
                    produced < n,
                    decoded(es, bits, n) == after(prior_out, decoded(es, rest, rem)),
                    outcome == decode_spec(input@),
                    outcome == match decoded(es, bits, n) {
                        Some(out) => Ok::<Seq<u8>, DecodeError>(out),
                        None => Err::<Seq<u8>, DecodeError>(DecodeError::MalformedData),
                    },
                    offset <= bits.len(),
                    bits.len() == 8 * data@.len(),
                    data@.len() < usize::MAX / 8,
                    lookup_table@ == apply_decodes(empty_decodes(), es),
                    prefix_free(es),
                    short_paths(es),
                    max_length <= 8,
                    prior_out.len() == produced,
                ensures
                    found ==> decoded(es, rest, rem) == after(
                        output@.subrange(output@.len() - 1, output@.len() as int),
                        decoded(es, bits.skip(offset + step), (rem - 1) as nat),
                    ) && 1 <= step <= 8 && offset + step <= bits.len() && output@.len() == produced + 1 && output@.subrange(0, produced as int) == prior_out,
                    !found ==> output@ == prior_out,
                    !found ==> forall|k: int|
                        0 <= k < es.len() && (#[trigger] es[k]).1.len() < length ==> !is_prefix(
                            es[k].1,
                            rest,
                        ),
                    !found ==> length == max_length + 1,
                decreases max_length + 1 - length,
            {
                if offset + length > 8 * data.len() {
                    proof {
                        assert(!matching(es, rest)) by {
                            assert forall|k: int| 0 <= k < es.len() implies !is_prefix(
                                #[trigger] es[k].1,
                                rest,
                            ) by {
                                if es[k].1.len() >= length {
                                    assert(es[k].1.len() > rest.len());
                                }
                            }
                        }
                    }
                    return Err(DecodeError::MalformedData);
                }
                let bits_read = get_bits(data, offset, length);
                proof {
                    assert forall|i: int| 0 <= i < length implies #[trigger] rest.take(
                        length as int,
                    )[i] == bits.subrange(offset as int, offset + length)[i] by {}
                    assert(rest.take(length as int) =~= bits.subrange(offset as int, offset + length));
                    assert(code_bits(bits_read, length as nat) =~= rest.take(length as int));
                    lemma_decode_table_lookup(es, rest.take(length as int));
                }
                match lookup_table.get(bits_read, length) {
                    Some(value) => {
                        let ghost before = output@;
                        write_u8_to(&mut output, value);
                        proof {
                            let k = choose|k: int|
                                0 <= k < es.len() && (#[trigger] es[k]).1 == rest.take(length as int)
                                    && lookup_in(apply_decodes(empty_decodes(), es), rest.take(length as int))
                                    == Some(es[k].0);
                            assert(is_prefix(es[k].1, rest));
                            assert(matching(es, rest));
                            let m = match_index(es, rest);
                            lemma_unique_match(es, rest, k, m);
                            assert(rest.skip(length as int) =~= bits.skip(offset + length));
                            assert(output@.subrange(output@.len() - 1, output@.len() as int) =~= seq![value]);
                            assert(output@.subrange(0, produced as int) =~= before);
                        }
                        step = length;
                        found = true;
                        break;
                    },
                    None => {
                        proof {
                            assert forall|k: int|
                                0 <= k < es.len() && (#[trigger] es[k]).1.len() < length + 1 implies !is_prefix(
                                es[k].1,
                                rest,
                            ) by {
                                if es[k].1.len() == length && is_prefix(es[k].1, rest) {
                                    assert(es[k].1 =~= rest.take(length as int));
                                }
                            }
                        }
                    },
                }
                length = length + 1;
            }
            if !found {
                proof {
                    assert(!matching(es, rest)) by {
                        assert forall|k: int| 0 <= k < es.len() implies !is_prefix(
                            #[trigger] es[k].1,
                            rest,
                        ) by {}
                    }
                }
                return Err(DecodeError::MalformedData);
            }
            offset = offset + step;
            proof {
                let last = output@.subrange(output@.len() - 1, output@.len() as int);
                let prior = output@.subrange(0, produced as int);
                assert(output@ =~= prior + last);
                match decoded(es, bits.skip(offset as int), (rem - 1) as nat) {
                    Some(r) => {
                        assert(prior + (last + r) =~= output@ + r);
                    },
                    None => {},
                }
            }
            produced = produced + 1;
        }
        proof {
            assert(output@ + Seq::<u8>::empty() =~= output@);
        }
        Ok(output)
    }
}

/// The code that the table gives `s` is the path of a leaf with value `s`.
pub open spec fn has_code(
    es: Seq<(u8, Seq<bool>)>,
    codes: Seq<Option<crate::utility::encoding::EncodingData>>,
    s: u8,
) -> bool {
    exists|k: int| 0 <= k < es.len() && #[trigger] es[k] == (s, entry_bits(codes[s as int].unwrap()))
}

/// The stream of a non-empty input starts with the code of its first byte.
proof fn lemma_stream_first(codes: Seq<Option<crate::utility::encoding::EncodingData>>, input: Seq<u8>)
    requires
        input.len() > 0,
    ensures
        stream(codes, input) == entry_bits(codes[input[0] as int].unwrap()) + stream(
            codes,
            input.drop_first(),
        ),
    decreases input.len(),
{
    if input.len() == 1 {
        assert(input.drop_last() =~= Seq::<u8>::empty());
        assert(input.drop_first() =~= Seq::<u8>::empty());
        assert(stream(codes, input) =~= entry_bits(codes[input[0] as int].unwrap()) + stream(
            codes,
            input.drop_first(),
        ));
    } else {
        lemma_stream_first(codes, input.drop_last());
        assert(input.drop_last().drop_first() =~= input.drop_first().drop_last());
        assert(input.drop_first().last() == input.last());
        assert(input.drop_last()[0] == input[0]);
        assert(stream(codes, input) =~= entry_bits(codes[input[0] as int].unwrap()) + stream(
            codes,
            input.drop_first(),
        ));
    }
}

/// Prefix-free codes that the table gives each byte of `input` read back as `input`.
proof fn lemma_decoded_stream(
    es: Seq<(u8, Seq<bool>)>,
    codes: Seq<Option<crate::utility::encoding::EncodingData>>,
    input: Seq<u8>,
    tail: Seq<bool>,
)
    requires
        prefix_free(es),
        forall|j: int| 0 <= j < input.len() ==> #[trigger] has_code(es, codes, input[j]),
    ensures
        decoded(es, stream(codes, input) + tail, input.len()) == Some(input),
    decreases input.len(),
{
    if input.len() == 0 {
        assert(Seq::<u8>::empty() =~= input);
    } else {
        let bits = stream(codes, input) + tail;
        let s = input[0];
        let path = entry_bits(codes[s as int].unwrap());
        lemma_stream_first(codes, input);
        assert(has_code(es, codes, input[0]));
        let k = choose|k: int| 0 <= k < es.len() && #[trigger] es[k] == (input[0], path);
        let rest = input.drop_first();
        assert(bits =~= path + (stream(codes, rest) + tail));
        assert(is_prefix(es[k].1, bits));
        assert(matching(es, bits));
        let m = match_index(es, bits);
        lemma_unique_match(es, bits, k, m);
        assert(bits.skip(path.len() as int) =~= stream(codes, rest) + tail);
        assert forall|j: int| 0 <= j < rest.len() implies #[trigger] has_code(es, codes, rest[j]) by {
            assert(rest[j] == input[j + 1]);
            assert(has_code(es, codes, input[j + 1]));
        }
        lemma_decoded_stream(es, codes, rest, tail);
        assert(seq![s] + rest =~= input);
    }
}

/// The decode table of a count table's tree finds, under the code that the
/// encoding table gives a byte value, that byte value again.
pub proof fn lemma_tables_invert(occ: Seq<u64>, v: u8)
    requires
        occ.len() == 256,
        symbol_count(occ) > 0,
        total_of(occ) <= u64::MAX,
        tree_code_length(tree_of(occ).0 as int, tree_of(occ).1) <= 8,
        codes_of(occ)[v as int] is Some,
    ensures
        canonical(codes_of(occ)[v as int]->Some_0.code, codes_of(occ)[v as int]->Some_0.length as nat),
        lookup_in(
            apply_decodes(empty_decodes(), tree_entries(tree_of(occ).0 as int, tree_of(occ).1)),
            entry_bits(codes_of(occ)[v as int]->Some_0),
        ) == Some(v),
{
    let (root, nodes) = tree_of(occ);
    let es = tree_entries(root as int, nodes);
    lemma_tree_of_wf(occ);
    lemma_tree_codes(root as int, nodes);
    assert(short_paths(es));
    lemma_apply_codes_lookup(empty_codes(), es, v);
    let k = choose|k: int|
        0 <= k < es.len() && (#[trigger] es[k]).0 == v && apply_codes(empty_codes(), es)[v as int]
            == Some(entry_for(es[k].1));
    lemma_code_of(es[k].1);
    lemma_decode_table_lookup(es, es[k].1);
}

/// The two tables of a count table's tree agree: the decode table holds `v`
/// under the code of `length` bits `code` exactly when the encoding table
/// gives `v` that code.
pub proof fn lemma_tables_agree(occ: Seq<u64>, code: u8, length: u32, v: u8)
    requires
        occ.len() == 256,
        symbol_count(occ) > 0,
        total_of(occ) <= u64::MAX,
        tree_code_length(tree_of(occ).0 as int, tree_of(occ).1) <= 8,
    ensures
        (canonical(code, length as nat) && lookup_in(
            apply_decodes(empty_decodes(), tree_entries(tree_of(occ).0 as int, tree_of(occ).1)),
            code_bits(code, length as nat),
        ) == Some(v)) <==> codes_of(occ)[v as int] == Some(EncodingData { code, length }),
{
    let (root, nodes) = tree_of(occ);
    let es = tree_entries(root as int, nodes);
    let table = apply_decodes(empty_decodes(), es);
    let p = code_bits(code, length as nat);
    lemma_tree_of_wf(occ);
    lemma_tree_codes(root as int, nodes);
    lemma_tree_leaves_distinct(occ);
    assert(short_paths(es));
    if codes_of(occ)[v as int] == Some(EncodingData { code, length }) {
        lemma_tables_invert(occ, v);
    }
    if canonical(code, length as nat) && lookup_in(table, p) == Some(v) {
        lemma_decode_table_lookup(es, p);
        let k = choose|k: int|
            0 <= k < es.len() && (#[trigger] es[k]).1 == p && lookup_in(table, p) == Some(es[k].0);
        lemma_apply_codes_lookup(empty_codes(), es, v);
        let j = choose|j: int|
            0 <= j < es.len() && (#[trigger] es[j]).0 == v && apply_codes(empty_codes(), es)[v as int]
                == Some(entry_for(es[j].1));
        assert(j == k);
        lemma_code_of_code_bits(code, length as nat);
    }
}

/// A code of the longest length in `es` exists, unless `m` is longer.
proof fn lemma_longest_attained(es: Seq<(u8, Seq<bool>)>, m: nat)
    ensures
        longest(es, m) == m || exists|k: int|
            0 <= k < es.len() && (#[trigger] es[k]).1.len() == longest(es, m),
    decreases es.len(),
{
    if es.len() > 0 {
        let init = es.drop_last();
        lemma_longest_attained(init, m);
        if longest(es, m) != m && longest(es, m) == longest(init, m) {
            let k = choose|k: int| 0 <= k < init.len() && (#[trigger] init[k]).1.len() == longest(init, m);
            assert(es[k] == init[k]);
        } else if longest(es, m) != m {
            assert(es[es.len() - 1].1.len() == longest(es, m));
        }
    }
}

/// Some symbol below `v` occurs when the count of those that do is positive.
proof fn lemma_some_symbol(occ: Seq<u64>, v: int)
    requires
        0 <= v <= occ.len(),
        nonzero_prefix(occ, v) > 0,
    ensures
        exists|u: int| 0 <= u < v && #[trigger] occ[u] != 0,
    decreases v,
{
    if occ[v - 1] == 0 {
        lemma_some_symbol(occ, v - 1);
    }
}

/// The longest code that the decode table of a count table's tree records
/// is the longest code of its encoding table.
pub proof fn lemma_longest_code_agrees(occ: Seq<u64>)
    requires
        occ.len() == 256,
        symbol_count(occ) > 0,
        total_of(occ) <= u64::MAX,
        tree_code_length(tree_of(occ).0 as int, tree_of(occ).1) <= 8,
    ensures
        forall|v: u8|
            #[trigger] codes_of(occ)[v as int] is Some ==> codes_of(occ)[v as int]->Some_0.length
                <= longest(tree_entries(tree_of(occ).0 as int, tree_of(occ).1), 0),
        exists|v: u8|
            #[trigger] codes_of(occ)[v as int] is Some && codes_of(occ)[v as int]->Some_0.length
                == longest(tree_entries(tree_of(occ).0 as int, tree_of(occ).1), 0),
{
    let (root, nodes) = tree_of(occ);
    let es = tree_entries(root as int, nodes);
    let codes = codes_of(occ);
    lemma_tree_of_wf(occ);
    lemma_tree_codes(root as int, nodes);
    lemma_tree_leaves_distinct(occ);
    assert(short_paths(es));
    lemma_longest(es, 0);
    assert forall|v: u8| #[trigger] codes[v as int] is Some implies codes[v as int]->Some_0.length
        <= longest(es, 0) by {
        lemma_apply_codes_lookup(empty_codes(), es, v);
        if !(exists|k: int| 0 <= k < es.len() && (#[trigger] es[k]).0 == v) {
            assert(empty_codes()[v as int] is None);
        }
    }
    lemma_some_symbol(occ, 256);
    let u = choose|u: int| 0 <= u < 256 && #[trigger] occ[u] != 0;
    assert(leaf_reach(nodes, root as int, u as u8));
    lemma_longest_attained(es, 0);
    assert(es.len() > 0);
    assert(es[0].1.len() >= 1);
    let k = choose|k: int| 0 <= k < es.len() && (#[trigger] es[k]).1.len() == longest(es, 0);
    let v = es[k].0;
    lemma_apply_codes_lookup(empty_codes(), es, v);
    let j = choose|j: int|
        0 <= j < es.len() && (#[trigger] es[j]).0 == v && apply_codes(empty_codes(), es)[v as int]
            == Some(entry_for(es[j].1));
    assert(j == k);
    assert(codes[v as int]->Some_0.length == longest(es, 0));
}

/// Decoding what encoding produced gives back the input.
pub proof fn lemma_decode_encode_roundtrip(input: Seq<u8>, out: Seq<u8>)
    requires
        0 < input.len() <= u64::MAX,
        tree_code_length(tree_of(input_counts(input)).0 as int, tree_of(input_counts(input)).1) <= 8,
        encoded(input, out),
    ensures
        decode_spec(out) == Ok::<Seq<u8>, DecodeError>(input),
{
    let occ = input_counts(input);
    let n = input.len() as u64;
    let h = header_len(occ);
    let data = out.skip(h as int);
    lemma_input_counts(input);
    crate::utility::data_header::lemma_header_roundtrip(occ, n, data);
    lemma_tree_of_wf(occ);
    let (root, nodes) = tree_of(occ);
    lemma_tree_codes(root as int, nodes);
    let es = tree_entries(root as int, nodes);
    let codes = codes_of(occ);
    assert forall|j: int| 0 <= j < input.len() implies #[trigger] has_code(es, codes, input[j]) by {
        lemma_codes_cover(occ, input[j]);
    }
    let st = stream(codes, input);
    let tail = crate::utility::bits::zeros((8 * data.len() - st.len()) as nat);
    lemma_decoded_stream(es, codes, input, tail);
    assert(n as nat == input.len());
}

} // verus!
