use oxidendron::Huffman;
use oxidendron::cli::get_output;
use oxidendron::decode::DecodeError;
use oxidendron::encode::{EncodeError, EncodingState};
use oxidendron::utility::CURRENT_VERSION;
use oxidendron::utility::data_header::read_v1_0;
use oxidendron::utility::data_header::read_v1_1;
use oxidendron::utility::data_header::{DataHeader, HeaderError, OccurrenceType};
use oxidendron::utility::decoding::DecodeTable;
use oxidendron::utility::encoding::{EncodingData, EncodingTable};
use oxidendron::utility::heap::NodeHeap;
use oxidendron::utility::huffman_tree::HuffmanTree;
use oxidendron::utility::huffman_tree::node::Node;
use oxidendron::utility::huffman_tree::node_data::NodeData;

fn be(x: u64) -> Vec<u8> {
    x.to_be_bytes().to_vec()
}

fn roundtrip(data: &[u8]) {
    let encoded = Huffman::encode(data).unwrap();
    let decoded = Huffman::decode(&encoded).unwrap();
    assert_eq!(decoded, data);
}

/// Each byte value `i` repeated `counts[i]` times, in order.
fn with_counts(counts: &[(u8, usize)]) -> Vec<u8> {
    let mut data = Vec::new();
    for &(value, count) in counts {
        for _ in 0..count {
            data.push(value);
        }
    }
    data
}

fn hello_tree() -> HuffmanTree {
    HuffmanTree::generate(HuffmanTree::find_occurences(b"Hello, World!"))
}

#[test]
fn encode_two_symbols_exact_bytes() {
    // b (count 1) leaves the queue first and becomes the left child, code 1;
    // a gets code 0. The data "aab" is the bits 0, 0, 1: the byte 0b100.
    let mut expected = vec![2, 1, 97, 98];
    expected.extend(be(2));
    expected.extend(be(1));
    expected.push(0);
    expected.extend(be(3));
    expected.push(0b100);
    assert_eq!(Huffman::encode(b"aab").unwrap(), expected);
}

#[test]
fn encode_single_symbol_exact_bytes() {
    // One symbol alone has a code of one bit, 0; its count is a positional entry.
    let mut expected = vec![2, 0, 1, 97];
    expected.extend(be(4));
    expected.extend(be(4));
    expected.push(0);
    assert_eq!(Huffman::encode(b"aaaa").unwrap(), expected);
}

#[test]
fn encode_empty_input_is_refused() {
    assert_eq!(Huffman::encode(b""), Err(EncodeError::EmptyInput));
}

#[test]
fn encode_code_longer_than_a_byte_is_refused() {
    // Fibonacci counts give a chain: ten symbols need a code of nine bits.
    let fib = [1, 1, 2, 3, 5, 8, 13, 21, 34, 55];
    let counts: Vec<(u8, usize)> = fib.iter().enumerate().map(|(i, &c)| (i as u8, c)).collect();
    let data = with_counts(&counts);
    assert_eq!(Huffman::encode(&data), Err(EncodeError::CodeTooLong));
}

#[test]
fn roundtrip_code_of_exactly_a_byte() {
    // Nine symbols with Fibonacci counts: the longest code has eight bits.
    let fib = [1, 1, 2, 3, 5, 8, 13, 21, 34];
    let counts: Vec<(u8, usize)> = fib.iter().enumerate().map(|(i, &c)| (i as u8, c)).collect();
    let data = with_counts(&counts);
    let tree = HuffmanTree::generate(HuffmanTree::find_occurences(&data));
    assert_eq!(tree.longest_code(), 8);
    roundtrip(&data);
}

#[test]
fn roundtrip_single_symbol() {
    roundtrip(b"aaaa");
    roundtrip(b"z");
}

#[test]
fn roundtrip_every_byte_value() {
    let data: Vec<u8> = (0..=255u8).chain((0..=255u8).rev()).chain([255, 255, 0]).collect();
    roundtrip(&data);
}

#[test]
fn roundtrip_run_reaching_the_last_byte_value() {
    roundtrip(&[254, 255, 255, 254, 255]);
    roundtrip(&[255]);
    roundtrip(&[0, 255]);
}

#[test]
fn roundtrip_text() {
    roundtrip(b"Hello, World!");
    roundtrip(b"abracadabra, the quick brown fox jumps over the lazy dog 0123456789");
}

#[test]
fn decode_empty_input_is_truncated() {
    assert_eq!(Huffman::decode(&[]), Err(DecodeError::Header(HeaderError::Truncated)));
}

#[test]
fn decode_version_zero() {
    assert_eq!(Huffman::decode(&[0, 1, 2]), Err(DecodeError::Header(HeaderError::ZeroVersion)));
}

#[test]
fn decode_newer_version() {
    assert_eq!(Huffman::decode(&[3, 0, 0]), Err(DecodeError::Header(HeaderError::NewerVersion(3))));
}

#[test]
fn decode_short_first_version_header() {
    assert_eq!(Huffman::decode(&[1, 0, 0]), Err(DecodeError::Header(HeaderError::Truncated)));
}

#[test]
fn decode_first_version_header() {
    // A header of the first version: the full table with "a" counted 3 times
    // and "b" once, four encoded bytes, then the codes a=0, b=1 of "abaa".
    let mut input = vec![1u8];
    for v in 0..=255u8 {
        input.extend(be(match v {
            b'a' => 3,
            b'b' => 1,
            _ => 0,
        }));
    }
    input.extend(be(4));
    input.push(0b0010);
    assert_eq!(Huffman::decode(&input), Ok(b"abaa".to_vec()));
    // the same header with no data after it
    input.pop();
    assert_eq!(Huffman::decode(&input), Err(DecodeError::MalformedData));
}

#[test]
fn decode_empty_first_version_table() {
    let mut input = vec![0u8; 2057];
    input[0] = 1;
    assert_eq!(Huffman::decode(&input), Err(DecodeError::EmptyTable));
}

#[test]
fn decode_range_ending_before_its_start() {
    let mut input = vec![2, 1, 98, 97];
    input.extend(be(1));
    input.push(0);
    input.extend(be(1));
    assert_eq!(Huffman::decode(&input), Err(DecodeError::Header(HeaderError::BadRange)));
}

#[test]
fn decode_truncated_range_list() {
    // One range of two counts is announced, but only one count follows.
    let mut input = vec![2, 1, 97, 98];
    input.extend(be(1));
    assert_eq!(Huffman::decode(&input), Err(DecodeError::Header(HeaderError::Truncated)));
}

#[test]
fn decode_all_zero_counts() {
    let mut input = vec![2, 0, 0];
    input.extend(be(0));
    assert_eq!(Huffman::decode(&input), Err(DecodeError::EmptyTable));
}

#[test]
fn decode_counts_overflowing_64_bits() {
    let mut input = vec![2, 0, 2, 0];
    input.extend(be(u64::MAX));
    input.push(1);
    input.extend(be(u64::MAX));
    input.extend(be(1));
    assert_eq!(Huffman::decode(&input), Err(DecodeError::CountOverflow));
}

#[test]
fn decode_code_longer_than_a_byte() {
    let fib = [1u64, 1, 2, 3, 5, 8, 13, 21, 34, 55];
    let mut input = vec![2, 1, 0, 9];
    for &c in &fib {
        input.extend(be(c));
    }
    input.push(0);
    input.extend(be(1));
    assert_eq!(Huffman::decode(&input), Err(DecodeError::CodeTooLong));
}

#[test]
fn decode_missing_data_is_malformed() {
    let mut encoded = Huffman::encode(b"aab").unwrap();
    encoded.pop();
    assert_eq!(Huffman::decode(&encoded), Err(DecodeError::MalformedData));
}

#[test]
fn decode_zero_symbols() {
    let mut input = vec![2, 0, 1, 97];
    input.extend(be(4));
    input.extend(be(0));
    assert_eq!(Huffman::decode(&input), Ok(Vec::new()));
}

#[test]
fn decode_reads_big_endian_counts() {
    // The counts 3 and 1: "a" has code 0, "b" code 1; four symbols from 0b0110.
    let mut input = vec![2, 1, 97, 98];
    input.extend(be(3));
    input.extend(be(1));
    input.push(0);
    input.extend(be(4));
    input.push(0b0010);
    assert_eq!(Huffman::decode(&input), Ok(b"abaa".to_vec()));
}

#[test]
fn header_write_read_and_size_agree() {
    let occurences = HuffmanTree::find_occurences(b"Hello, World!");
    let header = DataHeader::new(occurences, 13);
    assert_eq!(header.version, CURRENT_VERSION);
    let mut bytes = Vec::new();
    header.write_to(&mut bytes);
    assert_eq!(header.size(), bytes.len());
    // version, range count, 2 ranges, 4 counts, positional count, 6 entries, amount
    assert_eq!(bytes.len(), 1 + 1 + 4 + 32 + 1 + 54 + 8);
    let read = DataHeader::read_from(&bytes).unwrap();
    assert_eq!(read.version, 2);
    assert_eq!(read.occurences, occurences);
    assert_eq!(read.data_amount, 13);
    let read = read_v1_1::read_from(&bytes).unwrap();
    assert_eq!(read.occurences, occurences);
}

#[test]
fn header_of_first_version() {
    let mut input = vec![1u8];
    let mut counts = [0u64; 256];
    counts[7] = 0x0102_0304_0506_0708;
    counts[255] = 9;
    for c in counts.iter() {
        input.extend(be(*c));
    }
    input.extend(be(42));
    let header = read_v1_0::read_from(&input).unwrap();
    assert_eq!(header.version, 1);
    assert_eq!(header.occurences, counts);
    assert_eq!(header.data_amount, 42);
    assert_eq!(header.size(), 2057);
    let header = DataHeader::read_from(&input).unwrap();
    assert_eq!(header.occurences, counts);
}

#[test]
fn occurrence_type_range_form_of_hello() {
    let occurences = HuffmanTree::find_occurences(b"Hello, World!");
    let mut occurrence_type = OccurrenceType::new(occurences);
    assert_eq!(occurrence_type.size(), 2048);
    occurrence_type.convert_to_range_list();
    let expected = OccurrenceType::RangeList {
        ranges: vec![(32, 33), (100, 101)],
        list: vec![1, 1, 1, 1],
        positional_list: vec![(44, 1), (72, 1), (87, 1), (108, 3), (111, 2), (114, 1)],
    };
    assert_eq!(occurrence_type, expected);
    assert_eq!(occurrence_type.size(), 1 + 4 + 32 + 1 + 54);
    occurrence_type.convert_to_range_list();
    assert_eq!(occurrence_type, expected);
}

#[test]
fn occurrence_type_run_reaching_the_end() {
    let mut counts = [0u64; 256];
    for (i, c) in (250..256).zip(1..7u64) {
        counts[i] = c;
    }
    counts[0] = 5;
    let mut occurrence_type = OccurrenceType::new(counts);
    occurrence_type.convert_to_range_list();
    let expected = OccurrenceType::RangeList {
        ranges: vec![(250, 255)],
        list: vec![1, 2, 3, 4, 5, 6],
        positional_list: vec![(0, 5)],
    };
    assert_eq!(occurrence_type, expected);
    occurrence_type.convert_to_full_list();
    assert_eq!(occurrence_type, OccurrenceType::FullList { list: counts });
    occurrence_type.convert_to_full_list();
    assert_eq!(occurrence_type, OccurrenceType::FullList { list: counts });
}

#[test]
fn occurrence_type_all_counts_set() {
    let counts = [3u64; 256];
    let mut occurrence_type = OccurrenceType::new(counts);
    occurrence_type.convert_to_range_list();
    assert_eq!(
        occurrence_type,
        OccurrenceType::RangeList { ranges: vec![(0, 255)], list: vec![3; 256], positional_list: vec![] }
    );
    occurrence_type.convert_to_full_list();
    assert_eq!(occurrence_type, OccurrenceType::FullList { list: counts });
}

#[test]
fn tree_of_two_symbols() {
    let tree = HuffmanTree::generate(HuffmanTree::find_occurences(b"aab"));
    assert_eq!(tree.nodes.len(), 3);
    assert_eq!(tree.root, 2);
    assert_eq!(tree.nodes[0], Node::Leaf { value: 97, occurence: 2 });
    assert_eq!(tree.nodes[1], Node::Leaf { value: 98, occurence: 1 });
    assert_eq!(tree.nodes[2], Node::Node { left: 1, right: 0, occurence: 3 });
    assert_eq!(tree.longest_code(), 1);
}

#[test]
fn tree_of_one_symbol() {
    let tree = HuffmanTree::generate(HuffmanTree::find_occurences(b"qqq"));
    assert_eq!(tree.nodes.len(), 1);
    assert_eq!(tree.root, 0);
    assert_eq!(*tree.root(), Node::Leaf { value: b'q', occurence: 3 });
    assert_eq!(tree.longest_code(), 1);
}

#[test]
fn hello_tree_longest_code() {
    assert_eq!(hello_tree().longest_code(), 4);
}

#[test]
fn encoding_table_codes_are_prefix_free() {
    let table = EncodingTable::new(hello_tree());
    let values = table.values();
    assert_eq!(values.len(), 10);
    for a in &values {
        for b in &values {
            if a != b && a.length <= b.length {
                let mask = ((1u32 << a.length) - 1) as u8;
                assert_ne!(b.code & mask, a.code, "{a:?} is a prefix of {b:?}");
            }
        }
    }
    assert_eq!(table.get(b'x'), None);
    assert_eq!(table.get(b'l').map(|d| d.length), Some(2));
}

#[test]
fn encoding_table_of_two_symbols() {
    let table = EncodingTable::new(HuffmanTree::generate(HuffmanTree::find_occurences(b"aab")));
    assert_eq!(table.get(b'a'), Some(EncodingData { code: 0, length: 1 }));
    assert_eq!(table.get(b'b'), Some(EncodingData { code: 1, length: 1 }));
}

#[test]
fn decode_table_inverts_encoding_table() {
    let encoding = EncodingTable::new(hello_tree());
    let decoding = DecodeTable::new(hello_tree());
    assert_eq!(decoding.max_length(), 4);
    for value in b"Helo, Wrd!" {
        let data = encoding.get(*value).unwrap();
        assert_eq!(decoding.get(data.code, data.length as usize), Some(*value));
    }
    // bits set above the length are no code
    let data = encoding.get(b'l').unwrap();
    assert_eq!(decoding.get(data.code | 0b1000_0000, data.length as usize), None);
    assert_eq!(decoding.get(0, 9), None);
}

#[test]
fn node_data_weights() {
    let mut nodes = Vec::new();
    let a = NodeData::new_leaf(b'a', 5, &mut nodes);
    let b = NodeData::new_leaf(b'b', 7, &mut nodes);
    assert_eq!((a.id, b.id), (0, 1));
    let both = NodeData::new_node(a.id, b.id, &mut nodes);
    assert_eq!(both.id, 2);
    assert_eq!(both.node, Node::Node { left: 0, right: 1, occurence: 12 });
    // a missing child weighs nothing
    let lone = NodeData::new_node(0, 99, &mut nodes);
    assert_eq!(lone.node.occurence(), 5);
    assert_eq!(nodes.len(), 4);
}

#[test]
fn queue_order_of_nodes() {
    let light = Node::Leaf { value: 9, occurence: 1 };
    let heavy = Node::Leaf { value: 1, occurence: 5 };
    let inner = Node::Node { left: 0, right: 1, occurence: 1 };
    let small_value = Node::Leaf { value: 2, occurence: 1 };
    // the greater node leaves the queue first
    assert!(heavy.rank_le(&light));
    assert!(!light.rank_le(&heavy));
    assert!(inner.rank_le(&light));
    assert!(!light.rank_le(&inner));
    assert!(light.rank_le(&small_value));
    assert!(!small_value.rank_le(&light));
    assert!(inner.rank_le(&inner));
}

#[test]
fn heap_pops_in_queue_order() {
    let mut nodes = Vec::new();
    let mut heap = NodeHeap::new();
    assert!(heap.is_empty());
    for (value, weight) in [(1u8, 5u64), (2, 1), (3, 3), (4, 1), (5, 3)] {
        heap.push(NodeData::new_leaf(value, weight, &mut nodes));
    }
    heap.push(NodeData::new_node(1, 3, &mut nodes));
    assert_eq!(heap.len(), 6);
    let mut order = Vec::new();
    while let Some(item) = heap.pop() {
        order.push((item.node.occurence(), item.id));
    }
    // weight 1: leaves 2 then 4; weight 2: the inner node; weight 3: leaves 3 then 5; then 1
    assert_eq!(order, vec![(1, 1), (1, 3), (2, 5), (3, 2), (3, 4), (5, 0)]);
    assert_eq!(heap.pop(), None);
}

#[test]
fn encoding_state_starts_empty() {
    let state = EncodingState::new();
    assert_eq!((state.current_byte, state.offset), (0, 0));
}

fn strings(args: &[&str]) -> Vec<String> {
    args.iter().map(|a| a.to_string()).collect()
}

#[test]
fn output_option_long_and_short() {
    let mut args = strings(&["tool", "encode", "--output", "out.huff", "in.txt"]);
    assert_eq!(get_output(&mut args), Some("out.huff".to_string()));
    assert_eq!(args, strings(&["tool", "encode", "in.txt"]));
    let mut args = strings(&["tool", "decode", "in.huff", "-o", "out.txt"]);
    assert_eq!(get_output(&mut args), Some("out.txt".to_string()));
    assert_eq!(args, strings(&["tool", "decode", "in.huff"]));
}

#[test]
fn output_option_first_flag_wins() {
    let mut args = strings(&["tool", "-o", "first", "--output", "second"]);
    assert_eq!(get_output(&mut args), Some("first".to_string()));
    assert_eq!(args, strings(&["tool", "--output", "second"]));
}

#[test]
fn output_option_absent() {
    let mut args = strings(&["tool", "encode", "in.txt", "-out"]);
    assert_eq!(get_output(&mut args), None);
    assert_eq!(args, strings(&["tool", "encode", "in.txt", "-out"]));
}

#[test]
fn first_version_header_write_and_read() {
    let occurences = HuffmanTree::find_occurences(b"Hello, World!");
    let header = DataHeader::new(occurences, 13);
    let mut bytes = vec![7u8];
    header.write_full_to(&mut bytes);
    assert_eq!(bytes.len(), 1 + 2057);
    assert_eq!(bytes[1], 1);
    assert_eq!(&bytes[1 + 1 + 8 * 72..1 + 1 + 8 * 73], &be(1)[..]);
    assert_eq!(&bytes[1 + 1 + 8 * 108..1 + 1 + 8 * 109], &be(3)[..]);
    let read = DataHeader::read_from(&bytes[1..]).unwrap();
    assert_eq!(read.version, 1);
    assert_eq!(read.occurences, occurences);
    assert_eq!(read.data_amount, 13);
    // the codes of "Hello, World!" after a header of the first version decode too
    let encoded = Huffman::encode(b"Hello, World!").unwrap();
    let mut first_version = bytes[1..].to_vec();
    first_version.extend_from_slice(&encoded[header.size()..]);
    assert_eq!(Huffman::decode(&first_version), Ok(b"Hello, World!".to_vec()));
}

#[test]
fn decode_and_encoding_tables_agree_both_ways() {
    let encoding = EncodingTable::new(hello_tree());
    let decoding = DecodeTable::new(hello_tree());
    let mut found = 0;
    for length in 0..=8usize {
        for code in 0..=255u8 {
            if let Some(value) = decoding.get(code, length) {
                found += 1;
                assert_eq!(encoding.get(value), Some(EncodingData { code, length: length as u32 }));
            }
        }
    }
    assert_eq!(found, encoding.values().len());
    let longest = encoding.values().iter().map(|d| d.length).max().unwrap();
    assert_eq!(decoding.max_length(), longest as usize);
}

#[test]
fn occurrence_type_runs_at_both_ends() {
    let mut counts = [0u64; 256];
    counts[0] = 1;
    counts[1] = 2;
    counts[5] = 7;
    counts[255] = 9;
    let mut occurrence_type = OccurrenceType::new(counts);
    occurrence_type.convert_to_range_list();
    assert_eq!(
        occurrence_type,
        OccurrenceType::RangeList {
            ranges: vec![(0, 1)],
            list: vec![1, 2],
            positional_list: vec![(5, 7), (255, 9)],
        }
    );
}
