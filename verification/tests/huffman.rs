use oxidendron::Huffman;
use oxidendron::decode::DecodeError;
use oxidendron::encode::EncodeError;
use oxidendron::utility::data_header::{DataHeader, HeaderError, OccurrenceType};
use oxidendron::utility::decoding::DecodeTable;
use oxidendron::utility::encoding::EncodingTable;
use oxidendron::utility::huffman_tree::HuffmanTree;
use oxidendron::utility::huffman_tree::node::Node;

fn child_weights(tree: &HuffmanTree) -> (u64, u64) {
    match tree.root() {
        Node::Node { left, right, .. } => {
            (tree.nodes[*left].occurence(), tree.nodes[*right].occurence())
        }
        Node::Leaf { .. } => panic!("the root of this tree is an inner node"),
    }
}

#[test]
fn test_decoding() {
    let data = "Hello, World!".as_bytes();
    let result = Huffman::encode(data).unwrap();
    assert!(!result.is_empty());
    let data = &result;
    let result = Huffman::decode(data).unwrap();
    println!("{result:?}");
    let result = String::from_utf8(result).unwrap();
    assert_eq!(result, "Hello, World!");
}

#[test]
fn test_encoding() {
    let data = "Hello, World!".as_bytes();
    let result = Huffman::encode(data).unwrap();
    assert!(!result.is_empty());
    let offset: usize = result.len() - 6;
    assert_eq!(result[offset + 0], 0b1010_0000);
    assert_eq!(result[offset + 1], 0b0_110_01_01);
    assert_eq!(result[offset + 2], 0b1_1100_100);
    assert_eq!(result[offset + 3], 0b010_110_11);
    assert_eq!(result[offset + 4], 0b00_011_01_0);
    assert_eq!(result[offset + 5], 0b01);
}

fn hello_counts() -> [u64; 256] {
    let mut expected = [0; 256];
    expected['H' as usize] += 1;
    expected['e' as usize] += 1;
    expected['l' as usize] += 3;
    expected['o' as usize] += 2;
    expected[',' as usize] += 1;
    expected[' ' as usize] += 1;
    expected['W' as usize] += 1;
    expected['r' as usize] += 1;
    expected['d' as usize] += 1;
    expected['!' as usize] += 1;
    expected
}

#[test]
fn tree_test_huffman_tree_occurences() {
    let data = "Hello, World!";
    let expected = hello_counts();
    assert_eq!(expected, HuffmanTree::find_occurences(data.as_bytes()));
}

#[test]
fn tests_test_huffman_tree_occurences() {
    let data = "Hello, World!";
    let expected = hello_counts();
    assert_eq!(expected, HuffmanTree::find_occurences(data.as_bytes()));
}

#[test]
fn tree_test_huffman_tree() {
    let data = "Hello, World!";
    let occurences = HuffmanTree::find_occurences(data.as_bytes());
    let tree = HuffmanTree::generate(occurences);
    assert_eq!(tree.root, 18);
    assert_eq!(tree.root().occurence(), 13);
    let (left, right) = child_weights(&tree);
    assert_eq!(right, 8);
    assert_eq!(left, 5);
}

#[test]
fn tests_test_huffman_tree() {
    let data = "Hello, World!";
    let occurences = HuffmanTree::find_occurences(data.as_bytes());
    let tree = HuffmanTree::generate(occurences);
    assert_eq!(tree.root, 18);
    assert_eq!(tree.root().occurence(), 13);
}

fn check_encoding_table() {
    let data = "Hello, World!";
    let occurences = HuffmanTree::find_occurences(data.as_bytes());
    let tree = HuffmanTree::generate(occurences);
    for (i, node) in tree.nodes.iter().enumerate() {
        match node {
            Node::Leaf { value, occurence } => println!("{i}: {value}({occurence})"),
            Node::Node { left, right, occurence } => println!("{i}: {left},{right}({occurence})"),
        }
    }
    let encoding_table = EncodingTable::new(tree);
    let max = encoding_table.values().iter().map(|e| e.length).max();
    assert!(matches!(max, Some(4)));
    let mut counts = [0; 5];
    for value in encoding_table.values() {
        counts[value.length as usize] += 1;
    }
    assert_eq!(counts[0], 0);
    assert_eq!(counts[1], 0);
    assert_eq!(counts[2], 1);
    assert_eq!(counts[3], 3);
    assert_eq!(counts[4], 6);
}

#[test]
fn tree_test_encoding_table() {
    check_encoding_table();
}

#[test]
fn encoding_test_encoding_table() {
    check_encoding_table();
}

#[test]
fn test_occurence_type() {
    let data = "Hello, World!".as_bytes();
    let occurrence = HuffmanTree::find_occurences(data);
    let mut occurrence_type = OccurrenceType::new(occurrence);
    let occurence_clone = occurrence_type.clone();
    occurrence_type.convert_to_range_list();
    occurrence_type.convert_to_full_list();
    assert_eq!(occurrence_type, occurence_clone);
}
