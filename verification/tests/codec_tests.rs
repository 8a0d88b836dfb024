use huffy::compress::{decode, encode};
use huffy::histogram::get_counts;
use huffy::node::Node;
use huffy::queue::{counts_to_heap, heap_to_tree};
use huffy::codes::tree_to_bit_hash_map;
use huffy::HufError;

fn round_trip(input: Vec<u8>) {
    let stream = encode(&input);
    let back = decode(&stream).unwrap();
    assert_eq!(back, input);
}

#[test]
fn round_trip_empty() {
    round_trip(Vec::new());
}

#[test]
fn round_trip_single_byte() {
    round_trip(vec![42]);
}

#[test]
fn round_trip_two_distinct_bytes() {
    round_trip(vec![7, 7, 7, 9]);
}

#[test]
fn round_trip_all_256_values() {
    let mut input: Vec<u8> = Vec::new();
    for v in 0..=255u8 {
        for _ in 0..(v as usize % 5 + 1) {
            input.push(v);
        }
    }
    round_trip(input);
}

#[test]
fn round_trip_text() {
    round_trip(b"abracadabra, how much wood would a woodchuck chuck".to_vec());
}

#[test]
fn empty_input_encodes_to_bare_header() {
    let stream = encode(&Vec::new());
    assert_eq!(stream, vec![0u8; 8]);
    assert_eq!(decode(&stream).unwrap(), Vec::<u8>::new());
}

#[test]
fn single_symbol_input_has_one_leaf_tree() {
    // 1000 times 0x41: the tree is a single leaf, the code table gives it
    // the one-bit code 0, and decoding repeats the value 1000 times.
    let input = vec![0x41u8; 1000];
    let stream = encode(&input);
    // 8 header bytes, 2 bytes for the 9-bit tree, 125 bytes of packed codes.
    assert_eq!(stream.len(), 8 + 2 + 125);
    let back = decode(&stream).unwrap();
    assert_eq!(back, input);

    let counts = get_counts(&input);
    let tree = heap_to_tree(counts_to_heap(counts)).unwrap();
    assert_eq!(tree.value, Some(0x41));
    assert!(tree.left.is_none() && tree.right.is_none());
    let table = tree_to_bit_hash_map(tree);
    assert!(table.get(&0x41u8).unwrap().eq_vec(&[false]));
}

#[test]
fn tree_optimality_known_weights() {
    // Weights 1:3, 0:10, 2:25. The two lowest-weight leaves, 1 then 0 per
    // the tie-break, are siblings at the greatest depth, and the weighted
    // code length is the least any binary prefix code reaches: 51.
    let mut counts = vec![0usize; 256];
    counts[1] = 3;
    counts[0] = 10;
    counts[2] = 25;
    let tree = heap_to_tree(counts_to_heap(counts)).unwrap();

    let low = tree.left.as_ref().unwrap();
    assert_eq!(low.value, None);
    assert_eq!(low.weight, 13);
    assert_eq!(low.left.as_ref().unwrap().value, Some(1));
    assert_eq!(low.right.as_ref().unwrap().value, Some(0));
    assert_eq!(tree.right.as_ref().unwrap().value, Some(2));

    let table = tree_to_bit_hash_map(tree);
    let weighted = 3 * table.get(&1u8).unwrap().len() + 10 * table.get(&0u8).unwrap().len() + 25
        * table.get(&2u8).unwrap().len();
    assert_eq!(weighted, 51);
}

#[test]
fn codes_are_prefix_free() {
    let input = b"the quick brown fox jumps over the lazy dog".to_vec();
    let counts = get_counts(&input);
    let tree = heap_to_tree(counts_to_heap(counts)).unwrap();
    let table = tree_to_bit_hash_map(tree);
    let entries: Vec<(u8, Vec<bool>)> = table
        .iter()
        .map(|(k, v)| (*k, v.iter().collect::<Vec<bool>>()))
        .collect();
    for (b1, c1) in &entries {
        for (b2, c2) in &entries {
            if b1 != b2 {
                assert!(!(c1.len() <= c2.len() && &c2[..c1.len()] == &c1[..]));
            }
        }
    }
}

fn same_shape(a: &Node, b: &Node) -> bool {
    if a.value != b.value {
        return false;
    }
    let left_ok = match (&a.left, &b.left) {
        (None, None) => true,
        (Some(x), Some(y)) => same_shape(x, y),
        _ => false,
    };
    let right_ok = match (&a.right, &b.right) {
        (None, None) => true,
        (Some(x), Some(y)) => same_shape(x, y),
        _ => false,
    };
    left_ok && right_ok
}

#[test]
fn tree_export_import_round_trip() {
    let input = b"mississippi riverbank".to_vec();
    let counts = get_counts(&input);
    let tree = heap_to_tree(counts_to_heap(counts)).unwrap();
    let bits = tree.export();
    let (back, used) = Node::import(&bits).unwrap();
    assert_eq!(used, bits.len());
    assert!(same_shape(&tree, &back));
}

#[test]
fn import_of_truncated_tree_fails() {
    let mut bits = bit_vec::BitVec::new();
    // An internal node whose right subtree is missing.
    bits.push(false);
    bits.push(true);
    for _ in 0..8 {
        bits.push(false);
    }
    assert_eq!(Node::import(&bits), Err(HufError::TruncatedTree));
}

#[test]
fn decode_of_short_header_fails() {
    assert_eq!(decode(&vec![1, 2, 3]), Err(HufError::CorruptHeader));
}

#[test]
fn decode_of_truncated_tree_section_fails() {
    // A header declaring five bytes, then a tree section that ends before
    // one whole tree is parsed.
    let stream = vec![0, 0, 0, 0, 0, 0, 0, 5, 0b00000000u8];
    assert_eq!(decode(&stream), Err(HufError::TruncatedTree));
}

#[test]
fn decode_of_truncated_codes_section_fails() {
    let input = b"hello world, hello huffman".to_vec();
    let stream = encode(&input);
    let mut cut = stream.clone();
    cut.pop();
    assert_eq!(decode(&cut), Err(HufError::CorruptStream));
    // Cutting deeper into the codes section fails the same way.
    let mut deeper = stream.clone();
    deeper.truncate(stream.len() - 3);
    assert_eq!(decode(&deeper), Err(HufError::CorruptStream));
}

#[test]
fn error_messages_name_the_failure() {
    assert_eq!(HufError::CorruptHeader.message(), "Corrupt header");
    assert_eq!(HufError::TruncatedTree.message(), "Truncated tree");
    assert_eq!(HufError::CorruptStream.message(), "Corrupt stream");
}
