use huffy::histogram::get_counts;
use huffy::node::Node;
use huffy::queue::{counts_to_heap, heap_to_tree, MinQueue};
use huffy::codes::tree_to_bit_hash_map;

#[test]
fn test_get_counts_no_bytes() {
    let file: Vec<u8> = Vec::new();

    let counts = get_counts(&file);

    let expected = vec![0usize; 256];

    assert_eq!(counts, expected);
}

#[test]
fn test_get_counts_few_bytes() {
    let file: Vec<u8> = Vec::from([0, 255, 0, 5, 255, 0]);

    let counts = get_counts(&file);

    let mut expected = vec![0usize; 256];
    expected[0] = 3;
    expected[255] = 2;
    expected[5] = 1;

    assert_eq!(counts, expected);
}

#[test]
fn test_counts_to_queue_empty_queue() {
    let counts = vec![0usize; 256];

    let heap = counts_to_heap(counts);

    assert_eq!(heap.len(), 0);
}

#[test]
fn test_counts_to_single_value() {
    let mut counts = vec![0usize; 256];
    counts[0] = 10;

    let mut heap = counts_to_heap(counts);

    assert_eq!(heap.len(), 1);
    let node = heap.pop_min().unwrap();
    assert_eq!(node.value, Some(0));
    assert_eq!(node.weight, 10);
}

#[test]
fn test_counts_to_multiple_values_has_lowest_weight_first() {
    let mut counts = vec![0usize; 256];
    counts[0] = 10;
    counts[1] = 3;
    counts[2] = 25;

    let mut heap = counts_to_heap(counts);

    assert_eq!(heap.len(), 3);

    let node = heap.pop_min().unwrap();
    assert_eq!(node.value, Some(1));
    assert_eq!(node.weight, 3);

    let node = heap.pop_min().unwrap();
    assert_eq!(node.value, Some(0));
    assert_eq!(node.weight, 10);

    let node = heap.pop_min().unwrap();
    assert_eq!(node.value, Some(2));
    assert_eq!(node.weight, 25);
}

#[test]
fn test_heap_to_tree_with_no_values() {
    let heap = MinQueue::new();

    let head = heap_to_tree(heap).err().unwrap();
    assert_eq!(head.message(), "Unable to convert heap to tree");
}

#[test]
fn test_heap_to_tree_with_one_node() {
    let mut heap = MinQueue::new();
    heap.push(Node {
        value: Some(5),
        weight: 10,
        left: None,
        right: None,
    });

    let head = heap_to_tree(heap);

    assert_eq!(head.unwrap().value, Some(5));
}

#[test]
fn test_heap_to_tree_with_with_multiple_values() {
    let mut heap = MinQueue::new();
    heap.push(Node {
        value: Some(5),
        weight: 10,
        left: None,
        right: None,
    });
    heap.push(Node {
        value: Some(1),
        weight: 3,
        left: None,
        right: None,
    });
    heap.push(Node {
        value: Some(2),
        weight: 6,
        left: None,
        right: None,
    });
    heap.push(Node {
        value: Some(9),
        weight: 8,
        left: None,
        right: None,
    });

    /* Expected tree:
     *
     *     *:27
     *   /      \
     * 5:10    *:17
     *       /      \
     *     9:8      *:9
     *             /   \
     *           1:3   2:6
     */
    let head = heap_to_tree(heap).unwrap();
    assert_eq!(head.value, None);
    assert_eq!(head.weight, 27);

    let head_left = head.left.unwrap();
    assert_eq!(head_left.value, Some(5));
    assert_eq!(head_left.weight, 10);

    let head_right = head.right.unwrap();
    assert_eq!(head_right.value, None);
    assert_eq!(head_right.weight, 17);

    let head_right_left = head_right.left.unwrap();
    assert_eq!(head_right_left.value, Some(9));
    assert_eq!(head_right_left.weight, 8);

    let head_right_right = head_right.right.unwrap();
    assert_eq!(head_right_right.value, None);
    assert_eq!(head_right_right.weight, 9);

    let head_right_right_left = head_right_right.left.unwrap();
    assert_eq!(head_right_right_left.value, Some(1));
    assert_eq!(head_right_right_left.weight, 3);

    let head_right_right_right = head_right_right.right.unwrap();
    assert_eq!(head_right_right_right.value, Some(2));
    assert_eq!(head_right_right_right.weight, 6);
}

#[test]
fn test_tree_to_bit_hash_map() {
    let head = Node {
        value: None,
        weight: 27,
        left: Some(Box::new(Node {
            value: Some(3),
            weight: 17,
            left: None,
            right: None,
        })),
        right: Some(Box::new(Node {
            value: Some(8),
            weight: 10,
            left: None,
            right: None,
        })),
    };

    let bitmap = tree_to_bit_hash_map(head);

    assert!(bitmap.get(&3u8).unwrap().eq_vec(&[false]));
    assert!(bitmap.get(&8u8).unwrap().eq_vec(&[true]));
}
