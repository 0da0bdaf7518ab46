use text_compressor::algorithms::Algorithm;
use text_compressor::data_structures::huffman_node::{HuffmanLeaf, HuffmanNode, Node, TreeNode};
use text_compressor::data_structures::priority_queue::Heap;
use text_compressor::numeral::u64_to_decimal;

#[test]
fn algorithm_default_works() {
    let default_algo = Algorithm::default();
    assert_eq!(default_algo, Algorithm::Huffman);
}

#[test]
fn algorithm_to_string_works() {
    let test_cases = vec![
        (Algorithm::Rle, "RLE"),
        (Algorithm::Huffman, "Huffman"),
        (Algorithm::Bwt, "BWT"),
        (Algorithm::All, "ALL"),
        (Algorithm::Lzw, "LZW"),
        (Algorithm::Invalid, "invalid"),
    ];

    for test_case in test_cases {
        assert_eq!(test_case.0.name(), test_case.1);
    }
}

#[test]
fn algorithm_from_string_works() {
    let test_cases: Vec<(&[u8], Algorithm)> = vec![
        (b"RLE", Algorithm::Rle),
        (b"RlE", Algorithm::Rle),
        (b"rle", Algorithm::Rle),
        (b"HuffMan", Algorithm::Huffman),
        (b"huFfMan", Algorithm::Huffman),
        (b"HuffMAN", Algorithm::Huffman),
        (b"BWt", Algorithm::Bwt),
        (b"bWt", Algorithm::Bwt),
        (b"bwt", Algorithm::Bwt),
        (b"lzW", Algorithm::Lzw),
        (b"lzw", Algorithm::Lzw),
        (b"LZw", Algorithm::Lzw),
        (b"bwtRLe", Algorithm::BwtRle),
        (b"BwtRle", Algorithm::BwtRle),
        (b"BWTrle", Algorithm::BwtRle),
        (b"All", Algorithm::All),
        (b"aLl", Algorithm::All),
        (b"alL", Algorithm::All),
    ];

    for test_case in test_cases {
        assert_eq!(Algorithm::from(test_case.0.to_vec()), test_case.1);
    }
}

#[test]
fn algorithm_unknown_parses_to_invalid() {
    assert_eq!(Algorithm::from(b"gzip".to_vec()), Algorithm::Invalid);
    assert_eq!(Algorithm::from(b"".to_vec()), Algorithm::Invalid);
    assert_eq!(Algorithm::from(b"rl".to_vec()), Algorithm::Invalid);
}

#[test]
fn huffman_leaf_works() {
    let leaf = HuffmanLeaf::new(b'a', 2);
    assert_eq!(leaf.get_character(), b'a');
    assert_eq!(Node::get_frequency(&leaf), 2);
}

#[test]
fn huffman_node_works() {
    let mut node = HuffmanNode::new(None, None);
    node.frequency = 1;
    assert_eq!(Node::get_frequency(&node), 1);
    assert!(node.left.is_none());
    assert!(node.right.is_none());

    let node1 = node;
    let mut node2 = HuffmanNode::new(None, None);
    node2.frequency = 2;
    let node3 = HuffmanNode::new(
        Some(Box::new(TreeNode::Internal(node1))),
        Some(Box::new(TreeNode::Internal(node2))),
    );
    assert_eq!(node3.frequency, 3);
}

#[test]
fn huffman_leaf_huffman_node_works() {
    let leaf_a = HuffmanLeaf::new(b'a', 2);
    let leaf_b = HuffmanLeaf::new(b'b', 3);
    let leaf_c = HuffmanLeaf::new(b'c', 1);
    let leaf_d = HuffmanLeaf::new(b'd', 5);

    let node_ab = HuffmanNode::new(
        Some(Box::new(TreeNode::Leaf(leaf_a))),
        Some(Box::new(TreeNode::Leaf(leaf_b))),
    );
    assert_eq!(Node::get_frequency(&node_ab), 5);

    let node_cd = HuffmanNode::new(
        Some(Box::new(TreeNode::Leaf(leaf_c))),
        Some(Box::new(TreeNode::Leaf(leaf_d))),
    );
    assert_eq!(Node::get_frequency(&node_cd), 6);

    let node_abcd = HuffmanNode::new(
        Some(Box::new(TreeNode::Internal(node_ab))),
        Some(Box::new(TreeNode::Internal(node_cd))),
    );
    assert_eq!(Node::get_frequency(&node_abcd), 11);
}

#[test]
fn heap_works() {
    let mut heap: Heap<String> = Heap::new();
    heap.push("a".to_string());
    heap.push("b".to_string());
    heap.push("c".to_string());
}

#[test]
fn push_pop_works() {
    let mut heap: Heap<i64> = Heap::new();
    heap.push(3);
    heap.push(1);
    heap.push(5);

    assert_eq!(heap.size(), 3);
    assert_eq!(heap.pop(), Some(5));
    assert_eq!(heap.pop(), Some(3));

    heap.push(4);
    heap.push(2);
    assert_eq!(heap.size(), 3);
    assert_eq!(heap.is_empty(), false);
    assert_eq!(heap.pop(), Some(4));
    assert_eq!(heap.pop(), Some(2));
    assert_eq!(heap.pop(), Some(1));
    assert_eq!(heap.pop(), None);
    assert_eq!(heap.is_empty(), true);
}

#[test]
fn into_sorted_vec_works() {
    let mut heap: Heap<i64> = Heap::with_capacity(8);
    heap.push(5);
    heap.push(2);
    heap.push(7);
    heap.push(8);
    heap.push(1);
    heap.push(6);
    heap.push(4);
    heap.push(3);

    assert_eq!(heap.into_sorted_vec(), vec![1, 2, 3, 4, 5, 6, 7, 8]);
}

#[test]
fn heap_pop_hands_out_strings_in_order() {
    let mut heap: Heap<String> = Heap::new();
    heap.push("pear".to_string());
    heap.push("apple".to_string());
    heap.push("quince".to_string());
    assert_eq!(heap.pop(), Some("quince".to_string()));
    assert_eq!(heap.pop(), Some("pear".to_string()));
    assert_eq!(heap.pop(), Some("apple".to_string()));
    assert_eq!(heap.pop(), None);
}

#[test]
fn decimal_rendering_is_exact() {
    assert_eq!(u64_to_decimal(0), b"0".to_vec());
    assert_eq!(u64_to_decimal(7), b"7".to_vec());
    assert_eq!(u64_to_decimal(1234567890), b"1234567890".to_vec());
    assert_eq!(u64_to_decimal(u64::MAX), b"18446744073709551615".to_vec());
}
