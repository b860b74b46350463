use huffman::tree::{build_freq_table, HuffmanTree};

#[test]
fn frequency_table_counts_every_byte() {
    let input: Vec<u8> = b"AAAABBC".to_vec();
    let freqs = build_freq_table(&input);
    assert_eq!(freqs.len(), 256);
    assert_eq!(freqs[0x41], 4);
    assert_eq!(freqs[0x42], 2);
    assert_eq!(freqs[0x43], 1);
    let total: u64 = freqs.iter().sum();
    assert_eq!(total, 7);
}

#[test]
fn empty_input_builds_empty_tree() {
    let input: Vec<u8> = Vec::new();
    let tree = HuffmanTree::from(&input);
    assert_eq!(tree.nodes.len(), 0);
    let lens = tree.get_bitlengths();
    assert_eq!(lens, vec![0u8; 256]);
}

#[test]
fn tree_layout_root_is_last() {
    let input: Vec<u8> = b"AAAABBC".to_vec();
    let tree = HuffmanTree::from(&input);
    // Three distinct symbols give five arena entries.
    assert_eq!(tree.nodes.len(), 5);
    let root = &tree.nodes[4];
    assert_eq!(root.depth, Some(0));
    assert_eq!(root.freq, 7);
    assert!(root.left.is_some() && root.right.is_some());
    // Children always lie at earlier positions.
    for (i, node) in tree.nodes.iter().enumerate() {
        if let (Some(l), Some(r)) = (node.left, node.right) {
            assert!(l < r && r < i);
        }
    }
}

#[test]
fn bit_lengths_equal_leaf_depths() {
    let input: Vec<u8> = b"AAAABBC".to_vec();
    let tree = HuffmanTree::from(&input);
    let lens = tree.get_bitlengths();
    assert_eq!(lens[0x41], 1);
    assert_eq!(lens[0x42], 2);
    assert_eq!(lens[0x43], 2);
    for b in 0..256usize {
        if b < 0x41 || b > 0x43 {
            assert_eq!(lens[b], 0);
        }
    }
}

#[test]
fn single_symbol_length_is_forced_to_one() {
    let input = vec![9u8; 42];
    let tree = HuffmanTree::from(&input);
    assert_eq!(tree.nodes.len(), 1);
    let lens = tree.get_bitlengths();
    assert_eq!(lens[9], 1);
    for b in 0..256usize {
        if b != 9 {
            assert_eq!(lens[b], 0);
        }
    }
}
