use ip_trie::binary_trie::IpTrieNode;

fn ip(a: u8, b: u8, c: u8, d: u8) -> u32 {
    ((a as u32) << 24) | ((b as u32) << 16) | ((c as u32) << 8) | (d as u32)
}

#[test]
fn empty_node_is_leaf() {
    let n: IpTrieNode<u32> = IpTrieNode::empty();
    assert!(n.is_leaf());
    assert_eq!(IpTrieNode::new(None, None, None), n);
}

#[test]
fn node_with_value_is_not_leaf() {
    let n: IpTrieNode<u32> = IpTrieNode::new(None, None, Some(5));
    assert!(!n.is_leaf());
}

#[test]
fn insert_with_zero_mask_sets_value_here() {
    let mut n: IpTrieNode<u32> = IpTrieNode::empty();
    n.insert(ip(1, 2, 3, 4), 0, 9);
    assert_eq!(IpTrieNode::new(None, None, Some(9)), n);
}

#[test]
fn insert_descends_by_top_bits() {
    // A one-bit prefix of a high address goes right; of a low address, left.
    let mut n: IpTrieNode<u32> = IpTrieNode::empty();
    n.insert(0x8000_0000, 0x8000_0000, 1);
    let leaf = |v: u32| Box::new(IpTrieNode::new(None, None, Some(v)));
    assert_eq!(IpTrieNode::new(None, Some(leaf(1)), None), n);

    let mut m: IpTrieNode<u32> = IpTrieNode::empty();
    m.insert(0x0000_0000, 0x8000_0000, 2);
    assert_eq!(IpTrieNode::new(Some(leaf(2)), None, None), m);
}

#[test]
fn insert_same_prefix_overwrites() {
    let mut n: IpTrieNode<u32> = IpTrieNode::empty();
    let mask = 0xffff_0000u32;
    n.insert(ip(183, 40, 0, 0), mask, 1);
    n.insert(ip(183, 40, 0, 0), mask, 2);
    let mut expected: IpTrieNode<u32> = IpTrieNode::empty();
    expected.insert(ip(183, 40, 0, 0), mask, 2);
    assert_eq!(expected, n);
}
