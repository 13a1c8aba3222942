use ip_trie::persist::DecodeError;
use ip_trie::radix_trie::Trie;

fn ip(a: u8, b: u8, c: u8, d: u8) -> u32 {
    ((a as u32) << 24) | ((b as u32) << 16) | ((c as u32) << 8) | (d as u32)
}

#[test]
fn encode_and_decode_trie_ok() {
    let mut t: Trie<u32> = Trie::empty();
    t.insert_cidr("50.178.3.0/16", 3).unwrap();
    t.insert_cidr("214.0.0.0/24", 128).unwrap();
    let bytes = t.to_bytes();

    assert_eq!(true, t.contains_ip(ip(50, 178, 3, 6)));
    assert_eq!(vec![&128], t.get(ip(214, 0, 0, 39)));

    let mut tt: Trie<u32> = Trie::from_bytes(&bytes).unwrap();
    assert_eq!(t, tt);

    tt.insert_cidr("33.12.14.0/24", 420).unwrap();
    assert_eq!(false, t.contains_ip(ip(33, 12, 14, 15)));
    assert_eq!(true, tt.contains_ip(ip(33, 12, 14, 15)));
}

#[test]
fn empty_trie_encoding_is_exact() {
    let t: Trie<u32> = Trie::empty();
    // No left child, no right child, a zero value count in eight bytes.
    assert_eq!(vec![0u8, 0, 0, 0, 0, 0, 0, 0, 0, 0], t.to_bytes());
}

#[test]
fn single_value_encoding_is_exact() {
    let mut t: Trie<u32> = Trie::empty();
    t.insert_net_and_prefix(0, 0, 0x0403_0201).unwrap();
    // Root node with one value: count 1, then the value's four bytes,
    // least significant first.
    assert_eq!(vec![0u8, 0, 1, 0, 0, 0, 0, 0, 0, 0, 1, 2, 3, 4], t.to_bytes());
}

#[test]
fn round_trip_preserves_lookups() {
    let mut t: Trie<u32> = Trie::empty();
    t.insert_cidr("183.40.20.0/8", 49).unwrap();
    t.insert_cidr("183.40.21.3/16", 150).unwrap();
    t.insert_cidr("10.0.0.0/8", 7).unwrap();
    t.insert_cidr("10.0.0.0/8", 8).unwrap();
    let tt: Trie<u32> = Trie::from_bytes(&t.to_bytes()).unwrap();
    assert_eq!(t, tt);
    assert_eq!(vec![&49, &150], tt.get(ip(183, 40, 25, 59)));
    assert_eq!(vec![&7, &8], tt.get(ip(10, 1, 2, 3)));
    assert!(!tt.contains_ip(ip(11, 0, 0, 1)));
}

#[test]
fn truncated_bytes_are_malformed() {
    let mut t: Trie<u32> = Trie::empty();
    t.insert_cidr("10.0.0.0/8", 7).unwrap();
    let mut bytes = t.to_bytes();
    bytes.pop();
    assert_eq!(Err(DecodeError::Malformed), Trie::<u32>::from_bytes(&bytes));
    assert_eq!(Err(DecodeError::Malformed), Trie::<u32>::from_bytes(&[]));
}

#[test]
fn illegal_presence_byte_is_malformed() {
    let t: Trie<u32> = Trie::empty();
    let mut bytes = t.to_bytes();
    bytes[0] = 7;
    assert_eq!(Err(DecodeError::Malformed), Trie::<u32>::from_bytes(&bytes));
}

#[test]
fn trailing_garbage_is_an_error() {
    let mut t: Trie<u32> = Trie::empty();
    t.insert_cidr("10.0.0.0/8", 7).unwrap();
    let mut bytes = t.to_bytes();
    bytes.push(0);
    assert_eq!(Err(DecodeError::TrailingBytes), Trie::<u32>::from_bytes(&bytes));
}
