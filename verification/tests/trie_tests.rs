use ip_trie::cidr::CidrError;
use ip_trie::radix_trie::Trie;
use ip_trie::radix_trie::TrieNode;

fn ip(a: u8, b: u8, c: u8, d: u8) -> u32 {
    ((a as u32) << 24) | ((b as u32) << 16) | ((c as u32) << 8) | (d as u32)
}

#[derive(Clone, Debug, PartialEq, Eq)]
struct TestDummyStruct {
    pub a: u32,
    pub b: bool,
    pub c: String,
}

#[test]
fn trie_with_custom_struct() {
    let mut t: Trie<TestDummyStruct> = Trie::empty();
    let tds = TestDummyStruct {
        a: 23,
        b: true,
        c: "Hello Radix Trie!".to_string(),
    };
    t.insert_net_and_prefix(ip(183, 40, 20, 0), 8, tds.clone()).unwrap();
    assert_eq!(vec![&tds], t.get(ip(183, 41, 24, 249)));
    assert_eq!(23, t.get(ip(183, 41, 24, 249))[0].a);
}

#[test]
fn trie_with_many_custom_struct() {
    let mut t: Trie<TestDummyStruct> = Trie::empty();
    let tds1 = TestDummyStruct {
        a: 1,
        b: true,
        c: "Hello Radix Trie!".to_string(),
    };
    let tds2 = TestDummyStruct {
        a: 69,
        b: false,
        c: "Goodbye...".to_string(),
    };
    let tds3 = TestDummyStruct {
        a: 420,
        b: true,
        c: "Don't you dare go hollow.".to_string(),
    };

    t.insert_net_and_prefix(ip(183, 210, 129, 0), 2, tds1.clone()).unwrap();
    t.insert_net_and_prefix(ip(183, 40, 31, 0), 8, tds2.clone()).unwrap();
    t.insert_net_and_prefix(ip(10, 123, 42, 0), 24, tds3.clone()).unwrap();

    let g = t.get(ip(183, 123, 59, 3));
    assert_eq!(vec![&tds1, &tds2], g);

    let gg = t.get(ip(10, 123, 42, 250));
    assert_eq!(vec![&tds3], gg);
    assert_eq!(Vec::<&TestDummyStruct>::new(), t.get(ip(20, 159, 30, 42)));
}

#[test]
fn insert_from_net_and_prefix() {
    let mut t: Trie<u32> = Trie::empty();
    t.insert_net_and_prefix(ip(183, 40, 20, 0), 8, 49).unwrap();
    t.insert_net_and_prefix(ip(183, 40, 21, 3), 16, 150).unwrap();
    t.insert_net_and_prefix(ip(20, 30, 40, 0), 31, 420).unwrap();

    assert_eq!(false, t.contains_ip(ip(182, 41, 21, 3)));
    assert_eq!(vec![&49, &150], t.get(ip(183, 40, 25, 59)));
    assert_eq!(vec![&420], t.get(ip(20, 30, 40, 1)));
}

#[test]
fn matches_ordered_least_specific_first() {
    let mut t: Trie<u32> = Trie::empty();
    t.insert_cidr("183.40.20.0/8", 49).unwrap();
    t.insert_cidr("183.40.21.3/16", 150).unwrap();
    assert_eq!(vec![&49, &150], t.get(ip(183, 40, 25, 59)));
}

#[test]
fn duplicate_prefix_insertion_is_additive() {
    let mut t: Trie<u32> = Trie::empty();
    t.insert_net_and_prefix(ip(10, 0, 0, 0), 8, 7).unwrap();
    t.insert_net_and_prefix(ip(10, 0, 0, 0), 8, 8).unwrap();
    assert_eq!(vec![&7, &8], t.get(ip(10, 1, 2, 3)));
}

#[test]
fn zero_prefix_matches_every_address() {
    let mut t: Trie<u32> = Trie::empty();
    t.insert_net_and_prefix(ip(1, 2, 3, 4), 0, 99).unwrap();
    assert!(t.contains_ip(0));
    assert!(t.contains_ip(u32::MAX));
    assert!(t.contains_ip(ip(8, 8, 8, 8)));
    assert_eq!(vec![&99], t.get(ip(200, 200, 200, 200)));
}

#[test]
fn host_prefix_matches_only_exact_address() {
    let mut t: Trie<u32> = Trie::empty();
    t.insert_net_and_prefix(ip(1, 2, 3, 4), 32, 1337).unwrap();
    assert_eq!(vec![&1337], t.get(ip(1, 2, 3, 4)));
    assert!(!t.contains_ip(ip(1, 2, 3, 5)));
    assert!(!t.contains_ip(ip(1, 2, 3, 3)));
    assert!(!t.contains_ip(ip(129, 2, 3, 4)));
}

#[test]
fn unmatched_address_gets_empty_lookup() {
    let mut t: Trie<u32> = Trie::empty();
    t.insert_net_and_prefix(ip(10, 0, 0, 0), 8, 1).unwrap();
    assert!(!t.contains_ip(ip(11, 0, 0, 1)));
    assert_eq!(Vec::<&u32>::new(), t.get(ip(11, 0, 0, 1)));
}

#[test]
fn empty_trie_matches_nothing() {
    let t: Trie<u32> = Trie::empty();
    assert!(!t.contains_ip(0));
    assert!(!t.contains_ip(u32::MAX));
    assert!(!t.contains_ip(ip(127, 0, 0, 1)));
    assert_eq!(Vec::<&u32>::new(), t.get(ip(127, 0, 0, 1)));
}

#[test]
fn invalid_prefix_is_rejected() {
    let mut t: Trie<u32> = Trie::empty();
    assert_eq!(Err(CidrError::PrefixTooLong), t.insert_net_and_prefix(ip(1, 2, 3, 4), 33, 5));
    assert!(!t.contains_ip(ip(1, 2, 3, 4)));
}

#[test]
fn trie_from_built_root() {
    // A hand-built root carrying values stands for the `/0` prefix.
    let root = TrieNode::new(None, None, Some(vec![5u32]));
    let t = Trie::new(root);
    assert_eq!(vec![&5], t.get(ip(9, 9, 9, 9)));
    assert!(t.contains_ip(0));
    assert_eq!(&TrieNode::new(None, None, Some(vec![5u32])), t.root());
}

#[test]
fn end_to_end_scenario() {
    let mut t: Trie<u32> = Trie::empty();
    t.insert_cidr("50.178.3.0/16", 3).unwrap();
    t.insert_cidr("1.2.3.4/32", 1337).unwrap();
    t.insert_cidr("214.0.0.0/24", 128).unwrap();
    t.insert_cidr("214.1.1.0/24", 986123).unwrap();
    t.insert_cidr("50.178.3.5/29", 45).unwrap();

    assert!(t.contains_ip(ip(50, 178, 3, 6)));
    assert!(!t.contains_ip(ip(214, 1, 2, 3)));
    assert_eq!(Vec::<&u32>::new(), t.get(ip(214, 1, 2, 3)));
}
