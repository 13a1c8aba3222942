use ip_trie::cidr::CidrBlock;
use ip_trie::cidr::CidrError;
use ip_trie::util::cidr_to_u32_parts;

fn ip(a: u8, b: u8, c: u8, d: u8) -> u32 {
    ((a as u32) << 24) | ((b as u32) << 16) | ((c as u32) << 8) | (d as u32)
}

#[test]
fn cidr_block_from_str_ok() {
    let cb = CidrBlock::from_str("127.0.1.40/30").unwrap();
    assert_eq!(ip(127, 0, 1, 40), cb.net);
    assert_eq!(30, cb.prefix);
}

#[test]
fn cidr_block_from_str_bounds() {
    let cb = CidrBlock::from_str("0.0.0.0/0").unwrap();
    assert_eq!(0, cb.net);
    assert_eq!(0, cb.prefix);

    let cb = CidrBlock::from_str("255.255.255.255/32").unwrap();
    assert_eq!(u32::MAX, cb.net);
    assert_eq!(32, cb.prefix);
}

#[test]
fn cidr_block_from_str_rejects_malformed() {
    let bad = [
        "",
        "1.2.3.4",
        "/8",
        "1.2.3/8",
        "1.2.3.4.5/8",
        "1.2.3.4//8",
        "1.2.3.4/8/9",
        "256.0.0.1/8",
        "1.2.3.300/8",
        "1.2.3.4/33",
        "1.2.3.4/",
        "1.2.3.4/321",
        "1.2.3.4/ 8",
        "a.b.c.d/8",
        "1.2.3.4/x",
        "01.2.3.4/8",
        "1.2.3.04/8",
        " 1.2.3.4/8",
        "1.2.3.4/8 ",
        "1.2.3.4/+8",
        "1.2..4/8",
        "1..2.3.4/8",
    ];
    for s in bad {
        assert_eq!(Err(CidrError::Malformed), CidrBlock::from_str(s).map(|cb| (cb.net, cb.prefix)), "input {:?}", s);
    }
}

#[test]
fn cidr_to_u32_parts_splits() {
    assert_eq!((ip(192, 168, 1, 0), 24), cidr_to_u32_parts("192.168.1.0/24"));
    assert_eq!((ip(10, 0, 0, 1), 8), cidr_to_u32_parts("10.0.0.1/8"));
}
