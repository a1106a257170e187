use sha3::Digest;

use crawly::addr::{
    addrv2_to_address, format_ipv4, format_ipv6, ipv6_to_onion, isprivate, kind_tag,
    normalize_addr, parse_kind_tag, torv3_address, type_address, AddrKind,
};

#[test]
fn ipv4_rendering() {
    assert_eq!(format_ipv4(1, 2, 3, 4), "1.2.3.4");
    assert_eq!(format_ipv4(255, 0, 0, 255), "255.0.0.255");
    assert_eq!(format_ipv4(0, 0, 0, 0), "0.0.0.0");
    assert_eq!(format_ipv4(192, 168, 10, 100), "192.168.10.100");
}

#[test]
fn ipv6_rendering_compresses_best_zero_run() {
    assert_eq!(format_ipv6(&[0x2001, 0xdb8, 0, 0, 0, 0, 0, 1]), "2001:db8::1");
    assert_eq!(format_ipv6(&[0, 0, 0, 0, 0, 0, 0, 1]), "::1");
    assert_eq!(format_ipv6(&[0, 0, 0, 0, 0, 0, 0, 0]), "::");
    assert_eq!(format_ipv6(&[0xfe80, 0, 0, 0, 0, 0, 0, 0]), "fe80::");
    assert_eq!(format_ipv6(&[1, 2, 3, 4, 5, 6, 7, 8]), "1:2:3:4:5:6:7:8");
    // the longest run wins; the leftmost on ties
    assert_eq!(format_ipv6(&[1, 0, 0, 2, 0, 0, 0, 3]), "1:0:0:2::3");
    assert_eq!(format_ipv6(&[1, 0, 0, 2, 0, 0, 3, 4]), "1::2:0:0:3:4");
    // a lone zero group is not compressed
    assert_eq!(format_ipv6(&[1, 0, 2, 3, 4, 5, 6, 7]), "1:0:2:3:4:5:6:7");
    assert_eq!(format_ipv6(&[0xabcd, 0xef01, 0x2345, 0x6789, 0xabcd, 0xef01, 0x2345, 0x6789]),
        "abcd:ef01:2345:6789:abcd:ef01:2345:6789");
}

#[test]
fn type_address_classifies() {
    let v4 = type_address([0, 0, 0, 0, 0, 0xffff, 0x0102, 0x0304]);
    assert_eq!(v4.address_type, "ipv4");
    assert_eq!(v4.address, "1.2.3.4");

    let onion = type_address([0xfd87, 0xd87e, 0xeb43, 1, 2, 3, 4, 5]);
    assert_eq!(onion.address_type, "onionv2");
    assert!(onion.address.ends_with(".onion"));

    let v6 = type_address([0x2001, 0xdb8, 0, 0, 0, 0, 0, 1]);
    assert_eq!(v6.address_type, "ipv6");
    assert_eq!(v6.address, "2001:db8::1");
}

#[test]
fn onioncat_address_matches_reference_base32() {
    let groups: [u16; 8] = [0xfd87, 0xd87e, 0xeb43, 0x4bb3, 0x51d5, 0x9fe8, 0x8e07, 0x94a2];
    let expected_bytes = [0x4bu8, 0xb3, 0x51, 0xd5, 0x9f, 0xe8, 0x8e, 0x07, 0x94, 0xa2];
    let expected = data_encoding::BASE32_NOPAD.encode(&expected_bytes).to_lowercase() + ".onion";
    assert_eq!(ipv6_to_onion(&groups), expected);
}

#[test]
fn isprivate_ranges() {
    assert!(isprivate([0, 0, 0, 0, 0, 0xffff, 0x0a00, 0x0001]));
    assert!(isprivate([0, 0, 0, 0, 0, 0xffff, 0xc0a8, 0x0001]));
    assert!(isprivate([0, 0, 0, 0, 0, 0xffff, 0xac10, 0x0001]));
    assert!(!isprivate([0, 0, 0, 0, 0, 0xffff, 0x0808, 0x0808]));
    assert!(!isprivate([0x2001, 0xdb8, 0, 0, 0, 0, 0, 1]));
}

#[test]
fn torv3_derivation_self_checks() {
    let pubkey = [0u8; 32];
    let addr = torv3_address(&pubkey);
    assert_eq!(addr.len(), 62);
    assert!(addr.ends_with(".onion"));
    let body = &addr[..56];
    assert!(body.chars().all(|c| c.is_ascii_lowercase() || ('2'..='7').contains(&c)));

    // recompute the checksum exactly as the Tor specification says
    let mut hasher = sha3::Sha3_256::new();
    hasher.update(b".onion checksum");
    hasher.update(&pubkey);
    hasher.update(&[3u8]);
    let digest = hasher.finalize();
    let mut full = [0u8; 35];
    full[..32].copy_from_slice(&pubkey);
    full[32] = digest[0];
    full[33] = digest[1];
    full[34] = 3;
    let expected = data_encoding::BASE32_NOPAD.encode(&full).to_lowercase() + ".onion";
    assert_eq!(addr, expected);
}

#[test]
fn torv3_distinct_keys_distinct_names() {
    let a = torv3_address(&[0u8; 32]);
    let b = torv3_address(&[1u8; 32]);
    assert_ne!(a, b);
}

#[test]
fn addrv2_variants_decode() {
    let v4 = addrv2_to_address(1, &[1, 2, 3, 4]).expect("ipv4 decodes");
    assert_eq!(v4.address_type, "ipv4");
    assert_eq!(v4.address, "1.2.3.4");

    let mut sixteen = vec![0u8; 16];
    sixteen[0] = 0x20;
    sixteen[1] = 0x01;
    sixteen[15] = 1;
    let v6 = addrv2_to_address(2, sixteen.as_slice()).expect("ipv6 decodes");
    assert_eq!(v6.address_type, "ipv6");
    assert_eq!(v6.address, "2001::1");

    let torv2 = addrv2_to_address(3, &[5u8; 10]).expect("torv2 decodes");
    assert_eq!(torv2.address_type, "onionv2");
    let expected = data_encoding::BASE32_NOPAD.encode(&[5u8; 10]).to_lowercase() + ".onion";
    assert_eq!(torv2.address, expected);

    let torv3 = addrv2_to_address(4, &[0u8; 32]).expect("torv3 decodes");
    assert_eq!(torv3.address_type, "onionv3");
    assert_eq!(torv3.address, torv3_address(&[0u8; 32]));

    let i2p = addrv2_to_address(5, &[9u8; 32]).expect("i2p decodes");
    assert_eq!(i2p.address_type, "i2p");
    let expected = data_encoding::BASE32_NOPAD.encode(&[9u8; 32]).to_lowercase() + ".b32.i2p";
    assert_eq!(i2p.address, expected);

    let cjdns = addrv2_to_address(6, &[0xfcu8; 16]).expect("cjdns decodes");
    assert_eq!(cjdns.address_type, "cjdns");

    let ygg = addrv2_to_address(7, &[2u8; 16]).expect("yggdrasil decodes");
    assert_eq!(ygg.address_type, "yggdrasil");
}

#[test]
fn addrv2_unknown_or_mismatched_discarded() {
    assert!(addrv2_to_address(1, &[1, 2, 3]).is_none());
    assert!(addrv2_to_address(2, &[0u8; 15]).is_none());
    assert!(addrv2_to_address(8, &[0u8; 16]).is_none());
    assert!(addrv2_to_address(0, &[0u8; 4]).is_none());
}

#[test]
fn normalization_strips_ports_and_brackets() {
    assert_eq!(normalize_addr("1.2.3.4:8333"), "1.2.3.4");
    assert_eq!(normalize_addr("[2001:db8::1]:8333"), "2001:db8::1");
    assert_eq!(normalize_addr("example.onion:8333"), "example.onion");
    assert_eq!(normalize_addr("plain"), "plain");
}

#[test]
fn kind_tags_round_trip() {
    for kind in [
        AddrKind::Ipv4,
        AddrKind::Ipv6,
        AddrKind::OnionV2,
        AddrKind::OnionV3,
        AddrKind::I2p,
        AddrKind::Cjdns,
        AddrKind::Yggdrasil,
    ] {
        assert_eq!(parse_kind_tag(kind_tag(kind)), Some(kind));
    }
    assert_eq!(parse_kind_tag("bogus"), None);
}
