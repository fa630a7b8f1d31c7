use bitcoin_asmap_quorum::addr::IpAddr;
use bitcoin_asmap_quorum::net::{bits_to_network, ip_to_bits};
use bitcoin_asmap_quorum::testgen::{random_map_from_seed, SplitMix64};
use bitcoin_asmap_quorum::trie::ASMap;

#[test]
fn lib_network_roundtrip_ipv4() {
    let bits = ip_to_bits(IpAddr::parse("1.2.3.0").unwrap(), 24);
    assert_eq!(bits_to_network(&bits), "1.2.3.0/24");
}

#[test]
fn lib_network_roundtrip_ipv6() {
    let bits = ip_to_bits(IpAddr::parse("2001:db8::").unwrap(), 32);
    assert_eq!(bits_to_network(&bits), "2001:db8::/32");
}

#[test]
fn lib_binary_roundtrip_empty() {
    let state = ASMap::new();
    let enc = state.to_binary(false);
    let dec = ASMap::from_binary(&enc).unwrap();
    assert_eq!(state, dec);
}

#[test]
fn splitmix64_matches_reference_vectors() {
    let mut rng = SplitMix64::new(0);
    assert_eq!(rng.next_u64(), 0xE220_A839_7B1D_CDAF);
    assert_eq!(rng.next_u64(), 0x6E78_9E6A_A1B9_65F4);
    assert_eq!(rng.next_u64(), 0x06C4_5D18_8009_454F);
}

#[test]
fn generation_is_reproducible() {
    let (a, pa) = random_map_from_seed(1234);
    let (b, pb) = random_map_from_seed(1234);
    assert_eq!(pa, pb);
    assert_eq!(a, b);
}

#[test]
fn below_stays_in_range() {
    let mut rng = SplitMix64::new(7);
    for _ in 0..1000 {
        assert!(rng.below(5) < 5);
        let f = (rng.next_u64() >> 11) as f64 * (1.0 / 9_007_199_254_740_992.0);
        assert!((0.0..1.0).contains(&f));
    }
}
