use bitcoin_asmap_quorum::claim::{asmap_to_claim, try_asmap_to_claim};
use bitcoin_asmap_quorum::coder::{CODER_ASN, CODER_INS, CODER_JUMP, CODER_MATCH};
use bitcoin_asmap_quorum::load::{try_save_text, LoadError, SaveError};
use bitcoin_asmap_quorum::rules::{shape_violation, validated_vote_keys, Reason, REASONS};
use bitcoin_asmap_quorum::testgen::{
    random_map, random_map_from_seed, RandomMapParams, SplitMix64, CERTAIN,
};
use bitcoin_asmap_quorum::text::IntError;
use bitcoin_asmap_quorum::{
    bits_to_network, ip_to_bits, load_file, network_address_count, parse_network_prefix,
    save_binary, save_text, ASMap, AsmapEntry, ClaimLimits, IpAddr, NetworkCountError,
    ParseNetworkError,
};

fn map(text: &str) -> ASMap {
    load_file(text.as_bytes(), "map").unwrap()
}

#[test]
fn addresses_have_one_text() {
    for (text, written) in [
        ("0.0.0.0", Some("0.0.0.0")),
        ("255.255.255.255", Some("255.255.255.255")),
        ("::", Some("::")),
        ("::1", Some("::1")),
        ("1::", Some("1::")),
        ("2001:DB8::8:800:200c:417a", Some("2001:db8::8:800:200c:417a")),
        ("::ffff:1.2.3.4", Some("::ffff:1.2.3.4")),
        ("::1.2.3.4", Some("::102:304")),
        ("1:0:0:2:0:0:0:3", Some("1:0:0:2::3")),
        ("1:0:0:2:3:0:0:4", Some("1::2:3:0:0:4")),
        ("1:2:3:4:5:6:7:8", Some("1:2:3:4:5:6:7:8")),
        ("1:0:2:3:4:5:6:7", Some("1:0:2:3:4:5:6:7")),
        ("1:2:3:4:5:6:1.2.3.4", Some("1:2:3:4:5:6:102:304")),
        ("1:2:3:4:5:6:7::", Some("1:2:3:4:5:6:7:0")),
        ("00fe::000A", Some("fe::a")),
        ("01.2.3.4", None),
        ("1.2.3", None),
        ("1.2.3.4.5", None),
        ("256.1.1.1", None),
        ("1:2:3:4:5:6:7", None),
        ("1::2::3", None),
        ("12345::", None),
        (":1", None),
        ("", None),
        ("::ffff:1.2.3.256", None),
        ("::g", None),
        (" 1.2.3.4", None),
    ] {
        let read = IpAddr::parse(text);
        assert_eq!(read.map(|ip| ip.to_text()).as_deref(), written, "{text}");
        if let Some(ip) = read {
            assert_eq!(IpAddr::parse(&ip.to_text()), Some(ip), "{text}");
        }
    }
}

#[test]
fn networks_are_read_only_without_host_bits() {
    assert_eq!(
        parse_network_prefix("10.0.0.0/8"),
        Ok((IpAddr::V4(0x0a00_0000), 8))
    );
    assert_eq!(
        parse_network_prefix("2001:db8::/32"),
        Ok((IpAddr::V6(0x2001_0db8 << 96), 32))
    );
    for (text, error) in [
        (
            "10.0.0.0",
            ParseNetworkError::Invalid {
                network: "10.0.0.0".to_string(),
            },
        ),
        (
            "10.0.0.1/8",
            ParseNetworkError::Invalid {
                network: "10.0.0.1/8".to_string(),
            },
        ),
        (
            "10.0.0/8",
            ParseNetworkError::InvalidAddr {
                network: "10.0.0/8".to_string(),
            },
        ),
        (
            "10.0.0.0/",
            ParseNetworkError::InvalidPrefixLen {
                network: "10.0.0.0/".to_string(),
                source: IntError::Empty,
            },
        ),
        (
            "10.0.0.0/256",
            ParseNetworkError::InvalidPrefixLen {
                network: "10.0.0.0/256".to_string(),
                source: IntError::PosOverflow,
            },
        ),
    ] {
        assert_eq!(error.message(), format!("invalid network '{text}'"));
        assert_eq!(parse_network_prefix(text), Err(error));
    }
}

#[test]
fn prefixes_write_and_read_back() {
    for text in ["1.2.3.0/24", "0.0.0.0/0", "2001:db8::/32", "::/0", "::fffe:0:0/95"] {
        let (ip, len) = parse_network_prefix(text).unwrap();
        assert_eq!(bits_to_network(&ip_to_bits(ip, len)), text);
    }
    let (ip, len) = parse_network_prefix("::ffff:1.2.3.0/120").unwrap();
    assert_eq!(bits_to_network(&ip_to_bits(ip, len)), "1.2.3.0/24");
}

#[test]
fn networks_are_counted() {
    assert_eq!(network_address_count("1.2.3.0/24"), Ok(256));
    assert_eq!(network_address_count("0.0.0.0/0"), Ok(1 << 32));
    assert_eq!(network_address_count("::/1"), Ok(1 << 127));
    assert_eq!(network_address_count("::/0"), Ok(u128::MAX));
    assert_eq!(network_address_count("::1/128"), Ok(1));
    let error = network_address_count("1.2.3.0").unwrap_err();
    assert_eq!(
        error,
        NetworkCountError::Invalid {
            network: "1.2.3.0".to_string()
        }
    );
    assert_eq!(error.message(), "invalid network '1.2.3.0'");
    for (text, source, message) in [
        ("1.2.3.0/", IntError::Empty, "cannot parse integer from empty string"),
        ("1.2.3.0/x", IntError::InvalidDigit, "invalid digit found in string"),
        (
            "1.2.3.0/4294967296",
            IntError::PosOverflow,
            "number too large to fit in target type",
        ),
    ] {
        let error = network_address_count(text).unwrap_err();
        assert_eq!(error, NetworkCountError::PrefixLen(source));
        assert_eq!(error.message(), message);
        assert_eq!(
            message,
            text.rsplit('/').next().unwrap().parse::<u32>().unwrap_err().to_string()
        );
    }
}

#[test]
fn codes_read_back() {
    for (coder, values) in [
        (CODER_INS, vec![0, 1, 2, 3]),
        (CODER_ASN, vec![1, 2, 32_768, 32_769, 64_512, 33_521_664]),
        (CODER_MATCH, vec![2, 3, 100, 511]),
        (CODER_JUMP, vec![17, 48, 49, 1_000_000]),
    ] {
        for value in values {
            assert!(coder.can_encode(value));
            let mut bits = vec![true];
            coder.encode(value, &mut bits);
            assert_eq!(bits.len(), 1 + coder.encode_size(value));
            bits.push(true);
            assert_eq!(coder.decode(&bits, 1), Some((value, bits.len() - 1)));
            assert_eq!(coder.decode(&bits[..bits.len() - 2], 1), None);
        }
    }
    assert!(!CODER_ASN.can_encode(0));
    assert!(!CODER_ASN.can_encode(33_521_665));
    assert!(!CODER_MATCH.can_encode(1));
    assert!(!CODER_MATCH.can_encode(512));
    assert!(!CODER_JUMP.can_encode(16));
}

#[test]
fn files_read_back_in_both_forms() {
    for seed in 0..20 {
        let (state, _) = random_map_from_seed(seed);
        for overlapping in [false, true] {
            let text = save_text(&state, false, overlapping);
            assert_eq!(load_file(text.as_bytes(), "f").unwrap(), state);
            assert_eq!(try_save_text(&state, false, overlapping), Some(text));
        }
        let binary = save_binary(&state, false);
        assert_eq!(ASMap::from_binary(&binary).unwrap(), state);
        assert_eq!(state.try_to_binary(false), Some(binary));
        let filled = ASMap::from_binary(&save_binary(&state, true)).unwrap();
        assert!(filled.extends(&state));
    }
}

#[test]
fn maps_that_cannot_be_written_are_told_apart() {
    let mut high = ASMap::new();
    high.update(&[true], 33_521_665);
    assert_eq!(high.try_to_binary(false), None);
    assert!(try_save_text(&high, false, false).is_some());

    let mut deep = ASMap::new();
    deep.update(&[true; 129], 1);
    assert_eq!(try_save_text(&deep, false, false), None);
}

#[test]
fn messages_of_loading_and_saving() {
    assert_eq!(
        LoadError::Read {
            input_name: "x".to_string()
        }
        .message(),
        "Input file 'x' cannot be read"
    );
    assert_eq!(
        LoadError::Ambiguous {
            input_name: "x".to_string()
        }
        .message(),
        "Input file 'x' is ambiguous."
    );
    assert_eq!(
        load_file(&[0xff, 0xfe], "x").unwrap_err().message(),
        "Input file 'x' is neither a valid binary asmap file nor valid text input (invalid UTF-8)"
    );
    assert_eq!(
        SaveError {
            output_name: "y".to_string()
        }
        .message(),
        "Output file 'y' cannot be written to"
    );
}

#[test]
fn a_difference_leads_from_one_map_to_the_other() {
    let left = map("1.0.0.0/8 AS5\n2.0.0.0/8 AS6\n2.128.0.0/9 AS7\n");
    let right = map("1.0.0.0/8 AS5\n2.0.0.0/9 AS8\n");
    let mut patched = left.clone();
    for (prefix, old_asn, new_asn) in left.diff(&right) {
        assert_ne!(old_asn, new_asn);
        assert_eq!(left.lookup(&prefix), Some(old_asn));
        assert_eq!(right.lookup(&prefix), Some(new_asn));
        patched.update(&prefix, new_asn);
    }
    assert_eq!(patched, right);
    assert!(left.same_map(&left.clone()));
    assert!(!left.same_map(&right));
    assert!(left.diff(&left).is_empty());
}

#[test]
fn extending_is_reflexive_and_transitive() {
    let a = map("1.0.0.0/8 AS5\n");
    let b = map("1.0.0.0/8 AS5\n2.0.0.0/8 AS6\n");
    let c = map("1.0.0.0/8 AS5\n2.0.0.0/8 AS6\n3.0.0.0/8 AS7\n");
    assert!(a.extends(&a));
    assert!(b.extends(&a) && c.extends(&b) && c.extends(&a));
    assert!(!a.extends(&b));
    assert!(!map("1.0.0.0/8 AS4\n").extends(&a));
}

#[test]
fn reasons_are_in_the_order_of_their_names() {
    let names: Vec<&str> = (0..REASONS).map(|i| Reason::at(i).name()).collect();
    let mut sorted = names.clone();
    sorted.sort();
    sorted.dedup();
    assert_eq!(names, sorted);
    for i in 0..REASONS {
        assert_eq!(Reason::at(i).index(), i);
    }
}

#[test]
fn random_maps_keep_to_their_parameters() {
    let mut rng = SplitMix64::new(7);
    let params = RandomMapParams {
        num_leaves: 30,
        max_asn: 3,
        unassigned_prob: 0,
    };
    let state = random_map(&mut rng, params);
    let entries = state.to_entries(false, false);
    assert!(!entries.is_empty() && entries.len() <= 30);
    assert!(entries.iter().all(|(_, asn)| (1..=3).contains(asn)));
    let nothing = random_map(
        &mut rng,
        RandomMapParams {
            num_leaves: 5,
            max_asn: 1,
            unassigned_prob: CERTAIN,
        },
    );
    assert_eq!(nothing, ASMap::new());
    let drawn = RandomMapParams::draw(&mut rng);
    assert!((1..40).contains(&drawn.num_leaves) && (1..40).contains(&drawn.max_asn));
    for _ in 0..100 {
        assert!((3..9).contains(&rng.range(3, 9)));
    }
}

#[test]
fn changes_come_in_the_order_of_their_prefixes() {
    for seed in 0..20 {
        let (left, _) = random_map_from_seed(seed);
        let (right, _) = random_map_from_seed(seed + 100);
        let prefixes: Vec<Vec<bool>> = left.diff(&right).into_iter().map(|d| d.0).collect();
        let mut sorted = prefixes.clone();
        sorted.sort();
        sorted.dedup();
        assert_eq!(prefixes, sorted);
    }
}

#[test]
fn claims_of_maps_are_well_formed() {
    let state = map("1.2.3.0/24 AS5\n2.0.0.0/8 AS6\n2001:db8::/32 AS7\n");
    let claim = asmap_to_claim(&state, 1, "x".to_string());
    assert_eq!(shape_violation(&ClaimLimits::default(), &claim), None);
    let keys = validated_vote_keys(&claim.entries).unwrap();
    assert_eq!(keys.len(), 3);
    assert_eq!(try_asmap_to_claim(&state, 1, "x".to_string()), Some(claim));

    let everything = map("0.0.0.0/0 AS5\n");
    let claim = asmap_to_claim(&everything, 1, "x".to_string());
    assert_eq!(
        validated_vote_keys(&claim.entries),
        Err(Reason::DefaultRoutePrefix)
    );

    let mut deep = ASMap::new();
    deep.update(&[true; 129], 1);
    assert_eq!(try_asmap_to_claim(&deep, 1, "x".to_string()), None);
}

#[test]
fn an_empty_file_is_the_empty_map_in_both_forms() {
    let empty = ASMap::new();
    assert_eq!(save_binary(&empty, false), Vec::<u8>::new());
    assert_eq!(save_text(&empty, false, true), "");
    assert_eq!(load_file(b"", "f").unwrap(), empty);
}

#[test]
fn votes_keep_the_order_in_which_they_are_first_cast() {
    let entry = |text: &str, asn: u32| AsmapEntry { ip_prefix: text.to_string(), asn };
    let entries = vec![
        entry("9.0.0.0/8", 3),
        entry("2001:DB8::/32", 2),
        entry("10.1.2.3/8", 7),
        entry("9.1.0.0/8", 3),
        entry("1.0.0.0/8", 9),
        entry("2001:db8::1/32", 2),
    ];
    assert_eq!(
        validated_vote_keys(&entries),
        Ok(vec![
            entry("9.0.0.0/8", 3),
            entry("2001:db8::/32", 2),
            entry("10.0.0.0/8", 7),
            entry("1.0.0.0/8", 9),
        ])
    );
    assert_eq!(validated_vote_keys(&vec![]), Ok(vec![]));
}

#[test]
fn lists_come_in_the_order_of_their_prefixes() {
    for seed in 0..20 {
        let (state, _) = random_map_from_seed(seed);
        for fill in [false, true] {
            for overlapping in [false, true] {
                let prefixes: Vec<Vec<bool>> = state
                    .to_entries(fill, overlapping)
                    .into_iter()
                    .map(|e| e.0)
                    .collect();
                let mut sorted = prefixes.clone();
                sorted.sort();
                sorted.dedup();
                assert_eq!(prefixes, sorted);
            }
        }
    }
    let state = map("10.0.0.0/8 AS2\n11.0.0.0/8 AS1\n8.0.0.0/7 AS1\n");
    assert_eq!(
        save_text(&state, false, true),
        "8.0.0.0/6 AS1\n10.0.0.0/8 AS2\n"
    );
}

#[test]
fn flat_lists_are_disjoint_and_as_short_as_those_can_be() {
    for seed in 0..20 {
        let (state, _) = random_map_from_seed(seed);
        for fill in [false, true] {
            let list = state.to_entries(fill, false);
            for (i, a) in list.iter().enumerate() {
                for (j, b) in list.iter().enumerate() {
                    assert!(i == j || !a.0.starts_with(&b.0));
                }
            }
        }
    }
    let state = map("8.0.0.0/8 AS1\n9.0.0.0/9 AS1\n10.0.0.0/8 AS2\n");
    assert_eq!(
        save_text(&state, false, false),
        "8.0.0.0/8 AS1\n9.0.0.0/9 AS1\n10.0.0.0/8 AS2\n"
    );
    assert_eq!(
        save_text(&state, true, false),
        "8.0.0.0/7 AS1\n10.0.0.0/8 AS2\n"
    );
}

#[test]
fn decoded_maps_are_written_and_read_again() {
    for seed in 0..20 {
        let (state, _) = random_map_from_seed(seed);
        for fill in [false, true] {
            let bytes = state.to_binary(fill);
            let read = ASMap::from_binary(&bytes).unwrap();
            assert!(read.extends(&state));
            let again = read.to_binary(false);
            assert_eq!(ASMap::from_binary(&again), Some(read));
        }
    }
    let mut highest = ASMap::new();
    highest.update(&[true, false], 33_521_664);
    assert_eq!(ASMap::from_binary(&highest.to_binary(false)), Some(highest));
    let mut above = ASMap::new();
    above.update(&[true, false], 33_521_665);
    assert_eq!(above.try_to_binary(false), None);
}

#[test]
fn no_encoding_begins_another() {
    for seed in 0..20 {
        let (state, _) = random_map_from_seed(seed);
        let bytes = state.to_binary(false);
        if bytes.is_empty() {
            continue;
        }
        for tail in [vec![0u8], vec![1], vec![0xff, 0xff], bytes.clone()] {
            let mut longer = bytes.clone();
            longer.extend(tail);
            assert_eq!(ASMap::from_binary(&longer), None);
        }
    }
}
