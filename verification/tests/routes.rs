use bitcoin_asmap_quorum::bottleneck::{
    collector_file, collector_targets, collector_url, find_common_suffix, FindBottleneck,
    RibRecord, RouteTable,
};
use bitcoin_asmap_quorum::mrt::{format_ip, AsPathError, AsPathParser, PrefixBytesError};
use bitcoin_asmap_quorum::prefix::{
    canonical_consensus_prefix, RoutingPrefix, RoutingPrefixError,
};
use bitcoin_asmap_quorum::text::IntError;
use bitcoin_asmap_quorum::{ip_to_bits, IpAddr};

fn path_body(kind: u8, path: &[u32]) -> Vec<u8> {
    let mut body = vec![kind, path.len() as u8];
    for asn in path {
        body.extend(asn.to_be_bytes());
    }
    body
}

fn attribute(flags: u8, code: u8, body: &[u8]) -> Vec<u8> {
    let mut out = vec![flags, code];
    if flags & 0x10 != 0 {
        out.extend((body.len() as u16).to_be_bytes());
    } else {
        out.push(body.len() as u8);
    }
    out.extend(body);
    out
}

fn path_attribute(path: &[u32]) -> Vec<u8> {
    attribute(0x40, 2, &path_body(2, path))
}

#[test]
fn the_path_is_found_among_other_attributes() {
    let mut buffer = attribute(0x40, 1, &[0]);
    buffer.extend(path_attribute(&[3356, 1299, 64512]));
    buffer.extend(attribute(0x80, 4, &[0, 0, 0, 1]));
    assert_eq!(AsPathParser::parse(&buffer), Ok(vec![3356, 1299, 64512]));

    let extended = attribute(0x50, 2, &path_body(2, &[7, 8]));
    assert_eq!(AsPathParser::parse(&extended), Ok(vec![7, 8]));

    // A set alone is no path, but one after a sequence in the same attribute is skipped.
    let mut body = path_body(2, &[1, 2]);
    body.extend(path_body(1, &[3]));
    assert_eq!(
        AsPathParser::parse(&attribute(0x40, 2, &body)),
        Ok(vec![1, 2])
    );
}

#[test]
fn attributes_without_one_path_are_reported() {
    let cases: Vec<(Vec<u8>, AsPathError, &str)> = vec![
        (vec![], AsPathError::Missing, "missing MRT attributes"),
        (
            vec![0x40, 2],
            AsPathError::End,
            "unexpected end of MRT attribute buffer",
        ),
        (
            vec![0x40, 1, 5, 0],
            AsPathError::End,
            "unexpected end of MRT attribute buffer",
        ),
        (
            path_attribute(&[]),
            AsPathError::EmptyPath,
            "MRT attribute had no AS path",
        ),
        (
            [path_attribute(&[1]), path_attribute(&[2])].concat(),
            AsPathError::Multiple,
            "MRT entry contained multiple AS paths",
        ),
        (
            attribute(0x40, 1, &[0]),
            AsPathError::NoPath,
            "MRT entry had no AS path",
        ),
        (
            attribute(0x40, 2, &path_body(1, &[1])),
            AsPathError::NoPath,
            "MRT entry had no AS path",
        ),
        (
            attribute(0x40, 2, &path_body(9, &[1])),
            AsPathError::UnknownType(9),
            "unknown AS path type 9",
        ),
    ];
    for (buffer, error, message) in cases {
        assert_eq!(AsPathParser::parse(&buffer), Err(error), "{buffer:?}");
        assert_eq!(error.message(), message);
    }
}

#[test]
fn prefix_bytes_start_an_address() {
    assert_eq!(format_ip(&[1, 2, 3], true), Ok(IpAddr::V4(0x0102_0300)));
    assert_eq!(format_ip(&[], true), Ok(IpAddr::V4(0)));
    assert_eq!(
        format_ip(&[0x20, 0x01, 0x0d, 0xb8], false),
        Ok(IpAddr::V6(0x2001_0db8 << 96))
    );
    assert_eq!(format_ip(&[0; 5], true), Err(PrefixBytesError::V4));
    assert_eq!(format_ip(&[0; 17], false), Err(PrefixBytesError::V6));
    assert_eq!(PrefixBytesError::V4.message(), "invalid IPv4 prefix bytes");
    assert_eq!(PrefixBytesError::V6.message(), "invalid IPv6 prefix bytes");
}

#[test]
fn the_common_end_of_paths() {
    let suffix = |paths: &[&[u32]]| {
        find_common_suffix(&paths.iter().map(|p| p.to_vec()).collect::<Vec<_>>())
    };
    assert_eq!(suffix(&[&[1, 2, 3]]), vec![1, 2, 3]);
    assert_eq!(suffix(&[&[1, 2, 3], &[9, 2, 3]]), vec![2, 3]);
    assert_eq!(suffix(&[&[5, 1, 2, 3], &[2, 3]]), vec![2, 3]);
    assert_eq!(suffix(&[&[1, 4, 3], &[2, 5, 3]]), vec![3]);
    // Only paths to the same network as the shortest are compared.
    assert_eq!(suffix(&[&[1, 2, 3], &[8, 9]]), vec![8, 9]);
}

#[test]
fn bottlenecks_are_found_for_every_prefix() {
    let mut table = RouteTable::new();
    let record = RibRecord {
        is_ipv4: true,
        prefix: vec![10, 0, 0],
        prefix_length: 24,
        attributes: vec![
            path_attribute(&[1, 7, 7, 9]),
            path_attribute(&[2, 7, 9]),
            vec![],
        ],
    };
    assert_eq!(table.add_record(&record), Ok(()));
    assert_eq!(table.routes.len(), 2);
    assert_eq!(table.routes[0].path, vec![1, 7, 9]);

    let six = RibRecord {
        is_ipv4: false,
        prefix: vec![0x20, 0x01],
        prefix_length: 16,
        attributes: vec![path_attribute(&[4, 5])],
    };
    assert_eq!(table.add_record(&six), Ok(()));

    let wrong = RibRecord {
        is_ipv4: true,
        prefix: vec![1, 2, 3, 4, 5],
        prefix_length: 40,
        attributes: vec![path_attribute(&[4, 5])],
    };
    assert_eq!(table.add_record(&wrong), Err(PrefixBytesError::V4));
    assert_eq!(table.routes.len(), 3);

    let found = FindBottleneck::find_as_bottleneck(&table);
    assert_eq!(found.lines(), vec!["10.0.0.0/24 AS7", "2001::/16 AS4"]);
    assert!(found.masks_fit());
    let map = found.to_asmap();
    assert_eq!(
        map.lookup(&ip_to_bits(IpAddr::V4(0x0a00_0001), 32)),
        Some(7)
    );
    assert_eq!(
        map.lookup(&ip_to_bits(IpAddr::V6(0x2001 << 112), 128)),
        Some(4)
    );
}

#[test]
fn routes_to_one_network_are_pooled() {
    let mut table = RouteTable::new();
    table.match_rib_entry(
        &vec![path_attribute(&[1, 3])],
        IpAddr::V4(0x0a00_0000),
        24,
    );
    table.match_rib_entry(
        &vec![path_attribute(&[2, 3])],
        IpAddr::V4(0x0a00_0007),
        24,
    );
    let found = FindBottleneck::find_as_bottleneck(&table);
    assert_eq!(found.lines(), vec!["10.0.0.0/24 AS3"]);
}

#[test]
fn masks_wider_than_their_address_do_not_fit() {
    let found = FindBottleneck {
        prefix_asn: vec![(
            RoutingPrefix {
                ip: IpAddr::V4(0),
                mask: 33,
            },
            1,
        )],
    };
    assert!(!found.masks_fit());
}

#[test]
fn collectors_have_numbers_of_two_digits() {
    assert_eq!(collector_url(3), "http://data.ris.ripe.net/rrc03/latest-bview.gz");
    assert_eq!(collector_url(18), "http://data.ris.ripe.net/rrc18/latest-bview.gz");
    assert_eq!(collector_file(100), "rrc100-latest-bview.gz");
    assert_eq!(collector_targets(&vec![5, 1]), vec![5, 1]);
    assert_eq!(collector_targets(&vec![]), (0..25).collect::<Vec<u32>>());
}

#[test]
fn routing_prefixes_are_masked() {
    let prefix = RoutingPrefix::parse("10.1.2.3/8").unwrap();
    assert_eq!(prefix.to_text(), "10.0.0.0/8");
    assert_eq!(
        RoutingPrefix::parse("10.1.2.3/64").unwrap().to_text(),
        "10.1.2.3/64"
    );
    assert_eq!(
        RoutingPrefix::canonicalized(IpAddr::V6(u128::MAX), 0).to_text(),
        "::/0"
    );
    let errors = [
        (
            "10.0.0.0",
            RoutingPrefixError::NoSlash {
                text: "10.0.0.0".to_string(),
            },
            "invalid prefix '10.0.0.0'",
        ),
        (
            "10.0.0/8",
            RoutingPrefixError::Address {
                address: "10.0.0".to_string(),
            },
            "invalid address '10.0.0'",
        ),
        (
            "10.0.0.0/x",
            RoutingPrefixError::Mask {
                text: "10.0.0.0/x".to_string(),
                source: IntError::InvalidDigit,
            },
            "invalid prefix '10.0.0.0/x'",
        ),
    ];
    for (text, error, message) in errors {
        assert_eq!(error.message(), message);
        assert_eq!(RoutingPrefix::parse(text), Err(error));
    }
}

#[test]
fn consensus_prefixes_have_one_text() {
    let read = |text: &str| canonical_consensus_prefix(text).unwrap();
    assert_eq!(
        read("1.2.3.4/24"),
        ("1.2.3.0/24".to_string(), IpAddr::V4(0x0102_0300), 24)
    );
    assert_eq!(
        read("1.2.3.4/8"),
        ("1.0.0.0/8".to_string(), IpAddr::V4(0x0100_0000), 8)
    );
    assert_eq!(read("1.2.3.0/24").0, "1.2.3.0/24");
    assert_eq!(
        read("::ffff:0:0/95"),
        (
            "::fffe:0:0/95".to_string(),
            IpAddr::V6(0xfffe_0000_0000),
            95
        )
    );
    assert_eq!(read("2001:DB8:0:0:0:0:0:1/32").0, "2001:db8::/32");
    for text in [
        "1.2.3.4", "1.2.3.0/33", "::/129", "x/1", "1.2.3.4/-1", "/8",
    ] {
        let error = canonical_consensus_prefix(text).unwrap_err();
        assert_eq!(error.message(), format!("invalid network '{text}'"));
    }
}
