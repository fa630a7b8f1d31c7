use bitcoin_asmap_quorum::consensus::{ConsensusReport, RejectedClaims};
use bitcoin_asmap_quorum::claim::claim_hash;
use bitcoin_asmap_quorum::diff::{
    can_diff, diff_addresses, diff_report, find_moves, group_moves, invalid_address_message,
    select_addresses, AddrInfo, DiffReport, MoveGroup,
};
use bitcoin_asmap_quorum::report::{
    change_lines, check_changes, comparison_summary, empty_map_message, replay, replay_epoch,
    verify_artifact, ReplayError, VerifyError,
};
use bitcoin_asmap_quorum::{
    load_file, ASMap, AsmapClaim, AsmapEntry, ConsensusArtifact, ConsensusEntry,
    ParseNetworkError, QuorumEngine, EPOCH_ABSOLUTE_MAX,
};

fn map(text: &str) -> ASMap {
    load_file(text.as_bytes(), "map").unwrap()
}

fn claim(epoch: u64, sender: &str, entries: &[(&str, u32)]) -> AsmapClaim {
    let entries: Vec<AsmapEntry> = entries
        .iter()
        .map(|(p, asn)| AsmapEntry {
            ip_prefix: p.to_string(),
            asn: *asn,
        })
        .collect();
    AsmapClaim {
        epoch,
        sender_id: sender.to_string(),
        claim_hash: claim_hash(epoch, sender, &entries),
        entries,
    }
}

fn peer() -> String {
    libp2p::PeerId::random().to_string()
}

fn artifact() -> ConsensusArtifact {
    let mut engine = QuorumEngine::new(1, 4, 1_800_000_000);
    assert!(engine.process_claim(claim(4, &peer(), &[("1.2.3.0/24", 64512), ("2.0.0.0/8", 7)])));
    engine.finalize("topic", "me")
}

#[test]
fn a_report_that_holds_verifies() {
    let published = artifact();
    let read = ConsensusReport::from_artifact(&published)
        .into_artifact()
        .unwrap();
    assert_eq!(read.map, published.map);
    assert_eq!(verify_artifact(&read, None), Ok(()));
    assert_eq!(verify_artifact(&read, Some(&published.map)), Ok(()));
}

#[test]
fn a_report_that_does_not_hold_says_why() {
    let mut wrong_map = artifact();
    wrong_map.map = map("9.0.0.0/8 AS1\n");
    let error = verify_artifact(&wrong_map, None).unwrap_err();
    assert_eq!(error, VerifyError::ReportMap);
    assert_eq!(
        error.message(),
        "report map does not match the published consensus entries"
    );

    let good = artifact();
    let error = verify_artifact(&good, Some(&map("9.0.0.0/8 AS1\n"))).unwrap_err();
    assert_eq!(error, VerifyError::MapFile);
    assert_eq!(
        error.message(),
        "binary/text map does not match the report artifact"
    );

    let mut unreadable = artifact();
    unreadable.entries.push(ConsensusEntry {
        ip_prefix: "1.2.3.4/40".to_string(),
        asn: 5,
        votes: 1,
    });
    let error = verify_artifact(&unreadable, None).unwrap_err();
    let unread = ParseNetworkError::Invalid {
        network: "1.2.3.4/40".to_string(),
    };
    assert_eq!(unread.message(), "invalid network '1.2.3.4/40'");
    assert_eq!(
        ConsensusReport::from_artifact(&unreadable).into_artifact(),
        Err(unread)
    );
    assert!(matches!(error, VerifyError::InvalidNetwork(_)));
    assert_eq!(error.message(), "invalid network '1.2.3.4/40'");
}

#[test]
fn comparisons_list_changed_blocks() {
    let left = map("1.0.0.0/8 AS5\n2.0.0.0/8 AS6\n");
    let right = map("1.0.0.0/8 AS7\n2.0.0.0/8 AS6\n9.0.0.0/8 AS1\n");
    let diffs = left.diff(&right);
    assert!(check_changes(&diffs));
    assert_eq!(
        change_lines(&diffs),
        vec!["1.0.0.0/8 AS5 -> AS7", "9.0.0.0/8 AS0 -> AS1"]
    );
    assert_eq!(
        comparison_summary("a.json", "b.json", 2),
        "[+] Compared a.json vs b.json: 2 changed prefix(es)"
    );
    let mut bits = vec![false; 129];
    bits[128] = true;
    assert!(!check_changes(&vec![(bits, 1, 2)]));
}

#[test]
fn replays_start_where_they_are_told() {
    assert_eq!(
        replay_epoch(None, &Vec::new()).unwrap_err().message(),
        "replay input contains no claims"
    );
    let claims = vec![claim(12, &peer(), &[("1.2.3.0/24", 1)])];
    assert_eq!(replay_epoch(None, &claims), Ok(12));
    assert_eq!(replay_epoch(Some(3), &claims), Ok(3));
    let high = EPOCH_ABSOLUTE_MAX + 1;
    assert_eq!(
        replay_epoch(Some(high), &claims).unwrap_err(),
        ReplayError::EpochTooHigh {
            epoch: high,
            requested: true
        }
    );
    assert_eq!(
        replay_epoch(Some(high), &claims).unwrap_err().message(),
        "starting epoch 4102444801 is above the absolute ceiling 4102444800 (from --epoch); \
         refusing to replay"
    );
    let claims = vec![claim(high, &peer(), &[("1.2.3.0/24", 1)])];
    assert_eq!(
        replay_epoch(None, &claims).unwrap_err().message(),
        "starting epoch 4102444801 is above the absolute ceiling 4102444800 (read from the first \
         claim in the file); refusing to replay"
    );
}

#[test]
fn replays_are_reproducible_and_ignore_the_order_of_claims() {
    let claims: Vec<AsmapClaim> = (0..5)
        .map(|i| claim(3, &peer(), &[("1.2.3.0/24", 10 + i % 2), ("4.0.0.0/6", 1)]))
        .collect();
    let first = replay(claims.clone(), 3, None, "t", "l").unwrap();
    let second = replay(claims.clone(), 3, None, "t", "l").unwrap();
    assert_eq!(first, second);
    let mut turned = claims.clone();
    turned.reverse();
    let third = replay(turned, 3, None, "t", "l").unwrap();
    assert_eq!(first.entries, third.entries);
    assert_eq!(first.participants, third.participants);
    assert_eq!(first.map, third.map);
    assert_ne!(first.observations, third.observations);
    assert_eq!(
        first
            .entries
            .iter()
            .map(|e| (e.ip_prefix.as_str(), e.asn, e.votes))
            .collect::<Vec<_>>(),
        vec![("4.0.0.0/6", 1, 5), ("1.2.3.0/24", 10, 3)]
    );
}

#[test]
fn nothing_to_publish_is_explained() {
    let claims = vec![
        claim(3, &peer(), &[("1.2.3.0/24", 1)]),
        claim(3, "nobody", &[("1.2.3.0/24", 1)]),
        claim(3, &peer(), &[]),
        claim(3, &peer(), &[]),
    ];
    let artifact = replay(claims, 2, None, "t", "l").unwrap();
    assert_eq!(artifact.rejected_claims.total(), 3);
    assert_eq!(artifact.rejected_claims.get("empty_claim"), Some(2));
    assert_eq!(artifact.rejected_claims.get("stale_epoch"), None);
    assert_eq!(
        empty_map_message(&artifact, 4, "r.json").unwrap(),
        "replay produced an empty consensus map at epoch 3 from 4 claims (1 accepted, 3 rejected: \
         empty_claim=2, unparsable_sender=1); see r.json for the full ledger. Refusing to report \
         success on an unpublishable map"
    );
    let quiet = replay(vec![claim(3, &peer(), &[("1.2.3.0/24", 1)])], 2, None, "t", "l").unwrap();
    assert_eq!(
        empty_map_message(&quiet, 1, "r.json").unwrap(),
        "replay produced an empty consensus map at epoch 3 from 1 claims (1 accepted, 0 rejected: \
         no claims were rejected, so no prefix reached the threshold); see r.json for the full \
         ledger. Refusing to report success on an unpublishable map"
    );
    let full = replay(vec![claim(3, &peer(), &[("1.2.3.0/24", 1)])], 1, None, "t", "l").unwrap();
    assert_eq!(empty_map_message(&full, 1, "r.json"), None);
}

#[test]
fn rejected_claims_add_up() {
    let rejected = RejectedClaims {
        counts: vec![("a".to_string(), usize::MAX), ("b".to_string(), 1)],
    };
    assert_eq!(rejected.total(), usize::MAX as u128 + 1);
}

#[test]
fn differences_are_listed_and_counted() {
    let left = map("1.0.0.0/8 AS5\n2.0.0.0/8 AS6\n2001:db8::/32 AS9\n");
    let right = map("1.0.0.0/8 AS7\n9.0.0.0/24 AS1\n2001:db8::/32 AS8\n");
    assert!(can_diff(&left, &right, false));
    assert_eq!(
        diff_report(&left, &right, false),
        DiffReport {
            lines: vec![
                "1.0.0.0/8 AS7 # was AS5".to_string(),
                "# 2.0.0.0/8 was AS6".to_string(),
                "9.0.0.0/24 AS1 # was unassigned".to_string(),
                "2001:db8::/32 AS8 # was AS9".to_string(),
            ],
            ipv4_entries: 3,
            ipv4_addresses: 2 * (1 << 24) + 256,
            ipv6_entries: 1,
            ipv6_addresses: 1 << 96,
        }
    );
    let kept = diff_report(&left, &right, true);
    assert_eq!(kept.ipv4_entries, 2);
    assert_eq!(kept.lines.len(), 3);
    assert_eq!(diff_report(&left, &left, false).lines.len(), 0);
}

#[test]
fn moving_addresses_are_grouped() {
    let left = map("1.0.0.0/8 AS5\n2.0.0.0/8 AS6\n");
    let right = map("1.0.0.0/8 AS7\n9.0.0.0/24 AS1\n");
    let list = [
        ("1.2.3.4", "ipv4"),
        ("1.9.9.9", "ipv4"),
        ("2.2.2.2", "ipv4"),
        ("9.0.0.9", "ipv4"),
        ("8.8.8.8", "ipv4"),
        ("abc.onion", "onion"),
        ("2001::1", "ipv6"),
    ]
    .iter()
    .map(|(address, network)| AddrInfo {
        address: address.to_string(),
        network: network.to_string(),
    })
    .collect();
    let addresses = select_addresses(&list);
    assert_eq!(addresses.len(), 6);
    let report = diff_addresses(&left, &right, &addresses, true).unwrap();
    assert_eq!(
        report.lines,
        vec![
            "2 address(es) reassigned from AS5 to AS7: 1.2.3.4, 1.9.9.9",
            "1 address(es) reassigned from unassigned to AS1: 9.0.0.9",
            "1 address(es) reassigned from AS6 to unassigned: 2.2.2.2",
        ]
    );
    assert_eq!(
        diff_addresses(&left, &right, &addresses, false).unwrap().lines[0],
        "2 address(es) reassigned from AS5 to AS7"
    );
    assert_eq!(report.reassigned, 4);
    assert_eq!(report.total, 6);
    assert_eq!(
        (report.migrations, report.assignments, report.unassignments),
        (2, 1, 1)
    );
    let moves = find_moves(&left, &right, &addresses).unwrap();
    assert_eq!(
        group_moves(&moves),
        vec![
            MoveGroup { count: 2, old_asn: 5, new_asn: 7 },
            MoveGroup { count: 1, old_asn: 0, new_asn: 1 },
            MoveGroup { count: 1, old_asn: 6, new_asn: 0 },
        ]
    );
    assert_eq!(
        diff_addresses(&left, &right, &vec!["1.1.1.1".to_string(), "1.1.1".to_string()], true),
        Err("1.1.1".to_string())
    );
    assert_eq!(invalid_address_message("1.1.1"), "invalid address '1.1.1'");
}

#[test]
fn what_everybody_claims_is_what_comes_out() {
    let text = "1.2.3.0/24 AS64512\n2.0.0.0/8 AS7\n2.128.0.0/9 AS8\n2001:db8::/32 AS9\n";
    let state = map(text);
    let claims: Vec<AsmapClaim> = (0..4)
        .map(|_| bitcoin_asmap_quorum::claim::asmap_to_claim(&state, 3, peer()))
        .collect();
    let result = replay(claims, 4, None, "t", "l").unwrap();
    assert_eq!(result.map, state);
    assert!(result.entries.iter().all(|e| e.votes == 4));
}

#[test]
fn votes_are_the_claims_that_count() {
    let twice = peer();
    let claims = vec![
        claim(3, &twice, &[("1.0.0.0/8", 1)]),
        claim(3, &twice, &[("1.0.0.0/8", 1)]),
        claim(3, "nobody", &[("1.0.0.0/8", 1)]),
        claim(3, &peer(), &[("1.0.0.0/8", 1), ("1.5.0.0/8", 1)]),
        claim(2, &peer(), &[("1.0.0.0/8", 1)]),
    ];
    let result = replay(claims, 1, None, "t", "l").unwrap();
    assert_eq!(result.entries.len(), 1);
    assert_eq!(result.entries[0].votes, 2);
    assert_eq!(result.accepted_claims, 2);
    assert_eq!(result.rejected_claims.total(), 3);
}
