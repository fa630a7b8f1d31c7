use std::collections::HashSet;

use bitcoin_asmap_quorum::consensus::{ConsensusReport, RejectedClaims};
use bitcoin_asmap_quorum::node::quorum_from_gossip;
use bitcoin_asmap_quorum::{
    ip_to_bits, parse_network_prefix, ASMap, AsmapClaim, AsmapEntry, ClaimLimits,
    ClaimObservation, ConsensusEntry, IpAddr, QuorumEngine, ASN_MAX, CLAIM_HASH_LEN,
    EPOCH_ABSOLUTE_MAX, MAX_CLAIM_BYTES, MAX_CLAIM_ENTRIES, MAX_EPOCH_SKEW, MAX_PREFIX_LEN,
    MAX_SENDER_ID_LEN,
};
use sha2::{Digest, Sha256};

const NOW: u64 = 1_800_000_000;

const TOPIC: &str = "bitcoin-asmap-quorum";

const LOCAL: &str = "test-local-peer";

fn random_peer() -> String {
    libp2p::PeerId::random().to_string()
}

fn entry(ip_prefix: &str, asn: u32) -> AsmapEntry {
    AsmapEntry {
        ip_prefix: ip_prefix.to_string(),
        asn,
    }
}

/// The hash of a claim, taken over its text: a head of two lines, then one line
/// for each entry in order.
fn hash_of(epoch: u64, sender_id: &str, entries: &[AsmapEntry]) -> String {
    let mut entries = entries.to_vec();
    entries.sort_by(|a, b| {
        a.ip_prefix
            .cmp(&b.ip_prefix)
            .then_with(|| a.asn.cmp(&b.asn))
    });

    let mut bytes = Vec::new();
    bytes.extend_from_slice(format!("epoch={epoch}\nsender={sender_id}\n").as_bytes());
    for entry in &entries {
        bytes.extend_from_slice(format!("{}|{}\n", entry.ip_prefix, entry.asn).as_bytes());
    }

    let mut hasher = Sha256::new();
    hasher.update(bytes);
    hex::encode(hasher.finalize())
}

fn claim(epoch: u64, sender_id: &str, entries: Vec<AsmapEntry>) -> AsmapClaim {
    let claim_hash = hash_of(epoch, sender_id, &entries);
    AsmapClaim {
        epoch,
        sender_id: sender_id.to_string(),
        claim_hash,
        entries,
    }
}

fn make_claim(epoch: u64, sender_id: String, entries: Vec<AsmapEntry>) -> AsmapClaim {
    claim(epoch, &sender_id, entries)
}

fn rejected(engine: &QuorumEngine, reason: &str) -> Option<usize> {
    engine.finalize(TOPIC, LOCAL).rejected_claims.get(reason)
}

fn accepted(engine: &QuorumEngine) -> usize {
    engine.finalize(TOPIC, LOCAL).accepted_claims
}

fn observations(engine: &QuorumEngine) -> Vec<ClaimObservation> {
    engine.finalize(TOPIC, LOCAL).observations
}

fn participants(engine: &QuorumEngine) -> Vec<String> {
    engine.finalize(TOPIC, LOCAL).participants
}

#[test]
fn lib_quorum_engine_dedupes_sender() {
    let mut engine = QuorumEngine::new(2, 7, NOW);
    let claim = make_claim(
        7,
        random_peer(),
        vec![AsmapEntry {
            ip_prefix: "1.2.3.0/24".to_string(),
            asn: 64512,
        }],
    );

    assert!(!engine.process_claim(claim.clone()));
    assert!(!engine.process_claim(claim));
    assert_eq!(rejected(&engine, "duplicate_sender"), Some(1));
    assert_eq!(accepted(&engine), 1);
}

#[test]
fn lib_quorum_engine_finalizes_consensus() {
    let mut engine = QuorumEngine::new(2, 7, NOW);
    let peer_a = random_peer();
    let peer_b = random_peer();
    let claim_a = make_claim(
        7,
        peer_a.clone(),
        vec![AsmapEntry {
            ip_prefix: "1.2.3.0/24".to_string(),
            asn: 64512,
        }],
    );
    let claim_b = make_claim(
        7,
        peer_b.clone(),
        vec![AsmapEntry {
            ip_prefix: "1.2.3.0/24".to_string(),
            asn: 64512,
        }],
    );

    assert!(!engine.process_claim(claim_a));
    assert!(engine.process_claim(claim_b));
    let consensus = engine.finalize("bitcoin-asmap-quorum", &peer_a);
    assert_eq!(consensus.epoch, 7);
    assert_eq!(consensus.topic, "bitcoin-asmap-quorum");
    assert_eq!(consensus.threshold, 2);
    assert_eq!(consensus.local_peer_id, peer_a.clone());
    assert_eq!(consensus.accepted_claims, 2);
    assert!(consensus.rejected_claims.counts.is_empty());
    assert_eq!(consensus.entries.len(), 1);
    assert_eq!(
        consensus
            .map
            .lookup(&ip_to_bits(IpAddr::parse("1.2.3.0").unwrap(), 24)),
        Some(64512)
    );
}

#[test]
fn lib_quorum_engine_rejects_stale_epochs() {
    let mut engine = QuorumEngine::new(2, 7, NOW);
    let stale = make_claim(
        6,
        random_peer(),
        vec![AsmapEntry {
            ip_prefix: "1.2.3.0/24".to_string(),
            asn: 64512,
        }],
    );
    assert!(!engine.process_claim(stale));
    assert_eq!(engine.epoch(), 7);
    assert_eq!(rejected(&engine, "stale_epoch"), Some(1));
}

#[test]
fn lib_quorum_engine_rejects_source_mismatch() {
    let mut engine = QuorumEngine::new(2, 7, NOW);
    let source = random_peer();
    let claim = make_claim(
        7,
        source.clone(),
        vec![AsmapEntry {
            ip_prefix: "1.2.3.0/24".to_string(),
            asn: 64512,
        }],
    );
    let other_source = random_peer();
    assert!(!engine.process_claim_from_peer(claim, &other_source));
    assert_eq!(rejected(&engine, "source_mismatch"), Some(1));
    assert!(observations(&engine).is_empty());
}

#[test]
fn lib_report_verifier_rebuilds_map() {
    let claim = make_claim(
        7,
        random_peer(),
        vec![AsmapEntry {
            ip_prefix: "1.2.3.0/24".to_string(),
            asn: 64512,
        }],
    );
    let mut engine = QuorumEngine::new(1, 7, NOW);
    assert!(engine.process_claim(claim));
    let artifact = engine.finalize("bitcoin-asmap-quorum", &random_peer());
    let rebuilt = {
        let mut state = ASMap::new();
        let entries = artifact
            .entries
            .iter()
            .map(|entry| {
                let (ip, prefix_len) =
                    parse_network_prefix(&entry.ip_prefix).unwrap();
                (ip_to_bits(ip, prefix_len), entry.asn)
            })
            .collect::<Vec<_>>();
        state.update_multi(entries);
        state
    };
    assert_eq!(rebuilt, artifact.map);
}

#[test]
fn non_canonical_claim_prefix_is_normalized_and_stays_verifiable() {
    let sender = random_peer();
    let claim = make_claim(
        7,
        sender.clone(),
        vec![AsmapEntry {
            ip_prefix: "1.2.3.4/8".to_string(),
            asn: 64512,
        }],
    );
    let mut engine = QuorumEngine::new(1, 7, NOW);
    assert!(engine.process_claim(claim));
    let artifact = engine.finalize("bitcoin-asmap-quorum", &random_peer());
    assert_eq!(artifact.entries.len(), 1);
    assert_eq!(artifact.entries[0].ip_prefix, "1.0.0.0/8");
    let round_trip = ConsensusReport::from_artifact(&artifact).into_artifact().unwrap();
    assert_eq!(round_trip.map, artifact.map);
    assert!(!artifact.map.to_entries(false, false).is_empty());
}

#[test]
fn claim_validation_rejects_invalid_prefix() {
    let sender = random_peer();
    let claim = make_claim(
        7,
        sender.clone(),
        vec![
            AsmapEntry {
                ip_prefix: "not-a-network".to_string(),
                asn: 7,
            },
            AsmapEntry {
                ip_prefix: "10.0.0.0/8".to_string(),
                asn: 9,
            },
        ],
    );
    let mut engine = QuorumEngine::new(1, 7, NOW);
    assert!(!engine.process_claim(claim));
    assert_eq!(rejected(&engine, "invalid_prefix"), Some(1));
    let artifact = engine.finalize("bitcoin-asmap-quorum", &random_peer());
    assert!(artifact.entries.is_empty());
    assert_eq!(artifact.accepted_claims, 0);
    assert!(artifact.participants.is_empty());
}

fn valid_claim(epoch: u64, entries: Vec<AsmapEntry>) -> AsmapClaim {
    make_claim(epoch, random_peer(), entries)
}

fn assert_rejected(engine: &mut QuorumEngine, claim: AsmapClaim, reason: &str) {
    assert!(!engine.process_claim(claim), "claim should be rejected");
    assert_eq!(
        rejected(engine, reason),
        Some(1),
        "expected rejection reason {reason}"
    );
}

#[test]
fn claim_validation_rejects_epoch_out_of_range() {
    let mut engine = QuorumEngine::new(1, 7, NOW);
    let claim = valid_claim(u64::MAX, vec![entry("1.2.3.0/24", 64512)]);
    assert_rejected(&mut engine, claim, "epoch_out_of_range");
    assert_eq!(engine.epoch(), 7);
}

#[test]
fn claim_validation_rejects_epoch_jump_too_large() {
    let mut engine = QuorumEngine::new(1, 1_772_726_400, NOW);
    let claim = valid_claim(
        1_772_726_400 + MAX_EPOCH_SKEW + 1,
        vec![entry("1.2.3.0/24", 64512)],
    );
    assert_rejected(&mut engine, claim, "epoch_jump_too_large");
    assert_eq!(engine.epoch(), 1_772_726_400);
}

#[test]
fn claim_validation_still_allows_catch_up_within_the_skew_window() {
    let mut engine = QuorumEngine::new(1, 7, NOW);
    let claim = valid_claim(7 + MAX_EPOCH_SKEW, vec![entry("1.2.3.0/24", 64512)]);
    assert!(engine.process_claim(claim));
    assert_eq!(engine.epoch(), 7 + MAX_EPOCH_SKEW);
}

#[test]
fn epoch_ceiling_is_injected_rather_than_read_from_the_clock() {
    let limits = ClaimLimits::at_unix_time(1_772_726_400);
    assert_eq!(limits.max_epoch, 1_772_726_400 + MAX_EPOCH_SKEW);
    let engine = QuorumEngine::with_limits(1, 7, limits);
    assert_eq!(engine.limits().max_epoch, 1_772_726_400 + MAX_EPOCH_SKEW);
    assert_eq!(ClaimLimits::default().max_epoch, EPOCH_ABSOLUTE_MAX);
}

#[test]
fn claim_driven_advance_does_not_ratchet_the_epoch_ceiling() {
    let limits = ClaimLimits::at_unix_time(1_772_726_400);
    let mut engine = QuorumEngine::with_limits(1, 1_772_726_400, limits);
    let ceiling = engine.limits().max_epoch;
    let claim = valid_claim(ceiling, vec![entry("1.2.3.0/24", 64512)]);
    assert!(engine.process_claim(claim));
    assert_eq!(engine.epoch(), ceiling);
    assert_eq!(engine.limits().max_epoch, ceiling);
    engine.advance_epoch(ceiling + 1);
    assert_eq!(engine.limits().max_epoch, ceiling + 1 + MAX_EPOCH_SKEW);
}

#[test]
fn claim_validation_rejects_malformed_claim_hash() {
    let mut engine = QuorumEngine::new(1, 7, NOW);
    let mut claim = valid_claim(7, vec![entry("1.2.3.0/24", 64512)]);
    claim.claim_hash = "not-a-digest".to_string();
    assert_rejected(&mut engine, claim, "malformed_claim_hash");

    let mut engine = QuorumEngine::new(1, 7, NOW);
    let mut claim = valid_claim(7, vec![entry("1.2.3.0/24", 64512)]);
    claim.claim_hash = claim.claim_hash.to_uppercase();
    assert_rejected(&mut engine, claim, "malformed_claim_hash");
}

#[test]
fn claim_validation_rejects_claim_hash_mismatch() {
    let mut engine = QuorumEngine::new(1, 7, NOW);
    let mut claim = valid_claim(7, vec![entry("1.2.3.0/24", 64512)]);
    claim.claim_hash = "0".repeat(CLAIM_HASH_LEN);
    assert_rejected(&mut engine, claim, "claim_hash_mismatch");
    assert_eq!(observations(&engine).len(), 1);
    assert_eq!(
        observations(&engine)[0].claim_hash,
        "0".repeat(CLAIM_HASH_LEN)
    );
}

#[test]
fn claim_validation_rejects_empty_claim() {
    let mut engine = QuorumEngine::new(1, 7, NOW);
    let claim = valid_claim(7, Vec::new());
    assert_rejected(&mut engine, claim, "empty_claim");
}

#[test]
fn claim_validation_rejects_too_many_entries() {
    let limits = ClaimLimits {
        max_entries: 2,
        ..ClaimLimits::default()
    };
    let mut engine = QuorumEngine::with_limits(1, 7, limits);
    let claim = valid_claim(
        7,
        vec![
            entry("1.2.3.0/24", 1),
            entry("2.3.4.0/24", 2),
            entry("3.4.5.0/24", 3),
        ],
    );
    assert_rejected(&mut engine, claim, "too_many_entries");
    assert_eq!(ClaimLimits::default().max_entries, MAX_CLAIM_ENTRIES);
}

#[test]
fn claim_validation_rejects_invalid_sender_id() {
    let mut engine = QuorumEngine::new(1, 7, NOW);
    let claim = make_claim(
        7,
        "z".repeat(MAX_SENDER_ID_LEN + 1),
        vec![entry("1.2.3.0/24", 64512)],
    );
    assert_rejected(&mut engine, claim, "invalid_sender_id");
    assert!(observations(&engine).is_empty());
}

#[test]
fn claim_validation_rejects_unparsable_sender() {
    let mut engine = QuorumEngine::new(1, 7, NOW);
    let claim = make_claim(7, "peer-a".to_string(), vec![entry("1.2.3.0/24", 64512)]);
    assert_rejected(&mut engine, claim, "unparsable_sender");
}

#[test]
fn claim_validation_rejects_asn_out_of_range() {
    let mut engine = QuorumEngine::new(1, 7, NOW);
    let claim = valid_claim(7, vec![entry("1.2.3.0/24", 4_200_000_000)]);
    assert_rejected(&mut engine, claim, "asn_out_of_range");

    let mut engine = QuorumEngine::new(1, 7, NOW);
    let claim = valid_claim(7, vec![entry("1.2.3.0/24", ASN_MAX + 1)]);
    assert_rejected(&mut engine, claim, "asn_out_of_range");
}

#[test]
fn accepted_asns_always_encode() {
    let mut engine = QuorumEngine::new(1, 7, NOW);
    assert!(engine.process_claim(valid_claim(7, vec![entry("1.2.3.0/24", ASN_MAX)])));
    let artifact = engine.finalize("bitcoin-asmap-quorum", "offline-replay");
    assert_eq!(artifact.entries.len(), 1);
    assert!(!artifact.map.to_binary(false).is_empty());
}

#[test]
fn claim_validation_rejects_unassigned_asn() {
    let mut engine = QuorumEngine::new(1, 7, NOW);
    let claim = valid_claim(7, vec![entry("1.0.0.0/8", 100), entry("1.2.3.0/24", 0)]);
    assert_rejected(&mut engine, claim, "unassigned_asn");
    assert!(
        engine
            .finalize("bitcoin-asmap-quorum", "offline-replay")
            .entries
            .is_empty()
    );
}

#[test]
fn claim_validation_rejects_ipv4_mapped_prefix() {
    let mut engine = QuorumEngine::new(1, 7, NOW);
    let claim = valid_claim(
        7,
        vec![entry("1.2.3.0/24", 100), entry("::ffff:1.2.3.0/120", 200)],
    );
    assert_rejected(&mut engine, claim, "ipv4_mapped_prefix");
}

#[test]
fn consensus_output_is_byte_identical_across_runs() {
    let sender = random_peer();
    let entries = vec![
        entry("1.2.3.0/24", 100),
        entry("10.0.0.0/8", 200),
        entry("2001:db8::/32", 300),
    ];
    let mut outputs = HashSet::new();
    for _ in 0..10 {
        let mut engine = QuorumEngine::with_limits(1, 7, ClaimLimits::default());
        assert!(engine.process_claim(make_claim(7, sender.clone(), entries.clone())));
        let artifact = engine.finalize("bitcoin-asmap-quorum", "offline-replay");
        outputs.insert(artifact.map.to_binary(false));
    }
    assert_eq!(outputs.len(), 1);
}

#[test]
fn claim_validation_rejects_default_route_prefix() {
    for spelling in ["::/0", "0.0.0.0/0"] {
        let mut engine = QuorumEngine::new(1, 7, NOW);
        let claim = valid_claim(7, vec![entry(spelling, 666)]);
        assert_rejected(&mut engine, claim, "default_route_prefix");
        assert!(
            engine
                .finalize("bitcoin-asmap-quorum", "offline-replay")
                .entries
                .is_empty()
        );
    }
}

#[test]
fn claim_validation_rejects_ipv6_text_above_the_mapped_range() {
    for spelling in ["::/1", "::/80", "::ffff:0:0/95", "::ffff:0:0/96"] {
        let mut engine = QuorumEngine::new(1, 7, NOW);
        let claim = valid_claim(7, vec![entry(spelling, 666)]);
        assert_rejected(&mut engine, claim, "ipv4_mapped_prefix");
    }
}

#[test]
fn claim_validation_keeps_the_shortest_real_world_prefixes() {
    let mut engine = QuorumEngine::new(1, 7, NOW);
    let claim = valid_claim(
        7,
        vec![
            entry("224.0.0.0/3", 16509),
            entry("1000::/4", 16509),
            entry("8000::/1", 140810),
        ],
    );
    assert!(engine.process_claim(claim));
    assert_eq!(
        engine
            .finalize("bitcoin-asmap-quorum", "offline-replay")
            .entries
            .len(),
        3
    );
}

#[test]
fn claim_validation_rejects_conflicting_entry() {
    let mut engine = QuorumEngine::new(1, 7, NOW);
    let claim = valid_claim(7, vec![entry("1.2.3.0/24", 100), entry("1.2.3.4/24", 200)]);
    assert_rejected(&mut engine, claim, "conflicting_entry");
}

#[test]
fn repeated_identical_entries_are_deduped_not_rejected() {
    let mut engine = QuorumEngine::new(1, 7, NOW);
    let claim = valid_claim(7, vec![entry("1.2.3.0/24", 100), entry("1.2.3.4/24", 100)]);
    assert!(engine.process_claim(claim));
    let artifact = engine.finalize("bitcoin-asmap-quorum", "offline-replay");
    assert_eq!(artifact.entries.len(), 1);
    assert_eq!(artifact.entries[0].votes, 1);
}

#[test]
fn claim_validation_rejects_sender_limit_exceeded() {
    let limits = ClaimLimits {
        max_senders: 1,
        ..ClaimLimits::default()
    };
    let mut engine = QuorumEngine::with_limits(1, 7, limits);
    assert!(engine.process_claim(valid_claim(7, vec![entry("1.2.3.0/24", 100)])));
    let second = valid_claim(7, vec![entry("1.2.3.0/24", 100)]);
    assert_rejected(&mut engine, second, "sender_limit_exceeded");
    assert_eq!(participants(&engine).len(), 1);
}

#[test]
fn gossip_envelope_failures_are_counted_not_swallowed() {
    let mut engine = QuorumEngine::new(1, 7, NOW);
    let source = random_peer();
    assert!(!quorum_from_gossip(
        &mut engine,
        MAX_CLAIM_BYTES + 1,
        None,
        &source
    ));
    assert!(!quorum_from_gossip(
        &mut engine,
        b"{not json".len(),
        None,
        &source
    ));
    assert_eq!(rejected(&engine, "oversize_claim"), Some(1));
    assert_eq!(rejected(&engine, "malformed_claim"), Some(1));
}

#[test]
fn rejection_observations_are_capped_but_still_counted() {
    let limits = ClaimLimits {
        max_rejection_observations: 2,
        ..ClaimLimits::default()
    };
    let mut engine = QuorumEngine::with_limits(1, 7, limits);
    for _ in 0..5 {
        let mut claim = valid_claim(7, vec![entry("1.2.3.0/24", 100)]);
        claim.claim_hash = "0".repeat(CLAIM_HASH_LEN);
        assert!(!engine.process_claim(claim));
    }
    assert_eq!(observations(&engine).len(), 2);
    assert_eq!(rejected(&engine, "claim_hash_mismatch"), Some(5));
}

#[test]
fn lib_every_claim_is_accounted_for_exactly_once() {
    let mut engine = QuorumEngine::new(2, 7, NOW);
    let mut claims = vec![
        valid_claim(7, vec![entry("1.2.3.0/24", 100)]),
        valid_claim(7, vec![entry("1.2.3.0/24", 100)]),
        valid_claim(7, Vec::new()),
        valid_claim(7, vec![entry("::/0", 1)]),
        valid_claim(7, vec![entry("1.2.3.0/24", 0)]),
        valid_claim(6, vec![entry("1.2.3.0/24", 100)]),
        make_claim(7, "peer-a".to_string(), vec![entry("1.2.3.0/24", 100)]),
    ];
    let total = claims.len();
    let mut broken = valid_claim(7, vec![entry("1.2.3.0/24", 100)]);
    broken.claim_hash = "0".repeat(CLAIM_HASH_LEN);
    claims.push(broken);

    for claim in claims {
        let _ = engine.process_claim(claim);
    }
    let artifact = engine.finalize("bitcoin-asmap-quorum", "offline-replay");
    let rejected: usize = artifact.rejected_claims.counts.iter().map(|(_, n)| n).sum();
    assert_eq!(artifact.accepted_claims + rejected, total + 1);
    assert_eq!(artifact.accepted_claims, 2);
}

#[test]
fn rejected_claims_never_mutate_engine_state() {
    let mut engine = QuorumEngine::new(2, 1, NOW);
    // A second engine that publishes whatever has a vote at all.
    let mut open = QuorumEngine::new(1, 1, NOW);
    let first = valid_claim(1, vec![entry("1.2.3.0/24", 100)]);
    let second = valid_claim(1, vec![entry("1.2.3.0/24", 100)]);
    assert!(!engine.process_claim(first.clone()));
    assert!(engine.process_claim(second.clone()));
    assert!(open.process_claim(first));
    assert!(open.process_claim(second));
    let baseline_votes = open.finalize(TOPIC, LOCAL).entries;
    assert_eq!(baseline_votes.len(), 1);
    assert_eq!(baseline_votes[0].votes, 2);
    let baseline_entries = engine.finalize(TOPIC, LOCAL).entries;
    let baseline_senders = participants(&engine);
    let mut hostile = vec![valid_claim(u64::MAX, vec![entry("1.2.3.0/24", 100)])];
    let mut broken = valid_claim(2, vec![entry("1.2.3.0/24", 100)]);
    broken.claim_hash = "0".repeat(CLAIM_HASH_LEN);
    hostile.push(broken);
    hostile.push(valid_claim(2, vec![entry("1.2.3.0/24", 0)]));

    for claim in hostile {
        assert!(!open.process_claim(claim.clone()));
        assert_eq!(open.finalize(TOPIC, LOCAL).entries, baseline_votes);
        assert!(!engine.process_claim(claim));
        assert_eq!(engine.epoch(), 1, "a rejected claim moved the epoch");
        assert_eq!(engine.finalize(TOPIC, LOCAL).entries, baseline_entries);
        assert_eq!(participants(&engine), baseline_senders);
        assert_eq!(accepted(&engine), 2);
    }

    let artifact = engine.finalize("bitcoin-asmap-quorum", "offline-replay");
    assert_eq!(artifact.epoch, 1);
    assert_eq!(artifact.accepted_claims, 2);
    assert_eq!(artifact.entries.len(), 1);
}

#[test]
fn claim_validation_rejects_oversize_prefix_text() {
    let sender = random_peer();
    let claim = make_claim(
        7,
        sender.clone(),
        vec![AsmapEntry {
            ip_prefix: format!("10.0.0.0/8{}", " ".repeat(MAX_PREFIX_LEN)),
            asn: 9,
        }],
    );
    let mut engine = QuorumEngine::new(1, 7, NOW);
    assert!(!engine.process_claim(claim));
    assert_eq!(rejected(&engine, "invalid_prefix"), Some(1));
}

#[test]
fn one_sender_cannot_double_vote_the_same_prefix() {
    let sender = random_peer();
    let claim = make_claim(
        7,
        sender.clone(),
        vec![
            AsmapEntry {
                ip_prefix: "1.2.3.4/8".to_string(),
                asn: 64512,
            },
            AsmapEntry {
                ip_prefix: "1.0.0.0/8".to_string(),
                asn: 64512,
            },
        ],
    );
    let mut engine = QuorumEngine::new(2, 7, NOW);
    assert!(!engine.process_claim(claim));
    let artifact = engine.finalize("bitcoin-asmap-quorum", &random_peer());
    assert!(artifact.entries.is_empty());
}

#[test]
fn v0_0_8_report_with_host_bits_still_loads() {
    let report = ConsensusReport {
        epoch: 7,
        topic: "bitcoin-asmap-quorum".to_string(),
        local_peer_id: "offline-replay".to_string(),
        threshold: 1,
        participants: Vec::new(),
        accepted_claims: 1,
        rejected_claims: RejectedClaims { counts: Vec::new() },
        entries: vec![ConsensusEntry {
            ip_prefix: "1.2.3.4/8".to_string(),
            asn: 64512,
            votes: 1,
        }],
        observations: Vec::new(),
    };
    let artifact = report.into_artifact().expect("the report must load");
    let mut expected = ASMap::new();
    expected.update_multi(vec![(ip_to_bits(IpAddr::parse("1.0.0.0").unwrap(), 8), 64512u32)]);
    assert_eq!(artifact.map, expected);
}

#[test]
fn a_rejected_claim_leaves_the_result_and_moves_one_counter() {
    let mut engine = QuorumEngine::new(1, 7, NOW);
    let (a, b) = (random_peer(), random_peer());
    let good = vec![entry("9.0.0.0/8", 3)];
    assert!(engine.process_claim_from_peer(claim(7, &a, good.clone()), &a));

    let mut forged = claim(7, &b, good.clone());
    forged.claim_hash = "0".repeat(CLAIM_HASH_LEN);
    let cases = [
        (claim(7, &b, Vec::new()), &b, "empty_claim"),
        (claim(7, &b, good.clone()), &a, "source_mismatch"),
        (forged, &b, "claim_hash_mismatch"),
        (claim(6, &b, good.clone()), &b, "stale_epoch"),
        (claim(7, &b, vec![entry("9.0.0.0/8", 0)]), &b, "unassigned_asn"),
        (claim(7, &a, good), &a, "duplicate_sender"),
    ];
    for (bad, source, reason) in cases {
        let before = engine.finalize(TOPIC, LOCAL);
        assert!(!engine.process_claim_from_peer(bad, source), "{}", reason);
        let after = engine.finalize(TOPIC, LOCAL);
        assert_eq!(after.epoch, before.epoch);
        assert_eq!(after.participants, before.participants);
        assert_eq!(after.accepted_claims, before.accepted_claims);
        assert_eq!(after.entries, before.entries);
        assert_eq!(after.map, before.map);
        assert_eq!(before.rejected_claims.get(reason), None);
        assert_eq!(after.rejected_claims.get(reason), Some(1));
        assert_eq!(after.rejected_claims.total(), before.rejected_claims.total() + 1);
    }
}

#[test]
fn the_record_of_rejections_is_full_once_one_is_left_out() {
    let limits = ClaimLimits {
        max_rejection_observations: 2,
        ..ClaimLimits::default()
    };
    let mut engine = QuorumEngine::with_limits(2, 7, limits);
    for n in 0..4 {
        assert_eq!(engine.log_full(), n > 2);
        let stale = valid_claim(6, vec![entry("1.2.3.0/24", 100)]);
        assert!(!engine.process_claim(stale));
    }
    assert!(engine.log_full());
    assert_eq!(observations(&engine).len(), 2);
    assert_eq!(rejected(&engine, "stale_epoch"), Some(4));
    engine.advance_epoch(8);
    assert!(!engine.log_full());
}
