use bitcoin_asmap_quorum::{
    ip_to_bits, AsmapClaim, AsmapEntry, ClaimLimits, ConsensusArtifact, IpAddr, QuorumEngine,
};
use sha2::{Digest, Sha256};

const SETTLED_EPOCH: u64 = 7;

const TOPIC: &str = "bitcoin-asmap-quorum";

const LOCAL: &str = "test-local-peer";

fn random_peer() -> String {
    libp2p::PeerId::random().to_string()
}

fn entry(ip_prefix: &str, asn: u32) -> AsmapEntry {
    AsmapEntry {
        ip_prefix: ip_prefix.to_string(),
        asn,
    }
}

/// The hash of a claim, taken over its text: a head of two lines, then one line
/// for each entry in order.
fn hash_of(epoch: u64, sender_id: &str, entries: &[AsmapEntry]) -> String {
    let mut entries = entries.to_vec();
    entries.sort_by(|a, b| {
        a.ip_prefix
            .cmp(&b.ip_prefix)
            .then_with(|| a.asn.cmp(&b.asn))
    });

    let mut bytes = Vec::new();
    bytes.extend_from_slice(format!("epoch={epoch}\nsender={sender_id}\n").as_bytes());
    for entry in &entries {
        bytes.extend_from_slice(format!("{}|{}\n", entry.ip_prefix, entry.asn).as_bytes());
    }

    let mut hasher = Sha256::new();
    hasher.update(bytes);
    hex::encode(hasher.finalize())
}

fn claim(epoch: u64, sender_id: &str, entries: Vec<AsmapEntry>) -> AsmapClaim {
    let claim_hash = hash_of(epoch, sender_id, &entries);
    AsmapClaim {
        epoch,
        sender_id: sender_id.to_string(),
        claim_hash,
        entries,
    }
}

fn claim_from_new_peer(epoch: u64, entries: Vec<AsmapEntry>) -> (String, AsmapClaim) {
    let peer = random_peer();
    let claim = claim(epoch, &peer, entries);
    (peer, claim)
}

fn run_round(threshold: usize, bodies: Vec<Vec<(&str, u32)>>) -> (ConsensusArtifact, Vec<bool>) {
    let mut engine = QuorumEngine::with_limits(threshold, SETTLED_EPOCH, ClaimLimits::default());
    let mut returns = Vec::new();
    for body in bodies {
        let entries = body.into_iter().map(|(p, a)| entry(p, a)).collect();
        let (source, c) = claim_from_new_peer(SETTLED_EPOCH, entries);
        returns.push(engine.process_claim_from_peer(c, &source));
    }
    (engine.finalize(TOPIC, LOCAL), returns)
}

fn triples(artifact: &ConsensusArtifact) -> Vec<(String, u32, usize)> {
    artifact
        .entries
        .iter()
        .map(|e| (e.ip_prefix.clone(), e.asn, e.votes))
        .collect()
}

fn lookup(artifact: &ConsensusArtifact, prefix: &str) -> Option<u32> {
    let (addr, len) = prefix.split_once('/').expect("prefix needs a length");
    let ip = IpAddr::parse(addr).expect("prefix needs a parsable address");
    artifact.map.lookup(&ip_to_bits(ip, len.parse().unwrap()))
}

fn map_entry_count(artifact: &ConsensusArtifact) -> usize {
    artifact.map.to_entries(false, false).len()
}

#[test]
fn direct_conflict_on_one_prefix_yields_no_consensus_entry() {
    let (artifact, returns) = run_round(2, vec![vec![("1.2.3.0/24", 1)], vec![("1.2.3.0/24", 2)]]);

    assert_eq!(returns, vec![false, true]);
    assert_eq!(artifact.accepted_claims, 2);
    assert_eq!(artifact.participants.len(), 2);
    assert!(artifact.rejected_claims.counts.is_empty());
    assert!(
        artifact.entries.is_empty(),
        "two senders contradicting each other must not produce an entry"
    );
    assert_eq!(map_entry_count(&artifact), 0);
    assert_eq!(lookup(&artifact, "1.2.3.0/24"), Some(0));
}

#[test]
fn a_prefix_only_one_node_reports_never_reaches_the_map() {
    let (artifact, _) = run_round(
        2,
        vec![
            vec![("10.0.0.0/8", 100)],
            vec![("10.0.0.0/8", 100)],
            vec![("10.0.0.0/8", 100), ("192.168.0.0/16", 200)],
        ],
    );

    assert_eq!(triples(&artifact), vec![("10.0.0.0/8".to_string(), 100, 3)]);
    assert_eq!(lookup(&artifact, "10.0.0.0/8"), Some(100));
    assert_eq!(
        lookup(&artifact, "192.168.0.0/16"),
        Some(0),
        "unassigned space reads as ASN 0, never as None"
    );
}

#[test]
fn partial_overlap_keeps_the_shared_prefixes_and_drops_the_rest() {
    let (artifact, _) = run_round(
        2,
        vec![
            vec![("1.0.0.0/8", 1), ("2.0.0.0/8", 2)],
            vec![("1.0.0.0/8", 1), ("3.0.0.0/8", 3)],
            vec![("1.0.0.0/8", 1), ("2.0.0.0/8", 2)],
        ],
    );

    assert_eq!(
        triples(&artifact),
        vec![
            ("1.0.0.0/8".to_string(), 1, 3),
            ("2.0.0.0/8".to_string(), 2, 2),
        ]
    );
    assert_eq!(lookup(&artifact, "3.0.0.0/8"), Some(0));
}

#[test]
fn disjoint_shards_produce_an_empty_consensus_map() {
    let shards = || {
        vec![
            vec![("1.0.0.0/8", 1), ("2.0.0.0/8", 2)],
            vec![("3.0.0.0/8", 3), ("4.0.0.0/8", 4)],
            vec![("5.0.0.0/8", 5), ("6.0.0.0/8", 6)],
        ]
    };

    let (at_one, returns) = run_round(1, shards());
    assert_eq!(returns, vec![true, true, true]);
    assert_eq!(at_one.entries.len(), 6, "union semantics at threshold 1");
    assert_eq!(at_one.accepted_claims, 3);

    for threshold in [2, 3] {
        let (artifact, returns) = run_round(threshold, shards());
        assert_eq!(
            artifact.accepted_claims, 3,
            "every claim is accepted at threshold {threshold}"
        );
        assert!(
            artifact.rejected_claims.counts.is_empty(),
            "nothing is rejected at threshold {threshold}"
        );
        assert!(
            *returns.last().unwrap(),
            "the engine signals quorum at threshold {threshold}"
        );
        assert!(
            artifact.entries.is_empty(),
            "threshold {threshold}: sharded nodes share no prefix, so nothing \
             clears the tally"
        );
        assert_eq!(map_entry_count(&artifact), 0);
    }
}

#[test]
fn exactly_threshold_votes_are_kept_and_threshold_minus_one_is_dropped() {
    let (artifact, _) = run_round(
        3,
        vec![
            vec![("1.0.0.0/8", 1), ("9.0.0.0/8", 9)],
            vec![("1.0.0.0/8", 1), ("9.0.0.0/8", 9)],
            vec![("1.0.0.0/8", 1)],
        ],
    );

    assert_eq!(
        triples(&artifact),
        vec![("1.0.0.0/8".to_string(), 1, 3)],
        "exactly 3 of 3 survives; 2 of 3 does not"
    );
}

#[test]
fn a_tie_above_threshold_is_broken_by_the_lower_asn() {
    let (artifact, _) = run_round(
        2,
        vec![
            vec![("1.2.3.0/24", 777)],
            vec![("1.2.3.0/24", 777)],
            vec![("1.2.3.0/24", 42)],
            vec![("1.2.3.0/24", 42)],
        ],
    );

    assert_eq!(
        triples(&artifact),
        vec![("1.2.3.0/24".to_string(), 42, 2)],
        "one prefix yields one entry, and the tie goes to the lower ASN"
    );
    assert_eq!(lookup(&artifact, "1.2.3.0/24"), Some(42));
}

#[test]
fn a_majority_above_threshold_beats_a_minority_above_threshold() {
    let (artifact, _) = run_round(
        2,
        vec![
            vec![("1.2.3.0/24", 1)],
            vec![("1.2.3.0/24", 1)],
            vec![("1.2.3.0/24", 1)],
            vec![("1.2.3.0/24", 2)],
            vec![("1.2.3.0/24", 2)],
        ],
    );

    assert_eq!(triples(&artifact), vec![("1.2.3.0/24".to_string(), 1, 3)]);
}

#[test]
fn identical_input_in_a_different_order_yields_an_identical_artifact() {
    let bodies = vec![
        vec![("1.0.0.0/8", 1), ("1.2.3.0/24", 2)],
        vec![("1.0.0.0/8", 1), ("1.2.3.0/24", 2)],
        vec![("1.0.0.0/8", 1), ("4.0.0.0/8", 4)],
    ];
    let mut reversed = bodies.clone();
    reversed.reverse();

    let (first, _) = run_round(2, bodies.clone());
    for round in 0..32 {
        let (forwards, _) = run_round(2, bodies.clone());
        let (backwards, _) = run_round(2, reversed.clone());

        assert_eq!(triples(&forwards), triples(&backwards), "round {round}");
        assert_eq!(
            forwards.map.to_binary(false),
            backwards.map.to_binary(false),
            "round {round}: the emitted map must not depend on arrival order"
        );
        assert_eq!(
            first.map.to_binary(false),
            forwards.map.to_binary(false),
            "round {round}: the emitted map must not depend on the run either"
        );
        assert_eq!(lookup(&forwards, "1.2.3.0/24"), Some(2));
        assert_eq!(lookup(&forwards, "1.9.0.0/16"), Some(1));
    }
}

#[test]
fn a_quorum_of_senders_is_not_a_consensus_on_any_prefix() {
    let mut engine = QuorumEngine::with_limits(2, SETTLED_EPOCH, ClaimLimits::default());

    let (source_a, a) = claim_from_new_peer(SETTLED_EPOCH, vec![entry("1.2.3.0/24", 1)]);
    let (source_b, b) = claim_from_new_peer(SETTLED_EPOCH, vec![entry("1.2.3.0/24", 2)]);

    assert!(!engine.process_claim_from_peer(a, &source_a));
    let quorum_reached = engine.process_claim_from_peer(b, &source_b);

    assert!(quorum_reached, "the threshold counts senders");
    let artifact = engine.finalize(TOPIC, LOCAL);
    assert!(
        artifact.entries.is_empty(),
        "...and says nothing about whether they agreed"
    );
    assert_eq!(map_entry_count(&artifact), 0);
}

#[test]
fn threshold_zero_accepts_everything_from_nobody() {
    let mut engine = QuorumEngine::with_limits(0, SETTLED_EPOCH, ClaimLimits::default());

    let empty = engine.finalize(TOPIC, LOCAL);
    assert_eq!(empty.accepted_claims, 0);
    assert!(empty.participants.is_empty());

    let (source, c) = claim_from_new_peer(SETTLED_EPOCH, vec![entry("1.2.3.0/24", 64512)]);
    assert!(
        engine.process_claim_from_peer(c, &source),
        "quorum is signalled by the very first claim"
    );

    let artifact = engine.finalize(TOPIC, LOCAL);
    assert_eq!(
        triples(&artifact),
        vec![("1.2.3.0/24".to_string(), 64512, 1)],
        "a single unchallenged vote becomes consensus"
    );
}

#[test]
fn nested_prefixes_from_agreeing_senders_resolve_most_specific_first() {
    let (artifact, _) = run_round(
        2,
        vec![
            vec![("1.0.0.0/8", 1), ("1.2.3.0/24", 2)],
            vec![("1.0.0.0/8", 1), ("1.2.3.0/24", 2)],
        ],
    );

    assert_eq!(artifact.entries.len(), 2);
    assert_eq!(lookup(&artifact, "1.2.3.0/24"), Some(2));
    assert_eq!(lookup(&artifact, "1.2.4.0/24"), Some(1));
    assert_eq!(lookup(&artifact, "1.9.0.0/16"), Some(1));
    assert_eq!(lookup(&artifact, "2.0.0.0/8"), Some(0));
}

#[test]
fn one_sender_repeating_a_prefix_cannot_manufacture_a_quorum() {
    let (artifact, returns) = run_round(
        2,
        vec![vec![
            ("1.2.3.0/24", 1),
            ("1.2.3.0/24", 1),
            ("1.2.3.0/24", 1),
        ]],
    );

    assert_eq!(returns, vec![false]);
    assert_eq!(artifact.accepted_claims, 1);
    assert!(artifact.rejected_claims.counts.is_empty());
    assert!(artifact.entries.is_empty());
    assert_eq!(map_entry_count(&artifact), 0);
}
