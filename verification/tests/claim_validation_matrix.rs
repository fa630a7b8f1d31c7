use std::collections::{BTreeMap, BTreeSet};

use bitcoin_asmap_quorum::rules::{Reason, REASONS};
use bitcoin_asmap_quorum::{
    ASMap, AsmapClaim, AsmapEntry, ClaimLimits, ConsensusArtifact, ConsensusEntry, QuorumEngine,
    ASN_MAX, MAX_EPOCH_SKEW, MAX_PREFIX_LEN, MAX_SENDER_ID_LEN,
};
use sha2::{Digest, Sha256};

const TOPIC: &str = "bitcoin-asmap-quorum";

const LOCAL: &str = "test-local-peer";

fn random_peer() -> String {
    libp2p::PeerId::random().to_string()
}

fn entry(ip_prefix: &str, asn: u32) -> AsmapEntry {
    AsmapEntry {
        ip_prefix: ip_prefix.to_string(),
        asn,
    }
}

/// The hash of a claim, taken over its text: a head of two lines, then one line
/// for each entry in order.
fn hash_of(epoch: u64, sender_id: &str, entries: &[AsmapEntry]) -> String {
    let mut entries = entries.to_vec();
    entries.sort_by(|a, b| {
        a.ip_prefix
            .cmp(&b.ip_prefix)
            .then_with(|| a.asn.cmp(&b.asn))
    });

    let mut bytes = Vec::new();
    bytes.extend_from_slice(format!("epoch={epoch}\nsender={sender_id}\n").as_bytes());
    for entry in &entries {
        bytes.extend_from_slice(format!("{}|{}\n", entry.ip_prefix, entry.asn).as_bytes());
    }

    let mut hasher = Sha256::new();
    hasher.update(bytes);
    hex::encode(hasher.finalize())
}

fn claim(epoch: u64, sender_id: &str, entries: Vec<AsmapEntry>) -> AsmapClaim {
    let claim_hash = hash_of(epoch, sender_id, &entries);
    AsmapClaim {
        epoch,
        sender_id: sender_id.to_string(),
        claim_hash,
        entries,
    }
}

fn claim_from_new_peer(epoch: u64, entries: Vec<AsmapEntry>) -> (String, AsmapClaim) {
    let peer = random_peer();
    let claim = claim(epoch, &peer, entries);
    (peer, claim)
}

const SETTLED_EPOCH: u64 = 7;

struct Settled {
    engine: QuorumEngine,
    peers: Vec<String>,
    claims: Vec<AsmapClaim>,
}

/// Two senders that agree on `10.0.0.0/8` and on nothing else, at threshold 2.
fn settled(limits: ClaimLimits) -> Settled {
    let mut engine = QuorumEngine::with_limits(2, SETTLED_EPOCH, limits);

    let (peer_a, claim_a) = claim_from_new_peer(
        SETTLED_EPOCH,
        vec![entry("10.0.0.0/8", 100), entry("2.0.0.0/8", 200)],
    );
    let (peer_b, claim_b) = claim_from_new_peer(
        SETTLED_EPOCH,
        vec![entry("10.0.0.0/8", 100), entry("3.0.0.0/8", 300)],
    );

    assert!(
        !engine.process_claim_from_peer(claim_a.clone(), &peer_a),
        "first of two claims must not yet signal quorum"
    );
    assert!(
        engine.process_claim_from_peer(claim_b.clone(), &peer_b),
        "second claim must reach the threshold of 2"
    );

    let artifact = engine.finalize(TOPIC, LOCAL);
    assert_eq!(
        artifact.accepted_claims, 2,
        "settled engine must be settled"
    );
    assert_eq!(
        artifact.entries.len(),
        1,
        "one prefix should clear threshold"
    );
    assert!(
        artifact.rejected_claims.counts.is_empty(),
        "settled engine must start with a clean rejection ledger"
    );

    Settled {
        engine,
        peers: vec![peer_a, peer_b],
        claims: vec![claim_a, claim_b],
    }
}

fn settled_default() -> Settled {
    settled(ClaimLimits::default())
}

/// What a rejected claim may not change, and the record of rejections.
struct Snapshot {
    epoch: u64,
    shared_state: SharedState,
    rejected_claims: BTreeMap<String, usize>,
    observation_count: usize,
    last_observation_reason: Option<String>,
}

#[derive(Debug, PartialEq)]
struct SharedState {
    epoch: u64,
    topic: String,
    threshold: usize,
    participants: Vec<String>,
    accepted_claims: usize,
    entries: Vec<ConsensusEntry>,
    map: ASMap,
}

fn snapshot(engine: &QuorumEngine) -> Snapshot {
    let artifact = engine.finalize(TOPIC, LOCAL);
    Snapshot {
        epoch: engine.epoch(),
        shared_state: SharedState {
            epoch: artifact.epoch,
            topic: artifact.topic.clone(),
            threshold: artifact.threshold,
            participants: artifact.participants.clone(),
            accepted_claims: artifact.accepted_claims,
            entries: artifact.entries.clone(),
            map: artifact.map.clone(),
        },
        rejected_claims: artifact.rejected_claims.counts.iter().cloned().collect(),
        observation_count: artifact.observations.len(),
        last_observation_reason: artifact.observations.last().map(|o| o.reason.clone()),
    }
}

/// Whether a rejection leaves an observation.
#[derive(Debug, Clone, Copy, PartialEq, Eq)]
enum Record {
    Counted,
    Observed,
}

/// A rejection is counted under one reason, is observed or not, and changes
/// nothing else.
fn assert_rejected(
    engine: &mut QuorumEngine,
    reason: &str,
    record: Record,
    feed: impl FnOnce(&mut QuorumEngine) -> bool,
) {
    let before = snapshot(engine);
    let accepted = feed(engine);
    let after = snapshot(engine);

    assert!(!accepted, "[{reason}] the claim must be rejected");

    let mut expected_counters = before.rejected_claims.clone();
    *expected_counters.entry(reason.to_string()).or_insert(0) += 1;
    assert_eq!(
        after.rejected_claims, expected_counters,
        "[{reason}] rejection counters moved in an unexpected way"
    );

    match record {
        Record::Counted => assert_eq!(
            after.observation_count, before.observation_count,
            "[{reason}] no observation is kept"
        ),
        Record::Observed => {
            assert_eq!(
                after.observation_count,
                before.observation_count + 1,
                "[{reason}] expected exactly one new observation"
            );
            assert_eq!(
                after.last_observation_reason.as_deref(),
                Some(reason),
                "[{reason}] the new observation carries the wrong reason"
            );
        }
    }

    assert_eq!(
        after.epoch, before.epoch,
        "[{reason}] a rejected claim moved the engine's epoch"
    );
    assert_eq!(
        after.shared_state, before.shared_state,
        "[{reason}] a rejected claim mutated shared consensus state"
    );
}

fn assert_accepted_observation(artifact: &ConsensusArtifact, sender_id: &str) {
    let last = artifact
        .observations
        .last()
        .expect("an accepted claim must leave an observation");
    assert!(last.accepted, "expected an accepted observation");
    assert_eq!(last.reason, "accepted");
    assert_eq!(last.sender_id, sender_id);
}

fn assert_helper_matches_the_engine() {
    let mut engine = QuorumEngine::with_limits(1, 1, ClaimLimits::default());
    let (peer, claim) = claim_from_new_peer(1, vec![entry("1.2.3.0/24", 64512)]);
    assert!(engine.process_claim_from_peer(claim, &peer));
    let artifact = engine.finalize(TOPIC, LOCAL);
    assert!(artifact.rejected_claims.counts.is_empty());
    assert_eq!(artifact.accepted_claims, 1);
}

#[derive(Debug, Clone, Copy, PartialEq, Eq)]
enum Rule {
    OversizeClaim,
    MalformedClaim,
    InvalidSenderId,
    SourceMismatch,
    MalformedClaimHash,
    ClaimHashMismatch,
    EmptyClaim,
    TooManyEntries,
    EpochOutOfRange,
    StaleEpoch,
    EpochJumpTooLarge,
    AsnOutOfRange,
    UnassignedAsn,
    InvalidPrefix,
    Ipv4MappedPrefix,
    DefaultRoutePrefix,
    ConflictingEntry,
    SenderLimitExceeded,
    DuplicateSender,
    UnparsableSender,
}

impl Rule {
    const ALL: &'static [Rule] = &[
        Rule::OversizeClaim,
        Rule::MalformedClaim,
        Rule::InvalidSenderId,
        Rule::SourceMismatch,
        Rule::MalformedClaimHash,
        Rule::ClaimHashMismatch,
        Rule::EmptyClaim,
        Rule::TooManyEntries,
        Rule::EpochOutOfRange,
        Rule::StaleEpoch,
        Rule::EpochJumpTooLarge,
        Rule::AsnOutOfRange,
        Rule::UnassignedAsn,
        Rule::InvalidPrefix,
        Rule::Ipv4MappedPrefix,
        Rule::DefaultRoutePrefix,
        Rule::ConflictingEntry,
        Rule::SenderLimitExceeded,
        Rule::DuplicateSender,
        Rule::UnparsableSender,
    ];
    fn reason(self) -> &'static str {
        match self {
            Rule::OversizeClaim => "oversize_claim",
            Rule::MalformedClaim => "malformed_claim",
            Rule::InvalidSenderId => "invalid_sender_id",
            Rule::SourceMismatch => "source_mismatch",
            Rule::MalformedClaimHash => "malformed_claim_hash",
            Rule::ClaimHashMismatch => "claim_hash_mismatch",
            Rule::EmptyClaim => "empty_claim",
            Rule::TooManyEntries => "too_many_entries",
            Rule::EpochOutOfRange => "epoch_out_of_range",
            Rule::StaleEpoch => "stale_epoch",
            Rule::EpochJumpTooLarge => "epoch_jump_too_large",
            Rule::AsnOutOfRange => "asn_out_of_range",
            Rule::UnassignedAsn => "unassigned_asn",
            Rule::InvalidPrefix => "invalid_prefix",
            Rule::Ipv4MappedPrefix => "ipv4_mapped_prefix",
            Rule::DefaultRoutePrefix => "default_route_prefix",
            Rule::ConflictingEntry => "conflicting_entry",
            Rule::SenderLimitExceeded => "sender_limit_exceeded",
            Rule::DuplicateSender => "duplicate_sender",
            Rule::UnparsableSender => "unparsable_sender",
        }
    }
    fn record(self) -> Record {
        match self {
            Rule::OversizeClaim | Rule::MalformedClaim => Record::Counted,
            Rule::InvalidSenderId
            | Rule::MalformedClaimHash
            | Rule::EmptyClaim
            | Rule::TooManyEntries
            | Rule::EpochOutOfRange => Record::Counted,
            Rule::SourceMismatch => Record::Counted,
            Rule::UnparsableSender => Record::Counted,
            Rule::ClaimHashMismatch
            | Rule::StaleEpoch
            | Rule::EpochJumpTooLarge
            | Rule::AsnOutOfRange
            | Rule::UnassignedAsn
            | Rule::InvalidPrefix
            | Rule::Ipv4MappedPrefix
            | Rule::DefaultRoutePrefix
            | Rule::ConflictingEntry
            | Rule::SenderLimitExceeded
            | Rule::DuplicateSender => Record::Observed,
        }
    }
    fn exercise(self) {
        let reason = self.reason();
        let record = self.record();

        match self {
            Rule::OversizeClaim => {
                let mut s = settled_default();
                assert_rejected(&mut s.engine, reason, record, |e| {
                    e.record_oversize_claim();
                    false
                });
            }
            Rule::MalformedClaim => {
                let mut s = settled_default();
                assert_rejected(&mut s.engine, reason, record, |e| {
                    e.record_malformed_claim();
                    false
                });
            }
            Rule::InvalidSenderId => {
                let mut s = settled_default();
                let long = "a".repeat(MAX_SENDER_ID_LEN + 1);
                let c = claim(SETTLED_EPOCH, &long, vec![entry("1.2.3.0/24", 64512)]);
                let source = random_peer();
                assert_rejected(&mut s.engine, reason, record, |e| {
                    e.process_claim_from_peer(c, &source)
                });
                let long = "a".repeat(MAX_SENDER_ID_LEN + 1);
                let c = claim(SETTLED_EPOCH, &long, vec![entry("1.2.3.0/24", 64512)]);
                assert_rejected(&mut s.engine, reason, record, |e| e.process_claim(c));
            }
            Rule::MalformedClaimHash => {
                let mut s = settled_default();
                let (source, mut c) =
                    claim_from_new_peer(SETTLED_EPOCH, vec![entry("1.2.3.0/24", 64512)]);
                c.claim_hash = "deadbeef".to_string();
                assert_rejected(&mut s.engine, reason, record, |e| {
                    e.process_claim_from_peer(c, &source)
                });
                let (source, mut c) =
                    claim_from_new_peer(SETTLED_EPOCH, vec![entry("1.2.3.0/24", 64512)]);
                c.claim_hash = c.claim_hash.to_uppercase();
                assert_rejected(&mut s.engine, reason, record, |e| {
                    e.process_claim_from_peer(c, &source)
                });
                let (source, mut c) =
                    claim_from_new_peer(SETTLED_EPOCH, vec![entry("1.2.3.0/24", 64512)]);
                c.claim_hash = "z".repeat(64);
                assert_rejected(&mut s.engine, reason, record, |e| {
                    e.process_claim_from_peer(c, &source)
                });
            }
            Rule::EmptyClaim => {
                let mut s = settled_default();
                let (source, c) = claim_from_new_peer(SETTLED_EPOCH, vec![]);
                assert_rejected(&mut s.engine, reason, record, |e| {
                    e.process_claim_from_peer(c, &source)
                });
            }
            Rule::TooManyEntries => {
                let limits = ClaimLimits {
                    max_entries: 3,
                    ..ClaimLimits::default()
                };
                let mut s = settled(limits);
                let (source, c) = claim_from_new_peer(
                    SETTLED_EPOCH,
                    vec![
                        entry("1.0.0.0/8", 1),
                        entry("2.0.0.0/8", 2),
                        entry("3.0.0.0/8", 3),
                        entry("4.0.0.0/8", 4),
                    ],
                );
                assert_rejected(&mut s.engine, reason, record, |e| {
                    e.process_claim_from_peer(c, &source)
                });
            }
            Rule::EpochOutOfRange => {
                let mut s = settled_default();
                let (source, c) = claim_from_new_peer(u64::MAX, vec![entry("1.2.3.0/24", 64512)]);
                assert_rejected(&mut s.engine, reason, record, |e| {
                    e.process_claim_from_peer(c, &source)
                });
            }
            Rule::SourceMismatch => {
                let mut s = settled_default();
                let (_declared, c) =
                    claim_from_new_peer(SETTLED_EPOCH, vec![entry("1.2.3.0/24", 64512)]);
                let impostor = random_peer();
                assert_rejected(&mut s.engine, reason, record, |e| {
                    e.process_claim_from_peer(c, &impostor)
                });
            }
            Rule::ClaimHashMismatch => {
                let mut s = settled_default();
                let (source, mut c) =
                    claim_from_new_peer(SETTLED_EPOCH, vec![entry("1.2.3.0/24", 64512)]);
                c.claim_hash = "0".repeat(64);
                assert_rejected(&mut s.engine, reason, record, |e| {
                    e.process_claim_from_peer(c, &source)
                });
            }
            Rule::StaleEpoch => {
                let mut s = settled_default();
                let (source, c) =
                    claim_from_new_peer(SETTLED_EPOCH - 1, vec![entry("1.2.3.0/24", 64512)]);
                assert_rejected(&mut s.engine, reason, record, |e| {
                    e.process_claim_from_peer(c, &source)
                });
            }
            Rule::EpochJumpTooLarge => {
                let mut s = settled_default();
                let far = SETTLED_EPOCH + MAX_EPOCH_SKEW + 1;
                let (source, c) = claim_from_new_peer(far, vec![entry("1.2.3.0/24", 64512)]);
                assert_rejected(&mut s.engine, reason, record, |e| {
                    e.process_claim_from_peer(c, &source)
                });
            }
            Rule::AsnOutOfRange => {
                let mut s = settled_default();
                let (source, c) =
                    claim_from_new_peer(SETTLED_EPOCH, vec![entry("1.2.3.0/24", ASN_MAX + 1)]);
                assert_rejected(&mut s.engine, reason, record, |e| {
                    e.process_claim_from_peer(c, &source)
                });
            }
            Rule::UnassignedAsn => {
                let mut s = settled_default();
                let (source, c) = claim_from_new_peer(SETTLED_EPOCH, vec![entry("1.2.3.0/24", 0)]);
                assert_rejected(&mut s.engine, reason, record, |e| {
                    e.process_claim_from_peer(c, &source)
                });
            }
            Rule::InvalidPrefix => {
                let mut s = settled_default();
                let (source, c) =
                    claim_from_new_peer(SETTLED_EPOCH, vec![entry("not-a-network", 64512)]);
                assert_rejected(&mut s.engine, reason, record, |e| {
                    e.process_claim_from_peer(c, &source)
                });
                let oversize = format!("{}/24", "1".repeat(MAX_PREFIX_LEN));
                assert!(oversize.len() > MAX_PREFIX_LEN);
                let (source, c) = claim_from_new_peer(SETTLED_EPOCH, vec![entry(&oversize, 64512)]);
                assert_rejected(&mut s.engine, reason, record, |e| {
                    e.process_claim_from_peer(c, &source)
                });
                let (source, c) =
                    claim_from_new_peer(SETTLED_EPOCH, vec![entry("1.2.3.0/33", 64512)]);
                assert_rejected(&mut s.engine, reason, record, |e| {
                    e.process_claim_from_peer(c, &source)
                });
            }
            Rule::Ipv4MappedPrefix => {
                let mut s = settled_default();
                let (source, c) =
                    claim_from_new_peer(SETTLED_EPOCH, vec![entry("::ffff:1.2.3.0/120", 64512)]);
                assert_rejected(&mut s.engine, reason, record, |e| {
                    e.process_claim_from_peer(c, &source)
                });
                let (source, c) =
                    claim_from_new_peer(SETTLED_EPOCH, vec![entry("::ffff:0102:0300/120", 64512)]);
                assert_rejected(&mut s.engine, reason, record, |e| {
                    e.process_claim_from_peer(c, &source)
                });
            }
            Rule::DefaultRoutePrefix => {
                let mut s = settled_default();
                let (source, c) = claim_from_new_peer(SETTLED_EPOCH, vec![entry("::/0", 666)]);
                assert_rejected(&mut s.engine, reason, record, |e| {
                    e.process_claim_from_peer(c, &source)
                });
            }
            Rule::ConflictingEntry => {
                let mut s = settled_default();
                let (source, c) = claim_from_new_peer(
                    SETTLED_EPOCH,
                    vec![entry("1.2.3.0/24", 5), entry("1.2.3.0/24", 9)],
                );
                assert_rejected(&mut s.engine, reason, record, |e| {
                    e.process_claim_from_peer(c, &source)
                });
            }
            Rule::SenderLimitExceeded => {
                let limits = ClaimLimits {
                    max_senders: 2,
                    ..ClaimLimits::default()
                };
                let mut s = settled(limits);
                let (source, c) =
                    claim_from_new_peer(SETTLED_EPOCH, vec![entry("1.2.3.0/24", 64512)]);
                assert_rejected(&mut s.engine, reason, record, |e| {
                    e.process_claim_from_peer(c, &source)
                });
            }
            Rule::DuplicateSender => {
                let mut s = settled_default();
                let peer = s.peers[0].clone();
                let c = claim(
                    SETTLED_EPOCH,
                    &peer,
                    vec![entry("9.9.9.0/24", 999)],
                );
                assert_rejected(&mut s.engine, reason, record, |e| {
                    e.process_claim_from_peer(c, &peer)
                });
                let artifact = s.engine.finalize(TOPIC, LOCAL);
                assert!(
                    !artifact.entries.iter().any(|e| e.ip_prefix == "9.9.9.0/24"),
                    "a duplicate sender's second body must not be tallied"
                );
            }
            Rule::UnparsableSender => {
                let mut s = settled_default();
                let c = claim(SETTLED_EPOCH, "peer-a", vec![entry("1.2.3.0/24", 64512)]);
                assert_rejected(&mut s.engine, reason, record, |e| e.process_claim(c));
            }
        }
    }
}

#[test]
fn rejects_oversize_claim_without_moving_shared_state() {
    Rule::OversizeClaim.exercise();
}

#[test]
fn rejects_malformed_claim_without_moving_shared_state() {
    Rule::MalformedClaim.exercise();
}

#[test]
fn rejects_invalid_sender_id_without_moving_shared_state() {
    Rule::InvalidSenderId.exercise();
}

#[test]
fn rejects_source_mismatch_without_moving_shared_state() {
    Rule::SourceMismatch.exercise();
}

#[test]
fn rejects_malformed_claim_hash_without_moving_shared_state() {
    Rule::MalformedClaimHash.exercise();
}

#[test]
fn rejects_claim_hash_mismatch_without_moving_shared_state() {
    Rule::ClaimHashMismatch.exercise();
}

#[test]
fn rejects_empty_claim_without_moving_shared_state() {
    Rule::EmptyClaim.exercise();
}

#[test]
fn rejects_too_many_entries_without_moving_shared_state() {
    Rule::TooManyEntries.exercise();
}

#[test]
fn rejects_epoch_out_of_range_without_moving_shared_state() {
    Rule::EpochOutOfRange.exercise();
}

#[test]
fn rejects_stale_epoch_without_moving_shared_state() {
    Rule::StaleEpoch.exercise();
}

#[test]
fn rejects_epoch_jump_too_large_without_moving_shared_state() {
    Rule::EpochJumpTooLarge.exercise();
}

#[test]
fn rejects_asn_out_of_range_without_moving_shared_state() {
    Rule::AsnOutOfRange.exercise();
}

#[test]
fn rejects_unassigned_asn_without_moving_shared_state() {
    Rule::UnassignedAsn.exercise();
}

#[test]
fn rejects_invalid_prefix_without_moving_shared_state() {
    Rule::InvalidPrefix.exercise();
}

#[test]
fn rejects_ipv4_mapped_prefix_without_moving_shared_state() {
    Rule::Ipv4MappedPrefix.exercise();
}

#[test]
fn rejects_default_route_prefix_without_moving_shared_state() {
    Rule::DefaultRoutePrefix.exercise();
}

#[test]
fn rejects_conflicting_entry_without_moving_shared_state() {
    Rule::ConflictingEntry.exercise();
}

#[test]
fn rejects_sender_limit_exceeded_without_moving_shared_state() {
    Rule::SenderLimitExceeded.exercise();
}

#[test]
fn rejects_duplicate_sender_without_moving_shared_state() {
    Rule::DuplicateSender.exercise();
}

#[test]
fn rejects_unparsable_sender_without_moving_shared_state() {
    Rule::UnparsableSender.exercise();
}

fn matrix_reasons() -> BTreeSet<String> {
    Rule::ALL.iter().map(|r| r.reason().to_string()).collect()
}

#[test]
fn every_rule_has_a_distinct_reason() {
    assert_eq!(
        matrix_reasons().len(),
        Rule::ALL.len(),
        "two rules share a reason string, so one of them is not really tested"
    );
}

#[test]
fn every_rule_is_exercised_by_a_named_test() {
    let named: Vec<(&str, fn())> = vec![
        (
            "rejects_oversize_claim_without_moving_shared_state",
            rejects_oversize_claim_without_moving_shared_state,
        ),
        (
            "rejects_malformed_claim_without_moving_shared_state",
            rejects_malformed_claim_without_moving_shared_state,
        ),
        (
            "rejects_invalid_sender_id_without_moving_shared_state",
            rejects_invalid_sender_id_without_moving_shared_state,
        ),
        (
            "rejects_source_mismatch_without_moving_shared_state",
            rejects_source_mismatch_without_moving_shared_state,
        ),
        (
            "rejects_malformed_claim_hash_without_moving_shared_state",
            rejects_malformed_claim_hash_without_moving_shared_state,
        ),
        (
            "rejects_claim_hash_mismatch_without_moving_shared_state",
            rejects_claim_hash_mismatch_without_moving_shared_state,
        ),
        (
            "rejects_empty_claim_without_moving_shared_state",
            rejects_empty_claim_without_moving_shared_state,
        ),
        (
            "rejects_too_many_entries_without_moving_shared_state",
            rejects_too_many_entries_without_moving_shared_state,
        ),
        (
            "rejects_epoch_out_of_range_without_moving_shared_state",
            rejects_epoch_out_of_range_without_moving_shared_state,
        ),
        (
            "rejects_stale_epoch_without_moving_shared_state",
            rejects_stale_epoch_without_moving_shared_state,
        ),
        (
            "rejects_epoch_jump_too_large_without_moving_shared_state",
            rejects_epoch_jump_too_large_without_moving_shared_state,
        ),
        (
            "rejects_asn_out_of_range_without_moving_shared_state",
            rejects_asn_out_of_range_without_moving_shared_state,
        ),
        (
            "rejects_unassigned_asn_without_moving_shared_state",
            rejects_unassigned_asn_without_moving_shared_state,
        ),
        (
            "rejects_invalid_prefix_without_moving_shared_state",
            rejects_invalid_prefix_without_moving_shared_state,
        ),
        (
            "rejects_ipv4_mapped_prefix_without_moving_shared_state",
            rejects_ipv4_mapped_prefix_without_moving_shared_state,
        ),
        (
            "rejects_default_route_prefix_without_moving_shared_state",
            rejects_default_route_prefix_without_moving_shared_state,
        ),
        (
            "rejects_conflicting_entry_without_moving_shared_state",
            rejects_conflicting_entry_without_moving_shared_state,
        ),
        (
            "rejects_sender_limit_exceeded_without_moving_shared_state",
            rejects_sender_limit_exceeded_without_moving_shared_state,
        ),
        (
            "rejects_duplicate_sender_without_moving_shared_state",
            rejects_duplicate_sender_without_moving_shared_state,
        ),
        (
            "rejects_unparsable_sender_without_moving_shared_state",
            rejects_unparsable_sender_without_moving_shared_state,
        ),
    ];
    let missing: Vec<&str> = Rule::ALL
        .iter()
        .map(|r| r.reason())
        .filter(|reason| {
            let name = format!("rejects_{reason}_without_moving_shared_state");
            !named.iter().any(|(n, _)| *n == name)
        })
        .collect();
    assert!(
        missing.is_empty(),
        "these rules are in the matrix but have no test of their own: {missing:?}"
    );
    for (_, test) in named {
        test();
    }
}

#[test]
fn every_reason_in_the_source_has_a_matrix_case() {
    let source: BTreeSet<String> = (0..REASONS)
        .map(|i| Reason::at(i).name().to_string())
        .collect();
    let matrix = matrix_reasons();

    let untested: Vec<&String> = source.difference(&matrix).collect();
    assert!(untested.is_empty(), "not covered: {untested:?}");

    let stale: Vec<&String> = matrix.difference(&source).collect();
    assert!(stale.is_empty(), "no longer a reason: {stale:?}");
}

#[test]
fn the_test_helper_builds_claims_the_engine_accepts() {
    assert_helper_matches_the_engine();
}

#[test]
fn the_hostile_epoch_claim_no_longer_wipes_a_settled_round() {
    let mut s = settled_default();
    let before = snapshot(&s.engine);
    let mut hostile = claim(u64::MAX, "unrelated", vec![entry("1.2.3.0/24", 64512)]);
    hostile.claim_hash = "0".repeat(64);
    let impostor = random_peer();
    assert!(!s.engine.process_claim_from_peer(hostile, &impostor));
    let adoptable = SETTLED_EPOCH + MAX_EPOCH_SKEW;
    let (_declared, sneaky) = claim_from_new_peer(adoptable, vec![entry("1.2.3.0/24", 64512)]);
    assert!(!s
        .engine
        .process_claim_from_peer(sneaky, &random_peer()));
    let (source, poisoned) = claim_from_new_peer(adoptable, vec![entry("1.2.3.0/24", 0)]);
    assert!(!s.engine.process_claim_from_peer(poisoned, &source));

    let after = snapshot(&s.engine);
    assert_eq!(after.epoch, SETTLED_EPOCH, "the epoch must not have moved");
    assert_eq!(
        after.shared_state, before.shared_state,
        "the settled round must survive a claim that passed no gate"
    );
    let (source, c) = claim_from_new_peer(SETTLED_EPOCH, vec![entry("10.0.0.0/8", 100)]);
    assert!(s.engine.process_claim_from_peer(c, &source));
    let artifact = s.engine.finalize(TOPIC, LOCAL);
    assert_eq!(artifact.accepted_claims, 3);
    assert_eq!(artifact.epoch, SETTLED_EPOCH);
}

#[test]
fn a_future_claim_rejected_for_its_entries_does_not_advance_the_epoch() {
    let mut s = settled_default();
    let future = SETTLED_EPOCH + 100; // well inside MAX_EPOCH_SKEW
    let (source, c) = claim_from_new_peer(future, vec![entry("1.2.3.0/24", 0)]);

    assert_rejected(&mut s.engine, "unassigned_asn", Record::Observed, |e| {
        e.process_claim_from_peer(c, &source)
    });
    assert_eq!(
        s.engine.epoch(),
        SETTLED_EPOCH,
        "a claim rejected for its entries must not move the epoch"
    );
}

#[test]
fn a_future_claim_that_passes_every_gate_still_advances_the_epoch() {
    let mut s = settled_default();
    let future = SETTLED_EPOCH + 100;
    let (source, c) = claim_from_new_peer(future, vec![entry("1.2.3.0/24", 64512)]);

    assert!(!s.engine.process_claim_from_peer(c, &source));
    let artifact = s.engine.finalize(TOPIC, LOCAL);
    assert_eq!(artifact.epoch, future);
    assert_eq!(
        artifact.accepted_claims, 1,
        "adoption clears the round, keeping only the claim that caused it"
    );
    assert_eq!(artifact.participants.len(), 1);
    assert!(artifact.entries.is_empty(), "threshold 2, one sender");
}

#[test]
fn a_claim_driven_advance_does_not_raise_the_epoch_ceiling() {
    let limits = ClaimLimits {
        max_epoch: SETTLED_EPOCH + 200,
        max_epoch_skew: 100,
        ..ClaimLimits::default()
    };
    let mut s = settled(limits);
    let ceiling = s.engine.limits().max_epoch;

    let (source, c) = claim_from_new_peer(SETTLED_EPOCH + 100, vec![entry("1.2.3.0/24", 1)]);
    assert!(!s.engine.process_claim_from_peer(c, &source));
    assert_eq!(
        s.engine.limits().max_epoch,
        ceiling,
        "adopting a claimed epoch must not raise the ceiling"
    );
    s.engine.advance_epoch(ceiling);
    assert!(s.engine.limits().max_epoch > ceiling);
}

#[test]
fn rejection_observations_are_capped_while_the_counter_keeps_counting() {
    let limits = ClaimLimits {
        max_rejection_observations: 8,
        ..ClaimLimits::default()
    };
    let mut s = settled(limits);
    let accepted_rows = s.engine.finalize(TOPIC, LOCAL).observations.len();

    for _ in 0..64 {
        let (source, mut c) = claim_from_new_peer(SETTLED_EPOCH, vec![entry("1.2.3.0/24", 64512)]);
        c.claim_hash = "0".repeat(64);
        assert!(!s.engine.process_claim_from_peer(c, &source));
    }

    let artifact = s.engine.finalize(TOPIC, LOCAL);
    assert_eq!(
        artifact.rejected_claims.get("claim_hash_mismatch"),
        Some(64),
        "the aggregate must survive the retention cap"
    );
    assert_eq!(
        artifact.observations.len(),
        accepted_rows + 8,
        "rejection rows must stop at the cap"
    );
    assert_eq!(
        artifact.observations.iter().filter(|o| o.accepted).count(),
        accepted_rows
    );
}

#[test]
fn claim_validation_matrix_every_claim_is_accounted_for_exactly_once() {
    let mut engine = QuorumEngine::with_limits(2, SETTLED_EPOCH, ClaimLimits::default());
    let mut fed = 0usize;
    for _ in 0..2 {
        let (source, c) = claim_from_new_peer(SETTLED_EPOCH, vec![entry("10.0.0.0/8", 100)]);
        engine.process_claim_from_peer(c, &source);
        fed += 1;
    }
    let long = "a".repeat(MAX_SENDER_ID_LEN + 1);
    let bad_shapes = vec![
        claim(SETTLED_EPOCH, &long, vec![entry("1.2.3.0/24", 1)]),
        claim(SETTLED_EPOCH, "peer-a", vec![entry("1.2.3.0/24", 1)]),
        claim(u64::MAX, "peer-a", vec![entry("1.2.3.0/24", 1)]),
    ];
    for c in bad_shapes {
        engine.process_claim(c);
        fed += 1;
    }
    let observed: Vec<_> = vec![
        (SETTLED_EPOCH - 1, entry("1.2.3.0/24", 1)),
        (SETTLED_EPOCH, entry("1.2.3.0/24", 0)),
        (SETTLED_EPOCH, entry("::/0", 1)),
        (SETTLED_EPOCH, entry("::ffff:1.2.3.0/120", 1)),
        (SETTLED_EPOCH, entry("not-a-network", 1)),
    ];
    for (epoch, e) in observed {
        let (source, c) = claim_from_new_peer(epoch, vec![e]);
        engine.process_claim_from_peer(c, &source);
        fed += 1;
    }

    let artifact = engine.finalize(TOPIC, LOCAL);
    let rejected: usize = artifact.rejected_claims.counts.iter().map(|(_, n)| n).sum();
    assert_eq!(
        artifact.accepted_claims + rejected,
        fed,
        "every claim must produce exactly one accounting event; \
         accepted={} rejected={:?}",
        artifact.accepted_claims,
        artifact.rejected_claims
    );
}

#[test]
fn a_repeated_identical_entry_dedupes_rather_than_rejecting() {
    let mut engine = QuorumEngine::with_limits(1, SETTLED_EPOCH, ClaimLimits::default());
    let (source, c) = claim_from_new_peer(
        SETTLED_EPOCH,
        vec![
            entry("1.2.3.0/24", 64512),
            entry("1.2.3.0/24", 64512),
            entry("1.2.3.0/24", 64512),
        ],
    );

    assert!(engine.process_claim_from_peer(c, &source));
    let artifact = engine.finalize(TOPIC, LOCAL);
    assert!(artifact.rejected_claims.counts.is_empty());
    assert_eq!(artifact.entries.len(), 1);
    assert_eq!(
        artifact.entries[0].votes, 1,
        "one sender must cast one vote however many times it repeats itself"
    );
}

#[test]
fn a_well_formed_claim_is_still_accepted_whole() {
    let mut engine = QuorumEngine::with_limits(1, SETTLED_EPOCH, ClaimLimits::default());
    let entries = vec![
        entry("1.0.0.0/8", 1),
        entry("2.0.0.0/8", 2),
        entry("2001:db8::/32", 3),
        entry("224.0.0.0/3", 16509),
        entry("1000::/4", 16509),
        entry("8000::/1", 140810),
    ];
    let (source, c) = claim_from_new_peer(SETTLED_EPOCH, entries.clone());

    assert!(engine.process_claim_from_peer(c, &source));
    let artifact = engine.finalize(TOPIC, LOCAL);
    assert!(artifact.rejected_claims.counts.is_empty());
    assert_eq!(artifact.entries.len(), entries.len());
    assert_eq!(artifact.accepted_claims, 1);
    assert_accepted_observation(&artifact, &source);
}

#[test]
fn a_rejection_record_carries_the_values_the_peer_sent() {
    let mut s = settled_default();

    let (source, mut c) = claim_from_new_peer(SETTLED_EPOCH, vec![entry("1.2.3.0/24", 64512)]);
    let asserted_hash = "a".repeat(64);
    c.claim_hash = asserted_hash.clone();
    assert!(!s.engine.process_claim_from_peer(c, &source));

    let stale_epoch = SETTLED_EPOCH - 4;
    let (source2, c2) = claim_from_new_peer(stale_epoch, vec![entry("1.2.3.0/24", 64512)]);
    let sealed_hash = c2.claim_hash.clone();
    assert!(!s.engine.process_claim_from_peer(c2, &source2));

    let artifact = s.engine.finalize(TOPIC, LOCAL);
    let rows: Vec<_> = artifact
        .observations
        .iter()
        .filter(|o| !o.accepted)
        .collect();
    assert_eq!(rows.len(), 2);

    assert_eq!(rows[0].reason, "claim_hash_mismatch");
    assert_eq!(
        rows[0].claim_hash, asserted_hash,
        "the record shows the hash that the peer sent"
    );

    assert_eq!(rows[1].reason, "stale_epoch");
    assert_eq!(
        rows[1].epoch, stale_epoch,
        "the record shows the epoch that the peer claimed"
    );
    assert_eq!(rows[1].claim_hash, sealed_hash);
}

#[test]
fn the_settled_fixture_is_actually_settled() {
    let s: Settled = settled_default();
    let artifact = s.engine.finalize(TOPIC, LOCAL);
    assert_eq!(artifact.epoch, SETTLED_EPOCH);
    assert_eq!(artifact.threshold, 2);
    assert_eq!(artifact.participants.len(), 2);
    assert_eq!(artifact.accepted_claims, 2);
    assert_eq!(artifact.entries.len(), 1);
    assert_eq!(artifact.entries[0].ip_prefix, "10.0.0.0/8");
    assert_eq!(artifact.entries[0].asn, 100);
    assert_eq!(artifact.entries[0].votes, 2);
    assert!(!artifact.map.to_entries(false, false).is_empty());
    assert_eq!(s.claims.len(), 2);
    assert_eq!(s.peers.len(), 2);
}
