use bitcoin_asmap_quorum::{
    ip_to_bits, ASMap, AsmapClaim, AsmapEntry, ClaimLimits, IpAddr, QuorumEngine,
    EPOCH_ABSOLUTE_MAX, MAX_EPOCH_SKEW,
};
use sha2::{Digest, Sha256};

const TOPIC: &str = "bitcoin-asmap-quorum";

const LOCAL: &str = "test-local-peer";

fn random_peer() -> String {
    libp2p::PeerId::random().to_string()
}

fn entry(ip_prefix: &str, asn: u32) -> AsmapEntry {
    AsmapEntry {
        ip_prefix: ip_prefix.to_string(),
        asn,
    }
}

/// The hash of a claim, taken over its text: a head of two lines, then one line
/// for each entry in order.
fn hash_of(epoch: u64, sender_id: &str, entries: &[AsmapEntry]) -> String {
    let mut entries = entries.to_vec();
    entries.sort_by(|a, b| {
        a.ip_prefix
            .cmp(&b.ip_prefix)
            .then_with(|| a.asn.cmp(&b.asn))
    });

    let mut bytes = Vec::new();
    bytes.extend_from_slice(format!("epoch={epoch}\nsender={sender_id}\n").as_bytes());
    for entry in &entries {
        bytes.extend_from_slice(format!("{}|{}\n", entry.ip_prefix, entry.asn).as_bytes());
    }

    let mut hasher = Sha256::new();
    hasher.update(bytes);
    hex::encode(hasher.finalize())
}

fn claim(epoch: u64, sender_id: &str, entries: Vec<AsmapEntry>) -> AsmapClaim {
    let claim_hash = hash_of(epoch, sender_id, &entries);
    AsmapClaim {
        epoch,
        sender_id: sender_id.to_string(),
        claim_hash,
        entries,
    }
}

fn claim_from_new_peer(epoch: u64, entries: Vec<AsmapEntry>) -> (String, AsmapClaim) {
    let peer = random_peer();
    let claim = claim(epoch, &peer, entries);
    (peer, claim)
}

const SETTLED_EPOCH: u64 = 7;

struct Settled {
    engine: QuorumEngine,
}

/// Two senders that agree on `10.0.0.0/8` and on nothing else, at threshold 2.
fn settled(limits: ClaimLimits) -> Settled {
    let mut engine = QuorumEngine::with_limits(2, SETTLED_EPOCH, limits);

    let (peer_a, claim_a) = claim_from_new_peer(
        SETTLED_EPOCH,
        vec![entry("10.0.0.0/8", 100), entry("2.0.0.0/8", 200)],
    );
    let (peer_b, claim_b) = claim_from_new_peer(
        SETTLED_EPOCH,
        vec![entry("10.0.0.0/8", 100), entry("3.0.0.0/8", 300)],
    );

    assert!(
        !engine.process_claim_from_peer(claim_a, &peer_a),
        "first of two claims must not yet signal quorum"
    );
    assert!(
        engine.process_claim_from_peer(claim_b, &peer_b),
        "second claim must reach the threshold of 2"
    );

    let artifact = engine.finalize(TOPIC, LOCAL);
    assert_eq!(
        artifact.accepted_claims, 2,
        "settled engine must be settled"
    );
    assert_eq!(
        artifact.entries.len(),
        1,
        "one prefix should clear threshold"
    );
    assert!(
        artifact.rejected_claims.counts.is_empty(),
        "settled engine must start with a clean rejection ledger"
    );

    Settled { engine }
}

fn settled_default() -> Settled {
    settled(ClaimLimits::default())
}

fn lookup(map: &ASMap, addr: &str) -> Option<u32> {
    let ip = IpAddr::parse(addr).unwrap();
    let width = if matches!(ip, IpAddr::V4(_)) { 32 } else { 128 };
    map.lookup(&ip_to_bits(ip, width))
}

fn reason_for(prefix: &str) -> Option<String> {
    let mut engine = QuorumEngine::with_limits(1, 7, ClaimLimits::default());
    let (peer, c) = claim_from_new_peer(7, vec![entry(prefix, 666)]);
    let accepted = engine.process_claim_from_peer(c, &peer);
    let artifact = engine.finalize(TOPIC, LOCAL);
    if accepted {
        assert!(
            artifact.rejected_claims.counts.is_empty(),
            "{prefix} was accepted but something was rejected: {:?}",
            artifact.rejected_claims
        );
        return None;
    }
    assert_eq!(
        artifact.rejected_claims.counts.len(),
        1,
        "{prefix} must be rejected for exactly one reason: {:?}",
        artifact.rejected_claims
    );
    Some(artifact.rejected_claims.counts[0].0.clone())
}

#[test]
fn a_default_route_is_rejected_in_both_families() {
    assert_eq!(
        reason_for("0.0.0.0/0").as_deref(),
        Some("default_route_prefix")
    );
    assert_eq!(reason_for("::/0").as_deref(), Some("default_route_prefix"));
}

#[test]
fn ipv6_text_may_not_touch_the_ipv4_mapped_range_from_either_side() {
    for prefix in [
        "::ffff:1.2.3.0/120",
        "::ffff:0:0/96",
        "::/1",
        "::/64",
        "::/80",
        "::ffff:0:0/95",
    ] {
        assert_eq!(
            reason_for(prefix).as_deref(),
            Some("ipv4_mapped_prefix"),
            "{prefix} covers or aliases the IPv4-mapped range"
        );
    }
}

#[test]
fn the_shortest_prefixes_real_snapshots_contain_are_still_accepted() {
    for prefix in [
        "224.0.0.0/3",
        "0.0.0.0/3",
        "0.0.0.0/8",
        "1000::/4",
        "800::/5",
        "2000::/6",
        "8000::/1",
    ] {
        assert_eq!(
            reason_for(prefix),
            None,
            "{prefix} occurs in real snapshots and must stay acceptable"
        );
    }
}

#[test]
fn a_broad_prefix_does_not_displace_a_more_specific_one() {
    let mut engine = QuorumEngine::with_limits(1, 7, ClaimLimits::default());
    let (peer, c) = claim_from_new_peer(
        7,
        vec![entry("8000::/1", 666), entry("8000:db8::/32", 15169)],
    );
    assert!(engine.process_claim_from_peer(c, &peer));
    let artifact = engine.finalize(TOPIC, LOCAL);
    assert_eq!(lookup(&artifact.map, "8000:db8::1"), Some(15169));
    assert_eq!(lookup(&artifact.map, "9000::1"), Some(666));
}

#[test]
fn the_starting_epoch_cannot_widen_the_ceiling_past_the_absolute_maximum() {
    let engine = QuorumEngine::with_limits(1, u64::MAX, ClaimLimits::default());
    assert_eq!(engine.limits().max_epoch, EPOCH_ABSOLUTE_MAX);
    let mut engine = QuorumEngine::with_limits(1, 7, ClaimLimits::default());
    let (peer, c) = claim_from_new_peer(u64::MAX, vec![entry("1.2.3.0/24", 42)]);
    assert!(!engine.process_claim_from_peer(c, &peer));
    assert_eq!(
        engine.finalize(TOPIC, LOCAL).rejected_claims.get("epoch_out_of_range"),
        Some(1)
    );
    assert_eq!(engine.epoch(), 7, "a rejected claim moved the epoch");
}

#[test]
fn the_serve_timer_cannot_ratchet_the_ceiling_past_the_absolute_maximum() {
    let now = 1_772_726_400u64;
    let mut engine = QuorumEngine::with_limits(2, 1, ClaimLimits::at_unix_time(now));
    assert_eq!(engine.limits().max_epoch, now + MAX_EPOCH_SKEW);

    let attacker = random_peer();
    for _ in 0..60_000 {
        let next = engine.epoch().saturating_add(MAX_EPOCH_SKEW);
        if next <= engine.limits().max_epoch {
            let c = claim(next, &attacker, vec![entry("1.2.3.0/24", 42)]);
            engine.process_claim_from_peer(c, &attacker);
            assert_eq!(engine.epoch(), next);
        }
        let tick = engine.epoch().saturating_add(1);
        engine.advance_epoch(tick);
    }

    assert_eq!(
        engine.limits().max_epoch,
        EPOCH_ABSOLUTE_MAX,
        "the ceiling must saturate at the absolute maximum, not climb past it"
    );
}

#[test]
fn advance_epoch_raises_the_ceiling_but_only_within_the_absolute_maximum() {
    let mut engine = QuorumEngine::with_limits(1, 7, ClaimLimits::at_unix_time(1_772_726_400));
    let ceiling = engine.limits().max_epoch;
    engine.advance_epoch(ceiling + 1);
    assert_eq!(engine.limits().max_epoch, ceiling + 1 + MAX_EPOCH_SKEW);

    engine.advance_epoch(u64::MAX);
    assert_eq!(engine.limits().max_epoch, EPOCH_ABSOLUTE_MAX);
    let limits = ClaimLimits {
        max_epoch: EPOCH_ABSOLUTE_MAX + 5_000,
        ..ClaimLimits::default()
    };
    let mut engine = QuorumEngine::with_limits(1, 7, limits);
    assert_eq!(engine.limits().max_epoch, EPOCH_ABSOLUTE_MAX + 5_000);
    engine.advance_epoch(9);
    assert_eq!(engine.limits().max_epoch, EPOCH_ABSOLUTE_MAX + 5_000);
}

#[test]
fn a_rejected_claim_cannot_advance_the_epoch_even_at_max_senders_zero() {
    let limits = ClaimLimits {
        max_senders: 0,
        ..ClaimLimits::default()
    };
    let mut engine = QuorumEngine::with_limits(0, 5, limits);
    assert_eq!(engine.limits().max_senders, 1);

    let (peer, c) = claim_from_new_peer(6, vec![entry("1.2.3.0/24", 42)]);
    assert!(
        engine.process_claim_from_peer(c, &peer),
        "a fully valid claim must not be rejected by a degenerate sender cap"
    );
    let artifact = engine.finalize(TOPIC, LOCAL);
    assert!(artifact.rejected_claims.counts.is_empty());
    assert_eq!(engine.epoch(), 6);
}

#[test]
fn flood_of_rejections_is_bounded_in_observations_and_reason_keys() {
    let peer = random_peer();
    let mut engine = QuorumEngine::with_limits(2, 7, ClaimLimits::default());
    for i in 0..50_000u32 {
        let mut c = claim(7, &peer, vec![entry("1.2.3.0/24", i + 1)]);
        c.claim_hash = format!("{i:064x}");
        assert!(!engine.process_claim_from_peer(c, &peer));
    }
    let artifact = engine.finalize(TOPIC, LOCAL);
    assert_eq!(artifact.observations.len(), 1_024);
    assert_eq!(artifact.rejected_claims.counts.len(), 1);
    assert_eq!(artifact.rejected_claims.get("claim_hash_mismatch"), Some(50_000));
    assert!(artifact.entries.is_empty());
}

#[test]
fn flood_of_distinct_senders_is_capped_at_max_senders() {
    let mut engine = QuorumEngine::with_limits(2, 7, ClaimLimits::default());
    let mut accepted = 0usize;
    for _ in 0..1_100 {
        let (peer, c) = claim_from_new_peer(7, vec![entry("1.2.3.0/24", 42)]);
        if engine_accepts(&mut engine, c, &peer) {
            accepted += 1;
        }
    }
    let artifact = engine.finalize(TOPIC, LOCAL);
    assert_eq!(artifact.participants.len(), 1_024);
    assert_eq!(artifact.accepted_claims, 1_024);
    assert_eq!(artifact.rejected_claims.get("sender_limit_exceeded"), Some(76));
    assert!(accepted > 0);
}

fn engine_accepts(engine: &mut QuorumEngine, c: AsmapClaim, peer: &str) -> bool {
    let before = engine.finalize(TOPIC, LOCAL).accepted_claims;
    engine.process_claim_from_peer(c, peer);
    engine.finalize(TOPIC, LOCAL).accepted_claims > before
}

#[test]
fn known_open_one_identity_can_walk_the_epoch_to_the_absolute_ceiling() {
    let s = settled_default();
    let mut engine = s.engine;
    let start = engine.epoch();
    assert_eq!(engine.finalize(TOPIC, LOCAL).accepted_claims, 2);

    let attacker = random_peer();
    let mut steps = 0usize;
    while engine.epoch() < EPOCH_ABSOLUTE_MAX {
        let next = engine
            .epoch()
            .saturating_add(MAX_EPOCH_SKEW)
            .min(EPOCH_ABSOLUTE_MAX);
        let c = claim(next, &attacker, vec![entry("1.2.3.0/24", 42)]);
        engine.process_claim_from_peer(c, &attacker);
        assert_eq!(engine.epoch(), next, "step {steps} to epoch {next}");
        steps += 1;
    }
    assert_eq!(engine.epoch(), EPOCH_ABSOLUTE_MAX);
    assert_eq!(engine.limits().max_epoch, EPOCH_ABSOLUTE_MAX);
    assert!(
        (40_000..50_000).contains(&steps),
        "cost of the walk from epoch {start} changed: {steps} claims"
    );
    let (peer, honest) = claim_from_new_peer(start, vec![entry("10.0.0.0/8", 100)]);
    assert!(!engine.process_claim_from_peer(honest, &peer));
    let artifact = engine.finalize(TOPIC, LOCAL);
    assert_eq!(artifact.rejected_claims.get("stale_epoch"), Some(1));
    assert!(artifact.entries.is_empty());
}

#[test]
fn known_open_one_identity_can_reset_the_tally_every_round() {
    let s = settled_default();
    let mut engine = s.engine;
    assert_eq!(engine.finalize(TOPIC, LOCAL).entries.len(), 1);

    let attacker = random_peer();
    for _ in 0..1_000 {
        let next = engine.epoch() + 1;
        let c = claim(next, &attacker, vec![entry("1.2.3.0/24", 42)]);
        engine.process_claim_from_peer(c, &attacker);
        assert_eq!(engine.epoch(), next);

        let (peer, honest) = claim_from_new_peer(next - 1, vec![entry("10.0.0.0/8", 100)]);
        assert!(!engine.process_claim_from_peer(honest, &peer));
    }

    let artifact = engine.finalize(TOPIC, LOCAL);
    assert_eq!(
        artifact.accepted_claims, 1,
        "only the attacker's last claim survives; threshold 2 is never reached"
    );
    assert!(
        artifact.entries.is_empty(),
        "consensus is permanently empty"
    );
}
