use bitcoin_asmap_quorum::claim::{asmap_to_claim, claim_hash};
use bitcoin_asmap_quorum::node::{assigned_collectors, quorum_from_gossip, Node, Roster};
use bitcoin_asmap_quorum::nostr::{
    acknowledgement_fault, announcement, announcement_subject, attestation, deterministic_key_text,
    epoch_label, map_hash_hex, nostr_relay_urls, DEFAULT_NOSTR_RELAYS,
};
use bitcoin_asmap_quorum::votes::SenderSet;
use bitcoin_asmap_quorum::{load_file, ASMap, AsmapClaim, QuorumEngine, MAX_CLAIM_BYTES};

const NOW: u64 = 1_800_000_000;

fn peer() -> String {
    libp2p::PeerId::random().to_string()
}

fn map() -> ASMap {
    load_file(b"1.2.3.0/24 AS64512\n", "map").unwrap()
}

fn claim_of(sender: &str, epoch: u64) -> AsmapClaim {
    asmap_to_claim(&map(), epoch, sender.to_string())
}

fn holds(claim: &AsmapClaim) -> bool {
    claim.claim_hash == claim_hash(claim.epoch, &claim.sender_id, &claim.entries)
}

#[test]
fn a_node_speaks_for_itself() {
    let me = peer();
    let mut node = Node::new(QuorumEngine::new(2, 5, NOW), me.clone(), claim_of("someone", 1));
    assert_eq!(node.claim(), &claim_of(&me, 5));
    node.epoch_tick();
    assert_eq!(node.epoch(), 6);
    assert_eq!(node.claim(), &claim_of(&me, 6));
    node.advance();
    assert_eq!(node.epoch(), 7);
    assert_eq!(node.claim().epoch, 6);
    node.publish_tick();
    assert_eq!(node.claim(), &claim_of(&me, 7));
    let other = load_file(b"9.0.0.0/8 AS4\n", "map").unwrap();
    node.refresh(asmap_to_claim(&other, 0, String::new()));
    assert_eq!(node.claim(), &asmap_to_claim(&other, 7, me));
    assert!(holds(node.claim()));
}

#[test]
fn one_result_is_given_out_per_epoch() {
    let mut node = Node::new(QuorumEngine::new(2, 5, NOW), peer(), claim_of("x", 5));
    let peers: Vec<String> = (0..4).map(|_| peer()).collect();
    assert!(node.gossip(100, Some(claim_of(&peers[0], 5)), &peers[0], "t").is_none());
    let result = node
        .gossip(100, Some(claim_of(&peers[1], 5)), &peers[1], "t")
        .expect("a quorum");
    assert_eq!(result.map, map());
    assert_eq!(result.topic, "t");
    assert!(node.gossip(100, Some(claim_of(&peers[2], 5)), &peers[2], "t").is_none());
    assert!(node.has_room());
    node.publish_tick();
    assert!(node.gossip(100, Some(claim_of(&peers[3], 5)), &peers[3], "t").is_none());
    node.epoch_tick();
    assert!(node.has_room());
    assert!(node.gossip(100, Some(claim_of(&peers[0], 6)), &peers[0], "t").is_none());
    assert!(node.gossip(100, Some(claim_of(&peers[1], 6)), &peers[1], "t").is_some());
}

#[test]
fn payloads_are_counted_by_what_is_wrong_with_them() {
    let mut engine = QuorumEngine::new(1, 5, NOW);
    let id = peer();
    assert!(!quorum_from_gossip(
        &mut engine,
        MAX_CLAIM_BYTES + 1,
        Some(claim_of(&id, 5)),
        &id
    ));
    assert!(!quorum_from_gossip(&mut engine, MAX_CLAIM_BYTES, None, &id));
    assert!(quorum_from_gossip(
        &mut engine,
        MAX_CLAIM_BYTES,
        Some(claim_of(&id, 5)),
        &id
    ));
    let report = engine.finalize("t", "l");
    assert_eq!(report.rejected_claims.get("oversize_claim"), Some(1));
    assert_eq!(report.rejected_claims.get("malformed_claim"), Some(1));
    assert_eq!(report.accepted_claims, 1);
}

#[test]
fn collectors_are_shared_out_in_turn() {
    let collectors: Vec<u32> = vec![10, 11, 12, 13, 14];
    let mut peers = SenderSet::new();
    assert_eq!(assigned_collectors(&collectors, "b", &peers), collectors);
    assert!(peers.insert("c".to_string()));
    assert!(peers.insert("a".to_string()));
    assert!(!peers.insert("a".to_string()));
    assert_eq!(assigned_collectors(&collectors, "b", &peers), vec![11, 14]);
    assert_eq!(assigned_collectors(&collectors, "a", &peers), vec![10, 12, 14]);
    assert!(peers.remove("c"));
    assert!(!peers.remove("c"));
    assert_eq!(peers.len(), 1);
    assert!(peers.contains("a"));
    assert_eq!(peers.rank("a"), 0);
    assert_eq!(assigned_collectors(&collectors, "b", &peers), vec![11, 13]);
}

#[test]
fn relays_come_from_a_setting_or_are_built_in() {
    assert_eq!(
        nostr_relay_urls(Some(" wss://a , ,wss://b")),
        vec!["wss://a", "wss://b"]
    );
    assert_eq!(nostr_relay_urls(None), DEFAULT_NOSTR_RELAYS.to_vec());
    assert!(nostr_relay_urls(Some("")).is_empty());
}

#[test]
fn keys_have_sixty_four_digits() {
    assert_eq!(deterministic_key_text(1), format!("{:064x}", 1));
    assert_eq!(
        deterministic_key_text(usize::MAX),
        format!("{:064x}", usize::MAX)
    );
    assert_eq!(deterministic_key_text(0), "0".repeat(64));
}

#[test]
fn announcements_say_what_was_agreed() {
    let mut engine = QuorumEngine::new(1, 7, NOW);
    let id = peer();
    assert!(engine.process_claim(claim_of(&id, 7)));
    let artifact = engine.finalize("bitcoin-asmap-quorum", &id);
    let hash = map_hash_hex(&artifact.map);
    assert_eq!(
        hash,
        hex::encode(<sha2::Sha256 as sha2::Digest>::digest(
            artifact.map.to_binary(false)
        ))
    );
    assert_eq!(announcement_subject(7), "Quorum reached for epoch 7");
    assert_eq!(epoch_label(7), "epoch-7");
    assert_eq!(
        announcement(&artifact, "H"),
        "Quorum reached for epoch 7.\n\n- topic: bitcoin-asmap-quorum\n- threshold: 1\n\
         - accepted claims: 1\n- result hash: `H`\n- map hash: `H`"
    );
    assert_eq!(
        attestation("R", "A", "H", 3),
        "Attestation from relay `R` for announcement `A`.\n\n- result hash: `H`\n- map hash: `H`\n\
         - accepted claims: 3"
    );
    assert_eq!(acknowledgement_fault("announcement", 6, 6), None);
    assert_eq!(
        acknowledgement_fault("announcement", 5, 6).unwrap(),
        "nostr announcement was acknowledged by 5 of 6 relays"
    );
}

#[test]
fn peers_come_and_go() {
    let mut roster = Roster::new(vec![10, 11, 12, 13, 14], "b".to_string());
    assert_eq!(roster.assignment(), vec![10, 11, 12, 13, 14]);
    roster.discovered("c".to_string());
    roster.discovered("a".to_string());
    roster.discovered("a".to_string());
    assert_eq!(roster.assignment(), vec![11, 14]);
    roster.expired("c");
    roster.expired("z");
    assert_eq!(roster.assignment(), vec![11, 13]);
}
