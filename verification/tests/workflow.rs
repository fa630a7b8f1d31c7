use std::collections::HashSet;

use bitcoin_asmap_quorum::bottleneck::FindBottleneck;
use bitcoin_asmap_quorum::claim::{asmap_to_claim, canonical_claim_bytes, claim_hash};
use bitcoin_asmap_quorum::config::{
    parse_collect_args, parse_import_args, parse_replay_args, parse_serve_args,
    snapshot_sender_id,
};
use bitcoin_asmap_quorum::consensus::ConsensusReport;
use bitcoin_asmap_quorum::node::assigned_collectors;
use bitcoin_asmap_quorum::prefix::RoutingPrefix;
use bitcoin_asmap_quorum::report::{claim_file_lines, replay, verify_artifact, VerifyError};
use bitcoin_asmap_quorum::votes::SenderSet;
use bitcoin_asmap_quorum::{
    ip_to_bits, load_file, save_binary, ASMap, AsmapClaim, AsmapEntry, IpAddr, QuorumEngine,
};

const NOW: u64 = 1_800_000_000;

fn random_peer() -> String {
    libp2p::PeerId::random().to_string()
}

fn entry(ip_prefix: &str, asn: u32) -> AsmapEntry {
    AsmapEntry {
        ip_prefix: ip_prefix.to_string(),
        asn,
    }
}

fn make_claim(epoch: u64, sender_id: String, entries: Vec<AsmapEntry>) -> AsmapClaim {
    let claim_hash = claim_hash(epoch, &sender_id, &entries);
    AsmapClaim {
        epoch,
        sender_id,
        claim_hash,
        entries,
    }
}

fn to_json(claim: &AsmapClaim) -> serde_json::Value {
    let mut entries = Vec::new();
    for e in &claim.entries {
        let mut object = serde_json::Map::new();
        object.insert("ip_prefix".to_string(), e.ip_prefix.clone().into());
        object.insert("asn".to_string(), e.asn.into());
        entries.push(serde_json::Value::Object(object));
    }
    let mut object = serde_json::Map::new();
    object.insert("epoch".to_string(), claim.epoch.into());
    object.insert("sender_id".to_string(), claim.sender_id.clone().into());
    object.insert("claim_hash".to_string(), claim.claim_hash.clone().into());
    object.insert("entries".to_string(), serde_json::Value::Array(entries));
    serde_json::Value::Object(object)
}

#[test]
fn lib_load_claims_supports_json_array_and_jsonl() {
    let claim_a = make_claim(7, "peer-a".to_string(), vec![entry("1.2.3.0/24", 64512)]);
    let claim_b = make_claim(7, "peer-b".to_string(), vec![entry("1.2.3.0/24", 64512)]);

    let array = serde_json::Value::Array(vec![to_json(&claim_a), to_json(&claim_b)]).to_string();
    let array_claims: Vec<serde_json::Value> = serde_json::from_str(&array).unwrap();
    assert_eq!(array_claims.len(), 2);

    let jsonl = format!("{}\n{}\n", to_json(&claim_a), to_json(&claim_b));
    assert!(serde_json::from_str::<Vec<serde_json::Value>>(&jsonl).is_err());
    let lines = claim_file_lines(&jsonl);
    assert_eq!(lines.len(), 2);
    for (line, claim) in lines.iter().zip([&claim_a, &claim_b]) {
        let value: serde_json::Value = serde_json::from_str(&line.1).unwrap();
        assert_eq!(value, to_json(claim));
    }
}

#[test]
fn blank_lines_of_a_claims_file_are_skipped_and_lines_keep_their_numbers() {
    let lines = claim_file_lines("\n  {\"a\":1}\t\r\n   \n{}\n\n");
    assert_eq!(
        lines,
        vec![(2, "{\"a\":1}".to_string()), (4, "{}".to_string())]
    );
    assert!(claim_file_lines("").is_empty());
    assert!(claim_file_lines(" \n\t\n").is_empty());
}

#[test]
fn lib_import_snapshot_roundtrips_to_claim_batch() {
    let state = load_file(b"1.2.3.0/24 AS64512\n", "asmap_snapshot.txt").unwrap();
    let claim = asmap_to_claim(&state, 11, "snapshot-test-0".to_string());
    assert_eq!(claim.epoch, 11);
    assert_eq!(claim.entries.len(), 1);
    assert_eq!(claim.entries[0].ip_prefix, "1.2.3.0/24");
}

#[test]
fn lib_consensus_artifacts_compare_as_maps() {
    let claim_a = make_claim(7, random_peer(), vec![entry("1.2.3.0/24", 64512)]);
    let claim_b = make_claim(7, random_peer(), vec![entry("1.2.3.0/24", 64513)]);

    let mut engine_a = QuorumEngine::new(1, 7, NOW);
    let mut engine_b = QuorumEngine::new(1, 7, NOW);
    assert!(engine_a.process_claim(claim_a));
    assert!(engine_b.process_claim(claim_b));
    let artifact_a = engine_a.finalize("bitcoin-asmap-quorum", &random_peer());
    let artifact_b = engine_b.finalize("bitcoin-asmap-quorum", &random_peer());
    assert_ne!(artifact_a.map, artifact_b.map);
    assert_eq!(artifact_a.map.diff(&artifact_b.map).len(), 1);
}

#[test]
fn lib_bottleneck_state_converts_to_asmap() {
    let bottleneck = FindBottleneck {
        prefix_asn: vec![(
            RoutingPrefix {
                ip: IpAddr::V4(0x0102_0300),
                mask: 24,
            },
            64512,
        )],
    };
    let map = bottleneck.to_asmap();
    assert_eq!(
        map.lookup(&ip_to_bits(IpAddr::V4(0x0102_0304), 32)),
        Some(64512)
    );
}

#[test]
fn lib_workflow_import_replay_verify_roundtrips_real_files() {
    let base_snapshot = "1.2.3.0/24 AS64512\n2.3.4.0/24 AS64513\n";
    let noisy_snapshot = "1.2.3.0/24 AS64512\n2.3.4.0/24 AS64513\n3.4.5.0/24 AS64514\n";

    let mut import_args = vec![
        "-e".to_string(),
        "42".to_string(),
        "--sender-prefix".to_string(),
        "node".to_string(),
        "-o".to_string(),
        "claims.json".to_string(),
    ];
    import_args.extend((0..100).map(|idx| format!("/tmp/snapshot_{idx}.txt")));
    let cfg = parse_import_args(&import_args).unwrap();
    assert_eq!(cfg.inputs.len(), 100);
    assert_eq!(cfg.epoch, 42);
    assert_eq!(cfg.output, "claims.json");

    let mut imported = Vec::new();
    for (idx, input) in cfg.inputs.iter().enumerate() {
        let contents = if idx < 90 {
            base_snapshot
        } else {
            noisy_snapshot
        };
        let state = load_file(contents.as_bytes(), input).unwrap();
        let sender_id = snapshot_sender_id(&cfg.sender_prefix, input, idx);
        imported.push(asmap_to_claim(&state, cfg.epoch, sender_id));
    }
    assert_eq!(imported.len(), 100);
    assert_eq!(
        imported
            .iter()
            .map(|claim| claim.sender_id.clone())
            .collect::<HashSet<_>>()
            .len(),
        100
    );
    assert!(imported
        .iter()
        .all(|claim| claim.sender_id.parse::<libp2p::PeerId>().is_ok()));

    let args: Vec<String> = [
        "-t",
        "67",
        "-e",
        "42",
        "--topic",
        "workflow",
        "--output",
        "consensus.map",
        "--report",
        "consensus.json",
        "claims.json",
    ]
    .iter()
    .map(|s| s.to_string())
    .collect();
    let cfg = parse_replay_args(&args).unwrap();
    let written = replay(
        imported,
        cfg.threshold,
        cfg.epoch,
        &cfg.topic,
        &cfg.local_peer_id,
    )
    .unwrap();
    let map_file = save_binary(&written.map, false);

    let artifact = ConsensusReport::from_artifact(&written)
        .into_artifact()
        .unwrap();
    assert_eq!(artifact.threshold, 67);
    assert_eq!(artifact.accepted_claims, 100);
    assert_eq!(artifact.entries.len(), 2);
    assert_eq!(artifact.topic, "workflow");
    assert_eq!(artifact.local_peer_id, "offline-replay");

    let map = load_file(&map_file, "consensus.map").unwrap();
    assert_eq!(verify_artifact(&artifact, Some(&map)), Ok(()));
    assert_eq!(
        verify_artifact(&artifact, Some(&ASMap::new())),
        Err(VerifyError::MapFile)
    );
}

#[test]
fn lib_collector_assignment_partitions_work_across_peers() {
    let collectors = (0..100).collect::<Vec<u32>>();
    let peers = (0..100).map(|_| random_peer()).collect::<Vec<_>>();

    let mut all_assigned = Vec::new();
    for (idx, peer) in peers.iter().enumerate() {
        let mut known = SenderSet::new();
        for (j, p) in peers.iter().enumerate() {
            if j != idx {
                known.insert(p.clone());
            }
        }
        let assigned = assigned_collectors(&collectors, peer, &known);
        assert!(!assigned.is_empty());
        all_assigned.extend(assigned);
    }
    all_assigned.sort();
    assert_eq!(all_assigned, collectors);
}

#[test]
fn lib_bootstrap_arguments_parse_pinned_multiaddrs() {
    let relay_peer = random_peer();
    let seed_peer = random_peer();
    let args = vec![
        "--bootstrap".to_string(),
        format!("/ip4/127.0.0.1/tcp/4001/p2p/{}", seed_peer),
        "--relay".to_string(),
        format!("/ip4/127.0.0.1/tcp/4002/p2p/{}", relay_peer),
        "input.asmap".to_string(),
        "output.asmap".to_string(),
    ];

    let serve = parse_serve_args(&args).unwrap();
    assert_eq!(serve.bootstrap_peers.len(), 1);
    assert_eq!(serve.relay_bootstraps.len(), 1);
    assert_eq!(serve.input.as_deref(), Some("input.asmap"));
    assert_eq!(serve.output.as_deref(), Some("output.asmap"));

    let collect = parse_collect_args(&args).unwrap();
    assert_eq!(collect.bootstrap_peers.len(), 1);
    assert_eq!(collect.relay_bootstraps.len(), 1);
}

#[test]
fn the_order_of_entries_does_not_change_a_claim() {
    let a = vec![entry("2.0.0.0/8", 2), entry("1.0.0.0/8", 9), entry("1.0.0.0/8", 1)];
    let b = vec![entry("1.0.0.0/8", 1), entry("2.0.0.0/8", 2), entry("1.0.0.0/8", 9)];
    let bytes = canonical_claim_bytes(5, "me", &a);
    assert_eq!(
        String::from_utf8(bytes.clone()).unwrap(),
        "epoch=5\nsender=me\n1.0.0.0/8|1\n1.0.0.0/8|9\n2.0.0.0/8|2\n"
    );
    assert_eq!(bytes, canonical_claim_bytes(5, "me", &b));
    assert_eq!(claim_hash(5, "me", &a), claim_hash(5, "me", &b));
    assert_eq!(
        claim_hash(5, "me", &a),
        hex::encode(<sha2::Sha256 as sha2::Digest>::digest(&bytes))
    );
}

#[test]
fn a_sender_id_reads_back_as_a_peer_id() {
    let id = snapshot_sender_id("snapshot", "data/one.dat", 0);
    assert_ne!(id, "snapshot:one:0");
    assert_eq!(id.parse::<libp2p::PeerId>().unwrap().to_string(), id);
    let seed = <sha2::Sha256 as sha2::Digest>::digest(b"snapshot:one:0").to_vec();
    let keypair = libp2p::identity::Keypair::ed25519_from_bytes(seed).unwrap();
    assert_eq!(id, keypair.public().to_peer_id().to_string());
    assert_ne!(id, snapshot_sender_id("snapshot", "data/one.dat", 1));
}
