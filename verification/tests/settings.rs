use bitcoin_asmap_quorum::config::{
    default_bootstrap_peers, nostr_sidecar_path, parse_collect_args, parse_compare_args,
    parse_decode_args, parse_diff_addrs_args, parse_diff_args, parse_download_args,
    parse_encode_args, parse_find_bottleneck_args, parse_import_args, parse_multiaddr_list,
    parse_replay_args, parse_serve_args, report_path, require_all, sender_seed, ArgError,
};
use bitcoin_asmap_quorum::IPFS_BOOTSTRAP_NODES;

fn args(list: &[&str]) -> Vec<String> {
    list.iter().map(|s| s.to_string()).collect()
}

#[test]
fn settings_that_are_not_given_have_defaults() {
    let serve = parse_serve_args(&args(&[])).unwrap();
    assert_eq!(serve.input, None);
    assert_eq!(serve.output, None);
    assert_eq!(serve.threshold, 3);
    assert_eq!(serve.epoch, 1);
    assert_eq!(serve.epoch_secs, 60);
    assert_eq!(serve.topic, "bitcoin-asmap-quorum");
    assert!(serve.bootstrap_peers.is_empty());

    let collect = parse_collect_args(&args(&["ignored"])).unwrap();
    assert_eq!(collect.refresh_secs, 1800);
    assert_eq!(collect.topic, "bitcoin-ris-collection");
    assert!(collect.collectors.is_empty());

    let replay = parse_replay_args(&args(&["claims.jsonl"])).unwrap();
    assert_eq!(replay.claims, "claims.jsonl");
    assert_eq!(replay.output, "asmap.map");
    assert_eq!(replay.report, "asmap.json");
    assert_eq!(replay.epoch, None);
    assert_eq!(replay.local_peer_id, "offline-replay");

    let import = parse_import_args(&args(&["a", "b"])).unwrap();
    assert_eq!(import.inputs, args(&["a", "b"]));
    assert_eq!(import.output, "claims.json");
    assert_eq!(import.epoch, 1);
    assert_eq!(import.sender_prefix, "snapshot");

    assert_eq!(
        parse_download_args(&args(&[])).unwrap(),
        ("dump".to_string(), Vec::new())
    );
    assert_eq!(
        parse_find_bottleneck_args(&args(&["-d", "dumps"])).unwrap(),
        ("dumps".to_string(), None)
    );
}

#[test]
fn settings_that_are_given_are_taken() {
    let collect = parse_collect_args(&args(&[
        "-t", "5", "--epoch", "9", "--epoch-secs", "30", "--refresh-secs", "7", "--topic", "t", "-n",
        "1,,2", "--collectors", "24", "-o", "x.map",
    ]))
    .unwrap();
    assert_eq!(collect.threshold, 5);
    assert_eq!(collect.epoch, 9);
    assert_eq!(collect.epoch_secs, 30);
    assert_eq!(collect.refresh_secs, 7);
    assert_eq!(collect.topic, "t");
    assert_eq!(collect.collectors, vec![1, 2, 24]);
    assert_eq!(collect.output.as_deref(), Some("x.map"));

    // `-o` is no setting of serve, so it is an argument like any other.
    let serve = parse_serve_args(&args(&["-o", "--threshold", "4"])).unwrap();
    assert_eq!(serve.input.as_deref(), Some("-o"));
    assert_eq!(serve.threshold, 4);

    let (out, collectors) = parse_download_args(&args(&["--out", "d", "-n", "18"])).unwrap();
    assert_eq!(out, "d");
    assert_eq!(collectors, vec![18]);

    let (dir, out) = parse_find_bottleneck_args(&args(&["--dir", "d", "-o", "o"])).unwrap();
    assert_eq!(dir, "d");
    assert_eq!(out.as_deref(), Some("o"));
}

fn message<T>(read: Result<T, ArgError>) -> String {
    match read {
        Ok(_) => panic!("must not be read"),
        Err(e) => e.message(),
    }
}

#[test]
fn wrong_settings_are_reported() {
    assert_eq!(
        message(parse_serve_args(&args(&["--topic"]))),
        "missing value for --topic"
    );
    assert_eq!(
        message(parse_serve_args(&args(&["-t", "many"]))),
        "invalid threshold 'many'"
    );
    assert_eq!(
        message(parse_serve_args(&args(&["-e", "-1"]))),
        "invalid epoch '-1'"
    );
    assert_eq!(
        message(parse_serve_args(&args(&["--epoch-secs", ""]))),
        "invalid epoch-secs ''"
    );
    assert_eq!(
        message(parse_collect_args(&args(&["--refresh-secs", "x"]))),
        "invalid refresh-secs 'x'"
    );
    assert_eq!(
        message(parse_collect_args(&args(&["-n", "1,x"]))),
        "invalid collector list '1,x'"
    );
    assert_eq!(
        message(parse_serve_args(&args(&["--bootstrap", "/ip4/1.2.3.4/tcp/1,nowhere"]))),
        "invalid multiaddr 'nowhere'"
    );
    assert_eq!(
        message(parse_serve_args(&args(&["--relay", "/ip4/"]))),
        "invalid multiaddr '/ip4/'"
    );
    assert_eq!(
        message(parse_replay_args(&args(&["-t", "1"]))),
        "replay requires a claims file"
    );
    assert_eq!(
        message(parse_import_args(&args(&[]))),
        "import requires at least one snapshot input file"
    );
    assert_eq!(
        message(parse_find_bottleneck_args(&args(&[]))),
        "find-bottleneck requires --dir"
    );
    assert_eq!(
        message(parse_diff_args(&args(&["one"]))),
        "diff requires two input files"
    );
    assert_eq!(
        message(parse_diff_addrs_args(&args(&["one", "two"]))),
        "diff_addrs requires two input files and an address file"
    );
    assert_eq!(
        message(parse_compare_args(&args(&["one"]))),
        "compare requires two report files"
    );
    assert_eq!(
        ArgError::DefaultBootstrap("x".to_string()).message(),
        "invalid default bootstrap multiaddr 'x'"
    );
}

#[test]
fn flags_without_values_may_stand_anywhere() {
    let encode = parse_encode_args(&args(&["in", "-f", "out"]));
    assert!(encode.fill);
    assert_eq!(encode.input.as_deref(), Some("in"));
    assert_eq!(encode.output.as_deref(), Some("out"));

    let decode = parse_decode_args(&args(&["--nonoverlapping", "in"]));
    assert!(!decode.fill);
    assert!(!decode.overlapping);
    assert_eq!(decode.input.as_deref(), Some("in"));
    assert_eq!(decode.output, None);
    assert!(parse_decode_args(&args(&[])).overlapping);

    let diff = parse_diff_args(&args(&["a", "b", "-i"])).unwrap();
    assert!(diff.ignore_unassigned);
    assert_eq!((diff.left.as_str(), diff.right.as_str()), ("a", "b"));

    let addrs = parse_diff_addrs_args(&args(&["a", "-s", "b", "c"])).unwrap();
    assert!(addrs.show_addresses);
    assert_eq!(addrs.addresses, "c");

    assert_eq!(
        parse_compare_args(&args(&["a", "b"])).unwrap(),
        ("a".to_string(), "b".to_string())
    );
}

#[test]
fn addresses_come_back_in_their_own_form() {
    let list = parse_multiaddr_list("/ip4/127.0.0.1/tcp/1,,/ip6/::1/udp/4001/quic-v1").unwrap();
    assert_eq!(list, args(&["/ip4/127.0.0.1/tcp/1", "/ip6/::1/udp/4001/quic-v1"]));
    let long = parse_multiaddr_list("/ip6/0:0:0:0:0:0:0:1/tcp/1").unwrap();
    assert_eq!(long, args(&["/ip6/::1/tcp/1"]));
    assert_eq!(parse_multiaddr_list("").unwrap(), Vec::<String>::new());
    assert_eq!(parse_multiaddr_list("x,y").unwrap_err(), "x");

    let asked = args(&["/ip4/127.0.0.1/tcp/1"]);
    let peers = default_bootstrap_peers(&asked).unwrap();
    assert_eq!(peers.len(), 5);
    assert_eq!(peers[0], IPFS_BOOTSTRAP_NODES[0]);
    assert_eq!(peers[3], IPFS_BOOTSTRAP_NODES[3]);
    assert_eq!(peers[4], asked[0]);
}

#[test]
fn all_items_or_the_first_that_cannot_be_read() {
    let items = args(&["a", "b", "c"]);
    assert_eq!(
        require_all(
            &items,
            vec![Some("A".to_string()), Some("B".to_string()), Some("C".to_string())]
        ),
        Ok(args(&["A", "B", "C"]))
    );
    assert_eq!(
        require_all(&items, vec![Some("A".to_string()), None, None]),
        Err("b".to_string())
    );
    assert_eq!(require_all(&Vec::new(), Vec::new()), Ok(Vec::new()));
}

#[test]
fn the_report_goes_beside_the_map() {
    for (output, report) in [
        ("asmap.map", "asmap.json"),
        ("out/asmap", "out/asmap.json"),
        ("a.b/c.d.e", "a.b/c.d.json"),
        (".hidden", ".hidden.json"),
        ("dir/", "dir.json"),
        ("dir/.", "dir.json"),
        ("dir/..", "dir/.."),
        ("..", ".."),
        ("/", "/"),
        ("", ""),
        ("a.", "a.json"),
        ("...", "...json"),
    ] {
        assert_eq!(report_path(output), report, "{output}");
        let mut path = std::path::PathBuf::from(output);
        path.set_extension("json");
        assert_eq!(report, path.to_str().unwrap(), "{output}");
    }
    assert_eq!(nostr_sidecar_path("out/r.json"), "out/r.nostr.json");
}

#[test]
fn seeds_are_made_from_the_stem() {
    for (path, stem) in [
        ("data/one.dat", "one"),
        ("one", "one"),
        ("a/b.tar.gz", "b.tar"),
        (".x", ".x"),
        ("a/..", "snapshot"),
        ("", "snapshot"),
        ("a/./", "a"),
    ] {
        assert_eq!(sender_seed("p", path, 3), format!("p:{stem}:3"), "{path}");
        assert_eq!(
            std::path::Path::new(path)
                .file_stem()
                .and_then(|s| s.to_str())
                .unwrap_or("snapshot"),
            stem,
            "{path}"
        );
    }
}
