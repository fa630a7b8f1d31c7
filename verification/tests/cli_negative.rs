use bitcoin_asmap_quorum::config::{parse_decode_args, parse_encode_args};
use bitcoin_asmap_quorum::load::{load_file, try_save_text};

fn vector(name: &str) -> Vec<u8> {
    match name {
        "malformed.txt" => b"1.2.3.0/24 AS64512\nthis is garbage\n".to_vec(),
        "bad_asn.txt" => b"1.2.3.0/24 ASxyz\n".to_vec(),
        "good.txt" => b"1.2.3.0/24 AS64512\n2.0.0.0/8 AS7\n".to_vec(),
        "non_canonical.txt" => b"1.2.3.4/8 AS7\n".to_vec(),
        "three_byte_utf8.bin" => vec![0x13, 0x00, 0x28],
        "ambiguous.bin" => vec![0x23, 0x7c, 0x0d, 0x00, 0x1c, 0x00, 0x22],
        "fill_differs.bin" => vec![
            0x15, 0xce, 0x00, 0x00, 0x80, 0xa1, 0x03, 0x00, 0xc0, 0x00, 0x00, 0x10, 0x00, 0x00,
            0x70, 0x00, 0x00, 0x00,
        ],
        "minimal_vs_flat.bin" => vec![
            0x79, 0x01, 0x00, 0x00, 0x27, 0x00, 0xc0, 0x03, 0x00, 0xad, 0x01, 0x00, 0x02,
        ],
        _ => panic!("no vector {name}"),
    }
}

fn args(list: &[&str]) -> Vec<String> {
    list.iter().map(|s| s.to_string()).collect()
}

fn encode(contents: &[u8], flags: &[&str]) -> Result<Vec<u8>, String> {
    let mut list = flags.to_vec();
    list.extend(["in", "out"]);
    let config = parse_encode_args(&args(&list));
    assert_eq!(config.output.as_deref(), Some("out"));
    let state = load_file(contents, config.input.as_deref().unwrap()).map_err(|e| e.message())?;
    Ok(state.try_to_binary(config.fill).unwrap())
}

fn decode(contents: &[u8], flags: &[&str]) -> Result<String, String> {
    let mut list = flags.to_vec();
    list.extend(["in", "out"]);
    let config = parse_decode_args(&args(&list));
    assert_eq!(config.output.as_deref(), Some("out"));
    let state = load_file(contents, config.input.as_deref().unwrap()).map_err(|e| e.message())?;
    Ok(try_save_text(&state, config.fill, config.overlapping).unwrap())
}

fn expect_failure<T: std::fmt::Debug>(out: Result<T, String>, needle: &str) {
    let message = out.expect_err("must fail");
    assert!(message.contains(needle), "{message}");
}

#[test]
fn cli_encode_malformed_text_exits_nonzero() {
    expect_failure(
        encode(&vector("malformed.txt"), &[]),
        "unparseable line 'this is garbage'",
    );
}

#[test]
fn cli_encode_invalid_asn_exits_nonzero() {
    expect_failure(encode(&vector("bad_asn.txt"), &[]), "invalid ASN 'ASxyz'");
}

#[test]
fn cli_encode_valid_text_still_succeeds() {
    let bytes = encode(&vector("good.txt"), &[]).unwrap();
    assert!(!bytes.is_empty());
}

#[test]
fn cli_encode_non_canonical_prefix_exits_nonzero() {
    expect_failure(
        encode(&vector("non_canonical.txt"), &[]),
        "invalid network '1.2.3.4/8'",
    );
    assert_ne!(encode(b"1.0.0.0/8 AS7\n", &[]).unwrap(), Vec::<u8>::new());
}

#[test]
fn cli_decode_three_byte_map_succeeds() {
    assert_eq!(
        decode(&vector("three_byte_utf8.bin"), &[]).unwrap(),
        "8000::/1 AS6\n"
    );
}

#[test]
fn cli_decode_ambiguous_input_exits_nonzero() {
    expect_failure(decode(&vector("ambiguous.bin"), &[]), "is ambiguous.");
}

#[test]
fn cli_decode_fill_changes_output() {
    let input = vector("fill_differs.bin");
    let flat = decode(&input, &["-n"]).unwrap();
    let flat_filled = decode(&input, &["--fill", "-n"]).unwrap();
    assert_eq!(
        flat,
        "4000::/3 AS2\n6000::/5 AS1\n7000::/5 AS1\n8000::/2 AS2\nc000::/3 AS1\n"
    );
    assert_eq!(
        flat_filled,
        "4000::/3 AS2\n6000::/3 AS1\n8000::/2 AS2\nc000::/3 AS1\n"
    );
    assert_ne!(flat, flat_filled);
    assert_ne!(
        decode(&input, &[]).unwrap(),
        decode(&input, &["--fill"]).unwrap()
    );
}

#[test]
fn cli_decode_nonoverlapping_flag_changes_output() {
    let input = vector("minimal_vs_flat.bin");
    let default = decode(&input, &[]).unwrap();
    let flat = decode(&input, &["-n"]).unwrap();
    assert_eq!(
        default,
        "::/2 AS2\n6000::/3 AS2\n8000::/1 AS3\ne000::/3 AS2\n"
    );
    assert_eq!(
        flat,
        "::/2 AS2\n6000::/3 AS2\n8000::/2 AS3\nc000::/3 AS3\ne000::/3 AS2\n"
    );
    assert_ne!(default, flat);
    assert!(default.lines().count() < flat.lines().count());
}

#[test]
fn cli_decode_output_re_encodes_to_the_same_map() {
    for name in [
        "minimal_vs_flat.bin",
        "fill_differs.bin",
        "three_byte_utf8.bin",
    ] {
        let original = vector(name);
        for flags in [&[][..], &["-n"][..]] {
            let text = decode(&original, flags).unwrap();
            assert_eq!(encode(text.as_bytes(), &[]).unwrap(), original, "{name}");
        }
    }
}
