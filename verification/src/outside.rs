//! What other crates compute for this one.

use crate::text::digit_char;
use vstd::prelude::*;

verus! {

/// The SHA-256 digest of `data`.
pub uninterp spec fn sha256_digest(data: Seq<u8>) -> Seq<u8>;

/// The text of the peer id that `text` writes, if it writes one.
pub uninterp spec fn peer_id_text(text: Seq<char>) -> Option<Seq<char>>;

/// The text of the multiaddress that `text` writes, if it writes one.
pub uninterp spec fn multiaddr_text(text: Seq<char>) -> Option<Seq<char>>;

/// The text of the peer id of the Ed25519 key with the secret `seed`.
pub uninterp spec fn ed25519_peer_id(seed: Seq<u8>) -> Seq<char>;

/// Two lower-case hexadecimal digits for each byte.
pub open spec fn hex_text(data: Seq<u8>) -> Seq<char> {
    Seq::new(
        2 * data.len(),
        |i: int|
            if i % 2 == 0 {
                digit_char((data[i / 2] / 16) as nat)
            } else {
                digit_char((data[i / 2] % 16) as nat)
            },
    )
}

/// `sha2::Sha256::digest`: the digest of `data`, which has 32 bytes.
#[verifier::external_body]
pub(crate) fn sha256(data: &[u8]) -> (digest: Vec<u8>)
    ensures
        digest@ == sha256_digest(data@),
        digest@.len() == 32,
{
    <sha2::Sha256 as sha2::Digest>::digest(data).to_vec()
}

/// `hex::encode`: two lower-case hexadecimal digits for each byte, the high one
/// first.
#[verifier::external_body]
pub(crate) fn hex_encode(data: &[u8]) -> (text: String)
    ensures
        text@ == hex_text(data@),
{
    hex::encode(data)
}

/// `libp2p::PeerId`'s `from_str` and `to_string`: reads a peer id and gives its
/// text back. Both are functions of the text alone, and the text of a peer id is
/// read as that peer id.
#[verifier::external_body]
pub(crate) fn parse_peer_id(text: &str) -> (id: Option<String>)
    ensures
        match id {
            Some(t) => peer_id_text(text@) == Some(t@) && peer_id_text(t@) == Some(t@),
            None => peer_id_text(text@) is None,
        },
{
    text.parse::<libp2p::PeerId>().ok().map(|id| id.to_string())
}

/// `libp2p::Multiaddr`'s `from_str` and `to_string`: reads a multiaddress and
/// gives its text back. Both are functions of the text alone.
#[verifier::external_body]
pub(crate) fn parse_multiaddr(text: &str) -> (address: Option<String>)
    ensures
        match address {
            Some(t) => multiaddr_text(text@) == Some(t@),
            None => multiaddr_text(text@) is None,
        },
{
    text.parse::<libp2p::Multiaddr>().ok().map(|address| address.to_string())
}

/// `libp2p::identity::Keypair::ed25519_from_bytes`, `public`, `to_peer_id` and
/// `to_string`: the text of the peer id of the key with a given secret. A secret
/// of 32 bytes always makes a key, and the text is read as that peer id.
#[verifier::external_body]
pub(crate) fn ed25519_id(seed: &[u8]) -> (id: String)
    requires
        seed@.len() == 32,
    ensures
        id@ == ed25519_peer_id(seed@),
        peer_id_text(id@) == Some(id@),
{
    libp2p::identity::Keypair::ed25519_from_bytes(seed.to_vec())
        .expect("a secret of 32 bytes")
        .public()
        .to_peer_id()
        .to_string()
}

/// Each byte is written as two digits, the sixteens first: `0` to `9`, then `a` to
/// `f`.
pub proof fn bytes_are_written_as_two_digits(data: Seq<u8>, i: int)
    requires
        0 <= i < data.len(),
    ensures
        hex_text(data).len() == 2 * data.len(),
        hex_text(data)[2 * i] as int == if data[i] / 16 < 10 {
            48 + data[i] / 16
        } else {
            87 + data[i] / 16
        },
        hex_text(data)[2 * i + 1] as int == if data[i] % 16 < 10 {
            48 + data[i] % 16
        } else {
            87 + data[i] % 16
        },
{
    assert((2 * i) / 2 == i && (2 * i) % 2 == 0);
    assert((2 * i + 1) / 2 == i && (2 * i + 1) % 2 == 1);
    assert(data[i] / 16 < 16);
}

} // verus!
