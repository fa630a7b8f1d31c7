//! Events that announce a result: their texts, the keys and the relays.

use crate::binary::{fits_binary, map_bits, packing_is_unique, packs};
use crate::consensus::ConsensusArtifact;
use crate::outside::{hex_encode, hex_text, sha256, sha256_digest};
use crate::text::{
    decimal, number_text, push_number, split, split_text, to_chars, to_text, trim, trim_range,
};
use crate::trie::{ASMap, TrieNode};
use crate::votes::texts;
use vstd::arithmetic::power2::{lemma2_to64, lemma_pow2_adds, pow2};
use vstd::prelude::*;
use vstd::slice::slice_subrange;

verus! {

/// The relays that are used where none are given.
pub const DEFAULT_NOSTR_RELAYS: [&'static str; 6] = [
    "wss://relay.damus.io",
    "wss://nos.lol",
    "wss://relay.snort.social",
    "wss://relay.primal.net",
    "wss://relay.nostr.band",
    "wss://offchain.pub",
];

/// `text` is the hexadecimal digest of the binary form of a map.
pub open spec fn is_map_hash(text: Seq<char>, trie: TrieNode) -> bool {
    exists|bytes: Seq<u8>| #[trigger]
        packs(bytes, map_bits(trie, false)) && text == hex_text(sha256_digest(bytes))
}

/// The hexadecimal digest of the binary form of a map.
pub fn map_hash_hex(map: &ASMap) -> (hash: String)
    requires
        map.wf(),
        fits_binary(map@, false),
    ensures
        is_map_hash(hash@, map@),
{
    let bytes = map.to_binary(false);
    let digest = sha256(bytes.as_slice());
    assert(packs(bytes@, map_bits(map@, false)));
    hex_encode(digest.as_slice())
}

/// The secret key with a given number, in 64 hexadecimal digits.
pub open spec fn key_text(seed: nat) -> Seq<char> {
    let digits = number_text(seed, 16);
    Seq::new((64 - digits.len()) as nat, |i: int| '0') + digits
}

/// The secret key with a given number, in 64 hexadecimal digits.
pub fn deterministic_key_text(seed: usize) -> (text: String)
    ensures
        text@ == key_text(seed as nat),
{
    let mut digits = String::new();
    push_number(&mut digits, seed as u128, 16);
    assert(digits@ =~= number_text(seed as nat, 16));
    let len: usize = to_chars(digits.as_str()).len();
    let mut text = String::new();
    let mut i: usize = len;
    proof {
        lemma2_to64();
        lemma_hex_digits(seed as nat, 16);
    }
    while i < 64
        invariant
            len <= i <= 64,
            text@ == Seq::new((i - len) as nat, |j: int| '0'),
        decreases 64 - i,
    {
        text.push('0');
        i = i + 1;
        assert(text@ =~= Seq::new((i - len) as nat, |j: int| '0'));
    }
    text.append(digits.as_str());
    text
}

/// A number of at most `4 * n` bits has at most `n` hexadecimal digits.
proof fn lemma_hex_digits(v: nat, n: nat)
    requires
        n >= 1,
        v < pow2(4 * n),
    ensures
        number_text(v, 16).len() <= n,
    decreases n,
{
    lemma2_to64();
    if v >= 16 {
        assert(n > 1);
        let p = pow2((4 * (n - 1)) as nat);
        lemma_pow2_adds((4 * (n - 1)) as nat, 4);
        assert(v / 16 < p) by (nonlinear_arith)
            requires
                v < p * 16,
        ;
        lemma_hex_digits(v / 16, (n - 1) as nat);
    }
}

/// The relays that a list writes: what stands between commas without the white
/// space around it, if anything.
pub open spec fn relay_list(pieces: Seq<Seq<char>>) -> Seq<Seq<char>>
    decreases pieces.len(),
{
    if pieces.len() == 0 {
        Seq::empty()
    } else {
        let rest = relay_list(pieces.drop_last());
        let relay = trim(pieces.last());
        if relay.len() == 0 {
            rest
        } else {
            rest.push(relay)
        }
    }
}

/// The relays to use: those that a setting lists, or else the built-in ones.
pub fn nostr_relay_urls(setting: Option<&str>) -> (relays: Vec<String>)
    ensures
        texts(relays@) == match setting {
            Some(value) => relay_list(split(value@, ',')),
            None => Seq::new(6, |i: int| DEFAULT_NOSTR_RELAYS@[i]@),
        },
{
    let mut relays: Vec<String> = Vec::new();
    match setting {
        Some(value) => {
            let pieces = split_text(value, ',');
            let ghost all = split(value@, ',');
            let mut i: usize = 0;
            assert(all.take(0) =~= Seq::empty());
            assert(texts(relays@) =~= Seq::empty());
            while i < pieces.len()
                invariant
                    i <= pieces@.len() == all.len(),
                    all == texts(pieces@),
                    texts(relays@) == relay_list(all.take(i as int)),
                decreases pieces@.len() - i,
            {
                let ghost before = texts(relays@);
                assert(all.take(i + 1).drop_last() =~= all.take(i as int));
                assert(all.take(i + 1).last() == pieces@[i as int]@);
                let chars = to_chars(pieces[i].as_str());
                let (start, end): (usize, usize) = trim_range(chars.as_slice());
                if start < end {
                    let relay = to_text(slice_subrange(chars.as_slice(), start, end));
                    relays.push(relay);
                    assert(texts(relays@) =~= before.push(relay@));
                }
                i = i + 1;
            }
            assert(all.take(i as int) =~= all);
        },
        None => {
            let mut i: usize = 0;
            while i < 6
                invariant
                    i <= 6,
                    relays@.len() == i,
                    forall|j: int|
                        0 <= j < i ==> (#[trigger] relays@[j])@ == DEFAULT_NOSTR_RELAYS@[j]@,
                decreases 6 - i,
            {
                relays.push(DEFAULT_NOSTR_RELAYS[i].to_owned());
                i = i + 1;
            }
            assert(texts(relays@) =~= Seq::new(6, |i: int| DEFAULT_NOSTR_RELAYS@[i]@));
        },
    }
    relays
}

/// The subject of the event that announces a result.
pub open spec fn announcement_subject_text(epoch: u64) -> Seq<char> {
    "Quorum reached for epoch "@ + decimal(epoch as nat)
}

/// The subject of the event that announces a result.
pub fn announcement_subject(epoch: u64) -> (text: String)
    ensures
        text@ == announcement_subject_text(epoch),
{
    let mut text = "Quorum reached for epoch ".to_owned();
    push_number(&mut text, epoch as u128, 10);
    text
}

/// The label that names an epoch.
pub fn epoch_label(epoch: u64) -> (text: String)
    ensures
        text@ == "epoch-"@ + decimal(epoch as nat),
{
    let mut text = "epoch-".to_owned();
    push_number(&mut text, epoch as u128, 10);
    text
}

/// The event that announces a result.
pub open spec fn announcement_text(artifact: ConsensusArtifact, hash: Seq<char>) -> Seq<char> {
    announcement_subject_text(artifact.epoch) + ".\n\n- topic: "@ + artifact.topic@
        + "\n- threshold: "@ + decimal(artifact.threshold as nat) + "\n- accepted claims: "@
        + decimal(artifact.accepted_claims as nat) + "\n- result hash: `"@ + hash
        + "`\n- map hash: `"@ + hash + "`"@
}

/// The event that announces a result whose map has a given digest.
pub fn announcement(artifact: &ConsensusArtifact, hash: &str) -> (text: String)
    ensures
        text@ == announcement_text(*artifact, hash@),
{
    let mut text = announcement_subject(artifact.epoch);
    text.append(".\n\n- topic: ");
    text.append(artifact.topic.as_str());
    text.append("\n- threshold: ");
    push_number(&mut text, artifact.threshold as u128, 10);
    text.append("\n- accepted claims: ");
    push_number(&mut text, artifact.accepted_claims as u128, 10);
    text.append("\n- result hash: `");
    text.append(hash);
    text.append("`\n- map hash: `");
    text.append(hash);
    text.append("`");
    text
}

/// The event by which a participant attests an announcement.
pub open spec fn attestation_text(
    relay_id: Seq<char>,
    announcement_id: Seq<char>,
    hash: Seq<char>,
    accepted_claims: nat,
) -> Seq<char> {
    "Attestation from relay `"@ + relay_id + "` for announcement `"@ + announcement_id
        + "`.\n\n- result hash: `"@ + hash + "`\n- map hash: `"@ + hash
        + "`\n- accepted claims: "@ + decimal(accepted_claims)
}

/// The event by which a participant attests an announcement.
pub fn attestation(
    relay_id: &str,
    announcement_id: &str,
    hash: &str,
    accepted_claims: usize,
) -> (text: String)
    ensures
        text@ == attestation_text(
            relay_id@,
            announcement_id@,
            hash@,
            accepted_claims as nat,
        ),
{
    let mut text = "Attestation from relay `".to_owned();
    text.append(relay_id);
    text.append("` for announcement `");
    text.append(announcement_id);
    text.append("`.\n\n- result hash: `");
    text.append(hash);
    text.append("`\n- map hash: `");
    text.append(hash);
    text.append("`\n- accepted claims: ");
    push_number(&mut text, accepted_claims as u128, 10);
    text
}

/// What is said of an event that not every relay acknowledged.
pub open spec fn unacknowledged_text(what: Seq<char>, acknowledged: nat, relays: nat) -> Seq<char> {
    "nostr "@ + what + " was acknowledged by "@ + decimal(acknowledged) + " of "@ + decimal(relays)
        + " relays"@
}

/// What is wrong with how an event was acknowledged, if anything.
pub fn acknowledgement_fault(what: &str, acknowledged: usize, relays: usize) -> (fault: Option<
    String,
>)
    ensures
        match fault {
            Some(text) => acknowledged != relays && text@ == unacknowledged_text(
                what@,
                acknowledged as nat,
                relays as nat,
            ),
            None => acknowledged == relays,
        },
{
    if acknowledged == relays {
        return None;
    }
    let mut text = "nostr ".to_owned();
    text.append(what);
    text.append(" was acknowledged by ");
    push_number(&mut text, acknowledged as u128, 10);
    text.append(" of ");
    push_number(&mut text, relays as u128, 10);
    text.append(" relays");
    Some(text)
}

/// A key is written in 64 digits: those of its number to the base sixteen, with
/// zeros before them.
pub proof fn keys_have_64_digits(seed: nat, i: int)
    requires
        seed < pow2(256),
    ensures
        key_text(seed).len() == 64,
        number_text(seed, 16).len() <= 64,
        0 <= i < 64 - number_text(seed, 16).len() ==> key_text(seed)[i] == '0',
        64 - number_text(seed, 16).len() <= i < 64 ==> key_text(seed)[i] == number_text(
            seed,
            16,
        )[i - (64 - number_text(seed, 16).len())],
{
    lemma_hex_digits(seed, 64);
}

/// Relays are what stands between commas, without the white space around it. What is
/// empty is left out, and the order is kept.
pub proof fn relays_stand_between_commas(
    a: Seq<Seq<char>>,
    b: Seq<Seq<char>>,
    piece: Seq<char>,
)
    ensures
        relay_list(Seq::empty()) == Seq::<Seq<char>>::empty(),
        trim(piece).len() > 0 ==> relay_list(seq![piece]) == seq![trim(piece)],
        trim(piece).len() == 0 ==> relay_list(seq![piece]) == Seq::<Seq<char>>::empty(),
        relay_list(a + b) == relay_list(a) + relay_list(b),
    decreases b.len(),
{
    let one = seq![piece];
    assert(one.drop_last() =~= Seq::empty());
    assert(relay_list(one.drop_last()) =~= Seq::empty());
    if trim(piece).len() > 0 {
        assert(relay_list(one) =~= seq![trim(piece)]);
    }
    if b.len() == 0 {
        assert(a + b =~= a);
        assert(relay_list(a) + relay_list(b) =~= relay_list(a));
    } else {
        relays_stand_between_commas(a, b.drop_last(), piece);
        assert((a + b).drop_last() =~= a + b.drop_last());
        assert((a + b).last() == b.last());
        assert(relay_list(a + b) =~= relay_list(a) + relay_list(b));
    }
}

/// The hash of a map is that of its binary form, whose bytes are determined by the
/// map.
pub proof fn map_hashes_are_digests_of_the_binary_form(
    text: Seq<char>,
    trie: TrieNode,
    bytes: Seq<u8>,
)
    requires
        packs(bytes, map_bits(trie, false)),
    ensures
        is_map_hash(text, trie) <==> text == hex_text(sha256_digest(bytes)),
{
    if is_map_hash(text, trie) {
        let other = choose|other: Seq<u8>| #[trigger]
            packs(other, map_bits(trie, false)) && text == hex_text(sha256_digest(other));
        packing_is_unique(other, bytes, map_bits(trie, false));
    }
}

/// What events say.
pub proof fn what_events_say(
    artifact: ConsensusArtifact,
    hash: Seq<char>,
    relay_id: Seq<char>,
    id: Seq<char>,
    what: Seq<char>,
    m: nat,
    n: nat,
)
    ensures
        announcement_subject_text(artifact.epoch) == "Quorum reached for epoch "@ + decimal(
            artifact.epoch as nat,
        ),
        announcement_text(artifact, hash) == "Quorum reached for epoch "@ + decimal(
            artifact.epoch as nat,
        ) + ".\n\n- topic: "@ + artifact.topic@ + "\n- threshold: "@ + decimal(
            artifact.threshold as nat,
        ) + "\n- accepted claims: "@ + decimal(artifact.accepted_claims as nat)
            + "\n- result hash: `"@ + hash + "`\n- map hash: `"@ + hash + "`"@,
        attestation_text(relay_id, id, hash, m) == "Attestation from relay `"@ + relay_id
            + "` for announcement `"@ + id + "`.\n\n- result hash: `"@ + hash
            + "`\n- map hash: `"@ + hash + "`\n- accepted claims: "@ + decimal(m),
        unacknowledged_text(what, m, n) == "nostr "@ + what + " was acknowledged by "@ + decimal(m)
            + " of "@ + decimal(n) + " relays"@,
{
}

/// The relays that are used where none are given.
pub proof fn these_relays_are_built_in(i: int)
    requires
        0 <= i < 6,
    ensures
        DEFAULT_NOSTR_RELAYS@.len() == 6,
        DEFAULT_NOSTR_RELAYS@[i]@ == seq![
            "wss://relay.damus.io"@,
            "wss://nos.lol"@,
            "wss://relay.snort.social"@,
            "wss://relay.primal.net"@,
            "wss://relay.nostr.band"@,
            "wss://offchain.pub"@,
        ][i],
{
}

} // verus!
