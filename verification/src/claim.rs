//! Claims: what a participant asserts about prefixes, and the hash that pins it.

use crate::entries::map_entries;
use crate::load::{check_prefixes, prefixes_fit};
use crate::net::{bits_to_network, network_text};
use crate::outside::{hex_encode, hex_text, sha256, sha256_digest};
use crate::rules::{is_hash_text, is_lower_hex};
use crate::sort::{
    ascending, keys, lemma_ascending, lemma_ascending_unique, order, sorted, Ordered,
};
use crate::text::{
    decimal, is_text_le, lemma_text_le_total, lemma_text_le_trans, push_number, same_text, text_le,
};
use crate::trie::{entries_view, ASMap, TrieNode};
use vstd::prelude::*;
use vstd::utf8::{encode_utf8, is_ascii_chars_encode_utf8};

verus! {

/// A prefix, as text, with the number it maps to.
#[derive(Debug, Clone, PartialEq, Eq)]
pub struct AsmapEntry {
    pub ip_prefix: String,
    pub asn: u32,
}

/// What a participant asserts for one epoch.
#[derive(Debug, Clone, PartialEq, Eq)]
pub struct AsmapClaim {
    pub epoch: u64,
    pub sender_id: String,
    pub claim_hash: String,
    pub entries: Vec<AsmapEntry>,
}

/// The order of entries: by prefix text, then by number.
pub open spec fn entry_le(a: (Seq<char>, u32), b: (Seq<char>, u32)) -> bool {
    if a.0 == b.0 {
        a.1 <= b.1
    } else {
        text_le(a.0, b.0)
    }
}

impl Ordered for AsmapEntry {
    type Key = (Seq<char>, u32);

    open spec fn key(&self) -> (Seq<char>, u32) {
        (self.ip_prefix@, self.asn)
    }

    open spec fn leq(a: (Seq<char>, u32), b: (Seq<char>, u32)) -> bool {
        entry_le(a, b)
    }

    proof fn lemma_total(a: (Seq<char>, u32), b: (Seq<char>, u32), c: (Seq<char>, u32)) {
        lemma_text_le_total(a.0, b.0);
        lemma_text_le_total(b.0, c.0);
        lemma_text_le_total(a.0, c.0);
        if text_le(a.0, b.0) && text_le(b.0, c.0) {
            lemma_text_le_trans(a.0, b.0, c.0);
        }
    }

    fn le(&self, other: &Self) -> (le: bool) {
        if same_text(self.ip_prefix.as_str(), other.ip_prefix.as_str()) {
            self.asn <= other.asn
        } else {
            is_text_le(self.ip_prefix.as_str(), other.ip_prefix.as_str())
        }
    }

    fn copy(&self) -> (copy: Self) {
        AsmapEntry { ip_prefix: self.ip_prefix.clone(), asn: self.asn }
    }
}

/// The lines of entries: prefix and number with a bar between them.
pub open spec fn claim_lines(entries: Seq<(Seq<char>, u32)>) -> Seq<char>
    decreases entries.len(),
{
    if entries.len() == 0 {
        Seq::empty()
    } else {
        claim_lines(entries.drop_last()) + entries.last().0 + seq!['|'] + decimal(
            entries.last().1 as nat,
        ) + seq!['\n']
    }
}

/// The canonical text of a claim: epoch, sender, and the entries in order.
pub open spec fn claim_text(epoch: u64, sender_id: Seq<char>, entries: Seq<(Seq<char>, u32)>) -> Seq<
    char,
> {
    "epoch="@ + decimal(epoch as nat) + "\nsender="@ + sender_id + seq!['\n'] + claim_lines(
        ascending::<AsmapEntry>(entries),
    )
}

/// The hash that a claim must carry.
pub open spec fn claim_digest(
    epoch: u64,
    sender_id: Seq<char>,
    entries: Seq<(Seq<char>, u32)>,
) -> Seq<char> {
    hex_text(sha256_digest(encode_utf8(claim_text(epoch, sender_id, entries))))
}

/// The bytes of a claim that its hash is taken over. The order in which entries
/// are listed does not matter.
pub fn canonical_claim_bytes(epoch: u64, sender_id: &str, entries: &Vec<AsmapEntry>) -> (bytes: Vec<
    u8,
>)
    ensures
        bytes@ == encode_utf8(claim_text(epoch, sender_id@, keys(entries@))),
{
    let ordered = sorted(entries);
    let ghost listed = keys(ordered@);
    let mut text = "epoch=".to_owned();
    push_number(&mut text, epoch as u128, 10);
    text.append("\nsender=");
    text.append(sender_id);
    text.push('\n');
    let ghost head = text@;
    assert(head =~= "epoch="@ + decimal(epoch as nat) + "\nsender="@ + sender_id@ + seq!['\n']);
    let mut i: usize = 0;
    assert(listed.take(0) =~= Seq::empty());
    assert(head + claim_lines(Seq::empty()) =~= head);
    while i < ordered.len()
        invariant
            i <= ordered@.len(),
            listed == keys(ordered@),
            text@ == head + claim_lines(listed.take(i as int)),
        decreases ordered@.len() - i,
    {
        let ghost before = text@;
        text.append(ordered[i].ip_prefix.as_str());
        text.push('|');
        push_number(&mut text, ordered[i].asn as u128, 10);
        text.push('\n');
        i = i + 1;
        assert(listed.take(i as int).drop_last() =~= listed.take(i - 1));
        assert(listed.take(i as int).last() == listed[i - 1]);
        assert(text@ =~= head + claim_lines(listed.take(i as int)));
    }
    assert(listed.take(i as int) =~= listed);
    assert(text@ =~= claim_text(epoch, sender_id@, keys(entries@)));
    text.as_str().as_bytes_vec()
}

/// The hash that a claim must carry.
pub fn claim_hash(epoch: u64, sender_id: &str, entries: &Vec<AsmapEntry>) -> (hash: String)
    ensures
        hash@ == claim_digest(epoch, sender_id@, keys(entries@)),
        is_hash_text(hash@),
{
    let bytes = canonical_claim_bytes(epoch, sender_id, entries);
    let digest = sha256(bytes.as_slice());
    proof {
        lemma_hex_hash(digest@);
    }
    hex_encode(digest.as_slice())
}

/// The hexadecimal text of 32 bytes is a hash text.
proof fn lemma_hex_hash(digest: Seq<u8>)
    requires
        digest.len() == 32,
    ensures
        is_hash_text(hex_text(digest)),
{
    let s = hex_text(digest);
    assert forall|i: int| 0 <= i < s.len() implies is_lower_hex(#[trigger] s[i]) by {
        let b = digest[i / 2];
        assert(b / 16 < 16);
    }
    is_ascii_chars_encode_utf8(s);
}

/// The entries of a map as claims list them.
pub open spec fn claimed_entries(trie: TrieNode) -> Seq<(Seq<char>, u32)> {
    map_entries(trie, false, false).map_values(|e: (Seq<bool>, u32)| (network_text(e.0), e.1))
}

/// The claim that a map is so.
pub fn asmap_to_claim(state: &ASMap, epoch: u64, sender_id: String) -> (claim: AsmapClaim)
    requires
        prefixes_fit(map_entries(state@, false, false)),
    ensures
        claim.epoch == epoch,
        claim.sender_id@ == sender_id@,
        keys(claim.entries@) == claimed_entries(state@),
        claim.claim_hash@ == claim_digest(epoch, sender_id@, claimed_entries(state@)),
        is_hash_text(claim.claim_hash@),
{
    let listed = state.to_entries(false, false);
    let ghost view = entries_view(listed@);
    let mut entries: Vec<AsmapEntry> = Vec::new();
    let mut i: usize = 0;
    while i < listed.len()
        invariant
            i <= listed@.len(),
            view == entries_view(listed@),
            view == map_entries(state@, false, false),
            prefixes_fit(view),
            keys(entries@) == claimed_entries(state@).take(i as int),
        decreases listed@.len() - i,
    {
        let prefix = listed[i].0.as_slice();
        assert forall|j: int| 128 <= j < prefix@.len() implies !#[trigger] prefix@[j] by {
            assert(!view[i as int].0[j]);
        }
        let ghost before = keys(entries@);
        entries.push(AsmapEntry { ip_prefix: bits_to_network(prefix), asn: listed[i].1 });
        assert(keys(entries@) =~= before.push(claimed_entries(state@)[i as int]));
        i = i + 1;
        assert(keys(entries@) =~= claimed_entries(state@).take(i as int));
    }
    assert(claimed_entries(state@).take(i as int) =~= claimed_entries(state@));
    let hash = claim_hash(epoch, sender_id.as_str(), &entries);
    AsmapClaim { epoch, sender_id, claim_hash: hash, entries }
}

/// The claim that a map is so, unless a prefix is longer than an address.
pub fn try_asmap_to_claim(state: &ASMap, epoch: u64, sender_id: String) -> (claim: Option<
    AsmapClaim,
>)
    ensures
        match claim {
            Some(c) => {
                &&& prefixes_fit(map_entries(state@, false, false))
                &&& c.epoch == epoch
                &&& c.sender_id@ == sender_id@
                &&& keys(c.entries@) == claimed_entries(state@)
                &&& c.claim_hash@ == claim_digest(epoch, sender_id@, claimed_entries(state@))
                &&& is_hash_text(c.claim_hash@)
            },
            None => !prefixes_fit(map_entries(state@, false, false)),
        },
{
    if check_prefixes(&state.to_entries(false, false)) {
        Some(asmap_to_claim(state, epoch, sender_id))
    } else {
        None
    }
}

/// Listing the same entries in another order gives the same claim.
pub proof fn claim_text_ignores_entry_order(
    epoch: u64,
    sender_id: Seq<char>,
    a: Seq<(Seq<char>, u32)>,
    b: Seq<(Seq<char>, u32)>,
)
    requires
        a.to_multiset() == b.to_multiset(),
    ensures
        claim_text(epoch, sender_id, a) == claim_text(epoch, sender_id, b),
        claim_digest(epoch, sender_id, a) == claim_digest(epoch, sender_id, b),
{
    lemma_ascending::<AsmapEntry>(a);
    lemma_ascending_unique::<AsmapEntry>(ascending::<AsmapEntry>(a), b);
}

/// Entries are ordered by the text of the prefix, and by number where the prefix is
/// the same.
pub proof fn entries_are_ordered_by_prefix_and_number(
    p: Seq<char>,
    q: Seq<char>,
    m: u32,
    n: u32,
    entry: AsmapEntry,
)
    ensures
        entry.key() == (entry.ip_prefix@, entry.asn),
        AsmapEntry::leq((p, m), (p, n)) == (m <= n),
        p != q ==> AsmapEntry::leq((p, m), (q, n)) == text_le(p, q),
{
}

/// Each entry of a claim has a line, with a bar between prefix and number, and the
/// lines stand one after another.
pub proof fn claim_lines_list_the_entries(
    a: Seq<(Seq<char>, u32)>,
    b: Seq<(Seq<char>, u32)>,
    prefix: Seq<char>,
    asn: u32,
)
    ensures
        claim_lines(Seq::empty()) == Seq::<char>::empty(),
        claim_lines(seq![(prefix, asn)]) == prefix + seq!['|'] + decimal(asn as nat) + seq!['\n'],
        claim_lines(a + b) == claim_lines(a) + claim_lines(b),
    decreases b.len(),
{
    let one = seq![(prefix, asn)];
    assert(one.drop_last() =~= Seq::empty());
    assert(claim_lines(one.drop_last()) =~= Seq::empty());
    assert(claim_lines(one) =~= prefix + seq!['|'] + decimal(asn as nat) + seq!['\n']);
    if b.len() == 0 {
        assert(a + b =~= a);
        assert(claim_lines(a) + claim_lines(b) =~= claim_lines(a));
    } else {
        claim_lines_list_the_entries(a, b.drop_last(), prefix, asn);
        assert((a + b).drop_last() =~= a + b.drop_last());
        assert(claim_lines(a + b) =~= claim_lines(a) + claim_lines(b));
    }
}

/// The text that a claim's hash is taken over: a line with the epoch, a line with
/// the sender, then the lines of the entries, which are put in order first.
pub proof fn claim_texts_have_a_head_and_a_body(
    epoch: u64,
    sender_id: Seq<char>,
    entries: Seq<(Seq<char>, u32)>,
    listed: Seq<(Seq<char>, u32)>,
)
    requires
        listed.to_multiset() == entries.to_multiset(),
        forall|i: int, j: int|
            0 <= i < j < listed.len() ==> AsmapEntry::leq(
                #[trigger] listed[i],
                #[trigger] listed[j],
            ),
    ensures
        claim_text(epoch, sender_id, entries) == "epoch="@ + decimal(epoch as nat) + "\nsender="@
            + sender_id + seq!['\n'] + claim_lines(listed),
        claim_digest(epoch, sender_id, entries) == hex_text(
            sha256_digest(
                encode_utf8(
                    "epoch="@ + decimal(epoch as nat) + "\nsender="@ + sender_id + seq!['\n']
                        + claim_lines(listed),
                ),
            ),
        ),
{
    let leq = order::<AsmapEntry>();
    assert forall|i: int, j: int| 0 <= i < j < listed.len() implies #[trigger] leq(
        listed[i],
        listed[j],
    ) by {
        assert(AsmapEntry::leq(listed[i], listed[j]));
    }
    lemma_ascending_unique::<AsmapEntry>(listed, entries);
}

/// A claim lists the assignments of its map, each network written as text.
pub proof fn claims_list_the_assignments_of_the_map(trie: TrieNode, i: int)
    requires
        0 <= i < map_entries(trie, false, false).len(),
    ensures
        claimed_entries(trie).len() == map_entries(trie, false, false).len(),
        claimed_entries(trie)[i].0 == network_text(map_entries(trie, false, false)[i].0),
        claimed_entries(trie)[i].1 == map_entries(trie, false, false)[i].1,
{
}

} // verus!
