//! What a round of claims comes to: who is counted, and what is agreed on.

use crate::addr::{ip_text, lemma_ip_text_chars, lemma_ip_text_len};
use crate::claim::{claim_digest, claimed_entries};
use crate::consensus::{
    is_winner, lemma_report_order_unique, report_bits, report_determines_the_map,
    the_order_of_entries_does_not_matter, winning, ConsensusArtifact, ReportView,
};
use crate::engine::{
    accepted_claims_count_once, accepts, every_claim_is_accounted_for, is_final, lemma_cleared_ok,
    rejected_claims_change_only_the_record, vote_bits, EngineView,
};
use crate::entries::{
    entries_are_in_address_order, entries_round_trip, map_entries,
    unassigned_space_is_never_listed,
};
use crate::net::{
    lemma_net_text_parts, net_read, network_text, network_text_round_trip, prefix_bits,
};
use crate::outside::peer_id_text;
use crate::prefix::{consensus_prefix, lemma_masked};
use crate::report::replayed;
use crate::rules::{
    byte_len, conflict_among, entries_fault, is_hash_text, vote_key, vote_keys, ClaimView,
    MAX_PREFIX_LEN,
};
use crate::text::{decimal, digit_value, lemma_number_text, number_text};
use crate::trie::{resolve, TrieNode};
use crate::votes::{lemma_ascending_texts_unique, tallied};
use vstd::prelude::*;
use vstd::utf8::{is_ascii_chars, is_ascii_chars_encode_utf8};

verus! {

/// How many of the claims assert `k`.
pub open spec fn support(claims: Seq<ClaimView>, k: (Seq<char>, u32)) -> nat
    decreases claims.len(),
{
    if claims.len() == 0 {
        0
    } else {
        support(claims.drop_last(), k) + if vote_keys(claims.last().entries).contains(k) {
            1nat
        } else {
            0nat
        }
    }
}

/// A claim counts: its sender id is a peer id, and the engine accepts it.
pub open spec fn counts(e: EngineView, claim: ClaimView) -> bool {
    peer_id_text(claim.sender) matches Some(id) && accepts(e, claim, id)
}

/// The claims that count in the epoch that a replay ends in. A claim for a later
/// epoch leaves those before it behind.
pub open spec fn counted_claims(e: EngineView, claims: Seq<ClaimView>) -> Seq<ClaimView>
    decreases claims.len(),
{
    if claims.len() == 0 {
        Seq::empty()
    } else {
        let before = replayed(e, claims.drop_last());
        let rest = counted_claims(e, claims.drop_last());
        let claim = claims.last();
        if !counts(before, claim) {
            rest
        } else if claim.epoch > before.epoch {
            seq![claim]
        } else {
            rest.push(claim)
        }
    }
}

/// No two claims are from one sender.
pub open spec fn senders_differ(claims: Seq<ClaimView>) -> bool {
    forall|i: int, j: int|
        0 <= i < j < claims.len() ==> (#[trigger] claims[i]).sender != (#[trigger] claims[j]).sender
}

/// An engine that has heard nothing in its epoch.
pub open spec fn is_fresh(e: EngineView) -> bool {
    &&& e.ok()
    &&& e.senders == Set::<Seq<char>>::empty()
    &&& e.votes == Map::<(Seq<char>, u32), nat>::empty()
}

/// The state tells what the claims that count say.
pub open spec fn tells(e: EngineView, claims: Seq<ClaimView>) -> bool {
    &&& e.ok()
    &&& senders_differ(claims)
    &&& forall|id: Seq<char>| #[trigger]
        e.senders.contains(id) == exists|i: int|
            0 <= i < claims.len() && (#[trigger] claims[i]).sender == id
    &&& e.accepted == claims.len()
    &&& forall|i: int| 0 <= i < claims.len() ==> (#[trigger] claims[i]).epoch == e.epoch
    &&& forall|k: (Seq<char>, u32)| #[trigger]
        e.votes.dom().contains(k) == (support(claims, k) > 0)
    &&& forall|k: (Seq<char>, u32)| #[trigger]
        e.votes.dom().contains(k) ==> e.votes[k] == support(claims, k)
}

/// Whatever is replayed, the votes for an assignment are the claims of the epoch
/// that count and assert it, each from a sender of its own; and whoever made such
/// a claim took part.
pub proof fn votes_are_claims_that_count(e: EngineView, claims: Seq<ClaimView>)
    requires
        is_fresh(e),
    ensures
        tells(replayed(e, claims), counted_claims(e, claims)),
    decreases claims.len(),
{
    if claims.len() == 0 {
        assert(e.senders.len() == 0);
    } else {
        let before = replayed(e, claims.drop_last());
        let rest = counted_claims(e, claims.drop_last());
        let claim = claims.last();
        let source = peer_id_text(claim.sender);
        let after = replayed(e, claims);
        votes_are_claims_that_count(e, claims.drop_last());
        every_claim_is_accounted_for(before, claim, source);
        if counts(before, claim) {
            let id = source->0;
            assert(after == before.claimed(claim, id).0);
            accepted_claims_count_once(before, claim, id);
            if claim.epoch > before.epoch {
                lemma_cleared_ok(before, claim.epoch);
                lemma_added(before.cleared(claim.epoch), Seq::empty(), claim, after);
                assert(Seq::empty().push(claim) =~= seq![claim]);
            } else {
                lemma_added(before, rest, claim, after);
            }
        } else if source is Some {
            rejected_claims_change_only_the_record(before, claim, source->0);
        }
    }
}

/// One more claim that counts.
proof fn lemma_added(e: EngineView, claims: Seq<ClaimView>, claim: ClaimView, after: EngineView)
    requires
        tells(e, claims),
        after.ok(),
        after.epoch == claim.epoch == e.epoch,
        !e.senders.contains(claim.sender),
        after.senders == e.senders.insert(claim.sender),
        after.votes == tallied(e.votes, vote_keys(claim.entries)),
        after.accepted == e.accepted + 1,
    ensures
        tells(after, claims.push(claim)),
{
    let all = claims.push(claim);
    assert(all.drop_last() =~= claims);
    assert forall|i: int, j: int| 0 <= i < j < all.len() implies (#[trigger] all[i]).sender != (
    #[trigger] all[j]).sender by {
        assert(all[i] == claims[i]);
        if j < claims.len() {
            assert(all[j] == claims[j]);
        } else {
            assert(e.senders.contains(claims[i].sender));
        }
    }
    assert forall|id: Seq<char>| #[trigger]
        after.senders.contains(id) == exists|i: int|
            0 <= i < all.len() && (#[trigger] all[i]).sender == id by {
        if e.senders.contains(id) {
            let i = choose|i: int| 0 <= i < claims.len() && (#[trigger] claims[i]).sender == id;
            assert(all[i].sender == id);
        }
        if id == claim.sender {
            assert(all[claims.len() as int].sender == id);
        }
        if exists|i: int| 0 <= i < all.len() && (#[trigger] all[i]).sender == id {
            let i = choose|i: int| 0 <= i < all.len() && (#[trigger] all[i]).sender == id;
            if i < claims.len() {
                assert(claims[i].sender == id);
            }
        }
    }
    assert forall|i: int| 0 <= i < all.len() implies (#[trigger] all[i]).epoch == after.epoch by {
        if i < claims.len() {
            assert(all[i] == claims[i]);
        }
    }
    assert forall|k: (Seq<char>, u32)| #[trigger]
        after.votes.dom().contains(k) == (support(all, k) > 0) by {
        assert(e.votes.dom().contains(k) == (support(claims, k) > 0));
    }
    assert forall|k: (Seq<char>, u32)| #[trigger]
        after.votes.dom().contains(k) implies after.votes[k] == support(all, k) by {
        assert(e.votes.dom().contains(k) == (support(claims, k) > 0));
    }
}

/// An assignment is published exactly if enough of the claims that count assert
/// it and no other number for the prefix has more of them or, with as many, is
/// smaller; it is published with their number.
pub proof fn published_entries_have_support(
    e: EngineView,
    claims: Seq<ClaimView>,
    report: ReportView,
    topic: Seq<char>,
    local_peer_id: Seq<char>,
    entry: (nat, Seq<char>, u32),
)
    requires
        is_fresh(e),
        is_final(report, replayed(e, claims), topic, local_peer_id),
    ensures
        ({
            let counted = counted_claims(e, claims);
            let votes = support(counted, (entry.1, entry.2));
            report.entries.contains(entry) <==> {
                &&& entry.0 == votes
                &&& votes >= 1
                &&& votes >= replayed(e, claims).threshold
                &&& forall|asn: u32|
                    (#[trigger] support(counted, (entry.1, asn))) < votes || support(
                        counted,
                        (entry.1, asn),
                    ) == votes && entry.2 <= asn
            }
        }),
{
    let counted = counted_claims(e, claims);
    let after = replayed(e, claims);
    votes_are_claims_that_count(e, claims);
    let k = (entry.1, entry.2);
    assert(report.entries.contains(entry) == report.entries.to_set().contains(entry));
    assert(after.votes.dom().contains(k) == (support(counted, k) > 0));
    if report.entries.contains(entry) {
        assert forall|asn: u32|
            (#[trigger] support(counted, (entry.1, asn))) < support(counted, k) || support(
                counted,
                (entry.1, asn),
            ) == support(counted, k) && entry.2 <= asn by {
            let other = (k.0, asn);
            assert(after.votes.dom().contains(other) == (support(counted, other) > 0));
        }
    }
    if support(counted, k) >= 1 && support(counted, k) >= after.threshold && (forall|asn: u32|
        (#[trigger] support(counted, (entry.1, asn))) < support(counted, k) || support(
            counted,
            (entry.1, asn),
        ) == support(counted, k) && entry.2 <= asn) && entry.0 == support(counted, k) {
        assert forall|asn: u32| #[trigger]
            after.votes.dom().contains((k.0, asn)) implies after.votes[(k.0, asn)]
            < after.votes[k] || after.votes[(k.0, asn)] == after.votes[k] && k.1 <= asn by {
            assert(after.votes[(k.0, asn)] == support(counted, (k.0, asn)));
        }
        assert(is_winner(after.votes, after.threshold, k));
    }
}

/// A claim that the engine accepts in the epoch under way, if its sender has not
/// been heard and there is room.
pub open spec fn is_good_claim(e: EngineView, claim: ClaimView) -> bool {
    &&& claim.epoch == e.epoch
    &&& peer_id_text(claim.sender) == Some(claim.sender)
    &&& e.gate_fault(claim, claim.sender) is None
}

/// Good claims from different senders, not more than there is room for.
pub open spec fn is_round(e: EngineView, claims: Seq<ClaimView>) -> bool {
    &&& is_fresh(e)
    &&& claims.len() <= e.limits.max_senders
    &&& senders_differ(claims)
    &&& forall|i: int| 0 <= i < claims.len() ==> is_good_claim(e, #[trigger] claims[i])
}

/// Every claim of a round counts, and none is rejected.
pub proof fn good_claims_all_count(e: EngineView, claims: Seq<ClaimView>)
    requires
        is_round(e, claims),
    ensures
        counted_claims(e, claims) == claims,
        ({
            let after = replayed(e, claims);
            &&& after.epoch == e.epoch
            &&& after.limits == e.limits
            &&& after.threshold == e.threshold
            &&& after.rejected == e.rejected
        }),
    decreases claims.len(),
{
    if claims.len() > 0 {
        let rest = claims.drop_last();
        let claim = claims.last();
        assert forall|i: int| 0 <= i < rest.len() implies is_good_claim(e, #[trigger] rest[i]) by {
            assert(rest[i] == claims[i]);
        }
        good_claims_all_count(e, rest);
        votes_are_claims_that_count(e, rest);
        let before = replayed(e, rest);
        assert(is_good_claim(e, claims[claims.len() - 1]));
        assert(before.gate_fault(claim, claim.sender) == e.gate_fault(claim, claim.sender));
        if before.senders.contains(claim.sender) {
            let i = choose|i: int| 0 <= i < rest.len() && (#[trigger] rest[i]).sender == claim.sender;
            assert(claims[i].sender == claims[claims.len() - 1].sender);
        }
        assert(counts(before, claim));
        accepted_claims_count_once(before, claim, claim.sender);
        assert(rest.push(claim) =~= claims);
    } else {
        assert(claims =~= Seq::empty());
    }
}

/// Leaving out a claim.
proof fn lemma_support_without(claims: Seq<ClaimView>, i: int, k: (Seq<char>, u32))
    requires
        0 <= i < claims.len(),
    ensures
        support(claims, k) == support(claims.remove(i), k) + if vote_keys(
            claims[i].entries,
        ).contains(k) {
            1nat
        } else {
            0nat
        },
    decreases claims.len(),
{
    if i == claims.len() - 1 {
        assert(claims.remove(i) =~= claims.drop_last());
    } else {
        lemma_support_without(claims.drop_last(), i, k);
        assert(claims.remove(i).drop_last() =~= claims.drop_last().remove(i));
        assert(claims.remove(i).last() == claims.last());
    }
}

/// The order of claims does not matter for what they assert.
proof fn lemma_support_ignores_order(
    a: Seq<ClaimView>,
    b: Seq<ClaimView>,
    k: (Seq<char>, u32),
)
    requires
        a.to_multiset() == b.to_multiset(),
    ensures
        support(a, k) == support(b, k),
    decreases a.len(),
{
    a.to_multiset_ensures();
    b.to_multiset_ensures();
    if a.len() == 0 {
        assert(b.len() == 0);
    } else {
        let claim = a.last();
        let n = a.len() - 1;
        assert(a.contains(a[n]));
        assert(b.to_multiset().count(claim) > 0);
        assert(b.contains(claim));
        let i = choose|i: int| 0 <= i < b.len() && b[i] == claim;
        lemma_support_without(a, n, k);
        lemma_support_without(b, i, k);
        assert(a.remove(n).to_multiset() =~= a.to_multiset().remove(a[n]));
        assert(b.remove(i).to_multiset() =~= b.to_multiset().remove(b[i]));
        lemma_support_ignores_order(a.remove(n), b.remove(i), k);
    }
}

/// The tally of a round does not depend on the order of its claims.
proof fn lemma_same_tally(e: EngineView, a: Seq<ClaimView>, b: Seq<ClaimView>)
    requires
        is_round(e, a),
        is_round(e, b),
        a.to_multiset() == b.to_multiset(),
    ensures
        ({
            let x = replayed(e, a);
            let y = replayed(e, b);
            &&& x.epoch == y.epoch
            &&& x.threshold == y.threshold
            &&& x.rejected == y.rejected
            &&& x.accepted == y.accepted
            &&& x.senders == y.senders
            &&& x.votes == y.votes
        }),
{
    let x = replayed(e, a);
    let y = replayed(e, b);
    good_claims_all_count(e, a);
    good_claims_all_count(e, b);
    votes_are_claims_that_count(e, a);
    votes_are_claims_that_count(e, b);
    a.to_multiset_ensures();
    b.to_multiset_ensures();
    assert forall|k: (Seq<char>, u32)| #[trigger]
        x.votes.dom().contains(k) == y.votes.dom().contains(k) && (x.votes.dom().contains(k)
            ==> x.votes[k] == y.votes[k]) by {
        lemma_support_ignores_order(a, b, k);
        assert(x.votes.dom().contains(k) == (support(a, k) > 0));
        assert(y.votes.dom().contains(k) == (support(b, k) > 0));
    }
    assert(x.votes =~= y.votes);
    assert forall|id: Seq<char>| #[trigger]
        x.senders.contains(id) == y.senders.contains(id) by {
        if x.senders.contains(id) {
            lemma_sender_listed(a, b, id);
        }
        if y.senders.contains(id) {
            lemma_sender_listed(b, a, id);
        }
    }
    assert(x.senders =~= y.senders);
}

/// The claims of a round may come in any order: but for the record of who was
/// heard when, the same is published.
pub proof fn the_order_of_claims_does_not_matter(
    e: EngineView,
    a: Seq<ClaimView>,
    b: Seq<ClaimView>,
    topic: Seq<char>,
    local_peer_id: Seq<char>,
    x: ConsensusArtifact,
    y: ConsensusArtifact,
)
    requires
        is_round(e, a),
        is_round(e, b),
        a.to_multiset() == b.to_multiset(),
        x.wf(),
        y.wf(),
        is_final(x.report(), replayed(e, a), topic, local_peer_id),
        is_final(y.report(), replayed(e, b), topic, local_peer_id),
    ensures
        x.report() == (ReportView { observations: x.report().observations, ..y.report() }),
        x.map@ == y.map@,
{
    lemma_same_tally(e, a, b);
    lemma_ascending_texts_unique(x.report().participants, y.report().participants);
    lemma_report_order_unique(x.report().entries, y.report().entries);
    report_determines_the_map(x.map, y.map, x.report().entries);
}

proof fn lemma_sender_listed(a: Seq<ClaimView>, b: Seq<ClaimView>, id: Seq<char>)
    requires
        a.to_multiset() == b.to_multiset(),
        exists|i: int| 0 <= i < a.len() && (#[trigger] a[i]).sender == id,
    ensures
        exists|i: int| 0 <= i < b.len() && (#[trigger] b[i]).sender == id,
{
    a.to_multiset_ensures();
    b.to_multiset_ensures();
    let i = choose|i: int| 0 <= i < a.len() && (#[trigger] a[i]).sender == id;
    assert(a.contains(a[i]));
    assert(b.to_multiset().count(a[i]) > 0);
    assert(b.contains(a[i]));
    let j = choose|j: int| 0 <= j < b.len() && b[j] == a[i];
    assert(b[j].sender == id);
}

/// The text of a prefix names the prefix, and is in canonical form.
proof fn lemma_network_vote(bits: Seq<bool>)
    requires
        bits.len() <= 128,
    ensures
        consensus_prefix(network_text(bits)) matches Some(prefix) && {
            &&& prefix.text() == network_text(bits)
            &&& prefix_bits(prefix.ip, prefix.mask as nat) == bits
        },
        byte_len(network_text(bits)) <= MAX_PREFIX_LEN,
{
    let s = network_text(bits);
    network_text_round_trip(bits);
    let (ip, len) = net_read(s)->Ok_0;
    lemma_masked(ip, len as nat);
    lemma_net_text_parts(ip, len as nat);
    lemma_ip_text_len(ip);
    lemma_ip_text_chars(ip);
    lemma_number_text(len as nat, 10);
    let n = ip_text(ip).len() as int;
    let digits = decimal(len as nat);
    assert(digits.len() <= 3) by {
        reveal_with_fuel(number_text, 4);
    }
    assert(is_ascii_chars(s)) by {
        assert forall|i: int| 0 <= i < s.len() implies (s[i] as u32) < 128 by {
            if i < n {
                assert(s[i] == ip_text(ip)[i]);
            } else if i > n {
                assert(s[i] == digits[i - n - 1]);
                assert(digit_value(digits[i - n - 1], 10) is Some);
            }
        }
    }
    is_ascii_chars_encode_utf8(s);
}

/// Every prefix of the map is one of addresses.
pub open spec fn prefixes_short(trie: TrieNode) -> bool {
    forall|i: int|
        0 <= i < map_entries(trie, false, false).len() ==> (#[trigger] map_entries(
            trie,
            false,
            false,
        )[i]).0.len() <= 128
}

/// What the entries of a map's claim are votes for.
proof fn lemma_claimed_votes(trie: TrieNode)
    requires
        prefixes_short(trie),
    ensures
        ({
            let listed = map_entries(trie, false, false);
            let claimed = claimed_entries(trie);
            &&& claimed.len() == listed.len()
            &&& forall|i: int|
                0 <= i < claimed.len() ==> {
                    let entry = #[trigger] claimed[i];
                    &&& vote_key(entry) == entry
                    &&& vote_bits(entry) == listed[i].0
                    &&& entry.1 == listed[i].1
                    &&& entry.1 != 0
                    &&& consensus_prefix(entry.0) is Some
                    &&& byte_len(entry.0) <= MAX_PREFIX_LEN
                }
            &&& forall|i: int, j: int|
                0 <= i < claimed.len() && 0 <= j < claimed.len() && (#[trigger] claimed[i]).0 == (
                #[trigger] claimed[j]).0 ==> i == j
        }),
{
    let listed = map_entries(trie, false, false);
    let claimed = claimed_entries(trie);
    unassigned_space_is_never_listed(trie, false, false);
    entries_are_in_address_order(trie, false, false);
    assert forall|i: int| 0 <= i < claimed.len() implies {
        let entry = #[trigger] claimed[i];
        &&& vote_key(entry) == entry
        &&& vote_bits(entry) == listed[i].0
        &&& entry.1 == listed[i].1
        &&& entry.1 != 0
        &&& consensus_prefix(entry.0) is Some
        &&& byte_len(entry.0) <= MAX_PREFIX_LEN
    } by {
        assert(listed[i].0.len() <= 128);
        lemma_network_vote(listed[i].0);
    }
    assert forall|i: int, j: int|
        0 <= i < claimed.len() && 0 <= j < claimed.len() && (#[trigger] claimed[i]).0 == (
        #[trigger] claimed[j]).0 implies i == j by {
        assert(vote_bits(claimed[i]) == listed[i].0);
        assert(vote_bits(claimed[j]) == listed[j].0);
    }
}

/// The claim of a map has readable prefixes, no unassigned entry and no conflict:
/// if anything is wrong with its entries, the map itself has a number above the
/// bound, covers all addresses of a version by one entry, or covers mapped
/// addresses together with others.
pub proof fn claims_of_maps_are_well_formed(trie: TrieNode)
    requires
        prefixes_short(trie),
    ensures
        entries_fault(claimed_entries(trie), claimed_entries(trie).len() as int) matches Some(fault)
            ==> {
            ||| fault is AsnOutOfRange
            ||| fault is DefaultRoutePrefix
            ||| fault is Ipv4MappedPrefix
        },
{
    lemma_claimed_faults(trie, claimed_entries(trie).len() as int);
}

proof fn lemma_claimed_faults(trie: TrieNode, n: int)
    requires
        prefixes_short(trie),
        0 <= n <= claimed_entries(trie).len(),
    ensures
        entries_fault(claimed_entries(trie), n) matches Some(fault) ==> {
            ||| fault is AsnOutOfRange
            ||| fault is DefaultRoutePrefix
            ||| fault is Ipv4MappedPrefix
        },
    decreases n,
{
    let claimed = claimed_entries(trie);
    lemma_claimed_votes(trie);
    if n > 0 {
        lemma_claimed_faults(trie, n - 1);
        let entry = claimed[n - 1];
        assert(vote_key(entry) == entry);
        assert(!conflict_among(claimed, n)) by {
            if conflict_among(claimed, n) {
                let (i, j) = choose|i: int, j: int|
                    0 <= i < j < n && (#[trigger] vote_key(claimed[i])).0 == (#[trigger] vote_key(
                        claimed[j],
                    )).0 && claimed[i].1 != claimed[j].1;
                assert(vote_key(claimed[i]) == claimed[i]);
                assert(vote_key(claimed[j]) == claimed[j]);
            }
        }
    }
}

/// The claim of a map whose sender id is a peer id, as an import makes it, is
/// turned away only for what the map holds, for the size of the claim or of the
/// id, or for its epoch.
pub proof fn imported_claims_are_heard(e: EngineView, claim: ClaimView, trie: TrieNode)
    requires
        prefixes_short(trie),
        claim.entries == claimed_entries(trie),
        claim.hash == claim_digest(claim.epoch, claim.sender, claim.entries),
        is_hash_text(claim.hash),
        peer_id_text(claim.sender) == Some(claim.sender),
    ensures
        e.gate_fault(claim, claim.sender) matches Some(fault) ==> {
            ||| fault is InvalidSenderId
            ||| fault is EmptyClaim
            ||| fault is TooManyEntries
            ||| fault is EpochOutOfRange
            ||| fault is StaleEpoch
            ||| fault is EpochJumpTooLarge
            ||| fault is AsnOutOfRange
            ||| fault is DefaultRoutePrefix
            ||| fault is Ipv4MappedPrefix
        },
        e.claimed_by(claim, peer_id_text(claim.sender)) == e.claimed(claim, claim.sender),
{
    claims_of_maps_are_well_formed(trie);
}

/// Claims that list the same entries all assert them.
proof fn lemma_common_support(
    claims: Seq<ClaimView>,
    entries: Seq<(Seq<char>, u32)>,
    k: (Seq<char>, u32),
)
    requires
        forall|i: int| 0 <= i < claims.len() ==> (#[trigger] claims[i]).entries == entries,
    ensures
        support(claims, k) == if vote_keys(entries).contains(k) {
            claims.len()
        } else {
            0
        },
    decreases claims.len(),
{
    if claims.len() > 0 {
        assert forall|i: int| 0 <= i < claims.drop_last().len() implies (
        #[trigger] claims.drop_last()[i]).entries == entries by {
            assert(claims.drop_last()[i] == claims[i]);
        }
        lemma_common_support(claims.drop_last(), entries, k);
        assert(claims[claims.len() - 1].entries == entries);
    }
}

/// What everybody claims is what is published: where all claims of a round are
/// those of one map, and they are enough, the result is that map.
pub proof fn what_everybody_claims_is_published(
    e: EngineView,
    claims: Seq<ClaimView>,
    trie: TrieNode,
    topic: Seq<char>,
    local_peer_id: Seq<char>,
    artifact: ConsensusArtifact,
)
    requires
        is_round(e, claims),
        claims.len() >= 1,
        claims.len() >= e.threshold,
        trie.canonical(),
        prefixes_short(trie),
        forall|i: int|
            0 <= i < claims.len() ==> (#[trigger] claims[i]).entries == claimed_entries(trie),
        artifact.wf(),
        is_final(artifact.report(), replayed(e, claims), topic, local_peer_id),
    ensures
        artifact.map@ == trie,
{
    let after = replayed(e, claims);
    let listed = map_entries(trie, false, false);
    let claimed = claimed_entries(trie);
    let entries = artifact.report().entries;
    let bits = report_bits(entries);
    good_claims_all_count(e, claims);
    votes_are_claims_that_count(e, claims);
    lemma_claimed_votes(trie);
    entries_are_in_address_order(trie, false, false);
    assert forall|k: (Seq<char>, u32)| #[trigger]
        after.votes.dom().contains(k) == claimed.contains(k) && (claimed.contains(k)
            ==> after.votes[k] == claims.len()) by {
        lemma_common_support(claims, claimed, k);
        lemma_keys_of_claim(trie, k);
        assert(after.votes.dom().contains(k) == (support(claims, k) > 0));
    }
    assert forall|p: (Seq<bool>, u32)| #[trigger]
        bits.to_set().contains(p) implies listed.to_set().contains(p) by {
        let i = choose|i: int| 0 <= i < bits.len() && bits[i] == p;
        assert(entries.contains(entries[i]));
        assert(entries.to_set().contains(entries[i]));
        let k = (entries[i].1, entries[i].2);
        assert(after.votes.dom().contains(k));
        let j = choose|j: int| 0 <= j < claimed.len() && claimed[j] == k;
        assert(vote_bits(claimed[j]) == listed[j].0);
        assert(listed[j] == p);
    }
    assert forall|p: (Seq<bool>, u32)| #[trigger]
        listed.to_set().contains(p) implies bits.to_set().contains(p) by {
        let j = choose|j: int| 0 <= j < listed.len() && listed[j] == p;
        let k = claimed[j];
        assert(claimed.contains(k));
        assert(after.votes.dom().contains(k));
        assert forall|asn: u32| #[trigger]
            after.votes.dom().contains((k.0, asn)) implies after.votes[(k.0, asn)]
            < after.votes[k] || after.votes[(k.0, asn)] == after.votes[k] && k.1 <= asn by {
            assert(claimed.contains((k.0, asn)));
            let m = choose|m: int| 0 <= m < claimed.len() && claimed[m] == (k.0, asn);
            assert(claimed[m].0 == claimed[j].0);
        }
        assert(is_winner(after.votes, after.threshold, k));
        let entry = (claims.len(), k.0, k.1);
        assert(winning(after.votes, after.threshold).contains(entry));
        assert(entries.contains(entry));
        let i = choose|i: int| 0 <= i < entries.len() && entries[i] == entry;
        assert(vote_bits(claimed[j]) == listed[j].0);
        assert(bits[i] == p);
    }
    assert(bits.to_set() =~= listed.to_set());
    assert forall|path: spec_fn(int) -> bool| #[trigger]
        artifact.map@.value(path, 0) == resolve(listed, 0, path) by {
        the_order_of_entries_does_not_matter(listed, bits, 0, path);
        assert(artifact.map.asn_of(path) == resolve(bits, 0, path));
    }
    entries_round_trip(trie, false, artifact.map@);
}

/// A map's claim is a vote for exactly its entries.
proof fn lemma_keys_of_claim(trie: TrieNode, k: (Seq<char>, u32))
    requires
        prefixes_short(trie),
    ensures
        vote_keys(claimed_entries(trie)).contains(k) == claimed_entries(trie).contains(k),
{
    let claimed = claimed_entries(trie);
    lemma_claimed_votes(trie);
    if vote_keys(claimed).contains(k) {
        let i = choose|i: int| 0 <= i < claimed.len() && vote_key(#[trigger] claimed[i]) == k;
        assert(claimed[i] == k);
    }
    if claimed.contains(k) {
        let i = choose|i: int| 0 <= i < claimed.len() && claimed[i] == k;
        assert(vote_key(claimed[i]) == k);
    }
}

} // verus!
