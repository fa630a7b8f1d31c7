//! What comes out of an epoch: the entries that won, and the artifact around them.

use crate::claim::entry_le;
use crate::coder::CODER_ASN;
use crate::net::{ip_to_bits, prefix_bits, ParseNetworkError};
use crate::prefix::{canonical_consensus_prefix, consensus_prefix};
use crate::rules::{strictly_ascending, ASN_MAX};
use crate::sort::{ascending, keys, lemma_ascending, lemma_order, order, sorted, Ordered};
use crate::text::{is_text_le, lemma_text_le_total, lemma_text_le_trans, same_text, text_le};
use crate::trie::{
    entries_view, lemma_value_local, longest_match, normal_form_is_unique, resolve, starts_with,
    ASMap, ASNEntry, TrieNode,
};
use crate::votes::{copy_texts, texts, Vote, VoteTable};
use vstd::prelude::*;
use vstd::relations::sorted_by;
use vstd::seq_lib::lemma_sorted_unique;

verus! {

/// What became of one claim.
#[derive(Debug, Clone, PartialEq, Eq)]
pub struct ClaimObservation {
    pub epoch: u64,
    pub source_peer_id: String,
    pub sender_id: String,
    pub claim_hash: String,
    pub accepted: bool,
    pub reason: String,
}

/// What became of one claim, its texts taken as sequences.
pub struct ObservationView {
    pub epoch: u64,
    pub source: Seq<char>,
    pub sender: Seq<char>,
    pub hash: Seq<char>,
    pub accepted: bool,
    pub reason: Seq<char>,
}

impl View for ClaimObservation {
    type V = ObservationView;

    open spec fn view(&self) -> ObservationView {
        ObservationView {
            epoch: self.epoch,
            source: self.source_peer_id@,
            sender: self.sender_id@,
            hash: self.claim_hash@,
            accepted: self.accepted,
            reason: self.reason@,
        }
    }
}

/// Observations with their texts as sequences.
pub open spec fn observations_view(list: Seq<ClaimObservation>) -> Seq<ObservationView> {
    list.map_values(|o: ClaimObservation| o@)
}

/// A prefix with the number that won it and the votes for that number.
#[derive(Debug, Clone, PartialEq, Eq)]
pub struct ConsensusEntry {
    pub ip_prefix: String,
    pub asn: u32,
    pub votes: usize,
}

/// The order of a report: most votes first, then by prefix text, then by number.
pub open spec fn report_le(a: (nat, Seq<char>, u32), b: (nat, Seq<char>, u32)) -> bool {
    if a.0 != b.0 {
        a.0 > b.0
    } else {
        entry_le((a.1, a.2), (b.1, b.2))
    }
}

impl Ordered for ConsensusEntry {
    type Key = (nat, Seq<char>, u32);

    open spec fn key(&self) -> (nat, Seq<char>, u32) {
        (self.votes as nat, self.ip_prefix@, self.asn)
    }

    open spec fn leq(a: (nat, Seq<char>, u32), b: (nat, Seq<char>, u32)) -> bool {
        report_le(a, b)
    }

    proof fn lemma_total(
        a: (nat, Seq<char>, u32),
        b: (nat, Seq<char>, u32),
        c: (nat, Seq<char>, u32),
    ) {
        lemma_text_le_total(a.1, b.1);
        lemma_text_le_total(b.1, c.1);
        lemma_text_le_total(a.1, c.1);
        if text_le(a.1, b.1) && text_le(b.1, c.1) {
            lemma_text_le_trans(a.1, b.1, c.1);
        }
    }

    fn le(&self, other: &Self) -> (le: bool) {
        if self.votes != other.votes {
            self.votes > other.votes
        } else if same_text(self.ip_prefix.as_str(), other.ip_prefix.as_str()) {
            self.asn <= other.asn
        } else {
            is_text_le(self.ip_prefix.as_str(), other.ip_prefix.as_str())
        }
    }

    fn copy(&self) -> (copy: Self) {
        ConsensusEntry { ip_prefix: self.ip_prefix.clone(), asn: self.asn, votes: self.votes }
    }
}

/// An assertion that has enough votes, more than any other for the same prefix
/// or, of those with as many, the smallest number.
pub open spec fn is_winner(
    votes: Map<(Seq<char>, u32), nat>,
    threshold: nat,
    k: (Seq<char>, u32),
) -> bool {
    &&& votes.dom().contains(k)
    &&& votes[k] >= threshold
    &&& forall|asn: u32| #[trigger]
        votes.dom().contains((k.0, asn)) ==> votes[(k.0, asn)] < votes[k] || votes[(k.0, asn)]
            == votes[k] && k.1 <= asn
}

/// The assertions that win, with their votes.
pub open spec fn winning(votes: Map<(Seq<char>, u32), nat>, threshold: nat) -> Set<
    (nat, Seq<char>, u32),
> {
    Set::new(
        |k: (nat, Seq<char>, u32)|
            is_winner(votes, threshold, (k.1, k.2)) && k.0 == votes[(k.1, k.2)],
    )
}

/// Keys in the order of a report, each once.
pub open spec fn report_ascends(list: Seq<(nat, Seq<char>, u32)>) -> bool {
    forall|i: int, j: int|
        0 <= i < j < list.len() ==> report_le(#[trigger] list[i], #[trigger] list[j]) && list[i]
            != list[j]
}

/// The entries of a report as prefixes of bits.
pub open spec fn report_bits(list: Seq<(nat, Seq<char>, u32)>) -> Seq<(Seq<bool>, u32)> {
    list.map_values(
        |k: (nat, Seq<char>, u32)|
            {
                let prefix = consensus_prefix(k.1)->0;
                (prefix_bits(prefix.ip, prefix.mask as nat), k.2)
            },
    )
}

/// The map assigns what the entries of a report say, and nothing else.
pub open spec fn maps_report(map: ASMap, list: Seq<(nat, Seq<char>, u32)>) -> bool {
    &&& map.wf()
    &&& forall|path: spec_fn(int) -> bool| #[trigger]
        map.asn_of(path) == resolve(report_bits(list), 0, path)
}

/// The votes at some positions are for one prefix.
spec fn one_prefix(votes: Seq<Vote>, start: int, end: int) -> bool {
    forall|x: int| start <= x < end ==> (#[trigger] votes[x]).prefix@ == votes[start].prefix@
}

/// No prefix stands on both sides of a position.
spec fn parts(votes: Seq<Vote>, at: int) -> bool {
    forall|x: int, y: int|
        0 <= x < at <= y < votes.len() ==> (#[trigger] votes[x]).prefix@ != (
        #[trigger] votes[y]).prefix@
}

/// The vote at `best` is not beaten by any at some positions.
spec fn leads(votes: Seq<Vote>, best: int, start: int, end: int) -> bool {
    forall|x: int|
        start <= x < end ==> (#[trigger] votes[x]).count < votes[best].count || votes[x].count
            == votes[best].count && votes[best].asn <= votes[x].asn
}

proof fn lemma_parts(table: VoteTable, start: int, end: int)
    requires
        strictly_ascending(table.vote_keys()),
        0 <= start < end <= table.votes@.len(),
        parts(table.votes@, start),
        one_prefix(table.votes@, start, end),
        end < table.votes@.len() ==> table.votes@[end].prefix@ != table.votes@[start].prefix@,
    ensures
        parts(table.votes@, end),
{
    let votes = table.votes@;
    let ks = table.vote_keys();
    assert forall|x: int, y: int| 0 <= x < end <= y < votes.len() implies (
    #[trigger] votes[x]).prefix@ != (#[trigger] votes[y]).prefix@ by {
        if x >= start && votes[x].prefix@ == votes[y].prefix@ {
            assert(votes[x].prefix@ == votes[start].prefix@);
            assert(entry_le(ks[start], ks[end]) && ks[start] != ks[end]);
            assert(text_le(votes[start].prefix@, votes[end].prefix@));
            if y > end {
                assert(entry_le(ks[end], ks[y]) && ks[end] != ks[y]);
                assert(text_le(votes[end].prefix@, votes[y].prefix@));
            }
            lemma_text_le_total(votes[start].prefix@, votes[end].prefix@);
        }
    }
}

/// The winner among the votes for one prefix, if it has enough of them.
proof fn lemma_group_winner(
    table: VoteTable,
    map: Map<(Seq<char>, u32), nat>,
    threshold: nat,
    start: int,
    end: int,
    best: int,
)
    requires
        table.shows(map),
        0 <= start <= best < end <= table.votes@.len(),
        parts(table.votes@, start),
        parts(table.votes@, end),
        one_prefix(table.votes@, start, end),
        leads(table.votes@, best, start, end),
    ensures
        is_winner(map, threshold, table.votes@[best].key()) == (table.votes@[best].count
            >= threshold),
        forall|x: int|
            start <= x < end && is_winner(map, threshold, (#[trigger] table.votes@[x]).key())
                ==> x == best,
{
    let votes = table.votes@;
    let ks = table.vote_keys();
    let k = votes[best].key();
    assert(map.dom().contains(k) && map[k] == votes[best].count);
    assert forall|asn: u32| #[trigger] map.dom().contains((k.0, asn)) implies map[(k.0, asn)]
        < map[k] || map[(k.0, asn)] == map[k] && k.1 <= asn by {
        let x = choose|x: int| 0 <= x < votes.len() && (#[trigger] votes[x]).key() == (k.0, asn);
        assert(votes[best].prefix@ == votes[start].prefix@);
        if x < start {
            assert(votes[x].prefix@ != votes[best].prefix@);
        }
        if x >= end {
            assert(votes[best].prefix@ != votes[x].prefix@);
        }
        assert(map[votes[x].key()] == votes[x].count);
    }
    assert forall|x: int|
        start <= x < end && is_winner(map, threshold, (#[trigger] votes[x]).key()) implies x
        == best by {
        assert(votes[x].prefix@ == votes[start].prefix@);
        assert(votes[best].prefix@ == votes[start].prefix@);
        assert(map.dom().contains((votes[x].prefix@, votes[best].asn)));
        assert(map.dom().contains((votes[best].prefix@, votes[x].asn)));
        assert(map[votes[x].key()] == votes[x].count);
        assert(votes[best].key() == (votes[x].prefix@, votes[best].asn));
        assert(map[(votes[x].prefix@, votes[best].asn)] == votes[best].count);
        let kx = votes[x].key();
        assert(map.dom().contains((kx.0, votes[best].asn)));
        assert(votes[best].count < votes[x].count || votes[best].count == votes[x].count
            && votes[x].asn <= votes[best].asn);
        assert(votes[x].asn == votes[best].asn);
        if x < best {
            assert(ks[x] != ks[best]);
        } else if best < x {
            assert(ks[best] != ks[x]);
        }
    }
}

/// Every entry won, and comes from the votes before a position.
spec fn all_won(
    out: Seq<ConsensusEntry>,
    votes: Seq<Vote>,
    map: Map<(Seq<char>, u32), nat>,
    threshold: nat,
    at: int,
) -> bool {
    forall|i: int|
        0 <= i < out.len() ==> {
            let entry = #[trigger] out[i];
            &&& winning(map, threshold).contains(entry.key())
            &&& exists|x: int| 0 <= x < at && (#[trigger] votes[x]).prefix@ == entry.ip_prefix@
        }
}

/// Every vote before a position that won is among the entries.
spec fn all_listed(
    out: Seq<ConsensusEntry>,
    votes: Seq<Vote>,
    map: Map<(Seq<char>, u32), nat>,
    threshold: nat,
    at: int,
) -> bool {
    forall|x: int|
        0 <= x < at && is_winner(map, threshold, (#[trigger] votes[x]).key()) ==> exists|i: int|
            0 <= i < out.len() && (#[trigger] out[i]).ip_prefix@ == votes[x].prefix@
                && out[i].asn == votes[x].asn
}

/// No prefix is listed twice.
pub open spec fn prefixes_differ(list: Seq<(nat, Seq<char>, u32)>) -> bool {
    forall|i: int, j: int|
        0 <= i < j < list.len() ==> (#[trigger] list[i]).1 != (#[trigger] list[j]).1
}

proof fn lemma_listed(
    out: Seq<ConsensusEntry>,
    next: Seq<ConsensusEntry>,
    table: VoteTable,
    map: Map<(Seq<char>, u32), nat>,
    threshold: nat,
    start: int,
    end: int,
    best: int,
)
    requires
        table.shows(map),
        0 <= start <= best < end <= table.votes@.len(),
        parts(table.votes@, start),
        parts(table.votes@, end),
        one_prefix(table.votes@, start, end),
        leads(table.votes@, best, start, end),
        all_won(out, table.votes@, map, threshold, start),
        all_listed(out, table.votes@, map, threshold, start),
        prefixes_differ(keys(out)),
        if table.votes@[best].count >= threshold {
            &&& next.len() == out.len() + 1
            &&& forall|i: int| 0 <= i < out.len() ==> #[trigger] next[i] == out[i]
            &&& next.last().key() == (
                table.votes@[best].count as nat,
                table.votes@[best].prefix@,
                table.votes@[best].asn,
            )
        } else {
            next == out
        },
    ensures
        all_won(next, table.votes@, map, threshold, end),
        all_listed(next, table.votes@, map, threshold, end),
        prefixes_differ(keys(next)),
{
    let votes = table.votes@;
    let n = out.len() as int;
    lemma_group_winner(table, map, threshold, start, end, best);
    assert(map[votes[best].key()] == votes[best].count);
    assert forall|i: int| 0 <= i < next.len() implies {
        let entry = #[trigger] next[i];
        &&& winning(map, threshold).contains(entry.key())
        &&& exists|x: int| 0 <= x < end && (#[trigger] votes[x]).prefix@ == entry.ip_prefix@
    } by {
        if i < n {
            let entry = out[i];
            assert(next[i] == entry);
            let x = choose|x: int|
                0 <= x < start && (#[trigger] votes[x]).prefix@ == entry.ip_prefix@;
            assert(votes[x].prefix@ == entry.ip_prefix@);
        } else {
            assert(votes[best].prefix@ == next[i].ip_prefix@);
        }
    }
    assert forall|x: int|
        0 <= x < end && is_winner(map, threshold, (#[trigger] votes[x]).key()) implies exists|
        i: int,
    |
        0 <= i < next.len() && (#[trigger] next[i]).ip_prefix@ == votes[x].prefix@
            && next[i].asn == votes[x].asn by {
        if x < start {
            let i = choose|i: int|
                0 <= i < out.len() && (#[trigger] out[i]).ip_prefix@ == votes[x].prefix@
                    && out[i].asn == votes[x].asn;
            assert(next[i] == out[i]);
        } else {
            assert(next[n].ip_prefix@ == votes[x].prefix@);
        }
    }
    assert forall|i: int, j: int| 0 <= i < j < next.len() implies (#[trigger] keys(next)[i]).1 != (
    #[trigger] keys(next)[j]).1 by {
        if j < n {
            assert(next[i] == out[i] && next[j] == out[j]);
            assert(keys(out)[i].1 != keys(out)[j].1);
        } else {
            let entry = out[i];
            assert(next[i] == entry);
            let x = choose|x: int|
                0 <= x < start && (#[trigger] votes[x]).prefix@ == entry.ip_prefix@;
            assert(votes[x].prefix@ != votes[best].prefix@);
        }
    }
}

/// The winners, by ascending prefix.
fn group_winners(
    table: &VoteTable,
    threshold: usize,
    Ghost(map): Ghost<Map<(Seq<char>, u32), nat>>,
) -> (out: Vec<ConsensusEntry>)
    requires
        table.shows(map),
    ensures
        keys(out@).to_set() == winning(map, threshold as nat),
        prefixes_differ(keys(out@)),
{
    let mut out: Vec<ConsensusEntry> = Vec::new();
    let n: usize = table.votes.len();
    let mut start: usize = 0;
    while start < n
        invariant
            start <= n,
            n == table.votes@.len(),
            table.shows(map),
            parts(table.votes@, start as int),
            all_won(out@, table.votes@, map, threshold as nat, start as int),
            all_listed(out@, table.votes@, map, threshold as nat, start as int),
            prefixes_differ(keys(out@)),
        decreases n - start,
    {
        let mut best: usize = start;
        let mut end: usize = start + 1;
        while end < n && same_text(
            table.votes[end].prefix.as_str(),
            table.votes[start].prefix.as_str(),
        )
            invariant
                start <= best < end <= n,
                n == table.votes@.len(),
                table.shows(map),
                one_prefix(table.votes@, start as int, end as int),
                leads(table.votes@, best as int, start as int, end as int),
            decreases n - end,
        {
            assert(entry_le(table.vote_keys()[best as int], table.vote_keys()[end as int]));
            if table.votes[end].count > table.votes[best].count {
                best = end;
            }
            end = end + 1;
        }
        let ghost before = out@;
        if table.votes[best].count >= threshold {
            let vote = &table.votes[best];
            out.push(
                ConsensusEntry {
                    ip_prefix: vote.prefix.clone(),
                    asn: vote.asn,
                    votes: vote.count,
                },
            );
        }
        proof {
            lemma_parts(*table, start as int, end as int);
            lemma_listed(
                before,
                out@,
                *table,
                map,
                threshold as nat,
                start as int,
                end as int,
                best as int,
            );
        }
        start = end;
    }
    proof {
        lemma_all_winners(out@, *table, map, threshold as nat);
    }
    out
}

proof fn lemma_all_winners(
    out: Seq<ConsensusEntry>,
    table: VoteTable,
    map: Map<(Seq<char>, u32), nat>,
    threshold: nat,
)
    requires
        table.shows(map),
        all_won(out, table.votes@, map, threshold, table.votes@.len() as int),
        all_listed(out, table.votes@, map, threshold, table.votes@.len() as int),
    ensures
        keys(out).to_set() == winning(map, threshold),
{
    let votes = table.votes@;
    assert forall|k: (nat, Seq<char>, u32)| #[trigger]
        keys(out).to_set().contains(k) == winning(map, threshold).contains(k) by {
        if keys(out).contains(k) {
            let i = choose|i: int| 0 <= i < keys(out).len() && keys(out)[i] == k;
            assert(out[i].key() == k);
        }
        if winning(map, threshold).contains(k) {
            assert(map.dom().contains((k.1, k.2)));
            let x = choose|x: int|
                0 <= x < votes.len() && (#[trigger] votes[x]).key() == (k.1, k.2);
            assert(is_winner(map, threshold, votes[x].key()));
            let i = choose|i: int|
                0 <= i < out.len() && (#[trigger] out[i]).ip_prefix@ == votes[x].prefix@
                    && out[i].asn == votes[x].asn;
            assert(winning(map, threshold).contains(out[i].key()));
            assert(keys(out)[i] == k);
        }
    }
    assert(keys(out).to_set() =~= winning(map, threshold));
}

/// Sorting keeps which keys there are, and that prefixes differ.
proof fn lemma_sorted_report(list: Seq<(nat, Seq<char>, u32)>)
    requires
        prefixes_differ(list),
    ensures
        report_ascends(ascending::<ConsensusEntry>(list)),
        ascending::<ConsensusEntry>(list).to_set() == list.to_set(),
        prefixes_differ(ascending::<ConsensusEntry>(list)),
{
    let done = ascending::<ConsensusEntry>(list);
    lemma_ascending::<ConsensusEntry>(list);
    list.to_multiset_ensures();
    done.to_multiset_ensures();
    assert forall|k: (nat, Seq<char>, u32)| #[trigger] done.contains(k) == list.contains(k) by {
        assert(done.to_multiset().count(k) == list.to_multiset().count(k));
    }
    assert(done.to_set() =~= list.to_set());
    assert forall|i: int, j: int|
        0 <= i < list.len() && 0 <= j < list.len() && i != j implies list[i] != list[j] by {
        if i < j {
            assert(list[i].1 != list[j].1);
        } else {
            assert(list[j].1 != list[i].1);
        }
    }
    list.lemma_multiset_has_no_duplicates();
    assert(done.to_multiset() == list.to_multiset());
    done.lemma_multiset_has_no_duplicates_conv();
    assert forall|i: int, j: int| 0 <= i < j < done.len() implies report_le(
        #[trigger] done[i],
        #[trigger] done[j],
    ) && done[i] != done[j] by {
        let leq = order::<ConsensusEntry>();
        assert(leq(done[i], done[j]));
    }
    assert forall|i: int, j: int| 0 <= i < j < done.len() implies (#[trigger] done[i]).1 != (
    #[trigger] done[j]).1 by {
        assert(done.contains(done[i]) && done.contains(done[j]));
        assert(done[i] != done[j]);
        let x = choose|x: int| 0 <= x < list.len() && list[x] == done[i];
        let y = choose|y: int| 0 <= y < list.len() && list[y] == done[j];
        if x < y {
            assert(list[x].1 != list[y].1);
        } else {
            assert(list[y].1 != list[x].1);
        }
    }
}

/// The winners, in the order of a report.
pub(crate) fn winners(
    table: &VoteTable,
    threshold: usize,
    Ghost(map): Ghost<Map<(Seq<char>, u32), nat>>,
) -> (list: Vec<ConsensusEntry>)
    requires
        table.shows(map),
    ensures
        report_ascends(keys(list@)),
        prefixes_differ(keys(list@)),
        keys(list@).to_set() == winning(map, threshold as nat),
{
    let out = group_winners(table, threshold, Ghost(map));
    proof {
        lemma_sorted_report(keys(out@));
    }
    sorted(&out)
}

/// Rejected claims by the name of the reason, names ascending.
#[derive(Debug, Clone, PartialEq, Eq)]
pub struct RejectedClaims {
    pub counts: Vec<(String, usize)>,
}

impl View for RejectedClaims {
    type V = Seq<(Seq<char>, nat)>;

    open spec fn view(&self) -> Seq<(Seq<char>, nat)> {
        self.counts@.map_values(|c: (String, usize)| (c.0@, c.1 as nat))
    }
}

/// The count beside a name, if the name is listed.
pub open spec fn count_of(list: Seq<(Seq<char>, nat)>, name: Seq<char>) -> Option<nat>
    decreases list.len(),
{
    if list.len() == 0 {
        None
    } else if list[0].0 == name {
        Some(list[0].1)
    } else {
        count_of(list.drop_first(), name)
    }
}

impl RejectedClaims {
    /// How many claims were rejected for a reason, if any were.
    pub fn get(&self, name: &str) -> (count: Option<usize>)
        ensures
            match count {
                Some(n) => count_of(self@, name@) == Some(n as nat),
                None => count_of(self@, name@) is None,
            },
    {
        let mut i: usize = 0;
        assert(self@.skip(0) =~= self@);
        while i < self.counts.len()
            invariant
                i <= self.counts@.len(),
                count_of(self@, name@) == count_of(self@.skip(i as int), name@),
            decreases self.counts@.len() - i,
        {
            assert(self@.skip(i as int)[0] == self@[i as int]);
            assert(self@.skip(i as int).drop_first() =~= self@.skip(i + 1));
            if same_text(self.counts[i].0.as_str(), name) {
                return Some(self.counts[i].1);
            }
            i = i + 1;
        }
        None
    }

    /// A copy of the counts.
    pub fn copy(&self) -> (copy: Self)
        ensures
            copy@ == self@,
    {
        let mut counts: Vec<(String, usize)> = Vec::new();
        let mut i: usize = 0;
        while i < self.counts.len()
            invariant
                i <= self.counts@.len(),
                counts@.len() == i,
                forall|j: int|
                    0 <= j < i ==> (#[trigger] counts@[j]).0@ == self.counts@[j].0@
                        && counts@[j].1 == self.counts@[j].1,
            decreases self.counts@.len() - i,
        {
            counts.push((self.counts[i].0.clone(), self.counts[i].1));
            i = i + 1;
        }
        let copy = RejectedClaims { counts };
        assert(copy@ =~= self@);
        copy
    }
}

impl ClaimObservation {
    /// A copy of the observation.
    pub fn copy(&self) -> (copy: Self)
        ensures
            copy@ == self@,
    {
        ClaimObservation {
            epoch: self.epoch,
            source_peer_id: self.source_peer_id.clone(),
            sender_id: self.sender_id.clone(),
            claim_hash: self.claim_hash.clone(),
            accepted: self.accepted,
            reason: self.reason.clone(),
        }
    }
}

/// Copies observations.
pub(crate) fn copy_observations(list: &Vec<ClaimObservation>) -> (copy: Vec<ClaimObservation>)
    ensures
        observations_view(copy@) == observations_view(list@),
{
    let mut copy: Vec<ClaimObservation> = Vec::new();
    let mut i: usize = 0;
    while i < list.len()
        invariant
            i <= list@.len(),
            copy@.len() == i,
            forall|j: int| 0 <= j < i ==> (#[trigger] copy@[j])@ == list@[j]@,
        decreases list@.len() - i,
    {
        copy.push(list[i].copy());
        i = i + 1;
    }
    assert(observations_view(copy@) =~= observations_view(list@));
    copy
}

/// Copies entries.
pub(crate) fn copy_entries(list: &Vec<ConsensusEntry>) -> (copy: Vec<ConsensusEntry>)
    ensures
        keys(copy@) == keys(list@),
{
    let mut copy: Vec<ConsensusEntry> = Vec::new();
    let mut i: usize = 0;
    while i < list.len()
        invariant
            i <= list@.len(),
            copy@.len() == i,
            forall|j: int| 0 <= j < i ==> (#[trigger] copy@[j]).key() == list@[j].key(),
        decreases list@.len() - i,
    {
        copy.push(list[i].copy());
        i = i + 1;
    }
    assert(keys(copy@) =~= keys(list@));
    copy
}

/// What is published of an epoch, texts taken as sequences.
#[verifier::ext_equal]
pub struct ReportView {
    pub epoch: u64,
    pub topic: Seq<char>,
    pub local_peer_id: Seq<char>,
    pub threshold: nat,
    pub participants: Seq<Seq<char>>,
    pub accepted_claims: nat,
    pub rejected_claims: Seq<(Seq<char>, nat)>,
    pub entries: Seq<(nat, Seq<char>, u32)>,
    pub observations: Seq<ObservationView>,
}

/// The result of an epoch: what is reported, and the map.
#[derive(Debug, Clone, PartialEq, Eq)]
pub struct ConsensusArtifact {
    pub epoch: u64,
    pub topic: String,
    pub local_peer_id: String,
    pub threshold: usize,
    pub participants: Vec<String>,
    pub accepted_claims: usize,
    pub rejected_claims: RejectedClaims,
    pub entries: Vec<ConsensusEntry>,
    pub observations: Vec<ClaimObservation>,
    pub map: ASMap,
}

impl ConsensusArtifact {
    /// What the artifact reports.
    pub open spec fn report(self) -> ReportView {
        ReportView {
            epoch: self.epoch,
            topic: self.topic@,
            local_peer_id: self.local_peer_id@,
            threshold: self.threshold as nat,
            participants: texts(self.participants@),
            accepted_claims: self.accepted_claims as nat,
            rejected_claims: self.rejected_claims@,
            entries: keys(self.entries@),
            observations: observations_view(self.observations@),
        }
    }

    /// The map is the one that the entries describe.
    pub open spec fn wf(self) -> bool {
        maps_report(self.map, self.report().entries)
    }
}

/// What is published of an epoch. The map is left out: it follows from the entries.
#[derive(Debug, Clone, PartialEq, Eq)]
pub struct ConsensusReport {
    pub epoch: u64,
    pub topic: String,
    pub local_peer_id: String,
    pub threshold: usize,
    pub participants: Vec<String>,
    pub accepted_claims: usize,
    pub rejected_claims: RejectedClaims,
    pub entries: Vec<ConsensusEntry>,
    pub observations: Vec<ClaimObservation>,
}

impl View for ConsensusReport {
    type V = ReportView;

    open spec fn view(&self) -> ReportView {
        ReportView {
            epoch: self.epoch,
            topic: self.topic@,
            local_peer_id: self.local_peer_id@,
            threshold: self.threshold as nat,
            participants: texts(self.participants@),
            accepted_claims: self.accepted_claims as nat,
            rejected_claims: self.rejected_claims@,
            entries: keys(self.entries@),
            observations: observations_view(self.observations@),
        }
    }
}

/// Every prefix of a report can be read.
pub open spec fn all_readable(list: Seq<(nat, Seq<char>, u32)>) -> bool {
    forall|i: int| 0 <= i < list.len() ==> consensus_prefix((#[trigger] list[i]).1) is Some
}

/// `text` is the first prefix of a report that cannot be read.
pub open spec fn first_unreadable(list: Seq<(nat, Seq<char>, u32)>, text: Seq<char>) -> bool {
    exists|i: int|
        {
            &&& 0 <= i < list.len()
            &&& #[trigger] list[i].1 == text
            &&& consensus_prefix(text) is None
            &&& all_readable(list.take(i))
        }
}

/// The map that the entries of a report describe, or the first prefix that cannot
/// be read.
pub(crate) fn report_map(entries: &Vec<ConsensusEntry>) -> (map: Result<ASMap, ParseNetworkError>)
    ensures
        match map {
            Ok(m) => all_readable(keys(entries@)) && maps_report(m, keys(entries@)),
            Err(e) => e is Invalid && first_unreadable(keys(entries@), e.input()),
        },
{
    let ghost list = keys(entries@);
    let mut bits: Vec<ASNEntry> = Vec::new();
    let mut i: usize = 0;
    while i < entries.len()
        invariant
            i <= entries@.len(),
            list == keys(entries@),
            bits@.len() == i,
            forall|j: int| 0 <= j < i ==> consensus_prefix((#[trigger] list[j]).1) is Some,
            forall|j: int|
                0 <= j < i ==> (#[trigger] bits@[j]).0@ == report_bits(list)[j].0 && bits@[j].1
                    == report_bits(list)[j].1,
        decreases entries@.len() - i,
    {
        assert(list[i as int] == entries@[i as int].key());
        match canonical_consensus_prefix(entries[i].ip_prefix.as_str()) {
            Err(e) => {
                assert(list[i as int].1 == entries@[i as int].ip_prefix@);
                assert(all_readable(list.take(i as int)));
                return Err(e);
            },
            Ok((_, ip, mask)) => {
                bits.push((ip_to_bits(ip, mask), entries[i].asn));
            },
        }
        i = i + 1;
    }
    assert(entries_view(bits@) =~= report_bits(list));
    let mut map = ASMap::new();
    let ghost empty = map;
    map.update_multi(bits);
    proof {
        assert forall|path: spec_fn(int) -> bool| #[trigger] map.asn_of(path) == resolve(
            report_bits(list),
            0,
            path,
        ) by {
            assert(empty.asn_of(path) == 0);
        }
    }
    Ok(map)
}

impl ConsensusReport {
    /// What is published of an artifact.
    pub fn from_artifact(artifact: &ConsensusArtifact) -> (report: Self)
        ensures
            report@ == artifact.report(),
    {
        ConsensusReport {
            epoch: artifact.epoch,
            topic: artifact.topic.clone(),
            local_peer_id: artifact.local_peer_id.clone(),
            threshold: artifact.threshold,
            participants: copy_texts(&artifact.participants),
            accepted_claims: artifact.accepted_claims,
            rejected_claims: artifact.rejected_claims.copy(),
            entries: copy_entries(&artifact.entries),
            observations: copy_observations(&artifact.observations),
        }
    }

    /// The artifact that a report describes, with its map made anew, or the first
    /// prefix that cannot be read.
    pub fn into_artifact(self) -> (artifact: Result<ConsensusArtifact, ParseNetworkError>)
        ensures
            match artifact {
                Ok(a) => all_readable(self@.entries) && a.report() == self@ && a.wf(),
                Err(e) => e is Invalid && first_unreadable(self@.entries, e.input()),
            },
    {
        let map = match report_map(&self.entries) {
            Ok(map) => map,
            Err(e) => {
                return Err(e);
            },
        };
        Ok(
            ConsensusArtifact {
                epoch: self.epoch,
                topic: self.topic,
                local_peer_id: self.local_peer_id,
                threshold: self.threshold,
                participants: self.participants,
                accepted_claims: self.accepted_claims,
                rejected_claims: self.rejected_claims,
                entries: self.entries,
                observations: self.observations,
                map,
            },
        )
    }
}

/// Only one list in the order of a report has a given set of entries.
pub proof fn lemma_report_order_unique(
    a: Seq<(nat, Seq<char>, u32)>,
    b: Seq<(nat, Seq<char>, u32)>,
)
    requires
        report_ascends(a),
        report_ascends(b),
        a.to_set() == b.to_set(),
    ensures
        a == b,
{
    let leq = order::<ConsensusEntry>();
    lemma_order::<ConsensusEntry>();
    lemma_report_sorted(a);
    lemma_report_sorted(b);
    a.lemma_multiset_has_no_duplicates();
    b.lemma_multiset_has_no_duplicates();
    a.to_multiset_ensures();
    b.to_multiset_ensures();
    assert forall|k: (nat, Seq<char>, u32)| #[trigger]
        a.to_multiset().count(k) == b.to_multiset().count(k) by {
        assert(a.to_set().contains(k) == b.to_set().contains(k));
        assert(a.to_set().contains(k) == a.contains(k));
        assert(b.to_set().contains(k) == b.contains(k));
        assert(a.contains(k) == (a.to_multiset().count(k) > 0));
        assert(b.contains(k) == (b.to_multiset().count(k) > 0));
    }
    assert(a.to_multiset() =~= b.to_multiset());
    lemma_sorted_unique(a, b, leq);
}

proof fn lemma_report_sorted(a: Seq<(nat, Seq<char>, u32)>)
    requires
        report_ascends(a),
    ensures
        sorted_by(a, order::<ConsensusEntry>()),
        a.no_duplicates(),
{
    let leq = order::<ConsensusEntry>();
    assert forall|i: int, j: int| 0 <= i < j < a.len() implies #[trigger] leq(a[i], a[j]) by {
        assert(report_le(a[i], a[j]));
    }
    assert forall|i: int, j: int|
        0 <= i < a.len() && 0 <= j < a.len() && i != j implies a[i] != a[j] by {
        if i < j {
            assert(report_le(a[i], a[j]) && a[i] != a[j]);
        } else {
            assert(report_le(a[j], a[i]) && a[j] != a[i]);
        }
    }
}

/// Two maps that a report describes are the same map.
pub proof fn report_determines_the_map(a: ASMap, b: ASMap, list: Seq<(nat, Seq<char>, u32)>)
    requires
        maps_report(a, list),
        maps_report(b, list),
    ensures
        a@ == b@,
{
    assert forall|path: spec_fn(int) -> bool| #[trigger] a@.value(path, 0) == b@.value(path, 0) by {
        assert(a.asn_of(path) == b.asn_of(path));
    }
    normal_form_is_unique(a@, b@);
}

/// The number for a path is the background or comes from an entry.
proof fn lemma_resolve_source(
    entries: Seq<(Seq<bool>, u32)>,
    ambient: u32,
    path: spec_fn(int) -> bool,
    bound: int,
)
    requires
        ambient <= bound,
        forall|i: int| 0 <= i < entries.len() ==> (#[trigger] entries[i]).1 <= bound,
    ensures
        resolve(entries, ambient, path) <= bound,
    decreases entries.len(),
{
    if entries.len() > 0 {
        assert forall|i: int| 0 <= i < entries.drop_last().len() implies (
        #[trigger] entries.drop_last()[i]).1 <= bound by {
            assert(entries.drop_last()[i] == entries[i]);
        }
        lemma_resolve_source(entries.drop_last(), ambient, path, bound);
    }
}

/// A bound on what every path has is a bound on what stands in the trie.
proof fn lemma_bounded_trie(trie: TrieNode, depth: int, bound: int)
    requires
        forall|path: spec_fn(int) -> bool| #[trigger] trie.value(path, depth) <= bound,
    ensures
        trie.asns_at_most(bound),
    decreases trie,
{
    match trie {
        TrieNode::Leaf(v) => {
            let path = |i: int| false;
            assert(trie.value(path, depth) == v);
        },
        TrieNode::Branch(left, right) => {
            assert forall|path: spec_fn(int) -> bool| #[trigger]
                left.value(path, depth + 1) <= bound by {
                let turned = |i: int| if i == depth { false } else { path(i) };
                lemma_value_local(*left, path, turned, depth + 1);
                assert(trie.value(turned, depth) <= bound);
            }
            assert forall|path: spec_fn(int) -> bool| #[trigger]
                right.value(path, depth + 1) <= bound by {
                let turned = |i: int| if i == depth { true } else { path(i) };
                lemma_value_local(*right, path, turned, depth + 1);
                assert(trie.value(turned, depth) <= bound);
            }
            lemma_bounded_trie(*left, depth + 1, bound);
            lemma_bounded_trie(*right, depth + 1, bound);
        },
    }
}

/// Where every number of a report has a code, so has every number of its map. A
/// map of moderate size can then be written in binary form (see
/// [`crate::binary::small_maps_fit`]).
pub proof fn report_map_has_codes(map: ASMap, list: Seq<(nat, Seq<char>, u32)>)
    requires
        maps_report(map, list),
        forall|i: int| 0 <= i < list.len() ==> (#[trigger] list[i]).2 <= ASN_MAX,
    ensures
        map@.asns_at_most(CODER_ASN.max_value()),
{
    CODER_ASN.lemma_max_value();
    assert forall|path: spec_fn(int) -> bool| #[trigger] map@.value(path, 0) <= ASN_MAX by {
        let bits = report_bits(list);
        assert forall|i: int| 0 <= i < bits.len() implies (#[trigger] bits[i]).1 <= ASN_MAX by {
            assert(list[i].2 <= ASN_MAX);
        }
        lemma_resolve_source(bits, 0, path, ASN_MAX as int);
        assert(map.asn_of(path) == resolve(bits, 0, path));
    }
    lemma_bounded_trie(map@, 0, ASN_MAX as int);
}

/// What [`longest_match`] finds.
proof fn lemma_longest(
    entries: Seq<(Seq<bool>, u32)>,
    ambient: u32,
    path: spec_fn(int) -> bool,
)
    ensures
        ({
            let found = longest_match(entries, ambient, path);
            &&& found.0 >= -1
            &&& found.0 == -1 ==> found.1 == ambient
            &&& found.0 >= 0 ==> exists|i: int|
                {
                    &&& 0 <= i < entries.len()
                    &&& starts_with(path, (#[trigger] entries[i]).0)
                    &&& entries[i].0.len() == found.0
                    &&& entries[i].1 == found.1
                }
            &&& forall|i: int|
                0 <= i < entries.len() && starts_with(path, (#[trigger] entries[i]).0)
                    ==> entries[i].0.len() <= found.0
        }),
    decreases entries.len(),
{
    if entries.len() > 0 {
        let rest = entries.drop_last();
        lemma_longest(rest, ambient, path);
        let before = longest_match(rest, ambient, path);
        let found = longest_match(entries, ambient, path);
        if found == before && before.0 >= 0 {
            let i = choose|i: int|
                {
                    &&& 0 <= i < rest.len()
                    &&& starts_with(path, (#[trigger] rest[i]).0)
                    &&& rest[i].0.len() == before.0
                    &&& rest[i].1 == before.1
                };
            assert(entries[i] == rest[i]);
        }
        assert forall|i: int|
            0 <= i < entries.len() && starts_with(path, (#[trigger] entries[i]).0) implies
            entries[i].0.len() <= found.0 by {
            if i < rest.len() {
                assert(rest[i] == entries[i]);
            }
        }
    }
}

/// Two beginnings of one path that are equally long are the same.
proof fn lemma_same_beginning(path: spec_fn(int) -> bool, a: Seq<bool>, b: Seq<bool>)
    requires
        starts_with(path, a),
        starts_with(path, b),
        a.len() == b.len(),
    ensures
        a == b,
{
    assert forall|i: int| 0 <= i < a.len() implies a[i] == b[i] by {
        assert(path(i) == a[i]);
        assert(path(i) == b[i]);
    }
    assert(a =~= b);
}

/// Where no prefix has two numbers, the order in which entries are laid down
/// does not matter.
pub proof fn the_order_of_entries_does_not_matter(
    a: Seq<(Seq<bool>, u32)>,
    b: Seq<(Seq<bool>, u32)>,
    ambient: u32,
    path: spec_fn(int) -> bool,
)
    requires
        a.to_set() == b.to_set(),
        forall|i: int, j: int|
            0 <= i < a.len() && 0 <= j < a.len() && (#[trigger] a[i]).0 == (#[trigger] a[j]).0
                ==> a[i].1 == a[j].1,
    ensures
        resolve(a, ambient, path) == resolve(b, ambient, path),
{
    lemma_longest(a, ambient, path);
    lemma_longest(b, ambient, path);
    let x = longest_match(a, ambient, path);
    let y = longest_match(b, ambient, path);
    if x.0 >= 0 {
        let i = choose|i: int|
            {
                &&& 0 <= i < a.len()
                &&& starts_with(path, (#[trigger] a[i]).0)
                &&& a[i].0.len() == x.0
                &&& a[i].1 == x.1
            };
        assert(a.contains(a[i]));
        assert(a.to_set().contains(a[i]));
        assert(b.to_set().contains(a[i]));
        let k = choose|k: int| 0 <= k < b.len() && b[k] == a[i];
        assert(starts_with(path, b[k].0));
        assert(x.0 <= y.0);
    }
    if y.0 >= 0 {
        let j = choose|j: int|
            {
                &&& 0 <= j < b.len()
                &&& starts_with(path, (#[trigger] b[j]).0)
                &&& b[j].0.len() == y.0
                &&& b[j].1 == y.1
            };
        assert(b.contains(b[j]));
        assert(b.to_set().contains(b[j]));
        assert(a.to_set().contains(b[j]));
        let k = choose|k: int| 0 <= k < a.len() && a[k] == b[j];
        assert(starts_with(path, a[k].0));
        assert(y.0 <= x.0);
        let i = choose|i: int|
            {
                &&& 0 <= i < a.len()
                &&& starts_with(path, (#[trigger] a[i]).0)
                &&& a[i].0.len() == x.0
                &&& a[i].1 == x.1
            };
        lemma_same_beginning(path, a[i].0, a[k].0);
        assert(a[i].1 == a[k].1);
    }
}

/// An assignment wins exactly if it has as many votes as the threshold asks for,
/// and every other number for the same prefix has fewer, or as many and is larger.
pub proof fn the_most_votes_win(
    votes: Map<(Seq<char>, u32), nat>,
    threshold: nat,
    prefix: Seq<char>,
    asn: u32,
    count: nat,
)
    ensures
        winning(votes, threshold).contains((count, prefix, asn)) <==> {
            &&& votes.dom().contains((prefix, asn))
            &&& votes[(prefix, asn)] == count
            &&& count >= threshold
            &&& forall|other: u32| #[trigger]
                votes.dom().contains((prefix, other)) && other != asn ==> votes[(prefix, other)]
                    < count || votes[(prefix, other)] == count && asn < other
        },
{
    if winning(votes, threshold).contains((count, prefix, asn)) {
        assert(is_winner(votes, threshold, (prefix, asn)));
    }
    if votes.dom().contains((prefix, asn)) && votes[(prefix, asn)] == count && count >= threshold && (
    forall|other: u32| #[trigger]
        votes.dom().contains((prefix, other)) && other != asn ==> votes[(prefix, other)] < count
            || votes[(prefix, other)] == count && asn < other) {
        assert(is_winner(votes, threshold, (prefix, asn)));
    }
}

/// A prefix has at most one winner, and one as soon as one of its numbers has
/// enough votes.
pub proof fn prefixes_have_one_winner(
    votes: Map<(Seq<char>, u32), nat>,
    threshold: nat,
    prefix: Seq<char>,
    a: u32,
    b: u32,
)
    requires
        is_winner(votes, threshold, (prefix, a)),
        is_winner(votes, threshold, (prefix, b)),
    ensures
        a == b,
{
    let (j, k) = ((prefix, a), (prefix, b));
    assert(votes.dom().contains((j.0, b)));
    assert(votes.dom().contains((k.0, a)));
}

/// The order of a report: more votes come first, then the prefixes in the order of
/// their texts, then the numbers.
pub proof fn reports_list_the_most_votes_first(
    m: nat,
    n: nat,
    p: Seq<char>,
    q: Seq<char>,
    a: u32,
    b: u32,
)
    ensures
        m > n ==> report_le((m, p, a), (n, q, b)) && !report_le((n, q, b), (m, p, a)),
        p != q ==> report_le((m, p, a), (m, q, b)) == text_le(p, q),
        report_le((m, p, a), (m, p, b)) == (a <= b),
        ConsensusEntry::leq((m, p, a), (n, q, b)) == report_le((m, p, a), (n, q, b)),
{
}

/// The entries of a report are laid down as the bits of their prefixes, in the
/// order of the report.
pub proof fn reports_are_laid_down_in_order(list: Seq<(nat, Seq<char>, u32)>, i: int)
    requires
        0 <= i < list.len(),
        consensus_prefix(list[i].1) is Some,
    ensures
        report_bits(list).len() == list.len(),
        report_bits(list)[i].0 == prefix_bits(
            consensus_prefix(list[i].1)->0.ip,
            consensus_prefix(list[i].1)->0.mask as nat,
        ),
        report_bits(list)[i].1 == list[i].2,
{
}

/// What a map that was made from a report answers is what the entries resolve to,
/// with nothing assigned around them.
pub proof fn reported_assignments_are_in_the_map(
    map: ASMap,
    list: Seq<(nat, Seq<char>, u32)>,
    path: spec_fn(int) -> bool,
)
    requires
        maps_report(map, list),
    ensures
        map.asn_of(path) == resolve(report_bits(list), 0, path),
{
}

/// The count beside a name is that of the first entry with the name; a name that no
/// entry has has none.
pub proof fn counts_are_found_by_name(
    before: Seq<(Seq<char>, nat)>,
    after: Seq<(Seq<char>, nat)>,
    name: Seq<char>,
    count: nat,
)
    requires
        forall|i: int| 0 <= i < before.len() ==> (#[trigger] before[i]).0 != name,
    ensures
        count_of(before, name) is None,
        count_of(before + seq![(name, count)] + after, name) == Some(count),
    decreases before.len(),
{
    let list = before + seq![(name, count)] + after;
    if before.len() > 0 {
        let rest = before.drop_first();
        assert forall|i: int| 0 <= i < rest.len() implies (#[trigger] rest[i]).0 != name by {
            assert(rest[i] == before[i + 1]);
        }
        counts_are_found_by_name(rest, after, name, count);
        assert(list[0] == before[0]);
        assert(list.drop_first() =~= rest + seq![(name, count)] + after);
    } else {
        assert(list[0] == (name, count));
    }
}

/// An artifact reports what it holds.
pub proof fn artifacts_report_what_they_hold(artifact: ConsensusArtifact, i: int)
    ensures
        artifact.report().epoch == artifact.epoch,
        artifact.report().topic == artifact.topic@,
        artifact.report().local_peer_id == artifact.local_peer_id@,
        artifact.report().threshold == artifact.threshold,
        artifact.report().accepted_claims == artifact.accepted_claims,
        artifact.report().participants.len() == artifact.participants@.len(),
        0 <= i < artifact.participants@.len() ==> artifact.report().participants[i]
            == artifact.participants@[i]@,
        artifact.report().rejected_claims.len() == artifact.rejected_claims.counts@.len(),
        0 <= i < artifact.rejected_claims.counts@.len() ==> artifact.report().rejected_claims[i]
            == (artifact.rejected_claims.counts@[i].0@, artifact.rejected_claims.counts@[i].1 as nat),
        artifact.report().entries.len() == artifact.entries@.len(),
        0 <= i < artifact.entries@.len() ==> artifact.report().entries[i] == (
            artifact.entries@[i].votes as nat,
            artifact.entries@[i].ip_prefix@,
            artifact.entries@[i].asn,
        ),
        artifact.report().observations.len() == artifact.observations@.len(),
        0 <= i < artifact.observations@.len() ==> artifact.report().observations[i] == (
        ObservationView {
            epoch: artifact.observations@[i].epoch,
            source: artifact.observations@[i].source_peer_id@,
            sender: artifact.observations@[i].sender_id@,
            hash: artifact.observations@[i].claim_hash@,
            accepted: artifact.observations@[i].accepted,
            reason: artifact.observations@[i].reason@,
        }),
{
}

/// Whether a report can be read: every prefix parses; else the first that does not
/// is to blame.
pub proof fn the_first_unreadable_prefix_is_to_blame(
    list: Seq<(nat, Seq<char>, u32)>,
    text: Seq<char>,
    i: int,
)
    requires
        0 <= i < list.len(),
        consensus_prefix(list[i].1) is None,
        forall|j: int| 0 <= j < i ==> consensus_prefix((#[trigger] list[j]).1) is Some,
    ensures
        !all_readable(list),
        first_unreadable(list, text) == (text == list[i].1),
{
    assert forall|j: int| 0 <= j < list.take(i).len() implies consensus_prefix(
        (#[trigger] list.take(i)[j]).1,
    ) is Some by {
        assert(list.take(i)[j] == list[j]);
    }
    assert(list[i].1 == list[i].1);
    if first_unreadable(list, text) {
        let j = choose|j: int|
            {
                &&& 0 <= j < list.len()
                &&& #[trigger] list[j].1 == text
                &&& consensus_prefix(text) is None
                &&& all_readable(list.take(j))
            };
        if i < j {
            assert(consensus_prefix(list.take(j)[i].1) is Some);
        }
        if j < i {
            assert(consensus_prefix(list[j].1) is Some);
        }
    }
}

} // verus!
