//! The quorum engine: validates claims, tallies votes, and makes the consensus.

use crate::addr::IpAddr;
use crate::claim::{claim_digest, claim_hash, AsmapClaim};
use crate::coder::CODER_ASN;
use crate::consensus::{
    all_readable, copy_observations, first_unreadable, is_winner, lemma_report_order_unique,
    observations_view, report_ascends, report_bits, report_determines_the_map, report_map,
    report_map_has_codes, the_order_of_entries_does_not_matter, winners, winning,
    ClaimObservation, ConsensusArtifact, ObservationView, RejectedClaims, ReportView,
};
use crate::net::{network_text, network_text_is_canonical, prefix_bits};
use crate::outside::{parse_peer_id, peer_id_text};
use crate::prefix::{consensus_prefix, consensus_prefix_text_is_stable};
use crate::rules::{
    byte_len, default_limits, earlier_of, entries_fault, entry_fault, later, later_of,
    lemma_first_votes, lemma_reason_text, reason_text, reasons_are_in_the_order_of_their_names,
    shape_fault, shape_violation, text_bytes, touches_mapped, validated_vote_keys, vote_key,
    vote_keys, ClaimLimits, ClaimView, Reason, ASN_MAX, EPOCH_ABSOLUTE_MAX, IPV4_MAPPED_RANGE,
    MAX_EPOCH_SKEW, REASONS,
};
use crate::sort::keys;
use crate::text::{lemma_text_le_total, same_text, text_le};
use crate::trie::{resolve, ASMap};
use crate::votes::{lemma_ascending_texts_unique, tallied, texts_ascend, SenderSet, VoteTable};
use vstd::arithmetic::power2::{lemma2_to64, pow2};
use vstd::prelude::*;

verus! {

/// The state of the engine.
#[verifier::ext_equal]
pub struct EngineView {
    /// How many senders make a quorum, and how many votes a winner needs.
    pub threshold: nat,
    pub epoch: u64,
    pub limits: ClaimLimits,
    /// Who has an accepted claim in this epoch.
    pub senders: Set<Seq<char>>,
    /// How often each assignment was asserted in this epoch.
    pub votes: Map<(Seq<char>, u32), nat>,
    /// The record of this epoch.
    pub observations: Seq<ObservationView>,
    /// How many rejections went on record, or would have but for the cap.
    pub rejections_seen: nat,
    /// How many claims were accepted in this epoch.
    pub accepted: nat,
    /// How many were rejected in this epoch, by the position of the reason.
    pub rejected: Seq<nat>,
    /// How many claims there were in this epoch.
    pub processed: nat,
}

/// The sum of counts.
pub open spec fn total(counts: Seq<nat>) -> nat
    decreases counts.len(),
{
    if counts.len() == 0 {
        0
    } else {
        total(counts.drop_last()) + counts.last()
    }
}

/// No count.
pub open spec fn no_counts() -> Seq<nat> {
    Seq::new(REASONS as nat, |i: int| 0nat)
}

/// A key that only a good entry can have.
pub open spec fn is_good_vote(k: (Seq<char>, u32)) -> bool {
    &&& 1 <= k.1 <= ASN_MAX
    &&& consensus_prefix(k.0) matches Some(prefix) && {
        &&& prefix.text() == k.0
        &&& 1 <= prefix.mask <= prefix.ip.width()
        &&& prefix.ip matches IpAddr::V6(v) ==> !touches_mapped(v, prefix.mask as nat)
    }
}

impl EngineView {
    /// What holds of every state that the engine can be in.
    pub open spec fn ok(self) -> bool {
        &&& self.rejected.len() == REASONS
        &&& self.accepted + total(self.rejected) == self.processed
        &&& self.senders.finite()
        &&& self.senders.len() == self.accepted
        &&& self.rejections_seen <= total(self.rejected)
        &&& self.observations.len() == self.accepted + self.kept_rejections()
        &&& self.limits.max_senders >= 1
        &&& self.limits.max_senders >= self.threshold
        &&& self.accepted <= self.limits.max_senders
        &&& forall|k: (Seq<char>, u32)| #[trigger]
            self.votes.dom().contains(k) ==> is_good_vote(k) && 1 <= self.votes[k]
                <= self.accepted
    }

    /// Whatever the next claim is, no counter of rejections overflows.
    pub open spec fn has_room(self) -> bool {
        &&& self.rejections_seen < usize::MAX
        &&& forall|i: int| 0 <= i < self.rejected.len() ==> #[trigger] self.rejected[i] < usize::MAX
    }

    /// How many rejections are on record.
    pub open spec fn kept_rejections(self) -> nat {
        if self.rejections_seen <= self.limits.max_rejection_observations {
            self.rejections_seen
        } else {
            self.limits.max_rejection_observations as nat
        }
    }

    /// A rejection that is only counted.
    pub open spec fn counted(self, reason: Reason) -> EngineView {
        EngineView {
            rejected: self.rejected.update(
                reason.position(),
                self.rejected[reason.position()] + 1,
            ),
            processed: self.processed + 1,
            ..self
        }
    }

    /// A rejection that also goes on record, as long as there is room.
    pub open spec fn recorded(self, claim: ClaimView, source: Seq<char>, reason: Reason) -> EngineView {
        let observation = ObservationView {
            epoch: claim.epoch,
            source,
            sender: claim.sender,
            hash: claim.hash,
            accepted: false,
            reason: reason.text(),
        };
        EngineView {
            rejections_seen: self.rejections_seen + 1,
            observations: if self.rejections_seen < self.limits.max_rejection_observations {
                self.observations.push(observation)
            } else {
                self.observations
            },
            ..self
        }.counted(reason)
    }

    /// A new epoch, with nothing in it.
    pub open spec fn cleared(self, epoch: u64) -> EngineView {
        EngineView {
            epoch,
            senders: Set::empty(),
            votes: Map::empty(),
            observations: Seq::empty(),
            rejections_seen: 0,
            accepted: 0,
            rejected: no_counts(),
            processed: 0,
            ..self
        }
    }

    /// A new epoch on local authority, which also raises the ceiling.
    pub open spec fn advanced(self, epoch: u64) -> EngineView {
        EngineView {
            limits: ClaimLimits {
                max_epoch: later_of(
                    self.limits.max_epoch,
                    earlier_of(later(epoch, self.limits.max_epoch_skew), EPOCH_ABSOLUTE_MAX),
                ),
                ..self.limits
            },
            ..self
        }.cleared(epoch)
    }

    /// An accepted claim.
    pub open spec fn with_vote(self, claim: ClaimView, source: Seq<char>) -> EngineView {
        EngineView {
            senders: self.senders.insert(claim.sender),
            votes: tallied(self.votes, vote_keys(claim.entries)),
            observations: self.observations.push(
                ObservationView {
                    epoch: self.epoch,
                    source,
                    sender: claim.sender,
                    hash: claim.hash,
                    accepted: true,
                    reason: "accepted"@,
                },
            ),
            accepted: self.accepted + 1,
            processed: self.processed + 1,
            ..self
        }
    }

    /// Why a claim from `source` is turned away at the gates that look at the
    /// claim, in the order of the gates.
    pub open spec fn gate_fault(self, claim: ClaimView, source: Seq<char>) -> Option<Reason> {
        if shape_fault(self.limits, claim) is Some {
            shape_fault(self.limits, claim)
        } else if claim.sender != source {
            Some(Reason::SourceMismatch)
        } else if claim.hash != claim_digest(claim.epoch, claim.sender, claim.entries) {
            Some(Reason::ClaimHashMismatch)
        } else if claim.epoch < self.epoch {
            Some(Reason::StaleEpoch)
        } else if claim.epoch > later(self.epoch, self.limits.max_epoch_skew) {
            Some(Reason::EpochJumpTooLarge)
        } else {
            entries_fault(claim.entries, claim.entries.len() as int)
        }
    }

    /// What is done with a claim from `source`, and whether there is a quorum.
    pub open spec fn claimed(self, claim: ClaimView, source: Seq<char>) -> (EngineView, bool) {
        match self.gate_fault(claim, source) {
            Some(reason) => if shape_fault(self.limits, claim) is Some || claim.sender != source {
                (self.counted(reason), false)
            } else {
                (self.recorded(claim, source, reason), false)
            },
            None => {
                let here = if claim.epoch > self.epoch {
                    self.cleared(claim.epoch)
                } else {
                    self
                };
                if here.senders.contains(claim.sender) {
                    (here.recorded(claim, source, Reason::DuplicateSender), false)
                } else if here.senders.len() >= here.limits.max_senders {
                    (here.recorded(claim, source, Reason::SenderLimitExceeded), false)
                } else {
                    let after = here.with_vote(claim, source);
                    (after, after.senders.len() >= after.threshold)
                }
            },
        }
    }

    /// What is done with a claim whose source is what its own sender id reads as.
    pub open spec fn claimed_by(self, claim: ClaimView, source: Option<Seq<char>>) -> (
        EngineView,
        bool,
    ) {
        if byte_len(claim.sender) > self.limits.max_sender_id_len {
            (self.counted(Reason::InvalidSenderId), false)
        } else {
            match source {
                None => (self.counted(Reason::UnparsableSender), false),
                Some(id) => self.claimed(claim, id),
            }
        }
    }
}

/// Validates claims and tallies the votes of one epoch.
pub struct QuorumEngine {
    threshold: usize,
    epoch: u64,
    limits: ClaimLimits,
    senders: SenderSet,
    votes: VoteTable,
    vote_map: Ghost<Map<(Seq<char>, u32), nat>>,
    observations: Vec<ClaimObservation>,
    rejections_seen: usize,
    accepted_claims: usize,
    rejected: Vec<usize>,
    processed: Ghost<nat>,
}

/// Counts as numbers.
pub open spec fn counts_view(list: Seq<usize>) -> Seq<nat> {
    list.map_values(|n: usize| n as nat)
}

impl View for QuorumEngine {
    type V = EngineView;

    closed spec fn view(&self) -> EngineView {
        EngineView {
            threshold: self.threshold as nat,
            epoch: self.epoch,
            limits: self.limits,
            senders: self.senders@,
            votes: self.vote_map@,
            observations: observations_view(self.observations@),
            rejections_seen: self.rejections_seen as nat,
            accepted: self.accepted_claims as nat,
            rejected: counts_view(self.rejected@),
            processed: self.processed@,
        }
    }
}

/// A count is part of the total.
pub proof fn lemma_total(counts: Seq<nat>, i: int)
    requires
        0 <= i < counts.len(),
    ensures
        counts[i] <= total(counts),
        total(counts.update(i, counts[i] + 1)) == total(counts) + 1,
    decreases counts.len(),
{
    let next = counts.update(i, counts[i] + 1);
    if i == counts.len() - 1 {
        assert(next.drop_last() =~= counts.drop_last());
    } else {
        assert(next.drop_last() =~= counts.drop_last().update(i, counts[i] + 1));
        lemma_total(counts.drop_last(), i);
    }
}

pub proof fn lemma_no_counts(n: nat)
    ensures
        total(Seq::new(n, |i: int| 0nat)) == 0,
    decreases n,
{
    if n > 0 {
        let s = Seq::new(n, |i: int| 0nat);
        assert(s.drop_last() =~= Seq::new((n - 1) as nat, |i: int| 0nat));
        lemma_no_counts((n - 1) as nat);
    }
}

/// A good entry makes a good vote.
pub proof fn lemma_good_vote(entry: (Seq<char>, u32))
    requires
        entry_fault(entry) is None,
    ensures
        is_good_vote(vote_key(entry)),
{
    consensus_prefix_text_is_stable(entry.0);
}

/// A claim without a fault has good votes only.
pub proof fn lemma_good_votes(entries: Seq<(Seq<char>, u32)>, n: int)
    requires
        0 <= n <= entries.len(),
        entries_fault(entries, n) is None,
    ensures
        forall|i: int| 0 <= i < n ==> entry_fault(#[trigger] entries[i]) is None,
    decreases n,
{
    if n > 0 {
        lemma_good_votes(entries, n - 1);
    }
}

/// What is wrong with entries is something about entries.
pub proof fn lemma_entries_faults(entries: Seq<(Seq<char>, u32)>, n: int)
    requires
        0 <= n <= entries.len(),
    ensures
        entries_fault(entries, n) matches Some(fault) ==> {
            ||| fault is UnassignedAsn
            ||| fault is AsnOutOfRange
            ||| fault is InvalidPrefix
            ||| fault is DefaultRoutePrefix
            ||| fault is Ipv4MappedPrefix
            ||| fault is ConflictingEntry
        },
    decreases n,
{
    if n > 0 {
        lemma_entries_faults(entries, n - 1);
    }
}

/// Fewer claims than a counter can hold leave room for one more.
pub proof fn lemma_has_room(e: EngineView)
    requires
        e.ok(),
        e.processed < usize::MAX,
    ensures
        e.has_room(),
{
    assert forall|i: int| 0 <= i < e.rejected.len() implies #[trigger] e.rejected[i]
        < usize::MAX by {
        lemma_total(e.rejected, i);
    }
}

/// Counting keeps the state good.
pub proof fn lemma_counted_ok(e: EngineView, reason: Reason)
    requires
        e.ok(),
    ensures
        e.counted(reason).ok(),
{
    lemma_total(e.rejected, reason.position());
}

/// Recording keeps the state good.
pub proof fn lemma_recorded_ok(e: EngineView, claim: ClaimView, source: Seq<char>, reason: Reason)
    requires
        e.ok(),
    ensures
        e.recorded(claim, source, reason).ok(),
{
    lemma_total(e.rejected, reason.position());
}

/// An empty epoch is good.
pub proof fn lemma_cleared_ok(e: EngineView, epoch: u64)
    requires
        e.limits.max_senders >= 1,
        e.limits.max_senders >= e.threshold,
    ensures
        e.cleared(epoch).ok(),
{
    lemma_no_counts(REASONS as nat);
}

/// Accepting keeps the state good.
pub proof fn lemma_with_vote_ok(e: EngineView, claim: ClaimView, source: Seq<char>)
    requires
        e.ok(),
        !e.senders.contains(claim.sender),
        e.senders.len() < e.limits.max_senders,
        entries_fault(claim.entries, claim.entries.len() as int) is None,
    ensures
        e.with_vote(claim, source).ok(),
{
    let after = e.with_vote(claim, source);
    assert forall|k: (Seq<char>, u32)| #[trigger] after.votes.dom().contains(k) implies
        is_good_vote(k) && 1 <= after.votes[k] <= after.accepted by {
        if e.votes.dom().contains(k) {
            assert(is_good_vote(k));
        }
        if vote_keys(claim.entries).contains(k) {
            let i = choose|i: int|
                0 <= i < claim.entries.len() && vote_key(#[trigger] claim.entries[i]) == k;
            lemma_good_votes(claim.entries, claim.entries.len() as int);
            lemma_good_vote(claim.entries[i]);
        }
    }
}

/// Every claim leaves the state good.
pub proof fn lemma_claimed_ok(e: EngineView, claim: ClaimView, source: Seq<char>)
    requires
        e.ok(),
    ensures
        e.claimed(claim, source).0.ok(),
{
    match e.gate_fault(claim, source) {
        Some(reason) => {
            lemma_counted_ok(e, reason);
            lemma_recorded_ok(e, claim, source, reason);
        },
        None => {
            let here = if claim.epoch > e.epoch {
                e.cleared(claim.epoch)
            } else {
                e
            };
            lemma_cleared_ok(e, claim.epoch);
            lemma_recorded_ok(here, claim, source, Reason::DuplicateSender);
            lemma_recorded_ok(here, claim, source, Reason::SenderLimitExceeded);
            if !here.senders.contains(claim.sender) && here.senders.len() < here.limits.max_senders {
                lemma_with_vote_ok(here, claim, source);
            }
        },
    }
}

/// The limits of a new engine: wide enough to make progress, but with an epoch
/// ceiling that the starting epoch can raise only up to the absolute one.
pub open spec fn widened(threshold: nat, epoch: u64, limits: ClaimLimits) -> ClaimLimits {
    ClaimLimits {
        max_senders: if limits.max_senders >= threshold && limits.max_senders >= 1 {
            limits.max_senders
        } else if threshold >= 1 {
            threshold as usize
        } else {
            1
        },
        max_epoch: later_of(
            limits.max_epoch,
            earlier_of(later(epoch, limits.max_epoch_skew), EPOCH_ABSOLUTE_MAX),
        ),
        ..limits
    }
}

/// A new engine's state.
pub open spec fn started(threshold: nat, epoch: u64, limits: ClaimLimits) -> EngineView {
    EngineView {
        threshold,
        epoch,
        limits: widened(threshold, epoch, limits),
        senders: Set::empty(),
        votes: Map::empty(),
        observations: Seq::empty(),
        rejections_seen: 0,
        accepted: 0,
        rejected: no_counts(),
        processed: 0,
    }
}

/// A count of zero for every reason.
fn zero_counts() -> (counts: Vec<usize>)
    ensures
        counts_view(counts@) == no_counts(),
{
    let mut counts: Vec<usize> = Vec::new();
    let mut i: usize = 0;
    while i < REASONS
        invariant
            i <= REASONS,
            counts@.len() == i,
            forall|j: int| 0 <= j < i ==> #[trigger] counts@[j] == 0,
        decreases REASONS - i,
    {
        counts.push(0);
        i = i + 1;
    }
    assert(counts_view(counts@) =~= no_counts());
    counts
}

/// The epoch ceiling after the epoch became `epoch` on local authority.
fn raised_ceiling(limits: &ClaimLimits, epoch: u64) -> (max_epoch: u64)
    ensures
        max_epoch == later_of(
            limits.max_epoch,
            earlier_of(later(epoch, limits.max_epoch_skew), EPOCH_ABSOLUTE_MAX),
        ),
{
    let ahead: u64 = epoch.saturating_add(limits.max_epoch_skew);
    let capped: u64 = if ahead < EPOCH_ABSOLUTE_MAX {
        ahead
    } else {
        EPOCH_ABSOLUTE_MAX
    };
    if limits.max_epoch < capped {
        capped
    } else {
        limits.max_epoch
    }
}

impl QuorumEngine {
    /// The representation is consistent, and the state is good.
    pub closed spec fn wf(self) -> bool {
        &&& self.senders.wf()
        &&& self.votes.shows(self.vote_map@)
        &&& self@.ok()
    }

    /// What holds of every state holds of this one.
    pub proof fn lemma_ok(&self)
        requires
            self.wf(),
        ensures
            self@.ok(),
    {
    }

    /// Creates an engine whose epoch ceiling lies one skew after `now_unix`.
    pub fn new(threshold: usize, epoch: u64, now_unix: u64) -> (engine: QuorumEngine)
        ensures
            engine.wf(),
            engine@ == started(
                threshold as nat,
                epoch,
                (ClaimLimits {
                    max_epoch: earlier_of(later(now_unix, MAX_EPOCH_SKEW), EPOCH_ABSOLUTE_MAX),
                    ..default_limits()
                }),
            ),
    {
        QuorumEngine::with_limits(threshold, epoch, ClaimLimits::at_unix_time(now_unix))
    }

    /// Creates an engine with explicit limits.
    pub fn with_limits(threshold: usize, epoch: u64, limits: ClaimLimits) -> (engine: QuorumEngine)
        ensures
            engine.wf(),
            engine@ == started(threshold as nat, epoch, limits),
    {
        let max_senders: usize = if limits.max_senders >= threshold && limits.max_senders >= 1 {
            limits.max_senders
        } else if threshold >= 1 {
            threshold
        } else {
            1
        };
        let max_epoch: u64 = raised_ceiling(&limits, epoch);
        let engine = QuorumEngine {
            threshold,
            epoch,
            limits: ClaimLimits { max_senders, max_epoch, ..limits },
            senders: SenderSet::new(),
            votes: VoteTable::new(),
            vote_map: Ghost(Map::empty()),
            observations: Vec::new(),
            rejections_seen: 0,
            accepted_claims: 0,
            rejected: zero_counts(),
            processed: Ghost(0),
        };
        proof {
            assert(engine@ =~= started(threshold as nat, epoch, limits));
            lemma_cleared_ok(engine@, epoch);
            assert(engine@.cleared(epoch) =~= engine@);
        }
        engine
    }

    /// The epoch that is being tallied.
    pub fn epoch(&self) -> (epoch: u64)
        ensures
            epoch == self@.epoch,
    {
        self.epoch
    }

    /// The limits in force.
    pub fn limits(&self) -> (limits: ClaimLimits)
        ensures
            limits == self@.limits,
    {
        self.limits
    }

    /// Whether one more claim can be counted, whatever becomes of it.
    pub fn has_room(&self) -> (room: bool)
        requires
            self.wf(),
        ensures
            room == self@.has_room(),
    {
        let mut i: usize = 0;
        while i < REASONS
            invariant
                i <= REASONS == self.rejected@.len(),
                forall|j: int| 0 <= j < i ==> #[trigger] self@.rejected[j] < usize::MAX,
            decreases REASONS - i,
        {
            assert(self@.rejected[i as int] == self.rejected@[i as int]);
            if self.rejected[i] == usize::MAX {
                return false;
            }
            i = i + 1;
        }
        self.rejections_seen < usize::MAX
    }

    /// Whether rejections of this epoch no longer go on record.
    pub fn log_full(&self) -> (full: bool)
        ensures
            full == (self@.rejections_seen > self@.limits.max_rejection_observations),
    {
        self.rejections_seen > self.limits.max_rejection_observations
    }

    /// Moves to a new epoch on local authority. Only this raises the ceiling, and
    /// never above the absolute one.
    pub fn advance_epoch(&mut self, epoch: u64)
        requires
            old(self).wf(),
        ensures
            final(self).wf(),
            final(self)@ == old(self)@.advanced(epoch),
    {
        let ghost before = self@;
        self.limits.max_epoch = raised_ceiling(&self.limits, epoch);
        self.reset_for_epoch(epoch);
        assert(self@ =~= before.advanced(epoch));
    }

    fn reset_for_epoch(&mut self, epoch: u64)
        requires
            old(self)@.limits.max_senders >= 1,
            old(self)@.limits.max_senders >= old(self)@.threshold,
        ensures
            final(self).wf(),
            final(self)@ == old(self)@.cleared(epoch),
    {
        let ghost before = self@;
        self.epoch = epoch;
        self.senders = SenderSet::new();
        self.votes = VoteTable::new();
        self.vote_map = Ghost(Map::empty());
        self.observations = Vec::new();
        self.rejections_seen = 0;
        self.accepted_claims = 0;
        self.rejected = zero_counts();
        self.processed = Ghost(0);
        proof {
            assert(self@ =~= before.cleared(epoch));
            lemma_cleared_ok(before, epoch);
        }
    }

    /// Counts a rejection and keeps nothing of the claim.
    fn count_rejection(&mut self, reason: Reason)
        requires
            old(self).wf(),
            old(self)@.has_room(),
        ensures
            final(self).wf(),
            final(self)@ == old(self)@.counted(reason),
    {
        let ghost before = self@;
        proof {
            lemma_total(before.rejected, reason.position());
            lemma_counted_ok(before, reason);
        }
        let i: usize = reason.index();
        assert(before.rejected[i as int] == self.rejected@[i as int]);
        self.rejected.set(i, self.rejected[i] + 1);
        self.processed = Ghost(self.processed@ + 1);
        assert(self@ =~= before.counted(reason));
    }

    /// Counts a rejection and, as long as there is room, puts it on record.
    fn record_rejection(&mut self, claim: AsmapClaim, source: &str, reason: Reason)
        requires
            old(self).wf(),
            old(self)@.has_room(),
        ensures
            final(self).wf(),
            final(self)@ == old(self)@.recorded(claim@, source@, reason),
    {
        let ghost before = self@;
        proof {
            lemma_total(before.rejected, reason.position());
            lemma_recorded_ok(before, claim@, source@, reason);
        }
        let i: usize = reason.index();
        assert(before.rejected[i as int] == self.rejected@[i as int]);
        if self.rejections_seen < self.limits.max_rejection_observations {
            self.observations.push(
                ClaimObservation {
                    epoch: claim.epoch,
                    source_peer_id: source.to_owned(),
                    sender_id: claim.sender_id.clone(),
                    claim_hash: claim.claim_hash.clone(),
                    accepted: false,
                    reason: reason.name().to_owned(),
                },
            );
        }
        self.rejections_seen = self.rejections_seen + 1;
        self.rejected.set(i, self.rejected[i] + 1);
        self.processed = Ghost(self.processed@ + 1);
        assert(self@ =~= before.recorded(claim@, source@, reason));
    }

    /// Counts a payload that was too large.
    pub fn record_oversize_claim(&mut self)
        requires
            old(self).wf(),
            old(self)@.has_room(),
        ensures
            final(self).wf(),
            final(self)@ == old(self)@.counted(Reason::OversizeClaim),
    {
        self.count_rejection(Reason::OversizeClaim);
    }

    /// Counts a payload that was not a claim.
    pub fn record_malformed_claim(&mut self)
        requires
            old(self).wf(),
            old(self)@.has_room(),
        ensures
            final(self).wf(),
            final(self)@ == old(self)@.counted(Reason::MalformedClaim),
    {
        self.count_rejection(Reason::MalformedClaim);
    }

    /// Processes a claim whose source is taken from its own sender id. This
    /// checks no authenticity and is for claims from local files.
    pub fn process_claim(&mut self, claim: AsmapClaim) -> (quorum: bool)
        requires
            old(self).wf(),
            old(self)@.has_room(),
        ensures
            final(self).wf(),
            (final(self)@, quorum) == old(self)@.claimed_by(claim@, peer_id_text(claim.sender_id@)),
    {
        let source = if text_bytes(claim.sender_id.as_str()) > self.limits.max_sender_id_len {
            None
        } else {
            parse_peer_id(claim.sender_id.as_str())
        };
        self.process_claim_as(claim, source)
    }

    /// Processes a claim whose sender id was read as `source`.
    pub fn process_claim_as(&mut self, claim: AsmapClaim, source: Option<String>) -> (quorum: bool)
        requires
            old(self).wf(),
            old(self)@.has_room(),
        ensures
            final(self).wf(),
            (final(self)@, quorum) == old(self)@.claimed_by(
                claim@,
                match source {
                    Some(id) => Some(id@),
                    None => None,
                },
            ),
    {
        if text_bytes(claim.sender_id.as_str()) > self.limits.max_sender_id_len {
            self.count_rejection(Reason::InvalidSenderId);
            return false;
        }
        match source {
            None => {
                self.count_rejection(Reason::UnparsableSender);
                false
            },
            Some(id) => self.process_claim_from_peer(claim, id.as_str()),
        }
    }

    /// Processes a claim that came from the peer with the id `source`.
    ///
    /// The gates stand in this order: the claim on its face, who speaks, the
    /// hash, the epoch, the entries; only then is anything but the record of
    /// rejections written.
    pub fn process_claim_from_peer(&mut self, claim: AsmapClaim, source: &str) -> (quorum: bool)
        requires
            old(self).wf(),
            old(self)@.has_room(),
        ensures
            final(self).wf(),
            (final(self)@, quorum) == old(self)@.claimed(claim@, source@),
    {
        let ghost before = self@;
        let ghost view = claim@;
        if let Some(reason) = shape_violation(&self.limits, &claim) {
            self.count_rejection(reason);
            return false;
        }
        if !same_text(claim.sender_id.as_str(), source) {
            self.count_rejection(Reason::SourceMismatch);
            return false;
        }
        let expected = claim_hash(claim.epoch, claim.sender_id.as_str(), &claim.entries);
        if !same_text(claim.claim_hash.as_str(), expected.as_str()) {
            self.record_rejection(claim, source, Reason::ClaimHashMismatch);
            return false;
        }
        if claim.epoch < self.epoch {
            self.record_rejection(claim, source, Reason::StaleEpoch);
            return false;
        }
        if claim.epoch > self.epoch.saturating_add(self.limits.max_epoch_skew) {
            self.record_rejection(claim, source, Reason::EpochJumpTooLarge);
            return false;
        }
        let chosen = match validated_vote_keys(&claim.entries) {
            Ok(list) => list,
            Err(reason) => {
                self.record_rejection(claim, source, reason);
                return false;
            },
        };
        assert(before.gate_fault(view, source@) is None);
        if claim.epoch > self.epoch {
            self.reset_for_epoch(claim.epoch);
        }
        let ghost here = self@;
        if self.senders.contains(claim.sender_id.as_str()) {
            self.record_rejection(claim, source, Reason::DuplicateSender);
            return false;
        }
        if self.senders.len() >= self.limits.max_senders {
            self.record_rejection(claim, source, Reason::SenderLimitExceeded);
            return false;
        }
        proof {
            lemma_with_vote_ok(here, view, source@);
        }
        let _ = self.senders.insert(claim.sender_id.clone());
        let ghost map = self.vote_map@;
        proof {
            lemma_first_votes(view.entries, view.entries.len() as int);
        }
        self.votes.add_votes(chosen, Ghost(map));
        self.vote_map = Ghost(tallied(map, vote_keys(view.entries)));
        self.observations.push(
            ClaimObservation {
                epoch: self.epoch,
                source_peer_id: source.to_owned(),
                sender_id: claim.sender_id,
                claim_hash: expected,
                accepted: true,
                reason: "accepted".to_owned(),
            },
        );
        self.accepted_claims = self.accepted_claims + 1;
        self.processed = Ghost(self.processed@ + 1);
        assert(self@ =~= here.with_vote(view, source@));
        self.senders.len() >= self.threshold
    }

    /// The result of the epoch as it stands.
    pub fn finalize(&self, topic: &str, local_peer_id: &str) -> (artifact: ConsensusArtifact)
        requires
            self.wf(),
        ensures
            artifact.wf(),
            is_final(artifact.report(), self@, topic@, local_peer_id@),
    {
        let entries = winners(&self.votes, self.threshold, Ghost(self.vote_map@));
        proof {
            lemma_winners_good(self@, keys(entries@));
        }
        let map = match report_map(&entries) {
            Ok(map) => map,
            Err(_) => ASMap::new(),
        };
        ConsensusArtifact {
            epoch: self.epoch,
            topic: topic.to_owned(),
            local_peer_id: local_peer_id.to_owned(),
            threshold: self.threshold,
            participants: self.senders.listed(),
            accepted_claims: self.accepted_claims,
            rejected_claims: rejected_claims(&self.rejected),
            entries,
            observations: copy_observations(&self.observations),
            map,
        }
    }
}

/// The reasons before `n` for which there is a count, in order.
pub open spec fn rejected_list(counts: Seq<nat>, n: int) -> Seq<(Seq<char>, nat)>
    decreases n,
{
    if n <= 0 {
        Seq::empty()
    } else if counts[n - 1] == 0 {
        rejected_list(counts, n - 1)
    } else {
        rejected_list(counts, n - 1).push((reason_text(n - 1), counts[n - 1]))
    }
}

/// The counts by name, without the reasons that never came up.
fn rejected_claims(counts: &Vec<usize>) -> (rejected: RejectedClaims)
    requires
        counts@.len() == REASONS,
    ensures
        rejected@ == rejected_list(counts_view(counts@), REASONS as int),
{
    let mut rejected = RejectedClaims { counts: Vec::new() };
    let mut i: usize = 0;
    assert(rejected@ =~= Seq::empty());
    while i < REASONS
        invariant
            i <= REASONS,
            counts@.len() == REASONS,
            rejected@ == rejected_list(counts_view(counts@), i as int),
        decreases REASONS - i,
    {
        let ghost before = rejected@;
        assert(counts_view(counts@)[i as int] == counts@[i as int]);
        if counts[i] != 0 {
            let reason = Reason::at(i);
            proof {
                lemma_reason_text(reason);
            }
            rejected.counts.push((reason.name().to_owned(), counts[i]));
            assert(rejected@ =~= before.push((reason_text(i as int), counts@[i as int] as nat)));
        }
        i = i + 1;
    }
    rejected
}

/// A report of the state `e`: who took part, what was decided, in fixed order.
pub open spec fn is_final(
    report: ReportView,
    e: EngineView,
    topic: Seq<char>,
    local_peer_id: Seq<char>,
) -> bool {
    &&& report.epoch == e.epoch
    &&& report.topic == topic
    &&& report.local_peer_id == local_peer_id
    &&& report.threshold == e.threshold
    &&& texts_ascend(report.participants)
    &&& report.participants.to_set() == e.senders
    &&& report.accepted_claims == e.accepted
    &&& report.rejected_claims == rejected_list(e.rejected, REASONS as int)
    &&& report_ascends(report.entries)
    &&& report.entries.to_set() == winning(e.votes, e.threshold)
    &&& report.observations == e.observations
}

/// Winners are good votes.
pub proof fn lemma_winners_good(e: EngineView, list: Seq<(nat, Seq<char>, u32)>)
    requires
        e.ok(),
        list.to_set() == winning(e.votes, e.threshold),
    ensures
        forall|i: int|
            0 <= i < list.len() ==> is_good_vote(((#[trigger] list[i]).1, list[i].2)),
        forall|i: int, j: int|
            0 <= i < list.len() && 0 <= j < list.len() && (#[trigger] list[i]).1 == (
            #[trigger] list[j]).1 ==> list[i] == list[j],
        all_readable(list),
        forall|text: Seq<char>| !first_unreadable(list, text),
{
    assert forall|i: int| 0 <= i < list.len() implies is_winner(
        e.votes,
        e.threshold,
        ((#[trigger] list[i]).1, list[i].2),
    ) && list[i].0 == e.votes[(list[i].1, list[i].2)] by {
        assert(list.contains(list[i]));
        assert(list.to_set().contains(list[i]));
    }
    assert forall|i: int| 0 <= i < list.len() implies is_good_vote(
        ((#[trigger] list[i]).1, list[i].2),
    ) by {
        assert(e.votes.dom().contains((list[i].1, list[i].2)));
    }
    assert forall|i: int, j: int|
        0 <= i < list.len() && 0 <= j < list.len() && (#[trigger] list[i]).1 == (
        #[trigger] list[j]).1 implies list[i] == list[j] by {
        let a = (list[i].1, list[i].2);
        let b = (list[j].1, list[j].2);
        assert(e.votes.dom().contains((a.0, b.1)));
        assert(e.votes.dom().contains((b.0, a.1)));
    }
}

/// The state of an epoch determines its report.
pub proof fn final_report_is_determined(
    e: EngineView,
    topic: Seq<char>,
    local_peer_id: Seq<char>,
    a: ReportView,
    b: ReportView,
)
    requires
        is_final(a, e, topic, local_peer_id),
        is_final(b, e, topic, local_peer_id),
    ensures
        a == b,
{
    lemma_ascending_texts_unique(a.participants, b.participants);
    lemma_report_order_unique(a.entries, b.entries);
}

/// Two good votes for the same block of addresses name it by the same text.
pub proof fn a_block_has_one_name(a: (Seq<char>, u32), b: (Seq<char>, u32))
    requires
        is_good_vote(a),
        is_good_vote(b),
        vote_bits(a) == vote_bits(b),
    ensures
        a.0 == b.0,
{
    lemma_vote_text(a);
    lemma_vote_text(b);
}

/// The bits of the prefix that a vote is for.
pub open spec fn vote_bits(k: (Seq<char>, u32)) -> Seq<bool> {
    let prefix = consensus_prefix(k.0)->0;
    prefix_bits(prefix.ip, prefix.mask as nat)
}

proof fn lemma_vote_text(k: (Seq<char>, u32))
    requires
        is_good_vote(k),
    ensures
        network_text(vote_bits(k)) == k.0,
{
    let prefix = consensus_prefix(k.0)->0;
    consensus_prefix_text_is_stable(k.0);
    lemma2_to64();
    if let IpAddr::V6(v) = prefix.ip {
        if prefix.mask >= 96 {
            assert(pow2(32) == 0x1_0000_0000);
            assert(!touches_mapped(v, prefix.mask as nat));
            assert(v as nat / 0x1_0000_0000 != IPV4_MAPPED_RANGE as nat / 0x1_0000_0000);
        }
    }
    network_text_is_canonical(prefix.ip, prefix.mask);
}

/// The map of an epoch does not depend on the order in which its winners are laid
/// down.
pub proof fn the_order_of_winners_does_not_matter(
    e: EngineView,
    a: Seq<(nat, Seq<char>, u32)>,
    b: Seq<(nat, Seq<char>, u32)>,
    path: spec_fn(int) -> bool,
)
    requires
        e.ok(),
        a.to_set() == winning(e.votes, e.threshold),
        b.to_set() == winning(e.votes, e.threshold),
    ensures
        resolve(report_bits(a), 0, path) == resolve(report_bits(b), 0, path),
{
    let x = report_bits(a);
    let y = report_bits(b);
    lemma_winners_good(e, a);
    assert forall|i: int, j: int|
        0 <= i < x.len() && 0 <= j < x.len() && (#[trigger] x[i]).0 == (
        #[trigger] x[j]).0 implies x[i].1 == x[j].1 by {
        assert(is_good_vote((a[i].1, a[i].2)) && is_good_vote((a[j].1, a[j].2)));
        a_block_has_one_name((a[i].1, a[i].2), (a[j].1, a[j].2));
    }
    lemma_report_bits_set(a, b);
    lemma_report_bits_set(b, a);
    assert(x.to_set() =~= y.to_set());
    the_order_of_entries_does_not_matter(x, y, 0, path);
}

proof fn lemma_report_bits_set(
    a: Seq<(nat, Seq<char>, u32)>,
    b: Seq<(nat, Seq<char>, u32)>,
)
    requires
        a.to_set() == b.to_set(),
    ensures
        forall|k: (Seq<bool>, u32)| #[trigger]
            report_bits(a).to_set().contains(k) ==> report_bits(b).to_set().contains(k),
{
    assert forall|k: (Seq<bool>, u32)| #[trigger]
        report_bits(a).to_set().contains(k) implies report_bits(b).to_set().contains(k) by {
        let i = choose|i: int| 0 <= i < report_bits(a).len() && report_bits(a)[i] == k;
        assert(a.contains(a[i]));
        assert(a.to_set().contains(a[i]));
        assert(b.to_set().contains(a[i]));
        let j = choose|j: int| 0 <= j < b.len() && b[j] == a[i];
        assert(report_bits(b)[j] == k);
    }
}

/// A claim that is accepted.
pub open spec fn accepts(e: EngineView, claim: ClaimView, source: Seq<char>) -> bool {
    &&& e.gate_fault(claim, source) is None
    &&& claim.epoch > e.epoch || !e.senders.contains(claim.sender) && e.senders.len()
        < e.limits.max_senders
}

/// The first gate that turns a claim away, if any: those that look at the claim,
/// then one vote per sender, then room for another sender. A claim that starts a
/// new epoch passes the last two.
pub open spec fn refusal(e: EngineView, claim: ClaimView, source: Seq<char>) -> Option<Reason> {
    if e.gate_fault(claim, source) is Some {
        e.gate_fault(claim, source)
    } else if claim.epoch > e.epoch {
        None
    } else if e.senders.contains(claim.sender) {
        Some(Reason::DuplicateSender)
    } else if e.senders.len() >= e.limits.max_senders {
        Some(Reason::SenderLimitExceeded)
    } else {
        None
    }
}

/// A rejected claim changes no epoch, no sender, no vote and no limit: all that
/// changes is the count for the first gate that turned it away, which grows by
/// one, and the record of rejections.
pub proof fn rejected_claims_change_only_the_record(
    e: EngineView,
    claim: ClaimView,
    source: Seq<char>,
)
    requires
        e.ok(),
        !accepts(e, claim, source),
    ensures
        refusal(e, claim, source) is Some,
        ({
            let (after, quorum) = e.claimed(claim, source);
            let at = refusal(e, claim, source)->0.position();
            &&& !quorum
            &&& after.epoch == e.epoch
            &&& after.senders == e.senders
            &&& after.votes == e.votes
            &&& after.limits == e.limits
            &&& after.threshold == e.threshold
            &&& after.accepted == e.accepted
            &&& after.processed == e.processed + 1
            &&& after.rejected == e.rejected.update(at, e.rejected[at] + 1)
            &&& total(after.rejected) == total(e.rejected) + 1
        }),
{
    lemma_claimed_ok(e, claim, source);
}

/// A rejected claim leaves the result as it was: a report made after it has the
/// epoch, the participants, the number of accepted claims, the entries and the
/// map of one made before it.
pub proof fn rejected_claims_leave_the_result(
    e: EngineView,
    claim: ClaimView,
    source: Seq<char>,
    topic: Seq<char>,
    local_peer_id: Seq<char>,
    before: ConsensusArtifact,
    after: ConsensusArtifact,
)
    requires
        e.ok(),
        !accepts(e, claim, source),
        before.wf(),
        is_final(before.report(), e, topic, local_peer_id),
        after.wf(),
        is_final(after.report(), e.claimed(claim, source).0, topic, local_peer_id),
    ensures
        after.epoch == before.epoch,
        after.threshold == before.threshold,
        after.report().participants == before.report().participants,
        after.accepted_claims == before.accepted_claims,
        after.report().entries == before.report().entries,
        after.map@ == before.map@,
{
    let (a, b) = (after.report(), before.report());
    rejected_claims_change_only_the_record(e, claim, source);
    lemma_ascending_texts_unique(a.participants, b.participants);
    lemma_report_order_unique(a.entries, b.entries);
    report_determines_the_map(after.map, before.map, b.entries);
}

/// An accepted claim is counted once, as accepted, and its sender has voted. It
/// adds to the epoch under way, or starts the epoch that it names.
pub proof fn accepted_claims_count_once(e: EngineView, claim: ClaimView, source: Seq<char>)
    requires
        e.ok(),
        accepts(e, claim, source),
    ensures
        refusal(e, claim, source) is None,
        ({
            let (after, quorum) = e.claimed(claim, source);
            let here = if claim.epoch > e.epoch {
                e.cleared(claim.epoch)
            } else {
                e
            };
            &&& after.epoch == claim.epoch
            &&& after.limits == e.limits
            &&& after.senders == here.senders.insert(claim.sender)
            &&& after.votes == tallied(here.votes, vote_keys(claim.entries))
            &&& after.accepted == here.accepted + 1
            &&& after.rejected == here.rejected
            &&& after.processed == here.processed + 1
            &&& quorum == (after.senders.len() >= e.threshold)
        }),
{
    lemma_cleared_ok(e, claim.epoch);
}

/// Every claim leaves the engine in a good state, whatever it holds: in
/// particular accepted and rejected claims add up to those processed.
pub proof fn every_claim_is_accounted_for(
    e: EngineView,
    claim: ClaimView,
    source: Option<Seq<char>>,
)
    requires
        e.ok(),
    ensures
        e.claimed_by(claim, source).0.ok(),
        ({
            let after = e.claimed_by(claim, source).0;
            after.accepted + total(after.rejected) == after.processed
        }),
{
    lemma_counted_ok(e, Reason::InvalidSenderId);
    lemma_counted_ok(e, Reason::UnparsableSender);
    if source is Some {
        lemma_claimed_ok(e, claim, source->0);
    }
}

/// A claim never moves the epoch back, moves it by at most the skew, never moves
/// it above the ceiling, and never raises the ceiling.
pub proof fn claims_cannot_lift_the_ceiling(e: EngineView, claim: ClaimView, source: Seq<char>)
    requires
        e.ok(),
    ensures
        ({
            let after = e.claimed(claim, source).0;
            &&& after.limits == e.limits
            &&& e.epoch <= after.epoch <= later(e.epoch, e.limits.max_epoch_skew)
            &&& after.epoch == e.epoch || after.epoch <= e.limits.max_epoch
        }),
{
}

/// Neither starting an engine nor advancing it locally lifts the ceiling above
/// both what it was and the absolute maximum, or lowers it.
pub proof fn the_ceiling_is_bounded(
    e: EngineView,
    epoch: u64,
    threshold: nat,
    limits: ClaimLimits,
)
    ensures
        e.limits.max_epoch <= e.advanced(epoch).limits.max_epoch,
        e.advanced(epoch).limits.max_epoch <= later_of(e.limits.max_epoch, EPOCH_ABSOLUTE_MAX),
        limits.max_epoch <= started(threshold, epoch, limits).limits.max_epoch,
        started(threshold, epoch, limits).limits.max_epoch <= later_of(
            limits.max_epoch,
            EPOCH_ABSOLUTE_MAX,
        ),
{
}

/// Once a claim of a sender was accepted, no other claim of that sender is
/// accepted for the same epoch.
pub proof fn a_sender_votes_once(
    e: EngineView,
    first: ClaimView,
    second: ClaimView,
    source: Seq<char>,
    other_source: Seq<char>,
)
    requires
        e.ok(),
        accepts(e, first, source),
        second.sender == first.sender,
        second.epoch == first.epoch,
    ensures
        !accepts(e.claimed(first, source).0, second, other_source),
{
    accepted_claims_count_once(e, first, source);
}

/// Two accepted claims for the epoch under way give the same senders, votes and
/// counts in either order, so the same entries win.
pub proof fn the_order_of_votes_does_not_matter(
    e: EngineView,
    a: ClaimView,
    b: ClaimView,
    source_a: Seq<char>,
    source_b: Seq<char>,
)
    requires
        e.ok(),
        a.epoch == e.epoch,
        b.epoch == e.epoch,
        a.sender != b.sender,
        accepts(e, a, source_a),
        accepts(e, b, source_b),
        e.senders.len() + 2 <= e.limits.max_senders,
    ensures
        ({
            let ab = e.claimed(a, source_a).0.claimed(b, source_b).0;
            let ba = e.claimed(b, source_b).0.claimed(a, source_a).0;
            &&& ab == (EngineView { observations: ab.observations, ..ba })
            &&& ab.accepted == e.accepted + 2
            &&& winning(ab.votes, ab.threshold) == winning(ba.votes, ba.threshold)
        }),
{
    accepted_claims_count_once(e, a, source_a);
    accepted_claims_count_once(e, b, source_b);
    let e_a = e.claimed(a, source_a).0;
    let e_b = e.claimed(b, source_b).0;
    lemma_claimed_ok(e, a, source_a);
    lemma_claimed_ok(e, b, source_b);
    assert(e_a.gate_fault(b, source_b) == e.gate_fault(b, source_b));
    assert(e_b.gate_fault(a, source_a) == e.gate_fault(a, source_a));
    assert(accepts(e_a, b, source_b));
    assert(accepts(e_b, a, source_a));
    accepted_claims_count_once(e_a, b, source_b);
    accepted_claims_count_once(e_b, a, source_a);
    let ab = e_a.claimed(b, source_b).0;
    let ba = e_b.claimed(a, source_a).0;
    let ka = vote_keys(a.entries);
    let kb = vote_keys(b.entries);
    assert(ab.votes =~= tallied(tallied(e.votes, ka), kb));
    assert(tallied(tallied(e.votes, ka), kb) =~= tallied(tallied(e.votes, kb), ka));
    assert(ab.senders =~= ba.senders);
    assert(ab =~= (EngineView { observations: ab.observations, ..ba }));
}

/// Every number that wins has a code, so the map of an artifact does.
pub proof fn consensus_maps_have_codes(
    e: EngineView,
    artifact: ConsensusArtifact,
    topic: Seq<char>,
    local_peer_id: Seq<char>,
)
    requires
        e.ok(),
        artifact.wf(),
        is_final(artifact.report(), e, topic, local_peer_id),
    ensures
        artifact.map@.asns_at_most(CODER_ASN.max_value()),
{
    let list = artifact.report().entries;
    lemma_winners_good(e, list);
    assert forall|i: int| 0 <= i < list.len() implies (#[trigger] list[i]).2 <= ASN_MAX by {
        assert(is_good_vote((list[i].1, list[i].2)));
    }
    report_map_has_codes(artifact.map, list);
}

/// Nothing wins without as many senders as the threshold asks for, each counted
/// once.
pub proof fn winners_have_enough_senders(e: EngineView, k: (nat, Seq<char>, u32))
    requires
        e.ok(),
        winning(e.votes, e.threshold).contains(k),
    ensures
        e.threshold <= k.0 <= e.senders.len(),
        1 <= k.0,
        1 <= k.2 <= ASN_MAX,
{
    assert(e.votes.dom().contains((k.1, k.2)));
}

/// A claim is turned away for the first of these: a fault on its face, a sender
/// other than its source, a hash other than that of its content, an epoch before
/// the one under way or further after it than the skew, a bad entry.
pub proof fn gates_stand_in_order(e: EngineView, claim: ClaimView, source: Seq<char>)
    ensures
        ({
            let fault = e.gate_fault(claim, source);
            let shape = shape_fault(e.limits, claim);
            let speaks = claim.sender == source;
            let hash = claim.hash == claim_digest(claim.epoch, claim.sender, claim.entries);
            let due = claim.epoch >= e.epoch;
            let near = claim.epoch - e.epoch <= e.limits.max_epoch_skew;
            &&& shape is Some ==> fault == shape
            &&& shape is None && !speaks ==> fault == Some(Reason::SourceMismatch)
            &&& shape is None && speaks && !hash ==> fault == Some(Reason::ClaimHashMismatch)
            &&& shape is None && speaks && hash && !due ==> fault == Some(Reason::StaleEpoch)
            &&& shape is None && speaks && hash && due && !near ==> fault == Some(
                Reason::EpochJumpTooLarge,
            )
            &&& shape is None && speaks && hash && due && near ==> fault == entries_fault(
                claim.entries,
                claim.entries.len() as int,
            )
        }),
{
}

/// A claim that passes the gates is accepted if it starts a new epoch, or if its
/// sender has not voted and there are fewer senders than the limit allows; else it
/// is refused as a second vote, or for want of room.
pub proof fn each_sender_has_one_vote_while_there_is_room(
    e: EngineView,
    claim: ClaimView,
    source: Seq<char>,
)
    requires
        e.limits.max_senders >= 1,
    ensures
        ({
            let passed = e.gate_fault(claim, source) is None;
            let new = claim.epoch > e.epoch;
            let voted = e.senders.contains(claim.sender);
            let room = e.senders.len() < e.limits.max_senders;
            &&& accepts(e, claim, source) <==> passed && (new || !voted && room)
            &&& !passed ==> refusal(e, claim, source) == e.gate_fault(claim, source)
            &&& passed && !new && voted ==> refusal(e, claim, source) == Some(
                Reason::DuplicateSender,
            )
            &&& passed && !new && !voted && !room ==> refusal(e, claim, source) == Some(
                Reason::SenderLimitExceeded,
            )
        }),
{
}

/// A refused claim goes on record with its reason while there is room for it,
/// unless it had a fault on its face or came from somebody else than its sender;
/// such a claim is only counted. Nothing that is on record leaves it.
pub proof fn refusals_go_on_record_while_there_is_room(
    e: EngineView,
    claim: ClaimView,
    source: Seq<char>,
)
    requires
        e.ok(),
        !accepts(e, claim, source),
    ensures
        ({
            let after = e.claimed(claim, source).0;
            let foreign = shape_fault(e.limits, claim) is Some || claim.sender != source;
            &&& foreign ==> after.observations == e.observations && after.rejections_seen
                == e.rejections_seen
            &&& !foreign ==> after.rejections_seen == e.rejections_seen + 1
            &&& !foreign && e.rejections_seen < e.limits.max_rejection_observations
                ==> after.observations == e.observations.push(
                ObservationView {
                    epoch: claim.epoch,
                    source,
                    sender: claim.sender,
                    hash: claim.hash,
                    accepted: false,
                    reason: refusal(e, claim, source)->0.text(),
                },
            )
            &&& !foreign && e.rejections_seen >= e.limits.max_rejection_observations
                ==> after.observations == e.observations
        }),
{
}

/// An accepted claim goes on record as accepted. One for the epoch under way adds
/// one vote for each thing that its entries are votes for; one for a later epoch
/// leaves nothing of what was tallied before.
pub proof fn accepted_claims_go_on_record(e: EngineView, claim: ClaimView, source: Seq<char>)
    requires
        e.ok(),
        accepts(e, claim, source),
    ensures
        ({
            let (after, quorum) = e.claimed(claim, source);
            let entry = ObservationView {
                epoch: claim.epoch,
                source,
                sender: claim.sender,
                hash: claim.hash,
                accepted: true,
                reason: "accepted"@,
            };
            &&& after.epoch == claim.epoch
            &&& after.threshold == e.threshold
            &&& quorum == (after.accepted >= e.threshold)
            &&& claim.epoch == e.epoch ==> {
                &&& after.observations == e.observations.push(entry)
                &&& after.senders == e.senders.insert(claim.sender)
                &&& after.accepted == e.accepted + 1
                &&& after.rejected == e.rejected
                &&& after.rejections_seen == e.rejections_seen
                &&& forall|k: (Seq<char>, u32)| #[trigger]
                    after.votes.dom().contains(k) == (e.votes.dom().contains(k) || exists|i: int|
                        0 <= i < claim.entries.len() && vote_key(#[trigger] claim.entries[i]) == k)
                &&& forall|k: (Seq<char>, u32)| #[trigger]
                    after.votes.dom().contains(k) ==> after.votes[k] == (if e.votes.dom().contains(
                        k,
                    ) {
                        e.votes[k]
                    } else {
                        0
                    }) + (if exists|i: int|
                        0 <= i < claim.entries.len() && vote_key(#[trigger] claim.entries[i])
                            == k {
                        1int
                    } else {
                        0int
                    })
            }
            &&& claim.epoch > e.epoch ==> {
                &&& after.observations == seq![entry]
                &&& after.senders == set![claim.sender]
                &&& after.accepted == 1
                &&& after.rejections_seen == 0
                &&& after.rejected.len() == 20
                &&& forall|i: int| 0 <= i < 20 ==> #[trigger] after.rejected[i] == 0
                &&& forall|k: (Seq<char>, u32)| #[trigger]
                    after.votes.dom().contains(k) == exists|i: int|
                        0 <= i < claim.entries.len() && vote_key(#[trigger] claim.entries[i]) == k
                &&& forall|k: (Seq<char>, u32)| #[trigger]
                    after.votes.dom().contains(k) ==> after.votes[k] == 1
            }
        }),
{
    accepted_claims_count_once(e, claim, source);
    lemma_claimed_ok(e, claim, source);
    let after = e.claimed(claim, source).0;
    if claim.epoch > e.epoch {
        assert(after.observations =~= seq![after.observations[0]]);
        assert(after.senders =~= set![claim.sender]);
    }
}

/// A claim that says who it is from itself is refused first if that is too long,
/// then if it is no peer id, and else is treated as one from that peer.
pub proof fn claims_may_name_their_source(
    e: EngineView,
    claim: ClaimView,
    source: Option<Seq<char>>,
)
    ensures
        ({
            let long = byte_len(claim.sender) > e.limits.max_sender_id_len;
            let (after, quorum) = e.claimed_by(claim, source);
            &&& long ==> !quorum && after == e.counted(Reason::InvalidSenderId)
            &&& !long && source is None ==> !quorum && after == e.counted(Reason::UnparsableSender)
            &&& !long && source is Some ==> (after, quorum) == e.claimed(claim, source->0)
        }),
{
}

/// What is only counted changes nothing but its count.
pub proof fn counting_changes_one_count(e: EngineView, reason: Reason)
    requires
        e.rejected.len() == REASONS,
    ensures
        ({
            let after = e.counted(reason);
            &&& after.rejected.len() == e.rejected.len()
            &&& after.rejected[reason.position()] == e.rejected[reason.position()] + 1
            &&& forall|i: int|
                0 <= i < e.rejected.len() && i != reason.position() ==> #[trigger] after.rejected[i]
                    == e.rejected[i]
            &&& after.processed == e.processed + 1
            &&& after.threshold == e.threshold
            &&& after.epoch == e.epoch
            &&& after.limits == e.limits
            &&& after.senders == e.senders
            &&& after.votes == e.votes
            &&& after.observations == e.observations
            &&& after.rejections_seen == e.rejections_seen
            &&& after.accepted == e.accepted
        }),
{
}

/// A new engine has an empty epoch. There is room for at least one sender and for
/// a quorum. The ceiling reaches a skew beyond the first epoch, but of its own not
/// beyond the year 2100.
pub proof fn engines_start_empty(threshold: nat, epoch: u64, limits: ClaimLimits)
    requires
        threshold <= usize::MAX,
    ensures
        ({
            let e = started(threshold, epoch, limits);
            let ahead = if epoch + limits.max_epoch_skew < 4_102_444_800 {
                epoch + limits.max_epoch_skew
            } else {
                4_102_444_800
            };
            &&& e.threshold == threshold
            &&& e.epoch == epoch
            &&& e.senders == Set::<Seq<char>>::empty()
            &&& e.votes == Map::<(Seq<char>, u32), nat>::empty()
            &&& e.observations == Seq::<ObservationView>::empty()
            &&& e.rejections_seen == 0 && e.accepted == 0 && e.processed == 0
            &&& e.rejected.len() == 20
            &&& forall|i: int| 0 <= i < 20 ==> #[trigger] e.rejected[i] == 0
            &&& e.limits.max_senders >= limits.max_senders
            &&& e.limits.max_senders >= threshold
            &&& e.limits.max_senders >= 1
            &&& e.limits.max_senders == limits.max_senders || e.limits.max_senders == threshold
                || e.limits.max_senders == 1
            &&& e.limits.max_epoch == if limits.max_epoch < ahead {
                ahead
            } else {
                limits.max_epoch as int
            }
            &&& e.limits.max_entries == limits.max_entries
            &&& e.limits.min_entries == limits.min_entries
            &&& e.limits.max_sender_id_len == limits.max_sender_id_len
            &&& e.limits.max_rejection_observations == limits.max_rejection_observations
            &&& e.limits.max_epoch_skew == limits.max_epoch_skew
        }),
{
}

/// To move to an epoch on local authority is to start again with the same limits,
/// but for a ceiling that reaches a skew beyond it, as far as the year 2100.
pub proof fn advancing_starts_again(e: EngineView, epoch: u64)
    ensures
        ({
            let after = e.advanced(epoch);
            let ahead = if epoch + e.limits.max_epoch_skew < 4_102_444_800 {
                epoch + e.limits.max_epoch_skew
            } else {
                4_102_444_800
            };
            &&& after.threshold == e.threshold
            &&& after.epoch == epoch
            &&& after.senders == Set::<Seq<char>>::empty()
            &&& after.votes == Map::<(Seq<char>, u32), nat>::empty()
            &&& after.observations == Seq::<ObservationView>::empty()
            &&& after.rejections_seen == 0 && after.accepted == 0 && after.processed == 0
            &&& after.rejected.len() == 20
            &&& forall|i: int| 0 <= i < 20 ==> #[trigger] after.rejected[i] == 0
            &&& after.limits == ClaimLimits { max_epoch: after.limits.max_epoch, ..e.limits }
            &&& after.limits.max_epoch == if e.limits.max_epoch < ahead {
                ahead
            } else {
                e.limits.max_epoch as int
            }
        }),
{
}

/// The reason at each position that the list of rejections shows.
proof fn lemma_rejected_list(counts: Seq<nat>, n: int)
    requires
        0 <= n <= REASONS,
    ensures
        forall|i: int|
            0 <= i < rejected_list(counts, n).len() ==> exists|r: Reason|
                r.position() < n && #[trigger] counts[r.position()] > 0 && (
                #[trigger] rejected_list(counts, n)[i]) == (r.text(), counts[r.position()]),
        forall|r: Reason|
            r.position() < n && #[trigger] counts[r.position()] > 0 ==> rejected_list(
                counts,
                n,
            ).contains((r.text(), counts[r.position()])),
        texts_ascend(rejected_list(counts, n).map_values(|p: (Seq<char>, nat)| p.0)),
    decreases n,
{
    let list = rejected_list(counts, n);
    let names = list.map_values(|p: (Seq<char>, nat)| p.0);
    if n > 0 {
        lemma_rejected_list(counts, n - 1);
        let before = rejected_list(counts, n - 1);
        let earlier = before.map_values(|p: (Seq<char>, nat)| p.0);
        let last = lemma_reason_at(n - 1);
        lemma_reason_text(last);
        if counts[n - 1] > 0 {
            assert(list =~= before.push((last.text(), counts[n - 1])));
            assert(names =~= earlier.push(last.text()));
            assert(list[list.len() - 1] == (last.text(), counts[last.position()]));
        }
        assert forall|i: int| 0 <= i < list.len() implies exists|r: Reason|
            r.position() < n && #[trigger] counts[r.position()] > 0 && (#[trigger] list[i]) == (
                r.text(),
                counts[r.position()],
            ) by {
            if i < before.len() {
                assert(list[i] == before[i]);
                let r = choose|r: Reason|
                    r.position() < n - 1 && #[trigger] counts[r.position()] > 0 && before[i] == (
                        r.text(),
                        counts[r.position()],
                    );
                assert(counts[r.position()] > 0);
            } else {
                assert(counts[last.position()] > 0);
            }
        }
        assert forall|r: Reason|
            r.position() < n && #[trigger] counts[r.position()] > 0 implies list.contains(
            (r.text(), counts[r.position()]),
        ) by {
            if r.position() < n - 1 {
                let k = (r.text(), counts[r.position()]);
                assert(before.contains(k));
                let i = choose|i: int| 0 <= i < before.len() && before[i] == k;
                assert(list[i] == k);
            } else {
                assert(r == last);
                assert(list[list.len() - 1] == (r.text(), counts[r.position()]));
            }
        }
        assert forall|i: int, j: int| 0 <= i < j < names.len() implies text_le(
            #[trigger] names[i],
            #[trigger] names[j],
        ) && names[i] != names[j] by {
            assert(list[i] == before[i]);
            assert(names[i] == earlier[i]);
            if j == before.len() {
                let r = choose|r: Reason|
                    r.position() < n - 1 && #[trigger] counts[r.position()] > 0 && before[i] == (
                        r.text(),
                        counts[r.position()],
                    );
                reasons_are_in_the_order_of_their_names(r, last);
            } else {
                assert(names[j] == earlier[j]);
            }
        }
    }
}

/// There is a reason at every position.
proof fn lemma_reason_at(i: int) -> (reason: Reason)
    requires
        0 <= i < REASONS,
    ensures
        reason.position() == i,
{
    if i == 0 {
        Reason::AsnOutOfRange
    } else if i == 1 {
        Reason::ClaimHashMismatch
    } else if i == 2 {
        Reason::ConflictingEntry
    } else if i == 3 {
        Reason::DefaultRoutePrefix
    } else if i == 4 {
        Reason::DuplicateSender
    } else if i == 5 {
        Reason::EmptyClaim
    } else if i == 6 {
        Reason::EpochJumpTooLarge
    } else if i == 7 {
        Reason::EpochOutOfRange
    } else if i == 8 {
        Reason::InvalidPrefix
    } else if i == 9 {
        Reason::InvalidSenderId
    } else if i == 10 {
        Reason::Ipv4MappedPrefix
    } else if i == 11 {
        Reason::MalformedClaim
    } else if i == 12 {
        Reason::MalformedClaimHash
    } else if i == 13 {
        Reason::OversizeClaim
    } else if i == 14 {
        Reason::SenderLimitExceeded
    } else if i == 15 {
        Reason::SourceMismatch
    } else if i == 16 {
        Reason::StaleEpoch
    } else if i == 17 {
        Reason::TooManyEntries
    } else if i == 18 {
        Reason::UnassignedAsn
    } else {
        Reason::UnparsableSender
    }
}

/// A report says what the state of the epoch is: its senders in order, the winning
/// assignments in order, what is on record, and by name, in the order of the names,
/// how often each reason came up that came up at all.
pub proof fn reports_say_what_happened(
    report: ReportView,
    e: EngineView,
    topic: Seq<char>,
    local_peer_id: Seq<char>,
)
    requires
        is_final(report, e, topic, local_peer_id),
        e.rejected.len() == REASONS,
    ensures
        report.epoch == e.epoch,
        report.topic == topic,
        report.local_peer_id == local_peer_id,
        report.threshold == e.threshold,
        report.accepted_claims == e.accepted,
        report.observations == e.observations,
        forall|s: Seq<char>| #[trigger] report.participants.contains(s) == e.senders.contains(s),
        forall|i: int, j: int|
            0 <= i < j < report.participants.len() ==> text_le(
                #[trigger] report.participants[i],
                #[trigger] report.participants[j],
            ) && report.participants[i] != report.participants[j],
        forall|k: (nat, Seq<char>, u32)| #[trigger]
            report.entries.contains(k) == winning(e.votes, e.threshold).contains(k),
        forall|i: int, j: int|
            0 <= i < j < report.entries.len() ==> (#[trigger] report.entries[i]).0 > (
            #[trigger] report.entries[j]).0 || report.entries[i].0 == report.entries[j].0
                && text_le(report.entries[i].1, report.entries[j].1),
        forall|r: Reason| #[trigger]
            e.rejected[r.position()] > 0 ==> report.rejected_claims.contains(
                (r.text(), e.rejected[r.position()]),
            ),
        forall|k: (Seq<char>, nat)| #[trigger]
            report.rejected_claims.contains(k) ==> exists|r: Reason| #[trigger]
                e.rejected[r.position()] > 0 && k == (r.text(), e.rejected[r.position()]),
        forall|i: int, j: int|
            0 <= i < j < report.rejected_claims.len() ==> text_le(
                (#[trigger] report.rejected_claims[i]).0,
                (#[trigger] report.rejected_claims[j]).0,
            ) && report.rejected_claims[i].0 != report.rejected_claims[j].0,
{
    let list = report.rejected_claims;
    let names = list.map_values(|p: (Seq<char>, nat)| p.0);
    lemma_rejected_list(e.rejected, REASONS as int);
    assert forall|s: Seq<char>| #[trigger]
        report.participants.contains(s) == e.senders.contains(s) by {
        assert(report.participants.to_set().contains(s) == report.participants.contains(s));
    }
    assert forall|k: (nat, Seq<char>, u32)| #[trigger]
        report.entries.contains(k) == winning(e.votes, e.threshold).contains(k) by {
        assert(report.entries.to_set().contains(k) == report.entries.contains(k));
    }
    assert forall|i: int, j: int| 0 <= i < j < report.entries.len() implies (
    #[trigger] report.entries[i]).0 > (#[trigger] report.entries[j]).0 || report.entries[i].0
        == report.entries[j].0 && text_le(report.entries[i].1, report.entries[j].1) by {
        lemma_text_le_total(report.entries[i].1, report.entries[j].1);
    }
    assert forall|i: int, j: int| 0 <= i < j < list.len() implies text_le(
        (#[trigger] list[i]).0,
        (#[trigger] list[j]).0,
    ) && list[i].0 != list[j].0 by {
        assert(names[i] == list[i].0 && names[j] == list[j].0);
    }
    assert forall|k: (Seq<char>, nat)| #[trigger] list.contains(k) implies exists|r: Reason|
        #[trigger] e.rejected[r.position()] > 0 && k == (r.text(), e.rejected[r.position()]) by {
        let i = choose|i: int| 0 <= i < list.len() && list[i] == k;
        let r = choose|r: Reason|
            r.position() < REASONS && #[trigger] e.rejected[r.position()] > 0 && list[i] == (
                r.text(),
                e.rejected[r.position()],
            );
        assert(e.rejected[r.position()] > 0);
    }
    assert forall|r: Reason| #[trigger] e.rejected[r.position()] > 0 implies list.contains(
        (r.text(), e.rejected[r.position()]),
    ) by {
        assert(r.position() < REASONS);
    }
}

} // verus!
