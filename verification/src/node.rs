//! Nodes: what a participant does when it hears something and when time passes.

use crate::claim::{claim_digest, claim_hash, AsmapClaim};
use crate::consensus::ConsensusArtifact;
use crate::engine::{is_final, lemma_entries_faults, EngineView, QuorumEngine};
use crate::rules::{is_hash_text, later, ClaimView, Reason, MAX_CLAIM_BYTES};
use crate::sort::keys;
use crate::text::text_le;
use crate::votes::{lemma_ascending_texts_unique, texts, texts_ascend, SenderSet};
use vstd::multiset::Multiset;
use vstd::prelude::*;
use vstd::seq_lib::to_multiset_build;

verus! {

/// The collectors at the positions that leave the remainder `r` by `n`.
pub open spec fn share(collectors: Seq<u32>, n: int, r: int) -> Seq<u32>
    decreases collectors.len(),
{
    if collectors.len() == 0 {
        Seq::empty()
    } else {
        let rest = share(collectors.drop_last(), n, r);
        if (collectors.len() - 1) % n == r {
            rest.push(collectors.last())
        } else {
            rest
        }
    }
}

/// A participant's share, where the participants are in the order of their ids.
pub open spec fn is_share(
    assigned: Seq<u32>,
    collectors: Seq<u32>,
    local: Seq<char>,
    participants: Set<Seq<char>>,
) -> bool {
    exists|order: Seq<Seq<char>>, r: int|
        {
            &&& texts_ascend(order)
            &&& order.to_set() == participants
            &&& 0 <= r < order.len()
            &&& #[trigger] order[r] == local
            &&& assigned == share(collectors, order.len() as int, r)
        }
}

/// Which of the collectors fall to this node. All nodes that know each other
/// share them out in turn.
pub fn assigned_collectors(
    collectors: &Vec<u32>,
    local_peer_id: &str,
    peers: &SenderSet,
) -> (assigned: Vec<u32>)
    requires
        peers.wf(),
    ensures
        is_share(assigned@, collectors@, local_peer_id@, peers@.insert(local_peer_id@)),
{
    let mut participants = peers.copy();
    let _ = participants.insert(local_peer_id.to_owned());
    let n: usize = participants.ids.len();
    let r: usize = participants.rank(local_peer_id);
    let ghost order = texts(participants.ids@);
    let mut assigned: Vec<u32> = Vec::new();
    let mut i: usize = 0;
    assert(collectors@.take(0) =~= Seq::empty());
    while i < collectors.len()
        invariant
            i <= collectors@.len(),
            r < n,
            assigned@ == share(collectors@.take(i as int), n as int, r as int),
        decreases collectors@.len() - i,
    {
        assert(collectors@.take(i + 1).drop_last() =~= collectors@.take(i as int));
        if i % n == r {
            assigned.push(collectors[i]);
        }
        i = i + 1;
    }
    assert(collectors@.take(i as int) =~= collectors@);
    assert(order[r as int] == local_peer_id@);
    assigned
}

/// What a node that collects knows: the collectors to be asked, and its peers.
pub struct Roster {
    collectors: Vec<u32>,
    local_peer_id: String,
    peers: SenderSet,
}

/// The state of a roster.
#[verifier::ext_equal]
pub struct RosterView {
    pub collectors: Seq<u32>,
    pub local: Seq<char>,
    pub peers: Set<Seq<char>>,
}

impl View for Roster {
    type V = RosterView;

    closed spec fn view(&self) -> RosterView {
        RosterView {
            collectors: self.collectors@,
            local: self.local_peer_id@,
            peers: self.peers@,
        }
    }
}

impl Roster {
    /// The peers are in order.
    pub closed spec fn wf(self) -> bool {
        self.peers.wf()
    }

    /// A node that knows no peers.
    pub fn new(collectors: Vec<u32>, local_peer_id: String) -> (roster: Roster)
        ensures
            roster.wf(),
            roster@ == (RosterView {
                collectors: collectors@,
                local: local_peer_id@,
                peers: Set::empty(),
            }),
    {
        Roster { collectors, local_peer_id, peers: SenderSet::new() }
    }

    /// A peer was found.
    pub fn discovered(&mut self, id: String)
        requires
            old(self).wf(),
        ensures
            final(self).wf(),
            final(self)@ == (RosterView {
                peers: old(self)@.peers.insert(id@),
                ..old(self)@
            }),
    {
        let _ = self.peers.insert(id);
    }

    /// A peer has gone.
    pub fn expired(&mut self, id: &str)
        requires
            old(self).wf(),
        ensures
            final(self).wf(),
            final(self)@ == (RosterView {
                peers: old(self)@.peers.remove(id@),
                ..old(self)@
            }),
    {
        let _ = self.peers.remove(id);
    }

    /// Which of the collectors fall to this node.
    pub fn assignment(&self) -> (assigned: Vec<u32>)
        requires
            self.wf(),
        ensures
            is_share(
                assigned@,
                self@.collectors,
                self@.local,
                self@.peers.insert(self@.local),
            ),
    {
        assigned_collectors(&self.collectors, self.local_peer_id.as_str(), &self.peers)
    }
}

/// The participants and the collectors determine everyone's share.
pub proof fn a_share_is_determined(
    collectors: Seq<u32>,
    local: Seq<char>,
    participants: Set<Seq<char>>,
    a: Seq<u32>,
    b: Seq<u32>,
)
    requires
        is_share(a, collectors, local, participants),
        is_share(b, collectors, local, participants),
    ensures
        a == b,
{
    let (x, r) = choose|order: Seq<Seq<char>>, r: int|
        {
            &&& texts_ascend(order)
            &&& order.to_set() == participants
            &&& 0 <= r < order.len()
            &&& #[trigger] order[r] == local
            &&& a == share(collectors, order.len() as int, r)
        };
    let (y, q) = choose|order: Seq<Seq<char>>, r: int|
        {
            &&& texts_ascend(order)
            &&& order.to_set() == participants
            &&& 0 <= r < order.len()
            &&& #[trigger] order[r] == local
            &&& b == share(collectors, order.len() as int, r)
        };
    lemma_ascending_texts_unique(x, y);
    if r < q {
        assert(x[r] != x[q]);
    } else if q < r {
        assert(x[q] != x[r]);
    }
}

/// The shares of the first `k` of `n` participants taken together.
pub open spec fn shares(collectors: Seq<u32>, n: int, k: int) -> Multiset<u32>
    decreases k,
{
    if k <= 0 {
        Multiset::empty()
    } else {
        shares(collectors, n, k - 1).add(share(collectors, n, k - 1).to_multiset())
    }
}

/// Every collector is asked by exactly one of the participants.
pub proof fn every_collector_is_assigned_once(collectors: Seq<u32>, n: int)
    requires
        n > 0,
    ensures
        shares(collectors, n, n) == collectors.to_multiset(),
    decreases collectors.len(),
{
    broadcast use vstd::multiset::group_multiset_axioms;

    if collectors.len() == 0 {
        lemma_no_shares(collectors, n, n);
        collectors.to_multiset_ensures();
        assert(shares(collectors, n, n) =~= collectors.to_multiset());
    } else {
        let rest = collectors.drop_last();
        let last = collectors.last();
        every_collector_is_assigned_once(rest, n);
        lemma_one_more_share(collectors, n, n);
        to_multiset_build(rest, last);
        assert(rest.push(last) =~= collectors);
        assert((collectors.len() - 1) % n < n) by (nonlinear_arith)
            requires
                n > 0,
        ;
        assert(shares(collectors, n, n) =~= collectors.to_multiset());
    }
}

proof fn lemma_no_shares(collectors: Seq<u32>, n: int, k: int)
    requires
        collectors.len() == 0,
    ensures
        shares(collectors, n, k) == Multiset::<u32>::empty(),
    decreases k,
{
    broadcast use vstd::multiset::group_multiset_axioms;

    if k > 0 {
        lemma_no_shares(collectors, n, k - 1);
        share(collectors, n, k - 1).to_multiset_ensures();
        assert(shares(collectors, n, k) =~= Multiset::<u32>::empty());
    }
}

proof fn lemma_one_more_share(collectors: Seq<u32>, n: int, k: int)
    requires
        n > 0,
        0 <= k <= n,
        collectors.len() > 0,
    ensures
        shares(collectors, n, k) == if (collectors.len() - 1) % n < k {
            shares(collectors.drop_last(), n, k).insert(collectors.last())
        } else {
            shares(collectors.drop_last(), n, k)
        },
    decreases k,
{
    broadcast use vstd::multiset::group_multiset_axioms;

    let m = (collectors.len() - 1) % n;
    assert(0 <= m) by (nonlinear_arith)
        requires
            m == (collectors.len() - 1) % n,
            n > 0,
    ;
    if k > 0 {
        lemma_one_more_share(collectors, n, k - 1);
        let rest = share(collectors.drop_last(), n, k - 1);
        if m == k - 1 {
            to_multiset_build(rest, collectors.last());
        }
        assert(shares(collectors, n, k) =~= if m < k {
            shares(collectors.drop_last(), n, k).insert(collectors.last())
        } else {
            shares(collectors.drop_last(), n, k)
        });
    }
}

/// What the engine does with a payload of `len` bytes that was read as `claim`.
pub open spec fn heard(
    e: EngineView,
    len: nat,
    claim: Option<ClaimView>,
    source: Seq<char>,
) -> (EngineView, bool) {
    if len > MAX_CLAIM_BYTES {
        (e.counted(Reason::OversizeClaim), false)
    } else {
        match claim {
            None => (e.counted(Reason::MalformedClaim), false),
            Some(c) => e.claimed(c, source),
        }
    }
}

/// A claim that may be missing.
pub open spec fn maybe_claim(claim: Option<AsmapClaim>) -> Option<ClaimView> {
    match claim {
        Some(c) => Some(c@),
        None => None,
    }
}

/// Feeds a payload of `len` bytes from a peer to the engine: too large, not a
/// claim, or a claim. Gives whether there is a quorum.
pub fn quorum_from_gossip(
    engine: &mut QuorumEngine,
    len: usize,
    claim: Option<AsmapClaim>,
    source: &str,
) -> (quorum: bool)
    requires
        old(engine).wf(),
        old(engine)@.has_room(),
    ensures
        final(engine).wf(),
        (final(engine)@, quorum) == heard(
            old(engine)@,
            len as nat,
            maybe_claim(claim),
            source@,
        ),
{
    if len > MAX_CLAIM_BYTES {
        engine.record_oversize_claim();
        return false;
    }
    match claim {
        None => {
            engine.record_malformed_claim();
            false
        },
        Some(claim) => engine.process_claim_from_peer(claim, source),
    }
}

/// A participant: its engine, its own claim, and whether the result of the epoch
/// was given out.
pub struct Node {
    engine: QuorumEngine,
    local_peer_id: String,
    claim: AsmapClaim,
    written: bool,
}

/// The state of a node.
#[verifier::ext_equal]
pub struct NodeView {
    pub engine: EngineView,
    pub local: Seq<char>,
    pub claim: ClaimView,
    pub written: bool,
}

impl View for Node {
    type V = NodeView;

    closed spec fn view(&self) -> NodeView {
        NodeView {
            engine: self.engine@,
            local: self.local_peer_id@,
            claim: self.claim@,
            written: self.written,
        }
    }
}

/// The claim of `sender` for an epoch that lists given entries.
pub open spec fn own_claim(
    epoch: u64,
    sender: Seq<char>,
    entries: Seq<(Seq<char>, u32)>,
) -> ClaimView {
    ClaimView { epoch, sender, hash: claim_digest(epoch, sender, entries), entries }
}

impl NodeView {
    /// The node's claim speaks for the node and carries its hash.
    pub open spec fn claim_holds(self) -> bool {
        &&& self.claim == own_claim(self.claim.epoch, self.local, self.claim.entries)
        &&& is_hash_text(self.claim.hash)
    }

    /// The claim brought up to the epoch under way.
    pub open spec fn current(self) -> NodeView {
        NodeView {
            claim: own_claim(self.engine.epoch, self.local, self.claim.entries),
            ..self
        }
    }

    /// A new epoch has begun.
    pub open spec fn in_next_epoch(self) -> NodeView {
        NodeView {
            engine: self.engine.advanced(later(self.engine.epoch, 1)),
            written: false,
            ..self
        }
    }

    /// Another map is claimed.
    pub open spec fn claiming(self, entries: Seq<(Seq<char>, u32)>) -> NodeView {
        NodeView { claim: own_claim(self.engine.epoch, self.local, entries), ..self }
    }

    /// A payload was heard, and whether a result is given out: the first time that
    /// there is a quorum since an epoch began.
    pub open spec fn hearing(
        self,
        len: nat,
        claim: Option<ClaimView>,
        source: Seq<char>,
    ) -> (NodeView, bool) {
        let (engine, quorum) = heard(self.engine, len, claim, source);
        let gives = quorum && !self.written;
        (NodeView { engine, written: self.written || gives, ..self }, gives)
    }
}

impl Node {
    /// The engine is sound and the claim holds.
    pub closed spec fn wf(self) -> bool {
        self.engine.wf() && self@.claim_holds()
    }

    /// The engine's state is good, and the claim holds.
    pub proof fn lemma_holds(&self)
        requires
            self.wf(),
        ensures
            self@.engine.ok(),
            self@.claim_holds(),
    {
        self.engine.lemma_ok();
    }

    /// A node with its engine and the claim of its own map.
    pub fn new(engine: QuorumEngine, local_peer_id: String, claim: AsmapClaim) -> (node: Node)
        requires
            engine.wf(),
        ensures
            node.wf(),
            node@ == (NodeView {
                engine: engine@,
                local: local_peer_id@,
                claim: own_claim(engine@.epoch, local_peer_id@, claim@.entries),
                written: false,
            }),
    {
        let claim = speak(engine.epoch(), &local_peer_id, claim);
        Node { engine, local_peer_id, claim, written: false }
    }

    /// The node's own claim.
    pub fn claim(&self) -> (claim: &AsmapClaim)
        ensures
            claim@ == self@.claim,
    {
        &self.claim
    }

    /// The epoch under way.
    pub fn epoch(&self) -> (epoch: u64)
        ensures
            epoch == self@.engine.epoch,
    {
        self.engine.epoch()
    }

    /// Whether one more payload can be counted, whatever becomes of it.
    pub fn has_room(&self) -> (room: bool)
        requires
            self.wf(),
        ensures
            room == self@.engine.has_room(),
    {
        self.engine.has_room()
    }

    /// Whether rejections of this epoch no longer go on record.
    pub fn log_full(&self) -> (full: bool)
        ensures
            full == (self@.engine.rejections_seen > self@.engine.limits.max_rejection_observations),
    {
        self.engine.log_full()
    }

    /// It is time to publish: brings the claim up to the epoch under way.
    pub fn publish_tick(&mut self)
        requires
            old(self).wf(),
        ensures
            final(self).wf(),
            final(self)@ == old(self)@.current(),
    {
        let epoch: u64 = self.engine.epoch();
        self.restate(epoch);
    }

    fn restate(&mut self, epoch: u64)
        requires
            old(self).engine.wf(),
            old(self)@.claim.sender == old(self)@.local,
        ensures
            final(self).wf(),
            final(self)@ == (NodeView {
                claim: own_claim(epoch, old(self)@.local, old(self)@.claim.entries),
                ..old(self)@
            }),
    {
        let hash = claim_hash(epoch, self.claim.sender_id.as_str(), &self.claim.entries);
        self.claim.epoch = epoch;
        self.claim.claim_hash = hash;
    }

    /// An epoch is over: moves to the next one with the same claim.
    pub fn epoch_tick(&mut self)
        requires
            old(self).wf(),
        ensures
            final(self).wf(),
            final(self)@ == old(self)@.in_next_epoch().current(),
    {
        self.advance();
        let epoch: u64 = self.engine.epoch();
        self.restate(epoch);
    }

    /// An epoch is over: moves to the next one. The claim stays as it is until
    /// another one is made.
    pub fn advance(&mut self)
        requires
            old(self).wf(),
        ensures
            final(self).wf(),
            final(self)@ == old(self)@.in_next_epoch(),
    {
        let next: u64 = self.engine.epoch().saturating_add(1);
        self.engine.advance_epoch(next);
        self.written = false;
    }

    /// Another map was made: claims it from now on.
    pub fn refresh(&mut self, claim: AsmapClaim)
        requires
            old(self).wf(),
        ensures
            final(self).wf(),
            final(self)@ == old(self)@.claiming(claim@.entries),
    {
        self.claim = speak(self.engine.epoch(), &self.local_peer_id, claim);
    }

    /// A payload of `len` bytes came from a peer and was read as `claim`. Gives the
    /// result of the epoch the first time that there is a quorum.
    pub fn gossip(
        &mut self,
        len: usize,
        claim: Option<AsmapClaim>,
        source: &str,
        topic: &str,
    ) -> (artifact: Option<ConsensusArtifact>)
        requires
            old(self).wf(),
            old(self)@.engine.has_room(),
        ensures
            final(self).wf(),
            (final(self)@, artifact is Some) == old(self)@.hearing(
                len as nat,
                maybe_claim(claim),
                source@,
            ),
            artifact matches Some(a) ==> {
                &&& a.wf()
                &&& is_final(a.report(), final(self)@.engine, topic@, final(self)@.local)
            },
    {
        let quorum: bool = quorum_from_gossip(&mut self.engine, len, claim, source);
        if quorum && !self.written {
            self.written = true;
            Some(self.engine.finalize(topic, self.local_peer_id.as_str()))
        } else {
            None
        }
    }
}

/// The claim of `sender` for `epoch` with the entries of another.
fn speak(epoch: u64, sender: &String, claim: AsmapClaim) -> (own: AsmapClaim)
    ensures
        own@ == own_claim(epoch, sender@, claim@.entries),
        is_hash_text(own@.hash),
{
    let hash = claim_hash(epoch, sender.as_str(), &claim.entries);
    AsmapClaim { epoch, sender_id: sender.clone(), claim_hash: hash, entries: claim.entries }
}

/// Between two epoch ticks a node gives out at most one result.
pub proof fn one_result_between_epoch_ticks(
    node: NodeView,
    len: nat,
    claim: Option<ClaimView>,
    source: Seq<char>,
)
    requires
        node.written,
    ensures
        !node.hearing(len, claim, source).1,
        node.hearing(len, claim, source).0.written,
        node.current().written,
{
}

/// What a node publishes passes every gate but those on its entries, on the size
/// of its id and on its epoch, at any peer that knows where it came from.
pub proof fn published_claims_hold(node: NodeView, peer: EngineView)
    requires
        node.claim_holds(),
    ensures
        ({
            let fault = peer.gate_fault(node.claim, node.local);
            &&& fault != Some(Reason::MalformedClaimHash)
            &&& fault != Some(Reason::SourceMismatch)
            &&& fault != Some(Reason::ClaimHashMismatch)
        }),
{
    lemma_entries_faults(node.claim.entries, node.claim.entries.len() as int);
}

/// Collectors are dealt out in turn: of `n` participants the one at position `r` is
/// given the collectors at `r`, `n + r`, `2 * n + r` and so on, as far as there are
/// any.
pub proof fn collectors_are_dealt_out_in_turn(collectors: Seq<u32>, n: int, r: int, k: int)
    requires
        0 <= r < n,
        0 <= k,
    ensures
        k < share(collectors, n, r).len() <==> k * n + r < collectors.len(),
        k < share(collectors, n, r).len() ==> share(collectors, n, r)[k] == collectors[k * n + r],
    decreases collectors.len(),
{
    assert(k * n >= 0) by (nonlinear_arith)
        requires
            k >= 0,
            n > 0,
    ;
    if collectors.len() > 0 {
        let rest = collectors.drop_last();
        let m = collectors.len() - 1;
        let q = m / n;
        collectors_are_dealt_out_in_turn(rest, n, r, k);
        assert(m == q * n + m % n && 0 <= m % n < n && q >= 0) by (nonlinear_arith)
            requires
                q == m / n,
                n > 0,
                m >= 0,
        ;
        if m % n == r {
            collectors_are_dealt_out_in_turn(rest, n, r, q);
            if q > 0 {
                collectors_are_dealt_out_in_turn(rest, n, r, q - 1);
                assert((q - 1) * n + r < q * n + r) by (nonlinear_arith)
                    requires
                        n > 0,
                ;
            }
            assert(share(rest, n, r).len() == q);
            assert(k < q ==> k * n < q * n) by (nonlinear_arith)
                requires
                    n > 0,
            ;
            assert(k > q ==> k * n > q * n) by (nonlinear_arith)
                requires
                    n > 0,
            ;
        } else if k * n + r == m {
            assert(m % n == r) by (nonlinear_arith)
                requires
                    k * n + r == m,
                    0 <= r < n,
            ;
        }
    }
}

/// A participant's share is dealt out by its position among all participants in the
/// order of their ids.
pub proof fn shares_go_by_the_order_of_the_ids(
    assigned: Seq<u32>,
    collectors: Seq<u32>,
    local: Seq<char>,
    participants: Set<Seq<char>>,
    order: Seq<Seq<char>>,
    r: int,
)
    requires
        forall|i: int, j: int|
            0 <= i < j < order.len() ==> text_le(#[trigger] order[i], #[trigger] order[j])
                && order[i] != order[j],
        order.to_set() == participants,
        0 <= r < order.len(),
        order[r] == local,
    ensures
        is_share(assigned, collectors, local, participants) <==> assigned == share(
            collectors,
            order.len() as int,
            r,
        ),
{
    assert(texts_ascend(order));
    let own = share(collectors, order.len() as int, r);
    assert(is_share(own, collectors, local, participants));
    if is_share(assigned, collectors, local, participants) {
        a_share_is_determined(collectors, local, participants, assigned, own);
    }
}

/// A payload of more than 65,536 bytes is counted as too large whatever it holds, and
/// any other that is no claim as malformed; a claim goes to the engine.
pub proof fn payloads_are_sorted_by_size_and_content(
    e: EngineView,
    len: nat,
    claim: Option<ClaimView>,
    source: Seq<char>,
)
    ensures
        len > 65_536 ==> heard(e, len, claim, source) == (e.counted(Reason::OversizeClaim), false),
        len <= 65_536 && claim is None ==> heard(e, len, claim, source) == (
            e.counted(Reason::MalformedClaim),
            false,
        ),
        len <= 65_536 && claim is Some ==> heard(e, len, claim, source) == e.claimed(
            claim->0,
            source,
        ),
{
}

/// What a node claims, and when: its own entries under its own id for the epoch
/// under way, with the hash of just that.
pub proof fn nodes_speak_for_themselves(
    node: NodeView,
    epoch: u64,
    sender: Seq<char>,
    entries: Seq<(Seq<char>, u32)>,
)
    ensures
        own_claim(epoch, sender, entries).epoch == epoch,
        own_claim(epoch, sender, entries).sender == sender,
        own_claim(epoch, sender, entries).entries == entries,
        own_claim(epoch, sender, entries).hash == claim_digest(epoch, sender, entries),
        node.current().claim == own_claim(node.engine.epoch, node.local, node.claim.entries),
        node.current().engine == node.engine,
        node.current().local == node.local,
        node.current().written == node.written,
        node.claiming(entries).claim == own_claim(node.engine.epoch, node.local, entries),
        node.claiming(entries).engine == node.engine,
        node.claiming(entries).local == node.local,
        node.claiming(entries).written == node.written,
{
}

/// With a new epoch, one after the last, a node keeps its claim and may give out a
/// result again.
pub proof fn epochs_follow_one_another(node: NodeView)
    requires
        node.engine.epoch < u64::MAX,
    ensures
        node.in_next_epoch().engine == node.engine.advanced((node.engine.epoch + 1) as u64),
        node.in_next_epoch().claim == node.claim,
        node.in_next_epoch().local == node.local,
        !node.in_next_epoch().written,
{
}

/// A result is given out when what was heard makes a quorum, and only once.
pub proof fn results_are_given_out_with_the_first_quorum(
    node: NodeView,
    len: nat,
    claim: Option<ClaimView>,
    source: Seq<char>,
)
    ensures
        ({
            let (engine, quorum) = heard(node.engine, len, claim, source);
            let (after, gives) = node.hearing(len, claim, source);
            &&& gives <==> quorum && !node.written
            &&& after.written <==> node.written || quorum
            &&& after.engine == engine
            &&& after.claim == node.claim
            &&& after.local == node.local
        }),
{
}

/// A claim that was read is taken as it stands.
pub proof fn claims_are_heard_as_they_stand(claim: AsmapClaim)
    ensures
        maybe_claim(None) == None::<ClaimView>,
        maybe_claim(Some(claim)) is Some,
        maybe_claim(Some(claim))->0.epoch == claim.epoch,
        maybe_claim(Some(claim))->0.sender == claim.sender_id@,
        maybe_claim(Some(claim))->0.hash == claim.claim_hash@,
        maybe_claim(Some(claim))->0.entries == keys(claim.entries@),
{
}

} // verus!
