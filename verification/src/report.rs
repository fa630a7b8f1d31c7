//! Checking, comparing and replaying: what is done with reports and claims.

use crate::claim::AsmapClaim;
use crate::consensus::{
    all_readable, first_unreadable, maps_report, report_bits, report_determines_the_map,
    report_map, ConsensusArtifact, RejectedClaims,
};
use crate::engine::{
    final_report_is_determined, is_final, lemma_has_room, lemma_winners_good, started, EngineView,
    QuorumEngine,
};
use crate::entries::bits_lt;
use crate::net::{bits_to_network, network_text, ParseNetworkError};
use crate::outside::peer_id_text;
use crate::prefix::consensus_prefix;
use crate::rules::{default_limits, ClaimLimits, ClaimView};
use crate::sort::keys;
use crate::text::{decimal, push_number, split, split_text, to_chars, to_text, trim, trim_range};
use crate::trie::{differences, diffs_view, resolve, ASMap, ASNDiff, TrieNode};
use crate::votes::texts;
use vstd::prelude::*;
use vstd::slice::slice_subrange;

verus! {

/// Why a report does not hold.
#[derive(Debug, PartialEq, Eq)]
pub enum VerifyError {
    /// A prefix cannot be read.
    InvalidNetwork(ParseNetworkError),
    /// The map is not the one that the entries describe.
    ReportMap,
    /// The map file holds another map.
    MapFile,
}

impl VerifyError {
    /// What a reader is told about the error.
    pub open spec fn text(self) -> Seq<char> {
        match self {
            VerifyError::InvalidNetwork(e) => e.text(),
            VerifyError::ReportMap => "report map does not match the published consensus entries"@,
            VerifyError::MapFile => "binary/text map does not match the report artifact"@,
        }
    }

    /// What a reader is told about the error.
    pub fn message(&self) -> (message: String)
        ensures
            message@ == self.text(),
    {
        match self {
            VerifyError::InvalidNetwork(e) => e.message(),
            VerifyError::ReportMap => {
                "report map does not match the published consensus entries".to_owned()
            },
            VerifyError::MapFile => {
                "binary/text map does not match the report artifact".to_owned()
            },
        }
    }
}

/// A report holds: its entries can be read, its map is the one that they
/// describe, and so is the map of a file that comes with it.
pub open spec fn verifies(artifact: ConsensusArtifact, file_map: Option<TrieNode>) -> bool {
    &&& all_readable(artifact.report().entries)
    &&& maps_report(artifact.map, artifact.report().entries)
    &&& file_map matches Some(m) ==> m == artifact.map@
}

/// Checks a report against its own entries and against a map file.
pub fn verify_artifact(artifact: &ConsensusArtifact, file_map: Option<&ASMap>) -> (checked: Result<
    (),
    VerifyError,
>)
    requires
        artifact.map.wf(),
    ensures
        ({
            let entries = artifact.report().entries;
            match checked {
                Ok(_) => verifies(
                    *artifact,
                    match file_map {
                        Some(m) => Some(m@),
                        None => None,
                    },
                ),
                Err(VerifyError::InvalidNetwork(e)) => e is Invalid && first_unreadable(
                    entries,
                    e.input(),
                ),
                Err(VerifyError::ReportMap) => all_readable(entries) && !maps_report(
                    artifact.map,
                    entries,
                ),
                Err(VerifyError::MapFile) => {
                    &&& verifies(*artifact, None)
                    &&& file_map matches Some(m) && m@ != artifact.map@
                },
            }
        }),
{
    let expected = match report_map(&artifact.entries) {
        Ok(map) => map,
        Err(e) => {
            return Err(VerifyError::InvalidNetwork(e));
        },
    };
    if !expected.same_map(&artifact.map) {
        proof {
            if maps_report(artifact.map, keys(artifact.entries@)) {
                report_determines_the_map(expected, artifact.map, keys(artifact.entries@));
            }
        }
        return Err(VerifyError::ReportMap);
    }
    assert(maps_report(artifact.map, keys(artifact.entries@))) by {
        assert forall|path: spec_fn(int) -> bool| #[trigger]
            artifact.map.asn_of(path) == expected.asn_of(path) by {}
    }
    match file_map {
        Some(map) => {
            if map.same_map(&artifact.map) {
                Ok(())
            } else {
                Err(VerifyError::MapFile)
            }
        },
        None => Ok(()),
    }
}

/// What an engine publishes verifies: its report, read back with its map made
/// anew, holds together with the map that was written beside it.
pub proof fn a_published_report_verifies(
    e: EngineView,
    topic: Seq<char>,
    local_peer_id: Seq<char>,
    published: ConsensusArtifact,
    read: ConsensusArtifact,
)
    requires
        e.ok(),
        published.wf(),
        is_final(published.report(), e, topic, local_peer_id),
        read.report() == published.report(),
        read.wf(),
    ensures
        verifies(read, Some(published.map@)),
{
    lemma_winners_good(e, published.report().entries);
    report_determines_the_map(published.map, read.map, read.report().entries);
}

/// Every prefix among some changes is one of addresses.
pub open spec fn changes_fit(diffs: Seq<(Seq<bool>, u32, u32)>) -> bool {
    forall|i: int, j: int|
        0 <= i < diffs.len() && 128 <= j < diffs[i].0.len() ==> !#[trigger] diffs[i].0[j]
}

/// Whether every prefix among some changes is one of addresses.
pub fn check_changes(diffs: &Vec<ASNDiff>) -> (fit: bool)
    ensures
        fit == changes_fit(diffs_view(diffs@)),
{
    let ghost view = diffs_view(diffs@);
    let mut i: usize = 0;
    while i < diffs.len()
        invariant
            i <= diffs@.len(),
            view == diffs_view(diffs@),
            forall|x: int, y: int| 0 <= x < i && 128 <= y < view[x].0.len() ==> !#[trigger] view[x].0[y],
        decreases diffs@.len() - i,
    {
        let bits = &diffs[i].0;
        assert(view[i as int].0 == bits@);
        let mut j: usize = 128;
        while j < bits.len()
            invariant
                128 <= j,
                i < diffs@.len(),
                view == diffs_view(diffs@),
                view[i as int].0 == bits@,
                forall|y: int| 128 <= y < j && y < bits@.len() ==> !#[trigger] view[i as int].0[y],
            decreases bits@.len() - j,
        {
            if bits[j] {
                assert(view[i as int].0[j as int]);
                return false;
            }
            j = j + 1;
        }
        i = i + 1;
    }
    true
}

/// A changed block as it is listed.
pub open spec fn change_text(change: (Seq<bool>, u32, u32)) -> Seq<char> {
    network_text(change.0) + " AS"@ + decimal(change.1 as nat) + " -> AS"@ + decimal(
        change.2 as nat,
    )
}

/// Lists changed blocks, one line each.
pub fn change_lines(diffs: &Vec<ASNDiff>) -> (lines: Vec<String>)
    requires
        changes_fit(diffs_view(diffs@)),
    ensures
        texts(lines@) == diffs_view(diffs@).map_values(|d: (Seq<bool>, u32, u32)| change_text(d)),
{
    let ghost view = diffs_view(diffs@);
    let mut lines: Vec<String> = Vec::new();
    let mut i: usize = 0;
    while i < diffs.len()
        invariant
            i <= diffs@.len(),
            view == diffs_view(diffs@),
            changes_fit(view),
            lines@.len() == i,
            forall|j: int| 0 <= j < i ==> (#[trigger] lines@[j])@ == change_text(view[j]),
        decreases diffs@.len() - i,
    {
        let diff = &diffs[i];
        assert(view[i as int] == (diff.0@, diff.1, diff.2));
        assert forall|j: int| 128 <= j < diff.0@.len() implies !#[trigger] diff.0@[j] by {
            assert(!view[i as int].0[j]);
        }
        let mut line = bits_to_network(diff.0.as_slice());
        line.append(" AS");
        push_number(&mut line, diff.1 as u128, 10);
        line.append(" -> AS");
        push_number(&mut line, diff.2 as u128, 10);
        assert(line@ =~= change_text(view[i as int]));
        lines.push(line);
        i = i + 1;
    }
    assert(texts(lines@) =~= view.map_values(|d: (Seq<bool>, u32, u32)| change_text(d)));
    lines
}

/// What is said about a comparison.
pub open spec fn comparison_text(left: Seq<char>, right: Seq<char>, changed: nat) -> Seq<char> {
    "[+] Compared "@ + left + " vs "@ + right + ": "@ + decimal(changed) + " changed prefix(es)"@
}

/// What is said about a comparison of the files `left` and `right`.
pub fn comparison_summary(left: &str, right: &str, changed: usize) -> (text: String)
    ensures
        text@ == comparison_text(left@, right@, changed as nat),
{
    let mut text = "[+] Compared ".to_owned();
    text.append(left);
    text.append(" vs ");
    text.append(right);
    text.append(": ");
    push_number(&mut text, changed as u128, 10);
    text.append(" changed prefix(es)");
    text
}

/// Changes are listed in the order of their prefixes.
pub proof fn changes_are_in_address_order(left: TrieNode, right: TrieNode, i: int, j: int)
    requires
        0 <= i < j < differences(left, right, Seq::empty()).len(),
    ensures
        bits_lt(
            differences(left, right, Seq::empty())[i].0,
            differences(left, right, Seq::empty())[j].0,
        ),
{
    lemma_changes_in_order(left, right, Seq::empty());
}

proof fn lemma_changes_in_order(left: TrieNode, right: TrieNode, prefix: Seq<bool>)
    ensures
        forall|i: int|
            0 <= i < differences(left, right, prefix).len() ==> {
                let bits = (#[trigger] differences(left, right, prefix)[i]).0;
                bits.len() >= prefix.len() && bits.take(prefix.len() as int) == prefix
            },
        forall|i: int, j: int|
            0 <= i < j < differences(left, right, prefix).len() ==> bits_lt(
                (#[trigger] differences(left, right, prefix)[i]).0,
                (#[trigger] differences(left, right, prefix)[j]).0,
            ),
    decreases left.height() + right.height(),
{
    let all = differences(left, right, prefix);
    let n = prefix.len() as int;
    match (left, right) {
        (TrieNode::Leaf(a), TrieNode::Leaf(b)) => {
            assert(prefix.take(n) =~= prefix);
        },
        _ => {
            let zero = differences(left.child(false), right.child(false), prefix.push(false));
            let one = differences(left.child(true), right.child(true), prefix.push(true));
            lemma_changes_in_order(left.child(false), right.child(false), prefix.push(false));
            lemma_changes_in_order(left.child(true), right.child(true), prefix.push(true));
            assert(all == zero + one);
            assert forall|i: int| 0 <= i < all.len() implies {
                let bits = (#[trigger] all[i]).0;
                bits.len() >= prefix.len() && bits.take(n) == prefix && bits.len() > n && bits[n]
                    == (i >= zero.len())
            } by {
                let bits = all[i].0;
                if i < zero.len() {
                    assert(all[i] == zero[i]);
                    assert(bits.take(n + 1) == prefix.push(false));
                    assert(bits[n] == bits.take(n + 1)[n]);
                } else {
                    assert(all[i] == one[i - zero.len()]);
                    assert(bits.take(n + 1) == prefix.push(true));
                    assert(bits[n] == bits.take(n + 1)[n]);
                }
                assert(bits.take(n) =~= bits.take(n + 1).take(n));
                assert(bits.take(n + 1).take(n) =~= prefix);
            }
            assert forall|i: int, j: int| 0 <= i < j < all.len() implies bits_lt(
                (#[trigger] all[i]).0,
                (#[trigger] all[j]).0,
            ) by {
                if j < zero.len() {
                    assert(all[i] == zero[i] && all[j] == zero[j]);
                } else if i >= zero.len() {
                    assert(all[i] == one[i - zero.len()] && all[j] == one[j - zero.len()]);
                } else {
                    assert(all[i].0.take(n) == all[j].0.take(n));
                }
            }
        },
    }
}

/// Why claims are not replayed.
#[derive(Debug, Clone, Copy, PartialEq, Eq, Structural)]
pub enum ReplayError {
    /// There are no claims.
    NoClaims,
    /// The epoch to start at is above the ceiling.
    EpochTooHigh { epoch: u64, requested: bool },
}

impl ReplayError {
    /// What a reader is told about the error.
    pub open spec fn text(self) -> Seq<char> {
        match self {
            ReplayError::NoClaims => "replay input contains no claims"@,
            ReplayError::EpochTooHigh { epoch, requested } => "starting epoch "@ + decimal(
                epoch as nat,
            ) + " is above the absolute ceiling "@ + decimal(default_limits().max_epoch as nat)
                + " ("@ + (if requested {
                "from --epoch"@
            } else {
                "read from the first claim in the file"@
            }) + "); refusing to replay"@,
        }
    }

    /// What a reader is told about the error.
    pub fn message(&self) -> (message: String)
        ensures
            message@ == self.text(),
    {
        match *self {
            ReplayError::NoClaims => "replay input contains no claims".to_owned(),
            ReplayError::EpochTooHigh { epoch, requested } => {
                let limits = ClaimLimits::default();
                let mut message = "starting epoch ".to_owned();
                push_number(&mut message, epoch as u128, 10);
                message.append(" is above the absolute ceiling ");
                push_number(&mut message, limits.max_epoch as u128, 10);
                message.append(" (");
                message.append(
                    if requested {
                        "from --epoch"
                    } else {
                        "read from the first claim in the file"
                    },
                );
                message.append("); refusing to replay");
                message
            },
        }
    }
}

/// Claims with their texts taken as sequences.
pub open spec fn claims_view(claims: Seq<AsmapClaim>) -> Seq<ClaimView> {
    claims.map_values(|c: AsmapClaim| c@)
}

/// The epoch at which a replay starts: the one asked for, or that of the first
/// claim.
pub open spec fn replay_start(requested: Option<u64>, claims: Seq<ClaimView>) -> Result<
    u64,
    ReplayError,
> {
    if claims.len() == 0 {
        Err(ReplayError::NoClaims)
    } else {
        let epoch = match requested {
            Some(epoch) => epoch,
            None => claims[0].epoch,
        };
        if epoch > default_limits().max_epoch {
            Err(ReplayError::EpochTooHigh { epoch, requested: requested is Some })
        } else {
            Ok(epoch)
        }
    }
}

/// The epoch at which a replay starts.
pub fn replay_epoch(requested: Option<u64>, claims: &Vec<AsmapClaim>) -> (epoch: Result<
    u64,
    ReplayError,
>)
    ensures
        epoch == replay_start(requested, claims_view(claims@)),
{
    if claims.len() == 0 {
        return Err(ReplayError::NoClaims);
    }
    assert(claims_view(claims@)[0] == claims@[0]@);
    let epoch: u64 = match requested {
        Some(epoch) => epoch,
        None => claims[0].epoch,
    };
    let limits = ClaimLimits::default();
    if epoch > limits.max_epoch {
        return Err(ReplayError::EpochTooHigh { epoch, requested: requested.is_some() });
    }
    Ok(epoch)
}

/// The state after claims were processed one by one.
pub open spec fn replayed(e: EngineView, claims: Seq<ClaimView>) -> EngineView
    decreases claims.len(),
{
    if claims.len() == 0 {
        e
    } else {
        let claim = claims.last();
        replayed(e, claims.drop_last()).claimed_by(claim, peer_id_text(claim.sender)).0
    }
}

/// Processes claims one by one under limits that depend on nothing but what is
/// given, so that the same claims always give the same artifact.
pub fn replay(
    claims: Vec<AsmapClaim>,
    threshold: usize,
    requested: Option<u64>,
    topic: &str,
    local_peer_id: &str,
) -> (artifact: Result<ConsensusArtifact, ReplayError>)
    ensures
        match (artifact, replay_start(requested, claims_view(claims@))) {
            (Ok(a), Ok(epoch)) => {
                &&& a.wf()
                &&& is_final(
                    a.report(),
                    replayed(
                        started(threshold as nat, epoch, default_limits()),
                        claims_view(claims@),
                    ),
                    topic@,
                    local_peer_id@,
                )
            },
            (Err(e), Err(f)) => e == f,
            _ => false,
        },
{
    let epoch: u64 = match replay_epoch(requested, &claims) {
        Ok(epoch) => epoch,
        Err(e) => {
            return Err(e);
        },
    };
    let mut engine = QuorumEngine::with_limits(threshold, epoch, ClaimLimits::default());
    let ghost start = engine@;
    let ghost view = claims_view(claims@);
    let ghost total = claims@.len();
    assert(claims.len() == total);
    let mut left: Vec<AsmapClaim> = reversed(claims);
    assert(view.take(0) =~= Seq::empty());
    while left.len() > 0
        invariant
            engine.wf(),
            total <= usize::MAX,
            left@.len() <= total == view.len(),
            forall|j: int| 0 <= j < left@.len() ==> (#[trigger] left@[j])@ == view[total - 1 - j],
            engine@ == replayed(start, view.take(total - left@.len())),
            engine@.processed <= total - left@.len(),
        decreases left@.len(),
    {
        let ghost done = view.take(total - left@.len());
        let ghost before = engine@;
        match left.pop() {
            Some(claim) => {
                let ghost next = view.take(total - left@.len());
                proof {
                    assert(claim@ == view[total - 1 - left@.len()]);
                    assert(next.last() == claim@);
                    assert(next.drop_last() =~= done);
                    engine.lemma_ok();
                    lemma_has_room(engine@);
                }
                let _ = engine.process_claim(claim);
            },
            None => {},
        }
    }
    assert(view.take(total as int) =~= view);
    Ok(engine.finalize(topic, local_peer_id))
}

/// Claims in reverse order.
fn reversed(claims: Vec<AsmapClaim>) -> (out: Vec<AsmapClaim>)
    ensures
        out@.len() == claims@.len(),
        forall|j: int|
            0 <= j < out@.len() ==> #[trigger] out@[j] == claims@[claims@.len() - 1 - j],
{
    let mut rest = claims;
    let ghost all = rest@;
    let mut out: Vec<AsmapClaim> = Vec::new();
    while rest.len() > 0
        invariant
            rest@.len() + out@.len() == all.len(),
            rest@ == all.take(rest@.len() as int),
            forall|j: int| 0 <= j < out@.len() ==> #[trigger] out@[j] == all[all.len() - 1 - j],
        decreases rest@.len(),
    {
        match rest.pop() {
            Some(claim) => {
                out.push(claim);
                assert(rest@ =~= all.take(rest@.len() as int));
            },
            None => {},
        }
    }
    out
}

/// Two replays of the same claims under the same settings publish the same.
pub proof fn replay_is_deterministic(
    threshold: nat,
    epoch: u64,
    claims: Seq<ClaimView>,
    topic: Seq<char>,
    local_peer_id: Seq<char>,
    a: ConsensusArtifact,
    b: ConsensusArtifact,
)
    requires
        a.wf(),
        b.wf(),
        is_final(
            a.report(),
            replayed(started(threshold, epoch, default_limits()), claims),
            topic,
            local_peer_id,
        ),
        is_final(
            b.report(),
            replayed(started(threshold, epoch, default_limits()), claims),
            topic,
            local_peer_id,
        ),
    ensures
        a.report() == b.report(),
        a.map@ == b.map@,
{
    final_report_is_determined(
        replayed(started(threshold, epoch, default_limits()), claims),
        topic,
        local_peer_id,
        a.report(),
        b.report(),
    );
    report_determines_the_map(a.map, b.map, a.report().entries);
}

/// The sum of counts by name.
pub open spec fn rejected_total(list: Seq<(Seq<char>, nat)>) -> nat
    decreases list.len(),
{
    if list.len() == 0 {
        0
    } else {
        rejected_total(list.drop_last()) + list.last().1
    }
}

/// Counts by name, as they are listed.
pub open spec fn breakdown_text(list: Seq<(Seq<char>, nat)>) -> Seq<char>
    decreases list.len(),
{
    if list.len() == 0 {
        Seq::empty()
    } else {
        let item = list.last().0 + "="@ + decimal(list.last().1);
        if list.len() == 1 {
            item
        } else {
            breakdown_text(list.drop_last()) + ", "@ + item
        }
    }
}

impl RejectedClaims {
    /// How many claims were rejected.
    pub fn total(&self) -> (n: u128)
        ensures
            n == rejected_total(self@),
    {
        let mut n: u128 = 0;
        let mut i: usize = 0;
        assert(self@.take(0) =~= Seq::empty());
        while i < self.counts.len()
            invariant
                i <= self.counts@.len(),
                n == rejected_total(self@.take(i as int)),
                n <= i * 0xffff_ffff_ffff_ffff,
            decreases self.counts@.len() - i,
        {
            let ghost next = self@.take(i + 1);
            assert(next.drop_last() =~= self@.take(i as int));
            assert(next.last() == (self.counts@[i as int].0@, self.counts@[i as int].1 as nat));
            assert(i * 0xffff_ffff_ffff_ffff + 0xffff_ffff_ffff_ffff == (i + 1)
                * 0xffff_ffff_ffff_ffff);
            assert(i + 1 <= 0xffff_ffff_ffff_ffff);
            n = n + self.counts[i].1 as u128;
            i = i + 1;
        }
        assert(self@.take(i as int) =~= self@);
        n
    }

    /// Counts by name, as they are listed.
    fn breakdown(&self) -> (text: String)
        ensures
            text@ == breakdown_text(self@),
    {
        let mut text = String::new();
        let mut i: usize = 0;
        assert(self@.take(0) =~= Seq::empty());
        assert(text@ =~= breakdown_text(self@.take(0)));
        while i < self.counts.len()
            invariant
                i <= self.counts@.len(),
                text@ == breakdown_text(self@.take(i as int)),
            decreases self.counts@.len() - i,
        {
            let ghost next = self@.take(i + 1);
            let ghost before = text@;
            assert(next.drop_last() =~= self@.take(i as int));
            assert(next.last() == (self.counts@[i as int].0@, self.counts@[i as int].1 as nat));
            if i > 0 {
                text.append(", ");
            }
            text.append(self.counts[i].0.as_str());
            text.append("=");
            push_number(&mut text, self.counts[i].1 as u128, 10);
            assert(text@ =~= breakdown_text(next));
            i = i + 1;
        }
        assert(self@.take(i as int) =~= self@);
        text
    }
}

/// What is said about a replay from which nothing can be published.
pub open spec fn empty_map_text(
    artifact: ConsensusArtifact,
    claims: nat,
    report: Seq<char>,
) -> Seq<char> {
    let rejected = artifact.report().rejected_claims;
    "replay produced an empty consensus map at epoch "@ + decimal(artifact.epoch as nat)
        + " from "@ + decimal(claims) + " claims ("@ + decimal(artifact.accepted_claims as nat)
        + " accepted, "@ + decimal(rejected_total(rejected)) + " rejected: "@ + (if rejected.len()
        == 0 {
        "no claims were rejected, so no prefix reached the threshold"@
    } else {
        breakdown_text(rejected)
    }) + "); see "@ + report
        + " for the full ledger. Refusing to report success on an unpublishable map"@
}

/// What is said about a replay of `claims` claims with the report file `report`
/// where nothing can be published.
pub fn empty_map_message(artifact: &ConsensusArtifact, claims: usize, report: &str) -> (message:
    Option<String>)
    ensures
        match message {
            Some(m) => artifact.entries@.len() == 0 && m@ == empty_map_text(
                *artifact,
                claims as nat,
                report@,
            ),
            None => artifact.entries@.len() > 0,
        },
{
    if artifact.entries.len() > 0 {
        return None;
    }
    let mut text = "replay produced an empty consensus map at epoch ".to_owned();
    push_number(&mut text, artifact.epoch as u128, 10);
    text.append(" from ");
    push_number(&mut text, claims as u128, 10);
    text.append(" claims (");
    push_number(&mut text, artifact.accepted_claims as u128, 10);
    text.append(" accepted, ");
    push_number(&mut text, artifact.rejected_claims.total(), 10);
    text.append(" rejected: ");
    if artifact.rejected_claims.counts.len() == 0 {
        text.append("no claims were rejected, so no prefix reached the threshold");
    } else {
        text.append(artifact.rejected_claims.breakdown().as_str());
    }
    text.append("); see ");
    text.append(report);
    text.append(" for the full ledger. Refusing to report success on an unpublishable map");
    Some(text)
}

/// The lines of a file that hold something, without the white space around it,
/// each with its number.
pub open spec fn numbered_lines(pieces: Seq<Seq<char>>) -> Seq<(nat, Seq<char>)>
    decreases pieces.len(),
{
    if pieces.len() == 0 {
        Seq::empty()
    } else {
        let rest = numbered_lines(pieces.drop_last());
        let line = trim(pieces.last());
        if line.len() == 0 {
            rest
        } else {
            rest.push((pieces.len(), line))
        }
    }
}

/// The lines of a file of claims that hold something, each with its number.
pub fn claim_file_lines(contents: &str) -> (lines: Vec<(usize, String)>)
    ensures
        lines@.map_values(|l: (usize, String)| (l.0 as nat, l.1@)) == numbered_lines(
            split(contents@, '\n'),
        ),
{
    let pieces = split_text(contents, '\n');
    let ghost all = split(contents@, '\n');
    let mut lines: Vec<(usize, String)> = Vec::new();
    let mut i: usize = 0;
    assert(all.take(0) =~= Seq::empty());
    assert(lines@.map_values(|l: (usize, String)| (l.0 as nat, l.1@)) =~= Seq::empty());
    while i < pieces.len()
        invariant
            i <= pieces@.len() == all.len(),
            all == texts(pieces@),
            lines@.map_values(|l: (usize, String)| (l.0 as nat, l.1@)) == numbered_lines(
                all.take(i as int),
            ),
        decreases pieces@.len() - i,
    {
        let ghost next = all.take(i + 1);
        let ghost before = lines@.map_values(|l: (usize, String)| (l.0 as nat, l.1@));
        assert(next.drop_last() =~= all.take(i as int));
        assert(next.last() == pieces@[i as int]@);
        let chars = to_chars(pieces[i].as_str());
        let (start, end): (usize, usize) = trim_range(chars.as_slice());
        if start < end {
            let line = to_text(slice_subrange(chars.as_slice(), start, end));
            lines.push((i + 1, line));
            assert(lines@.map_values(|l: (usize, String)| (l.0 as nat, l.1@)) =~= before.push(
                ((i + 1) as nat, trim(next.last())),
            ));
        }
        i = i + 1;
    }
    assert(all.take(i as int) =~= all);
    lines
}

/// A report holds exactly if every prefix can be read, its map answers for every
/// address what its entries resolve to, and a map file beside it holds that map.
pub proof fn reports_hold_if_their_maps_agree(
    artifact: ConsensusArtifact,
    file_map: Option<TrieNode>,
)
    ensures
        verifies(artifact, file_map) <==> {
            &&& forall|i: int|
                0 <= i < artifact.report().entries.len() ==> consensus_prefix(
                    (#[trigger] artifact.report().entries[i]).1,
                ) is Some
            &&& artifact.map.wf()
            &&& forall|path: spec_fn(int) -> bool| #[trigger]
                artifact.map.asn_of(path) == resolve(report_bits(artifact.report().entries), 0, path)
            &&& file_map is None || file_map == Some(artifact.map@)
        },
{
}

/// What a reader is told.
pub proof fn what_readers_are_told(
    change: (Seq<bool>, u32, u32),
    left: Seq<char>,
    right: Seq<char>,
    changed: nat,
    epoch: u64,
)
    ensures
        VerifyError::ReportMap.text()
            == "report map does not match the published consensus entries"@,
        VerifyError::MapFile.text() == "binary/text map does not match the report artifact"@,
        change_text(change) == network_text(change.0) + " AS"@ + decimal(change.1 as nat)
            + " -> AS"@ + decimal(change.2 as nat),
        comparison_text(left, right, changed) == "[+] Compared "@ + left + " vs "@ + right + ": "@
            + decimal(changed) + " changed prefix(es)"@,
        ReplayError::NoClaims.text() == "replay input contains no claims"@,
        (ReplayError::EpochTooHigh { epoch, requested: true }).text() == "starting epoch "@
            + decimal(epoch as nat) + " is above the absolute ceiling "@ + decimal(4_102_444_800)
            + " ("@ + "from --epoch"@ + "); refusing to replay"@,
        (ReplayError::EpochTooHigh { epoch, requested: false }).text() == "starting epoch "@
            + decimal(epoch as nat) + " is above the absolute ceiling "@ + decimal(4_102_444_800)
            + " ("@ + "read from the first claim in the file"@ + "); refusing to replay"@,
{
}

/// A replay starts at the epoch that is asked for, or at that of the first claim,
/// unless there is no claim or the epoch lies beyond the year 2100.
pub proof fn replays_start_as_asked(requested: Option<u64>, claims: Seq<ClaimView>)
    ensures
        claims.len() == 0 ==> replay_start(requested, claims) == Err::<u64, ReplayError>(
            ReplayError::NoClaims,
        ),
        claims.len() > 0 && requested is Some && requested->0 <= 4_102_444_800 ==> replay_start(
            requested,
            claims,
        ) == Ok::<u64, ReplayError>(requested->0),
        claims.len() > 0 && requested is Some && requested->0 > 4_102_444_800 ==> replay_start(
            requested,
            claims,
        ) == Err::<u64, ReplayError>(
            ReplayError::EpochTooHigh { epoch: requested->0, requested: true },
        ),
        claims.len() > 0 && requested is None && claims[0].epoch <= 4_102_444_800 ==> replay_start(
            requested,
            claims,
        ) == Ok::<u64, ReplayError>(claims[0].epoch),
        claims.len() > 0 && requested is None && claims[0].epoch > 4_102_444_800 ==> replay_start(
            requested,
            claims,
        ) == Err::<u64, ReplayError>(
            ReplayError::EpochTooHigh { epoch: claims[0].epoch, requested: false },
        ),
{
}

/// Claims are replayed one after another, each from the peer that it names.
pub proof fn claims_are_replayed_in_order(
    e: EngineView,
    a: Seq<ClaimView>,
    b: Seq<ClaimView>,
    claim: ClaimView,
)
    ensures
        replayed(e, Seq::empty()) == e,
        replayed(e, seq![claim]) == e.claimed_by(claim, peer_id_text(claim.sender)).0,
        replayed(e, a + b) == replayed(replayed(e, a), b),
    decreases b.len(),
{
    let one = seq![claim];
    assert(one.drop_last() =~= Seq::empty());
    assert(replayed(e, one.drop_last()) == e);
    if b.len() == 0 {
        assert(a + b =~= a);
    } else {
        claims_are_replayed_in_order(e, a, b.drop_last(), claim);
        assert((a + b).drop_last() =~= a + b.drop_last());
        assert((a + b).last() == b.last());
    }
}

/// The counts of rejections add up, and are listed by name with commas between them.
pub proof fn rejections_are_listed_and_add_up(
    a: Seq<(Seq<char>, nat)>,
    b: Seq<(Seq<char>, nat)>,
    name: Seq<char>,
    count: nat,
)
    ensures
        rejected_total(Seq::empty()) == 0,
        rejected_total(seq![(name, count)]) == count,
        rejected_total(a + b) == rejected_total(a) + rejected_total(b),
        breakdown_text(Seq::empty()) == Seq::<char>::empty(),
        breakdown_text(seq![(name, count)]) == name + "="@ + decimal(count),
        a.len() > 0 && b.len() > 0 ==> breakdown_text(a + b) == breakdown_text(a) + ", "@
            + breakdown_text(b),
    decreases b.len(),
{
    let one = seq![(name, count)];
    assert(one.drop_last() =~= Seq::empty());
    assert(rejected_total(one.drop_last()) == 0);
    if b.len() == 0 {
        assert(a + b =~= a);
    } else {
        rejections_are_listed_and_add_up(a, b.drop_last(), name, count);
        assert((a + b).drop_last() =~= a + b.drop_last());
        assert((a + b).last() == b.last());
        if a.len() > 0 {
            if b.len() == 1 {
                assert((a + b).drop_last() =~= a);
            }
            assert(breakdown_text(a + b) =~= breakdown_text(a) + ", "@ + breakdown_text(b));
        }
    }
}

/// What is said where nothing can be published: the epoch, how many claims there
/// were, how many were accepted and how many not, and why not.
pub proof fn empty_maps_are_explained(artifact: ConsensusArtifact, claims: nat, report: Seq<char>)
    ensures
        ({
            let rejected = artifact.report().rejected_claims;
            let head = "replay produced an empty consensus map at epoch "@ + decimal(
                artifact.epoch as nat,
            ) + " from "@ + decimal(claims) + " claims ("@ + decimal(artifact.accepted_claims as nat)
                + " accepted, "@ + decimal(rejected_total(rejected)) + " rejected: "@;
            let tail = "); see "@ + report
                + " for the full ledger. Refusing to report success on an unpublishable map"@;
            &&& rejected.len() == 0 ==> empty_map_text(artifact, claims, report) == head
                + "no claims were rejected, so no prefix reached the threshold"@ + tail
            &&& rejected.len() > 0 ==> empty_map_text(artifact, claims, report) == head
                + breakdown_text(rejected) + tail
        }),
{
    let rejected = artifact.report().rejected_claims;
    let head = "replay produced an empty consensus map at epoch "@ + decimal(artifact.epoch as nat)
        + " from "@ + decimal(claims) + " claims ("@ + decimal(artifact.accepted_claims as nat)
        + " accepted, "@ + decimal(rejected_total(rejected)) + " rejected: "@;
    let tail = "); see "@ + report
        + " for the full ledger. Refusing to report success on an unpublishable map"@;
    if rejected.len() == 0 {
        assert(empty_map_text(artifact, claims, report) =~= head
            + "no claims were rejected, so no prefix reached the threshold"@ + tail);
    } else {
        assert(empty_map_text(artifact, claims, report) =~= head + breakdown_text(rejected) + tail);
    }
}

/// The lines of a file that hold something are numbered from one; a line with
/// nothing but white space is left out, and counts.
pub proof fn lines_keep_their_numbers(pieces: Seq<Seq<char>>, n: nat, line: Seq<char>)
    ensures
        numbered_lines(pieces).contains((n, line)) <==> 1 <= n <= pieces.len() && line == trim(
            pieces[n - 1],
        ) && line.len() > 0,
        forall|i: int, j: int|
            0 <= i < j < numbered_lines(pieces).len() ==> (#[trigger] numbered_lines(pieces)[i]).0
                < (#[trigger] numbered_lines(pieces)[j]).0,
        forall|i: int|
            0 <= i < numbered_lines(pieces).len() ==> (#[trigger] numbered_lines(pieces)[i]).0
                <= pieces.len(),
    decreases pieces.len(),
{
    if pieces.len() > 0 {
        let rest = numbered_lines(pieces.drop_last());
        let all = numbered_lines(pieces);
        let last = trim(pieces.last());
        lines_keep_their_numbers(pieces.drop_last(), n, line);
        if last.len() > 0 {
            assert(all =~= rest.push((pieces.len(), last)));
            assert(all[rest.len() as int] == (pieces.len(), last));
        }
        if rest.contains((n, line)) {
            let i = choose|i: int| 0 <= i < rest.len() && rest[i] == (n, line);
            assert(all[i] == (n, line));
        }
        if all.contains((n, line)) {
            let i = choose|i: int| 0 <= i < all.len() && all[i] == (n, line);
            if i < rest.len() {
                assert(rest[i] == (n, line));
                assert(rest.contains((n, line)));
            }
        }
        if n <= pieces.len() - 1 && n >= 1 {
            assert(pieces.drop_last()[n - 1] == pieces[n - 1]);
        }
    }
}

/// Changes can be listed exactly if no prefix has a one behind the last address bit,
/// and claims are replayed with all that they say.
pub proof fn changes_and_claims_are_taken_as_they_stand(
    diffs: Seq<(Seq<bool>, u32, u32)>,
    claims: Seq<AsmapClaim>,
    i: int,
)
    ensures
        changes_fit(diffs) <==> forall|i: int, j: int|
            0 <= i < diffs.len() && 128 <= j < diffs[i].0.len() ==> !#[trigger] diffs[i].0[j],
        claims_view(claims).len() == claims.len(),
        0 <= i < claims.len() ==> {
            let view = claims_view(claims)[i];
            &&& view.epoch == claims[i].epoch
            &&& view.sender == claims[i].sender_id@
            &&& view.hash == claims[i].claim_hash@
            &&& view.entries == keys(claims[i].entries@)
        },
{
}

} // verus!
