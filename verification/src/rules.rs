//! The rules that claims are held to.

use crate::addr::IpAddr;
use crate::claim::{entry_le, AsmapClaim, AsmapEntry};
use crate::net::pow2_u128;
use crate::prefix::{canonical_consensus_prefix, consensus_prefix};
use crate::sort::{keys, lemma_ascending, order, sorted, Ordered};
use crate::text::{lemma_text_le_total, lemma_text_le_trans, same_text, text_le, to_chars};
use vstd::arithmetic::div_mod::lemma_div_denominator;
use vstd::arithmetic::power2::{lemma2_to64, lemma_pow2_adds, lemma_pow2_pos, pow2};
use vstd::prelude::*;
use vstd::relations::sorted_by;
use vstd::utf8::{encode_utf8, is_ascii_chars_encode_utf8};

verus! {

/// The largest gossip payload, in bytes.
pub const MAX_CLAIM_BYTES: usize = 65_536;

/// The largest number of entries in a claim.
pub const MAX_CLAIM_ENTRIES: usize = 2_097_152;

/// The smallest number of entries in a claim. A claim without entries says
/// nothing but would count toward the threshold.
pub const MIN_CLAIM_ENTRIES: usize = 1;

/// The longest sender id, in bytes.
pub const MAX_SENDER_ID_LEN: usize = 64;

/// The length of a claim's hash.
pub const CLAIM_HASH_LEN: usize = 64;

/// The longest prefix text, in bytes.
pub const MAX_PREFIX_LEN: usize = 49;

/// The first address of the IPv4-mapped range.
pub const IPV4_MAPPED_RANGE: u128 = 0x0000_0000_0000_0000_0000_ffff_0000_0000;

/// The prefix length of the IPv4-mapped range.
pub const IPV4_MAPPED_PREFIX_BITS: u8 = 96;

/// The smallest number that the binary format can hold.
pub const ASN_MIN: u32 = 1;

/// The largest number that the binary format can hold.
pub const ASN_MAX: u32 = 33_521_664;

/// The ceiling on any epoch: the year 2100 in Unix seconds.
pub const EPOCH_ABSOLUTE_MAX: u64 = 4_102_444_800;

/// How far ahead a claim may take the epoch: a day in seconds.
pub const MAX_EPOCH_SKEW: u64 = 86_400;

/// The default cap on senders in one epoch.
pub const MAX_SENDERS: usize = 1_024;

/// The default cap on rejections that are kept on record in one epoch.
pub const MAX_REJECTION_OBSERVATIONS: usize = 1_024;

/// Why a claim was rejected, in the order of their names.
#[derive(Debug, Clone, Copy, PartialEq, Eq, Structural)]
pub enum Reason {
    /// A number is larger than the binary format can hold.
    AsnOutOfRange,
    /// The hash is not that of the claim.
    ClaimHashMismatch,
    /// One prefix is given two numbers.
    ConflictingEntry,
    /// A prefix covers a whole address family.
    DefaultRoutePrefix,
    /// The sender has claimed in this epoch already.
    DuplicateSender,
    /// There are too few entries.
    EmptyClaim,
    /// The epoch lies too far ahead.
    EpochJumpTooLarge,
    /// The epoch is above the ceiling.
    EpochOutOfRange,
    /// A prefix does not parse.
    InvalidPrefix,
    /// The sender's id is too long.
    InvalidSenderId,
    /// An IPv6 prefix touches the IPv4-mapped range.
    Ipv4MappedPrefix,
    /// The payload is not a claim.
    MalformedClaim,
    /// The hash is not 64 lower-case hexadecimal digits.
    MalformedClaimHash,
    /// The payload is too large.
    OversizeClaim,
    /// There are too many senders in this epoch.
    SenderLimitExceeded,
    /// The sender is not the peer that the claim came from.
    SourceMismatch,
    /// The epoch is over.
    StaleEpoch,
    /// There are too many entries.
    TooManyEntries,
    /// A number stands for unassigned space.
    UnassignedAsn,
    /// The sender's id is not a peer id.
    UnparsableSender,
}

/// The number of reasons.
pub const REASONS: usize = 20;

impl Reason {
    /// The position of the reason among all of them.
    pub open spec fn position(self) -> int {
        match self {
            Reason::AsnOutOfRange => 0,
            Reason::ClaimHashMismatch => 1,
            Reason::ConflictingEntry => 2,
            Reason::DefaultRoutePrefix => 3,
            Reason::DuplicateSender => 4,
            Reason::EmptyClaim => 5,
            Reason::EpochJumpTooLarge => 6,
            Reason::EpochOutOfRange => 7,
            Reason::InvalidPrefix => 8,
            Reason::InvalidSenderId => 9,
            Reason::Ipv4MappedPrefix => 10,
            Reason::MalformedClaim => 11,
            Reason::MalformedClaimHash => 12,
            Reason::OversizeClaim => 13,
            Reason::SenderLimitExceeded => 14,
            Reason::SourceMismatch => 15,
            Reason::StaleEpoch => 16,
            Reason::TooManyEntries => 17,
            Reason::UnassignedAsn => 18,
            Reason::UnparsableSender => 19,
        }
    }

    /// The name under which the reason is reported.
    pub open spec fn text(self) -> Seq<char> {
        match self {
            Reason::AsnOutOfRange => "asn_out_of_range"@,
            Reason::ClaimHashMismatch => "claim_hash_mismatch"@,
            Reason::ConflictingEntry => "conflicting_entry"@,
            Reason::DefaultRoutePrefix => "default_route_prefix"@,
            Reason::DuplicateSender => "duplicate_sender"@,
            Reason::EmptyClaim => "empty_claim"@,
            Reason::EpochJumpTooLarge => "epoch_jump_too_large"@,
            Reason::EpochOutOfRange => "epoch_out_of_range"@,
            Reason::InvalidPrefix => "invalid_prefix"@,
            Reason::InvalidSenderId => "invalid_sender_id"@,
            Reason::Ipv4MappedPrefix => "ipv4_mapped_prefix"@,
            Reason::MalformedClaim => "malformed_claim"@,
            Reason::MalformedClaimHash => "malformed_claim_hash"@,
            Reason::OversizeClaim => "oversize_claim"@,
            Reason::SenderLimitExceeded => "sender_limit_exceeded"@,
            Reason::SourceMismatch => "source_mismatch"@,
            Reason::StaleEpoch => "stale_epoch"@,
            Reason::TooManyEntries => "too_many_entries"@,
            Reason::UnassignedAsn => "unassigned_asn"@,
            Reason::UnparsableSender => "unparsable_sender"@,
        }
    }

    /// The position of the reason among all of them.
    pub fn index(self) -> (i: usize)
        ensures
            i == self.position(),
            i < REASONS,
    {
        match self {
            Reason::AsnOutOfRange => 0,
            Reason::ClaimHashMismatch => 1,
            Reason::ConflictingEntry => 2,
            Reason::DefaultRoutePrefix => 3,
            Reason::DuplicateSender => 4,
            Reason::EmptyClaim => 5,
            Reason::EpochJumpTooLarge => 6,
            Reason::EpochOutOfRange => 7,
            Reason::InvalidPrefix => 8,
            Reason::InvalidSenderId => 9,
            Reason::Ipv4MappedPrefix => 10,
            Reason::MalformedClaim => 11,
            Reason::MalformedClaimHash => 12,
            Reason::OversizeClaim => 13,
            Reason::SenderLimitExceeded => 14,
            Reason::SourceMismatch => 15,
            Reason::StaleEpoch => 16,
            Reason::TooManyEntries => 17,
            Reason::UnassignedAsn => 18,
            Reason::UnparsableSender => 19,
        }
    }

    /// The reason at a position.
    pub fn at(i: usize) -> (reason: Reason)
        requires
            i < REASONS,
        ensures
            reason.position() == i,
    {
        if i == 0 {
            Reason::AsnOutOfRange
        } else if i == 1 {
            Reason::ClaimHashMismatch
        } else if i == 2 {
            Reason::ConflictingEntry
        } else if i == 3 {
            Reason::DefaultRoutePrefix
        } else if i == 4 {
            Reason::DuplicateSender
        } else if i == 5 {
            Reason::EmptyClaim
        } else if i == 6 {
            Reason::EpochJumpTooLarge
        } else if i == 7 {
            Reason::EpochOutOfRange
        } else if i == 8 {
            Reason::InvalidPrefix
        } else if i == 9 {
            Reason::InvalidSenderId
        } else if i == 10 {
            Reason::Ipv4MappedPrefix
        } else if i == 11 {
            Reason::MalformedClaim
        } else if i == 12 {
            Reason::MalformedClaimHash
        } else if i == 13 {
            Reason::OversizeClaim
        } else if i == 14 {
            Reason::SenderLimitExceeded
        } else if i == 15 {
            Reason::SourceMismatch
        } else if i == 16 {
            Reason::StaleEpoch
        } else if i == 17 {
            Reason::TooManyEntries
        } else if i == 18 {
            Reason::UnassignedAsn
        } else {
            Reason::UnparsableSender
        }
    }

    /// The name under which the reason is reported.
    pub fn name(self) -> (name: &'static str)
        ensures
            name@ == self.text(),
    {
        match self {
            Reason::AsnOutOfRange => "asn_out_of_range",
            Reason::ClaimHashMismatch => "claim_hash_mismatch",
            Reason::ConflictingEntry => "conflicting_entry",
            Reason::DefaultRoutePrefix => "default_route_prefix",
            Reason::DuplicateSender => "duplicate_sender",
            Reason::EmptyClaim => "empty_claim",
            Reason::EpochJumpTooLarge => "epoch_jump_too_large",
            Reason::EpochOutOfRange => "epoch_out_of_range",
            Reason::InvalidPrefix => "invalid_prefix",
            Reason::InvalidSenderId => "invalid_sender_id",
            Reason::Ipv4MappedPrefix => "ipv4_mapped_prefix",
            Reason::MalformedClaim => "malformed_claim",
            Reason::MalformedClaimHash => "malformed_claim_hash",
            Reason::OversizeClaim => "oversize_claim",
            Reason::SenderLimitExceeded => "sender_limit_exceeded",
            Reason::SourceMismatch => "source_mismatch",
            Reason::StaleEpoch => "stale_epoch",
            Reason::TooManyEntries => "too_many_entries",
            Reason::UnassignedAsn => "unassigned_asn",
            Reason::UnparsableSender => "unparsable_sender",
        }
    }
}

/// The bounds that claims are held to.
#[derive(Debug, Clone, Copy, PartialEq, Eq, Structural)]
pub struct ClaimLimits {
    /// The largest number of entries.
    pub max_entries: usize,
    /// The smallest number of entries.
    pub min_entries: usize,
    /// The longest sender id, in bytes.
    pub max_sender_id_len: usize,
    /// The largest number of senders in one epoch.
    pub max_senders: usize,
    /// The largest number of rejections kept on record in one epoch.
    pub max_rejection_observations: usize,
    /// The ceiling on the epoch of a claim.
    pub max_epoch: u64,
    /// How far ahead one claim may take the epoch.
    pub max_epoch_skew: u64,
}

/// The limits that do not depend on a clock.
pub open spec fn default_limits() -> ClaimLimits {
    ClaimLimits {
        max_entries: MAX_CLAIM_ENTRIES,
        min_entries: MIN_CLAIM_ENTRIES,
        max_sender_id_len: MAX_SENDER_ID_LEN,
        max_senders: MAX_SENDERS,
        max_rejection_observations: MAX_REJECTION_OBSERVATIONS,
        max_epoch: EPOCH_ABSOLUTE_MAX,
        max_epoch_skew: MAX_EPOCH_SKEW,
    }
}

/// The sum of two times, held within the representable ones.
pub open spec fn later(time: u64, span: u64) -> u64 {
    if time + span > u64::MAX {
        u64::MAX
    } else {
        (time + span) as u64
    }
}

/// The smaller of two times.
pub open spec fn earlier_of(a: u64, b: u64) -> u64 {
    if a < b {
        a
    } else {
        b
    }
}

/// The larger of two times.
pub open spec fn later_of(a: u64, b: u64) -> u64 {
    if a < b {
        b
    } else {
        a
    }
}

impl Default for ClaimLimits {
    fn default() -> (limits: Self)
        ensures
            limits == default_limits(),
    {
        ClaimLimits {
            max_entries: MAX_CLAIM_ENTRIES,
            min_entries: MIN_CLAIM_ENTRIES,
            max_sender_id_len: MAX_SENDER_ID_LEN,
            max_senders: MAX_SENDERS,
            max_rejection_observations: MAX_REJECTION_OBSERVATIONS,
            max_epoch: EPOCH_ABSOLUTE_MAX,
            max_epoch_skew: MAX_EPOCH_SKEW,
        }
    }
}

impl ClaimLimits {
    /// Limits whose epoch ceiling lies one skew after `now_unix`, but never above
    /// the absolute one.
    pub fn at_unix_time(now_unix: u64) -> (limits: Self)
        ensures
            limits == (ClaimLimits {
                max_epoch: earlier_of(later(now_unix, MAX_EPOCH_SKEW), EPOCH_ABSOLUTE_MAX),
                ..default_limits()
            }),
    {
        let later: u64 = now_unix.saturating_add(MAX_EPOCH_SKEW);
        let max_epoch: u64 = if later < EPOCH_ABSOLUTE_MAX {
            later
        } else {
            EPOCH_ABSOLUTE_MAX
        };
        let defaults: ClaimLimits = ClaimLimits::default();
        ClaimLimits { max_epoch, ..defaults }
    }
}

/// A claim, its texts taken as sequences.
pub struct ClaimView {
    pub epoch: u64,
    pub sender: Seq<char>,
    pub hash: Seq<char>,
    pub entries: Seq<(Seq<char>, u32)>,
}

impl View for AsmapClaim {
    type V = ClaimView;

    open spec fn view(&self) -> ClaimView {
        ClaimView {
            epoch: self.epoch,
            sender: self.sender_id@,
            hash: self.claim_hash@,
            entries: keys(self.entries@),
        }
    }
}

/// The length of a text in bytes.
pub open spec fn byte_len(s: Seq<char>) -> nat {
    encode_utf8(s).len()
}

/// The length of a text in bytes.
pub(crate) fn text_bytes(s: &str) -> (n: usize)
    ensures
        n == byte_len(s@),
{
    s.as_bytes().len()
}

/// A decimal digit or a letter from `a` to `f`.
pub open spec fn is_lower_hex(c: char) -> bool {
    ('0' <= c && c <= '9') || ('a' <= c && c <= 'f')
}

/// 64 lower-case hexadecimal digits.
pub open spec fn is_hash_text(s: Seq<char>) -> bool {
    &&& byte_len(s) == CLAIM_HASH_LEN
    &&& forall|i: int| 0 <= i < s.len() ==> is_lower_hex(#[trigger] s[i])
}

/// What is wrong with a claim on its face.
pub open spec fn shape_fault(limits: ClaimLimits, claim: ClaimView) -> Option<Reason> {
    if byte_len(claim.sender) > limits.max_sender_id_len {
        Some(Reason::InvalidSenderId)
    } else if !is_hash_text(claim.hash) {
        Some(Reason::MalformedClaimHash)
    } else if claim.entries.len() < limits.min_entries {
        Some(Reason::EmptyClaim)
    } else if claim.entries.len() > limits.max_entries {
        Some(Reason::TooManyEntries)
    } else if claim.epoch > limits.max_epoch {
        Some(Reason::EpochOutOfRange)
    } else {
        None
    }
}

/// Whether an IPv6 prefix shares an address with the IPv4-mapped range.
pub open spec fn touches_mapped(v: u128, len: nat) -> bool {
    let common = if len < IPV4_MAPPED_PREFIX_BITS {
        len
    } else {
        IPV4_MAPPED_PREFIX_BITS as nat
    };
    let block = pow2((128 - common) as nat);
    v as nat / block == IPV4_MAPPED_RANGE as nat / block
}

/// What is wrong with one entry of a claim.
pub open spec fn entry_fault(entry: (Seq<char>, u32)) -> Option<Reason> {
    if entry.1 == 0 {
        Some(Reason::UnassignedAsn)
    } else if entry.1 > ASN_MAX {
        Some(Reason::AsnOutOfRange)
    } else if byte_len(entry.0) > MAX_PREFIX_LEN {
        Some(Reason::InvalidPrefix)
    } else {
        match consensus_prefix(entry.0) {
            None => Some(Reason::InvalidPrefix),
            Some(prefix) => if prefix.mask == 0 {
                Some(Reason::DefaultRoutePrefix)
            } else {
                match prefix.ip {
                    IpAddr::V4(_) => None,
                    IpAddr::V6(v) => if touches_mapped(v, prefix.mask as nat) {
                        Some(Reason::Ipv4MappedPrefix)
                    } else {
                        None
                    },
                }
            },
        }
    }
}

/// What an entry is a vote for: the prefix in canonical form, and the number.
pub open spec fn vote_key(entry: (Seq<char>, u32)) -> (Seq<char>, u32) {
    (consensus_prefix(entry.0)->0.text(), entry.1)
}

/// Two of the first `n` entries give one prefix two numbers.
pub open spec fn conflict_among(entries: Seq<(Seq<char>, u32)>, n: int) -> bool {
    exists|i: int, j: int|
        0 <= i < j < n && (#[trigger] vote_key(entries[i])).0 == (#[trigger] vote_key(
            entries[j],
        )).0 && entries[i].1 != entries[j].1
}

/// What is wrong with the first of the first `n` entries with which something is.
pub open spec fn entries_fault(entries: Seq<(Seq<char>, u32)>, n: int) -> Option<Reason>
    decreases n,
{
    if n <= 0 {
        None
    } else {
        match entries_fault(entries, n - 1) {
            Some(reason) => Some(reason),
            None => match entry_fault(entries[n - 1]) {
                Some(reason) => Some(reason),
                None => if conflict_among(entries, n) {
                    Some(Reason::ConflictingEntry)
                } else {
                    None
                },
            },
        }
    }
}

/// What the entries of a claim are votes for.
pub open spec fn vote_keys(entries: Seq<(Seq<char>, u32)>) -> Set<(Seq<char>, u32)> {
    Set::new(
        |k: (Seq<char>, u32)|
            exists|i: int| 0 <= i < entries.len() && vote_key(#[trigger] entries[i]) == k,
    )
}

/// What the first `n` entries are votes for, each once, where it first occurs.
pub open spec fn first_votes(entries: Seq<(Seq<char>, u32)>, n: int) -> Seq<(Seq<char>, u32)>
    decreases n,
{
    if n <= 0 {
        Seq::empty()
    } else {
        let before = first_votes(entries, n - 1);
        let key = vote_key(entries[n - 1]);
        if before.contains(key) {
            before
        } else {
            before.push(key)
        }
    }
}

/// The first votes are the votes, each once.
pub proof fn lemma_first_votes(entries: Seq<(Seq<char>, u32)>, n: int)
    requires
        0 <= n <= entries.len(),
    ensures
        first_votes(entries, n).no_duplicates(),
        forall|k: (Seq<char>, u32)| #[trigger]
            first_votes(entries, n).contains(k) == exists|i: int|
                0 <= i < n && vote_key(#[trigger] entries[i]) == k,
        n == entries.len() ==> first_votes(entries, n).to_set() == vote_keys(entries),
    decreases n,
{
    let list = first_votes(entries, n);
    if n > 0 {
        lemma_first_votes(entries, n - 1);
        let before = first_votes(entries, n - 1);
        let key = vote_key(entries[n - 1]);
        assert forall|k: (Seq<char>, u32)| #[trigger]
            list.contains(k) == exists|i: int|
                0 <= i < n && vote_key(#[trigger] entries[i]) == k by {
            lemma_push_set(before, key);
            assert(before.push(key).contains(k) == before.push(key).to_set().contains(k));
            assert(before.contains(k) == before.to_set().contains(k));
            if before.contains(k) {
                let i = choose|i: int| 0 <= i < n - 1 && vote_key(#[trigger] entries[i]) == k;
                assert(vote_key(entries[i]) == k);
            }
            if k == key {
                assert(vote_key(entries[n - 1]) == k);
            }
        }
    }
    if n == entries.len() {
        assert(list.to_set() =~= vote_keys(entries));
    }
}

/// Whether a text is a claim's hash in form.
fn check_hash_text(text: &str) -> (ok: bool)
    ensures
        ok == is_hash_text(text@),
{
    if text_bytes(text) != CLAIM_HASH_LEN {
        return false;
    }
    let chars = to_chars(text);
    let mut i: usize = 0;
    while i < chars.len()
        invariant
            i <= chars@.len(),
            chars@ == text@,
            forall|j: int| 0 <= j < i ==> is_lower_hex(#[trigger] chars@[j]),
        decreases chars@.len() - i,
    {
        let c: char = chars[i];
        if !(('0' <= c && c <= '9') || ('a' <= c && c <= 'f')) {
            assert(!is_lower_hex(text@[i as int]));
            return false;
        }
        i = i + 1;
    }
    true
}

/// What is wrong with a claim on its face. This looks at nothing but the claim.
pub fn shape_violation(limits: &ClaimLimits, claim: &AsmapClaim) -> (fault: Option<Reason>)
    ensures
        fault == shape_fault(*limits, claim@),
{
    if text_bytes(claim.sender_id.as_str()) > limits.max_sender_id_len {
        Some(Reason::InvalidSenderId)
    } else if !check_hash_text(claim.claim_hash.as_str()) {
        Some(Reason::MalformedClaimHash)
    } else if claim.entries.len() < limits.min_entries {
        Some(Reason::EmptyClaim)
    } else if claim.entries.len() > limits.max_entries {
        Some(Reason::TooManyEntries)
    } else if claim.epoch > limits.max_epoch {
        Some(Reason::EpochOutOfRange)
    } else {
        None
    }
}

/// Whether an IPv6 prefix shares an address with the IPv4-mapped range.
fn check_mapped(v: u128, len: u8) -> (touches: bool)
    requires
        1 <= len,
    ensures
        touches == touches_mapped(v, len as nat),
{
    let common: u8 = if len < IPV4_MAPPED_PREFIX_BITS {
        len
    } else {
        IPV4_MAPPED_PREFIX_BITS
    };
    let block: u128 = pow2_u128(128 - common as u32);
    v / block == IPV4_MAPPED_RANGE / block
}

/// Checks one entry: what it is a vote for, or what is wrong with it.
fn check_entry(entry: &AsmapEntry) -> (checked: Result<AsmapEntry, Reason>)
    ensures
        match checked {
            Ok(key) => entry_fault(entry.key()) is None && key.key() == vote_key(entry.key()),
            Err(reason) => entry_fault(entry.key()) == Some(reason),
        },
{
    if entry.asn == 0 {
        return Err(Reason::UnassignedAsn);
    }
    if entry.asn < ASN_MIN || entry.asn > ASN_MAX {
        return Err(Reason::AsnOutOfRange);
    }
    if text_bytes(entry.ip_prefix.as_str()) > MAX_PREFIX_LEN {
        return Err(Reason::InvalidPrefix);
    }
    let (text, ip, mask) = match canonical_consensus_prefix(entry.ip_prefix.as_str()) {
        Err(_) => {
            return Err(Reason::InvalidPrefix);
        },
        Ok(prefix) => prefix,
    };
    if mask == 0 {
        return Err(Reason::DefaultRoutePrefix);
    }
    if let IpAddr::V6(v) = ip {
        if check_mapped(v, mask) {
            return Err(Reason::Ipv4MappedPrefix);
        }
    }
    Ok(AsmapEntry { ip_prefix: text, asn: entry.asn })
}

/// Up to the first entry that is bad in itself, only a conflict can be wrong.
proof fn lemma_faults_before(entries: Seq<(Seq<char>, u32)>, n: int)
    requires
        0 <= n <= entries.len(),
        forall|i: int| 0 <= i < n ==> entry_fault(#[trigger] entries[i]) is None,
    ensures
        entries_fault(entries, n) == if conflict_among(entries, n) {
            Some(Reason::ConflictingEntry)
        } else {
            None
        },
    decreases n,
{
    if n > 0 {
        lemma_faults_before(entries, n - 1);
        assert(entry_fault(entries[n - 1]) is None);
        if conflict_among(entries, n - 1) {
            let (i, j) = choose|i: int, j: int|
                0 <= i < j < n - 1 && (#[trigger] vote_key(entries[i])).0 == (#[trigger] vote_key(
                    entries[j],
                )).0 && entries[i].1 != entries[j].1;
            assert(vote_key(entries[i]).0 == vote_key(entries[j]).0);
            assert(conflict_among(entries, n));
        }
    }
}

/// A fault among the first entries is the fault of all of them.
proof fn lemma_fault_stays(entries: Seq<(Seq<char>, u32)>, n: int, m: int)
    requires
        0 <= n <= m,
        entries_fault(entries, n) is Some,
    ensures
        entries_fault(entries, m) == entries_fault(entries, n),
    decreases m - n,
{
    if n < m {
        lemma_fault_stays(entries, n, m - 1);
    }
}

/// Distinct keys in order.
pub open spec fn strictly_ascending(list: Seq<(Seq<char>, u32)>) -> bool {
    forall|i: int, j: int|
        0 <= i < j < list.len() ==> entry_le(#[trigger] list[i], #[trigger] list[j]) && list[i]
            != list[j]
}

/// One prefix has two numbers.
spec fn list_conflict(list: Seq<(Seq<char>, u32)>) -> bool {
    exists|i: int, j: int|
        0 <= i < j < list.len() && (#[trigger] list[i]).0 == (#[trigger] list[j]).0 && list[i].1
            != list[j].1
}

/// Takes repetitions out of keys in order; `None` where one prefix has two
/// numbers.
fn dedup_keys(ordered: &Vec<AsmapEntry>) -> (kept: Option<Vec<AsmapEntry>>)
    requires
        sorted_by(keys(ordered@), order::<AsmapEntry>()),
    ensures
        match kept {
            Some(list) => {
                &&& strictly_ascending(keys(list@))
                &&& keys(list@).to_set() =~= keys(ordered@).to_set()
                &&& !list_conflict(keys(ordered@))
            },
            None => list_conflict(keys(ordered@)),
        },
{
    let ghost all = keys(ordered@);
    let mut kept: Vec<AsmapEntry> = Vec::new();
    let mut i: usize = 0;
    assert(all.take(0).to_set() =~= keys(kept@).to_set());
    while i < ordered.len()
        invariant
            all == keys(ordered@),
            sorted_by(all, order::<AsmapEntry>()),
            i <= ordered@.len(),
            strictly_ascending(keys(kept@)),
            keys(kept@).to_set() =~= all.take(i as int).to_set(),
            i > 0 ==> kept@.len() > 0 && keys(kept@).last() == all[i - 1],
            i == 0 ==> kept@.len() == 0,
            forall|x: int, y: int|
                0 <= x < y < i && (#[trigger] all[x]).0 == (#[trigger] all[y]).0 ==> all[x].1
                    == all[y].1,
        decreases ordered@.len() - i,
    {
        let entry = &ordered[i];
        let ghost before = keys(kept@);
        let mut repeat: bool = false;
        if kept.len() > 0 {
            let last = &kept[kept.len() - 1];
            assert(before.last() == last.key());
            if same_text(last.ip_prefix.as_str(), entry.ip_prefix.as_str()) {
                if last.asn != entry.asn {
                    assert(all[i - 1].0 == all[i as int].0);
                    return None;
                }
                repeat = true;
            }
        }
        proof {
            assert(all[i as int] == entry.key());
            assert forall|x: int| 0 <= x < i && (#[trigger] all[x]).0 == all[i as int].0 implies
                all[x].1 == all[i as int].1 by {
                let leq = order::<AsmapEntry>();
                if x < i - 1 {
                    assert(leq(all[x], all[i - 1]));
                }
                assert(leq(all[i - 1], all[i as int]));
                AsmapEntry::lemma_total(all[x], all[i - 1], all[i as int]);
                crate::text::lemma_text_le_total(all[x].0, all[i - 1].0);
                assert(all[i - 1].0 == all[i as int].0);
            }
            assert(all.take(i + 1) =~= all.take(i as int).push(all[i as int]));
        }
        if !repeat {
            kept.push(entry.copy());
            proof {
                assert(keys(kept@) =~= before.push(entry.key()));
                assert forall|x: int, y: int| 0 <= x < y < keys(kept@).len() implies entry_le(
                    #[trigger] keys(kept@)[x],
                    #[trigger] keys(kept@)[y],
                ) && keys(kept@)[x] != keys(kept@)[y] by {
                    if y == before.len() {
                        let leq = order::<AsmapEntry>();
                        assert(leq(all[i - 1], all[i as int]));
                        AsmapEntry::lemma_total(before[x], all[i - 1], all[i as int]);
                        if x < before.len() - 1 {
                            assert(entry_le(before[x], before.last()));
                        }
                        if before[x] == all[i as int] {
                            AsmapEntry::lemma_total(before[x], all[i - 1], before[x]);
                            assert(all[i - 1] == all[i as int]);
                        }
                    } else {
                        assert(entry_le(before[x], before[y]));
                    }
                }
                lemma_push_set(before, entry.key());
                lemma_push_set(all.take(i as int), all[i as int]);
            }
        } else {
            proof {
                lemma_push_set(all.take(i as int), all[i as int]);
                assert(before.last() == all[i as int]);
                assert(before.contains(all[i as int]));
            }
        }
        i = i + 1;
    }
    assert(all.take(i as int) =~= all);
    Some(kept)
}

proof fn lemma_push_set<A>(s: Seq<A>, a: A)
    ensures
        s.push(a).to_set() =~= s.to_set().insert(a),
{
    assert forall|x: A| #[trigger] s.push(a).to_set().contains(x) == s.to_set().insert(a).contains(
        x,
    ) by {
        if s.contains(x) {
            let i = choose|i: int| 0 <= i < s.len() && s[i] == x;
            assert(s.push(a)[i] == x);
        }
        if x == a {
            assert(s.push(a)[s.len() as int] == x);
        }
        if s.push(a).contains(x) && x != a {
            let i = choose|i: int| 0 <= i < s.push(a).len() && s.push(a)[i] == x;
            assert(s[i] == x);
        }
    }
}

/// Where a key stands among keys in order.
fn find_key(list: &Vec<AsmapEntry>, key: &AsmapEntry) -> (at: usize)
    requires
        strictly_ascending(keys(list@)),
        keys(list@).contains(key.key()),
    ensures
        at < list@.len(),
        keys(list@)[at as int] == key.key(),
{
    let ghost all = keys(list@);
    let ghost k = key.key();
    let ghost w = choose|w: int| 0 <= w < all.len() && all[w] == k;
    let mut lo: usize = 0;
    let mut hi: usize = list.len();
    while hi - lo > 1
        invariant
            all == keys(list@),
            strictly_ascending(all),
            k == key.key(),
            0 <= lo <= w < hi <= list@.len(),
            all[w] == k,
        decreases hi - lo,
    {
        let mid: usize = lo + (hi - lo) / 2;
        assert(all[mid as int] == list@[mid as int].key());
        proof {
            AsmapEntry::lemma_total(all[mid as int], k, k);
            if w < mid {
                assert(entry_le(all[w], all[mid as int]) && all[w] != all[mid as int]);
            } else if mid < w {
                assert(entry_le(all[mid as int], all[w]));
            }
        }
        if list[mid].le(key) {
            lo = mid;
        } else {
            hi = mid;
        }
    }
    lo
}

/// Picks out of votes each one where it first occurs. `distinct` holds them in
/// order, each once.
fn keep_first(
    votes: Vec<AsmapEntry>,
    distinct: &Vec<AsmapEntry>,
    Ghost(entries): Ghost<Seq<(Seq<char>, u32)>>,
) -> (kept: Vec<AsmapEntry>)
    requires
        strictly_ascending(keys(distinct@)),
        votes@.len() == entries.len(),
        forall|j: int|
            0 <= j < votes@.len() ==> (#[trigger] keys(votes@)[j]) == vote_key(entries[j]),
        forall|j: int|
            0 <= j < votes@.len() ==> keys(distinct@).contains(#[trigger] keys(votes@)[j]),
    ensures
        keys(kept@) == first_votes(entries, entries.len() as int),
{
    let ghost found = keys(votes@);
    let ghost all = keys(distinct@);
    let mut seen: Vec<bool> = Vec::new();
    while seen.len() < distinct.len()
        invariant
            seen@.len() <= distinct@.len(),
            forall|d: int| 0 <= d < seen@.len() ==> !#[trigger] seen@[d],
        decreases distinct@.len() - seen@.len(),
    {
        seen.push(false);
    }
    let mut kept: Vec<AsmapEntry> = Vec::new();
    let mut i: usize = 0;
    assert(keys(kept@) =~= Seq::empty());
    while i < votes.len()
        invariant
            i <= votes@.len() == entries.len(),
            found == keys(votes@),
            all == keys(distinct@),
            strictly_ascending(all),
            seen@.len() == all.len(),
            forall|j: int| 0 <= j < found.len() ==> (#[trigger] found[j]) == vote_key(entries[j]),
            forall|j: int| 0 <= j < found.len() ==> all.contains(#[trigger] found[j]),
            keys(kept@) == first_votes(entries, i as int),
            forall|d: int|
                0 <= d < all.len() ==> (#[trigger] seen@[d]) == keys(kept@).contains(all[d]),
        decreases votes@.len() - i,
    {
        let ghost before = keys(kept@);
        let ghost key = found[i as int];
        assert(key == votes@[i as int].key());
        let at: usize = find_key(distinct, &votes[i]);
        assert(seen@[at as int] == before.contains(all[at as int]));
        if !seen[at] {
            kept.push(votes[i].copy());
            seen.set(at, true);
            assert(keys(kept@) =~= before.push(key));
            proof {
                lemma_push_set(before, key);
                assert forall|d: int| 0 <= d < all.len() implies (#[trigger] seen@[d]) == keys(
                    kept@,
                ).contains(all[d]) by {
                    assert(before.push(key).contains(all[d]) == before.push(key).to_set().contains(
                        all[d],
                    ));
                    assert(before.contains(all[d]) == before.to_set().contains(all[d]));
                    if d < at {
                        assert(all[d] != all[at as int]);
                    } else if at < d {
                        assert(all[at as int] != all[d]);
                    }
                }
            }
        }
        i = i + 1;
    }
    kept
}

/// Checks the entries of a claim: what they are votes for, each once, where it
/// first occurs, or what is wrong with the first with which something is. One bad
/// entry spoils the claim.
pub fn validated_vote_keys(entries: &Vec<AsmapEntry>) -> (checked: Result<Vec<AsmapEntry>, Reason>)
    ensures
        match checked {
            Ok(list) => {
                &&& entries_fault(keys(entries@), entries@.len() as int) is None
                &&& keys(list@) == first_votes(keys(entries@), entries@.len() as int)
            },
            Err(reason) => entries_fault(keys(entries@), entries@.len() as int) == Some(reason),
        },
{
    let ghost all = keys(entries@);
    let mut votes: Vec<AsmapEntry> = Vec::new();
    let mut fault: Option<Reason> = None;
    let mut i: usize = 0;
    while i < entries.len() && fault.is_none()
        invariant
            all == keys(entries@),
            i <= entries@.len(),
            votes@.len() == i,
            forall|j: int| 0 <= j < i ==> entry_fault(#[trigger] all[j]) is None,
            forall|j: int| 0 <= j < i ==> (#[trigger] keys(votes@)[j]) == vote_key(all[j]),
            fault is Some ==> i < entries@.len() && entry_fault(all[i as int]) == fault,
        decreases entries@.len() - i + (if fault is None {
            1int
        } else {
            0int
        }),
    {
        let ghost before = keys(votes@);
        match check_entry(&entries[i]) {
            Ok(key) => {
                votes.push(key);
                assert(keys(votes@) =~= before.push(vote_key(all[i as int])));
                i = i + 1;
            },
            Err(reason) => {
                fault = Some(reason);
            },
        }
    }
    let ghost found = keys(votes@);
    proof {
        lemma_faults_before(all, i as int);
        lemma_ascending::<AsmapEntry>(found);
    }
    let ordered = sorted(&votes);
    let ghost listed = keys(ordered@);
    proof {
        lemma_same_members(listed, found);
    }
    proof {
        lemma_conflict_found(all, found, listed, i as int);
    }
    match dedup_keys(&ordered) {
        None => {
            proof {
                lemma_fault_stays(all, i as int, entries@.len() as int);
            }
            Err(Reason::ConflictingEntry)
        },
        Some(list) => match fault {
            Some(reason) => {
                proof {
                    assert(entries_fault(all, i + 1) == Some(reason));
                    lemma_fault_stays(all, i + 1, entries@.len() as int);
                }
                Err(reason)
            },
            None => {
                proof {
                    assert forall|j: int| 0 <= j < found.len() implies keys(list@).contains(
                        #[trigger] found[j],
                    ) by {
                        assert(found.contains(found[j]));
                        assert(listed.contains(found[j]));
                        assert(keys(list@).to_set().contains(found[j]));
                    }
                }
                Ok(keep_first(votes, &list, Ghost(all)))
            },
        },
    }
}

/// Keys in order conflict exactly if the entries that they came from do.
proof fn lemma_conflict_found(
    all: Seq<(Seq<char>, u32)>,
    found: Seq<(Seq<char>, u32)>,
    listed: Seq<(Seq<char>, u32)>,
    n: int,
)
    requires
        0 <= n <= all.len(),
        found.len() == n,
        forall|j: int| 0 <= j < n ==> (#[trigger] found[j]) == vote_key(all[j]),
        forall|x: (Seq<char>, u32)| #[trigger] listed.contains(x) == found.contains(x),
    ensures
        list_conflict(listed) == conflict_among(all, n),
{
    if list_conflict(listed) {
        let (x, y) = choose|x: int, y: int|
            0 <= x < y < listed.len() && (#[trigger] listed[x]).0 == (#[trigger] listed[y]).0
                && listed[x].1 != listed[y].1;
        assert(listed.contains(listed[x]) && listed.contains(listed[y]));
        let a = choose|a: int| 0 <= a < found.len() && found[a] == listed[x];
        let b = choose|b: int| 0 <= b < found.len() && found[b] == listed[y];
        assert(found[a] == vote_key(all[a]) && found[b] == vote_key(all[b]));
        if a < b {
            assert(vote_key(all[a]).0 == vote_key(all[b]).0);
        } else {
            assert(vote_key(all[b]).0 == vote_key(all[a]).0);
        }
        assert(conflict_among(all, n));
    }
    if conflict_among(all, n) {
        let (a, b) = choose|a: int, b: int|
            0 <= a < b < n && (#[trigger] vote_key(all[a])).0 == (#[trigger] vote_key(all[b])).0
                && all[a].1 != all[b].1;
        assert(found[a] == vote_key(all[a]) && found[b] == vote_key(all[b]));
        assert(found.contains(found[a]) && found.contains(found[b]));
        assert(listed.contains(found[a]) && listed.contains(found[b]));
        let x = choose|x: int| 0 <= x < listed.len() && listed[x] == found[a];
        let y = choose|y: int| 0 <= y < listed.len() && listed[y] == found[b];
        if x < y {
            assert(listed[x].0 == listed[y].0);
        } else {
            assert(listed[y].0 == listed[x].0);
        }
        assert(list_conflict(listed));
    }
}

/// Sequences with the same elements have the same members.
pub proof fn lemma_same_members<A>(a: Seq<A>, b: Seq<A>)
    requires
        a.to_multiset() == b.to_multiset(),
    ensures
        forall|x: A| a.contains(x) == #[trigger] b.contains(x),
        forall|x: A| #[trigger] a.contains(x) == b.contains(x),
        a.len() == b.len(),
{
    broadcast use vstd::seq_lib::group_to_multiset_ensures;

    assert forall|x: A| a.contains(x) == b.contains(x) by {
        assert(a.contains(x) == (a.to_multiset().count(x) > 0));
        assert(b.contains(x) == (b.to_multiset().count(x) > 0));
    }
    assert(a.to_multiset().len() == a.len());
    assert(b.to_multiset().len() == b.len());
}

/// The name of the reason at a position.
pub open spec fn reason_text(i: int) -> Seq<char> {
    (choose|r: Reason| r.position() == i).text()
}

pub proof fn lemma_reason_text(reason: Reason)
    ensures
        reason_text(reason.position()) == reason.text(),
{
    let r = choose|r: Reason| r.position() == reason.position();
    assert(r.position() == reason.position());
    assert(r == reason);
}

/// A name comes before another, and is not the same.
pub open spec fn text_lt(a: Seq<char>, b: Seq<char>) -> bool {
    text_le(a, b) && a != b
}

/// Texts are ordered by what follows the `n` characters that they share.
proof fn lemma_text_lt(a: Seq<char>, b: Seq<char>, n: int)
    requires
        0 <= n <= a.len(),
        n < b.len(),
        forall|i: int| 0 <= i < n ==> #[trigger] a[i] == b[i],
        n == a.len() || a[n] < b[n],
    ensures
        text_lt(a, b),
    decreases n,
{
    if n > 0 {
        let x = a.drop_first();
        let y = b.drop_first();
        assert(a[0] == b[0]);
        assert forall|i: int| 0 <= i < n - 1 implies #[trigger] x[i] == y[i] by {
            assert(a[i + 1] == b[i + 1]);
        }
        lemma_text_lt(x, y, n - 1);
    } else if a.len() > 0 {
        assert(a[0] != b[0]);
    }
}

/// The name at a position comes before the one behind it.
#[verifier::spinoff_prover]
proof fn lemma_names_adjacent(i: int)
    requires
        0 <= i < REASONS - 1,
    ensures
        text_lt(reason_text(i), reason_text(i + 1)),
{
    if i == 0 {
        reveal_strlit("asn_out_of_range");
        reveal_strlit("claim_hash_mismatch");
        lemma_reason_text(Reason::AsnOutOfRange);
        lemma_reason_text(Reason::ClaimHashMismatch);
        lemma_text_lt(Reason::AsnOutOfRange.text(), Reason::ClaimHashMismatch.text(), 0);
    } else if i == 1 {
        reveal_strlit("claim_hash_mismatch");
        reveal_strlit("conflicting_entry");
        lemma_reason_text(Reason::ClaimHashMismatch);
        lemma_reason_text(Reason::ConflictingEntry);
        lemma_text_lt(Reason::ClaimHashMismatch.text(), Reason::ConflictingEntry.text(), 1);
    } else if i == 2 {
        reveal_strlit("conflicting_entry");
        reveal_strlit("default_route_prefix");
        lemma_reason_text(Reason::ConflictingEntry);
        lemma_reason_text(Reason::DefaultRoutePrefix);
        lemma_text_lt(Reason::ConflictingEntry.text(), Reason::DefaultRoutePrefix.text(), 0);
    } else if i == 3 {
        reveal_strlit("default_route_prefix");
        reveal_strlit("duplicate_sender");
        lemma_reason_text(Reason::DefaultRoutePrefix);
        lemma_reason_text(Reason::DuplicateSender);
        lemma_text_lt(Reason::DefaultRoutePrefix.text(), Reason::DuplicateSender.text(), 1);
    } else if i == 4 {
        reveal_strlit("duplicate_sender");
        reveal_strlit("empty_claim");
        lemma_reason_text(Reason::DuplicateSender);
        lemma_reason_text(Reason::EmptyClaim);
        lemma_text_lt(Reason::DuplicateSender.text(), Reason::EmptyClaim.text(), 0);
    } else if i == 5 {
        reveal_strlit("empty_claim");
        reveal_strlit("epoch_jump_too_large");
        lemma_reason_text(Reason::EmptyClaim);
        lemma_reason_text(Reason::EpochJumpTooLarge);
        lemma_text_lt(Reason::EmptyClaim.text(), Reason::EpochJumpTooLarge.text(), 1);
    } else if i == 6 {
        reveal_strlit("epoch_jump_too_large");
        reveal_strlit("epoch_out_of_range");
        lemma_reason_text(Reason::EpochJumpTooLarge);
        lemma_reason_text(Reason::EpochOutOfRange);
        lemma_text_lt(Reason::EpochJumpTooLarge.text(), Reason::EpochOutOfRange.text(), 6);
    } else if i == 7 {
        reveal_strlit("epoch_out_of_range");
        reveal_strlit("invalid_prefix");
        lemma_reason_text(Reason::EpochOutOfRange);
        lemma_reason_text(Reason::InvalidPrefix);
        lemma_text_lt(Reason::EpochOutOfRange.text(), Reason::InvalidPrefix.text(), 0);
    } else if i == 8 {
        reveal_strlit("invalid_prefix");
        reveal_strlit("invalid_sender_id");
        lemma_reason_text(Reason::InvalidPrefix);
        lemma_reason_text(Reason::InvalidSenderId);
        lemma_text_lt(Reason::InvalidPrefix.text(), Reason::InvalidSenderId.text(), 8);
    } else if i == 9 {
        reveal_strlit("invalid_sender_id");
        reveal_strlit("ipv4_mapped_prefix");
        lemma_reason_text(Reason::InvalidSenderId);
        lemma_reason_text(Reason::Ipv4MappedPrefix);
        lemma_text_lt(Reason::InvalidSenderId.text(), Reason::Ipv4MappedPrefix.text(), 1);
    } else if i == 10 {
        reveal_strlit("ipv4_mapped_prefix");
        reveal_strlit("malformed_claim");
        lemma_reason_text(Reason::Ipv4MappedPrefix);
        lemma_reason_text(Reason::MalformedClaim);
        lemma_text_lt(Reason::Ipv4MappedPrefix.text(), Reason::MalformedClaim.text(), 0);
    } else if i == 11 {
        reveal_strlit("malformed_claim");
        reveal_strlit("malformed_claim_hash");
        lemma_reason_text(Reason::MalformedClaim);
        lemma_reason_text(Reason::MalformedClaimHash);
        lemma_text_lt(Reason::MalformedClaim.text(), Reason::MalformedClaimHash.text(), 15);
    } else if i == 12 {
        reveal_strlit("malformed_claim_hash");
        reveal_strlit("oversize_claim");
        lemma_reason_text(Reason::MalformedClaimHash);
        lemma_reason_text(Reason::OversizeClaim);
        lemma_text_lt(Reason::MalformedClaimHash.text(), Reason::OversizeClaim.text(), 0);
    } else if i == 13 {
        reveal_strlit("oversize_claim");
        reveal_strlit("sender_limit_exceeded");
        lemma_reason_text(Reason::OversizeClaim);
        lemma_reason_text(Reason::SenderLimitExceeded);
        lemma_text_lt(Reason::OversizeClaim.text(), Reason::SenderLimitExceeded.text(), 0);
    } else if i == 14 {
        reveal_strlit("sender_limit_exceeded");
        reveal_strlit("source_mismatch");
        lemma_reason_text(Reason::SenderLimitExceeded);
        lemma_reason_text(Reason::SourceMismatch);
        lemma_text_lt(Reason::SenderLimitExceeded.text(), Reason::SourceMismatch.text(), 1);
    } else if i == 15 {
        reveal_strlit("source_mismatch");
        reveal_strlit("stale_epoch");
        lemma_reason_text(Reason::SourceMismatch);
        lemma_reason_text(Reason::StaleEpoch);
        lemma_text_lt(Reason::SourceMismatch.text(), Reason::StaleEpoch.text(), 1);
    } else if i == 16 {
        reveal_strlit("stale_epoch");
        reveal_strlit("too_many_entries");
        lemma_reason_text(Reason::StaleEpoch);
        lemma_reason_text(Reason::TooManyEntries);
        lemma_text_lt(Reason::StaleEpoch.text(), Reason::TooManyEntries.text(), 0);
    } else if i == 17 {
        reveal_strlit("too_many_entries");
        reveal_strlit("unassigned_asn");
        lemma_reason_text(Reason::TooManyEntries);
        lemma_reason_text(Reason::UnassignedAsn);
        lemma_text_lt(Reason::TooManyEntries.text(), Reason::UnassignedAsn.text(), 0);
    } else {
        reveal_strlit("unassigned_asn");
        reveal_strlit("unparsable_sender");
        lemma_reason_text(Reason::UnassignedAsn);
        lemma_reason_text(Reason::UnparsableSender);
        lemma_text_lt(Reason::UnassignedAsn.text(), Reason::UnparsableSender.text(), 2);
    }
}

proof fn lemma_names_ascend(i: int, j: int)
    requires
        0 <= i < j < REASONS,
    ensures
        text_lt(reason_text(i), reason_text(j)),
    decreases j - i,
{
    lemma_names_adjacent(j - 1);
    if i < j - 1 {
        lemma_names_ascend(i, j - 1);
        let (a, b, c) = (reason_text(i), reason_text(j - 1), reason_text(j));
        lemma_text_le_trans(a, b, c);
        lemma_text_le_total(a, b);
    }
}

/// Every reason has a name of its own, and the order of the reasons is that of
/// their names.
pub proof fn reasons_are_in_the_order_of_their_names(a: Reason, b: Reason)
    requires
        a.position() < b.position(),
    ensures
        text_le(a.text(), b.text()),
        a.text() != b.text(),
{
    lemma_reason_text(a);
    lemma_reason_text(b);
    lemma_names_ascend(a.position(), b.position());
}

/// Different reasons have different names.
pub proof fn reasons_have_distinct_names(a: Reason, b: Reason)
    requires
        a != b,
    ensures
        a.text() != b.text(),
{
    if a.position() < b.position() {
        reasons_are_in_the_order_of_their_names(a, b);
    } else {
        assert(a.position() != b.position());
        reasons_are_in_the_order_of_their_names(b, a);
    }
}

/// The bounds that hold without a clock, and how one is set by a clock: a day after
/// it, and not after the year 2100.
pub proof fn limits_are_these(now: u64, span: u64)
    ensures
        default_limits().max_entries == 2_097_152,
        default_limits().min_entries == 1,
        default_limits().max_sender_id_len == 64,
        default_limits().max_senders == 1_024,
        default_limits().max_rejection_observations == 1_024,
        default_limits().max_epoch == 4_102_444_800,
        default_limits().max_epoch_skew == 86_400,
        now + span <= u64::MAX ==> later(now, span) == now + span,
        now + span > u64::MAX ==> later(now, span) == u64::MAX,
        earlier_of(now, span) <= now && earlier_of(now, span) <= span && (earlier_of(now, span)
            == now || earlier_of(now, span) == span),
        later_of(now, span) >= now && later_of(now, span) >= span && (later_of(now, span) == now
            || later_of(now, span) == span),
        now <= 4_102_358_400 ==> earlier_of(later(now, MAX_EPOCH_SKEW), EPOCH_ABSOLUTE_MAX) == now
            + 86_400,
        now > 4_102_358_400 ==> earlier_of(later(now, MAX_EPOCH_SKEW), EPOCH_ABSOLUTE_MAX)
            == 4_102_444_800,
        MAX_CLAIM_BYTES == 65_536,
{
}

/// The texts of hashes: 64 characters, each of them one of `0` to `9` or `a` to `f`.
pub proof fn hash_texts_are_64_digits(s: Seq<char>)
    ensures
        is_hash_text(s) == (s.len() == 64 && forall|i: int|
            0 <= i < s.len() ==> ('0' <= #[trigger] s[i] && s[i] <= '9') || ('a' <= s[i] && s[i]
                <= 'f')),
{
    if forall|i: int|
        0 <= i < s.len() ==> ('0' <= #[trigger] s[i] && s[i] <= '9') || ('a' <= s[i] && s[i]
            <= 'f') {
        is_ascii_chars_encode_utf8(s);
        assert forall|i: int| 0 <= i < s.len() implies is_lower_hex(#[trigger] s[i]) by {}
    } else if is_hash_text(s) {
        assert forall|i: int| 0 <= i < s.len() implies ('0' <= #[trigger] s[i] && s[i] <= '9') || (
        'a' <= s[i] && s[i] <= 'f') by {
            assert(is_lower_hex(s[i]));
        }
    }
}

/// On its face a claim is refused for the first of these: a sender of too many
/// bytes, a hash that is none, too few or too many entries, an epoch too high. Each
/// bound itself is within bounds.
pub proof fn claims_are_refused_for_the_first_fault(limits: ClaimLimits, claim: ClaimView)
    ensures
        ({
            let fault = shape_fault(limits, claim);
            let sender = encode_utf8(claim.sender).len() <= limits.max_sender_id_len;
            let hash = is_hash_text(claim.hash);
            let enough = claim.entries.len() >= limits.min_entries;
            let few = claim.entries.len() <= limits.max_entries;
            let epoch = claim.epoch <= limits.max_epoch;
            &&& fault is None <==> sender && hash && enough && few && epoch
            &&& fault == Some(Reason::InvalidSenderId) <==> !sender
            &&& fault == Some(Reason::MalformedClaimHash) <==> sender && !hash
            &&& fault == Some(Reason::EmptyClaim) <==> sender && hash && !enough
            &&& fault == Some(Reason::TooManyEntries) <==> sender && hash && enough && !few
            &&& fault == Some(Reason::EpochOutOfRange) <==> sender && hash && enough && few
                && !epoch
        }),
{
}

/// An IPv6 prefix touches the IPv4-mapped range exactly if some address has both
/// the first `len` bits of `v` and the 96 bits that all mapped addresses begin with.
pub proof fn mapped_prefixes_share_an_address(v: u128, len: nat)
    requires
        len <= 128,
    ensures
        touches_mapped(v, len) <==> exists|x: u128| #[trigger]
            (x as nat / pow2((128 - len) as nat)) == v as nat / pow2((128 - len) as nat) && x as nat
                / 0x1_0000_0000 == 0xffff,
{
    let block = pow2((128 - len) as nat);
    if touches_mapped(v, len) {
        let x: u128 = if len <= 96 {
            IPV4_MAPPED_RANGE
        } else {
            v
        };
        lemma_mapped(x, v, len);
        assert(x as nat / block == v as nat / block && x as nat / 0x1_0000_0000 == 0xffff);
    }
    if exists|x: u128| #[trigger] (x as nat / block) == v as nat / block && x as nat / 0x1_0000_0000
        == 0xffff {
        let x = choose|x: u128| #[trigger] (x as nat / block) == v as nat / block && x as nat
            / 0x1_0000_0000 == 0xffff;
        lemma_mapped(x, v, len);
    }
}

/// Against a mapped address, or itself, a prefix is compared in the bits that it
/// shares with the range.
proof fn lemma_mapped(x: u128, v: u128, len: nat)
    requires
        len <= 128,
    ensures
        ({
            let block = pow2((128 - len) as nat);
            &&& x as nat / 0x1_0000_0000 == 0xffff && x as nat / block == v as nat / block
                ==> touches_mapped(v, len)
            &&& touches_mapped(v, len) && len <= 96 ==> IPV4_MAPPED_RANGE as nat / block == v as nat
                / block
            &&& touches_mapped(v, len) && len > 96 ==> v as nat / 0x1_0000_0000 == 0xffff
            &&& IPV4_MAPPED_RANGE as nat / 0x1_0000_0000 == 0xffff
        }),
{
    let block = pow2((128 - len) as nat);
    let low = pow2(32);
    let range = IPV4_MAPPED_RANGE;
    lemma2_to64();
    lemma_pow2_pos((128 - len) as nat);
    assert(low == 0x1_0000_0000);
    assert(range as nat / 0x1_0000_0000 == 0xffff);
    if len <= 96 {
        let more = pow2((96 - len) as nat);
        lemma_pow2_pos((96 - len) as nat);
        lemma_pow2_adds(32, (96 - len) as nat);
        assert(block == low * more);
        lemma_div_denominator(x as int, low as int, more as int);
        lemma_div_denominator(range as int, low as int, more as int);
        assert(touches_mapped(v, len) == (v as nat / block == range as nat / block));
    } else {
        let more = pow2((len - 96) as nat);
        lemma_pow2_pos((len - 96) as nat);
        lemma_pow2_adds((128 - len) as nat, (len - 96) as nat);
        assert(low == block * more);
        lemma_div_denominator(x as int, block as int, more as int);
        lemma_div_denominator(v as int, block as int, more as int);
        assert(touches_mapped(v, len) == (v as nat / low == range as nat / low));
    }
}

/// An entry is good exactly if its number is one that the binary format can hold,
/// its prefix has at most 49 bytes and parses, and the prefix is neither a whole
/// address family nor an IPv6 one that touches the IPv4-mapped range; else it is
/// refused for the first of these that fails.
pub proof fn entries_are_refused_for_the_first_fault(text: Seq<char>, asn: u32)
    ensures
        ({
            let fault = entry_fault((text, asn));
            let assigned = asn >= 1;
            let small = asn <= 33_521_664;
            let parses = encode_utf8(text).len() <= 49 && consensus_prefix(text) is Some;
            let prefix = consensus_prefix(text)->0;
            let part = prefix.mask > 0;
            let apart = prefix.ip is V4 || !touches_mapped(prefix.ip->V6_0, prefix.mask as nat);
            &&& fault is None <==> assigned && small && parses && part && apart
            &&& fault == Some(Reason::UnassignedAsn) <==> !assigned
            &&& fault == Some(Reason::AsnOutOfRange) <==> assigned && !small
            &&& fault == Some(Reason::InvalidPrefix) <==> assigned && small && !parses
            &&& fault == Some(Reason::DefaultRoutePrefix) <==> assigned && small && parses && !part
            &&& fault == Some(Reason::Ipv4MappedPrefix) <==> assigned && small && parses && part
                && !apart
        }),
{
}

/// An entry votes for its prefix in canonical form, and for its number.
pub proof fn entries_vote_for_the_canonical_prefix(text: Seq<char>, asn: u32)
    requires
        consensus_prefix(text) is Some,
    ensures
        vote_key((text, asn)) == (consensus_prefix(text)->0.text(), asn),
{
}

proof fn lemma_entries_push(
    entries: Seq<(Seq<char>, u32)>,
    entry: (Seq<char>, u32),
    n: int,
)
    requires
        0 <= n <= entries.len(),
    ensures
        entries_fault(entries.push(entry), n) == entries_fault(entries, n),
        first_votes(entries.push(entry), n) == first_votes(entries, n),
        conflict_among(entries.push(entry), n) == conflict_among(entries, n),
    decreases n,
{
    let more = entries.push(entry);
    if conflict_among(more, n) {
        let (i, j) = choose|i: int, j: int|
            0 <= i < j < n && (#[trigger] vote_key(more[i])).0 == (#[trigger] vote_key(more[j])).0
                && more[i].1 != more[j].1;
        assert(vote_key(entries[i]).0 == vote_key(entries[j]).0);
    }
    if conflict_among(entries, n) {
        let (i, j) = choose|i: int, j: int|
            0 <= i < j < n && (#[trigger] vote_key(entries[i])).0 == (#[trigger] vote_key(
                entries[j],
            )).0 && entries[i].1 != entries[j].1;
        assert(vote_key(more[i]).0 == vote_key(more[j]).0);
    }
    if n > 0 {
        lemma_entries_push(entries, entry, n - 1);
        assert(more[n - 1] == entries[n - 1]);
    }
}

/// Entries are looked at one after another. What is wrong with the ones before
/// decides; else the next is refused for what is wrong with it, or because it gives
/// a number to a prefix that has another already.
pub proof fn the_first_bad_entry_decides(
    entries: Seq<(Seq<char>, u32)>,
    entry: (Seq<char>, u32),
)
    ensures
        entries_fault(Seq::empty(), 0) is None,
        ({
            let n = entries.len() as int;
            let before = entries_fault(entries, n);
            let after = entries_fault(entries.push(entry), n + 1);
            let clash = exists|i: int|
                0 <= i < n && (#[trigger] vote_key(entries[i])).0 == vote_key(entry).0
                    && entries[i].1 != entry.1;
            &&& before is Some ==> after == before
            &&& before is None && entry_fault(entry) is Some ==> after == entry_fault(entry)
            &&& before is None && entry_fault(entry) is None && clash ==> after == Some(
                Reason::ConflictingEntry,
            )
            &&& before is None && entry_fault(entry) is None && !clash ==> after is None
        }),
{
    let n = entries.len() as int;
    let more = entries.push(entry);
    lemma_entries_push(entries, entry, n);
    if entries_fault(entries, n) is None {
        lemma_no_fault(entries, n);
        if conflict_among(more, n + 1) {
            let (i, j) = choose|i: int, j: int|
                0 <= i < j < n + 1 && (#[trigger] vote_key(more[i])).0 == (#[trigger] vote_key(
                    more[j],
                )).0 && more[i].1 != more[j].1;
            assert(vote_key(more[i]).0 == vote_key(more[j]).0);
            if j < n {
                assert(conflict_among(more, n));
            } else {
                assert(vote_key(entries[i]).0 == vote_key(entry).0);
            }
        }
        if exists|i: int|
            0 <= i < n && (#[trigger] vote_key(entries[i])).0 == vote_key(entry).0 && entries[i].1
                != entry.1 {
            let i = choose|i: int|
                0 <= i < n && (#[trigger] vote_key(entries[i])).0 == vote_key(entry).0
                    && entries[i].1 != entry.1;
            assert(vote_key(more[i]).0 == vote_key(more[n]).0);
            assert(conflict_among(more, n + 1));
        }
    }
}

proof fn lemma_no_fault(entries: Seq<(Seq<char>, u32)>, n: int)
    requires
        0 <= n <= entries.len(),
        entries_fault(entries, n) is None,
    ensures
        !conflict_among(entries, n),
        forall|i: int| 0 <= i < n ==> entry_fault(#[trigger] entries[i]) is None,
    decreases n,
{
    if n > 0 {
        lemma_no_fault(entries, n - 1);
    }
}

/// Votes are kept where they first occur, in the order of the entries.
pub proof fn votes_are_kept_where_they_first_occur(
    entries: Seq<(Seq<char>, u32)>,
    entry: (Seq<char>, u32),
)
    ensures
        first_votes(Seq::empty(), 0) == Seq::<(Seq<char>, u32)>::empty(),
        ({
            let n = entries.len() as int;
            let before = first_votes(entries, n);
            let after = first_votes(entries.push(entry), n + 1);
            &&& before.contains(vote_key(entry)) ==> after == before
            &&& !before.contains(vote_key(entry)) ==> after == before.push(vote_key(entry))
        }),
{
    lemma_entries_push(entries, entry, entries.len() as int);
}

/// The names of the reasons.
pub proof fn reasons_are_named()
    ensures
        Reason::AsnOutOfRange.text() == "asn_out_of_range"@,
        Reason::ClaimHashMismatch.text() == "claim_hash_mismatch"@,
        Reason::ConflictingEntry.text() == "conflicting_entry"@,
        Reason::DefaultRoutePrefix.text() == "default_route_prefix"@,
        Reason::DuplicateSender.text() == "duplicate_sender"@,
        Reason::EmptyClaim.text() == "empty_claim"@,
        Reason::EpochJumpTooLarge.text() == "epoch_jump_too_large"@,
        Reason::EpochOutOfRange.text() == "epoch_out_of_range"@,
        Reason::InvalidPrefix.text() == "invalid_prefix"@,
        Reason::InvalidSenderId.text() == "invalid_sender_id"@,
        Reason::Ipv4MappedPrefix.text() == "ipv4_mapped_prefix"@,
        Reason::MalformedClaim.text() == "malformed_claim"@,
        Reason::MalformedClaimHash.text() == "malformed_claim_hash"@,
        Reason::OversizeClaim.text() == "oversize_claim"@,
        Reason::SenderLimitExceeded.text() == "sender_limit_exceeded"@,
        Reason::SourceMismatch.text() == "source_mismatch"@,
        Reason::StaleEpoch.text() == "stale_epoch"@,
        Reason::TooManyEntries.text() == "too_many_entries"@,
        Reason::UnassignedAsn.text() == "unassigned_asn"@,
        Reason::UnparsableSender.text() == "unparsable_sender"@,
{
}

} // verus!
