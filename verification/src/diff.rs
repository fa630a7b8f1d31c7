//! Differences between maps, as they are listed and counted.

use crate::addr::{ip_read, IpAddr};
use crate::net::{
    bits_to_network, block_size, ip_to_bits, is_v4_prefix, lemma_network_count,
    mapped_prefixes_are_ipv4, network_address_count, network_text, prefix_bits,
    prefix_bits_are_address_bits,
};
use crate::sort::{ascending, keys, lemma_ascending, order, sorted, Ordered};
use crate::text::{decimal, decimal_text, find_char, push_number, same_text, to_chars};
use crate::trie::{
    common_asn, differences, diffs_view, leads_to, lookups_cover_every_path, ASMap, ASNDiff,
    TrieNode,
};
use crate::votes::texts;
use vstd::arithmetic::power2::pow2;
use vstd::prelude::*;
use vstd::relations::sorted_by;

verus! {

/// The changes that are looked at: all, or those of space that was assigned.
pub open spec fn kept_changes(
    diffs: Seq<(Seq<bool>, u32, u32)>,
    ignore_unassigned: bool,
) -> Seq<(Seq<bool>, u32, u32)>
    decreases diffs.len(),
{
    if diffs.len() == 0 {
        Seq::empty()
    } else {
        let rest = kept_changes(diffs.drop_last(), ignore_unassigned);
        if ignore_unassigned && diffs.last().1 == 0 {
            rest
        } else {
            rest.push(diffs.last())
        }
    }
}

/// A change as it is listed.
pub open spec fn diff_line(change: (Seq<bool>, u32, u32)) -> Seq<char> {
    let net = network_text(change.0);
    if change.2 == 0 {
        "# "@ + net + " was AS"@ + decimal(change.1 as nat)
    } else if change.1 == 0 {
        net + " AS"@ + decimal(change.2 as nat) + " # was unassigned"@
    } else {
        net + " AS"@ + decimal(change.2 as nat) + " # was AS"@ + decimal(change.1 as nat)
    }
}

/// How many of the changes are of IPv4 addresses, or of IPv6 addresses.
pub open spec fn entries_changed(changes: Seq<(Seq<bool>, u32, u32)>, v4: bool) -> nat
    decreases changes.len(),
{
    if changes.len() == 0 {
        0
    } else {
        entries_changed(changes.drop_last(), v4) + if is_v4_prefix(changes.last().0) == v4 {
            1nat
        } else {
            0nat
        }
    }
}

/// How many IPv4 or IPv6 addresses change.
pub open spec fn addresses_changed(changes: Seq<(Seq<bool>, u32, u32)>, v4: bool) -> nat
    decreases changes.len(),
{
    if changes.len() == 0 {
        0
    } else {
        addresses_changed(changes.drop_last(), v4) + if is_v4_prefix(changes.last().0) == v4 {
            block_size(changes.last().0)
        } else {
            0nat
        }
    }
}

/// The changes can be listed: every prefix is one of addresses, and the numbers
/// of addresses can be held.
pub open spec fn diff_fits(changes: Seq<(Seq<bool>, u32, u32)>) -> bool {
    &&& forall|i: int| 0 <= i < changes.len() ==> (#[trigger] changes[i]).0.len() <= 128
    &&& addresses_changed(changes, true) <= u128::MAX
    &&& addresses_changed(changes, false) <= u128::MAX
}

/// What changed between two maps.
#[derive(Debug, PartialEq, Eq)]
pub struct DiffReport {
    pub lines: Vec<String>,
    pub ipv4_entries: usize,
    pub ipv4_addresses: u128,
    pub ipv6_entries: usize,
    pub ipv6_addresses: u128,
}

impl DiffReport {
    /// The report lists and counts these changes.
    pub open spec fn reports(self, changes: Seq<(Seq<bool>, u32, u32)>) -> bool {
        &&& texts(self.lines@) == changes.map_values(|d: (Seq<bool>, u32, u32)| diff_line(d))
        &&& self.ipv4_entries == entries_changed(changes, true)
        &&& self.ipv4_addresses == addresses_changed(changes, true)
        &&& self.ipv6_entries == entries_changed(changes, false)
        &&& self.ipv6_addresses == addresses_changed(changes, false)
    }
}

fn push_diff_line(net: &str, old_asn: u32, new_asn: u32, Ghost(bits): Ghost<Seq<bool>>) -> (line:
    String)
    requires
        net@ == network_text(bits),
    ensures
        line@ == diff_line((bits, old_asn, new_asn)),
{
    let mut line;
    if new_asn == 0 {
        line = "# ".to_owned();
        line.append(net);
        line.append(" was AS");
        push_number(&mut line, old_asn as u128, 10);
    } else if old_asn == 0 {
        line = net.to_owned();
        line.append(" AS");
        push_number(&mut line, new_asn as u128, 10);
        line.append(" # was unassigned");
    } else {
        line = net.to_owned();
        line.append(" AS");
        push_number(&mut line, new_asn as u128, 10);
        line.append(" # was AS");
        push_number(&mut line, old_asn as u128, 10);
    }
    line
}

/// A part of changes that can be listed can be listed.
proof fn lemma_diff_fits(changes: Seq<(Seq<bool>, u32, u32)>, n: int, v4: bool)
    requires
        0 <= n <= changes.len(),
    ensures
        addresses_changed(changes.take(n), v4) <= addresses_changed(changes, v4),
        entries_changed(changes, v4) <= changes.len(),
    decreases changes.len(),
{
    if n == changes.len() {
        assert(changes.take(n) =~= changes);
        if n > 0 {
            lemma_diff_fits(changes.drop_last(), n - 1, v4);
        }
    } else {
        assert(changes.take(n) =~= changes.drop_last().take(n));
        lemma_diff_fits(changes.drop_last(), n, v4);
    }
}

/// The changes between two maps, if they can be listed and counted.
fn try_report(diffs: &Vec<ASNDiff>, ignore_unassigned: bool) -> (report: Option<DiffReport>)
    ensures
        ({
            let changes = kept_changes(diffs_view(diffs@), ignore_unassigned);
            match report {
                Some(r) => diff_fits(changes) && r.reports(changes),
                None => !diff_fits(changes),
            }
        }),
{
    let ghost all = diffs_view(diffs@);
    let ghost changes = kept_changes(all, ignore_unassigned);
    let mut report = DiffReport {
        lines: Vec::new(),
        ipv4_entries: 0,
        ipv4_addresses: 0,
        ipv6_entries: 0,
        ipv6_addresses: 0,
    };
    let mut i: usize = 0;
    assert(all.take(0) =~= Seq::empty());
    assert(report.reports(Seq::empty())) by {
        assert(texts(report.lines@) =~= Seq::empty());
        assert(Seq::<(Seq<bool>, u32, u32)>::empty().map_values(
            |d: (Seq<bool>, u32, u32)| diff_line(d),
        ) =~= Seq::empty());
    }
    while i < diffs.len()
        invariant
            i <= diffs@.len(),
            all == diffs_view(diffs@),
            changes == kept_changes(all, ignore_unassigned),
            diff_fits(kept_changes(all.take(i as int), ignore_unassigned)),
            report.reports(kept_changes(all.take(i as int), ignore_unassigned)),
            kept_changes(all.take(i as int), ignore_unassigned).len() <= i,
        decreases diffs@.len() - i,
    {
        let diff = &diffs[i];
        let ghost before = kept_changes(all.take(i as int), ignore_unassigned);
        let ghost next = kept_changes(all.take(i + 1), ignore_unassigned);
        let ghost change = all[i as int];
        proof {
            assert(all.take(i + 1).drop_last() =~= all.take(i as int));
            assert(all.take(i + 1).last() == change);
            lemma_kept_grows(all, ignore_unassigned, i + 1);
        }
        if !(ignore_unassigned && diff.1 == 0) {
            assert(next == before.push(change));
            assert(next.drop_last() =~= before);
            if diff.0.len() > 128 {
                assert(next.last().0.len() > 128);
                assert(changes[next.len() - 1] == next[next.len() - 1]);
                return None;
            }
            proof {
                lemma_network_count(diff.0@);
                lemma_diff_fits(before, before.len() as int, true);
                lemma_diff_fits(before, before.len() as int, false);
                lemma_diff_fits(changes, next.len() as int, true);
                lemma_diff_fits(changes, next.len() as int, false);
                assert(changes.take(next.len() as int) =~= next);
            }
            let net = bits_to_network(diff.0.as_slice());
            let count: u128 = match network_address_count(net.as_str()) {
                Ok(count) => count,
                Err(_) => 0,
            };
            assert(count == block_size(diff.0@));
            let dotted: bool = has_dot(net.as_str());
            let line = push_diff_line(net.as_str(), diff.1, diff.2, Ghost(diff.0@));
            if dotted {
                report.ipv4_addresses = match report.ipv4_addresses.checked_add(count) {
                    Some(sum) => sum,
                    None => {
                        return None;
                    },
                };
                report.ipv4_entries = report.ipv4_entries + 1;
            } else {
                report.ipv6_addresses = match report.ipv6_addresses.checked_add(count) {
                    Some(sum) => sum,
                    None => {
                        return None;
                    },
                };
                report.ipv6_entries = report.ipv6_entries + 1;
            }
            let ghost lines = texts(report.lines@);
            report.lines.push(line);
            proof {
                assert(texts(report.lines@) =~= lines.push(diff_line(change)));
                assert(next.map_values(|d: (Seq<bool>, u32, u32)| diff_line(d))
                    =~= before.map_values(|d: (Seq<bool>, u32, u32)| diff_line(d)).push(
                    diff_line(change),
                ));
                assert forall|j: int| 0 <= j < next.len() implies (
                #[trigger] next[j]).0.len() <= 128 by {
                    if j < before.len() {
                        assert(next[j] == before[j]);
                    }
                }
            }
        }
        i = i + 1;
    }
    assert(all.take(i as int) =~= all);
    Some(report)
}

/// What is kept of a beginning is a beginning of what is kept.
proof fn lemma_kept_grows(all: Seq<(Seq<bool>, u32, u32)>, ignore_unassigned: bool, n: int)
    requires
        0 <= n <= all.len(),
    ensures
        ({
            let part = kept_changes(all.take(n), ignore_unassigned);
            let whole = kept_changes(all, ignore_unassigned);
            part.len() <= whole.len() && forall|j: int|
                0 <= j < part.len() ==> part[j] == #[trigger] whole[j]
        }),
    decreases all.len(),
{
    if n == all.len() {
        assert(all.take(n) =~= all);
    } else {
        assert(all.take(n) =~= all.drop_last().take(n));
        lemma_kept_grows(all.drop_last(), ignore_unassigned, n);
    }
}

/// Whether a text has a dot.
fn has_dot(text: &str) -> (dot: bool)
    ensures
        dot == text@.contains('.'),
{
    let chars = to_chars(text);
    let at: usize = find_char(chars.as_slice(), '.', 0);
    proof {
        if at < chars@.len() {
            assert(chars@[at as int] == '.');
        }
    }
    at < chars.len()
}

/// Whether the changes between two maps can be listed and counted.
pub fn can_diff(left: &ASMap, right: &ASMap, ignore_unassigned: bool) -> (fits: bool)
    ensures
        fits == diff_fits(
            kept_changes(differences(left@, right@, Seq::empty()), ignore_unassigned),
        ),
{
    try_report(&left.diff(right), ignore_unassigned).is_some()
}

/// Lists and counts the changes between two maps.
pub fn diff_report(left: &ASMap, right: &ASMap, ignore_unassigned: bool) -> (report: DiffReport)
    requires
        diff_fits(kept_changes(differences(left@, right@, Seq::empty()), ignore_unassigned)),
    ensures
        report.reports(kept_changes(differences(left@, right@, Seq::empty()), ignore_unassigned)),
{
    match try_report(&left.diff(right), ignore_unassigned) {
        Some(report) => report,
        None => DiffReport {
            lines: Vec::new(),
            ipv4_entries: 0,
            ipv4_addresses: 0,
            ipv6_entries: 0,
            ipv6_addresses: 0,
        },
    }
}

/// An address of a node, with the kind of network that it is in.
#[derive(Debug, PartialEq, Eq)]
pub struct AddrInfo {
    pub address: String,
    pub network: String,
}

/// The addresses that are IP addresses.
pub open spec fn ip_addresses(list: Seq<AddrInfo>) -> Seq<Seq<char>>
    decreases list.len(),
{
    if list.len() == 0 {
        Seq::empty()
    } else {
        let rest = ip_addresses(list.drop_last());
        if list.last().network@ == "ipv4"@ || list.last().network@ == "ipv6"@ {
            rest.push(list.last().address@)
        } else {
            rest
        }
    }
}

/// Picks out the addresses that are IP addresses.
pub fn select_addresses(list: &Vec<AddrInfo>) -> (addresses: Vec<String>)
    ensures
        texts(addresses@) == ip_addresses(list@),
{
    let mut addresses: Vec<String> = Vec::new();
    let mut i: usize = 0;
    assert(list@.take(0) =~= Seq::empty());
    assert(texts(addresses@) =~= Seq::empty());
    while i < list.len()
        invariant
            i <= list@.len(),
            texts(addresses@) == ip_addresses(list@.take(i as int)),
        decreases list@.len() - i,
    {
        let ghost before = texts(addresses@);
        assert(list@.take(i + 1).drop_last() =~= list@.take(i as int));
        let item = &list[i];
        if same_text(item.network.as_str(), "ipv4") || same_text(item.network.as_str(), "ipv6") {
            addresses.push(item.address.clone());
            assert(texts(addresses@) =~= before.push(item.address@));
        }
        i = i + 1;
    }
    assert(list@.take(i as int) =~= list@);
    addresses
}

/// The number that a map has for an address, zero for none.
pub open spec fn asn_at(trie: TrieNode, ip: IpAddr) -> u32 {
    match common_asn(trie, prefix_bits(ip, ip.width())) {
        Some(asn) => asn,
        None => 0,
    }
}

fn lookup_address(map: &ASMap, ip: IpAddr) -> (asn: u32)
    requires
        map.wf(),
    ensures
        asn == asn_at(map@, ip),
{
    let bits = match ip {
        IpAddr::V4(_) => ip_to_bits(ip, 32),
        IpAddr::V6(_) => ip_to_bits(ip, 128),
    };
    match map.lookup(bits.as_slice()) {
        Some(asn) => asn,
        None => 0,
    }
}

/// The first text that is not an address, or the addresses whose number changes,
/// with the old and the new one.
pub open spec fn moved(addresses: Seq<Seq<char>>, left: TrieNode, right: TrieNode) -> Result<
    Seq<(Seq<char>, u32, u32)>,
    Seq<char>,
>
    decreases addresses.len(),
{
    if addresses.len() == 0 {
        Ok(Seq::empty())
    } else {
        match moved(addresses.drop_last(), left, right) {
            Err(text) => Err(text),
            Ok(rest) => match ip_read(addresses.last()) {
                None => Err(addresses.last()),
                Some(ip) => if asn_at(left, ip) != asn_at(right, ip) {
                    Ok(rest.push((addresses.last(), asn_at(left, ip), asn_at(right, ip))))
                } else {
                    Ok(rest)
                },
            },
        }
    }
}

/// An address whose number changes.
#[derive(Debug, PartialEq, Eq)]
pub struct Move {
    pub address: String,
    pub old_asn: u32,
    pub new_asn: u32,
}

/// Moves with their addresses taken as sequences.
pub open spec fn moves_view(moves: Seq<Move>) -> Seq<(Seq<char>, u32, u32)> {
    moves.map_values(|m: Move| (m.address@, m.old_asn, m.new_asn))
}

/// An error is final.
proof fn lemma_moved_error(addresses: Seq<Seq<char>>, left: TrieNode, right: TrieNode, n: int)
    requires
        0 <= n <= addresses.len(),
        moved(addresses.take(n), left, right) is Err,
    ensures
        moved(addresses, left, right) == moved(addresses.take(n), left, right),
    decreases addresses.len(),
{
    if n == addresses.len() {
        assert(addresses.take(n) =~= addresses);
    } else {
        assert(addresses.take(n) =~= addresses.drop_last().take(n));
        lemma_moved_error(addresses.drop_last(), left, right, n);
    }
}

/// Finds the addresses whose number changes from one map to another.
pub fn find_moves(left: &ASMap, right: &ASMap, addresses: &Vec<String>) -> (moves: Result<
    Vec<Move>,
    String,
>)
    requires
        left.wf(),
        right.wf(),
    ensures
        match moves {
            Ok(list) => moved(texts(addresses@), left@, right@) == Ok::<_, Seq<char>>(
                moves_view(list@),
            ),
            Err(text) => moved(texts(addresses@), left@, right@) == Err::<
                Seq<(Seq<char>, u32, u32)>,
                _,
            >(text@),
        },
{
    let ghost all = texts(addresses@);
    let mut moves: Vec<Move> = Vec::new();
    let mut i: usize = 0;
    assert(all.take(0) =~= Seq::empty());
    assert(moves_view(moves@) =~= Seq::empty());
    while i < addresses.len()
        invariant
            i <= addresses@.len(),
            all == texts(addresses@),
            left.wf(),
            right.wf(),
            moved(all.take(i as int), left@, right@) == Ok::<_, Seq<char>>(moves_view(moves@)),
        decreases addresses@.len() - i,
    {
        let ghost before = moves_view(moves@);
        assert(all.take(i + 1).drop_last() =~= all.take(i as int));
        assert(all.take(i + 1).last() == addresses@[i as int]@);
        match IpAddr::parse(addresses[i].as_str()) {
            None => {
                proof {
                    lemma_moved_error(all, left@, right@, i + 1);
                }
                return Err(addresses[i].clone());
            },
            Some(ip) => {
                let old_asn: u32 = lookup_address(left, ip);
                let new_asn: u32 = lookup_address(right, ip);
                if new_asn != old_asn {
                    moves.push(Move { address: addresses[i].clone(), old_asn, new_asn });
                    assert(moves_view(moves@) =~= before.push(
                        (addresses@[i as int]@, old_asn, new_asn),
                    ));
                }
            },
        }
        i = i + 1;
    }
    assert(all.take(i as int) =~= all);
    Ok(moves)
}

/// The addresses that move from one number to another, in order.
pub open spec fn movers(moves: Seq<(Seq<char>, u32, u32)>, old_asn: u32, new_asn: u32) -> Seq<
    Seq<char>,
>
    decreases moves.len(),
{
    if moves.len() == 0 {
        Seq::empty()
    } else {
        let rest = movers(moves.drop_last(), old_asn, new_asn);
        if moves.last().1 == old_asn && moves.last().2 == new_asn {
            rest.push(moves.last().0)
        } else {
            rest
        }
    }
}

/// A pair of numbers with how many addresses move from one to the other.
#[derive(Debug, Clone, Copy, PartialEq, Eq, Structural)]
pub struct MoveGroup {
    pub count: usize,
    pub old_asn: u32,
    pub new_asn: u32,
}

/// The order of groups: largest first, then by the old and the new number.
pub open spec fn group_le(a: (nat, u32, u32), b: (nat, u32, u32)) -> bool {
    if a.0 != b.0 {
        a.0 > b.0
    } else if a.1 != b.1 {
        a.1 < b.1
    } else {
        a.2 <= b.2
    }
}

impl Ordered for MoveGroup {
    type Key = (nat, u32, u32);

    open spec fn key(&self) -> (nat, u32, u32) {
        (self.count as nat, self.old_asn, self.new_asn)
    }

    open spec fn leq(a: (nat, u32, u32), b: (nat, u32, u32)) -> bool {
        group_le(a, b)
    }

    proof fn lemma_total(a: (nat, u32, u32), b: (nat, u32, u32), c: (nat, u32, u32)) {
    }

    fn le(&self, other: &Self) -> (le: bool) {
        if self.count != other.count {
            self.count > other.count
        } else if self.old_asn != other.old_asn {
            self.old_asn < other.old_asn
        } else {
            self.new_asn <= other.new_asn
        }
    }

    fn copy(&self) -> (copy: Self) {
        *self
    }
}

/// The groups of moves.
pub open spec fn group_set(moves: Seq<(Seq<char>, u32, u32)>) -> Set<(nat, u32, u32)> {
    Set::new(
        |g: (nat, u32, u32)| g.0 == movers(moves, g.1, g.2).len() && g.0 > 0,
    )
}

/// Groups in order, each once.
pub open spec fn groups_ascend(groups: Seq<(nat, u32, u32)>) -> bool {
    forall|i: int, j: int|
        0 <= i < j < groups.len() ==> group_le(#[trigger] groups[i], #[trigger] groups[j])
            && groups[i] != groups[j]
}

/// A move belongs to a group that is not empty.
proof fn lemma_movers(moves: Seq<(Seq<char>, u32, u32)>, old_asn: u32, new_asn: u32)
    ensures
        movers(moves, old_asn, new_asn).len() <= moves.len(),
        (movers(moves, old_asn, new_asn).len() > 0) == (exists|i: int|
            0 <= i < moves.len() && (#[trigger] moves[i]).1 == old_asn && moves[i].2 == new_asn),
    decreases moves.len(),
{
    if moves.len() > 0 {
        let rest = moves.drop_last();
        lemma_movers(rest, old_asn, new_asn);
        let n = moves.len() - 1;
        if moves.last().1 == old_asn && moves.last().2 == new_asn {
            assert(moves[n].1 == old_asn && moves[n].2 == new_asn);
        } else {
            if exists|i: int|
                0 <= i < rest.len() && (#[trigger] rest[i]).1 == old_asn && rest[i].2 == new_asn {
                let i = choose|i: int|
                    0 <= i < rest.len() && (#[trigger] rest[i]).1 == old_asn && rest[i].2
                        == new_asn;
                assert(moves[i] == rest[i]);
            }
            if exists|i: int|
                0 <= i < moves.len() && (#[trigger] moves[i]).1 == old_asn && moves[i].2
                    == new_asn {
                let i = choose|i: int|
                    0 <= i < moves.len() && (#[trigger] moves[i]).1 == old_asn && moves[i].2
                        == new_asn;
                assert(rest[i] == moves[i]);
            }
        }
    }
}

/// Collects the addresses that move from one number to another.
fn collect_movers(moves: &Vec<Move>, old_asn: u32, new_asn: u32) -> (list: Vec<String>)
    ensures
        texts(list@) == movers(moves_view(moves@), old_asn, new_asn),
{
    let ghost all = moves_view(moves@);
    let mut list: Vec<String> = Vec::new();
    let mut i: usize = 0;
    assert(all.take(0) =~= Seq::empty());
    assert(texts(list@) =~= Seq::empty());
    while i < moves.len()
        invariant
            i <= moves@.len(),
            all == moves_view(moves@),
            texts(list@) == movers(all.take(i as int), old_asn, new_asn),
        decreases moves@.len() - i,
    {
        let ghost before = texts(list@);
        assert(all.take(i + 1).drop_last() =~= all.take(i as int));
        let m = &moves[i];
        assert(all[i as int] == (m.address@, m.old_asn, m.new_asn));
        if m.old_asn == old_asn && m.new_asn == new_asn {
            list.push(m.address.clone());
            assert(texts(list@) =~= before.push(m.address@));
        }
        i = i + 1;
    }
    assert(all.take(i as int) =~= all);
    list
}

/// Counts the addresses that move from one number to another.
fn count_movers(moves: &Vec<Move>, old_asn: u32, new_asn: u32) -> (n: usize)
    ensures
        n == movers(moves_view(moves@), old_asn, new_asn).len(),
{
    let ghost all = moves_view(moves@);
    let mut n: usize = 0;
    let mut i: usize = 0;
    assert(all.take(0) =~= Seq::empty());
    while i < moves.len()
        invariant
            n <= i <= moves@.len(),
            all == moves_view(moves@),
            n == movers(all.take(i as int), old_asn, new_asn).len(),
        decreases moves@.len() - i,
    {
        assert(all.take(i + 1).drop_last() =~= all.take(i as int));
        let m = &moves[i];
        assert(all[i as int] == (m.address@, m.old_asn, m.new_asn));
        if m.old_asn == old_asn && m.new_asn == new_asn {
            n = n + 1;
        }
        i = i + 1;
    }
    assert(all.take(i as int) =~= all);
    n
}

/// Some keys are the pairs of numbers of moves, with no count yet.
spec fn pairs_of(list: Seq<(nat, u32, u32)>, moves: Seq<(Seq<char>, u32, u32)>) -> bool {
    forall|k: (nat, u32, u32)| #[trigger]
        list.contains(k) == (k.0 == 0 && exists|m: int|
            0 <= m < moves.len() && (#[trigger] moves[m]).1 == k.1 && moves[m].2 == k.2)
}

/// The pairs of numbers between which addresses move, each once.
fn move_pairs(moves: &Vec<Move>) -> (pairs: Vec<MoveGroup>)
    ensures
        pairs_of(keys(pairs@), moves_view(moves@)),
{
    let ghost all = moves_view(moves@);
    let mut found: Vec<MoveGroup> = Vec::new();
    let mut i: usize = 0;
    while i < moves.len()
        invariant
            i <= moves@.len(),
            found@.len() == i,
            all == moves_view(moves@),
            forall|m: int|
                0 <= m < i ==> (#[trigger] keys(found@)[m]) == (0nat, all[m].1, all[m].2),
        decreases moves@.len() - i,
    {
        let ghost before = keys(found@);
        let m = &moves[i];
        assert(all[i as int] == (m.address@, m.old_asn, m.new_asn));
        found.push(MoveGroup { count: 0, old_asn: m.old_asn, new_asn: m.new_asn });
        assert(keys(found@) =~= before.push((0nat, m.old_asn, m.new_asn)));
        i = i + 1;
    }
    let ordered = sorted(&found);
    proof {
        lemma_ascending::<MoveGroup>(keys(found@));
    }
    let pairs = drop_repeats(&ordered);
    proof {
        keys(found@).to_multiset_ensures();
        keys(ordered@).to_multiset_ensures();
        assert forall|k: (nat, u32, u32)| #[trigger]
            keys(pairs@).contains(k) == (k.0 == 0 && exists|m: int|
                0 <= m < all.len() && (#[trigger] all[m]).1 == k.1 && all[m].2 == k.2) by {
            assert(keys(pairs@).to_set().contains(k) == keys(ordered@).to_set().contains(k));
            assert(keys(ordered@).to_multiset().count(k) == keys(found@).to_multiset().count(k));
            assert(keys(ordered@).contains(k) == keys(found@).contains(k));
            if keys(found@).contains(k) {
                let m = choose|m: int| 0 <= m < keys(found@).len() && keys(found@)[m] == k;
                assert(all[m].1 == k.1 && all[m].2 == k.2);
            }
            if k.0 == 0 && exists|m: int|
                0 <= m < all.len() && (#[trigger] all[m]).1 == k.1 && all[m].2 == k.2 {
                let m = choose|m: int|
                    0 <= m < all.len() && (#[trigger] all[m]).1 == k.1 && all[m].2 == k.2;
                assert(keys(found@)[m] == k);
            }
        }
    }
    pairs
}

/// The groups of moves, in order.
pub fn group_moves(moves: &Vec<Move>) -> (groups: Vec<MoveGroup>)
    ensures
        groups_ascend(keys(groups@)),
        keys(groups@).to_set() == group_set(moves_view(moves@)),
{
    let ghost all = moves_view(moves@);
    let pairs = move_pairs(moves);
    let mut counted: Vec<MoveGroup> = Vec::new();
    let mut i: usize = 0;
    while i < pairs.len()
        invariant
            i <= pairs@.len(),
            counted@.len() == i,
            all == moves_view(moves@),
            forall|g: int|
                0 <= g < i ==> (#[trigger] keys(counted@)[g]) == (
                    movers(all, keys(pairs@)[g].1, keys(pairs@)[g].2).len(),
                    keys(pairs@)[g].1,
                    keys(pairs@)[g].2,
                ),
        decreases pairs@.len() - i,
    {
        let ghost before = keys(counted@);
        let pair = pairs[i];
        assert(keys(pairs@)[i as int] == pair.key());
        let count: usize = count_movers(moves, pair.old_asn, pair.new_asn);
        let group = MoveGroup { count, old_asn: pair.old_asn, new_asn: pair.new_asn };
        counted.push(group);
        assert(keys(counted@) =~= before.push(group.key()));
        i = i + 1;
    }
    let ordered = sorted(&counted);
    proof {
        lemma_ascending::<MoveGroup>(keys(counted@));
    }
    let groups = drop_repeats(&ordered);
    proof {
        lemma_groups_set(all, keys(pairs@), keys(counted@), keys(ordered@));
    }
    groups
}

proof fn lemma_groups_set(
    all: Seq<(Seq<char>, u32, u32)>,
    pairs: Seq<(nat, u32, u32)>,
    counted: Seq<(nat, u32, u32)>,
    ordered: Seq<(nat, u32, u32)>,
)
    requires
        pairs_of(pairs, all),
        counted.len() == pairs.len(),
        forall|g: int|
            0 <= g < pairs.len() ==> (#[trigger] counted[g]) == (
                movers(all, pairs[g].1, pairs[g].2).len(),
                pairs[g].1,
                pairs[g].2,
            ),
        ordered == ascending::<MoveGroup>(counted),
    ensures
        ordered.to_set() == group_set(all),
{
    lemma_ascending::<MoveGroup>(counted);
    counted.to_multiset_ensures();
    ordered.to_multiset_ensures();
    assert forall|k: (nat, u32, u32)| #[trigger]
        ordered.to_set().contains(k) == group_set(all).contains(k) by {
        assert(ordered.to_multiset().count(k) == counted.to_multiset().count(k));
        assert(ordered.contains(k) == counted.contains(k));
        assert(ordered.to_set().contains(k) == ordered.contains(k));
        lemma_movers(all, k.1, k.2);
        if counted.contains(k) {
            let g = choose|g: int| 0 <= g < counted.len() && counted[g] == k;
            assert(pairs.contains(pairs[g]));
        }
        if group_set(all).contains(k) {
            let pair = (0nat, k.1, k.2);
            assert(pairs.contains(pair));
            let g = choose|g: int| 0 <= g < pairs.len() && pairs[g] == pair;
            assert(counted[g] == k);
        }
    }
    assert(ordered.to_set() =~= group_set(all));
}

/// Leaves out groups that repeat the one before them.
fn drop_repeats(ordered: &Vec<MoveGroup>) -> (groups: Vec<MoveGroup>)
    requires
        sorted_by(keys(ordered@), order::<MoveGroup>()),
    ensures
        groups_ascend(keys(groups@)),
        keys(groups@).to_set() == keys(ordered@).to_set(),
{
    let mut groups: Vec<MoveGroup> = Vec::new();
    let mut i: usize = 0;
    let ghost all = keys(ordered@);
    while i < ordered.len()
        invariant
            i <= ordered@.len(),
            all == keys(ordered@),
            sorted_by(all, order::<MoveGroup>()),
            groups_ascend(keys(groups@)),
            groups@.len() > 0 ==> i > 0 && groups@.last() == ordered@[i - 1],
            i > 0 ==> groups@.len() > 0,
            forall|x: int| 0 <= x < i ==> keys(groups@).contains(#[trigger] all[x]),
            forall|g: int| 0 <= g < groups@.len() ==> all.contains(#[trigger] keys(groups@)[g]),
        decreases ordered@.len() - i,
    {
        let item = ordered[i];
        let ghost before = keys(groups@);
        assert(all[i as int] == item.key());
        let n: usize = groups.len();
        if n > 0 && groups[n - 1].count == item.count && groups[n - 1].old_asn == item.old_asn
            && groups[n - 1].new_asn == item.new_asn {
            assert(before[n - 1] == all[i as int]);
        } else {
            groups.push(item);
            proof {
                let after = keys(groups@);
                assert(after =~= before.push(item.key()));
                assert forall|x: int, y: int| 0 <= x < y < after.len() implies group_le(
                    #[trigger] after[x],
                    #[trigger] after[y],
                ) && after[x] != after[y] by {
                    if y < n {
                        assert(after[x] == before[x] && after[y] == before[y]);
                    } else {
                        assert(before[n - 1] == groups@[n - 1].key());
                        assert(all[i - 1] == before[n - 1]);
                        let leq = order::<MoveGroup>();
                        assert(leq(all[i - 1], all[i as int]));
                        if x < n - 1 {
                            assert(group_le(before[x], before[n - 1]) && before[x] != before[n - 1]);
                        }
                        assert(after[x] == before[x]);
                    }
                }
                assert forall|x: int| 0 <= x < i + 1 implies after.contains(#[trigger] all[x]) by {
                    if x < i {
                        assert(before.contains(all[x]));
                        let g = choose|g: int| 0 <= g < before.len() && before[g] == all[x];
                        assert(after[g] == all[x]);
                    } else {
                        assert(after[n as int] == all[x]);
                    }
                }
                assert forall|g: int| 0 <= g < groups@.len() implies all.contains(
                    #[trigger] after[g],
                ) by {
                    if g < n {
                        assert(after[g] == before[g]);
                    } else {
                        assert(all[i as int] == after[g]);
                    }
                }
            }
        }
        i = i + 1;
    }
    proof {
        let done = keys(groups@);
        assert forall|k: (nat, u32, u32)| #[trigger] done.to_set().contains(k)
            == all.to_set().contains(k) by {
            if done.contains(k) {
                let g = choose|g: int| 0 <= g < done.len() && done[g] == k;
                assert(all.contains(done[g]));
            }
            if all.contains(k) {
                let x = choose|x: int| 0 <= x < all.len() && all[x] == k;
                assert(done.contains(all[x]));
            }
        }
        assert(done.to_set() =~= all.to_set());
    }
    groups
}

/// How a number is named, zero for none.
pub open spec fn asn_name(asn: u32) -> Seq<char> {
    if asn == 0 {
        "unassigned"@
    } else {
        "AS"@ + decimal(asn as nat)
    }
}

/// Texts with commas between them.
pub open spec fn comma_list(list: Seq<Seq<char>>) -> Seq<char>
    decreases list.len(),
{
    if list.len() == 0 {
        Seq::empty()
    } else if list.len() == 1 {
        list[0]
    } else {
        comma_list(list.drop_last()) + ", "@ + list.last()
    }
}

/// Joins texts with commas.
pub(crate) fn join_texts(list: &Vec<String>) -> (text: String)
    ensures
        text@ == comma_list(texts(list@)),
{
    let ghost all = texts(list@);
    let mut text = String::new();
    let mut i: usize = 0;
    assert(all.take(0) =~= Seq::empty());
    assert(text@ =~= comma_list(all.take(0)));
    while i < list.len()
        invariant
            i <= list@.len(),
            all == texts(list@),
            text@ == comma_list(all.take(i as int)),
        decreases list@.len() - i,
    {
        let ghost next = all.take(i + 1);
        assert(next.drop_last() =~= all.take(i as int));
        assert(next.last() == list@[i as int]@);
        if i > 0 {
            text.append(", ");
        }
        text.append(list[i].as_str());
        assert(text@ =~= comma_list(next));
        i = i + 1;
    }
    assert(all.take(i as int) =~= all);
    text
}

/// A group of moves as it is listed.
pub open spec fn group_line(
    moves: Seq<(Seq<char>, u32, u32)>,
    group: (nat, u32, u32),
    show_addresses: bool,
) -> Seq<char> {
    let line = decimal(group.0) + " address(es) reassigned from "@ + asn_name(group.1) + " to "@
        + asn_name(group.2);
    if show_addresses {
        line + ": "@ + comma_list(movers(moves, group.1, group.2))
    } else {
        line
    }
}

fn push_asn_name(text: &mut String, asn: u32)
    ensures
        final(text)@ == old(text)@ + asn_name(asn),
{
    let ghost start = text@;
    if asn == 0 {
        text.append("unassigned");
    } else {
        text.append("AS");
        push_number(text, asn as u128, 10);
        assert(text@ =~= start + asn_name(asn));
    }
}

/// How many addresses move from assigned or unassigned space to assigned or
/// unassigned space.
pub open spec fn moves_between(
    moves: Seq<(Seq<char>, u32, u32)>,
    from_assigned: bool,
    to_assigned: bool,
) -> nat
    decreases moves.len(),
{
    if moves.len() == 0 {
        0
    } else {
        moves_between(moves.drop_last(), from_assigned, to_assigned) + if (moves.last().1 != 0)
            == from_assigned && (moves.last().2 != 0) == to_assigned {
            1nat
        } else {
            0nat
        }
    }
}

/// How addresses move between two maps.
#[derive(Debug, PartialEq, Eq)]
pub struct AddrReport {
    pub lines: Vec<String>,
    pub reassigned: usize,
    pub total: usize,
    pub migrations: usize,
    pub assignments: usize,
    pub unassignments: usize,
}

impl AddrReport {
    /// The report lists and counts these moves among `total` addresses.
    pub open spec fn reports(
        self,
        moves: Seq<(Seq<char>, u32, u32)>,
        total: nat,
        show_addresses: bool,
    ) -> bool {
        &&& exists|groups: Seq<(nat, u32, u32)>|
            {
                &&& groups_ascend(groups)
                &&& #[trigger] groups.to_set() == group_set(moves)
                &&& texts(self.lines@) == groups.map_values(
                    |g: (nat, u32, u32)| group_line(moves, g, show_addresses),
                )
            }
        &&& self.reassigned == moves.len()
        &&& self.total == total
        &&& self.migrations == moves_between(moves, true, true)
        &&& self.assignments == moves_between(moves, false, true)
        &&& self.unassignments == moves_between(moves, true, false)
    }
}

fn group_lines(moves: &Vec<Move>, groups: &Vec<MoveGroup>, show_addresses: bool) -> (lines: Vec<
    String,
>)
    ensures
        texts(lines@) == keys(groups@).map_values(
            |g: (nat, u32, u32)| group_line(moves_view(moves@), g, show_addresses),
        ),
{
    let ghost all = moves_view(moves@);
    let mut lines: Vec<String> = Vec::new();
    let mut i: usize = 0;
    while i < groups.len()
        invariant
            i <= groups@.len(),
            all == moves_view(moves@),
            lines@.len() == i,
            forall|j: int|
                0 <= j < i ==> (#[trigger] lines@[j])@ == group_line(
                    all,
                    keys(groups@)[j],
                    show_addresses,
                ),
        decreases groups@.len() - i,
    {
        let group = groups[i];
        assert(keys(groups@)[i as int] == group.key());
        let mut line = decimal_text(group.count as u128);
        line.append(" address(es) reassigned from ");
        push_asn_name(&mut line, group.old_asn);
        line.append(" to ");
        push_asn_name(&mut line, group.new_asn);
        if show_addresses {
            let list = collect_movers(moves, group.old_asn, group.new_asn);
            line.append(": ");
            line.append(join_texts(&list).as_str());
        }
        lines.push(line);
        i = i + 1;
    }
    assert(texts(lines@) =~= keys(groups@).map_values(
        |g: (nat, u32, u32)| group_line(all, g, show_addresses),
    ));
    lines
}

/// Lists and counts the addresses whose number changes from one map to another,
/// or gives back the first text that is not an address.
pub fn diff_addresses(
    left: &ASMap,
    right: &ASMap,
    addresses: &Vec<String>,
    show_addresses: bool,
) -> (report: Result<AddrReport, String>)
    requires
        left.wf(),
        right.wf(),
    ensures
        match (report, moved(texts(addresses@), left@, right@)) {
            (Ok(r), Ok(moves)) => r.reports(moves, addresses@.len(), show_addresses),
            (Err(text), Err(t)) => text@ == t,
            _ => false,
        },
{
    let moves = match find_moves(left, right, addresses) {
        Ok(moves) => moves,
        Err(text) => {
            return Err(text);
        },
    };
    let ghost all = moves_view(moves@);
    let groups = group_moves(&moves);
    let lines = group_lines(&moves, &groups, show_addresses);
    let mut migrations: usize = 0;
    let mut assignments: usize = 0;
    let mut unassignments: usize = 0;
    let mut i: usize = 0;
    assert(all.take(0) =~= Seq::empty());
    while i < moves.len()
        invariant
            i <= moves@.len(),
            all == moves_view(moves@),
            migrations <= i,
            assignments <= i,
            unassignments <= i,
            migrations == moves_between(all.take(i as int), true, true),
            assignments == moves_between(all.take(i as int), false, true),
            unassignments == moves_between(all.take(i as int), true, false),
        decreases moves@.len() - i,
    {
        assert(all.take(i + 1).drop_last() =~= all.take(i as int));
        let m = &moves[i];
        assert(all.take(i + 1).last() == (m.address@, m.old_asn, m.new_asn));
        if m.old_asn != 0 && m.new_asn != 0 {
            migrations = migrations + 1;
        } else if m.old_asn == 0 && m.new_asn != 0 {
            assignments = assignments + 1;
        } else if m.old_asn != 0 {
            unassignments = unassignments + 1;
        }
        i = i + 1;
    }
    assert(all.take(i as int) =~= all);
    let report = AddrReport {
        lines,
        reassigned: moves.len(),
        total: addresses.len(),
        migrations,
        assignments,
        unassignments,
    };
    assert(report.reports(all, addresses@.len(), show_addresses)) by {
        assert(keys(groups@).to_set() == group_set(all));
    }
    Ok(report)
}

/// What is said of a text that is not an address.
pub open spec fn invalid_address_text(address: Seq<char>) -> Seq<char> {
    "invalid address '"@ + address + "'"@
}

/// What is said of a text that is not an address.
pub fn invalid_address_message(address: &str) -> (message: String)
    ensures
        message@ == invalid_address_text(address@),
{
    let mut message = "invalid address '".to_owned();
    message.append(address);
    message.append("'");
    message
}

/// Every address that moves is a migration, an assignment or an unassignment.
pub proof fn moves_are_of_three_sorts(
    addresses: Seq<Seq<char>>,
    left: TrieNode,
    right: TrieNode,
)
    requires
        moved(addresses, left, right) is Ok,
    ensures
        ({
            let moves = moved(addresses, left, right)->Ok_0;
            moves_between(moves, true, true) + moves_between(moves, false, true) + moves_between(
                moves,
                true,
                false,
            ) == moves.len()
        }),
    decreases addresses.len(),
{
    if addresses.len() > 0 {
        moves_are_of_three_sorts(addresses.drop_last(), left, right);
        let rest = moved(addresses.drop_last(), left, right)->Ok_0;
        let moves = moved(addresses, left, right)->Ok_0;
        if moves.len() > rest.len() {
            assert(moves.drop_last() =~= rest);
        }
    }
}

/// Of the differences between two maps those of space that was unassigned are
/// left out on request, and no others, and the order stays: what is kept is what
/// a filter on the old number keeps.
pub proof fn only_unassigned_space_is_left_out(
    diffs: Seq<(Seq<bool>, u32, u32)>,
    ignore_unassigned: bool,
)
    ensures
        ignore_unassigned ==> kept_changes(diffs, ignore_unassigned) == diffs.filter(
            |d: (Seq<bool>, u32, u32)| d.1 != 0,
        ),
        !ignore_unassigned ==> kept_changes(diffs, ignore_unassigned) == diffs,
    decreases diffs.len(),
{
    reveal(Seq::filter);
    if diffs.len() > 0 {
        only_unassigned_space_is_left_out(diffs.drop_last(), ignore_unassigned);
        assert(diffs.drop_last().push(diffs.last()) =~= diffs);
    } else {
        assert(diffs =~= Seq::empty());
    }
}

/// A change is kept exactly if it is a difference and, where unassigned space is
/// left out, its old number is not zero.
pub proof fn a_change_is_kept_by_its_old_number(
    diffs: Seq<(Seq<bool>, u32, u32)>,
    ignore_unassigned: bool,
    change: (Seq<bool>, u32, u32),
)
    ensures
        kept_changes(diffs, ignore_unassigned).contains(change) == (diffs.contains(change) && !(
        ignore_unassigned && change.1 == 0)),
    decreases diffs.len(),
{
    if diffs.len() > 0 {
        let less = diffs.drop_last();
        let rest = kept_changes(less, ignore_unassigned);
        let all = kept_changes(diffs, ignore_unassigned);
        a_change_is_kept_by_its_old_number(less, ignore_unassigned, change);
        if less.contains(change) {
            let i = choose|i: int| 0 <= i < less.len() && less[i] == change;
            assert(diffs[i] == change);
        }
        if diffs.contains(change) && change != diffs.last() {
            let i = choose|i: int| 0 <= i < diffs.len() && diffs[i] == change;
            assert(less[i] == change);
        }
        if change == diffs.last() {
            assert(diffs[diffs.len() - 1] == change);
        }
        if rest.contains(change) {
            let i = choose|i: int| 0 <= i < rest.len() && rest[i] == change;
            assert(all[i] == change);
        }
        if all.contains(change) && !rest.contains(change) {
            let i = choose|i: int| 0 <= i < all.len() && all[i] == change;
            if i < rest.len() {
                assert(rest[i] == change);
            }
            assert(change == diffs.last());
        }
        if change == diffs.last() && !(ignore_unassigned && change.1 == 0) {
            assert(all[all.len() - 1] == change);
        }
    }
}

/// How changes are listed: the network with its new number and the old one as a
/// comment, and as a comment altogether where the network has no number any more.
pub proof fn changes_are_listed_with_both_numbers(
    report: DiffReport,
    changes: Seq<(Seq<bool>, u32, u32)>,
    i: int,
)
    requires
        report.reports(changes),
        0 <= i < changes.len(),
    ensures
        report.lines@.len() == changes.len(),
        ({
            let (bits, old_asn, new_asn) = changes[i];
            let net = network_text(bits);
            let line = report.lines@[i]@;
            &&& new_asn == 0 ==> line == "# "@ + net + " was AS"@ + decimal(old_asn as nat)
            &&& new_asn != 0 && old_asn == 0 ==> line == net + " AS"@ + decimal(new_asn as nat)
                + " # was unassigned"@
            &&& new_asn != 0 && old_asn != 0 ==> line == net + " AS"@ + decimal(new_asn as nat)
                + " # was AS"@ + decimal(old_asn as nat)
        }),
{
    let lines = changes.map_values(|d: (Seq<bool>, u32, u32)| diff_line(d));
    assert(texts(report.lines@).len() == lines.len());
    assert(texts(report.lines@)[i] == lines[i]);
    assert(texts(report.lines@)[i] == report.lines@[i]@);
}

/// What the counts of a report are: one more change adds one entry and the
/// addresses of its block to the counts of its version of addresses and nothing
/// to the others. Blocks of IPv4 addresses are those behind eighty zeros and
/// sixteen ones.
pub proof fn counts_add_up_block_by_block(
    changes: Seq<(Seq<bool>, u32, u32)>,
    change: (Seq<bool>, u32, u32),
    before: DiffReport,
    after: DiffReport,
)
    requires
        0 < change.0.len() <= 128,
        before.reports(changes),
        after.reports(changes.push(change)),
    ensures
        ({
            let ipv4 = change.0.len() >= 96 && forall|i: int|
                0 <= i < 96 ==> #[trigger] change.0[i] == (i >= 80);
            let size = pow2((128 - change.0.len()) as nat);
            &&& ipv4 ==> after.ipv4_entries == before.ipv4_entries + 1 && after.ipv4_addresses
                == before.ipv4_addresses + size && after.ipv6_entries == before.ipv6_entries
                && after.ipv6_addresses == before.ipv6_addresses
            &&& !ipv4 ==> after.ipv6_entries == before.ipv6_entries + 1 && after.ipv6_addresses
                == before.ipv6_addresses + size && after.ipv4_entries == before.ipv4_entries
                && after.ipv4_addresses == before.ipv4_addresses
        }),
{
    assert(changes.push(change).drop_last() =~= changes);
    mapped_prefixes_are_ipv4(change.0);
}

/// Where nothing changes nothing is counted or listed.
pub proof fn no_changes_count_nothing(report: DiffReport)
    requires
        report.reports(Seq::empty()),
    ensures
        report.lines@.len() == 0,
        report.ipv4_entries == 0,
        report.ipv4_addresses == 0,
        report.ipv6_entries == 0,
        report.ipv6_addresses == 0,
{
    assert(texts(report.lines@).len() == report.lines@.len());
}

/// The number found for an address is the one that the map has for the path of
/// all its bits: 32 behind the prefix of IPv4 addresses, or 128.
pub proof fn addresses_are_looked_up_by_all_their_bits(
    trie: TrieNode,
    ip: IpAddr,
    path: spec_fn(int) -> bool,
)
    requires
        forall|i: nat|
            i < 128 ==> #[trigger] path(i as int) == match ip {
                IpAddr::V4(v) => if i < 80 {
                    false
                } else if i < 96 {
                    true
                } else {
                    (v as nat / pow2((127 - i) as nat)) % 2 == 1
                },
                IpAddr::V6(v) => (v as nat / pow2((127 - i) as nat)) % 2 == 1,
            },
        forall|p: spec_fn(int) -> bool, q: spec_fn(int) -> bool|
            (forall|i: int| 0 <= i < 128 ==> #[trigger] p(i) == q(i)) ==> #[trigger] trie.value(
                p,
                0,
            ) == #[trigger] trie.value(q, 0),
    ensures
        asn_at(trie, ip) == trie.value(path, 0),
{
    let bits = prefix_bits(ip, ip.width());
    prefix_bits_are_address_bits(ip, ip.width(), 0);
    assert(bits.len() == 128);
    assert forall|i: int| 0 <= i < 128 implies path(i) == #[trigger] bits[i] by {
        assert(path((i as nat) as int) == path(i));
        match ip {
            IpAddr::V4(_) => {
                if i < 96 {
                    prefix_bits_are_address_bits(ip, 32, i as nat);
                } else {
                    prefix_bits_are_address_bits(ip, 32, (i - 96) as nat);
                    assert(31 - (i - 96) == 127 - i);
                    assert(bits[96int + (i - 96) as nat] == bits[i]);
                }
            },
            IpAddr::V6(_) => {
                prefix_bits_are_address_bits(ip, 128, i as nat);
            },
        }
    }
    assert(leads_to(path, bits)) by {
        assert forall|i: int| 0 <= i < bits.len() implies #[trigger] path(i) == bits[i] by {}
    }
    assert forall|p: spec_fn(int) -> bool, q: spec_fn(int) -> bool|
        leads_to(p, bits) && leads_to(q, bits) implies #[trigger] trie.value(p, 0)
        == #[trigger] trie.value(q, 0) by {
        assert forall|i: int| 0 <= i < 128 implies #[trigger] p(i) == q(i) by {
            assert(p(i) == bits[i] && q(i) == bits[i]);
        }
    }
    lookups_cover_every_path(trie, bits, path);
}

/// The addresses that move are those whose number in one map differs from that in
/// the other, in order, each with both numbers; the first text that is no address
/// is an error.
pub proof fn addresses_move_if_their_numbers_differ(
    addresses: Seq<Seq<char>>,
    left: TrieNode,
    right: TrieNode,
)
    ensures
        match moved(addresses, left, right) {
            Ok(moves) => {
                &&& forall|i: int|
                    0 <= i < addresses.len() ==> ip_read(#[trigger] addresses[i]) is Some
                &&& moves.map_values(|m: (Seq<char>, u32, u32)| m.0) == addresses.filter(
                    |text: Seq<char>|
                        asn_at(left, ip_read(text)->0) != asn_at(right, ip_read(text)->0),
                )
                &&& forall|i: int|
                    0 <= i < moves.len() ==> (#[trigger] moves[i]).1 == asn_at(
                        left,
                        ip_read(moves[i].0)->0,
                    ) && moves[i].2 == asn_at(right, ip_read(moves[i].0)->0)
            },
            Err(text) => exists|i: int|
                0 <= i < addresses.len() && #[trigger] addresses[i] == text && ip_read(text) is None
                    && forall|j: int| 0 <= j < i ==> ip_read(#[trigger] addresses[j]) is Some,
        },
    decreases addresses.len(),
{
    reveal(Seq::filter);
    let name = |m: (Seq<char>, u32, u32)| m.0;
    if addresses.len() == 0 {
        assert(Seq::<(Seq<char>, u32, u32)>::empty().map_values(name) =~= addresses);
    } else {
        let less = addresses.drop_last();
        let last = addresses.last();
        addresses_move_if_their_numbers_differ(less, left, right);
        assert(forall|i: int| 0 <= i < less.len() ==> less[i] == addresses[i]);
        match moved(less, left, right) {
            Err(text) => {
                let i = choose|i: int|
                    0 <= i < less.len() && #[trigger] less[i] == text && ip_read(text) is None
                        && forall|j: int| 0 <= j < i ==> ip_read(#[trigger] less[j]) is Some;
                assert(addresses[i] == text);
                assert forall|j: int| 0 <= j < i implies ip_read(
                    #[trigger] addresses[j],
                ) is Some by {
                    assert(ip_read(less[j]) is Some);
                }
            },
            Ok(rest) => {
                assert forall|j: int| 0 <= j < less.len() implies ip_read(
                    #[trigger] addresses[j],
                ) is Some by {
                    assert(ip_read(less[j]) is Some);
                }
                assert(addresses[addresses.len() - 1] == last);
                if let Ok(moves) = moved(addresses, left, right) {
                    if moves.len() > rest.len() {
                        assert(moves.map_values(name) =~= rest.map_values(name).push(last));
                    }
                }
            },
        }
    }
}

/// A move from one number to the other.
pub open spec fn goes(old_asn: u32, new_asn: u32) -> spec_fn((Seq<char>, u32, u32)) -> bool {
    |m: (Seq<char>, u32, u32)| m.1 == old_asn && m.2 == new_asn
}

/// The addresses of one kind of move are those with its two numbers, in order.
pub proof fn movers_share_both_numbers(
    moves: Seq<(Seq<char>, u32, u32)>,
    old_asn: u32,
    new_asn: u32,
)
    ensures
        movers(moves, old_asn, new_asn) == moves.filter(goes(old_asn, new_asn)).map_values(
            |m: (Seq<char>, u32, u32)| m.0,
        ),
    decreases moves.len(),
{
    reveal(Seq::filter);
    let name = |m: (Seq<char>, u32, u32)| m.0;
    let same = goes(old_asn, new_asn);
    if moves.len() == 0 {
        assert(moves.filter(same).map_values(name) =~= Seq::empty());
    } else {
        movers_share_both_numbers(moves.drop_last(), old_asn, new_asn);
        let rest = moves.drop_last().filter(same);
        if same(moves.last()) {
            assert(rest.push(moves.last()).map_values(name) =~= rest.map_values(name).push(
                moves.last().0,
            ));
        }
    }
}

/// What the counts of moves are.
pub proof fn moves_are_counted_by_their_ends(
    report: AddrReport,
    moves: Seq<(Seq<char>, u32, u32)>,
    total: nat,
    show_addresses: bool,
)
    requires
        report.reports(moves, total, show_addresses),
    ensures
        report.total == total,
        report.reassigned == moves.len(),
        report.migrations == moves.filter(
            |m: (Seq<char>, u32, u32)| m.1 != 0 && m.2 != 0,
        ).len(),
        report.assignments == moves.filter(
            |m: (Seq<char>, u32, u32)| m.1 == 0 && m.2 != 0,
        ).len(),
        report.unassignments == moves.filter(
            |m: (Seq<char>, u32, u32)| m.1 != 0 && m.2 == 0,
        ).len(),
{
    lemma_moves_between(moves);
}

proof fn lemma_moves_between(moves: Seq<(Seq<char>, u32, u32)>)
    ensures
        moves_between(moves, true, true) == moves.filter(
            |m: (Seq<char>, u32, u32)| m.1 != 0 && m.2 != 0,
        ).len(),
        moves_between(moves, false, true) == moves.filter(
            |m: (Seq<char>, u32, u32)| m.1 == 0 && m.2 != 0,
        ).len(),
        moves_between(moves, true, false) == moves.filter(
            |m: (Seq<char>, u32, u32)| m.1 != 0 && m.2 == 0,
        ).len(),
    decreases moves.len(),
{
    reveal(Seq::filter);
    if moves.len() > 0 {
        lemma_moves_between(moves.drop_last());
    }
}

/// How moves are listed: one line for each pair of numbers between which
/// addresses move, with how many do, most first, and then by the old and the new
/// number.
pub proof fn moves_are_listed_most_first(
    report: AddrReport,
    moves: Seq<(Seq<char>, u32, u32)>,
    total: nat,
    show_addresses: bool,
)
    requires
        report.reports(moves, total, show_addresses),
    ensures
        exists|groups: Seq<(nat, u32, u32)>|
            {
                &&& #[trigger] groups.len() == report.lines@.len()
                &&& forall|i: int, j: int|
                    0 <= i < j < groups.len() ==> {
                        let (a, b) = (#[trigger] groups[i], #[trigger] groups[j]);
                        a.0 > b.0 || (a.0 == b.0 && (a.1 < b.1 || (a.1 == b.1 && a.2 < b.2)))
                    }
                &&& forall|n: nat, a: u32, b: u32| #[trigger]
                    groups.contains((n, a, b)) == (n > 0 && n == moves.filter(goes(a, b)).len())
                &&& forall|i: int|
                    0 <= i < groups.len() ==> {
                        let (count, old_asn, new_asn) = #[trigger] groups[i];
                        let head = decimal(count) + " address(es) reassigned from "@ + asn_name(
                            old_asn,
                        ) + " to "@ + asn_name(new_asn);
                        report.lines@[i]@ == if show_addresses {
                            head + ": "@ + comma_list(
                                moves.filter(goes(old_asn, new_asn)).map_values(
                                    |m: (Seq<char>, u32, u32)| m.0,
                                ),
                            )
                        } else {
                            head
                        }
                    }
            },
{
    let groups = choose|groups: Seq<(nat, u32, u32)>|
        {
            &&& groups_ascend(groups)
            &&& #[trigger] groups.to_set() == group_set(moves)
            &&& texts(report.lines@) == groups.map_values(
                |g: (nat, u32, u32)| group_line(moves, g, show_addresses),
            )
        };
    let lines = groups.map_values(|g: (nat, u32, u32)| group_line(moves, g, show_addresses));
    assert(texts(report.lines@).len() == lines.len());
    assert forall|i: int, j: int| 0 <= i < j < groups.len() implies {
        let (a, b) = (#[trigger] groups[i], #[trigger] groups[j]);
        a.0 > b.0 || (a.0 == b.0 && (a.1 < b.1 || (a.1 == b.1 && a.2 < b.2)))
    } by {
        assert(group_le(groups[i], groups[j]) && groups[i] != groups[j]);
    }
    assert forall|n: nat, a: u32, b: u32| #[trigger]
        groups.contains((n, a, b)) == (n > 0 && n == moves.filter(goes(a, b)).len()) by {
        movers_share_both_numbers(moves, a, b);
        let kept = moves.filter(goes(a, b));
        let names = kept.map_values(|m: (Seq<char>, u32, u32)| m.0);
        assert(names.len() == kept.len());
        assert(movers(moves, a, b) == names);
        assert(groups.contains((n, a, b)) == groups.to_set().contains((n, a, b)));
        assert(group_set(moves).contains((n, a, b)) == (n == movers(moves, a, b).len() && n > 0));
    }
    assert forall|i: int| 0 <= i < groups.len() implies {
        let (count, old_asn, new_asn) = #[trigger] groups[i];
        let head = decimal(count) + " address(es) reassigned from "@ + asn_name(old_asn) + " to "@
            + asn_name(new_asn);
        report.lines@[i]@ == if show_addresses {
            head + ": "@ + comma_list(
                moves.filter(goes(old_asn, new_asn)).map_values(
                    |m: (Seq<char>, u32, u32)| m.0,
                ),
            )
        } else {
            head
        }
    } by {
        let (count, old_asn, new_asn) = groups[i];
        movers_share_both_numbers(moves, old_asn, new_asn);
        assert(texts(report.lines@)[i] == lines[i]);
        assert(texts(report.lines@)[i] == report.lines@[i]@);
    }
}

/// How numbers are named and lists are joined.
pub proof fn names_and_lists(asn: u32, list: Seq<Seq<char>>, last: Seq<char>)
    ensures
        asn_name(0) == "unassigned"@,
        asn != 0 ==> asn_name(asn) == "AS"@ + decimal(asn as nat),
        comma_list(Seq::empty()) == Seq::<char>::empty(),
        comma_list(seq![last]) == last,
        list.len() > 0 ==> comma_list(list.push(last)) == comma_list(list) + ", "@ + last,
{
    assert(list.push(last).drop_last() =~= list);
}

/// Of a list of addresses those are looked at whose network is one of IPv4 or of
/// IPv6, in order.
pub proof fn ip_addresses_are_picked_by_network(list: Seq<AddrInfo>)
    ensures
        ip_addresses(list) == list.filter(
            |a: AddrInfo| a.network@ == "ipv4"@ || a.network@ == "ipv6"@,
        ).map_values(|a: AddrInfo| a.address@),
    decreases list.len(),
{
    reveal(Seq::filter);
    let ip = |a: AddrInfo| a.network@ == "ipv4"@ || a.network@ == "ipv6"@;
    let text = |a: AddrInfo| a.address@;
    if list.len() == 0 {
        assert(list.filter(ip).map_values(text) =~= Seq::empty());
    } else {
        ip_addresses_are_picked_by_network(list.drop_last());
        let rest = list.drop_last().filter(ip);
        if ip(list.last()) {
            assert(rest.push(list.last()).map_values(text) =~= rest.map_values(text).push(
                list.last().address@,
            ));
        }
    }
}

/// What is said about an address that is none, and when a move goes from one number
/// to another.
pub proof fn moves_have_two_ends(
    address: Seq<char>,
    move_: (Seq<char>, u32, u32),
    old_asn: u32,
    new_asn: u32,
)
    ensures
        invalid_address_text(address) == "invalid address '"@ + address + "'"@,
        goes(old_asn, new_asn)(move_) == (move_.1 == old_asn && move_.2 == new_asn),
{
}

/// Changes can be listed if no prefix is longer than an address and the addresses
/// that they count fit into 128 bits.
pub proof fn changes_can_be_listed(changes: Seq<(Seq<bool>, u32, u32)>)
    ensures
        diff_fits(changes) <==> (forall|i: int|
            0 <= i < changes.len() ==> (#[trigger] changes[i]).0.len() <= 128) && addresses_changed(
            changes,
            true,
        ) <= u128::MAX && addresses_changed(changes, false) <= u128::MAX,
{
}

/// Moves are taken as they stand.
pub proof fn moves_are_taken_as_they_stand(moves: Seq<Move>, i: int)
    requires
        0 <= i < moves.len(),
    ensures
        moves_view(moves).len() == moves.len(),
        moves_view(moves)[i] == (moves[i].address@, moves[i].old_asn, moves[i].new_asn),
{
}

/// Moves are grouped by their two numbers, and the groups ascend by falling size,
/// then by the old and the new number.
pub proof fn moves_are_grouped_by_their_ends(
    moves: Seq<(Seq<char>, u32, u32)>,
    groups: Seq<(nat, u32, u32)>,
    n: nat,
    a: u32,
    b: u32,
    i: int,
    j: int,
)
    ensures
        group_set(moves).contains((n, a, b)) == (n > 0 && n == moves.filter(goes(a, b)).len()),
        groups_ascend(groups) && 0 <= i < j < groups.len() ==> {
            let (x, y) = (groups[i], groups[j]);
            x.0 > y.0 || (x.0 == y.0 && (x.1 < y.1 || (x.1 == y.1 && x.2 < y.2)))
        },
{
    movers_share_both_numbers(moves, a, b);
    let kept = moves.filter(goes(a, b));
    assert(kept.map_values(|m: (Seq<char>, u32, u32)| m.0).len() == kept.len());
    if groups_ascend(groups) && 0 <= i < j < groups.len() {
        assert(group_le(groups[i], groups[j]) && groups[i] != groups[j]);
    }
}

/// A group is known by its size and its two numbers.
pub proof fn groups_are_known_by_size_and_ends(group: MoveGroup)
    ensures
        group.key() == (group.count as nat, group.old_asn, group.new_asn),
{
}

} // verus!
