//! Bottlenecks: the first network that all routes to a prefix have in common.

use crate::addr::IpAddr;
use crate::mrt::{as_path, format_ip, paths_view, prefix_address, AsPathParser, PrefixBytesError};
use crate::net::{ip_to_bits, prefix_bits};
use crate::prefix::{masked, RoutingPrefix};
use crate::sort::{ascending, keys, lemma_ascending, order, sorted, Ordered};
use crate::text::{decimal, push_number};
use crate::trie::{entries_view, resolve, ASMap, ASNEntry};
use crate::votes::texts;
use vstd::prelude::*;

verus! {

/// A prefix of a dump with the attributes of its routes.
#[derive(Debug, PartialEq, Eq)]
pub struct RibRecord {
    pub is_ipv4: bool,
    /// The bytes of the prefix, without those behind its last bit.
    pub prefix: Vec<u8>,
    pub prefix_length: u8,
    /// The attributes of each route.
    pub attributes: Vec<Vec<u8>>,
}

/// A path without immediate repetitions.
pub open spec fn deduped(path: Seq<u32>) -> Seq<u32>
    decreases path.len(),
{
    if path.len() == 0 {
        Seq::empty()
    } else {
        let rest = deduped(path.drop_last());
        if rest.len() > 0 && rest.last() == path.last() {
            rest
        } else {
            rest.push(path.last())
        }
    }
}

fn dedup(path: &Vec<u32>) -> (out: Vec<u32>)
    ensures
        out@ == deduped(path@),
{
    let mut out: Vec<u32> = Vec::new();
    let mut i: usize = 0;
    assert(path@.take(0) =~= Seq::empty());
    while i < path.len()
        invariant
            i <= path@.len(),
            out@ == deduped(path@.take(i as int)),
        decreases path@.len() - i,
    {
        assert(path@.take(i + 1).drop_last() =~= path@.take(i as int));
        let n: usize = out.len();
        if n == 0 || out[n - 1] != path[i] {
            out.push(path[i]);
        }
        i = i + 1;
    }
    assert(path@.take(i as int) =~= path@);
    out
}

/// A prefix with a path to it.
#[derive(Debug, PartialEq, Eq)]
pub struct Route {
    pub prefix: RoutingPrefix,
    pub path: Vec<u32>,
}

/// Routes in the order in which they were read.
#[derive(Debug, PartialEq, Eq)]
pub struct RouteTable {
    pub routes: Vec<Route>,
}

impl View for RouteTable {
    type V = Seq<(RoutingPrefix, Seq<u32>)>;

    open spec fn view(&self) -> Seq<(RoutingPrefix, Seq<u32>)> {
        self.routes@.map_values(|r: Route| (r.prefix, r.path@))
    }
}

/// The routes that attributes describe; attributes without a path describe none.
pub open spec fn attribute_routes(attributes: Seq<Vec<u8>>, prefix: RoutingPrefix) -> Seq<
    (RoutingPrefix, Seq<u32>),
>
    decreases attributes.len(),
{
    if attributes.len() == 0 {
        Seq::empty()
    } else {
        let rest = attribute_routes(attributes.drop_last(), prefix);
        match as_path(attributes.last()@) {
            Ok(path) => rest.push((prefix, deduped(path))),
            Err(_) => rest,
        }
    }
}

/// The prefix of a record, with its host bits cleared.
pub open spec fn record_prefix(record: RibRecord) -> Result<RoutingPrefix, PrefixBytesError> {
    match prefix_address(record.prefix@, record.is_ipv4) {
        Ok(ip) => Ok(
            RoutingPrefix {
                ip: masked(ip, record.prefix_length as nat),
                mask: record.prefix_length,
            },
        ),
        Err(e) => Err(e),
    }
}

impl RouteTable {
    /// No routes.
    pub fn new() -> (table: RouteTable)
        ensures
            table@ == Seq::<(RoutingPrefix, Seq<u32>)>::empty(),
    {
        let table = RouteTable { routes: Vec::new() };
        assert(table@ =~= Seq::empty());
        table
    }

    /// Adds the routes to an address of a record.
    pub fn match_rib_entry(&mut self, attributes: &Vec<Vec<u8>>, ip: IpAddr, mask: u8)
        ensures
            final(self)@ == old(self)@ + attribute_routes(
                attributes@,
                (RoutingPrefix { ip: masked(ip, mask as nat), mask }),
            ),
    {
        let prefix = RoutingPrefix::canonicalized(ip, mask);
        let ghost start = self@;
        let mut i: usize = 0;
        assert(attributes@.take(0) =~= Seq::empty());
        assert(start + Seq::empty() =~= start);
        while i < attributes.len()
            invariant
                i <= attributes@.len(),
                self@ == start + attribute_routes(attributes@.take(i as int), prefix),
            decreases attributes@.len() - i,
        {
            let ghost before = self@;
            let ghost done = attribute_routes(attributes@.take(i as int), prefix);
            assert(attributes@.take(i + 1).drop_last() =~= attributes@.take(i as int));
            match AsPathParser::parse(attributes[i].as_slice()) {
                Ok(path) => {
                    let path = dedup(&path);
                    self.routes.push(Route { prefix, path });
                    assert(self@ =~= before.push((prefix, path@)));
                    assert(start + done.push((prefix, path@)) =~= (start + done).push(
                        (prefix, path@),
                    ));
                },
                Err(_) => {},
            }
            i = i + 1;
        }
        assert(attributes@.take(i as int) =~= attributes@);
    }

    /// Adds the routes of a record.
    pub fn add_record(&mut self, record: &RibRecord) -> (added: Result<(), PrefixBytesError>)
        ensures
            match (added, record_prefix(*record)) {
                (Ok(_), Ok(prefix)) => final(self)@ == old(self)@ + attribute_routes(
                    record.attributes@,
                    prefix,
                ),
                (Err(e), Err(f)) => e == f && *final(self) == *old(self),
                _ => false,
            },
    {
        match format_ip(record.prefix.as_slice(), record.is_ipv4) {
            Ok(ip) => {
                self.match_rib_entry(&record.attributes, ip, record.prefix_length);
                Ok(())
            },
            Err(e) => Err(e),
        }
    }
}

/// The paths to a prefix, in order.
pub open spec fn paths_to(routes: Seq<(RoutingPrefix, Seq<u32>)>, prefix: RoutingPrefix) -> Seq<
    Seq<u32>,
>
    decreases routes.len(),
{
    if routes.len() == 0 {
        Seq::empty()
    } else {
        let rest = paths_to(routes.drop_last(), prefix);
        if routes.last().0 == prefix {
            rest.push(routes.last().1)
        } else {
            rest
        }
    }
}

/// Two paths end in the same network, or both go nowhere.
pub open spec fn same_origin(a: Seq<u32>, b: Seq<u32>) -> bool {
    a.len() == 0 && b.len() == 0 || a.len() > 0 && b.len() > 0 && a.last() == b.last()
}

/// A path has the last `n` steps of another.
pub open spec fn shares_end(path: Seq<u32>, other: Seq<u32>, n: int) -> bool {
    path.len() >= n && path.skip(path.len() - n) == other.skip(other.len() - n)
}

/// All paths to where `path` leads have its last `n` steps.
pub open spec fn all_share(paths: Seq<Seq<u32>>, path: Seq<u32>, n: int) -> bool {
    forall|i: int|
        0 <= i < paths.len() && same_origin(path, #[trigger] paths[i]) ==> shares_end(
            paths[i],
            path,
            n,
        )
}

/// The path at `i` is the first of the shortest ones.
pub open spec fn is_first_shortest(paths: Seq<Seq<u32>>, i: int) -> bool {
    &&& 0 <= i < paths.len()
    &&& forall|j: int|
        0 <= j < paths.len() ==> paths[i].len() <= (#[trigger] paths[j]).len() && (j < i
            ==> paths[i].len() < paths[j].len())
}

/// The longest end of the first shortest path that all paths to the same network
/// share.
pub open spec fn is_common_suffix(paths: Seq<Seq<u32>>, suffix: Seq<u32>) -> bool {
    exists|i: int|
        {
            &&& #[trigger] is_first_shortest(paths, i)
            &&& shares_end(paths[i], suffix, suffix.len() as int)
            &&& all_share(paths, paths[i], suffix.len() as int)
            &&& suffix.len() == paths[i].len() || !all_share(
                paths,
                paths[i],
                suffix.len() as int + 1,
            )
        }
}

/// Only one suffix is the common one.
pub proof fn the_common_suffix_is_unique(paths: Seq<Seq<u32>>, a: Seq<u32>, b: Seq<u32>)
    requires
        is_common_suffix(paths, a),
        is_common_suffix(paths, b),
    ensures
        a == b,
{
    let i = choose|i: int|
        {
            &&& #[trigger] is_first_shortest(paths, i)
            &&& shares_end(paths[i], a, a.len() as int)
            &&& all_share(paths, paths[i], a.len() as int)
            &&& a.len() == paths[i].len() || !all_share(paths, paths[i], a.len() as int + 1)
        };
    let j = choose|j: int|
        {
            &&& #[trigger] is_first_shortest(paths, j)
            &&& shares_end(paths[j], b, b.len() as int)
            &&& all_share(paths, paths[j], b.len() as int)
            &&& b.len() == paths[j].len() || !all_share(paths, paths[j], b.len() as int + 1)
        };
    assert(paths[i].len() == paths[j].len());
    assert(i == j);
    let p = paths[i];
    if a.len() < b.len() {
        lemma_share_less(paths, p, a.len() as int + 1, b.len() as int);
    } else if b.len() < a.len() {
        lemma_share_less(paths, p, b.len() as int + 1, a.len() as int);
    }
    assert(a =~= a.skip(0));
    assert(b =~= b.skip(0));
}

/// Sharing more steps is sharing fewer.
proof fn lemma_share_less(paths: Seq<Seq<u32>>, path: Seq<u32>, m: int, n: int)
    requires
        0 <= m <= n <= path.len(),
        all_share(paths, path, n),
    ensures
        all_share(paths, path, m),
{
    assert forall|i: int| 0 <= i < paths.len() && same_origin(path, #[trigger] paths[i]) implies
        shares_end(paths[i], path, m) by {
        let q = paths[i];
        assert(shares_end(q, path, n));
        assert(q.skip(q.len() - m) =~= q.skip(q.len() - n).skip(n - m));
        assert(path.skip(path.len() - m) =~= path.skip(path.len() - n).skip(n - m));
    }
}

/// The first of the shortest paths.
fn first_shortest(paths: &Vec<Vec<u32>>) -> (best: usize)
    requires
        paths@.len() > 0,
    ensures
        is_first_shortest(paths_view(paths@), best as int),
{
    let ghost view = paths_view(paths@);
    let mut best: usize = 0;
    let mut i: usize = 1;
    while i < paths.len()
        invariant
            best < i <= paths@.len(),
            view == paths_view(paths@),
            forall|j: int|
                0 <= j < i ==> view[best as int].len() <= (#[trigger] view[j]).len() && (j < best
                    ==> view[best as int].len() < view[j].len()),
        decreases paths@.len() - i,
    {
        assert(view[i as int] == paths@[i as int]@);
        assert(view[best as int] == paths@[best as int]@);
        if paths[i].len() < paths[best].len() {
            best = i;
        }
        i = i + 1;
    }
    best
}

/// How many of the last `limit` steps of a path another path shares.
fn shared_steps(path: &Vec<u32>, other: &Vec<u32>, limit: usize) -> (n: usize)
    requires
        limit <= path@.len(),
    ensures
        n <= limit,
        shares_end(other@, path@, n as int),
        n == limit || !shares_end(other@, path@, n + 1),
{
    let mut n: usize = 0;
    assert(other@.skip(other@.len() as int) =~= path@.skip(path@.len() as int));
    while n < limit && n < other.len() && other[other.len() - 1 - n] == path[path.len() - 1 - n]
        invariant
            n <= limit <= path@.len(),
            shares_end(other@, path@, n as int),
        decreases limit - n,
    {
        proof {
            let a = other@.skip(other@.len() - n - 1);
            let b = path@.skip(path@.len() - n - 1);
            assert(a =~= seq![other@[other@.len() - 1 - n]] + other@.skip(other@.len() - n));
            assert(b =~= seq![path@[path@.len() - 1 - n]] + path@.skip(path@.len() - n));
        }
        n = n + 1;
    }
    proof {
        if n < limit && shares_end(other@, path@, n + 1) {
            let a = other@.skip(other@.len() - n - 1);
            let b = path@.skip(path@.len() - n - 1);
            assert(a[0] == other@[other@.len() - 1 - n]);
            assert(b[0] == path@[path@.len() - 1 - n]);
        }
    }
    n
}

/// The longest end that the paths to the same network share.
pub fn find_common_suffix(paths: &Vec<Vec<u32>>) -> (suffix: Vec<u32>)
    requires
        paths@.len() > 0,
    ensures
        is_common_suffix(paths_view(paths@), suffix@),
{
    let ghost view = paths_view(paths@);
    let best: usize = first_shortest(paths);
    let path = &paths[best];
    let ghost p = path@;
    assert(view[best as int] == p);
    let len: usize = path.len();
    let mut n: usize = len;
    let mut i: usize = 0;
    assert(all_share(view.take(0), p, n as int));
    while i < paths.len()
        invariant
            i <= paths@.len(),
            n <= len == p.len(),
            p == path@,
            view == paths_view(paths@),
            all_share(view.take(i as int), p, n as int),
            n == len || !all_share(view.take(i as int), p, n + 1),
        decreases paths@.len() - i,
    {
        let other = &paths[i];
        let other_len: usize = other.len();
        let ghost before = view.take(i as int);
        let ghost after = view.take(i + 1);
        let ghost m = n as int;
        assert(after[i as int] == other@);
        let same: bool = if len == 0 {
            other_len == 0
        } else {
            other_len > 0 && other[other_len - 1] == path[len - 1]
        };
        if same {
            let shared: usize = shared_steps(path, other, n);
            n = shared;
        }
        proof {
            lemma_share_less(before, p, n as int, m);
            assert forall|j: int|
                0 <= j < after.len() && same_origin(p, #[trigger] after[j]) implies shares_end(
                after[j],
                p,
                n as int,
            ) by {
                if j < i {
                    assert(after[j] == before[j]);
                }
            }
            if n < len && all_share(after, p, n + 1) {
                assert forall|j: int|
                    0 <= j < before.len() && same_origin(p, #[trigger] before[j]) implies shares_end(
                    before[j],
                    p,
                    n + 1,
                ) by {
                    assert(before[j] == after[j]);
                }
                assert(all_share(before, p, n + 1));
                assert(n < m);
                assert(same_origin(p, after[i as int]));
                assert(shares_end(after[i as int], p, n + 1));
            }
        }
        i = i + 1;
    }
    assert(view.take(i as int) =~= view);
    let mut suffix: Vec<u32> = Vec::new();
    let mut k: usize = len - n;
    while k < len
        invariant
            len - n <= k <= len,
            n <= len == path@.len(),
            suffix@ == path@.subrange(len - n, k as int),
        decreases len - k,
    {
        suffix.push(path[k]);
        k = k + 1;
        assert(suffix@ =~= path@.subrange(len - n, k as int));
    }
    proof {
        assert(suffix@ =~= p.skip(len - n));
        assert(suffix@ =~= suffix@.skip(0));
        assert(shares_end(view[best as int], suffix@, suffix@.len() as int));
    }
    suffix
}

/// The order of prefixes: IPv4 first, then by address, then by length.
pub open spec fn prefix_le(a: RoutingPrefix, b: RoutingPrefix) -> bool {
    match (a.ip, b.ip) {
        (IpAddr::V4(_), IpAddr::V6(_)) => true,
        (IpAddr::V6(_), IpAddr::V4(_)) => false,
        _ => if a.ip.value() != b.ip.value() {
            a.ip.value() < b.ip.value()
        } else {
            a.mask <= b.mask
        },
    }
}

/// A route by its prefix and its position.
#[derive(Debug, Clone, Copy, PartialEq, Eq, Structural)]
pub struct RouteRef {
    pub prefix: RoutingPrefix,
    pub index: usize,
}

/// The order of routes: by prefix, then by position.
pub open spec fn route_le(a: (RoutingPrefix, nat), b: (RoutingPrefix, nat)) -> bool {
    if a.0 == b.0 {
        a.1 <= b.1
    } else {
        prefix_le(a.0, b.0)
    }
}

impl Ordered for RouteRef {
    type Key = (RoutingPrefix, nat);

    open spec fn key(&self) -> (RoutingPrefix, nat) {
        (self.prefix, self.index as nat)
    }

    open spec fn leq(a: (RoutingPrefix, nat), b: (RoutingPrefix, nat)) -> bool {
        route_le(a, b)
    }

    proof fn lemma_total(
        a: (RoutingPrefix, nat),
        b: (RoutingPrefix, nat),
        c: (RoutingPrefix, nat),
    ) {
    }

    fn le(&self, other: &Self) -> (le: bool) {
        if self.prefix == other.prefix {
            return self.index <= other.index;
        }
        match (self.prefix.ip, other.prefix.ip) {
            (IpAddr::V4(_), IpAddr::V6(_)) => true,
            (IpAddr::V6(_), IpAddr::V4(_)) => false,
            (IpAddr::V4(a), IpAddr::V4(b)) => if a != b {
                a < b
            } else {
                self.prefix.mask <= other.prefix.mask
            },
            (IpAddr::V6(a), IpAddr::V6(b)) => if a != b {
                a < b
            } else {
                self.prefix.mask <= other.prefix.mask
            },
        }
    }

    fn copy(&self) -> (copy: Self) {
        *self
    }
}

/// One of the references is to the route at a position.
spec fn refers(refs: Seq<RouteRef>, k: int) -> bool {
    exists|i: int| 0 <= i < refs.len() && (#[trigger] refs[i]).index == k
}

/// References are those of all routes, in order.
spec fn refs_of(refs: Seq<RouteRef>, routes: Seq<(RoutingPrefix, Seq<u32>)>) -> bool {
    &&& forall|i: int|
        0 <= i < refs.len() ==> (#[trigger] refs[i]).index < routes.len()
            && routes[refs[i].index as int].0 == refs[i].prefix
    &&& forall|i: int, j: int|
        0 <= i < j < refs.len() ==> route_le((#[trigger] refs[i]).key(), (#[trigger] refs[j]).key())
            && refs[i].index != refs[j].index
    &&& forall|k: int|
        0 <= k < routes.len() ==> #[trigger] refers(refs, k)
}

/// References to all routes, by prefix and position.
fn sorted_refs(table: &RouteTable) -> (refs: Vec<RouteRef>)
    ensures
        refs_of(refs@, table@),
{
    let ghost routes = table@;
    let mut found: Vec<RouteRef> = Vec::new();
    let mut i: usize = 0;
    while i < table.routes.len()
        invariant
            i <= table.routes@.len(),
            found@.len() == i,
            routes == table@,
            forall|k: int|
                0 <= k < i ==> (#[trigger] keys(found@)[k]) == (routes[k].0, k as nat),
        decreases table.routes@.len() - i,
    {
        let ghost before = keys(found@);
        let prefix = table.routes[i].prefix;
        assert(routes[i as int].0 == prefix);
        found.push(RouteRef { prefix, index: i });
        assert(keys(found@) =~= before.push((prefix, i as nat)));
        i = i + 1;
    }
    let refs = sorted(&found);
    proof {
        lemma_refs(refs@, keys(found@), routes);
    }
    refs
}

proof fn lemma_refs(
    refs: Seq<RouteRef>,
    found: Seq<(RoutingPrefix, nat)>,
    routes: Seq<(RoutingPrefix, Seq<u32>)>,
)
    requires
        keys(refs) == ascending::<RouteRef>(found),
        found.len() == routes.len(),
        forall|k: int| 0 <= k < found.len() ==> (#[trigger] found[k]) == (routes[k].0, k as nat),
    ensures
        refs_of(refs, routes),
{
    let done = keys(refs);
    lemma_ascending::<RouteRef>(found);
    found.to_multiset_ensures();
    done.to_multiset_ensures();
    assert forall|i: int| 0 <= i < refs.len() implies (#[trigger] refs[i]).index < routes.len()
        && routes[refs[i].index as int].0 == refs[i].prefix by {
        assert(done[i] == refs[i].key());
        assert(done.contains(done[i]));
        assert(done.to_multiset().count(done[i]) > 0);
        assert(found.contains(done[i]));
        let k = choose|k: int| 0 <= k < found.len() && found[k] == done[i];
    }
    assert(found.no_duplicates());
    found.lemma_multiset_has_no_duplicates();
    done.lemma_multiset_has_no_duplicates_conv();
    assert forall|i: int, j: int| 0 <= i < j < refs.len() implies route_le(
        (#[trigger] refs[i]).key(),
        (#[trigger] refs[j]).key(),
    ) && refs[i].index != refs[j].index by {
        let leq = order::<RouteRef>();
        assert(leq(done[i], done[j]));
        assert(done[i] != done[j]);
        assert(routes[refs[i].index as int].0 == refs[i].prefix);
        assert(routes[refs[j].index as int].0 == refs[j].prefix);
    }
    assert forall|k: int| 0 <= k < routes.len() implies #[trigger] refers(refs, k) by {
        assert(found.contains(found[k]));
        assert(found.to_multiset().count(found[k]) > 0);
        assert(done.contains(found[k]));
        let i = choose|i: int| 0 <= i < done.len() && done[i] == found[k];
        assert(refs[i].key() == found[k]);
    }
}

/// Some positions are, in order, all those of routes to a prefix.
spec fn picks(
    positions: Seq<int>,
    routes: Seq<(RoutingPrefix, Seq<u32>)>,
    prefix: RoutingPrefix,
) -> bool {
    &&& forall|i: int|
        0 <= i < positions.len() ==> 0 <= (#[trigger] positions[i]) < routes.len()
            && routes[positions[i]].0 == prefix
    &&& forall|i: int, j: int|
        0 <= i < j < positions.len() ==> (#[trigger] positions[i]) < (#[trigger] positions[j])
    &&& forall|k: int|
        0 <= k < routes.len() && (#[trigger] routes[k]).0 == prefix ==> positions.contains(k)
}

/// The paths at those positions are the paths to the prefix.
proof fn lemma_picks(
    positions: Seq<int>,
    routes: Seq<(RoutingPrefix, Seq<u32>)>,
    prefix: RoutingPrefix,
)
    requires
        picks(positions, routes, prefix),
    ensures
        paths_to(routes, prefix) == positions.map_values(|k: int| routes[k].1),
    decreases routes.len(),
{
    let all = positions.map_values(|k: int| routes[k].1);
    if routes.len() == 0 {
        assert(positions.len() == 0) by {
            if positions.len() > 0 {
                let first = positions[0];
                assert(0 <= first < routes.len());
            }
        }
        assert(all =~= Seq::empty());
    } else {
        let n = routes.len() - 1;
        let rest = routes.drop_last();
        if routes[n].0 == prefix {
            assert(positions.contains(n));
            let i = choose|i: int| 0 <= i < positions.len() && positions[i] == n;
            if i < positions.len() - 1 {
                assert(positions[i] < positions[i + 1]);
            }
            let fewer = positions.drop_last();
            assert forall|k: int|
                0 <= k < rest.len() && (#[trigger] rest[k]).0 == prefix implies fewer.contains(
                k,
            ) by {
                assert(routes[k].0 == prefix);
                assert(positions.contains(k));
                let j = choose|j: int| 0 <= j < positions.len() && positions[j] == k;
                assert(fewer[j] == k);
            }
            assert forall|x: int| 0 <= x < fewer.len() implies 0 <= (#[trigger] fewer[x])
                < rest.len() && rest[fewer[x]].0 == prefix by {
                assert(positions[x] < positions[i]);
            }
            assert(picks(fewer, rest, prefix));
            lemma_picks(fewer, rest, prefix);
            assert(all =~= fewer.map_values(|k: int| rest[k].1).push(routes[n].1));
        } else {
            assert forall|x: int| 0 <= x < positions.len() implies 0 <= (#[trigger] positions[x])
                < rest.len() && rest[positions[x]].0 == prefix by {
                assert(positions[x] != n);
            }
            assert forall|k: int|
                0 <= k < rest.len() && (#[trigger] rest[k]).0 == prefix implies positions.contains(
                k,
            ) by {
                assert(routes[k].0 == prefix);
            }
            assert(picks(positions, rest, prefix));
            lemma_picks(positions, rest, prefix);
            assert(all =~= positions.map_values(|k: int| rest[k].1));
        }
    }
}

/// The first network of the end that all paths to a prefix share.
pub open spec fn has_bottleneck(
    routes: Seq<(RoutingPrefix, Seq<u32>)>,
    prefix: RoutingPrefix,
    asn: u32,
) -> bool {
    let paths = paths_to(routes, prefix);
    paths.len() > 0 && exists|suffix: Seq<u32>| #[trigger]
        is_common_suffix(paths, suffix) && suffix.len() > 0 && suffix[0] == asn
}

/// Prefixes with their bottlenecks, by ascending prefix.
#[derive(Debug, PartialEq, Eq)]
pub struct FindBottleneck {
    pub prefix_asn: Vec<(RoutingPrefix, u32)>,
}

impl FindBottleneck {
    /// Every prefix is listed once, in order.
    pub open spec fn wf(self) -> bool {
        forall|i: int, j: int|
            0 <= i < j < self.prefix_asn@.len() ==> prefix_le(
                (#[trigger] self.prefix_asn@[i]).0,
                (#[trigger] self.prefix_asn@[j]).0,
            ) && self.prefix_asn@[i].0 != self.prefix_asn@[j].0
    }

    /// The bottlenecks of routes.
    pub fn find_as_bottleneck(table: &RouteTable) -> (found: FindBottleneck)
        ensures
            found.wf(),
            forall|prefix: RoutingPrefix, asn: u32|
                found.prefix_asn@.contains((prefix, asn)) == #[trigger] has_bottleneck(
                    table@,
                    prefix,
                    asn,
                ),
    {
        let refs = sorted_refs(table);
        let ghost routes = table@;
        let mut found = FindBottleneck { prefix_asn: Vec::new() };
        let n: usize = refs.len();
        let mut start: usize = 0;
        while start < n
            invariant
                start <= n == refs@.len(),
                routes == table@,
                refs_of(refs@, routes),
                found.wf(),
                parted(refs@, start as int),
                found_before(found.prefix_asn@, refs@, routes, start as int),
                found_all(found.prefix_asn@, refs@, routes, start as int),
            decreases n - start,
        {
            let prefix = refs[start].prefix;
            let mut paths: Vec<Vec<u32>> = Vec::new();
            let mut end: usize = start;
            while end < n && refs[end].prefix == prefix
                invariant
                    start <= end <= n == refs@.len(),
                    start < n,
                    prefix == refs@[start as int].prefix,
                    routes == table@,
                    refs_of(refs@, routes),
                    forall|x: int| start <= x < end ==> (#[trigger] refs@[x]).prefix == prefix,
                    paths@.len() == end - start,
                    forall|x: int|
                        0 <= x < paths@.len() ==> (#[trigger] paths@[x])@
                            == routes[refs@[start + x].index as int].1,
                decreases n - end,
            {
                let index: usize = refs[end].index;
                assert(routes[index as int] == (
                    table.routes@[index as int].prefix,
                    table.routes@[index as int].path@,
                ));
                let path = copy_path(&table.routes[index].path);
                paths.push(path);
                end = end + 1;
            }
            proof {
                lemma_run_paths(refs@, routes, start as int, end as int, paths_view(paths@));
            }
            let suffix = find_common_suffix(&paths);
            let ghost before = found.prefix_asn@;
            if suffix.len() > 0 {
                let asn: u32 = suffix[0];
                found.prefix_asn.push((prefix, asn));
            }
            proof {
                lemma_found(
                    before,
                    found.prefix_asn@,
                    refs@,
                    routes,
                    start as int,
                    end as int,
                    suffix@,
                );
            }
            start = end;
        }
        proof {
            assert forall|prefix: RoutingPrefix, asn: u32|
                found.prefix_asn@.contains((prefix, asn)) == #[trigger] has_bottleneck(
                    routes,
                    prefix,
                    asn,
                ) by {
                lemma_all_found(found.prefix_asn@, refs@, routes, prefix, asn);
            }
        }
        found
    }
}

fn copy_path(path: &Vec<u32>) -> (copy: Vec<u32>)
    ensures
        copy@ == path@,
{
    let mut copy: Vec<u32> = Vec::new();
    let mut i: usize = 0;
    while i < path.len()
        invariant
            i <= path@.len(),
            copy@ == path@.take(i as int),
        decreases path@.len() - i,
    {
        copy.push(path[i]);
        i = i + 1;
        assert(copy@ =~= path@.take(i as int));
    }
    assert(copy@ =~= path@);
    copy
}

/// No prefix stands on both sides of a position.
spec fn parted(refs: Seq<RouteRef>, at: int) -> bool {
    forall|x: int, y: int|
        0 <= x < at <= y < refs.len() ==> (#[trigger] refs[x]).prefix != (#[trigger] refs[y]).prefix
}

/// What was found is a bottleneck, of a prefix that stands before a position.
spec fn found_before(
    found: Seq<(RoutingPrefix, u32)>,
    refs: Seq<RouteRef>,
    routes: Seq<(RoutingPrefix, Seq<u32>)>,
    at: int,
) -> bool {
    forall|i: int|
        0 <= i < found.len() ==> has_bottleneck(routes, (#[trigger] found[i]).0, found[i].1)
            && exists|x: int| 0 <= x < at && (#[trigger] refs[x]).prefix == found[i].0
}

/// The bottleneck of every prefix that stands before a position was found.
spec fn found_all(
    found: Seq<(RoutingPrefix, u32)>,
    refs: Seq<RouteRef>,
    routes: Seq<(RoutingPrefix, Seq<u32>)>,
    at: int,
) -> bool {
    forall|x: int, asn: u32|
        0 <= x < at && #[trigger] has_bottleneck(routes, (#[trigger] refs[x]).prefix, asn)
            ==> found.contains((refs[x].prefix, asn))
}

/// The paths in a run of references are the paths to its prefix.
proof fn lemma_run_paths(
    refs: Seq<RouteRef>,
    routes: Seq<(RoutingPrefix, Seq<u32>)>,
    start: int,
    end: int,
    paths: Seq<Seq<u32>>,
)
    requires
        refs_of(refs, routes),
        parted(refs, start),
        0 <= start < end <= refs.len(),
        forall|x: int| start <= x < end ==> (#[trigger] refs[x]).prefix == refs[start].prefix,
        end < refs.len() ==> refs[end].prefix != refs[start].prefix,
        paths.len() == end - start,
        forall|x: int|
            0 <= x < paths.len() ==> #[trigger] paths[x] == routes[refs[start + x].index as int].1,
    ensures
        paths == paths_to(routes, refs[start].prefix),
        parted(refs, end),
{
    let prefix = refs[start].prefix;
    assert forall|x: int, y: int| 0 <= x < end <= y < refs.len() implies (
    #[trigger] refs[x]).prefix != (#[trigger] refs[y]).prefix by {
        if x >= start {
            assert(route_le(refs[x].key(), refs[y].key()));
            assert(route_le(refs[start].key(), refs[end].key()));
            if y > end {
                assert(route_le(refs[end].key(), refs[y].key()));
            }
        }
    }
    let positions = Seq::new((end - start) as nat, |x: int| refs[start + x].index as int);
    assert forall|i: int, j: int| 0 <= i < j < positions.len() implies (#[trigger] positions[i]) < (
    #[trigger] positions[j]) by {
        assert(route_le(refs[start + i].key(), refs[start + j].key()));
        assert(refs[start + i].index != refs[start + j].index);
    }
    assert forall|k: int|
        0 <= k < routes.len() && (#[trigger] routes[k]).0 == prefix implies positions.contains(
        k,
    ) by {
        assert(refers(refs, k));
        let i = choose|i: int| 0 <= i < refs.len() && (#[trigger] refs[i]).index == k;
        assert(refs[i].prefix == prefix);
        if i < start {
            assert(refs[i].prefix != refs[start].prefix);
        }
        if i >= end {
            assert(refs[start].prefix != refs[i].prefix);
        }
        assert(positions[i - start] == k);
    }
    assert forall|i: int| 0 <= i < positions.len() implies 0 <= (#[trigger] positions[i])
        < routes.len() && routes[positions[i]].0 == prefix by {
        assert(refs[start + i].prefix == prefix);
    }
    lemma_picks(positions, routes, prefix);
    assert(paths =~= positions.map_values(|k: int| routes[k].1));
}

/// One more prefix was looked at.
proof fn lemma_found(
    before: Seq<(RoutingPrefix, u32)>,
    after: Seq<(RoutingPrefix, u32)>,
    refs: Seq<RouteRef>,
    routes: Seq<(RoutingPrefix, Seq<u32>)>,
    start: int,
    end: int,
    suffix: Seq<u32>,
)
    requires
        refs_of(refs, routes),
        parted(refs, start),
        parted(refs, end),
        0 <= start < end <= refs.len(),
        forall|x: int| start <= x < end ==> (#[trigger] refs[x]).prefix == refs[start].prefix,
        paths_to(routes, refs[start].prefix).len() > 0,
        is_common_suffix(paths_to(routes, refs[start].prefix), suffix),
        found_before(before, refs, routes, start),
        found_all(before, refs, routes, start),
        forall|i: int, j: int|
            0 <= i < j < before.len() ==> prefix_le((#[trigger] before[i]).0, (#[trigger] before[j]).0)
                && before[i].0 != before[j].0,
        if suffix.len() > 0 {
            after == before.push((refs[start].prefix, suffix[0]))
        } else {
            after == before
        },
    ensures
        found_before(after, refs, routes, end),
        found_all(after, refs, routes, end),
        forall|i: int, j: int|
            0 <= i < j < after.len() ==> prefix_le((#[trigger] after[i]).0, (#[trigger] after[j]).0)
                && after[i].0 != after[j].0,
{
    let prefix = refs[start].prefix;
    let paths = paths_to(routes, prefix);
    let n = before.len() as int;
    assert forall|i: int| 0 <= i < after.len() implies has_bottleneck(
        routes,
        (#[trigger] after[i]).0,
        after[i].1,
    ) && exists|x: int| 0 <= x < end && (#[trigger] refs[x]).prefix == after[i].0 by {
        if i < n {
            assert(after[i] == before[i]);
            let x = choose|x: int| 0 <= x < start && (#[trigger] refs[x]).prefix == before[i].0;
            assert(refs[x].prefix == after[i].0);
        } else {
            assert(is_common_suffix(paths, suffix));
            assert(refs[start].prefix == after[i].0);
        }
    }
    assert forall|x: int, asn: u32|
        0 <= x < end && #[trigger] has_bottleneck(
            routes,
            (#[trigger] refs[x]).prefix,
            asn,
        ) implies after.contains((refs[x].prefix, asn)) by {
        if x < start {
            assert(before.contains((refs[x].prefix, asn)));
            let i = choose|i: int| 0 <= i < before.len() && before[i] == (refs[x].prefix, asn);
            assert(after[i] == (refs[x].prefix, asn));
        } else {
            let other = choose|s: Seq<u32>| #[trigger]
                is_common_suffix(paths, s) && s.len() > 0 && s[0] == asn;
            the_common_suffix_is_unique(paths, suffix, other);
            assert(after[n] == (refs[x].prefix, asn));
        }
    }
    assert forall|i: int, j: int| 0 <= i < j < after.len() implies prefix_le(
        (#[trigger] after[i]).0,
        (#[trigger] after[j]).0,
    ) && after[i].0 != after[j].0 by {
        if j < n {
            assert(after[i] == before[i] && after[j] == before[j]);
        } else {
            let x = choose|x: int| 0 <= x < start && (#[trigger] refs[x]).prefix == before[i].0;
            assert(after[i] == before[i]);
            assert(refs[x].prefix != refs[start].prefix);
            assert(route_le(refs[x].key(), refs[start].key()));
        }
    }
}

proof fn lemma_paths_to(routes: Seq<(RoutingPrefix, Seq<u32>)>, prefix: RoutingPrefix)
    ensures
        paths_to(routes, prefix).len() > 0 ==> exists|k: int|
            0 <= k < routes.len() && (#[trigger] routes[k]).0 == prefix,
    decreases routes.len(),
{
    if routes.len() > 0 {
        let rest = routes.drop_last();
        lemma_paths_to(rest, prefix);
        if routes.last().0 == prefix {
            assert(routes[routes.len() - 1].0 == prefix);
        } else if paths_to(rest, prefix).len() > 0 {
            let k = choose|k: int| 0 <= k < rest.len() && (#[trigger] rest[k]).0 == prefix;
            assert(routes[k] == rest[k]);
        }
    }
}

proof fn lemma_all_found(
    found: Seq<(RoutingPrefix, u32)>,
    refs: Seq<RouteRef>,
    routes: Seq<(RoutingPrefix, Seq<u32>)>,
    prefix: RoutingPrefix,
    asn: u32,
)
    requires
        refs_of(refs, routes),
        found_before(found, refs, routes, refs.len() as int),
        found_all(found, refs, routes, refs.len() as int),
    ensures
        found.contains((prefix, asn)) == has_bottleneck(routes, prefix, asn),
{
    if found.contains((prefix, asn)) {
        let i = choose|i: int| 0 <= i < found.len() && found[i] == (prefix, asn);
        assert(has_bottleneck(routes, found[i].0, found[i].1));
    }
    if has_bottleneck(routes, prefix, asn) {
        lemma_paths_to(routes, prefix);
        let k = choose|k: int| 0 <= k < routes.len() && (#[trigger] routes[k]).0 == prefix;
        assert(refers(refs, k));
        let x = choose|x: int| 0 <= x < refs.len() && (#[trigger] refs[x]).index == k;
        assert(refs[x].prefix == prefix);
        assert(has_bottleneck(routes, refs[x].prefix, asn));
    }
}

/// Bottlenecks as prefixes of bits.
pub open spec fn bottleneck_bits(list: Seq<(RoutingPrefix, u32)>) -> Seq<(Seq<bool>, u32)> {
    list.map_values(
        |e: (RoutingPrefix, u32)| (prefix_bits(e.0.ip, e.0.mask as nat), e.1),
    )
}

/// No mask is wider than its address.
pub open spec fn masks_fit(list: Seq<(RoutingPrefix, u32)>) -> bool {
    forall|i: int| 0 <= i < list.len() ==> (#[trigger] list[i]).0.mask <= list[i].0.ip.width()
}

/// A bottleneck as it is listed.
pub open spec fn bottleneck_line(entry: (RoutingPrefix, u32)) -> Seq<char> {
    entry.0.text() + " AS"@ + decimal(entry.1 as nat)
}

impl FindBottleneck {
    /// Whether no mask is wider than its address.
    pub fn masks_fit(&self) -> (fit: bool)
        ensures
            fit == masks_fit(self.prefix_asn@),
    {
        let mut i: usize = 0;
        while i < self.prefix_asn.len()
            invariant
                i <= self.prefix_asn@.len(),
                forall|j: int|
                    0 <= j < i ==> (#[trigger] self.prefix_asn@[j]).0.mask
                        <= self.prefix_asn@[j].0.ip.width(),
            decreases self.prefix_asn@.len() - i,
        {
            let prefix = self.prefix_asn[i].0;
            let width: u8 = match prefix.ip {
                IpAddr::V4(_) => 32,
                IpAddr::V6(_) => 128,
            };
            if prefix.mask > width {
                assert(self.prefix_asn@[i as int].0.mask > self.prefix_asn@[i as int].0.ip.width());
                return false;
            }
            i = i + 1;
        }
        true
    }

    /// The map that assigns every prefix to its bottleneck.
    pub fn to_asmap(&self) -> (map: ASMap)
        requires
            masks_fit(self.prefix_asn@),
        ensures
            map.wf(),
            forall|path: spec_fn(int) -> bool| #[trigger]
                map.asn_of(path) == resolve(bottleneck_bits(self.prefix_asn@), 0, path),
    {
        let ghost list = self.prefix_asn@;
        let mut entries: Vec<ASNEntry> = Vec::new();
        let mut i: usize = 0;
        while i < self.prefix_asn.len()
            invariant
                i <= self.prefix_asn@.len(),
                list == self.prefix_asn@,
                masks_fit(list),
                entries@.len() == i,
                forall|j: int|
                    0 <= j < i ==> (#[trigger] entries@[j]).0@ == bottleneck_bits(list)[j].0
                        && entries@[j].1 == bottleneck_bits(list)[j].1,
            decreases self.prefix_asn@.len() - i,
        {
            let (prefix, asn): (RoutingPrefix, u32) = self.prefix_asn[i];
            assert(list[i as int].0.mask <= list[i as int].0.ip.width());
            entries.push((ip_to_bits(prefix.ip, prefix.mask), asn));
            i = i + 1;
        }
        assert(entries_view(entries@) =~= bottleneck_bits(list));
        let mut map = ASMap::new();
        let ghost empty = map;
        map.update_multi(entries);
        proof {
            assert forall|path: spec_fn(int) -> bool| #[trigger] map.asn_of(path) == resolve(
                bottleneck_bits(list),
                0,
                path,
            ) by {
                assert(empty.asn_of(path) == 0);
            }
        }
        map
    }

    /// The bottlenecks as they are listed, one line each.
    pub fn lines(&self) -> (lines: Vec<String>)
        ensures
            texts(lines@) == self.prefix_asn@.map_values(
                |e: (RoutingPrefix, u32)| bottleneck_line(e),
            ),
    {
        let ghost list = self.prefix_asn@;
        let mut lines: Vec<String> = Vec::new();
        let mut i: usize = 0;
        while i < self.prefix_asn.len()
            invariant
                i <= self.prefix_asn@.len(),
                list == self.prefix_asn@,
                lines@.len() == i,
                forall|j: int| 0 <= j < i ==> (#[trigger] lines@[j])@ == bottleneck_line(list[j]),
            decreases self.prefix_asn@.len() - i,
        {
            let (prefix, asn): (RoutingPrefix, u32) = self.prefix_asn[i];
            let mut line = prefix.to_text();
            line.append(" AS");
            push_number(&mut line, asn as u128, 10);
            lines.push(line);
            i = i + 1;
        }
        assert(texts(lines@) =~= list.map_values(|e: (RoutingPrefix, u32)| bottleneck_line(e)));
        lines
    }
}

/// The collectors that are asked: those given, or else the first twenty-five.
pub open spec fn target_list(collectors: Seq<u32>) -> Seq<u32> {
    if collectors.len() == 0 {
        Seq::new(25, |i: int| i as u32)
    } else {
        collectors
    }
}

/// The collectors that are asked.
pub fn collector_targets(collectors: &Vec<u32>) -> (targets: Vec<u32>)
    ensures
        targets@ == target_list(collectors@),
{
    if collectors.len() > 0 {
        return copy_path(collectors);
    }
    let mut targets: Vec<u32> = Vec::new();
    let mut i: u32 = 0;
    while i < 25
        invariant
            i <= 25,
            targets@ == Seq::new(i as nat, |j: int| j as u32),
        decreases 25 - i,
    {
        targets.push(i);
        i = i + 1;
        assert(targets@ =~= Seq::new(i as nat, |j: int| j as u32));
    }
    targets
}

/// A collector's name: its number in at least two digits.
pub open spec fn collector_name(number: u32) -> Seq<char> {
    if number < 10 {
        "rrc0"@ + decimal(number as nat)
    } else {
        "rrc"@ + decimal(number as nat)
    }
}

fn push_collector_name(text: &mut String, number: u32)
    ensures
        final(text)@ == old(text)@ + collector_name(number),
{
    let ghost start = text@;
    if number < 10 {
        text.append("rrc0");
    } else {
        text.append("rrc");
    }
    push_number(text, number as u128, 10);
    assert(text@ =~= start + collector_name(number));
}

/// Where the latest dump of a collector is found.
pub fn collector_url(number: u32) -> (url: String)
    ensures
        url@ == "http://data.ris.ripe.net/"@ + collector_name(number) + "/latest-bview.gz"@,
{
    let mut url = "http://data.ris.ripe.net/".to_owned();
    push_collector_name(&mut url, number);
    url.append("/latest-bview.gz");
    url
}

/// The name of the file for the latest dump of a collector.
pub fn collector_file(number: u32) -> (name: String)
    ensures
        name@ == collector_name(number) + "-latest-bview.gz"@,
{
    let mut name = String::new();
    push_collector_name(&mut name, number);
    name.append("-latest-bview.gz");
    assert(name@ =~= collector_name(number) + "-latest-bview.gz"@);
    name
}

/// Masking pools routes: a record whose prefix has host bits set adds to the
/// routes of the prefix without them.
pub proof fn routes_are_pooled_by_network(
    routes: Seq<(RoutingPrefix, Seq<u32>)>,
    attributes: Seq<Vec<u8>>,
    ip: IpAddr,
    mask: u8,
)
    ensures
        ({
            let prefix = RoutingPrefix { ip: masked(ip, mask as nat), mask };
            paths_to(routes + attribute_routes(attributes, prefix), prefix) == paths_to(
                routes,
                prefix,
            ) + attribute_routes(attributes, prefix).map_values(
                |r: (RoutingPrefix, Seq<u32>)| r.1,
            )
        }),
    decreases attributes.len(),
{
    let prefix = RoutingPrefix { ip: masked(ip, mask as nat), mask };
    let added = attribute_routes(attributes, prefix);
    let sum = routes + added;
    if attributes.len() == 0 {
        assert(sum =~= routes);
        assert(paths_to(routes, prefix) + added.map_values(|r: (RoutingPrefix, Seq<u32>)| r.1)
            =~= paths_to(routes, prefix));
    } else {
        routes_are_pooled_by_network(routes, attributes.drop_last(), ip, mask);
        let before = attribute_routes(attributes.drop_last(), prefix);
        if let Ok(path) = as_path(attributes.last()@) {
            let last = (prefix, deduped(path));
            assert(added == before.push(last));
            assert(sum.drop_last() =~= routes + before);
            assert(added.map_values(|r: (RoutingPrefix, Seq<u32>)| r.1) =~= before.map_values(
                |r: (RoutingPrefix, Seq<u32>)| r.1,
            ).push(last.1));
            assert(paths_to(sum, prefix) =~= paths_to(routes, prefix) + added.map_values(
                |r: (RoutingPrefix, Seq<u32>)| r.1,
            ));
        }
    }
}

proof fn lemma_deduped_last(path: Seq<u32>)
    ensures
        path.len() > 0 ==> deduped(path).len() > 0 && deduped(path).last() == path.last(),
        path.len() == 0 ==> deduped(path).len() == 0,
    decreases path.len(),
{
    if path.len() > 0 {
        lemma_deduped_last(path.drop_last());
    }
}

/// A network that stands on a path several times in a row is kept once, and nothing
/// else is left out: one more step is added unless it repeats the one before it.
pub proof fn only_repetitions_are_left_out(path: Seq<u32>, step: u32)
    ensures
        deduped(Seq::empty()) == Seq::<u32>::empty(),
        path.len() == 0 || path.last() != step ==> deduped(path.push(step)) == deduped(path).push(
            step,
        ),
        path.len() > 0 && path.last() == step ==> deduped(path.push(step)) == deduped(path),
{
    lemma_deduped_last(path);
    assert(path.push(step).drop_last() =~= path);
}

/// Each set of attributes with a path gives a route to the prefix, without
/// repetitions; one without a path gives none. Routes keep their order.
pub proof fn each_path_is_a_route(
    a: Seq<Vec<u8>>,
    b: Seq<Vec<u8>>,
    attributes: Vec<u8>,
    prefix: RoutingPrefix,
)
    ensures
        attribute_routes(Seq::empty(), prefix) == Seq::<(RoutingPrefix, Seq<u32>)>::empty(),
        as_path(attributes@) matches Ok(path) ==> attribute_routes(seq![attributes], prefix)
            == seq![(prefix, deduped(path))],
        as_path(attributes@) is Err ==> attribute_routes(seq![attributes], prefix) == Seq::<
            (RoutingPrefix, Seq<u32>),
        >::empty(),
        attribute_routes(a + b, prefix) == attribute_routes(a, prefix) + attribute_routes(b, prefix),
    decreases b.len(),
{
    let one = seq![attributes];
    assert(one.drop_last() =~= Seq::empty());
    assert(attribute_routes(one.drop_last(), prefix) =~= Seq::empty());
    assert(one.last() == attributes);
    if let Ok(path) = as_path(attributes@) {
        assert(attribute_routes(one, prefix) =~= seq![(prefix, deduped(path))]);
    } else {
        assert(attribute_routes(one, prefix) =~= Seq::empty());
    }
    if b.len() == 0 {
        assert(a + b =~= a);
        assert(attribute_routes(a, prefix) + attribute_routes(b, prefix) =~= attribute_routes(
            a,
            prefix,
        ));
    } else {
        each_path_is_a_route(a, b.drop_last(), attributes, prefix);
        assert((a + b).drop_last() =~= a + b.drop_last());
        assert((a + b).last() == b.last());
        assert(attribute_routes(a + b, prefix) =~= attribute_routes(a, prefix) + attribute_routes(
            b,
            prefix,
        ));
    }
}

/// Routes to a prefix are filed under the network that it lies in; a record whose
/// prefix is no address has none.
pub proof fn records_are_filed_by_network(record: RibRecord)
    ensures
        prefix_address(record.prefix@, record.is_ipv4) matches Ok(ip) ==> record_prefix(record)
            == Ok::<RoutingPrefix, PrefixBytesError>(
            RoutingPrefix {
                ip: masked(ip, record.prefix_length as nat),
                mask: record.prefix_length,
            },
        ),
        prefix_address(record.prefix@, record.is_ipv4) matches Err(e) ==> record_prefix(record)
            == Err::<RoutingPrefix, PrefixBytesError>(e),
{
}

/// The paths to a prefix are those of the routes to exactly that prefix, in order.
pub proof fn paths_go_to_one_prefix(
    a: Seq<(RoutingPrefix, Seq<u32>)>,
    b: Seq<(RoutingPrefix, Seq<u32>)>,
    prefix: RoutingPrefix,
    other: RoutingPrefix,
    path: Seq<u32>,
)
    ensures
        paths_to(Seq::empty(), prefix) == Seq::<Seq<u32>>::empty(),
        paths_to(seq![(prefix, path)], prefix) == seq![path],
        other != prefix ==> paths_to(seq![(other, path)], prefix) == Seq::<Seq<u32>>::empty(),
        paths_to(a + b, prefix) == paths_to(a, prefix) + paths_to(b, prefix),
    decreases b.len(),
{
    let one = seq![(prefix, path)];
    assert(one.drop_last() =~= Seq::empty());
    assert(paths_to(one.drop_last(), prefix) =~= Seq::empty());
    assert(paths_to(one, prefix) =~= seq![path]);
    let stray = seq![(other, path)];
    assert(stray.drop_last() =~= Seq::empty());
    assert(paths_to(stray.drop_last(), prefix) =~= Seq::empty());
    if other != prefix {
        assert(paths_to(stray, prefix) =~= Seq::empty());
    }
    if b.len() == 0 {
        assert(a + b =~= a);
        assert(paths_to(a, prefix) + paths_to(b, prefix) =~= paths_to(a, prefix));
    } else {
        paths_go_to_one_prefix(a, b.drop_last(), prefix, other, path);
        assert((a + b).drop_last() =~= a + b.drop_last());
        assert((a + b).last() == b.last());
        assert(paths_to(a + b, prefix) =~= paths_to(a, prefix) + paths_to(b, prefix));
    }
}

/// What the bottleneck of a prefix is. Look at the first of its shortest paths, and
/// at the paths that end in the same network. If all of them are some steps followed
/// by `end`, and two of them differ in the step before `end` or one has none, then
/// `end` begins with the bottleneck, and there is no other. Paths that end in other
/// networks do not matter.
pub proof fn bottlenecks_begin_what_the_paths_share(
    routes: Seq<(RoutingPrefix, Seq<u32>)>,
    prefix: RoutingPrefix,
    paths: Seq<Seq<u32>>,
    heads: Seq<Seq<u32>>,
    end: Seq<u32>,
    best: int,
    other: int,
    asn: u32,
)
    requires
        paths == paths_to(routes, prefix),
        heads.len() == paths.len(),
        end.len() > 0,
        0 <= best < paths.len(),
        forall|j: int|
            0 <= j < paths.len() ==> paths[best].len() <= (#[trigger] paths[j]).len() && (j < best
                ==> paths[best].len() < paths[j].len()),
        paths[best] == heads[best] + end,
        forall|i: int|
            0 <= i < paths.len() && (#[trigger] paths[i]).len() > 0 && paths[i].last() == end.last()
                ==> paths[i] == heads[i] + end,
        0 <= other < paths.len() && paths[other] == heads[other] + end,
        heads[best].len() == 0 || heads[other].len() == 0 || heads[other].last()
            != heads[best].last(),
    ensures
        is_common_suffix(paths, end),
        has_bottleneck(routes, prefix, asn) == (asn == end[0]),
{
    let p = paths[best];
    let n = end.len() as int;
    assert(is_first_shortest(paths, best));
    assert(p.last() == end.last());
    assert(p.skip(p.len() - n) =~= end);
    assert(end.skip(0) =~= end);
    assert(shares_end(p, end, n));
    assert forall|i: int| 0 <= i < paths.len() && same_origin(p, #[trigger] paths[i]) implies
        shares_end(paths[i], p, n) by {
        let q = paths[i];
        assert(q == heads[i] + end);
        assert(q.skip(q.len() - n) =~= end);
    }
    if n < p.len() && all_share(paths, p, n + 1) {
        let q = paths[other];
        assert(q.last() == end.last());
        assert(same_origin(p, paths[other]));
        assert(shares_end(q, p, n + 1));
        assert(heads[best].len() > 0);
        assert(q.len() >= n + 1);
        assert(heads[other].len() > 0);
        assert(q.skip(q.len() - (n + 1))[0] == heads[other].last());
        assert(p.skip(p.len() - (n + 1))[0] == heads[best].last());
    }
    assert(is_common_suffix(paths, end));
    if has_bottleneck(routes, prefix, asn) {
        let suffix = choose|suffix: Seq<u32>| #[trigger]
            is_common_suffix(paths, suffix) && suffix.len() > 0 && suffix[0] == asn;
        the_common_suffix_is_unique(paths, suffix, end);
    }
}

/// A prefix has no bottleneck if it has no path, or one without a step.
pub proof fn prefixes_without_steps_have_no_bottleneck(
    routes: Seq<(RoutingPrefix, Seq<u32>)>,
    prefix: RoutingPrefix,
    asn: u32,
)
    requires
        paths_to(routes, prefix).len() == 0 || exists|i: int|
            0 <= i < paths_to(routes, prefix).len() && (#[trigger] paths_to(
                routes,
                prefix,
            )[i]).len() == 0,
    ensures
        !has_bottleneck(routes, prefix, asn),
{
    let paths = paths_to(routes, prefix);
    if has_bottleneck(routes, prefix, asn) {
        let suffix = choose|suffix: Seq<u32>| #[trigger]
            is_common_suffix(paths, suffix) && suffix.len() > 0 && suffix[0] == asn;
        let b = choose|b: int|
            {
                &&& #[trigger] is_first_shortest(paths, b)
                &&& shares_end(paths[b], suffix, suffix.len() as int)
                &&& all_share(paths, paths[b], suffix.len() as int)
                &&& suffix.len() == paths[b].len() || !all_share(
                    paths,
                    paths[b],
                    suffix.len() as int + 1,
                )
            };
        let i = choose|i: int| 0 <= i < paths.len() && (#[trigger] paths[i]).len() == 0;
        assert(paths[b].len() <= paths[i].len());
    }
}

/// Prefixes are listed IPv4 first, then by address, then the shorter mask first.
pub proof fn prefixes_are_listed_by_family_address_and_mask(
    a: u32,
    b: u32,
    v: u128,
    w: u128,
    m: u8,
    n: u8,
)
    ensures
        prefix_le(
            RoutingPrefix { ip: IpAddr::V4(a), mask: m },
            RoutingPrefix { ip: IpAddr::V6(v), mask: n },
        ),
        !prefix_le(
            RoutingPrefix { ip: IpAddr::V6(v), mask: n },
            RoutingPrefix { ip: IpAddr::V4(a), mask: m },
        ),
        prefix_le(
            RoutingPrefix { ip: IpAddr::V4(a), mask: m },
            RoutingPrefix { ip: IpAddr::V4(b), mask: n },
        ) == (a < b || a == b && m <= n),
        prefix_le(
            RoutingPrefix { ip: IpAddr::V6(v), mask: m },
            RoutingPrefix { ip: IpAddr::V6(w), mask: n },
        ) == (v < w || v == w && m <= n),
{
}

/// How a bottleneck is listed and laid down: prefix and number as text, and the
/// first bits of the address.
pub proof fn bottlenecks_are_listed_and_laid_down(list: Seq<(RoutingPrefix, u32)>, i: int)
    requires
        0 <= i < list.len(),
    ensures
        bottleneck_line(list[i]) == list[i].0.text() + seq![' ', 'A', 'S'] + decimal(
            list[i].1 as nat,
        ),
        bottleneck_bits(list).len() == list.len(),
        bottleneck_bits(list)[i].0 == prefix_bits(list[i].0.ip, list[i].0.mask as nat),
        bottleneck_bits(list)[i].1 == list[i].1,
        masks_fit(list) ==> match list[i].0.ip {
            IpAddr::V4(_) => list[i].0.mask <= 32,
            IpAddr::V6(_) => list[i].0.mask <= 128,
        },
{
    reveal_strlit(" AS");
    assert(" AS"@ =~= seq![' ', 'A', 'S']);
}

/// The collectors that are asked, and their names: those given, or else those from
/// 0 to 24; `rrc` and at least two digits.
pub proof fn collectors_are_numbered(collectors: Seq<u32>, number: u32)
    ensures
        collectors.len() > 0 ==> target_list(collectors) == collectors,
        collectors.len() == 0 ==> target_list(collectors).len() == 25 && forall|i: int|
            0 <= i < 25 ==> #[trigger] target_list(collectors)[i] == i,
        number < 10 ==> collector_name(number) == seq!['r', 'r', 'c', '0'] + decimal(number as nat),
        number >= 10 ==> collector_name(number) == seq!['r', 'r', 'c'] + decimal(number as nat),
{
    reveal_strlit("rrc0");
    reveal_strlit("rrc");
    assert("rrc0"@ =~= seq!['r', 'r', 'c', '0']);
    assert("rrc"@ =~= seq!['r', 'r', 'c']);
}

/// Bottlenecks are listed in the order of their prefixes, each prefix once.
pub proof fn bottlenecks_are_listed_in_order(found: FindBottleneck)
    ensures
        found.wf() <==> forall|i: int, j: int|
            0 <= i < j < found.prefix_asn@.len() ==> prefix_le(
                (#[trigger] found.prefix_asn@[i]).0,
                (#[trigger] found.prefix_asn@[j]).0,
            ) && found.prefix_asn@[i].0 != found.prefix_asn@[j].0,
        masks_fit(found.prefix_asn@) <==> forall|i: int|
            0 <= i < found.prefix_asn@.len() ==> match (#[trigger] found.prefix_asn@[i]).0.ip {
                IpAddr::V4(_) => found.prefix_asn@[i].0.mask <= 32,
                IpAddr::V6(_) => found.prefix_asn@[i].0.mask <= 128,
            },
{
    let list = found.prefix_asn@;
    if masks_fit(list) {
        assert forall|i: int| 0 <= i < list.len() implies match (#[trigger] list[i]).0.ip {
            IpAddr::V4(_) => list[i].0.mask <= 32,
            IpAddr::V6(_) => list[i].0.mask <= 128,
        } by {
            assert(list[i].0.mask <= list[i].0.ip.width());
        }
    }
    if forall|i: int|
        0 <= i < list.len() ==> match (#[trigger] list[i]).0.ip {
            IpAddr::V4(_) => list[i].0.mask <= 32,
            IpAddr::V6(_) => list[i].0.mask <= 128,
        } {
        assert forall|i: int| 0 <= i < list.len() implies (#[trigger] list[i]).0.mask
            <= list[i].0.ip.width() by {
            assert(match list[i].0.ip {
                IpAddr::V4(_) => list[i].0.mask <= 32,
                IpAddr::V6(_) => list[i].0.mask <= 128,
            });
        }
    }
}

/// Routes are taken as they stand.
pub proof fn routes_are_taken_as_they_stand(table: RouteTable, i: int)
    requires
        0 <= i < table.routes@.len(),
    ensures
        table@.len() == table.routes@.len(),
        table@[i] == (table.routes@[i].prefix, table.routes@[i].path@),
{
}

} // verus!
