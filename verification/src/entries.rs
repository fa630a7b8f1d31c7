//! Maps as lists of prefixes.

use crate::plan::{
    at, best_cover, best_plan, both_sides, chosen, cover_cost, has_hole, is_best_cover,
    lemma_chosen, lemma_plans, lemma_search_holds, merged, merged_at, plans, shared, Plan,
};
use crate::trie::{
    copy_bits, entries_view, extends_trie, lemma_child_value, lemma_resolve_uniform,
    lemma_starts_with_push, longest_match, normal_form_is_unique, resolve, starts_with, ASMap,
    ASNEntry, TrieNode,
};
use vstd::pervasive::unreached;
use vstd::prelude::*;

verus! {

/// `longer` starts with the bits of `prefix`.
pub open spec fn extends_prefix(longer: Seq<bool>, prefix: Seq<bool>) -> bool {
    prefix.len() <= longer.len() && longer.take(prefix.len() as int) == prefix
}

/// Dictionary order: at the first position where the two bit strings part, `a`
/// has ended or goes on with a zero, and `b` goes on, after a zero with a one.
pub open spec fn bits_lt(a: Seq<bool>, b: Seq<bool>) -> bool {
    exists|n: int|
        {
            &&& 0 <= n <= a.len()
            &&& n < b.len()
            &&& #[trigger] a.take(n) == b.take(n)
            &&& n == a.len() || !a[n] && b[n]
        }
}

/// A list of entries, as one description of a subtree.
pub struct EntryList {
    entries: Vec<ASNEntry>,
}

impl Plan for EntryList {
    type Model = Seq<(Seq<bool>, u32)>;

    closed spec fn model(&self) -> Seq<(Seq<bool>, u32)> {
        entries_view(self.entries@)
    }

    open spec fn plan_wf(&self) -> bool {
        true
    }

    open spec fn cost(m: Seq<(Seq<bool>, u32)>) -> nat {
        m.len()
    }

    open spec fn nothing() -> Seq<(Seq<bool>, u32)> {
        Seq::empty()
    }

    open spec fn single(prefix: Seq<bool>, asn: u32) -> Seq<(Seq<bool>, u32)> {
        seq![(prefix, asn)]
    }

    open spec fn both(left: Seq<(Seq<bool>, u32)>, right: Seq<(Seq<bool>, u32)>) -> Seq<
        (Seq<bool>, u32),
    > {
        left + right
    }

    open spec fn cover(prefix: Seq<bool>, asn: u32, inner: Seq<(Seq<bool>, u32)>) -> Seq<
        (Seq<bool>, u32),
    > {
        seq![(prefix, asn)] + inner
    }

    open spec fn within(m: Seq<(Seq<bool>, u32)>, prefix: Seq<bool>) -> bool {
        forall|i: int| 0 <= i < m.len() ==> extends_prefix((#[trigger] m[i]).0, prefix)
    }

    open spec fn answer(
        m: Seq<(Seq<bool>, u32)>,
        prefix: Seq<bool>,
        ambient: u32,
        path: spec_fn(int) -> bool,
    ) -> u32 {
        resolve(m, ambient, path)
    }

    proof fn lemma_nothing(prefix: Seq<bool>, ambient: u32, path: spec_fn(int) -> bool) {
    }

    open spec fn holds(m: Seq<(Seq<bool>, u32)>) -> bool {
        true
    }

    proof fn lemma_single(prefix: Seq<bool>, asn: u32, ambient: u32, path: spec_fn(int) -> bool) {
        let m = seq![(prefix, asn)];
        assert(prefix.take(prefix.len() as int) =~= prefix);
        assert(m.drop_last() =~= Seq::empty());
        assert(m.last() == (prefix, asn));
        assert(longest_match(m.drop_last(), ambient, path) == (-1int, ambient));
    }

    proof fn lemma_both(
        left: Seq<(Seq<bool>, u32)>,
        right: Seq<(Seq<bool>, u32)>,
        prefix: Seq<bool>,
        ambient: u32,
        path: spec_fn(int) -> bool,
    ) {
        lemma_within_shorter(left, prefix, false);
        lemma_within_shorter(right, prefix, true);
        if path(prefix.len() as int) {
            lemma_no_match(left, prefix, false, path);
            lemma_skip_left(left, right, ambient, path);
        } else {
            lemma_no_match(right, prefix, true, path);
            lemma_skip_right(left, right, ambient, path);
        }
    }

    proof fn lemma_cover(
        left: Seq<(Seq<bool>, u32)>,
        right: Seq<(Seq<bool>, u32)>,
        prefix: Seq<bool>,
        asn: u32,
        ambient: u32,
        path: spec_fn(int) -> bool,
    ) {
        lemma_within_shorter(left, prefix, false);
        lemma_within_shorter(right, prefix, true);
        assert(prefix.take(prefix.len() as int) =~= prefix);
        if starts_with(path, prefix) {
            lemma_cover_match(prefix, asn, left + right, ambient, path);
        }
    }

    fn plan_cost(&self) -> (cost: usize) {
        self.entries.len()
    }

    fn plan_nothing() -> (plan: Self) {
        let plan = EntryList { entries: Vec::new() };
        assert(plan.model() =~= Seq::empty());
        plan
    }

    fn plan_single(prefix: &Vec<bool>, asn: u32) -> (plan: Self) {
        let mut entries: Vec<ASNEntry> = Vec::new();
        entries.push((copy_bits(prefix), asn));
        let plan = EntryList { entries };
        assert(plan.model() =~= seq![(prefix@, asn)]);
        plan
    }

    fn plan_both(left: &Self, right: &Self) -> (plan: Option<Self>) {
        let mut entries: Vec<ASNEntry> = Vec::new();
        push_entries(&mut entries, &left.entries);
        push_entries(&mut entries, &right.entries);
        let plan = EntryList { entries };
        assert(plan.model() =~= left.model() + right.model());
        Some(plan)
    }

    fn plan_cover(prefix: &Vec<bool>, asn: u32, inner: &Self) -> (plan: Option<Self>) {
        let mut entries: Vec<ASNEntry> = Vec::new();
        entries.push((copy_bits(prefix), asn));
        assert(entries_view(entries@) =~= seq![(prefix@, asn)]);
        push_entries(&mut entries, &inner.entries);
        Some(EntryList { entries })
    }
}

/// Appends copies of `more` to `entries`.
fn push_entries(entries: &mut Vec<ASNEntry>, more: &Vec<ASNEntry>)
    ensures
        entries_view(final(entries)@) == entries_view(old(entries)@) + entries_view(more@),
{
    let ghost start = entries_view(entries@);
    let mut i: usize = 0;
    while i < more.len()
        invariant
            i <= more@.len(),
            entries_view(entries@) == start + entries_view(more@).take(i as int),
        decreases more@.len() - i,
    {
        let ghost before = entries_view(entries@);
        entries.push((copy_bits(&more[i].0), more[i].1));
        assert(entries_view(entries@) =~= before.push((more@[i as int].0@, more@[i as int].1)));
        i = i + 1;
        assert(entries_view(entries@) =~= start + entries_view(more@).take(i as int));
    }
    assert(entries_view(more@).take(i as int) =~= entries_view(more@));
}

/// What extends a longer prefix extends the shorter one.
proof fn lemma_within_shorter(m: Seq<(Seq<bool>, u32)>, prefix: Seq<bool>, bit: bool)
    requires
        EntryList::within(m, prefix.push(bit)),
    ensures
        EntryList::within(m, prefix),
        forall|i: int| 0 <= i < m.len() ==> (#[trigger] m[i]).0.len() > prefix.len(),
{
    assert forall|i: int| 0 <= i < m.len() implies extends_prefix((#[trigger] m[i]).0, prefix)
        && m[i].0.len() > prefix.len() by {
        let e = m[i].0;
        assert(extends_prefix(e, prefix.push(bit)));
        assert(e.take(prefix.len() as int) =~= prefix.push(bit).take(prefix.len() as int));
        assert(prefix.push(bit).take(prefix.len() as int) =~= prefix);
    }
}

/// A path that turns the other way matches no entry.
proof fn lemma_no_match(
    m: Seq<(Seq<bool>, u32)>,
    prefix: Seq<bool>,
    bit: bool,
    path: spec_fn(int) -> bool,
)
    requires
        EntryList::within(m, prefix.push(bit)),
        path(prefix.len() as int) != bit,
    ensures
        forall|i: int| 0 <= i < m.len() ==> !starts_with(path, (#[trigger] m[i]).0),
{
    assert forall|i: int| 0 <= i < m.len() implies !starts_with(path, (#[trigger] m[i]).0) by {
        let e = m[i].0;
        assert(extends_prefix(e, prefix.push(bit)));
        assert(e.take(prefix.len() as int + 1)[prefix.len() as int] == bit);
        assert(e[prefix.len() as int] == bit);
    }
}

proof fn lemma_skip_left(
    left: Seq<(Seq<bool>, u32)>,
    right: Seq<(Seq<bool>, u32)>,
    ambient: u32,
    path: spec_fn(int) -> bool,
)
    requires
        forall|i: int| 0 <= i < left.len() ==> !starts_with(path, (#[trigger] left[i]).0),
    ensures
        longest_match(left + right, ambient, path) == longest_match(right, ambient, path),
    decreases left.len() + right.len(),
{
    if right.len() > 0 {
        assert((left + right).drop_last() =~= left + right.drop_last());
        assert((left + right).last() == right.last());
        lemma_skip_left(left, right.drop_last(), ambient, path);
    } else if left.len() > 0 {
        assert(left + right =~= left);
        assert(left.drop_last() + right =~= left.drop_last());
        assert(left[left.len() - 1] == left.last());
        assert forall|i: int| 0 <= i < left.drop_last().len() implies !starts_with(
            path,
            (#[trigger] left.drop_last()[i]).0,
        ) by {
            assert(left.drop_last()[i] == left[i]);
        }
        lemma_skip_left(left.drop_last(), right, ambient, path);
    } else {
        assert(left + right =~= right);
    }
}

proof fn lemma_skip_right(
    left: Seq<(Seq<bool>, u32)>,
    right: Seq<(Seq<bool>, u32)>,
    ambient: u32,
    path: spec_fn(int) -> bool,
)
    requires
        forall|i: int| 0 <= i < right.len() ==> !starts_with(path, (#[trigger] right[i]).0),
    ensures
        longest_match(left + right, ambient, path) == longest_match(left, ambient, path),
    decreases right.len(),
{
    if right.len() > 0 {
        assert((left + right).drop_last() =~= left + right.drop_last());
        assert((left + right).last() == right.last());
        assert(right[right.len() - 1] == right.last());
        assert forall|i: int| 0 <= i < right.drop_last().len() implies !starts_with(
            path,
            (#[trigger] right.drop_last()[i]).0,
        ) by {
            assert(right.drop_last()[i] == right[i]);
        }
        lemma_skip_right(left, right.drop_last(), ambient, path);
    } else {
        assert(left + right =~= left);
    }
}

/// A covering entry acts as the background of the longer ones.
proof fn lemma_cover_match(
    prefix: Seq<bool>,
    asn: u32,
    inner: Seq<(Seq<bool>, u32)>,
    ambient: u32,
    path: spec_fn(int) -> bool,
)
    requires
        starts_with(path, prefix),
        forall|i: int| 0 <= i < inner.len() ==> (#[trigger] inner[i]).0.len() > prefix.len(),
    ensures
        longest_match(seq![(prefix, asn)] + inner, ambient, path) == ({
            let below = longest_match(inner, asn, path);
            if below.0 == -1 {
                (prefix.len() as int, asn)
            } else {
                below
            }
        }),
        longest_match(inner, asn, path).0 == -1 ==> longest_match(inner, asn, path).1 == asn,
        longest_match(inner, asn, path).0 == -1 || longest_match(inner, asn, path).0
            > prefix.len(),
    decreases inner.len(),
{
    let head = seq![(prefix, asn)];
    let all = head + inner;
    if inner.len() == 0 {
        assert(all =~= head);
        assert(all.drop_last() =~= Seq::empty());
        assert(all.last() == (prefix, asn));
        assert(longest_match(all.drop_last(), ambient, path) == (-1int, ambient));
    } else {
        assert(all.drop_last() =~= head + inner.drop_last());
        assert(all.last() == inner.last());
        assert(inner[inner.len() - 1] == inner.last());
        assert forall|i: int| 0 <= i < inner.drop_last().len() implies (
        #[trigger] inner.drop_last()[i]).0.len() > prefix.len() by {
            assert(inner.drop_last()[i] == inner[i]);
        }
        lemma_cover_match(prefix, asn, inner.drop_last(), ambient, path);
    }
}

/// The entries of the assigned leaves, in address order. With `fill`, a subtree
/// with two or more entries, all for one number, is one entry.
pub open spec fn flat_entries(node: TrieNode, prefix: Seq<bool>, fill: bool) -> Seq<
    (Seq<bool>, u32),
>
    decreases node,
{
    match node {
        TrieNode::Leaf(v) => if v > 0 {
            seq![(prefix, v)]
        } else {
            Seq::empty()
        },
        TrieNode::Branch(left, right) => {
            let all = flat_entries(*left, prefix.push(false), fill) + flat_entries(
                *right,
                prefix.push(true),
                fill,
            );
            if fill && all.len() > 1 && one_asn(all) {
                seq![(prefix, all[0].1)]
            } else {
                all
            }
        },
    }
}

/// All entries carry the number of the first.
pub open spec fn one_asn(entries: Seq<(Seq<bool>, u32)>) -> bool {
    forall|i: int| 0 <= i < entries.len() ==> (#[trigger] entries[i]).1 == entries[0].1
}

/// The list that [`ASMap::to_entries`] gives.
pub open spec fn map_entries(trie: TrieNode, fill: bool, overlapping: bool) -> Seq<
    (Seq<bool>, u32),
> {
    if overlapping {
        chosen::<EntryList>(trie, fill)
    } else {
        flat_entries(trie, Seq::empty(), fill)
    }
}

fn flat_node(node: &TrieNode, prefix: &mut Vec<bool>, fill: bool) -> (entries: Vec<ASNEntry>)
    ensures
        final(prefix)@ == old(prefix)@,
        entries_view(entries@) == flat_entries(*node, old(prefix)@, fill),
    decreases node,
{
    let ghost place = prefix@;
    match node {
        TrieNode::Leaf(v) => {
            let mut entries: Vec<ASNEntry> = Vec::new();
            if *v > 0 {
                entries.push((copy_bits(prefix), *v));
            }
            assert(entries_view(entries@) =~= flat_entries(*node, place, fill));
            entries
        },
        TrieNode::Branch(left, right) => {
            prefix.push(false);
            let mut entries = flat_node(left, prefix, fill);
            prefix.pop();
            assert(prefix@ =~= place);
            prefix.push(true);
            let mut more = flat_node(right, prefix, fill);
            prefix.pop();
            assert(prefix@ =~= place);
            let ghost all = entries_view(entries@) + entries_view(more@);
            entries.append(&mut more);
            assert(entries_view(entries@) =~= all);
            if fill && entries.len() > 1 {
                let first: u32 = entries[0].1;
                let mut i: usize = 0;
                let mut same: bool = true;
                while i < entries.len()
                    invariant
                        i <= entries@.len(),
                        entries@.len() > 1,
                        entries_view(entries@) == all,
                        first == all[0].1,
                        same ==> forall|n: int| 0 <= n < i ==> (#[trigger] all[n]).1 == first,
                        !same ==> !one_asn(all),
                    decreases entries@.len() - i,
                {
                    if entries[i].1 != first {
                        same = false;
                        assert(all[i as int].1 != first);
                    }
                    i = i + 1;
                }
                if same {
                    let mut one: Vec<ASNEntry> = Vec::new();
                    one.push((copy_bits(prefix), first));
                    assert(entries_view(one@) =~= seq![(place, first)]);
                    return one;
                }
            }
            entries
        },
    }
}

impl ASMap {
    /// The map as a list of prefixes; unassigned space is never listed.
    ///
    /// `fill` lets entries cover unassigned space, which can shorten the list and
    /// gives a map that extends this one. `overlapping` lets entries overlap,
    /// longer prefixes overriding shorter ones, and gives a shortest list.
    pub fn to_entries(&self, fill: bool, overlapping: bool) -> (entries: Vec<ASNEntry>)
        ensures
            entries_view(entries@) == map_entries(self@, fill, overlapping),
    {
        if overlapping {
            self.to_entries_minimal(fill)
        } else {
            self.to_entries_flat(fill)
        }
    }

    fn to_entries_flat(&self, fill: bool) -> (entries: Vec<ASNEntry>)
        ensures
            entries_view(entries@) == flat_entries(self@, Seq::empty(), fill),
    {
        let mut prefix: Vec<bool> = Vec::new();
        assert(prefix@ =~= Seq::empty());
        flat_node(self.root(), &mut prefix, fill)
    }

    fn to_entries_minimal(&self, fill: bool) -> (entries: Vec<ASNEntry>)
        ensures
            entries_view(entries@) == chosen::<EntryList>(self@, fill),
    {
        proof {
            lemma_search_holds::<EntryList>(self@, Seq::empty(), fill);
        }
        match best_plan::<EntryList>(self.root(), fill) {
            Some(list) => list.entries,
            None => unreached(),
        }
    }
}

/// No entry is for unassigned space.
pub open spec fn all_assigned(entries: Seq<(Seq<bool>, u32)>) -> bool {
    forall|i: int| 0 <= i < entries.len() ==> (#[trigger] entries[i]).1 != 0
}

/// What holds of the flat list of a subtree.
proof fn lemma_flat(
    node: TrieNode,
    prefix: Seq<bool>,
    fill: bool,
    ambient: u32,
    path: spec_fn(int) -> bool,
)
    ensures
        EntryList::within(flat_entries(node, prefix, fill), prefix),
        all_assigned(flat_entries(node, prefix, fill)),
        starts_with(path, prefix) ==> ({
            let found = resolve(flat_entries(node, prefix, fill), ambient, path);
            let value = node.value(path, prefix.len() as int);
            &&& value != 0 ==> found == value
            &&& value == 0 && !fill ==> found == ambient
        }),
    decreases node,
{
    let entries = flat_entries(node, prefix, fill);
    match node {
        TrieNode::Leaf(v) => {
            if v > 0 {
                EntryList::lemma_single(prefix, v, ambient, path);
            }
        },
        TrieNode::Branch(left, right) => {
            let l = flat_entries(*left, prefix.push(false), fill);
            let r = flat_entries(*right, prefix.push(true), fill);
            let all = l + r;
            let other: u32 = if ambient == 0 {
                1
            } else {
                0
            };
            lemma_flat(*left, prefix.push(false), fill, ambient, path);
            lemma_flat(*right, prefix.push(true), fill, ambient, path);
            lemma_flat(*left, prefix.push(false), fill, other, path);
            lemma_flat(*right, prefix.push(true), fill, other, path);
            lemma_starts_with_push(path, prefix, false);
            lemma_starts_with_push(path, prefix, true);
            EntryList::lemma_both(l, r, prefix, ambient, path);
            EntryList::lemma_both(l, r, prefix, other, path);
            if fill && all.len() > 1 && one_asn(all) {
                assert(entries == seq![(prefix, all[0].1)]);
                EntryList::lemma_single(prefix, all[0].1, ambient, path);
                if starts_with(path, prefix) {
                    assert forall|i: int|
                        0 <= i < all.len() && starts_with(path, (#[trigger] all[i]).0) implies
                        all[i].1 == all[0].1 by {}
                    lemma_resolve_uniform(all, ambient, path, all[0].1);
                    lemma_resolve_uniform(all, other, path, all[0].1);
                }
            }
        },
    }
}

/// With `fill` the flat list is no longer than without.
proof fn lemma_flat_len(node: TrieNode, prefix: Seq<bool>)
    ensures
        flat_entries(node, prefix, true).len() <= flat_entries(node, prefix, false).len(),
    decreases node,
{
    if let TrieNode::Branch(left, right) = node {
        lemma_flat_len(*left, prefix.push(false));
        lemma_flat_len(*right, prefix.push(true));
    }
}

/// No description in the table lists unassigned space.
spec fn table_assigned(table: Map<Option<u32>, Seq<(Seq<bool>, u32)>>) -> bool {
    forall|ctx: Option<u32>| #[trigger] table.dom().contains(ctx) ==> all_assigned(table[ctx])
}

proof fn lemma_shared_assigned(
    left: Map<Option<u32>, Seq<(Seq<bool>, u32)>>,
    right: Map<Option<u32>, Seq<(Seq<bool>, u32)>>,
    ctx: Option<u32>,
)
    requires
        table_assigned(left),
        table_assigned(right),
        shared::<EntryList>(left, right, ctx) is Some,
    ensures
        all_assigned(shared::<EntryList>(left, right, ctx)->0),
{
    assert(left.dom().contains(ctx) ==> all_assigned(left[ctx]));
    assert(left.dom().contains(None) ==> all_assigned(left[None]));
    assert(right.dom().contains(ctx) ==> all_assigned(right[ctx]));
    assert(right.dom().contains(None) ==> all_assigned(right[None]));
}

proof fn lemma_merged_assigned(
    left: Map<Option<u32>, Seq<(Seq<bool>, u32)>>,
    right: Map<Option<u32>, Seq<(Seq<bool>, u32)>>,
    prefix: Seq<bool>,
    hole: bool,
    ctx: Option<u32>,
)
    requires
        table_assigned(left),
        table_assigned(right),
        !hole ==> at(left, Some(0u32)) is None && at(right, Some(0u32)) is None,
        merged_at::<EntryList>(left, right, prefix, hole, ctx) is Some,
    ensures
        all_assigned(merged_at::<EntryList>(left, right, prefix, hole, ctx)->0),
{
    let m = merged_at::<EntryList>(left, right, prefix, hole, ctx)->0;
    if shared::<EntryList>(left, right, ctx) == Some(m) {
        lemma_shared_assigned(left, right, ctx);
    } else {
        let asn = choose|asn: u32| is_best_cover::<EntryList>(left, right, prefix, asn);
        assert(is_best_cover::<EntryList>(left, right, prefix, asn));
        lemma_shared_assigned(left, right, Some(asn));
        let inner = shared::<EntryList>(left, right, Some(asn))->0;
        assert(asn != 0);
        assert(m == seq![(prefix, asn)] + inner);
    }
}

proof fn lemma_plan_assigned(node: TrieNode, prefix: Seq<bool>, fill: bool)
    ensures
        table_assigned(plans::<EntryList>(node, prefix, fill)),
    decreases node,
{
    let table = plans::<EntryList>(node, prefix, fill);
    if let TrieNode::Branch(left_node, right_node) = node {
        let left = plans::<EntryList>(*left_node, prefix.push(false), fill);
        let right = plans::<EntryList>(*right_node, prefix.push(true), fill);
        let hole = has_hole(node, fill);
        lemma_plan_assigned(*left_node, prefix.push(false), fill);
        lemma_plan_assigned(*right_node, prefix.push(true), fill);
        lemma_plans::<EntryList>(*left_node, prefix.push(false), fill);
        lemma_plans::<EntryList>(*right_node, prefix.push(true), fill);
        assert forall|ctx: Option<u32>| #[trigger] table.dom().contains(ctx) implies all_assigned(
            table[ctx],
        ) by {
            lemma_merged_assigned(left, right, prefix, hole, ctx);
        }
    }
}

/// Rebuilding a map from its entries gives the same map, whichever form of the
/// list is used.
pub proof fn entries_round_trip(trie: TrieNode, overlapping: bool, rebuilt: TrieNode)
    requires
        trie.canonical(),
        rebuilt.canonical(),
        forall|path: spec_fn(int) -> bool| #[trigger]
            rebuilt.value(path, 0) == resolve(map_entries(trie, false, overlapping), 0, path),
    ensures
        rebuilt == trie,
{
    assert forall|path: spec_fn(int) -> bool| #[trigger]
        rebuilt.value(path, 0) == trie.value(path, 0) by {
        lemma_map_entries(trie, false, overlapping, path);
    }
    normal_form_is_unique(rebuilt, trie);
}

/// A map rebuilt from filled entries agrees with every assignment of the map
/// that was listed.
pub proof fn filled_entries_extend_the_map(trie: TrieNode, overlapping: bool, rebuilt: TrieNode)
    requires
        forall|path: spec_fn(int) -> bool| #[trigger]
            rebuilt.value(path, 0) == resolve(map_entries(trie, true, overlapping), 0, path),
    ensures
        extends_trie(rebuilt, trie),
{
    assert forall|path: spec_fn(int) -> bool|
        #![trigger rebuilt.value(path, 0)]
        #![trigger trie.value(path, 0)]
        trie.value(path, 0) != 0 implies rebuilt.value(path, 0) == trie.value(path, 0) by {
        lemma_map_entries(trie, true, overlapping, path);
    }
}

proof fn lemma_map_entries(
    trie: TrieNode,
    fill: bool,
    overlapping: bool,
    path: spec_fn(int) -> bool,
)
    ensures
        resolve(map_entries(trie, fill, overlapping), 0, path) == trie.value(path, 0) || (fill
            && trie.value(path, 0) == 0),
{
    assert(starts_with(path, Seq::empty()));
    if overlapping {
        lemma_chosen::<EntryList>(trie, fill, path);
    } else {
        lemma_flat(trie, Seq::empty(), fill, 0, path);
    }
}

/// Unassigned space is never listed.
pub proof fn unassigned_space_is_never_listed(trie: TrieNode, fill: bool, overlapping: bool)
    ensures
        all_assigned(map_entries(trie, fill, overlapping)),
{
    if overlapping {
        lemma_plan_assigned(trie, Seq::empty(), fill);
        let table = plans::<EntryList>(trie, Seq::empty(), fill);
        assert(at(table, Some(0u32)) is Some ==> all_assigned(table[Some(0u32)]));
        assert(at(table, None) is Some ==> all_assigned(table[None]));
    } else {
        lemma_flat(trie, Seq::empty(), fill, 0, |i: int| false);
    }
}

/// The prefixes of a list increase in dictionary order.
pub open spec fn in_order(list: Seq<(Seq<bool>, u32)>) -> bool {
    forall|i: int, j: int|
        0 <= i < j < list.len() ==> bits_lt((#[trigger] list[i]).0, (#[trigger] list[j]).0)
}

/// No prefix of a list lies within another.
pub open spec fn disjoint(list: Seq<(Seq<bool>, u32)>) -> bool {
    forall|i: int, j: int|
        0 <= i < list.len() && 0 <= j < list.len() && i != j ==> !extends_prefix(
            (#[trigger] list[i]).0,
            (#[trigger] list[j]).0,
        )
}

/// What lies within `prefix` followed by `bit` has that bit.
proof fn lemma_next_bit(m: Seq<(Seq<bool>, u32)>, prefix: Seq<bool>, bit: bool)
    requires
        EntryList::within(m, prefix.push(bit)),
    ensures
        forall|i: int|
            0 <= i < m.len() ==> {
                let e = (#[trigger] m[i]).0;
                e.len() > prefix.len() && e.take(prefix.len() as int) == prefix && e[
                    prefix.len() as int
                ] == bit
            },
{
    lemma_within_shorter(m, prefix, bit);
    let n = prefix.len() as int;
    assert forall|i: int| 0 <= i < m.len() implies {
        let e = (#[trigger] m[i]).0;
        e.len() > n && e.take(n) == prefix && e[n] == bit
    } by {
        assert(extends_prefix(m[i].0, prefix.push(bit)));
        assert(m[i].0.take(n + 1)[n] == bit);
        assert(extends_prefix(m[i].0, prefix));
    }
}

/// The lists of the two sides, one after the other.
proof fn lemma_both_in_order(
    left: Seq<(Seq<bool>, u32)>,
    right: Seq<(Seq<bool>, u32)>,
    prefix: Seq<bool>,
)
    requires
        EntryList::within(left, prefix.push(false)),
        EntryList::within(right, prefix.push(true)),
        in_order(left),
        in_order(right),
    ensures
        in_order(left + right),
        EntryList::within(left + right, prefix),
        forall|i: int|
            0 <= i < (left + right).len() ==> (#[trigger] (left + right)[i]).0.len() > prefix.len(),
        disjoint(left) && disjoint(right) ==> disjoint(left + right),
{
    let n = prefix.len() as int;
    let all = left + right;
    lemma_next_bit(left, prefix, false);
    lemma_next_bit(right, prefix, true);
    assert forall|i: int| 0 <= i < all.len() implies {
        let e = (#[trigger] all[i]).0;
        e.len() > n && e.take(n) == prefix && e[n] == (i >= left.len())
    } by {
        if i < left.len() {
            assert(all[i] == left[i]);
        } else {
            assert(all[i] == right[i - left.len()]);
        }
    }
    assert forall|i: int, j: int| 0 <= i < j < all.len() implies bits_lt(
        (#[trigger] all[i]).0,
        (#[trigger] all[j]).0,
    ) by {
        if j < left.len() {
            assert(all[i] == left[i] && all[j] == left[j]);
        } else if i >= left.len() {
            assert(all[i] == right[i - left.len()] && all[j] == right[j - left.len()]);
        } else {
            assert(all[i].0.take(n) == all[j].0.take(n));
        }
    }
    if disjoint(left) && disjoint(right) {
        assert forall|i: int, j: int|
            0 <= i < all.len() && 0 <= j < all.len() && i != j implies !extends_prefix(
            (#[trigger] all[i]).0,
            (#[trigger] all[j]).0,
        ) by {
            if i < left.len() && j < left.len() {
                assert(all[i] == left[i] && all[j] == left[j]);
            } else if i >= left.len() && j >= left.len() {
                assert(all[i] == right[i - left.len()] && all[j] == right[j - left.len()]);
            } else {
                let (e, f) = (all[i].0, all[j].0);
                if extends_prefix(e, f) {
                    assert(e.take(f.len() as int)[n] == e[n]);
                }
            }
        }
    }
}

/// An entry for the node itself comes before those below it.
proof fn lemma_cover_in_order(prefix: Seq<bool>, asn: u32, inner: Seq<(Seq<bool>, u32)>)
    requires
        EntryList::within(inner, prefix),
        in_order(inner),
        forall|i: int| 0 <= i < inner.len() ==> (#[trigger] inner[i]).0.len() > prefix.len(),
    ensures
        in_order(seq![(prefix, asn)] + inner),
        EntryList::within(seq![(prefix, asn)] + inner, prefix),
{
    let n = prefix.len() as int;
    let all = seq![(prefix, asn)] + inner;
    assert(prefix.take(n) =~= prefix);
    assert forall|i: int| 0 <= i < all.len() implies extends_prefix(
        (#[trigger] all[i]).0,
        prefix,
    ) by {
        if i > 0 {
            assert(all[i] == inner[i - 1]);
        }
    }
    assert forall|i: int, j: int| 0 <= i < j < all.len() implies bits_lt(
        (#[trigger] all[i]).0,
        (#[trigger] all[j]).0,
    ) by {
        assert(all[j] == inner[j - 1]);
        if i > 0 {
            assert(all[i] == inner[i - 1]);
        } else {
            assert(all[i].0.take(n) == all[j].0.take(n));
        }
    }
}

/// Every description in the table is in order and lies within `prefix`.
spec fn table_in_order(
    table: Map<Option<u32>, Seq<(Seq<bool>, u32)>>,
    prefix: Seq<bool>,
) -> bool {
    forall|ctx: Option<u32>| #[trigger]
        table.dom().contains(ctx) ==> in_order(table[ctx]) && EntryList::within(table[ctx], prefix)
}

proof fn lemma_shared_in_order(
    left: Map<Option<u32>, Seq<(Seq<bool>, u32)>>,
    right: Map<Option<u32>, Seq<(Seq<bool>, u32)>>,
    prefix: Seq<bool>,
    ctx: Option<u32>,
)
    requires
        table_in_order(left, prefix.push(false)),
        table_in_order(right, prefix.push(true)),
        shared::<EntryList>(left, right, ctx) is Some,
    ensures
        ({
            let m = shared::<EntryList>(left, right, ctx)->0;
            &&& in_order(m)
            &&& EntryList::within(m, prefix)
            &&& forall|i: int| 0 <= i < m.len() ==> (#[trigger] m[i]).0.len() > prefix.len()
        }),
{
    let m = shared::<EntryList>(left, right, ctx)->0;
    if both_sides::<EntryList>(at(left, ctx), at(right, ctx)) == Some(m) {
        lemma_both_in_order(left[ctx], right[ctx], prefix);
    } else if both_sides::<EntryList>(at(left, None), at(right, ctx)) == Some(m) {
        lemma_both_in_order(left[None], right[ctx], prefix);
    } else {
        lemma_both_in_order(left[ctx], right[None], prefix);
    }
}

proof fn lemma_merged_in_order(
    left: Map<Option<u32>, Seq<(Seq<bool>, u32)>>,
    right: Map<Option<u32>, Seq<(Seq<bool>, u32)>>,
    prefix: Seq<bool>,
    hole: bool,
    ctx: Option<u32>,
)
    requires
        table_in_order(left, prefix.push(false)),
        table_in_order(right, prefix.push(true)),
        merged_at::<EntryList>(left, right, prefix, hole, ctx) is Some,
    ensures
        in_order(merged_at::<EntryList>(left, right, prefix, hole, ctx)->0),
        EntryList::within(merged_at::<EntryList>(left, right, prefix, hole, ctx)->0, prefix),
{
    let m = merged_at::<EntryList>(left, right, prefix, hole, ctx)->0;
    if shared::<EntryList>(left, right, ctx) == Some(m) {
        lemma_shared_in_order(left, right, prefix, ctx);
    } else {
        let asn = choose|asn: u32| is_best_cover::<EntryList>(left, right, prefix, asn);
        assert(is_best_cover::<EntryList>(left, right, prefix, asn));
        lemma_shared_in_order(left, right, prefix, Some(asn));
        lemma_cover_in_order(prefix, asn, shared::<EntryList>(left, right, Some(asn))->0);
    }
}

proof fn lemma_plan_in_order(node: TrieNode, prefix: Seq<bool>, fill: bool)
    ensures
        table_in_order(plans::<EntryList>(node, prefix, fill), prefix),
    decreases node,
{
    let table = plans::<EntryList>(node, prefix, fill);
    match node {
        TrieNode::Leaf(_) => {
            assert(prefix.take(prefix.len() as int) =~= prefix);
        },
        TrieNode::Branch(left_node, right_node) => {
            let left = plans::<EntryList>(*left_node, prefix.push(false), fill);
            let right = plans::<EntryList>(*right_node, prefix.push(true), fill);
            let hole = has_hole(node, fill);
            lemma_plan_in_order(*left_node, prefix.push(false), fill);
            lemma_plan_in_order(*right_node, prefix.push(true), fill);
            assert forall|ctx: Option<u32>| #[trigger] table.dom().contains(ctx) implies in_order(
                table[ctx],
            ) && EntryList::within(table[ctx], prefix) by {
                lemma_merged_in_order(left, right, prefix, hole, ctx);
            }
        },
    }
}

proof fn lemma_flat_in_order(node: TrieNode, prefix: Seq<bool>, fill: bool)
    ensures
        in_order(flat_entries(node, prefix, fill)),
        disjoint(flat_entries(node, prefix, fill)),
        EntryList::within(flat_entries(node, prefix, fill), prefix),
    decreases node,
{
    assert(prefix.take(prefix.len() as int) =~= prefix);
    if let TrieNode::Branch(left, right) = node {
        lemma_flat_in_order(*left, prefix.push(false), fill);
        lemma_flat_in_order(*right, prefix.push(true), fill);
        lemma_both_in_order(
            flat_entries(*left, prefix.push(false), fill),
            flat_entries(*right, prefix.push(true), fill),
            prefix,
        );
    }
}

/// Entries are listed in the order of their prefixes, each prefix once.
pub proof fn entries_are_in_address_order(trie: TrieNode, fill: bool, overlapping: bool)
    ensures
        in_order(map_entries(trie, fill, overlapping)),
        forall|i: int, j: int|
            0 <= i < j < map_entries(trie, fill, overlapping).len() ==> (
            #[trigger] map_entries(trie, fill, overlapping)[i]).0 != (
            #[trigger] map_entries(trie, fill, overlapping)[j]).0,
{
    if overlapping {
        lemma_plan_in_order(trie, Seq::empty(), fill);
        let table = plans::<EntryList>(trie, Seq::empty(), fill);
        assert(at(table, Some(0u32)) is Some ==> in_order(table[Some(0u32)]));
        assert(at(table, None) is Some ==> in_order(table[None]));
    } else {
        lemma_flat_in_order(trie, Seq::empty(), fill);
    }
}

/// In a list without overlaps no prefix lies within another.
pub proof fn flat_entries_are_disjoint(trie: TrieNode, fill: bool)
    ensures
        disjoint(map_entries(trie, fill, false)),
{
    lemma_flat_in_order(trie, Seq::empty(), fill);
}

/// The entries of `list` that extend `prefix`.
spec fn below(list: Seq<(Seq<bool>, u32)>, prefix: Seq<bool>) -> Seq<(Seq<bool>, u32)>
    decreases list.len(),
{
    if list.len() == 0 {
        Seq::empty()
    } else if extends_prefix(list.last().0, prefix) {
        below(list.drop_last(), prefix).push(list.last())
    } else {
        below(list.drop_last(), prefix)
    }
}

/// The number of the last entry for exactly `prefix`.
spec fn exact(list: Seq<(Seq<bool>, u32)>, prefix: Seq<bool>) -> Option<u32>
    decreases list.len(),
{
    if list.len() == 0 {
        None
    } else if list.last().0 == prefix {
        Some(list.last().1)
    } else {
        exact(list.drop_last(), prefix)
    }
}

/// What the node's own entry makes of the background.
spec fn background(list: Seq<(Seq<bool>, u32)>, prefix: Seq<bool>, ambient: u32) -> u32 {
    match exact(list, prefix) {
        Some(asn) => asn,
        None => ambient,
    }
}

/// The parts of a list within `prefix`: what lies below either side and at the
/// node itself.
proof fn lemma_parts(list: Seq<(Seq<bool>, u32)>, prefix: Seq<bool>)
    requires
        EntryList::within(list, prefix),
        all_assigned(list),
    ensures
        EntryList::within(below(list, prefix.push(false)), prefix.push(false)),
        EntryList::within(below(list, prefix.push(true)), prefix.push(true)),
        all_assigned(below(list, prefix.push(false))),
        all_assigned(below(list, prefix.push(true))),
        exact(list, prefix) != Some(0u32),
        below(list, prefix.push(false)).len() + below(list, prefix.push(true)).len() + (if exact(
            list,
            prefix,
        ) is Some {
            1int
        } else {
            0int
        }) <= list.len(),
    decreases list.len(),
{
    if list.len() > 0 {
        let init = list.drop_last();
        assert forall|i: int| 0 <= i < init.len() implies extends_prefix(
            (#[trigger] init[i]).0,
            prefix,
        ) && init[i].1 != 0 by {
            assert(init[i] == list[i]);
        }
        lemma_parts(init, prefix);
        let e = list.last().0;
        assert(list[list.len() - 1] == list.last());
        let n = prefix.len() as int;
        if extends_prefix(e, prefix.push(false)) {
            assert(e.take(n + 1)[n] == false);
            assert(e.len() != prefix.len());
        }
        if extends_prefix(e, prefix.push(true)) {
            assert(e.take(n + 1)[n] == true);
            assert(e.len() != prefix.len());
        }
    }
}

/// Below one side of the node only the entries there and the background count.
proof fn lemma_resolve_side(
    list: Seq<(Seq<bool>, u32)>,
    prefix: Seq<bool>,
    bit: bool,
    ambient: u32,
    other: u32,
    path: spec_fn(int) -> bool,
)
    requires
        EntryList::within(list, prefix),
        starts_with(path, prefix.push(bit)),
    ensures
        ({
            let whole = longest_match(list, ambient, path);
            let part = longest_match(below(list, prefix.push(bit)), other, path);
            if part.0 == -1 {
                &&& part.1 == other
                &&& whole.1 == background(list, prefix, ambient)
                &&& whole.0 <= prefix.len()
            } else {
                &&& whole == part
                &&& part.0 > prefix.len()
            }
        }),
    decreases list.len(),
{
    if list.len() > 0 {
        let init = list.drop_last();
        assert forall|i: int| 0 <= i < init.len() implies extends_prefix(
            (#[trigger] init[i]).0,
            prefix,
        ) by {
            assert(init[i] == list[i]);
        }
        lemma_resolve_side(init, prefix, bit, ambient, other, path);
        let e = list.last().0;
        let n = prefix.len() as int;
        let longer = prefix.push(bit);
        assert(list[list.len() - 1] == list.last());
        assert(extends_prefix(e, prefix));
        lemma_starts_with_push(path, prefix, bit);
        if e.len() == prefix.len() {
            assert(e.take(n) =~= e);
            assert(e == prefix);
            assert(starts_with(path, e));
            assert(!extends_prefix(e, longer));
        } else if e[n] == bit {
            assert(e.take(n + 1) =~= longer) by {
                assert(e.take(n) =~= prefix);
                assert forall|i: int| 0 <= i < n implies e.take(n + 1)[i] == longer[i] by {
                    assert(e.take(n)[i] == prefix[i]);
                }
            }
            assert(extends_prefix(e, longer));
            let sub = below(list, longer);
            assert(sub.drop_last() =~= below(init, longer));
            assert(sub.last() == list.last());
        } else {
            assert(e.take(n + 1)[n] == e[n]);
            assert(!extends_prefix(e, longer));
            assert(!starts_with(path, e)) by {
                assert(path(n) == bit);
                if starts_with(path, e) {
                    assert(path(n) == e[n]);
                }
            }
        }
    }
}

/// `list` against a background of `ambient` answers what the subtree holds, and
/// with `fill` anything where the subtree holds nothing.
#[verifier::opaque]
spec fn list_describes(
    list: Seq<(Seq<bool>, u32)>,
    node: TrieNode,
    prefix: Seq<bool>,
    fill: bool,
    ambient: u32,
) -> bool {
    forall|path: spec_fn(int) -> bool|
        #![trigger node.value(path, prefix.len() as int)]
        starts_with(path, prefix) ==> {
            let value = node.value(path, prefix.len() as int);
            resolve(list, ambient, path) == value || (fill && value == 0)
        }
}

/// A subtree cannot be described by fewer entries than the search found for one
/// of the two contexts that apply.
proof fn lemma_minimal(
    node: TrieNode,
    prefix: Seq<bool>,
    fill: bool,
    ambient: u32,
    list: Seq<(Seq<bool>, u32)>,
)
    requires
        EntryList::within(list, prefix),
        all_assigned(list),
        list_describes(list, node, prefix, fill, ambient),
    ensures
        holds_short(plans::<EntryList>(node, prefix, fill), ambient, list.len()),
    decreases node,
{
    match node {
        TrieNode::Leaf(_) => {
            lemma_minimal_leaf(node, prefix, fill, ambient, list);
        },
        TrieNode::Branch(left_node, right_node) => {
            let table = plans::<EntryList>(node, prefix, fill);
            let left = plans::<EntryList>(*left_node, prefix.push(false), fill);
            let right = plans::<EntryList>(*right_node, prefix.push(true), fill);
            let hole = has_hole(node, fill);
            let ground = background(list, prefix, ambient);
            let l = below(list, prefix.push(false));
            let r = below(list, prefix.push(true));
            lemma_parts(list, prefix);
            lemma_side_described(node, prefix, fill, ambient, list, false);
            lemma_side_described(node, prefix, fill, ambient, list, true);
            lemma_minimal(*left_node, prefix.push(false), fill, ground, l);
            lemma_minimal(*right_node, prefix.push(true), fill, ground, r);
            if hole {
                lemma_hole_ground(node, prefix, fill, ambient, list);
            }
            lemma_merged_minimal(
                left,
                right,
                prefix,
                hole,
                ambient,
                exact(list, prefix),
                l.len(),
                r.len(),
            );
            assert(table == merged::<EntryList>(left, right, prefix, hole));
            assert(at(table, None) == merged_at::<EntryList>(left, right, prefix, hole, None));
            assert(at(table, Some(ambient)) == merged_at::<EntryList>(
                left,
                right,
                prefix,
                hole,
                Some(ambient),
            ));
        },
    }
}

proof fn lemma_minimal_leaf(
    node: TrieNode,
    prefix: Seq<bool>,
    fill: bool,
    ambient: u32,
    list: Seq<(Seq<bool>, u32)>,
)
    requires
        node is Leaf,
        all_assigned(list),
        list_describes(list, node, prefix, fill, ambient),
    ensures
        holds_short(plans::<EntryList>(node, prefix, fill), ambient, list.len()),
{
    reveal(list_describes);
    let v = node->Leaf_0;
    let path = |i: int| prefix[i];
    assert(starts_with(path, prefix));
    assert(node.value(path, prefix.len() as int) == v);
    lemma_resolve_assigned(list, ambient, path);
    let table = plans::<EntryList>(node, prefix, fill);
    if v == 0 {
        assert(fill ==> at(table, None) == Some(Seq::<(Seq<bool>, u32)>::empty()));
        assert(!fill ==> at(table, Some(0u32)) == Some(Seq::<(Seq<bool>, u32)>::empty()));
    } else {
        assert(at(table, Some(v)) == Some(Seq::<(Seq<bool>, u32)>::empty()));
        assert(at(table, None) == Some(seq![(prefix, v)]));
    }
}

/// Where a hole may not be claimed, nothing covers it.
proof fn lemma_hole_ground(
    node: TrieNode,
    prefix: Seq<bool>,
    fill: bool,
    ambient: u32,
    list: Seq<(Seq<bool>, u32)>,
)
    requires
        node is Branch,
        has_hole(node, fill),
        all_assigned(list),
        list_describes(list, node, prefix, fill, ambient),
    ensures
        background(list, prefix, ambient) == 0,
{
    reveal(list_describes);
    if background(list, prefix, ambient) != 0 {
        let path = hole_path(node, prefix, fill);
        assert(node.value(path, prefix.len() as int) == 0);
        lemma_ground_assigned(list, prefix, ambient, path);
    }
}

/// `table` holds a description of at most `n` entries that stands alone or fits
/// the context `Some(ground)`.
spec fn holds_short(
    table: Map<Option<u32>, Seq<(Seq<bool>, u32)>>,
    ground: u32,
    n: nat,
) -> bool {
    ||| at(table, None) matches Some(m) && m.len() <= n
    ||| at(table, Some(ground)) matches Some(m) && m.len() <= n
}

/// Short descriptions of the sides give a short description of the branch.
proof fn lemma_merged_minimal(
    left: Map<Option<u32>, Seq<(Seq<bool>, u32)>>,
    right: Map<Option<u32>, Seq<(Seq<bool>, u32)>>,
    prefix: Seq<bool>,
    hole: bool,
    ambient: u32,
    own: Option<u32>,
    ln: nat,
    rn: nat,
)
    requires
        own != Some(0u32),
        hole ==> own is None && ambient == 0,
        ({
            let ground = if own is Some {
                own->0
            } else {
                ambient
            };
            holds_short(left, ground, ln) && holds_short(right, ground, rn)
        }),
    ensures
        ({
            let n = ln + rn + if own is Some {
                1nat
            } else {
                0nat
            };
            ||| merged_at::<EntryList>(left, right, prefix, hole, None) matches Some(m) && m.len()
                <= n
            ||| merged_at::<EntryList>(left, right, prefix, hole, Some(ambient)) matches Some(m)
                && m.len() <= n
        }),
{
    let ground = if own is Some {
        own->0
    } else {
        ambient
    };
    let here = shared::<EntryList>(left, right, Some(ground));
    let alone = shared::<EntryList>(left, right, None);
    assert((alone matches Some(m) && m.len() <= ln + rn) || (here matches Some(m) && m.len() <= ln
        + rn));
    if here is Some && !hole {
        lemma_best_cover_exists(left, right, prefix, ground);
    }
}

/// A list without unassigned space answers with the background or with a number.
proof fn lemma_resolve_assigned(
    list: Seq<(Seq<bool>, u32)>,
    ambient: u32,
    path: spec_fn(int) -> bool,
)
    requires
        all_assigned(list),
    ensures
        longest_match(list, ambient, path).0 == -1 ==> resolve(list, ambient, path) == ambient,
        longest_match(list, ambient, path).0 != -1 ==> resolve(list, ambient, path) != 0,
    decreases list.len(),
{
    if list.len() > 0 {
        let init = list.drop_last();
        assert forall|i: int| 0 <= i < init.len() implies (#[trigger] init[i]).1 != 0 by {
            assert(init[i] == list[i]);
        }
        assert(list[list.len() - 1] == list.last());
        lemma_resolve_assigned(init, ambient, path);
    }
}

/// An entry for the node itself matches every path below the node.
proof fn lemma_exact_matches(
    list: Seq<(Seq<bool>, u32)>,
    prefix: Seq<bool>,
    ambient: u32,
    path: spec_fn(int) -> bool,
)
    requires
        starts_with(path, prefix),
        exact(list, prefix) is Some,
    ensures
        longest_match(list, ambient, path).0 >= prefix.len(),
    decreases list.len(),
{
    if list.last().0 != prefix {
        lemma_exact_matches(list.drop_last(), prefix, ambient, path);
    }
}

/// Under an assigned background everything is assigned.
proof fn lemma_ground_assigned(
    list: Seq<(Seq<bool>, u32)>,
    prefix: Seq<bool>,
    ambient: u32,
    path: spec_fn(int) -> bool,
)
    requires
        all_assigned(list),
        starts_with(path, prefix),
        background(list, prefix, ambient) != 0,
    ensures
        resolve(list, ambient, path) != 0,
{
    lemma_resolve_assigned(list, ambient, path);
    if exact(list, prefix) is Some {
        lemma_exact_matches(list, prefix, ambient, path);
    }
}

/// A path into a hole.
proof fn hole_path(node: TrieNode, prefix: Seq<bool>, fill: bool) -> (path: spec_fn(int) -> bool)
    requires
        has_hole(node, fill),
    ensures
        starts_with(path, prefix),
        node.value(path, prefix.len() as int) == 0,
    decreases node,
{
    match node {
        TrieNode::Leaf(_) => {
            let path = |i: int| prefix[i];
            assert(starts_with(path, prefix));
            path
        },
        TrieNode::Branch(left, right) => {
            let bit = !has_hole(*left, fill);
            let path = hole_path(node.child(bit), prefix.push(bit), fill);
            lemma_starts_with_push(path, prefix, bit);
            lemma_child_value(node, path, prefix.len() as int);
            path
        },
    }
}

/// A list that describes a branch describes each of its sides.
proof fn lemma_side_described(
    node: TrieNode,
    prefix: Seq<bool>,
    fill: bool,
    ambient: u32,
    list: Seq<(Seq<bool>, u32)>,
    bit: bool,
)
    requires
        EntryList::within(list, prefix),
        list_describes(list, node, prefix, fill, ambient),
    ensures
        list_describes(
            below(list, prefix.push(bit)),
            node.child(bit),
            prefix.push(bit),
            fill,
            background(list, prefix, ambient),
        ),
{
    reveal(list_describes);
    assert forall|path: spec_fn(int) -> bool|
        #![trigger node.child(bit).value(path, prefix.push(bit).len() as int)]
        starts_with(path, prefix.push(bit)) implies {
        let value = node.child(bit).value(path, prefix.push(bit).len() as int);
        resolve(below(list, prefix.push(bit)), background(list, prefix, ambient), path) == value
            || (fill && value == 0)
    } by {
        lemma_starts_with_push(path, prefix, bit);
        lemma_child_value(node, path, prefix.len() as int);
        lemma_resolve_side(
            list,
            prefix,
            bit,
            ambient,
            background(list, prefix, ambient),
            path,
        );
        assert(node.value(path, prefix.len() as int) == node.child(bit).value(
            path,
            prefix.len() as int + 1,
        ));
    }
}

/// Where some number can be set for a branch, a cheapest one can.
proof fn find_best_cover(
    left: Map<Option<u32>, Seq<(Seq<bool>, u32)>>,
    right: Map<Option<u32>, Seq<(Seq<bool>, u32)>>,
    prefix: Seq<bool>,
    asn: u32,
) -> (best: u32)
    requires
        shared::<EntryList>(left, right, Some(asn)) is Some,
    ensures
        is_best_cover::<EntryList>(left, right, prefix, best),
    decreases cover_cost::<EntryList>(left, right, prefix, asn), asn,
{
    if is_best_cover::<EntryList>(left, right, prefix, asn) {
        asn
    } else {
        let other = choose|other: u32|
            (#[trigger] shared::<EntryList>(left, right, Some(other))) is Some && {
                let mine = cover_cost::<EntryList>(left, right, prefix, asn);
                let theirs = cover_cost::<EntryList>(left, right, prefix, other);
                !(mine < theirs || (mine == theirs && asn <= other))
            };
        find_best_cover(left, right, prefix, other)
    }
}

proof fn lemma_best_cover_exists(
    left: Map<Option<u32>, Seq<(Seq<bool>, u32)>>,
    right: Map<Option<u32>, Seq<(Seq<bool>, u32)>>,
    prefix: Seq<bool>,
    asn: u32,
)
    requires
        shared::<EntryList>(left, right, Some(asn)) is Some,
    ensures
        best_cover::<EntryList>(left, right, prefix) is Some,
        best_cover::<EntryList>(left, right, prefix)->0.len() <= 1 + shared::<EntryList>(
            left,
            right,
            Some(asn),
        )->0.len(),
{
    let found = find_best_cover(left, right, prefix, asn);
    let picked = choose|k: u32| is_best_cover::<EntryList>(left, right, prefix, k);
    assert(is_best_cover::<EntryList>(left, right, prefix, picked));
    assert(cover_cost::<EntryList>(left, right, prefix, picked) <= cover_cost::<EntryList>(
        left,
        right,
        prefix,
        asn,
    ));
}

/// The overlapping list is a shortest one: no list that leaves unassigned space
/// unlisted describes the map, or with `fill` a map that extends it, with fewer
/// entries.
pub proof fn overlapping_entries_are_shortest(
    trie: TrieNode,
    fill: bool,
    list: Seq<(Seq<bool>, u32)>,
)
    requires
        all_assigned(list),
        forall|path: spec_fn(int) -> bool|
            #![trigger trie.value(path, 0)]
            resolve(list, 0, path) == trie.value(path, 0) || (fill && trie.value(path, 0) == 0),
    ensures
        map_entries(trie, fill, true).len() <= list.len(),
{
    assert forall|i: int| 0 <= i < list.len() implies extends_prefix(
        (#[trigger] list[i]).0,
        Seq::empty(),
    ) by {
        assert(list[i].0.take(0) =~= Seq::empty());
    }
    assert(list_describes(list, trie, Seq::empty(), fill, 0)) by {
        reveal(list_describes);
    }
    lemma_minimal(trie, Seq::empty(), fill, 0, list);
    lemma_plans::<EntryList>(trie, Seq::empty(), fill);
}

/// The part of a disjoint list below a prefix is disjoint.
proof fn lemma_below_disjoint(list: Seq<(Seq<bool>, u32)>, prefix: Seq<bool>)
    requires
        disjoint(list),
    ensures
        disjoint(below(list, prefix)),
        forall|i: int|
            0 <= i < below(list, prefix).len() ==> exists|k: int|
                0 <= k < list.len() && #[trigger] list[k] == #[trigger] below(list, prefix)[i],
    decreases list.len(),
{
    if list.len() > 0 {
        let init = list.drop_last();
        let part = below(list, prefix);
        let before = below(init, prefix);
        assert forall|i: int, j: int|
            0 <= i < init.len() && 0 <= j < init.len() && i != j implies !extends_prefix(
            (#[trigger] init[i]).0,
            (#[trigger] init[j]).0,
        ) by {
            assert(init[i] == list[i] && init[j] == list[j]);
        }
        lemma_below_disjoint(init, prefix);
        assert forall|i: int| 0 <= i < before.len() implies exists|k: int|
            0 <= k < list.len() - 1 && #[trigger] list[k] == #[trigger] before[i] by {
            let k = choose|k: int| 0 <= k < init.len() && #[trigger] init[k] == before[i];
            assert(list[k] == before[i]);
        }
        if extends_prefix(list.last().0, prefix) {
            assert(part == before.push(list.last()));
            assert forall|i: int| 0 <= i < part.len() implies exists|k: int|
                0 <= k < list.len() && #[trigger] list[k] == #[trigger] part[i] by {
                if i < before.len() {
                    assert(part[i] == before[i]);
                } else {
                    assert(list[list.len() - 1] == part[i]);
                }
            }
            assert forall|i: int, j: int|
                0 <= i < part.len() && 0 <= j < part.len() && i != j implies !extends_prefix(
                (#[trigger] part[i]).0,
                (#[trigger] part[j]).0,
            ) by {
                if i < before.len() && j < before.len() {
                    assert(part[i] == before[i] && part[j] == before[j]);
                } else {
                    let m: int = if i < before.len() {
                        i
                    } else {
                        j
                    };
                    assert(part[m] == before[m]);
                    let k = choose|k: int|
                        0 <= k < list.len() - 1 && #[trigger] list[k] == before[m];
                    assert(list[k] == part[m] && list[list.len() - 1] == list.last());
                }
            }
        }
    }
}

/// In a disjoint list an entry for the node leaves no room for another.
proof fn lemma_exact_alone(list: Seq<(Seq<bool>, u32)>, prefix: Seq<bool>)
    requires
        EntryList::within(list, prefix),
        disjoint(list),
        exact(list, prefix) is Some,
    ensures
        list == seq![(prefix, exact(list, prefix)->0)],
{
    let k = lemma_exact_at(list, prefix);
    if list.len() > 1 {
        let other: int = if k == 0 {
            1
        } else {
            0
        };
        assert(extends_prefix(list[other].0, list[k].0));
    }
}

proof fn lemma_exact_at(list: Seq<(Seq<bool>, u32)>, prefix: Seq<bool>) -> (k: int)
    requires
        exact(list, prefix) is Some,
    ensures
        0 <= k < list.len(),
        list[k] == (prefix, exact(list, prefix)->0),
    decreases list.len(),
{
    if list.last().0 == prefix {
        list.len() - 1
    } else {
        let k = lemma_exact_at(list.drop_last(), prefix);
        assert(list.drop_last()[k] == list[k]);
        k
    }
}

/// Everything below `prefix` has the number `asn`, or none where `fill` is set.
#[verifier::opaque]
spec fn uniform(node: TrieNode, prefix: Seq<bool>, fill: bool, asn: u32) -> bool {
    forall|path: spec_fn(int) -> bool|
        #![trigger node.value(path, prefix.len() as int)]
        starts_with(path, prefix) ==> {
            let value = node.value(path, prefix.len() as int);
            value == asn || (fill && value == 0)
        }
}

proof fn lemma_uniform_child(node: TrieNode, prefix: Seq<bool>, fill: bool, asn: u32, bit: bool)
    requires
        uniform(node, prefix, fill, asn),
    ensures
        uniform(node.child(bit), prefix.push(bit), fill, asn),
{
    reveal(uniform);
    assert forall|path: spec_fn(int) -> bool|
        #![trigger node.child(bit).value(path, prefix.push(bit).len() as int)]
        starts_with(path, prefix.push(bit)) implies {
        let value = node.child(bit).value(path, prefix.push(bit).len() as int);
        value == asn || (fill && value == 0)
    } by {
        lemma_starts_with_push(path, prefix, bit);
        lemma_child_value(node, path, prefix.len() as int);
    }
}

/// A subtree with one number needs at most one entry.
proof fn lemma_uniform_flat(node: TrieNode, prefix: Seq<bool>, fill: bool, asn: u32)
    requires
        uniform(node, prefix, fill, asn),
        !fill ==> node.canonical(),
    ensures
        !fill ==> node == TrieNode::Leaf(asn),
        flat_entries(node, prefix, fill).len() <= 1,
        forall|i: int|
            0 <= i < flat_entries(node, prefix, fill).len() ==> (
            #[trigger] flat_entries(node, prefix, fill)[i]).1 == asn,
    decreases node,
{
    match node {
        TrieNode::Leaf(v) => {
            reveal(uniform);
            let path = |i: int| prefix[i];
            assert(starts_with(path, prefix));
            assert(node.value(path, prefix.len() as int) == v);
        },
        TrieNode::Branch(left, right) => {
            lemma_uniform_child(node, prefix, fill, asn, false);
            lemma_uniform_child(node, prefix, fill, asn, true);
            lemma_uniform_flat(*left, prefix.push(false), fill, asn);
            lemma_uniform_flat(*right, prefix.push(true), fill, asn);
            let l = flat_entries(*left, prefix.push(false), fill);
            let r = flat_entries(*right, prefix.push(true), fill);
            let all = l + r;
            assert forall|i: int| 0 <= i < all.len() implies (#[trigger] all[i]).1 == asn by {
                if i < l.len() {
                    assert(all[i] == l[i]);
                } else {
                    assert(all[i] == r[i - l.len()]);
                }
            }
        },
    }
}

proof fn lemma_flat_minimal(
    node: TrieNode,
    prefix: Seq<bool>,
    fill: bool,
    list: Seq<(Seq<bool>, u32)>,
)
    requires
        !fill ==> node.canonical(),
        EntryList::within(list, prefix),
        all_assigned(list),
        disjoint(list),
        list_describes(list, node, prefix, fill, 0),
    ensures
        flat_entries(node, prefix, fill).len() <= list.len(),
    decreases node,
{
    match node {
        TrieNode::Leaf(v) => {
            reveal(list_describes);
            let path = |i: int| prefix[i];
            assert(starts_with(path, prefix));
            assert(node.value(path, prefix.len() as int) == v);
        },
        TrieNode::Branch(left, right) => {
            if let Some(asn) = exact(list, prefix) {
                lemma_exact_alone(list, prefix);
                assert(uniform(node, prefix, fill, asn)) by {
                    reveal(uniform);
                    reveal(list_describes);
                    assert forall|path: spec_fn(int) -> bool|
                        #![trigger node.value(path, prefix.len() as int)]
                        starts_with(path, prefix) implies {
                        let value = node.value(path, prefix.len() as int);
                        value == asn || (fill && value == 0)
                    } by {
                        lemma_parts(list, prefix);
                        EntryList::lemma_single(prefix, asn, 0, path);
                    }
                }
                lemma_uniform_flat(node, prefix, fill, asn);
            } else {
                let l = below(list, prefix.push(false));
                let r = below(list, prefix.push(true));
                lemma_parts(list, prefix);
                lemma_below_disjoint(list, prefix.push(false));
                lemma_below_disjoint(list, prefix.push(true));
                lemma_side_described(node, prefix, fill, 0, list, false);
                lemma_side_described(node, prefix, fill, 0, list, true);
                lemma_flat_minimal(*left, prefix.push(false), fill, l);
                lemma_flat_minimal(*right, prefix.push(true), fill, r);
            }
        },
    }
}

/// The list without overlaps is a shortest one of its kind: no disjoint list
/// that leaves unassigned space unlisted describes the map, or with `fill` a map
/// that extends it, with fewer entries.
pub proof fn flat_entries_are_shortest(trie: TrieNode, fill: bool, list: Seq<(Seq<bool>, u32)>)
    requires
        !fill ==> trie.canonical(),
        all_assigned(list),
        disjoint(list),
        forall|path: spec_fn(int) -> bool|
            #![trigger trie.value(path, 0)]
            resolve(list, 0, path) == trie.value(path, 0) || (fill && trie.value(path, 0) == 0),
    ensures
        map_entries(trie, fill, false).len() <= list.len(),
{
    assert forall|i: int| 0 <= i < list.len() implies extends_prefix(
        (#[trigger] list[i]).0,
        Seq::empty(),
    ) by {
        assert(list[i].0.take(0) =~= Seq::empty());
    }
    assert(list_describes(list, trie, Seq::empty(), fill, 0)) by {
        reveal(list_describes);
    }
    lemma_flat_minimal(trie, Seq::empty(), fill, list);
}

/// Neither overlapping nor filling makes a list longer.
pub proof fn overlapping_and_filling_never_lengthen(trie: TrieNode)
    ensures
        map_entries(trie, false, true).len() <= map_entries(trie, false, false).len(),
        map_entries(trie, true, true).len() <= map_entries(trie, true, false).len(),
        map_entries(trie, true, true).len() <= map_entries(trie, false, true).len(),
        map_entries(trie, true, false).len() <= map_entries(trie, false, false).len(),
{
    assert forall|fill: bool, overlapping: bool, path: spec_fn(int) -> bool| #[trigger]
        resolve(map_entries(trie, fill, overlapping), 0, path) == trie.value(path, 0) || (fill
            && trie.value(path, 0) == 0) by {
        lemma_map_entries(trie, fill, overlapping, path);
    }
    unassigned_space_is_never_listed(trie, false, false);
    unassigned_space_is_never_listed(trie, true, false);
    unassigned_space_is_never_listed(trie, false, true);
    overlapping_entries_are_shortest(trie, false, map_entries(trie, false, false));
    overlapping_entries_are_shortest(trie, true, map_entries(trie, true, false));
    overlapping_entries_are_shortest(trie, true, map_entries(trie, false, true));
    lemma_flat_len(trie, Seq::empty());
}

/// Bit strings are in dictionary order: the one that has ended, or has a zero where
/// the other has a one, comes first.
pub proof fn bit_strings_are_in_dictionary_order(
    common: Seq<bool>,
    a: Seq<bool>,
    b: Seq<bool>,
    bit: bool,
)
    ensures
        bits_lt(common + seq![false] + a, common + seq![true] + b),
        !bits_lt(common + seq![true] + b, common + seq![false] + a),
        bits_lt(common, common + seq![bit] + a),
        !bits_lt(common + seq![bit] + a, common),
        !bits_lt(common, common),
{
    let n = common.len() as int;
    let zero = common + seq![false] + a;
    let one = common + seq![true] + b;
    let more = common + seq![bit] + a;
    assert(zero.take(n) =~= common && one.take(n) =~= common && more.take(n) =~= common);
    assert(common.take(n) =~= common);
    assert(zero.take(n) == one.take(n));
    assert(common.take(n) == more.take(n));
    if bits_lt(one, zero) {
        let m = choose|m: int|
            {
                &&& 0 <= m <= one.len()
                &&& m < zero.len()
                &&& #[trigger] one.take(m) == zero.take(m)
                &&& m == one.len() || !one[m] && zero[m]
            };
        if m > n {
            assert(one.take(m)[n] == zero.take(m)[n]);
        } else if m < n {
            assert(one[m] == common[m] && zero[m] == common[m]);
        }
    }
    if bits_lt(more, common) {
        let m = choose|m: int|
            {
                &&& 0 <= m <= more.len()
                &&& m < common.len()
                &&& #[trigger] more.take(m) == common.take(m)
                &&& m == more.len() || !more[m] && common[m]
            };
        assert(more[m] == common[m]);
    }
}

/// What is said of lists: their prefixes are in order, none lies within another,
/// and no number is zero.
pub proof fn what_is_said_of_lists(list: Seq<(Seq<bool>, u32)>, a: Seq<bool>, b: Seq<bool>)
    ensures
        extends_prefix(a, b) <==> b.len() <= a.len() && forall|k: int|
            0 <= k < b.len() ==> #[trigger] a[k] == b[k],
        in_order(list) <==> forall|i: int, j: int|
            0 <= i < j < list.len() ==> bits_lt((#[trigger] list[i]).0, (#[trigger] list[j]).0),
        disjoint(list) <==> forall|i: int, j: int|
            0 <= i < list.len() && 0 <= j < list.len() && i != j ==> !extends_prefix(
                (#[trigger] list[i]).0,
                (#[trigger] list[j]).0,
            ),
        all_assigned(list) <==> forall|i: int| 0 <= i < list.len() ==> (#[trigger] list[i]).1 != 0,
{
    if b.len() <= a.len() && forall|k: int| 0 <= k < b.len() ==> #[trigger] a[k] == b[k] {
        assert(a.take(b.len() as int) =~= b);
    }
    if extends_prefix(a, b) {
        assert forall|k: int| 0 <= k < b.len() implies #[trigger] a[k] == b[k] by {
            assert(a.take(b.len() as int)[k] == b[k]);
        }
    }
}

/// The list without overlaps: one entry for each assigned leaf, side by side; with
/// filling, a branch that would have several entries, all of one number, has one.
pub proof fn flat_lists_are_made_side_by_side(
    v: u32,
    left: TrieNode,
    right: TrieNode,
    prefix: Seq<bool>,
    fill: bool,
)
    ensures
        v > 0 ==> flat_entries(TrieNode::Leaf(v), prefix, fill) == seq![(prefix, v)],
        flat_entries(TrieNode::Leaf(0), prefix, fill) == Seq::<(Seq<bool>, u32)>::empty(),
        map_entries(left, fill, false) == flat_entries(left, Seq::empty(), fill),
        ({
            let node = TrieNode::Branch(Box::new(left), Box::new(right));
            let sides = flat_entries(left, prefix.push(false), fill) + flat_entries(
                right,
                prefix.push(true),
                fill,
            );
            let alike = forall|i: int|
                0 <= i < sides.len() ==> (#[trigger] sides[i]).1 == sides[0].1;
            &&& fill && sides.len() > 1 && alike ==> flat_entries(node, prefix, fill) == seq![
                (prefix, sides[0].1),
            ]
            &&& !fill || sides.len() <= 1 || !alike ==> flat_entries(node, prefix, fill) == sides
        }),
{
}

/// Lists are weighed by their length and put together as they stand, with an entry
/// that covers others before them.
pub proof fn lists_are_weighed_by_length(
    trie: TrieNode,
    fill: bool,
    a: Seq<(Seq<bool>, u32)>,
    b: Seq<(Seq<bool>, u32)>,
    prefix: Seq<bool>,
    asn: u32,
)
    ensures
        EntryList::cost(a) == a.len(),
        EntryList::nothing().len() == 0,
        EntryList::single(prefix, asn) == seq![(prefix, asn)],
        EntryList::both(a, b) == a + b,
        EntryList::cover(prefix, asn, a) == seq![(prefix, asn)] + a,
        map_entries(trie, fill, true) == chosen::<EntryList>(trie, fill),
{
}

} // verus!
