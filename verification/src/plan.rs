//! The search for a cheapest description of a trie.
//!
//! A subtree can be described in the *context* `Some(k)`, where everything
//! around it already answers `k`, or standing alone, in the context `None`. For
//! every node the search keeps the cheapest description in each context in which
//! one is cheaper than the description that stands alone. The same search gives
//! minimal entry lists and compact binary programs; what a description is, and
//! what it costs, is the business of [`Plan`].

use crate::trie::{
    lemma_child_value, lemma_starts_with_push, lemma_value_local, starts_with, TrieNode,
};
use vstd::prelude::*;

verus! {

/// A description of a subtree.
pub trait Plan: Sized {
    /// What a description is, for the purpose of stating things about it.
    type Model;

    /// The description's model.
    spec fn model(&self) -> Self::Model;

    /// The description's representation is consistent.
    spec fn plan_wf(&self) -> bool;

    /// What a description costs.
    spec fn cost(m: Self::Model) -> nat;

    /// The description that adds nothing to its context.
    spec fn nothing() -> Self::Model;

    /// The description of a subtree that answers `asn` throughout.
    spec fn single(prefix: Seq<bool>, asn: u32) -> Self::Model;

    /// The description of a branch from those of its sides.
    spec fn both(left: Self::Model, right: Self::Model) -> Self::Model;

    /// A description standing alone, from one in the context `Some(asn)`.
    spec fn cover(prefix: Seq<bool>, asn: u32, inner: Self::Model) -> Self::Model;

    /// The description speaks of nothing outside `prefix`.
    spec fn within(m: Self::Model, prefix: Seq<bool>) -> bool;

    /// What a description of the subtree at `prefix` answers for `path`, where
    /// everything around it answers `ambient`.
    spec fn answer(
        m: Self::Model,
        prefix: Seq<bool>,
        ambient: u32,
        path: spec_fn(int) -> bool,
    ) -> u32;

    proof fn lemma_nothing(prefix: Seq<bool>, ambient: u32, path: spec_fn(int) -> bool)
        ensures
            Self::within(Self::nothing(), prefix),
            Self::answer(Self::nothing(), prefix, ambient, path) == ambient,
            Self::cost(Self::nothing()) == 0,
    ;

    /// Whether the machine can hold a description.
    spec fn holds(m: Self::Model) -> bool;

    proof fn lemma_single(prefix: Seq<bool>, asn: u32, ambient: u32, path: spec_fn(int) -> bool)
        requires
            asn >= 1,
        ensures
            Self::within(Self::single(prefix, asn), prefix),
            starts_with(path, prefix) ==> Self::answer(
                Self::single(prefix, asn),
                prefix,
                ambient,
                path,
            ) == asn,
            Self::cost(Self::single(prefix, asn)) <= 64,
    ;

    proof fn lemma_both(
        left: Self::Model,
        right: Self::Model,
        prefix: Seq<bool>,
        ambient: u32,
        path: spec_fn(int) -> bool,
    )
        requires
            Self::within(left, prefix.push(false)),
            Self::within(right, prefix.push(true)),
        ensures
            Self::within(Self::both(left, right), prefix),
            starts_with(path, prefix) ==> Self::answer(
                Self::both(left, right),
                prefix,
                ambient,
                path,
            ) == if path(prefix.len() as int) {
                Self::answer(right, prefix.push(true), ambient, path)
            } else {
                Self::answer(left, prefix.push(false), ambient, path)
            },
            Self::cost(Self::both(left, right)) <= Self::cost(left) + Self::cost(right) + 64,
    ;

    proof fn lemma_cover(
        left: Self::Model,
        right: Self::Model,
        prefix: Seq<bool>,
        asn: u32,
        ambient: u32,
        path: spec_fn(int) -> bool,
    )
        requires
            asn >= 1,
            Self::within(left, prefix.push(false)),
            Self::within(right, prefix.push(true)),
        ensures
            Self::within(Self::cover(prefix, asn, Self::both(left, right)), prefix),
            starts_with(path, prefix) ==> Self::answer(
                Self::cover(prefix, asn, Self::both(left, right)),
                prefix,
                ambient,
                path,
            ) == Self::answer(Self::both(left, right), prefix, asn, path),
            Self::cost(Self::cover(prefix, asn, Self::both(left, right))) <= Self::cost(
                Self::both(left, right),
            ) + 64,
    ;

    /// The cost as a machine integer.
    fn plan_cost(&self) -> (cost: usize)
        requires
            self.plan_wf(),
        ensures
            cost == Self::cost(self.model()),
    ;

    fn plan_nothing() -> (plan: Self)
        ensures
            plan.plan_wf(),
            plan.model() == Self::nothing(),
    ;

    fn plan_single(prefix: &Vec<bool>, asn: u32) -> (plan: Self)
        requires
            asn >= 1,
        ensures
            plan.plan_wf(),
            plan.model() == Self::single(prefix@, asn),
    ;

    fn plan_both(left: &Self, right: &Self) -> (plan: Option<Self>)
        requires
            left.plan_wf(),
            right.plan_wf(),
        ensures
            match plan {
                Some(p) => {
                    &&& p.plan_wf()
                    &&& p.model() == Self::both(left.model(), right.model())
                    &&& Self::holds(p.model())
                },
                None => !Self::holds(Self::both(left.model(), right.model())),
            },
    ;

    fn plan_cover(prefix: &Vec<bool>, asn: u32, inner: &Self) -> (plan: Option<Self>)
        requires
            asn >= 1,
            inner.plan_wf(),
        ensures
            match plan {
                Some(p) => {
                    &&& p.plan_wf()
                    &&& p.model() == Self::cover(prefix@, asn, inner.model())
                    &&& Self::holds(p.model())
                },
                None => !Self::holds(Self::cover(prefix@, asn, inner.model())),
            },
    ;
}

/// The entry of a table for a context.
pub open spec fn at<M>(table: Map<Option<u32>, M>, ctx: Option<u32>) -> Option<M> {
    if table.dom().contains(ctx) {
        Some(table[ctx])
    } else {
        None
    }
}

/// `b` if it is there and `a` is not, or costs more; else `a`.
pub open spec fn cheaper<P: Plan>(a: Option<P::Model>, b: Option<P::Model>) -> Option<P::Model> {
    match (a, b) {
        (_, None) => a,
        (None, Some(_)) => b,
        (Some(x), Some(y)) => if P::cost(y) < P::cost(x) {
            b
        } else {
            a
        },
    }
}

/// The two sides put together, if both are there.
pub open spec fn both_sides<P: Plan>(a: Option<P::Model>, b: Option<P::Model>) -> Option<P::Model> {
    match (a, b) {
        (Some(x), Some(y)) => Some(P::both(x, y)),
        _ => None,
    }
}

/// The cheapest description of a branch in a context, where each side is
/// described in that context or standing alone.
pub open spec fn shared<P: Plan>(
    left: Map<Option<u32>, P::Model>,
    right: Map<Option<u32>, P::Model>,
    ctx: Option<u32>,
) -> Option<P::Model> {
    cheaper::<P>(
        cheaper::<P>(
            both_sides::<P>(at(left, ctx), at(right, ctx)),
            both_sides::<P>(at(left, None), at(right, ctx)),
        ),
        both_sides::<P>(at(left, ctx), at(right, None)),
    )
}

/// What it costs to set `asn` for the branch and to describe it in that context.
pub open spec fn cover_cost<P: Plan>(
    left: Map<Option<u32>, P::Model>,
    right: Map<Option<u32>, P::Model>,
    prefix: Seq<bool>,
    asn: u32,
) -> nat {
    P::cost(P::cover(prefix, asn, shared::<P>(left, right, Some(asn))->0))
}

/// Setting `asn` for the branch is cheapest; of equally cheap numbers the
/// smallest.
pub open spec fn is_best_cover<P: Plan>(
    left: Map<Option<u32>, P::Model>,
    right: Map<Option<u32>, P::Model>,
    prefix: Seq<bool>,
    asn: u32,
) -> bool {
    &&& shared::<P>(left, right, Some(asn)) is Some
    &&& forall|other: u32| #[trigger]
        shared::<P>(left, right, Some(other)) is Some ==> {
            let mine = cover_cost::<P>(left, right, prefix, asn);
            let theirs = cover_cost::<P>(left, right, prefix, other);
            mine < theirs || (mine == theirs && asn <= other)
        }
}

/// The cheapest description that sets a number for the branch.
pub open spec fn best_cover<P: Plan>(
    left: Map<Option<u32>, P::Model>,
    right: Map<Option<u32>, P::Model>,
    prefix: Seq<bool>,
) -> Option<P::Model> {
    if exists|asn: u32| is_best_cover::<P>(left, right, prefix, asn) {
        let asn = choose|asn: u32| is_best_cover::<P>(left, right, prefix, asn);
        Some(P::cover(prefix, asn, shared::<P>(left, right, Some(asn))->0))
    } else {
        None
    }
}

/// The cheapest description of a branch that stands alone. Where the branch has
/// a hole, no number may be set for all of it.
pub open spec fn standalone<P: Plan>(
    left: Map<Option<u32>, P::Model>,
    right: Map<Option<u32>, P::Model>,
    prefix: Seq<bool>,
    hole: bool,
) -> Option<P::Model> {
    if hole {
        shared::<P>(left, right, None)
    } else {
        cheaper::<P>(shared::<P>(left, right, None), best_cover::<P>(left, right, prefix))
    }
}

/// What the table of a branch holds for a context.
pub open spec fn merged_at<P: Plan>(
    left: Map<Option<u32>, P::Model>,
    right: Map<Option<u32>, P::Model>,
    prefix: Seq<bool>,
    hole: bool,
    ctx: Option<u32>,
) -> Option<P::Model> {
    let alone = standalone::<P>(left, right, prefix, hole);
    match ctx {
        None => alone,
        Some(k) => {
            let here = shared::<P>(left, right, ctx);
            if here is Some && (alone is Some ==> P::cost(here->0) < P::cost(alone->0)) && (hole
                ==> k == 0) {
                here
            } else {
                None
            }
        },
    }
}

/// The table of a branch.
pub open spec fn merged<P: Plan>(
    left: Map<Option<u32>, P::Model>,
    right: Map<Option<u32>, P::Model>,
    prefix: Seq<bool>,
    hole: bool,
) -> Map<Option<u32>, P::Model> {
    Map::new(
        |ctx: Option<u32>| merged_at::<P>(left, right, prefix, hole, ctx) is Some,
        |ctx: Option<u32>| merged_at::<P>(left, right, prefix, hole, ctx)->0,
    )
}

/// Whether a subtree has unassigned space that no description may claim.
pub open spec fn has_hole(node: TrieNode, fill: bool) -> bool
    decreases node,
{
    match node {
        TrieNode::Leaf(v) => v == 0,
        TrieNode::Branch(left, right) => !fill && (has_hole(*left, fill) || has_hole(
            *right,
            fill,
        )),
    }
}

/// The table of a node at `prefix`. With `fill` unassigned space may be
/// described as anything.
pub open spec fn plans<P: Plan>(node: TrieNode, prefix: Seq<bool>, fill: bool) -> Map<
    Option<u32>,
    P::Model,
>
    decreases node,
{
    match node {
        TrieNode::Leaf(v) => if v == 0 {
            if fill {
                Map::empty().insert(None, P::nothing())
            } else {
                Map::empty().insert(Some(0u32), P::nothing())
            }
        } else {
            Map::empty().insert(Some(v), P::nothing()).insert(None, P::single(prefix, v))
        },
        TrieNode::Branch(left, right) => merged::<P>(
            plans::<P>(*left, prefix.push(false), fill),
            plans::<P>(*right, prefix.push(true), fill),
            prefix,
            has_hole(node, fill),
        ),
    }
}

/// The two sides put together, if both are there, can be held.
pub open spec fn sides_hold<P: Plan>(a: Option<P::Model>, b: Option<P::Model>) -> bool {
    both_sides::<P>(a, b) matches Some(m) ==> P::holds(m)
}

/// Every description that is weighed for a branch in a context can be held.
pub open spec fn shared_holds<P: Plan>(
    left: Map<Option<u32>, P::Model>,
    right: Map<Option<u32>, P::Model>,
    ctx: Option<u32>,
) -> bool {
    &&& sides_hold::<P>(at(left, ctx), at(right, ctx))
    &&& sides_hold::<P>(at(left, None), at(right, ctx))
    &&& sides_hold::<P>(at(left, ctx), at(right, None))
}

/// The description that sets `asn` for the branch can be held.
pub open spec fn cover_holds<P: Plan>(
    left: Map<Option<u32>, P::Model>,
    right: Map<Option<u32>, P::Model>,
    prefix: Seq<bool>,
    asn: u32,
) -> bool {
    shared::<P>(left, right, Some(asn)) matches Some(m) ==> P::holds(P::cover(prefix, asn, m))
}

/// Every description that is weighed for a branch can be held.
pub open spec fn branch_holds<P: Plan>(
    left: Map<Option<u32>, P::Model>,
    right: Map<Option<u32>, P::Model>,
    prefix: Seq<bool>,
    hole: bool,
) -> bool {
    &&& forall|ctx: Option<u32>| #[trigger] shared_holds::<P>(left, right, ctx)
    &&& !hole ==> forall|asn: u32| #[trigger] cover_holds::<P>(left, right, prefix, asn)
}

/// Every description that the search weighs for a node at `prefix`, and for
/// those below it, can be held.
pub open spec fn search_holds<P: Plan>(node: TrieNode, prefix: Seq<bool>, fill: bool) -> bool
    decreases node,
{
    match node {
        TrieNode::Leaf(_) => true,
        TrieNode::Branch(left, right) => {
            &&& search_holds::<P>(*left, prefix.push(false), fill)
            &&& search_holds::<P>(*right, prefix.push(true), fill)
            &&& branch_holds::<P>(
                plans::<P>(*left, prefix.push(false), fill),
                plans::<P>(*right, prefix.push(true), fill),
                prefix,
                has_hole(node, fill),
            )
        },
    }
}

/// The description of the whole trie: the one in the context of unassigned
/// space, else the one that stands alone.
pub open spec fn chosen<P: Plan>(trie: TrieNode, fill: bool) -> P::Model {
    let table = plans::<P>(trie, Seq::empty(), fill);
    match (at(table, Some(0)), at(table, None)) {
        (Some(m), _) => m,
        (None, Some(m)) => m,
        (None, None) => P::nothing(),
    }
}

/// `m` describes the subtree in a context: it answers what the subtree holds,
/// and with `fill` anything where the subtree holds nothing.
pub open spec fn describes<P: Plan>(
    m: P::Model,
    node: TrieNode,
    prefix: Seq<bool>,
    fill: bool,
    ctx: Option<u32>,
) -> bool {
    forall|ambient: u32, path: spec_fn(int) -> bool|
        starts_with(path, prefix) && (ctx is Some ==> ambient == ctx->0) ==> {
            let value = node.value(path, prefix.len() as int);
            #[trigger] P::answer(m, prefix, ambient, path) == value || (fill && value == 0)
        }
}

/// The largest cost that a description of `leaves` leaves can have.
pub open spec fn cost_bound(leaves: nat) -> int {
    256 * leaves - 128
}

/// What holds of every description in a table.
pub open spec fn table_ok<P: Plan>(
    table: Map<Option<u32>, P::Model>,
    node: TrieNode,
    prefix: Seq<bool>,
    fill: bool,
) -> bool {
    &&& forall|ctx: Option<u32>| #[trigger]
        table.dom().contains(ctx) ==> {
            &&& P::within(table[ctx], prefix)
            &&& P::cost(table[ctx]) <= cost_bound(node.leaf_count())
            &&& describes::<P>(table[ctx], node, prefix, fill, ctx)
        }
    &&& if has_hole(node, fill) && !fill {
        table.dom().contains(Some(0)) && !table.dom().contains(None)
    } else {
        !table.dom().contains(Some(0)) && table.dom().contains(None)
    }
}

proof fn lemma_leaf_count(node: TrieNode)
    ensures
        node.leaf_count() >= 1,
    decreases node,
{
    if let TrieNode::Branch(left, right) = node {
        lemma_leaf_count(*left);
        lemma_leaf_count(*right);
    }
}

/// A shared description comes from descriptions of the two sides.
proof fn lemma_shared<P: Plan>(
    left_node: TrieNode,
    right_node: TrieNode,
    left: Map<Option<u32>, P::Model>,
    right: Map<Option<u32>, P::Model>,
    prefix: Seq<bool>,
    fill: bool,
    ctx: Option<u32>,
) -> (sides: (P::Model, P::Model))
    requires
        table_ok::<P>(left, left_node, prefix.push(false), fill),
        table_ok::<P>(right, right_node, prefix.push(true), fill),
        shared::<P>(left, right, ctx) is Some,
    ensures
        shared::<P>(left, right, ctx)->0 == P::both(sides.0, sides.1),
        P::within(sides.0, prefix.push(false)),
        P::within(sides.1, prefix.push(true)),
        P::cost(sides.0) + P::cost(sides.1) <= cost_bound(left_node.leaf_count()) + cost_bound(
            right_node.leaf_count(),
        ),
        P::within(P::both(sides.0, sides.1), prefix),
        describes::<P>(
            P::both(sides.0, sides.1),
            TrieNode::Branch(Box::new(left_node), Box::new(right_node)),
            prefix,
            fill,
            ctx,
        ),
{
    let first = both_sides::<P>(at(left, ctx), at(right, ctx));
    let second = both_sides::<P>(at(left, None), at(right, ctx));
    let result = shared::<P>(left, right, ctx);
    let (lctx, rctx) = if result == first && first is Some {
        (ctx, ctx)
    } else if result == second && second is Some {
        (None, ctx)
    } else {
        (ctx, None)
    };
    let sides = (left[lctx], right[rctx]);
    let (l, r) = sides;
    let node = TrieNode::Branch(Box::new(left_node), Box::new(right_node));
    assert(result == Some(P::both(l, r)));
    assert(left.dom().contains(lctx) && right.dom().contains(rctx));
    P::lemma_both(l, r, prefix, 0, |i: int| false);
    assert forall|ambient: u32, path: spec_fn(int) -> bool|
        starts_with(path, prefix) && (ctx is Some ==> ambient == ctx->0) implies {
        let value = node.value(path, prefix.len() as int);
        #[trigger] P::answer(P::both(l, r), prefix, ambient, path) == value || (fill && value == 0)
    } by {
        P::lemma_both(l, r, prefix, ambient, path);
        lemma_child_value(node, path, prefix.len() as int);
        lemma_starts_with_push(path, prefix, true);
        lemma_starts_with_push(path, prefix, false);
        if path(prefix.len() as int) {
            assert(describes::<P>(r, right_node, prefix.push(true), fill, rctx));
            let inner = P::answer(r, prefix.push(true), ambient, path);
        } else {
            assert(describes::<P>(l, left_node, prefix.push(false), fill, lctx));
            let inner = P::answer(l, prefix.push(false), ambient, path);
        }
    }
    sides
}

/// Every description in a table describes its subtree, and the table holds one
/// for the context of unassigned space or one that stands alone.
pub proof fn lemma_plans<P: Plan>(node: TrieNode, prefix: Seq<bool>, fill: bool)
    ensures
        table_ok::<P>(plans::<P>(node, prefix, fill), node, prefix, fill),
    decreases node,
{
    let table = plans::<P>(node, prefix, fill);
    match node {
        TrieNode::Leaf(v) => {
            P::lemma_nothing(prefix, 0, |i: int| false);
            if v != 0 {
                P::lemma_single(prefix, v, 0, |i: int| false);
            }
            assert forall|ctx: Option<u32>| #[trigger] table.dom().contains(ctx) implies {
                &&& P::within(table[ctx], prefix)
                &&& P::cost(table[ctx]) <= cost_bound(node.leaf_count())
                &&& describes::<P>(table[ctx], node, prefix, fill, ctx)
            } by {
                assert forall|ambient: u32, path: spec_fn(int) -> bool|
                    starts_with(path, prefix) && (ctx is Some ==> ambient == ctx->0) implies {
                    let value = node.value(path, prefix.len() as int);
                    #[trigger] P::answer(table[ctx], prefix, ambient, path) == value || (fill
                        && value == 0)
                } by {
                    P::lemma_nothing(prefix, ambient, path);
                    if v != 0 {
                        P::lemma_single(prefix, v, ambient, path);
                    }
                }
            }
        },
        TrieNode::Branch(left_node, right_node) => {
            let left = plans::<P>(*left_node, prefix.push(false), fill);
            let right = plans::<P>(*right_node, prefix.push(true), fill);
            let hole = has_hole(node, fill);
            lemma_plans::<P>(*left_node, prefix.push(false), fill);
            lemma_plans::<P>(*right_node, prefix.push(true), fill);
            lemma_leaf_count(*left_node);
            lemma_leaf_count(*right_node);
            assert forall|ctx: Option<u32>| #[trigger] table.dom().contains(ctx) implies {
                &&& P::within(table[ctx], prefix)
                &&& P::cost(table[ctx]) <= cost_bound(node.leaf_count())
                &&& describes::<P>(table[ctx], node, prefix, fill, ctx)
            } by {
                lemma_merged_entry::<P>(
                    *left_node,
                    *right_node,
                    left,
                    right,
                    prefix,
                    fill,
                    hole,
                    ctx,
                );
            }
            assert(table.dom().contains(Some(0u32)) == (merged_at::<P>(
                left,
                right,
                prefix,
                hole,
                Some(0u32),
            ) is Some));
            assert(table.dom().contains(None) == (merged_at::<P>(
                left,
                right,
                prefix,
                hole,
                None,
            ) is Some));
        },
    }
}

proof fn lemma_merged_entry<P: Plan>(
    left_node: TrieNode,
    right_node: TrieNode,
    left: Map<Option<u32>, P::Model>,
    right: Map<Option<u32>, P::Model>,
    prefix: Seq<bool>,
    fill: bool,
    hole: bool,
    ctx: Option<u32>,
)
    requires
        table_ok::<P>(left, left_node, prefix.push(false), fill),
        table_ok::<P>(right, right_node, prefix.push(true), fill),
        left_node.leaf_count() >= 1,
        right_node.leaf_count() >= 1,
        hole == (!fill && (has_hole(left_node, fill) || has_hole(right_node, fill))),
        merged_at::<P>(left, right, prefix, hole, ctx) is Some,
    ensures
        ({
            let node = TrieNode::Branch(Box::new(left_node), Box::new(right_node));
            let m = merged_at::<P>(left, right, prefix, hole, ctx)->0;
            &&& P::within(m, prefix)
            &&& P::cost(m) <= cost_bound(node.leaf_count())
            &&& describes::<P>(m, node, prefix, fill, ctx)
        }),
{
    let node = TrieNode::Branch(Box::new(left_node), Box::new(right_node));
    let m = merged_at::<P>(left, right, prefix, hole, ctx)->0;
    assert(node.leaf_count() == left_node.leaf_count() + right_node.leaf_count());
    if shared::<P>(left, right, ctx) == Some(m) {
        let (l, r) = lemma_shared::<P>(left_node, right_node, left, right, prefix, fill, ctx);
        P::lemma_both(l, r, prefix, 0, |i: int| false);
    } else {
        assert(ctx is None && !hole && best_cover::<P>(left, right, prefix) == Some(m));
        let asn = choose|asn: u32| is_best_cover::<P>(left, right, prefix, asn);
        assert(is_best_cover::<P>(left, right, prefix, asn));
        let (l, r) = lemma_shared::<P>(
            left_node,
            right_node,
            left,
            right,
            prefix,
            fill,
            Some(asn),
        );
        assert(asn != 0);
        P::lemma_both(l, r, prefix, 0, |i: int| false);
        P::lemma_cover(l, r, prefix, asn, 0, |i: int| false);
        assert forall|ambient: u32, path: spec_fn(int) -> bool| starts_with(path, prefix) implies {
            let value = node.value(path, prefix.len() as int);
            #[trigger] P::answer(m, prefix, ambient, path) == value || (fill && value == 0)
        } by {
            P::lemma_cover(l, r, prefix, asn, ambient, path);
            let inner = P::answer(P::both(l, r), prefix, asn, path);
        }
    }
}

/// The chosen description answers, against a background of unassigned space,
/// what the trie holds.
pub proof fn lemma_chosen<P: Plan>(trie: TrieNode, fill: bool, path: spec_fn(int) -> bool)
    ensures
        P::within(chosen::<P>(trie, fill), Seq::empty()),
        P::answer(chosen::<P>(trie, fill), Seq::empty(), 0, path) == trie.value(path, 0) || (fill
            && trie.value(path, 0) == 0),
        P::cost(chosen::<P>(trie, fill)) <= cost_bound(trie.leaf_count()),
{
    let table = plans::<P>(trie, Seq::empty(), fill);
    lemma_plans::<P>(trie, Seq::empty(), fill);
    let ctx = if at(table, Some(0u32)) is Some {
        Some(0u32)
    } else {
        None
    };
    assert(table.dom().contains(ctx));
    assert(describes::<P>(table[ctx], trie, Seq::empty(), fill, ctx));
    assert(starts_with(path, Seq::empty()));
    assert(P::answer(chosen::<P>(trie, fill), Seq::empty(), 0, path) == P::answer(
        table[ctx],
        Seq::empty(),
        0,
        path,
    ));
}

/// Every description that costs at most `bound` can be held.
pub open spec fn all_hold<P: Plan>(bound: int) -> bool {
    forall|m: P::Model, prefix: Seq<bool>| #[trigger]
        P::within(m, prefix) && P::cost(m) <= bound ==> P::holds(m)
}

/// Where every description up to a cost can be held, those of a trie with few
/// leaves can.
pub proof fn lemma_search_holds<P: Plan>(node: TrieNode, prefix: Seq<bool>, fill: bool)
    requires
        all_hold::<P>(256 * node.leaf_count() as int),
    ensures
        search_holds::<P>(node, prefix, fill),
    decreases node,
{
    if let TrieNode::Branch(left_node, right_node) = node {
        let left = plans::<P>(*left_node, prefix.push(false), fill);
        let right = plans::<P>(*right_node, prefix.push(true), fill);
        let hole = has_hole(node, fill);
        lemma_leaf_count(*left_node);
        lemma_leaf_count(*right_node);
        lemma_plans::<P>(*left_node, prefix.push(false), fill);
        lemma_plans::<P>(*right_node, prefix.push(true), fill);
        lemma_search_holds::<P>(*left_node, prefix.push(false), fill);
        lemma_search_holds::<P>(*right_node, prefix.push(true), fill);
        assert forall|ctx: Option<u32>| #[trigger] shared_holds::<P>(left, right, ctx) by {
            lemma_sides_hold::<P>(*left_node, *right_node, left, right, prefix, fill, ctx, ctx);
            lemma_sides_hold::<P>(*left_node, *right_node, left, right, prefix, fill, None, ctx);
            lemma_sides_hold::<P>(*left_node, *right_node, left, right, prefix, fill, ctx, None);
        }
        if !hole {
            assert forall|asn: u32| #[trigger] cover_holds::<P>(left, right, prefix, asn) by {
                if shared::<P>(left, right, Some(asn)) is Some {
                    let (l, r) = lemma_shared::<P>(
                        *left_node,
                        *right_node,
                        left,
                        right,
                        prefix,
                        fill,
                        Some(asn),
                    );
                    assert(asn != 0);
                    P::lemma_both(l, r, prefix, 0, |i: int| false);
                    P::lemma_cover(l, r, prefix, asn, 0, |i: int| false);
                }
            }
        }
    }
}

proof fn lemma_sides_hold<P: Plan>(
    left_node: TrieNode,
    right_node: TrieNode,
    left: Map<Option<u32>, P::Model>,
    right: Map<Option<u32>, P::Model>,
    prefix: Seq<bool>,
    fill: bool,
    lctx: Option<u32>,
    rctx: Option<u32>,
)
    requires
        table_ok::<P>(left, left_node, prefix.push(false), fill),
        table_ok::<P>(right, right_node, prefix.push(true), fill),
        all_hold::<P>(256 * (left_node.leaf_count() + right_node.leaf_count()) as int),
    ensures
        sides_hold::<P>(at(left, lctx), at(right, rctx)),
{
    if left.dom().contains(lctx) && right.dom().contains(rctx) {
        P::lemma_both(left[lctx], right[rctx], prefix, 0, |i: int| false);
    }
}

/// The model of an optional description.
pub open spec fn model_of<P: Plan>(plan: Option<P>) -> Option<P::Model> {
    match plan {
        Some(p) => Some(p.model()),
        None => None,
    }
}

spec fn optional_wf<P: Plan>(plan: Option<P>) -> bool {
    plan is Some ==> plan->0.plan_wf()
}

/// A table of descriptions: those for contexts by ascending number, and the one
/// that stands alone.
pub struct PlanTable<P> {
    by_asn: Vec<(u32, P)>,
    alone: Option<P>,
}

impl<P: Plan> PlanTable<P> {
    /// The table holds exactly what `table` does.
    spec fn shows(self, table: Map<Option<u32>, P::Model>) -> bool {
        &&& forall|i: int, j: int|
            0 <= i < j < self.by_asn@.len() ==> (#[trigger] self.by_asn@[i]).0 < (
            #[trigger] self.by_asn@[j]).0
        &&& forall|i: int|
            0 <= i < self.by_asn@.len() ==> {
                let entry = #[trigger] self.by_asn@[i];
                &&& entry.1.plan_wf()
                &&& at(table, Some(entry.0)) == Some(entry.1.model())
            }
        &&& forall|k: u32|
            at(table, Some(k)) is Some ==> exists|i: int|
                0 <= i < self.by_asn@.len() && (#[trigger] self.by_asn@[i]).0 == k
        &&& optional_wf(self.alone)
        &&& at(table, None) == model_of(self.alone)
    }
}

/// Puts the two sides together and keeps the result where it is cheaper than
/// `best`. Gives whether the result could be held.
fn offer<P: Plan>(best: &mut Option<P>, left: &P, right: &P) -> (held: bool)
    requires
        optional_wf(*old(best)),
        left.plan_wf(),
        right.plan_wf(),
    ensures
        held == P::holds(P::both(left.model(), right.model())),
        held ==> optional_wf(*final(best)),
        held ==> model_of(*final(best)) == cheaper::<P>(
            model_of(*old(best)),
            Some(P::both(left.model(), right.model())),
        ),
{
    match P::plan_both(left, right) {
        Some(plan) => {
            keep_cheaper(best, plan);
            true
        },
        None => false,
    }
}

/// Keeps `candidate` where it is cheaper than `best`.
fn keep_cheaper<P: Plan>(best: &mut Option<P>, candidate: P)
    requires
        optional_wf(*old(best)),
        candidate.plan_wf(),
    ensures
        optional_wf(*final(best)),
        model_of(*final(best)) == cheaper::<P>(model_of(*old(best)), Some(candidate.model())),
{
    let cheap: bool = match &*best {
        Some(old) => candidate.plan_cost() < old.plan_cost(),
        None => true,
    };
    if cheap {
        *best = Some(candidate);
    }
}

/// The shared descriptions of a branch, by descending number.
spec fn lists_shared<P: Plan>(
    list: Seq<(u32, P)>,
    left: Map<Option<u32>, P::Model>,
    right: Map<Option<u32>, P::Model>,
    bound: int,
) -> bool {
    &&& forall|i: int, j: int|
        0 <= i < j < list.len() ==> (#[trigger] list[i]).0 > (#[trigger] list[j]).0
    &&& forall|i: int|
        0 <= i < list.len() ==> {
            let entry = #[trigger] list[i];
            &&& entry.0 >= bound
            &&& entry.1.plan_wf()
            &&& shared::<P>(left, right, Some(entry.0)) == Some(entry.1.model())
        }
    &&& forall|k: u32|
        k >= bound && #[trigger] shared::<P>(left, right, Some(k)) is Some ==> exists|i: int|
            0 <= i < list.len() && (#[trigger] list[i]).0 == k
}

fn shared_list<P: Plan>(
    left: &PlanTable<P>,
    right: &PlanTable<P>,
    Ghost(lt): Ghost<Map<Option<u32>, P::Model>>,
    Ghost(rt): Ghost<Map<Option<u32>, P::Model>>,
) -> (found: Option<Vec<(u32, P)>>)
    requires
        left.shows(lt),
        right.shows(rt),
    ensures
        match found {
            Some(list) => {
                &&& lists_shared(list@, lt, rt, 0)
                &&& forall|k: u32| #[trigger] shared_holds::<P>(lt, rt, Some(k))
            },
            None => exists|k: u32| !#[trigger] shared_holds::<P>(lt, rt, Some(k)),
        },
{
    let mut list: Vec<(u32, P)> = Vec::new();
    let mut i: usize = left.by_asn.len();
    let mut j: usize = right.by_asn.len();
    let ghost mut done: int = u32::MAX + 1;
    while i > 0 || j > 0
        invariant
            left.shows(lt),
            right.shows(rt),
            forall|x: u32| x >= done ==> #[trigger] shared_holds::<P>(lt, rt, Some(x)),
            i <= left.by_asn@.len(),
            j <= right.by_asn@.len(),
            forall|x: int| 0 <= x < i ==> (#[trigger] left.by_asn@[x]).0 < done,
            forall|x: int| i <= x < left.by_asn@.len() ==> (#[trigger] left.by_asn@[x]).0 >= done,
            forall|x: int| 0 <= x < j ==> (#[trigger] right.by_asn@[x]).0 < done,
            forall|x: int| j <= x < right.by_asn@.len() ==> (#[trigger] right.by_asn@[x]).0
                >= done,
            lists_shared(list@, lt, rt, done),
        decreases i + j,
    {
        let from_left: bool = i > 0 && (j == 0 || left.by_asn[i - 1].0 >= right.by_asn[j - 1].0);
        let from_right: bool = j > 0 && (i == 0 || right.by_asn[j - 1].0 >= left.by_asn[i - 1].0);
        let k: u32 = if from_left {
            left.by_asn[i - 1].0
        } else {
            right.by_asn[j - 1].0
        };
        assert(forall|x: int| 0 <= x < i - 1 ==> (#[trigger] left.by_asn@[x]).0 < left.by_asn@[i
            - 1].0);
        assert(forall|x: int| 0 <= x < j - 1 ==> (#[trigger] right.by_asn@[x]).0 < right.by_asn@[j
            - 1].0);
        let mut best: Option<P> = None;
        proof {
            if !from_left {
                assert(at(lt, Some(k)) is None);
            }
            if !from_right {
                assert(at(rt, Some(k)) is None);
            }
        }
        if from_left && from_right {
            if !offer(&mut best, &left.by_asn[i - 1].1, &right.by_asn[j - 1].1) {
                assert(!shared_holds::<P>(lt, rt, Some(k)));
                return None;
            }
        }
        if from_right {
            if let Some(l) = &left.alone {
                if !offer(&mut best, l, &right.by_asn[j - 1].1) {
                    assert(!shared_holds::<P>(lt, rt, Some(k)));
                    return None;
                }
            }
        }
        if from_left {
            if let Some(r) = &right.alone {
                if !offer(&mut best, &left.by_asn[i - 1].1, r) {
                    assert(!shared_holds::<P>(lt, rt, Some(k)));
                    return None;
                }
            }
        }
        proof {
            assert(model_of(best) == shared::<P>(lt, rt, Some(k)));
            assert(shared_holds::<P>(lt, rt, Some(k)));
            assert forall|x: u32| k < x < done implies shared::<P>(lt, rt, Some(x)) is None
                && #[trigger] shared_holds::<P>(lt, rt, Some(x)) by {
                assert(at(lt, Some(x)) is None);
                assert(at(rt, Some(x)) is None);
            }
        }
        if from_left {
            i = i - 1;
        }
        if from_right {
            j = j - 1;
        }
        let ghost old_list = list@;
        let ghost old_done = done;
        proof {
            done = k as int;
        }
        if let Some(plan) = best {
            list.push((k, plan));
            proof {
                assert forall|x: u32| x >= done && #[trigger] shared::<P>(lt, rt, Some(x)) is Some
                    implies exists|n: int| 0 <= n < list@.len() && (#[trigger] list@[n]).0 == x by {
                    if x == k {
                        assert(list@[old_list.len() as int].0 == x);
                    } else {
                        assert(x >= old_done);
                        let n = choose|n: int| 0 <= n < old_list.len() && (#[trigger] old_list[n]).0 == x;
                        assert(list@[n] == old_list[n]);
                    }
                }
            }
        }
    }
    proof {
        assert forall|x: u32| x >= 0 && #[trigger] shared::<P>(lt, rt, Some(x)) is Some
            implies exists|n: int| 0 <= n < list@.len() && (#[trigger] list@[n]).0 == x by {
            if x < done {
                assert(at(lt, Some(x)) is None);
                assert(at(rt, Some(x)) is None);
            }
        }
        assert forall|x: u32| #[trigger] shared_holds::<P>(lt, rt, Some(x)) by {
            if x < done {
                assert(at(lt, Some(x)) is None);
                assert(at(rt, Some(x)) is None);
            }
        }
    }
    Some(list)
}

/// The cheapest description that sets a number for the branch.
fn cheapest_cover<P: Plan>(
    list: &Vec<(u32, P)>,
    prefix: &Vec<bool>,
    Ghost(lt): Ghost<Map<Option<u32>, P::Model>>,
    Ghost(rt): Ghost<Map<Option<u32>, P::Model>>,
) -> (found: Option<Option<P>>)
    requires
        lists_shared(list@, lt, rt, 0),
        forall|i: int| 0 <= i < list@.len() ==> (#[trigger] list@[i]).0 >= 1,
    ensures
        match found {
            Some(best) => {
                &&& optional_wf(best)
                &&& model_of(best) == best_cover::<P>(lt, rt, prefix@)
                &&& forall|asn: u32| #[trigger] cover_holds::<P>(lt, rt, prefix@, asn)
            },
            None => exists|asn: u32| !#[trigger] cover_holds::<P>(lt, rt, prefix@, asn),
        },
{
    let mut best: Option<P> = None;
    let ghost mut at_best: int = 0;
    let mut i: usize = list.len();
    while i > 0
        invariant
            i <= list@.len(),
            lists_shared(list@, lt, rt, 0),
            forall|n: int| 0 <= n < list@.len() ==> (#[trigger] list@[n]).0 >= 1,
            forall|n: int|
                i <= n < list@.len() ==> P::holds(
                    P::cover(prefix@, (#[trigger] list@[n]).0, list@[n].1.model()),
                ),
            optional_wf(best),
            best is None <==> i == list@.len(),
            best is Some ==> {
                &&& i <= at_best < list@.len()
                &&& best->0.model() == P::cover(
                    prefix@,
                    list@[at_best].0,
                    list@[at_best].1.model(),
                )
                &&& forall|n: int|
                    i <= n < list@.len() ==> {
                        let mine = P::cost(best->0.model());
                        let theirs = P::cost(
                            P::cover(prefix@, (#[trigger] list@[n]).0, list@[n].1.model()),
                        );
                        mine < theirs || (mine == theirs && at_best >= n)
                    }
            },
        decreases i,
    {
        i = i - 1;
        let plan = match P::plan_cover(prefix, list[i].0, &list[i].1) {
            Some(plan) => plan,
            None => {
                assert(!cover_holds::<P>(lt, rt, prefix@, list@[i as int].0));
                return None;
            },
        };
        match best {
            Some(old) => {
                if plan.plan_cost() < old.plan_cost() {
                    best = Some(plan);
                    proof {
                        at_best = i as int;
                    }
                } else {
                    best = Some(old);
                }
            },
            None => {
                best = Some(plan);
                proof {
                    at_best = i as int;
                }
            },
        }
    }
    proof {
        assert forall|asn: u32| #[trigger] cover_holds::<P>(lt, rt, prefix@, asn) by {
            if shared::<P>(lt, rt, Some(asn)) is Some {
                let n = choose|n: int| 0 <= n < list@.len() && (#[trigger] list@[n]).0 == asn;
                assert(list@[n].0 == asn);
            }
        }
        if best is Some {
            let asn = list@[at_best].0;
            assert(shared::<P>(lt, rt, Some(asn)) is Some);
            assert forall|other: u32| #[trigger] shared::<P>(lt, rt, Some(other)) is Some implies {
                let mine = cover_cost::<P>(lt, rt, prefix@, asn);
                let theirs = cover_cost::<P>(lt, rt, prefix@, other);
                mine < theirs || (mine == theirs && asn <= other)
            } by {
                let n = choose|n: int| 0 <= n < list@.len() && (#[trigger] list@[n]).0 == other;
                assert(list@[n].0 == other);
            }
            assert(is_best_cover::<P>(lt, rt, prefix@, asn));
            let picked = choose|asn: u32| is_best_cover::<P>(lt, rt, prefix@, asn);
            assert(is_best_cover::<P>(lt, rt, prefix@, picked));
            assert(shared::<P>(lt, rt, Some(picked)) is Some);
            assert(picked == asn);
        } else {
            assert forall|asn: u32| !is_best_cover::<P>(lt, rt, prefix@, asn) by {
                if is_best_cover::<P>(lt, rt, prefix@, asn) {
                    assert(shared::<P>(lt, rt, Some(asn)) is Some);
                }
            }
        }
    }
    Some(best)
}

/// The table of a branch from the tables of its sides.
fn merge_tables<P: Plan>(
    left: PlanTable<P>,
    right: PlanTable<P>,
    prefix: &Vec<bool>,
    hole: bool,
    Ghost(lt): Ghost<Map<Option<u32>, P::Model>>,
    Ghost(rt): Ghost<Map<Option<u32>, P::Model>>,
) -> (found: Option<PlanTable<P>>)
    requires
        left.shows(lt),
        right.shows(rt),
        !hole ==> at(lt, Some(0)) is None && at(rt, Some(0)) is None,
    ensures
        match found {
            Some(table) => {
                &&& table.shows(merged::<P>(lt, rt, prefix@, hole))
                &&& branch_holds::<P>(lt, rt, prefix@, hole)
            },
            None => !branch_holds::<P>(lt, rt, prefix@, hole),
        },
{
    let mut list = match shared_list(&left, &right, Ghost(lt), Ghost(rt)) {
        Some(list) => list,
        None => {
            return None;
        },
    };
    let mut alone: Option<P> = None;
    if let (Some(l), Some(r)) = (&left.alone, &right.alone) {
        if !offer(&mut alone, l, r) {
            assert(!shared_holds::<P>(lt, rt, None));
            return None;
        }
    }
    assert(model_of(alone) == shared::<P>(lt, rt, None));
    assert(shared_holds::<P>(lt, rt, None));
    if !hole {
        proof {
            assert forall|i: int| 0 <= i < list@.len() implies (#[trigger] list@[i]).0 >= 1 by {
                assert(shared::<P>(lt, rt, Some(list@[i].0)) is Some);
            }
        }
        match cheapest_cover(&list, prefix, Ghost(lt), Ghost(rt)) {
            Some(Some(plan)) => {
                keep_cheaper(&mut alone, plan);
            },
            Some(None) => {},
            None => {
                return None;
            },
        }
    }
    proof {
        assert forall|ctx: Option<u32>| #[trigger] shared_holds::<P>(lt, rt, ctx) by {
            if let Some(k) = ctx {
                assert(shared_holds::<P>(lt, rt, Some(k)));
            }
        }
    }
    assert(model_of(alone) == standalone::<P>(lt, rt, prefix@, hole));
    let ghost table = merged::<P>(lt, rt, prefix@, hole);
    let ghost all = list@;
    let mut kept: Vec<(u32, P)> = Vec::new();
    while list.len() > 0
        invariant
            lists_shared(all, lt, rt, 0),
            table == merged::<P>(lt, rt, prefix@, hole),
            model_of(alone) == standalone::<P>(lt, rt, prefix@, hole),
            optional_wf(alone),
            list@.len() <= all.len(),
            list@ == all.take(list@.len() as int),
            forall|i: int, j: int|
                0 <= i < j < kept@.len() ==> (#[trigger] kept@[i]).0 < (#[trigger] kept@[j]).0,
            forall|i: int|
                0 <= i < kept@.len() ==> {
                    let entry = #[trigger] kept@[i];
                    &&& entry.1.plan_wf()
                    &&& at(table, Some(entry.0)) == Some(entry.1.model())
                    &&& list@.len() > 0 ==> entry.0 < list@.last().0
                },
            forall|n: int|
                list@.len() <= n < all.len() && at(table, Some((#[trigger] all[n]).0)) is Some
                    ==> exists|i: int|
                    0 <= i < kept@.len() && (#[trigger] kept@[i]).0 == all[n].0,
        decreases list@.len(),
    {
        let ghost before = list@;
        let ghost old_kept = kept@;
        let entry = list.pop();
        if let Some((k, plan)) = entry {
            assert(before.last() == all[before.len() - 1]);
            assert((k, plan) == all[before.len() - 1]);
            assert(list@ =~= all.take(list@.len() as int));
            assert(list@.len() > 0 ==> list@.last() == all[list@.len() - 1]);
            let cheap: bool = match &alone {
                Some(best) => plan.plan_cost() < best.plan_cost(),
                None => true,
            };
            assert(merged_at::<P>(lt, rt, prefix@, hole, Some(k)) is Some <==> cheap && (hole ==> k
                == 0));
            if cheap && (!hole || k == 0) {
                kept.push((k, plan));
                proof {
                    assert forall|n: int|
                        list@.len() <= n < all.len() && at(table, Some((#[trigger] all[n]).0)) is Some
                        implies exists|i: int|
                        0 <= i < kept@.len() && (#[trigger] kept@[i]).0 == all[n].0 by {
                        if n == before.len() - 1 {
                            assert(kept@[old_kept.len() as int].0 == all[n].0);
                        } else {
                            let i = choose|i: int|
                                0 <= i < old_kept.len() && (#[trigger] old_kept[i]).0 == all[n].0;
                            assert(kept@[i] == old_kept[i]);
                        }
                    }
                }
            }
        }
    }
    let result = PlanTable { by_asn: kept, alone };
    proof {
        assert forall|k: u32| at(table, Some(k)) is Some implies exists|i: int|
            0 <= i < kept@.len() && (#[trigger] kept@[i]).0 == k by {
            assert(shared::<P>(lt, rt, Some(k)) is Some);
            let n = choose|n: int| 0 <= n < all.len() && (#[trigger] all[n]).0 == k;
            assert(at(table, Some(all[n].0)) is Some);
        }
        assert(at(table, None) == model_of(alone));
    }
    Some(result)
}

/// The table of a node, and whether it has a hole.
fn plan_node<P: Plan>(node: &TrieNode, prefix: &mut Vec<bool>, fill: bool) -> (found: Option<
    (PlanTable<P>, bool),
>)
    ensures
        final(prefix)@ == old(prefix)@,
        match found {
            Some((table, hole)) => {
                &&& table.shows(plans::<P>(*node, old(prefix)@, fill))
                &&& hole == has_hole(*node, fill)
                &&& search_holds::<P>(*node, old(prefix)@, fill)
            },
            None => !search_holds::<P>(*node, old(prefix)@, fill),
        },
    decreases node,
{
    let ghost place = prefix@;
    let ghost table = plans::<P>(*node, place, fill);
    match node {
        TrieNode::Leaf(v) => {
            if *v == 0 {
                if fill {
                    let result = PlanTable { by_asn: Vec::new(), alone: Some(P::plan_nothing()) };
                    Some((result, true))
                } else {
                    let mut by_asn: Vec<(u32, P)> = Vec::new();
                    by_asn.push((0, P::plan_nothing()));
                    assert(by_asn@[0].0 == 0);
                    let result = PlanTable { by_asn, alone: None };
                    Some((result, true))
                }
            } else {
                let mut by_asn: Vec<(u32, P)> = Vec::new();
                by_asn.push((*v, P::plan_nothing()));
                assert(by_asn@[0].0 == *v);
                let result = PlanTable { by_asn, alone: Some(P::plan_single(prefix, *v)) };
                Some((result, false))
            }
        },
        TrieNode::Branch(left_node, right_node) => {
            prefix.push(false);
            let left_found = plan_node::<P>(left_node, prefix, fill);
            prefix.pop();
            assert(prefix@ =~= place);
            prefix.push(true);
            let right_found = plan_node::<P>(right_node, prefix, fill);
            prefix.pop();
            assert(prefix@ =~= place);
            match (left_found, right_found) {
                (Some((left, left_hole)), Some((right, right_hole))) => {
                    let hole: bool = !fill && (left_hole || right_hole);
                    let ghost lt = plans::<P>(**left_node, place.push(false), fill);
                    let ghost rt = plans::<P>(**right_node, place.push(true), fill);
                    proof {
                        lemma_plans::<P>(**left_node, place.push(false), fill);
                        lemma_plans::<P>(**right_node, place.push(true), fill);
                    }
                    match merge_tables(left, right, prefix, hole, Ghost(lt), Ghost(rt)) {
                        Some(result) => Some((result, hole)),
                        None => None,
                    }
                },
                _ => None,
            }
        },
    }
}

/// The cheapest description of a whole trie, unless one that is weighed cannot be
/// held.
pub fn best_plan<P: Plan>(trie: &TrieNode, fill: bool) -> (found: Option<P>)
    ensures
        match found {
            Some(plan) => {
                &&& plan.plan_wf()
                &&& plan.model() == chosen::<P>(*trie, fill)
                &&& search_holds::<P>(*trie, Seq::empty(), fill)
            },
            None => !search_holds::<P>(*trie, Seq::empty(), fill),
        },
{
    let mut prefix: Vec<bool> = Vec::new();
    assert(prefix@ =~= Seq::empty());
    let table = match plan_node::<P>(trie, &mut prefix, fill) {
        Some((table, _)) => table,
        None => {
            return None;
        },
    };
    let PlanTable { mut by_asn, alone } = table;
    if by_asn.len() > 0 && by_asn[0].0 == 0 {
        let (_, plan) = by_asn.swap_remove(0);
        return Some(plan);
    }
    match alone {
        Some(plan) => Some(plan),
        None => Some(P::plan_nothing()),
    }
}

/// The search keeps the cheapest: of the descriptions of a branch that can be put
/// together from descriptions of its sides, each in the same context or standing
/// alone, none is cheaper than what the table of the branch holds for that context
/// or for standing alone.
pub proof fn no_description_put_together_is_cheaper<P: Plan>(
    left_node: TrieNode,
    right_node: TrieNode,
    prefix: Seq<bool>,
    fill: bool,
    ctx: Option<u32>,
    lctx: Option<u32>,
    rctx: Option<u32>,
)
    requires
        lctx == ctx || lctx is None,
        rctx == ctx || rctx is None,
        lctx == ctx || rctx == ctx,
        plans::<P>(left_node, prefix.push(false), fill).dom().contains(lctx),
        plans::<P>(right_node, prefix.push(true), fill).dom().contains(rctx),
    ensures
        ({
            let node = TrieNode::Branch(Box::new(left_node), Box::new(right_node));
            let table = plans::<P>(node, prefix, fill);
            let cost = P::cost(
                P::both(
                    plans::<P>(left_node, prefix.push(false), fill)[lctx],
                    plans::<P>(right_node, prefix.push(true), fill)[rctx],
                ),
            );
            ctx is None || ctx == Some(0u32) || !has_hole(node, fill) ==> {
                ||| table.dom().contains(None) && P::cost(table[None]) <= cost
                ||| table.dom().contains(ctx) && P::cost(table[ctx]) <= cost
            }
        }),
{
    let node = TrieNode::Branch(Box::new(left_node), Box::new(right_node));
    let table = plans::<P>(node, prefix, fill);
    let left = plans::<P>(left_node, prefix.push(false), fill);
    let right = plans::<P>(right_node, prefix.push(true), fill);
    let hole = has_hole(node, fill);
    let m = P::both(left[lctx], right[rctx]);
    assert(both_sides::<P>(at(left, lctx), at(right, rctx)) == Some(m));
    assert(shared::<P>(left, right, ctx) matches Some(s) && P::cost(s) <= P::cost(m));
    assert(at(table, ctx) == merged_at::<P>(left, right, prefix, hole, ctx));
    assert(at(table, None) == merged_at::<P>(left, right, prefix, hole, None));
}

/// Nor is one that sets a number for the whole branch, where that may be done.
pub proof fn no_cover_is_cheaper<P: Plan>(
    left_node: TrieNode,
    right_node: TrieNode,
    prefix: Seq<bool>,
    fill: bool,
    asn: u32,
)
    ensures
        ({
            let node = TrieNode::Branch(Box::new(left_node), Box::new(right_node));
            let table = plans::<P>(node, prefix, fill);
            let inner = shared::<P>(
                plans::<P>(left_node, prefix.push(false), fill),
                plans::<P>(right_node, prefix.push(true), fill),
                Some(asn),
            );
            inner is Some && !has_hole(node, fill) ==> table.dom().contains(None) && P::cost(
                table[None],
            ) <= P::cost(P::cover(prefix, asn, inner->0))
        }),
{
    let node = TrieNode::Branch(Box::new(left_node), Box::new(right_node));
    let table = plans::<P>(node, prefix, fill);
    let left = plans::<P>(left_node, prefix.push(false), fill);
    let right = plans::<P>(right_node, prefix.push(true), fill);
    let hole = has_hole(node, fill);
    if shared::<P>(left, right, Some(asn)) is Some && !hole {
        let found = lemma_find_cover::<P>(left, right, prefix, asn);
        let picked = choose|k: u32| is_best_cover::<P>(left, right, prefix, k);
        assert(is_best_cover::<P>(left, right, prefix, picked));
        assert(cover_cost::<P>(left, right, prefix, picked) <= cover_cost::<P>(
            left,
            right,
            prefix,
            asn,
        ));
        assert(at(table, None) == merged_at::<P>(left, right, prefix, hole, None));
    }
}

proof fn lemma_find_cover<P: Plan>(
    left: Map<Option<u32>, P::Model>,
    right: Map<Option<u32>, P::Model>,
    prefix: Seq<bool>,
    asn: u32,
) -> (best: u32)
    requires
        shared::<P>(left, right, Some(asn)) is Some,
    ensures
        is_best_cover::<P>(left, right, prefix, best),
    decreases cover_cost::<P>(left, right, prefix, asn), asn,
{
    if is_best_cover::<P>(left, right, prefix, asn) {
        asn
    } else {
        let other = choose|other: u32|
            (#[trigger] shared::<P>(left, right, Some(other))) is Some && {
                let mine = cover_cost::<P>(left, right, prefix, asn);
                let theirs = cover_cost::<P>(left, right, prefix, other);
                !(mine < theirs || (mine == theirs && asn <= other))
            };
        lemma_find_cover::<P>(left, right, prefix, other)
    }
}

/// A leaf has the cheapest descriptions there are: nothing where everything around
/// it has its number, its own number standing alone, and nothing at all where it
/// may be described as anything.
pub proof fn leaves_are_described_directly<P: Plan>(v: u32, prefix: Seq<bool>, fill: bool)
    ensures
        ({
            let table = plans::<P>(TrieNode::Leaf(v), prefix, fill);
            &&& v != 0 ==> table.dom() == set![Some(v), None] && table[Some(v)] == P::nothing()
                && table[None] == P::single(prefix, v)
            &&& v == 0 && fill ==> table.dom() == set![None::<u32>] && table[None] == P::nothing()
            &&& v == 0 && !fill ==> table.dom() == set![Some(0u32)] && table[Some(0u32)]
                == P::nothing()
        }),
{
    let table = plans::<P>(TrieNode::Leaf(v), prefix, fill);
    if v != 0 {
        assert(table.dom() =~= set![Some(v), None]);
    } else if fill {
        assert(table.dom() =~= set![None::<u32>]);
    } else {
        assert(table.dom() =~= set![Some(0u32)]);
    }
}

/// The description of a whole trie is the one for surroundings without a number,
/// and where the table has none the one that stands alone.
pub proof fn tries_are_described_in_empty_surroundings<P: Plan>(trie: TrieNode, fill: bool)
    ensures
        ({
            let table = plans::<P>(trie, Seq::empty(), fill);
            &&& table.dom().contains(Some(0u32)) ==> chosen::<P>(trie, fill) == table[Some(0u32)]
            &&& !table.dom().contains(Some(0u32)) && table.dom().contains(None) ==> chosen::<P>(
                trie,
                fill,
            ) == table[None]
            &&& table.dom().contains(Some(0u32)) || table.dom().contains(None)
        }),
{
    lemma_plans::<P>(trie, Seq::empty(), fill);
}

/// Of the ways to put two sides together in a context the cheapest is taken, and of
/// equally cheap ones the first of these: both sides in the context, the first side
/// standing alone, the second side standing alone.
pub proof fn ties_between_sides_go_to_the_first<P: Plan>(
    left: Map<Option<u32>, P::Model>,
    right: Map<Option<u32>, P::Model>,
    ctx: Option<u32>,
)
    ensures
        ({
            let (l, r) = (left.dom().contains(ctx), right.dom().contains(ctx));
            let (ln, rn) = (left.dom().contains(None), right.dom().contains(None));
            let a = P::both(left[ctx], right[ctx]);
            let b = P::both(left[None], right[ctx]);
            let c = P::both(left[ctx], right[None]);
            &&& l && r && (ln ==> P::cost(a) <= P::cost(b)) && (rn ==> P::cost(a) <= P::cost(c))
                ==> shared::<P>(left, right, ctx) == Some(a)
            &&& ln && r && (l ==> P::cost(b) < P::cost(a)) && (l && rn ==> P::cost(b) <= P::cost(
                c,
            )) ==> shared::<P>(left, right, ctx) == Some(b)
            &&& l && rn && (r ==> P::cost(c) < P::cost(a)) && (ln && r ==> P::cost(c) < P::cost(b))
                ==> shared::<P>(left, right, ctx) == Some(c)
            &&& !(l && r) && !(ln && r) && !(l && rn) ==> shared::<P>(left, right, ctx) is None
        }),
{
}

/// What the table of a branch holds: in a context what puts the sides together
/// best, if that is cheaper than what stands alone and, where the branch has a
/// hole, if the context is unassigned space; standing alone the cheaper of the
/// sides put together and of a cover, which has the smallest of the best numbers.
pub proof fn tables_hold_the_best<P: Plan>(
    left_node: TrieNode,
    right_node: TrieNode,
    prefix: Seq<bool>,
    fill: bool,
    k: u32,
)
    ensures
        ({
            let node = TrieNode::Branch(Box::new(left_node), Box::new(right_node));
            let table = plans::<P>(node, prefix, fill);
            let left = plans::<P>(left_node, prefix.push(false), fill);
            let right = plans::<P>(right_node, prefix.push(true), fill);
            let hole = has_hole(node, fill);
            let here = shared::<P>(left, right, Some(k));
            let apart = shared::<P>(left, right, None);
            &&& table.dom().contains(Some(k)) <==> here is Some && (hole ==> k == 0) && (
            table.dom().contains(None) ==> P::cost(here->0) < P::cost(table[None]))
            &&& table.dom().contains(Some(k)) ==> table[Some(k)] == here->0
            &&& hole && apart is Some ==> table.dom().contains(None) && table[None] == apart->0
            &&& hole && apart is None ==> !table.dom().contains(None)
            &&& !hole && table.dom().contains(None) ==> {
                ||| apart == Some(table[None])
                ||| exists|asn: u32| #[trigger]
                    shared::<P>(left, right, Some(asn)) is Some && table[None] == P::cover(
                        prefix,
                        asn,
                        shared::<P>(left, right, Some(asn))->0,
                    ) && (apart is Some ==> P::cost(table[None]) < P::cost(apart->0))
                        && forall|other: u32| #[trigger]
                        shared::<P>(left, right, Some(other)) is Some && other < asn ==> P::cost(
                            table[None],
                        ) < P::cost(
                            P::cover(prefix, other, shared::<P>(left, right, Some(other))->0),
                        )
            }
        }),
{
    let node = TrieNode::Branch(Box::new(left_node), Box::new(right_node));
    let table = plans::<P>(node, prefix, fill);
    let left = plans::<P>(left_node, prefix.push(false), fill);
    let right = plans::<P>(right_node, prefix.push(true), fill);
    let hole = has_hole(node, fill);
    let apart = shared::<P>(left, right, None);
    assert(at(table, Some(k)) == merged_at::<P>(left, right, prefix, hole, Some(k)));
    assert(at(table, None) == merged_at::<P>(left, right, prefix, hole, None));
    if !hole && table.dom().contains(None) && apart != Some(table[None]) {
        let asn = choose|asn: u32| is_best_cover::<P>(left, right, prefix, asn);
        assert(is_best_cover::<P>(left, right, prefix, asn));
        assert(table[None] == P::cover(prefix, asn, shared::<P>(left, right, Some(asn))->0));
        assert forall|other: u32| #[trigger]
            shared::<P>(left, right, Some(other)) is Some && other < asn implies P::cost(table[None])
            < P::cost(P::cover(prefix, other, shared::<P>(left, right, Some(other))->0)) by {
            assert(cover_cost::<P>(left, right, prefix, asn) <= cover_cost::<P>(
                left,
                right,
                prefix,
                other,
            ));
        }
        assert(shared::<P>(left, right, Some(asn)) is Some);
    }
}

/// A subtree has a hole exactly if some path in it is unassigned; with filling only
/// if it is nothing but an unassigned leaf.
pub proof fn holes_are_unassigned(node: TrieNode, depth: int)
    ensures
        has_hole(node, true) == (node == TrieNode::Leaf(0)),
        has_hole(node, false) <==> exists|path: spec_fn(int) -> bool| #[trigger]
            node.value(path, depth) == 0,
    decreases node,
{
    match node {
        TrieNode::Leaf(v) => {
            let path: spec_fn(int) -> bool = |i: int| false;
            assert(node.value(path, depth) == v);
        },
        TrieNode::Branch(left, right) => {
            holes_are_unassigned(*left, depth + 1);
            holes_are_unassigned(*right, depth + 1);
            if has_hole(*left, false) {
                let path = choose|path: spec_fn(int) -> bool| #[trigger]
                    left.value(path, depth + 1) == 0;
                let other = |i: int| if i == depth { false } else { path(i) };
                lemma_value_local(*left, path, other, depth + 1);
                assert(node.value(other, depth) == 0);
            }
            if has_hole(*right, false) {
                let path = choose|path: spec_fn(int) -> bool| #[trigger]
                    right.value(path, depth + 1) == 0;
                let other = |i: int| if i == depth { true } else { path(i) };
                lemma_value_local(*right, path, other, depth + 1);
                assert(node.value(other, depth) == 0);
            }
            if exists|path: spec_fn(int) -> bool| #[trigger] node.value(path, depth) == 0 {
                let path = choose|path: spec_fn(int) -> bool| #[trigger]
                    node.value(path, depth) == 0;
                assert(left.value(path, depth + 1) == 0 || right.value(path, depth + 1) == 0);
            }
        },
    }
}

} // verus!
