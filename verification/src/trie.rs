//! The in-memory ASMap: a binary trie over address bits.
//!
//! A map assigns an autonomous system number to every infinite bit path; `0`
//! stands for "unassigned". A trie is one way of writing such a function down,
//! and the tries kept here are in normal form, so that equal functions are
//! equal tries.

use vstd::prelude::*;

verus! {

/// A prefix written as bits, most significant first, with the number it maps to.
pub type ASNEntry = (Vec<bool>, u32);

/// A prefix with the number it mapped to before and the one it maps to after.
pub type ASNDiff = (Vec<bool>, u32, u32);

/// A node of the trie: one number for everything below it, or a split on the
/// next address bit (`false` to the left, `true` to the right).
#[derive(Debug, PartialEq, Eq)]
pub enum TrieNode {
    Leaf(u32),
    Branch(Box<TrieNode>, Box<TrieNode>),
}

impl TrieNode {
    /// The number assigned to `path` by this node, which sits `depth` bits down.
    pub open spec fn value(self, path: spec_fn(int) -> bool, depth: int) -> u32
        decreases self,
    {
        match self {
            TrieNode::Leaf(v) => v,
            TrieNode::Branch(left, right) => if path(depth) {
                right.value(path, depth + 1)
            } else {
                left.value(path, depth + 1)
            },
        }
    }

    /// Normal form: no branch joins two equal leaves.
    pub open spec fn canonical(self) -> bool
        decreases self,
    {
        match self {
            TrieNode::Leaf(_) => true,
            TrieNode::Branch(left, right) => {
                &&& left.canonical()
                &&& right.canonical()
                &&& !(*left is Leaf && *left == *right)
            },
        }
    }

    /// The normal form of a branch over `left` and `right`.
    pub open spec fn joined(left: TrieNode, right: TrieNode) -> TrieNode {
        if left is Leaf && left == right {
            left
        } else {
            TrieNode::Branch(Box::new(left), Box::new(right))
        }
    }

    /// Number of leaves.
    pub open spec fn leaf_count(self) -> nat
        decreases self,
    {
        match self {
            TrieNode::Leaf(_) => 1,
            TrieNode::Branch(left, right) => left.leaf_count() + right.leaf_count(),
        }
    }

    /// Every number assigned anywhere is at most `bound`.
    pub open spec fn asns_at_most(self, bound: int) -> bool
        decreases self,
    {
        match self {
            TrieNode::Leaf(v) => v <= bound,
            TrieNode::Branch(left, right) => left.asns_at_most(bound) && right.asns_at_most(bound),
        }
    }

    /// Number of branches on the longest way down.
    pub open spec fn height(self) -> nat
        decreases self,
    {
        match self {
            TrieNode::Leaf(_) => 0,
            TrieNode::Branch(left, right) => 1 + if left.height() > right.height() {
                left.height()
            } else {
                right.height()
            },
        }
    }

    /// This trie with everything below `prefix[depth..]` set to `asn`.
    pub open spec fn assigned(self, prefix: Seq<bool>, asn: u32, depth: int) -> TrieNode
        decreases prefix.len() - depth,
    {
        if depth >= prefix.len() {
            TrieNode::Leaf(asn)
        } else {
            let left = self.child(false);
            let right = self.child(true);
            if prefix[depth] {
                TrieNode::joined(left, right.assigned(prefix, asn, depth + 1))
            } else {
                TrieNode::joined(left.assigned(prefix, asn, depth + 1), right)
            }
        }
    }

    /// The node one bit further down; a leaf continues as itself.
    pub open spec fn child(self, bit: bool) -> TrieNode {
        match self {
            TrieNode::Leaf(_) => self,
            TrieNode::Branch(left, right) => if bit {
                *right
            } else {
                *left
            },
        }
    }

    /// Joins two nodes, merging equal leaves.
    pub(crate) fn branch(left: TrieNode, right: TrieNode) -> (node: TrieNode)
        ensures
            node == TrieNode::joined(left, right),
    {
        if let (TrieNode::Leaf(a), TrieNode::Leaf(b)) = (&left, &right) {
            if *a == *b {
                return TrieNode::Leaf(*a);
            }
        }
        TrieNode::Branch(Box::new(left), Box::new(right))
    }

    /// Whether two nodes are the same tree.
    pub(crate) fn same(&self, other: &TrieNode) -> (equal: bool)
        ensures
            equal == (*self == *other),
        decreases self,
    {
        match (self, other) {
            (TrieNode::Leaf(a), TrieNode::Leaf(b)) => *a == *b,
            (TrieNode::Branch(l1, r1), TrieNode::Branch(l2, r2)) => l1.same(l2) && r1.same(r2),
            _ => false,
        }
    }

    /// The same tree once more.
    fn copy(&self) -> (copy: TrieNode)
        ensures
            copy == *self,
        decreases self,
    {
        match self {
            TrieNode::Leaf(asn) => TrieNode::Leaf(*asn),
            TrieNode::Branch(left, right) => TrieNode::Branch(
                Box::new(left.copy()),
                Box::new(right.copy()),
            ),
        }
    }

    fn assign(&mut self, prefix: &[bool], asn: u32, depth: usize)
        requires
            depth <= prefix@.len(),
        ensures
            *final(self) == old(self).assigned(prefix@, asn, depth as int),
        decreases prefix@.len() - depth,
    {
        if depth == prefix.len() {
            *self = TrieNode::Leaf(asn);
            return;
        }
        if let TrieNode::Leaf(value) = *self {
            *self = TrieNode::Branch(
                Box::new(TrieNode::Leaf(value)),
                Box::new(TrieNode::Leaf(value)),
            );
        }
        if let TrieNode::Branch(left, right) = self {
            if prefix[depth] {
                right.assign(prefix, asn, depth + 1);
            } else {
                left.assign(prefix, asn, depth + 1);
            }
        }
        let mut merged: Option<u32> = None;
        if let TrieNode::Branch(left, right) = &*self {
            if let (TrieNode::Leaf(a), TrieNode::Leaf(b)) = (&**left, &**right) {
                if *a == *b {
                    merged = Some(*a);
                }
            }
        }
        if let Some(value) = merged {
            *self = TrieNode::Leaf(value);
        }
    }
}

/// `path` starts with the bits of `prefix`.
pub open spec fn starts_with(path: spec_fn(int) -> bool, prefix: Seq<bool>) -> bool {
    agrees_from(path, prefix, 0)
}

/// `path` carries the bits of `prefix` from position `from` on.
pub open spec fn agrees_from(path: spec_fn(int) -> bool, prefix: Seq<bool>, from: int) -> bool {
    forall|i: int| from <= i < prefix.len() ==> path(i) == #[trigger] prefix[i]
}

/// The entries with their prefixes taken as sequences.
pub open spec fn entries_view(entries: Seq<ASNEntry>) -> Seq<(Seq<bool>, u32)> {
    entries.map_values(|e: ASNEntry| (e.0@, e.1))
}

/// The changes with their prefixes taken as sequences.
pub open spec fn diffs_view(diffs: Seq<ASNDiff>) -> Seq<(Seq<bool>, u32, u32)> {
    diffs.map_values(|d: ASNDiff| (d.0@, d.1, d.2))
}

/// How `entries`, laid over a background of `ambient`, resolve `path`: the
/// length of the longest matching prefix (`-1` for none) and its number. Of two
/// equally long matches the later one wins.
pub open spec fn longest_match(
    entries: Seq<(Seq<bool>, u32)>,
    ambient: u32,
    path: spec_fn(int) -> bool,
) -> (int, u32)
    decreases entries.len(),
{
    if entries.len() == 0 {
        (-1, ambient)
    } else {
        let before = longest_match(entries.drop_last(), ambient, path);
        let entry = entries.last();
        if starts_with(path, entry.0) && entry.0.len() >= before.0 {
            (entry.0.len() as int, entry.1)
        } else {
            before
        }
    }
}

/// The number that `entries` over a background of `ambient` give to `path`.
pub open spec fn resolve(
    entries: Seq<(Seq<bool>, u32)>,
    ambient: u32,
    path: spec_fn(int) -> bool,
) -> u32 {
    longest_match(entries, ambient, path).1
}

/// The blocks on which two tries differ, in address order, each as large as the
/// leaves of both tries allow.
pub open spec fn differences(old_trie: TrieNode, new_trie: TrieNode, prefix: Seq<bool>) -> Seq<
    (Seq<bool>, u32, u32),
>
    decreases old_trie.height() + new_trie.height(),
{
    match (old_trie, new_trie) {
        (TrieNode::Leaf(a), TrieNode::Leaf(b)) => if a != b {
            seq![(prefix, a, b)]
        } else {
            seq![]
        },
        _ => differences(old_trie.child(false), new_trie.child(false), prefix.push(false))
            + differences(old_trie.child(true), new_trie.child(true), prefix.push(true)),
    }
}

/// Everything below `prefix` has the number `asn`.
pub open spec fn constant_on(trie: TrieNode, prefix: Seq<bool>, asn: u32) -> bool {
    forall|path: spec_fn(int) -> bool|
        starts_with(path, prefix) ==> #[trigger] trie.value(path, 0) == asn
}

/// The one number that everything below `prefix` has, if there is one.
pub open spec fn common_asn(trie: TrieNode, prefix: Seq<bool>) -> Option<u32> {
    if exists|asn: u32| constant_on(trie, prefix, asn) {
        Some(choose|asn: u32| constant_on(trie, prefix, asn))
    } else {
        None
    }
}

/// A value only looks at the path from its depth on.
pub proof fn lemma_value_local(
    node: TrieNode,
    p: spec_fn(int) -> bool,
    q: spec_fn(int) -> bool,
    depth: int,
)
    requires
        forall|i: int| i >= depth ==> #[trigger] p(i) == q(i),
    ensures
        node.value(p, depth) == node.value(q, depth),
    decreases node,
{
    match node {
        TrieNode::Leaf(_) => {},
        TrieNode::Branch(left, right) => {
            assert(p(depth) == q(depth));
            lemma_value_local(*left, p, q, depth + 1);
            lemma_value_local(*right, p, q, depth + 1);
        },
    }
}

/// Descending by one bit keeps the value.
pub proof fn lemma_child_value(node: TrieNode, path: spec_fn(int) -> bool, depth: int)
    ensures
        node.value(path, depth) == node.child(path(depth)).value(path, depth + 1),
{
    if let TrieNode::Leaf(v) = node {
        assert(node.value(path, depth) == v);
        assert(node.value(path, depth + 1) == v);
    }
}

/// Joining keeps normal form, and gives each side its bit.
pub proof fn lemma_joined(
    left: TrieNode,
    right: TrieNode,
    path: spec_fn(int) -> bool,
    depth: int,
)
    ensures
        left.canonical() && right.canonical() ==> TrieNode::joined(left, right).canonical(),
        TrieNode::joined(left, right).value(path, depth) == if path(depth) {
            right.value(path, depth + 1)
        } else {
            left.value(path, depth + 1)
        },
{
    if left is Leaf && left == right {
        assert(left.value(path, depth) == left->Leaf_0);
        assert(left.value(path, depth + 1) == left->Leaf_0);
    }
}

/// What an assignment does to one path.
proof fn lemma_assigned(
    node: TrieNode,
    prefix: Seq<bool>,
    asn: u32,
    depth: int,
    path: spec_fn(int) -> bool,
)
    requires
        0 <= depth <= prefix.len(),
    ensures
        node.canonical() ==> node.assigned(prefix, asn, depth).canonical(),
        node.assigned(prefix, asn, depth).value(path, depth) == if agrees_from(
            path,
            prefix,
            depth,
        ) {
            asn
        } else {
            node.value(path, depth)
        },
    decreases prefix.len() - depth,
{
    if depth < prefix.len() {
        let left = node.child(false);
        let right = node.child(true);
        lemma_child_value(node, path, depth);
        lemma_assigned(right, prefix, asn, depth + 1, path);
        lemma_assigned(left, prefix, asn, depth + 1, path);
        if prefix[depth] {
            lemma_joined(left, right.assigned(prefix, asn, depth + 1), path, depth);
        } else {
            lemma_joined(left.assigned(prefix, asn, depth + 1), right, path, depth);
        }
        if path(depth) == prefix[depth] {
            assert(agrees_from(path, prefix, depth) == agrees_from(path, prefix, depth + 1));
        }
    }
}

/// Two different tries in normal form disagree on some path.
proof fn distinguishing_path(a: TrieNode, b: TrieNode, depth: int) -> (path: spec_fn(int) -> bool)
    requires
        a.canonical(),
        b.canonical(),
        a != b,
    ensures
        a.value(path, depth) != b.value(path, depth),
    decreases a, b,
{
    match (a, b) {
        (TrieNode::Leaf(_), TrieNode::Leaf(_)) => { |i: int| false },
        _ => {
            let bit = a.child(false) == b.child(false);
            let below = distinguishing_path(a.child(bit), b.child(bit), depth + 1);
            let path = |i: int|
                if i == depth {
                    bit
                } else {
                    below(i)
                };
            lemma_child_value(a, path, depth);
            lemma_child_value(b, path, depth);
            lemma_value_local(a.child(bit), path, below, depth + 1);
            lemma_value_local(b.child(bit), path, below, depth + 1);
            path
        },
    }
}

/// Normal forms are unique: two tries in normal form that give every path the
/// same number are the same trie.
pub proof fn normal_form_is_unique(a: TrieNode, b: TrieNode)
    requires
        a.canonical(),
        b.canonical(),
        forall|path: spec_fn(int) -> bool| #[trigger] a.value(path, 0) == b.value(path, 0),
    ensures
        a == b,
{
    if a != b {
        let path = distinguishing_path(a, b, 0);
        assert(a.value(path, 0) == b.value(path, 0));
    }
}

/// A map from address prefixes to autonomous system numbers.
#[derive(Debug, PartialEq, Eq)]
pub struct ASMap {
    trie: TrieNode,
}

impl View for ASMap {
    type V = TrieNode;

    closed spec fn view(&self) -> TrieNode {
        self.trie
    }
}

impl Clone for ASMap {
    fn clone(&self) -> (map: Self)
        ensures
            map@ == self@,
    {
        ASMap { trie: self.trie.copy() }
    }
}

impl Default for ASMap {
    fn default() -> (map: Self)
        ensures
            map.wf(),
            map@ == TrieNode::Leaf(0),
    {
        ASMap { trie: TrieNode::Leaf(0) }
    }
}

impl ASMap {
    /// The trie is in normal form.
    pub open spec fn wf(self) -> bool {
        self@.canonical()
    }

    /// The number this map assigns to `path`.
    pub open spec fn asn_of(self, path: spec_fn(int) -> bool) -> u32 {
        self@.value(path, 0)
    }

    /// Creates an empty map: every path is unassigned.
    pub fn new() -> (map: Self)
        ensures
            map.wf(),
            map@ == TrieNode::Leaf(0),
    {
        ASMap { trie: TrieNode::Leaf(0) }
    }

    /// The root of the trie.
    pub(crate) fn root(&self) -> (root: &TrieNode)
        ensures
            *root == self@,
    {
        &self.trie
    }

    /// Wraps a trie in normal form.
    pub(crate) fn from_trie(trie: TrieNode) -> (map: Self)
        requires
            trie.canonical(),
        ensures
            map.wf(),
            map@ == trie,
    {
        ASMap { trie }
    }

    /// Whether two maps are equal.
    pub fn same_map(&self, other: &ASMap) -> (equal: bool)
        ensures
            equal == (self@ == other@),
    {
        self.trie.same(&other.trie)
    }

    /// Assigns `asn` to everything below one prefix.
    pub fn update(&mut self, prefix: &[bool], asn: u32)
        requires
            old(self).wf(),
        ensures
            final(self).wf(),
            forall|path: spec_fn(int) -> bool| #[trigger]
                final(self).asn_of(path) == if starts_with(path, prefix@) {
                    asn
                } else {
                    old(self).asn_of(path)
                },
    {
        let ghost before = self.trie;
        self.trie.assign(prefix, asn, 0);
        proof {
            lemma_assigned(before, prefix@, asn, 0, |i: int| false);
            assert forall|path: spec_fn(int) -> bool| #[trigger]
                self.trie.value(path, 0) == if starts_with(path, prefix@) {
                    asn
                } else {
                    before.value(path, 0)
                } by {
                lemma_assigned(before, prefix@, asn, 0, path);
            }
        }
    }

    /// Applies assignments shortest prefix first, so that the longest prefix
    /// decides; of equally long ones the later decides.
    pub fn update_multi(&mut self, entries: Vec<ASNEntry>)
        requires
            old(self).wf(),
        ensures
            final(self).wf(),
            forall|path: spec_fn(int) -> bool| #[trigger]
                final(self).asn_of(path) == resolve(
                    entries_view(entries@),
                    old(self).asn_of(path),
                    path,
                ),
    {
        let ghost view = entries_view(entries@);
        let mut longest: usize = 0;
        let mut i: usize = 0;
        while i < entries.len()
            invariant
                i <= entries@.len(),
                forall|j: int| 0 <= j < i ==> (#[trigger] entries@[j]).0@.len() <= longest,
            decreases entries@.len() - i,
        {
            let len: usize = entries[i].0.len();
            if len > longest {
                longest = len;
            }
            i += 1;
        }
        proof {
            assert forall|path: spec_fn(int) -> bool| #[trigger]
                self.asn_of(path) == shorter_match(view, self.asn_of(path), path, 0).1 by {
                lemma_no_shorter_match(view, self.asn_of(path), path);
            }
        }
        let mut len: usize = 0;
        loop
            invariant_except_break
                self.wf(),
                view == entries_view(entries@),
                len <= longest,
                forall|path: spec_fn(int) -> bool| #[trigger]
                    self.asn_of(path) == shorter_match(
                        view,
                        old(self).asn_of(path),
                        path,
                        len as int,
                    ).1,
            ensures
                self.wf(),
                forall|path: spec_fn(int) -> bool| #[trigger]
                    self.asn_of(path) == shorter_match(
                        view,
                        old(self).asn_of(path),
                        path,
                        longest + 1,
                    ).1,
            decreases longest - len,
        {
            let ghost round = *self;
            self.update_round(&entries, len);
            proof {
                assert forall|path: spec_fn(int) -> bool| #[trigger]
                    self.asn_of(path) == shorter_match(
                        view,
                        old(self).asn_of(path),
                        path,
                        len + 1,
                    ).1 by {
                    lemma_next_round(view, old(self).asn_of(path), path, len as int);
                    assert(round.asn_of(path) == shorter_match(
                        view,
                        old(self).asn_of(path),
                        path,
                        len as int,
                    ).1);
                }
            }
            if len == longest {
                break;
            }
            len += 1;
        }
        proof {
            assert forall|path: spec_fn(int) -> bool| #[trigger]
                self.asn_of(path) == resolve(view, old(self).asn_of(path), path) by {
                lemma_all_shorter(view, old(self).asn_of(path), path, longest + 1);
            }
        }
    }

    /// Applies, in order, the entries whose prefix is `len` bits long.
    fn update_round(&mut self, entries: &Vec<ASNEntry>, len: usize)
        requires
            old(self).wf(),
        ensures
            final(self).wf(),
            forall|path: spec_fn(int) -> bool| #[trigger]
                final(self).asn_of(path) == last_exact(
                    entries_view(entries@),
                    old(self).asn_of(path),
                    path,
                    len as int,
                ),
    {
        let mut i: usize = 0;
        while i < entries.len()
            invariant
                self.wf(),
                i <= entries@.len(),
                forall|path: spec_fn(int) -> bool| #[trigger]
                    self.asn_of(path) == last_exact(
                        entries_view(entries@).take(i as int),
                        old(self).asn_of(path),
                        path,
                        len as int,
                    ),
            decreases entries@.len() - i,
        {
            if entries[i].0.len() == len {
                self.update(entries[i].0.as_slice(), entries[i].1);
            }
            i += 1;
            assert(entries_view(entries@).take(i as int).drop_last() =~= entries_view(
                entries@,
            ).take(i - 1));
        }
        assert(entries_view(entries@).take(i as int) =~= entries_view(entries@));
    }

    /// The one number assigned to everything below `prefix`, if there is one.
    pub fn lookup(&self, prefix: &[bool]) -> (found: Option<u32>)
        requires
            self.wf(),
        ensures
            found == common_asn(self@, prefix@),
    {
        let mut node: &TrieNode = &self.trie;
        let mut depth: usize = 0;
        while depth < prefix.len()
            invariant
                depth <= prefix@.len(),
                node.canonical(),
                self@.canonical(),
                forall|path: spec_fn(int) -> bool|
                    agrees_up_to(path, prefix@, depth as int) ==> #[trigger] self@.value(path, 0)
                        == node.value(path, depth as int),
            decreases prefix@.len() - depth,
        {
            match node {
                TrieNode::Leaf(v) => {
                    proof {
                        lemma_constant_leaf(self@, prefix@, *v, depth as int);
                    }
                    return Some(*v);
                },
                TrieNode::Branch(left, right) => {
                    let ghost above = *node;
                    node = if prefix[depth] {
                        right
                    } else {
                        left
                    };
                    proof {
                        assert forall|path: spec_fn(int) -> bool|
                            agrees_up_to(path, prefix@, depth + 1) implies #[trigger] self@.value(
                            path,
                            0,
                        ) == node.value(path, depth + 1) by {
                            assert(agrees_up_to(path, prefix@, depth as int));
                            lemma_child_value(above, path, depth as int);
                        }
                    }
                },
            }
            depth += 1;
        }
        match node {
            TrieNode::Leaf(v) => {
                proof {
                    lemma_constant_leaf(self@, prefix@, *v, depth as int);
                }
                Some(*v)
            },
            TrieNode::Branch(_, _) => {
                proof {
                    lemma_branch_not_constant(self@, *node, prefix@);
                }
                None
            },
        }
    }

    /// Whether this map agrees with every assignment that `req` makes.
    pub fn extends(&self, req: &ASMap) -> (extends: bool)
        ensures
            extends == extends_trie(self@, req@),
    {
        extends_node(&self.trie, &req.trie, Ghost(0))
    }

    /// The blocks on which `other` differs from this map, with both numbers.
    pub fn diff(&self, other: &ASMap) -> (diffs: Vec<ASNDiff>)
        ensures
            diffs_view(diffs@) == differences(self@, other@, Seq::empty()),
    {
        let mut out: Vec<ASNDiff> = Vec::new();
        let mut prefix: Vec<bool> = Vec::new();
        diff_nodes(&mut prefix, &self.trie, &other.trie, &mut out);
        assert(diffs_view(out@) =~= differences(self@, other@, Seq::empty()));
        out
    }
}

/// Every path that `req` assigns has the same number in `actual`.
pub open spec fn extends_trie(actual: TrieNode, req: TrieNode) -> bool {
    forall|path: spec_fn(int) -> bool|
        #![trigger actual.value(path, 0)]
        #![trigger req.value(path, 0)]
        req.value(path, 0) != 0 ==> actual.value(path, 0) == req.value(path, 0)
}

/// [`extends_trie`] for two nodes `depth` bits down.
spec fn extends_at(actual: TrieNode, req: TrieNode, depth: int) -> bool {
    forall|path: spec_fn(int) -> bool|
        #![trigger actual.value(path, depth)]
        #![trigger req.value(path, depth)]
        req.value(path, depth) != 0 ==> actual.value(path, depth) == req.value(path, depth)
}

proof fn lemma_extends_split(actual: TrieNode, req: TrieNode, depth: int)
    ensures
        extends_at(actual, req, depth) == (extends_at(
            actual.child(false),
            req.child(false),
            depth + 1,
        ) && extends_at(actual.child(true), req.child(true), depth + 1)),
{
    if extends_at(actual, req, depth) {
        lemma_extends_child(actual, req, depth, false);
        lemma_extends_child(actual, req, depth, true);
    }
    if extends_at(actual.child(false), req.child(false), depth + 1) && extends_at(
        actual.child(true),
        req.child(true),
        depth + 1,
    ) {
        assert forall|path: spec_fn(int) -> bool|
            #![trigger actual.value(path, depth)]
            #![trigger req.value(path, depth)]
            req.value(path, depth) != 0 implies actual.value(path, depth) == req.value(
            path,
            depth,
        ) by {
            lemma_child_value(actual, path, depth);
            lemma_child_value(req, path, depth);
        }
    }
}

proof fn lemma_extends_child(actual: TrieNode, req: TrieNode, depth: int, bit: bool)
    requires
        extends_at(actual, req, depth),
    ensures
        extends_at(actual.child(bit), req.child(bit), depth + 1),
{
    assert forall|path: spec_fn(int) -> bool|
        #![trigger actual.child(bit).value(path, depth + 1)]
        #![trigger req.child(bit).value(path, depth + 1)]
        req.child(bit).value(path, depth + 1) != 0 implies actual.child(bit).value(path, depth + 1)
        == req.child(bit).value(path, depth + 1) by {
        let turned = |i: int|
            if i == depth {
                bit
            } else {
                path(i)
            };
        lemma_value_local(actual.child(bit), path, turned, depth + 1);
        lemma_value_local(req.child(bit), path, turned, depth + 1);
        lemma_child_value(actual, turned, depth);
        lemma_child_value(req, turned, depth);
        assert(actual.value(turned, depth) == actual.child(bit).value(turned, depth + 1));
    }
}

fn extends_node(actual: &TrieNode, req: &TrieNode, depth: Ghost<int>) -> (extends: bool)
    ensures
        extends == extends_at(*actual, *req, depth@),
    decreases actual.height() + req.height(),
{
    match req {
        TrieNode::Leaf(reqv) => {
            if *reqv == 0 {
                return true;
            }
            match actual {
                TrieNode::Leaf(av) => {
                    proof {
                        assert(actual.value(|i: int| false, depth@) == *av);
                    }
                    *av == *reqv
                },
                TrieNode::Branch(left, right) => {
                    proof {
                        lemma_extends_split(*actual, *req, depth@);
                    }
                    extends_node(left, req, Ghost(depth@ + 1)) && extends_node(
                        right,
                        req,
                        Ghost(depth@ + 1),
                    )
                },
            }
        },
        TrieNode::Branch(req_left, req_right) => {
            proof {
                lemma_extends_split(*actual, *req, depth@);
            }
            match actual {
                TrieNode::Leaf(_) => extends_node(actual, req_left, Ghost(depth@ + 1))
                    && extends_node(actual, req_right, Ghost(depth@ + 1)),
                TrieNode::Branch(act_left, act_right) => extends_node(
                    act_left,
                    req_left,
                    Ghost(depth@ + 1),
                ) && extends_node(act_right, req_right, Ghost(depth@ + 1)),
            }
        },
    }
}

/// Copies a bit string.
pub(crate) fn copy_bits(bits: &Vec<bool>) -> (copy: Vec<bool>)
    ensures
        copy@ == bits@,
{
    let copy = bits.clone();
    assert(copy@ =~= bits@);
    copy
}

fn diff_nodes(
    prefix: &mut Vec<bool>,
    old_node: &TrieNode,
    new_node: &TrieNode,
    out: &mut Vec<ASNDiff>,
)
    ensures
        final(prefix)@ == old(prefix)@,
        diffs_view(final(out)@) == diffs_view(old(out)@) + differences(
            *old_node,
            *new_node,
            old(prefix)@,
        ),
    decreases old_node.height() + new_node.height(),
{
    let ghost start = diffs_view(out@);
    let ghost place = prefix@;
    if let (TrieNode::Leaf(a), TrieNode::Leaf(b)) = (old_node, new_node) {
        if *a != *b {
            let ghost before = out@;
            out.push((copy_bits(prefix), *a, *b));
            assert(diffs_view(out@) =~= start.push((place, *a, *b)));
        }
        assert(diffs_view(out@) =~= start + differences(*old_node, *new_node, place));
        return;
    }
    let (old_left, old_right): (&TrieNode, &TrieNode) = match old_node {
        TrieNode::Leaf(_) => (old_node, old_node),
        TrieNode::Branch(left, right) => (left, right),
    };
    let (new_left, new_right): (&TrieNode, &TrieNode) = match new_node {
        TrieNode::Leaf(_) => (new_node, new_node),
        TrieNode::Branch(left, right) => (left, right),
    };
    prefix.push(false);
    diff_nodes(prefix, old_left, new_left, out);
    prefix.pop();
    assert(prefix@ =~= place);
    prefix.push(true);
    diff_nodes(prefix, old_right, new_right, out);
    prefix.pop();
    assert(prefix@ =~= place);
    assert(diffs_view(out@) =~= start + differences(*old_node, *new_node, place));
}

/// `path` carries the first `upto` bits of `prefix`.
spec fn agrees_up_to(path: spec_fn(int) -> bool, prefix: Seq<bool>, upto: int) -> bool {
    forall|i: int| 0 <= i < upto ==> path(i) == #[trigger] prefix[i]
}

/// [`longest_match`] among the entries with prefixes shorter than `limit`.
spec fn shorter_match(
    entries: Seq<(Seq<bool>, u32)>,
    ambient: u32,
    path: spec_fn(int) -> bool,
    limit: int,
) -> (int, u32)
    decreases entries.len(),
{
    if entries.len() == 0 {
        (-1, ambient)
    } else {
        let before = shorter_match(entries.drop_last(), ambient, path, limit);
        let entry = entries.last();
        if entry.0.len() < limit && starts_with(path, entry.0) && entry.0.len() >= before.0 {
            (entry.0.len() as int, entry.1)
        } else {
            before
        }
    }
}

/// The number of the last entry that matches with exactly `len` bits.
spec fn last_exact(
    entries: Seq<(Seq<bool>, u32)>,
    ambient: u32,
    path: spec_fn(int) -> bool,
    len: int,
) -> u32
    decreases entries.len(),
{
    if entries.len() == 0 {
        ambient
    } else if entries.last().0.len() == len && starts_with(path, entries.last().0) {
        entries.last().1
    } else {
        last_exact(entries.drop_last(), ambient, path, len)
    }
}

proof fn lemma_no_shorter_match(
    entries: Seq<(Seq<bool>, u32)>,
    ambient: u32,
    path: spec_fn(int) -> bool,
)
    ensures
        shorter_match(entries, ambient, path, 0) == (-1int, ambient),
    decreases entries.len(),
{
    if entries.len() > 0 {
        lemma_no_shorter_match(entries.drop_last(), ambient, path);
    }
}

/// One more round raises the limit by one.
proof fn lemma_next_round(
    entries: Seq<(Seq<bool>, u32)>,
    ambient: u32,
    path: spec_fn(int) -> bool,
    limit: int,
)
    requires
        0 <= limit,
    ensures
        ({
            let old_match = shorter_match(entries, ambient, path, limit);
            let new_match = shorter_match(entries, ambient, path, limit + 1);
            &&& old_match.0 < limit
            &&& new_match.0 <= limit
            &&& if new_match.0 == limit {
                forall|other: u32| #[trigger]
                    last_exact(entries, other, path, limit) == new_match.1
            } else {
                &&& new_match == old_match
                &&& forall|other: u32| #[trigger] last_exact(entries, other, path, limit) == other
            }
        }),
    decreases entries.len(),
{
    if entries.len() > 0 {
        lemma_next_round(entries.drop_last(), ambient, path, limit);
        assert forall|other: u32|
            !(entries.last().0.len() == limit && starts_with(
                path,
                entries.last().0,
            )) implies #[trigger] last_exact(entries, other, path, limit) == last_exact(
            entries.drop_last(),
            other,
            path,
            limit,
        ) by {}
    }
}

/// With a limit above every prefix length nothing is left out.
proof fn lemma_all_shorter(
    entries: Seq<(Seq<bool>, u32)>,
    ambient: u32,
    path: spec_fn(int) -> bool,
    limit: int,
)
    requires
        forall|i: int| 0 <= i < entries.len() ==> (#[trigger] entries[i]).0.len() < limit,
    ensures
        shorter_match(entries, ambient, path, limit) == longest_match(entries, ambient, path),
    decreases entries.len(),
{
    if entries.len() > 0 {
        assert(entries[entries.len() - 1].0.len() < limit);
        lemma_all_shorter(entries.drop_last(), ambient, path, limit);
    }
}

/// A leaf on the way down a prefix decides the whole prefix.
proof fn lemma_constant_leaf(trie: TrieNode, prefix: Seq<bool>, asn: u32, depth: int)
    requires
        0 <= depth <= prefix.len(),
        forall|path: spec_fn(int) -> bool|
            agrees_up_to(path, prefix, depth) ==> #[trigger] trie.value(path, 0) == asn,
    ensures
        common_asn(trie, prefix) == Some(asn),
{
    assert forall|path: spec_fn(int) -> bool| starts_with(path, prefix) implies #[trigger] trie.value(
        path,
        0,
    ) == asn by {
        assert(agrees_up_to(path, prefix, depth));
    }
    assert(constant_on(trie, prefix, asn));
    let chosen = choose|v: u32| constant_on(trie, prefix, v);
    let path = |i: int| prefix[i];
    assert(starts_with(path, prefix));
    assert(trie.value(path, 0) == asn);
}

/// A branch at the end of a prefix leaves the prefix undecided.
proof fn lemma_branch_not_constant(trie: TrieNode, node: TrieNode, prefix: Seq<bool>)
    requires
        node is Branch,
        node.canonical(),
        forall|path: spec_fn(int) -> bool|
            agrees_up_to(path, prefix, prefix.len() as int) ==> #[trigger] trie.value(path, 0)
                == node.value(path, prefix.len() as int),
    ensures
        common_asn(trie, prefix) == None::<u32>,
{
    assert forall|asn: u32| !constant_on(trie, prefix, asn) by {
        let below = distinguishing_path(node, TrieNode::Leaf(asn), prefix.len() as int);
        let path = |i: int|
            if i < prefix.len() {
                prefix[i]
            } else {
                below(i)
            };
        lemma_value_local(node, path, below, prefix.len() as int);
        assert(starts_with(path, prefix));
        assert(agrees_up_to(path, prefix, prefix.len() as int));
        assert(trie.value(path, 0) != asn);
    }
}

/// Where the blocks of [`differences`] lie and what they say about one path.
proof fn lemma_differences(a: TrieNode, b: TrieNode, prefix: Seq<bool>, path: spec_fn(int) -> bool)
    ensures
        ({
            let diffs = differences(a, b, prefix);
            let depth = prefix.len() as int;
            &&& forall|i: int|
                0 <= i < diffs.len() && starts_with(path, (#[trigger] diffs[i]).0) ==> {
                    &&& starts_with(path, prefix)
                    &&& a.value(path, depth) == diffs[i].1
                    &&& b.value(path, depth) == diffs[i].2
                }
            &&& forall|i: int| 0 <= i < diffs.len() ==> (#[trigger] diffs[i]).1 != diffs[i].2
            &&& starts_with(path, prefix) && a.value(path, depth) != b.value(path, depth)
                ==> exists|i: int|
                0 <= i < diffs.len() && starts_with(path, (#[trigger] diffs[i]).0)
        }),
    decreases a.height() + b.height(),
{
    let diffs = differences(a, b, prefix);
    let depth = prefix.len() as int;
    if a is Leaf && b is Leaf {
        if a != b {
            assert(diffs[0] == (prefix, a->Leaf_0, b->Leaf_0));
        }
    } else {
        let left = differences(a.child(false), b.child(false), prefix.push(false));
        let right = differences(a.child(true), b.child(true), prefix.push(true));
        lemma_differences(a.child(false), b.child(false), prefix.push(false), path);
        lemma_differences(a.child(true), b.child(true), prefix.push(true), path);
        lemma_child_value(a, path, depth);
        lemma_child_value(b, path, depth);
        lemma_starts_with_push(path, prefix, false);
        lemma_starts_with_push(path, prefix, true);
        assert(diffs == left + right);
        if starts_with(path, prefix) && a.value(path, depth) != b.value(path, depth) {
            if path(depth) {
                let i = choose|i: int|
                    0 <= i < right.len() && starts_with(path, (#[trigger] right[i]).0);
                assert(diffs[left.len() + i] == right[i]);
            } else {
                let i = choose|i: int|
                    0 <= i < left.len() && starts_with(path, (#[trigger] left[i]).0);
                assert(diffs[i] == left[i]);
            }
        }
    }
}

/// A path starts with a longer prefix exactly if it starts with the shorter one
/// and carries the added bit.
pub proof fn lemma_starts_with_push(path: spec_fn(int) -> bool, prefix: Seq<bool>, bit: bool)
    ensures
        starts_with(path, prefix.push(bit)) == (starts_with(path, prefix) && path(
            prefix.len() as int,
        ) == bit),
{
    let longer = prefix.push(bit);
    if starts_with(path, longer) {
        assert(longer[prefix.len() as int] == bit);
        assert forall|i: int| 0 <= i < prefix.len() implies path(i) == #[trigger] prefix[i] by {
            assert(longer[i] == prefix[i]);
        }
    }
}

/// Where all matching entries carry the same number, that number comes out.
pub proof fn lemma_resolve_uniform(
    entries: Seq<(Seq<bool>, u32)>,
    ambient: u32,
    path: spec_fn(int) -> bool,
    asn: u32,
)
    requires
        forall|i: int|
            0 <= i < entries.len() && starts_with(path, (#[trigger] entries[i]).0)
                ==> entries[i].1 == asn,
    ensures
        longest_match(entries, ambient, path) == (-1int, ambient) || resolve(
            entries,
            ambient,
            path,
        ) == asn,
        longest_match(entries, ambient, path).0 == -1 ==> forall|i: int|
            0 <= i < entries.len() ==> !starts_with(path, (#[trigger] entries[i]).0),
    decreases entries.len(),
{
    if entries.len() > 0 {
        let init = entries.drop_last();
        assert forall|i: int|
            0 <= i < init.len() && starts_with(path, (#[trigger] init[i]).0) implies init[i].1
            == asn by {
            assert(entries[i] == init[i]);
        }
        lemma_resolve_uniform(init, ambient, path, asn);
        assert(entries[entries.len() - 1] == entries.last());
        if longest_match(entries, ambient, path).0 == -1 {
            assert forall|i: int| 0 <= i < entries.len() implies !starts_with(
                path,
                (#[trigger] entries[i]).0,
            ) by {
                if i < init.len() {
                    assert(init[i] == entries[i]);
                }
            }
        }
    }
}

/// The list of changes describes the two maps exactly: every block lies where
/// both maps are constant and differ, with the numbers it states, and every
/// path on which the maps differ lies in a block.
pub proof fn diff_describes_every_change(
    old_trie: TrieNode,
    new_trie: TrieNode,
    path: spec_fn(int) -> bool,
)
    ensures
        ({
            let diffs = differences(old_trie, new_trie, Seq::empty());
            &&& forall|i: int|
                0 <= i < diffs.len() && starts_with(path, (#[trigger] diffs[i]).0)
                    ==> old_trie.value(path, 0) == diffs[i].1 && new_trie.value(path, 0)
                    == diffs[i].2
            &&& forall|i: int| 0 <= i < diffs.len() ==> (#[trigger] diffs[i]).1 != diffs[i].2
            &&& old_trie.value(path, 0) != new_trie.value(path, 0) <==> exists|i: int|
                0 <= i < diffs.len() && starts_with(path, (#[trigger] diffs[i]).0)
        }),
{
    lemma_differences(old_trie, new_trie, Seq::empty(), path);
}

/// Two maps in normal form are equal exactly if there is no change between them.
pub proof fn diff_is_empty_iff_equal(old_trie: TrieNode, new_trie: TrieNode)
    requires
        old_trie.canonical(),
        new_trie.canonical(),
    ensures
        differences(old_trie, new_trie, Seq::empty()).len() == 0 <==> old_trie == new_trie,
{
    let diffs = differences(old_trie, new_trie, Seq::empty());
    if diffs.len() == 0 {
        assert forall|path: spec_fn(int) -> bool| #[trigger]
            old_trie.value(path, 0) == new_trie.value(path, 0) by {
            lemma_differences(old_trie, new_trie, Seq::empty(), path);
        }
        normal_form_is_unique(old_trie, new_trie);
    } else if old_trie == new_trie {
        let block = diffs[0].0;
        let path = |i: int| block[i];
        assert(starts_with(path, diffs[0].0));
        lemma_differences(old_trie, new_trie, Seq::empty(), path);
    }
}

/// The new numbers of the changes, laid over the old map, give the new map.
pub proof fn applying_a_diff_gives_the_new_map(
    old_trie: TrieNode,
    new_trie: TrieNode,
    path: spec_fn(int) -> bool,
)
    ensures
        resolve(
            differences(old_trie, new_trie, Seq::empty()).map_values(
                |d: (Seq<bool>, u32, u32)| (d.0, d.2),
            ),
            old_trie.value(path, 0),
            path,
        ) == new_trie.value(path, 0),
{
    let diffs = differences(old_trie, new_trie, Seq::empty());
    let patch = diffs.map_values(|d: (Seq<bool>, u32, u32)| (d.0, d.2));
    lemma_differences(old_trie, new_trie, Seq::empty(), path);
    assert forall|i: int|
        0 <= i < patch.len() && starts_with(path, (#[trigger] patch[i]).0) implies patch[i].1
        == new_trie.value(path, 0) by {
        assert(starts_with(path, diffs[i].0));
    }
    lemma_resolve_uniform(patch, old_trie.value(path, 0), path, new_trie.value(path, 0));
    if old_trie.value(path, 0) != new_trie.value(path, 0) {
        let i = choose|i: int| 0 <= i < diffs.len() && starts_with(path, (#[trigger] diffs[i]).0);
        assert(starts_with(path, patch[i].0));
    }
}

/// A map extends itself, and extending is transitive.
pub proof fn extending_is_a_preorder(a: TrieNode, b: TrieNode, c: TrieNode)
    ensures
        extends_trie(a, a),
        extends_trie(a, b) && extends_trie(b, c) ==> extends_trie(a, c),
{
    if extends_trie(a, b) && extends_trie(b, c) {
        assert forall|path: spec_fn(int) -> bool|
            #![trigger a.value(path, 0)]
            #![trigger c.value(path, 0)]
            c.value(path, 0) != 0 implies a.value(path, 0) == c.value(path, 0) by {
            assert(b.value(path, 0) == c.value(path, 0));
        }
    }
}

/// What a list of entries over a background answers: the number of an entry whose
/// prefix the path starts with, bit by bit, such that every other such entry has a
/// shorter prefix, or one of the same length and an earlier place; and the
/// background where there is none.
pub proof fn the_longest_prefix_decides(
    entries: Seq<(Seq<bool>, u32)>,
    ambient: u32,
    path: spec_fn(int) -> bool,
)
    ensures
        (forall|i: int| 0 <= i < entries.len() ==> !leads_to(path, #[trigger] entries[i].0))
            ==> resolve(entries, ambient, path) == ambient,
        (exists|i: int| 0 <= i < entries.len() && leads_to(path, #[trigger] entries[i].0))
            ==> exists|i: int|
            0 <= i < entries.len() && leads_to(path, #[trigger] entries[i].0) && resolve(
                entries,
                ambient,
                path,
            ) == entries[i].1 && forall|j: int|
                0 <= j < entries.len() && leads_to(path, #[trigger] entries[j].0)
                    ==> entries[j].0.len() < entries[i].0.len() || (entries[j].0.len()
                    == entries[i].0.len() && j <= i),
{
    let i = lemma_deciding(entries, ambient, path);
    if i >= 0 {
        assert(leads_to(path, entries[i].0));
    }
}

/// The path carries the bits of the prefix, from its first one on.
pub open spec fn leads_to(path: spec_fn(int) -> bool, prefix: Seq<bool>) -> bool {
    forall|i: int| 0 <= i < prefix.len() ==> #[trigger] path(i) == prefix[i]
}

proof fn lemma_leads_to(path: spec_fn(int) -> bool, prefix: Seq<bool>)
    ensures
        leads_to(path, prefix) == starts_with(path, prefix),
{
    if leads_to(path, prefix) {
        assert forall|i: int| 0 <= i < prefix.len() implies path(i) == #[trigger] prefix[i] by {
            assert(path(i) == prefix[i]);
        }
    }
    if starts_with(path, prefix) {
        assert forall|i: int| 0 <= i < prefix.len() implies #[trigger] path(i) == prefix[i] by {
            assert(path(i) == prefix[i]);
        }
    }
}

proof fn lemma_deciding(
    entries: Seq<(Seq<bool>, u32)>,
    ambient: u32,
    path: spec_fn(int) -> bool,
) -> (i: int)
    ensures
        -1 <= i < entries.len(),
        i == -1 ==> longest_match(entries, ambient, path) == (-1int, ambient),
        i == -1 ==> forall|j: int|
            0 <= j < entries.len() ==> !leads_to(path, #[trigger] entries[j].0),
        i >= 0 ==> leads_to(path, entries[i].0) && longest_match(entries, ambient, path) == (
            entries[i].0.len() as int,
            entries[i].1,
        ),
        i >= 0 ==> forall|j: int|
            0 <= j < entries.len() && leads_to(path, #[trigger] entries[j].0)
                ==> entries[j].0.len() < entries[i].0.len() || (entries[j].0.len()
                == entries[i].0.len() && j <= i),
    decreases entries.len(),
{
    if entries.len() == 0 {
        -1
    } else {
        let less = entries.drop_last();
        let last = entries.len() - 1;
        let i = lemma_deciding(less, ambient, path);
        lemma_leads_to(path, entries.last().0);
        assert(entries.last() == entries[last]);
        assert(forall|j: int| 0 <= j < less.len() ==> less[j] == entries[j]);
        let before = longest_match(less, ambient, path);
        if starts_with(path, entries.last().0) && entries.last().0.len() >= before.0 {
            assert forall|j: int|
                0 <= j < entries.len() && leads_to(path, #[trigger] entries[j].0) implies entries[j].0.len()
                < entries[last].0.len() || (entries[j].0.len() == entries[last].0.len() && j
                <= last) by {
                if j < last {
                    assert(leads_to(path, less[j].0));
                }
            }
            last
        } else {
            assert forall|j: int|
                0 <= j < entries.len() && leads_to(path, #[trigger] entries[j].0) implies i >= 0 && (
            entries[j].0.len() < entries[i].0.len() || (entries[j].0.len() == entries[i].0.len()
                && j <= i)) by {
                if j < last {
                    assert(leads_to(path, less[j].0));
                }
            }
            i
        }
    }
}

/// A path starts with a prefix exactly if it carries all of its bits, and the
/// number found for a prefix is the one that every such path has.
pub proof fn lookups_cover_every_path(trie: TrieNode, prefix: Seq<bool>, path: spec_fn(int) -> bool)
    ensures
        starts_with(path, prefix) == leads_to(path, prefix),
        common_asn(trie, prefix) matches Some(asn) ==> (leads_to(path, prefix) ==> trie.value(
            path,
            0,
        ) == asn),
        (forall|p: spec_fn(int) -> bool, q: spec_fn(int) -> bool|
            leads_to(p, prefix) && leads_to(q, prefix) ==> #[trigger] trie.value(p, 0)
                == #[trigger] trie.value(q, 0)) ==> common_asn(trie, prefix) is Some,
{
    lemma_leads_to(path, prefix);
    if let Some(asn) = common_asn(trie, prefix) {
        let a = choose|a: u32| constant_on(trie, prefix, a);
        assert(constant_on(trie, prefix, a));
    }
    if forall|p: spec_fn(int) -> bool, q: spec_fn(int) -> bool|
        leads_to(p, prefix) && leads_to(q, prefix) ==> #[trigger] trie.value(p, 0)
            == #[trigger] trie.value(q, 0) {
        let own = |i: int| prefix[i];
        assert(leads_to(own, prefix));
        assert(constant_on(trie, prefix, trie.value(own, 0))) by {
            assert forall|p: spec_fn(int) -> bool| starts_with(p, prefix) implies #[trigger] trie.value(
                p,
                0,
            ) == trie.value(own, 0) by {
                lemma_leads_to(p, prefix);
            }
        }
    }
}

/// A map extends another exactly if it has the other's number wherever the other
/// has one.
pub proof fn extending_keeps_assignments(a: TrieNode, b: TrieNode)
    ensures
        extends_trie(a, b) == forall|path: spec_fn(int) -> bool|
            #![trigger b.value(path, 0)]
            b.value(path, 0) == 0 || a.value(path, 0) == b.value(path, 0),
{
    if forall|path: spec_fn(int) -> bool|
        #![trigger b.value(path, 0)]
        b.value(path, 0) == 0 || a.value(path, 0) == b.value(path, 0) {
        assert forall|path: spec_fn(int) -> bool|
            #![trigger a.value(path, 0)]
            #![trigger b.value(path, 0)]
            b.value(path, 0) != 0 implies a.value(path, 0) == b.value(path, 0) by {
            assert(b.value(path, 0) == 0 || a.value(path, 0) == b.value(path, 0));
        }
    }
}

/// A block that is the whole of its place is where both tries have a leaf.
proof fn lemma_whole_block(old_trie: TrieNode, new_trie: TrieNode, prefix: Seq<bool>, i: int)
    requires
        0 <= i < differences(old_trie, new_trie, prefix).len(),
    ensures
        ({
            let block = differences(old_trie, new_trie, prefix)[i];
            &&& block.0.len() >= prefix.len()
            &&& block.0.take(prefix.len() as int) == prefix
            &&& block.0.len() == prefix.len() ==> old_trie == TrieNode::Leaf(block.1) && new_trie
                == TrieNode::Leaf(block.2)
        }),
    decreases old_trie.height() + new_trie.height(),
{
    let all = differences(old_trie, new_trie, prefix);
    match (old_trie, new_trie) {
        (TrieNode::Leaf(_), TrieNode::Leaf(_)) => {
            assert(prefix.take(prefix.len() as int) =~= prefix);
        },
        _ => {
            let zero = differences(old_trie.child(false), new_trie.child(false), prefix.push(false));
            let bit = i >= zero.len();
            let (x, y) = (old_trie.child(bit), new_trie.child(bit));
            let at: int = if bit {
                i - zero.len()
            } else {
                i
            };
            lemma_whole_block(x, y, prefix.push(bit), at);
            let bits = all[i].0;
            assert(all[i] == differences(x, y, prefix.push(bit))[at]);
            assert(bits.take(prefix.len() as int) =~= bits.take(prefix.len() as int + 1).take(
                prefix.len() as int,
            ));
            assert(prefix.push(bit).take(prefix.len() as int) =~= prefix);
        },
    }
}

proof fn lemma_no_halves(
    old_trie: TrieNode,
    new_trie: TrieNode,
    prefix: Seq<bool>,
    i: int,
    j: int,
    block: Seq<bool>,
)
    requires
        old_trie.canonical(),
        new_trie.canonical(),
        0 <= i < j < differences(old_trie, new_trie, prefix).len(),
        differences(old_trie, new_trie, prefix)[i].0 == block.push(false),
        differences(old_trie, new_trie, prefix)[j].0 == block.push(true),
    ensures
        ({
            let all = differences(old_trie, new_trie, prefix);
            all[i].1 != all[j].1 || all[i].2 != all[j].2
        }),
    decreases old_trie.height() + new_trie.height(),
{
    let all = differences(old_trie, new_trie, prefix);
    match (old_trie, new_trie) {
        (TrieNode::Leaf(_), TrieNode::Leaf(_)) => {},
        _ => {
            let zero = differences(old_trie.child(false), new_trie.child(false), prefix.push(false));
            let one = differences(old_trie.child(true), new_trie.child(true), prefix.push(true));
            let n = prefix.len() as int;
            if j < zero.len() {
                assert(all[i] == zero[i] && all[j] == zero[j]);
                lemma_no_halves(
                    old_trie.child(false),
                    new_trie.child(false),
                    prefix.push(false),
                    i,
                    j,
                    block,
                );
            } else if i >= zero.len() {
                let k = zero.len() as int;
                assert(all[i] == one[i - k] && all[j] == one[j - k]);
                lemma_no_halves(
                    old_trie.child(true),
                    new_trie.child(true),
                    prefix.push(true),
                    i - k,
                    j - k,
                    block,
                );
            } else {
                let k = zero.len() as int;
                assert(all[i] == zero[i] && all[j] == one[j - k]);
                lemma_whole_block(
                    old_trie.child(false),
                    new_trie.child(false),
                    prefix.push(false),
                    i,
                );
                lemma_whole_block(
                    old_trie.child(true),
                    new_trie.child(true),
                    prefix.push(true),
                    j - k,
                );
                assert(all[i].0.take(n + 1)[n] == false && all[j].0.take(n + 1)[n] == true);
                assert(all[i].0[n] == false && all[j].0[n] == true);
                if block.len() > n {
                    assert(block.push(false)[n] == block[n] && block.push(true)[n] == block[n]);
                }
                assert(block.len() == n);
            }
        },
    }
}

/// Changes are listed in blocks as large as they can be: no two listed blocks are
/// the halves of a larger one with the same two numbers.
pub proof fn changes_are_in_whole_blocks(
    old_trie: TrieNode,
    new_trie: TrieNode,
    i: int,
    j: int,
    block: Seq<bool>,
)
    requires
        old_trie.canonical(),
        new_trie.canonical(),
        0 <= i < j < differences(old_trie, new_trie, Seq::empty()).len(),
    ensures
        ({
            let all = differences(old_trie, new_trie, Seq::empty());
            !(all[i].0 == block.push(false) && all[j].0 == block.push(true) && all[i].1 == all[j].1
                && all[i].2 == all[j].2)
        }),
{
    let all = differences(old_trie, new_trie, Seq::empty());
    if all[i].0 == block.push(false) && all[j].0 == block.push(true) && all[i].1 == all[j].1
        && all[i].2 == all[j].2 {
        lemma_no_halves(old_trie, new_trie, Seq::empty(), i, j, block);
    }
}

/// What a trie answers: a leaf its number, a branch what its second side answers
/// where the path goes on with a one and else what its first side does, each for
/// the path from the next bit on.
pub proof fn tries_are_followed_bit_by_bit(
    v: u32,
    left: TrieNode,
    right: TrieNode,
    path: spec_fn(int) -> bool,
    depth: int,
)
    ensures
        TrieNode::Leaf(v).value(path, depth) == v,
        path(depth) ==> TrieNode::Branch(Box::new(left), Box::new(right)).value(path, depth)
            == right.value(path, depth + 1),
        !path(depth) ==> TrieNode::Branch(Box::new(left), Box::new(right)).value(path, depth)
            == left.value(path, depth + 1),
{
}

/// A path leads to a prefix exactly if it has each of its bits in the same place.
pub proof fn paths_lead_to_what_they_begin_with(path: spec_fn(int) -> bool, prefix: Seq<bool>)
    ensures
        leads_to(path, prefix) <==> forall|i: int|
            0 <= i < prefix.len() ==> #[trigger] path(i) == prefix[i],
        starts_with(path, prefix) <==> forall|i: int|
            0 <= i < prefix.len() ==> #[trigger] path(i) == prefix[i],
{
    lemma_leads_to(path, prefix);
}

/// A trie is in normal form exactly if no branch in it has two equal leaves. What
/// joins two tries in normal form is in normal form and answers as a branch does.
pub proof fn equal_leaves_are_one_leaf(
    v: u32,
    left: TrieNode,
    right: TrieNode,
    path: spec_fn(int) -> bool,
    depth: int,
)
    ensures
        TrieNode::Leaf(v).canonical(),
        TrieNode::Branch(Box::new(left), Box::new(right)).canonical() <==> left.canonical()
            && right.canonical() && !(left is Leaf && left == right),
        left.canonical() && right.canonical() ==> TrieNode::joined(left, right).canonical(),
        TrieNode::joined(left, right).value(path, depth) == TrieNode::Branch(
            Box::new(left),
            Box::new(right),
        ).value(path, depth),
{
    if left is Leaf && left == right {
        assert(left.value(path, depth) == left.value(path, depth + 1));
    }
}

/// A map is in normal form, and answers what its trie does from the first bit on.
pub proof fn maps_are_tries(map: ASMap, path: spec_fn(int) -> bool)
    ensures
        map.wf() == map@.canonical(),
        map.asn_of(path) == map@.value(path, 0),
{
}

/// Numbers are bounded exactly if every answer is.
pub proof fn bounds_hold_for_every_answer(trie: TrieNode, bound: int, depth: int)
    ensures
        trie.asns_at_most(bound) <==> forall|path: spec_fn(int) -> bool| #[trigger]
            trie.value(path, depth) <= bound,
    decreases trie,
{
    match trie {
        TrieNode::Leaf(v) => {
            let path: spec_fn(int) -> bool = |i: int| false;
            assert(trie.value(path, depth) == v);
        },
        TrieNode::Branch(left, right) => {
            bounds_hold_for_every_answer(*left, bound, depth + 1);
            bounds_hold_for_every_answer(*right, bound, depth + 1);
            if forall|path: spec_fn(int) -> bool| #[trigger] trie.value(path, depth) <= bound {
                assert forall|path: spec_fn(int) -> bool| #[trigger]
                    left.value(path, depth + 1) <= bound by {
                    let other = |i: int| if i == depth { false } else { path(i) };
                    lemma_value_local(*left, path, other, depth + 1);
                    assert(trie.value(other, depth) <= bound);
                }
                assert forall|path: spec_fn(int) -> bool| #[trigger]
                    right.value(path, depth + 1) <= bound by {
                    let other = |i: int| if i == depth { true } else { path(i) };
                    lemma_value_local(*right, path, other, depth + 1);
                    assert(trie.value(other, depth) <= bound);
                }
                assert(left.asns_at_most(bound));
                assert(right.asns_at_most(bound));
                assert(trie.asns_at_most(bound));
            }
            if trie.asns_at_most(bound) {
                assert forall|path: spec_fn(int) -> bool| #[trigger]
                    trie.value(path, depth) <= bound by {
                    assert(left.value(path, depth + 1) <= bound);
                    assert(right.value(path, depth + 1) <= bound);
                }
            }
        },
    }
}

/// Entries and changes are taken as they stand.
pub proof fn entries_are_taken_as_they_stand(
    entries: Seq<ASNEntry>,
    diffs: Seq<ASNDiff>,
    i: int,
)
    ensures
        entries_view(entries).len() == entries.len(),
        0 <= i < entries.len() ==> entries_view(entries)[i] == (entries[i].0@, entries[i].1),
        diffs_view(diffs).len() == diffs.len(),
        0 <= i < diffs.len() ==> diffs_view(diffs)[i] == (diffs[i].0@, diffs[i].1, diffs[i].2),
{
}

/// What changed between two maps: a path leads to a block that is listed exactly if
/// its numbers differ, and the block is listed with both of them.
pub proof fn changes_are_where_numbers_differ(
    old_trie: TrieNode,
    new_trie: TrieNode,
    path: spec_fn(int) -> bool,
)
    ensures
        old_trie.value(path, 0) != new_trie.value(path, 0) ==> exists|i: int|
            0 <= i < differences(old_trie, new_trie, Seq::empty()).len() && leads_to(
                path,
                (#[trigger] differences(old_trie, new_trie, Seq::empty())[i]).0,
            ),
        forall|i: int|
            0 <= i < differences(old_trie, new_trie, Seq::empty()).len() && leads_to(
                path,
                (#[trigger] differences(old_trie, new_trie, Seq::empty())[i]).0,
            ) ==> {
                let change = differences(old_trie, new_trie, Seq::empty())[i];
                &&& change.1 == old_trie.value(path, 0)
                &&& change.2 == new_trie.value(path, 0)
                &&& change.1 != change.2
            },
{
    let diffs = differences(old_trie, new_trie, Seq::empty());
    lemma_differences(old_trie, new_trie, Seq::empty(), path);
    if old_trie.value(path, 0) != new_trie.value(path, 0) {
        let i = choose|i: int| 0 <= i < diffs.len() && starts_with(path, (#[trigger] diffs[i]).0);
        lemma_leads_to(path, diffs[i].0);
    }
    assert forall|i: int| 0 <= i < diffs.len() && leads_to(path, (#[trigger] diffs[i]).0) implies {
        &&& diffs[i].1 == old_trie.value(path, 0)
        &&& diffs[i].2 == new_trie.value(path, 0)
        &&& diffs[i].1 != diffs[i].2
    } by {
        lemma_leads_to(path, diffs[i].0);
    }
}

} // verus!
