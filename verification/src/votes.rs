//! The tally: who has spoken, and how often each assignment was asserted.

use crate::claim::{entry_le, AsmapEntry};
use crate::rules::{lemma_same_members, strictly_ascending};
use crate::sort::{ascending, keys, lemma_ascending, order, sorted, Ordered};
use crate::text::{is_text_le, lemma_text_le_total, lemma_text_le_trans, same_text, text_le};
use vstd::prelude::*;

verus! {

/// How many asserted one assignment.
#[derive(Debug)]
pub struct Vote {
    pub prefix: String,
    pub asn: u32,
    pub count: usize,
}

impl Vote {
    /// What was asserted.
    pub open spec fn key(self) -> (Seq<char>, u32) {
        (self.prefix@, self.asn)
    }
}

/// One more vote for each of `chosen`.
pub open spec fn tallied(
    votes: Map<(Seq<char>, u32), nat>,
    chosen: Set<(Seq<char>, u32)>,
) -> Map<(Seq<char>, u32), nat> {
    Map::new(
        |k: (Seq<char>, u32)| votes.dom().contains(k) || chosen.contains(k),
        |k: (Seq<char>, u32)|
            (if votes.dom().contains(k) {
                votes[k]
            } else {
                0
            }) + (if chosen.contains(k) {
                1nat
            } else {
                0nat
            }),
    )
}

/// Votes by ascending key, each key once.
#[derive(Debug)]
pub struct VoteTable {
    pub votes: Vec<Vote>,
}

impl VoteTable {
    /// The keys, in order.
    pub open spec fn vote_keys(self) -> Seq<(Seq<char>, u32)> {
        self.votes@.map_values(|v: Vote| v.key())
    }

    /// The table holds exactly what `map` does.
    pub open spec fn shows(self, map: Map<(Seq<char>, u32), nat>) -> bool {
        &&& strictly_ascending(self.vote_keys())
        &&& forall|i: int|
            0 <= i < self.votes@.len() ==> {
                let vote = #[trigger] self.votes@[i];
                map.dom().contains(vote.key()) && map[vote.key()] == vote.count
            }
        &&& forall|k: (Seq<char>, u32)| #[trigger]
            map.dom().contains(k) ==> exists|i: int|
                0 <= i < self.votes@.len() && (#[trigger] self.votes@[i]).key() == k
    }

    /// An empty table.
    pub fn new() -> (table: VoteTable)
        ensures
            table.shows(Map::empty()),
    {
        VoteTable { votes: Vec::new() }
    }

    /// Adds one vote for each of some keys.
    pub(crate) fn add_votes(
        &mut self,
        chosen: Vec<AsmapEntry>,
        Ghost(map): Ghost<Map<(Seq<char>, u32), nat>>,
    )
        requires
            old(self).shows(map),
            keys(chosen@).no_duplicates(),
            forall|k: (Seq<char>, u32)| #[trigger] map.dom().contains(k) ==> map[k] < usize::MAX,
        ensures
            final(self).shows(tallied(map, keys(chosen@).to_set())),
    {
        let mut left: Vec<Vote> = Vec::new();
        std::mem::swap(&mut left, &mut self.votes);
        let mut right = sorted(&chosen);
        proof {
            lemma_sorted_votes(keys(chosen@));
        }
        let ghost lseq = left@;
        let ghost rseq = keys(right@);
        let ghost goal = tallied(map, rseq.to_set());
        let mut rev: Vec<Vote> = Vec::new();
        assert(lseq == old(self).votes@);
        assert(goal == tallied(map, keys(chosen@).to_set()));
        while left.len() > 0 || right.len() > 0
            invariant
                old(self).shows(map),
                lseq == old(self).votes@,
                strictly_ascending(rseq),
                goal == tallied(map, rseq.to_set()),
                forall|k: (Seq<char>, u32)| #[trigger] map.dom().contains(k) ==> map[k]
                    < usize::MAX,
                left@.len() <= lseq.len(),
                left@ == lseq.take(left@.len() as int),
                right@.len() <= rseq.len(),
                keys(right@) == rseq.take(right@.len() as int),
                descending_above(rev@, lseq, left@.len() as int, rseq, right@.len() as int),
                holds_goal(rev@, goal),
                covers(rev@, lseq, left@.len() as int, rseq, right@.len() as int),
            decreases left@.len() + right@.len(),
        {
            let ghost i = left@.len() as int;
            let ghost j = right@.len() as int;
            let ghost old_rev = rev@;
            let mut from_left: bool = left.len() > 0;
            let mut from_right: bool = right.len() > 0;
            if left.len() > 0 && right.len() > 0 {
                let l = &left[left.len() - 1];
                let r = &right[right.len() - 1];
                assert(lseq[i - 1] == l);
                assert(keys(right@)[j - 1] == r.key());
                if same_text(l.prefix.as_str(), r.ip_prefix.as_str()) {
                    from_left = l.asn >= r.asn;
                    from_right = r.asn >= l.asn;
                } else if is_text_le(l.prefix.as_str(), r.ip_prefix.as_str()) {
                    from_left = false;
                } else {
                    from_right = false;
                }
            }
            let ghost key = if from_left {
                lseq[i - 1].key()
            } else {
                rseq[j - 1]
            };
            proof {
                if i > 0 {
                    assert(left@[i - 1] == lseq[i - 1]);
                }
                if j > 0 {
                    assert(keys(right@)[j - 1] == rseq[j - 1]);
                    assert(keys(right@)[j - 1] == right@[j - 1].key());
                }
                if i > 0 && j > 0 {
                    lemma_text_le_total(lseq[i - 1].key().0, rseq[j - 1].0);
                }
                lemma_next_key(
                    map,
                    *old(self),
                    rseq,
                    old_rev,
                    i,
                    j,
                    from_left,
                    from_right,
                    key,
                );
            }
            if from_left {
                if let Some(vote) = left.pop() {
                    assert(vote == lseq[i - 1]);
                    let mut vote = vote;
                    if from_right {
                        let _ = right.pop();
                        vote.count = vote.count + 1;
                    }
                    rev.push(vote);
                }
            } else if let Some(entry) = right.pop() {
                assert(entry.key() == rseq[j - 1]);
                let AsmapEntry { ip_prefix, asn } = entry;
                rev.push(Vote { prefix: ip_prefix, asn, count: 1 });
            }
            proof {
                let vote = rev@.last();
                assert(rev@ =~= old_rev.push(vote));
                assert(vote.key() == key);
                assert(left@ =~= lseq.take(left@.len() as int));
                assert(keys(right@) =~= rseq.take(right@.len() as int));
                lemma_pushed(
                    map,
                    *old(self),
                    rseq,
                    old_rev,
                    vote,
                    i,
                    j,
                    from_left,
                    from_right,
                );
            }
        }
        proof {
            assert(covers(rev@, lseq, 0, rseq, 0));
        }
        let ghost all = rev@;
        let mut votes: Vec<Vote> = Vec::new();
        while rev.len() > 0
            invariant
                rev@.len() <= all.len(),
                rev@ == all.take(rev@.len() as int),
                votes@.len() == all.len() - rev@.len(),
                forall|x: int| 0 <= x < votes@.len() ==> (#[trigger] votes@[x]) == all[all.len() - 1
                    - x],
            decreases rev@.len(),
        {
            let ghost n = rev@.len();
            let ghost before = votes@;
            if let Some(vote) = rev.pop() {
                assert(vote == all[n - 1]);
                votes.push(vote);
            }
            assert(rev@ =~= all.take(rev@.len() as int));
        }
        self.votes = votes;
        proof {
            lemma_reversed(all, self.votes@, *old(self), rseq, map);
            assert(self.shows(goal));
        }
    }
}

/// Distinct keys, sorted, ascend strictly, and are the same keys.
proof fn lemma_sorted_votes(chosen: Seq<(Seq<char>, u32)>)
    requires
        chosen.no_duplicates(),
    ensures
        strictly_ascending(ascending::<AsmapEntry>(chosen)),
        ascending::<AsmapEntry>(chosen).to_set() == chosen.to_set(),
{
    let out = ascending::<AsmapEntry>(chosen);
    lemma_ascending::<AsmapEntry>(chosen);
    lemma_same_members(out, chosen);
    chosen.lemma_multiset_has_no_duplicates();
    out.lemma_multiset_has_no_duplicates_conv();
    let leq = order::<AsmapEntry>();
    assert forall|i: int, j: int| 0 <= i < j < out.len() implies entry_le(
        #[trigger] out[i],
        #[trigger] out[j],
    ) && out[i] != out[j] by {
        assert(leq(out[i], out[j]));
    }
    assert(out.to_set() =~= chosen.to_set());
}

/// The reversed list so far lies above everything that is still to come.
spec fn descending_above(
    rev: Seq<Vote>,
    left: Seq<Vote>,
    i: int,
    right: Seq<(Seq<char>, u32)>,
    j: int,
) -> bool {
    &&& forall|x: int, y: int|
        0 <= x < y < rev.len() ==> entry_le(
            (#[trigger] rev[y]).key(),
            (#[trigger] rev[x]).key(),
        ) && rev[x].key() != rev[y].key()
    &&& forall|x: int, a: int|
        0 <= x < rev.len() && 0 <= a < i ==> entry_le(
            (#[trigger] left[a]).key(),
            (#[trigger] rev[x]).key(),
        ) && left[a].key() != rev[x].key()
    &&& forall|x: int, b: int|
        0 <= x < rev.len() && 0 <= b < j ==> entry_le(
            #[trigger] right[b],
            (#[trigger] rev[x]).key(),
        ) && right[b] != rev[x].key()
}

spec fn holds_goal(rev: Seq<Vote>, goal: Map<(Seq<char>, u32), nat>) -> bool {
    forall|x: int|
        0 <= x < rev.len() ==> {
            let vote = #[trigger] rev[x];
            goal.dom().contains(vote.key()) && goal[vote.key()] == vote.count
        }
}

/// Every key that has been passed is in the list.
spec fn covers(
    rev: Seq<Vote>,
    left: Seq<Vote>,
    i: int,
    right: Seq<(Seq<char>, u32)>,
    j: int,
) -> bool {
    &&& forall|a: int|
        i <= a < left.len() ==> exists|x: int|
            0 <= x < rev.len() && (#[trigger] rev[x]).key() == (#[trigger] left[a]).key()
    &&& forall|b: int|
        j <= b < right.len() ==> exists|x: int|
            0 <= x < rev.len() && (#[trigger] rev[x]).key() == #[trigger] right[b]
}

/// The next key is the largest of those still to come, and whether each side has
/// it is known.
proof fn lemma_next_key(
    map: Map<(Seq<char>, u32), nat>,
    table: VoteTable,
    right: Seq<(Seq<char>, u32)>,
    rev: Seq<Vote>,
    i: int,
    j: int,
    from_left: bool,
    from_right: bool,
    key: (Seq<char>, u32),
)
    requires
        table.shows(map),
        strictly_ascending(right),
        0 <= i <= table.votes@.len(),
        0 <= j <= right.len(),
        from_left || from_right,
        from_left ==> i > 0 && key == table.votes@[i - 1].key(),
        from_right ==> j > 0 && key == right[j - 1],
        !from_left && i > 0 ==> entry_le(table.votes@[i - 1].key(), key) && table.votes@[i - 1].key()
            != key,
        !from_right && j > 0 ==> entry_le(right[j - 1], key) && right[j - 1] != key,
        descending_above(rev, table.votes@, i, right, j),
        covers(rev, table.votes@, i, right, j),
    ensures
        from_left == map.dom().contains(key),
        from_right == right.to_set().contains(key),
        forall|a: int|
            0 <= a < i - 1 || (a == i - 1 && !from_left && i > 0) ==> entry_le(
                (#[trigger] table.votes@[a]).key(),
                key,
            ) && table.votes@[a].key() != key,
        forall|b: int|
            0 <= b < j - 1 || (b == j - 1 && !from_right && j > 0) ==> entry_le(
                #[trigger] right[b],
                key,
            ) && right[b] != key,
        forall|x: int| 0 <= x < rev.len() ==> entry_le(key, (#[trigger] rev[x]).key()) && rev[x].key()
            != key,
{
    let left = table.votes@;
    let lkeys = table.vote_keys();
    assert forall|a: int| 0 <= a < left.len() implies lkeys[a] == (#[trigger] left[a]).key() by {}
    assert forall|a: int|
        0 <= a < i - 1 || (a == i - 1 && !from_left && i > 0) implies entry_le(
        (#[trigger] left[a]).key(),
        key,
    ) && left[a].key() != key by {
        if a < i - 1 {
            assert(entry_le(lkeys[a], lkeys[i - 1]) && lkeys[a] != lkeys[i - 1]);
            AsmapEntry::lemma_total(lkeys[a], lkeys[i - 1], key);
            AsmapEntry::lemma_total(lkeys[i - 1], lkeys[a], key);
        }
    }
    assert forall|b: int|
        0 <= b < j - 1 || (b == j - 1 && !from_right && j > 0) implies entry_le(
        #[trigger] right[b],
        key,
    ) && right[b] != key by {
        if b < j - 1 {
            assert(entry_le(right[b], right[j - 1]) && right[b] != right[j - 1]);
            AsmapEntry::lemma_total(right[b], right[j - 1], key);
            AsmapEntry::lemma_total(right[j - 1], right[b], key);
        }
    }
    assert forall|x: int| 0 <= x < rev.len() implies entry_le(key, (#[trigger] rev[x]).key())
        && rev[x].key() != key by {
        if from_left {
            assert(entry_le(left[i - 1].key(), rev[x].key()));
        } else {
            assert(entry_le(right[j - 1], rev[x].key()));
        }
    }
    if map.dom().contains(key) && !from_left {
        let a = choose|a: int| 0 <= a < left.len() && (#[trigger] left[a]).key() == key;
        if a >= i {
            let x = choose|x: int|
                0 <= x < rev.len() && (#[trigger] rev[x]).key() == left[a].key();
            assert(rev[x].key() != key);
        }
    }
    if from_left {
        assert(map.dom().contains(left[i - 1].key()));
    }
    if right.to_set().contains(key) && !from_right {
        let b = choose|b: int| 0 <= b < right.len() && right[b] == key;
        if b >= j {
            let x = choose|x: int| 0 <= x < rev.len() && (#[trigger] rev[x]).key() == right[b];
            assert(rev[x].key() != key);
        } else {
            assert(right[b] != key);
        }
    }
    if from_right {
        assert(right.contains(right[j - 1]));
    }
}

/// The list stays good when the next key is put on it.
proof fn lemma_pushed(
    map: Map<(Seq<char>, u32), nat>,
    table: VoteTable,
    right: Seq<(Seq<char>, u32)>,
    rev: Seq<Vote>,
    vote: Vote,
    i: int,
    j: int,
    from_left: bool,
    from_right: bool,
)
    requires
        table.shows(map),
        0 <= i <= table.votes@.len(),
        0 <= j <= right.len(),
        from_left || from_right,
        from_left ==> i > 0 && vote.key() == table.votes@[i - 1].key(),
        from_right ==> j > 0 && vote.key() == right[j - 1],
        from_left == map.dom().contains(vote.key()),
        from_right == right.to_set().contains(vote.key()),
        vote.count == (if from_left {
            table.votes@[i - 1].count as int
        } else {
            0
        }) + (if from_right {
            1int
        } else {
            0
        }),
        forall|a: int|
            0 <= a < i - 1 || (a == i - 1 && !from_left && i > 0) ==> entry_le(
                (#[trigger] table.votes@[a]).key(),
                vote.key(),
            ) && table.votes@[a].key() != vote.key(),
        forall|b: int|
            0 <= b < j - 1 || (b == j - 1 && !from_right && j > 0) ==> entry_le(
                #[trigger] right[b],
                vote.key(),
            ) && right[b] != vote.key(),
        forall|x: int|
            0 <= x < rev.len() ==> entry_le(vote.key(), (#[trigger] rev[x]).key()) && rev[x].key()
                != vote.key(),
        descending_above(rev, table.votes@, i, right, j),
        covers(rev, table.votes@, i, right, j),
        holds_goal(rev, tallied(map, right.to_set())),
    ensures
        ({
            let i2 = if from_left {
                i - 1
            } else {
                i
            };
            let j2 = if from_right {
                j - 1
            } else {
                j
            };
            &&& descending_above(rev.push(vote), table.votes@, i2, right, j2)
            &&& covers(rev.push(vote), table.votes@, i2, right, j2)
            &&& holds_goal(rev.push(vote), tallied(map, right.to_set()))
        }),
{
    let left = table.votes@;
    let i2 = if from_left {
        i - 1
    } else {
        i
    };
    let j2 = if from_right {
        j - 1
    } else {
        j
    };
    let next = rev.push(vote);
    let n = rev.len() as int;
    assert(next[n] == vote);
    assert forall|a: int| i2 <= a < left.len() implies exists|x: int|
        0 <= x < next.len() && (#[trigger] next[x]).key() == (#[trigger] left[a]).key() by {
        if a >= i {
            let x = choose|x: int|
                0 <= x < rev.len() && (#[trigger] rev[x]).key() == left[a].key();
            assert(next[x] == rev[x]);
        } else {
            assert(next[n].key() == left[a].key());
        }
    }
    assert forall|b: int| j2 <= b < right.len() implies exists|x: int|
        0 <= x < next.len() && (#[trigger] next[x]).key() == #[trigger] right[b] by {
        if b >= j {
            let x = choose|x: int| 0 <= x < rev.len() && (#[trigger] rev[x]).key() == right[b];
            assert(next[x] == rev[x]);
        } else {
            assert(next[n].key() == right[b]);
        }
    }
    if from_left {
        assert(map[left[i - 1].key()] == left[i - 1].count);
    }
}

/// The finished list, turned round, is the table that was wanted.
proof fn lemma_reversed(
    all: Seq<Vote>,
    votes: Seq<Vote>,
    table: VoteTable,
    right: Seq<(Seq<char>, u32)>,
    map: Map<(Seq<char>, u32), nat>,
)
    requires
        table.shows(map),
        descending_above(all, table.votes@, 0, right, 0),
        covers(all, table.votes@, 0, right, 0),
        holds_goal(all, tallied(map, right.to_set())),
        votes.len() == all.len(),
        forall|x: int| 0 <= x < votes.len() ==> (#[trigger] votes[x]) == all[all.len() - 1 - x],
    ensures
        forall|i: int, j: int|
            0 <= i < j < votes.len() ==> entry_le(
                (#[trigger] votes[i]).key(),
                (#[trigger] votes[j]).key(),
            ) && votes[i].key() != votes[j].key(),
        holds_goal(votes, tallied(map, right.to_set())),
        forall|k: (Seq<char>, u32)| #[trigger]
            tallied(map, right.to_set()).dom().contains(k) ==> exists|i: int|
                0 <= i < votes.len() && (#[trigger] votes[i]).key() == k,
{
    let goal = tallied(map, right.to_set());
    assert forall|k: (Seq<char>, u32)| #[trigger] goal.dom().contains(k) implies exists|i: int|
        0 <= i < votes.len() && (#[trigger] votes[i]).key() == k by {
        let x = if map.dom().contains(k) {
            let a = choose|a: int|
                0 <= a < table.votes@.len() && (#[trigger] table.votes@[a]).key() == k;
            choose|x: int| 0 <= x < all.len() && (#[trigger] all[x]).key() == table.votes@[a].key()
        } else {
            let b = choose|b: int| 0 <= b < right.len() && right[b] == k;
            choose|x: int| 0 <= x < all.len() && (#[trigger] all[x]).key() == right[b]
        };
        assert(all[x].key() == k);
        assert(votes[all.len() - 1 - x].key() == k);
    }
    assert forall|x: int| 0 <= x < votes.len() implies {
        let vote = #[trigger] votes[x];
        goal.dom().contains(vote.key()) && goal[vote.key()] == vote.count
    } by {
        assert(votes[x] == all[all.len() - 1 - x]);
    }
}

/// Texts as sequences.
pub open spec fn texts(list: Seq<String>) -> Seq<Seq<char>> {
    list.map_values(|t: String| t@)
}

/// Texts in order, each once.
pub open spec fn texts_ascend(list: Seq<Seq<char>>) -> bool {
    forall|i: int, j: int|
        0 <= i < j < list.len() ==> text_le(#[trigger] list[i], #[trigger] list[j]) && list[i]
            != list[j]
}

/// The senders that have claimed in an epoch, by ascending id.
#[derive(Debug)]
pub struct SenderSet {
    pub ids: Vec<String>,
}

impl View for SenderSet {
    type V = Set<Seq<char>>;

    open spec fn view(&self) -> Set<Seq<char>> {
        texts(self.ids@).to_set()
    }
}

impl SenderSet {
    /// The ids are in order, each once.
    pub open spec fn wf(self) -> bool {
        texts_ascend(texts(self.ids@))
    }

    /// No senders.
    pub fn new() -> (set: SenderSet)
        ensures
            set.wf(),
            set@ == Set::<Seq<char>>::empty(),
    {
        let set = SenderSet { ids: Vec::new() };
        assert(set@ =~= Set::<Seq<char>>::empty());
        set
    }

    /// The number of senders.
    pub fn len(&self) -> (n: usize)
        requires
            self.wf(),
        ensures
            n == self@.len(),
            self@.finite(),
    {
        proof {
            lemma_ascending_count(texts(self.ids@));
        }
        self.ids.len()
    }

    /// Where an id is, or where it would go.
    fn position(&self, id: &str) -> (at: (usize, bool))
        requires
            self.wf(),
        ensures
            at.0 <= self.ids@.len(),
            at.1 == self@.contains(id@),
            at.1 ==> at.0 < self.ids@.len() && texts(self.ids@)[at.0 as int] == id@,
            !at.1 ==> {
                &&& forall|i: int|
                    0 <= i < at.0 ==> text_le(#[trigger] texts(self.ids@)[i], id@) && texts(
                        self.ids@,
                    )[i] != id@
                &&& forall|i: int|
                    at.0 <= i < self.ids@.len() ==> text_le(id@, #[trigger] texts(self.ids@)[i])
                        && texts(self.ids@)[i] != id@
            },
    {
        let ghost list = texts(self.ids@);
        let mut lo: usize = 0;
        let mut hi: usize = self.ids.len();
        while lo < hi
            invariant
                self.wf(),
                list == texts(self.ids@),
                lo <= hi <= self.ids@.len(),
                forall|i: int| 0 <= i < lo ==> text_le(#[trigger] list[i], id@) && list[i] != id@,
                forall|i: int|
                    hi <= i < list.len() ==> text_le(id@, #[trigger] list[i]) && list[i] != id@,
            decreases hi - lo,
        {
            let mid: usize = lo + (hi - lo) / 2;
            assert(list[mid as int] == self.ids@[mid as int]@);
            if same_text(self.ids[mid].as_str(), id) {
                assert(list.contains(id@));
                return (mid, true);
            }
            if is_text_le(self.ids[mid].as_str(), id) {
                proof {
                    assert forall|i: int| 0 <= i < mid + 1 implies text_le(#[trigger] list[i], id@)
                        && list[i] != id@ by {
                        if i < mid {
                            assert(text_le(list[i], list[mid as int]));
                            lemma_text_le_trans(list[i], list[mid as int], id@);
                            lemma_text_le_total(list[mid as int], id@);
                        }
                    }
                }
                lo = mid + 1;
            } else {
                proof {
                    lemma_text_le_total(list[mid as int], id@);
                    assert forall|i: int| mid <= i < list.len() implies text_le(
                        id@,
                        #[trigger] list[i],
                    ) && list[i] != id@ by {
                        if i > mid {
                            assert(text_le(list[mid as int], list[i]));
                            lemma_text_le_trans(id@, list[mid as int], list[i]);
                            lemma_text_le_total(list[mid as int], id@);
                        }
                    }
                }
                hi = mid;
            }
        }
        assert(!list.contains(id@));
        (lo, false)
    }

    /// Whether a sender has claimed.
    pub fn contains(&self, id: &str) -> (r: bool)
        requires
            self.wf(),
        ensures
            r == self@.contains(id@),
    {
        self.position(id).1
    }

    /// Puts a sender on record; false if it was there.
    pub fn insert(&mut self, id: String) -> (fresh: bool)
        requires
            old(self).wf(),
        ensures
            final(self).wf(),
            fresh == !old(self)@.contains(id@),
            final(self)@ == old(self)@.insert(id@),
    {
        let ghost before = texts(self.ids@);
        let (at, found) = self.position(id.as_str());
        if found {
            assert(self@.insert(id@) =~= self@);
            return false;
        }
        let ghost text = id@;
        self.ids.insert(at, id);
        proof {
            let after = texts(self.ids@);
            assert(after =~= before.insert(at as int, text));
            assert forall|x: Seq<char>| #[trigger] after.to_set().contains(x)
                == before.to_set().insert(text).contains(x) by {
                if before.contains(x) {
                    let i = choose|i: int| 0 <= i < before.len() && before[i] == x;
                    if i < at {
                        assert(after[i] == x);
                    } else {
                        assert(after[i + 1] == x);
                    }
                }
                if x == text {
                    assert(after[at as int] == x);
                }
                if after.contains(x) {
                    let i = choose|i: int| 0 <= i < after.len() && after[i] == x;
                    if i < at {
                        assert(before[i] == x);
                    } else if i > at {
                        assert(before[i - 1] == x);
                    }
                }
            }
            assert(after.to_set() =~= before.to_set().insert(text));
            assert forall|i: int, j: int| 0 <= i < j < after.len() implies text_le(
                #[trigger] after[i],
                #[trigger] after[j],
            ) && after[i] != after[j] by {
                if j < at {
                    assert(after[i] == before[i] && after[j] == before[j]);
                } else if j == at {
                    assert(after[i] == before[i]);
                } else if i < at {
                    assert(after[i] == before[i] && after[j] == before[j - 1]);
                } else if i == at {
                    assert(after[j] == before[j - 1]);
                } else {
                    assert(after[i] == before[i - 1] && after[j] == before[j - 1]);
                }
            }
        }
        true
    }

    /// Takes a sender off the record; false if it was not there.
    pub fn remove(&mut self, id: &str) -> (found: bool)
        requires
            old(self).wf(),
        ensures
            final(self).wf(),
            found == old(self)@.contains(id@),
            final(self)@ == old(self)@.remove(id@),
    {
        let ghost before = texts(self.ids@);
        let (at, found) = self.position(id);
        if !found {
            assert(self@.remove(id@) =~= self@);
            return false;
        }
        let _ = self.ids.remove(at);
        proof {
            let after = texts(self.ids@);
            assert(after =~= before.remove(at as int));
            assert forall|x: Seq<char>| #[trigger] after.to_set().contains(x)
                == before.to_set().remove(id@).contains(x) by {
                if before.contains(x) && x != id@ {
                    let i = choose|i: int| 0 <= i < before.len() && before[i] == x;
                    if i < at {
                        assert(after[i] == x);
                    } else {
                        assert(after[i - 1] == x);
                    }
                }
                if after.contains(x) {
                    let i = choose|i: int| 0 <= i < after.len() && after[i] == x;
                    if i < at {
                        assert(before[i] == x);
                        assert(text_le(before[i], before[at as int]) && before[i]
                            != before[at as int]);
                    } else {
                        assert(before[i + 1] == x);
                        assert(text_le(before[at as int], before[i + 1]) && before[at as int]
                            != before[i + 1]);
                    }
                }
            }
            assert(after.to_set() =~= before.to_set().remove(id@));
            assert forall|i: int, j: int| 0 <= i < j < after.len() implies text_le(
                #[trigger] after[i],
                #[trigger] after[j],
            ) && after[i] != after[j] by {
                let x = if i < at {
                    i
                } else {
                    i + 1
                };
                let y = if j < at {
                    j
                } else {
                    j + 1
                };
                assert(after[i] == before[x] && after[j] == before[y]);
            }
        }
        true
    }

    /// Where a sender stands among the ascending ids.
    pub fn rank(&self, id: &str) -> (at: usize)
        requires
            self.wf(),
            self@.contains(id@),
        ensures
            at < self.ids@.len(),
            texts(self.ids@)[at as int] == id@,
    {
        self.position(id).0
    }

    /// A copy of the set.
    pub fn copy(&self) -> (copy: SenderSet)
        requires
            self.wf(),
        ensures
            copy.wf(),
            copy@ == self@,
    {
        SenderSet { ids: copy_texts(&self.ids) }
    }

    /// The senders, by ascending id.
    pub fn listed(&self) -> (list: Vec<String>)
        ensures
            texts(list@) == texts(self.ids@),
    {
        copy_texts(&self.ids)
    }
}

/// Copies texts.
pub(crate) fn copy_texts(list: &Vec<String>) -> (copy: Vec<String>)
    ensures
        texts(copy@) == texts(list@),
{
    let mut copy: Vec<String> = Vec::new();
    let mut i: usize = 0;
    while i < list.len()
        invariant
            i <= list@.len(),
            copy@.len() == i,
            forall|j: int| 0 <= j < i ==> (#[trigger] copy@[j])@ == list@[j]@,
        decreases list@.len() - i,
    {
        copy.push(list[i].clone());
        i = i + 1;
    }
    assert(texts(copy@) =~= texts(list@));
    copy
}

/// A list in order holds as many texts as its set.
pub proof fn lemma_ascending_count(list: Seq<Seq<char>>)
    requires
        texts_ascend(list),
    ensures
        list.to_set().len() == list.len(),
        list.to_set().finite(),
{
    assert forall|i: int, j: int|
        0 <= i < list.len() && 0 <= j < list.len() && i != j implies list[i] != list[j] by {
        if i < j {
            assert(text_le(list[i], list[j]) && list[i] != list[j]);
        } else {
            assert(text_le(list[j], list[i]) && list[j] != list[i]);
        }
    }
    assert(list.no_duplicates());
    list.unique_seq_to_set();
}

/// Only one list in order has a given set of texts.
pub proof fn lemma_ascending_texts_unique(a: Seq<Seq<char>>, b: Seq<Seq<char>>)
    requires
        texts_ascend(a),
        texts_ascend(b),
        a.to_set() == b.to_set(),
    ensures
        a == b,
    decreases a.len(),
{
    lemma_ascending_count(a);
    lemma_ascending_count(b);
    if a.len() > 0 {
        let n = a.len() - 1;
        assert(a.contains(a[n]) && b.contains(b[n]));
        assert(b.to_set().contains(a[n]) && a.to_set().contains(b[n]));
        let i = choose|i: int| 0 <= i < b.len() && b[i] == a[n];
        let j = choose|j: int| 0 <= j < a.len() && a[j] == b[n];
        lemma_text_le_total(a[n], b[n]);
        if i < n {
            assert(text_le(b[i], b[n]));
        }
        if j < n {
            assert(text_le(a[j], a[n]));
        }
        assert(a[n] == b[n]);
        let x = a.drop_last();
        let y = b.drop_last();
        assert(texts_ascend(x));
        assert(texts_ascend(y));
        assert forall|t: Seq<char>| #[trigger] x.to_set().contains(t) == y.to_set().contains(t) by {
            if x.contains(t) {
                let k = choose|k: int| 0 <= k < x.len() && x[k] == t;
                assert(a[k] == t);
                assert(text_le(a[k], a[n]) && a[k] != a[n]);
                assert(a.contains(t));
                assert(b.to_set().contains(t));
                let l = choose|l: int| 0 <= l < b.len() && b[l] == t;
                assert(y[l] == t);
            }
            if y.contains(t) {
                let k = choose|k: int| 0 <= k < y.len() && y[k] == t;
                assert(b[k] == t);
                assert(text_le(b[k], b[n]) && b[k] != b[n]);
                assert(b.contains(t));
                assert(a.to_set().contains(t));
                let l = choose|l: int| 0 <= l < a.len() && a[l] == t;
                assert(x[l] == t);
            }
        }
        assert(x.to_set() =~= y.to_set());
        lemma_ascending_texts_unique(x, y);
        assert(a =~= x.push(a[n]));
        assert(b =~= y.push(b[n]));
    } else {
        assert(a =~= b);
    }
}

/// A tally adds one vote for each thing chosen and none for anything else.
pub proof fn each_choice_is_one_vote(
    votes: Map<(Seq<char>, u32), nat>,
    chosen: Set<(Seq<char>, u32)>,
    k: (Seq<char>, u32),
)
    ensures
        tallied(votes, chosen).dom().contains(k) == (votes.dom().contains(k) || chosen.contains(k)),
        votes.dom().contains(k) && chosen.contains(k) ==> tallied(votes, chosen)[k] == votes[k] + 1,
        votes.dom().contains(k) && !chosen.contains(k) ==> tallied(votes, chosen)[k] == votes[k],
        !votes.dom().contains(k) && chosen.contains(k) ==> tallied(votes, chosen)[k] == 1,
{
}

/// Texts are taken as they stand, and ascend if each comes before those behind it.
pub proof fn texts_are_taken_as_they_stand(list: Seq<String>, all: Seq<Seq<char>>, i: int)
    ensures
        texts(list).len() == list.len(),
        0 <= i < list.len() ==> texts(list)[i] == list[i]@,
        texts_ascend(all) <==> forall|i: int, j: int|
            0 <= i < j < all.len() ==> text_le(#[trigger] all[i], #[trigger] all[j]) && all[i]
                != all[j],
{
}

/// The senders are those whose ids are held, in order.
pub proof fn senders_are_held_in_order(set: SenderSet, id: Seq<char>)
    ensures
        set@.contains(id) <==> exists|i: int|
            0 <= i < set.ids@.len() && (#[trigger] set.ids@[i])@ == id,
        set.wf() <==> texts_ascend(texts(set.ids@)),
{
    let all = texts(set.ids@);
    if set@.contains(id) {
        let i = choose|i: int| 0 <= i < all.len() && all[i] == id;
        assert(set.ids@[i]@ == id);
    }
    if exists|i: int| 0 <= i < set.ids@.len() && (#[trigger] set.ids@[i])@ == id {
        let i = choose|i: int| 0 <= i < set.ids@.len() && (#[trigger] set.ids@[i])@ == id;
        assert(all[i] == id);
        assert(all.contains(id));
    }
}

} // verus!
