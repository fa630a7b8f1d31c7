//! Deterministic random maps for tests.

use crate::trie::{copy_bits, entries_view, leads_to, resolve, ASMap, ASNEntry};
use vstd::arithmetic::div_mod::{
    lemma_fundamental_div_mod, lemma_fundamental_div_mod_converse, lemma_mod_multiples_vanish,
};
use vstd::prelude::*;

verus! {

/// The step of the generator's counter.
pub const GOLDEN_GAMMA: u64 = 0x9E37_79B9_7F4A_7C15;

/// The SplitMix64 output function.
pub open spec fn mixed(z: u64) -> u64 {
    let a = (z ^ (z >> 30)).wrapping_mul(0xBF58_476D_1CE4_E5B9);
    let b = (a ^ (a >> 27)).wrapping_mul(0x94D0_49BB_1331_11EB);
    b ^ (b >> 31)
}

/// The counter's next value.
pub open spec fn stepped(state: u64) -> u64 {
    state.wrapping_add(GOLDEN_GAMMA)
}

fn mix(z: u64) -> (out: u64)
    ensures
        out == mixed(z),
{
    let a: u64 = (z ^ (z >> 30)).wrapping_mul(0xBF58_476D_1CE4_E5B9);
    let b: u64 = (a ^ (a >> 27)).wrapping_mul(0x94D0_49BB_1331_11EB);
    b ^ (b >> 31)
}

/// Mixes one value, for use on seeds.
pub fn splitmix64(z: u64) -> (out: u64)
    ensures
        out == mixed(stepped(z)),
{
    mix(z.wrapping_add(GOLDEN_GAMMA))
}

/// The size of the generator's state space.
pub open spec fn states() -> int {
    0x1_0000_0000_0000_0000
}

/// How many steps it takes from `state` to the counter value whose output is 1.
#[verifier::opaque]
pub open spec fn steps_to_one(state: u64) -> nat {
    ((0x966d_bfc1_6913_c5d2 - state) * 0xf1de_83e1_9937_733d % states()) as nat
}

/// Taking off one step takes one off the remainder.
proof fn lemma_one_step(d: int)
    ensures
        ({
            let k: int = 0xf1de_83e1_9937_733d;
            let g: int = 0x9E37_79B9_7F4A_7C15;
            &&& d * k % states() > 0 ==> (d - g) * k % states() == d * k % states() - 1
            &&& (d - g + states()) * k % states() == (d - g) * k % states()
        }),
{
    let k: int = 0xf1de_83e1_9937_733d;
    let g: int = 0x9E37_79B9_7F4A_7C15;
    let q: int = 10771413168148108919;
    let m = states();
    assert(g * k == 1 + q * m);
    assert((d - g) * k == (d * k - 1) + (-q) * m);
    lemma_mod_multiples_vanish(-q, d * k - 1, m);
    assert((-q) * m == m * (-q));
    assert((d - g + m) * k == k * m + (d - g) * k);
    lemma_mod_multiples_vanish(k, (d - g) * k, m);
    assert(k * m == m * k);
    if d * k % m > 0 {
        let r = d * k % m;
        lemma_fundamental_div_mod(d * k, m);
        lemma_fundamental_div_mod_converse(d * k - 1, m, d * k / m, r - 1);
    }
}

/// Only the multiples of the number of states become multiples of it.
proof fn lemma_invertible(d: int)
    requires
        -states() < d < states(),
        d * 0xf1de_83e1_9937_733d % states() == 0,
    ensures
        d == 0,
{
    let k: int = 0xf1de_83e1_9937_733d;
    let g: int = 0x9E37_79B9_7F4A_7C15;
    let q: int = 10771413168148108919;
    let m = states();
    lemma_fundamental_div_mod(d * k, m);
    let n = d * k / m;
    assert(d * k == m * n);
    assert(g * k == 1 + q * m);
    assert(d * k * g == d + d * q * m) by (nonlinear_arith)
        requires
            g * k == 1 + q * m,
    ;
    assert(d == m * (n * g - d * q)) by (nonlinear_arith)
        requires
            d * k * g == d + d * q * m,
            d * k == m * n,
    ;
    let t = n * g - d * q;
    assert(d == m * t);
    if t >= 1 {
        assert(m * t >= m) by (nonlinear_arith)
            requires
                t >= 1,
                m > 0,
        ;
    } else if t <= -1 {
        assert(m * t <= -m) by (nonlinear_arith)
            requires
                t <= -1,
                m > 0,
        ;
    }
}

/// The output at the counter value that was singled out.
proof fn lemma_output_one()
    ensures
        mixed(0x966d_bfc1_6913_c5d2) == 1,
{
    assert(0x966d_bfc1_6913_c5d2u64 ^ (0x966d_bfc1_6913_c5d2u64 >> 30) == 0x966d_bfc3_30a5_3ad7u64)
        by (bit_vector);
    assert(0x966d_bfc3_30a5_3ad7nat * 0xBF58_476D_1CE4_E5B9nat == 8101907306956474881nat
        * 0x1_0000_0000_0000_0000nat + 0x3196_42b4_e085_d85fnat);
    assert(0x966d_bfc3_30a5_3ad7u64.wrapping_mul(0xBF58_476D_1CE4_E5B9)
        == 0x3196_42b4_e085_d85fu64);
    assert(0x3196_42b4_e085_d85fu64 ^ (0x3196_42b4_e085_d85fu64 >> 27) == 0x3196_42b2_d24d_8ec3u64)
        by (bit_vector);
    assert(0x3196_42b2_d24d_8ec3nat * 0x94D0_49BB_1331_11EBnat == 2077064247507883091nat
        * 0x1_0000_0000_0000_0000nat + 1nat);
    assert(0x3196_42b2_d24d_8ec3u64.wrapping_mul(0x94D0_49BB_1331_11EB) == 1u64);
    assert(1u64 ^ (1u64 >> 31) == 1u64) by (bit_vector);
}

/// A step from anywhere but there comes one step closer.
pub proof fn lemma_steps(state: u64)
    ensures
        steps_to_one(state) > 0 ==> steps_to_one(stepped(state)) == steps_to_one(state) - 1,
        steps_to_one(state) == 0 ==> mixed(state) == 1,
{
    reveal(steps_to_one);
    let next = stepped(state);
    let d = 0x966d_bfc1_6913_c5d2 - state;
    lemma_one_step(d);
    assert(next == state + GOLDEN_GAMMA || next == state + GOLDEN_GAMMA - states());
    if steps_to_one(state) == 0 {
        lemma_invertible(d);
        lemma_output_one();
    }
}

/// Whether an output can be scaled to a value below `n` without bias.
pub open spec fn accepts(out: u64, n: u64) -> bool {
    (out * n) % states() >= (states() - n) % (n as int)
}

/// An output of 1 is acceptable.
pub proof fn lemma_one_accepted(n: u64)
    requires
        n > 0,
    ensures
        accepts(1, n),
{
    assert((states() - n) % (n as int) < n);
}

/// The first acceptable output behind `state`, scaled to below `n`, and the state
/// after it.
pub open spec fn drawn(state: u64, n: u64) -> (u64, u64)
    decreases steps_to_one(stepped(state)),
{
    let next = stepped(state);
    let out = mixed(next);
    if n == 0 || accepts(out, n) {
        (next, (out * n / states()) as u64)
    } else {
        proof {
            lemma_steps(next);
            lemma_one_accepted(n);
        }
        drawn(next, n)
    }
}

/// SplitMix64: a small generator, seeded by any number and the same everywhere.
#[derive(Debug, Clone)]
pub struct SplitMix64 {
    state: u64,
}

impl View for SplitMix64 {
    type V = u64;

    closed spec fn view(&self) -> u64 {
        self.state
    }
}

impl SplitMix64 {
    /// Seeds the generator.
    pub fn new(seed: u64) -> (rng: Self)
        ensures
            rng@ == seed,
    {
        SplitMix64 { state: seed }
    }

    /// The next 64 bits.
    pub fn next_u64(&mut self) -> (out: u64)
        ensures
            final(self)@ == stepped(old(self)@),
            out == mixed(stepped(old(self)@)),
    {
        self.state = self.state.wrapping_add(GOLDEN_GAMMA);
        mix(self.state)
    }

    /// A value below `n`, every one equally likely.
    pub fn below(&mut self, n: u64) -> (value: u64)
        requires
            n > 0,
        ensures
            (final(self)@, value) == drawn(old(self)@, n),
            value < n,
    {
        let threshold: u64 = (u64::MAX - n + 1) % n;
        loop
            invariant
                n > 0,
                threshold == (states() - n) % (n as int),
                drawn(self@, n) == drawn(old(self)@, n),
            decreases steps_to_one(stepped(self@)),
        {
            let ghost state = self@;
            let out: u64 = self.next_u64();
            proof {
                lemma_steps(self@);
                lemma_one_accepted(n);
                assert(out * n <= u64::MAX * u64::MAX) by (nonlinear_arith)
                    requires
                        out <= u64::MAX,
                        n <= u64::MAX,
                ;
                assert(out * n < states() * n) by (nonlinear_arith)
                    requires
                        out < states(),
                        n > 0,
                ;
            }
            let product: u128 = out as u128 * n as u128;
            let low: u128 = product % 0x1_0000_0000_0000_0000;
            if low >= threshold as u128 {
                return (product / 0x1_0000_0000_0000_0000) as u64;
            }
        }
    }

    /// A value from `min` to below `max`.
    pub fn range(&mut self, min: u64, max: u64) -> (value: u64)
        requires
            min < max,
        ensures
            final(self)@ == drawn(old(self)@, (max - min) as u64).0,
            value == min + drawn(old(self)@, (max - min) as u64).1,
            min <= value < max,
    {
        min + self.below(max - min)
    }
}

/// The knobs of [`random_map`].
#[derive(Debug, Clone, Copy, PartialEq, Eq)]
pub struct RandomMapParams {
    /// The number of leaves to grow, at least one. Neighbours with the same
    /// number merge, so the map may have fewer.
    pub num_leaves: u32,
    /// The largest number that may be assigned, at least one.
    pub max_asn: u32,
    /// The probability that a leaf stays unassigned, in units of `2^-53`.
    pub unassigned_prob: u64,
}

/// A probability of one, in units of `2^-53`.
pub const CERTAIN: u64 = 9_007_199_254_740_992;

impl RandomMapParams {
    /// The parameters make sense.
    pub open spec fn valid(self) -> bool {
        &&& self.num_leaves >= 1
        &&& self.max_asn >= 1 || self.unassigned_prob == CERTAIN
        &&& self.unassigned_prob <= CERTAIN
    }

    /// Draws parameters: leaves and numbers from 1 to 39, and a probability of
    /// 0, 0.3 or 0.5.
    pub fn draw(rng: &mut SplitMix64) -> (params: Self)
        ensures
            params.valid(),
            ({
                let (s1, leaves) = drawn(old(rng)@, 39);
                let (s2, asn) = drawn(s1, 39);
                let (s3, choice) = drawn(s2, 3);
                &&& final(rng)@ == s3
                &&& params.num_leaves == 1 + leaves
                &&& params.max_asn == 1 + asn
                &&& params.unassigned_prob == if choice == 0 {
                    0u64
                } else if choice == 1 {
                    2_702_159_776_422_298
                } else {
                    4_503_599_627_370_496
                }
            }),
    {
        let num_leaves: u32 = rng.range(1, 40) as u32;
        let max_asn: u32 = rng.range(1, 40) as u32;
        let choice: u64 = rng.below(3);
        let unassigned_prob: u64 = if choice == 0 {
            0
        } else if choice == 1 {
            2_702_159_776_422_298
        } else {
            4_503_599_627_370_496
        };
        RandomMapParams { num_leaves, max_asn, unassigned_prob }
    }
}

/// A trie shape grown to `n` leaves by splitting a random leaf again and again,
/// and the state after it. A split leaf makes room for the last one, and its two
/// halves go to the end.
pub open spec fn grown(state: u64, n: nat) -> (u64, Seq<Seq<bool>>)
    decreases n,
{
    if n <= 1 {
        (state, seq![Seq::empty()])
    } else {
        let k = (n - 1) as nat;
        let (before, leaves) = grown(state, k);
        let (after, index) = drawn(before, k as u64);
        let leaf = leaves[index as int];
        let rest = if index + 1 < k {
            leaves.drop_last().update(index as int, leaves.last())
        } else {
            leaves.drop_last()
        };
        (after, rest.push(leaf.push(false)).push(leaf.push(true)))
    }
}

/// Random numbers for the first `n` leaves, and the state after them.
pub open spec fn numbered(state: u64, leaves: Seq<Seq<bool>>, params: RandomMapParams, n: nat) -> (
    u64,
    Seq<(Seq<bool>, u32)>,
)
    decreases n,
{
    if n == 0 {
        (state, Seq::empty())
    } else {
        let (before, entries) = numbered(state, leaves, params, (n - 1) as nat);
        let coin = mixed(stepped(before)) / 2048;
        let leaf = leaves[n - 1];
        if coin >= params.unassigned_prob {
            let (after, value) = drawn(stepped(before), params.max_asn as u64);
            (after, entries.push((leaf, (1 + value) as u32)))
        } else {
            (stepped(before), entries.push((leaf, 0u32)))
        }
    }
}

/// The entries of a random map, and the state after them.
pub open spec fn random_entries(state: u64, params: RandomMapParams) -> (
    u64,
    Seq<(Seq<bool>, u32)>,
) {
    let (before, leaves) = grown(state, params.num_leaves as nat);
    numbered(before, leaves, params, leaves.len())
}

/// The paths with their bits as sequences.
spec fn paths_view(paths: Seq<Vec<bool>>) -> Seq<Seq<bool>> {
    paths.map_values(|p: Vec<bool>| p@)
}

fn grow_leaves(rng: &mut SplitMix64, n: u32) -> (leaves: Vec<Vec<bool>>)
    requires
        n >= 1,
    ensures
        (final(rng)@, paths_view(leaves@)) == grown(old(rng)@, n as nat),
{
    let mut leaves: Vec<Vec<bool>> = Vec::new();
    leaves.push(Vec::new());
    let mut i: u32 = 1;
    assert(paths_view(leaves@) =~= seq![Seq::empty()]);
    while i < n
        invariant
            1 <= i <= n,
            leaves@.len() == i,
            (rng@, paths_view(leaves@)) == grown(old(rng)@, i as nat),
        decreases n - i,
    {
        let ghost before = paths_view(leaves@);
        let index: usize = rng.below(i as u64) as usize;
        let mut left = copy_bits(&leaves[index]);
        let mut right = copy_bits(&leaves[index]);
        left.push(false);
        right.push(true);
        let last = leaves.pop();
        if let Some(last) = last {
            if index + 1 < i as usize {
                leaves.set(index, last);
            }
        }
        let ghost leaf = before[index as int];
        let ghost rest = if index + 1 < i {
            before.drop_last().update(index as int, before.last())
        } else {
            before.drop_last()
        };
        assert(paths_view(leaves@) =~= rest);
        leaves.push(left);
        leaves.push(right);
        assert(paths_view(leaves@) =~= rest.push(leaf.push(false)).push(leaf.push(true)));
        i = i + 1;
    }
    leaves
}

/// Builds a random map: grows a trie by splitting random leaves, then draws a
/// number or none for each leaf.
pub fn random_map(rng: &mut SplitMix64, params: RandomMapParams) -> (map: ASMap)
    requires
        params.valid(),
    ensures
        map.wf(),
        final(rng)@ == random_entries(old(rng)@, params).0,
        forall|path: spec_fn(int) -> bool| #[trigger]
            map.asn_of(path) == resolve(random_entries(old(rng)@, params).1, 0, path),
{
    let leaves = grow_leaves(rng, params.num_leaves);
    let ghost start = rng@;
    let ghost paths = paths_view(leaves@);
    let mut entries: Vec<ASNEntry> = Vec::new();
    assert(entries_view(entries@) =~= Seq::empty());
    let mut i: usize = 0;
    while i < leaves.len()
        invariant
            params.valid(),
            i <= leaves@.len(),
            paths == paths_view(leaves@),
            (rng@, entries_view(entries@)) == numbered(start, paths, params, i as nat),
        decreases leaves@.len() - i,
    {
        let ghost before = entries_view(entries@);
        let coin: u64 = rng.next_u64() / 2048;
        let asn: u32 = if coin >= params.unassigned_prob {
            rng.range(1, params.max_asn as u64 + 1) as u32
        } else {
            0
        };
        entries.push((copy_bits(&leaves[i]), asn));
        assert(entries_view(entries@) =~= before.push((paths[i as int], asn)));
        i = i + 1;
    }
    let mut map = ASMap::new();
    map.update_multi(entries);
    map
}

/// Seeds a generator, draws parameters and builds a map.
pub fn random_map_from_seed(seed: u64) -> (built: (ASMap, RandomMapParams))
    ensures
        built.0.wf(),
        built.1.valid(),
        ({
            let (s1, leaves) = drawn(seed, 39);
            let (s2, asn) = drawn(s1, 39);
            let (s3, choice) = drawn(s2, 3);
            &&& built.1.num_leaves == 1 + leaves
            &&& built.1.max_asn == 1 + asn
            &&& built.1.unassigned_prob == if choice == 0 {
                0u64
            } else if choice == 1 {
                2_702_159_776_422_298
            } else {
                4_503_599_627_370_496
            }
            &&& forall|path: spec_fn(int) -> bool| #[trigger]
                built.0.asn_of(path) == resolve(random_entries(s3, built.1).1, 0, path)
        }),
{
    let mut rng = SplitMix64::new(seed);
    let params = RandomMapParams::draw(&mut rng);
    (random_map(&mut rng, params), params)
}

/// How the generator goes on: its counter grows by the golden gamma, modulo 2^64,
/// and each value of it is mixed by two multiplications with shifts between them.
pub proof fn generators_step_and_mix(state: u64)
    ensures
        stepped(state) == (state + 0x9E37_79B9_7F4A_7C15) % 0x1_0000_0000_0000_0000,
        ({
            let a = (state ^ (state >> 30)).wrapping_mul(0xBF58_476D_1CE4_E5B9);
            let b = (a ^ (a >> 27)).wrapping_mul(0x94D0_49BB_1331_11EB);
            mixed(state) == b ^ (b >> 31)
        }),
{
}

/// A value below `n` is the whole part of a random fraction of `n`. Outputs whose
/// remainder is too small are passed over: so few that each value has as many
/// outputs as any other.
pub proof fn draws_are_scaled_outputs(state: u64, n: u64)
    requires
        n > 0,
    ensures
        ({
            let next = stepped(state);
            let product = mixed(next) * n;
            let fair = product % 0x1_0000_0000_0000_0000 >= (0x1_0000_0000_0000_0000 - n) % (
            n as int);
            &&& fair ==> drawn(state, n) == (next, (product / 0x1_0000_0000_0000_0000) as u64)
            &&& !fair ==> drawn(state, n) == drawn(next, n)
        }),
        drawn(state, n).1 < n,
    decreases steps_to_one(stepped(state)),
{
    let next = stepped(state);
    let out = mixed(next);
    if accepts(out, n) {
        assert(0 <= out * n / states() < n) by (nonlinear_arith)
            requires
                out < states(),
                n > 0,
                states() > 0,
        ;
    } else {
        lemma_steps(next);
        lemma_one_accepted(n);
        draws_are_scaled_outputs(next, n);
    }
}

/// A shape grown to `n` leaves has `n` leaves, and every path leads to exactly one
/// of them.
pub proof fn leaves_share_out_every_path(state: u64, n: nat, path: spec_fn(int) -> bool)
    requires
        1 <= n <= u64::MAX,
    ensures
        grown(state, n).1.len() == n,
        exists|i: int| 0 <= i < n && leads_to(path, #[trigger] grown(state, n).1[i]),
        forall|i: int, j: int|
            0 <= i < n && 0 <= j < n && leads_to(path, #[trigger] grown(state, n).1[i]) && leads_to(
                path,
                #[trigger] grown(state, n).1[j],
            ) ==> i == j,
    decreases n,
{
    if n == 1 {
        assert(grown(state, n).1[0] == Seq::<bool>::empty());
        assert(leads_to(path, grown(state, n).1[0]));
    } else {
        let k = (n - 1) as nat;
        leaves_share_out_every_path(state, k, path);
        let (before, old) = grown(state, k);
        draws_are_scaled_outputs(before, k as u64);
        let index = drawn(before, k as u64).1 as int;
        let leaf = old[index];
        let all = grown(state, n).1;
        let (left, right) = (leaf.push(false), leaf.push(true));
        assert(all.len() == n);
        assert(all[n - 2] == left && all[n - 1] == right);
        assert forall|i: int| 0 <= i < n - 2 implies all[i] == old[if i == index {
            k - 1
        } else {
            i
        }] by {}
        lemma_halves(path, leaf);
        let at = choose|i: int| 0 <= i < k && leads_to(path, #[trigger] old[i]);
        if at == index {
            if path(leaf.len() as int) {
                assert(leads_to(path, all[n - 1]));
            } else {
                assert(leads_to(path, all[n - 2]));
            }
        } else if at == k - 1 {
            assert(all[index] == old[at]);
            assert(leads_to(path, all[index]));
        } else {
            assert(all[at] == old[at]);
            assert(leads_to(path, all[at]));
        }
        assert forall|i: int, j: int|
            0 <= i < n && 0 <= j < n && leads_to(path, #[trigger] all[i]) && leads_to(
                path,
                #[trigger] all[j],
            ) implies i == j by {
            let x: int = if i >= n - 2 {
                index
            } else if i == index {
                k - 1
            } else {
                i
            };
            let y: int = if j >= n - 2 {
                index
            } else if j == index {
                k - 1
            } else {
                j
            };
            assert(leads_to(path, old[x]));
            assert(leads_to(path, old[y]));
            assert(x == y);
        }
    }
}

/// A path leads to a block exactly if it leads to one of its halves, by its next
/// bit.
proof fn lemma_halves(path: spec_fn(int) -> bool, leaf: Seq<bool>)
    ensures
        leads_to(path, leaf.push(false)) == (leads_to(path, leaf) && !path(leaf.len() as int)),
        leads_to(path, leaf.push(true)) == (leads_to(path, leaf) && path(leaf.len() as int)),
{
    let n = leaf.len() as int;
    assert forall|bit: bool| leads_to(path, #[trigger] leaf.push(bit)) == (leads_to(path, leaf)
        && path(n) == bit) by {
        let half = leaf.push(bit);
        if leads_to(path, half) {
            assert forall|i: int| 0 <= i < n implies #[trigger] path(i) == leaf[i] by {
                assert(path(i) == half[i]);
            }
            assert(path(n) == half[n]);
        }
        if leads_to(path, leaf) && path(n) == bit {
            assert forall|i: int| 0 <= i < half.len() implies #[trigger] path(i) == half[i] by {
                if i < n {
                    assert(path(i) == leaf[i]);
                }
            }
        }
    }
}

/// Each leaf of a random map is listed in order with a number: zero for one that
/// stays unassigned, and else one from 1 to the largest that is allowed.
pub proof fn random_numbers_are_in_range(
    state: u64,
    leaves: Seq<Seq<bool>>,
    params: RandomMapParams,
    n: nat,
)
    requires
        params.max_asn >= 1,
        n <= leaves.len(),
    ensures
        ({
            let entries = numbered(state, leaves, params, n).1;
            &&& entries.len() == n
            &&& forall|i: int|
                0 <= i < n ==> (#[trigger] entries[i]).0 == leaves[i] && entries[i].1
                    <= params.max_asn
            &&& params.unassigned_prob == 0 ==> forall|i: int|
                0 <= i < n ==> (#[trigger] entries[i]).1 >= 1
            &&& params.unassigned_prob >= 9_007_199_254_740_992 ==> forall|i: int|
                0 <= i < n ==> (#[trigger] entries[i]).1 == 0
        }),
    decreases n,
{
    if n > 0 {
        random_numbers_are_in_range(state, leaves, params, (n - 1) as nat);
        let before = numbered(state, leaves, params, (n - 1) as nat).0;
        draws_are_scaled_outputs(stepped(before), params.max_asn as u64);
        assert(mixed(stepped(before)) / 2048 < 9_007_199_254_740_992);
    }
}

} // verus!
