//! The binary form of a map.

use crate::binnode::{
    bit_length, jump_operand, lemma_code_ops, lemma_code_unique, lemma_encodable_shaped,
    lemma_expand_canonical, lemma_ins_len, lemma_min_bits, matched, BinNode, BinNodeKind, Code,
};
use crate::coder::{lemma_be_bits_len, VarLenCoder, CODER_ASN, CODER_JUMP, CODER_MATCH};
use crate::plan::{
    at, best_plan, chosen, has_hole, is_best_cover, lemma_chosen, lemma_plans, lemma_search_holds,
    merged_at, plans, search_holds, shared, Plan,
};
use crate::trie::{extends_trie, lemma_joined, normal_form_is_unique, ASMap, TrieNode};
use vstd::arithmetic::power2::{lemma2_to64, lemma_pow2_unfold, pow2};
use vstd::bits::lemma_u8_shr_is_div;
use vstd::pervasive::unreached;
use vstd::prelude::*;

verus! {

/// No code is longer than one bit per class and the bits of the widest one.
proof fn lemma_code_len(coder: VarLenCoder, rest: nat, k: nat)
    requires
        k < coder.class_count(),
    ensures
        coder.code_from(rest, k).len() <= (coder.class_count() - k) + coder.class_width(
            (coder.class_count() - 1) as nat,
        ),
    decreases coder.class_count() - k,
{
    let width = coder.class_width(k);
    lemma_be_bits_len(rest, width);
    if rest >= pow2(width) {
        let above = (rest - pow2(width)) as nat;
        lemma_be_bits_len(above, width);
        if k + 1 < coder.class_count() {
            lemma_code_len(coder, above, k + 1);
        }
    }
}

impl Plan for BinNode {
    type Model = Code;

    open spec fn model(&self) -> Code {
        self.code()
    }

    open spec fn plan_wf(&self) -> bool {
        self.wf()
    }

    open spec fn cost(m: Code) -> nat {
        m.bits().len()
    }

    open spec fn nothing() -> Code {
        Code::End
    }

    open spec fn single(prefix: Seq<bool>, asn: u32) -> Code {
        Code::Return(asn)
    }

    open spec fn both(left: Code, right: Code) -> Code {
        Code::branch(left, right)
    }

    open spec fn cover(prefix: Seq<bool>, asn: u32, inner: Code) -> Code {
        Code::with_default(asn, inner)
    }

    open spec fn within(m: Code, prefix: Seq<bool>) -> bool {
        m.shaped()
    }

    open spec fn answer(
        m: Code,
        prefix: Seq<bool>,
        ambient: u32,
        path: spec_fn(int) -> bool,
    ) -> u32 {
        m.expand(ambient).value(path, prefix.len() as int)
    }

    proof fn lemma_nothing(prefix: Seq<bool>, ambient: u32, path: spec_fn(int) -> bool) {
    }

    open spec fn holds(m: Code) -> bool {
        m.held()
    }

    proof fn lemma_single(prefix: Seq<bool>, asn: u32, ambient: u32, path: spec_fn(int) -> bool) {
        lemma_ins_len();
        lemma_code_len(CODER_ASN, (asn - 1) as nat, 0);
    }

    proof fn lemma_both(
        left: Code,
        right: Code,
        prefix: Seq<bool>,
        ambient: u32,
        path: spec_fn(int) -> bool,
    ) {
        lemma_code_ops(left, right, 1, ambient);
        lemma_joined(left.expand(ambient), right.expand(ambient), path, prefix.len() as int);
        lemma_branch_bits(left, right);
    }

    proof fn lemma_cover(
        left: Code,
        right: Code,
        prefix: Seq<bool>,
        asn: u32,
        ambient: u32,
        path: spec_fn(int) -> bool,
    ) {
        let inner = Code::branch(left, right);
        lemma_code_ops(left, right, 1, ambient);
        lemma_code_ops(inner, inner, asn, ambient);
        lemma_ins_len();
        lemma_code_len(CODER_ASN, (asn - 1) as nat, 0);
    }

    fn plan_cost(&self) -> (cost: usize) {
        self.size
    }

    fn plan_nothing() -> (plan: Self) {
        BinNode::end()
    }

    fn plan_single(prefix: &Vec<bool>, asn: u32) -> (plan: Self) {
        BinNode::leaf(asn)
    }

    fn plan_both(left: &Self, right: &Self) -> (plan: Option<Self>) {
        BinNode::branch(left.copy(), right.copy())
    }

    fn plan_cover(prefix: &Vec<bool>, asn: u32, inner: &Self) -> (plan: Option<Self>) {
        BinNode::default(asn, inner.copy())
    }
}

/// Branching adds at most one instruction.
proof fn lemma_branch_bits(left: Code, right: Code)
    requires
        left.shaped(),
        right.shaped(),
    ensures
        Code::branch(left, right).bits().len() <= left.bits().len() + right.bits().len() + 64,
{
    lemma_ins_len();
    let both = Code::branch(left, right);
    match both {
        Code::Match(v, sub) => {
            lemma_code_ops(left, right, 1, 0);
            lemma_code_len(CODER_MATCH, (v - 2) as nat, 0);
        },
        Code::Jump(l, r) => {
            lemma_min_bits(*l);
            lemma_code_len(
                CODER_JUMP,
                (jump_operand(l.bits().len()) - 17) as nat,
                0,
            );
        },
        _ => {},
    }
}

/// Bit `j` of a byte, counting from the least significant.
pub open spec fn bit_of(byte: u8, j: u8) -> bool {
    (byte >> j) & 1 == 1
}

/// The bits of a byte string, least significant first.
pub open spec fn unpack(bytes: Seq<u8>) -> Seq<bool> {
    Seq::new(8 * bytes.len(), |i: int| bit_of(bytes[i / 8], (i % 8) as u8))
}

/// `bytes` is the shortest byte string that holds `bits`, padded with zeros.
pub open spec fn packs(bytes: Seq<u8>, bits: Seq<bool>) -> bool {
    &&& bytes.len() == (bits.len() + 7) / 8
    &&& forall|i: int|
        0 <= i < 8 * bytes.len() ==> #[trigger] unpack(bytes)[i] == (i < bits.len() && bits[i])
}

/// The bits that stand for a map.
pub open spec fn map_bits(trie: TrieNode, fill: bool) -> Seq<bool> {
    chosen::<BinNode>(trie, fill).bits()
}

/// The map's program can be written: no size that the search weighs leaves the
/// machine integers, and every number and every jump of the program that it
/// finds has a code.
pub open spec fn fits_binary(trie: TrieNode, fill: bool) -> bool {
    &&& search_holds::<BinNode>(trie, Seq::empty(), fill)
    &&& chosen::<BinNode>(trie, fill) is End || chosen::<BinNode>(trie, fill).encodable()
}

/// `data` holds `code`, padded with fewer than eight zeros.
pub open spec fn program_of(data: Seq<u8>, code: Code) -> bool {
    let bits = unpack(data);
    let n = code.bits().len() as int;
    &&& code.stands_at(bits, 0, n)
    &&& bits.len() - n <= 7
    &&& forall|i: int| n <= i < bits.len() ==> !#[trigger] bits[i]
}

/// The map that `data` stands for, if any. Nothing at all stands for the empty
/// map.
pub open spec fn decoded(data: Seq<u8>) -> Option<TrieNode> {
    if data.len() == 0 {
        Some(TrieNode::Leaf(0))
    } else if exists|code: Code| program_of(data, code) {
        Some((choose|code: Code| program_of(data, code)).expand(0))
    } else {
        None
    }
}

impl BinNode {
    /// Whether the program can be written.
    fn can_encode(&self) -> (r: bool)
        requires
            self.sized(),
        ensures
            r == self.code().encodable(),
        decreases self,
    {
        proof {
            reveal_with_fuel(BinNode::sized, 2);
            CODER_JUMP.lemma_max_value();
        }
        match &self.kind {
            BinNodeKind::Return(v) => CODER_ASN.can_encode(*v),
            BinNodeKind::Jump(left, right) => {
                assert(left.sized());
                left.size <= u32::MAX as usize && CODER_JUMP.can_encode(left.size as u32)
                    && left.can_encode() && right.can_encode()
            },
            BinNodeKind::Match(v, sub) => CODER_MATCH.can_encode(*v) && sub.can_encode(),
            BinNodeKind::Default(v, sub) => CODER_ASN.can_encode(*v) && sub.can_encode(),
            BinNodeKind::End => false,
        }
    }
}

/// Packs bits into bytes, least significant first.
fn pack_bits(bits: &Vec<bool>) -> (bytes: Vec<u8>)
    ensures
        packs(bytes@, bits@),
{
    let mut bytes: Vec<u8> = Vec::new();
    let mut i: usize = 0;
    while i < bits.len()
        invariant
            i <= bits@.len(),
            i == bits@.len() || i == 8 * bytes@.len(),
            bytes@.len() == (i + 7) / 8,
            forall|n: int|
                0 <= n < 8 * bytes@.len() ==> bit_of(
                    #[trigger] bytes@[n / 8],
                    (n % 8) as u8,
                ) == (n < bits@.len() && bits@[n]),
        decreases bits@.len() - i,
    {
        let ghost start = i as int;
        let ghost before = bytes@;
        let mut val: u8 = 0;
        let mut nbits: u8 = 0;
        assert(forall|j: u8| j < 8 ==> !bit_of(0, j)) by {
            assert(forall|j: u8| j < 8 ==> !((0u8 >> j) & 1 == 1)) by (bit_vector);
        }
        while nbits < 8 && i < bits.len()
            invariant
                nbits <= 8,
                i == start + nbits <= bits@.len(),
                forall|j: u8|
                    j < 8 ==> #[trigger] bit_of(val, j) == (j < nbits && bits@[start + j]),
            decreases 8 - nbits,
        {
            if bits[i] {
                let ghost old_val = val;
                assert(forall|j: u8|
                    j < 8 ==> (((old_val | (1u8 << nbits)) >> j) & 1 == 1) == (j == nbits || (
                    old_val >> j) & 1 == 1)) by (bit_vector)
                    requires
                        nbits < 8,
                ;
                val = val | (1u8 << nbits);
                assert forall|j: u8| j < 8 implies #[trigger] bit_of(val, j) == (j < nbits + 1
                    && bits@[start + j]) by {
                    assert(bit_of(old_val, j) == (j < nbits && bits@[start + j]));
                }
            }
            nbits = nbits + 1;
            i = i + 1;
        }
        bytes.push(val);
        assert forall|n: int| 0 <= n < 8 * bytes@.len() implies bit_of(
            #[trigger] bytes@[n / 8],
            (n % 8) as u8,
        ) == (n < bits@.len() && bits@[n]) by {
            if n < 8 * before.len() {
                assert(bytes@[n / 8] == before[n / 8]);
            } else {
                let j = (n - start) as u8;
                assert(n / 8 == before.len());
                assert(n % 8 == j);
                assert(bit_of(val, j) == (j < nbits && bits@[start + j]));
            }
        }
    }
    bytes
}

/// Unpacks bytes into bits, least significant first.
fn unpack_bits(bytes: &[u8]) -> (bits: Vec<bool>)
    requires
        8 * bytes@.len() <= usize::MAX,
    ensures
        bits@ == unpack(bytes@),
{
    let mut bits: Vec<bool> = Vec::new();
    let mut i: usize = 0;
    while i < bytes.len()
        invariant
            i <= bytes@.len(),
            bits@.len() == 8 * i,
            forall|n: int| 0 <= n < bits@.len() ==> #[trigger] bits@[n] == bit_of(bytes@[n / 8], (n % 8) as u8),
        decreases bytes@.len() - i,
    {
        let byte: u8 = bytes[i];
        let mut j: u8 = 0;
        while j < 8
            invariant
                j <= 8,
                i < bytes@.len(),
                byte == bytes@[i as int],
                bits@.len() == 8 * i + j,
                forall|n: int| 0 <= n < bits@.len() ==> #[trigger] bits@[n] == bit_of(bytes@[n / 8], (n % 8) as u8),
            decreases 8 - j,
        {
            bits.push((byte >> j) & 1 == 1);
            j = j + 1;
        }
        i = i + 1;
    }
    assert(bits@ =~= unpack(bytes@));
    bits
}

impl ASMap {
    /// The binary form of the map. With `fill`, unassigned space may be given
    /// any number, which can make it shorter.
    pub fn to_binary(&self, fill: bool) -> (bytes: Vec<u8>)
        requires
            fits_binary(self@, fill),
        ensures
            packs(bytes@, map_bits(self@, fill)),
    {
        match self.try_to_binary(fill) {
            Some(bytes) => bytes,
            None => unreached(),
        }
    }

    /// The binary form of the map, if its program can be written.
    pub fn try_to_binary(&self, fill: bool) -> (bytes: Option<Vec<u8>>)
        ensures
            match bytes {
                Some(b) => fits_binary(self@, fill) && packs(b@, map_bits(self@, fill)),
                None => !fits_binary(self@, fill),
            },
    {
        let node: BinNode = match best_plan::<BinNode>(self.root(), fill) {
            Some(node) => node,
            None => {
                return None;
            },
        };
        let mut bits: Vec<bool> = Vec::new();
        match &node.kind {
            BinNodeKind::End => {},
            _ => {
                if !node.can_encode() {
                    return None;
                }
                node.encode(&mut bits);
            },
        }
        assert(bits@ =~= map_bits(self@, fill));
        Some(pack_bits(&bits))
    }

    /// The map that a byte string stands for.
    pub fn from_binary(bindata: &[u8]) -> (map: Option<ASMap>)
        requires
            8 * bindata@.len() <= usize::MAX,
        ensures
            match map {
                Some(m) => m.wf() && decoded(bindata@) == Some(m@),
                None => decoded(bindata@) is None,
            },
    {
        if bindata.len() == 0 {
            return Some(ASMap::new());
        }
        let bits = unpack_bits(bindata);
        let (node, end) = match BinNode::decode(bits.as_slice(), 0) {
            Some(r) => r,
            None => {
                return None;
            },
        };
        let ghost code = node.code();
        proof {
            assert forall|other: Code| program_of(bindata@, other) implies other == code by {
                lemma_code_unique(other, code, bits@, 0, other.bits().len() as int, end as int);
            }
        }
        if bits.len() - end > 7 {
            return None;
        }
        let mut i: usize = end;
        while i < bits.len()
            invariant
                end <= i <= bits@.len(),
                bits@ == unpack(bindata@),
                bindata@.len() > 0,
                code.stands_at(bits@, 0, end as int),
                forall|other: Code| program_of(bindata@, other) ==> other == code,
                forall|n: int| end <= n < i ==> !#[trigger] bits@[n],
            decreases bits@.len() - i,
        {
            if bits[i] {
                return None;
            }
            i = i + 1;
        }
        assert(program_of(bindata@, code));
        proof {
            lemma_encodable_shaped(code);
            lemma_expand_canonical(code, 0);
            lemma_shaped_no_inner_end(code);
        }
        match node.into_trie(0) {
            Some(trie) => Some(ASMap::from_trie(trie)),
            None => None,
        }
    }
}

proof fn lemma_shaped_no_inner_end(code: Code)
    requires
        code.shaped(),
    ensures
        code.no_inner_end(),
    decreases code,
{
    match code {
        Code::Jump(left, right) => {
            lemma_shaped_no_inner_end(*left);
            lemma_shaped_no_inner_end(*right);
        },
        Code::Match(_, sub) => {
            lemma_shaped_no_inner_end(*sub);
        },
        Code::Default(_, sub) => {
            lemma_shaped_no_inner_end(*sub);
        },
        _ => {},
    }
}

/// Bytes that pack a program stand for what the program describes.
proof fn lemma_packed_program(bytes: Seq<u8>, code: Code)
    requires
        code.encodable(),
        packs(bytes, code.bits()),
    ensures
        decoded(bytes) == Some(code.expand(0)),
{
    let bits = unpack(bytes);
    let n = code.bits().len() as int;
    lemma_encodable_shaped(code);
    lemma_min_bits(code);
    assert(bits.subrange(0, n) =~= code.bits()) by {
        assert forall|i: int| 0 <= i < n implies bits.subrange(0, n)[i] == code.bits()[i] by {
            assert(bits[i] == (i < code.bits().len() && code.bits()[i]));
        }
    }
    assert(program_of(bytes, code));
    let picked = choose|other: Code| program_of(bytes, other);
    lemma_code_unique(picked, code, bits, 0, picked.bits().len() as int, n);
}

/// Reading back what was written gives the same map.
pub proof fn binary_round_trip(trie: TrieNode, bytes: Seq<u8>)
    requires
        trie.canonical(),
        fits_binary(trie, false),
        packs(bytes, map_bits(trie, false)),
    ensures
        decoded(bytes) == Some(trie),
{
    let code = chosen::<BinNode>(trie, false);
    assert forall|path: spec_fn(int) -> bool| #[trigger]
        code.expand(0).value(path, 0) == trie.value(path, 0) by {
        lemma_chosen::<BinNode>(trie, false, path);
    }
    lemma_expand_canonical(code, 0);
    normal_form_is_unique(code.expand(0), trie);
    if code !is End {
        lemma_packed_program(bytes, code);
    }
}

/// Reading back what was written with `fill` gives a map that agrees with every
/// assignment of the one that was written.
pub proof fn filled_binary_extends_the_map(trie: TrieNode, bytes: Seq<u8>)
    requires
        fits_binary(trie, true),
        packs(bytes, map_bits(trie, true)),
    ensures
        decoded(bytes) matches Some(read) && read.canonical() && extends_trie(read, trie),
{
    let code = chosen::<BinNode>(trie, true);
    lemma_expand_canonical(code, 0);
    assert forall|path: spec_fn(int) -> bool|
        #![trigger code.expand(0).value(path, 0)]
        #![trigger trie.value(path, 0)]
        trie.value(path, 0) != 0 implies code.expand(0).value(path, 0) == trie.value(path, 0) by {
        lemma_chosen::<BinNode>(trie, true, path);
    }
    if code !is End {
        lemma_packed_program(bytes, code);
    }
}

/// Byte strings that pack the same bits are the same.
pub proof fn packing_is_unique(a: Seq<u8>, b: Seq<u8>, bits: Seq<bool>)
    requires
        packs(a, bits),
        packs(b, bits),
    ensures
        a == b,
{
    assert forall|i: int| 0 <= i < a.len() implies a[i] == b[i] by {
        assert forall|j: u8| j < 8 implies bit_of(a[i], j) == bit_of(b[i], j) by {
            let n = 8 * i + j;
            assert(n / 8 == i && n % 8 == j);
            assert(unpack(a)[n] == bit_of(a[i], j));
            assert(unpack(b)[n] == bit_of(b[i], j));
        }
        lemma_byte_from_bits(a[i], b[i]);
    }
    assert(a =~= b);
}

proof fn lemma_byte_from_bits(a: u8, b: u8)
    requires
        forall|j: u8| j < 8 ==> bit_of(a, j) == #[trigger] bit_of(b, j),
    ensures
        a == b,
{
    assert(bit_of(a, 0) == bit_of(b, 0));
    assert(bit_of(a, 1) == bit_of(b, 1));
    assert(bit_of(a, 2) == bit_of(b, 2));
    assert(bit_of(a, 3) == bit_of(b, 3));
    assert(bit_of(a, 4) == bit_of(b, 4));
    assert(bit_of(a, 5) == bit_of(b, 5));
    assert(bit_of(a, 6) == bit_of(b, 6));
    assert(bit_of(a, 7) == bit_of(b, 7));
    assert(a == b) by (bit_vector)
        requires
            ((a >> 0) & 1 == 1) == ((b >> 0) & 1 == 1),
            ((a >> 1) & 1 == 1) == ((b >> 1) & 1 == 1),
            ((a >> 2) & 1 == 1) == ((b >> 2) & 1 == 1),
            ((a >> 3) & 1 == 1) == ((b >> 3) & 1 == 1),
            ((a >> 4) & 1 == 1) == ((b >> 4) & 1 == 1),
            ((a >> 5) & 1 == 1) == ((b >> 5) & 1 == 1),
            ((a >> 6) & 1 == 1) == ((b >> 6) & 1 == 1),
            ((a >> 7) & 1 == 1) == ((b >> 7) & 1 == 1),
    ;
}

impl Code {
    /// Every number in the program is at most `bound`.
    pub open spec fn asns_at_most(self, bound: int) -> bool
        decreases self,
    {
        match self {
            Code::Return(v) => v <= bound,
            Code::Jump(left, right) => left.asns_at_most(bound) && right.asns_at_most(bound),
            Code::Match(_, sub) => sub.asns_at_most(bound),
            Code::Default(v, sub) => v <= bound && sub.asns_at_most(bound),
            Code::End => true,
        }
    }
}

/// Branching and defaulting bring in no other numbers.
proof fn lemma_ops_asns(left: Code, right: Code, asn: u32, bound: int)
    requires
        left.asns_at_most(bound),
        right.asns_at_most(bound),
        asn <= bound,
    ensures
        Code::branch(left, right).asns_at_most(bound),
        Code::with_default(asn, left).asns_at_most(bound),
{
    reveal_with_fuel(Code::asns_at_most, 2);
}

/// Every description in the table uses numbers up to `bound` only.
spec fn table_asns(table: Map<Option<u32>, Code>, bound: int) -> bool {
    forall|ctx: Option<u32>| #[trigger]
        table.dom().contains(ctx) ==> {
            &&& table[ctx].asns_at_most(bound)
            &&& ctx is Some ==> ctx->0 <= bound
        }
}

proof fn lemma_shared_asns(
    left: Map<Option<u32>, Code>,
    right: Map<Option<u32>, Code>,
    ctx: Option<u32>,
    bound: int,
)
    requires
        bound >= 0,
        table_asns(left, bound),
        table_asns(right, bound),
        shared::<BinNode>(left, right, ctx) is Some,
    ensures
        shared::<BinNode>(left, right, ctx)->0.asns_at_most(bound),
        ctx is Some ==> ctx->0 <= bound,
{
    if left.dom().contains(ctx) && right.dom().contains(ctx) {
        lemma_ops_asns(left[ctx], right[ctx], 0, bound);
    }
    if left.dom().contains(None) && right.dom().contains(ctx) {
        lemma_ops_asns(left[None], right[ctx], 0, bound);
    }
    if left.dom().contains(ctx) && right.dom().contains(None) {
        lemma_ops_asns(left[ctx], right[None], 0, bound);
    }
}

proof fn lemma_merged_asns(
    left: Map<Option<u32>, Code>,
    right: Map<Option<u32>, Code>,
    prefix: Seq<bool>,
    hole: bool,
    ctx: Option<u32>,
    bound: int,
)
    requires
        bound >= 0,
        table_asns(left, bound),
        table_asns(right, bound),
        merged_at::<BinNode>(left, right, prefix, hole, ctx) is Some,
    ensures
        merged_at::<BinNode>(left, right, prefix, hole, ctx)->0.asns_at_most(bound),
        ctx is Some ==> ctx->0 <= bound,
{
    let m = merged_at::<BinNode>(left, right, prefix, hole, ctx)->0;
    if shared::<BinNode>(left, right, ctx) == Some(m) {
        lemma_shared_asns(left, right, ctx, bound);
    } else {
        let asn = choose|asn: u32| is_best_cover::<BinNode>(left, right, prefix, asn);
        assert(is_best_cover::<BinNode>(left, right, prefix, asn));
        lemma_shared_asns(left, right, Some(asn), bound);
        let inner = shared::<BinNode>(left, right, Some(asn))->0;
        lemma_ops_asns(inner, inner, asn, bound);
    }
}

/// The numbers of a program come from the trie.
proof fn lemma_plan_asns(node: TrieNode, prefix: Seq<bool>, fill: bool, bound: int)
    requires
        node.asns_at_most(bound),
        bound >= 0,
    ensures
        table_asns(plans::<BinNode>(node, prefix, fill), bound),
    decreases node,
{
    let table = plans::<BinNode>(node, prefix, fill);
    if let TrieNode::Branch(left_node, right_node) = node {
        let left = plans::<BinNode>(*left_node, prefix.push(false), fill);
        let right = plans::<BinNode>(*right_node, prefix.push(true), fill);
        let hole = has_hole(node, fill);
        lemma_plan_asns(*left_node, prefix.push(false), fill, bound);
        lemma_plan_asns(*right_node, prefix.push(true), fill, bound);
        assert forall|ctx: Option<u32>| #[trigger] table.dom().contains(ctx) implies {
            &&& table[ctx].asns_at_most(bound)
            &&& ctx is Some ==> ctx->0 <= bound
        } by {
            lemma_merged_asns(left, right, prefix, hole, ctx, bound);
        }
    }
}

/// A program short enough, with numbers small enough, can be written.
proof fn lemma_small_program(code: Code)
    requires
        code.shaped(),
        code !is End,
        code.asns_at_most(CODER_ASN.max_value()),
        code.bits().len() <= CODER_JUMP.max_value(),
    ensures
        code.encodable(),
    decreases code,
{
    CODER_ASN.lemma_max_value();
    CODER_MATCH.lemma_max_value();
    CODER_JUMP.lemma_max_value();
    match code {
        Code::Jump(left, right) => {
            lemma_min_bits(*left);
            lemma_small_program(*left);
            lemma_small_program(*right);
        },
        Code::Match(_, sub) => {
            lemma_small_program(*sub);
        },
        Code::Default(_, sub) => {
            lemma_small_program(*sub);
        },
        _ => {},
    }
}

/// Every map of at most 8,388,607 leaves whose numbers have a code can be
/// written, with `fill` and without.
pub proof fn small_maps_fit(trie: TrieNode, fill: bool)
    requires
        trie.asns_at_most(CODER_ASN.max_value()),
        256 * trie.leaf_count() <= CODER_JUMP.max_value(),
    ensures
        fits_binary(trie, fill),
{
    let code = chosen::<BinNode>(trie, fill);
    CODER_ASN.lemma_max_value();
    CODER_JUMP.lemma_max_value();
    assert forall|m: Code, prefix: Seq<bool>| #[trigger]
        BinNode::within(m, prefix) && BinNode::cost(m) <= 256 * trie.leaf_count() implies
        m.held() by {
        if let Code::Jump(left, _) = m {
            lemma_min_bits(*left);
        }
    }
    lemma_search_holds::<BinNode>(trie, Seq::empty(), fill);
    lemma_chosen::<BinNode>(trie, fill, |i: int| false);
    lemma_plan_asns(trie, Seq::empty(), fill, CODER_ASN.max_value());
    let table = plans::<BinNode>(trie, Seq::empty(), fill);
    assert(code.asns_at_most(CODER_ASN.max_value())) by {
        assert(table.dom().contains(Some(0u32)) ==> table[Some(0u32)].asns_at_most(
            CODER_ASN.max_value(),
        ));
        assert(table.dom().contains(None) ==> table[None].asns_at_most(CODER_ASN.max_value()));
    }
    if code !is End {
        lemma_small_program(code);
    }
}

/// A map made by a program has no numbers but those of the program and 0.
proof fn lemma_expand_asns(code: Code, default: u32, bound: int)
    requires
        code.asns_at_most(bound),
        default <= bound,
    ensures
        code.expand(default).asns_at_most(bound),
    decreases code,
{
    match code {
        Code::Jump(left, right) => {
            lemma_expand_asns(*left, default, bound);
            lemma_expand_asns(*right, default, bound);
        },
        Code::Match(v, sub) => {
            lemma_expand_asns(*sub, default, bound);
            lemma_matched_asns(v as nat, sub.expand(default), default, bound);
        },
        Code::Default(v, sub) => {
            lemma_expand_asns(*sub, v, bound);
        },
        _ => {},
    }
}

proof fn lemma_matched_asns(v: nat, sub: TrieNode, default: u32, bound: int)
    requires
        sub.asns_at_most(bound),
        default <= bound,
    ensures
        matched(v, sub, default).asns_at_most(bound),
    decreases v,
{
    reveal_with_fuel(TrieNode::asns_at_most, 2);
    if v >= 2 {
        if v % 2 == 1 {
            let inner = TrieNode::joined(TrieNode::Leaf(default), sub);
            lemma_matched_asns(v / 2, inner, default, bound);
        } else {
            let inner = TrieNode::joined(sub, TrieNode::Leaf(default));
            lemma_matched_asns(v / 2, inner, default, bound);
        }
    }
}

/// The numbers of a program that can be written have a code.
proof fn lemma_encodable_asns(code: Code)
    requires
        code.encodable(),
    ensures
        code.asns_at_most(CODER_ASN.max_value()),
    decreases code,
{
    match code {
        Code::Jump(left, right) => {
            lemma_encodable_asns(*left);
            lemma_encodable_asns(*right);
        },
        Code::Match(_, sub) => {
            lemma_encodable_asns(*sub);
        },
        Code::Default(_, sub) => {
            lemma_encodable_asns(*sub);
        },
        _ => {},
    }
}

/// A map that was read is in normal form, has only numbers that have a code, and
/// can be written unless it has more than 8,388,607 leaves.
pub proof fn decoded_maps_are_encodable(data: Seq<u8>, trie: TrieNode)
    requires
        decoded(data) == Some(trie),
    ensures
        trie.canonical(),
        trie.asns_at_most(33_521_664),
        256 * trie.leaf_count() <= CODER_JUMP.max_value() ==> forall|fill: bool| #[trigger]
            fits_binary(trie, fill),
{
    CODER_ASN.lemma_max_value();
    if data.len() > 0 {
        let code = choose|code: Code| program_of(data, code);
        lemma_expand_canonical(code, 0);
        lemma_encodable_asns(code);
        lemma_expand_asns(code, 0, CODER_ASN.max_value());
    }
    if 256 * trie.leaf_count() <= CODER_JUMP.max_value() {
        small_maps_fit(trie, false);
        small_maps_fit(trie, true);
    }
}

/// A map that was read, written and read again is the same map.
pub proof fn decoded_maps_round_trip(data: Seq<u8>, trie: TrieNode, bytes: Seq<u8>)
    requires
        decoded(data) == Some(trie),
        fits_binary(trie, false),
        packs(bytes, map_bits(trie, false)),
    ensures
        decoded(bytes) == Some(trie),
{
    decoded_maps_are_encodable(data, trie);
    binary_round_trip(trie, bytes);
}

/// Whatever the default, the descriptions in the table have at most `leaves`
/// leaves.
spec fn table_leaves(table: Map<Option<u32>, Code>, leaves: nat) -> bool {
    forall|ctx: Option<u32>| #[trigger]
        table.dom().contains(ctx) ==> table[ctx].shaped() && code_leaves(table[ctx], leaves)
}

/// Whatever the default, the program describes at most `leaves` leaves.
spec fn code_leaves(code: Code, leaves: nat) -> bool {
    forall|default: u32| (#[trigger] code.expand(default)).leaf_count() <= leaves
}

proof fn lemma_ops_leaves(left: Code, right: Code, l: nat, r: nat, asn: u32)
    requires
        left.shaped(),
        right.shaped(),
        code_leaves(left, l),
        code_leaves(right, r),
    ensures
        Code::branch(left, right).shaped(),
        code_leaves(Code::branch(left, right), l + r),
        code_leaves(Code::with_default(asn, left), l),
{
    lemma_code_ops(left, right, 1, 0);
    assert forall|default: u32| (#[trigger] Code::branch(left, right).expand(
        default,
    )).leaf_count() <= l + r by {
        lemma_code_ops(left, right, 1, default);
        assert(left.expand(default).leaf_count() <= l);
        assert(right.expand(default).leaf_count() <= r);
    }
    assert forall|default: u32| (#[trigger] Code::with_default(asn, left).expand(
        default,
    )).leaf_count() <= l by {
        lemma_code_ops(left, right, asn, default);
        assert(left.expand(asn).leaf_count() <= l);
    }
}

proof fn lemma_shared_leaves(
    left: Map<Option<u32>, Code>,
    right: Map<Option<u32>, Code>,
    ctx: Option<u32>,
    l: nat,
    r: nat,
)
    requires
        table_leaves(left, l),
        table_leaves(right, r),
        shared::<BinNode>(left, right, ctx) is Some,
    ensures
        shared::<BinNode>(left, right, ctx)->0.shaped(),
        code_leaves(shared::<BinNode>(left, right, ctx)->0, l + r),
{
    if left.dom().contains(ctx) && right.dom().contains(ctx) {
        lemma_ops_leaves(left[ctx], right[ctx], l, r, 1);
    }
    if left.dom().contains(None) && right.dom().contains(ctx) {
        lemma_ops_leaves(left[None], right[ctx], l, r, 1);
    }
    if left.dom().contains(ctx) && right.dom().contains(None) {
        lemma_ops_leaves(left[ctx], right[None], l, r, 1);
    }
}

proof fn lemma_plan_leaves(node: TrieNode, prefix: Seq<bool>, fill: bool)
    ensures
        table_leaves(plans::<BinNode>(node, prefix, fill), node.leaf_count()),
    decreases node,
{
    let table = plans::<BinNode>(node, prefix, fill);
    lemma_plans::<BinNode>(node, prefix, fill);
    match node {
        TrieNode::Leaf(v) => {
            assert(code_leaves(Code::End, 1));
            assert(code_leaves(Code::Return(v), 1));
        },
        TrieNode::Branch(left_node, right_node) => {
            let left = plans::<BinNode>(*left_node, prefix.push(false), fill);
            let right = plans::<BinNode>(*right_node, prefix.push(true), fill);
            let hole = has_hole(node, fill);
            let (l, r) = (left_node.leaf_count(), right_node.leaf_count());
            lemma_plan_leaves(*left_node, prefix.push(false), fill);
            lemma_plan_leaves(*right_node, prefix.push(true), fill);
            assert forall|ctx: Option<u32>| #[trigger] table.dom().contains(ctx) implies {
                table[ctx].shaped() && code_leaves(table[ctx], l + r)
            } by {
                let m = table[ctx];
                assert(merged_at::<BinNode>(left, right, prefix, hole, ctx) == Some(m));
                assert(BinNode::within(m, prefix));
                if shared::<BinNode>(left, right, ctx) == Some(m) {
                    lemma_shared_leaves(left, right, ctx, l, r);
                } else {
                    let asn = choose|asn: u32| is_best_cover::<BinNode>(left, right, prefix, asn);
                    assert(is_best_cover::<BinNode>(left, right, prefix, asn));
                    lemma_shared_leaves(left, right, Some(asn), l, r);
                    let inner = shared::<BinNode>(left, right, Some(asn))->0;
                    lemma_ops_leaves(inner, inner, l + r, l + r, asn);
                }
            }
        },
    }
}

/// What was written with `fill` is read as a map that has no more leaves than
/// the one that was written, and that reads back as itself once it is written
/// without `fill`, which is possible unless the first map had more than
/// 8,388,607 leaves.
pub proof fn filled_maps_round_trip(trie: TrieNode, bytes: Seq<u8>, read: TrieNode, again: Seq<u8>)
    requires
        fits_binary(trie, true),
        packs(bytes, map_bits(trie, true)),
        decoded(bytes) == Some(read),
        packs(again, map_bits(read, false)),
    ensures
        read.leaf_count() <= trie.leaf_count(),
        256 * trie.leaf_count() <= CODER_JUMP.max_value() ==> fits_binary(read, false),
        fits_binary(read, false) ==> decoded(again) == Some(read),
{
    let code = chosen::<BinNode>(trie, true);
    lemma_plan_leaves(trie, Seq::empty(), true);
    let table = plans::<BinNode>(trie, Seq::empty(), true);
    assert(code_leaves(code, trie.leaf_count())) by {
        assert(at(table, Some(0u32)) is Some ==> code_leaves(
            table[Some(0u32)],
            trie.leaf_count(),
        ));
        assert(at(table, None) is Some ==> code_leaves(table[None], trie.leaf_count()));
        lemma_plans::<BinNode>(trie, Seq::empty(), true);
    }
    assert(code.expand(0).leaf_count() <= trie.leaf_count());
    if code !is End {
        lemma_packed_program(bytes, code);
    }
    decoded_maps_are_encodable(bytes, read);
    if fits_binary(read, false) {
        binary_round_trip(read, again);
    }
}

/// Bytes that stand for a map, other than none at all, stand for nothing with
/// more bytes behind them.
pub proof fn no_encoding_begins_another(data: Seq<u8>, more: Seq<u8>)
    requires
        data.len() > 0,
        decoded(data) is Some,
        more.len() > 0,
    ensures
        decoded(data + more) is None,
{
    let code = choose|code: Code| program_of(data, code);
    let n = code.bits().len() as int;
    let (short, long) = (unpack(data), unpack(data + more));
    assert(long.subrange(0, n) =~= short.subrange(0, n)) by {
        assert forall|i: int| 0 <= i < n implies long[i] == short[i] by {
            assert((data + more)[i / 8] == data[i / 8]);
        }
    }
    assert forall|other: Code| !program_of(data + more, other) by {
        if program_of(data + more, other) {
            lemma_code_unique(other, code, long, 0, other.bits().len() as int, n);
        }
    }
}

/// The bit that stands `j` places from the right in a byte.
proof fn lemma_bit_of(byte: u8, j: u8)
    requires
        j < 8,
    ensures
        bit_of(byte, j) == ((byte as nat / pow2(j as nat)) % 2 == 1),
{
    lemma_u8_shr_is_div(byte, j);
    let x = byte >> j;
    assert(x & 1 == x % 2) by (bit_vector);
}

/// How bits are packed: eight to a byte, the first in the least significant place,
/// with zeros behind the last, in as few bytes as hold them.
pub proof fn bits_are_packed_from_the_right(bytes: Seq<u8>, bits: Seq<bool>)
    ensures
        packs(bytes, bits) == (8 * (bytes.len() - 1) < bits.len() <= 8 * bytes.len() && (forall|
            i: int,
            j: nat,
        |
            0 <= i < bytes.len() && j < 8 ==> ((#[trigger] bytes[i] as nat / #[trigger] pow2(j)) % 2
                == 1) == (8 * i + j < bits.len() && bits[8 * i + j]))),
{
    if packs(bytes, bits) {
        assert forall|i: int, j: nat| 0 <= i < bytes.len() && j < 8 implies ((
        #[trigger] bytes[i] as nat / #[trigger] pow2(j)) % 2 == 1) == (8 * i + j < bits.len()
            && bits[8 * i + j]) by {
            let n = 8 * i + j;
            assert(n / 8 == i && n % 8 == j);
            assert(unpack(bytes)[n] == (n < bits.len() && bits[n]));
            lemma_bit_of(bytes[i], j as u8);
        }
    }
    if 8 * (bytes.len() - 1) < bits.len() <= 8 * bytes.len() && (forall|i: int, j: nat|
        0 <= i < bytes.len() && j < 8 ==> ((#[trigger] bytes[i] as nat / #[trigger] pow2(j)) % 2
            == 1) == (8 * i + j < bits.len() && bits[8 * i + j])) {
        assert forall|n: int| 0 <= n < 8 * bytes.len() implies #[trigger] unpack(bytes)[n] == (n
            < bits.len() && bits[n]) by {
            let (i, j) = (n / 8, (n % 8) as nat);
            lemma_bit_of(bytes[i], j as u8);
            assert(((bytes[i] as nat / pow2(j)) % 2 == 1) == (8 * i + j < bits.len() && bits[8 * i
                + j]));
        }
    }
}

/// What bytes stand for: those that pack a program that can be written stand for
/// the map that the program describes where nothing is assigned around it; no
/// others stand for anything but no bytes at all, which are the empty map.
pub proof fn bytes_stand_for_what_their_program_answers(bytes: Seq<u8>, code: Code)
    ensures
        bytes.len() == 0 ==> decoded(bytes) == Some(TrieNode::Leaf(0)),
        code.encodable() && packs(bytes, code.bits()) ==> decoded(bytes) == Some(code.expand(0)),
        bytes.len() > 0 && decoded(bytes) is Some ==> exists|c: Code|
            #[trigger] c.encodable() && packs(bytes, c.bits()) && decoded(bytes) == Some(
                c.expand(0),
            ),
{
    if code.encodable() && packs(bytes, code.bits()) {
        lemma_packed_program(bytes, code);
    }
    if bytes.len() > 0 && decoded(bytes) is Some {
        let c = choose|c: Code| program_of(bytes, c);
        let bits = unpack(bytes);
        let n = c.bits().len() as int;
        assert(c.encodable());
        assert(packs(bytes, c.bits())) by {
            assert forall|i: int| 0 <= i < 8 * bytes.len() implies #[trigger] unpack(bytes)[i] == (i
                < n && c.bits()[i]) by {
                if i < n {
                    assert(bits.subrange(0, n)[i] == bits[i]);
                }
            }
        }
    }
}

/// Programs are weighed by their length in bits, and a map is written as the
/// program that the search chooses.
pub proof fn programs_are_weighed_in_bits(trie: TrieNode, fill: bool, code: Code)
    ensures
        BinNode::cost(code) == code.bits().len(),
        map_bits(trie, fill) == chosen::<BinNode>(trie, fill).bits(),
        BinNode::nothing() == Code::End,
        forall|prefix: Seq<bool>, asn: u32|
            #[trigger] BinNode::single(prefix, asn) == Code::Return(asn),
        fits_binary(trie, fill) ==> chosen::<BinNode>(trie, fill) is End || chosen::<BinNode>(
            trie,
            fill,
        ).encodable(),
{
}

/// What a branch is made of: nothing where both sides have nothing to say; a
/// match, which takes in a match of fewer than eight bits below it, where one side
/// has nothing to say; and a jump else. It answers for each address bit what the
/// side for that bit answers.
pub proof fn branches_are_matches_or_jumps(left: Code, right: Code)
    ensures
        ({
            let both = BinNode::both(left, right);
            &&& left is End && right is End ==> both is End
            &&& left is End != right is End ==> both is Match
            &&& left !is End && right !is End ==> both == Code::Jump(
                Box::new(left),
                Box::new(right),
            )
            &&& left is End && right !is Match ==> right is End || both == Code::Match(
                3,
                Box::new(right),
            )
            &&& right is End && left !is Match ==> left is End || both == Code::Match(
                2,
                Box::new(left),
            )
            &&& left is End && right is Match && right->Match_0 > 0xff ==> both == Code::Match(
                3,
                Box::new(right),
            )
            &&& right is End && left is Match && left->Match_0 > 0xff ==> both == Code::Match(
                2,
                Box::new(left),
            )
            &&& left is End && right is Match && right->Match_0 <= 0xff ==> both->Match_1
                == right->Match_1
            &&& right is End && left is Match && left->Match_0 <= 0xff ==> both->Match_1
                == left->Match_1
        }),
        forall|default: u32|
            left.shaped() && right.shaped() ==> #[trigger] BinNode::both(left, right).expand(
                default,
            ) == TrieNode::joined(left.expand(default), right.expand(default)),
{
    assert forall|default: u32|
        left.shaped() && right.shaped() implies #[trigger] BinNode::both(left, right).expand(
        default,
    ) == TrieNode::joined(left.expand(default), right.expand(default)) by {
        lemma_code_ops(left, right, 1, default);
    }
}

/// A default is set where it makes a difference: not for what answers with a
/// number of its own or sets a default itself, and as a `Return` for what has
/// nothing to say.
pub proof fn defaults_are_set_where_needed(prefix: Seq<bool>, asn: u32, inner: Code)
    ensures
        BinNode::cover(prefix, asn, inner) == match inner {
            Code::End => Code::Return(asn),
            Code::Return(_) => inner,
            Code::Default(_, _) => inner,
            _ => Code::Default(asn, Box::new(inner)),
        },
{
}

proof fn lemma_bit_length_is(v: nat, n: nat)
    requires
        pow2(n) <= v < pow2(n + 1),
    ensures
        bit_length(v) == n + 1,
    decreases n,
{
    lemma2_to64();
    if n > 0 {
        lemma_pow2_unfold(n);
        lemma_pow2_unfold(n + 1);
        lemma_bit_length_is(v / 2, (n - 1) as nat);
    } else {
        assert(bit_length(v / 2) == 0);
    }
}

/// A match of `n` bits, written behind a leading one, takes in a bit before them: a
/// zero or a one takes the place of the leading one, which moves up.
pub proof fn matches_take_in_the_bit_before(v: u32, n: nat, sub: Code)
    requires
        pow2(n) <= v < pow2(n + 1),
        v <= 0xff,
    ensures
        BinNode::both(Code::Match(v, Box::new(sub)), Code::End) == Code::Match(
            (v + pow2(n)) as u32,
            Box::new(sub),
        ),
        BinNode::both(Code::End, Code::Match(v, Box::new(sub))) == Code::Match(
            (v + pow2(n + 1)) as u32,
            Box::new(sub),
        ),
{
    lemma_bit_length_is(v as nat, n);
}

} // verus!
