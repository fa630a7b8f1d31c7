//! The tree of encoded nodes: the instructions that a binary map is made of,
//! what they mean, and how they are written as bits.

use crate::coder::{
    be_bits, encodable_numbers_lie_between, lemma_be_bits_len, pow2_u32, VarLenCoder, CODER_ASN,
    CODER_INS, CODER_JUMP, CODER_MATCH,
};
use crate::trie::{lemma_joined, TrieNode};
use vstd::arithmetic::div_mod::lemma_div_denominator;
use vstd::arithmetic::power2::{
    lemma2_to64, lemma_pow2_pos, lemma_pow2_strictly_increases, lemma_pow2_unfold, pow2,
};
use vstd::prelude::*;

verus! {

/// A program of the binary format.
///
/// `Return` answers with a number, `Jump` branches on the next address bit,
/// `Match` consumes the bits below the leading one of its operand and answers
/// with the default where they do not match, `Default` sets the default, and
/// `End` answers with the default; `End` is never written out.
pub enum Code {
    Return(u32),
    Jump(Box<Code>, Box<Code>),
    Match(u32, Box<Code>),
    Default(u32, Box<Code>),
    End,
}

/// The operand of the jump over a left side of `len` bits, a number of 32 bits.
pub open spec fn jump_operand(len: nat) -> nat {
    len % 0x1_0000_0000
}

impl Code {
    /// The program as bits.
    pub open spec fn bits(self) -> Seq<bool>
        decreases self,
    {
        match self {
            Code::Return(v) => VarLenCoder::Ins.code(0) + VarLenCoder::Asn.code(v as nat),
            Code::Jump(left, right) => VarLenCoder::Ins.code(1) + VarLenCoder::Jump.code(
                jump_operand(left.bits().len()),
            ) + left.bits() + right.bits(),
            Code::Match(v, sub) => VarLenCoder::Ins.code(2) + VarLenCoder::Match.code(v as nat)
                + sub.bits(),
            Code::Default(v, sub) => VarLenCoder::Ins.code(3) + VarLenCoder::Asn.code(v as nat)
                + sub.bits(),
            Code::End => Seq::empty(),
        }
    }

    /// `End` stands nowhere below the root, and every operand other than a jump
    /// is large enough to be written.
    pub open spec fn shaped(self) -> bool
        decreases self,
    {
        match self {
            Code::Return(v) => v >= 1,
            Code::Jump(left, right) => {
                &&& *left !is End && left.shaped()
                &&& *right !is End && right.shaped()
            },
            Code::Match(v, sub) => 2 <= v <= 511 && *sub !is End && sub.shaped(),
            Code::Default(v, sub) => v >= 1 && *sub !is End && sub.shaped(),
            Code::End => true,
        }
    }

    /// The program can be held in memory: its length is a machine integer, and a
    /// jump at its head has an operand that is not below the smallest one.
    pub open spec fn held(self) -> bool {
        &&& self.bits().len() <= usize::MAX
        &&& self matches Code::Jump(left, _) ==> jump_operand(left.bits().len())
            >= VarLenCoder::Jump.min_value()
    }

    /// Every operand has a code, so that the program can be written and read back.
    pub open spec fn encodable(self) -> bool
        decreases self,
    {
        match self {
            Code::Return(v) => VarLenCoder::Asn.encodable(v as int),
            Code::Jump(left, right) => {
                &&& VarLenCoder::Jump.encodable(left.bits().len() as int)
                &&& left.encodable()
                &&& right.encodable()
            },
            Code::Match(v, sub) => VarLenCoder::Match.encodable(v as int) && sub.encodable(),
            Code::Default(v, sub) => VarLenCoder::Asn.encodable(v as int) && sub.encodable(),
            Code::End => false,
        }
    }

    /// The trie that the program describes where the default is `default`.
    pub open spec fn expand(self, default: u32) -> TrieNode
        decreases self,
    {
        match self {
            Code::Return(v) => TrieNode::Leaf(v),
            Code::Jump(left, right) => TrieNode::joined(
                left.expand(default),
                right.expand(default),
            ),
            Code::Match(v, sub) => matched(v as nat, sub.expand(default), default),
            Code::Default(v, sub) => sub.expand(v),
            Code::End => TrieNode::Leaf(default),
        }
    }

    /// Branches on one bit, preferring a match where one side has nothing to say.
    pub open spec fn branch(left: Code, right: Code) -> Code {
        match (left, right) {
            (Code::End, Code::End) => Code::End,
            (Code::End, Code::Match(v, sub)) if v <= 0xff => Code::Match(
                (v + pow2(bit_length(v as nat))) as u32,
                sub,
            ),
            (Code::End, _) => Code::Match(3, Box::new(right)),
            (Code::Match(v, sub), Code::End) if v <= 0xff => Code::Match(
                (v + pow2((bit_length(v as nat) - 1) as nat)) as u32,
                sub,
            ),
            (_, Code::End) => Code::Match(2, Box::new(left)),
            _ => Code::Jump(Box::new(left), Box::new(right)),
        }
    }

    /// Sets the default for `sub`, where that makes a difference.
    pub open spec fn with_default(v: u32, sub: Code) -> Code {
        match sub {
            Code::End => Code::Return(v),
            Code::Return(_) | Code::Default(_, _) => sub,
            _ => Code::Default(v, Box::new(sub)),
        }
    }
}

/// The number of binary digits of `v`.
pub open spec fn bit_length(v: nat) -> nat
    decreases v,
{
    if v == 0 {
        0
    } else {
        1 + bit_length(v / 2)
    }
}

/// `sub` below the address bits that stand under the leading one of `v`; any
/// other bits give `default`.
pub open spec fn matched(v: nat, sub: TrieNode, default: u32) -> TrieNode
    decreases v,
{
    if v < 2 {
        sub
    } else {
        let inner = if v % 2 == 1 {
            TrieNode::joined(TrieNode::Leaf(default), sub)
        } else {
            TrieNode::joined(sub, TrieNode::Leaf(default))
        };
        matched(v / 2, inner, default)
    }
}

proof fn lemma_bit_length_bound(v: nat, n: nat)
    requires
        v < pow2(n),
    ensures
        bit_length(v) <= n,
        v > 0 ==> bit_length(v) > 0,
    decreases v,
{
    if v > 0 {
        if n == 0 {
            lemma2_to64();
        } else {
            lemma_pow2_unfold(n);
            lemma_bit_length_bound(v / 2, (n - 1) as nat);
        }
    }
}

/// Prepending a one bit to a match.
proof fn lemma_matched_one(v: nat, sub: TrieNode, default: u32)
    requires
        v >= 1,
    ensures
        matched(v + pow2(bit_length(v)), sub, default) == TrieNode::joined(
            TrieNode::Leaf(default),
            matched(v, sub, default),
        ),
    decreases v,
{
    lemma2_to64();
    if v == 1 {
        assert(bit_length(0) == 0);
        assert(bit_length(1) == 1);
        reveal_with_fuel(matched, 3);
    } else {
        lemma_pow2_unfold(bit_length(v));
        let longer = v + pow2(bit_length(v));
        assert(longer / 2 == v / 2 + pow2(bit_length(v / 2)));
        assert(longer % 2 == v % 2);
        let inner = if v % 2 == 1 {
            TrieNode::joined(TrieNode::Leaf(default), sub)
        } else {
            TrieNode::joined(sub, TrieNode::Leaf(default))
        };
        lemma_matched_one(v / 2, inner, default);
    }
}

/// Prepending a zero bit to a match.
proof fn lemma_matched_zero(v: nat, sub: TrieNode, default: u32)
    requires
        v >= 1,
    ensures
        matched(v + pow2((bit_length(v) - 1) as nat), sub, default) == TrieNode::joined(
            matched(v, sub, default),
            TrieNode::Leaf(default),
        ),
    decreases v,
{
    lemma2_to64();
    if v == 1 {
        assert(bit_length(0) == 0);
        assert(bit_length(1) == 1);
        reveal_with_fuel(matched, 3);
    } else {
        assert(bit_length(v / 2) >= 1);
        lemma_pow2_unfold((bit_length(v) - 1) as nat);
        let longer = v + pow2((bit_length(v) - 1) as nat);
        assert(longer / 2 == v / 2 + pow2((bit_length(v / 2) - 1) as nat));
        assert(longer % 2 == v % 2);
        let inner = if v % 2 == 1 {
            TrieNode::joined(TrieNode::Leaf(default), sub)
        } else {
            TrieNode::joined(sub, TrieNode::Leaf(default))
        };
        lemma_matched_zero(v / 2, inner, default);
    }
}

/// The operand of a merged match still fits.
proof fn lemma_merged_operand(v: u32)
    requires
        2 <= v <= 0xff,
    ensures
        0 < bit_length(v as nat) <= 8,
        2 <= v + pow2(bit_length(v as nat)) <= 511,
        2 <= v + pow2((bit_length(v as nat) - 1) as nat) <= 511,
{
    lemma2_to64();
    lemma_bit_length_bound(v as nat, 8);
    let n = bit_length(v as nat);
    if n < 8 {
        lemma_pow2_strictly_increases(n, 8);
    }
    lemma_pow2_strictly_increases((n - 1) as nat, 8);
}

/// What branching and defaulting mean, and that they keep programs in shape.
pub proof fn lemma_code_ops(left: Code, right: Code, v: u32, default: u32)
    requires
        left.shaped(),
        right.shaped(),
    ensures
        Code::branch(left, right).shaped(),
        Code::branch(left, right).expand(default) == TrieNode::joined(
            left.expand(default),
            right.expand(default),
        ),
        v >= 1 ==> Code::with_default(v, left).shaped(),
        Code::with_default(v, left).expand(default) == left.expand(v),
{
    reveal_with_fuel(matched, 3);
    match (left, right) {
        (Code::End, Code::End) => {},
        (Code::End, Code::Match(w, sub)) if w <= 0xff => {
            lemma_merged_operand(w);
            lemma_matched_one(w as nat, sub.expand(default), default);
        },
        (Code::Match(w, sub), Code::End) if w <= 0xff => {
            lemma_merged_operand(w);
            lemma_matched_zero(w as nat, sub.expand(default), default);
        },
        _ => {},
    }
}

/// Matching keeps normal form.
proof fn lemma_matched_canonical(v: nat, sub: TrieNode, default: u32)
    requires
        sub.canonical(),
    ensures
        matched(v, sub, default).canonical(),
    decreases v,
{
    if v >= 2 {
        lemma_joined(TrieNode::Leaf(default), sub, |i: int| false, 0);
        lemma_joined(sub, TrieNode::Leaf(default), |i: int| false, 0);
        if v % 2 == 1 {
            lemma_matched_canonical(
                v / 2,
                TrieNode::joined(TrieNode::Leaf(default), sub),
                default,
            );
        } else {
            lemma_matched_canonical(
                v / 2,
                TrieNode::joined(sub, TrieNode::Leaf(default)),
                default,
            );
        }
    }
}

/// A program describes a trie in normal form.
pub proof fn lemma_expand_canonical(code: Code, default: u32)
    ensures
        code.expand(default).canonical(),
    decreases code,
{
    match code {
        Code::Jump(left, right) => {
            lemma_expand_canonical(*left, default);
            lemma_expand_canonical(*right, default);
            lemma_joined(left.expand(default), right.expand(default), |i: int| false, 0);
        },
        Code::Match(v, sub) => {
            lemma_expand_canonical(*sub, default);
            lemma_matched_canonical(v as nat, sub.expand(default), default);
        },
        Code::Default(v, sub) => {
            lemma_expand_canonical(*sub, v);
        },
        _ => {},
    }
}

/// The lengths of the instruction codes.
pub proof fn lemma_ins_len()
    ensures
        VarLenCoder::Ins.code(0).len() == 1,
        VarLenCoder::Ins.code(1).len() == 2,
        VarLenCoder::Ins.code(2).len() == 3,
        VarLenCoder::Ins.code(3).len() == 3,
{
    lemma2_to64();
    reveal_with_fuel(VarLenCoder::code_from, 3);
    lemma_be_bits_len(0, 0);
    lemma_be_bits_len(0, 1);
    lemma_be_bits_len(1, 1);
    let ins = VarLenCoder::Ins;
    assert(ins.code_from(0, 0) == seq![false] + be_bits(0, 0));
    assert(ins.code_from(1, 0) == seq![true] + ins.code_from(0, 1));
    assert(ins.code_from(0, 1) == seq![false] + be_bits(0, 0));
    assert(ins.code_from(2, 0) == seq![true] + ins.code_from(1, 1));
    assert(ins.code_from(1, 1) == seq![true] + ins.code_from(0, 2));
    assert(ins.code_from(0, 2) == be_bits(0, 1));
    assert(ins.code_from(3, 0) == seq![true] + ins.code_from(2, 1));
    assert(ins.code_from(2, 1) == seq![true] + ins.code_from(1, 2));
    assert(ins.code_from(1, 2) == be_bits(1, 1));
}

/// No code is shorter than its narrowest class.
proof fn lemma_asn_len(rest: nat, k: nat)
    requires
        k < 10,
    ensures
        VarLenCoder::Asn.code_from(rest, k).len() >= 15,
        k < 9 ==> VarLenCoder::Asn.code_from(rest, k).len() >= 16,
    decreases 10 - k,
{
    let width = VarLenCoder::Asn.class_width(k);
    lemma_be_bits_len(rest, width);
    if rest >= pow2(width) {
        lemma_be_bits_len((rest - pow2(width)) as nat, width);
        if k + 1 < 10 {
            lemma_asn_len((rest - pow2(width)) as nat, k + 1);
        }
    }
}

/// Every program has at least one `Return`, hence at least seventeen bits.
pub proof fn lemma_min_bits(code: Code)
    requires
        code.shaped(),
        code !is End,
    ensures
        code.bits().len() >= 17,
    decreases code,
{
    lemma_ins_len();
    match code {
        Code::Return(v) => {
            lemma_asn_len((v - 1) as nat, 0);
        },
        Code::Jump(left, right) => {
            lemma_min_bits(*left);
        },
        Code::Match(_, sub) => {
            lemma_min_bits(*sub);
        },
        Code::Default(_, sub) => {
            lemma_min_bits(*sub);
        },
        Code::End => {},
    }
}

/// The instructions of the binary format.
#[derive(Debug, Clone, Copy, PartialEq, Eq)]
pub enum Instruction {
    Return,
    Jump,
    Match,
    Default,
    End,
}

impl Instruction {
    /// The number that stands for the instruction.
    pub open spec fn number(self) -> nat {
        match self {
            Instruction::Return => 0,
            Instruction::Jump => 1,
            Instruction::Match => 2,
            Instruction::Default => 3,
            Instruction::End => 4,
        }
    }

    /// The number that stands for the instruction.
    pub fn value(self) -> (v: u32)
        ensures
            v == self.number(),
    {
        match self {
            Instruction::Return => 0,
            Instruction::Jump => 1,
            Instruction::Match => 2,
            Instruction::Default => 3,
            Instruction::End => 4,
        }
    }

    /// The instruction that a number stands for.
    pub fn from_value(v: u32) -> (ins: Option<Instruction>)
        ensures
            match ins {
                Some(i) => i.number() == v,
                None => v > 4,
            },
    {
        if v == 0 {
            Some(Instruction::Return)
        } else if v == 1 {
            Some(Instruction::Jump)
        } else if v == 2 {
            Some(Instruction::Match)
        } else if v == 3 {
            Some(Instruction::Default)
        } else if v == 4 {
            Some(Instruction::End)
        } else {
            None
        }
    }
}

/// What a node of the encoded tree holds.
#[derive(Debug)]
pub enum BinNodeKind {
    Return(u32),
    Jump(Box<BinNode>, Box<BinNode>),
    Match(u32, Box<BinNode>),
    Default(u32, Box<BinNode>),
    End,
}

/// A node of the encoded tree together with its encoded length in bits.
#[derive(Debug)]
pub struct BinNode {
    pub kind: BinNodeKind,
    pub size: usize,
}

/// The number of binary digits of `v`.
fn bit_length_u32(v: u32) -> (n: u32)
    requires
        v <= 0xff,
    ensures
        n == bit_length(v as nat),
        n <= 8,
    decreases v,
{
    proof {
        lemma2_to64();
        lemma_bit_length_bound(v as nat, 8);
    }
    if v == 0 {
        0
    } else {
        1 + bit_length_u32(v / 2)
    }
}

impl BinNode {
    /// The program that the node stands for.
    pub open spec fn code(self) -> Code
        decreases self,
    {
        match self.kind {
            BinNodeKind::Return(v) => Code::Return(v),
            BinNodeKind::Jump(left, right) => Code::Jump(
                Box::new(left.code()),
                Box::new(right.code()),
            ),
            BinNodeKind::Match(v, sub) => Code::Match(v, Box::new(sub.code())),
            BinNodeKind::Default(v, sub) => Code::Default(v, Box::new(sub.code())),
            BinNodeKind::End => Code::End,
        }
    }

    /// Every node knows its length.
    pub open spec fn sized(self) -> bool
        decreases self,
    {
        &&& self.size == self.code().bits().len()
        &&& match self.kind {
            BinNodeKind::Return(_) => true,
            BinNodeKind::Jump(left, right) => left.sized() && right.sized(),
            BinNodeKind::Match(_, sub) => sub.sized(),
            BinNodeKind::Default(_, sub) => sub.sized(),
            BinNodeKind::End => true,
        }
    }

    /// The program is in shape and every node knows its length.
    pub open spec fn wf(self) -> bool {
        self.code().shaped() && self.sized()
    }

    /// The node that answers with the default.
    pub fn end() -> (node: BinNode)
        ensures
            node.wf(),
            node.code() == Code::End,
    {
        BinNode { kind: BinNodeKind::End, size: 0 }
    }

    /// The node that answers with `v`.
    pub fn leaf(v: u32) -> (node: BinNode)
        requires
            v >= 1,
        ensures
            node.wf(),
            node.code() == Code::Return(v),
    {
        let size: usize = CODER_INS.encode_size(Instruction::Return.value())
            + CODER_ASN.encode_size(v);
        BinNode { kind: BinNodeKind::Return(v), size }
    }

    /// A copy of the node.
    pub fn copy(&self) -> (node: BinNode)
        requires
            self.wf(),
        ensures
            node.wf(),
            node.code() == self.code(),
        decreases self,
    {
        let kind = match &self.kind {
            BinNodeKind::Return(v) => BinNodeKind::Return(*v),
            BinNodeKind::Jump(left, right) => BinNodeKind::Jump(
                Box::new(left.copy()),
                Box::new(right.copy()),
            ),
            BinNodeKind::Match(v, sub) => BinNodeKind::Match(*v, Box::new(sub.copy())),
            BinNodeKind::Default(v, sub) => BinNodeKind::Default(*v, Box::new(sub.copy())),
            BinNodeKind::End => BinNodeKind::End,
        };
        BinNode { kind, size: self.size }
    }

    /// Branches on one bit, unless the program cannot be held.
    pub fn branch(left: BinNode, right: BinNode) -> (node: Option<BinNode>)
        requires
            left.wf(),
            right.wf(),
        ensures
            match node {
                Some(n) => {
                    &&& n.wf()
                    &&& n.code() == Code::branch(left.code(), right.code())
                    &&& n.code().held()
                },
                None => !Code::branch(left.code(), right.code()).held(),
            },
    {
        proof {
            lemma_ins_len();
            lemma_code_ops(left.code(), right.code(), 1, 0);
        }
        if let BinNodeKind::End = left.kind {
            if let BinNodeKind::End = right.kind {
                return Some(left);
            }
            let size: usize = right.size;
            if let BinNodeKind::Match(v, sub) = right.kind {
                if v <= 0xff {
                    proof {
                        lemma_merged_operand(v);
                    }
                    return Self::match_node(v + pow2_u32(bit_length_u32(v)), *sub);
                }
                return Self::match_node(3, BinNode { kind: BinNodeKind::Match(v, sub), size });
            }
            return Self::match_node(3, right);
        }
        if let BinNodeKind::End = right.kind {
            let size: usize = left.size;
            if let BinNodeKind::Match(v, sub) = left.kind {
                if v <= 0xff {
                    proof {
                        lemma_merged_operand(v);
                    }
                    return Self::match_node(v + pow2_u32(bit_length_u32(v) - 1), *sub);
                }
                return Self::match_node(2, BinNode { kind: BinNodeKind::Match(v, sub), size });
            }
            return Self::match_node(2, left);
        }
        let skip: u32 = (left.size as u64 % 0x1_0000_0000) as u32;
        if skip < CODER_JUMP.min() {
            return None;
        }
        let own: usize = CODER_INS.encode_size(Instruction::Jump.value())
            + CODER_JUMP.encode_size(skip);
        match left.size.checked_add(right.size) {
            Some(sides) => match sides.checked_add(own) {
                Some(size) => Some(
                    BinNode { kind: BinNodeKind::Jump(Box::new(left), Box::new(right)), size },
                ),
                None => None,
            },
            None => None,
        }
    }

    /// Sets the default for `sub`, where that makes a difference, unless the
    /// program cannot be held.
    pub fn default(v: u32, sub: BinNode) -> (node: Option<BinNode>)
        requires
            v >= 1,
            sub.wf(),
        ensures
            match node {
                Some(n) => {
                    &&& n.wf()
                    &&& n.code() == Code::with_default(v, sub.code())
                    &&& n.code().held()
                },
                None => !Code::with_default(v, sub.code()).held(),
            },
    {
        match sub.kind {
            BinNodeKind::End => Some(Self::leaf(v)),
            BinNodeKind::Return(_) | BinNodeKind::Default(_, _) => Some(sub),
            _ => {
                proof {
                    lemma_ins_len();
                }
                let own: usize = CODER_INS.encode_size(Instruction::Default.value())
                    + CODER_ASN.encode_size(v);
                match sub.size.checked_add(own) {
                    Some(size) => Some(
                        BinNode { kind: BinNodeKind::Default(v, Box::new(sub)), size },
                    ),
                    None => None,
                }
            },
        }
    }

    /// Consumes the bits below the leading one of `v`, unless the program cannot be
    /// held.
    pub fn match_node(v: u32, sub: BinNode) -> (node: Option<BinNode>)
        requires
            2 <= v <= 511,
            sub.wf(),
            sub.code() !is End,
        ensures
            match node {
                Some(n) => {
                    &&& n.wf()
                    &&& n.code() == Code::Match(v, Box::new(sub.code()))
                    &&& n.code().held()
                },
                None => !Code::Match(v, Box::new(sub.code())).held(),
            },
    {
        proof {
            lemma_ins_len();
        }
        let own: usize = CODER_INS.encode_size(Instruction::Match.value())
            + CODER_MATCH.encode_size(v);
        match sub.size.checked_add(own) {
            Some(size) => Some(BinNode { kind: BinNodeKind::Match(v, Box::new(sub)), size }),
            None => None,
        }
    }
}

impl Code {
    /// The program stands in `stream` from `pos` to `end`.
    pub open spec fn stands_at(self, stream: Seq<bool>, pos: int, end: int) -> bool {
        &&& self.encodable()
        &&& 0 <= pos <= end <= stream.len()
        &&& stream.subrange(pos, end) == self.bits()
    }

    /// The number of the program's first instruction.
    pub open spec fn first(self) -> nat {
        match self {
            Code::Return(_) => 0,
            Code::Jump(_, _) => 1,
            Code::Match(_, _) => 2,
            Code::Default(_, _) => 3,
            Code::End => 4,
        }
    }
}

/// A program that can be written is in shape.
pub proof fn lemma_encodable_shaped(code: Code)
    requires
        code.encodable(),
    ensures
        code.shaped(),
    decreases code,
{
    reveal_with_fuel(Code::encodable, 2);
    CODER_ASN.lemma_max_value();
    CODER_MATCH.lemma_max_value();
    match code {
        Code::Jump(left, right) => {
            lemma_encodable_shaped(*left);
            lemma_encodable_shaped(*right);
        },
        Code::Match(_, sub) => {
            lemma_encodable_shaped(*sub);
        },
        Code::Default(_, sub) => {
            lemma_encodable_shaped(*sub);
        },
        _ => {},
    }
}

/// Splits a stretch of the stream that holds two parts one after the other.
proof fn lemma_split(stream: Seq<bool>, pos: int, end: int, first: Seq<bool>, second: Seq<bool>)
    requires
        0 <= pos <= end <= stream.len(),
        stream.subrange(pos, end) == first + second,
    ensures
        pos + first.len() + second.len() == end,
        stream.subrange(pos, pos + first.len()) == first,
        stream.subrange(pos + first.len(), end) == second,
{
    let whole = first + second;
    assert(stream.subrange(pos, end).len() == end - pos);
    assert(stream.subrange(pos, pos + first.len()) =~= first) by {
        assert forall|i: int| 0 <= i < first.len() implies stream.subrange(
            pos,
            pos + first.len(),
        )[i] == first[i] by {
            assert(stream.subrange(pos, end)[i] == whole[i]);
        }
    }
    assert(stream.subrange(pos + first.len(), end) =~= second) by {
        assert forall|i: int| 0 <= i < second.len() implies stream.subrange(
            pos + first.len(),
            end,
        )[i] == second[i] by {
            assert(stream.subrange(pos, end)[first.len() + i] == whole[first.len() + i]);
        }
    }
}

/// Joins two stretches of the stream.
proof fn lemma_join(stream: Seq<bool>, pos: int, mid: int, end: int)
    requires
        0 <= pos <= mid <= end <= stream.len(),
    ensures
        stream.subrange(pos, end) == stream.subrange(pos, mid) + stream.subrange(mid, end),
{
    assert(stream.subrange(pos, end) =~= stream.subrange(pos, mid) + stream.subrange(mid, end));
}

/// The parts of a program that stands in the stream, in order.
proof fn lemma_parts(code: Code, stream: Seq<bool>, pos: int, end: int)
    requires
        code.stands_at(stream, pos, end),
    ensures
        code.first() <= 3,
        ({
            let p1 = pos + CODER_INS.code(code.first()).len();
            &&& CODER_INS.reads(stream, pos, code.first() as int, p1)
            &&& match code {
                Code::Return(v) => CODER_ASN.reads(stream, p1, v as int, end),
                Code::Jump(left, right) => {
                    let p2 = p1 + CODER_JUMP.code(left.bits().len()).len();
                    let p3 = p2 + left.bits().len();
                    &&& CODER_JUMP.reads(stream, p1, left.bits().len() as int, p2)
                    &&& left.stands_at(stream, p2, p3)
                    &&& right.stands_at(stream, p3, end)
                },
                Code::Match(v, sub) => {
                    let p2 = p1 + CODER_MATCH.code(v as nat).len();
                    CODER_MATCH.reads(stream, p1, v as int, p2) && sub.stands_at(stream, p2, end)
                },
                Code::Default(v, sub) => {
                    let p2 = p1 + CODER_ASN.code(v as nat).len();
                    CODER_ASN.reads(stream, p1, v as int, p2) && sub.stands_at(stream, p2, end)
                },
                Code::End => false,
            }
        }),
{
    CODER_INS.lemma_max_value();
    CODER_JUMP.lemma_max_value();
    let ins = CODER_INS.code(code.first());
    let p1 = pos + ins.len();
    match code {
        Code::Return(v) => {
            lemma_split(stream, pos, end, ins, CODER_ASN.code(v as nat));
        },
        Code::Jump(left, right) => {
            let skip = CODER_JUMP.code(left.bits().len());
            let rest = skip + left.bits() + right.bits();
            assert(code.bits() =~= ins + rest);
            lemma_split(stream, pos, end, ins, rest);
            assert(rest =~= skip + (left.bits() + right.bits()));
            lemma_split(stream, p1, end, skip, left.bits() + right.bits());
            lemma_split(stream, p1 + skip.len(), end, left.bits(), right.bits());
        },
        Code::Match(v, sub) => {
            let operand = CODER_MATCH.code(v as nat);
            assert(code.bits() =~= ins + (operand + sub.bits()));
            lemma_split(stream, pos, end, ins, operand + sub.bits());
            lemma_split(stream, p1, end, operand, sub.bits());
        },
        Code::Default(v, sub) => {
            let operand = CODER_ASN.code(v as nat);
            assert(code.bits() =~= ins + (operand + sub.bits()));
            lemma_split(stream, pos, end, ins, operand + sub.bits());
            lemma_split(stream, p1, end, operand, sub.bits());
        },
        Code::End => {},
    }
}

/// Programs are prefix-free: at one place in a stream stands at most one.
pub proof fn lemma_code_unique(
    c1: Code,
    c2: Code,
    stream: Seq<bool>,
    pos: int,
    end1: int,
    end2: int,
)
    requires
        c1.stands_at(stream, pos, end1),
        c2.stands_at(stream, pos, end2),
    ensures
        c1 == c2,
        end1 == end2,
    decreases c1,
{
    lemma_parts(c1, stream, pos, end1);
    lemma_parts(c2, stream, pos, end2);
    let p1 = pos + CODER_INS.code(c1.first()).len();
    CODER_INS.lemma_code_unique(
        stream,
        pos,
        c1.first() as int,
        p1,
        c2.first() as int,
        pos + CODER_INS.code(c2.first()).len(),
    );
    match (c1, c2) {
        (Code::Return(v1), Code::Return(v2)) => {
            CODER_ASN.lemma_code_unique(stream, p1, v1 as int, end1, v2 as int, end2);
        },
        (Code::Jump(l1, r1), Code::Jump(l2, r2)) => {
            let s1 = l1.bits().len();
            let s2 = l2.bits().len();
            let p2 = p1 + CODER_JUMP.code(s1).len();
            CODER_JUMP.lemma_code_unique(
                stream,
                p1,
                s1 as int,
                p2,
                s2 as int,
                p1 + CODER_JUMP.code(s2).len(),
            );
            lemma_code_unique(*l1, *l2, stream, p2, p2 + s1, p2 + s2);
            lemma_code_unique(*r1, *r2, stream, p2 + s1, end1, end2);
        },
        (Code::Match(v1, sub1), Code::Match(v2, sub2)) => {
            let p2 = p1 + CODER_MATCH.code(v1 as nat).len();
            CODER_MATCH.lemma_code_unique(
                stream,
                p1,
                v1 as int,
                p2,
                v2 as int,
                p1 + CODER_MATCH.code(v2 as nat).len(),
            );
            lemma_code_unique(*sub1, *sub2, stream, p2, end1, end2);
        },
        (Code::Default(v1, sub1), Code::Default(v2, sub2)) => {
            let p2 = p1 + CODER_ASN.code(v1 as nat).len();
            CODER_ASN.lemma_code_unique(
                stream,
                p1,
                v1 as int,
                p2,
                v2 as int,
                p1 + CODER_ASN.code(v2 as nat).len(),
            );
            lemma_code_unique(*sub1, *sub2, stream, p2, end1, end2);
        },
        _ => {},
    }
}

impl BinNode {
    /// Appends the program's bits.
    pub fn encode(&self, out: &mut Vec<bool>)
        requires
            self.sized(),
            self.code().encodable(),
        ensures
            final(out)@ == old(out)@ + self.code().bits(),
        decreases self,
    {
        let ghost start = out@;
        proof {
            reveal_with_fuel(BinNode::sized, 2);
            CODER_INS.lemma_max_value();
            CODER_JUMP.lemma_max_value();
        }
        match &self.kind {
            BinNodeKind::Return(v) => {
                CODER_INS.encode(Instruction::Return.value(), out);
                CODER_ASN.encode(*v, out);
            },
            BinNodeKind::Jump(left, right) => {
                assert(left.sized());
                assert(left.size == left.code().bits().len());
                CODER_INS.encode(Instruction::Jump.value(), out);
                CODER_JUMP.encode(left.size as u32, out);
                left.encode(out);
                right.encode(out);
            },
            BinNodeKind::Match(v, sub) => {
                CODER_INS.encode(Instruction::Match.value(), out);
                CODER_MATCH.encode(*v, out);
                sub.encode(out);
            },
            BinNodeKind::Default(v, sub) => {
                CODER_INS.encode(Instruction::Default.value(), out);
                CODER_ASN.encode(*v, out);
                sub.encode(out);
            },
            BinNodeKind::End => {},
        }
        assert(out@ =~= start + self.code().bits());
    }

    /// Reads the program that stands at `pos`, and the position after it.
    #[verifier::rlimit(40)]
    pub fn decode(stream: &[bool], pos: usize) -> (read: Option<(BinNode, usize)>)
        requires
            pos <= stream@.len(),
        ensures
            match read {
                Some((node, end)) => {
                    &&& node.sized()
                    &&& node.code().stands_at(stream@, pos as int, end as int)
                },
                None => forall|code: Code, end: int|
                    !(#[trigger] code.stands_at(stream@, pos as int, end)),
            },
        decreases stream@.len() - pos, 0int,
    {
        let ghost s = stream@;
        let ghost p0 = pos as int;
        proof {
            lemma_ins_len();
            CODER_INS.lemma_max_value();
            CODER_JUMP.lemma_max_value();
        }
        let (value, p1) = match CODER_INS.decode(stream, pos) {
            Some(r) => r,
            None => {
                proof {
                    assert forall|code: Code, end: int| !(#[trigger] code.stands_at(s, p0, end)) by {
                        if code.stands_at(s, p0, end) {
                            lemma_parts(code, s, p0, end);
                        }
                    }
                }
                return None;
            },
        };
        assert(s.subrange(p0, p1 as int) == CODER_INS.code(value as nat));
        assert(p1 > pos);
        proof {
            // Whatever stands here starts with the instruction just read.
            assert forall|code: Code, end: int| #[trigger] code.stands_at(s, p0, end) implies
                code.first() == value && p1 == p0 + CODER_INS.code(code.first()).len() by {
                lemma_parts(code, s, p0, end);
                CODER_INS.lemma_code_unique(
                    s,
                    p0,
                    value as int,
                    p1 as int,
                    code.first() as int,
                    p0 + CODER_INS.code(code.first()).len(),
                );
            }
        }
        match Instruction::from_value(value) {
            Some(Instruction::Return) => match CODER_ASN.decode(stream, p1) {
                Some((asn, end)) => {
                    let node = BinNode { kind: BinNodeKind::Return(asn), size: end - pos };
                    proof {
                        lemma_join(s, p0, p1 as int, end as int);
                    }
                    Some((node, end))
                },
                None => {
                    proof {
                        assert forall|code: Code, end: int|
                            !(#[trigger] code.stands_at(s, p0, end)) by {
                            if code.stands_at(s, p0, end) {
                                lemma_parts(code, s, p0, end);
                            }
                        }
                    }
                    None
                },
            },
            Some(Instruction::Jump) => Self::decode_jump(stream, pos, p1),
            Some(Instruction::Match) => match CODER_MATCH.decode(stream, p1) {
                Some((operand, p2)) => match Self::decode(stream, p2) {
                    Some((sub, end)) => {
                        proof {
                            lemma_join(s, p0, p1 as int, end as int);
                            lemma_join(s, p1 as int, p2 as int, end as int);
                        }
                        let node = BinNode {
                            kind: BinNodeKind::Match(operand, Box::new(sub)),
                            size: end - pos,
                        };
                        assert(s.subrange(p0, end as int) =~= node.code().bits());
                        Some((node, end))
                    },
                    None => {
                        proof {
                            assert forall|code: Code, end: int|
                                !(#[trigger] code.stands_at(s, p0, end)) by {
                                if code.stands_at(s, p0, end) {
                                    lemma_parts(code, s, p0, end);
                                    if let Code::Match(v, sub) = code {
                                        CODER_MATCH.lemma_code_unique(
                                            s,
                                            p1 as int,
                                            operand as int,
                                            p2 as int,
                                            v as int,
                                            p1 + CODER_MATCH.code(v as nat).len(),
                                        );
                                        assert(sub.stands_at(s, p2 as int, end));
                                    }
                                }
                            }
                        }
                        None
                    },
                },
                None => {
                    proof {
                        assert forall|code: Code, end: int|
                            !(#[trigger] code.stands_at(s, p0, end)) by {
                            if code.stands_at(s, p0, end) {
                                lemma_parts(code, s, p0, end);
                            }
                        }
                    }
                    None
                },
            },
            Some(Instruction::Default) => match CODER_ASN.decode(stream, p1) {
                Some((operand, p2)) => match Self::decode(stream, p2) {
                    Some((sub, end)) => {
                        proof {
                            lemma_join(s, p0, p1 as int, end as int);
                            lemma_join(s, p1 as int, p2 as int, end as int);
                        }
                        let node = BinNode {
                            kind: BinNodeKind::Default(operand, Box::new(sub)),
                            size: end - pos,
                        };
                        assert(s.subrange(p0, end as int) =~= node.code().bits());
                        Some((node, end))
                    },
                    None => {
                        proof {
                            assert forall|code: Code, end: int|
                                !(#[trigger] code.stands_at(s, p0, end)) by {
                                if code.stands_at(s, p0, end) {
                                    lemma_parts(code, s, p0, end);
                                    if let Code::Default(v, sub) = code {
                                        CODER_ASN.lemma_code_unique(
                                            s,
                                            p1 as int,
                                            operand as int,
                                            p2 as int,
                                            v as int,
                                            p1 + CODER_ASN.code(v as nat).len(),
                                        );
                                        assert(sub.stands_at(s, p2 as int, end));
                                    }
                                }
                            }
                        }
                        None
                    },
                },
                None => {
                    proof {
                        assert forall|code: Code, end: int|
                            !(#[trigger] code.stands_at(s, p0, end)) by {
                            if code.stands_at(s, p0, end) {
                                lemma_parts(code, s, p0, end);
                            }
                        }
                    }
                    None
                },
            },
            _ => None,
        }
    }

    /// Reads the operands of a jump whose instruction stands from `pos` to `p1`.
    #[verifier::rlimit(40)]
    fn decode_jump(stream: &[bool], pos: usize, p1: usize) -> (read: Option<(BinNode, usize)>)
        requires
            pos < p1 <= stream@.len(),
            CODER_INS.reads(stream@, pos as int, 1, p1 as int),
        ensures
            match read {
                Some((node, end)) => {
                    &&& node.sized()
                    &&& node.code().stands_at(stream@, pos as int, end as int)
                },
                None => forall|code: Code, end: int|
                    !(#[trigger] code.stands_at(stream@, pos as int, end)),
            },
        decreases stream@.len() - p1, 1int,
    {
        let ghost s = stream@;
        let ghost p0 = pos as int;
        proof {
            CODER_JUMP.lemma_max_value();
            // Whatever stands here is a jump.
            assert forall|code: Code, end: int| #[trigger] code.stands_at(s, p0, end) implies
                code is Jump && p1 == p0 + CODER_INS.code(1).len() by {
                lemma_parts(code, s, p0, end);
                CODER_INS.lemma_code_unique(
                    s,
                    p0,
                    1,
                    p1 as int,
                    code.first() as int,
                    p0 + CODER_INS.code(code.first()).len(),
                );
            }
        }
        let (jump, p2) = match CODER_JUMP.decode(stream, p1) {
            Some(r) => r,
            None => {
                proof {
                    assert forall|code: Code, end: int|
                        !(#[trigger] code.stands_at(s, p0, end)) by {
                        if code.stands_at(s, p0, end) {
                            lemma_parts(code, s, p0, end);
                        }
                    }
                }
                return None;
            },
        };
        proof {
            // Whatever stands here skips as far as was just read.
            assert forall|code: Code, end: int| #[trigger] code.stands_at(s, p0, end) implies
                code is Jump && code->Jump_0.bits().len() == jump && code->Jump_0.stands_at(
                s,
                p2 as int,
                p2 + jump,
            ) && code->Jump_1.stands_at(s, p2 + jump, end) by {
                lemma_parts(code, s, p0, end);
                let len = code->Jump_0.bits().len();
                CODER_JUMP.lemma_code_unique(
                    s,
                    p1 as int,
                    jump as int,
                    p2 as int,
                    len as int,
                    p1 + CODER_JUMP.code(len).len(),
                );
            }
        }
        let (left, p3) = match Self::decode(stream, p2) {
            Some(r) => r,
            None => {
                return None;
            },
        };
        if p3 - p2 != jump as usize {
            proof {
                assert forall|code: Code, end: int| !(#[trigger] code.stands_at(s, p0, end)) by {
                    if code.stands_at(s, p0, end) {
                        lemma_code_unique(
                            left.code(),
                            *code->Jump_0,
                            s,
                            p2 as int,
                            p3 as int,
                            p2 + jump,
                        );
                    }
                }
            }
            return None;
        }
        let (right, end) = match Self::decode(stream, p3) {
            Some(r) => r,
            None => {
                return None;
            },
        };
        proof {
            lemma_join(s, p0, p1 as int, end as int);
            lemma_join(s, p1 as int, p2 as int, end as int);
            lemma_join(s, p2 as int, p3 as int, end as int);
        }
        let node = BinNode {
            kind: BinNodeKind::Jump(Box::new(left), Box::new(right)),
            size: end - pos,
        };
        assert(s.subrange(p0, end as int) =~= node.code().bits());
        Some((node, end))
    }

    /// The trie that the program describes where the default is `default`;
    /// `None` where `End` stands in it.
    pub fn into_trie(self, default: u32) -> (trie: Option<TrieNode>)
        ensures
            match trie {
                Some(t) => self.code() !is End && self.code().no_inner_end() && t
                    == self.code().expand(default),
                None => self.code() is End || !self.code().no_inner_end(),
            },
        decreases self,
    {
        match self.kind {
            BinNodeKind::Return(v) => Some(TrieNode::Leaf(v)),
            BinNodeKind::Jump(left, right) => {
                let left = match left.into_trie(default) {
                    Some(t) => t,
                    None => {
                        return None;
                    },
                };
                let right = match right.into_trie(default) {
                    Some(t) => t,
                    None => {
                        return None;
                    },
                };
                Some(TrieNode::branch(left, right))
            },
            BinNodeKind::Match(v, sub) => {
                let mut trie = match sub.into_trie(default) {
                    Some(t) => t,
                    None => {
                        return None;
                    },
                };
                let mut val: u32 = v;
                let ghost whole = matched(v as nat, trie, default);
                while val >= 2
                    invariant
                        whole == matched(val as nat, trie, default),
                    decreases val,
                {
                    let bit: u32 = val % 2;
                    val = val / 2;
                    trie = if bit != 0 {
                        TrieNode::branch(TrieNode::Leaf(default), trie)
                    } else {
                        TrieNode::branch(trie, TrieNode::Leaf(default))
                    };
                }
                Some(trie)
            },
            BinNodeKind::Default(v, sub) => sub.into_trie(v),
            BinNodeKind::End => None,
        }
    }
}

impl Code {
    /// `End` stands nowhere below the root.
    pub open spec fn no_inner_end(self) -> bool
        decreases self,
    {
        match self {
            Code::Jump(left, right) => {
                &&& *left !is End && left.no_inner_end()
                &&& *right !is End && right.no_inner_end()
            },
            Code::Match(_, sub) => *sub !is End && sub.no_inner_end(),
            Code::Default(_, sub) => *sub !is End && sub.no_inner_end(),
            _ => true,
        }
    }
}

/// The bits of a program, instruction by instruction. `Return` is a zero, `Jump` a
/// one and a zero, `Match` two ones and a zero, `Default` three ones; the operand
/// follows, and behind it what the instruction governs. A jump's operand is the
/// length of its left side.
pub proof fn instructions_are_written_with_their_operands(v: u32, left: Code, right: Code)
    ensures
        Code::Return(v).bits() == seq![false] + VarLenCoder::Asn.code(v as nat),
        left.bits().len() <= 0xffff_ffff ==> Code::Jump(Box::new(left), Box::new(right)).bits()
            == seq![true, false] + VarLenCoder::Jump.code(left.bits().len()) + left.bits()
            + right.bits(),
        Code::Match(v, Box::new(left)).bits() == seq![true, true, false] + VarLenCoder::Match.code(
            v as nat,
        ) + left.bits(),
        Code::Default(v, Box::new(left)).bits() == seq![true, true, true] + VarLenCoder::Asn.code(
            v as nat,
        ) + left.bits(),
        Code::End.bits() == Seq::<bool>::empty(),
{
    let ins = VarLenCoder::Ins;
    lemma2_to64();
    reveal_with_fuel(VarLenCoder::code_from, 3);
    reveal_with_fuel(be_bits, 2);
    let (two, three) = (ins.code(2), ins.code(3));
    assert(ins.code_from(0, 2) =~= seq![false]);
    assert(ins.code_from(1, 2) =~= seq![true]);
    assert(ins.code_from(1, 1) =~= seq![true, false]);
    assert(ins.code_from(2, 1) =~= seq![true, true]);
    assert(ins.code(0) =~= seq![false]);
    assert(ins.code(1) =~= seq![true, false]);
    assert(two =~= seq![true, true, false]);
    assert(three =~= seq![true, true, true]);
    reveal_with_fuel(Code::bits, 2);
}

/// What a program answers, instruction by instruction: `Return` its number, `Jump`
/// what the side for the next address bit answers, the left one for a zero,
/// `Default` what it governs answers under the new default, and `End` the default.
pub proof fn instructions_answer(
    v: u32,
    left: Code,
    right: Code,
    default: u32,
    path: spec_fn(int) -> bool,
    depth: int,
)
    ensures
        Code::Return(v).expand(default).value(path, depth) == v,
        Code::End.expand(default).value(path, depth) == default,
        Code::Default(v, Box::new(left)).expand(default).value(path, depth) == left.expand(
            v,
        ).value(path, depth),
        Code::Jump(Box::new(left), Box::new(right)).expand(default).value(path, depth) == if path(
            depth,
        ) {
            right.expand(default).value(path, depth + 1)
        } else {
            left.expand(default).value(path, depth + 1)
        },
{
    reveal_with_fuel(Code::expand, 2);
    lemma_joined(left.expand(default), right.expand(default), path, depth);
}

/// The bits below the leading one of `v` stand on the path.
spec fn on_path(v: nat, n: nat, path: spec_fn(int) -> bool, depth: int) -> bool {
    forall|i: nat|
        i < n ==> #[trigger] path(depth + i) == ((v / pow2((n - 1 - i) as nat)) % 2 == 1)
}

proof fn lemma_matched_value(
    v: nat,
    n: nat,
    sub: TrieNode,
    default: u32,
    path: spec_fn(int) -> bool,
    depth: int,
)
    requires
        pow2(n) <= v < pow2(n + 1),
    ensures
        matched(v, sub, default).value(path, depth) == if on_path(v, n, path, depth) {
            sub.value(path, depth + n)
        } else {
            default
        },
    decreases n,
{
    lemma2_to64();
    lemma_pow2_unfold(n + 1);
    if n > 0 {
        let less = (n - 1) as nat;
        lemma_pow2_unfold(n);
        lemma_pow2_pos(less);
        let bit = v % 2 == 1;
        let inner = if bit {
            TrieNode::joined(TrieNode::Leaf(default), sub)
        } else {
            TrieNode::joined(sub, TrieNode::Leaf(default))
        };
        assert(v >= 2) by {
            lemma_pow2_pos(less);
        }
        lemma_matched_value(v / 2, less, inner, default, path, depth);
        if bit {
            lemma_joined(TrieNode::Leaf(default), sub, path, depth + less);
        } else {
            lemma_joined(sub, TrieNode::Leaf(default), path, depth + less);
        }
        assert forall|i: nat| i < less implies (v / 2) / #[trigger] pow2((less - 1 - i) as nat) == v
            / pow2((n - 1 - i) as nat) by {
            let k = (less - 1 - i) as nat;
            lemma_pow2_unfold(k + 1);
            lemma_pow2_pos(k);
            lemma_div_denominator(v as int, 2, pow2(k) as int);
        }
        assert(v / pow2(0) == v) by {
            assert(v / 1 == v);
        }
        if on_path(v, n, path, depth) {
            assert forall|i: nat| i < less implies #[trigger] path(depth + i) == (((v / 2) / pow2(
                (less - 1 - i) as nat,
            )) % 2 == 1) by {
                assert(path(depth + i) == ((v / pow2((n - 1 - i) as nat)) % 2 == 1));
            }
            assert(on_path(v / 2, less, path, depth));
            assert(path(depth + less) == ((v / pow2((n - 1 - less) as nat)) % 2 == 1));
        } else if on_path(v / 2, less, path, depth) && path(depth + less) == bit {
            assert forall|i: nat| i < n implies #[trigger] path(depth + i) == ((v / pow2(
                (n - 1 - i) as nat,
            )) % 2 == 1) by {
                if i < less {
                    assert(path(depth + i) == (((v / 2) / pow2((less - 1 - i) as nat)) % 2 == 1));
                }
            }
        }
    } else {
        assert(v == 1);
    }
}

/// What `Match` answers: where the next address bits are those of its operand
/// below the leading one, most significant first, what it governs answers behind
/// them, and else the default.
pub proof fn matches_compare_the_next_bits(
    v: u32,
    n: nat,
    sub: Code,
    default: u32,
    path: spec_fn(int) -> bool,
    depth: int,
)
    requires
        pow2(n) <= v < pow2(n + 1),
    ensures
        Code::Match(v, Box::new(sub)).expand(default).value(path, depth) == if forall|i: nat|
            i < n ==> #[trigger] path(depth + i) == ((v as nat / pow2((n - 1 - i) as nat)) % 2
                == 1) {
            sub.expand(default).value(path, depth + n)
        } else {
            default
        },
{
    reveal_with_fuel(Code::expand, 2);
    lemma_matched_value(v as nat, n, sub.expand(default), default, path, depth);
}

/// Which programs can be written and read: every number from 1 to 33,521,664,
/// every match operand from 2 to 511, every left side of a jump from 17 to
/// 2,147,483,632 bits long, and something behind every instruction but `Return`.
pub proof fn programs_have_codes_throughout(v: u32, left: Code, right: Code)
    ensures
        Code::Return(v).encodable() == (1 <= v <= 33_521_664),
        Code::Jump(Box::new(left), Box::new(right)).encodable() == (17 <= left.bits().len()
            <= 2_147_483_632 && left.encodable() && right.encodable()),
        Code::Match(v, Box::new(left)).encodable() == (2 <= v <= 511 && left.encodable()),
        Code::Default(v, Box::new(left)).encodable() == (1 <= v <= 33_521_664
            && left.encodable()),
        !Code::End.encodable(),
{
    encodable_numbers_lie_between(VarLenCoder::Asn, v as int);
    encodable_numbers_lie_between(VarLenCoder::Match, v as int);
    encodable_numbers_lie_between(VarLenCoder::Jump, left.bits().len() as int);
    reveal_with_fuel(Code::encodable, 2);
}

} // verus!
