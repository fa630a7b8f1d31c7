//! Wire-format primitives: the variable-length integer codes and the tree of
//! encoded nodes.

use vstd::arithmetic::div_mod::lemma_div_denominator;
use vstd::arithmetic::power2::{
    lemma2_to64, lemma_pow2_pos, lemma_pow2_strictly_increases, lemma_pow2_unfold, pow2,
};
use vstd::bits::{lemma_u32_pow2_no_overflow, lemma_u32_shl_is_mul, lemma_u32_shr_is_div};
use vstd::prelude::*;

verus! {

/// `v` written with `width` bits, most significant first.
pub open spec fn be_bits(v: nat, width: nat) -> Seq<bool>
    decreases width,
{
    if width == 0 {
        Seq::empty()
    } else {
        be_bits(v / 2, (width - 1) as nat).push(v % 2 == 1)
    }
}

/// The number that `bits`, most significant first, write.
pub open spec fn be_value(bits: Seq<bool>) -> nat
    decreases bits.len(),
{
    if bits.len() == 0 {
        0
    } else {
        2 * be_value(bits.drop_last()) + if bits.last() {
            1nat
        } else {
            0nat
        }
    }
}

/// A variable-length code for integers. Values are split into classes of
/// `2^width` consecutive values each; a value is written as a unary class
/// number followed by its position in the class.
#[derive(Debug, Clone, Copy, PartialEq, Eq)]
pub enum VarLenCoder {
    /// Instruction numbers.
    Ins,
    /// Autonomous system numbers.
    Asn,
    /// Runs of matched address bits, with a leading one.
    Match,
    /// Lengths of skipped left subtrees, in bits.
    Jump,
}

impl VarLenCoder {
    /// The smallest encodable value.
    pub open spec fn min_value(self) -> nat {
        match self {
            VarLenCoder::Ins => 0,
            VarLenCoder::Asn => 1,
            VarLenCoder::Match => 2,
            VarLenCoder::Jump => 17,
        }
    }

    /// The number of classes.
    pub open spec fn class_count(self) -> nat {
        match self {
            VarLenCoder::Ins => 3,
            VarLenCoder::Asn => 10,
            VarLenCoder::Match => 8,
            VarLenCoder::Jump => 26,
        }
    }

    /// The number of position bits in class `k`.
    pub open spec fn class_width(self, k: nat) -> nat {
        match self {
            VarLenCoder::Ins => if k < 2 {
                0
            } else {
                1
            },
            VarLenCoder::Asn => 15 + k,
            VarLenCoder::Match => 1 + k,
            VarLenCoder::Jump => 5 + k,
        }
    }

    /// The number of values in class `k` and those after it.
    pub open spec fn span(self, k: nat) -> nat
        decreases self.class_count() - k,
    {
        if k >= self.class_count() {
            0
        } else {
            pow2(self.class_width(k)) + self.span(k + 1)
        }
    }

    /// The largest encodable value.
    pub open spec fn max_value(self) -> int {
        self.min_value() + self.span(0) - 1
    }

    /// Whether `v` has a code.
    pub open spec fn encodable(self, v: int) -> bool {
        self.min_value() <= v <= self.max_value()
    }

    /// The code of the value that lies `rest` above the start of class `k`.
    pub open spec fn code_from(self, rest: nat, k: nat) -> Seq<bool>
        decreases self.class_count() - k,
    {
        let width = self.class_width(k);
        let last = k + 1 >= self.class_count();
        if rest < pow2(width) {
            if last {
                be_bits(rest, width)
            } else {
                seq![false] + be_bits(rest, width)
            }
        } else {
            let above = (rest - pow2(width)) as nat;
            seq![true] + if last {
                be_bits(above, width)
            } else {
                self.code_from(above, k + 1)
            }
        }
    }

    /// The code of `v`.
    pub open spec fn code(self, v: nat) -> Seq<bool> {
        self.code_from((v - self.min_value()) as nat, 0)
    }

    pub(crate) fn min(self) -> (v: u32)
        ensures
            v == self.min_value(),
    {
        match self {
            VarLenCoder::Ins => 0,
            VarLenCoder::Asn => 1,
            VarLenCoder::Match => 2,
            VarLenCoder::Jump => 17,
        }
    }

    fn max(self) -> (v: u32)
        ensures
            v == self.max_value(),
    {
        proof {
            self.lemma_max_value();
        }
        match self {
            VarLenCoder::Ins => 3,
            VarLenCoder::Asn => 33_521_664,
            VarLenCoder::Match => 511,
            VarLenCoder::Jump => 2_147_483_632,
        }
    }

    fn classes(self) -> (n: u32)
        ensures
            n == self.class_count(),
    {
        match self {
            VarLenCoder::Ins => 3,
            VarLenCoder::Asn => 10,
            VarLenCoder::Match => 8,
            VarLenCoder::Jump => 26,
        }
    }

    fn width(self, k: u32) -> (w: u32)
        requires
            k < self.class_count(),
        ensures
            w == self.class_width(k as nat),
            w <= 30,
    {
        match self {
            VarLenCoder::Ins => if k < 2 {
                0
            } else {
                1
            },
            VarLenCoder::Asn => 15 + k,
            VarLenCoder::Match => 1 + k,
            VarLenCoder::Jump => 5 + k,
        }
    }

    /// Whether `val` has a code.
    pub fn can_encode(self, val: u32) -> (r: bool)
        ensures
            r == self.encodable(val as int),
    {
        self.min() <= val && val <= self.max()
    }

    /// The length in bits of the code of `val`.
    pub fn encode_size(self, val: u32) -> (size: usize)
        requires
            self.min_value() <= val,
        ensures
            size == self.code(val as nat).len(),
            size <= 56,
    {
        let mut rest: u32 = val - self.min();
        let mut k: u32 = 0;
        let n: u32 = self.classes();
        proof {
            lemma2_to64();
        }
        while k < n
            invariant
                k < n == self.class_count() <= 26,
                self.code(val as nat).len() == k + self.code_from(rest as nat, k as nat).len(),
            decreases n - k,
        {
            let w: u32 = self.width(k);
            let size: u32 = pow2_u32(w);
            if rest < size {
                proof {
                    lemma_be_bits_len(rest as nat, w as nat);
                }
                if k + 1 < n {
                    return (k + 1 + w) as usize;
                }
                return (k + w) as usize;
            }
            rest = rest - size;
            if k + 1 >= n {
                proof {
                    lemma_be_bits_len(rest as nat, w as nat);
                }
                return (k + 1 + w) as usize;
            }
            k = k + 1;
        }
        0
    }

    /// Appends the code of `val`.
    pub fn encode(self, val: u32, out: &mut Vec<bool>)
        requires
            self.encodable(val as int),
        ensures
            final(out)@ == old(out)@ + self.code(val as nat),
    {
        let mut rest: u32 = val - self.min();
        let mut k: u32 = 0;
        let n: u32 = self.classes();
        while k < n
            invariant
                k < n == self.class_count() <= 26,
                old(out)@ + self.code(val as nat) == out@ + self.code_from(rest as nat, k as nat),
            decreases n - k,
        {
            let w: u32 = self.width(k);
            let size: u32 = pow2_u32(w);
            let ghost before = out@;
            if rest < size {
                if k + 1 < n {
                    out.push(false);
                }
                push_be_bits(rest, w, out);
                assert(out@ =~= before + self.code_from(rest as nat, k as nat));
                return;
            }
            out.push(true);
            let ghost above = rest;
            rest = rest - size;
            if k + 1 >= n {
                push_be_bits(rest, w, out);
                assert(out@ =~= before + self.code_from(above as nat, k as nat));
                return;
            }
            assert(before + self.code_from(above as nat, k as nat) =~= out@ + self.code_from(
                rest as nat,
                (k + 1) as nat,
            ));
            k = k + 1;
        }
    }

    /// Reads the value whose code stands at `pos`, and the position after it.
    pub fn decode(self, stream: &[bool], pos: usize) -> (read: Option<(u32, usize)>)
        requires
            pos <= stream@.len(),
        ensures
            match read {
                Some((val, end)) => self.reads(stream@, pos as int, val as int, end as int),
                None => forall|val: int, end: int| !self.reads(stream@, pos as int, val, end),
            },
    {
        let r = self.decode_from(stream, pos, 0);
        proof {
            self.lemma_max_value();
        }
        match r {
            Some((rest, end)) => Some((self.min() + rest, end)),
            None => {
                assert forall|val: int, end: int| !self.reads(stream@, pos as int, val, end) by {
                    if self.reads(stream@, pos as int, val, end) {
                        let rest = (val - self.min_value()) as nat;
                        assert(stream@.subrange(pos as int, end) == self.code_from(rest, 0));
                    }
                }
                None
            },
        }
    }

    /// The code of `val` stands in `stream` from `pos` to `end`.
    pub open spec fn reads(self, stream: Seq<bool>, pos: int, val: int, end: int) -> bool {
        &&& self.encodable(val)
        &&& 0 <= pos <= end <= stream.len()
        &&& stream.subrange(pos, end) == self.code(val as nat)
    }

    fn decode_from(self, stream: &[bool], pos: usize, k: u32) -> (read: Option<(u32, usize)>)
        requires
            pos <= stream@.len(),
            k < self.class_count(),
        ensures
            match read {
                Some((rest, end)) => {
                    &&& rest < self.span(k as nat)
                    &&& pos <= end <= stream@.len()
                    &&& stream@.subrange(pos as int, end as int) == self.code_from(
                        rest as nat,
                        k as nat,
                    )
                },
                None => forall|rest: nat, end: int|
                    rest < self.span(k as nat) && pos <= end <= stream@.len()
                        ==> #[trigger] stream@.subrange(pos as int, end)
                        != #[trigger] self.code_from(rest, k as nat),
            },
        decreases self.class_count() - k,
    {
        let w: u32 = self.width(k);
        let n: u32 = self.classes();
        proof {
            self.lemma_max_value();
            self.lemma_span_bound(k as nat);
        }
        let size: u32 = pow2_u32(w);
        if k + 1 >= n {
            assert(self.span((k + 1) as nat) == 0);
            let r = read_be_bits(stream, pos, w);
            proof {
                if r is None {
                    assert forall|rest: nat, end: int|
                        rest < self.span(k as nat) && pos <= end
                            <= stream@.len() implies #[trigger] stream@.subrange(pos as int, end)
                        != #[trigger] self.code_from(rest, k as nat) by {
                        lemma_be_bits_len(rest, w as nat);
                    }
                }
            }
            return r;
        }
        if pos >= stream.len() {
            proof {
                assert forall|rest: nat, end: int|
                    rest < self.span(k as nat) && pos <= end <= stream@.len() implies #[trigger] stream@.subrange(
                    pos as int, end) != #[trigger] self.code_from(rest, k as nat) by {
                    assert(self.code_from(rest, k as nat).len() > 0);
                }
            }
            return None;
        }
        if stream[pos] {
            let r = self.decode_from(stream, pos + 1, k + 1);
            proof {
                assert forall|rest: nat, end: int|
                    pos <= end <= stream@.len() && #[trigger] stream@.subrange(pos as int, end)
                        == #[trigger] self.code_from(rest, k as nat) implies rest >= size && pos < end
                    && stream@.subrange(pos + 1, end) == self.code_from(
                    (rest - size) as nat,
                    (k + 1) as nat,
                ) by {
                    let code = self.code_from(rest, k as nat);
                    assert(code.len() > 0);
                    assert(stream@.subrange(pos as int, end)[0] == stream@[pos as int]);
                    assert(code[0]);
                    assert(rest >= size);
                    assert(code =~= seq![true] + self.code_from(
                        (rest - size) as nat,
                        (k + 1) as nat,
                    ));
                    assert(stream@.subrange(pos + 1, end) =~= code.subrange(1, code.len() as int));
                    assert(code.subrange(1, code.len() as int) =~= self.code_from(
                        (rest - size) as nat,
                        (k + 1) as nat,
                    ));
                }
            }
            match r {
                Some((rest, end)) => {
                    assert(stream@.subrange(pos as int, end as int) =~= seq![true]
                        + stream@.subrange(pos + 1, end as int));
                    Some((rest + size, end))
                },
                None => None,
            }
        } else {
            let r = read_be_bits(stream, pos + 1, w);
            proof {
                assert forall|rest: nat, end: int|
                    pos <= end <= stream@.len() && #[trigger] stream@.subrange(pos as int, end)
                        == #[trigger] self.code_from(rest, k as nat) implies end == pos + 1
                    + w by {
                    let code = self.code_from(rest, k as nat);
                    assert(code.len() > 0);
                    assert(stream@.subrange(pos as int, end)[0] == stream@[pos as int]);
                    assert(!code[0]);
                    lemma_be_bits_len(rest, w as nat);
                }
                if let Some((rest, end)) = r {
                    assert(stream@.subrange(pos as int, end as int) =~= seq![false]
                        + stream@.subrange(pos + 1, end as int));
                }
            }
            r
        }
    }

    /// The values of the class spans, in closed form.
    pub proof fn lemma_max_value(self)
        ensures
            self.max_value() == match self {
                VarLenCoder::Ins => 3int,
                VarLenCoder::Asn => 33_521_664int,
                VarLenCoder::Match => 511int,
                VarLenCoder::Jump => 2_147_483_632int,
            },
    {
        lemma2_to64();
        match self {
            VarLenCoder::Ins => {
                reveal_with_fuel(VarLenCoder::span, 4);
            },
            _ => {
                self.lemma_span(0);
            },
        }
    }

    proof fn lemma_span(self, k: nat)
        requires
            self !is Ins,
            k <= self.class_count(),
        ensures
            self.span(k) == pow2(self.class_width(self.class_count())) - pow2(
                self.class_width(k),
            ),
            pow2(self.class_width(self.class_count())) >= pow2(self.class_width(k)),
        decreases self.class_count() - k,
    {
        if k < self.class_count() {
            self.lemma_span(k + 1);
            lemma_pow2_unfold(self.class_width(k + 1));
        }
    }

    proof fn lemma_span_bound(self, k: nat)
        ensures
            self.span(k) <= self.span(0),
        decreases k,
    {
        if k > 0 {
            self.lemma_span_bound((k - 1) as nat);
        }
    }

    /// No code is a proper beginning of another.
    pub proof fn lemma_code_unique(
        self,
        stream: Seq<bool>,
        pos: int,
        v1: int,
        end1: int,
        v2: int,
        end2: int,
    )
        requires
            self.reads(stream, pos, v1, end1),
            self.reads(stream, pos, v2, end2),
        ensures
            v1 == v2,
            end1 == end2,
    {
        let r1 = (v1 - self.min_value()) as nat;
        let r2 = (v2 - self.min_value()) as nat;
        self.lemma_code_from_unique(stream, pos, r1, end1, r2, end2, 0);
    }

    proof fn lemma_code_from_unique(
        self,
        stream: Seq<bool>,
        pos: int,
        r1: nat,
        end1: int,
        r2: nat,
        end2: int,
        k: nat,
    )
        requires
            k < self.class_count(),
            r1 < self.span(k),
            r2 < self.span(k),
            0 <= pos <= end1 <= stream.len(),
            0 <= pos <= end2 <= stream.len(),
            stream.subrange(pos, end1) == self.code_from(r1, k),
            stream.subrange(pos, end2) == self.code_from(r2, k),
        ensures
            r1 == r2,
            end1 == end2,
        decreases self.class_count() - k,
    {
        let width = self.class_width(k);
        let size = pow2(width);
        let c1 = self.code_from(r1, k);
        let c2 = self.code_from(r2, k);
        lemma_be_bits_len(r1, width);
        lemma_be_bits_len(r2, width);
        if k + 1 >= self.class_count() {
            assert(self.span(k + 1) == 0);
            lemma_be_value(r1, width);
            lemma_be_value(r2, width);
        } else {
            assert(c1.len() > 0 && c2.len() > 0);
            assert(stream.subrange(pos, end1)[0] == stream[pos]);
            assert(stream.subrange(pos, end2)[0] == stream[pos]);
            let t1 = c1.subrange(1, c1.len() as int);
            let t2 = c2.subrange(1, c2.len() as int);
            assert(stream.subrange(pos + 1, end1) =~= t1);
            assert(stream.subrange(pos + 1, end2) =~= t2);
            if stream[pos] {
                assert(c1[0] && c2[0]);
                assert(t1 =~= self.code_from((r1 - size) as nat, k + 1));
                assert(t2 =~= self.code_from((r2 - size) as nat, k + 1));
                self.lemma_code_from_unique(
                    stream,
                    pos + 1,
                    (r1 - size) as nat,
                    end1,
                    (r2 - size) as nat,
                    end2,
                    k + 1,
                );
            } else {
                assert(!c1[0] && !c2[0]);
                assert(t1 =~= be_bits(r1, width));
                assert(t2 =~= be_bits(r2, width));
                lemma_be_value(r1, width);
                lemma_be_value(r2, width);
            }
        }
    }
}

pub const CODER_INS: VarLenCoder = VarLenCoder::Ins;

pub const CODER_ASN: VarLenCoder = VarLenCoder::Asn;

pub const CODER_MATCH: VarLenCoder = VarLenCoder::Match;

pub const CODER_JUMP: VarLenCoder = VarLenCoder::Jump;

/// Decoding gives back what encoding wrote: wherever the code of a value
/// stands, that value and the position behind its code are the only ones that
/// can be read.
pub proof fn decoding_inverts_encoding(
    coder: VarLenCoder,
    before: Seq<bool>,
    after: Seq<bool>,
    val: int,
)
    requires
        coder.encodable(val),
    ensures
        ({
            let stream = before + coder.code(val as nat) + after;
            let end = before.len() + coder.code(val as nat).len();
            &&& coder.reads(stream, before.len() as int, val, end as int)
            &&& forall|v: int, e: int|
                coder.reads(stream, before.len() as int, v, e) ==> v == val && e == end
        }),
{
    let code = coder.code(val as nat);
    let stream = before + code + after;
    let end = (before.len() + code.len()) as int;
    assert(stream.subrange(before.len() as int, end) =~= code);
    assert forall|v: int, e: int| coder.reads(stream, before.len() as int, v, e) implies v == val
        && e == end by {
        coder.lemma_code_unique(stream, before.len() as int, v, e, val, end);
    }
}

/// `2^w` for a width that fits.
pub(crate) fn pow2_u32(w: u32) -> (p: u32)
    requires
        w < 32,
    ensures
        p == pow2(w as nat),
        p > 0,
{
    proof {
        lemma_u32_pow2_no_overflow(w as nat);
        lemma_u32_shl_is_mul(1, w);
        lemma_pow2_pos(w as nat);
    }
    1u32 << w
}

pub proof fn lemma_be_bits_len(v: nat, width: nat)
    ensures
        be_bits(v, width).len() == width,
    decreases width,
{
    if width > 0 {
        lemma_be_bits_len(v / 2, (width - 1) as nat);
    }
}

/// A number that fits comes back from its bits.
pub proof fn lemma_be_value(v: nat, width: nat)
    requires
        v < pow2(width),
    ensures
        be_value(be_bits(v, width)) == v,
    decreases width,
{
    if width == 0 {
        lemma2_to64();
    } else {
        lemma_pow2_unfold(width);
        lemma_be_value(v / 2, (width - 1) as nat);
        assert(be_bits(v, width).drop_last() =~= be_bits(v / 2, (width - 1) as nat));
    }
}

/// Bits come back from the number that they write.
pub proof fn lemma_be_bits(bits: Seq<bool>)
    ensures
        be_value(bits) < pow2(bits.len()),
        be_bits(be_value(bits), bits.len()) == bits,
    decreases bits.len(),
{
    if bits.len() == 0 {
        lemma2_to64();
        assert(be_bits(be_value(bits), bits.len()) =~= bits);
    } else {
        lemma_pow2_unfold(bits.len());
        lemma_be_bits(bits.drop_last());
        assert(be_bits(be_value(bits), bits.len()) =~= bits);
    }
}

/// Appends `width` bits of `v`, most significant first.
fn push_be_bits(v: u32, width: u32, out: &mut Vec<bool>)
    requires
        width < 32,
    ensures
        final(out)@ == old(out)@ + be_bits(v as nat, width as nat),
{
    let mut left: u32 = width;
    proof {
        lemma_u32_shr_is_div(v, width);
    }
    while left > 0
        invariant
            left <= width < 32,
            out@ == old(out)@ + be_bits(
                (v as nat) / pow2(left as nat),
                (width - left) as nat,
            ),
        decreases left,
    {
        left = left - 1;
        let bit: bool = (v >> left) % 2 == 1;
        proof {
            lemma_u32_shr_is_div(v, left);
            lemma_pow2_unfold((left + 1) as nat);
            lemma_pow2_pos(left as nat);
            lemma_div_denominator(v as int, pow2(left as nat) as int, 2);
        }
        let ghost before = out@;
        out.push(bit);
        assert(out@ =~= old(out)@ + be_bits(
            (v as nat) / pow2(left as nat),
            (width - left) as nat,
        ));
    }
    proof {
        lemma2_to64();
        assert((v as nat) / pow2(0) == v as nat);
    }
}

/// Reads the number that the next `width` bits write.
fn read_be_bits(stream: &[bool], pos: usize, width: u32) -> (read: Option<(u32, usize)>)
    requires
        pos <= stream@.len(),
        width < 32,
    ensures
        match read {
            Some((v, end)) => {
                &&& end == pos + width <= stream@.len()
                &&& v < pow2(width as nat)
                &&& stream@.subrange(pos as int, end as int) == be_bits(v as nat, width as nat)
            },
            None => pos + width > stream@.len(),
        },
{
    let len: usize = stream.len();
    if len - pos < width as usize {
        return None;
    }
    let mut v: u32 = 0;
    let mut i: u32 = 0;
    proof {
        lemma2_to64();
    }
    while i < width
        invariant
            i <= width < 32,
            pos + width <= len == stream@.len(),
            v == be_value(stream@.subrange(pos as int, pos + i)),
        decreases width - i,
    {
        let bit: u32 = if stream[pos + i as usize] {
            1
        } else {
            0
        };
        proof {
            lemma_be_bits(stream@.subrange(pos as int, pos + i));
            lemma_be_bits(stream@.subrange(pos as int, pos + i + 1));
            lemma_pow2_unfold((i + 1) as nat);
            lemma_u32_pow2_no_overflow((i + 1) as nat);
            assert(stream@.subrange(pos as int, pos + i + 1).drop_last() =~= stream@.subrange(
                pos as int,
                pos + i,
            ));
        }
        v = 2 * v + bit;
        i = i + 1;
    }
    proof {
        lemma_be_bits(stream@.subrange(pos as int, pos + width));
    }
    Some((v, pos + width as usize))
}

/// The bits of a number: the one that stands `j` places from the end is its bit
/// of weight `2^j`.
pub proof fn lemma_be_bit(v: nat, width: nat, j: nat)
    requires
        j < width,
    ensures
        be_bits(v, width).len() == width,
        be_bits(v, width)[width - 1 - j] == ((v / pow2(j)) % 2 == 1),
    decreases width,
{
    lemma_be_bits_len(v, width);
    lemma_be_bits_len(v / 2, (width - 1) as nat);
    if j == 0 {
        lemma2_to64();
        assert(v / 1 == v);
    } else {
        lemma_be_bit(v / 2, (width - 1) as nat, (j - 1) as nat);
        lemma_pow2_unfold(j);
        lemma_pow2_pos((j - 1) as nat);
        lemma_div_denominator(v as int, 2, pow2((j - 1) as nat) as int);
    }
}

impl VarLenCoder {
    /// The number of values in the classes before `k`, counted from class `j`.
    spec fn start(self, j: nat, k: nat) -> nat
        decreases k - j,
    {
        if j >= k {
            0
        } else {
            pow2(self.class_width(j)) + self.start(j + 1, k)
        }
    }

    proof fn lemma_start(self, j: nat, k: nat)
        requires
            self !is Ins,
            j <= k,
        ensures
            self.start(j, k) == pow2(self.class_width(k)) - pow2(self.class_width(j)),
        decreases k - j,
    {
        if j < k {
            self.lemma_start(j + 1, k);
            lemma_pow2_unfold(self.class_width(j + 1));
        }
    }

    /// The shape of a code from class `j` on.
    proof fn lemma_code_shape(self, j: nat, k: nat, place: nat)
        requires
            j <= k < self.class_count(),
            place < pow2(self.class_width(k)),
        ensures
            ({
                let code = self.code_from(self.start(j, k) + place, j);
                let ones = k - j;
                let stop: int = if k + 1 < self.class_count() {
                    1
                } else {
                    0
                };
                &&& code.len() == ones + stop + self.class_width(k)
                &&& forall|i: int| 0 <= i < ones ==> #[trigger] code[i]
                &&& stop == 1 ==> !code[ones]
                &&& code.skip(ones + stop) == be_bits(place, self.class_width(k))
            }),
        decreases k - j,
    {
        let width = self.class_width(k);
        let code = self.code_from(self.start(j, k) + place, j);
        lemma_be_bits_len(place, width);
        if j == k {
            if k + 1 < self.class_count() {
                assert(code.skip(1) =~= be_bits(place, width));
            } else {
                assert(code.skip(0) =~= be_bits(place, width));
            }
        } else {
            self.lemma_code_shape(j + 1, k, place);
            let rest = self.code_from(self.start(j + 1, k) + place, j + 1);
            assert(code == seq![true] + rest);
            let stop: int = if k + 1 < self.class_count() {
                1
            } else {
                0
            };
            assert(code.skip(k - j + stop) =~= rest.skip(k - j - 1 + stop));
            assert forall|i: int| 0 <= i < k - j implies #[trigger] code[i] by {
                if i > 0 {
                    assert(code[i] == rest[i - 1]);
                }
            }
        }
    }
}

/// What the code of a number is. The numbers of a coder fall into classes, each
/// twice as large as the one before it (instructions: classes of one, one and
/// two). The number at `place` in class `k` is written as `k` ones, a zero unless
/// the class is the last one, and the bits of `place`, most significant first.
///
/// Autonomous system numbers start at 1 with a class of 2^15, in 10 classes;
/// match operands at 2 with a class of 2, in 8; jump operands at 17 with a class
/// of 2^5, in 26.
pub proof fn codes_are_a_class_and_a_place(coder: VarLenCoder, k: nat, place: nat)
    requires
        k < (match coder {
            VarLenCoder::Ins => 3nat,
            VarLenCoder::Asn => 10,
            VarLenCoder::Match => 8,
            VarLenCoder::Jump => 26,
        }),
        place < (match coder {
            VarLenCoder::Ins => if k < 2 {
                1
            } else {
                2
            },
            VarLenCoder::Asn => pow2(15 + k),
            VarLenCoder::Match => pow2(1 + k),
            VarLenCoder::Jump => pow2(5 + k),
        }),
    ensures
        ({
            let (first, width, last) = match coder {
                VarLenCoder::Ins => (k as int, if k < 2 {
                    0nat
                } else {
                    1nat
                }, 2nat),
                VarLenCoder::Asn => (1 + pow2(15 + k) - 0x8000, 15 + k, 9nat),
                VarLenCoder::Match => (2 + pow2(1 + k) - 2, 1 + k, 7nat),
                VarLenCoder::Jump => (17 + pow2(5 + k) - 0x20, 5 + k, 25nat),
            };
            let code = coder.code((first + place) as nat);
            let stop = if k < last {
                1nat
            } else {
                0nat
            };
            &&& coder.encodable(first + place)
            &&& code.len() == k + stop + width
            &&& forall|i: int| 0 <= i < k ==> #[trigger] code[i]
            &&& stop == 1 ==> !code[k as int]
            &&& forall|j: nat|
                j < width ==> #[trigger] code[code.len() - 1 - j] == ((place / pow2(j)) % 2 == 1)
        }),
{
    lemma2_to64();
    coder.lemma_max_value();
    let width = coder.class_width(k);
    if coder is Ins {
        reveal_with_fuel(VarLenCoder::start, 4);
        assert(coder.start(0, k) == k);
    } else {
        coder.lemma_start(0, k);
        let top = (coder.class_count() - 1) as nat;
        if coder.class_width(k) < coder.class_width(top) {
            lemma_pow2_strictly_increases(coder.class_width(k), coder.class_width(top));
        }
        lemma_pow2_unfold(coder.class_width(k + 1));
    }
    coder.lemma_code_shape(0, k, place);
    let code = coder.code(coder.min_value() + coder.start(0, k) + place);
    assert(code == coder.code_from(coder.start(0, k) + place, 0));
    let at = code.len() - width;
    lemma_be_bits_len(place, width);
    assert forall|j: nat| j < width implies #[trigger] code[code.len() - 1 - j] == ((place / pow2(
        j,
    )) % 2 == 1) by {
        lemma_be_bit(place, width, j);
        assert(code.skip(at)[width - 1 - j] == code[code.len() - 1 - j]);
    }
}

/// Which numbers have a code.
pub proof fn encodable_numbers_lie_between(coder: VarLenCoder, v: int)
    ensures
        coder.encodable(v) == match coder {
            VarLenCoder::Ins => 0 <= v <= 3,
            VarLenCoder::Asn => 1 <= v <= 33_521_664,
            VarLenCoder::Match => 2 <= v <= 511,
            VarLenCoder::Jump => 17 <= v <= 2_147_483_632,
        },
{
    coder.lemma_max_value();
}

/// Codes keep the order of numbers: a larger number never has a shorter code, and
/// of two codes of one length that of the larger number comes later, at the first
/// bit in which they differ.
pub proof fn codes_keep_the_order(coder: VarLenCoder, v: int, w: int)
    requires
        coder.encodable(v),
        coder.encodable(w),
        v < w,
    ensures
        coder.code(v as nat).len() <= coder.code(w as nat).len(),
        exists|n: int|
            0 <= n < coder.code(v as nat).len() && #[trigger] coder.code(v as nat).take(n)
                == coder.code(w as nat).take(n) && !coder.code(v as nat)[n]
                && coder.code(w as nat)[n],
{
    let (r1, r2) = ((v - coder.min_value()) as nat, (w - coder.min_value()) as nat);
    coder.lemma_order(r1, r2, 0);
    let (c1, c2) = (coder.code_from(r1, 0), coder.code_from(r2, 0));
    let n = choose|n: int|
        0 <= n < c1.len() && #[trigger] c1.take(n) == c2.take(n) && !c1[n] && c2[n];
    assert(coder.code(v as nat).take(n) == coder.code(w as nat).take(n));
}

impl VarLenCoder {
    proof fn lemma_order(self, r1: nat, r2: nat, k: nat)
        requires
            k < self.class_count(),
            r1 < r2 < self.span(k),
        ensures
            self.code_from(r1, k).len() <= self.code_from(r2, k).len(),
            exists|n: int|
                0 <= n < self.code_from(r1, k).len() && #[trigger] self.code_from(r1, k).take(n)
                    == self.code_from(r2, k).take(n) && !self.code_from(r1, k)[n]
                    && self.code_from(r2, k)[n],
        decreases self.class_count() - k,
    {
        let width = self.class_width(k);
        let size = pow2(width);
        let (c1, c2) = (self.code_from(r1, k), self.code_from(r2, k));
        lemma_be_bits_len(r1, width);
        lemma_be_bits_len(r2, width);
        if k + 1 >= self.class_count() {
            assert(self.span(k + 1) == 0);
            let n = lemma_bits_order(r1, r2, width);
            assert(c1.take(n) == c2.take(n));
        } else if r2 < size {
            let n = lemma_bits_order(r1, r2, width);
            assert(c1.take(n + 1) =~= seq![false] + be_bits(r1, width).take(n));
            assert(c2.take(n + 1) =~= seq![false] + be_bits(r2, width).take(n));
            assert(c1.take(n + 1) == c2.take(n + 1));
        } else if r1 < size {
            assert(c1.take(0) =~= c2.take(0));
            self.lemma_len((r2 - size) as nat, k + 1);
        } else {
            let (s1, s2) = ((r1 - size) as nat, (r2 - size) as nat);
            self.lemma_order(s1, s2, k + 1);
            let (d1, d2) = (self.code_from(s1, k + 1), self.code_from(s2, k + 1));
            let n = choose|n: int|
                0 <= n < d1.len() && #[trigger] d1.take(n) == d2.take(n) && !d1[n] && d2[n];
            assert(c1 == seq![true] + d1 && c2 == seq![true] + d2);
            assert(c1.take(n + 1) =~= seq![true] + d1.take(n));
            assert(c2.take(n + 1) =~= seq![true] + d2.take(n));
            assert(c1.take(n + 1) == c2.take(n + 1));
        }
    }

    /// No code from class `k` on is shorter than the class is wide.
    proof fn lemma_len(self, rest: nat, k: nat)
        requires
            k < self.class_count(),
        ensures
            self.code_from(rest, k).len() >= self.class_width(k),
        decreases self.class_count() - k,
    {
        let width = self.class_width(k);
        lemma_be_bits_len(rest, width);
        if rest >= pow2(width) {
            let above = (rest - pow2(width)) as nat;
            lemma_be_bits_len(above, width);
            if k + 1 < self.class_count() {
                self.lemma_len(above, k + 1);
            }
        }
    }
}

/// The first bit in which two numbers differ.
proof fn lemma_bits_order(v: nat, w: nat, width: nat) -> (n: int)
    requires
        v < w < pow2(width),
    ensures
        0 <= n < width,
        be_bits(v, width).len() == width,
        be_bits(w, width).len() == width,
        be_bits(v, width).take(n) == be_bits(w, width).take(n),
        !be_bits(v, width)[n],
        be_bits(w, width)[n],
    decreases width,
{
    lemma_be_bits_len(v, width);
    lemma_be_bits_len(w, width);
    if width == 0 {
        lemma2_to64();
        0
    } else {
        lemma_pow2_unfold(width);
        let less = (width - 1) as nat;
        lemma_be_bits_len(v / 2, less);
        lemma_be_bits_len(w / 2, less);
        if v / 2 == w / 2 {
            assert(be_bits(v, width).take(less as int) =~= be_bits(v / 2, less));
            assert(be_bits(w, width).take(less as int) =~= be_bits(w / 2, less));
            less as int
        } else {
            let n = lemma_bits_order(v / 2, w / 2, less);
            assert(be_bits(v, width).take(n) =~= be_bits(v / 2, less).take(n));
            assert(be_bits(w, width).take(n) =~= be_bits(w / 2, less).take(n));
            n
        }
    }
}

/// Only codes are read: what stands in a stream is read as a number exactly if it is
/// the code of that number, from the first bit to the last.
pub proof fn only_codes_are_read(
    coder: VarLenCoder,
    stream: Seq<bool>,
    pos: int,
    val: int,
    end: int,
)
    ensures
        coder.reads(stream, pos, val, end) <==> coder.encodable(val) && 0 <= pos <= end
            <= stream.len() && stream.subrange(pos, end) == coder.code(val as nat),
{
}

} // verus!
