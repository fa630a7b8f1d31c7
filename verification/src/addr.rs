//! Internet addresses and their text forms.

use crate::text::{
    all_digits, decimal, digit, digit_value, find, find_char, lemma_decimal_reads, lemma_digit_char,
    lemma_find, lemma_find_at, lemma_number_text, number_text, parse_number, push_number, read_number,
    same_chars, to_chars, IntError,
};
use vstd::arithmetic::div_mod::lemma_div_denominator;
use vstd::arithmetic::power2::{
    lemma2_to64, lemma_pow2_adds, lemma_pow2_pos, lemma_pow2_strictly_increases, pow2,
};
use vstd::prelude::*;
use vstd::slice::slice_subrange;

verus! {

/// An address of either version, as a number.
#[derive(Debug, Clone, Copy, PartialEq, Eq, Structural)]
pub enum IpAddr {
    V4(u32),
    V6(u128),
}

impl IpAddr {
    /// The number of bits in an address.
    pub open spec fn width(self) -> nat {
        match self {
            IpAddr::V4(_) => 32,
            IpAddr::V6(_) => 128,
        }
    }

    /// The address as a number.
    pub open spec fn value(self) -> nat {
        match self {
            IpAddr::V4(v) => v as nat,
            IpAddr::V6(v) => v as nat,
        }
    }
}

/// The four bytes of an IPv4 address.
pub open spec fn octets(v: u32) -> (nat, nat, nat, nat) {
    (
        (v / 0x100_0000) as nat,
        (v / 0x1_0000 % 0x100) as nat,
        (v / 0x100 % 0x100) as nat,
        (v % 0x100) as nat,
    )
}

/// The text of an IPv4 address: four numbers with dots between them.
#[verifier::opaque]
pub open spec fn v4_text(v: u32) -> Seq<char> {
    decimal(octets(v).0) + seq!['.'] + decimal(octets(v).1) + seq!['.'] + decimal(octets(v).2)
        + seq!['.'] + decimal(octets(v).3)
}

/// The IPv4 address that a text writes. Only the text of an address writes one.
pub open spec fn v4_read(s: Seq<char>) -> Option<u32> {
    if exists|v: u32| s == v4_text(v) {
        Some(choose|v: u32| s == v4_text(v))
    } else {
        None
    }
}

/// Appends the text of an IPv4 address.
pub(crate) fn push_v4(text: &mut String, v: u32)
    ensures
        final(text)@ == old(text)@ + v4_text(v),
{
    let ghost start = text@;
    push_number(text, (v / 0x100_0000) as u128, 10);
    text.push('.');
    push_number(text, (v / 0x1_0000 % 0x100) as u128, 10);
    text.push('.');
    push_number(text, (v / 0x100 % 0x100) as u128, 10);
    text.push('.');
    push_number(text, (v % 0x100) as u128, 10);
    proof {
        reveal(v4_text);
    }
    assert(text@ =~= start + v4_text(v));
}

/// `s` is four numbers with dots between them.
#[verifier::opaque]
spec fn dotted(s: Seq<char>, a: nat, b: nat, c: nat, d: nat) -> bool {
    let i = find(s, '.', 0);
    let j = find(s, '.', i + 1);
    let k = find(s, '.', j + 1);
    &&& 0 <= i < j < k < s.len()
    &&& parse_number(s.subrange(0, i), 255) == Ok::<nat, IntError>(a)
    &&& parse_number(s.subrange(i + 1, j), 255) == Ok::<nat, IntError>(b)
    &&& parse_number(s.subrange(j + 1, k), 255) == Ok::<nat, IntError>(c)
    &&& parse_number(s.subrange(k + 1, s.len() as int), 255) == Ok::<nat, IntError>(d)
}

/// Where the parts of an IPv4 text lie.
proof fn lemma_v4_parts(v: u32)
    ensures
        dotted(v4_text(v), octets(v).0, octets(v).1, octets(v).2, octets(v).3),
        forall|i: int| 0 <= i < v4_text(v).len() ==> {
            let c = #[trigger] v4_text(v)[i];
            c == '.' || digit_value(c, 10) is Some
        },
        v4_text(v).len() >= 7,
{
    reveal(v4_text);
    reveal(dotted);
    let s = v4_text(v);
    let (oa, ob, oc, od) = octets(v);
    let a = decimal(oa);
    let b = decimal(ob);
    let c = decimal(oc);
    let d = decimal(od);
    let i = a.len() as int;
    let j = i + 1 + b.len();
    let k = j + 1 + c.len();
    lemma_number_text(oa, 10);
    lemma_number_text(ob, 10);
    lemma_number_text(oc, 10);
    lemma_number_text(od, 10);
    assert forall|n: int| 0 <= n < i implies s[n] != '.' by {
        assert(s[n] == a[n]);
    }
    assert forall|n: int| i + 1 <= n < j implies s[n] != '.' by {
        assert(s[n] == b[n - i - 1]);
    }
    assert forall|n: int| j + 1 <= n < k implies s[n] != '.' by {
        assert(s[n] == c[n - j - 1]);
    }
    lemma_find_at(s, '.', 0, i);
    lemma_find_at(s, '.', i + 1, j);
    lemma_find_at(s, '.', j + 1, k);
    assert(s.subrange(0, i) =~= a);
    assert(s.subrange(i + 1, j) =~= b);
    assert(s.subrange(j + 1, k) =~= c);
    assert(s.subrange(k + 1, s.len() as int) =~= d);
    lemma_decimal_reads(oa, 255);
    lemma_decimal_reads(ob, 255);
    lemma_decimal_reads(oc, 255);
    lemma_decimal_reads(od, 255);
}

/// Reads four numbers with dots between them, in whatever way they are written.
fn read_dotted(s: &[char]) -> (read: Option<(u64, u64, u64, u64)>)
    ensures
        match read {
            Some((a, b, c, d)) => dotted(s@, a as nat, b as nat, c as nat, d as nat),
            None => forall|a: nat, b: nat, c: nat, d: nat| !dotted(s@, a, b, c, d),
        },
{
    proof {
        reveal(dotted);
    }
    let i: usize = find_char(s, '.', 0);
    if i == s.len() {
        return None;
    }
    let j: usize = find_char(s, '.', i + 1);
    if j == s.len() {
        return None;
    }
    let k: usize = find_char(s, '.', j + 1);
    if k == s.len() {
        return None;
    }
    let a = read_number(slice_subrange(s, 0, i), 255);
    let b = read_number(slice_subrange(s, i + 1, j), 255);
    let c = read_number(slice_subrange(s, j + 1, k), 255);
    let d = read_number(slice_subrange(s, k + 1, s.len()), 255);
    match (a, b, c, d) {
        (Ok(a), Ok(b), Ok(c), Ok(d)) => Some((a, b, c, d)),
        _ => None,
    }
}

proof fn lemma_octets(v: u32)
    ensures
        octets(v).0 * 0x100_0000 + octets(v).1 * 0x1_0000 + octets(v).2 * 0x100 + octets(v).3 == v,
        octets(v).0 <= 255,
        octets(v).1 <= 255,
        octets(v).2 <= 255,
        octets(v).3 <= 255,
{
    let q1 = v as int / 0x100;
    let q2 = q1 / 0x100;
    let q3 = q2 / 0x100;
    lemma_div_denominator(v as int, 0x100, 0x100);
    lemma_div_denominator(v as int, 0x1_0000, 0x100);
    assert(v == q1 * 0x100 + v as int % 0x100);
    assert(q1 == q2 * 0x100 + q1 % 0x100);
    assert(q2 == q3 * 0x100 + q2 % 0x100);
}

/// The bytes of an address that is made of bytes.
proof fn lemma_of_octets(a: nat, b: nat, c: nat, d: nat)
    requires
        a <= 255,
        b <= 255,
        c <= 255,
        d <= 255,
    ensures
        a * 0x100_0000 + b * 0x1_0000 + c * 0x100 + d <= u32::MAX,
        octets((a * 0x100_0000 + b * 0x1_0000 + c * 0x100 + d) as u32) == (a, b, c, d),
{
    let q2 = a * 0x100 + b;
    let q1 = q2 * 0x100 + c;
    let v = q1 * 0x100 + d;
    assert(v / 0x100 == q1 && v % 0x100 == d);
    assert(q1 / 0x100 == q2 && q1 % 0x100 == c);
    assert(q2 / 0x100 == a && q2 % 0x100 == b);
    lemma_div_denominator(v as int, 0x100, 0x100);
    lemma_div_denominator(v as int, 0x1_0000, 0x100);
}

proof fn lemma_dotted_unique(s: Seq<char>, x: (nat, nat, nat, nat), y: (nat, nat, nat, nat))
    requires
        dotted(s, x.0, x.1, x.2, x.3),
        dotted(s, y.0, y.1, y.2, y.3),
    ensures
        x == y,
{
    reveal(dotted);
}

/// Reads an IPv4 address.
pub(crate) fn read_v4(s: &[char]) -> (read: Option<u32>)
    ensures
        read == v4_read(s@),
{
    let parts = read_dotted(s);
    proof {
        assert forall|v: u32| s@ == v4_text(v) implies parts matches Some((a, b, c, d)) && a <= 255
            && b <= 255 && c <= 255 && d <= 255 && v == a * 0x100_0000 + b * 0x1_0000 + c * 0x100
            + d by {
            lemma_v4_parts(v);
            lemma_octets(v);
            let (oa, ob, oc, od) = octets(v);
            let (a, b, c, d) = parts->0;
            lemma_dotted_unique(
                s@,
                (oa, ob, oc, od),
                (a as nat, b as nat, c as nat, d as nat),
            );
        }
    }
    match parts {
        None => None,
        Some((a, b, c, d)) => {
            if a > 255 || b > 255 || c > 255 || d > 255 {
                return None;
            }
            let v: u32 = (a * 0x100_0000 + b * 0x1_0000 + c * 0x100 + d) as u32;
            let mut text = String::new();
            push_v4(&mut text, v);
            assert(text@ =~= v4_text(v));
            let chars = to_chars(text.as_str());
            if same_chars(s, chars.as_slice()) {
                proof {
                    lemma_v4_round_trip(v);
                }
                Some(v)
            } else {
                None
            }
        },
    }
}

/// What [`v4_read`] makes of the text of an address.
pub proof fn lemma_v4_round_trip(v: u32)
    ensures
        v4_read(v4_text(v)) == Some(v),
{
    let w = choose|w: u32| v4_text(v) == v4_text(w);
    assert(v4_text(v) == v4_text(w));
    lemma_v4_parts(v);
    lemma_v4_parts(w);
    lemma_dotted_unique(v4_text(v), octets(v), octets(w));
    lemma_octets(v);
    lemma_octets(w);
}

/// The number that hexadecimal digits write.
pub open spec fn hex_value(s: Seq<char>) -> nat
    decreases s.len(),
{
    if s.len() == 0 {
        0
    } else {
        16 * hex_value(s.drop_last()) + match digit_value(s.last(), 16) {
            Some(d) => d,
            None => 0,
        }
    }
}

/// The group that one to four hexadecimal digits write.
pub open spec fn hex_group(s: Seq<char>) -> Option<u16> {
    if 1 <= s.len() <= 4 && all_digits(s, 16) {
        Some(hex_value(s) as u16)
    } else {
        None
    }
}

/// The two groups that an IPv4 address fills.
pub open spec fn v4_groups(v: u32) -> Seq<u16> {
    seq![(v / 0x1_0000) as u16, (v % 0x1_0000) as u16]
}

/// The groups that a piece at the end of a list writes.
pub open spec fn last_groups(piece: Seq<char>, allow_v4: bool) -> Option<Seq<u16>> {
    match hex_group(piece) {
        Some(g) => Some(seq![g]),
        None => if allow_v4 && v4_read(piece) is Some {
            Some(v4_groups(v4_read(piece)->0))
        } else {
            None
        },
    }
}

/// The groups that `s[from..]` writes, with colons between them. Where it is
/// allowed, an IPv4 address may stand at the end.
pub open spec fn groups_from(s: Seq<char>, from: int, allow_v4: bool) -> Option<Seq<u16>>
    decreases s.len() - from,
{
    let end = find(s, ':', from);
    if from < 0 || end < from || end > s.len() {
        None
    } else if end == s.len() {
        last_groups(s.subrange(from, end), allow_v4)
    } else {
        match (hex_group(s.subrange(from, end)), groups_from(s, end + 1, allow_v4)) {
            (Some(g), Some(rest)) => Some(seq![g] + rest),
            _ => None,
        }
    }
}

/// The groups that a text writes; an empty text writes none.
pub open spec fn group_list(s: Seq<char>, allow_v4: bool) -> Option<Seq<u16>> {
    if s.len() == 0 {
        Some(Seq::empty())
    } else {
        groups_from(s, 0, allow_v4)
    }
}

/// The first double colon at or after `from`; the length if there is none.
pub open spec fn find_gap(s: Seq<char>, from: int) -> int
    decreases s.len() - from,
{
    if from + 1 >= s.len() {
        s.len() as int
    } else if s[from] == ':' && s[from + 1] == ':' {
        from
    } else {
        find_gap(s, from + 1)
    }
}

/// `n` groups of zero.
pub open spec fn zero_groups(n: int) -> Seq<u16> {
    Seq::new(n as nat, |i: int| 0u16)
}

/// The eight groups that an IPv6 text writes: all of them, or those around a
/// double colon that stands for at least one group of zero.
pub open spec fn v6_groups(s: Seq<char>) -> Option<Seq<u16>> {
    let gap = find_gap(s, 0);
    if gap < s.len() {
        match (group_list(s.take(gap), false), group_list(s.skip(gap + 2), true)) {
            (Some(head), Some(tail)) => if head.len() + tail.len() <= 7 {
                Some(head + zero_groups(8 - head.len() - tail.len()) + tail)
            } else {
                None
            },
            _ => None,
        }
    } else {
        match group_list(s, true) {
            Some(all) => if all.len() == 8 {
                Some(all)
            } else {
                None
            },
            None => None,
        }
    }
}

/// The number that groups write.
pub open spec fn groups_value(g: Seq<u16>) -> nat
    decreases g.len(),
{
    if g.len() == 0 {
        0
    } else {
        0x1_0000 * groups_value(g.drop_last()) + g.last() as nat
    }
}

/// `v` written with `n` groups.
pub open spec fn groups_of(v: nat, n: nat) -> Seq<u16>
    decreases n,
{
    if n == 0 {
        Seq::empty()
    } else {
        groups_of(v / 0x1_0000, (n - 1) as nat).push((v % 0x1_0000) as u16)
    }
}

/// The IPv6 address that a text writes.
pub open spec fn v6_read(s: Seq<char>) -> Option<u128> {
    match v6_groups(s) {
        Some(g) => Some(groups_value(g) as u128),
        None => None,
    }
}

/// The address that a text writes.
pub open spec fn ip_read(s: Seq<char>) -> Option<IpAddr> {
    match v4_read(s) {
        Some(v) => Some(IpAddr::V4(v)),
        None => match v6_read(s) {
            Some(v) => Some(IpAddr::V6(v)),
            None => None,
        },
    }
}

/// Groups in hexadecimal with colons between them.
pub open spec fn groups_text(g: Seq<u16>) -> Seq<char>
    decreases g.len(),
{
    if g.len() == 0 {
        Seq::empty()
    } else if g.len() == 1 {
        number_text(g[0] as nat, 16)
    } else {
        number_text(g[0] as nat, 16) + seq![':'] + groups_text(g.drop_first())
    }
}

/// The `n` groups from position `a` on are zero.
pub open spec fn zero_run(g: Seq<u16>, a: int, n: int) -> bool {
    &&& 0 <= a
    &&& 0 <= n
    &&& a + n <= g.len()
    &&& forall|i: int| a <= i < a + n ==> #[trigger] g[i] == 0
}

/// The longest run of at least two zero groups; of equally long ones the first.
pub open spec fn is_best_run(g: Seq<u16>, a: int, n: int) -> bool {
    &&& n >= 2
    &&& zero_run(g, a, n)
    &&& forall|b: int, m: int| #[trigger] zero_run(g, b, m) ==> m < n || (m == n && a <= b)
}

/// The text of the groups of an IPv6 address, its best run of zeros left out.
pub open spec fn short_text(g: Seq<u16>) -> Seq<char> {
    if exists|a: int, n: int| is_best_run(g, a, n) {
        let (a, n) = choose|a: int, n: int| is_best_run(g, a, n);
        groups_text(g.take(a)) + seq![':', ':'] + groups_text(g.skip(a + n))
    } else {
        groups_text(g)
    }
}

/// The text of an IPv6 address.
pub open spec fn v6_text(v: u128) -> Seq<char> {
    if v / 0x1_0000_0000 == 0xffff {
        seq![':', ':', 'f', 'f', 'f', 'f', ':'] + v4_text((v % 0x1_0000_0000) as u32)
    } else {
        short_text(groups_of(v as nat, 8))
    }
}

/// The text of an address.
pub open spec fn ip_text(ip: IpAddr) -> Seq<char> {
    match ip {
        IpAddr::V4(v) => v4_text(v),
        IpAddr::V6(v) => v6_text(v),
    }
}

/// Numbers of so many groups stay below a power of two.
proof fn lemma_groups_bound(g: Seq<u16>)
    ensures
        groups_value(g) < pow2(16 * g.len()),
    decreases g.len(),
{
    lemma2_to64();
    if g.len() > 0 {
        lemma_groups_bound(g.drop_last());
        lemma_pow2_adds(16 * (g.len() - 1) as nat, 16);
    }
}

proof fn lemma_hex_bound(s: Seq<char>)
    ensures
        hex_value(s) < pow2(4 * s.len()),
    decreases s.len(),
{
    lemma2_to64();
    if s.len() > 0 {
        lemma_hex_bound(s.drop_last());
        lemma_pow2_adds(4 * (s.len() - 1) as nat, 4);
    }
}

/// Reads one group.
fn read_group(s: &[char]) -> (read: Option<u16>)
    ensures
        read == hex_group(s@),
{
    if s.len() == 0 || s.len() > 4 {
        return None;
    }
    let mut v: u32 = 0;
    let mut i: usize = 0;
    while i < s.len()
        invariant
            i <= s@.len() <= 4,
            s@.len() >= 1,
            v == hex_value(s@.take(i as int)),
            forall|j: int| 0 <= j < i ==> digit_value(#[trigger] s@[j], 16) is Some,
        decreases s@.len() - i,
    {
        proof {
            lemma2_to64();
            lemma_hex_bound(s@.take(i as int));
            if i < 3 {
                lemma_pow2_strictly_increases((4 * i) as nat, 12);
            }
            assert(s@.take(i + 1).drop_last() =~= s@.take(i as int));
            assert(s@.take(i + 1).last() == s@[i as int]);
        }
        match digit(s[i], 16) {
            None => {
                return None;
            },
            Some(d) => {
                v = 16 * v + d;
            },
        }
        i = i + 1;
    }
    proof {
        lemma2_to64();
        assert(s@.take(i as int) =~= s@);
        lemma_hex_bound(s@);
        if s@.len() < 4 {
            lemma_pow2_strictly_increases((4 * s@.len()) as nat, 16);
        }
    }
    Some(v as u16)
}

/// Reads groups with colons between them.
fn read_groups(s: &[char], allow_v4: bool) -> (read: Option<Vec<u16>>)
    ensures
        match read {
            Some(g) => group_list(s@, allow_v4) == Some(g@),
            None => group_list(s@, allow_v4) is None,
        },
{
    let mut out: Vec<u16> = Vec::new();
    if s.len() == 0 {
        assert(out@ =~= Seq::empty());
        return Some(out);
    }
    let mut from: usize = 0;
    loop
        invariant
            from <= s@.len(),
            s@.len() > 0,
            match groups_from(s@, from as int, allow_v4) {
                Some(rest) => group_list(s@, allow_v4) == Some(out@ + rest),
                None => group_list(s@, allow_v4) is None,
            },
        decreases s@.len() - from,
    {
        let end: usize = find_char(s, ':', from);
        let piece = slice_subrange(s, from, end);
        let group = read_group(piece);
        if end == s.len() {
            match group {
                Some(g) => {
                    let ghost before = out@;
                    out.push(g);
                    assert(out@ =~= before + seq![g]);
                    return Some(out);
                },
                None => {
                    if allow_v4 {
                        if let Some(v) = read_v4(piece) {
                            let ghost before = out@;
                            out.push((v / 0x1_0000) as u16);
                            out.push((v % 0x1_0000) as u16);
                            assert(out@ =~= before + v4_groups(v));
                            return Some(out);
                        }
                    }
                    return None;
                },
            }
        }
        match group {
            None => {
                return None;
            },
            Some(g) => {
                let ghost before = out@;
                out.push(g);
                proof {
                    if let Some(rest) = groups_from(s@, end + 1, allow_v4) {
                        assert(out@ + rest =~= before + (seq![g] + rest));
                    }
                }
            },
        }
        from = end + 1;
    }
}

/// Finds the first double colon.
fn find_double_colon(s: &[char]) -> (at: usize)
    ensures
        at == find_gap(s@, 0),
        at <= s@.len(),
        at < s@.len() ==> at + 1 < s@.len(),
{
    let len: usize = s.len();
    let mut i: usize = 0;
    while len > 1 && i < len - 1
        invariant
            len == s@.len(),
            i < len || len == 0,
            find_gap(s@, 0) == find_gap(s@, i as int),
        decreases len - i,
    {
        if s[i] == ':' && s[i + 1] == ':' {
            return i;
        }
        i = i + 1;
    }
    len
}

/// Reads an IPv6 address.
fn read_v6(s: &[char]) -> (read: Option<u128>)
    ensures
        read == v6_read(s@),
{
    let len: usize = s.len();
    let gap: usize = find_double_colon(s);
    let mut groups: Vec<u16> = Vec::new();
    if gap < len {
        let head = match read_groups(slice_subrange(s, 0, gap), false) {
            Some(g) => g,
            None => {
                assert(s@.subrange(0, gap as int) =~= s@.take(gap as int));
                return None;
            },
        };
        assert(s@.subrange(0, gap as int) =~= s@.take(gap as int));
        let tail = match read_groups(slice_subrange(s, gap + 2, len), true) {
            Some(g) => g,
            None => {
                assert(s@.subrange(gap + 2, len as int) =~= s@.skip(gap + 2));
                return None;
            },
        };
        assert(s@.subrange(gap + 2, len as int) =~= s@.skip(gap + 2));
        if head.len() > 7 || tail.len() > 7 - head.len() {
            return None;
        }
        groups = head;
        let ghost h = groups@;
        let zeros: usize = 8 - groups.len() - tail.len();
        let mut i: usize = 0;
        while i < zeros
            invariant
                i <= zeros,
                groups@ == h + zero_groups(i as int),
            decreases zeros - i,
        {
            groups.push(0);
            i = i + 1;
            assert(groups@ =~= h + zero_groups(i as int));
        }
        assert(h + zero_groups(0) =~= h);
        let mut rest = tail;
        groups.append(&mut rest);
    } else {
        match read_groups(s, true) {
            Some(g) => {
                if g.len() != 8 {
                    return None;
                }
                groups = g;
            },
            None => {
                return None;
            },
        }
    }
    assert(v6_groups(s@) == Some(groups@));
    assert(groups@.len() == 8);
    let mut v: u128 = 0;
    let mut i: usize = 0;
    while i < 8
        invariant
            i <= 8,
            groups@.len() == 8,
            v == groups_value(groups@.take(i as int)),
        decreases 8 - i,
    {
        proof {
            assert(groups@.take(i + 1).drop_last() =~= groups@.take(i as int));
            lemma_groups_bound(groups@.take(i + 1));
            lemma_pow2_128();
            if i < 7 {
                lemma_pow2_strictly_increases((16 * (i + 1)) as nat, 128);
            }
        }
        v = 0x1_0000 * v + groups[i] as u128;
        i = i + 1;
    }
    assert(groups@.take(8) =~= groups@);
    Some(v)
}

/// The number of addresses.
pub proof fn lemma_pow2_128()
    ensures
        pow2(128) == 0x1_0000_0000_0000_0000_0000_0000_0000_0000,
        pow2(96) == 0x1_0000_0000_0000_0000_0000_0000,
{
    lemma2_to64();
    lemma_pow2_adds(64, 64);
    lemma_pow2_adds(64, 32);
    assert(0x1_0000_0000_0000_0000nat * 0x1_0000_0000_0000_0000nat
        == 0x1_0000_0000_0000_0000_0000_0000_0000_0000nat);
    assert(0x1_0000_0000_0000_0000nat * 0x1_0000_0000nat == 0x1_0000_0000_0000_0000_0000_0000nat);
}

/// Reads an address.
pub(crate) fn read_ip(s: &[char]) -> (read: Option<IpAddr>)
    ensures
        read == ip_read(s@),
{
    match read_v4(s) {
        Some(v) => Some(IpAddr::V4(v)),
        None => match read_v6(s) {
            Some(v) => Some(IpAddr::V6(v)),
            None => None,
        },
    }
}

/// The eight groups of an IPv6 address.
fn split_groups(v: u128) -> (groups: Vec<u16>)
    ensures
        groups@ == groups_of(v as nat, 8),
{
    let mut groups: Vec<u16> = Vec::new();
    push_groups(&mut groups, v, 8);
    assert(groups@ =~= groups_of(v as nat, 8));
    groups
}

fn push_groups(groups: &mut Vec<u16>, v: u128, n: u8)
    ensures
        final(groups)@ == old(groups)@ + groups_of(v as nat, n as nat),
    decreases n,
{
    let ghost start = groups@;
    if n > 0 {
        push_groups(groups, v / 0x1_0000, n - 1);
        groups.push((v % 0x1_0000) as u16);
    }
    assert(groups@ =~= start + groups_of(v as nat, n as nat));
}

/// Appends groups in hexadecimal with colons between them.
fn push_group_text(text: &mut String, groups: &Vec<u16>, from: usize, to: usize)
    requires
        from <= to <= groups@.len(),
    ensures
        final(text)@ == old(text)@ + groups_text(groups@.subrange(from as int, to as int)),
    decreases to - from,
{
    let ghost start = text@;
    let ghost part = groups@.subrange(from as int, to as int);
    if from < to {
        push_number(text, groups[from] as u128, 16);
        if from + 1 < to {
            text.push(':');
            push_group_text(text, groups, from + 1, to);
            assert(part.drop_first() =~= groups@.subrange(from + 1, to as int));
        }
    }
    assert(text@ =~= start + groups_text(part));
}

/// The longest run of zero groups, the first of equally long ones.
fn longest_zero_run(groups: &Vec<u16>) -> (run: (usize, usize))
    requires
        groups@.len() == 8,
    ensures
        zero_run(groups@, run.0 as int, run.1 as int),
        forall|b: int, m: int| #[trigger]
            zero_run(groups@, b, m) ==> m < run.1 || (m == run.1 && run.0 <= b) || m == 0,
{
    let mut best_at: usize = 0;
    let mut best: usize = 0;
    let mut a: usize = 0;
    while a < 8
        invariant
            best_at <= a <= 8,
            groups@.len() == 8,
            zero_run(groups@, best_at as int, best as int),
            forall|b: int, m: int| #[trigger]
                zero_run(groups@, b, m) && b < a ==> m < best || (m == best && best_at <= b) || m
                    == 0,
        decreases 8 - a,
    {
        let mut n: usize = 0;
        while a + n < 8 && groups[a + n] == 0
            invariant
                a + n <= 8,
                groups@.len() == 8,
                zero_run(groups@, a as int, n as int),
            decreases 8 - n,
        {
            n = n + 1;
        }
        proof {
            assert forall|m: int| #[trigger] zero_run(groups@, a as int, m) implies m <= n by {
                if m > n {
                    assert(groups@[a + n] == 0);
                }
            }
        }
        if n > best {
            best = n;
            best_at = a;
        }
        a = a + 1;
    }
    (best_at, best)
}

/// Appends the text of an IPv6 address.
fn push_v6(text: &mut String, v: u128)
    ensures
        final(text)@ == old(text)@ + v6_text(v),
{
    let ghost start = text@;
    if v / 0x1_0000_0000 == 0xffff {
        text.push(':');
        text.push(':');
        text.push('f');
        text.push('f');
        text.push('f');
        text.push('f');
        text.push(':');
        push_v4(text, (v % 0x1_0000_0000) as u32);
        assert(text@ =~= start + v6_text(v));
        return;
    }
    let groups = split_groups(v);
    proof {
        lemma_groups_of_len(v as nat, 8);
    }
    let (at, len) = longest_zero_run(&groups);
    let ghost g = groups@;
    if len >= 2 {
        proof {
            assert(is_best_run(g, at as int, len as int));
            lemma_best_run_unique(g, at as int, len as int);
            assert(g.subrange(0, at as int) =~= g.take(at as int));
            assert(g.subrange(at + len, 8) =~= g.skip(at + len));
        }
        push_group_text(text, &groups, 0, at);
        text.push(':');
        text.push(':');
        push_group_text(text, &groups, at + len, 8);
    } else {
        proof {
            assert forall|a: int, n: int| !is_best_run(g, a, n) by {
                if is_best_run(g, a, n) {
                    assert(zero_run(g, a, n));
                }
            }
            assert(g.subrange(0, 8) =~= g);
        }
        push_group_text(text, &groups, 0, 8);
    }
    assert(text@ =~= start + v6_text(v));
}

/// There is one best run at most.
proof fn lemma_best_run_unique(g: Seq<u16>, a: int, n: int)
    requires
        is_best_run(g, a, n),
    ensures
        (choose|b: int, m: int| is_best_run(g, b, m)) == (a, n),
{
    let (b, m) = choose|b: int, m: int| is_best_run(g, b, m);
    assert(is_best_run(g, b, m));
    assert(zero_run(g, b, m));
    assert(zero_run(g, a, n));
}

/// Appends the text of an address.
pub(crate) fn push_ip(text: &mut String, ip: IpAddr)
    ensures
        final(text)@ == old(text)@ + ip_text(ip),
{
    match ip {
        IpAddr::V4(v) => push_v4(text, v),
        IpAddr::V6(v) => push_v6(text, v),
    }
}

impl IpAddr {
    /// Reads an address from its text.
    pub fn parse(text: &str) -> (ip: Option<IpAddr>)
        ensures
            ip == ip_read(text@),
    {
        let chars = to_chars(text);
        read_ip(chars.as_slice())
    }

    /// The text of the address.
    pub fn to_text(self) -> (text: String)
        ensures
            text@ == ip_text(self),
    {
        let mut text = String::new();
        push_ip(&mut text, self);
        assert(text@ =~= ip_text(self));
        text
    }
}

proof fn lemma_groups_of_len(v: nat, n: nat)
    ensures
        groups_of(v, n).len() == n,
    decreases n,
{
    if n > 0 {
        lemma_groups_of_len(v / 0x1_0000, (n - 1) as nat);
    }
}

/// A number comes back from its groups.
proof fn lemma_groups_value(v: nat, n: nat)
    requires
        v < pow2(16 * n),
    ensures
        groups_value(groups_of(v, n)) == v,
    decreases n,
{
    lemma2_to64();
    if n > 0 {
        lemma_pow2_adds(16 * (n - 1) as nat, 16);
        assert(v / 0x1_0000 < pow2(16 * (n - 1) as nat)) by (nonlinear_arith)
            requires
                v < pow2(16 * (n - 1) as nat) * 0x1_0000,
        ;
        lemma_groups_value(v / 0x1_0000, (n - 1) as nat);
        assert(groups_of(v, n).drop_last() =~= groups_of(v / 0x1_0000, (n - 1) as nat));
    }
}

/// A group comes back from its digits, of which there are at most four.
proof fn lemma_group_reads(v: nat)
    requires
        v < 0x1_0000,
    ensures
        hex_group(number_text(v, 16)) == Some(v as u16),
{
    lemma_number_text(v, 16);
    lemma_hex_text(v);
    lemma_hex_len(v);
}

proof fn lemma_hex_text(v: nat)
    ensures
        hex_value(number_text(v, 16)) == v,
    decreases v,
{
    let s = number_text(v, 16);
    if v < 16 {
        lemma_digit_char(v, 16);
        assert(s.drop_last() =~= Seq::empty());
        assert(hex_value(s.drop_last()) == 0);
    } else {
        lemma_hex_text(v / 16);
        lemma_digit_char(v % 16, 16);
        assert(s.drop_last() =~= number_text(v / 16, 16));
    }
}

proof fn lemma_hex_len(v: nat)
    requires
        v < 0x1_0000,
    ensures
        number_text(v, 16).len() <= 4,
{
    reveal_with_fuel(number_text, 4);
}

/// Groups come back from their text.
proof fn lemma_groups_text_reads(s: Seq<char>, from: int, g: Seq<u16>, allow_v4: bool)
    requires
        g.len() >= 1,
        0 <= from <= s.len(),
        s.skip(from) == groups_text(g),
    ensures
        groups_from(s, from, allow_v4) == Some(g),
    decreases g.len(),
{
    let first = number_text(g[0] as nat, 16);
    lemma_number_text(g[0] as nat, 16);
    lemma_group_reads(g[0] as nat);
    let t = groups_text(g);
    assert(t.len() == s.len() - from);
    assert forall|i: int| from <= i < from + first.len() implies s[i] != ':' by {
        assert(s.skip(from)[i - from] == s[i]);
        assert(t[i - from] == first[i - from]);
    }
    if g.len() == 1 {
        lemma_find_at(s, ':', from, s.len() as int);
        assert(s.subrange(from, s.len() as int) =~= first);
        assert(seq![g[0]] =~= g);
    } else {
        let end = from + first.len();
        assert(t[first.len() as int] == ':');
        assert(s.skip(from)[first.len() as int] == s[end]);
        lemma_find_at(s, ':', from, end);
        assert(s.subrange(from, end) =~= first) by {
            assert forall|i: int| 0 <= i < first.len() implies s.subrange(from, end)[i]
                == first[i] by {
                assert(s.skip(from)[i] == t[i]);
            }
        }
        assert(s.skip(end + 1) =~= groups_text(g.drop_first())) by {
            assert(t =~= first + seq![':'] + groups_text(g.drop_first()));
            assert forall|i: int| 0 <= i < s.skip(end + 1).len() implies s.skip(end + 1)[i]
                == groups_text(g.drop_first())[i] by {
                assert(s.skip(from)[first.len() + 1 + i] == t[first.len() + 1 + i]);
            }
        }
        lemma_groups_text_reads(s, end + 1, g.drop_first(), allow_v4);
        assert(seq![g[0]] + g.drop_first() =~= g);
    }
}

/// In the text of groups a colon stands between digits only.
proof fn lemma_groups_text_shape(g: Seq<u16>)
    ensures
        ({
            let t = groups_text(g);
            &&& g.len() > 0 ==> t.len() > 0
            &&& forall|i: int| 0 <= i < t.len() ==> (#[trigger] t[i] == ':' || digit_value(t[i], 16) is Some)
            &&& t.len() > 0 ==> t[0] != ':' && t.last() != ':'
            &&& forall|i: int| 0 <= i < t.len() - 1 && #[trigger] t[i] == ':' ==> t[i + 1] != ':'
        }),
    decreases g.len(),
{
    let t = groups_text(g);
    if g.len() > 0 {
        let first = number_text(g[0] as nat, 16);
        lemma_number_text(g[0] as nat, 16);
        if g.len() > 1 {
            let rest = groups_text(g.drop_first());
            lemma_groups_text_shape(g.drop_first());
            assert(t =~= first + seq![':'] + rest);
            let n = first.len() as int;
            assert forall|i: int| 0 <= i < t.len() implies (#[trigger] t[i] == ':' || digit_value(
                t[i],
                16,
            ) is Some) by {
                if i < n {
                    assert(t[i] == first[i]);
                } else if i > n {
                    assert(t[i] == rest[i - n - 1]);
                }
            }
            assert forall|i: int| 0 <= i < t.len() - 1 && #[trigger] t[i] == ':' implies t[i + 1]
                != ':' by {
                if i < n {
                    assert(t[i] == first[i]);
                } else if i == n {
                    assert(t[i + 1] == rest[0]);
                } else {
                    assert(t[i] == rest[i - n - 1]);
                    assert(t[i + 1] == rest[i - n]);
                }
            }
            assert(t[0] == first[0]);
            assert(t.last() == rest.last());
        } else {
            assert(t == first);
        }
    }
}

proof fn lemma_find_gap_at(s: Seq<char>, from: int, at: int)
    requires
        0 <= from <= at <= s.len(),
        at < s.len() ==> at + 1 < s.len() && s[at] == ':' && s[at + 1] == ':',
        forall|i: int| from <= i < at && i + 1 < s.len() ==> !(#[trigger] s[i] == ':' && s[i + 1] == ':'),
    ensures
        find_gap(s, from) == at,
    decreases at - from,
{
    if from < at {
        if from + 1 < s.len() {
            assert(!(s[from] == ':' && s[from + 1] == ':'));
            lemma_find_gap_at(s, from + 1, at);
        }
    }
}

/// Eight groups come back from their short text.
proof fn lemma_short_text_reads(g: Seq<u16>)
    requires
        g.len() == 8,
    ensures
        v6_groups(short_text(g)) == Some(g),
{
    let t = short_text(g);
    if exists|a: int, n: int| is_best_run(g, a, n) {
        let (a, n) = choose|a: int, n: int| is_best_run(g, a, n);
        assert(is_best_run(g, a, n));
        let head = groups_text(g.take(a));
        let tail = groups_text(g.skip(a + n));
        let k = head.len() as int;
        lemma_groups_text_shape(g.take(a));
        lemma_groups_text_shape(g.skip(a + n));
        assert(t =~= head + seq![':', ':'] + tail);
        assert forall|i: int| 0 <= i < k && i + 1 < t.len() implies !(#[trigger] t[i] == ':'
            && t[i + 1] == ':') by {
            assert(t[i] == head[i]);
            if i + 1 < k {
                assert(t[i + 1] == head[i + 1]);
            } else {
                assert(head[i] == head.last());
            }
        }
        lemma_find_gap_at(t, 0, k);
        assert(t.take(k) =~= head);
        assert(t.skip(k + 2) =~= tail);
        if a > 0 {
            assert(head.skip(0) =~= head);
            lemma_groups_text_reads(head, 0, g.take(a), false);
        } else {
            assert(g.take(a) =~= Seq::empty());
        }
        if a + n < 8 {
            assert(tail.skip(0) =~= tail);
            lemma_groups_text_reads(tail, 0, g.skip(a + n), true);
        } else {
            assert(g.skip(a + n) =~= Seq::empty());
        }
        assert(g.take(a) + zero_groups(n) + g.skip(a + n) =~= g);
    } else {
        lemma_groups_text_shape(g);
        lemma_find_gap_at(t, 0, t.len() as int);
        assert(t.skip(0) =~= t);
        lemma_groups_text_reads(t, 0, g, true);
    }
}

/// A mapped address comes back from its text.
proof fn lemma_mapped_text_reads(low: u32)
    ensures
        v6_groups(seq![':', ':', 'f', 'f', 'f', 'f', ':'] + v4_text(low)) == Some(
            zero_groups(5) + seq![0xffffu16] + v4_groups(low),
        ),
{
    let head = seq![':', ':', 'f', 'f', 'f', 'f', ':'];
    let quad = v4_text(low);
    let t = head + quad;
    lemma_v4_parts(low);
    lemma_v4_round_trip(low);
    lemma_find_gap_at(t, 0, 0);
    assert(t.take(0) =~= Seq::empty());
    let tail = t.skip(2);
    assert(tail =~= seq!['f', 'f', 'f', 'f', ':'] + quad);
    lemma_find_at(tail, ':', 0, 4);
    let first = tail.subrange(0, 4);
    assert(first =~= seq!['f', 'f', 'f', 'f']);
    assert(hex_group(first) == Some(0xffffu16)) by {
        reveal_with_fuel(hex_value, 5);
        assert(first.drop_last() =~= seq!['f', 'f', 'f']);
        assert(first.drop_last().drop_last() =~= seq!['f', 'f']);
        assert(first.drop_last().drop_last().drop_last() =~= seq!['f']);
        assert(first.drop_last().drop_last().drop_last().drop_last() =~= Seq::empty());
    }
    assert forall|i: int| 5 <= i < tail.len() implies tail[i] != ':' by {
        assert(tail[i] == quad[i - 5]);
    }
    lemma_find_at(tail, ':', 5, tail.len() as int);
    let piece = tail.subrange(5, tail.len() as int);
    assert(piece =~= quad);
    assert(quad.len() > 4);
    assert(groups_from(tail, 5, true) == Some(v4_groups(low)));
    let groups = seq![0xffffu16] + v4_groups(low);
    assert(group_list(tail, true) == Some(groups));
    assert(Seq::<u16>::empty() + zero_groups(5) + groups =~= zero_groups(5) + seq![0xffffu16]
        + v4_groups(low));
}

proof fn lemma_mapped_value(v: u128)
    requires
        v / 0x1_0000_0000 == 0xffff,
    ensures
        groups_value(
            zero_groups(5) + seq![0xffffu16] + v4_groups((v % 0x1_0000_0000) as u32),
        ) == v,
{
    let low = (v % 0x1_0000_0000) as u32;
    let g = zero_groups(5) + seq![0xffffu16] + v4_groups(low);
    let z = zero_groups(5);
    lemma_zero_value(5);
    assert(g.drop_last() =~= z + seq![0xffffu16] + seq![(low / 0x1_0000) as u16]);
    assert(g.drop_last().drop_last() =~= z + seq![0xffffu16]);
    assert(g.drop_last().drop_last().drop_last() =~= z);
    assert(groups_value(z + seq![0xffffu16]) == 0xffff);
    assert(groups_value(g.drop_last()) == 0x1_0000 * 0xffff + low / 0x1_0000);
}

proof fn lemma_zero_value(n: int)
    requires
        n >= 0,
    ensures
        groups_value(zero_groups(n)) == 0,
    decreases n,
{
    if n > 0 {
        assert(zero_groups(n).drop_last() =~= zero_groups(n - 1));
        lemma_zero_value(n - 1);
    }
}

/// The characters of an address's text: digits, colons and dots, and a colon
/// only in the text of an IPv6 address, which always has one.
pub proof fn lemma_ip_text_chars(ip: IpAddr)
    ensures
        forall|i: int| 0 <= i < ip_text(ip).len() ==> {
            let c = #[trigger] ip_text(ip)[i];
            c == ':' || c == '.' || digit_value(c, 16) is Some
        },
        ip_text(ip).len() > 0,
{
    match ip {
        IpAddr::V4(v) => {
            lemma_v4_parts(v);
        },
        IpAddr::V6(v) => {
            if v / 0x1_0000_0000 == 0xffff {
                let low = (v % 0x1_0000_0000) as u32;
                lemma_v4_parts(low);
                let head = seq![':', ':', 'f', 'f', 'f', 'f', ':'];
                assert forall|i: int| 0 <= i < v6_text(v).len() implies {
                    let c = #[trigger] v6_text(v)[i];
                    c == ':' || c == '.' || digit_value(c, 16) is Some
                } by {
                    if i >= 7 {
                        assert(v6_text(v)[i] == v4_text(low)[i - 7]);
                    } else {
                        assert(v6_text(v)[i] == head[i]);
                    }
                }
            } else {
                let g = groups_of(v as nat, 8);
                lemma_groups_of_len(v as nat, 8);
                lemma_groups_text_shape(g);
                if exists|a: int, n: int| is_best_run(g, a, n) {
                    let (a, n) = choose|a: int, n: int| is_best_run(g, a, n);
                    let head = groups_text(g.take(a));
                    let tail = groups_text(g.skip(a + n));
                    lemma_groups_text_shape(g.take(a));
                    lemma_groups_text_shape(g.skip(a + n));
                    let t = v6_text(v);
                    assert(t =~= head + seq![':', ':'] + tail);
                    assert forall|i: int| 0 <= i < t.len() implies {
                        let c = #[trigger] t[i];
                        c == ':' || c == '.' || digit_value(c, 16) is Some
                    } by {
                        if i < head.len() {
                            assert(t[i] == head[i]);
                        } else if i >= head.len() + 2 {
                            assert(t[i] == tail[i - head.len() - 2]);
                        }
                    }
                }
            }
        },
    }
}

/// Numbers of up to two bytes are short.
proof fn lemma_short_numbers(n: nat)
    ensures
        n < 0x100 ==> decimal(n).len() <= 3,
        n < 0x1_0000 ==> number_text(n, 16).len() <= 4,
{
    reveal_with_fuel(number_text, 5);
}

proof fn lemma_v4_text_len(v: u32)
    ensures
        v4_text(v).len() <= 15,
{
    reveal(v4_text);
    lemma_short_numbers(octets(v).0);
    lemma_short_numbers(octets(v).1);
    lemma_short_numbers(octets(v).2);
    lemma_short_numbers(octets(v).3);
}

proof fn lemma_groups_text_len(g: Seq<u16>)
    ensures
        groups_text(g).len() <= 5 * g.len(),
        g.len() > 0 ==> groups_text(g).len() < 5 * g.len(),
    decreases g.len(),
{
    if g.len() > 0 {
        lemma_short_numbers(g[0] as nat);
        lemma_groups_text_len(g.drop_first());
    }
}

/// The text of an address is short.
pub proof fn lemma_ip_text_len(ip: IpAddr)
    ensures
        ip_text(ip).len() <= 39,
{
    match ip {
        IpAddr::V4(v) => {
            lemma_v4_text_len(v);
        },
        IpAddr::V6(v) => {
            if v / 0x1_0000_0000 == 0xffff {
                lemma_v4_text_len((v % 0x1_0000_0000) as u32);
            } else {
                let g = groups_of(v as nat, 8);
                lemma_groups_of_len(v as nat, 8);
                lemma_groups_text_len(g);
                if exists|a: int, n: int| is_best_run(g, a, n) {
                    let (a, n) = choose|a: int, n: int| is_best_run(g, a, n);
                    lemma_groups_text_len(g.take(a));
                    lemma_groups_text_len(g.skip(a + n));
                }
            }
        },
    }
}

/// A dot stands in the text of an IPv4 address and of a mapped one, and in no
/// other.
pub proof fn lemma_ip_text_dot(ip: IpAddr)
    ensures
        ip_text(ip).contains('.') == (ip matches IpAddr::V6(v) ==> v / 0x1_0000_0000 == 0xffff),
{
    match ip {
        IpAddr::V4(v) => {
            lemma_v4_dot(v);
        },
        IpAddr::V6(v) => {
            let t = v6_text(v);
            if v / 0x1_0000_0000 == 0xffff {
                let low = (v % 0x1_0000_0000) as u32;
                lemma_v4_dot(low);
                let i = choose|i: int| 0 <= i < v4_text(low).len() && v4_text(low)[i] == '.';
                assert(t[i + 7] == '.');
            } else {
                let g = groups_of(v as nat, 8);
                lemma_groups_text_shape(g);
                if exists|a: int, n: int| is_best_run(g, a, n) {
                    let (a, n) = choose|a: int, n: int| is_best_run(g, a, n);
                    let head = groups_text(g.take(a));
                    let tail = groups_text(g.skip(a + n));
                    lemma_groups_text_shape(g.take(a));
                    lemma_groups_text_shape(g.skip(a + n));
                    assert(t =~= head + seq![':', ':'] + tail);
                    assert forall|i: int| 0 <= i < t.len() implies t[i] != '.' by {
                        if i < head.len() {
                            assert(t[i] == head[i]);
                        } else if i >= head.len() + 2 {
                            assert(t[i] == tail[i - head.len() - 2]);
                        }
                    }
                }
            }
        },
    }
}

proof fn lemma_v4_dot(v: u32)
    ensures
        v4_text(v).contains('.'),
{
    reveal(v4_text);
    let first = decimal(octets(v).0);
    assert(v4_text(v)[first.len() as int] == '.');
}

/// No IPv6 text reads as an IPv4 address: it has a colon.
proof fn lemma_v6_text_not_v4(v: u128)
    ensures
        v4_read(v6_text(v)) is None,
{
    let t = v6_text(v);
    assert(exists|i: int| 0 <= i < t.len() && t[i] == ':') by {
        if v / 0x1_0000_0000 == 0xffff {
            assert(t[0] == ':');
        } else {
            let g = groups_of(v as nat, 8);
            lemma_groups_of_len(v as nat, 8);
            if exists|a: int, n: int| is_best_run(g, a, n) {
                let (a, n) = choose|a: int, n: int| is_best_run(g, a, n);
                assert(t[groups_text(g.take(a)).len() as int] == ':');
            } else {
                let first = number_text(g[0] as nat, 16);
                assert(t == first + seq![':'] + groups_text(g.drop_first()));
                assert(t[first.len() as int] == ':');
            }
        }
    }
    let i = choose|i: int| 0 <= i < t.len() && t[i] == ':';
    if exists|w: u32| t == v4_text(w) {
        let w = choose|w: u32| t == v4_text(w);
        lemma_v4_parts(w);
        assert(v4_text(w)[i] == ':');
    }
}

/// Reading the text of an address gives the address back.
pub proof fn address_text_round_trip(ip: IpAddr)
    ensures
        ip_read(ip_text(ip)) == Some(ip),
{
    match ip {
        IpAddr::V4(v) => {
            lemma_v4_round_trip(v);
        },
        IpAddr::V6(v) => {
            lemma_v6_text_not_v4(v);
            if v / 0x1_0000_0000 == 0xffff {
                lemma_mapped_text_reads((v % 0x1_0000_0000) as u32);
                lemma_mapped_value(v);
            } else {
                let g = groups_of(v as nat, 8);
                lemma_groups_of_len(v as nat, 8);
                lemma_short_text_reads(g);
                lemma_pow2_128();
                lemma_groups_value(v as nat, 8);
            }
        },
    }
}

/// An IPv4 address is written as its four bytes, most significant first, in
/// decimal with dots between them, and no other text writes it.
pub proof fn ipv4_texts_are_four_bytes(a: u8, b: u8, c: u8, d: u8, s: Seq<char>)
    ensures
        ({
            let ip = IpAddr::V4(
                (a as nat * 0x100_0000 + b as nat * 0x1_0000 + c as nat * 0x100 + d as nat) as u32,
            );
            let text = decimal(a as nat) + seq!['.'] + decimal(b as nat) + seq!['.'] + decimal(
                c as nat,
            ) + seq!['.'] + decimal(d as nat);
            &&& ip_text(ip) == text
            &&& ip_read(text) == Some(ip)
            &&& ip_read(s) == Some(ip) ==> s == text
        }),
{
    let v = (a as nat * 0x100_0000 + b as nat * 0x1_0000 + c as nat * 0x100 + d as nat) as u32;
    lemma_of_octets(a as nat, b as nat, c as nat, d as nat);
    reveal(v4_text);
    lemma_v4_round_trip(v);
    if ip_read(s) == Some(IpAddr::V4(v)) {
        let w = choose|w: u32| s == v4_text(w);
        assert(s == v4_text(w));
    }
}

proof fn lemma_group_at(g: Seq<u16>, i: nat)
    requires
        i < g.len(),
    ensures
        groups_value(g) / pow2(16 * (g.len() - 1 - i) as nat) % 0x1_0000 == g[i as int],
    decreases g.len(),
{
    lemma2_to64();
    let high = groups_value(g.drop_last());
    let low = g.last() as nat;
    if i == g.len() - 1 {
        assert((0x1_0000 * high + low) / 1 == 0x1_0000 * high + low);
    } else {
        lemma_group_at(g.drop_last(), i);
        let place = 16 * (g.len() - 2 - i) as nat;
        lemma_pow2_adds(16, place);
        lemma_pow2_pos(place);
        lemma_div_denominator((0x1_0000 * high + low) as int, 0x1_0000, pow2(place) as int);
        assert((0x1_0000 * high + low) / 0x1_0000 == high);
        assert(16 + place == 16 * (g.len() - 1 - i));
    }
}

proof fn lemma_group_of_at(v: nat, n: nat, i: nat)
    requires
        i < n,
    ensures
        groups_of(v, n).len() == n,
        groups_of(v, n)[i as int] == v / pow2(16 * (n - 1 - i) as nat) % 0x1_0000,
    decreases n,
{
    lemma2_to64();
    lemma_groups_of_len(v, n);
    lemma_groups_of_len(v / 0x1_0000, (n - 1) as nat);
    if i == n - 1 {
        assert(v / 1 == v);
    } else {
        lemma_group_of_at(v / 0x1_0000, (n - 1) as nat, i);
        let place = 16 * (n - 2 - i) as nat;
        lemma_pow2_adds(16, place);
        lemma_pow2_pos(place);
        lemma_div_denominator(v as int, 0x1_0000, pow2(place) as int);
        assert(16 + place == 16 * (n - 1 - i));
    }
}

/// Groups are written in hexadecimal with colons between them.
pub proof fn groups_are_parted_by_colons(first: u16, rest: Seq<u16>)
    ensures
        groups_text(Seq::empty()) == Seq::<char>::empty(),
        groups_text(seq![first]) == number_text(first as nat, 16),
        rest.len() > 0 ==> groups_text(seq![first] + rest) == number_text(first as nat, 16) + seq![
            ':',
        ] + groups_text(rest),
{
    assert((seq![first] + rest).drop_first() =~= rest);
}

/// A text with a colon is no IPv4 address.
proof fn lemma_colon_not_v4(s: Seq<char>, i: int)
    requires
        0 <= i < s.len(),
        s[i] == ':',
    ensures
        v4_read(s) is None,
{
    if exists|w: u32| s == v4_text(w) {
        let w = choose|w: u32| s == v4_text(w);
        lemma_v4_parts(w);
        assert(v4_text(w)[i] == ':');
    }
}

/// Eight groups, most significant first, write an IPv6 address.
pub proof fn eight_groups_are_an_address(g: Seq<u16>, i: nat)
    requires
        g.len() == 8,
        i < 8,
    ensures
        ip_read(groups_text(g)) matches Some(IpAddr::V6(v)) && v as nat / pow2(
            16 * (7 - i) as nat,
        ) % 0x1_0000 == g[i as int],
{
    let t = groups_text(g);
    let first = number_text(g[0] as nat, 16);
    lemma_groups_text_shape(g);
    assert(t[first.len() as int] == ':');
    lemma_colon_not_v4(t, first.len() as int);
    lemma_find_gap_at(t, 0, t.len() as int);
    assert(t.skip(0) =~= t);
    lemma_groups_text_reads(t, 0, g, true);
    lemma_groups_bound(g);
    lemma_pow2_128();
    lemma_group_at(g, i);
}

/// A double colon stands for as many groups of zero as are missing.
pub proof fn a_double_colon_fills_with_zeros(head: Seq<u16>, tail: Seq<u16>, i: nat)
    requires
        head.len() + tail.len() <= 7,
        i < 8,
    ensures
        ip_read(groups_text(head) + seq![':', ':'] + groups_text(tail)) matches Some(
            IpAddr::V6(v),
        ) && v as nat / pow2(16 * (7 - i) as nat) % 0x1_0000 == if i < head.len() {
            head[i as int] as nat
        } else if i >= 8 - tail.len() {
            tail[i - (8 - tail.len())] as nat
        } else {
            0nat
        },
{
    let (h, l) = (groups_text(head), groups_text(tail));
    let t = h + seq![':', ':'] + l;
    let k = h.len() as int;
    let g = head + zero_groups(8 - head.len() - tail.len()) + tail;
    lemma_groups_text_shape(head);
    lemma_groups_text_shape(tail);
    assert(t[k] == ':');
    lemma_colon_not_v4(t, k);
    assert forall|j: int| 0 <= j < k && j + 1 < t.len() implies !(#[trigger] t[j] == ':' && t[j + 1]
        == ':') by {
        assert(t[j] == h[j]);
        if j + 1 < k {
            assert(t[j + 1] == h[j + 1]);
        } else {
            assert(h[j] == h.last());
        }
    }
    lemma_find_gap_at(t, 0, k);
    assert(t.take(k) =~= h);
    assert(t.skip(k + 2) =~= l);
    if head.len() > 0 {
        assert(h.skip(0) =~= h);
        lemma_groups_text_reads(h, 0, head, false);
    } else {
        assert(head =~= Seq::empty());
    }
    if tail.len() > 0 {
        assert(l.skip(0) =~= l);
        lemma_groups_text_reads(l, 0, tail, true);
    } else {
        assert(tail =~= Seq::empty());
    }
    assert(v6_groups(t) == Some(g));
    lemma_groups_bound(g);
    lemma_pow2_128();
    lemma_group_at(g, i);
}

/// How an IPv6 address is written: the range of IPv4 addresses behind `::ffff:`
/// with dots; any other with its longest run of at least two groups of zero left
/// out, of equally long ones the first; and with all its groups where there is no
/// such run.
pub proof fn ipv6_texts_leave_out_zeros(v: u128, g: Seq<u16>, a: int, n: int)
    requires
        g.len() == 8,
        forall|i: nat|
            i < 8 ==> #[trigger] g[i as int] == v as nat / pow2(16 * (7 - i) as nat) % 0x1_0000,
    ensures
        v / 0x1_0000_0000 == 0xffff ==> ip_text(IpAddr::V6(v)) == seq![
            ':',
            ':',
            'f',
            'f',
            'f',
            'f',
            ':',
        ] + ip_text(IpAddr::V4((v % 0x1_0000_0000) as u32)),
        v / 0x1_0000_0000 != 0xffff && (forall|i: int|
            0 <= i < 7 ==> !(#[trigger] g[i] == 0 && g[i + 1] == 0)) ==> ip_text(IpAddr::V6(v))
            == groups_text(g),
        v / 0x1_0000_0000 != 0xffff && n >= 2 && 0 <= a && a + n <= 8 && (forall|i: int|
            a <= i < a + n ==> #[trigger] g[i] == 0) && (forall|b: int, m: int|
            0 <= b && 0 <= m && b + m <= 8 && #[trigger] zeros_between(g, b, b + m) ==> m < n || (m
                == n && a <= b)) ==> ip_text(IpAddr::V6(v)) == groups_text(g.take(a)) + seq![
            ':',
            ':',
        ] + groups_text(g.skip(a + n)),
{
    let own = groups_of(v as nat, 8);
    lemma_groups_of_len(v as nat, 8);
    assert forall|i: int| 0 <= i < 8 implies own[i] == g[i] by {
        lemma_group_of_at(v as nat, 8, i as nat);
        assert(g[(i as nat) as int] == v as nat / pow2(16 * (7 - i as nat) as nat) % 0x1_0000);
    }
    assert(own =~= g);
    if forall|i: int| 0 <= i < 7 ==> !(#[trigger] g[i] == 0 && g[i + 1] == 0) {
        if exists|b: int, m: int| is_best_run(g, b, m) {
            let (b, m) = choose|b: int, m: int| is_best_run(g, b, m);
            assert(g[b] == 0 && g[b + 1] == 0);
        }
    }
    if n >= 2 && 0 <= a && a + n <= 8 && (forall|i: int|
        a <= i < a + n ==> #[trigger] g[i] == 0) && (forall|b: int, m: int|
        0 <= b && 0 <= m && b + m <= 8 && #[trigger] zeros_between(g, b, b + m) ==> m < n || (m
            == n && a <= b)) {
        assert forall|b: int, m: int| #[trigger] zero_run(g, b, m) implies m < n || (m == n && a
            <= b) by {
            assert(zeros_between(g, b, b + m));
        }
        assert(is_best_run(g, a, n));
        lemma_best_run_unique(g, a, n);
    }
}

/// The groups from position `a` up to position `b` are zero.
pub open spec fn zeros_between(g: Seq<u16>, a: int, b: int) -> bool {
    forall|i: int| a <= i < b ==> #[trigger] g[i] == 0
}

/// A group is one to four hexadecimal digits of either case; a further digit
/// multiplies by sixteen and adds.
pub proof fn groups_are_read_digit_by_digit(s: Seq<char>, c: char)
    requires
        s.len() == 0 || hex_group(s) is Some,
    ensures
        ({
            let before = if s.len() == 0 {
                0nat
            } else {
                hex_group(s)->0 as nat
            };
            let digit = if '0' <= c && c <= '9' {
                Some(c as u32 - 48)
            } else if 'a' <= c && c <= 'f' {
                Some(c as u32 - 87)
            } else if 'A' <= c && c <= 'F' {
                Some(c as u32 - 55)
            } else {
                None
            };
            hex_group(s.push(c)) == match digit {
                Some(d) => if s.len() < 4 {
                    Some((16 * before + d) as u16)
                } else {
                    None
                },
                None => None,
            }
        }),
{
    let all = s.push(c);
    assert(all.drop_last() =~= s);
    lemma_hex_bound(s);
    lemma2_to64();
    if s.len() < 4 {
        if s.len() > 0 && s.len() < 3 {
            lemma_pow2_strictly_increases(4 * s.len(), 12);
        }
        assert(hex_value(s) < 0x1000) by {
            if s.len() == 0 {
                assert(hex_value(s) == 0);
            } else if s.len() == 3 {
                assert(pow2(12) == 0x1000);
            }
        }
    }
    if all_digits(all, 16) {
        assert(digit_value(all[s.len() as int], 16) is Some);
    } else if s.len() == 0 || all_digits(s, 16) {
        let i = choose|i: int| 0 <= i < all.len() && digit_value(#[trigger] all[i], 16) is None;
        if i < s.len() {
            assert(all[i] == s[i]);
        }
    }
}

/// The width of an address, its number, and groups that are zero.
pub proof fn addresses_have_a_width_and_a_number(v: u32, w: u128, g: Seq<u16>, a: int, b: int)
    ensures
        IpAddr::V4(v).width() == 32,
        IpAddr::V6(w).width() == 128,
        IpAddr::V4(v).value() == v,
        IpAddr::V6(w).value() == w,
        zeros_between(g, a, b) <==> forall|i: int| a <= i < b ==> #[trigger] g[i] == 0,
{
}

proof fn lemma_groups_shift(before: Seq<char>, s: Seq<char>, from: int, allow_v4: bool)
    requires
        0 <= from <= s.len(),
    ensures
        groups_from(before + s, before.len() + from, allow_v4) == groups_from(s, from, allow_v4),
    decreases s.len() - from,
{
    let all = before + s;
    let n = before.len() as int;
    lemma_find(s, ':', from);
    let end = find(s, ':', from);
    assert forall|i: int| n + from <= i < n + end implies all[i] != ':' by {
        assert(all[i] == s[i - n]);
    }
    if end < s.len() {
        assert(all[n + end] == s[end]);
    }
    lemma_find_at(all, ':', n + from, n + end);
    assert(all.subrange(n + from, n + end) =~= s.subrange(from, end));
    if end < s.len() {
        lemma_groups_shift(before, s, end + 1, allow_v4);
    }
}

/// Groups stand between colons: each piece is a group of hexadecimal digits. The
/// last may be an IPv4 address, where that is allowed, which fills two groups, the
/// first with its upper half. No piece may be empty.
pub proof fn groups_are_read_between_colons(piece: Seq<char>, rest: Seq<char>, allow_v4: bool)
    requires
        forall|i: int| 0 <= i < piece.len() ==> #[trigger] piece[i] != ':',
    ensures
        group_list(Seq::empty(), allow_v4) == Some(Seq::<u16>::empty()),
        hex_group(piece) matches Some(g) ==> group_list(piece, allow_v4) == Some(seq![g]),
        hex_group(piece) is None && piece.len() > 0 && (!allow_v4 || v4_read(piece) is None)
            ==> group_list(piece, allow_v4) is None,
        hex_group(piece) is None && piece.len() > 0 && allow_v4 && v4_read(piece) is Some
            ==> group_list(piece, allow_v4) == Some(
            seq![
                (v4_read(piece)->0 / 0x1_0000) as u16,
                (v4_read(piece)->0 % 0x1_0000) as u16,
            ],
        ),
        hex_group(piece) is Some && rest.len() > 0 && group_list(rest, allow_v4) is Some
            ==> group_list(piece + seq![':'] + rest, allow_v4) == Some(
            seq![hex_group(piece)->0] + group_list(rest, allow_v4)->0,
        ),
        hex_group(piece) is None || rest.len() == 0 || group_list(rest, allow_v4) is None
            ==> group_list(piece + seq![':'] + rest, allow_v4) is None,
{
    let n = piece.len() as int;
    lemma_find_at(piece, ':', 0, n);
    assert(piece.subrange(0, n) =~= piece);
    let all = piece + seq![':'] + rest;
    assert forall|i: int| 0 <= i < n implies all[i] != ':' by {
        assert(all[i] == piece[i]);
    }
    assert(all[n] == ':');
    lemma_find_at(all, ':', 0, n);
    assert(all.subrange(0, n) =~= piece);
    assert(all =~= (piece + seq![':']) + rest);
    lemma_groups_shift(piece + seq![':'], rest, 0, allow_v4);
    if rest.len() == 0 {
        lemma_find_at(rest, ':', 0, 0);
        assert(rest.subrange(0, 0) =~= rest);
        lemma_dotted_length(rest);
        assert(groups_from(rest, 0, allow_v4) is None);
    }
    assert(groups_from(all, n + 1, allow_v4) == groups_from(rest, 0, allow_v4));
    assert(group_list(all, allow_v4) == groups_from(all, 0, allow_v4));
}

/// An IPv4 text is not empty.
proof fn lemma_dotted_length(s: Seq<char>)
    requires
        s.len() == 0,
    ensures
        v4_read(s) is None,
{
    if v4_read(s) is Some {
        lemma_v4_dot(v4_read(s)->0);
    }
}

/// An IPv6 text writes eight groups, or has one double colon with groups on both
/// sides, at most seven together, and zeros between them.
pub proof fn ipv6_texts_write_eight_groups(head: Seq<char>, tail: Seq<char>, s: Seq<char>)
    requires
        head.len() > 0 ==> head.last() != ':',
        forall|i: int|
            0 <= i < head.len() - 1 ==> !(#[trigger] head[i] == ':' && head[i + 1] == ':'),
        forall|i: int| 0 <= i < s.len() - 1 ==> !(#[trigger] s[i] == ':' && s[i + 1] == ':'),
    ensures
        v6_groups(s) == match group_list(s, true) {
            Some(all) => if all.len() == 8 {
                Some(all)
            } else {
                None
            },
            None => None,
        },
        v6_groups(head + seq![':', ':'] + tail) == match (
            group_list(head, false),
            group_list(tail, true),
        ) {
            (Some(a), Some(b)) => if a.len() + b.len() <= 7 {
                Some(a + Seq::new((8 - a.len() - b.len()) as nat, |i: int| 0u16) + b)
            } else {
                None
            },
            _ => None,
        },
{
    lemma_find_gap_at(s, 0, s.len() as int);
    let all = head + seq![':', ':'] + tail;
    let n = head.len() as int;
    assert(all[n] == ':' && all[n + 1] == ':');
    assert forall|i: int| 0 <= i < n && i + 1 < all.len() implies !(#[trigger] all[i] == ':'
        && all[i + 1] == ':') by {
        assert(all[i] == head[i]);
        if i + 1 < n {
            assert(all[i + 1] == head[i + 1]);
        }
    }
    lemma_find_gap_at(all, 0, n);
    assert(all.take(n) =~= head);
    assert(all.skip(n + 2) =~= tail);
}

/// A text is an IPv4 address if it can be, else the IPv6 address with the groups
/// that it writes, the most significant first, and else none.
pub proof fn texts_are_ipv4_or_ipv6_addresses(s: Seq<char>, i: nat)
    requires
        i < 8,
    ensures
        v4_read(s) matches Some(v) ==> ip_read(s) == Some(IpAddr::V4(v)),
        v4_read(s) is None && v6_groups(s) is None ==> ip_read(s) is None,
        v4_read(s) is None && v6_groups(s) is Some ==> {
            &&& v6_groups(s)->0.len() == 8
            &&& ip_read(s) is Some && ip_read(s)->0 is V6
            &&& ip_read(s)->0->V6_0 as nat / pow2(16 * (7 - i) as nat) % 0x1_0000 == v6_groups(
                s,
            )->0[i as int]
        },
{
    if let Some(g) = v6_groups(s) {
        lemma_groups_bound(g);
        lemma_pow2_128();
        lemma_group_at(g, i);
    }
}

} // verus!
