//! Network prefixes: text, bits, and the numbers of addresses they cover.

use crate::addr::{
    address_text_round_trip, ip_read, ip_text, lemma_ip_text_chars, lemma_ip_text_dot,
    lemma_pow2_128, push_ip, read_ip, IpAddr,
};
use crate::coder::{
    be_bits, be_value, lemma_be_bit, lemma_be_bits, lemma_be_bits_len, lemma_be_value,
};
use crate::text::{
    decimal, digit_value, find, find_char, lemma_decimal_reads, lemma_find_at, lemma_number_text,
    parse_number, push_number, read_number, to_chars, IntError,
};
use vstd::arithmetic::div_mod::{
    lemma_div_denominator, lemma_div_multiples_vanish, lemma_fundamental_div_mod,
    lemma_fundamental_div_mod_converse, lemma_mod_multiples_basic, lemma_small_mod,
};
use vstd::arithmetic::power2::{
    lemma2_to64, lemma_pow2_adds, lemma_pow2_pos, lemma_pow2_strictly_increases,
    lemma_pow2_unfold, pow2,
};
use vstd::bits::lemma_u128_shr_is_div;
use vstd::prelude::*;
use vstd::slice::slice_subrange;

verus! {

/// Why a text is not a network.
#[derive(Debug, Clone, Copy, PartialEq, Eq, Structural)]
pub enum NetworkFault {
    /// There is no slash, the length is out of range, or host bits are set.
    Invalid,
    /// The address does not parse.
    Addr,
    /// The length does not parse.
    PrefixLen(IntError),
}

/// Failure parsing a network.
#[derive(Debug, PartialEq, Eq)]
pub enum ParseNetworkError {
    Invalid { network: String },
    InvalidAddr { network: String },
    InvalidPrefixLen { network: String, source: IntError },
}

impl ParseNetworkError {
    /// What is wrong.
    pub open spec fn fault(self) -> NetworkFault {
        match self {
            ParseNetworkError::Invalid { .. } => NetworkFault::Invalid,
            ParseNetworkError::InvalidAddr { .. } => NetworkFault::Addr,
            ParseNetworkError::InvalidPrefixLen { source, .. } => NetworkFault::PrefixLen(source),
        }
    }

    /// The text that was to be parsed.
    pub open spec fn input(self) -> Seq<char> {
        match self {
            ParseNetworkError::Invalid { network } => network@,
            ParseNetworkError::InvalidAddr { network } => network@,
            ParseNetworkError::InvalidPrefixLen { network, .. } => network@,
        }
    }

    /// What a reader is told about the error.
    pub open spec fn text(self) -> Seq<char> {
        "invalid network '"@ + self.input() + "'"@
    }

    /// What a reader is told about the error.
    pub fn message(&self) -> (message: String)
        ensures
            message@ == self.text(),
    {
        let network = match self {
            ParseNetworkError::Invalid { network } => network,
            ParseNetworkError::InvalidAddr { network } => network,
            ParseNetworkError::InvalidPrefixLen { network, .. } => network,
        };
        let mut message = "invalid network '".to_owned();
        message.append(network.as_str());
        message.append("'");
        message
    }
}

/// Failure counting the addresses of a network.
#[derive(Debug, PartialEq, Eq)]
pub enum NetworkCountError {
    Invalid { network: String },
    PrefixLen(IntError),
}

impl NetworkCountError {
    /// What a reader is told about the error.
    pub fn message(&self) -> (message: String)
        ensures
            message@ == match self {
                NetworkCountError::Invalid { network } => "invalid network '"@ + network@ + "'"@,
                NetworkCountError::PrefixLen(e) => e.text(),
            },
    {
        match self {
            NetworkCountError::Invalid { network } => {
                let mut message = "invalid network '".to_owned();
                message.append(network.as_str());
                message.append("'");
                message
            },
            NetworkCountError::PrefixLen(e) => e.message(),
        }
    }
}

/// The address as a 128-bit number; IPv4 lies in the mapped range.
pub open spec fn addr_value(ip: IpAddr) -> nat {
    match ip {
        IpAddr::V4(v) => 0xffff_0000_0000 + v as nat,
        IpAddr::V6(v) => v as nat,
    }
}

/// The number of bits of a prefix of `len` bits.
pub open spec fn path_len(ip: IpAddr, len: nat) -> nat {
    match ip {
        IpAddr::V4(_) => 96 + len,
        IpAddr::V6(_) => len,
    }
}

/// The bits of a prefix.
pub open spec fn prefix_bits(ip: IpAddr, len: nat) -> Seq<bool> {
    be_bits(addr_value(ip), 128).take(path_len(ip, len) as int)
}

/// No bit behind the prefix is set.
pub open spec fn no_host_bits(ip: IpAddr, len: nat) -> bool {
    len < ip.width() ==> ip.value() % pow2((ip.width() - len) as nat) == 0
}

/// The address and length that a text writes, with no bit behind the prefix.
pub open spec fn net_read(s: Seq<char>) -> Result<(IpAddr, u8), NetworkFault> {
    let slash = find(s, '/', 0);
    if slash >= s.len() {
        Err(NetworkFault::Invalid)
    } else {
        match ip_read(s.take(slash)) {
            None => Err(NetworkFault::Addr),
            Some(ip) => match parse_number(s.skip(slash + 1), 255) {
                Err(e) => Err(NetworkFault::PrefixLen(e)),
                Ok(len) => if len > ip.width() || !no_host_bits(ip, len) {
                    Err(NetworkFault::Invalid)
                } else {
                    Ok((ip, len as u8))
                },
            },
        }
    }
}

/// The text of an address and a length.
pub open spec fn net_text(ip: IpAddr, len: nat) -> Seq<char> {
    ip_text(ip) + seq!['/'] + decimal(len)
}

/// The 128-bit number that a prefix starts, continued with zeros.
pub open spec fn net_value(bits: Seq<bool>) -> nat {
    if bits.len() <= 128 {
        be_value(bits) * pow2((128 - bits.len()) as nat)
    } else {
        be_value(bits.take(128))
    }
}

/// The text of a prefix. The mapped range is written as IPv4.
pub open spec fn network_text(bits: Seq<bool>) -> Seq<char> {
    let v = net_value(bits);
    if bits.len() >= 96 && v / 0x1_0000_0000 == 0xffff {
        net_text(IpAddr::V4((v % 0x1_0000_0000) as u32), (bits.len() - 96) as nat)
    } else {
        net_text(IpAddr::V6(v as u128), bits.len())
    }
}

/// The last position of `c` before `to`; `-1` if there is none.
pub open spec fn find_last(s: Seq<char>, c: char, to: int) -> int
    decreases to,
{
    if to <= 0 {
        -1
    } else if s[to - 1] == c {
        to - 1
    } else {
        find_last(s, c, to - 1)
    }
}

/// The length behind the last slash of a network's text.
pub open spec fn count_len(s: Seq<char>) -> Result<nat, IntError> {
    parse_number(s.skip(find_last(s, '/', s.len() as int) + 1), u32::MAX as nat)
}

/// The number of addresses with a prefix of `len` bits; for all IPv6 addresses
/// the largest number that can be held.
pub open spec fn address_count(s: Seq<char>, len: nat) -> nat {
    if s.contains('.') {
        pow2((32 - len) as nat)
    } else if len == 0 {
        u128::MAX as nat
    } else {
        pow2((128 - len) as nat)
    }
}

/// `2^k` for an exponent that fits.
pub(crate) fn pow2_u128(k: u32) -> (p: u128)
    requires
        k < 128,
    ensures
        p == pow2(k as nat),
        p > 0,
{
    let mut p: u128 = 1;
    let mut i: u32 = 0;
    proof {
        lemma2_to64();
        lemma_pow2_128();
    }
    while i < k
        invariant
            i <= k < 128,
            p == pow2(i as nat),
            p > 0,
            pow2(128) == 0x1_0000_0000_0000_0000_0000_0000_0000_0000,
        decreases k - i,
    {
        proof {
            lemma_pow2_unfold((i + 1) as nat);
            lemma_pow2_strictly_increases((i + 1) as nat, 128);
        }
        p = 2 * p;
        i = i + 1;
    }
    p
}

/// Whether no bit behind the prefix is set.
pub(crate) fn is_canonical(ip: IpAddr, prefix_len: u8) -> (r: bool)
    ensures
        r == no_host_bits(ip, prefix_len as nat),
{
    proof {
        lemma_pow2_128();
    }
    match ip {
        IpAddr::V4(v) => {
            if prefix_len >= 32 {
                return true;
            }
            let p: u128 = pow2_u128(32 - prefix_len as u32);
            v as u128 % p == 0
        },
        IpAddr::V6(v) => {
            if prefix_len >= 128 {
                return true;
            }
            if prefix_len == 0 {
                proof {
                    lemma_small_mod(v as nat, pow2(128));
                }
                return v == 0;
            }
            let p: u128 = pow2_u128(128 - prefix_len as u32);
            v % p == 0
        },
    }
}

/// Reads a network from characters.
pub(crate) fn read_net(s: &[char]) -> (read: Result<(IpAddr, u8), NetworkFault>)
    ensures
        read == net_read(s@),
{
    let len: usize = s.len();
    let slash: usize = find_char(s, '/', 0);
    if slash == len {
        return Err(NetworkFault::Invalid);
    }
    assert(s@.subrange(0, slash as int) =~= s@.take(slash as int));
    let ip = match read_ip(slice_subrange(s, 0, slash)) {
        None => {
            return Err(NetworkFault::Addr);
        },
        Some(ip) => ip,
    };
    assert(s@.subrange(slash + 1, len as int) =~= s@.skip(slash + 1));
    let prefix_len: u64 = match read_number(slice_subrange(s, slash + 1, len), 255) {
        Err(e) => {
            return Err(NetworkFault::PrefixLen(e));
        },
        Ok(n) => n,
    };
    let width: u64 = match ip {
        IpAddr::V4(_) => 32,
        IpAddr::V6(_) => 128,
    };
    if prefix_len > width || !is_canonical(ip, prefix_len as u8) {
        return Err(NetworkFault::Invalid);
    }
    Ok((ip, prefix_len as u8))
}

/// Parses an address and a prefix length. A network with host bits set is
/// rejected, not truncated.
pub fn parse_network_prefix(input: &str) -> (read: Result<(IpAddr, u8), ParseNetworkError>)
    ensures
        match read {
            Ok(net) => net_read(input@) == Ok::<(IpAddr, u8), NetworkFault>(net),
            Err(e) => net_read(input@) == Err::<(IpAddr, u8), NetworkFault>(e.fault()) && e.input()
                == input@,
        },
{
    let chars = to_chars(input);
    match read_net(chars.as_slice()) {
        Ok(net) => Ok(net),
        Err(NetworkFault::Invalid) => Err(ParseNetworkError::Invalid { network: input.to_owned() }),
        Err(NetworkFault::Addr) => Err(
            ParseNetworkError::InvalidAddr { network: input.to_owned() },
        ),
        Err(NetworkFault::PrefixLen(source)) => Err(
            ParseNetworkError::InvalidPrefixLen { network: input.to_owned(), source },
        ),
    }
}

/// A bit of a number written in binary.
pub proof fn lemma_be_bits_index(v: nat, width: nat, i: int)
    requires
        0 <= i < width,
    ensures
        be_bits(v, width).len() == width,
        be_bits(v, width)[i] == ((v / pow2((width - 1 - i) as nat)) % 2 == 1),
    decreases width,
{
    lemma_be_bits_len(v, width);
    lemma_be_bits_len(v / 2, (width - 1) as nat);
    if i == width - 1 {
        lemma2_to64();
        assert(v / pow2(0) == v);
    } else {
        lemma_be_bits_index(v / 2, (width - 1) as nat, i);
        let k = (width - 2 - i) as nat;
        lemma_pow2_pos(k);
        lemma_pow2_unfold(k + 1);
        lemma_div_denominator(v as int, 2, pow2(k) as int);
    }
}

/// The bits of a prefix; bits behind it are left out.
pub fn ip_to_bits(ip: IpAddr, prefix_len: u8) -> (bits: Vec<bool>)
    requires
        prefix_len <= ip.width(),
    ensures
        bits@ == prefix_bits(ip, prefix_len as nat),
{
    let (value, count): (u128, usize) = match ip {
        IpAddr::V4(v) => (0xffff_0000_0000u128 + v as u128, prefix_len as usize + 96),
        IpAddr::V6(v) => (v, prefix_len as usize),
    };
    let ghost all = be_bits(value as nat, 128);
    let mut bits: Vec<bool> = Vec::new();
    proof {
        lemma_be_bits_len(value as nat, 128);
    }
    let mut i: usize = 0;
    while i < count
        invariant
            i <= count <= 128,
            all == be_bits(value as nat, 128),
            all.len() == 128,
            bits@ == all.take(i as int),
        decreases count - i,
    {
        let shift: u128 = (127 - i) as u128;
        proof {
            lemma_u128_shr_is_div(value, shift);
            lemma_be_bits_index(value as nat, 128, i as int);
        }
        bits.push((value >> shift) % 2 == 1);
        i = i + 1;
        assert(bits@ =~= all.take(i as int));
    }
    bits
}

/// The text of a prefix.
#[verifier::spinoff_prover]
pub fn bits_to_network(prefix: &[bool]) -> (text: String)
    requires
        forall|i: int| 128 <= i < prefix@.len() ==> !#[trigger] prefix@[i],
    ensures
        text@ == network_text(prefix@),
{
    let len: usize = prefix.len();
    let count: usize = if len <= 128 {
        len
    } else {
        128
    };
    let mut value: u128 = 0;
    let mut i: usize = 0;
    proof {
        lemma_pow2_128();
        lemma2_to64();
    }
    while i < count
        invariant
            i <= count <= 128,
            count <= prefix@.len(),
            value == be_value(prefix@.take(i as int)),
            value < pow2(i as nat),
            pow2(128) == 0x1_0000_0000_0000_0000_0000_0000_0000_0000,
        decreases count - i,
    {
        let bit: u128 = if prefix[i] {
            1
        } else {
            0
        };
        proof {
            assert(prefix@.take(i + 1).drop_last() =~= prefix@.take(i as int));
            lemma_be_bits(prefix@.take(i + 1));
            if i + 1 < 128 {
                lemma_pow2_strictly_increases((i + 1) as nat, 128);
            }
        }
        value = 2 * value + bit;
        i = i + 1;
    }
    if count > 0 {
        let rest: u128 = pow2_u128(128 - count as u32);
        proof {
            let ghost k = (128 - count) as nat;
            lemma_pow2_adds(count as nat, k);
            assert(value * rest < pow2(count as nat) * rest) by (nonlinear_arith)
                requires
                    value < pow2(count as nat),
                    rest > 0,
            ;
        }
        value = value * rest;
    }
    proof {
        let top = be_value(prefix@.take(count as int));
        let scale = pow2((128 - count) as nat);
        if count == 0 {
            assert(top == 0);
            assert(top * scale == 0) by (nonlinear_arith)
                requires
                    top == 0,
            ;
        }
        assert(value == top * scale);
        if len <= 128 {
            assert(prefix@.take(count as int) =~= prefix@);
            assert(net_value(prefix@) == top * scale);
        } else {
            assert(count == 128);
            assert(scale == 1);
            assert(net_value(prefix@) == top);
            assert(top * scale == top) by (nonlinear_arith)
                requires
                    scale == 1,
            ;
        }
        assert(value == net_value(prefix@));
    }
    let mut text = String::new();
    if len >= 96 && value / 0x1_0000_0000 == 0xffff {
        push_ip(&mut text, IpAddr::V4((value % 0x1_0000_0000) as u32));
        text.push('/');
        push_number(&mut text, (len - 96) as u128, 10);
    } else {
        push_ip(&mut text, IpAddr::V6(value));
        text.push('/');
        push_number(&mut text, len as u128, 10);
    }
    assert(text@ =~= network_text(prefix@));
    text
}

/// The number of addresses that a network's text covers.
pub fn network_address_count(net: &str) -> (count: Result<u128, NetworkCountError>)
    requires
        find_last(net@, '/', net@.len() as int) >= 0 && count_len(net@) is Ok ==> count_len(net@)->Ok_0
            <= if net@.contains('.') {
            32nat
        } else {
            128nat
        },
    ensures
        match count {
            Ok(n) => {
                &&& find_last(net@, '/', net@.len() as int) >= 0
                &&& count_len(net@) is Ok
                &&& n == address_count(net@, count_len(net@)->Ok_0)
            },
            Err(NetworkCountError::Invalid { network }) => {
                &&& find_last(net@, '/', net@.len() as int) < 0
                &&& network@ == net@
            },
            Err(NetworkCountError::PrefixLen(e)) => {
                &&& find_last(net@, '/', net@.len() as int) >= 0
                &&& count_len(net@) == Err::<nat, IntError>(e)
            },
        },
{
    let s = to_chars(net);
    let mut slash: usize = s.len();
    while slash > 0 && s[slash - 1] != '/'
        invariant
            slash <= s@.len(),
            s@ == net@,
            find_last(s@, '/', s@.len() as int) == find_last(s@, '/', slash as int),
        decreases slash,
    {
        slash = slash - 1;
    }
    if slash == 0 {
        return Err(NetworkCountError::Invalid { network: net.to_owned() });
    }
    assert(s@.subrange(slash as int, s@.len() as int) =~= s@.skip(slash as int));
    let len: u64 = match read_number(
        slice_subrange(s.as_slice(), slash, s.len()),
        u32::MAX as u64,
    ) {
        Err(e) => {
            return Err(NetworkCountError::PrefixLen(e));
        },
        Ok(n) => n,
    };
    let dot: usize = find_char(s.as_slice(), '.', 0);
    proof {
        if dot < s@.len() {
            assert(s@[dot as int] == '.');
            assert(s@.contains('.'));
        } else {
            assert(!s@.contains('.'));
        }
    }
    if dot < s.len() {
        Ok(pow2_u128(32 - len as u32))
    } else if len == 0 {
        Ok(u128::MAX)
    } else {
        Ok(pow2_u128(128 - len as u32))
    }
}

/// The leading bits of a number are those of its quotient.
proof fn lemma_be_bits_take(v: nat, width: nat, n: nat)
    requires
        n <= width,
    ensures
        be_bits(v, width).take(n as int) == be_bits(v / pow2((width - n) as nat), n),
    decreases width - n,
{
    lemma_be_bits_len(v, width);
    if n == width {
        lemma2_to64();
        assert(v / pow2(0) == v);
        assert(be_bits(v, width).take(n as int) =~= be_bits(v, width));
    } else {
        let k = (width - n - 1) as nat;
        lemma_be_bits_len(v / 2, (width - 1) as nat);
        lemma_be_bits_take(v / 2, (width - 1) as nat, n);
        assert(be_bits(v, width).take(n as int) =~= be_bits(v / 2, (width - 1) as nat).take(
            n as int,
        ));
        lemma_pow2_pos(k);
        lemma_pow2_unfold(k + 1);
        lemma_div_denominator(v as int, 2, pow2(k) as int);
    }
}

/// A prefix is the beginning of the number that it starts.
proof fn lemma_net_value(bits: Seq<bool>)
    requires
        bits.len() <= 128,
    ensures
        net_value(bits) < pow2(128),
        net_value(bits) % pow2((128 - bits.len()) as nat) == 0,
        be_bits(net_value(bits), 128).take(bits.len() as int) == bits,
{
    let k = (128 - bits.len()) as nat;
    let x = be_value(bits);
    lemma_be_bits(bits);
    lemma_pow2_pos(k);
    lemma_pow2_adds(bits.len(), k);
    assert(x * pow2(k) < pow2(bits.len()) * pow2(k)) by (nonlinear_arith)
        requires
            x < pow2(bits.len()),
            pow2(k) > 0,
    ;
    lemma_mod_multiples_basic(x as int, pow2(k) as int);
    lemma_be_bits_take(net_value(bits), 128, bits.len());
    lemma_div_multiples_vanish(x as int, pow2(k) as int);
    assert(x * pow2(k) == pow2(k) * x) by (nonlinear_arith);
}

/// The part below a multiple of the modulus keeps the remainder.
proof fn lemma_low_part(v: nat, k: nat)
    requires
        k <= 32,
        v % pow2(k) == 0,
    ensures
        (v % 0x1_0000_0000) % pow2(k) == 0,
{
    lemma2_to64();
    lemma_pow2_pos(k);
    lemma_pow2_adds(k, (32 - k) as nat);
    let p = pow2(k) as int;
    let q = pow2((32 - k) as nat) as int;
    let low = (v % 0x1_0000_0000) as int;
    let high = (v / 0x1_0000_0000) as int;
    let x = v as int / p;
    lemma_fundamental_div_mod(v as int, p);
    assert(low == p * (x - high * q)) by (nonlinear_arith)
        requires
            v == p * x,
            v == high * 0x1_0000_0000 + low,
            p * q == 0x1_0000_0000,
    ;
    assert(p * (x - high * q) == (x - high * q) * p) by (nonlinear_arith);
    lemma_mod_multiples_basic(x - high * q, p);
}

/// The text of a network without host bits reads back.
pub proof fn net_text_round_trip(ip: IpAddr, len: u8)
    requires
        len <= ip.width(),
        no_host_bits(ip, len as nat),
    ensures
        net_read(net_text(ip, len as nat)) == Ok::<(IpAddr, u8), NetworkFault>((ip, len)),
{
    let s = net_text(ip, len as nat);
    let n = ip_text(ip).len() as int;
    lemma_net_text_parts(ip, len as nat);
    address_text_round_trip(ip);
    lemma_decimal_reads(len as nat, 255);
}

/// Where the parts of a network's text lie.
pub proof fn lemma_net_text_parts(ip: IpAddr, len: nat)
    ensures
        ({
            let s = net_text(ip, len);
            let n = ip_text(ip).len() as int;
            &&& find(s, '/', 0) == n
            &&& n < s.len()
            &&& s.take(n) == ip_text(ip)
            &&& s.skip(n + 1) == decimal(len)
        }),
{
    let s = net_text(ip, len);
    let n = ip_text(ip).len() as int;
    lemma_ip_text_chars(ip);
    assert forall|i: int| 0 <= i < n implies s[i] != '/' by {
        assert(s[i] == ip_text(ip)[i]);
    }
    lemma_find_at(s, '/', 0, n);
    assert(s.take(n) =~= ip_text(ip));
    assert(s.skip(n + 1) =~= decimal(len));
}

/// Reading the text of a prefix gives the prefix back.
pub proof fn network_text_round_trip(bits: Seq<bool>)
    requires
        bits.len() <= 128,
    ensures
        net_read(network_text(bits)) matches Ok((ip, len)) && {
            &&& len <= ip.width()
            &&& prefix_bits(ip, len as nat) == bits
            &&& net_text(ip, len as nat) == network_text(bits)
        },
{
    let v = net_value(bits);
    lemma_net_value(bits);
    lemma_pow2_128();
    if bits.len() >= 96 && v / 0x1_0000_0000 == 0xffff {
        let low = (v % 0x1_0000_0000) as u32;
        let len = (bits.len() - 96) as u8;
        lemma_low_part(v, (128 - bits.len()) as nat);
        net_text_round_trip(IpAddr::V4(low), len);
        assert(addr_value(IpAddr::V4(low)) == v);
    } else {
        net_text_round_trip(IpAddr::V6(v as u128), bits.len() as u8);
    }
}

/// The number that the bits of a network without host bits start.
proof fn lemma_prefix_value(ip: IpAddr, len: nat)
    requires
        len <= ip.width(),
        no_host_bits(ip, len),
    ensures
        net_value(prefix_bits(ip, len)) == addr_value(ip),
        prefix_bits(ip, len).len() == path_len(ip, len) <= 128,
{
    let a = addr_value(ip);
    let n = path_len(ip, len);
    let k = (128 - n) as nat;
    lemma_pow2_128();
    lemma2_to64();
    lemma_be_bits_len(a, 128);
    lemma_be_bits_take(a, 128, n);
    lemma_pow2_pos(k);
    lemma_pow2_adds(n, k);
    assert(a % pow2(k) == 0) by {
        match ip {
            IpAddr::V4(v) => {
                lemma_pow2_adds(k, (32 - k) as nat);
                let p = pow2(k) as int;
                let q = pow2((32 - k) as nat) as int;
                if len < 32 {
                    assert(v as nat % pow2(k) == 0);
                } else {
                    assert(pow2(0) == 1);
                }
                lemma_fundamental_div_mod(v as int, p);
                let x = v as int / p;
                assert(a == (0xffff * q + x) * p) by (nonlinear_arith)
                    requires
                        a == 0xffff_0000_0000 + v,
                        v == p * x,
                        p * q == 0x1_0000_0000,
                ;
                lemma_mod_multiples_basic(0xffff * q + x, p);
            },
            IpAddr::V6(v) => {
                if len == 128 {
                    assert(pow2(0) == 1);
                }
            },
        }
    }
    lemma_fundamental_div_mod(a as int, pow2(k) as int);
    let y = a / pow2(k);
    assert(y < pow2(n)) by (nonlinear_arith)
        requires
            a < pow2(n) * pow2(k),
            y == a / pow2(k),
            pow2(k) > 0,
    ;
    lemma_be_value(y, n);
    assert(y * pow2(k) == pow2(k) * y) by (nonlinear_arith);
}

/// A network without host bits has the text of its address and length, unless
/// it lies in the mapped range but is given as IPv6.
pub proof fn network_text_is_canonical(ip: IpAddr, len: u8)
    requires
        len <= ip.width(),
        no_host_bits(ip, len as nat),
        ip matches IpAddr::V6(v) ==> len < 96 || v / 0x1_0000_0000 != 0xffff,
    ensures
        network_text(prefix_bits(ip, len as nat)) == net_text(ip, len as nat),
{
    lemma_prefix_value(ip, len as nat);
}

/// A prefix lies in the range of IPv4 addresses.
pub open spec fn is_v4_prefix(bits: Seq<bool>) -> bool {
    bits.len() >= 96 && net_value(bits) / 0x1_0000_0000 == 0xffff
}

/// The number of addresses with a prefix; for all IPv6 addresses the largest
/// number that can be held.
pub open spec fn block_size(bits: Seq<bool>) -> nat {
    if bits.len() == 0 {
        u128::MAX as nat
    } else {
        pow2((128 - bits.len()) as nat)
    }
}

/// What the text of a prefix says about its size.
pub proof fn lemma_network_count(bits: Seq<bool>)
    requires
        bits.len() <= 128,
    ensures
        ({
            let s = network_text(bits);
            &&& s.contains('.') == is_v4_prefix(bits)
            &&& find_last(s, '/', s.len() as int) >= 0
            &&& count_len(s) matches Ok(len) && {
                &&& len <= if s.contains('.') {
                    32nat
                } else {
                    128nat
                }
                &&& address_count(s, len) == block_size(bits)
            }
        }),
{
    let v = net_value(bits);
    let s = network_text(bits);
    lemma_net_value(bits);
    lemma_pow2_128();
    let (ip, len) = if is_v4_prefix(bits) {
        (IpAddr::V4((v % 0x1_0000_0000) as u32), (bits.len() - 96) as nat)
    } else {
        (IpAddr::V6(v as u128), bits.len())
    };
    assert(s == net_text(ip, len));
    let n = ip_text(ip).len() as int;
    lemma_net_text_parts(ip, len);
    lemma_ip_text_dot(ip);
    lemma_number_text(len, 10);
    let digits = decimal(len);
    assert forall|i: int| n < i < s.len() implies s[i] != '/' && s[i] != '.' by {
        assert(s[i] == digits[i - n - 1]);
        assert(digit_value(digits[i - n - 1], 10) is Some);
    }
    lemma_find_last(s, '/', n);
    lemma_decimal_reads(len, u32::MAX as nat);
    assert(s[n] == '/');
    if is_v4_prefix(bits) {
        let i = choose|i: int| 0 <= i < ip_text(ip).len() && ip_text(ip)[i] == '.';
        assert(s[i] == '.');
    } else {
        if bits.len() < 96 {
            lemma_short_not_mapped(bits);
        }
        assert forall|i: int| 0 <= i < s.len() implies s[i] != '.' by {
            if i < n {
                assert(s[i] == ip_text(ip)[i]);
            }
        }
    }
}

/// A shorter prefix does not end inside the mapped range.
proof fn lemma_short_not_mapped(bits: Seq<bool>)
    requires
        bits.len() < 96,
    ensures
        net_value(bits) / 0x1_0000_0000 != 0xffff,
{
    let k = (128 - bits.len()) as nat;
    let x = be_value(bits) as int;
    lemma2_to64();
    lemma_pow2_unfold(33);
    lemma_pow2_adds(33, (k - 33) as nat);
    let q = pow2((k - 33) as nat) as int;
    assert(net_value(bits) == (x * q) * 0x2_0000_0000) by (nonlinear_arith)
        requires
            net_value(bits) == x * pow2(k),
            pow2(k) == 0x2_0000_0000 * q,
    ;
    let y = x * q;
    assert((y * 0x2_0000_0000) / 0x1_0000_0000 == 2 * y) by (nonlinear_arith);
}

proof fn lemma_find_last(s: Seq<char>, c: char, at: int)
    requires
        0 <= at < s.len(),
        s[at] == c,
        forall|i: int| at < i < s.len() ==> s[i] != c,
    ensures
        find_last(s, c, s.len() as int) == at,
{
    lemma_find_last_to(s, c, at, s.len() as int);
}

proof fn lemma_find_last_to(s: Seq<char>, c: char, at: int, to: int)
    requires
        0 <= at < to <= s.len(),
        s[at] == c,
        forall|i: int| at < i < s.len() ==> s[i] != c,
    ensures
        find_last(s, c, to) == at,
    decreases to,
{
    if to - 1 > at {
        lemma_find_last_to(s, c, at, to - 1);
    }
}

/// A bit of a number that is `n` ones.
proof fn lemma_ones_at(n: nat, k: nat)
    ensures
        ((pow2(n) - 1) / pow2(k) as int) % 2 == if k < n {
            1int
        } else {
            0int
        },
    decreases k,
{
    lemma2_to64();
    lemma_pow2_pos(k);
    lemma_pow2_pos(n);
    if k >= n {
        if k > n {
            lemma_pow2_strictly_increases(n, k);
        }
        assert((pow2(n) - 1) / pow2(k) as int == 0) by (nonlinear_arith)
            requires
                0 <= pow2(n) - 1 < pow2(k),
        ;
    } else if k == 0 {
        lemma_pow2_unfold(n);
        assert((pow2(n) - 1) / 1int == pow2(n) - 1);
    } else {
        lemma_pow2_unfold(n);
        lemma_pow2_unfold(k);
        lemma_pow2_pos((k - 1) as nat);
        lemma_div_denominator(pow2(n) - 1, 2, pow2((k - 1) as nat) as int);
        assert((pow2(n) - 1) / 2 == pow2((n - 1) as nat) - 1);
        lemma_ones_at((n - 1) as nat, (k - 1) as nat);
    }
}

/// A bit of 0xffff.
proof fn lemma_ones(k: nat)
    ensures
        (0xffffnat / pow2(k)) % 2 == if k < 16 {
            1nat
        } else {
            0nat
        },
{
    lemma2_to64();
    lemma_ones_at(16, k);
    assert(pow2(16) - 1 == 0xffff);
}

/// What the bits of a prefix are: those of the address, most significant first,
/// as many as the prefix is long. An IPv4 address stands behind eighty zeros and
/// sixteen ones.
pub proof fn prefix_bits_are_address_bits(ip: IpAddr, len: nat, i: nat)
    requires
        len <= match ip {
            IpAddr::V4(_) => 32nat,
            IpAddr::V6(_) => 128nat,
        },
    ensures
        match ip {
            IpAddr::V4(v) => {
                &&& prefix_bits(ip, len).len() == 96 + len
                &&& i < 80 ==> !prefix_bits(ip, len)[i as int]
                &&& 80 <= i < 96 ==> prefix_bits(ip, len)[i as int]
                &&& i < len ==> prefix_bits(ip, len)[96int + i] == ((v as nat / pow2(
                    (31 - i) as nat,
                )) % 2 == 1)
            },
            IpAddr::V6(v) => {
                &&& prefix_bits(ip, len).len() == len
                &&& i < len ==> prefix_bits(ip, len)[i as int] == ((v as nat / pow2(
                    (127 - i) as nat,
                )) % 2 == 1)
            },
        },
{
    let a = addr_value(ip);
    lemma2_to64();
    lemma_be_bits_len(a, 128);
    if i < 128 {
        lemma_be_bit(a, 128, (127 - i) as nat);
    }
    if let IpAddr::V4(v) = ip {
        if i < 96 {
            let k = (95 - i) as nat;
            assert(a / 0x1_0000_0000 == 0xffff);
            lemma_pow2_adds(32, k);
            lemma_pow2_pos(k);
            lemma_div_denominator(a as int, 0x1_0000_0000, pow2(k) as int);
            lemma_ones(k);
            assert(32 + k == 127 - i);
        }
        if i < len {
            let j = (31 - i) as nat;
            lemma_be_bit(a, 128, j);
            let p = pow2(j) as int;
            let q = pow2((31 - j) as nat) as int;
            lemma_pow2_pos(j);
            lemma_pow2_adds(j, (32 - j) as nat);
            lemma_pow2_unfold((32 - j) as nat);
            let x = v as int / p;
            lemma_fundamental_div_mod(v as int, p);
            lemma_fundamental_div_mod(a as int, p);
            let r = v as int % p;
            assert(a == p * (0x1_fffe * q + x) + r) by (nonlinear_arith)
                requires
                    a == 0xffff * 0x1_0000_0000 + v,
                    v == p * x + r,
                    p * (2 * q) == 0x1_0000_0000,
            ;
            lemma_fundamental_div_mod_converse(a as int, p, 0x1_fffe * q + x, r);
            assert((0x1_fffe * q + x) % 2 == x % 2) by {
                assert(0x1_fffe * q + x == 2 * (0xffff * q) + x);
            }
        }
    }
}

/// How a network is read: an address, a slash and a length, and no bit behind the
/// prefix.
pub proof fn networks_are_an_address_and_a_length(address: Seq<char>, digits: Seq<char>)
    requires
        forall|i: int| 0 <= i < address.len() ==> #[trigger] address[i] != '/',
    ensures
        net_read(address) == Err::<(IpAddr, u8), _>(NetworkFault::Invalid),
        net_read(address + seq!['/'] + digits) == match (
            ip_read(address),
            parse_number(digits, 255),
        ) {
            (None, _) => Err(NetworkFault::Addr),
            (Some(_), Err(e)) => Err(NetworkFault::PrefixLen(e)),
            (Some(IpAddr::V4(v)), Ok(len)) => if len <= 32 && v as nat % pow2((32 - len) as nat)
                == 0 {
                Ok((IpAddr::V4(v), len as u8))
            } else {
                Err(NetworkFault::Invalid)
            },
            (Some(IpAddr::V6(v)), Ok(len)) => if len <= 128 && v as nat % pow2(
                (128 - len) as nat,
            ) == 0 {
                Ok((IpAddr::V6(v), len as u8))
            } else {
                Err(NetworkFault::Invalid)
            },
        },
{
    let s = address + seq!['/'] + digits;
    let n = address.len() as int;
    lemma2_to64();
    lemma_find_at(address, '/', 0, n);
    assert(forall|i: int| 0 <= i < n ==> s[i] == address[i]);
    assert(s[n] == '/');
    lemma_find_at(s, '/', 0, n);
    assert(s.take(n) =~= address);
    assert(s.skip(n + 1) =~= digits);
    assert(pow2(0) == 1);
    assert(forall|v: nat| #[trigger] (v % 1) == 0);
}

/// The text of a network is the text of its address, a slash and its length.
pub proof fn network_texts_have_a_slash(ip: IpAddr, len: nat)
    ensures
        net_text(ip, len) == ip_text(ip) + seq!['/'] + decimal(len),
{
}

/// A prefix is written as IPv4 exactly if it starts with eighty zeros and sixteen
/// ones, and it holds a power of two of addresses: one bit less doubles it. All
/// IPv6 addresses count as the largest number that can be held.
pub proof fn mapped_prefixes_are_ipv4(bits: Seq<bool>)
    requires
        bits.len() <= 128,
    ensures
        is_v4_prefix(bits) == (bits.len() >= 96 && (forall|i: int|
            0 <= i < 96 ==> #[trigger] bits[i] == (i >= 80))),
        net_read(network_text(bits)) matches Ok((ip, len)) && {
            &&& ip is V4 == is_v4_prefix(bits)
            &&& len == if ip is V4 {
                bits.len() - 96
            } else {
                bits.len() as int
            }
            &&& prefix_bits(ip, len as nat) == bits
        },
        block_size(bits) == if bits.len() == 0 {
            0xffff_ffff_ffff_ffff_ffff_ffff_ffff_ffffnat
        } else {
            pow2((128 - bits.len()) as nat)
        },
{
    let v = net_value(bits);
    lemma2_to64();
    lemma_pow2_128();
    network_text_round_trip(bits);
    lemma_net_value(bits);
    let (ip, len) = net_read(network_text(bits))->Ok_0;
    let own = if is_v4_prefix(bits) {
        (IpAddr::V4((v % 0x1_0000_0000) as u32), (bits.len() - 96) as u8)
    } else {
        (IpAddr::V6(v as u128), bits.len() as u8)
    };
    if is_v4_prefix(bits) {
        lemma_low_part(v, (128 - bits.len()) as nat);
    }
    net_text_round_trip(own.0, own.1);
    assert((ip, len) == own);
    if is_v4_prefix(bits) {
        assert forall|i: int| 0 <= i < 96 implies #[trigger] bits[i] == (i >= 80) by {
            prefix_bits_are_address_bits(ip, len as nat, i as nat);
        }
    } else if bits.len() >= 96 && (forall|i: int| 0 <= i < 96 ==> #[trigger] bits[i] == (i >= 80)) {
        let zero = IpAddr::V4((v % 0x1_0000_0000) as u32);
        let head = prefix_bits(IpAddr::V4(0), 0);
        lemma_be_bits_len(addr_value(IpAddr::V4(0)), 128);
        assert forall|i: int| 0 <= i < 96 implies head[i] == bits.take(96)[i] by {
            prefix_bits_are_address_bits(IpAddr::V4(0), 0, i as nat);
            assert(bits[i] == (i >= 80));
        }
        assert(head =~= bits.take(96));
        lemma_be_bits_take(addr_value(IpAddr::V4(0)), 128, 96);
        lemma_be_bits_take(v, 128, 96);
        lemma_be_bits_take(v, 128, bits.len());
        lemma_be_bits_len(v, 128);
        assert(be_bits(v, 128).take(bits.len() as int) == bits);
        assert(bits.take(96) =~= be_bits(v, 128).take(96));
        assert(v / 0x1_0000_0000 < pow2(96)) by (nonlinear_arith)
            requires
                v < pow2(128),
                pow2(128) == pow2(96) * 0x1_0000_0000,
        ;
        lemma_be_value(v / 0x1_0000_0000, 96);
        lemma_be_value(0xffff, 96);
    }
}

/// How many addresses a network's text covers: the number behind its last slash
/// says how many bits are fixed, of 32 where the text has a dot and of 128 where
/// it has none.
pub proof fn counts_follow_the_last_slash(before: Seq<char>, digits: Seq<char>, len: nat)
    requires
        forall|i: int| 0 <= i < digits.len() ==> #[trigger] digits[i] != '/',
        len <= 32,
    ensures
        ({
            let s = before + seq!['/'] + digits;
            let dotted = exists|i: int| 0 <= i < s.len() && #[trigger] s[i] == '.';
            &&& find_last(s, '/', s.len() as int) == before.len()
            &&& count_len(s) == parse_number(digits, 0xffff_ffff)
            &&& dotted ==> address_count(s, len) * pow2(len) == 0x1_0000_0000
            &&& !dotted && len > 0 ==> address_count(s, len) * pow2(len) == pow2(128)
            &&& !dotted ==> address_count(s, 0) == 0xffff_ffff_ffff_ffff_ffff_ffff_ffff_ffffnat
        }),
{
    let s = before + seq!['/'] + digits;
    let n = before.len() as int;
    assert(s[n] == '/');
    assert forall|i: int| n < i < s.len() implies s[i] != '/' by {
        assert(s[i] == digits[i - n - 1]);
    }
    lemma_find_last(s, '/', n);
    assert(s.skip(n + 1) =~= digits);
    lemma2_to64();
    lemma_pow2_adds((32 - len) as nat, len);
    lemma_pow2_adds((128 - len) as nat, len);
}

/// What is said about a text that is no network, and what is wrong with it.
pub proof fn what_is_said_about_networks(network: String, source: IntError)
    ensures
        (ParseNetworkError::Invalid { network }).fault() == NetworkFault::Invalid,
        (ParseNetworkError::InvalidAddr { network }).fault() == NetworkFault::Addr,
        (ParseNetworkError::InvalidPrefixLen { network, source }).fault()
            == NetworkFault::PrefixLen(source),
        (ParseNetworkError::Invalid { network }).input() == network@,
        (ParseNetworkError::InvalidAddr { network }).input() == network@,
        (ParseNetworkError::InvalidPrefixLen { network, source }).input() == network@,
        (ParseNetworkError::Invalid { network }).text() == "invalid network '"@ + network@ + "'"@,
        (ParseNetworkError::InvalidAddr { network }).text() == "invalid network '"@ + network@
            + "'"@,
        (ParseNetworkError::InvalidPrefixLen { network, source }).text() == "invalid network '"@
            + network@ + "'"@,
{
}

/// A prefix has no host bits exactly if its address is a multiple of the size of
/// its block.
pub proof fn networks_start_their_blocks(v: u32, w: u128, len: nat)
    ensures
        len <= 32 ==> no_host_bits(IpAddr::V4(v), len) == (v as nat % pow2((32 - len) as nat) == 0),
        len <= 128 ==> no_host_bits(IpAddr::V6(w), len) == (w as nat % pow2((128 - len) as nat)
            == 0),
{
    lemma2_to64();
}

/// An IPv6 network of `len` bits has `2^(128 - len)` addresses, but for the whole of
/// it, where one fewer is counted.
pub proof fn ipv6_networks_are_counted(s: Seq<char>, len: nat)
    requires
        len <= 128,
        forall|i: int| 0 <= i < s.len() ==> #[trigger] s[i] != '.',
    ensures
        len > 0 ==> address_count(s, len) * pow2(len) == pow2(128),
        len == 0 ==> address_count(s, len) == pow2(128) - 1,
{
    assert(!s.contains('.'));
    lemma_pow2_128();
    if len > 0 {
        lemma_pow2_adds((128 - len) as nat, len);
    }
}

/// A text without a slash has no last one.
pub proof fn texts_without_a_slash_have_no_last_one(s: Seq<char>, to: int)
    requires
        0 <= to <= s.len(),
        forall|i: int| 0 <= i < to ==> #[trigger] s[i] != '/',
    ensures
        find_last(s, '/', to) < 0,
    decreases to,
{
    if to > 0 {
        assert(s[to - 1] != '/');
        texts_without_a_slash_have_no_last_one(s, to - 1);
    }
}

} // verus!
