//! Routing prefixes: networks with their host bits cleared.

use crate::addr::{
    address_text_round_trip, ip_read, ip_text, lemma_pow2_128, push_ip, read_ip, IpAddr,
};
use crate::net::{lemma_net_text_parts, net_text, no_host_bits, pow2_u128, ParseNetworkError};
use crate::text::{
    decimal, find, find_char, lemma_decimal_reads, lemma_find_at, parse_number, push_number,
    read_number, to_chars, to_text, IntError,
};
use vstd::arithmetic::div_mod::{lemma_fundamental_div_mod, lemma_mod_multiples_basic};
use vstd::arithmetic::power2::{lemma_pow2_pos, pow2};
use vstd::prelude::*;
use vstd::slice::slice_subrange;

verus! {

/// The address with the bits behind the first `mask` cleared.
pub open spec fn masked(ip: IpAddr, mask: nat) -> IpAddr {
    if mask >= ip.width() {
        ip
    } else {
        let block = pow2((ip.width() - mask) as nat);
        let value = (ip.value() / block) * block;
        match ip {
            IpAddr::V4(_) => IpAddr::V4(value as u32),
            IpAddr::V6(_) => IpAddr::V6(value as u128),
        }
    }
}

/// A network whose host bits are clear.
#[derive(Debug, Clone, Copy, PartialEq, Eq, Structural)]
pub struct RoutingPrefix {
    pub ip: IpAddr,
    pub mask: u8,
}

/// Why a text is not a routing prefix.
#[derive(Debug, PartialEq, Eq)]
pub enum RoutingPrefixError {
    /// There is no slash.
    NoSlash { text: String },
    /// The address does not parse.
    Address { address: String },
    /// The mask does not parse.
    Mask { text: String, source: IntError },
}

impl RoutingPrefixError {
    /// What a reader is told about the error.
    pub fn message(&self) -> (message: String)
        ensures
            message@ == match self {
                RoutingPrefixError::NoSlash { text } => "invalid prefix '"@ + text@ + "'"@,
                RoutingPrefixError::Address { address } => "invalid address '"@ + address@ + "'"@,
                RoutingPrefixError::Mask { text, .. } => "invalid prefix '"@ + text@ + "'"@,
            },
    {
        let (start, quoted): (&str, &String) = match self {
            RoutingPrefixError::NoSlash { text } => ("invalid prefix '", text),
            RoutingPrefixError::Address { address } => ("invalid address '", address),
            RoutingPrefixError::Mask { text, .. } => ("invalid prefix '", text),
        };
        let mut message = start.to_owned();
        message.append(quoted.as_str());
        message.append("'");
        message
    }
}

/// Clearing host bits clears them, keeps the rest, and is done once.
pub proof fn lemma_masked(ip: IpAddr, mask: nat)
    ensures
        masked(ip, mask).width() == ip.width(),
        no_host_bits(masked(ip, mask), mask),
        no_host_bits(ip, mask) ==> masked(ip, mask) == ip,
        masked(ip, mask).value() <= ip.value(),
        mask < ip.width() ==> masked(ip, mask).value() == (ip.value() / pow2(
            (ip.width() - mask) as nat,
        )) * pow2((ip.width() - mask) as nat),
{
    if mask < ip.width() {
        let block = pow2((ip.width() - mask) as nat);
        lemma_pow2_pos((ip.width() - mask) as nat);
        lemma_fundamental_div_mod(ip.value() as int, block as int);
        let q = ip.value() / block;
        assert(q * block == block * q) by (nonlinear_arith);
        lemma_mod_multiples_basic(q as int, block as int);
    }
}

/// `value` with everything below `block` cleared.
fn clear_below(value: u128, block: u128) -> (cleared: u128)
    requires
        block > 0,
    ensures
        cleared == (value / block) * block,
        cleared <= value,
{
    proof {
        lemma_fundamental_div_mod(value as int, block as int);
        assert((value / block) * block == block * (value / block)) by (nonlinear_arith);
    }
    value - value % block
}

impl RoutingPrefix {
    /// The prefix's text.
    pub open spec fn text(self) -> Seq<char> {
        net_text(self.ip, self.mask as nat)
    }

    /// Clears the host bits. A mask wider than the address leaves it alone.
    pub fn canonicalized(ip: IpAddr, mask: u8) -> (prefix: RoutingPrefix)
        ensures
            prefix == (RoutingPrefix { ip: masked(ip, mask as nat), mask }),
    {
        proof {
            lemma_masked(ip, mask as nat);
        }
        let ip = match ip {
            IpAddr::V4(v) => if mask < 32 {
                IpAddr::V4(clear_below(v as u128, pow2_u128(32 - mask as u32)) as u32)
            } else {
                ip
            },
            IpAddr::V6(v) => if mask == 0 {
                proof {
                    lemma_pow2_128();
                    assert(v as nat / pow2(128) == 0) by (nonlinear_arith)
                        requires
                            (v as nat) < pow2(128),
                    ;
                }
                IpAddr::V6(0)
            } else if mask < 128 {
                IpAddr::V6(clear_below(v, pow2_u128(128 - mask as u32)))
            } else {
                ip
            },
        };
        RoutingPrefix { ip, mask }
    }

    /// The prefix's text.
    pub fn to_text(self) -> (text: String)
        ensures
            text@ == self.text(),
    {
        let mut text = String::new();
        push_ip(&mut text, self.ip);
        text.push('/');
        push_number(&mut text, self.mask as u128, 10);
        assert(text@ =~= self.text());
        text
    }

    /// Reads a prefix, clearing its host bits.
    pub fn parse(text: &str) -> (read: Result<RoutingPrefix, RoutingPrefixError>)
        ensures
            ({
                let slash = find(text@, '/', 0);
                match read {
                    Ok(prefix) => {
                        &&& slash < text@.len()
                        &&& ip_read(text@.take(slash)) is Some
                        &&& parse_number(text@.skip(slash + 1), 255) == Ok::<nat, IntError>(
                            prefix.mask as nat,
                        )
                        &&& prefix.ip == masked(ip_read(text@.take(slash))->0, prefix.mask as nat)
                    },
                    Err(RoutingPrefixError::NoSlash { text: t }) => slash >= text@.len() && t@
                        == text@,
                    Err(RoutingPrefixError::Address { address }) => {
                        &&& slash < text@.len()
                        &&& ip_read(text@.take(slash)) is None
                        &&& address@ == text@.take(slash)
                    },
                    Err(RoutingPrefixError::Mask { text: t, source }) => {
                        &&& slash < text@.len()
                        &&& ip_read(text@.take(slash)) is Some
                        &&& parse_number(text@.skip(slash + 1), 255) == Err::<nat, IntError>(
                            source,
                        )
                        &&& t@ == text@
                    },
                }
            }),
    {
        let chars = to_chars(text);
        let s = chars.as_slice();
        let len: usize = s.len();
        let slash: usize = find_char(s, '/', 0);
        if slash == len {
            return Err(RoutingPrefixError::NoSlash { text: text.to_owned() });
        }
        let address = slice_subrange(s, 0, slash);
        assert(address@ =~= text@.take(slash as int));
        let ip = match read_ip(address) {
            Some(ip) => ip,
            None => {
                return Err(RoutingPrefixError::Address { address: to_text(address) });
            },
        };
        let digits = slice_subrange(s, slash + 1, len);
        assert(digits@ =~= text@.skip(slash + 1));
        match read_number(digits, 255) {
            Ok(mask) => {
                proof {
                    lemma_number_bound(digits@, 255);
                }
                Ok(RoutingPrefix::canonicalized(ip, mask as u8))
            },
            Err(source) => Err(RoutingPrefixError::Mask { text: text.to_owned(), source }),
        }
    }
}

/// A number that was read is within its bound.
pub proof fn lemma_number_bound(s: Seq<char>, max: nat)
    ensures
        parse_number(s, max) matches Ok(v) ==> v <= max,
{
    if s.len() > 0 {
        lemma_scan_bound(s, max);
        lemma_scan_bound(s.skip(1), max);
    }
}

proof fn lemma_scan_bound(s: Seq<char>, max: nat)
    ensures
        crate::text::scan_digits(s, max) matches Ok(v) ==> v <= max,
    decreases s.len(),
{
    if s.len() > 0 {
        lemma_scan_bound(s.drop_last(), max);
    }
}

/// The prefix that a consensus text names, its host bits cleared, if it is in
/// range.
pub open spec fn consensus_prefix(s: Seq<char>) -> Option<RoutingPrefix> {
    let slash = find(s, '/', 0);
    if slash >= s.len() {
        None
    } else {
        match (ip_read(s.take(slash)), parse_number(s.skip(slash + 1), 255)) {
            (Some(ip), Ok(len)) => if len > ip.width() {
                None
            } else {
                Some(RoutingPrefix { ip: masked(ip, len), mask: len as u8 })
            },
            _ => None,
        }
    }
}

/// Reads a consensus prefix, clearing host bits instead of rejecting them: its
/// canonical text, its address and its length.
pub fn canonical_consensus_prefix(input: &str) -> (read: Result<
    (String, IpAddr, u8),
    ParseNetworkError,
>)
    ensures
        match read {
            Ok((text, ip, mask)) => {
                &&& consensus_prefix(input@) == Some(RoutingPrefix { ip, mask })
                &&& text@ == net_text(ip, mask as nat)
                &&& mask <= ip.width()
            },
            Err(e) => {
                &&& consensus_prefix(input@) is None
                &&& e is Invalid
                &&& e.input() == input@
                &&& e.text() == "invalid network '"@ + input@ + "'"@
            },
        },
{
    match read_consensus_prefix(input) {
        Some(prefix) => Ok((prefix.to_text(), prefix.ip, prefix.mask)),
        None => Err(ParseNetworkError::Invalid { network: input.to_owned() }),
    }
}

fn read_consensus_prefix(input: &str) -> (read: Option<RoutingPrefix>)
    ensures
        read == consensus_prefix(input@),
        read matches Some(p) ==> p.mask <= p.ip.width(),
{
    let chars = to_chars(input);
    let s = chars.as_slice();
    let len: usize = s.len();
    let slash: usize = find_char(s, '/', 0);
    if slash == len {
        return None;
    }
    let address = slice_subrange(s, 0, slash);
    assert(address@ =~= input@.take(slash as int));
    let digits = slice_subrange(s, slash + 1, len);
    assert(digits@ =~= input@.skip(slash + 1));
    let ip = match read_ip(address) {
        Some(ip) => ip,
        None => {
            return None;
        },
    };
    let mask: u64 = match read_number(digits, 255) {
        Ok(n) => n,
        Err(_) => {
            return None;
        },
    };
    let width: u64 = match ip {
        IpAddr::V4(_) => 32,
        IpAddr::V6(_) => 128,
    };
    if mask > width {
        return None;
    }
    proof {
        lemma_masked(ip, mask as nat);
    }
    Some(RoutingPrefix::canonicalized(ip, mask as u8))
}

/// The canonical text of a consensus prefix names the same prefix.
pub proof fn consensus_prefix_text_is_stable(s: Seq<char>)
    requires
        consensus_prefix(s) is Some,
    ensures
        consensus_prefix(consensus_prefix(s)->0.text()) == consensus_prefix(s),
        consensus_prefix(s)->0.mask <= consensus_prefix(s)->0.ip.width(),
        no_host_bits(consensus_prefix(s)->0.ip, consensus_prefix(s)->0.mask as nat),
{
    let slash = find(s, '/', 0);
    let ip = ip_read(s.take(slash))->0;
    let prefix = consensus_prefix(s)->0;
    let len = prefix.mask as nat;
    lemma_number_bound(s.skip(slash + 1), 255);
    lemma_masked(ip, len);
    lemma_masked(prefix.ip, len);
    lemma_net_text_parts(prefix.ip, len);
    address_text_round_trip(prefix.ip);
    lemma_decimal_reads(len, 255);
}

/// Clearing host bits subtracts what lies below the last bit of the prefix, and
/// changes neither the version of the address nor any other bit.
pub proof fn masking_clears_what_lies_below(ip: IpAddr, mask: nat)
    ensures
        match (ip, masked(ip, mask)) {
            (IpAddr::V4(v), IpAddr::V4(w)) => w == if mask >= 32 {
                v as int
            } else {
                v - v as nat % pow2((32 - mask) as nat)
            },
            (IpAddr::V6(v), IpAddr::V6(w)) => w == if mask >= 128 {
                v as int
            } else {
                v - v as nat % pow2((128 - mask) as nat)
            },
            _ => false,
        },
{
    lemma_masked(ip, mask);
    if mask < ip.width() {
        let block = pow2((ip.width() - mask) as nat);
        lemma_pow2_pos((ip.width() - mask) as nat);
        lemma_fundamental_div_mod(ip.value() as int, block as int);
        let q = ip.value() / block;
        assert(q * block == block * q) by (nonlinear_arith);
    }
}

/// How a consensus prefix is read: an address, a slash and a length that the
/// address has room for. Host bits are cleared.
pub proof fn consensus_prefixes_are_an_address_and_a_length(
    address: Seq<char>,
    digits: Seq<char>,
)
    requires
        forall|i: int| 0 <= i < address.len() ==> #[trigger] address[i] != '/',
    ensures
        consensus_prefix(address) is None,
        consensus_prefix(address + seq!['/'] + digits) == match (
            ip_read(address),
            parse_number(digits, 255),
        ) {
            (Some(ip), Ok(len)) => if len <= (match ip {
                IpAddr::V4(_) => 32nat,
                IpAddr::V6(_) => 128nat,
            }) {
                Some(RoutingPrefix { ip: masked(ip, len), mask: len as u8 })
            } else {
                None
            },
            _ => None,
        },
{
    let s = address + seq!['/'] + digits;
    let n = address.len() as int;
    lemma_find_at(address, '/', 0, n);
    assert(forall|i: int| 0 <= i < n ==> s[i] == address[i]);
    assert(s[n] == '/');
    lemma_find_at(s, '/', 0, n);
    assert(s.take(n) =~= address);
    assert(s.skip(n + 1) =~= digits);
}

/// The text of a routing prefix is that of its address, a slash and its length.
pub proof fn routing_prefix_texts_have_a_slash(prefix: RoutingPrefix)
    ensures
        prefix.text() == ip_text(prefix.ip) + seq!['/'] + decimal(prefix.mask as nat),
{
}

} // verus!
