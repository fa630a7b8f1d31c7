//! Routes from MRT dumps: the AS path among a route's attributes, and the address
//! of its prefix.

use crate::addr::{lemma_pow2_128, IpAddr};
use crate::text::{decimal, push_number};
use vstd::arithmetic::div_mod::lemma_div_denominator;
use vstd::arithmetic::power2::{lemma2_to64, lemma_pow2_adds, lemma_pow2_pos, pow2};
use vstd::prelude::*;

verus! {

/// Why the attributes of a route hold no AS path.
#[derive(Debug, Clone, Copy, PartialEq, Eq, Structural)]
pub enum AsPathError {
    /// There are no attributes.
    Missing,
    /// An attribute is cut off.
    End,
    /// A path is empty.
    EmptyPath,
    /// There is more than one path.
    Multiple,
    /// There is no path.
    NoPath,
    /// A path is of an unknown sort.
    UnknownType(u8),
}

impl AsPathError {
    /// What a reader is told about the error.
    pub open spec fn text(self) -> Seq<char> {
        match self {
            AsPathError::Missing => "missing MRT attributes"@,
            AsPathError::End => "unexpected end of MRT attribute buffer"@,
            AsPathError::EmptyPath => "MRT attribute had no AS path"@,
            AsPathError::Multiple => "MRT entry contained multiple AS paths"@,
            AsPathError::NoPath => "MRT entry had no AS path"@,
            AsPathError::UnknownType(kind) => "unknown AS path type "@ + decimal(kind as nat),
        }
    }

    /// What a reader is told about the error.
    pub fn message(&self) -> (message: String)
        ensures
            message@ == self.text(),
    {
        match *self {
            AsPathError::Missing => "missing MRT attributes".to_owned(),
            AsPathError::End => "unexpected end of MRT attribute buffer".to_owned(),
            AsPathError::EmptyPath => "MRT attribute had no AS path".to_owned(),
            AsPathError::Multiple => "MRT entry contained multiple AS paths".to_owned(),
            AsPathError::NoPath => "MRT entry had no AS path".to_owned(),
            AsPathError::UnknownType(kind) => {
                let mut message = "unknown AS path type ".to_owned();
                push_number(&mut message, kind as u128, 10);
                message
            },
        }
    }
}

/// The number in the four bytes from `at` on.
pub open spec fn u32_at(buffer: Seq<u8>, at: int) -> u32 {
    (buffer[at] * 0x100_0000 + buffer[at + 1] * 0x1_0000 + buffer[at + 2] * 0x100 + buffer[at
        + 3]) as u32
}

/// The `n` numbers from `at` on.
pub open spec fn u32s_at(buffer: Seq<u8>, at: int, n: nat) -> Seq<u32> {
    Seq::new(n, |i: int| u32_at(buffer, at + 4 * i))
}

/// What stands at `at` where a path should, and where reading it stops. A set is
/// skipped, a sequence is a path.
pub open spec fn path_at(buffer: Seq<u8>, at: int) -> (
    Result<Option<Seq<u32>>, AsPathError>,
    int,
) {
    let len = buffer.len() as int;
    if at >= len {
        (Err(AsPathError::End), len)
    } else if buffer[at] != 1 && buffer[at] != 2 {
        (Err(AsPathError::UnknownType(buffer[at])), at + 1)
    } else if at + 1 >= len || at + 2 + 4 * buffer[at + 1] > len {
        (Err(AsPathError::End), len)
    } else {
        let n = buffer[at + 1] as nat;
        (
            Ok(
                if buffer[at] == 2 {
                    Some(u32s_at(buffer, at + 2, n))
                } else {
                    None
                },
            ),
            at + 2 + 4 * n,
        )
    }
}

/// Where the body of the attribute at `at` starts, and how long it says it is.
pub open spec fn attribute_body(buffer: Seq<u8>, at: int) -> Option<(int, int)> {
    if at + 3 > buffer.len() {
        None
    } else if (buffer[at] / 16) % 2 == 1 {
        if at + 4 > buffer.len() {
            None
        } else {
            Some((at + 4, buffer[at + 2] * 256 + buffer[at + 3]))
        }
    } else {
        Some((at + 3, buffer[at + 2] as int))
    }
}

/// The path in the attribute at `at`, if it holds one, and where the next
/// attribute starts.
pub open spec fn attribute_at(buffer: Seq<u8>, at: int) -> Result<
    (Option<Seq<u32>>, int),
    AsPathError,
> {
    match attribute_body(buffer, at) {
        None => Err(AsPathError::End),
        Some((body, length)) => if buffer[at + 1] == 2 {
            let (path, stop) = path_at(buffer, body);
            let end = if body + length > stop {
                body + length
            } else {
                stop
            };
            if end > buffer.len() {
                Err(AsPathError::End)
            } else {
                match path {
                    Ok(p) => Ok((p, end)),
                    Err(e) => Err(e),
                }
            }
        } else if body + length > buffer.len() {
            Err(AsPathError::End)
        } else {
            Ok((None, body + length))
        },
    }
}

/// The paths in the attributes from `at` on.
pub open spec fn paths_from(buffer: Seq<u8>, at: int) -> Result<Seq<Seq<u32>>, AsPathError>
    decreases buffer.len() - at,
{
    if at >= buffer.len() {
        Ok(Seq::empty())
    } else {
        match attribute_at(buffer, at) {
            Err(e) => Err(e),
            Ok((path, next)) => match path {
                Some(p) => if p.len() == 0 {
                    Err(AsPathError::EmptyPath)
                } else {
                    match paths_from(buffer, next) {
                        Err(e) => Err(e),
                        Ok(rest) => Ok(seq![p] + rest),
                    }
                },
                None => paths_from(buffer, next),
            },
        }
    }
}

/// The one path among the attributes of a route.
pub open spec fn as_path(buffer: Seq<u8>) -> Result<Seq<u32>, AsPathError> {
    if buffer.len() == 0 {
        Err(AsPathError::Missing)
    } else {
        match paths_from(buffer, 0) {
            Err(e) => Err(e),
            Ok(paths) => if paths.len() > 1 {
                Err(AsPathError::Multiple)
            } else if paths.len() == 0 {
                Err(AsPathError::NoPath)
            } else {
                Ok(paths[0])
            },
        }
    }
}

/// Reads the attributes of a route.
pub struct AsPathParser<'buffer> {
    buffer: &'buffer [u8],
    next: usize,
}

impl<'buffer> AsPathParser<'buffer> {
    spec fn wf(self) -> bool {
        self.next <= self.buffer@.len()
    }

    /// The path among the attributes of a route.
    pub fn parse(buffer: &'buffer [u8]) -> (path: Result<Vec<u32>, AsPathError>)
        ensures
            match path {
                Ok(p) => as_path(buffer@) == Ok::<Seq<u32>, AsPathError>(p@),
                Err(e) => as_path(buffer@) == Err::<Seq<u32>, AsPathError>(e),
            },
    {
        if buffer.len() == 0 {
            return Err(AsPathError::Missing);
        }
        let parser = AsPathParser { buffer, next: 0 };
        parser.parse_attributes()
    }

    fn advance(&mut self) -> (byte: Result<u8, AsPathError>)
        requires
            old(self).wf(),
        ensures
            final(self).wf(),
            final(self).buffer == old(self).buffer,
            match byte {
                Ok(b) => {
                    &&& old(self).next < old(self).buffer@.len()
                    &&& b == old(self).buffer@[old(self).next as int]
                    &&& final(self).next == old(self).next + 1
                },
                Err(e) => {
                    &&& e == AsPathError::End
                    &&& old(self).next == old(self).buffer@.len()
                    &&& final(self).next == old(self).next
                },
            },
    {
        if self.next >= self.buffer.len() {
            return Err(AsPathError::End);
        }
        let byte: u8 = self.buffer[self.next];
        self.next = self.next + 1;
        Ok(byte)
    }

    /// Skips `n` bytes; where there are fewer, everything.
    fn skip(&mut self, n: usize) -> (skipped: Result<(), AsPathError>)
        requires
            old(self).wf(),
        ensures
            final(self).wf(),
            final(self).buffer == old(self).buffer,
            match skipped {
                Ok(_) => final(self).next == old(self).next + n,
                Err(e) => {
                    &&& e == AsPathError::End
                    &&& old(self).next + n > old(self).buffer@.len()
                    &&& final(self).next == old(self).buffer@.len()
                },
            },
    {
        if n > self.buffer.len() - self.next {
            self.next = self.buffer.len();
            return Err(AsPathError::End);
        }
        self.next = self.next + n;
        Ok(())
    }

    fn parse_u32(&mut self) -> (number: Result<u32, AsPathError>)
        requires
            old(self).wf(),
        ensures
            final(self).wf(),
            final(self).buffer == old(self).buffer,
            match number {
                Ok(v) => {
                    &&& old(self).next + 4 <= old(self).buffer@.len()
                    &&& v == u32_at(old(self).buffer@, old(self).next as int)
                    &&& final(self).next == old(self).next + 4
                },
                Err(e) => {
                    &&& e == AsPathError::End
                    &&& old(self).next + 4 > old(self).buffer@.len()
                    &&& final(self).next == old(self).buffer@.len()
                },
            },
    {
        let a: u8 = match self.advance() {
            Ok(b) => b,
            Err(e) => {
                return Err(e);
            },
        };
        let b: u8 = match self.advance() {
            Ok(b) => b,
            Err(e) => {
                return Err(e);
            },
        };
        let c: u8 = match self.advance() {
            Ok(b) => b,
            Err(e) => {
                return Err(e);
            },
        };
        let d: u8 = match self.advance() {
            Ok(b) => b,
            Err(e) => {
                return Err(e);
            },
        };
        Ok(a as u32 * 0x100_0000 + b as u32 * 0x1_0000 + c as u32 * 0x100 + d as u32)
    }

    /// Reads `n` numbers.
    fn parse_numbers(&mut self, n: u8) -> (numbers: Result<Vec<u32>, AsPathError>)
        requires
            old(self).wf(),
        ensures
            final(self).wf(),
            final(self).buffer == old(self).buffer,
            match numbers {
                Ok(list) => {
                    &&& old(self).next + 4 * n <= old(self).buffer@.len()
                    &&& list@ == u32s_at(old(self).buffer@, old(self).next as int, n as nat)
                    &&& final(self).next == old(self).next + 4 * n
                },
                Err(e) => {
                    &&& e == AsPathError::End
                    &&& old(self).next + 4 * n > old(self).buffer@.len()
                    &&& final(self).next == old(self).buffer@.len()
                },
            },
    {
        let mut list: Vec<u32> = Vec::new();
        let ghost start = self.next as int;
        let ghost buffer = self.buffer;
        let mut i: u8 = 0;
        while i < n
            invariant
                i <= n,
                self.wf(),
                buffer == old(self).buffer,
                start == old(self).next,
                self.buffer == buffer,
                self.next == start + 4 * i,
                list@ == u32s_at(buffer@, start, i as nat),
            decreases n - i,
        {
            match self.parse_u32() {
                Ok(v) => {
                    list.push(v);
                    assert(list@ =~= u32s_at(buffer@, start, (i + 1) as nat));
                },
                Err(e) => {
                    return Err(e);
                },
            }
            i = i + 1;
        }
        Ok(list)
    }

    fn parse_attributes(self) -> (path: Result<Vec<u32>, AsPathError>)
        requires
            self.wf(),
            self.next == 0,
            self.buffer@.len() > 0,
        ensures
            match path {
                Ok(p) => as_path(self.buffer@) == Ok::<Seq<u32>, AsPathError>(p@),
                Err(e) => as_path(self.buffer@) == Err::<Seq<u32>, AsPathError>(e),
            },
    {
        let mut parser = AsPathParser { buffer: self.buffer, next: 0 };
        let ghost buffer = self.buffer@;
        let mut paths: Vec<Vec<u32>> = Vec::new();
        assert(add_paths(paths_view(paths@), paths_from(buffer, 0)) == paths_from(buffer, 0)) by {
            assert(paths_view(paths@) =~= Seq::empty());
            if let Ok(rest) = paths_from(buffer, 0) {
                assert(Seq::<Seq<u32>>::empty() + rest =~= rest);
            }
        }
        while parser.next < parser.buffer.len()
            invariant
                parser.wf(),
                parser.buffer@ == buffer,
                buffer == self.buffer@,
                buffer.len() > 0,
                add_paths(paths_view(paths@), paths_from(buffer, parser.next as int))
                    == paths_from(buffer, 0),
            decreases buffer.len() - parser.next,
        {
            let ghost at = parser.next as int;
            let ghost before = paths_view(paths@);
            match parser.parse_attribute() {
                Err(e) => {
                    return Err(e);
                },
                Ok(Some(path)) => {
                    if path.len() == 0 {
                        return Err(AsPathError::EmptyPath);
                    }
                    proof {
                        if let Ok(rest) = paths_from(buffer, parser.next as int) {
                            assert(before.push(path@) + rest =~= before + (seq![path@] + rest));
                        }
                    }
                    paths.push(path);
                    assert(paths_view(paths@) =~= before.push(path@));
                },
                Ok(None) => {},
            }
        }
        proof {
            assert(paths_view(paths@) + Seq::empty() =~= paths_view(paths@));
        }
        if paths.len() > 1 {
            return Err(AsPathError::Multiple);
        }
        match paths.pop() {
            Some(path) => Ok(path),
            None => Err(AsPathError::NoPath),
        }
    }

    fn parse_attribute(&mut self) -> (path: Result<Option<Vec<u32>>, AsPathError>)
        requires
            old(self).wf(),
            old(self).next < old(self).buffer@.len(),
        ensures
            final(self).wf(),
            final(self).buffer == old(self).buffer,
            ({
                let read = attribute_at(old(self).buffer@, old(self).next as int);
                match path {
                    Ok(p) => {
                        &&& read matches Ok((q, next)) && {
                            &&& next == final(self).next
                            &&& match p {
                                Some(list) => q == Some(list@),
                                None => q is None,
                            }
                        }
                        &&& final(self).next > old(self).next
                    },
                    Err(e) => read == Err::<(Option<Seq<u32>>, int), AsPathError>(e),
                }
            }),
    {
        let flag: u8 = match self.advance() {
            Ok(b) => b,
            Err(e) => {
                return Err(e);
            },
        };
        let type_code: u8 = match self.advance() {
            Ok(b) => b,
            Err(e) => {
                return Err(e);
            },
        };
        let mut attribute_length: u16 = match self.advance() {
            Ok(b) => b as u16,
            Err(e) => {
                return Err(e);
            },
        };
        if (flag / 16) % 2 == 1 {
            match self.advance() {
                Ok(b) => {
                    attribute_length = attribute_length * 256 + b as u16;
                },
                Err(e) => {
                    return Err(e);
                },
            }
        }
        if type_code == 2 {
            let body: usize = self.next;
            let path = self.parse_as_path();
            let read: usize = self.next - body;
            let remaining: usize = if attribute_length as usize > read {
                attribute_length as usize - read
            } else {
                0
            };
            match self.skip(remaining) {
                Ok(_) => path,
                Err(e) => Err(e),
            }
        } else {
            match self.skip(attribute_length as usize) {
                Ok(_) => Ok(None),
                Err(e) => Err(e),
            }
        }
    }

    fn parse_as_path(&mut self) -> (path: Result<Option<Vec<u32>>, AsPathError>)
        requires
            old(self).wf(),
        ensures
            final(self).wf(),
            final(self).buffer == old(self).buffer,
            final(self).next >= old(self).next,
            ({
                let (read, stop) = path_at(old(self).buffer@, old(self).next as int);
                &&& final(self).next == stop
                &&& match path {
                    Ok(Some(list)) => read == Ok::<_, AsPathError>(Some(list@)),
                    Ok(None) => read == Ok::<Option<Seq<u32>>, AsPathError>(None),
                    Err(e) => read == Err::<Option<Seq<u32>>, AsPathError>(e),
                }
            }),
    {
        let kind: u8 = match self.advance() {
            Ok(b) => b,
            Err(e) => {
                return Err(e);
            },
        };
        if kind != 1 && kind != 2 {
            return Err(AsPathError::UnknownType(kind));
        }
        let count: u8 = match self.advance() {
            Ok(b) => b,
            Err(e) => {
                return Err(e);
            },
        };
        match self.parse_numbers(count) {
            Ok(list) => if kind == 2 {
                Ok(Some(list))
            } else {
                Ok(None)
            },
            Err(e) => Err(e),
        }
    }
}

/// Paths as sequences.
pub open spec fn paths_view(paths: Seq<Vec<u32>>) -> Seq<Seq<u32>> {
    paths.map_values(|p: Vec<u32>| p@)
}

/// Paths that were read, with what comes of the rest.
spec fn add_paths(
    read: Seq<Seq<u32>>,
    rest: Result<Seq<Seq<u32>>, AsPathError>,
) -> Result<Seq<Seq<u32>>, AsPathError> {
    match rest {
        Ok(list) => Ok(read + list),
        Err(e) => Err(e),
    }
}

/// The number in `n` bytes of which only the first are given; the others are zero.
pub open spec fn padded_value(bytes: Seq<u8>, n: nat) -> nat
    decreases n,
{
    if n == 0 {
        0
    } else {
        padded_value(bytes, (n - 1) as nat) * 256 + if n <= bytes.len() {
            bytes[n - 1] as nat
        } else {
            0
        }
    }
}

/// The bytes of a prefix are more than an address has.
#[derive(Debug, Clone, Copy, PartialEq, Eq, Structural)]
pub enum PrefixBytesError {
    V4,
    V6,
}

impl PrefixBytesError {
    /// What a reader is told about the error.
    pub fn message(&self) -> (message: &'static str)
        ensures
            message@ == match *self {
                PrefixBytesError::V4 => "invalid IPv4 prefix bytes"@,
                PrefixBytesError::V6 => "invalid IPv6 prefix bytes"@,
            },
    {
        match *self {
            PrefixBytesError::V4 => "invalid IPv4 prefix bytes",
            PrefixBytesError::V6 => "invalid IPv6 prefix bytes",
        }
    }
}

/// The address that the bytes of a prefix start.
pub open spec fn prefix_address(bytes: Seq<u8>, is_ipv4: bool) -> Result<
    IpAddr,
    PrefixBytesError,
> {
    if is_ipv4 {
        if bytes.len() > 4 {
            Err(PrefixBytesError::V4)
        } else {
            Ok(IpAddr::V4(padded_value(bytes, 4) as u32))
        }
    } else {
        if bytes.len() > 16 {
            Err(PrefixBytesError::V6)
        } else {
            Ok(IpAddr::V6(padded_value(bytes, 16) as u128))
        }
    }
}

fn padded(bytes: &[u8], n: usize) -> (value: u128)
    requires
        n <= 16,
    ensures
        value == padded_value(bytes@, n as nat),
        value < pow2(8 * n as nat),
{
    let mut value: u128 = 0;
    let mut i: usize = 0;
    proof {
        lemma2_to64();
    }
    while i < n
        invariant
            i <= n <= 16,
            value == padded_value(bytes@, i as nat),
            value < pow2(8 * i as nat),
        decreases n - i,
    {
        proof {
            lemma2_to64();
            lemma_pow2_adds(8 * i as nat, 8);
            lemma_pow2_adds(8 * (i + 1) as nat, (128 - 8 * (i + 1)) as nat);
            lemma_pow2_128();
            let rest = pow2((128 - 8 * (i + 1)) as nat);
            lemma_pow2_pos((128 - 8 * (i + 1)) as nat);
            assert(pow2(8 * (i + 1) as nat) <= pow2(128)) by (nonlinear_arith)
                requires
                    pow2(128) == pow2(8 * (i + 1) as nat) * rest,
                    rest >= 1,
            ;
            assert(value * 256 + 256 <= pow2(8 * (i + 1) as nat)) by (nonlinear_arith)
                requires
                    value + 1 <= pow2(8 * i as nat),
                    pow2(8 * (i + 1) as nat) == pow2(8 * i as nat) * 256,
            ;
        }
        let byte: u8 = if i < bytes.len() {
            bytes[i]
        } else {
            0
        };
        value = value * 256 + byte as u128;
        i = i + 1;
    }
    value
}

/// The address that the bytes of a prefix start.
pub fn format_ip(bytes: &[u8], is_ipv4: bool) -> (ip: Result<IpAddr, PrefixBytesError>)
    ensures
        ip == prefix_address(bytes@, is_ipv4),
{
    if is_ipv4 {
        if bytes.len() > 4 {
            return Err(PrefixBytesError::V4);
        }
        let value: u128 = padded(bytes, 4);
        proof {
            lemma2_to64();
        }
        Ok(IpAddr::V4(value as u32))
    } else {
        if bytes.len() > 16 {
            return Err(PrefixBytesError::V6);
        }
        Ok(IpAddr::V6(padded(bytes, 16)))
    }
}

/// A number as its four bytes, most significant first.
pub open spec fn number_bytes(n: u32) -> Seq<u8> {
    seq![
        (n as nat / 0x100_0000) as u8,
        (n as nat / 0x1_0000 % 0x100) as u8,
        (n as nat / 0x100 % 0x100) as u8,
        (n as nat % 0x100) as u8,
    ]
}

/// A path as the bytes of its numbers.
pub open spec fn numbers_bytes(path: Seq<u32>) -> Seq<u8>
    decreases path.len(),
{
    if path.len() == 0 {
        Seq::empty()
    } else {
        numbers_bytes(path.drop_last()) + number_bytes(path.last())
    }
}

/// A segment of a path: its sort, how many numbers it has, and the numbers.
pub open spec fn segment_bytes(sort: u8, path: Seq<u32>) -> Seq<u8> {
    seq![sort, path.len() as u8] + numbers_bytes(path)
}

/// An attribute: its flags, its kind, the length of its body and the body. The
/// flag of weight 16 says that the length takes two bytes.
pub open spec fn attribute_bytes(flags: u8, kind: u8, body: Seq<u8>) -> Seq<u8> {
    if (flags as nat / 16) % 2 == 1 {
        seq![flags, kind, (body.len() / 256) as u8, (body.len() % 256) as u8] + body
    } else {
        seq![flags, kind, body.len() as u8] + body
    }
}

/// The length of a body fits the bytes that an attribute has for it.
pub open spec fn body_fits(flags: u8, body: Seq<u8>) -> bool {
    if (flags as nat / 16) % 2 == 1 {
        body.len() < 0x1_0000
    } else {
        body.len() < 0x100
    }
}

proof fn lemma_numbers_bytes(path: Seq<u32>, before: Seq<u8>, after: Seq<u8>)
    ensures
        numbers_bytes(path).len() == 4 * path.len(),
        u32s_at(before + numbers_bytes(path) + after, before.len() as int, path.len()) == path,
    decreases path.len(),
{
    let all = before + numbers_bytes(path) + after;
    if path.len() > 0 {
        let less = path.drop_last();
        let own = number_bytes(path.last());
        lemma_numbers_bytes(less, before, own + after);
        assert(all =~= before + numbers_bytes(less) + (own + after));
        let at: int = (before.len() + 4 * less.len()) as int;
        let n = path.last();
        assert(all[at] == own[0] && all[at + 1] == own[1] && all[at + 2] == own[2] && all[at + 3]
            == own[3]);
        assert(u32_at(all, at) == n);
        let read = u32s_at(all, before.len() as int, path.len());
        let read_less = u32s_at(all, before.len() as int, less.len());
        assert forall|i: int| 0 <= i < path.len() implies read[i] == path[i] by {
            if i < less.len() {
                assert(read[i] == read_less[i]);
                assert(less[i] == path[i]);
            }
        }
    }
    assert(u32s_at(all, before.len() as int, path.len()) =~= path);
}

/// Reading does not depend on what comes before.
proof fn lemma_paths_shift(before: Seq<u8>, buffer: Seq<u8>, at: int)
    requires
        0 <= at,
    ensures
        paths_from(before + buffer, before.len() + at) == paths_from(buffer, at),
    decreases buffer.len() - at,
{
    let all = before + buffer;
    let n = before.len() as int;
    if at < buffer.len() {
        assert(forall|i: int| 0 <= i < buffer.len() ==> all[n + i] == buffer[i]);
        if let Some((body, length)) = attribute_body(buffer, at) {
            assert(attribute_body(all, n + at) == Some((n + body, length)));
            if body < buffer.len() {
                let (here, there) = (path_at(buffer, body), path_at(all, n + body));
                let count = if body + 1 < buffer.len() {
                    buffer[body + 1] as nat
                } else {
                    0
                };
                if body + 2 + 4 * count <= buffer.len() {
                    assert(u32s_at(buffer, body + 2, count) =~= u32s_at(all, n + body + 2, count));
                }
                assert(here.0 == there.0 && here.1 + n == there.1);
            }
            if let Ok((path, next)) = attribute_at(buffer, at) {
                assert(attribute_at(all, n + at) == Ok::<(Option<Seq<u32>>, int), AsPathError>(
                    (path, n + next),
                ));
                lemma_paths_shift(before, buffer, next);
            }
        }
    }
}

/// An attribute of another kind than 2 has no path, and none of its bytes counts.
pub proof fn other_attributes_are_skipped(flags: u8, kind: u8, body: Seq<u8>, rest: Seq<u8>)
    requires
        kind != 2,
        body_fits(flags, body),
    ensures
        paths_from(attribute_bytes(flags, kind, body) + rest, 0) == paths_from(rest, 0),
{
    let own = attribute_bytes(flags, kind, body);
    let all = own + rest;
    assert(all[0] == flags && all[1] == kind);
    assert(attribute_at(all, 0) == Ok::<(Option<Seq<u32>>, int), AsPathError>(
        (None, own.len() as int),
    ));
    lemma_paths_shift(own, rest, 0);
}

/// An attribute of kind 2 that holds one segment of sort 2 is a path: its numbers,
/// in order, for all numbers that four bytes can write. A segment of sort 1 is a
/// set and is skipped. There is no path without numbers.
pub proof fn written_paths_are_read(flags: u8, sort: u8, path: Seq<u32>, rest: Seq<u8>)
    requires
        sort == 1 || sort == 2,
        path.len() < 256,
        body_fits(flags, segment_bytes(sort, path)),
    ensures
        ({
            let all = attribute_bytes(flags, 2, segment_bytes(sort, path)) + rest;
            paths_from(all, 0) == if sort == 1 {
                paths_from(rest, 0)
            } else if path.len() == 0 {
                Err(AsPathError::EmptyPath)
            } else {
                match paths_from(rest, 0) {
                    Ok(others) => Ok(seq![path] + others),
                    Err(e) => Err(e),
                }
            }
        }),
{
    let body = segment_bytes(sort, path);
    let own = attribute_bytes(flags, 2, body);
    let all = own + rest;
    let head = own.take(own.len() - numbers_bytes(path).len());
    lemma_numbers_bytes(path, head, rest);
    assert(own =~= head + numbers_bytes(path));
    assert(all =~= head + numbers_bytes(path) + rest);
    assert(all[0] == flags && all[1] == 2);
    let start = head.len() - 2;
    assert(all[start] == sort && all[start + 1] == path.len() as u8);
    assert(attribute_body(all, 0) == Some((start as int, body.len() as int)));
    assert(path_at(all, start as int).1 == own.len());
    let found: Option<Seq<u32>> = if sort == 2 {
        Some(path)
    } else {
        None
    };
    assert(attribute_at(all, 0) == Ok::<(Option<Seq<u32>>, int), AsPathError>(
        (found, own.len() as int),
    ));
    lemma_paths_shift(own, rest, 0);
}

/// A segment of any other sort is refused by its sort.
pub proof fn unknown_segments_are_refused(flags: u8, body: Seq<u8>, rest: Seq<u8>)
    requires
        body.len() > 0,
        body[0] != 1,
        body[0] != 2,
        body_fits(flags, body),
    ensures
        paths_from(attribute_bytes(flags, 2, body) + rest, 0) == Err::<Seq<Seq<u32>>, AsPathError>(
            AsPathError::UnknownType(body[0]),
        ),
{
    let own = attribute_bytes(flags, 2, body);
    let all = own + rest;
    let start = own.len() - body.len();
    assert(all[0] == flags && all[1] == 2 && all[start] == body[0]);
    assert(attribute_body(all, 0) == Some((start, body.len() as int)));
}

/// An attribute that is cut off anywhere is refused.
pub proof fn cut_off_attributes_are_refused(flags: u8, kind: u8, body: Seq<u8>, n: int)
    requires
        body_fits(flags, body),
        kind == 2 ==> exists|sort: u8, path: Seq<u32>|
            (sort == 1 || sort == 2) && path.len() < 256 && body == #[trigger] segment_bytes(
                sort,
                path,
            ),
        0 < n < attribute_bytes(flags, kind, body).len(),
    ensures
        paths_from(attribute_bytes(flags, kind, body).take(n), 0) == Err::<
            Seq<Seq<u32>>,
            AsPathError,
        >(AsPathError::End),
{
    let own = attribute_bytes(flags, kind, body);
    let all = own.take(n);
    let start = own.len() - body.len();
    if n >= start {
        assert(all[0] == flags && all[1] == kind);
        assert(attribute_body(all, 0) == Some((start, body.len() as int)));
        if kind == 2 {
            let (sort, path) = choose|sort: u8, path: Seq<u32>|
                (sort == 1 || sort == 2) && path.len() < 256 && body == #[trigger] segment_bytes(
                    sort,
                    path,
                );
            if n > start {
                assert(all[start] == own[start] && own[start] == body[0]);
            }
            if n > start + 1 {
                assert(all[start + 1] == own[start + 1] && own[start + 1] == body[1]);
            }
        }
    }
}

/// A route has a path exactly if its attributes hold one path and no other; every
/// other case has its error.
pub proof fn routes_have_one_path(buffer: Seq<u8>)
    ensures
        paths_from(Seq::empty(), 0) == Ok::<Seq<Seq<u32>>, AsPathError>(Seq::empty()),
        as_path(buffer) == if buffer.len() == 0 {
            Err(AsPathError::Missing)
        } else {
            match paths_from(buffer, 0) {
                Ok(paths) => if paths.len() == 1 {
                    Ok(paths[0])
                } else if paths.len() == 0 {
                    Err(AsPathError::NoPath)
                } else {
                    Err(AsPathError::Multiple)
                },
                Err(e) => Err(e),
            }
        },
{
}

/// The attributes of a route give back the path that was written among them,
/// whatever stands before and after it.
pub proof fn paths_are_found_among_attributes(
    before: (u8, u8, Seq<u8>),
    flags: u8,
    path: Seq<u32>,
    after: (u8, u8, Seq<u8>),
)
    requires
        before.1 != 2,
        body_fits(before.0, before.2),
        after.1 != 2,
        body_fits(after.0, after.2),
        0 < path.len() < 256,
        body_fits(flags, segment_bytes(2, path)),
    ensures
        as_path(attribute_bytes(flags, 2, segment_bytes(2, path))) == Ok::<Seq<u32>, AsPathError>(
            path,
        ),
        as_path(
            attribute_bytes(before.0, before.1, before.2) + attribute_bytes(
                flags,
                2,
                segment_bytes(2, path),
            ) + attribute_bytes(after.0, after.1, after.2),
        ) == Ok::<Seq<u32>, AsPathError>(path),
{
    let none = Seq::<u8>::empty();
    let first = attribute_bytes(before.0, before.1, before.2);
    let own = attribute_bytes(flags, 2, segment_bytes(2, path));
    let last = attribute_bytes(after.0, after.1, after.2);
    other_attributes_are_skipped(after.0, after.1, after.2, none);
    assert(last + none =~= last);
    written_paths_are_read(flags, 2, path, last);
    other_attributes_are_skipped(before.0, before.1, before.2, own + last);
    assert(first + own + last =~= first + (own + last));
    written_paths_are_read(flags, 2, path, none);
    assert(own + none =~= own);
    assert(seq![path] + Seq::<Seq<u32>>::empty() =~= seq![path]);
}

/// The bytes of a prefix are the leading bytes of its address, most significant
/// first, and the others are zero. More bytes than an address has are refused.
pub proof fn prefix_bytes_lead_the_address(bytes: Seq<u8>, is_ipv4: bool, i: nat)
    requires
        i < if is_ipv4 {
            4nat
        } else {
            16nat
        },
    ensures
        ({
            let n = if is_ipv4 {
                4nat
            } else {
                16nat
            };
            match prefix_address(bytes, is_ipv4) {
                Ok(ip) => {
                    let value = match ip {
                        IpAddr::V4(v) => v as nat,
                        IpAddr::V6(v) => v as nat,
                    };
                    &&& bytes.len() <= n
                    &&& ip is V4 == is_ipv4
                    &&& value / pow2(8 * (n - 1 - i) as nat) % 256 == if i < bytes.len() {
                        bytes[i as int] as nat
                    } else {
                        0nat
                    }
                },
                Err(e) => bytes.len() > n && e is V4 == is_ipv4,
            }
        }),
{
    let n = if is_ipv4 {
        4nat
    } else {
        16nat
    };
    if bytes.len() <= n {
        lemma2_to64();
        lemma_pow2_128();
        lemma_padded_byte(bytes, n, i);
    }
}

proof fn lemma_padded_byte(bytes: Seq<u8>, n: nat, i: nat)
    requires
        i < n,
    ensures
        padded_value(bytes, n) < pow2(8 * n),
        padded_value(bytes, n) / pow2(8 * (n - 1 - i) as nat) % 256 == if i < bytes.len() {
            bytes[i as int] as nat
        } else {
            0nat
        },
    decreases n,
{
    let less = (n - 1) as nat;
    let high = padded_value(bytes, less);
    let byte = if n <= bytes.len() {
        bytes[n - 1] as nat
    } else {
        0nat
    };
    lemma2_to64();
    lemma_pow2_adds(8 * less, 8);
    if less > 0 {
        lemma_padded_byte(bytes, less, 0);
    }
    assert(high * 256 + byte < pow2(8 * n)) by (nonlinear_arith)
        requires
            high + 1 <= pow2(8 * less),
            byte < 256,
            pow2(8 * n) == pow2(8 * less) * 256,
    ;
    if i < less {
        lemma_padded_byte(bytes, less, i);
        let place = 8 * (less - 1 - i) as nat;
        lemma_pow2_adds(8, place);
        lemma_pow2_pos(place);
        lemma_div_denominator((high * 256 + byte) as int, 256, pow2(place) as int);
        assert((high * 256 + byte) / 256 == high);
        assert(8 + place == 8 * (n - 1 - i));
    } else {
        assert((high * 256 + byte) / 1 == high * 256 + byte);
    }
}

/// A number is read from four bytes, and written in four, the most significant
/// first.
pub proof fn numbers_have_four_bytes(buffer: Seq<u8>, at: int, n: u32, count: nat, i: int)
    ensures
        u32_at(buffer, at) == buffer[at] * 0x100_0000 + buffer[at + 1] * 0x1_0000 + buffer[at + 2]
            * 0x100 + buffer[at + 3],
        u32s_at(buffer, at, count).len() == count,
        0 <= i < count ==> u32s_at(buffer, at, count)[i] == u32_at(buffer, at + 4 * i),
        number_bytes(n).len() == 4,
        number_bytes(n)[0] * 0x100_0000 + number_bytes(n)[1] * 0x1_0000 + number_bytes(n)[2] * 0x100
            + number_bytes(n)[3] == n,
{
}

/// How paths and attributes are written: the numbers one after another, behind the
/// sort of the segment and their count; a body behind flags, kind and length. The
/// length takes one byte, or two, the larger first, where the flags say so.
pub proof fn attributes_are_written_in_order(
    a: Seq<u32>,
    b: Seq<u32>,
    n: u32,
    sort: u8,
    flags: u8,
    kind: u8,
    body: Seq<u8>,
)
    ensures
        numbers_bytes(Seq::empty()) == Seq::<u8>::empty(),
        numbers_bytes(seq![n]) == number_bytes(n),
        numbers_bytes(a + b) == numbers_bytes(a) + numbers_bytes(b),
        a.len() < 256 ==> segment_bytes(sort, a) == seq![sort, a.len() as u8] + numbers_bytes(a),
        ({
            let long = (flags as nat / 16) % 2 == 1;
            &&& long ==> body_fits(flags, body) == (body.len() < 0x1_0000)
            &&& !long ==> body_fits(flags, body) == (body.len() < 0x100)
            &&& long && body_fits(flags, body) ==> attribute_bytes(flags, kind, body) == seq![
                flags,
                kind,
                (body.len() / 256) as u8,
                (body.len() % 256) as u8,
            ] + body
            &&& !long && body_fits(flags, body) ==> attribute_bytes(flags, kind, body) == seq![
                flags,
                kind,
                body.len() as u8,
            ] + body
        }),
    decreases b.len(),
{
    let one = seq![n];
    assert(one.drop_last() =~= Seq::empty());
    assert(numbers_bytes(one.drop_last()) =~= Seq::empty());
    assert(numbers_bytes(one) =~= number_bytes(n));
    if b.len() == 0 {
        assert(a + b =~= a);
        assert(numbers_bytes(a) + numbers_bytes(b) =~= numbers_bytes(a));
    } else {
        attributes_are_written_in_order(a, b.drop_last(), n, sort, flags, kind, body);
        assert((a + b).drop_last() =~= a + b.drop_last());
        assert((a + b).last() == b.last());
        assert(numbers_bytes(a + b) =~= numbers_bytes(a) + numbers_bytes(b));
    }
}

/// What is said about attributes without a path.
pub proof fn what_is_said_about_attributes(kind: u8)
    ensures
        AsPathError::Missing.text() == "missing MRT attributes"@,
        AsPathError::End.text() == "unexpected end of MRT attribute buffer"@,
        AsPathError::EmptyPath.text() == "MRT attribute had no AS path"@,
        AsPathError::Multiple.text() == "MRT entry contained multiple AS paths"@,
        AsPathError::NoPath.text() == "MRT entry had no AS path"@,
        AsPathError::UnknownType(kind).text() == "unknown AS path type "@ + decimal(kind as nat),
{
}

/// Paths are taken as they stand.
pub proof fn paths_are_taken_as_they_stand(paths: Seq<Vec<u32>>, i: int)
    requires
        0 <= i < paths.len(),
    ensures
        paths_view(paths).len() == paths.len(),
        paths_view(paths)[i] == paths[i]@,
{
}

} // verus!
