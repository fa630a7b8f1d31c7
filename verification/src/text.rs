//! Text: characters, numbers, splitting, trimming and ordering.

use crate::votes::texts;
use vstd::prelude::*;
use vstd::slice::slice_subrange;
use vstd::std_specs::iter::IteratorSpec;
use vstd::utf8::{encode_utf8, encode_utf8_decode_utf8};

verus! {

/// `String::push` appends one character to a text.
pub assume_specification[ String::push ](text: &mut String, c: char)
    ensures
        final(text)@ == old(text)@.push(c),
;

/// Why a text is not a number.
#[derive(Debug, Clone, Copy, PartialEq, Eq, Structural)]
pub enum IntError {
    Empty,
    InvalidDigit,
    PosOverflow,
}

impl IntError {
    /// What a reader is told about the error.
    pub open spec fn text(self) -> Seq<char> {
        match self {
            IntError::Empty => "cannot parse integer from empty string"@,
            IntError::InvalidDigit => "invalid digit found in string"@,
            IntError::PosOverflow => "number too large to fit in target type"@,
        }
    }

    /// What a reader is told about the error.
    pub fn message(self) -> (message: String)
        ensures
            message@ == self.text(),
    {
        match self {
            IntError::Empty => "cannot parse integer from empty string".to_owned(),
            IntError::InvalidDigit => "invalid digit found in string".to_owned(),
            IntError::PosOverflow => "number too large to fit in target type".to_owned(),
        }
    }
}

/// The value of a digit in base ten or sixteen.
pub open spec fn digit_value(c: char, radix: nat) -> Option<nat> {
    if '0' <= c && c <= '9' {
        Some((c as u32 - '0' as u32) as nat)
    } else if radix == 16 && 'a' <= c && c <= 'f' {
        Some((c as u32 - 'a' as u32 + 10) as nat)
    } else if radix == 16 && 'A' <= c && c <= 'F' {
        Some((c as u32 - 'A' as u32 + 10) as nat)
    } else {
        None
    }
}

/// The digit of a value below sixteen, in lower case.
pub open spec fn digit_char(d: nat) -> char {
    if d < 10 {
        ('0' as u32 + d) as char
    } else {
        ('a' as u32 + d - 10) as char
    }
}

/// `n` in base `radix` without leading zeros.
pub open spec fn number_text(n: nat, radix: nat) -> Seq<char>
    decreases n,
{
    if n < radix || radix < 2 {
        seq![digit_char(n)]
    } else {
        proof {
            assert(n / radix < n) by (nonlinear_arith)
                requires
                    n >= radix,
                    radix >= 2,
            ;
        }
        number_text(n / radix, radix).push(digit_char(n % radix))
    }
}

/// `n` in base ten.
pub open spec fn decimal(n: nat) -> Seq<char> {
    number_text(n, 10)
}

/// The number that a run of decimal digits writes, if it is at most `max`.
pub open spec fn scan_digits(s: Seq<char>, max: nat) -> Result<nat, IntError>
    decreases s.len(),
{
    if s.len() == 0 {
        Ok(0)
    } else {
        match scan_digits(s.drop_last(), max) {
            Err(e) => Err(e),
            Ok(v) => match digit_value(s.last(), 10) {
                None => Err(IntError::InvalidDigit),
                Some(d) => if 10 * v + d > max {
                    Err(IntError::PosOverflow)
                } else {
                    Ok(10 * v + d)
                },
            },
        }
    }
}

/// The number that a text writes: decimal digits, behind an optional plus sign.
pub open spec fn parse_number(s: Seq<char>, max: nat) -> Result<nat, IntError> {
    if s.len() == 0 {
        Err(IntError::Empty)
    } else if s.len() == 1 && (s[0] == '+' || s[0] == '-') {
        Err(IntError::InvalidDigit)
    } else if s[0] == '+' {
        scan_digits(s.skip(1), max)
    } else {
        scan_digits(s, max)
    }
}

/// The first position of `c` at or after `from`; the length if there is none.
pub open spec fn find(s: Seq<char>, c: char, from: int) -> int
    decreases s.len() - from,
{
    if from >= s.len() {
        s.len() as int
    } else if s[from] == c {
        from
    } else {
        find(s, c, from + 1)
    }
}

/// The pieces of a text between occurrences of `c`.
pub open spec fn split(s: Seq<char>, c: char) -> Seq<Seq<char>> {
    split_from(s, c, 0)
}

/// The pieces of `s[from..]` between occurrences of `c`.
pub open spec fn split_from(s: Seq<char>, c: char, from: int) -> Seq<Seq<char>>
    decreases s.len() - from,
{
    let end = find(s, c, from);
    if from < 0 || end < from || end >= s.len() {
        seq![s.subrange(from, s.len() as int)]
    } else {
        seq![s.subrange(from, end)] + split_from(s, c, end + 1)
    }
}

/// White space.
pub open spec fn is_space(c: char) -> bool {
    let v = c as u32;
    ||| 9 <= v <= 13
    ||| v == 0x20
    ||| v == 0x85
    ||| v == 0xa0
    ||| v == 0x1680
    ||| 0x2000 <= v <= 0x200a
    ||| v == 0x2028
    ||| v == 0x2029
    ||| v == 0x202f
    ||| v == 0x205f
    ||| v == 0x3000
}

/// The first position at or after `from` that is not white space.
pub open spec fn skip_spaces(s: Seq<char>, from: int) -> int
    decreases s.len() - from,
{
    if from >= s.len() {
        s.len() as int
    } else if is_space(s[from]) {
        skip_spaces(s, from + 1)
    } else {
        from
    }
}

/// The first position at or after `from` that is white space.
pub open spec fn word_end(s: Seq<char>, from: int) -> int
    decreases s.len() - from,
{
    if from >= s.len() {
        s.len() as int
    } else if is_space(s[from]) {
        from
    } else {
        word_end(s, from + 1)
    }
}

/// The words of `s[from..]`: its longest runs without white space.
pub open spec fn words_from(s: Seq<char>, from: int) -> Seq<Seq<char>>
    decreases s.len() - from,
{
    let start = skip_spaces(s, from);
    let end = word_end(s, start);
    if from < 0 || start >= s.len() || end <= from || end > s.len() {
        Seq::empty()
    } else {
        seq![s.subrange(start, end)] + words_from(s, end)
    }
}

/// The end of `s[..to]` without the white space at its end.
pub open spec fn trim_end(s: Seq<char>, to: int) -> int
    decreases to,
{
    if to <= 0 {
        0
    } else if is_space(s[to - 1]) {
        trim_end(s, to - 1)
    } else {
        to
    }
}

/// A text without the white space at its ends.
pub open spec fn trim(s: Seq<char>) -> Seq<char> {
    let start = skip_spaces(s, 0);
    let end = trim_end(s, s.len() as int);
    if start >= end {
        Seq::empty()
    } else {
        s.subrange(start, end)
    }
}

/// The order of texts: by the first character that differs, the shorter first.
pub open spec fn text_le(a: Seq<char>, b: Seq<char>) -> bool
    decreases a.len(),
{
    if a.len() == 0 {
        true
    } else if b.len() == 0 {
        false
    } else if a[0] != b[0] {
        a[0] < b[0]
    } else {
        text_le(a.drop_first(), b.drop_first())
    }
}

pub proof fn lemma_text_le_total(a: Seq<char>, b: Seq<char>)
    ensures
        text_le(a, a),
        text_le(a, b) || text_le(b, a),
        text_le(a, b) && text_le(b, a) ==> a == b,
    decreases a.len(),
{
    if a.len() > 0 {
        if b.len() > 0 {
            lemma_text_le_total(a.drop_first(), b.drop_first());
            if a[0] == b[0] && a.drop_first() == b.drop_first() {
                assert(a =~= seq![a[0]] + a.drop_first());
                assert(b =~= seq![b[0]] + b.drop_first());
            }
        } else {
            lemma_text_le_total(a.drop_first(), b);
        }
    } else if b.len() == 0 {
        assert(a =~= b);
    }
}

pub proof fn lemma_text_le_trans(a: Seq<char>, b: Seq<char>, c: Seq<char>)
    requires
        text_le(a, b),
        text_le(b, c),
    ensures
        text_le(a, c),
    decreases a.len(),
{
    if a.len() > 0 && a[0] == b[0] && b[0] == c[0] {
        lemma_text_le_trans(a.drop_first(), b.drop_first(), c.drop_first());
    }
}

/// The characters of a text.
pub(crate) fn to_chars(text: &str) -> (chars: Vec<char>)
    ensures
        chars@ == text@,
{
    let mut chars: Vec<char> = Vec::new();
    for c in it: text.chars()
        invariant
            chars@ == it.seq().take(it.index()),
            it.seq() == text@,
    {
        chars.push(c);
        assert(chars@ =~= it.seq().take(it.index() + 1));
    }
    assert(chars@ =~= text@);
    chars
}

/// The text of some characters.
pub(crate) fn to_text(chars: &[char]) -> (text: String)
    ensures
        text@ == chars@,
{
    let mut text = String::new();
    push_chars(&mut text, chars);
    assert(text@ =~= chars@);
    text
}

/// Appends characters to a text.
pub(crate) fn push_chars(text: &mut String, chars: &[char])
    ensures
        final(text)@ == old(text)@ + chars@,
{
    let ghost start = text@;
    let mut i: usize = 0;
    while i < chars.len()
        invariant
            i <= chars@.len(),
            text@ == start + chars@.take(i as int),
        decreases chars@.len() - i,
    {
        text.push(chars[i]);
        i = i + 1;
        assert(text@ =~= start + chars@.take(i as int));
    }
    assert(chars@.take(i as int) =~= chars@);
}

/// Whether two texts are the same.
pub fn same_text(a: &str, b: &str) -> (same: bool)
    ensures
        same == (a@ == b@),
{
    let x = a.as_bytes();
    let y = b.as_bytes();
    proof {
        encode_utf8_decode_utf8(a@);
        encode_utf8_decode_utf8(b@);
    }
    if x.len() != y.len() {
        return false;
    }
    let mut i: usize = 0;
    while i < x.len()
        invariant
            i <= x@.len() == y@.len(),
            x@ == encode_utf8(a@),
            y@ == encode_utf8(b@),
            forall|j: int| 0 <= j < i ==> x@[j] == y@[j],
        decreases x@.len() - i,
    {
        if x[i] != y[i] {
            return false;
        }
        i = i + 1;
    }
    assert(x@ =~= y@);
    true
}

/// Whether one text comes before another or is the same.
pub fn is_text_le(a: &str, b: &str) -> (le: bool)
    ensures
        le == text_le(a@, b@),
{
    let mut x = a.chars();
    let mut y = b.chars();
    let ghost mut left: int = a@.len() as int;
    assert(x.remaining() == a@);
    assert(y.remaining() == b@);
    loop
        invariant
            left == x.remaining().len(),
            text_le(a@, b@) == text_le(x.remaining(), y.remaining()),
        decreases left,
    {
        let ghost rx = x.remaining();
        let ghost ry = y.remaining();
        match x.next() {
            None => {
                return true;
            },
            Some(c) => match y.next() {
                None => {
                    return false;
                },
                Some(d) => {
                    if c != d {
                        return c < d;
                    }
                    assert(x.remaining() == rx.drop_first());
                    assert(y.remaining() == ry.drop_first());
                    proof {
                        left = left - 1;
                    }
                },
            },
        }
    }
}

/// The value of a digit in base ten or sixteen.
pub(crate) fn digit(c: char, radix: u32) -> (d: Option<u32>)
    ensures
        match d {
            Some(v) => digit_value(c, radix as nat) == Some(v as nat) && v < 16,
            None => digit_value(c, radix as nat) is None,
        },
{
    if '0' <= c && c <= '9' {
        Some(c as u32 - '0' as u32)
    } else if radix == 16 && 'a' <= c && c <= 'f' {
        Some(c as u32 - 'a' as u32 + 10)
    } else if radix == 16 && 'A' <= c && c <= 'F' {
        Some(c as u32 - 'A' as u32 + 10)
    } else {
        None
    }
}

/// Appends the digit of a value below sixteen.
fn push_digit(text: &mut String, d: u8)
    requires
        d < 16,
    ensures
        final(text)@ == old(text)@.push(digit_char(d as nat)),
{
    if d < 10 {
        text.push(('0' as u8 + d) as char);
    } else {
        text.push(('a' as u8 + (d - 10)) as char);
    }
}

/// Appends `n` in base ten or sixteen.
pub(crate) fn push_number(text: &mut String, n: u128, radix: u128)
    requires
        radix == 10 || radix == 16,
    ensures
        final(text)@ == old(text)@ + number_text(n as nat, radix as nat),
    decreases n,
{
    let ghost start = text@;
    if n >= radix {
        push_number(text, n / radix, radix);
    }
    push_digit(text, (n % radix) as u8);
    assert(text@ =~= start + number_text(n as nat, radix as nat));
}

/// `n` in base ten.
pub fn decimal_text(n: u128) -> (text: String)
    ensures
        text@ == decimal(n as nat),
{
    let mut text = String::new();
    push_number(&mut text, n, 10);
    assert(text@ =~= decimal(n as nat));
    text
}

/// Reads a number.
pub(crate) fn read_number(s: &[char], max: u64) -> (read: Result<u64, IntError>)
    ensures
        match read {
            Ok(v) => parse_number(s@, max as nat) == Ok::<nat, IntError>(v as nat),
            Err(e) => parse_number(s@, max as nat) == Err::<nat, IntError>(e),
        },
{
    if s.len() == 0 {
        return Err(IntError::Empty);
    }
    if s.len() == 1 && (s[0] == '+' || s[0] == '-') {
        return Err(IntError::InvalidDigit);
    }
    let start: usize = if s[0] == '+' {
        1
    } else {
        0
    };
    let ghost body = s@.skip(start as int);
    assert(s@.skip(0) =~= s@);
    let mut v: u64 = 0;
    let mut i: usize = start;
    assert(body.take(0).len() == 0);
    while i < s.len()
        invariant
            start <= i <= s@.len(),
            body == s@.skip(start as int),
            parse_number(s@, max as nat) == scan_digits(body, max as nat),
            scan_digits(body.take(i - start), max as nat) == Ok::<nat, IntError>(v as nat),
            v <= max,
        decreases s@.len() - i,
    {
        let ghost upto = body.take(i - start + 1);
        assert(upto.drop_last() =~= body.take(i - start));
        assert(upto.last() == s@[i as int]);
        match digit(s[i], 10) {
            None => {
                proof {
                    lemma_scan_error(body, max as nat, i - start + 1);
                }
                return Err(IntError::InvalidDigit);
            },
            Some(d) => {
                if d as u64 > max || v > (max - d as u64) / 10 {
                    proof {
                        lemma_scan_error(body, max as nat, i - start + 1);
                    }
                    return Err(IntError::PosOverflow);
                }
                v = 10 * v + d as u64;
            },
        }
        i = i + 1;
    }
    assert(body.take(i - start) =~= body);
    Ok(v)
}

/// An error at the beginning of a run of digits is the error of all of it.
proof fn lemma_scan_error(s: Seq<char>, max: nat, upto: int)
    requires
        0 <= upto <= s.len(),
        scan_digits(s.take(upto), max) is Err,
    ensures
        scan_digits(s, max) == scan_digits(s.take(upto), max),
    decreases s.len() - upto,
{
    if upto < s.len() {
        assert(s.take(upto + 1).drop_last() =~= s.take(upto));
        lemma_scan_error(s, max, upto + 1);
    } else {
        assert(s.take(upto) =~= s);
    }
}

/// Finds a character.
pub(crate) fn find_char(s: &[char], c: char, from: usize) -> (at: usize)
    requires
        from <= s@.len(),
    ensures
        at == find(s@, c, from as int),
        from <= at <= s@.len(),
        at < s@.len() ==> s@[at as int] == c,
        forall|i: int| from <= i < at ==> s@[i] != c,
{
    let mut i: usize = from;
    while i < s.len()
        invariant
            from <= i <= s@.len(),
            find(s@, c, from as int) == find(s@, c, i as int),
            forall|j: int| from <= j < i ==> s@[j] != c,
        decreases s@.len() - i,
    {
        if s[i] == c {
            return i;
        }
        i = i + 1;
    }
    i
}

pub proof fn lemma_find(s: Seq<char>, c: char, from: int)
    requires
        0 <= from <= s.len(),
    ensures
        from <= find(s, c, from) <= s.len(),
        find(s, c, from) < s.len() ==> s[find(s, c, from)] == c,
        forall|i: int| from <= i < find(s, c, from) ==> s[i] != c,
    decreases s.len() - from,
{
    if from < s.len() && s[from] != c {
        lemma_find(s, c, from + 1);
    }
}

/// Whether a character is white space.
pub(crate) fn is_space_char(c: char) -> (r: bool)
    ensures
        r == is_space(c),
{
    let v: u32 = c as u32;
    (9 <= v && v <= 13) || v == 0x20 || v == 0x85 || v == 0xa0 || v == 0x1680 || (0x2000 <= v && v
        <= 0x200a) || v == 0x2028 || v == 0x2029 || v == 0x202f || v == 0x205f || v == 0x3000
}

/// Trims a text: the range of what is left.
pub(crate) fn trim_range(s: &[char]) -> (range: (usize, usize))
    ensures
        range.0 <= range.1 <= s@.len(),
        s@.subrange(range.0 as int, range.1 as int) == trim(s@),
{
    let mut start: usize = 0;
    while start < s.len() && is_space_char(s[start])
        invariant
            start <= s@.len(),
            skip_spaces(s@, 0) == skip_spaces(s@, start as int),
        decreases s@.len() - start,
    {
        start = start + 1;
    }
    let mut end: usize = s.len();
    while end > 0 && is_space_char(s[end - 1])
        invariant
            end <= s@.len(),
            trim_end(s@, s@.len() as int) == trim_end(s@, end as int),
        decreases end,
    {
        end = end - 1;
    }
    if start >= end {
        assert(s@.subrange(0, 0) =~= Seq::empty());
        (0, 0)
    } else {
        (start, end)
    }
}

/// Finds the next word.
pub(crate) fn next_word(s: &[char], from: usize) -> (range: Option<(usize, usize)>)
    requires
        from <= s@.len(),
    ensures
        match range {
            Some((start, end)) => {
                &&& from <= start < end <= s@.len()
                &&& words_from(s@, from as int) == seq![s@.subrange(start as int, end as int)]
                    + words_from(s@, end as int)
            },
            None => words_from(s@, from as int) == Seq::<Seq<char>>::empty(),
        },
{
    let mut start: usize = from;
    while start < s.len() && is_space_char(s[start])
        invariant
            from <= start <= s@.len(),
            skip_spaces(s@, from as int) == skip_spaces(s@, start as int),
        decreases s@.len() - start,
    {
        start = start + 1;
    }
    if start == s.len() {
        return None;
    }
    let mut end: usize = start;
    while end < s.len() && !is_space_char(s[end])
        invariant
            start <= end <= s@.len(),
            word_end(s@, start as int) == word_end(s@, end as int),
        decreases s@.len() - end,
    {
        end = end + 1;
    }
    Some((start, end))
}

/// Where the first occurrence is.
pub proof fn lemma_find_at(s: Seq<char>, c: char, from: int, at: int)
    requires
        0 <= from <= at <= s.len(),
        at < s.len() ==> s[at] == c,
        forall|i: int| from <= i < at ==> s[i] != c,
    ensures
        find(s, c, from) == at,
    decreases at - from,
{
    if from < at {
        lemma_find_at(s, c, from + 1, at);
    }
}

/// Every character of `s` is a digit in base `radix`.
pub open spec fn all_digits(s: Seq<char>, radix: nat) -> bool {
    forall|i: int| 0 <= i < s.len() ==> digit_value(#[trigger] s[i], radix) is Some
}

pub proof fn lemma_digit_char(d: nat, radix: nat)
    requires
        d < radix,
        radix == 10 || radix == 16,
    ensures
        digit_value(digit_char(d), radix) == Some(d),
{
}

/// Numbers are written with digits.
pub proof fn lemma_number_text(n: nat, radix: nat)
    requires
        radix == 10 || radix == 16,
    ensures
        number_text(n, radix).len() >= 1,
        all_digits(number_text(n, radix), radix),
    decreases n,
{
    if n < radix {
        lemma_digit_char(n, radix);
    } else {
        lemma_number_text(n / radix, radix);
        lemma_digit_char(n % radix, radix);
    }
}

/// A number that fits comes back from its digits.
pub proof fn lemma_decimal_reads(n: nat, max: nat)
    requires
        n <= max,
    ensures
        scan_digits(decimal(n), max) == Ok::<nat, IntError>(n),
        parse_number(decimal(n), max) == Ok::<nat, IntError>(n),
    decreases n,
{
    lemma_number_text(n, 10);
    assert(digit_value(decimal(n)[0], 10) is Some);
    if n < 10 {
        lemma_digit_char(n, 10);
        assert(decimal(n).drop_last() =~= Seq::empty());
        assert(scan_digits(decimal(n).drop_last(), max) == Ok::<nat, IntError>(0));
    } else {
        lemma_decimal_reads(n / 10, max);
        lemma_digit_char(n % 10, 10);
        assert(decimal(n).drop_last() =~= decimal(n / 10));
    }
}

/// Whether two runs of characters are the same.
pub(crate) fn same_chars(a: &[char], b: &[char]) -> (same: bool)
    ensures
        same == (a@ == b@),
{
    if a.len() != b.len() {
        return false;
    }
    let mut i: usize = 0;
    while i < a.len()
        invariant
            i <= a@.len() == b@.len(),
            forall|j: int| 0 <= j < i ==> a@[j] == b@[j],
        decreases a@.len() - i,
    {
        if a[i] != b[i] {
            return false;
        }
        i = i + 1;
    }
    assert(a@ =~= b@);
    true
}

/// The pieces of a text between occurrences of `c`.
pub(crate) fn split_text(text: &str, c: char) -> (pieces: Vec<String>)
    ensures
        texts(pieces@) == split(text@, c),
{
    let chars = to_chars(text);
    let s = chars.as_slice();
    let len: usize = s.len();
    let mut pieces: Vec<String> = Vec::new();
    let mut from: usize = 0;
    assert(texts(pieces@) + split_from(s@, c, 0) =~= split(text@, c));
    loop
        invariant
            from <= len == s@.len(),
            s@ == text@,
            texts(pieces@) + split_from(s@, c, from as int) == split(text@, c),
        decreases len - from,
    {
        let ghost before = texts(pieces@);
        let end: usize = find_char(s, c, from);
        let piece = to_text(slice_subrange(s, from, end));
        pieces.push(piece);
        assert(texts(pieces@) =~= before.push(s@.subrange(from as int, end as int)));
        if end >= len {
            assert(texts(pieces@) =~= split(text@, c));
            return pieces;
        }
        assert(texts(pieces@) + split_from(s@, c, end + 1) =~= before + split_from(
            s@,
            c,
            from as int,
        ));
        from = end + 1;
    }
}

/// A number ends in its last digit, in front of which stands the number without
/// it: the digits of weight one, the base, its square and so on, from the end.
/// Digits above nine are lower case letters.
pub proof fn numbers_are_written_digit_by_digit(n: nat, radix: nat)
    requires
        radix == 10 || radix == 16,
    ensures
        ({
            let digit = n % radix;
            &&& number_text(n, radix).last() as u32 == if digit < 10 {
                48 + digit
            } else {
                87 + digit
            }
            &&& n < radix ==> number_text(n, radix).len() == 1
            &&& n >= radix ==> number_text(n, radix).drop_last() == number_text(n / radix, radix)
            &&& decimal(n) == number_text(n, 10)
        }),
{
    assert(radix == 10 ==> n % 10 < 10);
    assert(radix == 16 ==> n % 16 < 16);
    if n >= radix {
        assert(number_text(n, radix).drop_last() =~= number_text(n / radix, radix));
    }
}

/// What a text of decimal digits reads as, digit by digit: a further digit
/// multiplies by ten and adds, as long as the bound is kept. A plus sign in front
/// changes nothing.
pub proof fn numbers_are_read_digit_by_digit(s: Seq<char>, c: char, max: nat)
    requires
        s.len() > 0,
        parse_number(s, max) is Ok,
    ensures
        ({
            let v = parse_number(s, max)->Ok_0;
            &&& v <= max
            &&& parse_number(s.push(c), max) == if !('0' <= c && c <= '9') {
                Err(IntError::InvalidDigit)
            } else if 10 * v + (c as u32 - 48) > max {
                Err(IntError::PosOverflow)
            } else {
                Ok((10 * v + (c as u32 - 48)) as nat)
            }
        }),
        s[0] != '+' ==> parse_number(seq!['+'] + s, max) == parse_number(s, max),
{
    let tail = if s[0] == '+' {
        s.skip(1)
    } else {
        s
    };
    assert(s.push(c).drop_last() =~= s);
    if s[0] == '+' {
        assert(s.push(c).skip(1) =~= s.skip(1).push(c));
        assert(s.push(c).skip(1).drop_last() =~= s.skip(1));
    } else {
        assert((seq!['+'] + s).skip(1) =~= s);
    }
    lemma_scan_bound(tail, max);
}

proof fn lemma_scan_bound(s: Seq<char>, max: nat)
    ensures
        scan_digits(s, max) matches Ok(v) ==> v <= max,
{
}

/// What one character reads as, and that nothing is no number.
pub proof fn one_digit_reads_as_its_value(c: char, max: nat)
    ensures
        parse_number(Seq::empty(), max) == Err::<nat, IntError>(IntError::Empty),
        parse_number(seq![c], max) == if !('0' <= c && c <= '9') {
            Err(IntError::InvalidDigit)
        } else if c as u32 - 48 > max {
            Err(IntError::PosOverflow)
        } else {
            Ok((c as u32 - 48) as nat)
        },
{
    let s = seq![c];
    assert(s.drop_last() =~= Seq::empty());
    assert(scan_digits(s.drop_last(), max) == Ok::<nat, IntError>(0));
}

/// What cannot be read stays so, whatever follows, for the first reason.
pub proof fn bad_numbers_stay_bad(s: Seq<char>, c: char, max: nat)
    requires
        s.len() > 0,
        parse_number(s, max) is Err,
        s != seq!['+'],
        s != seq!['-'],
    ensures
        parse_number(s.push(c), max) == parse_number(s, max),
{
    assert(s.push(c).drop_last() =~= s);
    if s.len() == 1 {
        assert(s =~= seq![s[0]]);
    }
    if s[0] == '+' {
        assert(s.push(c).skip(1) =~= s.skip(1).push(c));
        assert(s.push(c).skip(1).drop_last() =~= s.skip(1));
    }
}

/// Blanks, tabs and line ends are white space; no other printing character of
/// ASCII is.
pub proof fn ascii_white_space(c: char)
    requires
        c as u32 <= 127,
    ensures
        is_space(c) == (c as u32 == 32 || 9 <= c as u32 <= 13),
{
}

/// All of a text is white space.
pub open spec fn is_blank(s: Seq<char>) -> bool {
    forall|i: int| 0 <= i < s.len() ==> is_space(#[trigger] s[i])
}

/// A text without white space.
pub open spec fn is_word(s: Seq<char>) -> bool {
    s.len() > 0 && forall|i: int| 0 <= i < s.len() ==> !is_space(#[trigger] s[i])
}

proof fn lemma_skip_blank(s: Seq<char>, from: int, to: int)
    requires
        0 <= from <= to <= s.len(),
        forall|i: int| from <= i < to ==> is_space(#[trigger] s[i]),
        to < s.len() ==> !is_space(s[to]),
    ensures
        skip_spaces(s, from) == to,
    decreases to - from,
{
    if from < to {
        assert(is_space(s[from]));
        lemma_skip_blank(s, from + 1, to);
    }
}

proof fn lemma_trim_end_blank(s: Seq<char>, from: int, to: int)
    requires
        0 <= from <= to <= s.len(),
        forall|i: int| from <= i < to ==> is_space(#[trigger] s[i]),
        from > 0 ==> !is_space(s[from - 1]),
    ensures
        trim_end(s, to) == from,
    decreases to - from,
{
    if from < to {
        assert(is_space(s[to - 1]));
        lemma_trim_end_blank(s, from, to - 1);
    }
}

/// Trimming takes the white space at both ends away and nothing else.
pub proof fn trimming_takes_the_ends(before: Seq<char>, body: Seq<char>, after: Seq<char>)
    requires
        is_blank(before),
        is_blank(after),
        body.len() > 0 ==> !is_space(body[0]) && !is_space(body.last()),
    ensures
        trim(before + body + after) == body,
{
    let s = before + body + after;
    let (n, m) = (before.len() as int, (before.len() + body.len()) as int);
    assert(forall|i: int| 0 <= i < n ==> s[i] == before[i]);
    assert(forall|i: int| n <= i < m ==> s[i] == body[i - n]);
    assert(forall|i: int| m <= i < s.len() ==> s[i] == after[i - m]);
    if body.len() == 0 {
        assert forall|i: int| 0 <= i < s.len() implies is_space(#[trigger] s[i]) by {
            if i < n {
                assert(is_space(before[i]));
            } else {
                assert(is_space(after[i - m]));
            }
        }
        lemma_skip_blank(s, 0, s.len() as int);
        lemma_trim_end_blank(s, 0, s.len() as int);
        assert(body =~= Seq::empty());
    } else {
        assert forall|i: int| 0 <= i < n implies is_space(#[trigger] s[i]) by {
            assert(is_space(before[i]));
        }
        assert forall|i: int| m <= i < s.len() implies is_space(#[trigger] s[i]) by {
            assert(is_space(after[i - m]));
        }
        assert(s[n] == body[0] && s[m - 1] == body.last());
        lemma_skip_blank(s, 0, n);
        lemma_trim_end_blank(s, m, s.len() as int);
        assert(s.subrange(n, m) =~= body);
    }
}

proof fn lemma_skip_spaces(s: Seq<char>, from: int)
    requires
        0 <= from <= s.len(),
    ensures
        from <= skip_spaces(s, from) <= s.len(),
        forall|i: int| from <= i < skip_spaces(s, from) ==> is_space(#[trigger] s[i]),
        skip_spaces(s, from) < s.len() ==> !is_space(s[skip_spaces(s, from)]),
    decreases s.len() - from,
{
    if from < s.len() && is_space(s[from]) {
        lemma_skip_spaces(s, from + 1);
    }
}

proof fn lemma_word_end(s: Seq<char>, from: int)
    requires
        0 <= from <= s.len(),
    ensures
        from <= word_end(s, from) <= s.len(),
        forall|i: int| from <= i < word_end(s, from) ==> !is_space(#[trigger] s[i]),
        word_end(s, from) < s.len() ==> is_space(s[word_end(s, from)]),
    decreases s.len() - from,
{
    if from < s.len() && !is_space(s[from]) {
        lemma_word_end(s, from + 1);
    }
}

proof fn lemma_word_stops(s: Seq<char>, from: int, to: int)
    requires
        0 <= from <= to <= s.len(),
        forall|i: int| from <= i < to ==> !is_space(#[trigger] s[i]),
        to < s.len() ==> is_space(s[to]),
    ensures
        word_end(s, from) == to,
    decreases to - from,
{
    if from < to {
        assert(!is_space(s[from]));
        lemma_word_stops(s, from + 1, to);
    }
}

/// Words do not depend on what comes before.
proof fn lemma_words_shift(before: Seq<char>, s: Seq<char>, from: int)
    requires
        0 <= from <= s.len(),
    ensures
        words_from(before + s, before.len() + from) == words_from(s, from),
    decreases s.len() - from,
{
    let all = before + s;
    let n = before.len() as int;
    assert(forall|i: int| 0 <= i < s.len() ==> all[n + i] == s[i]);
    let start = skip_spaces(s, from);
    lemma_skip_spaces(s, from);
    assert forall|i: int| n + from <= i < n + start implies is_space(#[trigger] all[i]) by {
        assert(is_space(s[i - n]));
    }
    lemma_skip_blank(all, n + from, n + start);
    if start < s.len() {
        let end = word_end(s, start);
        lemma_word_end(s, start);
        assert(end > start) by {
            assert(!is_space(s[start]));
        }
        assert forall|i: int| n + start <= i < n + end implies !is_space(#[trigger] all[i]) by {
            assert(!is_space(s[i - n]));
        }
        lemma_word_stops(all, n + start, n + end);
        assert(all.subrange(n + start, n + end) =~= s.subrange(start, end));
        lemma_words_shift(before, s, end);
    }
}

proof fn lemma_words_joined(s: Seq<char>, gap: char, t: Seq<char>, from: int)
    requires
        is_space(gap),
        0 <= from <= s.len(),
    ensures
        words_from(s + seq![gap] + t, from) == words_from(s, from) + words_from(t, 0),
    decreases s.len() - from,
{
    let all = s + seq![gap] + t;
    let len = s.len() as int;
    assert(forall|i: int| 0 <= i < len ==> all[i] == s[i]);
    assert(all[len] == gap);
    let start = skip_spaces(s, from);
    lemma_skip_spaces(s, from);
    if start < len {
        let end = word_end(s, start);
        lemma_word_end(s, start);
        assert(end > start) by {
            assert(!is_space(s[start]));
        }
        assert forall|i: int| from <= i < start implies is_space(#[trigger] all[i]) by {
            assert(is_space(s[i]));
        }
        lemma_skip_blank(all, from, start);
        assert forall|i: int| start <= i < end implies !is_space(#[trigger] all[i]) by {
            assert(!is_space(s[i]));
        }
        lemma_word_stops(all, start, end);
        assert(all.subrange(start, end) =~= s.subrange(start, end));
        lemma_words_joined(s, gap, t, end);
        assert(words_from(all, from) == seq![all.subrange(start, end)] + words_from(all, end));
        assert(words_from(s, from) == seq![s.subrange(start, end)] + words_from(s, end));
        assert(seq![s.subrange(start, end)] + (words_from(s, end) + words_from(t, 0)) =~= seq![
            s.subrange(start, end),
        ] + words_from(s, end) + words_from(t, 0));
    } else {
        let next = skip_spaces(all, len + 1);
        lemma_skip_spaces(all, len + 1);
        assert forall|i: int| from <= i < next implies is_space(#[trigger] all[i]) by {
            if i < len {
                assert(is_space(s[i]));
            }
        }
        lemma_skip_blank(all, from, next);
        if next < all.len() {
            lemma_word_end(all, next);
            assert(word_end(all, next) > next) by {
                assert(!is_space(all[next]));
            }
        }
        assert(words_from(all, from) == words_from(all, len + 1));
        assert(s + seq![gap] + t =~= (s + seq![gap]) + t);
        lemma_words_shift(s + seq![gap], t, 0);
        assert(words_from(s, from) =~= Seq::empty());
        assert(Seq::<Seq<char>>::empty() + words_from(t, 0) =~= words_from(t, 0));
    }
}

/// The words of a text: white space parts them, what has no white space is one
/// word, and nothing has none.
pub proof fn white_space_parts_words(s: Seq<char>, gap: char, t: Seq<char>)
    requires
        is_space(gap),
    ensures
        words_from(s + seq![gap] + t, 0) == words_from(s, 0) + words_from(t, 0),
        is_word(s) ==> words_from(s, 0) == seq![s],
        words_from(Seq::empty(), 0) == Seq::<Seq<char>>::empty(),
{
    lemma_words_joined(s, gap, t, 0);
    if is_word(s) {
        lemma_skip_blank(s, 0, 0);
        lemma_word_stops(s, 0, s.len() as int);
        assert(s.subrange(0, s.len() as int) =~= s);
        assert(words_from(s, s.len() as int) =~= Seq::empty());
        assert(words_from(s, 0) == seq![s] + words_from(s, s.len() as int));
        assert(words_from(s, 0) =~= seq![s]);
    }
}

proof fn lemma_find_shift(before: Seq<char>, s: Seq<char>, c: char, from: int)
    requires
        0 <= from <= s.len(),
    ensures
        find(before + s, c, before.len() + from) == before.len() + find(s, c, from),
        from <= find(s, c, from) <= s.len(),
    decreases s.len() - from,
{
    if from < s.len() {
        assert((before + s)[before.len() + from] == s[from]);
        lemma_find_shift(before, s, c, from + 1);
    }
}

proof fn lemma_split_shift(before: Seq<char>, s: Seq<char>, c: char, from: int)
    requires
        0 <= from <= s.len(),
    ensures
        split_from(before + s, c, before.len() + from) == split_from(s, c, from),
    decreases s.len() - from,
{
    let all = before + s;
    let n = before.len() as int;
    lemma_find_shift(before, s, c, from);
    let end = find(s, c, from);
    assert(all.subrange(n + from, n + end) =~= s.subrange(from, end));
    assert(all.subrange(n + from, all.len() as int) =~= s.subrange(from, s.len() as int));
    if end < s.len() {
        lemma_split_shift(before, s, c, end + 1);
    }
}

/// The pieces of a text: the first one ends at the first separator, and the rest
/// are the pieces of what comes behind it.
pub proof fn separators_part_pieces(first: Seq<char>, c: char, rest: Seq<char>)
    requires
        forall|i: int| 0 <= i < first.len() ==> #[trigger] first[i] != c,
    ensures
        split(first, c) == seq![first],
        split(first + seq![c] + rest, c) == seq![first] + split(rest, c),
{
    let all = first + seq![c] + rest;
    let n = first.len() as int;
    lemma_find_at(first, c, 0, n);
    assert(first.subrange(0, n) =~= first);
    assert forall|i: int| 0 <= i < n implies all[i] != c by {
        assert(all[i] == first[i]);
    }
    assert(all[n] == c);
    lemma_find_at(all, c, 0, n);
    assert(all.subrange(0, n) =~= first);
    assert(all =~= (first + seq![c]) + rest);
    lemma_split_shift(first + seq![c], rest, c, 0);
}

/// The order of texts is that of a dictionary: a text comes before those that it
/// begins, and else the first character in which two differ decides.
pub proof fn texts_are_in_dictionary_order(a: Seq<char>, b: Seq<char>, n: int)
    requires
        0 <= n <= a.len(),
        n <= b.len(),
        a.take(n) == b.take(n),
        n < a.len() && n < b.len() ==> a[n] != b[n],
    ensures
        text_le(a, b) == (n == a.len() || (n < b.len() && a[n] < b[n])),
    decreases n,
{
    if n > 0 {
        assert(a[0] == a.take(n)[0] && b[0] == b.take(n)[0]);
        let (x, y) = (a.drop_first(), b.drop_first());
        assert(x.take(n - 1) =~= a.take(n).drop_first());
        assert(y.take(n - 1) =~= b.take(n).drop_first());
        texts_are_in_dictionary_order(x, y, n - 1);
    }
}

/// The characters that are white space, and texts that have nothing else or nothing
/// of it.
pub proof fn white_space_is_this(c: char, s: Seq<char>)
    ensures
        is_space(c) <==> {
            let v = c as u32;
            ||| 0x09 <= v <= 0x0d
            ||| v == 0x20
            ||| v == 0x85
            ||| v == 0xa0
            ||| v == 0x1680
            ||| 0x2000 <= v <= 0x200a
            ||| v == 0x2028
            ||| v == 0x2029
            ||| v == 0x202f
            ||| v == 0x205f
            ||| v == 0x3000
        },
        is_blank(s) <==> forall|i: int| 0 <= i < s.len() ==> is_space(#[trigger] s[i]),
        is_word(s) <==> s.len() > 0 && forall|i: int|
            0 <= i < s.len() ==> !is_space(#[trigger] s[i]),
        all_digits(s, 10) <==> forall|i: int|
            0 <= i < s.len() ==> '0' <= #[trigger] s[i] && s[i] <= '9',
{
    if forall|i: int| 0 <= i < s.len() ==> '0' <= #[trigger] s[i] && s[i] <= '9' {
        assert forall|i: int| 0 <= i < s.len() implies digit_value(#[trigger] s[i], 10) is Some by {}
    }
    if all_digits(s, 10) {
        assert forall|i: int| 0 <= i < s.len() implies '0' <= #[trigger] s[i] && s[i] <= '9' by {
            assert(digit_value(s[i], 10) is Some);
        }
    }
}

/// What is said about a text that is no number.
pub proof fn what_is_said_about_numbers()
    ensures
        IntError::Empty.text() == "cannot parse integer from empty string"@,
        IntError::InvalidDigit.text() == "invalid digit found in string"@,
        IntError::PosOverflow.text() == "number too large to fit in target type"@,
{
}

} // verus!
