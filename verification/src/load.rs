//! The text and binary file formats.

use crate::addr::{ip_text, lemma_ip_text_chars, IpAddr};
use crate::binary::{binary_round_trip, decoded, fits_binary, map_bits, packs};
use crate::entries::{entries_round_trip, map_entries};
use crate::net::{
    bits_to_network, ip_to_bits, net_read, net_text, net_text_round_trip, net_value, network_text,
    network_text_round_trip, no_host_bits, prefix_bits, read_net,
};
use crate::text::{
    all_digits, decimal, digit, digit_value, find, find_char, is_blank, is_space, is_word,
    lemma_decimal_reads, lemma_find, lemma_find_at, lemma_number_text, next_word, parse_number,
    push_chars, push_number, read_number, skip_spaces, to_chars, trim, trim_end, trim_range,
    trimming_takes_the_ends, white_space_parts_words, word_end, words_from,
};
use crate::trie::{entries_view, normal_form_is_unique, resolve, ASMap, ASNEntry, TrieNode};
use vstd::prelude::*;
use vstd::slice::slice_subrange;
use vstd::utf8::{
    decode_utf8, encode_utf8, encode_utf8_decode_utf8, encode_utf8_valid_utf8, valid_utf8,
};

verus! {

/// Failure loading a map.
#[derive(Debug, PartialEq, Eq)]
pub enum LoadError {
    /// The input cannot be read.
    Read { input_name: String },
    /// The input is both binary and text.
    Ambiguous { input_name: String },
    /// The input is neither binary nor text.
    Unrecognized { input_name: String, reason: String },
}

impl LoadError {
    /// What a reader is told about the error.
    pub fn message(&self) -> (message: String)
        ensures
            message@ == match self {
                LoadError::Read { input_name } => "Input file '"@ + input_name@
                    + "' cannot be read"@,
                LoadError::Ambiguous { input_name } => "Input file '"@ + input_name@
                    + "' is ambiguous."@,
                LoadError::Unrecognized { input_name, reason } => "Input file '"@ + input_name@
                    + "' is neither a valid binary asmap file nor valid text input ("@ + reason@
                    + ")"@,
            },
    {
        let mut message = "Input file '".to_owned();
        match self {
            LoadError::Read { input_name } => {
                message.append(input_name.as_str());
                message.append("' cannot be read");
            },
            LoadError::Ambiguous { input_name } => {
                message.append(input_name.as_str());
                message.append("' is ambiguous.");
            },
            LoadError::Unrecognized { input_name, reason } => {
                message.append(input_name.as_str());
                message.append("' is neither a valid binary asmap file nor valid text input (");
                message.append(reason.as_str());
                message.append(")");
            },
        }
        message
    }
}

/// Failure writing a map.
#[derive(Debug, PartialEq, Eq)]
pub struct SaveError {
    pub output_name: String,
}

impl SaveError {
    /// What a reader is told about the error.
    pub fn message(&self) -> (message: String)
        ensures
            message@ == "Output file '"@ + self.output_name@ + "' cannot be written to"@,
    {
        let mut message = "Output file '".to_owned();
        message.append(self.output_name.as_str());
        message.append("' cannot be written to");
        message
    }
}

/// `core::str::from_utf8`: bytes as text, unless they are not UTF-8.
#[verifier::external_body]
fn utf8_text(bytes: &[u8]) -> (text: Option<&str>)
    ensures
        match text {
            Some(t) => encode_utf8(t@) == bytes@,
            None => !valid_utf8(bytes@),
        },
{
    core::str::from_utf8(bytes).ok()
}

/// A token for an autonomous system: `AS` and digits.
pub open spec fn is_asn_token(s: Seq<char>) -> bool {
    s.len() > 2 && s[0] == 'A' && s[1] == 'S' && all_digits(s.skip(2), 10)
}

/// What a line says: nothing, an entry, or why it says neither. Everything
/// behind a `#` is a comment.
pub open spec fn parse_line(line: Seq<char>) -> Result<Option<(Seq<bool>, u32)>, Seq<char>> {
    let body = trim(line.take(find(line, '#', 0)));
    let words = words_from(body, 0);
    if body.len() == 0 {
        Ok(None)
    } else if words.len() != 2 {
        Err("unparseable line '"@ + body + "'"@)
    } else if !is_asn_token(words[1]) {
        Err("invalid ASN '"@ + words[1] + "'"@)
    } else {
        match (net_read(words[0]), parse_number(words[1].skip(2), u32::MAX as nat)) {
            (Err(_), _) => Err("invalid network '"@ + words[0] + "'"@),
            (_, Err(_)) => Err("invalid ASN '"@ + words[1] + "'"@),
            (Ok((ip, len)), Ok(asn)) => Ok(Some((prefix_bits(ip, len as nat), asn as u32))),
        }
    }
}

/// The entries of the lines of `s[from..]`, or why the first bad line is bad.
pub open spec fn text_entries_from(s: Seq<char>, from: int) -> Result<
    Seq<(Seq<bool>, u32)>,
    Seq<char>,
>
    decreases s.len() - from,
{
    let end = find(s, '\n', from);
    match parse_line(s.subrange(from, end)) {
        Err(e) => Err(e),
        Ok(entry) => {
            let first = match entry {
                Some(e) => seq![e],
                None => Seq::empty(),
            };
            if from < 0 || end < from || end >= s.len() {
                Ok(first)
            } else {
                match text_entries_from(s, end + 1) {
                    Err(e) => Err(e),
                    Ok(rest) => Ok(first + rest),
                }
            }
        },
    }
}

/// What a byte string is read as.
pub enum Loaded {
    Entries(Seq<(Seq<bool>, u32)>),
    Binary(TrieNode),
    Ambiguous,
    Unrecognized(Seq<char>),
}

/// The entries that a byte string holds as text.
pub open spec fn text_form(contents: Seq<u8>) -> Result<Seq<(Seq<bool>, u32)>, Seq<char>> {
    if valid_utf8(contents) {
        text_entries_from(decode_utf8(contents), 0)
    } else {
        Err("invalid UTF-8"@)
    }
}

/// What a byte string is read as. Text and binary are tried; only where nothing
/// at all was given may both succeed.
pub open spec fn loaded(contents: Seq<u8>) -> Loaded {
    match (text_form(contents), decoded(contents)) {
        (Ok(entries), None) => Loaded::Entries(entries),
        (Ok(entries), Some(_)) => if contents.len() == 0 {
            Loaded::Entries(entries)
        } else {
            Loaded::Ambiguous
        },
        (Err(_), Some(trie)) => Loaded::Binary(trie),
        (Err(reason), None) => Loaded::Unrecognized(reason),
    }
}

/// The byte string is read as this trie.
pub open spec fn reads_as(contents: Seq<u8>, trie: TrieNode) -> bool {
    match loaded(contents) {
        Loaded::Entries(entries) => forall|path: spec_fn(int) -> bool| #[trigger]
            trie.value(path, 0) == resolve(entries, 0, path),
        Loaded::Binary(other) => trie == other,
        _ => false,
    }
}

/// A message around a quoted text.
fn quoted(start: &str, chars: &[char]) -> (message: String)
    ensures
        message@ == start@ + chars@ + "'"@,
{
    let mut message = start.to_owned();
    push_chars(&mut message, chars);
    message.append("'");
    message
}

/// The model of an optional entry.
spec fn entry_view(entry: Option<ASNEntry>) -> Option<(Seq<bool>, u32)> {
    match entry {
        Some(e) => Some((e.0@, e.1)),
        None => None,
    }
}

/// Reads one line.
fn read_line(line: &[char]) -> (read: Result<Option<ASNEntry>, String>)
    ensures
        match read {
            Ok(entry) => parse_line(line@) == Ok::<_, Seq<char>>(entry_view(entry)),
            Err(message) => parse_line(line@) == Err::<Option<(Seq<bool>, u32)>, _>(message@),
        },
{
    let hash: usize = find_char(line, '#', 0);
    let uncommented = slice_subrange(line, 0, hash);
    assert(uncommented@ =~= line@.take(hash as int));
    let (start, end) = trim_range(uncommented);
    let body = slice_subrange(uncommented, start, end);
    if body.len() == 0 {
        return Ok(None);
    }
    let (a, b) = match next_word(body, 0) {
        None => {
            return Err(quoted("unparseable line '", body));
        },
        Some(r) => r,
    };
    let (c, d) = match next_word(body, b) {
        None => {
            assert(words_from(body@, 0).len() == 1);
            return Err(quoted("unparseable line '", body));
        },
        Some(r) => r,
    };
    if next_word(body, d).is_some() {
        assert(words_from(body@, 0).len() > 2);
        return Err(quoted("unparseable line '", body));
    }
    let prefix = slice_subrange(body, a, b);
    let token = slice_subrange(body, c, d);
    assert(words_from(body@, 0) =~= seq![prefix@, token@]);
    let valid: bool = token.len() > 2 && token[0] == 'A' && token[1] == 'S';
    if !valid {
        return Err(quoted("invalid ASN '", token));
    }
    let digits = slice_subrange(token, 2, token.len());
    assert(digits@ =~= token@.skip(2));
    let mut i: usize = 0;
    while i < digits.len()
        invariant
            i <= digits@.len(),
            digits@ == token@.skip(2),
            token@.len() > 2,
            parse_line(line@) == (if is_asn_token(token@) {
                match (net_read(prefix@), parse_number(token@.skip(2), u32::MAX as nat)) {
                    (Err(_), _) => Err("invalid network '"@ + prefix@ + "'"@),
                    (_, Err(_)) => Err("invalid ASN '"@ + token@ + "'"@),
                    (Ok((ip, len)), Ok(asn)) => Ok(
                        Some((prefix_bits(ip, len as nat), asn as u32)),
                    ),
                }
            } else {
                Err("invalid ASN '"@ + token@ + "'"@)
            }),
            forall|j: int| 0 <= j < i ==> digit_value(#[trigger] digits@[j], 10) is Some,
        decreases digits@.len() - i,
    {
        if digit(digits[i], 10).is_none() {
            assert(digit_value(digits@[i as int], 10) is None);
            return Err(quoted("invalid ASN '", token));
        }
        i = i + 1;
    }
    assert(is_asn_token(token@));
    let (ip, len) = match read_net(prefix) {
        Err(_) => {
            return Err(quoted("invalid network '", prefix));
        },
        Ok(net) => net,
    };
    match read_number(digits, u32::MAX as u64) {
        Err(_) => Err(quoted("invalid ASN '", token)),
        Ok(asn) => Ok(Some((ip_to_bits(ip, len), asn as u32))),
    }
}

/// Reads the lines of a text.
fn read_text(text: &str) -> (read: Result<Vec<ASNEntry>, String>)
    ensures
        match read {
            Ok(entries) => text_entries_from(text@, 0) == Ok::<_, Seq<char>>(
                entries_view(entries@),
            ),
            Err(message) => text_entries_from(text@, 0) == Err::<Seq<(Seq<bool>, u32)>, _>(
                message@,
            ),
        },
{
    let s = to_chars(text);
    let mut entries: Vec<ASNEntry> = Vec::new();
    assert(entries_view(entries@) =~= Seq::empty());
    let mut from: usize = 0;
    loop
        invariant
            s@ == text@,
            from <= s@.len(),
            text_entries_from(text@, 0) == match text_entries_from(s@, from as int) {
                Err(e) => Err(e),
                Ok(rest) => Ok(entries_view(entries@) + rest),
            },
        decreases s@.len() - from,
    {
        let end: usize = find_char(s.as_slice(), '\n', from);
        let ghost before = entries_view(entries@);
        match read_line(slice_subrange(s.as_slice(), from, end)) {
            Err(message) => {
                return Err(message);
            },
            Ok(Some(entry)) => {
                entries.push(entry);
                assert(entries_view(entries@) =~= before + seq![(entry.0@, entry.1)]);
            },
            Ok(None) => {
                assert(entries_view(entries@) =~= before + Seq::empty());
            },
        }
        if end == s.len() {
            assert(entries_view(entries@) + Seq::empty() =~= entries_view(entries@));
            return Ok(entries);
        }
        proof {
            if let Ok(rest) = text_entries_from(s@, end + 1) {
                if entries_view(entries@).len() == before.len() {
                    assert(before + (Seq::empty() + rest) =~= entries_view(entries@) + rest);
                } else {
                    let e = entries_view(entries@).last();
                    assert(before + (seq![e] + rest) =~= entries_view(entries@) + rest);
                }
            }
        }
        from = end + 1;
    }
}

/// Loads a map from the contents of a file, whichever form they are in.
pub fn load_file(contents: &[u8], input_name: &str) -> (map: Result<ASMap, LoadError>)
    requires
        8 * contents@.len() <= usize::MAX,
    ensures
        match map {
            Ok(m) => m.wf() && reads_as(contents@, m@),
            Err(LoadError::Read { .. }) => false,
            Err(LoadError::Ambiguous { input_name: name }) => loaded(contents@) is Ambiguous
                && name@ == input_name@,
            Err(LoadError::Unrecognized { input_name: name, reason }) => loaded(contents@)
                == Loaded::Unrecognized(reason@) && name@ == input_name@,
        },
{
    let binary = ASMap::from_binary(contents);
    let text: Result<Vec<ASNEntry>, String> = match utf8_text(contents) {
        Some(t) => {
            proof {
                encode_utf8_valid_utf8(t@);
                encode_utf8_decode_utf8(t@);
            }
            read_text(t)
        },
        None => Err("invalid UTF-8".to_owned()),
    };
    match (text, binary) {
        (Ok(entries), binary) => {
            if binary.is_some() && contents.len() > 0 {
                return Err(LoadError::Ambiguous { input_name: input_name.to_owned() });
            }
            let mut map = ASMap::new();
            let ghost listed = entries_view(entries@);
            let ghost empty = map;
            map.update_multi(entries);
            proof {
                assert forall|path: spec_fn(int) -> bool| #[trigger]
                    map@.value(path, 0) == resolve(listed, 0, path) by {
                    assert(empty.asn_of(path) == 0);
                    assert(map.asn_of(path) == resolve(listed, 0, path));
                }
            }
            Ok(map)
        },
        (Err(_), Some(map)) => Ok(map),
        (Err(reason), None) => Err(
            LoadError::Unrecognized { input_name: input_name.to_owned(), reason },
        ),
    }
}

/// The binary form of a map, as it goes into a file.
pub fn save_binary(state: &ASMap, fill: bool) -> (contents: Vec<u8>)
    requires
        fits_binary(state@, fill),
    ensures
        packs(contents@, map_bits(state@, fill)),
{
    state.to_binary(fill)
}

/// The line of an entry.
pub open spec fn line_text(entry: (Seq<bool>, u32)) -> Seq<char> {
    network_text(entry.0) + seq![' ', 'A', 'S'] + decimal(entry.1 as nat) + seq!['\n']
}

/// The lines of entries.
pub open spec fn entries_text(entries: Seq<(Seq<bool>, u32)>) -> Seq<char>
    decreases entries.len(),
{
    if entries.len() == 0 {
        Seq::empty()
    } else {
        line_text(entries[0]) + entries_text(entries.drop_first())
    }
}

/// Every prefix is one of addresses: no bit behind the last address bit is set.
pub open spec fn prefixes_fit(entries: Seq<(Seq<bool>, u32)>) -> bool {
    forall|i: int, j: int|
        0 <= i < entries.len() && 128 <= j < entries[i].0.len() ==> !#[trigger] entries[i].0[j]
}

/// Whether every prefix is one of addresses.
pub(crate) fn check_prefixes(entries: &Vec<ASNEntry>) -> (fit: bool)
    ensures
        fit == prefixes_fit(entries_view(entries@)),
{
    let ghost view = entries_view(entries@);
    let mut i: usize = 0;
    while i < entries.len()
        invariant
            i <= entries@.len(),
            view == entries_view(entries@),
            forall|x: int, y: int|
                0 <= x < i && 128 <= y < view[x].0.len() ==> !#[trigger] view[x].0[y],
        decreases entries@.len() - i,
    {
        let mut j: usize = 128;
        while j < entries[i].0.len()
            invariant
                i < entries@.len(),
                view == entries_view(entries@),
                128 <= j,
                forall|y: int| 128 <= y < j && y < view[i as int].0.len() ==> !#[trigger] view[i as int].0[y],
            decreases entries@[i as int].0@.len() - j,
        {
            if entries[i].0[j] {
                assert(view[i as int].0[j as int]);
                return false;
            }
            j = j + 1;
        }
        i = i + 1;
    }
    true
}

/// Writes entries as lines.
fn write_entries(entries: &Vec<ASNEntry>) -> (text: String)
    requires
        prefixes_fit(entries_view(entries@)),
    ensures
        text@ == entries_text(entries_view(entries@)),
{
    let ghost view = entries_view(entries@);
    let mut text = String::new();
    let mut i: usize = 0;
    assert(view.skip(0) =~= view);
    assert(text@ + entries_text(view) =~= entries_text(view));
    while i < entries.len()
        invariant
            i <= entries@.len(),
            view == entries_view(entries@),
            prefixes_fit(view),
            text@ + entries_text(view.skip(i as int)) == entries_text(view),
        decreases entries@.len() - i,
    {
        let ghost before = text@;
        let prefix = entries[i].0.as_slice();
        assert forall|j: int| 128 <= j < prefix@.len() implies !#[trigger] prefix@[j] by {
            assert(!view[i as int].0[j]);
        }
        let net = bits_to_network(prefix);
        text.append(net.as_str());
        text.push(' ');
        text.push('A');
        text.push('S');
        push_number(&mut text, entries[i].1 as u128, 10);
        text.push('\n');
        assert(text@ =~= before + line_text(view[i as int]));
        assert(view.skip(i as int).drop_first() =~= view.skip(i + 1));
        assert(view.skip(i as int)[0] == view[i as int]);
        assert(before + (line_text(view[i as int]) + entries_text(view.skip(i + 1))) =~= text@
            + entries_text(view.skip(i + 1)));
        i = i + 1;
    }
    assert(text@ =~= entries_text(view));
    text
}

/// The text form of a map, one line per entry.
pub fn save_text(state: &ASMap, fill: bool, overlapping: bool) -> (text: String)
    requires
        prefixes_fit(map_entries(state@, fill, overlapping)),
    ensures
        text@ == entries_text(map_entries(state@, fill, overlapping)),
{
    let entries = state.to_entries(fill, overlapping);
    write_entries(&entries)
}

/// The text form of a map, unless a prefix is longer than an address.
pub fn try_save_text(state: &ASMap, fill: bool, overlapping: bool) -> (text: Option<String>)
    ensures
        match text {
            Some(t) => {
                &&& prefixes_fit(map_entries(state@, fill, overlapping))
                &&& t@ == entries_text(map_entries(state@, fill, overlapping))
            },
            None => !prefixes_fit(map_entries(state@, fill, overlapping)),
        },
{
    let entries = state.to_entries(fill, overlapping);
    if check_prefixes(&entries) {
        Some(write_entries(&entries))
    } else {
        None
    }
}

/// Not white space, not a comment, not a line end.
spec fn is_plain(c: char) -> bool {
    !is_space(c) && c != '#'
}

/// The characters of a network's text.
proof fn lemma_network_text_plain(bits: Seq<bool>)
    ensures
        network_text(bits).len() > 0,
        forall|i: int| 0 <= i < network_text(bits).len() ==> is_plain(#[trigger] network_text(bits)[i]),
{
    let v = net_value(bits);
    let (ip, len) = if bits.len() >= 96 && v / 0x1_0000_0000 == 0xffff {
        (IpAddr::V4((v % 0x1_0000_0000) as u32), (bits.len() - 96) as nat)
    } else {
        (IpAddr::V6(v as u128), bits.len())
    };
    let t = net_text(ip, len);
    let n = ip_text(ip).len() as int;
    lemma_ip_text_chars(ip);
    lemma_number_text(len, 10);
    assert(t == network_text(bits));
    assert forall|i: int| 0 <= i < t.len() implies is_plain(#[trigger] t[i]) by {
        if i < n {
            assert(t[i] == ip_text(ip)[i]);
        } else if i > n {
            assert(t[i] == decimal(len)[i - n - 1]);
        }
    }
}

proof fn lemma_skip_spaces_none(s: Seq<char>, from: int)
    requires
        0 <= from < s.len(),
        !is_space(s[from]),
    ensures
        skip_spaces(s, from) == from,
{
}

proof fn lemma_word_end_at(s: Seq<char>, from: int, at: int)
    requires
        0 <= from <= at <= s.len(),
        at < s.len() ==> is_space(s[at]),
        forall|i: int| from <= i < at ==> !is_space(#[trigger] s[i]),
    ensures
        word_end(s, from) == at,
    decreases at - from,
{
    if from < at {
        assert(!is_space(s[from]));
        lemma_word_end_at(s, from + 1, at);
    }
}

/// A written line reads back.
proof fn lemma_line_reads(entry: (Seq<bool>, u32))
    requires
        entry.0.len() <= 128,
    ensures
        ({
            let body = network_text(entry.0) + seq![' ', 'A', 'S'] + decimal(entry.1 as nat);
            &&& parse_line(body) == Ok::<_, Seq<char>>(Some(entry))
            &&& forall|i: int| 0 <= i < body.len() ==> #[trigger] body[i] != '\n'
        }),
{
    let net = network_text(entry.0);
    let digits = decimal(entry.1 as nat);
    let body = net + seq![' ', 'A', 'S'] + digits;
    let n = net.len() as int;
    lemma_network_text_plain(entry.0);
    lemma_number_text(entry.1 as nat, 10);
    lemma_decimal_reads(entry.1 as nat, u32::MAX as nat);
    network_text_round_trip(entry.0);
    assert forall|i: int| 0 <= i < body.len() && i != n implies is_plain(#[trigger] body[i]) by {
        if i < n {
            assert(body[i] == net[i]);
        } else if i >= n + 3 {
            assert(body[i] == digits[i - n - 3]);
        }
    }
    assert(body[n] == ' ');
    assert forall|i: int| 0 <= i < body.len() implies #[trigger] body[i] != '\n' by {
        if i != n {
            assert(is_plain(body[i]));
        }
    }
    assert forall|i: int| 0 <= i < body.len() implies body[i] != '#' by {
        if i != n {
            assert(is_plain(body[i]));
        }
    }
    lemma_find_at(body, '#', 0, body.len() as int);
    assert(body.take(body.len() as int) =~= body);
    assert(is_plain(body[0]) && is_plain(body[body.len() - 1]));
    lemma_skip_spaces_none(body, 0);
    assert(trim_end(body, body.len() as int) == body.len());
    assert(body.subrange(0, body.len() as int) =~= body);
    assert(trim(body) == body);
    lemma_word_end_at(body, 0, n);
    assert(is_plain(body[n + 1]));
    lemma_skip_spaces_none(body, n + 1);
    assert(skip_spaces(body, n) == n + 1);
    lemma_word_end_at(body, n + 1, body.len() as int);
    let len = body.len() as int;
    assert(words_from(body, len) == Seq::<Seq<char>>::empty());
    assert(words_from(body, n) == seq![body.subrange(n + 1, len)] + words_from(body, len));
    assert(words_from(body, 0) == seq![body.subrange(0, n)] + words_from(body, n));
    let token = body.subrange(n + 1, len);
    assert(body.subrange(0, n) =~= net);
    assert(token =~= seq!['A', 'S'] + digits);
    assert(token.skip(2) =~= digits);
    assert(words_from(body, 0) =~= seq![net, token]);
}

/// Written lines read back.
proof fn lemma_lines_read(s: Seq<char>, from: int, entries: Seq<(Seq<bool>, u32)>)
    requires
        0 <= from <= s.len(),
        s.skip(from) == entries_text(entries),
        forall|i: int| 0 <= i < entries.len() ==> (#[trigger] entries[i]).0.len() <= 128,
    ensures
        text_entries_from(s, from) == Ok::<_, Seq<char>>(entries),
    decreases entries.len(),
{
    if entries.len() == 0 {
        assert(from == s.len());
        let line = s.subrange(from, from);
        assert(find(s, '\n', from) == from);
        assert(line =~= Seq::empty());
        assert(line.take(find(line, '#', 0)) =~= Seq::empty());
        assert(trim(Seq::<char>::empty()) =~= Seq::empty());
        assert(entries =~= Seq::empty());
    } else {
        let entry = entries[0];
        let body = network_text(entry.0) + seq![' ', 'A', 'S'] + decimal(entry.1 as nat);
        let rest = entries.drop_first();
        let end = from + body.len();
        let t = entries_text(entries);
        lemma_line_reads(entry);
        assert(line_text(entry) =~= body + seq!['\n']);
        assert(t =~= body + seq!['\n'] + entries_text(rest));
        assert(t.len() == s.len() - from);
        assert forall|i: int| from <= i < end implies s[i] != '\n' by {
            assert(s.skip(from)[i - from] == s[i]);
            assert(t[i - from] == body[i - from]);
        }
        assert(s.skip(from)[body.len() as int] == s[end]);
        assert(s[end] == '\n');
        lemma_find_at(s, '\n', from, end);
        assert(s.subrange(from, end) =~= body) by {
            assert forall|i: int| 0 <= i < body.len() implies s.subrange(from, end)[i] == body[i] by {
                assert(s.skip(from)[i] == t[i]);
            }
        }
        assert(s.skip(end + 1) =~= entries_text(rest)) by {
            assert forall|i: int| 0 <= i < s.skip(end + 1).len() implies s.skip(end + 1)[i]
                == entries_text(rest)[i] by {
                assert(s.skip(from)[body.len() + 1 + i] == t[body.len() + 1 + i]);
            }
        }
        assert forall|i: int| 0 <= i < rest.len() implies (#[trigger] rest[i]).0.len() <= 128 by {
            assert(rest[i] == entries[i + 1]);
        }
        lemma_lines_read(s, end + 1, rest);
        assert(seq![entry] + rest =~= entries);
    }
}

/// A written file loads as the entries that were written, unless it happens to
/// be a binary map as well.
pub proof fn saved_text_loads_as_its_entries(entries: Seq<(Seq<bool>, u32)>)
    requires
        forall|i: int| 0 <= i < entries.len() ==> (#[trigger] entries[i]).0.len() <= 128,
        ({
            let contents = encode_utf8(entries_text(entries));
            contents.len() == 0 || decoded(contents) is None
        }),
    ensures
        loaded(encode_utf8(entries_text(entries))) == Loaded::Entries(entries),
{
    let s = entries_text(entries);
    encode_utf8_valid_utf8(s);
    encode_utf8_decode_utf8(s);
    assert(s.skip(0) =~= s);
    lemma_lines_read(s, 0, entries);
}

/// Saving a map as text and loading it gives the map back, in either form of
/// the list, unless the file happens to be a binary map as well.
pub proof fn text_file_round_trip(trie: TrieNode, overlapping: bool, read: TrieNode)
    requires
        trie.canonical(),
        read.canonical(),
        forall|i: int|
            0 <= i < map_entries(trie, false, overlapping).len() ==> (#[trigger] map_entries(
                trie,
                false,
                overlapping,
            )[i]).0.len() <= 128,
        ({
            let contents = encode_utf8(entries_text(map_entries(trie, false, overlapping)));
            &&& contents.len() == 0 || decoded(contents) is None
            &&& reads_as(contents, read)
        }),
    ensures
        read == trie,
{
    saved_text_loads_as_its_entries(map_entries(trie, false, overlapping));
    entries_round_trip(trie, overlapping, read);
}

/// Saving a map in binary and loading it gives the map back, unless the file
/// happens to be text as well and is not empty.
pub proof fn binary_file_round_trip(trie: TrieNode, contents: Seq<u8>, read: TrieNode)
    requires
        trie.canonical(),
        read.canonical(),
        fits_binary(trie, false),
        packs(contents, map_bits(trie, false)),
        contents.len() == 0 || text_form(contents) is Err,
        reads_as(contents, read),
    ensures
        read == trie,
{
    binary_round_trip(trie, contents);
    if contents.len() == 0 {
        let s = Seq::<char>::empty();
        assert(entries_text(Seq::empty()) =~= s);
        saved_text_loads_as_its_entries(Seq::empty());
        assert(encode_utf8(s) =~= contents);
        assert(loaded(contents) == Loaded::Entries(Seq::empty()));
        assert forall|path: spec_fn(int) -> bool| #[trigger] read.value(path, 0) == trie.value(
            path,
            0,
        ) by {}
        normal_form_is_unique(read, trie);
    }
}

/// A comment changes nothing: a line means what it means without the `#` and
/// whatever comes behind it.
pub proof fn comments_change_nothing(line: Seq<char>, comment: Seq<char>)
    requires
        forall|i: int| 0 <= i < line.len() ==> #[trigger] line[i] != '#',
    ensures
        parse_line(line + seq!['#'] + comment) == parse_line(line),
{
    let all = line + seq!['#'] + comment;
    let n = line.len() as int;
    lemma_find_at(line, '#', 0, n);
    assert(forall|i: int| 0 <= i < n ==> all[i] == line[i]);
    assert(all[n] == '#');
    lemma_find_at(all, '#', 0, n);
    assert(all.take(n) =~= line.take(n));
}

/// A line of white space says nothing, and white space around a line changes
/// nothing.
pub proof fn blanks_change_nothing(before: Seq<char>, line: Seq<char>, after: Seq<char>)
    requires
        is_blank(before),
        is_blank(after),
        forall|i: int| 0 <= i < line.len() ==> #[trigger] line[i] != '#',
        line.len() > 0 ==> !is_space(line[0]) && !is_space(line.last()),
    ensures
        parse_line(before + line + after) == parse_line(line),
        line.len() == 0 ==> parse_line(line) == Ok::<Option<(Seq<bool>, u32)>, Seq<char>>(None),
{
    let all = before + line + after;
    let none = Seq::<char>::empty();
    assert forall|i: int| 0 <= i < all.len() implies #[trigger] all[i] != '#' by {
        if i < before.len() {
            assert(all[i] == before[i] && is_space(before[i]));
        } else if i < before.len() + line.len() {
            assert(all[i] == line[i - before.len()]);
        } else {
            let j = i - before.len() - line.len();
            assert(all[i] == after[j] && is_space(after[j]));
        }
    }
    lemma_find_at(line, '#', 0, line.len() as int);
    lemma_find_at(all, '#', 0, all.len() as int);
    assert(line.take(line.len() as int) =~= line);
    assert(all.take(all.len() as int) =~= all);
    trimming_takes_the_ends(before, line, after);
    trimming_takes_the_ends(none, line, none);
    assert(none + line + none =~= line);
}

/// Words with nothing but white space between them.
proof fn lemma_gap_words(a: Seq<char>, gap: Seq<char>, b: Seq<char>)
    requires
        gap.len() > 0,
        is_blank(gap),
    ensures
        words_from(a + gap + b, 0) == words_from(a, 0) + words_from(b, 0),
    decreases gap.len(),
{
    let less = gap.drop_last();
    let c = gap.last();
    assert(is_space(gap[gap.len() - 1]));
    assert forall|i: int| 0 <= i < less.len() implies is_space(#[trigger] less[i]) by {
        assert(is_space(gap[i]));
    }
    white_space_parts_words(a + less, c, b);
    assert(a + gap + b =~= a + less + seq![c] + b);
    if less.len() > 0 {
        lemma_gap_words(a, less, Seq::empty());
        assert(a + less + Seq::<char>::empty() =~= a + less);
        white_space_parts_words(a, c, b);
        assert(words_from(a, 0) + Seq::<Seq<char>>::empty() =~= words_from(a, 0));
    } else {
        assert(a + less =~= a);
    }
}

/// What a line of two words says: `AS` and decimal digits behind a network make
/// an entry for the network and the number; every other second word, a network
/// that is none and a number that is too large are refused by name.
pub proof fn two_words_are_an_entry(
    before: Seq<char>,
    net: Seq<char>,
    gap: Seq<char>,
    token: Seq<char>,
    after: Seq<char>,
)
    requires
        is_blank(before),
        is_blank(gap),
        is_blank(after),
        gap.len() > 0,
        is_word(net),
        is_word(token),
        forall|i: int| 0 <= i < net.len() ==> #[trigger] net[i] != '#',
        forall|i: int| 0 <= i < token.len() ==> #[trigger] token[i] != '#',
    ensures
        ({
            let said = parse_line(before + net + gap + token + after);
            let bad_asn = Err::<Option<(Seq<bool>, u32)>, _>("invalid ASN '"@ + token + "'"@);
            let bad_net = Err::<Option<(Seq<bool>, u32)>, _>("invalid network '"@ + net + "'"@);
            let digits = token.skip(2);
            if token.len() > 2 && token[0] == 'A' && token[1] == 'S' && forall|i: int|
                2 <= i < token.len() ==> '0' <= #[trigger] token[i] && token[i] <= '9' {
                match net_read(net) {
                    Err(_) => said == bad_net,
                    Ok((ip, len)) => match parse_number(digits, 0xffff_ffff) {
                        Ok(asn) => said == Ok::<_, Seq<char>>(
                            Some((prefix_bits(ip, len as nat), asn as u32)),
                        ),
                        Err(_) => said == bad_asn,
                    },
                }
            } else {
                said == bad_asn
            }
        }),
{
    let line = net + gap + token;
    assert(before + net + gap + token + after =~= before + line + after);
    assert forall|i: int| 0 <= i < line.len() implies #[trigger] line[i] != '#' by {
        if i < net.len() {
            assert(line[i] == net[i]);
        } else if i < net.len() + gap.len() {
            assert(line[i] == gap[i - net.len()] && is_space(gap[i - net.len()]));
        } else {
            assert(line[i] == token[i - net.len() - gap.len()]);
        }
    }
    assert(line[0] == net[0] && line.last() == token[token.len() - 1]);
    blanks_change_nothing(before, line, after);
    lemma_find_at(line, '#', 0, line.len() as int);
    assert(line.take(line.len() as int) =~= line);
    let none = Seq::<char>::empty();
    trimming_takes_the_ends(none, line, none);
    assert(none + line + none =~= line);
    lemma_gap_words(net, gap, token);
    white_space_parts_words(net, ' ', none);
    white_space_parts_words(token, ' ', none);
    assert(words_from(line, 0) =~= seq![net, token]);
    let digits = token.skip(2);
    if token.len() > 2 && token[0] == 'A' && token[1] == 'S' {
        if forall|i: int| 2 <= i < token.len() ==> '0' <= #[trigger] token[i] && token[i] <= '9' {
            assert forall|i: int| 0 <= i < digits.len() implies digit_value(
                #[trigger] digits[i],
                10,
            ) is Some by {
                assert(digits[i] == token[i + 2]);
            }
            assert(is_asn_token(token));
        } else {
            let i = choose|i: int|
                2 <= i < token.len() && !('0' <= #[trigger] token[i] && token[i] <= '9');
            assert(digits[i - 2] == token[i]);
            assert(digit_value(digits[i - 2], 10) is None);
        }
    }
}

/// A network and a number, written one behind the other with white space around
/// them and any comment behind, are read as that entry.
pub proof fn commented_lines_are_read(
    before: Seq<char>,
    ip: IpAddr,
    len: u8,
    gap: Seq<char>,
    asn: u32,
    after: Seq<char>,
    comment: Seq<char>,
)
    requires
        is_blank(before),
        is_blank(gap),
        is_blank(after),
        gap.len() > 0,
        len <= ip.width(),
        no_host_bits(ip, len as nat),
    ensures
        parse_line(
            before + net_text(ip, len as nat) + gap + (seq!['A', 'S'] + decimal(asn as nat)) + after
                + seq!['#'] + comment,
        ) == Ok::<_, Seq<char>>(Some((prefix_bits(ip, len as nat), asn))),
{
    let net = net_text(ip, len as nat);
    let token = seq!['A', 'S'] + decimal(asn as nat);
    let line = before + net + gap + token + after;
    let n = ip_text(ip).len() as int;
    lemma_ip_text_chars(ip);
    lemma_number_text(len as nat, 10);
    lemma_number_text(asn as nat, 10);
    lemma_decimal_reads(asn as nat, u32::MAX as nat);
    net_text_round_trip(ip, len);
    assert forall|i: int| 0 <= i < net.len() implies is_plain(#[trigger] net[i]) by {
        if i < n {
            assert(net[i] == ip_text(ip)[i]);
        } else if i > n {
            assert(net[i] == decimal(len as nat)[i - n - 1]);
        }
    }
    assert forall|i: int| 0 <= i < token.len() implies is_plain(#[trigger] token[i]) by {
        if i >= 2 {
            assert(token[i] == decimal(asn as nat)[i - 2]);
        }
    }
    assert forall|i: int| 2 <= i < token.len() implies '0' <= #[trigger] token[i] && token[i]
        <= '9' by {
        assert(token[i] == decimal(asn as nat)[i - 2]);
        assert(digit_value(decimal(asn as nat)[i - 2], 10) is Some);
    }
    assert(token.skip(2) =~= decimal(asn as nat));
    two_words_are_an_entry(before, net, gap, token, after);
    assert forall|i: int| 0 <= i < line.len() implies #[trigger] line[i] != '#' by {
        let (a, b, c, d) = (
            before.len() as int,
            net.len() as int,
            gap.len() as int,
            token.len() as int,
        );
        if i < a {
            assert(line[i] == before[i] && is_space(before[i]));
        } else if i < a + b {
            assert(line[i] == net[i - a] && is_plain(net[i - a]));
        } else if i < a + b + c {
            assert(line[i] == gap[i - a - b] && is_space(gap[i - a - b]));
        } else if i < a + b + c + d {
            assert(line[i] == token[i - a - b - c] && is_plain(token[i - a - b - c]));
        } else {
            let j = i - a - b - c - d;
            assert(line[i] == after[j] && is_space(after[j]));
        }
    }
    comments_change_nothing(line, comment);
}

/// A line with one word, or with more than two, is refused.
pub proof fn other_lines_are_refused(line: Seq<char>)
    requires
        forall|i: int| 0 <= i < line.len() ==> #[trigger] line[i] != '#',
        line.len() > 0,
        !is_space(line[0]),
        !is_space(line.last()),
        words_from(line, 0).len() != 2,
    ensures
        parse_line(line) == Err::<Option<(Seq<bool>, u32)>, _>(
            "unparseable line '"@ + line + "'"@,
        ),
{
    let none = Seq::<char>::empty();
    lemma_find_at(line, '#', 0, line.len() as int);
    assert(line.take(line.len() as int) =~= line);
    trimming_takes_the_ends(none, line, none);
    assert(none + line + none =~= line);
}

proof fn lemma_lines_shift(before: Seq<char>, s: Seq<char>, from: int)
    requires
        0 <= from <= s.len(),
    ensures
        text_entries_from(before + s, before.len() + from) == text_entries_from(s, from),
    decreases s.len() - from,
{
    let all = before + s;
    let n = before.len() as int;
    lemma_find(s, '\n', from);
    let end = find(s, '\n', from);
    assert forall|i: int| n + from <= i < n + end implies all[i] != '\n' by {
        assert(all[i] == s[i - n]);
    }
    if end < s.len() {
        assert(all[n + end] == s[end]);
    }
    lemma_find_at(all, '\n', n + from, n + end);
    assert(all.subrange(n + from, n + end) =~= s.subrange(from, end));
    if end < s.len() {
        lemma_lines_shift(before, s, end + 1);
    }
}

/// A text is read line by line: the first line says nothing, an entry or an error,
/// and unless it is an error the entries of the lines behind it follow.
pub proof fn texts_are_read_line_by_line(line: Seq<char>, rest: Seq<char>)
    requires
        forall|i: int| 0 <= i < line.len() ==> #[trigger] line[i] != '\n',
    ensures
        text_entries_from(line, 0) == match parse_line(line) {
            Err(e) => Err(e),
            Ok(None) => Ok(Seq::empty()),
            Ok(Some(entry)) => Ok(seq![entry]),
        },
        text_entries_from(line + seq!['\n'] + rest, 0) == match (
            parse_line(line),
            text_entries_from(rest, 0),
        ) {
            (Err(e), _) => Err(e),
            (Ok(_), Err(e)) => Err(e),
            (Ok(None), Ok(entries)) => Ok(entries),
            (Ok(Some(entry)), Ok(entries)) => Ok(seq![entry] + entries),
        },
{
    let all = line + seq!['\n'] + rest;
    let n = line.len() as int;
    lemma_find_at(line, '\n', 0, n);
    assert(line.subrange(0, n) =~= line);
    assert(forall|i: int| 0 <= i < n ==> all[i] == line[i]);
    assert(all[n] == '\n');
    lemma_find_at(all, '\n', 0, n);
    assert(all.subrange(0, n) =~= line);
    assert(all =~= (line + seq!['\n']) + rest);
    lemma_lines_shift(line + seq!['\n'], rest, 0);
    if let Ok(entries) = text_entries_from(rest, 0) {
        assert(Seq::<(Seq<bool>, u32)>::empty() + entries =~= entries);
    }
}

/// What loading a text gives: the entries of its lines, unless the same bytes are
/// a binary map, which only nothing at all may be. Bytes that are neither are
/// refused for what the text lacks.
pub proof fn loading_tries_both_forms(text: Seq<char>, trie: TrieNode)
    ensures
        ({
            let contents = encode_utf8(text);
            match (text_entries_from(text, 0), decoded(contents)) {
                (Ok(entries), None) => loaded(contents) == Loaded::Entries(entries),
                (Ok(entries), Some(_)) => if contents.len() == 0 {
                    loaded(contents) == Loaded::Entries(entries)
                } else {
                    loaded(contents) is Ambiguous
                },
                (Err(_), Some(map)) => loaded(contents) == Loaded::Binary(map),
                (Err(reason), None) => loaded(contents) == Loaded::Unrecognized(reason),
            }
        }),
        ({
            let contents = encode_utf8(text);
            reads_as(contents, trie) ==> match loaded(contents) {
                Loaded::Entries(entries) => forall|path: spec_fn(int) -> bool| #[trigger]
                    trie.value(path, 0) == resolve(entries, 0, path),
                Loaded::Binary(map) => trie == map,
                _ => false,
            }
        }),
{
    encode_utf8_valid_utf8(text);
    encode_utf8_decode_utf8(text);
}

/// Bytes that are no text are a binary map or nothing.
pub proof fn bytes_that_are_no_text(contents: Seq<u8>)
    requires
        !valid_utf8(contents),
    ensures
        loaded(contents) == match decoded(contents) {
            Some(map) => Loaded::Binary(map),
            None => Loaded::Unrecognized("invalid UTF-8"@),
        },
{
}

/// A map is written as text with a line for each entry: the network, a blank, `AS`
/// and the number.
pub proof fn texts_have_a_line_for_each_entry(
    a: Seq<(Seq<bool>, u32)>,
    b: Seq<(Seq<bool>, u32)>,
    bits: Seq<bool>,
    asn: u32,
)
    ensures
        entries_text(Seq::empty()) == Seq::<char>::empty(),
        entries_text(seq![(bits, asn)]) == network_text(bits) + seq![' ', 'A', 'S'] + decimal(
            asn as nat,
        ) + seq!['\n'],
        entries_text(a + b) == entries_text(a) + entries_text(b),
    decreases a.len(),
{
    let one = seq![(bits, asn)];
    assert(one.drop_first() =~= Seq::empty());
    assert(entries_text(one.drop_first()) =~= Seq::empty());
    assert(entries_text(one) =~= line_text((bits, asn)));
    if a.len() == 0 {
        assert(a + b =~= b);
        assert(entries_text(a) + entries_text(b) =~= entries_text(b));
    } else {
        texts_have_a_line_for_each_entry(a.drop_first(), b, bits, asn);
        assert((a + b).drop_first() =~= a.drop_first() + b);
        assert((a + b)[0] == a[0]);
        assert(entries_text(a + b) =~= entries_text(a) + entries_text(b));
    }
}

/// A list can be written exactly if no prefix has a one behind the last address bit.
pub proof fn lists_of_addresses_can_be_written(entries: Seq<(Seq<bool>, u32)>)
    ensures
        prefixes_fit(entries) <==> forall|i: int, j: int|
            0 <= i < entries.len() && 128 <= j < entries[i].0.len() ==> !#[trigger] entries[i].0[j],
{
}

} // verus!
