//! Command lines: what is asked for, with what settings.

use crate::outside::{
    ed25519_id, ed25519_peer_id, multiaddr_text, parse_multiaddr, peer_id_text, sha256,
    sha256_digest,
};
use crate::prefix::lemma_number_bound;
use crate::text::{
    decimal, parse_number, push_number, read_number, same_text, split,
    split_text, to_chars, to_text,
};
use crate::votes::{copy_texts, texts};
use vstd::prelude::*;
use vstd::slice::slice_subrange;
use vstd::utf8::encode_utf8;

verus! {

/// What can be asked for with settings that take values.
#[derive(Debug, Clone, Copy, PartialEq, Eq, Structural)]
pub enum Command {
    Serve,
    Collect,
    Replay,
    Import,
    Download,
    FindBottleneck,
}

/// A setting that takes a value.
#[derive(Debug, Clone, Copy, PartialEq, Eq, Structural)]
pub enum Setting {
    Threshold,
    Epoch,
    EpochSecs,
    RefreshSecs,
    Topic,
    Bootstrap,
    Relay,
    Output,
    Collectors,
    Report,
    LocalPeerId,
    SenderPrefix,
    Dir,
}

/// The setting that a flag stands for.
pub open spec fn setting_of(command: Command, flag: Seq<char>) -> Option<Setting> {
    let votes = command is Serve || command is Collect || command is Replay;
    let gossips = command is Serve || command is Collect;
    if votes && (flag == "-t"@ || flag == "--threshold"@) {
        Some(Setting::Threshold)
    } else if (votes || command is Import) && (flag == "-e"@ || flag == "--epoch"@) {
        Some(Setting::Epoch)
    } else if gossips && flag == "--epoch-secs"@ {
        Some(Setting::EpochSecs)
    } else if command is Collect && flag == "--refresh-secs"@ {
        Some(Setting::RefreshSecs)
    } else if votes && flag == "--topic"@ {
        Some(Setting::Topic)
    } else if gossips && flag == "--bootstrap"@ {
        Some(Setting::Bootstrap)
    } else if gossips && (flag == "--relay"@ || flag == "--bootstrap-relay"@) {
        Some(Setting::Relay)
    } else if !(command is Serve) && flag == "-o"@ {
        Some(Setting::Output)
    } else if (command is Collect || command is Replay || command is Import) && flag
        == "--output"@ {
        Some(Setting::Output)
    } else if (command is Download || command is FindBottleneck) && flag == "--out"@ {
        Some(Setting::Output)
    } else if (command is Collect || command is Download) && (flag == "-n"@ || flag
        == "--ripe_collector_number"@) {
        Some(Setting::Collectors)
    } else if command is Collect && flag == "--collectors"@ {
        Some(Setting::Collectors)
    } else if command is Replay && flag == "--report"@ {
        Some(Setting::Report)
    } else if command is Replay && flag == "--local-peer-id"@ {
        Some(Setting::LocalPeerId)
    } else if command is Import && flag == "--sender-prefix"@ {
        Some(Setting::SenderPrefix)
    } else if command is FindBottleneck && (flag == "-d"@ || flag == "--dir"@) {
        Some(Setting::Dir)
    } else {
        None
    }
}

fn find_setting(command: Command, flag: &str) -> (setting: Option<Setting>)
    ensures
        setting == setting_of(command, flag@),
{
    let gossips: bool = matches!(command, Command::Serve | Command::Collect);
    let votes: bool = gossips || matches!(command, Command::Replay);
    if votes && (same_text(flag, "-t") || same_text(flag, "--threshold")) {
        Some(Setting::Threshold)
    } else if (votes || matches!(command, Command::Import)) && (same_text(flag, "-e") || same_text(
        flag,
        "--epoch",
    )) {
        Some(Setting::Epoch)
    } else if gossips && same_text(flag, "--epoch-secs") {
        Some(Setting::EpochSecs)
    } else if matches!(command, Command::Collect) && same_text(flag, "--refresh-secs") {
        Some(Setting::RefreshSecs)
    } else if votes && same_text(flag, "--topic") {
        Some(Setting::Topic)
    } else if gossips && same_text(flag, "--bootstrap") {
        Some(Setting::Bootstrap)
    } else if gossips && (same_text(flag, "--relay") || same_text(flag, "--bootstrap-relay")) {
        Some(Setting::Relay)
    } else if !matches!(command, Command::Serve) && same_text(flag, "-o") {
        Some(Setting::Output)
    } else if matches!(command, Command::Collect | Command::Replay | Command::Import)
        && same_text(flag, "--output") {
        Some(Setting::Output)
    } else if matches!(command, Command::Download | Command::FindBottleneck) && same_text(
        flag,
        "--out",
    ) {
        Some(Setting::Output)
    } else if matches!(command, Command::Collect | Command::Download) && (same_text(flag, "-n")
        || same_text(flag, "--ripe_collector_number")) {
        Some(Setting::Collectors)
    } else if matches!(command, Command::Collect) && same_text(flag, "--collectors") {
        Some(Setting::Collectors)
    } else if matches!(command, Command::Replay) && same_text(flag, "--report") {
        Some(Setting::Report)
    } else if matches!(command, Command::Replay) && same_text(flag, "--local-peer-id") {
        Some(Setting::LocalPeerId)
    } else if matches!(command, Command::Import) && same_text(flag, "--sender-prefix") {
        Some(Setting::SenderPrefix)
    } else if matches!(command, Command::FindBottleneck) && (same_text(flag, "-d") || same_text(
        flag,
        "--dir",
    )) {
        Some(Setting::Dir)
    } else {
        None
    }
}

/// Why a command line cannot be read.
#[derive(Debug, PartialEq, Eq)]
pub enum ArgError {
    /// A setting is given without a value.
    MissingValue(String),
    /// The value is not one for the setting.
    Invalid(Setting, String),
    /// A built-in address cannot be read.
    DefaultBootstrap(String),
    /// Something else is missing.
    Requires(&'static str),
}

/// The same, texts taken as sequences.
pub enum ArgFault {
    MissingValue(Seq<char>),
    Invalid(Setting, Seq<char>),
    DefaultBootstrap(Seq<char>),
    Requires(Seq<char>),
}

impl View for ArgError {
    type V = ArgFault;

    open spec fn view(&self) -> ArgFault {
        match self {
            ArgError::MissingValue(flag) => ArgFault::MissingValue(flag@),
            ArgError::Invalid(setting, value) => ArgFault::Invalid(*setting, value@),
            ArgError::DefaultBootstrap(address) => ArgFault::DefaultBootstrap(address@),
            ArgError::Requires(what) => ArgFault::Requires(what@),
        }
    }
}

impl Setting {
    /// What a wrong value is called.
    pub open spec fn complaint(self) -> Seq<char> {
        match self {
            Setting::Threshold => "invalid threshold '"@,
            Setting::Epoch => "invalid epoch '"@,
            Setting::EpochSecs => "invalid epoch-secs '"@,
            Setting::RefreshSecs => "invalid refresh-secs '"@,
            Setting::Bootstrap => "invalid multiaddr '"@,
            Setting::Relay => "invalid multiaddr '"@,
            Setting::Collectors => "invalid collector list '"@,
            _ => "invalid value '"@,
        }
    }

    fn complaint_text(self) -> (text: &'static str)
        ensures
            text@ == self.complaint(),
    {
        match self {
            Setting::Threshold => "invalid threshold '",
            Setting::Epoch => "invalid epoch '",
            Setting::EpochSecs => "invalid epoch-secs '",
            Setting::RefreshSecs => "invalid refresh-secs '",
            Setting::Bootstrap => "invalid multiaddr '",
            Setting::Relay => "invalid multiaddr '",
            Setting::Collectors => "invalid collector list '",
            _ => "invalid value '",
        }
    }
}

impl ArgError {
    /// What a reader is told about the error.
    pub open spec fn text(self) -> Seq<char> {
        match self {
            ArgError::MissingValue(flag) => "missing value for "@ + flag@,
            ArgError::Invalid(setting, value) => setting.complaint() + value@ + "'"@,
            ArgError::DefaultBootstrap(address) => "invalid default bootstrap multiaddr '"@
                + address@ + "'"@,
            ArgError::Requires(what) => what@,
        }
    }

    /// What a reader is told about the error.
    pub fn message(&self) -> (message: String)
        ensures
            message@ == self.text(),
    {
        match self {
            ArgError::MissingValue(flag) => {
                let mut message = "missing value for ".to_owned();
                message.append(flag.as_str());
                message
            },
            ArgError::Invalid(setting, value) => {
                let mut message = setting.complaint_text().to_owned();
                message.append(value.as_str());
                message.append("'");
                message
            },
            ArgError::DefaultBootstrap(address) => {
                let mut message = "invalid default bootstrap multiaddr '".to_owned();
                message.append(address.as_str());
                message.append("'");
                message
            },
            ArgError::Requires(what) => {
                let what: &str = what;
                what.to_owned()
            },
        }
    }
}

/// The items of a list: what stands between commas, if anything.
pub open spec fn items(pieces: Seq<Seq<char>>) -> Seq<Seq<char>>
    decreases pieces.len(),
{
    if pieces.len() == 0 {
        Seq::empty()
    } else {
        let rest = items(pieces.drop_last());
        if pieces.last().len() == 0 {
            rest
        } else {
            rest.push(pieces.last())
        }
    }
}

fn list_items(value: &str) -> (list: Vec<String>)
    ensures
        texts(list@) == items(split(value@, ',')),
{
    let pieces = split_text(value, ',');
    let ghost all = split(value@, ',');
    let mut list: Vec<String> = Vec::new();
    let mut i: usize = 0;
    assert(all.take(0) =~= Seq::empty());
    assert(texts(list@) =~= Seq::empty());
    while i < pieces.len()
        invariant
            i <= pieces@.len() == all.len(),
            all == texts(pieces@),
            texts(list@) == items(all.take(i as int)),
        decreases pieces@.len() - i,
    {
        let ghost before = texts(list@);
        assert(all.take(i + 1).drop_last() =~= all.take(i as int));
        assert(all.take(i + 1).last() == pieces@[i as int]@);
        let chars = to_chars(pieces[i].as_str());
        if chars.len() > 0 {
            list.push(pieces[i].clone());
            assert(texts(list@) =~= before.push(pieces@[i as int]@));
        }
        i = i + 1;
    }
    assert(all.take(i as int) =~= all);
    list
}

/// What items were read as, or the first item that could not be read.
pub open spec fn all_read(list: Seq<Seq<char>>, read: Seq<Option<Seq<char>>>) -> Result<
    Seq<Seq<char>>,
    Seq<char>,
>
    decreases list.len(),
{
    if list.len() == 0 {
        Ok(Seq::empty())
    } else {
        match all_read(list.drop_last(), read.drop_last()) {
            Err(item) => Err(item),
            Ok(rest) => match read.last() {
                Some(text) => Ok(rest.push(text)),
                None => Err(list.last()),
            },
        }
    }
}

proof fn lemma_all_read_error(list: Seq<Seq<char>>, read: Seq<Option<Seq<char>>>, n: int)
    requires
        0 <= n <= list.len() == read.len(),
        all_read(list.take(n), read.take(n)) is Err,
    ensures
        all_read(list, read) == all_read(list.take(n), read.take(n)),
    decreases list.len(),
{
    if n == list.len() {
        assert(list.take(n) =~= list);
        assert(read.take(n) =~= read);
    } else {
        assert(list.take(n) =~= list.drop_last().take(n));
        assert(read.take(n) =~= read.drop_last().take(n));
        lemma_all_read_error(list.drop_last(), read.drop_last(), n);
    }
}

/// What items were read as, texts taken as sequences.
pub open spec fn readings(read: Seq<Option<String>>) -> Seq<Option<Seq<char>>> {
    read.map_values(|t: Option<String>| maybe_text(t))
}

/// What items were read as, or the first item that could not be read.
pub fn require_all(list: &Vec<String>, read: Vec<Option<String>>) -> (out: Result<
    Vec<String>,
    String,
>)
    requires
        read@.len() == list@.len(),
    ensures
        match out {
            Ok(l) => all_read(texts(list@), readings(read@)) == Ok::<_, Seq<char>>(texts(l@)),
            Err(item) => all_read(texts(list@), readings(read@)) == Err::<Seq<Seq<char>>, _>(
                item@,
            ),
        },
{
    let ghost all = texts(list@);
    let ghost got = readings(read@);
    let mut out: Vec<String> = Vec::new();
    let mut i: usize = 0;
    assert(all.take(0) =~= Seq::empty());
    assert(texts(out@) =~= Seq::empty());
    while i < list.len()
        invariant
            i <= list@.len() == read@.len(),
            all == texts(list@),
            got == readings(read@),
            all_read(all.take(i as int), got.take(i as int)) == Ok::<_, Seq<char>>(texts(out@)),
        decreases list@.len() - i,
    {
        let ghost before = texts(out@);
        assert(all.take(i + 1).drop_last() =~= all.take(i as int));
        assert(got.take(i + 1).drop_last() =~= got.take(i as int));
        assert(all.take(i + 1).last() == list@[i as int]@);
        assert(got.take(i + 1).last() == maybe_text(read@[i as int]));
        match &read[i] {
            Some(text) => {
                out.push(text.clone());
                assert(texts(out@) =~= before.push(text@));
            },
            None => {
                proof {
                    lemma_all_read_error(all, got, i + 1);
                }
                return Err(list[i].clone());
            },
        }
        i = i + 1;
    }
    assert(all.take(i as int) =~= all);
    assert(got.take(i as int) =~= got);
    Ok(out)
}

/// The addresses that a list writes, or the first item that writes none.
pub open spec fn multiaddrs(list: Seq<Seq<char>>) -> Result<Seq<Seq<char>>, Seq<char>> {
    all_read(list, list.map_values(|t: Seq<char>| multiaddr_text(t)))
}

/// Reads addresses.
pub fn read_multiaddrs(list: &Vec<String>) -> (out: Result<Vec<String>, String>)
    ensures
        match out {
            Ok(l) => multiaddrs(texts(list@)) == Ok::<_, Seq<char>>(texts(l@)),
            Err(item) => multiaddrs(texts(list@)) == Err::<Seq<Seq<char>>, _>(item@),
        },
{
    let ghost all = texts(list@);
    let mut read: Vec<Option<String>> = Vec::new();
    let mut i: usize = 0;
    while i < list.len()
        invariant
            i <= list@.len(),
            all == texts(list@),
            read@.len() == i,
            forall|j: int|
                0 <= j < i ==> maybe_text(#[trigger] read@[j]) == multiaddr_text(all[j]),
        decreases list@.len() - i,
    {
        assert(all[i as int] == list@[i as int]@);
        read.push(parse_multiaddr(list[i].as_str()));
        i = i + 1;
    }
    assert(readings(read@) =~= all.map_values(|t: Seq<char>| multiaddr_text(t)));
    require_all(list, read)
}

/// Reads a list of addresses.
pub fn parse_multiaddr_list(value: &str) -> (list: Result<Vec<String>, String>)
    ensures
        match list {
            Ok(l) => multiaddrs(items(split(value@, ','))) == Ok::<_, Seq<char>>(texts(l@)),
            Err(item) => multiaddrs(items(split(value@, ','))) == Err::<Seq<Seq<char>>, _>(item@),
        },
{
    read_multiaddrs(&list_items(value))
}

/// The numbers that a list writes, if it writes numbers only.
pub open spec fn numbers(list: Seq<Seq<char>>) -> Option<Seq<u32>>
    decreases list.len(),
{
    if list.len() == 0 {
        Some(Seq::empty())
    } else {
        match (numbers(list.drop_last()), parse_number(list.last(), u32::MAX as nat)) {
            (Some(rest), Ok(n)) => Some(rest.push(n as u32)),
            _ => None,
        }
    }
}

proof fn lemma_numbers_none(list: Seq<Seq<char>>, n: int)
    requires
        0 <= n <= list.len(),
        numbers(list.take(n)) is None,
    ensures
        numbers(list) is None,
    decreases list.len(),
{
    if n == list.len() {
        assert(list.take(n) =~= list);
    } else {
        assert(list.take(n) =~= list.drop_last().take(n));
        lemma_numbers_none(list.drop_last(), n);
    }
}

/// Reads a list of collectors.
pub fn parse_collector_list(value: &str) -> (list: Option<Vec<u32>>)
    ensures
        match list {
            Some(l) => numbers(items(split(value@, ','))) == Some(l@),
            None => numbers(items(split(value@, ','))) is None,
        },
{
    let pieces = list_items(value);
    let ghost all = items(split(value@, ','));
    let mut list: Vec<u32> = Vec::new();
    let mut i: usize = 0;
    assert(all.take(0) =~= Seq::empty());
    while i < pieces.len()
        invariant
            i <= pieces@.len() == all.len(),
            all == items(split(value@, ',')),
            all == texts(pieces@),
            numbers(all.take(i as int)) == Some(list@),
        decreases pieces@.len() - i,
    {
        assert(all.take(i + 1).drop_last() =~= all.take(i as int));
        assert(all.take(i + 1).last() == pieces@[i as int]@);
        match read_whole(pieces[i].as_str(), u32::MAX as u64) {
            Some(n) => {
                list.push(n as u32);
            },
            None => {
                proof {
                    lemma_numbers_none(all, i + 1);
                }
                return None;
            },
        }
        i = i + 1;
    }
    assert(all.take(i as int) =~= all);
    Some(list)
}

/// The number that a text writes.
pub open spec fn whole_number(s: Seq<char>, max: nat) -> Option<nat> {
    match parse_number(s, max) {
        Ok(n) => Some(n),
        Err(_) => None,
    }
}

fn read_whole(text: &str, max: u64) -> (n: Option<u64>)
    ensures
        match n {
            Some(v) => whole_number(text@, max as nat) == Some(v as nat) && v <= max,
            None => whole_number(text@, max as nat) is None,
        },
{
    let chars = to_chars(text);
    match read_number(chars.as_slice(), max) {
        Ok(v) => {
            proof {
                lemma_number_bound(text@, max as nat);
            }
            Some(v)
        },
        Err(_) => None,
    }
}

/// The settings of a command line.
#[derive(Debug, PartialEq, Eq)]
pub struct Options {
    pub threshold: Option<usize>,
    pub epoch: Option<u64>,
    pub epoch_secs: Option<u64>,
    pub refresh_secs: Option<u64>,
    pub topic: Option<String>,
    pub bootstrap: Vec<String>,
    pub relays: Vec<String>,
    pub output: Option<String>,
    pub collectors: Vec<u32>,
    pub report: Option<String>,
    pub local_peer_id: Option<String>,
    pub sender_prefix: Option<String>,
    pub dir: Option<String>,
    /// What is not a setting.
    pub positionals: Vec<String>,
}

/// The settings, texts taken as sequences.
#[verifier::ext_equal]
pub struct OptionsView {
    pub threshold: Option<usize>,
    pub epoch: Option<u64>,
    pub epoch_secs: Option<u64>,
    pub refresh_secs: Option<u64>,
    pub topic: Option<Seq<char>>,
    pub bootstrap: Seq<Seq<char>>,
    pub relays: Seq<Seq<char>>,
    pub output: Option<Seq<char>>,
    pub collectors: Seq<u32>,
    pub report: Option<Seq<char>>,
    pub local_peer_id: Option<Seq<char>>,
    pub sender_prefix: Option<Seq<char>>,
    pub dir: Option<Seq<char>>,
    pub positionals: Seq<Seq<char>>,
}

/// A text that may be missing.
pub open spec fn maybe_text(text: Option<String>) -> Option<Seq<char>> {
    match text {
        Some(t) => Some(t@),
        None => None,
    }
}

impl View for Options {
    type V = OptionsView;

    open spec fn view(&self) -> OptionsView {
        OptionsView {
            threshold: self.threshold,
            epoch: self.epoch,
            epoch_secs: self.epoch_secs,
            refresh_secs: self.refresh_secs,
            topic: maybe_text(self.topic),
            bootstrap: texts(self.bootstrap@),
            relays: texts(self.relays@),
            output: maybe_text(self.output),
            collectors: self.collectors@,
            report: maybe_text(self.report),
            local_peer_id: maybe_text(self.local_peer_id),
            sender_prefix: maybe_text(self.sender_prefix),
            dir: maybe_text(self.dir),
            positionals: texts(self.positionals@),
        }
    }
}

/// Nothing set.
pub open spec fn no_options() -> OptionsView {
    OptionsView {
        threshold: None,
        epoch: None,
        epoch_secs: None,
        refresh_secs: None,
        topic: None,
        bootstrap: Seq::empty(),
        relays: Seq::empty(),
        output: None,
        collectors: Seq::empty(),
        report: None,
        local_peer_id: None,
        sender_prefix: None,
        dir: None,
        positionals: Seq::empty(),
    }
}

/// Settings with one more. Lists grow, everything else is replaced.
pub open spec fn with_setting(o: OptionsView, setting: Setting, value: Seq<char>) -> Result<
    OptionsView,
    ArgFault,
> {
    match setting {
        Setting::Threshold => match whole_number(value, usize::MAX as nat) {
            Some(n) => Ok(OptionsView { threshold: Some(n as usize), ..o }),
            None => Err(ArgFault::Invalid(setting, value)),
        },
        Setting::Epoch => match whole_number(value, u64::MAX as nat) {
            Some(n) => Ok(OptionsView { epoch: Some(n as u64), ..o }),
            None => Err(ArgFault::Invalid(setting, value)),
        },
        Setting::EpochSecs => match whole_number(value, u64::MAX as nat) {
            Some(n) => Ok(OptionsView { epoch_secs: Some(n as u64), ..o }),
            None => Err(ArgFault::Invalid(setting, value)),
        },
        Setting::RefreshSecs => match whole_number(value, u64::MAX as nat) {
            Some(n) => Ok(OptionsView { refresh_secs: Some(n as u64), ..o }),
            None => Err(ArgFault::Invalid(setting, value)),
        },
        Setting::Topic => Ok(OptionsView { topic: Some(value), ..o }),
        Setting::Bootstrap => match multiaddrs(items(split(value, ','))) {
            Ok(list) => Ok(OptionsView { bootstrap: o.bootstrap + list, ..o }),
            Err(item) => Err(ArgFault::Invalid(setting, item)),
        },
        Setting::Relay => match multiaddrs(items(split(value, ','))) {
            Ok(list) => Ok(OptionsView { relays: o.relays + list, ..o }),
            Err(item) => Err(ArgFault::Invalid(setting, item)),
        },
        Setting::Output => Ok(OptionsView { output: Some(value), ..o }),
        Setting::Collectors => match numbers(items(split(value, ','))) {
            Some(list) => Ok(OptionsView { collectors: o.collectors + list, ..o }),
            None => Err(ArgFault::Invalid(setting, value)),
        },
        Setting::Report => Ok(OptionsView { report: Some(value), ..o }),
        Setting::LocalPeerId => Ok(OptionsView { local_peer_id: Some(value), ..o }),
        Setting::SenderPrefix => Ok(OptionsView { sender_prefix: Some(value), ..o }),
        Setting::Dir => Ok(OptionsView { dir: Some(value), ..o }),
    }
}

/// The settings that the arguments from `i` on add to `o`.
pub open spec fn options_from(
    command: Command,
    o: OptionsView,
    args: Seq<Seq<char>>,
    i: int,
) -> Result<OptionsView, ArgFault>
    decreases args.len() - i,
{
    if i >= args.len() {
        Ok(o)
    } else {
        match setting_of(command, args[i]) {
            None => options_from(
                command,
                OptionsView { positionals: o.positionals.push(args[i]), ..o },
                args,
                i + 1,
            ),
            Some(setting) => if i + 1 >= args.len() {
                Err(ArgFault::MissingValue(args[i]))
            } else {
                match with_setting(o, setting, args[i + 1]) {
                    Err(e) => Err(e),
                    Ok(next) => options_from(command, next, args, i + 2),
                }
            },
        }
    }
}

/// The settings of a command line.
pub open spec fn options(command: Command, args: Seq<Seq<char>>) -> Result<OptionsView, ArgFault> {
    options_from(command, no_options(), args, 0)
}

fn append_texts(list: &mut Vec<String>, more: Vec<String>)
    ensures
        texts(final(list)@) == texts(old(list)@) + texts(more@),
{
    let ghost start = texts(list@);
    let ghost all = texts(more@);
    let mut i: usize = 0;
    assert(start + all.take(0) =~= start);
    while i < more.len()
        invariant
            i <= more@.len(),
            all == texts(more@),
            texts(list@) == start + all.take(i as int),
        decreases more@.len() - i,
    {
        let ghost before = texts(list@);
        list.push(more[i].clone());
        assert(texts(list@) =~= before.push(more@[i as int]@));
        i = i + 1;
        assert(texts(list@) =~= start + all.take(i as int));
    }
    assert(all.take(i as int) =~= all);
}

impl Options {
    fn new() -> (o: Options)
        ensures
            o@ == no_options(),
    {
        let o = Options {
            threshold: None,
            epoch: None,
            epoch_secs: None,
            refresh_secs: None,
            topic: None,
            bootstrap: Vec::new(),
            relays: Vec::new(),
            output: None,
            collectors: Vec::new(),
            report: None,
            local_peer_id: None,
            sender_prefix: None,
            dir: None,
            positionals: Vec::new(),
        };
        assert(o@ =~= no_options());
        o
    }

    fn set(&mut self, setting: Setting, value: &str) -> (set: Result<(), ArgError>)
        ensures
            match set {
                Ok(_) => with_setting(old(self)@, setting, value@) == Ok::<_, ArgFault>(
                    final(self)@,
                ),
                Err(e) => with_setting(old(self)@, setting, value@) == Err::<OptionsView, _>(e@),
            },
    {
        let ghost before = self@;
        match setting {
            Setting::Threshold => match read_whole(value, usize::MAX as u64) {
                Some(n) => {
                    self.threshold = Some(n as usize);
                },
                None => {
                    return Err(ArgError::Invalid(setting, value.to_owned()));
                },
            },
            Setting::Epoch => match read_whole(value, u64::MAX) {
                Some(n) => {
                    self.epoch = Some(n);
                },
                None => {
                    return Err(ArgError::Invalid(setting, value.to_owned()));
                },
            },
            Setting::EpochSecs => match read_whole(value, u64::MAX) {
                Some(n) => {
                    self.epoch_secs = Some(n);
                },
                None => {
                    return Err(ArgError::Invalid(setting, value.to_owned()));
                },
            },
            Setting::RefreshSecs => match read_whole(value, u64::MAX) {
                Some(n) => {
                    self.refresh_secs = Some(n);
                },
                None => {
                    return Err(ArgError::Invalid(setting, value.to_owned()));
                },
            },
            Setting::Topic => {
                self.topic = Some(value.to_owned());
            },
            Setting::Bootstrap => match parse_multiaddr_list(value) {
                Ok(list) => {
                    append_texts(&mut self.bootstrap, list);
                },
                Err(item) => {
                    return Err(ArgError::Invalid(setting, item));
                },
            },
            Setting::Relay => match parse_multiaddr_list(value) {
                Ok(list) => {
                    append_texts(&mut self.relays, list);
                },
                Err(item) => {
                    return Err(ArgError::Invalid(setting, item));
                },
            },
            Setting::Output => {
                self.output = Some(value.to_owned());
            },
            Setting::Collectors => match parse_collector_list(value) {
                Some(list) => {
                    let mut more = list;
                    self.collectors.append(&mut more);
                },
                None => {
                    return Err(ArgError::Invalid(setting, value.to_owned()));
                },
            },
            Setting::Report => {
                self.report = Some(value.to_owned());
            },
            Setting::LocalPeerId => {
                self.local_peer_id = Some(value.to_owned());
            },
            Setting::SenderPrefix => {
                self.sender_prefix = Some(value.to_owned());
            },
            Setting::Dir => {
                self.dir = Some(value.to_owned());
            },
        }
        Ok(())
    }

    /// Reads the settings of a command line.
    pub fn parse(command: Command, args: &Vec<String>) -> (read: Result<Options, ArgError>)
        ensures
            match read {
                Ok(o) => options(command, texts(args@)) == Ok::<_, ArgFault>(o@),
                Err(e) => options(command, texts(args@)) == Err::<OptionsView, _>(e@),
            },
    {
        let ghost all = texts(args@);
        let mut o = Options::new();
        let mut i: usize = 0;
        while i < args.len()
            invariant
                i <= args@.len(),
                all == texts(args@),
                options(command, all) == options_from(command, o@, all, i as int),
            decreases args@.len() - i,
        {
            let ghost before = o@;
            assert(all[i as int] == args@[i as int]@);
            match find_setting(command, args[i].as_str()) {
                None => {
                    o.positionals.push(args[i].clone());
                    assert(o@ =~= (OptionsView {
                        positionals: before.positionals.push(all[i as int]),
                        ..before
                    }));
                    i = i + 1;
                },
                Some(setting) => {
                    if args.len() - i < 2 {
                        return Err(ArgError::MissingValue(args[i].clone()));
                    }
                    assert(all[i + 1] == args@[i + 1]@);
                    match o.set(setting, args[i + 1].as_str()) {
                        Ok(_) => {},
                        Err(e) => {
                            return Err(e);
                        },
                    }
                    i = i + 2;
                },
            }
        }
        Ok(o)
    }
}

/// What is set, or else a default.
pub open spec fn text_or(text: Option<Seq<char>>, default: Seq<char>) -> Seq<char> {
    match text {
        Some(t) => t,
        None => default,
    }
}

fn or_text(text: Option<String>, default: &str) -> (out: String)
    ensures
        out@ == text_or(maybe_text(text), default@),
{
    match text {
        Some(t) => t,
        None => default.to_owned(),
    }
}

fn or_number(n: Option<u64>, default: u64) -> (out: u64)
    ensures
        out == match n {
            Some(v) => v,
            None => default,
        },
{
    match n {
        Some(v) => v,
        None => default,
    }
}

fn or_threshold(n: Option<usize>) -> (out: usize)
    ensures
        out == match n {
            Some(v) => v,
            None => 3,
        },
{
    match n {
        Some(v) => v,
        None => 3,
    }
}

/// The text at a position, if there is one.
pub open spec fn text_at(list: Seq<Seq<char>>, i: int) -> Option<Seq<char>> {
    if i < list.len() {
        Some(list[i])
    } else {
        None
    }
}

fn nth_text(list: &Vec<String>, i: usize) -> (text: Option<String>)
    ensures
        maybe_text(text) == text_at(texts(list@), i as int),
{
    if i < list.len() {
        Some(list[i].clone())
    } else {
        None
    }
}

/// How a node that shares a map runs.
#[derive(Debug, PartialEq, Eq)]
pub struct ServeConfig {
    pub input: Option<String>,
    pub output: Option<String>,
    pub threshold: usize,
    pub epoch: u64,
    pub epoch_secs: u64,
    pub topic: String,
    pub bootstrap_peers: Vec<String>,
    pub relay_bootstraps: Vec<String>,
}

impl ServeConfig {
    /// The configuration is the one that settings describe.
    pub open spec fn follows(self, o: OptionsView) -> bool {
        &&& maybe_text(self.input) == text_at(o.positionals, 0)
        &&& maybe_text(self.output) == text_at(o.positionals, 1)
        &&& self.threshold == o.threshold.unwrap_or(3)
        &&& self.epoch == o.epoch.unwrap_or(1)
        &&& self.epoch_secs == o.epoch_secs.unwrap_or(60)
        &&& self.topic@ == text_or(o.topic, "bitcoin-asmap-quorum"@)
        &&& texts(self.bootstrap_peers@) == o.bootstrap
        &&& texts(self.relay_bootstraps@) == o.relays
    }
}

/// Reads how a node that shares a map runs.
pub fn parse_serve_args(args: &Vec<String>) -> (config: Result<ServeConfig, ArgError>)
    ensures
        match (config, options(Command::Serve, texts(args@))) {
            (Ok(c), Ok(o)) => c.follows(o),
            (Err(e), Err(f)) => e@ == f,
            _ => false,
        },
{
    match Options::parse(Command::Serve, args) {
        Err(e) => Err(e),
        Ok(o) => Ok(
            ServeConfig {
                input: nth_text(&o.positionals, 0),
                output: nth_text(&o.positionals, 1),
                threshold: or_threshold(o.threshold),
                epoch: or_number(o.epoch, 1),
                epoch_secs: or_number(o.epoch_secs, 60),
                topic: or_text(o.topic, "bitcoin-asmap-quorum"),
                bootstrap_peers: o.bootstrap,
                relay_bootstraps: o.relays,
            },
        ),
    }
}

/// How a node that collects routes runs.
#[derive(Debug, PartialEq, Eq)]
pub struct CollectConfig {
    pub output: Option<String>,
    pub threshold: usize,
    pub epoch: u64,
    pub epoch_secs: u64,
    pub refresh_secs: u64,
    pub topic: String,
    pub collectors: Vec<u32>,
    pub bootstrap_peers: Vec<String>,
    pub relay_bootstraps: Vec<String>,
}

impl CollectConfig {
    /// The configuration is the one that settings describe.
    pub open spec fn follows(self, o: OptionsView) -> bool {
        &&& maybe_text(self.output) == o.output
        &&& self.threshold == o.threshold.unwrap_or(3)
        &&& self.epoch == o.epoch.unwrap_or(1)
        &&& self.epoch_secs == o.epoch_secs.unwrap_or(60)
        &&& self.refresh_secs == o.refresh_secs.unwrap_or(1800)
        &&& self.topic@ == text_or(o.topic, "bitcoin-ris-collection"@)
        &&& self.collectors@ == o.collectors
        &&& texts(self.bootstrap_peers@) == o.bootstrap
        &&& texts(self.relay_bootstraps@) == o.relays
    }
}

/// Reads how a node that collects routes runs.
pub fn parse_collect_args(args: &Vec<String>) -> (config: Result<CollectConfig, ArgError>)
    ensures
        match (config, options(Command::Collect, texts(args@))) {
            (Ok(c), Ok(o)) => c.follows(o),
            (Err(e), Err(f)) => e@ == f,
            _ => false,
        },
{
    match Options::parse(Command::Collect, args) {
        Err(e) => Err(e),
        Ok(o) => Ok(
            CollectConfig {
                output: o.output,
                threshold: or_threshold(o.threshold),
                epoch: or_number(o.epoch, 1),
                epoch_secs: or_number(o.epoch_secs, 60),
                refresh_secs: or_number(o.refresh_secs, 1800),
                topic: or_text(o.topic, "bitcoin-ris-collection"),
                collectors: o.collectors,
                bootstrap_peers: o.bootstrap,
                relay_bootstraps: o.relays,
            },
        ),
    }
}

/// How claims are replayed.
#[derive(Debug, PartialEq, Eq)]
pub struct ReplayConfig {
    pub claims: String,
    pub output: String,
    pub report: String,
    pub threshold: usize,
    pub epoch: Option<u64>,
    pub topic: String,
    pub local_peer_id: String,
}

impl ReplayConfig {
    /// The configuration is the one that settings describe.
    pub open spec fn follows(self, o: OptionsView) -> bool {
        &&& Some(self.claims@) == text_at(o.positionals, 0)
        &&& self.output@ == text_or(o.output, "asmap.map"@)
        &&& self.report@ == text_or(o.report, "asmap.json"@)
        &&& self.threshold == o.threshold.unwrap_or(3)
        &&& self.epoch == o.epoch
        &&& self.topic@ == text_or(o.topic, "bitcoin-asmap-quorum"@)
        &&& self.local_peer_id@ == text_or(o.local_peer_id, "offline-replay"@)
    }
}

/// Reads how claims are replayed.
pub fn parse_replay_args(args: &Vec<String>) -> (config: Result<ReplayConfig, ArgError>)
    ensures
        match (config, options(Command::Replay, texts(args@))) {
            (Ok(c), Ok(o)) => c.follows(o),
            (Err(e), Ok(o)) => o.positionals.len() == 0 && e@ == ArgFault::Requires(
                "replay requires a claims file"@,
            ),
            (Err(e), Err(f)) => e@ == f,
            _ => false,
        },
{
    match Options::parse(Command::Replay, args) {
        Err(e) => Err(e),
        Ok(o) => match nth_text(&o.positionals, 0) {
            None => Err(ArgError::Requires("replay requires a claims file")),
            Some(claims) => Ok(
                ReplayConfig {
                    claims,
                    output: or_text(o.output, "asmap.map"),
                    report: or_text(o.report, "asmap.json"),
                    threshold: or_threshold(o.threshold),
                    epoch: o.epoch,
                    topic: or_text(o.topic, "bitcoin-asmap-quorum"),
                    local_peer_id: or_text(o.local_peer_id, "offline-replay"),
                },
            ),
        },
    }
}

/// How snapshots become claims.
#[derive(Debug, PartialEq, Eq)]
pub struct ImportConfig {
    pub inputs: Vec<String>,
    pub output: String,
    pub epoch: u64,
    pub sender_prefix: String,
}

impl ImportConfig {
    /// The configuration is the one that settings describe.
    pub open spec fn follows(self, o: OptionsView) -> bool {
        &&& texts(self.inputs@) == o.positionals
        &&& self.inputs@.len() > 0
        &&& self.output@ == text_or(o.output, "claims.json"@)
        &&& self.epoch == o.epoch.unwrap_or(1)
        &&& self.sender_prefix@ == text_or(o.sender_prefix, "snapshot"@)
    }
}

/// Reads how snapshots become claims.
pub fn parse_import_args(args: &Vec<String>) -> (config: Result<ImportConfig, ArgError>)
    ensures
        match (config, options(Command::Import, texts(args@))) {
            (Ok(c), Ok(o)) => c.follows(o),
            (Err(e), Ok(o)) => o.positionals.len() == 0 && e@ == ArgFault::Requires(
                "import requires at least one snapshot input file"@,
            ),
            (Err(e), Err(f)) => e@ == f,
            _ => false,
        },
{
    match Options::parse(Command::Import, args) {
        Err(e) => Err(e),
        Ok(o) => if o.positionals.len() == 0 {
            Err(ArgError::Requires("import requires at least one snapshot input file"))
        } else {
            Ok(
                ImportConfig {
                    inputs: o.positionals,
                    output: or_text(o.output, "claims.json"),
                    epoch: or_number(o.epoch, 1),
                    sender_prefix: or_text(o.sender_prefix, "snapshot"),
                },
            )
        },
    }
}

/// Reads where dumps go and which collectors are asked.
pub fn parse_download_args(args: &Vec<String>) -> (config: Result<(String, Vec<u32>), ArgError>)
    ensures
        match (config, options(Command::Download, texts(args@))) {
            (Ok(c), Ok(o)) => c.0@ == text_or(o.output, "dump"@) && c.1@ == o.collectors,
            (Err(e), Err(f)) => e@ == f,
            _ => false,
        },
{
    match Options::parse(Command::Download, args) {
        Err(e) => Err(e),
        Ok(o) => Ok((or_text(o.output, "dump"), o.collectors)),
    }
}

/// Reads where dumps are and where the bottlenecks go.
pub fn parse_find_bottleneck_args(args: &Vec<String>) -> (config: Result<
    (String, Option<String>),
    ArgError,
>)
    ensures
        match (config, options(Command::FindBottleneck, texts(args@))) {
            (Ok(c), Ok(o)) => Some(c.0@) == o.dir && maybe_text(c.1) == o.output,
            (Err(e), Ok(o)) => o.dir is None && e@ == ArgFault::Requires(
                "find-bottleneck requires --dir"@,
            ),
            (Err(e), Err(f)) => e@ == f,
            _ => false,
        },
{
    match Options::parse(Command::FindBottleneck, args) {
        Err(e) => Err(e),
        Ok(o) => match o.dir {
            None => Err(ArgError::Requires("find-bottleneck requires --dir")),
            Some(dir) => Ok((dir, o.output)),
        },
    }
}

/// Nodes of a public network that help to find others.
pub const IPFS_BOOTSTRAP_NODES: [&'static str; 4] = [
    "/dnsaddr/bootstrap.libp2p.io/p2p/QmNnooDu7bfjPFoTZYxMNLWUQJyrVwtbZg5gBMjTezGAJN",
    "/dnsaddr/bootstrap.libp2p.io/p2p/QmQCU2EcMqAqQPR2i9bChDtGNJchTbq5TbXJJ16u19uLTa",
    "/dnsaddr/bootstrap.libp2p.io/p2p/QmbLHAnMoJPWSCR5Zhtx6BHJX9KiKNN6tpvbUcqanj75Nb",
    "/dnsaddr/bootstrap.libp2p.io/p2p/QmcZf59bWwK5XFi76CZX8cbJ4BhTzzA3gU1ZjYZcYW3dwt",
];

/// The nodes that every node dials.
pub open spec fn default_nodes() -> Seq<Seq<char>> {
    Seq::new(4, |i: int| IPFS_BOOTSTRAP_NODES@[i]@)
}

/// The nodes that are dialled: the built-in ones, then those asked for.
pub fn default_bootstrap_peers(asked: &Vec<String>) -> (peers: Result<Vec<String>, ArgError>)
    ensures
        match (peers, multiaddrs(default_nodes())) {
            (Ok(l), Ok(nodes)) => texts(l@) == nodes + texts(asked@),
            (Err(e), Err(item)) => e@ == ArgFault::DefaultBootstrap(item),
            _ => false,
        },
{
    let mut nodes: Vec<String> = Vec::new();
    let mut i: usize = 0;
    while i < 4
        invariant
            i <= 4,
            nodes@.len() == i,
            forall|j: int| 0 <= j < i ==> (#[trigger] nodes@[j])@ == default_nodes()[j],
        decreases 4 - i,
    {
        nodes.push(IPFS_BOOTSTRAP_NODES[i].to_owned());
        i = i + 1;
    }
    assert(texts(nodes@) =~= default_nodes());
    match read_multiaddrs(&nodes) {
        Ok(list) => {
            let mut peers = list;
            append_texts(&mut peers, copy_texts(asked));
            Ok(peers)
        },
        Err(item) => Err(ArgError::DefaultBootstrap(item)),
    }
}

/// Some argument is one of two flags.
pub open spec fn has_flag(args: Seq<Seq<char>>, short: Seq<char>, long: Seq<char>) -> bool {
    args.contains(short) || args.contains(long)
}

/// The arguments that are neither of two flags.
pub open spec fn without_flag(args: Seq<Seq<char>>, short: Seq<char>, long: Seq<char>) -> Seq<
    Seq<char>,
>
    decreases args.len(),
{
    if args.len() == 0 {
        Seq::empty()
    } else {
        let rest = without_flag(args.drop_last(), short, long);
        if args.last() == short || args.last() == long {
            rest
        } else {
            rest.push(args.last())
        }
    }
}

/// Takes a flag without a value out of arguments.
fn take_flag(args: &Vec<String>, short: &str, long: &str) -> (split: (bool, Vec<String>))
    ensures
        split.0 == has_flag(texts(args@), short@, long@),
        texts(split.1@) == without_flag(texts(args@), short@, long@),
{
    let ghost all = texts(args@);
    let mut found: bool = false;
    let mut rest: Vec<String> = Vec::new();
    let mut i: usize = 0;
    assert(all.take(0) =~= Seq::empty());
    assert(texts(rest@) =~= Seq::empty());
    while i < args.len()
        invariant
            i <= args@.len(),
            all == texts(args@),
            found == has_flag(all.take(i as int), short@, long@),
            texts(rest@) == without_flag(all.take(i as int), short@, long@),
        decreases args@.len() - i,
    {
        let ghost before = texts(rest@);
        let ghost now = all.take(i as int);
        let ghost next = all.take(i + 1);
        assert(next.drop_last() =~= now);
        assert(next.last() == args@[i as int]@);
        assert(next =~= now.push(args@[i as int]@));
        assert forall|t: Seq<char>| #[trigger] next.contains(t) == (now.contains(t) || t
            == next.last()) by {
            if now.contains(t) {
                let j = choose|j: int| 0 <= j < now.len() && now[j] == t;
                assert(next[j] == t);
            }
            if t == next.last() {
                assert(next[i as int] == t);
            }
            if next.contains(t) && t != next.last() {
                let j = choose|j: int| 0 <= j < next.len() && next[j] == t;
                assert(now[j] == t);
            }
        }
        if same_text(args[i].as_str(), short) || same_text(args[i].as_str(), long) {
            found = true;
        } else {
            rest.push(args[i].clone());
            assert(texts(rest@) =~= before.push(args@[i as int]@));
        }
        i = i + 1;
    }
    assert(all.take(i as int) =~= all);
    (found, rest)
}

/// How a map is written in binary form.
#[derive(Debug, PartialEq, Eq)]
pub struct EncodeConfig {
    pub fill: bool,
    pub input: Option<String>,
    pub output: Option<String>,
}

/// Reads how a map is written in binary form.
pub fn parse_encode_args(args: &Vec<String>) -> (config: EncodeConfig)
    ensures
        config.fill == has_flag(texts(args@), "-f"@, "--fill"@),
        ({
            let rest = without_flag(texts(args@), "-f"@, "--fill"@);
            &&& maybe_text(config.input) == text_at(rest, 0)
            &&& maybe_text(config.output) == text_at(rest, 1)
        }),
{
    let (fill, rest) = take_flag(args, "-f", "--fill");
    EncodeConfig { fill, input: nth_text(&rest, 0), output: nth_text(&rest, 1) }
}

/// How a map is written as text.
#[derive(Debug, PartialEq, Eq)]
pub struct DecodeConfig {
    pub fill: bool,
    pub overlapping: bool,
    pub input: Option<String>,
    pub output: Option<String>,
}

/// Reads how a map is written as text.
pub fn parse_decode_args(args: &Vec<String>) -> (config: DecodeConfig)
    ensures
        config.fill == has_flag(texts(args@), "-f"@, "--fill"@),
        ({
            let some = without_flag(texts(args@), "-f"@, "--fill"@);
            let rest = without_flag(some, "-n"@, "--nonoverlapping"@);
            &&& config.overlapping == !has_flag(some, "-n"@, "--nonoverlapping"@)
            &&& maybe_text(config.input) == text_at(rest, 0)
            &&& maybe_text(config.output) == text_at(rest, 1)
        }),
{
    let (fill, some) = take_flag(args, "-f", "--fill");
    let (flat, rest) = take_flag(&some, "-n", "--nonoverlapping");
    DecodeConfig {
        fill,
        overlapping: !flat,
        input: nth_text(&rest, 0),
        output: nth_text(&rest, 1),
    }
}

/// Which maps are compared.
#[derive(Debug, PartialEq, Eq)]
pub struct DiffConfig {
    pub ignore_unassigned: bool,
    pub left: String,
    pub right: String,
}

/// Reads which maps are compared.
pub fn parse_diff_args(args: &Vec<String>) -> (config: Result<DiffConfig, ArgError>)
    ensures
        ({
            let rest = without_flag(texts(args@), "-i"@, "--ignore-unassigned"@);
            match config {
                Ok(c) => {
                    &&& rest == seq![c.left@, c.right@]
                    &&& c.ignore_unassigned == has_flag(
                        texts(args@),
                        "-i"@,
                        "--ignore-unassigned"@,
                    )
                },
                Err(e) => rest.len() != 2 && e@ == ArgFault::Requires(
                    "diff requires two input files"@,
                ),
            }
        }),
{
    let (ignore_unassigned, rest) = take_flag(args, "-i", "--ignore-unassigned");
    assert(texts(rest@).len() == rest@.len());
    if rest.len() != 2 {
        return Err(ArgError::Requires("diff requires two input files"));
    }
    let config = DiffConfig { ignore_unassigned, left: rest[0].clone(), right: rest[1].clone() };
    assert(texts(rest@) =~= seq![config.left@, config.right@]);
    Ok(config)
}

/// Which maps are compared, and on which addresses.
#[derive(Debug, PartialEq, Eq)]
pub struct DiffAddrsConfig {
    pub show_addresses: bool,
    pub left: String,
    pub right: String,
    pub addresses: String,
}

/// Reads which maps are compared on which addresses.
pub fn parse_diff_addrs_args(args: &Vec<String>) -> (config: Result<DiffAddrsConfig, ArgError>)
    ensures
        ({
            let rest = without_flag(texts(args@), "-s"@, "--show-addresses"@);
            match config {
                Ok(c) => {
                    &&& rest == seq![c.left@, c.right@, c.addresses@]
                    &&& c.show_addresses == has_flag(texts(args@), "-s"@, "--show-addresses"@)
                },
                Err(e) => rest.len() != 3 && e@ == ArgFault::Requires(
                    "diff_addrs requires two input files and an address file"@,
                ),
            }
        }),
{
    let (show_addresses, rest) = take_flag(args, "-s", "--show-addresses");
    assert(texts(rest@).len() == rest@.len());
    if rest.len() != 3 {
        return Err(
            ArgError::Requires("diff_addrs requires two input files and an address file"),
        );
    }
    let config = DiffAddrsConfig {
        show_addresses,
        left: rest[0].clone(),
        right: rest[1].clone(),
        addresses: rest[2].clone(),
    };
    assert(texts(rest@) =~= seq![config.left@, config.right@, config.addresses@]);
    Ok(config)
}

/// Reads which reports are compared.
pub fn parse_compare_args(args: &Vec<String>) -> (config: Result<(String, String), ArgError>)
    ensures
        match config {
            Ok(c) => texts(args@) == seq![c.0@, c.1@],
            Err(e) => args@.len() != 2 && e@ == ArgFault::Requires(
                "compare requires two report files"@,
            ),
        },
{
    if args.len() != 2 {
        return Err(ArgError::Requires("compare requires two report files"));
    }
    let config = (args[0].clone(), args[1].clone());
    assert(texts(args@) =~= seq![config.0@, config.1@]);
    Ok(config)
}

/// Where the last piece of a path that names something starts and ends: pieces
/// that are empty or a single dot name nothing.
pub open spec fn name_range(path: Seq<char>, to: int) -> Option<(int, int)>
    decreases to,
{
    if to <= 0 {
        None
    } else {
        proof {
            lemma_piece_start(path, to);
        }
        let start = piece_start(path, to);
        let piece = path.subrange(start, to);
        if piece.len() == 0 || piece == seq!['.'] {
            if start <= 0 {
                None
            } else {
                name_range(path, start - 1)
            }
        } else if piece == seq!['.', '.'] {
            None
        } else {
            Some((start, to))
        }
    }
}

/// Where the piece of a path that ends at `to` starts.
pub open spec fn piece_start(path: Seq<char>, to: int) -> int
    decreases to,
{
    if to <= 0 || to > path.len() || path[to - 1] == '/' {
        if to < 0 {
            0
        } else {
            to
        }
    } else {
        piece_start(path, to - 1)
    }
}

/// Where the stem of a name ends: at its last dot, unless that starts the name.
pub open spec fn stem_end(path: Seq<char>, start: int, end: int) -> int {
    let dot = last_dot(path, start, end);
    if dot > start {
        dot
    } else {
        end
    }
}

/// The last dot in `path[start..end]`; `start - 1` if there is none.
pub open spec fn last_dot(path: Seq<char>, start: int, end: int) -> int
    decreases end - start,
{
    if end <= start {
        start - 1
    } else if path[end - 1] == '.' {
        end - 1
    } else {
        last_dot(path, start, end - 1)
    }
}

/// A piece starts before it ends.
pub proof fn lemma_piece_start(path: Seq<char>, to: int)
    requires
        0 <= to,
    ensures
        0 <= piece_start(path, to) <= to,
    decreases to,
{
    if 0 < to <= path.len() && path[to - 1] != '/' {
        lemma_piece_start(path, to - 1);
    }
}

/// A piece that is not empty and no dots names something.
proof fn lemma_named(path: Seq<char>, start: int, to: int)
    requires
        0 <= start < to <= path.len(),
        piece_start(path, to) == start,
        !(to - start == 1 && path[start] == '.'),
        !(to - start == 2 && path[start] == '.' && path[start + 1] == '.'),
    ensures
        name_range(path, to) == Some((start, to)),
{
    let piece = path.subrange(start, to);
    let one = seq!['.'];
    let two = seq!['.', '.'];
    assert(one.len() == 1 && one[0] == '.');
    assert(two.len() == 2 && two[0] == '.' && two[1] == '.');
    assert(piece.len() == to - start);
    assert(piece[0] == path[start]);
    if piece == one {
        assert(piece[0] == '.');
    }
    if piece == two {
        assert(piece[1] == path[start + 1]);
        assert(piece[1] == '.');
    }
}

/// Finds the name at the end of a path and the end of its stem.
fn find_name(path: &[char]) -> (found: Option<(usize, usize)>)
    ensures
        match (found, name_range(path@, path@.len() as int)) {
            (Some((start, stem)), Some((s, e))) => {
                &&& start == s
                &&& stem == stem_end(path@, s, e)
                &&& start <= stem <= path@.len()
            },
            (None, None) => true,
            _ => false,
        },
{
    let mut to: usize = path.len();
    while to > 0
        invariant
            to <= path@.len(),
            name_range(path@, path@.len() as int) == name_range(path@, to as int),
        decreases to,
    {
        let mut start: usize = to;
        while start > 0 && path[start - 1] != '/'
            invariant
                start <= to <= path@.len(),
                piece_start(path@, to as int) == piece_start(path@, start as int),
            decreases start,
        {
            start = start - 1;
        }
        let len: usize = to - start;
        let ghost piece = path@.subrange(start as int, to as int);
        proof {
            if len == 1 && path@[start as int] == '.' {
                assert(piece =~= seq!['.']);
            }
            if len == 2 && path@[start as int] == '.' && path@[start + 1] == '.' {
                assert(piece =~= seq!['.', '.']);
            }
            if piece == seq!['.'] {
                assert(piece[0] == '.');
            }
            if piece == seq!['.', '.'] {
                assert(piece[0] == '.' && piece[1] == '.');
            }
        }
        if len == 0 || (len == 1 && path[start] == '.') {
            if start == 0 {
                return None;
            }
            to = start - 1;
        } else if len == 2 && path[start] == '.' && path[start + 1] == '.' {
            return None;
        } else {
            proof {
                lemma_named(path@, start as int, to as int);
            }
            let mut dot: usize = to;
            while dot > start && path[dot - 1] != '.'
                invariant
                    start <= dot <= to <= path@.len(),
                    last_dot(path@, start as int, to as int) == last_dot(
                        path@,
                        start as int,
                        dot as int,
                    ),
                decreases dot,
            {
                dot = dot - 1;
            }
            if dot > start + 1 {
                assert(last_dot(path@, start as int, dot as int) == dot - 1);
                assert(stem_end(path@, start as int, to as int) == dot - 1);
                return Some((start, dot - 1));
            }
            assert(last_dot(path@, start as int, dot as int) <= start);
            assert(stem_end(path@, start as int, to as int) == to);
            return Some((start, to));
        }
    }
    None
}

/// The stem of the name at the end of a path.
pub open spec fn file_stem(path: Seq<char>) -> Option<Seq<char>> {
    match name_range(path, path.len() as int) {
        Some((start, end)) => Some(path.subrange(start, stem_end(path, start, end))),
        None => None,
    }
}

/// A path with its extension replaced; a path without a name is left alone.
pub open spec fn with_extension(path: Seq<char>, extension: Seq<char>) -> Seq<char> {
    match name_range(path, path.len() as int) {
        Some((start, end)) => path.take(stem_end(path, start, end)) + "."@ + extension,
        None => path,
    }
}

fn replace_extension(path: &str, extension: &str) -> (out: String)
    ensures
        out@ == with_extension(path@, extension@),
{
    let chars = to_chars(path);
    match find_name(chars.as_slice()) {
        Some((_, stem)) => {
            let mut out = to_text(slice_subrange(chars.as_slice(), 0, stem));
            assert(out@ =~= path@.take(stem as int));
            out.append(".");
            out.append(extension);
            out
        },
        None => path.to_owned(),
    }
}

/// Where the report beside a map goes.
pub fn report_path(output: &str) -> (path: String)
    ensures
        path@ == with_extension(output@, "json"@),
{
    replace_extension(output, "json")
}

/// Where the events beside a report go.
pub fn nostr_sidecar_path(report: &str) -> (path: String)
    ensures
        path@ == with_extension(report@, "nostr.json"@),
{
    replace_extension(report, "nostr.json")
}

/// What the key of a snapshot's sender is made from.
pub open spec fn seed_text(prefix: Seq<char>, path: Seq<char>, idx: nat) -> Seq<char> {
    prefix + ":"@ + text_or(file_stem(path), "snapshot"@) + ":"@ + decimal(idx)
}

/// What the key of a snapshot's sender is made from.
pub fn sender_seed(prefix: &str, path: &str, idx: usize) -> (seed: String)
    ensures
        seed@ == seed_text(prefix@, path@, idx as nat),
{
    let chars = to_chars(path);
    let stem = match find_name(chars.as_slice()) {
        Some((start, end)) => to_text(slice_subrange(chars.as_slice(), start, end)),
        None => "snapshot".to_owned(),
    };
    let mut seed = prefix.to_owned();
    seed.append(":");
    seed.append(stem.as_str());
    seed.append(":");
    push_number(&mut seed, idx as u128, 10);
    seed
}

/// The id of a snapshot's sender.
pub open spec fn sender_id(prefix: Seq<char>, path: Seq<char>, idx: nat) -> Seq<char> {
    ed25519_peer_id(sha256_digest(encode_utf8(seed_text(prefix, path, idx))))
}

/// The id of a snapshot's sender: that of a key made from the names given. It is
/// read as a peer id.
pub fn snapshot_sender_id(prefix: &str, path: &str, idx: usize) -> (id: String)
    ensures
        id@ == sender_id(prefix@, path@, idx as nat),
        peer_id_text(id@) == Some(id@),
{
    let seed = sender_seed(prefix, path, idx);
    let digest = sha256(seed.as_str().as_bytes());
    ed25519_id(digest.as_slice())
}

/// Which flags set what, for which commands. Anything else is no setting.
pub proof fn flags_stand_for_settings(command: Command, flag: Seq<char>)
    ensures
        ({
            let gossips = command is Serve || command is Collect;
            let votes = gossips || command is Replay;
            let threshold = votes && (flag == "-t"@ || flag == "--threshold"@);
            let epoch = (votes || command is Import) && (flag == "-e"@ || flag == "--epoch"@);
            let epoch_secs = gossips && flag == "--epoch-secs"@;
            let refresh_secs = command is Collect && flag == "--refresh-secs"@;
            let topic = votes && flag == "--topic"@;
            let bootstrap = gossips && flag == "--bootstrap"@;
            let relay = gossips && (flag == "--relay"@ || flag == "--bootstrap-relay"@);
            let output = {
                ||| command !is Serve && flag == "-o"@
                ||| (command is Collect || command is Replay || command is Import) && flag
                    == "--output"@
                ||| (command is Download || command is FindBottleneck) && flag == "--out"@
            };
            let collectors = {
                ||| (command is Collect || command is Download) && (flag == "-n"@ || flag
                    == "--ripe_collector_number"@)
                ||| command is Collect && flag == "--collectors"@
            };
            let report = command is Replay && flag == "--report"@;
            let local_peer_id = command is Replay && flag == "--local-peer-id"@;
            let sender_prefix = command is Import && flag == "--sender-prefix"@;
            let dir = command is FindBottleneck && (flag == "-d"@ || flag == "--dir"@);
            match setting_of(command, flag) {
                Some(Setting::Threshold) => threshold,
                Some(Setting::Epoch) => epoch,
                Some(Setting::EpochSecs) => epoch_secs,
                Some(Setting::RefreshSecs) => refresh_secs,
                Some(Setting::Topic) => topic,
                Some(Setting::Bootstrap) => bootstrap,
                Some(Setting::Relay) => relay,
                Some(Setting::Output) => output,
                Some(Setting::Collectors) => collectors,
                Some(Setting::Report) => report,
                Some(Setting::LocalPeerId) => local_peer_id,
                Some(Setting::SenderPrefix) => sender_prefix,
                Some(Setting::Dir) => dir,
                None => !(threshold || epoch || epoch_secs || refresh_secs || topic || bootstrap
                    || relay || output || collectors || report || local_peer_id || sender_prefix
                    || dir),
            }
        }),
{
}

/// Arguments are read in turn: a flag takes the next one as its value, and what is
/// no flag is kept in order. The first fault ends the reading.
pub proof fn arguments_are_read_in_turn(
    command: Command,
    o: OptionsView,
    args: Seq<Seq<char>>,
    i: int,
)
    requires
        0 <= i <= args.len(),
    ensures
        options(command, args) == options_from(command, no_options(), args, 0),
        i == args.len() ==> options_from(command, o, args, i) == Ok::<OptionsView, ArgFault>(o),
        i < args.len() && setting_of(command, args[i]) is None ==> options_from(command, o, args, i)
            == options_from(
            command,
            (OptionsView { positionals: o.positionals.push(args[i]), ..o }),
            args,
            i + 1,
        ),
        i + 1 == args.len() && setting_of(command, args[i]) is Some ==> options_from(
            command,
            o,
            args,
            i,
        ) == Err::<OptionsView, ArgFault>(ArgFault::MissingValue(args[i])),
        i + 1 < args.len() && setting_of(command, args[i]) is Some ==> match with_setting(
            o,
            setting_of(command, args[i])->0,
            args[i + 1],
        ) {
            Ok(next) => options_from(command, o, args, i) == options_from(
                command,
                next,
                args,
                i + 2,
            ),
            Err(e) => options_from(command, o, args, i) == Err::<OptionsView, ArgFault>(e),
        },
{
}

/// At first nothing is set.
pub proof fn at_first_nothing_is_set()
    ensures
        no_options().threshold is None,
        no_options().epoch is None,
        no_options().epoch_secs is None,
        no_options().refresh_secs is None,
        no_options().topic is None,
        no_options().bootstrap.len() == 0,
        no_options().relays.len() == 0,
        no_options().output is None,
        no_options().collectors.len() == 0,
        no_options().report is None,
        no_options().local_peer_id is None,
        no_options().sender_prefix is None,
        no_options().dir is None,
        no_options().positionals.len() == 0,
{
}

/// What a value does: a number or a text replaces what was set, a list is added
/// behind what is there, and nothing else changes. What is not a number, or not a
/// list of what is asked for, is a fault.
pub proof fn values_are_set_one_by_one(o: OptionsView, value: Seq<char>)
    ensures
        with_setting(o, Setting::Threshold, value) == match parse_number(value, usize::MAX as nat) {
            Ok(n) => Ok(OptionsView { threshold: Some(n as usize), ..o }),
            Err(_) => Err(ArgFault::Invalid(Setting::Threshold, value)),
        },
        with_setting(o, Setting::Epoch, value) == match parse_number(value, u64::MAX as nat) {
            Ok(n) => Ok(OptionsView { epoch: Some(n as u64), ..o }),
            Err(_) => Err(ArgFault::Invalid(Setting::Epoch, value)),
        },
        with_setting(o, Setting::EpochSecs, value) == match parse_number(value, u64::MAX as nat) {
            Ok(n) => Ok(OptionsView { epoch_secs: Some(n as u64), ..o }),
            Err(_) => Err(ArgFault::Invalid(Setting::EpochSecs, value)),
        },
        with_setting(o, Setting::RefreshSecs, value) == match parse_number(value, u64::MAX as nat) {
            Ok(n) => Ok(OptionsView { refresh_secs: Some(n as u64), ..o }),
            Err(_) => Err(ArgFault::Invalid(Setting::RefreshSecs, value)),
        },
        with_setting(o, Setting::Topic, value) == Ok::<OptionsView, ArgFault>(
            OptionsView { topic: Some(value), ..o },
        ),
        with_setting(o, Setting::Bootstrap, value) == match multiaddrs(items(split(value, ','))) {
            Ok(list) => Ok(OptionsView { bootstrap: o.bootstrap + list, ..o }),
            Err(item) => Err(ArgFault::Invalid(Setting::Bootstrap, item)),
        },
        with_setting(o, Setting::Relay, value) == match multiaddrs(items(split(value, ','))) {
            Ok(list) => Ok(OptionsView { relays: o.relays + list, ..o }),
            Err(item) => Err(ArgFault::Invalid(Setting::Relay, item)),
        },
        with_setting(o, Setting::Output, value) == Ok::<OptionsView, ArgFault>(
            OptionsView { output: Some(value), ..o },
        ),
        with_setting(o, Setting::Collectors, value) == match numbers(items(split(value, ','))) {
            Some(list) => Ok(OptionsView { collectors: o.collectors + list, ..o }),
            None => Err(ArgFault::Invalid(Setting::Collectors, value)),
        },
        with_setting(o, Setting::Report, value) == Ok::<OptionsView, ArgFault>(
            OptionsView { report: Some(value), ..o },
        ),
        with_setting(o, Setting::LocalPeerId, value) == Ok::<OptionsView, ArgFault>(
            OptionsView { local_peer_id: Some(value), ..o },
        ),
        with_setting(o, Setting::SenderPrefix, value) == Ok::<OptionsView, ArgFault>(
            OptionsView { sender_prefix: Some(value), ..o },
        ),
        with_setting(o, Setting::Dir, value) == Ok::<OptionsView, ArgFault>(
            OptionsView { dir: Some(value), ..o },
        ),
{
}

/// The items of a list are what stands between commas and is not empty, in order.
pub proof fn items_stand_between_commas(a: Seq<Seq<char>>, b: Seq<Seq<char>>, piece: Seq<char>)
    ensures
        items(Seq::empty()) == Seq::<Seq<char>>::empty(),
        piece.len() > 0 ==> items(seq![piece]) == seq![piece],
        piece.len() == 0 ==> items(seq![piece]) == Seq::<Seq<char>>::empty(),
        items(a + b) == items(a) + items(b),
    decreases b.len(),
{
    let one = seq![piece];
    assert(one.drop_last() =~= Seq::empty());
    assert(items(one.drop_last()) =~= Seq::empty());
    if piece.len() > 0 {
        assert(items(one) =~= seq![piece]);
    }
    if b.len() == 0 {
        assert(a + b =~= a);
        assert(items(a) + items(b) =~= items(a));
    } else {
        items_stand_between_commas(a, b.drop_last(), piece);
        assert((a + b).drop_last() =~= a + b.drop_last());
        assert((a + b).last() == b.last());
        assert(items(a + b) =~= items(a) + items(b));
    }
}

/// A list of numbers is read one by one, and not at all if one of them is none.
pub proof fn lists_of_numbers_are_read_one_by_one(list: Seq<Seq<char>>)
    ensures
        match numbers(list) {
            Some(read) => read.len() == list.len() && forall|i: int|
                0 <= i < list.len() ==> parse_number(#[trigger] list[i], 0xffff_ffff) is Ok
                    && parse_number(list[i], 0xffff_ffff)->Ok_0 == read[i],
            None => exists|i: int|
                0 <= i < list.len() && parse_number(#[trigger] list[i], 0xffff_ffff) is Err,
        },
    decreases list.len(),
{
    if list.len() > 0 {
        let rest = list.drop_last();
        lists_of_numbers_are_read_one_by_one(rest);
        match numbers(list) {
            Some(read) => {
                lemma_number_bound(list.last(), u32::MAX as nat);
                assert forall|i: int| 0 <= i < list.len() implies parse_number(
                    #[trigger] list[i],
                    0xffff_ffff,
                ) is Ok && parse_number(list[i], 0xffff_ffff)->Ok_0 == read[i] by {
                    if i < rest.len() {
                        assert(rest[i] == list[i]);
                    }
                }
            },
            None => {
                if numbers(rest) is None {
                    let i = choose|i: int|
                        0 <= i < rest.len() && parse_number(#[trigger] rest[i], 0xffff_ffff) is Err;
                    assert(list[i] == rest[i]);
                } else {
                    assert(parse_number(list[list.len() - 1], 0xffff_ffff) is Err);
                }
            },
        }
    }
}

/// A list of addresses is read one by one; the first that is none is to blame.
pub proof fn lists_of_addresses_are_read_one_by_one(list: Seq<Seq<char>>)
    ensures
        match multiaddrs(list) {
            Ok(read) => read.len() == list.len() && forall|i: int|
                0 <= i < list.len() ==> multiaddr_text(#[trigger] list[i]) == Some(read[i]),
            Err(item) => exists|i: int|
                0 <= i < list.len() && #[trigger] list[i] == item && multiaddr_text(list[i]) is None
                    && forall|j: int| 0 <= j < i ==> multiaddr_text(#[trigger] list[j]) is Some,
        },
    decreases list.len(),
{
    let found = list.map_values(|t: Seq<char>| multiaddr_text(t));
    if list.len() > 0 {
        let rest = list.drop_last();
        assert(found.drop_last() =~= rest.map_values(|t: Seq<char>| multiaddr_text(t)));
        lists_of_addresses_are_read_one_by_one(rest);
        match multiaddrs(rest) {
            Ok(read) => {
                assert forall|i: int| 0 <= i < rest.len() implies multiaddr_text(#[trigger] list[i])
                    == Some(read[i]) by {
                    assert(rest[i] == list[i]);
                }
                assert(list[list.len() - 1] == list.last());
            },
            Err(item) => {
                let i = choose|i: int|
                    0 <= i < rest.len() && #[trigger] rest[i] == item && multiaddr_text(
                        rest[i],
                    ) is None && forall|j: int|
                        0 <= j < i ==> multiaddr_text(#[trigger] rest[j]) is Some;
                assert(list[i] == item);
                assert forall|j: int| 0 <= j < i implies multiaddr_text(
                    #[trigger] list[j],
                ) is Some by {
                    assert(rest[j] == list[j]);
                }
            },
        }
    }
}

/// A flag without a value is found wherever it stands, and what is left are the
/// other arguments in order.
pub proof fn flags_are_taken_out(
    a: Seq<Seq<char>>,
    b: Seq<Seq<char>>,
    short: Seq<char>,
    long: Seq<char>,
    arg: Seq<char>,
)
    ensures
        has_flag(a, short, long) <==> exists|i: int|
            0 <= i < a.len() && (#[trigger] a[i] == short || a[i] == long),
        without_flag(Seq::empty(), short, long) == Seq::<Seq<char>>::empty(),
        arg == short || arg == long ==> without_flag(seq![arg], short, long) == Seq::<
            Seq<char>,
        >::empty(),
        arg != short && arg != long ==> without_flag(seq![arg], short, long) == seq![arg],
        without_flag(a + b, short, long) == without_flag(a, short, long) + without_flag(
            b,
            short,
            long,
        ),
    decreases b.len(),
{
    let one = seq![arg];
    assert(one.drop_last() =~= Seq::empty());
    assert(without_flag(one.drop_last(), short, long) =~= Seq::empty());
    if arg != short && arg != long {
        assert(without_flag(one, short, long) =~= seq![arg]);
    }
    if exists|i: int| 0 <= i < a.len() && (#[trigger] a[i] == short || a[i] == long) {
        let i = choose|i: int| 0 <= i < a.len() && (#[trigger] a[i] == short || a[i] == long);
        assert(a.contains(a[i]));
    }
    if b.len() == 0 {
        assert(a + b =~= a);
        assert(without_flag(a, short, long) + without_flag(b, short, long) =~= without_flag(
            a,
            short,
            long,
        ));
    } else {
        flags_are_taken_out(a, b.drop_last(), short, long, arg);
        assert((a + b).drop_last() =~= a + b.drop_last());
        assert((a + b).last() == b.last());
        assert(without_flag(a + b, short, long) =~= without_flag(a, short, long) + without_flag(
            b,
            short,
            long,
        ));
    }
}

/// What holds where something is not set.
pub proof fn defaults_hold_where_nothing_is_set(
    o: OptionsView,
    serve: ServeConfig,
    collect: CollectConfig,
    replay: ReplayConfig,
    import: ImportConfig,
)
    requires
        serve.follows(o),
        collect.follows(o),
        replay.follows(o),
        import.follows(o),
    ensures
        maybe_text(serve.input) == text_at(o.positionals, 0),
        maybe_text(serve.output) == text_at(o.positionals, 1),
        serve.threshold == (if o.threshold is Some { o.threshold->0 } else { 3 }),
        serve.epoch == (if o.epoch is Some { o.epoch->0 } else { 1 }),
        serve.epoch_secs == (if o.epoch_secs is Some { o.epoch_secs->0 } else { 60 }),
        serve.topic@ == (if o.topic is Some { o.topic->0 } else { "bitcoin-asmap-quorum"@ }),
        texts(serve.bootstrap_peers@) == o.bootstrap,
        texts(serve.relay_bootstraps@) == o.relays,
        maybe_text(collect.output) == o.output,
        collect.threshold == (if o.threshold is Some { o.threshold->0 } else { 3 }),
        collect.epoch == (if o.epoch is Some { o.epoch->0 } else { 1 }),
        collect.epoch_secs == (if o.epoch_secs is Some { o.epoch_secs->0 } else { 60 }),
        collect.refresh_secs == (if o.refresh_secs is Some { o.refresh_secs->0 } else { 1800 }),
        collect.topic@ == (if o.topic is Some { o.topic->0 } else { "bitcoin-ris-collection"@ }),
        collect.collectors@ == o.collectors,
        texts(collect.bootstrap_peers@) == o.bootstrap,
        texts(collect.relay_bootstraps@) == o.relays,
        Some(replay.claims@) == text_at(o.positionals, 0),
        replay.output@ == (if o.output is Some { o.output->0 } else { "asmap.map"@ }),
        replay.report@ == (if o.report is Some { o.report->0 } else { "asmap.json"@ }),
        replay.threshold == (if o.threshold is Some { o.threshold->0 } else { 3 }),
        replay.epoch == o.epoch,
        replay.topic@ == (if o.topic is Some { o.topic->0 } else { "bitcoin-asmap-quorum"@ }),
        replay.local_peer_id@ == (if o.local_peer_id is Some {
            o.local_peer_id->0
        } else {
            "offline-replay"@
        }),
        texts(import.inputs@) == o.positionals,
        import.output@ == (if o.output is Some { o.output->0 } else { "claims.json"@ }),
        import.epoch == (if o.epoch is Some { o.epoch->0 } else { 1 }),
        import.sender_prefix@ == (if o.sender_prefix is Some {
            o.sender_prefix->0
        } else {
            "snapshot"@
        }),
{
}

/// A text that may be missing, one at a position, and one with a default.
pub proof fn texts_may_be_missing(
    text: String,
    list: Seq<Seq<char>>,
    i: int,
    set: Seq<char>,
    default: Seq<char>,
)
    ensures
        maybe_text(Some(text)) == Some(text@),
        maybe_text(None) == None::<Seq<char>>,
        0 <= i < list.len() ==> text_at(list, i) == Some(list[i]),
        i >= list.len() ==> text_at(list, i) == None::<Seq<char>>,
        text_or(Some(set), default) == set,
        text_or(None, default) == default,
{
}

/// What a reader is told about a command line that cannot be read.
pub proof fn what_is_said_about_arguments(
    flag: String,
    value: String,
    setting: Setting,
    what: &'static str,
)
    ensures
        ArgError::MissingValue(flag).text() == "missing value for "@ + flag@,
        ArgError::Invalid(setting, value).text() == setting.complaint() + value@ + "'"@,
        ArgError::DefaultBootstrap(value).text() == "invalid default bootstrap multiaddr '"@
            + value@ + "'"@,
        ArgError::Requires(what).text() == what@,
        setting.complaint() == match setting {
            Setting::Threshold => "invalid threshold '"@,
            Setting::Epoch => "invalid epoch '"@,
            Setting::EpochSecs => "invalid epoch-secs '"@,
            Setting::RefreshSecs => "invalid refresh-secs '"@,
            Setting::Bootstrap => "invalid multiaddr '"@,
            Setting::Relay => "invalid multiaddr '"@,
            Setting::Collectors => "invalid collector list '"@,
            _ => "invalid value '"@,
        },
        ArgError::MissingValue(flag)@ == ArgFault::MissingValue(flag@),
        ArgError::Invalid(setting, value)@ == ArgFault::Invalid(setting, value@),
        ArgError::DefaultBootstrap(value)@ == ArgFault::DefaultBootstrap(value@),
        ArgError::Requires(what)@ == ArgFault::Requires(what@),
{
}

proof fn lemma_name_start(path: Seq<char>, start: int, to: int)
    requires
        0 <= start <= to <= path.len(),
        start == 0 || path[start - 1] == '/',
        forall|i: int| start <= i < to ==> #[trigger] path[i] != '/',
    ensures
        piece_start(path, to) == start,
    decreases to,
{
    if start < to {
        assert(path[to - 1] != '/');
        lemma_name_start(path, start, to - 1);
    }
}

proof fn lemma_no_dot(path: Seq<char>, start: int, dot: int, end: int)
    requires
        start - 1 <= dot < end <= path.len() || start == end && dot == start - 1,
        0 <= start <= end,
        dot >= start ==> path[dot] == '.',
        forall|i: int| dot < i < end ==> #[trigger] path[i] != '.',
    ensures
        last_dot(path, start, end) == dot,
    decreases end - start,
{
    if end > start && dot < end - 1 {
        assert(path[end - 1] != '.');
        lemma_no_dot(path, start, dot, end - 1);
    }
}

/// The name at the end of a path is what follows the last slash. Its extension is
/// what follows the last dot, unless the name starts with that dot; what stands
/// before it is the stem.
#[verifier::spinoff_prover]
pub proof fn extensions_follow_the_last_dot(
    dir: Seq<char>,
    stem: Seq<char>,
    old_extension: Seq<char>,
    extension: Seq<char>,
)
    requires
        dir.len() == 0 || dir.last() == '/',
        stem.len() > 0,
        forall|i: int| 0 <= i < stem.len() ==> #[trigger] stem[i] != '/',
        forall|i: int|
            0 <= i < old_extension.len() ==> #[trigger] old_extension[i] != '/' && old_extension[i]
                != '.',
        stem != seq!['.'] || old_extension.len() > 0,
    ensures
        with_extension(dir + stem + "."@ + old_extension, extension) == dir + stem + "."@
            + extension,
        file_stem(dir + stem + "."@ + old_extension) == Some(stem),
{
    reveal_strlit(".");
    let name = stem + "."@ + old_extension;
    let path = dir + stem + "."@ + old_extension;
    let (start, dot, end) = (
        dir.len() as int,
        (dir.len() + stem.len()) as int,
        path.len() as int,
    );
    assert(path =~= dir + name);
    assert forall|i: int| start <= i < end implies #[trigger] path[i] != '/' by {
        if i < dot {
            assert(path[i] == stem[i - start]);
        } else if i > dot {
            assert(path[i] == old_extension[i - dot - 1]);
        }
    }
    lemma_name_start(path, start, end);
    assert forall|i: int| dot < i < end implies #[trigger] path[i] != '.' by {
        assert(path[i] == old_extension[i - dot - 1]);
    }
    lemma_no_dot(path, start, dot, end);
    assert(path[start] == stem[0]);
    assert(path[dot] == '.');
    if end - start == 2 && path[start] == '.' {
        assert(stem =~= seq!['.']);
        assert(old_extension.len() == 0);
    }
    lemma_named(path, start, end);
    assert(path.take(dot) =~= dir + stem);
    assert(path.subrange(start, dot) =~= stem);
    assert(with_extension(path, extension) =~= dir + stem + "."@ + extension);
}

/// A name without an extension is its own stem, and an extension is put behind it.
#[verifier::spinoff_prover]
pub proof fn names_may_have_no_extension(
    dir: Seq<char>,
    name: Seq<char>,
    extension: Seq<char>,
)
    requires
        dir.len() == 0 || dir.last() == '/',
        name.len() > 0,
        name != seq!['.'],
        forall|i: int| 0 <= i < name.len() ==> #[trigger] name[i] != '/',
        forall|i: int| 1 <= i < name.len() ==> #[trigger] name[i] != '.',
    ensures
        with_extension(dir + name, extension) == dir + name + "."@ + extension,
        file_stem(dir + name) == Some(name),
{
    let path = dir + name;
    let (start, end) = (dir.len() as int, path.len() as int);
    assert forall|i: int| start <= i < end implies #[trigger] path[i] != '/' by {
        assert(path[i] == name[i - start]);
    }
    lemma_name_start(path, start, end);
    assert forall|i: int| start < i < end implies #[trigger] path[i] != '.' by {
        assert(path[i] == name[i - start]);
    }
    assert(path[start] == name[0]);
    if name[0] == '.' {
        lemma_no_dot(path, start, start, end);
    } else {
        lemma_no_dot(path, start, start - 1, end);
    }
    if end - start == 1 && path[start] == '.' {
        assert(name =~= seq!['.']);
    }
    if end - start == 2 {
        assert(path[start + 1] == name[1]);
    }
    lemma_named(path, start, end);
    assert(path.take(end) =~= path);
}

/// A path that ends in two dots, or holds nothing, names nothing and stays as it is.
#[verifier::spinoff_prover]
pub proof fn some_paths_name_nothing(dir: Seq<char>, extension: Seq<char>)
    requires
        dir.len() == 0 || dir.last() == '/',
    ensures
        with_extension(Seq::empty(), extension) == Seq::<char>::empty(),
        file_stem(Seq::empty()) == None::<Seq<char>>,
        with_extension(dir + seq!['.', '.'], extension) == dir + seq!['.', '.'],
        file_stem(dir + seq!['.', '.']) == None::<Seq<char>>,
{
    let path = dir + seq!['.', '.'];
    let (start, end) = (dir.len() as int, path.len() as int);
    lemma_name_start(path, start, end);
    assert(path.subrange(start, end) =~= seq!['.', '.']);
    assert(seq!['.', '.'].len() == 2);
    assert(seq!['.'].len() == 1);
}

/// The id of a snapshot's sender is that of the key whose secret is the digest of
/// the prefix, the stem of the file's name and its number, with colons between them.
pub proof fn sender_ids_are_made_from_names(prefix: Seq<char>, path: Seq<char>, idx: nat)
    ensures
        file_stem(path) matches Some(stem) ==> seed_text(prefix, path, idx) == prefix + ":"@ + stem
            + ":"@ + decimal(idx),
        file_stem(path) is None ==> seed_text(prefix, path, idx) == prefix + ":"@ + "snapshot"@
            + ":"@ + decimal(idx),
        sender_id(prefix, path, idx) == ed25519_peer_id(
            sha256_digest(encode_utf8(seed_text(prefix, path, idx))),
        ),
{
}

/// The nodes that every node dials.
pub proof fn every_node_dials_these()
    ensures
        default_nodes() == seq![
            "/dnsaddr/bootstrap.libp2p.io/p2p/QmNnooDu7bfjPFoTZYxMNLWUQJyrVwtbZg5gBMjTezGAJN"@,
            "/dnsaddr/bootstrap.libp2p.io/p2p/QmQCU2EcMqAqQPR2i9bChDtGNJchTbq5TbXJJ16u19uLTa"@,
            "/dnsaddr/bootstrap.libp2p.io/p2p/QmbLHAnMoJPWSCR5Zhtx6BHJX9KiKNN6tpvbUcqanj75Nb"@,
            "/dnsaddr/bootstrap.libp2p.io/p2p/QmcZf59bWwK5XFi76CZX8cbJ4BhTzzA3gU1ZjYZcYW3dwt"@,
        ],
{
}

proof fn lemma_name_range_frame(a: Seq<char>, b: Seq<char>, to: int)
    requires
        to <= a.len(),
        to <= b.len(),
        forall|i: int| 0 <= i < to ==> #[trigger] a[i] == b[i],
    ensures
        name_range(a, to) == name_range(b, to),
        to >= 0 ==> piece_start(a, to) == piece_start(b, to),
    decreases to,
{
    if to > 0 {
        lemma_piece_start(a, to);
        lemma_piece_start_frame(a, b, to);
        let start = piece_start(a, to);
        assert(a.subrange(start, to) =~= b.subrange(start, to));
        if start > 0 {
            lemma_name_range_frame(a, b, start - 1);
        }
    }
}

proof fn lemma_piece_start_frame(a: Seq<char>, b: Seq<char>, to: int)
    requires
        0 <= to <= a.len(),
        to <= b.len(),
        forall|i: int| 0 <= i < to ==> #[trigger] a[i] == b[i],
    ensures
        piece_start(a, to) == piece_start(b, to),
    decreases to,
{
    if to > 0 {
        assert(a[to - 1] == b[to - 1]);
        lemma_piece_start_frame(a, b, to - 1);
    }
}

/// Slashes and single dots at the end of a path name nothing: the name is what
/// stands before them.
#[verifier::spinoff_prover]
pub proof fn trailing_slashes_name_nothing(path: Seq<char>, extension: Seq<char>)
    requires
        path.len() > 0,
    ensures
        file_stem(path + seq!['/']) == file_stem(path),
        file_stem(path + seq!['/', '.']) == file_stem(path),
        file_stem(path) is Some ==> with_extension(path + seq!['/'], extension) == with_extension(
            path,
            extension,
        ),
        file_stem(path) is Some ==> with_extension(path + seq!['/', '.'], extension)
            == with_extension(path, extension),
{
    let n = path.len() as int;
    let a = path + seq!['/'];
    let b = path + seq!['/', '.'];
    assert(a[n] == '/');
    assert(a.subrange(n + 1, n + 1).len() == 0);
    assert(piece_start(a, n + 1) == n + 1);
    assert(name_range(a, n + 1) == name_range(a, n));
    lemma_name_range_frame(a, path, n);
    assert(b[n] == '/' && b[n + 1] == '.');
    lemma_name_start(b, n + 1, n + 2);
    assert(b.subrange(n + 1, n + 2) =~= seq!['.']);
    assert(name_range(b, n + 2) == name_range(b, n));
    lemma_name_range_frame(b, path, n);
    if let Some((start, end)) = name_range(path, n) {
        lemma_range_bounds(path, n);
        lemma_stem_frame(a, path, start, end);
        lemma_stem_frame(b, path, start, end);
        let stop = stem_end(path, start, end);
        assert(a.take(stop) =~= path.take(stop));
        assert(b.take(stop) =~= path.take(stop));
        assert(a.subrange(start, stop) =~= path.subrange(start, stop));
        assert(b.subrange(start, stop) =~= path.subrange(start, stop));
    }
}

proof fn lemma_range_bounds(path: Seq<char>, to: int)
    requires
        to <= path.len(),
    ensures
        name_range(path, to) matches Some((start, end)) ==> 0 <= start < end <= to,
    decreases to,
{
    if to > 0 {
        lemma_piece_start(path, to);
        let start = piece_start(path, to);
        if start > 0 {
            lemma_range_bounds(path, start - 1);
        }
    }
}

proof fn lemma_stem_frame(a: Seq<char>, b: Seq<char>, start: int, end: int)
    requires
        0 <= start <= end <= a.len(),
        end <= b.len(),
        forall|i: int| 0 <= i < end ==> #[trigger] a[i] == b[i],
    ensures
        last_dot(a, start, end) == last_dot(b, start, end),
        start - 1 <= last_dot(a, start, end) < end || end == start,
        stem_end(a, start, end) == stem_end(b, start, end),
        start <= stem_end(a, start, end) <= end,
    decreases end - start,
{
    if end > start {
        assert(a[end - 1] == b[end - 1]);
        lemma_stem_frame(a, b, start, end - 1);
    }
}

/// Readings are taken one by one; the first item without one is to blame.
pub proof fn readings_are_required_one_by_one(
    list: Seq<Seq<char>>,
    read: Seq<Option<Seq<char>>>,
)
    requires
        read.len() == list.len(),
    ensures
        match all_read(list, read) {
            Ok(all) => all.len() == list.len() && forall|i: int|
                0 <= i < list.len() ==> #[trigger] read[i] == Some(all[i]),
            Err(item) => exists|i: int|
                0 <= i < list.len() && #[trigger] read[i] is None && list[i] == item && forall|
                    j: int,
                |
                    0 <= j < i ==> #[trigger] read[j] is Some,
        },
    decreases list.len(),
{
    if list.len() > 0 {
        let (fewer, less) = (list.drop_last(), read.drop_last());
        readings_are_required_one_by_one(fewer, less);
        match all_read(fewer, less) {
            Ok(all) => {
                assert forall|i: int| 0 <= i < less.len() implies #[trigger] read[i] == Some(
                    all[i],
                ) by {
                    assert(less[i] == read[i]);
                }
                assert(read[read.len() - 1] == read.last());
            },
            Err(item) => {
                let i = choose|i: int|
                    0 <= i < fewer.len() && #[trigger] less[i] is None && fewer[i] == item
                        && forall|j: int| 0 <= j < i ==> #[trigger] less[j] is Some;
                assert(read[i] is None);
                assert forall|j: int| 0 <= j < i implies #[trigger] read[j] is Some by {
                    assert(less[j] == read[j]);
                }
            },
        }
    }
}

/// What was read is taken as it stands.
pub proof fn readings_are_taken_as_they_stand(read: Seq<Option<String>>, i: int)
    requires
        0 <= i < read.len(),
    ensures
        readings(read).len() == read.len(),
        readings(read)[i] == match read[i] {
            Some(t) => Some(t@),
            None => None,
        },
{
}

} // verus!
