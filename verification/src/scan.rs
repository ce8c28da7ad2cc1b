//! The scan job that the command line and the web page both drive: its settings, and what is
//! worked out before the first packet leaves.

use vstd::prelude::*;
use vstd::slice::slice_to_vec;
use vstd::string::*;

use crate::ip::{
    canonical, canonical_form_exists, canonical_is_unique, cidr_spec, count, covers,
    exclude_text_spec, hash_spec, includes_spec, job_bytes, job_fingerprint,
    lemma_permuted_in_range, merge, merge_spec, nth_is_covered, parse_cidr, parse_exclude_text,
    reserved_blocks, step_spec, wanted, AddrSpace, CidrError, ExcludeError, SpaceError, Window,
};
use crate::ipv4::{push_ipv4, quad_text};
use crate::modular::permuted;
use crate::num::{
    dec, dec_int, dec_text, parse_unsigned, push_dec, push_dec_i32, unsigned_spec, IntError,
};
use crate::ping::text_of;
use crate::sort::{keys, lemma_sorted_keys, merge_sort, order, sorted_keys};
use crate::state::{parse, parse_spec, render_reads_back, render_spec, Checkpoint};
use crate::syn::{contains_port, DEFAULT_SRC_PORT};
use crate::text::{
    from_chars, split, split_spec, starts_with, texts, to_chars, trim, trim_spec, views, Sep,
};

verus! {

/// Why a text is no list of ports.
#[derive(Debug, PartialEq, Eq)]
pub enum PortsError {
    /// One of the words is no port number.
    NotAPort { word: String, cause: IntError },
    /// Port 0 cannot be scanned.
    Zero,
    /// No port is named.
    Missing,
}

/// An error in a list of ports, with its text as characters.
pub enum PortsFault {
    NotAPort { word: Seq<char>, cause: IntError },
    Zero,
    Missing,
}

impl View for PortsError {
    type V = PortsFault;

    open spec fn view(&self) -> PortsFault {
        match *self {
            PortsError::NotAPort { word, cause } => PortsFault::NotAPort { word: word@, cause },
            PortsError::Zero => PortsFault::Zero,
            PortsError::Missing => PortsFault::Missing,
        }
    }
}

impl PortsFault {
    pub open spec fn full_message(self) -> Seq<char> {
        match self {
            PortsFault::NotAPort { word, cause } => "port "@ + word + ": "@ + cause.message_spec(),
            PortsFault::Zero => "port 0 is invalid"@,
            PortsFault::Missing => "need at least one port"@,
        }
    }
}

impl PortsError {
    /// What to tell the user, with the cause behind it.
    pub fn full_message(&self) -> (r: String)
        ensures
            r@ == self@.full_message(),
    {
        match self {
            PortsError::NotAPort { word, cause } => {
                let mut out: String = "port ".to_string();
                out.append(word.as_str());
                out.append(": ");
                out.append(cause.message());
                out
            },
            PortsError::Zero => "port 0 is invalid".to_string(),
            PortsError::Missing => "need at least one port".to_string(),
        }
    }
}

/// The ports that the words name, empty words aside, or the first word that is wrong.
pub open spec fn port_words(words: Seq<Seq<char>>) -> Result<Seq<u16>, PortsFault>
    decreases words.len(),
{
    if words.len() == 0 {
        Ok(Seq::empty())
    } else {
        match port_words(words.drop_last()) {
            Err(e) => Err(e),
            Ok(ports) => {
                let word = words.last();
                if word.len() == 0 {
                    Ok(ports)
                } else {
                    match unsigned_spec(word, 10, 0xffff) {
                        Err(cause) => Err(PortsFault::NotAPort { word, cause }),
                        Ok(p) => if p == 0 {
                            Err(PortsFault::Zero)
                        } else {
                            Ok(ports.push(p as u16))
                        },
                    }
                }
            },
        }
    }
}

/// The ports that a text names; commas and white space stand between them.
pub open spec fn ports_spec(s: Seq<char>) -> Result<Seq<u16>, PortsFault> {
    match port_words(split_spec(s, Sep::CommaOrWhite)) {
        Err(e) => Err(e),
        Ok(ports) => if ports.len() == 0 {
            Err(PortsFault::Missing)
        } else {
            Ok(ports)
        },
    }
}

proof fn lemma_port_words_prefix_err(words: Seq<Seq<char>>, n: int)
    requires
        0 <= n <= words.len(),
        port_words(words.take(n)) is Err,
    ensures
        port_words(words) == port_words(words.take(n)),
    decreases words.len(),
{
    if n < words.len() {
        assert(words.drop_last().take(n) =~= words.take(n));
        lemma_port_words_prefix_err(words.drop_last(), n);
    } else {
        assert(words.take(n) =~= words);
    }
}

/// The ports that a text names.
pub fn parse_ports(s: &str) -> (r: Result<Vec<u16>, PortsError>)
    ensures
        match r {
            Ok(ports) => ports_spec(s@) == Ok::<Seq<u16>, PortsFault>(ports@),
            Err(e) => ports_spec(s@) == Err::<Seq<u16>, PortsFault>(e@),
        },
{
    let chars: Vec<char> = to_chars(s);
    let words: Vec<&[char]> = split(chars.as_slice(), Sep::CommaOrWhite);
    let ghost all = views(words@);
    let mut ports: Vec<u16> = Vec::new();
    let mut i: usize = 0;
    while i < words.len()
        invariant
            i <= words@.len(),
            all == views(words@),
            all == split_spec(s@, Sep::CommaOrWhite),
            port_words(all.take(i as int)) == Ok::<Seq<u16>, PortsFault>(ports@),
        decreases words@.len() - i,
    {
        assert(all.take(i + 1).drop_last() =~= all.take(i as int));
        assert(all.take(i + 1).last() == words@[i as int]@);
        let word: &[char] = words[i];
        i = i + 1;
        if word.len() == 0 {
            continue;
        }
        match parse_unsigned(word, 10, 0xffff) {
            Ok(p) => {
                if p == 0 {
                    proof {
                        lemma_port_words_prefix_err(all, i as int);
                    }
                    return Err(PortsError::Zero);
                }
                ports.push(p as u16);
            },
            Err(cause) => {
                proof {
                    lemma_port_words_prefix_err(all, i as int);
                }
                return Err(PortsError::NotAPort { word: from_chars(word), cause });
            },
        }
    }
    assert(all.take(i as int) =~= all);
    if ports.len() == 0 {
        return Err(PortsError::Missing);
    }
    Ok(ports)
}

/// A line that says something: not blank, no comment.
pub open spec fn is_content(line: Seq<char>) -> bool {
    line.len() > 0 && line[0] != '#'
}

/// The lines of a text, trimmed, without blank lines and comments.
pub open spec fn lines_spec(s: Seq<char>) -> Seq<Seq<char>> {
    split_spec(s, Sep::Char('\n')).map_values(|l: Seq<char>| trim_spec(l)).filter(
        |l: Seq<char>| is_content(l),
    )
}

/// The lines of a text, trimmed, without blank lines and comments.
pub fn parse_lines(s: &str) -> (out: Vec<String>)
    ensures
        texts(out@) == lines_spec(s@),
{
    let chars: Vec<char> = to_chars(s);
    let pieces: Vec<&[char]> = split(chars.as_slice(), Sep::Char('\n'));
    let ghost all = views(pieces@).map_values(|l: Seq<char>| trim_spec(l));
    let ghost pred = |l: Seq<char>| is_content(l);
    let mut out: Vec<String> = Vec::new();
    let mut i: usize = 0;
    assert(texts(out@) =~= all.take(0).filter(pred)) by {
        reveal(Seq::filter);
    }
    while i < pieces.len()
        invariant
            i <= pieces@.len(),
            all == views(pieces@).map_values(|l: Seq<char>| trim_spec(l)),
            pred == (|l: Seq<char>| is_content(l)),
            texts(out@) == all.take(i as int).filter(pred),
        decreases pieces@.len() - i,
    {
        let ghost before = texts(out@);
        proof {
            reveal(Seq::filter);
            assert(all.take(i + 1).drop_last() =~= all.take(i as int));
            assert(all.take(i + 1).last() == trim_spec(pieces@[i as int]@));
        }
        let line: &[char] = trim(pieces[i]);
        if line.len() > 0 && !starts_with(line, '#') {
            out.push(from_chars(line));
            assert(texts(out@) =~= before.push(line@));
        }
        i = i + 1;
    }
    assert(all.take(i as int) =~= all);
    out
}

/// `ports` in rising order, each one once.
pub open spec fn is_port_set(set: Seq<u16>, ports: Seq<u16>) -> bool {
    &&& forall|i: int, j: int| 0 <= i < j < set.len() ==> #[trigger] set[i] < #[trigger] set[j]
    &&& forall|p: u16| set.contains(p) == ports.contains(p)
}

/// `ports` in rising order, each one once.
pub fn port_set(ports: &[u16]) -> (set: Vec<u16>)
    ensures
        is_port_set(set@, ports@),
{
    let mut copy: Vec<u16> = Vec::new();
    copy.extend_from_slice(ports);
    assert(copy@ =~= ports@);
    let sorted: Vec<u16> = merge_sort(copy);
    proof {
        broadcast use vstd::seq_lib::group_to_multiset_ensures;

        lemma_sorted_keys(ports@);
        assert(keys(sorted@) =~= sorted@);
        assert(keys(ports@) =~= ports@);
        assert forall|a: int, b: int| 0 <= a < b < sorted@.len() implies #[trigger] sorted@[a]
            <= #[trigger] sorted@[b] by {
            let le = order::<u16>();
            assert(le(sorted_keys(ports@)[a], sorted_keys(ports@)[b]));
        }
        assert forall|p: u16| sorted@.contains(p) == ports@.contains(p) by {
            assert(sorted@.to_multiset().contains(p) == ports@.to_multiset().contains(p));
        }
    }
    let mut set: Vec<u16> = Vec::new();
    let mut i: usize = 0;
    while i < sorted.len()
        invariant
            i <= sorted@.len(),
            forall|a: int, b: int| 0 <= a < b < sorted@.len() ==> #[trigger] sorted@[a] <= #[trigger] sorted@[b],
            forall|a: int, b: int| 0 <= a < b < set@.len() ==> #[trigger] set@[a] < #[trigger] set@[b],
            i == 0 ==> set@.len() == 0,
            i > 0 ==> set@.len() > 0 && set@.last() == sorted@[i - 1],
            forall|p: u16| set@.contains(p) == sorted@.take(i as int).contains(p),
        decreases sorted@.len() - i,
    {
        let p: u16 = sorted[i];
        let ghost before = set@;
        if i == 0 || sorted[i - 1] != p {
            set.push(p);
        }
        i = i + 1;
        assert forall|q: u16| set@.contains(q) == sorted@.take(i as int).contains(q) by {
            let front = sorted@.take(i - 1);
            let all = sorted@.take(i as int);
            assert(all =~= front.push(p));
            if front.contains(q) {
                let k = choose|k: int| 0 <= k < front.len() && front[k] == q;
                assert(all[k] == q);
            }
            if before.contains(q) {
                let k = choose|k: int| 0 <= k < before.len() && before[k] == q;
                assert(set@[k] == q);
            }
            assert(all[i - 1] == p);
            assert(set@[set@.len() - 1] == p);
        }
    }
    assert(sorted@.take(i as int) =~= sorted@);
    set
}

/// The name of the file that hits are added to.
pub const DEFAULT_HITS_FILE: &'static str = "servers.txt";

/// What is known of a bandwidth limit without floating point.
#[derive(Clone, Copy, Debug, PartialEq, Eq, Structural)]
pub enum Mbps {
    Unset,
    /// Zero, below zero or not a number.
    NotPositive,
    Positive,
}

/// The settings of a scan. Paths stand as the text that is shown of them.
#[derive(Debug)]
pub struct ScanConfig {
    pub rate: Option<u64>,
    pub mbps: Mbps,
    pub ports: Vec<u16>,
    pub ranges: Vec<String>,
    pub excludes: Vec<String>,
    pub exclude_files: Vec<String>,
    pub include_reserved: bool,
    pub state: String,
    pub no_state: bool,
    pub fresh: bool,
    pub source_ip: Option<u32>,
    pub source_port: u16,
    pub timeout_ms: u64,
    pub connect: usize,
    pub ping: usize,
    pub min_players: i32,
    pub seed: Option<u64>,
    pub skip: u64,
    pub cooldown_ms: u64,
    pub tcp: bool,
    pub quiet: bool,
    pub hits_file: String,
}

/// The settings of a scan, with texts as characters.
pub struct ConfigView {
    pub rate: Option<u64>,
    pub mbps: Mbps,
    pub ports: Seq<u16>,
    pub ranges: Seq<Seq<char>>,
    pub excludes: Seq<Seq<char>>,
    pub exclude_files: Seq<Seq<char>>,
    pub include_reserved: bool,
    pub state: Seq<char>,
    pub no_state: bool,
    pub fresh: bool,
    pub source_ip: Option<u32>,
    pub source_port: u16,
    pub timeout_ms: u64,
    pub connect: usize,
    pub ping: usize,
    pub min_players: i32,
    pub seed: Option<u64>,
    pub skip: u64,
    pub cooldown_ms: u64,
    pub tcp: bool,
    pub quiet: bool,
    pub hits_file: Seq<char>,
}

impl View for ScanConfig {
    type V = ConfigView;

    open spec fn view(&self) -> ConfigView {
        ConfigView {
            rate: self.rate,
            mbps: self.mbps,
            ports: self.ports@,
            ranges: texts(self.ranges@),
            excludes: texts(self.excludes@),
            exclude_files: texts(self.exclude_files@),
            include_reserved: self.include_reserved,
            state: self.state@,
            no_state: self.no_state,
            fresh: self.fresh,
            source_ip: self.source_ip,
            source_port: self.source_port,
            timeout_ms: self.timeout_ms,
            connect: self.connect,
            ping: self.ping,
            min_players: self.min_players,
            seed: self.seed,
            skip: self.skip,
            cooldown_ms: self.cooldown_ms,
            tcp: self.tcp,
            quiet: self.quiet,
            hits_file: self.hits_file@,
        }
    }
}

/// The settings of a scan that nobody has asked anything of.
pub open spec fn default_config() -> ConfigView {
    ConfigView {
        rate: None,
        mbps: Mbps::Unset,
        ports: seq![25565u16],
        ranges: Seq::empty(),
        excludes: Seq::empty(),
        exclude_files: Seq::empty(),
        include_reserved: false,
        state: "mc-scan.state"@,
        no_state: false,
        fresh: false,
        source_ip: None,
        source_port: DEFAULT_SRC_PORT,
        timeout_ms: 1500,
        connect: 16384,
        ping: 1024,
        min_players: 1,
        seed: None,
        skip: 0,
        cooldown_ms: 12000,
        tcp: false,
        quiet: false,
        hits_file: DEFAULT_HITS_FILE@,
    }
}

impl Default for ScanConfig {
    fn default() -> (c: Self)
        ensures
            c@ == default_config(),
    {
        let ports: Vec<u16> = vec![25565];
        let c: ScanConfig = ScanConfig {
            rate: None,
            mbps: Mbps::Unset,
            ports,
            ranges: Vec::new(),
            excludes: Vec::new(),
            exclude_files: Vec::new(),
            include_reserved: false,
            state: "mc-scan.state".to_string(),
            no_state: false,
            fresh: false,
            source_ip: None,
            source_port: DEFAULT_SRC_PORT,
            timeout_ms: 1500,
            connect: 16384,
            ping: 1024,
            min_players: 1,
            seed: None,
            skip: 0,
            cooldown_ms: 12000,
            tcp: false,
            quiet: false,
            hits_file: DEFAULT_HITS_FILE.to_string(),
        };
        assert(c.ports@ =~= seq![25565u16]);
        assert(texts(c.ranges@) =~= Seq::empty());
        assert(texts(c.excludes@) =~= Seq::empty());
        assert(texts(c.exclude_files@) =~= Seq::empty());
        c
    }
}

/// A copy of a list of texts.
pub fn clone_texts(v: &Vec<String>) -> (r: Vec<String>)
    ensures
        r@ == v@,
{
    let mut out: Vec<String> = Vec::new();
    let mut i: usize = 0;
    while i < v.len()
        invariant
            i <= v@.len(),
            out@ == v@.take(i as int),
        decreases v@.len() - i,
    {
        out.push(v[i].clone());
        i = i + 1;
        assert(out@ =~= v@.take(i as int));
    }
    assert(v@.take(i as int) =~= v@);
    out
}

impl Clone for ScanConfig {
    fn clone(&self) -> (c: Self)
        ensures
            c@ == self@,
    {
        ScanConfig {
            rate: self.rate,
            mbps: self.mbps,
            ports: slice_to_vec(self.ports.as_slice()),
            ranges: clone_texts(&self.ranges),
            excludes: clone_texts(&self.excludes),
            exclude_files: clone_texts(&self.exclude_files),
            include_reserved: self.include_reserved,
            state: self.state.clone(),
            no_state: self.no_state,
            fresh: self.fresh,
            source_ip: self.source_ip,
            source_port: self.source_port,
            timeout_ms: self.timeout_ms,
            connect: self.connect,
            ping: self.ping,
            min_players: self.min_players,
            seed: self.seed,
            skip: self.skip,
            cooldown_ms: self.cooldown_ms,
            tcp: self.tcp,
            quiet: self.quiet,
            hits_file: self.hits_file.clone(),
        }
    }
}

/// What came of reading a file of excluded blocks.
#[derive(Debug, PartialEq, Eq)]
pub enum ExcludeFile {
    /// It could not be read; why.
    Unreadable(String),
    /// What it holds.
    Text(String),
}

/// Why the excluded blocks cannot be told.
#[derive(Debug, PartialEq, Eq)]
pub enum ExtraError {
    /// A word given to `--exclude` is no CIDR block.
    Exclude { word: String, cause: CidrError },
    /// A file cannot be read.
    Unreadable(String),
    /// A line of a file is wrong.
    File(ExcludeError),
}

/// An error in the excluded blocks, with texts as characters.
pub enum ExtraFault {
    Exclude { word: Seq<char>, cause: CidrError },
    Unreadable(Seq<char>),
    File { line: nat, word: Seq<char>, cause: CidrError },
}

impl View for ExtraError {
    type V = ExtraFault;

    open spec fn view(&self) -> ExtraFault {
        match *self {
            ExtraError::Exclude { word, cause } => ExtraFault::Exclude { word: word@, cause },
            ExtraError::Unreadable(why) => ExtraFault::Unreadable(why@),
            ExtraError::File(e) => ExtraFault::File {
                line: e.line as nat,
                word: e.word@,
                cause: e.cause,
            },
        }
    }
}

impl ExtraFault {
    pub open spec fn full_message(self) -> Seq<char> {
        match self {
            ExtraFault::Exclude { word, cause } => "--exclude "@ + word + ": "@ + cause.message_spec(),
            ExtraFault::Unreadable(why) => why,
            ExtraFault::File { line, word, cause } => "exclude line "@ + dec(line) + ": "@ + word + ": "@
                + cause.message_spec(),
        }
    }
}

impl ExtraError {
    /// What to tell the user, with the cause behind it.
    pub fn full_message(&self) -> (r: String)
        ensures
            r@ == self@.full_message(),
    {
        match self {
            ExtraError::Exclude { word, cause } => {
                let mut out: String = "--exclude ".to_string();
                out.append(word.as_str());
                out.append(": ");
                let cause: String = cause.message();
                out.append(cause.as_str());
                out
            },
            ExtraError::Unreadable(why) => why.clone(),
            ExtraError::File(e) => e.full_message(),
        }
    }
}

/// The blocks given to `--exclude`, or the first word that is none.
pub open spec fn named_excludes(words: Seq<String>) -> Result<Seq<Window>, ExtraFault>
    decreases words.len(),
{
    if words.len() == 0 {
        Ok(Seq::empty())
    } else {
        match named_excludes(words.drop_last()) {
            Err(e) => Err(e),
            Ok(ws) => match cidr_spec(words.last()@) {
                Ok(w) => Ok(ws.push(w)),
                Err(cause) => Err(ExtraFault::Exclude { word: words.last()@, cause }),
            },
        }
    }
}

/// The blocks that one file lists.
pub open spec fn one_file(file: ExcludeFile) -> Result<Seq<Window>, ExtraFault> {
    match file {
        ExcludeFile::Unreadable(why) => Err(ExtraFault::Unreadable(why@)),
        ExcludeFile::Text(text) => match exclude_text_spec(text@) {
            Ok(ws) => Ok(merge_spec(ws)),
            Err((line, word, cause)) => Err(ExtraFault::File { line, word, cause }),
        },
    }
}

/// The blocks that the files list, or what is wrong with the first bad file.
pub open spec fn filed_excludes(files: Seq<ExcludeFile>) -> Result<Seq<Window>, ExtraFault>
    decreases files.len(),
{
    if files.len() == 0 {
        Ok(Seq::empty())
    } else {
        match filed_excludes(files.drop_last()) {
            Err(e) => Err(e),
            Ok(ws) => match one_file(files.last()) {
                Ok(more) => Ok(ws + more),
                Err(e) => Err(e),
            },
        }
    }
}

/// All blocks that are left out, besides the reserved ones: those named and those in files.
pub open spec fn extra_spec(words: Seq<String>, files: Seq<ExcludeFile>) -> Result<
    Seq<Window>,
    ExtraFault,
> {
    match named_excludes(words) {
        Err(e) => Err(e),
        Ok(named) => match filed_excludes(files) {
            Err(e) => Err(e),
            Ok(filed) => Ok(merge_spec(named + filed)),
        },
    }
}

proof fn lemma_named_prefix_err(words: Seq<String>, n: int)
    requires
        0 <= n <= words.len(),
        named_excludes(words.take(n)) is Err,
    ensures
        named_excludes(words) == named_excludes(words.take(n)),
    decreases words.len(),
{
    if n < words.len() {
        assert(words.drop_last().take(n) =~= words.take(n));
        lemma_named_prefix_err(words.drop_last(), n);
    } else {
        assert(words.take(n) =~= words);
    }
}

proof fn lemma_filed_prefix_err(files: Seq<ExcludeFile>, n: int)
    requires
        0 <= n <= files.len(),
        filed_excludes(files.take(n)) is Err,
    ensures
        filed_excludes(files) == filed_excludes(files.take(n)),
    decreases files.len(),
{
    if n < files.len() {
        assert(files.drop_last().take(n) =~= files.take(n));
        lemma_filed_prefix_err(files.drop_last(), n);
    } else {
        assert(files.take(n) =~= files);
    }
}

/// All blocks that are left out, besides the reserved ones.
pub fn load_extra_excludes(words: &[String], files: &[ExcludeFile]) -> (r: Result<
    Vec<Window>,
    ExtraError,
>)
    ensures
        match r {
            Ok(ws) => extra_spec(words@, files@) == Ok::<Seq<Window>, ExtraFault>(ws@),
            Err(e) => extra_spec(words@, files@) == Err::<Seq<Window>, ExtraFault>(e@),
        },
{
    let mut extra: Vec<Window> = Vec::new();
    let mut i: usize = 0;
    while i < words.len()
        invariant
            i <= words@.len(),
            named_excludes(words@.take(i as int)) == Ok::<Seq<Window>, ExtraFault>(extra@),
        decreases words@.len() - i,
    {
        assert(words@.take(i + 1).drop_last() =~= words@.take(i as int));
        assert(words@.take(i + 1).last() == words@[i as int]);
        match parse_cidr(words[i].as_str()) {
            Ok(w) => {
                extra.push(w);
            },
            Err(cause) => {
                proof {
                    lemma_named_prefix_err(words@, i + 1);
                }
                return Err(ExtraError::Exclude { word: words[i].clone(), cause });
            },
        }
        i = i + 1;
    }
    assert(words@.take(i as int) =~= words@);
    let ghost named = extra@;
    let mut i: usize = 0;
    assert(extra@ =~= named + Seq::<Window>::empty());
    while i < files.len()
        invariant
            i <= files@.len(),
            named_excludes(words@) == Ok::<Seq<Window>, ExtraFault>(named),
            filed_excludes(files@.take(i as int)) matches Ok(filed) && extra@ == named + filed,
        decreases files@.len() - i,
    {
        let ghost filed = filed_excludes(files@.take(i as int))->Ok_0;
        assert(files@.take(i + 1).drop_last() =~= files@.take(i as int));
        assert(files@.take(i + 1).last() == files@[i as int]);
        match &files[i] {
            ExcludeFile::Unreadable(why) => {
                proof {
                    lemma_filed_prefix_err(files@, i + 1);
                }
                return Err(ExtraError::Unreadable(why.clone()));
            },
            ExcludeFile::Text(text) => match parse_exclude_text(text.as_str()) {
                Ok(ws) => {
                    let mut more: Vec<Window> = ws;
                    let ghost m = more@;
                    extra.append(&mut more);
                    assert(extra@ =~= named + (filed + m));
                },
                Err(e) => {
                    proof {
                        lemma_filed_prefix_err(files@, i + 1);
                    }
                    return Err(ExtraError::File(e));
                },
            },
        }
        i = i + 1;
    }
    assert(files@.take(i as int) =~= files@);
    Ok(merge(extra))
}

/// What came of reading the state file.
#[derive(Debug, PartialEq, Eq)]
pub enum StateFile {
    /// There is none.
    Missing,
    /// It could not be read; why.
    Unreadable(String),
    /// What it holds.
    Text(String),
}

/// Where a scan begins.
#[derive(Debug, PartialEq, Eq)]
pub struct Resume {
    /// The seed of the shuffle.
    pub seed: u64,
    /// How many addresses of the shuffle are passed over.
    pub skip: u64,
    /// An earlier scan goes on.
    pub resumed: bool,
    /// The state file is to be removed.
    pub clear: bool,
    /// What to tell the user.
    pub notice: Option<String>,
}

/// Where a scan begins, with texts as characters.
pub struct ResumeView {
    pub seed: u64,
    pub skip: u64,
    pub resumed: bool,
    pub clear: bool,
    pub notice: Option<Seq<char>>,
}

impl View for Resume {
    type V = ResumeView;

    open spec fn view(&self) -> ResumeView {
        ResumeView {
            seed: self.seed,
            skip: self.skip,
            resumed: self.resumed,
            clear: self.clear,
            notice: text_of(self.notice),
        }
    }
}

/// Where a scan begins when no state file has a say. A fresh start drops the state file, unless
/// the state file is to be ignored.
pub open spec fn fresh_start(cfg: ConfigView, fresh_seed: u64) -> ResumeView {
    ResumeView {
        seed: match cfg.seed {
            Some(seed) => seed,
            None => fresh_seed,
        },
        skip: cfg.skip,
        resumed: false,
        clear: cfg.fresh && !cfg.no_state,
        notice: None,
    }
}

pub open spec fn ignoring(state: Seq<char>, why: Seq<char>) -> Seq<char> {
    "ignoring unreadable state "@ + state + ": "@ + why
}

/// Where a scan begins when the state file holds a checkpoint: where the checkpoint says, if it is
/// of the same job and of no other seed than the one asked for. A job that was finished begins
/// anew. `--skip` overrides all that the checkpoint says of the place.
pub open spec fn from_checkpoint(
    cfg: ConfigView,
    c: Checkpoint,
    fingerprint: u64,
    total: u64,
    fresh_seed: u64,
) -> ResumeView {
    let start = fresh_start(cfg, fresh_seed);
    if c.fingerprint != fingerprint || c.total != total {
        ResumeView {
            notice: Some(
                "state "@ + cfg.state + " is for a different range/port set; starting fresh"@,
            ),
            ..start
        }
    } else if cfg.seed is Some && cfg.seed != Some(c.seed) {
        ResumeView {
            notice: Some(
                "state "@ + cfg.state + " has seed "@ + dec(c.seed as nat)
                    + " (this run --seed Some("@ + dec(cfg.seed->0 as nat) + ")); starting fresh"@,
            ),
            ..start
        }
    } else if cfg.skip != 0 {
        ResumeView {
            seed: c.seed,
            skip: cfg.skip,
            resumed: cfg.skip < total,
            clear: false,
            notice: None,
        }
    } else if c.index >= total {
        ResumeView {
            skip: 0,
            clear: true,
            notice: Some("state "@ + cfg.state + " already finished this job; starting over"@),
            ..start
        }
    } else {
        ResumeView {
            seed: c.seed,
            skip: c.index,
            resumed: c.index > 0,
            clear: false,
            notice: None,
        }
    }
}

/// Where a scan begins.
pub open spec fn resume_spec(
    cfg: ConfigView,
    file: StateFile,
    fingerprint: u64,
    total: u64,
    fresh_seed: u64,
) -> ResumeView {
    let start = fresh_start(cfg, fresh_seed);
    if cfg.no_state || cfg.fresh {
        start
    } else {
        match file {
            StateFile::Missing => start,
            StateFile::Unreadable(why) => ResumeView {
                notice: Some(ignoring(cfg.state, why@)),
                ..start
            },
            StateFile::Text(text) => match parse_spec(text@) {
                Err(e) => ResumeView {
                    notice: Some(ignoring(cfg.state, e.message_spec())),
                    ..start
                },
                Ok(c) => from_checkpoint(cfg, c, fingerprint, total, fresh_seed),
            },
        }
    }
}

fn ignoring_text(state: &str, why: &str) -> (r: String)
    ensures
        r@ == ignoring(state@, why@),
{
    let mut out: String = "ignoring unreadable state ".to_string();
    out.append(state);
    out.append(": ");
    out.append(why);
    out
}

fn resume_from(cfg: &ScanConfig, c: Checkpoint, fingerprint: u64, total: u64, start: Resume) -> (r:
    Resume)
    requires
        exists|fresh_seed: u64| start@ == #[trigger] fresh_start(cfg@, fresh_seed),
        !cfg.fresh,
    ensures
        forall|fresh_seed: u64|
            start@ == #[trigger] fresh_start(cfg@, fresh_seed) ==> r@ == from_checkpoint(
                cfg@,
                c,
                fingerprint,
                total,
                fresh_seed,
            ),
{
    let mut notice: String = "state ".to_string();
    notice.append(cfg.state.as_str());
    if c.fingerprint != fingerprint || c.total != total {
        notice.append(" is for a different range/port set; starting fresh");
        return Resume { notice: Some(notice), ..start };
    }
    if let Some(seed) = cfg.seed {
        if seed != c.seed {
            notice.append(" has seed ");
            push_dec(&mut notice, c.seed);
            notice.append(" (this run --seed Some(");
            push_dec(&mut notice, seed);
            notice.append(")); starting fresh");
            return Resume { notice: Some(notice), ..start };
        }
    }
    if cfg.skip != 0 {
        return Resume {
            seed: c.seed,
            skip: cfg.skip,
            resumed: cfg.skip < total,
            clear: false,
            notice: None,
        };
    }
    if c.index >= total {
        notice.append(" already finished this job; starting over");
        return Resume { skip: 0, clear: true, notice: Some(notice), ..start };
    }
    Resume { seed: c.seed, skip: c.index, resumed: c.index > 0, clear: false, notice: None }
}

/// Works out where a scan begins.
pub fn resume(
    cfg: &ScanConfig,
    file: &StateFile,
    fingerprint: u64,
    total: u64,
    fresh_seed: u64,
) -> (r: Resume)
    ensures
        r@ == resume_spec(cfg@, *file, fingerprint, total, fresh_seed),
{
    let seed: u64 = match cfg.seed {
        Some(seed) => seed,
        None => fresh_seed,
    };
    let start: Resume = Resume {
        seed,
        skip: cfg.skip,
        resumed: false,
        clear: cfg.fresh && !cfg.no_state,
        notice: None,
    };
    assert(start@ == fresh_start(cfg@, fresh_seed));
    if cfg.no_state || cfg.fresh {
        return start;
    }
    match file {
        StateFile::Missing => start,
        StateFile::Unreadable(why) => Resume {
            notice: Some(ignoring_text(cfg.state.as_str(), why.as_str())),
            ..start
        },
        StateFile::Text(text) => match parse(text.as_str()) {
            Err(e) => Resume {
                notice: Some(ignoring_text(cfg.state.as_str(), e.message())),
                ..start
            },
            Ok(c) => resume_from(cfg, c, fingerprint, total, start),
        },
    }
}

/// How fast packets leave.
#[derive(Clone, Copy, Debug, PartialEq, Eq, Structural)]
pub enum Rate {
    /// So many a second.
    Pps(u64),
    /// As many as the bandwidth limit allows.
    FromMbps,
}

/// How fast packets leave for a range of `addrs` addresses, and whether that is a cap: a small
/// range is scanned at no more than 8000 packets a second unless a rate was asked for.
pub open spec fn rate_spec(cfg: ConfigView, addrs: u64) -> (Rate, bool) {
    let asked = match cfg.rate {
        Some(rate) => rate,
        None => 300_000,
    };
    let rate = if asked == 0 {
        1
    } else {
        asked
    };
    if cfg.mbps == Mbps::Positive {
        (Rate::FromMbps, false)
    } else if cfg.rate is None && cfg.mbps == Mbps::Unset && 0 < addrs < 2_000_000 && rate > 8_000 {
        (Rate::Pps(8_000), true)
    } else {
        (Rate::Pps(rate), false)
    }
}

/// How fast packets leave for a range of `addrs` addresses, and whether that is a cap.
pub fn plan_rate(cfg: &ScanConfig, addrs: u64) -> (r: (Rate, bool))
    ensures
        r == rate_spec(cfg@, addrs),
{
    let asked: u64 = match cfg.rate {
        Some(rate) => rate,
        None => 300_000,
    };
    let rate: u64 = if asked == 0 {
        1
    } else {
        asked
    };
    if cfg.mbps == Mbps::Positive {
        (Rate::FromMbps, false)
    } else if cfg.rate.is_none() && cfg.mbps == Mbps::Unset && 0 < addrs && addrs < 2_000_000
        && rate > 8_000 {
        (Rate::Pps(8_000), true)
    } else {
        (Rate::Pps(rate), false)
    }
}

/// Why a scan cannot begin.
#[derive(Debug, PartialEq, Eq)]
pub enum PrepareError {
    Extra(ExtraError),
    Space(SpaceError),
    NoPort,
    PortZero,
    SkipTooFar { skip: u64, total: u64 },
}

/// Why a scan cannot begin, with texts as characters.
pub enum PrepareFault {
    Extra(ExtraFault),
    Space(SpaceError),
    NoPort,
    PortZero,
    SkipTooFar { skip: u64, total: u64 },
}

impl View for PrepareError {
    type V = PrepareFault;

    open spec fn view(&self) -> PrepareFault {
        match *self {
            PrepareError::Extra(e) => PrepareFault::Extra(e@),
            PrepareError::Space(e) => PrepareFault::Space(e),
            PrepareError::NoPort => PrepareFault::NoPort,
            PrepareError::PortZero => PrepareFault::PortZero,
            PrepareError::SkipTooFar { skip, total } => PrepareFault::SkipTooFar { skip, total },
        }
    }
}

impl PrepareFault {
    pub open spec fn full_message(self) -> Seq<char> {
        match self {
            PrepareFault::Extra(e) => e.full_message(),
            PrepareFault::Space(e) => "building address space: "@ + e.full_message_spec(),
            PrepareFault::NoPort => "need at least one port"@,
            PrepareFault::PortZero => "port 0 is invalid"@,
            PrepareFault::SkipTooFar { skip, total } => "--skip "@ + dec(skip as nat) + " is past the "@
                + dec(total as nat) + " address space"@,
        }
    }
}

impl PrepareError {
    /// What to tell the user, with the causes behind it.
    pub fn full_message(&self) -> (r: String)
        ensures
            r@ == self@.full_message(),
    {
        match self {
            PrepareError::Extra(e) => e.full_message(),
            PrepareError::Space(e) => {
                let mut out: String = "building address space: ".to_string();
                let cause: String = e.full_message();
                out.append(cause.as_str());
                out
            },
            PrepareError::NoPort => "need at least one port".to_string(),
            PrepareError::PortZero => "port 0 is invalid".to_string(),
            PrepareError::SkipTooFar { skip, total } => {
                let mut out: String = "--skip ".to_string();
                push_dec(&mut out, *skip);
                out.append(" is past the ");
                push_dec(&mut out, *total);
                out.append(" address space");
                out
            },
        }
    }
}

/// All that a scan is run with.
pub struct RunOpts {
    pub cfg: ScanConfig,
    pub space: AddrSpace,
    pub ports: Vec<u16>,
    pub rate: Rate,
    pub seed: u64,
    pub skip: u64,
    pub fingerprint: u64,
    pub total_pkts: u64,
    pub throttled: bool,
    pub resumed: bool,
}

/// What came of preparing a scan. The state file may have to go even where the scan cannot begin.
pub struct Prepared {
    pub clear_state: bool,
    pub notice: Option<String>,
    pub result: Result<RunOpts, PrepareError>,
}

/// There is something to scan.
pub open spec fn anything_wanted(
    includes: Seq<Window>,
    excludes: Seq<Window>,
    no_reserved: bool,
) -> bool {
    exists|x: u32| #[trigger] wanted(includes, excludes, no_reserved, x)
}

/// `ws` are the windows, in canonical form, of the addresses to scan.
pub open spec fn is_space(
    ws: Seq<Window>,
    includes: Seq<Window>,
    excludes: Seq<Window>,
    no_reserved: bool,
) -> bool {
    &&& canonical(ws)
    &&& forall|x: u32| #[trigger] covers(ws, x) == wanted(includes, excludes, no_reserved, x)
}

/// The windows of the addresses to scan.
pub open spec fn space_windows(
    includes: Seq<Window>,
    excludes: Seq<Window>,
    no_reserved: bool,
) -> Seq<Window> {
    choose|ws: Seq<Window>| is_space(ws, includes, excludes, no_reserved)
}

/// There are windows of the addresses to scan, and they cover those addresses.
pub proof fn space_windows_cover(includes: Seq<Window>, excludes: Seq<Window>, no_reserved: bool)
    ensures
        is_space(
            space_windows(includes, excludes, no_reserved),
            includes,
            excludes,
            no_reserved,
        ),
{
    let ws = canonical_form_exists(|x: u32| wanted(includes, excludes, no_reserved, x));
    assert(is_space(ws, includes, excludes, no_reserved));
}

/// The ports in rising order, each one once.
pub open spec fn ports_in_order(ports: Seq<u16>) -> Seq<u16> {
    choose|set: Seq<u16>| is_port_set(set, ports)
}

proof fn lemma_port_set_front(set: Seq<u16>, p: u16)
    requires
        set.len() > 0,
        forall|i: int, j: int| 0 <= i < j < set.len() ==> #[trigger] set[i] < #[trigger] set[j],
    ensures
        set.drop_last().contains(p) == (set.contains(p) && p < set.last()),
        set.contains(p) ==> p <= set.last(),
{
    let front = set.drop_last();
    if front.contains(p) {
        let k = choose|k: int| 0 <= k < front.len() && front[k] == p;
        assert(set[k] == p);
        assert(set[k] < set[set.len() - 1]);
    }
    if set.contains(p) {
        let k = choose|k: int| 0 <= k < set.len() && set[k] == p;
        if k < set.len() - 1 {
            assert(front[k] == p);
            assert(set[k] < set[set.len() - 1]);
        }
    }
}

/// A set of ports is in rising order in one way only.
pub proof fn port_set_is_unique(a: Seq<u16>, b: Seq<u16>, ports: Seq<u16>)
    requires
        is_port_set(a, ports),
        is_port_set(b, ports),
    ensures
        a == b,
{
    lemma_rising_unique(a, b);
}

proof fn lemma_rising_unique(a: Seq<u16>, b: Seq<u16>)
    requires
        forall|i: int, j: int| 0 <= i < j < a.len() ==> #[trigger] a[i] < #[trigger] a[j],
        forall|i: int, j: int| 0 <= i < j < b.len() ==> #[trigger] b[i] < #[trigger] b[j],
        forall|p: u16| a.contains(p) == b.contains(p),
    ensures
        a == b,
    decreases a.len(),
{
    if a.len() == 0 || b.len() == 0 {
        if a.len() > 0 {
            assert(a.contains(a[0]));
        }
        if b.len() > 0 {
            assert(b.contains(b[0]));
        }
        assert(a =~= b);
    } else {
        assert(a.contains(a[a.len() - 1]) && b.contains(b[b.len() - 1]));
        lemma_port_set_front(b, a.last());
        lemma_port_set_front(a, b.last());
        assert forall|p: u16| a.drop_last().contains(p) == b.drop_last().contains(p) by {
            lemma_port_set_front(a, p);
            lemma_port_set_front(b, p);
        }
        lemma_rising_unique(a.drop_last(), b.drop_last());
        assert(a =~= a.drop_last().push(a.last()));
        assert(b =~= b.drop_last().push(b.last()));
    }
}

/// What is the same for every scan of one job: the addresses, the ports and the number that tells
/// the job from others.
pub struct Job {
    pub windows: Seq<Window>,
    pub ports: Seq<u16>,
    pub total: u64,
    pub fingerprint: u64,
}

/// The job that the settings describe, or why they describe none.
pub open spec fn job_spec(cfg: ScanConfig, files: Seq<ExcludeFile>) -> Result<Job, PrepareFault> {
    let no_reserved = !cfg.include_reserved;
    match extra_spec(cfg.excludes@, files) {
        Err(e) => Err(PrepareFault::Extra(e)),
        Ok(extra) => match includes_spec(cfg.ranges@) {
            Err(e) => Err(PrepareFault::Space(SpaceError::Cidr(e))),
            Ok(includes) => if !anything_wanted(includes, extra, no_reserved) {
                Err(PrepareFault::Space(SpaceError::NothingLeft { reserved: no_reserved }))
            } else if cfg.ports@.len() == 0 {
                Err(PrepareFault::NoPort)
            } else if cfg.ports@.contains(0) {
                Err(PrepareFault::PortZero)
            } else {
                let windows = space_windows(includes, extra, no_reserved);
                let ports = ports_in_order(cfg.ports@);
                let total = count(windows) as u64;
                Ok(
                    Job {
                        windows,
                        ports,
                        total,
                        fingerprint: hash_spec(
                            job_bytes(cfg.ranges@, extra, ports, no_reserved, total),
                        ),
                    },
                )
            },
        },
    }
}

/// Whatever the shuffle, a scan goes to no other address than those in the named ranges, and to
/// none that is excluded or, unless they are asked for, reserved.
pub proof fn scan_stays_inside(cfg: ScanConfig, files: Seq<ExcludeFile>, stride: nat, n: nat)
    requires
        job_spec(cfg, files) is Ok,
        n < count(job_spec(cfg, files)->Ok_0.windows),
    ensures
        ({
            let x = step_spec(job_spec(cfg, files)->Ok_0.windows, n, stride);
            &&& covers(includes_spec(cfg.ranges@)->Ok_0, x)
            &&& !covers(extra_spec(cfg.excludes@, files)->Ok_0, x)
            &&& !cfg.include_reserved ==> !covers(reserved_blocks(), x)
        }),
{
    let job = job_spec(cfg, files)->Ok_0;
    let includes = includes_spec(cfg.ranges@)->Ok_0;
    let extra = extra_spec(cfg.excludes@, files)->Ok_0;
    let no_reserved = !cfg.include_reserved;
    space_windows_cover(includes, extra, no_reserved);
    lemma_permuted_in_range(n, stride, count(job.windows));
    nth_is_covered(job.windows, permuted(n, stride, count(job.windows)));
    let x = step_spec(job.windows, n, stride);
    assert(covers(job.windows, x) == wanted(includes, extra, no_reserved, x));
}

/// The addresses and ports of a job.
pub struct Plan {
    pub space: AddrSpace,
    pub ports: Vec<u16>,
    pub fingerprint: u64,
}

impl Plan {
    pub open spec fn does(&self, job: Job) -> bool {
        &&& self.space.wf()
        &&& self.space@ == job.windows
        &&& self.space.total == job.total
        &&& self.ports@ == job.ports
        &&& self.fingerprint == job.fingerprint
    }
}

fn build_space(cfg: &ScanConfig, extra: &[Window]) -> (r: Result<AddrSpace, SpaceError>)
    ensures
        match includes_spec(cfg.ranges@) {
            Err(e) => r matches Err(SpaceError::Cidr(got)) && got == e,
            Ok(includes) => match r {
                Ok(space) => {
                    &&& anything_wanted(includes, extra@, !cfg.include_reserved)
                    &&& space.wf()
                    &&& space@ == space_windows(includes, extra@, !cfg.include_reserved)
                },
                Err(e) => {
                    &&& !anything_wanted(includes, extra@, !cfg.include_reserved)
                    &&& e == (SpaceError::NothingLeft { reserved: !cfg.include_reserved })
                },
            },
        },
{
    let no_reserved: bool = !cfg.include_reserved;
    match AddrSpace::from_cidrs(cfg.ranges.as_slice(), extra, no_reserved) {
        Ok(space) => {
            proof {
                let includes = includes_spec(cfg.ranges@)->Ok_0;
                let x = space@[0].0;
                assert(space@[0].0 <= x <= space@[0].1);
                assert(covers(space@, x));
                assert(wanted(includes, extra@, no_reserved, x));
                assert(is_space(space@, includes, extra@, no_reserved));
                let ws = space_windows(includes, extra@, no_reserved);
                assert forall|x: u32| covers(ws, x) == covers(space@, x) by {
                    assert(covers(ws, x) == wanted(includes, extra@, no_reserved, x));
                }
                canonical_is_unique(ws, space@);
            }
            Ok(space)
        },
        Err(e) => Err(e),
    }
}

/// Works out the addresses and ports of the job that the settings describe.
pub fn plan_job(cfg: &ScanConfig, files: &[ExcludeFile]) -> (r: Result<Plan, PrepareError>)
    ensures
        match r {
            Ok(plan) => job_spec(*cfg, files@) matches Ok(job) && plan.does(job),
            Err(e) => job_spec(*cfg, files@) == Err::<Job, PrepareFault>(e@),
        },
{
    let extra: Vec<Window> = match load_extra_excludes(cfg.excludes.as_slice(), files) {
        Ok(extra) => extra,
        Err(e) => return Err(PrepareError::Extra(e)),
    };
    let space: AddrSpace = match build_space(cfg, extra.as_slice()) {
        Ok(space) => space,
        Err(e) => return Err(PrepareError::Space(e)),
    };
    if cfg.ports.len() == 0 {
        return Err(PrepareError::NoPort);
    }
    let ports: Vec<u16> = port_set(cfg.ports.as_slice());
    proof {
        port_set_is_unique(ports@, ports_in_order(cfg.ports@), cfg.ports@);
    }
    if contains_port(ports.as_slice(), 0) {
        return Err(PrepareError::PortZero);
    }
    let fingerprint: u64 = job_fingerprint(
        cfg.ranges.as_slice(),
        extra.as_slice(),
        ports.as_slice(),
        !cfg.include_reserved,
        space.total,
    );
    Ok(Plan { space, ports, fingerprint })
}

/// `a` times `b`, or the largest number where that is larger.
pub open spec fn capped_product(a: nat, b: nat) -> nat {
    if a * b > u64::MAX {
        u64::MAX as nat
    } else {
        a * b
    }
}

fn saturating_product(a: u64, b: usize) -> (r: u64)
    ensures
        r == capped_product(a as nat, b as nat),
{
    assert(a * b <= u64::MAX * u64::MAX) by (nonlinear_arith)
        requires
            a <= u64::MAX,
            b <= u64::MAX,
    ;
    assert(0 <= a * b) by (nonlinear_arith);
    let wide: u128 = a as u128 * b as u128;
    if wide > u64::MAX as u128 {
        u64::MAX
    } else {
        wide as u64
    }
}

/// The settings lead to `opts`, which does job `job` from where `at` says.
pub open spec fn runs_job(opts: RunOpts, cfg: ScanConfig, job: Job, at: ResumeView) -> bool {
    let remaining = (job.total - at.skip) as u64;
    &&& opts.cfg == cfg
    &&& opts.space.wf()
    &&& opts.space@ == job.windows
    &&& opts.space.total == job.total
    &&& opts.ports@ == job.ports
    &&& opts.fingerprint == job.fingerprint
    &&& opts.seed == at.seed
    &&& opts.skip == at.skip
    &&& opts.skip < job.total
    &&& opts.resumed == at.resumed
    &&& (opts.rate, opts.throttled) == rate_spec(cfg@, job.total)
    &&& opts.total_pkts == capped_product(remaining as nat, job.ports.len())
}

/// Works out all that a scan is run with. `files` stands for what the files of excluded blocks
/// hold, `state` for the state file, and `fresh_seed` is the seed of a new shuffle.
pub fn prepare(cfg: ScanConfig, files: &[ExcludeFile], state: &StateFile, fresh_seed: u64) -> (r:
    Prepared)
    ensures
        match job_spec(cfg, files@) {
            Err(e) => {
                &&& r.result matches Err(got) && got@ == e
                &&& !r.clear_state
                &&& r.notice is None
            },
            Ok(job) => {
                let at = resume_spec(cfg@, *state, job.fingerprint, job.total, fresh_seed);
                &&& r.clear_state == at.clear
                &&& text_of(r.notice) == at.notice
                &&& match r.result {
                    Ok(opts) => runs_job(opts, cfg, job, at),
                    Err(e) => at.skip >= job.total && e@ == (PrepareFault::SkipTooFar {
                        skip: at.skip,
                        total: job.total,
                    }),
                }
            },
        },
{
    let Plan { space, ports, fingerprint } = match plan_job(&cfg, files) {
        Ok(plan) => plan,
        Err(e) => {
            return Prepared { clear_state: false, notice: None, result: Err(e) };
        },
    };
    let at: Resume = resume(&cfg, state, fingerprint, space.total, fresh_seed);
    if at.skip >= space.total {
        return Prepared {
            clear_state: at.clear,
            notice: at.notice,
            result: Err(PrepareError::SkipTooFar { skip: at.skip, total: space.total }),
        };
    }
    let remaining: u64 = space.total - at.skip;
    let total_pkts: u64 = saturating_product(remaining, ports.len());
    let (rate, throttled) = plan_rate(&cfg, space.total);
    Prepared {
        clear_state: at.clear,
        notice: at.notice,
        result: Ok(
            RunOpts {
                cfg,
                space,
                ports,
                rate,
                seed: at.seed,
                skip: at.skip,
                fingerprint,
                total_pkts,
                throttled,
                resumed: at.resumed,
            },
        ),
    }
}

proof fn lemma_ports_below(ports: Seq<u16>, m: nat) -> (set: Seq<u16>)
    requires
        m <= 0x1_0000,
    ensures
        forall|i: int, j: int| 0 <= i < j < set.len() ==> #[trigger] set[i] < #[trigger] set[j],
        forall|p: u16| set.contains(p) == (ports.contains(p) && p < m),
    decreases m,
{
    if m == 0 {
        Seq::empty()
    } else {
        let q = (m - 1) as u16;
        let set = lemma_ports_below(ports, (m - 1) as nat);
        if ports.contains(q) {
            let grown = set.push(q);
            assert forall|i: int, j: int| 0 <= i < j < grown.len() implies #[trigger] grown[i]
                < #[trigger] grown[j] by {
                if j == set.len() {
                    assert(set.contains(set[i]));
                }
            }
            assert forall|p: u16| grown.contains(p) == (ports.contains(p) && p < m) by {
                if set.contains(p) {
                    let k = choose|k: int| 0 <= k < set.len() && set[k] == p;
                    assert(grown[k] == p);
                }
                assert(grown[set.len() as int] == q);
                if grown.contains(p) {
                    let k = choose|k: int| 0 <= k < grown.len() && grown[k] == p;
                    if k < set.len() {
                        assert(set[k] == p);
                    }
                }
            }
            grown
        } else {
            set
        }
    }
}

/// Any ports can be put in order.
pub proof fn ports_can_be_ordered(ports: Seq<u16>)
    ensures
        is_port_set(ports_in_order(ports), ports),
{
    let set = lemma_ports_below(ports, 0x1_0000);
    assert(is_port_set(set, ports));
}

/// Neither the order of the ports nor their repetition makes another job.
pub proof fn port_order_is_ignored(a: Seq<u16>, b: Seq<u16>)
    requires
        forall|p: u16| a.contains(p) == b.contains(p),
    ensures
        ports_in_order(a) == ports_in_order(b),
{
    ports_can_be_ordered(a);
    ports_can_be_ordered(b);
    port_set_is_unique(ports_in_order(a), ports_in_order(b), a);
}

/// A scan that was interrupted goes on: with the checkpoint that it wrote, the same job begins
/// where the checkpoint says, with the same shuffle.
pub proof fn saved_scan_resumes(cfg: ConfigView, file: StateFile, c: Checkpoint, fresh_seed: u64)
    requires
        file matches StateFile::Text(text) && text@ == render_spec(c),
        !cfg.no_state && !cfg.fresh,
        cfg.skip == 0,
        cfg.seed is None || cfg.seed == Some(c.seed),
        c.index < c.total,
    ensures
        resume_spec(cfg, file, c.fingerprint, c.total, fresh_seed) == (ResumeView {
            seed: c.seed,
            skip: c.index,
            resumed: c.index > 0,
            clear: false,
            notice: None,
        }),
{
    render_reads_back(c);
}

/// A checkpoint of another job, or with another number of addresses, changes neither seed nor
/// place.
pub proof fn other_job_starts_fresh(
    cfg: ConfigView,
    file: StateFile,
    c: Checkpoint,
    fingerprint: u64,
    total: u64,
    fresh_seed: u64,
)
    requires
        file matches StateFile::Text(text) && text@ == render_spec(c),
        c.fingerprint != fingerprint || c.total != total,
    ensures
        resume_spec(cfg, file, fingerprint, total, fresh_seed).seed == fresh_start(cfg, fresh_seed).seed,
        resume_spec(cfg, file, fingerprint, total, fresh_seed).skip == cfg.skip,
        !resume_spec(cfg, file, fingerprint, total, fresh_seed).resumed,
{
    render_reads_back(c);
}

/// `--skip` overrides the state file, whatever that holds, and does not remove it.
pub proof fn skip_overrides_state(
    cfg: ConfigView,
    file: StateFile,
    fingerprint: u64,
    total: u64,
    fresh_seed: u64,
)
    requires
        cfg.skip > 0,
    ensures
        resume_spec(cfg, file, fingerprint, total, fresh_seed).skip == cfg.skip,
        resume_spec(cfg, file, fingerprint, total, fresh_seed).clear ==> cfg.fresh,
{
}

/// A state file that is to be ignored is neither read nor removed.
pub proof fn ignored_state_is_left_alone(
    cfg: ConfigView,
    file: StateFile,
    other: StateFile,
    fingerprint: u64,
    total: u64,
    fresh_seed: u64,
)
    requires
        cfg.no_state,
    ensures
        !resume_spec(cfg, file, fingerprint, total, fresh_seed).clear,
        resume_spec(cfg, file, fingerprint, total, fresh_seed) == resume_spec(
            cfg,
            other,
            fingerprint,
            total,
            fresh_seed,
        ),
{
}

/// A seed that was asked for is used, whatever the state file holds.
pub proof fn asked_seed_is_used(
    cfg: ConfigView,
    file: StateFile,
    fingerprint: u64,
    total: u64,
    fresh_seed: u64,
)
    requires
        cfg.seed is Some,
    ensures
        Some(resume_spec(cfg, file, fingerprint, total, fresh_seed).seed) == cfg.seed,
{
}

/// Only a scan of a small range that asked for no rate is slowed down.
pub proof fn asked_rate_is_kept(cfg: ConfigView, addrs: u64)
    ensures
        rate_spec(cfg, addrs).1 ==> cfg.rate is None && cfg.mbps == Mbps::Unset && addrs < 2_000_000,
        cfg.mbps != Mbps::Positive && cfg.rate is Some && cfg.rate->0 > 0 ==> rate_spec(
            cfg,
            addrs,
        ).0 == Rate::Pps(cfg.rate->0),
{
}

/// Writes a checkpoint whenever the cursor has moved.
pub struct Saver {
    pub seed: u64,
    pub total: u64,
    pub fingerprint: u64,
    pub last: u64,
}

impl Saver {
    /// What has been seen once the cursor stands at `cursor`.
    pub open spec fn ticked(self, cursor: u64) -> Saver {
        Saver { last: cursor, ..self }
    }

    /// The checkpoint to write when the cursor stands at `cursor`.
    pub open spec fn due(self, cursor: u64) -> Option<Checkpoint> {
        if cursor == self.last {
            None
        } else {
            Some(
                Checkpoint {
                    seed: self.seed,
                    index: cursor,
                    total: self.total,
                    fingerprint: self.fingerprint,
                },
            )
        }
    }

    pub fn new(opts: &RunOpts) -> (s: Self)
        ensures
            s == (Saver {
                seed: opts.seed,
                total: opts.space.total,
                fingerprint: opts.fingerprint,
                last: u64::MAX,
            }),
    {
        Saver {
            seed: opts.seed,
            total: opts.space.total,
            fingerprint: opts.fingerprint,
            last: u64::MAX,
        }
    }

    /// The checkpoint to write now, if there is one.
    pub fn on_tick(&mut self, cursor: u64) -> (r: Option<Checkpoint>)
        ensures
            *final(self) == old(self).ticked(cursor),
            r == old(self).due(cursor),
    {
        if cursor == self.last {
            return None;
        }
        self.last = cursor;
        Some(
            Checkpoint {
                seed: self.seed,
                index: cursor,
                total: self.total,
                fingerprint: self.fingerprint,
            },
        )
    }
}

/// Whenever the cursor has moved, its place is saved, with the shuffle and the job that it belongs
/// to; a place that was just saved is not saved again.
pub proof fn moved_cursor_is_saved(s: Saver, opts: RunOpts, a: u64, b: u64)
    requires
        s.seed == opts.seed,
        s.total == opts.space.total,
        s.fingerprint == opts.fingerprint,
    ensures
        ({
            let after = s.ticked(a);
            &&& after.due(a) is None
            &&& a != b ==> (after.due(b) matches Some(c) && c.index == b && c.seed == opts.seed && c.total
                == opts.space.total && c.fingerprint == opts.fingerprint)
            &&& after.seed == s.seed && after.total == s.total && after.fingerprint == s.fingerprint
        }),
{
}

/// What becomes of the state file when a scan ends.
#[derive(Debug, PartialEq, Eq)]
pub enum Finish {
    /// None is kept.
    NoState,
    /// The scan is complete: remove it, and say so.
    Complete(String),
    /// The scan was interrupted: write it, and say so.
    Saved(Checkpoint, String),
}

/// What becomes of the state file, with texts as characters.
pub enum FinishView {
    NoState,
    Complete(Seq<char>),
    Saved(Checkpoint, Seq<char>),
}

impl View for Finish {
    type V = FinishView;

    open spec fn view(&self) -> FinishView {
        match *self {
            Finish::NoState => FinishView::NoState,
            Finish::Complete(line) => FinishView::Complete(line@),
            Finish::Saved(c, line) => FinishView::Saved(c, line@),
        }
    }
}

/// What becomes of the state file when a scan ends with the cursor at `cursor`.
pub open spec fn finish_spec(opts: RunOpts, cursor: u64) -> FinishView {
    if opts.cfg.no_state {
        FinishView::NoState
    } else if cursor >= opts.space.total {
        FinishView::Complete("scan complete; cleared "@ + opts.cfg.state@)
    } else {
        FinishView::Saved(
            Checkpoint {
                seed: opts.seed,
                index: cursor,
                total: opts.space.total,
                fingerprint: opts.fingerprint,
            },
            "saved "@ + opts.cfg.state@ + " at "@ + dec(cursor as nat) + "/"@ + dec(
                opts.space.total as nat,
            ) + "  rerun the same command to continue"@,
        )
    }
}

/// What becomes of the state file when a scan ends with the cursor at `cursor`.
pub fn finish(opts: &RunOpts, cursor: u64) -> (r: Finish)
    ensures
        r@ == finish_spec(*opts, cursor),
{
    if opts.cfg.no_state {
        return Finish::NoState;
    }
    if cursor >= opts.space.total {
        let mut line: String = "scan complete; cleared ".to_string();
        line.append(opts.cfg.state.as_str());
        return Finish::Complete(line);
    }
    let mut line: String = "saved ".to_string();
    line.append(opts.cfg.state.as_str());
    line.append(" at ");
    push_dec(&mut line, cursor);
    line.append("/");
    push_dec(&mut line, opts.space.total);
    line.append("  rerun the same command to continue");
    Finish::Saved(
        Checkpoint {
            seed: opts.seed,
            index: cursor,
            total: opts.space.total,
            fingerprint: opts.fingerprint,
        },
        line,
    )
}

/// A scan that is interrupted short of its end and run again with the same settings goes on
/// with the same shuffle at the address where it stopped.
pub proof fn interrupted_scan_goes_on(opts: RunOpts, cursor: u64, file: StateFile, fresh_seed: u64)
    requires
        !opts.cfg.no_state && !opts.cfg.fresh,
        opts.cfg.skip == 0,
        opts.cfg.seed is None || opts.cfg.seed == Some(opts.seed),
        0 < cursor < opts.space.total,
        finish_spec(opts, cursor) matches FinishView::Saved(c, _) && file matches StateFile::Text(text)
            && text@ == render_spec(c),
    ensures
        resume_spec(opts.cfg@, file, opts.fingerprint, opts.space.total, fresh_seed) == (ResumeView {
            seed: opts.seed,
            skip: cursor,
            resumed: true,
            clear: false,
            notice: None,
        }),
{
    let c = Checkpoint {
        seed: opts.seed,
        index: cursor,
        total: opts.space.total,
        fingerprint: opts.fingerprint,
    };
    saved_scan_resumes(opts.cfg@, file, c, fresh_seed);
}

/// `items` with commas between them.
pub open spec fn comma_list(items: Seq<u16>) -> Seq<char>
    decreases items.len(),
{
    if items.len() == 0 {
        Seq::empty()
    } else if items.len() == 1 {
        dec(items[0] as nat)
    } else {
        comma_list(items.drop_last()) + ", "@ + dec(items.last() as nat)
    }
}

/// Appends `items` with commas between them.
pub fn push_comma_list(out: &mut String, items: &[u16])
    ensures
        final(out)@ == old(out)@ + comma_list(items@),
{
    let ghost before = out@;
    let mut i: usize = 0;
    assert(out@ =~= before + comma_list(items@.take(0)));
    while i < items.len()
        invariant
            i <= items@.len(),
            out@ == before + comma_list(items@.take(i as int)),
        decreases items@.len() - i,
    {
        assert(items@.take(i + 1).drop_last() =~= items@.take(i as int));
        let ghost at = out@;
        if i > 0 {
            out.append(", ");
        }
        push_dec(out, items[i] as u64);
        i = i + 1;
        assert(out@ =~= before + comma_list(items@.take(i as int)));
    }
    assert(items@.take(i as int) =~= items@);
}

pub open spec fn mode_name(syn: bool) -> Seq<char> {
    if syn {
        "syn"@
    } else {
        "tcp"@
    }
}

/// What a scan of this kind is called.
pub fn mode_text(syn: bool) -> (r: &'static str)
    ensures
        r@ == mode_name(syn),
{
    if syn {
        "syn"
    } else {
        "tcp"
    }
}

/// The first line that a scan prints; `pps` and `eta` are the rate and the time that it will take.
pub open spec fn headline_spec(opts: RunOpts, syn: bool, pps: Seq<char>, eta: Seq<char>) -> Seq<char> {
    "mc-scan  "@ + mode_name(syn) + "-mode  "@ + pps + " pps  ports=["@ + comma_list(opts.ports@)
        + "]  addrs="@ + dec(opts.space.total as nat) + "  packets="@ + dec(opts.total_pkts as nat)
        + "  eta~"@ + eta
}

fn headline(opts: &RunOpts, syn: bool, pps: &str, eta: &str) -> (out: String)
    ensures
        out@ == headline_spec(*opts, syn, pps@, eta@),
{
    let mut out: String = "mc-scan  ".to_string();
    out.append(mode_text(syn));
    out.append("-mode  ");
    out.append(pps);
    out.append(" pps  ports=[");
    push_comma_list(&mut out, opts.ports.as_slice());
    out.append("]  addrs=");
    push_dec(&mut out, opts.space.total);
    out.append("  packets=");
    push_dec(&mut out, opts.total_pkts);
    out.append("  eta~");
    out.append(eta);
    out
}

/// What a scan says of the state file before it begins.
pub open spec fn state_lines(opts: RunOpts) -> Seq<Seq<char>> {
    if opts.resumed {
        seq![
            "resuming at "@ + dec(opts.skip as nat) + "/"@ + dec(opts.space.total as nat)
                + "  seed="@ + dec(opts.seed as nat) + "  state="@ + opts.cfg.state@,
        ]
    } else if !opts.cfg.no_state {
        seq!["state "@ + opts.cfg.state@]
    } else {
        Seq::empty()
    }
}

/// What a scan prints before the first packet leaves.
pub open spec fn banners_spec(opts: RunOpts, syn: bool, pps: Seq<char>, eta: Seq<char>) -> Seq<
    Seq<char>,
> {
    seq![headline_spec(opts, syn, pps, eta)] + state_lines(opts) + (if opts.throttled {
        seq![
            "capped at 8000 pps for this range (faster floods get dropped); pass --rate to override"@,
        ]
    } else {
        Seq::empty()
    }) + (if !syn && !opts.cfg.tcp {
        seq![
            "no CAP_NET_RAW; TCP connect mode (~"@ + dec(opts.cfg.connect as nat)
                + " concurrent). run as root for ~300k pps SYN scan"@,
        ]
    } else {
        Seq::empty()
    }) + seq!["printing servers with players >= "@ + dec_int(opts.cfg.min_players as int)]
}

/// Adds a line.
fn push_line(lines: &mut Vec<String>, line: String)
    ensures
        texts(final(lines)@) == texts(old(lines)@).push(line@),
{
    let ghost l = line@;
    lines.push(line);
    assert(texts(lines@) =~= texts(old(lines)@).push(l));
}

/// What a scan prints before the first packet leaves.
pub fn start_banners(opts: &RunOpts, syn: bool, pps: &str, eta: &str) -> (lines: Vec<String>)
    ensures
        texts(lines@) == banners_spec(*opts, syn, pps@, eta@),
{
    let mut lines: Vec<String> = Vec::new();
    assert(texts(lines@) =~= Seq::empty());
    push_line(&mut lines, headline(opts, syn, pps, eta));
    if opts.resumed {
        let mut line: String = "resuming at ".to_string();
        push_dec(&mut line, opts.skip);
        line.append("/");
        push_dec(&mut line, opts.space.total);
        line.append("  seed=");
        push_dec(&mut line, opts.seed);
        line.append("  state=");
        line.append(opts.cfg.state.as_str());
        push_line(&mut lines, line);
    } else if !opts.cfg.no_state {
        let mut line: String = "state ".to_string();
        line.append(opts.cfg.state.as_str());
        push_line(&mut lines, line);
    }
    assert(texts(lines@) =~= seq![headline_spec(*opts, syn, pps@, eta@)] + state_lines(*opts));
    if opts.throttled {
        push_line(
            &mut lines,
            "capped at 8000 pps for this range (faster floods get dropped); pass --rate to override".to_string(),
        );
    }
    if !syn && !opts.cfg.tcp {
        let mut line: String = "no CAP_NET_RAW; TCP connect mode (~".to_string();
        push_dec(&mut line, opts.cfg.connect as u64);
        line.append(" concurrent). run as root for ~300k pps SYN scan");
        push_line(&mut lines, line);
    }
    let mut line: String = "printing servers with players >= ".to_string();
    push_dec_i32(&mut line, opts.cfg.min_players);
    push_line(&mut lines, line);
    assert(texts(lines@) =~= banners_spec(*opts, syn, pps@, eta@));
    lines
}

/// What a SYN scan says of its sockets.
pub fn recv_banner(path: &str, source: u32) -> (out: String)
    ensures
        out@ == "recv="@ + path@ + "  source="@ + quad_text(source),
{
    let mut out: String = "recv=".to_string();
    out.append(path);
    out.append("  source=");
    push_ipv4(&mut out, source);
    out
}

/// A time to go: `?` where it is not known, else seconds, minutes and seconds, or what `hours`
/// says.
pub open spec fn eta_spec(secs: Option<u64>, hours: Seq<char>) -> Seq<char> {
    match secs {
        None => "?"@,
        Some(s) => if s < 60 {
            dec(s as nat) + "s"@
        } else if s < 3600 {
            dec((s / 60) as nat) + "m"@ + dec((s % 60) as nat) + "s"@
        } else {
            hours
        },
    }
}

/// A time to go, from whole seconds and from hours written out.
pub fn fmt_eta(secs: Option<u64>, hours: &str) -> (out: String)
    ensures
        out@ == eta_spec(secs, hours@),
{
    let Some(s) = secs else {
        return "?".to_string();
    };
    if s < 60 {
        let mut out: String = dec_text(s);
        out.append("s");
        out
    } else if s < 3600 {
        let mut out: String = dec_text(s / 60);
        out.append("m");
        push_dec(&mut out, s % 60);
        out.append("s");
        out
    } else {
        hours.to_string()
    }
}

/// A time to go is told in seconds below a minute, and in minutes and seconds below an hour.
pub proof fn times_are_told_in_minutes_and_seconds(m: u64, s: u64, hours: Seq<char>)
    requires
        s < 60,
        m < 60,
    ensures
        m == 0 ==> eta_spec(Some(s), hours) == dec(s as nat) + "s"@,
        m > 0 ==> eta_spec(Some((60 * m + s) as u64), hours) == dec(m as nat) + "m"@ + dec(s as nat)
            + "s"@,
{
}

} // verus!
