//! The web page: what it shows, and what its form asks for.

use vstd::prelude::*;
use vstd::slice::slice_subrange;
use vstd::string::*;

use crate::http::{
    err_resp, err_spec, form_spec, html, html_spec, htmx_spec, is_htmx, parse_form, redirect,
    redirect_spec, text, text_spec, Request, RequestView,
};
use crate::ip::SpaceError;
use crate::ipv4::{parse_ipv4, push_ipv4, quad_spec, quad_text};
use crate::ipv6::{ipv6_spec, parse_ipv6};
use crate::live::{hit_lines, hit_views, tail, Hit, HitView, Live, LiveView, Phase};
use crate::num::{
    dec, dec_int, dec_text, lemma_dec_digits, lemma_dec_int_reads_back, lemma_dec_reads_back,
    parse_i32, parse_unsigned, push_dec, push_dec_i32, signed_spec, unsigned_spec, IntError,
};
use crate::page::{
    CSS, HITS_BEFORE_N, HITS_BEFORE_ROWS, HITS_END, LIVE_BEFORE_ADDRS, LIVE_BEFORE_DONE,
    LIVE_BEFORE_ERR_HTML, LIVE_BEFORE_ETA, LIVE_BEFORE_LOGS, LIVE_BEFORE_MODE, LIVE_BEFORE_OPEN,
    LIVE_BEFORE_PCT_LABEL, LIVE_BEFORE_PCT_VALUE, LIVE_BEFORE_PHASE_LABEL,
    LIVE_BEFORE_PHASE_LABEL_AGAIN, LIVE_BEFORE_PINGED, LIVE_BEFORE_POLL, LIVE_BEFORE_POPULATED,
    LIVE_BEFORE_PROGRESS, LIVE_BEFORE_TOTAL, LIVE_END, PAGE_BEFORE_CONNECT, PAGE_BEFORE_CSS,
    PAGE_BEFORE_EXCLUDES, PAGE_BEFORE_FRESH, PAGE_BEFORE_HITS, PAGE_BEFORE_LIVE,
    PAGE_BEFORE_MIN_PLAYERS, PAGE_BEFORE_PING, PAGE_BEFORE_PORTS, PAGE_BEFORE_RANGES,
    PAGE_BEFORE_RATE, PAGE_BEFORE_RESERVED, PAGE_BEFORE_TCP, PAGE_BEFORE_TIMEOUT_MS, PAGE_END,
};
use crate::ping::text_of;
use crate::scan::{
    comma_list, is_content, lines_spec, parse_lines, parse_ports, port_words, ports_spec,
    push_comma_list, ConfigView, PortsError, PortsFault, PrepareFault, ScanConfig,
};
use crate::strmap::StrMap;
use crate::text::{
    find_text, find_text_spec, from_chars, join, join_spec, lemma_split_at, lemma_split_whole,
    lemma_trim_keeps, lenient_text, same_text, split_once, split_once_spec, split_spec, text_at,
    text_is_found_first, texts, to_chars, trim, trim_spec, Sep,
};

verus! {

/// An address to listen on.
#[derive(Clone, Copy, Debug, PartialEq, Eq, Structural)]
pub enum Bind {
    V4 { ip: u32, port: u16 },
    V6 { ip6: u128, port: u16, scope: u32 },
}

/// A text names no address to listen on.
#[derive(Clone, Copy, Debug, PartialEq, Eq, Structural)]
pub struct BindError;

impl BindError {
    /// What to tell the user.
    pub fn message(self) -> (r: &'static str)
        ensures
            r@ == "expected HOST:PORT, :PORT, or PORT"@,
    {
        "expected HOST:PORT, :PORT, or PORT"
    }
}

/// The number, at most `max`, that decimal digits write.
pub open spec fn plain_number(s: Seq<char>, max: nat) -> Option<nat> {
    if s.len() > 0 && s[0] != '+' {
        match unsigned_spec(s, 10, max) {
            Ok(n) => Some(n),
            Err(_) => None,
        }
    } else {
        None
    }
}

/// An IPv4 address, a colon and a port.
pub open spec fn socket4_spec(s: Seq<char>) -> Option<Bind> {
    match split_once_spec(s, ':') {
        Some((host, port)) => match (quad_spec(host), plain_number(port, 0xffff)) {
            (Some(ip), Some(p)) => Some(Bind::V4 { ip: ip as u32, port: p as u16 }),
            _ => None,
        },
        None => None,
    }
}

/// The scope that a percent sign and a number behind an address name; 0 where there is none.
pub open spec fn scope_spec(inside: Seq<char>) -> Option<nat> {
    match split_once_spec(inside, '%') {
        Some((_, scope)) => plain_number(scope, 0xffff_ffff),
        None => Some(0),
    }
}

/// What stands before a percent sign.
pub open spec fn unscoped(inside: Seq<char>) -> Seq<char> {
    match split_once_spec(inside, '%') {
        Some((addr, _)) => addr,
        None => inside,
    }
}

/// An IPv6 address in brackets, with or without a scope, a colon and a port.
pub open spec fn socket6_spec(s: Seq<char>) -> Option<Bind> {
    if s.len() == 0 || s[0] != '[' {
        None
    } else {
        match split_once_spec(s.skip(1), ']') {
            Some((inside, after)) => if after.len() == 0 || after[0] != ':' {
                None
            } else {
                match (
                    ipv6_spec(unscoped(inside)),
                    scope_spec(inside),
                    plain_number(after.skip(1), 0xffff),
                ) {
                    (Some(ip), Some(scope), Some(p)) => Some(
                        Bind::V6 { ip6: ip, port: p as u16, scope: scope as u32 },
                    ),
                    _ => None,
                }
            },
            None => None,
        }
    }
}

/// A port on all IPv4 addresses.
pub open spec fn any_host(port: nat) -> Bind {
    Bind::V4 { ip: 0, port: port as u16 }
}

/// The address that a text names: a host and a port, or a port alone, with or without a colon
/// before it, on all addresses.
pub open spec fn bind_spec(s: Seq<char>) -> Result<Bind, BindError> {
    let t = trim_spec(s);
    match (socket4_spec(t), socket6_spec(t)) {
        (Some(b), _) => Ok(b),
        (None, Some(b)) => Ok(b),
        (None, None) => match unsigned_spec(t, 10, 0xffff) {
            Ok(p) => Ok(any_host(p)),
            Err(_) => if t.len() > 0 && t[0] == ':' {
                match unsigned_spec(t.skip(1), 10, 0xffff) {
                    Ok(p) => Ok(any_host(p)),
                    Err(_) => Err(BindError),
                }
            } else {
                Err(BindError)
            },
        },
    }
}

fn parse_plain_number(s: &[char], max: u64) -> (r: Option<u64>)
    ensures
        match r {
            Some(n) => plain_number(s@, max as nat) == Some(n as nat) && n <= max,
            None => plain_number(s@, max as nat) is None,
        },
{
    if s.len() == 0 || s[0] == '+' {
        return None;
    }
    match parse_unsigned(s, 10, max) {
        Ok(n) => Some(n),
        Err(_) => None,
    }
}

fn parse_socket4(s: &[char]) -> (r: Option<Bind>)
    ensures
        r == socket4_spec(s@),
{
    let Some((host, port)) = split_once(s, ':') else {
        return None;
    };
    let Some(ip) = parse_ipv4(host) else {
        return None;
    };
    match parse_plain_number(port, 0xffff) {
        Some(p) => Some(Bind::V4 { ip, port: p as u16 }),
        None => None,
    }
}

fn parse_socket6(s: &[char]) -> (r: Option<Bind>)
    ensures
        r == socket6_spec(s@),
{
    if s.len() == 0 || s[0] != '[' {
        return None;
    }
    assert(s@.subrange(1, s@.len() as int) =~= s@.skip(1));
    let Some((inside, after)) = split_once(slice_subrange(s, 1, s.len()), ']') else {
        return None;
    };
    if after.len() == 0 || after[0] != ':' {
        return None;
    }
    assert(after@.subrange(1, after@.len() as int) =~= after@.skip(1));
    let port: Option<u64> = parse_plain_number(slice_subrange(after, 1, after.len()), 0xffff);
    let (addr, scope): (&[char], Option<u64>) = match split_once(inside, '%') {
        Some((addr, scope)) => (addr, parse_plain_number(scope, 0xffff_ffff)),
        None => (inside, Some(0)),
    };
    match (parse_ipv6(addr), scope, port) {
        (Some(ip), Some(scope), Some(p)) => Some(
            Bind::V6 { ip6: ip, port: p as u16, scope: scope as u32 },
        ),
        _ => None,
    }
}

/// The address that a text names.
pub fn parse_bind(s: &str) -> (r: Result<Bind, BindError>)
    ensures
        r == bind_spec(s@),
{
    let chars: Vec<char> = to_chars(s);
    let t: &[char] = trim(chars.as_slice());
    if let Some(b) = parse_socket4(t) {
        return Ok(b);
    }
    if let Some(b) = parse_socket6(t) {
        return Ok(b);
    }
    if let Ok(p) = parse_unsigned(t, 10, 0xffff) {
        return Ok(Bind::V4 { ip: 0, port: p as u16 });
    }
    if t.len() > 0 && t[0] == ':' {
        assert(t@.subrange(1, t@.len() as int) =~= t@.skip(1));
        if let Ok(p) = parse_unsigned(slice_subrange(t, 1, t.len()), 10, 0xffff) {
            return Ok(Bind::V4 { ip: 0, port: p as u16 });
        }
    }
    Err(BindError)
}

/// What the fields of the form show.
pub struct FormState {
    pub ranges: String,
    pub excludes: String,
    pub ports: String,
    pub min_players: String,
    pub rate: String,
    pub timeout_ms: String,
    pub connect: String,
    pub ping: String,
    pub include_reserved: bool,
    pub tcp: bool,
    pub fresh: bool,
}

/// What the fields of the form show, as characters.
pub struct FormView {
    pub ranges: Seq<char>,
    pub excludes: Seq<char>,
    pub ports: Seq<char>,
    pub min_players: Seq<char>,
    pub rate: Seq<char>,
    pub timeout_ms: Seq<char>,
    pub connect: Seq<char>,
    pub ping: Seq<char>,
    pub include_reserved: bool,
    pub tcp: bool,
    pub fresh: bool,
}

impl View for FormState {
    type V = FormView;

    open spec fn view(&self) -> FormView {
        FormView {
            ranges: self.ranges@,
            excludes: self.excludes@,
            ports: self.ports@,
            min_players: self.min_players@,
            rate: self.rate@,
            timeout_ms: self.timeout_ms@,
            connect: self.connect@,
            ping: self.ping@,
            include_reserved: self.include_reserved,
            tcp: self.tcp,
            fresh: self.fresh,
        }
    }
}

/// The form that shows the given settings.
pub open spec fn form_of(cfg: ConfigView) -> FormView {
    FormView {
        ranges: join_spec(cfg.ranges, "\n"@),
        excludes: join_spec(cfg.excludes, "\n"@),
        ports: comma_list(cfg.ports),
        min_players: dec_int(cfg.min_players as int),
        rate: match cfg.rate {
            Some(r) => dec(r as nat),
            None => Seq::empty(),
        },
        timeout_ms: dec(cfg.timeout_ms as nat),
        connect: dec(cfg.connect as nat),
        ping: dec(cfg.ping as nat),
        include_reserved: cfg.include_reserved,
        tcp: cfg.tcp,
        fresh: cfg.fresh,
    }
}

impl FormState {
    /// The form that shows the given settings.
    pub fn from_cfg(cfg: &ScanConfig) -> (f: Self)
        ensures
            f@ == form_of(cfg@),
    {
        let mut ports: String = String::new();
        push_comma_list(&mut ports, cfg.ports.as_slice());
        let mut min_players: String = String::new();
        push_dec_i32(&mut min_players, cfg.min_players);
        let rate: String = match cfg.rate {
            Some(r) => dec_text(r),
            None => String::new(),
        };
        let f: FormState = FormState {
            ranges: join(cfg.ranges.as_slice(), "\n"),
            excludes: join(cfg.excludes.as_slice(), "\n"),
            ports,
            min_players,
            rate,
            timeout_ms: dec_text(cfg.timeout_ms),
            connect: dec_text(cfg.connect as u64),
            ping: dec_text(cfg.ping as u64),
            include_reserved: cfg.include_reserved,
            tcp: cfg.tcp,
            fresh: cfg.fresh,
        };
        assert(f@.ports =~= comma_list(cfg@.ports));
        assert(f@.min_players =~= dec_int(cfg@.min_players as int));
        assert(f@.rate =~= form_of(cfg@).rate);
        f
    }
}

/// A field of the form that holds a number.
#[derive(Clone, Copy, Debug, PartialEq, Eq, Structural)]
pub enum Field {
    MinPlayers,
    Timeout,
    Connect,
    Ping,
    Rate,
}

impl Field {
    pub open spec fn label_spec(self) -> Seq<char> {
        match self {
            Field::MinPlayers => "min players"@,
            Field::Timeout => "timeout"@,
            Field::Connect => "connect workers"@,
            Field::Ping => "ping workers"@,
            Field::Rate => "rate"@,
        }
    }

    /// What the field is called.
    pub fn label(self) -> (r: &'static str)
        ensures
            r@ == self.label_spec(),
    {
        match self {
            Field::MinPlayers => "min players",
            Field::Timeout => "timeout",
            Field::Connect => "connect workers",
            Field::Ping => "ping workers",
            Field::Rate => "rate",
        }
    }
}

/// Why a form asks for no scan.
#[derive(Debug, PartialEq, Eq)]
pub enum FormError {
    NoRange,
    Ports(PortsError),
    Number { field: Field, cause: IntError },
}

/// Why a form asks for no scan, with texts as characters.
pub enum FormFault {
    NoRange,
    Ports(PortsFault),
    Number { field: Field, cause: IntError },
}

impl View for FormError {
    type V = FormFault;

    open spec fn view(&self) -> FormFault {
        match *self {
            FormError::NoRange => FormFault::NoRange,
            FormError::Ports(e) => FormFault::Ports(e@),
            FormError::Number { field, cause } => FormFault::Number { field, cause },
        }
    }
}

impl FormFault {
    pub open spec fn full_message(self) -> Seq<char> {
        match self {
            FormFault::NoRange => "name at least one CIDR or IP (the web UI will not scan all of IPv4 by default)"@,
            FormFault::Ports(e) => e.full_message(),
            FormFault::Number { field, cause } => field.label_spec() + ": "@ + cause.message_spec(),
        }
    }
}

impl FormError {
    /// What to tell the user, with the cause behind it.
    pub fn full_message(&self) -> (r: String)
        ensures
            r@ == self@.full_message(),
    {
        match self {
            FormError::NoRange => "name at least one CIDR or IP (the web UI will not scan all of IPv4 by default)".to_string(),
            FormError::Ports(e) => e.full_message(),
            FormError::Number { field, cause } => {
                let mut out: String = field.label().to_string();
                out.append(": ");
                out.append(cause.message());
                out
            },
        }
    }
}

/// What a field holds, or `otherwise` where the form has no such field.
pub open spec fn field_or(
    form: Map<Seq<char>, Seq<char>>,
    name: Seq<char>,
    otherwise: Seq<char>,
) -> Seq<char> {
    if form.dom().contains(name) {
        form[name]
    } else {
        otherwise
    }
}

/// The number, at most `max`, that a field holds, or `otherwise` where the form has no such field.
pub open spec fn number_or(
    form: Map<Seq<char>, Seq<char>>,
    name: Seq<char>,
    max: nat,
    otherwise: nat,
) -> Result<nat, IntError> {
    if form.dom().contains(name) {
        unsigned_spec(form[name], 10, max)
    } else {
        Ok(otherwise)
    }
}

/// The least number of players that the form asks for.
pub open spec fn min_players_of(base: ConfigView, form: Map<Seq<char>, Seq<char>>) -> Result<
    int,
    IntError,
> {
    if form.dom().contains("min_players"@) {
        signed_spec(form["min_players"@], 0x8000_0000, 0x7fff_ffff)
    } else {
        Ok(base.min_players as int)
    }
}

/// The rate that the form asks for, if it asks for one.
pub open spec fn rate_of(form: Map<Seq<char>, Seq<char>>) -> Result<Option<nat>, IntError> {
    let t = trim_spec(field_or(form, "rate"@, Seq::empty()));
    if t.len() == 0 {
        Ok(None)
    } else {
        match unsigned_spec(t, 10, u64::MAX as nat) {
            Ok(r) => Ok(Some(r)),
            Err(e) => Err(e),
        }
    }
}

pub open spec fn at_least_one(n: nat) -> nat {
    if n == 0 {
        1
    } else {
        n
    }
}

/// The numbers that a form asks for.
pub struct Numbers {
    pub min_players: int,
    pub timeout_ms: nat,
    pub connect: nat,
    pub ping: nat,
    pub rate: Option<nat>,
}

/// The numbers that a form asks for, or the first field that holds none.
pub open spec fn numbers_spec(base: ConfigView, form: Map<Seq<char>, Seq<char>>) -> Result<
    Numbers,
    FormFault,
> {
    match min_players_of(base, form) {
        Err(cause) => Err(FormFault::Number { field: Field::MinPlayers, cause }),
        Ok(min_players) => match number_or(
            form,
            "timeout_ms"@,
            u64::MAX as nat,
            base.timeout_ms as nat,
        ) {
            Err(cause) => Err(FormFault::Number { field: Field::Timeout, cause }),
            Ok(timeout_ms) => match number_or(
                form,
                "connect"@,
                usize::MAX as nat,
                base.connect as nat,
            ) {
                Err(cause) => Err(FormFault::Number { field: Field::Connect, cause }),
                Ok(connect) => match number_or(
                    form,
                    "ping"@,
                    usize::MAX as nat,
                    base.ping as nat,
                ) {
                    Err(cause) => Err(FormFault::Number { field: Field::Ping, cause }),
                    Ok(ping) => match rate_of(form) {
                        Err(cause) => Err(FormFault::Number { field: Field::Rate, cause }),
                        Ok(rate) => Ok(
                            Numbers {
                                min_players,
                                timeout_ms,
                                connect: at_least_one(connect),
                                ping: at_least_one(ping),
                                rate,
                            },
                        ),
                    },
                },
            },
        },
    }
}

/// The settings that a form asks for; what the form does not speak of is as in `base`. A range
/// must be named.
pub open spec fn form_config(base: ConfigView, form: Map<Seq<char>, Seq<char>>) -> Result<
    ConfigView,
    FormFault,
> {
    let ranges = lines_spec(field_or(form, "ranges"@, Seq::empty()));
    if ranges.len() == 0 {
        Err(FormFault::NoRange)
    } else {
        match ports_spec(field_or(form, "ports"@, "25565"@)) {
            Err(e) => Err(FormFault::Ports(e)),
            Ok(ports) => match numbers_spec(base, form) {
                Err(e) => Err(e),
                Ok(n) => Ok(
                    ConfigView {
                        ranges,
                        excludes: lines_spec(field_or(form, "excludes"@, Seq::empty())),
                        ports,
                        min_players: n.min_players as i32,
                        timeout_ms: n.timeout_ms as u64,
                        connect: n.connect as usize,
                        ping: n.ping as usize,
                        rate: match n.rate {
                            Some(r) => Some(r as u64),
                            None => None,
                        },
                        include_reserved: form.dom().contains("include_reserved"@),
                        tcp: form.dom().contains("tcp"@),
                        fresh: form.dom().contains("fresh"@),
                        ..base
                    },
                ),
            },
        }
    }
}

fn text_or<'a>(form: &'a StrMap, name: &str, otherwise: &'a str) -> (r: &'a str)
    requires
        form.wf(),
    ensures
        r@ == field_or(form@, name@, otherwise@),
{
    match form.get(name) {
        Some(v) => v,
        None => otherwise,
    }
}

fn read_number(form: &StrMap, name: &str, max: u64, otherwise: u64) -> (r: Result<u64, IntError>)
    requires
        form.wf(),
        otherwise <= max,
    ensures
        match r {
            Ok(n) => number_or(form@, name@, max as nat, otherwise as nat) == Ok::<nat, IntError>(
                n as nat,
            ) && n <= max,
            Err(e) => number_or(form@, name@, max as nat, otherwise as nat) == Err::<nat, IntError>(
                e,
            ),
        },
{
    match form.get(name) {
        Some(v) => {
            let chars: Vec<char> = to_chars(v);
            parse_unsigned(chars.as_slice(), 10, max)
        },
        None => Ok(otherwise),
    }
}

fn read_min_players(base: &ScanConfig, form: &StrMap) -> (r: Result<i32, IntError>)
    requires
        form.wf(),
    ensures
        match r {
            Ok(n) => min_players_of(base@, form@) == Ok::<int, IntError>(n as int),
            Err(e) => min_players_of(base@, form@) == Err::<int, IntError>(e),
        },
{
    match form.get("min_players") {
        Some(v) => {
            let chars: Vec<char> = to_chars(v);
            parse_i32(chars.as_slice())
        },
        None => Ok(base.min_players),
    }
}

fn read_rate(form: &StrMap) -> (r: Result<Option<u64>, IntError>)
    requires
        form.wf(),
    ensures
        match r {
            Ok(None) => rate_of(form@) == Ok::<Option<nat>, IntError>(None),
            Ok(Some(n)) => rate_of(form@) == Ok::<Option<nat>, IntError>(Some(n as nat)),
            Err(e) => rate_of(form@) == Err::<Option<nat>, IntError>(e),
        },
{
    let none: String = String::new();
    assert(none@ =~= Seq::empty());
    let chars: Vec<char> = to_chars(text_or(form, "rate", none.as_str()));
    let t: &[char] = trim(chars.as_slice());
    if t.len() == 0 {
        return Ok(None);
    }
    match parse_unsigned(t, 10, u64::MAX) {
        Ok(n) => Ok(Some(n)),
        Err(e) => Err(e),
    }
}

fn not_zero(n: usize) -> (r: usize)
    ensures
        r == at_least_one(n as nat),
{
    if n == 0 {
        1
    } else {
        n
    }
}

/// The settings that a form asks for.
pub fn config_from_form(base: &ScanConfig, form: &StrMap) -> (r: Result<ScanConfig, FormError>)
    requires
        form.wf(),
    ensures
        match r {
            Ok(cfg) => form_config(base@, form@) == Ok::<ConfigView, FormFault>(cfg@),
            Err(e) => form_config(base@, form@) == Err::<ConfigView, FormFault>(e@),
        },
{
    let none: String = String::new();
    assert(none@ =~= Seq::empty());
    let mut cfg: ScanConfig = base.clone();
    let ranges: Vec<String> = parse_lines(text_or(form, "ranges", none.as_str()));
    assert(texts(ranges@).len() == ranges@.len());
    if ranges.len() == 0 {
        return Err(FormError::NoRange);
    }
    cfg.ranges = ranges;
    cfg.excludes = parse_lines(text_or(form, "excludes", none.as_str()));
    cfg.ports = match parse_ports(text_or(form, "ports", "25565")) {
        Ok(ports) => ports,
        Err(e) => return Err(FormError::Ports(e)),
    };
    cfg.min_players = match read_min_players(base, form) {
        Ok(n) => n,
        Err(cause) => return Err(FormError::Number { field: Field::MinPlayers, cause }),
    };
    cfg.timeout_ms = match read_number(form, "timeout_ms", u64::MAX, base.timeout_ms) {
        Ok(n) => n,
        Err(cause) => return Err(FormError::Number { field: Field::Timeout, cause }),
    };
    cfg.connect = match read_number(form, "connect", usize::MAX as u64, base.connect as u64) {
        Ok(n) => not_zero(n as usize),
        Err(cause) => return Err(FormError::Number { field: Field::Connect, cause }),
    };
    cfg.ping = match read_number(form, "ping", usize::MAX as u64, base.ping as u64) {
        Ok(n) => not_zero(n as usize),
        Err(cause) => return Err(FormError::Number { field: Field::Ping, cause }),
    };
    cfg.rate = match read_rate(form) {
        Ok(rate) => rate,
        Err(cause) => return Err(FormError::Number { field: Field::Rate, cause }),
    };
    cfg.include_reserved = form.contains_key("include_reserved");
    cfg.tcp = form.contains_key("tcp");
    cfg.fresh = form.contains_key("fresh");
    Ok(cfg)
}

/// A form never asks for a scan of all of IPv4: every scan that it asks for has a named range.
pub proof fn form_names_a_range(base: ConfigView, form: Map<Seq<char>, Seq<char>>)
    ensures
        form_config(base, form) matches Ok(cfg) ==> cfg.ranges.len() > 0,
        !form.dom().contains("ranges"@) ==> form_config(base, form) == Err::<ConfigView, FormFault>(
            FormFault::NoRange,
        ),
{
    if !form.dom().contains("ranges"@) {
        lemma_no_lines();
    }
}

proof fn lemma_no_lines()
    ensures
        lines_spec(Seq::empty()) == Seq::<Seq<char>>::empty(),
{
    reveal(Seq::filter);
    let e = Seq::<char>::empty();
    assert(trim_spec(e) == e);
    let lines = split_spec(e, Sep::Char('\n'));
    assert(lines =~= seq![e]);
    let trimmed = lines.map_values(|l: Seq<char>| trim_spec(l));
    assert(trimmed =~= seq![e]);
    let pred = |l: Seq<char>| is_content(l);
    assert(trimmed.drop_last() =~= Seq::empty());
    assert(trimmed.drop_last().filter(pred) =~= Seq::empty());
    assert(!pred(trimmed.last()));
}

/// A character as it stands in the text of a page.
pub open spec fn esc_char(c: char) -> Seq<char> {
    if c == '&' {
        "&amp;"@
    } else if c == '<' {
        "&lt;"@
    } else if c == '>' {
        "&gt;"@
    } else if c == '"' {
        "&quot;"@
    } else if c == '\'' {
        "&#39;"@
    } else {
        seq![c]
    }
}

/// A text as it stands in a page.
pub open spec fn esc_spec(s: Seq<char>) -> Seq<char>
    decreases s.len(),
{
    if s.len() == 0 {
        Seq::empty()
    } else {
        esc_spec(s.drop_last()) + esc_char(s.last())
    }
}

fn push_esc(out: &mut String, s: &str)
    ensures
        final(out)@ == old(out)@ + esc_spec(s@),
{
    let chars: Vec<char> = to_chars(s);
    let ghost before = out@;
    let mut i: usize = 0;
    assert(out@ =~= before + esc_spec(s@.take(0)));
    while i < chars.len()
        invariant
            chars@ == s@,
            i <= chars@.len(),
            out@ == before + esc_spec(s@.take(i as int)),
        decreases chars@.len() - i,
    {
        let ghost at = out@;
        assert(s@.take(i + 1).drop_last() =~= s@.take(i as int));
        let c: char = chars[i];
        if c == '&' {
            out.append("&amp;");
        } else if c == '<' {
            out.append("&lt;");
        } else if c == '>' {
            out.append("&gt;");
        } else if c == '"' {
            out.append("&quot;");
        } else if c == '\'' {
            out.append("&#39;");
        } else {
            out.push(c);
        }
        assert(out@ =~= at + esc_char(c));
        i = i + 1;
        assert(out@ =~= before + esc_spec(s@.take(i as int)));
    }
    assert(s@.take(i as int) =~= s@);
}

/// A text as it stands in a page.
pub fn esc(s: &str) -> (out: String)
    ensures
        out@ == esc_spec(s@),
{
    let mut out: String = String::new();
    push_esc(&mut out, s);
    assert(out@ =~= esc_spec(s@));
    out
}

/// A character that could end a text or begin a tag.
pub open spec fn is_markup(c: char) -> bool {
    c == '<' || c == '>' || c == '"' || c == '\''
}

proof fn lemma_esc_char(c: char)
    ensures
        esc_char(c).len() > 0,
        forall|i: int| 0 <= i < esc_char(c).len() ==> !is_markup(#[trigger] esc_char(c)[i]),
{
    reveal_strlit("&amp;");
    reveal_strlit("&lt;");
    reveal_strlit("&gt;");
    reveal_strlit("&quot;");
    reveal_strlit("&#39;");
}

/// Whatever a text holds, what stands for it in a page neither begins a tag nor ends an attribute.
pub proof fn escaped_text_is_inert(s: Seq<char>)
    ensures
        forall|i: int| 0 <= i < esc_spec(s).len() ==> !is_markup(#[trigger] esc_spec(s)[i]),
    decreases s.len(),
{
    if s.len() > 0 {
        escaped_text_is_inert(s.drop_last());
        lemma_esc_char(s.last());
        let front = esc_spec(s.drop_last());
        assert forall|i: int| 0 <= i < esc_spec(s).len() implies !is_markup(#[trigger] esc_spec(s)[i]) by {
            if i < front.len() {
                assert(esc_spec(s)[i] == front[i]);
            } else {
                assert(esc_spec(s)[i] == esc_char(s.last())[i - front.len()]);
            }
        }
    }
}

/// A text that needs no escape stands for itself.
pub proof fn plain_text_is_kept(s: Seq<char>)
    requires
        forall|i: int| 0 <= i < s.len() ==> !is_markup(#[trigger] s[i]) && s[i] != '&',
    ensures
        esc_spec(s) == s,
    decreases s.len(),
{
    if s.len() > 0 {
        let front = s.drop_last();
        assert forall|i: int| 0 <= i < front.len() implies !is_markup(#[trigger] front[i]) && front[i]
            != '&' by {
            assert(front[i] == s[i]);
        }
        plain_text_is_kept(front);
        assert(!is_markup(s[s.len() - 1]));
        assert(s =~= front + seq![s.last()]);
    } else {
        assert(s =~= Seq::empty());
    }
}

pub open spec fn checked_spec(on: bool) -> Seq<char> {
    if on {
        "checked"@
    } else {
        ""@
    }
}

/// How a box of the form is marked.
pub fn checked(on: bool) -> (r: &'static str)
    ensures
        r@ == checked_spec(on),
{
    if on {
        "checked"
    } else {
        ""
    }
}

/// The box that tells of an error.
pub open spec fn error_box_spec(msg: Seq<char>) -> Seq<char> {
    "<p class=\"err\" role=\"alert\">"@ + esc_spec(msg) + "</p>"@
}

/// The box that tells of an error.
pub fn error_box(msg: &str) -> (out: String)
    ensures
        out@ == error_box_spec(msg@),
{
    let mut out: String = "<p class=\"err\" role=\"alert\">".to_string();
    push_esc(&mut out, msg);
    out.append("</p>");
    out
}

/// The box that tells of an error, where there is one.
pub open spec fn error_html(error: Option<Seq<char>>) -> Seq<char> {
    match error {
        Some(msg) => error_box_spec(msg),
        None => Seq::empty(),
    }
}

fn push_error(out: &mut String, live: &Live)
    ensures
        final(out)@ == old(out)@ + error_html(live@.error),
{
    if let Some(msg) = &live.error {
        let shown: String = error_box(msg.as_str());
        out.append(shown.as_str());
    }
    assert(out@ =~= old(out)@ + error_html(live@.error));
}

/// What asks for the state of the scan again and again.
pub open spec fn poll() -> Seq<char> {
    "hx-get=\"/live\" hx-trigger=\"every 1s\" hx-swap=\"outerHTML\""@
}

pub open spec fn phase_label_spec(phase: Phase) -> Seq<char> {
    match phase {
        Phase::Idle => "idle"@,
        Phase::Running => "running"@,
        Phase::Stopping => "stopping"@,
        Phase::Done => "done"@,
    }
}

/// What a phase is called.
pub fn phase_label(phase: Phase) -> (r: &'static str)
    ensures
        r@ == phase_label_spec(phase),
{
    match phase {
        Phase::Idle => "idle",
        Phase::Running => "running",
        Phase::Stopping => "stopping",
        Phase::Done => "done",
    }
}

/// The kind of scan that is shown; a dash where there was none yet.
pub open spec fn mode_shown(mode: Seq<char>) -> Seq<char> {
    if mode.len() == 0 {
        "—"@
    } else {
        mode
    }
}

fn shown_mode<'a>(live: &'a Live) -> (r: &'a str)
    ensures
        r@ == mode_shown(live@.mode),
{
    if live.mode.as_str().unicode_len() == 0 {
        "—"
    } else {
        live.mode.as_str()
    }
}

/// The time to go that a progress line ends with; a dash where it tells none.
pub open spec fn eta_shown(progress: Seq<char>) -> Seq<char> {
    match find_text_spec(progress, "eta~"@) {
        None => "—"@,
        Some(p) => {
            let rest = progress.skip(p + 4 as int);
            match find_text_spec(rest, "eta~"@) {
                None => rest,
                Some(q) => rest.take(q as int),
            }
        },
    }
}

fn shown_eta(progress: &str) -> (r: String)
    ensures
        r@ == eta_shown(progress@),
{
    proof {
        reveal_strlit("eta~");
    }
    let chars: Vec<char> = to_chars(progress);
    let mark: Vec<char> = to_chars("eta~");
    let size: usize = chars.len();
    let Some(p) = find_text(chars.as_slice(), mark.as_slice()) else {
        return "—".to_string();
    };
    let rest: &[char] = slice_subrange(chars.as_slice(), p + 4, size);
    assert(rest@ =~= progress@.skip(p + 4));
    match find_text(rest, mark.as_slice()) {
        None => from_chars(rest),
        Some(q) => {
            assert(rest@.subrange(0, q as int) =~= rest@.take(q as int));
            from_chars(slice_subrange(rest, 0, q))
        },
    }
}

/// The lines of a log as items of a list.
pub open spec fn log_items(logs: Seq<Seq<char>>) -> Seq<char>
    decreases logs.len(),
{
    if logs.len() == 0 {
        Seq::empty()
    } else {
        log_items(logs.drop_last()) + "<li>"@ + esc_spec(logs.last()) + "</li>"@
    }
}

fn push_logs(out: &mut String, live: &Live)
    ensures
        final(out)@ == old(out)@ + log_items(tail(live@.logs, 12)),
{
    let logs: Vec<String> = live.snapshot_logs(12);
    let ghost all = texts(logs@);
    let ghost before = out@;
    let mut i: usize = 0;
    assert(out@ =~= before + log_items(all.take(0)));
    while i < logs.len()
        invariant
            i <= logs@.len(),
            all == texts(logs@),
            out@ == before + log_items(all.take(i as int)),
        decreases logs@.len() - i,
    {
        assert(all.take(i + 1).drop_last() =~= all.take(i as int));
        out.append("<li>");
        push_esc(out, logs[i].as_str());
        out.append("</li>");
        i = i + 1;
        assert(out@ =~= before + log_items(all.take(i as int)));
    }
    assert(all.take(i as int) =~= all);
}

/// The share of the packets that were sent, in percent: with three decimals, and with one.
pub struct Percent {
    pub value: String,
    pub label: String,
}

/// The share of the packets that were sent.
#[derive(Clone, Copy, Debug, PartialEq, Eq, Structural)]
pub enum Share {
    Nothing,
    All,
    Part { done: u64, total: u64 },
}

/// The share of the packets that were sent. A scan that is over has sent all of no packets.
pub fn share(live: &Live) -> (r: Share)
    ensures
        r == (if live@.total_pkts != 0 {
            Share::Part { done: live@.stats.packets, total: live@.total_pkts }
        } else if live@.phase == Phase::Done {
            Share::All
        } else {
            Share::Nothing
        }),
{
    if live.total_pkts != 0 {
        Share::Part { done: live.stats.packets, total: live.total_pkts }
    } else if live.phase == Phase::Done {
        Share::All
    } else {
        Share::Nothing
    }
}

/// The part of the page that shows how a scan stands.
pub open spec fn live_block_spec(v: LiveView, value: Seq<char>, label: Seq<char>) -> Seq<char> {
    LIVE_BEFORE_POLL@ + poll() + LIVE_BEFORE_PHASE_LABEL@ + phase_label_spec(v.phase) +
        LIVE_BEFORE_PHASE_LABEL_AGAIN@ + phase_label_spec(v.phase) + LIVE_BEFORE_MODE@ +
        esc_spec(mode_shown(v.mode)) + LIVE_BEFORE_ERR_HTML@ + error_html(v.error) +
        LIVE_BEFORE_PCT_VALUE@ + value + LIVE_BEFORE_PCT_LABEL@ + label + LIVE_BEFORE_DONE@ +
        dec(v.stats.packets as nat) + LIVE_BEFORE_TOTAL@ + dec(v.total_pkts as nat) +
        LIVE_BEFORE_ADDRS@ + dec(v.total_addrs as nat) + LIVE_BEFORE_OPEN@ + dec(v.stats.open as
        nat) + LIVE_BEFORE_PINGED@ + dec(v.stats.pinged as nat) + LIVE_BEFORE_POPULATED@ +
        dec(v.stats.live as nat) + LIVE_BEFORE_ETA@ + esc_spec(eta_shown(v.progress)) +
        LIVE_BEFORE_PROGRESS@ + esc_spec(v.progress) + LIVE_BEFORE_LOGS@ +
        log_items(tail(v.logs, 12)) + LIVE_END@
}

/// The part of the page that shows how a scan stands.
pub fn live_block(live: &Live, pct: &Percent) -> (out: String)
    ensures
        out@ == live_block_spec(live@, pct.value@, pct.label@),
{
    let eta: String = shown_eta(live.progress.as_str());
    let mut out: String = LIVE_BEFORE_POLL.to_string();
    out.append("hx-get=\"/live\" hx-trigger=\"every 1s\" hx-swap=\"outerHTML\"");
    out.append(LIVE_BEFORE_PHASE_LABEL);
    out.append(phase_label(live.phase));
    out.append(LIVE_BEFORE_PHASE_LABEL_AGAIN);
    out.append(phase_label(live.phase));
    out.append(LIVE_BEFORE_MODE);
    push_esc(&mut out, shown_mode(live));
    out.append(LIVE_BEFORE_ERR_HTML);
    push_error(&mut out, live);
    out.append(LIVE_BEFORE_PCT_VALUE);
    out.append(pct.value.as_str());
    out.append(LIVE_BEFORE_PCT_LABEL);
    out.append(pct.label.as_str());
    out.append(LIVE_BEFORE_DONE);
    push_dec(&mut out, live.stats.packets);
    out.append(LIVE_BEFORE_TOTAL);
    push_dec(&mut out, live.total_pkts);
    out.append(LIVE_BEFORE_ADDRS);
    push_dec(&mut out, live.total_addrs);
    out.append(LIVE_BEFORE_OPEN);
    push_dec(&mut out, live.stats.open);
    out.append(LIVE_BEFORE_PINGED);
    push_dec(&mut out, live.stats.pinged);
    out.append(LIVE_BEFORE_POPULATED);
    push_dec(&mut out, live.stats.live);
    out.append(LIVE_BEFORE_ETA);
    push_esc(&mut out, eta.as_str());
    out.append(LIVE_BEFORE_PROGRESS);
    push_esc(&mut out, live.progress.as_str());
    out.append(LIVE_BEFORE_LOGS);
    push_logs(&mut out, live);
    out.append(LIVE_END);
    out
}

/// A text, or nothing.
pub open spec fn or_nothing(t: Option<Seq<char>>) -> Seq<char> {
    match t {
        Some(t) => t,
        None => Seq::empty(),
    }
}

/// The row of the table for one server.
pub open spec fn row_spec(h: HitView) -> Seq<char> {
    "<tr><td><code>"@ + esc_spec(quad_text(h.ip)) + ":"@ + dec(h.port as nat)
        + "</code></td><td class=\"num\">"@ + dec_int(h.online as int) + "/"@ + dec_int(h.max as int)
        + "</td><td>"@ + esc_spec(or_nothing(h.version)) + "</td><td>"@ + esc_spec(
        or_nothing(h.motd),
    ) + "</td></tr>"@
}

fn push_esc_option(out: &mut String, t: &Option<String>)
    ensures
        final(out)@ == old(out)@ + esc_spec(or_nothing(text_of(*t))),
{
    if let Some(t) = t {
        push_esc(out, t.as_str());
    }
    assert(out@ =~= old(out)@ + esc_spec(or_nothing(text_of(*t))));
}

fn row(h: &Hit) -> (out: String)
    ensures
        out@ == row_spec(h@),
{
    let mut ip: String = String::new();
    push_ipv4(&mut ip, h.ip);
    assert(ip@ =~= quad_text(h.ip));
    let mut out: String = "<tr><td><code>".to_string();
    push_esc(&mut out, ip.as_str());
    out.append(":");
    push_dec(&mut out, h.port as u64);
    out.append("</code></td><td class=\"num\">");
    push_dec_i32(&mut out, h.online);
    out.append("/");
    push_dec_i32(&mut out, h.max);
    out.append("</td><td>");
    push_esc_option(&mut out, &h.version);
    out.append("</td><td>");
    push_esc_option(&mut out, &h.motd);
    out.append("</td></tr>");
    out
}

/// The rows of the table, the last server first.
pub open spec fn rows_spec(hits: Seq<HitView>) -> Seq<char>
    decreases hits.len(),
{
    if hits.len() == 0 {
        Seq::empty()
    } else {
        row_spec(hits.last()) + rows_spec(hits.drop_last())
    }
}

/// The rows of the table; one that says so where there is no server.
pub open spec fn table_rows(hits: Seq<HitView>) -> Seq<char> {
    if hits.len() == 0 {
        "<tr><td colspan=\"5\" class=\"empty\">No populated servers yet. They show up here the moment a status ping comes back with players.</td></tr>"@
    } else {
        rows_spec(hits)
    }
}

fn push_rows(out: &mut String, live: &Live)
    ensures
        final(out)@ == old(out)@ + table_rows(tail(live@.hits, 400)),
{
    let hits: Vec<Hit> = live.snapshot_hits(400);
    let ghost all = hit_views(hits@);
    assert(all.len() == hits@.len());
    if hits.len() == 0 {
        out.append(
            "<tr><td colspan=\"5\" class=\"empty\">No populated servers yet. They show up here the moment a status ping comes back with players.</td></tr>",
        );
        return;
    }
    let ghost before = out@;
    let mut i: usize = hits.len();
    assert(all.take(i as int) =~= all);
    while i > 0
        invariant
            i <= hits@.len(),
            all == hit_views(hits@),
            out@ + rows_spec(all.take(i as int)) == before + rows_spec(all),
        decreases i,
    {
        let ghost at = out@;
        assert(all.take(i as int).drop_last() =~= all.take(i - 1));
        assert(all.take(i as int).last() == hits@[i - 1]@);
        i = i - 1;
        let shown: String = row(&hits[i]);
        out.append(shown.as_str());
        assert(out@ + rows_spec(all.take(i as int)) =~= at + (row_spec(all[i as int]) + rows_spec(
            all.take(i as int),
        )));
    }
    assert(out@ =~= out@ + rows_spec(all.take(0)));
}

/// The part of the page that shows the servers that were found.
pub open spec fn hits_block_spec(hits: Seq<HitView>) -> Seq<char> {
    HITS_BEFORE_N@ + dec(hits.len()) + HITS_BEFORE_ROWS@ + table_rows(tail(hits, 400)) + HITS_END@
}

/// The part of the page that shows the servers that were found.
pub fn hits_block(live: &Live) -> (out: String)
    ensures
        out@ == hits_block_spec(live@.hits),
{
    let mut out: String = HITS_BEFORE_N.to_string();
    push_dec(&mut out, live.hit_count() as u64);
    out.append(HITS_BEFORE_ROWS);
    push_rows(&mut out, live);
    out.append(HITS_END);
    out
}

/// The page.
pub open spec fn page_spec(f: FormView, v: LiveView, value: Seq<char>, label: Seq<char>) -> Seq<char> {
    PAGE_BEFORE_CSS@ + CSS@ + PAGE_BEFORE_RANGES@ + esc_spec(f.ranges) + PAGE_BEFORE_PORTS@ +
        esc_spec(f.ports) + PAGE_BEFORE_MIN_PLAYERS@ + esc_spec(f.min_players) +
        PAGE_BEFORE_EXCLUDES@ + esc_spec(f.excludes) + PAGE_BEFORE_RATE@ + esc_spec(f.rate) +
        PAGE_BEFORE_TIMEOUT_MS@ + esc_spec(f.timeout_ms) + PAGE_BEFORE_CONNECT@ +
        esc_spec(f.connect) + PAGE_BEFORE_PING@ + esc_spec(f.ping) + PAGE_BEFORE_RESERVED@ +
        checked_spec(f.include_reserved) + PAGE_BEFORE_TCP@ + checked_spec(f.tcp) +
        PAGE_BEFORE_FRESH@ + checked_spec(f.fresh) + PAGE_BEFORE_LIVE@ + live_block_spec(v,
        value, label) + PAGE_BEFORE_HITS@ + hits_block_spec(v.hits) + PAGE_END@
}

/// The page.
pub fn page(f: &FormState, live: &Live, pct: &Percent) -> (out: String)
    ensures
        out@ == page_spec(f@, live@, pct.value@, pct.label@),
{
    let live_part: String = live_block(live, pct);
    let hits_part: String = hits_block(live);
    let mut out: String = PAGE_BEFORE_CSS.to_string();
    out.append(CSS);
    out.append(PAGE_BEFORE_RANGES);
    push_esc(&mut out, f.ranges.as_str());
    out.append(PAGE_BEFORE_PORTS);
    push_esc(&mut out, f.ports.as_str());
    out.append(PAGE_BEFORE_MIN_PLAYERS);
    push_esc(&mut out, f.min_players.as_str());
    out.append(PAGE_BEFORE_EXCLUDES);
    push_esc(&mut out, f.excludes.as_str());
    out.append(PAGE_BEFORE_RATE);
    push_esc(&mut out, f.rate.as_str());
    out.append(PAGE_BEFORE_TIMEOUT_MS);
    push_esc(&mut out, f.timeout_ms.as_str());
    out.append(PAGE_BEFORE_CONNECT);
    push_esc(&mut out, f.connect.as_str());
    out.append(PAGE_BEFORE_PING);
    push_esc(&mut out, f.ping.as_str());
    out.append(PAGE_BEFORE_RESERVED);
    out.append(checked(f.include_reserved));
    out.append(PAGE_BEFORE_TCP);
    out.append(checked(f.tcp));
    out.append(PAGE_BEFORE_FRESH);
    out.append(checked(f.fresh));
    out.append(PAGE_BEFORE_LIVE);
    out.append(live_part.as_str());
    out.append(PAGE_BEFORE_HITS);
    out.append(hits_part.as_str());
    out.append(PAGE_END);
    out
}

/// What is said of an error on the page. A range that holds nothing but reserved addresses is
/// explained in the page's own words.
pub open spec fn friendly_spec(msg: Seq<char>) -> Seq<char> {
    if find_text_spec(msg, "include-reserved"@) is Some {
        "that range is private or reserved. tick “include private / reserved” and scan again."@
    } else {
        msg
    }
}

/// What is said of an error on the page.
pub fn friendly_err(msg: &str) -> (r: String)
    ensures
        r@ == friendly_spec(msg@),
{
    let chars: Vec<char> = to_chars(msg);
    let word: Vec<char> = to_chars("include-reserved");
    if find_text(chars.as_slice(), word.as_slice()).is_some() {
        "that range is private or reserved. tick “include private / reserved” and scan again.".to_string()
    } else {
        msg.to_string()
    }
}

/// A scan of nothing but reserved addresses is refused with a hint at the box to tick.
pub proof fn reserved_range_is_explained()
    ensures
        friendly_spec(
            PrepareFault::Space(SpaceError::NothingLeft { reserved: true }).full_message(),
        ) == "that range is private or reserved. tick “include private / reserved” and scan again."@,
{
    let head = "building address space: "@;
    let middle = "address space is empty after subtracting reserved/bogon ranges; pass --include-reserved to scan them"@;
    let end = ": address space is empty"@;
    let word = "include-reserved"@;
    reveal_strlit("building address space: ");
    reveal_strlit(
        "address space is empty after subtracting reserved/bogon ranges; pass --include-reserved to scan them",
    );
    reveal_strlit(": address space is empty");
    reveal_strlit("include-reserved");
    let msg = PrepareFault::Space(SpaceError::NothingLeft { reserved: true }).full_message();
    assert(msg == head + (middle + end));
    assert(msg.subrange(95, 111) =~= word);
    assert(text_at(msg, word, 95));
    text_is_found_first(msg, word, 0);
}

/// Why the page starts no scan.
#[derive(Debug, PartialEq, Eq)]
pub enum StartError {
    /// One is running.
    Busy,
    /// The form asks for none.
    Form(FormError),
}

/// Why the page starts no scan, with texts as characters.
pub enum StartFault {
    Busy,
    Form(FormFault),
}

impl View for StartError {
    type V = StartFault;

    open spec fn view(&self) -> StartFault {
        match *self {
            StartError::Busy => StartFault::Busy,
            StartError::Form(e) => StartFault::Form(e@),
        }
    }
}

impl StartFault {
    pub open spec fn full_message(self) -> Seq<char> {
        match self {
            StartFault::Busy => "a scan is already running"@,
            StartFault::Form(e) => e.full_message(),
        }
    }
}

impl StartError {
    /// What to tell the user, with the cause behind it.
    pub fn full_message(&self) -> (r: String)
        ensures
            r@ == self@.full_message(),
    {
        match self {
            StartError::Busy => "a scan is already running".to_string(),
            StartError::Form(e) => e.full_message(),
        }
    }
}

/// The scan that a form starts, if none is running.
pub open spec fn start_spec(phase: Phase, base: ConfigView, form: Map<Seq<char>, Seq<char>>) -> Result<
    ConfigView,
    StartFault,
> {
    if phase == Phase::Running || phase == Phase::Stopping {
        Err(StartFault::Busy)
    } else {
        match form_config(base, form) {
            Ok(cfg) => Ok(cfg),
            Err(e) => Err(StartFault::Form(e)),
        }
    }
}

/// The scan that a form starts, if none is running.
pub fn start_scan(phase: Phase, base: &ScanConfig, form: &StrMap) -> (r: Result<
    ScanConfig,
    StartError,
>)
    requires
        form.wf(),
    ensures
        match r {
            Ok(cfg) => start_spec(phase, base@, form@) == Ok::<ConfigView, StartFault>(cfg@),
            Err(e) => start_spec(phase, base@, form@) == Err::<ConfigView, StartFault>(e@),
        },
{
    if phase == Phase::Running || phase == Phase::Stopping {
        return Err(StartError::Busy);
    }
    match config_from_form(base, form) {
        Ok(cfg) => Ok(cfg),
        Err(e) => Err(StartError::Form(e)),
    }
}

/// While a scan runs, or is being stopped, the page starts no other.
pub proof fn one_scan_at_a_time(live: LiveView, base: ConfigView, form: Map<Seq<char>, Seq<char>>)
    requires
        live.wf(),
        live.running || live.phase == Phase::Stopping,
    ensures
        start_spec(live.phase, base, form) == Err::<ConfigView, StartFault>(StartFault::Busy),
{
}

/// What a request asks for.
#[derive(Clone, Copy, Debug, PartialEq, Eq, Structural)]
pub enum Route {
    Page,
    Live,
    Hits,
    HitsText,
    Start,
    Stop,
    NotFound,
}

/// What a request asks for.
pub open spec fn route_spec(method: Seq<char>, path: Seq<char>) -> Route {
    if method == "GET"@ && path == "/"@ {
        Route::Page
    } else if method == "GET"@ && path == "/live"@ {
        Route::Live
    } else if method == "GET"@ && path == "/hits"@ {
        Route::Hits
    } else if method == "GET"@ && path == "/hits.txt"@ {
        Route::HitsText
    } else if method == "POST"@ && path == "/start"@ {
        Route::Start
    } else if method == "POST"@ && path == "/stop"@ {
        Route::Stop
    } else {
        Route::NotFound
    }
}

/// What a request asks for.
pub fn route(method: &str, path: &str) -> (r: Route)
    ensures
        r == route_spec(method@, path@),
{
    let method: Vec<char> = to_chars(method);
    let path: Vec<char> = to_chars(path);
    let get: bool = same_text(method.as_slice(), "GET");
    let post: bool = same_text(method.as_slice(), "POST");
    if get && same_text(path.as_slice(), "/") {
        Route::Page
    } else if get && same_text(path.as_slice(), "/live") {
        Route::Live
    } else if get && same_text(path.as_slice(), "/hits") {
        Route::Hits
    } else if get && same_text(path.as_slice(), "/hits.txt") {
        Route::HitsText
    } else if post && same_text(path.as_slice(), "/start") {
        Route::Start
    } else if post && same_text(path.as_slice(), "/stop") {
        Route::Stop
    } else {
        Route::NotFound
    }
}

/// The answer to a request that changed something: the part of the page that shows it, or the way
/// back to the page.
pub open spec fn changed_spec(v: LiveView, htmx: bool, value: Seq<char>, label: Seq<char>) -> Seq<u8> {
    if htmx {
        html_spec(live_block_spec(v, value, label))
    } else {
        redirect_spec("/"@)
    }
}

/// The answer to a request that changed something.
pub fn changed(live: &Live, htmx: bool, pct: &Percent) -> (out: Vec<u8>)
    ensures
        out@ == changed_spec(live@, htmx, pct.value@, pct.label@),
{
    if htmx {
        let block: String = live_block(live, pct);
        html(block.as_str())
    } else {
        redirect("/")
    }
}

/// The answer to a request for a scan that cannot begin: the page, or the part of it, with the
/// reason.
pub open spec fn refused_spec(
    f: FormView,
    v: LiveView,
    htmx: bool,
    value: Seq<char>,
    label: Seq<char>,
) -> Seq<u8> {
    if htmx {
        html_spec(live_block_spec(v, value, label))
    } else {
        html_spec(page_spec(f, v, value, label))
    }
}

/// Notes why a scan cannot begin, and gives the answer to the request for it.
pub fn refuse(live: &mut Live, f: &FormState, why: &str, htmx: bool, pct: &Percent) -> (out: Vec<u8>)
    ensures
        final(live)@ == (LiveView { error: Some(friendly_spec(why@)), ..old(live)@ }),
        out@ == refused_spec(f@, final(live)@, htmx, pct.value@, pct.label@),
        old(live)@.wf() ==> final(live)@.wf(),
{
    live.set_notice(friendly_err(why));
    if htmx {
        let block: String = live_block(live, pct);
        html(block.as_str())
    } else {
        let whole: String = page(f, live, pct);
        html(whole.as_str())
    }
}

/// What is to be done about a request.
pub enum Action {
    /// Send these bytes.
    Respond(Vec<u8>),
    /// Try to begin this scan.
    Begin(ScanConfig),
}

/// What is to be done about a request, with texts as characters.
pub enum ActionView {
    Respond(Seq<u8>),
    Begin(ConfigView),
}

impl View for Action {
    type V = ActionView;

    open spec fn view(&self) -> ActionView {
        match *self {
            Action::Respond(bytes) => ActionView::Respond(bytes@),
            Action::Begin(cfg) => ActionView::Begin(cfg@),
        }
    }
}

/// How a scan stands after a request, and what is to be done about the request.
pub open spec fn dispatch_spec(
    req: RequestView,
    v: LiveView,
    f: FormView,
    base: ConfigView,
    value: Seq<char>,
    label: Seq<char>,
) -> (LiveView, ActionView) {
    let htmx = htmx_spec(req.headers);
    match route_spec(req.method, req.path) {
        Route::Page => (v, ActionView::Respond(html_spec(page_spec(f, v, value, label)))),
        Route::Live => (v, ActionView::Respond(html_spec(live_block_spec(v, value, label)))),
        Route::Hits => (v, ActionView::Respond(html_spec(hits_block_spec(v.hits)))),
        Route::HitsText => (v, ActionView::Respond(text_spec(hit_lines(v.hits)))),
        Route::Start => match start_spec(v.phase, base, form_spec(lenient_text(req.body))) {
            Ok(cfg) => (v, ActionView::Begin(cfg)),
            Err(e) => {
                let told = LiveView { error: Some(friendly_spec(e.full_message())), ..v };
                (told, ActionView::Respond(refused_spec(f, told, htmx, value, label)))
            },
        },
        Route::Stop => (
            v.stopped(),
            ActionView::Respond(changed_spec(v.stopped(), htmx, value, label)),
        ),
        Route::NotFound => (v, ActionView::Respond(err_spec(404, "not found"@))),
    }
}

/// Decides what is to be done about a request.
pub fn dispatch(req: &Request, live: &mut Live, f: &FormState, base: &ScanConfig, pct: &Percent) -> (r:
    Action)
    requires
        req.headers.wf(),
    ensures
        (final(live)@, r@) == dispatch_spec(
            req@,
            old(live)@,
            f@,
            base@,
            pct.value@,
            pct.label@,
        ),
        old(live)@.wf() ==> final(live)@.wf(),
{
    let htmx: bool = is_htmx(req);
    match route(req.method.as_str(), req.path.as_str()) {
        Route::Page => {
            let whole: String = page(f, live, pct);
            Action::Respond(html(whole.as_str()))
        },
        Route::Live => {
            let block: String = live_block(live, pct);
            Action::Respond(html(block.as_str()))
        },
        Route::Hits => {
            let block: String = hits_block(live);
            Action::Respond(html(block.as_str()))
        },
        Route::HitsText => {
            let lines: String = live.all_hit_lines();
            Action::Respond(text(lines.as_str()))
        },
        Route::Start => {
            let form: StrMap = parse_form(req.body.as_slice());
            match start_scan(live.phase, base, &form) {
                Ok(cfg) => Action::Begin(cfg),
                Err(e) => {
                    let why: String = e.full_message();
                    Action::Respond(refuse(live, f, why.as_str(), htmx, pct))
                },
            }
        },
        Route::Stop => {
            live.request_stop();
            Action::Respond(changed(live, htmx, pct))
        },
        Route::NotFound => Action::Respond(err_resp(404, "not found")),
    }
}

/// What the page sends when the form is sent as it shows: a box that is not ticked is left out.
pub open spec fn submitted(f: FormView) -> Map<Seq<char>, Seq<char>> {
    let texts = Map::empty().insert("ranges"@, f.ranges).insert("excludes"@, f.excludes).insert(
        "ports"@,
        f.ports,
    ).insert("min_players"@, f.min_players).insert("rate"@, f.rate).insert(
        "timeout_ms"@,
        f.timeout_ms,
    ).insert("connect"@, f.connect).insert("ping"@, f.ping);
    let a = if f.include_reserved {
        texts.insert("include_reserved"@, "on"@)
    } else {
        texts
    };
    let b = if f.tcp {
        a.insert("tcp"@, "on"@)
    } else {
        a
    };
    if f.fresh {
        b.insert("fresh"@, "on"@)
    } else {
        b
    }
}

/// A text that stands on a line of its own and is no comment.
pub open spec fn is_entry(line: Seq<char>) -> bool {
    &&& is_content(line)
    &&& trim_spec(line) == line
    &&& forall|i: int| 0 <= i < line.len() ==> #[trigger] line[i] != '\n'
}

pub open spec fn all_entries(lines: Seq<Seq<char>>) -> bool {
    forall|i: int| 0 <= i < lines.len() ==> is_entry(#[trigger] lines[i])
}

proof fn lemma_split_joined(lines: Seq<Seq<char>>)
    requires
        lines.len() > 0,
        all_entries(lines),
    ensures
        split_spec(join_spec(lines, "\n"@), Sep::Char('\n')) == lines,
    decreases lines.len(),
{
    let nl = Sep::Char('\n');
    let last = lines.last();
    assert(is_entry(lines[lines.len() - 1]));
    assert forall|i: int| 0 <= i < last.len() implies !nl.cuts(#[trigger] last[i]) by {}
    lemma_split_whole(last, nl);
    if lines.len() == 1 {
        assert(lines =~= seq![last]);
    } else {
        let front = lines.drop_last();
        assert forall|i: int| 0 <= i < front.len() implies is_entry(#[trigger] front[i]) by {
            assert(front[i] == lines[i]);
        }
        lemma_split_joined(front);
        let head = join_spec(front, "\n"@);
        reveal_strlit("\n");
        assert("\n"@ =~= seq!['\n']);
        assert(head + "\n"@ + last =~= head.push('\n') + last);
        lemma_split_at(head, '\n', last, nl);
        assert(front + seq![last] =~= lines);
    }
}

proof fn lemma_filter_keeps_all(lines: Seq<Seq<char>>)
    requires
        all_entries(lines),
    ensures
        lines.filter(|l: Seq<char>| is_content(l)) == lines,
    decreases lines.len(),
{
    reveal(Seq::filter);
    let pred = |l: Seq<char>| is_content(l);
    if lines.len() > 0 {
        let front = lines.drop_last();
        assert forall|i: int| 0 <= i < front.len() implies is_entry(#[trigger] front[i]) by {
            assert(front[i] == lines[i]);
        }
        lemma_filter_keeps_all(front);
        assert(is_entry(lines[lines.len() - 1]));
        assert(pred(lines.last()));
        assert(lines =~= front.push(lines.last()));
    } else {
        assert(lines.filter(pred) =~= lines);
    }
}

/// Lines that were put into one text are read back.
pub proof fn joined_lines_read_back(lines: Seq<Seq<char>>)
    requires
        all_entries(lines),
    ensures
        lines_spec(join_spec(lines, "\n"@)) == lines,
{
    if lines.len() == 0 {
        lemma_no_lines();
        assert(lines =~= Seq::empty());
    } else {
        lemma_split_joined(lines);
        let trimmed = lines.map_values(|l: Seq<char>| trim_spec(l));
        assert forall|i: int| 0 <= i < lines.len() implies trimmed[i] == lines[i] by {
            assert(is_entry(lines[i]));
        }
        assert(trimmed =~= lines);
        lemma_filter_keeps_all(lines);
    }
}

proof fn lemma_port_piece(p: u16)
    requires
        p != 0,
    ensures
        split_spec(dec(p as nat), Sep::CommaOrWhite) == seq![dec(p as nat)],
        dec(p as nat).len() > 0,
        unsigned_spec(dec(p as nat), 10, 0xffff) == Ok::<nat, IntError>(p as nat),
{
    let d = dec(p as nat);
    lemma_dec_digits(p as nat);
    lemma_dec_reads_back(p as nat, 0xffff);
    assert forall|i: int| 0 <= i < d.len() implies !Sep::CommaOrWhite.cuts(#[trigger] d[i]) by {}
    lemma_split_whole(d, Sep::CommaOrWhite);
}

proof fn lemma_port_pieces(ports: Seq<u16>)
    requires
        ports.len() > 0,
        !ports.contains(0),
    ensures
        port_words(split_spec(comma_list(ports), Sep::CommaOrWhite)) == Ok::<Seq<u16>, PortsFault>(
            ports,
        ),
    decreases ports.len(),
{
    let sep = Sep::CommaOrWhite;
    let last = ports.last();
    let d = dec(last as nat);
    assert(ports.contains(ports[ports.len() - 1]));
    lemma_port_piece(last);
    if ports.len() == 1 {
        let words = seq![d];
        assert(words.drop_last() =~= Seq::empty());
        assert(port_words(words.drop_last()) == Ok::<Seq<u16>, PortsFault>(Seq::empty()));
        assert(Seq::<u16>::empty().push(last) =~= ports);
        assert(ports[0] == last);
    } else {
        let front = ports.drop_last();
        assert(!front.contains(0)) by {
            if front.contains(0) {
                let k = choose|k: int| 0 <= k < front.len() && front[k] == 0;
                assert(ports[k] == 0);
            }
        }
        lemma_port_pieces(front);
        let head = comma_list(front);
        let e = Seq::<char>::empty();
        reveal_strlit(", ");
        assert(", "@ =~= seq![',', ' ']);
        assert(head + ", "@ + d =~= head.push(',') + (e.push(' ') + d));
        lemma_split_at(head, ',', e.push(' ') + d, sep);
        lemma_split_at(e, ' ', d, sep);
        assert(split_spec(e, sep) =~= seq![e]);
        let pieces = split_spec(head, sep);
        let words = pieces + (seq![e] + seq![d]);
        assert(words.drop_last() =~= pieces.push(e));
        assert(pieces.push(e).drop_last() =~= pieces);
        assert(words.last() == d);
        assert(port_words(pieces.push(e)) == Ok::<Seq<u16>, PortsFault>(front));
        assert(front.push(last) =~= ports);
    }
}

/// Ports that were written with commas between them are read back.
pub proof fn port_list_reads_back(ports: Seq<u16>)
    requires
        ports.len() > 0,
        !ports.contains(0),
    ensures
        ports_spec(comma_list(ports)) == Ok::<Seq<u16>, PortsFault>(ports),
{
    lemma_port_pieces(ports);
}

proof fn lemma_field_names()
    ensures
        "ranges"@.len() == 6 && "excludes"@.len() == 8 && "ports"@.len() == 5,
        "min_players"@.len() == 11 && "rate"@.len() == 4 && "timeout_ms"@.len() == 10,
        "connect"@.len() == 7 && "ping"@.len() == 4 && "include_reserved"@.len() == 16,
        "tcp"@.len() == 3 && "fresh"@.len() == 5,
        "ports"@ != "fresh"@ && "rate"@ != "ping"@,
{
    reveal_strlit("ranges");
    reveal_strlit("excludes");
    reveal_strlit("ports");
    reveal_strlit("min_players");
    reveal_strlit("rate");
    reveal_strlit("timeout_ms");
    reveal_strlit("connect");
    reveal_strlit("ping");
    reveal_strlit("include_reserved");
    reveal_strlit("tcp");
    reveal_strlit("fresh");
    assert("ports"@[0] != "fresh"@[0]);
    assert("rate"@[0] != "ping"@[0]);
}

proof fn lemma_submitted(f: FormView)
    ensures
        submitted(f).contains_pair("ranges"@, f.ranges),
        submitted(f).contains_pair("excludes"@, f.excludes),
        submitted(f).contains_pair("ports"@, f.ports),
        submitted(f).contains_pair("min_players"@, f.min_players),
        submitted(f).contains_pair("rate"@, f.rate),
        submitted(f).contains_pair("timeout_ms"@, f.timeout_ms),
        submitted(f).contains_pair("connect"@, f.connect),
        submitted(f).contains_pair("ping"@, f.ping),
        submitted(f).dom().contains("include_reserved"@) == f.include_reserved,
        submitted(f).dom().contains("tcp"@) == f.tcp,
        submitted(f).dom().contains("fresh"@) == f.fresh,
{
    lemma_field_names();
}

/// The two agree in all that the form has no field for.
pub open spec fn same_beside_form(base: ConfigView, cfg: ConfigView) -> bool {
    &&& base.mbps == cfg.mbps
    &&& base.exclude_files == cfg.exclude_files
    &&& base.state == cfg.state
    &&& base.no_state == cfg.no_state
    &&& base.source_ip == cfg.source_ip
    &&& base.source_port == cfg.source_port
    &&& base.seed == cfg.seed
    &&& base.skip == cfg.skip
    &&& base.cooldown_ms == cfg.cooldown_ms
    &&& base.quiet == cfg.quiet
    &&& base.hits_file == cfg.hits_file
}

/// The form, sent as it shows settings, asks for those settings: whatever the defaults are, each
/// field of the form decides.
pub proof fn form_decides(base: ConfigView, cfg: ConfigView)
    requires
        same_beside_form(base, cfg),
        cfg.ranges.len() > 0,
        all_entries(cfg.ranges),
        all_entries(cfg.excludes),
        cfg.ports.len() > 0,
        !cfg.ports.contains(0),
        cfg.connect > 0,
        cfg.ping > 0,
    ensures
        form_config(base, submitted(form_of(cfg))) == Ok::<ConfigView, FormFault>(cfg),
{
    lemma_submitted(form_of(cfg));
    joined_lines_read_back(cfg.ranges);
    joined_lines_read_back(cfg.excludes);
    port_list_reads_back(cfg.ports);
    lemma_dec_int_reads_back(cfg.min_players);
    lemma_dec_reads_back(cfg.timeout_ms as nat, u64::MAX as nat);
    lemma_dec_reads_back(cfg.connect as nat, usize::MAX as nat);
    lemma_dec_reads_back(cfg.ping as nat, usize::MAX as nat);
    match cfg.rate {
        Some(r) => {
            let d = dec(r as nat);
            lemma_dec_reads_back(r as nat, u64::MAX as nat);
            lemma_dec_digits(r as nat);
            assert('0' <= d[0] <= '9' && '0' <= d[d.len() - 1] <= '9');
            lemma_trim_keeps(d);
        },
        None => {
            assert(trim_spec(Seq::<char>::empty()) =~= Seq::empty());
        },
    }
}

/// The form, sent as it shows, asks for the settings that it shows.
pub proof fn form_asks_for_what_it_shows(cfg: ConfigView)
    requires
        cfg.ranges.len() > 0,
        all_entries(cfg.ranges),
        all_entries(cfg.excludes),
        cfg.ports.len() > 0,
        !cfg.ports.contains(0),
        cfg.connect > 0,
        cfg.ping > 0,
    ensures
        form_config(cfg, submitted(form_of(cfg))) == Ok::<ConfigView, FormFault>(cfg),
{
    form_decides(cfg, cfg);
}

/// A number that is written in a field of the form is the one that is asked for, whatever else the
/// form holds; where the form has no such field, the default is. No workers at all become one.
pub proof fn numbers_come_from_their_fields(
    base: ConfigView,
    form: Map<Seq<char>, Seq<char>>,
    cfg: ConfigView,
    min: i32,
    ms: u64,
    workers: usize,
)
    requires
        form_config(base, form) == Ok::<ConfigView, FormFault>(cfg),
    ensures
        form.contains_pair("min_players"@, dec_int(min as int)) ==> cfg.min_players == min,
        form.contains_pair("timeout_ms"@, dec(ms as nat)) ==> cfg.timeout_ms == ms,
        form.contains_pair("connect"@, dec(workers as nat)) ==> cfg.connect == (if workers == 0 {
            1
        } else {
            workers as int
        }),
        form.contains_pair("ping"@, dec(workers as nat)) ==> cfg.ping == (if workers == 0 {
            1
        } else {
            workers as int
        }),
        form.contains_pair("rate"@, dec(ms as nat)) ==> cfg.rate == Some(ms),
        !form.dom().contains("min_players"@) ==> cfg.min_players == base.min_players,
        !form.dom().contains("timeout_ms"@) ==> cfg.timeout_ms == base.timeout_ms,
        !form.dom().contains("connect"@) && base.connect > 0 ==> cfg.connect == base.connect,
        !form.dom().contains("ping"@) && base.ping > 0 ==> cfg.ping == base.ping,
        !form.dom().contains("rate"@) ==> cfg.rate is None,
        cfg.connect > 0 && cfg.ping > 0,
{
    lemma_dec_int_reads_back(min);
    lemma_dec_reads_back(ms as nat, u64::MAX as nat);
    lemma_dec_reads_back(workers as nat, usize::MAX as nat);
    let d = dec(ms as nat);
    lemma_dec_digits(ms as nat);
    assert('0' <= d[0] <= '9' && '0' <= d[d.len() - 1] <= '9');
    lemma_trim_keeps(d);
    assert(trim_spec(Seq::<char>::empty()) =~= Seq::empty());
}

/// Ranges, excluded blocks and ports are those that stand in their fields, a box counts as ticked
/// exactly when the form has its field, and all else is as in the defaults.
pub proof fn lists_come_from_their_fields(
    base: ConfigView,
    form: Map<Seq<char>, Seq<char>>,
    cfg: ConfigView,
    lines: Seq<Seq<char>>,
    ports: Seq<u16>,
)
    requires
        form_config(base, form) == Ok::<ConfigView, FormFault>(cfg),
        all_entries(lines),
        ports.len() > 0,
        !ports.contains(0),
    ensures
        form.contains_pair("ranges"@, join_spec(lines, "\n"@)) ==> cfg.ranges == lines,
        form.contains_pair("excludes"@, join_spec(lines, "\n"@)) ==> cfg.excludes == lines,
        !form.dom().contains("excludes"@) ==> cfg.excludes.len() == 0,
        form.contains_pair("ports"@, comma_list(ports)) ==> cfg.ports == ports,
        !form.dom().contains("ports"@) ==> cfg.ports == seq![25565u16],
        cfg.include_reserved == form.dom().contains("include_reserved"@),
        cfg.tcp == form.dom().contains("tcp"@),
        cfg.fresh == form.dom().contains("fresh"@),
        same_beside_form(base, cfg),
{
    joined_lines_read_back(lines);
    port_list_reads_back(ports);
    lemma_no_lines();
    let usual = seq![25565u16];
    port_list_reads_back(usual);
    assert("25565"@ =~= comma_list(usual)) by {
        reveal_strlit("25565");
        reveal_with_fuel(dec, 6);
    }
}

/// A field that holds no number, or a list of ports that names none, is refused with the fault
/// that its text has; ports are looked at before numbers, and ranges before ports.
pub proof fn bad_fields_are_refused(base: ConfigView, form: Map<Seq<char>, Seq<char>>, bad: Seq<char>)
    requires
        lines_spec(field_or(form, "ranges"@, Seq::empty())).len() > 0,
        bad.len() == 0 || (bad.len() == 1 && !('0' <= bad[0] <= '9')),
    ensures
        ports_spec(field_or(form, "ports"@, "25565"@)) is Err <==> (form_config(base, form) matches Err(
            FormFault::Ports(_),
        )),
        ports_spec(field_or(form, "ports"@, "25565"@)) is Ok && form.contains_pair("min_players"@, bad)
            ==> (form_config(base, form) matches Err(FormFault::Number { field, cause }) && field
            == Field::MinPlayers && cause == (if bad.len() == 0 {
            IntError::Empty
        } else {
            IntError::InvalidDigit
        })),
        form.contains_pair("timeout_ms"@, bad) || form.contains_pair("connect"@, bad)
            || form.contains_pair("ping"@, bad) ==> form_config(base, form) is Err,
{
    if bad.len() == 1 {
        assert(bad.drop_last() =~= Seq::empty());
        assert(crate::num::digits_spec(bad.drop_last(), 10, u64::MAX as nat) is Ok);
        assert(crate::num::digits_spec(bad.drop_last(), 10, usize::MAX as nat) is Ok);
        assert(crate::num::digits_spec(bad.drop_last(), 10, 0x7fff_ffff) is Ok);
    }
}

} // verus!
