//! The state of a running scan that progress, the web page and the scanners share.

use vstd::prelude::*;
use vstd::string::*;

use crate::ip::{step_spec, AddrSpace};
use crate::ipv4::{push_ipv4, quad_text};
use crate::num::{dec, dec_int, push_dec, push_dec_i32};
use crate::ping::{text_of, Status};
use crate::syn::Target;
use crate::text::texts;

verus! {

/// A server that was found.
#[derive(Debug)]
pub struct Hit {
    pub ip: u32,
    pub port: u16,
    pub online: i32,
    pub max: i32,
    pub version: Option<String>,
    pub motd: Option<String>,
}

/// A server that was found, with texts as characters.
pub struct HitView {
    pub ip: u32,
    pub port: u16,
    pub online: i32,
    pub max: i32,
    pub version: Option<Seq<char>>,
    pub motd: Option<Seq<char>>,
}

impl View for Hit {
    type V = HitView;

    open spec fn view(&self) -> HitView {
        HitView {
            ip: self.ip,
            port: self.port,
            online: self.online,
            max: self.max,
            version: text_of(self.version),
            motd: text_of(self.motd),
        }
    }
}

impl Clone for Hit {
    fn clone(&self) -> (r: Self)
        ensures
            r == *self,
    {
        Hit {
            ip: self.ip,
            port: self.port,
            online: self.online,
            max: self.max,
            version: self.version.clone(),
            motd: self.motd.clone(),
        }
    }
}

/// Two spaces and the text, when there is one.
pub open spec fn spaced(t: Option<Seq<char>>) -> Seq<char> {
    match t {
        Some(t) => "  "@ + t,
        None => Seq::empty(),
    }
}

impl HitView {
    /// The line that is printed for a server.
    pub open spec fn line(self) -> Seq<char> {
        quad_text(self.ip) + ":"@ + dec(self.port as nat) + "  players="@ + dec_int(
            self.online as int,
        ) + "/"@ + dec_int(self.max as int) + spaced(self.version) + spaced(self.motd)
    }
}

impl Hit {
    /// The line that is printed for a server.
    pub fn line(&self) -> (s: String)
        ensures
            s@ == self@.line(),
    {
        let mut s: String = String::new();
        push_ipv4(&mut s, self.ip);
        assert(s@ =~= quad_text(self.ip));
        s.append(":");
        push_dec(&mut s, self.port as u64);
        s.append("  players=");
        push_dec_i32(&mut s, self.online);
        s.append("/");
        push_dec_i32(&mut s, self.max);
        let ghost head = s@;
        if let Some(v) = &self.version {
            s.append("  ");
            s.append(v.as_str());
        }
        assert(s@ =~= head + spaced(self@.version));
        let ghost head = s@;
        if let Some(m) = &self.motd {
            s.append("  ");
            s.append(m.as_str());
        }
        assert(s@ =~= head + spaced(self@.motd));
        s
    }
}

/// What was counted.
#[derive(Clone, Copy, Debug, PartialEq, Eq, Structural)]
pub struct Stats {
    pub packets: u64,
    pub open: u64,
    pub live: u64,
    pub pinged: u64,
    pub send_ms: u64,
}

/// Nothing counted.
pub open spec fn no_stats() -> Stats {
    Stats { packets: 0, open: 0, live: 0, pinged: 0, send_ms: 0 }
}

impl Stats {
    pub fn new() -> (s: Self)
        ensures
            s == no_stats(),
    {
        Stats { packets: 0, open: 0, live: 0, pinged: 0, send_ms: 0 }
    }

    pub fn clear(&mut self)
        ensures
            *final(self) == no_stats(),
    {
        self.packets = 0;
        self.open = 0;
        self.live = 0;
        self.pinged = 0;
        self.send_ms = 0;
    }
}

/// Where a scan stands.
#[derive(Clone, Copy, Debug, PartialEq, Eq, Structural)]
pub enum Phase {
    Idle,
    Running,
    Stopping,
    Done,
}

/// The hits that are kept in memory.
pub const MAX_HITS: usize = 50000;

/// The lines that are kept in memory.
pub const MAX_LOGS: usize = 200;

/// The oldest lines that go when there are too many.
pub const DROPPED_LOGS: usize = 50;

/// The state of a scan.
pub struct Live {
    pub progress: String,
    pub hits: Vec<Hit>,
    pub logs: Vec<String>,
    pub error: Option<String>,
    pub mode: String,
    pub phase: Phase,
    pub tty: bool,
    pub quiet: bool,
    pub print_hits: bool,
    pub hits_file: Option<String>,
    pub stats: Stats,
    pub running: bool,
    pub cursor: u64,
    pub total_pkts: u64,
    pub total_addrs: u64,
}

/// The state of a scan, with texts as characters.
pub struct LiveView {
    pub progress: Seq<char>,
    pub hits: Seq<HitView>,
    pub logs: Seq<Seq<char>>,
    pub error: Option<Seq<char>>,
    pub mode: Seq<char>,
    pub phase: Phase,
    pub tty: bool,
    pub quiet: bool,
    pub print_hits: bool,
    pub hits_file: Option<Seq<char>>,
    pub stats: Stats,
    pub running: bool,
    pub cursor: u64,
    pub total_pkts: u64,
    pub total_addrs: u64,
}

/// The servers that a list holds.
pub open spec fn hit_views(v: Seq<Hit>) -> Seq<HitView> {
    Seq::new(v.len(), |i: int| v[i]@)
}

impl View for Live {
    type V = LiveView;

    open spec fn view(&self) -> LiveView {
        LiveView {
            progress: self.progress@,
            hits: hit_views(self.hits@),
            logs: texts(self.logs@),
            error: text_of(self.error),
            mode: self.mode@,
            phase: self.phase,
            tty: self.tty,
            quiet: self.quiet,
            print_hits: self.print_hits,
            hits_file: text_of(self.hits_file),
            stats: self.stats,
            running: self.running,
            cursor: self.cursor,
            total_pkts: self.total_pkts,
            total_addrs: self.total_addrs,
        }
    }
}

/// What erases the line that a terminal shows.
pub open spec fn erase_line() -> Seq<char> {
    "\r\x1b[K"@
}

impl LiveView {
    /// What is kept stays within bounds, and only a scan in phase `Running` runs.
    pub open spec fn wf(self) -> bool {
        &&& self.hits.len() <= MAX_HITS
        &&& self.logs.len() <= MAX_LOGS
        &&& self.running ==> self.phase == Phase::Running
    }

    /// A scan that has not begun.
    pub open spec fn idle(
        tty: bool,
        quiet: bool,
        print_hits: bool,
        hits_file: Option<Seq<char>>,
    ) -> LiveView {
        LiveView {
            progress: Seq::empty(),
            hits: Seq::empty(),
            logs: Seq::empty(),
            error: None,
            mode: Seq::empty(),
            phase: Phase::Idle,
            tty,
            quiet,
            print_hits,
            hits_file,
            stats: no_stats(),
            running: false,
            cursor: 0,
            total_pkts: 0,
            total_addrs: 0,
        }
    }

    /// A scan that begins.
    pub open spec fn begun(self, total_pkts: u64, total_addrs: u64, skip: u64) -> LiveView {
        LiveView {
            progress: Seq::empty(),
            hits: Seq::empty(),
            logs: Seq::empty(),
            error: None,
            phase: Phase::Running,
            stats: no_stats(),
            running: true,
            cursor: skip,
            total_pkts,
            total_addrs,
            ..self
        }
    }

    pub open spec fn in_phase(self, phase: Phase) -> LiveView {
        LiveView { phase, running: self.running && phase == Phase::Running, ..self }
    }

    /// With one more line; where there are too many, the oldest go.
    pub open spec fn logged(self, line: Seq<char>) -> LiveView {
        LiveView {
            logs: (if self.logs.len() >= MAX_LOGS {
                self.logs.skip(DROPPED_LOGS as int)
            } else {
                self.logs
            }).push(line),
            ..self
        }
    }

    /// A scan that has failed.
    pub open spec fn failed(self, err: Seq<char>) -> LiveView {
        LiveView {
            error: Some(err),
            phase: Phase::Done,
            running: false,
            ..self.logged("error: "@ + err)
        }
    }

    /// A scan that was asked to stop.
    pub open spec fn stopped(self) -> LiveView {
        LiveView {
            running: false,
            phase: if self.phase == Phase::Running {
                Phase::Stopping
            } else {
                self.phase
            },
            ..self
        }
    }

    /// With one more server, while there is room for it.
    pub open spec fn found(self, hit: HitView) -> LiveView {
        if self.hits.len() < MAX_HITS {
            LiveView { hits: self.hits.push(hit), ..self }
        } else {
            self
        }
    }

    /// What standard error gets for a line.
    pub open spec fn printed(self, line: Seq<char>) -> Seq<char> {
        if self.quiet {
            Seq::empty()
        } else {
            line.push('\n')
        }
    }

    /// What standard error gets for a progress line.
    pub open spec fn shown_progress(self, line: Seq<char>) -> Seq<char> {
        if self.quiet {
            Seq::empty()
        } else if self.tty {
            erase_line() + line
        } else {
            line.push('\n')
        }
    }

    /// What is printed for a server: the progress line makes way for it on a terminal.
    pub open spec fn shown_hit(self, hit: HitView) -> HitOutputView {
        let line = hit.line().push('\n');
        HitOutputView {
            before: if self.tty && !self.quiet {
                erase_line()
            } else {
                Seq::empty()
            },
            out: if self.print_hits {
                line
            } else {
                Seq::empty()
            },
            after: if self.tty && !self.quiet {
                self.progress
            } else {
                Seq::empty()
            },
            file: if self.hits_file is Some {
                line
            } else {
                Seq::empty()
            },
        }
    }

    /// After a worker asked for an address.
    pub open spec fn claimed(self) -> LiveView {
        LiveView {
            cursor: if self.running {
                self.cursor.wrapping_add(1)
            } else {
                self.cursor
            },
            ..self
        }
    }

    /// The address that a worker gets.
    pub open spec fn next_address(self, space: AddrSpace, stride: nat) -> Option<u32> {
        if self.running && self.cursor < space.total {
            Some(step_spec(space@, self.cursor as nat, stride))
        } else {
            None
        }
    }

    /// After `n` more workers asked for an address.
    pub open spec fn claimed_often(self, n: nat) -> LiveView
        decreases n,
    {
        if n == 0 {
            self
        } else {
            self.claimed_often((n - 1) as nat).claimed()
        }
    }

    /// After a packet was sent.
    pub open spec fn packet_counted(self) -> LiveView {
        LiveView {
            stats: Stats { packets: self.stats.packets.wrapping_add(1), ..self.stats },
            ..self
        }
    }

    /// After a port was found to be open.
    pub open spec fn port_counted(self) -> LiveView {
        LiveView { stats: Stats { open: self.stats.open.wrapping_add(1), ..self.stats }, ..self }
    }

    /// After a ping was sent.
    pub open spec fn ping_sent(self) -> LiveView {
        LiveView {
            stats: Stats { pinged: self.stats.pinged.wrapping_add(1), ..self.stats },
            ..self
        }
    }

    /// After a server answered a ping; `bump_open` says that its port was not known to be open.
    pub open spec fn answered(self, hit: HitView, min_players: i32, bump_open: bool) -> LiveView {
        let open = if bump_open {
            self.stats.open.wrapping_add(1)
        } else {
            self.stats.open
        };
        if hit.online >= min_players {
            LiveView {
                stats: Stats { open, live: self.stats.live.wrapping_add(1), ..self.stats },
                ..self
            }.found(hit)
        } else {
            LiveView { stats: Stats { open, ..self.stats }, ..self }
        }
    }
}

/// What is printed for a server: first on standard error, then on standard output, again on
/// standard error, and in the file of hits.
#[derive(Debug, PartialEq, Eq)]
pub struct HitOutput {
    pub before: String,
    pub out: String,
    pub after: String,
    pub file: String,
}

/// What is printed for a server, as characters.
pub struct HitOutputView {
    pub before: Seq<char>,
    pub out: Seq<char>,
    pub after: Seq<char>,
    pub file: Seq<char>,
}

impl View for HitOutput {
    type V = HitOutputView;

    open spec fn view(&self) -> HitOutputView {
        HitOutputView {
            before: self.before@,
            out: self.out@,
            after: self.after@,
            file: self.file@,
        }
    }
}

/// The lines that are printed for a list of servers.
pub open spec fn hit_lines(hits: Seq<HitView>) -> Seq<char>
    decreases hits.len(),
{
    if hits.len() == 0 {
        Seq::empty()
    } else {
        hit_lines(hits.drop_last()) + hits.last().line().push('\n')
    }
}

/// The last `max` items of `s`.
pub open spec fn tail<T>(s: Seq<T>, max: nat) -> Seq<T> {
    if s.len() <= max {
        s
    } else {
        s.skip(s.len() - max)
    }
}

/// The server that answered a ping.
pub open spec fn hit_of(to: Target, st: Status) -> HitView {
    HitView {
        ip: to.ip,
        port: to.port,
        online: st.online,
        max: st.max,
        version: text_of(st.version),
        motd: text_of(st.motd),
    }
}

impl Live {
    /// A scan that has not begun.
    pub fn new(tty: bool, quiet: bool, print_hits: bool, hits_file: Option<String>) -> (l: Self)
        ensures
            l@ == LiveView::idle(tty, quiet, print_hits, text_of(hits_file)),
            l@.wf(),
    {
        let l: Live = Live {
            progress: String::new(),
            hits: Vec::new(),
            logs: Vec::new(),
            error: None,
            mode: String::new(),
            phase: Phase::Idle,
            tty,
            quiet,
            print_hits,
            hits_file,
            stats: Stats::new(),
            running: false,
            cursor: 0,
            total_pkts: 0,
            total_addrs: 0,
        };
        assert(l@.progress =~= Seq::empty() && l@.mode =~= Seq::empty());
        assert(l@.hits =~= Seq::empty() && l@.logs =~= Seq::empty());
        l
    }

    /// A scan begins.
    pub fn reset_for_run(&mut self, total_pkts: u64, total_addrs: u64, skip: u64)
        ensures
            final(self)@ == old(self)@.begun(total_pkts, total_addrs, skip),
            final(self)@.wf(),
    {
        self.stats.clear();
        self.cursor = skip;
        self.total_pkts = total_pkts;
        self.total_addrs = total_addrs;
        self.running = true;
        self.progress = String::new();
        self.hits = Vec::new();
        self.logs = Vec::new();
        self.error = None;
        self.phase = Phase::Running;
        assert(self@.progress =~= Seq::empty());
        assert(self@.hits =~= Seq::empty() && self@.logs =~= Seq::empty());
    }

    pub fn phase(&self) -> (r: Phase)
        ensures
            r == self@.phase,
    {
        self.phase
    }

    /// Only a running scan runs on.
    pub fn set_phase(&mut self, phase: Phase)
        ensures
            final(self)@ == old(self)@.in_phase(phase),
            old(self)@.wf() ==> final(self)@.wf(),
    {
        self.phase = phase;
        if phase != Phase::Running {
            self.running = false;
        }
    }

    pub fn set_mode(&mut self, mode: &str)
        ensures
            final(self)@ == (LiveView { mode: mode@, ..old(self)@ }),
            old(self)@.wf() ==> final(self)@.wf(),
    {
        self.mode = mode.to_string();
    }

    pub fn mode(&self) -> (r: String)
        ensures
            r@ == self@.mode,
    {
        self.mode.clone()
    }

    /// Something to tell the user, while the scan goes on as it was.
    pub fn set_notice(&mut self, err: String)
        ensures
            final(self)@ == (LiveView { error: Some(err@), ..old(self)@ }),
            old(self)@.wf() ==> final(self)@.wf(),
    {
        self.error = Some(err);
    }

    /// The scan has failed; gives what standard error gets.
    pub fn set_error(&mut self, err: String) -> (printed: String)
        ensures
            final(self)@ == old(self)@.failed(err@),
            printed@ == old(self)@.printed("error: "@ + err@),
            old(self)@.wf() ==> final(self)@.wf(),
    {
        let mut line: String = "error: ".to_string();
        line.append(err.as_str());
        let printed: String = self.banner(line.as_str());
        self.error = Some(err);
        self.phase = Phase::Done;
        self.running = false;
        printed
    }

    pub fn error(&self) -> (r: Option<String>)
        ensures
            text_of(r) == self@.error,
    {
        self.error.clone()
    }

    /// The last `max` servers.
    pub fn snapshot_hits(&self, max: usize) -> (r: Vec<Hit>)
        ensures
            hit_views(r@) == tail(self@.hits, max as nat),
    {
        let n: usize = self.hits.len();
        let start: usize = if n <= max {
            0
        } else {
            n - max
        };
        let mut out: Vec<Hit> = Vec::new();
        let mut i: usize = start;
        while i < n
            invariant
                start <= i <= n,
                n == self.hits@.len(),
                out@ == self.hits@.subrange(start as int, i as int),
            decreases n - i,
        {
            out.push(self.hits[i].clone());
            i = i + 1;
            assert(out@ =~= self.hits@.subrange(start as int, i as int));
        }
        assert(hit_views(out@) =~= tail(self@.hits, max as nat));
        out
    }

    /// The lines of all servers.
    pub fn all_hit_lines(&self) -> (out: String)
        ensures
            out@ == hit_lines(self@.hits),
    {
        let mut out: String = String::new();
        let mut i: usize = 0;
        assert(out@ =~= hit_lines(self@.hits.take(0)));
        while i < self.hits.len()
            invariant
                i <= self.hits@.len(),
                out@ == hit_lines(self@.hits.take(i as int)),
            decreases self.hits@.len() - i,
        {
            let ghost before = out@;
            assert(self@.hits.take(i + 1).drop_last() =~= self@.hits.take(i as int));
            let line: String = self.hits[i].line();
            out.append(line.as_str());
            out.push('\n');
            assert(out@ =~= before + self@.hits[i as int].line().push('\n'));
            i = i + 1;
        }
        assert(self@.hits.take(i as int) =~= self@.hits);
        out
    }

    pub fn hit_count(&self) -> (r: usize)
        ensures
            r == self@.hits.len(),
    {
        self.hits.len()
    }

    /// The last `max` lines.
    pub fn snapshot_logs(&self, max: usize) -> (r: Vec<String>)
        ensures
            texts(r@) == tail(self@.logs, max as nat),
    {
        let n: usize = self.logs.len();
        let start: usize = if n <= max {
            0
        } else {
            n - max
        };
        let mut out: Vec<String> = Vec::new();
        let mut i: usize = start;
        while i < n
            invariant
                start <= i <= n,
                n == self.logs@.len(),
                out@ == self.logs@.subrange(start as int, i as int),
            decreases n - i,
        {
            out.push(self.logs[i].clone());
            i = i + 1;
            assert(out@ =~= self.logs@.subrange(start as int, i as int));
        }
        assert(texts(out@) =~= tail(self@.logs, max as nat));
        out
    }

    pub fn progress_line(&self) -> (r: String)
        ensures
            r@ == self@.progress,
    {
        self.progress.clone()
    }

    /// The scan is to stop.
    pub fn request_stop(&mut self)
        ensures
            final(self)@ == old(self)@.stopped(),
            final(self)@.running == false,
            old(self)@.wf() ==> final(self)@.wf(),
    {
        self.running = false;
        if self.phase == Phase::Running {
            self.phase = Phase::Stopping;
        }
    }

    /// Keeps a progress line; gives what standard error gets.
    pub fn set_progress(&mut self, line: String) -> (printed: String)
        ensures
            final(self)@ == (LiveView { progress: line@, ..old(self)@ }),
            printed@ == old(self)@.shown_progress(line@),
            old(self)@.wf() ==> final(self)@.wf(),
    {
        let mut printed: String = String::new();
        if !self.quiet {
            if self.tty {
                printed.append("\r\x1b[K");
                printed.append(line.as_str());
            } else {
                printed.append(line.as_str());
                printed.push('\n');
            }
        }
        assert(printed@ =~= self@.shown_progress(line@));
        self.progress = line;
        printed
    }

    /// A server was found; gives what is printed for it.
    pub fn hit(&mut self, hit: Hit) -> (r: HitOutput)
        ensures
            final(self)@ == old(self)@.found(hit@),
            r@ == old(self)@.shown_hit(hit@),
            old(self)@.wf() ==> final(self)@.wf(),
    {
        let mut line: String = hit.line();
        line.push('\n');
        let erase: bool = self.tty && !self.quiet;
        let before: String = if erase {
            "\r\x1b[K".to_string()
        } else {
            String::new()
        };
        let after: String = if erase {
            self.progress.clone()
        } else {
            String::new()
        };
        let out: String = if self.print_hits {
            line.clone()
        } else {
            String::new()
        };
        let file: String = if self.hits_file.is_some() {
            line
        } else {
            String::new()
        };
        let ghost h = hit@;
        if self.hits.len() < MAX_HITS {
            self.hits.push(hit);
            assert(hit_views(self.hits@) =~= hit_views(old(self).hits@).push(h));
        }
        let r: HitOutput = HitOutput { before, out, after, file };
        assert(r@.before =~= old(self)@.shown_hit(h).before);
        assert(r@.out =~= old(self)@.shown_hit(h).out);
        assert(r@.after =~= old(self)@.shown_hit(h).after);
        assert(r@.file =~= old(self)@.shown_hit(h).file);
        r
    }

    /// Keeps a line; gives what standard error gets.
    pub fn banner(&mut self, line: &str) -> (printed: String)
        ensures
            final(self)@ == old(self)@.logged(line@),
            printed@ == old(self)@.printed(line@),
            old(self)@.wf() ==> final(self)@.wf(),
    {
        if self.logs.len() >= MAX_LOGS {
            let kept: Vec<String> = self.logs.split_off(DROPPED_LOGS);
            self.logs = kept;
            assert(texts(self.logs@) =~= texts(old(self).logs@).skip(DROPPED_LOGS as int));
        }
        let ghost before = self.logs@;
        self.logs.push(line.to_string());
        assert(texts(self.logs@) =~= texts(before).push(line@));
        let mut printed: String = String::new();
        if !self.quiet {
            printed.append(line);
            printed.push('\n');
        }
        assert(printed@ =~= old(self)@.printed(line@));
        printed
    }

    /// What standard error gets when the scan is over.
    pub fn finish_tty(&self) -> (printed: String)
        ensures
            printed@ == (if self@.tty && !self@.quiet {
                seq!['\n']
            } else {
                Seq::<char>::empty()
            }),
    {
        let mut printed: String = String::new();
        if self.tty && !self.quiet {
            printed.push('\n');
        }
        assert(printed@ =~= (if self@.tty && !self@.quiet {
            seq!['\n']
        } else {
            Seq::<char>::empty()
        }));
        printed
    }

    /// A packet is sent.
    pub fn packet_sent(&mut self)
        ensures
            final(self)@ == old(self)@.packet_counted(),
            old(self)@.wf() ==> final(self)@.wf(),
    {
        self.stats.packets = self.stats.packets.wrapping_add(1);
    }

    /// A port is found to be open.
    pub fn port_open(&mut self)
        ensures
            final(self)@ == old(self)@.port_counted(),
            old(self)@.wf() ==> final(self)@.wf(),
    {
        self.stats.open = self.stats.open.wrapping_add(1);
    }

    /// A ping is sent.
    pub fn ping_started(&mut self)
        ensures
            final(self)@ == old(self)@.ping_sent(),
            old(self)@.wf() ==> final(self)@.wf(),
    {
        self.stats.pinged = self.stats.pinged.wrapping_add(1);
    }

    /// A server answered a ping; gives what is printed when it has enough players.
    pub fn ping_answered(&mut self, to: Target, st: Status, min_players: i32, bump_open: bool) -> (r:
        Option<HitOutput>)
        ensures
            final(self)@ == old(self)@.answered(hit_of(to, st), min_players, bump_open),
            match r {
                Some(out) => st.online >= min_players && out@ == old(self)@.shown_hit(hit_of(to, st)),
                None => st.online < min_players,
            },
            old(self)@.wf() ==> final(self)@.wf(),
    {
        if bump_open {
            self.stats.open = self.stats.open.wrapping_add(1);
        }
        if st.online < min_players {
            return None;
        }
        self.stats.live = self.stats.live.wrapping_add(1);
        Some(
            self.hit(
                Hit {
                    ip: to.ip,
                    port: to.port,
                    online: st.online,
                    max: st.max,
                    version: st.version,
                    motd: st.motd,
                },
            ),
        )
    }

    /// A worker takes the next address of the shuffle, while the scan runs and there is one.
    pub fn claim(&mut self, space: &AddrSpace, stride: u64) -> (r: Option<u32>)
        requires
            space.wf(),
        ensures
            final(self)@ == old(self)@.claimed(),
            r == old(self)@.next_address(*space, stride as nat),
            old(self)@.wf() ==> final(self)@.wf(),
    {
        if !self.running {
            return None;
        }
        let n: u64 = self.cursor;
        self.cursor = n.wrapping_add(1);
        if n >= space.total {
            return None;
        }
        Some(space.ip_at_step(n, stride))
    }
}

/// The line that shows how far a scan has come; the texts are the rate, the share that is done
/// and the time to go.
pub open spec fn progress_text_spec(
    stats: Stats,
    pps: Seq<char>,
    pct: Seq<char>,
    eta: Seq<char>,
) -> Seq<char> {
    dec(stats.packets as nat) + "  "@ + pps + "pps  "@ + pct + "%  open="@ + dec(stats.open as nat)
        + "  pinged="@ + dec(stats.pinged as nat) + "  live="@ + dec(stats.live as nat) + "  eta~"@
        + eta
}

/// The line that shows how far a scan has come.
pub fn progress_text(stats: &Stats, pps: &str, pct: &str, eta: &str) -> (out: String)
    ensures
        out@ == progress_text_spec(*stats, pps@, pct@, eta@),
{
    let mut out: String = String::new();
    push_dec(&mut out, stats.packets);
    assert(out@ =~= dec(stats.packets as nat));
    out.append("  ");
    out.append(pps);
    out.append("pps  ");
    out.append(pct);
    out.append("%  open=");
    push_dec(&mut out, stats.open);
    out.append("  pinged=");
    push_dec(&mut out, stats.pinged);
    out.append("  live=");
    push_dec(&mut out, stats.live);
    out.append("  eta~");
    out.append(eta);
    out
}

/// The last line that a scan prints.
pub open spec fn done_text_spec(stats: Stats, pps: Seq<char>) -> Seq<char> {
    "done  scanned="@ + dec(stats.packets as nat) + "  send="@ + dec(stats.send_ms as nat) + "ms  "@
        + pps + "pps  open="@ + dec(stats.open as nat) + "  pinged="@ + dec(stats.pinged as nat)
        + "  populated="@ + dec(stats.live as nat)
}

/// The last line that a scan prints.
pub fn done_text(stats: &Stats, pps: &str) -> (out: String)
    ensures
        out@ == done_text_spec(*stats, pps@),
{
    let mut out: String = "done  scanned=".to_string();
    push_dec(&mut out, stats.packets);
    out.append("  send=");
    push_dec(&mut out, stats.send_ms);
    out.append("ms  ");
    out.append(pps);
    out.append("pps  open=");
    push_dec(&mut out, stats.open);
    out.append("  pinged=");
    push_dec(&mut out, stats.pinged);
    out.append("  populated=");
    push_dec(&mut out, stats.live);
    out
}

/// A number that counts on, from the largest back to zero.
pub open spec fn one_more(n: u64) -> int {
    (n + 1) % 0x1_0000_0000_0000_0000
}

/// Each event is counted once, and under its own name: a packet, an open port, a ping, and a
/// server that answers with enough players. None of them touches anything else, but that the last
/// one is kept in the list, while there are fewer than 50000 in it.
pub proof fn events_are_counted(v: LiveView, hit: HitView, min_players: i32, bump_open: bool)
    ensures
        v.packet_counted().stats.packets == one_more(v.stats.packets),
        v.packet_counted().stats.open == v.stats.open && v.packet_counted().stats.pinged == v.stats.pinged
            && v.packet_counted().stats.live == v.stats.live,
        v.port_counted().stats.open == one_more(v.stats.open),
        v.port_counted().stats.packets == v.stats.packets && v.port_counted().stats.pinged
            == v.stats.pinged && v.port_counted().stats.live == v.stats.live,
        v.ping_sent().stats.pinged == one_more(v.stats.pinged),
        v.ping_sent().stats.packets == v.stats.packets && v.ping_sent().stats.open == v.stats.open
            && v.ping_sent().stats.live == v.stats.live,
        ({
            let after = v.answered(hit, min_players, bump_open);
            &&& after.stats.packets == v.stats.packets && after.stats.pinged == v.stats.pinged
            &&& after.stats.open == (if bump_open {
                one_more(v.stats.open)
            } else {
                v.stats.open as int
            })
            &&& hit.online >= min_players ==> after.stats.live == one_more(v.stats.live)
            &&& hit.online >= min_players && v.hits.len() < 50000 ==> after.hits == v.hits.push(hit)
            &&& v.hits.len() >= 50000 ==> after.hits == v.hits
            &&& hit.online < min_players ==> after.stats.live == v.stats.live && after.hits == v.hits
            &&& after.cursor == v.cursor && after.running == v.running && after.phase == v.phase
                && after.logs == v.logs && after.error == v.error
        }),
        v.packet_counted().hits == v.hits && v.port_counted().hits == v.hits && v.ping_sent().hits == v.hits,
{
}

/// Every server that is found gets its line in the file of hits, however many are kept in memory.
pub proof fn every_hit_is_filed(v: LiveView, hit: HitView)
    requires
        v.hits_file is Some,
    ensures
        v.shown_hit(hit).file == hit.line().push('\n'),
{
}

/// The newest line of the log is kept, whatever goes.
pub proof fn newest_line_is_kept(v: LiveView, line: Seq<char>)
    requires
        v.wf(),
    ensures
        v.logged(line).logs.last() == line,
        0 < v.logged(line).logs.len() <= MAX_LOGS,
{
}

proof fn lemma_claims(v: LiveView, n: nat)
    requires
        v.running,
        v.cursor + n <= u64::MAX,
    ensures
        v.claimed_often(n) == (LiveView { cursor: (v.cursor + n) as u64, ..v }),
    decreases n,
{
    if n > 0 {
        lemma_claims(v, (n - 1) as nat);
    }
}

/// While a scan runs, the workers together get every address from where it began, in the order of
/// the shuffle, each of them once, and nothing more; a scan that does not run gives no address.
pub proof fn workers_share_the_addresses(v: LiveView, space: AddrSpace, stride: nat, n: nat)
    requires
        v.cursor + n < u64::MAX,
    ensures
        v.running ==> v.claimed_often(n).next_address(space, stride) == (if v.cursor + n < space.total {
            Some(step_spec(space@, v.cursor as nat + n, stride))
        } else {
            None
        }),
        v.running ==> v.claimed_often(n).cursor == v.cursor + n && v.claimed_often(n).running,
        !v.running ==> v.next_address(space, stride) is None && v.claimed() == v,
{
    if v.running {
        lemma_claims(v, n);
    }
}

/// A server is printed where servers are to be printed, with one line, and nowhere else.
pub proof fn servers_are_printed_once(v: LiveView, hit: HitView)
    ensures
        v.print_hits ==> v.shown_hit(hit).out == hit.line().push('\n'),
        !v.print_hits ==> v.shown_hit(hit).out.len() == 0,
        v.hits_file is None ==> v.shown_hit(hit).file.len() == 0,
        v.quiet || !v.tty ==> v.shown_hit(hit).before.len() == 0 && v.shown_hit(hit).after.len() == 0,
        v.tty && !v.quiet ==> v.shown_hit(hit).after == v.progress,
{
}

/// A scan that begins has found and counted nothing, has no error, and stands at its first step.
pub proof fn new_scan_has_a_clean_slate(v: LiveView, total_pkts: u64, total_addrs: u64, skip: u64)
    ensures
        ({
            let begun = v.begun(total_pkts, total_addrs, skip);
            &&& begun.hits.len() == 0 && begun.logs.len() == 0 && begun.error is None && begun.progress.len() == 0
            &&& begun.stats.packets == 0 && begun.stats.open == 0 && begun.stats.live == 0
                && begun.stats.pinged == 0 && begun.stats.send_ms == 0
            &&& begun.cursor == skip && begun.total_pkts == total_pkts && begun.total_addrs == total_addrs
            &&& begun.running && begun.phase == Phase::Running
        }),
{
}

/// The lines of the servers stand in the order in which the servers were found.
pub proof fn servers_are_listed_in_order(a: Seq<HitView>, b: Seq<HitView>, hit: HitView)
    ensures
        hit_lines(a + b) == hit_lines(a) + hit_lines(b),
        hit_lines(seq![hit]) == hit.line().push('\n'),
        hit_lines(Seq::empty()) == Seq::<char>::empty(),
    decreases b.len(),
{
    assert(seq![hit].drop_last() =~= Seq::empty());
    assert(hit_lines(Seq::empty()) =~= Seq::<char>::empty());
    assert(hit_lines(seq![hit]) =~= hit.line().push('\n'));
    if b.len() == 0 {
        assert(a + b =~= a);
        assert(hit_lines(a) + hit_lines(b) =~= hit_lines(a));
    } else {
        servers_are_listed_in_order(a, b.drop_last(), hit);
        assert((a + b).drop_last() =~= a + b.drop_last());
        assert(hit_lines(a + b) =~= hit_lines(a) + hit_lines(b));
    }
}

/// The lines of the log stay in their order, and none goes before there are 200; at most 50 go at
/// once.
pub proof fn log_keeps_its_lines(v: LiveView, line: Seq<char>)
    ensures
        v.logs.len() < 200 ==> v.logged(line).logs == v.logs.push(line),
        v.logs.len() >= 200 ==> v.logged(line).logs == v.logs.skip(50).push(line),
        v.logged(line).hits == v.hits && v.logged(line).stats == v.stats && v.logged(line).running
            == v.running && v.logged(line).phase == v.phase && v.logged(line).cursor == v.cursor,
{
}

/// A scan that fails is over, and tells why.
pub proof fn failed_scan_tells_why(v: LiveView, why: Seq<char>)
    ensures
        v.failed(why).error == Some(why),
        v.failed(why).phase == Phase::Done && !v.failed(why).running,
        v.failed(why).logs.len() > 0 && v.failed(why).logs.last() == "error: "@ + why,
        v.failed(why).hits == v.hits && v.failed(why).cursor == v.cursor,
{
}

/// Unless nothing is to be said, a line is printed on a line of its own; progress takes the place of
/// the progress before it on a terminal.
pub proof fn lines_are_printed_unless_quiet(v: LiveView, line: Seq<char>)
    ensures
        v.quiet ==> v.printed(line).len() == 0 && v.shown_progress(line).len() == 0,
        !v.quiet ==> v.printed(line) == line + seq!['\n'],
        !v.quiet && !v.tty ==> v.shown_progress(line) == line + seq!['\n'],
        !v.quiet && v.tty ==> v.shown_progress(line) == "\r\x1b[K"@ + line,
{
    assert(line.push('\n') =~= line + seq!['\n']);
}

} // verus!
