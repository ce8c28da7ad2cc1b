use mc_scan::ip::{CidrError, SpaceError};
use mc_scan::limits::nofile_limits;
use mc_scan::num::IntError;
use mc_scan::scan::{
    clone_texts, finish, fmt_eta, load_extra_excludes, mode_text, parse_lines, parse_ports,
    plan_job, plan_rate, port_set, prepare, recv_banner, resume, start_banners, ExcludeFile,
    ExtraError, Finish, Mbps, PortsError, PrepareError, Prepared, Rate, RunOpts, Saver, ScanConfig,
    StateFile, DEFAULT_HITS_FILE,
};
use mc_scan::state::{render, Checkpoint};

#[test]
fn parse_ports_csv() {
    assert_eq!(parse_ports("25565, 25566").unwrap(), vec![25565, 25566]);
}

#[test]
fn parse_lines_skips_comments() {
    let v = parse_lines("192.168.1.0/24\n# no\n10.0.0.0/8\n");
    assert_eq!(v, vec!["192.168.1.0/24", "10.0.0.0/8"]);
}

#[test]
fn ports_are_split_at_commas_and_space() {
    assert_eq!(parse_ports(",1\t2,,\n+3 ").unwrap(), vec![1, 2, 3]);
    assert_eq!(parse_ports("65535").unwrap(), vec![65535]);
    assert_eq!(parse_ports("7 7").unwrap(), vec![7, 7]);
}

#[test]
fn bad_ports_are_refused() {
    assert_eq!(parse_ports(""), Err(PortsError::Missing));
    assert_eq!(parse_ports(" , "), Err(PortsError::Missing));
    assert_eq!(parse_ports("1,0"), Err(PortsError::Zero));
    let err = parse_ports("1 65536 x").unwrap_err();
    assert_eq!(err, PortsError::NotAPort { word: "65536".to_string(), cause: IntError::TooLarge });
    assert_eq!(err.full_message(), "port 65536: number too large to fit in target type");
    assert_eq!(
        parse_ports("80a").unwrap_err().full_message(),
        "port 80a: invalid digit found in string"
    );
    assert_eq!(PortsError::Zero.full_message(), "port 0 is invalid");
    assert_eq!(PortsError::Missing.full_message(), "need at least one port");
}

#[test]
fn lines_are_trimmed() {
    assert_eq!(parse_lines(" a \r\n\r\n#b\n c#d"), vec!["a", "c#d"]);
    assert_eq!(parse_lines("\u{3000}x\u{2003}\n"), vec!["x"]);
    assert!(parse_lines("").is_empty());
}

#[test]
fn ports_are_put_in_order_once() {
    assert_eq!(port_set(&[3, 1, 2, 3, 1]), vec![1, 2, 3]);
    assert_eq!(port_set(&[]), Vec::<u16>::new());
    assert_eq!(port_set(&[1, 2, 3]), port_set(&[3, 3, 2, 1]));
}

#[test]
fn defaults_are_the_documented_ones() {
    let c = ScanConfig::default();
    assert_eq!(c.rate, None);
    assert_eq!(c.mbps, Mbps::Unset);
    assert_eq!(c.ports, vec![25565]);
    assert_eq!((c.timeout_ms, c.connect, c.ping), (1500, 16_384, 1024));
    assert_eq!((c.min_players, c.skip, c.cooldown_ms), (1, 0, 12_000));
    assert_eq!(c.source_port, 41234);
    assert_eq!(c.state, "mc-scan.state");
    assert_eq!(c.hits_file, DEFAULT_HITS_FILE);
    assert_eq!(DEFAULT_HITS_FILE, "servers.txt");
    assert!(!c.include_reserved && !c.no_state && !c.fresh && !c.tcp && !c.quiet);
    assert!(c.ranges.is_empty() && c.excludes.is_empty() && c.exclude_files.is_empty());
    let copy = c.clone();
    assert_eq!(copy.ports, c.ports);
    assert_eq!(copy.state, c.state);
    assert_eq!(clone_texts(&vec!["a".to_string()]), vec!["a"]);
}

fn text(s: &str) -> ExcludeFile {
    ExcludeFile::Text(s.to_string())
}

#[test]
fn excludes_come_from_words_and_files() {
    let words = vec!["0.0.0.10".to_string(), "0.0.0.1".to_string()];
    let got = load_extra_excludes(&words, &[text("0.0.0.2\n"), text("0.0.0.11 x\n")]).unwrap();
    assert_eq!(got, vec![(1, 2), (10, 11)]);
}

#[test]
fn the_first_bad_exclude_is_told() {
    let bad = vec!["1.2.3.4".to_string(), "zz".to_string()];
    let unread = ExcludeFile::Unreadable("reading exclude file f: gone".to_string());
    let err = load_extra_excludes(&bad, &[unread]).unwrap_err();
    assert_eq!(err, ExtraError::Exclude { word: "zz".to_string(), cause: CidrError::Address });
    assert_eq!(err.full_message(), "--exclude zz: invalid IPv4 address syntax");
    let unread = ExcludeFile::Unreadable("reading exclude file f: gone".to_string());
    let err = load_extra_excludes(&[], &[text("1.1.1.1"), unread, text("bad")]).unwrap_err();
    assert_eq!(err.full_message(), "reading exclude file f: gone");
    let err = load_extra_excludes(&[], &[text("1.1.1.1\nbad\n")]).unwrap_err();
    assert_eq!(err.full_message(), "exclude line 2: bad: invalid IPv4 address syntax");
}

fn cfg(range: &str) -> ScanConfig {
    let mut c = ScanConfig::default();
    c.ranges = vec![range.to_string()];
    c
}

fn ready(p: Prepared) -> RunOpts {
    match p.result {
        Ok(opts) => opts,
        Err(e) => panic!("{}", e.full_message()),
    }
}

fn failed(p: Prepared) -> PrepareError {
    match p.result {
        Ok(_) => panic!("expected prepare to fail"),
        Err(e) => e,
    }
}

const FP: u64 = 0x9f30_43b4_778d_f6e8;

#[test]
fn a_scan_is_prepared() {
    let p = prepare(cfg("1.2.3.0/29"), &[], &StateFile::Missing, 77);
    assert!(!p.clear_state);
    assert_eq!(p.notice, None);
    let opts = ready(p);
    assert_eq!(opts.space.total, 8);
    assert_eq!(opts.ports, vec![25565]);
    assert_eq!(opts.fingerprint, FP);
    assert_eq!((opts.seed, opts.skip, opts.total_pkts), (77, 0, 8));
    assert_eq!(opts.rate, Rate::Pps(8000));
    assert!(opts.throttled);
    assert!(!opts.resumed);
}

#[test]
fn ports_in_any_order_are_the_same_job() {
    let mut a = cfg("1.2.3.0/29");
    a.ports = vec![80, 25565, 80];
    let mut b = cfg("1.2.3.0/29");
    b.ports = vec![25565, 80];
    let a = ready(prepare(a, &[], &StateFile::Missing, 1));
    let b = ready(prepare(b, &[], &StateFile::Missing, 1));
    assert_eq!(a.ports, vec![80, 25565]);
    assert_eq!(a.fingerprint, b.fingerprint);
    assert_eq!(a.total_pkts, 16);
}

#[test]
fn preparing_can_fail() {
    let err = failed(prepare(cfg("x"), &[], &StateFile::Missing, 1));
    assert_eq!(err, PrepareError::Space(SpaceError::Cidr(CidrError::Address)));
    assert_eq!(err.full_message(), "building address space: invalid IPv4 address syntax");
    let err = failed(prepare(cfg("10.0.0.1"), &[], &StateFile::Missing, 1));
    assert_eq!(
        err.full_message(),
        "building address space: address space is empty after subtracting reserved/bogon ranges; pass --include-reserved to scan them: address space is empty"
    );
    let mut c = cfg("1.2.3.4");
    c.ports = vec![];
    assert_eq!(failed(prepare(c, &[], &StateFile::Missing, 1)).full_message(), "need at least one port");
    let mut c = cfg("1.2.3.4");
    c.ports = vec![7, 0];
    assert_eq!(failed(prepare(c, &[], &StateFile::Missing, 1)), PrepareError::PortZero);
    assert_eq!(PrepareError::PortZero.full_message(), "port 0 is invalid");
    let mut c = cfg("1.2.3.4");
    c.excludes = vec!["q".to_string()];
    assert_eq!(
        failed(prepare(c, &[], &StateFile::Missing, 1)).full_message(),
        "--exclude q: invalid IPv4 address syntax"
    );
    let mut c = cfg("1.2.3.0/29");
    c.skip = 8;
    assert_eq!(
        failed(prepare(c, &[], &StateFile::Missing, 1)).full_message(),
        "--skip 8 is past the 8 address space"
    );
}

#[test]
fn a_fresh_scan_drops_the_state_even_when_it_fails() {
    let mut c = cfg("1.2.3.0/29");
    c.fresh = true;
    c.skip = 9;
    let p = prepare(c, &[], &saved(3), 1);
    assert!(p.clear_state);
    assert_eq!(failed(p), PrepareError::SkipTooFar { skip: 9, total: 8 });
    let mut c = cfg("bad");
    c.fresh = true;
    assert!(!prepare(c, &[], &StateFile::Missing, 1).clear_state);
}

fn saved(index: u64) -> StateFile {
    StateFile::Text(render(&Checkpoint { seed: 5, index, total: 8, fingerprint: FP }))
}

#[test]
fn a_saved_scan_goes_on() {
    let p = prepare(cfg("1.2.3.0/29"), &[], &saved(3), 77);
    assert_eq!(p.notice, None);
    assert!(!p.clear_state);
    let opts = ready(p);
    assert_eq!((opts.seed, opts.skip, opts.resumed), (5, 3, true));
    assert_eq!(opts.total_pkts, 5);
    let opts = ready(prepare(cfg("1.2.3.0/29"), &[], &saved(0), 77));
    assert_eq!((opts.seed, opts.skip, opts.resumed), (5, 0, false));
}

#[test]
fn an_interrupted_scan_resumes_where_it_stopped() {
    let opts = ready(prepare(cfg("1.2.3.0/29"), &[], &StateFile::Missing, 77));
    let Finish::Saved(ckpt, line) = finish(&opts, 6) else {
        panic!("expected a checkpoint");
    };
    assert_eq!(line, "saved mc-scan.state at 6/8  rerun the same command to continue");
    let again = ready(prepare(cfg("1.2.3.0/29"), &[], &StateFile::Text(render(&ckpt)), 78));
    assert_eq!((again.seed, again.skip, again.resumed), (77, 6, true));
}

#[test]
fn a_finished_scan_starts_over() {
    let p = prepare(cfg("1.2.3.0/29"), &[], &saved(8), 77);
    assert!(p.clear_state);
    assert_eq!(
        p.notice.as_deref(),
        Some("state mc-scan.state already finished this job; starting over")
    );
    let opts = ready(p);
    assert_eq!((opts.seed, opts.skip, opts.resumed), (77, 0, false));
    let opts = ready(prepare(cfg("1.2.3.0/29"), &[], &saved(900), 77));
    assert_eq!(opts.skip, 0);
}

#[test]
fn another_job_starts_fresh() {
    let p = prepare(cfg("1.2.4.0/29"), &[], &saved(3), 77);
    assert_eq!(
        p.notice.as_deref(),
        Some("state mc-scan.state is for a different range/port set; starting fresh")
    );
    assert_eq!(ready(p).seed, 77);
}

#[test]
fn another_seed_starts_fresh() {
    let mut c = cfg("1.2.3.0/29");
    c.seed = Some(9);
    let p = prepare(c, &[], &saved(3), 77);
    assert_eq!(
        p.notice.as_deref(),
        Some("state mc-scan.state has seed 5 (this run --seed Some(9)); starting fresh")
    );
    let opts = ready(p);
    assert_eq!((opts.seed, opts.skip), (9, 0));
    let mut c = cfg("1.2.3.0/29");
    c.seed = Some(5);
    assert_eq!(ready(prepare(c, &[], &saved(3), 77)).skip, 3);
}

#[test]
fn skip_overrides_the_saved_place() {
    let mut c = cfg("1.2.3.0/29");
    c.skip = 2;
    let opts = ready(prepare(c, &[], &saved(3), 77));
    assert_eq!((opts.seed, opts.skip, opts.resumed), (5, 2, true));
}

#[test]
fn skip_past_the_end_is_refused_whatever_was_saved() {
    for file in [StateFile::Missing, saved(3), saved(8)] {
        for skip in [8, 9, u64::MAX] {
            let mut c = cfg("1.2.3.0/29");
            c.skip = skip;
            let p = prepare(c, &[], &file, 77);
            assert!(!p.clear_state);
            assert_eq!(p.notice, None);
            assert_eq!(failed(p), PrepareError::SkipTooFar { skip, total: 8 });
        }
    }
    let mut c = cfg("1.2.3.0/29");
    c.skip = 2;
    let opts = ready(prepare(c, &[], &saved(8), 77));
    assert_eq!((opts.seed, opts.skip, opts.resumed), (5, 2, true));
}

#[test]
fn the_cap_goes_by_the_range() {
    let mut c = cfg("8.0.0.0/10");
    c.skip = 4_000_000;
    c.seed = Some(1);
    c.no_state = true;
    let opts = ready(prepare(c, &[], &StateFile::Missing, 77));
    assert_eq!(opts.space.total, 4_194_304);
    assert_eq!(opts.total_pkts, 194_304);
    assert_eq!((opts.rate, opts.throttled), (Rate::Pps(300_000), false));
}

#[test]
fn an_ignored_state_file_stays() {
    let mut c = cfg("1.2.3.0/29");
    c.no_state = true;
    c.fresh = true;
    let p = prepare(c, &[], &saved(3), 77);
    assert!(!p.clear_state);
    assert_eq!(p.notice, None);
    let opts = ready(p);
    assert_eq!((opts.seed, opts.skip, opts.resumed), (77, 0, false));
    let mut c = cfg("1.2.3.0/29");
    c.fresh = true;
    assert!(prepare(c, &[], &saved(3), 77).clear_state);
}

#[test]
fn unreadable_states_are_ignored() {
    let p = prepare(cfg("1.2.3.0/29"), &[], &StateFile::Unreadable("reading state s: no".to_string()), 77);
    assert_eq!(
        p.notice.as_deref(),
        Some("ignoring unreadable state mc-scan.state: reading state s: no")
    );
    let p = prepare(cfg("1.2.3.0/29"), &[], &StateFile::Text("seed=1".to_string()), 77);
    assert_eq!(
        p.notice.as_deref(),
        Some("ignoring unreadable state mc-scan.state: incomplete state file")
    );
    let mut c = cfg("1.2.3.0/29");
    c.no_state = true;
    let r = resume(&c, &saved(3), FP, 8, 77);
    assert_eq!((r.seed, r.skip, r.resumed, r.clear, r.notice), (77, 0, false, false, None));
}

#[test]
fn small_ranges_are_scanned_slowly() {
    let c = ScanConfig::default();
    assert_eq!(plan_rate(&c, 1_999_999), (Rate::Pps(8000), true));
    assert_eq!(plan_rate(&c, 2_000_000), (Rate::Pps(300_000), false));
    let mut c = ScanConfig::default();
    c.rate = Some(0);
    assert_eq!(plan_rate(&c, 10), (Rate::Pps(1), false));
    c.rate = Some(500_000);
    assert_eq!(plan_rate(&c, 10), (Rate::Pps(500_000), false));
    c.mbps = Mbps::Positive;
    assert_eq!(plan_rate(&c, 10), (Rate::FromMbps, false));
    c.rate = None;
    c.mbps = Mbps::NotPositive;
    assert_eq!(plan_rate(&c, 10), (Rate::Pps(300_000), false));
}

#[test]
fn a_job_is_planned() {
    let plan = match plan_job(&cfg("1.2.3.0/29"), &[text("1.2.3.0/30")]) {
        Ok(plan) => plan,
        Err(e) => panic!("{}", e.full_message()),
    };
    assert_eq!(plan.space.total, 4);
    assert_eq!(plan.space.nth(0), 0x0102_0304);
}

#[test]
fn the_saver_writes_what_has_moved() {
    let opts = ready(prepare(cfg("1.2.3.0/29"), &[], &StateFile::Missing, 77));
    let mut saver = Saver::new(&opts);
    let want = Checkpoint { seed: 77, index: 2, total: 8, fingerprint: FP };
    assert_eq!(saver.on_tick(2), Some(want));
    assert_eq!(saver.on_tick(2), None);
    assert!(saver.on_tick(3).is_some());
}

#[test]
fn a_scan_ends() {
    let opts = ready(prepare(cfg("1.2.3.0/29"), &[], &StateFile::Missing, 77));
    assert_eq!(finish(&opts, 8), Finish::Complete("scan complete; cleared mc-scan.state".to_string()));
    let mut c = cfg("1.2.3.0/29");
    c.no_state = true;
    let opts = ready(prepare(c, &[], &StateFile::Missing, 77));
    assert_eq!(finish(&opts, 3), Finish::NoState);
}

#[test]
fn a_scan_says_what_it_does() {
    let mut c = cfg("1.2.3.0/29");
    c.ports = vec![80, 81];
    let opts = ready(prepare(c, &[], &StateFile::Missing, 77));
    assert_eq!(
        start_banners(&opts, false, "8000", "0s"),
        vec![
            "mc-scan  tcp-mode  8000 pps  ports=[80, 81]  addrs=8  packets=16  eta~0s",
            "state mc-scan.state",
            "capped at 8000 pps for this range (faster floods get dropped); pass --rate to override",
            "no CAP_NET_RAW; TCP connect mode (~16384 concurrent). run as root for ~300k pps SYN scan",
            "printing servers with players >= 1",
        ]
    );
    let mut c = cfg("1.2.3.0/29");
    c.rate = Some(5);
    c.min_players = -3;
    let opts = ready(prepare(c, &[], &saved(3), 77));
    assert_eq!(
        start_banners(&opts, true, "5", "1s"),
        vec![
            "mc-scan  syn-mode  5 pps  ports=[25565]  addrs=8  packets=5  eta~1s",
            "resuming at 3/8  seed=5  state=mc-scan.state",
            "printing servers with players >= -3",
        ]
    );
    let mut c = cfg("1.2.3.0/29");
    c.tcp = true;
    c.no_state = true;
    c.rate = Some(5);
    let opts = ready(prepare(c, &[], &StateFile::Missing, 77));
    assert_eq!(start_banners(&opts, false, "5", "1s").len(), 2);
    assert_eq!(recv_banner("AF_PACKET", 0xc0a8_0001), "recv=AF_PACKET  source=192.168.0.1");
    assert_eq!((mode_text(true), mode_text(false)), ("syn", "tcp"));
}

#[test]
fn times_to_go() {
    assert_eq!(fmt_eta(None, "x"), "?");
    assert_eq!(fmt_eta(Some(0), "x"), "0s");
    assert_eq!(fmt_eta(Some(59), "x"), "59s");
    assert_eq!(fmt_eta(Some(60), "x"), "1m0s");
    assert_eq!(fmt_eta(Some(3599), "x"), "59m59s");
    assert_eq!(fmt_eta(Some(3600), "1.0h"), "1.0h");
}

#[test]
fn open_files_are_raised() {
    assert_eq!(nofile_limits(1024), (1_048_576, 1_048_576));
    assert_eq!(nofile_limits(2_000_000), (1_048_576, 2_000_000));
}

#[test]
fn a_scan_stays_inside_its_ranges() {
    let mut c = cfg("8.0.0.0/6");
    c.ranges.push("1.2.3.0/24".to_string());
    c.excludes = vec!["1.2.3.128/25".to_string()];
    let opts = ready(prepare(c, &[text("9.0.0.0/8")], &StateFile::Missing, 77));
    let stride = opts.space.stride(opts.seed);
    for n in (0..opts.space.total).step_by(100_003) {
        let ip = opts.space.ip_at_step(n, stride);
        let top = ip >> 24;
        assert!(top == 8 || top == 11 || (ip >> 7) == (0x0102_0300 >> 7), "{ip:x}");
    }
    assert_eq!(opts.space.total, 2 * (1 << 24) + 128);
}
