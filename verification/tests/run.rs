use mc_scan::live::{Live, Phase};
use mc_scan::run::{announce, begin, close, end};
use mc_scan::scan::{prepare, Finish, RunOpts, ScanConfig, StateFile};

fn opts(tcp: bool, no_state: bool) -> RunOpts {
    let mut c = ScanConfig::default();
    c.ranges = vec!["1.2.3.0/29".to_string()];
    c.tcp = tcp;
    c.no_state = no_state;
    c.rate = Some(5);
    match prepare(c, &[], &StateFile::Missing, 77).result {
        Ok(opts) => opts,
        Err(e) => panic!("{}", e.full_message()),
    }
}

#[test]
fn a_run_from_begin_to_end() {
    let o = opts(false, false);
    let mut l = Live::new(true, false, false, None);
    assert!(begin(&o, &mut l));
    assert!(l.running);
    assert_eq!((l.total_pkts, l.total_addrs, l.cursor), (8, 8, 0));
    let printed = announce(&o, &mut l, true, "5", "1s");
    assert_eq!(
        printed,
        "mc-scan  syn-mode  5 pps  ports=[25565]  addrs=8  packets=8  eta~1s\nstate mc-scan.state\nprinting servers with players >= 1\n"
    );
    assert_eq!(l.mode(), "syn");
    assert_eq!(l.logs.len(), 3);
    l.cursor = 3;
    let (file, printed) = end(&o, &mut l);
    assert!(!l.running);
    assert_eq!(l.phase(), Phase::Running);
    let Finish::Saved(ckpt, line) = file else {
        panic!("expected a checkpoint");
    };
    assert_eq!((ckpt.index, ckpt.seed), (3, 77));
    assert_eq!(printed, format!("{line}\n"));
    assert_eq!(l.snapshot_logs(1), vec![line]);
    l.packet_sent();
    l.stats.send_ms = 20;
    let printed = close(&mut l, "50");
    assert_eq!(
        printed,
        "\ndone  scanned=1  send=20ms  50pps  open=0  pinged=0  populated=0\n"
    );
    assert_eq!(l.phase(), Phase::Done);
    assert!(!l.running);
}

#[test]
fn a_complete_run_leaves_nothing() {
    let o = opts(true, false);
    let mut l = Live::new(false, true, false, None);
    assert!(!begin(&o, &mut l));
    assert_eq!(announce(&o, &mut l, false, "5", "1s"), "");
    assert_eq!(l.mode(), "tcp");
    l.cursor = 8;
    let (file, printed) = end(&o, &mut l);
    assert_eq!(file, Finish::Complete("scan complete; cleared mc-scan.state".to_string()));
    assert_eq!(printed, "");
    assert_eq!(close(&mut l, "0"), "");
}

#[test]
fn a_run_without_a_state_file() {
    let o = opts(true, true);
    let mut l = Live::new(false, false, false, None);
    begin(&o, &mut l);
    l.cursor = 4;
    assert_eq!(end(&o, &mut l), (Finish::NoState, String::new()));
    assert!(l.logs.is_empty());
}
