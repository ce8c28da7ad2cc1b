use mc_scan::ip::AddrSpace;
use mc_scan::live::{done_text, progress_text, Hit, Live, Phase, Stats};
use mc_scan::ping::Status;
use mc_scan::syn::Target;

fn hit(ip: u32) -> Hit {
    Hit { ip, port: 25565, online: 7, max: -1, version: None, motd: None }
}

#[test]
fn hit_lines_are_exact() {
    let mut h = hit(0x0102_0304);
    assert_eq!(h.line(), "1.2.3.4:25565  players=7/-1");
    h.version = Some("1.21".to_string());
    assert_eq!(h.line(), "1.2.3.4:25565  players=7/-1  1.21");
    h.motd = Some("hi".to_string());
    assert_eq!(h.line(), "1.2.3.4:25565  players=7/-1  1.21  hi");
    h.version = None;
    assert_eq!(h.clone().line(), "1.2.3.4:25565  players=7/-1  hi");
}

#[test]
fn a_scan_passes_through_its_phases() {
    let mut l = Live::new(false, true, false, None);
    assert_eq!(l.phase(), Phase::Idle);
    assert!(!l.running);
    l.set_mode("syn");
    l.set_notice("n".to_string());
    assert_eq!(l.error().as_deref(), Some("n"));
    assert_eq!(l.phase(), Phase::Idle);
    l.reset_for_run(10, 5, 2);
    assert_eq!(l.phase(), Phase::Running);
    assert!(l.running);
    assert_eq!((l.total_pkts, l.total_addrs, l.cursor), (10, 5, 2));
    assert_eq!(l.error(), None);
    assert_eq!(l.mode(), "syn");
    l.request_stop();
    assert_eq!(l.phase(), Phase::Stopping);
    assert!(!l.running);
    l.request_stop();
    assert_eq!(l.phase(), Phase::Stopping);
    l.set_phase(Phase::Done);
    assert_eq!(l.phase(), Phase::Done);
    l.request_stop();
    assert_eq!(l.phase(), Phase::Done);
    l.reset_for_run(1, 1, 0);
    l.set_phase(Phase::Running);
    assert!(l.running);
}

#[test]
fn an_error_ends_the_scan() {
    let mut l = Live::new(false, false, false, None);
    l.reset_for_run(1, 1, 0);
    assert_eq!(l.set_error("boom".to_string()), "error: boom\n");
    assert_eq!(l.error().as_deref(), Some("boom"));
    assert_eq!(l.phase(), Phase::Done);
    assert!(!l.running);
    assert_eq!(l.snapshot_logs(9), vec!["error: boom"]);
}

#[test]
fn logs_are_bounded() {
    let mut l = Live::new(false, true, false, None);
    for i in 0..200 {
        assert_eq!(l.banner(&format!("{i}")), "");
    }
    assert_eq!(l.logs.len(), 200);
    l.banner("last");
    assert_eq!(l.logs.len(), 151);
    assert_eq!(l.snapshot_logs(1), vec!["last"]);
    assert_eq!(l.snapshot_logs(1000)[0], "50");
    assert_eq!(l.snapshot_logs(2), vec!["199", "last"]);
}

#[test]
fn hits_are_bounded_but_all_are_filed() {
    let mut l = Live::new(false, true, false, Some("servers.txt".to_string()));
    for i in 0..50_000u32 {
        l.hit(hit(i));
    }
    assert_eq!(l.hit_count(), 50_000);
    let out = l.hit(hit(0x0102_0304));
    assert_eq!(l.hit_count(), 50_000);
    assert_eq!(out.file, "1.2.3.4:25565  players=7/-1\n");
    assert_eq!(out.out, "");
    let tail = l.snapshot_hits(2);
    assert_eq!((tail[0].ip, tail[1].ip), (49_998, 49_999));
    assert_eq!(l.snapshot_hits(60_000).len(), 50_000);
}

#[test]
fn hits_are_printed_around_the_progress_line() {
    let mut l = Live::new(true, false, true, None);
    assert_eq!(l.set_progress("50%".to_string()), "\r\x1b[K50%");
    assert_eq!(l.progress_line(), "50%");
    let out = l.hit(hit(1));
    assert_eq!(out.before, "\r\x1b[K");
    assert_eq!(out.out, "0.0.0.1:25565  players=7/-1\n");
    assert_eq!(out.after, "50%");
    assert_eq!(out.file, "");
    assert_eq!(l.finish_tty(), "\n");
    assert_eq!(l.all_hit_lines(), "0.0.0.1:25565  players=7/-1\n");
    let mut q = Live::new(true, true, true, None);
    assert_eq!(q.set_progress("50%".to_string()), "");
    assert_eq!(q.hit(hit(1)).before, "");
    assert_eq!(q.finish_tty(), "");
    let mut p = Live::new(false, false, false, None);
    assert_eq!(p.set_progress("50%".to_string()), "50%\n");
    assert_eq!(p.banner("x"), "x\n");
    assert_eq!(p.finish_tty(), "");
    assert_eq!(p.all_hit_lines(), "");
}

fn status(online: i32) -> Status {
    Status { online, max: 9, version: Some("v".to_string()), motd: None }
}

#[test]
fn populated_servers_are_kept() {
    let mut l = Live::new(false, true, true, None);
    let to = Target { ip: 1, port: 2 };
    l.ping_started();
    assert!(l.ping_answered(to, status(0), 1, true).is_none());
    let out = l.ping_answered(to, status(1), 1, false).unwrap();
    assert_eq!(out.out, "0.0.0.1:2  players=1/9  v\n");
    assert_eq!(
        l.stats,
        Stats { packets: 0, open: 1, live: 1, pinged: 1, send_ms: 0 }
    );
    l.packet_sent();
    l.port_open();
    assert_eq!((l.stats.packets, l.stats.open), (1, 2));
    assert_eq!(l.hit_count(), 1);
    l.stats.clear();
    assert_eq!(l.stats, Stats::new());
}

#[test]
fn workers_claim_each_address_once() {
    let space = match AddrSpace::new(vec![(10, 14)]) {
        Ok(space) => space,
        Err(_) => panic!("space"),
    };
    let stride = space.stride(3);
    let mut l = Live::new(false, true, false, None);
    assert_eq!(l.claim(&space, stride), None);
    assert_eq!(l.cursor, 0);
    l.reset_for_run(5, 5, 0);
    let mut got = Vec::new();
    while let Some(ip) = l.claim(&space, stride) {
        got.push(ip);
    }
    got.sort();
    assert_eq!(got, vec![10, 11, 12, 13, 14]);
    assert_eq!(l.cursor, 6);
    l.request_stop();
    assert_eq!(l.claim(&space, stride), None);
    assert_eq!(l.cursor, 6);
}

#[test]
fn progress_texts_are_exact() {
    let s = Stats { packets: 10, open: 2, live: 1, pinged: 3, send_ms: 40 };
    assert_eq!(
        progress_text(&s, "5", "50.000", "2s"),
        "10  5pps  50.000%  open=2  pinged=3  live=1  eta~2s"
    );
    assert_eq!(
        done_text(&s, "250"),
        "done  scanned=10  send=40ms  250pps  open=2  pinged=3  populated=1"
    );
}
