use mc_scan::http::{html, parse_head, redirect, text, Request};
use mc_scan::live::{Hit, Live, Phase};
use mc_scan::num::IntError;
use mc_scan::scan::{prepare, Mbps, PortsError, ScanConfig, StateFile};
use mc_scan::strmap::StrMap;
use mc_scan::web::{
    changed, checked, config_from_form, dispatch, error_box, esc, friendly_err, hits_block,
    live_block, page, parse_bind, phase_label, refuse, route, share, start_scan, Action, Bind,
    BindError, Field, FormError, FormState, Percent, Route, Share, StartError,
};

#[test]
fn esc_stops_xss() {
    assert_eq!(esc("<script>"), "&lt;script&gt;");
}

#[test]
fn bind_port_only() {
    assert_eq!(parse_bind("8080").unwrap(), Bind::V4 { ip: 0, port: 8080 });
    assert_eq!(parse_bind("127.0.0.1:9").unwrap(), Bind::V4 { ip: 0x7f00_0001, port: 9 });
}

#[test]
fn form_requires_range() {
    let err = config_from_form(&ScanConfig::default(), &StrMap::new())
        .unwrap_err()
        .full_message();
    assert!(err.contains("CIDR"));
}

fn form(fields: &[(&str, &str)]) -> StrMap {
    let mut m = StrMap::new();
    for (k, v) in fields {
        m.insert(k.to_string(), v.to_string());
    }
    m
}

#[test]
fn private_range_is_explained() {
    let form = form(&[("ranges", "127.0.0.1"), ("ports", "25565")]);
    let cfg = config_from_form(&ScanConfig::default(), &form).unwrap();
    let Err(err) = prepare(cfg, &[], &StateFile::Missing, 1).result else {
        panic!("expected prepare to fail");
    };
    assert!(friendly_err(&err.full_message()).contains("private"));
}

#[test]
fn other_errors_are_told_as_they_are() {
    assert_eq!(friendly_err("rate: x"), "rate: x");
    assert_eq!(
        friendly_err("..include-reserved"),
        "that range is private or reserved. tick “include private / reserved” and scan again."
    );
}

#[test]
fn addresses_to_listen_on() {
    assert_eq!(parse_bind(" :80 "), Ok(Bind::V4 { ip: 0, port: 80 }));
    assert_eq!(parse_bind("1.2.3.4:0"), Ok(Bind::V4 { ip: 0x0102_0304, port: 0 }));
    assert_eq!(parse_bind("1.2.3.4:65535"), Ok(Bind::V4 { ip: 0x0102_0304, port: 65535 }));
    assert_eq!(parse_bind("1.2.3.4:0080"), Ok(Bind::V4 { ip: 0x0102_0304, port: 80 }));
    assert_eq!(parse_bind("+80"), Ok(Bind::V4 { ip: 0, port: 80 }));
    for s in ["", ":", "x", "1.2.3.4", "1.2.3.4:", "1.2.3.4:+80", "1.2.3.4:65536", "65536", "::80", "a:80", "01.2.3.4:80", "1.2.3.4:-1", "1.2.3.4::80", "1.2.3.4:8x"] {
        assert!(parse_bind(s).is_err(), "{s}");
    }
    assert_eq!(
        parse_bind("x").unwrap_err().message(),
        "expected HOST:PORT, :PORT, or PORT"
    );
}

fn v6(ip6: u128, port: u16, scope: u32) -> Result<Bind, BindError> {
    Ok(Bind::V6 { ip6, port, scope })
}

#[test]
fn ipv6_addresses_to_listen_on() {
    assert_eq!(parse_bind("[::1]:80"), v6(1, 80, 0));
    assert_eq!(parse_bind(" [::]:0 "), v6(0, 0, 0));
    assert_eq!(parse_bind("[fe80::1%3]:8080"), v6(0xfe80_0000_0000_0000_0000_0000_0000_0001, 8080, 3));
    assert_eq!(
        parse_bind("[1:2:3:4:5:6:7:8]:9"),
        v6(0x0001_0002_0003_0004_0005_0006_0007_0008, 9, 0)
    );
    assert_eq!(parse_bind("[2001:DB8::ffff:0]:00080"), v6(0x2001_0db8_0000_0000_0000_0000_ffff_0000, 80, 0));
    assert_eq!(parse_bind("[::ffff:1.2.3.4]:80"), v6(0xffff_0102_0304, 80, 0));
    assert_eq!(parse_bind("[1:2:3:4:5:6:1.2.3.4]:80"), v6(0x0001_0002_0003_0004_0005_0006_0102_0304, 80, 0));
    assert_eq!(parse_bind("[1:2:3:4:5:6:7::]:80"), v6(0x0001_0002_0003_0004_0005_0006_0007_0000, 80, 0));
    assert_eq!(parse_bind("[::2:3:4:5:6:7:8]:80"), v6(0x0000_0002_0003_0004_0005_0006_0007_0008, 80, 0));
    assert_eq!(parse_bind("[1::8]:80"), v6(0x0001_0000_0000_0000_0000_0000_0000_0008, 80, 0));
    for s in [
        "[::1]", "[::1]:", "[::1]:+80", "[::1]:65536", "[::1:80", "::1]:80", "[]:80", "[:]:80",
        "[1:2:3:4:5:6:7]:80", "[1:2:3:4:5:6:7:8:9]:80", "[1:2:3:4:5:6:7:8::]:80", "[12345::]:80",
        "[g::]:80", "[1:::2]:80", "[1::2::3]:80", "[:1::]:80", "[1::2:]:80", "[1.2.3.4::]:80",
        "[::1.2.3.4:5]:80", "[::1.2.3]:80", "[::+1]:80", "[::1%]:80", "[::1%x]:80", "[::1%+1]:80",
        "[::1%4294967296]:80", "[1:2:3:4:5:6:7:1.2.3.4]:80", "[1::2:3:4:5:6:7:8]:80", "[::1]x:80",
    ] {
        assert!(parse_bind(s).is_err(), "{s}");
    }
}

#[test]
fn a_form_sets_what_it_names() {
    let mut base = ScanConfig::default();
    base.min_players = 4;
    base.timeout_ms = 9;
    base.mbps = Mbps::Positive;
    base.skip = 3;
    let f = form(&[
        ("ranges", "1.2.3.4\n# no\n5.6.7.8"),
        ("excludes", "9.9.9.9"),
        ("ports", "1 2"),
        ("connect", "0"),
        ("ping", "7"),
        ("rate", " 12 "),
        ("tcp", "on"),
    ]);
    let c = config_from_form(&base, &f).unwrap();
    assert_eq!(c.ranges, vec!["1.2.3.4", "5.6.7.8"]);
    assert_eq!(c.excludes, vec!["9.9.9.9"]);
    assert_eq!(c.ports, vec![1, 2]);
    assert_eq!((c.min_players, c.timeout_ms, c.connect, c.ping), (4, 9, 1, 7));
    assert_eq!(c.rate, Some(12));
    assert!(c.tcp && !c.fresh && !c.include_reserved);
    assert_eq!((c.mbps, c.skip), (Mbps::Positive, 3));
    let c = config_from_form(&base, &form(&[("ranges", "1.1.1.1")])).unwrap();
    assert_eq!(c.ports, vec![25565]);
    assert_eq!(c.rate, None);
}

fn refused_form(name: &str, value: &str) -> FormError {
    let f = form(&[("ranges", "1.1.1.1"), (name, value)]);
    config_from_form(&ScanConfig::default(), &f).unwrap_err()
}

#[test]
fn bad_fields_are_named() {
    assert_eq!(refused_form("ranges", " \n#x"), FormError::NoRange);
    assert_eq!(refused_form("ports", "0"), FormError::Ports(PortsError::Zero));
    for (name, field, label) in [
        ("min_players", Field::MinPlayers, "min players"),
        ("timeout_ms", Field::Timeout, "timeout"),
        ("connect", Field::Connect, "connect workers"),
        ("ping", Field::Ping, "ping workers"),
        ("rate", Field::Rate, "rate"),
    ] {
        let err = refused_form(name, "x");
        assert_eq!(err, FormError::Number { field, cause: IntError::InvalidDigit });
        assert_eq!(err.full_message(), format!("{label}: invalid digit found in string"));
        assert_eq!(field.label(), label);
    }
    assert_eq!(
        refused_form("min_players", ""),
        FormError::Number { field: Field::MinPlayers, cause: IntError::Empty }
    );
    assert_eq!(refused_form("ports", "x").full_message(), "port x: invalid digit found in string");
    assert_eq!(
        FormError::NoRange.full_message(),
        "name at least one CIDR or IP (the web UI will not scan all of IPv4 by default)"
    );
}

#[test]
fn the_form_asks_for_what_it_shows() {
    let mut cfg = ScanConfig::default();
    cfg.ranges = vec!["1.2.3.0/24".to_string(), "5.6.7.8".to_string()];
    cfg.excludes = vec!["1.2.3.4".to_string()];
    cfg.ports = vec![25565, 80];
    cfg.min_players = -2;
    cfg.rate = Some(77);
    cfg.tcp = true;
    let f = FormState::from_cfg(&cfg);
    assert_eq!(f.ranges, "1.2.3.0/24\n5.6.7.8");
    assert_eq!(f.ports, "25565, 80");
    assert_eq!((f.min_players.as_str(), f.rate.as_str()), ("-2", "77"));
    let sent = form(&[
        ("ranges", &f.ranges),
        ("excludes", &f.excludes),
        ("ports", &f.ports),
        ("min_players", &f.min_players),
        ("rate", &f.rate),
        ("timeout_ms", &f.timeout_ms),
        ("connect", &f.connect),
        ("ping", &f.ping),
        ("tcp", "on"),
    ]);
    let c = config_from_form(&cfg, &sent).unwrap();
    assert_eq!(c.ranges, cfg.ranges);
    assert_eq!(c.excludes, cfg.excludes);
    assert_eq!(c.ports, cfg.ports);
    assert_eq!((c.min_players, c.rate, c.tcp), (-2, Some(77), true));
    assert_eq!((c.timeout_ms, c.connect, c.ping), (1500, 16_384, 1024));
    assert_eq!(FormState::from_cfg(&ScanConfig::default()).rate, "");
}

fn pct() -> Percent {
    Percent { value: "12.500".to_string(), label: "12.5".to_string() }
}

fn idle() -> Live {
    Live::new(false, true, false, None)
}

#[test]
fn texts_are_escaped() {
    assert_eq!(esc("a&b\"c'd>"), "a&amp;b&quot;c&#39;d&gt;");
    assert_eq!(esc("plain é"), "plain é");
    assert_eq!(error_box("<x>"), "<p class=\"err\" role=\"alert\">&lt;x&gt;</p>");
    assert_eq!((checked(true), checked(false)), ("checked", ""));
}

#[test]
fn the_status_block_shows_the_scan() {
    let mut l = idle();
    let s = live_block(&l, &pct());
    assert!(s.starts_with("<section id=\"live\" class=\"panel\" hx-get=\"/live\" hx-trigger=\"every 1s\" hx-swap=\"outerHTML\" aria-live=\"polite\">\n"));
    assert!(s.contains("<p class=\"pill idle\">idle · —</p>"));
    assert!(s.contains("<dt>eta</dt><dd>—</dd>"));
    assert!(s.contains("value=\"12.500\" aria-label=\"scan progress\">12.5%</progress>"));
    assert!(s.ends_with("</section>\n"));
    l.reset_for_run(40, 20, 0);
    l.set_mode("tcp");
    l.set_progress("5  1pps  eta~3s".to_string());
    l.set_notice("<bad>".to_string());
    for i in 0..13 {
        l.banner(&format!("line {i}"));
    }
    l.packet_sent();
    let s = live_block(&l, &pct());
    assert!(s.contains("<p class=\"pill running\">running · tcp</p>"));
    assert!(s.contains("<dt>eta</dt><dd>3s</dd>"));
    assert!(s.contains("<dt>scanned</dt><dd>1</dd>"));
    assert!(s.contains("<dt>of</dt><dd>40</dd>"));
    assert!(s.contains("<dt>addrs</dt><dd>20</dd>"));
    assert!(s.contains("&lt;bad&gt;"));
    assert!(!s.contains("<li>line 0</li>"));
    assert!(s.contains("<ol class=\"log\"><li>line 1</li>"));
    assert!(s.contains("<li>line 12</li></ol>"));
    l.set_progress("eta~a eta~b".to_string());
    assert!(live_block(&l, &pct()).contains("<dt>eta</dt><dd>a </dd>"));
    for (p, label) in [
        (Phase::Idle, "idle"),
        (Phase::Running, "running"),
        (Phase::Stopping, "stopping"),
        (Phase::Done, "done"),
    ] {
        assert_eq!(phase_label(p), label);
    }
}

#[test]
fn the_share_of_a_scan() {
    let mut l = idle();
    assert_eq!(share(&l), Share::Nothing);
    l.set_phase(Phase::Done);
    assert_eq!(share(&l), Share::All);
    l.reset_for_run(8, 8, 0);
    l.packet_sent();
    assert_eq!(share(&l), Share::Part { done: 1, total: 8 });
}

fn found(ip: u32, motd: &str) -> Hit {
    Hit { ip, port: 5, online: 1, max: 2, version: None, motd: Some(motd.to_string()) }
}

#[test]
fn the_table_shows_the_newest_first() {
    let mut l = idle();
    assert!(hits_block(&l).contains("<p class=\"pill\">0</p>"));
    assert!(hits_block(&l).contains("class=\"empty\">No populated servers yet."));
    l.hit(found(1, "<a>"));
    l.hit(found(2, "b"));
    let s = hits_block(&l);
    assert!(s.contains("<p class=\"pill\">2</p>"));
    assert!(s.contains(
        "<tbody><tr><td><code>0.0.0.2:5</code></td><td class=\"num\">1/2</td><td></td><td>b</td></tr><tr><td><code>0.0.0.1:5</code></td><td class=\"num\">1/2</td><td></td><td>&lt;a&gt;</td></tr></tbody>"
    ));
    for i in 0..400 {
        l.hit(found(i + 10, "x"));
    }
    let s = hits_block(&l);
    assert!(s.contains("<p class=\"pill\">402</p>"));
    assert!(!s.contains("0.0.0.2:5"));
}

#[test]
fn the_page_holds_the_form() {
    let mut cfg = ScanConfig::default();
    cfg.ranges = vec!["\"<".to_string()];
    cfg.tcp = true;
    let s = page(&FormState::from_cfg(&cfg), &idle(), &pct());
    assert!(s.starts_with("<!doctype html>\n"));
    assert!(s.contains("htmx.org"));
    assert!(s.contains("name=\"ranges\""));
    assert!(s.contains("autofocus>&quot;&lt;</textarea>"));
    assert!(s.contains("<input name=\"ports\" value=\"25565\""));
    assert!(s.contains("<input name=\"rate\" value=\"\""));
    assert!(s.contains("name=\"tcp\" checked>"));
    assert!(s.contains("name=\"fresh\" >"));
    assert!(s.contains("--accent: #c6e04a;"));
    assert!(s.contains(&live_block(&idle(), &pct())));
    assert!(s.contains(&hits_block(&idle())));
    assert!(s.ends_with("</main>\n</body>\n</html>\n"));
}

#[test]
fn requests_are_routed() {
    assert_eq!(route("GET", "/"), Route::Page);
    assert_eq!(route("GET", "/live"), Route::Live);
    assert_eq!(route("GET", "/hits"), Route::Hits);
    assert_eq!(route("GET", "/hits.txt"), Route::HitsText);
    assert_eq!(route("POST", "/start"), Route::Start);
    assert_eq!(route("POST", "/stop"), Route::Stop);
    assert_eq!(route("GET", "/start"), Route::NotFound);
    assert_eq!(route("get", "/"), Route::NotFound);
    assert_eq!(route("GET", "/x"), Route::NotFound);
}

fn request(head: &str, body: &[u8]) -> Request {
    let mut req = parse_head(head);
    req.body = body.to_vec();
    req
}

fn bytes(a: Action) -> Vec<u8> {
    match a {
        Action::Respond(b) => b,
        Action::Begin(_) => panic!("begin"),
    }
}

fn ask(head: &str, body: &[u8], live: &mut Live) -> Action {
    let base = ScanConfig::default();
    dispatch(&request(head, body), live, &FormState::from_cfg(&base), &base, &pct())
}

#[test]
fn requests_are_answered() {
    let mut l = idle();
    l.hit(found(1, "m"));
    let f = FormState::from_cfg(&ScanConfig::default());
    assert_eq!(bytes(ask("GET / x", b"", &mut l)), html(&page(&f, &l, &pct())));
    assert_eq!(bytes(ask("GET /live x", b"", &mut l)), html(&live_block(&l, &pct())));
    assert_eq!(bytes(ask("GET /hits x", b"", &mut l)), html(&hits_block(&l)));
    assert_eq!(bytes(ask("GET /hits.txt x", b"", &mut l)), text("0.0.0.1:5  players=1/2  m\n"));
    let missing = bytes(ask("GET /nope x", b"", &mut l));
    assert!(missing.starts_with(b"HTTP/1.1 404 Not Found\r\n"));
    assert!(missing.ends_with(b"not found\n"));
}

#[test]
fn a_scan_can_be_stopped() {
    let mut l = idle();
    l.reset_for_run(1, 1, 0);
    assert_eq!(bytes(ask("POST /stop x", b"", &mut l)), redirect("/"));
    assert_eq!(l.phase(), Phase::Stopping);
    let out = bytes(ask("POST /stop x\r\nHX-Request: TRUE", b"", &mut l));
    assert_eq!(out, html(&live_block(&l, &pct())));
    assert_eq!(changed(&l, false, &pct()), redirect("/"));
}

#[test]
fn a_form_starts_a_scan() {
    let mut l = idle();
    match ask("POST /start x", b"ranges=1.2.3.0%2F29&ports=80", &mut l) {
        Action::Begin(cfg) => {
            assert_eq!(cfg.ranges, vec!["1.2.3.0/29"]);
            assert_eq!(cfg.ports, vec![80]);
        }
        Action::Respond(_) => panic!("respond"),
    }
    assert_eq!(l.error(), None);
}

#[test]
fn a_bad_form_is_refused() {
    let mut l = idle();
    let out = bytes(ask("POST /start x", b"ranges=", &mut l));
    let why = "name at least one CIDR or IP (the web UI will not scan all of IPv4 by default)";
    assert_eq!(l.error().as_deref(), Some(why));
    let f = FormState::from_cfg(&ScanConfig::default());
    assert_eq!(out, html(&page(&f, &l, &pct())));
    let out = bytes(ask("POST /start x\r\nhx-request: true", b"", &mut l));
    assert_eq!(out, html(&live_block(&l, &pct())));
}

#[test]
fn one_scan_runs_at_a_time() {
    let mut l = idle();
    l.reset_for_run(1, 1, 0);
    let _ = bytes(ask("POST /start x", b"ranges=1.2.3.4", &mut l));
    assert_eq!(l.error().as_deref(), Some("a scan is already running"));
    let base = ScanConfig::default();
    let f = form(&[("ranges", "1.2.3.4")]);
    assert_eq!(start_scan(Phase::Stopping, &base, &f).unwrap_err(), StartError::Busy);
    assert!(start_scan(Phase::Done, &base, &f).is_ok());
    assert_eq!(
        start_scan(Phase::Idle, &base, &StrMap::new()).unwrap_err(),
        StartError::Form(FormError::NoRange)
    );
}

#[test]
fn a_refusal_is_shown() {
    let mut l = idle();
    let f = FormState::from_cfg(&ScanConfig::default());
    let out = refuse(&mut l, &f, "pass --include-reserved", true, &pct());
    assert!(l.error().unwrap().contains("private or reserved"));
    assert_eq!(out, html(&live_block(&l, &pct())));
}

#[test]
fn escaped_texts_hold_no_markup() {
    let all: String = (0..=255u32).filter_map(char::from_u32).collect();
    let out = esc(&all);
    assert!(!out.contains(['<', '>', '"', '\'']));
    assert_eq!(out.matches('&').count(), 5);
}
