use mc_scan::ping::{
    encode_handshake_and_status, extract_motd, extract_status, extract_version, find, fmt_ipv4,
    itoa_u8, json_i64_after_key, json_quoted, json_quoted_after_key, parse_i64, skip_char, skip_ws,
    strip_section, truncate, utf8_width, write_packet, write_varint, Probe, ProbeStep, MAX_STATUS,
};

#[test]
fn extracts_online_before_favicon() {
    let json = br#"{"version":{"name":"1.21.1","protocol":767},"players":{"max":20,"online":7},"description":{"text":"Hello"},"favicon":"data:image/png;base64,AAAA"}"#;
    let st = extract_status(json, true).unwrap();
    assert_eq!(st.online, 7);
    assert_eq!(st.max, 20);
    assert_eq!(st.version.as_deref(), Some("1.21.1"));
    assert_eq!(st.motd.as_deref(), Some("Hello"));
}

#[test]
fn ignores_online_mode_key() {
    let json = br#"{"enforcesSecureChat":true,"players":{"online":2,"max":8}}"#;
    let st = extract_status(json, true).unwrap();
    assert_eq!(st.online, 2);
}

#[test]
fn incomplete_number_waits() {
    let json = br#"{"players":{"online":1"#;
    assert!(extract_status(json, false).is_none());
    let json = br#"{"players":{"online":12}"#;
    assert_eq!(extract_status(json, false).unwrap().online, 12);
}

#[test]
fn fmt_ipv4_fits_dotted_quad() {
    let mut buf = [0u8; 15];
    let n = fmt_ipv4(0xffff_ffff, &mut buf);
    assert_eq!(&buf[..n], b"255.255.255.255");
    let n = fmt_ipv4(0x0102_0304, &mut buf);
    assert_eq!(&buf[..n], b"1.2.3.4");
    let mut pkt = [0u8; 64];
    let n = encode_handshake_and_status(&mut pkt, 0xffff_ffff, 25565);
    assert!(n > 0 && n <= 64);
}

#[test]
fn varint_minus_one() {
    let mut b = [0u8; 8];
    let n = write_varint(&mut b, -1);
    assert_eq!(&b[..n], &[0xff, 0xff, 0xff, 0xff, 0x0f]);
}

fn varint_of(val: i32) -> Vec<u8> {
    let mut b = [0u8; 8];
    let n = write_varint(&mut b, val);
    b[..n].to_vec()
}

#[test]
fn varints_have_exact_bytes() {
    assert_eq!(varint_of(0), vec![0]);
    assert_eq!(varint_of(127), vec![0x7f]);
    assert_eq!(varint_of(128), vec![0x80, 0x01]);
    assert_eq!(varint_of(25565), vec![0xdd, 0xc7, 0x01]);
    assert_eq!(varint_of(i32::MAX), vec![0xff, 0xff, 0xff, 0xff, 0x07]);
    assert_eq!(varint_of(i32::MIN), vec![0x80, 0x80, 0x80, 0x80, 0x08]);
}

#[test]
fn octets_have_their_digits() {
    for v in 0..=255u8 {
        let mut out = [0u8; 3];
        let n = itoa_u8(v, &mut out);
        assert_eq!(&out[..n], v.to_string().as_bytes());
    }
}

#[test]
fn packets_are_framed() {
    let mut out = [9u8; 8];
    let n = write_packet(&mut out, 300, &[1, 2, 3]);
    assert_eq!(n, 6);
    assert_eq!(out, [5, 0xac, 0x02, 1, 2, 3, 9, 9]);
}

#[test]
fn request_has_exact_bytes() {
    let mut pkt = [0u8; 64];
    let n = encode_handshake_and_status(&mut pkt, 0x0102_0304, 25565);
    let mut want: Vec<u8> = vec![17, 0, 0xff, 0xff, 0xff, 0xff, 0x0f, 7];
    want.extend_from_slice(b"1.2.3.4");
    want.extend_from_slice(&[0x63, 0xdd, 1, 1, 0]);
    assert_eq!(&pkt[..n], &want[..]);
    let mut small = [0u8; 28];
    assert_eq!(encode_handshake_and_status(&mut small, u32::MAX, 1), 28);
}

#[test]
fn finds_the_first_place() {
    assert_eq!(find(b"abcabc", b"bc"), Some(1));
    assert_eq!(find(b"abcabc", b"cab"), Some(2));
    assert_eq!(find(b"abc", b"abcd"), None);
    assert_eq!(find(b"abc", b"abc"), Some(0));
    assert_eq!(find(b"aaab", b"aab"), Some(1));
    assert_eq!(find(b"", b"a"), None);
}

#[test]
fn skips_space_and_one_byte() {
    assert_eq!(skip_ws(b" \t\r\n\x0cx y"), b"x y");
    assert_eq!(skip_ws(b"\x0bx"), b"\x0bx");
    assert_eq!(skip_ws(b"   "), b"");
    assert_eq!(skip_char(b":x", b':'), Some(&b"x"[..]));
    assert_eq!(skip_char(b"x", b':'), None);
    assert_eq!(skip_char(b"", b':'), None);
}

#[test]
fn whole_numbers_are_read() {
    assert_eq!(parse_i64(b"12,", false), Some(12));
    assert_eq!(parse_i64(b"-12}", false), Some(-12));
    assert_eq!(parse_i64(b"12", true), Some(12));
    assert_eq!(parse_i64(b"12", false), None);
    assert_eq!(parse_i64(b"1.5", true), None);
    assert_eq!(parse_i64(b"-", true), None);
    assert_eq!(parse_i64(b"x", true), None);
    assert_eq!(parse_i64(b"9223372036854775807 ", true), Some(i64::MAX));
    assert_eq!(parse_i64(b"9223372036854775808 ", true), None);
    assert_eq!(parse_i64(b"-9223372036854775808 ", true), None);
    assert_eq!(parse_i64(b"0000000000000000000000007]", true), Some(7));
}

#[test]
fn numbers_stand_behind_keys() {
    assert_eq!(json_i64_after_key(b"{\"a\" : 5 }", b"\"a\"", false), Some(5));
    assert_eq!(json_i64_after_key(b"{\"a\" 5 }", b"\"a\"", false), None);
    assert_eq!(json_i64_after_key(b"{\"b\":5}", b"\"a\"", true), None);
}

#[test]
fn strings_are_unescaped() {
    assert_eq!(json_quoted(br#""a\n\r\t\"\\\/\x""#, false).as_deref(), Some("a\n\r\t\"\\/x"));
    assert_eq!(json_quoted("\"h\u{e9}\u{20ac}\u{1f600}\"".as_bytes(), false).as_deref(), Some("h\u{e9}\u{20ac}\u{1f600}"));
    assert_eq!(json_quoted(b"abc", true), None);
    assert_eq!(json_quoted(b"", true), None);
    assert_eq!(json_quoted(b"\"abc", true).as_deref(), Some("abc"));
    assert_eq!(json_quoted(b"\"abc", false), None);
    assert_eq!(json_quoted(b"\"abc\\", false), None);
    assert_eq!(json_quoted(b"\"abc\\", true).as_deref(), Some("abc\\"));
    assert_eq!(json_quoted(b"\"a\xff\xff\xff\xffb\"", true).as_deref(), Some("ab"));
    assert_eq!(json_quoted(b"\"a\xc3", true).as_deref(), Some("a"));
    assert_eq!(json_quoted(b"\"a\xc3", false), None);
    assert_eq!(json_quoted(b"\"\\\xe9\"", true).as_deref(), Some("\u{e9}"));
    assert_eq!(json_quoted_after_key(b"\"k\" : \"v\"", b"\"k\"", true).as_deref(), Some("v"));
    assert_eq!(json_quoted_after_key(b"\"k\" = \"v\"", b"\"k\"", true), None);
}

#[test]
fn widths_follow_the_first_byte() {
    assert_eq!(utf8_width(b'a'), 1);
    assert_eq!(utf8_width(0x80), 2);
    assert_eq!(utf8_width(0xdf), 2);
    assert_eq!(utf8_width(0xe0), 3);
    assert_eq!(utf8_width(0xf0), 4);
    assert_eq!(utf8_width(0xff), 4);
}

#[test]
fn colours_and_line_breaks_go() {
    assert_eq!(strip_section("\u{a7}aHello\nWorld\r\u{a7}"), "Hello World ");
    assert_eq!(strip_section("\u{a7}\u{a7}x"), "x");
    assert_eq!(strip_section(""), "");
    let chars: Vec<char> = "h\u{e9}llo".chars().collect();
    assert_eq!(truncate(&chars, 2), "h\u{e9}");
    assert_eq!(truncate(&chars, 5), "h\u{e9}llo");
    assert_eq!(truncate(&chars, 9), "h\u{e9}llo");
}

#[test]
fn version_and_message_are_optional() {
    assert_eq!(extract_version(br#"{"version":{"name":"x"}}"#).as_deref(), Some("x"));
    assert_eq!(extract_version(br#"{"name":"x"}"#), None);
    assert_eq!(extract_motd(br#"{"description":"  "}"#), None);
    assert_eq!(extract_motd(br#"{"description":[1]}"#), None);
    assert_eq!(extract_motd(br#"{"description":{"extra":[]}}"#), None);
    assert_eq!(extract_motd(br#"{"description":" a b "}"#).as_deref(), Some("a b"));
    let long = format!("{{\"description\":\"{}\"}}", "x".repeat(100));
    assert_eq!(extract_motd(long.as_bytes()), Some("x".repeat(80)));
}

#[test]
fn status_needs_players() {
    assert_eq!(extract_status(b"", true), None);
    assert_eq!(extract_status(b"\"players\":{\"online\":1}", true), None);
    assert_eq!(extract_status(b"{\"online\":1}", true), None);
    assert_eq!(extract_status(b"{\"players\":{\"max\":1}}", true), None);
    let st = extract_status(b"\x00\x10{\"players\":{\"online\":3}}", true).unwrap();
    assert_eq!((st.online, st.max), (3, 0));
    let st = extract_status(b"{\"players\":{\"online\":4294967297}}", true).unwrap();
    assert_eq!(st.online, 1);
    let copy = st.clone();
    assert_eq!(copy, st);
}

#[test]
fn early_answer_is_final() {
    let json = br#"{"players":{"online":12,"max":5},"version":{"name":"v"}}"#;
    for cut in 0..=json.len() {
        if let Some(st) = extract_status(&json[..cut], false) {
            assert_eq!(st.online, 12);
            assert_eq!(extract_status(&json[..cut], true), Some(st));
        }
    }
}

#[test]
fn probe_reads_until_it_knows() {
    let mut p = Probe::new();
    assert_eq!(p.on_chunk(b"{\"players\":{\"onl"), ProbeStep::More);
    match p.on_chunk(b"ine\":4,\"max\":50},\"version\":{\"name\":\"1.20.4\"},\"description\":\"mock\"}") {
        ProbeStep::Done(Some(st)) => {
            assert_eq!(st.online, 4);
            assert_eq!(st.max, 50);
            assert_eq!(st.version.as_deref(), Some("1.20.4"));
            assert_eq!(st.motd.as_deref(), Some("mock"));
        }
        other => panic!("{other:?}"),
    }
}

#[test]
fn probe_ends_with_the_stream_or_the_limit() {
    let mut p = Probe::new();
    assert_eq!(p.on_chunk(b"{\"players\":{\"online\":4"), ProbeStep::More);
    match p.on_chunk(b"") {
        ProbeStep::Done(Some(st)) => assert_eq!(st.online, 4),
        other => panic!("{other:?}"),
    }
    let mut p = Probe::new();
    assert_eq!(p.on_chunk(b""), ProbeStep::Done(None));
    let mut p = Probe::new();
    let big = vec![b' '; MAX_STATUS - 1];
    assert_eq!(p.on_chunk(&big), ProbeStep::More);
    assert_eq!(p.on_chunk(b" "), ProbeStep::Done(None));
}

#[test]
fn varints_read_back() {
    for val in [0, 1, -1, 127, 128, 300, 2_097_151, 2_097_152, i32::MAX, i32::MIN, -300] {
        let mut back = 0u32;
        for (i, b) in varint_of(val).iter().enumerate() {
            back |= u32::from(b & 0x7f) << (7 * i);
        }
        assert_eq!(back as i32, val);
    }
}

#[test]
fn written_texts_are_read_back() {
    let text = "a\\b\"c\nd\re\tf/\u{e9}\u{20ac}\u{1f600}\u{0}";
    let mut written: Vec<u8> = vec![b'"'];
    for c in text.chars() {
        match c {
            '\\' => written.extend_from_slice(b"\\\\"),
            '"' => written.extend_from_slice(b"\\\""),
            '\n' => written.extend_from_slice(b"\\n"),
            '\r' => written.extend_from_slice(b"\\r"),
            '\t' => written.extend_from_slice(b"\\t"),
            c => written.extend_from_slice(c.to_string().as_bytes()),
        }
    }
    let body = written.len();
    written.extend_from_slice(b"\", \xff rest");
    assert_eq!(json_quoted(&written, true).as_deref(), Some(text));
    assert_eq!(json_quoted(&written, false).as_deref(), Some(text));
    for k in 0..=body {
        assert_eq!(json_quoted(&written[..k], false), None);
        assert_eq!(json_quoted(&written[..k], true).is_some(), k > 0);
    }
}

#[test]
fn the_players_do_not_depend_on_the_cuts() {
    let whole: &[u8] = b"xy{\"players\":{\"max\":50, \"online\" : 1234},\"description\":\"a\"}";
    let other: &[u8] = b"{\"players\":{\"online\":98";
    let none: &[u8] = b"{\"players\":{\"online\":9.5}}";
    for (reply, online) in [(whole, Some(1234)), (other, Some(98)), (none, None)] {
        for size in 1..=reply.len() {
            let mut p = Probe::new();
            let mut answer = None;
            for chunk in reply.chunks(size).chain([&b""[..]]) {
                if let ProbeStep::Done(st) = p.on_chunk(chunk) {
                    answer = Some(st);
                    break;
                }
            }
            assert_eq!(answer.unwrap().map(|st| st.online), online, "{size}");
        }
    }
}
