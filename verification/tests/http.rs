use mc_scan::http::{
    err_resp, form_fields, html, is_htmx, parse_form, parse_head, percent_bytes, percent_decode,
    redirect, resp, text, ReadError, ReadStep, Reader, Request,
};
use mc_scan::strmap::StrMap;

#[test]
fn decode_form() {
    let m = parse_form(b"ranges=192.168.1.0%2F24&tcp=on");
    assert_eq!(m.get("ranges").unwrap(), "192.168.1.0/24");
    assert!(m.contains_key("tcp"));
}

#[test]
fn plus_is_space() {
    assert_eq!(percent_decode("a+b"), "a b");
}

#[test]
fn percent_codes_are_decoded() {
    assert_eq!(percent_decode("%41%2f%2F"), "A//");
    assert_eq!(percent_decode("100%"), "100%");
    assert_eq!(percent_decode("%4"), "%4");
    assert_eq!(percent_decode("%zz%41"), "%zzA");
    assert_eq!(percent_decode("%+f|"), "\u{f}|");
    assert_eq!(percent_decode("%-f|"), "%-f|");
    assert_eq!(percent_decode("%c3%a9"), "\u{e9}");
    assert_eq!(percent_decode("%ff"), "\u{fffd}");
    assert_eq!(percent_decode("\u{e9}"), "\u{e9}");
    assert_eq!(percent_bytes(b"%ff+"), vec![0xff, b' ']);
    assert_eq!(percent_bytes(b"plain \xfe"), b"plain \xfe".to_vec());
}

#[test]
fn forms_have_fields() {
    let m = form_fields("a=1&&b&a=2&c=x=y&=z");
    assert_eq!(m.get("a"), Some("2"));
    assert_eq!(m.get("b"), Some(""));
    assert_eq!(m.get("c"), Some("x=y"));
    assert_eq!(m.get(""), Some("z"));
    assert_eq!(m.get("d"), None);
    assert!(!form_fields("").contains_key(""));
    let m = parse_form(b"k=\xff");
    assert_eq!(m.get("k"), Some("\u{fffd}"));
}

#[test]
fn a_map_keeps_the_last_value() {
    let mut m = StrMap::new();
    assert!(!m.contains_key("k"));
    m.insert("k".to_string(), "1".to_string());
    m.insert("l".to_string(), "2".to_string());
    m.insert("k".to_string(), "3".to_string());
    assert_eq!(m.get("k"), Some("3"));
    assert_eq!(m.get("l"), Some("2"));
    assert_eq!(m.get("K"), None);
}

fn done(step: ReadStep) -> Request {
    match step {
        ReadStep::Done(req) => req,
        ReadStep::More(_) => panic!("more"),
        ReadStep::Failed(e) => panic!("{}", e.message()),
    }
}

fn more(step: ReadStep) -> Reader {
    match step {
        ReadStep::More(r) => r,
        ReadStep::Done(_) => panic!("done"),
        ReadStep::Failed(e) => panic!("{}", e.message()),
    }
}

fn failed(step: ReadStep) -> ReadError {
    match step {
        ReadStep::Failed(e) => e,
        _ => panic!("expected an error"),
    }
}

const POST: &[u8] = b"POST /start?x=1 HTTP/1.1\r\nHost: h\r\nContent-Length:  5 \r\nHX-Request: True\r\n\r\na=b&cdef";

#[test]
fn a_request_is_read() {
    let req = done(Reader::new().on_chunk(POST));
    assert_eq!(req.method, "POST");
    assert_eq!(req.path, "/start");
    assert_eq!(req.headers.get("host"), Some("h"));
    assert_eq!(req.headers.get("content-length"), Some("5"));
    assert_eq!(req.body, b"a=b&c");
    assert!(is_htmx(&req));
    let req = done(Reader::new().on_chunk(b"GET / HTTP/1.1\r\nHost: x\r\n\r\n"));
    assert_eq!((req.method.as_str(), req.path.as_str()), ("GET", "/"));
    assert!(req.body.is_empty());
    assert!(!is_htmx(&req));
}

#[test]
fn cuts_in_the_stream_make_no_difference() {
    let end = POST.len() - 3;
    for cut in 1..end {
        let r = more(Reader::new().on_chunk(&POST[..cut]));
        let req = done(r.on_chunk(&POST[cut..]));
        assert_eq!(req.body, b"a=b&c");
        assert_eq!(req.path, "/start");
    }
}

#[test]
fn a_body_may_break_off() {
    let r = more(Reader::new().on_chunk(&POST[..POST.len() - 5]));
    assert_eq!(done(r.on_chunk(b"")).body, b"a=b");
}

#[test]
fn bad_requests_are_refused() {
    assert_eq!(failed(Reader::new().on_chunk(b"")), ReadError::Incomplete);
    let r = more(Reader::new().on_chunk(b"GET / HTTP/1.1\r\n"));
    assert_eq!(failed(r.on_chunk(b"")), ReadError::Incomplete);
    assert_eq!(failed(Reader::new().on_chunk(b"GET /\xff\r\n\r\n")), ReadError::NotUtf8);
    let big = vec![b'a'; 65_536];
    let r = more(Reader::new().on_chunk(&big));
    assert_eq!(failed(r.on_chunk(b"a")), ReadError::HeadTooLarge);
    let head = b"POST / HTTP/1.1\r\nContent-Length: 65537\r\n\r\n";
    assert_eq!(failed(Reader::new().on_chunk(head)), ReadError::BodyTooLarge);
    let head = b"POST / HTTP/1.1\r\nContent-Length: 65536\r\n\r\n";
    let r = more(Reader::new().on_chunk(head));
    let r = more(r.on_chunk(&big[1..]));
    assert_eq!(failed(r.on_chunk(b"bb")), ReadError::BodyTooLarge);
    assert_eq!(ReadError::Incomplete.message(), "incomplete request");
    assert_eq!(ReadError::NotUtf8.message(), "headers are not utf-8");
    assert_eq!(ReadError::HeadTooLarge.message(), "headers too large");
    assert_eq!(ReadError::BodyTooLarge.message(), "body too large");
}

#[test]
fn heads_are_forgiving() {
    let req = parse_head("");
    assert_eq!((req.method.as_str(), req.path.as_str()), ("GET", "/"));
    let req = parse_head("PUT\r\nno colon\r\nA: 1\r\na:2\r\nb:c:d");
    assert_eq!((req.method.as_str(), req.path.as_str()), ("PUT", "/"));
    assert_eq!(req.headers.get("a"), Some("2"));
    assert_eq!(req.headers.get("b"), Some("c:d"));
    let req = parse_head("GET\t/x?y?z\nmore HTTP/1.1");
    assert_eq!(req.path, "/x");
    let req = done(Reader::new().on_chunk(b"POST / x\r\nContent-Length: ten\r\n\r\nabc"));
    assert!(req.body.is_empty());
}

#[test]
fn responses_have_exact_bytes() {
    assert_eq!(
        resp("200 OK", "a/b", b"xyz"),
        b"HTTP/1.1 200 OK\r\nContent-Type: a/b\r\nCache-Control: no-store\r\nContent-Length: 3\r\nConnection: close\r\n\r\nxyz".to_vec()
    );
    assert_eq!(
        redirect("/"),
        b"HTTP/1.1 303 See Other\r\nLocation: /\r\nContent-Length: 0\r\nConnection: close\r\n\r\n".to_vec()
    );
    assert_eq!(html("\u{e9}"), resp("200 OK", "text/html; charset=utf-8", &[0xc3, 0xa9]));
    assert_eq!(text("a"), resp("200 OK", "text/plain; charset=utf-8", b"a"));
    let plain = "text/plain; charset=utf-8";
    assert_eq!(err_resp(400, "m"), resp("400 Bad Request", plain, b"m\n"));
    assert_eq!(err_resp(404, "m"), resp("404 Not Found", plain, b"m\n"));
    assert_eq!(err_resp(408, "m"), resp("408 Request Timeout", plain, b"m\n"));
    assert_eq!(err_resp(7, "m"), resp("500 Internal Server Error", plain, b"m\n"));
}

#[test]
fn any_number_of_reads_brings_the_request() {
    let whole = done(Reader::new().on_chunk(POST));
    for size in 1..=POST.len() {
        let mut reader = Reader::new();
        let mut req = None;
        for chunk in POST.chunks(size) {
            match reader.on_chunk(chunk) {
                ReadStep::More(r) => reader = r,
                ReadStep::Done(r) => {
                    req = Some(r);
                    break;
                }
                ReadStep::Failed(e) => panic!("{e:?}"),
            }
        }
        let req = req.unwrap();
        assert_eq!(req.method, whole.method);
        assert_eq!(req.path, whole.path);
        assert_eq!(req.body, whole.body);
        assert_eq!(req.headers.get("host"), whole.headers.get("host"));
    }
}
