//! The little of HTTP/1.1 that the web page needs: reading a request, decoding a form, writing a
//! response.

use vstd::prelude::*;
use vstd::slice::{slice_subrange, slice_to_vec};
use vstd::string::*;
use vstd::utf8::{
    decode_utf8, encode_utf8, encode_utf8_decode_utf8, encode_utf8_valid_utf8, valid_utf8,
};

use crate::num::{dec, parse_unsigned, push_dec, unsigned_spec};
use crate::ping::{find, find_spec, lemma_find_extends};
use crate::strmap::StrMap;
use crate::text::{
    crlf_lines, from_chars, from_utf8, from_utf8_lossy, lenient_text, lower_spec, nonempty_pieces,
    same_text, split, split_crlf, split_once, split_once_spec, split_spec, split_whitespace,
    to_ascii_lowercase, to_chars, trim, trim_spec, views, Sep,
};

verus! {

/// The most that is read of a request's head, and of its body.
pub const MAX_PART: usize = 65536;

/// Why a request cannot be read.
#[derive(Clone, Copy, Debug, PartialEq, Eq, Structural)]
pub enum ReadError {
    HeadTooLarge,
    Incomplete,
    NotUtf8,
    BodyTooLarge,
}

impl ReadError {
    pub open spec fn message_spec(self) -> Seq<char> {
        match self {
            ReadError::HeadTooLarge => "headers too large"@,
            ReadError::Incomplete => "incomplete request"@,
            ReadError::NotUtf8 => "headers are not utf-8"@,
            ReadError::BodyTooLarge => "body too large"@,
        }
    }

    /// What to tell the client.
    pub fn message(self) -> (r: &'static str)
        ensures
            r@ == self.message_spec(),
    {
        match self {
            ReadError::HeadTooLarge => "headers too large",
            ReadError::Incomplete => "incomplete request",
            ReadError::NotUtf8 => "headers are not utf-8",
            ReadError::BodyTooLarge => "body too large",
        }
    }
}

/// A request.
pub struct Request {
    pub method: String,
    pub path: String,
    pub headers: StrMap,
    pub body: Vec<u8>,
}

/// A request, with texts as characters.
pub struct RequestView {
    pub method: Seq<char>,
    pub path: Seq<char>,
    pub headers: Map<Seq<char>, Seq<char>>,
    pub body: Seq<u8>,
}

impl View for Request {
    type V = RequestView;

    open spec fn view(&self) -> RequestView {
        RequestView {
            method: self.method@,
            path: self.path@,
            headers: self.headers@,
            body: self.body@,
        }
    }
}

/// The headers that the lines hold. Their names are in small letters; a later header replaces an
/// earlier one, and a line without a colon is passed over.
pub open spec fn headers_spec(lines: Seq<Seq<char>>) -> Map<Seq<char>, Seq<char>>
    decreases lines.len(),
{
    if lines.len() == 0 {
        Map::empty()
    } else {
        let front = headers_spec(lines.drop_last());
        match split_once_spec(lines.last(), ':') {
            Some((k, v)) => front.insert(lower_spec(trim_spec(k)), trim_spec(v)),
            None => front,
        }
    }
}

/// The `n`th word of a line, or `otherwise` where there are fewer.
pub open spec fn word_or(line: Seq<char>, n: int, otherwise: Seq<char>) -> Seq<char> {
    let words = nonempty_pieces(split_spec(line, Sep::White));
    if n < words.len() {
        words[n]
    } else {
        otherwise
    }
}

/// What stands before the first question mark.
pub open spec fn path_of(target: Seq<char>) -> Seq<char> {
    match split_once_spec(target, '?') {
        Some((path, _)) => path,
        None => target,
    }
}

/// The request whose head is `head`, without a body.
pub open spec fn head_spec(head: Seq<char>) -> RequestView {
    let lines = crlf_lines(head);
    RequestView {
        method: word_or(lines[0], 0, "GET"@),
        path: path_of(word_or(lines[0], 1, "/"@)),
        headers: headers_spec(lines.skip(1)),
        body: Seq::empty(),
    }
}

/// How long the body is: what the header says, or nothing where it says no number.
pub open spec fn content_length(headers: Map<Seq<char>, Seq<char>>) -> nat {
    if headers.dom().contains("content-length"@) {
        match unsigned_spec(headers["content-length"@], 10, usize::MAX as nat) {
            Ok(n) => n,
            Err(_) => 0,
        }
    } else {
        0
    }
}

fn parse_headers(lines: &[&[char]]) -> (m: StrMap)
    requires
        lines@.len() > 0,
    ensures
        m.wf(),
        m@ == headers_spec(views(lines@).skip(1)),
{
    let ghost all = views(lines@).skip(1);
    let mut m: StrMap = StrMap::new();
    let mut i: usize = 1;
    assert(all.take(0) =~= Seq::empty());
    while i < lines.len()
        invariant
            1 <= i <= lines@.len(),
            all == views(lines@).skip(1),
            m.wf(),
            m@ == headers_spec(all.take(i - 1)),
        decreases lines@.len() - i,
    {
        assert(all.take(i as int).drop_last() =~= all.take(i - 1));
        assert(all.take(i as int).last() == lines@[i as int]@);
        if let Some((k, v)) = split_once(lines[i], ':') {
            let name: Vec<char> = to_ascii_lowercase(trim(k));
            m.insert(from_chars(name.as_slice()), from_chars(trim(v)));
        }
        i = i + 1;
    }
    assert(all.take(i - 1) =~= all);
    m
}

/// Reads the head of a request.
pub fn parse_head(head: &str) -> (r: Request)
    ensures
        r.headers.wf(),
        r@ == head_spec(head@),
{
    let chars: Vec<char> = to_chars(head);
    let lines: Vec<&[char]> = split_crlf(chars.as_slice());
    let ghost all = views(lines@);
    assert(all[0] == lines@[0]@);
    let words: Vec<&[char]> = split_whitespace(lines[0]);
    let ghost w = views(words@);
    assert(w == nonempty_pieces(split_spec(all[0], Sep::White)));
    assert(w.len() == words@.len());
    let method: String = if words.len() > 0 {
        assert(w[0] == words@[0]@);
        from_chars(words[0])
    } else {
        "GET".to_string()
    };
    let path: String = if words.len() > 1 {
        assert(w[1] == words@[1]@);
        before_query(words[1])
    } else {
        let root: Vec<char> = to_chars("/");
        before_query(root.as_slice())
    };
    let headers: StrMap = parse_headers(lines.as_slice());
    let body: Vec<u8> = Vec::new();
    assert(body@ =~= Seq::empty());
    Request { method, path, headers, body }
}

fn before_query(target: &[char]) -> (r: String)
    ensures
        r@ == path_of(target@),
{
    match split_once(target, '?') {
        Some((path, _)) => from_chars(path),
        None => from_chars(target),
    }
}

/// How long the body is.
fn body_length(headers: &StrMap) -> (n: usize)
    requires
        headers.wf(),
    ensures
        n == content_length(headers@),
{
    match headers.get("content-length") {
        Some(v) => {
            let chars: Vec<char> = to_chars(v);
            match parse_unsigned(chars.as_slice(), 10, usize::MAX as u64) {
                Ok(n) => n as usize,
                Err(_) => 0,
            }
        },
        None => 0,
    }
}

/// The blank line that ends a request's head.
pub open spec fn blank_line() -> Seq<u8> {
    seq![13u8, 10u8, 13u8, 10u8]
}

/// A request whose head was read: the part of the body that came with it, and how long the body
/// is to be.
pub open spec fn split_request(buf: Seq<u8>) -> Result<(RequestView, Seq<u8>, nat), ReadError> {
    match find_spec(buf, blank_line()) {
        None => Err(ReadError::Incomplete),
        Some(p) => {
            let head = buf.take(p as int);
            if !valid_utf8(head) {
                Err(ReadError::NotUtf8)
            } else {
                let req = head_spec(decode_utf8(head));
                let want = content_length(req.headers);
                if want > MAX_PART {
                    Err(ReadError::BodyTooLarge)
                } else {
                    Ok((req, buf.skip((p + 4) as int), want))
                }
            }
        },
    }
}

/// What has been read of a request.
pub enum Reader {
    /// Part of its head.
    Head(Vec<u8>),
    /// Its head, and part of its body, which is to be `want` bytes long.
    Body { req: Request, rest: Vec<u8>, want: usize },
}

/// What has been read of a request, with texts as characters.
pub enum ReaderView {
    Head(Seq<u8>),
    Body { req: RequestView, rest: Seq<u8>, want: nat },
}

impl View for Reader {
    type V = ReaderView;

    open spec fn view(&self) -> ReaderView {
        match *self {
            Reader::Head(buf) => ReaderView::Head(buf@),
            Reader::Body { req, rest, want } => ReaderView::Body {
                req: req@,
                rest: rest@,
                want: want as nat,
            },
        }
    }
}

/// What comes after a read: more reading, a request or an error.
pub enum ReadStep {
    More(Reader),
    Done(Request),
    Failed(ReadError),
}

/// What comes after a read, with texts as characters.
pub enum ReadStepView {
    More(ReaderView),
    Done(RequestView),
    Failed(ReadError),
}

impl View for ReadStep {
    type V = ReadStepView;

    open spec fn view(&self) -> ReadStepView {
        match *self {
            ReadStep::More(r) => ReadStepView::More(r@),
            ReadStep::Done(req) => ReadStepView::Done(req@),
            ReadStep::Failed(e) => ReadStepView::Failed(e),
        }
    }
}

/// The first `n` bytes of `s`.
pub open spec fn at_most(s: Seq<u8>, n: nat) -> Seq<u8> {
    if s.len() > n {
        s.take(n as int)
    } else {
        s
    }
}

/// What comes when `rest` of a body of `want` bytes has been read.
pub open spec fn body_step(req: RequestView, rest: Seq<u8>, want: nat) -> ReadStepView {
    if rest.len() < want {
        ReadStepView::More(ReaderView::Body { req, rest, want })
    } else {
        ReadStepView::Done(RequestView { body: at_most(rest, want), ..req })
    }
}

/// What comes after `chunk` was read; an empty read is the end of the stream. A request whose
/// body breaks off is taken with the body that it has.
pub open spec fn read_step(r: ReaderView, chunk: Seq<u8>) -> ReadStepView {
    match r {
        ReaderView::Head(buf) => {
            let all = buf + chunk;
            if chunk.len() > 0 && all.len() > MAX_PART {
                ReadStepView::Failed(ReadError::HeadTooLarge)
            } else if chunk.len() > 0 && find_spec(all, blank_line()) is None {
                ReadStepView::More(ReaderView::Head(all))
            } else {
                match split_request(all) {
                    Err(e) => ReadStepView::Failed(e),
                    Ok((req, rest, want)) => body_step(req, rest, want),
                }
            }
        },
        ReaderView::Body { req, rest, want } => {
            let all = rest + chunk;
            if chunk.len() == 0 {
                ReadStepView::Done(RequestView { body: at_most(rest, want), ..req })
            } else if all.len() > MAX_PART {
                ReadStepView::Failed(ReadError::BodyTooLarge)
            } else {
                body_step(req, all, want)
            }
        },
    }
}

impl ReaderView {
    /// There is something to wait for: the head has not ended, or the body is too short. No more
    /// is held than is allowed.
    pub open spec fn waits(self) -> bool {
        match self {
            ReaderView::Head(buf) => buf.len() <= MAX_PART && find_spec(buf, blank_line()) is None,
            ReaderView::Body { rest, want, .. } => rest.len() < want <= MAX_PART,
        }
    }

    /// How much was read of the part that is being read.
    pub open spec fn held(self) -> nat {
        match self {
            ReaderView::Head(buf) => buf.len(),
            ReaderView::Body { rest, .. } => rest.len(),
        }
    }
}

/// What comes after one more read, where more reading was to come.
pub open spec fn followed(step: ReadStepView, chunk: Seq<u8>) -> ReadStepView {
    match step {
        ReadStepView::More(r) => read_step(r, chunk),
        other => other,
    }
}

/// However the stream is cut into reads, the same request comes of it, as long as all of it stays
/// within the limit.
pub proof fn cuts_make_no_difference(r: ReaderView, a: Seq<u8>, b: Seq<u8>)
    requires
        r.waits(),
        a.len() > 0,
        b.len() > 0,
        r.held() + a.len() + b.len() <= MAX_PART,
    ensures
        read_step(r, a + b) == followed(read_step(r, a), b),
{
    match r {
        ReaderView::Head(buf) => {
            let first = buf + a;
            assert(buf + (a + b) =~= first + b);
            if find_spec(first, blank_line()) is Some {
                lemma_find_extends(first, b, blank_line(), 0);
                let p = find_spec(first, blank_line())->0 as int;
                assert((first + b).take(p) =~= first.take(p));
                assert((first + b).skip(p + 4) =~= first.skip(p + 4) + b);
                if let Ok((req, rest, want)) = split_request(first) {
                    assert(at_most(rest + b, want) =~= at_most(rest, want) || rest.len() < want);
                }
            }
        },
        ReaderView::Body { req, rest, want } => {
            assert(rest + (a + b) =~= rest + a + b);
            assert(at_most(rest + a + b, want) =~= at_most(rest + a, want) || (rest + a).len() < want);
        },
    }
}

/// What comes after a number of reads, each handed over in turn while more is to come.
pub open spec fn read_run(r: ReaderView, reads: Seq<Seq<u8>>) -> ReadStepView
    decreases reads.len(),
{
    if reads.len() == 0 {
        ReadStepView::More(r)
    } else {
        followed(read_run(r, reads.drop_last()), reads.last())
    }
}

/// Any number of reads brings the request that one read of all their bytes brings, as long as all
/// of it stays within the limit.
pub proof fn reads_are_joined(r: ReaderView, reads: Seq<Seq<u8>>)
    requires
        r.waits(),
        reads.len() > 0,
        forall|i: int| 0 <= i < reads.len() ==> (#[trigger] reads[i]).len() > 0,
        r.held() + reads.flatten().len() <= MAX_PART,
    ensures
        read_run(r, reads) == read_step(r, reads.flatten()),
    decreases reads.len(),
{
    let front = reads.drop_last();
    assert(reads =~= front.push(reads.last()));
    front.lemma_flatten_push(reads.last());
    if front.len() == 0 {
        assert(reads.flatten() =~= reads.last());
        assert(read_run(r, front) == ReadStepView::More(r));
    } else {
        assert(front[0] == reads[0]);
        assert(front.flatten().len() > 0);
        reads_are_joined(r, front);
        cuts_make_no_difference(r, front.flatten(), reads.last());
    }
}

impl Reader {
    /// The headers of a request that was begun are well formed.
    pub open spec fn wf(&self) -> bool {
        match *self {
            Reader::Head(_) => true,
            Reader::Body { req, .. } => req.headers.wf(),
        }
    }

    /// Nothing read yet.
    pub fn new() -> (r: Self)
        ensures
            r.wf(),
            r@ == ReaderView::Head(Seq::empty()),
            r@.waits(),
    {
        let buf: Vec<u8> = Vec::new();
        assert(buf@ =~= Seq::empty());
        Reader::Head(buf)
    }

    /// Takes what a read brought.
    pub fn on_chunk(self, chunk: &[u8]) -> (step: ReadStep)
        requires
            self.wf(),
        ensures
            step@ == read_step(self@, chunk@),
            self@.waits() ==> (step matches ReadStep::More(r) ==> r@.waits()),
            step matches ReadStep::More(r) ==> r.wf(),
            step matches ReadStep::Done(req) ==> req.headers.wf(),
    {
        match self {
            Reader::Head(buf) => {
                let mut all: Vec<u8> = buf;
                let ghost before = all@;
                all.extend_from_slice(chunk);
                assert(all@ =~= before + chunk@);
                if chunk.len() > 0 && all.len() > MAX_PART {
                    return ReadStep::Failed(ReadError::HeadTooLarge);
                }
                head_read(all, chunk.len() == 0)
            },
            Reader::Body { req, rest, want } => {
                let mut all: Vec<u8> = rest;
                let ghost before = all@;
                if chunk.len() == 0 {
                    return ReadStep::Done(with_body(req, all, want));
                }
                all.extend_from_slice(chunk);
                assert(all@ =~= before + chunk@);
                if all.len() > MAX_PART {
                    return ReadStep::Failed(ReadError::BodyTooLarge);
                }
                body_read(req, all, want)
            },
        }
    }
}

fn with_body(req: Request, rest: Vec<u8>, want: usize) -> (r: Request)
    ensures
        r@ == (RequestView { body: at_most(rest@, want as nat), ..req@ }),
        r.headers == req.headers,
{
    let mut body: Vec<u8> = rest;
    if body.len() > want {
        body.truncate(want);
    }
    assert(body@ =~= at_most(rest@, want as nat));
    Request { method: req.method, path: req.path, headers: req.headers, body }
}

fn body_read(req: Request, rest: Vec<u8>, want: usize) -> (step: ReadStep)
    requires
        req.headers.wf(),
    ensures
        step@ == body_step(req@, rest@, want as nat),
        step matches ReadStep::More(r) ==> r.wf(),
        step matches ReadStep::Done(req) ==> req.headers.wf(),
{
    if rest.len() < want {
        ReadStep::More(Reader::Body { req, rest, want })
    } else {
        ReadStep::Done(with_body(req, rest, want))
    }
}

fn head_read(all: Vec<u8>, ended: bool) -> (step: ReadStep)
    ensures
        step@ == (if !ended && find_spec(all@, blank_line()) is None {
            ReadStepView::More(ReaderView::Head(all@))
        } else {
            match split_request(all@) {
                Err(e) => ReadStepView::Failed(e),
                Ok((req, rest, want)) => body_step(req, rest, want),
            }
        }),
        step matches ReadStep::More(r) ==> r.wf(),
        step matches ReadStep::Done(req) ==> req.headers.wf(),
{
    let end: [u8; 4] = [13, 10, 13, 10];
    assert(end@ =~= blank_line());
    let size: usize = all.len();
    let Some(at) = find(all.as_slice(), &end) else {
        return if ended {
            ReadStep::Failed(ReadError::Incomplete)
        } else {
            ReadStep::More(Reader::Head(all))
        };
    };
    assert(all@.subrange(0, at as int) =~= all@.take(at as int));
    assert(all@.subrange(at + 4, all@.len() as int) =~= all@.skip(at + 4));
    let Some(head) = from_utf8(slice_subrange(all.as_slice(), 0, at)) else {
        return ReadStep::Failed(ReadError::NotUtf8);
    };
    let rest: Vec<u8> = slice_to_vec(slice_subrange(all.as_slice(), at + 4, all.len()));
    let req: Request = parse_head(head.as_str());
    let want: usize = body_length(&req.headers);
    if want > MAX_PART {
        return ReadStep::Failed(ReadError::BodyTooLarge);
    }
    body_read(req, rest, want)
}

/// The page asks for a part of itself, not for all of it.
pub open spec fn htmx_spec(headers: Map<Seq<char>, Seq<char>>) -> bool {
    headers.dom().contains("hx-request"@) && lower_spec(headers["hx-request"@]) == "true"@
}

/// The page asks for a part of itself, not for all of it.
pub fn is_htmx(req: &Request) -> (r: bool)
    requires
        req.headers.wf(),
    ensures
        r == htmx_spec(req@.headers),
{
    match req.headers.get("hx-request") {
        Some(v) => {
            let chars: Vec<char> = to_chars(v);
            let low: Vec<char> = to_ascii_lowercase(chars.as_slice());
            same_text(low.as_slice(), "true")
        },
        None => false,
    }
}

/// `b` from `i` on with spaces in place of plus signs and bytes in place of their percent codes. A
/// percent sign that begins no code stands for itself.
pub open spec fn unpercent_from(b: Seq<u8>, i: nat) -> Seq<u8>
    decreases b.len() - i,
{
    if i >= b.len() {
        Seq::empty()
    } else if b[i as int] == 43 {
        seq![32u8] + unpercent_from(b, i + 1)
    } else if b[i as int] == 37 && i + 2 < b.len() {
        match unsigned_spec(seq![b[i + 1int] as char, b[i + 2int] as char], 16, 255) {
            Ok(c) => seq![c as u8] + unpercent_from(b, i + 3),
            Err(_) => seq![37u8] + unpercent_from(b, i + 1),
        }
    } else {
        seq![b[i as int]] + unpercent_from(b, i + 1)
    }
}

/// Replaces plus signs and percent codes by the bytes that they stand for.
pub fn percent_bytes(b: &[u8]) -> (out: Vec<u8>)
    ensures
        out@ == unpercent_from(b@, 0),
{
    let size: usize = b.len();
    let mut out: Vec<u8> = Vec::new();
    let mut i: usize = 0;
    assert(out@ + unpercent_from(b@, 0) =~= unpercent_from(b@, 0));
    while i < size
        invariant
            i <= size,
            size == b@.len(),
            out@ + unpercent_from(b@, i as nat) == unpercent_from(b@, 0),
        decreases size - i,
    {
        let ghost before = out@;
        let c: u8 = b[i];
        if c == 43 {
            out.push(32);
            i = i + 1;
        } else if c == 37 && size - i > 2 {
            let code: [char; 2] = [b[i + 1] as char, b[i + 2] as char];
            assert(code@ =~= seq![b@[i + 1] as char, b@[i + 2] as char]);
            match parse_unsigned(&code, 16, 255) {
                Ok(v) => {
                    out.push(v as u8);
                    i = i + 3;
                },
                Err(_) => {
                    out.push(37);
                    i = i + 1;
                },
            }
        } else {
            out.push(c);
            i = i + 1;
        }
        assert(out@ + unpercent_from(b@, i as nat) =~= before + (seq![out@.last()] + unpercent_from(
            b@,
            i as nat,
        )));
    }
    assert(out@ + Seq::<u8>::empty() =~= out@);
    out
}

/// Bytes among which there is neither a plus nor a percent sign stand for themselves.
pub proof fn plain_bytes_are_kept(b: Seq<u8>, i: nat)
    requires
        i <= b.len(),
        forall|j: int| i <= j < b.len() ==> #[trigger] b[j] != 43 && b[j] != 37,
    ensures
        unpercent_from(b, i) == b.skip(i as int),
    decreases b.len() - i,
{
    if i < b.len() {
        plain_bytes_are_kept(b, i + 1);
        assert(b.skip(i as int) =~= seq![b[i as int]] + b.skip(i + 1 as int));
    } else {
        assert(b.skip(i as int) =~= Seq::empty());
    }
}

/// The text that a form field or its name stands for.
pub open spec fn field_text(s: Seq<char>) -> Seq<char> {
    lenient_text(unpercent_from(encode_utf8(s), 0))
}

/// A form field in whose bytes there is neither a plus nor a percent sign stands for itself.
pub proof fn plain_field_is_kept(s: Seq<char>)
    requires
        forall|j: int|
            0 <= j < encode_utf8(s).len() ==> #[trigger] encode_utf8(s)[j] != 43 && encode_utf8(s)[j] != 37,
    ensures
        field_text(s) == s,
{
    let b = encode_utf8(s);
    plain_bytes_are_kept(b, 0);
    assert(b.skip(0) =~= b);
    encode_utf8_valid_utf8(s);
    encode_utf8_decode_utf8(s);
}

/// Decodes a form field or its name.
pub fn percent_decode(s: &str) -> (r: String)
    ensures
        r@ == field_text(s@),
{
    let bytes: Vec<u8> = percent_bytes(s.as_bytes());
    from_utf8_lossy(bytes.as_slice())
}

/// The fields that the pairs name; a later field replaces an earlier one, and a name without a
/// value stands for an empty value.
pub open spec fn fields_of(pairs: Seq<Seq<char>>) -> Map<Seq<char>, Seq<char>>
    decreases pairs.len(),
{
    if pairs.len() == 0 {
        Map::empty()
    } else {
        let front = fields_of(pairs.drop_last());
        let pair = pairs.last();
        if pair.len() == 0 {
            front
        } else {
            match split_once_spec(pair, '=') {
                Some((k, v)) => front.insert(field_text(k), field_text(v)),
                None => front.insert(field_text(pair), field_text(Seq::empty())),
            }
        }
    }
}

/// The fields of a form.
pub open spec fn form_spec(text: Seq<char>) -> Map<Seq<char>, Seq<char>> {
    fields_of(split_spec(text, Sep::Char('&')))
}

fn decode_chars(s: &[char]) -> (r: String)
    ensures
        r@ == field_text(s@),
{
    let text: String = from_chars(s);
    percent_decode(text.as_str())
}

/// Reads the fields of a form from its text.
pub fn form_fields(text: &str) -> (m: StrMap)
    ensures
        m.wf(),
        m@ == form_spec(text@),
{
    let chars: Vec<char> = to_chars(text);
    let pairs: Vec<&[char]> = split(chars.as_slice(), Sep::Char('&'));
    let ghost all = views(pairs@);
    let mut m: StrMap = StrMap::new();
    let mut i: usize = 0;
    while i < pairs.len()
        invariant
            i <= pairs@.len(),
            all == views(pairs@),
            m.wf(),
            m@ == fields_of(all.take(i as int)),
        decreases pairs@.len() - i,
    {
        assert(all.take(i + 1).drop_last() =~= all.take(i as int));
        assert(all.take(i + 1).last() == pairs@[i as int]@);
        let pair: &[char] = pairs[i];
        if pair.len() > 0 {
            match split_once(pair, '=') {
                Some((k, v)) => {
                    m.insert(decode_chars(k), decode_chars(v));
                },
                None => {
                    let none: [char; 0] = [];
                    assert(none@ =~= Seq::empty());
                    m.insert(decode_chars(pair), decode_chars(&none));
                },
            }
        }
        i = i + 1;
    }
    assert(all.take(i as int) =~= all);
    m
}

/// Reads the fields of a form from the body of a request.
pub fn parse_form(body: &[u8]) -> (m: StrMap)
    ensures
        m.wf(),
        m@ == form_spec(lenient_text(body@)),
{
    let text: String = from_utf8_lossy(body);
    form_fields(text.as_str())
}

/// The head of a response with a body of `len` bytes.
pub open spec fn resp_head(status: Seq<char>, ctype: Seq<char>, len: nat) -> Seq<char> {
    "HTTP/1.1 "@ + status + "\r\nContent-Type: "@ + ctype
        + "\r\nCache-Control: no-store\r\nContent-Length: "@ + dec(len)
        + "\r\nConnection: close\r\n\r\n"@
}

/// A response.
pub open spec fn resp_spec(status: Seq<char>, ctype: Seq<char>, body: Seq<u8>) -> Seq<u8> {
    encode_utf8(resp_head(status, ctype, body.len())) + body
}

/// A response.
pub fn resp(status: &str, ctype: &str, body: &[u8]) -> (out: Vec<u8>)
    ensures
        out@ == resp_spec(status@, ctype@, body@),
{
    let mut head: String = "HTTP/1.1 ".to_string();
    head.append(status);
    head.append("\r\nContent-Type: ");
    head.append(ctype);
    head.append("\r\nCache-Control: no-store\r\nContent-Length: ");
    push_dec(&mut head, body.len() as u64);
    head.append("\r\nConnection: close\r\n\r\n");
    let mut out: Vec<u8> = slice_to_vec(head.as_str().as_bytes());
    out.extend_from_slice(body);
    assert(out@ =~= resp_spec(status@, ctype@, body@));
    out
}

/// A page.
pub open spec fn html_spec(body: Seq<char>) -> Seq<u8> {
    resp_spec("200 OK"@, "text/html; charset=utf-8"@, encode_utf8(body))
}

/// A page.
pub fn html(body: &str) -> (out: Vec<u8>)
    ensures
        out@ == html_spec(body@),
{
    resp("200 OK", "text/html; charset=utf-8", body.as_bytes())
}

/// A plain text.
pub open spec fn text_spec(body: Seq<char>) -> Seq<u8> {
    resp_spec("200 OK"@, "text/plain; charset=utf-8"@, encode_utf8(body))
}

/// A plain text.
pub fn text(body: &str) -> (out: Vec<u8>)
    ensures
        out@ == text_spec(body@),
{
    resp("200 OK", "text/plain; charset=utf-8", body.as_bytes())
}

/// A response that sends the client elsewhere.
pub open spec fn redirect_spec(to: Seq<char>) -> Seq<u8> {
    encode_utf8(
        "HTTP/1.1 303 See Other\r\nLocation: "@ + to
            + "\r\nContent-Length: 0\r\nConnection: close\r\n\r\n"@,
    )
}

/// A response that sends the client elsewhere.
pub fn redirect(to: &str) -> (out: Vec<u8>)
    ensures
        out@ == redirect_spec(to@),
{
    let mut head: String = "HTTP/1.1 303 See Other\r\nLocation: ".to_string();
    head.append(to);
    head.append("\r\nContent-Length: 0\r\nConnection: close\r\n\r\n");
    slice_to_vec(head.as_str().as_bytes())
}

/// What an error is called.
pub open spec fn status_line(code: u16) -> Seq<char> {
    if code == 400 {
        "400 Bad Request"@
    } else if code == 404 {
        "404 Not Found"@
    } else if code == 408 {
        "408 Request Timeout"@
    } else {
        "500 Internal Server Error"@
    }
}

/// A response that tells of an error.
pub open spec fn err_spec(code: u16, msg: Seq<char>) -> Seq<u8> {
    resp_spec(status_line(code), "text/plain; charset=utf-8"@, encode_utf8(msg.push('\n')))
}

/// A response that tells of an error.
pub fn err_resp(code: u16, msg: &str) -> (out: Vec<u8>)
    ensures
        out@ == err_spec(code, msg@),
{
    let status: &str = if code == 400 {
        "400 Bad Request"
    } else if code == 404 {
        "404 Not Found"
    } else if code == 408 {
        "408 Request Timeout"
    } else {
        "500 Internal Server Error"
    };
    let mut body: String = msg.to_string();
    body.push('\n');
    resp(status, "text/plain; charset=utf-8", body.as_str().as_bytes())
}

} // verus!
