//! What a browser and the page say to each other: forms, requests, and what comes of them.

use vstd::prelude::*;
use vstd::string::*;
use vstd::utf8::{
    encode_utf8, encode_utf8_decode_utf8, encode_utf8_valid_utf8, is_ascii_chars,
    is_ascii_chars_encode_utf8,
};

use crate::http::{
    blank_line, field_text, fields_of, form_spec, head_spec, headers_spec, html_spec, read_step,
    resp_spec, unpercent_from, ReadStepView, ReaderView, RequestView, MAX_PART,
};
use crate::ipv4::quad_text;
use crate::ipv6::ipv6_spec;
use crate::live::{LiveView, Phase};
use crate::num::{dec, digits_spec, lemma_dec_reads_back, unsigned_spec, IntError};
use crate::ping::{find_is_first, find_spec, stands_at};
use crate::reach::space_around_is_trimmed;
use crate::scan::ConfigView;
use crate::text::{
    crlf_lines, crlf_position, is_white, lemma_position, lemma_position_is, lemma_split_at,
    lemma_split_whole, lower_spec, nonempty_pieces, split_once_spec, split_spec, Sep,
};
use crate::web::{
    bind_spec, dispatch_spec, form_config, friendly_spec, hits_block_spec, live_block_spec,
    page_spec, plain_number, scope_spec, socket4_spec, socket6_spec, unscoped, ActionView, Bind, BindError,
    FormView,
};

verus! {

proof fn lemma_unpercent_shift(b: Seq<u8>, k: nat, i: nat)
    requires
        k <= b.len(),
    ensures
        unpercent_from(b, k + i) == unpercent_from(b.skip(k as int), i),
    decreases b.len() - (k + i),
{
    let t = b.skip(k as int);
    if k + i < b.len() {
        let j = (k + i) as int;
        assert(t[i as int] == b[j]);
        lemma_unpercent_shift(b, k, i + 1);
        if k + i + 2 < b.len() {
            assert(t[i + 1int] == b[j + 1] && t[i + 2int] == b[j + 2]);
            lemma_unpercent_shift(b, k, i + 3);
        }
    }
}

/// A hexadecimal digit, in capital letters or in small ones.
pub open spec fn hex_digit(d: u8, capital: bool) -> u8 {
    if d < 10 {
        (48 + d) as u8
    } else if capital {
        (55 + d) as u8
    } else {
        (87 + d) as u8
    }
}

/// A byte as a percent code.
pub open spec fn coded(v: u8, capital: bool) -> Seq<u8> {
    seq![37u8, hex_digit(v / 16, capital), hex_digit(v % 16, capital)]
}

proof fn lemma_code_value(v: u8, capital: bool)
    ensures
        unsigned_spec(
            seq![hex_digit(v / 16, capital) as char, hex_digit(v % 16, capital) as char],
            16,
            255,
        ) == Ok::<nat, IntError>(v as nat),
{
    let (h, l) = (hex_digit(v / 16, capital) as char, hex_digit(v % 16, capital) as char);
    let s = seq![h, l];
    assert(s.drop_last() =~= seq![h]);
    assert(seq![h].drop_last() =~= Seq::empty());
    assert(digits_spec(Seq::empty(), 16, 255) == Ok::<nat, IntError>(0));
    assert(digits_spec(seq![h], 16, 255) == Ok::<nat, IntError>((v / 16) as nat));
    assert(s.last() == l);
}

/// How a field of a form is decoded, byte by byte: a percent code stands for its byte, a plus sign
/// for a space, and every other byte for itself.
pub proof fn form_bytes_are_decoded(v: u8, capital: bool, t: Seq<u8>)
    ensures
        unpercent_from(Seq::empty(), 0) == Seq::<u8>::empty(),
        unpercent_from(coded(v, capital) + t, 0) == seq![v] + unpercent_from(t, 0),
        unpercent_from(seq![43u8] + t, 0) == seq![32u8] + unpercent_from(t, 0),
        v != 37 && v != 43 ==> unpercent_from(seq![v] + t, 0) == seq![v] + unpercent_from(t, 0),
{
    let b = coded(v, capital) + t;
    lemma_code_value(v, capital);
    assert(b[0] == 37 && b[1] == hex_digit(v / 16, capital) && b[2] == hex_digit(v % 16, capital));
    lemma_unpercent_shift(b, 3, 0);
    assert(b.skip(3) =~= t);
    let p = seq![43u8] + t;
    lemma_unpercent_shift(p, 1, 0);
    assert(p.skip(1) =~= t);
    let q = seq![v] + t;
    lemma_unpercent_shift(q, 1, 0);
    assert(q.skip(1) =~= t);
}

/// Bytes as a browser sends them when it codes every one of them.
pub open spec fn all_coded(b: Seq<u8>, capital: bool) -> Seq<u8>
    decreases b.len(),
{
    if b.len() == 0 {
        Seq::empty()
    } else {
        coded(b[0], capital) + all_coded(b.skip(1), capital)
    }
}

/// Whatever bytes are coded, they are decoded again.
pub proof fn coded_bytes_are_decoded(b: Seq<u8>, capital: bool)
    ensures
        unpercent_from(all_coded(b, capital), 0) == b,
    decreases b.len(),
{
    form_bytes_are_decoded(0, capital, Seq::empty());
    if b.len() > 0 {
        coded_bytes_are_decoded(b.skip(1), capital);
        form_bytes_are_decoded(b[0], capital, all_coded(b.skip(1), capital));
        assert(seq![b[0]] + b.skip(1) =~= b);
    } else {
        assert(b =~= Seq::empty());
    }
}

/// Bytes below 128 as characters.
pub open spec fn as_chars(b: Seq<u8>) -> Seq<char> {
    Seq::new(b.len(), |i: int| b[i] as char)
}

proof fn lemma_coded_is_ascii(b: Seq<u8>, capital: bool)
    ensures
        forall|i: int|
            0 <= i < all_coded(b, capital).len() ==> (#[trigger] all_coded(b, capital)[i]) < 128
                && all_coded(b, capital)[i] != 38 && all_coded(b, capital)[i] != 61,
    decreases b.len(),
{
    if b.len() > 0 {
        lemma_coded_is_ascii(b.skip(1), capital);
        let (c, rest) = (coded(b[0], capital), all_coded(b.skip(1), capital));
        let all = all_coded(b, capital);
        assert forall|i: int| 0 <= i < all.len() implies (#[trigger] all[i]) < 128 && all[i] != 38
            && all[i] != 61 by {
            if i < 3 {
                assert(all[i] == c[i]);
            } else {
                assert(all[i] == rest[i - 3]);
            }
        }
    }
}

/// A text as a browser sends it in a form when it codes every byte of it.
pub open spec fn sent(t: Seq<char>, capital: bool) -> Seq<char> {
    as_chars(all_coded(encode_utf8(t), capital))
}

/// A text that is sent in a form arrives.
pub proof fn sent_text_arrives(t: Seq<char>, capital: bool)
    ensures
        field_text(sent(t, capital)) == t,
        forall|i: int|
            0 <= i < sent(t, capital).len() ==> #[trigger] sent(t, capital)[i] != '&' && sent(t, capital)[i] != '=',
{
    let b = all_coded(encode_utf8(t), capital);
    let s = as_chars(b);
    lemma_coded_is_ascii(encode_utf8(t), capital);
    assert(is_ascii_chars(s)) by {
        assert forall|i: int| 0 <= i < s.len() implies #[trigger] s[i] as nat <= 127 by {
            assert(b[i] < 128);
        }
    }
    is_ascii_chars_encode_utf8(s);
    assert(encode_utf8(s) =~= b);
    coded_bytes_are_decoded(encode_utf8(t), capital);
    encode_utf8_valid_utf8(t);
    encode_utf8_decode_utf8(t);
    assert forall|i: int| 0 <= i < s.len() implies #[trigger] s[i] != '&' && s[i] != '=' by {
        assert(b[i] != 38 && b[i] != 61);
    }
}

/// Each field of a form is taken with its value; a later field of the same name takes the place of
/// an earlier one, and a name without a value has an empty one.
pub proof fn fields_are_read(text: Seq<char>, k: Seq<char>, v: Seq<char>)
    requires
        forall|i: int| 0 <= i < k.len() ==> #[trigger] k[i] != '&' && k[i] != '=',
        forall|i: int| 0 <= i < v.len() ==> #[trigger] v[i] != '&',
    ensures
        form_spec(Seq::empty()) == Map::<Seq<char>, Seq<char>>::empty(),
        form_spec(k.push('=') + v) == Map::empty().insert(field_text(k), field_text(v)),
        form_spec(text.push('&') + (k.push('=') + v)) == form_spec(text).insert(
            field_text(k),
            field_text(v),
        ),
        k.len() > 0 ==> form_spec(text.push('&') + k) == form_spec(text).insert(
            field_text(k),
            Seq::empty(),
        ),
{
    let amp = Sep::Char('&');
    let e = Seq::<char>::empty();
    let pair = k.push('=') + v;
    assert(split_spec(e, amp) =~= seq![e]);
    assert(seq![e].drop_last() =~= Seq::empty());
    assert(fields_of(Seq::empty()) == Map::<Seq<char>, Seq<char>>::empty());
    assert(fields_of(seq![e]) == Map::<Seq<char>, Seq<char>>::empty());
    assert forall|i: int| 0 <= i < pair.len() implies !amp.cuts(#[trigger] pair[i]) by {
        if i < k.len() {
            assert(pair[i] == k[i]);
        } else if i > k.len() {
            assert(pair[i] == v[i - k.len() - 1]);
        }
    }
    lemma_split_whole(pair, amp);
    assert forall|i: int| 0 <= i < k.len() implies !amp.cuts(#[trigger] k[i]) by {}
    lemma_split_whole(k, amp);
    lemma_split_at(text, '&', pair, amp);
    lemma_split_at(text, '&', k, amp);
    assert forall|i: int| 0 <= i < k.len() implies pair[i] != '=' by {
        assert(pair[i] == k[i]);
    }
    assert(pair[k.len() as int] == '=');
    lemma_position_is(pair, '=', k.len() as int);
    assert(pair.take(k.len() as int) =~= k);
    assert(pair.skip(k.len() as int + 1) =~= v);
    lemma_position_is(k, '=', k.len() as int);
    assert(seq![pair].drop_last() =~= Seq::empty());
    let front = split_spec(text, amp);
    assert((front + seq![pair]).drop_last() =~= front);
    assert((front + seq![k]).drop_last() =~= front);
    assert(field_text(e) =~= e) by {
        assert(encode_utf8(e) =~= Seq::empty());
        encode_utf8_valid_utf8(e);
        encode_utf8_decode_utf8(e);
        form_bytes_are_decoded(0, true, Seq::empty());
    }
}

/// There is no line break in `s`.
pub open spec fn one_line(s: Seq<char>) -> bool {
    forall|i: int| 0 <= i < s.len() ==> #[trigger] s[i] != '\n'
}

proof fn lemma_first_break(a: Seq<char>, b: Seq<char>)
    requires
        one_line(a),
    ensures
        crlf_position(a + ("\r\n"@ + b)) == a.len(),
    decreases a.len(),
{
    reveal_strlit("\r\n");
    let s = a + ("\r\n"@ + b);
    if a.len() == 0 {
        assert(s[0] == '\r' && s[1] == '\n');
    } else {
        assert(s.skip(1) =~= a.skip(1) + ("\r\n"@ + b));
        assert forall|i: int| 0 <= i < a.skip(1).len() implies #[trigger] a.skip(1)[i] != '\n' by {
            assert(a.skip(1)[i] == a[i + 1]);
        }
        lemma_first_break(a.skip(1), b);
        if a.len() > 1 {
            assert(s[1] == a[1]);
        } else {
            assert(s[1] == '\r');
        }
    }
}

proof fn lemma_no_break(a: Seq<char>)
    requires
        one_line(a),
    ensures
        crlf_position(a) == a.len(),
    decreases a.len(),
{
    if a.len() >= 2 {
        assert(a[1] != '\n');
        assert forall|i: int| 0 <= i < a.skip(1).len() implies #[trigger] a.skip(1)[i] != '\n' by {
            assert(a.skip(1)[i] == a[i + 1]);
        }
        lemma_no_break(a.skip(1));
    }
}

/// The lines of a head: each ends at its line break.
pub proof fn head_is_cut_into_lines(line: Seq<char>, rest: Seq<char>)
    requires
        one_line(line),
    ensures
        crlf_lines(line) == seq![line],
        crlf_lines(line + ("\r\n"@ + rest)) == seq![line] + crlf_lines(rest),
{
    lemma_no_break(line);
    lemma_first_break(line, rest);
    reveal_strlit("\r\n");
    let s = line + ("\r\n"@ + rest);
    assert(s.take(line.len() as int) =~= line);
    assert(s.skip(line.len() as int + 2) =~= rest);
}

/// No white space at all.
pub open spec fn one_word(s: Seq<char>) -> bool {
    &&& s.len() > 0
    &&& forall|i: int| 0 <= i < s.len() ==> !is_white(#[trigger] s[i])
}

proof fn lemma_words(a: Seq<char>, b: Seq<char>, c: Seq<char>)
    requires
        one_word(a),
        one_word(b),
    ensures
        ({
            let words = nonempty_pieces(split_spec(a.push(' ') + (b.push(' ') + c), Sep::White));
            words.len() >= 2 && words[0] == a && words[1] == b
        }),
{
    let w = Sep::White;
    assert forall|i: int| 0 <= i < a.len() implies !w.cuts(#[trigger] a[i]) by {}
    assert forall|i: int| 0 <= i < b.len() implies !w.cuts(#[trigger] b[i]) by {}
    lemma_split_whole(a, w);
    lemma_split_whole(b, w);
    lemma_split_at(b, ' ', c, w);
    lemma_split_at(a, ' ', b.push(' ') + c, w);
    let pred = |p: Seq<char>| p.len() > 0;
    lemma_one_piece(a);
    lemma_one_piece(b);
    let rest = split_spec(c, w);
    Seq::filter_distributes_over_add(seq![b], rest, pred);
    Seq::filter_distributes_over_add(seq![a], seq![b] + rest, pred);
}

proof fn lemma_one_piece(a: Seq<char>)
    requires
        a.len() > 0,
    ensures
        seq![a].filter(|p: Seq<char>| p.len() > 0) == seq![a],
{
    reveal(Seq::filter);
    let pred = |p: Seq<char>| p.len() > 0;
    assert(seq![a].drop_last() =~= Seq::empty());
    assert(seq![a].drop_last().filter(pred) =~= Seq::empty());
    assert(pred(seq![a].last()));
    assert(seq![a].filter(pred) =~= seq![a]);
}

/// The first line of a request: what to do, with what, and the version of the protocol. What
/// stands behind a question mark is no part of the path.
pub proof fn request_line_is_read(
    method: Seq<char>,
    path: Seq<char>,
    query: Seq<char>,
    version: Seq<char>,
    rest: Seq<char>,
)
    requires
        one_word(method) && one_word(path) && one_line(version),
        one_word(path.push('?') + query),
        forall|i: int| 0 <= i < path.len() ==> #[trigger] path[i] != '?',
    ensures
        ({
            let plain = head_spec(method.push(' ') + (path.push(' ') + version) + ("\r\n"@ + rest));
            let asked = head_spec(
                method.push(' ') + ((path.push('?') + query).push(' ') + version) + ("\r\n"@ + rest),
            );
            &&& plain.method == method && plain.path == path
            &&& asked.method == method && asked.path == path
            &&& plain.headers == headers_spec(crlf_lines(rest))
            &&& asked.headers == headers_spec(crlf_lines(rest))
        }),
{
    let target = path.push('?') + query;
    let first = method.push(' ') + (path.push(' ') + version);
    let second = method.push(' ') + (target.push(' ') + version);
    lemma_words_on_one_line(method, path, version);
    lemma_words_on_one_line(method, target, version);
    head_is_cut_into_lines(first, rest);
    head_is_cut_into_lines(second, rest);
    let more = crlf_lines(rest);
    assert((seq![first] + more).skip(1) =~= more);
    assert((seq![second] + more).skip(1) =~= more);
    lemma_words(method, path, version);
    lemma_words(method, target, version);
    lemma_position_is(path, '?', path.len() as int);
    assert(target[path.len() as int] == '?');
    assert forall|i: int| 0 <= i < path.len() implies target[i] != '?' by {
        assert(target[i] == path[i]);
    }
    lemma_position_is(target, '?', path.len() as int);
    assert(target.take(path.len() as int) =~= path);
}

proof fn lemma_words_on_one_line(a: Seq<char>, b: Seq<char>, c: Seq<char>)
    requires
        one_word(a) && one_word(b) && one_line(c),
    ensures
        one_line(a.push(' ') + (b.push(' ') + c)),
{
    let s = a.push(' ') + (b.push(' ') + c);
    assert forall|i: int| 0 <= i < s.len() implies #[trigger] s[i] != '\n' by {
        if i < a.len() {
            assert(s[i] == a[i]);
        } else if i > a.len() && i < a.len() + 1 + b.len() {
            assert(s[i] == b[i - a.len() - 1]);
        } else if i > a.len() + 1 + b.len() {
            assert(s[i] == c[i - a.len() - b.len() - 2]);
        }
    }
}

/// A header is found under its name in small letters, without the white space around name and
/// value; a later one takes the place of an earlier one.
pub proof fn headers_are_read(
    lines: Seq<Seq<char>>,
    name: Seq<char>,
    a: Seq<char>,
    value: Seq<char>,
    b: Seq<char>,
)
    requires
        one_word(name),
        forall|i: int| 0 <= i < name.len() ==> #[trigger] name[i] != ':',
        forall|i: int| 0 <= i < a.len() ==> is_white(#[trigger] a[i]),
        forall|i: int| 0 <= i < b.len() ==> is_white(#[trigger] b[i]),
        value.len() > 0 ==> !is_white(value[0]) && !is_white(value.last()),
    ensures
        headers_spec(lines.push(name.push(':') + (a + value + b))) == headers_spec(lines).insert(
            lower_spec(name),
            value,
        ),
{
    let line = name.push(':') + (a + value + b);
    let e = Seq::<char>::empty();
    assert(lines.push(line).drop_last() =~= lines);
    assert forall|i: int| 0 <= i < name.len() implies line[i] != ':' by {
        assert(line[i] == name[i]);
    }
    assert(line[name.len() as int] == ':');
    lemma_position_is(line, ':', name.len() as int);
    assert(line.take(name.len() as int) =~= name);
    assert(line.skip(name.len() as int + 1) =~= a + value + b);
    assert(!is_white(name[0]) && !is_white(name[name.len() - 1]));
    space_around_is_trimmed(e, name, e);
    assert(e + name + e =~= name);
    space_around_is_trimmed(a, value, b);
}

/// A request is read whole, whatever follows it: its head up to the first blank line, and as much
/// of what is behind it as its head says. As long as less has come, there is more to read; and a
/// request that is announced as too large is refused.
pub proof fn request_is_read(head: Seq<char>, n: nat, body: Seq<u8>)
    requires
        crate::reply::first_key(encode_utf8(head), blank_line()),
        head_spec(head).headers.contains_pair("content-length"@, dec(n)),
        n <= usize::MAX,
        encode_utf8(head).len() + 4 + body.len() <= MAX_PART,
    ensures
        ({
            let step = read_step(ReaderView::Head(Seq::empty()), encode_utf8(head) + blank_line() + body);
            &&& n <= body.len() ==> step == ReadStepView::Done(
                RequestView { body: body.take(n as int), ..head_spec(head) },
            )
            &&& body.len() < n <= MAX_PART ==> step is More
            &&& n > MAX_PART ==> step == ReadStepView::Failed(crate::http::ReadError::BodyTooLarge)
        }),
{
    let h = encode_utf8(head);
    let all = h + blank_line() + body;
    assert(all =~= h + (blank_line() + body));
    lemma_blank_line_found(h, body);
    assert(Seq::<u8>::empty() + all =~= all);
    assert(all.take(h.len() as int) =~= h);
    assert(all.skip(h.len() as int + 4) =~= body);
    encode_utf8_valid_utf8(head);
    encode_utf8_decode_utf8(head);
    lemma_dec_reads_back(n, usize::MAX as nat);
    if n == body.len() {
        assert(body.take(n as int) =~= body);
    }
}

proof fn lemma_blank_line_found(h: Seq<u8>, body: Seq<u8>)
    requires
        crate::reply::first_key(h, blank_line()),
    ensures
        find_spec(h + (blank_line() + body), blank_line()) == Some(h.len()),
{
    let key = blank_line();
    let hay = h + (key + body);
    let n = h.len() as int;
    find_is_first(hay, key, 0);
    assert(hay.subrange(n, n + key.len()) =~= key);
    assert(stands_at(hay, key, n));
    if let Some(p) = find_spec(hay, key) {
        if p < n {
            let p = p as int;
            assert(hay.subrange(p, p + key.len()) =~= (h + key).subrange(p, p + key.len()));
        }
    }
}

/// A request without a length has no body.
pub proof fn request_without_length_has_no_body(head: Seq<char>, body: Seq<u8>)
    requires
        crate::reply::first_key(encode_utf8(head), blank_line()),
        !head_spec(head).headers.dom().contains("content-length"@),
        encode_utf8(head).len() + 4 + body.len() <= MAX_PART,
    ensures
        read_step(ReaderView::Head(Seq::empty()), encode_utf8(head) + blank_line() + body)
            == ReadStepView::Done(head_spec(head)),
{
    let h = encode_utf8(head);
    let all = h + blank_line() + body;
    assert(all =~= h + (blank_line() + body));
    lemma_blank_line_found(h, body);
    assert(Seq::<u8>::empty() + all =~= all);
    assert(all.take(h.len() as int) =~= h);
    assert(all.skip(h.len() as int + 4) =~= body);
    encode_utf8_valid_utf8(head);
    encode_utf8_decode_utf8(head);
    assert(body.take(0) =~= Seq::empty());
    if body.len() == 0 {
        assert(body =~= Seq::empty());
    }
}

/// A request that only asks changes nothing, and neither does one for something that is not there.
pub proof fn asking_changes_nothing(
    req: RequestView,
    v: LiveView,
    f: FormView,
    base: ConfigView,
    value: Seq<char>,
    label: Seq<char>,
)
    requires
        req.method != "POST"@ || (req.path != "/start"@ && req.path != "/stop"@),
    ensures
        dispatch_spec(req, v, f, base, value, label).0 == v,
        dispatch_spec(req, v, f, base, value, label).1 is Respond,
{
    lemma_methods();
}

proof fn lemma_methods()
    ensures
        "GET"@ != "POST"@,
        "/start"@ != "/stop"@,
        "/"@ != "/live"@ && "/"@ != "/hits"@ && "/"@ != "/hits.txt"@,
        "/live"@ != "/hits"@ && "/live"@ != "/hits.txt"@ && "/hits"@ != "/hits.txt"@,
{
    reveal_strlit("GET");
    reveal_strlit("POST");
    reveal_strlit("/start");
    reveal_strlit("/stop");
    reveal_strlit("/");
    reveal_strlit("/live");
    reveal_strlit("/hits");
    reveal_strlit("/hits.txt");
    assert("GET"@.len() == 3 && "POST"@.len() == 4);
    assert("/start"@.len() == 6 && "/stop"@.len() == 5);
    assert("/live"@[1] == 'l' && "/hits"@[1] == 'h');
    assert("/"@.len() == 1 && "/live"@.len() == 5 && "/hits"@.len() == 5 && "/hits.txt"@.len() == 9);
}

/// Each address has what belongs there: the page, the status block, the table of servers, their
/// lines; at any other there is nothing.
pub proof fn addresses_have_their_parts(
    req: RequestView,
    v: LiveView,
    f: FormView,
    base: ConfigView,
    value: Seq<char>,
    label: Seq<char>,
)
    requires
        req.method == "GET"@,
    ensures
        ({
            let answer = dispatch_spec(req, v, f, base, value, label).1;
            &&& req.path == "/"@ ==> answer == ActionView::Respond(html_spec(page_spec(f, v, value, label)))
            &&& req.path == "/live"@ ==> answer == ActionView::Respond(
                html_spec(live_block_spec(v, value, label)),
            )
            &&& req.path == "/hits"@ ==> answer == ActionView::Respond(html_spec(hits_block_spec(v.hits)))
            &&& req.path == "/hits.txt"@ ==> answer == ActionView::Respond(
                crate::http::text_spec(crate::live::hit_lines(v.hits)),
            )
            &&& req.path != "/"@ && req.path != "/live"@ && req.path != "/hits"@ && req.path
                != "/hits.txt"@ ==> answer == ActionView::Respond(
                crate::http::err_spec(404, "not found"@),
            )
        }),
{
    lemma_methods();
}

/// A request to stop stops a running scan and keeps all that it has found.
pub proof fn stopping_stops(
    req: RequestView,
    v: LiveView,
    f: FormView,
    base: ConfigView,
    value: Seq<char>,
    label: Seq<char>,
)
    requires
        req.method == "POST"@,
        req.path == "/stop"@,
    ensures
        ({
            let after = dispatch_spec(req, v, f, base, value, label).0;
            &&& !after.running
            &&& after.phase != Phase::Running
            &&& v.phase == Phase::Running ==> after.phase == Phase::Stopping
            &&& v.phase != Phase::Running ==> after.phase == v.phase
            &&& after.hits == v.hits && after.logs == v.logs && after.stats == v.stats && after.cursor
                == v.cursor && after.error == v.error
        }),
{
    lemma_methods();
}

/// A request to start begins the scan that its form asks for, unless one runs or is being stopped
/// or the form asks for none: of these the page tells, and a running scan runs on.
pub proof fn starting_starts(
    req: RequestView,
    v: LiveView,
    f: FormView,
    base: ConfigView,
    value: Seq<char>,
    label: Seq<char>,
)
    requires
        req.method == "POST"@,
        req.path == "/start"@,
    ensures
        ({
            let (after, action) = dispatch_spec(req, v, f, base, value, label);
            let asked = form_config(base, form_spec(crate::text::lenient_text(req.body)));
            &&& v.phase != Phase::Running && v.phase != Phase::Stopping ==> match asked {
                Ok(cfg) => action == ActionView::Begin(cfg) && after == v,
                Err(e) => action is Respond && after.error == Some(friendly_spec(e.full_message())),
            }
            &&& v.phase == Phase::Running || v.phase == Phase::Stopping ==> action is Respond
                && after.error is Some
            &&& after.running == v.running && after.phase == v.phase && after.hits == v.hits && after.cursor
                == v.cursor && after.stats == v.stats
        }),
{
    lemma_methods();
}

proof fn lemma_place(ip: u32, port: u16)
    ensures
        ({
            let t = quad_text(ip).push(':') + dec(port as nat);
            &&& t.len() > 0 && !is_white(t[0]) && !is_white(t.last())
            &&& socket4_spec(t) == Some(Bind::V4 { ip, port })
        }),
{
    let (q, d) = (quad_text(ip), dec(port as nat));
    let t = q.push(':') + d;
    crate::reach::lemma_quad_chars(ip);
    crate::num::lemma_dec_digits(port as nat);
    crate::ipv4::quad_reads_back(ip);
    lemma_dec_reads_back(port as nat, 0xffff);
    assert(t[0] == q[0] && t.last() == d[d.len() - 1]);
    assert forall|i: int| 0 <= i < q.len() implies t[i] != ':' by {
        assert(t[i] == q[i]);
    }
    assert(t[q.len() as int] == ':');
    lemma_position_is(t, ':', q.len() as int);
    assert(t.take(q.len() as int) =~= q && t.skip(q.len() as int + 1) =~= d);
    assert('0' <= d[0] <= '9');
}

proof fn lemma_port_alone(port: u16)
    ensures
        ({
            let d = dec(port as nat);
            &&& d.len() > 0 && !is_white(d[0]) && !is_white(d.last())
            &&& socket4_spec(d) is None && socket6_spec(d) is None
            &&& unsigned_spec(d, 10, 0xffff) == Ok::<nat, IntError>(port as nat)
        }),
{
    let d = dec(port as nat);
    crate::num::lemma_dec_digits(port as nat);
    lemma_dec_reads_back(port as nat, 0xffff);
    assert('0' <= d[0] <= '9' && '0' <= d[d.len() - 1] <= '9');
    assert forall|i: int| 0 <= i < d.len() implies d[i] != ':' by {}
    lemma_position_is(d, ':', d.len() as int);
}

proof fn lemma_colon_port(port: u16)
    ensures
        ({
            let c = seq![':'] + dec(port as nat);
            &&& !is_white(c[0]) && !is_white(c.last())
            &&& socket4_spec(c) is None && socket6_spec(c) is None
            &&& unsigned_spec(c, 10, 0xffff) is Err
            &&& c.skip(1) == dec(port as nat)
        }),
{
    let d = dec(port as nat);
    let c = seq![':'] + d;
    let e = Seq::<char>::empty();
    lemma_port_alone(port);
    assert(c[0] == ':' && c.last() == d.last());
    lemma_position_is(c, ':', 0);
    assert(c.take(0) =~= e && c.skip(1) =~= d);
    assert(split_spec(e, Sep::Char('.')) =~= seq![e]);
    lemma_colon_is_no_digit(c);
}

/// The text of an address and a port is the place to listen at; a port alone, with or without a
/// colon, is that port on all addresses. White space around them does not count.
pub proof fn listening_places_are_read(ip: u32, port: u16, a: Seq<char>, b: Seq<char>)
    requires
        forall|i: int| 0 <= i < a.len() ==> is_white(#[trigger] a[i]),
        forall|i: int| 0 <= i < b.len() ==> is_white(#[trigger] b[i]),
    ensures
        bind_spec(a + (quad_text(ip).push(':') + dec(port as nat)) + b) == Ok::<Bind, BindError>(
            Bind::V4 { ip, port },
        ),
        bind_spec(a + dec(port as nat) + b) == Ok::<Bind, BindError>(Bind::V4 { ip: 0, port }),
        bind_spec(a + (seq![':'] + dec(port as nat)) + b) == Ok::<Bind, BindError>(
            Bind::V4 { ip: 0, port },
        ),
{
    lemma_place(ip, port);
    lemma_port_alone(port);
    lemma_colon_port(port);
    space_around_is_trimmed(a, quad_text(ip).push(':') + dec(port as nat), b);
    space_around_is_trimmed(a, dec(port as nat), b);
    space_around_is_trimmed(a, seq![':'] + dec(port as nat), b);
}

proof fn lemma_colon_is_no_digit(c: Seq<char>)
    requires
        c.len() > 1,
        c[0] == ':',
    ensures
        unsigned_spec(c, 10, 0xffff) is Err,
{
    let one = c.take(1);
    assert(one.drop_last() =~= Seq::empty());
    assert(digits_spec(one.drop_last(), 10, 0xffff) == Ok::<nat, IntError>(0));
    assert(one.last() == ':');
    crate::num::lemma_digits_prefix_err(c, 1, 10, 0xffff);
}

proof fn lemma_first_piece(s: Seq<char>, sep: Sep)
    requires
        s.len() > 0,
        !sep.cuts(s[0]),
    ensures
        split_spec(s, sep).len() > 0,
        split_spec(s, sep)[0].len() > 0,
        split_spec(s, sep)[0][0] == s[0],
    decreases s.len(),
{
    let front = s.drop_last();
    if s.len() == 1 {
        assert(front =~= Seq::empty());
        let e = Seq::<char>::empty();
        assert(split_spec(front, sep) =~= seq![e]);
    } else {
        lemma_first_piece(front, sep);
    }
}

proof fn lemma_bracket_is_no_quad(s: Seq<char>)
    requires
        s.len() > 0,
        s[0] == '[',
    ensures
        socket4_spec(s) is None,
{
    lemma_position(s, ':');
    if let Some((host, _)) = split_once_spec(s, ':') {
        assert(host[0] == '[');
        lemma_first_piece(host, Sep::Char('.'));
        let first = split_spec(host, Sep::Char('.'))[0];
        let one = first.take(1);
        assert(one.drop_last() =~= Seq::empty());
        assert(digits_spec(one.drop_last(), 10, 255) == Ok::<nat, IntError>(0));
        assert(one.last() == '[');
        crate::num::lemma_digits_prefix_err(first, 1, 10, 255);
    }
}

/// A text in brackets, with a port behind it.
pub open spec fn bracketed(inside: Seq<char>, port: u16) -> Seq<char> {
    seq!['['] + inside + seq![']', ':'] + dec(port as nat)
}

/// There is neither a closing bracket nor a percent sign in `s`.
pub open spec fn is_bare(s: Seq<char>) -> bool {
    forall|i: int| 0 <= i < s.len() ==> #[trigger] s[i] != ']' && s[i] != '%'
}

/// There is no closing bracket in `s`.
spec fn stays_inside(s: Seq<char>) -> bool {
    forall|i: int| 0 <= i < s.len() ==> #[trigger] s[i] != ']'
}

proof fn lemma_scoped(text: Seq<char>, scope: u32)
    requires
        is_bare(text),
    ensures
        unscoped(text) == text && scope_spec(text) == Some(0nat),
        unscoped(text.push('%') + dec(scope as nat)) == text,
        scope_spec(text.push('%') + dec(scope as nat)) == Some(scope as nat),
        stays_inside(text),
        stays_inside(text.push('%') + dec(scope as nat)),
{
    let d = dec(scope as nat);
    let scoped = text.push('%') + d;
    crate::num::lemma_dec_digits(scope as nat);
    lemma_dec_reads_back(scope as nat, 0xffff_ffff);
    assert('0' <= d[0] <= '9');
    lemma_position_is(text, '%', text.len() as int);
    assert forall|i: int| 0 <= i < text.len() implies scoped[i] != '%' by {
        assert(scoped[i] == text[i]);
    }
    assert(scoped[text.len() as int] == '%');
    lemma_position_is(scoped, '%', text.len() as int);
    assert(scoped.take(text.len() as int) =~= text && scoped.skip(text.len() as int + 1) =~= d);
    assert forall|i: int| 0 <= i < scoped.len() implies #[trigger] scoped[i] != ']' by {
        if i < text.len() {
            assert(scoped[i] == text[i]);
        } else if i > text.len() {
            assert(scoped[i] == d[i - text.len() - 1]);
        }
    }
}

/// The text of an address of the long kind in brackets, with a port behind it, is the place to
/// listen at; a number behind a percent sign is its scope.
pub proof fn bracketed_places_are_read(text: Seq<char>, scope: u32, port: u16)
    requires
        ipv6_spec(text) is Some,
        is_bare(text),
    ensures
        bind_spec(bracketed(text, port)) == Ok::<Bind, BindError>(
            Bind::V6 { ip6: ipv6_spec(text)->0, port, scope: 0 },
        ),
        bind_spec(bracketed(text.push('%') + dec(scope as nat), port)) == Ok::<Bind, BindError>(
            Bind::V6 { ip6: ipv6_spec(text)->0, port, scope },
        ),
{
    lemma_scoped(text, scope);
    lemma_bracketed(text, port);
    lemma_bracketed(text.push('%') + dec(scope as nat), port);
}

proof fn lemma_brackets(inside: Seq<char>, port: u16)
    requires
        stays_inside(inside),
    ensures
        ({
            let t = bracketed(inside, port);
            &&& t.len() > 0 && t[0] == '[' && !is_white(t[0]) && !is_white(t.last())
            &&& split_once_spec(t.skip(1), ']') == Some((inside, seq![':'] + dec(port as nat)))
        }),
{
    let d = dec(port as nat);
    let t = bracketed(inside, port);
    crate::num::lemma_dec_digits(port as nat);
    assert('0' <= d[d.len() - 1] <= '9');
    assert(t[0] == '[' && t.last() == d[d.len() - 1]);
    let rest = t.skip(1);
    let n = inside.len() as int;
    assert(rest =~= inside + seq![']', ':'] + d);
    assert forall|i: int| 0 <= i < n implies rest[i] != ']' by {
        assert(rest[i] == inside[i]);
    }
    assert(rest[n] == ']');
    lemma_position_is(rest, ']', n);
    assert(rest.take(n) =~= inside);
    assert(rest.skip(n + 1) =~= seq![':'] + d);
}

proof fn lemma_colon_and_port(port: u16)
    ensures
        ({
            let after = seq![':'] + dec(port as nat);
            &&& after.len() > 0 && after[0] == ':'
            &&& plain_number(after.skip(1), 0xffff) == Some(port as nat)
        }),
{
    let d = dec(port as nat);
    crate::num::lemma_dec_digits(port as nat);
    lemma_dec_reads_back(port as nat, 0xffff);
    assert('0' <= d[0] <= '9');
    assert((seq![':'] + d).skip(1) =~= d);
}

proof fn lemma_bracketed(inside: Seq<char>, port: u16)
    requires
        stays_inside(inside),
        ipv6_spec(unscoped(inside)) is Some,
        scope_spec(inside) is Some,
    ensures
        bind_spec(bracketed(inside, port)) == Ok::<Bind, BindError>(
            Bind::V6 {
                ip6: ipv6_spec(unscoped(inside))->0,
                port,
                scope: scope_spec(inside)->0 as u32,
            },
        ),
{
    let e = Seq::<char>::empty();
    let t = bracketed(inside, port);
    lemma_brackets(inside, port);
    lemma_colon_and_port(port);
    space_around_is_trimmed(e, t, e);
    assert(e + t + e =~= t);
    lemma_bracket_is_no_quad(t);
}

/// A response tells its status, the kind and the length of its body, and has its body behind a
/// blank line.
pub proof fn responses_tell_their_length(status: Seq<char>, ctype: Seq<char>, body: Seq<u8>)
    ensures
        ({
            let head = "HTTP/1.1 "@ + status + "\r\nContent-Type: "@ + ctype
                + "\r\nCache-Control: no-store"@ + "\r\nContent-Length: "@ + dec(body.len())
                + "\r\nConnection: close"@;
            resp_spec(status, ctype, body) == encode_utf8(head + "\r\n\r\n"@) + body
        }),
{
    reveal_strlit("\r\nCache-Control: no-store\r\nContent-Length: ");
    reveal_strlit("\r\nCache-Control: no-store");
    reveal_strlit("\r\nContent-Length: ");
    reveal_strlit("\r\nConnection: close\r\n\r\n");
    reveal_strlit("\r\nConnection: close");
    reveal_strlit("\r\n\r\n");
    assert("\r\nCache-Control: no-store\r\nContent-Length: "@ =~= "\r\nCache-Control: no-store"@
        + "\r\nContent-Length: "@);
    assert("\r\nConnection: close\r\n\r\n"@ =~= "\r\nConnection: close"@ + "\r\n\r\n"@);
    let a = "HTTP/1.1 "@ + status + "\r\nContent-Type: "@ + ctype;
    let (x, y) = ("\r\nCache-Control: no-store"@, "\r\nContent-Length: "@);
    let (z, w) = ("\r\nConnection: close"@, "\r\n\r\n"@);
    assert(a + (x + y) =~= a + x + y);
    let m = a + x + y + dec(body.len());
    assert(m + (z + w) =~= m + z + w);
}

} // verus!
