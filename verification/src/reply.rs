//! What a status request asks and what its reply tells, in terms of the bytes themselves.

use vstd::prelude::*;
use vstd::string::*;
use vstd::utf8::encode_utf8;

use crate::ipv4::quad_text;
use crate::num::{dec, dec_int, lemma_dec_digits};
use crate::ping::{
    ascii_bytes, digit_run, digits_value, find_is_first, find_spec, groups, handshake,
    handshake_and_status, i64_spec, is_digit, is_space, json_string, json_string_reads_back,
    motd_spec, packet, plain_from, probe_answer, quoted_from, quoted_spec, skip_ws_spec, stands_at,
    status_spec, twos_complement, value_of, varint, version_spec,
};
use crate::text::trim_spec;

verus! {

/// Nothing but blanks.
pub open spec fn blank(w: Seq<u8>) -> bool {
    forall|i: int|
        0 <= i < w.len() ==> #[trigger] w[i] == 32 || w[i] == 9 || w[i] == 10 || w[i] == 12 || w[i] == 13
}

/// Where `key` follows `before`, it stands there for the first time.
pub open spec fn first_key(before: Seq<u8>, key: Seq<u8>) -> bool {
    forall|i: int|
        0 <= i < before.len() ==> #[trigger] (before + key).subrange(i, i + key.len()) != key
}

/// `key` stands nowhere in `s`.
pub open spec fn has_no(s: Seq<u8>, key: Seq<u8>) -> bool {
    forall|i: int|
        0 <= i && i + key.len() <= s.len() ==> #[trigger] s.subrange(i, i + key.len()) != key
}

/// A key with its value: a colon stands between them, and there may be blanks around it.
pub open spec fn member(key: Seq<u8>, w: Seq<u8>, v: Seq<u8>, value: Seq<u8>) -> Seq<u8> {
    key + (w + (seq![58u8] + (v + value)))
}

/// A whole number as it stands in a reply.
pub open spec fn number(n: int) -> Seq<u8> {
    ascii_bytes(dec_int(n))
}

/// What may stand behind a whole number: no other digit and no fraction; nothing at all, once the
/// reply has ended.
pub open spec fn ends_number(rest: Seq<u8>, eof: bool) -> bool {
    &&& rest.len() > 0 || eof
    &&& rest.len() > 0 ==> rest[0] != 46 && !(48 <= rest[0] <= 57)
}

pub open spec fn players_key() -> Seq<u8> {
    encode_utf8("\"players\""@)
}

pub open spec fn online_key() -> Seq<u8> {
    encode_utf8("\"online\""@)
}

pub open spec fn max_key() -> Seq<u8> {
    encode_utf8("\"max\""@)
}

pub open spec fn version_key() -> Seq<u8> {
    encode_utf8("\"version\""@)
}

pub open spec fn name_key() -> Seq<u8> {
    encode_utf8("\"name\""@)
}

pub open spec fn description_key() -> Seq<u8> {
    encode_utf8("\"description\""@)
}

pub open spec fn text_key() -> Seq<u8> {
    encode_utf8("\"text\""@)
}

/// A reply: some bytes without a brace, and the object behind them.
pub open spec fn reply(pre: Seq<u8>, object: Seq<u8>) -> Seq<u8> {
    pre + (seq![123u8] + object)
}

pub open spec fn no_brace(pre: Seq<u8>) -> bool {
    forall|i: int| 0 <= i < pre.len() ==> #[trigger] pre[i] != 123
}

proof fn lemma_key_len(key: Seq<char>)
    requires
        key.len() > 0,
    ensures
        encode_utf8(key).len() > 0,
{
}

proof fn lemma_keys()
    ensures
        players_key().len() > 0 && online_key().len() > 0 && max_key().len() > 0,
        version_key().len() > 0 && name_key().len() > 0,
        description_key().len() > 0 && text_key().len() > 0,
{
    reveal_strlit("\"players\"");
    reveal_strlit("\"online\"");
    reveal_strlit("\"max\"");
    reveal_strlit("\"version\"");
    reveal_strlit("\"name\"");
    reveal_strlit("\"description\"");
    reveal_strlit("\"text\"");
    lemma_key_len("\"players\""@);
    lemma_key_len("\"online\""@);
    lemma_key_len("\"max\""@);
    lemma_key_len("\"version\""@);
    lemma_key_len("\"name\""@);
    lemma_key_len("\"description\""@);
    lemma_key_len("\"text\""@);
}

proof fn lemma_found_at(before: Seq<u8>, key: Seq<u8>, rest: Seq<u8>)
    requires
        first_key(before, key),
    ensures
        find_spec(before + (key + rest), key) == Some(before.len()),
        (before + (key + rest)).skip(before.len() as int) == key + rest,
{
    let hay = before + (key + rest);
    let n = before.len() as int;
    find_is_first(hay, key, 0);
    assert(hay.subrange(n, n + key.len()) =~= key);
    assert(stands_at(hay, key, n));
    if let Some(p) = find_spec(hay, key) {
        if p < n {
            let p = p as int;
            assert(hay.subrange(p, p + key.len()) =~= (before + key).subrange(p, p + key.len()));
        }
    }
    assert(hay.skip(n) =~= key + rest);
}

proof fn lemma_not_found(hay: Seq<u8>, key: Seq<u8>)
    requires
        has_no(hay, key),
    ensures
        find_spec(hay, key) is None,
{
    find_is_first(hay, key, 0);
}

proof fn lemma_blanks_skipped(w: Seq<u8>, v: Seq<u8>)
    requires
        blank(w),
        v.len() > 0,
        !is_space(v[0]),
    ensures
        skip_ws_spec(w + v) == v,
    decreases w.len(),
{
    if w.len() == 0 {
        assert(w + v =~= v);
    } else {
        assert(is_space(w[0]));
        assert((w + v).skip(1) =~= w.skip(1) + v);
        assert forall|i: int| 0 <= i < w.skip(1).len() implies #[trigger] w.skip(1)[i] == 32
            || w.skip(1)[i] == 9 || w.skip(1)[i] == 10 || w.skip(1)[i] == 12 || w.skip(1)[i] == 13 by {
            assert(w.skip(1)[i] == w[i + 1]);
        }
        lemma_blanks_skipped(w.skip(1), v);
    }
}

proof fn lemma_member_value(before: Seq<u8>, key: Seq<u8>, w: Seq<u8>, v: Seq<u8>, value: Seq<u8>)
    requires
        first_key(before, key),
        blank(w),
        blank(v),
        value.len() > 0,
        !is_space(value[0]),
    ensures
        value_of(before + member(key, w, v, value), key) == Some(value),
{
    let rest = w + (seq![58u8] + (v + value));
    let hay = before + (key + rest);
    lemma_found_at(before, key, rest);
    assert(hay.skip((before.len() + key.len()) as int) =~= rest);
    lemma_blanks_skipped(w, seq![58u8] + (v + value));
    assert((seq![58u8] + (v + value)).skip(1) =~= v + value);
    lemma_blanks_skipped(v, value);
}

proof fn lemma_digits(n: nat)
    ensures
        digits_value(ascii_bytes(dec(n))) == n,
        ascii_bytes(dec(n)).len() > 0,
        forall|i: int| 0 <= i < ascii_bytes(dec(n)).len() ==> is_digit(#[trigger] ascii_bytes(dec(n))[i]),
    decreases n,
{
    lemma_dec_digits(n);
    let d = ascii_bytes(dec(n));
    assert forall|i: int| 0 <= i < d.len() implies is_digit(#[trigger] d[i]) by {
        assert('0' <= dec(n)[i] <= '9');
    }
    if n < 10 {
        assert(d.drop_last() =~= Seq::empty());
        assert(digits_value(d.drop_last()) == 0);
    } else {
        lemma_digits(n / 10);
        assert(d.drop_last() =~= ascii_bytes(dec(n / 10)));
        assert(dec(n).last() == dec(n)[dec(n).len() - 1]);
    }
}

proof fn lemma_run_of(d: Seq<u8>, rest: Seq<u8>)
    requires
        forall|i: int| 0 <= i < d.len() ==> is_digit(#[trigger] d[i]),
        rest.len() > 0 ==> !is_digit(rest[0]),
    ensures
        digit_run(d + rest) == d.len(),
    decreases d.len(),
{
    if d.len() == 0 {
        assert(d + rest =~= rest);
    } else {
        assert(is_digit(d[0]));
        assert((d + rest).skip(1) =~= d.skip(1) + rest);
        assert forall|i: int| 0 <= i < d.skip(1).len() implies is_digit(#[trigger] d.skip(1)[i]) by {
            assert(d.skip(1)[i] == d[i + 1]);
        }
        lemma_run_of(d.skip(1), rest);
    }
}

/// A whole number in a reply is the number that it writes.
pub proof fn numbers_are_read(n: i64, rest: Seq<u8>, eof: bool)
    requires
        n > i64::MIN,
        ends_number(rest, eof),
    ensures
        i64_spec(number(n as int) + rest, eof) == Some(n as int),
        number(n as int).len() > 0 && !is_space(number(n as int)[0]),
{
    let m: nat = if n < 0 {
        (-n) as nat
    } else {
        n as nat
    };
    let d = ascii_bytes(dec(m));
    let s = number(n as int) + rest;
    lemma_digits(m);
    lemma_run_of(d, rest);
    if n < 0 {
        assert(number(n as int) =~= seq![45u8] + d);
        assert(s.skip(1) =~= d + rest);
    } else {
        assert(number(n as int) =~= d);
        assert(is_digit(d[0]));
    }
    assert((d + rest).take(d.len() as int) =~= d);
}

proof fn lemma_object(pre: Seq<u8>, object: Seq<u8>)
    requires
        no_brace(pre),
    ensures
        find_spec(reply(pre, object), seq![123u8]) == Some(pre.len()),
        reply(pre, object).skip(pre.len() as int) == seq![123u8] + object,
{
    let brace = seq![123u8];
    assert forall|i: int| 0 <= i < pre.len() implies #[trigger] (pre + brace).subrange(i, i + brace.len())
        != brace by {
        assert((pre + brace).subrange(i, i + 1)[0] == pre[i]);
    }
    lemma_found_at(pre, brace, object);
}

/// The number of players online is the first one behind "online" behind "players", whatever
/// stands before, between and after.
pub proof fn players_online_are_read(
    pre: Seq<u8>,
    a: Seq<u8>,
    b: Seq<u8>,
    w: Seq<u8>,
    v: Seq<u8>,
    n: i64,
    rest: Seq<u8>,
    eof: bool,
)
    requires
        n > i64::MIN,
        no_brace(pre),
        first_key(seq![123u8] + a, players_key()),
        first_key(players_key() + b, online_key()),
        blank(w) && blank(v),
        ends_number(rest, eof),
    ensures
        ({
            let buf = reply(
                pre,
                a + (players_key() + (b + member(online_key(), w, v, number(n as int) + rest))),
            );
            &&& status_spec(buf, eof) is Some
            &&& status_spec(buf, eof)->0.online == n as i32
            &&& i32::MIN <= n <= i32::MAX ==> status_spec(buf, eof)->0.online == n
        }),
{
    let tail = b + member(online_key(), w, v, number(n as int) + rest);
    let object = a + (players_key() + tail);
    let json = seq![123u8] + object;
    lemma_keys();
    lemma_object(pre, object);
    assert(json =~= (seq![123u8] + a) + (players_key() + tail));
    lemma_found_at(seq![123u8] + a, players_key(), tail);
    numbers_are_read(n, rest, eof);
    let players = players_key() + tail;
    assert(players =~= (players_key() + b) + member(online_key(), w, v, number(n as int) + rest));
    let value = number(n as int) + rest;
    assert(value[0] == number(n as int)[0]);
    lemma_member_value(players_key() + b, online_key(), w, v, value);
}

/// The most players there may be is the first number behind "max" behind "players".
pub proof fn most_players_are_read(
    pre: Seq<u8>,
    a: Seq<u8>,
    b: Seq<u8>,
    w: Seq<u8>,
    v: Seq<u8>,
    n: i64,
    rest: Seq<u8>,
    eof: bool,
)
    requires
        n > i64::MIN,
        no_brace(pre),
        first_key(seq![123u8] + a, players_key()),
        first_key(players_key() + b, max_key()),
        blank(w) && blank(v),
        ends_number(rest, true),
    ensures
        ({
            let buf = reply(
                pre,
                a + (players_key() + (b + member(max_key(), w, v, number(n as int) + rest))),
            );
            &&& status_spec(buf, eof) is Some ==> status_spec(buf, eof)->0.max == n as i32
            &&& status_spec(buf, eof) is Some && i32::MIN <= n <= i32::MAX ==> status_spec(buf, eof)->0.max
                == n
        }),
{
    let tail = b + member(max_key(), w, v, number(n as int) + rest);
    let object = a + (players_key() + tail);
    let json = seq![123u8] + object;
    lemma_keys();
    lemma_object(pre, object);
    assert(json =~= (seq![123u8] + a) + (players_key() + tail));
    lemma_found_at(seq![123u8] + a, players_key(), tail);
    numbers_are_read(n, rest, true);
    let players = players_key() + tail;
    assert(players =~= (players_key() + b) + member(max_key(), w, v, number(n as int) + rest));
    let value = number(n as int) + rest;
    assert(value[0] == number(n as int)[0]);
    lemma_member_value(players_key() + b, max_key(), w, v, value);
}

/// A reply that does not say how many players there may be counts as if it said none; one that
/// does not speak of players is no status.
pub proof fn missing_players_are_told(pre: Seq<u8>, object: Seq<u8>, eof: bool)
    requires
        no_brace(pre),
    ensures
        has_no(seq![123u8] + object, players_key()) ==> status_spec(reply(pre, object), eof) is None,
        has_no(seq![123u8] + object, max_key()) && status_spec(reply(pre, object), eof) is Some
            ==> status_spec(reply(pre, object), eof)->0.max == 0,
{
    let json = seq![123u8] + object;
    lemma_object(pre, object);
    if has_no(json, players_key()) {
        lemma_not_found(json, players_key());
    }
    if has_no(json, max_key()) {
        if let Some(at) = find_spec(json, players_key()) {
            find_is_first(json, players_key(), 0);
            let players = json.skip(at as int);
            assert forall|i: int|
                0 <= i && i + max_key().len() <= players.len() implies #[trigger] players.subrange(
                i,
                i + max_key().len(),
            ) != max_key() by {
                assert(players.subrange(i, i + max_key().len()) =~= json.subrange(
                    at + i,
                    at + i + max_key().len(),
                ));
            }
            lemma_not_found(players, max_key());
        }
    }
}

/// What has no brace holds no status.
pub proof fn no_object_is_no_status(buf: Seq<u8>, eof: bool)
    requires
        no_brace(buf),
    ensures
        status_spec(buf, eof) is None,
{
    find_is_first(buf, seq![123u8], 0);
    if let Some(p) = find_spec(buf, seq![123u8]) {
        assert(buf.subrange(p as int, p + 1int)[0] == buf[p as int]);
        assert(seq![123u8][0] == 123);
    }
}

/// The version is the first "name" behind "version", whatever other names stand before it.
pub proof fn version_is_read(
    pre: Seq<u8>,
    a: Seq<u8>,
    b: Seq<u8>,
    w: Seq<u8>,
    v: Seq<u8>,
    t: Seq<char>,
    rest: Seq<u8>,
    eof: bool,
)
    requires
        no_brace(pre),
        first_key(seq![123u8] + a, version_key()),
        first_key(version_key() + b, name_key()),
        blank(w) && blank(v),
    ensures
        ({
            let object = a + (version_key() + (b + member(name_key(), w, v, json_string(t) + rest)));
            &&& version_spec(seq![123u8] + object) == Some(t)
            &&& status_spec(reply(pre, object), eof) is Some ==> status_spec(
                reply(pre, object),
                eof,
            )->0.version == Some(t)
        }),
{
    let value = json_string(t) + rest;
    let tail = b + member(name_key(), w, v, value);
    let object = a + (version_key() + tail);
    let json = seq![123u8] + object;
    lemma_keys();
    lemma_object(pre, object);
    assert(json =~= (seq![123u8] + a) + (version_key() + tail));
    lemma_found_at(seq![123u8] + a, version_key(), tail);
    let from = version_key() + tail;
    assert(from =~= (version_key() + b) + member(name_key(), w, v, value));
    assert(value[0] == 34);
    lemma_member_value(version_key() + b, name_key(), w, v, value);
    json_string_reads_back(t, rest, true);
}

/// A reply that does not speak of a version, or of a description, tells none.
pub proof fn missing_texts_are_told(pre: Seq<u8>, object: Seq<u8>, eof: bool)
    requires
        no_brace(pre),
        status_spec(reply(pre, object), eof) is Some,
    ensures
        has_no(seq![123u8] + object, version_key()) ==> status_spec(reply(pre, object), eof)->0.version is None,
        has_no(seq![123u8] + object, description_key()) ==> status_spec(reply(pre, object), eof)->0.motd is None,
{
    let json = seq![123u8] + object;
    lemma_object(pre, object);
    if has_no(json, version_key()) {
        lemma_not_found(json, version_key());
    }
    if has_no(json, description_key()) {
        lemma_not_found(json, description_key());
    }
}

/// A text as a message of the day: without colour codes and line breaks, without white space
/// around it, and no more than 80 characters of it; nothing where nothing is left.
pub open spec fn as_message(t: Seq<char>) -> Option<Seq<char>> {
    let plain = trim_spec(plain_from(t, 0));
    if plain.len() == 0 {
        None
    } else if plain.len() <= 80 {
        Some(plain)
    } else {
        Some(plain.take(80))
    }
}

/// The message of the day is the text behind "description".
pub proof fn description_is_read(
    pre: Seq<u8>,
    a: Seq<u8>,
    w: Seq<u8>,
    v: Seq<u8>,
    t: Seq<char>,
    rest: Seq<u8>,
    eof: bool,
)
    requires
        no_brace(pre),
        first_key(seq![123u8] + a, description_key()),
        blank(w) && blank(v),
    ensures
        ({
            let object = a + member(description_key(), w, v, json_string(t) + rest);
            &&& motd_spec(seq![123u8] + object) == as_message(t)
            &&& status_spec(reply(pre, object), eof) is Some ==> status_spec(
                reply(pre, object),
                eof,
            )->0.motd == as_message(t)
        }),
{
    let value = json_string(t) + rest;
    let object = a + member(description_key(), w, v, value);
    let json = seq![123u8] + object;
    lemma_keys();
    lemma_object(pre, object);
    assert(json =~= (seq![123u8] + a) + member(description_key(), w, v, value));
    assert(value[0] == 34);
    lemma_member_value(seq![123u8] + a, description_key(), w, v, value);
    json_string_reads_back(t, rest, true);
}

/// Where an object stands behind "description", the message of the day is its first "text".
pub proof fn described_text_is_read(
    pre: Seq<u8>,
    a: Seq<u8>,
    w: Seq<u8>,
    v: Seq<u8>,
    b: Seq<u8>,
    w2: Seq<u8>,
    v2: Seq<u8>,
    t: Seq<char>,
    rest: Seq<u8>,
    eof: bool,
)
    requires
        no_brace(pre),
        first_key(seq![123u8] + a, description_key()),
        first_key(seq![123u8] + b, text_key()),
        blank(w) && blank(v) && blank(w2) && blank(v2),
    ensures
        ({
            let inner = seq![123u8] + b + member(text_key(), w2, v2, json_string(t) + rest);
            let object = a + member(description_key(), w, v, inner);
            &&& motd_spec(seq![123u8] + object) == as_message(t)
            &&& status_spec(reply(pre, object), eof) is Some ==> status_spec(
                reply(pre, object),
                eof,
            )->0.motd == as_message(t)
        }),
{
    let value = json_string(t) + rest;
    let inner = seq![123u8] + b + member(text_key(), w2, v2, value);
    let object = a + member(description_key(), w, v, inner);
    let json = seq![123u8] + object;
    lemma_keys();
    lemma_object(pre, object);
    assert(json =~= (seq![123u8] + a) + member(description_key(), w, v, inner));
    assert(inner[0] == 123);
    lemma_member_value(seq![123u8] + a, description_key(), w, v, inner);
    assert(value[0] == 34);
    lemma_member_value(seq![123u8] + b, text_key(), w2, v2, value);
    json_string_reads_back(t, rest, true);
}

proof fn lemma_plain_shift(s: Seq<char>, k: nat, i: nat)
    requires
        k <= s.len(),
    ensures
        plain_from(s, k + i) == plain_from(s.skip(k as int), i),
    decreases s.len() - (k + i),
{
    let t = s.skip(k as int);
    if k + i < s.len() {
        assert(t[i as int] == s[(k + i) as int]);
        lemma_plain_shift(s, k, i + 1);
        if k + i + 2 < s.len() {
            lemma_plain_shift(s, k, i + 2);
        }
    }
}

/// How colour codes and line breaks go: a section sign goes with the character behind it, a line
/// break becomes a space, and every other character stays.
pub proof fn colours_and_breaks_go(c: char, t: Seq<char>)
    ensures
        plain_from(Seq::empty(), 0) == Seq::<char>::empty(),
        plain_from(seq!['\u{a7}', c] + t, 0) == plain_from(t, 0),
        plain_from(seq!['\u{a7}'], 0) == Seq::<char>::empty(),
        c == '\n' || c == '\r' ==> plain_from(seq![c] + t, 0) == seq![' '] + plain_from(t, 0),
        c != '\n' && c != '\r' && c != '\u{a7}' ==> plain_from(seq![c] + t, 0) == seq![c] + plain_from(
            t,
            0,
        ),
{
    let s2 = seq!['\u{a7}', c] + t;
    lemma_plain_shift(s2, 2, 0);
    assert(s2.skip(2) =~= t);
    if t.len() == 0 {
        assert(t =~= Seq::empty());
    }
    let s1 = seq![c] + t;
    lemma_plain_shift(s1, 1, 0);
    assert(s1.skip(1) =~= t);
}

/// The bytes of a status request: a handshake for any version of the protocol, with the address
/// as a dotted quad and the port, which asks for a status, and the request for the status.
pub proof fn request_is_laid_out(ip: u32, port: u16)
    ensures
        ({
            let addr = ascii_bytes(quad_text(ip));
            &&& 7 <= addr.len() <= 15
            &&& handshake_and_status(ip, port) == seq![
                (10 + addr.len()) as u8,
                0u8,
                0xffu8,
                0xffu8,
                0xffu8,
                0xffu8,
                0x0fu8,
                addr.len() as u8,
            ] + addr + seq![(port / 256) as u8, (port % 256) as u8, 1u8, 1u8, 0u8]
        }),
{
    let addr = ascii_bytes(quad_text(ip));
    crate::ping::lemma_quad_len(ip);
    assert(varint(-1i32) =~= seq![0xffu8, 0xffu8, 0xffu8, 0xffu8, 0x0fu8]) by {
        reveal_with_fuel(groups, 6);
        assert(twos_complement(-1i32) == 0xffff_ffff);
    }
    assert forall|k: i32| 0 <= k < 128 implies #[trigger] varint(k) =~= seq![k as u8] by {}
    let h = handshake(ip, port);
    assert(h =~= seq![0xffu8, 0xffu8, 0xffu8, 0xffu8, 0x0fu8, addr.len() as u8] + addr + seq![
        (port / 256) as u8,
        (port % 256) as u8,
        1u8,
    ]);
    assert(packet(0, h) =~= seq![(10 + addr.len()) as u8, 0u8] + h);
    assert(packet(0, Seq::empty()) =~= seq![1u8, 0u8]);
    assert(handshake_and_status(ip, port) =~= seq![
        (10 + addr.len()) as u8,
        0u8,
        0xffu8,
        0xffu8,
        0xffu8,
        0xffu8,
        0x0fu8,
        addr.len() as u8,
    ] + addr + seq![(port / 256) as u8, (port % 256) as u8, 1u8, 1u8, 0u8]);
}

/// A number that may go on is waited for, and one with a fraction, or none at all, is not taken.
pub proof fn other_numbers_are_not_taken(n: i64, rest: Seq<u8>, eof: bool)
    requires
        n > i64::MIN,
        rest.len() > 0 ==> rest[0] != 45 && !is_digit(rest[0]),
    ensures
        i64_spec(number(n as int), false) is None,
        i64_spec(number(n as int) + (seq![46u8] + rest), eof) is None,
        i64_spec(rest, eof) is None,
{
    let m: nat = if n < 0 {
        (-n) as nat
    } else {
        n as nat
    };
    let d = ascii_bytes(dec(m));
    let e = Seq::<u8>::empty();
    lemma_digits(m);
    lemma_run_of(d, e);
    lemma_run_of(d, seq![46u8] + rest);
    assert(d + e =~= d);
    let s = number(n as int) + (seq![46u8] + rest);
    if n < 0 {
        assert(number(n as int) =~= seq![45u8] + d);
        assert(number(n as int).skip(1) =~= d);
        assert(s.skip(1) =~= d + (seq![46u8] + rest));
    } else {
        assert(number(n as int) =~= d);
        assert(is_digit(d[0]));
    }
    assert((d + (seq![46u8] + rest))[d.len() as int] == 46);
}

/// A description that is neither a text nor an object, or an object without a text, tells no
/// message.
pub proof fn other_descriptions_tell_nothing(
    a: Seq<u8>,
    w: Seq<u8>,
    v: Seq<u8>,
    value: Seq<u8>,
)
    requires
        first_key(seq![123u8] + a, description_key()),
        blank(w) && blank(v),
        value.len() > 0 && !is_space(value[0]),
        value[0] != 34,
        value[0] == 123 ==> has_no(value, text_key()),
    ensures
        motd_spec(seq![123u8] + a + member(description_key(), w, v, value)) is None,
{
    lemma_keys();
    lemma_member_value(seq![123u8] + a, description_key(), w, v, value);
    let e = Seq::<char>::empty();
    assert(plain_from(e, 0) =~= e);
    assert(trim_spec(e) =~= e);
    if value[0] == 123 {
        lemma_not_found(value, text_key());
    }
}

/// Behind a backslash, every byte but those for line breaks and tabs stands for itself.
pub proof fn other_escapes_stand_for_themselves(b: u8, rest: Seq<u8>, eof: bool)
    ensures
        quoted_spec(seq![34u8, 92u8, b, 34u8] + rest, eof) == Some(
            seq![
                if b == 110 {
                    '\n'
                } else if b == 114 {
                    '\r'
                } else if b == 116 {
                    '\t'
                } else {
                    b as char
                },
            ],
        ),
{
    let s = seq![34u8, 92u8, b, 34u8] + rest;
    assert(s[0] == 34 && s[1] == 92 && s[2] == b && s[3] == 34);
    assert(quoted_from(s, 3, eof) == Some(Seq::<char>::empty()));
    let c = crate::ping::unescaped(b);
    assert(seq![c] + Seq::<char>::empty() =~= seq![c]);
}

/// A probe reads on only while less has come than the most that is read; and it gives its answer
/// as soon as it knows how many players there are.
pub proof fn probes_come_to_an_end(buf: Seq<u8>, chunk: Seq<u8>)
    requires
        chunk.len() > 0,
    ensures
        probe_answer(buf, chunk) is None <==> (buf + chunk).len() < 262144 && status_spec(buf + chunk, false) is None,
        status_spec(buf + chunk, false) is Some ==> probe_answer(buf, chunk) == Some(
            status_spec(buf + chunk, false),
        ),
        probe_answer(buf, Seq::empty()) == Some(status_spec(buf, true)),
{
}

} // verus!
