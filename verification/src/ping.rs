//! Minecraft Server List Ping (1.7+) with early-abort JSON scraping.

use vstd::prelude::*;
use vstd::slice::slice_subrange;
use vstd::string::*;
use vstd::utf8::{
    decode_utf8, encode_scalar, encode_utf8, encode_utf8_decode_utf8, encode_utf8_first_scalar,
    encode_utf8_valid_utf8, valid_utf8,
};

use crate::ipv4::{octet, quad_text};
use crate::num::{dec, digit_char};
use crate::syn::be16;
use crate::text::{from_chars, from_utf8, to_chars, trim, trim_spec};

verus! {

/// A reply that is longer than this is read no further.
pub const MAX_STATUS: usize = 262144;

/// `s` with `bytes` written over it from `at` on.
pub open spec fn written(s: Seq<u8>, at: int, bytes: Seq<u8>) -> Seq<u8> {
    s.take(at) + bytes + s.skip(at + bytes.len())
}

/// The two's complement of a 32-bit number.
pub open spec fn twos_complement(val: i32) -> nat {
    if val < 0 {
        (val + 0x1_0000_0000) as nat
    } else {
        val as nat
    }
}

/// `u` in groups of seven bits, least significant first; all but the last have the high bit set.
pub open spec fn groups(u: nat) -> Seq<u8>
    decreases u,
{
    if u < 128 {
        seq![u as u8]
    } else {
        seq![(u % 128 + 128) as u8] + groups(u / 128)
    }
}

/// `val` in the protocol's variable-length form.
pub open spec fn varint(val: i32) -> Seq<u8> {
    groups(twos_complement(val))
}

/// The number that groups of seven bits write, up to the first one without the high bit.
pub open spec fn groups_value(s: Seq<u8>) -> nat
    decreases s.len(),
{
    if s.len() == 0 {
        0
    } else if s[0] < 128 {
        s[0] as nat
    } else {
        (s[0] - 128 + 128 * groups_value(s.skip(1))) as nat
    }
}

/// Reading the groups of a number gives the number back, whatever follows.
pub proof fn groups_read_back(u: nat, rest: Seq<u8>)
    ensures
        groups_value(groups(u) + rest) == u,
    decreases u,
{
    let s = groups(u) + rest;
    if u >= 128 {
        groups_read_back(u / 128, rest);
        assert(s.skip(1) =~= groups(u / 128) + rest);
    }
}

/// The variable-length form of a number tells the number.
pub proof fn varint_reads_back(val: i32, rest: Seq<u8>)
    ensures
        groups_value(varint(val) + rest) == twos_complement(val),
{
    groups_read_back(twos_complement(val), rest);
}

proof fn lemma_varint_len(val: i32)
    ensures
        1 <= varint(val).len() <= 5,
        0 <= val < 128 ==> varint(val).len() == 1,
{
    reveal_with_fuel(groups, 6);
}

fn write_varint_at(out: &mut [u8], at: usize, val: i32) -> (n: usize)
    requires
        at + varint(val).len() <= old(out)@.len(),
    ensures
        final(out)@ == written(old(out)@, at as int, varint(val)),
        n == varint(val).len(),
{
    let ghost all = varint(val);
    let ghost before = out@;
    let mut u: u32 = if val < 0 {
        (val as i64 + 0x1_0000_0000) as u32
    } else {
        val as u32
    };
    let mut n: usize = 0;
    assert(written(before, at as int, all.take(0)) =~= before);
    let size: usize = out.len();
    loop
        invariant_except_break
            groups(u as nat) == all.skip(n as int),
        invariant
            at + all.len() <= before.len(),
            n <= all.len(),
            out@.len() == before.len(),
            size == before.len(),
            out@ == written(before, at as int, all.take(n as int)),
        ensures
            n == all.len(),
            out@ == written(before, at as int, all),
        decreases u,
    {
        let ghost rest = all.skip(n as int);
        let low: u8 = (u % 128) as u8;
        let more: bool = u >= 128;
        u = u / 128;
        assert(rest.len() > 0);
        assert(rest[0] == all[n as int]);
        out[at + n] = if more {
            low + 128
        } else {
            low
        };
        n = n + 1;
        assert(out@ =~= written(before, at as int, all.take(n as int)));
        if !more {
            assert(all.take(n as int) =~= all);
            break;
        }
        assert(all.skip(n as int) =~= rest.skip(1));
        assert(rest.skip(1) =~= groups(u as nat));
    }
    n
}

/// Writes `val` in variable-length form to the front of `out`; gives the number of bytes.
pub fn write_varint(out: &mut [u8], val: i32) -> (n: usize)
    requires
        old(out)@.len() >= 5 || varint(val).len() <= old(out)@.len(),
    ensures
        final(out)@ == written(old(out)@, 0, varint(val)),
        n == varint(val).len(),
{
    proof {
        lemma_varint_len(val);
    }
    write_varint_at(out, 0, val)
}

fn put_bytes(out: &mut [u8], at: usize, bytes: &[u8])
    requires
        at + bytes@.len() <= old(out)@.len(),
    ensures
        final(out)@ == written(old(out)@, at as int, bytes@),
{
    let ghost before = out@;
    let size: usize = out.len();
    let mut i: usize = 0;
    assert(written(before, at as int, bytes@.take(0)) =~= before);
    while i < bytes.len()
        invariant
            i <= bytes@.len(),
            at + bytes@.len() <= before.len(),
            out@.len() == before.len(),
            size == before.len(),
            out@ == written(before, at as int, bytes@.take(i as int)),
        decreases bytes@.len() - i,
    {
        out[at + i] = bytes[i];
        i = i + 1;
        assert(out@ =~= written(before, at as int, bytes@.take(i as int)));
    }
    assert(bytes@.take(i as int) =~= bytes@);
}

/// The characters of an ASCII text as bytes.
pub open spec fn ascii_bytes(s: Seq<char>) -> Seq<u8> {
    Seq::new(s.len(), |i: int| s[i] as u8)
}

/// A dotted quad as bytes.
pub open spec fn quad_bytes(ip: u32) -> Seq<u8> {
    ascii_bytes(quad_text(ip))
}

proof fn lemma_dec_small(v: nat)
    requires
        v <= 255,
    ensures
        dec(v) == (if v >= 100 {
            seq![digit_char(v / 100), digit_char(v / 10 % 10), digit_char(v % 10)]
        } else if v >= 10 {
            seq![digit_char(v / 10), digit_char(v % 10)]
        } else {
            seq![digit_char(v)]
        }),
{
    reveal_with_fuel(dec, 4);
    if v >= 100 {
        assert(dec(v) =~= seq![digit_char(v / 100), digit_char(v / 10 % 10), digit_char(v % 10)]);
    } else if v >= 10 {
        assert(dec(v) =~= seq![digit_char(v / 10), digit_char(v % 10)]);
    }
}

fn itoa_at(v: u8, out: &mut [u8], at: usize) -> (n: usize)
    requires
        at + dec(v as nat).len() <= old(out)@.len(),
    ensures
        final(out)@ == written(old(out)@, at as int, ascii_bytes(dec(v as nat))),
        n == dec(v as nat).len(),
{
    proof {
        lemma_dec_small(v as nat);
    }
    if v >= 100 {
        out[at] = 48 + v / 100;
        out[at + 1] = 48 + v / 10 % 10;
        out[at + 2] = 48 + v % 10;
        assert(out@ =~= written(old(out)@, at as int, ascii_bytes(dec(v as nat))));
        3
    } else if v >= 10 {
        out[at] = 48 + v / 10;
        out[at + 1] = 48 + v % 10;
        assert(out@ =~= written(old(out)@, at as int, ascii_bytes(dec(v as nat))));
        2
    } else {
        out[at] = 48 + v;
        assert(out@ =~= written(old(out)@, at as int, ascii_bytes(dec(v as nat))));
        1
    }
}

/// Writes `v` in decimal digits to the front of `out`; gives the number of digits.
pub fn itoa_u8(v: u8, out: &mut [u8]) -> (n: usize)
    requires
        old(out)@.len() >= 3 || dec(v as nat).len() <= old(out)@.len(),
    ensures
        final(out)@ == written(old(out)@, 0, ascii_bytes(dec(v as nat))),
        n == dec(v as nat).len(),
{
    proof {
        lemma_dec_small(v as nat);
    }
    itoa_at(v, out, 0)
}

pub proof fn lemma_quad_len(ip: u32)
    ensures
        7 <= quad_bytes(ip).len() <= 15,
        forall|i: int| dec(#[trigger] octet(ip, i)).len() <= 3,
{
    assert forall|i: int| dec(#[trigger] octet(ip, i)).len() <= 3 && dec(octet(ip, i)).len() >= 1 by {
        lemma_dec_small(octet(ip, i));
    }
    assert(dec(octet(ip, 0)).len() <= 3 && dec(octet(ip, 1)).len() <= 3);
    assert(dec(octet(ip, 2)).len() <= 3 && dec(octet(ip, 3)).len() <= 3);
}

/// Two writes, one behind the other, are one write.
proof fn lemma_written_twice(s: Seq<u8>, at: int, a: Seq<u8>, b: Seq<u8>)
    requires
        0 <= at,
        at + a.len() + b.len() <= s.len(),
    ensures
        written(written(s, at, a), at + a.len(), b) == written(s, at, a + b),
        written(s, at, a).len() == s.len(),
{
    assert(written(written(s, at, a), at + a.len(), b) =~= written(s, at, a + b));
}

/// Writes `v` in decimal digits and a dot to `out` from `at` on; gives the number of bytes.
fn put_octet(out: &mut [u8], at: usize, v: u8) -> (n: usize)
    requires
        at + dec(v as nat).len() < old(out)@.len(),
    ensures
        final(out)@ == written(old(out)@, at as int, ascii_bytes(dec(v as nat)) + seq![46u8]),
        n == dec(v as nat).len() + 1,
{
    let size: usize = out.len();
    let dot: [u8; 1] = [46];
    let n: usize = itoa_at(v, out, at);
    proof {
        assert(dot@ =~= seq![46u8]);
        lemma_written_twice(old(out)@, at as int, ascii_bytes(dec(v as nat)), dot@);
    }
    put_bytes(out, at + n, &dot);
    n + 1
}

proof fn lemma_quad_parts(ip: u32)
    ensures
        quad_bytes(ip) == (ascii_bytes(dec(octet(ip, 0))) + seq![46u8]) + (ascii_bytes(
            dec(octet(ip, 1)),
        ) + seq![46u8]) + (ascii_bytes(dec(octet(ip, 2))) + seq![46u8]) + ascii_bytes(
            dec(octet(ip, 3)),
        ),
{
    assert(quad_bytes(ip) =~= (ascii_bytes(dec(octet(ip, 0))) + seq![46u8]) + (ascii_bytes(
        dec(octet(ip, 1)),
    ) + seq![46u8]) + (ascii_bytes(dec(octet(ip, 2))) + seq![46u8]) + ascii_bytes(
        dec(octet(ip, 3)),
    ));
}

/// Writes an address as a dotted quad to the front of `buf`; gives the number of bytes.
pub fn fmt_ipv4(ip: u32, buf: &mut [u8; 15]) -> (n: usize)
    ensures
        final(buf)@ == written(old(buf)@, 0, quad_bytes(ip)),
        n == quad_bytes(ip).len(),
        n <= 15,
{
    let ghost (a, b, c, d) = (
        ascii_bytes(dec(octet(ip, 0))) + seq![46u8],
        ascii_bytes(dec(octet(ip, 1))) + seq![46u8],
        ascii_bytes(dec(octet(ip, 2))) + seq![46u8],
        ascii_bytes(dec(octet(ip, 3))),
    );
    proof {
        lemma_quad_len(ip);
        lemma_quad_parts(ip);
        assert(a.len() <= 4 && b.len() <= 4 && c.len() <= 4 && d.len() <= 3);
        lemma_written_twice(buf@, 0, a, b);
        lemma_written_twice(buf@, 0, a + b, c);
        lemma_written_twice(buf@, 0, a + b + c, d);
    }
    let mut n: usize = put_octet(buf, 0, (ip / 0x100_0000) as u8);
    n = n + put_octet(buf, n, (ip / 0x1_0000 % 0x100) as u8);
    n = n + put_octet(buf, n, (ip / 0x100 % 0x100) as u8);
    n + itoa_at((ip % 0x100) as u8, buf, n)
}

/// A packet of the protocol: its length, its number and its content.
pub open spec fn packet(id: i32, payload: Seq<u8>) -> Seq<u8> {
    varint((varint(id).len() + payload.len()) as i32) + varint(id) + payload
}

fn write_packet_at(out: &mut [u8], at: usize, id: i32, payload: &[u8]) -> (n: usize)
    requires
        at + packet(id, payload@).len() <= old(out)@.len(),
    ensures
        final(out)@ == written(old(out)@, at as int, packet(id, payload@)),
        n == packet(id, payload@).len(),
{
    let size: usize = out.len();
    let ghost before = out@;
    let mut idb: [u8; 5] = [0; 5];
    proof {
        lemma_varint_len(id);
    }
    let idn: usize = write_varint(&mut idb, id);
    let len: i32 = (idn + payload.len()) as i32;
    let ghost (a, b) = (varint(len), varint(id));
    proof {
        lemma_varint_len(len);
        lemma_written_twice(before, at as int, a, b);
        lemma_written_twice(before, at as int, a + b, payload@);
        assert(idb@.subrange(0, idn as int) =~= varint(id));
    }
    let mut n: usize = write_varint_at(out, at, len);
    put_bytes(out, at + n, &idb[0..idn]);
    n = n + idn;
    put_bytes(out, at + n, payload);
    n + payload.len()
}

/// Writes a packet to the front of `out`; gives the number of bytes.
pub fn write_packet(out: &mut [u8], id: i32, payload: &[u8]) -> (n: usize)
    requires
        old(out)@.len() >= payload@.len() + 10 || packet(id, payload@).len() <= old(out)@.len(),
    ensures
        final(out)@ == written(old(out)@, 0, packet(id, payload@)),
        n == packet(id, payload@).len(),
{
    proof {
        lemma_varint_len(id);
        lemma_varint_len((varint(id).len() + payload@.len()) as i32);
    }
    write_packet_at(out, 0, id, payload)
}

/// What a handshake says: any protocol version, the address and port, and that a status request
/// comes next.
pub open spec fn handshake(ip: u32, port: u16) -> Seq<u8> {
    varint(-1i32) + varint(quad_bytes(ip).len() as i32) + quad_bytes(ip) + be16(port) + varint(1)
}

/// A handshake followed by a status request.
pub open spec fn handshake_and_status(ip: u32, port: u16) -> Seq<u8> {
    packet(0, handshake(ip, port)) + packet(0, Seq::empty())
}

/// The whole request fits into 28 bytes.
pub proof fn request_is_short(ip: u32, port: u16)
    ensures
        handshake(ip, port).len() <= 24,
        handshake_and_status(ip, port).len() <= 28,
{
    lemma_quad_len(ip);
    lemma_varint_len(-1i32);
    lemma_varint_len(quad_bytes(ip).len() as i32);
    lemma_varint_len(1);
    lemma_varint_len(0);
    lemma_varint_len((1 + handshake(ip, port).len()) as i32);
}

/// Writes the request for a server's status to the front of `out`; gives the number of bytes.
pub fn encode_handshake_and_status(out: &mut [u8], ip: u32, port: u16) -> (n: usize)
    requires
        old(out)@.len() >= 28 || handshake_and_status(ip, port).len() <= old(out)@.len(),
    ensures
        final(out)@ == written(old(out)@, 0, handshake_and_status(ip, port)),
        n == handshake_and_status(ip, port).len(),
{
    let size: usize = out.len();
    let ghost before = out@;
    proof {
        request_is_short(ip, port);
        lemma_quad_len(ip);
        lemma_varint_len(-1i32);
        lemma_varint_len(quad_bytes(ip).len() as i32);
        lemma_varint_len(1);
    }
    let mut payload: [u8; 48] = [0; 48];
    let ghost zero = payload@;
    let mut addr: [u8; 15] = [0; 15];
    let addr_len: usize = fmt_ipv4(ip, &mut addr);
    let ghost (a, b, c, d, e) = (
        varint(-1i32),
        varint(addr_len as i32),
        quad_bytes(ip),
        be16(port),
        varint(1),
    );
    proof {
        lemma_written_twice(zero, 0, a, b);
        lemma_written_twice(zero, 0, a + b, c);
        lemma_written_twice(zero, 0, a + b + c, d);
        lemma_written_twice(zero, 0, a + b + c + d, e);
        assert(addr@.subrange(0, addr_len as int) =~= c);
    }
    let mut p: usize = write_varint_at(&mut payload, 0, -1);
    p = p + write_varint_at(&mut payload, p, addr_len as i32);
    put_bytes(&mut payload, p, &addr[0..addr_len]);
    p = p + addr_len;
    let port_bytes: [u8; 2] = [(port / 0x100) as u8, (port % 0x100) as u8];
    assert(port_bytes@ =~= d);
    put_bytes(&mut payload, p, &port_bytes);
    p = p + 2;
    p = p + write_varint_at(&mut payload, p, 1);
    assert(payload@.subrange(0, p as int) =~= handshake(ip, port));
    let none: [u8; 0] = [];
    assert(none@ =~= Seq::empty());
    proof {
        lemma_written_twice(before, 0, packet(0, handshake(ip, port)), packet(0, Seq::empty()));
    }
    let n: usize = write_packet_at(out, 0, 0, &payload[0..p]);
    n + write_packet_at(out, n, 0, &none)
}

/// `needle` stands in `hay` at `i`.
pub open spec fn stands_at(hay: Seq<u8>, needle: Seq<u8>, i: int) -> bool {
    i + needle.len() <= hay.len() && hay.subrange(i, i + needle.len()) == needle
}

/// Where `needle` first stands in `hay` at or after `i`.
pub open spec fn find_from(hay: Seq<u8>, needle: Seq<u8>, i: nat) -> Option<nat>
    decreases hay.len() - i,
{
    if i + needle.len() > hay.len() {
        None
    } else if stands_at(hay, needle, i as int) {
        Some(i)
    } else if i < hay.len() {
        find_from(hay, needle, i + 1)
    } else {
        None
    }
}

/// Where `needle` first stands in `hay`.
pub open spec fn find_spec(hay: Seq<u8>, needle: Seq<u8>) -> Option<nat> {
    find_from(hay, needle, 0)
}

/// The place that is found is the first one, and when none is found there is none.
pub proof fn find_is_first(hay: Seq<u8>, needle: Seq<u8>, i: nat)
    ensures
        match find_from(hay, needle, i) {
            Some(p) => i <= p && stands_at(hay, needle, p as int) && forall|j: int|
                i <= j < p ==> !stands_at(hay, needle, j),
            None => forall|j: int| i <= j ==> !stands_at(hay, needle, j),
        },
    decreases hay.len() - i,
{
    if i + needle.len() <= hay.len() && !stands_at(hay, needle, i as int) && i < hay.len() {
        find_is_first(hay, needle, i + 1);
    }
}

fn equal_at(hay: &[u8], needle: &[u8], at: usize) -> (r: bool)
    requires
        at + needle@.len() <= hay@.len(),
    ensures
        r == stands_at(hay@, needle@, at as int),
{
    let size: usize = hay.len();
    let mut i: usize = 0;
    while i < needle.len()
        invariant
            i <= needle@.len(),
            at + needle@.len() <= hay@.len(),
            size == hay@.len(),
            forall|j: int| 0 <= j < i ==> hay@[at + j] == needle@[j],
        decreases needle@.len() - i,
    {
        if hay[at + i] != needle[i] {
            assert(hay@.subrange(at as int, at + needle@.len())[i as int] != needle@[i as int]);
            return false;
        }
        i = i + 1;
    }
    assert(hay@.subrange(at as int, at + needle@.len()) =~= needle@);
    true
}

/// Where `needle` first stands in `hay`.
pub fn find(hay: &[u8], needle: &[u8]) -> (r: Option<usize>)
    requires
        needle@.len() > 0,
    ensures
        match r {
            Some(p) => find_spec(hay@, needle@) == Some(p as nat) && p + needle@.len() <= hay@.len(),
            None => find_spec(hay@, needle@) is None,
        },
{
    if needle.len() > hay.len() {
        return None;
    }
    let size: usize = hay.len();
    let last: usize = size - needle.len();
    let mut i: usize = 0;
    while i <= last
        invariant
            needle@.len() > 0,
            size == hay@.len(),
            last + needle@.len() == hay@.len(),
            i <= last + 1,
            find_from(hay@, needle@, i as nat) == find_spec(hay@, needle@),
        decreases last + 1 - i,
    {
        if equal_at(hay, needle, i) {
            return Some(i);
        }
        i = i + 1;
    }
    None
}

/// ASCII white space.
pub open spec fn is_space(b: u8) -> bool {
    b == 32 || b == 9 || b == 10 || b == 12 || b == 13
}

/// `s` without the white space it begins with.
pub open spec fn skip_ws_spec(s: Seq<u8>) -> Seq<u8>
    decreases s.len(),
{
    if s.len() > 0 && is_space(s[0]) {
        skip_ws_spec(s.skip(1))
    } else {
        s
    }
}

/// `s` without the white space it begins with.
pub fn skip_ws<'a>(s: &'a [u8]) -> (r: &'a [u8])
    ensures
        r@ == skip_ws_spec(s@),
{
    let mut i: usize = 0;
    assert(s@.skip(0) =~= s@);
    while i < s.len() && (s[i] == 32 || s[i] == 9 || s[i] == 10 || s[i] == 12 || s[i] == 13)
        invariant
            i <= s@.len(),
            skip_ws_spec(s@) == skip_ws_spec(s@.skip(i as int)),
        decreases s@.len() - i,
    {
        assert(s@.skip(i as int).skip(1) =~= s@.skip(i + 1));
        i = i + 1;
    }
    assert(s@.subrange(i as int, s@.len() as int) =~= s@.skip(i as int));
    slice_subrange(s, i, s.len())
}

/// What follows `c` when `s` begins with it.
pub open spec fn skip_char_spec(s: Seq<u8>, c: u8) -> Option<Seq<u8>> {
    if s.len() > 0 && s[0] == c {
        Some(s.skip(1))
    } else {
        None
    }
}

/// What follows `c` when `s` begins with it.
pub fn skip_char<'a>(s: &'a [u8], c: u8) -> (r: Option<&'a [u8]>)
    ensures
        match r {
            Some(t) => skip_char_spec(s@, c) == Some(t@),
            None => skip_char_spec(s@, c) is None,
        },
{
    if s.len() > 0 && s[0] == c {
        assert(s@.subrange(1, s@.len() as int) =~= s@.skip(1));
        Some(slice_subrange(s, 1, s.len()))
    } else {
        None
    }
}

/// The value behind a key: what follows a colon, white space around the colon aside.
pub open spec fn after_colon(s: Seq<u8>) -> Option<Seq<u8>> {
    match skip_char_spec(skip_ws_spec(s), 58) {
        Some(t) => Some(skip_ws_spec(t)),
        None => None,
    }
}

/// The value of the first `key` in `hay`.
pub open spec fn value_of(hay: Seq<u8>, key: Seq<u8>) -> Option<Seq<u8>> {
    match find_spec(hay, key) {
        Some(at) => after_colon(hay.skip((at + key.len()) as int)),
        None => None,
    }
}

fn value_after_key<'a>(hay: &'a [u8], key: &[u8]) -> (r: Option<&'a [u8]>)
    requires
        key@.len() > 0,
    ensures
        match r {
            Some(t) => value_of(hay@, key@) == Some(t@),
            None => value_of(hay@, key@) is None,
        },
{
    let Some(at) = find(hay, key) else {
        return None;
    };
    let size: usize = hay.len();
    assert(hay@.subrange(at + key@.len(), hay@.len() as int) =~= hay@.skip(at + key@.len()));
    let rest: &'a [u8] = skip_ws(slice_subrange(hay, at + key.len(), hay.len()));
    match skip_char(rest, 58) {
        Some(t) => Some(skip_ws(t)),
        None => None,
    }
}

pub open spec fn is_digit(b: u8) -> bool {
    48 <= b <= 57
}

/// How many digits `s` begins with.
pub open spec fn digit_run(s: Seq<u8>) -> nat
    decreases s.len(),
{
    if s.len() > 0 && is_digit(s[0]) {
        1 + digit_run(s.skip(1))
    } else {
        0
    }
}

/// The number that a row of digits writes.
pub open spec fn digits_value(s: Seq<u8>) -> nat
    decreases s.len(),
{
    if s.len() == 0 {
        0
    } else {
        (digits_value(s.drop_last()) * 10 + (s.last() - 48)) as nat
    }
}

/// The whole number at the front of `s`. A number that ends where `s` ends counts only when
/// nothing more is to come (`eof`), and one with a fraction does not count.
pub open spec fn i64_spec(s: Seq<u8>, eof: bool) -> Option<int> {
    let neg = s.len() > 0 && s[0] == 45;
    let d = if neg {
        s.skip(1)
    } else {
        s
    };
    let n = digit_run(d);
    if n == 0 || (n == d.len() && !eof) || (n < d.len() && d[n as int] == 46) || digits_value(
        d.take(n as int),
    ) > i64::MAX {
        None
    } else if neg {
        Some(-(digits_value(d.take(n as int)) as int))
    } else {
        Some(digits_value(d.take(n as int)) as int)
    }
}

proof fn lemma_digit_run(s: Seq<u8>, n: nat)
    requires
        n <= s.len(),
        forall|i: int| 0 <= i < n ==> is_digit(#[trigger] s[i]),
        n < s.len() ==> !is_digit(s[n as int]),
    ensures
        digit_run(s) == n,
    decreases n,
{
    if n > 0 {
        assert forall|i: int| 0 <= i < n - 1 implies is_digit(#[trigger] s.skip(1)[i]) by {
            assert(s.skip(1)[i] == s[i + 1]);
        }
        assert(is_digit(s[0]));
        lemma_digit_run(s.skip(1), (n - 1) as nat);
    }
}

/// The whole number at the front of `s`.
pub fn parse_i64(s: &[u8], eof: bool) -> (r: Option<i64>)
    ensures
        match r {
            Some(v) => i64_spec(s@, eof) == Some(v as int),
            None => i64_spec(s@, eof) is None,
        },
{
    let neg: bool = s.len() > 0 && s[0] == 45;
    let start: usize = if neg {
        1
    } else {
        0
    };
    let ghost d = s@.skip(start as int);
    assert(!neg ==> d =~= s@);
    let mut i: usize = start;
    let mut v: u64 = 0;
    let mut over: bool = false;
    while i < s.len() && 48 <= s[i] && s[i] <= 57
        invariant
            start <= i <= s@.len(),
            d == s@.skip(start as int),
            forall|j: int| 0 <= j < i - start ==> is_digit(#[trigger] d[j]),
            over == (digits_value(d.take(i - start)) > i64::MAX),
            !over ==> v == digits_value(d.take(i - start)),
            v <= i64::MAX,
        decreases s@.len() - i,
    {
        let ghost next = d.take(i - start + 1);
        assert(next.drop_last() =~= d.take(i - start));
        assert(next.last() == s@[i as int]);
        assert(d[i - start] == s@[i as int]);
        let wide: u128 = v as u128 * 10 + (s[i] - 48) as u128;
        if over || wide > i64::MAX as u128 {
            over = true;
        } else {
            v = wide as u64;
        }
        i = i + 1;
    }
    proof {
        lemma_digit_run(d, (i - start) as nat);
        if i < s@.len() {
            assert(d[i - start] == s@[i as int]);
        }
    }
    if i == start {
        return None;
    }
    if i == s.len() && !eof {
        return None;
    }
    if i < s.len() && s[i] == 46 {
        return None;
    }
    if over {
        return None;
    }
    if neg {
        Some(0 - v as i64)
    } else {
        Some(v as i64)
    }
}

/// The whole number behind the first `key` in `hay`.
pub open spec fn i64_after_key_spec(hay: Seq<u8>, key: Seq<u8>, eof: bool) -> Option<int> {
    match value_of(hay, key) {
        Some(v) => i64_spec(v, eof),
        None => None,
    }
}

/// The whole number behind the first `key` in `hay`.
pub fn json_i64_after_key(hay: &[u8], key: &[u8], eof: bool) -> (r: Option<i64>)
    requires
        key@.len() > 0,
    ensures
        match r {
            Some(v) => i64_after_key_spec(hay@, key@, eof) == Some(v as int),
            None => i64_after_key_spec(hay@, key@, eof) is None,
        },
{
    match value_after_key(hay, key) {
        Some(v) => parse_i64(v, eof),
        None => None,
    }
}

/// How many bytes the character that begins with `b` is taken to have.
pub open spec fn utf8_width_spec(b: u8) -> nat {
    if b < 0x80 {
        1
    } else if b < 0xe0 {
        2
    } else if b < 0xf0 {
        3
    } else {
        4
    }
}

/// How many bytes the character that begins with `b` is taken to have.
pub fn utf8_width(b: u8) -> (w: usize)
    ensures
        w == utf8_width_spec(b),
{
    if b < 0x80 {
        1
    } else if b < 0xe0 {
        2
    } else if b < 0xf0 {
        3
    } else {
        4
    }
}

/// What a backslash and `b` stand for.
pub open spec fn unescaped(b: u8) -> char {
    if b == 110 {
        '\n'
    } else if b == 114 {
        '\r'
    } else if b == 116 {
        '\t'
    } else {
        b as char
    }
}

/// The characters that `bytes` encode; none when they are ill-formed.
pub open spec fn decoded_or_dropped(bytes: Seq<u8>) -> Seq<char> {
    if valid_utf8(bytes) {
        decode_utf8(bytes)
    } else {
        Seq::empty()
    }
}

pub open spec fn joined(a: Seq<char>, b: Option<Seq<char>>) -> Option<Seq<char>> {
    match b {
        Some(t) => Some(a + t),
        None => None,
    }
}

/// The text from `i` on, up to the closing quote. Where the quote is missing, a text that was cut
/// off counts only when nothing more is to come (`eof`).
pub open spec fn quoted_from(s: Seq<u8>, i: nat, eof: bool) -> Option<Seq<char>>
    decreases s.len() - i,
{
    let cut = if eof {
        Some(Seq::<char>::empty())
    } else {
        None
    };
    if i >= s.len() {
        cut
    } else if s[i as int] == 34 {
        Some(Seq::empty())
    } else if s[i as int] == 92 && i + 1 < s.len() {
        joined(seq![unescaped(s[(i + 1) as int])], quoted_from(s, i + 2, eof))
    } else if s[i as int] == 92 && !eof {
        None
    } else if s[i as int] < 0x80 {
        joined(seq![s[i as int] as char], quoted_from(s, i + 1, eof))
    } else {
        let end = i + utf8_width_spec(s[i as int]);
        if end > s.len() {
            cut
        } else {
            joined(
                decoded_or_dropped(s.subrange(i as int, end as int)),
                quoted_from(s, end, eof),
            )
        }
    }
}

/// The text of the JSON string that `s` begins with.
pub open spec fn quoted_spec(s: Seq<u8>, eof: bool) -> Option<Seq<char>> {
    if s.len() > 0 && s[0] == 34 {
        quoted_from(s, 1, eof)
    } else {
        None
    }
}

/// An optional text by its characters.
pub open spec fn text_of(s: Option<String>) -> Option<Seq<char>> {
    match s {
        Some(t) => Some(t@),
        None => None,
    }
}

/// The text of the JSON string that `s` begins with.
pub fn json_quoted(s: &[u8], eof: bool) -> (r: Option<String>)
    ensures
        text_of(r) == quoted_spec(s@, eof),
{
    if s.len() == 0 || s[0] != 34 {
        return None;
    }
    let size: usize = s.len();
    let mut out: String = String::new();
    let mut i: usize = 1;
    assert(joined(out@, quoted_from(s@, 1, eof)) =~~= quoted_from(s@, 1, eof));
    while i < s.len()
        invariant
            i <= s@.len(),
            size == s@.len(),
            quoted_spec(s@, eof) == joined(out@, quoted_from(s@, i as nat, eof)),
        decreases s@.len() - i,
    {
        let c: u8 = s[i];
        let ghost before = out@;
        if c == 34 {
            assert(before + Seq::<char>::empty() =~= before);
            return Some(out);
        } else if c == 92 && i < size - 1 {
            let e: u8 = s[i + 1];
            if e == 110 {
                out.push('\n');
            } else if e == 114 {
                out.push('\r');
            } else if e == 116 {
                out.push('\t');
            } else {
                out.push(e as char);
            }
            proof {
                lemma_joined(before, seq![unescaped(e)], quoted_from(s@, (i + 2) as nat, eof));
                assert(out@ =~= before + seq![unescaped(e)]);
            }
            i = i + 2;
        } else if c == 92 && !eof {
            return None;
        } else if c < 0x80 {
            out.push(c as char);
            proof {
                lemma_joined(before, seq![c as char], quoted_from(s@, (i + 1) as nat, eof));
                assert(out@ =~= before + seq![c as char]);
            }
            i = i + 1;
        } else {
            let w: usize = utf8_width(c);
            if w > size - i {
                assert(before + Seq::<char>::empty() =~= before);
                return if eof {
                    Some(out)
                } else {
                    None
                };
            }
            let group: &[u8] = slice_subrange(s, i, i + w);
            proof {
                lemma_joined(
                    before,
                    decoded_or_dropped(group@),
                    quoted_from(s@, (i + w) as nat, eof),
                );
                assert(before + Seq::<char>::empty() =~= before);
            }
            if let Some(t) = from_utf8(group) {
                out.append(t.as_str());
            }
            i = i + w;
        }
    }
    assert(out@ + Seq::<char>::empty() =~= out@);
    if eof {
        Some(out)
    } else {
        None
    }
}

proof fn lemma_joined(a: Seq<char>, b: Seq<char>, c: Option<Seq<char>>)
    ensures
        joined(a, joined(b, c)) == joined(a + b, c),
{
    if let Some(t) = c {
        assert(a + (b + t) =~= a + b + t);
    }
}

/// A character as it stands in a JSON string.
pub open spec fn escaped_char(c: char) -> Seq<u8> {
    if c == '\\' {
        seq![92u8, 92u8]
    } else if c == '"' {
        seq![92u8, 34u8]
    } else if c == '\n' {
        seq![92u8, 110u8]
    } else if c == '\r' {
        seq![92u8, 114u8]
    } else if c == '\t' {
        seq![92u8, 116u8]
    } else {
        encode_utf8(seq![c])
    }
}

/// A text as it stands in a JSON string.
pub open spec fn escaped(t: Seq<char>) -> Seq<u8>
    decreases t.len(),
{
    if t.len() == 0 {
        Seq::empty()
    } else {
        escaped_char(t[0]) + escaped(t.skip(1))
    }
}

/// A JSON string.
pub open spec fn json_string(t: Seq<char>) -> Seq<u8> {
    seq![34u8] + escaped(t) + seq![34u8]
}

proof fn lemma_char_bytes(c: char)
    ensures
        ({
            let e = encode_utf8(seq![c]);
            &&& e.len() > 0
            &&& (c as u32) < 0x80 ==> e == seq![c as u8]
            &&& (c as u32) >= 0x80 ==> e[0] >= 0x80 && e.len() == utf8_width_spec(e[0])
                && decoded_or_dropped(e) == seq![c]
        }),
{
    let one = seq![c];
    let e = encode_utf8(one);
    let rest = encode_utf8(one.drop_first());
    assert(one.drop_first() =~= Seq::empty());
    assert(rest =~= Seq::empty());
    assert(e =~= encode_scalar(c as u32));
    encode_utf8_first_scalar(one);
    encode_utf8_valid_utf8(one);
    encode_utf8_decode_utf8(one);
    let b = e[0];
    if (c as u32) < 0x80 {
        assert(b & 0x7f == b) by (bit_vector)
            requires
                b <= 0x7f,
        ;
        assert(e =~= seq![c as u8]);
    }
}

/// A character stands in a JSON string as an escape, as one byte or as a group of bytes.
proof fn lemma_escaped_shape(c: char)
    ensures
        ({
            let e = escaped_char(c);
            ||| e.len() == 2 && e[0] == 92 && unescaped(e[1]) == c
            ||| e.len() == 1 && e[0] < 0x80 && e[0] != 34 && e[0] != 92 && e[0] as char == c
            ||| e.len() == utf8_width_spec(e[0]) && e[0] >= 0x80 && decoded_or_dropped(e) == seq![c]
        }),
{
    lemma_char_bytes(c);
    let e = escaped_char(c);
    if c == '\\' {
        assert(unescaped(e[1]) == c);
    } else if c == '"' {
        assert(unescaped(e[1]) == c);
    } else if c != '\n' && c != '\r' && c != '\t' && (c as u32) < 0x80 {
        assert(e[0] == c as u8);
        assert(e[0] as char == c);
    }
}

proof fn lemma_escaped_is_read(pre: Seq<u8>, t: Seq<char>, rest: Seq<u8>, eof: bool)
    ensures
        quoted_from(pre + escaped(t) + seq![34u8] + rest, pre.len(), eof) == Some(t),
    decreases t.len(),
{
    let s = pre + escaped(t) + seq![34u8] + rest;
    let i = pre.len();
    if t.len() == 0 {
        assert(s[i as int] == 34);
        assert(t =~= Seq::empty());
    } else {
        let c = t[0];
        let e = escaped_char(c);
        let more = t.skip(1);
        lemma_escaped_shape(c);
        lemma_escaped_is_read(pre + e, more, rest, eof);
        assert(s =~= (pre + e) + escaped(more) + seq![34u8] + rest);
        assert(s[i as int] == e[0]);
        assert(e.len() > 1 ==> s[i + 1int] == e[1]);
        assert(seq![c] + more =~= t);
        let next = quoted_from(s, i + e.len(), eof);
        assert(next == Some(more));
        if e[0] == 92 {
            assert(quoted_from(s, i, eof) == joined(seq![c], next));
        } else if e[0] < 0x80 {
            assert(quoted_from(s, i, eof) == joined(seq![c], next));
        } else {
            assert(s.subrange(i as int, (i + e.len()) as int) =~= e);
            assert(quoted_from(s, i, eof) == joined(seq![c], next));
        }
    }
}

/// A JSON string is read back, whatever stands behind it and whether or not more is to come.
pub proof fn json_string_reads_back(t: Seq<char>, rest: Seq<u8>, eof: bool)
    ensures
        quoted_spec(json_string(t) + rest, eof) == Some(t),
{
    lemma_escaped_is_read(seq![34u8], t, rest, eof);
}

proof fn lemma_cut_text_waits(pre: Seq<u8>, t: Seq<char>, k: nat)
    requires
        pre.len() <= k <= pre.len() + escaped(t).len(),
    ensures
        quoted_from((pre + escaped(t)).take(k as int), pre.len(), false) is None,
    decreases t.len(),
{
    let p = (pre + escaped(t)).take(k as int);
    let i = pre.len();
    if k > i {
        let c = t[0];
        let e = escaped_char(c);
        let more = t.skip(1);
        lemma_escaped_shape(c);
        assert(p[i as int] == e[0]);
        if k >= i + e.len() {
            lemma_cut_text_waits(pre + e, more, k);
            assert(p =~= (pre + e + escaped(more)).take(k as int));
            assert(e.len() > 1 ==> p[i + 1int] == e[1]);
        }
    }
}

/// A JSON string that breaks off before its closing quote is waited for.
pub proof fn open_json_string_waits(t: Seq<char>, rest: Seq<u8>, k: nat)
    requires
        k < json_string(t).len(),
    ensures
        quoted_spec((json_string(t) + rest).take(k as int), false) is None,
{
    if k > 0 {
        lemma_cut_text_waits(seq![34u8], t, k);
        assert((json_string(t) + rest).take(k as int) =~= (seq![34u8] + escaped(t)).take(k as int));
    }
}

proof fn lemma_text_ends(s: Seq<u8>, i: nat)
    ensures
        quoted_from(s, i, true) is Some,
    decreases s.len() - i,
{
    if i < s.len() && s[i as int] != 34 {
        if s[i as int] == 92 && i + 1 < s.len() {
            lemma_text_ends(s, i + 2);
        } else if s[i as int] < 0x80 {
            lemma_text_ends(s, i + 1);
        } else if i + utf8_width_spec(s[i as int]) <= s.len() {
            lemma_text_ends(s, i + utf8_width_spec(s[i as int]));
        }
    }
}

/// When nothing more is to come, there is a text exactly where there is an opening quote.
pub proof fn ended_text_is_given(s: Seq<u8>)
    ensures
        quoted_spec(s, true) is Some <==> s.len() > 0 && s[0] == 34,
{
    lemma_text_ends(s, 1);
}

/// The text of the JSON string behind the first `key` in `hay`.
pub open spec fn quoted_after_key_spec(hay: Seq<u8>, key: Seq<u8>, eof: bool) -> Option<Seq<char>> {
    match value_of(hay, key) {
        Some(v) => quoted_spec(v, eof),
        None => None,
    }
}

/// The text of the JSON string behind the first `key` in `hay`.
pub fn json_quoted_after_key(hay: &[u8], key: &[u8], eof: bool) -> (r: Option<String>)
    requires
        key@.len() > 0,
    ensures
        text_of(r) == quoted_after_key_spec(hay@, key@, eof),
{
    match value_after_key(hay, key) {
        Some(v) => json_quoted(v, eof),
        None => None,
    }
}

/// `s` from `i` on without colour codes (a section sign and the character behind it), line breaks
/// turned into spaces.
pub open spec fn plain_from(s: Seq<char>, i: nat) -> Seq<char>
    decreases s.len() - i,
{
    if i >= s.len() {
        Seq::empty()
    } else if s[i as int] == '\u{a7}' {
        if i + 2 >= s.len() {
            Seq::empty()
        } else {
            plain_from(s, i + 2)
        }
    } else if s[i as int] == '\n' || s[i as int] == '\r' {
        seq![' '] + plain_from(s, i + 1)
    } else {
        seq![s[i as int]] + plain_from(s, i + 1)
    }
}

/// `s` without colour codes, line breaks turned into spaces.
pub fn strip_section(s: &str) -> (out: String)
    ensures
        out@ == plain_from(s@, 0),
{
    let chars: Vec<char> = to_chars(s);
    let size: usize = chars.len();
    let mut out: String = String::new();
    let mut i: usize = 0;
    assert(out@ + plain_from(s@, 0) =~= plain_from(s@, 0));
    while i < size
        invariant
            chars@ == s@,
            size == s@.len(),
            i <= size,
            out@ + plain_from(s@, i as nat) == plain_from(s@, 0),
        decreases size - i,
    {
        let c: char = chars[i];
        let ghost before = out@;
        if c == '\u{a7}' {
            i = if size - i > 2 {
                i + 2
            } else {
                size
            };
        } else {
            let d: char = if c == '\n' || c == '\r' {
                ' '
            } else {
                c
            };
            out.push(d);
            i = i + 1;
            assert(before + (seq![d] + plain_from(s@, i as nat)) =~= out@ + plain_from(s@, i as nat));
        }
    }
    assert(out@ + Seq::<char>::empty() =~= out@);
    out
}

/// The first `max` characters of `s`.
pub open spec fn truncate_spec(s: Seq<char>, max: nat) -> Seq<char> {
    if s.len() > max {
        s.take(max as int)
    } else {
        s
    }
}

/// The first `max_chars` characters of `s`.
pub fn truncate(s: &[char], max_chars: usize) -> (r: String)
    ensures
        r@ == truncate_spec(s@, max_chars as nat),
{
    if s.len() > max_chars {
        assert(s@.subrange(0, max_chars as int) =~= s@.take(max_chars as int));
        from_chars(slice_subrange(s, 0, max_chars))
    } else {
        from_chars(s)
    }
}

proof fn lemma_encode_nonempty(s: Seq<char>)
    requires
        s.len() > 0,
    ensures
        encode_utf8(s).len() > 0,
{
}

/// The version's name: the text behind the first "name" after the first "version".
pub open spec fn version_spec(json: Seq<u8>) -> Option<Seq<char>> {
    match find_spec(json, encode_utf8("\"version\""@)) {
        Some(at) => quoted_after_key_spec(json.skip(at as int), encode_utf8("\"name\""@), true),
        None => None,
    }
}

/// The version's name.
pub fn extract_version(json: &[u8]) -> (r: Option<String>)
    ensures
        text_of(r) == version_spec(json@),
{
    proof {
        reveal_strlit("\"version\"");
        reveal_strlit("\"name\"");
        lemma_encode_nonempty("\"version\""@);
        lemma_encode_nonempty("\"name\""@);
    }
    let Some(at) = find(json, "\"version\"".as_bytes()) else {
        return None;
    };
    assert(json@.subrange(at as int, json@.len() as int) =~= json@.skip(at as int));
    json_quoted_after_key(slice_subrange(json, at, json.len()), "\"name\"".as_bytes(), true)
}

/// The description as it stands: a text, or the "text" of an object.
pub open spec fn raw_motd(json: Seq<u8>) -> Option<Seq<char>> {
    match value_of(json, encode_utf8("\"description\""@)) {
        Some(v) => if v.len() > 0 && v[0] == 34 {
            quoted_spec(v, true)
        } else if v.len() > 0 && v[0] == 123 {
            match quoted_after_key_spec(v, encode_utf8("\"text\""@), true) {
                Some(t) => Some(t),
                None => Some(Seq::empty()),
            }
        } else {
            None
        },
        None => None,
    }
}

/// The message of the day: the description in plain text, at most 80 characters of it, when
/// anything is left.
pub open spec fn motd_spec(json: Seq<u8>) -> Option<Seq<char>> {
    match raw_motd(json) {
        Some(raw) => {
            let plain = trim_spec(plain_from(raw, 0));
            if plain.len() == 0 {
                None
            } else {
                Some(truncate_spec(plain, 80))
            }
        },
        None => None,
    }
}

/// The message of the day.
pub fn extract_motd(json: &[u8]) -> (r: Option<String>)
    ensures
        text_of(r) == motd_spec(json@),
{
    proof {
        reveal_strlit("\"description\"");
        reveal_strlit("\"text\"");
        lemma_encode_nonempty("\"description\""@);
        lemma_encode_nonempty("\"text\""@);
    }
    let Some(rest) = value_after_key(json, "\"description\"".as_bytes()) else {
        return None;
    };
    let raw: String = if rest.len() > 0 && rest[0] == 34 {
        match json_quoted(rest, true) {
            Some(t) => t,
            None => return None,
        }
    } else if rest.len() > 0 && rest[0] == 123 {
        match json_quoted_after_key(rest, "\"text\"".as_bytes(), true) {
            Some(t) => t,
            None => {
                let empty: String = String::new();
                assert(empty@ =~= Seq::empty());
                empty
            },
        }
    } else {
        return None;
    };
    let cleaned: String = strip_section(raw.as_str());
    let chars: Vec<char> = to_chars(cleaned.as_str());
    let trimmed: &[char] = trim(chars.as_slice());
    if trimmed.len() == 0 {
        None
    } else {
        Some(truncate(trimmed, 80))
    }
}

/// What a server says of itself.
#[derive(Debug, PartialEq, Eq)]
pub struct Status {
    pub online: i32,
    pub max: i32,
    pub version: Option<String>,
    pub motd: Option<String>,
}

/// A status with its texts as characters.
pub struct StatusView {
    pub online: i32,
    pub max: i32,
    pub version: Option<Seq<char>>,
    pub motd: Option<Seq<char>>,
}

impl View for Status {
    type V = StatusView;

    open spec fn view(&self) -> StatusView {
        StatusView {
            online: self.online,
            max: self.max,
            version: text_of(self.version),
            motd: text_of(self.motd),
        }
    }
}

impl Clone for Status {
    fn clone(&self) -> (r: Self)
        ensures
            r == *self,
    {
        Status {
            online: self.online,
            max: self.max,
            version: self.version.clone(),
            motd: self.motd.clone(),
        }
    }
}

/// The status that a reply holds. Both numbers stand behind "players", and the number of players
/// online is what makes a status; with `eof` nothing more is to come.
pub open spec fn status_spec(buf: Seq<u8>, eof: bool) -> Option<StatusView> {
    match find_spec(buf, seq![123u8]) {
        Some(start) => {
            let json = buf.skip(start as int);
            match find_spec(json, encode_utf8("\"players\""@)) {
                Some(at) => {
                    let players = json.skip(at as int);
                    match i64_after_key_spec(players, encode_utf8("\"online\""@), eof) {
                        Some(online) => Some(
                            StatusView {
                                online: online as i32,
                                max: match i64_after_key_spec(
                                    players,
                                    encode_utf8("\"max\""@),
                                    true,
                                ) {
                                    Some(max) => max as i32,
                                    None => 0,
                                },
                                version: version_spec(json),
                                motd: motd_spec(json),
                            },
                        ),
                        None => None,
                    }
                },
                None => None,
            }
        },
        None => None,
    }
}

/// An optional status by its view.
pub open spec fn status_view(s: Option<Status>) -> Option<StatusView> {
    match s {
        Some(st) => Some(st@),
        None => None,
    }
}

/// The status that a reply holds, as soon as the number of players online is known.
pub fn extract_status(buf: &[u8], eof: bool) -> (r: Option<Status>)
    ensures
        status_view(r) == status_spec(buf@, eof),
{
    proof {
        reveal_strlit("\"players\"");
        reveal_strlit("\"online\"");
        reveal_strlit("\"max\"");
        lemma_encode_nonempty("\"players\""@);
        lemma_encode_nonempty("\"online\""@);
        lemma_encode_nonempty("\"max\""@);
    }
    let brace: [u8; 1] = [123];
    assert(brace@ =~= seq![123u8]);
    let Some(json_at) = find(buf, &brace) else {
        return None;
    };
    assert(buf@.subrange(json_at as int, buf@.len() as int) =~= buf@.skip(json_at as int));
    let json: &[u8] = slice_subrange(buf, json_at, buf.len());
    let Some(players_at) = find(json, "\"players\"".as_bytes()) else {
        return None;
    };
    assert(json@.subrange(players_at as int, json@.len() as int) =~= json@.skip(players_at as int));
    let players: &[u8] = slice_subrange(json, players_at, json.len());
    let Some(online) = json_i64_after_key(players, "\"online\"".as_bytes(), eof) else {
        return None;
    };
    let max: i32 = match json_i64_after_key(players, "\"max\"".as_bytes(), true) {
        Some(max) => max as i32,
        None => 0,
    };
    let version: Option<String> = extract_version(json);
    let motd: Option<String> = extract_motd(json);
    Some(Status { online: online as i32, max, version, motd })
}

/// What is found in a text is found at the same place when more text comes behind it.
pub proof fn lemma_find_extends(hay: Seq<u8>, more: Seq<u8>, needle: Seq<u8>, i: nat)
    requires
        find_from(hay, needle, i) is Some,
    ensures
        find_from(hay + more, needle, i) == find_from(hay, needle, i),
        find_from(hay, needle, i)->0 + needle.len() <= hay.len(),
    decreases hay.len() - i,
{
    let end = i + needle.len() as int;
    assert((hay + more).subrange(i as int, end) =~= hay.subrange(i as int, end));
    if !stands_at(hay, needle, i as int) {
        lemma_find_extends(hay, more, needle, i + 1);
    }
}

proof fn lemma_skip_ws_extends(s: Seq<u8>, more: Seq<u8>)
    requires
        skip_ws_spec(s).len() > 0,
    ensures
        skip_ws_spec(s + more) == skip_ws_spec(s) + more,
    decreases s.len(),
{
    if is_space(s[0]) {
        assert((s + more).skip(1) =~= s.skip(1) + more);
        lemma_skip_ws_extends(s.skip(1), more);
    }
}

proof fn lemma_value_extends(hay: Seq<u8>, more: Seq<u8>, key: Seq<u8>)
    requires
        value_of(hay, key) is Some,
        value_of(hay, key)->0.len() > 0,
    ensures
        value_of(hay + more, key) == Some(value_of(hay, key)->0 + more),
{
    lemma_find_extends(hay, more, key, 0);
    let at = find_spec(hay, key)->0 + key.len();
    let rest = hay.skip(at as int);
    assert((hay + more).skip(at as int) =~= rest + more);
    lemma_skip_ws_extends(rest, more);
    let colon = skip_ws_spec(rest);
    assert((colon + more).skip(1) =~= colon.skip(1) + more);
    lemma_skip_ws_extends(colon.skip(1), more);
}

proof fn lemma_digit_run_extends(s: Seq<u8>, more: Seq<u8>)
    ensures
        digit_run(s) <= s.len(),
        digit_run(s) < s.len() ==> digit_run(s + more) == digit_run(s),
    decreases s.len(),
{
    if s.len() > 0 && is_digit(s[0]) {
        assert((s + more).skip(1) =~= s.skip(1) + more);
        lemma_digit_run_extends(s.skip(1), more);
    }
}

proof fn lemma_i64_extends(s: Seq<u8>, more: Seq<u8>, eof: bool)
    requires
        i64_spec(s, false) is Some,
    ensures
        i64_spec(s + more, eof) == i64_spec(s, false),
        s.len() > 0,
{
    let neg = s.len() > 0 && s[0] == 45;
    let d = if neg {
        s.skip(1)
    } else {
        s
    };
    lemma_digit_run_extends(d, more);
    assert((s + more).skip(1) =~= s.skip(1) + more);
    assert((d + more).take(digit_run(d) as int) =~= d.take(digit_run(d) as int));
}

/// A number of players that is reported before the reply has ended is final: whatever comes
/// after, and whether or not the reply ends there, the same number is found.
pub proof fn early_online_is_final(buf: Seq<u8>, more: Seq<u8>, eof: bool)
    requires
        status_spec(buf, false) is Some,
    ensures
        status_spec(buf + more, eof) is Some,
        status_spec(buf + more, eof)->0.online == status_spec(buf, false)->0.online,
{
    let brace = seq![123u8];
    lemma_find_extends(buf, more, brace, 0);
    let start = find_spec(buf, brace)->0;
    let json = buf.skip(start as int);
    assert((buf + more).skip(start as int) =~= json + more);
    let key = encode_utf8("\"players\""@);
    lemma_find_extends(json, more, key, 0);
    let at = find_spec(json, key)->0;
    let players = json.skip(at as int);
    assert((json + more).skip(at as int) =~= players + more);
    let online = encode_utf8("\"online\""@);
    lemma_i64_extends(value_of(players, online)->0, more, eof);
    lemma_value_extends(players, more, online);
}

/// What is found before the end of the reply is what is found when the reply ends there.
pub proof fn end_changes_nothing_found(buf: Seq<u8>)
    requires
        status_spec(buf, false) is Some,
    ensures
        status_spec(buf, true) == status_spec(buf, false),
{
    early_online_is_final(buf, Seq::empty(), true);
    assert(buf + Seq::<u8>::empty() =~= buf);
}

/// What a probe does after a read.
#[derive(Debug, PartialEq, Eq)]
pub enum ProbeStep {
    /// Read on.
    More,
    /// Close the connection; this is the answer.
    Done(Option<Status>),
}

impl View for ProbeStep {
    type V = Option<Option<StatusView>>;

    open spec fn view(&self) -> Option<Option<StatusView>> {
        match *self {
            ProbeStep::More => None,
            ProbeStep::Done(st) => Some(status_view(st)),
        }
    }
}

/// The answer, if there is one, after `chunk` was read behind `buf`; an empty read is the end of
/// the reply.
pub open spec fn probe_answer(buf: Seq<u8>, chunk: Seq<u8>) -> Option<Option<StatusView>> {
    let all = buf + chunk;
    if chunk.len() == 0 {
        Some(status_spec(buf, true))
    } else if status_spec(all, false) is Some {
        Some(status_spec(all, false))
    } else if all.len() >= MAX_STATUS {
        Some(status_spec(all, true))
    } else {
        None
    }
}

/// The answer that reads behind `buf` bring, each handed over in turn until one brings it.
pub open spec fn probe_run(buf: Seq<u8>, reads: Seq<Seq<u8>>) -> Option<Option<StatusView>>
    decreases reads.len(),
{
    if reads.len() == 0 {
        None
    } else {
        match probe_answer(buf, reads[0]) {
            Some(answer) => Some(answer),
            None => probe_run(buf + reads[0], reads.drop_first()),
        }
    }
}

/// The reads of a reply that ends: what each of them brought, and an empty one.
pub open spec fn whole_reply(chunks: Seq<Seq<u8>>) -> Seq<Seq<u8>> {
    chunks.push(Seq::empty())
}

proof fn lemma_probe_run(buf: Seq<u8>, chunks: Seq<Seq<u8>>)
    requires
        forall|i: int| 0 <= i < chunks.len() ==> (#[trigger] chunks[i]).len() > 0,
        (buf + chunks.flatten()).len() < MAX_STATUS,
    ensures
        probe_run(buf, whole_reply(chunks)) is Some,
        probe_run(buf, whole_reply(chunks))->0 is Some <==> status_spec(buf + chunks.flatten(), true) is Some,
        probe_run(buf, whole_reply(chunks))->0 is Some ==> probe_run(buf, whole_reply(chunks))->0->0.online
            == status_spec(buf + chunks.flatten(), true)->0.online,
    decreases chunks.len(),
{
    let reads = whole_reply(chunks);
    if chunks.len() == 0 {
        assert(buf + chunks.flatten() =~= buf);
    } else {
        let rest = chunks.drop_first();
        let all = buf + chunks[0];
        assert(reads.drop_first() =~= whole_reply(rest));
        assert(buf + chunks.flatten() =~= all + rest.flatten());
        if status_spec(all, false) is Some {
            early_online_is_final(all, rest.flatten(), true);
        } else {
            lemma_probe_run(all, rest);
        }
    }
}

/// However a reply that ends below the limit is cut into reads, a probe comes to an answer; it
/// gives a status exactly when the whole reply holds one, and the number of players online in it
/// is that of the whole reply.
pub proof fn cuts_keep_the_players(chunks: Seq<Seq<u8>>)
    requires
        forall|i: int| 0 <= i < chunks.len() ==> (#[trigger] chunks[i]).len() > 0,
        chunks.flatten().len() < MAX_STATUS,
    ensures
        probe_run(Seq::empty(), whole_reply(chunks)) is Some,
        probe_run(Seq::empty(), whole_reply(chunks))->0 is Some <==> status_spec(chunks.flatten(), true) is Some,
        probe_run(Seq::empty(), whole_reply(chunks))->0 is Some ==> probe_run(
            Seq::empty(),
            whole_reply(chunks),
        )->0->0.online == status_spec(chunks.flatten(), true)->0.online,
{
    assert(Seq::empty() + chunks.flatten() =~= chunks.flatten());
    lemma_probe_run(Seq::empty(), chunks);
}

/// A probe that waits for a server's reply.
pub struct Probe {
    pub buf: Vec<u8>,
}

impl Probe {
    pub fn new() -> (p: Self)
        ensures
            p.buf@ == Seq::<u8>::empty(),
    {
        Probe { buf: Vec::new() }
    }

    /// Takes what a read brought.
    pub fn on_chunk(&mut self, chunk: &[u8]) -> (r: ProbeStep)
        ensures
            final(self).buf@ == old(self).buf@ + chunk@,
            r@ == probe_answer(old(self).buf@, chunk@),
            r is More ==> final(self).buf@.len() < MAX_STATUS,
    {
        if chunk.len() == 0 {
            assert(self.buf@ + chunk@ =~= self.buf@);
            return ProbeStep::Done(extract_status(self.buf.as_slice(), true));
        }
        self.buf.extend_from_slice(chunk);
        assert(self.buf@ =~= old(self).buf@ + chunk@);
        if let Some(st) = extract_status(self.buf.as_slice(), false) {
            return ProbeStep::Done(Some(st));
        }
        if self.buf.len() >= MAX_STATUS {
            return ProbeStep::Done(extract_status(self.buf.as_slice(), true));
        }
        ProbeStep::More
    }
}

} // verus!
