//! Stateless TCP SYN scanning: packets out, replies in, and what to do next.

use std::collections::HashSet;

use vstd::prelude::*;

use crate::ip::{count, covers, scan_visits_each_address_once, step_spec, AddrSpace, Window};
use crate::modular::{gcd_spec, lemma_unit_multiplication};

verus! {

pub const DEFAULT_SRC_PORT: u16 = 41234;

/// One address and port.
#[derive(Clone, Copy, Debug, PartialEq, Eq, Structural)]
pub struct Target {
    pub ip: u32,
    pub port: u16,
}

/// A sequence number that only the holder of `secret` can tell for a target.
pub open spec fn cookie_spec(dst_ip: u32, dst_port: u16, secret: u32) -> u32 {
    let x = (dst_ip ^ secret ^ ((dst_port as u32) << 16u32)).wrapping_mul(0x9E3779B1);
    (x ^ (x >> 16u32)).wrapping_mul(0x85EBCA77)
}

pub fn cookie(dst_ip: u32, dst_port: u16, secret: u32) -> (r: u32)
    ensures
        r == cookie_spec(dst_ip, dst_port, secret),
{
    let mut x: u32 = dst_ip ^ secret ^ ((dst_port as u32) << 16u32);
    x = x.wrapping_mul(0x9E3779B1);
    x = x ^ (x >> 16u32);
    x.wrapping_mul(0x85EBCA77)
}

proof fn lemma_mix_is_injective(a: u32, b: u32)
    requires
        ({
            let x = a.wrapping_mul(0x9E3779B1);
            let y = b.wrapping_mul(0x9E3779B1);
            (x ^ (x >> 16u32)).wrapping_mul(0x85EBCA77) == (y ^ (y >> 16u32)).wrapping_mul(0x85EBCA77)
        }),
    ensures
        a == b,
{
    let x = a.wrapping_mul(0x9E3779B1);
    let y = b.wrapping_mul(0x9E3779B1);
    let (u, v) = (x ^ (x >> 16u32), y ^ (y >> 16u32));
    lemma_unit_multiplication(u as nat, v as nat, 0x85EBCA77, 0xb6c92f47, 0x1_0000_0000);
    assert(x == y) by (bit_vector)
        requires
            x ^ (x >> 16u32) == y ^ (y >> 16u32),
    ;
    lemma_unit_multiplication(a as nat, b as nat, 0x9E3779B1, 0xe8b2f51, 0x1_0000_0000);
}

/// With any two of address, port and secret fixed, a cookie tells the third.
pub proof fn cookie_is_injective(a: u32, b: u32, p: u16, q: u16, s: u32, r: u32)
    ensures
        cookie_spec(a, p, s) == cookie_spec(b, p, s) <==> a == b,
        cookie_spec(a, p, s) == cookie_spec(a, q, s) <==> p == q,
        cookie_spec(a, p, s) == cookie_spec(a, p, r) <==> s == r,
{
    let (i, j) = (p as u32, q as u32);
    if cookie_spec(a, p, s) == cookie_spec(b, p, s) {
        lemma_mix_is_injective(a ^ s ^ (i << 16u32), b ^ s ^ (i << 16u32));
        assert(a == b) by (bit_vector)
            requires
                a ^ s ^ (i << 16u32) == b ^ s ^ (i << 16u32),
        ;
    }
    if cookie_spec(a, p, s) == cookie_spec(a, q, s) {
        lemma_mix_is_injective(a ^ s ^ (i << 16u32), a ^ s ^ (j << 16u32));
        assert(i == j) by (bit_vector)
            requires
                a ^ s ^ (i << 16u32) == a ^ s ^ (j << 16u32),
                i < 0x1_0000,
                j < 0x1_0000,
        ;
    }
    if cookie_spec(a, p, s) == cookie_spec(a, p, r) {
        lemma_mix_is_injective(a ^ s ^ (i << 16u32), a ^ r ^ (i << 16u32));
        assert(s == r) by (bit_vector)
            requires
                a ^ s ^ (i << 16u32) == a ^ r ^ (i << 16u32),
        ;
    }
}

/// `x` as two bytes, most significant first.
pub open spec fn be16(x: u16) -> Seq<u8> {
    seq![(x / 0x100) as u8, (x % 0x100) as u8]
}

/// `x` as four bytes, most significant first.
pub open spec fn be32(x: u32) -> Seq<u8> {
    seq![
        (x / 0x100_0000) as u8,
        (x / 0x1_0000 % 0x100) as u8,
        (x / 0x100 % 0x100) as u8,
        (x % 0x100) as u8,
    ]
}

/// The number that two bytes write.
pub open spec fn word(hi: u8, lo: u8) -> nat {
    (hi * 0x100 + lo) as nat
}

/// The sum of the 16-bit words of `s`; an odd last byte counts as the high half of a word.
pub open spec fn word_sum(s: Seq<u8>) -> nat
    decreases s.len(),
{
    if s.len() == 0 {
        0
    } else if s.len() == 1 {
        word(s[0], 0)
    } else {
        word(s[0], s[1]) + word_sum(s.skip(2))
    }
}

/// `sum` with its carries added back in until it fits 16 bits.
pub open spec fn carried(sum: nat) -> nat
    decreases sum,
{
    if sum <= 0xffff {
        sum
    } else {
        carried(sum % 0x1_0000 + sum / 0x1_0000)
    }
}

/// The one's complement of the carried sum.
pub open spec fn fold_spec(sum: nat) -> u16 {
    (0xffff - carried(sum)) as u16
}

/// The sum that a TCP checksum covers: the pseudo header and the segment.
pub open spec fn pseudo_sum(src: u32, dst: u32, tcp: Seq<u8>) -> nat {
    (src / 0x1_0000 + src % 0x1_0000 + dst / 0x1_0000 + dst % 0x1_0000 + 6 + tcp.len() + word_sum(tcp)) as nat
}

/// An IPv4 header without options for a 40-byte TCP packet.
pub open spec fn ip_header(src: u32, dst: u32, id: u16, sum: u16) -> Seq<u8> {
    seq![0x45u8, 0u8] + be16(40) + be16(id) + be16(0) + seq![64u8, 6u8] + be16(sum) + be32(src) + be32(dst)
}

/// A TCP header without options that asks for a connection.
pub open spec fn tcp_header(src_port: u16, dst_port: u16, seq_no: u32, sum: u16) -> Seq<u8> {
    be16(src_port) + be16(dst_port) + be32(seq_no) + be32(0) + seq![0x50u8, 0x02u8] + be16(65535) + be16(sum)
        + be16(0)
}

/// A SYN packet with its checksums in place.
pub open spec fn syn_packet(
    src_ip: u32,
    dst_ip: u32,
    src_port: u16,
    dst_port: u16,
    seq_no: u32,
    ip_id: u16,
) -> Seq<u8> {
    let ip_sum = fold_spec(word_sum(ip_header(src_ip, dst_ip, ip_id, 0)));
    let tcp_sum = fold_spec(pseudo_sum(src_ip, dst_ip, tcp_header(src_port, dst_port, seq_no, 0)));
    ip_header(src_ip, dst_ip, ip_id, ip_sum) + tcp_header(src_port, dst_port, seq_no, tcp_sum)
}

proof fn lemma_carried(sum: nat)
    ensures
        carried(sum) <= 0xffff,
        carried(sum) % 0xffff == sum % 0xffff,
        sum > 0 ==> carried(sum) > 0,
    decreases sum,
{
    if sum > 0xffff {
        let next = sum % 0x1_0000 + sum / 0x1_0000;
        lemma_carried(next);
        assert(sum == next + 0xffff * (sum / 0x1_0000));
        vstd::arithmetic::div_mod::lemma_mod_multiples_vanish((sum / 0x1_0000) as int, next as int, 0xffff);
    }
}

/// A sum that counts its own checksum folds to zero.
pub proof fn checksum_cancels(sum: nat)
    ensures
        sum > 0 ==> fold_spec((sum + fold_spec(sum)) as nat) == 0,
{
    lemma_carried(sum);
    if sum > 0 {
        let whole = (sum + fold_spec(sum)) as nat;
        lemma_carried(whole);
        let f = carried(sum);
        let q = sum as int / 0xffff;
        let p = f as int / 0xffff;
        assert(whole == 0xffff * (q - p + 1));
        assert(whole % 0xffff == 0);
        assert(carried(whole) % 0xffff == 0 && 0 < carried(whole) <= 0xffff);
        assert(carried(whole) == 0xffff);
    }
}

proof fn lemma_word_sum_bound(s: Seq<u8>)
    ensures
        word_sum(s) <= 0x8000 * (s.len() + 1),
    decreases s.len(),
{
    if s.len() >= 2 {
        lemma_word_sum_bound(s.skip(2));
    }
}

/// Adds up the 16-bit words of `data`.
pub fn checksum_add(data: &[u8]) -> (sum: u32)
    requires
        data@.len() <= 0x1_0000 || word_sum(data@) <= u32::MAX,
    ensures
        sum == word_sum(data@),
{
    proof {
        lemma_word_sum_bound(data@);
    }
    let mut sum: u32 = 0;
    let mut i: usize = 0;
    assert(data@.skip(0) =~= data@);
    while data.len() - i >= 2
        invariant
            i <= data@.len(),
            word_sum(data@) <= u32::MAX,
            sum + word_sum(data@.skip(i as int)) == word_sum(data@),
        decreases data@.len() - i,
    {
        let ghost rest = data@.skip(i as int);
        assert(rest[0] == data@[i as int] && rest[1] == data@[i + 1]);
        assert(rest.skip(2) =~= data@.skip(i + 2));
        sum = sum + (data[i] as u32 * 0x100 + data[i + 1] as u32);
        i = i + 2;
    }
    if i < data.len() {
        assert(data@.skip(i as int)[0] == data@[i as int]);
        sum = sum + data[i] as u32 * 0x100;
    }
    sum
}

/// Adds the carries back in and takes the one's complement.
pub fn fold(sum: u32) -> (r: u16)
    ensures
        r == fold_spec(sum as nat),
{
    let mut s: u32 = sum;
    while s > 0xffff
        invariant
            carried(s as nat) == carried(sum as nat),
        decreases s,
    {
        assert(s & 0xffff == s % 0x1_0000 && s >> 16u32 == s / 0x1_0000) by (bit_vector);
        s = (s & 0xffff) + (s >> 16u32);
    }
    (0xffff - s) as u16
}

/// The checksum of an IP header.
pub fn internet_checksum(data: &[u8]) -> (r: u16)
    requires
        data@.len() <= 0x1_0000 || word_sum(data@) <= u32::MAX,
    ensures
        r == fold_spec(word_sum(data@)),
{
    fold(checksum_add(data))
}

/// The checksum of a TCP segment between two addresses.
pub fn tcp_checksum(src: u32, dst: u32, tcp: &[u8]) -> (r: u16)
    requires
        tcp@.len() <= 0x1_0000 || pseudo_sum(src, dst, tcp@) <= u32::MAX,
    ensures
        r == fold_spec(pseudo_sum(src, dst, tcp@)),
{
    proof {
        lemma_word_sum_bound(tcp@);
    }
    assert(src & 0xffff == src % 0x1_0000 && src >> 16u32 == src / 0x1_0000) by (bit_vector);
    assert(dst & 0xffff == dst % 0x1_0000 && dst >> 16u32 == dst / 0x1_0000) by (bit_vector);
    let mut sum: u32 = 0;
    sum = sum + (src >> 16u32);
    sum = sum + (src & 0xffff);
    sum = sum + (dst >> 16u32);
    sum = sum + (dst & 0xffff);
    sum = sum + 6;
    sum = sum + tcp.len() as u32;
    sum = sum + checksum_add(tcp);
    fold(sum)
}

proof fn lemma_word_sum_10(s: Seq<u8>)
    requires
        s.len() == 20,
    ensures
        word_sum(s) == word(s[0], s[1]) + word(s[2], s[3]) + word(s[4], s[5]) + word(s[6], s[7]) + word(
            s[8],
            s[9],
        ) + word(s[10], s[11]) + word(s[12], s[13]) + word(s[14], s[15]) + word(s[16], s[17]) + word(
            s[18],
            s[19],
        ),
{
    reveal_with_fuel(word_sum, 11);
}

proof fn lemma_ip_header_sum(src: u32, dst: u32, id: u16, sum: u16)
    ensures
        word_sum(ip_header(src, dst, id, sum)) == word_sum(ip_header(src, dst, id, 0)) + sum,
        0 < word_sum(ip_header(src, dst, id, sum)) <= 10 * 0xffff,
        ip_header(src, dst, id, sum).len() == 20,
{
    lemma_word_sum_10(ip_header(src, dst, id, sum));
    lemma_word_sum_10(ip_header(src, dst, id, 0));
}

proof fn lemma_tcp_header_sum(src_port: u16, dst_port: u16, seq_no: u32, sum: u16)
    ensures
        word_sum(tcp_header(src_port, dst_port, seq_no, sum)) == word_sum(
            tcp_header(src_port, dst_port, seq_no, 0),
        ) + sum,
        0 < word_sum(tcp_header(src_port, dst_port, seq_no, sum)) <= 10 * 0xffff,
        tcp_header(src_port, dst_port, seq_no, sum).len() == 20,
{
    lemma_word_sum_10(tcp_header(src_port, dst_port, seq_no, sum));
    lemma_word_sum_10(tcp_header(src_port, dst_port, seq_no, 0));
}

/// Both checksums of a SYN packet verify: each sum that includes its checksum folds to zero.
pub proof fn syn_checksums_verify(
    src_ip: u32,
    dst_ip: u32,
    src_port: u16,
    dst_port: u16,
    seq_no: u32,
    ip_id: u16,
)
    ensures
        ({
            let p = syn_packet(src_ip, dst_ip, src_port, dst_port, seq_no, ip_id);
            &&& p.len() == 40
            &&& fold_spec(word_sum(p.subrange(0, 20))) == 0
            &&& fold_spec(pseudo_sum(src_ip, dst_ip, p.subrange(20, 40))) == 0
        }),
{
    let p = syn_packet(src_ip, dst_ip, src_port, dst_port, seq_no, ip_id);
    let s = word_sum(ip_header(src_ip, dst_ip, ip_id, 0));
    let t = pseudo_sum(src_ip, dst_ip, tcp_header(src_port, dst_port, seq_no, 0));
    lemma_ip_header_sum(src_ip, dst_ip, ip_id, 0);
    lemma_ip_header_sum(src_ip, dst_ip, ip_id, fold_spec(s));
    lemma_tcp_header_sum(src_port, dst_port, seq_no, 0);
    lemma_tcp_header_sum(src_port, dst_port, seq_no, fold_spec(t));
    assert(p.subrange(0, 20) =~= ip_header(src_ip, dst_ip, ip_id, fold_spec(s)));
    assert(p.subrange(20, 40) =~= tcp_header(src_port, dst_port, seq_no, fold_spec(t)));
    checksum_cancels(s);
    checksum_cancels(t);
}

fn put16(buf: &mut [u8; 40], at: usize, x: u16)
    requires
        at + 2 <= 40,
    ensures
        final(buf)@ == old(buf)@.update(at as int, be16(x)[0]).update(at + 1, be16(x)[1]),
{
    buf[at] = (x / 0x100) as u8;
    buf[at + 1] = (x % 0x100) as u8;
}

fn put32(buf: &mut [u8; 40], at: usize, x: u32)
    requires
        at + 4 <= 40,
    ensures
        final(buf)@ == old(buf)@.update(at as int, be32(x)[0]).update(at + 1, be32(x)[1]).update(
            at + 2,
            be32(x)[2],
        ).update(at + 3, be32(x)[3]),
{
    buf[at] = (x / 0x100_0000) as u8;
    buf[at + 1] = (x / 0x1_0000 % 0x100) as u8;
    buf[at + 2] = (x / 0x100 % 0x100) as u8;
    buf[at + 3] = (x % 0x100) as u8;
}

/// Writes a SYN packet, checksums and all.
pub fn write_syn(
    buf: &mut [u8; 40],
    src_ip: u32,
    dst_ip: u32,
    src_port: u16,
    dst_port: u16,
    seq: u32,
    ip_id: u16,
)
    ensures
        final(buf)@ == syn_packet(src_ip, dst_ip, src_port, dst_port, seq, ip_id),
{
    buf[0] = 0x45;
    buf[1] = 0;
    put16(buf, 2, 40);
    put16(buf, 4, ip_id);
    put16(buf, 6, 0);
    buf[8] = 64;
    buf[9] = 6;
    put16(buf, 10, 0);
    put32(buf, 12, src_ip);
    put32(buf, 16, dst_ip);
    put16(buf, 20, src_port);
    put16(buf, 22, dst_port);
    put32(buf, 24, seq);
    put32(buf, 28, 0);
    buf[32] = 0x50;
    buf[33] = 0x02;
    put16(buf, 34, 65535);
    put16(buf, 36, 0);
    put16(buf, 38, 0);
    let ghost ip0 = ip_header(src_ip, dst_ip, ip_id, 0);
    let ghost tcp0 = tcp_header(src_port, dst_port, seq, 0);
    assert(buf@ =~= ip0 + tcp0);
    assert(buf@.subrange(0, 20) =~= ip0);
    assert(buf@.subrange(20, 40) =~= tcp0);
    proof {
        lemma_ip_header_sum(src_ip, dst_ip, ip_id, 0);
        lemma_tcp_header_sum(src_port, dst_port, seq, 0);
    }
    let ip_sum: u16 = internet_checksum(&buf[0..20]);
    let tcp_sum: u16 = tcp_checksum(src_ip, dst_ip, &buf[20..40]);
    put16(buf, 10, ip_sum);
    put16(buf, 36, tcp_sum);
    assert(buf@ =~= syn_packet(src_ip, dst_ip, src_port, dst_port, seq, ip_id));
}

/// The number that the four bytes of `s` from `at` on write.
pub open spec fn long_at(s: Seq<u8>, at: int) -> nat {
    (s[at] * 0x100_0000 + s[at + 1] * 0x1_0000 + s[at + 2] * 0x100 + s[at + 3]) as nat
}

/// Where the TCP header of an IPv4 packet begins.
pub open spec fn tcp_at(pkt: Seq<u8>) -> int {
    (pkt[0] & 0x0f) * 4
}

/// `pkt` is an unfragmented IPv4 packet with a SYN-ACK, and no reset, from `from` to `to_port`
/// that acknowledges `ack`.
pub open spec fn is_syn_ack(pkt: Seq<u8>, from: Target, to_port: u16, ack: u32) -> bool {
    let t = tcp_at(pkt);
    &&& pkt.len() >= 40
    &&& pkt[0] >> 4 == 4
    &&& t >= 20
    &&& pkt.len() >= t + 20
    &&& pkt[9] == 6
    &&& word(pkt[6], pkt[7]) % 0x2000 == 0
    &&& long_at(pkt, 12) == from.ip
    &&& word(pkt[t], pkt[t + 1]) == from.port
    &&& word(pkt[t + 2], pkt[t + 3]) == to_port
    &&& (pkt[t + 12] >> 4) * 4 >= 20
    &&& pkt.len() - t >= (pkt[t + 12] >> 4) * 4
    &&& pkt[t + 13] & 0x04 == 0
    &&& pkt[t + 13] & 0x12 == 0x12
    &&& long_at(pkt, t + 8) == ack
}

/// `pkt` answers a probe of `from`: a SYN-ACK to our port, from a port that is scanned, which
/// acknowledges the cookie of `from`.
pub open spec fn answers_probe(pkt: Seq<u8>, from: Target, our_port: u16, secret: u32, ports: Seq<u16>) -> bool {
    &&& is_syn_ack(pkt, from, our_port, cookie_spec(from.ip, from.port, secret).wrapping_add(1))
    &&& ports.contains(from.port)
}

fn read16(s: &[u8], at: usize) -> (r: u16)
    requires
        at + 2 <= s@.len(),
    ensures
        r == word(s@[at as int], s@[at + 1]),
{
    s[at] as u16 * 0x100 + s[at + 1] as u16
}

fn read32(s: &[u8], at: usize) -> (r: u32)
    requires
        at + 4 <= s@.len(),
    ensures
        r == long_at(s@, at as int),
{
    s[at] as u32 * 0x100_0000 + s[at + 1] as u32 * 0x1_0000 + s[at + 2] as u32 * 0x100 + s[at + 3] as u32
}

/// Whether `x` is one of `s`.
pub fn contains_port(s: &[u16], x: u16) -> (r: bool)
    ensures
        r == s@.contains(x),
{
    let mut i: usize = 0;
    while i < s.len()
        invariant
            i <= s@.len(),
            forall|j: int| 0 <= j < i ==> s@[j] != x,
        decreases s@.len() - i,
    {
        if s[i] == x {
            assert(s@[i as int] == x);
            return true;
        }
        i = i + 1;
    }
    false
}

/// Finds out whom a captured packet comes from when it answers one of our probes.
pub fn parse_syn_ack(pkt: &[u8], our_port: u16, secret: u32, ports: &[u16]) -> (r: Option<Target>)
    ensures
        match r {
            Some(t) => answers_probe(pkt@, t, our_port, secret, ports@),
            None => forall|t: Target| !answers_probe(pkt@, t, our_port, secret, ports@),
        },
{
    if pkt.len() < 40 {
        return None;
    }
    let first: u8 = pkt[0];
    if first >> 4 != 4 {
        return None;
    }
    assert(first & 0x0f <= 15) by (bit_vector);
    let ihl: usize = (first & 0x0f) as usize * 4;
    if ihl < 20 || pkt.len() < ihl + 20 {
        return None;
    }
    if pkt[9] != 6 {
        return None;
    }
    if read16(pkt, 6) % 0x2000 != 0 {
        return None;
    }
    let src_ip: u32 = read32(pkt, 12);
    let src_port: u16 = read16(pkt, ihl);
    let dst_port: u16 = read16(pkt, ihl + 2);
    if dst_port != our_port {
        return None;
    }
    if !contains_port(ports, src_port) {
        return None;
    }
    let offset: u8 = pkt[ihl + 12];
    assert(offset >> 4 <= 15) by (bit_vector);
    let doff: usize = (offset >> 4) as usize * 4;
    if doff < 20 || pkt.len() - ihl < doff {
        return None;
    }
    let flags: u8 = pkt[ihl + 13];
    if flags & 0x04 != 0 {
        return None;
    }
    if flags & 0x12 != 0x12 {
        return None;
    }
    let ack: u32 = read32(pkt, ihl + 8);
    if ack != cookie(src_ip, src_port, secret).wrapping_add(1) {
        return None;
    }
    Some(Target { ip: src_ip, port: src_port })
}

/// A packet can answer the probe of one target only.
pub proof fn answer_names_one_target(
    pkt: Seq<u8>,
    a: Target,
    b: Target,
    our_port: u16,
    secret: u32,
    ports: Seq<u16>,
)
    requires
        answers_probe(pkt, a, our_port, secret, ports),
        answers_probe(pkt, b, our_port, secret, ports),
    ensures
        a == b,
{
}

proof fn lemma_sequence_field(ip: Seq<u8>, ports: Seq<u8>, seq_no: u32, rest: Seq<u8>)
    requires
        ip.len() == 20,
        ports.len() == 4,
    ensures
        long_at(ip + (ports + be32(seq_no) + rest), 24) == seq_no,
{
    let p = ip + (ports + be32(seq_no) + rest);
    assert(p[24] == be32(seq_no)[0]);
    assert(p[25] == be32(seq_no)[1]);
    assert(p[26] == be32(seq_no)[2]);
    assert(p[27] == be32(seq_no)[3]);
}

/// The sequence number of a SYN packet stands in its bytes.
pub proof fn syn_carries_sequence_number(
    src_ip: u32,
    dst_ip: u32,
    src_port: u16,
    dst_port: u16,
    seq_no: u32,
    ip_id: u16,
)
    ensures
        long_at(syn_packet(src_ip, dst_ip, src_port, dst_port, seq_no, ip_id), 24) == seq_no,
{
    let ip_sum = fold_spec(word_sum(ip_header(src_ip, dst_ip, ip_id, 0)));
    let tcp_sum = fold_spec(pseudo_sum(src_ip, dst_ip, tcp_header(src_port, dst_port, seq_no, 0)));
    let rest = be32(0) + seq![0x50u8, 0x02u8] + be16(65535) + be16(tcp_sum) + be16(0);
    let ports = be16(src_port) + be16(dst_port);
    lemma_sequence_field(ip_header(src_ip, dst_ip, ip_id, ip_sum), ports, seq_no, rest);
    assert(tcp_header(src_port, dst_port, seq_no, tcp_sum) =~= ports + be32(seq_no) + rest);
}

/// The host that gets our SYN packet and acknowledges its sequence number is recognised: the
/// reply answers the probe of exactly that host.
pub proof fn reply_to_syn_answers_probe(
    reply: Seq<u8>,
    to: Target,
    src_ip: u32,
    our_port: u16,
    secret: u32,
    ip_id: u16,
    ports: Seq<u16>,
    ack: u32,
)
    requires
        ({
            let syn = syn_packet(src_ip, to.ip, our_port, to.port, cookie_spec(to.ip, to.port, secret), ip_id);
            &&& is_syn_ack(reply, to, our_port, ack)
            &&& ack == (long_at(syn, 24) as u32).wrapping_add(1)
        }),
        ports.contains(to.port),
    ensures
        answers_probe(reply, to, our_port, secret, ports),
        forall|t: Target| answers_probe(reply, t, our_port, secret, ports) ==> t == to,
{
    syn_carries_sequence_number(src_ip, to.ip, our_port, to.port, cookie_spec(to.ip, to.port, secret), ip_id);
}

/// A SYN packet for one target.
pub struct SynPacket {
    pub to: Target,
    pub bytes: [u8; 40],
}

/// A walk over all ports of all addresses in shuffled order.
pub struct SynSender {
    pub space: AddrSpace,
    pub ports: Vec<u16>,
    pub src_ip: u32,
    pub src_port: u16,
    pub secret: u32,
    pub stride: u64,
    /// The step whose address comes next; everything before it has been sent.
    pub step: u64,
    /// Which of the ports comes next.
    pub port_at: usize,
    /// The identification of the next packet.
    pub ip_id: u16,
}

/// The target of packet `k`, from 0: all ports of one step before the next step.
pub open spec fn target_at(ws: Seq<Window>, ports: Seq<u16>, stride: nat, k: nat) -> Target {
    Target { ip: step_spec(ws, k / ports.len(), stride), port: ports[(k % ports.len()) as int] }
}

impl SynSender {
    pub open spec fn wf(&self) -> bool {
        &&& self.space.wf()
        &&& gcd_spec(self.stride as nat, count(self.space@)) == 1
        &&& self.port_at < self.ports@.len() || self.port_at == 0
        &&& self.step >= self.space.total ==> self.port_at == 0
    }

    /// How many packets come before the next one, counted from step 0.
    pub open spec fn position(&self) -> nat {
        self.step as nat * self.ports@.len() + self.port_at as nat
    }

    /// A walk that begins at step `skip`.
    pub fn new(
        space: AddrSpace,
        ports: Vec<u16>,
        src_ip: u32,
        src_port: u16,
        secret: u32,
        seed: u64,
        skip: u64,
    ) -> (r: Self)
        requires
            space.wf(),
        ensures
            r.wf(),
            r.space == space,
            r.ports == ports,
            r.src_ip == src_ip,
            r.src_port == src_port,
            r.secret == secret,
            r.stride == crate::ip::stride_spec(space.total, seed),
            r.step == skip,
            r.port_at == 0,
            r.ip_id == 1,
    {
        let stride: u64 = space.stride(seed);
        SynSender { space, ports, src_ip, src_port, secret, stride, step: skip, port_at: 0, ip_id: 1 }
    }

    /// The next packet to send. There is none at the end of the walk, and none when the scan no
    /// longer runs and the last address has had all its ports.
    pub fn next(&mut self, running: bool) -> (r: Option<SynPacket>)
        requires
            old(self).wf(),
        ensures
            final(self).wf(),
            r is None <==> old(self).step >= old(self).space.total || old(self).ports@.len() == 0 || (
            !running && old(self).port_at == 0),
            match r {
                Some(p) => {
                    &&& p.to == target_at(
                        old(self).space@,
                        old(self).ports@,
                        old(self).stride as nat,
                        old(self).position(),
                    )
                    &&& p.bytes@ == syn_packet(
                        old(self).src_ip,
                        p.to.ip,
                        old(self).src_port,
                        p.to.port,
                        cookie_spec(p.to.ip, p.to.port, old(self).secret),
                        old(self).ip_id,
                    )
                    &&& final(self).position() == old(self).position() + 1
                    &&& final(self).step == (if old(self).port_at + 1 == old(self).ports@.len() {
                        old(self).step + 1
                    } else {
                        old(self).step as int
                    })
                    &&& final(self).ip_id == old(self).ip_id.wrapping_add(1)
                },
                None => {
                    &&& final(self).step == (if old(self).ports@.len() == 0 && running && old(self).step
                        < old(self).space.total {
                        old(self).space.total
                    } else {
                        old(self).step
                    })
                    &&& final(self).port_at == old(self).port_at
                    &&& final(self).ip_id == old(self).ip_id
                },
            },
            final(self).space == old(self).space,
            final(self).ports == old(self).ports,
            final(self).src_ip == old(self).src_ip,
            final(self).src_port == old(self).src_port,
            final(self).secret == old(self).secret,
            final(self).stride == old(self).stride,
    {
        if self.step >= self.space.total || (!running && self.port_at == 0) {
            return None;
        }
        if self.ports.len() == 0 {
            self.step = self.space.total;
            return None;
        }
        let ghost len = self.ports@.len();
        let ghost at = self.position();
        proof {
            vstd::arithmetic::div_mod::lemma_fundamental_div_mod_converse(
                at as int,
                len as int,
                self.step as int,
                self.port_at as int,
            );
        }
        let to: Target = Target {
            ip: self.space.ip_at_step(self.step, self.stride),
            port: self.ports[self.port_at],
        };
        let mut bytes: [u8; 40] = [0; 40];
        write_syn(
            &mut bytes,
            self.src_ip,
            to.ip,
            self.src_port,
            to.port,
            cookie(to.ip, to.port, self.secret),
            self.ip_id,
        );
        self.ip_id = self.ip_id.wrapping_add(1);
        if self.port_at + 1 == self.ports.len() {
            assert((self.step + 1) * len == self.step * len + len) by (nonlinear_arith);
            self.port_at = 0;
            self.step = self.step + 1;
        } else {
            self.port_at = self.port_at + 1;
        }
        Some(SynPacket { to, bytes })
    }
}

/// A walk from step 0 to its end probes every scanned port of every address exactly once.
pub proof fn walk_probes_each_target_once(ws: Seq<Window>, ports: Seq<u16>, stride: nat)
    requires
        crate::ip::canonical(ws),
        ws.len() > 0,
        gcd_spec(stride, count(ws)) == 1,
        ports.no_duplicates(),
    ensures
        forall|t: Target|
            covers(ws, t.ip) && #[trigger] ports.contains(t.port) ==> exists|k: nat|
                k < count(ws) * ports.len() && #[trigger] target_at(ws, ports, stride, k) == t,
        forall|j: nat, k: nat|
            j < count(ws) * ports.len() && k < count(ws) * ports.len() && #[trigger] target_at(
                ws,
                ports,
                stride,
                j,
            ) == #[trigger] target_at(ws, ports, stride, k) ==> j == k,
        forall|k: nat|
            k < count(ws) * ports.len() ==> covers(ws, (#[trigger] target_at(ws, ports, stride, k)).ip)
                && ports.contains(target_at(ws, ports, stride, k).port),
{
    scan_visits_each_address_once(ws, stride);
    let len = ports.len();
    let total = count(ws);
    assert forall|t: Target| covers(ws, t.ip) && #[trigger] ports.contains(t.port) implies exists|k: nat|
        k < total * len && #[trigger] target_at(ws, ports, stride, k) == t by {
        let n = choose|n: nat| n < total && #[trigger] step_spec(ws, n, stride) == t.ip;
        let i = choose|i: int| 0 <= i < len && ports[i] == t.port;
        let k: nat = (n * len + i) as nat;
        vstd::arithmetic::div_mod::lemma_fundamental_div_mod_converse(k as int, len as int, n as int, i);
        assert(k < total * len) by (nonlinear_arith)
            requires
                n + 1 <= total,
                i < len,
                k == n * len + i,
        ;
        assert(target_at(ws, ports, stride, k) == t);
    }
    assert forall|k: nat| k < total * len implies #[trigger] (k / len) < total && k % len < len && len > 0 && k == len * (k / len) + k % len by {
        lemma_index_parts(k, len, total);
    }
    assert forall|j: nat, k: nat|
        j < total * len && k < total * len && #[trigger] target_at(ws, ports, stride, j) == #[trigger] target_at(
            ws,
            ports,
            stride,
            k,
        ) implies j == k by {
        lemma_index_parts(j, len, total);
        lemma_index_parts(k, len, total);
        assert(step_spec(ws, j / len, stride) == step_spec(ws, k / len, stride));
        assert(ports[(j % len) as int] == ports[(k % len) as int]);
        assert(j / len == k / len);
        assert(j % len == k % len);
    }
    assert forall|k: nat| k < total * len implies covers(ws, (#[trigger] target_at(ws, ports, stride, k)).ip)
        && ports.contains(target_at(ws, ports, stride, k).port) by {
        lemma_index_parts(k, len, total);
        assert(covers(ws, step_spec(ws, k / len, stride)));
        assert(ports[(k % len) as int] == target_at(ws, ports, stride, k).port);
    }
}

/// Some packet from `from` on, and before `to`, goes to `t`.
pub open spec fn probed(
    ws: Seq<Window>,
    ports: Seq<u16>,
    stride: nat,
    from: nat,
    to: nat,
    t: Target,
) -> bool {
    exists|k: nat| from <= k < to && #[trigger] target_at(ws, ports, stride, k) == t
}

/// A walk that stops before step `cursor` and one that goes on there with the same shuffle share
/// the targets: each is probed by one of them, and none by both.
pub proof fn two_walks_share_the_targets(
    ws: Seq<Window>,
    ports: Seq<u16>,
    stride: nat,
    cursor: nat,
    t: Target,
)
    requires
        crate::ip::canonical(ws),
        ws.len() > 0,
        gcd_spec(stride, count(ws)) == 1,
        ports.no_duplicates(),
        cursor <= count(ws),
        covers(ws, t.ip),
        ports.contains(t.port),
    ensures
        probed(ws, ports, stride, 0, cursor * ports.len(), t) != probed(
            ws,
            ports,
            stride,
            cursor * ports.len(),
            count(ws) * ports.len(),
            t,
        ),
{
    walk_probes_each_target_once(ws, ports, stride);
    let (cut, end) = (cursor * ports.len(), count(ws) * ports.len());
    assert(cut <= end) by (nonlinear_arith)
        requires
            cursor <= count(ws),
            cut == cursor * ports.len(),
            end == count(ws) * ports.len(),
    ;
    let k = choose|k: nat| k < end && #[trigger] target_at(ws, ports, stride, k) == t;
    if k < cut {
        assert(probed(ws, ports, stride, 0, cut, t));
    } else {
        assert(probed(ws, ports, stride, cut, end, t));
    }
}

proof fn lemma_index_parts(k: nat, len: nat, total: nat)
    requires
        k < total * len,
    ensures
        len > 0,
        k / len < total,
        k % len < len,
        k == len * (k / len) + k % len,
{
    assert(len > 0) by (nonlinear_arith)
        requires
            k < total * len,
            k >= 0,
            total >= 0,
    ;
    vstd::arithmetic::div_mod::lemma_fundamental_div_mod(k as int, len as int);
    vstd::arithmetic::div_mod::lemma_mod_bound(k as int, len as int);
    assert(k / len < total) by (nonlinear_arith)
        requires
            k < total * len,
            k == len * (k / len) + k % len,
            k % len >= 0,
            len > 0,
    ;
}

/// The secret of a scan, from its seed.
pub open spec fn scan_secret_spec(seed: u64) -> u32 {
    ((seed % 0x1_0000_0000) as u32) ^ 0xA5A5_5A5A
}

pub fn scan_secret(seed: u64) -> (r: u32)
    ensures
        r == scan_secret_spec(seed),
{
    ((seed % 0x1_0000_0000) as u32) ^ 0xA5A5_5A5A
}

/// A target as one number.
pub open spec fn target_key(t: Target) -> u64 {
    (t.ip as u64 * 0x1_0000 + t.port as u64) as u64
}

/// Two targets never share a key.
pub proof fn target_key_is_injective(a: Target, b: Target)
    requires
        target_key(a) == target_key(b),
    ensures
        a == b,
{
}

/// The target that a packet answers for, unless its key is among those seen.
pub open spec fn new_answer(
    seen: Set<u64>,
    pkt: Seq<u8>,
    our_port: u16,
    secret: u32,
    ports: Seq<u16>,
) -> Option<Target> {
    if exists|t: Target|
        #[trigger] answers_probe(pkt, t, our_port, secret, ports) && !seen.contains(target_key(t)) {
        Some(
            choose|t: Target|
                #[trigger] answers_probe(pkt, t, our_port, secret, ports) && !seen.contains(
                    target_key(t),
                ),
        )
    } else {
        None
    }
}

/// The keys seen once `answer` was handed out.
pub open spec fn with_answer(seen: Set<u64>, answer: Option<Target>) -> Set<u64> {
    match answer {
        Some(t) => seen.insert(target_key(t)),
        None => seen,
    }
}

/// What has come of a number of packets.
pub struct Received {
    /// The targets that were handed out, in their order.
    pub targets: Seq<Target>,
    /// The keys that are remembered.
    pub seen: Set<u64>,
}

/// What comes of taking in packets one after the other, from nothing seen.
pub open spec fn received(pkts: Seq<Seq<u8>>, our_port: u16, secret: u32, ports: Seq<u16>) -> Received
    decreases pkts.len(),
{
    if pkts.len() == 0 {
        Received { targets: Seq::empty(), seen: Set::empty() }
    } else {
        let before = received(pkts.drop_last(), our_port, secret, ports);
        let answer = new_answer(before.seen, pkts.last(), our_port, secret, ports);
        Received {
            targets: match answer {
                Some(t) => before.targets.push(t),
                None => before.targets,
            },
            seen: with_answer(before.seen, answer),
        }
    }
}

/// Some packet answers for the target.
pub open spec fn answered(
    pkts: Seq<Seq<u8>>,
    t: Target,
    our_port: u16,
    secret: u32,
    ports: Seq<u16>,
) -> bool {
    exists|i: int| 0 <= i < pkts.len() && answers_probe(#[trigger] pkts[i], t, our_port, secret, ports)
}

proof fn lemma_answered_step(pkts: Seq<Seq<u8>>, t: Target, our_port: u16, secret: u32, ports: Seq<u16>)
    requires
        pkts.len() > 0,
    ensures
        answered(pkts, t, our_port, secret, ports) <==> answered(
            pkts.drop_last(),
            t,
            our_port,
            secret,
            ports,
        ) || answers_probe(pkts.last(), t, our_port, secret, ports),
{
    let front = pkts.drop_last();
    if answered(front, t, our_port, secret, ports) {
        let i = choose|i: int|
            0 <= i < front.len() && answers_probe(#[trigger] front[i], t, our_port, secret, ports);
        assert(pkts[i] == front[i]);
    }
    if answers_probe(pkts.last(), t, our_port, secret, ports) {
        assert(pkts[pkts.len() - 1] == pkts.last());
    }
    if answered(pkts, t, our_port, secret, ports) {
        let i = choose|i: int|
            0 <= i < pkts.len() && answers_probe(#[trigger] pkts[i], t, our_port, secret, ports);
        if i < front.len() {
            assert(front[i] == pkts[i]);
        }
    }
}

/// Over any run of packets, the targets handed out are exactly those that some packet answers
/// for, each of them once, and the keys remembered are exactly theirs.
pub proof fn each_answering_target_is_given_once(
    pkts: Seq<Seq<u8>>,
    our_port: u16,
    secret: u32,
    ports: Seq<u16>,
)
    ensures
        forall|t: Target|
            #[trigger] received(pkts, our_port, secret, ports).targets.contains(t) <==> answered(
                pkts,
                t,
                our_port,
                secret,
                ports,
            ),
        received(pkts, our_port, secret, ports).targets.no_duplicates(),
        forall|key: u64|
            #[trigger] received(pkts, our_port, secret, ports).seen.contains(key) <==> exists|t: Target|
                #[trigger] received(pkts, our_port, secret, ports).targets.contains(t) && target_key(t)
                    == key,
        received(pkts, our_port, secret, ports).seen.len() == received(
            pkts,
            our_port,
            secret,
            ports,
        ).targets.len(),
        received(pkts, our_port, secret, ports).seen.finite(),
    decreases pkts.len(),
{
    let after = received(pkts, our_port, secret, ports);
    if pkts.len() > 0 {
        let front = pkts.drop_last();
        let pkt = pkts.last();
        let before = received(front, our_port, secret, ports);
        each_answering_target_is_given_once(front, our_port, secret, ports);
        let answer = new_answer(before.seen, pkt, our_port, secret, ports);
        if let Some(n) = answer {
            assert(answers_probe(pkt, n, our_port, secret, ports) && !before.seen.contains(target_key(n)));
            assert(!before.targets.contains(n));
            assert(after.targets[before.targets.len() as int] == n);
        }
        assert forall|t: Target| #[trigger] after.targets.contains(t) <==> before.targets.contains(t)
            || answer == Some(t) by {
            if before.targets.contains(t) {
                let i = choose|i: int| 0 <= i < before.targets.len() && before.targets[i] == t;
                assert(after.targets[i] == t);
            }
        }
        assert forall|t: Target| #[trigger] after.targets.contains(t) <==> answered(
            pkts,
            t,
            our_port,
            secret,
            ports,
        ) by {
            lemma_answered_step(pkts, t, our_port, secret, ports);
            if answers_probe(pkt, t, our_port, secret, ports) {
                if before.seen.contains(target_key(t)) {
                    let u = choose|u: Target|
                        #[trigger] before.targets.contains(u) && target_key(u) == target_key(t);
                    target_key_is_injective(u, t);
                } else {
                    answer_names_one_target(pkt, t, answer->0, our_port, secret, ports);
                }
            }
        }
        assert forall|key: u64| #[trigger] after.seen.contains(key) <==> exists|t: Target|
            #[trigger] after.targets.contains(t) && target_key(t) == key by {
            if before.seen.contains(key) {
                let t = choose|t: Target| #[trigger] before.targets.contains(t) && target_key(t) == key;
                assert(after.targets.contains(t));
            } else if after.seen.contains(key) {
                assert(after.targets.contains(answer->0));
            }
        }
    }
}

/// What the receiving side of a SYN scan remembers.
pub struct Receiver {
    pub our_port: u16,
    pub secret: u32,
    pub ports: Vec<u16>,
    /// The keys of the targets that have answered.
    pub seen: HashSet<u64>,
    /// When to stop listening, in nanoseconds, once the sender is done.
    pub cooldown_until: Option<u128>,
}

impl Receiver {
    pub fn new(our_port: u16, secret: u32, ports: Vec<u16>) -> (r: Self)
        ensures
            r.our_port == our_port,
            r.secret == secret,
            r.ports == ports,
            r.seen@ == Set::<u64>::empty(),
            r.cooldown_until is None,
    {
        Receiver { our_port, secret, ports, seen: HashSet::with_capacity(8192), cooldown_until: None }
    }

    /// Takes in a captured packet. Gives the target that it comes from when it answers a probe
    /// and that target has not answered before.
    pub fn on_packet(&mut self, pkt: &[u8]) -> (r: Option<Target>)
        ensures
            match r {
                Some(t) => {
                    &&& answers_probe(pkt@, t, old(self).our_port, old(self).secret, old(self).ports@)
                    &&& !old(self).seen@.contains(target_key(t))
                    &&& final(self).seen@ == old(self).seen@.insert(target_key(t))
                },
                None => {
                    &&& forall|t: Target|
                        answers_probe(pkt@, t, old(self).our_port, old(self).secret, old(self).ports@)
                            ==> old(self).seen@.contains(target_key(t))
                    &&& final(self).seen@ == old(self).seen@
                },
            },
            r == new_answer(
                old(self).seen@,
                pkt@,
                old(self).our_port,
                old(self).secret,
                old(self).ports@,
            ),
            final(self).seen@ == with_answer(old(self).seen@, r),
            final(self).our_port == old(self).our_port,
            final(self).secret == old(self).secret,
            final(self).ports == old(self).ports,
            final(self).cooldown_until == old(self).cooldown_until,
    {
        broadcast use vstd::std_specs::hash::group_hash_axioms;

        let Some(t) = parse_syn_ack(pkt, self.our_port, self.secret, self.ports.as_slice()) else {
            return None;
        };
        let key: u64 = t.ip as u64 * 0x1_0000 + t.port as u64;
        if self.seen.insert(key) {
            Some(t)
        } else {
            assert(self.seen@ =~= old(self).seen@);
            None
        }
    }

    /// When listening ends: set the first time this is asked after the sender is done.
    pub open spec fn deadline(&self, now: u128, cooldown: u128) -> u128 {
        match self.cooldown_until {
            Some(t) => t,
            None => if now + cooldown > u128::MAX {
                u128::MAX
            } else {
                (now + cooldown) as u128
            },
        }
    }

    /// Whether to stop listening: once the sender is done, at the deadline, or at once when the
    /// scan no longer runs.
    pub fn should_stop(&mut self, sender_done: bool, running: bool, now: u128, cooldown: u128) -> (r: bool)
        ensures
            r == (sender_done && (!running || now >= old(self).deadline(now, cooldown))),
            final(self).cooldown_until == (if sender_done && running {
                Some(old(self).deadline(now, cooldown))
            } else {
                old(self).cooldown_until
            }),
            final(self).our_port == old(self).our_port,
            final(self).secret == old(self).secret,
            final(self).ports == old(self).ports,
            final(self).seen == old(self).seen,
    {
        if !sender_done {
            return false;
        }
        if !running {
            return true;
        }
        let until: u128 = match self.cooldown_until {
            Some(t) => t,
            None => now.saturating_add(cooldown),
        };
        self.cooldown_until = Some(until);
        now >= until
    }
}

/// What kind of error a socket call failed with.
#[derive(Clone, Copy, Debug, PartialEq, Eq, Structural)]
pub enum IoKind {
    Interrupted,
    WouldBlock,
    TimedOut,
    NoBuffers,
    Other,
}

/// What to do after a failed socket call.
#[derive(Clone, Copy, Debug, PartialEq, Eq, Structural)]
pub enum Retry {
    Now,
    AfterMicros(u64),
    Fail,
}

/// A send is repeated at once when interrupted, and after a pause when the queue is full.
pub fn after_send_error(kind: IoKind) -> (r: Retry)
    ensures
        r == (match kind {
            IoKind::Interrupted => Retry::Now,
            IoKind::WouldBlock => Retry::AfterMicros(200),
            IoKind::NoBuffers => Retry::AfterMicros(1000),
            _ => Retry::Fail,
        }),
{
    match kind {
        IoKind::Interrupted => Retry::Now,
        IoKind::WouldBlock => Retry::AfterMicros(200),
        IoKind::NoBuffers => Retry::AfterMicros(1000),
        _ => Retry::Fail,
    }
}

/// A receive is repeated after a pause when there was nothing to read.
pub fn after_recv_error(kind: IoKind) -> (r: Retry)
    ensures
        r == (match kind {
            IoKind::Interrupted | IoKind::WouldBlock | IoKind::TimedOut => Retry::AfterMicros(200),
            _ => Retry::Fail,
        }),
{
    match kind {
        IoKind::Interrupted | IoKind::WouldBlock | IoKind::TimedOut => Retry::AfterMicros(200),
        _ => Retry::Fail,
    }
}

/// Sending pauses while the kernel holds more than this many bytes.
pub const TX_SOFT_LIMIT: u32 = 24576;

/// The bytes in the send queue, from the result `rc` of asking and the answer `q`; none when
/// asking failed.
pub fn queued_bytes(rc: i32, q: i32) -> (r: u32)
    ensures
        r == (if rc < 0 || q < 0 {
            0
        } else {
            q as int
        }),
{
    if rc < 0 || q < 0 {
        0
    } else {
        q as u32
    }
}

/// Whether to wait before the next packet.
pub fn queue_is_full(queued: u32) -> (r: bool)
    ensures
        r == (queued > TX_SOFT_LIMIT),
{
    queued > TX_SOFT_LIMIT
}

/// The first network interface that has address `ip`, among the IPv4 addresses of the interfaces.
pub fn interface_with(addrs: &[Option<u32>], ip: u32) -> (r: Option<usize>)
    ensures
        match r {
            Some(i) => {
                &&& i < addrs@.len()
                &&& addrs@[i as int] == Some(ip)
                &&& forall|j: int| 0 <= j < i ==> #[trigger] addrs@[j] != Some(ip)
            },
            None => forall|j: int| 0 <= j < addrs@.len() ==> #[trigger] addrs@[j] != Some(ip),
        },
{
    let mut i: usize = 0;
    while i < addrs.len()
        invariant
            i <= addrs@.len(),
            forall|j: int| 0 <= j < i ==> #[trigger] addrs@[j] != Some(ip),
        decreases addrs@.len() - i,
    {
        if let Some(a) = addrs[i] {
            if a == ip {
                return Some(i);
            }
        }
        i = i + 1;
    }
    None
}

/// Answers are waited for as long as was asked for from the first time that the sender is found to
/// be done, and that time does not move any more.
pub proof fn late_answers_have_their_time(
    r: Receiver,
    asked: Receiver,
    now: u128,
    later: u128,
    cooldown: u128,
)
    requires
        r.cooldown_until is None,
        now + cooldown <= u128::MAX,
        asked.cooldown_until == Some(r.deadline(now, cooldown)),
    ensures
        r.deadline(now, cooldown) == now + cooldown,
        asked.deadline(later, cooldown) == now + cooldown,
{
}

} // verus!
