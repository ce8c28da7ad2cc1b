//! What the packets of a SYN scan say, byte by byte: where each field of a probe stands, and which
//! packets answer one.

use vstd::prelude::*;

use crate::syn::{
    answers_probe, be16, be32, carried, cookie_spec, fold_spec, ip_header, long_at, pseudo_sum,
    scan_secret_spec, syn_packet, tcp_at, tcp_header, word, word_sum, Target,
};

verus! {

/// The number that two bytes of `s` write, most significant first.
pub open spec fn num16(s: Seq<u8>, at: int) -> int {
    s[at] * 256 + s[at + 1]
}

/// The number that four bytes of `s` write, most significant first.
pub open spec fn num32(s: Seq<u8>, at: int) -> int {
    num16(s, at) * 65536 + num16(s, at + 2)
}

/// The sum of the ten numbers that twenty bytes of `s` write.
pub open spec fn sum_of_ten(s: Seq<u8>, at: int) -> int {
    num16(s, at) + num16(s, at + 2) + num16(s, at + 4) + num16(s, at + 6) + num16(s, at + 8) + num16(
        s,
        at + 10,
    ) + num16(s, at + 12) + num16(s, at + 14) + num16(s, at + 16) + num16(s, at + 18)
}

/// Numbers are written with their most significant byte first.
pub proof fn numbers_are_big_endian(x: u16, y: u32)
    ensures
        be16(x).len() == 2 && num16(be16(x), 0) == x,
        be32(y).len() == 4 && num32(be32(y), 0) == y,
{
}

proof fn lemma_ip_fields(src: u32, dst: u32, id: u16, sum: u16)
    ensures
        ({
            let h = ip_header(src, dst, id, sum);
            &&& h.len() == 20
            &&& h[0] == 0x45 && h[1] == 0 && num16(h, 2) == 40 && num16(h, 4) == id && num16(h, 6) == 0
            &&& h[8] == 64 && h[9] == 6
            &&& num32(h, 12) == src && num32(h, 16) == dst
        }),
{
}

proof fn lemma_tcp_fields(src_port: u16, dst_port: u16, seq_no: u32, sum: u16)
    ensures
        ({
            let h = tcp_header(src_port, dst_port, seq_no, sum);
            &&& h.len() == 20
            &&& num16(h, 0) == src_port && num16(h, 2) == dst_port
            &&& num32(h, 4) == seq_no && num32(h, 8) == 0
            &&& h[12] == 0x50 && h[13] == 0x02 && num16(h, 14) == 65535 && num16(h, 18) == 0
        }),
{
}

proof fn lemma_headers_joined(ip: Seq<u8>, tcp: Seq<u8>)
    requires
        ip.len() == 20,
        tcp.len() == 20,
    ensures
        ({
            let p = ip + tcp;
            &&& p.len() == 40
            &&& p[0] == ip[0] && p[1] == ip[1] && p[8] == ip[8] && p[9] == ip[9]
            &&& num16(p, 2) == num16(ip, 2) && num16(p, 4) == num16(ip, 4) && num16(p, 6) == num16(ip, 6)
            &&& num32(p, 12) == num32(ip, 12) && num32(p, 16) == num32(ip, 16)
            &&& num16(p, 20) == num16(tcp, 0) && num16(p, 22) == num16(tcp, 2)
            &&& num32(p, 24) == num32(tcp, 4) && num32(p, 28) == num32(tcp, 8)
            &&& p[32] == tcp[12] && p[33] == tcp[13]
            &&& num16(p, 34) == num16(tcp, 14) && num16(p, 38) == num16(tcp, 18)
        }),
{
}

/// The fields of a probe: a TCP SYN without options in an IPv4 packet without options.
pub proof fn probe_is_laid_out(
    src_ip: u32,
    dst_ip: u32,
    src_port: u16,
    dst_port: u16,
    seq_no: u32,
    ip_id: u16,
)
    ensures
        ({
            let p = syn_packet(src_ip, dst_ip, src_port, dst_port, seq_no, ip_id);
            &&& p.len() == 40
            // version and header length, length of all, identification, fragment
            &&& p[0] == 0x45 && p[1] == 0 && num16(p, 2) == 40 && num16(p, 4) == ip_id && num16(p, 6) == 0
            // time to live, protocol
            &&& p[8] == 64 && p[9] == 6
            &&& num32(p, 12) == src_ip && num32(p, 16) == dst_ip
            &&& num16(p, 20) == src_port && num16(p, 22) == dst_port
            &&& num32(p, 24) == seq_no && num32(p, 28) == 0
            // header length, flags, window, urgent
            &&& p[32] == 0x50 && p[33] == 0x02 && num16(p, 34) == 65535 && num16(p, 38) == 0
        }),
{
    let ip_sum = fold_spec(word_sum(ip_header(src_ip, dst_ip, ip_id, 0)));
    let tcp_sum = fold_spec(pseudo_sum(src_ip, dst_ip, tcp_header(src_port, dst_port, seq_no, 0)));
    lemma_ip_fields(src_ip, dst_ip, ip_id, ip_sum);
    lemma_tcp_fields(src_port, dst_port, seq_no, tcp_sum);
    lemma_headers_joined(
        ip_header(src_ip, dst_ip, ip_id, ip_sum),
        tcp_header(src_port, dst_port, seq_no, tcp_sum),
    );
}

proof fn lemma_ten_words(s: Seq<u8>)
    requires
        s.len() == 20,
    ensures
        word_sum(s) == sum_of_ten(s, 0),
{
    reveal_with_fuel(word_sum, 11);
}

proof fn lemma_folds_to_zero(sum: nat)
    requires
        fold_spec(sum) == 0,
    ensures
        sum % 0xffff == 0,
    decreases sum,
{
    lemma_carried_rest(sum);
}

proof fn lemma_carried_rest(sum: nat)
    ensures
        carried(sum) % 0xffff == sum % 0xffff,
        carried(sum) <= 0xffff,
    decreases sum,
{
    if sum > 0xffff {
        let next = sum % 0x1_0000 + sum / 0x1_0000;
        lemma_carried_rest(next);
        assert(sum == next + 0xffff * (sum / 0x1_0000));
        vstd::arithmetic::div_mod::lemma_mod_multiples_vanish((sum / 0x1_0000) as int, next as int, 0xffff);
    }
}

proof fn lemma_sums(p: Seq<u8>, src_ip: u32, dst_ip: u32)
    requires
        p.len() == 40,
        num16(p, 12) == src_ip / 0x1_0000 && num16(p, 14) == src_ip % 0x1_0000,
        num16(p, 16) == dst_ip / 0x1_0000 && num16(p, 18) == dst_ip % 0x1_0000,
        fold_spec(word_sum(p.subrange(0, 20))) == 0,
        fold_spec(pseudo_sum(src_ip, dst_ip, p.subrange(20, 40))) == 0,
    ensures
        sum_of_ten(p, 0) % 0xffff == 0,
        (num16(p, 12) + num16(p, 14) + num16(p, 16) + num16(p, 18) + 6 + 20 + sum_of_ten(p, 20)) % 0xffff
            == 0,
{
    let (ip, tcp) = (p.subrange(0, 20), p.subrange(20, 40));
    lemma_ten_words(ip);
    lemma_ten_words(tcp);
    lemma_folds_to_zero(word_sum(ip));
    lemma_folds_to_zero(pseudo_sum(src_ip, dst_ip, tcp));
    assert(sum_of_ten(ip, 0) == sum_of_ten(p, 0));
    assert(sum_of_ten(tcp, 0) == sum_of_ten(p, 20));
}

proof fn lemma_halves(s: Seq<u8>, at: int, x: u32)
    requires
        num32(s, at) == x,
        0 <= num16(s, at + 2) < 0x1_0000,
    ensures
        num16(s, at) == x / 0x1_0000,
        num16(s, at + 2) == x % 0x1_0000,
{
}

/// The checksums of a probe are right: what each one covers, the checksum with it, adds up to
/// nothing in the arithmetic of checksums. The second covers the addresses, the protocol and the
/// length of the segment too.
pub proof fn probe_checksums_are_right(
    src_ip: u32,
    dst_ip: u32,
    src_port: u16,
    dst_port: u16,
    seq_no: u32,
    ip_id: u16,
)
    ensures
        ({
            let p = syn_packet(src_ip, dst_ip, src_port, dst_port, seq_no, ip_id);
            &&& sum_of_ten(p, 0) % 0xffff == 0
            &&& (num16(p, 12) + num16(p, 14) + num16(p, 16) + num16(p, 18) + 6 + 20 + sum_of_ten(p, 20))
                % 0xffff == 0
        }),
{
    let p = syn_packet(src_ip, dst_ip, src_port, dst_port, seq_no, ip_id);
    crate::syn::syn_checksums_verify(src_ip, dst_ip, src_port, dst_port, seq_no, ip_id);
    probe_is_laid_out(src_ip, dst_ip, src_port, dst_port, seq_no, ip_id);
    lemma_halves(p, 12, src_ip);
    lemma_halves(p, 16, dst_ip);
    lemma_sums(p, src_ip, dst_ip);
}

/// A TCP segment in an IPv4 packet, field by field.
pub struct TcpPacket {
    pub tos: u8,
    pub length: u16,
    pub id: u16,
    /// Three flags and the place of a fragment, in units of eight bytes.
    pub fragment: u16,
    pub ttl: u8,
    pub protocol: u8,
    pub ip_sum: u16,
    pub src_ip: u32,
    pub dst_ip: u32,
    pub ip_options: Seq<u8>,
    pub src_port: u16,
    pub dst_port: u16,
    pub seq_no: u32,
    pub ack_no: u32,
    /// Four bits that mean nothing yet.
    pub reserved: u8,
    pub flags: u8,
    pub window: u16,
    pub tcp_sum: u16,
    pub urgent: u16,
    pub tcp_options: Seq<u8>,
    pub payload: Seq<u8>,
}

impl TcpPacket {
    /// The options fill whole words, and the header lengths can be written.
    pub open spec fn wf(self) -> bool {
        &&& self.ip_options.len() % 4 == 0 && self.ip_options.len() <= 40
        &&& self.tcp_options.len() % 4 == 0 && self.tcp_options.len() <= 40
        &&& self.reserved < 16
    }

    pub open spec fn ip_part(self) -> Seq<u8> {
        seq![(0x45 + self.ip_options.len() / 4) as u8, self.tos] + be16(self.length) + be16(self.id)
            + be16(self.fragment) + seq![self.ttl, self.protocol] + be16(self.ip_sum) + be32(
            self.src_ip,
        ) + be32(self.dst_ip)
    }

    pub open spec fn tcp_part(self) -> Seq<u8> {
        be16(self.src_port) + be16(self.dst_port) + be32(self.seq_no) + be32(self.ack_no) + seq![
            (0x50 + self.tcp_options.len() / 4 * 16 + self.reserved) as u8,
            self.flags,
        ] + be16(self.window) + be16(self.tcp_sum) + be16(self.urgent)
    }

    /// The bytes up to where the payload begins.
    pub open spec fn headers(self) -> Seq<u8> {
        self.ip_part() + self.ip_options + self.tcp_part() + self.tcp_options
    }

    pub open spec fn bytes(self) -> Seq<u8> {
        self.headers() + self.payload
    }

    /// A SYN and an acknowledgement and no reset, not a fragment.
    pub open spec fn accepts_connection(self) -> bool {
        &&& self.protocol == 6
        &&& self.fragment % 0x2000 == 0
        &&& self.flags & 0x02 != 0
        &&& self.flags & 0x10 != 0
        &&& self.flags & 0x04 == 0
    }
}

proof fn lemma_first_byte(k: u8)
    requires
        k <= 10,
    ensures
        ((0x45 + k) as u8) >> 4 == 4,
        ((0x45 + k) as u8) & 0x0f == 5 + k,
{
    let b = (0x45 + k) as u8;
    assert(b >> 4 == 4 && b & 0x0f == b - 0x40) by (bit_vector)
        requires
            0x45 <= b <= 0x4f,
    ;
}

proof fn lemma_offset_byte(k: u8, reserved: u8)
    requires
        k <= 10,
        reserved < 16,
    ensures
        ((0x50 + k * 16 + reserved) as u8) >> 4 == 5 + k,
{
    let b = (0x50 + k * 16 + reserved) as u8;
    assert(b >> 4 == b / 16) by (bit_vector);
}

proof fn lemma_flags(f: u8)
    ensures
        (f & 0x12 == 0x12) == (f & 0x02 != 0 && f & 0x10 != 0),
{
    assert((f & 0x12 == 0x12) == (f & 0x02 != 0 && f & 0x10 != 0)) by (bit_vector);
}

proof fn lemma_ip_part(p: TcpPacket)
    requires
        p.wf(),
    ensures
        p.ip_part().len() == 20,
        p.ip_part()[0] == (0x45 + p.ip_options.len() / 4) as u8,
        p.ip_part()[9] == p.protocol,
        word(p.ip_part()[6], p.ip_part()[7]) == p.fragment,
        long_at(p.ip_part(), 12) == p.src_ip,
{
}

proof fn lemma_tcp_part(p: TcpPacket)
    requires
        p.wf(),
    ensures
        p.tcp_part().len() == 20,
        word(p.tcp_part()[0], p.tcp_part()[1]) == p.src_port,
        word(p.tcp_part()[2], p.tcp_part()[3]) == p.dst_port,
        long_at(p.tcp_part(), 8) == p.ack_no,
        p.tcp_part()[12] == (0x50 + p.tcp_options.len() / 4 * 16 + p.reserved) as u8,
        p.tcp_part()[13] == p.flags,
{
}

/// Where two headers of twenty bytes are found among options and payload.
proof fn lemma_placed(ip: Seq<u8>, o: Seq<u8>, tcp: Seq<u8>, rest: Seq<u8>, n: int)
    requires
        ip.len() == 20,
        tcp.len() == 20,
        40 + o.len() <= n <= 40 + o.len() + rest.len(),
    ensures
        forall|i: int| 0 <= i < 20 ==> #[trigger] (ip + o + tcp + rest).take(n)[i] == ip[i],
        forall|i: int| 0 <= i < 20 ==> (ip + o + tcp + rest).take(n)[20 + o.len() + i] == #[trigger] tcp[i],
{
}

/// Where the fields of a packet are found in its bytes.
proof fn lemma_fields(p: TcpPacket, n: int)
    requires
        p.wf(),
        40 + p.ip_options.len() <= n <= p.bytes().len(),
    ensures
        ({
            let b = p.bytes().take(n);
            let t = 20 + p.ip_options.len() as int;
            &&& tcp_at(b) == t
            &&& b[0] >> 4 == 4
            &&& b[9] == p.protocol
            &&& word(b[6], b[7]) == p.fragment
            &&& long_at(b, 12) == p.src_ip
            &&& word(b[t], b[t + 1]) == p.src_port
            &&& word(b[t + 2], b[t + 3]) == p.dst_port
            &&& long_at(b, t + 8) == p.ack_no
            &&& (b[t + 12] >> 4) * 4 == 20 + p.tcp_options.len()
            &&& b[t + 13] == p.flags
        }),
{
    lemma_ip_part(p);
    lemma_tcp_part(p);
    let rest = p.tcp_options + p.payload;
    lemma_bytes(p, rest);
    lemma_found(p.ip_part(), p.ip_options, p.tcp_part(), rest, n, p);
}

proof fn lemma_bytes(p: TcpPacket, rest: Seq<u8>)
    requires
        rest == p.tcp_options + p.payload,
    ensures
        p.bytes() == p.ip_part() + p.ip_options + p.tcp_part() + rest,
{
    assert(p.bytes() =~= p.ip_part() + p.ip_options + p.tcp_part() + rest);
}

proof fn lemma_found(ip: Seq<u8>, o: Seq<u8>, tcp: Seq<u8>, rest: Seq<u8>, n: int, p: TcpPacket)
    requires
        p.wf(),
        o == p.ip_options,
        40 + o.len() <= n <= 40 + o.len() + rest.len(),
        ip.len() == 20,
        ip[0] == (0x45 + p.ip_options.len() / 4) as u8,
        ip[9] == p.protocol,
        word(ip[6], ip[7]) == p.fragment,
        long_at(ip, 12) == p.src_ip,
        tcp.len() == 20,
        word(tcp[0], tcp[1]) == p.src_port,
        word(tcp[2], tcp[3]) == p.dst_port,
        long_at(tcp, 8) == p.ack_no,
        tcp[12] == (0x50 + p.tcp_options.len() / 4 * 16 + p.reserved) as u8,
        tcp[13] == p.flags,
    ensures
        ({
            let b = (ip + o + tcp + rest).take(n);
            let t = 20 + o.len() as int;
            &&& tcp_at(b) == t
            &&& b[0] >> 4 == 4
            &&& b[9] == p.protocol
            &&& word(b[6], b[7]) == p.fragment
            &&& long_at(b, 12) == p.src_ip
            &&& word(b[t], b[t + 1]) == p.src_port
            &&& word(b[t + 2], b[t + 3]) == p.dst_port
            &&& long_at(b, t + 8) == p.ack_no
            &&& (b[t + 12] >> 4) * 4 == 20 + p.tcp_options.len()
            &&& b[t + 13] == p.flags
        }),
{
    let b = (ip + o + tcp + rest).take(n);
    let t = 20 + o.len() as int;
    lemma_placed(ip, o, tcp, rest, n);
    lemma_first_byte((p.ip_options.len() / 4) as u8);
    lemma_offset_byte((p.tcp_options.len() / 4) as u8, p.reserved);
    assert(b[0] == ip[0] && b[6] == ip[6] && b[7] == ip[7] && b[9] == ip[9]);
    assert(b[12] == ip[12] && b[13] == ip[13] && b[14] == ip[14] && b[15] == ip[15]);
    assert(b[t + 0] == tcp[0] && b[t + 1] == tcp[1] && b[t + 2] == tcp[2] && b[t + 3] == tcp[3]);
    assert(b[t + 8] == tcp[8] && b[t + 9] == tcp[9] && b[t + 10] == tcp[10] && b[t + 11] == tcp[11]);
    assert(b[t + 12] == tcp[12] && b[t + 13] == tcp[13]);
}

proof fn lemma_answers(
    b: Seq<u8>,
    p: TcpPacket,
    from: Target,
    our_port: u16,
    secret: u32,
    ports: Seq<u16>,
)
    requires
        b.len() >= 40 + p.ip_options.len() + p.tcp_options.len(),
        ({
            let t = 20 + p.ip_options.len() as int;
            &&& tcp_at(b) == t
            &&& b[0] >> 4 == 4
            &&& b[9] == p.protocol
            &&& word(b[6], b[7]) == p.fragment
            &&& long_at(b, 12) == p.src_ip
            &&& word(b[t], b[t + 1]) == p.src_port
            &&& word(b[t + 2], b[t + 3]) == p.dst_port
            &&& long_at(b, t + 8) == p.ack_no
            &&& (b[t + 12] >> 4) * 4 == 20 + p.tcp_options.len()
            &&& b[t + 13] == p.flags
        }),
    ensures
        answers_probe(b, from, our_port, secret, ports) <==> {
            &&& p.accepts_connection()
            &&& p.src_ip == from.ip && p.src_port == from.port
            &&& p.dst_port == our_port
            &&& p.ack_no == (cookie_spec(p.src_ip, p.src_port, secret) + 1) % 0x1_0000_0000
            &&& ports.contains(p.src_port)
        },
{
    lemma_flags(p.flags);
    let c = cookie_spec(from.ip, from.port, secret);
    assert(c.wrapping_add(1) == (c + 1) % 0x1_0000_0000);
}

/// Which packets answer a probe, whatever options, payload and other fields they have: those that
/// accept a connection from our port and acknowledge the byte behind the cookie of their sender,
/// which has a port that is scanned. They answer for their sender.
pub proof fn syn_acks_answer_probes(p: TcpPacket, from: Target, our_port: u16, secret: u32, ports: Seq<u16>)
    requires
        p.wf(),
    ensures
        answers_probe(p.bytes(), from, our_port, secret, ports) <==> {
            &&& p.accepts_connection()
            &&& p.src_ip == from.ip && p.src_port == from.port
            &&& p.dst_port == our_port
            &&& p.ack_no == (cookie_spec(p.src_ip, p.src_port, secret) + 1) % 0x1_0000_0000
            &&& ports.contains(p.src_port)
        },
{
    let n = p.bytes().len() as int;
    assert(p.bytes().take(n) =~= p.bytes());
    lemma_fields(p, n);
    lemma_answers(p.bytes(), p, from, our_port, secret, ports);
}

/// A packet that breaks off before its headers end answers no probe.
pub proof fn cut_packets_answer_nothing(
    p: TcpPacket,
    n: int,
    from: Target,
    our_port: u16,
    secret: u32,
    ports: Seq<u16>,
)
    requires
        p.wf(),
        0 <= n < p.headers().len(),
    ensures
        !answers_probe(p.bytes().take(n), from, our_port, secret, ports),
{
    let b = p.bytes().take(n);
    if n >= 40 {
        let k = (p.ip_options.len() / 4) as u8;
        lemma_first_byte(k);
        assert(b[0] == p.ip_part()[0]);
        if n >= 40 + p.ip_options.len() {
            lemma_fields(p, n);
        }
    }
}

/// What is no IPv4 packet, or claims a header that is too short, answers no probe.
pub proof fn other_packets_answer_nothing(
    pkt: Seq<u8>,
    from: Target,
    our_port: u16,
    secret: u32,
    ports: Seq<u16>,
)
    requires
        pkt.len() > 0,
        pkt[0] < 0x45 || pkt[0] >= 0x50,
    ensures
        !answers_probe(pkt, from, our_port, secret, ports),
{
    let b = pkt[0];
    assert(b >> 4 != 4 || b & 0x0f < 5) by (bit_vector)
        requires
            b < 0x45 || b >= 0x50,
    ;
}

/// The host that a probe goes to is recognised by its answer: any packet that accepts the
/// connection, from the place that the probe went to, to the place that it came from, and that
/// acknowledges the probe's sequence number.
pub proof fn answer_to_a_probe_is_recognised(
    p: TcpPacket,
    to: Target,
    src_ip: u32,
    our_port: u16,
    secret: u32,
    ip_id: u16,
    ports: Seq<u16>,
)
    requires
        p.wf(),
        p.accepts_connection(),
        ports.contains(to.port),
        ({
            let probe = syn_packet(
                src_ip,
                to.ip,
                our_port,
                to.port,
                cookie_spec(to.ip, to.port, secret),
                ip_id,
            );
            &&& p.src_ip == num32(probe, 16) && p.src_port == num16(probe, 22)
            &&& p.dst_port == num16(probe, 20)
            &&& p.ack_no == (num32(probe, 24) + 1) % 0x1_0000_0000
        }),
    ensures
        answers_probe(p.bytes(), to, our_port, secret, ports),
{
    probe_is_laid_out(src_ip, to.ip, our_port, to.port, cookie_spec(to.ip, to.port, secret), ip_id);
    syn_acks_answer_probes(p, to, our_port, secret, ports);
}

/// The secret of a scan tells the low half of its seed, so that scans with different seeds take no
/// answers to each other's probes.
pub proof fn secrets_differ_with_their_seeds(a: u64, b: u64, t: Target)
    ensures
        scan_secret_spec(a) == scan_secret_spec(b) <==> a % 0x1_0000_0000 == b % 0x1_0000_0000,
        a % 0x1_0000_0000 != b % 0x1_0000_0000 ==> cookie_spec(t.ip, t.port, scan_secret_spec(a))
            != cookie_spec(t.ip, t.port, scan_secret_spec(b)),
{
    let (x, y) = ((a % 0x1_0000_0000) as u32, (b % 0x1_0000_0000) as u32);
    assert((x ^ 0xA5A5_5A5Au32 == y ^ 0xA5A5_5A5Au32) == (x == y)) by (bit_vector);
    crate::syn::cookie_is_injective(
        t.ip,
        t.ip,
        t.port,
        t.port,
        scan_secret_spec(a),
        scan_secret_spec(b),
    );
}

} // verus!
