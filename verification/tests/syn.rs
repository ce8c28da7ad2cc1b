use mc_scan::ip::AddrSpace;
use mc_scan::syn::{
    after_recv_error, after_send_error, checksum_add, contains_port, cookie, fold,
    interface_with, internet_checksum, parse_syn_ack, queue_is_full, queued_bytes, scan_secret, tcp_checksum,
    write_syn, IoKind, Receiver, Retry, SynSender, Target, DEFAULT_SRC_PORT, TX_SOFT_LIMIT,
};

#[test]
fn checksums_verify() {
    let mut buf = [0u8; 40];
    write_syn(&mut buf, 0xC0A8_0001, 0x0808_0808, 41234, 25565, 0x1111_2222, 7);
    assert_eq!(fold(checksum_add(&buf[..20])), 0);
    let src: u32 = 0xC0A8_0001;
    let dst: u32 = 0x0808_0808;
    let mut sum = 0u32;
    sum += src >> 16;
    sum += src & 0xffff;
    sum += dst >> 16;
    sum += dst & 0xffff;
    sum += 6;
    sum += 20;
    sum += checksum_add(&buf[20..40]);
    assert_eq!(fold(sum), 0);
}

fn syn_ack(ip: u32, port: u16, our_port: u16, secret: u32) -> [u8; 40] {
    let mut buf = [0u8; 40];
    write_syn(&mut buf, 0xC0A8_0001, ip, our_port, port, cookie(ip, port, secret), 1);
    // synthesize a SYN-ACK: swap ports, set SYN+ACK, ack=seq+1
    let mut pkt = [0u8; 40];
    pkt[..20].copy_from_slice(&buf[..20]);
    pkt[12..16].copy_from_slice(&ip.to_be_bytes());
    pkt[16..20].copy_from_slice(&0xC0A8_0001u32.to_be_bytes());
    pkt[20..22].copy_from_slice(&port.to_be_bytes());
    pkt[22..24].copy_from_slice(&our_port.to_be_bytes());
    pkt[24..28].copy_from_slice(&0u32.to_be_bytes());
    pkt[28..32].copy_from_slice(&cookie(ip, port, secret).wrapping_add(1).to_be_bytes());
    pkt[32] = 0x50;
    pkt[33] = 0x12;
    pkt
}

#[test]
fn cookie_roundtrip() {
    let ip = 0x0102_0304;
    let port = 25565;
    let secret = 0xAABB_CCDD;
    let pkt = syn_ack(ip, port, 41234, secret);
    let hit = parse_syn_ack(&pkt, 41234, secret, &[25565]).unwrap();
    assert_eq!(hit.ip, ip);
    assert_eq!(hit.port, 25565);
}

#[test]
fn cookie_has_exact_values() {
    assert_eq!(cookie(0x0102_0304, 25565, 0xAABB_CCDD), 0x11f4_7a1f);
    assert_eq!(scan_secret(0x1234_5678_0000_00ff), 0xA5A5_5AA5);
    assert_eq!(DEFAULT_SRC_PORT, 41234);
}

#[test]
fn syn_has_exact_bytes() {
    let mut buf = [0xEEu8; 40];
    write_syn(&mut buf, 0xC0A8_0001, 0x0808_0808, 41234, 25565, 0x1111_2222, 7);
    assert_eq!(
        buf,
        [
            69, 0, 0, 40, 0, 7, 0, 0, 64, 6, 170, 16, 192, 168, 0, 1, 8, 8, 8, 8, 161, 18, 99, 221,
            17, 17, 34, 34, 0, 0, 0, 0, 80, 2, 255, 255, 167, 6, 0, 0
        ]
    );
    assert_eq!(tcp_checksum(0xC0A8_0001, 0x0808_0808, &buf[20..40]), 0);
}

#[test]
fn checksum_of_odd_bytes() {
    assert_eq!(checksum_add(&[0x12, 0x34, 0x56]), 0x1234 + 0x5600);
    assert_eq!(checksum_add(&[]), 0);
    assert_eq!(internet_checksum(&[0, 1, 0xff, 0xff]), 0xfffe);
    assert_eq!(fold(0x1_0000), 0xfffe);
    assert_eq!(fold(0), 0xffff);
}

#[test]
fn only_matching_answers_count() {
    let secret = 7;
    let good = syn_ack(0x0102_0304, 25565, 41234, secret);
    let ports = [25565u16];
    assert!(parse_syn_ack(&good, 41234, secret, &ports).is_some());
    assert!(parse_syn_ack(&good, 41235, secret, &ports).is_none());
    assert!(parse_syn_ack(&good, 41234, 8, &ports).is_none());
    assert!(parse_syn_ack(&good, 41234, secret, &[80]).is_none());
    assert!(parse_syn_ack(&good[..39], 41234, secret, &ports).is_none());
    let mut p = good;
    p[0] = 0x65;
    assert!(parse_syn_ack(&p, 41234, secret, &ports).is_none());
    p = good;
    p[0] = 0x44;
    assert!(parse_syn_ack(&p, 41234, secret, &ports).is_none());
    p = good;
    p[0] = 0x46;
    assert!(parse_syn_ack(&p, 41234, secret, &ports).is_none());
    p = good;
    p[9] = 17;
    assert!(parse_syn_ack(&p, 41234, secret, &ports).is_none());
    p = good;
    p[7] = 1;
    assert!(parse_syn_ack(&p, 41234, secret, &ports).is_none());
    p = good;
    p[6] = 0x40;
    assert!(parse_syn_ack(&p, 41234, secret, &ports).is_some());
    p = good;
    p[33] = 0x16;
    assert!(parse_syn_ack(&p, 41234, secret, &ports).is_none());
    p = good;
    p[33] = 0x10;
    assert!(parse_syn_ack(&p, 41234, secret, &ports).is_none());
    p = good;
    p[32] = 0x40;
    assert!(parse_syn_ack(&p, 41234, secret, &ports).is_none());
    p = good;
    p[32] = 0x60;
    assert!(parse_syn_ack(&p, 41234, secret, &ports).is_none());
    p = good;
    p[31] ^= 1;
    assert!(parse_syn_ack(&p, 41234, secret, &ports).is_none());
}

#[test]
fn options_in_the_ip_header_are_skipped() {
    let good = syn_ack(0x0102_0304, 25565, 41234, 7);
    let mut long: Vec<u8> = good[..20].to_vec();
    long[0] = 0x46;
    long.extend_from_slice(&[1, 1, 1, 1]);
    long.extend_from_slice(&good[20..]);
    let hit = parse_syn_ack(&long, 41234, 7, &[25565]).unwrap();
    assert_eq!(hit, Target { ip: 0x0102_0304, port: 25565 });
}

fn small_space() -> AddrSpace {
    match AddrSpace::new(vec![(10, 13)]) {
        Ok(space) => space,
        Err(_) => panic!("space"),
    }
}

#[test]
fn sender_probes_each_target_once() {
    let mut sender = SynSender::new(small_space(), vec![80, 25565], 1, 41234, 5, 99, 0);
    let mut seen = Vec::new();
    let mut id = 1u16;
    while let Some(p) = sender.next(true) {
        let mut want = [0u8; 40];
        write_syn(&mut want, 1, p.to.ip, 41234, p.to.port, cookie(p.to.ip, p.to.port, 5), id);
        assert_eq!(p.bytes, want);
        id += 1;
        seen.push((p.to.ip, p.to.port));
    }
    assert_eq!(seen.len(), 8);
    seen.sort();
    seen.dedup();
    assert_eq!(seen.len(), 8);
    assert_eq!(sender.step, 4);
}

#[test]
fn sender_begins_where_it_is_told() {
    let space = small_space();
    let stride = space.stride(99);
    let third = space.ip_at_step(2, stride);
    let mut sender = SynSender::new(small_space(), vec![80], 1, 41234, 5, 99, 2);
    assert_eq!(sender.next(true).unwrap().to, Target { ip: third, port: 80 });
    assert!(sender.next(true).is_some());
    assert!(sender.next(true).is_none());
}

#[test]
fn sender_stops_between_addresses() {
    let mut sender = SynSender::new(small_space(), vec![80, 81], 1, 41234, 5, 99, 0);
    assert!(sender.next(true).is_some());
    assert!(sender.next(false).is_some());
    assert!(sender.next(false).is_none());
    assert_eq!(sender.step, 1);
}

#[test]
fn receiver_takes_an_answer_once() {
    let mut rx = Receiver::new(41234, 7, vec![25565]);
    let pkt = syn_ack(0x0102_0304, 25565, 41234, 7);
    assert_eq!(rx.on_packet(&pkt), Some(Target { ip: 0x0102_0304, port: 25565 }));
    assert_eq!(rx.on_packet(&pkt), None);
    let other = syn_ack(0x0102_0305, 25565, 41234, 7);
    assert_eq!(rx.on_packet(&other), Some(Target { ip: 0x0102_0305, port: 25565 }));
    assert_eq!(rx.on_packet(&[0; 10]), None);
}

#[test]
fn receiver_waits_for_late_answers() {
    let mut rx = Receiver::new(41234, 7, vec![25565]);
    assert!(!rx.should_stop(false, true, 0, 100));
    assert!(!rx.should_stop(false, false, 0, 100));
    assert!(!rx.should_stop(true, true, 1000, 100));
    assert!(!rx.should_stop(true, true, 1099, 100));
    assert!(rx.should_stop(true, true, 1100, 100));
    let mut rx = Receiver::new(41234, 7, vec![25565]);
    assert!(rx.should_stop(true, false, 0, 100));
}

#[test]
fn failed_calls_are_repeated() {
    assert_eq!(after_send_error(IoKind::Interrupted), Retry::Now);
    assert_eq!(after_send_error(IoKind::WouldBlock), Retry::AfterMicros(200));
    assert_eq!(after_send_error(IoKind::NoBuffers), Retry::AfterMicros(1000));
    assert_eq!(after_send_error(IoKind::TimedOut), Retry::Fail);
    assert_eq!(after_send_error(IoKind::Other), Retry::Fail);
    for kind in [IoKind::Interrupted, IoKind::WouldBlock, IoKind::TimedOut] {
        assert_eq!(after_recv_error(kind), Retry::AfterMicros(200));
    }
    assert_eq!(after_recv_error(IoKind::Other), Retry::Fail);
    assert_eq!(after_recv_error(IoKind::NoBuffers), Retry::Fail);
}

#[test]
fn the_send_queue_is_watched() {
    assert_eq!(queued_bytes(0, 500), 500);
    assert_eq!(queued_bytes(0, -5), 0);
    assert_eq!(queued_bytes(-1, 500), 0);
    assert!(!queue_is_full(TX_SOFT_LIMIT));
    assert!(queue_is_full(TX_SOFT_LIMIT + 1));
    assert!(contains_port(&[1, 2], 2));
    assert!(!contains_port(&[], 2));
}

#[test]
fn the_first_interface_is_taken() {
    let addrs = [None, Some(5), Some(7), Some(5)];
    assert_eq!(interface_with(&addrs, 5), Some(1));
    assert_eq!(interface_with(&addrs, 7), Some(2));
    assert_eq!(interface_with(&addrs, 8), None);
    assert_eq!(interface_with(&[], 8), None);
}

#[test]
fn cookies_tell_targets_apart() {
    let mut seen = Vec::new();
    for n in 0..1000u32 {
        seen.push(cookie(n, 80, 7));
        seen.push(cookie(n.wrapping_neg().wrapping_sub(1), 80, 7));
    }
    seen.sort();
    seen.dedup();
    assert_eq!(seen.len(), 2000);
    let mut ports: Vec<u32> = (0..=u16::MAX).map(|p| cookie(1, p, 7)).collect();
    ports.sort();
    ports.dedup();
    assert_eq!(ports.len(), 65_536);
    assert_ne!(cookie(1, 80, 7), cookie(1, 80, 8));
}

#[test]
fn each_answering_target_is_handed_out_once() {
    let mut rx = Receiver::new(41234, 7, vec![80, 25565]);
    let mut pkts: Vec<Vec<u8>> = Vec::new();
    for round in 0..3u32 {
        for ip in 0..20u32 {
            for port in [80, 25565, 443] {
                let answered = (ip + u32::from(port) + round) % 2 == 0;
                let secret = if answered { 7 } else { 8 };
                pkts.push(syn_ack(ip, port, 41234, secret).to_vec());
            }
        }
    }
    let given: Vec<Target> = pkts.iter().filter_map(|p| rx.on_packet(p)).collect();
    assert_eq!(given.len(), 40);
    for ip in 0..20 {
        for port in [80, 25565] {
            let t = Target { ip, port };
            assert_eq!(given.iter().filter(|g| **g == t).count(), 1);
            assert!(rx.seen.contains(&(u64::from(ip) * 65_536 + u64::from(port))));
        }
    }
    assert_eq!(rx.seen.len(), 40);
}

#[test]
fn a_resumed_walk_probes_the_rest() {
    for cursor in 0..=small_space().total {
        let mut first = SynSender::new(small_space(), vec![80, 81], 1, 2, 3, 9, 0);
        let mut probed: Vec<(u32, u16)> = Vec::new();
        while first.step < cursor {
            let to = first.next(true).unwrap().to;
            probed.push((to.ip, to.port));
        }
        assert!(first.next(false).is_none());
        let mut second = SynSender::new(small_space(), vec![80, 81], 1, 2, 3, 9, first.step);
        while let Some(p) = second.next(true) {
            probed.push((p.to.ip, p.to.port));
        }
        let sent = probed.len();
        probed.sort();
        probed.dedup();
        assert_eq!(probed.len(), sent);
        assert_eq!(sent as u64, 2 * small_space().total);
    }
}
