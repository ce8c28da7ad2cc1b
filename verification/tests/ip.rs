use mc_scan::ip::{
    job_fingerprint, merge, parse_cidr, parse_cidrs, parse_exclude_text, permute_n, pick_stride,
    reserved_ranges, subtract, AddrSpace, CidrError, SpaceError, Window,
};
use mc_scan::ipv4::{ipv4_text, parse_ipv4};
use mc_scan::modular::gcd;
use mc_scan::num::IntError;

fn addr(a: u32, b: u32, c: u32, d: u32) -> u32 {
    (a << 24) | (b << 16) | (c << 8) | d
}

fn space_of(ranges: &[&str], extra: &[Window], no_reserved: bool) -> Result<AddrSpace, SpaceError> {
    let ranges: Vec<String> = ranges.iter().map(|r| r.to_string()).collect();
    AddrSpace::from_cidrs(&ranges, extra, no_reserved)
}

fn built(r: Result<AddrSpace, SpaceError>) -> AddrSpace {
    match r {
        Ok(space) => space,
        Err(e) => panic!("{}", e.full_message()),
    }
}

fn refused(r: Result<AddrSpace, SpaceError>) -> SpaceError {
    match r {
        Ok(_) => panic!("expected empty space"),
        Err(e) => e,
    }
}

#[test]
fn cidr_slash32() {
    assert_eq!(parse_cidr("1.2.3.4").unwrap(), parse_cidr("1.2.3.4/32").unwrap());
}

#[test]
fn cidr_slash8() {
    let (a, b) = parse_cidr("10.0.0.0/8").unwrap();
    assert_eq!(a, addr(10, 0, 0, 0));
    assert_eq!(b, addr(10, 255, 255, 255));
}

#[test]
fn default_space_skips_rfc1918_and_multicast() {
    let space = built(AddrSpace::from_cidrs(&[], &[], true));
    assert_eq!(space.nth(0), addr(1, 0, 0, 0));
    let ten = addr(10, 0, 0, 0);
    for i in [0, space.total / 2, space.total - 1] {
        let ip = space.nth(i);
        assert!(!(0x0A00_0000..=0x0AFF_FFFF).contains(&ip), "hit 10/8");
        assert!(ip < 0xE000_0000, "hit multicast/reserved");
        assert_ne!(ip, ten);
    }
    assert!(space.total > 3_000_000_000);
    assert!(space.total < 4_000_000_000);
    assert_eq!(space.nth(space.total - 1), addr(223, 255, 255, 255));
}

#[test]
fn permutor_visits_every_address_once() {
    let space = built(AddrSpace::new(vec![(10, 19)]));
    let stride = space.stride(0xC0FFEE);
    let mut seen = [false; 10];
    for n in 0..space.total {
        let ip = space.nth(permute_n(n, stride, space.total));
        assert!((10..=19).contains(&ip));
        seen[(ip - 10) as usize] = true;
    }
    assert!(seen.iter().all(|&x| x));
}

#[test]
fn subtract_middle() {
    let got = subtract(&[(0, 9)], &[(3, 5)]);
    assert_eq!(got, vec![(0, 2), (6, 9)]);
}

#[test]
fn explicit_range_still_drops_rfc1918() {
    let space = built(space_of(&["8.0.0.0/6"], &[], true));
    let ten = addr(10, 0, 0, 0);
    let ten_end = addr(10, 255, 255, 255);
    for i in [0, space.total / 2, space.total - 1] {
        let ip = space.nth(i);
        assert!(!(ten..=ten_end).contains(&ip), "hit 10/8 inside 8.0.0.0/6");
    }
    assert_eq!(space.total, (1u64 << 26) - (1u64 << 24));
}

#[test]
fn private_range_needs_include_reserved() {
    let err = refused(space_of(&["10.0.0.0/8"], &[], true));
    assert!(err.message().contains("include-reserved"));
    let space = built(space_of(&["10.0.0.0/8"], &[], false));
    assert_eq!(space.total, 1u64 << 24);
}

#[test]
fn extra_excludes_punch_a_hole() {
    let space = built(space_of(
        &["10.0.0.0/8"],
        &[parse_cidr("10.1.0.0/16").unwrap()],
        false,
    ));
    assert_eq!(space.total, (1u64 << 24) - (1u64 << 16));
    for i in [0, space.total / 2, space.total - 1] {
        let ip = space.nth(i);
        assert!(
            !(0x0A01_0000..=0x0A01_FFFF).contains(&ip),
            "hit excluded 10.1.0.0/16"
        );
    }
}

#[test]
fn exclude_text_skips_comments() {
    let got = parse_exclude_text("# bogons\n10.0.0.0/8\n; skip\n127.0.0.1\n").unwrap();
    assert_eq!(got[0], parse_cidr("10.0.0.0/8").unwrap());
    assert_eq!(got[1], parse_cidr("127.0.0.1").unwrap());
}

#[test]
fn exclude_text_takes_the_first_word() {
    let got = parse_exclude_text("\r\n 1.2.3.4/31   a note\r\n").unwrap();
    assert_eq!(got, vec![(addr(1, 2, 3, 4), addr(1, 2, 3, 5))]);
    assert_eq!(parse_exclude_text("").unwrap(), vec![]);
}

#[test]
fn exclude_text_names_the_bad_line() {
    let err = parse_exclude_text("10.0.0.0/8\n\nnonsense here\n").unwrap_err();
    assert_eq!(err.line, 3);
    assert_eq!(err.word, "nonsense");
    assert_eq!(err.cause, CidrError::Address);
    assert_eq!(
        err.full_message(),
        "exclude line 3: nonsense: invalid IPv4 address syntax"
    );
}

#[test]
fn cidr_edges() {
    assert_eq!(parse_cidr("0.0.0.0/0"), Ok((0, u32::MAX)));
    assert_eq!(parse_cidr(" 10.1.2.3/8 "), Ok((addr(10, 0, 0, 0), addr(10, 255, 255, 255))));
    assert_eq!(parse_cidr("255.255.255.255"), Ok((u32::MAX, u32::MAX)));
    assert_eq!(parse_cidr("1.2.3.4/31"), Ok((addr(1, 2, 3, 4), addr(1, 2, 3, 5))));
}

#[test]
fn cidr_errors() {
    assert_eq!(parse_cidr("1.2.3"), Err(CidrError::Address));
    assert_eq!(parse_cidr("1.2.3.256"), Err(CidrError::Address));
    assert_eq!(parse_cidr("1.2.3.04"), Err(CidrError::Address));
    assert_eq!(parse_cidr(""), Err(CidrError::Address));
    assert_eq!(parse_cidr("1.2.3.4/"), Err(CidrError::Prefix(IntError::Empty)));
    assert_eq!(parse_cidr("1.2.3.4/x"), Err(CidrError::Prefix(IntError::InvalidDigit)));
    assert_eq!(
        parse_cidr("1.2.3.4/99999999999"),
        Err(CidrError::Prefix(IntError::TooLarge))
    );
    assert_eq!(parse_cidr("1.2.3.4/33"), Err(CidrError::PrefixTooLong(33)));
    assert_eq!(CidrError::PrefixTooLong(33).message(), "prefix 33 is invalid");
    assert_eq!(CidrError::Address.message(), "invalid IPv4 address syntax");
    assert_eq!(
        CidrError::Prefix(IntError::Empty).message(),
        "cannot parse integer from empty string"
    );
}

#[test]
fn only_plain_quads_are_addresses() {
    let read = |s: &str| {
        let chars: Vec<char> = s.chars().collect();
        parse_ipv4(&chars)
    };
    assert_eq!(read("0.0.0.0"), Some(0));
    assert_eq!(read("255.255.255.255"), Some(u32::MAX));
    assert_eq!(read("10.20.30.40"), Some(addr(10, 20, 30, 40)));
    for s in [
        "01.2.3.4", "1.2.3.4.", ".1.2.3", "1..2.3", "1.2.3.4.5", "1.2.3.a", "+1.2.3.4",
        "256.1.1.1", "1.2.3.4 ", "0.0.0.00", "1.2.3.0000", "-1.2.3.4", "１.2.3.4", "",
    ] {
        assert_eq!(read(s), None, "{s}");
    }
}

#[test]
fn dotted_quads_read_back() {
    for ip in [0u32, 1, 0x0102_0304, 0x7f00_0001, 0xc0a8_0001, u32::MAX] {
        let text = ipv4_text(ip);
        let chars: Vec<char> = text.chars().collect();
        assert_eq!(parse_ipv4(&chars), Some(ip));
    }
    assert_eq!(ipv4_text(0xc0a8_0001), "192.168.0.1");
}

#[test]
fn a_bad_range_is_named_first() {
    let ranges: Vec<String> = vec!["1.2.3.4".to_string(), "x".to_string(), "1.2.3.4/40".to_string()];
    assert_eq!(parse_cidrs(&ranges), Err(CidrError::Address));
    assert_eq!(
        refused(AddrSpace::from_cidrs(&ranges, &[], true)),
        SpaceError::Cidr(CidrError::Address)
    );
}

#[test]
fn an_empty_space_is_refused() {
    assert_eq!(refused(AddrSpace::new(vec![])), SpaceError::Empty);
    assert_eq!(refused(AddrSpace::new(vec![(5, 4)])), SpaceError::Empty);
    assert_eq!(SpaceError::Empty.message(), "address space is empty");
    let err = refused(space_of(&["1.2.3.4"], &[(0, u32::MAX)], false));
    assert_eq!(err, SpaceError::NothingLeft { reserved: false });
    assert_eq!(err.full_message(), "address space is empty: address space is empty");
    let err = refused(space_of(&["127.0.0.1"], &[], true));
    assert_eq!(
        err.full_message(),
        "address space is empty after subtracting reserved/bogon ranges; pass --include-reserved to scan them: address space is empty"
    );
}

#[test]
fn merge_joins_what_touches() {
    assert_eq!(merge(vec![(5, 9), (0, 4), (11, 12)]), vec![(0, 9), (11, 12)]);
    assert_eq!(merge(vec![(0, 9), (2, 3)]), vec![(0, 9)]);
    assert_eq!(merge(vec![(7, u32::MAX), (0, u32::MAX)]), vec![(0, u32::MAX)]);
    assert_eq!(merge(vec![]), vec![]);
}

#[test]
fn subtract_at_the_ends() {
    assert_eq!(subtract(&[(0, u32::MAX)], &[(0, 0), (u32::MAX, u32::MAX)]), vec![(1, u32::MAX - 1)]);
    assert_eq!(subtract(&[(3, 5)], &[(0, 9)]), vec![]);
    assert_eq!(subtract(&[(0, 2), (6, 9)], &[]), vec![(0, 2), (6, 9)]);
    assert_eq!(subtract(&[(0, 9)], &[(0, 1), (4, 4), (9, 20)]), vec![(2, 3), (5, 8)]);
}

#[test]
fn merge_and_subtract_keep_the_right_addresses() {
    let v: Vec<Window> = vec![(3, 8), (20, 25), (7, 12), (26, 26), (40, 39)];
    let ex: Vec<Window> = merge(vec![(5, 6), (11, 21)]);
    let within = |ws: &[Window], x: u32| ws.iter().any(|w| w.0 <= x && x <= w.1);
    let merged = merge(v.clone());
    let left = subtract(&merged, &ex);
    for x in 0..60 {
        assert_eq!(within(&merged, x), within(&v, x));
        assert_eq!(within(&left, x), within(&v, x) && !within(&ex, x));
    }
}

#[test]
fn reserved_blocks_are_the_named_ones() {
    let named = [
        "0.0.0.0/8", "10.0.0.0/8", "100.64.0.0/10", "127.0.0.0/8", "169.254.0.0/16",
        "172.16.0.0/12", "192.0.0.0/24", "192.0.2.0/24", "192.31.196.0/24", "192.52.193.0/24",
        "192.88.99.0/24", "192.168.0.0/16", "192.175.48.0/24", "198.18.0.0/15",
        "198.51.100.0/24", "203.0.113.0/24", "224.0.0.0/4", "240.0.0.0/4",
    ];
    let blocks: Vec<Window> = named.iter().map(|c| parse_cidr(c).unwrap()).collect();
    assert_eq!(reserved_ranges(), merge(blocks));
}

#[test]
fn nth_walks_the_windows_in_order() {
    let space = built(AddrSpace::new(vec![(100, 101), (5, 6), (50, 50)]));
    assert_eq!(space.total, 5);
    let all: Vec<u32> = (0..5).map(|n| space.nth(n)).collect();
    assert_eq!(all, vec![5, 6, 50, 100, 101]);
    let copy = space.clone();
    assert_eq!(copy.nth(4), 101);
}

#[test]
fn shuffle_has_exact_values() {
    assert_eq!(pick_stride(10, 0xC0FFEE), 7);
    assert_eq!(pick_stride(3702258432, 42), 2585530229);
    assert_eq!(pick_stride(8, 7), 3);
    assert_eq!(pick_stride(1, 99), 1);
    assert_eq!(pick_stride(0, 99), 1);
    let steps: Vec<u64> = (0..8).map(|n| permute_n(n, 3, 8)).collect();
    assert_eq!(steps, vec![3, 6, 1, 4, 7, 2, 5, 0]);
    assert_eq!(permute_n(0, 1, 1), 0);
    assert_eq!(gcd(84, 36), 12);
    assert_eq!(gcd(0, 5), 5);
}

#[test]
fn ip_at_step_visits_each_address_once() {
    let space = built(space_of(&["1.2.3.0/28", "9.9.9.9"], &[], true));
    let stride = space.stride(12345);
    let mut seen: Vec<u32> = (0..space.total).map(|n| space.ip_at_step(n, stride)).collect();
    seen.sort();
    let all: Vec<u32> = (0..space.total).map(|n| space.nth(n)).collect();
    assert_eq!(seen, all);
    assert_eq!(all.len(), 17);
}

#[test]
fn fingerprint_has_exact_values() {
    let a: Vec<String> = vec!["10.0.0.0/8".to_string(), "1.2.3.4".to_string()];
    let b: Vec<String> = vec!["1.2.3.4".to_string(), "10.0.0.0/8".to_string()];
    let h = job_fingerprint(&a, &[(5, 9)], &[25565, 80], true, 1000);
    assert_eq!(h, 0x5270_bc53_c370_9c53);
    assert_eq!(job_fingerprint(&b, &[(5, 9)], &[25565, 80], true, 1000), h);
    assert_ne!(job_fingerprint(&a, &[(5, 9)], &[25565, 80], false, 1000), h);
    assert_ne!(job_fingerprint(&a, &[(5, 9)], &[25565], true, 1000), h);
    assert_ne!(job_fingerprint(&a, &[(5, 8)], &[25565, 80], true, 1000), h);
    assert_ne!(job_fingerprint(&a, &[(5, 9)], &[25565, 80], true, 1001), h);
}

#[test]
fn a_block_holds_the_addresses_with_its_prefix() {
    for pfx in 0..=32u32 {
        let (a, b) = parse_cidr(&format!("172.20.99.201/{pfx}")).unwrap();
        let ip = addr(172, 20, 99, 201);
        for x in [0, 1, a.wrapping_sub(1), a, ip, b, b.wrapping_add(1), 0x8000_0000, u32::MAX] {
            let shift = 32 - pfx;
            let same = pfx == 0 || (x >> shift) == (ip >> shift);
            assert_eq!(a <= x && x <= b, same, "{pfx} {x:x}");
        }
    }
}

#[test]
fn the_same_addresses_have_the_same_windows() {
    let a = built(space_of(&["1.2.3.0/25", "1.2.3.128/25", "9.9.9.9"], &[], true));
    let b = built(space_of(&["9.9.9.9", "1.2.3.0/24", "1.2.3.77"], &[], true));
    assert_eq!(a.windows, b.windows);
    assert_eq!(a.prefix, b.prefix);
    assert_eq!(a.total, 257);
}

#[test]
fn two_runs_share_all_addresses() {
    let space = built(space_of(&["1.2.3.0/28"], &[], true));
    let stride = space.stride(5);
    for cursor in 0..=space.total {
        let first: Vec<u32> = (0..cursor).map(|n| space.ip_at_step(n, stride)).collect();
        let second: Vec<u32> = (cursor..space.total).map(|n| space.ip_at_step(n, stride)).collect();
        for n in 0..space.total {
            let x = space.nth(n);
            assert_ne!(first.contains(&x), second.contains(&x));
        }
    }
}

#[test]
fn the_reserved_flag_changes_the_fingerprint() {
    for total in [0, 1, u64::MAX] {
        let on = job_fingerprint(&[], &[], &[], true, total);
        assert_ne!(on, job_fingerprint(&[], &[], &[], false, total));
    }
}

#[test]
fn what_is_left_stands_apart() {
    let inc = merge(vec![(0, 100), (200, 300), (302, 400)]);
    let ex = merge(vec![(50, 250), (301, 301), (350, 350)]);
    let left = subtract(&inc, &ex);
    assert_eq!(left, vec![(0, 49), (251, 300), (302, 349), (351, 400)]);
    assert_eq!(merge(left.clone()), left);
}

#[test]
fn steps_go_round_the_space() {
    let space = AddrSpace::new(vec![(10, 14), (20, 24)]).unwrap();
    for stride in [0, 1, 3, 7, 10, u64::MAX] {
        for n in 0..10 {
            assert_eq!(space.ip_at_step(n + 10, stride), space.ip_at_step(n, stride));
        }
    }
    assert_eq!(space.ip_at_step(12, 3), 24);
    assert_eq!(space.ip_at_step(u64::MAX - 1, 1), 20);
    let one = AddrSpace::new(vec![(7, 7)]).unwrap();
    assert_eq!(one.ip_at_step(u64::MAX, 5), 7);
}
