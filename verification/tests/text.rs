use mc_scan::num::{dec_text, parse_i32, parse_unsigned, push_hex, IntError};
use mc_scan::sort::merge_sort;
use mc_scan::text::{
    find_text, from_chars, is_whitespace, join, split, split_crlf, split_once, split_whitespace,
    starts_with, to_ascii_lowercase, to_chars, trim, Sep,
};

#[test]
fn white_space_is_what_the_standard_library_says() {
    for n in 0..=0x10ffffu32 {
        if let Some(c) = char::from_u32(n) {
            assert_eq!(is_whitespace(c), c.is_whitespace(), "{n:x}");
        }
    }
}

#[test]
fn texts_are_trimmed_and_split_as_in_the_standard_library() {
    for s in ["", " ", "a", " a b ", "a,b\tc", "\u{2003}x\u{a0}", "a\n\nb\n", "==", "a=b=c", "\r\n"] {
        let c = to_chars(s);
        assert_eq!(from_chars(&c), s);
        assert_eq!(from_chars(trim(&c)), s.trim());
        let mine: Vec<String> = split(&c, Sep::Char('\n')).into_iter().map(from_chars).collect();
        let std: Vec<String> = s.split('\n').map(|p| p.to_string()).collect();
        assert_eq!(mine, std);
        let mine: Vec<String> = split_whitespace(&c).into_iter().map(from_chars).collect();
        let std: Vec<String> = s.split_whitespace().map(|p| p.to_string()).collect();
        assert_eq!(mine, std);
        let mine: Vec<String> = split_crlf(&c).into_iter().map(from_chars).collect();
        let std: Vec<String> = s.split("\r\n").map(|p| p.to_string()).collect();
        assert_eq!(mine, std);
        let mine = split_once(&c, '=').map(|(a, b)| (from_chars(a), from_chars(b)));
        let std = s.split_once('=').map(|(a, b)| (a.to_string(), b.to_string()));
        assert_eq!(mine, std);
        assert_eq!(starts_with(&c, 'a'), s.starts_with('a'));
    }
}

#[test]
fn texts_are_found_lowered_and_joined() {
    let hay = to_chars("abcabc");
    assert_eq!(find_text(&hay, &to_chars("ca")), Some(2));
    assert_eq!(find_text(&hay, &to_chars("")), Some(0));
    assert_eq!(find_text(&hay, &to_chars("abcabcd")), None);
    assert_eq!(find_text(&hay, &to_chars("cc")), None);
    let s = "AbZ\u{c9}@[`{";
    assert_eq!(from_chars(&to_ascii_lowercase(&to_chars(s))), s.to_ascii_lowercase());
    let parts: Vec<String> = vec!["a".to_string(), "".to_string(), "b".to_string()];
    assert_eq!(join(&parts, ", "), "a, , b");
    assert_eq!(join(&[], ", "), "");
}

fn std_error(s: &str) -> Result<u64, String> {
    s.parse::<u64>().map_err(|e| e.to_string())
}

#[test]
fn numbers_are_read_as_in_the_standard_library() {
    for s in [
        "", "0", "+0", "-0", "-1", "+", "-", "18446744073709551615", "18446744073709551616",
        "1x", " 1", "007", "++1", "1234567890123456789012345",
    ] {
        let mine = parse_unsigned(&to_chars(s), 10, u64::MAX).map_err(|e| e.message().to_string());
        assert_eq!(mine, std_error(s), "{s}");
        let mine = parse_unsigned(&to_chars(s), 10, 0xffff).map_err(|e| e.message().to_string());
        let std = s.parse::<u16>().map(u64::from).map_err(|e| e.to_string());
        assert_eq!(mine, std, "{s}");
    }
    for s in ["0", "-0", "+5", "-5", "2147483647", "2147483648", "-2147483648", "-2147483649", "-", "", "x"] {
        let mine = parse_i32(&to_chars(s)).map_err(|e| e.message().to_string());
        let std = s.parse::<i32>().map_err(|e| e.to_string());
        assert_eq!(mine, std, "{s}");
    }
    for s in ["ff", "FF", "+f", "g", "ffffffffffffffff", "10000000000000000", ""] {
        let mine = parse_unsigned(&to_chars(s), 16, u64::MAX).map_err(|e| e.message().to_string());
        let std = u64::from_str_radix(s, 16).map_err(|e| e.to_string());
        assert_eq!(mine, std, "{s}");
    }
    assert_eq!(parse_i32(&to_chars("-2147483649")), Err(IntError::TooSmall));
}

#[test]
fn numbers_are_written() {
    for n in [0u64, 9, 10, 12345, u64::MAX] {
        assert_eq!(dec_text(n), n.to_string());
        let mut s = "x".to_string();
        push_hex(&mut s, n, 16);
        assert_eq!(s, format!("x{n:016x}"));
    }
}

#[test]
fn merge_sort_sorts() {
    assert_eq!(merge_sort(vec![3u16, 1, 2, 1]), vec![1, 1, 2, 3]);
    assert_eq!(merge_sort(Vec::<u16>::new()), Vec::<u16>::new());
    assert_eq!(merge_sort(vec![(2u32, 1u32), (1, 9), (1, 2)]), vec![(1, 2), (1, 9), (2, 1)]);
    let words: Vec<Vec<u8>> = vec![b"b".to_vec(), b"ab".to_vec(), b"a".to_vec(), b"".to_vec()];
    let mut want = words.clone();
    want.sort();
    assert_eq!(merge_sort(words), want);
}
