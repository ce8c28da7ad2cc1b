//! IPv6 addresses as text.

use vstd::prelude::*;
use vstd::slice::slice_subrange;
use vstd::string::*;

use crate::ipv4::{parse_ipv4, quad_spec};
use crate::num::{
    digit_spec, hex_digits, lemma_hex_reads_back, parse_unsigned, pow16, unsigned_spec,
};
use crate::text::{
    find_text, find_text_spec, lemma_split_at, lemma_split_nonempty, lemma_split_whole, split,
    split_spec, text_at, text_is_found_first, to_chars, views, Sep,
};

verus! {

/// The number that up to four hexadecimal digits write.
pub open spec fn group_spec(s: Seq<char>) -> Option<u16> {
    if 1 <= s.len() <= 4 && s[0] != '+' {
        match unsigned_spec(s, 16, 0xffff) {
            Ok(v) => Some(v as u16),
            Err(_) => None,
        }
    } else {
        None
    }
}

/// The numbers that the pieces write, when each of them writes one.
pub open spec fn groups_spec(pieces: Seq<Seq<char>>) -> Option<Seq<u16>>
    decreases pieces.len(),
{
    if pieces.len() == 0 {
        Some(Seq::empty())
    } else {
        match (groups_spec(pieces.drop_last()), group_spec(pieces.last())) {
            (Some(front), Some(g)) => Some(front.push(g)),
            _ => None,
        }
    }
}

/// The two groups that hold an IPv4 address.
pub open spec fn quad_groups(ip: nat) -> Seq<u16> {
    seq![(ip / 0x1_0000) as u16, (ip % 0x1_0000) as u16]
}

/// The groups of a text with colons between them. With `quad` the last piece may be a dotted quad,
/// which stands for two groups.
pub open spec fn part_spec(s: Seq<char>, quad: bool) -> Option<Seq<u16>> {
    if s.len() == 0 {
        Some(Seq::empty())
    } else {
        let pieces = split_spec(s, Sep::Char(':'));
        if quad && quad_spec(pieces.last()) is Some {
            match groups_spec(pieces.drop_last()) {
                Some(front) => Some(front + quad_groups(quad_spec(pieces.last())->0)),
                None => None,
            }
        } else {
            groups_spec(pieces)
        }
    }
}

/// `n` groups of zeros.
pub open spec fn zero_groups(n: int) -> Seq<u16> {
    Seq::new(n as nat, |i: int| 0u16)
}

/// The eight groups of an address. A double colon stands for the groups of zeros, at least one,
/// that are missing.
pub open spec fn address_groups(s: Seq<char>) -> Option<Seq<u16>> {
    match find_text_spec(s, "::"@) {
        None => match part_spec(s, true) {
            Some(g) => if g.len() == 8 {
                Some(g)
            } else {
                None
            },
            None => None,
        },
        Some(p) => match (part_spec(s.take(p as int), false), part_spec(s.skip(p + 2 as int), true)) {
            (Some(head), Some(tail)) => if head.len() + tail.len() <= 7 {
                Some(head + zero_groups(8 - head.len() - tail.len()) + tail)
            } else {
                None
            },
            _ => None,
        },
    }
}

/// The 64-bit number that four groups write.
pub open spec fn half(g: Seq<u16>, at: int) -> int {
    g[at] * 0x1_0000_0000_0000 + g[at + 1] * 0x1_0000_0000 + g[at + 2] * 0x1_0000 + g[at + 3]
}

/// The 128-bit number that eight groups write.
pub open spec fn address_value(g: Seq<u16>) -> u128 {
    (half(g, 0) * 0x1_0000_0000_0000_0000 + half(g, 4)) as u128
}

/// The address that a text writes.
pub open spec fn ipv6_spec(s: Seq<char>) -> Option<u128> {
    match address_groups(s) {
        Some(g) => Some(address_value(g)),
        None => None,
    }
}

/// A list of groups, if there is one, as a sequence.
pub open spec fn groups_view(g: Option<Vec<u16>>) -> Option<Seq<u16>> {
    match g {
        Some(v) => Some(v@),
        None => None,
    }
}

proof fn lemma_groups_prefix_none(pieces: Seq<Seq<char>>, n: int)
    requires
        0 <= n <= pieces.len(),
        groups_spec(pieces.take(n)) is None,
    ensures
        groups_spec(pieces) is None,
    decreases pieces.len(),
{
    if n < pieces.len() {
        assert(pieces.drop_last().take(n) =~= pieces.take(n));
        lemma_groups_prefix_none(pieces.drop_last(), n);
    } else {
        assert(pieces.take(n) =~= pieces);
    }
}

fn parse_group(s: &[char]) -> (r: Option<u16>)
    ensures
        r == group_spec(s@),
{
    if s.len() == 0 || s.len() > 4 || s[0] == '+' {
        return None;
    }
    match parse_unsigned(s, 16, 0xffff) {
        Ok(v) => Some(v as u16),
        Err(_) => None,
    }
}

fn parse_groups(pieces: &[&[char]]) -> (r: Option<Vec<u16>>)
    ensures
        groups_view(r) == groups_spec(views(pieces@)),
{
    let ghost all = views(pieces@);
    let mut out: Vec<u16> = Vec::new();
    let mut i: usize = 0;
    while i < pieces.len()
        invariant
            i <= pieces@.len(),
            all == views(pieces@),
            groups_spec(all.take(i as int)) == Some(out@),
        decreases pieces@.len() - i,
    {
        assert(all.take(i + 1).drop_last() =~= all.take(i as int));
        assert(all.take(i + 1).last() == pieces@[i as int]@);
        match parse_group(pieces[i]) {
            Some(g) => {
                out.push(g);
            },
            None => {
                proof {
                    lemma_groups_prefix_none(all, i + 1);
                }
                return None;
            },
        }
        i = i + 1;
    }
    assert(all.take(i as int) =~= all);
    Some(out)
}

fn parse_part(s: &[char], quad: bool) -> (r: Option<Vec<u16>>)
    ensures
        groups_view(r) == part_spec(s@, quad),
{
    if s.len() == 0 {
        let none: Vec<u16> = Vec::new();
        assert(none@ =~= Seq::empty());
        return Some(none);
    }
    let pieces: Vec<&[char]> = split(s, Sep::Char(':'));
    let ghost all = views(pieces@);
    proof {
        lemma_split_nonempty(s@, Sep::Char(':'));
        assert(all.len() == pieces@.len());
        assert(all.last() == pieces@[pieces@.len() - 1]@);
    }
    let last: usize = pieces.len() - 1;
    if quad {
        if let Some(ip) = parse_ipv4(pieces[last]) {
            let front: &[&[char]] = slice_subrange(pieces.as_slice(), 0, last);
            assert(views(front@) =~= all.drop_last());
            return match parse_groups(front) {
                Some(g) => {
                    let mut out: Vec<u16> = g;
                    let ghost before = out@;
                    out.push((ip / 0x1_0000) as u16);
                    out.push((ip % 0x1_0000) as u16);
                    assert(out@ =~= before + quad_groups(ip as nat));
                    Some(out)
                },
                None => None,
            };
        }
    }
    parse_groups(pieces.as_slice())
}

fn parse_address_groups(s: &[char]) -> (r: Option<Vec<u16>>)
    ensures
        groups_view(r) == address_groups(s@),
        r matches Some(g) ==> g@.len() == 8,
{
    proof {
        reveal_strlit("::");
    }
    let size: usize = s.len();
    let mark: Vec<char> = to_chars("::");
    let Some(p) = find_text(s, mark.as_slice()) else {
        return match parse_part(s, true) {
            Some(g) => if g.len() == 8 {
                Some(g)
            } else {
                None
            },
            None => None,
        };
    };
    assert(s@.subrange(0, p as int) =~= s@.take(p as int));
    assert(s@.subrange(p + 2, s@.len() as int) =~= s@.skip(p + 2));
    let Some(head) = parse_part(slice_subrange(s, 0, p), false) else {
        return None;
    };
    let Some(tail) = parse_part(slice_subrange(s, p + 2, size), true) else {
        return None;
    };
    if head.len() > 7 || tail.len() > 7 - head.len() {
        return None;
    }
    let missing: usize = 8 - head.len() - tail.len();
    let ghost h = head@;
    let mut out: Vec<u16> = head;
    let mut i: usize = 0;
    assert(out@ =~= h + zero_groups(0));
    while i < missing
        invariant
            i <= missing,
            out@ == h + zero_groups(i as int),
        decreases missing - i,
    {
        out.push(0);
        i = i + 1;
        assert(out@ =~= h + zero_groups(i as int));
    }
    let ghost front = out@;
    out.extend_from_slice(tail.as_slice());
    assert(out@ =~= front + tail@);
    Some(out)
}

fn half_of(g: &[u16], at: usize) -> (r: u64)
    requires
        at + 4 <= g@.len(),
    ensures
        r == half(g@, at as int),
{
    let size: usize = g.len();
    g[at] as u64 * 0x1_0000_0000_0000 + g[at + 1] as u64 * 0x1_0000_0000 + g[at + 2] as u64 * 0x1_0000
        + g[at + 3] as u64
}

/// The address that a text writes.
pub fn parse_ipv6(s: &[char]) -> (r: Option<u128>)
    ensures
        r == ipv6_spec(s@),
{
    match parse_address_groups(s) {
        Some(g) => {
            let high: u64 = half_of(g.as_slice(), 0);
            let low: u64 = half_of(g.as_slice(), 4);
            Some(high as u128 * 0x1_0000_0000_0000_0000 + low as u128)
        },
        None => None,
    }
}

/// Groups in four hexadecimal digits each, with colons between them.
pub open spec fn colon_text(g: Seq<u16>) -> Seq<char>
    decreases g.len(),
{
    if g.len() == 0 {
        Seq::empty()
    } else if g.len() == 1 {
        hex_digits(g[0] as nat, 4)
    } else {
        colon_text(g.drop_last()).push(':') + hex_digits(g.last() as nat, 4)
    }
}

proof fn lemma_hex_group(x: u16)
    ensures
        ({
            let h = hex_digits(x as nat, 4);
            &&& h.len() == 4
            &&& group_spec(h) == Some(x)
            &&& quad_spec(h) is None
            &&& split_spec(h, Sep::Char(':')) == seq![h]
            &&& forall|i: int| 0 <= i < 4 ==> #[trigger] h[i] != ':'
        }),
{
    let h = hex_digits(x as nat, 4);
    assert(pow16(4) == 0x1_0000nat) by {
        reveal_with_fuel(pow16, 5);
    }
    lemma_hex_reads_back(x as nat, 4, 0xffff);
    assert forall|i: int| 0 <= i < 4 implies #[trigger] h[i] != ':' && h[i] != '.' && h[i] != '+' by {
        assert(digit_spec(h[i], 16) is Some);
    }
    assert(h[0] != '+');
    assert forall|i: int| 0 <= i < h.len() implies !Sep::Char(':').cuts(#[trigger] h[i]) by {}
    assert forall|i: int| 0 <= i < h.len() implies !Sep::Char('.').cuts(#[trigger] h[i]) by {}
    lemma_split_whole(h, Sep::Char(':'));
    lemma_split_whole(h, Sep::Char('.'));
}

/// The text begins and ends with no colon, and no two of its colons touch.
spec fn lone_colons(s: Seq<char>) -> bool {
    &&& s.len() > 0 ==> s[0] != ':' && s.last() != ':'
    &&& forall|i: int| 0 <= i < s.len() - 1 && #[trigger] s[i] == ':' ==> s[i + 1] != ':'
}

proof fn lemma_colon_text(g: Seq<u16>)
    requires
        g.len() > 0,
    ensures
        lone_colons(colon_text(g)),
        colon_text(g).len() > 0,
        groups_spec(split_spec(colon_text(g), Sep::Char(':'))) == Some(g),
        quad_spec(split_spec(colon_text(g), Sep::Char(':')).last()) is None,
    decreases g.len(),
{
    let colon = Sep::Char(':');
    let h = hex_digits(g.last() as nat, 4);
    lemma_hex_group(g.last());
    if g.len() == 1 {
        assert(seq![h].drop_last() =~= Seq::empty());
        assert(groups_spec(seq![h].drop_last()) == Some(Seq::<u16>::empty()));
        assert(Seq::<u16>::empty().push(g[0]) =~= g);
        assert forall|i: int| 0 <= i < h.len() - 1 && #[trigger] h[i] == ':' implies h[i + 1] != ':' by {}
        assert(h[0] != ':' && h[3] != ':');
    } else {
        let front = g.drop_last();
        lemma_colon_text(front);
        let f = colon_text(front);
        let s = f.push(':') + h;
        lemma_split_at(f, ':', h, colon);
        let pieces = split_spec(f, colon);
        assert((pieces + seq![h]).drop_last() =~= pieces);
        assert(front.push(g.last()) =~= g);
        assert(h[0] != ':' && h[3] != ':');
        assert forall|i: int| 0 <= i < s.len() - 1 && #[trigger] s[i] == ':' implies s[i + 1] != ':' by {
            if i < f.len() {
                assert(s[i] == f[i]);
                if i < f.len() - 1 {
                    assert(s[i + 1] == f[i + 1]);
                }
            } else if i == f.len() {
                assert(s[i + 1] == h[0]);
            } else {
                assert(s[i] == h[i - f.len() - 1]);
            }
        }
        assert(s[0] == f[0] && s.last() == h[3]);
    }
}

proof fn lemma_part_of(g: Seq<u16>, quad: bool)
    ensures
        part_spec(colon_text(g), quad) == Some(g),
{
    if g.len() == 0 {
        assert(g =~= Seq::empty());
    } else {
        lemma_colon_text(g);
    }
}

/// An address is read from its eight groups; of these any that are zero and stand together may be
/// left out for a double colon.
pub proof fn addresses_are_read(g: Seq<u16>, a: Seq<u16>, b: Seq<u16>)
    requires
        g.len() == 8,
        a.len() + b.len() <= 7,
    ensures
        ipv6_spec(colon_text(g)) == Some(address_value(g)),
        ipv6_spec(colon_text(a) + "::"@ + colon_text(b)) == Some(
            address_value(a + zero_groups(8 - a.len() - b.len()) + b),
        ),
        address_value(g) == ((((((g[0] * 0x1_0000 + g[1]) * 0x1_0000 + g[2]) * 0x1_0000 + g[3]) * 0x1_0000
            + g[4]) * 0x1_0000 + g[5]) * 0x1_0000 + g[6]) * 0x1_0000 + g[7],
{
    reveal_strlit("::");
    let two = "::"@;
    let s = colon_text(g);
    lemma_part_of(g, true);
    lemma_colon_text(g);
    text_is_found_first(s, two, 0);
    if let Some(p) = find_text_spec(s, two) {
        let p = p as int;
        assert(s.subrange(p, p + 2)[0] == s[p] && s.subrange(p, p + 2)[1] == s[p + 1]);
        assert(two[0] == ':' && two[1] == ':');
    }
    let (x, y) = (colon_text(a), colon_text(b));
    let t = x + two + y;
    let n = x.len() as int;
    lemma_part_of(a, false);
    lemma_part_of(b, true);
    if a.len() > 0 {
        lemma_colon_text(a);
    }
    text_is_found_first(t, two, 0);
    assert(t.subrange(n, n + 2) =~= two);
    assert(text_at(t, two, n));
    if let Some(p) = find_text_spec(t, two) {
        if p < n {
            let p = p as int;
            assert(t.subrange(p, p + 2)[0] == x[p]);
            assert(x[p] == ':');
            if p < n - 1 {
                assert(t.subrange(p, p + 2)[1] == x[p + 1]);
            }
        }
    }
    assert(t.take(n) =~= x && t.skip(n + 2) =~= y);
}

} // verus!
