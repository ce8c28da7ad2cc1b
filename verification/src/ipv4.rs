//! IPv4 addresses as dotted quads.

use vstd::prelude::*;
use vstd::string::*;

use crate::num::{
    dec, digits_spec, lemma_dec_digits, lemma_dec_reads_back, parse_unsigned, push_dec,
};
use crate::text::{lemma_split_at, lemma_split_whole, split, split_spec, views, Sep};

verus! {

/// The four bytes of an address, most significant first.
pub open spec fn octet(ip: u32, i: int) -> nat {
    if i == 0 {
        (ip / 0x100_0000) as nat
    } else if i == 1 {
        (ip / 0x1_0000 % 0x100) as nat
    } else if i == 2 {
        (ip / 0x100 % 0x100) as nat
    } else {
        (ip % 0x100) as nat
    }
}

/// The address with the given bytes.
pub open spec fn join_octets(a: nat, b: nat, c: nat, d: nat) -> nat {
    a * 0x100_0000 + b * 0x1_0000 + c * 0x100 + d
}

/// An address as a dotted quad.
pub open spec fn quad_text(ip: u32) -> Seq<char> {
    dec(octet(ip, 0)).push('.') + (dec(octet(ip, 1)).push('.') + (dec(octet(ip, 2)).push('.') + dec(
        octet(ip, 3),
    )))
}

/// One part of a dotted quad: a number up to 255 in decimal digits without leading zeros.
pub open spec fn octet_spec(s: Seq<char>) -> Option<nat> {
    if s.len() == 0 || (s.len() > 1 && s[0] == '0') {
        None
    } else {
        match digits_spec(s, 10, 255) {
            Ok(v) => Some(v),
            Err(_) => None,
        }
    }
}

/// The address that a dotted quad writes.
pub open spec fn quad_spec(s: Seq<char>) -> Option<nat> {
    let p = split_spec(s, Sep::Char('.'));
    if p.len() != 4 {
        None
    } else {
        match (octet_spec(p[0]), octet_spec(p[1]), octet_spec(p[2]), octet_spec(p[3])) {
            (Some(a), Some(b), Some(c), Some(d)) => Some(join_octets(a, b, c, d)),
            _ => None,
        }
    }
}

fn parse_octet(s: &[char]) -> (r: Option<u32>)
    ensures
        match r {
            Some(v) => octet_spec(s@) == Some(v as nat) && v <= 255,
            None => octet_spec(s@) is None,
        },
{
    if s.len() == 0 || (s.len() > 1 && s[0] == '0') {
        return None;
    }
    if s[0] == '+' || s[0] == '-' {
        proof {
            assert(digits_spec(s@.take(1).drop_last(), 10, 255) is Ok);
            assert(s@.take(1).last() == s@[0]);
            crate::num::lemma_digits_prefix_err(s@, 1, 10, 255);
        }
        return None;
    }
    match parse_unsigned(s, 10, 255) {
        Ok(v) => Some(v as u32),
        Err(_) => None,
    }
}

/// Reads a dotted quad.
pub fn parse_ipv4(s: &[char]) -> (r: Option<u32>)
    ensures
        match r {
            Some(ip) => quad_spec(s@) == Some(ip as nat),
            None => quad_spec(s@) is None,
        },
{
    let parts: Vec<&[char]> = split(s, Sep::Char('.'));
    assert(views(parts@).len() == parts@.len());
    if parts.len() != 4 {
        return None;
    }
    assert(views(parts@)[0] == parts@[0]@ && views(parts@)[1] == parts@[1]@);
    assert(views(parts@)[2] == parts@[2]@ && views(parts@)[3] == parts@[3]@);
    match (parse_octet(parts[0]), parse_octet(parts[1]), parse_octet(parts[2]), parse_octet(parts[3])) {
        (Some(a), Some(b), Some(c), Some(d)) => Some(a * 0x100_0000 + b * 0x1_0000 + c * 0x100 + d),
        _ => None,
    }
}

/// Appends an address as a dotted quad.
pub fn push_ipv4(out: &mut String, ip: u32)
    ensures
        final(out)@ == old(out)@ + quad_text(ip),
{
    push_dec(out, (ip / 0x100_0000) as u64);
    out.push('.');
    push_dec(out, (ip / 0x1_0000 % 0x100) as u64);
    out.push('.');
    push_dec(out, (ip / 0x100 % 0x100) as u64);
    out.push('.');
    push_dec(out, (ip % 0x100) as u64);
    assert(out@ =~= old(out)@ + quad_text(ip));
}

/// An address as a dotted quad.
pub fn ipv4_text(ip: u32) -> (r: String)
    ensures
        r@ == quad_text(ip),
{
    let mut out: String = String::new();
    push_ipv4(&mut out, ip);
    assert(out@ =~= quad_text(ip));
    out
}

/// A number of at most 255, written in decimal, is one part of a dotted quad.
proof fn lemma_octet_reads_back(n: nat)
    requires
        n <= 255,
    ensures
        octet_spec(dec(n)) == Some(n),
        split_spec(dec(n), Sep::Char('.')) == seq![dec(n)],
{
    lemma_dec_reads_back(n, 255);
    lemma_dec_digits(n);
    reveal_with_fuel(dec, 4);
    lemma_split_whole(dec(n), Sep::Char('.'));
}

/// The parts of four texts without dots, joined by dots.
proof fn lemma_four_parts(a: Seq<char>, b: Seq<char>, c: Seq<char>, d: Seq<char>)
    requires
        split_spec(a, Sep::Char('.')) == seq![a],
        split_spec(b, Sep::Char('.')) == seq![b],
        split_spec(c, Sep::Char('.')) == seq![c],
        split_spec(d, Sep::Char('.')) == seq![d],
    ensures
        split_spec(a.push('.') + (b.push('.') + (c.push('.') + d)), Sep::Char('.')) == seq![a, b, c, d],
{
    let dot = Sep::Char('.');
    lemma_split_at(c, '.', d, dot);
    lemma_split_at(b, '.', c.push('.') + d, dot);
    lemma_split_at(a, '.', b.push('.') + (c.push('.') + d), dot);
    assert(seq![a] + (seq![b] + (seq![c] + seq![d])) =~= seq![a, b, c, d]);
}

proof fn lemma_octets_join(ip: u32)
    ensures
        join_octets(octet(ip, 0), octet(ip, 1), octet(ip, 2), octet(ip, 3)) == ip,
        octet(ip, 0) <= 255,
        octet(ip, 1) <= 255,
        octet(ip, 2) <= 255,
        octet(ip, 3) <= 255,
{
}

/// Reading the dotted quad of an address gives the address back.
pub proof fn quad_reads_back(ip: u32)
    ensures
        quad_spec(quad_text(ip)) == Some(ip as nat),
{
    lemma_octets_join(ip);
    lemma_octet_reads_back(octet(ip, 0));
    lemma_octet_reads_back(octet(ip, 1));
    lemma_octet_reads_back(octet(ip, 2));
    lemma_octet_reads_back(octet(ip, 3));
    lemma_four_parts(dec(octet(ip, 0)), dec(octet(ip, 1)), dec(octet(ip, 2)), dec(octet(ip, 3)));
}

} // verus!
