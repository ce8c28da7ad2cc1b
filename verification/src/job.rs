//! What tells one scan job from another.

use vstd::prelude::*;
use vstd::string::*;
use vstd::utf8::encode_utf8;

use crate::ip::{
    count, hash_spec, job_bytes, le_bytes, lemma_hash_keeps_apart, port_bytes, range_bytes,
    sorted_ranges, terminated, window_bytes, Window,
};
use crate::modular::lemma_unit_multiplication;
use crate::scan::{
    extra_spec, finish_spec, job_spec, other_job_starts_fresh, ports_can_be_ordered,
    ports_in_order, resume_spec, ExcludeFile, FinishView, RunOpts, ScanConfig, StateFile,
};
use crate::sort::{order, TotalOrder};
use crate::state::render_spec;

verus! {

/// 256 to the power of `n`.
pub open spec fn pow256(n: nat) -> nat
    decreases n,
{
    if n == 0 {
        1
    } else {
        256 * pow256((n - 1) as nat)
    }
}

proof fn lemma_le_len(x: nat, n: nat)
    ensures
        le_bytes(x, n).len() == n,
    decreases n,
{
    if n > 0 {
        lemma_le_len(x / 256, (n - 1) as nat);
    }
}

/// The bytes of a number tell the number, as long as they can hold it.
pub proof fn bytes_tell_the_number(x: nat, y: nat, n: nat)
    requires
        le_bytes(x, n) == le_bytes(y, n),
        x < pow256(n),
        y < pow256(n),
    ensures
        x == y,
    decreases n,
{
    if n > 0 {
        let (p, q) = (le_bytes(x, n), le_bytes(y, n));
        let m = (n - 1) as nat;
        assert(p[0] == (x % 256) as u8 && q[0] == (y % 256) as u8);
        assert(p.skip(1) =~= le_bytes(x / 256, m));
        assert(q.skip(1) =~= le_bytes(y / 256, m));
        bytes_tell_the_number(x / 256, y / 256, m);
    }
}

proof fn lemma_pow256()
    ensures
        pow256(2) == 0x1_0000,
        pow256(4) == 0x1_0000_0000,
        pow256(8) == 0x1_0000_0000_0000_0000,
{
    reveal_with_fuel(pow256, 9);
}

proof fn lemma_window_bytes_len(ws: Seq<Window>)
    ensures
        window_bytes(ws).len() == 8 * ws.len(),
    decreases ws.len(),
{
    if ws.len() > 0 {
        lemma_window_bytes_len(ws.drop_last());
        lemma_le_len(ws.last().0 as nat, 4);
        lemma_le_len(ws.last().1 as nat, 4);
    }
}

/// The bytes of windows tell the windows.
pub proof fn bytes_tell_the_windows(a: Seq<Window>, b: Seq<Window>)
    requires
        window_bytes(a) == window_bytes(b),
    ensures
        a == b,
    decreases a.len(),
{
    lemma_window_bytes_len(a);
    lemma_window_bytes_len(b);
    if a.len() > 0 {
        let (p, q) = (window_bytes(a), window_bytes(b));
        let n = 8 * (a.len() - 1);
        lemma_window_bytes_len(a.drop_last());
        lemma_window_bytes_len(b.drop_last());
        lemma_le_len(a.last().0 as nat, 4);
        lemma_le_len(a.last().1 as nat, 4);
        lemma_le_len(b.last().0 as nat, 4);
        lemma_le_len(b.last().1 as nat, 4);
        assert(p.take(n) =~= window_bytes(a.drop_last()));
        assert(q.take(n) =~= window_bytes(b.drop_last()));
        bytes_tell_the_windows(a.drop_last(), b.drop_last());
        assert(p.subrange(n, n + 4) =~= le_bytes(a.last().0 as nat, 4));
        assert(q.subrange(n, n + 4) =~= le_bytes(b.last().0 as nat, 4));
        assert(p.subrange(n + 4, n + 8) =~= le_bytes(a.last().1 as nat, 4));
        assert(q.subrange(n + 4, n + 8) =~= le_bytes(b.last().1 as nat, 4));
        lemma_pow256();
        bytes_tell_the_number(a.last().0 as nat, b.last().0 as nat, 4);
        bytes_tell_the_number(a.last().1 as nat, b.last().1 as nat, 4);
        assert(a =~= a.drop_last().push(a.last()));
        assert(b =~= b.drop_last().push(b.last()));
    } else {
        assert(a =~= b);
    }
}

proof fn lemma_port_bytes_len(ports: Seq<u16>)
    ensures
        port_bytes(ports).len() == 2 * ports.len(),
    decreases ports.len(),
{
    if ports.len() > 0 {
        lemma_port_bytes_len(ports.drop_last());
        lemma_le_len(ports.last() as nat, 2);
    }
}

/// The bytes of ports tell the ports.
pub proof fn bytes_tell_the_ports(a: Seq<u16>, b: Seq<u16>)
    requires
        port_bytes(a) == port_bytes(b),
    ensures
        a == b,
    decreases a.len(),
{
    lemma_port_bytes_len(a);
    lemma_port_bytes_len(b);
    if a.len() > 0 {
        let (p, q) = (port_bytes(a), port_bytes(b));
        let n = 2 * (a.len() - 1);
        lemma_port_bytes_len(a.drop_last());
        lemma_port_bytes_len(b.drop_last());
        lemma_le_len(a.last() as nat, 2);
        lemma_le_len(b.last() as nat, 2);
        assert(p.take(n) =~= port_bytes(a.drop_last()));
        assert(q.take(n) =~= port_bytes(b.drop_last()));
        bytes_tell_the_ports(a.drop_last(), b.drop_last());
        assert(p.subrange(n, n + 2) =~= le_bytes(a.last() as nat, 2));
        assert(q.subrange(n, n + 2) =~= le_bytes(b.last() as nat, 2));
        lemma_pow256();
        bytes_tell_the_number(a.last() as nat, b.last() as nat, 2);
        assert(a =~= a.drop_last().push(a.last()));
        assert(b =~= b.drop_last().push(b.last()));
    } else {
        assert(a =~= b);
    }
}

/// There is no zero byte in any of the parts.
pub open spec fn no_zero(parts: Seq<Seq<u8>>) -> bool {
    forall|i: int, j: int| 0 <= i < parts.len() && 0 <= j < parts[i].len() ==> #[trigger] parts[i][j] != 0
}

proof fn lemma_last_part(a: Seq<Seq<u8>>, b: Seq<Seq<u8>>)
    requires
        a.len() > 0,
        b.len() > 0,
        no_zero(a),
        no_zero(b),
        terminated(a) == terminated(b),
    ensures
        b.last().len() <= a.last().len(),
{
    let t = terminated(a);
    let n = t.len() as int;
    if a.last().len() < b.last().len() {
        let k = n - 2 - a.last().len();
        let front = terminated(b.drop_last());
        assert(t[k] == b.last()[k - front.len()]);
        assert(b[b.len() - 1][k - front.len()] != 0);
        let lead = terminated(a.drop_last());
        if a.len() > 1 {
            assert(lead.last() == 0);
            assert(t[k] == lead[k]);
        }
    }
}

/// Parts in which there is no zero byte can be told from their bytes.
pub proof fn bytes_tell_the_parts(a: Seq<Seq<u8>>, b: Seq<Seq<u8>>)
    requires
        no_zero(a),
        no_zero(b),
        terminated(a) == terminated(b),
    ensures
        a == b,
    decreases a.len(),
{
    let t = terminated(a);
    if a.len() == 0 || b.len() == 0 {
        assert(a =~= b);
    } else {
        lemma_last_part(a, b);
        lemma_last_part(b, a);
        let n = t.len() - 1 - a.last().len();
        assert(t.take(n) =~= terminated(a.drop_last()));
        assert(t.take(n) =~= terminated(b.drop_last()));
        assert(t.subrange(n, t.len() - 1) =~= a.last());
        assert(t.subrange(n, t.len() - 1) =~= b.last());
        assert forall|i: int, j: int|
            0 <= i < a.drop_last().len() && 0 <= j < a.drop_last()[i].len() implies #[trigger] a.drop_last()[i][j]
            != 0 by {
            assert(a[i][j] != 0);
        }
        assert forall|i: int, j: int|
            0 <= i < b.drop_last().len() && 0 <= j < b.drop_last()[i].len() implies #[trigger] b.drop_last()[i][j]
            != 0 by {
            assert(b[i][j] != 0);
        }
        bytes_tell_the_parts(a.drop_last(), b.drop_last());
        assert(a =~= a.drop_last().push(a.last()));
        assert(b =~= b.drop_last().push(b.last()));
    }
}

proof fn lemma_sorted_members(ranges: Seq<String>)
    ensures
        sorted_ranges(ranges).to_multiset() == range_bytes(ranges).to_multiset(),
        no_zero(range_bytes(ranges)) ==> no_zero(sorted_ranges(ranges)),
{
    broadcast use vstd::seq_lib::group_to_multiset_ensures;

    let (given, sorted) = (range_bytes(ranges), sorted_ranges(ranges));
    <Vec<u8> as TotalOrder>::key_le_is_total();
    given.lemma_sort_by_ensures(order::<Vec<u8>>());
    if no_zero(given) {
        assert forall|i: int, j: int| 0 <= i < sorted.len() && 0 <= j < sorted[i].len() implies #[trigger] sorted[i][j]
            != 0 by {
            let part = sorted[i];
            assert(sorted.contains(part));
            assert(sorted.to_multiset().contains(part));
            assert(given.to_multiset().contains(part));
            assert(given.contains(part));
            let k = choose|k: int| 0 <= k < given.len() && given[k] == part;
            assert(given[k][j] != 0);
        }
    }
}

/// The five things that describe a job.
pub struct Described {
    pub ranges: Seq<String>,
    pub excludes: Seq<Window>,
    pub ports: Seq<u16>,
    pub no_reserved: bool,
    pub total: u64,
}

impl Described {
    pub open spec fn bytes(self) -> Seq<u8> {
        job_bytes(self.ranges, self.excludes, self.ports, self.no_reserved, self.total)
    }

    /// Whatever their order, the texts of the ranges are the same.
    pub open spec fn same_ranges(self, other: Described) -> bool {
        range_bytes(self.ranges).to_multiset() == range_bytes(other.ranges).to_multiset()
    }
}

spec fn flag_byte(on: bool) -> u8 {
    if on {
        1
    } else {
        0
    }
}

/// What can be told of five parts of which the first two have fixed lengths.
proof fn lemma_heads(
    f: u8,
    t: Seq<u8>,
    r: Seq<u8>,
    w: Seq<u8>,
    p: Seq<u8>,
    g: u8,
    u: Seq<u8>,
    s: Seq<u8>,
    x: Seq<u8>,
    q: Seq<u8>,
)
    requires
        t.len() == 8,
        u.len() == 8,
        seq![f] + t + r + w + p == seq![g] + u + s + x + q,
    ensures
        f == g,
        t == u,
        r + w + p == s + x + q,
{
    let (a, b) = (seq![f] + t + r + w + p, seq![g] + u + s + x + q);
    assert(a[0] == f && b[0] == g);
    assert(a.subrange(1, 9) =~= t && b.subrange(1, 9) =~= u);
    assert(a.skip(9) =~= r + w + p && b.skip(9) =~= s + x + q);
}

/// Of three parts, any two tell the third.
proof fn lemma_parts(r: Seq<u8>, w: Seq<u8>, p: Seq<u8>, s: Seq<u8>, x: Seq<u8>, q: Seq<u8>)
    requires
        r + w + p == s + x + q,
    ensures
        r == s && p == q ==> w == x,
        r == s && w == x ==> p == q,
        w == x && p == q ==> r == s,
{
    let (a, b) = (r + w + p, s + x + q);
    assert(a.len() == r.len() + w.len() + p.len() && b.len() == s.len() + x.len() + q.len());
    let (m, n) = (r.len() as int, (r.len() + w.len()) as int);
    assert(a.take(m) =~= r && a.subrange(m, n) =~= w && a.skip(n) =~= p);
    let (k, l) = (s.len() as int, (s.len() + x.len()) as int);
    assert(b.take(k) =~= s && b.subrange(k, l) =~= x && b.skip(l) =~= q);
}

/// Two jobs with the same description agree in the number of addresses and in whether reserved
/// blocks are left out; and of ranges, excluded windows and ports, where they agree in two, they
/// agree in the third. Agreeing in all of them they have the same description.
pub proof fn descriptions_tell_jobs_apart(a: Described, b: Described)
    requires
        no_zero(range_bytes(a.ranges)),
        no_zero(range_bytes(b.ranges)),
    ensures
        a.bytes() == b.bytes() ==> a.total == b.total && a.no_reserved == b.no_reserved,
        a.bytes() == b.bytes() && a.same_ranges(b) && a.ports == b.ports ==> a.excludes == b.excludes,
        a.bytes() == b.bytes() && a.same_ranges(b) && a.excludes == b.excludes ==> a.ports == b.ports,
        a.bytes() == b.bytes() && a.excludes == b.excludes && a.ports == b.ports ==> a.same_ranges(b),
        a.same_ranges(b) && a.excludes == b.excludes && a.ports == b.ports && a.no_reserved == b.no_reserved
            && a.total == b.total ==> a.bytes() == b.bytes(),
{
    let (ra, rb) = (terminated(sorted_ranges(a.ranges)), terminated(sorted_ranges(b.ranges)));
    let (wa, wb) = (window_bytes(a.excludes), window_bytes(b.excludes));
    let (pa, pb) = (port_bytes(a.ports), port_bytes(b.ports));
    let (p, q) = (a.bytes(), b.bytes());
    lemma_le_len(a.total as nat, 8);
    lemma_le_len(b.total as nat, 8);
    lemma_pow256();
    lemma_sorted_members(a.ranges);
    lemma_sorted_members(b.ranges);
    if a.same_ranges(b) {
        crate::ip::fingerprint_ignores_range_order(
            a.ranges,
            b.ranges,
            a.excludes,
            a.ports,
            a.no_reserved,
            a.total,
        );
        crate::sort::lemma_sort_ignores_order::<Vec<u8>>(range_bytes(a.ranges), range_bytes(b.ranges));
        assert(ra == rb);
    }
    if p == q {
        let (fa, fb) = (flag_byte(a.no_reserved), flag_byte(b.no_reserved));
        lemma_heads(fa, le_bytes(a.total as nat, 8), ra, wa, pa, fb, le_bytes(b.total as nat, 8), rb, wb, pb);
        bytes_tell_the_number(a.total as nat, b.total as nat, 8);
        lemma_parts(ra, wa, pa, rb, wb, pb);
        if ra == rb && a.ports == b.ports {
            bytes_tell_the_windows(a.excludes, b.excludes);
        }
        if ra == rb && a.excludes == b.excludes {
            bytes_tell_the_ports(a.ports, b.ports);
        }
        if a.excludes == b.excludes && a.ports == b.ports {
            bytes_tell_the_parts(sorted_ranges(a.ranges), sorted_ranges(b.ranges));
        }
    }
}

/// How far a byte can move a number.
proof fn lemma_xor_moves(h: u64, b: u8)
    ensures
        -255 <= (h ^ (b as u64)) - h <= 255,
{
    let c = b as u64;
    let x = h ^ c;
    assert(x <= h | 0xff && h <= x | 0xff && (h | 0xff) - h <= 255 && (x | 0xff) - x <= 255) by (bit_vector)
        requires
            x == h ^ c,
            c <= 255,
    ;
}

proof fn lemma_xor_tells(h: u64, b: u8, c: u8)
    requires
        h ^ (b as u64) == h ^ (c as u64),
    ensures
        b == c,
{
    let (x, y) = (b as u64, c as u64);
    assert(x == y) by (bit_vector)
        requires
            h ^ x == h ^ y,
    ;
}

/// One step of the hash.
pub open spec fn hash_step(h: u64, b: u8) -> u64 {
    (h ^ (b as u64)).wrapping_mul(0x1000_0000_01b3)
}

proof fn lemma_step_value(h: u64, b: u8) -> (k: int)
    ensures
        hash_step(h, b) == (h ^ (b as u64)) * 0x1000_0000_01b3 - k * 0x1_0000_0000_0000_0000,
{
    let x = h ^ (b as u64);
    let v = x * 0x1000_0000_01b3;
    vstd::arithmetic::div_mod::lemma_fundamental_div_mod(v, 0x1_0000_0000_0000_0000);
    v / 0x1_0000_0000_0000_0000
}

/// Four differences that small cannot make up for one another.
proof fn lemma_no_cancelling(e0: int, e1: int, e2: int, e3: int, r: int)
    requires
        -510 <= e0 <= 510,
        -510 <= e1 <= 510,
        -510 <= e2 <= 510,
        -510 <= e3 <= 510,
        0x1000_0000_0000 * (567675 * e0 + 870 * e1 + e2) + (82312875 * e0 + 189225 * e1 + 435 * e2 + e3)
            == 0x1_0000_0000_0000_0000 * r,
    ensures
        e0 == 0 && e1 == 0 && e2 == 0 && e3 == 0,
{
    let m = 567675 * e0 + 870 * e1 + e2;
    let l = 82312875 * e0 + 189225 * e1 + 435 * e2 + e3;
    assert(l == 0x1000_0000_0000 * (0x10_0000 * r - m));
    assert(l == 0);
    assert(m == 0x10_0000 * r);
    let f = 435 * e0 + e1;
    assert(-1 <= f <= 1);
    assert(-2 <= e0 <= 2);
    assert(m == 189225 * e0 + 870 * f + e2);
    assert(m == 0);
    assert(e0 == 0);
    assert(e1 == 0);
}

/// What comes of differences that are multiplied again and again.
proof fn lemma_differences(
    d1: int,
    d2: int,
    e0: int,
    e1: int,
    e2: int,
    e3: int,
    q0: int,
    q1: int,
    q2: int,
) -> (r: int)
    requires
        d1 == 17592186044851 * e0 - 0x1_0000_0000_0000_0000 * q0,
        d2 == 17592186044851 * (d1 + e1) - 0x1_0000_0000_0000_0000 * q1,
        0 - e3 == 17592186044851 * (d2 + e2) - 0x1_0000_0000_0000_0000 * q2,
    ensures
        0x1000_0000_0000 * (567675 * e0 + 870 * e1 + e2) + (82312875 * e0 + 189225 * e1 + 435 * e2 + e3)
            == 0x1_0000_0000_0000_0000 * r,
{
    let r = 309485009836650270583612201 * q0 + 17592186044851 * q1 + q2 - (16777216 * e1 + 295147905201247092736 * e0);
    assert(17592186044851 * d1 == 309485009836650270583612201 * e0 - 0x1_0000_0000_0000_0000 * (17592186044851 * q0));
    assert(17592186044851 * d2 == 17592186044851 * (17592186044851 * d1) + 309485009836650270583612201 * e1 - 0x1_0000_0000_0000_0000 * (17592186044851 * q1));
    r
}

/// Where four bytes are hashed on from the same place, the result tells the bytes.
proof fn lemma_four_steps(h: u64, b0: u8, b1: u8, b2: u8, b3: u8, c0: u8, c1: u8, c2: u8, c3: u8)
    requires
        hash_step(hash_step(hash_step(hash_step(h, b0), b1), b2), b3) == hash_step(
            hash_step(hash_step(hash_step(h, c0), c1), c2),
            c3,
        ),
    ensures
        b0 == c0 && b1 == c1 && b2 == c2 && b3 == c3,
{
    let h1 = hash_step(h, b0);
    let h2 = hash_step(h1, b1);
    let h3 = hash_step(h2, b2);
    let g1 = hash_step(h, c0);
    let g2 = hash_step(g1, c1);
    let g3 = hash_step(g2, c2);
    let (x0, x1, x2, x3) = (h ^ (b0 as u64), h1 ^ (b1 as u64), h2 ^ (b2 as u64), h3 ^ (b3 as u64));
    let (y0, y1, y2, y3) = (h ^ (c0 as u64), g1 ^ (c1 as u64), g2 ^ (c2 as u64), g3 ^ (c3 as u64));
    lemma_unit_multiplication(
        x3 as nat,
        y3 as nat,
        0x1000_0000_01b3,
        0xb46d_d957_aff6_957b,
        0x1_0000_0000_0000_0000,
    );
    assert(x3 == y3);
    lemma_xor_moves(h, b0);
    lemma_xor_moves(h1, b1);
    lemma_xor_moves(h2, b2);
    lemma_xor_moves(h3, b3);
    lemma_xor_moves(h, c0);
    lemma_xor_moves(g1, c1);
    lemma_xor_moves(g2, c2);
    lemma_xor_moves(g3, c3);
    let k0 = lemma_step_value(h, b0);
    let k1 = lemma_step_value(h1, b1);
    let k2 = lemma_step_value(h2, b2);
    let l0 = lemma_step_value(h, c0);
    let l1 = lemma_step_value(g1, c1);
    let l2 = lemma_step_value(g2, c2);
    let e0 = x0 - y0;
    let e1 = (x1 - h1) - (y1 - g1);
    let e2 = (x2 - h2) - (y2 - g2);
    let e3 = (x3 - h3) - (y3 - g3);
    let (q0, q1, q2) = (k0 - l0, k1 - l1, k2 - l2);
    let (d1, d2) = (h1 - g1, h2 - g2);
    let r = lemma_differences(d1, d2, e0, e1, e2, e3, q0, q1, q2);
    lemma_no_cancelling(e0, e1, e2, e3, r);
    lemma_xor_tells(h, b0, c0);
    lemma_xor_tells(h1, b1, c1);
    lemma_xor_tells(h2, b2, c2);
    lemma_xor_tells(h3, b3, c3);
}

/// Two byte strings that differ in nothing but four bytes at one place have different hashes.
pub proof fn four_bytes_change_the_hash(pre: Seq<u8>, u: Seq<u8>, v: Seq<u8>, rest: Seq<u8>)
    requires
        u.len() == 4,
        v.len() == 4,
        u != v,
    ensures
        hash_spec(pre + u + rest) != hash_spec(pre + v + rest),
{
    lemma_hash_of_four(pre, u);
    lemma_hash_of_four(pre, v);
    if hash_spec(pre + u) == hash_spec(pre + v) {
        lemma_four_steps(hash_spec(pre), u[0], u[1], u[2], u[3], v[0], v[1], v[2], v[3]);
        assert(u =~= v);
    }
    lemma_hash_keeps_apart(pre + u, pre + v, rest);
}

proof fn lemma_hash_of_four(pre: Seq<u8>, u: Seq<u8>)
    requires
        u.len() == 4,
    ensures
        hash_spec(pre + u) == hash_step(
            hash_step(hash_step(hash_step(hash_spec(pre), u[0]), u[1]), u[2]),
            u[3],
        ),
{
    let (p1, p2, p3) = (pre + u.take(1), pre + u.take(2), pre + u.take(3));
    assert((pre + u).drop_last() =~= p3 && (pre + u).last() == u[3]);
    assert(p3.drop_last() =~= p2 && p3.last() == u[2]);
    assert(p2.drop_last() =~= p1 && p2.last() == u[1]);
    assert(p1.drop_last() =~= pre && p1.last() == u[0]);
    assert(hash_spec(p1) == hash_step(hash_spec(pre), u[0]));
    assert(hash_spec(p2) == hash_step(hash_spec(p1), u[1]));
    assert(hash_spec(p3) == hash_step(hash_spec(p2), u[2]));
}

proof fn lemma_window_bytes_join(a: Seq<Window>, b: Seq<Window>)
    ensures
        window_bytes(a + b) == window_bytes(a) + window_bytes(b),
    decreases b.len(),
{
    if b.len() == 0 {
        assert(a + b =~= a);
        assert(window_bytes(a) + window_bytes(b) =~= window_bytes(a));
    } else {
        assert((a + b).drop_last() =~= a + b.drop_last());
        lemma_window_bytes_join(a, b.drop_last());
        assert(window_bytes(a + b) =~= window_bytes(a) + window_bytes(b));
    }
}

proof fn lemma_port_bytes_join(a: Seq<u16>, b: Seq<u16>)
    ensures
        port_bytes(a + b) == port_bytes(a) + port_bytes(b),
    decreases b.len(),
{
    if b.len() == 0 {
        assert(a + b =~= a);
        assert(port_bytes(a) + port_bytes(b) =~= port_bytes(a));
    } else {
        assert((a + b).drop_last() =~= a + b.drop_last());
        lemma_port_bytes_join(a, b.drop_last());
        assert(port_bytes(a + b) =~= port_bytes(a) + port_bytes(b));
    }
}

proof fn lemma_one_window(w: Window)
    ensures
        window_bytes(seq![w]) == le_bytes(w.0 as nat, 4) + le_bytes(w.1 as nat, 4),
{
    assert(seq![w].drop_last() =~= Seq::empty());
    assert(window_bytes(Seq::empty()) =~= Seq::empty());
    assert(window_bytes(seq![w]) =~= le_bytes(w.0 as nat, 4) + le_bytes(w.1 as nat, 4));
}

proof fn lemma_one_port(p: u16)
    ensures
        port_bytes(seq![p]) == le_bytes(p as nat, 2),
{
    assert(seq![p].drop_last() =~= Seq::empty());
    assert(port_bytes(Seq::empty()) =~= Seq::empty());
    assert(port_bytes(seq![p]) =~= le_bytes(p as nat, 2));
}

/// Two windows of which one bound is the same, and one is not.
pub open spec fn one_bound_differs(v: Window, w: Window) -> bool {
    (v.0 == w.0) != (v.1 == w.1)
}

/// To move one bound of one excluded window, however far, changes the fingerprint.
pub proof fn moved_bound_changes_fingerprint(
    ranges: Seq<String>,
    before: Seq<Window>,
    v: Window,
    w: Window,
    after: Seq<Window>,
    ports: Seq<u16>,
    no_reserved: bool,
    total: u64,
)
    requires
        one_bound_differs(v, w),
    ensures
        hash_spec(job_bytes(ranges, before + seq![v] + after, ports, no_reserved, total)) != hash_spec(
            job_bytes(ranges, before + seq![w] + after, ports, no_reserved, total),
        ),
{
    let flag = seq![
        if no_reserved {
            1u8
        } else {
            0u8
        },
    ];
    let head = flag + le_bytes(total as nat, 8) + terminated(sorted_ranges(ranges)) + window_bytes(before);
    let tail = window_bytes(after) + port_bytes(ports);
    let (v0, v1) = (le_bytes(v.0 as nat, 4), le_bytes(v.1 as nat, 4));
    let (w0, w1) = (le_bytes(w.0 as nat, 4), le_bytes(w.1 as nat, 4));
    lemma_window_bytes_join(before + seq![v], after);
    lemma_window_bytes_join(before, seq![v]);
    lemma_window_bytes_join(before + seq![w], after);
    lemma_window_bytes_join(before, seq![w]);
    lemma_one_window(v);
    lemma_one_window(w);
    lemma_le_len(v.0 as nat, 4);
    lemma_le_len(v.1 as nat, 4);
    lemma_le_len(w.0 as nat, 4);
    lemma_le_len(w.1 as nat, 4);
    lemma_pow256();
    let a = job_bytes(ranges, before + seq![v] + after, ports, no_reserved, total);
    let b = job_bytes(ranges, before + seq![w] + after, ports, no_reserved, total);
    if v.1 == w.1 {
        if v0 == w0 {
            bytes_tell_the_number(v.0 as nat, w.0 as nat, 4);
        }
        four_bytes_change_the_hash(head, v0, w0, v1 + tail);
        assert(a =~= head + v0 + (v1 + tail));
        assert(b =~= head + w0 + (v1 + tail));
    } else {
        if v1 == w1 {
            bytes_tell_the_number(v.1 as nat, w.1 as nat, 4);
        }
        four_bytes_change_the_hash(head + v0, v1, w1, tail);
        assert(a =~= head + v0 + v1 + tail);
        assert(b =~= head + v0 + w1 + tail);
    }
}

/// To put one port in the place of another changes the fingerprint.
pub proof fn other_port_changes_fingerprint(
    ranges: Seq<String>,
    excludes: Seq<Window>,
    before: Seq<u16>,
    p: u16,
    q: u16,
    after: Seq<u16>,
    no_reserved: bool,
    total: u64,
)
    requires
        p != q,
    ensures
        hash_spec(job_bytes(ranges, excludes, before + seq![p] + after, no_reserved, total)) != hash_spec(
            job_bytes(ranges, excludes, before + seq![q] + after, no_reserved, total),
        ),
{
    let flag = seq![
        if no_reserved {
            1u8
        } else {
            0u8
        },
    ];
    let head = flag + le_bytes(total as nat, 8) + terminated(sorted_ranges(ranges)) + window_bytes(excludes)
        + port_bytes(before);
    let tail = port_bytes(after);
    let (u, v) = (le_bytes(p as nat, 2), le_bytes(q as nat, 2));
    lemma_port_bytes_join(before + seq![p], after);
    lemma_port_bytes_join(before, seq![p]);
    lemma_port_bytes_join(before + seq![q], after);
    lemma_port_bytes_join(before, seq![q]);
    lemma_one_port(p);
    lemma_one_port(q);
    lemma_le_len(p as nat, 2);
    lemma_le_len(q as nat, 2);
    lemma_le_len(total as nat, 8);
    lemma_pow256();
    if u == v {
        bytes_tell_the_number(p as nat, q as nat, 2);
    }
    let n = head.len() as int;
    let (pre, last) = (head.take(n - 2), head.skip(n - 2));
    assert((last + u).skip(2) =~= u && (last + v).skip(2) =~= v);
    four_bytes_change_the_hash(pre, last + u, last + v, tail);
    assert(job_bytes(ranges, excludes, before + seq![p] + after, no_reserved, total) =~= pre + (last + u)
        + tail);
    assert(job_bytes(ranges, excludes, before + seq![q] + after, no_reserved, total) =~= pre + (last + v)
        + tail);
}

/// Two byte strings that differ in nothing but up to four bytes at one place, behind at least three
/// others, have different hashes.
pub proof fn few_bytes_change_the_hash(pre: Seq<u8>, u: Seq<u8>, v: Seq<u8>, rest: Seq<u8>)
    requires
        pre.len() >= 3,
        1 <= u.len() <= 4,
        u.len() == v.len(),
        u != v,
    ensures
        hash_spec(pre + u + rest) != hash_spec(pre + v + rest),
{
    let k = 4 - u.len();
    let n = pre.len() - k;
    let (a, b) = (pre.take(n), pre.skip(n));
    assert((b + u).skip(k) =~= u && (b + v).skip(k) =~= v);
    four_bytes_change_the_hash(a, b + u, b + v, rest);
    assert(a + (b + u) + rest =~= pre + u + rest);
    assert(a + (b + v) + rest =~= pre + v + rest);
}

proof fn lemma_one_range(ranges: Seq<String>)
    requires
        ranges.len() == 1,
    ensures
        terminated(sorted_ranges(ranges)) == encode_utf8(ranges[0]@) + seq![0u8],
{
    broadcast use vstd::seq_lib::group_to_multiset_ensures;

    let (given, sorted) = (range_bytes(ranges), sorted_ranges(ranges));
    <Vec<u8> as TotalOrder>::key_le_is_total();
    given.lemma_sort_by_ensures(order::<Vec<u8>>());
    assert(sorted.to_multiset().len() == given.to_multiset().len());
    assert(sorted.len() == 1);
    assert(sorted.contains(sorted[0]));
    assert(given.to_multiset().contains(sorted[0]));
    assert(given.contains(sorted[0]));
    assert(sorted[0] == given[0]);
    assert(sorted.drop_last() =~= Seq::empty());
    assert(terminated(sorted.drop_last()) =~= Seq::<u8>::empty());
    assert(terminated(sorted) =~= sorted[0] + seq![0u8]);
}

/// To change up to four neighbouring bytes of the one range that is named changes the fingerprint,
/// if the range has as many addresses as before.
pub proof fn other_range_changes_fingerprint(
    a: Described,
    b: Described,
    x: Seq<u8>,
    u: Seq<u8>,
    v: Seq<u8>,
    y: Seq<u8>,
)
    requires
        a.ranges.len() == 1 && encode_utf8(a.ranges[0]@) == x + u + y,
        b.ranges.len() == 1 && encode_utf8(b.ranges[0]@) == x + v + y,
        1 <= u.len() <= 4,
        u.len() == v.len(),
        u != v,
        a.excludes == b.excludes && a.ports == b.ports && a.no_reserved == b.no_reserved && a.total == b.total,
    ensures
        hash_spec(a.bytes()) != hash_spec(b.bytes()),
{
    lemma_one_range(a.ranges);
    lemma_one_range(b.ranges);
    lemma_le_len(a.total as nat, 8);
    let flag = seq![
        if a.no_reserved {
            1u8
        } else {
            0u8
        },
    ];
    let head = flag + le_bytes(a.total as nat, 8) + x;
    let tail = y + seq![0u8] + window_bytes(a.excludes) + port_bytes(a.ports);
    few_bytes_change_the_hash(head, u, v, tail);
    assert(a.bytes() =~= head + u + tail);
    assert(b.bytes() =~= head + v + tail);
}

/// What describes the job of the settings: the ranges as they are written, the addresses that are
/// left out besides the reserved ones, the ports in order, whether reserved blocks are left out,
/// and how many addresses that leaves.
pub open spec fn described(cfg: ScanConfig, files: Seq<ExcludeFile>) -> Described {
    Described {
        ranges: cfg.ranges@,
        excludes: extra_spec(cfg.excludes@, files)->Ok_0,
        ports: ports_in_order(cfg.ports@),
        no_reserved: !cfg.include_reserved,
        total: count(job_spec(cfg, files)->Ok_0.windows) as u64,
    }
}

/// The fingerprint of a job is the hash of what describes the job.
pub proof fn fingerprint_is_of_the_description(cfg: ScanConfig, files: Seq<ExcludeFile>)
    requires
        job_spec(cfg, files) is Ok,
    ensures
        job_spec(cfg, files)->Ok_0.fingerprint == hash_spec(described(cfg, files).bytes()),
        job_spec(cfg, files)->Ok_0.total == described(cfg, files).total,
        job_spec(cfg, files)->Ok_0.ports == described(cfg, files).ports,
{
}

/// Two jobs of the same ranges and ports that scan different addresses, and two jobs of the same
/// ranges and excluded addresses that scan different ports, have different descriptions.
pub proof fn different_scans_are_described_differently(
    a: ScanConfig,
    fa: Seq<ExcludeFile>,
    b: ScanConfig,
    fb: Seq<ExcludeFile>,
)
    requires
        job_spec(a, fa) is Ok,
        job_spec(b, fb) is Ok,
        a.ranges@ == b.ranges@,
        no_zero(range_bytes(a.ranges@)),
    ensures
        (forall|p: u16| a.ports@.contains(p) == b.ports@.contains(p)) && job_spec(a, fa)->Ok_0.windows
            != job_spec(b, fb)->Ok_0.windows ==> described(a, fa).bytes() != described(b, fb).bytes(),
        extra_spec(a.excludes@, fa) == extra_spec(b.excludes@, fb) && (exists|p: u16|
            a.ports@.contains(p) != b.ports@.contains(p)) ==> described(a, fa).bytes() != described(
            b,
            fb,
        ).bytes(),
{
    descriptions_tell_jobs_apart(described(a, fa), described(b, fb));
    ports_can_be_ordered(a.ports@);
    ports_can_be_ordered(b.ports@);
    if forall|p: u16| a.ports@.contains(p) == b.ports@.contains(p) {
        crate::scan::port_order_is_ignored(a.ports@, b.ports@);
    }
    if described(a, fa).ports == described(b, fb).ports {
        assert forall|p: u16| a.ports@.contains(p) == b.ports@.contains(p) by {
            assert(ports_in_order(a.ports@).contains(p) == a.ports@.contains(p));
            assert(ports_in_order(b.ports@).contains(p) == b.ports@.contains(p));
        }
    }
}

/// Of all but the number of addresses, the two differ in one bound of one excluded window, or in
/// one port, or in whether reserved blocks are left out.
pub open spec fn differs_in_one_thing(a: Described, b: Described) -> bool {
    &&& a.ranges == b.ranges
    &&& {
        ||| a.excludes == b.excludes && a.ports == b.ports && a.no_reserved != b.no_reserved
        ||| a.excludes == b.excludes && a.no_reserved == b.no_reserved && a.ports.len() == b.ports.len()
            && exists|i: int|
            0 <= i < a.ports.len() && #[trigger] a.ports[i] != b.ports[i] && b.ports == a.ports.update(
                i,
                b.ports[i],
            )
        ||| a.ports == b.ports && a.no_reserved == b.no_reserved && a.excludes.len() == b.excludes.len()
            && exists|i: int|
            0 <= i < a.excludes.len() && one_bound_differs(#[trigger] a.excludes[i], b.excludes[i])
                && b.excludes == a.excludes.update(i, b.excludes[i])
    }
}

/// Jobs that differ in one thing have different fingerprints, if they have as many addresses.
pub proof fn one_difference_changes_fingerprint(a: Described, b: Described)
    requires
        differs_in_one_thing(a, b),
        a.total == b.total,
    ensures
        hash_spec(a.bytes()) != hash_spec(b.bytes()),
{
    if a.no_reserved != b.no_reserved {
        crate::ip::reserved_flag_changes_fingerprint(a.ranges, a.excludes, a.ports, a.total);
    } else if a.excludes == b.excludes {
        let i = choose|i: int|
            0 <= i < a.ports.len() && #[trigger] a.ports[i] != b.ports[i] && b.ports == a.ports.update(
                i,
                b.ports[i],
            );
        let (p, q) = (a.ports.take(i), a.ports.skip(i + 1));
        assert(a.ports =~= p + seq![a.ports[i]] + q);
        assert(b.ports =~= p + seq![b.ports[i]] + q);
        other_port_changes_fingerprint(
            a.ranges,
            a.excludes,
            p,
            a.ports[i],
            b.ports[i],
            q,
            a.no_reserved,
            a.total,
        );
    } else {
        let i = choose|i: int|
            0 <= i < a.excludes.len() && one_bound_differs(#[trigger] a.excludes[i], b.excludes[i])
                && b.excludes == a.excludes.update(i, b.excludes[i]);
        let (p, q) = (a.excludes.take(i), a.excludes.skip(i + 1));
        assert(a.excludes =~= p + seq![a.excludes[i]] + q);
        assert(b.excludes =~= p + seq![b.excludes[i]] + q);
        moved_bound_changes_fingerprint(
            a.ranges,
            p,
            a.excludes[i],
            b.excludes[i],
            q,
            a.ports,
            a.no_reserved,
            a.total,
        );
    }
}

/// Where two jobs differ in one thing, a place that was saved for one of them is never used for
/// the other: that one starts fresh.
pub proof fn changed_job_starts_fresh(
    opts: RunOpts,
    a: ScanConfig,
    fa: Seq<ExcludeFile>,
    cursor: u64,
    b: ScanConfig,
    fb: Seq<ExcludeFile>,
    file: StateFile,
    fresh_seed: u64,
)
    requires
        job_spec(a, fa) is Ok,
        job_spec(b, fb) is Ok,
        opts.fingerprint == job_spec(a, fa)->Ok_0.fingerprint,
        opts.space.total == job_spec(a, fa)->Ok_0.total,
        finish_spec(opts, cursor) matches FinishView::Saved(c, _) && file matches StateFile::Text(text)
            && text@ == render_spec(c),
        differs_in_one_thing(described(a, fa), described(b, fb)),
    ensures
        ({
            let job = job_spec(b, fb)->Ok_0;
            let at = resume_spec(b@, file, job.fingerprint, job.total, fresh_seed);
            &&& !at.resumed
            &&& at.skip == b.skip
            &&& at.seed == (match b.seed {
                Some(seed) => seed,
                None => fresh_seed,
            })
        }),
{
    let (ja, jb) = (job_spec(a, fa)->Ok_0, job_spec(b, fb)->Ok_0);
    let (da, db) = (described(a, fa), described(b, fb));
    fingerprint_is_of_the_description(a, fa);
    fingerprint_is_of_the_description(b, fb);
    if ja.total == jb.total {
        one_difference_changes_fingerprint(da, db);
    }
    let c = finish_spec(opts, cursor)->Saved_0;
    other_job_starts_fresh(b@, file, c, jb.fingerprint, jb.total, fresh_seed);
}

} // verus!
