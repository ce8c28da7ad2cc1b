//! Usable IPv4 space, CIDR parsing, and a bijection used to shuffle scan order.
//!
//! Addresses are `u32` values in host byte order.

use vstd::prelude::*;
use vstd::slice::slice_to_vec;
use vstd::string::*;
use vstd::utf8::encode_utf8;

use crate::modular::{
    gcd, gcd_spec, lemma_unit_multiplication, permuted, permuted_is_injective, permuted_is_onto,
};
use crate::ipv4::{parse_ipv4, quad_spec};
use crate::num::{dec, parse_unsigned, push_dec, unsigned_spec, IntError};
use crate::sort::{keys, lemma_sorted_keys, lemma_sort_ignores_order, merge_sort, order, sorted_keys};
use crate::text::{from_chars, split, split_once, split_once_spec, split_spec, split_whitespace, starts_with, to_chars, trim, trim_spec, views, nonempty_pieces, Sep};

verus! {

/// Inclusive IPv4 window. `end >= start`.
pub type Window = (u32, u32);

/// `x` lies in one of the windows.
pub open spec fn covers(ws: Seq<Window>, x: u32) -> bool {
    exists|i: int| 0 <= i < ws.len() && (#[trigger] ws[i]).0 <= x <= ws[i].1
}

/// Every window has its end at or after its start.
pub open spec fn proper(ws: Seq<Window>) -> bool {
    forall|i: int| 0 <= i < ws.len() ==> (#[trigger] ws[i]).0 <= ws[i].1
}

/// The windows stand in rising order with at least one address between any two.
pub open spec fn separated(ws: Seq<Window>) -> bool {
    forall|i: int, j: int|
        0 <= i < j < ws.len() ==> (#[trigger] ws[i]).1 + 1 < (#[trigger] ws[j]).0 && ws[i].0 <= ws[j].0
}

/// `w` added behind the windows `ws`, joined to the last of them where the two touch.
pub open spec fn absorb(ws: Seq<Window>, w: Window) -> Seq<Window> {
    if ws.len() > 0 && ws.last().1 + 1 >= w.0 {
        let end = if ws.last().1 >= w.1 {
            ws.last().1
        } else {
            w.1
        };
        ws.drop_last().push((ws.last().0, end))
    } else {
        ws.push(w)
    }
}

/// Windows in rising order, with those that touch joined into one.
pub open spec fn coalesce(s: Seq<Window>) -> Seq<Window>
    decreases s.len(),
{
    if s.len() == 0 {
        Seq::empty()
    } else {
        absorb(coalesce(s.drop_last()), s.last())
    }
}

/// What `merge` makes of `s`.
pub open spec fn merge_spec(s: Seq<Window>) -> Seq<Window> {
    coalesce(sorted_keys(s))
}

pub proof fn lemma_covers_push(ws: Seq<Window>, w: Window, x: u32)
    ensures
        covers(ws.push(w), x) == (covers(ws, x) || w.0 <= x <= w.1),
{
    let all = ws.push(w);
    if covers(ws, x) {
        let i = choose|i: int| 0 <= i < ws.len() && (#[trigger] ws[i]).0 <= x <= ws[i].1;
        assert(all[i] == ws[i]);
    }
    if w.0 <= x <= w.1 {
        assert(all[ws.len() as int] == w);
    }
    if covers(all, x) {
        let i = choose|i: int| 0 <= i < all.len() && (#[trigger] all[i]).0 <= x <= all[i].1;
        if i < ws.len() {
            assert(ws[i] == all[i]);
        }
    }
}

pub proof fn lemma_covers_concat(a: Seq<Window>, b: Seq<Window>, x: u32)
    ensures
        covers(a + b, x) == (covers(a, x) || covers(b, x)),
    decreases b.len(),
{
    if b.len() == 0 {
        assert(a + b =~= a);
    } else {
        assert(a + b =~= (a + b.drop_last()).push(b.last()));
        assert(b =~= b.drop_last().push(b.last()));
        lemma_covers_concat(a, b.drop_last(), x);
        lemma_covers_push(a + b.drop_last(), b.last(), x);
        lemma_covers_push(b.drop_last(), b.last(), x);
    }
}

/// The starts never step down.
spec fn rising(s: Seq<Window>) -> bool {
    forall|i: int, j: int| 0 <= i < j < s.len() ==> (#[trigger] s[i]).0 <= (#[trigger] s[j]).0
}

proof fn lemma_coalesce(s: Seq<Window>)
    requires
        rising(s),
    ensures
        separated(coalesce(s)),
        proper(s) ==> proper(coalesce(s)),
        coalesce(s).len() <= s.len(),
        s.len() > 0 ==> coalesce(s).len() > 0 && coalesce(s).last().0 <= s.last().0,
        forall|x: u32| covers(coalesce(s), x) == covers(s, x),
    decreases s.len(),
{
    if s.len() > 0 {
        let front = s.drop_last();
        let w = s.last();
        lemma_coalesce(front);
        let c = coalesce(front);
        let out = coalesce(s);
        assert(s =~= front.push(w));
        if front.len() > 0 {
            assert(front.last() == s[s.len() - 2]);
            assert(c.last().0 <= w.0);
        }
        if c.len() > 0 && c.last().1 + 1 >= w.0 {
            assert(c =~= c.drop_last().push(c.last()));
        }
        assert forall|x: u32| covers(out, x) == covers(s, x) by {
            lemma_covers_push(front, w, x);
            if c.len() > 0 && c.last().1 + 1 >= w.0 {
                lemma_covers_push(c.drop_last(), c.last(), x);
                lemma_covers_push(c.drop_last(), out.last(), x);
            } else {
                lemma_covers_push(c, w, x);
            }
        }
    }
}

proof fn lemma_same_members_same_cover(a: Seq<Window>, b: Seq<Window>, x: u32)
    requires
        a.to_multiset() == b.to_multiset(),
    ensures
        covers(a, x) == covers(b, x),
        proper(a) == proper(b),
{
    broadcast use vstd::seq_lib::group_to_multiset_ensures;

    assert forall|w: Window| a.contains(w) == b.contains(w) by {
        assert(a.contains(w) <==> a.to_multiset().count(w) > 0);
        assert(b.contains(w) <==> b.to_multiset().count(w) > 0);
    }
    if covers(a, x) {
        let i = choose|i: int| 0 <= i < a.len() && (#[trigger] a[i]).0 <= x <= a[i].1;
        assert(b.contains(a[i]));
    }
    if covers(b, x) {
        let i = choose|i: int| 0 <= i < b.len() && (#[trigger] b[i]).0 <= x <= b[i].1;
        assert(a.contains(b[i]));
    }
    if proper(a) {
        assert forall|i: int| 0 <= i < b.len() implies (#[trigger] b[i]).0 <= b[i].1 by {
            assert(a.contains(b[i]));
        }
    }
    if proper(b) {
        assert forall|i: int| 0 <= i < a.len() implies (#[trigger] a[i]).0 <= a[i].1 by {
            assert(b.contains(a[i]));
        }
    }
}

/// Merging keeps the addresses that are covered, and leaves windows that are apart.
pub proof fn merge_keeps_cover(s: Seq<Window>)
    ensures
        separated(merge_spec(s)),
        proper(s) ==> proper(merge_spec(s)),
        merge_spec(s).len() <= s.len(),
        forall|x: u32| #[trigger] covers(merge_spec(s), x) == covers(s, x),
{
    lemma_sorted_keys(s);
    let sorted = sorted_keys(s);
    assert(keys(s) =~= s);
    let le = order::<Window>();
    assert(rising(sorted)) by {
        assert forall|i: int, j: int| 0 <= i < j < sorted.len() implies (#[trigger] sorted[i]).0 <= (
        #[trigger] sorted[j]).0 by {
            assert(le(sorted[i], sorted[j]));
        }
    }
    lemma_coalesce(sorted);
    assert forall|x: u32| #[trigger] covers(merge_spec(s), x) == covers(s, x) by {
        lemma_same_members_same_cover(sorted, s, x);
    }
    lemma_same_members_same_cover(sorted, s, 0);
}

/// Sorts the windows and joins those that overlap or touch.
pub fn merge(v: Vec<Window>) -> (out: Vec<Window>)
    ensures
        out@ == merge_spec(v@),
        separated(out@),
        proper(v@) ==> proper(out@),
        forall|x: u32| covers(out@, x) == covers(v@, x),
{
    proof {
        merge_keeps_cover(v@);
    }
    let s: Vec<Window> = merge_sort(v);
    assert(s@ =~= keys(s@));
    if s.len() == 0 {
        return s;
    }
    let mut out: Vec<Window> = Vec::with_capacity(s.len());
    let mut cur: Window = s[0];
    let mut i: usize = 1;
    assert(s@.take(1).drop_last() =~= Seq::empty());
    assert(coalesce(s@.take(1).drop_last()) =~= Seq::empty());
    assert(out@.push(cur) =~= coalesce(s@.take(1)));
    while i < s.len()
        invariant
            1 <= i <= s@.len(),
            out@.push(cur) == coalesce(s@.take(i as int)),
        decreases s@.len() - i,
    {
        let (a, b) = s[i];
        let ghost before = out@.push(cur);
        assert(s@.take(i + 1).drop_last() =~= s@.take(i as int));
        if cur.1 as u64 + 1 >= a as u64 {
            if b > cur.1 {
                cur.1 = b;
            }
            assert(out@.push(cur) =~= absorb(before, (a, b)));
        } else {
            out.push(cur);
            cur = (a, b);
        }
        i = i + 1;
    }
    out.push(cur);
    assert(s@.take(i as int) =~= s@);
    out
}

/// What is left of the addresses `cur..=b` when the windows `ex` are cut out one after the other.
pub open spec fn cut(cur: int, b: int, ex: Seq<Window>) -> Seq<Window>
    decreases ex.len(),
{
    if ex.len() == 0 {
        if cur <= b {
            seq![(cur as u32, b as u32)]
        } else {
            Seq::empty()
        }
    } else {
        let (x, y) = (ex[0].0 as int, ex[0].1 as int);
        if y < cur || x > b {
            cut(cur, b, ex.skip(1))
        } else {
            let head = if cur < x {
                seq![(cur as u32, (x - 1) as u32)]
            } else {
                Seq::empty()
            };
            if y >= b {
                head
            } else {
                head + cut(y + 1, b, ex.skip(1))
            }
        }
    }
}

/// The windows `inc` with the windows `ex` cut out of each.
pub open spec fn subtract_spec(inc: Seq<Window>, ex: Seq<Window>) -> Seq<Window>
    decreases inc.len(),
{
    if inc.len() == 0 {
        Seq::empty()
    } else {
        subtract_spec(inc.drop_last(), ex) + cut(inc.last().0 as int, inc.last().1 as int, ex)
    }
}

proof fn lemma_covers_skip(ws: Seq<Window>, x: u32)
    requires
        ws.len() > 0,
    ensures
        covers(ws, x) == (ws[0].0 <= x <= ws[0].1 || covers(ws.skip(1), x)),
{
    assert(ws =~= seq![ws[0]] + ws.skip(1));
    lemma_covers_concat(seq![ws[0]], ws.skip(1), x);
    lemma_covers_one(ws[0], x);
}

proof fn lemma_covers_one(w: Window, x: u32)
    ensures
        covers(seq![w], x) == (w.0 <= x <= w.1),
{
    assert(seq![w][0] == w);
}

/// Cutting windows that stand apart out of a range leaves what none of them covers.
proof fn lemma_cut(cur: int, b: int, ex: Seq<Window>, x: u32)
    requires
        0 <= cur <= u32::MAX + 1,
        0 <= b <= u32::MAX,
        separated(ex),
    ensures
        covers(cut(cur, b, ex), x) == (cur <= x <= b && !covers(ex, x)),
        proper(cut(cur, b, ex)),
    decreases ex.len(),
{
    if ex.len() == 0 {
        assert(!covers(ex, x));
        if cur <= b {
            lemma_covers_one((cur as u32, b as u32), x);
        }
    } else {
        let rest = ex.skip(1);
        assert(separated(rest));
        let (s, e) = (ex[0].0 as int, ex[0].1 as int);
        lemma_covers_skip(ex, x);
        // everything in the rest lies beyond the end of the first window
        if covers(rest, x) {
            let i = choose|i: int| 0 <= i < rest.len() && (#[trigger] rest[i]).0 <= x <= rest[i].1;
            assert(rest[i] == ex[i + 1]);
            assert(e + 1 < x);
            assert(s <= x);
        }
        if e < cur || s > b {
            lemma_cut(cur, b, rest, x);
        } else {
            let head: Seq<Window> = if cur < s {
                seq![(cur as u32, (s - 1) as u32)]
            } else {
                Seq::empty()
            };
            if cur < s {
                lemma_covers_one((cur as u32, (s - 1) as u32), x);
            }
            assert(covers(head, x) == (cur <= x < s));
            if e < b {
                lemma_cut(e + 1, b, rest, x);
                lemma_covers_concat(head, cut(e + 1, b, rest), x);
            }
        }
    }
}

/// Subtracting windows that stand apart leaves the addresses that were covered and are in none
/// of them.
pub proof fn subtract_removes_cover(inc: Seq<Window>, ex: Seq<Window>, x: u32)
    requires
        separated(ex),
    ensures
        covers(subtract_spec(inc, ex), x) == (covers(inc, x) && !covers(ex, x)),
        proper(subtract_spec(inc, ex)),
    decreases inc.len(),
{
    if inc.len() > 0 {
        let front = inc.drop_last();
        let w = inc.last();
        subtract_removes_cover(front, ex, x);
        lemma_cut(w.0 as int, w.1 as int, ex, x);
        assert(inc =~= front.push(w));
        lemma_covers_push(front, w, x);
        lemma_covers_concat(subtract_spec(front, ex), cut(w.0 as int, w.1 as int, ex), x);
    }
}

/// What is left of `cur..=b` stands apart, inside `cur..=b`.
proof fn lemma_cut_stands_apart(cur: int, b: int, ex: Seq<Window>)
    requires
        0 <= cur <= u32::MAX + 1,
        0 <= b <= u32::MAX,
        separated(ex),
        proper(ex),
    ensures
        separated(cut(cur, b, ex)),
        forall|i: int|
            0 <= i < cut(cur, b, ex).len() ==> cur <= (#[trigger] cut(cur, b, ex)[i]).0 && cut(cur, b, ex)[i].1
                <= b,
    decreases ex.len(),
{
    if ex.len() > 0 {
        let rest = ex.skip(1);
        assert forall|i: int| 0 <= i < rest.len() implies (#[trigger] rest[i]).0 <= rest[i].1 by {
            assert(rest[i] == ex[i + 1]);
        }
        assert(separated(rest));
        let (x, y) = (ex[0].0 as int, ex[0].1 as int);
        if y < cur || x > b {
            lemma_cut_stands_apart(cur, b, rest);
        } else if y < b {
            lemma_cut_stands_apart(y + 1, b, rest);
            let tail = cut(y + 1, b, rest);
            let whole = cut(cur, b, ex);
            if cur < x {
                assert(whole =~= seq![(cur as u32, (x - 1) as u32)] + tail);
                assert forall|i: int, j: int| 0 <= i < j < whole.len() implies (#[trigger] whole[i]).1 + 1 < (
                #[trigger] whole[j]).0 && whole[i].0 <= whole[j].0 by {
                    assert(whole[j] == tail[j - 1]);
                    if i > 0 {
                        assert(whole[i] == tail[i - 1]);
                    }
                }
                assert forall|i: int| 0 <= i < whole.len() implies cur <= (#[trigger] whole[i]).0
                    && whole[i].1 <= b by {
                    if i > 0 {
                        assert(whole[i] == tail[i - 1]);
                    }
                }
            } else {
                assert(whole =~= tail);
            }
        }
    }
}

/// Windows that stand apart still do after others were cut out of them.
pub proof fn subtract_keeps_apart(inc: Seq<Window>, ex: Seq<Window>)
    requires
        separated(inc),
        canonical(ex),
    ensures
        separated(subtract_spec(inc, ex)),
        forall|i: int|
            0 <= i < subtract_spec(inc, ex).len() ==> exists|k: int|
                0 <= k < inc.len() && (#[trigger] subtract_spec(inc, ex)[i]).1 <= (#[trigger] inc[k]).1,
    decreases inc.len(),
{
    if inc.len() > 0 {
        let front = inc.drop_last();
        let w = inc.last();
        assert forall|i: int, j: int| 0 <= i < j < front.len() implies (#[trigger] front[i]).1 + 1 < (
        #[trigger] front[j]).0 && front[i].0 <= front[j].0 by {
            assert(front[i] == inc[i] && front[j] == inc[j]);
        }
        subtract_keeps_apart(front, ex);
        lemma_cut_stands_apart(w.0 as int, w.1 as int, ex);
        let a = subtract_spec(front, ex);
        let c = cut(w.0 as int, w.1 as int, ex);
        let whole = subtract_spec(inc, ex);
        lemma_cut(w.0 as int, w.1 as int, ex, 0);
        subtract_removes_cover(front, ex, 0);
        assert forall|i: int, j: int| 0 <= i < j < whole.len() implies (#[trigger] whole[i]).1 + 1 < (
        #[trigger] whole[j]).0 && whole[i].0 <= whole[j].0 by {
            if j < a.len() {
                assert(whole[i] == a[i] && whole[j] == a[j]);
            } else if i < a.len() {
                assert(whole[i] == a[i] && whole[j] == c[j - a.len()]);
                let k = choose|k: int| 0 <= k < front.len() && a[i].1 <= (#[trigger] front[k]).1;
                assert(front[k] == inc[k]);
                assert(inc[k].1 + 1 < inc[inc.len() - 1].0);
                assert(a[i].0 <= a[i].1);
            } else {
                assert(whole[i] == c[i - a.len()] && whole[j] == c[j - a.len()]);
            }
        }
        assert forall|i: int| 0 <= i < whole.len() implies exists|k: int|
            0 <= k < inc.len() && (#[trigger] whole[i]).1 <= (#[trigger] inc[k]).1 by {
            if i < a.len() {
                assert(whole[i] == a[i]);
                let k = choose|k: int| 0 <= k < front.len() && a[i].1 <= (#[trigger] front[k]).1;
                assert(front[k] == inc[k]);
            } else {
                assert(whole[i] == c[i - a.len()]);
                assert(inc[inc.len() - 1] == w);
            }
        }
    }
}

/// Cuts the windows `excludes` out of each window of `includes`. The cuts are made in the order
/// given: with windows that stand apart in rising order, nothing of them is left.
pub fn subtract(includes: &[Window], excludes: &[Window]) -> (out: Vec<Window>)
    ensures
        out@ == subtract_spec(includes@, excludes@),
        separated(excludes@) ==> proper(out@) && forall|x: u32|
            covers(out@, x) == (covers(includes@, x) && !covers(excludes@, x)),
        separated(includes@) && canonical(excludes@) ==> canonical(out@),
{
    let mut out: Vec<Window> = Vec::new();
    let mut i: usize = 0;
    while i < includes.len()
        invariant
            i <= includes@.len(),
            out@ == subtract_spec(includes@.take(i as int), excludes@),
        decreases includes@.len() - i,
    {
        let (a, b) = includes[i];
        assert(includes@.take(i + 1).drop_last() =~= includes@.take(i as int));
        subtract_one(a, b, excludes, &mut out);
        i = i + 1;
    }
    assert(includes@.take(i as int) =~= includes@);
    proof {
        if separated(excludes@) {
            assert forall|x: u32| covers(out@, x) == (covers(includes@, x) && !covers(excludes@, x)) by {
                subtract_removes_cover(includes@, excludes@, x);
            }
            subtract_removes_cover(includes@, excludes@, 0);
        }
        if separated(includes@) && canonical(excludes@) {
            subtract_keeps_apart(includes@, excludes@);
        }
    }
    out
}

/// Appends what is left of `a..=b` when the windows `excludes` are cut out in turn.
pub fn subtract_one(a: u32, b: u32, excludes: &[Window], out: &mut Vec<Window>)
    ensures
        final(out)@ == old(out)@ + cut(a as int, b as int, excludes@),
{
    let ghost whole = out@ + cut(a as int, b as int, excludes@);
    let mut cur: u32 = a;
    let mut i: usize = 0;
    assert(excludes@.skip(0) =~= excludes@);
    while i < excludes.len()
        invariant
            i <= excludes@.len(),
            whole == old(out)@ + cut(a as int, b as int, excludes@),
            whole == out@ + cut(cur as int, b as int, excludes@.skip(i as int)),
        decreases excludes@.len() - i,
    {
        let (x, y) = excludes[i];
        let ghost ex = excludes@.skip(i as int);
        assert(ex[0] == (x, y));
        assert(ex.skip(1) =~= excludes@.skip(i + 1));
        i = i + 1;
        if y < cur || x > b {
            continue;
        }
        let lo: u32 = if x > cur {
            x
        } else {
            cur
        };
        let ghost had = out@;
        if cur < lo {
            out.push((cur, lo - 1));
        }
        if y >= b {
            assert(out@ =~= whole);
            return;
        }
        cur = y + 1;
        assert(whole =~= out@ + cut(cur as int, b as int, ex.skip(1)));
    }
    assert(excludes@.skip(i as int) =~= Seq::empty());
    if cur <= b {
        out.push((cur, b));
    }
    assert(out@ =~= whole);
}

/// How many addresses the windows hold, counted window by window.
pub open spec fn count(ws: Seq<Window>) -> nat
    decreases ws.len(),
{
    if ws.len() == 0 {
        0
    } else {
        (count(ws.drop_last()) + ws.last().1 - ws.last().0 + 1) as nat
    }
}

/// The `n`-th address, from 0, of windows in rising order.
pub open spec fn nth_spec(ws: Seq<Window>, n: nat) -> u32
    decreases ws.len(),
{
    if ws.len() == 0 {
        0
    } else {
        let before = count(ws.drop_last());
        if n >= before {
            (ws.last().0 + (n - before)) as u32
        } else {
            nth_spec(ws.drop_last(), n)
        }
    }
}

/// Windows in the form an address space keeps them: proper, in rising order, never touching.
pub open spec fn canonical(ws: Seq<Window>) -> bool {
    proper(ws) && separated(ws)
}

proof fn lemma_canonical_front(ws: Seq<Window>)
    requires
        canonical(ws),
        ws.len() > 0,
    ensures
        canonical(ws.drop_last()),
        forall|i: int| 0 <= i < ws.len() ==> (#[trigger] ws.drop_last().push(ws.last())[i]) == ws[i],
{
    let front = ws.drop_last();
    assert forall|i: int, j: int| 0 <= i < j < front.len() implies (#[trigger] front[i]).1 + 1 < (
    #[trigger] front[j]).0 && front[i].0 <= front[j].0 by {
        assert(front[i] == ws[i] && front[j] == ws[j]);
    }
}

proof fn lemma_covers_front(ws: Seq<Window>, x: u32)
    requires
        canonical(ws),
        ws.len() > 0,
    ensures
        covers(ws.drop_last(), x) == (covers(ws, x) && x < ws.last().0),
        covers(ws, x) ==> x <= ws.last().1,
        covers(ws, x) && x < ws.last().0 ==> x + 1 < ws.last().0,
{
    let front = ws.drop_last();
    if covers(front, x) {
        let i = choose|i: int| 0 <= i < front.len() && (#[trigger] front[i]).0 <= x <= front[i].1;
        assert(ws[i] == front[i]);
        assert(ws[i].1 + 1 < ws[ws.len() - 1].0);
    }
    if covers(ws, x) {
        let i = choose|i: int| 0 <= i < ws.len() && (#[trigger] ws[i]).0 <= x <= ws[i].1;
        if i < ws.len() - 1 {
            assert(front[i] == ws[i]);
            assert(ws[i].1 + 1 < ws[ws.len() - 1].0);
            assert(ws.last().0 <= ws.last().1);
        }
    }
}

/// Windows in canonical form that hold the same addresses are the same windows.
pub proof fn canonical_is_unique(a: Seq<Window>, b: Seq<Window>)
    requires
        canonical(a),
        canonical(b),
        forall|x: u32| covers(a, x) == covers(b, x),
    ensures
        a == b,
    decreases a.len(),
{
    if a.len() == 0 || b.len() == 0 {
        if a.len() > 0 {
            assert(covers(a, a[0].0));
        }
        if b.len() > 0 {
            assert(covers(b, b[0].0));
        }
        assert(a =~= b);
    } else {
        let (p, q) = (a.last(), b.last());
        assert(a[a.len() - 1] == p && b[b.len() - 1] == q);
        assert(covers(a, p.0) && covers(a, p.1) && covers(b, q.0) && covers(b, q.1));
        lemma_covers_front(b, p.1);
        lemma_covers_front(a, q.1);
        if p.0 < q.0 {
            let x = (q.0 - 1) as u32;
            assert(a[a.len() - 1].0 <= x <= a[a.len() - 1].1);
            assert(covers(a, x));
            lemma_covers_front(b, x);
        } else if q.0 < p.0 {
            let x = (p.0 - 1) as u32;
            assert(b[b.len() - 1].0 <= x <= b[b.len() - 1].1);
            assert(covers(b, x));
            lemma_covers_front(a, x);
        }
        lemma_canonical_front(a);
        lemma_canonical_front(b);
        assert forall|x: u32| covers(a.drop_last(), x) == covers(b.drop_last(), x) by {
            lemma_covers_front(a, x);
            lemma_covers_front(b, x);
        }
        canonical_is_unique(a.drop_last(), b.drop_last());
        assert(a =~= a.drop_last().push(p));
        assert(b =~= b.drop_last().push(q));
    }
}

/// The windows of the addresses below `m` that `p` holds of.
proof fn lemma_windows_below(p: spec_fn(u32) -> bool, m: nat) -> (ws: Seq<Window>)
    requires
        m <= 0x1_0000_0000,
    ensures
        canonical(ws),
        forall|x: u32| #[trigger] covers(ws, x) == (p(x) && x < m),
        forall|i: int| 0 <= i < ws.len() ==> (#[trigger] ws[i]).1 < m,
    decreases m,
{
    if m == 0 {
        Seq::empty()
    } else {
        let q = (m - 1) as u32;
        let ws = lemma_windows_below(p, (m - 1) as nat);
        if !p(q) {
            ws
        } else if ws.len() > 0 && ws.last().1 + 1 == q {
            let front = ws.drop_last();
            let w = (ws.last().0, q);
            lemma_canonical_front(ws);
            let grown = front.push(w);
            assert(ws[ws.len() - 1] == ws.last());
            assert forall|i: int, j: int| 0 <= i < j < grown.len() implies (#[trigger] grown[i]).1 + 1 < (
            #[trigger] grown[j]).0 && grown[i].0 <= grown[j].0 by {
                assert(grown[i] == ws[i]);
                assert(ws[i].1 + 1 < ws[j].0);
                assert(grown[j].0 == ws[j].0);
            }
            assert forall|x: u32| #[trigger] covers(grown, x) == (p(x) && x < m) by {
                lemma_covers_push(front, w, x);
                lemma_covers_push(front, ws.last(), x);
                assert(front.push(ws.last()) =~= ws);
                assert(covers(ws, x) == (p(x) && x < m - 1));
            }
            grown
        } else {
            let w = (q, q);
            let grown = ws.push(w);
            assert forall|i: int, j: int| 0 <= i < j < grown.len() implies (#[trigger] grown[i]).1 + 1 < (
            #[trigger] grown[j]).0 && grown[i].0 <= grown[j].0 by {
                assert(grown[i] == ws[i]);
                if j == ws.len() {
                    if i < ws.len() - 1 {
                        assert(ws[i].1 + 1 < ws[ws.len() - 1].0);
                        assert(ws[ws.len() - 1].0 <= ws[ws.len() - 1].1);
                    }
                    assert(ws[i].0 <= ws[i].1);
                } else {
                    assert(grown[j] == ws[j]);
                }
            }
            assert forall|x: u32| #[trigger] covers(grown, x) == (p(x) && x < m) by {
                lemma_covers_push(ws, w, x);
                assert(covers(ws, x) == (p(x) && x < m - 1));
            }
            grown
        }
    }
}

/// Any set of addresses has windows in canonical form.
pub proof fn canonical_form_exists(p: spec_fn(u32) -> bool) -> (ws: Seq<Window>)
    ensures
        canonical(ws),
        forall|x: u32| #[trigger] covers(ws, x) == p(x),
{
    lemma_windows_below(p, 0x1_0000_0000)
}

proof fn lemma_count_bound(ws: Seq<Window>)
    requires
        canonical(ws),
    ensures
        ws.len() > 0 ==> 0 < count(ws) <= ws.last().1 + 1,
        ws.len() <= count(ws),
    decreases ws.len(),
{
    if ws.len() > 0 {
        lemma_canonical_front(ws);
        lemma_count_bound(ws.drop_last());
        if ws.len() > 1 {
            assert(ws.drop_last().last() == ws[ws.len() - 2]);
        }
    }
}

proof fn lemma_count_prefix(ws: Seq<Window>, i: int, j: int)
    requires
        canonical(ws),
        0 <= i < j <= ws.len(),
    ensures
        count(ws.take(i)) + ws[i].1 - ws[i].0 + 1 <= count(ws.take(j)),
        count(ws.take(j)) <= ws[j - 1].1 + 1,
        canonical(ws.take(i)),
    decreases j,
{
    assert(canonical(ws.take(j)));
    assert(canonical(ws.take(i)));
    lemma_count_bound(ws.take(j));
    assert(ws.take(j).drop_last() =~= ws.take(j - 1));
    if i < j - 1 {
        lemma_count_prefix(ws, i, j - 1);
    }
}

/// The window that holds the `n`-th address tells what that address is.
proof fn lemma_nth_in_window(ws: Seq<Window>, i: int, n: nat)
    requires
        canonical(ws),
        0 <= i < ws.len(),
        count(ws.take(i)) <= n < count(ws.take(i + 1)),
    ensures
        nth_spec(ws, n) == ws[i].0 + (n - count(ws.take(i))),
        ws[i].0 <= nth_spec(ws, n) <= ws[i].1,
    decreases ws.len(),
{
    assert(ws.take(i + 1).drop_last() =~= ws.take(i));
    if i == ws.len() - 1 {
        assert(ws.take(i) =~= ws.drop_last());
        assert(ws.take(i + 1) =~= ws);
    } else {
        lemma_canonical_front(ws);
        let front = ws.drop_last();
        assert(front.take(i) =~= ws.take(i));
        assert(front.take(i + 1) =~= ws.take(i + 1));
        lemma_nth_in_window(front, i, n);
        assert(count(ws.take(i + 1)) <= count(front)) by {
            assert(ws.take(ws.len() - 1) =~= front);
            if i + 1 < ws.len() - 1 {
                lemma_count_prefix(ws, i + 1, ws.len() - 1);
            }
        }
    }
}

/// Every address of the space stands in some window.
proof fn lemma_window_of_nth(ws: Seq<Window>, n: nat) -> (i: int)
    requires
        canonical(ws),
        n < count(ws),
    ensures
        0 <= i < ws.len(),
        count(ws.take(i)) <= n < count(ws.take(i + 1)),
    decreases ws.len(),
{
    lemma_canonical_front(ws);
    let front = ws.drop_last();
    assert(ws.take(ws.len() - 1) =~= front);
    assert(ws.take(ws.len() as int) =~= ws);
    if n >= count(front) {
        ws.len() - 1
    } else {
        let i = lemma_window_of_nth(front, n);
        assert(front.take(i) =~= ws.take(i));
        assert(front.take(i + 1) =~= ws.take(i + 1));
        i
    }
}

/// What `nth` gives is an address of the space.
pub proof fn nth_is_covered(ws: Seq<Window>, n: nat)
    requires
        canonical(ws),
        n < count(ws),
    ensures
        covers(ws, nth_spec(ws, n)),
{
    let i = lemma_window_of_nth(ws, n);
    lemma_nth_in_window(ws, i, n);
    assert(ws[i].0 <= nth_spec(ws, n) <= ws[i].1);
}

/// `nth` goes through the addresses of the space in rising order.
pub proof fn nth_is_rising(ws: Seq<Window>, n: nat, m: nat)
    requires
        canonical(ws),
        n < m < count(ws),
    ensures
        nth_spec(ws, n) < nth_spec(ws, m),
{
    let i = lemma_window_of_nth(ws, n);
    let j = lemma_window_of_nth(ws, m);
    lemma_nth_in_window(ws, i, n);
    lemma_nth_in_window(ws, j, m);
    if j < i {
        if j + 1 < i {
            lemma_count_prefix(ws, j + 1, i);
        }
        assert(count(ws.take(j + 1)) <= count(ws.take(i)));
    }
}

/// `nth` reaches every address of the space.
pub proof fn nth_is_onto(ws: Seq<Window>, x: u32)
    requires
        canonical(ws),
        covers(ws, x),
    ensures
        exists|n: nat| n < count(ws) && #[trigger] nth_spec(ws, n) == x,
{
    let i = choose|i: int| 0 <= i < ws.len() && (#[trigger] ws[i]).0 <= x <= ws[i].1;
    let n = (count(ws.take(i)) + x - ws[i].0) as nat;
    assert(ws.take(i + 1).drop_last() =~= ws.take(i));
    assert(ws.take(ws.len() as int) =~= ws);
    lemma_nth_in_window(ws, i, n);
    if i + 1 < ws.len() {
        lemma_count_prefix(ws, i + 1, ws.len() as int);
    }
    assert(n < count(ws) && nth_spec(ws, n) == x);
}

/// The address that step `n` of a shuffled scan visits.
pub open spec fn step_spec(ws: Seq<Window>, n: nat, stride: nat) -> u32 {
    nth_spec(ws, permuted(n, stride, count(ws)))
}

/// A scan that takes every step once visits every address of the space exactly once: some step
/// reaches it, no two steps meet, and no step leaves the space.
pub proof fn scan_visits_each_address_once(ws: Seq<Window>, stride: nat)
    requires
        canonical(ws),
        ws.len() > 0,
        gcd_spec(stride, count(ws)) == 1,
    ensures
        forall|x: u32|
            #[trigger] covers(ws, x) ==> exists|n: nat|
                n < count(ws) && #[trigger] step_spec(ws, n, stride) == x,
        forall|n: nat, m: nat|
            n < count(ws) && m < count(ws) && #[trigger] step_spec(ws, n, stride) == #[trigger] step_spec(
                ws,
                m,
                stride,
            ) ==> n == m,
        forall|n: nat| n < count(ws) ==> covers(ws, #[trigger] step_spec(ws, n, stride)),
{
    let total = count(ws);
    lemma_count_bound(ws);
    assert forall|x: u32| #[trigger] covers(ws, x) implies exists|n: nat|
        n < count(ws) && #[trigger] step_spec(ws, n, stride) == x by {
        nth_is_onto(ws, x);
        let place = choose|p: nat| p < count(ws) && #[trigger] nth_spec(ws, p) == x;
        permuted_is_onto(place, stride, total);
        let n = choose|n: nat| n < total && #[trigger] permuted(n, stride, total) == place;
        assert(step_spec(ws, n, stride) == x);
    }
    assert forall|n: nat, m: nat|
        n < count(ws) && m < count(ws) && #[trigger] step_spec(ws, n, stride) == #[trigger] step_spec(
            ws,
            m,
            stride,
        ) implies n == m by {
        let (p, q) = (permuted(n, stride, total), permuted(m, stride, total));
        lemma_permuted_in_range(n, stride, total);
        lemma_permuted_in_range(m, stride, total);
        if p < q {
            nth_is_rising(ws, p, q);
        } else if q < p {
            nth_is_rising(ws, q, p);
        }
        permuted_is_injective(n, m, stride, total);
    }
    assert forall|n: nat| n < count(ws) implies covers(ws, #[trigger] step_spec(ws, n, stride)) by {
        lemma_permuted_in_range(n, stride, total);
        nth_is_covered(ws, permuted(n, stride, total));
    }
}

/// Some step from `from` on, and before `to`, reaches `x`.
pub open spec fn reached(ws: Seq<Window>, stride: nat, from: nat, to: nat, x: u32) -> bool {
    exists|n: nat| from <= n < to && #[trigger] step_spec(ws, n, stride) == x
}

/// A scan that stops before step `cursor` and one that goes on there with the same shuffle share
/// the addresses of the space: each is visited by one of them, and none by both.
pub proof fn two_runs_share_the_addresses(ws: Seq<Window>, stride: nat, cursor: nat, x: u32)
    requires
        canonical(ws),
        ws.len() > 0,
        gcd_spec(stride, count(ws)) == 1,
        cursor <= count(ws),
        covers(ws, x),
    ensures
        reached(ws, stride, 0, cursor, x) != reached(ws, stride, cursor, count(ws), x),
{
    scan_visits_each_address_once(ws, stride);
    let n = choose|n: nat| n < count(ws) && #[trigger] step_spec(ws, n, stride) == x;
    if n < cursor {
        assert(reached(ws, stride, 0, cursor, x));
    } else {
        assert(reached(ws, stride, cursor, count(ws), x));
    }
}

/// The shuffle stays inside the space.
pub proof fn lemma_permuted_in_range(n: nat, stride: nat, total: nat)
    requires
        total > 0,
    ensures
        permuted(n, stride, total) < total,
{
}

/// Why a text is not a CIDR block.
#[derive(Clone, Copy, Debug, PartialEq, Eq, Structural)]
pub enum CidrError {
    /// The part before the slash is no dotted quad.
    Address,
    /// The part after the slash is no number.
    Prefix(IntError),
    /// The prefix has more bits than an address.
    PrefixTooLong(u32),
}

/// Why there is no address space.
#[derive(Clone, Copy, Debug, PartialEq, Eq, Structural)]
pub enum SpaceError {
    /// No window holds an address.
    Empty,
    /// A range is not a CIDR block.
    Cidr(CidrError),
    /// Nothing is left of the ranges; `reserved` tells whether reserved blocks were cut out.
    NothingLeft { reserved: bool },
}

/// A set of addresses with constant-time access by rank.
pub struct AddrSpace {
    /// The windows, in rising order.
    pub windows: Vec<Window>,
    /// How many addresses stand in the windows before each one.
    pub prefix: Vec<u64>,
    /// How many addresses there are.
    pub total: u64,
}

impl View for AddrSpace {
    type V = Seq<Window>;

    /// The windows of the space.
    open spec fn view(&self) -> Seq<Window> {
        self.windows@
    }
}

impl Clone for AddrSpace {
    fn clone(&self) -> (r: Self)
        ensures
            r@ == self@,
            r.prefix@ == self.prefix@,
            r.total == self.total,
    {
        AddrSpace {
            windows: slice_to_vec(self.windows.as_slice()),
            prefix: slice_to_vec(self.prefix.as_slice()),
            total: self.total,
        }
    }
}

impl AddrSpace {
    /// `prefix` holds the rank of each window's first address.
    pub open spec fn ranks(&self) -> bool {
        &&& self.prefix@.len() == self.windows@.len()
        &&& forall|i: int|
            0 <= i < self.windows@.len() ==> #[trigger] self.prefix@[i] == count(self.windows@.take(i))
    }

    /// The windows are canonical, there is at least one, and `total` counts their addresses.
    pub open spec fn wf(&self) -> bool {
        &&& canonical(self@)
        &&& self@.len() > 0
        &&& self.total == count(self@)
        &&& self.ranks()
    }

    /// The space of all addresses that some window covers.
    pub fn new(windows: Vec<Window>) -> (r: Result<Self, SpaceError>)
        ensures
            match r {
                Ok(space) => space.wf() && forall|x: u32| covers(space@, x) == covers(windows@, x),
                Err(e) => e == SpaceError::Empty && forall|x: u32| !covers(windows@, x),
            },
    {
        let ghost given = windows@;
        let merged: Vec<Window> = merge(windows);
        let mut kept: Vec<Window> = Vec::with_capacity(merged.len());
        let mut prefix: Vec<u64> = Vec::with_capacity(merged.len());
        let mut acc: u64 = 0;
        let mut i: usize = 0;
        while i < merged.len()
            invariant
                i <= merged@.len(),
                separated(merged@),
                canonical(kept@),
                forall|k: int, j: int|
                    0 <= k < kept@.len() && i <= j < merged@.len() ==> (#[trigger] kept@[k]).1 + 1 < (
                    #[trigger] merged@[j]).0 && kept@[k].0 <= merged@[j].0,
                forall|x: u32| covers(kept@, x) == covers(merged@.take(i as int), x),
                acc == count(kept@),
                prefix@.len() == kept@.len(),
                forall|k: int| 0 <= k < kept@.len() ==> #[trigger] prefix@[k] == count(kept@.take(k)),
            decreases merged@.len() - i,
        {
            let (a, b) = merged[i];
            let ghost had = kept@;
            let ghost had_prefix = prefix@;
            let ghost seen = merged@.take(i as int);
            assert(merged@.take(i + 1) =~= seen.push((a, b)));
            if a <= b {
                proof {
                    lemma_count_bound(kept@);
                    if had.len() > 0 {
                        assert(had.last().1 + 1 < merged@[i as int].0);
                    }
                }
                prefix.push(acc);
                acc = acc + (b as u64 - a as u64 + 1);
                kept.push((a, b));
                assert(kept@.drop_last() =~= had);
                assert(kept@.take(had.len() as int) =~= had);
                assert forall|k: int| 0 <= k < kept@.len() implies #[trigger] prefix@[k] == count(
                    kept@.take(k),
                ) by {
                    if k < had.len() {
                        assert(kept@.take(k) =~= had.take(k));
                        assert(prefix@[k] == had_prefix[k]);
                    }
                }
            }
            assert forall|x: u32| covers(kept@, x) == covers(merged@.take(i + 1), x) by {
                lemma_covers_push(seen, (a, b), x);
                lemma_covers_push(had, (a, b), x);
            }
            i = i + 1;
        }
        assert(merged@.take(i as int) =~= merged@);
        assert forall|x: u32| covers(kept@, x) == covers(given, x) by {
            assert(covers(merged@, x) == covers(given, x));
        }
        if kept.len() == 0 {
            return Err(SpaceError::Empty);
        }
        Ok(AddrSpace { windows: kept, prefix, total: acc })
    }

    /// The `n`-th address of the space in rising order, from 0.
    pub fn nth(&self, n: u64) -> (r: u32)
        requires
            self.wf(),
            n < self.total,
        ensures
            r == nth_spec(self@, n as nat),
            covers(self@, r),
    {
        let ghost ws = self.windows@;
        let mut lo: usize = 0;
        let mut hi: usize = self.prefix.len();
        assert(ws.take(0) =~= Seq::empty());
        assert(ws.take(ws.len() as int) =~= ws);
        // the answer lies in a window from lo to before hi
        while hi - lo > 1
            invariant
                lo < hi <= ws.len(),
                ws == self.windows@,
                self.wf(),
                count(ws.take(lo as int)) <= n < count(ws.take(hi as int)),
            decreases hi - lo,
        {
            let mid: usize = lo + (hi - lo) / 2;
            if self.prefix[mid] <= n {
                lo = mid;
            } else {
                hi = mid;
            }
        }
        let (start, _) = self.windows[lo];
        proof {
            lemma_nth_in_window(ws, lo as int, n as nat);
            nth_is_covered(ws, n as nat);
        }
        start + (n - self.prefix[lo]) as u32
    }

    /// The address that step `n` of a shuffled scan visits. Steps past the end go round again.
    pub fn ip_at_step(&self, n: u64, stride: u64) -> (r: u32)
        requires
            self.wf(),
            self.total <= 1 || n < u64::MAX,
        ensures
            r == step_spec(self@, n as nat, stride as nat),
            covers(self@, r),
    {
        proof {
            lemma_permuted_in_range(n as nat, stride as nat, self.total as nat);
            lemma_count_bound(self@);
        }
        self.nth(permute_n(n, stride, self.total))
    }

    /// The stride of the shuffle that `seed` picks.
    pub fn stride(&self, seed: u64) -> (r: u64)
        requires
            self.wf(),
        ensures
            r == stride_spec(self.total, seed),
            r >= 1,
            gcd_spec(r as nat, count(self@)) == 1,
    {
        pick_stride(self.total, seed)
    }
}

/// Where step `n` of a walk with the given stride stands on a circle of `total` places.
pub fn permute_n(n: u64, stride: u64, total: u64) -> (r: u64)
    requires
        total <= 1 || n < u64::MAX,
    ensures
        r == permuted(n as nat, stride as nat, total as nat),
        total > 0 ==> r < total,
{
    if total <= 1 {
        return 0;
    }
    let k: u64 = n + 1;
    assert(0 <= k * stride <= 0xffff_ffff_ffff_ffff * 0xffff_ffff_ffff_ffff) by (nonlinear_arith)
        requires
            0 <= k <= 0xffff_ffff_ffff_ffff,
            0 <= stride <= 0xffff_ffff_ffff_ffff,
    ;
    ((k as u128 * stride as u128) % total as u128) as u64
}

/// The first number from `s` on that is coprime to `total`, or 1 when there is none below
/// `total`.
pub open spec fn next_coprime(s: nat, total: nat) -> nat
    decreases total - s,
{
    if s >= total {
        1
    } else if gcd_spec(s, total) == 1 {
        s
    } else {
        next_coprime(s + 1, total)
    }
}

/// The stride that `seed` picks for `total` places.
pub open spec fn stride_spec(total: u64, seed: u64) -> nat {
    if total <= 1 {
        1
    } else {
        let s = seed.wrapping_mul(0x9E3779B97F4A7C15) % total;
        next_coprime(
            if s == 0 {
                1
            } else {
                s as nat
            },
            total as nat,
        )
    }
}

proof fn lemma_gcd_one(total: nat)
    ensures
        gcd_spec(1, total) == 1,
{
    reveal_with_fuel(gcd_spec, 3);
    if total > 1 {
        vstd::arithmetic::div_mod::lemma_small_mod(1, total);
    }
}

/// A stride coprime to `total`, so that the walk passes every place before it repeats.
pub fn pick_stride(total: u64, seed: u64) -> (r: u64)
    ensures
        r == stride_spec(total, seed),
        r >= 1,
        total > 1 ==> r < total,
        gcd_spec(r as nat, total as nat) == 1,
{
    proof {
        lemma_gcd_one(total as nat);
    }
    if total <= 1 {
        return 1;
    }
    let mut s: u64 = seed.wrapping_mul(0x9E3779B97F4A7C15) % total;
    if s == 0 {
        s = 1;
    }
    while gcd(s, total) != 1
        invariant
            1 <= s < total,
            gcd_spec(1, total as nat) == 1,
            next_coprime(s as nat, total as nat) == stride_spec(total, seed),
        decreases total - s,
    {
        assert(next_coprime(s as nat + 1, total as nat) == stride_spec(total, seed));
        assert(next_coprime(total as nat, total as nat) == 1);
        s = s + 1;
        if s >= total {
            return 1;
        }
    }
    s
}

impl CidrError {
    pub open spec fn message_spec(self) -> Seq<char> {
        match self {
            CidrError::Address => "invalid IPv4 address syntax"@,
            CidrError::Prefix(e) => e.message_spec(),
            CidrError::PrefixTooLong(p) => "prefix "@ + dec(p as nat) + " is invalid"@,
        }
    }

    /// What to tell the user.
    pub fn message(&self) -> (r: String)
        ensures
            r@ == self.message_spec(),
    {
        match *self {
            CidrError::Address => "invalid IPv4 address syntax".to_string(),
            CidrError::Prefix(e) => e.message().to_string(),
            CidrError::PrefixTooLong(p) => {
                let mut out: String = "prefix ".to_string();
                push_dec(&mut out, p as u64);
                out.append(" is invalid");
                out
            },
        }
    }
}

/// The bits of an address that a prefix of the given length fixes.
pub open spec fn mask_spec(pfx: u32) -> u32 {
    if pfx == 0 {
        0
    } else {
        u32::MAX << ((32 - pfx) as u32)
    }
}

/// The addresses that share the first `pfx` bits of `ip`.
pub open spec fn block(ip: u32, pfx: u32) -> Window {
    (ip & mask_spec(pfx), (ip & mask_spec(pfx)) | !mask_spec(pfx))
}

/// A block is exactly the addresses that agree with `ip` in the first `pfx` bits.
pub proof fn block_is_prefix(ip: u32, pfx: u32, x: u32)
    requires
        pfx <= 32,
    ensures
        block(ip, pfx).0 <= x <= block(ip, pfx).1 <==> x & mask_spec(pfx) == ip & mask_spec(pfx),
        block(ip, pfx).0 <= ip <= block(ip, pfx).1,
{
    let k: u32 = (32 - pfx) as u32;
    if pfx == 0 {
        assert((ip & 0u32) == 0 && (x & 0u32) == 0 && ((ip & 0u32) | !0u32) == 0xffff_ffffu32) by (bit_vector);
    } else {
        assert(((ip & (0xffff_ffffu32 << k)) <= x && x <= ((ip & (0xffff_ffffu32 << k)) | !(0xffff_ffffu32 << k)))
            == ((x & (0xffff_ffffu32 << k)) == (ip & (0xffff_ffffu32 << k)))) by (bit_vector)
            requires
                k < 32,
        ;
        assert((ip & (0xffff_ffffu32 << k)) <= ip && ip <= ((ip & (0xffff_ffffu32 << k)) | !(0xffff_ffffu32
            << k))) by (bit_vector);
    }
}

/// The window that a trimmed text names: a dotted quad, or one with a prefix length.
pub open spec fn bare_cidr_spec(s: Seq<char>) -> Result<Window, CidrError> {
    match split_once_spec(s, '/') {
        Some((ip, pfx)) => match quad_spec(ip) {
            None => Err(CidrError::Address),
            Some(ip) => match unsigned_spec(pfx, 10, u32::MAX as nat) {
                Err(e) => Err(CidrError::Prefix(e)),
                Ok(p) => if p > 32 {
                    Err(CidrError::PrefixTooLong(p as u32))
                } else {
                    Ok(block(ip as u32, p as u32))
                },
            },
        },
        None => match quad_spec(s) {
            None => Err(CidrError::Address),
            Some(ip) => Ok((ip as u32, ip as u32)),
        },
    }
}

/// The window that a text names, white space around it aside.
pub open spec fn cidr_spec(s: Seq<char>) -> Result<Window, CidrError> {
    bare_cidr_spec(trim_spec(s))
}

fn parse_cidr_chars(s: &[char]) -> (r: Result<Window, CidrError>)
    ensures
        r == cidr_spec(s@),
        r matches Ok(w) ==> w.0 <= w.1,
{
    let s: &[char] = trim(s);
    match split_once(s, '/') {
        Some((ip, pfx)) => {
            let Some(ip) = parse_ipv4(ip) else {
                return Err(CidrError::Address);
            };
            let p: u32 = match parse_unsigned(pfx, 10, u32::MAX as u64) {
                Ok(p) => p as u32,
                Err(e) => {
                    return Err(CidrError::Prefix(e));
                },
            };
            if p > 32 {
                return Err(CidrError::PrefixTooLong(p));
            }
            let mask: u32 = if p == 0 {
                0
            } else {
                u32::MAX << (32 - p)
            };
            let start: u32 = ip & mask;
            let end: u32 = start | !mask;
            proof {
                block_is_prefix(ip, p, ip);
            }
            Ok((start, end))
        },
        None => {
            match parse_ipv4(s) {
                Some(ip) => Ok((ip, ip)),
                None => Err(CidrError::Address),
            }
        },
    }
}

/// Reads a CIDR block or a single address.
pub fn parse_cidr(s: &str) -> (r: Result<Window, CidrError>)
    ensures
        r == cidr_spec(s@),
        r matches Ok(w) ==> w.0 <= w.1,
{
    let c: Vec<char> = to_chars(s);
    parse_cidr_chars(c.as_slice())
}

/// The blocks that IANA keeps for special purposes.
pub open spec fn reserved_blocks() -> Seq<Window> {
    seq![
        (0x0000_0000u32, 0x00ff_ffffu32),  // 0.0.0.0/8
        (0x0a00_0000u32, 0x0aff_ffffu32),  // 10.0.0.0/8
        (0x6440_0000u32, 0x647f_ffffu32),  // 100.64.0.0/10
        (0x7f00_0000u32, 0x7fff_ffffu32),  // 127.0.0.0/8
        (0xa9fe_0000u32, 0xa9fe_ffffu32),  // 169.254.0.0/16
        (0xac10_0000u32, 0xac1f_ffffu32),  // 172.16.0.0/12
        (0xc000_0000u32, 0xc000_00ffu32),  // 192.0.0.0/24
        (0xc000_0200u32, 0xc000_02ffu32),  // 192.0.2.0/24
        (0xc01f_c400u32, 0xc01f_c4ffu32),  // 192.31.196.0/24
        (0xc034_c100u32, 0xc034_c1ffu32),  // 192.52.193.0/24
        (0xc058_6300u32, 0xc058_63ffu32),  // 192.88.99.0/24
        (0xc0a8_0000u32, 0xc0a8_ffffu32),  // 192.168.0.0/16
        (0xc0af_3000u32, 0xc0af_30ffu32),  // 192.175.48.0/24
        (0xc612_0000u32, 0xc613_ffffu32),  // 198.18.0.0/15
        (0xc633_6400u32, 0xc633_64ffu32),  // 198.51.100.0/24
        (0xcb00_7100u32, 0xcb00_71ffu32),  // 203.0.113.0/24
        (0xe000_0000u32, 0xefff_ffffu32),  // 224.0.0.0/4
        (0xf000_0000u32, 0xffff_ffffu32),  // 240.0.0.0/4
    ]
}

/// The blocks that a scan skips unless it is told otherwise, merged.
pub fn reserved_ranges() -> (out: Vec<Window>)
    ensures
        out@ == merge_spec(reserved_blocks()),
        canonical(out@),
        forall|x: u32| covers(out@, x) == covers(reserved_blocks(), x),
{
    let v: Vec<Window> = vec![
        (0x0000_0000, 0x00ff_ffff),
        (0x0a00_0000, 0x0aff_ffff),
        (0x6440_0000, 0x647f_ffff),
        (0x7f00_0000, 0x7fff_ffff),
        (0xa9fe_0000, 0xa9fe_ffff),
        (0xac10_0000, 0xac1f_ffff),
        (0xc000_0000, 0xc000_00ff),
        (0xc000_0200, 0xc000_02ff),
        (0xc01f_c400, 0xc01f_c4ff),
        (0xc034_c100, 0xc034_c1ff),
        (0xc058_6300, 0xc058_63ff),
        (0xc0a8_0000, 0xc0a8_ffff),
        (0xc0af_3000, 0xc0af_30ff),
        (0xc612_0000, 0xc613_ffff),
        (0xc633_6400, 0xc633_64ff),
        (0xcb00_7100, 0xcb00_71ff),
        (0xe000_0000, 0xefff_ffff),
        (0xf000_0000, 0xffff_ffff),
    ];
    assert(v@ =~= reserved_blocks());
    merge(v)
}

/// The windows that the texts name, or the error of the first that names none.
pub open spec fn cidrs_spec(cs: Seq<String>) -> Result<Seq<Window>, CidrError>
    decreases cs.len(),
{
    if cs.len() == 0 {
        Ok(Seq::empty())
    } else {
        match cidrs_spec(cs.drop_last()) {
            Err(e) => Err(e),
            Ok(ws) => match cidr_spec(cs.last()@) {
                Err(e) => Err(e),
                Ok(w) => Ok(ws.push(w)),
            },
        }
    }
}

/// The windows to scan before anything is cut out: all of IPv4 when no range is named.
pub open spec fn includes_spec(cs: Seq<String>) -> Result<Seq<Window>, CidrError> {
    if cs.len() == 0 {
        Ok(seq![(0u32, u32::MAX)])
    } else {
        cidrs_spec(cs)
    }
}

proof fn lemma_cidrs_prefix_err(cs: Seq<String>, n: int)
    requires
        0 <= n <= cs.len(),
        cidrs_spec(cs.take(n)) is Err,
    ensures
        cidrs_spec(cs) == cidrs_spec(cs.take(n)),
    decreases cs.len(),
{
    if n < cs.len() {
        assert(cs.drop_last().take(n) =~= cs.take(n));
        lemma_cidrs_prefix_err(cs.drop_last(), n);
    } else {
        assert(cs.take(n) =~= cs);
    }
}

/// Reads every text as a CIDR block.
pub fn parse_cidrs(cs: &[String]) -> (r: Result<Vec<Window>, CidrError>)
    ensures
        match r {
            Ok(v) => cidrs_spec(cs@) == Ok::<Seq<Window>, CidrError>(v@) && proper(v@) && v@.len() == cs@.len(),
            Err(e) => cidrs_spec(cs@) == Err::<Seq<Window>, CidrError>(e),
        },
{
    let mut out: Vec<Window> = Vec::with_capacity(cs.len());
    let mut i: usize = 0;
    while i < cs.len()
        invariant
            i <= cs@.len(),
            cidrs_spec(cs@.take(i as int)) == Ok::<Seq<Window>, CidrError>(out@),
            proper(out@),
            out@.len() == i,
        decreases cs@.len() - i,
    {
        assert(cs@.take(i + 1).drop_last() =~= cs@.take(i as int));
        assert(cs@.take(i + 1).last() == cs@[i as int]);
        match parse_cidr(cs[i].as_str()) {
            Ok(w) => {
                out.push(w);
            },
            Err(e) => {
                proof {
                    lemma_cidrs_prefix_err(cs@, i + 1);
                }
                return Err(e);
            },
        }
        i = i + 1;
    }
    assert(cs@.take(i as int) =~= cs@);
    Ok(out)
}

/// `x` is to be scanned: it lies in a named range and in nothing that is left out.
pub open spec fn wanted(includes: Seq<Window>, excludes: Seq<Window>, no_reserved: bool, x: u32) -> bool {
    &&& covers(includes, x)
    &&& !covers(excludes, x)
    &&& no_reserved ==> !covers(reserved_blocks(), x)
}

impl AddrSpace {
    /// The space of the named ranges (all of IPv4 when none is named) without the excluded
    /// windows and, where asked for, without the reserved blocks.
    pub fn from_cidrs(cidrs: &[String], extra_excludes: &[Window], exclude_reserved: bool) -> (r: Result<
        Self,
        SpaceError,
    >)
        ensures
            match (includes_spec(cidrs@), r) {
                (Err(e), r) => r matches Err(SpaceError::Cidr(got)) && got == e,
                (Ok(inc), Ok(space)) => space.wf() && forall|x: u32|
                    covers(space@, x) == wanted(inc, extra_excludes@, exclude_reserved, x),
                (Ok(inc), Err(e)) => {
                    &&& e == (SpaceError::NothingLeft { reserved: exclude_reserved })
                    &&& forall|x: u32| !wanted(inc, extra_excludes@, exclude_reserved, x)
                },
            },
    {
        let includes: Vec<Window> = if cidrs.len() == 0 {
            let all: Vec<Window> = vec![(0, u32::MAX)];
            assert(all@ =~= seq![(0u32, u32::MAX)]);
            all
        } else {
            match parse_cidrs(cidrs) {
                Ok(v) => v,
                Err(e) => {
                    return Err(SpaceError::Cidr(e));
                },
            }
        };
        let ghost inc = includes@;
        let mut excludes: Vec<Window> = slice_to_vec(extra_excludes);
        if exclude_reserved {
            let mut reserved: Vec<Window> = reserved_ranges();
            let ghost r = reserved@;
            excludes.append(&mut reserved);
            assert forall|x: u32| covers(excludes@, x) == (covers(extra_excludes@, x) || covers(
                reserved_blocks(),
                x,
            )) by {
                lemma_covers_concat(extra_excludes@, r, x);
                assert(covers(r, x) == covers(reserved_blocks(), x));
            }
        }
        let ghost ex = excludes@;
        assert(forall|x: u32| #![trigger covers(inc, x)]
            wanted(inc, extra_excludes@, exclude_reserved, x) == (covers(inc, x) && !covers(ex, x)));
        let merged: Vec<Window> = merge(includes);
        let windows: Vec<Window> = if excludes.len() == 0 {
            merged
        } else {
            let cuts: Vec<Window> = merge(excludes);
            subtract(merged.as_slice(), cuts.as_slice())
        };
        assert forall|x: u32| #[trigger] covers(windows@, x) == wanted(
            inc,
            extra_excludes@,
            exclude_reserved,
            x,
        ) by {
            assert(covers(merged@, x) == covers(inc, x));
        }
        match AddrSpace::new(windows) {
            Ok(space) => Ok(space),
            Err(_) => {
                assert forall|x: u32| !wanted(inc, extra_excludes@, exclude_reserved, x) by {
                    assert(!covers(windows@, x));
                }
                Err(SpaceError::NothingLeft { reserved: exclude_reserved })
            },
        }
    }
}

impl SpaceError {
    pub open spec fn message_spec(self) -> Seq<char> {
        match self {
            SpaceError::Cidr(e) => e.message_spec(),
            SpaceError::NothingLeft { reserved: true } => "address space is empty after subtracting reserved/bogon ranges; pass --include-reserved to scan them"@,
            _ => "address space is empty"@,
        }
    }

    /// What to tell the user.
    pub fn message(&self) -> (r: String)
        ensures
            r@ == self.message_spec(),
    {
        match *self {
            SpaceError::Cidr(e) => e.message(),
            SpaceError::NothingLeft {
                reserved: true,
            } => "address space is empty after subtracting reserved/bogon ranges; pass --include-reserved to scan them".to_string(),
            _ => "address space is empty".to_string(),
        }
    }

    /// The message with its cause behind it.
    pub open spec fn full_message_spec(self) -> Seq<char> {
        match self {
            SpaceError::NothingLeft { .. } => self.message_spec() + ": address space is empty"@,
            _ => self.message_spec(),
        }
    }

    /// The message with its cause behind it.
    pub fn full_message(&self) -> (r: String)
        ensures
            r@ == self.full_message_spec(),
    {
        let mut out: String = self.message();
        match *self {
            SpaceError::NothingLeft { .. } => {
                out.append(": address space is empty");
            },
            _ => {},
        }
        out
    }
}

/// The CIDR block on one line of an exclude file; a blank line and a comment hold none.
pub open spec fn exclude_word(line: Seq<char>) -> Option<Seq<char>> {
    let t = trim_spec(line);
    if t.len() == 0 || t[0] == '#' || t[0] == ';' {
        None
    } else {
        let words = nonempty_pieces(split_spec(t, Sep::White));
        if words.len() > 0 {
            Some(words[0])
        } else {
            Some(t)
        }
    }
}

/// The windows on the lines, or the number, word and error of the first line that is wrong.
pub open spec fn exclude_lines_spec(lines: Seq<Seq<char>>) -> Result<
    Seq<Window>,
    (nat, Seq<char>, CidrError),
>
    decreases lines.len(),
{
    if lines.len() == 0 {
        Ok(Seq::empty())
    } else {
        match exclude_lines_spec(lines.drop_last()) {
            Err(e) => Err(e),
            Ok(ws) => match exclude_word(lines.last()) {
                None => Ok(ws),
                Some(word) => match cidr_spec(word) {
                    Ok(w) => Ok(ws.push(w)),
                    Err(e) => Err((lines.len(), word, e)),
                },
            },
        }
    }
}

/// What the text of an exclude file lists.
pub open spec fn exclude_text_spec(text: Seq<char>) -> Result<Seq<Window>, (nat, Seq<char>, CidrError)> {
    exclude_lines_spec(split_spec(text, Sep::Char('\n')))
}

proof fn lemma_exclude_prefix_err(lines: Seq<Seq<char>>, n: int)
    requires
        0 <= n <= lines.len(),
        exclude_lines_spec(lines.take(n)) is Err,
    ensures
        exclude_lines_spec(lines) == exclude_lines_spec(lines.take(n)),
    decreases lines.len(),
{
    if n < lines.len() {
        assert(lines.drop_last().take(n) =~= lines.take(n));
        lemma_exclude_prefix_err(lines.drop_last(), n);
    } else {
        assert(lines.take(n) =~= lines);
    }
}

/// The first line of an exclude file that is wrong.
#[derive(Debug, PartialEq, Eq)]
pub struct ExcludeError {
    /// Its number, from 1.
    pub line: usize,
    /// Its first word.
    pub word: String,
    /// Why that is no CIDR block.
    pub cause: CidrError,
}

impl ExcludeError {
    pub open spec fn full_message_spec(self) -> Seq<char> {
        "exclude line "@ + dec(self.line as nat) + ": "@ + self.word@ + ": "@ + self.cause.message_spec()
    }

    /// What to tell the user, with the cause behind it.
    pub fn full_message(&self) -> (r: String)
        ensures
            r@ == self.full_message_spec(),
    {
        let mut out: String = "exclude line ".to_string();
        push_dec(&mut out, self.line as u64);
        out.append(": ");
        out.append(self.word.as_str());
        out.append(": ");
        let cause: String = self.cause.message();
        out.append(cause.as_str());
        out
    }
}

/// Reads the text of an exclude file: one CIDR block per line, `#` and `;` begin comments.
pub fn parse_exclude_text(text: &str) -> (r: Result<Vec<Window>, ExcludeError>)
    ensures
        match r {
            Ok(v) => exclude_text_spec(text@) matches Ok(ws) && v@ == merge_spec(ws) && canonical(v@) && forall|
                x: u32,
            |
                covers(v@, x) == covers(ws, x),
            Err(e) => exclude_text_spec(text@) == Err::<Seq<Window>, (nat, Seq<char>, CidrError)>(
                (e.line as nat, e.word@, e.cause),
            ),
        },
{
    let chars: Vec<char> = to_chars(text);
    let lines: Vec<&[char]> = split(chars.as_slice(), Sep::Char('\n'));
    let ghost all = views(lines@);
    let mut out: Vec<Window> = Vec::new();
    let mut i: usize = 0;
    while i < lines.len()
        invariant
            i <= lines@.len(),
            all == views(lines@),
            all == split_spec(text@, Sep::Char('\n')),
            exclude_lines_spec(all.take(i as int)) == Ok::<Seq<Window>, (nat, Seq<char>, CidrError)>(out@),
            proper(out@),
        decreases lines@.len() - i,
    {
        assert(all.take(i + 1).drop_last() =~= all.take(i as int));
        assert(all.take(i + 1).last() == lines@[i as int]@);
        let line: &[char] = trim(lines[i]);
        i = i + 1;
        if line.len() == 0 || starts_with(line, '#') || starts_with(line, ';') {
            continue;
        }
        let words: Vec<&[char]> = split_whitespace(line);
        assert(views(words@).len() == words@.len());
        let word: &[char] = if words.len() > 0 {
            assert(views(words@)[0] == words@[0]@);
            words[0]
        } else {
            line
        };
        match parse_cidr_chars(word) {
            Ok(w) => {
                out.push(w);
            },
            Err(e) => {
                proof {
                    lemma_exclude_prefix_err(all, i as int);
                }
                return Err(ExcludeError { line: i, word: from_chars(word), cause: e });
            },
        }
    }
    assert(all.take(i as int) =~= all);
    Ok(merge(out))
}

/// The last `n` base-256 digits of `x`, least significant first.
pub open spec fn le_bytes(x: nat, n: nat) -> Seq<u8>
    decreases n,
{
    if n == 0 {
        Seq::empty()
    } else {
        seq![(x % 256) as u8] + le_bytes(x / 256, (n - 1) as nat)
    }
}

fn push_le(out: &mut Vec<u8>, x: u64, n: u32)
    ensures
        final(out)@ == old(out)@ + le_bytes(x as nat, n as nat),
    decreases n,
{
    if n > 0 {
        out.push((x % 256) as u8);
        push_le(out, x / 256, n - 1);
    }
    assert(out@ =~= old(out)@ + le_bytes(x as nat, n as nat));
}

/// The parts one after the other, each followed by a zero byte.
pub open spec fn terminated(parts: Seq<Seq<u8>>) -> Seq<u8>
    decreases parts.len(),
{
    if parts.len() == 0 {
        Seq::empty()
    } else {
        terminated(parts.drop_last()) + parts.last() + seq![0u8]
    }
}

/// The bounds of the windows in order, four bytes each.
pub open spec fn window_bytes(ws: Seq<Window>) -> Seq<u8>
    decreases ws.len(),
{
    if ws.len() == 0 {
        Seq::empty()
    } else {
        window_bytes(ws.drop_last()) + le_bytes(ws.last().0 as nat, 4) + le_bytes(ws.last().1 as nat, 4)
    }
}

/// The ports in order, two bytes each.
pub open spec fn port_bytes(ports: Seq<u16>) -> Seq<u8>
    decreases ports.len(),
{
    if ports.len() == 0 {
        Seq::empty()
    } else {
        port_bytes(ports.drop_last()) + le_bytes(ports.last() as nat, 2)
    }
}

/// The ranges as byte strings.
pub open spec fn range_bytes(ranges: Seq<String>) -> Seq<Seq<u8>> {
    Seq::new(ranges.len(), |i: int| encode_utf8(ranges[i]@))
}

/// The range texts in dictionary order.
pub open spec fn sorted_ranges(ranges: Seq<String>) -> Seq<Seq<u8>> {
    range_bytes(ranges).sort_by(order::<Vec<u8>>())
}

/// What describes a scan job, as bytes.
pub open spec fn job_bytes(
    ranges: Seq<String>,
    extra_excludes: Seq<Window>,
    ports: Seq<u16>,
    exclude_reserved: bool,
    total: u64,
) -> Seq<u8> {
    seq![
        if exclude_reserved {
            1u8
        } else {
            0u8
        },
    ] + le_bytes(total as nat, 8) + terminated(sorted_ranges(ranges)) + window_bytes(extra_excludes)
        + port_bytes(ports)
}

/// A multiply-and-xor hash of a byte string.
pub open spec fn hash_spec(bytes: Seq<u8>) -> u64
    decreases bytes.len(),
{
    if bytes.len() == 0 {
        0xcbf2_9ac6_8422_9f47
    } else {
        (hash_spec(bytes.drop_last()) ^ (bytes.last() as u64)).wrapping_mul(0x1000_0000_01b3)
    }
}

fn hash(bytes: &[u8]) -> (h: u64)
    ensures
        h == hash_spec(bytes@),
{
    let mut h: u64 = 0xcbf2_9ac6_8422_9f47;
    let mut i: usize = 0;
    while i < bytes.len()
        invariant
            i <= bytes@.len(),
            h == hash_spec(bytes@.take(i as int)),
        decreases bytes@.len() - i,
    {
        assert(bytes@.take(i + 1).drop_last() =~= bytes@.take(i as int));
        h = (h ^ (bytes[i] as u64)).wrapping_mul(0x1000_0000_01b3);
        i = i + 1;
    }
    assert(bytes@.take(i as int) =~= bytes@);
    h
}

fn sorted_range_bytes(ranges: &[String]) -> (out: Vec<Vec<u8>>)
    ensures
        keys(out@) == sorted_ranges(ranges@),
{
    let mut v: Vec<Vec<u8>> = Vec::with_capacity(ranges.len());
    let mut i: usize = 0;
    while i < ranges.len()
        invariant
            i <= ranges@.len(),
            v@.len() == i,
            forall|j: int| 0 <= j < i ==> (#[trigger] v@[j])@ == encode_utf8(ranges@[j]@),
        decreases ranges@.len() - i,
    {
        v.push(slice_to_vec(ranges[i].as_str().as_bytes()));
        i = i + 1;
    }
    assert(keys(v@) =~= range_bytes(ranges@));
    merge_sort(v)
}

/// A number that tells one scan job from another. The ranges count in any order; the excluded
/// windows and the ports count in the order given.
pub fn job_fingerprint(
    ranges: &[String],
    extra_excludes: &[Window],
    ports: &[u16],
    exclude_reserved: bool,
    total: u64,
) -> (h: u64)
    ensures
        h == hash_spec(job_bytes(ranges@, extra_excludes@, ports@, exclude_reserved, total)),
{
    let mut out: Vec<u8> = Vec::new();
    out.push(
        if exclude_reserved {
            1
        } else {
            0
        },
    );
    push_le(&mut out, total, 8);
    let ghost head = out@;
    let sorted: Vec<Vec<u8>> = sorted_range_bytes(ranges);
    let ghost parts = keys(sorted@);
    let mut i: usize = 0;
    while i < sorted.len()
        invariant
            i <= sorted@.len(),
            parts == keys(sorted@),
            out@ == head + terminated(parts.take(i as int)),
        decreases sorted@.len() - i,
    {
        let ghost before = out@;
        assert(parts.take(i + 1).drop_last() =~= parts.take(i as int));
        out.extend_from_slice(sorted[i].as_slice());
        out.push(0);
        assert(out@ =~= before + parts[i as int] + seq![0u8]);
        i = i + 1;
        assert(out@ =~= head + terminated(parts.take(i as int)));
    }
    assert(parts.take(i as int) =~= parts);
    let ghost head = out@;
    let mut i: usize = 0;
    while i < extra_excludes.len()
        invariant
            i <= extra_excludes@.len(),
            out@ == head + window_bytes(extra_excludes@.take(i as int)),
        decreases extra_excludes@.len() - i,
    {
        assert(extra_excludes@.take(i + 1).drop_last() =~= extra_excludes@.take(i as int));
        let (a, b) = extra_excludes[i];
        push_le(&mut out, a as u64, 4);
        push_le(&mut out, b as u64, 4);
        i = i + 1;
        assert(out@ =~= head + window_bytes(extra_excludes@.take(i as int)));
    }
    assert(extra_excludes@.take(i as int) =~= extra_excludes@);
    let ghost head = out@;
    let mut i: usize = 0;
    while i < ports.len()
        invariant
            i <= ports@.len(),
            out@ == head + port_bytes(ports@.take(i as int)),
        decreases ports@.len() - i,
    {
        assert(ports@.take(i + 1).drop_last() =~= ports@.take(i as int));
        push_le(&mut out, ports[i] as u64, 2);
        i = i + 1;
        assert(out@ =~= head + port_bytes(ports@.take(i as int)));
    }
    assert(ports@.take(i as int) =~= ports@);
    assert(out@ =~= job_bytes(ranges@, extra_excludes@, ports@, exclude_reserved, total));
    hash(out.as_slice())
}

/// Naming the same ranges in another order gives the same fingerprint.
pub proof fn fingerprint_ignores_range_order(
    ranges: Seq<String>,
    others: Seq<String>,
    extra_excludes: Seq<Window>,
    ports: Seq<u16>,
    exclude_reserved: bool,
    total: u64,
)
    requires
        range_bytes(ranges).to_multiset() == range_bytes(others).to_multiset(),
    ensures
        job_bytes(ranges, extra_excludes, ports, exclude_reserved, total) == job_bytes(
            others,
            extra_excludes,
            ports,
            exclude_reserved,
            total,
        ),
{
    lemma_sort_ignores_order::<Vec<u8>>(range_bytes(ranges), range_bytes(others));
}

proof fn lemma_hash_step_is_injective(a: u64, b: u64, byte: u8)
    requires
        (a ^ (byte as u64)).wrapping_mul(0x1000_0000_01b3) == (b ^ (byte as u64)).wrapping_mul(
            0x1000_0000_01b3,
        ),
    ensures
        a == b,
{
    let c = byte as u64;
    let (x, y) = (a ^ c, b ^ c);
    lemma_unit_multiplication(
        x as nat,
        y as nat,
        0x1000_0000_01b3,
        0xb46d_d957_aff6_957b,
        0x1_0000_0000_0000_0000,
    );
    assert(a == b) by (bit_vector)
        requires
            a ^ c == b ^ c,
    ;
}

/// Two hashes that differ still do after the same bytes were added to both.
pub proof fn lemma_hash_keeps_apart(a: Seq<u8>, b: Seq<u8>, rest: Seq<u8>)
    requires
        hash_spec(a) != hash_spec(b),
    ensures
        hash_spec(a + rest) != hash_spec(b + rest),
    decreases rest.len(),
{
    if rest.len() == 0 {
        assert(a + rest =~= a && b + rest =~= b);
    } else {
        lemma_hash_keeps_apart(a, b, rest.drop_last());
        assert((a + rest).drop_last() =~= a + rest.drop_last());
        assert((b + rest).drop_last() =~= b + rest.drop_last());
        let (x, y) = (hash_spec(a + rest.drop_last()), hash_spec(b + rest.drop_last()));
        if hash_spec(a + rest) == hash_spec(b + rest) {
            lemma_hash_step_is_injective(x, y, rest.last());
        }
    }
}

proof fn lemma_hash_of_one_byte(a: u8, b: u8)
    requires
        a != b,
    ensures
        hash_spec(seq![a]) != hash_spec(seq![b]),
{
    let init = hash_spec(Seq::empty());
    let (c, d) = (a as u64, b as u64);
    assert(seq![a].drop_last() =~= Seq::empty() && seq![b].drop_last() =~= Seq::empty());
    if hash_spec(seq![a]) == hash_spec(seq![b]) {
        let (x, y) = (init ^ c, init ^ d);
        lemma_unit_multiplication(
            x as nat,
            y as nat,
            0x1000_0000_01b3,
            0xb46d_d957_aff6_957b,
            0x1_0000_0000_0000_0000,
        );
        assert(c == d) by (bit_vector)
            requires
                init ^ c == init ^ d,
        ;
    }
}

/// Scanning the reserved blocks too makes another fingerprint, all else being equal.
pub proof fn reserved_flag_changes_fingerprint(
    ranges: Seq<String>,
    extra_excludes: Seq<Window>,
    ports: Seq<u16>,
    total: u64,
)
    ensures
        hash_spec(job_bytes(ranges, extra_excludes, ports, true, total)) != hash_spec(
            job_bytes(ranges, extra_excludes, ports, false, total),
        ),
{
    let rest = le_bytes(total as nat, 8) + terminated(sorted_ranges(ranges)) + window_bytes(
        extra_excludes,
    ) + port_bytes(ports);
    let (one, zero) = (seq![1u8], seq![0u8]);
    lemma_hash_of_one_byte(1, 0);
    lemma_hash_keeps_apart(one, zero, rest);
    assert(job_bytes(ranges, extra_excludes, ports, true, total) =~= one + rest);
    assert(job_bytes(ranges, extra_excludes, ports, false, total) =~= zero + rest);
}

} // verus!
