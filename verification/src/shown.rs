//! What a browser finds on the page: each figure behind its label, each value in its field, each
//! server in its row.

use vstd::prelude::*;
use vstd::string::*;

use crate::ipv4::quad_text;
use crate::live::{
    done_text_spec, events_are_counted, one_more, progress_text_spec, spaced, tail, HitView, LiveView,
    Stats, MAX_HITS,
};
use crate::num::{dec, dec_int};
use crate::page::{
    CSS, HITS_BEFORE_N, HITS_BEFORE_ROWS, HITS_END, LIVE_BEFORE_ADDRS, LIVE_BEFORE_DONE,
    LIVE_BEFORE_ERR_HTML, LIVE_BEFORE_ETA, LIVE_BEFORE_LOGS, LIVE_BEFORE_MODE, LIVE_BEFORE_OPEN,
    LIVE_BEFORE_PCT_LABEL, LIVE_BEFORE_PCT_VALUE, LIVE_BEFORE_PHASE_LABEL,
    LIVE_BEFORE_PHASE_LABEL_AGAIN, LIVE_BEFORE_PINGED, LIVE_BEFORE_POLL, LIVE_BEFORE_POPULATED,
    LIVE_BEFORE_PROGRESS, LIVE_BEFORE_TOTAL, LIVE_END, PAGE_BEFORE_CONNECT, PAGE_BEFORE_CSS,
    PAGE_BEFORE_EXCLUDES, PAGE_BEFORE_FRESH, PAGE_BEFORE_HITS, PAGE_BEFORE_LIVE,
    PAGE_BEFORE_MIN_PLAYERS, PAGE_BEFORE_PING, PAGE_BEFORE_PORTS, PAGE_BEFORE_RANGES,
    PAGE_BEFORE_RATE, PAGE_BEFORE_RESERVED, PAGE_BEFORE_TCP, PAGE_BEFORE_TIMEOUT_MS, PAGE_END,
};
use crate::text::{find_text_spec, text_at, text_is_found_first};
use crate::web::{
    checked_spec, error_html, esc_char, esc_spec, eta_shown, hits_block_spec, live_block_spec, log_items,
    mode_shown, or_nothing, page_spec, phase_label_spec, poll, row_spec, rows_spec, table_rows,
    FormView,
};

verus! {

/// `sub` stands somewhere in `s`.
pub open spec fn holds(s: Seq<char>, sub: Seq<char>) -> bool {
    exists|i: int| 0 <= i && #[trigger] text_at(s, sub, i)
}

proof fn lemma_holds(a: Seq<char>, sub: Seq<char>, b: Seq<char>)
    ensures
        holds(a + sub + b, sub),
{
    let s = a + sub + b;
    let i = a.len() as int;
    assert(s.subrange(i, i + sub.len()) =~= sub);
    assert(text_at(s, sub, i));
}

/// What stands in a text stands in it when more is written behind it, or before it.
proof fn lemma_holds_more(s: Seq<char>, more: Seq<char>, sub: Seq<char>)
    requires
        holds(s, sub),
    ensures
        holds(s + more, sub),
        holds(more + s, sub),
{
    let i = choose|i: int| 0 <= i && #[trigger] text_at(s, sub, i);
    assert((s + more).subrange(i, i + sub.len()) =~= s.subrange(i, i + sub.len()));
    assert(text_at(s + more, sub, i));
    let j = more.len() + i;
    assert((more + s).subrange(j, j + sub.len()) =~= s.subrange(i, i + sub.len()));
    assert(text_at(more + s, sub, j));
}

pub open spec fn ends_with(s: Seq<char>, end: Seq<char>) -> bool {
    s.len() >= end.len() && s.skip(s.len() - end.len()) == end
}

pub open spec fn begins_with(s: Seq<char>, begin: Seq<char>) -> bool {
    s.len() >= begin.len() && s.take(begin.len() as int) == begin
}

/// A value between two fixed texts stands between the end of one and the begin of the other.
proof fn lemma_between(
    q: Seq<char>,
    before: Seq<char>,
    value: Seq<char>,
    next: Seq<char>,
    label: Seq<char>,
    close: Seq<char>,
)
    requires
        ends_with(before, label),
        begins_with(next, close),
    ensures
        holds(q + before + value + next, label + value + close),
{
    let a = q + before.take(before.len() - label.len());
    let b = next.skip(close.len() as int);
    lemma_holds(a, label + value + close, b);
    assert(before =~= before.take(before.len() - label.len()) + label);
    assert(next =~= close + b);
    assert(a + (label + value + close) + b =~= q + before + value + next);
}

/// A figure with its label.
pub open spec fn figure(label: Seq<char>, value: Seq<char>) -> Seq<char> {
    "<dt>"@ + label + "</dt><dd>"@ + value + "</dd>"@
}

proof fn lemma_figure_labels()
    ensures
        ends_with(LIVE_BEFORE_DONE@, "<dt>"@ + "scanned"@ + "</dt><dd>"@),
        ends_with(LIVE_BEFORE_TOTAL@, "<dt>"@ + "of"@ + "</dt><dd>"@),
        ends_with(LIVE_BEFORE_ADDRS@, "<dt>"@ + "addrs"@ + "</dt><dd>"@),
        ends_with(LIVE_BEFORE_OPEN@, "<dt>"@ + "open"@ + "</dt><dd>"@),
        ends_with(LIVE_BEFORE_PINGED@, "<dt>"@ + "pinged"@ + "</dt><dd>"@),
        ends_with(LIVE_BEFORE_POPULATED@, "<dt>"@ + "populated"@ + "</dt><dd>"@),
        ends_with(LIVE_BEFORE_ETA@, "<dt>"@ + "eta"@ + "</dt><dd>"@),
{
    reveal_strlit("<dt>");
    reveal_strlit("</dt><dd>");
    reveal_strlit("scanned");
    reveal_strlit("of");
    reveal_strlit("addrs");
    reveal_strlit("open");
    reveal_strlit("pinged");
    reveal_strlit("populated");
    reveal_strlit("eta");
    reveal_strlit("%</progress>\n  <dl class=\"stats\">\n    <div><dt>scanned</dt><dd>");
    reveal_strlit("</dd></div>\n    <div><dt>of</dt><dd>");
    reveal_strlit("</dd></div>\n    <div><dt>addrs</dt><dd>");
    reveal_strlit("</dd></div>\n    <div><dt>open</dt><dd>");
    reveal_strlit("</dd></div>\n    <div><dt>pinged</dt><dd>");
    reveal_strlit("</dd></div>\n    <div><dt>populated</dt><dd>");
    reveal_strlit("</dd></div>\n    <div><dt>eta</dt><dd>");
    assert(LIVE_BEFORE_DONE@.skip(LIVE_BEFORE_DONE@.len() - 20) =~= "<dt>"@ + "scanned"@ + "</dt><dd>"@);
    assert(LIVE_BEFORE_TOTAL@.skip(LIVE_BEFORE_TOTAL@.len() - 15) =~= "<dt>"@ + "of"@ + "</dt><dd>"@);
    assert(LIVE_BEFORE_ADDRS@.skip(LIVE_BEFORE_ADDRS@.len() - 18) =~= "<dt>"@ + "addrs"@ + "</dt><dd>"@);
    assert(LIVE_BEFORE_OPEN@.skip(LIVE_BEFORE_OPEN@.len() - 17) =~= "<dt>"@ + "open"@ + "</dt><dd>"@);
    assert(LIVE_BEFORE_PINGED@.skip(LIVE_BEFORE_PINGED@.len() - 19) =~= "<dt>"@ + "pinged"@ + "</dt><dd>"@);
    assert(LIVE_BEFORE_POPULATED@.skip(LIVE_BEFORE_POPULATED@.len() - 22) =~= "<dt>"@ + "populated"@
        + "</dt><dd>"@);
    assert(LIVE_BEFORE_ETA@.skip(LIVE_BEFORE_ETA@.len() - 16) =~= "<dt>"@ + "eta"@ + "</dt><dd>"@);
}

proof fn lemma_figure_ends()
    ensures
        begins_with(LIVE_BEFORE_TOTAL@, "</dd>"@),
        begins_with(LIVE_BEFORE_ADDRS@, "</dd>"@),
        begins_with(LIVE_BEFORE_OPEN@, "</dd>"@),
        begins_with(LIVE_BEFORE_PINGED@, "</dd>"@),
        begins_with(LIVE_BEFORE_POPULATED@, "</dd>"@),
        begins_with(LIVE_BEFORE_ETA@, "</dd>"@),
        begins_with(LIVE_BEFORE_PROGRESS@, "</dd>"@),
{
    reveal_strlit("</dd>");
    reveal_strlit("</dd></div>\n    <div><dt>of</dt><dd>");
    reveal_strlit("</dd></div>\n    <div><dt>addrs</dt><dd>");
    reveal_strlit("</dd></div>\n    <div><dt>open</dt><dd>");
    reveal_strlit("</dd></div>\n    <div><dt>pinged</dt><dd>");
    reveal_strlit("</dd></div>\n    <div><dt>populated</dt><dd>");
    reveal_strlit("</dd></div>\n    <div><dt>eta</dt><dd>");
    reveal_strlit("</dd></div>\n  </dl>\n  <p class=\"progress-line\">");
    assert(LIVE_BEFORE_TOTAL@.take(5) =~= "</dd>"@);
    assert(LIVE_BEFORE_ADDRS@.take(5) =~= "</dd>"@);
    assert(LIVE_BEFORE_OPEN@.take(5) =~= "</dd>"@);
    assert(LIVE_BEFORE_PINGED@.take(5) =~= "</dd>"@);
    assert(LIVE_BEFORE_POPULATED@.take(5) =~= "</dd>"@);
    assert(LIVE_BEFORE_ETA@.take(5) =~= "</dd>"@);
    assert(LIVE_BEFORE_PROGRESS@.take(5) =~= "</dd>"@);
}

proof fn lemma_grown(p: Seq<char>, x: Seq<char>, y: Seq<char>, sub: Seq<char>)
    requires
        holds(p, sub),
    ensures
        holds(p + x + y, sub),
{
    lemma_holds_more(p, x, sub);
    lemma_holds_more(p + x, y, sub);
}

/// Pieces of text, one behind the other.
pub open spec fn in_a_row(ps: Seq<Seq<char>>) -> Seq<char>
    decreases ps.len(),
{
    if ps.len() == 0 {
        Seq::empty()
    } else {
        in_a_row(ps.drop_last()) + ps.last()
    }
}

proof fn lemma_in_a_row(ps: Seq<Seq<char>>, p: Seq<char>)
    ensures
        in_a_row(ps.push(p)) == in_a_row(ps) + p,
{
    assert(ps.push(p).drop_last() =~= ps);
}

/// A piece stands between the end of the piece before it and the begin of the next.
proof fn lemma_piece(ps: Seq<Seq<char>>, i: int, label: Seq<char>, close: Seq<char>)
    requires
        1 <= i < ps.len() - 1,
        ends_with(ps[i - 1], label),
        begins_with(ps[i + 1], close),
    ensures
        holds(in_a_row(ps), label + ps[i] + close),
    decreases ps.len(),
{
    let front = ps.drop_last();
    if i == ps.len() - 2 {
        let less = front.drop_last();
        assert(front.last() == ps[i] && less.last() == ps[i - 1] && ps.last() == ps[i + 1]);
        let least = in_a_row(less.drop_last());
        assert(in_a_row(less) == least + ps[i - 1]);
        assert(in_a_row(front) == least + ps[i - 1] + ps[i]);
        assert(in_a_row(ps) == least + ps[i - 1] + ps[i] + ps[i + 1]);
        lemma_between(least, ps[i - 1], ps[i], ps[i + 1], label, close);
    } else {
        assert(front[i - 1] == ps[i - 1] && front[i] == ps[i] && front[i + 1] == ps[i + 1]);
        lemma_piece(front, i, label, close);
        lemma_holds_more(in_a_row(front), ps.last(), label + ps[i] + close);
    }
}

#[verifier::spinoff_prover]
#[verifier::rlimit(80)]
proof fn lemma_live_pieces_of(
    x0: Seq<char>,
    x1: Seq<char>,
    x2: Seq<char>,
    x3: Seq<char>,
    x4: Seq<char>,
    x5: Seq<char>,
    x6: Seq<char>,
    x7: Seq<char>,
    x8: Seq<char>,
    x9: Seq<char>,
    x10: Seq<char>,
    x11: Seq<char>,
    x12: Seq<char>,
    x13: Seq<char>,
    x14: Seq<char>,
    x15: Seq<char>,
    x16: Seq<char>,
    x17: Seq<char>,
    x18: Seq<char>,
    x19: Seq<char>,
    x20: Seq<char>,
    x21: Seq<char>,
    x22: Seq<char>,
    x23: Seq<char>,
    x24: Seq<char>,
    x25: Seq<char>,
    x26: Seq<char>,
    x27: Seq<char>,
    x28: Seq<char>,
    x29: Seq<char>,
    x30: Seq<char>,
    x31: Seq<char>,
    x32: Seq<char>,
) -> (ps: Seq<Seq<char>>)
    ensures
        ps.len() == 33,
        ps[0] == x0,
        ps[1] == x1,
        ps[2] == x2,
        ps[3] == x3,
        ps[4] == x4,
        ps[5] == x5,
        ps[6] == x6,
        ps[7] == x7,
        ps[8] == x8,
        ps[9] == x9,
        ps[10] == x10,
        ps[11] == x11,
        ps[12] == x12,
        ps[13] == x13,
        ps[14] == x14,
        ps[15] == x15,
        ps[16] == x16,
        ps[17] == x17,
        ps[18] == x18,
        ps[19] == x19,
        ps[20] == x20,
        ps[21] == x21,
        ps[22] == x22,
        ps[23] == x23,
        ps[24] == x24,
        ps[25] == x25,
        ps[26] == x26,
        ps[27] == x27,
        ps[28] == x28,
        ps[29] == x29,
        ps[30] == x30,
        ps[31] == x31,
        ps[32] == x32,
        in_a_row(ps) == x0 + x1 + x2 + x3 + x4 + x5 + x6 + x7 + x8 + x9 + x10 + x11 + x12 + x13 + x14 + x15 + x16 + x17 + x18 + x19 + x20 + x21 + x22 + x23 + x24 + x25 + x26 + x27 + x28 + x29 + x30 + x31 + x32,
{
    let s0 = Seq::<Seq<char>>::empty();
    assert(in_a_row(s0) =~= Seq::<char>::empty());
    let s1 = s0.push(x0);
    lemma_in_a_row(s0, x0);
    assert(in_a_row(s1) =~= x0);
    let s2 = s1.push(x1);
    lemma_in_a_row(s1, x1);
    let s3 = s2.push(x2);
    lemma_in_a_row(s2, x2);
    let s4 = s3.push(x3);
    lemma_in_a_row(s3, x3);
    let s5 = s4.push(x4);
    lemma_in_a_row(s4, x4);
    let s6 = s5.push(x5);
    lemma_in_a_row(s5, x5);
    let s7 = s6.push(x6);
    lemma_in_a_row(s6, x6);
    let s8 = s7.push(x7);
    lemma_in_a_row(s7, x7);
    let s9 = s8.push(x8);
    lemma_in_a_row(s8, x8);
    let s10 = s9.push(x9);
    lemma_in_a_row(s9, x9);
    let s11 = s10.push(x10);
    lemma_in_a_row(s10, x10);
    let s12 = s11.push(x11);
    lemma_in_a_row(s11, x11);
    let s13 = s12.push(x12);
    lemma_in_a_row(s12, x12);
    let s14 = s13.push(x13);
    lemma_in_a_row(s13, x13);
    let s15 = s14.push(x14);
    lemma_in_a_row(s14, x14);
    let s16 = s15.push(x15);
    lemma_in_a_row(s15, x15);
    let s17 = s16.push(x16);
    lemma_in_a_row(s16, x16);
    let s18 = s17.push(x17);
    lemma_in_a_row(s17, x17);
    let s19 = s18.push(x18);
    lemma_in_a_row(s18, x18);
    let s20 = s19.push(x19);
    lemma_in_a_row(s19, x19);
    let s21 = s20.push(x20);
    lemma_in_a_row(s20, x20);
    let s22 = s21.push(x21);
    lemma_in_a_row(s21, x21);
    let s23 = s22.push(x22);
    lemma_in_a_row(s22, x22);
    let s24 = s23.push(x23);
    lemma_in_a_row(s23, x23);
    let s25 = s24.push(x24);
    lemma_in_a_row(s24, x24);
    let s26 = s25.push(x25);
    lemma_in_a_row(s25, x25);
    let s27 = s26.push(x26);
    lemma_in_a_row(s26, x26);
    let s28 = s27.push(x27);
    lemma_in_a_row(s27, x27);
    let s29 = s28.push(x28);
    lemma_in_a_row(s28, x28);
    let s30 = s29.push(x29);
    lemma_in_a_row(s29, x29);
    let s31 = s30.push(x30);
    lemma_in_a_row(s30, x30);
    let s32 = s31.push(x31);
    lemma_in_a_row(s31, x31);
    let s33 = s32.push(x32);
    lemma_in_a_row(s32, x32);
    s33
}

proof fn lemma_live_pieces(v: LiveView, value: Seq<char>, label: Seq<char>) -> (ps: Seq<Seq<char>>)
    ensures
        ps.len() == 33,
        ps[0] == LIVE_BEFORE_POLL@,
        ps[1] == poll(),
        ps[2] == LIVE_BEFORE_PHASE_LABEL@,
        ps[3] == phase_label_spec(v.phase),
        ps[4] == LIVE_BEFORE_PHASE_LABEL_AGAIN@,
        ps[5] == phase_label_spec(v.phase),
        ps[6] == LIVE_BEFORE_MODE@,
        ps[7] == esc_spec(mode_shown(v.mode)),
        ps[8] == LIVE_BEFORE_ERR_HTML@,
        ps[9] == error_html(v.error),
        ps[10] == LIVE_BEFORE_PCT_VALUE@,
        ps[11] == value,
        ps[12] == LIVE_BEFORE_PCT_LABEL@,
        ps[13] == label,
        ps[14] == LIVE_BEFORE_DONE@,
        ps[15] == dec(v.stats.packets as nat),
        ps[16] == LIVE_BEFORE_TOTAL@,
        ps[17] == dec(v.total_pkts as nat),
        ps[18] == LIVE_BEFORE_ADDRS@,
        ps[19] == dec(v.total_addrs as nat),
        ps[20] == LIVE_BEFORE_OPEN@,
        ps[21] == dec(v.stats.open as nat),
        ps[22] == LIVE_BEFORE_PINGED@,
        ps[23] == dec(v.stats.pinged as nat),
        ps[24] == LIVE_BEFORE_POPULATED@,
        ps[25] == dec(v.stats.live as nat),
        ps[26] == LIVE_BEFORE_ETA@,
        ps[27] == esc_spec(eta_shown(v.progress)),
        ps[28] == LIVE_BEFORE_PROGRESS@,
        ps[29] == esc_spec(v.progress),
        ps[30] == LIVE_BEFORE_LOGS@,
        ps[31] == log_items(tail(v.logs, 12)),
        ps[32] == LIVE_END@,
        in_a_row(ps) == live_block_spec(v, value, label),
{
    lemma_live_pieces_of(
        LIVE_BEFORE_POLL@,
        poll(),
        LIVE_BEFORE_PHASE_LABEL@,
        phase_label_spec(v.phase),
        LIVE_BEFORE_PHASE_LABEL_AGAIN@,
        phase_label_spec(v.phase),
        LIVE_BEFORE_MODE@,
        esc_spec(mode_shown(v.mode)),
        LIVE_BEFORE_ERR_HTML@,
        error_html(v.error),
        LIVE_BEFORE_PCT_VALUE@,
        value,
        LIVE_BEFORE_PCT_LABEL@,
        label,
        LIVE_BEFORE_DONE@,
        dec(v.stats.packets as nat),
        LIVE_BEFORE_TOTAL@,
        dec(v.total_pkts as nat),
        LIVE_BEFORE_ADDRS@,
        dec(v.total_addrs as nat),
        LIVE_BEFORE_OPEN@,
        dec(v.stats.open as nat),
        LIVE_BEFORE_PINGED@,
        dec(v.stats.pinged as nat),
        LIVE_BEFORE_POPULATED@,
        dec(v.stats.live as nat),
        LIVE_BEFORE_ETA@,
        esc_spec(eta_shown(v.progress)),
        LIVE_BEFORE_PROGRESS@,
        esc_spec(v.progress),
        LIVE_BEFORE_LOGS@,
        log_items(tail(v.logs, 12)),
        LIVE_END@,
    )
}

#[verifier::spinoff_prover]
#[verifier::rlimit(80)]
proof fn lemma_page_pieces_of(
    x0: Seq<char>,
    x1: Seq<char>,
    x2: Seq<char>,
    x3: Seq<char>,
    x4: Seq<char>,
    x5: Seq<char>,
    x6: Seq<char>,
    x7: Seq<char>,
    x8: Seq<char>,
    x9: Seq<char>,
    x10: Seq<char>,
    x11: Seq<char>,
    x12: Seq<char>,
    x13: Seq<char>,
    x14: Seq<char>,
    x15: Seq<char>,
    x16: Seq<char>,
    x17: Seq<char>,
    x18: Seq<char>,
    x19: Seq<char>,
    x20: Seq<char>,
    x21: Seq<char>,
    x22: Seq<char>,
    x23: Seq<char>,
    x24: Seq<char>,
    x25: Seq<char>,
    x26: Seq<char>,
    x27: Seq<char>,
    x28: Seq<char>,
) -> (ps: Seq<Seq<char>>)
    ensures
        ps.len() == 29,
        ps[0] == x0,
        ps[1] == x1,
        ps[2] == x2,
        ps[3] == x3,
        ps[4] == x4,
        ps[5] == x5,
        ps[6] == x6,
        ps[7] == x7,
        ps[8] == x8,
        ps[9] == x9,
        ps[10] == x10,
        ps[11] == x11,
        ps[12] == x12,
        ps[13] == x13,
        ps[14] == x14,
        ps[15] == x15,
        ps[16] == x16,
        ps[17] == x17,
        ps[18] == x18,
        ps[19] == x19,
        ps[20] == x20,
        ps[21] == x21,
        ps[22] == x22,
        ps[23] == x23,
        ps[24] == x24,
        ps[25] == x25,
        ps[26] == x26,
        ps[27] == x27,
        ps[28] == x28,
        in_a_row(ps) == x0 + x1 + x2 + x3 + x4 + x5 + x6 + x7 + x8 + x9 + x10 + x11 + x12 + x13 + x14 + x15 + x16 + x17 + x18 + x19 + x20 + x21 + x22 + x23 + x24 + x25 + x26 + x27 + x28,
{
    let s0 = Seq::<Seq<char>>::empty();
    assert(in_a_row(s0) =~= Seq::<char>::empty());
    let s1 = s0.push(x0);
    lemma_in_a_row(s0, x0);
    assert(in_a_row(s1) =~= x0);
    let s2 = s1.push(x1);
    lemma_in_a_row(s1, x1);
    let s3 = s2.push(x2);
    lemma_in_a_row(s2, x2);
    let s4 = s3.push(x3);
    lemma_in_a_row(s3, x3);
    let s5 = s4.push(x4);
    lemma_in_a_row(s4, x4);
    let s6 = s5.push(x5);
    lemma_in_a_row(s5, x5);
    let s7 = s6.push(x6);
    lemma_in_a_row(s6, x6);
    let s8 = s7.push(x7);
    lemma_in_a_row(s7, x7);
    let s9 = s8.push(x8);
    lemma_in_a_row(s8, x8);
    let s10 = s9.push(x9);
    lemma_in_a_row(s9, x9);
    let s11 = s10.push(x10);
    lemma_in_a_row(s10, x10);
    let s12 = s11.push(x11);
    lemma_in_a_row(s11, x11);
    let s13 = s12.push(x12);
    lemma_in_a_row(s12, x12);
    let s14 = s13.push(x13);
    lemma_in_a_row(s13, x13);
    let s15 = s14.push(x14);
    lemma_in_a_row(s14, x14);
    let s16 = s15.push(x15);
    lemma_in_a_row(s15, x15);
    let s17 = s16.push(x16);
    lemma_in_a_row(s16, x16);
    let s18 = s17.push(x17);
    lemma_in_a_row(s17, x17);
    let s19 = s18.push(x18);
    lemma_in_a_row(s18, x18);
    let s20 = s19.push(x19);
    lemma_in_a_row(s19, x19);
    let s21 = s20.push(x20);
    lemma_in_a_row(s20, x20);
    let s22 = s21.push(x21);
    lemma_in_a_row(s21, x21);
    let s23 = s22.push(x22);
    lemma_in_a_row(s22, x22);
    let s24 = s23.push(x23);
    lemma_in_a_row(s23, x23);
    let s25 = s24.push(x24);
    lemma_in_a_row(s24, x24);
    let s26 = s25.push(x25);
    lemma_in_a_row(s25, x25);
    let s27 = s26.push(x26);
    lemma_in_a_row(s26, x26);
    let s28 = s27.push(x27);
    lemma_in_a_row(s27, x27);
    let s29 = s28.push(x28);
    lemma_in_a_row(s28, x28);
    s29
}

proof fn lemma_page_pieces(f: FormView, v: LiveView, value: Seq<char>, label: Seq<char>) -> (ps: Seq<Seq<char>>)
    ensures
        ps.len() == 29,
        ps[0] == PAGE_BEFORE_CSS@,
        ps[1] == CSS@,
        ps[2] == PAGE_BEFORE_RANGES@,
        ps[3] == esc_spec(f.ranges),
        ps[4] == PAGE_BEFORE_PORTS@,
        ps[5] == esc_spec(f.ports),
        ps[6] == PAGE_BEFORE_MIN_PLAYERS@,
        ps[7] == esc_spec(f.min_players),
        ps[8] == PAGE_BEFORE_EXCLUDES@,
        ps[9] == esc_spec(f.excludes),
        ps[10] == PAGE_BEFORE_RATE@,
        ps[11] == esc_spec(f.rate),
        ps[12] == PAGE_BEFORE_TIMEOUT_MS@,
        ps[13] == esc_spec(f.timeout_ms),
        ps[14] == PAGE_BEFORE_CONNECT@,
        ps[15] == esc_spec(f.connect),
        ps[16] == PAGE_BEFORE_PING@,
        ps[17] == esc_spec(f.ping),
        ps[18] == PAGE_BEFORE_RESERVED@,
        ps[19] == checked_spec(f.include_reserved),
        ps[20] == PAGE_BEFORE_TCP@,
        ps[21] == checked_spec(f.tcp),
        ps[22] == PAGE_BEFORE_FRESH@,
        ps[23] == checked_spec(f.fresh),
        ps[24] == PAGE_BEFORE_LIVE@,
        ps[25] == live_block_spec(v, value, label),
        ps[26] == PAGE_BEFORE_HITS@,
        ps[27] == hits_block_spec(v.hits),
        ps[28] == PAGE_END@,
        in_a_row(ps) == page_spec(f, v, value, label),
{
    lemma_page_pieces_of(
        PAGE_BEFORE_CSS@,
        CSS@,
        PAGE_BEFORE_RANGES@,
        esc_spec(f.ranges),
        PAGE_BEFORE_PORTS@,
        esc_spec(f.ports),
        PAGE_BEFORE_MIN_PLAYERS@,
        esc_spec(f.min_players),
        PAGE_BEFORE_EXCLUDES@,
        esc_spec(f.excludes),
        PAGE_BEFORE_RATE@,
        esc_spec(f.rate),
        PAGE_BEFORE_TIMEOUT_MS@,
        esc_spec(f.timeout_ms),
        PAGE_BEFORE_CONNECT@,
        esc_spec(f.connect),
        PAGE_BEFORE_PING@,
        esc_spec(f.ping),
        PAGE_BEFORE_RESERVED@,
        checked_spec(f.include_reserved),
        PAGE_BEFORE_TCP@,
        checked_spec(f.tcp),
        PAGE_BEFORE_FRESH@,
        checked_spec(f.fresh),
        PAGE_BEFORE_LIVE@,
        live_block_spec(v, value, label),
        PAGE_BEFORE_HITS@,
        hits_block_spec(v.hits),
        PAGE_END@,
    )
}

proof fn lemma_input_begins()
    ensures
        ends_with(PAGE_BEFORE_PORTS@, "<input name=\""@ + "ports"@ + "\" value=\""@),
        ends_with(PAGE_BEFORE_MIN_PLAYERS@, "<input name=\""@ + "min_players"@ + "\" value=\""@),
        ends_with(PAGE_BEFORE_RATE@, "<input name=\""@ + "rate"@ + "\" value=\""@),
        ends_with(PAGE_BEFORE_TIMEOUT_MS@, "<input name=\""@ + "timeout_ms"@ + "\" value=\""@),
        ends_with(PAGE_BEFORE_CONNECT@, "<input name=\""@ + "connect"@ + "\" value=\""@),
        ends_with(PAGE_BEFORE_PING@, "<input name=\""@ + "ping"@ + "\" value=\""@),
{
    reveal_strlit("ping");
    reveal_strlit("rate");
    reveal_strlit("ports");
    reveal_strlit("connect");
    reveal_strlit("\" value=\"");
    reveal_strlit("timeout_ms");
    reveal_strlit("min_players");
    reveal_strlit("<input name=\"");
    reveal_strlit("</textarea>\n      </label>\n      <label>Ports\n        <input name=\"ports\" value=\"");
    reveal_strlit("\" inputmode=\"numeric\" autocomplete=\"off\">\n      </label>\n      <label>Ping workers\n        <input name=\"ping\" value=\"");
    reveal_strlit("\" inputmode=\"numeric\" autocomplete=\"off\">\n      </label>\n      <label>TCP workers\n        <input name=\"connect\" value=\"");
    reveal_strlit("\" inputmode=\"numeric\" autocomplete=\"off\">\n      </label>\n      <label>Min players\n        <input name=\"min_players\" value=\"");
    reveal_strlit("</textarea>\n      </label>\n      <label>Rate <span class=\"hint\">pps, blank = auto</span>\n        <input name=\"rate\" value=\"");
    reveal_strlit("\" inputmode=\"numeric\" autocomplete=\"off\" placeholder=\"auto\">\n      </label>\n      <label>Timeout ms\n        <input name=\"timeout_ms\" value=\"");
    assert(PAGE_BEFORE_PORTS@.skip(PAGE_BEFORE_PORTS@.len() - 27) =~= "<input name=\""@ + "ports"@ + "\" value=\""@);
    assert(PAGE_BEFORE_MIN_PLAYERS@.skip(PAGE_BEFORE_MIN_PLAYERS@.len() - 33) =~= "<input name=\""@ + "min_players"@ + "\" value=\""@);
    assert(PAGE_BEFORE_RATE@.skip(PAGE_BEFORE_RATE@.len() - 26) =~= "<input name=\""@ + "rate"@ + "\" value=\""@);
    assert(PAGE_BEFORE_TIMEOUT_MS@.skip(PAGE_BEFORE_TIMEOUT_MS@.len() - 32) =~= "<input name=\""@ + "timeout_ms"@ + "\" value=\""@);
    assert(PAGE_BEFORE_CONNECT@.skip(PAGE_BEFORE_CONNECT@.len() - 29) =~= "<input name=\""@ + "connect"@ + "\" value=\""@);
    assert(PAGE_BEFORE_PING@.skip(PAGE_BEFORE_PING@.len() - 26) =~= "<input name=\""@ + "ping"@ + "\" value=\""@);
}

proof fn lemma_input_ends()
    ensures
        begins_with(PAGE_BEFORE_MIN_PLAYERS@, "\""@),
        begins_with(PAGE_BEFORE_EXCLUDES@, "\""@),
        begins_with(PAGE_BEFORE_TIMEOUT_MS@, "\""@),
        begins_with(PAGE_BEFORE_CONNECT@, "\""@),
        begins_with(PAGE_BEFORE_PING@, "\""@),
        begins_with(PAGE_BEFORE_RESERVED@, "\""@),
{
    reveal_strlit("\"");
    reveal_strlit("\" inputmode=\"numeric\" autocomplete=\"off\">\n      </label>\n      <label>Ping workers\n        <input name=\"ping\" value=\"");
    reveal_strlit("\" inputmode=\"numeric\" autocomplete=\"off\">\n      </label>\n      <label>TCP workers\n        <input name=\"connect\" value=\"");
    reveal_strlit("\" inputmode=\"numeric\" autocomplete=\"off\">\n      </label>\n      <label>Min players\n        <input name=\"min_players\" value=\"");
    reveal_strlit("\" inputmode=\"numeric\" autocomplete=\"off\" placeholder=\"auto\">\n      </label>\n      <label>Timeout ms\n        <input name=\"timeout_ms\" value=\"");
    reveal_strlit("\" inputmode=\"numeric\" autocomplete=\"off\">\n      </label>\n      <label class=\"span2\">Exclude <span class=\"hint\">optional CIDRs to skip, one per line</span>\n        <textarea name=\"excludes\" rows=\"2\">");
    reveal_strlit("\" inputmode=\"numeric\" autocomplete=\"off\">\n      </label>\n    </div>\n    <fieldset class=\"flags\">\n      <legend class=\"sr\">Flags</legend>\n      <label class=\"check\"><input type=\"checkbox\" name=\"include_reserved\" ");
    assert(PAGE_BEFORE_MIN_PLAYERS@.take(1) =~= "\""@);
    assert(PAGE_BEFORE_EXCLUDES@.take(1) =~= "\""@);
    assert(PAGE_BEFORE_TIMEOUT_MS@.take(1) =~= "\""@);
    assert(PAGE_BEFORE_CONNECT@.take(1) =~= "\""@);
    assert(PAGE_BEFORE_PING@.take(1) =~= "\""@);
    assert(PAGE_BEFORE_RESERVED@.take(1) =~= "\""@);
}

proof fn lemma_area_ends()
    ensures
        begins_with(PAGE_BEFORE_PORTS@, "</textarea>"@),
        begins_with(PAGE_BEFORE_RATE@, "</textarea>"@),
        ends_with(PAGE_BEFORE_EXCLUDES@, "<textarea name=\"excludes\" rows=\"2\">"@),
{
    reveal_strlit("</textarea>");
    reveal_strlit("<textarea name=\"excludes\" rows=\"2\">");
    reveal_strlit("</textarea>\n      </label>\n      <label>Ports\n        <input name=\"ports\" value=\"");
    reveal_strlit("</textarea>\n      </label>\n      <label>Rate <span class=\"hint\">pps, blank = auto</span>\n        <input name=\"rate\" value=\"");
    reveal_strlit("\" inputmode=\"numeric\" autocomplete=\"off\">\n      </label>\n      <label class=\"span2\">Exclude <span class=\"hint\">optional CIDRs to skip, one per line</span>\n        <textarea name=\"excludes\" rows=\"2\">");
    assert(PAGE_BEFORE_PORTS@.take(11) =~= "</textarea>"@);
    assert(PAGE_BEFORE_RATE@.take(11) =~= "</textarea>"@);
    assert(PAGE_BEFORE_EXCLUDES@.skip(PAGE_BEFORE_EXCLUDES@.len() - 35) =~= "<textarea name=\"excludes\" rows=\"2\">"@);
}

proof fn lemma_ranges_area()
    ensures
        ends_with(PAGE_BEFORE_RANGES@, "<textarea id=\"ranges\" name=\"ranges\" rows=\"3\" required placeholder=\"192.168.1.0/24\" autofocus>"@),
{
    reveal_strlit("<textarea id=\"ranges\" name=\"ranges\" rows=\"3\" required placeholder=\"192.168.1.0/24\" autofocus>");
    reveal_strlit("</style>\n</head>\n<body>\n<a class=\"skip\" href=\"#ranges\">Skip to range</a>\n<div class=\"grain\" aria-hidden=\"true\"></div>\n<main>\n  <header>\n    <p class=\"kicker\">IPv4 · port 25565 · players online</p>\n    <h1>mc-scan</h1>\n    <p class=\"lede\">Name a range. Hit scan. Populated Minecraft servers land in the table as they answer a status ping. SYN mode needs <code>CAP_NET_RAW</code>; without it this falls back to TCP connects.</p>\n  </header>\n  <noscript><p class=\"hint\">JavaScript is off. Submit the form, then refresh the page to watch progress.</p></noscript>\n  <form class=\"panel\" method=\"post\" action=\"/start\"\n        hx-post=\"/start\" hx-target=\"#live\" hx-swap=\"outerHTML\">\n    <div class=\"grid\">\n      <label class=\"span2\">Range <span class=\"hint\">one CIDR or IP per line. Required here.</span>\n        <textarea id=\"ranges\" name=\"ranges\" rows=\"3\" required placeholder=\"192.168.1.0/24\" autofocus>");
    assert(PAGE_BEFORE_RANGES@.skip(PAGE_BEFORE_RANGES@.len() - 93) =~= "<textarea id=\"ranges\" name=\"ranges\" rows=\"3\" required placeholder=\"192.168.1.0/24\" autofocus>"@);
}

proof fn lemma_boxes()
    ensures
        ends_with(PAGE_BEFORE_RESERVED@, "<input type=\"checkbox\" name=\""@ + "include_reserved"@ + "\" "@),
        ends_with(PAGE_BEFORE_TCP@, "<input type=\"checkbox\" name=\""@ + "tcp"@ + "\" "@),
        ends_with(PAGE_BEFORE_FRESH@, "<input type=\"checkbox\" name=\""@ + "fresh"@ + "\" "@),
        begins_with(PAGE_BEFORE_TCP@, ">"@),
        begins_with(PAGE_BEFORE_FRESH@, ">"@),
        begins_with(PAGE_BEFORE_LIVE@, ">"@),
{
    reveal_strlit(">");
    reveal_strlit("\" ");
    reveal_strlit("tcp");
    reveal_strlit("fresh");
    reveal_strlit("include_reserved");
    reveal_strlit("<input type=\"checkbox\" name=\"");
    reveal_strlit("> Force TCP connect (skip raw SYN)</label>\n      <label class=\"check\"><input type=\"checkbox\" name=\"fresh\" ");
    reveal_strlit("> Include private / reserved (need this for 10/8, 192.168/16, …)</label>\n      <label class=\"check\"><input type=\"checkbox\" name=\"tcp\" ");
    reveal_strlit("\" inputmode=\"numeric\" autocomplete=\"off\">\n      </label>\n    </div>\n    <fieldset class=\"flags\">\n      <legend class=\"sr\">Flags</legend>\n      <label class=\"check\"><input type=\"checkbox\" name=\"include_reserved\" ");
    reveal_strlit("> Ignore saved cursor, start over</label>\n    </fieldset>\n    <div class=\"actions\">\n      <button type=\"submit\">Scan</button>\n      <button type=\"submit\" formaction=\"/stop\" formmethod=\"post\"\n              hx-post=\"/stop\" hx-target=\"#live\" hx-swap=\"outerHTML\">Stop</button>\n      <a class=\"text\" href=\"/hits.txt\">Download hits.txt</a>\n    </div>\n  </form>\n  ");
    assert(PAGE_BEFORE_RESERVED@.skip(PAGE_BEFORE_RESERVED@.len() - 47) =~= "<input type=\"checkbox\" name=\""@ + "include_reserved"@ + "\" "@);
    assert(PAGE_BEFORE_TCP@.skip(PAGE_BEFORE_TCP@.len() - 34) =~= "<input type=\"checkbox\" name=\""@ + "tcp"@ + "\" "@);
    assert(PAGE_BEFORE_FRESH@.skip(PAGE_BEFORE_FRESH@.len() - 36) =~= "<input type=\"checkbox\" name=\""@ + "fresh"@ + "\" "@);
    assert(PAGE_BEFORE_TCP@.take(1) =~= ">"@);
    assert(PAGE_BEFORE_FRESH@.take(1) =~= ">"@);
    assert(PAGE_BEFORE_LIVE@.take(1) =~= ">"@);
}

proof fn lemma_status_marks()
    ensures
        ends_with(LIVE_BEFORE_PHASE_LABEL@, "<p class=\"pill "@),
        begins_with(LIVE_BEFORE_PHASE_LABEL_AGAIN@, "\">"@),
        ends_with(LIVE_BEFORE_PHASE_LABEL_AGAIN@, "\">"@),
        begins_with(LIVE_BEFORE_MODE@, " · "@),
        ends_with(LIVE_BEFORE_MODE@, " · "@),
        begins_with(LIVE_BEFORE_ERR_HTML@, "</p>"@),
        ends_with(LIVE_BEFORE_PCT_VALUE@, "<progress max=\"100\" value=\""@),
        begins_with(LIVE_BEFORE_PCT_LABEL@, "\""@),
        ends_with(LIVE_BEFORE_PCT_LABEL@, "aria-label=\"scan progress\">"@),
        begins_with(LIVE_BEFORE_DONE@, "%</progress>"@),
        ends_with(LIVE_BEFORE_PROGRESS@, "<p class=\"progress-line\">"@),
        begins_with(LIVE_BEFORE_LOGS@, "</p>"@),
        ends_with(LIVE_BEFORE_LOGS@, "<ol class=\"log\">"@),
        begins_with(LIVE_END@, "</ol>"@),
{
    reveal_strlit("\"");
    reveal_strlit("\">");
    reveal_strlit(" · ");
    reveal_strlit("</p>");
    reveal_strlit("</ol>");
    reveal_strlit("%</progress>");
    reveal_strlit("<p class=\"pill ");
    reveal_strlit("<ol class=\"log\">");
    reveal_strlit("</p>\n  </div>\n  ");
    reveal_strlit("</ol>\n</section>\n");
    reveal_strlit("</p>\n  <ol class=\"log\">");
    reveal_strlit("<p class=\"progress-line\">");
    reveal_strlit("aria-label=\"scan progress\">");
    reveal_strlit("<progress max=\"100\" value=\"");
    reveal_strlit("\" aria-label=\"scan progress\">");
    reveal_strlit("\n  <progress max=\"100\" value=\"");
    reveal_strlit("</dd></div>\n  </dl>\n  <p class=\"progress-line\">");
    reveal_strlit("%</progress>\n  <dl class=\"stats\">\n    <div><dt>scanned</dt><dd>");
    reveal_strlit(" aria-live=\"polite\">\n  <div class=\"row\">\n    <h2>Status</h2>\n    <p class=\"pill ");
    assert(LIVE_BEFORE_PHASE_LABEL@.skip(LIVE_BEFORE_PHASE_LABEL@.len() - 15) =~= "<p class=\"pill "@);
    assert(LIVE_BEFORE_PHASE_LABEL_AGAIN@.take(2) =~= "\">"@);
    assert(LIVE_BEFORE_PHASE_LABEL_AGAIN@.skip(LIVE_BEFORE_PHASE_LABEL_AGAIN@.len() - 2) =~= "\">"@);
    assert(LIVE_BEFORE_MODE@.take(3) =~= " · "@);
    assert(LIVE_BEFORE_MODE@.skip(LIVE_BEFORE_MODE@.len() - 3) =~= " · "@);
    assert(LIVE_BEFORE_ERR_HTML@.take(4) =~= "</p>"@);
    assert(LIVE_BEFORE_PCT_VALUE@.skip(LIVE_BEFORE_PCT_VALUE@.len() - 27) =~= "<progress max=\"100\" value=\""@);
    assert(LIVE_BEFORE_PCT_LABEL@.take(1) =~= "\""@);
    assert(LIVE_BEFORE_PCT_LABEL@.skip(LIVE_BEFORE_PCT_LABEL@.len() - 27) =~= "aria-label=\"scan progress\">"@);
    assert(LIVE_BEFORE_DONE@.take(12) =~= "%</progress>"@);
    assert(LIVE_BEFORE_PROGRESS@.skip(LIVE_BEFORE_PROGRESS@.len() - 25) =~= "<p class=\"progress-line\">"@);
    assert(LIVE_BEFORE_LOGS@.take(4) =~= "</p>"@);
    assert(LIVE_BEFORE_LOGS@.skip(LIVE_BEFORE_LOGS@.len() - 16) =~= "<ol class=\"log\">"@);
    assert(LIVE_END@.take(5) =~= "</ol>"@);
}

proof fn lemma_hits_marks()
    ensures
        ends_with(HITS_BEFORE_N@, "<p class=\"pill\">"@),
        begins_with(HITS_BEFORE_ROWS@, "</p>"@),
        ends_with(HITS_BEFORE_ROWS@, "<tbody>"@),
        begins_with(HITS_END@, "</tbody>"@),
{
    reveal_strlit("</p>");
    reveal_strlit("<tbody>");
    reveal_strlit("</tbody>");
    reveal_strlit("<p class=\"pill\">");
    reveal_strlit("</tbody>\n    </table>\n  </div>\n</section>\n");
    reveal_strlit("</p>\n  </div>\n  <div class=\"table-wrap\">\n    <table>\n      <thead><tr><th>server</th><th>players</th><th>version</th><th>motd</th></tr></thead>\n      <tbody>");
    reveal_strlit("<section class=\"panel\" id=\"hits-wrap\"\n      hx-get=\"/hits\" hx-trigger=\"every 1s\" hx-swap=\"outerHTML\">\n  <div class=\"row\">\n    <h2>Populated</h2>\n    <p class=\"pill\">");
    assert(HITS_BEFORE_N@.skip(HITS_BEFORE_N@.len() - 16) =~= "<p class=\"pill\">"@);
    assert(HITS_BEFORE_ROWS@.take(4) =~= "</p>"@);
    assert(HITS_BEFORE_ROWS@.skip(HITS_BEFORE_ROWS@.len() - 7) =~= "<tbody>"@);
    assert(HITS_END@.take(8) =~= "</tbody>"@);
}

proof fn lemma_figure(ps: Seq<Seq<char>>, i: int, label: Seq<char>)
    requires
        1 <= i < ps.len() - 1,
        ends_with(ps[i - 1], "<dt>"@ + label + "</dt><dd>"@),
        begins_with(ps[i + 1], "</dd>"@),
    ensures
        holds(in_a_row(ps), figure(label, ps[i])),
{
    lemma_piece(ps, i, "<dt>"@ + label + "</dt><dd>"@, "</dd>"@);
}

/// Each figure of the status block stands behind its own label.
pub proof fn figures_stand_behind_their_labels(v: LiveView, value: Seq<char>, label: Seq<char>)
    ensures
        ({
            let block = live_block_spec(v, value, label);
            &&& holds(block, figure("scanned"@, dec(v.stats.packets as nat)))
            &&& holds(block, figure("of"@, dec(v.total_pkts as nat)))
            &&& holds(block, figure("addrs"@, dec(v.total_addrs as nat)))
            &&& holds(block, figure("open"@, dec(v.stats.open as nat)))
            &&& holds(block, figure("pinged"@, dec(v.stats.pinged as nat)))
            &&& holds(block, figure("populated"@, dec(v.stats.live as nat)))
            &&& holds(block, figure("eta"@, esc_spec(eta_shown(v.progress))))
        }),
{
    lemma_figure_labels();
    lemma_figure_ends();
    let ps = lemma_live_pieces(v, value, label);
    lemma_figure(ps, 15, "scanned"@);
    lemma_figure(ps, 17, "of"@);
    lemma_figure(ps, 19, "addrs"@);
    lemma_figure(ps, 21, "open"@);
    lemma_figure(ps, 23, "pinged"@);
    lemma_figure(ps, 25, "populated"@);
    lemma_figure(ps, 27, "eta"@);
}

/// A server that answers with enough players raises the figure of populated servers by one, and
/// has its row; one that answers with fewer does not, and neither does an open port, a packet or
/// a ping.
pub proof fn populated_figure_counts_servers(
    v: LiveView,
    hit: HitView,
    min_players: i32,
    bump_open: bool,
    value: Seq<char>,
    label: Seq<char>,
)
    requires
        v.hits.len() < MAX_HITS,
    ensures
        ({
            let after = v.answered(hit, min_players, bump_open);
            let block = live_block_spec(after, value, label);
            &&& hit.online >= min_players ==> holds(
                block,
                figure("populated"@, dec(one_more(v.stats.live) as nat)),
            ) && holds(hits_block_spec(after.hits), row_spec(hit))
            &&& hit.online < min_players ==> holds(
                block,
                figure("populated"@, dec(v.stats.live as nat)),
            ) && hits_block_spec(after.hits) == hits_block_spec(v.hits)
        }),
        holds(
            live_block_spec(v.port_counted(), value, label),
            figure("populated"@, dec(v.stats.live as nat)),
        ),
        holds(
            live_block_spec(v.packet_counted(), value, label),
            figure("populated"@, dec(v.stats.live as nat)),
        ),
        holds(
            live_block_spec(v.ping_sent(), value, label),
            figure("populated"@, dec(v.stats.live as nat)),
        ),
{
    let after = v.answered(hit, min_players, bump_open);
    events_are_counted(v, hit, min_players, bump_open);
    figures_stand_behind_their_labels(after, value, label);
    figures_stand_behind_their_labels(v.port_counted(), value, label);
    figures_stand_behind_their_labels(v.packet_counted(), value, label);
    figures_stand_behind_their_labels(v.ping_sent(), value, label);
    servers_are_listed(after.hits);
    if hit.online >= min_players {
        assert(after.hits[after.hits.len() - 1] == hit);
    }
}

/// A field of the form with its value.
pub open spec fn input(name: Seq<char>, value: Seq<char>) -> Seq<char> {
    "<input name=\""@ + name + "\" value=\""@ + value + "\""@
}

/// A box of the form, ticked or not.
pub open spec fn tick_box(name: Seq<char>, ticked: bool) -> Seq<char> {
    "<input type=\"checkbox\" name=\""@ + name + "\" "@ + (if ticked {
        "checked"@
    } else {
        ""@
    }) + ">"@
}

proof fn lemma_input(ps: Seq<Seq<char>>, i: int, name: Seq<char>)
    requires
        1 <= i < ps.len() - 1,
        ends_with(ps[i - 1], "<input name=\""@ + name + "\" value=\""@),
        begins_with(ps[i + 1], "\""@),
    ensures
        holds(in_a_row(ps), input(name, ps[i])),
{
    lemma_piece(ps, i, "<input name=\""@ + name + "\" value=\""@, "\""@);
}

/// Each field of the form on the page holds the value that is its own.
pub proof fn fields_hold_their_values(f: FormView, v: LiveView, value: Seq<char>, label: Seq<char>)
    ensures
        ({
            let page = page_spec(f, v, value, label);
            &&& holds(page, input("ports"@, esc_spec(f.ports)))
            &&& holds(page, input("min_players"@, esc_spec(f.min_players)))
            &&& holds(page, input("rate"@, esc_spec(f.rate)))
            &&& holds(page, input("timeout_ms"@, esc_spec(f.timeout_ms)))
            &&& holds(page, input("connect"@, esc_spec(f.connect)))
            &&& holds(page, input("ping"@, esc_spec(f.ping)))
        }),
{
    lemma_input_begins();
    lemma_input_ends();
    let ps = lemma_page_pieces(f, v, value, label);
    lemma_input(ps, 5, "ports"@);
    lemma_input(ps, 7, "min_players"@);
    lemma_input(ps, 11, "rate"@);
    lemma_input(ps, 13, "timeout_ms"@);
    lemma_input(ps, 15, "connect"@);
    lemma_input(ps, 17, "ping"@);
}

/// The texts of ranges and excluded blocks stand in their areas, and each box is ticked when its
/// setting is on.
pub proof fn areas_and_boxes_hold_their_values(
    f: FormView,
    v: LiveView,
    value: Seq<char>,
    label: Seq<char>,
)
    ensures
        ({
            let page = page_spec(f, v, value, label);
            &&& holds(
                page,
                "<textarea id=\"ranges\" name=\"ranges\" rows=\"3\" required placeholder=\"192.168.1.0/24\" autofocus>"@
                    + esc_spec(f.ranges) + "</textarea>"@,
            )
            &&& holds(
                page,
                "<textarea name=\"excludes\" rows=\"2\">"@ + esc_spec(f.excludes) + "</textarea>"@,
            )
            &&& holds(page, tick_box("include_reserved"@, f.include_reserved))
            &&& holds(page, tick_box("tcp"@, f.tcp))
            &&& holds(page, tick_box("fresh"@, f.fresh))
        }),
{
    lemma_area_ends();
    lemma_ranges_area();
    lemma_boxes();
    let ps = lemma_page_pieces(f, v, value, label);
    lemma_piece(
        ps,
        3,
        "<textarea id=\"ranges\" name=\"ranges\" rows=\"3\" required placeholder=\"192.168.1.0/24\" autofocus>"@,
        "</textarea>"@,
    );
    lemma_piece(ps, 9, "<textarea name=\"excludes\" rows=\"2\">"@, "</textarea>"@);
    lemma_piece(ps, 19, "<input type=\"checkbox\" name=\""@ + "include_reserved"@ + "\" "@, ">"@);
    lemma_piece(ps, 21, "<input type=\"checkbox\" name=\""@ + "tcp"@ + "\" "@, ">"@);
    lemma_piece(ps, 23, "<input type=\"checkbox\" name=\""@ + "fresh"@ + "\" "@, ">"@);
}

/// The page holds the status block and the block of the servers that were found.
pub proof fn page_holds_its_parts(f: FormView, v: LiveView, value: Seq<char>, label: Seq<char>)
    ensures
        holds(page_spec(f, v, value, label), live_block_spec(v, value, label)),
        holds(page_spec(f, v, value, label), hits_block_spec(v.hits)),
{
    let ps = lemma_page_pieces(f, v, value, label);
    let e = Seq::<char>::empty();
    assert(ps[24].skip(ps[24].len() as int) =~= e && ps[26].take(0) =~= e);
    assert(ps[26].skip(ps[26].len() as int) =~= e && ps[28].take(0) =~= e);
    lemma_piece(ps, 25, e, e);
    lemma_piece(ps, 27, e, e);
    assert(e + ps[25] + e =~= live_block_spec(v, value, label));
    assert(e + ps[27] + e =~= hits_block_spec(v.hits));
}

/// The status block tells the phase and the kind of the scan, how much of it is done, what is
/// wrong, the line of progress and the last lines of the log, each in its place.
pub proof fn status_stands_in_its_place(v: LiveView, value: Seq<char>, label: Seq<char>)
    ensures
        ({
            let block = live_block_spec(v, value, label);
            &&& holds(block, "<p class=\"pill "@ + phase_label_spec(v.phase) + "\">"@)
            &&& holds(block, "\">"@ + phase_label_spec(v.phase) + " · "@)
            &&& holds(block, " · "@ + esc_spec(mode_shown(v.mode)) + "</p>"@)
            &&& holds(block, "<progress max=\"100\" value=\""@ + value + "\""@)
            &&& holds(block, "aria-label=\"scan progress\">"@ + label + "%</progress>"@)
            &&& holds(block, "<p class=\"progress-line\">"@ + esc_spec(v.progress) + "</p>"@)
            &&& holds(block, "<ol class=\"log\">"@ + log_items(tail(v.logs, 12)) + "</ol>"@)
            &&& holds(block, error_html(v.error))
        }),
{
    lemma_status_marks();
    let ps = lemma_live_pieces(v, value, label);
    lemma_piece(ps, 3, "<p class=\"pill "@, "\">"@);
    lemma_piece(ps, 5, "\">"@, " · "@);
    lemma_piece(ps, 7, " · "@, "</p>"@);
    lemma_piece(ps, 11, "<progress max=\"100\" value=\""@, "\""@);
    lemma_piece(ps, 13, "aria-label=\"scan progress\">"@, "%</progress>"@);
    lemma_piece(ps, 29, "<p class=\"progress-line\">"@, "</p>"@);
    lemma_piece(ps, 31, "<ol class=\"log\">"@, "</ol>"@);
    let e = Seq::<char>::empty();
    assert(ps[8].skip(ps[8].len() as int) =~= e && ps[10].take(0) =~= e);
    lemma_piece(ps, 9, e, e);
    assert(e + ps[9] + e =~= error_html(v.error));
}

/// The table of servers tells how many there are, and has the rows of the last 400 of them.
pub proof fn servers_are_listed(hits: Seq<HitView>)
    ensures
        holds(hits_block_spec(hits), "<p class=\"pill\">"@ + dec(hits.len()) + "</p>"@),
        holds(hits_block_spec(hits), "<tbody>"@ + table_rows(tail(hits, 400)) + "</tbody>"@),
        forall|i: int|
            0 <= i < hits.len() && hits.len() - 400 <= i ==> holds(
                hits_block_spec(hits),
                row_spec(#[trigger] hits[i]),
            ),
{
    lemma_hits_marks();
    let e = Seq::<char>::empty();
    let n = dec(hits.len());
    let rows = table_rows(tail(hits, 400));
    let block = hits_block_spec(hits);
    lemma_between(e, HITS_BEFORE_N@, n, HITS_BEFORE_ROWS@, "<p class=\"pill\">"@, "</p>"@);
    assert(e + HITS_BEFORE_N@ + n + HITS_BEFORE_ROWS@ =~= HITS_BEFORE_N@ + n + HITS_BEFORE_ROWS@);
    lemma_grown(HITS_BEFORE_N@ + n + HITS_BEFORE_ROWS@, rows, HITS_END@, "<p class=\"pill\">"@ + n + "</p>"@);
    lemma_between(HITS_BEFORE_N@ + n, HITS_BEFORE_ROWS@, rows, HITS_END@, "<tbody>"@, "</tbody>"@);
    assert forall|i: int| 0 <= i < hits.len() && hits.len() - 400 <= i implies holds(
        block,
        row_spec(#[trigger] hits[i]),
    ) by {
        let last = tail(hits, 400);
        let k = i - (hits.len() - last.len());
        assert(last[k] == hits[i]);
        lemma_row_is_listed(last, k);
        lemma_holds_more(rows, HITS_BEFORE_N@ + n + HITS_BEFORE_ROWS@, row_spec(hits[i]));
        lemma_holds_more(HITS_BEFORE_N@ + n + HITS_BEFORE_ROWS@ + rows, HITS_END@, row_spec(hits[i]));
    }
}

proof fn lemma_row_is_listed(hits: Seq<HitView>, i: int)
    requires
        0 <= i < hits.len(),
    ensures
        holds(rows_spec(hits), row_spec(hits[i])),
    decreases hits.len(),
{
    let e = Seq::<char>::empty();
    if i == hits.len() - 1 {
        lemma_holds(e, row_spec(hits[i]), rows_spec(hits.drop_last()));
        assert(e + row_spec(hits[i]) + rows_spec(hits.drop_last()) =~= rows_spec(hits));
    } else {
        assert(hits.drop_last()[i] == hits[i]);
        lemma_row_is_listed(hits.drop_last(), i);
        lemma_holds_more(rows_spec(hits.drop_last()), row_spec(hits.last()), row_spec(hits[i]));
    }
}

/// The newest server has the first row.
pub proof fn newest_server_comes_first(hits: Seq<HitView>, hit: HitView)
    ensures
        rows_spec(hits.push(hit)) == row_spec(hit) + rows_spec(hits),
{
    assert(hits.push(hit).drop_last() =~= hits);
}

#[verifier::spinoff_prover]
#[verifier::rlimit(80)]
proof fn lemma_row_pieces_of(
    x0: Seq<char>,
    x1: Seq<char>,
    x2: Seq<char>,
    x3: Seq<char>,
    x4: Seq<char>,
    x5: Seq<char>,
    x6: Seq<char>,
    x7: Seq<char>,
    x8: Seq<char>,
    x9: Seq<char>,
    x10: Seq<char>,
    x11: Seq<char>,
    x12: Seq<char>,
) -> (ps: Seq<Seq<char>>)
    ensures
        ps.len() == 13,
        ps[0] == x0,
        ps[1] == x1,
        ps[2] == x2,
        ps[3] == x3,
        ps[4] == x4,
        ps[5] == x5,
        ps[6] == x6,
        ps[7] == x7,
        ps[8] == x8,
        ps[9] == x9,
        ps[10] == x10,
        ps[11] == x11,
        ps[12] == x12,
        in_a_row(ps) == x0 + x1 + x2 + x3 + x4 + x5 + x6 + x7 + x8 + x9 + x10 + x11 + x12,
{
    let s0 = Seq::<Seq<char>>::empty();
    assert(in_a_row(s0) =~= Seq::<char>::empty());
    let s1 = s0.push(x0);
    lemma_in_a_row(s0, x0);
    assert(in_a_row(s1) =~= x0);
    let s2 = s1.push(x1);
    lemma_in_a_row(s1, x1);
    let s3 = s2.push(x2);
    lemma_in_a_row(s2, x2);
    let s4 = s3.push(x3);
    lemma_in_a_row(s3, x3);
    let s5 = s4.push(x4);
    lemma_in_a_row(s4, x4);
    let s6 = s5.push(x5);
    lemma_in_a_row(s5, x5);
    let s7 = s6.push(x6);
    lemma_in_a_row(s6, x6);
    let s8 = s7.push(x7);
    lemma_in_a_row(s7, x7);
    let s9 = s8.push(x8);
    lemma_in_a_row(s8, x8);
    let s10 = s9.push(x9);
    lemma_in_a_row(s9, x9);
    let s11 = s10.push(x10);
    lemma_in_a_row(s10, x10);
    let s12 = s11.push(x11);
    lemma_in_a_row(s11, x11);
    let s13 = s12.push(x12);
    lemma_in_a_row(s12, x12);
    s13
}

proof fn lemma_row_pieces(h: HitView) -> (ps: Seq<Seq<char>>)
    ensures
        ps.len() == 13,
        ps[0] == "<tr><td><code>"@,
        ps[1] == esc_spec(quad_text(h.ip)),
        ps[2] == ":"@,
        ps[3] == dec(h.port as nat),
        ps[4] == "</code></td><td class=\"num\">"@,
        ps[5] == dec_int(h.online as int),
        ps[6] == "/"@,
        ps[7] == dec_int(h.max as int),
        ps[8] == "</td><td>"@,
        ps[9] == esc_spec(or_nothing(h.version)),
        ps[10] == "</td><td>"@,
        ps[11] == esc_spec(or_nothing(h.motd)),
        ps[12] == "</td></tr>"@,
        in_a_row(ps) == row_spec(h),
{
    lemma_row_pieces_of(
        "<tr><td><code>"@,
        esc_spec(quad_text(h.ip)),
        ":"@,
        dec(h.port as nat),
        "</code></td><td class=\"num\">"@,
        dec_int(h.online as int),
        "/"@,
        dec_int(h.max as int),
        "</td><td>"@,
        esc_spec(or_nothing(h.version)),
        "</td><td>"@,
        esc_spec(or_nothing(h.motd)),
        "</td></tr>"@,
    )
}

/// The row of a server tells its address and port, how many players it has of how many it may
/// have, and behind them its version and its message.
pub proof fn rows_tell_of_their_servers(h: HitView)
    ensures
        holds(row_spec(h), "<code>"@ + quad_text(h.ip) + ":"@),
        holds(row_spec(h), ":"@ + dec(h.port as nat) + "</code>"@),
        holds(row_spec(h), "<td class=\"num\">"@ + dec_int(h.online as int) + "/"@),
        holds(row_spec(h), "/"@ + dec_int(h.max as int) + "</td>"@),
        holds(
            row_spec(h),
            "/"@ + dec_int(h.max as int) + "</td><td>"@ + esc_spec(or_nothing(h.version)) + "</td><td>"@
                + esc_spec(or_nothing(h.motd)) + "</td></tr>"@,
        ),
{
    let ps = lemma_row_pieces(h);
    lemma_quad_is_plain(h.ip);
    lemma_row_marks();
    lemma_piece(ps, 1, "<code>"@, ":"@);
    lemma_piece(ps, 3, ":"@, "</code>"@);
    lemma_piece(ps, 5, "<td class=\"num\">"@, "/"@);
    lemma_piece(ps, 7, "/"@, "</td>"@);
    lemma_row_end(
        ps[0] + ps[1] + ps[2] + ps[3] + ps[4] + ps[5],
        ps[6],
        ps[7],
        ps[8],
        ps[9],
        ps[10],
        ps[11],
        ps[12],
    );
}

proof fn lemma_regroup(a: Seq<char>, b: Seq<char>, c: Seq<char>)
    ensures
        a + (b + c) == a + b + c,
{
    assert(a + (b + c) =~= a + b + c);
}

proof fn lemma_row_end(
    head: Seq<char>,
    a: Seq<char>,
    b: Seq<char>,
    c: Seq<char>,
    d: Seq<char>,
    e: Seq<char>,
    f: Seq<char>,
    g: Seq<char>,
)
    ensures
        holds(head + a + b + c + d + e + f + g, a + b + c + d + e + f + g),
{
    let end = a + b + c + d + e + f + g;
    let none = Seq::<char>::empty();
    lemma_holds(head, end, none);
    lemma_regroup(head, a, b);
    lemma_regroup(head, a + b, c);
    lemma_regroup(head, a + b + c, d);
    lemma_regroup(head, a + b + c + d, e);
    lemma_regroup(head, a + b + c + d + e, f);
    lemma_regroup(head, a + b + c + d + e + f, g);
    assert(head + end + none =~= head + end);
}

proof fn lemma_quad_is_plain(ip: u32)
    ensures
        esc_spec(quad_text(ip)) == quad_text(ip),
{
    let t = quad_text(ip);
    let (a, b, c, d) = (
        dec(crate::ipv4::octet(ip, 0)),
        dec(crate::ipv4::octet(ip, 1)),
        dec(crate::ipv4::octet(ip, 2)),
        dec(crate::ipv4::octet(ip, 3)),
    );
    crate::num::lemma_dec_digits(crate::ipv4::octet(ip, 0));
    crate::num::lemma_dec_digits(crate::ipv4::octet(ip, 1));
    crate::num::lemma_dec_digits(crate::ipv4::octet(ip, 2));
    crate::num::lemma_dec_digits(crate::ipv4::octet(ip, 3));
    let (m, n, o) = (a.len() as int + 1, (a.len() + b.len()) as int + 2, (a.len() + b.len() + c.len()) as int + 3);
    assert forall|i: int| 0 <= i < t.len() implies #[trigger] t[i] == '.' || '0' <= t[i] <= '9' by {
        if i < m - 1 {
            assert(t[i] == a[i]);
        } else if m <= i < n - 1 {
            assert(t[i] == b[i - m]);
        } else if n <= i < o - 1 {
            assert(t[i] == c[i - n]);
        } else if o <= i {
            assert(t[i] == d[i - o]);
        }
    }
    crate::web::plain_text_is_kept(t);
}

proof fn lemma_row_marks()
    ensures
        ends_with("<tr><td><code>"@, "<code>"@),
        begins_with(":"@, ":"@),
        ends_with(":"@, ":"@),
        begins_with("</code></td><td class=\"num\">"@, "</code>"@),
        ends_with("</code></td><td class=\"num\">"@, "<td class=\"num\">"@),
        begins_with("/"@, "/"@),
        ends_with("/"@, "/"@),
        begins_with("</td><td>"@, "</td>"@),
{
    reveal_strlit("<tr><td><code>");
    reveal_strlit("<code>");
    reveal_strlit(":");
    reveal_strlit("</code></td><td class=\"num\">");
    reveal_strlit("</code>");
    reveal_strlit("<td class=\"num\">");
    reveal_strlit("/");
    reveal_strlit("</td><td>");
    reveal_strlit("</td>");
    assert("<tr><td><code>"@.skip(8) =~= "<code>"@);
    assert(":"@.take(1) =~= ":"@ && ":"@.skip(0) =~= ":"@);
    assert("</code></td><td class=\"num\">"@.take(7) =~= "</code>"@);
    assert("</code></td><td class=\"num\">"@.skip(12) =~= "<td class=\"num\">"@);
    assert("/"@.take(1) =~= "/"@ && "/"@.skip(0) =~= "/"@);
    assert("</td><td>"@.take(5) =~= "</td>"@);
}

#[verifier::spinoff_prover]
#[verifier::rlimit(80)]
proof fn lemma_progress_pieces_of(
    x0: Seq<char>,
    x1: Seq<char>,
    x2: Seq<char>,
    x3: Seq<char>,
    x4: Seq<char>,
    x5: Seq<char>,
    x6: Seq<char>,
    x7: Seq<char>,
    x8: Seq<char>,
    x9: Seq<char>,
    x10: Seq<char>,
    x11: Seq<char>,
    x12: Seq<char>,
) -> (ps: Seq<Seq<char>>)
    ensures
        ps.len() == 13,
        ps[0] == x0,
        ps[1] == x1,
        ps[2] == x2,
        ps[3] == x3,
        ps[4] == x4,
        ps[5] == x5,
        ps[6] == x6,
        ps[7] == x7,
        ps[8] == x8,
        ps[9] == x9,
        ps[10] == x10,
        ps[11] == x11,
        ps[12] == x12,
        in_a_row(ps) == x0 + x1 + x2 + x3 + x4 + x5 + x6 + x7 + x8 + x9 + x10 + x11 + x12,
{
    let s0 = Seq::<Seq<char>>::empty();
    assert(in_a_row(s0) =~= Seq::<char>::empty());
    let s1 = s0.push(x0);
    lemma_in_a_row(s0, x0);
    assert(in_a_row(s1) =~= x0);
    let s2 = s1.push(x1);
    lemma_in_a_row(s1, x1);
    let s3 = s2.push(x2);
    lemma_in_a_row(s2, x2);
    let s4 = s3.push(x3);
    lemma_in_a_row(s3, x3);
    let s5 = s4.push(x4);
    lemma_in_a_row(s4, x4);
    let s6 = s5.push(x5);
    lemma_in_a_row(s5, x5);
    let s7 = s6.push(x6);
    lemma_in_a_row(s6, x6);
    let s8 = s7.push(x7);
    lemma_in_a_row(s7, x7);
    let s9 = s8.push(x8);
    lemma_in_a_row(s8, x8);
    let s10 = s9.push(x9);
    lemma_in_a_row(s9, x9);
    let s11 = s10.push(x10);
    lemma_in_a_row(s10, x10);
    let s12 = s11.push(x11);
    lemma_in_a_row(s11, x11);
    let s13 = s12.push(x12);
    lemma_in_a_row(s12, x12);
    s13
}

proof fn lemma_progress_pieces(stats: Stats, pps: Seq<char>, pct: Seq<char>, eta: Seq<char>) -> (ps: Seq<Seq<char>>)
    ensures
        ps.len() == 13,
        ps[0] == dec(stats.packets as nat),
        ps[1] == "  "@,
        ps[2] == pps,
        ps[3] == "pps  "@,
        ps[4] == pct,
        ps[5] == "%  open="@,
        ps[6] == dec(stats.open as nat),
        ps[7] == "  pinged="@,
        ps[8] == dec(stats.pinged as nat),
        ps[9] == "  live="@,
        ps[10] == dec(stats.live as nat),
        ps[11] == "  eta~"@,
        ps[12] == eta,
        in_a_row(ps) == progress_text_spec(stats, pps, pct, eta),
{
    lemma_progress_pieces_of(
        dec(stats.packets as nat),
        "  "@,
        pps,
        "pps  "@,
        pct,
        "%  open="@,
        dec(stats.open as nat),
        "  pinged="@,
        dec(stats.pinged as nat),
        "  live="@,
        dec(stats.live as nat),
        "  eta~"@,
        eta,
    )
}

#[verifier::spinoff_prover]
#[verifier::rlimit(80)]
proof fn lemma_done_pieces_of(
    x0: Seq<char>,
    x1: Seq<char>,
    x2: Seq<char>,
    x3: Seq<char>,
    x4: Seq<char>,
    x5: Seq<char>,
    x6: Seq<char>,
    x7: Seq<char>,
    x8: Seq<char>,
    x9: Seq<char>,
    x10: Seq<char>,
    x11: Seq<char>,
) -> (ps: Seq<Seq<char>>)
    ensures
        ps.len() == 12,
        ps[0] == x0,
        ps[1] == x1,
        ps[2] == x2,
        ps[3] == x3,
        ps[4] == x4,
        ps[5] == x5,
        ps[6] == x6,
        ps[7] == x7,
        ps[8] == x8,
        ps[9] == x9,
        ps[10] == x10,
        ps[11] == x11,
        in_a_row(ps) == x0 + x1 + x2 + x3 + x4 + x5 + x6 + x7 + x8 + x9 + x10 + x11,
{
    let s0 = Seq::<Seq<char>>::empty();
    assert(in_a_row(s0) =~= Seq::<char>::empty());
    let s1 = s0.push(x0);
    lemma_in_a_row(s0, x0);
    assert(in_a_row(s1) =~= x0);
    let s2 = s1.push(x1);
    lemma_in_a_row(s1, x1);
    let s3 = s2.push(x2);
    lemma_in_a_row(s2, x2);
    let s4 = s3.push(x3);
    lemma_in_a_row(s3, x3);
    let s5 = s4.push(x4);
    lemma_in_a_row(s4, x4);
    let s6 = s5.push(x5);
    lemma_in_a_row(s5, x5);
    let s7 = s6.push(x6);
    lemma_in_a_row(s6, x6);
    let s8 = s7.push(x7);
    lemma_in_a_row(s7, x7);
    let s9 = s8.push(x8);
    lemma_in_a_row(s8, x8);
    let s10 = s9.push(x9);
    lemma_in_a_row(s9, x9);
    let s11 = s10.push(x10);
    lemma_in_a_row(s10, x10);
    let s12 = s11.push(x11);
    lemma_in_a_row(s11, x11);
    s12
}

proof fn lemma_done_pieces(stats: Stats, pps: Seq<char>) -> (ps: Seq<Seq<char>>)
    ensures
        ps.len() == 12,
        ps[0] == "done  scanned="@,
        ps[1] == dec(stats.packets as nat),
        ps[2] == "  send="@,
        ps[3] == dec(stats.send_ms as nat),
        ps[4] == "ms  "@,
        ps[5] == pps,
        ps[6] == "pps  open="@,
        ps[7] == dec(stats.open as nat),
        ps[8] == "  pinged="@,
        ps[9] == dec(stats.pinged as nat),
        ps[10] == "  populated="@,
        ps[11] == dec(stats.live as nat),
        in_a_row(ps) == done_text_spec(stats, pps),
{
    lemma_done_pieces_of(
        "done  scanned="@,
        dec(stats.packets as nat),
        "  send="@,
        dec(stats.send_ms as nat),
        "ms  "@,
        pps,
        "pps  open="@,
        dec(stats.open as nat),
        "  pinged="@,
        dec(stats.pinged as nat),
        "  populated="@,
        dec(stats.live as nat),
    )
}

#[verifier::spinoff_prover]
#[verifier::rlimit(80)]
proof fn lemma_line_pieces_of(
    x0: Seq<char>,
    x1: Seq<char>,
    x2: Seq<char>,
    x3: Seq<char>,
    x4: Seq<char>,
    x5: Seq<char>,
    x6: Seq<char>,
    x7: Seq<char>,
    x8: Seq<char>,
) -> (ps: Seq<Seq<char>>)
    ensures
        ps.len() == 9,
        ps[0] == x0,
        ps[1] == x1,
        ps[2] == x2,
        ps[3] == x3,
        ps[4] == x4,
        ps[5] == x5,
        ps[6] == x6,
        ps[7] == x7,
        ps[8] == x8,
        in_a_row(ps) == x0 + x1 + x2 + x3 + x4 + x5 + x6 + x7 + x8,
{
    let s0 = Seq::<Seq<char>>::empty();
    assert(in_a_row(s0) =~= Seq::<char>::empty());
    let s1 = s0.push(x0);
    lemma_in_a_row(s0, x0);
    assert(in_a_row(s1) =~= x0);
    let s2 = s1.push(x1);
    lemma_in_a_row(s1, x1);
    let s3 = s2.push(x2);
    lemma_in_a_row(s2, x2);
    let s4 = s3.push(x3);
    lemma_in_a_row(s3, x3);
    let s5 = s4.push(x4);
    lemma_in_a_row(s4, x4);
    let s6 = s5.push(x5);
    lemma_in_a_row(s5, x5);
    let s7 = s6.push(x6);
    lemma_in_a_row(s6, x6);
    let s8 = s7.push(x7);
    lemma_in_a_row(s7, x7);
    let s9 = s8.push(x8);
    lemma_in_a_row(s8, x8);
    s9
}

proof fn lemma_line_pieces(h: HitView) -> (ps: Seq<Seq<char>>)
    ensures
        ps.len() == 9,
        ps[0] == quad_text(h.ip),
        ps[1] == ":"@,
        ps[2] == dec(h.port as nat),
        ps[3] == "  players="@,
        ps[4] == dec_int(h.online as int),
        ps[5] == "/"@,
        ps[6] == dec_int(h.max as int),
        ps[7] == spaced(h.version),
        ps[8] == spaced(h.motd),
        in_a_row(ps) == h.line(),
{
    lemma_line_pieces_of(
        quad_text(h.ip),
        ":"@,
        dec(h.port as nat),
        "  players="@,
        dec_int(h.online as int),
        "/"@,
        dec_int(h.max as int),
        spaced(h.version),
        spaced(h.motd),
    )
}

proof fn lemma_labelled(ps: Seq<Seq<char>>, i: int)
    requires
        1 <= i < ps.len() - 1,
    ensures
        holds(in_a_row(ps), ps[i - 1] + ps[i] + ps[i + 1]),
{
    assert(ps[i - 1].skip(0) =~= ps[i - 1]);
    assert(ps[i + 1].take(ps[i + 1].len() as int) =~= ps[i + 1]);
    lemma_piece(ps, i, ps[i - 1], ps[i + 1]);
}

/// The line of progress tells each figure behind its own word.
pub proof fn progress_tells_the_figures(stats: Stats, pps: Seq<char>, pct: Seq<char>, eta: Seq<char>)
    ensures
        ({
            let line = progress_text_spec(stats, pps, pct, eta);
            &&& begins_with(line, dec(stats.packets as nat) + "  "@)
            &&& holds(line, "  "@ + pps + "pps  "@)
            &&& holds(line, "pps  "@ + pct + "%  open="@)
            &&& holds(line, "%  open="@ + dec(stats.open as nat) + "  pinged="@)
            &&& holds(line, "  pinged="@ + dec(stats.pinged as nat) + "  live="@)
            &&& holds(line, "  live="@ + dec(stats.live as nat) + "  eta~"@)
            &&& ends_with(line, "  eta~"@ + eta)
        }),
{
    let ps = lemma_progress_pieces(stats, pps, pct, eta);
    lemma_labelled(ps, 2);
    lemma_labelled(ps, 4);
    lemma_labelled(ps, 6);
    lemma_labelled(ps, 8);
    lemma_labelled(ps, 10);
    lemma_row_begins(ps);
    lemma_row_ends(ps);
}

proof fn lemma_row_begins(ps: Seq<Seq<char>>)
    requires
        ps.len() >= 2,
    ensures
        begins_with(in_a_row(ps), ps[0] + ps[1]),
    decreases ps.len(),
{
    let front = ps.drop_last();
    if ps.len() == 2 {
        assert(front.drop_last() =~= Seq::empty());
        assert(in_a_row(front.drop_last()) =~= Seq::<char>::empty());
        assert(in_a_row(front) =~= ps[0]);
        assert(in_a_row(ps) =~= ps[0] + ps[1]);
        assert(in_a_row(ps).take((ps[0] + ps[1]).len() as int) =~= ps[0] + ps[1]);
    } else {
        assert(front[0] == ps[0] && front[1] == ps[1]);
        lemma_row_begins(front);
        let b = ps[0] + ps[1];
        assert(in_a_row(ps).take(b.len() as int) =~= in_a_row(front).take(b.len() as int));
    }
}

proof fn lemma_row_ends(ps: Seq<Seq<char>>)
    requires
        ps.len() >= 2,
    ensures
        ends_with(in_a_row(ps), ps[ps.len() - 2] + ps[ps.len() - 1]),
{
    let front = ps.drop_last();
    let (x, y) = (ps[ps.len() - 2], ps[ps.len() - 1]);
    let lead = in_a_row(front.drop_last());
    assert(in_a_row(front) == lead + x);
    assert(in_a_row(ps) == lead + x + y);
    assert((lead + x + y).skip((lead + x + y).len() - (x + y).len()) =~= x + y);
}

/// The last line of a scan tells each figure behind its own word.
pub proof fn last_line_tells_the_figures(stats: Stats, pps: Seq<char>)
    ensures
        ({
            let line = done_text_spec(stats, pps);
            &&& begins_with(line, "done  scanned="@ + dec(stats.packets as nat))
            &&& holds(line, "  send="@ + dec(stats.send_ms as nat) + "ms  "@)
            &&& holds(line, "ms  "@ + pps + "pps  open="@)
            &&& holds(line, "pps  open="@ + dec(stats.open as nat) + "  pinged="@)
            &&& holds(line, "  pinged="@ + dec(stats.pinged as nat) + "  populated="@)
            &&& ends_with(line, "  populated="@ + dec(stats.live as nat))
        }),
{
    let ps = lemma_done_pieces(stats, pps);
    lemma_labelled(ps, 3);
    lemma_labelled(ps, 5);
    lemma_labelled(ps, 7);
    lemma_labelled(ps, 9);
    lemma_row_begins(ps);
    lemma_row_ends(ps);
}

/// The line of a server tells its address, its port, its players and, where there are any, its
/// version and its message.
pub proof fn line_tells_of_its_server(h: HitView)
    ensures
        begins_with(h.line(), quad_text(h.ip) + ":"@),
        holds(h.line(), ":"@ + dec(h.port as nat) + "  players="@),
        holds(h.line(), "  players="@ + dec_int(h.online as int) + "/"@),
        h.version matches Some(v) ==> holds(h.line(), "/"@ + dec_int(h.max as int) + ("  "@ + v)),
        h.motd matches Some(m) ==> ends_with(h.line(), "  "@ + m),
        h.version is None && h.motd is None ==> ends_with(h.line(), "/"@ + dec_int(h.max as int)),
{
    let ps = lemma_line_pieces(h);
    lemma_labelled(ps, 2);
    lemma_labelled(ps, 4);
    lemma_labelled(ps, 6);
    lemma_row_begins(ps);
    lemma_row_ends(ps);
    let (front, line) = (ps.drop_last(), h.line());
    if let Some(m) = h.motd {
        let t = "  "@ + m;
        assert(line == in_a_row(front) + t);
        assert(line.skip(line.len() - t.len()) =~= t);
    }
    if h.version is None && h.motd is None {
        let shorter = front.drop_last();
        lemma_row_ends(shorter);
        assert(in_a_row(front) =~= in_a_row(shorter));
        assert(line =~= in_a_row(shorter));
        assert(shorter[5] == ps[5] && shorter[6] == ps[6]);
    }
}

/// The time to go that the page shows is the one at the end of the line of progress, if the mark
/// before it stands nowhere else.
pub proof fn time_to_go_is_shown(before: Seq<char>, eta: Seq<char>)
    requires
        forall|i: int|
            0 <= i < before.len() ==> #[trigger] (before + "eta~"@).subrange(i, i + 4) != "eta~"@,
        forall|i: int| 0 <= i && i + 4 <= eta.len() ==> #[trigger] eta.subrange(i, i + 4) != "eta~"@,
    ensures
        eta_shown(before + "eta~"@ + eta) == eta,
{
    reveal_strlit("eta~");
    let mark = "eta~"@;
    let s = before + mark + eta;
    let n = before.len() as int;
    text_is_found_first(s, mark, 0);
    assert(s.subrange(n, n + 4) =~= mark);
    assert(text_at(s, mark, n));
    if let Some(p) = find_text_spec(s, mark) {
        if p < n {
            let p = p as int;
            assert(s.subrange(p, p + 4) =~= (before + mark).subrange(p, p + 4));
        }
    }
    assert(s.skip(n + 4) =~= eta);
    text_is_found_first(eta, mark, 0);
}

/// The text that a browser shows for the text of a page.
pub open spec fn as_shown(s: Seq<char>) -> Seq<char>
    decreases s.len(),
{
    if s.len() == 0 {
        Seq::empty()
    } else if begins_with(s, seq!['&', 'a', 'm', 'p', ';']) {
        seq!['&'] + as_shown(s.skip(5))
    } else if begins_with(s, seq!['&', 'l', 't', ';']) {
        seq!['<'] + as_shown(s.skip(4))
    } else if begins_with(s, seq!['&', 'g', 't', ';']) {
        seq!['>'] + as_shown(s.skip(4))
    } else if begins_with(s, seq!['&', 'q', 'u', 'o', 't', ';']) {
        seq!['"'] + as_shown(s.skip(6))
    } else if begins_with(s, seq!['&', '#', '3', '9', ';']) {
        seq!['\''] + as_shown(s.skip(5))
    } else {
        seq![s[0]] + as_shown(s.skip(1))
    }
}

proof fn lemma_first_escaped(s: Seq<char>)
    requires
        s.len() > 0,
    ensures
        esc_spec(s) == esc_char(s[0]) + esc_spec(s.skip(1)),
    decreases s.len(),
{
    let e = Seq::<char>::empty();
    if s.len() == 1 {
        assert(s.drop_last() =~= e && s.skip(1) =~= e);
        assert(esc_spec(e) =~= e);
        assert(esc_spec(s) =~= esc_char(s[0]));
        assert(esc_char(s[0]) + e =~= esc_char(s[0]));
    } else {
        lemma_first_escaped(s.drop_last());
        assert(s.drop_last().skip(1) =~= s.skip(1).drop_last());
        assert(s.skip(1).last() == s.last());
        assert(esc_spec(s) =~= esc_char(s[0]) + esc_spec(s.skip(1)));
    }
}

proof fn lemma_char_shown(c: char, rest: Seq<char>)
    ensures
        as_shown(esc_char(c) + rest) == seq![c] + as_shown(rest),
{
    reveal_strlit("&amp;");
    reveal_strlit("&lt;");
    reveal_strlit("&gt;");
    reveal_strlit("&quot;");
    reveal_strlit("&#39;");
    let s = esc_char(c) + rest;
    assert(s[0] == esc_char(c)[0]);
    if c == '&' {
        assert(s.take(5) =~= seq!['&', 'a', 'm', 'p', ';'] && s.skip(5) =~= rest);
    } else if c == '<' {
        assert(s.take(4) =~= seq!['&', 'l', 't', ';'] && s.skip(4) =~= rest);
        lemma_other_front(s, seq!['&', 'a', 'm', 'p', ';'], 1);
    } else if c == '>' {
        assert(s.take(4) =~= seq!['&', 'g', 't', ';'] && s.skip(4) =~= rest);
        lemma_other_front(s, seq!['&', 'a', 'm', 'p', ';'], 1);
        lemma_other_front(s, seq!['&', 'l', 't', ';'], 1);
    } else if c == '"' {
        assert(s.take(6) =~= seq!['&', 'q', 'u', 'o', 't', ';'] && s.skip(6) =~= rest);
        lemma_other_front(s, seq!['&', 'a', 'm', 'p', ';'], 1);
        lemma_other_front(s, seq!['&', 'l', 't', ';'], 1);
        lemma_other_front(s, seq!['&', 'g', 't', ';'], 1);
    } else if c == '\'' {
        assert(s.take(5) =~= seq!['&', '#', '3', '9', ';'] && s.skip(5) =~= rest);
        lemma_other_front(s, seq!['&', 'a', 'm', 'p', ';'], 1);
        lemma_other_front(s, seq!['&', 'l', 't', ';'], 1);
        lemma_other_front(s, seq!['&', 'g', 't', ';'], 1);
        lemma_other_front(s, seq!['&', 'q', 'u', 'o', 't', ';'], 1);
    } else {
        assert(s.skip(1) =~= rest);
        lemma_other_front(s, seq!['&', 'a', 'm', 'p', ';'], 0);
        lemma_other_front(s, seq!['&', 'l', 't', ';'], 0);
        lemma_other_front(s, seq!['&', 'g', 't', ';'], 0);
        lemma_other_front(s, seq!['&', 'q', 'u', 'o', 't', ';'], 0);
        lemma_other_front(s, seq!['&', '#', '3', '9', ';'], 0);
    }
}

proof fn lemma_other_front(s: Seq<char>, begin: Seq<char>, i: int)
    requires
        0 <= i < begin.len(),
        i < s.len(),
        s[i] != begin[i],
    ensures
        !begins_with(s, begin),
{
    if begins_with(s, begin) {
        assert(s.take(begin.len() as int)[i] == s[i]);
    }
}

/// Whatever a text holds, a browser shows that text for what stands for it in the page.
pub proof fn texts_are_shown_as_they_are(s: Seq<char>)
    ensures
        as_shown(esc_spec(s)) == s,
    decreases s.len(),
{
    if s.len() == 0 {
        assert(s =~= Seq::empty());
    } else {
        lemma_first_escaped(s);
        lemma_char_shown(s[0], esc_spec(s.skip(1)));
        texts_are_shown_as_they_are(s.skip(1));
        assert(seq![s[0]] + s.skip(1) =~= s);
    }
}

proof fn lemma_line_is_listed(logs: Seq<Seq<char>>, i: int)
    requires
        0 <= i < logs.len(),
    ensures
        holds(log_items(logs), "<li>"@ + esc_spec(logs[i]) + "</li>"@),
    decreases logs.len(),
{
    let front = logs.drop_last();
    let item = "<li>"@ + esc_spec(logs.last()) + "</li>"@;
    let e = Seq::<char>::empty();
    assert(log_items(logs) =~= log_items(front) + item);
    if i == logs.len() - 1 {
        lemma_holds(log_items(front), item, e);
        assert(log_items(front) + item + e =~= log_items(logs));
    } else {
        assert(front[i] == logs[i]);
        lemma_line_is_listed(front, i);
        lemma_holds_more(log_items(front), item, "<li>"@ + esc_spec(logs[i]) + "</li>"@);
    }
}

/// The status block shows the last twelve lines of the log, and the error where there is one.
pub proof fn last_lines_and_error_are_shown(v: LiveView, value: Seq<char>, label: Seq<char>)
    ensures
        forall|i: int|
            0 <= i < v.logs.len() && v.logs.len() - 12 <= i ==> holds(
                live_block_spec(v, value, label),
                "<li>"@ + esc_spec(#[trigger] v.logs[i]) + "</li>"@,
            ),
        v.error matches Some(why) ==> holds(live_block_spec(v, value, label), esc_spec(why)),
{
    let ps = lemma_live_pieces(v, value, label);
    let e = Seq::<char>::empty();
    let block = live_block_spec(v, value, label);
    let last = tail(v.logs, 12);
    assert forall|i: int| 0 <= i < v.logs.len() && v.logs.len() - 12 <= i implies holds(
        block,
        "<li>"@ + esc_spec(#[trigger] v.logs[i]) + "</li>"@,
    ) by {
        let k = i - (v.logs.len() - last.len());
        assert(last[k] == v.logs[i]);
        lemma_line_is_listed(last, k);
        lemma_in_piece(ps, 31, "<li>"@ + esc_spec(v.logs[i]) + "</li>"@);
    }
    if let Some(why) = v.error {
        lemma_holds("<p class=\"err\" role=\"alert\">"@, esc_spec(why), "</p>"@);
        lemma_in_piece(ps, 9, esc_spec(why));
    }
}

/// What stands in a piece stands in the whole.
proof fn lemma_in_piece(ps: Seq<Seq<char>>, i: int, sub: Seq<char>)
    requires
        0 <= i < ps.len(),
        holds(ps[i], sub),
    ensures
        holds(in_a_row(ps), sub),
    decreases ps.len(),
{
    let front = ps.drop_last();
    if i == ps.len() - 1 {
        lemma_holds_more(ps[i], in_a_row(front), sub);
    } else {
        assert(front[i] == ps[i]);
        lemma_in_piece(front, i, sub);
        lemma_holds_more(in_a_row(front), ps.last(), sub);
    }
}

} // verus!
