//! Which addresses a scan goes to, in terms of the texts that name ranges and excluded blocks.

use vstd::prelude::*;
use vstd::string::*;

use crate::ip::{
    block, block_is_prefix, cidr_spec, cidrs_spec, count, covers, exclude_lines_spec, exclude_word,
    includes_spec, lemma_covers_concat, lemma_covers_push, merge_keeps_cover,
    reserved_blocks, wanted, CidrError, Window,
};
use crate::ipv4::{octet, quad_reads_back, quad_text};
use crate::num::{dec, lemma_dec_digits, lemma_dec_reads_back};
use crate::scan::{
    comma_list, extra_spec, filed_excludes, finish_spec, is_content, is_port_set, job_spec,
    lines_spec, named_excludes, one_file, port_words, ports_can_be_ordered, ports_spec, rate_spec,
    resume_spec, runs_job, space_windows_cover, ConfigView, ExcludeFile, FinishView, Mbps,
    PortsFault, Rate, ResumeView, RunOpts, ScanConfig, StateFile,
};
use crate::state::{render_reads_back, render_spec, Checkpoint};
use crate::text::{
    is_white, lemma_position_is, lemma_split_at, lemma_split_whole, lemma_trim_keeps,
    nonempty_pieces, split_once_spec, split_spec, trim_end_spec, trim_spec, trim_start_spec, Sep,
};

verus! {

/// How many addresses agree in their first `pfx` bits.
pub open spec fn block_size(pfx: nat) -> nat {
    vstd::arithmetic::power2::pow2((32 - pfx) as nat)
}

proof fn lemma_same_block(ip: u32, pfx: u32, x: u32)
    requires
        pfx <= 32,
    ensures
        block(ip, pfx).0 <= x <= block(ip, pfx).1 <==> x as nat / block_size(pfx as nat) == ip as nat
            / block_size(pfx as nat),
{
    block_is_prefix(ip, pfx, x);
    let k: u32 = (32 - pfx) as u32;
    if pfx == 0 {
        vstd::arithmetic::power2::lemma2_to64();
        assert(block_size(0) == 0x1_0000_0000);
        assert((x & 0u32) == 0 && (ip & 0u32) == 0) by (bit_vector);
    } else {
        assert(((x & (0xffff_ffffu32 << k)) == (ip & (0xffff_ffffu32 << k))) == ((x >> k) == (ip >> k)))
            by (bit_vector)
            requires
                k < 32,
        ;
        vstd::bits::lemma_u32_shr_is_div(x, k);
        vstd::bits::lemma_u32_shr_is_div(ip, k);
    }
}

/// The text of a block: an address and how many bits of it count.
pub open spec fn block_text(ip: u32, pfx: u32) -> Seq<char> {
    quad_text(ip).push('/') + dec(pfx as nat)
}

pub proof fn lemma_quad_chars(ip: u32)
    ensures
        quad_text(ip).len() > 0,
        forall|i: int|
            0 <= i < quad_text(ip).len() ==> #[trigger] quad_text(ip)[i] == '.' || '0' <= quad_text(ip)[i] <= '9',
{
    let t = quad_text(ip);
    let (a, b, c, d) = (dec(octet(ip, 0)), dec(octet(ip, 1)), dec(octet(ip, 2)), dec(octet(ip, 3)));
    lemma_dec_digits(octet(ip, 0));
    lemma_dec_digits(octet(ip, 1));
    lemma_dec_digits(octet(ip, 2));
    lemma_dec_digits(octet(ip, 3));
    let m = a.len() as int + 1;
    let n = m + b.len() + 1;
    let o = n + c.len() + 1;
    assert forall|i: int| 0 <= i < t.len() implies #[trigger] t[i] == '.' || '0' <= t[i] <= '9' by {
        if i < m - 1 {
            assert(t[i] == a[i]);
        } else if m <= i < n - 1 {
            assert(t[i] == b[i - m]);
        } else if n <= i < o - 1 {
            assert(t[i] == c[i - n]);
        } else if o <= i {
            assert(t[i] == d[i - o]);
        }
    }
}

proof fn lemma_block_chars(ip: u32, pfx: u32)
    ensures
        block_text(ip, pfx).len() > 0,
        forall|i: int| 0 <= i < block_text(ip, pfx).len() ==> !is_white(#[trigger] block_text(ip, pfx)[i]),
        split_once_spec(block_text(ip, pfx), '/') == Some((quad_text(ip), dec(pfx as nat))),
{
    let (q, d, t) = (quad_text(ip), dec(pfx as nat), block_text(ip, pfx));
    lemma_quad_chars(ip);
    lemma_dec_digits(pfx as nat);
    assert forall|i: int| 0 <= i < t.len() implies !is_white(#[trigger] t[i]) by {
        if i < q.len() {
            assert(t[i] == q[i]);
        } else if i > q.len() {
            assert(t[i] == d[i - q.len() - 1]);
        }
    }
    assert forall|i: int| 0 <= i < q.len() implies t[i] != '/' by {
        assert(t[i] == q[i]);
    }
    assert(t[q.len() as int] == '/');
    lemma_position_is(t, '/', q.len() as int);
    assert(t.take(q.len() as int) =~= q);
    assert(t.skip(q.len() as int + 1) =~= d);
}

/// The text of a block names exactly the addresses that agree with its address in its first bits;
/// more bits than an address has are refused. The text of an address names that address alone.
pub proof fn blocks_are_read(ip: u32, pfx: u32, x: u32)
    ensures
        pfx <= 32 ==> (cidr_spec(block_text(ip, pfx)) matches Ok(w) && (w.0 <= x <= w.1 <==> x as nat
            / block_size(pfx as nat) == ip as nat / block_size(pfx as nat))),
        pfx > 32 ==> cidr_spec(block_text(ip, pfx)) == Err::<Window, CidrError>(
            CidrError::PrefixTooLong(pfx),
        ),
        cidr_spec(quad_text(ip)) == Ok::<Window, CidrError>((ip, ip)),
{
    let t = block_text(ip, pfx);
    lemma_block_chars(ip, pfx);
    assert(!is_white(t[0]) && !is_white(t[t.len() - 1]));
    lemma_trim_keeps(t);
    quad_reads_back(ip);
    lemma_dec_reads_back(pfx as nat, u32::MAX as nat);
    if pfx <= 32 {
        lemma_same_block(ip, pfx, x);
    }
    let q = quad_text(ip);
    lemma_quad_chars(ip);
    assert(!is_white(q[0]) && !is_white(q[q.len() - 1]));
    lemma_trim_keeps(q);
    assert forall|i: int| 0 <= i < q.len() implies q[i] != '/' by {}
    lemma_position_is(q, '/', q.len() as int);
}

proof fn lemma_trim_start_blank(w: Seq<char>, s: Seq<char>)
    requires
        forall|i: int| 0 <= i < w.len() ==> is_white(#[trigger] w[i]),
    ensures
        trim_start_spec(w + s) == trim_start_spec(s),
    decreases w.len(),
{
    if w.len() == 0 {
        assert(w + s =~= s);
    } else {
        assert(is_white(w[0]));
        assert((w + s).skip(1) =~= w.skip(1) + s);
        assert forall|i: int| 0 <= i < w.skip(1).len() implies is_white(#[trigger] w.skip(1)[i]) by {
            assert(w.skip(1)[i] == w[i + 1]);
        }
        lemma_trim_start_blank(w.skip(1), s);
    }
}

proof fn lemma_trim_end_blank(s: Seq<char>, w: Seq<char>)
    requires
        forall|i: int| 0 <= i < w.len() ==> is_white(#[trigger] w[i]),
    ensures
        trim_end_spec(s + w) == trim_end_spec(s),
    decreases w.len(),
{
    if w.len() == 0 {
        assert(s + w =~= s);
    } else {
        assert(is_white(w[w.len() - 1]));
        assert((s + w).drop_last() =~= s + w.drop_last());
        assert forall|i: int| 0 <= i < w.drop_last().len() implies is_white(#[trigger] w.drop_last()[i]) by {
            assert(w.drop_last()[i] == w[i]);
        }
        lemma_trim_end_blank(s, w.drop_last());
    }
}

/// White space around a text does not count: a text that neither begins nor ends with any is what
/// is left of it.
pub proof fn space_around_is_trimmed(a: Seq<char>, s: Seq<char>, b: Seq<char>)
    requires
        forall|i: int| 0 <= i < a.len() ==> is_white(#[trigger] a[i]),
        forall|i: int| 0 <= i < b.len() ==> is_white(#[trigger] b[i]),
        s.len() > 0 ==> !is_white(s[0]) && !is_white(s.last()),
    ensures
        trim_spec(a + s + b) == s,
{
    assert(a + s + b =~= a + (s + b));
    lemma_trim_start_blank(a, s + b);
    if s.len() == 0 {
        assert(s + b =~= b + s);
        lemma_trim_start_blank(b, s);
        assert(trim_spec(a + s + b) =~= s);
    } else {
        assert((s + b)[0] == s[0]);
        lemma_trim_end_blank(s, b);
    }
}

/// A text names a block, and `x` is in it.
pub open spec fn in_block(text: Seq<char>, x: u32) -> bool {
    cidr_spec(text) matches Ok(w) && w.0 <= x <= w.1
}

/// One of the texts names a block that `x` is in.
pub open spec fn in_blocks(words: Seq<String>, x: u32) -> bool {
    exists|i: int| 0 <= i < words.len() && in_block(#[trigger] words[i]@, x)
}

/// A line of the text of an exclude file names a block that `x` is in.
pub open spec fn in_listed_block(lines: Seq<Seq<char>>, x: u32) -> bool {
    exists|i: int|
        0 <= i < lines.len() && (exclude_word(#[trigger] lines[i]) matches Some(word) && in_block(word, x))
}

/// One of the exclude files lists a block that `x` is in.
pub open spec fn in_files(files: Seq<ExcludeFile>, x: u32) -> bool {
    exists|i: int|
        0 <= i < files.len() && (#[trigger] files[i] matches ExcludeFile::Text(text) && in_listed_block(
            split_spec(text@, Sep::Char('\n')),
            x,
        ))
}

proof fn lemma_in_blocks_step(words: Seq<String>, x: u32)
    requires
        words.len() > 0,
    ensures
        in_blocks(words, x) == (in_blocks(words.drop_last(), x) || in_block(words.last()@, x)),
{
    let front = words.drop_last();
    if in_blocks(front, x) {
        let i = choose|i: int| 0 <= i < front.len() && in_block(#[trigger] front[i]@, x);
        assert(in_block(words[i]@, x));
    }
    if in_block(words.last()@, x) {
        assert(in_block(words[words.len() - 1]@, x));
    }
    if in_blocks(words, x) {
        let i = choose|i: int| 0 <= i < words.len() && in_block(#[trigger] words[i]@, x);
        if i < front.len() {
            assert(in_block(front[i]@, x));
        }
    }
}

proof fn lemma_ranges(words: Seq<String>, x: u32)
    requires
        cidrs_spec(words) is Ok,
    ensures
        covers(cidrs_spec(words)->Ok_0, x) == in_blocks(words, x),
    decreases words.len(),
{
    if words.len() > 0 {
        lemma_ranges(words.drop_last(), x);
        lemma_in_blocks_step(words, x);
        lemma_covers_push(cidrs_spec(words.drop_last())->Ok_0, cidr_spec(words.last()@)->Ok_0, x);
    }
}

proof fn lemma_named(words: Seq<String>, x: u32)
    requires
        named_excludes(words) is Ok,
    ensures
        covers(named_excludes(words)->Ok_0, x) == in_blocks(words, x),
    decreases words.len(),
{
    if words.len() > 0 {
        lemma_named(words.drop_last(), x);
        lemma_in_blocks_step(words, x);
        lemma_covers_push(named_excludes(words.drop_last())->Ok_0, cidr_spec(words.last()@)->Ok_0, x);
    }
}

proof fn lemma_lines(lines: Seq<Seq<char>>, x: u32)
    requires
        exclude_lines_spec(lines) is Ok,
    ensures
        covers(exclude_lines_spec(lines)->Ok_0, x) == in_listed_block(lines, x),
    decreases lines.len(),
{
    if lines.len() > 0 {
        let front = lines.drop_last();
        lemma_lines(front, x);
        let ws = exclude_lines_spec(front)->Ok_0;
        if let Some(word) = exclude_word(lines.last()) {
            lemma_covers_push(ws, cidr_spec(word)->Ok_0, x);
            if in_block(word, x) {
                assert(exclude_word(lines[lines.len() - 1]) == Some(word));
            }
        }
        if in_listed_block(front, x) {
            let i = choose|i: int|
                0 <= i < front.len() && (exclude_word(#[trigger] front[i]) matches Some(word) && in_block(
                    word,
                    x,
                ));
            assert(lines[i] == front[i]);
        }
        if in_listed_block(lines, x) {
            let i = choose|i: int|
                0 <= i < lines.len() && (exclude_word(#[trigger] lines[i]) matches Some(word) && in_block(
                    word,
                    x,
                ));
            if i < front.len() {
                assert(front[i] == lines[i]);
            }
        }
    }
}

proof fn lemma_filed(files: Seq<ExcludeFile>, x: u32)
    requires
        filed_excludes(files) is Ok,
    ensures
        covers(filed_excludes(files)->Ok_0, x) == in_files(files, x),
    decreases files.len(),
{
    if files.len() > 0 {
        let front = files.drop_last();
        lemma_filed(front, x);
        let ws = filed_excludes(front)->Ok_0;
        let more = one_file(files.last())->Ok_0;
        lemma_covers_concat(ws, more, x);
        let text = files.last()->Text_0;
        let lines = split_spec(text@, Sep::Char('\n'));
        lemma_lines(lines, x);
        merge_keeps_cover(exclude_lines_spec(lines)->Ok_0);
        assert(covers(more, x) == in_listed_block(lines, x));
        if in_listed_block(lines, x) {
            assert(files[files.len() - 1] == files.last());
        }
        if in_files(front, x) {
            let i = choose|i: int|
                0 <= i < front.len() && (#[trigger] front[i] matches ExcludeFile::Text(text)
                    && in_listed_block(split_spec(text@, Sep::Char('\n')), x));
            assert(files[i] == front[i]);
        }
        if in_files(files, x) {
            let i = choose|i: int|
                0 <= i < files.len() && (#[trigger] files[i] matches ExcludeFile::Text(text)
                    && in_listed_block(split_spec(text@, Sep::Char('\n')), x));
            if i < front.len() {
                assert(front[i] == files[i]);
            }
        }
    }
}

/// An address that is kept for special purposes, by its four numbers.
pub open spec fn is_reserved(x: u32) -> bool {
    let (a, b, c) = (octet(x, 0), octet(x, 1), octet(x, 2));
    ||| a == 0 || a == 10 || a == 127 || a >= 224
    ||| a == 100 && 64 <= b <= 127
    ||| a == 169 && b == 254
    ||| a == 172 && 16 <= b <= 31
    ||| a == 192 && b == 0 && (c == 0 || c == 2)
    ||| a == 192 && b == 31 && c == 196
    ||| a == 192 && b == 52 && c == 193
    ||| a == 192 && b == 88 && c == 99
    ||| a == 192 && b == 168
    ||| a == 192 && b == 175 && c == 48
    ||| a == 198 && (b == 18 || b == 19)
    ||| a == 198 && b == 51 && c == 100
    ||| a == 203 && b == 0 && c == 113
}

/// The reserved addresses by their first 8, 16 and 24 bits.
spec fn reserved_fronts(a: u32, b: u32, c: u32) -> bool {
    ||| a == 0x0
    ||| a == 0xa
    ||| 0x6440 <= b <= 0x647f
    ||| a == 0x7f
    ||| b == 0xa9fe
    ||| 0xac10 <= b <= 0xac1f
    ||| c == 0xc00000
    ||| c == 0xc00002
    ||| c == 0xc01fc4
    ||| c == 0xc034c1
    ||| c == 0xc05863
    ||| b == 0xc0a8
    ||| c == 0xc0af30
    ||| 0xc612 <= b <= 0xc613
    ||| c == 0xc63364
    ||| c == 0xcb0071
    ||| 0xe0 <= a <= 0xef
    ||| 0xf0 <= a <= 0xff
}

proof fn lemma_fronts(x: u32)
    ensures
        is_reserved(x) == reserved_fronts(x / 0x100_0000, x / 0x1_0000, x / 0x100),
{
    let (a, b, c) = (octet(x, 0), octet(x, 1), octet(x, 2));
    assert(x / 0x1_0000 == a * 0x100 + b);
    assert(x / 0x100 == a * 0x1_0000 + b * 0x100 + c);
    assert(a <= 255 && b <= 255 && c <= 255);
}

proof fn lemma_block_fronts(x: u32)
    ensures
        ({
            let (a, b, c) = (x / 0x100_0000, x / 0x1_0000, x / 0x100);
            let r = reserved_blocks();
            &&& r[0].0 <= x <= r[0].1 <==> a == 0x0
            &&& r[1].0 <= x <= r[1].1 <==> a == 0xa
            &&& r[2].0 <= x <= r[2].1 <==> 0x6440 <= b <= 0x647f
            &&& r[3].0 <= x <= r[3].1 <==> a == 0x7f
            &&& r[4].0 <= x <= r[4].1 <==> b == 0xa9fe
            &&& r[5].0 <= x <= r[5].1 <==> 0xac10 <= b <= 0xac1f
            &&& r[6].0 <= x <= r[6].1 <==> c == 0xc00000
            &&& r[7].0 <= x <= r[7].1 <==> c == 0xc00002
            &&& r[8].0 <= x <= r[8].1 <==> c == 0xc01fc4
            &&& r[9].0 <= x <= r[9].1 <==> c == 0xc034c1
            &&& r[10].0 <= x <= r[10].1 <==> c == 0xc05863
            &&& r[11].0 <= x <= r[11].1 <==> b == 0xc0a8
            &&& r[12].0 <= x <= r[12].1 <==> c == 0xc0af30
            &&& r[13].0 <= x <= r[13].1 <==> 0xc612 <= b <= 0xc613
            &&& r[14].0 <= x <= r[14].1 <==> c == 0xc63364
            &&& r[15].0 <= x <= r[15].1 <==> c == 0xcb0071
            &&& r[16].0 <= x <= r[16].1 <==> 0xe0 <= a <= 0xef
            &&& r[17].0 <= x <= r[17].1 <==> 0xf0 <= a <= 0xff
        }),
{
}

/// The reserved blocks hold the reserved addresses and no others.
pub proof fn reserved_blocks_hold_the_reserved(x: u32)
    ensures
        covers(reserved_blocks(), x) == is_reserved(x),
{
    let r = reserved_blocks();
    assert(r.len() == 18);
    lemma_fronts(x);
    lemma_block_fronts(x);
    if covers(r, x) {
        let i = choose|i: int| 0 <= i < r.len() && (#[trigger] r[i]).0 <= x <= r[i].1;
        assert(0 <= i < 18);
        if i < 6 {
            assert(i == 0 || i == 1 || i == 2 || i == 3 || i == 4 || i == 5);
        } else if i < 12 {
            assert(i == 6 || i == 7 || i == 8 || i == 9 || i == 10 || i == 11);
        } else {
            assert(i == 12 || i == 13 || i == 14 || i == 15 || i == 16 || i == 17);
        }
    }
}

/// A scan goes to an address exactly when a named range holds it, or none is named, and neither an
/// excluded block nor a block in an exclude file does, and it is not reserved, or reserved
/// addresses were asked for.
pub proof fn scan_reaches_what_was_asked(cfg: ScanConfig, files: Seq<ExcludeFile>, x: u32)
    requires
        job_spec(cfg, files) is Ok,
    ensures
        covers(job_spec(cfg, files)->Ok_0.windows, x) <==> {
            &&& cfg.ranges@.len() == 0 || in_blocks(cfg.ranges@, x)
            &&& !in_blocks(cfg.excludes@, x)
            &&& !in_files(files, x)
            &&& cfg.include_reserved || !is_reserved(x)
        },
{
    let includes = includes_spec(cfg.ranges@)->Ok_0;
    let extra = extra_spec(cfg.excludes@, files)->Ok_0;
    let named = named_excludes(cfg.excludes@)->Ok_0;
    let filed = filed_excludes(files)->Ok_0;
    space_windows_cover(includes, extra, !cfg.include_reserved);
    reserved_blocks_hold_the_reserved(x);
    lemma_named(cfg.excludes@, x);
    lemma_filed(files, x);
    merge_keeps_cover(named + filed);
    lemma_covers_concat(named, filed, x);
    assert(covers(extra, x) == (in_blocks(cfg.excludes@, x) || in_files(files, x)));
    if cfg.ranges@.len() == 0 {
        assert(includes[0] == (0u32, u32::MAX));
        assert(includes[0].0 <= x <= includes[0].1);
    } else {
        lemma_ranges(cfg.ranges@, x);
    }
    let ws = job_spec(cfg, files)->Ok_0.windows;
    assert(covers(ws, x) == wanted(includes, extra, !cfg.include_reserved, x));
}

proof fn lemma_first_word(word: Seq<char>, c: char, more: Seq<char>)
    requires
        word.len() > 0,
        forall|i: int| 0 <= i < word.len() ==> !is_white(#[trigger] word[i]),
        is_white(c),
    ensures
        nonempty_pieces(split_spec(word, Sep::White)) == seq![word],
        nonempty_pieces(split_spec(word.push(c) + more, Sep::White)).len() > 0,
        nonempty_pieces(split_spec(word.push(c) + more, Sep::White))[0] == word,
{
    assert forall|i: int| 0 <= i < word.len() implies !Sep::White.cuts(#[trigger] word[i]) by {}
    lemma_split_whole(word, Sep::White);
    lemma_split_at(word, c, more, Sep::White);
    let pred = |p: Seq<char>| p.len() > 0;
    let rest = split_spec(more, Sep::White);
    assert(seq![word].filter(pred) =~= seq![word]) by {
        reveal(Seq::filter);
        assert(seq![word].drop_last() =~= Seq::empty());
        assert(seq![word].drop_last().filter(pred) =~= Seq::empty());
        assert(pred(seq![word].last()));
    }
    Seq::filter_distributes_over_add(seq![word], rest, pred);
}

/// A line of an exclude file names the block that its first word does; what stands behind that
/// word, and white space around the line, does not count. A line without a word, and one that
/// begins with `#` or `;`, names none.
pub proof fn first_word_of_a_line_counts(
    a: Seq<char>,
    word: Seq<char>,
    c: char,
    more: Seq<char>,
    mark: char,
)
    requires
        forall|i: int| 0 <= i < a.len() ==> is_white(#[trigger] a[i]),
        word.len() > 0,
        forall|i: int| 0 <= i < word.len() ==> !is_white(#[trigger] word[i]),
        word[0] != '#' && word[0] != ';',
        is_white(c),
        more.len() > 0 ==> !is_white(more.last()),
        mark == '#' || mark == ';',
    ensures
        exclude_word(a + word) == Some(word),
        exclude_word(a + (word.push(c) + more)) == Some(word),
        exclude_word(a) is None,
        !is_white(word.last()) ==> exclude_word(a + (seq![mark] + word)) is None,
{
    let e = Seq::<char>::empty();
    assert(!is_white(word[0]) && !is_white(word[word.len() - 1]));
    space_around_is_trimmed(a, word, e);
    assert(a + word + e =~= a + word);
    lemma_first_word(word, c, more);
    if more.len() > 0 {
        let line = word.push(c) + more;
        assert(line[0] == word[0] && line.last() == more.last());
        space_around_is_trimmed(a, line, e);
        assert(a + line + e =~= a + line);
    } else {
        let w = seq![c];
        space_around_is_trimmed(a, word, w);
        assert(a + word + w =~= a + (word.push(c) + more));
    }
    space_around_is_trimmed(a, e, e);
    assert(a + e + e =~= a);
    let note = seq![mark] + word;
    assert(note[0] == mark && note.last() == word.last());
    space_around_is_trimmed(a, note, e);
    assert(a + note + e =~= a + note);
}

/// A job that was finished begins anew: from its first step, with another shuffle unless one was
/// asked for, and without its state file.
pub proof fn finished_job_starts_over(cfg: ConfigView, file: StateFile, c: Checkpoint, fresh_seed: u64)
    requires
        file matches StateFile::Text(text) && text@ == render_spec(c),
        !cfg.no_state && !cfg.fresh,
        cfg.skip == 0,
        cfg.seed is None || cfg.seed == Some(c.seed),
        c.index >= c.total,
    ensures
        ({
            let at = resume_spec(cfg, file, c.fingerprint, c.total, fresh_seed);
            &&& at.skip == 0 && !at.resumed && at.clear
            &&& at.seed == (match cfg.seed {
                Some(seed) => seed,
                None => fresh_seed,
            })
        }),
{
    render_reads_back(c);
}

/// Without a state file, or with one that is not to be used, a scan begins where it was asked to,
/// and a state file that cannot be read is not removed.
pub proof fn nothing_saved_starts_as_asked(
    cfg: ConfigView,
    file: StateFile,
    fingerprint: u64,
    total: u64,
    fresh_seed: u64,
)
    requires
        cfg.no_state || cfg.fresh || !(file is Text),
    ensures
        ({
            let at = resume_spec(cfg, file, fingerprint, total, fresh_seed);
            &&& at.skip == cfg.skip && !at.resumed
            &&& at.clear ==> cfg.fresh && !cfg.no_state
            &&& cfg.fresh && !cfg.no_state ==> at.clear
            &&& at.seed == (match cfg.seed {
                Some(seed) => seed,
                None => fresh_seed,
            })
        }),
{
}

/// How fast a scan goes: at the rate that was asked for, at least one packet a second; where none
/// was asked for, at 300000 a second, but 8000 where the range has fewer than two million
/// addresses; and by the bandwidth where a limit was set for that.
pub proof fn rate_goes_by_what_was_asked(cfg: ConfigView, addrs: u64)
    requires
        addrs > 0,
    ensures
        ({
            let (rate, capped) = rate_spec(cfg, addrs);
            &&& cfg.mbps == Mbps::Positive <==> rate == Rate::FromMbps
            &&& cfg.mbps != Mbps::Positive ==> match cfg.rate {
                Some(asked) => rate == Rate::Pps(if asked == 0 { 1 } else { asked }) && !capped,
                None => if cfg.mbps == Mbps::Unset && addrs < 2_000_000 {
                    rate == Rate::Pps(8_000) && capped
                } else {
                    rate == Rate::Pps(300_000) && !capped
                },
            }
            &&& cfg.mbps == Mbps::Positive ==> !capped
        }),
{
}

/// A scan that is prepared does the job that its settings describe, with the seed and from the
/// place that were settled, and counts the packets for every port of every address that is left.
pub proof fn prepared_scan_does_its_job(
    opts: RunOpts,
    cfg: ScanConfig,
    files: Seq<ExcludeFile>,
    at: ResumeView,
)
    requires
        job_spec(cfg, files) is Ok,
        runs_job(opts, cfg, job_spec(cfg, files)->Ok_0, at),
    ensures
        ({
            let job = job_spec(cfg, files)->Ok_0;
            let pkts = (job.total - at.skip) * opts.ports@.len();
            &&& opts.space@ == job.windows && opts.space.total == count(job.windows)
            &&& forall|p: u16| opts.ports@.contains(p) == cfg.ports@.contains(p)
            &&& forall|i: int, j: int|
                0 <= i < j < opts.ports@.len() ==> #[trigger] opts.ports@[i] < #[trigger] opts.ports@[j]
            &&& opts.seed == at.seed && opts.skip == at.skip && opts.resumed == at.resumed
            &&& opts.skip < opts.space.total
            &&& opts.fingerprint == job.fingerprint
            &&& opts.total_pkts == (if pkts > u64::MAX { u64::MAX as int } else { pkts })
            &&& opts.cfg == cfg
        }),
{
    let job = job_spec(cfg, files)->Ok_0;
    ports_can_be_ordered(cfg.ports@);
    assert(is_port_set(opts.ports@, cfg.ports@));
    assert(opts.space.total == count(opts.space@));
}

/// What becomes of the state file: it is left alone where it is not to be used, it goes when every
/// address has had its turn, and otherwise it tells the place, the shuffle and the job.
pub proof fn place_is_saved_until_the_end(opts: RunOpts, cursor: u64)
    ensures
        opts.cfg.no_state <==> finish_spec(opts, cursor) is NoState,
        !opts.cfg.no_state && cursor >= opts.space.total <==> finish_spec(opts, cursor) is Complete,
        finish_spec(opts, cursor) matches FinishView::Saved(c, _) ==> c.index == cursor && c.seed
            == opts.seed && c.total == opts.space.total && c.fingerprint == opts.fingerprint,
{
}

/// The lines of a list, one after the other: each line of it that says something is taken without
/// the white space around it; blank lines and comments are not.
pub proof fn lists_are_read_line_by_line(
    text: Seq<char>,
    more: Seq<char>,
    a: Seq<char>,
    entry: Seq<char>,
    b: Seq<char>,
)
    requires
        forall|i: int| 0 <= i < a.len() ==> is_white(#[trigger] a[i]) && a[i] != '\n',
        forall|i: int| 0 <= i < b.len() ==> is_white(#[trigger] b[i]) && b[i] != '\n',
        entry.len() > 0 ==> !is_white(entry[0]) && !is_white(entry.last()),
        forall|i: int| 0 <= i < entry.len() ==> #[trigger] entry[i] != '\n',
    ensures
        lines_spec(text.push('\n') + more) == lines_spec(text) + lines_spec(more),
        lines_spec(a + entry + b) == (if entry.len() > 0 && entry[0] != '#' {
            seq![entry]
        } else {
            Seq::empty()
        }),
{
    let nl = Sep::Char('\n');
    let trim = |l: Seq<char>| trim_spec(l);
    let pred = |l: Seq<char>| is_content(l);
    lemma_split_at(text, '\n', more, nl);
    let (p, q) = (split_spec(text, nl), split_spec(more, nl));
    assert((p + q).map_values(trim) =~= p.map_values(trim) + q.map_values(trim));
    Seq::filter_distributes_over_add(p.map_values(trim), q.map_values(trim), pred);
    let line = a + entry + b;
    assert forall|i: int| 0 <= i < line.len() implies !nl.cuts(#[trigger] line[i]) by {
        if i < a.len() {
            assert(line[i] == a[i]);
        } else if i < a.len() + entry.len() {
            assert(line[i] == entry[i - a.len()]);
        } else {
            assert(line[i] == b[i - a.len() - entry.len()]);
        }
    }
    lemma_split_whole(line, nl);
    space_around_is_trimmed(a, entry, b);
    let one = seq![line].map_values(trim);
    assert(one =~= seq![entry]);
    assert(one.filter(pred) =~= (if pred(entry) {
        seq![entry]
    } else {
        Seq::empty()
    })) by {
        reveal(Seq::filter);
        assert(one.drop_last() =~= Seq::empty());
        assert(one.drop_last().filter(pred) =~= Seq::empty());
    }
}

proof fn lemma_port_words_join(a: Seq<Seq<char>>, b: Seq<Seq<char>>)
    requires
        port_words(a) is Ok,
        port_words(b) is Ok,
    ensures
        port_words(a + b) == Ok::<Seq<u16>, PortsFault>(port_words(a)->Ok_0 + port_words(b)->Ok_0),
    decreases b.len(),
{
    if b.len() == 0 {
        assert(a + b =~= a);
        assert(port_words(a)->Ok_0 + port_words(b)->Ok_0 =~= port_words(a)->Ok_0);
    } else {
        assert((a + b).drop_last() =~= a + b.drop_last());
        lemma_port_words_join(a, b.drop_last());
        assert(port_words(a + b)->Ok_0 =~= port_words(a)->Ok_0 + port_words(b)->Ok_0);
    }
}

/// Ports are read one after the other, whichever of commas and white space stands between them, and
/// in the order in which they stand.
pub proof fn ports_are_read_one_by_one(a: Seq<char>, c: char, b: Seq<char>, p: u16)
    requires
        c == ',' || is_white(c),
        p != 0,
    ensures
        ports_spec(dec(p as nat)) == Ok::<Seq<u16>, PortsFault>(seq![p]),
        ports_spec(a) is Ok && ports_spec(b) is Ok ==> ports_spec(a.push(c) + b) == Ok::<
            Seq<u16>,
            PortsFault,
        >(ports_spec(a)->Ok_0 + ports_spec(b)->Ok_0),
        ports_spec(a) is Ok ==> ports_spec(a.push(c)) == ports_spec(a),
{
    let sep = Sep::CommaOrWhite;
    lemma_split_at(a, c, b, sep);
    if ports_spec(a) is Ok && ports_spec(b) is Ok {
        lemma_port_words_join(split_spec(a, sep), split_spec(b, sep));
    }
    let e = Seq::<char>::empty();
    lemma_split_at(a, c, e, sep);
    assert(a.push(c) + e =~= a.push(c));
    assert(split_spec(e, sep) =~= seq![e]);
    let pieces = split_spec(a, sep);
    assert((pieces + seq![e]).drop_last() =~= pieces);
    crate::web::port_list_reads_back(seq![p]);
    assert(comma_list(seq![p]) == dec(p as nat));
}

} // verus!
