//! Text as sequences of characters: trimming, splitting, searching, joining.

use vstd::prelude::*;
use vstd::slice::slice_subrange;
use vstd::string::*;
use vstd::utf8::{decode_utf8, valid_utf8};

verus! {

/// `String::push` adds the character at the end.
pub assume_specification[ String::push ](s: &mut String, c: char)
    ensures
        final(s)@ == old(s)@.push(c),
;

/// The text that replaces the ill-formed parts of `bytes` by U+FFFD.
pub uninterp spec fn lossy_text(bytes: Seq<u8>) -> Seq<char>;

/// The text that bytes stand for: what they encode when they are valid UTF-8, and otherwise a
/// text in which the ill-formed parts are replaced.
pub open spec fn lenient_text(bytes: Seq<u8>) -> Seq<char> {
    if valid_utf8(bytes) {
        decode_utf8(bytes)
    } else {
        lossy_text(bytes)
    }
}

/// `String::from_utf8_lossy`: bytes that are valid UTF-8 are decoded; of other bytes the result
/// is only named.
#[verifier::external_body]
pub(crate) fn from_utf8_lossy(bytes: &[u8]) -> (r: String)
    ensures
        r@ == lossy_text(bytes@),
        valid_utf8(bytes@) ==> r@ == decode_utf8(bytes@),
{
    String::from_utf8_lossy(bytes).into_owned()
}

/// `std::str::from_utf8`: the decoded text when the bytes are valid UTF-8, nothing otherwise.
#[verifier::external_body]
pub(crate) fn from_utf8(bytes: &[u8]) -> (r: Option<String>)
    ensures
        r matches Some(s) ==> valid_utf8(bytes@) && s@ == decode_utf8(bytes@),
        r is None ==> !valid_utf8(bytes@),
{
    match std::str::from_utf8(bytes) {
        Ok(s) => Some(s.to_string()),
        Err(_) => None,
    }
}

/// The characters of `s`.
pub fn to_chars(s: &str) -> (v: Vec<char>)
    ensures
        v@ == s@,
{
    let mut out: Vec<char> = Vec::new();
    for c in it: s.chars()
        invariant
            it.seq() == s@,
            out@ == s@.take(it.index()),
    {
        out.push(c);
    }
    out
}

/// The text made of `s`.
pub fn from_chars(s: &[char]) -> (r: String)
    ensures
        r@ == s@,
{
    let mut out: String = String::new();
    push_chars(&mut out, s);
    assert(out@ =~= s@);
    out
}

/// Appends `s` to `out`.
pub fn push_chars(out: &mut String, s: &[char])
    ensures
        final(out)@ == old(out)@ + s@,
{
    let ghost before = out@;
    let mut i: usize = 0;
    while i < s.len()
        invariant
            i <= s@.len(),
            out@ == before + s@.take(i as int),
        decreases s@.len() - i,
    {
        out.push(s[i]);
        i = i + 1;
    }
    assert(s@.take(i as int) =~= s@);
}

/// Whether `s` and `other` are the same text.
pub fn same_text(s: &[char], other: &str) -> (r: bool)
    ensures
        r == (s@ == other@),
{
    let o: Vec<char> = to_chars(other);
    same_chars(s, o.as_slice())
}

/// Whether `a` and `b` hold the same characters.
pub fn same_chars(a: &[char], b: &[char]) -> (r: bool)
    ensures
        r == (a@ == b@),
{
    if a.len() != b.len() {
        return false;
    }
    let mut i: usize = 0;
    while i < a.len()
        invariant
            i <= a@.len(),
            a@.len() == b@.len(),
            a@.take(i as int) == b@.take(i as int),
        decreases a@.len() - i,
    {
        if a[i] != b[i] {
            assert(a@[i as int] != b@[i as int]);
            return false;
        }
        i = i + 1;
        assert(a@.take(i as int) =~= a@.take(i - 1).push(a@[i - 1]));
        assert(b@.take(i as int) =~= b@.take(i - 1).push(b@[i - 1]));
    }
    assert(a@.take(i as int) =~= a@);
    assert(b@.take(i as int) =~= b@);
    true
}

/// The characters with Unicode's White_Space property.
pub open spec fn is_white(c: char) -> bool {
    ||| '\u{9}' <= c <= '\u{d}'
    ||| c == ' '
    ||| c == '\u{85}'
    ||| c == '\u{a0}'
    ||| c == '\u{1680}'
    ||| '\u{2000}' <= c <= '\u{200a}'
    ||| c == '\u{2028}'
    ||| c == '\u{2029}'
    ||| c == '\u{202f}'
    ||| c == '\u{205f}'
    ||| c == '\u{3000}'
}

pub fn is_whitespace(c: char) -> (r: bool)
    ensures
        r == is_white(c),
{
    ('\u{9}' <= c && c <= '\u{d}') || c == ' ' || c == '\u{85}' || c == '\u{a0}' || c == '\u{1680}' || (
    '\u{2000}' <= c && c <= '\u{200a}') || c == '\u{2028}' || c == '\u{2029}' || c == '\u{202f}' || c
        == '\u{205f}' || c == '\u{3000}'
}

/// `s` without the white space it begins with.
pub open spec fn trim_start_spec(s: Seq<char>) -> Seq<char>
    decreases s.len(),
{
    if s.len() > 0 && is_white(s[0]) {
        trim_start_spec(s.skip(1))
    } else {
        s
    }
}

/// `s` without the white space it ends with.
pub open spec fn trim_end_spec(s: Seq<char>) -> Seq<char>
    decreases s.len(),
{
    if s.len() > 0 && is_white(s.last()) {
        trim_end_spec(s.drop_last())
    } else {
        s
    }
}

/// `s` without the white space around it.
pub open spec fn trim_spec(s: Seq<char>) -> Seq<char> {
    trim_end_spec(trim_start_spec(s))
}

/// `s` without the white space around it.
pub fn trim<'a>(s: &'a [char]) -> (r: &'a [char])
    ensures
        r@ == trim_spec(s@),
{
    let mut i: usize = 0;
    assert(s@.skip(0) =~= s@);
    while i < s.len() && is_whitespace(s[i])
        invariant
            i <= s@.len(),
            trim_start_spec(s@) == trim_start_spec(s@.skip(i as int)),
        decreases s@.len() - i,
    {
        assert(s@.skip(i as int).skip(1) =~= s@.skip(i + 1));
        i = i + 1;
    }
    let ghost front = s@.skip(i as int);
    let mut j: usize = s.len();
    assert(s@.subrange(i as int, j as int) =~= front);
    while j > i && is_whitespace(s[j - 1])
        invariant
            i <= j <= s@.len(),
            trim_end_spec(front) == trim_end_spec(s@.subrange(i as int, j as int)),
        decreases j,
    {
        assert(s@.subrange(i as int, j as int).drop_last() =~= s@.subrange(i as int, j - 1));
        j = j - 1;
    }
    slice_subrange(s, i, j)
}

/// A text that has no white space at its ends is not trimmed.
pub proof fn lemma_trim_keeps(s: Seq<char>)
    requires
        s.len() > 0,
        !is_white(s[0]),
        !is_white(s.last()),
    ensures
        trim_spec(s) == s,
{
    assert(trim_start_spec(s) == s);
    assert(trim_end_spec(s) == s);
}

/// What separates the pieces of a text.
#[derive(Clone, Copy, PartialEq, Eq, Structural)]
pub enum Sep {
    /// One character.
    Char(char),
    /// Any white space.
    White,
    /// A comma or any white space.
    CommaOrWhite,
}

impl Sep {
    /// Whether `c` separates two pieces.
    pub open spec fn cuts(self, c: char) -> bool {
        match self {
            Sep::Char(x) => c == x,
            Sep::White => is_white(c),
            Sep::CommaOrWhite => c == ',' || is_white(c),
        }
    }

    fn cuts_at(self, c: char) -> (r: bool)
        ensures
            r == self.cuts(c),
    {
        match self {
            Sep::Char(x) => c == x,
            Sep::White => is_whitespace(c),
            Sep::CommaOrWhite => c == ',' || is_whitespace(c),
        }
    }
}

/// The pieces of `s` between its separators: one more than there are separators.
pub open spec fn split_spec(s: Seq<char>, sep: Sep) -> Seq<Seq<char>>
    decreases s.len(),
{
    if s.len() == 0 {
        seq![Seq::<char>::empty()]
    } else {
        let front = split_spec(s.drop_last(), sep);
        if sep.cuts(s.last()) {
            front.push(Seq::empty())
        } else {
            front.drop_last().push(front.last().push(s.last()))
        }
    }
}

/// The characters that each slice holds.
pub open spec fn views(v: Seq<&[char]>) -> Seq<Seq<char>> {
    Seq::new(v.len(), |i: int| v[i]@)
}

/// The characters that each string holds.
pub open spec fn texts(v: Seq<String>) -> Seq<Seq<char>> {
    Seq::new(v.len(), |i: int| v[i]@)
}

pub proof fn lemma_split_nonempty(s: Seq<char>, sep: Sep)
    ensures
        split_spec(s, sep).len() > 0,
    decreases s.len(),
{
    if s.len() > 0 {
        lemma_split_nonempty(s.drop_last(), sep);
    }
}

/// The pieces of `s` between its separators.
pub fn split<'a>(s: &'a [char], sep: Sep) -> (out: Vec<&'a [char]>)
    ensures
        views(out@) == split_spec(s@, sep),
{
    let mut out: Vec<&'a [char]> = Vec::new();
    let mut start: usize = 0;
    let mut i: usize = 0;
    assert(s@.take(0) =~= Seq::empty());
    assert(views(out@).push(s@.subrange(0, 0)) =~= split_spec(s@.take(0), sep));
    while i < s.len()
        invariant
            start <= i <= s@.len(),
            views(out@).push(s@.subrange(start as int, i as int)) == split_spec(s@.take(i as int), sep),
        decreases s@.len() - i,
    {
        let ghost piece = s@.subrange(start as int, i as int);
        let ghost before = views(out@);
        let ghost next = s@.take(i + 1);
        assert(next.drop_last() =~= s@.take(i as int));
        assert(next.last() == s@[i as int]);
        if sep.cuts_at(s[i]) {
            out.push(slice_subrange(s, start, i));
            start = i + 1;
            assert(views(out@) =~= before.push(piece));
            assert(s@.subrange(start as int, i + 1) =~= Seq::empty());
        } else {
            assert(before.push(piece).drop_last() =~= before);
            assert(s@.subrange(start as int, i + 1) =~= piece.push(s@[i as int]));
        }
        i = i + 1;
    }
    assert(s@.take(i as int) =~= s@);
    let ghost before = views(out@);
    out.push(slice_subrange(s, start, i));
    assert(views(out@) =~= before.push(s@.subrange(start as int, i as int)));
    out
}

/// A text without separators is one piece.
pub proof fn lemma_split_whole(s: Seq<char>, sep: Sep)
    requires
        forall|i: int| 0 <= i < s.len() ==> !sep.cuts(#[trigger] s[i]),
    ensures
        split_spec(s, sep) == seq![s],
    decreases s.len(),
{
    if s.len() > 0 {
        assert forall|i: int| 0 <= i < s.len() - 1 implies !sep.cuts(#[trigger] s.drop_last()[i]) by {
            assert(s.drop_last()[i] == s[i]);
        }
        lemma_split_whole(s.drop_last(), sep);
        assert(!sep.cuts(s[s.len() - 1]));
        assert(s =~= s.drop_last().push(s.last()));
        assert(seq![s.drop_last()].drop_last().push(s) =~= seq![s]);
    } else {
        assert(s =~= Seq::empty());
    }
}

/// A separator between two texts separates their pieces.
pub proof fn lemma_split_at(a: Seq<char>, c: char, b: Seq<char>, sep: Sep)
    requires
        sep.cuts(c),
    ensures
        split_spec(a.push(c) + b, sep) == split_spec(a, sep) + split_spec(b, sep),
    decreases b.len(),
{
    let whole = a.push(c) + b;
    lemma_split_nonempty(b, sep);
    if b.len() == 0 {
        assert(whole =~= a.push(c));
        assert(whole.drop_last() =~= a);
        assert(split_spec(a, sep).push(Seq::empty()) =~= split_spec(a, sep) + split_spec(b, sep));
    } else {
        lemma_split_at(a, c, b.drop_last(), sep);
        lemma_split_nonempty(b.drop_last(), sep);
        assert(whole.drop_last() =~= a.push(c) + b.drop_last());
        assert(whole.last() == b.last());
        assert(split_spec(whole, sep) =~= split_spec(a, sep) + split_spec(b, sep));
    }
}

/// The pieces that hold something.
pub open spec fn nonempty_pieces(pieces: Seq<Seq<char>>) -> Seq<Seq<char>> {
    pieces.filter(|p: Seq<char>| p.len() > 0)
}

/// The words of `s`: the pieces between white space that hold something.
pub fn split_whitespace<'a>(s: &'a [char]) -> (out: Vec<&'a [char]>)
    ensures
        views(out@) == nonempty_pieces(split_spec(s@, Sep::White)),
{
    let pieces: Vec<&'a [char]> = split(s, Sep::White);
    let mut out: Vec<&'a [char]> = Vec::new();
    let mut i: usize = 0;
    let ghost pred = |p: Seq<char>| p.len() > 0;
    let ghost all = views(pieces@);
    assert(all.take(0).filter(pred) =~= Seq::empty()) by {
        reveal(Seq::filter);
    }
    while i < pieces.len()
        invariant
            i <= pieces@.len(),
            all == views(pieces@),
            pred == (|p: Seq<char>| p.len() > 0),
            views(out@) == all.take(i as int).filter(pred),
        decreases pieces@.len() - i,
    {
        let ghost before = views(out@);
        proof {
            reveal(Seq::filter);
            assert(all.take(i + 1).drop_last() =~= all.take(i as int));
        }
        if pieces[i].len() > 0 {
            out.push(pieces[i]);
            assert(views(out@) =~= before.push(all[i as int]));
        }
        i = i + 1;
    }
    assert(all.take(i as int) =~= all);
    out
}

/// Where `c` first stands in `s`, or the length of `s`.
pub open spec fn position_spec(s: Seq<char>, c: char) -> int
    decreases s.len(),
{
    if s.len() == 0 || s[0] == c {
        0
    } else {
        1 + position_spec(s.skip(1), c)
    }
}

/// What stands before and after the first `c` of `s`, if there is one.
pub open spec fn split_once_spec(s: Seq<char>, c: char) -> Option<(Seq<char>, Seq<char>)> {
    let p = position_spec(s, c);
    if p < s.len() {
        Some((s.take(p), s.skip(p + 1)))
    } else {
        None
    }
}

pub proof fn lemma_position(s: Seq<char>, c: char)
    ensures
        0 <= position_spec(s, c) <= s.len(),
        position_spec(s, c) < s.len() ==> s[position_spec(s, c)] == c,
        forall|i: int| 0 <= i < position_spec(s, c) ==> s[i] != c,
    decreases s.len(),
{
    if s.len() > 0 && s[0] != c {
        lemma_position(s.skip(1), c);
        assert forall|i: int| 0 <= i < position_spec(s, c) implies s[i] != c by {
            if i > 0 {
                assert(s.skip(1)[i - 1] == s[i]);
            }
        }
    }
}

/// The only place that has `c` and nothing but other characters before it is the first one.
pub proof fn lemma_position_is(s: Seq<char>, c: char, p: int)
    requires
        0 <= p <= s.len(),
        p < s.len() ==> s[p] == c,
        forall|i: int| 0 <= i < p ==> s[i] != c,
    ensures
        position_spec(s, c) == p,
{
    lemma_position(s, c);
    let q = position_spec(s, c);
    if q < p {
        assert(s[q] == c);
    }
    if p < q {
        assert(s[p] != c);
    }
}

fn position(s: &[char], c: char) -> (p: usize)
    ensures
        p == position_spec(s@, c),
        p <= s@.len(),
{
    let mut i: usize = 0;
    while i < s.len() && s[i] != c
        invariant
            i <= s@.len(),
            forall|j: int| 0 <= j < i ==> s@[j] != c,
        decreases s@.len() - i,
    {
        i = i + 1;
    }
    proof {
        lemma_position_is(s@, c, i as int);
    }
    i
}

/// What stands before and after the first `c` of `s`, if there is one.
pub fn split_once<'a>(s: &'a [char], c: char) -> (r: Option<(&'a [char], &'a [char])>)
    ensures
        match r {
            Some((k, v)) => split_once_spec(s@, c) == Some((k@, v@)),
            None => split_once_spec(s@, c) is None,
        },
{
    let p: usize = position(s, c);
    if p < s.len() {
        assert(s@.subrange(0, p as int) =~= s@.take(p as int));
        assert(s@.subrange(p + 1, s@.len() as int) =~= s@.skip(p + 1));
        Some((slice_subrange(s, 0, p), slice_subrange(s, p + 1, s.len())))
    } else {
        None
    }
}

/// Whether `s` begins with `c`.
pub fn starts_with(s: &[char], c: char) -> (r: bool)
    ensures
        r == (s@.len() > 0 && s@[0] == c),
{
    s.len() > 0 && s[0] == c
}

/// `sub` stands in `s` at `i`.
pub open spec fn text_at(s: Seq<char>, sub: Seq<char>, i: int) -> bool {
    i + sub.len() <= s.len() && s.subrange(i, i + sub.len()) == sub
}

/// Where `sub` first stands in `s` at or after `i`.
pub open spec fn find_text_from(s: Seq<char>, sub: Seq<char>, i: nat) -> Option<nat>
    decreases s.len() - i,
{
    if i + sub.len() > s.len() {
        None
    } else if text_at(s, sub, i as int) {
        Some(i)
    } else if i < s.len() {
        find_text_from(s, sub, i + 1)
    } else {
        None
    }
}

/// Where `sub` first stands in `s`.
pub open spec fn find_text_spec(s: Seq<char>, sub: Seq<char>) -> Option<nat> {
    find_text_from(s, sub, 0)
}

/// The place that is found is the first one, and when none is found there is none.
pub proof fn text_is_found_first(s: Seq<char>, sub: Seq<char>, i: nat)
    ensures
        match find_text_from(s, sub, i) {
            Some(p) => i <= p && text_at(s, sub, p as int) && forall|j: int|
                i <= j < p ==> !text_at(s, sub, j),
            None => forall|j: int| i <= j ==> !text_at(s, sub, j),
        },
    decreases s.len() - i,
{
    if i + sub.len() <= s.len() && !text_at(s, sub, i as int) && i < s.len() {
        text_is_found_first(s, sub, i + 1);
    }
}

/// Where `sub` first stands in `s`.
pub fn find_text(s: &[char], sub: &[char]) -> (r: Option<usize>)
    ensures
        match r {
            Some(p) => find_text_spec(s@, sub@) == Some(p as nat) && p + sub@.len() <= s@.len(),
            None => find_text_spec(s@, sub@) is None,
        },
{
    let size: usize = s.len();
    if sub.len() > size {
        return None;
    }
    let last: usize = size - sub.len();
    let mut i: usize = 0;
    loop
        invariant
            size == s@.len(),
            last + sub@.len() == s@.len(),
            i <= last,
            find_text_from(s@, sub@, i as nat) == find_text_spec(s@, sub@),
        decreases last - i,
    {
        if same_chars(slice_subrange(s, i, i + sub.len()), sub) {
            return Some(i);
        }
        if i == last {
            assert(find_text_from(s@, sub@, (i + 1) as nat) is None);
            return None;
        }
        i = i + 1;
    }
}

/// `c` as a small letter where it is a capital letter of the English alphabet.
pub open spec fn lower_char(c: char) -> char {
    if 'A' <= c <= 'Z' {
        (c as int + 32) as char
    } else {
        c
    }
}

/// `s` with small letters in place of the capital letters of the English alphabet.
pub open spec fn lower_spec(s: Seq<char>) -> Seq<char> {
    s.map_values(|c: char| lower_char(c))
}

/// `s` with small letters in place of the capital letters of the English alphabet.
pub fn to_ascii_lowercase(s: &[char]) -> (out: Vec<char>)
    ensures
        out@ == lower_spec(s@),
{
    let mut out: Vec<char> = Vec::new();
    let mut i: usize = 0;
    while i < s.len()
        invariant
            i <= s@.len(),
            out@ == lower_spec(s@.take(i as int)),
        decreases s@.len() - i,
    {
        let c: char = s[i];
        if 'A' <= c && c <= 'Z' {
            out.push(((c as u8) + 32) as char);
        } else {
            out.push(c);
        }
        i = i + 1;
        assert(out@ =~= lower_spec(s@.take(i as int)));
    }
    assert(s@.take(i as int) =~= s@);
    out
}

/// Where a carriage return and a line feed first stand in `s`, or the length of `s`.
pub open spec fn crlf_position(s: Seq<char>) -> int
    decreases s.len(),
{
    if s.len() < 2 {
        s.len() as int
    } else if s[0] == '\r' && s[1] == '\n' {
        0
    } else {
        1 + crlf_position(s.skip(1))
    }
}

proof fn lemma_crlf_position(s: Seq<char>)
    ensures
        0 <= crlf_position(s) <= s.len(),
        crlf_position(s) < s.len() ==> crlf_position(s) + 2 <= s.len(),
    decreases s.len(),
{
    if s.len() >= 2 && !(s[0] == '\r' && s[1] == '\n') {
        lemma_crlf_position(s.skip(1));
    }
}

/// The lines of `s`; a carriage return and a line feed stand between them.
pub open spec fn crlf_lines(s: Seq<char>) -> Seq<Seq<char>>
    decreases s.len(),
{
    let p = crlf_position(s);
    if 0 <= p && p + 2 <= s.len() {
        seq![s.take(p)] + crlf_lines(s.skip(p + 2))
    } else {
        seq![s]
    }
}

fn position_of_crlf(s: &[char], from: usize) -> (p: usize)
    requires
        from <= s@.len(),
    ensures
        p == from + crlf_position(s@.skip(from as int)),
        from <= p <= s@.len(),
        p < s@.len() ==> p + 2 <= s@.len(),
{
    let size: usize = s.len();
    let mut i: usize = from;
    assert(from + crlf_position(s@.skip(from as int)) == i + crlf_position(s@.skip(i as int)));
    while i < size
        invariant
            from <= i <= size,
            size == s@.len(),
            from + crlf_position(s@.skip(from as int)) == i + crlf_position(s@.skip(i as int)),
        decreases size - i,
    {
        let ghost rest = s@.skip(i as int);
        if size - i < 2 {
            return size;
        }
        if s[i] == '\r' && s[i + 1] == '\n' {
            assert(rest[0] == '\r' && rest[1] == '\n');
            return i;
        }
        assert(rest[0] == s@[i as int] && rest[1] == s@[i + 1]);
        assert(rest.skip(1) =~= s@.skip(i + 1));
        i = i + 1;
    }
    i
}

/// The lines of `s`; a carriage return and a line feed stand between them.
pub fn split_crlf<'a>(s: &'a [char]) -> (out: Vec<&'a [char]>)
    ensures
        views(out@) == crlf_lines(s@),
        out@.len() > 0,
{
    let size: usize = s.len();
    let mut out: Vec<&'a [char]> = Vec::new();
    let mut start: usize = 0;
    assert(s@.skip(0) =~= s@);
    assert(views(out@) + crlf_lines(s@) =~= crlf_lines(s@));
    loop
        invariant
            start <= size,
            size == s@.len(),
            views(out@) + crlf_lines(s@.skip(start as int)) == crlf_lines(s@),
        decreases size - start,
    {
        let ghost rest = s@.skip(start as int);
        let ghost before = views(out@);
        let end: usize = position_of_crlf(s, start);
        let line: &'a [char] = slice_subrange(s, start, end);
        out.push(line);
        assert(views(out@) =~= before.push(line@));
        assert(line@ =~= rest.take(end - start));
        if end == size {
            assert(line@ =~= rest);
            assert(views(out@) =~= before + seq![rest]);
            return out;
        }
        assert(rest.skip(end - start + 2) =~= s@.skip(end + 2));
        start = end + 2;
        assert(views(out@) + crlf_lines(s@.skip(start as int)) =~= before + (seq![line@]
            + crlf_lines(s@.skip(start as int))));
    }
}

/// `parts` with `sep` between them.
pub open spec fn join_spec(parts: Seq<Seq<char>>, sep: Seq<char>) -> Seq<char>
    decreases parts.len(),
{
    if parts.len() == 0 {
        Seq::empty()
    } else if parts.len() == 1 {
        parts[0]
    } else {
        join_spec(parts.drop_last(), sep) + sep + parts.last()
    }
}

/// `parts` with `sep` between them.
pub fn join(parts: &[String], sep: &str) -> (out: String)
    ensures
        out@ == join_spec(texts(parts@), sep@),
{
    let ghost all = texts(parts@);
    let mut out: String = String::new();
    let mut i: usize = 0;
    assert(out@ =~= join_spec(all.take(0), sep@));
    while i < parts.len()
        invariant
            i <= parts@.len(),
            all == texts(parts@),
            out@ == join_spec(all.take(i as int), sep@),
        decreases parts@.len() - i,
    {
        assert(all.take(i + 1).drop_last() =~= all.take(i as int));
        if i > 0 {
            out.append(sep);
        }
        out.append(parts[i].as_str());
        i = i + 1;
        assert(out@ =~= join_spec(all.take(i as int), sep@));
    }
    assert(all.take(i as int) =~= all);
    out
}

} // verus!
