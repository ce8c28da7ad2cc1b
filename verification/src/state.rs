//! The scan cursor that is kept on disk, so that an interrupted scan can go on with the same
//! shuffle.

use vstd::prelude::*;
use vstd::string::*;

use crate::num::{
    bare_sign, dec, digit_spec, hex_digits, lemma_dec_digits, lemma_dec_reads_back,
    lemma_hex_reads_back, parse_unsigned, pow16, push_dec, push_hex, unsigned_spec, IntError,
};
use crate::text::{
    is_white, lemma_position_is, lemma_split_at, lemma_split_whole, lemma_trim_keeps, same_text,
    split, split_once, split_once_spec, split_spec, starts_with, to_chars, trim, trim_spec, views,
    Sep,
};

verus! {

/// How far a scan has come, and which scan it is.
#[derive(Clone, Copy, Debug, PartialEq, Eq, Structural)]
pub struct Checkpoint {
    pub seed: u64,
    pub index: u64,
    pub total: u64,
    pub fingerprint: u64,
}

/// Why a text is no checkpoint.
#[derive(Clone, Copy, Debug, PartialEq, Eq, Structural)]
pub enum StateError {
    /// A number cannot be read.
    Number(IntError),
    /// An entry is missing.
    Incomplete,
}

impl StateError {
    pub open spec fn message_spec(self) -> Seq<char> {
        match self {
            StateError::Number(e) => e.message_spec(),
            StateError::Incomplete => "incomplete state file"@,
        }
    }

    /// What to tell the user.
    pub fn message(self) -> (r: &'static str)
        ensures
            r@ == self.message_spec(),
    {
        match self {
            StateError::Number(e) => e.message(),
            StateError::Incomplete => "incomplete state file",
        }
    }
}

/// An entry of a state file.
pub open spec fn entry(key: Seq<char>, value: Seq<char>) -> Seq<char> {
    key.push('=') + value
}

/// The text of a state file: one entry per line, the fingerprint in 16 hexadecimal digits.
pub open spec fn render_spec(c: Checkpoint) -> Seq<char> {
    entry("v"@, "1"@).push('\n') + entry("seed"@, dec(c.seed as nat)).push('\n') + entry(
        "index"@,
        dec(c.index as nat),
    ).push('\n') + entry("total"@, dec(c.total as nat)).push('\n') + entry(
        "fp"@,
        hex_digits(c.fingerprint as nat, 16),
    ).push('\n')
}

fn push_number(out: &mut String, key: &str, n: u64)
    ensures
        final(out)@ == old(out)@ + entry(key@, dec(n as nat)).push('\n'),
{
    out.append(key);
    out.push('=');
    push_dec(out, n);
    out.push('\n');
    assert(out@ =~= old(out)@ + entry(key@, dec(n as nat)).push('\n'));
}

/// The text of a state file.
pub fn render(c: &Checkpoint) -> (out: String)
    ensures
        out@ == render_spec(*c),
{
    let mut out: String = String::new();
    out.append("v");
    out.push('=');
    out.append("1");
    out.push('\n');
    assert(out@ =~= entry("v"@, "1"@).push('\n'));
    push_number(&mut out, "seed", c.seed);
    push_number(&mut out, "index", c.index);
    push_number(&mut out, "total", c.total);
    let ghost before = out@;
    out.append("fp");
    out.push('=');
    push_hex(&mut out, c.fingerprint, 16);
    out.push('\n');
    assert(out@ =~= before + entry("fp"@, hex_digits(c.fingerprint as nat, 16)).push('\n'));
    out
}

/// The name under which a state file is written before it takes its place.
pub fn tmp_path(path: &str) -> (r: String)
    ensures
        r@ == path@ + ".tmp"@,
{
    let mut out: String = path.to_string();
    out.append(".tmp");
    out
}

/// The entries that were read so far.
#[derive(Clone, Copy, Debug, PartialEq, Eq, Structural)]
pub struct Entries {
    pub seed: Option<u64>,
    pub index: Option<u64>,
    pub total: Option<u64>,
    pub fingerprint: Option<u64>,
}

/// `e` with what one line adds to it. Blank lines, comments, lines without `=` and unknown keys
/// add nothing; a later entry replaces an earlier one.
pub open spec fn with_line(e: Entries, line: Seq<char>) -> Result<Entries, StateError> {
    let t = trim_spec(line);
    if t.len() == 0 || t[0] == '#' {
        Ok(e)
    } else {
        match split_once_spec(t, '=') {
            None => Ok(e),
            Some((k, v)) => if k == "seed"@ {
                match unsigned_spec(v, 10, u64::MAX as nat) {
                    Ok(n) => Ok(Entries { seed: Some(n as u64), ..e }),
                    Err(x) => Err(StateError::Number(x)),
                }
            } else if k == "index"@ {
                match unsigned_spec(v, 10, u64::MAX as nat) {
                    Ok(n) => Ok(Entries { index: Some(n as u64), ..e }),
                    Err(x) => Err(StateError::Number(x)),
                }
            } else if k == "total"@ {
                match unsigned_spec(v, 10, u64::MAX as nat) {
                    Ok(n) => Ok(Entries { total: Some(n as u64), ..e }),
                    Err(x) => Err(StateError::Number(x)),
                }
            } else if k == "fp"@ {
                match unsigned_spec(trim_spec(v), 16, u64::MAX as nat) {
                    Ok(n) => Ok(Entries { fingerprint: Some(n as u64), ..e }),
                    Err(x) => Err(StateError::Number(x)),
                }
            } else {
                Ok(e)
            },
        }
    }
}

/// What the lines hold, or the first error among them.
pub open spec fn entries_spec(lines: Seq<Seq<char>>) -> Result<Entries, StateError>
    decreases lines.len(),
{
    if lines.len() == 0 {
        Ok(Entries { seed: None, index: None, total: None, fingerprint: None })
    } else {
        match entries_spec(lines.drop_last()) {
            Ok(e) => with_line(e, lines.last()),
            Err(x) => Err(x),
        }
    }
}

/// The checkpoint that a text holds; all four entries are needed.
pub open spec fn parse_spec(text: Seq<char>) -> Result<Checkpoint, StateError> {
    match entries_spec(split_spec(text, Sep::Char('\n'))) {
        Ok(
            Entries {
                seed: Some(seed),
                index: Some(index),
                total: Some(total),
                fingerprint: Some(fingerprint),
            },
        ) => Ok(Checkpoint { seed, index, total, fingerprint }),
        Ok(_) => Err(StateError::Incomplete),
        Err(x) => Err(x),
    }
}

proof fn lemma_entries_prefix_err(lines: Seq<Seq<char>>, n: int)
    requires
        0 <= n <= lines.len(),
        entries_spec(lines.take(n)) is Err,
    ensures
        entries_spec(lines) == entries_spec(lines.take(n)),
    decreases lines.len(),
{
    if n < lines.len() {
        assert(lines.drop_last().take(n) =~= lines.take(n));
        lemma_entries_prefix_err(lines.drop_last(), n);
    } else {
        assert(lines.take(n) =~= lines);
    }
}

fn add_line(e: Entries, raw: &[char]) -> (r: Result<Entries, StateError>)
    ensures
        r == with_line(e, raw@),
{
    let line: &[char] = trim(raw);
    if line.len() == 0 || starts_with(line, '#') {
        return Ok(e);
    }
    let Some((k, v)) = split_once(line, '=') else {
        return Ok(e);
    };
    if same_text(k, "seed") {
        match parse_unsigned(v, 10, u64::MAX) {
            Ok(n) => Ok(Entries { seed: Some(n), ..e }),
            Err(x) => Err(StateError::Number(x)),
        }
    } else if same_text(k, "index") {
        match parse_unsigned(v, 10, u64::MAX) {
            Ok(n) => Ok(Entries { index: Some(n), ..e }),
            Err(x) => Err(StateError::Number(x)),
        }
    } else if same_text(k, "total") {
        match parse_unsigned(v, 10, u64::MAX) {
            Ok(n) => Ok(Entries { total: Some(n), ..e }),
            Err(x) => Err(StateError::Number(x)),
        }
    } else if same_text(k, "fp") {
        match parse_unsigned(trim(v), 16, u64::MAX) {
            Ok(n) => Ok(Entries { fingerprint: Some(n), ..e }),
            Err(x) => Err(StateError::Number(x)),
        }
    } else {
        Ok(e)
    }
}

/// The checkpoint that a text holds.
pub fn parse(text: &str) -> (r: Result<Checkpoint, StateError>)
    ensures
        r == parse_spec(text@),
{
    let chars: Vec<char> = to_chars(text);
    let lines: Vec<&[char]> = split(chars.as_slice(), Sep::Char('\n'));
    let ghost all = views(lines@);
    let mut e: Entries = Entries { seed: None, index: None, total: None, fingerprint: None };
    let mut i: usize = 0;
    while i < lines.len()
        invariant
            i <= lines@.len(),
            all == views(lines@),
            all == split_spec(text@, Sep::Char('\n')),
            entries_spec(all.take(i as int)) == Ok::<Entries, StateError>(e),
        decreases lines@.len() - i,
    {
        assert(all.take(i + 1).drop_last() =~= all.take(i as int));
        assert(all.take(i + 1).last() == lines@[i as int]@);
        match add_line(e, lines[i]) {
            Ok(next) => {
                e = next;
            },
            Err(x) => {
                proof {
                    lemma_entries_prefix_err(all, i + 1);
                }
                return Err(x);
            },
        }
        i = i + 1;
    }
    assert(all.take(i as int) =~= all);
    match (e.seed, e.index, e.total, e.fingerprint) {
        (Some(seed), Some(index), Some(total), Some(fingerprint)) => Ok(
            Checkpoint { seed, index, total, fingerprint },
        ),
        _ => Err(StateError::Incomplete),
    }
}

/// A character that stands inside an entry.
pub open spec fn is_plain(c: char) -> bool {
    !is_white(c) && c != '\n' && c != '=' && c != '#'
}

pub open spec fn all_plain(s: Seq<char>) -> bool {
    forall|i: int| 0 <= i < s.len() ==> is_plain(#[trigger] s[i])
}

/// A line that holds one entry gives back its key and its value, and is one line.
proof fn lemma_entry_line(key: Seq<char>, value: Seq<char>)
    requires
        key.len() > 0,
        value.len() > 0,
        all_plain(key),
        all_plain(value),
    ensures
        trim_spec(entry(key, value)) == entry(key, value),
        entry(key, value)[0] != '#',
        split_once_spec(entry(key, value), '=') == Some((key, value)),
        split_spec(entry(key, value), Sep::Char('\n')) == seq![entry(key, value)],
{
    let line = entry(key, value);
    assert(line[0] == key[0]);
    assert(line.last() == value[value.len() - 1]);
    lemma_trim_keeps(line);
    assert forall|i: int| 0 <= i < key.len() implies line[i] != '=' by {
        assert(line[i] == key[i]);
    }
    assert(line[key.len() as int] == '=');
    lemma_position_is(line, '=', key.len() as int);
    assert(line.take(key.len() as int) =~= key);
    assert(line.skip((key.len() + 1) as int) =~= value);
    assert forall|i: int| 0 <= i < line.len() implies !Sep::Char('\n').cuts(#[trigger] line[i]) by {
        if i < key.len() {
            assert(line[i] == key[i]);
        } else if i > key.len() {
            assert(line[i] == value[i - key.len() - 1]);
        }
    }
    lemma_split_whole(line, Sep::Char('\n'));
}

proof fn lemma_dec_plain(n: nat)
    ensures
        all_plain(dec(n)),
        dec(n).len() > 0,
{
    lemma_dec_digits(n);
    assert forall|i: int| 0 <= i < dec(n).len() implies is_plain(#[trigger] dec(n)[i]) by {}
}

proof fn lemma_hex_plain(n: u64)
    ensures
        all_plain(hex_digits(n as nat, 16)),
        hex_digits(n as nat, 16).len() == 16,
        unsigned_spec(trim_spec(hex_digits(n as nat, 16)), 16, u64::MAX as nat) == Ok::<
            nat,
            IntError,
        >(n as nat),
{
    let h = hex_digits(n as nat, 16);
    assert(pow16(16) == 0x1_0000_0000_0000_0000nat) by {
        reveal_with_fuel(pow16, 17);
    }
    lemma_hex_reads_back(n as nat, 16, u64::MAX as nat);
    assert forall|i: int| 0 <= i < h.len() implies is_plain(#[trigger] h[i]) && h[i] != '+' by {
        assert(digit_spec(h[i], 16) is Some);
    }
    assert(h[0] != '+' && is_plain(h[0]) && is_plain(h[15]));
    lemma_trim_keeps(h);
    assert(!bare_sign(h));
}

proof fn lemma_keys()
    ensures
        all_plain("v"@) && all_plain("1"@) && all_plain("seed"@) && all_plain("index"@)
            && all_plain("total"@) && all_plain("fp"@),
        "v"@.len() == 1 && "1"@.len() == 1 && "seed"@.len() == 4 && "index"@.len() == 5
            && "total"@.len() == 5 && "fp"@.len() == 2,
        "index"@ != "total"@,
{
    reveal_strlit("v");
    reveal_strlit("1");
    reveal_strlit("seed");
    reveal_strlit("index");
    reveal_strlit("total");
    reveal_strlit("fp");
    assert("index"@[0] != "total"@[0]);
}

proof fn lemma_lines_of(c: Checkpoint)
    ensures
        split_spec(render_spec(c), Sep::Char('\n')) == seq![
            entry("v"@, "1"@),
            entry("seed"@, dec(c.seed as nat)),
            entry("index"@, dec(c.index as nat)),
            entry("total"@, dec(c.total as nat)),
            entry("fp"@, hex_digits(c.fingerprint as nat, 16)),
            Seq::empty(),
        ],
{
    let nl = Sep::Char('\n');
    let (v, s, i, t, f) = (
        entry("v"@, "1"@),
        entry("seed"@, dec(c.seed as nat)),
        entry("index"@, dec(c.index as nat)),
        entry("total"@, dec(c.total as nat)),
        entry("fp"@, hex_digits(c.fingerprint as nat, 16)),
    );
    lemma_keys();
    lemma_dec_plain(c.seed as nat);
    lemma_dec_plain(c.index as nat);
    lemma_dec_plain(c.total as nat);
    lemma_hex_plain(c.fingerprint);
    lemma_entry_line("v"@, "1"@);
    lemma_entry_line("seed"@, dec(c.seed as nat));
    lemma_entry_line("index"@, dec(c.index as nat));
    lemma_entry_line("total"@, dec(c.total as nat));
    lemma_entry_line("fp"@, hex_digits(c.fingerprint as nat, 16));
    let e = Seq::<char>::empty();
    let r4 = f.push('\n') + e;
    let r3 = t.push('\n') + r4;
    let r2 = i.push('\n') + r3;
    let r1 = s.push('\n') + r2;
    lemma_split_at(f, '\n', e, nl);
    lemma_split_at(t, '\n', r4, nl);
    lemma_split_at(i, '\n', r3, nl);
    lemma_split_at(s, '\n', r2, nl);
    lemma_split_at(v, '\n', r1, nl);
    assert(v.push('\n') + r1 =~= render_spec(c));
    assert(split_spec(e, nl) =~= seq![e]);
    assert(seq![v] + (seq![s] + (seq![i] + (seq![t] + (seq![f] + seq![e])))) =~= seq![
        v,
        s,
        i,
        t,
        f,
        e,
    ]);
}

/// A checkpoint that was written is read back unchanged.
pub proof fn render_reads_back(c: Checkpoint)
    ensures
        parse_spec(render_spec(c)) == Ok::<Checkpoint, StateError>(c),
{
    lemma_lines_of(c);
    lemma_keys();
    lemma_dec_plain(c.seed as nat);
    lemma_dec_plain(c.index as nat);
    lemma_dec_plain(c.total as nat);
    lemma_hex_plain(c.fingerprint);
    lemma_entry_line("v"@, "1"@);
    lemma_entry_line("seed"@, dec(c.seed as nat));
    lemma_entry_line("index"@, dec(c.index as nat));
    lemma_entry_line("total"@, dec(c.total as nat));
    lemma_entry_line("fp"@, hex_digits(c.fingerprint as nat, 16));
    lemma_dec_reads_back(c.seed as nat, u64::MAX as nat);
    lemma_dec_reads_back(c.index as nat, u64::MAX as nat);
    lemma_dec_reads_back(c.total as nat, u64::MAX as nat);
    let lines = split_spec(render_spec(c), Sep::Char('\n'));
    let none = Entries { seed: None, index: None, total: None, fingerprint: None };
    let e2 = Entries { seed: Some(c.seed), ..none };
    let e3 = Entries { index: Some(c.index), ..e2 };
    let e4 = Entries { total: Some(c.total), ..e3 };
    let e5 = Entries { fingerprint: Some(c.fingerprint), ..e4 };
    assert(entries_spec(lines.take(0)) == Ok::<Entries, StateError>(none));
    assert(lines.take(1).drop_last() =~= lines.take(0));
    assert(entries_spec(lines.take(1)) == Ok::<Entries, StateError>(none));
    assert(lines.take(2).drop_last() =~= lines.take(1));
    assert(entries_spec(lines.take(2)) == Ok::<Entries, StateError>(e2));
    assert(lines.take(3).drop_last() =~= lines.take(2));
    assert(entries_spec(lines.take(3)) == Ok::<Entries, StateError>(e3));
    assert(lines.take(4).drop_last() =~= lines.take(3));
    assert(entries_spec(lines.take(4)) == Ok::<Entries, StateError>(e4));
    assert(lines.take(5).drop_last() =~= lines.take(4));
    assert(entries_spec(lines.take(5)) == Ok::<Entries, StateError>(e5));
    assert(lines.take(6).drop_last() =~= lines.take(5));
    assert(lines.take(6) =~= lines);
}

/// Each entry of a state file says one thing and leaves the others as they are; comments, blank
/// lines and entries of unknown names say nothing.
pub proof fn entries_are_read(e: Entries, n: u64, note: Seq<char>, key: Seq<char>, value: Seq<char>)
    requires
        note.len() > 0 ==> note[0] == '#' && !is_white(note.last()),
        key.len() > 0 && value.len() > 0 && all_plain(key) && all_plain(value),
        key != "seed"@ && key != "index"@ && key != "total"@ && key != "fp"@,
    ensures
        with_line(e, entry("seed"@, dec(n as nat))) == Ok::<Entries, StateError>(
            Entries { seed: Some(n), ..e },
        ),
        with_line(e, entry("index"@, dec(n as nat))) == Ok::<Entries, StateError>(
            Entries { index: Some(n), ..e },
        ),
        with_line(e, entry("total"@, dec(n as nat))) == Ok::<Entries, StateError>(
            Entries { total: Some(n), ..e },
        ),
        with_line(e, entry("fp"@, hex_digits(n as nat, 16))) == Ok::<Entries, StateError>(
            Entries { fingerprint: Some(n), ..e },
        ),
        with_line(e, note) == Ok::<Entries, StateError>(e),
        with_line(e, entry(key, value)) == Ok::<Entries, StateError>(e),
{
    lemma_keys();
    lemma_dec_plain(n as nat);
    lemma_hex_plain(n);
    lemma_entry_line("seed"@, dec(n as nat));
    lemma_entry_line("index"@, dec(n as nat));
    lemma_entry_line("total"@, dec(n as nat));
    lemma_entry_line("fp"@, hex_digits(n as nat, 16));
    lemma_entry_line(key, value);
    lemma_dec_reads_back(n as nat, u64::MAX as nat);
    if note.len() > 0 {
        assert(!is_white(note[0]));
        lemma_trim_keeps(note);
    } else {
        assert(note =~= Seq::empty());
    }
}

} // verus!
