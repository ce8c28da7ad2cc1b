//! Whole numbers written in digits, and back.

use vstd::prelude::*;
use vstd::slice::slice_subrange;
use vstd::string::*;

verus! {

/// Why a text is not a number.
#[derive(Clone, Copy, Debug, PartialEq, Eq, Structural)]
pub enum IntError {
    Empty,
    InvalidDigit,
    TooLarge,
    TooSmall,
}

impl IntError {
    pub open spec fn message_spec(self) -> Seq<char> {
        match self {
            IntError::Empty => "cannot parse integer from empty string"@,
            IntError::InvalidDigit => "invalid digit found in string"@,
            IntError::TooLarge => "number too large to fit in target type"@,
            IntError::TooSmall => "number too small to fit in target type"@,
        }
    }

    /// What to tell the user.
    pub fn message(self) -> (r: &'static str)
        ensures
            r@ == self.message_spec(),
    {
        match self {
            IntError::Empty => "cannot parse integer from empty string",
            IntError::InvalidDigit => "invalid digit found in string",
            IntError::TooLarge => "number too large to fit in target type",
            IntError::TooSmall => "number too small to fit in target type",
        }
    }
}

/// The value of `c` as a digit in the given base, at most 16.
pub open spec fn digit_spec(c: char, base: nat) -> Option<nat> {
    let v = if '0' <= c <= '9' {
        (c as int - '0' as int) as nat
    } else if 'a' <= c <= 'f' {
        (c as int - 'a' as int + 10) as nat
    } else if 'A' <= c <= 'F' {
        (c as int - 'A' as int + 10) as nat
    } else {
        16
    };
    if v < base && v < 16 {
        Some(v)
    } else {
        None
    }
}

/// The value of a row of digits, read from the left: the first character that is no digit, or
/// that makes the value exceed `max`, decides the error.
pub open spec fn digits_spec(s: Seq<char>, base: nat, max: nat) -> Result<nat, IntError>
    decreases s.len(),
{
    if s.len() == 0 {
        Ok(0)
    } else {
        match digits_spec(s.drop_last(), base, max) {
            Err(e) => Err(e),
            Ok(v) => match digit_spec(s.last(), base) {
                None => Err(IntError::InvalidDigit),
                Some(d) => if v * base + d > max {
                    Err(IntError::TooLarge)
                } else {
                    Ok(v * base + d)
                },
            },
        }
    }
}

/// `s` is nothing but a sign.
pub open spec fn bare_sign(s: Seq<char>) -> bool {
    s.len() == 1 && (s[0] == '+' || s[0] == '-')
}

/// The number, from 0 to `max`, that `s` writes: digits with an optional `+` before them.
pub open spec fn unsigned_spec(s: Seq<char>, base: nat, max: nat) -> Result<nat, IntError> {
    if s.len() == 0 {
        Err(IntError::Empty)
    } else if bare_sign(s) {
        Err(IntError::InvalidDigit)
    } else if s[0] == '+' {
        digits_spec(s.skip(1), base, max)
    } else {
        digits_spec(s, base, max)
    }
}

/// The number, from `-low` to `high`, that `s` writes: digits with an optional sign before them.
pub open spec fn signed_spec(s: Seq<char>, low: nat, high: nat) -> Result<int, IntError> {
    if s.len() == 0 {
        Err(IntError::Empty)
    } else if bare_sign(s) {
        Err(IntError::InvalidDigit)
    } else if s[0] == '-' {
        match digits_spec(s.skip(1), 10, low) {
            Ok(v) => Ok(-v),
            Err(IntError::TooLarge) => Err(IntError::TooSmall),
            Err(e) => Err(e),
        }
    } else {
        match unsigned_spec(s, 10, high) {
            Ok(v) => Ok(v as int),
            Err(e) => Err(e),
        }
    }
}

fn digit(c: char, base: u64) -> (r: Option<u64>)
    requires
        base <= 16,
    ensures
        match r {
            Some(d) => digit_spec(c, base as nat) == Some(d as nat) && d < base,
            None => digit_spec(c, base as nat) is None,
        },
{
    let v: u64 = if '0' <= c && c <= '9' {
        c as u64 - '0' as u64
    } else if 'a' <= c && c <= 'f' {
        c as u64 - 'a' as u64 + 10
    } else if 'A' <= c && c <= 'F' {
        c as u64 - 'A' as u64 + 10
    } else {
        16
    };
    if v < base {
        Some(v)
    } else {
        None
    }
}

/// Once a prefix is in error, so is the whole row.
pub proof fn lemma_digits_prefix_err(s: Seq<char>, n: int, base: nat, max: nat)
    requires
        0 <= n <= s.len(),
        digits_spec(s.take(n), base, max) is Err,
    ensures
        digits_spec(s, base, max) == digits_spec(s.take(n), base, max),
    decreases s.len(),
{
    if n < s.len() {
        assert(s.drop_last().take(n) =~= s.take(n));
        lemma_digits_prefix_err(s.drop_last(), n, base, max);
    } else {
        assert(s.take(n) =~= s);
    }
}

fn digits(s: &[char], base: u64, max: u64) -> (r: Result<u64, IntError>)
    requires
        2 <= base <= 16,
    ensures
        match r {
            Ok(v) => digits_spec(s@, base as nat, max as nat) == Ok::<nat, IntError>(v as nat) && v <= max,
            Err(e) => digits_spec(s@, base as nat, max as nat) == Err::<nat, IntError>(e),
        },
{
    let mut v: u64 = 0;
    let mut i: usize = 0;
    while i < s.len()
        invariant
            i <= s@.len(),
            v <= max,
            2 <= base <= 16,
            digits_spec(s@.take(i as int), base as nat, max as nat) == Ok::<nat, IntError>(v as nat),
        decreases s@.len() - i,
    {
        let ghost next = s@.take(i + 1);
        assert(next.drop_last() =~= s@.take(i as int));
        assert(next.last() == s@[i as int]);
        let Some(d) = digit(s[i], base) else {
            proof {
                lemma_digits_prefix_err(s@, i + 1, base as nat, max as nat);
            }
            return Err(IntError::InvalidDigit);
        };
        assert(0 <= v * base <= u64::MAX * 16) by (nonlinear_arith)
            requires
                0 <= v <= u64::MAX,
                0 <= base <= 16,
        ;
        let wide: u128 = v as u128 * base as u128 + d as u128;
        if wide > max as u128 {
            proof {
                lemma_digits_prefix_err(s@, i + 1, base as nat, max as nat);
            }
            return Err(IntError::TooLarge);
        }
        v = wide as u64;
        i = i + 1;
    }
    assert(s@.take(i as int) =~= s@);
    Ok(v)
}

/// Reads a number from 0 to `max` in the given base.
pub fn parse_unsigned(s: &[char], base: u64, max: u64) -> (r: Result<u64, IntError>)
    requires
        2 <= base <= 16,
    ensures
        match r {
            Ok(v) => unsigned_spec(s@, base as nat, max as nat) == Ok::<nat, IntError>(v as nat) && v <= max,
            Err(e) => unsigned_spec(s@, base as nat, max as nat) == Err::<nat, IntError>(e),
        },
{
    if s.len() == 0 {
        return Err(IntError::Empty);
    }
    if s.len() == 1 && (s[0] == '+' || s[0] == '-') {
        return Err(IntError::InvalidDigit);
    }
    if s[0] == '+' {
        assert(s@.subrange(1, s@.len() as int) =~= s@.skip(1));
        digits(slice_subrange(s, 1, s.len()), base, max)
    } else {
        digits(s, base, max)
    }
}

/// Reads an `i32` in base ten.
pub fn parse_i32(s: &[char]) -> (r: Result<i32, IntError>)
    ensures
        match r {
            Ok(v) => signed_spec(s@, 0x8000_0000, 0x7fff_ffff) == Ok::<int, IntError>(v as int),
            Err(e) => signed_spec(s@, 0x8000_0000, 0x7fff_ffff) == Err::<int, IntError>(e),
        },
{
    if s.len() > 1 && s[0] == '-' {
        assert(s@.subrange(1, s@.len() as int) =~= s@.skip(1));
        match digits(slice_subrange(s, 1, s.len()), 10, 0x8000_0000) {
            Ok(v) => Ok((0 - v as i64) as i32),
            Err(IntError::TooLarge) => Err(IntError::TooSmall),
            Err(e) => Err(e),
        }
    } else {
        match parse_unsigned(s, 10, 0x7fff_ffff) {
            Ok(v) => Ok(v as i32),
            Err(e) => Err(e),
        }
    }
}

/// Digit `d` as a character, for the bases up to 16.
pub open spec fn digit_char(d: nat) -> char {
    if d < 10 {
        ('0' as int + d) as char
    } else {
        ('a' as int + (d - 10)) as char
    }
}

/// `n` in decimal digits, without leading zeros.
pub open spec fn dec(n: nat) -> Seq<char>
    decreases n,
{
    if n < 10 {
        seq![digit_char(n)]
    } else {
        dec(n / 10).push(digit_char(n % 10))
    }
}

/// `n` in decimal digits, with a minus sign when it is negative.
pub open spec fn dec_int(n: int) -> Seq<char> {
    if n < 0 {
        seq!['-'] + dec((-n) as nat)
    } else {
        dec(n as nat)
    }
}

/// The last `width` hexadecimal digits of `n`.
pub open spec fn hex_digits(n: nat, width: nat) -> Seq<char>
    decreases width,
{
    if width == 0 {
        Seq::empty()
    } else {
        hex_digits(n / 16, (width - 1) as nat).push(digit_char(n % 16))
    }
}

fn char_of_digit(d: u64) -> (c: char)
    requires
        d < 16,
    ensures
        c == digit_char(d as nat),
{
    if d < 10 {
        (48 + d as u8) as char
    } else {
        (87 + d as u8) as char
    }
}

/// Appends `n` in decimal digits.
pub fn push_dec(out: &mut String, n: u64)
    ensures
        final(out)@ == old(out)@ + dec(n as nat),
    decreases n,
{
    if n >= 10 {
        push_dec(out, n / 10);
    }
    out.push(char_of_digit(n % 10));
    assert(out@ =~= old(out)@ + dec(n as nat));
}

/// Appends `n` in decimal digits, with a minus sign when it is negative.
pub fn push_dec_i32(out: &mut String, n: i32)
    ensures
        final(out)@ == old(out)@ + dec_int(n as int),
{
    if n < 0 {
        out.push('-');
        push_dec(out, (0 - n as i64) as u64);
        assert(out@ =~= old(out)@ + dec_int(n as int));
    } else {
        push_dec(out, n as u64);
    }
}

/// Appends the last `width` hexadecimal digits of `n`.
pub fn push_hex(out: &mut String, n: u64, width: u64)
    ensures
        final(out)@ == old(out)@ + hex_digits(n as nat, width as nat),
    decreases width,
{
    if width > 0 {
        push_hex(out, n / 16, width - 1);
        out.push(char_of_digit(n % 16));
    }
    assert(out@ =~= old(out)@ + hex_digits(n as nat, width as nat));
}

/// `n` in decimal digits.
pub fn dec_text(n: u64) -> (r: String)
    ensures
        r@ == dec(n as nat),
{
    let mut out: String = String::new();
    push_dec(&mut out, n);
    assert(out@ =~= dec(n as nat));
    out
}

/// Reading the decimal digits of `n` gives `n` back.
pub proof fn lemma_dec_reads_back(n: nat, max: nat)
    requires
        n <= max,
    ensures
        digits_spec(dec(n), 10, max) == Ok::<nat, IntError>(n),
        unsigned_spec(dec(n), 10, max) == Ok::<nat, IntError>(n),
{
    lemma_dec_digits(n);
    lemma_dec_value(n, max);
    assert(dec(n)[0] != '+');
}

/// A signed number that was written is read back.
pub proof fn lemma_dec_int_reads_back(n: i32)
    ensures
        signed_spec(dec_int(n as int), 0x8000_0000, 0x7fff_ffff) == Ok::<int, IntError>(n as int),
{
    let s = dec_int(n as int);
    if n < 0 {
        let m = (-n) as nat;
        lemma_dec_reads_back(m, 0x8000_0000);
        lemma_dec_digits(m);
        assert(s.skip(1) =~= dec(m));
    } else {
        lemma_dec_reads_back(n as nat, 0x7fff_ffff);
        lemma_dec_digits(n as nat);
        assert('0' <= s[0] <= '9');
    }
}

proof fn lemma_dec_value(n: nat, max: nat)
    requires
        n <= max,
    ensures
        digits_spec(dec(n), 10, max) == Ok::<nat, IntError>(n),
    decreases n,
{
    if n < 10 {
        assert(dec(n).drop_last() =~= Seq::empty());
        assert(digits_spec(dec(n).drop_last(), 10, max) == Ok::<nat, IntError>(0));
    } else {
        lemma_dec_value(n / 10, max);
        assert(dec(n).drop_last() =~= dec(n / 10));
        assert(dec(n).last() == digit_char(n % 10));
    }
}

/// A decimal number consists of one or more digits.
pub proof fn lemma_dec_digits(n: nat)
    ensures
        dec(n).len() > 0,
        forall|i: int| 0 <= i < dec(n).len() ==> '0' <= #[trigger] dec(n)[i] <= '9',
    decreases n,
{
    if n >= 10 {
        lemma_dec_digits(n / 10);
        assert forall|i: int| 0 <= i < dec(n).len() implies '0' <= #[trigger] dec(n)[i] <= '9' by {
            if i < dec(n).len() - 1 {
                assert(dec(n)[i] == dec(n / 10)[i]);
            }
        }
    }
}

/// Sixteen to the power of `width`.
pub open spec fn pow16(width: nat) -> nat
    decreases width,
{
    if width == 0 {
        1
    } else {
        16 * pow16((width - 1) as nat)
    }
}

/// Reading the hexadecimal digits of a number that they can hold gives it back.
pub proof fn lemma_hex_reads_back(n: nat, width: nat, max: nat)
    requires
        n < pow16(width),
        n <= max,
    ensures
        digits_spec(hex_digits(n, width), 16, max) == Ok::<nat, IntError>(n),
        hex_digits(n, width).len() == width,
        forall|i: int| 0 <= i < width ==> #[trigger] digit_spec(hex_digits(n, width)[i], 16) is Some,
    decreases width,
{
    if width > 0 {
        lemma_hex_reads_back(n / 16, (width - 1) as nat, max);
        let s = hex_digits(n, width);
        assert(s.drop_last() =~= hex_digits(n / 16, (width - 1) as nat));
        assert(s.last() == digit_char(n % 16));
        assert forall|i: int| 0 <= i < width implies #[trigger] digit_spec(s[i], 16) is Some by {
            if i < width - 1 {
                assert(s[i] == s.drop_last()[i]);
            }
        }
    }
}

} // verus!
