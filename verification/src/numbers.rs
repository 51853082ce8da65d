//! Numbers in decimal and hexadecimal notation.

use crate::text;
use vstd::prelude::*;
use vstd::slice::*;

verus! {

// ---------------------------------------------------------------------------
// Reading
// ---------------------------------------------------------------------------
/// The value of a digit; of any other character, a number that is no digit in any radix used.
pub open spec fn digit_value(c: char) -> int {
    if '0' <= c <= '9' {
        c as u32 - '0' as u32
    } else if 'a' <= c <= 'f' {
        c as u32 - 'a' as u32 + 10
    } else if 'A' <= c <= 'F' {
        c as u32 - 'A' as u32 + 10
    } else {
        99
    }
}

/// Whether every character of `s` is a digit in the given radix.
pub open spec fn all_digits(s: Seq<char>, radix: int) -> bool {
    forall|i: int| 0 <= i < s.len() ==> digit_value(#[trigger] s[i]) < radix
}

/// The number that the digits of `s` stand for, the most significant one first.
pub open spec fn value_of(s: Seq<char>, radix: int) -> int
    decreases s.len(),
{
    if s.len() == 0 {
        0
    } else {
        value_of(s.drop_last(), radix) * radix + digit_value(s.last())
    }
}

/// `s` without a leading plus sign.
pub open spec fn without_plus(s: Seq<char>) -> Seq<char> {
    if s.len() > 0 && s[0] == '+' {
        s.skip(1)
    } else {
        s
    }
}

/// The number that `s` denotes: an optional plus sign, then one digit or more, at most `max`.
pub open spec fn unsigned(s: Seq<char>, radix: int, max: int) -> Option<int> {
    let d = without_plus(s);
    if d.len() > 0 && all_digits(d, radix) && value_of(d, radix) <= max {
        Some(value_of(d, radix))
    } else {
        None
    }
}

/// The number that `s` denotes: an optional sign, then one digit or more, within 64 bits.
pub open spec fn signed(s: Seq<char>) -> Option<int> {
    if s.len() > 0 && s[0] == '-' {
        let d = s.skip(1);
        if d.len() > 0 && all_digits(d, 10) && value_of(d, 10) <= 0x8000_0000_0000_0000 {
            Some(-value_of(d, 10))
        } else {
            None
        }
    } else {
        unsigned(s, 10, 0x7fff_ffff_ffff_ffff)
    }
}

pub proof fn lemma_value_grows(s: Seq<char>, radix: int, i: int)
    requires
        1 <= radix,
        0 <= i <= s.len(),
    ensures
        0 <= value_of(s.take(i), radix) <= value_of(s, radix),
    decreases s.len(),
{
    if s.len() == 0 {
        assert(s.take(i) == s);
    } else if i == s.len() {
        assert(s.take(i) == s);
        lemma_value_grows(s.drop_last(), radix, s.len() - 1);
        assert(s.drop_last().take(s.len() - 1) == s.drop_last());
        assert(value_of(s.drop_last(), radix) * radix >= 0) by (nonlinear_arith)
            requires
                value_of(s.drop_last(), radix) >= 0,
                radix >= 1,
        ;
    } else {
        lemma_value_grows(s.drop_last(), radix, i);
        assert(s.drop_last().take(i) == s.take(i));
        let v = value_of(s.drop_last(), radix);
        assert(v * radix >= v) by (nonlinear_arith)
            requires
                v >= 0,
                radix >= 1,
        ;
    }
}

fn digit_of(c: char) -> (r: u64)
    ensures
        r == digit_value(c),
{
    if '0' <= c && c <= '9' {
        (c as u32 - '0' as u32) as u64
    } else if 'a' <= c && c <= 'f' {
        (c as u32 - 'a' as u32 + 10) as u64
    } else if 'A' <= c && c <= 'F' {
        (c as u32 - 'A' as u32 + 10) as u64
    } else {
        99
    }
}

/// The number that a sequence of digits stands for, if it is at most `max`.
fn read_digits(s: &[char], radix: u64, max: u64) -> (r: Option<u64>)
    requires
        2 <= radix <= 16,
    ensures
        match r {
            Some(v) => s.len() > 0 && all_digits(s@, radix as int) && value_of(s@, radix as int) == v && v <= max,
            None => s.len() == 0 || !all_digits(s@, radix as int) || value_of(s@, radix as int) > max,
        },
{
    if s.len() == 0 {
        return None;
    }
    let mut acc: u64 = 0;
    let mut i: usize = 0;
    while i < s.len()
        invariant
            2 <= radix <= 16,
            i <= s.len(),
            all_digits(s@.take(i as int), radix as int),
            acc == value_of(s@.take(i as int), radix as int),
            acc <= max,
        decreases s.len() - i,
    {
        let d: u64 = digit_of(s[i]);
        let ghost next = s@.take(i + 1);
        assert(next.drop_last() == s@.take(i as int));
        assert(next.last() == s@[i as int]);
        if d >= radix {
            assert(!all_digits(s@, radix as int));
            return None;
        }
        assert(acc * radix <= 0xffff_ffff_ffff_ffff * 16) by (nonlinear_arith)
            requires
                acc <= 0xffff_ffff_ffff_ffff,
                radix <= 16,
        ;
        let v: u128 = acc as u128 * radix as u128 + d as u128;
        assert(v == value_of(next, radix as int));
        if v > max as u128 {
            proof {
                lemma_value_grows(s@, radix as int, i + 1);
            }
            return None;
        }
        acc = v as u64;
        assert forall|k: int| 0 <= k < next.len() implies digit_value(#[trigger] next[k]) < radix by {
            if k < i {
                assert(next[k] == s@.take(i as int)[k]);
            }
        }
        i += 1;
    }
    assert(s@.take(i as int) == s@);
    Some(acc)
}

pub fn parse_unsigned(s: &[char], radix: u64, max: u64) -> (r: Option<u64>)
    requires
        2 <= radix <= 16,
    ensures
        match r {
            Some(v) => unsigned(s@, radix as int, max as int) == Some(v as int) && v <= max,
            None => unsigned(s@, radix as int, max as int) is None,
        },
{
    let n: usize = s.len();
    let d = if n > 0 && s[0] == '+' {
        slice_subrange(s, 1, n)
    } else {
        s
    };
    assert(d@ == without_plus(s@));
    read_digits(d, radix, max)
}

pub fn parse_signed(s: &[char]) -> (r: Option<i64>)
    ensures
        match r {
            Some(v) => signed(s@) == Some(v as int),
            None => signed(s@) is None,
        },
{
    let n: usize = s.len();
    if n > 0 && s[0] == '-' {
        let d = slice_subrange(s, 1, n);
        assert(d@ == s@.skip(1));
        match read_digits(d, 10, 0x8000_0000_0000_0000) {
            Some(v) => if v == 0x8000_0000_0000_0000 {
                Some(i64::MIN)
            } else {
                Some(-(v as i64))
            },
            None => None,
        }
    } else {
        match parse_unsigned(s, 10, 0x7fff_ffff_ffff_ffff) {
            Some(v) => Some(v as i64),
            None => None,
        }
    }
}

pub fn parse_u32(s: &[char]) -> (r: Option<u32>)
    ensures
        match r {
            Some(v) => unsigned(s@, 10, u32::MAX as int) == Some(v as int),
            None => unsigned(s@, 10, u32::MAX as int) is None,
        },
{
    match parse_unsigned(s, 10, u32::MAX as u64) {
        Some(v) => Some(v as u32),
        None => None,
    }
}

pub fn parse_u16(s: &[char]) -> (r: Option<u16>)
    ensures
        match r {
            Some(v) => unsigned(s@, 10, u16::MAX as int) == Some(v as int),
            None => unsigned(s@, 10, u16::MAX as int) is None,
        },
{
    match parse_unsigned(s, 10, u16::MAX as u64) {
        Some(v) => Some(v as u16),
        None => None,
    }
}

// ---------------------------------------------------------------------------
// Numerals of measured numbers
// ---------------------------------------------------------------------------
pub open spec fn is_sign(c: char) -> bool {
    c == '+' || c == '-'
}

pub open spec fn without_sign(s: Seq<char>) -> Seq<char> {
    if s.len() > 0 && is_sign(s[0]) {
        s.skip(1)
    } else {
        s
    }
}

/// Nothing, or the letter E and an integer.
pub open spec fn is_exponent(s: Seq<char>) -> bool {
    let digits = without_sign(s.skip(1));
    s.len() == 0 || ((s[0] == 'e' || s[0] == 'E') && digits.len() > 0 && text::digit_run(digits)
        == digits.len())
}

/// Digits with or without a point, at least one, and possibly an exponent.
pub open spec fn is_plain_float(s: Seq<char>) -> bool {
    let k = text::digit_run(s);
    let r = s.skip(k as int);
    if r.len() > 0 && r[0] == '.' {
        let j = text::digit_run(r.skip(1));
        k + j > 0 && is_exponent(r.skip(1 + j as int))
    } else {
        k > 0 && is_exponent(r)
    }
}

/// A numeral of a measured number, an infinity or the words for no number included.
pub open spec fn is_float(s: Seq<char>) -> bool {
    let u = without_sign(s);
    let word = text::lowercase(u);
    word == "inf"@ || word == "infinity"@ || word == "nan"@ || is_plain_float(u)
}

/// The exact value of a numeral without an exponent: `(m, k)` stands for `m` over the `k`th power
/// of ten. Other numerals have none here.
pub open spec fn numeral_value(s: Seq<char>) -> Option<(int, nat)> {
    let u = without_sign(s);
    let k = text::digit_run(u);
    let j = text::digit_run(u.skip(k as int + 1));
    if k > 0 && k == u.len() {
        Some((with_sign(s, value_of(u, 10)), 0))
    } else if k < u.len() && u[k as int] == '.' && k + j > 0 && k + 1 + j == u.len() {
        Some((with_sign(s, value_of(u.take(k as int) + u.skip(k as int + 1), 10)), j))
    } else {
        None
    }
}

/// A number with the sign that a numeral begins with.
pub open spec fn with_sign(s: Seq<char>, v: int) -> int {
    if s.len() > 0 && s[0] == '-' {
        -v
    } else {
        v
    }
}

/// Whether one value is less than another.
pub open spec fn is_less(a: (int, nat), b: (int, nat)) -> bool {
    a.0 * vstd::arithmetic::power::pow(10, b.1) < b.0 * vstd::arithmetic::power::pow(10, a.1)
}

fn past_sign<'a>(s: &'a [char]) -> (r: &'a [char])
    ensures
        r@ == without_sign(s@),
{
    if s.len() > 0 && (s[0] == '+' || s[0] == '-') {
        slice_subrange(s, 1, s.len())
    } else {
        s
    }
}

fn exponent(s: &[char]) -> (r: bool)
    ensures
        r == is_exponent(s@),
{
    if s.len() == 0 {
        return true;
    }
    let digits = past_sign(slice_subrange(s, 1, s.len()));
    assert(digits@.skip(0) == digits@);
    (s[0] == 'e' || s[0] == 'E') && digits.len() > 0 && text::count_digits(digits, 0)
        == digits.len()
}

fn plain_float(s: &[char]) -> (r: bool)
    ensures
        r == is_plain_float(s@),
{
    assert(s@.skip(0) == s@);
    let k: usize = text::count_digits(s, 0);
    let rest = slice_subrange(s, k, s.len());
    assert(rest@ == s@.skip(k as int));
    if rest.len() > 0 && rest[0] == '.' {
        let j: usize = text::count_digits(rest, 1);
        let tail = slice_subrange(rest, 1 + j, rest.len());
        assert(tail@ == rest@.skip(1 + j as int));
        (k > 0 || j > 0) && exponent(tail)
    } else {
        k > 0 && exponent(rest)
    }
}

/// Whether a text is the numeral of a measured number.
pub fn float(s: &[char]) -> (r: bool)
    ensures
        r == is_float(s@),
{
    let u = past_sign(s);
    let word = text::to_lower(u);
    text::reads(word.as_slice(), "inf") || text::reads(word.as_slice(), "infinity") || text::reads(
        word.as_slice(),
        "nan",
    ) || plain_float(u)
}

// ---------------------------------------------------------------------------
// Writing
// ---------------------------------------------------------------------------
/// The digit with value `d`, in lower case.
pub open spec fn digit_char(d: int) -> char {
    if d < 10 {
        ('0' as u8 + d) as char
    } else {
        ('a' as u8 + d - 10) as char
    }
}

/// The decimal notation of `n`, without leading zeros.
pub open spec fn decimal(n: nat) -> Seq<char>
    decreases n,
{
    if n < 10 {
        seq![digit_char(n as int)]
    } else {
        decimal(n / 10).push(digit_char((n % 10) as int))
    }
}

/// The decimal notation of an integer.
pub open spec fn int_text(i: int) -> Seq<char> {
    if i < 0 {
        seq!['-'] + decimal((-i) as nat)
    } else {
        decimal(i as nat)
    }
}

/// Two hexadecimal digits.
pub open spec fn hex_pair(b: int) -> Seq<char> {
    seq![digit_char(b / 16), digit_char(b % 16)]
}

pub fn digit_for(d: u8) -> (r: char)
    requires
        d < 16,
    ensures
        r == digit_char(d as int),
{
    if d < 10 {
        (0x30 + d) as char
    } else {
        (0x61 + (d - 10)) as char
    }
}

pub fn add_decimal(out: &mut Vec<char>, n: u64)
    ensures
        final(out)@ == old(out)@ + decimal(n as nat),
    decreases n,
{
    if n < 10 {
        out.push(digit_for(n as u8));
        assert(out@ == old(out)@ + decimal(n as nat));
    } else {
        add_decimal(out, n / 10);
        out.push(digit_for((n % 10) as u8));
        assert(out@ == old(out)@ + decimal(n as nat));
    }
}

pub fn add_int(out: &mut Vec<char>, i: i64)
    ensures
        final(out)@ == old(out)@ + int_text(i as int),
{
    if i < 0 {
        out.push('-');
        let m: u64 = (-(i as i128)) as u64;
        add_decimal(out, m);
        assert(out@ == old(out)@ + int_text(i as int));
    } else {
        add_decimal(out, i as u64);
    }
}

pub fn add_hex_pair(out: &mut Vec<char>, b: u8)
    ensures
        final(out)@ == old(out)@ + hex_pair(b as int),
{
    out.push(digit_for(b / 16));
    out.push(digit_for(b % 16));
    assert(out@ == old(out)@ + hex_pair(b as int));
}

/// A number that is read is not negative and not too great.
pub proof fn lemma_unsigned_range(s: Seq<char>, radix: int, max: int)
    requires
        radix >= 0,
    ensures
        unsigned(s, radix, max) matches Some(v) ==> 0 <= v <= max,
{
    lemma_value_not_negative(without_plus(s), radix);
}

proof fn lemma_value_not_negative(s: Seq<char>, radix: int)
    requires
        radix >= 0,
    ensures
        value_of(s, radix) >= 0,
    decreases s.len(),
{
    if s.len() > 0 {
        lemma_value_not_negative(s.drop_last(), radix);
        assert(value_of(s.drop_last(), radix) * radix >= 0) by (nonlinear_arith)
            requires
                value_of(s.drop_last(), radix) >= 0,
                radix >= 0,
        ;
    }
}

/// Decimal notation is made of digits and denotes the number it was made from.
pub proof fn lemma_decimal(n: nat)
    ensures
        decimal(n).len() > 0,
        forall|i: int| 0 <= i < decimal(n).len() ==> text::is_digit(#[trigger] decimal(n)[i]),
        all_digits(decimal(n), 10),
        value_of(decimal(n), 10) == n,
    decreases n,
{
    reveal_with_fuel(value_of, 2);
    if n < 10 {
        assert(decimal(n).drop_last() == Seq::<char>::empty());
    } else {
        lemma_decimal(n / 10);
        assert(decimal(n).drop_last() == decimal(n / 10));
        assert forall|i: int| 0 <= i < decimal(n).len() implies text::is_digit(
            #[trigger] decimal(n)[i],
        ) by {
            if i < decimal(n).len() - 1 {
                assert(decimal(n)[i] == decimal(n / 10)[i]);
            }
        }
    }
}

/// A number that fits is read back from its decimal notation.
pub proof fn lemma_unsigned_of_decimal(n: nat, max: int)
    ensures
        unsigned(decimal(n), 10, max) == (if n <= max {
            Some(n as int)
        } else {
            None
        }),
{
    lemma_decimal(n);
    assert(text::is_digit(decimal(n)[0]));
}

} // verus!
