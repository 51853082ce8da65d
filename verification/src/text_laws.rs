//! Laws of taking texts apart and of numbers in them: nothing is lost, and what is written is read.

use crate::numbers;
use crate::text;
use vstd::prelude::*;

verus! {

/// Lines with an end after each of them.
pub open spec fn with_ends(ls: Seq<Seq<char>>, end: Seq<char>) -> Seq<char>
    decreases ls.len(),
{
    if ls.len() == 0 {
        seq![]
    } else {
        ls[0] + end + with_ends(ls.skip(1), end)
    }
}

/// A text within one line.
pub open spec fn is_in_line(s: Seq<char>) -> bool {
    forall|i: int| 0 <= i < s.len() ==> (#[trigger] s[i]) != '\n' && s[i] != '\r'
}

proof fn lemma_ended_line(a: Seq<char>, end: Seq<char>, rest: Seq<char>)
    requires
        is_in_line(a),
        end == seq!['\n'] || end == seq!['\r', '\n'],
    ensures
        text::line_list(a + end + rest) == seq![a] + text::line_list(rest),
{
    let t = a + end + rest;
    let n = a.len() + end.len() - 1;
    assert forall|j: int| 0 <= j < n implies t[j] != '\n' by {
        if j < a.len() {
            assert(t[j] == a[j]);
        } else {
            assert(t[j] == end[j - a.len()]);
        }
    }
    assert(t[n as int] == '\n') by {
        assert(t[n as int] == end[end.len() - 1]);
    }
    text::lemma_position_is(t, '\n', n as int);
    assert(t.skip(n as int + 1) == rest);
    let line = t.take(n as int);
    if end.len() == 1 {
        assert(line == a);
        assert(a.len() > 0 ==> a[a.len() - 1] != '\r');
    } else {
        assert(line == a.push('\r'));
        assert(line.drop_last() == a);
    }
    assert(text::without_return(line) == a);
}

/// The lines of a text are those that it was put together from, whichever way they end.
pub proof fn theorem_lines_are_read_back(ls: Seq<Seq<char>>, end: Seq<char>)
    requires
        forall|i: int| 0 <= i < ls.len() ==> is_in_line(#[trigger] ls[i]),
        end == seq!['\n'] || end == seq!['\r', '\n'],
    ensures
        text::line_list(with_ends(ls, end)) == ls,
    decreases ls.len(),
{
    if ls.len() > 0 {
        assert(is_in_line(ls[0]));
        assert forall|i: int| 0 <= i < ls.skip(1).len() implies is_in_line(
            #[trigger] ls.skip(1)[i],
        ) by {
            assert(ls.skip(1)[i] == ls[i + 1]);
        }
        theorem_lines_are_read_back(ls.skip(1), end);
        lemma_ended_line(ls[0], end, with_ends(ls.skip(1), end));
        assert(seq![ls[0]] + ls.skip(1) == ls);
    } else {
        assert(text::line_list(with_ends(ls, end)) == ls);
    }
}

proof fn lemma_joined_front(a: Seq<char>, ps: Seq<Seq<char>>, sep: Seq<char>)
    requires
        ps.len() > 0,
    ensures
        text::joined(seq![a] + ps, sep) == a + sep + text::joined(ps, sep),
    decreases ps.len(),
{
    let all = seq![a] + ps;
    if ps.len() == 1 {
        assert(all.drop_last() == seq![a]);
        assert(all.last() == ps[0]);
        reveal_with_fuel(text::joined, 2);
        assert(text::joined(all, sep) == a + sep + text::joined(ps, sep));
    } else {
        lemma_joined_front(a, ps.drop_last(), sep);
        assert(all.drop_last() == seq![a] + ps.drop_last());
        assert(text::joined(all, sep) == a + sep + text::joined(ps, sep));
    }
}

/// The pieces of a text between separators hold no separator, and joined with it they are the
/// text.
pub proof fn theorem_pieces_are_the_text(s: Seq<char>, c: char)
    ensures
        text::pieces(s, c).len() > 0,
        text::joined(text::pieces(s, c), seq![c]) == s,
        forall|i: int|
            0 <= i < text::pieces(s, c).len() ==> !(#[trigger] text::pieces(s, c)[i]).contains(c),
    decreases s.len(),
{
    text::lemma_position(s, c);
    let i = text::position(s, c);
    let ps = text::pieces(s, c);
    if i < s.len() {
        let rest = s.skip(i + 1);
        theorem_pieces_are_the_text(rest, c);
        let qs = text::pieces(rest, c);
        assert(ps == seq![s.take(i)] + qs);
        lemma_joined_front(s.take(i), qs, seq![c]);
        assert(s.take(i) + seq![c] + rest == s);
        assert forall|k: int| 0 <= k < ps.len() implies !(#[trigger] ps[k]).contains(c) by {
            if k > 0 {
                assert(ps[k] == qs[k - 1]);
            }
        }
    } else {
        assert(!s.contains(c));
    }
}

/// Parts without a separator in them, joined with it, are the pieces of what comes out.
pub proof fn theorem_joined_parts_are_the_pieces(ps: Seq<Seq<char>>, c: char)
    requires
        ps.len() > 0,
        forall|i: int| 0 <= i < ps.len() ==> !(#[trigger] ps[i]).contains(c),
    ensures
        text::pieces(text::joined(ps, seq![c]), c) == ps,
    decreases ps.len(),
{
    assert(!ps[0].contains(c));
    if ps.len() == 1 {
        text::lemma_piece(ps[0], c, seq![]);
        assert(seq![ps[0]] == ps);
    } else {
        let rest = ps.skip(1);
        assert forall|i: int| 0 <= i < rest.len() implies !(#[trigger] rest[i]).contains(c) by {
            assert(rest[i] == ps[i + 1]);
        }
        theorem_joined_parts_are_the_pieces(rest, c);
        assert(seq![ps[0]] + rest == ps);
        lemma_joined_front(ps[0], rest, seq![c]);
        text::lemma_piece(ps[0], c, text::joined(rest, seq![c]));
    }
}

/// What is put before the first part, or after the last one, is put before or after the whole.
pub proof fn theorem_joined_ends(ps: Seq<Seq<char>>, sep: Seq<char>, a: Seq<char>, b: Seq<char>)
    requires
        ps.len() > 0,
    ensures
        text::joined(ps.update(0, a + ps[0]), sep) == a + text::joined(ps, sep),
        text::joined(ps.update(ps.len() - 1, ps.last() + b), sep) == text::joined(ps, sep) + b,
    decreases ps.len(),
{
    let x = ps.update(0, a + ps[0]);
    let y = ps.update(ps.len() - 1, ps.last() + b);
    if ps.len() == 1 {
        assert(text::joined(x, sep) == a + text::joined(ps, sep));
    } else {
        theorem_joined_ends(ps.drop_last(), sep, a, b);
        assert(x.drop_last() == ps.drop_last().update(0, a + ps[0]));
        assert(x.last() == ps.last());
        assert(text::joined(x, sep) == a + text::joined(ps, sep));
        assert(y.drop_last() == ps.drop_last());
        assert(text::joined(y, sep) == text::joined(ps, sep) + b);
    }
}

/// A text that begins with a pattern holds it, and first of all there.
pub proof fn theorem_pattern_in_front(pat: Seq<char>, rest: Seq<char>)
    ensures
        text::occurrence(pat + rest, pat) == Some(0int),
        text::occurs(pat + rest, pat),
{
    let s = pat + rest;
    text::lemma_occurrence(s, pat);
    assert(s.skip(0) == s);
    assert(pat.is_prefix_of(s.skip(0)));
}

/// The first of some lines that holds a pattern is found, whatever stands in the lines after it.
pub proof fn theorem_first_line_with(
    before: Seq<Seq<char>>,
    line: Seq<char>,
    after: Seq<Seq<char>>,
    pat: Seq<char>,
)
    requires
        forall|i: int| 0 <= i < before.len() ==> !text::occurs(#[trigger] before[i], pat),
        text::occurs(line, pat),
    ensures
        text::line_with(before + seq![line] + after, pat) == Some(line),
    decreases before.len(),
{
    let all = before + seq![line] + after;
    if before.len() == 0 {
        assert(all[0] == line);
    } else {
        let rest = before.skip(1);
        assert forall|i: int| 0 <= i < rest.len() implies !text::occurs(#[trigger] rest[i], pat) by {
            assert(rest[i] == before[i + 1]);
        }
        theorem_first_line_with(rest, line, after, pat);
        assert(all[0] == before[0]);
        assert(!text::occurs(before[0], pat));
        assert(all.skip(1) == rest + seq![line] + after);
    }
}

/// A text is parted at the first separator: there is none in what comes before, and the two parts
/// with the separator between them are the text.
pub proof fn theorem_halves_are_the_text(s: Seq<char>, c: char)
    ensures
        text::halves(s, c) is Some <==> s.contains(c),
        text::halves(s, c) matches Some((a, b)) ==> s == a + seq![c] + b && !a.contains(c),
{
    text::lemma_position(s, c);
    let i = text::position(s, c);
    if i < s.len() {
        assert(s[i] == c);
        assert(s == s.take(i) + seq![c] + s.skip(i + 1));
    }
}

/// All of a text is white space.
pub open spec fn is_blank(s: Seq<char>) -> bool {
    forall|i: int| 0 <= i < s.len() ==> text::is_white_space(#[trigger] s[i])
}

/// Blanks around a text that has none at its ends are trimmed off, and nothing else.
pub proof fn theorem_blanks_around(before: Seq<char>, t: Seq<char>, after: Seq<char>)
    requires
        is_blank(before),
        is_blank(after),
        t.len() > 0 ==> !text::is_white_space(t[0]) && !text::is_white_space(t.last()),
    ensures
        text::trimmed(before + t + after) == t,
{
    lemma_blanks_before(before, t + after);
    assert(before + t + after == before + (t + after));
    if t.len() > 0 {
        assert((t + after)[0] == t[0]);
        lemma_blanks_after(t, after);
    } else {
        let e = Seq::<char>::empty();
        assert(t + after == after);
        assert(after + e == after);
        lemma_blanks_before(after, e);
    }
}

proof fn lemma_blanks_before(before: Seq<char>, t: Seq<char>)
    requires
        is_blank(before),
    ensures
        text::trimmed_start(before + t) == text::trimmed_start(t),
    decreases before.len(),
{
    let s = before + t;
    if before.len() > 0 {
        assert(s[0] == before[0]);
        assert(s.skip(1) == before.skip(1) + t);
        assert forall|i: int| 0 <= i < before.skip(1).len() implies text::is_white_space(
            #[trigger] before.skip(1)[i],
        ) by {
            assert(before.skip(1)[i] == before[i + 1]);
        }
        lemma_blanks_before(before.skip(1), t);
    } else {
        assert(s == t);
    }
}

proof fn lemma_blanks_after(t: Seq<char>, after: Seq<char>)
    requires
        is_blank(after),
        t.len() > 0 ==> !text::is_white_space(t.last()),
    ensures
        text::trimmed_end(t + after) == t,
    decreases after.len(),
{
    let s = t + after;
    if after.len() > 0 {
        assert(s.last() == after[after.len() - 1]);
        assert(s.drop_last() == t + after.drop_last());
        assert forall|i: int| 0 <= i < after.drop_last().len() implies text::is_white_space(
            #[trigger] after.drop_last()[i],
        ) by {
            assert(after.drop_last()[i] == after[i]);
        }
        lemma_blanks_after(t, after.drop_last());
    } else {
        assert(s == t);
    }
}

/// What is trimmed off a text is white space, and all that there is at its ends.
pub proof fn theorem_trimmed_is_the_text_without_blanks(s: Seq<char>)
    ensures
        exists|a: Seq<char>, b: Seq<char>| #[trigger]
            is_blank(a) && #[trigger] is_blank(b) && s == a + text::trimmed(s) + b,
        text::trimmed(s).len() > 0 ==> !text::is_white_space(text::trimmed(s)[0])
            && !text::is_white_space(text::trimmed(s).last()),
{
    let a = lemma_trimmed_start(s);
    let m = text::trimmed_start(s);
    let b = lemma_trimmed_end(m);
    let t = text::trimmed(s);
    assert(is_blank(a) && is_blank(b) && s == a + t + b);
    if t.len() > 0 {
        assert(m[0] == t[0]);
        text::lemma_trimmed_start_len(s);
    }
}

proof fn lemma_trimmed_start(s: Seq<char>) -> (a: Seq<char>)
    ensures
        is_blank(a),
        s == a + text::trimmed_start(s),
    decreases s.len(),
{
    if s.len() > 0 && text::is_white_space(s[0]) {
        let more = lemma_trimmed_start(s.skip(1));
        let a = seq![s[0]] + more;
        assert forall|i: int| 0 <= i < a.len() implies text::is_white_space(#[trigger] a[i]) by {
            if i > 0 {
                assert(a[i] == more[i - 1]);
            }
        }
        assert(seq![s[0]] + s.skip(1) == s);
        assert(s == a + text::trimmed_start(s));
        a
    } else {
        assert(Seq::<char>::empty() + s == s);
        seq![]
    }
}

proof fn lemma_trimmed_end(s: Seq<char>) -> (b: Seq<char>)
    ensures
        is_blank(b),
        s == text::trimmed_end(s) + b,
        text::trimmed_end(s).len() > 0 ==> !text::is_white_space(text::trimmed_end(s).last()),
    decreases s.len(),
{
    if s.len() > 0 && text::is_white_space(s.last()) {
        let more = lemma_trimmed_end(s.drop_last());
        let b = more.push(s.last());
        assert forall|i: int| 0 <= i < b.len() implies text::is_white_space(#[trigger] b[i]) by {
            if i < more.len() {
                assert(b[i] == more[i]);
            }
        }
        assert(s.drop_last().push(s.last()) == s);
        assert(s == text::trimmed_end(s) + b);
        b
    } else {
        assert(s + Seq::<char>::empty() == s);
        seq![]
    }
}

/// Blanks, tabs and the ends of lines are white space; letters, digits and the signs of commands
/// are not.
pub proof fn theorem_white_space(c: char)
    ensures
        c == ' ' || c == '\t' || c == '\n' || c == '\r' ==> text::is_white_space(c),
        '!' <= c <= '~' ==> !text::is_white_space(c),
{
}

/// Only the letters from A to Z change their case, and each into its counterpart.
pub proof fn theorem_case(s: Seq<char>, i: int)
    requires
        0 <= i < s.len(),
    ensures
        text::uppercase(s).len() == s.len(),
        text::lowercase(s).len() == s.len(),
        'a' <= s[i] <= 'z' ==> text::uppercase(s)[i] as int == s[i] as int - 32 && text::lowercase(
            s,
        )[i] == s[i],
        'A' <= s[i] <= 'Z' ==> text::lowercase(s)[i] as int == s[i] as int + 32 && text::uppercase(
            s,
        )[i] == s[i],
        !('a' <= s[i] <= 'z') && !('A' <= s[i] <= 'Z') ==> text::uppercase(s)[i] == s[i]
            && text::lowercase(s)[i] == s[i],
{
}

/// What follows the last line end is a line too, and is kept as it is.
pub proof fn theorem_last_line(ls: Seq<Seq<char>>, end: Seq<char>, last: Seq<char>)
    requires
        forall|i: int| 0 <= i < ls.len() ==> is_in_line(#[trigger] ls[i]),
        end == seq!['\n'] || end == seq!['\r', '\n'],
        last.len() > 0,
        !last.contains('\n'),
    ensures
        text::line_list(with_ends(ls, end) + last) == ls.push(last),
    decreases ls.len(),
{
    let s = with_ends(ls, end) + last;
    if ls.len() > 0 {
        assert(is_in_line(ls[0]));
        let rest = ls.skip(1);
        assert forall|i: int| 0 <= i < rest.len() implies is_in_line(#[trigger] rest[i]) by {
            assert(rest[i] == ls[i + 1]);
        }
        theorem_last_line(rest, end, last);
        assert(s == ls[0] + end + (with_ends(rest, end) + last));
        lemma_ended_line(ls[0], end, with_ends(rest, end) + last);
        assert(seq![ls[0]] + rest.push(last) == ls.push(last));
    } else {
        assert(s == last);
        text::lemma_position(last, '\n');
        assert(text::position(last, '\n') == last.len());
        assert(ls.push(last) == seq![last]);
    }
}

/// All quotation marks around a text come off, and those within it stay.
pub proof fn theorem_quotation_marks(s: Seq<char>)
    requires
        s.len() > 0,
        s[0] != '"',
        s.last() != '"',
    ensures
        text::unquoted(s) == s,
        text::unquoted(seq!['"'] + s) == s,
        text::unquoted(s + seq!['"']) == s,
        text::unquoted(seq!['"'] + s + seq!['"']) == s,
        text::unquoted(seq!['"', '"'] + s + seq!['"', '"']) == s,
        text::unquoted(seq!['"', '"']).len() == 0,
{
    reveal_with_fuel(text::unquoted_start, 3);
    reveal_with_fuel(text::unquoted_end, 3);
    assert((seq!['"'] + s).skip(1) == s);
    assert((s + seq!['"']).drop_last() == s);
    text::lemma_unquoted(s);
    let two = seq!['"', '"'];
    let q = two + s + two;
    assert(q.skip(1).skip(1) == s + two);
    assert((s + two)[0] == s[0]);
    assert(text::unquoted_start(q) == s + two);
    assert((s + two).drop_last().drop_last() == s);
    assert(text::unquoted_end(s + two) == s);
    assert(two.skip(1).skip(1) == Seq::<char>::empty());
}

// ---------------------------------------------------------------------------
// Numbers
// ---------------------------------------------------------------------------
/// The digits, of decimal and of hexadecimal numbers, and what each one is worth. Letters are
/// worth the same in either case.
pub proof fn theorem_digits(d: int)
    requires
        0 <= d < 16,
    ensures
        numbers::digit_char(d) == "0123456789abcdef"@[d],
        numbers::digit_value("0123456789abcdef"@[d]) == d,
        numbers::digit_value("0123456789ABCDEF"@[d]) == d,
        forall|c: char|
            !('0' <= c <= '9') && !('a' <= c <= 'f') && !('A' <= c <= 'F')
                ==> #[trigger] numbers::digit_value(c) >= 16,
{
    reveal_strlit("0123456789abcdef");
    reveal_strlit("0123456789ABCDEF");
}

/// Decimal notation: one digit more stands for ten times as much and the digit; a minus sign
/// stands before what is less than zero; a byte takes two digits, the higher one first.
pub proof fn theorem_notation(n: nat, d: nat, b: int)
    requires
        d < 10,
        n > 0,
        0 <= b < 256,
    ensures
        numbers::decimal(d) == seq![numbers::digit_char(d as int)],
        numbers::decimal(10 * n + d) == numbers::decimal(n).push(numbers::digit_char(d as int)),
        numbers::int_text(n as int) == numbers::decimal(n),
        numbers::int_text(-n) == seq!['-'] + numbers::decimal(n),
        numbers::int_text(0) == seq!['0'],
        numbers::hex_pair(b) == seq![
            numbers::digit_char(b / 16),
            numbers::digit_char(b % 16),
        ],
{
    assert((10 * n + d) / 10 == n);
    assert((10 * n + d) % 10 == d);
}

/// How numbers are read: a plus sign before the digits does not matter, nor do zeros; a minus
/// sign is for signed numbers only; and nothing at all is no number.
pub proof fn theorem_reading_numbers(n: nat, max: int)
    requires
        n <= max,
        n < 0x8000_0000_0000_0000,
    ensures
        ({
            let d = numbers::decimal(n);
            &&& numbers::unsigned(d, 10, max) == Some(n as int)
            &&& numbers::unsigned(seq!['+'] + d, 10, max) == Some(n as int)
            &&& numbers::unsigned(seq!['0'] + d, 10, max) == Some(n as int)
            &&& numbers::unsigned(seq!['-'] + d, 10, max) is None
            &&& numbers::unsigned(d, 10, n - 1) is None
            &&& numbers::signed(d) == Some(n as int)
            &&& numbers::signed(seq!['+'] + d) == Some(n as int)
            &&& numbers::signed(seq!['-'] + d) == Some(-(n as int))
            &&& numbers::unsigned(seq![], 10, max) is None
            &&& numbers::signed(seq![]) is None
            &&& numbers::signed(seq!['-']) is None
            &&& numbers::unsigned(seq!['+'], 10, max) is None
        }),
{
    let d = numbers::decimal(n);
    numbers::lemma_decimal(n);
    assert(text::is_digit(d[0]));
    assert(numbers::without_plus(d) == d);
    numbers::lemma_unsigned_of_decimal(n, max);
    numbers::lemma_unsigned_of_decimal(n, n - 1);
    numbers::lemma_unsigned_of_decimal(n, 0x7fff_ffff_ffff_ffff);
    numbers::lemma_unsigned_of_decimal(n, 0x8000_0000_0000_0000);
    let p = seq!['+'] + d;
    assert(p.skip(1) == d);
    let m = seq!['-'] + d;
    assert(m.skip(1) == d);
    assert(numbers::without_plus(m) == m);
    assert(m[0] == '-');
    assert(numbers::digit_value(m[0]) == 99);
    let z = seq!['0'] + d;
    assert(numbers::without_plus(z) == z);
    lemma_leading_zero(d);
    assert forall|i: int| 0 <= i < z.len() implies numbers::digit_value(#[trigger] z[i]) < 10 by {
        if i > 0 {
            assert(z[i] == d[i - 1]);
        }
    }
    assert(seq!['-'].skip(1) == Seq::<char>::empty());
    assert(seq!['+'].skip(1) == Seq::<char>::empty());
}

proof fn lemma_leading_zero(d: Seq<char>)
    ensures
        numbers::value_of(seq!['0'] + d, 10) == numbers::value_of(d, 10),
    decreases d.len(),
{
    let z = seq!['0'] + d;
    if d.len() == 0 {
        assert(z.drop_last() == d);
        reveal_with_fuel(numbers::value_of, 2);
    } else {
        lemma_leading_zero(d.drop_last());
        assert(z.drop_last() == seq!['0'] + d.drop_last());
        assert(z.last() == d.last());
    }
}

} // verus!
