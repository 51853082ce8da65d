//! Plain text as sequences of characters: trimming, searching, splitting.
//!
//! Every operation is given twice, as a mathematical function of `Seq<char>` and as an
//! executable function on `&[char]` that is proved equal to it.

use vstd::prelude::*;
use vstd::slice::*;
use vstd::string::*;
use vstd::utf8::*;

verus! {

// ---------------------------------------------------------------------------
// Characters
// ---------------------------------------------------------------------------
/// The Unicode property `White_Space`.
pub open spec fn is_white_space(c: char) -> bool {
    ||| 0x09 <= c as u32 <= 0x0d
    ||| c as u32 == 0x20
    ||| c as u32 == 0x85
    ||| c as u32 == 0xa0
    ||| c as u32 == 0x1680
    ||| 0x2000 <= c as u32 <= 0x200a
    ||| c as u32 == 0x2028
    ||| c as u32 == 0x2029
    ||| c as u32 == 0x202f
    ||| c as u32 == 0x205f
    ||| c as u32 == 0x3000
}

pub fn white_space(c: char) -> (r: bool)
    ensures
        r == is_white_space(c),
{
    let u: u32 = c as u32;
    (0x09 <= u && u <= 0x0d) || u == 0x20 || u == 0x85 || u == 0xa0 || u == 0x1680 || (0x2000 <= u
        && u <= 0x200a) || u == 0x2028 || u == 0x2029 || u == 0x202f || u == 0x205f || u == 0x3000
}

/// `0` to `9`.
pub open spec fn is_digit(c: char) -> bool {
    '0' <= c <= '9'
}

/// A digit, or a letter from `a` to `f` in either case.
pub open spec fn is_hex_digit(c: char) -> bool {
    ('0' <= c <= '9') || ('a' <= c <= 'f') || ('A' <= c <= 'F')
}

/// An ASCII letter or digit.
pub open spec fn is_alphanumeric(c: char) -> bool {
    ('0' <= c <= '9') || ('a' <= c <= 'z') || ('A' <= c <= 'Z')
}

pub fn digit(c: char) -> (r: bool)
    ensures
        r == is_digit(c),
{
    '0' <= c && c <= '9'
}

pub fn hex_digit(c: char) -> (r: bool)
    ensures
        r == is_hex_digit(c),
{
    ('0' <= c && c <= '9') || ('a' <= c && c <= 'f') || ('A' <= c && c <= 'F')
}

pub fn alphanumeric(c: char) -> (r: bool)
    ensures
        r == is_alphanumeric(c),
{
    ('0' <= c && c <= '9') || ('a' <= c && c <= 'z') || ('A' <= c && c <= 'Z')
}

/// The upper-case form of an ASCII letter; any other character stays.
pub open spec fn upper_char(c: char) -> char {
    if 'a' <= c <= 'z' {
        (c as u8 - 32) as char
    } else {
        c
    }
}

/// The lower-case form of an ASCII letter; any other character stays.
pub open spec fn lower_char(c: char) -> char {
    if 'A' <= c <= 'Z' {
        (c as u8 + 32) as char
    } else {
        c
    }
}

pub fn raise(c: char) -> (r: char)
    ensures
        r == upper_char(c),
{
    if 'a' <= c && c <= 'z' {
        (c as u8 - 32) as char
    } else {
        c
    }
}

pub fn lower(c: char) -> (r: char)
    ensures
        r == lower_char(c),
{
    if 'A' <= c && c <= 'Z' {
        (c as u8 + 32) as char
    } else {
        c
    }
}

pub open spec fn uppercase(s: Seq<char>) -> Seq<char> {
    Seq::new(s.len(), |i: int| upper_char(s[i]))
}

pub open spec fn lowercase(s: Seq<char>) -> Seq<char> {
    Seq::new(s.len(), |i: int| lower_char(s[i]))
}

pub fn to_upper(s: &[char]) -> (r: Vec<char>)
    ensures
        r@ == uppercase(s@),
{
    let mut out: Vec<char> = Vec::new();
    let mut i: usize = 0;
    while i < s.len()
        invariant
            i <= s.len(),
            out@ == uppercase(s@).take(i as int),
        decreases s.len() - i,
    {
        out.push(raise(s[i]));
        i += 1;
        assert(out@ == uppercase(s@).take(i as int));
    }
    assert(uppercase(s@).take(i as int) == uppercase(s@));
    out
}

pub fn to_lower(s: &[char]) -> (r: Vec<char>)
    ensures
        r@ == lowercase(s@),
{
    let mut out: Vec<char> = Vec::new();
    let mut i: usize = 0;
    while i < s.len()
        invariant
            i <= s.len(),
            out@ == lowercase(s@).take(i as int),
        decreases s.len() - i,
    {
        out.push(lower(s[i]));
        i += 1;
        assert(out@ == lowercase(s@).take(i as int));
    }
    assert(lowercase(s@).take(i as int) == lowercase(s@));
    out
}

// ---------------------------------------------------------------------------
// Strings and character sequences
// ---------------------------------------------------------------------------
/// `String::push` appends one character at the end of the string.
pub assume_specification[ String::push ](s: &mut String, c: char)
    ensures
        final(s)@ == old(s)@.push(c),
;

/// The characters of a string.
pub fn chars_of(s: &str) -> (r: Vec<char>)
    ensures
        r@ == s@,
{
    let mut out: Vec<char> = Vec::new();
    for c in it: s.chars()
        invariant
            out@ == s@.take(it.index()),
            it.seq() == s@,
    {
        out.push(c);
        assert(s@.take(it.index() + 1) == s@.take(it.index()).push(c));
    }
    assert(s@.take(s@.len() as int) == s@);
    out
}

/// The string with the given characters.
pub fn string_of(s: &[char]) -> (r: String)
    ensures
        r@ == s@,
{
    let mut out = String::new();
    let mut i: usize = 0;
    while i < s.len()
        invariant
            i <= s.len(),
            out@ == s@.take(i as int),
        decreases s.len() - i,
    {
        out.push(s[i]);
        assert(s@.take(i + 1) == s@.take(i as int).push(s@[i as int]));
        i += 1;
    }
    assert(s@.take(i as int) == s@);
    out
}

/// What `String::from_utf8_lossy` makes of bytes that are not valid UTF-8.
pub uninterp spec fn repaired_text(bytes: Seq<u8>) -> Seq<char>;

/// The text that bytes stand for: what they encode, where they are valid UTF-8.
pub open spec fn lossy_text(bytes: Seq<u8>) -> Seq<char> {
    if valid_utf8(bytes) {
        decode_utf8(bytes)
    } else {
        repaired_text(bytes)
    }
}

/// `String::from_utf8_lossy` decodes valid UTF-8 as it stands. On other bytes the result depends
/// on the bytes alone; how it looks there (which parts become U+FFFD) is left unsaid.
#[verifier::external_body]
pub(crate) fn from_utf8_lossy(bytes: &[u8]) -> (r: String)
    ensures
        r@ == (if valid_utf8(bytes@) {
            decode_utf8(bytes@)
        } else {
            repaired_text(bytes@)
        }),
{
    String::from_utf8_lossy(bytes).into_owned()
}

/// Append the characters of `s`.
pub fn add_chars(out: &mut Vec<char>, s: &[char])
    ensures
        final(out)@ == old(out)@ + s@,
{
    let mut i: usize = 0;
    while i < s.len()
        invariant
            i <= s.len(),
            out@ == old(out)@ + s@.take(i as int),
        decreases s.len() - i,
    {
        out.push(s[i]);
        assert(s@.take(i + 1) == s@.take(i as int).push(s@[i as int]));
        i += 1;
    }
    assert(s@.take(i as int) == s@);
}

/// Append the characters of the string `s`.
pub fn add_str(out: &mut Vec<char>, s: &str)
    ensures
        final(out)@ == old(out)@ + s@,
{
    let cs = chars_of(s);
    add_chars(out, cs.as_slice());
}

pub fn same(a: &[char], b: &[char]) -> (r: bool)
    ensures
        r == (a@ == b@),
{
    if a.len() != b.len() {
        return false;
    }
    let mut i: usize = 0;
    while i < a.len()
        invariant
            a.len() == b.len(),
            i <= a.len(),
            a@.take(i as int) == b@.take(i as int),
        decreases a.len() - i,
    {
        if a[i] != b[i] {
            assert(a@[i as int] != b@[i as int]);
            return false;
        }
        assert(a@.take(i + 1) == a@.take(i as int).push(a@[i as int]));
        assert(b@.take(i + 1) == b@.take(i as int).push(b@[i as int]));
        i += 1;
    }
    assert(a@.take(i as int) == a@);
    assert(b@.take(i as int) == b@);
    true
}

/// Whether `s` reads as the string `lit`.
pub fn reads(s: &[char], lit: &str) -> (r: bool)
    ensures
        r == (s@ == lit@),
{
    let cs = chars_of(lit);
    same(s, cs.as_slice())
}

/// Whether `s` begins with the string `lit`.
pub fn starts(s: &[char], lit: &str) -> (r: bool)
    ensures
        r == lit@.is_prefix_of(s@),
{
    let cs = chars_of(lit);
    if s.len() < cs.len() {
        return false;
    }
    let head = slice_subrange(s, 0, cs.len());
    assert(lit@.is_prefix_of(s@) <==> head@ == lit@);
    same(head, cs.as_slice())
}

/// What follows `prefix` in `s`, if `s` begins with it.
pub open spec fn after_prefix(s: Seq<char>, prefix: Seq<char>) -> Option<Seq<char>> {
    if prefix.is_prefix_of(s) {
        Some(s.skip(prefix.len() as int))
    } else {
        None
    }
}

pub fn strip_prefix<'a>(s: &'a [char], lit: &str) -> (r: Option<&'a [char]>)
    ensures
        match r {
            Some(t) => after_prefix(s@, lit@) == Some(t@),
            None => after_prefix(s@, lit@) is None,
        },
{
    if starts(s, lit) {
        let n: usize = chars_of(lit).len();
        let t = slice_subrange(s, n, s.len());
        assert(t@ == s@.skip(n as int));
        Some(t)
    } else {
        None
    }
}

/// Equality that takes no notice of the case of ASCII letters.
pub open spec fn same_ignoring_case(a: Seq<char>, b: Seq<char>) -> bool {
    lowercase(a) == lowercase(b)
}

pub fn equal_ignoring_case(a: &[char], b: &[char]) -> (r: bool)
    ensures
        r == same_ignoring_case(a@, b@),
{
    let x = to_lower(a);
    let y = to_lower(b);
    same(x.as_slice(), y.as_slice())
}

// ---------------------------------------------------------------------------
// Trimming
// ---------------------------------------------------------------------------
/// `s` without the white space at its start.
pub open spec fn trimmed_start(s: Seq<char>) -> Seq<char>
    decreases s.len(),
{
    if s.len() > 0 && is_white_space(s[0]) {
        trimmed_start(s.skip(1))
    } else {
        s
    }
}

/// `s` without the white space at its end.
pub open spec fn trimmed_end(s: Seq<char>) -> Seq<char>
    decreases s.len(),
{
    if s.len() > 0 && is_white_space(s.last()) {
        trimmed_end(s.drop_last())
    } else {
        s
    }
}

/// `s` without the white space around it.
pub open spec fn trimmed(s: Seq<char>) -> Seq<char> {
    trimmed_end(trimmed_start(s))
}

pub fn trim_start<'a>(s: &'a [char]) -> (r: &'a [char])
    ensures
        r@ == trimmed_start(s@),
{
    let mut i: usize = 0;
    assert(s@.skip(0) == s@);
    while i < s.len() && white_space(s[i])
        invariant
            i <= s.len(),
            trimmed_start(s@) == trimmed_start(s@.skip(i as int)),
        decreases s.len() - i,
    {
        assert(s@.skip(i as int).skip(1) == s@.skip(i + 1));
        i += 1;
    }
    let r = slice_subrange(s, i, s.len());
    assert(r@ == s@.skip(i as int));
    r
}

pub fn trim_end<'a>(s: &'a [char]) -> (r: &'a [char])
    ensures
        r@ == trimmed_end(s@),
{
    let mut n: usize = s.len();
    assert(s@.take(n as int) == s@);
    while n > 0 && white_space(s[n - 1])
        invariant
            n <= s.len(),
            trimmed_end(s@) == trimmed_end(s@.take(n as int)),
        decreases n,
    {
        assert(s@.take(n as int).drop_last() == s@.take(n - 1));
        n -= 1;
    }
    let r = slice_subrange(s, 0, n);
    assert(r@ == s@.take(n as int));
    r
}

pub fn trim<'a>(s: &'a [char]) -> (r: &'a [char])
    ensures
        r@ == trimmed(s@),
{
    trim_end(trim_start(s))
}

/// Text that neither begins nor ends with white space is left as it is.
pub proof fn lemma_trimmed_of_plain(s: Seq<char>)
    requires
        s.len() > 0 ==> !is_white_space(s[0]) && !is_white_space(s.last()),
    ensures
        trimmed_start(s) == s,
        trimmed_end(s) == s,
        trimmed(s) == s,
{
}

/// `s` without the quotation marks at its start.
pub open spec fn unquoted_start(s: Seq<char>) -> Seq<char>
    decreases s.len(),
{
    if s.len() > 0 && s[0] == '"' {
        unquoted_start(s.skip(1))
    } else {
        s
    }
}

/// `s` without the quotation marks at its end.
pub open spec fn unquoted_end(s: Seq<char>) -> Seq<char>
    decreases s.len(),
{
    if s.len() > 0 && s.last() == '"' {
        unquoted_end(s.drop_last())
    } else {
        s
    }
}

/// `s` without the quotation marks around it.
pub open spec fn unquoted(s: Seq<char>) -> Seq<char> {
    unquoted_end(unquoted_start(s))
}

/// Quotation marks around a text without any at its ends come off.
pub proof fn lemma_unquoted(s: Seq<char>)
    requires
        s.len() > 0,
        s[0] != '"',
        s.last() != '"',
    ensures
        unquoted(seq!['"'] + s + seq!['"']) == s,
{
    let q = seq!['"'] + s + seq!['"'];
    let t = s + seq!['"'];
    assert(q.skip(1) == t);
    reveal_with_fuel(unquoted_start, 2);
    assert(unquoted_start(q) == t);
    assert(t.drop_last() == s);
    reveal_with_fuel(unquoted_end, 2);
}

pub fn unquote<'a>(s: &'a [char]) -> (r: &'a [char])
    ensures
        r@ == unquoted(s@),
{
    let mut i: usize = 0;
    assert(s@.skip(0) == s@);
    while i < s.len() && s[i] == '"'
        invariant
            i <= s.len(),
            unquoted_start(s@) == unquoted_start(s@.skip(i as int)),
        decreases s.len() - i,
    {
        assert(s@.skip(i as int).skip(1) == s@.skip(i + 1));
        i += 1;
    }
    let mut n: usize = s.len();
    let ghost t = s@.skip(i as int);
    assert(unquoted_start(s@) == t);
    assert(s@.subrange(i as int, n as int) == t);
    while n > i && s[n - 1] == '"'
        invariant
            i <= n <= s.len(),
            unquoted_end(t) == unquoted_end(s@.subrange(i as int, n as int)),
        decreases n,
    {
        assert(s@.subrange(i as int, n as int).drop_last() == s@.subrange(i as int, n - 1));
        n -= 1;
    }
    slice_subrange(s, i, n)
}

// ---------------------------------------------------------------------------
// Searching
// ---------------------------------------------------------------------------
/// The index of the first `c` in `s`, or the length of `s` if there is none.
pub open spec fn position(s: Seq<char>, c: char) -> int
    decreases s.len(),
{
    if s.len() == 0 || s[0] == c {
        0
    } else {
        1 + position(s.skip(1), c)
    }
}

pub proof fn lemma_position(s: Seq<char>, c: char)
    ensures
        0 <= position(s, c) <= s.len(),
        position(s, c) < s.len() ==> s[position(s, c)] == c,
        forall|j: int| 0 <= j < position(s, c) ==> s[j] != c,
    decreases s.len(),
{
    if s.len() > 0 && s[0] != c {
        lemma_position(s.skip(1), c);
        assert forall|j: int| 0 <= j < position(s, c) implies s[j] != c by {
            if j > 0 {
                assert(s[j] == s.skip(1)[j - 1]);
            }
        }
    }
}

/// The only index with a `c` at it and none before is the position of `c`.
pub proof fn lemma_position_is(s: Seq<char>, c: char, i: int)
    requires
        0 <= i <= s.len(),
        i < s.len() ==> s[i] == c,
        forall|j: int| 0 <= j < i ==> s[j] != c,
    ensures
        position(s, c) == i,
{
    lemma_position(s, c);
    let p = position(s, c);
    if p < i {
        assert(s[p] != c);
    }
}

pub fn find_char(s: &[char], c: char) -> (r: Option<usize>)
    ensures
        match r {
            Some(i) => i < s.len() && position(s@, c) == i,
            None => position(s@, c) == s.len(),
        },
{
    let mut i: usize = 0;
    while i < s.len()
        invariant
            i <= s.len(),
            forall|j: int| 0 <= j < i ==> s@[j] != c,
        decreases s.len() - i,
    {
        if s[i] == c {
            proof {
                lemma_position_is(s@, c, i as int);
            }
            return Some(i);
        }
        i += 1;
    }
    proof {
        lemma_position_is(s@, c, i as int);
    }
    None
}

/// The index of the last `c` in `s`, or -1 if there is none.
pub open spec fn last_position(s: Seq<char>, c: char) -> int
    decreases s.len(),
{
    if s.len() == 0 || s.last() == c {
        s.len() - 1
    } else {
        last_position(s.drop_last(), c)
    }
}

pub fn find_last_char(s: &[char], c: char) -> (r: Option<usize>)
    ensures
        match r {
            Some(i) => i < s.len() && last_position(s@, c) == i,
            None => last_position(s@, c) == -1,
        },
{
    let mut n: usize = s.len();
    assert(s@.take(n as int) == s@);
    while n > 0
        invariant
            n <= s.len(),
            last_position(s@, c) == last_position(s@.take(n as int), c),
        decreases n,
    {
        if s[n - 1] == c {
            return Some(n - 1);
        }
        assert(s@.take(n as int).drop_last() == s@.take(n - 1));
        n -= 1;
    }
    None
}

/// The index at which `pat` first occurs in `s`.
pub open spec fn occurrence(s: Seq<char>, pat: Seq<char>) -> Option<int>
    decreases s.len(),
{
    if pat.is_prefix_of(s) {
        Some(0)
    } else if s.len() == 0 {
        None
    } else {
        match occurrence(s.skip(1), pat) {
            Some(i) => Some(i + 1),
            None => None,
        }
    }
}

/// Whether `pat` occurs in `s`.
pub open spec fn occurs(s: Seq<char>, pat: Seq<char>) -> bool {
    occurrence(s, pat) is Some
}

pub proof fn lemma_occurrence(s: Seq<char>, pat: Seq<char>)
    ensures
        match occurrence(s, pat) {
            Some(i) => {
                &&& 0 <= i
                &&& i + pat.len() <= s.len()
                &&& s.subrange(i, i + pat.len()) == pat
                &&& forall|j: int| 0 <= j < i ==> !pat.is_prefix_of(#[trigger] s.skip(j))
            },
            None => forall|j: int| 0 <= j <= s.len() ==> !pat.is_prefix_of(#[trigger] s.skip(j)),
        },
    decreases s.len(),
{
    assert(s.skip(0) == s);
    if pat.is_prefix_of(s) {
        assert(s.subrange(0, pat.len() as int) == pat);
    } else if s.len() > 0 {
        lemma_occurrence(s.skip(1), pat);
        let rest = s.skip(1);
        assert forall|j: int| 1 <= j <= s.len() implies #[trigger] s.skip(j) == rest.skip(j - 1) by {}
        match occurrence(rest, pat) {
            Some(i) => {
                assert(s.subrange(i + 1, i + 1 + pat.len()) == rest.subrange(i, i + pat.len()));
                assert forall|j: int| 0 <= j < i + 1 implies !pat.is_prefix_of(
                    #[trigger] s.skip(j),
                ) by {
                    if j > 0 {
                        assert(!pat.is_prefix_of(rest.skip(j - 1)));
                    }
                }
            },
            None => {
                assert forall|j: int| 0 <= j <= s.len() implies !pat.is_prefix_of(
                    #[trigger] s.skip(j),
                ) by {
                    if j > 0 {
                        assert(!pat.is_prefix_of(rest.skip(j - 1)));
                    }
                }
            },
        }
    }
}

pub fn find_text(s: &[char], pat: &str) -> (r: Option<usize>)
    ensures
        match r {
            Some(i) => i + pat@.len() <= s.len() && occurrence(s@, pat@) == Some(i as int),
            None => occurrence(s@, pat@) is None,
        },
{
    let p = chars_of(pat);
    let mut i: usize = 0;
    assert(s@.skip(0) == s@);
    while i <= s.len()
        invariant
            p@ == pat@,
            i <= s.len() + 1,
            i <= s.len() ==> match occurrence(s@.skip(i as int), pat@) {
                Some(k) => occurrence(s@, pat@) == Some(k + i),
                None => occurrence(s@, pat@) is None,
            },
            i > s.len() ==> occurrence(s@, pat@) is None,
        decreases s.len() + 1 - i,
    {
        if s.len() - i < p.len() {
            proof {
                lemma_occurrence(s@.skip(i as int), pat@);
            }
            return None;
        }
        let here = slice_subrange(s, i, i + p.len());
        let ghost rest = s@.skip(i as int);
        assert(pat@.is_prefix_of(rest) <==> here@ == pat@) by {
            assert(rest.subrange(0, pat@.len() as int) == here@);
        }
        if same(here, p.as_slice()) {
            return Some(i);
        }
        if i == s.len() {
            return None;
        }
        assert(rest.skip(1) == s@.skip(i + 1));
        i += 1;
    }
    None
}

pub fn contains(s: &[char], pat: &str) -> (r: bool)
    ensures
        r == occurs(s@, pat@),
{
    find_text(s, pat).is_some()
}

// ---------------------------------------------------------------------------
// Splitting
// ---------------------------------------------------------------------------
/// The character sequences that a sequence of slices holds.
pub open spec fn slices(v: Seq<&[char]>) -> Seq<Seq<char>> {
    Seq::new(v.len(), |i: int| v[i]@)
}

/// The parts of `s` before and after its first `c`.
pub open spec fn halves(s: Seq<char>, c: char) -> Option<(Seq<char>, Seq<char>)> {
    let i = position(s, c);
    if i < s.len() {
        Some((s.take(i), s.skip(i + 1)))
    } else {
        None
    }
}

pub fn split_once<'a>(s: &'a [char], c: char) -> (r: Option<(&'a [char], &'a [char])>)
    ensures
        match r {
            Some((a, b)) => halves(s@, c) == Some((a@, b@)),
            None => halves(s@, c) is None,
        },
{
    match find_char(s, c) {
        Some(i) => {
            let a = slice_subrange(s, 0, i);
            let b = slice_subrange(s, i + 1, s.len());
            assert(a@ == s@.take(i as int));
            assert(b@ == s@.skip(i + 1));
            Some((a, b))
        },
        None => None,
    }
}

/// How many digits `s` begins with.
pub open spec fn digit_run(s: Seq<char>) -> nat
    decreases s.len(),
{
    if s.len() > 0 && is_digit(s[0]) {
        1 + digit_run(s.skip(1))
    } else {
        0
    }
}

/// The number of digits that `s` holds from the index `from` on.
pub fn count_digits(s: &[char], from: usize) -> (r: usize)
    requires
        from <= s.len(),
    ensures
        r == digit_run(s@.skip(from as int)),
        from + r <= s.len(),
{
    let mut i: usize = from;
    while i < s.len() && digit(s[i])
        invariant
            from <= i <= s.len(),
            digit_run(s@.skip(from as int)) == (i - from) + digit_run(s@.skip(i as int)),
        decreases s.len() - i,
    {
        assert(s@.skip(i as int).skip(1) == s@.skip(i + 1));
        i += 1;
    }
    i - from
}

/// The pieces of `s` between the separators `c`.
pub open spec fn pieces(s: Seq<char>, c: char) -> Seq<Seq<char>>
    decreases s.len(),
{
    let i = position(s, c);
    if 0 <= i < s.len() {
        seq![s.take(i)] + pieces(s.skip(i + 1), c)
    } else {
        seq![s]
    }
}

/// A text without the separator and what follows it after one are pieces apart.
pub proof fn lemma_piece(a: Seq<char>, c: char, rest: Seq<char>)
    requires
        !a.contains(c),
    ensures
        pieces(a + seq![c] + rest, c) == seq![a] + pieces(rest, c),
        pieces(a, c) == seq![a],
        halves(a + seq![c] + rest, c) == Some((a, rest)),
{
    let t = a + seq![c] + rest;
    assert forall|j: int| 0 <= j < a.len() implies t[j] != c && a[j] != c by {
        assert(t[j] == a[j]);
    }
    assert(t[a.len() as int] == c);
    lemma_position_is(t, c, a.len() as int);
    lemma_position_is(a, c, a.len() as int);
    assert(t.take(a.len() as int) == a);
    assert(t.skip(a.len() as int + 1) == rest);
}

/// The pieces before a separator and those after it are the pieces together.
pub proof fn lemma_pieces_concat(a: Seq<char>, c: char, rest: Seq<char>)
    ensures
        pieces(a + seq![c] + rest, c) == pieces(a, c) + pieces(rest, c),
    decreases a.len(),
{
    let t = a + seq![c] + rest;
    lemma_position(a, c);
    let i = position(a, c);
    if i < a.len() {
        assert forall|j: int| 0 <= j < i implies t[j] != c by {
            assert(t[j] == a[j]);
        }
        assert(t[i] == a[i]);
        lemma_position_is(t, c, i);
        assert(t.take(i) == a.take(i));
        assert(t.skip(i + 1) == a.skip(i + 1) + seq![c] + rest);
        lemma_pieces_concat(a.skip(i + 1), c, rest);
        assert(pieces(t, c) == seq![a.take(i)] + (pieces(a.skip(i + 1), c) + pieces(rest, c)));
        assert(pieces(t, c) == pieces(a, c) + pieces(rest, c));
    } else {
        assert(!a.contains(c)) by {
            assert forall|j: int| 0 <= j < a.len() implies a[j] != c by {}
        }
        lemma_piece(a, c, rest);
    }
}

pub fn split_char<'a>(s: &'a [char], c: char) -> (r: Vec<&'a [char]>)
    ensures
        slices(r@) == pieces(s@, c),
        r.len() >= 1,
{
    let mut out: Vec<&'a [char]> = Vec::new();
    let mut rest: &'a [char] = s;
    assert(slices(out@) + pieces(rest@, c) == pieces(s@, c));
    loop
        invariant
            slices(out@) + pieces(rest@, c) == pieces(s@, c),
        decreases rest.len(),
    {
        proof {
            lemma_position(rest@, c);
        }
        match split_once(rest, c) {
            Some((a, b)) => {
                let ghost before = slices(out@);
                out.push(a);
                assert(slices(out@) == before.push(a@));
                assert(before + (seq![a@] + pieces(b@, c)) == before.push(a@) + pieces(b@, c));
                rest = b;
            },
            None => {
                let ghost before = slices(out@);
                out.push(rest);
                assert(slices(out@) == before.push(rest@));
                assert(before + seq![rest@] == before.push(rest@));
                return out;
            },
        }
    }
}

/// A line without the carriage return that precedes its line feed.
pub open spec fn without_return(s: Seq<char>) -> Seq<char> {
    if s.len() > 0 && s.last() == '\r' {
        s.drop_last()
    } else {
        s
    }
}

/// The lines of `s`: each ends with a line feed, or with a carriage return and a line feed,
/// and the last one may end without.
pub open spec fn line_list(s: Seq<char>) -> Seq<Seq<char>>
    decreases s.len(),
{
    let i = position(s, '\n');
    if s.len() == 0 {
        seq![]
    } else if 0 <= i < s.len() {
        seq![without_return(s.take(i))] + line_list(s.skip(i + 1))
    } else {
        seq![s]
    }
}

/// A line and what follows it after a line feed are lines apart.
pub proof fn lemma_line(a: Seq<char>, rest: Seq<char>)
    requires
        !a.contains('\n'),
        a.len() > 0 ==> a.last() != '\r',
    ensures
        line_list(a + seq!['\n'] + rest) == seq![a] + line_list(rest),
        a.len() > 0 ==> line_list(a) == seq![a],
{
    let t = a + seq!['\n'] + rest;
    assert forall|j: int| 0 <= j < a.len() implies t[j] != '\n' && a[j] != '\n' by {
        assert(t[j] == a[j]);
    }
    assert(t[a.len() as int] == '\n');
    lemma_position_is(t, '\n', a.len() as int);
    lemma_position_is(a, '\n', a.len() as int);
    assert(t.take(a.len() as int) == a);
    assert(t.skip(a.len() as int + 1) == rest);
}

pub fn lines<'a>(s: &'a [char]) -> (r: Vec<&'a [char]>)
    ensures
        slices(r@) == line_list(s@),
{
    let mut out: Vec<&'a [char]> = Vec::new();
    let mut rest: &'a [char] = s;
    assert(slices(out@) + line_list(rest@) == line_list(s@));
    while rest.len() > 0
        invariant
            slices(out@) + line_list(rest@) == line_list(s@),
        decreases rest.len(),
    {
        proof {
            lemma_position(rest@, '\n');
        }
        let ghost before = slices(out@);
        match split_once(rest, '\n') {
            Some((a, b)) => {
                let n: usize = a.len();
                let a2 = if n > 0 && a[n - 1] == '\r' {
                    slice_subrange(a, 0, n - 1)
                } else {
                    a
                };
                assert(a2@ == without_return(a@));
                out.push(a2);
                assert(slices(out@) == before.push(a2@));
                assert(before + (seq![a2@] + line_list(b@)) == before.push(a2@) + line_list(b@));
                rest = b;
            },
            None => {
                out.push(rest);
                assert(slices(out@) == before.push(rest@));
                assert(before + seq![rest@] == before.push(rest@));
                return out;
            },
        }
    }
    assert(slices(out@) + line_list(rest@) == slices(out@));
    out
}

/// The index of the first white space in `s`, or the length of `s` if there is none.
pub open spec fn white_position(s: Seq<char>) -> int
    decreases s.len(),
{
    if s.len() == 0 || is_white_space(s[0]) {
        0
    } else {
        1 + white_position(s.skip(1))
    }
}

pub proof fn lemma_white_position(s: Seq<char>)
    ensures
        0 <= white_position(s) <= s.len(),
        white_position(s) < s.len() ==> is_white_space(s[white_position(s)]),
        forall|j: int| 0 <= j < white_position(s) ==> !is_white_space(s[j]),
    decreases s.len(),
{
    if s.len() > 0 && !is_white_space(s[0]) {
        lemma_white_position(s.skip(1));
        assert forall|j: int| 0 <= j < white_position(s) implies !is_white_space(s[j]) by {
            if j > 0 {
                assert(s[j] == s.skip(1)[j - 1]);
            }
        }
    }
}

pub proof fn lemma_trimmed_start_len(s: Seq<char>)
    ensures
        trimmed_start(s).len() <= s.len(),
        trimmed_start(s).len() > 0 ==> !is_white_space(trimmed_start(s)[0]),
    decreases s.len(),
{
    if s.len() > 0 && is_white_space(s[0]) {
        lemma_trimmed_start_len(s.skip(1));
    }
}

/// The words of `s`: what stands between its runs of white space.
pub open spec fn words(s: Seq<char>) -> Seq<Seq<char>>
    decreases s.len(),
{
    let t = trimmed_start(s);
    let i = white_position(t);
    if 0 < i <= t.len() <= s.len() {
        seq![t.take(i)] + words(t.skip(i))
    } else {
        seq![]
    }
}

/// A word and what follows it after white space are words apart.
pub proof fn lemma_word(a: Seq<char>, rest: Seq<char>)
    requires
        a.len() > 0,
        forall|i: int| 0 <= i < a.len() ==> !is_white_space(#[trigger] a[i]),
        rest.len() > 0 ==> is_white_space(rest[0]),
    ensures
        words(a + rest) == seq![a] + words(rest),
{
    let t = a + rest;
    assert(t[0] == a[0]);
    assert(trimmed_start(t) == t);
    lemma_white_position(t);
    let i = white_position(t);
    if i < a.len() {
        assert(t[i] == a[i]);
    } else if i > a.len() {
        assert(t[a.len() as int] == rest[0]);
    }
    assert(t.take(i) == a);
    assert(t.skip(i) == rest);
}

/// White space before the words does not count.
pub proof fn lemma_blank(c: char, rest: Seq<char>)
    requires
        is_white_space(c),
    ensures
        words(seq![c] + rest) == words(rest),
{
    assert((seq![c] + rest).skip(1) == rest);
    lemma_trimmed_start_len(rest);
}

pub fn split_words<'a>(s: &'a [char]) -> (r: Vec<&'a [char]>)
    ensures
        slices(r@) == words(s@),
{
    let mut out: Vec<&'a [char]> = Vec::new();
    let mut rest: &'a [char] = s;
    assert(slices(out@) + words(rest@) == words(s@));
    loop
        invariant
            slices(out@) + words(rest@) == words(s@),
        decreases rest.len(),
    {
        let t = trim_start(rest);
        proof {
            lemma_trimmed_start_len(rest@);
            lemma_white_position(t@);
        }
        if t.len() == 0 {
            assert(slices(out@) + words(rest@) == slices(out@));
            return out;
        }
        let mut i: usize = 0;
        assert(t@.skip(0) == t@);
        while i < t.len() && !white_space(t[i])
            invariant
                i <= t.len(),
                white_position(t@) == i + white_position(t@.skip(i as int)),
            decreases t.len() - i,
        {
            assert(t@.skip(i as int).skip(1) == t@.skip(i + 1));
            i += 1;
        }
        let ghost before = slices(out@);
        let a = slice_subrange(t, 0, i);
        let b = slice_subrange(t, i, t.len());
        assert(a@ == t@.take(i as int));
        assert(b@ == t@.skip(i as int));
        out.push(a);
        assert(slices(out@) == before.push(a@));
        assert(before + (seq![a@] + words(b@)) == before.push(a@) + words(b@));
        rest = b;
    }
}

/// The parts of `s` between the occurrences of `pat`, found from the left.
pub open spec fn sections(s: Seq<char>, pat: Seq<char>) -> Seq<Seq<char>>
    decreases s.len(),
{
    match occurrence(s, pat) {
        Some(i) => if 0 <= i && 0 < pat.len() && i + pat.len() <= s.len() {
            seq![s.take(i)] + sections(s.skip(i + pat.len()), pat)
        } else {
            seq![s]
        },
        None => seq![s],
    }
}

pub fn split_text<'a>(s: &'a [char], pat: &str) -> (r: Vec<&'a [char]>)
    requires
        pat@.len() > 0,
    ensures
        slices(r@) == sections(s@, pat@),
        r.len() >= 1,
{
    let n: usize = chars_of(pat).len();
    let mut out: Vec<&'a [char]> = Vec::new();
    let mut rest: &'a [char] = s;
    assert(slices(out@) + sections(rest@, pat@) == sections(s@, pat@));
    loop
        invariant
            n == pat@.len(),
            n > 0,
            slices(out@) + sections(rest@, pat@) == sections(s@, pat@),
        decreases rest.len(),
    {
        let ghost before = slices(out@);
        match find_text(rest, pat) {
            Some(i) => {
                let a = slice_subrange(rest, 0, i);
                let b = slice_subrange(rest, i + n, rest.len());
                assert(a@ == rest@.take(i as int));
                assert(b@ == rest@.skip(i + n));
                out.push(a);
                assert(slices(out@) == before.push(a@));
                assert(before + (seq![a@] + sections(b@, pat@)) == before.push(a@) + sections(
                    b@,
                    pat@,
                ));
                rest = b;
            },
            None => {
                out.push(rest);
                assert(slices(out@) == before.push(rest@));
                assert(before + seq![rest@] == before.push(rest@));
                return out;
            },
        }
    }
}

// ---------------------------------------------------------------------------
// Joining
// ---------------------------------------------------------------------------
/// The parts one after another, with `sep` between neighbours.
pub open spec fn joined(parts: Seq<Seq<char>>, sep: Seq<char>) -> Seq<char>
    decreases parts.len(),
{
    if parts.len() == 0 {
        seq![]
    } else if parts.len() == 1 {
        parts[0]
    } else {
        joined(parts.drop_last(), sep) + sep + parts.last()
    }
}

pub fn join(parts: &Vec<&[char]>, sep: &str) -> (r: Vec<char>)
    ensures
        r@ == joined(slices(parts@), sep@),
{
    let mut out: Vec<char> = Vec::new();
    let mut i: usize = 0;
    let ghost all = slices(parts@);
    while i < parts.len()
        invariant
            all == slices(parts@),
            i <= parts.len(),
            out@ == joined(all.take(i as int), sep@),
        decreases parts.len() - i,
    {
        let ghost next = all.take(i + 1);
        assert(next.drop_last() == all.take(i as int));
        if i > 0 {
            add_str(&mut out, sep);
        }
        add_chars(&mut out, parts[i]);
        assert(out@ == joined(next, sep@));
        i += 1;
    }
    assert(all.take(i as int) == all);
    out
}

/// The first of some lines that holds `pat`.
pub open spec fn line_with(ls: Seq<Seq<char>>, pat: Seq<char>) -> Option<Seq<char>>
    decreases ls.len(),
{
    if ls.len() == 0 {
        None
    } else if occurs(ls[0], pat) {
        Some(ls[0])
    } else {
        line_with(ls.skip(1), pat)
    }
}

/// The first line of `s` that holds `pat`.
pub fn find_line<'a>(s: &'a [char], pat: &str) -> (r: Option<&'a [char]>)
    ensures
        match r {
            Some(l) => line_with(line_list(s@), pat@) == Some(l@),
            None => line_with(line_list(s@), pat@) is None,
        },
{
    let ls = lines(s);
    let ghost all = slices(ls@);
    let mut i: usize = 0;
    assert(all.skip(0) == all);
    while i < ls.len()
        invariant
            all == slices(ls@),
            all == line_list(s@),
            i <= ls.len(),
            line_with(all.skip(i as int), pat@) == line_with(all, pat@),
        decreases ls.len() - i,
    {
        assert(all.skip(i as int)[0] == ls@[i as int]@);
        assert(all.skip(i as int).skip(1) == all.skip(i + 1));
        if contains(ls[i], pat) {
            return Some(ls[i]);
        }
        i += 1;
    }
    None
}

} // verus!
