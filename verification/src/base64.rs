//! Base64, as HTTP uses it for credentials.

use crate::text;
use vstd::prelude::*;
use vstd::utf8::*;

verus! {

/// The value of a base64 digit, or -1 for any other byte.
pub open spec fn sextet(c: u8) -> int {
    if 0x41 <= c <= 0x5a {
        c - 0x41
    } else if 0x61 <= c <= 0x7a {
        c - 0x61 + 26
    } else if 0x30 <= c <= 0x39 {
        c - 0x30 + 52
    } else if c == 0x2b {
        62
    } else if c == 0x2f {
        63
    } else {
        -1
    }
}

/// ASCII white space: space, tab, line feed, form feed, carriage return.
pub open spec fn is_blank(c: u8) -> bool {
    c == 0x20 || c == 0x09 || c == 0x0a || c == 0x0c || c == 0x0d
}

/// The bytes that count: those before the padding, without white space.
pub open spec fn significant(s: Seq<u8>) -> Seq<u8>
    decreases s.len(),
{
    if s.len() == 0 || s[0] == 0x3d {
        seq![]
    } else if is_blank(s[0]) {
        significant(s.skip(1))
    } else {
        seq![s[0]] + significant(s.skip(1))
    }
}

/// The byte with index `k` that the digits stand for: four digits hold three bytes.
pub open spec fn octet(d: Seq<u8>, k: int) -> u8 {
    let i = k / 3 * 4;
    if k % 3 == 0 {
        (sextet(d[i]) * 4 + sextet(d[i + 1]) / 16) as u8
    } else if k % 3 == 1 {
        (sextet(d[i + 1]) % 16 * 16 + sextet(d[i + 2]) / 4) as u8
    } else {
        (sextet(d[i + 2]) % 4 * 64 + sextet(d[i + 3])) as u8
    }
}

/// The whole bytes that the digits stand for.
pub open spec fn octets(d: Seq<u8>) -> Seq<u8> {
    Seq::new((d.len() * 3 / 4) as nat, |k: int| octet(d, k))
}

/// What base64 text decodes to; nothing if a significant byte is no digit.
pub open spec fn decoded(s: Seq<u8>) -> Option<Seq<u8>> {
    let d = significant(s);
    if forall|i: int| 0 <= i < d.len() ==> sextet(#[trigger] d[i]) >= 0 {
        Some(octets(d))
    } else {
        None
    }
}

fn value(c: u8) -> (r: Option<u8>)
    ensures
        match r {
            Some(v) => sextet(c) == v && v < 64,
            None => sextet(c) == -1,
        },
{
    if 0x41 <= c && c <= 0x5a {
        Some(c - 0x41)
    } else if 0x61 <= c && c <= 0x7a {
        Some(c - 0x61 + 26)
    } else if 0x30 <= c && c <= 0x39 {
        Some(c - 0x30 + 52)
    } else if c == 0x2b {
        Some(62)
    } else if c == 0x2f {
        Some(63)
    } else {
        None
    }
}

fn digits(s: &[u8]) -> (r: Vec<u8>)
    ensures
        r@ == significant(s@),
{
    let mut out: Vec<u8> = Vec::new();
    let mut i: usize = 0;
    assert(s@.skip(0) == s@);
    while i < s.len() && s[i] != 0x3d
        invariant
            i <= s.len(),
            significant(s@) == out@ + significant(s@.skip(i as int)),
        decreases s.len() - i,
    {
        let c: u8 = s[i];
        let ghost before = out@;
        assert(s@.skip(i as int).skip(1) == s@.skip(i + 1));
        if !(c == 0x20 || c == 0x09 || c == 0x0a || c == 0x0c || c == 0x0d) {
            out.push(c);
            assert(before + (seq![c] + significant(s@.skip(i + 1))) == out@ + significant(
                s@.skip(i + 1),
            ));
        }
        i += 1;
    }
    assert(out@ + significant(s@.skip(i as int)) == out@);
    out
}

/// Decode base64. White space is passed over and decoding ends at the padding.
pub fn base64_decode(s: &str) -> (r: Option<Vec<u8>>)
    ensures
        match r {
            Some(v) => decoded(encode_utf8(s@)) == Some(v@),
            None => decoded(encode_utf8(s@)) is None,
        },
{
    let d = digits(s.as_bytes());
    let mut out: Vec<u8> = Vec::new();
    let mut held: u8 = 0;
    let mut i: usize = 0;
    while i < d.len()
        invariant
            d@ == significant(encode_utf8(s@)),
            i <= d.len(),
            forall|j: int| 0 <= j < i ==> sextet(#[trigger] d@[j]) >= 0,
            out@.len() == i * 3 / 4,
            forall|k: int| 0 <= k < out@.len() ==> #[trigger] out@[k] == octet(d@, k),
            i % 4 == 1 ==> held == sextet(d@[i - 1]),
            i % 4 == 2 ==> held == sextet(d@[i - 1]) % 16,
            i % 4 == 3 ==> held == sextet(d@[i - 1]) % 4,
        decreases d.len() - i,
    {
        let v: u8 = match value(d[i]) {
            Some(v) => v,
            None => {
                assert(sextet(d@[i as int]) < 0);
                return None;
            },
        };
        let phase: usize = i % 4;
        let ghost n = out@.len();
        if phase == 0 {
            held = v;
        } else if phase == 1 {
            assert(sextet(d@[i - 1]) < 64);
            out.push(held * 4 + v / 16);
            assert(n / 3 * 4 == i - 1 && n % 3 == 0);
            held = v % 16;
        } else if phase == 2 {
            out.push(held * 16 + v / 4);
            assert(n / 3 * 4 == i - 2 && n % 3 == 1);
            held = v % 4;
        } else {
            out.push(held * 64 + v);
            assert(n / 3 * 4 == i - 3 && n % 3 == 2);
        }
        i += 1;
    }
    assert(out@ == octets(d@));
    Some(out)
}

// ---------------------------------------------------------------------------
// Encoding, for what it says of decoding
// ---------------------------------------------------------------------------
/// The base64 digit with the given value.
pub open spec fn digit_of(v: int) -> char {
    if v < 26 {
        (0x41 + v) as char
    } else if v < 52 {
        (0x61 + (v - 26)) as char
    } else if v < 62 {
        (0x30 + (v - 52)) as char
    } else if v == 62 {
        '+'
    } else {
        '/'
    }
}

/// The base64 notation of bytes, padded to a multiple of four digits.
pub open spec fn encoded(b: Seq<u8>) -> Seq<char>
    decreases b.len(),
{
    let x = b[0] as int;
    let y = b[1] as int;
    let z = b[2] as int;
    if b.len() == 0 {
        seq![]
    } else if b.len() == 1 {
        seq![digit_of(x / 4), digit_of(x % 4 * 16), '=', '=']
    } else if b.len() == 2 {
        seq![digit_of(x / 4), digit_of(x % 4 * 16 + y / 16), digit_of(y % 16 * 4), '=']
    } else {
        seq![
            digit_of(x / 4),
            digit_of(x % 4 * 16 + y / 16),
            digit_of(y % 16 * 4 + z / 64),
            digit_of(z % 64),
        ] + encoded(b.skip(3))
    }
}

/// The characters as bytes.
spec fn narrowed(s: Seq<char>) -> Seq<u8> {
    Seq::new(s.len(), |i: int| s[i] as u8)
}

proof fn lemma_digit(v: int)
    requires
        0 <= v < 64,
    ensures
        sextet(digit_of(v) as u8) == v,
        digit_of(v) as u8 != 0x3d,
        !is_blank(digit_of(v) as u8),
        (digit_of(v) as u32) < 0x80,
        !text::is_white_space(digit_of(v)),
{
}

/// Base64 notation holds no white space and nothing outside ASCII.
pub proof fn lemma_encoded_plain(b: Seq<u8>)
    ensures
        is_ascii_chars(encoded(b)),
        forall|i: int|
            0 <= i < encoded(b).len() ==> !text::is_white_space(#[trigger] encoded(b)[i]),
    decreases b.len(),
{
    let x = b[0] as int;
    let y = b[1] as int;
    let z = b[2] as int;
    if b.len() >= 1 {
        lemma_digit(x / 4);
        lemma_digit(x % 4 * 16);
        lemma_digit(x % 4 * 16 + y / 16);
        lemma_digit(y % 16 * 4);
        lemma_digit(y % 16 * 4 + z / 64);
        lemma_digit(z % 64);
    }
    if b.len() >= 3 {
        lemma_encoded_plain(b.skip(3));
        assert forall|i: int| 0 <= i < encoded(b).len() implies '\0' <= #[trigger] encoded(b)[i]
            <= '\u{7f}' && !text::is_white_space(encoded(b)[i]) by {
            if i >= 4 {
                assert(encoded(b)[i] == encoded(b.skip(3))[i - 4]);
            }
        }
    }
}

proof fn lemma_significant_step(c: u8, rest: Seq<u8>)
    requires
        c != 0x3d,
        !is_blank(c),
    ensures
        significant(seq![c] + rest) == seq![c] + significant(rest),
{
    assert((seq![c] + rest).skip(1) == rest);
}

proof fn lemma_first_octets(d: Seq<u8>, x: int, y: int, z: int)
    requires
        0 <= x < 256,
        0 <= y < 256,
        0 <= z < 256,
        d.len() >= 2,
        sextet(d[0]) == x / 4,
        sextet(d[1]) == x % 4 * 16 + y / 16,
        d.len() >= 3 ==> sextet(d[2]) == y % 16 * 4 + z / 64,
        d.len() >= 4 ==> sextet(d[3]) == z % 64,
    ensures
        octet(d, 0) == x,
        d.len() >= 3 ==> octet(d, 1) == y,
        d.len() >= 4 ==> octet(d, 2) == z,
{
}

proof fn lemma_octets_shift(d: Seq<u8>, k: int)
    requires
        d.len() >= 4,
        3 <= k,
        k < d.len() * 3 / 4,
    ensures
        octet(d, k) == octet(d.skip(4), k - 3),
{
    assert((k - 3) / 3 * 4 + 4 == k / 3 * 4);
    assert((k - 3) % 3 == k % 3);
}

/// Four digits more decode to three bytes more.
proof fn lemma_decode_group(h: Seq<u8>, t: Seq<u8>, b: Seq<u8>)
    requires
        h.len() == 4,
        b.len() >= 3,
        sextet(h[0]) == b[0] as int / 4,
        sextet(h[1]) == b[0] as int % 4 * 16 + b[1] as int / 16,
        sextet(h[2]) == b[1] as int % 16 * 4 + b[2] as int / 64,
        sextet(h[3]) == b[2] as int % 64,
        forall|i: int| 0 <= i < 4 ==> !is_blank(#[trigger] h[i]) && h[i] != 0x3d,
        decoded(t) == Some(b.skip(3)),
    ensures
        decoded(h + t) == Some(b),
{
    let n = h + t;
    assert(n == seq![h[0]] + (seq![h[1]] + (seq![h[2]] + (seq![h[3]] + t))));
    lemma_significant_step(h[0], seq![h[1]] + (seq![h[2]] + (seq![h[3]] + t)));
    lemma_significant_step(h[1], seq![h[2]] + (seq![h[3]] + t));
    lemma_significant_step(h[2], seq![h[3]] + t);
    lemma_significant_step(h[3], t);
    let d = significant(n);
    let dr = significant(t);
    assert(d == h + dr);
    assert forall|i: int| 0 <= i < d.len() implies sextet(#[trigger] d[i]) >= 0 by {
        if i >= 4 {
            assert(d[i] == dr[i - 4]);
        }
    }
    assert(d.skip(4) == dr);
    assert(octets(dr) == b.skip(3));
    assert(octets(dr).len() == dr.len() * 3 / 4);
    lemma_first_octets(d, b[0] as int, b[1] as int, b[2] as int);
    assert forall|k: int| 0 <= k < b.len() implies octet(d, k) == b[k] by {
        if k >= 3 {
            lemma_octets_shift(d, k);
            assert(octets(dr)[k - 3] == octet(dr, k - 3));
            assert(b.skip(3)[k - 3] == b[k]);
        }
    }
    assert(octets(d) == b);
}

proof fn lemma_decode_narrowed(b: Seq<u8>)
    ensures
        decoded(narrowed(encoded(b))) == Some(b),
    decreases b.len(),
{
    let n = narrowed(encoded(b));
    let d = significant(n);
    let x = b[0] as int;
    let y = b[1] as int;
    let z = b[2] as int;
    if b.len() >= 1 {
        lemma_digit(x / 4);
        lemma_digit(x % 4 * 16);
        lemma_digit(x % 4 * 16 + y / 16);
        lemma_digit(y % 16 * 4);
        lemma_digit(y % 16 * 4 + z / 64);
        lemma_digit(z % 64);
    }
    if b.len() == 0 {
        assert(octets(d) == b);
    } else if b.len() == 1 {
        let tail: Seq<u8> = seq![n[2], n[3]];
        assert(n == seq![n[0]] + (seq![n[1]] + tail));
        lemma_significant_step(n[0], seq![n[1]] + tail);
        lemma_significant_step(n[1], tail);
        assert(d == seq![n[0], n[1]]);
        lemma_first_octets(d, x, 0, 0);
        assert(octets(d) == b);
    } else if b.len() == 2 {
        let tail: Seq<u8> = seq![n[3]];
        assert(n == seq![n[0]] + (seq![n[1]] + (seq![n[2]] + tail)));
        lemma_significant_step(n[0], seq![n[1]] + (seq![n[2]] + tail));
        lemma_significant_step(n[1], seq![n[2]] + tail);
        lemma_significant_step(n[2], tail);
        assert(d == seq![n[0], n[1], n[2]]);
        lemma_first_octets(d, x, y, 0);
        assert(octets(d) == b);
    } else {
        lemma_decode_narrowed(b.skip(3));
        let h = n.take(4);
        let t = narrowed(encoded(b.skip(3)));
        assert(n == h + t);
        lemma_decode_group(h, t, b);
    }
}

/// Decoding undoes encoding.
pub proof fn theorem_decode_of_encode(b: Seq<u8>)
    ensures
        decoded(encode_utf8(encoded(b))) == Some(b),
{
    lemma_encoded_plain(b);
    is_ascii_chars_encode_utf8(encoded(b));
    assert(encode_utf8(encoded(b)) == narrowed(encoded(b)));
    lemma_decode_narrowed(b);
}

proof fn lemma_blank_skipped(a: Seq<u8>, c: u8, b: Seq<u8>)
    requires
        c == 0x20 || c == 0x09 || c == 0x0a || c == 0x0c || c == 0x0d,
    ensures
        significant(a + seq![c] + b) == significant(a + b),
    decreases a.len(),
{
    let s = a + seq![c] + b;
    let t = a + b;
    if a.len() == 0 {
        assert(s[0] == c);
        assert(s.skip(1) == t);
    } else {
        assert(s[0] == a[0] && t[0] == a[0]);
        assert(s.skip(1) == a.skip(1) + seq![c] + b);
        assert(t.skip(1) == a.skip(1) + b);
        lemma_blank_skipped(a.skip(1), c, b);
    }
}

proof fn lemma_padding_ends(a: Seq<u8>, b: Seq<u8>)
    ensures
        significant(a + seq![0x3du8] + b) == significant(a),
    decreases a.len(),
{
    let s = a + seq![0x3du8] + b;
    if a.len() == 0 {
        assert(s[0] == 0x3d);
    } else {
        assert(s[0] == a[0]);
        assert(s.skip(1) == a.skip(1) + seq![0x3du8] + b);
        lemma_padding_ends(a.skip(1), b);
    }
}

/// A space, a tab, a feed or a return does not matter, wherever it stands; the padding ends the
/// text, and may be missing.
pub proof fn theorem_what_does_not_count(a: Seq<u8>, c: u8, b: Seq<u8>)
    requires
        c == 0x20 || c == 0x09 || c == 0x0a || c == 0x0c || c == 0x0d,
    ensures
        decoded(a + seq![c] + b) == decoded(a + b),
        decoded(a + seq![0x3du8] + b) == decoded(a),
{
    lemma_blank_skipped(a, c, b);
    lemma_padding_ends(a, b);
}

proof fn lemma_significant_kept(a: Seq<u8>, i: int)
    requires
        0 <= i < a.len(),
        !is_blank(a[i]),
        forall|j: int| 0 <= j <= i ==> #[trigger] a[j] != 0x3d,
    ensures
        exists|k: int| 0 <= k < significant(a).len() && #[trigger] significant(a)[k] == a[i],
    decreases a.len(),
{
    assert(a[0] != 0x3d);
    if i == 0 {
        assert(significant(a)[0] == a[0]);
    } else {
        let rest = a.skip(1);
        assert forall|j: int| 0 <= j <= i - 1 implies #[trigger] rest[j] != 0x3d by {
            assert(rest[j] == a[j + 1]);
        }
        assert(rest[i - 1] == a[i]);
        lemma_significant_kept(rest, i - 1);
        let k = choose|k: int|
            0 <= k < significant(rest).len() && #[trigger] significant(rest)[k] == a[i];
        if is_blank(a[0]) {
            assert(significant(a)[k] == a[i]);
        } else {
            assert(significant(a)[k + 1] == a[i]);
        }
    }
}

/// Any byte before the padding that is no letter, no digit, no plus sign, no slash and none of
/// those that do not matter spoils the text.
pub proof fn theorem_foreign_bytes(a: Seq<u8>, i: int)
    requires
        0 <= i < a.len(),
        forall|j: int| 0 <= j <= i ==> #[trigger] a[j] != 0x3d,
        !(0x41 <= a[i] <= 0x5a),
        !(0x61 <= a[i] <= 0x7a),
        !(0x30 <= a[i] <= 0x39),
        a[i] != 0x2b,
        a[i] != 0x2f,
        a[i] != 0x20,
        a[i] != 0x09,
        a[i] != 0x0a,
        a[i] != 0x0c,
        a[i] != 0x0d,
    ensures
        decoded(a) is None,
{
    lemma_significant_kept(a, i);
    let d = significant(a);
    let k = choose|k: int| 0 <= k < d.len() && #[trigger] d[k] == a[i];
    assert(sextet(d[k]) < 0);
}

} // verus!
