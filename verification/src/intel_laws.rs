//! Laws of what Intel modems are told and of what they say.

use crate::bands;
use crate::intel;
use crate::intel::Carriers;
use crate::numbers;
use crate::signal::{Cell, Measure, SignalView};
use crate::simcom;
use crate::text;
use crate::text_laws;
use vstd::prelude::*;

verus! {

/// The lock of a cell names the SIM 0, the technology 3, the band, the carrier and the cell; to
/// take it off, the same is sent with 0 in place of 1.
pub proof fn theorem_lock_command(band: nat, earfcn: u32, pci: u16)
    ensures
        ({
            let place = numbers::decimal(earfcn as nat) + ","@ + numbers::decimal(pci as nat) + ")"@;
            let code = numbers::decimal(band);
            &&& intel::freq_lock_text(band as int, true, earfcn as int, pci as int)
                == "at@sic:freq_lock(0,3,"@ + code + ",1,"@ + place
            &&& intel::freq_lock_text(band as int, false, earfcn as int, pci as int)
                == "at@sic:freq_lock(0,3,"@ + code + ",0,"@ + place
        }),
{
    reveal_strlit("at@sic:freq_lock(0,3,");
    reveal_strlit("at@sic:freq_lock(");
    reveal_strlit(",");
    assert(numbers::decimal(0) == seq!['0']);
    assert(numbers::decimal(3) == seq!['3']);
    let place = numbers::decimal(earfcn as nat) + ","@ + numbers::decimal(pci as nat) + ")"@;
    let code = numbers::decimal(band);
    assert("at@sic:freq_lock("@ + numbers::decimal(0) + ","@ + numbers::decimal(3) + ","@
        == "at@sic:freq_lock(0,3,"@);
    assert(intel::freq_lock_text(band as int, true, earfcn as int, pci as int)
        == "at@sic:freq_lock(0,3,"@ + code + ",1,"@ + place);
    assert(intel::freq_lock_text(band as int, false, earfcn as int, pci as int)
        == "at@sic:freq_lock(0,3,"@ + code + ",0,"@ + place);
}

/// A carrier outside of the bands is refused by its number.
pub proof fn theorem_carrier_without_band(earfcn: nat)
    ensures
        intel::unknown_band(earfcn as int) == "не удалось определить LTE-диапазон для EARFCN "@
            + numbers::decimal(earfcn),
{
}

/// The radio is switched off and on again, in this order.
pub proof fn theorem_radio_cycle()
    ensures
        intel::RADIO_CYCLE@.len() == 2,
        intel::RADIO_CYCLE@[0]@ == "at+cfun=4"@,
        intel::RADIO_CYCLE@[1]@ == "at+cfun=15"@,
{
}

// ---------------------------------------------------------------------------
// Fields
// ---------------------------------------------------------------------------
proof fn lemma_bare(t: Seq<char>)
    requires
        t.len() > 0,
        !text::is_white_space(t[0]),
        !text::is_white_space(t.last()),
        t[0] != '"',
        t.last() != '"',
    ensures
        intel::bare(t) == t,
        intel::bare(seq!['"'] + t + seq!['"']) == t,
{
    text::lemma_trimmed_of_plain(t);
    let q = seq!['"'] + t + seq!['"'];
    text::lemma_trimmed_of_plain(q);
    text::lemma_unquoted(t);
}

/// A decimal number in a field, in quotation marks or without them, is read, but for the two that
/// stand for no data; one of more than 32 bits is not.
pub proof fn theorem_decimal_fields(n: nat)
    ensures
        ({
            let d = numbers::decimal(n);
            let want = if n > 0xffff_ffff || n == 0xffff_ffff || n == 0x7fff_ffff {
                None
            } else {
                Some(n as u32)
            };
            intel::field_value(d) == want && intel::field_value(seq!['"'] + d + seq!['"']) == want
        }),
{
    reveal_strlit("0x");
    reveal_strlit("0X");
    let d = numbers::decimal(n);
    numbers::lemma_decimal(n);
    assert(text::is_digit(d[0]) && text::is_digit(d[d.len() - 1]));
    lemma_bare(d);
    if d.len() > 1 {
        assert(text::is_digit(d[1]));
    }
    assert("0x"@[1] == 'x' && "0X"@[1] == 'X');
    assert(intel::after_hex_mark(d) is None);
    numbers::lemma_unsigned_of_decimal(n, 0xffff_ffff);
}

/// A hexadecimal number in a field is read, the higher byte first.
pub proof fn theorem_hex_fields(high: int, low: int)
    requires
        0 <= high < 256,
        0 <= low < 256,
    ensures
        ({
            let h = "0x"@ + (numbers::hex_pair(high) + numbers::hex_pair(low));
            &&& intel::field_value(h) == Some((high * 256 + low) as u32)
            &&& intel::field_value(seq!['"'] + h + seq!['"']) == Some((high * 256 + low) as u32)
        }),
{
    reveal_strlit("0x");
    let a = numbers::hex_pair(high);
    let b = numbers::hex_pair(low);
    let ds = a + b;
    let h = "0x"@ + ds;
    assert(h[0] == '0');
    assert(h.last() == b[1]);
    lemma_hex_digit(high / 16);
    lemma_hex_digit(high % 16);
    lemma_hex_digit(low / 16);
    lemma_hex_digit(low % 16);
    lemma_bare(h);
    assert("0x"@.is_prefix_of(h));
    assert(h.skip(2) == ds);
    assert(ds[0] == a[0] && ds[1] == a[1] && ds[2] == b[0] && ds[3] == b[1]);
    assert(ds.drop_last() == seq![a[0], a[1], b[0]]);
    assert(ds.drop_last().drop_last() == seq![a[0], a[1]]);
    assert(ds.drop_last().drop_last().drop_last() == seq![a[0]]);
    reveal_with_fuel(numbers::value_of, 5);
    assert(numbers::value_of(ds, 16) == ((high / 16 * 16 + high % 16) * 16 + low / 16) * 16 + low
        % 16);
    assert(numbers::all_digits(ds, 16));
    assert(numbers::without_plus(ds) == ds);
}

proof fn lemma_hex_digit(d: int)
    requires
        0 <= d < 16,
    ensures
        numbers::digit_value(numbers::digit_char(d)) == d,
        !text::is_white_space(numbers::digit_char(d)),
        numbers::digit_char(d) != '"',
        numbers::digit_char(d) != '+',
{
}

// ---------------------------------------------------------------------------
// Records
// ---------------------------------------------------------------------------
/// A field that holds nothing but itself.
pub open spec fn is_plain_field(f: Seq<char>) -> bool {
    &&& !f.contains(',')
    &&& !f.contains('\n')
    &&& f.len() > 0
    &&& !text::is_white_space(f[0])
    &&& !text::is_white_space(f.last())
    &&& f[0] != '"'
    &&& f.last() != '"'
}

proof fn lemma_bare_in_blanks(before: Seq<char>, f: Seq<char>, after: Seq<char>)
    requires
        text_laws::is_blank(before),
        text_laws::is_blank(after),
        is_plain_field(f),
    ensures
        intel::bare(before + f + after) == f,
{
    text_laws::theorem_blanks_around(before, f, after);
    lemma_bare(f);
    text::lemma_trimmed_of_plain(f);
}

proof fn lemma_no_comma(before: Seq<char>, f: Seq<char>, after: Seq<char>)
    requires
        text_laws::is_blank(before),
        text_laws::is_blank(after),
        !f.contains(','),
    ensures
        !(before + f + after).contains(','),
{
    let s = before + f + after;
    assert forall|i: int| 0 <= i < s.len() implies s[i] != ',' by {
        if i < before.len() {
            assert(s[i] == before[i]);
        } else if i < before.len() + f.len() {
            assert(s[i] == f[i - before.len()]);
            assert(f.contains(f[i - before.len()]));
        } else {
            assert(s[i] == after[i - before.len() - f.len()]);
        }
    }
}

proof fn lemma_fields(fs: Seq<Seq<char>>, before: Seq<char>, after: Seq<char>)
    requires
        fs.len() > 0,
        forall|i: int| 0 <= i < fs.len() ==> is_plain_field(#[trigger] fs[i]),
        text_laws::is_blank(before),
        text_laws::is_blank(after),
    ensures
        ({
            let ps = text::pieces(before + text::joined(fs, seq![',']) + after, ',');
            ps.len() == fs.len() && forall|i: int|
                0 <= i < fs.len() ==> intel::bare(#[trigger] ps[i]) == fs[i]
        }),
{
    let n = fs.len() as int;
    let e = Seq::<char>::empty();
    let x = fs.update(0, before + fs[0]);
    let y = x.update(n - 1, x.last() + after);
    text_laws::theorem_joined_ends(fs, seq![','], before, after);
    text_laws::theorem_joined_ends(x, seq![','], before, after);
    assert(text::joined(y, seq![',']) == before + text::joined(fs, seq![',']) + after);
    assert forall|i: int| 0 <= i < y.len() implies !(#[trigger] y[i]).contains(',') && intel::bare(
        y[i],
    ) == fs[i] by {
        assert(is_plain_field(fs[i]));
        let a = if i == 0 {
            before
        } else {
            e
        };
        let b = if i == n - 1 {
            after
        } else {
            e
        };
        assert(text_laws::is_blank(a) && text_laws::is_blank(b));
        assert(y[i] == a + fs[i] + b);
        lemma_no_comma(a, fs[i], b);
        lemma_bare_in_blanks(a, fs[i], b);
    }
    text_laws::theorem_joined_parts_are_the_pieces(y, ',');
}

proof fn lemma_joined_has_no(fs: Seq<Seq<char>>, c: char)
    requires
        c != ',',
        forall|i: int| 0 <= i < fs.len() ==> !(#[trigger] fs[i]).contains(c),
    ensures
        !text::joined(fs, seq![',']).contains(c),
    decreases fs.len(),
{
    if fs.len() == 1 {
        assert(!fs[0].contains(c));
    } else if fs.len() > 1 {
        let init = fs.drop_last();
        assert forall|i: int| 0 <= i < init.len() implies !(#[trigger] init[i]).contains(c) by {
            assert(init[i] == fs[i]);
        }
        lemma_joined_has_no(init, c);
        let a = text::joined(init, seq![',']);
        let b = fs[fs.len() - 1];
        let s = text::joined(fs, seq![',']);
        assert(s == a + seq![','] + b);
        assert forall|i: int| 0 <= i < s.len() implies s[i] != c by {
            if i < a.len() {
                assert(a.contains(a[i]));
            } else if i > a.len() {
                assert(b.contains(b[i - a.len() - 1]));
            }
        }
    }
}

/// The fields of a record are those that it is made of, without the blanks around it and without
/// the final `OK`, whatever comes after that.
pub proof fn theorem_fields_of_a_record(
    fs: Seq<Seq<char>>,
    before: Seq<char>,
    after: Seq<char>,
    rest: Seq<char>,
)
    requires
        fs.len() > 0,
        forall|i: int| 0 <= i < fs.len() ==> is_plain_field(#[trigger] fs[i]),
        text_laws::is_blank(before),
        !before.contains('\n'),
        text_laws::is_blank(after),
    ensures
        ({
            let inner = before + text::joined(fs, seq![',']) + after;
            &&& intel::record_fields(inner + "\nOK"@ + rest) == fs
            &&& intel::record_fields(inner) == fs
        }),
{
    reveal_strlit("\nOK");
    let pat = "\nOK"@;
    assert(pat[0] == '\n' && pat[1] == 'O' && pat[2] == 'K' && pat.len() == 3);
    let j = text::joined(fs, seq![',']);
    let inner = before + j + after;
    assert forall|i: int| 0 <= i < fs.len() implies !(#[trigger] fs[i]).contains('\n') by {
        assert(is_plain_field(fs[i]));
    }
    lemma_joined_has_no(fs, '\n');
    lemma_fields(fs, before, after);
    let ps = text::pieces(inner, ',');
    let n = inner.len() as int;
    let s = inner + pat + rest;
    // Within the record the mark does not stand.
    assert forall|k: int| 0 <= k < n implies !pat.is_prefix_of(#[trigger] s.skip(k))
        && !pat.is_prefix_of(inner.skip(k)) by {
        lemma_no_end(before, j, after, s, k);
        lemma_no_end(before, j, after, inner, k);
    }
    assert(s.skip(n) == pat + rest);
    lemma_found(s, pat, n);
    assert(s.take(n) == inner);
    assert(intel::record_fields(s) =~= fs);
    text::lemma_occurrence(inner, pat);
    match text::occurrence(inner, pat) {
        Some(i) => {
            assert(inner.skip(i).take(3) == inner.subrange(i, i + 3));
            assert(pat.is_prefix_of(inner.skip(i)));
        },
        None => {},
    }
    assert(inner.take(n) == inner);
    assert(intel::record_fields(inner) =~= fs);
}

proof fn lemma_no_end(
    before: Seq<char>,
    j: Seq<char>,
    after: Seq<char>,
    s: Seq<char>,
    k: int,
)
    requires
        text_laws::is_blank(before),
        text_laws::is_blank(after),
        !j.contains('\n'),
        0 <= k < before.len() + j.len() + after.len(),
        (before + j + after).is_prefix_of(s),
        s.len() > before.len() + j.len() + after.len() ==> s[(before.len() + j.len()
            + after.len()) as int] == '\n',
        !before.contains('\n'),
    ensures
        !"\nOK"@.is_prefix_of(s.skip(k)),
{
    reveal_strlit("\nOK");
    let pat = "\nOK"@;
    let inner = before + j + after;
    if pat.is_prefix_of(s.skip(k)) {
        assert(s.skip(k)[0] == pat[0]);
        assert(s.skip(k)[1] == pat[1]);
        assert(s[k] == '\n' && s[k + 1] == 'O');
        assert(s[k] == inner[k]);
        if k + 1 < inner.len() {
            assert(s[k + 1] == inner[k + 1]);
        }
        if k < before.len() {
            assert(inner[k] == before[k]);
            assert(before.contains(before[k]));
        } else if k < before.len() + j.len() {
            assert(inner[k] == j[k - before.len()]);
            assert(j.contains(j[k - before.len()]));
        } else if k + 1 < inner.len() {
            assert(inner[k + 1] == after[k + 1 - before.len() - j.len()]);
        }
    }
}

proof fn lemma_mark_at(a: Seq<char>, b: Seq<char>, k: int)
    requires
        0 <= k < a.len(),
    ensures
        "+XMCI:"@.is_prefix_of((a + "+XMCI:"@ + b).skip(k)) ==> "+XMCI:"@.is_prefix_of(a.skip(k)),
{
    reveal_strlit("+XMCI:");
    let pat = "+XMCI:"@;
    let t = a + pat + b;
    if pat.is_prefix_of(t.skip(k)) {
        assert forall|i: int| 0 <= i < 6 implies t[k + i] == #[trigger] pat[i] by {
            assert(t.skip(k)[i] == pat[i]);
        }
        let m = a.len() - k;
        if m < 6 {
            assert(t[k + m] == pat[m]);
            assert(t[k + m] == pat[0]);
            assert(pat[0] == '+' && pat[1] == 'X' && pat[2] == 'M' && pat[3] == 'C' && pat[4] == 'I'
                && pat[5] == ':');
        } else {
            assert forall|i: int| 0 <= i < 6 implies a.skip(k)[i] == #[trigger] pat[i] by {
                assert(t[k + i] == a[k + i]);
            }
            assert(pat.is_prefix_of(a.skip(k)));
        }
    }
}

proof fn lemma_found(s: Seq<char>, pat: Seq<char>, k: int)
    requires
        0 <= k <= s.len(),
        pat.is_prefix_of(s.skip(k)),
        forall|j: int| 0 <= j < k ==> !pat.is_prefix_of(#[trigger] s.skip(j)),
    ensures
        text::occurrence(s, pat) == Some(k),
        k + pat.len() <= s.len(),
{
    text::lemma_occurrence(s, pat);
    match text::occurrence(s, pat) {
        Some(i) => {
            assert(s.skip(i).take(pat.len() as int) == s.subrange(i, i + pat.len()));
            assert(pat.is_prefix_of(s.skip(i)));
        },
        None => {},
    }
}

proof fn lemma_sections(a: Seq<char>, b: Seq<char>)
    requires
        !text::occurs(b, "+XMCI:"@),
    ensures
        text::sections(a + "+XMCI:"@ + b, "+XMCI:"@) == text::sections(a, "+XMCI:"@).push(b),
        text::sections(a, "+XMCI:"@).len() > 0,
    decreases a.len(),
{
    let pat = "+XMCI:"@;
    let t = a + pat + b;
    assert(pat.len() == 6) by {
        reveal_strlit("+XMCI:");
    }
    text::lemma_occurrence(a, pat);
    match text::occurrence(a, pat) {
        Some(i) => {
            assert(pat.is_prefix_of(t.skip(i))) by {
                assert(t.skip(i).take(6) == a.subrange(i, i + 6));
            }
            assert forall|k: int| 0 <= k < i implies !pat.is_prefix_of(#[trigger] t.skip(k)) by {
                lemma_mark_at(a, b, k);
                assert(!pat.is_prefix_of(a.skip(k)));
            }
            lemma_found(t, pat, i);
            let rest = a.skip(i + 6);
            assert(t.take(i) == a.take(i));
            assert(t.skip(i + 6) == rest + pat + b);
            lemma_sections(rest, b);
            assert(seq![a.take(i)] + text::sections(rest, pat).push(b) == (seq![a.take(i)]
                + text::sections(rest, pat)).push(b));
        },
        None => {
            let n = a.len() as int;
            assert(t.skip(n) == pat + b);
            assert forall|k: int| 0 <= k < n implies !pat.is_prefix_of(#[trigger] t.skip(k)) by {
                lemma_mark_at(a, b, k);
                assert(!pat.is_prefix_of(a.skip(k)));
            }
            lemma_found(t, pat, n);
            assert(t.take(n) == a);
            assert(t.skip(n + 6) == b);
            assert(text::sections(b, pat) == seq![b]);
            assert(text::sections(a, pat) == seq![a]);
            assert(seq![a] + seq![b] == seq![a].push(b));
        },
    }
}

/// What is read of a reply grows with it: one more record is read after those before it, if it
/// has as many as seven fields.
pub proof fn theorem_one_more_record(a: Seq<char>, b: Seq<char>)
    requires
        !text::occurs(b, "+XMCI:"@),
    ensures
        intel::records(a + "+XMCI:"@ + b) == (if intel::record_fields(b).len() >= 7 {
            intel::records(a).push(intel::record_fields(b))
        } else {
            intel::records(a)
        }),
        intel::records(b).len() == 0,
{
    lemma_sections(a, b);
    let all = text::sections(a, "+XMCI:"@).push(b);
    let more = all.skip(1);
    assert(more == text::sections(a, "+XMCI:"@).skip(1).push(b));
    assert(more.drop_last() == text::sections(a, "+XMCI:"@).skip(1));
    text::lemma_occurrence(b, "+XMCI:"@);
    assert(text::sections(b, "+XMCI:"@) == seq![b]);
    assert(seq![b].skip(1) == Seq::<Seq<char>>::empty());
}

proof fn lemma_first_serving(
    before: Seq<Seq<Seq<char>>>,
    rec: Seq<Seq<char>>,
    after: Seq<Seq<Seq<char>>>,
)
    requires
        forall|i: int|
            0 <= i < before.len() ==> (#[trigger] before[i]).len() > 0 && intel::field_value(
                before[i][0],
            ) != Some(4u32),
        rec.len() > 0,
        intel::field_value(rec[0]) == Some(4u32),
    ensures
        intel::serving_in(before + seq![rec] + after) == Some(intel::serving_signal(rec)),
    decreases before.len(),
{
    let all = before + seq![rec] + after;
    if before.len() > 0 {
        let rest = before.skip(1);
        assert forall|i: int| 0 <= i < rest.len() implies (#[trigger] rest[i]).len() > 0
            && intel::field_value(rest[i][0]) != Some(4u32) by {
            assert(rest[i] == before[i + 1]);
        }
        lemma_first_serving(rest, rec, after);
        assert(all[0] == before[0]);
        assert(all.skip(1) == rest + seq![rec] + after);
    } else {
        assert(all[0] == rec);
    }
}

/// The first record of the type 4 tells of the serving cell, each number from its own place: the
/// cell from the sixth, the carrier from the seventh, and RSRP, RSRQ and SINR from the tenth, the
/// eleventh and the twelfth. RSRP counts from -141 dBm in steps of 1, RSRQ from -20 dB in steps
/// of a half, and what is off the scale is unknown.
#[verifier::spinoff_prover]
#[verifier::rlimit(50)]
pub proof fn theorem_serving_record(
    before: Seq<Seq<Seq<char>>>,
    rec: Seq<Seq<char>>,
    after: Seq<Seq<Seq<char>>>,
    pci: u16,
    earfcn: u32,
    rsrp: u32,
    rsrq: u32,
    sinr: u32,
)
    requires
        forall|i: int|
            0 <= i < before.len() ==> (#[trigger] before[i]).len() > 0 && intel::field_value(
                before[i][0],
            ) != Some(4u32),
        rec.len() > 11,
        rec[0] == "4"@,
        rec[5] == numbers::decimal(pci as nat),
        rec[6] == numbers::decimal(earfcn as nat),
        rec[9] == numbers::decimal(rsrp as nat),
        rec[10] == numbers::decimal(rsrq as nat),
        rec[11] == numbers::decimal(sinr as nat),
        earfcn < 0x7fff_ffff,
        rsrp < 0x7fff_ffff,
        rsrq < 0x7fff_ffff,
        sinr < 0x7fff_ffff,
    ensures
        intel::serving_in(before + seq![rec] + after) == Some(
            SignalView {
                rsrp: if rsrp <= 140 {
                    Some(Measure::Halves(2 * rsrp - 282))
                } else {
                    None
                },
                rsrq: if rsrq <= 40 {
                    Some(Measure::Halves(rsrq - 40))
                } else {
                    None
                },
                sinr: Some(Measure::Halves(2 * sinr)),
                rssi: None,
                earfcn: Some(earfcn),
                pci: Some(pci),
                band: match bands::band_of(earfcn as int) {
                    Some(b) => Some("B"@ + numbers::decimal(b as nat)),
                    None => None,
                },
                operator: None,
                registered: false,
            },
        ),
{
    assert(intel::number_at(rec, 0) == Some(4u32)) by {
        reveal_strlit("4");
        assert(numbers::decimal(4) == "4"@);
        theorem_decimal_fields(4);
    }
    assert(intel::number_at(rec, 5) == Some(pci as u32)) by {
        theorem_decimal_fields(pci as nat);
    }
    assert(intel::number_at(rec, 6) == Some(earfcn)) by {
        theorem_decimal_fields(earfcn as nat);
    }
    assert(intel::number_at(rec, 9) == Some(rsrp)) by {
        theorem_decimal_fields(rsrp as nat);
    }
    assert(intel::number_at(rec, 10) == Some(rsrq)) by {
        theorem_decimal_fields(rsrq as nat);
    }
    assert(intel::number_at(rec, 11) == Some(sinr)) by {
        theorem_decimal_fields(sinr as nat);
    }
    lemma_first_serving(before, rec, after);
}

/// A record of the type 5 is a cell around, each number from its own place, and a record of
/// another type is none.
pub proof fn theorem_neighbor_record(
    rec: Seq<Seq<char>>,
    kind: u32,
    pci: u16,
    earfcn: u32,
    rsrp: u32,
    rsrq: u32,
)
    requires
        rec.len() > 10,
        rec[0] == numbers::decimal(kind as nat),
        rec[5] == numbers::decimal(pci as nat),
        rec[6] == numbers::decimal(earfcn as nat),
        rec[9] == numbers::decimal(rsrp as nat),
        rec[10] == numbers::decimal(rsrq as nat),
        kind < 0x7fff_ffff,
        earfcn < 0x7fff_ffff,
        rsrp < 0x7fff_ffff,
        rsrq < 0x7fff_ffff,
    ensures
        intel::neighbor_of(rec) == (if kind == 5 {
            Some(
                Cell {
                    earfcn,
                    pci,
                    rsrp: if rsrp <= 140 {
                        Some(Measure::Halves(2 * rsrp - 282))
                    } else {
                        None
                    },
                    rsrq: if rsrq <= 40 {
                        Some(Measure::Halves(rsrq - 40))
                    } else {
                        None
                    },
                },
            )
        } else {
            None
        }),
{
    assert(intel::number_at(rec, 0) == Some(kind)) by {
        theorem_decimal_fields(kind as nat);
    }
    assert(intel::number_at(rec, 5) == Some(pci as u32)) by {
        theorem_decimal_fields(pci as nat);
    }
    assert(intel::number_at(rec, 6) == Some(earfcn)) by {
        theorem_decimal_fields(earfcn as nat);
    }
    assert(intel::number_at(rec, 9) == Some(rsrp)) by {
        theorem_decimal_fields(rsrp as nat);
    }
    assert(intel::number_at(rec, 10) == Some(rsrq)) by {
        theorem_decimal_fields(rsrq as nat);
    }
}

/// Every record of a cell around is listed, in the order of the records: those of two replies
/// together are those of one after those of the other, and one record gives its cell.
pub proof fn theorem_neighbors_add_up(
    a: Seq<Seq<Seq<char>>>,
    b: Seq<Seq<Seq<char>>>,
    rec: Seq<Seq<char>>,
)
    ensures
        intel::neighbors_in(a + b) == intel::neighbors_in(a) + intel::neighbors_in(b),
        intel::neighbor_of(rec) matches Some(c) ==> intel::neighbors_in(seq![rec]) == seq![c],
        intel::neighbor_of(rec) is None ==> intel::neighbors_in(seq![rec]).len() == 0,
    decreases b.len(),
{
    assert(seq![rec].drop_last() == Seq::<Seq<Seq<char>>>::empty());
    reveal_with_fuel(intel::neighbors_in, 2);
    match intel::neighbor_of(rec) {
        Some(c) => {
            assert(intel::neighbors_in(seq![rec]) == seq![c]);
        },
        None => {},
    }
    if b.len() == 0 {
        assert(a + b == a);
        assert(intel::neighbors_in(a + b) == intel::neighbors_in(a) + intel::neighbors_in(b));
    } else {
        theorem_neighbors_add_up(a, b.drop_last(), rec);
        assert((a + b).drop_last() == a + b.drop_last());
        assert((a + b).last() == b.last());
        let x = intel::neighbors_in(a);
        let y = intel::neighbors_in(b.drop_last());
        match intel::neighbor_of(b.last()) {
            Some(c) => {
                assert((x + y).push(c) == x + y.push(c));
            },
            None => {},
        }
    }
}

// ---------------------------------------------------------------------------
// Lines
// ---------------------------------------------------------------------------
proof fn lemma_line_pieces(mark: Seq<char>, fs: Seq<Seq<char>>)
    requires
        !mark.contains(':'),
        fs.len() > 0,
        forall|i: int| 0 <= i < fs.len() ==> !(#[trigger] fs[i]).contains(','),
    ensures
        ({
            let line = mark + seq![':'] + text::joined(fs, seq![',']);
            &&& text::halves(line, ':') == Some((mark, text::joined(fs, seq![','])))
            &&& text::pieces(text::joined(fs, seq![',']), ',') == fs
            &&& text::occurs(line, mark + seq![':'])
        }),
{
    text::lemma_piece(mark, ':', text::joined(fs, seq![',']));
    text_laws::theorem_joined_parts_are_the_pieces(fs, ',');
    text_laws::theorem_pattern_in_front(mark + seq![':'], text::joined(fs, seq![',']));
}

/// The first line of `+XCESQ` tells of RSRQ, RSRP and SINR, in its sixth, seventh and eighth
/// place, whatever stands in the lines around it. 255 stands for an unknown SINR.
pub proof fn theorem_xcesq_reply(
    before: Seq<Seq<char>>,
    fs: Seq<Seq<char>>,
    after: Seq<Seq<char>>,
    end: Seq<char>,
    rsrq: u32,
    rsrp: u32,
    sinr: u32,
)
    requires
        end == seq!['\n'] || end == seq!['\r', '\n'],
        fs.len() > 7,
        forall|i: int| 0 <= i < fs.len() ==> !(#[trigger] fs[i]).contains(','),
        fs[5] == numbers::decimal(rsrq as nat),
        fs[6] == numbers::decimal(rsrp as nat),
        fs[7] == numbers::decimal(sinr as nat),
        rsrq < 0x7fff_ffff,
        rsrp < 0x7fff_ffff,
        sinr < 0x7fff_ffff,
        forall|i: int| 0 <= i < before.len() ==> !text::occurs(#[trigger] before[i], "+XCESQ:"@),
        forall|i: int| 0 <= i < before.len() ==> text_laws::is_in_line(#[trigger] before[i]),
        forall|i: int| 0 <= i < after.len() ==> text_laws::is_in_line(#[trigger] after[i]),
        text_laws::is_in_line("+XCESQ:"@ + text::joined(fs, seq![','])),
    ensures
        intel::xcesq_signal(
            text_laws::with_ends(
                before + seq!["+XCESQ:"@ + text::joined(fs, seq![','])] + after,
                end,
            ),
        ) == Some(
            SignalView {
                rsrp: if rsrp <= 140 {
                    Some(Measure::Halves(2 * rsrp - 282))
                } else {
                    None
                },
                rsrq: if rsrq <= 40 {
                    Some(Measure::Halves(rsrq - 40))
                } else {
                    None
                },
                sinr: if sinr == 255 {
                    None
                } else {
                    Some(Measure::Halves(2 * sinr))
                },
                rssi: None,
                earfcn: None,
                pci: None,
                band: None,
                operator: None,
                registered: false,
            },
        ),
{
    reveal_strlit("+XCESQ:");
    let mark = seq!['+', 'X', 'C', 'E', 'S', 'Q'];
    assert("+XCESQ:"@ == mark + seq![':']);
    let line = "+XCESQ:"@ + text::joined(fs, seq![',']);
    lemma_line_pieces(mark, fs);
    let all = before + seq![line] + after;
    assert forall|i: int| 0 <= i < all.len() implies text_laws::is_in_line(#[trigger] all[i]) by {
        if i < before.len() {
            assert(all[i] == before[i]);
        } else if i > before.len() {
            assert(all[i] == after[i - before.len() - 1]);
        }
    }
    text_laws::theorem_lines_are_read_back(all, end);
    text_laws::theorem_first_line_with(before, line, after, "+XCESQ:"@);
    assert(intel::number_at(fs, 5) == Some(rsrq)) by {
        theorem_decimal_fields(rsrq as nat);
    }
    assert(intel::number_at(fs, 6) == Some(rsrp)) by {
        theorem_decimal_fields(rsrp as nat);
    }
    assert(intel::number_at(fs, 7) == Some(sinr)) by {
        theorem_decimal_fields(sinr as nat);
    }
}

/// How wide a carrier with a code is, in tenths of a MHz.
pub open spec fn widths() -> Seq<u32> {
    seq![14u32, 30, 50, 100, 150, 200]
}

/// How wide carriers are together.
pub proof fn theorem_widths_add_up(ws: Seq<u32>, w: u32)
    ensures
        intel::sum_of(seq![]) == 0,
        intel::sum_of(ws.push(w)) == intel::sum_of(ws) + w,
{
    assert(ws.push(w).drop_last() == ws);
}

proof fn lemma_codes(codes: Seq<nat>, i: int)
    requires
        0 <= i < codes.len(),
        codes[i] < 6,
    ensures
        intel::width_in(numbers::decimal(codes[i])) == Some(widths()[codes[i] as int]),
{
    let d = numbers::decimal(codes[i]);
    numbers::lemma_decimal(codes[i]);
    assert(text::is_digit(d[0]) && text::is_digit(d[d.len() - 1]));
    text::lemma_trimmed_of_plain(d);
    numbers::lemma_unsigned_of_decimal(codes[i], 0xffff_ffff);
}

proof fn lemma_no_bands(ps: Seq<Seq<char>>)
    requires
        forall|i: int|
            0 <= i < ps.len() ==> !"BAND_LTE_"@.is_prefix_of(text::trimmed(#[trigger] ps[i])),
    ensures
        intel::band_names(ps).len() == 0,
    decreases ps.len(),
{
    if ps.len() > 0 {
        assert(!"BAND_LTE_"@.is_prefix_of(text::trimmed(ps[ps.len() - 1])));
        assert forall|i: int| 0 <= i < ps.drop_last().len() implies !"BAND_LTE_"@.is_prefix_of(
            text::trimmed(#[trigger] ps.drop_last()[i]),
        ) by {
            assert(ps.drop_last()[i] == ps[i]);
        }
        lemma_no_bands(ps.drop_last());
    }
}

proof fn lemma_bands(ps: Seq<Seq<char>>, names: Seq<Seq<char>>)
    requires
        forall|i: int|
            0 <= i < ps.len() ==> !"BAND_LTE_"@.is_prefix_of(text::trimmed(#[trigger] ps[i])),
        forall|i: int|
            0 <= i < names.len() ==> (#[trigger] names[i]).len() > 0 && !text::is_white_space(
                names[i].last(),
            ),
    ensures
        intel::band_names(ps + names.map_values(|n: Seq<char>| "BAND_LTE_"@ + n))
            == names.map_values(|n: Seq<char>| "B"@ + n),
    decreases names.len(),
{
    reveal_strlit("BAND_LTE_");
    let marked = names.map_values(|n: Seq<char>| "BAND_LTE_"@ + n);
    let short = names.map_values(|n: Seq<char>| "B"@ + n);
    let all = ps + marked;
    if names.len() == 0 {
        assert(all == ps);
        lemma_no_bands(ps);
        assert(intel::band_names(all) =~= short);
    } else {
        let init = names.drop_last();
        assert forall|i: int| 0 <= i < init.len() implies (#[trigger] init[i]).len() > 0
            && !text::is_white_space(init[i].last()) by {
            assert(init[i] == names[i]);
        }
        lemma_bands(ps, init);
        let n = names[names.len() - 1];
        assert(n.len() > 0 && !text::is_white_space(n.last()));
        let m = "BAND_LTE_"@ + n;
        assert(all.drop_last() == ps + init.map_values(|n: Seq<char>| "BAND_LTE_"@ + n));
        assert(all.last() == m);
        assert(m[0] == 'B');
        assert(m.last() == n.last());
        text::lemma_trimmed_of_plain(m);
        assert("BAND_LTE_"@.is_prefix_of(m));
        assert(m.skip("BAND_LTE_"@.len() as int) == n);
        assert(intel::band_names(all) =~= init.map_values(|n: Seq<char>| "B"@ + n).push("B"@ + n));
        assert(short =~= init.map_values(|n: Seq<char>| "B"@ + n).push("B"@ + n));
    }
}

/// The line of `+XLEC` tells how many carriers there are, how wide each one is, and which bands
/// they are in; the widths add up to the total.
#[verifier::spinoff_prover]
#[verifier::rlimit(50)]
pub proof fn theorem_aggregation_reply(
    first: Seq<char>,
    codes: Seq<nat>,
    names: Seq<Seq<char>>,
    end: Seq<char>,
)
    requires
        end == seq!['\n'] || end == seq!['\r', '\n'],
        1 <= codes.len() <= 8,
        forall|i: int| 0 <= i < codes.len() ==> #[trigger] codes[i] < 6,
        !first.contains(','),
        !first.contains('B'),
        forall|i: int|
            0 <= i < names.len() ==> (#[trigger] names[i]).len() > 0 && !names[i].contains(',')
                && !text::is_white_space(names[i].last()),
        text_laws::is_in_line(aggregation_line(first, codes, names)),
    ensures
        ({
            let ws = codes.map_values(|c: nat| widths()[c as int]);
            intel::aggregation_in(
                text_laws::with_ends(seq![aggregation_line(first, codes, names)], end),
            ) == Some(
                Carriers {
                    carriers: codes.len() as int,
                    bandwidths: ws,
                    bands: names.map_values(|n: Seq<char>| "B"@ + n),
                    total: intel::sum_of(ws),
                },
            )
        }),
{
    reveal_strlit("+XLEC:");
    reveal_strlit("BAND_LTE_");
    let mark = seq!['+', 'X', 'L', 'E', 'C'];
    assert("+XLEC:"@ == mark + seq![':']);
    let n = codes.len() as int;
    let ws = codes.map_values(|c: nat| widths()[c as int]);
    let head = seq![first, numbers::decimal(codes.len())] + codes.map_values(
        |c: nat| numbers::decimal(c),
    );
    let marked = names.map_values(|n: Seq<char>| "BAND_LTE_"@ + n);
    let ps = head + marked;
    let line = aggregation_line(first, codes, names);
    numbers::lemma_decimal(codes.len());
    assert forall|i: int| 0 <= i < head.len() implies !(#[trigger] head[i]).contains(',')
        && !head[i].contains('B') by {
        if i == 1 {
            lemma_decimal_plain(codes.len());
        } else if i > 1 {
            assert(head[i] == numbers::decimal(codes[i - 2]));
            lemma_decimal_plain(codes[i - 2]);
        }
    }
    assert forall|i: int| 0 <= i < ps.len() implies !(#[trigger] ps[i]).contains(',') by {
        if i >= head.len() {
            let m = ps[i];
            let name = names[i - head.len()];
            assert(m == "BAND_LTE_"@ + name);
            assert forall|k: int| 0 <= k < m.len() implies m[k] != ',' by {
                if k >= 9 {
                    assert(name.contains(name[k - 9]));
                }
            }
        } else {
            assert(ps[i] == head[i]);
        }
    }
    assert forall|i: int| 0 <= i < head.len() implies !"BAND_LTE_"@.is_prefix_of(
        text::trimmed(#[trigger] head[i]),
    ) by {
        let h = head[i];
        let t = text::trimmed(h);
        text_laws::theorem_trimmed_is_the_text_without_blanks(h);
        let (a, b) = choose|a: Seq<char>, b: Seq<char>| #[trigger]
            text_laws::is_blank(a) && #[trigger] text_laws::is_blank(b) && h == a + t + b;
        if "BAND_LTE_"@.is_prefix_of(t) {
            assert(t[0] == "BAND_LTE_"@[0]);
            assert(h[a.len() as int] == 'B');
            assert(h.contains('B'));
        }
    }
    lemma_line_pieces(mark, ps);
    let body = text_laws::with_ends(seq![line], end);
    assert forall|i: int| 0 <= i < seq![line].len() implies text_laws::is_in_line(
        #[trigger] seq![line][i],
    ) by {}
    text_laws::theorem_lines_are_read_back(seq![line], end);
    let e = Seq::<Seq<char>>::empty();
    assert(e + seq![line] + e == seq![line]);
    text_laws::theorem_first_line_with(e, line, e, "+XLEC:"@);
    assert(line[0] == '+');
    lemma_last_of_joined(ps);
    assert(!text::is_white_space(line.last())) by {
        assert(line.last() == ps.last().last());
        if names.len() > 0 {
            assert(ps.last() == "BAND_LTE_"@ + names[names.len() - 1]);
        } else {
            assert(ps.last() == numbers::decimal(codes[n - 1]));
            numbers::lemma_decimal(codes[n - 1]);
            let d = numbers::decimal(codes[n - 1]);
            assert(text::is_digit(d[d.len() - 1]));
        }
    }
    text::lemma_trimmed_of_plain(line);
    let d = numbers::decimal(codes.len());
    assert(text::is_digit(d[0]) && text::is_digit(d[d.len() - 1]));
    text::lemma_trimmed_of_plain(d);
    numbers::lemma_unsigned_of_decimal(codes.len(), usize::MAX as int);
    assert(ps[1] == d);
    assert forall|i: int| 2 <= i < 2 + n implies intel::width_in(#[trigger] ps[i]) == Some(
        widths()[codes[i - 2] as int],
    ) by {
        assert(ps[i] == numbers::decimal(codes[i - 2]));
        lemma_codes(codes, i - 2);
    }
    assert(intel::is_plausible(ps, n));
    let got = Seq::new(n as nat, |i: int| intel::width_in(ps[2 + i])->0);
    assert(got =~= ws) by {
        assert forall|i: int| 0 <= i < n implies got[i] == ws[i] by {
            assert(intel::width_in(ps[2 + i]) == Some(widths()[codes[2 + i - 2] as int]));
        }
    }
    lemma_bands(head, names);
}

/// The line of `+XLEC` for some carriers.
pub open spec fn aggregation_line(
    first: Seq<char>,
    codes: Seq<nat>,
    names: Seq<Seq<char>>,
) -> Seq<char> {
    "+XLEC:"@ + text::joined(
        seq![first, numbers::decimal(codes.len())] + codes.map_values(
            |c: nat| numbers::decimal(c),
        ) + names.map_values(|n: Seq<char>| "BAND_LTE_"@ + n),
        seq![','],
    )
}

proof fn lemma_decimal_plain(n: nat)
    ensures
        !numbers::decimal(n).contains(','),
        !numbers::decimal(n).contains('B'),
{
    numbers::lemma_decimal(n);
    let d = numbers::decimal(n);
    assert forall|i: int| 0 <= i < d.len() implies d[i] != ',' && d[i] != 'B' by {
        assert(text::is_digit(d[i]));
    }
}

proof fn lemma_last_of_joined(ps: Seq<Seq<char>>)
    requires
        ps.len() > 0,
    ensures
        ps.last().len() > 0 ==> text::joined(ps, seq![',']).len() > 0 && text::joined(
            ps,
            seq![','],
        ).last() == ps.last().last(),
{
}

/// Nothing is made of a line that does not make sense: without a count from 1 to 8, or with a
/// width that has no meaning.
pub proof fn theorem_senseless_aggregation(ps: Seq<Seq<char>>, n: int, i: int)
    requires
        n < 1 || n > 8 || ps.len() < 2 + n || (0 <= i < n && intel::width_in(ps[2 + i]) is None),
    ensures
        !intel::is_plausible(ps, n),
{
}

/// The code of a carrier is the place of its width in the list of widths; other codes have none.
pub proof fn theorem_width_codes(code: int)
    ensures
        0 <= code < 6 ==> intel::width_of(code) == Some(widths()[code]),
        !(0 <= code < 6) ==> intel::width_of(code) is None,
{
}

/// A note holds the carrier first and the cell second, whatever comes after them.
pub proof fn theorem_notes(t: Seq<char>, earfcn: u32, pci: u16)
    requires
        text::words(t).len() >= 2,
        text::words(t)[0] == numbers::decimal(earfcn as nat),
        text::words(t)[1] == numbers::decimal(pci as nat),
    ensures
        intel::state_of(t) == Some((earfcn, pci)),
        simcom::noted(t) == Some((Some(earfcn as int), Some(pci as int))),
{
    numbers::lemma_unsigned_of_decimal(earfcn as nat, 0xffff_ffff);
    numbers::lemma_unsigned_of_decimal(pci as nat, 0xffff);
}

/// A note of fewer than two words is no note of a lock, and neither is one with a word that is no
/// number.
pub proof fn theorem_no_notes(t: Seq<char>)
    ensures
        text::words(t).len() < 2 ==> intel::state_of(t) is None,
        text::words(t).len() == 0 ==> simcom::noted(t) is None,
        text::words(t).len() >= 2 && numbers::unsigned(text::words(t)[0], 10, 0xffff_ffff) is None
            ==> intel::state_of(t) is None,
        text::words(t).len() >= 2 && numbers::unsigned(text::words(t)[1], 10, 0xffff) is None
            ==> intel::state_of(t) is None,
{
}

/// A number of a cell is taken to 16 bits.
pub proof fn theorem_numbers_of_cells(k: u32, p: u16, n: u32)
    requires
        n == 0x1_0000 * k + p,
    ensures
        intel::cell_id(Some(n)) == Some(p),
        intel::cell_id(None) is None,
{
    assert(n % 0x1_0000 == p);
}

/// The line of `+XLEC` is handed on without the blanks around it.
pub proof fn theorem_aggregation_line_is_handed_on(
    before: Seq<char>,
    rest: Seq<char>,
    after: Seq<char>,
    body: Seq<char>,
)
    requires
        text_laws::is_blank(before),
        text_laws::is_blank(after),
        rest.len() > 0,
        !text::is_white_space(rest.last()),
        text::line_list(body) == seq![before + ("+XLEC:"@ + rest) + after],
    ensures
        intel::xlec_line(body) == Some("+XLEC:"@ + rest),
{
    reveal_strlit("+XLEC:");
    let pat = "+XLEC:"@;
    let t = pat + rest;
    let line = before + t + after;
    assert(t[0] == '+');
    assert(t.last() == rest.last());
    text_laws::theorem_blanks_around(before, t, after);
    text::lemma_occurrence(line, pat);
    assert(line.skip(before.len() as int) == pat + rest + after);
    assert(pat.is_prefix_of(line.skip(before.len() as int)));
    let e = Seq::<Seq<char>>::empty();
    assert(e + seq![line] + e == seq![line]);
    text_laws::theorem_first_line_with(e, line, e, pat);
}

} // verus!
