//! Laws of what is asked in forms and of what is answered.

use crate::api;
use crate::api::{Act, Page, Task};
use crate::at::Reply;
use crate::http::{RequestView, ResponseView};
use crate::json;
use crate::json::JsonView;
use crate::modem;
use crate::modem::{Answer, CapsView, Locks, Move, Record};
use crate::modem_laws;
use crate::numbers;
use crate::signal::{Cell, SampleView, SignalView};
use crate::text;
use crate::text_laws;
use vstd::prelude::*;
use vstd::utf8::*;

verus! {

// ---------------------------------------------------------------------------
// What is asked
// ---------------------------------------------------------------------------
/// Of several pairs with a key, the first one counts; without one, there is no value.
pub proof fn theorem_first_pair_counts(f: Seq<(Seq<char>, Seq<char>)>, key: Seq<char>, i: int)
    ensures
        0 <= i < f.len() && f[i].0 == key && (forall|j: int|
            0 <= j < i ==> (#[trigger] f[j]).0 != key) ==> json::form_value(f, key) == Some(f[i].1),
        (forall|j: int| 0 <= j < f.len() ==> (#[trigger] f[j]).0 != key) ==> json::form_value(
            f,
            key,
        ) is None,
    decreases f.len(),
{
    if f.len() > 0 {
        let rest = f.skip(1);
        assert(forall|j: int| 0 <= j < rest.len() ==> rest[j] == f[j + 1]);
        theorem_first_pair_counts(rest, key, i - 1);
        if f[0].0 != key {
            if 0 <= i < f.len() && f[i].0 == key && (forall|j: int|
                0 <= j < i ==> (#[trigger] f[j]).0 != key) {
                assert(rest[i - 1] == f[i]);
                assert forall|j: int| 0 <= j < i - 1 implies (#[trigger] rest[j]).0 != key by {
                    assert(f[j + 1].0 != key);
                }
            }
            if forall|j: int| 0 <= j < f.len() ==> (#[trigger] f[j]).0 != key {
                assert forall|j: int| 0 <= j < rest.len() implies (#[trigger] rest[j]).0 != key by {
                    assert(f[j + 1].0 != key);
                }
            }
        } else if 0 <= i < f.len() && (forall|j: int| 0 <= j < i ==> (#[trigger] f[j]).0 != key) {
            if i > 0 {
                assert(f[0].0 != key);
            }
        }
    }
}

/// Decoding goes from the front: a plus sign is a space, an escape is the byte that its two
/// digits write, and every other byte, a percent sign without an escape among them, stays.
pub proof fn theorem_decoding(b: u8, h: u8, l: u8, rest: Seq<u8>)
    requires
        rest.len() == 0 || b != 0x25,
    ensures
        json::url_decoded(seq![0x2bu8] + rest) == seq![0x20u8] + json::url_decoded(rest),
        b != 0x2b ==> json::url_decoded(seq![b] + rest) == seq![b] + json::url_decoded(rest),
        0x30 <= h <= 0x39 && 0x30 <= l <= 0x39 ==> json::url_decoded(seq![0x25u8, h, l] + rest)
            == seq![((h - 0x30) * 16 + (l - 0x30)) as u8] + json::url_decoded(rest),
        0x41 <= h <= 0x46 && 0x61 <= l <= 0x66 ==> json::url_decoded(seq![0x25u8, h, l] + rest)
            == seq![((h - 0x41 + 10) * 16 + (l - 0x61 + 10)) as u8] + json::url_decoded(rest),
        0x61 <= h <= 0x66 && 0x41 <= l <= 0x46 ==> json::url_decoded(seq![0x25u8, h, l] + rest)
            == seq![((h - 0x61 + 10) * 16 + (l - 0x41 + 10)) as u8] + json::url_decoded(rest),
        (l < 0x30 || l > 0x66) ==> json::url_decoded(seq![0x25u8, h, l] + rest) == seq![0x25u8]
            + json::url_decoded(seq![h, l] + rest),
{
    let plus = seq![0x2bu8] + rest;
    let one = seq![b] + rest;
    let esc = seq![0x25u8, h, l] + rest;
    assert(plus.skip(1) == rest);
    assert(one.skip(1) == rest);
    assert(esc.skip(3) == rest);
    assert(esc.skip(1) == seq![h, l] + rest);
}

/// The digits of an escape: those of hexadecimal numbers in either case. A plus sign may stand in
/// place of the first one.
pub proof fn theorem_escapes(h: u8, l: u8)
    ensures
        0x30 <= h <= 0x39 ==> json::nibble(h) == h - 0x30,
        0x41 <= h <= 0x46 ==> json::nibble(h) == h - 0x41 + 10,
        0x61 <= h <= 0x66 ==> json::nibble(h) == h - 0x61 + 10,
        h < 0x30 || (0x39 < h && h < 0x41) || (0x46 < h && h < 0x61) || h > 0x66 ==> json::nibble(h)
            < 0,
        json::nibble(h) >= 0 && json::nibble(l) >= 0 ==> json::escaped_byte(h, l) == Some(
            (json::nibble(h) * 16 + json::nibble(l)) as u8,
        ),
        h == 0x2b && json::nibble(l) >= 0 ==> json::escaped_byte(h, l) == Some(
            json::nibble(l) as u8,
        ),
        json::nibble(l) < 0 || (json::nibble(h) < 0 && h != 0x2b) ==> json::escaped_byte(h, l)
            is None,
{
}

/// The pieces of a form between ampersands are its pairs, in their order: an empty piece is none,
/// a piece is parted at its first equals sign, and one without it is a key with an empty value.
pub proof fn theorem_pieces_of_a_form(a: Seq<char>, key: Seq<char>, value: Seq<char>)
    requires
        !key.contains('='),
        !key.contains('&'),
        !value.contains('&'),
        key.len() > 0,
    ensures
        json::form(a + seq!['&'] + (key + seq!['='] + value)) == json::form(a).push(
            (json::decoded_text(key), json::decoded_text(value)),
        ),
        json::form(a + seq!['&'] + key) == json::form(a).push(
            (json::decoded_text(key), json::decoded_text(seq![])),
        ),
        json::form(a.push('&')) == json::form(a),
        json::form(seq![]).len() == 0,
{
    let e = Seq::<char>::empty();
    let pair = key + seq!['='] + value;
    assert(!pair.contains('&')) by {
        assert forall|i: int| 0 <= i < pair.len() implies pair[i] != '&' by {
            if i < key.len() {
                assert(key.contains(key[i]));
            } else if i > key.len() {
                assert(value.contains(value[i - key.len() - 1]));
            }
        }
    }
    let before = text::pieces(a, '&');
    text::lemma_pieces_concat(a, '&', pair);
    text::lemma_pieces_concat(a, '&', key);
    text::lemma_pieces_concat(a, '&', e);
    text::lemma_piece(pair, '&', e);
    text::lemma_piece(key, '&', e);
    text::lemma_piece(e, '&', e);
    text::lemma_piece(key, '=', value);
    text_laws::theorem_halves_are_the_text(key, '=');
    assert(a.push('&') == a + seq!['&'] + e);
    assert((before + seq![pair]).drop_last() == before);
    assert((before + seq![key]).drop_last() == before);
    assert((before + seq![e]).drop_last() == before);
    assert((before + seq![pair]).last() == pair);
    assert((before + seq![key]).last() == key);
    assert((before + seq![e]).last() == e);
    assert(pair.len() > 0);
    assert(seq![e].drop_last() == Seq::<Seq<char>>::empty());
    reveal_with_fuel(json::form_pairs, 2);
}

/// A number in a form, with blanks around it or none, is taken up to the limit; a larger one is
/// refused, and the refusal names it and the limit.
pub proof fn theorem_numbers_in_forms(
    before: Seq<char>,
    after: Seq<char>,
    n: nat,
    name: Seq<char>,
    max: nat,
)
    requires
        text_laws::is_blank(before),
        text_laws::is_blank(after),
        max <= 0xffff,
    ensures
        ({
            let r = api::form_number(
                Some(before + numbers::decimal(n) + after),
                name,
                max as int,
            );
            &&& n <= max ==> r == Ok::<int, Seq<char>>(n as int)
            &&& max < n <= 0xffff_ffff ==> r == Err::<int, Seq<char>>(
                name + " "@ + numbers::decimal(n) + " вне допустимого диапазона 0.."@
                    + numbers::decimal(max),
            )
            &&& n > 0xffff_ffff ==> r == Err::<int, Seq<char>>(
                name + " должен быть целым числом, получено «"@ + numbers::decimal(n) + "»"@,
            )
        }),
{
    let d = numbers::decimal(n);
    numbers::lemma_decimal(n);
    assert(text::is_digit(d[0]) && text::is_digit(d[d.len() - 1]));
    text_laws::theorem_blanks_around(before, d, after);
    numbers::lemma_unsigned_of_decimal(n, 0xffff_ffff);
}

/// Without a number in the form, or with nothing but blanks in its place, the number is asked
/// for by its name; a text with a character that is no digit is refused as it is.
pub proof fn theorem_no_number_in_form(
    blank: Seq<char>,
    t: Seq<char>,
    name: Seq<char>,
    max: int,
    i: int,
)
    requires
        text_laws::is_blank(blank),
        0 <= i < t.len(),
        t[i] < '0' || t[i] > '9',
        i > 0 || t[i] != '+',
        !text::is_white_space(t[0]),
        !text::is_white_space(t.last()),
    ensures
        api::form_number(None, name, max) == Err::<int, Seq<char>>("не указан "@ + name),
        api::form_number(Some(blank), name, max) == Err::<int, Seq<char>>("не указан "@ + name),
        api::form_number(Some(t), name, max) == Err::<int, Seq<char>>(
            name + " должен быть целым числом, получено «"@ + t + "»"@,
        ),
{
    let e = Seq::<char>::empty();
    text_laws::theorem_blanks_around(blank, e, e);
    assert(blank + e + e == blank);
    text::lemma_trimmed_of_plain(t);
    let d = numbers::without_plus(t);
    if numbers::unsigned(t, 10, 0xffff_ffff) is Some {
        assert(numbers::all_digits(d, 10));
        if d == t {
            assert(numbers::digit_value(d[i]) < 10);
        } else {
            assert(d[i - 1] == t[i]);
            assert(numbers::digit_value(d[i - 1]) < 10);
        }
    }
}

proof fn lemma_paths()
    ensures
        "GET"@ != "POST"@,
        "/"@ != "/app.js"@,
        "/"@ != "/style.css"@,
        "/app.js"@ != "/style.css"@,
        forall|p: Seq<char>|
            #![trigger "/api/"@.is_prefix_of(p)]
            "/api/"@.is_prefix_of(p) ==> p != "/"@ && p != "/app.js"@ && p != "/style.css"@,
        "/api/"@.is_prefix_of("/api/status"@),
        "/api/"@.is_prefix_of("/api/history"@),
        "/api/"@.is_prefix_of("/api/bands"@),
        "/api/status"@ != "/api/history"@,
        "/api/status"@ != "/api/bands"@,
        "/api/history"@ != "/api/bands"@,
        "/api/lock/earfcn"@ != "/api/lock/pci"@,
        "/api/unlock"@.len() == 11,
        "/api/reset"@.len() == 10,
        "/api/scan"@.len() == 9,
        "/api/bands"@.len() == 10,
        "/api/at"@.len() == 7,
        "/api/lock/earfcn"@.len() == 16,
        "/api/lock/pci"@.len() == 13,
        "/api/reset"@ != "/api/bands"@,
{
    reveal_strlit("GET");
    reveal_strlit("POST");
    reveal_strlit("/");
    reveal_strlit("/app.js");
    reveal_strlit("/style.css");
    reveal_strlit("/api/");
    reveal_strlit("/api/status");
    reveal_strlit("/api/history");
    reveal_strlit("/api/bands");
    reveal_strlit("/api/unlock");
    reveal_strlit("/api/reset");
    reveal_strlit("/api/scan");
    reveal_strlit("/api/at");
    reveal_strlit("/api/lock/earfcn");
    reveal_strlit("/api/lock/pci");
    assert("GET"@.len() == 3 && "POST"@.len() == 4);
    assert("/"@.len() == 1 && "/app.js"@.len() == 7 && "/style.css"@.len() == 10);
    assert("/api/status"@.len() == 11 && "/api/history"@.len() == 12);
    assert("/api/lock/earfcn"@.len() == 16 && "/api/lock/pci"@.len() == 13);
    assert("/api/reset"@[5] == 'r' && "/api/bands"@[5] == 'b');
    assert("/api/"@[2] == 'p' && "/api/"@[3] == 'i' && "/app.js"@[3] == 'p' && "/style.css"@[2]
        == 't');
    assert forall|p: Seq<char>|
        #![trigger "/api/"@.is_prefix_of(p)]
        "/api/"@.is_prefix_of(p) implies p != "/"@ && p != "/app.js"@ && p != "/style.css"@ by {
        assert(p[2] == "/api/"@[2] && p[3] == "/api/"@[3]);
    }
}

/// What is read and what is done, by method and path.
pub proof fn theorem_paths(body: Seq<char>)
    ensures
        ({
            let get = |path: Seq<char>|
                api::action_for(
                    RequestView { method: "GET"@, path, headers: Map::empty(), body },
                );
            let post = |path: Seq<char>|
                api::action_for(
                    RequestView { method: "POST"@, path, headers: Map::empty(), body },
                );
            &&& get("/"@) == Act::Show(Page::Index)
            &&& get("/app.js"@) == Act::Show(Page::Script)
            &&& get("/style.css"@) == Act::Show(Page::Style)
            &&& get("/api/status"@) == Act::Work(Task::Status)
            &&& get("/api/history"@) == Act::History
            &&& get("/api/bands"@) == Act::Work(Task::ReadBands)
            &&& post("/api/unlock"@) == Act::Work(Task::Unlock)
            &&& post("/api/reset"@) == Act::Work(Task::Reset)
            &&& post("/api/scan"@) == Act::Scan
        }),
{
    lemma_paths();
}

/// A mask of bands is taken as it is sent, and a command without the blanks around it; neither
/// may be missing.
pub proof fn theorem_masks_and_commands(
    mask: Seq<char>,
    before: Seq<char>,
    cmd: Seq<char>,
    after: Seq<char>,
    field: (Seq<char>, Seq<char>),
    line: (Seq<char>, Seq<char>),
)
    requires
        mask.len() > 0,
        text_laws::is_blank(before),
        text_laws::is_blank(after),
        cmd.len() > 0,
        !text::is_white_space(cmd[0]),
        !text::is_white_space(cmd.last()),
        json::encodes_pair(field, ("mask"@, mask)),
        json::encodes_pair(line, ("cmd"@, before + cmd + after)),
    ensures
        api::post_action("/api/bands"@, json::form_text(seq![field])) == Act::Work(
            Task::SetBands(mask),
        ),
        api::post_action("/api/at"@, json::form_text(seq![line])) == Act::Work(Task::RawAt(cmd)),
        api::post_action("/api/bands"@, seq![]) == Act::Answer(
            api::error_response(400, "не указана маска бэндов"@),
        ),
        api::post_action("/api/at"@, seq![]) == Act::Answer(
            api::error_response(400, "пустая команда"@),
        ),
        api::bands_request(seq![("mask"@, seq![])]) == Act::Answer(
            api::error_response(400, "не указана маска бэндов"@),
        ),
        api::command_request(seq![("cmd"@, before)]) == Act::Answer(
            api::error_response(400, "пустая команда"@),
        ),
{
    lemma_paths();
    let e = Seq::<char>::empty();
    json::theorem_form_is_read_back(seq![field], seq![("mask"@, mask)]);
    json::theorem_form_is_read_back(seq![line], seq![("cmd"@, before + cmd + after)]);
    text_laws::theorem_blanks_around(before, cmd, after);
    text_laws::theorem_blanks_around(before, e, e);
    assert(before + e + e == before);
    assert(text::pieces(e, '&') == seq![e]);
    assert(seq![e].drop_last() == Seq::<Seq<char>>::empty());
    reveal_with_fuel(json::form_pairs, 2);
    assert(json::form(e) == Seq::<(Seq<char>, Seq<char>)>::empty());
    reveal_with_fuel(json::form_value, 2);
}

// ---------------------------------------------------------------------------
// What is answered
// ---------------------------------------------------------------------------
/// Whether an object shows a value under a name.
pub open spec fn shows(v: JsonView, name: Seq<char>, w: JsonView) -> bool {
    v matches JsonView::Obj(pairs) && exists|i: int|
        0 <= i < pairs.len() && #[trigger] pairs[i] == (name, w)
}

/// A number or nothing, as it is shown.
pub open spec fn int_or_null(n: Option<int>) -> JsonView {
    match n {
        Some(i) => JsonView::Int(i),
        None => JsonView::Null,
    }
}

/// A text or nothing, as it is shown.
pub open spec fn text_or_null(t: Option<Seq<char>>) -> JsonView {
    match t {
        Some(s) => JsonView::Str(s),
        None => JsonView::Null,
    }
}

/// A measurement or nothing, as it is shown.
pub open spec fn number_or_null(n: Option<Option<Seq<char>>>) -> JsonView {
    match n {
        Some(t) => JsonView::Num(t),
        None => JsonView::Null,
    }
}

/// A number of 16 bits as a mathematical one.
pub open spec fn small(n: Option<u16>) -> Option<int> {
    match n {
        Some(i) => Some(i as int),
        None => None,
    }
}

/// Each lock is shown under its own name, and a conflict is shown exactly if both a carrier and a
/// cell are locked.
pub proof fn theorem_locks_are_answered(l: Locks)
    ensures
        ({
            let v = api::lock_value(l);
            &&& v->Obj_0.len() == 6
            &&& shows(v, "earfcn"@, int_or_null(small(l.earfcn)))
            &&& shows(v, "pciEarfcn"@, int_or_null(small(l.pci_earfcn)))
            &&& shows(v, "pci"@, int_or_null(small(l.pci)))
            &&& shows(v, "rawEarfcn"@, text_or_null(l.raw_earfcn))
            &&& shows(v, "rawPci"@, text_or_null(l.raw_pci))
            &&& shows(v, "conflict"@, JsonView::Bool(l.earfcn is Some && l.pci is Some))
        }),
{
    let p = api::lock_value(l)->Obj_0;
    assert(p[0] == ("earfcn"@, int_or_null(small(l.earfcn))));
    assert(p[1] == ("pciEarfcn"@, int_or_null(small(l.pci_earfcn))));
    assert(p[2] == ("pci"@, int_or_null(small(l.pci))));
    assert(p[3] == ("rawEarfcn"@, text_or_null(l.raw_earfcn)));
    assert(p[4] == ("rawPci"@, text_or_null(l.raw_pci)));
    assert(p[5] == ("conflict"@, JsonView::Bool(l.earfcn is Some && l.pci is Some)));
}

/// Each part of the signal is shown under its own name.
pub proof fn theorem_signal_is_answered(s: SignalView<Option<Seq<char>>>)
    ensures
        ({
            let v = api::signal_value(s);
            let earfcn = match s.earfcn {
                Some(i) => Some(i as int),
                None => None,
            };
            &&& v->Obj_0.len() == 9
            &&& shows(v, "rsrp"@, number_or_null(s.rsrp))
            &&& shows(v, "rsrq"@, number_or_null(s.rsrq))
            &&& shows(v, "sinr"@, number_or_null(s.sinr))
            &&& shows(v, "rssi"@, number_or_null(s.rssi))
            &&& shows(v, "earfcn"@, int_or_null(earfcn))
            &&& shows(v, "pci"@, int_or_null(small(s.pci)))
            &&& shows(v, "band"@, text_or_null(s.band))
            &&& shows(v, "operator"@, text_or_null(s.operator))
            &&& shows(v, "registered"@, JsonView::Bool(s.registered))
        }),
{
    let p = api::signal_value(s)->Obj_0;
    let earfcn = match s.earfcn {
        Some(i) => Some(i as int),
        None => None,
    };
    assert(p[0] == ("rsrp"@, number_or_null(s.rsrp)));
    assert(p[1] == ("rsrq"@, number_or_null(s.rsrq)));
    assert(p[2] == ("sinr"@, number_or_null(s.sinr)));
    assert(p[3] == ("rssi"@, number_or_null(s.rssi)));
    assert(p[4] == ("earfcn"@, int_or_null(earfcn)));
    assert(p[5] == ("pci"@, int_or_null(small(s.pci))));
    assert(p[6] == ("band"@, text_or_null(s.band)));
    assert(p[7] == ("operator"@, text_or_null(s.operator)));
    assert(p[8] == ("registered"@, JsonView::Bool(s.registered)));
}

/// Each thing that the modem can do is shown under its own name.
pub proof fn theorem_caps_are_answered(c: CapsView)
    ensures
        ({
            let v = api::caps_value(c);
            &&& v->Obj_0.len() == 5
            &&& shows(v, "efs"@, JsonView::Bool(c.efs))
            &&& shows(v, "serving"@, text_or_null(c.serving))
            &&& shows(v, "neighbors"@, text_or_null(c.neighbors))
            &&& shows(v, "bands"@, text_or_null(c.bands_query))
            &&& shows(v, "bandsWritable"@, JsonView::Bool(c.bands_set is Some))
        }),
{
    let p = api::caps_value(c)->Obj_0;
    assert(p[0] == ("efs"@, JsonView::Bool(c.efs)));
    assert(p[1] == ("serving"@, text_or_null(c.serving)));
    assert(p[2] == ("neighbors"@, text_or_null(c.neighbors)));
    assert(p[3] == ("bands"@, text_or_null(c.bands_query)));
    assert(p[4] == ("bandsWritable"@, JsonView::Bool(c.bands_set is Some)));
}

/// All cells are answered in their order, each part of a cell under its own name, and one more
/// cell is one more entry at the end.
pub proof fn theorem_cells_are_answered(
    cells: Seq<Cell<Option<Seq<char>>>>,
    c: Cell<Option<Seq<char>>>,
)
    ensures
        ({
            let v = api::cell_value(c);
            let list = api::cells_value(cells);
            &&& v->Obj_0.len() == 4
            &&& shows(v, "earfcn"@, JsonView::Int(c.earfcn as int))
            &&& shows(v, "pci"@, JsonView::Int(c.pci as int))
            &&& shows(v, "rsrp"@, number_or_null(c.rsrp))
            &&& shows(v, "rsrq"@, number_or_null(c.rsrq))
            &&& list is Arr
            &&& api::cells_value(cells.push(c)) == JsonView::Arr(list->Arr_0.push(v))
            &&& api::cells_value(seq![]) == JsonView::Arr(seq![])
            &&& shows(api::scan_value(cells), "neighbors"@, list)
        }),
{
    let p = api::cell_value(c)->Obj_0;
    assert(p[0] == ("earfcn"@, JsonView::Int(c.earfcn as int)));
    assert(p[1] == ("pci"@, JsonView::Int(c.pci as int)));
    assert(p[2] == ("rsrp"@, number_or_null(c.rsrp)));
    assert(p[3] == ("rsrq"@, number_or_null(c.rsrq)));
    assert(api::cells_value(cells.push(c))->Arr_0 =~= api::cells_value(cells)->Arr_0.push(
        api::cell_value(c),
    ));
    assert(api::cells_value(seq![])->Arr_0 =~= seq![]);
    assert(api::scan_value(cells)->Obj_0[0] == ("neighbors"@, api::cells_value(cells)));
}

/// All points of the graph are answered in their order, each part of a point under its own name,
/// and one more point is one more entry at the end.
pub proof fn theorem_history_is_answered(
    samples: Seq<SampleView<Option<Seq<char>>>>,
    s: SampleView<Option<Seq<char>>>,
    list: Seq<JsonView>,
)
    requires
        0 <= s.ts <= 0x7fff_ffff_ffff_ffff,
        shows(api::history_value(samples), "samples"@, JsonView::Arr(list)),
    ensures
        ({
            let v = api::sample_value(s);
            &&& v->Obj_0.len() == 4
            &&& shows(v, "ts"@, JsonView::Int(s.ts))
            &&& shows(v, "rsrp"@, number_or_null(s.rsrp))
            &&& shows(v, "rsrq"@, number_or_null(s.rsrq))
            &&& shows(v, "sinr"@, number_or_null(s.sinr))
            &&& list.len() == samples.len()
            &&& shows(
                api::history_value(samples.push(s)),
                "samples"@,
                JsonView::Arr(list.push(v)),
            )
        }),
{
    let p = api::sample_value(s)->Obj_0;
    assert(p[0] == ("ts"@, JsonView::Int(s.ts)));
    assert(p[1] == ("rsrp"@, number_or_null(s.rsrp)));
    assert(p[2] == ("rsrq"@, number_or_null(s.rsrq)));
    assert(p[3] == ("sinr"@, number_or_null(s.sinr)));
    let before = api::history_value(samples)->Obj_0;
    let after = api::history_value(samples.push(s))->Obj_0;
    assert(before[0] == ("samples"@, JsonView::Arr(list)));
    assert(after[0].1->Arr_0 =~= list.push(api::sample_value(s)));
    assert(after[0] == ("samples"@, JsonView::Arr(list.push(api::sample_value(s)))));
}

/// Whether a response carries a value as JSON with a status.
pub open spec fn carries(r: ResponseView, status: int, v: JsonView) -> bool {
    &&& r.status == status
    &&& r.content_type == "application/json; charset=utf-8"@
    &&& r.body == encode_utf8(json::json_text(v))
    &&& r.extra_headers.len() == 0
}

/// A refusal carries its message under `error`, and a success what is to be shown.
pub proof fn theorem_answers_carry_their_value(status: int, message: Seq<char>, v: JsonView)
    ensures
        carries(
            api::error_response(status, message),
            status,
            JsonView::Obj(seq![("error"@, JsonView::Str(message))]),
        ),
        carries(api::ok_response(v), 200, v),
        api::message_value(message) == JsonView::Obj(seq![("message"@, JsonView::Str(message))]),
{
}

/// The parts of the page are answered as they are, each with its own type.
pub proof fn theorem_pages(t: Seq<char>)
    ensures
        forall|p: Page|
            {
                let r = #[trigger] api::page_response(p, t);
                r.status == 200 && r.body == encode_utf8(t) && r.extra_headers.len() == 0
            },
        api::page_response(Page::Index, t).content_type == "text/html; charset=utf-8"@,
        api::page_response(Page::Script, t).content_type
            == "application/javascript; charset=utf-8"@,
        api::page_response(Page::Style, t).content_type == "text/css; charset=utf-8"@,
{
}

/// A request for the status reads the locks and nothing else, and is answered with all that is
/// known, whether the locks could be read or not: where they could not, none is shown.
pub proof fn theorem_status_is_answered(
    transport: Seq<char>,
    known: Record,
    signal: SignalView<Option<Seq<char>>>,
    rs: Seq<Answer>,
    sw: Seq<bool>,
)
    ensures
        ({
            let next = api::work(Task::Status, transport, known, signal, rs, sw);
            let none = Locks {
                earfcn: None,
                pci_earfcn: None,
                pci: None,
                raw_earfcn: None,
                raw_pci: None,
            };
            let v = |l: Locks| api::status_value(transport, known, l, signal);
            &&& modem::lock_reading(rs) matches Move::Send(c) ==> next == Move::<
                ResponseView,
            >::Send(c)
            &&& modem::lock_reading(rs) matches Move::Done(l) ==> (next matches Move::Done(r)
                && carries(r, 200, v(l)))
            &&& modem::lock_reading(rs) is Failed ==> (next matches Move::Done(r) && carries(
                r,
                200,
                v(none),
            ))
            &&& forall|l: Locks| #[trigger]
                v(l)->Obj_0.len() == 5 && shows(v(l), "transport"@, JsonView::Str(transport))
                    && shows(v(l), "info"@, JsonView::Str(known.info)) && shows(
                    v(l),
                    "caps"@,
                    api::caps_value(known.caps),
                ) && shows(v(l), "lock"@, api::lock_value(l)) && shows(
                    v(l),
                    "signal"@,
                    api::signal_value(signal),
                )
        }),
{
    let v = |l: Locks| api::status_value(transport, known, l, signal);
    assert forall|l: Locks| #[trigger]
        v(l)->Obj_0.len() == 5 && shows(v(l), "transport"@, JsonView::Str(transport)) && shows(
            v(l),
            "info"@,
            JsonView::Str(known.info),
        ) && shows(v(l), "caps"@, api::caps_value(known.caps)) && shows(
            v(l),
            "lock"@,
            api::lock_value(l),
        ) && shows(v(l), "signal"@, api::signal_value(signal)) by {
        let p = v(l)->Obj_0;
        assert(p[0] == ("transport"@, JsonView::Str(transport)));
        assert(p[1] == ("info"@, JsonView::Str(known.info)));
        assert(p[2] == ("caps"@, api::caps_value(known.caps)));
        assert(p[3] == ("lock"@, api::lock_value(l)));
        assert(p[4] == ("signal"@, api::signal_value(signal)));
    }
}

/// How a lock is answered: with the locks as they are read afterwards, and with the word that the
/// modem has to be restarted.
pub proof fn theorem_lock_answer(l: Locks)
    ensures
        ({
            let v = api::lock_result_value(l);
            &&& v->Obj_0.len() == 2
            &&& shows(v, "lock"@, api::lock_value(l))
            &&& shows(
                v,
                "message"@,
                JsonView::Str(
                    "Записано. Изменения вступят в силу после перезагрузки модема."@,
                ),
            )
        }),
{
    let p = api::lock_result_value(l)->Obj_0;
    assert(p[0] == ("lock"@, api::lock_value(l)));
    assert(p[1].0 == "message"@);
    assert(p[1] == (
        "message"@,
        JsonView::Str("Записано. Изменения вступят в силу после перезагрузки модема."@),
    ));
}

/// A lock is set by what sets it on the modem: what that sends is sent, what it fails with is
/// answered as a refusal, and only when it is done are the locks read, from the replies that it
/// has not taken. Where they cannot be read, none is shown.
pub proof fn theorem_locks_are_worked(
    m: Move<()>,
    taken: int,
    rs: Seq<Answer>,
    e: Seq<char>,
    c: Seq<char>,
)
    ensures
        m == Move::<()>::Send(c) ==> api::lock_work(m, taken, rs) == Move::<ResponseView>::Send(c),
        m == Move::<()>::SendSlow(c) ==> api::lock_work(m, taken, rs) == Move::<
            ResponseView,
        >::SendSlow(c),
        m == Move::<()>::Failed(e) ==> (api::lock_work(m, taken, rs) matches Move::Done(r)
            && carries(r, 400, JsonView::Obj(seq![("error"@, JsonView::Str(e))]))),
        m is Done ==> {
            let next = api::lock_work(m, taken, rs);
            let none = Locks {
                earfcn: None,
                pci_earfcn: None,
                pci: None,
                raw_earfcn: None,
                raw_pci: None,
            };
            match modem::lock_reading(rs.skip(taken)) {
                Move::Send(q) => next == Move::<ResponseView>::Send(q),
                Move::Done(l) => next matches Move::Done(r) && carries(
                    r,
                    200,
                    api::lock_result_value(l),
                ),
                _ => next matches Move::Done(r) && carries(r, 200, api::lock_result_value(none)),
            }
        },
{
}

/// What is sent first for each request, whatever is known of the modem: the file that belongs to
/// the lock is written with the numbers of the request, the first file is emptied, the first file
/// is read, the modem is restarted, the command is sent as it is.
pub proof fn theorem_first_things_sent(
    earfcn: u16,
    pci: u16,
    cmd: Seq<char>,
    transport: Seq<char>,
    known: Record,
    signal: SignalView<Option<Seq<char>>>,
)
    requires
        pci <= 503,
    ensures
        ({
            let first = |t: Task| api::work(t, transport, known, signal, seq![], seq![]);
            let low = numbers::hex_pair(earfcn as int % 256) + seq![','] + numbers::hex_pair(
                earfcn as int / 256,
            );
            let cell = numbers::hex_pair(pci as int % 256) + seq![','] + numbers::hex_pair(
                pci as int / 256,
            );
            &&& first(Task::LockEarfcn(earfcn as int)) == Move::<ResponseView>::Send(
                modem_laws::write_of(
                    "/nv/item_files/modem/lte/rrc/csp/earfcn_lock"@,
                    "2"@,
                    low,
                ),
            )
            &&& first(Task::LockPci(earfcn as int, pci as int)) == Move::<ResponseView>::Send(
                modem_laws::write_of(
                    "/nv/item_files/modem/lte/rrc/csp/pci_lock"@,
                    "4"@,
                    low + seq![','] + cell,
                ),
            )
            &&& first(Task::Unlock) == Move::<ResponseView>::Send(
                "at^efs=\"/nv/item_files/modem/lte/rrc/csp/earfcn_lock\",0"@,
            )
            &&& first(Task::Status) == Move::<ResponseView>::Send(
                "at^efs=\"/nv/item_files/modem/lte/rrc/csp/earfcn_lock\""@,
            )
            &&& first(Task::Reset) == Move::<ResponseView>::SendSlow("at+cfun=1,1"@)
            &&& first(Task::RawAt(cmd)) == Move::<ResponseView>::SendSlow(cmd)
        }),
{
    modem_laws::theorem_first_commands(earfcn, pci);
}

/// How the other requests end: with the bands that were read, with the whole reply to a command,
/// with a word on what was done; and with a refusal when the modem did not do it.
pub proof fn theorem_other_answers(
    query: Seq<char>,
    mask: Seq<char>,
    cmd: Seq<char>,
    transport: Seq<char>,
    known: Record,
    signal: SignalView<Option<Seq<char>>>,
    a: Reply,
    e: Seq<char>,
)
    requires
        known.caps.bands_query == Some(query),
    ensures
        ({
            let after = |t: Task, r: Answer|
                api::work(t, transport, known, signal, seq![r], seq![]);
            let reply = api::reply_value(a);
            let refused = JsonView::Obj(seq![("error"@, JsonView::Str(e))]);
            &&& after(Task::ReadBands, Ok(a)) matches Move::Done(r) && carries(
                r,
                200,
                JsonView::Obj(seq![("raw"@, JsonView::Str(a.body))]),
            )
            &&& after(Task::RawAt(cmd), Ok(a)) matches Move::Done(r) && carries(r, 200, reply)
            &&& reply->Obj_0.len() == 4
            &&& shows(reply, "raw"@, JsonView::Str(a.raw))
            &&& shows(reply, "body"@, JsonView::Str(a.body))
            &&& shows(reply, "ok"@, JsonView::Bool(a.ok))
            &&& shows(reply, "error"@, text_or_null(a.error))
            &&& after(Task::Reset, Ok(a)) matches Move::Done(r) && carries(
                r,
                200,
                JsonView::Obj(
                    seq![
                        (
                            "message"@,
                            JsonView::Str(
                                "Модем перезагружается, связь восстановится через 30-60 с"@,
                            ),
                        ),
                    ],
                ),
            )
            &&& after(Task::ReadBands, Err(e)) matches Move::Done(r) && carries(r, 400, refused)
            &&& after(Task::RawAt(cmd), Err(e)) matches Move::Done(r) && carries(r, 400, refused)
            &&& after(Task::Reset, Err(e)) matches Move::Done(r) && carries(r, 400, refused)
            &&& modem::band_setting(known.caps, mask, seq![Ok::<Reply, Seq<char>>(a)]) is Done
                ==> (after(Task::SetBands(mask), Ok(a)) matches Move::Done(r) && carries(
                r,
                200,
                JsonView::Obj(
                    seq![
                        (
                            "message"@,
                            JsonView::Str("Маска записана, требуется перезагрузка модема"@),
                        ),
                    ],
                ),
            ))
            &&& modem::band_setting(known.caps, mask, seq![Ok::<Reply, Seq<char>>(a)]) == Move::<
                (),
            >::Failed(e) ==> (after(Task::SetBands(mask), Ok(a)) matches Move::Done(r) && carries(
                r,
                400,
                refused,
            ))
        }),
{
    let p = api::reply_value(a)->Obj_0;
    assert(p[0] == ("raw"@, JsonView::Str(a.raw)));
    assert(p[1] == ("body"@, JsonView::Str(a.body)));
    assert(p[2] == ("ok"@, JsonView::Bool(a.ok)));
    assert(p[3] == ("error"@, text_or_null(a.error)));
}

/// A moment is shown as the signed number with its 64 bits: as it is in the first half of the
/// range, and less by the whole range in the second.
pub proof fn theorem_moments(ts: u64)
    ensures
        ts < 0x8000_0000_0000_0000 ==> api::moment(ts as int) == ts,
        ts >= 0x8000_0000_0000_0000 ==> api::moment(ts as int) + 0x1_0000_0000_0000_0000 == ts,
        -0x8000_0000_0000_0000 <= api::moment(ts as int) < 0x8000_0000_0000_0000,
{
}

} // verus!
