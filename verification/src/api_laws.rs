//! Laws of the HTTP interface.

use crate::api;
use crate::api::{Act, Task};
use crate::at::Reply;
use crate::demo;
use crate::demo_laws;
use crate::demo_laws::Files;
use crate::http;
use crate::http::{RequestView, ResponseView};
use crate::json;
use crate::json::JsonView;
use crate::json_reading;
use crate::modem;
use crate::modem::{Answer, Locks, Move, Record};
use crate::modem_laws;
use crate::numbers;
use crate::signal::{Cell, SampleView, SignalView};
use crate::text;
use vstd::prelude::*;

verus! {

/// An answer whose body is JSON that denotes the value `v`.
pub open spec fn is_json_answer(r: ResponseView, v: JsonView) -> bool {
    &&& r == http::json_response(r.status, json::json_text(v))
    &&& json_reading::read(json::json_text(v)) == Some(json_reading::denotation(v))
}

proof fn lemma_json_answer(status: int, v: JsonView)
    requires
        json_reading::has_valid_numbers(v),
    ensures
        is_json_answer(http::json_response(status, json::json_text(v)), v),
{
    json_reading::theorem_written_value_is_read_back(v);
}

/// The body of every error is JSON, and the message can be read from it, whatever it holds.
pub proof fn theorem_errors_are_json(status: int, message: Seq<char>)
    ensures
        ({
            let v = JsonView::Obj(seq![("error"@, JsonView::Str(message))]);
            &&& is_json_answer(api::error_response(status, message), v)
            &&& json_reading::read(json::json_text(v)) == Some(v)
        }),
{
    reveal_with_fuel(json_reading::has_valid_numbers, 2);
    reveal_with_fuel(json_reading::denotation, 2);
    let v = JsonView::Obj(seq![("error"@, JsonView::Str(message))]);
    lemma_json_answer(status, v);
    assert(json_reading::denotation(v)->Obj_0 =~= v->Obj_0);
}

/// A number as it is shown is in JSON notation, if it has one.
pub open spec fn is_showable(n: Option<Option<Seq<char>>>) -> bool {
    n matches Some(Some(t)) ==> json_reading::is_number(t)
}

/// Whether all measurements of a signal are in JSON notation.
pub open spec fn is_showable_signal(s: SignalView<Option<Seq<char>>>) -> bool {
    is_showable(s.rsrp) && is_showable(s.rsrq) && is_showable(s.sinr) && is_showable(s.rssi)
}

proof fn lemma_status_numbers(
    transport: Seq<char>,
    known: Record,
    lock: Locks,
    signal: SignalView<Option<Seq<char>>>,
)
    requires
        is_showable_signal(signal),
    ensures
        json_reading::has_valid_numbers(api::status_value(transport, known, lock, signal)),
{
    reveal_with_fuel(json_reading::has_valid_numbers, 2);
    assert(json_reading::has_valid_numbers(api::caps_value(known.caps)));
    assert(json_reading::has_valid_numbers(api::lock_value(lock)));
    assert(json_reading::has_valid_numbers(api::signal_value(signal)));
}

proof fn lemma_lock_numbers(lock: Locks)
    ensures
        json_reading::has_valid_numbers(api::lock_result_value(lock)),
{
    reveal_with_fuel(json_reading::has_valid_numbers, 2);
    assert(json_reading::has_valid_numbers(api::lock_value(lock)));
}

/// An answer whose body is JSON.
pub open spec fn is_json(r: ResponseView) -> bool {
    exists|v: JsonView| is_json_answer(r, v)
}

proof fn lemma_value_is_json(v: JsonView)
    requires
        json_reading::has_valid_numbers(v),
    ensures
        is_json(api::ok_response(v)),
{
    lemma_json_answer(200, v);
    assert(is_json_answer(api::ok_response(v), v));
}

proof fn lemma_error_is_json(e: Seq<char>)
    ensures
        is_json(api::error_response(400, e)),
{
    theorem_errors_are_json(400, e);
    assert(is_json_answer(
        api::error_response(400, e),
        JsonView::Obj(seq![("error"@, JsonView::Str(e))]),
    ));
}

proof fn lemma_lock_work_is_json(m: Move<()>, taken: int, rs: Seq<Answer>)
    ensures
        api::lock_work(m, taken, rs) matches Move::Done(r) ==> is_json(r),
{
    match m {
        Move::Done(_) => {
            let l = api::locks_or_none(modem::lock_reading(rs.skip(taken)));
            lemma_lock_numbers(l);
            lemma_value_is_json(api::lock_result_value(l));
        },
        Move::Failed(e) => {
            lemma_error_is_json(e);
        },
        _ => {},
    }
}

proof fn lemma_plain_work_is_json<V>(m: Move<V>, answer: spec_fn(V) -> ResponseView)
    requires
        forall|v: V| is_json(#[trigger] answer(v)),
    ensures
        api::plain_work(m, answer) matches Move::Done(r) ==> is_json(r),
{
    match m {
        Move::Done(v) => {
            assert(is_json(answer(v)));
        },
        Move::Failed(e) => {
            lemma_error_is_json(e);
        },
        _ => {},
    }
}

proof fn lemma_message_is_json(t: Seq<char>)
    ensures
        is_json(api::ok_response(api::message_value(t))),
{
    reveal_with_fuel(json_reading::has_valid_numbers, 2);
    lemma_value_is_json(api::message_value(t));
}

/// Whatever is asked of the modem, and whatever it replies, the answer is JSON.
pub proof fn theorem_answers_are_json(
    task: Task,
    transport: Seq<char>,
    known: Record,
    signal: SignalView<Option<Seq<char>>>,
    rs: Seq<Answer>,
    sw: Seq<bool>,
)
    requires
        is_showable_signal(signal),
    ensures
        api::work(task, transport, known, signal, rs, sw) matches Move::Done(r) ==> is_json(r),
{
    match task {
        Task::Status => {
            let l = api::locks_or_none(modem::lock_reading(rs));
            lemma_status_numbers(transport, known, l, signal);
            lemma_value_is_json(api::status_value(transport, known, l, signal));
        },
        Task::ReadBands => {
            let answer = |raw: Seq<char>|
                api::ok_response(JsonView::Obj(seq![("raw"@, JsonView::Str(raw))]));
            assert forall|raw: Seq<char>| is_json(#[trigger] answer(raw)) by {
                reveal_with_fuel(json_reading::has_valid_numbers, 2);
                lemma_value_is_json(JsonView::Obj(seq![("raw"@, JsonView::Str(raw))]));
            }
            lemma_plain_work_is_json(modem::band_reading(known.caps, rs), answer);
        },
        Task::LockEarfcn(e) => {
            lemma_lock_work_is_json(
                modem::earfcn_locking(e, rs, sw),
                modem::writes_taken(
                    modem::earfcn_file(e),
                    modem::empty_file(modem::EFS_PCI@),
                    rs,
                    sw,
                ),
                rs,
            );
        },
        Task::LockPci(e, p) => {
            lemma_lock_work_is_json(
                modem::pci_locking(e, p, rs, sw),
                modem::writes_taken(
                    modem::pci_file(e, p),
                    modem::empty_file(modem::EFS_EARFCN@),
                    rs,
                    sw,
                ),
                rs,
            );
        },
        Task::Unlock => {
            lemma_lock_work_is_json(
                modem::unlocking(rs, sw),
                modem::writes_taken(
                    modem::empty_file(modem::EFS_EARFCN@),
                    modem::empty_file(modem::EFS_PCI@),
                    rs,
                    sw,
                ),
                rs,
            );
        },
        Task::Reset => {
            let t = "Модем перезагружается, связь восстановится через 30-60 с"@;
            lemma_message_is_json(t);
            lemma_plain_work_is_json(
                modem::resetting(rs),
                |done: ()| api::ok_response(api::message_value(t)),
            );
        },
        Task::SetBands(mask) => {
            let t = "Маска записана, требуется перезагрузка модема"@;
            lemma_message_is_json(t);
            lemma_plain_work_is_json(
                modem::band_setting(known.caps, mask, rs),
                |done: ()| api::ok_response(api::message_value(t)),
            );
        },
        Task::RawAt(cmd) => {
            let answer = |r: Reply| api::ok_response(api::reply_value(r));
            assert forall|r: Reply| is_json(#[trigger] answer(r)) by {
                reveal_with_fuel(json_reading::has_valid_numbers, 2);
                lemma_value_is_json(api::reply_value(r));
            }
            lemma_plain_work_is_json(modem::sending(cmd, rs), answer);
        },
    }
}

/// The cells around and the history are answered in JSON too.
pub proof fn theorem_lists_are_json(
    cells: Seq<Cell<Option<Seq<char>>>>,
    samples: Seq<SampleView<Option<Seq<char>>>>,
)
    requires
        forall|i: int|
            0 <= i < cells.len() ==> is_showable((#[trigger] cells[i]).rsrp) && is_showable(
                cells[i].rsrq,
            ),
        forall|i: int|
            0 <= i < samples.len() ==> is_showable((#[trigger] samples[i]).rsrp) && is_showable(
                samples[i].rsrq,
            ) && is_showable(samples[i].sinr),
    ensures
        is_json_answer(api::ok_response(api::scan_value(cells)), api::scan_value(cells)),
        is_json_answer(
            api::ok_response(api::history_value(samples)),
            api::history_value(samples),
        ),
{
    reveal_with_fuel(json_reading::has_valid_numbers, 2);
    let list = api::cells_value(cells);
    assert forall|i: int| 0 <= i < list->Arr_0.len() implies json_reading::has_valid_numbers(
        #[trigger] list->Arr_0[i],
    ) by {
        assert(list->Arr_0[i] == api::cell_value(cells[i]));
        assert(is_showable(cells[i].rsrp));
    }
    assert(json_reading::has_valid_numbers(list));
    assert(json_reading::has_valid_numbers(api::scan_value(cells)));
    lemma_json_answer(200, api::scan_value(cells));

    let points = api::history_value(samples)->Obj_0[0].1;
    assert forall|i: int| 0 <= i < points->Arr_0.len() implies json_reading::has_valid_numbers(
        #[trigger] points->Arr_0[i],
    ) by {
        assert(points->Arr_0[i] == api::sample_value(samples[i]));
        assert(is_showable(samples[i].rsrp));
    }
    assert(json_reading::has_valid_numbers(points));
    assert(json_reading::has_valid_numbers(api::history_value(samples)));
    lemma_json_answer(200, api::history_value(samples));
}

/// Only carriers and cells within their ranges are ever locked.
pub proof fn theorem_locks_are_in_range(req: RequestView)
    ensures
        api::action_for(req) matches Act::Work(Task::LockEarfcn(e)) ==> 0 <= e <= 65535,
        api::action_for(req) matches Act::Work(Task::LockPci(e, p)) ==> 0 <= e <= 65535 && 0 <= p
            <= 503,
{
    let f = json::form(req.body);
    lemma_form_number(json::form_value(f, "earfcn"@), "EARFCN"@, 65535);
    lemma_form_number(json::form_value(f, "pci"@), "PCI"@, 503);
}

proof fn lemma_form_number(raw: Option<Seq<char>>, name: Seq<char>, max: int)
    ensures
        api::form_number(raw, name, max) matches Ok(v) ==> 0 <= v <= max,
{
    if raw is Some {
        numbers::lemma_unsigned_range(text::trimmed(raw->0), 10, 0xffff_ffff);
    }
}

proof fn lemma_decimal_number(n: nat, name: Seq<char>, max: int)
    requires
        n <= max <= 65535,
    ensures
        api::form_number(Some(numbers::decimal(n)), name, max) == Ok::<int, Seq<char>>(n as int),
{
    let d = numbers::decimal(n);
    numbers::lemma_decimal(n);
    assert(text::is_digit(d[0]) && text::is_digit(d[d.len() - 1]));
    text::lemma_trimmed_of_plain(d);
    numbers::lemma_unsigned_of_decimal(n, 0xffff_ffff);
}

/// A form that asks for the lock of a carrier is understood, for every carrier and however it is
/// encoded.
pub proof fn theorem_earfcn_form_is_understood(earfcn: u16, field: (Seq<char>, Seq<char>))
    requires
        json::encodes_pair(field, ("earfcn"@, numbers::decimal(earfcn as nat))),
    ensures
        api::post_action("/api/lock/earfcn"@, json::form_text(seq![field])) == Act::Work(
            Task::LockEarfcn(earfcn as int),
        ),
{
    let f = seq![("earfcn"@, numbers::decimal(earfcn as nat))];
    json::theorem_form_is_read_back(seq![field], f);
    lemma_decimal_number(earfcn as nat, "EARFCN"@, 65535);
}

/// A form that asks for the lock of a cell is understood, for every cell on every carrier and
/// however it is encoded; with a number that no cell has, it is refused.
pub proof fn theorem_pci_form_is_understood(
    earfcn: u16,
    pci: u16,
    carrier: (Seq<char>, Seq<char>),
    cell: (Seq<char>, Seq<char>),
)
    requires
        json::encodes_pair(carrier, ("earfcn"@, numbers::decimal(earfcn as nat))),
        json::encodes_pair(cell, ("pci"@, numbers::decimal(pci as nat))),
    ensures
        ({
            let act = api::post_action("/api/lock/pci"@, json::form_text(seq![carrier, cell]));
            if pci <= 503 {
                act == Act::Work(Task::LockPci(earfcn as int, pci as int))
            } else {
                act matches Act::Answer(r) && r.status == 400
            }
        }),
{
    reveal_strlit("earfcn");
    reveal_strlit("pci");
    reveal_strlit("/api/lock/pci");
    reveal_strlit("/api/lock/earfcn");
    assert("earfcn"@.len() != "pci"@.len());
    assert("/api/lock/pci"@.len() != "/api/lock/earfcn"@.len());
    let f = seq![
        ("earfcn"@, numbers::decimal(earfcn as nat)),
        ("pci"@, numbers::decimal(pci as nat)),
    ];
    json::theorem_form_is_read_back(seq![carrier, cell], f);
    lemma_decimal_number(earfcn as nat, "EARFCN"@, 65535);
    assert(f.skip(1)[0] == f[1]);
    reveal_with_fuel(json::form_value, 3);
    assert(json::form_value(f, "pci"@) == Some(numbers::decimal(pci as nat)));
    if pci <= 503 {
        lemma_decimal_number(pci as nat, "PCI"@, 503);
    } else {
        let d = numbers::decimal(pci as nat);
        numbers::lemma_decimal(pci as nat);
        assert(text::is_digit(d[0]) && text::is_digit(d[d.len() - 1]));
        text::lemma_trimmed_of_plain(d);
        numbers::lemma_unsigned_of_decimal(pci as nat, 0xffff_ffff);
    }
}

/// A method other than GET and POST is refused, whatever the path.
pub proof fn theorem_other_methods_are_refused(req: RequestView)
    requires
        req.method != "GET"@,
        req.method != "POST"@,
    ensures
        api::action_for(req) matches Act::Answer(r) && r.status == 405,
{
}

/// The paths that can be read.
pub open spec fn readable_paths() -> Seq<Seq<char>> {
    seq!["/"@, "/app.js"@, "/style.css"@, "/api/status"@, "/api/history"@, "/api/bands"@]
}

/// The paths that do something.
pub open spec fn working_paths() -> Seq<Seq<char>> {
    seq![
        "/api/lock/earfcn"@,
        "/api/lock/pci"@,
        "/api/unlock"@,
        "/api/reset"@,
        "/api/scan"@,
        "/api/bands"@,
        "/api/at"@,
    ]
}

/// A path that is not served is not found.
pub proof fn theorem_unknown_paths_are_not_found(req: RequestView)
    ensures
        req.method == "GET"@ && !readable_paths().contains(req.path) ==> (api::action_for(
            req,
        ) matches Act::Answer(r) && r.status == 404),
        req.method == "POST"@ && !working_paths().contains(req.path) ==> (api::action_for(
            req,
        ) matches Act::Answer(r) && r.status == 404),
{
    reveal_strlit("GET");
    reveal_strlit("POST");
    assert("GET"@.len() != "POST"@.len());
    let g = readable_paths();
    let p = working_paths();
    assert(g.contains(g[0]) && g.contains(g[1]) && g.contains(g[2]) && g.contains(g[3])
        && g.contains(g[4]) && g.contains(g[5]));
    assert(p.contains(p[0]) && p.contains(p[1]) && p.contains(p[2]) && p.contains(p[3])
        && p.contains(p[4]) && p.contains(p[5]) && p.contains(p[6]));
}

// ---------------------------------------------------------------------------
// The made-up modem behind the interface
// ---------------------------------------------------------------------------
/// The work for a lock: two files are written, and the locks are read.
spec fn locking(
    first: (Seq<char>, Seq<char>),
    second: (Seq<char>, Seq<char>),
    rs: Seq<Answer>,
) -> Move<ResponseView> {
    api::lock_work(
        modem::two_writes(first, second, rs, seq![]),
        modem::writes_taken(first, second, rs, seq![]),
        rs,
    )
}

/// How a lock goes when every reply comes and both files are read back as they should be.
proof fn lemma_locking_moves(
    first: (Seq<char>, Seq<char>),
    second: (Seq<char>, Seq<char>),
    a: Seq<Answer>,
)
    requires
        a.len() == 6,
        forall|i: int| 0 <= i < 6 ==> (#[trigger] a[i]) is Ok,
        modem::file_shown(a[1]->Ok_0.body) == first.1,
        modem::file_shown(a[3]->Ok_0.body) == second.1,
    ensures
        locking(first, second, a.take(0)) == Move::<ResponseView>::Send(
            modem::write_command(first.0, first.1),
        ),
        locking(first, second, a.take(1)) == Move::<ResponseView>::Send(
            modem::read_command(first.0),
        ),
        locking(first, second, a.take(2)) == Move::<ResponseView>::Send(
            modem::write_command(second.0, second.1),
        ),
        locking(first, second, a.take(3)) == Move::<ResponseView>::Send(
            modem::read_command(second.0),
        ),
        locking(first, second, a.take(4)) == Move::<ResponseView>::Send(
            modem::read_command(modem::EFS_EARFCN@),
        ),
        locking(first, second, a.take(5)) == Move::<ResponseView>::Send(
            modem::read_command(modem::EFS_PCI@),
        ),
        locking(first, second, a) == Move::Done(
            api::ok_response(
                api::lock_result_value(modem::locks_shown(a[4]->Ok_0.body, a[5]->Ok_0.body)),
            ),
        ),
{
    assert(a[0] is Ok && a[1] is Ok && a[2] is Ok && a[3] is Ok && a[4] is Ok && a[5] is Ok);
    assert forall|k: int| 2 <= k <= 6 implies #[trigger] modem::writing(
        first.0,
        first.1,
        a.take(k),
        seq![],
    ) == (modem::Writing::Written { replies: 2, switches: 0 }) by {
        assert(a.take(k)[0] == a[0] && a.take(k)[1] == a[1]);
    }
    let none = Seq::<bool>::empty();
    assert(none.skip(0) == none);
    assert(a.take(2).skip(2) == Seq::<Answer>::empty());
    assert(a.take(3).skip(2) == seq![a[2]]);
    assert(a.take(4).skip(2) == seq![a[2], a[3]]);
    assert(a.take(5).skip(2) == seq![a[2], a[3], a[4]]);
    assert(a.take(6).skip(2) == seq![a[2], a[3], a[4], a[5]]);
    assert(a.take(4).skip(4) == Seq::<Answer>::empty());
    assert(a.take(5).skip(4) == seq![a[4]]);
    assert(a.take(6).skip(4) == seq![a[4], a[5]]);
    assert(a.take(6) == a);
    assert(a.take(1)[0] == a[0]);
}

/// An operation that sends six commands and is done then.
proof fn lemma_six_commands<V>(
    op: spec_fn(Seq<Answer>) -> Move<V>,
    c: Seq<Seq<char>>,
    f: Seq<Files>,
    now: int,
)
    requires
        c.len() == 6,
        f.len() == 7,
        ({
            let a = Seq::new(6, |i: int| demo_laws::demo_answer(f[i], c[i], now));
            &&& forall|i: int|
                0 <= i < 6 ==> op(#[trigger] a.take(i)) == Move::<V>::Send(c[i]) && f[i + 1]
                    == demo::files_after(f[i], c[i])
            &&& op(a) is Done
        }),
    ensures
        ({
            let a = Seq::new(6, |i: int| demo_laws::demo_answer(f[i], c[i], now));
            demo_laws::carried_out(op, f[0], now, seq![], 6) == (op(a), f[6])
        }),
{
    let a = Seq::new(6, |i: int| demo_laws::demo_answer(f[i], c[i], now));
    assert(a.take(6) == a);
    assert(demo_laws::carried_out(op, f[6], now, a.take(6), 0) == (op(a), f[6]));
    lemma_next_command(op, c, f, now, 5);
    lemma_next_command(op, c, f, now, 4);
    lemma_next_command(op, c, f, now, 3);
    lemma_next_command(op, c, f, now, 2);
    lemma_next_command(op, c, f, now, 1);
    lemma_next_command(op, c, f, now, 0);
    assert(a.take(0) == Seq::<Answer>::empty());
}

proof fn lemma_next_command<V>(
    op: spec_fn(Seq<Answer>) -> Move<V>,
    c: Seq<Seq<char>>,
    f: Seq<Files>,
    now: int,
    i: int,
)
    requires
        c.len() == 6,
        f.len() == 7,
        0 <= i < 6,
        ({
            let a = Seq::new(6, |i: int| demo_laws::demo_answer(f[i], c[i], now));
            op(a.take(i)) == Move::<V>::Send(c[i]) && f[i + 1] == demo::files_after(f[i], c[i])
        }),
    ensures
        ({
            let a = Seq::new(6, |i: int| demo_laws::demo_answer(f[i], c[i], now));
            demo_laws::carried_out(op, f[i], now, a.take(i), (6 - i) as nat)
                == demo_laws::carried_out(op, f[i + 1], now, a.take(i + 1), (5 - i) as nat)
        }),
{
    let a = Seq::new(6, |i: int| demo_laws::demo_answer(f[i], c[i], now));
    assert(a.take(i).push(a[i]) == a.take(i + 1));
}

/// Two files of the made-up modem are written, and what is read afterwards is answered.
proof fn lemma_demo_locking(
    files: Files,
    first: (Seq<char>, Seq<char>),
    second: (Seq<char>, Seq<char>),
    now: int,
)
    requires
        (first.0 == modem::EFS_EARFCN@ && second.0 == modem::EFS_PCI@) || (first.0
            == modem::EFS_PCI@ && second.0 == modem::EFS_EARFCN@),
        demo_laws::is_stored(first.1),
        demo_laws::is_stored(second.1),
    ensures
        ({
            let (outcome, after) = demo_laws::carried_out(
                |rs: Seq<Answer>| locking(first, second, rs),
                files,
                now,
                seq![],
                6,
            );
            let e = demo_laws::demo_answer(
                after,
                modem::read_command(modem::EFS_EARFCN@),
                now,
            );
            let p = demo_laws::demo_answer(after, modem::read_command(modem::EFS_PCI@), now);
            &&& outcome == Move::Done(
                api::ok_response(
                    api::lock_result_value(modem::locks_shown(e->Ok_0.body, p->Ok_0.body)),
                ),
            )
            &&& modem::file_shown(e->Ok_0.body) == demo::contents(after, modem::EFS_EARFCN@)
            &&& modem::file_shown(p->Ok_0.body) == demo::contents(after, modem::EFS_PCI@)
            &&& demo::contents(after, first.0) == first.1
            &&& demo::contents(after, second.0) == second.1
        }),
{
    demo_laws::lemma_paths();
    let op = |rs: Seq<Answer>| locking(first, second, rs);
    let c = seq![
        modem::write_command(first.0, first.1),
        modem::read_command(first.0),
        modem::write_command(second.0, second.1),
        modem::read_command(second.0),
        modem::read_command(modem::EFS_EARFCN@),
        modem::read_command(modem::EFS_PCI@),
    ];
    let f1 = demo::files_after(files, c[0]);
    let f3 = demo::files_after(f1, c[2]);
    let f = seq![files, f1, f1, f3, f3, f3, f3];
    demo_laws::theorem_demo_write_then_read(files, first.0, first.1, now);
    demo_laws::theorem_demo_write_then_read(f1, second.0, second.1, now);
    demo_laws::lemma_write_args(first.0, first.1);
    demo_laws::lemma_write_args(second.0, second.1);
    assert(demo::contents(f1, first.0) == first.1);
    assert(demo::contents(f3, first.0) == demo::contents(f1, first.0));
    assert(demo::contents(f3, second.0) == second.1);
    demo_laws::lemma_demo_read(f3, modem::EFS_EARFCN@, now);
    demo_laws::lemma_demo_read(f3, modem::EFS_PCI@, now);
    let a = Seq::new(6, |i: int| demo_laws::demo_answer(f[i], c[i], now));
    lemma_locking_moves(first, second, a);
    assert forall|i: int| 0 <= i < 6 implies op(#[trigger] a.take(i)) == Move::<
        ResponseView,
    >::Send(c[i]) && f[i + 1] == demo::files_after(f[i], c[i]) by {
        if i == 0 || i == 1 || i == 2 || i == 3 || i == 4 {
        }
    }
    lemma_six_commands(op, c, f, now);
}

/// A request to lock a carrier on the made-up modem is answered with that lock and no other.
pub proof fn theorem_demo_earfcn_request(
    files: Files,
    earfcn: int,
    transport: Seq<char>,
    known: Record,
    signal: SignalView<Option<Seq<char>>>,
    now: int,
)
    requires
        0 <= earfcn < 0x1_0000,
    ensures
        ({
            let outcome = demo_laws::carried_out(
                |rs: Seq<Answer>|
                    api::work(Task::LockEarfcn(earfcn), transport, known, signal, rs, seq![]),
                files,
                now,
                seq![],
                6,
            ).0;
            outcome == Move::Done(
                api::ok_response(api::lock_result_value(modem_laws::carrier_lock(earfcn))),
            )
        }),
{
    let first = modem::earfcn_file(earfcn);
    let second = modem::empty_file(modem::EFS_PCI@);
    let op = |rs: Seq<Answer>|
        api::work(Task::LockEarfcn(earfcn), transport, known, signal, rs, seq![]);
    demo_laws::lemma_le16_stored(earfcn);
    lemma_demo_locking(files, first, second, now);
    assert(op =~= (|rs: Seq<Answer>| locking(first, second, rs)));
    let after = demo_laws::carried_out(op, files, now, seq![], 6).1;
    let e = demo_laws::demo_answer(after, modem::read_command(modem::EFS_EARFCN@), now);
    let p = demo_laws::demo_answer(after, modem::read_command(modem::EFS_PCI@), now);
    modem_laws::theorem_earfcn_lock_is_shown(earfcn, e->Ok_0.body, p->Ok_0.body);
}

/// A request to lock a cell on the made-up modem is answered with that lock and no other.
pub proof fn theorem_demo_pci_request(
    files: Files,
    earfcn: int,
    pci: int,
    transport: Seq<char>,
    known: Record,
    signal: SignalView<Option<Seq<char>>>,
    now: int,
)
    requires
        0 <= earfcn < 0x1_0000,
        0 <= pci <= 503,
    ensures
        ({
            let outcome = demo_laws::carried_out(
                |rs: Seq<Answer>|
                    api::work(Task::LockPci(earfcn, pci), transport, known, signal, rs, seq![]),
                files,
                now,
                seq![],
                6,
            ).0;
            outcome == Move::Done(
                api::ok_response(api::lock_result_value(modem_laws::cell_lock(earfcn, pci))),
            )
        }),
{
    let first = modem::pci_file(earfcn, pci);
    let second = modem::empty_file(modem::EFS_EARFCN@);
    let op = |rs: Seq<Answer>|
        api::work(Task::LockPci(earfcn, pci), transport, known, signal, rs, seq![]);
    demo_laws::lemma_two_le16_stored(earfcn, pci);
    lemma_demo_locking(files, first, second, now);
    assert(op =~= (|rs: Seq<Answer>| locking(first, second, rs)));
    let after = demo_laws::carried_out(op, files, now, seq![], 6).1;
    let e = demo_laws::demo_answer(after, modem::read_command(modem::EFS_EARFCN@), now);
    let p = demo_laws::demo_answer(after, modem::read_command(modem::EFS_PCI@), now);
    modem_laws::theorem_pci_lock_is_shown(earfcn, pci, e->Ok_0.body, p->Ok_0.body);
}

} // verus!
