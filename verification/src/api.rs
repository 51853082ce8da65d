//! The HTTP interface of the modem.

use crate::at::Reply;
use crate::http;
use crate::http::{Request, RequestView, Response, ResponseView};
use crate::json;
use crate::json::{Json, JsonView, Number};
use crate::modem;
use crate::modem::{
    Answer, Caps, CapsView, LockState, Locks, Modem, Move, Record, Step, Transcript,
};
use crate::numbers;
use crate::signal;
use crate::signal::{Cell, Neighbor, Sample, SampleView, Signal, SignalView};
use crate::text;
use vstd::prelude::*;
use vstd::string::*;

verus! {

// ---------------------------------------------------------------------------
// Numbers in forms
// ---------------------------------------------------------------------------
/// A number in a form from 0 to `max`, or what is wrong with it.
pub open spec fn form_number(raw: Option<Seq<char>>, name: Seq<char>, max: int) -> Result<
    int,
    Seq<char>,
> {
    let t = match raw {
        Some(s) => text::trimmed(s),
        None => seq![],
    };
    if t.len() == 0 {
        Err("не указан "@ + name)
    } else {
        match numbers::unsigned(t, 10, 0xffff_ffff) {
            None => Err(name + " должен быть целым числом, получено «"@ + t + "»"@),
            Some(v) => if v > max {
                Err(
                    name + " "@ + numbers::decimal(v as nat) + " вне допустимого диапазона 0.."@
                        + numbers::decimal(max as nat),
                )
            } else {
                Ok(v)
            },
        }
    }
}

pub fn parse_u16(raw: Option<&str>, name: &str, max: u16) -> (r: Result<u16, String>)
    ensures
        match r {
            Ok(v) => form_number(crate::at::opt_text(raw), name@, max as int) == Ok::<
                int,
                Seq<char>,
            >(v as int),
            Err(e) => form_number(crate::at::opt_text(raw), name@, max as int) == Err::<
                int,
                Seq<char>,
            >(e@),
        },
{
    let cs = match raw {
        Some(s) => text::chars_of(s),
        None => Vec::new(),
    };
    let t = text::trim(cs.as_slice());
    proof {
        text::lemma_trimmed_of_plain(Seq::<char>::empty());
        numbers::lemma_unsigned_range(t@, 10, 0xffff_ffff);
    }
    if t.len() == 0 {
        let mut e = "не указан ".to_owned();
        e.append(name);
        return Err(e);
    }
    match numbers::parse_u32(t) {
        None => {
            let mut e = text::chars_of(name);
            text::add_str(&mut e, " должен быть целым числом, получено «");
            text::add_chars(&mut e, t);
            text::add_str(&mut e, "»");
            Err(text::string_of(e.as_slice()))
        },
        Some(v) => if v > max as u32 {
            let mut e = text::chars_of(name);
            text::add_str(&mut e, " ");
            numbers::add_decimal(&mut e, v as u64);
            text::add_str(&mut e, " вне допустимого диапазона 0..");
            numbers::add_decimal(&mut e, max as u64);
            Err(text::string_of(e.as_slice()))
        } else {
            Ok(v as u16)
        },
    }
}

// ---------------------------------------------------------------------------
// Values
// ---------------------------------------------------------------------------
pub open spec fn u16_value(v: Option<u16>) -> JsonView {
    match v {
        Some(i) => JsonView::Int(i as int),
        None => JsonView::Null,
    }
}

pub open spec fn u32_value(v: Option<u32>) -> JsonView {
    match v {
        Some(i) => JsonView::Int(i as int),
        None => JsonView::Null,
    }
}

pub open spec fn number_value(v: Option<Option<Seq<char>>>) -> JsonView {
    match v {
        Some(n) => JsonView::Num(n),
        None => JsonView::Null,
    }
}

pub open spec fn text_value(v: Option<Seq<char>>) -> JsonView {
    match v {
        Some(s) => JsonView::Str(s),
        None => JsonView::Null,
    }
}

fn u16_json(v: Option<u16>) -> (r: Json)
    ensures
        r@ == u16_value(v),
{
    match v {
        Some(i) => Json::opt_int(Some(i as i64)),
        None => Json::opt_int(None),
    }
}

fn u32_json(v: Option<u32>) -> (r: Json)
    ensures
        r@ == u32_value(v),
{
    match v {
        Some(i) => Json::opt_int(Some(i as i64)),
        None => Json::opt_int(None),
    }
}

fn number_json(v: &Option<Number>) -> (r: Json)
    ensures
        r@ == number_value(v.deep_view()),
{
    match v {
        Some(Number::Finite(t)) => Json::opt_num(Some(Number::Finite(t.clone()))),
        Some(Number::NonFinite) => Json::opt_num(Some(Number::NonFinite)),
        None => Json::opt_num(None),
    }
}

fn text_json(v: &Option<String>) -> (r: Json)
    ensures
        r@ == text_value(v.deep_view()),
{
    Json::opt_str(signal::copy_string(v))
}

/// The state of the locks.
pub open spec fn lock_value(l: Locks) -> JsonView {
    JsonView::Obj(
        seq![
            ("earfcn"@, u16_value(l.earfcn)),
            ("pciEarfcn"@, u16_value(l.pci_earfcn)),
            ("pci"@, u16_value(l.pci)),
            ("rawEarfcn"@, text_value(l.raw_earfcn)),
            ("rawPci"@, text_value(l.raw_pci)),
            ("conflict"@, JsonView::Bool(modem::in_conflict(l))),
        ],
    )
}

pub fn lock_json(l: &LockState) -> (r: Json)
    ensures
        r@ == lock_value(l@),
{
    let r = Json::obj(
        vec![
            ("earfcn", u16_json(l.earfcn)),
            ("pciEarfcn", u16_json(l.pci_earfcn)),
            ("pci", u16_json(l.pci)),
            ("rawEarfcn", text_json(&l.raw_earfcn)),
            ("rawPci", text_json(&l.raw_pci)),
            ("conflict", Json::Bool(l.has_conflict())),
        ],
    );
    assert(r@->Obj_0 =~= lock_value(l@)->Obj_0);
    r
}

/// The signal.
pub open spec fn signal_value(s: SignalView<Option<Seq<char>>>) -> JsonView {
    JsonView::Obj(
        seq![
            ("rsrp"@, number_value(s.rsrp)),
            ("rsrq"@, number_value(s.rsrq)),
            ("sinr"@, number_value(s.sinr)),
            ("rssi"@, number_value(s.rssi)),
            ("earfcn"@, u32_value(s.earfcn)),
            ("pci"@, u16_value(s.pci)),
            ("band"@, text_value(s.band)),
            ("operator"@, text_value(s.operator)),
            ("registered"@, JsonView::Bool(s.registered)),
        ],
    )
}

pub fn signal_json(s: &Signal<Number>) -> (r: Json)
    ensures
        r@ == signal_value(s@),
{
    let r = Json::obj(
        vec![
            ("rsrp", number_json(&s.rsrp)),
            ("rsrq", number_json(&s.rsrq)),
            ("sinr", number_json(&s.sinr)),
            ("rssi", number_json(&s.rssi)),
            ("earfcn", u32_json(s.earfcn)),
            ("pci", u16_json(s.pci)),
            ("band", text_json(&s.band)),
            ("operator", text_json(&s.operator)),
            ("registered", Json::Bool(s.registered)),
        ],
    );
    assert(r@->Obj_0 =~= signal_value(s@)->Obj_0);
    r
}

/// What the modem can do.
pub open spec fn caps_value(c: CapsView) -> JsonView {
    JsonView::Obj(
        seq![
            ("efs"@, JsonView::Bool(c.efs)),
            ("serving"@, text_value(c.serving)),
            ("neighbors"@, text_value(c.neighbors)),
            ("bands"@, text_value(c.bands_query)),
            ("bandsWritable"@, JsonView::Bool(c.bands_set is Some)),
        ],
    )
}

pub fn caps_json(c: &Caps) -> (r: Json)
    ensures
        r@ == caps_value(c@),
{
    let r = Json::obj(
        vec![
            ("efs", Json::Bool(c.efs)),
            ("serving", text_json(&c.serving)),
            ("neighbors", text_json(&c.neighbors)),
            ("bands", text_json(&c.bands_query)),
            ("bandsWritable", Json::Bool(c.bands_set.is_some())),
        ],
    );
    assert(r@->Obj_0 =~= caps_value(c@)->Obj_0);
    r
}

/// A cell around.
pub open spec fn cell_value(c: Cell<Option<Seq<char>>>) -> JsonView {
    JsonView::Obj(
        seq![
            ("earfcn"@, JsonView::Int(c.earfcn as int)),
            ("pci"@, JsonView::Int(c.pci as int)),
            ("rsrp"@, number_value(c.rsrp)),
            ("rsrq"@, number_value(c.rsrq)),
        ],
    )
}

/// The cells around, in their order.
pub open spec fn cells_value(cells: Seq<Cell<Option<Seq<char>>>>) -> JsonView {
    JsonView::Arr(Seq::new(cells.len(), |i: int| cell_value(cells[i])))
}

fn cell_json(n: &Neighbor<Number>) -> (r: Json)
    ensures
        r@ == cell_value(n.deep_view()),
{
    let r = Json::obj(
        vec![
            ("earfcn", Json::Int(n.earfcn as i64)),
            ("pci", Json::Int(n.pci as i64)),
            ("rsrp", number_json(&n.rsrp)),
            ("rsrq", number_json(&n.rsrq)),
        ],
    );
    assert(r@->Obj_0 =~= cell_value(n.deep_view())->Obj_0);
    r
}

pub fn neighbors_json(list: &[Neighbor<Number>]) -> (r: Json)
    ensures
        r@ == cells_value(list.deep_view()),
{
    let mut items: Vec<Json> = Vec::new();
    let mut i: usize = 0;
    while i < list.len()
        invariant
            i <= list.len(),
            items.len() == i,
            forall|j: int|
                0 <= j < i ==> json::json_view(#[trigger] items@[j]) == cell_value(
                    list@[j].deep_view(),
                ),
        decreases list.len() - i,
    {
        items.push(cell_json(&list[i]));
        i += 1;
    }
    let r = Json::Arr(items);
    assert(r@->Arr_0 =~= cells_value(list.deep_view())->Arr_0);
    r
}

/// A moment that does not fit a signed number of 64 bits is taken to one.
pub open spec fn moment(ts: int) -> int {
    if ts < 0x8000_0000_0000_0000 {
        ts
    } else {
        ts - 0x1_0000_0000_0000_0000
    }
}

/// A point of the graph.
pub open spec fn sample_value(s: SampleView<Option<Seq<char>>>) -> JsonView {
    JsonView::Obj(
        seq![
            ("ts"@, JsonView::Int(moment(s.ts))),
            ("rsrp"@, number_value(s.rsrp)),
            ("rsrq"@, number_value(s.rsrq)),
            ("sinr"@, number_value(s.sinr)),
        ],
    )
}

/// The points of the graph.
pub open spec fn history_value(samples: Seq<SampleView<Option<Seq<char>>>>) -> JsonView {
    JsonView::Obj(
        seq![
            ("samples"@, JsonView::Arr(Seq::new(samples.len(), |i: int| sample_value(samples[i])))),
        ],
    )
}

fn signed_moment(ts: u64) -> (r: i64)
    ensures
        r == moment(ts as int),
{
    if ts < 0x8000_0000_0000_0000 {
        ts as i64
    } else {
        (ts as i128 - 0x1_0000_0000_0000_0000) as i64
    }
}

fn sample_json(s: &Sample<Number>) -> (r: Json)
    ensures
        r@ == sample_value(s.deep_view()),
{
    let r = Json::obj(
        vec![
            ("ts", Json::Int(signed_moment(s.ts))),
            ("rsrp", number_json(&s.rsrp)),
            ("rsrq", number_json(&s.rsrq)),
            ("sinr", number_json(&s.sinr)),
        ],
    );
    assert(r@->Obj_0 =~= sample_value(s.deep_view())->Obj_0);
    r
}

pub fn history_json(samples: &[Sample<Number>]) -> (r: Json)
    ensures
        r@ == history_value(samples.deep_view()),
{
    let mut items: Vec<Json> = Vec::new();
    let mut i: usize = 0;
    while i < samples.len()
        invariant
            i <= samples.len(),
            items.len() == i,
            forall|j: int|
                0 <= j < i ==> json::json_view(#[trigger] items@[j]) == sample_value(
                    samples@[j].deep_view(),
                ),
        decreases samples.len() - i,
    {
        items.push(sample_json(&samples[i]));
        i += 1;
    }
    let list = Json::Arr(items);
    let ghost want = Seq::new(
        samples.deep_view().len(),
        |i: int| sample_value(samples.deep_view()[i]),
    );
    assert(list@->Arr_0 =~= want);
    let r = Json::obj(vec![("samples", list)]);
    assert(r@->Obj_0 =~= seq![("samples"@, JsonView::Arr(want))]);
    r
}

// ---------------------------------------------------------------------------
// Answers
// ---------------------------------------------------------------------------
/// An answer with a value.
pub open spec fn ok_response(v: JsonView) -> ResponseView {
    http::json_response(200, json::json_text(v))
}

/// An answer with an error.
pub open spec fn error_response(status: int, message: Seq<char>) -> ResponseView {
    http::json_response(
        status,
        json::json_text(JsonView::Obj(seq![("error"@, JsonView::Str(message))])),
    )
}

/// An answer with a message.
pub open spec fn message_value(message: Seq<char>) -> JsonView {
    JsonView::Obj(seq![("message"@, JsonView::Str(message))])
}

pub fn ok(body: &Json) -> (r: Response)
    ensures
        r@ == ok_response(body@),
{
    Response::json(200, body.to_string())
}

pub fn err(status: u16, message: &str) -> (r: Response)
    ensures
        r@ == error_response(status as int, message@),
{
    let body = Json::obj(vec![("error", Json::str(message))]);
    assert(body@->Obj_0 =~= seq![("error"@, JsonView::Str(message@))]);
    Response::json(status, body.to_string())
}

fn message(text: &str) -> (r: Response)
    ensures
        r@ == ok_response(message_value(text@)),
{
    let body = Json::obj(vec![("message", Json::str(text))]);
    assert(body@->Obj_0 =~= seq![("message"@, JsonView::Str(text@))]);
    ok(&body)
}

/// The answer to a request for the history.
pub fn history_response(samples: &[Sample<Number>]) -> (r: Response)
    ensures
        r@ == ok_response(history_value(samples.deep_view())),
{
    ok(&history_json(samples))
}

/// The cells around, as they are answered.
pub open spec fn scan_value(cells: Seq<Cell<Option<Seq<char>>>>) -> JsonView {
    JsonView::Obj(seq![("neighbors"@, cells_value(cells))])
}

/// The answer to a scan that found these cells.
pub fn scan_response(list: &[Neighbor<Number>]) -> (r: Response)
    ensures
        r@ == ok_response(scan_value(list.deep_view())),
{
    let body = Json::obj(vec![("neighbors", neighbors_json(list))]);
    assert(body@->Obj_0 =~= seq![("neighbors"@, cells_value(list.deep_view()))]);
    ok(&body)
}

/// The answer to a scan, given what came of it.
pub fn scan_answer(found: &Result<Vec<Neighbor<Number>>, String>) -> (r: Response)
    ensures
        r@ == (match found {
            Ok(list) => ok_response(scan_value(list.deep_view())),
            Err(e) => error_response(400, e@),
        }),
{
    match found {
        Ok(list) => scan_response(list.as_slice()),
        Err(e) => err(400, e.as_str()),
    }
}

// ---------------------------------------------------------------------------
// Routing
// ---------------------------------------------------------------------------
/// A part of the page.
#[derive(Debug, Clone, Copy, PartialEq, Eq, Structural)]
pub enum Page {
    Index,
    Script,
    Style,
}

/// What a request asks of the modem.
#[derive(Debug)]
pub enum Job {
    Status,
    ReadBands,
    LockEarfcn(u16),
    LockPci(u16, u16),
    Unlock,
    Reset,
    SetBands(String),
    RawAt(String),
}

/// A job as a mathematical value.
pub enum Task {
    Status,
    ReadBands,
    LockEarfcn(int),
    LockPci(int, int),
    Unlock,
    Reset,
    SetBands(Seq<char>),
    RawAt(Seq<char>),
}

impl View for Job {
    type V = Task;

    open spec fn view(&self) -> Task {
        match self {
            Job::Status => Task::Status,
            Job::ReadBands => Task::ReadBands,
            Job::LockEarfcn(e) => Task::LockEarfcn(*e as int),
            Job::LockPci(e, p) => Task::LockPci(*e as int, *p as int),
            Job::Unlock => Task::Unlock,
            Job::Reset => Task::Reset,
            Job::SetBands(m) => Task::SetBands(m@),
            Job::RawAt(c) => Task::RawAt(c@),
        }
    }
}

/// What becomes of a request.
#[derive(Debug)]
pub enum Action {
    /// It is answered at once.
    Answer(Response),
    /// It is answered with a part of the page.
    Show(Page),
    /// It is answered with the history.
    History,
    /// It is answered with the cells around.
    Scan,
    /// It is answered after some work with the modem.
    Work(Job),
}

/// An action as a mathematical value.
pub enum Act {
    Answer(ResponseView),
    Show(Page),
    History,
    Scan,
    Work(Task),
}

impl View for Action {
    type V = Act;

    open spec fn view(&self) -> Act {
        match self {
            Action::Answer(r) => Act::Answer(r@),
            Action::Show(p) => Act::Show(*p),
            Action::History => Act::History,
            Action::Scan => Act::Scan,
            Action::Work(j) => Act::Work(j@),
        }
    }
}

/// A carrier is to be locked.
pub open spec fn earfcn_request(f: Seq<(Seq<char>, Seq<char>)>) -> Act {
    match form_number(json::form_value(f, "earfcn"@), "EARFCN"@, 65535) {
        Ok(v) => Act::Work(Task::LockEarfcn(v)),
        Err(e) => Act::Answer(error_response(400, e)),
    }
}

/// A cell is to be locked.
pub open spec fn pci_request(f: Seq<(Seq<char>, Seq<char>)>) -> Act {
    match form_number(json::form_value(f, "earfcn"@), "EARFCN"@, 65535) {
        Ok(v) => match form_number(json::form_value(f, "pci"@), "PCI"@, 503) {
            Ok(p) => Act::Work(Task::LockPci(v, p)),
            Err(e) => Act::Answer(error_response(400, e)),
        },
        Err(e) => Act::Answer(error_response(400, e)),
    }
}

/// The bands are to be set.
pub open spec fn bands_request(f: Seq<(Seq<char>, Seq<char>)>) -> Act {
    match json::form_value(f, "mask"@) {
        Some(m) => if m.len() > 0 {
            Act::Work(Task::SetBands(m))
        } else {
            Act::Answer(error_response(400, "не указана маска бэндов"@))
        },
        None => Act::Answer(error_response(400, "не указана маска бэндов"@)),
    }
}

/// A command is to be sent.
pub open spec fn command_request(f: Seq<(Seq<char>, Seq<char>)>) -> Act {
    match json::form_value(f, "cmd"@) {
        Some(c) => if text::trimmed(c).len() > 0 {
            Act::Work(Task::RawAt(text::trimmed(c)))
        } else {
            Act::Answer(error_response(400, "пустая команда"@))
        },
        None => Act::Answer(error_response(400, "пустая команда"@)),
    }
}

/// What becomes of a request to read something.
pub open spec fn get_action(path: Seq<char>) -> Act {
    if path == "/"@ {
        Act::Show(Page::Index)
    } else if path == "/app.js"@ {
        Act::Show(Page::Script)
    } else if path == "/style.css"@ {
        Act::Show(Page::Style)
    } else if path == "/api/status"@ {
        Act::Work(Task::Status)
    } else if path == "/api/history"@ {
        Act::History
    } else if path == "/api/bands"@ {
        Act::Work(Task::ReadBands)
    } else {
        Act::Answer(error_response(404, "не найдено"@))
    }
}

/// What becomes of a request to do something.
pub open spec fn post_action(path: Seq<char>, body: Seq<char>) -> Act {
    if path == "/api/lock/earfcn"@ {
        earfcn_request(json::form(body))
    } else if path == "/api/lock/pci"@ {
        pci_request(json::form(body))
    } else if path == "/api/unlock"@ {
        Act::Work(Task::Unlock)
    } else if path == "/api/reset"@ {
        Act::Work(Task::Reset)
    } else if path == "/api/scan"@ {
        Act::Scan
    } else if path == "/api/bands"@ {
        bands_request(json::form(body))
    } else if path == "/api/at"@ {
        command_request(json::form(body))
    } else {
        Act::Answer(error_response(404, "не найдено"@))
    }
}

/// What becomes of a request.
pub open spec fn action_for(req: RequestView) -> Act {
    if req.method == "GET"@ {
        get_action(req.path)
    } else if req.method == "POST"@ {
        post_action(req.path, req.body)
    } else {
        Act::Answer(error_response(405, "метод не поддерживается"@))
    }
}

fn plan_earfcn(f: &Vec<(String, String)>) -> (r: Action)
    ensures
        r@ == earfcn_request(f.deep_view()),
{
    match parse_u16(json::form_get(f.as_slice(), "earfcn"), "EARFCN", 65535) {
        Ok(v) => Action::Work(Job::LockEarfcn(v)),
        Err(e) => Action::Answer(err(400, e.as_str())),
    }
}

fn plan_pci(f: &Vec<(String, String)>) -> (r: Action)
    ensures
        r@ == pci_request(f.deep_view()),
{
    let earfcn: u16 = match parse_u16(json::form_get(f.as_slice(), "earfcn"), "EARFCN", 65535) {
        Ok(v) => v,
        Err(e) => return Action::Answer(err(400, e.as_str())),
    };
    match parse_u16(json::form_get(f.as_slice(), "pci"), "PCI", 503) {
        Ok(p) => Action::Work(Job::LockPci(earfcn, p)),
        Err(e) => Action::Answer(err(400, e.as_str())),
    }
}

fn plan_bands(f: &Vec<(String, String)>) -> (r: Action)
    ensures
        r@ == bands_request(f.deep_view()),
{
    match json::form_get(f.as_slice(), "mask") {
        Some(m) => {
            let cs = text::chars_of(m);
            if cs.len() > 0 {
                Action::Work(Job::SetBands(m.to_owned()))
            } else {
                Action::Answer(err(400, "не указана маска бэндов"))
            }
        },
        None => Action::Answer(err(400, "не указана маска бэндов")),
    }
}

fn plan_command(f: &Vec<(String, String)>) -> (r: Action)
    ensures
        r@ == command_request(f.deep_view()),
{
    match json::form_get(f.as_slice(), "cmd") {
        Some(c) => {
            let cs = text::chars_of(c);
            let t = text::trim(cs.as_slice());
            if t.len() > 0 {
                Action::Work(Job::RawAt(text::string_of(t)))
            } else {
                Action::Answer(err(400, "пустая команда"))
            }
        },
        None => Action::Answer(err(400, "пустая команда")),
    }
}

fn plan_get(p: &[char]) -> (r: Action)
    ensures
        r@ == get_action(p@),
{
    if text::reads(p, "/") {
        Action::Show(Page::Index)
    } else if text::reads(p, "/app.js") {
        Action::Show(Page::Script)
    } else if text::reads(p, "/style.css") {
        Action::Show(Page::Style)
    } else if text::reads(p, "/api/status") {
        Action::Work(Job::Status)
    } else if text::reads(p, "/api/history") {
        Action::History
    } else if text::reads(p, "/api/bands") {
        Action::Work(Job::ReadBands)
    } else {
        Action::Answer(err(404, "не найдено"))
    }
}

fn plan_post(p: &[char], body: &str) -> (r: Action)
    ensures
        r@ == post_action(p@, body@),
{
    if text::reads(p, "/api/lock/earfcn") {
        plan_earfcn(&json::parse_form(body))
    } else if text::reads(p, "/api/lock/pci") {
        plan_pci(&json::parse_form(body))
    } else if text::reads(p, "/api/unlock") {
        Action::Work(Job::Unlock)
    } else if text::reads(p, "/api/reset") {
        Action::Work(Job::Reset)
    } else if text::reads(p, "/api/scan") {
        Action::Scan
    } else if text::reads(p, "/api/bands") {
        plan_bands(&json::parse_form(body))
    } else if text::reads(p, "/api/at") {
        plan_command(&json::parse_form(body))
    } else {
        Action::Answer(err(404, "не найдено"))
    }
}

/// Decide what becomes of a request.
pub fn route(req: &Request) -> (r: Action)
    ensures
        r@ == action_for(req@),
{
    let method = text::chars_of(req.method.as_str());
    let path = text::chars_of(req.path.as_str());
    if text::reads(method.as_slice(), "GET") {
        plan_get(path.as_slice())
    } else if text::reads(method.as_slice(), "POST") {
        plan_post(path.as_slice(), req.body.as_str())
    } else {
        Action::Answer(err(405, "метод не поддерживается"))
    }
}

/// The answer with a part of the page.
pub open spec fn page_response(page: Page, text: Seq<char>) -> ResponseView {
    match page {
        Page::Index => http::text_response(200, "text/html; charset=utf-8"@, text),
        Page::Script => http::text_response(200, "application/javascript; charset=utf-8"@, text),
        Page::Style => http::text_response(200, "text/css; charset=utf-8"@, text),
    }
}

/// Answer with a part of the page, given its text.
pub fn show(page: Page, text: &str) -> (r: Response)
    ensures
        r@ == page_response(page, text@),
{
    match page {
        Page::Index => Response::html(text),
        Page::Script => Response::asset("application/javascript; charset=utf-8", text),
        Page::Style => Response::asset("text/css; charset=utf-8", text),
    }
}

// ---------------------------------------------------------------------------
// Work
// ---------------------------------------------------------------------------
impl DeepView for Response {
    type V = ResponseView;

    open spec fn deep_view(&self) -> ResponseView {
        self.view()
    }
}

/// The locks, where they could be read; else none.
pub open spec fn locks_or_none(m: Move<Locks>) -> Locks {
    match m {
        Move::Done(l) => l,
        _ => modem::unlocked(),
    }
}

/// What is answered to a request for the status.
pub open spec fn status_value(
    transport: Seq<char>,
    known: Record,
    lock: Locks,
    signal: SignalView<Option<Seq<char>>>,
) -> JsonView {
    JsonView::Obj(
        seq![
            ("transport"@, JsonView::Str(transport)),
            ("info"@, JsonView::Str(known.info)),
            ("caps"@, caps_value(known.caps)),
            ("lock"@, lock_value(lock)),
            ("signal"@, signal_value(signal)),
        ],
    )
}

/// What is answered after a lock was set or taken off.
pub open spec fn lock_result_value(lock: Locks) -> JsonView {
    JsonView::Obj(
        seq![
            ("lock"@, lock_value(lock)),
            (
                "message"@,
                JsonView::Str(
                    "Записано. Изменения вступят в силу после перезагрузки модема."@,
                ),
            ),
        ],
    )
}

/// The locks are read, and then there is an answer, whether they could be read or not.
pub open spec fn then_locks(rs: Seq<Answer>, answer: spec_fn(Locks) -> ResponseView) -> Move<
    ResponseView,
> {
    match modem::lock_reading(rs) {
        Move::Send(c) => Move::Send(c),
        m => Move::Done(answer(locks_or_none(m))),
    }
}

/// A lock is set or taken off, and then the locks are read for the answer.
pub open spec fn lock_work(m: Move<()>, taken: int, rs: Seq<Answer>) -> Move<ResponseView> {
    match m {
        Move::Done(_) => then_locks(rs.skip(taken), |l: Locks| ok_response(lock_result_value(l))),
        Move::Failed(e) => Move::Done(error_response(400, e)),
        Move::Send(c) => Move::Send(c),
        Move::SendSlow(c) => Move::SendSlow(c),
        Move::Fallback => Move::Fallback,
    }
}

/// Something is done, and then there is an answer.
pub open spec fn plain_work<V>(m: Move<V>, answer: spec_fn(V) -> ResponseView) -> Move<
    ResponseView,
> {
    match m {
        Move::Done(v) => Move::Done(answer(v)),
        Move::Failed(e) => Move::Done(error_response(400, e)),
        Move::Send(c) => Move::Send(c),
        Move::SendSlow(c) => Move::SendSlow(c),
        Move::Fallback => Move::Fallback,
    }
}

/// A reply, as it is answered.
pub open spec fn reply_value(r: Reply) -> JsonView {
    JsonView::Obj(
        seq![
            ("raw"@, JsonView::Str(r.raw)),
            ("body"@, JsonView::Str(r.body)),
            ("ok"@, JsonView::Bool(r.ok)),
            ("error"@, text_value(r.error)),
        ],
    )
}

/// The work for a request, after some replies.
pub open spec fn work(
    task: Task,
    transport: Seq<char>,
    known: Record,
    signal: SignalView<Option<Seq<char>>>,
    rs: Seq<Answer>,
    sw: Seq<bool>,
) -> Move<ResponseView> {
    match task {
        Task::Status => then_locks(
            rs,
            |l: Locks| ok_response(status_value(transport, known, l, signal)),
        ),
        Task::ReadBands => plain_work(
            modem::band_reading(known.caps, rs),
            |raw: Seq<char>| ok_response(JsonView::Obj(seq![("raw"@, JsonView::Str(raw))])),
        ),
        Task::LockEarfcn(e) => lock_work(
            modem::earfcn_locking(e, rs, sw),
            modem::writes_taken(
                modem::earfcn_file(e),
                modem::empty_file(modem::EFS_PCI@),
                rs,
                sw,
            ),
            rs,
        ),
        Task::LockPci(e, p) => lock_work(
            modem::pci_locking(e, p, rs, sw),
            modem::writes_taken(
                modem::pci_file(e, p),
                modem::empty_file(modem::EFS_EARFCN@),
                rs,
                sw,
            ),
            rs,
        ),
        Task::Unlock => lock_work(
            modem::unlocking(rs, sw),
            modem::writes_taken(
                modem::empty_file(modem::EFS_EARFCN@),
                modem::empty_file(modem::EFS_PCI@),
                rs,
                sw,
            ),
            rs,
        ),
        Task::Reset => plain_work(
            modem::resetting(rs),
            |done: ()|
                ok_response(
                    message_value(
                        "Модем перезагружается, связь восстановится через 30-60 с"@,
                    ),
                ),
        ),
        Task::SetBands(mask) => plain_work(
            modem::band_setting(known.caps, mask, rs),
            |done: ()|
                ok_response(message_value("Маска записана, требуется перезагрузка модема"@)),
        ),
        Task::RawAt(cmd) => plain_work(
            modem::sending(cmd, rs),
            |r: Reply| ok_response(reply_value(r)),
        ),
    }
}

fn status_response(
    transport: &str,
    known: &Modem,
    lock: &LockState,
    signal: &Signal<Number>,
) -> (r: Response)
    ensures
        r@ == ok_response(status_value(transport@, known@, lock@, signal@)),
{
    let body = Json::obj(
        vec![
            ("transport", Json::str(transport)),
            ("info", Json::str(known.info().as_str())),
            ("caps", caps_json(&known.caps())),
            ("lock", lock_json(lock)),
            ("signal", signal_json(signal)),
        ],
    );
    assert(body@->Obj_0 =~= status_value(transport@, known@, lock@, signal@)->Obj_0);
    ok(&body)
}

fn lock_response(lock: &LockState) -> (r: Response)
    ensures
        r@ == ok_response(lock_result_value(lock@)),
{
    let body = Json::obj(
        vec![
            ("lock", lock_json(lock)),
            (
                "message",
                Json::str("Записано. Изменения вступят в силу после перезагрузки модема."),
            ),
        ],
    );
    assert(body@->Obj_0 =~= lock_result_value(lock@)->Obj_0);
    ok(&body)
}

fn reply_response(r: &crate::at::AtResponse) -> (resp: Response)
    ensures
        resp@ == ok_response(reply_value(r@)),
{
    let body = Json::obj(
        vec![
            ("raw", Json::str(r.raw.as_str())),
            ("body", Json::str(r.body.as_str())),
            ("ok", Json::Bool(r.ok)),
            ("error", text_json(&r.error)),
        ],
    );
    assert(body@->Obj_0 =~= reply_value(r@)->Obj_0);
    ok(&body)
}

/// What comes after a lock was set or taken off.
fn after_lock(counted: (Step<()>, usize), log: &Transcript) -> (r: Step<Response>)
    requires
        counted.1 <= log.replies.len(),
    ensures
        r@ == lock_work(counted.0@, counted.1 as int, log.answers()),
{
    match counted.0 {
        Step::Done(()) => match Modem::read_lock_after(log, counted.1) {
            Step::Send(c) => Step::Send(c),
            Step::Done(l) => Step::Done(lock_response(&l)),
            _ => Step::Done(lock_response(&LockState::default())),
        },
        Step::Failed(e) => Step::Done(err(400, e.as_str())),
        Step::Send(c) => Step::Send(c),
        Step::SendSlow(c) => Step::SendSlow(c),
        Step::Fallback => Step::Fallback,
    }
}

/// Work for a request. It is asked again after every reply, and says what to do next, or what
/// to answer.
pub fn perform(
    job: &Job,
    transport: &str,
    known: &Modem,
    signal: &Signal<Number>,
    log: &Transcript,
) -> (r: Step<Response>)
    ensures
        r@ == work(job@, transport@, known@, signal@, log.answers(), log.switches@),
{
    match job {
        Job::Status => match Modem::read_lock(log) {
            Step::Send(c) => Step::Send(c),
            Step::Done(l) => Step::Done(status_response(transport, known, &l, signal)),
            _ => Step::Done(
                status_response(transport, known, &LockState::default(), signal),
            ),
        },
        Job::ReadBands => match known.read_bands(log) {
            Step::Done(raw) => {
                let body = Json::obj(vec![("raw", Json::str(raw.as_str()))]);
                assert(body@->Obj_0 =~= seq![("raw"@, JsonView::Str(raw@))]);
                Step::Done(ok(&body))
            },
            Step::Failed(e) => Step::Done(err(400, e.as_str())),
            Step::Send(c) => Step::Send(c),
            Step::SendSlow(c) => Step::SendSlow(c),
            Step::Fallback => Step::Fallback,
        },
        Job::LockEarfcn(e) => after_lock(Modem::lock_earfcn_counted(*e, log), log),
        Job::LockPci(e, p) => after_lock(Modem::lock_pci_counted(*e, *p, log), log),
        Job::Unlock => after_lock(Modem::unlock_counted(log), log),
        Job::Reset => match Modem::reset_modem(log) {
            Step::Done(()) => Step::Done(
                message("Модем перезагружается, связь восстановится через 30-60 с"),
            ),
            Step::Failed(e) => Step::Done(err(400, e.as_str())),
            Step::Send(c) => Step::Send(c),
            Step::SendSlow(c) => Step::SendSlow(c),
            Step::Fallback => Step::Fallback,
        },
        Job::SetBands(mask) => match known.set_bands(mask.as_str(), log) {
            Step::Done(()) => Step::Done(
                message("Маска записана, требуется перезагрузка модема"),
            ),
            Step::Failed(e) => Step::Done(err(400, e.as_str())),
            Step::Send(c) => Step::Send(c),
            Step::SendSlow(c) => Step::SendSlow(c),
            Step::Fallback => Step::Fallback,
        },
        Job::RawAt(cmd) => match Modem::send_raw(cmd.as_str(), log) {
            Step::Done(r) => Step::Done(reply_response(&r)),
            Step::Failed(e) => Step::Done(err(400, e.as_str())),
            Step::Send(c) => Step::Send(c),
            Step::SendSlow(c) => Step::SendSlow(c),
            Step::Fallback => Step::Fallback,
        },
    }
}

} // verus!
