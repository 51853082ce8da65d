//! AT commands: the ways to reach a modem and the replies it gives.
//!
//! A modem is reached through the router's own command line (`ndmc`), through a serial
//! device, or it is a demonstration that lives in memory. What is decided here is which words
//! go out and what the words that come back mean; the words are carried by the caller.

use crate::demo::{Demo, DemoState};
use crate::numbers;
use crate::text;
use vstd::prelude::*;
use vstd::slice::*;
use vstd::string::*;

verus! {

/// How long an ordinary command may take, in seconds.
pub const READ_TIMEOUT: u64 = 5;

/// How long a restart of the modem or a search for cells may take, in seconds.
pub const READ_TIMEOUT_SLOW: u64 = 30;

#[derive(Debug, Clone, PartialEq)]
pub enum Transport {
    /// Through the command line of the router.
    Ndmc { iface: String },
    /// Straight to a character device.
    Serial { dev: String },
    /// A made-up modem, to look at the interface without hardware.
    Mock,
    /// A made-up Intel XMM modem.
    MockIntel,
}

/// A transport as a mathematical value.
pub enum Route {
    Ndmc(Seq<char>),
    Serial(Seq<char>),
    Mock,
    MockIntel,
}

impl View for Transport {
    type V = Route;

    open spec fn view(&self) -> Route {
        match self {
            Transport::Ndmc { iface } => Route::Ndmc(iface@),
            Transport::Serial { dev } => Route::Serial(dev@),
            Transport::Mock => Route::Mock,
            Transport::MockIntel => Route::MockIntel,
        }
    }
}

/// How a transport is called in the interface.
pub open spec fn route_name(t: Route) -> Seq<char> {
    match t {
        Route::Ndmc(iface) => "ndmc:"@ + iface,
        Route::Serial(dev) => "serial:"@ + dev,
        Route::Mock => "demo qualcomm (модем не подключён)"@,
        Route::MockIntel => "demo intel (модем не подключён)"@,
    }
}

impl Transport {
    pub fn describe(&self) -> (r: String)
        ensures
            r@ == route_name(self@),
    {
        match self {
            Transport::Ndmc { iface } => {
                let mut s = "ndmc:".to_owned();
                s.append(iface.as_str());
                s
            },
            Transport::Serial { dev } => {
                let mut s = "serial:".to_owned();
                s.append(dev.as_str());
                s
            },
            Transport::Mock => "demo qualcomm (модем не подключён)".to_owned(),
            Transport::MockIntel => "demo intel (модем не подключён)".to_owned(),
        }
    }
}

// ---------------------------------------------------------------------------
// Replies
// ---------------------------------------------------------------------------
/// A reply of the modem, taken apart.
#[derive(Debug, Clone)]
pub struct AtResponse {
    /// The reply without the echo of the command and without the final result code.
    pub body: String,
    /// The reply as it came, for the console and for diagnosis.
    pub raw: String,
    /// The modem answered `OK`.
    pub ok: bool,
    /// The text of the error, where one came.
    pub error: Option<String>,
}

/// A reply as a mathematical value.
pub struct Reply {
    pub body: Seq<char>,
    pub raw: Seq<char>,
    pub ok: bool,
    pub error: Option<Seq<char>>,
}

impl View for AtResponse {
    type V = Reply;

    open spec fn view(&self) -> Reply {
        Reply {
            body: self.body@,
            raw: self.raw@,
            ok: self.ok,
            error: self.error.deep_view(),
        }
    }
}

/// What a reply says of success: nothing where it is `OK`, else the error it carries.
pub open spec fn outcome_of(r: Reply) -> Result<(), Seq<char>> {
    if r.ok {
        Ok(())
    } else {
        match r.error {
            Some(e) => Err(e),
            None => Err("модем не ответил OK"@),
        }
    }
}

impl AtResponse {
    /// Success, or the error that the modem told.
    pub fn require_ok(&self) -> (r: Result<(), String>)
        ensures
            match r {
                Ok(()) => outcome_of(self@) == Ok::<(), Seq<char>>(()),
                Err(e) => outcome_of(self@) == Err::<(), Seq<char>>(e@),
            },
    {
        if self.ok {
            return Ok(());
        }
        match &self.error {
            Some(e) => Err(e.clone()),
            None => Err("модем не ответил OK".to_owned()),
        }
    }
}

/// The text with a line feed in place of every carriage return.
pub open spec fn feeds_for_returns(s: Seq<char>) -> Seq<char> {
    Seq::new(
        s.len(),
        |i: int|
            if s[i] == '\r' {
                '\n'
            } else {
                s[i]
            },
    )
}

/// A line that reports an error.
pub open spec fn is_error_line(t: Seq<char>) -> bool {
    ||| t == "ERROR"@
    ||| "+CME ERROR"@.is_prefix_of(t)
    ||| "+CMS ERROR"@.is_prefix_of(t)
}

/// What the lines of a reply amount to.
pub struct Gathered {
    pub lines: Seq<Seq<char>>,
    pub ok: bool,
    pub error: Option<Seq<char>>,
}

/// The lines of a reply to `cmd`, sorted out: empty lines and the echo of the command are
/// passed over, `OK` and errors are noted, of several errors the last one, and what is left is
/// the body.
pub open spec fn gathered(cmd: Seq<char>, ls: Seq<Seq<char>>) -> Gathered
    decreases ls.len(),
{
    if ls.len() == 0 {
        Gathered { lines: seq![], ok: false, error: None }
    } else {
        let g = gathered(cmd, ls.drop_last());
        let t = text::trimmed(ls.last());
        if t.len() == 0 || text::same_ignoring_case(t, text::trimmed(cmd)) {
            g
        } else if t == "OK"@ {
            Gathered { ok: true, ..g }
        } else if is_error_line(t) {
            Gathered { error: Some(t), ..g }
        } else {
            Gathered { lines: g.lines.push(t), ..g }
        }
    }
}

/// The reply to `cmd` that the raw text stands for.
pub open spec fn reply_to(cmd: Seq<char>, raw: Seq<char>) -> Reply {
    let g = gathered(cmd, text::line_list(feeds_for_returns(raw)));
    Reply { body: text::joined(g.lines, "\n"@), raw, ok: g.ok, error: g.error }
}

fn error_line(t: &[char]) -> (r: bool)
    ensures
        r == is_error_line(t@),
{
    text::reads(t, "ERROR") || text::starts(t, "+CME ERROR") || text::starts(t, "+CMS ERROR")
}

/// Take the raw reply to `cmd` apart.
pub fn parse_response(cmd: &str, raw: &str) -> (r: AtResponse)
    ensures
        r@ == reply_to(cmd@, raw@),
{
    let raw_chars = text::chars_of(raw);
    let mut cleaned: Vec<char> = Vec::new();
    let mut i: usize = 0;
    while i < raw_chars.len()
        invariant
            raw_chars@ == raw@,
            i <= raw_chars.len(),
            cleaned@ == feeds_for_returns(raw@).take(i as int),
        decreases raw_chars.len() - i,
    {
        if raw_chars[i] == '\r' {
            cleaned.push('\n');
        } else {
            cleaned.push(raw_chars[i]);
        }
        i += 1;
        assert(cleaned@ == feeds_for_returns(raw@).take(i as int));
    }
    assert(cleaned@ == feeds_for_returns(raw@));

    let cmd_chars = text::chars_of(cmd);
    let command = text::trim(cmd_chars.as_slice());
    let ls = text::lines(cleaned.as_slice());
    let ghost all = text::slices(ls@);
    let mut body_lines: Vec<&[char]> = Vec::new();
    let mut ok = false;
    let mut error: Option<String> = None;
    let mut k: usize = 0;
    assert(text::slices(body_lines@) == Seq::<Seq<char>>::empty());
    while k < ls.len()
        invariant
            all == text::slices(ls@),
            command@ == text::trimmed(cmd@),
            k <= ls.len(),
            gathered(cmd@, all.take(k as int)) == (Gathered {
                lines: text::slices(body_lines@),
                ok,
                error: error.deep_view(),
            }),
        decreases ls.len() - k,
    {
        let ghost next = all.take(k + 1);
        assert(next.drop_last() == all.take(k as int));
        assert(next.last() == ls@[k as int]@);
        let ghost before = text::slices(body_lines@);
        let t = text::trim(ls[k]);
        if t.len() == 0 || text::equal_ignoring_case(t, command) {
        } else if text::reads(t, "OK") {
            ok = true;
        } else if error_line(t) {
            error = Some(text::string_of(t));
        } else {
            body_lines.push(t);
            assert(text::slices(body_lines@) == before.push(t@));
        }
        k += 1;
    }
    assert(all.take(k as int) == all);
    let body = text::join(&body_lines, "\n");
    AtResponse { body: text::string_of(body.as_slice()), raw: raw.to_owned(), ok, error }
}

/// A line with a final result code.
pub open spec fn is_final_line(t: Seq<char>) -> bool {
    t == "OK"@ || is_error_line(t) || t == "NO CARRIER"@
}

/// Whether some line of `s` holds a final result code.
pub open spec fn is_complete(s: Seq<char>) -> bool {
    exists|i: int|
        0 <= i < text::line_list(s).len() && is_final_line(
            text::trimmed(#[trigger] text::line_list(s)[i]),
        )
}

fn complete(s: &[char]) -> (r: bool)
    ensures
        r == is_complete(s@),
{
    let ls = text::lines(s);
    let ghost all = text::slices(ls@);
    let mut k: usize = 0;
    while k < ls.len()
        invariant
            all == text::slices(ls@),
            all == text::line_list(s@),
            k <= ls.len(),
            forall|i: int| 0 <= i < k ==> !is_final_line(text::trimmed(#[trigger] all[i])),
        decreases ls.len() - k,
    {
        let t = text::trim(ls[k]);
        assert(all[k as int] == ls@[k as int]@);
        if text::reads(t, "OK") || error_line(t) || text::reads(t, "NO CARRIER") {
            return true;
        }
        k += 1;
    }
    false
}

/// Whether the final result code has come.
pub fn has_terminator(s: &str) -> (r: bool)
    ensures
        r == is_complete(s@),
{
    let cs = text::chars_of(s);
    complete(cs.as_slice())
}

// ---------------------------------------------------------------------------
// The port
// ---------------------------------------------------------------------------
/// What has to happen to get the reply to a command.
#[derive(Debug)]
pub enum Outbound {
    /// Run `ndmc -c <call>` and read what it prints.
    Ndmc { call: String },
    /// Write `line` to the device and read until the reply is complete or time is up.
    Serial { dev: String, line: String, timeout: u64 },
    /// Nothing: the made-up modem has answered.
    Answered(AtResponse),
}

/// An outbound command as a mathematical value.
pub enum Errand {
    Ndmc(Seq<char>),
    Serial { dev: Seq<char>, line: Seq<char>, timeout: int },
    Answered(Reply),
}

impl View for Outbound {
    type V = Errand;

    open spec fn view(&self) -> Errand {
        match self {
            Outbound::Ndmc { call } => Errand::Ndmc(call@),
            Outbound::Serial { dev, line, timeout } => Errand::Serial {
                dev: dev@,
                line: line@,
                timeout: *timeout as int,
            },
            Outbound::Answered(r) => Errand::Answered(r@),
        }
    }
}

/// The call that hands a command to the modem behind an interface of the router.
pub open spec fn ndmc_call_text(iface: Seq<char>, cmd: Seq<char>) -> Seq<char> {
    "interface "@ + iface + " tty send "@ + cmd
}

pub fn ndmc_call(iface: &str, cmd: &str) -> (r: String)
    ensures
        r@ == ndmc_call_text(iface@, cmd@),
{
    let mut s = "interface ".to_owned();
    s.append(iface);
    s.append(" tty send ");
    s.append(cmd);
    s
}

/// What `ndmc` said: its output, or where that is blank, its error output.
pub open spec fn ndmc_said(stdout: Seq<u8>, stderr: Seq<u8>) -> Seq<char> {
    let out = text::lossy_text(stdout);
    if text::trimmed(out).len() == 0 {
        text::lossy_text(stderr)
    } else {
        out
    }
}

pub fn ndmc_output(stdout: &[u8], stderr: &[u8]) -> (r: String)
    ensures
        r@ == ndmc_said(stdout@, stderr@),
{
    let out = text::from_utf8_lossy(stdout);
    let cs = text::chars_of(out.as_str());
    if text::trim(cs.as_slice()).len() == 0 {
        text::from_utf8_lossy(stderr)
    } else {
        out
    }
}

/// What sending `cmd` over a transport takes, with the made-up modems as they are.
pub open spec fn errand(
    route: Route,
    demo: DemoState,
    cmd: Seq<char>,
    timeout: int,
    now: int,
) -> Errand {
    match route {
        Route::Ndmc(iface) => Errand::Ndmc(ndmc_call_text(iface, cmd)),
        Route::Serial(dev) => Errand::Serial { dev, line: cmd.push('\r'), timeout },
        Route::Mock => Errand::Answered(
            reply_to(cmd, crate::demo::reply_text(demo.files, cmd, now)),
        ),
        Route::MockIntel => Errand::Answered(reply_to(cmd, crate::demo::intel_reply(cmd))),
    }
}

/// The made-up modems after `cmd` was sent over a transport: only the one behind it changes.
pub open spec fn demo_after(route: Route, demo: DemoState, cmd: Seq<char>) -> DemoState {
    match route {
        Route::Mock => DemoState { files: crate::demo::files_after(demo.files, cmd), ..demo },
        Route::MockIntel => DemoState { locked: crate::demo::lock_after(demo.locked, cmd), ..demo },
        _ => demo,
    }
}

/// The port of the modem. There is one and it is not re-entrant: one command at a time.
#[derive(Debug)]
pub struct AtPort {
    transport: Transport,
}

impl View for AtPort {
    type V = Route;

    closed spec fn view(&self) -> Route {
        self.transport@
    }
}

impl AtPort {
    pub fn new(transport: Transport) -> (r: AtPort)
        ensures
            r@ == transport@,
    {
        AtPort { transport }
    }

    pub fn transport(&self) -> (r: &Transport)
        ensures
            r@ == self@,
    {
        &self.transport
    }

    /// Send a command at the second `now`. The made-up modems are those of the process: all
    /// ports share them.
    pub fn send(&mut self, demo: &mut Demo, cmd: &str, now: u64) -> (r: Outbound)
        ensures
            r@ == errand(old(self)@, old(demo)@, cmd@, READ_TIMEOUT as int, now as int),
            final(demo)@ == demo_after(old(self)@, old(demo)@, cmd@),
            final(self)@ == old(self)@,
    {
        self.send_with_timeout(demo, cmd, READ_TIMEOUT, now)
    }

    /// The same with more time, for searches and restarts.
    pub fn send_slow(&mut self, demo: &mut Demo, cmd: &str, now: u64) -> (r: Outbound)
        ensures
            r@ == errand(old(self)@, old(demo)@, cmd@, READ_TIMEOUT_SLOW as int, now as int),
            final(demo)@ == demo_after(old(self)@, old(demo)@, cmd@),
            final(self)@ == old(self)@,
    {
        self.send_with_timeout(demo, cmd, READ_TIMEOUT_SLOW, now)
    }

    fn send_with_timeout(
        &mut self,
        demo: &mut Demo,
        cmd: &str,
        timeout: u64,
        now: u64,
    ) -> (r: Outbound)
        ensures
            r@ == errand(old(self)@, old(demo)@, cmd@, timeout as int, now as int),
            final(demo)@ == demo_after(old(self)@, old(demo)@, cmd@),
            final(self)@ == old(self)@,
    {
        match &self.transport {
            Transport::Ndmc { iface } => Outbound::Ndmc { call: ndmc_call(iface.as_str(), cmd) },
            Transport::Serial { dev } => {
                let mut line = cmd.to_owned();
                line.push('\r');
                Outbound::Serial { dev: dev.clone(), line, timeout }
            },
            Transport::Mock => {
                let raw = demo.send(cmd, now);
                Outbound::Answered(parse_response(cmd, raw.as_str()))
            },
            Transport::MockIntel => {
                let raw = demo.send_intel(cmd);
                Outbound::Answered(parse_response(cmd, raw.as_str()))
            },
        }
    }

    /// Whether there is a way to fall back from the transport in use. The command line of the
    /// router can spoil the quotation marks in `at^efs="…"`; a serial device cannot.
    pub fn can_fall_back(&self) -> (r: bool)
        ensures
            r == !(self@ is Serial),
    {
        match &self.transport {
            Transport::Serial { .. } => false,
            _ => true,
        }
    }

    /// Go over to the serial device that was found, if one was and it is not in use already.
    pub fn fallback_to_serial(&mut self, found: Option<Transport>) -> (r: bool)
        ensures
            r == (!(old(self)@ is Serial) && found is Some),
            final(self)@ == (if r {
                found->0@
            } else {
                old(self)@
            }),
    {
        if !self.can_fall_back() {
            return false;
        }
        match found {
            Some(t) => {
                self.transport = t;
                true
            },
            None => false,
        }
    }
}

// ---------------------------------------------------------------------------
// Reading from a serial device
// ---------------------------------------------------------------------------
/// What has been read so far, and how many reads in a row brought nothing.
pub struct SerialState {
    pub read: Seq<char>,
    pub empty_reads: int,
}

/// The state after one more read.
pub open spec fn after_read(s: SerialState, chunk: Seq<u8>) -> SerialState {
    if chunk.len() == 0 {
        SerialState { empty_reads: s.empty_reads + 1, ..s }
    } else {
        SerialState { read: s.read + text::lossy_text(chunk), empty_reads: 0 }
    }
}

/// Whether reading stops after a read that left this state: the reply is complete, or nothing
/// comes any more. Silence is waited out a little longer while nothing has come at all.
pub open spec fn reading_ends(s: SerialState) -> bool {
    if s.empty_reads == 0 {
        is_complete(s.read)
    } else {
        (s.empty_reads >= 2 && text::trimmed(s.read).len() > 0) || s.empty_reads >= 3
    }
}

/// Puts a reply together from what a serial device delivers.
#[derive(Debug)]
pub struct SerialReader {
    acc: Vec<char>,
    empty_reads: u8,
}

impl View for SerialReader {
    type V = SerialState;

    closed spec fn view(&self) -> SerialState {
        SerialState { read: self.acc@, empty_reads: self.empty_reads as int }
    }
}

impl SerialReader {
    pub fn new() -> (r: SerialReader)
        ensures
            r@ == (SerialState { read: seq![], empty_reads: 0 }),
    {
        SerialReader { acc: Vec::new(), empty_reads: 0 }
    }

    /// Take what one read delivered; nothing stands for a read that timed out. The result says
    /// whether reading ends here.
    pub fn on_read(&mut self, chunk: &[u8]) -> (done: bool)
        requires
            old(self)@.empty_reads < 3,
        ensures
            final(self)@ == after_read(old(self)@, chunk@),
            done == reading_ends(final(self)@),
            !done ==> final(self)@.empty_reads < 3,
    {
        if chunk.len() == 0 {
            self.empty_reads = self.empty_reads + 1;
            (self.empty_reads >= 2 && text::trim(self.acc.as_slice()).len() > 0)
                || self.empty_reads >= 3
        } else {
            self.empty_reads = 0;
            let piece = text::from_utf8_lossy(chunk);
            text::add_str(&mut self.acc, piece.as_str());
            complete(self.acc.as_slice())
        }
    }

    /// Everything that was read.
    pub fn text(&self) -> (r: String)
        ensures
            r@ == self@.read,
    {
        text::string_of(self.acc.as_slice())
    }
}

// ---------------------------------------------------------------------------
// Finding the modem
// ---------------------------------------------------------------------------
/// How many letters and digits `s` begins with.
pub open spec fn run_len(s: Seq<char>) -> int
    decreases s.len(),
{
    if s.len() > 0 && text::is_alphanumeric(s[0]) {
        1 + run_len(s.skip(1))
    } else {
        0
    }
}

pub proof fn lemma_run_len(s: Seq<char>)
    ensures
        0 <= run_len(s) <= s.len(),
    decreases s.len(),
{
    if s.len() > 0 && text::is_alphanumeric(s[0]) {
        lemma_run_len(s.skip(1));
    }
}

/// The longest runs of letters and digits in `s`.
pub open spec fn runs(s: Seq<char>) -> Seq<Seq<char>>
    decreases s.len(),
{
    let n = run_len(s);
    if s.len() == 0 {
        seq![]
    } else if 0 < n <= s.len() {
        seq![s.take(n)] + runs(s.skip(n))
    } else {
        runs(s.skip(1))
    }
}

/// One digit or more and nothing else.
pub open spec fn is_number(s: Seq<char>) -> bool {
    s.len() > 0 && forall|i: int| 0 <= i < s.len() ==> text::is_digit(#[trigger] s[i])
}

/// A name that the router gives to an interface with a modem: `UsbQmi0`, `UsbLte0`, `UsbModem0`.
pub open spec fn names_modem(s: Seq<char>) -> bool {
    match text::after_prefix(s, "UsbQmi"@) {
        Some(rest) => is_number(rest),
        None => match text::after_prefix(s, "UsbLte"@) {
            Some(rest) => is_number(rest),
            None => match text::after_prefix(s, "UsbModem"@) {
                Some(rest) => is_number(rest),
                None => false,
            },
        },
    }
}

/// The names of modem interfaces among `ts`, each once, in the order they first come.
pub open spec fn modem_names(ts: Seq<Seq<char>>) -> Seq<Seq<char>>
    decreases ts.len(),
{
    if ts.len() == 0 {
        seq![]
    } else {
        let f = modem_names(ts.drop_last());
        if names_modem(ts.last()) && !f.contains(ts.last()) {
            f.push(ts.last())
        } else {
            f
        }
    }
}

/// QMI interfaces come first, then LTE interfaces, then the others.
pub open spec fn rank(name: Seq<char>) -> int {
    if "UsbQmi"@.is_prefix_of(name) {
        0
    } else if "UsbLte"@.is_prefix_of(name) {
        1
    } else {
        2
    }
}

/// The names of the given rank, in their order.
pub open spec fn of_rank(names: Seq<Seq<char>>, r: int) -> Seq<Seq<char>>
    decreases names.len(),
{
    if names.len() == 0 {
        seq![]
    } else if rank(names.last()) == r {
        of_rank(names.drop_last(), r).push(names.last())
    } else {
        of_rank(names.drop_last(), r)
    }
}

/// The modem interfaces that a listing mentions, in the order in which to try them.
pub open spec fn listed_names(s: Seq<char>) -> Seq<Seq<char>> {
    let f = modem_names(runs(s));
    of_rank(f, 0) + of_rank(f, 1) + of_rank(f, 2)
}

fn number(s: &[char]) -> (r: bool)
    ensures
        r == is_number(s@),
{
    let mut i: usize = 0;
    while i < s.len()
        invariant
            i <= s.len(),
            forall|j: int| 0 <= j < i ==> text::is_digit(#[trigger] s@[j]),
        decreases s.len() - i,
    {
        if !text::digit(s[i]) {
            return false;
        }
        i += 1;
    }
    s.len() > 0
}

fn is_modem_iface(s: &[char]) -> (r: bool)
    ensures
        r == names_modem(s@),
{
    match text::strip_prefix(s, "UsbQmi") {
        Some(rest) => number(rest),
        None => match text::strip_prefix(s, "UsbLte") {
            Some(rest) => number(rest),
            None => match text::strip_prefix(s, "UsbModem") {
                Some(rest) => number(rest),
                None => false,
            },
        },
    }
}

fn split_runs<'a>(s: &'a [char]) -> (r: Vec<&'a [char]>)
    ensures
        text::slices(r@) == runs(s@),
{
    let mut out: Vec<&'a [char]> = Vec::new();
    let mut rest: &'a [char] = s;
    assert(text::slices(out@) + runs(rest@) == runs(s@));
    while rest.len() > 0
        invariant
            text::slices(out@) + runs(rest@) == runs(s@),
        decreases rest.len(),
    {
        let mut n: usize = 0;
        assert(rest@.skip(0) == rest@);
        while n < rest.len() && text::alphanumeric(rest[n])
            invariant
                n <= rest.len(),
                run_len(rest@) == n + run_len(rest@.skip(n as int)),
            decreases rest.len() - n,
        {
            assert(rest@.skip(n as int).skip(1) == rest@.skip(n + 1));
            n += 1;
        }
        if n == 0 {
            let b = slice_subrange(rest, 1, rest.len());
            assert(b@ == rest@.skip(1));
            rest = b;
        } else {
            let ghost before = text::slices(out@);
            let a = slice_subrange(rest, 0, n);
            let b = slice_subrange(rest, n, rest.len());
            assert(a@ == rest@.take(n as int));
            assert(b@ == rest@.skip(n as int));
            out.push(a);
            assert(text::slices(out@) == before.push(a@));
            assert(before + (seq![a@] + runs(b@)) == before.push(a@) + runs(b@));
            rest = b;
        }
    }
    assert(text::slices(out@) + runs(rest@) == text::slices(out@));
    out
}

/// Whether `name` is among `names`.
fn among(names: &Vec<&[char]>, name: &[char]) -> (r: bool)
    ensures
        r == text::slices(names@).contains(name@),
{
    let mut i: usize = 0;
    while i < names.len()
        invariant
            i <= names.len(),
            forall|j: int| 0 <= j < i ==> text::slices(names@)[j] != name@,
        decreases names.len() - i,
    {
        if text::same(names[i], name) {
            assert(text::slices(names@)[i as int] == name@);
            return true;
        }
        i += 1;
    }
    false
}

/// Append the names of one rank.
fn add_rank(out: &mut Vec<String>, names: &Vec<&[char]>, r: u8)
    ensures
        final(out).deep_view() == old(out).deep_view() + of_rank(text::slices(names@), r as int),
{
    let ghost all = text::slices(names@);
    let mut i: usize = 0;
    assert(of_rank(all.take(0), r as int) == Seq::<Seq<char>>::empty());
    while i < names.len()
        invariant
            all == text::slices(names@),
            i <= names.len(),
            out.deep_view() == old(out).deep_view() + of_rank(all.take(i as int), r as int),
        decreases names.len() - i,
    {
        let ghost before = out.deep_view();
        let ghost next = all.take(i + 1);
        assert(next.drop_last() == all.take(i as int));
        assert(next.last() == names@[i as int]@);
        let k: u8 = if text::starts(names[i], "UsbQmi") {
            0
        } else if text::starts(names[i], "UsbLte") {
            1
        } else {
            2
        };
        if k == r {
            out.push(text::string_of(names[i]));
            assert(out.deep_view() == before.push(names@[i as int]@));
            assert(out.deep_view() == old(out).deep_view() + of_rank(next, r as int));
        }
        i += 1;
    }
    assert(all.take(i as int) == all);
}

/// The modem interfaces that a listing of interfaces mentions, QMI first.
pub fn extract_iface_names(listing: &str) -> (r: Vec<String>)
    ensures
        r.deep_view() == listed_names(listing@),
{
    let cs = text::chars_of(listing);
    let ts = split_runs(cs.as_slice());
    let ghost all = text::slices(ts@);
    let mut found: Vec<&[char]> = Vec::new();
    let mut i: usize = 0;
    assert(text::slices(found@) == modem_names(all.take(0)));
    while i < ts.len()
        invariant
            all == text::slices(ts@),
            i <= ts.len(),
            text::slices(found@) == modem_names(all.take(i as int)),
        decreases ts.len() - i,
    {
        let ghost before = text::slices(found@);
        let ghost next = all.take(i + 1);
        assert(next.drop_last() == all.take(i as int));
        assert(next.last() == ts@[i as int]@);
        if is_modem_iface(ts[i]) && !among(&found, ts[i]) {
            found.push(ts[i]);
            assert(text::slices(found@) == before.push(ts@[i as int]@));
        }
        i += 1;
    }
    assert(all.take(i as int) == all);
    let mut out: Vec<String> = Vec::new();
    assert(out.deep_view() == Seq::<Seq<char>>::empty());
    add_rank(&mut out, &found, 0);
    add_rank(&mut out, &found, 1);
    add_rank(&mut out, &found, 2);
    assert(out.deep_view() == listed_names(listing@));
    out
}

/// What has to be found out next in the search for a modem.
#[derive(Debug)]
pub enum Inquiry {
    /// List the interfaces of the router.
    ListInterfaces,
    /// Send `ATE0` through an interface of the router.
    TryIface(String),
    /// Send `ATE0` to a device, if it is there.
    TryDevice(String),
    /// The search is over.
    Done(Option<Transport>),
}

/// An inquiry as a mathematical value.
pub enum Quest {
    ListInterfaces,
    TryIface(Seq<char>),
    TryDevice(Seq<char>),
    Done(Option<Route>),
}

impl View for Inquiry {
    type V = Quest;

    open spec fn view(&self) -> Quest {
        match self {
            Inquiry::ListInterfaces => Quest::ListInterfaces,
            Inquiry::TryIface(s) => Quest::TryIface(s@),
            Inquiry::TryDevice(s) => Quest::TryDevice(s@),
            Inquiry::Done(Some(t)) => Quest::Done(Some(t@)),
            Inquiry::Done(None) => Quest::Done(None),
        }
    }
}

/// What the search has brought to light so far.
#[derive(Debug)]
pub struct Findings {
    /// The output of the listing of interfaces, once it was asked for; nothing inside where it
    /// could not be had.
    pub listing: Option<Option<Vec<u8>>>,
    /// What the interfaces answered, in the order in which they were tried; an interface that
    /// could not be asked answered nothing.
    pub iface_replies: Vec<String>,
    /// What the devices answered, in the order in which they were tried; nothing where a device
    /// is missing or could not be asked.
    pub device_replies: Vec<Option<String>>,
}

impl Findings {
    /// Nothing is known yet.
    pub fn new() -> (r: Findings)
        ensures
            r.listing is None,
            r.iface_replies@.len() == 0,
            r.device_replies@.len() == 0,
    {
        Findings { listing: None, iface_replies: Vec::new(), device_replies: Vec::new() }
    }
}

/// The device with number `i` after `stem`.
pub open spec fn device(stem: Seq<char>, i: int) -> Seq<char> {
    stem.push(numbers::digit_char(i))
}

/// The devices to try, in their order.
pub open spec fn serial_devices(preferred: Option<Seq<char>>) -> Seq<Seq<char>> {
    (match preferred {
        Some(p) => seq![p],
        None => seq![],
    }) + Seq::new(
        8,
        |i: int|
            if i < 4 {
                device("/dev/ttyACM"@, i)
            } else {
                device("/dev/ttyUSB"@, i - 4)
            },
    )
}

/// A device that answers `ATE0` with `OK` is the port of a modem.
pub open spec fn is_live(reply: Option<Seq<char>>) -> bool {
    match reply {
        Some(r) => is_complete(r) && text::occurs(r, "OK"@),
        None => false,
    }
}

/// The index of the first device that proved live, or the number of replies if none did.
pub open spec fn first_live(replies: Seq<Option<Seq<char>>>) -> int
    decreases replies.len(),
{
    if replies.len() == 0 || is_live(replies[0]) {
        0
    } else {
        1 + first_live(replies.skip(1))
    }
}

/// How the search among the devices goes on after the given replies.
pub open spec fn serial_quest(
    preferred: Option<Seq<char>>,
    replies: Seq<Option<Seq<char>>>,
) -> Quest {
    let devices = serial_devices(preferred);
    let i = first_live(replies);
    if i < replies.len() && i < devices.len() {
        Quest::Done(Some(Route::Serial(devices[i])))
    } else if replies.len() < devices.len() {
        Quest::TryDevice(devices[replies.len() as int])
    } else {
        Quest::Done(None)
    }
}

fn add_devices(out: &mut Vec<String>, stem: &str)
    ensures
        final(out).deep_view() == old(out).deep_view() + Seq::new(
            4,
            |i: int| device(stem@, i),
        ),
{
    let mut i: u8 = 0;
    while i < 4
        invariant
            i <= 4,
            out.deep_view() == old(out).deep_view() + Seq::new(i as nat, |k: int| device(stem@, k)),
        decreases 4 - i,
    {
        let ghost before = out.deep_view();
        let mut dev = stem.to_owned();
        dev.push(numbers::digit_for(i));
        out.push(dev);
        assert(out.deep_view() == before.push(device(stem@, i as int)));
        i += 1;
        assert(out.deep_view() == old(out).deep_view() + Seq::new(
            i as nat,
            |k: int| device(stem@, k),
        ));
    }
}

/// The text in an optional string.
pub open spec fn opt_text(o: Option<&str>) -> Option<Seq<char>> {
    match o {
        Some(s) => Some(s@),
        None => None,
    }
}

fn serial_candidates(preferred: Option<&str>) -> (r: Vec<String>)
    ensures
        r.deep_view() == serial_devices(opt_text(preferred)),
{
    let mut out: Vec<String> = Vec::new();
    if let Some(p) = preferred {
        out.push(p.to_owned());
    }
    let ghost head = out.deep_view();
    assert(head == (match opt_text(preferred) {
        Some(p) => seq![p],
        None => seq![],
    }));
    add_devices(&mut out, "/dev/ttyACM");
    add_devices(&mut out, "/dev/ttyUSB");
    assert(out.deep_view() == serial_devices(opt_text(preferred)));
    out
}

fn live(reply: &Option<String>) -> (r: bool)
    ensures
        r == is_live(reply.deep_view()),
{
    match reply {
        Some(s) => {
            let cs = text::chars_of(s.as_str());
            complete(cs.as_slice()) && text::contains(cs.as_slice(), "OK")
        },
        None => false,
    }
}

/// What is sent to find out whether a modem is there.
pub const PROBE: &'static str = "ATE0";

/// How long a device may take to answer it, in seconds.
pub const PROBE_TIMEOUT: u64 = 2;

/// Ask a device whether it is the port of a modem.
pub fn probe_device(dev: &str) -> (r: Outbound)
    ensures
        r@ == (Errand::Serial { dev: dev@, line: PROBE@.push('\r'), timeout: PROBE_TIMEOUT as int }),
{
    let mut line = PROBE.to_owned();
    line.push('\r');
    Outbound::Serial { dev: dev.to_owned(), line, timeout: PROBE_TIMEOUT }
}

/// Ask through an interface of the router whether a modem is behind it.
pub fn probe_iface(iface: &str) -> (r: Outbound)
    ensures
        r@ == Errand::Ndmc(ndmc_call_text(iface@, PROBE@)),
{
    Outbound::Ndmc { call: ndmc_call(iface, PROBE) }
}

/// Look for a live AT port: the first device that answers `OK` to `ATE0`. Given the replies so
/// far, the result is the device to try next or the end of the search.
pub fn detect_serial(preferred: Option<&str>, replies: &Vec<Option<String>>) -> (r: Inquiry)
    ensures
        r@ == serial_quest(opt_text(preferred), replies.deep_view()),
{
    let devices = serial_candidates(preferred);
    let ghost all = replies.deep_view();
    let mut i: usize = 0;
    assert(all.skip(0) == all);
    while i < replies.len() && i < devices.len()
        invariant
            all == replies.deep_view(),
            all.len() == replies.len(),
            devices.deep_view() == serial_devices(opt_text(preferred)),
            i <= replies.len(),
            first_live(all) == i + first_live(all.skip(i as int)),
        decreases replies.len() - i,
    {
        assert(all.skip(i as int)[0] == replies@[i as int].deep_view());
        if live(&replies[i]) {
            assert(devices.deep_view()[i as int] == devices@[i as int]@);
            return Inquiry::Done(Some(Transport::Serial { dev: devices[i].clone() }));
        }
        assert(all.skip(i as int).skip(1) == all.skip(i + 1));
        i += 1;
    }
    proof {
        lemma_first_live(all.skip(i as int));
    }
    if replies.len() < devices.len() {
        assert(devices.deep_view()[replies.len() as int] == devices@[replies.len() as int]@);
        Inquiry::TryDevice(devices[replies.len()].clone())
    } else {
        Inquiry::Done(None)
    }
}

pub proof fn lemma_first_live(replies: Seq<Option<Seq<char>>>)
    ensures
        0 <= first_live(replies) <= replies.len(),
        first_live(replies) < replies.len() ==> is_live(replies[first_live(replies)]),
        forall|j: int| 0 <= j < first_live(replies) ==> !is_live(#[trigger] replies[j]),
    decreases replies.len(),
{
    if replies.len() > 0 && !is_live(replies[0]) {
        lemma_first_live(replies.skip(1));
        assert forall|j: int| 0 <= j < first_live(replies) implies !is_live(
            #[trigger] replies[j],
        ) by {
            if j > 0 {
                assert(replies[j] == replies.skip(1)[j - 1]);
            }
        }
    }
}

/// The index of the first interface whose reply holds `OK`, or the number of replies.
pub open spec fn first_ok(replies: Seq<Seq<char>>) -> int
    decreases replies.len(),
{
    if replies.len() == 0 || text::occurs(replies[0], "OK"@) {
        0
    } else {
        1 + first_ok(replies.skip(1))
    }
}

/// How the search among the interfaces of the router goes on.
pub open spec fn ndmc_quest(
    preferred: Option<Seq<char>>,
    listing: Option<Option<Seq<u8>>>,
    replies: Seq<Seq<char>>,
) -> Quest {
    match preferred {
        Some(iface) => Quest::Done(Some(Route::Ndmc(iface))),
        None => match listing {
            None => Quest::ListInterfaces,
            Some(None) => Quest::Done(None),
            Some(Some(bytes)) => {
                let names = listed_names(text::lossy_text(bytes));
                let i = first_ok(replies);
                if i < replies.len() && i < names.len() {
                    Quest::Done(Some(Route::Ndmc(names[i])))
                } else if replies.len() < names.len() {
                    Quest::TryIface(names[replies.len() as int])
                } else {
                    Quest::Done(None)
                }
            },
        },
    }
}

pub open spec fn listing_view(l: Option<Option<Vec<u8>>>) -> Option<Option<Seq<u8>>> {
    match l {
        None => None,
        Some(None) => Some(None),
        Some(Some(v)) => Some(Some(v@)),
    }
}

/// Look for the interface of the router that has the modem behind it. Given what is known so
/// far, the result is what to find out next or the end of the search.
pub fn detect_ndmc(
    preferred: Option<&str>,
    listing: &Option<Option<Vec<u8>>>,
    replies: &Vec<String>,
) -> (r: Inquiry)
    ensures
        r@ == ndmc_quest(opt_text(preferred), listing_view(*listing), replies.deep_view()),
{
    if let Some(iface) = preferred {
        return Inquiry::Done(Some(Transport::Ndmc { iface: iface.to_owned() }));
    }
    let bytes = match listing {
        None => return Inquiry::ListInterfaces,
        Some(None) => return Inquiry::Done(None),
        Some(Some(b)) => b,
    };
    let shown = text::from_utf8_lossy(bytes.as_slice());
    let names = extract_iface_names(shown.as_str());
    let ghost all = replies.deep_view();
    let mut i: usize = 0;
    assert(all.skip(0) == all);
    while i < replies.len() && i < names.len()
        invariant
            all == replies.deep_view(),
            all.len() == replies.len(),
            preferred is None,
            listing_view(*listing) == Some(Some(bytes@)),
            names.deep_view() == listed_names(text::lossy_text(bytes@)),
            i <= replies.len(),
            first_ok(all) == i + first_ok(all.skip(i as int)),
        decreases replies.len() - i,
    {
        assert(all.skip(i as int)[0] == replies@[i as int]@);
        let cs = text::chars_of(replies[i].as_str());
        if text::contains(cs.as_slice(), "OK") {
            assert(names.deep_view()[i as int] == names@[i as int]@);
            return Inquiry::Done(Some(Transport::Ndmc { iface: names[i].clone() }));
        }
        assert(all.skip(i as int).skip(1) == all.skip(i + 1));
        i += 1;
    }
    proof {
        lemma_first_ok(all.skip(i as int));
    }
    if replies.len() < names.len() {
        assert(names.deep_view()[replies.len() as int] == names@[replies.len() as int]@);
        Inquiry::TryIface(names[replies.len()].clone())
    } else {
        Inquiry::Done(None)
    }
}

pub proof fn lemma_first_ok(replies: Seq<Seq<char>>)
    ensures
        0 <= first_ok(replies) <= replies.len(),
        first_ok(replies) < replies.len() ==> text::occurs(replies[first_ok(replies)], "OK"@),
        forall|j: int|
            0 <= j < first_ok(replies) ==> !text::occurs(#[trigger] replies[j], "OK"@),
    decreases replies.len(),
{
    if replies.len() > 0 && !text::occurs(replies[0], "OK"@) {
        lemma_first_ok(replies.skip(1));
        assert forall|j: int| 0 <= j < first_ok(replies) implies !text::occurs(
            #[trigger] replies[j],
            "OK"@,
        ) by {
            if j > 0 {
                assert(replies[j] == replies.skip(1)[j - 1]);
            }
        }
    }
}

/// How the search for a modem goes on: among the interfaces of the router first, unless a
/// device was asked for, then among the devices.
pub open spec fn quest(
    pref_iface: Option<Seq<char>>,
    pref_dev: Option<Seq<char>>,
    known: Findings,
) -> Quest {
    let devices = serial_quest(pref_dev, known.device_replies.deep_view());
    if pref_dev is None {
        let ifaces = ndmc_quest(
            pref_iface,
            listing_view(known.listing),
            known.iface_replies.deep_view(),
        );
        if ifaces == Quest::Done(None) {
            devices
        } else {
            ifaces
        }
    } else {
        devices
    }
}

/// Settle on a transport at the start. Given what is known so far, the result is what to find
/// out next or the end of the search.
pub fn detect(pref_iface: Option<&str>, pref_dev: Option<&str>, known: &Findings) -> (r: Inquiry)
    ensures
        r@ == quest(opt_text(pref_iface), opt_text(pref_dev), *known),
{
    if pref_dev.is_none() {
        match detect_ndmc(pref_iface, &known.listing, &known.iface_replies) {
            Inquiry::Done(None) => {},
            other => return other,
        }
    }
    detect_serial(pref_dev, &known.device_replies)
}

} // verus!
