//! HTTP/1.1, as much of it as a local web interface needs: requests with a body of known
//! length, responses, Basic authentication.

use crate::base64;
use crate::numbers;
use crate::table::Table;
use crate::text;
use vstd::prelude::*;
use vstd::slice::*;
use vstd::string::*;
use vstd::utf8::*;

verus! {

/// A local interface needs no more requests at a time, and the router is weak.
pub const MAX_CONNECTIONS: usize = 16;

/// How long a client may take to send or receive, in seconds.
pub const IO_TIMEOUT: u64 = 30;

/// Bodies are tiny here; anything larger is garbage or an attack.
pub const MAX_BODY: usize = 65536;

/// The longest line of a request head.
pub const MAX_HEADER_LINE: usize = 8192;

// ---------------------------------------------------------------------------
// Requests
// ---------------------------------------------------------------------------
#[derive(Debug)]
pub struct Request {
    pub method: String,
    /// The path without the query, so that routing does not depend on it.
    pub path: String,
    /// The headers, by name in lower case.
    pub headers: Table,
    pub body: String,
}

/// A request as a mathematical value.
pub struct RequestView {
    pub method: Seq<char>,
    pub path: Seq<char>,
    pub headers: Map<Seq<char>, Seq<char>>,
    pub body: Seq<char>,
}

impl View for Request {
    type V = RequestView;

    open spec fn view(&self) -> RequestView {
        RequestView {
            method: self.method@,
            path: self.path@,
            headers: self.headers@,
            body: self.body@,
        }
    }
}

/// What can be wrong with a request.
#[derive(Debug, PartialEq, Eq, Structural, Clone, Copy)]
pub enum ReadError {
    /// A line of the head is too long.
    LineTooLong,
    /// The body is too large.
    BodyTooLarge,
    /// The connection ended within the body.
    Truncated,
}

/// What a client has sent, once that is settled.
#[derive(Debug)]
pub enum Received {
    /// No request at all: the client is gone, or its first line is blank.
    Nothing,
    Failed(ReadError),
    Got(Request),
}

/// How far a request has come.
pub enum Progress {
    /// More bytes are needed.
    Wait,
    Nothing,
    Failed(ReadError),
    Got(RequestView),
}

impl View for Received {
    type V = Progress;

    open spec fn view(&self) -> Progress {
        match self {
            Received::Nothing => Progress::Nothing,
            Received::Failed(e) => Progress::Failed(*e),
            Received::Got(r) => Progress::Got(r@),
        }
    }
}

/// Bytes as characters, one for one.
pub open spec fn latin(b: Seq<u8>) -> Seq<char> {
    Seq::new(b.len(), |i: int| b[i] as char)
}

/// The index of the first line feed, or the number of bytes if there is none.
pub open spec fn feed_position(b: Seq<u8>) -> int
    decreases b.len(),
{
    if b.len() == 0 || b[0] == 0x0a {
        0
    } else {
        1 + feed_position(b.skip(1))
    }
}

/// The line at the start of what has come from a client.
pub enum Line {
    Wait,
    TooLong,
    Read { text: Seq<char>, len: int },
}

/// The first line of `b` with its line feed. At the end of the stream (`eof`) what is left is a
/// line too.
pub open spec fn next_line(b: Seq<u8>, eof: bool) -> Line {
    let i = feed_position(b);
    if i > MAX_HEADER_LINE {
        Line::TooLong
    } else if i < b.len() {
        Line::Read { text: latin(b.take(i + 1)), len: i + 1 }
    } else if eof {
        Line::Read { text: latin(b), len: b.len() as int }
    } else {
        Line::Wait
    }
}

/// The headers with the one that the line `t` gives; a line without a colon gives none.
pub open spec fn with_header(
    h: Map<Seq<char>, Seq<char>>,
    t: Seq<char>,
) -> Map<Seq<char>, Seq<char>> {
    match text::halves(t, ':') {
        Some((k, v)) => h.insert(text::lowercase(text::trimmed(k)), text::trimmed(v)),
        None => h,
    }
}

/// The length that the headers announce for the body; none or nonsense stands for 0.
pub open spec fn body_length(h: Map<Seq<char>, Seq<char>>) -> int {
    if h.contains_key("content-length"@) {
        match numbers::unsigned(h["content-length"@], 10, usize::MAX as int) {
            Some(n) => n,
            None => 0,
        }
    } else {
        0
    }
}

/// The path of a request target: what stands before the query.
pub open spec fn path_of(target: Seq<char>) -> Seq<char> {
    match text::halves(target, '?') {
        Some((p, _)) => p,
        None => target,
    }
}

/// How far the request has come when the head is read and `b` follows it.
pub open spec fn body_progress(
    method: Seq<char>,
    path: Seq<char>,
    h: Map<Seq<char>, Seq<char>>,
    b: Seq<u8>,
    eof: bool,
) -> Progress {
    let n = body_length(h);
    if n > MAX_BODY {
        Progress::Failed(ReadError::BodyTooLarge)
    } else if n <= b.len() {
        Progress::Got(
            RequestView { method, path, headers: h, body: text::lossy_text(b.take(n)) },
        )
    } else if eof {
        Progress::Failed(ReadError::Truncated)
    } else {
        Progress::Wait
    }
}

/// How far the request has come when the headers `h` are read and `b` follows them. The head
/// ends with a blank line.
pub open spec fn head_progress(
    method: Seq<char>,
    path: Seq<char>,
    h: Map<Seq<char>, Seq<char>>,
    b: Seq<u8>,
    eof: bool,
) -> Progress
    decreases b.len(),
{
    match next_line(b, eof) {
        Line::Wait => Progress::Wait,
        Line::TooLong => Progress::Failed(ReadError::LineTooLong),
        Line::Read { text, len } => {
            let t = text::trimmed_end(text);
            if t.len() == 0 {
                body_progress(method, path, h, b.skip(len), eof)
            } else if 0 < len <= b.len() {
                head_progress(method, path, with_header(h, t), b.skip(len), eof)
            } else {
                Progress::Wait
            }
        },
    }
}

/// How far the request at the start of the bytes `b` has come; `eof` says that no more follow.
pub open spec fn progress(b: Seq<u8>, eof: bool) -> Progress {
    match next_line(b, eof) {
        Line::Wait => Progress::Wait,
        Line::TooLong => Progress::Failed(ReadError::LineTooLong),
        Line::Read { text, len } => {
            let ws = text::words(text);
            if ws.len() == 0 {
                Progress::Nothing
            } else {
                let target = if ws.len() > 1 {
                    ws[1]
                } else {
                    "/"@
                };
                head_progress(ws[0], path_of(target), Map::empty(), b.skip(len), eof)
            }
        },
    }
}

pub proof fn lemma_feed_position(b: Seq<u8>)
    ensures
        0 <= feed_position(b) <= b.len(),
        feed_position(b) < b.len() ==> b[feed_position(b)] == 0x0a,
        forall|j: int| 0 <= j < feed_position(b) ==> b[j] != 0x0a,
    decreases b.len(),
{
    if b.len() > 0 && b[0] != 0x0a {
        lemma_feed_position(b.skip(1));
        assert forall|j: int| 0 <= j < feed_position(b) implies b[j] != 0x0a by {
            if j > 0 {
                assert(b[j] == b.skip(1)[j - 1]);
            }
        }
    }
}

/// A line that has not ended yet: what follows it decides how it goes on.
proof fn lemma_open_line(line: Seq<u8>, more: Seq<u8>)
    requires
        forall|j: int| 0 <= j < line.len() ==> line[j] != 0x0a,
    ensures
        feed_position(line + more) >= line.len(),
        feed_position(line) == line.len(),
{
    lemma_feed_position(line + more);
    lemma_feed_position(line);
    let p = feed_position(line + more);
    if p < line.len() {
        assert((line + more)[p] == line[p]);
    }
}

/// A line that ends is the next line, whatever follows.
pub proof fn lemma_closed_line(line: Seq<u8>, more: Seq<u8>, eof: bool)
    requires
        line.len() <= MAX_HEADER_LINE,
        forall|j: int| 0 <= j < line.len() ==> line[j] != 0x0a,
    ensures
        next_line(line.push(0x0a) + more, eof) == (Line::Read {
            text: latin(line.push(0x0a)),
            len: line.len() as int + 1,
        }),
        (line.push(0x0a) + more).skip(line.len() as int + 1) == more,
{
    let b = line.push(0x0a) + more;
    lemma_feed_position(b);
    let p = feed_position(b);
    if p < line.len() {
        assert(b[p] == line[p]);
    }
    assert(b[line.len() as int] == 0x0a);
    assert(p == line.len());
    assert(b.take(p + 1) == line.push(0x0a));
    assert(b.skip(line.len() as int + 1) == more);
}

/// The line characters of bytes.
fn latin_chars(b: &[u8]) -> (r: Vec<char>)
    ensures
        r@ == latin(b@),
{
    let mut out: Vec<char> = Vec::new();
    let mut i: usize = 0;
    while i < b.len()
        invariant
            i <= b.len(),
            out@ == latin(b@).take(i as int),
        decreases b.len() - i,
    {
        out.push(b[i] as char);
        i += 1;
        assert(out@ == latin(b@).take(i as int));
    }
    assert(latin(b@).take(i as int) == latin(b@));
    out
}

/// The method and the path that the first line gives; nothing if it is blank.
pub open spec fn first_line(text: Seq<char>) -> Option<(Seq<char>, Seq<char>)> {
    let ws = text::words(text);
    if ws.len() == 0 {
        None
    } else if ws.len() > 1 {
        Some((ws[0], path_of(ws[1])))
    } else {
        Some((ws[0], path_of("/"@)))
    }
}

fn parse_first_line(line: &[u8]) -> (r: Option<(String, String)>)
    ensures
        match r {
            Some((m, p)) => first_line(latin(line@)) == Some((m@, p@)),
            None => first_line(latin(line@)) is None,
        },
{
    let cs = latin_chars(line);
    let ws = text::split_words(cs.as_slice());
    let ghost all = text::slices(ws@);
    if ws.len() == 0 {
        return None;
    }
    assert(all[0] == ws@[0]@);
    let method = text::string_of(ws[0]);
    let slash = text::chars_of("/");
    let target = if ws.len() > 1 {
        assert(all[1] == ws@[1]@);
        ws[1]
    } else {
        slash.as_slice()
    };
    let path = match text::split_once(target, '?') {
        Some((p, _)) => text::string_of(p),
        None => text::string_of(target),
    };
    Some((method, path))
}

/// Take one header line; the result says that the line is blank and the head ends.
fn take_header(headers: &mut Table, line: &[u8]) -> (blank: bool)
    ensures
        blank == (text::trimmed_end(latin(line@)).len() == 0),
        final(headers)@ == (if blank {
            old(headers)@
        } else {
            with_header(old(headers)@, text::trimmed_end(latin(line@)))
        }),
{
    let cs = latin_chars(line);
    let t = text::trim_end(cs.as_slice());
    if t.len() == 0 {
        return true;
    }
    if let Some((k, v)) = text::split_once(t, ':') {
        let name = text::to_lower(text::trim(k));
        headers.insert(text::string_of(name.as_slice()), text::string_of(text::trim(v)));
    }
    false
}

fn announced_length(headers: &Table) -> (r: usize)
    ensures
        r == body_length(headers@),
{
    match headers.get("content-length") {
        Some(v) => {
            let cs = text::chars_of(v);
            match numbers::parse_unsigned(cs.as_slice(), 10, usize::MAX as u64) {
                Some(n) => n as usize,
                None => 0,
            }
        },
        None => 0,
    }
}

/// Where the reader stands.
#[derive(Debug)]
enum Stage {
    /// In the first line.
    First,
    /// In the headers.
    Headers { method: String, path: String, headers: Table },
    /// In the body, which is `need` bytes long.
    Body { method: String, path: String, headers: Table, need: usize },
    Over(Received),
}

/// Reads one request, byte by byte.
pub struct RequestReader {
    stage: Stage,
    /// What has come of the line or of the body.
    part: Vec<u8>,
    /// All the bytes that have come.
    fed: Ghost<Seq<u8>>,
}

impl View for RequestReader {
    type V = Seq<u8>;

    closed spec fn view(&self) -> Seq<u8> {
        self.fed@
    }
}

/// What becomes of the request in this stage if `b` is what comes of the line or the body.
spec fn stage_outlook(stage: Stage, b: Seq<u8>, eof: bool) -> Progress {
    match stage {
        Stage::First => progress(b, eof),
        Stage::Headers { method, path, headers } => head_progress(
            method@,
            path@,
            headers@,
            b,
            eof,
        ),
        Stage::Body { method, path, headers, need } => body_progress(
            method@,
            path@,
            headers@,
            b,
            eof,
        ),
        Stage::Over(r) => r@,
    }
}

/// The stage fits the part that is kept.
spec fn stage_fits(stage: Stage, part: Seq<u8>) -> bool {
    match stage {
        Stage::First | Stage::Headers { .. } => {
            &&& part.len() <= MAX_HEADER_LINE
            &&& forall|j: int| 0 <= j < part.len() ==> part[j] != 0x0a
        },
        Stage::Body { headers, need, .. } => {
            &&& need == body_length(headers@)
            &&& part.len() < need <= MAX_BODY
        },
        Stage::Over(r) => !(r@ is Wait),
    }
}

/// The stage that follows the head.
fn body_stage(method: String, path: String, headers: Table) -> (r: Stage)
    ensures
        r is Over || r is Body,
        stage_fits(r, seq![]),
        forall|b: Seq<u8>, eof: bool| #[trigger]
            stage_outlook(r, b, eof) == body_progress(method@, path@, headers@, b, eof),
{
    let need: usize = announced_length(&headers);
    if need > MAX_BODY {
        Stage::Over(Received::Failed(ReadError::BodyTooLarge))
    } else if need == 0 {
        let none: Vec<u8> = Vec::new();
        let body = text::from_utf8_lossy(none.as_slice());
        assert forall|b: Seq<u8>| #[trigger] b.take(0) == Seq::<u8>::empty() by {}
        Stage::Over(Received::Got(Request { method, path, headers, body }))
    } else {
        Stage::Body { method, path, headers, need }
    }
}

impl RequestReader {
    /// The reader knows what matters of the bytes that have come: for any that may follow, it
    /// will tell what they amount to together.
    pub closed spec fn well_formed(self) -> bool {
        &&& stage_fits(self.stage, self.part@)
        &&& forall|more: Seq<u8>, eof: bool|
            #![trigger progress(self.fed@ + more, eof)]
            stage_outlook(self.stage, self.part@ + more, eof) == progress(self.fed@ + more, eof)
    }

    pub fn new() -> (r: RequestReader)
        ensures
            r.well_formed(),
            r@ == Seq::<u8>::empty(),
    {
        RequestReader { stage: Stage::First, part: Vec::new(), fed: Ghost(Seq::empty()) }
    }

    /// Whether the request is settled, so that no more bytes are needed.
    pub fn is_over(&self) -> (r: bool)
        requires
            self.well_formed(),
        ensures
            r == !(progress(self@, false) is Wait),
            r ==> forall|more: Seq<u8>, eof: bool| #[trigger]
                progress(self@ + more, eof) == progress(self@, false),
    {
        let ghost none = Seq::<u8>::empty();
        assert(self.fed@ + none == self.fed@);
        assert(self.part@ + none == self.part@);
        assert(progress(self.fed@ + none, false) == progress(self.fed@, false));
        match &self.stage {
            Stage::Over(_) => true,
            Stage::Body { .. } => false,
            _ => {
                proof {
                    lemma_open_line(self.part@, none);
                }
                false
            },
        }
    }

    /// Take the next byte.
    pub fn feed(self, byte: u8) -> (r: RequestReader)
        requires
            self.well_formed(),
        ensures
            r.well_formed(),
            r@ == self@.push(byte),
    {
        let ghost was = self;
        let RequestReader { stage, part, fed } = self;
        let ghost old_part = part@;
        let fed: Ghost<Seq<u8>> = Ghost(was.fed@.push(byte));
        let mut part = part;
        part.push(byte);
        proof {
            // What comes after the byte comes after the bytes before it, with the byte in front.
            assert forall|more: Seq<u8>, eof: bool| #[trigger]
                progress(fed@ + more, eof) == stage_outlook(stage, part@ + more, eof) by {
                let with = seq![byte] + more;
                assert(was.fed@ + with == fed@ + more);
                assert(old_part + with == part@ + more);
                assert(progress(was.fed@ + with, eof) == stage_outlook(
                    was.stage,
                    old_part + with,
                    eof,
                ));
            }
        }
        match stage {
            Stage::Over(x) => RequestReader { stage: Stage::Over(x), part, fed },
            Stage::Body { method, path, headers, need } => {
                if part.len() < need {
                    return RequestReader {
                        stage: Stage::Body { method, path, headers, need },
                        part,
                        fed,
                    };
                }
                let body = text::from_utf8_lossy(part.as_slice());
                assert forall|more: Seq<u8>| #[trigger]
                    (part@ + more).take(need as int) == part@ by {}
                RequestReader {
                    stage: Stage::Over(Received::Got(Request { method, path, headers, body })),
                    part: Vec::new(),
                    fed,
                }
            },
            Stage::First => {
                if byte == 0x0a {
                    proof {
                        assert forall|more: Seq<u8>, eof: bool| #[trigger]
                            progress(fed@ + more, eof) == (match first_line(latin(part@)) {
                                Some((m, p)) => head_progress(m, p, Map::empty(), more, eof),
                                None => Progress::Nothing,
                            }) by {
                            lemma_closed_line(old_part, more, eof);
                        }
                    }
                    match parse_first_line(part.as_slice()) {
                        Some((method, path)) => {
                            let r = RequestReader {
                                stage: Stage::Headers { method, path, headers: Table::new() },
                                part: Vec::new(),
                                fed,
                            };
                            assert forall|more: Seq<u8>| #[trigger] (r.part@ + more) == more by {}
                            r
                        },
                        None => RequestReader {
                            stage: Stage::Over(Received::Nothing),
                            part: Vec::new(),
                            fed,
                        },
                    }
                } else if part.len() > MAX_HEADER_LINE {
                    proof {
                        assert forall|more: Seq<u8>, eof: bool| #[trigger]
                            progress(fed@ + more, eof) == Progress::Failed(
                                ReadError::LineTooLong,
                            ) by {
                            lemma_open_line(part@, more);
                        }
                    }
                    RequestReader {
                        stage: Stage::Over(Received::Failed(ReadError::LineTooLong)),
                        part: Vec::new(),
                        fed,
                    }
                } else {
                    RequestReader { stage: Stage::First, part, fed }
                }
            },
            Stage::Headers { method, path, headers } => {
                if byte == 0x0a {
                    let ghost h = headers@;
                    let ghost t = text::trimmed_end(latin(part@));
                    proof {
                        assert forall|more: Seq<u8>, eof: bool| #[trigger]
                            progress(fed@ + more, eof) == (if t.len() == 0 {
                                body_progress(method@, path@, h, more, eof)
                            } else {
                                head_progress(method@, path@, with_header(h, t), more, eof)
                            }) by {
                            lemma_closed_line(old_part, more, eof);
                        }
                    }
                    let mut headers = headers;
                    let none: Vec<u8> = Vec::new();
                    assert forall|more: Seq<u8>| #[trigger] (none@ + more) == more by {}
                    if take_header(&mut headers, part.as_slice()) {
                        RequestReader { stage: body_stage(method, path, headers), part: none, fed }
                    } else {
                        RequestReader {
                            stage: Stage::Headers { method, path, headers },
                            part: none,
                            fed,
                        }
                    }
                } else if part.len() > MAX_HEADER_LINE {
                    proof {
                        assert forall|more: Seq<u8>, eof: bool| #[trigger]
                            progress(fed@ + more, eof) == Progress::Failed(
                                ReadError::LineTooLong,
                            ) by {
                            lemma_open_line(part@, more);
                        }
                    }
                    RequestReader {
                        stage: Stage::Over(Received::Failed(ReadError::LineTooLong)),
                        part: Vec::new(),
                        fed,
                    }
                } else {
                    RequestReader { stage: Stage::Headers { method, path, headers }, part, fed }
                }
            },
        }
    }

    /// The end of the stream: what the client has sent.
    pub fn finish(self) -> (r: Received)
        requires
            self.well_formed(),
        ensures
            r@ == progress(self@, true),
    {
        let ghost none = Seq::<u8>::empty();
        assert(self.fed@ + none == self.fed@);
        assert(self.part@ + none == self.part@);
        assert(progress(self.fed@ + none, true) == stage_outlook(self.stage, self.part@, true));
        let RequestReader { stage, part, fed } = self;
        match stage {
            Stage::Over(r) => r,
            Stage::Body { .. } => Received::Failed(ReadError::Truncated),
            Stage::First => {
                proof {
                    lemma_open_line(part@, none);
                    assert(part@.skip(part@.len() as int) == none);
                }
                match parse_first_line(part.as_slice()) {
                    Some((method, path)) => end_of_head(method, path, Table::new()),
                    None => Received::Nothing,
                }
            },
            Stage::Headers { method, path, headers } => {
                proof {
                    lemma_open_line(part@, none);
                    assert(part@.skip(part@.len() as int) == none);
                    reveal_with_fuel(head_progress, 2);
                }
                let mut headers = headers;
                let _blank = take_header(&mut headers, part.as_slice());
                end_of_head(method, path, headers)
            },
        }
    }
}

/// The stream ends with the head.
fn end_of_head(method: String, path: String, headers: Table) -> (r: Received)
    ensures
        r@ == body_progress(method@, path@, headers@, seq![], true),
        r@ == head_progress(method@, path@, headers@, seq![], true),
{
    assert(latin(Seq::<u8>::empty()) == Seq::<char>::empty());
    assert(Seq::<u8>::empty().skip(0) == Seq::<u8>::empty());
    let ghost view = (method@, path@, headers@);
    assert(head_progress(view.0, view.1, view.2, seq![], true) == body_progress(
        view.0,
        view.1,
        view.2,
        seq![],
        true,
    ));
    match body_stage(method, path, headers) {
        Stage::Over(r) => {
            assert(stage_outlook(Stage::Over(r), seq![], true) == r@);
            r
        },
        other => {
            assert(stage_outlook(other, seq![], true) == body_progress(
                view.0,
                view.1,
                view.2,
                seq![],
                true,
            ));
            Received::Failed(ReadError::Truncated)
        },
    }
}

// ---------------------------------------------------------------------------
// Responses
// ---------------------------------------------------------------------------
#[derive(Debug)]
pub struct Response {
    pub status: u16,
    pub content_type: String,
    pub body: Vec<u8>,
    pub extra_headers: Vec<(String, String)>,
}

/// A response as a mathematical value.
pub struct ResponseView {
    pub status: int,
    pub content_type: Seq<char>,
    pub body: Seq<u8>,
    pub extra_headers: Seq<(Seq<char>, Seq<char>)>,
}

impl View for Response {
    type V = ResponseView;

    open spec fn view(&self) -> ResponseView {
        ResponseView {
            status: self.status as int,
            content_type: self.content_type@,
            body: self.body@,
            extra_headers: self.extra_headers.deep_view(),
        }
    }
}

/// A response with a text for its body and no headers of its own.
pub open spec fn text_response(
    status: int,
    content_type: Seq<char>,
    body: Seq<char>,
) -> ResponseView {
    ResponseView { status, content_type, body: encode_utf8(body), extra_headers: seq![] }
}

/// A response with a JSON text.
pub open spec fn json_response(status: int, body: Seq<char>) -> ResponseView {
    text_response(status, "application/json; charset=utf-8"@, body)
}

/// The answer to a request without valid credentials: it asks for them.
pub open spec fn unauthorized_response() -> ResponseView {
    ResponseView {
        status: 401,
        content_type: "text/plain; charset=utf-8"@,
        body: encode_utf8("authentication required"@),
        extra_headers: seq![("WWW-Authenticate"@, "Basic realm=\"modemui\""@)],
    }
}

fn with_body(status: u16, content_type: &str, body: &str) -> (r: Response)
    ensures
        r@ == text_response(status as int, content_type@, body@),
{
    let r = Response {
        status,
        content_type: content_type.to_owned(),
        body: slice_to_vec(body.as_bytes()),
        extra_headers: Vec::new(),
    };
    assert(r@.extra_headers == Seq::<(Seq<char>, Seq<char>)>::empty());
    r
}

impl Response {
    pub fn json(status: u16, body: String) -> (r: Response)
        ensures
            r@ == json_response(status as int, body@),
    {
        with_body(status, "application/json; charset=utf-8", body.as_str())
    }

    pub fn html(body: &str) -> (r: Response)
        ensures
            r@ == text_response(200, "text/html; charset=utf-8"@, body@),
    {
        with_body(200, "text/html; charset=utf-8", body)
    }

    pub fn asset(content_type: &str, body: &str) -> (r: Response)
        ensures
            r@ == text_response(200, content_type@, body@),
    {
        with_body(200, content_type, body)
    }

    pub fn text(status: u16, body: &str) -> (r: Response)
        ensures
            r@ == text_response(status as int, "text/plain; charset=utf-8"@, body@),
    {
        with_body(status, "text/plain; charset=utf-8", body)
    }

    pub fn unauthorized() -> (r: Response)
        ensures
            r@ == unauthorized_response(),
    {
        let mut r = with_body(401, "text/plain; charset=utf-8", "authentication required");
        let name = "WWW-Authenticate".to_owned();
        let challenge = "Basic realm=\"modemui\"".to_owned();
        r.extra_headers.push((name, challenge));
        assert(r@.extra_headers == unauthorized_response().extra_headers);
        r
    }
}

/// The reason phrase of a status.
pub open spec fn reason(code: int) -> Seq<char> {
    if code == 200 {
        "OK"@
    } else if code == 400 {
        "Bad Request"@
    } else if code == 401 {
        "Unauthorized"@
    } else if code == 404 {
        "Not Found"@
    } else if code == 405 {
        "Method Not Allowed"@
    } else if code == 413 {
        "Payload Too Large"@
    } else if code == 500 {
        "Internal Server Error"@
    } else if code == 503 {
        "Service Unavailable"@
    } else {
        "Unknown"@
    }
}

pub fn status_text(code: u16) -> (r: &'static str)
    ensures
        r@ == reason(code as int),
{
    match code {
        200 => "OK",
        400 => "Bad Request",
        401 => "Unauthorized",
        404 => "Not Found",
        405 => "Method Not Allowed",
        413 => "Payload Too Large",
        500 => "Internal Server Error",
        503 => "Service Unavailable",
        _ => "Unknown",
    }
}

/// The lines of additional headers.
pub open spec fn header_lines(hs: Seq<(Seq<char>, Seq<char>)>) -> Seq<char>
    decreases hs.len(),
{
    if hs.len() == 0 {
        seq![]
    } else {
        header_lines(hs.drop_last()) + hs.last().0 + ": "@ + hs.last().1 + "\r\n"@
    }
}

/// The head of a response, up to and including the blank line before the body.
pub open spec fn head_text(r: ResponseView) -> Seq<char> {
    "HTTP/1.1 "@ + numbers::decimal(r.status as nat) + " "@ + reason(r.status)
        + "\r\nContent-Type: "@ + r.content_type + "\r\nContent-Length: "@ + numbers::decimal(
        r.body.len(),
    )
        + "\r\nConnection: close\r\nX-Content-Type-Options: nosniff\r\nCache-Control: no-store\r\n"@
        + header_lines(r.extra_headers) + "\r\n"@
}

/// The bytes to send before the body of a response.
pub fn response_head(resp: &Response) -> (r: String)
    ensures
        r@ == head_text(resp@),
{
    let mut out = text::chars_of("HTTP/1.1 ");
    numbers::add_decimal(&mut out, resp.status as u64);
    text::add_str(&mut out, " ");
    text::add_str(&mut out, status_text(resp.status));
    text::add_str(&mut out, "\r\nContent-Type: ");
    text::add_str(&mut out, resp.content_type.as_str());
    text::add_str(&mut out, "\r\nContent-Length: ");
    numbers::add_decimal(&mut out, resp.body.len() as u64);
    text::add_str(
        &mut out,
        "\r\nConnection: close\r\nX-Content-Type-Options: nosniff\r\nCache-Control: no-store\r\n",
    );
    let ghost start = out@;
    let ghost all = resp.extra_headers.deep_view();
    let mut i: usize = 0;
    assert(start + header_lines(all.take(0)) == start);
    while i < resp.extra_headers.len()
        invariant
            all == resp.extra_headers.deep_view(),
            i <= resp.extra_headers.len(),
            out@ == start + header_lines(all.take(i as int)),
        decreases resp.extra_headers.len() - i,
    {
        let ghost next = all.take(i + 1);
        assert(next.drop_last() == all.take(i as int));
        assert(next.last() == (resp.extra_headers@[i as int].0@, resp.extra_headers@[i as int].1@));
        text::add_str(&mut out, resp.extra_headers[i].0.as_str());
        text::add_str(&mut out, ": ");
        text::add_str(&mut out, resp.extra_headers[i].1.as_str());
        text::add_str(&mut out, "\r\n");
        assert(out@ == start + header_lines(next));
        i += 1;
    }
    assert(all.take(i as int) == all);
    text::add_str(&mut out, "\r\n");
    text::string_of(out.as_slice())
}

/// Whether one more connection is served while `live` are.
pub fn admits(live: usize) -> (r: bool)
    ensures
        r == (live < MAX_CONNECTIONS),
        r == (live < 16),
{
    live < MAX_CONNECTIONS
}

// ---------------------------------------------------------------------------
// Basic authentication
// ---------------------------------------------------------------------------
/// The user and the password that the headers of a request carry.
pub open spec fn credentials(h: Map<Seq<char>, Seq<char>>) -> Option<(Seq<char>, Seq<char>)> {
    if !h.contains_key("authorization"@) {
        None
    } else {
        let value = h["authorization"@];
        let rest = match text::after_prefix(value, "Basic "@) {
            Some(r) => Some(r),
            None => text::after_prefix(value, "basic "@),
        };
        match rest {
            None => None,
            Some(r) => match base64::decoded(encode_utf8(text::trimmed(r))) {
                None => None,
                Some(bytes) => text::halves(text::lossy_text(bytes), ':'),
            },
        }
    }
}

/// Whether a request may pass: always if no password is set, else with exactly the credentials
/// that are set.
pub open spec fn authorized(
    h: Map<Seq<char>, Seq<char>>,
    auth: Option<(Seq<char>, Seq<char>)>,
) -> bool {
    auth is None || credentials(h) == auth
}

/// Equality that takes as long for a near miss as for a far one.
pub fn constant_time_eq(a: &[u8], b: &[u8]) -> (r: bool)
    ensures
        r == (a@ == b@),
{
    if a.len() != b.len() {
        return false;
    }
    let mut diff: u8 = 0;
    let mut i: usize = 0;
    while i < a.len()
        invariant
            a.len() == b.len(),
            i <= a.len(),
            diff == 0 <==> (forall|j: int| 0 <= j < i ==> a@[j] == b@[j]),
        decreases a.len() - i,
    {
        let x: u8 = a[i];
        let y: u8 = b[i];
        let before: u8 = diff;
        diff = diff | (x ^ y);
        assert(diff == 0 <==> (before == 0 && x == y)) by (bit_vector)
            requires
                diff == before | (x ^ y),
        ;
        assert(diff == 0 <==> (forall|j: int| 0 <= j < i + 1 ==> a@[j] == b@[j])) by {
            if before == 0 && x == y {
                assert forall|j: int| 0 <= j < i + 1 implies a@[j] == b@[j] by {}
            }
        }
        i += 1;
    }
    assert(diff == 0 ==> a@ == b@);
    diff == 0
}

/// Texts with one encoding are one text.
proof fn lemma_encoding_is_unique(a: Seq<char>, b: Seq<char>)
    ensures
        (encode_utf8(a) == encode_utf8(b)) == (a == b),
{
    encode_utf8_decode_utf8(a);
    encode_utf8_decode_utf8(b);
}

fn same_text(a: &str, b: &str) -> (r: bool)
    ensures
        r == (a@ == b@),
{
    proof {
        lemma_encoding_is_unique(a@, b@);
    }
    constant_time_eq(a.as_bytes(), b.as_bytes())
}

/// The user and the password that are set.
pub open spec fn auth_view(auth: Option<(String, String)>) -> Option<(Seq<char>, Seq<char>)> {
    match auth {
        Some((u, p)) => Some((u@, p@)),
        None => None,
    }
}

/// Check the credentials of a request. Both parts are compared in any case, and in constant
/// time, so that the time taken tells nothing of them.
pub fn check_auth(req: &Request, auth: &Option<(String, String)>) -> (r: bool)
    ensures
        r == authorized(req@.headers, auth_view(*auth)),
{
    let (user, pass) = match auth {
        None => return true,
        Some(p) => (&p.0, &p.1),
    };
    let header = match req.headers.get("authorization") {
        Some(h) => text::chars_of(h),
        None => return false,
    };
    let rest = match text::strip_prefix(header.as_slice(), "Basic ") {
        Some(e) => e,
        None => match text::strip_prefix(header.as_slice(), "basic ") {
            Some(e) => e,
            None => return false,
        },
    };
    let encoded = text::string_of(text::trim(rest));
    let bytes = match base64::base64_decode(encoded.as_str()) {
        Some(d) => d,
        None => return false,
    };
    let plain = text::from_utf8_lossy(bytes.as_slice());
    let cs = text::chars_of(plain.as_str());
    match text::split_once(cs.as_slice(), ':') {
        Some((u, p)) => {
            let u = text::string_of(u);
            let p = text::string_of(p);
            let user_fits = same_text(u.as_str(), user.as_str());
            let pass_fits = same_text(p.as_str(), pass.as_str());
            user_fits && pass_fits
        },
        None => false,
    }
}

/// The answer to a request that may not pass; nothing for one that may.
pub fn gate(req: &Request, auth: &Option<(String, String)>) -> (r: Option<Response>)
    ensures
        match r {
            Some(resp) => !authorized(req@.headers, auth_view(*auth)) && resp@
                == unauthorized_response(),
            None => authorized(req@.headers, auth_view(*auth)),
        },
{
    if check_auth(req, auth) {
        None
    } else {
        Some(Response::unauthorized())
    }
}

// ---------------------------------------------------------------------------
// Laws
// ---------------------------------------------------------------------------
/// Routing does not depend on the query: a target with a query and the same target without have
/// one path, and no path holds a question mark.
pub proof fn theorem_path_without_query(target: Seq<char>, query: Seq<char>)
    requires
        !target.contains('?'),
    ensures
        path_of(target) == target,
        path_of(target.push('?') + query) == target,
        !path_of(target.push('?') + query).contains('?'),
{
    let full = target.push('?') + query;
    assert forall|j: int| 0 <= j < target.len() implies target[j] != '?' by {}
    assert forall|j: int| 0 <= j < target.len() implies full[j] != '?' by {
        assert(full[j] == target[j]);
    }
    assert(full[target.len() as int] == '?');
    text::lemma_position_is(target, '?', target.len() as int);
    text::lemma_position_is(full, '?', target.len() as int);
    assert(full.take(target.len() as int) == target);
}

/// The value of the header that carries a user and a password.
pub open spec fn basic_value(user: Seq<char>, pass: Seq<char>) -> Seq<char> {
    "Basic "@ + base64::encoded(encode_utf8(user + seq![':'] + pass))
}

/// A client that sends a user and a password by the rules is let in exactly if they are the ones
/// that are set. A user name with a colon cannot be sent this way.
pub proof fn theorem_basic_authentication(
    h: Map<Seq<char>, Seq<char>>,
    user: Seq<char>,
    pass: Seq<char>,
    set: (Seq<char>, Seq<char>),
)
    requires
        h.contains_key("authorization"@),
        h["authorization"@] == basic_value(user, pass),
        !user.contains(':'),
    ensures
        credentials(h) == Some((user, pass)),
        authorized(h, Some(set)) == (set == (user, pass)),
{
    let plain = user + seq![':'] + pass;
    let bytes = encode_utf8(plain);
    let value = basic_value(user, pass);
    let rest = base64::encoded(bytes);
    assert(value.skip("Basic "@.len() as int) == rest);
    assert("Basic "@.is_prefix_of(value));
    base64::lemma_encoded_plain(bytes);
    text::lemma_trimmed_of_plain(rest);
    base64::theorem_decode_of_encode(bytes);
    encode_utf8_valid_utf8(plain);
    encode_utf8_decode_utf8(plain);
    assert(text::lossy_text(bytes) == plain);
    assert forall|j: int| 0 <= j < user.len() implies plain[j] != ':' by {
        assert(plain[j] == user[j]);
    }
    assert(plain[user.len() as int] == ':');
    text::lemma_position_is(plain, ':', user.len() as int);
    assert(plain.take(user.len() as int) == user);
    assert(plain.skip(user.len() as int + 1) == pass);
}

/// Without a password set everybody is let in.
pub proof fn theorem_no_authentication(h: Map<Seq<char>, Seq<char>>)
    ensures
        authorized(h, None),
{
}

} // verus!
