//! Laws of reading requests and of letting clients in.

use crate::base64;
use crate::http;
use crate::http::{Line, Progress, ReadError, RequestView, ResponseView};
use crate::numbers;
use crate::text;
use crate::text_laws;
use vstd::prelude::*;
use vstd::utf8::*;

verus! {

/// The headers of a request, by name in lower case.
pub type Headers = Map<Seq<char>, Seq<char>>;

/// Characters as bytes, one for one.
pub open spec fn wire(s: Seq<char>) -> Seq<u8> {
    Seq::new(s.len(), |i: int| s[i] as u8)
}

/// Characters that are one byte each and stay within a line.
pub open spec fn is_line_text(s: Seq<char>) -> bool {
    forall|i: int| 0 <= i < s.len() ==> (#[trigger] s[i]) <= '\u{ff}' && s[i] != '\n'
}

/// A word of a line.
pub open spec fn is_word(s: Seq<char>) -> bool {
    s.len() > 0 && is_line_text(s) && forall|i: int|
        0 <= i < s.len() ==> !text::is_white_space(#[trigger] s[i])
}

/// The first line of a request, without its line feed.
pub open spec fn request_line(method: Seq<char>, target: Seq<char>) -> Seq<char> {
    method + seq![' '] + target + " HTTP/1.1\r"@
}

/// A header line, without its line feed.
pub open spec fn header_line(name: Seq<char>, value: Seq<char>) -> Seq<char> {
    name + seq![':', ' '] + value + seq!['\r']
}

/// A header that a client may send: its name is a word without a colon, and its value has no
/// white space around it.
pub open spec fn is_header(name: Seq<char>, value: Seq<char>) -> bool {
    &&& is_word(name)
    &&& !name.contains(':')
    &&& is_line_text(value)
    &&& value.len() > 0 ==> !text::is_white_space(value[0]) && !text::is_white_space(value.last())
    &&& header_line(name, value).len() <= http::MAX_HEADER_LINE
}

/// The head of a request from its headers on, down to the blank line.
pub open spec fn head_wire(hs: Seq<(Seq<char>, Seq<char>)>) -> Seq<u8>
    decreases hs.len(),
{
    if hs.len() == 0 {
        seq![0x0du8, 0x0au8]
    } else {
        wire(header_line(hs[0].0, hs[0].1)).push(0x0a) + head_wire(hs.skip(1))
    }
}

/// A request as a client sends it.
pub open spec fn request_wire(
    method: Seq<char>,
    target: Seq<char>,
    hs: Seq<(Seq<char>, Seq<char>)>,
    body: Seq<u8>,
) -> Seq<u8> {
    wire(request_line(method, target)).push(0x0a) + (head_wire(hs) + body)
}

/// The headers that are read, after those in `h`: of several with one name the last one counts.
pub open spec fn headers_after(h: Headers, hs: Seq<(Seq<char>, Seq<char>)>) -> Headers
    decreases hs.len(),
{
    if hs.len() == 0 {
        h
    } else {
        headers_after(h.insert(text::lowercase(hs[0].0), hs[0].1), hs.skip(1))
    }
}

proof fn lemma_narrow(c: char)
    requires
        c <= '\u{ff}',
    ensures
        (c as u8) as char == c,
        (c as u8 == 0x0a) == (c == '\n'),
{
}

proof fn lemma_wire(s: Seq<char>)
    requires
        is_line_text(s),
    ensures
        http::latin(wire(s).push(0x0a)) == s.push('\n'),
        forall|i: int| 0 <= i < wire(s).len() ==> #[trigger] wire(s)[i] != 0x0a,
{
    let b = wire(s).push(0x0a);
    assert forall|i: int| 0 <= i < s.len() implies http::latin(b)[i] == s[i] && wire(s)[i]
        != 0x0a by {
        let c = s[i];
        assert(c <= '\u{ff}' && c != '\n');
        assert(b[i] == c as u8);
        lemma_narrow(c);
        assert(http::latin(b)[i] == c);
        assert(wire(s)[i] == c as u8);
    }
    assert(http::latin(b) =~= s.push('\n'));
}

proof fn lemma_header_line(h: Headers, name: Seq<char>, value: Seq<char>)
    requires
        is_header(name, value),
    ensures
        is_line_text(header_line(name, value)),
        ({
            let t = text::trimmed_end(header_line(name, value).push('\n'));
            &&& t.len() > 0
            &&& http::with_header(h, t) == h.insert(text::lowercase(name), value)
        }),
{
    let line = header_line(name, value);
    let n = name.len() as int;
    assert forall|i: int| 0 <= i < line.len() implies (#[trigger] line[i]) <= '\u{ff}'
        && line[i] != '\n' by {
        if i < n {
            assert(line[i] == name[i]);
        } else if n + 2 <= i < n + 2 + value.len() {
            assert(line[i] == value[i - n - 2]);
        }
    }
    let full = line.push('\n');
    let kept = if value.len() == 0 {
        name + seq![':']
    } else {
        name + seq![':', ' '] + value
    };
    let core = name + seq![':', ' '] + value;
    assert(full.drop_last() == line);
    assert(line.drop_last() == core);
    reveal_with_fuel(text::trimmed_end, 4);
    if value.len() == 0 {
        assert(core.drop_last() == kept);
        assert(text::trimmed_end(full) == kept);
    } else {
        assert(core.last() == value.last());
        assert(text::trimmed_end(full) == kept);
    }
    let rest = if value.len() == 0 {
        seq![]
    } else {
        seq![' '] + value
    };
    assert(kept == name + seq![':'] + rest);
    text::lemma_piece(name, ':', rest);
    assert(!text::is_white_space(name[0]) && !text::is_white_space(name[name.len() - 1]));
    text::lemma_trimmed_of_plain(name);
    assert(text::trimmed(rest) == value) by {
        if value.len() == 0 {
            text::lemma_trimmed_of_plain(rest);
        } else {
            assert(rest.skip(1) == value);
            text::lemma_trimmed_of_plain(value);
            reveal_with_fuel(text::trimmed_start, 2);
        }
    }
}

proof fn lemma_head(
    method: Seq<char>,
    path: Seq<char>,
    h: Headers,
    hs: Seq<(Seq<char>, Seq<char>)>,
    body: Seq<u8>,
    eof: bool,
)
    requires
        forall|i: int| 0 <= i < hs.len() ==> is_header((#[trigger] hs[i]).0, hs[i].1),
    ensures
        http::head_progress(method, path, h, head_wire(hs) + body, eof) == http::body_progress(
            method,
            path,
            headers_after(h, hs),
            body,
            eof,
        ),
    decreases hs.len(),
{
    let b = head_wire(hs) + body;
    if hs.len() == 0 {
        let line = seq![0x0du8];
        assert(b == line.push(0x0a) + body);
        http::lemma_closed_line(line, body, eof);
        let t = http::latin(line.push(0x0a));
        assert(t =~= seq!['\r', '\n']);
        assert(t.drop_last() == seq!['\r']);
        assert(t.drop_last().drop_last() == Seq::<char>::empty());
        reveal_with_fuel(text::trimmed_end, 3);
        assert(text::trimmed_end(t).len() == 0);
    } else {
        let name = hs[0].0;
        let value = hs[0].1;
        let line = header_line(name, value);
        let rest = head_wire(hs.skip(1)) + body;
        assert(is_header(name, value));
        lemma_header_line(h, name, value);
        lemma_wire(line);
        assert(b == wire(line).push(0x0a) + rest);
        http::lemma_closed_line(wire(line), rest, eof);
        assert forall|i: int| 0 <= i < hs.skip(1).len() implies is_header(
            (#[trigger] hs.skip(1)[i]).0,
            hs.skip(1)[i].1,
        ) by {
            assert(hs.skip(1)[i] == hs[i + 1]);
        }
        lemma_head(
            method,
            path,
            h.insert(text::lowercase(name), value),
            hs.skip(1),
            body,
            eof,
        );
    }
}

/// A request is read as the client sent it, whatever follows: its method, its path without the
/// query, its headers, and a body of the length that they announce.
pub proof fn theorem_request_is_read(
    method: Seq<char>,
    target: Seq<char>,
    hs: Seq<(Seq<char>, Seq<char>)>,
    body: Seq<u8>,
    more: Seq<u8>,
    eof: bool,
)
    requires
        is_word(method),
        is_word(target),
        request_line(method, target).len() <= http::MAX_HEADER_LINE,
        forall|i: int| 0 <= i < hs.len() ==> is_header((#[trigger] hs[i]).0, hs[i].1),
        body.len() == http::body_length(headers_after(Map::empty(), hs)),
        body.len() <= http::MAX_BODY,
    ensures
        http::progress(request_wire(method, target, hs, body + more), eof) == Progress::Got(
            RequestView {
                method,
                path: http::path_of(target),
                headers: headers_after(Map::empty(), hs),
                body: text::lossy_text(body),
            },
        ),
{
    lemma_first_line(method, target, head_wire(hs) + (body + more), eof);
    lemma_head(method, http::path_of(target), Map::empty(), hs, body + more, eof);
    assert((body + more).take(body.len() as int) == body);
}

proof fn lemma_first_line(method: Seq<char>, target: Seq<char>, rest: Seq<u8>, eof: bool)
    requires
        is_word(method),
        is_word(target),
        request_line(method, target).len() <= http::MAX_HEADER_LINE,
    ensures
        http::progress(wire(request_line(method, target)).push(0x0a) + rest, eof)
            == http::head_progress(method, http::path_of(target), Map::empty(), rest, eof),
{
    reveal_strlit(" HTTP/1.1\r");
    let line = request_line(method, target);
    let n = method.len() as int;
    let m = target.len() as int;
    assert forall|i: int| 0 <= i < line.len() implies (#[trigger] line[i]) <= '\u{ff}'
        && line[i] != '\n' by {
        if i < n {
            assert(line[i] == method[i]);
        } else if n < i < n + 1 + m {
            assert(line[i] == target[i - n - 1]);
        }
    }
    lemma_wire(line);
    http::lemma_closed_line(wire(line), rest, eof);
    let tail = seq![' '] + seq!['H', 'T', 'T', 'P', '/', '1', '.', '1', '\r', '\n'];
    let full = line.push('\n');
    assert(full == method + (seq![' '] + (target + tail)));
    text::lemma_word(method, seq![' '] + (target + tail));
    text::lemma_blank(' ', target + tail);
    text::lemma_word(target, tail);
    let ws = text::words(full);
    assert(ws == seq![method] + (seq![target] + text::words(tail)));
    assert(ws[0] == method && ws[1] == target);
}

/// A line of the head that is too long is refused, wherever it stands and whatever follows.
pub proof fn theorem_long_line_is_refused(
    method: Seq<char>,
    path: Seq<char>,
    h: Headers,
    b: Seq<u8>,
    eof: bool,
)
    requires
        b.len() > http::MAX_HEADER_LINE,
        forall|i: int| 0 <= i <= http::MAX_HEADER_LINE ==> #[trigger] b[i] != 0x0a,
    ensures
        http::progress(b, eof) == Progress::Failed(ReadError::LineTooLong),
        http::head_progress(method, path, h, b, eof) == Progress::Failed(ReadError::LineTooLong),
{
    http::lemma_feed_position(b);
}

/// A body that is announced as too large is refused before it is read.
pub proof fn theorem_large_body_is_refused(
    method: Seq<char>,
    target: Seq<char>,
    hs: Seq<(Seq<char>, Seq<char>)>,
    more: Seq<u8>,
    eof: bool,
)
    requires
        is_word(method),
        is_word(target),
        request_line(method, target).len() <= http::MAX_HEADER_LINE,
        forall|i: int| 0 <= i < hs.len() ==> is_header((#[trigger] hs[i]).0, hs[i].1),
        http::body_length(headers_after(Map::empty(), hs)) > http::MAX_BODY,
    ensures
        http::progress(request_wire(method, target, hs, more), eof) == Progress::Failed(
            ReadError::BodyTooLarge,
        ),
{
    lemma_first_line(method, target, head_wire(hs) + more, eof);
    lemma_head(method, http::path_of(target), Map::empty(), hs, more, eof);
}

/// A client that sends its credentials with a request is let in exactly if they are the ones
/// that are set.
pub proof fn theorem_client_with_credentials(
    method: Seq<char>,
    target: Seq<char>,
    user: Seq<char>,
    pass: Seq<char>,
    set: (Seq<char>, Seq<char>),
    eof: bool,
)
    requires
        is_word(method),
        is_word(target),
        request_line(method, target).len() <= http::MAX_HEADER_LINE,
        header_line("Authorization"@, http::basic_value(user, pass)).len()
            <= http::MAX_HEADER_LINE,
        !user.contains(':'),
    ensures
        http::progress(
            request_wire(
                method,
                target,
                seq![("Authorization"@, http::basic_value(user, pass))],
                seq![],
            ),
            eof,
        ) matches Progress::Got(r) && http::authorized(r.headers, Some(set)) == (set == (
            user,
            pass,
        )),
{
    reveal_strlit("Authorization");
    reveal_strlit("authorization");
    reveal_strlit("content-length");
    reveal_strlit("Basic ");
    let name = "Authorization"@;
    let value = http::basic_value(user, pass);
    let plain = encode_utf8(user + seq![':'] + pass);
    let code = base64::encoded(plain);
    let hs = seq![(name, value)];
    base64::lemma_encoded_plain(plain);
    lemma_some_bytes(user + seq![':'] + pass);
    assert(code.len() > 0);
    assert(value.last() == code.last());
    assert(!text::is_white_space(code[code.len() - 1]));
    assert forall|i: int| 0 <= i < value.len() implies (#[trigger] value[i]) <= '\u{ff}'
        && value[i] != '\n' by {
        if i >= 6 {
            assert(value[i] == code[i - 6]);
            assert(!text::is_white_space(code[i - 6]));
        }
    }
    assert(is_header(name, value));
    assert(text::lowercase(name) =~= "authorization"@);
    let h = headers_after(Map::empty(), hs);
    assert(hs.skip(1).len() == 0);
    reveal_with_fuel(headers_after, 2);
    assert(h == Map::<Seq<char>, Seq<char>>::empty().insert("authorization"@, value));
    assert("authorization"@.len() != "content-length"@.len());
    assert(!h.contains_key("content-length"@));
    let none = Seq::<u8>::empty();
    assert(none + none == none);
    theorem_request_is_read(method, target, hs, none, none, eof);
    http::theorem_basic_authentication(h, user, pass, set);
}

/// The encoding of a text that is not empty is not empty.
proof fn lemma_some_bytes(s: Seq<char>)
    requires
        s.len() > 0,
    ensures
        encode_utf8(s).len() > 0,
{
    encode_utf8_decode_utf8(s);
    let none = Seq::<char>::empty();
    encode_utf8_decode_utf8(none);
    if encode_utf8(s).len() == 0 {
        is_ascii_chars_encode_utf8(none);
        assert(encode_utf8(none).len() == 0);
        assert(encode_utf8(s) == encode_utf8(none));
    }
}

/// Up to 8192 bytes a line is read, with more it is refused; up to 65536 bytes a body is read,
/// with more it is refused.
pub proof fn theorem_limits(
    method: Seq<char>,
    path: Seq<char>,
    h: Headers,
    line: Seq<u8>,
    n: nat,
    b: Seq<u8>,
    eof: bool,
)
    requires
        forall|i: int| 0 <= i < line.len() ==> #[trigger] line[i] != 0x0a,
        h.contains_key("content-length"@),
        h["content-length"@] == numbers::decimal(n),
        n <= usize::MAX,
    ensures
        line.len() > 8192 ==> http::next_line(line, eof) is TooLong,
        line.len() > 8192 ==> http::next_line(line.push(0x0a) + b, eof) is TooLong,
        line.len() <= 8192 ==> http::next_line(line.push(0x0a) + b, eof) == (Line::Read {
            text: http::latin(line.push(0x0a)),
            len: line.len() as int + 1,
        }),
        http::body_progress(method, path, h, b, eof) == (if n > 65536 {
            Progress::Failed(ReadError::BodyTooLarge)
        } else if n <= b.len() {
            Progress::Got(
                RequestView {
                    method,
                    path,
                    headers: h,
                    body: text::lossy_text(b.take(n as int)),
                },
            )
        } else if eof {
            Progress::Failed(ReadError::Truncated)
        } else {
            Progress::Wait
        }),
{
    numbers::lemma_unsigned_of_decimal(n, usize::MAX as int);
    let full = line.push(0x0a) + b;
    lemma_feed(line, line);
    assert(full[line.len() as int] == 0x0a);
    lemma_feed(line, full);
    assert(full.take(line.len() as int + 1) == line.push(0x0a));
}

proof fn lemma_feed(line: Seq<u8>, s: Seq<u8>)
    requires
        forall|i: int| 0 <= i < line.len() ==> #[trigger] line[i] != 0x0a,
        line.is_prefix_of(s),
        s.len() > line.len() ==> s[line.len() as int] == 0x0a,
    ensures
        http::feed_position(s) == line.len(),
{
    http::lemma_feed_position(s);
    let p = http::feed_position(s);
    if p < line.len() {
        assert(s[p] == line[p]);
    }
}

/// Without a length in the headers, or with one that is no number, there is no body.
pub proof fn theorem_no_body(
    method: Seq<char>,
    path: Seq<char>,
    h: Headers,
    b: Seq<u8>,
    eof: bool,
)
    requires
        h.contains_key("content-length"@) ==> numbers::unsigned(
            h["content-length"@],
            10,
            usize::MAX as int,
        ) is None,
    ensures
        http::body_progress(method, path, h, b, eof) == Progress::Got(
            RequestView { method, path, headers: h, body: seq![] },
        ),
{
    let e = Seq::<u8>::empty();
    let none = Seq::<char>::empty();
    assert(b.take(0) == e);
    encode_utf8_valid_utf8(none);
    encode_utf8_decode_utf8(none);
    assert(encode_utf8(none) == e);
}

/// A client that closes without a word, or sends a blank line first, has asked nothing. A line
/// with one word asks for the path `/`.
pub proof fn theorem_short_requests(method: Seq<char>, rest: Seq<u8>, eof: bool)
    requires
        is_word(method),
        method.len() < 8192,
    ensures
        http::progress(seq![], true) == Progress::Nothing,
        http::progress(seq![], false) == Progress::Wait,
        http::progress(seq![0x0du8, 0x0au8] + rest, eof) == Progress::Nothing,
        http::progress(wire(method.push('\r')).push(0x0a) + rest, eof) == http::head_progress(
            method,
            "/"@,
            Map::empty(),
            rest,
            eof,
        ),
{
    let e = Seq::<char>::empty();
    assert(http::latin(seq![]) == e);
    assert(text::words(e).len() == 0);
    // A blank line.
    let blank = seq!['\r'];
    lemma_wire(blank);
    http::lemma_closed_line(wire(blank), rest, eof);
    assert(wire(blank).push(0x0a) + rest == seq![0x0du8, 0x0au8] + rest);
    text::lemma_blank('\r', seq!['\n']);
    text::lemma_blank('\n', e);
    assert(seq!['\n'] + e == seq!['\n']);
    assert(blank.push('\n') == seq!['\r'] + seq!['\n']);
    assert(text::words(blank.push('\n')).len() == 0);
    // One word.
    let line = method.push('\r');
    assert forall|i: int| 0 <= i < line.len() implies (#[trigger] line[i]) <= '\u{ff}' && line[i]
        != '\n' by {
        if i < method.len() {
            assert(line[i] == method[i]);
        }
    }
    lemma_wire(line);
    http::lemma_closed_line(wire(line), rest, eof);
    let tail = seq!['\r'] + seq!['\n'];
    text::lemma_word(method, tail);
    assert(line.push('\n') == method + tail);
    assert(text::words(tail).len() == 0);
    assert(text::words(line.push('\n')) == seq![method] + text::words(tail));
    assert(text::words(line.push('\n'))[0] == method);
    reveal_strlit("/");
    assert(!"/"@.contains('?'));
    http::theorem_path_without_query("/"@, e);
}

/// The head of a response is one line for each of its parts: the status with its phrase, the
/// type and the length of the body, what every response says, the headers of its own in their
/// order, and a blank line.
pub proof fn theorem_head_of_a_response(r: ResponseView)
    ensures
        http::head_text(r) == text_laws::with_ends(
            seq![
                "HTTP/1.1 "@ + numbers::decimal(r.status as nat) + " "@ + http::reason(r.status),
                "Content-Type: "@ + r.content_type,
                "Content-Length: "@ + numbers::decimal(r.body.len()),
                "Connection: close"@,
                "X-Content-Type-Options: nosniff"@,
                "Cache-Control: no-store"@,
            ] + r.extra_headers.map_values(|h: (Seq<char>, Seq<char>)| h.0 + ": "@ + h.1) + seq![
                seq![],
            ],
            seq!['\r', '\n'],
        ),
{
    let end = seq!['\r', '\n'];
    lemma_head_texts();
    let f0 = "HTTP/1.1 "@ + numbers::decimal(r.status as nat) + " "@ + http::reason(r.status);
    let f1 = "Content-Type: "@ + r.content_type;
    let f2 = "Content-Length: "@ + numbers::decimal(r.body.len());
    let f3 = "Connection: close"@;
    let f4 = "X-Content-Type-Options: nosniff"@;
    let f5 = "Cache-Control: no-store"@;
    let fixed = seq![f0, f1, f2, f3, f4, f5];
    let own = r.extra_headers.map_values(|h: (Seq<char>, Seq<char>)| h.0 + ": "@ + h.1);
    let last = seq![Seq::<char>::empty()];
    lemma_own_headers(r.extra_headers);
    lemma_ends_add_up(fixed + own, last, end);
    lemma_ends_add_up(fixed, own, end);
    lemma_one_end(Seq::<char>::empty(), end);
    assert(Seq::<char>::empty() + end == end);
    // The lines that every head has.
    let w0 = f0 + end;
    let w1 = w0 + f1 + end;
    let w2 = w1 + f2 + end;
    let w3 = w2 + f3 + end;
    let w4 = w3 + f4 + end;
    let w5 = w4 + f5 + end;
    lemma_one_end(f0, end);
    lemma_next_end(seq![f0], f1, end);
    lemma_next_end(seq![f0, f1], f2, end);
    lemma_next_end(seq![f0, f1, f2], f3, end);
    lemma_next_end(seq![f0, f1, f2, f3], f4, end);
    lemma_next_end(seq![f0, f1, f2, f3, f4], f5, end);
    assert(seq![f0].push(f1) == seq![f0, f1]);
    assert(seq![f0, f1].push(f2) == seq![f0, f1, f2]);
    assert(seq![f0, f1, f2].push(f3) == seq![f0, f1, f2, f3]);
    assert(seq![f0, f1, f2, f3].push(f4) == seq![f0, f1, f2, f3, f4]);
    assert(seq![f0, f1, f2, f3, f4].push(f5) == fixed);
    assert(text_laws::with_ends(fixed, end) == w5);
    // The head as it is written.
    lemma_glue(f0, end, "Content-Type: "@);
    lemma_glue(w0, "Content-Type: "@, r.content_type);
    let h1 = w0 + f1;
    lemma_glue(h1, end, "Content-Length: "@);
    lemma_glue(w1, "Content-Length: "@, numbers::decimal(r.body.len()));
    let h2 = w1 + f2;
    lemma_glue(h2, end + f3 + end + f4 + end + f5, end);
    lemma_glue(h2, end + f3 + end + f4 + end, f5);
    lemma_glue(h2, end + f3 + end + f4, end);
    lemma_glue(h2, end + f3 + end, f4);
    lemma_glue(h2, end + f3, end);
    lemma_glue(h2, end, f3);
    assert(h2 + (end + f3 + end + f4 + end + f5 + end) == w5);
}

proof fn lemma_head_texts()
    ensures
        "\r\n"@ == seq!['\r', '\n'],
        "\r\nContent-Type: "@ == seq!['\r', '\n'] + "Content-Type: "@,
        "\r\nContent-Length: "@ == seq!['\r', '\n'] + "Content-Length: "@,
        "\r\nConnection: close\r\nX-Content-Type-Options: nosniff\r\nCache-Control: no-store\r\n"@
            == seq!['\r', '\n'] + "Connection: close"@ + seq!['\r', '\n']
            + "X-Content-Type-Options: nosniff"@ + seq!['\r', '\n'] + "Cache-Control: no-store"@
            + seq!['\r', '\n'],
{
    reveal_strlit("\r\n");
    reveal_strlit("\r\nContent-Type: ");
    reveal_strlit("Content-Type: ");
    reveal_strlit("\r\nContent-Length: ");
    reveal_strlit("Content-Length: ");
    reveal_strlit(
        "\r\nConnection: close\r\nX-Content-Type-Options: nosniff\r\nCache-Control: no-store\r\n",
    );
    reveal_strlit("Connection: close");
    reveal_strlit("X-Content-Type-Options: nosniff");
    reveal_strlit("Cache-Control: no-store");
}

proof fn lemma_glue(a: Seq<char>, b: Seq<char>, c: Seq<char>)
    ensures
        a + (b + c) == a + b + c,
{
}

proof fn lemma_one_end(line: Seq<char>, end: Seq<char>)
    ensures
        text_laws::with_ends(seq![line], end) == line + end,
{
    assert(seq![line].skip(1) == Seq::<Seq<char>>::empty());
    reveal_with_fuel(text_laws::with_ends, 2);
    assert(line + end + Seq::<char>::empty() == line + end);
}

proof fn lemma_next_end(a: Seq<Seq<char>>, line: Seq<char>, end: Seq<char>)
    ensures
        text_laws::with_ends(a.push(line), end) == text_laws::with_ends(a, end) + line + end,
{
    lemma_ends_add_up(a, seq![line], end);
    assert(a.push(line) == a + seq![line]);
    lemma_one_end(line, end);
    lemma_glue(text_laws::with_ends(a, end), line, end);
}

proof fn lemma_ends_add_up(a: Seq<Seq<char>>, b: Seq<Seq<char>>, end: Seq<char>)
    ensures
        text_laws::with_ends(a + b, end) == text_laws::with_ends(a, end) + text_laws::with_ends(
            b,
            end,
        ),
    decreases a.len(),
{
    if a.len() == 0 {
        assert(a + b == b);
        assert(text_laws::with_ends(a, end) + text_laws::with_ends(b, end) == text_laws::with_ends(
            b,
            end,
        ));
    } else {
        lemma_ends_add_up(a.skip(1), b, end);
        assert((a + b).skip(1) == a.skip(1) + b);
        assert((a + b)[0] == a[0]);
        assert(text_laws::with_ends(a + b, end) == text_laws::with_ends(a, end)
            + text_laws::with_ends(b, end));
    }
}

proof fn lemma_own_headers(hs: Seq<(Seq<char>, Seq<char>)>)
    ensures
        http::header_lines(hs) == text_laws::with_ends(
            hs.map_values(|h: (Seq<char>, Seq<char>)| h.0 + ": "@ + h.1),
            seq!['\r', '\n'],
        ),
    decreases hs.len(),
{
    reveal_strlit("\r\n");
    let end = seq!['\r', '\n'];
    assert("\r\n"@ == end);
    let own = hs.map_values(|h: (Seq<char>, Seq<char>)| h.0 + ": "@ + h.1);
    if hs.len() > 0 {
        let init = hs.drop_last();
        lemma_own_headers(init);
        let before = init.map_values(|h: (Seq<char>, Seq<char>)| h.0 + ": "@ + h.1);
        let line = hs.last().0 + ": "@ + hs.last().1;
        assert(own == before + seq![line]);
        lemma_ends_add_up(before, seq![line], end);
        assert(seq![line].skip(1) == Seq::<Seq<char>>::empty());
        reveal_with_fuel(text_laws::with_ends, 2);
        assert(text_laws::with_ends(seq![line], end) == line + end);
        assert(http::header_lines(hs) == text_laws::with_ends(own, end));
    } else {
        assert(http::header_lines(hs) == text_laws::with_ends(own, end));
    }
}

/// The phrases of the statuses that are sent.
pub proof fn theorem_phrases()
    ensures
        http::reason(200) == "OK"@,
        http::reason(400) == "Bad Request"@,
        http::reason(401) == "Unauthorized"@,
        http::reason(404) == "Not Found"@,
        http::reason(405) == "Method Not Allowed"@,
        http::reason(413) == "Payload Too Large"@,
        http::reason(500) == "Internal Server Error"@,
        http::reason(503) == "Service Unavailable"@,
        forall|c: int|
            c != 200 && c != 400 && c != 401 && c != 404 && c != 405 && c != 413 && c != 500 && c
                != 503 ==> #[trigger] http::reason(c) == "Unknown"@,
{
}

/// A client without valid credentials is told so, and asked for them by the scheme that is
/// understood.
pub proof fn theorem_refused_clients()
    ensures
        ({
            let r = http::unauthorized_response();
            &&& r.status == 401
            &&& r.content_type == "text/plain; charset=utf-8"@
            &&& r.body == encode_utf8("authentication required"@)
            &&& r.extra_headers == seq![("WWW-Authenticate"@, "Basic realm=\"modemui\""@)]
        }),
{
}

/// Credentials count under the name of the scheme in either form, and under no other one; without
/// the header there are none, and nobody is let in where some are set.
pub proof fn theorem_schemes(h: Headers, rest: Seq<char>, other: Seq<char>, set: (Seq<char>, Seq<char>))
    requires
        other.len() < 6 || (other[0] != 'B' && other[0] != 'b'),
    ensures
        http::credentials(h.insert("authorization"@, "Basic "@ + rest)) == http::credentials(
            h.insert("authorization"@, "basic "@ + rest),
        ),
        http::credentials(h.insert("authorization"@, other)) is None,
        http::credentials(h.remove("authorization"@)) is None,
        !http::authorized(h.remove("authorization"@), Some(set)),
        !http::authorized(h.insert("authorization"@, other), Some(set)),
{
    reveal_strlit("Basic ");
    reveal_strlit("basic ");
    let a = "Basic "@ + rest;
    let b = "basic "@ + rest;
    assert("Basic "@.is_prefix_of(a));
    assert("basic "@.is_prefix_of(b));
    assert(a.skip(6) == rest);
    assert(b.skip(6) == rest);
    assert("Basic "@[0] == 'B' && "basic "@[0] == 'b');
    assert(b[0] == 'b');
    assert(text::after_prefix(b, "Basic "@) is None) by {
        if "Basic "@.is_prefix_of(b) {
            assert(b[0] == "Basic "@[0]);
        }
    }
    assert(text::after_prefix(other, "Basic "@) is None) by {
        if "Basic "@.is_prefix_of(other) {
            assert(other[0] == "Basic "@[0]);
        }
    }
    assert(text::after_prefix(other, "basic "@) is None) by {
        if "basic "@.is_prefix_of(other) {
            assert(other[0] == "basic "@[0]);
        }
    }
}

/// Blanks around the encoded credentials do not matter.
pub proof fn theorem_blanks_around_credentials(
    h: Headers,
    before: Seq<char>,
    code: Seq<char>,
    after: Seq<char>,
)
    requires
        text_laws::is_blank(before),
        text_laws::is_blank(after),
        code.len() > 0 ==> !text::is_white_space(code[0]) && !text::is_white_space(code.last()),
    ensures
        http::credentials(h.insert("authorization"@, "Basic "@ + (before + code + after)))
            == http::credentials(h.insert("authorization"@, "Basic "@ + code)),
{
    let full = before + code + after;
    text_laws::theorem_blanks_around(before, code, after);
    text::lemma_trimmed_of_plain(code);
    let n = "Basic "@.len() as int;
    assert("Basic "@.is_prefix_of("Basic "@ + full));
    assert("Basic "@.is_prefix_of("Basic "@ + code));
    assert(("Basic "@ + full).skip(n) == full);
    assert(("Basic "@ + code).skip(n) == code);
}

} // verus!
