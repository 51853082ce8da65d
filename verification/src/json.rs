//! JSON for the answers of the interface, and the forms that its requests carry.
//!
//! JSON is only written here, never read.

use crate::numbers;
use crate::text;
use vstd::prelude::*;
use vstd::string::*;
use vstd::utf8::*;

verus! {

/// The notation of a measured number.
#[derive(Debug, PartialEq)]
pub enum Number {
    /// A finite number, as it is written.
    Finite(String),
    /// An infinity, or not a number: JSON has no notation for it.
    NonFinite,
}

impl View for Number {
    type V = Option<Seq<char>>;

    open spec fn view(&self) -> Option<Seq<char>> {
        match self {
            Number::Finite(t) => Some(t@),
            Number::NonFinite => None,
        }
    }
}

impl Clone for Number {
    fn clone(&self) -> (r: Number)
        ensures
            r@ == self@,
    {
        match self {
            Number::Finite(t) => Number::Finite(t.clone()),
            Number::NonFinite => Number::NonFinite,
        }
    }
}

/// A JSON value that can be written.
#[derive(Debug, PartialEq)]
pub enum Json {
    Null,
    Bool(bool),
    Num(Number),
    Int(i64),
    Str(String),
    Arr(Vec<Json>),
    Obj(Vec<(String, Json)>),
}

/// A JSON value as a mathematical value.
pub enum JsonView {
    Null,
    Bool(bool),
    Num(Option<Seq<char>>),
    Int(int),
    Str(Seq<char>),
    Arr(Seq<JsonView>),
    Obj(Seq<(Seq<char>, JsonView)>),
}

pub open spec fn json_view(j: Json) -> JsonView
    decreases j,
{
    match j {
        Json::Null => JsonView::Null,
        Json::Bool(b) => JsonView::Bool(b),
        Json::Num(n) => JsonView::Num(n@),
        Json::Int(i) => JsonView::Int(i as int),
        Json::Str(s) => JsonView::Str(s@),
        Json::Arr(items) => JsonView::Arr(
            Seq::new(
                items@.len(),
                |i: int|
                    if 0 <= i < items@.len() {
                        json_view(items@[i])
                    } else {
                        JsonView::Null
                    },
            ),
        ),
        Json::Obj(pairs) => JsonView::Obj(
            Seq::new(
                pairs@.len(),
                |i: int|
                    if 0 <= i < pairs@.len() {
                        (pairs@[i].0@, json_view(pairs@[i].1))
                    } else {
                        (seq![], JsonView::Null)
                    },
            ),
        ),
    }
}

impl View for Json {
    type V = JsonView;

    open spec fn view(&self) -> JsonView {
        json_view(*self)
    }
}

impl Clone for Json {
    fn clone(&self) -> (r: Json)
        ensures
            r@ == self@,
        decreases self,
    {
        match self {
            Json::Null => Json::Null,
            Json::Bool(b) => Json::Bool(*b),
            Json::Num(n) => Json::Num(n.clone()),
            Json::Int(i) => Json::Int(*i),
            Json::Str(s) => Json::Str(s.clone()),
            Json::Arr(items) => {
                let mut out: Vec<Json> = Vec::new();
                let mut i: usize = 0;
                while i < items.len()
                    invariant
                        self matches Json::Arr(v) && v == items,
                        i <= items.len(),
                        out.len() == i,
                        forall|j: int| 0 <= j < i ==> (#[trigger] out@[j])@ == items@[j]@,
                    decreases items.len() - i,
                {
                    let item = &items[i];
                    out.push(item.clone());
                    i += 1;
                }
                let r = Json::Arr(out);
                assert(r@->Arr_0 == self@->Arr_0);
                r
            },
            Json::Obj(pairs) => {
                let mut out: Vec<(String, Json)> = Vec::new();
                let mut i: usize = 0;
                while i < pairs.len()
                    invariant
                        self matches Json::Obj(v) && v == pairs,
                        i <= pairs.len(),
                        out.len() == i,
                        forall|j: int|
                            0 <= j < i ==> (#[trigger] out@[j]).0@ == pairs@[j].0@ && out@[j].1@
                                == pairs@[j].1@,
                    decreases pairs.len() - i,
                {
                    let item = &pairs[i].1;
                    out.push((pairs[i].0.clone(), item.clone()));
                    i += 1;
                }
                let r = Json::Obj(out);
                assert(r@->Obj_0 == self@->Obj_0);
                r
            },
        }
    }
}

// ---------------------------------------------------------------------------
// Writing
// ---------------------------------------------------------------------------
/// Four hexadecimal digits.
pub open spec fn hex_quad(n: int) -> Seq<char> {
    numbers::hex_pair(n / 256) + numbers::hex_pair(n % 256)
}

/// One character inside a string. The line separators U+2028 and U+2029 are escaped too, so
/// that the text can stand in a script.
pub open spec fn escaped_char(c: char) -> Seq<char> {
    if c == '"' {
        "\\\""@
    } else if c == '\\' {
        "\\\\"@
    } else if c == '\n' {
        "\\n"@
    } else if c == '\r' {
        "\\r"@
    } else if c == '\t' {
        "\\t"@
    } else if c == '\u{08}' {
        "\\b"@
    } else if c == '\u{0c}' {
        "\\f"@
    } else if c < '\u{20}' || c == '\u{2028}' || c == '\u{2029}' {
        "\\u"@ + hex_quad(c as int)
    } else {
        seq![c]
    }
}

pub open spec fn escaped(s: Seq<char>) -> Seq<char>
    decreases s.len(),
{
    if s.len() == 0 {
        seq![]
    } else {
        escaped_char(s[0]) + escaped(s.skip(1))
    }
}

/// A string in quotation marks.
pub open spec fn quoted(s: Seq<char>) -> Seq<char> {
    "\""@ + escaped(s) + "\""@
}

/// The text of a JSON value.
pub open spec fn json_text(v: JsonView) -> Seq<char>
    decreases v, 0nat,
{
    match v {
        JsonView::Null => "null"@,
        JsonView::Bool(b) => if b {
            "true"@
        } else {
            "false"@
        },
        JsonView::Num(n) => match n {
            Some(t) => t,
            None => "null"@,
        },
        JsonView::Int(i) => numbers::int_text(i),
        JsonView::Str(s) => quoted(s),
        JsonView::Arr(items) => "["@ + items_text(items, 0) + "]"@,
        JsonView::Obj(pairs) => "{"@ + pairs_text(pairs, 0) + "}"@,
    }
}

/// The values of a list from the `i`th on, each but the first of the list after a comma.
pub open spec fn items_text(items: Seq<JsonView>, i: nat) -> Seq<char>
    decreases items, items.len() - i,
{
    if i >= items.len() {
        seq![]
    } else {
        comma_before(i) + json_text(items[i as int]) + items_text(items, i + 1)
    }
}

/// The members of an object from the `i`th on, each but the first of the object after a comma.
pub open spec fn pairs_text(pairs: Seq<(Seq<char>, JsonView)>, i: nat) -> Seq<char>
    decreases pairs, pairs.len() - i,
{
    if i >= pairs.len() {
        seq![]
    } else {
        comma_before(i) + quoted(pairs[i as int].0) + ":"@ + json_text(pairs[i as int].1)
            + pairs_text(pairs, i + 1)
    }
}

pub open spec fn comma_before(i: nat) -> Seq<char> {
    if i > 0 {
        ","@
    } else {
        seq![]
    }
}

fn add_escaped_char(out: &mut Vec<char>, c: char)
    ensures
        final(out)@ == old(out)@ + escaped_char(c),
{
    if c == '"' {
        text::add_str(out, "\\\"");
    } else if c == '\\' {
        text::add_str(out, "\\\\");
    } else if c == '\n' {
        text::add_str(out, "\\n");
    } else if c == '\r' {
        text::add_str(out, "\\r");
    } else if c == '\t' {
        text::add_str(out, "\\t");
    } else if c == '\u{08}' {
        text::add_str(out, "\\b");
    } else if c == '\u{0c}' {
        text::add_str(out, "\\f");
    } else if c < '\u{20}' || c == '\u{2028}' || c == '\u{2029}' {
        text::add_str(out, "\\u");
        let n: u32 = c as u32;
        numbers::add_hex_pair(out, (n / 256) as u8);
        numbers::add_hex_pair(out, (n % 256) as u8);
    } else {
        out.push(c);
    }
}

fn add_quoted(out: &mut Vec<char>, s: &str)
    ensures
        final(out)@ == old(out)@ + quoted(s@),
{
    let cs = text::chars_of(s);
    text::add_str(out, "\"");
    let ghost start = out@;
    let mut i: usize = 0;
    assert(s@.skip(0) == s@);
    while i < cs.len()
        invariant
            cs@ == s@,
            i <= cs.len(),
            out@ + escaped(s@.skip(i as int)) == start + escaped(s@),
        decreases cs.len() - i,
    {
        let ghost before = out@;
        assert(s@.skip(i as int).skip(1) == s@.skip(i + 1));
        add_escaped_char(out, cs[i]);
        assert(out@ + escaped(s@.skip(i + 1)) == before + (escaped_char(s@[i as int]) + escaped(
            s@.skip(i + 1),
        )));
        i += 1;
    }
    assert(out@ == start + escaped(s@));
    text::add_str(out, "\"");
}

impl Json {
    pub fn obj(pairs: Vec<(&str, Json)>) -> (r: Json)
        ensures
            r@ == JsonView::Obj(
                Seq::new(pairs@.len(), |i: int| (pairs@[i].0@, json_view(pairs@[i].1))),
            ),
    {
        let ghost all = pairs@;
        let mut members: Vec<(String, Json)> = Vec::new();
        for p in it: pairs
            invariant
                it.seq() == all,
                members@.len() == it.index(),
                forall|i: int|
                    #![trigger members@[i]]
                    0 <= i < members@.len() ==> members@[i].0@ == all[i].0@ && members@[i].1
                        == all[i].1,
        {
            members.push((p.0.to_owned(), p.1));
        }
        let r = Json::Obj(members);
        assert(r@->Obj_0 =~= Seq::new(
            all.len(),
            |i: int| (all[i].0@, json_view(all[i].1)),
        ));
        r
    }

    pub fn str(s: &str) -> (r: Json)
        ensures
            r@ == JsonView::Str(s@),
    {
        Json::Str(s.to_owned())
    }

    /// The number, or null.
    pub fn opt_int(v: Option<i64>) -> (r: Json)
        ensures
            r@ == (match v {
                Some(i) => JsonView::Int(i as int),
                None => JsonView::Null,
            }),
    {
        match v {
            Some(i) => Json::Int(i),
            None => Json::Null,
        }
    }

    pub fn opt_num(v: Option<Number>) -> (r: Json)
        ensures
            r@ == (match v {
                Some(n) => JsonView::Num(n@),
                None => JsonView::Null,
            }),
    {
        match v {
            Some(n) => Json::Num(n),
            None => Json::Null,
        }
    }

    pub fn opt_str(v: Option<String>) -> (r: Json)
        ensures
            r@ == (match v {
                Some(s) => JsonView::Str(s@),
                None => JsonView::Null,
            }),
    {
        match v {
            Some(s) => Json::Str(s),
            None => Json::Null,
        }
    }

    fn write(&self, out: &mut Vec<char>)
        ensures
            final(out)@ == old(out)@ + json_text(self@),
        decreases self,
    {
        match self {
            Json::Null => text::add_str(out, "null"),
            Json::Bool(b) => if *b {
                text::add_str(out, "true")
            } else {
                text::add_str(out, "false")
            },
            Json::Int(i) => numbers::add_int(out, *i),
            Json::Num(n) => match n {
                Number::Finite(t) => text::add_str(out, t.as_str()),
                Number::NonFinite => text::add_str(out, "null"),
            },
            Json::Str(s) => add_quoted(out, s.as_str()),
            Json::Arr(items) => {
                let ghost views = self@->Arr_0;
                text::add_str(out, "[");
                let ghost start = out@;
                let mut i: usize = 0;
                while i < items.len()
                    invariant
                        *self == Json::Arr(*items),
                        views == self@->Arr_0,
                        i <= items.len(),
                        out@ + items_text(views, i as nat) == start + items_text(views, 0),
                    decreases items.len() - i,
                {
                    let ghost before = out@;
                    if i > 0 {
                        text::add_str(out, ",");
                    }
                    let item = &items[i];
                    assert(item@ == views[i as int]);
                    item.write(out);
                    assert(out@ + items_text(views, (i + 1) as nat) == before + items_text(
                        views,
                        i as nat,
                    ));
                    i += 1;
                }
                assert(out@ == start + items_text(views, 0));
                text::add_str(out, "]");
            },
            Json::Obj(pairs) => {
                let ghost views = self@->Obj_0;
                text::add_str(out, "{");
                let ghost start = out@;
                let mut i: usize = 0;
                while i < pairs.len()
                    invariant
                        *self == Json::Obj(*pairs),
                        views == self@->Obj_0,
                        i <= pairs.len(),
                        out@ + pairs_text(views, i as nat) == start + pairs_text(views, 0),
                    decreases pairs.len() - i,
                {
                    let ghost before = out@;
                    if i > 0 {
                        text::add_str(out, ",");
                    }
                    let item = &pairs[i].1;
                    assert((pairs@[i as int].0@, item@) == views[i as int]);
                    add_quoted(out, pairs[i].0.as_str());
                    text::add_str(out, ":");
                    item.write(out);
                    assert(out@ + pairs_text(views, (i + 1) as nat) == before + pairs_text(
                        views,
                        i as nat,
                    ));
                    i += 1;
                }
                assert(out@ == start + pairs_text(views, 0));
                text::add_str(out, "}");
            },
        }
    }

    pub fn to_string(&self) -> (r: String)
        ensures
            r@ == json_text(self@),
    {
        let mut out: Vec<char> = Vec::new();
        self.write(&mut out);
        text::string_of(out.as_slice())
    }
}

// ---------------------------------------------------------------------------
// Forms
// ---------------------------------------------------------------------------
/// The value of a hexadecimal digit, or -1.
pub open spec fn nibble(b: u8) -> int {
    if 0x30 <= b <= 0x39 {
        b - 0x30
    } else if 0x41 <= b <= 0x46 {
        b - 0x37
    } else if 0x61 <= b <= 0x66 {
        b - 0x57
    } else {
        -1
    }
}

/// The byte that two characters after a percent sign stand for: two hexadecimal digits, or a
/// plus sign and one digit.
pub open spec fn escaped_byte(h: u8, l: u8) -> Option<u8> {
    if nibble(l) < 0 {
        None
    } else if nibble(h) >= 0 {
        Some((nibble(h) * 16 + nibble(l)) as u8)
    } else if h == 0x2b {
        Some(nibble(l) as u8)
    } else {
        None
    }
}

/// The bytes that an encoded text stands for. A plus sign is a space, and a percent sign that
/// does not begin an escape stands for itself.
pub open spec fn url_decoded(b: Seq<u8>) -> Seq<u8>
    decreases b.len(),
{
    if b.len() == 0 {
        seq![]
    } else if b[0] == 0x2b {
        seq![0x20u8] + url_decoded(b.skip(1))
    } else if b[0] == 0x25 && b.len() > 2 && escaped_byte(b[1], b[2]) is Some {
        seq![escaped_byte(b[1], b[2])->0] + url_decoded(b.skip(3))
    } else {
        seq![b[0]] + url_decoded(b.skip(1))
    }
}

fn nibble_of(b: u8) -> (r: Option<u8>)
    ensures
        match r {
            Some(v) => v == nibble(b) && v < 16,
            None => nibble(b) < 0,
        },
{
    if 0x30 <= b && b <= 0x39 {
        Some(b - 0x30)
    } else if 0x41 <= b && b <= 0x46 {
        Some(b - 0x37)
    } else if 0x61 <= b && b <= 0x66 {
        Some(b - 0x57)
    } else {
        None
    }
}

fn byte_of(h: u8, l: u8) -> (r: Option<u8>)
    ensures
        r == escaped_byte(h, l),
{
    match nibble_of(l) {
        None => None,
        Some(low) => match nibble_of(h) {
            Some(high) => Some(high * 16 + low),
            None => if h == 0x2b {
                Some(low)
            } else {
                None
            },
        },
    }
}

/// What an encoded key or value of a form reads.
pub open spec fn decoded_text(s: Seq<char>) -> Seq<char> {
    text::lossy_text(url_decoded(encode_utf8(s)))
}

/// Decode a key or a value of a form.
pub fn url_decode(s: &str) -> (r: String)
    ensures
        r@ == decoded_text(s@),
{
    let b = s.as_bytes();
    let mut out: Vec<u8> = Vec::new();
    let mut i: usize = 0;
    assert(b@.skip(0) == b@);
    while i < b.len()
        invariant
            i <= b.len(),
            out@ + url_decoded(b@.skip(i as int)) == url_decoded(b@),
        decreases b.len() - i,
    {
        let ghost rest = b@.skip(i as int);
        let ghost before = out@;
        assert(rest.skip(1) == b@.skip(i + 1));
        assert(i + 3 <= b.len() ==> rest.skip(3) == b@.skip(i + 3));
        if b[i] == 0x2b {
            out.push(0x20);
            i += 1;
        } else if b[i] == 0x25 && b.len() - i > 2 {
            match byte_of(b[i + 1], b[i + 2]) {
                Some(x) => {
                    out.push(x);
                    i += 3;
                },
                None => {
                    out.push(0x25);
                    i += 1;
                },
            }
        } else {
            out.push(b[i]);
            i += 1;
        }
        assert(before + (seq![out@.last()] + url_decoded(b@.skip(i as int))) == out@ + url_decoded(
            b@.skip(i as int),
        ));
    }
    assert(out@ == url_decoded(b@));
    text::from_utf8_lossy(out.as_slice())
}

/// The key and the value of one piece of a form, still encoded.
pub open spec fn sides(piece: Seq<char>) -> (Seq<char>, Seq<char>) {
    match text::halves(piece, '=') {
        Some(kv) => kv,
        None => (piece, seq![]),
    }
}

/// The pairs of a form, given its pieces.
pub open spec fn form_pairs(ps: Seq<Seq<char>>) -> Seq<(Seq<char>, Seq<char>)>
    decreases ps.len(),
{
    if ps.len() == 0 {
        seq![]
    } else {
        let before = form_pairs(ps.drop_last());
        if ps.last().len() == 0 {
            before
        } else {
            let (k, v) = sides(ps.last());
            before.push((decoded_text(k), decoded_text(v)))
        }
    }
}

/// The pairs of a form.
pub open spec fn form(body: Seq<char>) -> Seq<(Seq<char>, Seq<char>)> {
    form_pairs(text::pieces(body, '&'))
}

fn key_and_value<'a>(piece: &'a [char]) -> (r: (String, String))
    ensures
        (r.0@, r.1@) == sides(piece@),
{
    match text::split_once(piece, '=') {
        Some((k, v)) => (text::string_of(k), text::string_of(v)),
        None => {
            let none: Vec<char> = Vec::new();
            (text::string_of(piece), text::string_of(none.as_slice()))
        },
    }
}

/// Read `application/x-www-form-urlencoded`.
pub fn parse_form(body: &str) -> (r: Vec<(String, String)>)
    ensures
        r.deep_view() == form(body@),
{
    let cs = text::chars_of(body);
    let ps = text::split_char(cs.as_slice(), '&');
    let ghost all = text::slices(ps@);
    let mut out: Vec<(String, String)> = Vec::new();
    let mut i: usize = 0;
    assert(out.deep_view() == Seq::<(Seq<char>, Seq<char>)>::empty());
    while i < ps.len()
        invariant
            all == text::slices(ps@),
            all == text::pieces(body@, '&'),
            i <= ps.len(),
            out.deep_view() == form_pairs(all.take(i as int)),
        decreases ps.len() - i,
    {
        let ghost next = all.take(i + 1);
        assert(next.drop_last() == all.take(i as int));
        assert(next.last() == ps@[i as int]@);
        assert(all[i as int] == ps@[i as int]@);
        let ghost before = out.deep_view();
        if ps[i].len() > 0 {
            let (k, v) = key_and_value(ps[i]);
            let pair = (url_decode(k.as_str()), url_decode(v.as_str()));
            out.push(pair);
            assert(out.deep_view() == before.push((pair.0@, pair.1@)));
        }
        i += 1;
    }
    assert(all.take(i as int) == all);
    out
}

/// The value of the first pair with a key.
pub open spec fn form_value(f: Seq<(Seq<char>, Seq<char>)>, key: Seq<char>) -> Option<Seq<char>>
    decreases f.len(),
{
    if f.len() == 0 {
        None
    } else if f[0].0 == key {
        Some(f[0].1)
    } else {
        form_value(f.skip(1), key)
    }
}

pub fn form_get<'a>(form: &'a [(String, String)], key: &str) -> (r: Option<&'a str>)
    ensures
        (match r {
            Some(v) => Some(v@),
            None => None,
        }) == form_value(form.deep_view(), key@),
{
    let ghost all = form.deep_view();
    let k = text::chars_of(key);
    let mut i: usize = 0;
    assert(all.skip(0) == all);
    while i < form.len()
        invariant
            all == form.deep_view(),
            k@ == key@,
            i <= form.len(),
            form_value(all.skip(i as int), key@) == form_value(all, key@),
        decreases form.len() - i,
    {
        assert(all.skip(i as int).skip(1) == all.skip(i + 1));
        assert(all[i as int] == (form@[i as int].0@, form@[i as int].1@));
        let name = text::chars_of(form[i].0.as_str());
        if text::same(name.as_slice(), k.as_slice()) {
            return Some(form[i].1.as_str());
        }
        i += 1;
    }
    None
}

// ---------------------------------------------------------------------------
// Laws
// ---------------------------------------------------------------------------
/// Whether `p` is how a byte may be written in a form: as a percent sign and two hexadecimal
/// digits, as a plus sign if it is a space, or as itself if it is neither a percent sign nor a
/// plus sign.
pub open spec fn writes_byte(p: Seq<u8>, b: u8) -> bool {
    ||| p.len() == 3 && p[0] == 0x25 && nibble(p[1]) >= 0 && nibble(p[2]) >= 0 && b == nibble(p[1])
        * 16 + nibble(p[2])
    ||| p == seq![0x2bu8] && b == 0x20
    ||| p == seq![b] && b != 0x25 && b != 0x2b
}

/// Whether `parts` are how the bytes of a text may be written, one after the other.
pub open spec fn writes_text(parts: Seq<Seq<u8>>, t: Seq<char>) -> bool {
    &&& parts.len() == encode_utf8(t).len()
    &&& forall|i: int| 0 <= i < parts.len() ==> writes_byte(#[trigger] parts[i], encode_utf8(t)[i])
}

/// Whether `e` is an encoding of the text `t`: each byte of it may be written in any of the ways
/// that there are.
pub open spec fn encodes(e: Seq<char>, t: Seq<char>) -> bool {
    exists|parts: Seq<Seq<u8>>| encode_utf8(e) == parts.flatten() && #[trigger] writes_text(parts, t)
}

proof fn lemma_parts(parts: Seq<Seq<u8>>, b: Seq<u8>)
    requires
        parts.len() == b.len(),
        forall|i: int| 0 <= i < parts.len() ==> writes_byte(#[trigger] parts[i], b[i]),
    ensures
        url_decoded(parts.flatten()) == b,
    decreases parts.len(),
{
    if parts.len() > 0 {
        let p = parts[0];
        let more = parts.drop_first();
        let e = parts.flatten();
        assert(writes_byte(p, b[0]));
        assert forall|i: int| 0 <= i < more.len() implies writes_byte(
            #[trigger] more[i],
            b.skip(1)[i],
        ) by {
            assert(more[i] == parts[i + 1]);
        }
        lemma_parts(more, b.skip(1));
        assert(e == p + more.flatten());
        assert(e.skip(p.len() as int) == more.flatten());
        assert(forall|i: int| 0 <= i < p.len() ==> e[i] == p[i]);
        assert(seq![b[0]] + b.skip(1) == b);
    }
}

/// An encoded text is read back, in whichever way each of its bytes was written.
pub proof fn theorem_encoded_text_is_read_back(e: Seq<char>, t: Seq<char>)
    requires
        encodes(e, t),
    ensures
        decoded_text(e) == t,
{
    let parts = choose|parts: Seq<Seq<u8>>|
        encode_utf8(e) == parts.flatten() && #[trigger] writes_text(parts, t);
    lemma_parts(parts, encode_utf8(t));
    encode_utf8_valid_utf8(t);
    encode_utf8_decode_utf8(t);
}

/// Bytes with each one as a percent sign and two digits.
pub open spec fn percent_encoded(b: Seq<u8>) -> Seq<char>
    decreases b.len(),
{
    if b.len() == 0 {
        seq![]
    } else {
        seq!['%'] + numbers::hex_pair(b[0] as int) + percent_encoded(b.skip(1))
    }
}

spec fn in_escape(c: char) -> bool {
    c == '%' || text::is_hex_digit(c)
}

proof fn lemma_percent_plain(b: Seq<u8>)
    ensures
        forall|i: int|
            0 <= i < percent_encoded(b).len() ==> in_escape(#[trigger] percent_encoded(b)[i]),
    decreases b.len(),
{
    if b.len() > 0 {
        lemma_percent_plain(b.skip(1));
        let e = percent_encoded(b);
        assert forall|i: int| 0 <= i < e.len() implies in_escape(#[trigger] e[i]) by {
            if i >= 3 {
                assert(e[i] == percent_encoded(b.skip(1))[i - 3]);
            }
        }
    }
}

spec fn low_bytes(s: Seq<char>) -> Seq<u8> {
    Seq::new(s.len(), |i: int| s[i] as u8)
}

spec fn escape(b: u8) -> Seq<u8> {
    seq![0x25u8] + low_bytes(numbers::hex_pair(b as int))
}

proof fn lemma_escapes(b: Seq<u8>)
    ensures
        b.map_values(|x: u8| escape(x)).flatten() == low_bytes(percent_encoded(b)),
    decreases b.len(),
{
    let parts = b.map_values(|x: u8| escape(x));
    if b.len() > 0 {
        lemma_escapes(b.skip(1));
        assert(parts.drop_first() == b.skip(1).map_values(|x: u8| escape(x)));
        assert(low_bytes(percent_encoded(b)) == escape(b[0]) + low_bytes(
            percent_encoded(b.skip(1)),
        ));
    } else {
        assert(parts.flatten() == Seq::<u8>::empty());
        assert(low_bytes(percent_encoded(b)) == Seq::<u8>::empty());
    }
}

/// Every text has an encoding that can stand in a form, as a key or as a value: the one with each
/// of its bytes as a percent sign and two digits.
pub proof fn theorem_every_text_has_an_encoding(t: Seq<char>)
    ensures
        encodes(percent_encoded(encode_utf8(t)), t),
        !percent_encoded(encode_utf8(t)).contains('&'),
        !percent_encoded(encode_utf8(t)).contains('='),
{
    let b = encode_utf8(t);
    let e = percent_encoded(b);
    let parts = b.map_values(|x: u8| escape(x));
    lemma_percent_plain(b);
    assert forall|i: int| 0 <= i < e.len() implies e[i] != '&' && e[i] != '=' by {
        assert(in_escape(e[i]));
    }
    assert(is_ascii_chars(e));
    is_ascii_chars_encode_utf8(e);
    assert(encode_utf8(e) == low_bytes(e));
    lemma_escapes(b);
    assert forall|i: int| 0 <= i < parts.len() implies writes_byte(#[trigger] parts[i], b[i]) by {
        assert(parts[i] == escape(b[i]));
        assert(nibble(parts[i][1]) == b[i] as int / 16);
        assert(nibble(parts[i][2]) == b[i] as int % 16);
    }
    assert(writes_text(parts, t));
}

proof fn lemma_single_bytes(b: Seq<u8>)
    ensures
        b.map_values(|x: u8| seq![x]).flatten() == b,
    decreases b.len(),
{
    let parts = b.map_values(|x: u8| seq![x]);
    if b.len() > 0 {
        lemma_single_bytes(b.skip(1));
        assert(parts.drop_first() == b.skip(1).map_values(|x: u8| seq![x]));
        assert(seq![b[0]] + b.skip(1) == b);
    }
}

/// A text of ASCII characters without percent signs and plus signs is an encoding of itself.
pub proof fn theorem_plain_text_encodes_itself(t: Seq<char>)
    requires
        is_ascii_chars(t),
        !t.contains('%'),
        !t.contains('+'),
    ensures
        encodes(t, t),
{
    let b = encode_utf8(t);
    let parts = b.map_values(|x: u8| seq![x]);
    is_ascii_chars_encode_utf8(t);
    lemma_single_bytes(b);
    assert forall|i: int| 0 <= i < parts.len() implies writes_byte(#[trigger] parts[i], b[i]) by {
        assert(parts[i] == seq![b[i]]);
        assert(t.contains(t[i]));
        assert(t[i] as u8 == b[i]);
    }
    assert(writes_text(parts, t));
}

/// One field of a form, given its key and its value as they are encoded.
pub open spec fn field_text(pair: (Seq<char>, Seq<char>)) -> Seq<char> {
    pair.0 + seq!['='] + pair.1
}

/// A form, given its keys and values as they are encoded.
pub open spec fn form_text(f: Seq<(Seq<char>, Seq<char>)>) -> Seq<char>
    decreases f.len(),
{
    if f.len() == 0 {
        seq![]
    } else if f.len() == 1 {
        field_text(f[0])
    } else {
        field_text(f[0]) + seq!['&'] + form_text(f.skip(1))
    }
}

/// Whether a key and a value are encoded so that they can stand in a form.
pub open spec fn encodes_pair(e: (Seq<char>, Seq<char>), pair: (Seq<char>, Seq<char>)) -> bool {
    &&& encodes(e.0, pair.0)
    &&& encodes(e.1, pair.1)
    &&& !e.0.contains('=')
    &&& !e.0.contains('&')
    &&& !e.1.contains('&')
}

proof fn lemma_field(e: (Seq<char>, Seq<char>), pair: (Seq<char>, Seq<char>))
    requires
        encodes_pair(e, pair),
    ensures
        !field_text(e).contains('&'),
        form_pairs(seq![field_text(e)]) == seq![pair],
{
    let t = field_text(e);
    text::lemma_piece(e.0, '=', e.1);
    theorem_encoded_text_is_read_back(e.0, pair.0);
    theorem_encoded_text_is_read_back(e.1, pair.1);
    assert forall|j: int| 0 <= j < t.len() implies t[j] != '&' by {
        if j < e.0.len() {
            assert(e.0.contains(t[j]));
        } else if j > e.0.len() {
            assert(t[j] == e.1[j - e.0.len() - 1]);
            assert(e.1.contains(t[j]));
        }
    }
    reveal_with_fuel(form_pairs, 2);
    let ps = seq![t];
    assert(ps.drop_last() == Seq::<Seq<char>>::empty());
    assert(form_pairs(ps) == seq![pair]);
}

proof fn lemma_first_piece(p: Seq<char>, ps: Seq<Seq<char>>)
    ensures
        form_pairs(seq![p] + ps) == form_pairs(seq![p]) + form_pairs(ps),
    decreases ps.len(),
{
    let all = seq![p] + ps;
    if ps.len() == 0 {
        assert(all == seq![p]);
        assert(form_pairs(seq![p]) + form_pairs(ps) == form_pairs(seq![p]));
    } else {
        assert(all.drop_last() == seq![p] + ps.drop_last());
        lemma_first_piece(p, ps.drop_last());
        assert(form_pairs(all) == form_pairs(seq![p]) + form_pairs(ps));
    }
}

/// A form is read back, whatever its keys and values hold and however they are encoded.
pub proof fn theorem_form_is_read_back(
    es: Seq<(Seq<char>, Seq<char>)>,
    f: Seq<(Seq<char>, Seq<char>)>,
)
    requires
        es.len() == f.len(),
        forall|i: int| 0 <= i < f.len() ==> encodes_pair(#[trigger] es[i], f[i]),
    ensures
        form(form_text(es)) == f,
    decreases f.len(),
{
    let t = form_text(es);
    if f.len() == 0 {
        text::lemma_piece(t, '&', seq![]);
        reveal_with_fuel(form_pairs, 2);
        assert(form(t) == f);
    } else {
        let x = field_text(es[0]);
        assert(encodes_pair(es[0], f[0]));
        lemma_field(es[0], f[0]);
        if f.len() == 1 {
            text::lemma_piece(x, '&', seq![]);
            assert(form(t) == f);
        } else {
            let rest = form_text(es.skip(1));
            assert forall|i: int| 0 <= i < f.skip(1).len() implies encodes_pair(
                #[trigger] es.skip(1)[i],
                f.skip(1)[i],
            ) by {
                assert(es.skip(1)[i] == es[i + 1]);
            }
            theorem_form_is_read_back(es.skip(1), f.skip(1));
            text::lemma_piece(x, '&', rest);
            lemma_first_piece(x, text::pieces(rest, '&'));
            assert(seq![f[0]] + f.skip(1) == f);
        }
    }
}

} // verus!
