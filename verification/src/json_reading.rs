//! What JSON texts denote, and that the texts written here denote the values they were written
//! from.
//!
//! The reader below is mathematics only, it does not run. It reads JSON without white space
//! between tokens.

use crate::json;
use crate::json::JsonView;
use crate::numbers;
use crate::text;
use vstd::prelude::*;

verus! {

// ---------------------------------------------------------------------------
// String literals
// ---------------------------------------------------------------------------
pub open spec fn is_control(c: char) -> bool {
    '\u{20}' > c
}

/// The character that a letter after a backslash stands for.
pub open spec fn short_escape(c: char) -> Option<char> {
    if c == '"' || c == '\\' || c == '/' {
        Some(c)
    } else if c == 'b' {
        Some('\u{08}')
    } else if c == 'f' {
        Some('\u{0c}')
    } else if c == 'n' {
        Some('\n')
    } else if c == 'r' {
        Some('\r')
    } else if c == 't' {
        Some('\t')
    } else {
        None
    }
}

/// What was read in front, before what is read of the rest.
pub open spec fn prepended<A>(x: A, rest: Option<(Seq<A>, Seq<char>)>) -> Option<
    (Seq<A>, Seq<char>),
> {
    match rest {
        Some((xs, t)) => Some((seq![x] + xs, t)),
        None => None,
    }
}

/// The string that a literal denotes, read from after its opening quotation mark, and the text
/// after its closing one. An escape of four digits denotes a character of the basic plane;
/// pairs of such escapes are not read.
pub open spec fn read_literal(t: Seq<char>) -> Option<(Seq<char>, Seq<char>)>
    decreases t.len(),
{
    if t.len() == 0 {
        None
    } else if t[0] == '"' {
        Some((seq![], t.skip(1)))
    } else if t[0] == '\\' {
        if t.len() >= 6 && t[1] == 'u' && numbers::all_digits(t.subrange(2, 6), 16) {
            let code = numbers::value_of(t.subrange(2, 6), 16);
            if 0xd800 <= code <= 0xdfff {
                None
            } else {
                prepended(code as char, read_literal(t.skip(6)))
            }
        } else if t.len() >= 2 && short_escape(t[1]) is Some {
            prepended(short_escape(t[1])->0, read_literal(t.skip(2)))
        } else {
            None
        }
    } else if is_control(t[0]) {
        None
    } else {
        prepended(t[0], read_literal(t.skip(1)))
    }
}

// ---------------------------------------------------------------------------
// Numbers
// ---------------------------------------------------------------------------
pub open spec fn is_fraction(t: Seq<char>) -> bool {
    if t.len() > 0 && t[0] == '.' {
        let k = text::digit_run(t.skip(1));
        k > 0 && numbers::is_exponent(t.skip(1 + k as int))
    } else {
        numbers::is_exponent(t)
    }
}

/// A character of a number.
pub open spec fn in_number(c: char) -> bool {
    text::is_digit(c) || c == '-' || c == '+' || c == '.' || c == 'e' || c == 'E'
}

/// A number as JSON writes it.
pub open spec fn is_number(t: Seq<char>) -> bool {
    let u = if t.len() > 0 && t[0] == '-' {
        t.skip(1)
    } else {
        t
    };
    let k = text::digit_run(u);
    &&& forall|i: int| 0 <= i < t.len() ==> in_number(#[trigger] t[i])
    &&& k > 0
    &&& u[0] == '0' ==> k == 1
    &&& is_fraction(u.skip(k as int))
}

/// How many characters of a number a text begins with.
pub open spec fn number_run(t: Seq<char>) -> nat
    decreases t.len(),
{
    if t.len() > 0 && in_number(t[0]) {
        1 + number_run(t.skip(1))
    } else {
        0
    }
}

// ---------------------------------------------------------------------------
// Values
// ---------------------------------------------------------------------------
/// The value that a text begins with, and the text after it.
pub open spec fn read_value(t: Seq<char>) -> Option<(JsonView, Seq<char>)>
    decreases t.len(), 0nat,
{
    if t.len() == 0 {
        None
    } else if t[0] == 'n' {
        match text::after_prefix(t, "null"@) {
            Some(r) => Some((JsonView::Null, r)),
            None => None,
        }
    } else if t[0] == 't' {
        match text::after_prefix(t, "true"@) {
            Some(r) => Some((JsonView::Bool(true), r)),
            None => None,
        }
    } else if t[0] == 'f' {
        match text::after_prefix(t, "false"@) {
            Some(r) => Some((JsonView::Bool(false), r)),
            None => None,
        }
    } else if t[0] == '"' {
        match read_literal(t.skip(1)) {
            Some((s, r)) => Some((JsonView::Str(s), r)),
            None => None,
        }
    } else if t[0] == '[' {
        match read_items(t.skip(1), true) {
            Some((items, r)) => Some((JsonView::Arr(items), r)),
            None => None,
        }
    } else if t[0] == '{' {
        match read_pairs(t.skip(1), true) {
            Some((pairs, r)) => Some((JsonView::Obj(pairs), r)),
            None => None,
        }
    } else {
        let k = number_run(t) as int;
        if is_number(t.take(k)) {
            Some((JsonView::Num(Some(t.take(k))), t.skip(k)))
        } else {
            None
        }
    }
}

/// The values of a list up to its closing bracket, and the text after it. Each value comes
/// after a comma, but for one that is the first.
pub open spec fn read_items(t: Seq<char>, first: bool) -> Option<(Seq<JsonView>, Seq<char>)>
    decreases t.len(), 1nat,
{
    if t.len() == 0 {
        None
    } else if t[0] == ']' {
        Some((seq![], t.skip(1)))
    } else if !first && t[0] != ',' {
        None
    } else {
        let u = if first {
            t
        } else {
            t.skip(1)
        };
        match read_value(u) {
            Some((v, r)) => if r.len() < t.len() {
                prepended(v, read_items(r, false))
            } else {
                None
            },
            None => None,
        }
    }
}

/// The members of an object up to its closing brace, and the text after it.
pub open spec fn read_pairs(t: Seq<char>, first: bool) -> Option<
    (Seq<(Seq<char>, JsonView)>, Seq<char>),
>
    decreases t.len(), 1nat,
{
    if t.len() == 0 {
        None
    } else if t[0] == '}' {
        Some((seq![], t.skip(1)))
    } else if !first && t[0] != ',' {
        None
    } else {
        let u = if first {
            t
        } else {
            t.skip(1)
        };
        if u.len() == 0 || u[0] != '"' {
            None
        } else {
            match read_literal(u.skip(1)) {
                Some((k, r)) => if r.len() > 0 && r[0] == ':' && r.len() <= t.len() {
                    match read_value(r.skip(1)) {
                        Some((v, q)) => if q.len() < t.len() {
                            prepended((k, v), read_pairs(q, false))
                        } else {
                            None
                        },
                        None => None,
                    }
                } else {
                    None
                },
                None => None,
            }
        }
    }
}

/// The value that a whole text denotes.
pub open spec fn read(t: Seq<char>) -> Option<JsonView> {
    match read_value(t) {
        Some((v, r)) => if r.len() == 0 {
            Some(v)
        } else {
            None
        },
        None => None,
    }
}

/// What a written value denotes: integers and measured numbers are numbers, and a number
/// without a notation is null.
pub open spec fn denotation(v: JsonView) -> JsonView
    decreases v,
{
    match v {
        JsonView::Num(None) => JsonView::Null,
        JsonView::Int(i) => JsonView::Num(Some(numbers::int_text(i))),
        JsonView::Arr(items) => JsonView::Arr(
            Seq::new(
                items.len(),
                |i: int|
                    if 0 <= i < items.len() {
                        denotation(items[i])
                    } else {
                        JsonView::Null
                    },
            ),
        ),
        JsonView::Obj(pairs) => JsonView::Obj(
            Seq::new(
                pairs.len(),
                |i: int|
                    if 0 <= i < pairs.len() {
                        (pairs[i].0, denotation(pairs[i].1))
                    } else {
                        (seq![], JsonView::Null)
                    },
            ),
        ),
        _ => v,
    }
}

/// Whether every measured number in a value is in JSON notation.
pub open spec fn has_valid_numbers(v: JsonView) -> bool
    decreases v,
{
    match v {
        JsonView::Num(Some(t)) => is_number(t),
        JsonView::Arr(items) => forall|i: int|
            0 <= i < items.len() ==> has_valid_numbers(#[trigger] items[i]),
        JsonView::Obj(pairs) => forall|i: int|
            0 <= i < pairs.len() ==> has_valid_numbers((#[trigger] pairs[i]).1),
        _ => true,
    }
}

// ---------------------------------------------------------------------------
// Laws
// ---------------------------------------------------------------------------
proof fn lemma_hex_quad(n: int)
    requires
        0 <= n < 0x10000,
    ensures
        json::hex_quad(n).len() == 4,
        numbers::all_digits(json::hex_quad(n), 16),
        numbers::value_of(json::hex_quad(n), 16) == n,
{
    let q = json::hex_quad(n);
    reveal_with_fuel(numbers::value_of, 5);
    assert(q.drop_last().drop_last().drop_last().drop_last().len() == 0);
    assert(n == n / 256 / 16 * 4096 + n / 256 % 16 * 256 + n % 256 / 16 * 16 + n % 256 % 16);
}

proof fn lemma_literal_step(c: char, t: Seq<char>)
    ensures
        read_literal(json::escaped_char(c) + t) == prepended(c, read_literal(t)),
{
    reveal_strlit("\\\"");
    reveal_strlit("\\\\");
    reveal_strlit("\\n");
    reveal_strlit("\\r");
    reveal_strlit("\\t");
    reveal_strlit("\\b");
    reveal_strlit("\\f");
    reveal_strlit("\\u");
    let e = json::escaped_char(c);
    let full = e + t;
    if e.len() == 1 {
        assert(full.skip(1) == t);
    } else if e.len() == 2 {
        assert(full.skip(2) == t);
    } else {
        lemma_hex_quad(c as int);
        assert(full.skip(6) == t);
        assert(full.subrange(2, 6) == json::hex_quad(c as int));
    }
}

proof fn lemma_read_literal(s: Seq<char>, rest: Seq<char>)
    ensures
        read_literal(json::escaped(s) + "\""@ + rest) == Some((s, rest)),
    decreases s.len(),
{
    reveal_strlit("\"");
    let t = json::escaped(s) + "\""@ + rest;
    if s.len() == 0 {
        assert(t.skip(1) == rest);
    } else {
        let next = s.skip(1);
        lemma_read_literal(next, rest);
        lemma_literal_step(s[0], json::escaped(next) + "\""@ + rest);
        assert(t == json::escaped_char(s[0]) + (json::escaped(next) + "\""@ + rest));
        assert(seq![s[0]] + next == s);
    }
}

proof fn lemma_read_quoted(s: Seq<char>, rest: Seq<char>)
    ensures
        (json::quoted(s) + rest).len() > 0,
        (json::quoted(s) + rest)[0] == '"',
        read_literal((json::quoted(s) + rest).skip(1)) == Some((s, rest)),
{
    reveal_strlit("\"");
    lemma_read_literal(s, rest);
    assert((json::quoted(s) + rest).skip(1) == json::escaped(s) + "\""@ + rest);
}

proof fn lemma_digit_run_all(t: Seq<char>)
    requires
        forall|i: int| 0 <= i < t.len() ==> text::is_digit(#[trigger] t[i]),
    ensures
        text::digit_run(t) == t.len(),
    decreases t.len(),
{
    if t.len() > 0 {
        assert(text::is_digit(t[0]));
        assert forall|i: int| 0 <= i < t.skip(1).len() implies text::is_digit(
            #[trigger] t.skip(1)[i],
        ) by {
            assert(t.skip(1)[i] == t[i + 1]);
        }
        lemma_digit_run_all(t.skip(1));
    }
}

proof fn lemma_number_run(x: Seq<char>, rest: Seq<char>)
    requires
        forall|i: int| 0 <= i < x.len() ==> in_number(#[trigger] x[i]),
        rest.len() > 0 ==> !in_number(rest[0]),
    ensures
        number_run(x + rest) == x.len(),
    decreases x.len(),
{
    let t = x + rest;
    if x.len() == 0 {
        assert(t == rest);
    } else {
        assert(in_number(x[0]));
        assert(t.skip(1) == x.skip(1) + rest);
        assert forall|i: int| 0 <= i < x.skip(1).len() implies in_number(
            #[trigger] x.skip(1)[i],
        ) by {
            assert(x.skip(1)[i] == x[i + 1]);
        }
        lemma_number_run(x.skip(1), rest);
    }
}

proof fn lemma_no_leading_zero(n: nat)
    ensures
        numbers::decimal(n)[0] == '0' ==> n == 0,
    decreases n,
{
    if n >= 10 {
        lemma_no_leading_zero(n / 10);
        numbers::lemma_decimal(n / 10);
    }
}

proof fn lemma_int_text(i: int)
    ensures
        is_number(numbers::int_text(i)),
{
    let n = if i < 0 {
        (-i) as nat
    } else {
        i as nat
    };
    let d = numbers::decimal(n);
    let t = numbers::int_text(i);
    numbers::lemma_decimal(n);
    lemma_no_leading_zero(n);
    lemma_digit_run_all(d);
    assert(text::is_digit(d[0]));
    if i < 0 {
        assert(t.skip(1) == d);
        assert forall|j: int| 0 <= j < t.len() implies in_number(#[trigger] t[j]) by {
            if j > 0 {
                assert(t[j] == d[j - 1]);
            }
        }
    }
    assert(d.skip(d.len() as int).len() == 0);
}

/// What may come after a value: the end, a comma or a closing bracket.
spec fn ends_value(rest: Seq<char>) -> bool {
    rest.len() > 0 ==> rest[0] == ',' || rest[0] == ']' || rest[0] == '}'
}

proof fn lemma_read_number(x: Seq<char>, rest: Seq<char>)
    requires
        is_number(x),
        ends_value(rest),
    ensures
        read_value(x + rest) == Some((JsonView::Num(Some(x)), rest)),
{
    let t = x + rest;
    lemma_number_run(x, rest);
    assert(x.len() > 0);
    assert(in_number(x[0]));
    assert(t[0] == x[0]);
    assert(t.take(x.len() as int) == x);
    assert(t.skip(x.len() as int) == rest);
}

proof fn lemma_read_word(w: Seq<char>, rest: Seq<char>)
    ensures
        text::after_prefix(w + rest, w) == Some(rest),
{
    assert(w.is_prefix_of(w + rest));
    assert((w + rest).skip(w.len() as int) == rest);
}

proof fn lemma_read_value(v: JsonView, rest: Seq<char>)
    requires
        has_valid_numbers(v),
        ends_value(rest),
    ensures
        read_value(json::json_text(v) + rest) == Some((denotation(v), rest)),
        json::json_text(v).len() > 0,
        json::json_text(v)[0] != ']',
    decreases v, 0nat,
{
    reveal_strlit("null");
    reveal_strlit("true");
    reveal_strlit("false");
    reveal_strlit("[");
    reveal_strlit("]");
    reveal_strlit("{");
    reveal_strlit("}");
    reveal_strlit("\"");
    let t = json::json_text(v) + rest;
    match v {
        JsonView::Null => {
            lemma_read_word("null"@, rest);
        },
        JsonView::Bool(b) => {
            lemma_read_word("true"@, rest);
            lemma_read_word("false"@, rest);
        },
        JsonView::Num(n) => match n {
            Some(x) => {
                lemma_read_number(x, rest);
                assert(x.len() > 0);
                assert(in_number(x[0]));
            },
            None => {
                lemma_read_word("null"@, rest);
            },
        },
        JsonView::Int(i) => {
            lemma_int_text(i);
            lemma_read_number(numbers::int_text(i), rest);
            assert(in_number(numbers::int_text(i)[0]));
        },
        JsonView::Str(s) => {
            lemma_read_quoted(s, rest);
        },
        JsonView::Arr(items) => {
            lemma_read_items(items, 0, rest);
            assert(t.skip(1) == json::items_text(items, 0) + "]"@ + rest);
            assert(denotation(v)->Arr_0.skip(0) == denotation(v)->Arr_0);
        },
        JsonView::Obj(pairs) => {
            lemma_read_pairs(pairs, 0, rest);
            assert(t.skip(1) == json::pairs_text(pairs, 0) + ("}"@ + rest));
            assert(denotation(v)->Obj_0.skip(0) == denotation(v)->Obj_0);
        },
    }
}

proof fn lemma_read_items(items: Seq<JsonView>, i: nat, rest: Seq<char>)
    requires
        has_valid_numbers(JsonView::Arr(items)),
        i <= items.len(),
    ensures
        read_items(json::items_text(items, i) + "]"@ + rest, i == 0) == Some(
            (denotation(JsonView::Arr(items))->Arr_0.skip(i as int), rest),
        ),
    decreases items, items.len() - i,
{
    reveal_strlit("]");
    reveal_strlit(",");
    let ds = denotation(JsonView::Arr(items))->Arr_0;
    let t = json::items_text(items, i) + "]"@ + rest;
    if i == items.len() {
        assert(t.skip(1) == rest);
        assert(ds.skip(i as int) == Seq::<JsonView>::empty());
    } else {
        let v = items[i as int];
        let after = json::items_text(items, i + 1) + "]"@ + rest;
        assert(has_valid_numbers(v));
        lemma_read_items(items, i + 1, rest);
        assert(ends_value(after));
        lemma_read_value(v, after);
        let u = if i == 0 {
            t
        } else {
            t.skip(1)
        };
        assert(u == json::json_text(v) + after);
        assert(u[0] == json::json_text(v)[0]);
        assert(ds.skip(i as int) == seq![denotation(v)] + ds.skip(i as int + 1));
    }
}

/// One member more, in front of others.
proof fn lemma_read_pair(k: Seq<char>, v: JsonView, d: JsonView, after: Seq<char>, first: bool)
    requires
        read_value(json::json_text(v) + after) == Some((d, after)),
    ensures
        read_pairs(
            (if first {
                seq![]
            } else {
                ","@
            }) + json::quoted(k) + ":"@ + json::json_text(v) + after,
            first,
        ) == prepended((k, d), read_pairs(after, false)),
{
    reveal_strlit(",");
    reveal_strlit(":");
    reveal_strlit("\"");
    let r = ":"@ + json::json_text(v) + after;
    let u = json::quoted(k) + r;
    let t = (if first {
        seq![]
    } else {
        ","@
    }) + json::quoted(k) + ":"@ + json::json_text(v) + after;
    lemma_read_quoted(k, r);
    assert(r.skip(1) == json::json_text(v) + after);
    if first {
        assert(t == u);
    } else {
        assert(t.skip(1) == u);
    }
}

proof fn lemma_pairs_begin(pairs: Seq<(Seq<char>, JsonView)>, i: nat, rest: Seq<char>)
    requires
        i < pairs.len(),
    ensures
        json::pairs_text(pairs, i) + rest == json::comma_before(i) + json::quoted(
            pairs[i as int].0,
        ) + ":"@ + json::json_text(pairs[i as int].1) + (json::pairs_text(pairs, i + 1) + rest),
{
}

proof fn lemma_read_pairs(pairs: Seq<(Seq<char>, JsonView)>, i: nat, rest: Seq<char>)
    requires
        has_valid_numbers(JsonView::Obj(pairs)),
        i <= pairs.len(),
    ensures
        read_pairs(json::pairs_text(pairs, i) + ("}"@ + rest), i == 0) == Some(
            (denotation(JsonView::Obj(pairs))->Obj_0.skip(i as int), rest),
        ),
    decreases pairs, pairs.len() - i,
{
    reveal_strlit("}");
    let ds = denotation(JsonView::Obj(pairs))->Obj_0;
    let end = "}"@ + rest;
    let t = json::pairs_text(pairs, i) + end;
    if i == pairs.len() {
        assert(t == end);
        assert(t.skip(1) == rest);
        assert(ds.skip(i as int) == Seq::<(Seq<char>, JsonView)>::empty());
    } else {
        let k = pairs[i as int].0;
        let v = pairs[i as int].1;
        let after = json::pairs_text(pairs, i + 1) + end;
        assert(has_valid_numbers(v));
        lemma_read_pairs(pairs, i + 1, rest);
        lemma_pairs_follow(pairs, i + 1, rest);
        lemma_read_value(v, after);
        lemma_read_pair(k, v, denotation(v), after, i == 0);
        lemma_pairs_begin(pairs, i, end);
        assert(ds[i as int] == (k, denotation(v)));
        assert(ds.skip(i as int) == seq![(k, denotation(v))] + ds.skip(i as int + 1));
    }
}

proof fn lemma_pairs_follow(pairs: Seq<(Seq<char>, JsonView)>, i: nat, rest: Seq<char>)
    requires
        0 < i,
    ensures
        ends_value(json::pairs_text(pairs, i) + ("}"@ + rest)),
{
    reveal_strlit("}");
    reveal_strlit(",");
}

/// Every written value is JSON and denotes that value.
pub proof fn theorem_written_value_is_read_back(v: JsonView)
    requires
        has_valid_numbers(v),
    ensures
        read(json::json_text(v)) == Some(denotation(v)),
{
    lemma_read_value(v, seq![]);
    assert(json::json_text(v) + seq![] == json::json_text(v));
}

/// A string that is written denotes itself: whatever it holds, a reader gets it back, and it
/// cannot end the literal early.
pub proof fn theorem_string_literal(s: Seq<char>)
    ensures
        read(json::quoted(s)) == Some(JsonView::Str(s)),
{
    theorem_written_value_is_read_back(JsonView::Str(s));
}

/// A character that may stand as it is inside of a script.
pub open spec fn is_harmless(c: char) -> bool {
    !is_control(c) && c != '\u{2028}' && c != '\u{2029}'
}

proof fn lemma_escaped_char_harmless(c: char)
    ensures
        forall|i: int|
            0 <= i < json::escaped_char(c).len() ==> is_harmless(#[trigger] json::escaped_char(c)[i]),
{
    reveal_strlit("\\\"");
    reveal_strlit("\\\\");
    reveal_strlit("\\n");
    reveal_strlit("\\r");
    reveal_strlit("\\t");
    reveal_strlit("\\b");
    reveal_strlit("\\f");
    reveal_strlit("\\u");
}

proof fn lemma_escaped_harmless(s: Seq<char>)
    ensures
        forall|i: int| 0 <= i < json::escaped(s).len() ==> is_harmless(#[trigger] json::escaped(s)[i]),
    decreases s.len(),
{
    if s.len() > 0 {
        let e = json::escaped_char(s[0]);
        lemma_escaped_char_harmless(s[0]);
        lemma_escaped_harmless(s.skip(1));
        assert forall|i: int| 0 <= i < json::escaped(s).len() implies is_harmless(
            #[trigger] json::escaped(s)[i],
        ) by {
            if i < e.len() {
                assert(json::escaped(s)[i] == e[i]);
            } else {
                assert(json::escaped(s)[i] == json::escaped(s.skip(1))[i - e.len()]);
            }
        }
    }
}

/// No string is written with a control character or a line separator in it.
pub proof fn theorem_no_raw_controls(s: Seq<char>)
    ensures
        forall|i: int| 0 <= i < json::quoted(s).len() ==> is_harmless(#[trigger] json::quoted(s)[i]),
{
    reveal_strlit("\"");
    lemma_escaped_harmless(s);
    assert forall|i: int| 0 <= i < json::quoted(s).len() implies is_harmless(
        #[trigger] json::quoted(s)[i],
    ) by {
        if 0 < i < json::quoted(s).len() - 1 {
            assert(json::quoted(s)[i] == json::escaped(s)[i - 1]);
        }
    }
}

/// How the characters of a string are written: quotation marks, backslashes, controls and the two
/// line separators escaped, and all others as they are.
pub proof fn theorem_written_characters(c: char, a: Seq<char>, b: Seq<char>)
    ensures
        json::escaped_char('"') == seq!['\\', '"'],
        json::escaped_char('\\') == seq!['\\', '\\'],
        json::escaped_char('\n') == seq!['\\', 'n'],
        json::escaped_char('\r') == seq!['\\', 'r'],
        json::escaped_char('\t') == seq!['\\', 't'],
        json::escaped_char('\u{08}') == seq!['\\', 'b'],
        json::escaped_char('\u{0c}') == seq!['\\', 'f'],
        json::escaped_char('\u{2028}') == seq!['\\', 'u', '2', '0', '2', '8'],
        json::escaped_char('\u{2029}') == seq!['\\', 'u', '2', '0', '2', '9'],
        c >= '\u{20}' && c != '"' && c != '\\' && c != '\u{2028}' && c != '\u{2029}'
            ==> json::escaped_char(c) == seq![c],
        json::escaped(a + b) == json::escaped(a) + json::escaped(b),
        json::escaped(seq![c]) == json::escaped_char(c),
    decreases a.len(),
{
    reveal_strlit("\\\"");
    reveal_strlit("\\\\");
    reveal_strlit("\\n");
    reveal_strlit("\\r");
    reveal_strlit("\\t");
    reveal_strlit("\\b");
    reveal_strlit("\\f");
    reveal_strlit("\\u");
    assert(json::escaped_char('\u{2028}') == seq!['\\', 'u', '2', '0', '2', '8']);
    assert(json::escaped_char('\u{2029}') == seq!['\\', 'u', '2', '0', '2', '9']);
    let e = Seq::<char>::empty();
    assert(seq![c].skip(1) == e);
    reveal_with_fuel(json::escaped, 2);
    assert(json::escaped(seq![c]) == json::escaped_char(c));
    if a.len() == 0 {
        assert(a + b == b);
        assert(json::escaped(a + b) == json::escaped(a) + json::escaped(b));
    } else {
        theorem_written_characters(c, a.skip(1), b);
        assert((a + b).skip(1) == a.skip(1) + b);
        assert((a + b)[0] == a[0]);
        assert(json::escaped(a + b) == json::escaped(a) + json::escaped(b));
    }
}

/// How the simple values are written. A measurement is written as it was read, and one that is no
/// number as `null`.
pub proof fn theorem_written_values(t: Seq<char>, i: int)
    ensures
        json::json_text(JsonView::Null) == "null"@,
        json::json_text(JsonView::Bool(true)) == "true"@,
        json::json_text(JsonView::Bool(false)) == "false"@,
        json::json_text(JsonView::Num(Some(t))) == t,
        json::json_text(JsonView::Num(None)) == "null"@,
        json::json_text(JsonView::Int(i)) == numbers::int_text(i),
        json::json_text(JsonView::Str(t)) == "\""@ + json::escaped(t) + "\""@,
        json::json_text(JsonView::Arr(seq![])) == "["@ + "]"@,
        json::json_text(JsonView::Obj(seq![])) == "{"@ + "}"@,
{
    let e = Seq::<char>::empty();
    assert(json::items_text(seq![], 0) == e);
    assert(json::pairs_text(seq![], 0) == e);
    assert("["@ + e == "["@);
    assert("{"@ + e == "{"@);
}

} // verus!
