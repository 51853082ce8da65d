//! Laws of the made-up modems: what they answer, and that what is written is read back.

use crate::at;
use crate::demo;
use crate::modem;
use crate::modem::{Answer, Locks, Move};
use crate::modem_laws;
use crate::numbers;
use crate::text;
use crate::text_laws;
use vstd::prelude::*;

verus! {

// ---------------------------------------------------------------------------
// One command
// ---------------------------------------------------------------------------
/// The files of the made-up modem.
pub type Files = Map<Seq<char>, Seq<char>>;

/// What the made-up modem answers.
pub open spec fn demo_answer(files: Files, cmd: Seq<char>, now: int) -> Answer {
    Ok(at::reply_to(cmd, demo::reply_text(files, cmd, now)))
}

/// A path that needs no quoting.
pub open spec fn is_plain_path(path: Seq<char>) -> bool {
    path.len() > 0 && forall|i: int|
        0 <= i < path.len() ==> (#[trigger] path[i]) != ',' && path[i] != '"'
            && !text::is_white_space(path[i])
}

/// Contents as they are written: bytes in lower case, or none.
pub open spec fn is_stored(v: Seq<char>) -> bool {
    v.len() > 0 ==> modem::is_byte_list(v) && text::lowercase(v) == v
}

/// Whether a text is made of hexadecimal digits and commas.
spec fn is_list_text(s: Seq<char>) -> bool {
    forall|i: int| 0 <= i < s.len() ==> text::is_hex_digit(#[trigger] s[i]) || s[i] == ','
}

proof fn lemma_list_text(s: Seq<char>)
    requires
        modem::is_byte_list(s),
    ensures
        is_list_text(s),
        s.len() > 0,
    decreases s.len(),
{
    let i = text::position(s, ',');
    let ps = text::pieces(s, ',');
    text::lemma_position(s, ',');
    assert(modem::is_byte(ps[0]));
    if i < s.len() {
        let rest = s.skip(i + 1);
        let head = s.take(i);
        assert(ps == seq![head] + text::pieces(rest, ','));
        assert forall|j: int| 0 <= j < text::pieces(rest, ',').len() implies modem::is_byte(
            #[trigger] text::pieces(rest, ',')[j],
        ) by {
            assert(ps[j + 1] == text::pieces(rest, ',')[j]);
        }
        lemma_list_text(rest);
        assert forall|k: int| 0 <= k < s.len() implies text::is_hex_digit(#[trigger] s[k])
            || s[k] == ',' by {
            if k < i {
                assert(head[k] == s[k]);
            } else if k > i {
                assert(rest[k - i - 1] == s[k]);
            }
        }
    }
}

spec fn in_quotes(s: Seq<char>) -> Seq<char> {
    seq!['"'] + s + seq!['"']
}

proof fn lemma_command_args(args: Seq<char>)
    requires
        args.len() > 0,
        !text::is_white_space(args.last()),
    ensures
        demo::efs_args(text::trimmed("at^efs="@ + args)) == Some(args),
        text::trimmed("at^efs="@ + args) == "at^efs="@ + args,
{
    reveal_strlit("at^efs=");
    let cmd = "at^efs="@ + args;
    assert(cmd.last() == args.last());
    text::lemma_trimmed_of_plain(cmd);
    assert("at^efs="@.is_prefix_of(cmd));
    assert(cmd.skip("at^efs="@.len() as int) == args);
}

proof fn lemma_read_args(path: Seq<char>)
    requires
        is_plain_path(path),
    ensures
        demo::efs_args(text::trimmed(modem::read_command(path))) == Some(in_quotes(path)),
        text::trimmed(modem::read_command(path)) == modem::read_command(path),
        demo::efs_reads(in_quotes(path)),
        demo::efs_path(in_quotes(path)) == path,
{
    reveal_strlit("at^efs=\"");
    reveal_strlit("at^efs=");
    reveal_strlit("\"");
    let args = in_quotes(path);
    assert(modem::read_command(path) == "at^efs="@ + args);
    lemma_command_args(args);
    assert(!args.contains(',')) by {
        assert forall|i: int| 0 <= i < args.len() implies args[i] != ',' by {
            if 0 < i < args.len() - 1 {
                assert(args[i] == path[i - 1]);
            }
        }
    }
    text::lemma_piece(args, ',', seq![]);
    assert(path[0] != '"' && path[path.len() - 1] != '"');
    text::lemma_unquoted(path);
}

proof fn lemma_count(n: nat)
    requires
        n > 0,
    ensures
        text::trimmed(numbers::decimal(n)) == numbers::decimal(n),
        numbers::decimal(n) != "0"@,
        !numbers::decimal(n).contains(','),
{
    reveal_strlit("0");
    let d = numbers::decimal(n);
    numbers::lemma_decimal(n);
    assert(text::is_digit(d[0]) && text::is_digit(d[d.len() - 1]));
    text::lemma_trimmed_of_plain(d);
    if d == "0"@ {
        numbers::lemma_decimal(0);
        assert(d == numbers::decimal(0));
    }
    assert(!d.contains(',')) by {
        assert forall|i: int| 0 <= i < d.len() implies d[i] != ',' by {
            assert(text::is_digit(d[i]));
        }
    }
}

pub proof fn lemma_write_args(path: Seq<char>, bytes: Seq<char>)
    requires
        is_plain_path(path),
        is_stored(bytes),
    ensures
        ({
            let args = modem::write_command(path, bytes).skip("at^efs="@.len() as int);
            &&& demo::efs_args(text::trimmed(modem::write_command(path, bytes))) == Some(args)
            &&& text::trimmed(modem::write_command(path, bytes)) == modem::write_command(
                path,
                bytes,
            )
            &&& !demo::efs_reads(args)
            &&& demo::efs_path(args) == path
            &&& demo::efs_value(args) == bytes
        }),
{
    reveal_strlit("at^efs=\"");
    reveal_strlit("at^efs=");
    reveal_strlit("\"");
    reveal_strlit("\",0");
    reveal_strlit("\",");
    reveal_strlit(",\"");
    reveal_strlit("0");
    let quoted = in_quotes(path);
    let n = text::pieces(bytes, ',').len();
    let tail = if bytes.len() == 0 {
        "0"@
    } else {
        numbers::decimal(n) + seq![','] + in_quotes(bytes)
    };
    let args = quoted + seq![','] + tail;
    assert(modem::write_command(path, bytes) == "at^efs="@ + args);
    assert(("at^efs="@ + args).skip("at^efs="@.len() as int) == args);
    lemma_command_args(args);
    assert(!quoted.contains(',')) by {
        assert forall|i: int| 0 <= i < quoted.len() implies quoted[i] != ',' by {
            if 0 < i < quoted.len() - 1 {
                assert(quoted[i] == path[i - 1]);
            }
        }
    }
    text::lemma_piece(quoted, ',', tail);
    assert(path[0] != '"' && path[path.len() - 1] != '"');
    text::lemma_unquoted(path);
    assert(text::pieces(args, ',')[0] == quoted);
    if bytes.len() == 0 {
        text::lemma_piece(tail, ',', seq![]);
        text::lemma_trimmed_of_plain(tail);
        assert(text::pieces(args, ',')[1] == "0"@);
    } else {
        lemma_count(n);
        text::lemma_piece(numbers::decimal(n), ',', in_quotes(bytes));
        assert(text::pieces(args, ',')[1] == numbers::decimal(n));
        let b = in_quotes(bytes);
        text::lemma_trimmed_of_plain(b);
        lemma_list_text(bytes);
        assert(text::is_hex_digit(bytes[0]) || bytes[0] == ',');
        assert(text::is_hex_digit(bytes[bytes.len() - 1]) || bytes[bytes.len() - 1] == ',');
        text::lemma_unquoted(bytes);
    }
}

/// The line that shows a file, without white space at its end.
spec fn shown_line(path: Seq<char>, v: Seq<char>) -> Seq<char> {
    if v.len() == 0 {
        "^EFS: "@ + path + seq![',']
    } else {
        "^EFS: "@ + path + ", "@ + v
    }
}

proof fn lemma_shown_line(path: Seq<char>, v: Seq<char>)
    requires
        is_plain_path(path),
        is_stored(v),
    ensures
        ({
            let x = "^EFS: "@ + path + ", "@ + v;
            &&& text::trimmed(x) == shown_line(path, v)
            &&& !x.contains('\n')
            &&& !x.contains('\r')
            &&& x.len() > 0
        }),
        !shown_line(path, v).contains('\n'),
        !shown_line(path, v).contains('\r'),
{
    reveal_strlit("^EFS: ");
    reveal_strlit(", ");
    let x = "^EFS: "@ + path + ", "@ + v;
    let n = path.len() as int;
    if v.len() > 0 {
        lemma_list_text(v);
    }
    assert forall|i: int| 0 <= i < x.len() implies x[i] != '\n' && x[i] != '\r' by {
        if 6 <= i < 6 + n {
            assert(x[i] == path[i - 6]);
            assert(!text::is_white_space(path[i - 6]));
        } else if i >= 8 + n {
            assert(x[i] == v[i - n - 8]);
            assert(text::is_hex_digit(v[i - n - 8]) || v[i - n - 8] == ',');
        }
    }
    if v.len() == 0 {
        let t = shown_line(path, v);
        assert(x.drop_last() == t);
        reveal_with_fuel(text::trimmed_end, 2);
        assert(text::trimmed_start(x) == x);
        assert(text::trimmed_end(x) == t);
        assert forall|i: int| 0 <= i < t.len() implies t[i] != '\n' && t[i] != '\r' by {
            assert(t[i] == x[i]);
        }
    } else {
        assert(x.last() == v.last());
        assert(text::is_hex_digit(v[v.len() - 1]) || v[v.len() - 1] == ',');
        text::lemma_trimmed_of_plain(x);
    }
}

proof fn lemma_ok_line(cmd: Seq<char>, ls: Seq<Seq<char>>)
    requires
        text::trimmed(cmd).len() > 2,
    ensures
        at::gathered(cmd, ls.push("OK"@)) == (at::Gathered {
            ok: true,
            ..at::gathered(cmd, ls)
        }),
{
    reveal_strlit("OK");
    assert(ls.push("OK"@).drop_last() == ls);
    text::lemma_trimmed_of_plain("OK"@);
    assert(text::lowercase("OK"@).len() != text::lowercase(text::trimmed(cmd)).len());
}

proof fn lemma_empty_line(cmd: Seq<char>, ls: Seq<Seq<char>>)
    ensures
        at::gathered(cmd, ls.push(seq![])) == at::gathered(cmd, ls),
{
    let e = Seq::<char>::empty();
    assert(ls.push(e).drop_last() == ls);
    text::lemma_trimmed_of_plain(e);
}

proof fn lemma_body_line(cmd: Seq<char>, ls: Seq<Seq<char>>, path: Seq<char>, v: Seq<char>)
    requires
        is_plain_path(path),
        is_stored(v),
        text::trimmed(cmd).len() > 0,
        text::trimmed(cmd)[0] == 'a',
    ensures
        at::gathered(cmd, ls.push("^EFS: "@ + path + ", "@ + v)) == (at::Gathered {
            lines: at::gathered(cmd, ls).lines.push(shown_line(path, v)),
            ..at::gathered(cmd, ls)
        }),
{
    reveal_strlit("^EFS: ");
    reveal_strlit("OK");
    reveal_strlit("ERROR");
    reveal_strlit("+CME ERROR");
    reveal_strlit("+CMS ERROR");
    let x = "^EFS: "@ + path + ", "@ + v;
    let t = shown_line(path, v);
    assert(ls.push(x).drop_last() == ls);
    lemma_shown_line(path, v);
    assert(t[0] == '^');
    assert(text::lowercase(t)[0] == '^');
    assert(text::lowercase(text::trimmed(cmd))[0] == 'a');
    assert("ERROR"@[0] == 'E' && "OK"@[0] == 'O');
    assert("+CME ERROR"@[0] == '+' && "+CMS ERROR"@[0] == '+');
}

proof fn lemma_body_lines(path: Seq<char>, v: Seq<char>)
    requires
        is_plain_path(path),
        is_stored(v),
    ensures
        ({
            let x = "^EFS: "@ + path + ", "@ + v;
            let e = Seq::<char>::empty();
            let raw = "OK\r\n\r\n^EFS: "@ + path + ", "@ + v + "\r\nOK\r\n"@;
            text::line_list(at::feeds_for_returns(raw)) == seq!["OK"@, e, e, e, x, e, "OK"@, e]
        }),
{
    reveal_strlit("OK");
    reveal_strlit("^EFS: ");
    reveal_strlit(", ");
    reveal_strlit("OK\r\n\r\n^EFS: ");
    reveal_strlit("\r\nOK\r\n");
    let x = "^EFS: "@ + path + ", "@ + v;
    let e = Seq::<char>::empty();
    let nl = seq!['\n'];
    let raw = "OK\r\n\r\n^EFS: "@ + path + ", "@ + v + "\r\nOK\r\n"@;
    lemma_shown_line(path, v);
    let t8 = e + nl + e;
    let t7 = "OK"@ + nl + t8;
    let t6 = e + nl + t7;
    let t5 = x + nl + t6;
    let t4 = e + nl + t5;
    let t3 = e + nl + t4;
    let t2 = e + nl + t3;
    let t1 = "OK"@ + nl + t2;
    let f = at::feeds_for_returns(raw);
    assert(f.len() == t1.len());
    assert forall|i: int| 0 <= i < f.len() implies f[i] == t1[i] by {
        let k = x.len() as int;
        if 6 <= i < 6 + k {
            assert(raw[i] == x[i - 6]);
            assert(t1[i] == x[i - 6]);
            assert(x.contains(x[i - 6]));
        }
    }
    assert(f == t1);
    text::lemma_line(e, e);
    text::lemma_line("OK"@, t8);
    text::lemma_line(e, t7);
    text::lemma_line(x, t6);
    text::lemma_line(e, t5);
    text::lemma_line(e, t4);
    text::lemma_line(e, t3);
    text::lemma_line("OK"@, t2);
    assert(text::line_list(f) == seq!["OK"@, e, e, e, x, e, "OK"@, e]);
}

proof fn lemma_read_reply(cmd: Seq<char>, path: Seq<char>, v: Seq<char>)
    requires
        is_plain_path(path),
        is_stored(v),
        text::trimmed(cmd).len() > 2,
        text::trimmed(cmd)[0] == 'a',
    ensures
        ({
            let raw = "OK\r\n\r\n^EFS: "@ + path + ", "@ + v + "\r\nOK\r\n"@;
            at::reply_to(cmd, raw).body == shown_line(path, v) && at::reply_to(cmd, raw).ok
        }),
{
    let x = "^EFS: "@ + path + ", "@ + v;
    let e = Seq::<char>::empty();
    lemma_body_lines(path, v);
    let l0 = Seq::<Seq<char>>::empty();
    let l1 = l0.push("OK"@);
    let l2 = l1.push(e);
    let l3 = l2.push(e);
    let l4 = l3.push(e);
    let l5 = l4.push(x);
    let l6 = l5.push(e);
    let l7 = l6.push("OK"@);
    let l8 = l7.push(e);
    lemma_ok_line(cmd, l0);
    lemma_empty_line(cmd, l1);
    lemma_empty_line(cmd, l2);
    lemma_empty_line(cmd, l3);
    lemma_body_line(cmd, l4, path, v);
    lemma_empty_line(cmd, l5);
    lemma_ok_line(cmd, l6);
    lemma_empty_line(cmd, l7);
    assert(l8 == seq!["OK"@, e, e, e, x, e, "OK"@, e]);
    let t = shown_line(path, v);
    let lines = at::gathered(cmd, l8).lines;
    assert(lines == seq![t]);
    reveal_with_fuel(text::joined, 2);
    assert(text::joined(lines, "\n"@) == t);
}

proof fn lemma_without_blanks(v: Seq<char>)
    requires
        is_list_text(v),
    ensures
        modem::without_blanks(v) == v,
        modem::without_blanks(seq![' '] + v) == v,
    decreases v.len(),
{
    let s = seq![' '] + v;
    if v.len() == 0 {
        assert(s.drop_last() == v);
        reveal_with_fuel(modem::without_blanks, 2);
    } else {
        let init = v.drop_last();
        assert(text::is_hex_digit(v[v.len() - 1]) || v[v.len() - 1] == ',');
        assert forall|i: int| 0 <= i < init.len() implies text::is_hex_digit(#[trigger] init[i])
            || init[i] == ',' by {
            assert(init[i] == v[i]);
        }
        lemma_without_blanks(init);
        assert(s.drop_last() == seq![' '] + init);
        assert(init.push(v.last()) == v);
    }
}

proof fn lemma_file_shown(path: Seq<char>, v: Seq<char>)
    requires
        is_plain_path(path),
        is_stored(v),
    ensures
        modem::file_shown(shown_line(path, v)) == v,
{
    reveal_strlit("^EFS: ");
    reveal_strlit("EFS:");
    reveal_strlit(", ");
    let t = shown_line(path, v);
    lemma_shown_line(path, v);
    assert(t.last() != '\r') by {
        assert(t.contains(t.last()));
    }
    text::lemma_line(t, seq![]);
    let u = text::uppercase(t);
    text::lemma_occurrence(u, "EFS:"@);
    assert("EFS:"@.is_prefix_of(u.skip(1)));
    assert(text::occurs(u, "EFS:"@));
    assert(modem::efs_line(seq![t]) == Some(t));

    let data = if v.len() == 0 {
        seq![]
    } else {
        seq![' '] + v
    };
    let shown = seq![' '] + path + seq![','] + data;
    let head = seq!['^', 'E', 'F', 'S'];
    assert(t == head + seq![':'] + shown);
    assert(!head.contains(':'));
    text::lemma_piece(head, ':', shown);
    let named = seq![' '] + path;
    assert(!named.contains(',')) by {
        assert forall|i: int| 0 <= i < named.len() implies named[i] != ',' by {
            if i > 0 {
                assert(named[i] == path[i - 1]);
            }
        }
    }
    text::lemma_piece(named, ',', data);
    if v.len() > 0 {
        lemma_list_text(v);
    }
    lemma_without_blanks(v);
    if v.len() == 0 {
        reveal_with_fuel(modem::without_blanks, 2);
        assert(modem::without_blanks(data) == v);
        assert(text::lowercase(v) == v);
    }
}

/// What is written to a file of the made-up modem is what a read of it shows, and no other file
/// changes.
pub proof fn theorem_demo_write_then_read(
    files: Files,
    path: Seq<char>,
    bytes: Seq<char>,
    now: int,
)
    requires
        is_plain_path(path),
        is_stored(bytes),
    ensures
        ({
            let after = demo::files_after(files, modem::write_command(path, bytes));
            let reply = demo_answer(after, modem::read_command(path), now);
            &&& demo_answer(files, modem::write_command(path, bytes), now) is Ok
            &&& reply is Ok
            &&& modem::file_shown(reply->Ok_0.body) == bytes
            &&& demo::files_after(after, modem::read_command(path)) == after
            &&& forall|other: Seq<char>|
                other != path ==> #[trigger] demo::contents(after, other) == demo::contents(
                    files,
                    other,
                )
        }),
{
    let after = demo::files_after(files, modem::write_command(path, bytes));
    lemma_write_args(path, bytes);
    assert(demo::contents(after, path) == bytes);
    lemma_demo_read(after, path, now);
}

/// A read of a file of the made-up modem shows what it holds.
pub proof fn lemma_demo_read(files: Files, path: Seq<char>, now: int)
    requires
        is_plain_path(path),
        is_stored(demo::contents(files, path)),
    ensures
        demo_answer(files, modem::read_command(path), now) is Ok,
        modem::file_shown(demo_answer(files, modem::read_command(path), now)->Ok_0.body)
            == demo::contents(files, path),
        demo::files_after(files, modem::read_command(path)) == files,
{
    reveal_strlit("at^efs=\"");
    let v = demo::contents(files, path);
    let cmd = modem::read_command(path);
    lemma_read_args(path);
    assert(cmd[0] == 'a');
    lemma_read_reply(cmd, path, v);
    lemma_file_shown(path, v);
}

// ---------------------------------------------------------------------------
// Operations
// ---------------------------------------------------------------------------
/// An operation that is carried out on the made-up modem at the second `now`: each command it
/// sends is answered, up to `n` commands. What comes of it, and the files after it.
pub open spec fn carried_out<V>(
    op: spec_fn(Seq<Answer>) -> Move<V>,
    files: Files,
    now: int,
    rs: Seq<Answer>,
    n: nat,
) -> (Move<V>, Files)
    decreases n,
{
    match op(rs) {
        Move::Send(c) => if n > 0 {
            carried_out(
                op,
                demo::files_after(files, c),
                now,
                rs.push(demo_answer(files, c, now)),
                (n - 1) as nat,
            )
        } else {
            (op(rs), files)
        },
        _ => (op(rs), files),
    }
}

/// The two files of the locks hold nothing that they should not.
pub open spec fn has_sound_locks(files: Files) -> bool {
    is_stored(demo::contents(files, modem::EFS_EARFCN@)) && is_stored(
        demo::contents(files, modem::EFS_PCI@),
    )
}

pub proof fn lemma_paths()
    ensures
        is_plain_path(modem::EFS_EARFCN@),
        is_plain_path(modem::EFS_PCI@),
        modem::EFS_EARFCN@ != modem::EFS_PCI@,
{
    reveal_strlit("/nv/item_files/modem/lte/rrc/csp/earfcn_lock");
    reveal_strlit("/nv/item_files/modem/lte/rrc/csp/pci_lock");
    assert(modem::EFS_EARFCN@.len() != modem::EFS_PCI@.len());
}

proof fn lemma_two_writes(
    files: Files,
    first: (Seq<char>, Seq<char>),
    second: (Seq<char>, Seq<char>),
    now: int,
)
    requires
        is_plain_path(first.0),
        is_plain_path(second.0),
        first.0 != second.0,
        is_stored(first.1),
        is_stored(second.1),
    ensures
        ({
            let (outcome, after) = carried_out(
                |rs: Seq<Answer>| modem::two_writes(first, second, rs, seq![]),
                files,
                now,
                seq![],
                4,
            );
            &&& outcome == Move::Done(())
            &&& demo::contents(after, first.0) == first.1
            &&& demo::contents(after, second.0) == second.1
        }),
{
    let op = |rs: Seq<Answer>| modem::two_writes(first, second, rs, seq![]);
    let c1 = modem::write_command(first.0, first.1);
    let c2 = modem::read_command(first.0);
    let c3 = modem::write_command(second.0, second.1);
    let c4 = modem::read_command(second.0);
    let f1 = demo::files_after(files, c1);
    let f2 = demo::files_after(f1, c2);
    let f3 = demo::files_after(f2, c3);
    let f4 = demo::files_after(f3, c4);
    let a1 = demo_answer(files, c1, now);
    let a2 = demo_answer(f1, c2, now);
    let a3 = demo_answer(f2, c3, now);
    let a4 = demo_answer(f3, c4, now);
    theorem_demo_write_then_read(files, first.0, first.1, now);
    theorem_demo_write_then_read(f2, second.0, second.1, now);
    lemma_write_args(first.0, first.1);
    lemma_write_args(second.0, second.1);
    let r0 = Seq::<Answer>::empty();
    let r1 = r0.push(a1);
    let r2 = r1.push(a2);
    let r3 = r2.push(a3);
    let r4 = r3.push(a4);
    assert(op(r0) == Move::<()>::Send(c1));
    assert(op(r1) == Move::<()>::Send(c2));
    assert(r2.skip(2) == Seq::<Answer>::empty());
    assert(op(r2) == Move::<()>::Send(c3));
    assert(r3.skip(2) == seq![a3]);
    assert(op(r3) == Move::<()>::Send(c4));
    assert(r4.skip(2) == seq![a3, a4]);
    assert(op(r4) == Move::Done(()));
    reveal_with_fuel(carried_out, 6);
    assert(carried_out(op, files, now, r0, 4) == (Move::Done(()), f4));
    assert(demo::contents(f1, first.0) == first.1);
    assert(demo::contents(f3, first.0) == demo::contents(f2, first.0));
    assert(demo::contents(f3, second.0) == second.1);
}

proof fn lemma_read_locks(files: Files, now: int)
    requires
        has_sound_locks(files),
    ensures
        ({
            let outcome = carried_out(
                |rs: Seq<Answer>| modem::lock_reading(rs),
                files,
                now,
                seq![],
                2,
            ).0;
            let e = demo_answer(files, modem::read_command(modem::EFS_EARFCN@), now);
            let p = demo_answer(files, modem::read_command(modem::EFS_PCI@), now);
            &&& outcome == Move::Done(modem::locks_shown(e->Ok_0.body, p->Ok_0.body))
            &&& modem::file_shown(e->Ok_0.body) == demo::contents(files, modem::EFS_EARFCN@)
            &&& modem::file_shown(p->Ok_0.body) == demo::contents(files, modem::EFS_PCI@)
        }),
{
    lemma_paths();
    let op = |rs: Seq<Answer>| modem::lock_reading(rs);
    let c1 = modem::read_command(modem::EFS_EARFCN@);
    let c2 = modem::read_command(modem::EFS_PCI@);
    lemma_demo_read(files, modem::EFS_EARFCN@, now);
    lemma_demo_read(files, modem::EFS_PCI@, now);
    let e = demo_answer(files, c1, now);
    let p = demo_answer(files, c2, now);
    let r0 = Seq::<Answer>::empty();
    let r1 = r0.push(e);
    let r2 = r1.push(p);
    assert(op(r0) == Move::<Locks>::Send(c1));
    assert(op(r1) == Move::<Locks>::Send(c2));
    reveal_with_fuel(carried_out, 4);
    assert(carried_out(op, files, now, r0, 2).0 == op(r2));
}

pub proof fn lemma_le16_stored(v: int)
    requires
        0 <= v < 0x1_0000,
    ensures
        is_stored(modem::le16(v)),
        modem::le16(v).len() == 5,
{
    let t = modem::le16(v);
    modem_laws::lemma_hex_pair(v % 256);
    modem_laws::lemma_hex_pair(v / 256);
    let lo = numbers::hex_pair(v % 256);
    let hi = numbers::hex_pair(v / 256);
    modem_laws::lemma_le16_pieces(v);
    assert(modem::is_byte(lo) && modem::is_byte(hi));
    assert(text::lower_char(lo[0]) == lo[0] && text::lower_char(lo[1]) == lo[1]);
    assert(text::lower_char(hi[0]) == hi[0] && text::lower_char(hi[1]) == hi[1]);
    assert(text::lowercase(t) =~= t);
}

pub proof fn lemma_two_le16_stored(v: int, w: int)
    requires
        0 <= v < 0x1_0000,
        0 <= w < 0x1_0000,
    ensures
        is_stored(modem::le16(v) + seq![','] + modem::le16(w)),
{
    lemma_le16_stored(v);
    lemma_le16_stored(w);
    let a = modem::le16(v);
    let b = modem::le16(w);
    let bytes = a + seq![','] + b;
    text::lemma_pieces_concat(a, ',', b);
    let n = text::pieces(a, ',').len();
    assert forall|i: int| 0 <= i < text::pieces(bytes, ',').len() implies modem::is_byte(
        #[trigger] text::pieces(bytes, ',')[i],
    ) by {
        if i < n {
            assert(text::pieces(bytes, ',')[i] == text::pieces(a, ',')[i]);
        } else {
            assert(text::pieces(bytes, ',')[i] == text::pieces(b, ',')[i - n]);
        }
    }
    assert forall|i: int| 0 <= i < bytes.len() implies text::lower_char(#[trigger] bytes[i])
        == bytes[i] by {
        if i < 5 {
            assert(text::lowercase(a)[i] == a[i]);
        } else if i > 5 {
            assert(text::lowercase(b)[i - 6] == b[i - 6]);
        }
    }
    assert(text::lowercase(bytes) =~= bytes);
}

/// A carrier that is locked on the made-up modem is the lock that is read afterwards, whatever
/// was locked before.
pub proof fn theorem_demo_lock_earfcn(files: Files, earfcn: int, now: int, later: int)
    requires
        0 <= earfcn < 0x1_0000,
    ensures
        ({
            let (outcome, after) = carried_out(
                |rs: Seq<Answer>| modem::earfcn_locking(earfcn, rs, seq![]),
                files,
                now,
                seq![],
                4,
            );
            let shown = carried_out(
                |rs: Seq<Answer>| modem::lock_reading(rs),
                after,
                later,
                seq![],
                2,
            ).0;
            &&& outcome == Move::Done(())
            &&& shown == Move::Done(modem_laws::carrier_lock(earfcn))
            &&& !modem::in_conflict(modem_laws::carrier_lock(earfcn))
        }),
{
    lemma_paths();
    lemma_le16_stored(earfcn);
    let first = (modem::EFS_EARFCN@, modem::le16(earfcn));
    let second = (modem::EFS_PCI@, Seq::<char>::empty());
    lemma_two_writes(files, first, second, now);
    assert((|rs: Seq<Answer>| modem::earfcn_locking(earfcn, rs, seq![])) =~= (|rs: Seq<Answer>|
        modem::two_writes(first, second, rs, seq![])));
    let after = carried_out(
        |rs: Seq<Answer>| modem::earfcn_locking(earfcn, rs, seq![]),
        files,
        now,
        seq![],
        4,
    ).1;
    lemma_read_locks(after, later);
    let e = demo_answer(after, modem::read_command(modem::EFS_EARFCN@), later);
    let p = demo_answer(after, modem::read_command(modem::EFS_PCI@), later);
    modem_laws::theorem_earfcn_lock_is_shown(earfcn, e->Ok_0.body, p->Ok_0.body);
}

/// A cell that is locked on the made-up modem is the lock that is read afterwards, whatever was
/// locked before.
pub proof fn theorem_demo_lock_pci(files: Files, earfcn: int, pci: int, now: int, later: int)
    requires
        0 <= earfcn < 0x1_0000,
        0 <= pci <= 503,
    ensures
        ({
            let (outcome, after) = carried_out(
                |rs: Seq<Answer>| modem::pci_locking(earfcn, pci, rs, seq![]),
                files,
                now,
                seq![],
                4,
            );
            let shown = carried_out(
                |rs: Seq<Answer>| modem::lock_reading(rs),
                after,
                later,
                seq![],
                2,
            ).0;
            &&& outcome == Move::Done(())
            &&& shown == Move::Done(modem_laws::cell_lock(earfcn, pci))
            &&& !modem::in_conflict(modem_laws::cell_lock(earfcn, pci))
        }),
{
    lemma_paths();
    lemma_two_le16_stored(earfcn, pci);
    let first = modem::pci_file(earfcn, pci);
    let second = (modem::EFS_EARFCN@, Seq::<char>::empty());
    lemma_two_writes(files, first, second, now);
    assert((|rs: Seq<Answer>| modem::pci_locking(earfcn, pci, rs, seq![])) =~= (|rs: Seq<Answer>|
        modem::two_writes(first, second, rs, seq![])));
    let after = carried_out(
        |rs: Seq<Answer>| modem::pci_locking(earfcn, pci, rs, seq![]),
        files,
        now,
        seq![],
        4,
    ).1;
    lemma_read_locks(after, later);
    let e = demo_answer(after, modem::read_command(modem::EFS_EARFCN@), later);
    let p = demo_answer(after, modem::read_command(modem::EFS_PCI@), later);
    modem_laws::theorem_pci_lock_is_shown(earfcn, pci, e->Ok_0.body, p->Ok_0.body);
}

/// After the locks of the made-up modem were taken off, none is read.
pub proof fn theorem_demo_unlock(files: Files, now: int, later: int)
    ensures
        ({
            let (outcome, after) = carried_out(
                |rs: Seq<Answer>| modem::unlocking(rs, seq![]),
                files,
                now,
                seq![],
                4,
            );
            let shown = carried_out(
                |rs: Seq<Answer>| modem::lock_reading(rs),
                after,
                later,
                seq![],
                2,
            ).0;
            outcome == Move::Done(()) && shown == Move::Done(modem::unlocked())
        }),
{
    lemma_paths();
    let first = (modem::EFS_EARFCN@, Seq::<char>::empty());
    let second = (modem::EFS_PCI@, Seq::<char>::empty());
    lemma_two_writes(files, first, second, now);
    assert((|rs: Seq<Answer>| modem::unlocking(rs, seq![])) =~= (|rs: Seq<Answer>|
        modem::two_writes(first, second, rs, seq![])));
    let after = carried_out(
        |rs: Seq<Answer>| modem::unlocking(rs, seq![]),
        files,
        now,
        seq![],
        4,
    ).1;
    lemma_read_locks(after, later);
    let e = demo_answer(after, modem::read_command(modem::EFS_EARFCN@), later);
    let p = demo_answer(after, modem::read_command(modem::EFS_PCI@), later);
    modem_laws::theorem_no_lock_is_shown(e->Ok_0.body, p->Ok_0.body);
}

/// The made-up modem knows its commands in upper case, and answers anything else with an error.
pub proof fn theorem_demo_replies(u: Seq<char>, now: int)
    ensures
        demo::fixed_reply("ATI"@, now) == "Foxconn\r\nT77W968\r\nRevision: DEMO.0.0\r\nOK\r\n"@,
        demo::fixed_reply("ATE0"@, now) == "OK\r\n"@,
        demo::fixed_reply("AT+COPS?"@, now) == "+COPS: 0,0,\"DemoNet\",7\r\nOK\r\n"@,
        demo::fixed_reply("AT+CEREG?"@, now) == "+CEREG: 2,1\r\nOK\r\n"@,
        demo::fixed_reply("AT$QCRSRP?"@, now)
            == "$QCRSRP: 161,1575,-95,-10\r\n$QCRSRP: 57,2850,-88,-9\r\n$QCRSRP: 304,1300,-104,-14\r\nOK\r\n"@,
        demo::fixed_reply("AT+GTACT?"@, now) == "+GTACT: 2,,,8000084\r\nOK\r\n"@,
        demo::fixed_reply("AT+CFUN=1,1"@, now) == "OK\r\n"@,
        "AT+GTACT="@.is_prefix_of(u) ==> demo::fixed_reply(u, now) == "OK\r\n"@,
        u.len() < 3 || u[0] != 'A' || u[1] != 'T' ==> demo::fixed_reply(u, now) == "ERROR\r\n"@,
        u.len() > 11 && !"AT+GTACT="@.is_prefix_of(u) ==> demo::fixed_reply(u, now)
            == "ERROR\r\n"@,
{
    reveal_strlit("ATI");
    reveal_strlit("ATE0");
    reveal_strlit("AT^DEBUG?");
    reveal_strlit("AT+COPS?");
    reveal_strlit("AT+CEREG?");
    reveal_strlit("AT$QCRSRP?");
    reveal_strlit("AT+GTACT?");
    reveal_strlit("AT+CFUN=1,1");
    reveal_strlit("AT+GTACT=");
    assert("ATI"@.len() == 3 && "ATI"@[2] == 'I');
    assert("ATE0"@.len() == 4 && "ATE0"@[2] == 'E');
    assert("AT^DEBUG?"@.len() == 9 && "AT^DEBUG?"@[2] == '^');
    assert("AT+COPS?"@.len() == 8 && "AT+COPS?"@[2] == '+');
    assert("AT+CEREG?"@.len() == 9 && "AT+CEREG?"@[2] == '+');
    assert("AT$QCRSRP?"@.len() == 10 && "AT$QCRSRP?"@[2] == '$');
    assert("AT+GTACT?"@.len() == 9 && "AT+GTACT?"@[2] == '+');
    assert("AT+CFUN=1,1"@.len() == 11 && "AT+CFUN=1,1"@[2] == '+');
    assert("AT+GTACT="@.len() == 9 && "AT+GTACT="@[2] == '+');
    assert("AT^DEBUG?"@[3] == 'D' && "AT+CEREG?"@[3] == 'C' && "AT+GTACT?"@[3] == 'G');
    assert("AT+GTACT?"@[8] == '?' && "AT+GTACT="@[8] == '=' && "AT+GTACT="@[3] == 'G');
    assert("AT+COPS?"@[3] == 'C' && "AT+CFUN=1,1"@[3] == 'C');
    if "AT+GTACT="@.is_prefix_of(u) {
        assert(u[2] == "AT+GTACT="@[2] && u[3] == "AT+GTACT="@[3] && u[8] == "AT+GTACT="@[8]);
    }
    assert("ATI"@[0] == 'A' && "ATI"@[1] == 'T' && "ATE0"@[0] == 'A' && "ATE0"@[1] == 'T');
    assert("AT^DEBUG?"@[0] == 'A' && "AT^DEBUG?"@[1] == 'T' && "AT+COPS?"@[0] == 'A'
        && "AT+COPS?"@[1] == 'T');
    assert("AT+CEREG?"@[0] == 'A' && "AT+CEREG?"@[1] == 'T' && "AT$QCRSRP?"@[0] == 'A'
        && "AT$QCRSRP?"@[1] == 'T');
    assert("AT+GTACT?"@[0] == 'A' && "AT+GTACT?"@[1] == 'T' && "AT+CFUN=1,1"@[0] == 'A'
        && "AT+CFUN=1,1"@[1] == 'T');
    assert("AT+GTACT="@[0] == 'A' && "AT+GTACT="@[1] == 'T');
}

/// The signal of the made-up modem breathes: over eleven seconds the RSRP goes from -100 to -90
/// in steps of 1, and the SINR from 10 to 14 with it.
pub proof fn theorem_demo_signal(k: int, i: int)
    requires
        0 <= k,
        0 <= i <= 10,
    ensures
        demo::fixed_reply("AT^DEBUG?"@, 11 * k + i)
            == "EARFCN(DL/UL): 1575/19575\r\neNB ID(PCI): 25733-2(161)\r\nRSRP: "@
            + numbers::int_text(i - 100) + "\r\nRSRQ: -10\r\nSINR: "@ + numbers::int_text(
            if i <= 1 {
                10
            } else if i <= 3 {
                11
            } else if i <= 6 {
                12
            } else if i <= 8 {
                13
            } else {
                14
            },
        ) + "\r\nOK\r\n"@,
{
    reveal_strlit("ATI");
    reveal_strlit("ATE0");
    reveal_strlit("AT^DEBUG?");
    assert("ATI"@.len() == 3 && "ATE0"@.len() == 4 && "AT^DEBUG?"@.len() == 9);
    let now = 11 * k + i;
    assert(now % 11 == i) by {
        vstd::arithmetic::div_mod::lemma_fundamental_div_mod_converse(now, 11, k, i);
    }
}

/// Whatever is no command for files is answered without regard to case and to blanks around it,
/// and leaves the files as they are.
pub proof fn theorem_demo_commands(
    files: Files,
    before: Seq<char>,
    cmd: Seq<char>,
    after: Seq<char>,
    now: int,
)
    requires
        text_laws::is_blank(before),
        text_laws::is_blank(after),
        cmd.len() > 0,
        !text::is_white_space(cmd[0]),
        !text::is_white_space(cmd.last()),
        !"at^efs="@.is_prefix_of(cmd),
        !"AT^EFS="@.is_prefix_of(cmd),
    ensures
        demo::reply_text(files, before + cmd + after, now) == demo::fixed_reply(
            text::uppercase(cmd),
            now,
        ),
        demo::files_after(files, before + cmd + after) == files,
{
    text_laws::theorem_blanks_around(before, cmd, after);
}

/// The made-up Intel modem knows its commands in any case, and answers anything else with an
/// error. It keeps the last command that locks.
pub proof fn theorem_intel_demo_replies(cmd: Seq<char>, locked: Option<Seq<char>>)
    ensures
        ({
            let u = text::uppercase(text::trimmed(cmd));
            &&& u == "ATI"@ ==> demo::intel_reply(cmd)
                == "\".Built@Jun-17-2022:06:30:44\"\nOK\n"@
            &&& u == "ATE0"@ ==> demo::intel_reply(cmd) == "OK\n"@
            &&& u == "AT+CFUN=4"@ ==> demo::intel_reply(cmd) == "OK\n"@
            &&& u == "AT+CFUN=15"@ ==> demo::intel_reply(cmd) == "OK\n"@
            &&& u == "AT+XCESQ?"@ ==> demo::intel_reply(cmd)
                == "+XCESQ: 0,99,99,255,255,24,62,34,255,255,255,255\nOK\n"@
            &&& u == "AT+XLEC?"@ ==> demo::intel_reply(cmd)
                == "+XLEC: 0,4,5,5,4,3,BAND_LTE_3,0,7,1,3\nOK\n"@
            &&& u == "AT+COPS?"@ ==> demo::intel_reply(cmd)
                == "+COPS: 0,0,\"MegaFon\",7\nOK\n"@
            &&& u == "AT+CEREG?"@ ==> demo::intel_reply(cmd) == "+CEREG: 2,1\nOK\n"@
            &&& "AT@SIC:FREQ_LOCK"@.is_prefix_of(u) ==> demo::intel_reply(cmd) == "OK\n"@
                && demo::lock_after(locked, cmd) == Some(text::trimmed(cmd))
            &&& !"AT@SIC:FREQ_LOCK"@.is_prefix_of(u) ==> demo::lock_after(locked, cmd) == locked
            &&& u.len() > 10 && !"AT@SIC:FREQ_LOCK"@.is_prefix_of(u) ==> demo::intel_reply(cmd)
                == "+CME ERROR: 4\n"@
        }),
{
    reveal_strlit("ATI");
    reveal_strlit("ATE0");
    reveal_strlit("AT+CFUN=4");
    reveal_strlit("AT+CFUN=15");
    reveal_strlit("AT+XCESQ?");
    reveal_strlit("AT+XMCI=1");
    reveal_strlit("AT+XLEC?");
    reveal_strlit("AT+COPS?");
    reveal_strlit("AT+CEREG?");
    reveal_strlit("AT@SIC:FREQ_LOCK");
    assert("ATI"@.len() == 3 && "ATI"@[2] == 'I');
    assert("ATE0"@.len() == 4 && "ATE0"@[2] == 'E');
    assert("AT+CFUN=4"@.len() == 9 && "AT+CFUN=4"@[2] == '+');
    assert("AT+CFUN=15"@.len() == 10 && "AT+CFUN=15"@[2] == '+');
    assert("AT+XCESQ?"@.len() == 9 && "AT+XCESQ?"@[2] == '+');
    assert("AT+XMCI=1"@.len() == 9 && "AT+XMCI=1"@[2] == '+');
    assert("AT+XLEC?"@.len() == 8 && "AT+XLEC?"@[2] == '+');
    assert("AT+COPS?"@.len() == 8 && "AT+COPS?"@[2] == '+');
    assert("AT+CEREG?"@.len() == 9 && "AT+CEREG?"@[2] == '+');
    assert("AT@SIC:FREQ_LOCK"@.len() == 16 && "AT@SIC:FREQ_LOCK"@[2] == '@');
    assert("AT+CFUN=4"@[3] == 'C' && "AT+XCESQ?"@[3] == 'X' && "AT+XMCI=1"@[3] == 'X'
        && "AT+CEREG?"@[3] == 'C');
    assert("AT+CFUN=4"@[4] == 'F' && "AT+CEREG?"@[4] == 'E' && "AT+XCESQ?"@[4] == 'C'
        && "AT+XMCI=1"@[4] == 'M');
    assert("AT+XLEC?"@[3] == 'X' && "AT+COPS?"@[3] == 'C');
    let u = text::uppercase(text::trimmed(cmd));
    if "AT@SIC:FREQ_LOCK"@.is_prefix_of(u) {
        assert(u[2] == "AT@SIC:FREQ_LOCK"@[2]);
    }
}

/// A write of the length 0, with blanks around it or none, empties the file.
pub proof fn theorem_demo_empties(path: Seq<char>, before: Seq<char>, after: Seq<char>)
    requires
        !path.contains(','),
        text_laws::is_blank(before),
        text_laws::is_blank(after),
    ensures
        demo::efs_value(path + seq![','] + (before + seq!['0'] + after)).len() == 0,
        demo::efs_path(path + seq![','] + (before + seq!['0'] + after)) == text::unquoted(path),
{
    reveal_strlit("0");
    let t = before + seq!['0'] + after;
    assert(!t.contains(',')) by {
        assert forall|i: int| 0 <= i < t.len() implies t[i] != ',' by {
            if i < before.len() {
                assert(t[i] == before[i]);
            } else if i > before.len() {
                assert(t[i] == after[i - before.len() - 1]);
            }
        }
    }
    text::lemma_piece(path, ',', t);
    text::lemma_piece(t, ',', seq![]);
    text_laws::theorem_blanks_around(before, seq!['0'], after);
    assert(text::pieces(path + seq![','] + t, ',') == seq![path, t]);
    assert(seq!['0'] == "0"@);
}

} // verus!
