//! Laws of the search for a modem and of its replies.

use crate::at;
use crate::at::{Errand, Findings, Gathered, Quest, Reply, Route, SerialState};
use crate::demo::DemoState;
use crate::text;
use crate::text_laws;
use vstd::prelude::*;
use vstd::utf8::*;

verus! {

proof fn lemma_of_rank(names: Seq<Seq<char>>, r: int)
    ensures
        forall|i: int|
            0 <= i < at::of_rank(names, r).len() ==> at::rank(#[trigger] at::of_rank(names, r)[i])
                == r && names.contains(at::of_rank(names, r)[i]),
        forall|i: int|
            0 <= i < names.len() && at::rank(#[trigger] names[i]) == r ==> at::of_rank(
                names,
                r,
            ).contains(names[i]),
        names.no_duplicates() ==> at::of_rank(names, r).no_duplicates(),
    decreases names.len(),
{
    if names.len() > 0 {
        let init = names.drop_last();
        let before = at::of_rank(init, r);
        let all = at::of_rank(names, r);
        lemma_of_rank(init, r);
        assert forall|i: int| 0 <= i < all.len() implies at::rank(#[trigger] all[i]) == r
            && names.contains(all[i]) by {
            if i < before.len() {
                assert(all[i] == before[i]);
                let k = choose|k: int| 0 <= k < init.len() && init[k] == before[i];
                assert(names[k] == all[i]);
            } else {
                assert(names[names.len() - 1] == all[i]);
            }
        }
        assert forall|i: int| 0 <= i < names.len() && at::rank(#[trigger] names[i]) == r implies
            all.contains(names[i]) by {
            if i < init.len() {
                assert(init[i] == names[i]);
                let k = choose|k: int| 0 <= k < before.len() && before[k] == init[i];
                assert(all[k] == names[i]);
            } else {
                assert(all[all.len() - 1] == names[i]);
            }
        }
        if names.no_duplicates() {
            assert(init.no_duplicates());
            if at::rank(names.last()) == r {
                assert forall|i: int| 0 <= i < before.len() implies before[i] != names.last() by {
                    let k = choose|k: int| 0 <= k < init.len() && init[k] == before[i];
                    assert(names[k] == before[i]);
                }
            }
        }
    }
}

proof fn lemma_modem_names(ts: Seq<Seq<char>>)
    ensures
        at::modem_names(ts).no_duplicates(),
        forall|i: int|
            0 <= i < at::modem_names(ts).len() ==> at::names_modem(
                #[trigger] at::modem_names(ts)[i],
            ) && ts.contains(at::modem_names(ts)[i]),
        forall|i: int|
            0 <= i < ts.len() && at::names_modem(#[trigger] ts[i]) ==> at::modem_names(
                ts,
            ).contains(ts[i]),
    decreases ts.len(),
{
    if ts.len() > 0 {
        let init = ts.drop_last();
        let before = at::modem_names(init);
        let all = at::modem_names(ts);
        lemma_modem_names(init);
        assert forall|i: int| 0 <= i < all.len() implies at::names_modem(#[trigger] all[i])
            && ts.contains(all[i]) by {
            if i < before.len() {
                assert(all[i] == before[i]);
                let k = choose|k: int| 0 <= k < init.len() && init[k] == before[i];
                assert(ts[k] == all[i]);
            } else {
                assert(ts[ts.len() - 1] == all[i]);
            }
        }
        assert forall|i: int| 0 <= i < ts.len() && at::names_modem(#[trigger] ts[i]) implies
            all.contains(ts[i]) by {
            if i < init.len() {
                assert(init[i] == ts[i]);
                let k = choose|k: int| 0 <= k < before.len() && before[k] == init[i];
                assert(all[k] == ts[i]);
            } else if before.contains(ts[i]) {
                let k = choose|k: int| 0 <= k < before.len() && before[k] == ts[i];
                assert(all[k] == ts[i]);
            } else {
                assert(all[all.len() - 1] == ts[i]);
            }
        }
    }
}

/// The interfaces that are tried are those of modems, each once, and all that the listing
/// mentions.
pub proof fn theorem_modem_interfaces_are_listed_once(listing: Seq<char>)
    ensures
        forall|i: int|
            0 <= i < at::listed_names(listing).len() ==> at::names_modem(
                #[trigger] at::listed_names(listing)[i],
            ),
        at::listed_names(listing).no_duplicates(),
        forall|i: int|
            0 <= i < at::runs(listing).len() && at::names_modem(#[trigger] at::runs(listing)[i])
                ==> at::listed_names(listing).contains(at::runs(listing)[i]),
{
    let ts = at::runs(listing);
    let f = at::modem_names(ts);
    let a = at::of_rank(f, 0);
    let b = at::of_rank(f, 1);
    let c = at::of_rank(f, 2);
    let all = at::listed_names(listing);
    lemma_modem_names(ts);
    lemma_of_rank(f, 0);
    lemma_of_rank(f, 1);
    lemma_of_rank(f, 2);
    assert forall|i: int| 0 <= i < all.len() implies at::names_modem(#[trigger] all[i]) by {
        lemma_listed_part(a, b, c, i);
        assert(f.contains(all[i]));
        let k = choose|k: int| 0 <= k < f.len() && f[k] == all[i];
        assert(at::names_modem(f[k]));
    }
    assert forall|i: int, j: int| 0 <= i < j < all.len() implies all[i] != all[j] by {
        lemma_listed_part(a, b, c, i);
        lemma_listed_part(a, b, c, j);
    }
    assert forall|i: int| 0 <= i < ts.len() && at::names_modem(#[trigger] ts[i]) implies
        all.contains(ts[i]) by {
        assert(f.contains(ts[i]));
        let k = choose|k: int| 0 <= k < f.len() && f[k] == ts[i];
        let r = at::rank(f[k]);
        if r == 0 {
            let m = choose|m: int| 0 <= m < a.len() && a[m] == f[k];
            assert(all[m] == ts[i]);
        } else if r == 1 {
            let m = choose|m: int| 0 <= m < b.len() && b[m] == f[k];
            assert(all[a.len() + m] == ts[i]);
        } else {
            let m = choose|m: int| 0 <= m < c.len() && c[m] == f[k];
            assert(all[a.len() + b.len() + m] == ts[i]);
        }
    }
}

proof fn lemma_listed_part(a: Seq<Seq<char>>, b: Seq<Seq<char>>, c: Seq<Seq<char>>, i: int)
    requires
        0 <= i < (a + b + c).len(),
    ensures
        i < a.len() ==> (a + b + c)[i] == a[i],
        a.len() <= i < a.len() + b.len() ==> (a + b + c)[i] == b[i - a.len()],
        i >= a.len() + b.len() ==> (a + b + c)[i] == c[i - a.len() - b.len()],
{
}

/// QMI interfaces are tried before LTE interfaces, and those before the others.
pub proof fn theorem_qmi_interfaces_come_first(listing: Seq<char>, i: int, j: int)
    requires
        0 <= i <= j < at::listed_names(listing).len(),
    ensures
        at::rank(at::listed_names(listing)[i]) <= at::rank(at::listed_names(listing)[j]),
{
    let f = at::modem_names(at::runs(listing));
    let a = at::of_rank(f, 0);
    let b = at::of_rank(f, 1);
    let c = at::of_rank(f, 2);
    lemma_of_rank(f, 0);
    lemma_of_rank(f, 1);
    lemma_of_rank(f, 2);
    lemma_listed_part(a, b, c, i);
    lemma_listed_part(a, b, c, j);
}

/// Only a device that answered `OK` is settled on, and it is the first one that did.
pub proof fn theorem_only_live_devices(
    preferred: Option<Seq<char>>,
    replies: Seq<Option<Seq<char>>>,
)
    ensures
        at::serial_quest(preferred, replies) matches Quest::Done(Some(t)) ==> exists|i: int|
            0 <= i < replies.len() && i < at::serial_devices(preferred).len() && t == Route::Serial(
                at::serial_devices(preferred)[i],
            ) && at::is_live(#[trigger] replies[i]) && forall|j: int|
                0 <= j < i ==> !at::is_live(#[trigger] replies[j]),
{
    at::lemma_first_live(replies);
    let i = at::first_live(replies);
    if i < replies.len() {
        assert(at::is_live(replies[i]));
    }
}

/// An interface that was asked for is taken without asking it anything, unless a device was
/// asked for as well.
pub proof fn theorem_preferred_interface(iface: Seq<char>, known: Findings)
    ensures
        at::quest(Some(iface), None, known) == Quest::Done(Some(Route::Ndmc(iface))),
{
}

/// A device that was asked for is tried before all others, and no interface is tried.
pub proof fn theorem_preferred_device(iface: Option<Seq<char>>, dev: Seq<char>, known: Findings)
    requires
        known.device_replies@.len() == 0,
    ensures
        at::quest(iface, Some(dev), known) == Quest::TryDevice(dev),
{
    assert(known.device_replies.deep_view().len() == 0);
    assert(at::first_live(known.device_replies.deep_view()) == 0);
    assert(at::serial_devices(Some(dev))[0] == dev);
}

/// Whether a line is the echo of the command.
pub open spec fn is_echo(cmd: Seq<char>, t: Seq<char>) -> bool {
    text::same_ignoring_case(t, text::trimmed(cmd))
}

/// The body of a reply holds no blank line, no echo of the command, and no final result code.
pub proof fn theorem_body_is_what_is_left(cmd: Seq<char>, ls: Seq<Seq<char>>)
    ensures
        forall|i: int|
            0 <= i < at::gathered(cmd, ls).lines.len() ==> {
                let t = #[trigger] at::gathered(cmd, ls).lines[i];
                t.len() > 0 && !is_echo(cmd, t) && t != "OK"@ && !at::is_error_line(t)
            },
    decreases ls.len(),
{
    if ls.len() > 0 {
        theorem_body_is_what_is_left(cmd, ls.drop_last());
        let before = at::gathered(cmd, ls.drop_last()).lines;
        let all = at::gathered(cmd, ls).lines;
        assert forall|i: int| 0 <= i < all.len() implies {
            let t = #[trigger] all[i];
            t.len() > 0 && !is_echo(cmd, t) && t != "OK"@ && !at::is_error_line(t)
        } by {
            if i < before.len() {
                assert(all[i] == before[i]);
            }
        }
    }
}

/// A line of a reply that counts: not blank and not the echo of the command.
pub open spec fn is_line(cmd: Seq<char>, ls: Seq<Seq<char>>, i: int) -> bool {
    0 <= i < ls.len() && text::trimmed(ls[i]).len() > 0 && !is_echo(cmd, text::trimmed(ls[i]))
}

/// A reply is a success exactly if some line says `OK`, and it has an error exactly if some line
/// tells of one.
pub proof fn theorem_success_and_errors_are_told(cmd: Seq<char>, ls: Seq<Seq<char>>)
    ensures
        at::gathered(cmd, ls).ok <==> exists|i: int| #[trigger]
            is_line(cmd, ls, i) && text::trimmed(ls[i]) == "OK"@,
        at::gathered(cmd, ls).error is Some <==> exists|i: int| #[trigger]
            is_line(cmd, ls, i) && at::is_error_line(text::trimmed(ls[i])),
    decreases ls.len(),
{
    reveal_strlit("OK");
    reveal_strlit("ERROR");
    reveal_strlit("+CME ERROR");
    reveal_strlit("+CMS ERROR");
    assert("OK"@.len() == 2 && "ERROR"@.len() == 5);
    if ls.len() > 0 {
        let init = ls.drop_last();
        let n = ls.len() - 1;
        theorem_success_and_errors_are_told(cmd, init);
        assert forall|i: int| 0 <= i < n implies #[trigger] is_line(cmd, ls, i) == is_line(
            cmd,
            init,
            i,
        ) && ls[i] == init[i] by {}
        if at::gathered(cmd, init).ok {
            let i = choose|i: int| #[trigger]
                is_line(cmd, init, i) && text::trimmed(init[i]) == "OK"@;
            assert(is_line(cmd, ls, i));
        }
        if at::gathered(cmd, init).error is Some {
            let i = choose|i: int| #[trigger]
                is_line(cmd, init, i) && at::is_error_line(text::trimmed(init[i]));
            assert(is_line(cmd, ls, i));
        }
        if is_line(cmd, ls, n) {
            assert(ls[n] == ls.last());
        }
        if exists|i: int| #[trigger] is_line(cmd, ls, i) && text::trimmed(ls[i]) == "OK"@ {
            let i = choose|i: int| #[trigger]
                is_line(cmd, ls, i) && text::trimmed(ls[i]) == "OK"@;
            if i < n {
                assert(is_line(cmd, init, i));
            }
        }
        if exists|i: int| #[trigger]
            is_line(cmd, ls, i) && at::is_error_line(text::trimmed(ls[i])) {
            let i = choose|i: int| #[trigger]
                is_line(cmd, ls, i) && at::is_error_line(text::trimmed(ls[i]));
            if i < n {
                assert(is_line(cmd, init, i));
            }
        }
    }
}

// ---------------------------------------------------------------------------
// The search
// ---------------------------------------------------------------------------
/// Whether a text holds `OK`.
pub open spec fn holds_ok(reply: Seq<char>) -> bool {
    text::occurs(reply, "OK"@)
}

/// Without a preference, an interface is settled on only if it answered with `OK`, and it is the
/// first listed one that did. While none has, the next listed one is asked, and when all were
/// asked, or none could be listed, there is none.
pub proof fn theorem_only_answering_interfaces(bytes: Seq<u8>, replies: Seq<Seq<char>>)
    ensures
        ({
            let names = at::listed_names(text::lossy_text(bytes));
            let next = at::ndmc_quest(None, Some(Some(bytes)), replies);
            &&& next matches Quest::Done(Some(t)) ==> exists|i: int|
                0 <= i < replies.len() && i < names.len() && t == Route::Ndmc(names[i]) && holds_ok(
                    #[trigger] replies[i],
                ) && forall|j: int| 0 <= j < i ==> !holds_ok(#[trigger] replies[j])
            &&& (exists|i: int|
                0 <= i < replies.len() && i < names.len() && holds_ok(#[trigger] replies[i])) ==> (
            next matches Quest::Done(Some(_)))
            &&& (forall|i: int| 0 <= i < replies.len() ==> !holds_ok(#[trigger] replies[i])) ==> {
                next == (if replies.len() < names.len() {
                    Quest::TryIface(names[replies.len() as int])
                } else {
                    Quest::Done(None)
                })
            }
            &&& at::ndmc_quest(None, None, replies) == Quest::ListInterfaces
            &&& at::ndmc_quest(None, Some(None), replies) == Quest::Done(None)
        }),
{
    at::lemma_first_ok(replies);
    let i = at::first_ok(replies);
    if i < replies.len() {
        assert(holds_ok(replies[i]));
    }
}

/// Where no interface can be listed, or all were asked and none answered with `OK`, the search
/// goes on among the devices.
pub proof fn theorem_devices_come_after_interfaces(dev: Option<Seq<char>>, known: Findings)
    requires
        dev is None,
        match at::listing_view(known.listing) {
            None => false,
            Some(None) => true,
            Some(Some(bytes)) => {
                &&& known.iface_replies@.len() >= at::listed_names(text::lossy_text(bytes)).len()
                &&& forall|i: int|
                    0 <= i < known.iface_replies@.len() ==> !holds_ok(
                        (#[trigger] known.iface_replies@[i])@,
                    )
            },
        },
    ensures
        at::quest(None, dev, known) == at::serial_quest(None, known.device_replies.deep_view()),
{
    let replies = known.iface_replies.deep_view();
    match at::listing_view(known.listing) {
        Some(Some(bytes)) => {
            theorem_only_answering_interfaces(bytes, replies);
            assert forall|i: int| 0 <= i < replies.len() implies !holds_ok(
                #[trigger] replies[i],
            ) by {
                assert(replies[i] == known.iface_replies@[i]@);
            }
        },
        _ => {},
    }
}

/// The devices are asked one after the other, one that was asked for first, until one answers
/// `OK`; when none does, there is no modem.
pub proof fn theorem_devices_are_asked_in_order(
    preferred: Option<Seq<char>>,
    replies: Seq<Option<Seq<char>>>,
)
    ensures
        ({
            let devices = (match preferred {
                Some(p) => seq![p],
                None => seq![],
            }) + seq![
                "/dev/ttyACM0"@,
                "/dev/ttyACM1"@,
                "/dev/ttyACM2"@,
                "/dev/ttyACM3"@,
                "/dev/ttyUSB0"@,
                "/dev/ttyUSB1"@,
                "/dev/ttyUSB2"@,
                "/dev/ttyUSB3"@,
            ];
            let next = at::serial_quest(preferred, replies);
            let is_up = |r: Option<Seq<char>>| r matches Some(t) && holds_ok(t) && at::is_complete(t);
            &&& (forall|i: int| 0 <= i < replies.len() ==> !is_up(#[trigger] replies[i])) ==> {
                next == (if replies.len() < devices.len() {
                    Quest::TryDevice(devices[replies.len() as int])
                } else {
                    Quest::Done(None)
                })
            }
            &&& forall|k: int|
                0 <= k < replies.len() && k < devices.len() && is_up(#[trigger] replies[k]) && (forall|
                    i: int,
                |
                    0 <= i < k ==> !is_up(#[trigger] replies[i])) ==> next == Quest::Done(
                    Some(Route::Serial(devices[k])),
                )
        }),
{
    reveal_strlit("/dev/ttyACM");
    reveal_strlit("/dev/ttyUSB");
    reveal_strlit("/dev/ttyACM0");
    reveal_strlit("/dev/ttyACM1");
    reveal_strlit("/dev/ttyACM2");
    reveal_strlit("/dev/ttyACM3");
    reveal_strlit("/dev/ttyUSB0");
    reveal_strlit("/dev/ttyUSB1");
    reveal_strlit("/dev/ttyUSB2");
    reveal_strlit("/dev/ttyUSB3");
    let all = seq![
        "/dev/ttyACM0"@,
        "/dev/ttyACM1"@,
        "/dev/ttyACM2"@,
        "/dev/ttyACM3"@,
        "/dev/ttyUSB0"@,
        "/dev/ttyUSB1"@,
        "/dev/ttyUSB2"@,
        "/dev/ttyUSB3"@,
    ];
    let acm = "/dev/ttyACM"@;
    let usb = "/dev/ttyUSB"@;
    assert(at::device(acm, 0) =~= all[0]);
    assert(at::device(acm, 1) =~= all[1]);
    assert(at::device(acm, 2) =~= all[2]);
    assert(at::device(acm, 3) =~= all[3]);
    assert(at::device(usb, 0) =~= all[4]);
    assert(at::device(usb, 1) =~= all[5]);
    assert(at::device(usb, 2) =~= all[6]);
    assert(at::device(usb, 3) =~= all[7]);
    let before = match preferred {
        Some(p) => seq![p],
        None => Seq::<Seq<char>>::empty(),
    };
    assert(at::serial_devices(preferred) =~= before + all);
    at::lemma_first_live(replies);
    let is_up = |r: Option<Seq<char>>| r matches Some(t) && holds_ok(t) && at::is_complete(t);
    assert forall|i: int| 0 <= i < replies.len() implies at::is_live(#[trigger] replies[i]) == is_up(
        replies[i],
    ) by {}
    let f = at::first_live(replies);
    assert forall|k: int|
        0 <= k < replies.len() && is_up(#[trigger] replies[k]) && (forall|i: int|
            0 <= i < k ==> !is_up(#[trigger] replies[i])) implies f == k by {
        if f < k {
            assert(at::is_live(replies[f]));
            assert(!is_up(replies[f]));
        } else if f > k {
            assert(!at::is_live(replies[k]));
        }
    }
    if forall|i: int| 0 <= i < replies.len() ==> !is_up(#[trigger] replies[i]) {
        if f < replies.len() {
            assert(!is_up(replies[f]));
        }
    }
}

/// The names of interfaces with a modem are `UsbQmi`, `UsbLte` and `UsbModem` with a number, and
/// no others.
pub proof fn theorem_names_of_modems(stem: Seq<char>, number: Seq<char>, name: Seq<char>)
    requires
        stem == "UsbQmi"@ || stem == "UsbLte"@ || stem == "UsbModem"@,
    ensures
        at::names_modem(stem + number) <==> number.len() > 0 && forall|i: int|
            0 <= i < number.len() ==> '0' <= #[trigger] number[i] <= '9',
        at::names_modem(name) ==> "UsbQmi"@.is_prefix_of(name) || "UsbLte"@.is_prefix_of(name)
            || "UsbModem"@.is_prefix_of(name),
{
    reveal_strlit("UsbQmi");
    reveal_strlit("UsbLte");
    reveal_strlit("UsbModem");
    let full = stem + number;
    assert(stem.is_prefix_of(full));
    assert(full.skip(stem.len() as int) == number);
    assert(full[3] == stem[3]);
    assert("UsbQmi"@[3] == 'Q' && "UsbLte"@[3] == 'L' && "UsbModem"@[3] == 'M');
    assert(at::names_modem(full) == at::is_number(number));
    if at::is_number(number) {
        assert forall|i: int| 0 <= i < number.len() implies '0' <= #[trigger] number[i] <= '9' by {
            assert(text::is_digit(number[i]));
        }
    }
}

/// QMI interfaces are listed before all others, and LTE interfaces before those that are neither.
pub proof fn theorem_kinds_of_interfaces(listing: Seq<char>, i: int, j: int)
    requires
        0 <= i < j < at::listed_names(listing).len(),
    ensures
        "UsbQmi"@.is_prefix_of(at::listed_names(listing)[j]) ==> "UsbQmi"@.is_prefix_of(
            at::listed_names(listing)[i],
        ),
        "UsbLte"@.is_prefix_of(at::listed_names(listing)[j]) ==> "UsbQmi"@.is_prefix_of(
            at::listed_names(listing)[i],
        ) || "UsbLte"@.is_prefix_of(at::listed_names(listing)[i]),
{
    theorem_qmi_interfaces_come_first(listing, i, j);
}

/// Words with a separator after each of them.
pub open spec fn spaced(ws: Seq<Seq<char>>) -> Seq<char>
    decreases ws.len(),
{
    if ws.len() == 0 {
        seq![]
    } else {
        ws[0] + seq![' '] + spaced(ws.skip(1))
    }
}

proof fn lemma_run(w: Seq<char>, rest: Seq<char>)
    requires
        forall|i: int| 0 <= i < w.len() ==> text::is_alphanumeric(#[trigger] w[i]),
        rest.len() > 0 ==> !text::is_alphanumeric(rest[0]),
    ensures
        at::run_len(w + rest) == w.len(),
    decreases w.len(),
{
    let s = w + rest;
    if w.len() == 0 {
        assert(s == rest);
    } else {
        assert(s[0] == w[0]);
        assert(s.skip(1) == w.skip(1) + rest);
        assert forall|i: int| 0 <= i < w.skip(1).len() implies text::is_alphanumeric(
            #[trigger] w.skip(1)[i],
        ) by {
            assert(w.skip(1)[i] == w[i + 1]);
        }
        lemma_run(w.skip(1), rest);
    }
}

proof fn lemma_runs(ws: Seq<Seq<char>>)
    requires
        forall|k: int|
            0 <= k < ws.len() ==> (#[trigger] ws[k]).len() > 0 && forall|i: int|
                0 <= i < ws[k].len() ==> text::is_alphanumeric(#[trigger] ws[k][i]),
    ensures
        at::runs(spaced(ws)) == ws,
    decreases ws.len(),
{
    if ws.len() > 0 {
        let w = ws[0];
        let more = spaced(ws.skip(1));
        let tail = seq![' '] + more;
        let s = spaced(ws);
        assert(s == w + tail);
        lemma_run(w, tail);
        assert forall|k: int| 0 <= k < ws.skip(1).len() implies (#[trigger] ws.skip(1)[k]).len() > 0
            && forall|i: int|
            0 <= i < ws.skip(1)[k].len() ==> text::is_alphanumeric(#[trigger] ws.skip(1)[k][i]) by {
            assert(ws.skip(1)[k] == ws[k + 1]);
        }
        lemma_runs(ws.skip(1));
        assert(s.take(w.len() as int) == w);
        assert(s.skip(w.len() as int) == tail);
        assert(tail.skip(1) == more);
        assert(at::run_len(tail) == 0);
        assert(at::runs(tail) == at::runs(more));
        assert(seq![w] + ws.skip(1) == ws);
    } else {
        assert(at::runs(spaced(ws)) == ws);
    }
}

proof fn lemma_names_kept(ws: Seq<Seq<char>>, r: int)
    requires
        ws.no_duplicates(),
        forall|k: int|
            0 <= k < ws.len() ==> at::names_modem(#[trigger] ws[k]) && at::rank(ws[k]) == r,
    ensures
        at::modem_names(ws) == ws,
        at::of_rank(ws, r) == ws,
        forall|q: int| q != r ==> (#[trigger] at::of_rank(ws, q)).len() == 0,
    decreases ws.len(),
{
    if ws.len() > 0 {
        let init = ws.drop_last();
        assert forall|k: int| 0 <= k < init.len() implies at::names_modem(#[trigger] init[k])
            && at::rank(init[k]) == r by {
            assert(init[k] == ws[k]);
        }
        assert(init.no_duplicates());
        lemma_names_kept(init, r);
        assert(at::names_modem(ws[ws.len() - 1]) && at::rank(ws[ws.len() - 1]) == r);
        assert(!init.contains(ws.last())) by {
            assert forall|k: int| 0 <= k < init.len() implies init[k] != ws.last() by {
                assert(ws[k] != ws[ws.len() - 1]);
            }
        }
        assert(init.push(ws.last()) == ws);
        assert forall|q: int| q != r implies (#[trigger] at::of_rank(ws, q)).len() == 0 by {
            assert(at::of_rank(init, q).len() == 0);
        }
    }
}

/// Interfaces of one kind are tried in the order in which the router lists them, each of them.
pub proof fn theorem_listed_order_is_kept(ws: Seq<Seq<char>>, stem: Seq<char>)
    requires
        stem == "UsbQmi"@ || stem == "UsbLte"@ || stem == "UsbModem"@,
        ws.no_duplicates(),
        forall|k: int|
            0 <= k < ws.len() ==> stem.is_prefix_of(#[trigger] ws[k]) && ws[k].len() > stem.len(),
        forall|k: int, i: int|
            0 <= k < ws.len() && stem.len() <= i < ws[k].len() ==> '0' <= #[trigger] ws[k][i]
                <= '9',
    ensures
        at::listed_names(spaced(ws)) == ws,
{
    reveal_strlit("UsbQmi");
    reveal_strlit("UsbLte");
    reveal_strlit("UsbModem");
    let r: int = if stem == "UsbQmi"@ {
        0
    } else if stem == "UsbLte"@ {
        1
    } else {
        2
    };
    let n = stem.len() as int;
    assert("UsbQmi"@[3] == 'Q' && "UsbLte"@[3] == 'L' && "UsbModem"@[3] == 'M');
    assert forall|k: int| 0 <= k < ws.len() implies at::names_modem(#[trigger] ws[k]) && at::rank(
        ws[k],
    ) == r && ws[k].len() > 0 && forall|i: int|
        0 <= i < ws[k].len() ==> text::is_alphanumeric(#[trigger] ws[k][i]) by {
        let w = ws[k];
        let number = w.skip(n);
        assert(w == stem + number);
        assert forall|i: int| 0 <= i < number.len() implies '0' <= #[trigger] number[i] <= '9' by {
            assert(number[i] == ws[k][n + i]);
        }
        theorem_names_of_modems(stem, number, w);
        assert(w[3] == stem[3]);
        assert forall|i: int| 0 <= i < w.len() implies text::is_alphanumeric(#[trigger] w[i]) by {
            if i < n {
                assert(w[i] == stem[i]);
            } else {
                assert('0' <= ws[k][i] <= '9');
            }
        }
    }
    lemma_runs(ws);
    lemma_names_kept(ws, r);
    let f = at::modem_names(ws);
    assert(at::of_rank(f, 0) + at::of_rank(f, 1) + at::of_rank(f, 2) =~= ws);
}

// ---------------------------------------------------------------------------
// Replies
// ---------------------------------------------------------------------------
/// A line of a reply that belongs to its body.
pub open spec fn is_body_line(cmd: Seq<char>, t: Seq<char>) -> bool {
    &&& t.len() > 0
    &&& !text::is_white_space(t[0])
    &&& !text::is_white_space(t.last())
    &&& text_laws::is_in_line(t)
    &&& !is_echo(cmd, t)
    &&& t != "OK"@
    &&& t != "ERROR"@
    &&& !"+CME ERROR"@.is_prefix_of(t)
    &&& !"+CMS ERROR"@.is_prefix_of(t)
}

/// Two replies one after the other amount to both: the lines of both, success if either tells of
/// it, and the later error.
pub proof fn theorem_replies_add_up(cmd: Seq<char>, a: Seq<Seq<char>>, b: Seq<Seq<char>>)
    ensures
        at::gathered(cmd, a + b) == (Gathered {
            lines: at::gathered(cmd, a).lines + at::gathered(cmd, b).lines,
            ok: at::gathered(cmd, a).ok || at::gathered(cmd, b).ok,
            error: if at::gathered(cmd, b).error is Some {
                at::gathered(cmd, b).error
            } else {
                at::gathered(cmd, a).error
            },
        }),
    decreases b.len(),
{
    let x = at::gathered(cmd, a);
    let y = at::gathered(cmd, b);
    if b.len() == 0 {
        assert(a + b == a);
        assert(x.lines + y.lines == x.lines);
    } else {
        theorem_replies_add_up(cmd, a, b.drop_last());
        assert((a + b).drop_last() == a + b.drop_last());
        assert((a + b).last() == b.last());
        let z = at::gathered(cmd, b.drop_last());
        assert(x.lines + z.lines.push(text::trimmed(b.last())) == (x.lines + z.lines).push(
            text::trimmed(b.last()),
        ));
        assert(at::gathered(cmd, a + b).lines =~= x.lines + y.lines);
    }
}

proof fn lemma_body_lines(cmd: Seq<char>, ls: Seq<Seq<char>>)
    requires
        forall|i: int| 0 <= i < ls.len() ==> is_body_line(cmd, #[trigger] ls[i]),
    ensures
        at::gathered(cmd, with_blanks(ls)) == (Gathered { lines: ls, ok: false, error: None }),
    decreases ls.len(),
{
    if ls.len() > 0 {
        let init = ls.drop_last();
        let t = ls.last();
        let e = Seq::<char>::empty();
        assert(is_body_line(cmd, ls[ls.len() - 1]));
        assert forall|i: int| 0 <= i < init.len() implies is_body_line(cmd, #[trigger] init[i]) by {
            assert(init[i] == ls[i]);
        }
        lemma_body_lines(cmd, init);
        let all = with_blanks(ls);
        assert(all.drop_last() == with_blanks(init).push(t));
        assert(all.drop_last().drop_last() == with_blanks(init));
        assert(all.last() == e);
        text::lemma_trimmed_of_plain(e);
        text::lemma_trimmed_of_plain(t);
        reveal_with_fuel(at::gathered, 3);
        assert(init.push(t) == ls);
        assert(at::gathered(cmd, all).lines =~= ls);
    } else {
        assert(with_blanks(ls).len() == 0);
        assert(at::gathered(cmd, with_blanks(ls)).lines =~= ls);
    }
}

/// Lines with an empty one after each.
spec fn with_blanks(ls: Seq<Seq<char>>) -> Seq<Seq<char>>
    decreases ls.len(),
{
    if ls.len() == 0 {
        seq![]
    } else {
        with_blanks(ls.drop_last()).push(ls.last()).push(seq![])
    }
}

proof fn lemma_blanks_front(a: Seq<char>, ls: Seq<Seq<char>>)
    ensures
        with_blanks(seq![a] + ls) == seq![a, seq![]] + with_blanks(ls),
    decreases ls.len(),
{
    let all = seq![a] + ls;
    if ls.len() == 0 {
        assert(all.drop_last() == Seq::<Seq<char>>::empty());
        assert(all.last() == a);
        assert(with_blanks(Seq::<Seq<char>>::empty()).len() == 0);
        assert(with_blanks(all) =~= seq![a, seq![]] + with_blanks(ls));
    } else {
        lemma_blanks_front(a, ls.drop_last());
        assert(all.drop_last() == seq![a] + ls.drop_last());
        assert(with_blanks(all) =~= seq![a, seq![]] + with_blanks(ls));
    }
}

proof fn lemma_reply_lines(ls: Seq<Seq<char>>)
    requires
        forall|i: int| 0 <= i < ls.len() ==> text_laws::is_in_line(#[trigger] ls[i]),
    ensures
        text::line_list(
            at::feeds_for_returns(text_laws::with_ends(ls, seq!['\r', '\n'])),
        ) == with_blanks(ls),
    decreases ls.len(),
{
    let end = seq!['\r', '\n'];
    if ls.len() > 0 {
        let a = ls[0];
        let rest = ls.skip(1);
        assert(text_laws::is_in_line(ls[0]));
        assert forall|i: int| 0 <= i < rest.len() implies text_laws::is_in_line(
            #[trigger] rest[i],
        ) by {
            assert(rest[i] == ls[i + 1]);
        }
        lemma_reply_lines(rest);
        let tail = at::feeds_for_returns(text_laws::with_ends(rest, end));
        let s = at::feeds_for_returns(text_laws::with_ends(ls, end));
        let more = seq!['\n'] + tail;
        assert(s =~= a + seq!['\n'] + more) by {
            let raw = text_laws::with_ends(ls, end);
            assert(raw == a + end + text_laws::with_ends(rest, end));
            assert forall|i: int| 0 <= i < raw.len() implies s[i] == (a + seq!['\n'] + more)[i] by {
                if i < a.len() {
                    assert(raw[i] == a[i]);
                } else if i >= a.len() + 2 {
                    assert(raw[i] == text_laws::with_ends(rest, end)[i - a.len() - 2]);
                }
            }
        }
        assert(!a.contains('\n'));
        assert(a.len() > 0 ==> a[a.len() - 1] != '\r');
        text::lemma_line(a, more);
        let e = Seq::<char>::empty();
        text::lemma_line(e, tail);
        assert(e + seq!['\n'] + tail == more);
        lemma_blanks_front(a, rest);
        assert(seq![a] + rest == ls);
        assert(text::line_list(s) =~= with_blanks(ls));
    } else {
        assert(at::feeds_for_returns(text_laws::with_ends(ls, end)).len() == 0);
        assert(text::line_list(at::feeds_for_returns(text_laws::with_ends(ls, end)))
            =~= with_blanks(ls));
    }
}

/// A reply is taken apart as the modem put it together: an echo of the command or none, the lines
/// of the body, and a final result code. The body is those lines, all of them and in their order;
/// `OK` is a success without an error, and an error is told as it is written.
pub proof fn theorem_reply_is_taken_apart(
    cmd: Seq<char>,
    echo: bool,
    ls: Seq<Seq<char>>,
    code: Seq<char>,
)
    requires
        text::trimmed(cmd).len() > 0,
        text_laws::is_in_line(text::trimmed(cmd)),
        forall|i: int| 0 <= i < ls.len() ==> is_body_line(cmd, #[trigger] ls[i]),
        code == "OK"@ || code == "ERROR"@ || "+CME ERROR"@.is_prefix_of(code) || "+CMS ERROR"@.is_prefix_of(
            code,
        ),
        text_laws::is_in_line(code),
        !text::is_white_space(code.last()),
        !is_echo(cmd, code),
    ensures
        ({
            let raw = text_laws::with_ends(
                (if echo {
                    seq![text::trimmed(cmd)]
                } else {
                    seq![]
                }) + ls + seq![code],
                seq!['\r', '\n'],
            );
            at::reply_to(cmd, raw) == (Reply {
                body: text::joined(ls, "\n"@),
                raw,
                ok: code == "OK"@,
                error: if code == "OK"@ {
                    None
                } else {
                    Some(code)
                },
            })
        }),
{
    reveal_strlit("OK");
    reveal_strlit("ERROR");
    reveal_strlit("+CME ERROR");
    reveal_strlit("+CMS ERROR");
    let e = Seq::<char>::empty();
    let c = text::trimmed(cmd);
    let before = if echo {
        seq![c]
    } else {
        Seq::<Seq<char>>::empty()
    };
    let all = before + ls + seq![code];
    assert("+CME ERROR"@[0] == '+' && "+CMS ERROR"@[0] == '+');
    assert(code.len() > 0);
    assert(code[0] == 'O' || code[0] == 'E' || code[0] == '+');
    assert forall|i: int| 0 <= i < all.len() implies text_laws::is_in_line(#[trigger] all[i]) by {
        if i < before.len() {
        } else if i < before.len() + ls.len() {
            assert(all[i] == ls[i - before.len()]);
        }
    }
    lemma_reply_lines(all);
    lemma_body_lines(cmd, ls);
    text::lemma_trimmed_of_plain(e);
    text::lemma_trimmed_of_plain(code);
    // The last line.
    let last = with_blanks(seq![code]);
    lemma_blanks_front(code, seq![]);
    assert(seq![code] + Seq::<Seq<char>>::empty() == seq![code]);
    assert(with_blanks(Seq::<Seq<char>>::empty()).len() == 0);
    assert(last =~= seq![code, e]);
    reveal_with_fuel(at::gathered, 3);
    assert(last.drop_last() == seq![code]);
    assert(last.drop_last().drop_last() == Seq::<Seq<char>>::empty());
    let end = at::gathered(cmd, last);
    assert(end.lines =~= Seq::<Seq<char>>::empty());
    assert(end.ok == (code == "OK"@));
    assert(end.error == (if code == "OK"@ {
        None
    } else {
        Some(code)
    }));
    lemma_blanks_back(ls, code);
    theorem_replies_add_up(cmd, with_blanks(ls), last);
    let main = with_blanks(ls + seq![code]);
    if echo {
        lemma_blanks_front(c, ls + seq![code]);
        assert(seq![c] + (ls + seq![code]) == all);
        let first = seq![c, e];
        assert(first.drop_last() == seq![c]);
        assert(first.drop_last().drop_last() == Seq::<Seq<char>>::empty());
        lemma_trimmed_twice(cmd);
        assert(text::same_ignoring_case(text::trimmed(c), text::trimmed(cmd)));
        let g = at::gathered(cmd, first);
        assert(g.lines =~= Seq::<Seq<char>>::empty() && !g.ok && g.error is None);
        theorem_replies_add_up(cmd, first, main);
    } else {
        assert(all == ls + seq![code]);
    }
    assert(at::gathered(cmd, with_blanks(all)).lines =~= ls);
}

proof fn lemma_blanks_back(ls: Seq<Seq<char>>, code: Seq<char>)
    ensures
        with_blanks(ls + seq![code]) == with_blanks(ls) + with_blanks(seq![code]),
{
    let all = ls + seq![code];
    assert(all.drop_last() == ls);
    lemma_blanks_front(code, seq![]);
    assert(seq![code] + Seq::<Seq<char>>::empty() == seq![code]);
    assert(with_blanks(Seq::<Seq<char>>::empty()).len() == 0);
    assert(with_blanks(all) =~= with_blanks(ls) + with_blanks(seq![code]));
}

proof fn lemma_trimmed_twice(s: Seq<char>)
    ensures
        text::trimmed(text::trimmed(s)) == text::trimmed(s),
{
    text_laws::theorem_trimmed_is_the_text_without_blanks(s);
    text::lemma_trimmed_of_plain(text::trimmed(s));
}

/// Success is `OK`; without it the error that the modem told is the outcome, or that it did not
/// say `OK`.
pub proof fn theorem_outcome(r: Reply)
    ensures
        r.ok ==> at::outcome_of(r) is Ok,
        !r.ok && r.error is Some ==> at::outcome_of(r) == Err::<(), Seq<char>>(r.error->0),
        !r.ok && r.error is None ==> at::outcome_of(r) == Err::<(), Seq<char>>(
            "модем не ответил OK"@,
        ),
{
}

/// A reply from a device is complete as soon as one of its lines is a final result code, and not
/// before.
pub proof fn theorem_complete_reply(ls: Seq<Seq<char>>, end: Seq<char>)
    requires
        forall|i: int| 0 <= i < ls.len() ==> text_laws::is_in_line(#[trigger] ls[i]),
        end == seq!['\n'] || end == seq!['\r', '\n'],
    ensures
        at::is_complete(text_laws::with_ends(ls, end)) <==> exists|i: int|
            0 <= i < ls.len() && {
                let t = text::trimmed(#[trigger] ls[i]);
                t == "OK"@ || t == "ERROR"@ || t == "NO CARRIER"@ || "+CME ERROR"@.is_prefix_of(t)
                    || "+CMS ERROR"@.is_prefix_of(t)
            },
{
    let s = text_laws::with_ends(ls, end);
    text_laws::theorem_lines_are_read_back(ls, end);
    if at::is_complete(s) {
        let i = choose|i: int|
            0 <= i < text::line_list(s).len() && at::is_final_line(
                text::trimmed(#[trigger] text::line_list(s)[i]),
            );
        assert(text::line_list(s)[i] == ls[i]);
    }
    if exists|i: int|
        0 <= i < ls.len() && {
            let t = text::trimmed(#[trigger] ls[i]);
            t == "OK"@ || t == "ERROR"@ || t == "NO CARRIER"@ || "+CME ERROR"@.is_prefix_of(t)
                || "+CMS ERROR"@.is_prefix_of(t)
        } {
        let i = choose|i: int|
            0 <= i < ls.len() && {
                let t = text::trimmed(#[trigger] ls[i]);
                t == "OK"@ || t == "ERROR"@ || t == "NO CARRIER"@ || "+CME ERROR"@.is_prefix_of(t)
                    || "+CMS ERROR"@.is_prefix_of(t)
            };
        assert(at::is_final_line(text::trimmed(text::line_list(s)[i])));
    }
}

/// What a device delivers is put together piece by piece, and no piece is lost. Reading ends with
/// a final result code, after three reads in a row that brought nothing, or after two of them
/// once something has come; it does not end otherwise.
pub proof fn theorem_reading_from_a_device(s: SerialState, chunk: Seq<char>)
    requires
        0 <= s.empty_reads < 3,
        chunk.len() > 0,
        encode_utf8(chunk).len() > 0,
    ensures
        ({
            let more = at::after_read(s, encode_utf8(chunk));
            let silent = at::after_read(s, seq![]);
            let something = text::trimmed(s.read).len() > 0;
            &&& more.read == s.read + chunk
            &&& more.empty_reads == 0
            &&& at::reading_ends(more) <==> at::is_complete(s.read + chunk)
            &&& silent.read == s.read
            &&& silent.empty_reads == s.empty_reads + 1
            &&& at::reading_ends(silent) <==> (s.empty_reads == 2 || (s.empty_reads == 1
                && something))
        }),
{
    encode_utf8_valid_utf8(chunk);
    encode_utf8_decode_utf8(chunk);
}

/// How commands go out: to the router as a line of its command line, to a device with a carriage
/// return after them, and to a made-up modem, which answers at once.
pub proof fn theorem_commands_go_out(
    iface: Seq<char>,
    dev: Seq<char>,
    demo: DemoState,
    cmd: Seq<char>,
    timeout: int,
    now: int,
)
    ensures
        at::errand(Route::Ndmc(iface), demo, cmd, timeout, now) == Errand::Ndmc(
            "interface "@ + iface + " tty send "@ + cmd,
        ),
        at::errand(Route::Serial(dev), demo, cmd, timeout, now) == (Errand::Serial {
            dev,
            line: cmd + seq!['\r'],
            timeout,
        }),
        at::errand(Route::Mock, demo, cmd, timeout, now) == Errand::Answered(
            at::reply_to(cmd, crate::demo::reply_text(demo.files, cmd, now)),
        ),
        at::errand(Route::MockIntel, demo, cmd, timeout, now) == Errand::Answered(
            at::reply_to(cmd, crate::demo::intel_reply(cmd)),
        ),
        at::demo_after(Route::Ndmc(iface), demo, cmd) == demo,
        at::demo_after(Route::Serial(dev), demo, cmd) == demo,
        at::demo_after(Route::Mock, demo, cmd).locked == demo.locked,
        at::demo_after(Route::Mock, demo, cmd).files == crate::demo::files_after(demo.files, cmd),
        at::demo_after(Route::MockIntel, demo, cmd).files == demo.files,
        at::demo_after(Route::MockIntel, demo, cmd).locked == crate::demo::lock_after(
            demo.locked,
            cmd,
        ),
{
    assert(cmd.push('\r') =~= cmd + seq!['\r']);
}

/// What the router prints is what it said; only where it printed nothing but blanks, what it
/// printed as an error is.
pub proof fn theorem_what_the_router_said(out: Seq<char>, blank: Seq<char>, err: Seq<char>)
    requires
        text::trimmed(out).len() > 0,
        text_laws::is_blank(blank),
    ensures
        at::ndmc_said(encode_utf8(out), encode_utf8(err)) == out,
        at::ndmc_said(encode_utf8(blank), encode_utf8(err)) == err,
{
    encode_utf8_valid_utf8(out);
    encode_utf8_decode_utf8(out);
    encode_utf8_valid_utf8(blank);
    encode_utf8_decode_utf8(blank);
    encode_utf8_valid_utf8(err);
    encode_utf8_decode_utf8(err);
    let e = Seq::<char>::empty();
    text_laws::theorem_blanks_around(blank, e, e);
    assert(blank + e + e == blank);
}

/// How a transport is called: by its kind and by the name of the interface or of the device.
pub proof fn theorem_names_of_transports(name: Seq<char>)
    ensures
        at::route_name(Route::Ndmc(name)) == "ndmc:"@ + name,
        at::route_name(Route::Serial(name)) == "serial:"@ + name,
        at::route_name(Route::Mock) == "demo qualcomm (модем не подключён)"@,
        at::route_name(Route::MockIntel) == "demo intel (модем не подключён)"@,
{
}

/// What is sent to find a modem, and how many seconds there are for each kind of command.
pub proof fn theorem_times()
    ensures
        at::PROBE@ == "ATE0"@,
        at::PROBE_TIMEOUT == 2,
        at::READ_TIMEOUT == 5,
        at::READ_TIMEOUT_SLOW == 30,
{
}

} // verus!
