//! Laws of the modem: what holds of its operations taken together.

use crate::at::Reply;
use crate::modem;
use crate::modem::{Answer, Attempt, CapsView, Locks, Move, ProbedView, Search, Writing};
use crate::numbers;
use crate::signal;
use crate::signal::{Cell, Measure, SampleView, SignalView};
use crate::text;
use crate::text_laws;
use vstd::prelude::*;

verus! {

// ---------------------------------------------------------------------------
// Numbers in files
// ---------------------------------------------------------------------------
pub proof fn lemma_hex_pair(b: int)
    requires
        0 <= b < 256,
    ensures
        numbers::hex_pair(b).len() == 2,
        text::trimmed(numbers::hex_pair(b)) == numbers::hex_pair(b),
        numbers::unsigned(numbers::hex_pair(b), 16, 0xff) == Some(b),
        forall|i: int| 0 <= i < 2 ==> text::is_hex_digit(#[trigger] numbers::hex_pair(b)[i]),
        forall|i: int|
            0 <= i < 2 ==> text::lower_char(#[trigger] numbers::hex_pair(b)[i])
                == numbers::hex_pair(b)[i],
{
    let h = numbers::hex_pair(b);
    assert(!text::is_white_space(h[0]) && !text::is_white_space(h[1]));
    text::lemma_trimmed_of_plain(h);
    reveal_with_fuel(numbers::value_of, 3);
    assert(h.drop_last().drop_last().len() == 0);
    assert(h.drop_last().last() == h[0]);
    assert(h[0] != '+');
    assert(numbers::value_of(h, 16) == b);
}

pub proof fn lemma_le16_pieces(v: int)
    requires
        0 <= v < 0x1_0000,
    ensures
        text::pieces(modem::le16(v), ',') == seq![
            numbers::hex_pair(v % 256),
            numbers::hex_pair(v / 256),
        ],
        !numbers::hex_pair(v % 256).contains(','),
        !numbers::hex_pair(v / 256).contains(','),
{
    let lo = numbers::hex_pair(v % 256);
    let hi = numbers::hex_pair(v / 256);
    lemma_hex_pair(v % 256);
    lemma_hex_pair(v / 256);
    assert(!lo.contains(',')) by {
        assert(text::is_hex_digit(lo[0]) && text::is_hex_digit(lo[1]));
    }
    assert(!hi.contains(',')) by {
        assert(text::is_hex_digit(hi[0]) && text::is_hex_digit(hi[1]));
    }
    text::lemma_piece(lo, ',', hi);
    text::lemma_piece(hi, ',', seq![]);
    assert(seq![lo] + seq![hi] == seq![lo, hi]);
}

/// A number that was written as two bytes is read back.
pub proof fn theorem_le16_round_trip(v: int)
    requires
        0 <= v < 0x1_0000,
    ensures
        modem::le16_value(modem::le16(v)) == Some(v as u16),
{
    lemma_le16_pieces(v);
    lemma_hex_pair(v % 256);
    lemma_hex_pair(v / 256);
    assert(v / 256 * 256 + v % 256 == v);
}

// ---------------------------------------------------------------------------
// Locks
// ---------------------------------------------------------------------------
/// The lock of a carrier and no other.
pub open spec fn carrier_lock(earfcn: int) -> Locks {
    Locks {
        earfcn: Some(earfcn as u16),
        pci_earfcn: None,
        pci: None,
        raw_earfcn: Some(modem::le16(earfcn)),
        raw_pci: None,
    }
}

/// The lock of a cell on a carrier and no other.
pub open spec fn cell_lock(earfcn: int, pci: int) -> Locks {
    Locks {
        earfcn: None,
        pci_earfcn: Some(earfcn as u16),
        pci: Some(pci as u16),
        raw_earfcn: None,
        raw_pci: Some(modem::le16(earfcn) + seq![','] + modem::le16(pci)),
    }
}

/// A modem whose files are as they are after a carrier was locked shows that lock and no other.
pub proof fn theorem_earfcn_lock_is_shown(
    earfcn: int,
    earfcn_body: Seq<char>,
    pci_body: Seq<char>,
)
    requires
        0 <= earfcn < 0x1_0000,
        modem::file_shown(earfcn_body) == modem::le16(earfcn),
        modem::file_shown(pci_body) == Seq::<char>::empty(),
    ensures
        modem::locks_shown(earfcn_body, pci_body) == carrier_lock(earfcn),
        !modem::in_conflict(carrier_lock(earfcn)),
{
    theorem_le16_round_trip(earfcn);
    lemma_shown_is_not_empty(pci_body);
    lemma_le16_pieces(earfcn);
    assert(modem::le16(earfcn).len() > 0);
}

/// A modem whose files are as they are after a cell was locked shows that lock and no other.
pub proof fn theorem_pci_lock_is_shown(
    earfcn: int,
    pci: int,
    earfcn_body: Seq<char>,
    pci_body: Seq<char>,
)
    requires
        0 <= earfcn < 0x1_0000,
        0 <= pci < 0x1_0000,
        modem::file_shown(pci_body) == modem::le16(earfcn) + seq![','] + modem::le16(pci),
        modem::file_shown(earfcn_body) == Seq::<char>::empty(),
    ensures
        modem::locks_shown(earfcn_body, pci_body) == cell_lock(earfcn, pci),
        !modem::in_conflict(cell_lock(earfcn, pci)),
{
    let a = numbers::hex_pair(earfcn % 256);
    let b = numbers::hex_pair(earfcn / 256);
    let c = numbers::hex_pair(pci % 256);
    let d = numbers::hex_pair(pci / 256);
    let bytes = modem::le16(earfcn) + seq![','] + modem::le16(pci);
    lemma_le16_pieces(earfcn);
    lemma_le16_pieces(pci);
    text::lemma_pieces_concat(modem::le16(earfcn), ',', modem::le16(pci));
    let ps = text::pieces(bytes, ',');
    assert(ps == seq![a, b] + seq![c, d]);
    assert(ps.len() == 4 && ps[0] == a && ps[1] == b && ps[2] == c && ps[3] == d);
    theorem_le16_round_trip(earfcn);
    theorem_le16_round_trip(pci);
    lemma_shown_is_not_empty(earfcn_body);
}

/// The two files are shown independently of each other: a carrier in the one is shown whatever
/// the other holds, and so is a cell. With both there is a conflict, and with one of them there is
/// none.
pub proof fn theorem_files_are_shown_independently(
    earfcn: u16,
    on: u16,
    pci: u16,
    earfcn_body: Seq<char>,
    pci_body: Seq<char>,
)
    ensures
        ({
            let shown = modem::locks_shown(earfcn_body, pci_body);
            let carrier = modem::file_shown(earfcn_body) == modem::le16(earfcn as int);
            let cell = modem::file_shown(pci_body) == modem::le16(on as int) + seq![',']
                + modem::le16(pci as int);
            let no_carrier = modem::file_shown(earfcn_body) == Seq::<char>::empty();
            let no_cell = modem::file_shown(pci_body) == Seq::<char>::empty();
            &&& carrier ==> shown.earfcn == Some(earfcn) && shown.raw_earfcn == Some(
                modem::le16(earfcn as int),
            )
            &&& cell ==> shown.pci_earfcn == Some(on) && shown.pci == Some(pci) && shown.raw_pci
                == Some(modem::le16(on as int) + seq![','] + modem::le16(pci as int))
            &&& no_carrier ==> shown.earfcn is None && shown.raw_earfcn is None
            &&& no_cell ==> shown.pci is None && shown.pci_earfcn is None && shown.raw_pci is None
            &&& carrier && cell ==> modem::in_conflict(shown)
            &&& no_carrier || no_cell ==> !modem::in_conflict(shown)
        }),
{
    let e = earfcn as int;
    let bytes = modem::le16(on as int) + seq![','] + modem::le16(pci as int);
    theorem_le16_round_trip(e);
    theorem_le16_round_trip(on as int);
    theorem_le16_round_trip(pci as int);
    lemma_le16_pieces(e);
    lemma_le16_pieces(on as int);
    lemma_le16_pieces(pci as int);
    lemma_byte_lists(e, on as int, pci as int);
    lemma_shown_is_not_empty(earfcn_body);
    lemma_shown_is_not_empty(pci_body);
    assert(modem::le16(e).len() > 0);
    assert(bytes.len() > 0);
    let a = numbers::hex_pair(on as int % 256);
    let b = numbers::hex_pair(on as int / 256);
    let c = numbers::hex_pair(pci as int % 256);
    let d = numbers::hex_pair(pci as int / 256);
    text::lemma_pieces_concat(modem::le16(on as int), ',', modem::le16(pci as int));
    let ps = text::pieces(bytes, ',');
    assert(ps == seq![a, b] + seq![c, d]);
    assert(ps.len() == 4 && ps[0] == a && ps[1] == b && ps[2] == c && ps[3] == d);
}

proof fn lemma_byte_lists(v: int, on: int, pci: int)
    requires
        0 <= v < 0x1_0000,
        0 <= on < 0x1_0000,
        0 <= pci < 0x1_0000,
    ensures
        modem::is_byte_list(modem::le16(v)),
        modem::is_byte_list(modem::le16(on) + seq![','] + modem::le16(pci)),
{
    lemma_le16_pieces(v);
    lemma_le16_pieces(on);
    lemma_le16_pieces(pci);
    lemma_hex_pair(v % 256);
    lemma_hex_pair(v / 256);
    lemma_hex_pair(on % 256);
    lemma_hex_pair(on / 256);
    lemma_hex_pair(pci % 256);
    lemma_hex_pair(pci / 256);
    text::lemma_pieces_concat(modem::le16(on), ',', modem::le16(pci));
}

/// Two bytes stand for a number, the low one first, and a number is written as its two bytes in
/// hexadecimal digits, the low one first.
pub proof fn theorem_bytes_stand_low_first(low: int, high: int)
    requires
        0 <= low < 256,
        0 <= high < 256,
    ensures
        modem::le16(high * 256 + low) == numbers::hex_pair(low) + seq![','] + numbers::hex_pair(
            high,
        ),
        modem::le16_value(numbers::hex_pair(low) + seq![','] + numbers::hex_pair(high)) == Some(
            (high * 256 + low) as u16,
        ),
        numbers::unsigned(numbers::hex_pair(low), 16, 0xff) == Some(low),
        numbers::hex_pair(low).len() == 2,
{
    let v = high * 256 + low;
    assert(v % 256 == low && v / 256 == high) by (nonlinear_arith)
        requires
            v == high * 256 + low,
            0 <= low < 256,
    ;
    theorem_le16_round_trip(v);
    lemma_hex_pair(low);
}

/// Without locks, none is shown.
pub proof fn theorem_no_lock_is_shown(earfcn_body: Seq<char>, pci_body: Seq<char>)
    requires
        modem::file_shown(earfcn_body) == Seq::<char>::empty(),
        modem::file_shown(pci_body) == Seq::<char>::empty(),
    ensures
        modem::locks_shown(earfcn_body, pci_body) == modem::unlocked(),
{
    lemma_shown_is_not_empty(earfcn_body);
    lemma_shown_is_not_empty(pci_body);
}

proof fn lemma_shown_is_not_empty(body: Seq<char>)
    ensures
        modem::efs_bytes(body) is Some ==> modem::efs_bytes(body)->0.len() > 0,
{
    text::lemma_piece(seq![], ',', seq![]);
    assert(text::pieces(seq![], ',')[0] == Seq::<char>::empty());
    assert(!modem::is_byte_list(seq![]));
    if modem::efs_bytes(body) is Some && modem::efs_bytes(body)->0.len() == 0 {
        assert(modem::efs_bytes(body)->0 == Seq::<char>::empty());
    }
}

/// A file counts as written only if it was read back and held what was to be written. It takes
/// two attempts at the most, and one attempt to fall back.
pub proof fn theorem_written_is_read_back(
    path: Seq<char>,
    bytes: Seq<char>,
    rs: Seq<Answer>,
    sw: Seq<bool>,
)
    ensures
        modem::writing(path, bytes, rs, sw) matches Writing::Written { replies, switches } ==> {
            &&& replies == 2 || replies == 4
            &&& replies <= rs.len()
            &&& 0 <= switches <= 1
            &&& switches <= sw.len()
            &&& rs[replies - 1] is Ok
            &&& modem::file_shown(rs[replies - 1]->Ok_0.body) == bytes
        },
{
}

/// A lock is reported only if both files were read back as they should be.
pub proof fn theorem_locked_is_verified(
    first: (Seq<char>, Seq<char>),
    second: (Seq<char>, Seq<char>),
    rs: Seq<Answer>,
    sw: Seq<bool>,
)
    requires
        modem::two_writes(first, second, rs, sw) == Move::Done(()),
    ensures
        exists|i: int, j: int|
            #![trigger rs[i], rs[j]]
            0 <= i < j < rs.len() && i < 4 && j < 8 && rs[i] is Ok && rs[j] is Ok
                && modem::file_shown(rs[i]->Ok_0.body) == first.1 && modem::file_shown(
                rs[j]->Ok_0.body,
            ) == second.1,
{
    theorem_written_is_read_back(first.0, first.1, rs, sw);
    match modem::writing(first.0, first.1, rs, sw) {
        Writing::Written { replies, switches } => {
            theorem_written_is_read_back(
                second.0,
                second.1,
                rs.skip(replies),
                sw.skip(switches),
            );
            match modem::writing(second.0, second.1, rs.skip(replies), sw.skip(switches)) {
                Writing::Written { replies: more, switches: _ } => {
                    assert(rs.skip(replies)[more - 1] == rs[replies + more - 1]);
                    let i = replies - 1;
                    let j = replies + more - 1;
                    assert(rs[i] is Ok && rs[j] is Ok);
                },
                _ => {},
            }
        },
        _ => {},
    }
}

/// A cell out of range is refused before anything is sent.
pub proof fn theorem_cell_out_of_range(
    earfcn: int,
    pci: int,
    rs: Seq<Answer>,
    sw: Seq<bool>,
)
    requires
        pci > 503,
    ensures
        modem::pci_locking(earfcn, pci, rs, sw) is Failed,
{
}

// ---------------------------------------------------------------------------
// Probing
// ---------------------------------------------------------------------------
/// Whether the `i`th reply of a probe confirmed the command `c`: it was sent then, and the
/// reply shows that it works.
pub open spec fn confirmed_at(rs: Seq<Answer>, i: int, c: Seq<char>, cells: bool) -> bool {
    &&& 0 <= i < rs.len()
    &&& modem::probing(rs.take(i)) == Move::<ProbedView>::Send(c)
    &&& modem::confirms(rs[i], cells)
}

proof fn lemma_search(cands: Seq<Seq<char>>, rs: Seq<Answer>, cells: bool, i: int)
    requires
        0 <= i <= cands.len(),
        i <= rs.len(),
    ensures
        modem::search(cands, rs, cells, i) matches Search::Settled { found, used } ==> {
            &&& i <= used <= rs.len()
            &&& used <= cands.len()
            &&& forall|k: int|
                i <= k < used ==> #[trigger] modem::search(cands, rs.take(k), cells, i)
                    == Search::Ask(cands[k])
            &&& found matches Some(c) ==> used > i && c == cands[used - 1] && modem::confirms(
                rs[used - 1],
                cells,
            )
            &&& found is Some ==> forall|k: int|
                i <= k < used - 1 ==> !modem::confirms(#[trigger] rs[k], cells)
            &&& forall|more: Seq<Answer>|
                rs.take(used).is_prefix_of(more) ==> #[trigger] modem::search(cands, more, cells, i)
                    == modem::search(cands, rs, cells, i)
        },
    decreases cands.len() - i,
{
    if i < cands.len() && i < rs.len() {
        if !modem::confirms(rs[i], cells) {
            lemma_search(cands, rs, cells, i + 1);
            match modem::search(cands, rs, cells, i) {
                Search::Settled { found, used } => {
                    assert forall|k: int| i <= k < used implies #[trigger] modem::search(
                        cands,
                        rs.take(k),
                        cells,
                        i,
                    ) == Search::Ask(cands[k]) by {
                        if k > i {
                            assert(rs.take(k)[i] == rs[i]);
                            assert(modem::search(cands, rs.take(k), cells, i + 1)
                                == Search::Ask(cands[k]));
                        }
                    }
                    assert forall|more: Seq<Answer>|
                        rs.take(used).is_prefix_of(more) implies #[trigger] modem::search(
                        cands,
                        more,
                        cells,
                        i,
                    ) == modem::search(cands, rs, cells, i) by {
                        assert(rs.take(used)[i] == rs[i]);
                        assert(more[i] == rs[i]);
                        assert(modem::search(cands, more, cells, i + 1) == modem::search(
                            cands,
                            rs,
                            cells,
                            i + 1,
                        ));
                    }
                },
                _ => {},
            }
        } else {
            assert forall|more: Seq<Answer>|
                rs.take(i + 1).is_prefix_of(more) implies #[trigger] modem::search(
                cands,
                more,
                cells,
                i,
            ) == modem::search(cands, rs, cells, i) by {
                assert(rs.take(i + 1)[i] == rs[i]);
                assert(more[i] == rs[i]);
            }
        }
    }
}

/// Every command that is offered was sent in the probe and its reply showed that it works.
#[verifier::spinoff_prover]
#[verifier::rlimit(60)]
pub proof fn theorem_only_confirmed_commands(rs: Seq<Answer>, p: ProbedView)
    requires
        modem::probing(rs) == Move::Done(p),
    ensures
        p.caps.serving matches Some(c) ==> exists|i: int| confirmed_at(rs, i, c, false),
        p.caps.neighbors matches Some(c) ==> exists|i: int| confirmed_at(rs, i, c, true),
        p.caps.bands_query matches Some(c) ==> exists|i: int| confirmed_at(rs, i, c, false),
        p.caps.bands_set is Some ==> p.caps.bands_query is Some,
        p.caps.efs == modem::efs_works(rs[1]),
{
    let serving = modem::serving_candidates();
    let neighbors = modem::neighbor_candidates();
    let bands = modem::band_candidates();
    let r1 = rs.skip(2);
    lemma_search(serving, r1, false, 0);
    match modem::search(serving, r1, false, 0) {
        Search::Ask(_) => {},
        Search::Settled { found: f1, used: a } => {
            let r2 = rs.skip(2 + a);
            lemma_search(neighbors, r2, true, 0);
            if f1 is Some {
                let i = 2 + a - 1;
                assert(rs.take(i).skip(2) == r1.take(a - 1));
                assert(modem::search(serving, r1.take(a - 1), false, 0) == Search::Ask(
                    serving[a - 1],
                ));
                assert(rs[i] == r1[a - 1]);
                assert(confirmed_at(rs, i, f1->0, false));
            }
            match modem::search(neighbors, r2, true, 0) {
                Search::Ask(_) => {},
                Search::Settled { found: f2, used: b } => {
                    let r3 = rs.skip(2 + a + b);
                    lemma_search(bands, r3, false, 0);
                    if f2 is Some {
                        let i = 2 + a + b - 1;
                        assert(rs.take(i).skip(2 + a) == r2.take(b - 1));
                        assert(r1.take(a).is_prefix_of(rs.take(i).skip(2)));
                        assert(modem::search(neighbors, r2.take(b - 1), true, 0) == Search::Ask(
                            neighbors[b - 1],
                        ));
                        assert(rs[i] == r2[b - 1]);
                        assert(confirmed_at(rs, i, f2->0, true));
                    }
                    match modem::search(bands, r3, false, 0) {
                        Search::Ask(_) => {},
                        Search::Settled { found: f3, used: c } => {
                            if f3 is Some {
                                let i = 2 + a + b + c - 1;
                                assert(rs.take(i).skip(2 + a + b) == r3.take(c - 1));
                                assert(r1.take(a).is_prefix_of(rs.take(i).skip(2)));
                                assert(r2.take(b).is_prefix_of(rs.take(i).skip(2 + a)));
                                assert(modem::search(bands, r3.take(c - 1), false, 0)
                                    == Search::Ask(bands[c - 1]));
                                assert(rs[i] == r3[c - 1]);
                                assert(confirmed_at(rs, i, f3->0, false));
                            }
                        },
                    }
                },
            }
        },
    }
}

// ---------------------------------------------------------------------------
// History
// ---------------------------------------------------------------------------
/// The history after some samples.
pub open spec fn history_of(xs: Seq<SampleView<Measure>>) -> Seq<SampleView<Measure>>
    decreases xs.len(),
{
    if xs.len() == 0 {
        seq![]
    } else {
        modem::recorded(history_of(xs.drop_last()), xs.last())
    }
}

/// The history holds the latest samples, in the order in which they came, and no more than it
/// has room for.
pub proof fn theorem_history_is_the_latest(xs: Seq<SampleView<Measure>>)
    ensures
        xs.len() <= modem::HISTORY_CAP ==> history_of(xs) == xs,
        xs.len() > modem::HISTORY_CAP ==> history_of(xs) == xs.skip(
            xs.len() - modem::HISTORY_CAP,
        ),
    decreases xs.len(),
{
    if xs.len() > 0 {
        let before = xs.drop_last();
        theorem_history_is_the_latest(before);
        assert(before.push(xs.last()) == xs);
        if xs.len() > modem::HISTORY_CAP {
            assert(history_of(xs) == xs.skip(xs.len() - modem::HISTORY_CAP));
        }
    }
}

/// The sample that is kept has the moment and the measurements of the signal, each in its place,
/// and stands last. What was kept before stays in its order; only a full history of 720 samples
/// loses its oldest one.
pub proof fn theorem_sample_is_kept(
    h: Seq<SampleView<Measure>>,
    s: SignalView<Measure>,
    ts: int,
)
    ensures
        ({
            let after = modem::recorded(h, modem::sample_of(s, ts));
            &&& after.len() > 0
            &&& after.last().ts == ts
            &&& after.last().rsrp == s.rsrp
            &&& after.last().rsrq == s.rsrq
            &&& after.last().sinr == s.sinr
            &&& h.len() < 720 ==> after.drop_last() == h
            &&& h.len() >= 720 ==> after.drop_last() == h.skip(1)
        }),
{
    let after = modem::recorded(h, modem::sample_of(s, ts));
    if h.len() < 720 {
        assert(after.drop_last() =~= h);
    } else {
        assert(after.drop_last() =~= h.skip(1));
    }
}

// ---------------------------------------------------------------------------
// Commands
// ---------------------------------------------------------------------------
/// The command that writes bytes to a file names the file, the number of bytes and the bytes.
pub open spec fn write_of(path: Seq<char>, count: Seq<char>, bytes: Seq<char>) -> Seq<char> {
    "at^efs=\""@ + path + "\","@ + count + ",\""@ + bytes + "\""@
}

/// To lock a carrier, its number is written to the file of carriers as two bytes; to lock a cell,
/// both numbers are written to the file of cells as four bytes; to take the locks off, the file of
/// carriers is emptied first.
pub proof fn theorem_first_commands(earfcn: u16, pci: u16)
    ensures
        modem::earfcn_locking(earfcn as int, seq![], seq![]) == Move::<()>::Send(
            write_of(
                "/nv/item_files/modem/lte/rrc/csp/earfcn_lock"@,
                "2"@,
                numbers::hex_pair(earfcn as int % 256) + seq![','] + numbers::hex_pair(
                    earfcn as int / 256,
                ),
            ),
        ),
        pci <= 503 ==> modem::pci_locking(earfcn as int, pci as int, seq![], seq![]) == Move::<
            (),
        >::Send(
            write_of(
                "/nv/item_files/modem/lte/rrc/csp/pci_lock"@,
                "4"@,
                numbers::hex_pair(earfcn as int % 256) + seq![','] + numbers::hex_pair(
                    earfcn as int / 256,
                ) + seq![','] + (numbers::hex_pair(pci as int % 256) + seq![',']
                    + numbers::hex_pair(pci as int / 256)),
            ),
        ),
        pci > 503 ==> modem::pci_locking(earfcn as int, pci as int, seq![], seq![]) == Move::<
            (),
        >::Failed("PCI "@ + numbers::decimal(pci as nat) + " вне диапазона 0..503"@),
        modem::unlocking(seq![], seq![]) == Move::<()>::Send(
            "at^efs=\"/nv/item_files/modem/lte/rrc/csp/earfcn_lock\",0"@,
        ),
        modem::lock_reading(seq![]) == Move::<Locks>::Send(
            "at^efs=\"/nv/item_files/modem/lte/rrc/csp/earfcn_lock\""@,
        ),
        modem::resetting(seq![]) == Move::<()>::SendSlow("at+cfun=1,1"@),
{
    reveal_strlit("at^efs=\"");
    reveal_strlit("\"");
    reveal_strlit("\",0");
    reveal_strlit("2");
    reveal_strlit("4");
    reveal_strlit("/nv/item_files/modem/lte/rrc/csp/earfcn_lock");
    reveal_strlit("at^efs=\"/nv/item_files/modem/lte/rrc/csp/earfcn_lock\",0");
    reveal_strlit("at^efs=\"/nv/item_files/modem/lte/rrc/csp/earfcn_lock\"");
    let e = earfcn as int;
    let p = pci as int;
    lemma_le16_pieces(e);
    lemma_le16_pieces(p);
    text::lemma_pieces_concat(modem::le16(e), ',', modem::le16(p));
    assert(modem::le16(e).len() > 0);
    assert(numbers::decimal(2) == "2"@);
    assert(numbers::decimal(4) == "4"@);
    assert(modem::EFS_EARFCN@.len() > 0);
    assert(modem::write_command(modem::EFS_EARFCN@, seq![])
        == "at^efs=\"/nv/item_files/modem/lte/rrc/csp/earfcn_lock\",0"@);
    assert(modem::read_command(modem::EFS_EARFCN@)
        == "at^efs=\"/nv/item_files/modem/lte/rrc/csp/earfcn_lock\""@);
}

/// What comes next when something was sent and an error came back in place of a reply: the
/// operation fails with that error.
pub proof fn theorem_errors_end_operations(
    first: (Seq<char>, Seq<char>),
    second: (Seq<char>, Seq<char>),
    caps: CapsView,
    cmd: Seq<char>,
    mask: Seq<char>,
    rs: Seq<Answer>,
    sw: Seq<bool>,
    e: Seq<char>,
)
    ensures
        modem::two_writes(first, second, rs, sw) is Send ==> modem::two_writes(
            first,
            second,
            rs.push(Err(e)),
            sw,
        ) == Move::<()>::Failed(e),
        modem::lock_reading(rs) is Send ==> modem::lock_reading(rs.push(Err(e))) == Move::<
            Locks,
        >::Failed(e),
        modem::resetting(seq![Err(e)]) == Move::<()>::Failed(e),
        modem::sending(cmd, seq![Err(e)]) == Move::<Reply>::Failed(e),
        caps.neighbors is Some ==> modem::scanning(caps, seq![Err(e)]) == Move::<
            Seq<Cell<Measure>>,
        >::Failed(e),
        caps.bands_query is Some ==> modem::band_reading(caps, seq![Err(e)]) == Move::<
            Seq<char>,
        >::Failed(e),
        modem::band_setting(caps, mask, seq![]) is Send ==> modem::band_setting(
            caps,
            mask,
            seq![Err(e)],
        ) == Move::<()>::Failed(e),
{
    let a: Answer = Err(e);
    let more = rs.push(a);
    if modem::two_writes(first, second, rs, sw) is Send {
        lemma_writing_error(first.0, first.1, rs, sw, e);
        match modem::writing(first.0, first.1, rs, sw) {
            Writing::Written { replies, switches } => {
                lemma_writing_goes_on(first.0, first.1, rs, sw, a);
                assert(more.skip(replies) == rs.skip(replies).push(a));
                lemma_writing_error(second.0, second.1, rs.skip(replies), sw.skip(switches), e);
            },
            _ => {},
        }
    }
    if modem::lock_reading(rs) is Send {
        assert(rs.len() == 0 || rs.len() == 1);
        assert(more[rs.len() as int] == a);
        assert(rs.len() == 1 ==> more[0] == rs[0]);
    }
}

proof fn lemma_attempt(path: Seq<char>, bytes: Seq<char>, rs: Seq<Answer>, a: Answer)
    ensures
        modem::attempt(path, bytes, rs) is Ask && a is Err ==> modem::attempt(
            path,
            bytes,
            rs.push(a),
        ) == Attempt::Broken(a->Err_0),
        !(modem::attempt(path, bytes, rs) is Ask) ==> modem::attempt(path, bytes, rs.push(a))
            == modem::attempt(path, bytes, rs),
        modem::attempt(path, bytes, rs) is Checked ==> rs.len() >= 2,
{
    let more = rs.push(a);
    assert(forall|i: int| 0 <= i < rs.len() ==> more[i] == rs[i]);
    assert(more[rs.len() as int] == a);
}

proof fn lemma_writing_error(
    path: Seq<char>,
    bytes: Seq<char>,
    rs: Seq<Answer>,
    sw: Seq<bool>,
    e: Seq<char>,
)
    ensures
        modem::writing(path, bytes, rs, sw) is Ask ==> modem::writing(
            path,
            bytes,
            rs.push(Err(e)),
            sw,
        ) == Writing::Failed(e),
{
    let a: Answer = Err(e);
    lemma_attempt(path, bytes, rs, a);
    if modem::attempt(path, bytes, rs) is Checked {
        assert(rs.push(a).skip(2) == rs.skip(2).push(a));
        lemma_attempt(path, bytes, rs.skip(2), a);
    }
}

proof fn lemma_writing_goes_on(
    path: Seq<char>,
    bytes: Seq<char>,
    rs: Seq<Answer>,
    sw: Seq<bool>,
    a: Answer,
)
    ensures
        modem::writing(path, bytes, rs, sw) is Written ==> {
            &&& modem::writing(path, bytes, rs.push(a), sw) == modem::writing(path, bytes, rs, sw)
            &&& modem::writing(path, bytes, rs, sw)->replies <= rs.len()
        },
{
    lemma_attempt(path, bytes, rs, a);
    if modem::attempt(path, bytes, rs) is Checked {
        assert(rs.push(a).skip(2) == rs.skip(2).push(a));
        lemma_attempt(path, bytes, rs.skip(2), a);
    }
}

/// A file that is read back as it was written is done with; one that is not asks for the other
/// port, and where there is none, or where it is not as it should be there either, the operation
/// fails and names the file.
pub proof fn theorem_read_back_decides(
    path: Seq<char>,
    bytes: Seq<char>,
    w: Reply,
    r: Reply,
    w2: Reply,
    r2: Reply,
)
    ensures
        ({
            let once = seq![Ok::<Reply, Seq<char>>(w), Ok::<Reply, Seq<char>>(r)];
            let twice = once + seq![Ok::<Reply, Seq<char>>(w2), Ok::<Reply, Seq<char>>(r2)];
            let same = modem::file_shown(r.body) == bytes;
            let same_again = modem::file_shown(r2.body) == bytes;
            let failed = Writing::Failed(
                "не удалось записать "@ + path + ": в модеме оказалось не то, что ожидалось"@,
            );
            &&& same ==> modem::writing(path, bytes, once, seq![]) == (Writing::Written {
                replies: 2,
                switches: 0,
            })
            &&& !same ==> modem::writing(path, bytes, once, seq![]) == Writing::Fallback
            &&& !same ==> modem::writing(path, bytes, once, seq![false]) == failed
            &&& !same ==> modem::writing(path, bytes, once, seq![true]) == modem::writing(
                path,
                bytes,
                seq![],
                seq![],
            )
            &&& !same && same_again ==> modem::writing(path, bytes, twice, seq![true]) == (
            Writing::Written { replies: 4, switches: 1 })
            &&& !same && !same_again ==> modem::writing(path, bytes, twice, seq![true]) == failed
        }),
{
    let once = seq![Ok::<Reply, Seq<char>>(w), Ok::<Reply, Seq<char>>(r)];
    let twice = once + seq![Ok::<Reply, Seq<char>>(w2), Ok::<Reply, Seq<char>>(r2)];
    assert(once.skip(2) == Seq::<Answer>::empty());
    assert(twice[0] == once[0] && twice[1] == once[1]);
    assert(twice.skip(2) == seq![Ok::<Reply, Seq<char>>(w2), Ok::<Reply, Seq<char>>(r2)]);
}

/// What a file holds is what the reply shows of it, without blanks and in lower case: after the
/// path comes a comma, and then the contents.
pub proof fn theorem_contents_are_shown(path: Seq<char>, bytes: Seq<char>)
    requires
        !path.contains(','),
        !path.contains('\n'),
        !path.contains('\r'),
        bytes.len() > 0,
        forall|i: int|
            0 <= i < bytes.len() ==> text::is_digit(#[trigger] bytes[i]) || 'a' <= bytes[i] <= 'f'
                || bytes[i] == ',',
    ensures
        modem::file_shown("^EFS: "@ + path + ", "@ + bytes) == bytes,
{
    reveal_strlit("^EFS: ");
    reveal_strlit("EFS:");
    reveal_strlit(", ");
    let t = "^EFS: "@ + path + ", "@ + bytes;
    assert(t.last() == bytes.last());
    assert(text::is_digit(bytes[bytes.len() - 1]) || 'a' <= bytes[bytes.len() - 1] <= 'f'
        || bytes[bytes.len() - 1] == ',');
    assert(!t.contains('\n')) by {
        assert forall|i: int| 0 <= i < t.len() implies t[i] != '\n' by {
            if 6 <= i < 6 + path.len() {
                assert(t[i] == path[i - 6]);
                assert(path.contains(path[i - 6]));
            } else if i >= 8 + path.len() {
                assert(t[i] == bytes[i - path.len() - 8]);
            }
        }
    }
    text::lemma_line(t, seq![]);
    let u = text::uppercase(t);
    text::lemma_occurrence(u, "EFS:"@);
    assert("EFS:"@.is_prefix_of(u.skip(1)));
    assert(modem::efs_line(seq![t]) == Some(t));
    let data = seq![' '] + bytes;
    let shown = seq![' '] + path + seq![','] + data;
    let head = seq!['^', 'E', 'F', 'S'];
    assert(t == head + seq![':'] + shown);
    assert(!head.contains(':'));
    text::lemma_piece(head, ':', shown);
    let named = seq![' '] + path;
    assert(!named.contains(',')) by {
        assert forall|i: int| 0 <= i < named.len() implies named[i] != ',' by {
            if i > 0 {
                assert(named[i] == path[i - 1]);
                assert(path.contains(path[i - 1]));
            }
        }
    }
    text::lemma_piece(named, ',', data);
    lemma_no_blanks(bytes);
    assert(text::lowercase(bytes) =~= bytes);
}

proof fn lemma_no_blanks(v: Seq<char>)
    requires
        forall|i: int| 0 <= i < v.len() ==> !text::is_white_space(#[trigger] v[i]),
    ensures
        modem::without_blanks(v) == v,
        modem::without_blanks(seq![' '] + v) == v,
    decreases v.len(),
{
    let s = seq![' '] + v;
    if v.len() == 0 {
        assert(s.drop_last() == v);
        reveal_with_fuel(modem::without_blanks, 2);
    } else {
        let init = v.drop_last();
        assert(!text::is_white_space(v[v.len() - 1]));
        assert forall|i: int| 0 <= i < init.len() implies !text::is_white_space(
            #[trigger] init[i],
        ) by {
            assert(init[i] == v[i]);
        }
        lemma_no_blanks(init);
        assert(s.drop_last() == seq![' '] + init);
        assert(init.push(v.last()) == v);
    }
}

// ---------------------------------------------------------------------------
// What a probe finds
// ---------------------------------------------------------------------------
/// A reply that shows that a command works: success and something said, and where cells are
/// wanted, a line that describes one.
pub open spec fn is_good(a: Answer, cells: bool) -> bool {
    match a {
        Ok(r) => {
            &&& r.ok
            &&& r.body.len() > 0
            &&& cells ==> exists|i: int|
                0 <= i < text::line_list(r.body).len() && signal::cell_in(
                    #[trigger] text::line_list(r.body)[i],
                ) is Some
        },
        Err(_) => false,
    }
}

proof fn lemma_cells_listed(ls: Seq<Seq<char>>)
    ensures
        signal::cells_in(ls).len() > 0 <==> exists|i: int|
            0 <= i < ls.len() && signal::cell_in(#[trigger] ls[i]) is Some,
    decreases ls.len(),
{
    if ls.len() > 0 {
        let init = ls.drop_last();
        lemma_cells_listed(init);
        if signal::cell_in(ls.last()) is Some {
            assert(signal::cell_in(ls[ls.len() - 1]) is Some);
        }
        if signal::cells_in(init).len() > 0 {
            let k = choose|k: int| 0 <= k < init.len() && signal::cell_in(#[trigger] init[k]) is Some;
            assert(signal::cell_in(ls[k]) is Some);
        }
        if exists|i: int| 0 <= i < ls.len() && signal::cell_in(#[trigger] ls[i]) is Some {
            let k = choose|k: int| 0 <= k < ls.len() && signal::cell_in(#[trigger] ls[k]) is Some;
            if k < init.len() {
                assert(signal::cell_in(init[k]) is Some);
            }
        }
    }
}

proof fn lemma_good(a: Answer, cells: bool)
    ensures
        modem::confirms(a, cells) == is_good(a, cells),
{
    if a is Ok {
        lemma_cells_listed(text::line_list(a->Ok_0.body));
    }
}

/// Whether a search among candidates, from the reply `from` on, took `n` replies and found
/// `found`: the candidates were sent one after the other, and the first one that works is the one
/// that is found. Nothing is found only if none works.
pub open spec fn is_settled(
    cands: Seq<Seq<char>>,
    rs: Seq<Answer>,
    from: int,
    n: int,
    cells: bool,
    found: Option<Seq<char>>,
) -> bool {
    &&& 0 <= n <= cands.len()
    &&& from + n <= rs.len()
    &&& forall|k: int|
        0 <= k < n ==> modem::probing(#[trigger] rs.take(from + k)) == Move::<ProbedView>::Send(
            cands[k],
        )
    &&& match found {
        Some(c) => {
            &&& n > 0
            &&& c == cands[n - 1]
            &&& is_good(rs[from + n - 1], cells)
            &&& forall|k: int| from <= k < from + n - 1 ==> !is_good(#[trigger] rs[k], cells)
        },
        None => {
            &&& n == cands.len()
            &&& forall|k: int| from <= k < from + n ==> !is_good(#[trigger] rs[k], cells)
        },
    }
}

proof fn lemma_search_all(cands: Seq<Seq<char>>, rs: Seq<Answer>, cells: bool, i: int)
    requires
        0 <= i <= cands.len(),
        i <= rs.len(),
    ensures
        modem::search(cands, rs, cells, i) matches Search::Settled { found, used } ==> {
            found is None ==> used == cands.len() && forall|k: int|
                i <= k < used ==> !modem::confirms(#[trigger] rs[k], cells)
        },
    decreases cands.len() - i,
{
    if i < cands.len() && i < rs.len() && !modem::confirms(rs[i], cells) {
        lemma_search_all(cands, rs, cells, i + 1);
    }
}

proof fn lemma_settled(
    cands: Seq<Seq<char>>,
    rs: Seq<Answer>,
    from: int,
    cells: bool,
    found: Option<Seq<char>>,
    n: int,
)
    requires
        0 <= from <= rs.len(),
        modem::search(cands, rs.skip(from), cells, 0) == (Search::Settled { found, used: n }),
        forall|k: int|
            0 <= k < n && #[trigger] modem::search(cands, rs.skip(from).take(k), cells, 0)
                == Search::Ask(cands[k]) ==> modem::probing(rs.take(from + k)) == Move::<
                ProbedView,
            >::Send(cands[k]),
    ensures
        is_settled(cands, rs, from, n, cells, found),
{
    let part = rs.skip(from);
    lemma_search(cands, part, cells, 0);
    lemma_search_all(cands, part, cells, 0);
    assert forall|k: int| from <= k < from + n implies modem::confirms(#[trigger] rs[k], cells)
        == is_good(rs[k], cells) && rs[k] == part[k - from] by {
        lemma_good(rs[k], cells);
    }
    assert forall|k: int| 0 <= k < n implies modem::probing(#[trigger] rs.take(from + k)) == Move::<
        ProbedView,
    >::Send(cands[k]) by {
        assert(modem::search(cands, part.take(k), cells, 0) == Search::Ask(cands[k]));
    }
    if found is None {
        assert forall|k: int| from <= k < from + n implies !is_good(#[trigger] rs[k], cells) by {
            assert(!modem::confirms(part[k - from], cells));
        }
    } else {
        assert(rs[from + n - 1] == part[n - 1]);
        assert forall|k: int| from <= k < from + n - 1 implies !is_good(
            #[trigger] rs[k],
            cells,
        ) by {
            assert(!modem::confirms(part[k - from], cells));
        }
    }
}

/// A probe asks for the name and for a file, and then tries the commands for the serving cell, for
/// the cells around and for the bands, each in the order of preference. Of each kind it keeps the
/// first command that works, and none only if none works.
#[verifier::spinoff_prover]
#[verifier::rlimit(60)]
pub proof fn theorem_probe_finds_what_works(rs: Seq<Answer>, p: ProbedView)
    requires
        modem::probing(rs) == Move::Done(p),
    ensures
        modem::probing(seq![]) == Move::<ProbedView>::Send("ATI"@),
        modem::probing(rs.take(1)) == Move::<ProbedView>::Send(
            "at^efs=\"/nv/item_files/modem/lte/rrc/csp/earfcn_lock\""@,
        ),
        rs[0] matches Ok(r) ==> p.info == Some(r.body),
        rs[0] is Err ==> p.info is None,
        p.caps.efs <==> (rs[1] matches Ok(r) && (r.ok || text::occurs(
            text::uppercase(r.body),
            "EFS:"@,
        ))),
        exists|a: int, b: int, c: int|
            #![trigger rs[2 + a], rs[2 + a + b], rs[2 + a + b + c]]
            {
                &&& is_settled(
                    seq!["AT^DEBUG?"@, "AT+GTCCINFO?"@, "AT+CESQ"@, "AT+CSQ"@],
                    rs,
                    2,
                    a,
                    false,
                    p.caps.serving,
                )
                &&& is_settled(
                    seq!["AT$QCRSRP?"@, "AT+VZWRSRP?"@, "AT+GTCCINFO?"@],
                    rs,
                    2 + a,
                    b,
                    true,
                    p.caps.neighbors,
                )
                &&& is_settled(
                    seq!["AT+GTACT?"@, "AT^BAND_PRI?"@, "AT^SYSCFGEX?"@],
                    rs,
                    2 + a + b,
                    c,
                    false,
                    p.caps.bands_query,
                )
            },
        p.caps.bands_set == (if p.caps.bands_query == Some("AT+GTACT?"@) {
            Some("AT+GTACT=2,,,{}"@)
        } else if p.caps.bands_query == Some("AT^BAND_PRI?"@) {
            Some("AT^BAND_PRI={}"@)
        } else {
            None
        }),
{
    theorem_first_commands(0, 0);
    let s1 = modem::serving_candidates();
    let s2 = modem::neighbor_candidates();
    let s3 = modem::band_candidates();
    let r1 = rs.skip(2);
    lemma_search(s1, r1, false, 0);
    match modem::search(s1, r1, false, 0) {
        Search::Settled { found: f1, used: a } => {
            let r2 = rs.skip(2 + a);
            lemma_search(s2, r2, true, 0);
            assert forall|k: int|
                0 <= k < a && #[trigger] modem::search(s1, rs.skip(2).take(k), false, 0)
                    == Search::Ask(s1[k]) implies modem::probing(rs.take(2 + k)) == Move::<
                ProbedView,
            >::Send(s1[k]) by {
                assert(rs.take(2 + k).skip(2) == r1.take(k));
            }
            lemma_settled(s1, rs, 2, false, f1, a);
            match modem::search(s2, r2, true, 0) {
                Search::Settled { found: f2, used: b } => {
                    let r3 = rs.skip(2 + a + b);
                    lemma_search(s3, r3, false, 0);
                    assert forall|k: int|
                        0 <= k < b && #[trigger] modem::search(s2, rs.skip(2 + a).take(k), true, 0)
                            == Search::Ask(s2[k]) implies modem::probing(rs.take(2 + a + k))
                        == Move::<ProbedView>::Send(s2[k]) by {
                        assert(rs.take(2 + a + k).skip(2 + a) == r2.take(k));
                        assert(r1.take(a).is_prefix_of(rs.take(2 + a + k).skip(2)));
                    }
                    lemma_settled(s2, rs, 2 + a, true, f2, b);
                    match modem::search(s3, r3, false, 0) {
                        Search::Settled { found: f3, used: c } => {
                            assert forall|k: int|
                                0 <= k < c && #[trigger] modem::search(
                                    s3,
                                    rs.skip(2 + a + b).take(k),
                                    false,
                                    0,
                                ) == Search::Ask(s3[k]) implies modem::probing(
                                rs.take(2 + a + b + k),
                            ) == Move::<ProbedView>::Send(s3[k]) by {
                                assert(rs.take(2 + a + b + k).skip(2 + a + b) == r3.take(k));
                                assert(r1.take(a).is_prefix_of(rs.take(2 + a + b + k).skip(2)));
                                assert(r2.take(b).is_prefix_of(
                                    rs.take(2 + a + b + k).skip(2 + a),
                                ));
                            }
                            lemma_settled(s3, rs, 2 + a + b, false, f3, c);
                            let x = (rs[2 + a], rs[2 + a + b], rs[2 + a + b + c]);
                        },
                        _ => {},
                    }
                },
                _ => {},
            }
        },
        _ => {},
    }
}

// ---------------------------------------------------------------------------
// Polling
// ---------------------------------------------------------------------------
proof fn lemma_metrics_only(ls: Seq<Seq<char>>)
    ensures
        signal::signal_of(ls).operator is None,
        signal::signal_of(ls).band is None,
        !signal::signal_of(ls).registered,
    decreases ls.len(),
{
    if ls.len() > 0 {
        lemma_metrics_only(ls.drop_last());
    }
}

/// The signal is put together from three replies: to the command for the serving cell that is
/// known to work, or to `AT+CESQ`, to `AT+COPS?` and to `AT+CEREG?`. Each tells of its own part,
/// and a reply that did not come leaves that part unknown and the others as they are.
pub proof fn theorem_signal_is_polled(caps: CapsView, a: Answer, b: Answer, c: Answer)
    ensures
        modem::polling(caps, seq![]) == Move::<SignalView<Measure>>::Send(
            match caps.serving {
                Some(cmd) => cmd,
                None => "AT+CESQ"@,
            },
        ),
        modem::polling(caps, seq![a]) == Move::<SignalView<Measure>>::Send("AT+COPS?"@),
        modem::polling(caps, seq![a, b]) == Move::<SignalView<Measure>>::Send("AT+CEREG?"@),
        modem::polling(caps, seq![a, b, c]) matches Move::Done(s) && {
            &&& a matches Ok(r) ==> {
                let m = signal::signal_of(text::line_list(r.body));
                s.rsrp == m.rsrp && s.rsrq == m.rsrq && s.sinr == m.sinr && s.rssi == m.rssi
                    && s.earfcn == m.earfcn && s.pci == m.pci
            }
            &&& a is Err ==> s.rsrp is None && s.rsrq is None && s.sinr is None && s.rssi is None
                && s.earfcn is None && s.pci is None
            &&& b matches Ok(r) ==> s.operator == signal::operator_in(r.body)
            &&& b is Err ==> s.operator is None
            &&& c matches Ok(r) ==> s.registered == signal::registered_in(text::line_list(r.body))
            &&& c is Err ==> !s.registered
        },
{
    if a is Ok {
        lemma_metrics_only(text::line_list(a->Ok_0.body));
    }
}

// ---------------------------------------------------------------------------
// Bands and other commands
// ---------------------------------------------------------------------------
proof fn lemma_filled(head: Seq<char>, tail: Seq<char>, mask: Seq<char>)
    requires
        !head.contains('{'),
        !tail.contains('{'),
    ensures
        modem::filled(head + "{}"@ + tail, mask) == head + mask + tail,
{
    reveal_strlit("{}");
    let pat = "{}"@;
    let t = head + pat + tail;
    let n = head.len() as int;
    text::lemma_occurrence(t, pat);
    assert(pat.is_prefix_of(t.skip(n)));
    assert(text::occurrence(t, pat) == Some(n)) by {
        match text::occurrence(t, pat) {
            Some(i) => {
                if i < n {
                    assert(t.subrange(i, i + 2)[0] == t[i]);
                    assert(t[i] == head[i]);
                    assert(head.contains(head[i]));
                } else if i > n {
                    assert(!pat.is_prefix_of(t.skip(n)));
                }
            },
            None => {
                assert(!pat.is_prefix_of(t.skip(n)));
            },
        }
    }
    text::lemma_occurrence(tail, pat);
    assert(text::occurrence(tail, pat) is None) by {
        match text::occurrence(tail, pat) {
            Some(i) => {
                assert(tail.subrange(i, i + 2)[0] == tail[i]);
                assert(tail.contains(tail[i]));
            },
            None => {},
        }
    }
    assert(t.take(n) == head);
    assert(t.skip(n + 2) == tail);
    assert(text::sections(tail, pat) == seq![tail]);
    let parts = text::sections(t, pat);
    assert(parts == seq![head] + seq![tail]);
    assert(parts.drop_last() == seq![head]);
    reveal_with_fuel(text::joined, 2);
    assert(text::joined(parts, mask) == head + mask + tail);
}

/// A mask of hexadecimal digits is sent in the place that the template keeps for it, and the
/// bands are set exactly if the modem then replies `OK`; else its error is told. Anything else is
/// refused before something is sent.
pub proof fn theorem_bands_are_set(
    caps: CapsView,
    head: Seq<char>,
    tail: Seq<char>,
    mask: Seq<char>,
    r: Reply,
)
    requires
        !head.contains('{'),
        !tail.contains('{'),
        caps.bands_set == Some(head + "{}"@ + tail),
    ensures
        ({
            let is_hex = mask.len() > 0 && forall|i: int|
                0 <= i < mask.len() ==> text::is_digit(#[trigger] mask[i]) || 'a' <= mask[i] <= 'f'
                    || 'A' <= mask[i] <= 'F';
            let after = modem::band_setting(caps, mask, seq![Ok::<Reply, Seq<char>>(r)]);
            &&& is_hex ==> modem::band_setting(caps, mask, seq![]) == Move::<()>::Send(
                head + mask + tail,
            )
            &&& is_hex && r.ok ==> after == Move::Done(())
            &&& is_hex && !r.ok && r.error is Some ==> after == Move::<()>::Failed(r.error->0)
            &&& is_hex && !r.ok && r.error is None ==> after == Move::<()>::Failed(
                "модем не ответил OK"@,
            )
            &&& !is_hex ==> modem::band_setting(caps, mask, seq![]) == Move::<()>::Failed(
                "маска бэндов должна быть hex-числом"@,
            ) && after is Failed
        }),
{
    lemma_filled(head, tail, mask);
    let is_hex = mask.len() > 0 && forall|i: int|
        0 <= i < mask.len() ==> text::is_digit(#[trigger] mask[i]) || 'a' <= mask[i] <= 'f' || 'A'
            <= mask[i] <= 'F';
    assert(modem::is_mask(mask) == is_hex) by {
        if is_hex {
            assert forall|i: int| 0 <= i < mask.len() implies text::is_hex_digit(
                #[trigger] mask[i],
            ) by {}
        }
        if modem::is_mask(mask) {
            assert forall|i: int| 0 <= i < mask.len() implies text::is_digit(#[trigger] mask[i])
                || 'a' <= mask[i] <= 'f' || 'A' <= mask[i] <= 'F' by {
                assert(text::is_hex_digit(mask[i]));
            }
        }
    }
}

/// What is asked of the modem is sent as it is, and what it replies is handed on: the body of the
/// reply for the bands, the whole reply for a command of the user, the cells of the reply for a
/// scan. What is not known to work is not sent.
pub proof fn theorem_replies_are_handed_on(
    caps: CapsView,
    query: Seq<char>,
    list: Seq<char>,
    cmd: Seq<char>,
    r: Reply,
)
    requires
        caps.bands_query == Some(query),
        caps.neighbors == Some(list),
    ensures
        ({
            let rs = seq![Ok::<Reply, Seq<char>>(r)];
            let nothing = CapsView { bands_query: None, neighbors: None, bands_set: None, ..caps };
            &&& modem::band_reading(caps, seq![]) == Move::<Seq<char>>::Send(query)
            &&& modem::band_reading(caps, rs) == Move::Done(r.body)
            &&& modem::sending(cmd, seq![]) == Move::<Reply>::SendSlow(cmd)
            &&& modem::sending(cmd, rs) == Move::Done(r)
            &&& modem::scanning(caps, seq![]) == Move::<Seq<Cell<Measure>>>::SendSlow(list)
            &&& modem::scanning(caps, rs) == Move::Done(
                signal::cells_in(text::line_list(r.body)),
            )
            &&& modem::resetting(rs) == Move::Done(())
            &&& modem::band_reading(nothing, seq![]) == Move::<Seq<char>>::Failed(
                "прошивка модема не поддерживает управление бэндами"@,
            )
            &&& modem::scanning(nothing, seq![]) == Move::<Seq<Cell<Measure>>>::Failed(
                "прошивка модема не отдаёт список соседних сот"@,
            )
            &&& modem::band_setting(nothing, seq!['1'], seq![]) == Move::<()>::Failed(
                "прошивка модема не поддерживает запись бэндов"@,
            )
            &&& modem::band_setting(nothing, cmd, seq![]) is Failed
        }),
{
}

/// Both files are read, the file of carriers first, and each reply is shown as the file that it
/// is the reply for.
pub proof fn theorem_both_files_are_read(a: Reply, b: Reply)
    ensures
        modem::lock_reading(seq![Ok::<Reply, Seq<char>>(a)]) == Move::<Locks>::Send(
            "at^efs=\"/nv/item_files/modem/lte/rrc/csp/pci_lock\""@,
        ),
        modem::lock_reading(seq![Ok::<Reply, Seq<char>>(a), Ok::<Reply, Seq<char>>(b)])
            matches Move::Done(l) && l.raw_earfcn == modem::efs_bytes(a.body) && l.raw_pci
            == modem::efs_bytes(b.body),
{
    reveal_strlit("at^efs=\"");
    reveal_strlit("\"");
    reveal_strlit("/nv/item_files/modem/lte/rrc/csp/pci_lock");
    reveal_strlit("at^efs=\"/nv/item_files/modem/lte/rrc/csp/pci_lock\"");
    assert(modem::read_command(modem::EFS_PCI@)
        == "at^efs=\"/nv/item_files/modem/lte/rrc/csp/pci_lock\""@);
}

// ---------------------------------------------------------------------------
// What a reply shows of a file
// ---------------------------------------------------------------------------
/// The first line that tells of a file counts, whatever stands in the lines around it and in
/// whichever case its mark is written.
pub proof fn theorem_first_line_shows_the_file(
    before: Seq<Seq<char>>,
    line: Seq<char>,
    after: Seq<Seq<char>>,
)
    requires
        forall|i: int|
            0 <= i < before.len() ==> !text::occurs(
                text::uppercase(#[trigger] before[i]),
                "EFS:"@,
            ),
        text::occurs(text::uppercase(line), "EFS:"@),
    ensures
        modem::efs_line(before + seq![line] + after) == Some(line),
        modem::efs_line(before) is None,
    decreases before.len(),
{
    let all = before + seq![line] + after;
    if before.len() == 0 {
        assert(all[0] == line);
    } else {
        let rest = before.skip(1);
        assert forall|i: int| 0 <= i < rest.len() implies !text::occurs(
            text::uppercase(#[trigger] rest[i]),
            "EFS:"@,
        ) by {
            assert(rest[i] == before[i + 1]);
        }
        theorem_first_line_shows_the_file(rest, line, after);
        assert(all[0] == before[0]);
        assert(!text::occurs(text::uppercase(before[0]), "EFS:"@));
        assert(all.skip(1) == rest + seq![line] + after);
    }
}

proof fn lemma_shown(head: Seq<char>, path: Seq<char>, data: Seq<char>)
    requires
        !head.contains(':'),
        !path.contains(','),
    ensures
        modem::shown_data(head + seq![':'] + (path + seq![','] + data)) == Some(
            text::lowercase(modem::without_blanks(data)),
        ),
{
    text::lemma_piece(head, ':', path + seq![','] + data);
    text::lemma_piece(path, ',', data);
}

proof fn lemma_blank_out(a: Seq<char>, c: char, b: Seq<char>)
    requires
        text::is_white_space(c),
    ensures
        modem::without_blanks(a + seq![c] + b) == modem::without_blanks(a + b),
    decreases b.len(),
{
    let s = a + seq![c] + b;
    let t = a + b;
    if b.len() == 0 {
        assert(s.last() == c);
        assert(s.drop_last() == t);
    } else {
        lemma_blank_out(a, c, b.drop_last());
        assert(s.drop_last() == a + seq![c] + b.drop_last());
        assert(t.drop_last() == a + b.drop_last());
        assert(s.last() == b.last() && t.last() == b.last());
    }
}

proof fn lemma_case_out(s: Seq<char>)
    ensures
        text::lowercase(modem::without_blanks(text::uppercase(s))) == text::lowercase(
            modem::without_blanks(s),
        ),
    decreases s.len(),
{
    let u = text::uppercase(s);
    if s.len() > 0 {
        lemma_case_out(s.drop_last());
        assert(u.drop_last() =~= text::uppercase(s.drop_last()));
        let c = s.last();
        assert(u.last() == text::upper_char(c));
        assert(text::is_white_space(text::upper_char(c)) == text::is_white_space(c));
        assert(text::lower_char(text::upper_char(c)) == text::lower_char(c));
        let x = modem::without_blanks(u.drop_last());
        let y = modem::without_blanks(s.drop_last());
        if !text::is_white_space(c) {
            assert(text::lowercase(x.push(text::upper_char(c))) =~= text::lowercase(x).push(
                text::lower_char(c),
            ));
            assert(text::lowercase(y.push(c)) =~= text::lowercase(y).push(text::lower_char(c)));
        }
    } else {
        assert(u =~= s);
    }
}

/// Blanks in what is shown of a file do not matter, and neither does the case of its digits; all
/// else does.
pub proof fn theorem_form_of_contents(
    head: Seq<char>,
    path: Seq<char>,
    a: Seq<char>,
    c: char,
    b: Seq<char>,
)
    requires
        !head.contains(':'),
        !path.contains(','),
    ensures
        ({
            let shown = |data: Seq<char>|
                modem::shown_data(head + seq![':'] + (path + seq![','] + data));
            &&& text::is_white_space(c) ==> shown(a + seq![c] + b) == shown(a + b)
            &&& shown(text::uppercase(a)) == shown(a)
            &&& (forall|i: int|
                0 <= i < a.len() ==> !text::is_white_space(#[trigger] a[i]) && !('A' <= a[i]
                    <= 'Z')) ==> shown(a) == Some(a)
        }),
{
    lemma_shown(head, path, a + seq![c] + b);
    lemma_shown(head, path, a + b);
    lemma_shown(head, path, text::uppercase(a));
    lemma_shown(head, path, a);
    if text::is_white_space(c) {
        lemma_blank_out(a, c, b);
    }
    lemma_case_out(a);
    if forall|i: int|
        0 <= i < a.len() ==> !text::is_white_space(#[trigger] a[i]) && !('A' <= a[i] <= 'Z') {
        lemma_no_blanks(a);
        assert(text::lowercase(a) =~= a);
    }
}

/// A list of bytes is one byte after the other with commas between them, and a byte is one
/// hexadecimal digit or two. What is no such list is not shown as bytes.
pub proof fn theorem_lists_of_bytes(a: Seq<char>, b: Seq<char>, p: Seq<char>, body: Seq<char>)
    requires
        !p.contains(','),
    ensures
        modem::is_byte_list(a + seq![','] + b) <==> modem::is_byte_list(a) && modem::is_byte_list(b),
        modem::is_byte_list(p) <==> (p.len() == 1 || p.len() == 2) && forall|i: int|
            0 <= i < p.len() ==> ('0' <= #[trigger] p[i] <= '9') || ('a' <= p[i] <= 'f') || ('A'
                <= p[i] <= 'F'),
        modem::efs_data(body) matches Some(d) ==> modem::efs_bytes(body) == (
        if modem::is_byte_list(d) {
            Some(d)
        } else {
            None
        }),
        modem::efs_data(body) is None ==> modem::efs_bytes(body) is None,
{
    text::lemma_pieces_concat(a, ',', b);
    let x = text::pieces(a, ',');
    let y = text::pieces(b, ',');
    let all = text::pieces(a + seq![','] + b, ',');
    assert(all == x + y);
    if modem::is_byte_list(a + seq![','] + b) {
        assert forall|i: int| 0 <= i < x.len() implies modem::is_byte(#[trigger] x[i]) by {
            assert(all[i] == x[i]);
        }
        assert forall|i: int| 0 <= i < y.len() implies modem::is_byte(#[trigger] y[i]) by {
            assert(all[x.len() + i] == y[i]);
        }
    }
    if modem::is_byte_list(a) && modem::is_byte_list(b) {
        assert forall|i: int| 0 <= i < all.len() implies modem::is_byte(#[trigger] all[i]) by {
            if i < x.len() {
                assert(all[i] == x[i]);
            } else {
                assert(all[i] == y[i - x.len()]);
            }
        }
    }
    text::lemma_piece(p, ',', seq![]);
    assert(text::pieces(p, ',')[0] == p);
    if modem::is_byte_list(p) {
        assert(modem::is_byte(text::pieces(p, ',')[0]));
        assert forall|i: int| 0 <= i < p.len() implies ('0' <= #[trigger] p[i] <= '9') || ('a'
            <= p[i] <= 'f') || ('A' <= p[i] <= 'F') by {
            assert(text::is_hex_digit(p[i]));
        }
    }
}

/// A carrier takes exactly two bytes, and a cell exactly four; files with another number of bytes
/// show no lock, but their bytes are shown.
pub proof fn theorem_files_of_other_lengths(earfcn_body: Seq<char>, pci_body: Seq<char>)
    ensures
        ({
            let l = modem::locks_shown(earfcn_body, pci_body);
            &&& modem::efs_bytes(earfcn_body) matches Some(b) ==> l.raw_earfcn == Some(b) && (
            text::pieces(b, ',').len() != 2 ==> l.earfcn is None)
            &&& modem::efs_bytes(pci_body) matches Some(b) ==> l.raw_pci == Some(b) && (
            text::pieces(b, ',').len() != 4 ==> l.pci is None && l.pci_earfcn is None)
            &&& modem::efs_bytes(earfcn_body) is None ==> l.raw_earfcn is None && l.earfcn is None
            &&& modem::efs_bytes(pci_body) is None ==> l.raw_pci is None && l.pci is None
                && l.pci_earfcn is None
        }),
{
}

/// Without another port there is no second attempt, whatever is replied afterwards.
pub proof fn theorem_no_other_port(
    path: Seq<char>,
    bytes: Seq<char>,
    w: Reply,
    r: Reply,
    more: Seq<Answer>,
)
    requires
        modem::file_shown(r.body) != bytes,
    ensures
        modem::writing(
            path,
            bytes,
            seq![Ok::<Reply, Seq<char>>(w), Ok::<Reply, Seq<char>>(r)] + more,
            seq![false],
        ) == Writing::Failed(
            "не удалось записать "@ + path + ": в модеме оказалось не то, что ожидалось"@,
        ),
{
    let rs = seq![Ok::<Reply, Seq<char>>(w), Ok::<Reply, Seq<char>>(r)] + more;
    assert(rs[0] == Ok::<Reply, Seq<char>>(w) && rs[1] == Ok::<Reply, Seq<char>>(r));
}

/// Locking goes on to the other file: once the first one is written, the lock that was there
/// before is taken off, and only when that is done too is the operation done.
pub proof fn theorem_the_other_lock_is_taken_off(earfcn: u16, pci: u16, rs: Seq<Answer>, used: int)
    requires
        pci <= 503,
        used == rs.len(),
    ensures
        ({
            let e = "/nv/item_files/modem/lte/rrc/csp/earfcn_lock"@;
            let c = "/nv/item_files/modem/lte/rrc/csp/pci_lock"@;
            let carrier = modem::le16(earfcn as int);
            let cell = modem::le16(earfcn as int) + seq![','] + modem::le16(pci as int);
            &&& modem::writing(e, carrier, rs, seq![]) == (Writing::Written {
                replies: used,
                switches: 0,
            }) ==> modem::earfcn_locking(earfcn as int, rs, seq![]) == Move::<()>::Send(
                "at^efs=\"/nv/item_files/modem/lte/rrc/csp/pci_lock\",0"@,
            )
            &&& modem::writing(c, cell, rs, seq![]) == (Writing::Written {
                replies: used,
                switches: 0,
            }) ==> modem::pci_locking(earfcn as int, pci as int, rs, seq![]) == Move::<()>::Send(
                "at^efs=\"/nv/item_files/modem/lte/rrc/csp/earfcn_lock\",0"@,
            )
            &&& modem::writing(e, seq![], rs, seq![]) == (Writing::Written {
                replies: used,
                switches: 0,
            }) ==> modem::unlocking(rs, seq![]) == Move::<()>::Send(
                "at^efs=\"/nv/item_files/modem/lte/rrc/csp/pci_lock\",0"@,
            )
        }),
{
    reveal_strlit("at^efs=\"");
    reveal_strlit("\",0");
    reveal_strlit("/nv/item_files/modem/lte/rrc/csp/earfcn_lock");
    reveal_strlit("/nv/item_files/modem/lte/rrc/csp/pci_lock");
    reveal_strlit("at^efs=\"/nv/item_files/modem/lte/rrc/csp/earfcn_lock\",0");
    reveal_strlit("at^efs=\"/nv/item_files/modem/lte/rrc/csp/pci_lock\",0");
    assert(rs.skip(rs.len() as int) == Seq::<Answer>::empty());
    assert(Seq::<bool>::empty().skip(0) == Seq::<bool>::empty());
    assert(modem::write_command(modem::EFS_EARFCN@, seq![])
        == "at^efs=\"/nv/item_files/modem/lte/rrc/csp/earfcn_lock\",0"@);
    assert(modem::write_command(modem::EFS_PCI@, seq![])
        == "at^efs=\"/nv/item_files/modem/lte/rrc/csp/pci_lock\",0"@);
}

/// How the bands are set follows from how they are read: two ways of reading have one, the third
/// has none.
pub proof fn theorem_templates()
    ensures
        modem::band_template("AT+GTACT?"@) == Some("AT+GTACT=2,,,{}"@),
        modem::band_template("AT^BAND_PRI?"@) == Some("AT^BAND_PRI={}"@),
        modem::band_template("AT^SYSCFGEX?"@) is None,
{
    reveal_strlit("AT+GTACT?");
    reveal_strlit("AT^BAND_PRI?");
    reveal_strlit("AT^SYSCFGEX?");
    assert("AT+GTACT?"@.len() == 9 && "AT^BAND_PRI?"@.len() == 12 && "AT^SYSCFGEX?"@.len() == 12);
    assert("AT^BAND_PRI?"@[3] == 'B' && "AT^SYSCFGEX?"@[3] == 'S');
}

/// Blanks around the two bytes of a number do not matter.
pub proof fn theorem_blanks_around_bytes(
    a: Seq<char>,
    low: Seq<char>,
    b: Seq<char>,
    c: Seq<char>,
    high: Seq<char>,
    d: Seq<char>,
)
    requires
        text_laws::is_blank(a),
        text_laws::is_blank(b),
        text_laws::is_blank(c),
        text_laws::is_blank(d),
        !low.contains(','),
        !high.contains(','),
        low.len() > 0 ==> !text::is_white_space(low[0]) && !text::is_white_space(low.last()),
        high.len() > 0 ==> !text::is_white_space(high[0]) && !text::is_white_space(high.last()),
    ensures
        modem::le16_value(a + low + b + seq![','] + (c + high + d)) == modem::le16_value(
            low + seq![','] + high,
        ),
{
    let e = Seq::<char>::empty();
    let x = a + low + b;
    let y = c + high + d;
    lemma_no_comma(a, low, b);
    lemma_no_comma(c, high, d);
    text::lemma_piece(x, ',', y);
    text::lemma_piece(y, ',', e);
    text::lemma_piece(low, ',', high);
    text::lemma_piece(high, ',', e);
    text_laws::theorem_blanks_around(a, low, b);
    text_laws::theorem_blanks_around(c, high, d);
    text::lemma_trimmed_of_plain(low);
    text::lemma_trimmed_of_plain(high);
    assert(text::pieces(x + seq![','] + y, ',') == seq![x, y]);
    assert(text::pieces(low + seq![','] + high, ',') == seq![low, high]);
}

proof fn lemma_no_comma(a: Seq<char>, t: Seq<char>, b: Seq<char>)
    requires
        text_laws::is_blank(a),
        text_laws::is_blank(b),
        !t.contains(','),
    ensures
        !(a + t + b).contains(','),
{
    let s = a + t + b;
    assert forall|i: int| 0 <= i < s.len() implies s[i] != ',' by {
        if i < a.len() {
            assert(s[i] == a[i]);
        } else if i < a.len() + t.len() {
            assert(t.contains(t[i - a.len()]));
        } else {
            assert(s[i] == b[i - a.len() - t.len()]);
        }
    }
}

} // verus!
