//! Laws of reading what a modem says: whatever the numbers and names in a line are, they are the
//! ones that are read.

use crate::numbers;
use crate::signal;
use crate::signal::{Cell, Measure, SignalView};
use crate::text;
use crate::text_laws;
use vstd::prelude::*;

verus! {

/// A text that keeps its ends when it is trimmed.
pub open spec fn has_plain_ends(s: Seq<char>) -> bool {
    s.len() > 0 && !text::is_white_space(s[0]) && !text::is_white_space(s.last())
}

proof fn lemma_decimal_text(n: nat)
    ensures
        has_plain_ends(numbers::decimal(n)),
        text::trimmed(numbers::decimal(n)) == numbers::decimal(n),
        text::trimmed(seq![' '] + numbers::decimal(n)) == numbers::decimal(n),
        !numbers::decimal(n).contains(','),
        !numbers::decimal(n).contains(':'),
        !numbers::decimal(n).contains('"'),
        text::uppercase(numbers::decimal(n)) == numbers::decimal(n),
{
    let d = numbers::decimal(n);
    numbers::lemma_decimal(n);
    assert forall|i: int| 0 <= i < d.len() implies d[i] != ',' && d[i] != ':' && d[i] != '"'
        && !text::is_white_space(d[i]) && text::upper_char(d[i]) == d[i] by {
        assert(text::is_digit(d[i]));
    }
    assert(!text::is_white_space(d[0]) && !text::is_white_space(d[d.len() - 1]));
    text::lemma_trimmed_of_plain(d);
    lemma_trimmed_after_blank(d);
    assert(text::uppercase(d) =~= d);
}

proof fn lemma_trimmed_after_blank(s: Seq<char>)
    requires
        has_plain_ends(s),
    ensures
        text::trimmed(seq![' '] + s) == s,
{
    let t = seq![' '] + s;
    assert(t.skip(1) == s);
    reveal_with_fuel(text::trimmed_start, 2);
    text::lemma_trimmed_of_plain(s);
}

/// A number that fits is read back from its decimal notation.
proof fn lemma_signed_of_decimal(n: nat)
    requires
        n < 0x8000_0000_0000_0000,
    ensures
        numbers::signed(numbers::decimal(n)) == Some(n as int),
{
    numbers::lemma_decimal(n);
    assert(text::is_digit(numbers::decimal(n)[0]));
    numbers::lemma_unsigned_of_decimal(n, 0x7fff_ffff_ffff_ffff);
}

/// A measurement as a modem writes it in a list.
pub open spec fn is_written_measure(s: Seq<char>) -> bool {
    &&& numbers::is_float(s)
    &&& s.len() > 0
    &&& !text::is_white_space(s[0])
    &&& !text::is_white_space(s.last())
    &&& !s.contains(',')
}

/// A line that describes a cell around.
pub open spec fn cell_line(pci: nat, earfcn: nat, rsrp: Seq<char>, rsrq: Seq<char>) -> Seq<char> {
    "$QCRSRP: "@ + numbers::decimal(pci) + seq![','] + numbers::decimal(earfcn) + seq![','] + rsrp
        + seq![','] + rsrq
}

/// A cell is read from its line as it is written there.
pub proof fn theorem_cell_line_is_read(pci: u16, earfcn: u32, rsrp: Seq<char>, rsrq: Seq<char>)
    requires
        is_written_measure(rsrp),
        is_written_measure(rsrq),
    ensures
        signal::cell_in(cell_line(pci as nat, earfcn as nat, rsrp, rsrq)) == Some(
            Cell {
                earfcn,
                pci,
                rsrp: Some(Measure::Numeral(rsrp)),
                rsrq: Some(Measure::Numeral(rsrq)),
            },
        ),
{
    reveal_strlit("$QCRSRP: ");
    reveal_strlit("$QCRSRP");
    let p = numbers::decimal(pci as nat);
    let e = numbers::decimal(earfcn as nat);
    let line = cell_line(pci as nat, earfcn as nat, rsrp, rsrq);
    lemma_decimal_text(pci as nat);
    lemma_decimal_text(earfcn as nat);
    assert(line.last() == rsrq.last());
    text::lemma_trimmed_of_plain(line);
    let u = text::uppercase(line);
    let head = "$QCRSRP"@;
    assert(head.is_prefix_of(u)) by {
        assert forall|i: int| 0 <= i < head.len() implies u[i] == head[i] by {
            assert(line[i] == head[i]);
        }
    }
    let t4 = rsrq;
    let t3 = rsrp + seq![','] + t4;
    let t2 = e + seq![','] + t3;
    let first = seq![' '] + p;
    let rest = first + seq![','] + t2;
    assert(line == head + seq![':'] + rest);
    assert(!head.contains(':'));
    text::lemma_piece(head, ':', rest);
    assert(!first.contains(',')) by {
        assert forall|i: int| 0 <= i < first.len() implies first[i] != ',' by {
            if i > 0 {
                assert(first[i] == p[i - 1]);
                assert(p.contains(p[i - 1]));
            }
        }
    }
    text::lemma_piece(first, ',', t2);
    text::lemma_piece(e, ',', t3);
    text::lemma_piece(rsrp, ',', t4);
    text::lemma_piece(rsrq, ',', seq![]);
    let ps = text::pieces(rest, ',');
    assert(ps == seq![first] + (seq![e] + (seq![rsrp] + seq![rsrq])));
    assert(ps.len() == 4 && ps[0] == first && ps[1] == e && ps[2] == rsrp && ps[3] == rsrq);
    numbers::lemma_unsigned_of_decimal(pci as nat, 0xffff);
    numbers::lemma_unsigned_of_decimal(earfcn as nat, 0xffff_ffff);
    text::lemma_trimmed_of_plain(rsrp);
    text::lemma_trimmed_of_plain(rsrq);
}

/// A list of numbers, the first one after a space.
pub open spec fn number_list(ns: Seq<nat>) -> Seq<char>
    decreases ns.len(),
{
    if ns.len() == 0 {
        seq![]
    } else if ns.len() == 1 {
        seq![' '] + numbers::decimal(ns[0])
    } else {
        number_list(ns.drop_last()) + seq![','] + numbers::decimal(ns.last())
    }
}

proof fn lemma_number_list(ns: Seq<nat>)
    requires
        ns.len() > 0,
        forall|i: int| 0 <= i < ns.len() ==> (#[trigger] ns[i]) < 0x8000_0000_0000_0000,
    ensures
        signal::nums(number_list(ns)) == ns.map_values(|n: nat| n as int),
        text::uppercase(number_list(ns)) == number_list(ns),
        number_list(ns).len() > 0,
        !text::is_white_space(number_list(ns).last()),
    decreases ns.len(),
{
    let s = number_list(ns);
    let d = numbers::decimal(ns.last());
    lemma_decimal_text(ns.last());
    lemma_signed_of_decimal(ns.last());
    let want = ns.map_values(|n: nat| n as int);
    if ns.len() == 1 {
        assert(!s.contains(',')) by {
            assert forall|i: int| 0 <= i < s.len() implies s[i] != ',' by {
                if i > 0 {
                    assert(s[i] == d[i - 1]);
                    assert(d.contains(d[i - 1]));
                }
            }
        }
        text::lemma_piece(s, ',', seq![]);
        assert(signal::nums(s) =~= want);
        assert(text::uppercase(s) =~= s) by {
            assert forall|i: int| 0 <= i < s.len() implies text::upper_char(s[i]) == s[i] by {
                if i > 0 {
                    assert(s[i] == d[i - 1]);
                    assert(text::uppercase(d)[i - 1] == d[i - 1]);
                }
            }
        }
    } else {
        let init = ns.drop_last();
        let before = number_list(init);
        lemma_number_list(init);
        text::lemma_pieces_concat(before, ',', d);
        text::lemma_piece(d, ',', seq![]);
        let ps = text::pieces(s, ',');
        let qs = text::pieces(before, ',');
        assert(ps == qs + seq![d]);
        assert(qs.len() == signal::nums(before).len());
        assert(qs.len() == init.len());
        assert(signal::nums(s) =~= want) by {
            assert forall|i: int| 0 <= i < want.len() implies signal::nums(s)[i] == want[i] by {
                if i < init.len() {
                    assert(ps[i] == qs[i]);
                    assert(signal::nums(before)[i] == init.map_values(|n: nat| n as int)[i]);
                }
            }
        }
        assert(text::uppercase(s) =~= s) by {
            assert forall|i: int| 0 <= i < s.len() implies text::upper_char(s[i]) == s[i] by {
                if i < before.len() {
                    assert(s[i] == before[i]);
                    assert(text::uppercase(before)[i] == before[i]);
                } else if i > before.len() {
                    assert(s[i] == d[i - before.len() - 1]);
                    assert(text::uppercase(d)[i - before.len() - 1] == d[i - before.len() - 1]);
                }
            }
        }
    }
    assert(s.last() == d.last());
}

proof fn lemma_marked_line(mark: Seq<char>, ns: Seq<nat>)
    requires
        mark.len() > 0,
        !text::is_white_space(mark[0]),
        text::uppercase(mark) == mark,
        ns.len() > 0,
        forall|i: int| 0 <= i < ns.len() ==> (#[trigger] ns[i]) < 0x8000_0000_0000_0000,
    ensures
        text::trimmed(mark + number_list(ns)) == mark + number_list(ns),
        text::uppercase(mark + number_list(ns)) == mark + number_list(ns),
        text::after_prefix(mark + number_list(ns), mark) == Some(number_list(ns)),
{
    let s = number_list(ns);
    let line = mark + s;
    lemma_number_list(ns);
    assert(line.last() == s.last());
    text::lemma_trimmed_of_plain(line);
    assert(text::uppercase(line) =~= line) by {
        assert forall|i: int| 0 <= i < line.len() implies text::upper_char(line[i])
            == line[i] by {
            if i < mark.len() {
                assert(line[i] == mark[i]);
                assert(text::uppercase(mark)[i] == mark[i]);
            } else {
                assert(line[i] == s[i - mark.len()]);
                assert(text::uppercase(s)[i - mark.len()] == s[i - mark.len()]);
            }
        }
    }
    assert(mark.is_prefix_of(line));
    assert(line.skip(mark.len() as int) == s);
}

/// The indices of `+CESQ` are read: the fifth one is the RSRQ and the sixth one the RSRP.
pub proof fn theorem_cesq_line_is_read(s: SignalView<Measure>, ns: Seq<nat>)
    requires
        ns.len() == 6,
        forall|i: int| 0 <= i < 6 ==> (#[trigger] ns[i]) < 0x8000_0000_0000_0000,
    ensures
        signal::with_indices(s, "+CESQ:"@ + number_list(ns)) == (SignalView {
            rsrq: signal::cesq_rsrq(ns[4] as int),
            rsrp: signal::cesq_rsrp(ns[5] as int),
            ..s
        }),
{
    reveal_strlit("+CESQ:");
    let mark = "+CESQ:"@;
    assert(text::uppercase(mark) =~= mark);
    lemma_marked_line(mark, ns);
    lemma_number_list(ns);
}

/// A state of registration is read: 1 and 5 stand for a registration, nothing else does.
pub proof fn theorem_registration_line_is_read(n: nat, stat: nat)
    requires
        n < 0x8000_0000_0000_0000,
        stat < 0x8000_0000_0000_0000,
    ensures
        signal::registration("+CEREG:"@ + number_list(seq![n, stat])) == Some(
            stat == 1 || stat == 5,
        ),
{
    reveal_strlit("+CEREG:");
    let mark = "+CEREG:"@;
    let ns = seq![n, stat];
    assert(text::uppercase(mark) =~= mark);
    lemma_marked_line(mark, ns);
    lemma_number_list(ns);
}

/// The name of the operator is read, whatever characters are in it.
pub proof fn theorem_operator_line_is_read(name: Seq<char>)
    requires
        name.len() > 0,
        !text::is_white_space(name[0]),
        !text::is_white_space(name.last()),
        !name.contains('"'),
        !name.contains('\n'),
    ensures
        signal::operator_in("+COPS: 0,0,\""@ + name + "\",7"@) == Some(name),
{
    reveal_strlit("+COPS: 0,0,\"");
    reveal_strlit("+COPS:");
    reveal_strlit("\",7");
    let line = "+COPS: 0,0,\""@ + name + "\",7"@;
    assert(!line.contains('\n')) by {
        assert forall|i: int| 0 <= i < line.len() implies line[i] != '\n' by {
            if 12 <= i < 12 + name.len() {
                assert(line[i] == name[i - 12]);
                assert(name.contains(name[i - 12]));
            }
        }
    }
    text::lemma_line(line, seq![]);
    text::lemma_occurrence(line, "+COPS:"@);
    assert(line.skip(0) == line);
    assert("+COPS:"@.is_prefix_of(line.skip(0)));
    assert(text::occurs(line, "+COPS:"@));
    assert(text::line_with(seq![line], "+COPS:"@) == Some(line));
    let head = seq!['+', 'C', 'O', 'P', 'S', ':', ' ', '0', ',', '0', ','];
    let tail = seq![',', '7'];
    let rest = name + seq!['"'] + tail;
    assert(line == head + seq!['"'] + rest);
    assert(!head.contains('"'));
    text::lemma_piece(head, '"', rest);
    text::lemma_piece(name, '"', tail);
    text::lemma_trimmed_of_plain(name);
}

// ---------------------------------------------------------------------------
// The strongest cell first
// ---------------------------------------------------------------------------
/// The exact value of a measurement, unless it is a numeral that is not plain.
pub open spec fn measure_value(m: Measure) -> Option<(int, nat)> {
    match m {
        Measure::Halves(h) => Some((5 * h, 1)),
        Measure::Numeral(t) => numbers::numeral_value(t),
    }
}

/// Whether an RSRP is known to be weaker than another: its value is less, or it is missing and
/// the other one is not.
pub open spec fn is_weaker(a: Option<Measure>, b: Option<Measure>) -> bool {
    match (a, b) {
        (_, None) => false,
        (None, Some(y)) => measure_value(y) is Some,
        (Some(x), Some(y)) => match (measure_value(x), measure_value(y)) {
            (Some(v), Some(w)) => numbers::is_less(v, w),
            _ => false,
        },
    }
}

/// Where the keys grow with the RSRP, no cell stands before a stronger one, and so those without
/// an RSRP come last.
pub proof fn theorem_no_cell_before_a_stronger_one(
    cells: Seq<Cell<Measure>>,
    keys: Seq<i64>,
    order: Seq<int>,
)
    requires
        cells.len() == keys.len(),
        signal::is_ranking(order, keys),
        forall|a: int, b: int|
            #![trigger cells[a], cells[b]]
            0 <= a < cells.len() && 0 <= b < cells.len() && is_weaker(
                cells[a].rsrp,
                cells[b].rsrp,
            ) ==> keys[a] < keys[b],
    ensures
        forall|i: int, j: int|
            #![trigger signal::arranged(cells, order)[i], signal::arranged(cells, order)[j]]
            0 <= i < j < cells.len() ==> !is_weaker(
                signal::arranged(cells, order)[i].rsrp,
                signal::arranged(cells, order)[j].rsrp,
            ),
{
    let ranked = signal::arranged(cells, order);
    assert forall|i: int, j: int|
        #![trigger ranked[i], ranked[j]]
        0 <= i < j < cells.len() implies !is_weaker(ranked[i].rsrp, ranked[j].rsrp) by {
        assert(signal::outranks(keys, order[i], order[j]));
        assert(ranked[i] == cells[order[i]] && ranked[j] == cells[order[j]]);
    }
}

/// Whether the numeral `t` is known to stand for less than the numeral `u`: both are plain, or `t`
/// is minus infinity and `u` is plain.
pub open spec fn is_below(t: Seq<char>, u: Seq<char>) -> bool {
    match (numbers::numeral_value(t), numbers::numeral_value(u)) {
        (Some(v), Some(w)) => numbers::is_less(v, w),
        (None, Some(_)) => t == "-inf"@,
        _ => false,
    }
}

/// Whether the keys that `key` gives do not fall as the numerals grow.
pub open spec fn follows_numerals<F: Fn(&str) -> i64>(key: F) -> bool {
    forall|t: Seq<char>, u: Seq<char>, k: i64, l: i64|
        #[trigger] signal::gives(key, t, k) && #[trigger] signal::gives(key, u, l) && is_below(t, u)
            ==> k <= l
}

/// Whether `key` does not tell two cells apart.
pub open spec fn are_level<F: Fn(&str) -> i64>(
    key: F,
    a: Cell<Measure>,
    b: Cell<Measure>,
) -> bool {
    exists|k: i64|
        #[trigger] signal::gives(key, signal::rank_numeral(a), k) && signal::gives(
            key,
            signal::rank_numeral(b),
            k,
        )
}

proof fn lemma_numerals(ls: Seq<Seq<char>>)
    ensures
        forall|i: int|
            0 <= i < signal::cells_in(ls).len() ==> {
                (#[trigger] signal::cells_in(ls)[i]).rsrp matches Some(m) ==> m is Numeral
            },
    decreases ls.len(),
{
    if ls.len() > 0 {
        lemma_numerals(ls.drop_last());
        let before = signal::cells_in(ls.drop_last());
        let all = signal::cells_in(ls);
        assert forall|i: int| 0 <= i < all.len() implies {
            (#[trigger] all[i]).rsrp matches Some(m) ==> m is Numeral
        } by {
            if i < before.len() {
                assert(all[i] == before[i]);
            }
        }
    }
}

/// Where the keys do not fall as the numerals grow, the cells that some lines describe are ranked
/// with none before a stronger one, but for those that the keys do not tell apart. None is lost
/// and none is added.
pub proof fn theorem_strongest_cell_first<F: Fn(&str) -> i64>(
    key: F,
    ls: Seq<Seq<char>>,
    ranked: Seq<Cell<Measure>>,
)
    requires
        follows_numerals(key),
        signal::is_ranked_by(key, signal::cells_in(ls), ranked),
    ensures
        ranked.to_multiset() == signal::cells_in(ls).to_multiset(),
        forall|i: int, j: int|
            0 <= i < j < ranked.len() && is_weaker(
                (#[trigger] ranked[i]).rsrp,
                (#[trigger] ranked[j]).rsrp,
            ) ==> are_level(key, ranked[i], ranked[j]),
{
    reveal_strlit("-inf");
    let cells = signal::cells_in(ls);
    let (keys, order) = choose|keys: Seq<i64>, order: Seq<int>|
        signal::are_keys(key, cells, keys) && #[trigger] signal::is_ranking(order, keys) && ranked
            == signal::arranged(cells, order);
    lemma_numerals(ls);
    assert(numbers::numeral_value("-inf"@) is None) by {
        let u = numbers::without_sign("-inf"@);
        assert(u[0] == 'i');
        assert(text::digit_run(u) == 0);
    }
    assert forall|i: int, j: int|
        0 <= i < j < ranked.len() && is_weaker(
            (#[trigger] ranked[i]).rsrp,
            (#[trigger] ranked[j]).rsrp,
        ) implies are_level(key, ranked[i], ranked[j]) by {
        let a = cells[order[i]];
        let b = cells[order[j]];
        assert(signal::outranks(keys, order[i], order[j]));
        assert(ranked[i] == a && ranked[j] == b);
        assert(signal::gives(key, signal::rank_numeral(a), keys[order[i]]));
        assert(signal::gives(key, signal::rank_numeral(b), keys[order[j]]));
        assert(is_below(signal::rank_numeral(a), signal::rank_numeral(b)));
    }
    signal::theorem_ranking_is_a_permutation(order, keys);
    lemma_arranged_multiset(cells, order);
}

/// Items that are put in a new order are the same items.
proof fn lemma_arranged_multiset<A>(items: Seq<A>, order: Seq<int>)
    requires
        order.len() == items.len(),
        order.no_duplicates(),
        forall|i: int| 0 <= i < order.len() ==> 0 <= #[trigger] order[i] < items.len(),
        forall|k: int| 0 <= k < items.len() ==> #[trigger] order.contains(k),
    ensures
        signal::arranged(items, order).to_multiset() == items.to_multiset(),
    decreases items.len(),
{
    broadcast use vstd::seq_lib::group_to_multiset_ensures;

    let ranked = signal::arranged(items, order);
    if items.len() > 0 {
        let n = items.len() - 1;
        assert(order.contains(n));
        let p = choose|p: int| 0 <= p < order.len() && order[p] == n;
        let rest = order.remove(p);
        let fewer = items.drop_last();
        assert forall|i: int| 0 <= i < rest.len() implies 0 <= #[trigger] rest[i] < n by {
            if i < p {
                assert(rest[i] == order[i]);
            } else {
                assert(rest[i] == order[i + 1]);
            }
        }
        assert forall|k: int| 0 <= k < fewer.len() implies #[trigger] rest.contains(k) by {
            assert(order.contains(k));
            let q = choose|q: int| 0 <= q < order.len() && order[q] == k;
            if q < p {
                assert(rest[q] == k);
            } else {
                assert(rest[q - 1] == k);
            }
        }
        lemma_arranged_multiset(fewer, rest);
        assert(ranked.remove(p) =~= signal::arranged(fewer, rest));
        assert(ranked[p] == items.last());
        assert(fewer.push(items.last()) =~= items);
        assert(ranked.remove(p).to_multiset() =~= ranked.to_multiset().remove(ranked[p]));
        assert(ranked.to_multiset() =~= ranked.remove(p).to_multiset().insert(ranked[p])) by {
            assert(ranked.contains(ranked[p]));
        }
        assert(items.to_multiset() =~= fewer.to_multiset().insert(items.last()));
    } else {
        assert(ranked =~= items);
    }
}

proof fn lemma_all_digits(s: Seq<char>)
    requires
        forall|i: int| 0 <= i < s.len() ==> text::is_digit(#[trigger] s[i]),
    ensures
        text::digit_run(s) == s.len(),
    decreases s.len(),
{
    if s.len() > 0 {
        assert forall|i: int| 0 <= i < s.skip(1).len() implies text::is_digit(
            #[trigger] s.skip(1)[i],
        ) by {
            assert(s.skip(1)[i] == s[i + 1]);
        }
        lemma_all_digits(s.skip(1));
    }
}

/// The value of the decimal notation of a whole number is that number, and with a minus sign it
/// is its opposite.
pub proof fn theorem_value_of_whole_numeral(n: nat)
    ensures
        numbers::numeral_value(numbers::decimal(n)) == Some((n as int, 0nat)),
        numbers::numeral_value(seq!['-'] + numbers::decimal(n)) == Some((-(n as int), 0nat)),
{
    let d = numbers::decimal(n);
    let m = seq!['-'] + d;
    numbers::lemma_decimal(n);
    lemma_all_digits(d);
    assert(text::is_digit(d[0]));
    assert(numbers::without_sign(d) == d);
    assert(m.skip(1) == d);
    assert(numbers::without_sign(m) == d);
}

// ---------------------------------------------------------------------------
// Whole replies
// ---------------------------------------------------------------------------
/// Each line of a reply gives its cell, whatever the lines before it gave: the list grows by it at
/// the end, and a line without a cell leaves it as it is.
pub proof fn theorem_each_line_gives_its_cell(ls: Seq<Seq<char>>, l: Seq<char>)
    ensures
        signal::cell_in(l) matches Some(c) ==> signal::cells_in(ls.push(l)) == signal::cells_in(
            ls,
        ).push(c),
        signal::cell_in(l) is None ==> signal::cells_in(ls.push(l)) == signal::cells_in(ls),
{
    assert(ls.push(l).drop_last() == ls);
}

/// Two replies one after the other list the cells of both.
pub proof fn theorem_lists_of_cells_add_up(a: Seq<Seq<char>>, b: Seq<Seq<char>>)
    ensures
        signal::cells_in(a + b) == signal::cells_in(a) + signal::cells_in(b),
    decreases b.len(),
{
    if b.len() == 0 {
        assert(a + b == a);
        assert(signal::cells_in(a) + signal::cells_in(b) == signal::cells_in(a));
    } else {
        theorem_lists_of_cells_add_up(a, b.drop_last());
        assert((a + b).drop_last() == a + b.drop_last());
        assert(signal::cells_in(a + b) == signal::cells_in(a) + signal::cells_in(b));
    }
}

/// There are as many cells as lines that describe one.
pub proof fn theorem_one_cell_for_each_line(ls: Seq<Seq<char>>)
    ensures
        signal::cells_in(ls).len() == ls.filter(
            |l: Seq<char>| signal::cell_in(l) is Some,
        ).len(),
    decreases ls.len(),
{
    reveal(Seq::filter);
    if ls.len() > 0 {
        theorem_one_cell_for_each_line(ls.drop_last());
    }
}

/// A line that does not begin with the mark of a list of cells describes none.
pub proof fn theorem_other_lines_describe_no_cell(l: Seq<char>)
    requires
        !"$QCRSRP"@.is_prefix_of(text::uppercase(text::trimmed(l))),
        !"+VZWRSRP"@.is_prefix_of(text::uppercase(text::trimmed(l))),
    ensures
        signal::cell_in(l) is None,
{
}

/// The lines that describe some cells, one for each.
pub open spec fn cell_lines(cells: Seq<(u16, u32, Seq<char>, Seq<char>)>) -> Seq<Seq<char>> {
    Seq::new(
        cells.len(),
        |i: int| cell_line(cells[i].0 as nat, cells[i].1 as nat, cells[i].2, cells[i].3),
    )
}

/// Cells are listed as the modem wrote them, one for each line and in their order, even where two
/// of them share a number or a carrier.
pub proof fn theorem_all_cells_are_listed(cells: Seq<(u16, u32, Seq<char>, Seq<char>)>)
    requires
        forall|i: int|
            0 <= i < cells.len() ==> is_written_measure((#[trigger] cells[i]).2)
                && is_written_measure(cells[i].3),
    ensures
        signal::cells_in(cell_lines(cells)) == Seq::new(
            cells.len(),
            |i: int|
                Cell {
                    earfcn: cells[i].1,
                    pci: cells[i].0,
                    rsrp: Some(Measure::Numeral(cells[i].2)),
                    rsrq: Some(Measure::Numeral(cells[i].3)),
                },
        ),
    decreases cells.len(),
{
    let ls = cell_lines(cells);
    if cells.len() > 0 {
        let init = cells.drop_last();
        let c = cells[cells.len() - 1];
        assert(init.len() + 1 == cells.len());
        assert forall|i: int| 0 <= i < init.len() implies is_written_measure(
            (#[trigger] init[i]).2,
        ) && is_written_measure(init[i].3) by {
            assert(init[i] == cells[i]);
        }
        theorem_all_cells_are_listed(init);
        assert(is_written_measure(c.2) && is_written_measure(c.3));
        theorem_cell_line_is_read(c.0, c.1, c.2, c.3);
        assert(ls.drop_last() =~= cell_lines(init));
        assert(ls.last() == cell_line(c.0 as nat, c.1 as nat, c.2, c.3));
    } else {
        assert(ls.len() == 0);
    }
}

/// Cells that are level stay in the order in which the modem listed them.
pub proof fn theorem_level_cells_stay_in_order(keys: Seq<i64>, order: Seq<int>, i: int, j: int)
    requires
        signal::is_ranking(order, keys),
        0 <= i < j < order.len(),
    ensures
        keys[order[i]] >= keys[order[j]],
        keys[order[i]] == keys[order[j]] ==> order[i] < order[j],
{
    assert(signal::outranks(keys, order[i], order[j]));
}

// ---------------------------------------------------------------------------
// Labelled measurements
// ---------------------------------------------------------------------------
/// A numeral: a sign or none, digits, and digits after a point or none.
pub open spec fn numeral(sign: Seq<char>, whole: Seq<char>, frac: Seq<char>) -> Seq<char> {
    sign + whole + (if frac.len() > 0 {
        seq!['.'] + frac
    } else {
        seq![]
    })
}

/// Whether the parts make a numeral.
pub open spec fn are_numeral_parts(sign: Seq<char>, whole: Seq<char>, frac: Seq<char>) -> bool {
    &&& sign == Seq::<char>::empty() || sign == seq!['-'] || sign == seq!['+']
    &&& whole.len() > 0
    &&& forall|i: int| 0 <= i < whole.len() ==> text::is_digit(#[trigger] whole[i])
    &&& forall|i: int| 0 <= i < frac.len() ==> text::is_digit(#[trigger] frac[i])
}

/// Whether a numeral ends where `rest` follows it.
pub open spec fn ends_numeral(rest: Seq<char>) -> bool {
    rest.len() > 0 ==> !text::is_digit(rest[0]) && (rest[0] == '.' ==> rest.len() == 1
        || !text::is_digit(rest[1]))
}

proof fn lemma_digits_then(d: Seq<char>, rest: Seq<char>)
    requires
        forall|i: int| 0 <= i < d.len() ==> text::is_digit(#[trigger] d[i]),
        rest.len() > 0 ==> !text::is_digit(rest[0]),
    ensures
        text::digit_run(d + rest) == d.len(),
    decreases d.len(),
{
    let s = d + rest;
    if d.len() == 0 {
        assert(s == rest);
    } else {
        assert(s[0] == d[0]);
        assert(s.skip(1) == d.skip(1) + rest);
        assert forall|i: int| 0 <= i < d.skip(1).len() implies text::is_digit(
            #[trigger] d.skip(1)[i],
        ) by {
            assert(d.skip(1)[i] == d[i + 1]);
        }
        lemma_digits_then(d.skip(1), rest);
    }
}

proof fn lemma_numeral_len(sign: Seq<char>, whole: Seq<char>, frac: Seq<char>, rest: Seq<char>)
    requires
        are_numeral_parts(sign, whole, frac),
        ends_numeral(rest),
    ensures
        signal::numeral_len(numeral(sign, whole, frac) + rest) == numeral(sign, whole, frac).len(),
        signal::begins_numeral(numeral(sign, whole, frac) + rest),
{
    let n = numeral(sign, whole, frac);
    let s = n + rest;
    let point = if frac.len() > 0 {
        seq!['.'] + frac
    } else {
        seq![]
    };
    let after = point + rest;
    assert(text::is_digit(whole[0]));
    let k = sign.len() as int;
    assert(s.skip(k) == whole + after);
    if k > 0 {
        assert(s[0] == sign[0]);
        assert(s[1] == whole[0]);
    } else {
        assert(s[0] == whole[0]);
    }
    assert(after.len() > 0 ==> !text::is_digit(after[0])) by {
        if frac.len() > 0 {
            assert(after[0] == '.');
        } else {
            assert(after == rest);
        }
    }
    lemma_digits_then(whole, after);
    let w = k + whole.len() as int;
    assert(s.skip(w) == after);
    if frac.len() > 0 {
        assert(after[1] == frac[0]);
        assert(text::is_digit(frac[0]));
        assert(after.skip(1) == frac + rest);
        lemma_digits_then(frac, rest);
    } else {
        assert(after == rest);
    }
}

/// A text without digits and signs.
pub open spec fn is_gap(s: Seq<char>) -> bool {
    forall|i: int|
        0 <= i < s.len() ==> !text::is_digit(#[trigger] s[i]) && !numbers::is_sign(s[i])
}

proof fn lemma_gap(gap: Seq<char>, n: Seq<char>)
    requires
        is_gap(gap),
        signal::begins_numeral(n),
    ensures
        signal::numeral_start(gap + n) == gap.len(),
    decreases gap.len(),
{
    let s = gap + n;
    if gap.len() == 0 {
        assert(s == n);
    } else {
        assert(s[0] == gap[0]);
        assert(s.skip(1) == gap.skip(1) + n);
        assert forall|i: int| 0 <= i < gap.skip(1).len() implies !text::is_digit(
            #[trigger] gap.skip(1)[i],
        ) && !numbers::is_sign(gap.skip(1)[i]) by {
            assert(gap.skip(1)[i] == gap[i + 1]);
        }
        lemma_gap(gap.skip(1), n);
    }
}

/// A labelled measurement is read as it is written, with its sign and its fraction: whatever
/// stands between the label and the numeral, and whatever follows.
pub proof fn theorem_labelled_numeral_is_read(
    before: Seq<char>,
    label: Seq<char>,
    gap: Seq<char>,
    sign: Seq<char>,
    whole: Seq<char>,
    frac: Seq<char>,
    rest: Seq<char>,
    key: Seq<char>,
)
    requires
        text::uppercase(label) == key,
        is_gap(gap),
        are_numeral_parts(sign, whole, frac),
        ends_numeral(rest),
        forall|j: int|
            0 <= j < before.len() ==> !key.is_prefix_of(
                #[trigger] text::uppercase(
                    before + label + gap + numeral(sign, whole, frac) + rest,
                ).skip(j),
            ),
    ensures
        signal::numeral_after(before + label + gap + numeral(sign, whole, frac) + rest, key)
            == Some(numeral(sign, whole, frac)),
{
    let n = numeral(sign, whole, frac);
    let line = before + label + gap + n + rest;
    let u = text::uppercase(line);
    let b = before.len() as int;
    text::lemma_occurrence(u, key);
    assert(key.is_prefix_of(u.skip(b))) by {
        assert forall|i: int| 0 <= i < key.len() implies u.skip(b)[i] == key[i] by {
            assert(line[b + i] == label[i]);
            assert(text::uppercase(label)[i] == key[i]);
        }
    }
    assert(text::occurrence(u, key) == Some(b)) by {
        match text::occurrence(u, key) {
            Some(i) => {
                if i < b {
                    assert(u.subrange(i, i + key.len()) == key);
                    assert(key.is_prefix_of(u.skip(i)));
                } else if i > b {
                    assert(!key.is_prefix_of(u.skip(b)));
                }
            },
            None => {
                assert(!key.is_prefix_of(u.skip(b)));
            },
        }
    }
    let t = line.skip(b + key.len() as int);
    assert(t == gap + (n + rest));
    lemma_numeral_len(sign, whole, frac, rest);
    lemma_gap(gap, n + rest);
    let g = gap.len() as int;
    assert(t.skip(g) == n + rest);
    assert(t.subrange(g, g + n.len()) == n);
}

/// A line in which a letter of the label stands only where the label needs it does not hold
/// another label.
proof fn lemma_foreign(u: Seq<char>, label: Seq<char>, other: Seq<char>)
    requires
        label.is_prefix_of(u),
        other.len() > 0,
        forall|i: int| label.len() <= i < u.len() ==> (#[trigger] u[i]) != other[0],
        forall|j: int| 0 <= j < label.len() ==> !fits_at(label, other, j),
    ensures
        !text::occurs(u, other),
{
    text::lemma_occurrence(u, other);
    match text::occurrence(u, other) {
        Some(i) => {
            assert(u.subrange(i, i + other.len()) == other);
            assert(u[i] == other[0]) by {
                assert(u.subrange(i, i + other.len())[0] == u[i]);
            }
            assert(i < label.len());
            assert(fits_at(label, other, i)) by {
                assert forall|k: int| 0 <= k < other.len() && i + k < label.len() implies
                    label[i + k] == other[k] by {
                    assert(u.subrange(i, i + other.len())[k] == u[i + k]);
                }
            }
        },
        None => {},
    }
}

/// Whether a label could begin within another one, at its `j`th letter.
spec fn fits_at(label: Seq<char>, other: Seq<char>, j: int) -> bool {
    forall|k: int| 0 <= k < other.len() && j + k < label.len() ==> label[j + k] == other[k]
}

/// A text after a measurement that holds no letter that a label begins with.
pub open spec fn is_unit(s: Seq<char>) -> bool {
    &&& s.len() > 0 ==> !text::is_white_space(s.last())
    &&& forall|i: int|
        0 <= i < s.len() ==> {
            let c = text::upper_char(#[trigger] s[i]);
            c != 'R' && c != 'S' && c != 'E' && c != 'P'
        }
}

/// A line with a labelled measurement.
pub open spec fn measure_line(label: Seq<char>, n: Seq<char>, unit: Seq<char>) -> Seq<char> {
    label + ": "@ + n + unit
}

/// The four labels of measurements.
pub open spec fn is_label(label: Seq<char>) -> bool {
    label == "RSRP"@ || label == "RSRQ"@ || label == "SINR"@ || label == "RSSI"@
}

proof fn lemma_measure_line(
    label: Seq<char>,
    sign: Seq<char>,
    whole: Seq<char>,
    frac: Seq<char>,
    unit: Seq<char>,
)
    requires
        is_label(label),
        are_numeral_parts(sign, whole, frac),
        ends_numeral(unit),
        is_unit(unit),
    ensures
        ({
            let t = measure_line(label, numeral(sign, whole, frac), unit);
            &&& text::trimmed(t) == t
            &&& signal::labelled(t, label) == Some(Measure::Numeral(numeral(sign, whole, frac)))
            &&& forall|other: Seq<char>|
                is_label(other) && other != label ==> #[trigger] signal::labelled(t, other) is None
            &&& !text::occurs(text::uppercase(t), "PCI"@)
            &&& !text::occurs(text::uppercase(t), "EARFCN"@)
            &&& text::after_prefix(text::uppercase(t), "+CESQ:"@) is None
            &&& text::after_prefix(text::uppercase(t), "+CSQ:"@) is None
        }),
{
    reveal_strlit(": ");
    reveal_strlit("RSRP");
    reveal_strlit("RSRQ");
    reveal_strlit("SINR");
    reveal_strlit("RSSI");
    reveal_strlit("PCI");
    reveal_strlit("EARFCN");
    reveal_strlit("+CESQ:");
    reveal_strlit("+CSQ:");
    reveal_strlit("+CESQ");
    let n = numeral(sign, whole, frac);
    let t = measure_line(label, n, unit);
    let u = text::uppercase(t);
    assert(text::is_digit(whole[0]));
    assert(text::is_digit(whole[whole.len() - 1]));
    assert(frac.len() > 0 ==> text::is_digit(frac[frac.len() - 1]));
    assert(n.len() > 0 && text::is_digit(n.last()));
    assert(t[0] == label[0]);
    assert(t.last() == (if unit.len() > 0 {
        unit.last()
    } else {
        n.last()
    }));
    text::lemma_trimmed_of_plain(t);
    assert(text::uppercase(label) =~= label);
    let gap = ": "@;
    assert(t == Seq::<char>::empty() + label + gap + n + unit);
    theorem_labelled_numeral_is_read(seq![], label, gap, sign, whole, frac, unit, label);
    assert(u[0] == label[0]);
    assert(label.is_prefix_of(u)) by {
        assert forall|i: int| 0 <= i < label.len() implies u[i] == label[i] by {
            assert(t[i] == label[i]);
        }
    }
    text::lemma_occurrence(u, label);
    assert(text::occurs(u, label)) by {
        assert(u.skip(0) == u);
        assert(label.is_prefix_of(u.skip(0)));
    }
    assert forall|i: int| label.len() <= i < u.len() implies (#[trigger] u[i]) != 'R' && u[i] != 'S'
        && u[i] != 'E' && u[i] != 'P' by {
        let m = label.len() + 2;
        assert(u[i] == text::upper_char(t[i]));
        if i < m {
            assert(t[i] == gap[i - label.len()]);
        } else if i < m + n.len() {
            assert(t[i] == n[i - m]);
            let k = i - m;
            let a = sign.len() as int;
            let b = a + whole.len();
            if k < a {
                assert(n[k] == sign[k]);
            } else if k < b {
                assert(n[k] == whole[k - a]);
                assert(text::is_digit(whole[k - a]));
            } else if k > b {
                assert(n[k] == frac[k - b - 1]);
                assert(text::is_digit(frac[k - b - 1]));
            }
        } else {
            assert(t[i] == unit[i - m - n.len()]);
        }
    }
    lemma_labels_apart(label);
    let marked = label.push(':');
    assert(marked.is_prefix_of(u)) by {
        assert(t[4] == ':');
        assert(u[4] == ':');
    }
    lemma_foreign(u, marked, "PCI"@);
    lemma_foreign(u, marked, "EARFCN"@);
    assert forall|other: Seq<char>| is_label(other) && other != label implies #[trigger]
        signal::labelled(t, other) is None by {
        lemma_foreign(u, marked, other);
    }
}

proof fn lemma_labels_apart(label: Seq<char>)
    requires
        is_label(label),
    ensures
        label.len() == 4,
        forall|j: int| 0 <= j < 5 ==> !fits_at(label.push(':'), "PCI"@, j),
        forall|j: int| 0 <= j < 5 ==> !fits_at(label.push(':'), "EARFCN"@, j),
        forall|other: Seq<char>, j: int|
            is_label(other) && other != label && 0 <= j < 5 ==> !#[trigger] fits_at(
                label.push(':'),
                other,
                j,
            ),
{
    reveal_strlit("RSRP");
    reveal_strlit("RSRQ");
    reveal_strlit("SINR");
    reveal_strlit("RSSI");
    reveal_strlit("PCI");
    reveal_strlit("EARFCN");
    let marked = label.push(':');
    let pci = "PCI"@;
    let earfcn = "EARFCN"@;
    assert forall|j: int| 0 <= j < 5 implies !fits_at(marked, pci, j) by {
        if fits_at(marked, pci, j) {
            assert(marked[j + 0] == pci[0]);
            if j + 1 < 5 {
                assert(marked[j + 1] == pci[1]);
            }
        }
    }
    assert forall|j: int| 0 <= j < 5 implies !fits_at(marked, earfcn, j) by {
        assert(marked[j + 0] != earfcn[0]);
    }
    assert forall|other: Seq<char>, j: int|
        is_label(other) && other != label && 0 <= j < 5 implies !#[trigger] fits_at(
        marked,
        other,
        j,
    ) by {
        if fits_at(marked, other, j) {
            assert(marked[j + 0] == other[0]);
            if j + 1 < 5 {
                assert(marked[j + 1] == other[1]);
            }
            if j + 2 < 5 {
                assert(marked[j + 2] == other[2]);
            }
            if j + 3 < 5 {
                assert(marked[j + 3] == other[3]);
            }
        }
    }
}

/// What was known stays; what was not is filled in.
pub open spec fn filled_in(before: Option<Measure>, n: Seq<char>) -> Option<Measure> {
    match before {
        Some(m) => Some(m),
        None => Some(Measure::Numeral(n)),
    }
}

/// A line with a labelled measurement tells of that measurement and of nothing else: the first
/// one of a kind counts, and it counts as it is written.
pub proof fn theorem_measure_line_is_read(
    ls: Seq<Seq<char>>,
    label: Seq<char>,
    sign: Seq<char>,
    whole: Seq<char>,
    frac: Seq<char>,
    unit: Seq<char>,
)
    requires
        is_label(label),
        are_numeral_parts(sign, whole, frac),
        ends_numeral(unit),
        is_unit(unit),
    ensures
        ({
            let n = numeral(sign, whole, frac);
            let before = signal::signal_of(ls);
            let after = signal::signal_of(ls.push(measure_line(label, n, unit)));
            &&& after.rsrp == (if label == "RSRP"@ {
                filled_in(before.rsrp, n)
            } else {
                before.rsrp
            })
            &&& after.rsrq == (if label == "RSRQ"@ {
                filled_in(before.rsrq, n)
            } else {
                before.rsrq
            })
            &&& after.sinr == (if label == "SINR"@ {
                filled_in(before.sinr, n)
            } else {
                before.sinr
            })
            &&& after.rssi == (if label == "RSSI"@ {
                filled_in(before.rssi, n)
            } else {
                before.rssi
            })
            &&& after.earfcn == before.earfcn
            &&& after.pci == before.pci
            &&& after.band == before.band
            &&& after.operator == before.operator
            &&& after.registered == before.registered
        }),
{
    let t = measure_line(label, numeral(sign, whole, frac), unit);
    assert(ls.push(t).drop_last() == ls);
    lemma_measure_line(label, sign, whole, frac, unit);
    assert(signal::integer_after(t, "EARFCN"@) is None);
    assert(is_label("RSRP"@) && is_label("RSRQ"@) && is_label("SINR"@) && is_label("RSSI"@));
    assert("RSRP"@ != label ==> signal::labelled(t, "RSRP"@) is None);
    assert("RSRQ"@ != label ==> signal::labelled(t, "RSRQ"@) is None);
    assert("SINR"@ != label ==> signal::labelled(t, "SINR"@) is None);
    assert("RSSI"@ != label ==> signal::labelled(t, "RSSI"@) is None);
}

/// What says nothing of anything.
proof fn lemma_no_label(t: Seq<char>, u: Seq<char>, mark: Seq<char>)
    requires
        u == text::uppercase(t),
        mark.is_prefix_of(u),
        forall|i: int|
            mark.len() <= i < u.len() ==> (#[trigger] u[i]) != 'R' && u[i] != 'S' && u[i] != 'P',
        forall|other: Seq<char>, j: int|
            is_label(other) && 0 <= j < mark.len() ==> !#[trigger] fits_at(mark, other, j),
    ensures
        signal::labelled(t, "RSRP"@) is None,
        signal::labelled(t, "RSRQ"@) is None,
        signal::labelled(t, "SINR"@) is None,
        signal::labelled(t, "RSSI"@) is None,
{
    reveal_strlit("RSRP");
    reveal_strlit("RSRQ");
    reveal_strlit("SINR");
    reveal_strlit("RSSI");
    lemma_foreign(u, mark, "RSRP"@);
    lemma_foreign(u, mark, "RSRQ"@);
    lemma_foreign(u, mark, "SINR"@);
    lemma_foreign(u, mark, "RSSI"@);
}

proof fn lemma_mark_without_labels(mark: Seq<char>)
    requires
        forall|j: int|
            0 <= j < mark.len() ==> (#[trigger] mark[j] == 'R' ==> j + 1 < mark.len() && mark[j + 1]
                != 'S') && (mark[j] == 'S' ==> j + 1 < mark.len() && mark[j + 1] != 'I'),
    ensures
        forall|other: Seq<char>, j: int|
            is_label(other) && 0 <= j < mark.len() ==> !#[trigger] fits_at(mark, other, j),
{
    reveal_strlit("RSRP");
    reveal_strlit("RSRQ");
    reveal_strlit("SINR");
    reveal_strlit("RSSI");
    assert forall|other: Seq<char>, j: int|
        is_label(other) && 0 <= j < mark.len() implies !#[trigger] fits_at(mark, other, j) by {
        if fits_at(mark, other, j) {
            assert(mark[j + 0] == other[0]);
            if j + 1 < mark.len() {
                assert(mark[j + 1] == other[1]);
            }
        }
    }
}

/// The line that names the carrier, as the modem writes it.
pub open spec fn carrier_line(down: nat, up: nat) -> Seq<char> {
    "EARFCN(DL/UL): "@ + numbers::decimal(down) + "/"@ + numbers::decimal(up)
}

/// The carrier is read from its line: the number before the slash. Nothing else changes.
pub proof fn theorem_carrier_line_is_read(ls: Seq<Seq<char>>, down: u32, up: u32)
    ensures
        signal::signal_of(ls.push(carrier_line(down as nat, up as nat))) == (SignalView {
            earfcn: Some(down),
            ..signal::signal_of(ls)
        }),
{
    reveal_strlit("EARFCN(DL/UL): ");
    reveal_strlit("/");
    reveal_strlit("EARFCN");
    reveal_strlit("PCI");
    reveal_strlit("+CESQ:");
    reveal_strlit("+CSQ:");
    let mark = "EARFCN(DL/UL): "@;
    let key = "EARFCN"@;
    let d = numbers::decimal(down as nat);
    let p = numbers::decimal(up as nat);
    let t = carrier_line(down as nat, up as nat);
    let u = text::uppercase(t);
    numbers::lemma_decimal(down as nat);
    numbers::lemma_decimal(up as nat);
    assert(ls.push(t).drop_last() == ls);
    assert(text::is_digit(p[p.len() - 1]));
    assert(t.last() == p.last());
    assert(t[0] == 'E');
    text::lemma_trimmed_of_plain(t);
    assert forall|i: int| mark.len() <= i < t.len() implies text::is_digit(#[trigger] t[i]) || t[i]
        == '/' by {
        let k = i - mark.len();
        if k < d.len() {
            assert(t[i] == d[k]);
        } else if k > d.len() {
            assert(t[i] == p[k - d.len() - 1]);
        }
    }
    assert(u =~= t) by {
        assert forall|i: int| 0 <= i < t.len() implies text::upper_char(#[trigger] t[i])
            == t[i] by {
            if i < mark.len() {
                assert(t[i] == mark[i]);
            }
        }
    }
    assert(mark.is_prefix_of(u));
    lemma_mark_without_labels(mark);
    lemma_no_label(t, u, mark);
    assert forall|j: int| 0 <= j < mark.len() implies !fits_at(mark, "PCI"@, j) by {
        assert(mark[j + 0] != "PCI"@[0]);
    }
    lemma_foreign(u, mark, "PCI"@);
    assert(u[0] == 'E');
    assert(key.is_prefix_of(u));
    assert(text::occurrence(u, key) == Some(0int));
    let rest = t.skip(6);
    let gap = mark.skip(6);
    let tail = "/"@ + p;
    assert(rest == gap + (d + tail));
    lemma_first_digit(gap, d + tail);
    lemma_digits_then(d, tail);
    assert(rest.skip(gap.len() as int) == d + tail);
    assert(rest.subrange(gap.len() as int, gap.len() as int + d.len()) == d);
    lemma_signed_of_decimal(down as nat);
    assert(signal::integer_after(t, key) == Some(down as int));
}

proof fn lemma_first_digit(gap: Seq<char>, rest: Seq<char>)
    requires
        forall|i: int| 0 <= i < gap.len() ==> !text::is_digit(#[trigger] gap[i]),
        rest.len() > 0,
        text::is_digit(rest[0]),
    ensures
        signal::first_digit(gap + rest) == gap.len(),
    decreases gap.len(),
{
    let s = gap + rest;
    if gap.len() == 0 {
        assert(s == rest);
    } else {
        assert(s[0] == gap[0]);
        assert(s.skip(1) == gap.skip(1) + rest);
        assert forall|i: int| 0 <= i < gap.skip(1).len() implies !text::is_digit(
            #[trigger] gap.skip(1)[i],
        ) by {
            assert(gap.skip(1)[i] == gap[i + 1]);
        }
        lemma_first_digit(gap.skip(1), rest);
    }
}

proof fn lemma_last_position(a: Seq<char>, c: char, b: Seq<char>)
    requires
        !b.contains(c),
    ensures
        text::last_position(a + seq![c] + b, c) == a.len(),
    decreases b.len(),
{
    let s = a + seq![c] + b;
    if b.len() == 0 {
        assert(s.last() == c);
    } else {
        assert(b.contains(b.last()));
        assert(s.last() == b.last());
        assert(s.drop_last() == a + seq![c] + b.drop_last());
        assert(!b.drop_last().contains(c)) by {
            assert forall|i: int| 0 <= i < b.drop_last().len() implies b.drop_last()[i] != c by {
                assert(b.contains(b[i]));
            }
        }
        lemma_last_position(a, c, b.drop_last());
    }
}

/// The line that names the cell, as the modem writes it.
pub open spec fn cell_name_line(node: nat, sector: nat, pci: nat) -> Seq<char> {
    "eNB ID(PCI): "@ + numbers::decimal(node) + "-"@ + numbers::decimal(sector) + "("@
        + numbers::decimal(pci) + ")"@
}

/// The cell is read from its line: the number in the last brackets. Nothing else changes.
#[verifier::spinoff_prover]
#[verifier::rlimit(50)]
pub proof fn theorem_cell_name_line_is_read(
    ls: Seq<Seq<char>>,
    node: nat,
    sector: nat,
    pci: u16,
)
    ensures
        signal::signal_of(ls.push(cell_name_line(node, sector, pci as nat))) == (SignalView {
            pci: Some(pci),
            ..signal::signal_of(ls)
        }),
{
    reveal_strlit("eNB ID(PCI): ");
    reveal_strlit("-");
    reveal_strlit("(");
    reveal_strlit(")");
    reveal_strlit("EARFCN");
    reveal_strlit("PCI");
    reveal_strlit("+CESQ:");
    reveal_strlit("+CSQ:");
    let start = "eNB ID(PCI): "@;
    let mark = text::uppercase(start);
    let a = numbers::decimal(node);
    let b = numbers::decimal(sector);
    let d = numbers::decimal(pci as nat);
    let t = cell_name_line(node, sector, pci as nat);
    let u = text::uppercase(t);
    numbers::lemma_decimal(node);
    numbers::lemma_decimal(sector);
    numbers::lemma_decimal(pci as nat);
    assert(ls.push(t).drop_last() == ls);
    assert(t.last() == ')');
    assert(t[0] == 'e');
    text::lemma_trimmed_of_plain(t);
    assert forall|i: int| start.len() <= i < t.len() implies text::is_digit(#[trigger] t[i])
        || t[i] == '-' || t[i] == '(' || t[i] == ')' by {
        let k = i - start.len();
        let k2 = k - a.len() - 1;
        let k3 = k2 - b.len() - 1;
        if k < a.len() {
            assert(t[i] == a[k]);
        } else if 0 <= k2 < b.len() {
            assert(t[i] == b[k2]);
        } else if 0 <= k3 < d.len() {
            assert(t[i] == d[k3]);
        }
    }
    assert(mark.is_prefix_of(u)) by {
        assert forall|i: int| 0 <= i < mark.len() implies u[i] == mark[i] by {
            assert(t[i] == start[i]);
        }
    }
    assert(mark =~= seq!['E', 'N', 'B', ' ', 'I', 'D', '(', 'P', 'C', 'I', ')', ':', ' ']);
    assert forall|i: int| mark.len() <= i < u.len() implies (#[trigger] u[i]) != 'R' && u[i] != 'S'
        && u[i] != 'P' && u[i] != 'E' by {
        assert(u[i] == text::upper_char(t[i]));
    }
    lemma_mark_without_labels(mark);
    lemma_no_label(t, u, mark);
    let carrier = "EARFCN"@;
    assert forall|j: int| 0 <= j < mark.len() implies !fits_at(mark, carrier, j) by {
        if fits_at(mark, carrier, j) {
            assert(mark[j + 0] == carrier[0]);
            assert(mark[j + 1] == carrier[1]);
        }
    }
    lemma_foreign(u, mark, carrier);
    assert(u[0] == 'E');
    assert(text::occurs(u, "PCI"@)) by {
        text::lemma_occurrence(u, "PCI"@);
        assert("PCI"@.is_prefix_of(u.skip(7))) by {
            assert(u[7] == mark[7] && u[8] == mark[8] && u[9] == mark[9]);
        }
    }
    let head = start + a + "-"@ + b;
    let inner = d + seq![')'];
    assert(t == head + seq!['('] + inner);
    assert(!inner.contains('(')) by {
        assert forall|i: int| 0 <= i < inner.len() implies inner[i] != '(' by {
            if i < d.len() {
                assert(inner[i] == d[i]);
                assert(text::is_digit(d[i]));
            }
        }
    }
    lemma_last_position(head, '(', inner);
    assert(t.skip(head.len() as int + 1) == inner);
    lemma_decimal_text(pci as nat);
    assert(!d.contains(')')) by {
        assert forall|i: int| 0 <= i < d.len() implies d[i] != ')' by {
            assert(text::is_digit(d[i]));
        }
    }
    text::lemma_piece(d, ')', seq![]);
    assert(d + seq![')'] + Seq::<char>::empty() == inner);
    lemma_signed_of_decimal(pci as nat);
    assert(signal::last_bracketed(t) == Some(pci as int));
}

proof fn lemma_number_list_chars(ns: Seq<nat>)
    ensures
        forall|i: int|
            0 <= i < number_list(ns).len() ==> text::is_digit(#[trigger] number_list(ns)[i])
                || number_list(ns)[i] == ',' || number_list(ns)[i] == ' ',
    decreases ns.len(),
{
    if ns.len() > 0 {
        let s = number_list(ns);
        let d = numbers::decimal(ns.last());
        numbers::lemma_decimal(ns.last());
        if ns.len() > 1 {
            let before = number_list(ns.drop_last());
            lemma_number_list_chars(ns.drop_last());
            assert forall|i: int| 0 <= i < s.len() implies text::is_digit(#[trigger] s[i]) || s[i]
                == ',' || s[i] == ' ' by {
                if i < before.len() {
                    assert(s[i] == before[i]);
                } else if i > before.len() {
                    assert(s[i] == d[i - before.len() - 1]);
                }
            }
        } else {
            assert forall|i: int| 0 <= i < s.len() implies text::is_digit(#[trigger] s[i]) || s[i]
                == ',' || s[i] == ' ' by {
                if i > 0 {
                    assert(s[i] == d[i - 1]);
                }
            }
        }
    }
}

proof fn lemma_index_line(mark: Seq<char>, ns: Seq<nat>)
    requires
        mark == "+CESQ:"@ || mark == "+CSQ:"@,
        ns.len() > 0,
        forall|i: int| 0 <= i < ns.len() ==> (#[trigger] ns[i]) < 0x8000_0000_0000_0000,
    ensures
        ({
            let t = mark + number_list(ns);
            &&& text::trimmed(t) == t
            &&& text::uppercase(t) == t
            &&& text::after_prefix(t, mark) == Some(number_list(ns))
            &&& !text::occurs(t, "PCI"@)
            &&& signal::labelled(t, "RSRP"@) is None
            &&& signal::labelled(t, "RSRQ"@) is None
            &&& signal::labelled(t, "SINR"@) is None
            &&& signal::labelled(t, "RSSI"@) is None
        }),
{
    reveal_strlit("+CESQ:");
    reveal_strlit("+CSQ:");
    reveal_strlit("PCI");
    let t = mark + number_list(ns);
    assert(text::uppercase(mark) =~= mark);
    lemma_marked_line(mark, ns);
    lemma_number_list_chars(ns);
    let list = number_list(ns);
    assert forall|i: int| mark.len() <= i < t.len() implies (#[trigger] t[i]) != 'R' && t[i] != 'S'
        && t[i] != 'P' by {
        assert(t[i] == list[i - mark.len()]);
    }
    assert(mark.is_prefix_of(t));
    lemma_mark_without_labels(mark);
    lemma_no_label(t, t, mark);
    assert forall|j: int| 0 <= j < mark.len() implies !fits_at(mark, "PCI"@, j) by {
        assert(mark[j + 0] != "PCI"@[0]);
    }
    lemma_foreign(t, mark, "PCI"@);
}

/// The indices of `+CESQ` are read from a reply: the sixth one gives the RSRP, from -140 dBm in
/// steps of 1 dB, and the fifth one the RSRQ, from -20 dB in steps of half a dB. The index 255
/// stands for unknown.
pub proof fn theorem_cesq_reply_is_read(ls: Seq<Seq<char>>, ns: Seq<nat>)
    requires
        ns.len() >= 6,
        forall|i: int| 0 <= i < ns.len() ==> (#[trigger] ns[i]) < 0x8000_0000_0000_0000,
    ensures
        ({
            let before = signal::signal_of(ls);
            let after = signal::signal_of(ls.push("+CESQ:"@ + number_list(ns)));
            &&& after.rsrp == (if ns[5] == 255 {
                None
            } else {
                Some(Measure::Halves(2 * ns[5] - 280))
            })
            &&& after.rsrq == (if ns[4] == 255 {
                None
            } else {
                Some(Measure::Halves(ns[4] - 40))
            })
            &&& after == (SignalView { rsrp: after.rsrp, rsrq: after.rsrq, ..before })
        }),
{
    let t = "+CESQ:"@ + number_list(ns);
    assert(ls.push(t).drop_last() == ls);
    lemma_index_line("+CESQ:"@, ns);
    lemma_number_list(ns);
    let want = ns.map_values(|n: nat| n as int);
    assert(signal::nums(number_list(ns)) == want);
    assert(want.len() == ns.len() && want[4] == ns[4] && want[5] == ns[5]);
}

/// The index of `+CSQ` is read from a reply: it gives the RSSI, from -113 dBm in steps of 2 dB. The
/// index 99 stands for unknown.
pub proof fn theorem_csq_reply_is_read(ls: Seq<Seq<char>>, ns: Seq<nat>)
    requires
        ns.len() >= 1,
        forall|i: int| 0 <= i < ns.len() ==> (#[trigger] ns[i]) < 0x8000_0000_0000_0000,
    ensures
        signal::signal_of(ls.push("+CSQ:"@ + number_list(ns))) == (SignalView {
            rssi: if ns[0] == 99 {
                None
            } else {
                Some(Measure::Halves(4 * ns[0] - 226))
            },
            ..signal::signal_of(ls)
        }),
{
    reveal_strlit("+CESQ:");
    reveal_strlit("+CSQ:");
    let t = "+CSQ:"@ + number_list(ns);
    assert(ls.push(t).drop_last() == ls);
    lemma_index_line("+CSQ:"@, ns);
    lemma_number_list(ns);
    let want = ns.map_values(|n: nat| n as int);
    assert(signal::nums(number_list(ns)) == want);
    assert(want.len() == ns.len() && want[0] == ns[0]);
    assert(t[2] == 'S' && "+CESQ:"@[2] == 'E');
    assert(!"+CESQ:"@.is_prefix_of(t));
}

// ---------------------------------------------------------------------------
// Registration and operator
// ---------------------------------------------------------------------------
/// The first line of `+CEREG` with a state decides: 1, at home, and 5, roaming, are a
/// registration, and no other state is. Lines of other kinds do not count, and without such a line
/// there is no registration.
pub proof fn theorem_registration_is_read(
    before: Seq<Seq<char>>,
    ns: Seq<nat>,
    after: Seq<Seq<char>>,
)
    requires
        forall|i: int|
            0 <= i < before.len() ==> !"+CEREG:"@.is_prefix_of(
                text::uppercase(text::trimmed(#[trigger] before[i])),
            ),
        ns.len() >= 2,
        forall|i: int| 0 <= i < ns.len() ==> (#[trigger] ns[i]) < 0x8000_0000_0000_0000,
    ensures
        signal::registered_in(before + seq!["+CEREG:"@ + number_list(ns)] + after) <==> ns[1] == 1
            || ns[1] == 5,
        !signal::registered_in(before),
    decreases before.len(),
{
    reveal_strlit("+CEREG:");
    let mark = "+CEREG:"@;
    let line = mark + number_list(ns);
    let all = before + seq![line] + after;
    if before.len() == 0 {
        assert(text::uppercase(mark) =~= mark);
        lemma_marked_line(mark, ns);
        lemma_number_list(ns);
        let want = ns.map_values(|n: nat| n as int);
        assert(signal::nums(number_list(ns)) == want);
        assert(want.len() == ns.len() && want[1] == ns[1]);
        assert(all[0] == line);
    } else {
        let rest = before.skip(1);
        assert forall|i: int| 0 <= i < rest.len() implies !mark.is_prefix_of(
            text::uppercase(text::trimmed(#[trigger] rest[i])),
        ) by {
            assert(rest[i] == before[i + 1]);
        }
        theorem_registration_is_read(rest, ns, after);
        assert(all[0] == before[0]);
        assert(!mark.is_prefix_of(text::uppercase(text::trimmed(before[0]))));
        assert(signal::registration(before[0]) is None);
        assert(all.skip(1) == rest + seq![line] + after);
    }
}

/// The name of the operator is what stands in the first quotation marks of the first line of
/// `+COPS`, without the blanks there, whatever stands around it; nothing but blanks is no name.
pub proof fn theorem_operator_is_read(
    before: Seq<Seq<char>>,
    head: Seq<char>,
    a: Seq<char>,
    name: Seq<char>,
    b: Seq<char>,
    tail: Seq<char>,
    after: Seq<Seq<char>>,
    body: Seq<char>,
)
    requires
        forall|i: int| 0 <= i < before.len() ==> !text::occurs(#[trigger] before[i], "+COPS:"@),
        !head.contains('"'),
        text_laws::is_blank(a),
        text_laws::is_blank(b),
        name.len() > 0 ==> !text::is_white_space(name[0]) && !text::is_white_space(name.last()),
        !name.contains('"'),
        text::line_list(body) == before + seq![
            "+COPS:"@ + head + "\""@ + (a + name + b) + "\""@ + tail,
        ] + after,
    ensures
        name.len() > 0 ==> signal::operator_in(body) == Some(name),
        name.len() == 0 ==> signal::operator_in(body) is None,
{
    reveal_strlit("\"");
    reveal_strlit("+COPS:");
    let mark = "+COPS:"@;
    let full = a + name + b;
    let line = mark + head + "\""@ + full + "\""@ + tail;
    text::lemma_occurrence(line, mark);
    assert(line.skip(0) == line);
    assert(mark.is_prefix_of(line.skip(0)));
    text_laws::theorem_first_line_with(before, line, after, mark);
    let start = mark + head;
    let rest = full + seq!['"'] + tail;
    assert(line == start + seq!['"'] + rest);
    assert(!start.contains('"')) by {
        assert forall|i: int| 0 <= i < start.len() implies start[i] != '"' by {
            if i < mark.len() {
                assert(start[i] == mark[i]);
            } else {
                assert(start[i] == head[i - mark.len()]);
                assert(head.contains(head[i - mark.len()]));
            }
        }
    }
    text::lemma_piece(start, '"', rest);
    assert(!full.contains('"')) by {
        assert forall|i: int| 0 <= i < full.len() implies full[i] != '"' by {
            if i < a.len() {
                assert(full[i] == a[i]);
            } else if i < a.len() + name.len() {
                assert(full[i] == name[i - a.len()]);
                assert(name.contains(name[i - a.len()]));
            } else {
                assert(full[i] == b[i - a.len() - name.len()]);
            }
        }
    }
    text::lemma_piece(full, '"', tail);
    text_laws::theorem_blanks_around(a, name, b);
}

/// Without a line of `+COPS` with a name in quotation marks there is no operator.
pub proof fn theorem_no_operator_without_name(body: Seq<char>)
    requires
        forall|i: int|
            0 <= i < text::line_list(body).len() ==> !text::occurs(
                #[trigger] text::line_list(body)[i],
                "+COPS:"@,
            ) || !text::line_list(body)[i].contains('"'),
    ensures
        signal::operator_in(body) is None,
{
    lemma_line_with_some(text::line_list(body), "+COPS:"@);
    match text::line_with(text::line_list(body), "+COPS:"@) {
        Some(line) => {
            let k = choose|k: int|
                0 <= k < text::line_list(body).len() && text::line_list(body)[k] == line;
            assert(!text::line_list(body)[k].contains('"'));
            crate::text_laws::theorem_halves_are_the_text(line, '"');
        },
        None => {},
    }
}

proof fn lemma_line_with_some(ls: Seq<Seq<char>>, pat: Seq<char>)
    ensures
        text::line_with(ls, pat) matches Some(line) ==> text::occurs(line, pat) && exists|k: int|
            0 <= k < ls.len() && #[trigger] ls[k] == line,
    decreases ls.len(),
{
    if ls.len() > 0 {
        if text::occurs(ls[0], pat) {
            assert(ls[0] == text::line_with(ls, pat)->0);
        } else {
            lemma_line_with_some(ls.skip(1), pat);
            if text::line_with(ls.skip(1), pat) is Some {
                let line = text::line_with(ls.skip(1), pat)->0;
                let k = choose|k: int| 0 <= k < ls.skip(1).len() && #[trigger] ls.skip(1)[k] == line;
                assert(ls[k + 1] == line);
            }
        }
    }
}

// ---------------------------------------------------------------------------
// Lines of cells
// ---------------------------------------------------------------------------
/// A line that describes a cell: a mark, the cell, the carrier, the RSRP, and the RSRQ or none.
pub open spec fn marked_cell_line(
    mark: Seq<char>,
    pci: nat,
    earfcn: nat,
    rsrp: Seq<char>,
    rsrq: Option<Seq<char>>,
) -> Seq<char> {
    mark + ": "@ + numbers::decimal(pci) + ","@ + numbers::decimal(earfcn) + ","@ + rsrp + (match rsrq {
        Some(q) => ","@ + q,
        None => seq![],
    })
}

/// A field of such a line.
pub open spec fn is_field(s: Seq<char>) -> bool {
    has_plain_ends(s) && !s.contains(',')
}

/// A cell is read from its line with either mark in any case, with an RSRQ or without. A measurement that is no
/// numeral is unknown, and the cell is listed all the same.
#[verifier::spinoff_prover]
#[verifier::rlimit(50)]
pub proof fn theorem_marked_cell_line_is_read(
    mark: Seq<char>,
    pci: u16,
    earfcn: u32,
    rsrp: Seq<char>,
    rsrq: Option<Seq<char>>,
)
    requires
        text::uppercase(mark) == "$QCRSRP"@ || text::uppercase(mark) == "+VZWRSRP"@,
        is_field(rsrp),
        rsrq matches Some(q) ==> is_field(q),
    ensures
        ({
            let c = signal::cell_in(marked_cell_line(mark, pci as nat, earfcn as nat, rsrp, rsrq));
            &&& c is Some
            &&& c->0.pci == pci
            &&& c->0.earfcn == earfcn
            &&& numbers::is_float(rsrp) ==> c->0.rsrp == Some(Measure::Numeral(rsrp))
            &&& !numbers::is_float(rsrp) ==> c->0.rsrp is None
            &&& rsrq is None ==> c->0.rsrq is None
            &&& rsrq matches Some(q) ==> (numbers::is_float(q) ==> c->0.rsrq == Some(
                Measure::Numeral(q),
            )) && (!numbers::is_float(q) ==> c->0.rsrq is None)
        }),
{
    reveal_strlit("$QCRSRP");
    reveal_strlit("+VZWRSRP");
    reveal_strlit(": ");
    reveal_strlit(",");
    let p = numbers::decimal(pci as nat);
    let e = numbers::decimal(earfcn as nat);
    let line = marked_cell_line(mark, pci as nat, earfcn as nat, rsrp, rsrq);
    lemma_decimal_text(pci as nat);
    lemma_decimal_text(earfcn as nat);
    let big = text::uppercase(mark);
    assert(big.len() == mark.len());
    assert(line[0] == mark[0]);
    assert(text::upper_char(mark[0]) == big[0]);
    assert(line.last() == (match rsrq {
        Some(q) => q.last(),
        None => rsrp.last(),
    }));
    text::lemma_trimmed_of_plain(line);
    let u = text::uppercase(line);
    assert(big.is_prefix_of(u)) by {
        assert forall|i: int| 0 <= i < big.len() implies u[i] == big[i] by {
            assert(line[i] == mark[i]);
        }
    }
    let end = match rsrq {
        Some(q) => seq![','] + q,
        None => seq![],
    };
    let t3 = rsrp + end;
    let t2 = e + seq![','] + t3;
    let first = seq![' '] + p;
    let rest = first + seq![','] + t2;
    assert(line == mark + seq![':'] + rest);
    assert(!mark.contains(':')) by {
        assert forall|i: int| 0 <= i < mark.len() implies mark[i] != ':' by {
            assert(text::upper_char(mark[i]) == big[i]);
        }
    }
    text::lemma_piece(mark, ':', rest);
    assert(!first.contains(',')) by {
        assert forall|i: int| 0 <= i < first.len() implies first[i] != ',' by {
            if i > 0 {
                assert(first[i] == p[i - 1]);
                assert(p.contains(p[i - 1]));
            }
        }
    }
    text::lemma_piece(first, ',', t2);
    text::lemma_piece(e, ',', t3);
    text::lemma_piece(rsrp, ',', seq![]);
    match rsrq {
        Some(q) => {
            text::lemma_piece(rsrp, ',', q);
            text::lemma_piece(q, ',', seq![]);
            assert(t3 == rsrp + seq![','] + q);
            text::lemma_trimmed_of_plain(q);
            assert(text::pieces(rest, ',') == seq![first] + (seq![e] + (seq![rsrp] + seq![q])));
        },
        None => {
            assert(t3 == rsrp);
            assert(text::pieces(rest, ',') == seq![first] + (seq![e] + seq![rsrp]));
        },
    }
    let ps = text::pieces(rest, ',');
    assert(ps[0] == first && ps[1] == e && ps[2] == rsrp);
    numbers::lemma_unsigned_of_decimal(pci as nat, 0xffff);
    numbers::lemma_unsigned_of_decimal(earfcn as nat, 0xffff_ffff);
    text::lemma_trimmed_of_plain(rsrp);
}

/// Digits with a sign or none, with a fraction or none, are a numeral.
pub proof fn theorem_numerals(sign: Seq<char>, whole: Seq<char>, frac: Seq<char>)
    requires
        are_numeral_parts(sign, whole, frac),
    ensures
        numbers::is_float(numeral(sign, whole, frac)),
{
    let n = numeral(sign, whole, frac);
    let point = if frac.len() > 0 {
        seq!['.'] + frac
    } else {
        seq![]
    };
    let u = whole + point;
    assert(text::is_digit(whole[0]));
    assert(numbers::without_sign(n) == u) by {
        if sign.len() > 0 {
            assert(n[0] == sign[0]);
            assert(n.skip(1) == u);
        } else {
            assert(n == u);
            assert(n[0] == whole[0]);
        }
    }
    lemma_digits_then(whole, point);
    assert(u.skip(whole.len() as int) == point);
    if frac.len() > 0 {
        assert(point.skip(1) == frac);
        assert(frac + Seq::<char>::empty() == frac);
        lemma_digits_then(frac, seq![]);
        assert(point.skip(1 + frac.len() as int).len() == 0);
    }
}

proof fn lemma_plain_float(whole: Seq<char>, frac: Seq<char>, point: bool, exp: Seq<char>)
    requires
        forall|i: int| 0 <= i < whole.len() ==> text::is_digit(#[trigger] whole[i]),
        forall|i: int| 0 <= i < frac.len() ==> text::is_digit(#[trigger] frac[i]),
        frac.len() > 0 ==> point,
        whole.len() + frac.len() > 0,
        exp.len() > 0 ==> exp[0] == 'e' || exp[0] == 'E',
    ensures
        numbers::is_plain_float(
            whole + (if point {
                seq!['.']
            } else {
                seq![]
            }) + frac + exp,
        ) == numbers::is_exponent(exp),
{
    let dot = if point {
        seq!['.']
    } else {
        Seq::<char>::empty()
    };
    let s = whole + dot + frac + exp;
    let r = dot + frac + exp;
    assert(s == whole + r);
    if point {
        assert(r[0] == '.');
        lemma_digits_then(whole, r);
        assert(s.skip(whole.len() as int) == r);
        assert(r.skip(1) == frac + exp);
        lemma_digits_then(frac, exp);
        assert(r.skip(1 + frac.len() as int) == exp);
    } else {
        assert(r == exp);
        lemma_digits_then(whole, r);
        assert(s.skip(whole.len() as int) == exp);
    }
}

/// What else is a numeral: digits on one side of the point only, and an exponent with a sign or
/// none; an exponent without digits is none.
pub proof fn theorem_more_numerals(
    whole: Seq<char>,
    frac: Seq<char>,
    point: bool,
    letter: char,
    sign: Seq<char>,
    digits: Seq<char>,
)
    requires
        forall|i: int| 0 <= i < whole.len() ==> text::is_digit(#[trigger] whole[i]),
        forall|i: int| 0 <= i < frac.len() ==> text::is_digit(#[trigger] frac[i]),
        forall|i: int| 0 <= i < digits.len() ==> text::is_digit(#[trigger] digits[i]),
        frac.len() > 0 ==> point,
        whole.len() + frac.len() > 0,
        letter == 'e' || letter == 'E',
        sign == Seq::<char>::empty() || sign == seq!['-'] || sign == seq!['+'],
    ensures
        ({
            let dot = if point {
                seq!['.']
            } else {
                seq![]
            };
            &&& numbers::is_float(whole + dot + frac)
            &&& digits.len() > 0 ==> numbers::is_float(
                whole + dot + frac + (seq![letter] + sign + digits),
            )
            &&& digits.len() == 0 ==> !numbers::is_float(
                whole + dot + frac + (seq![letter] + sign + digits),
            )
        }),
{
    reveal_strlit("inf");
    reveal_strlit("infinity");
    reveal_strlit("nan");
    let dot = if point {
        seq!['.']
    } else {
        Seq::<char>::empty()
    };
    let e = Seq::<char>::empty();
    let exp = seq![letter] + sign + digits;
    lemma_plain_float(whole, frac, point, e);
    lemma_plain_float(whole, frac, point, exp);
    let a = whole + dot + frac;
    assert(a + e == a);
    let b = a + exp;
    if whole.len() > 0 {
        assert(text::is_digit(whole[0]));
        assert(a[0] == whole[0] && b[0] == whole[0]);
    } else {
        assert(a[0] == '.' && b[0] == '.');
    }
    assert(numbers::without_sign(a) == a && numbers::without_sign(b) == b);
    assert(exp.skip(1) == sign + digits);
    assert(numbers::without_sign(sign + digits) == digits) by {
        if sign.len() > 0 {
            assert((sign + digits)[0] == sign[0]);
            assert((sign + digits).skip(1) == digits);
        } else {
            assert(sign + digits == digits);
            if digits.len() > 0 {
                assert(text::is_digit(digits[0]));
            }
        }
    }
    lemma_digits_then(digits, e);
    assert(digits + e == digits);
    let w = text::lowercase(b);
    assert(w[0] == text::lower_char(b[0]));
    assert("inf"@[0] == 'i' && "infinity"@[0] == 'i' && "nan"@[0] == 'n');
}

/// The words that stand for numbers without digits, and that nothing else without a digit is a
/// numeral.
pub proof fn theorem_words_for_numbers(w: Seq<char>, s: Seq<char>)
    requires
        forall|i: int| 0 <= i < s.len() ==> !text::is_digit(#[trigger] s[i]),
        text::lowercase(numbers::without_sign(s)) != "inf"@,
        text::lowercase(numbers::without_sign(s)) != "infinity"@,
        text::lowercase(numbers::without_sign(s)) != "nan"@,
    ensures
        text::lowercase(w) == "inf"@ || text::lowercase(w) == "infinity"@ || text::lowercase(w)
            == "nan"@ ==> numbers::is_float(w) && numbers::is_float(seq!['-'] + w),
        !numbers::is_float(s),
{
    reveal_strlit("inf");
    reveal_strlit("infinity");
    reveal_strlit("nan");
    assert("inf"@[0] == 'i' && "infinity"@[0] == 'i' && "nan"@[0] == 'n');
    let l = text::lowercase(w);
    if l == "inf"@ || l == "infinity"@ || l == "nan"@ {
        assert(l.len() == w.len());
        assert(l[0] == text::lower_char(w[0]));
        assert(!numbers::is_sign(w[0]));
        assert((seq!['-'] + w).skip(1) == w);
    }
    let u = numbers::without_sign(s);
    assert forall|i: int| 0 <= i < u.len() implies !text::is_digit(#[trigger] u[i]) by {
        if u != s {
            assert(u[i] == s[i + 1]);
        } else {
            assert(u[i] == s[i]);
        }
    }
    if u.len() > 0 {
        assert(!text::is_digit(u[0]));
        assert(u.skip(0) == u);
        if u.len() > 1 {
            assert(!text::is_digit(u[1]));
            assert(u.skip(1)[0] == u[1]);
        }
    }
}

/// Between commas an integer counts as it is, and what is none counts as -1.
pub proof fn theorem_numbers_between_commas(ps: Seq<Seq<char>>, i: int, n: nat)
    requires
        0 <= i < ps.len(),
        forall|k: int| 0 <= k < ps.len() ==> !(#[trigger] ps[k]).contains(','),
        n < 0x8000_0000_0000_0000,
    ensures
        ({
            let ns = signal::nums(text::joined(ps, seq![',']));
            let t = text::trimmed(ps[i]);
            &&& ns.len() == ps.len()
            &&& ps[i] == numbers::decimal(n) ==> ns[i] == n
            &&& ps[i] == seq!['-'] + numbers::decimal(n) ==> ns[i] == -n
            &&& t.len() == 0 ==> ns[i] == -1
            &&& t.len() > 0 && !text::is_digit(t[0]) && t[0] != '-' && t[0] != '+' ==> ns[i] == -1
        }),
{
    text_laws::theorem_joined_parts_are_the_pieces(ps, ',');
    let t = text::trimmed(ps[i]);
    if ps[i] == numbers::decimal(n) {
        lemma_decimal_text(n);
        lemma_signed_of_decimal(n);
    }
    if ps[i] == seq!['-'] + numbers::decimal(n) {
        let d = numbers::decimal(n);
        numbers::lemma_decimal(n);
        assert(text::is_digit(d[0]) && text::is_digit(d[d.len() - 1]));
        let m = seq!['-'] + d;
        assert(m.last() == d.last());
        text::lemma_trimmed_of_plain(m);
        assert(m.skip(1) == d);
        numbers::lemma_unsigned_of_decimal(n, 0x8000_0000_0000_0000);
        assert(numbers::without_plus(d) == d);
    }
    if t.len() > 0 && !text::is_digit(t[0]) && t[0] != '-' && t[0] != '+' {
        if numbers::all_digits(t, 10) {
            assert(numbers::digit_value(t[0]) < 10);
        }
    }
}

proof fn lemma_same_letters(a: Seq<char>, b: Seq<char>)
    requires
        text::uppercase(a) == text::uppercase(b),
    ensures
        a.len() == b.len(),
        forall|i: int| 0 <= i < a.len() ==> text::upper_char(#[trigger] a[i]) == text::upper_char(b[i]),
        forall|i: int|
            0 <= i < a.len() && text::is_digit(#[trigger] a[i]) ==> b[i] == a[i],
{
    assert(text::uppercase(a).len() == a.len() && text::uppercase(b).len() == b.len());
    assert forall|i: int| 0 <= i < a.len() implies text::upper_char(#[trigger] a[i])
        == text::upper_char(b[i]) by {
        assert(text::uppercase(a)[i] == text::upper_char(a[i]));
        assert(text::uppercase(b)[i] == text::upper_char(b[i]));
    }
}

proof fn lemma_same_digits(a: Seq<char>, b: Seq<char>)
    requires
        text::uppercase(a) == text::uppercase(b),
    ensures
        signal::first_digit(a) == signal::first_digit(b),
        0 <= signal::first_digit(a) <= a.len(),
        text::digit_run(a) == text::digit_run(b),
        text::digit_run(a) <= a.len(),
        a.take(text::digit_run(a) as int) == b.take(text::digit_run(a) as int),
    decreases a.len(),
{
    lemma_same_letters(a, b);
    lemma_same_letters(b, a);
    if a.len() > 0 {
        assert(text::is_digit(a[0]) == text::is_digit(b[0]));
        assert(text::uppercase(a.skip(1)) =~= text::uppercase(a).skip(1));
        assert(text::uppercase(b.skip(1)) =~= text::uppercase(b).skip(1));
        lemma_same_digits(a.skip(1), b.skip(1));
        if text::is_digit(a[0]) {
            let k = text::digit_run(a.skip(1)) as int;
            assert(a.take(k + 1) == seq![a[0]] + a.skip(1).take(k));
            assert(b.take(k + 1) == seq![b[0]] + b.skip(1).take(k));
        }
    } else {
        assert(a == b);
    }
}

/// The case of letters does not matter: lines that differ in it alone say the same of the
/// registration, of the indices and of the carrier, and have the same labels in the same places.
pub proof fn theorem_case_does_not_matter(
    s: SignalView<Measure>,
    a: Seq<char>,
    b: Seq<char>,
    key: Seq<char>,
)
    requires
        text::uppercase(a) == text::uppercase(b),
    ensures
        signal::with_indices(s, a) == signal::with_indices(s, b),
        signal::integer_after(a, key) == signal::integer_after(b, key),
        signal::after_label(a, key) is Some <==> signal::after_label(b, key) is Some,
        signal::after_label(a, key) matches Some(x) ==> text::uppercase(x) == text::uppercase(
            signal::after_label(b, key)->0,
        ),
{
    lemma_same_letters(a, b);
    text::lemma_occurrence(text::uppercase(a), key);
    text::lemma_occurrence(text::uppercase(a), "EARFCN"@);
    lemma_same_after(a, b, key);
    lemma_same_after(a, b, "EARFCN"@);
}

proof fn lemma_same_after(a: Seq<char>, b: Seq<char>, key: Seq<char>)
    requires
        text::uppercase(a) == text::uppercase(b),
    ensures
        signal::integer_after(a, key) == signal::integer_after(b, key),
        signal::after_label(a, key) matches Some(x) ==> text::uppercase(x) == text::uppercase(
            signal::after_label(b, key)->0,
        ),
{
    lemma_same_letters(a, b);
    text::lemma_occurrence(text::uppercase(a), key);
    match text::occurrence(text::uppercase(a), key) {
        Some(i) => {
            let x = a.skip(i + key.len() as int);
            let y = b.skip(i + key.len() as int);
            assert(text::uppercase(x) =~= text::uppercase(a).skip(i + key.len() as int));
            assert(text::uppercase(y) =~= text::uppercase(b).skip(i + key.len() as int));
            lemma_same_digits(x, y);
            let j = signal::first_digit(x);
            assert(text::uppercase(x.skip(j)) =~= text::uppercase(x).skip(j));
            assert(text::uppercase(y.skip(j)) =~= text::uppercase(y).skip(j));
            lemma_same_digits(x.skip(j), y.skip(j));
            let k = text::digit_run(x.skip(j)) as int;
            assert(x.subrange(j, j + k) == x.skip(j).take(k));
            assert(y.subrange(j, j + k) == y.skip(j).take(k));
        },
        None => {},
    }
}

/// Blanks around a line do not matter.
pub proof fn theorem_blanks_do_not_matter(
    ls: Seq<Seq<char>>,
    before: Seq<char>,
    line: Seq<char>,
    after: Seq<char>,
)
    requires
        text_laws::is_blank(before),
        text_laws::is_blank(after),
        has_plain_ends(line),
    ensures
        signal::cell_in(before + line + after) == signal::cell_in(line),
        signal::registration(before + line + after) == signal::registration(line),
        signal::signal_of(ls.push(before + line + after)) == signal::signal_of(ls.push(line)),
{
    text_laws::theorem_blanks_around(before, line, after);
    text::lemma_trimmed_of_plain(line);
    assert(ls.push(line).drop_last() == ls);
    assert(ls.push(before + line + after).drop_last() == ls);
}

proof fn lemma_last_of(x: Seq<char>, c: char, y: Seq<char>)
    requires
        !y.contains(c),
    ensures
        text::last_position(x + seq![c] + y, c) == x.len(),
    decreases y.len(),
{
    let s = x + seq![c] + y;
    if y.len() == 0 {
        assert(s.last() == c);
    } else {
        let init = y.drop_last();
        assert(s.last() == y.last());
        assert(y.contains(y[y.len() - 1]));
        assert(s.drop_last() == x + seq![c] + init);
        assert(!init.contains(c)) by {
            assert forall|i: int| 0 <= i < init.len() implies init[i] != c by {
                assert(y.contains(y[i]));
            }
        }
        lemma_last_of(x, c, init);
    }
}

/// The number in the last brackets of a line is read, with blanks around it or none, whatever
/// stands before them; without brackets there is none.
pub proof fn theorem_last_brackets(
    head: Seq<char>,
    before: Seq<char>,
    n: nat,
    after: Seq<char>,
    tail: Seq<char>,
    plain: Seq<char>,
)
    requires
        text_laws::is_blank(before),
        text_laws::is_blank(after),
        n < 0x8000_0000_0000_0000,
        !tail.contains('('),
        !plain.contains('('),
    ensures
        signal::last_bracketed(
            head + seq!['('] + (before + numbers::decimal(n) + after + seq![')'] + tail),
        ) == Some(n as int),
        signal::last_bracketed(plain) is None,
{
    let d = numbers::decimal(n);
    let inner = before + d + after;
    let rest = inner + seq![')'] + tail;
    let line = head + seq!['('] + rest;
    numbers::lemma_decimal(n);
    assert(text::is_digit(d[0]) && text::is_digit(d[d.len() - 1]));
    assert forall|i: int| 0 <= i < inner.len() implies inner[i] != '(' && inner[i] != ')' by {
        if i < before.len() {
            assert(inner[i] == before[i]);
        } else if i < before.len() + d.len() {
            assert(inner[i] == d[i - before.len()]);
            assert(text::is_digit(d[i - before.len()]));
        } else {
            assert(inner[i] == after[i - before.len() - d.len()]);
        }
    }
    assert(!rest.contains('(')) by {
        assert forall|i: int| 0 <= i < rest.len() implies rest[i] != '(' by {
            if i < inner.len() {
                assert(rest[i] == inner[i]);
            } else if i > inner.len() {
                assert(tail.contains(tail[i - inner.len() - 1]));
            }
        }
    }
    lemma_last_of(head, '(', rest);
    assert(line.skip(head.len() as int + 1) == rest);
    assert(!inner.contains(')'));
    text::lemma_piece(inner, ')', tail);
    text_laws::theorem_blanks_around(before, d, after);
    lemma_signed_of_decimal(n);
    lemma_no_last(plain, '(');
}

proof fn lemma_no_last(s: Seq<char>, c: char)
    requires
        !s.contains(c),
    ensures
        text::last_position(s, c) == -1,
    decreases s.len(),
{
    if s.len() > 0 {
        assert(s.contains(s[s.len() - 1]));
        assert(!s.drop_last().contains(c)) by {
            assert forall|i: int| 0 <= i < s.drop_last().len() implies s.drop_last()[i] != c by {
                assert(s.contains(s[i]));
            }
        }
        lemma_no_last(s.drop_last(), c);
    }
}

/// A line of `+CESQ` tells nothing by labels, whatever stands in it.
pub proof fn theorem_no_labels_among_indices(s: SignalView<Measure>, line: Seq<char>)
    requires
        "+CESQ"@.is_prefix_of(text::uppercase(line)),
    ensures
        signal::with_labels(s, line) == s,
{
}

/// A number of a cell is taken to 16 bits, and a number of a carrier to 32.
pub proof fn theorem_numbers_are_taken_to_their_bits(
    s: SignalView<Measure>,
    t: Seq<char>,
    k: int,
    p: u16,
    e: u32,
)
    ensures
        text::occurs(text::uppercase(t), "PCI"@) && signal::last_bracketed(t) == Some(
            0x1_0000 * k + p,
        ) ==> signal::with_cell(s, t) == (SignalView { pci: Some(p), ..s }),
        !text::occurs(text::uppercase(t), "PCI"@) || signal::last_bracketed(t) is None
            ==> signal::with_cell(s, t) == s,
        !"+CESQ:"@.is_prefix_of(text::uppercase(t)) && !"+CSQ:"@.is_prefix_of(text::uppercase(t))
            && signal::integer_after(t, "EARFCN"@) == Some(0x1_0000_0000 * k + e)
            ==> signal::with_indices(s, t) == (SignalView { earfcn: Some(e), ..s }),
{
    assert((0x1_0000 * k + p) % 0x1_0000 == p);
    assert((0x1_0000_0000 * k + e) % 0x1_0000_0000 == e);
}

} // verus!
