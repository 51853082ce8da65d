//! What a modem says of the cell it is in and of the cells around it.
//!
//! Measured numbers are kept the way the modem gave them, so that nothing is lost before they
//! are shown.

use crate::json::Number;
use crate::numbers;
use crate::text;
use vstd::prelude::*;
use vstd::slice::*;

verus! {

// ---------------------------------------------------------------------------
// Measurements
// ---------------------------------------------------------------------------
/// A measured number.
#[derive(Debug, PartialEq)]
pub enum Reading {
    /// A number on a scale of the modem: it stands for half of `base + step * index`.
    Scaled { base: i64, step: i64, index: i64 },
    /// A number that the modem wrote out.
    Numeral(String),
}

/// A measured number as a mathematical value: a count of halves, or what was written.
pub enum Measure {
    Halves(int),
    Numeral(Seq<char>),
}

impl View for Reading {
    type V = Measure;

    open spec fn view(&self) -> Measure {
        match self {
            Reading::Scaled { base, step, index } => Measure::Halves(
                *base + *step * *index,
            ),
            Reading::Numeral(s) => Measure::Numeral(s@),
        }
    }
}

impl DeepView for Reading {
    type V = Measure;

    open spec fn deep_view(&self) -> Measure {
        self.view()
    }
}

impl Clone for Reading {
    fn clone(&self) -> (r: Reading)
        ensures
            r@ == self@,
    {
        match self {
            Reading::Scaled { base, step, index } => Reading::Scaled {
                base: *base,
                step: *step,
                index: *index,
            },
            Reading::Numeral(s) => Reading::Numeral(s.clone()),
        }
    }
}

impl DeepView for Number {
    type V = Option<Seq<char>>;

    open spec fn deep_view(&self) -> Option<Seq<char>> {
        self.view()
    }
}

/// What is known of the serving cell. `R` is the form in which measurements are held.
#[derive(Debug)]
pub struct Signal<R> {
    pub rsrp: Option<R>,
    pub rsrq: Option<R>,
    pub sinr: Option<R>,
    pub rssi: Option<R>,
    pub earfcn: Option<u32>,
    pub pci: Option<u16>,
    pub band: Option<String>,
    pub operator: Option<String>,
    pub registered: bool,
}

/// A signal as a mathematical value.
pub struct SignalView<V> {
    pub rsrp: Option<V>,
    pub rsrq: Option<V>,
    pub sinr: Option<V>,
    pub rssi: Option<V>,
    pub earfcn: Option<u32>,
    pub pci: Option<u16>,
    pub band: Option<Seq<char>>,
    pub operator: Option<Seq<char>>,
    pub registered: bool,
}

impl<R: DeepView> View for Signal<R> {
    type V = SignalView<R::V>;

    open spec fn view(&self) -> SignalView<R::V> {
        SignalView {
            rsrp: self.rsrp.deep_view(),
            rsrq: self.rsrq.deep_view(),
            sinr: self.sinr.deep_view(),
            rssi: self.rssi.deep_view(),
            earfcn: self.earfcn,
            pci: self.pci,
            band: self.band.deep_view(),
            operator: self.operator.deep_view(),
            registered: self.registered,
        }
    }
}

impl<R: DeepView> DeepView for Signal<R> {
    type V = SignalView<R::V>;

    open spec fn deep_view(&self) -> SignalView<R::V> {
        self.view()
    }
}

/// Nothing is known.
pub open spec fn no_signal<V>() -> SignalView<V> {
    SignalView {
        rsrp: None,
        rsrq: None,
        sinr: None,
        rssi: None,
        earfcn: None,
        pci: None,
        band: None,
        operator: None,
        registered: false,
    }
}

impl<R: DeepView> Default for Signal<R> {
    /// Nothing is known.
    fn default() -> (r: Signal<R>)
        ensures
            r@ == no_signal::<R::V>(),
    {
        Signal {
            rsrp: None,
            rsrq: None,
            sinr: None,
            rssi: None,
            earfcn: None,
            pci: None,
            band: None,
            operator: None,
            registered: false,
        }
    }
}

/// Whether a clone of a measurement is the same measurement.
pub open spec fn clones_are_same<R: Clone + DeepView>() -> bool {
    forall|a: R, b: R| #[trigger] cloned(a, b) ==> a.deep_view() == b.deep_view()
}

/// A clone of a measurement is the same measurement, in both forms.
pub proof fn theorem_clones_are_same()
    ensures
        clones_are_same::<Reading>(),
        clones_are_same::<Number>(),
{
}

pub(crate) fn copy_option<R: Clone + DeepView>(r: &Option<R>) -> (c: Option<R>)
    ensures
        clones_are_same::<R>() ==> c.deep_view() == r.deep_view(),
{
    match r {
        Some(x) => {
            let y = x.clone();
            assert(cloned(*x, y));
            Some(y)
        },
        None => None,
    }
}

pub(crate) fn copy_string(s: &Option<String>) -> (c: Option<String>)
    ensures
        c.deep_view() == s.deep_view(),
{
    match s {
        Some(x) => Some(x.clone()),
        None => None,
    }
}

impl<R: Clone + DeepView> Clone for Signal<R> {
    fn clone(&self) -> (r: Signal<R>)
        ensures
            clones_are_same::<R>() ==> r@ == self@,
    {
        Signal {
            rsrp: copy_option(&self.rsrp),
            rsrq: copy_option(&self.rsrq),
            sinr: copy_option(&self.sinr),
            rssi: copy_option(&self.rssi),
            earfcn: self.earfcn,
            pci: self.pci,
            band: copy_string(&self.band),
            operator: copy_string(&self.operator),
            registered: self.registered,
        }
    }
}

/// A point of the graph.
#[derive(Debug)]
pub struct Sample<R> {
    pub ts: u64,
    pub rsrp: Option<R>,
    pub rsrq: Option<R>,
    pub sinr: Option<R>,
}

/// A sample as a mathematical value.
pub struct SampleView<V> {
    pub ts: int,
    pub rsrp: Option<V>,
    pub rsrq: Option<V>,
    pub sinr: Option<V>,
}

impl<R: DeepView> DeepView for Sample<R> {
    type V = SampleView<R::V>;

    open spec fn deep_view(&self) -> SampleView<R::V> {
        SampleView {
            ts: self.ts as int,
            rsrp: self.rsrp.deep_view(),
            rsrq: self.rsrq.deep_view(),
            sinr: self.sinr.deep_view(),
        }
    }
}

impl<R: Clone + DeepView> Clone for Sample<R> {
    fn clone(&self) -> (r: Sample<R>)
        ensures
            clones_are_same::<R>() ==> r.deep_view() == self.deep_view(),
    {
        Sample {
            ts: self.ts,
            rsrp: copy_option(&self.rsrp),
            rsrq: copy_option(&self.rsrq),
            sinr: copy_option(&self.sinr),
        }
    }
}

/// A cell in the neighbourhood.
#[derive(Debug)]
pub struct Neighbor<R> {
    pub earfcn: u32,
    pub pci: u16,
    pub rsrp: Option<R>,
    pub rsrq: Option<R>,
}

/// A neighbouring cell as a mathematical value.
pub struct Cell<V> {
    pub earfcn: u32,
    pub pci: u16,
    pub rsrp: Option<V>,
    pub rsrq: Option<V>,
}

impl<R: DeepView> DeepView for Neighbor<R> {
    type V = Cell<R::V>;

    open spec fn deep_view(&self) -> Cell<R::V> {
        Cell {
            earfcn: self.earfcn,
            pci: self.pci,
            rsrp: self.rsrp.deep_view(),
            rsrq: self.rsrq.deep_view(),
        }
    }
}

impl<R: Clone + DeepView> Clone for Neighbor<R> {
    fn clone(&self) -> (r: Neighbor<R>)
        ensures
            clones_are_same::<R>() ==> r.deep_view() == self.deep_view(),
    {
        Neighbor {
            earfcn: self.earfcn,
            pci: self.pci,
            rsrp: copy_option(&self.rsrp),
            rsrq: copy_option(&self.rsrq),
        }
    }
}

// ---------------------------------------------------------------------------
// Numbers in a line
// ---------------------------------------------------------------------------
/// The integers between commas; -1 stands for what is not an integer.
pub open spec fn nums(s: Seq<char>) -> Seq<int> {
    let ps = text::pieces(s, ',');
    Seq::new(
        ps.len(),
        |i: int|
            match numbers::signed(text::trimmed(ps[i])) {
                Some(v) => v,
                None => -1,
            },
    )
}

fn split_nums(s: &[char]) -> (r: Vec<i64>)
    ensures
        r.len() >= 1,
        r.len() == nums(s@).len(),
        forall|i: int| 0 <= i < r.len() ==> r@[i] == nums(s@)[i],
{
    let ps = text::split_char(s, ',');
    let ghost all = text::slices(ps@);
    let mut out: Vec<i64> = Vec::new();
    let mut i: usize = 0;
    while i < ps.len()
        invariant
            all == text::slices(ps@),
            all == text::pieces(s@, ','),
            i <= ps.len(),
            out.len() == i,
            forall|j: int| 0 <= j < i ==> out@[j] == nums(s@)[j],
        decreases ps.len() - i,
    {
        assert(all[i as int] == ps@[i as int]@);
        let v: i64 = match numbers::parse_signed(text::trim(ps[i])) {
            Some(v) => v,
            None => -1,
        };
        out.push(v);
        i += 1;
    }
    out
}

/// The text after the first `key` in a line, upper and lower case alike.
pub open spec fn after_label(line: Seq<char>, key: Seq<char>) -> Option<Seq<char>> {
    match text::occurrence(text::uppercase(line), key) {
        Some(i) => Some(line.skip(i + key.len() as int)),
        None => None,
    }
}

fn past_label<'a>(line: &'a [char], key: &str) -> (r: Option<&'a [char]>)
    ensures
        match r {
            Some(t) => after_label(line@, key@) == Some(t@),
            None => after_label(line@, key@) is None,
        },
{
    let upper = text::to_upper(line);
    proof {
        text::lemma_occurrence(upper@, key@);
    }
    match text::find_text(upper.as_slice(), key) {
        Some(i) => {
            let k = text::chars_of(key);
            let t = slice_subrange(line, i + k.len(), line.len());
            assert(t@ == line@.skip(i + key@.len() as int));
            Some(t)
        },
        None => None,
    }
}

/// The index of the first digit, or the length if there is none.
pub open spec fn first_digit(s: Seq<char>) -> int
    decreases s.len(),
{
    if s.len() == 0 || text::is_digit(s[0]) {
        0
    } else {
        1 + first_digit(s.skip(1))
    }
}

/// The first run of digits after a key, as a number.
pub open spec fn integer_after(line: Seq<char>, key: Seq<char>) -> Option<int> {
    match after_label(line, key) {
        Some(t) => {
            let i = first_digit(t);
            numbers::signed(t.subrange(i, i + text::digit_run(t.skip(i)) as int))
        },
        None => None,
    }
}

/// The first integer after `key`.
fn first_number_after(line: &[char], key: &str) -> (r: Option<i64>)
    ensures
        match r {
            Some(v) => integer_after(line@, key@) == Some(v as int),
            None => integer_after(line@, key@) is None,
        },
{
    let t = match past_label(line, key) {
        Some(t) => t,
        None => return None,
    };
    let mut i: usize = 0;
    assert(t@.skip(0) == t@);
    while i < t.len() && !text::digit(t[i])
        invariant
            i <= t.len(),
            first_digit(t@) == i + first_digit(t@.skip(i as int)),
        decreases t.len() - i,
    {
        assert(t@.skip(i as int).skip(1) == t@.skip(i + 1));
        i += 1;
    }
    let k: usize = text::count_digits(t, i);
    let digits = slice_subrange(t, i, i + k);
    numbers::parse_signed(digits)
}

/// A digit, or a sign right before one. A sign before anything else is a dash.
pub open spec fn begins_numeral(s: Seq<char>) -> bool {
    s.len() > 0 && (text::is_digit(s[0]) || (numbers::is_sign(s[0]) && s.len() > 1
        && text::is_digit(s[1])))
}

/// The index at which the first numeral begins, or the length if there is none.
pub open spec fn numeral_start(s: Seq<char>) -> int
    decreases s.len(),
{
    if s.len() == 0 || begins_numeral(s) {
        0
    } else {
        1 + numeral_start(s.skip(1))
    }
}

/// The length of the numeral that `s` begins with: a sign, digits, and digits after a point. A
/// point that no digit follows does not belong to it.
pub open spec fn numeral_len(s: Seq<char>) -> int {
    let sign: int = if s.len() > 0 && numbers::is_sign(s[0]) {
        1
    } else {
        0
    };
    let whole = sign + text::digit_run(s.skip(sign));
    let r = s.skip(whole);
    if r.len() > 1 && r[0] == '.' && text::is_digit(r[1]) {
        whole + 1 + text::digit_run(r.skip(1))
    } else {
        whole
    }
}

/// The first numeral after a key.
pub open spec fn numeral_after(line: Seq<char>, key: Seq<char>) -> Option<Seq<char>> {
    match after_label(line, key) {
        Some(t) => {
            let i = numeral_start(t);
            if i < t.len() {
                Some(t.subrange(i, i + numeral_len(t.skip(i))))
            } else {
                None
            }
        },
        None => None,
    }
}

fn number_text_after(line: &[char], key: &str) -> (r: Option<String>)
    ensures
        r.deep_view() == numeral_after(line@, key@),
{
    let t = match past_label(line, key) {
        Some(t) => t,
        None => return None,
    };
    let mut i: usize = 0;
    assert(t@.skip(0) == t@);
    while i < t.len() && !(text::digit(t[i]) || ((t[i] == '-' || t[i] == '+') && i + 1 < t.len()
        && text::digit(t[i + 1])))
        invariant
            i <= t.len(),
            numeral_start(t@) == i + numeral_start(t@.skip(i as int)),
        decreases t.len() - i,
    {
        assert(t@.skip(i as int).skip(1) == t@.skip(i + 1));
        i += 1;
    }
    if i == t.len() {
        return None;
    }
    let n = slice_subrange(t, i, t.len());
    assert(n@ == t@.skip(i as int));
    assert(begins_numeral(n@));
    let sign: usize = if n[0] == '-' || n[0] == '+' {
        1
    } else {
        0
    };
    let whole: usize = sign + text::count_digits(n, sign);
    let mut end: usize = whole;
    if n.len() - whole > 1 && n[whole] == '.' && text::digit(n[whole + 1]) {
        assert(n@.skip(whole as int).skip(1) == n@.skip(whole + 1));
        end = whole + 1 + text::count_digits(n, whole + 1);
    }
    let numeral = slice_subrange(n, 0, end);
    assert(numeral@ == t@.subrange(i as int, i + numeral_len(n@)));
    Some(text::string_of(numeral))
}

/// The numeral after `key`, possibly negative and with a fraction.
pub fn signed_number_after(line: &str, key: &str) -> (r: Option<String>)
    ensures
        r.deep_view() == numeral_after(line@, key@),
{
    let cs = text::chars_of(line);
    number_text_after(cs.as_slice(), key)
}

/// The number in the last brackets of a line.
pub open spec fn last_bracketed(line: Seq<char>) -> Option<int> {
    let open = text::last_position(line, '(');
    if open < 0 {
        None
    } else {
        match text::halves(line.skip(open + 1), ')') {
            Some((inner, _)) => numbers::signed(text::trimmed(inner)),
            None => None,
        }
    }
}

fn last_parenthesised_number(line: &[char]) -> (r: Option<i64>)
    ensures
        match r {
            Some(v) => last_bracketed(line@) == Some(v as int),
            None => last_bracketed(line@) is None,
        },
{
    match text::find_last_char(line, '(') {
        Some(i) => {
            let rest = slice_subrange(line, i + 1, line.len());
            assert(rest@ == line@.skip(i + 1));
            match text::split_once(rest, ')') {
                Some((inner, _)) => numbers::parse_signed(text::trim(inner)),
                None => None,
            }
        },
        None => None,
    }
}

// ---------------------------------------------------------------------------
// The serving cell
// ---------------------------------------------------------------------------
/// The RSRP, in dBm, that the index `v` of `+CESQ` stands for.
pub open spec fn cesq_rsrp(v: int) -> Option<Measure> {
    if v == 255 {
        None
    } else {
        Some(Measure::Halves(2 * (v - 140)))
    }
}

/// The RSRQ, in dB, that the index `v` of `+CESQ` stands for.
pub open spec fn cesq_rsrq(v: int) -> Option<Measure> {
    if v == 255 {
        None
    } else {
        Some(Measure::Halves(v - 40))
    }
}

/// The RSSI, in dBm, that the index `v` of `+CSQ` stands for.
pub open spec fn csq_rssi(v: int) -> Option<Measure> {
    if v == 99 {
        None
    } else {
        Some(Measure::Halves(2 * (2 * v - 113)))
    }
}

fn rsrp_of_cesq(v: i64) -> (r: Option<Reading>)
    ensures
        r.deep_view() == cesq_rsrp(v as int),
{
    if v == 255 {
        None
    } else {
        Some(Reading::Scaled { base: -280, step: 2, index: v })
    }
}

fn rsrq_of_cesq(v: i64) -> (r: Option<Reading>)
    ensures
        r.deep_view() == cesq_rsrq(v as int),
{
    if v == 255 {
        None
    } else {
        Some(Reading::Scaled { base: -40, step: 1, index: v })
    }
}

fn rssi_of_csq(v: i64) -> (r: Option<Reading>)
    ensures
        r.deep_view() == csq_rssi(v as int),
{
    if v == 99 {
        None
    } else {
        Some(Reading::Scaled { base: -226, step: 4, index: v })
    }
}

/// A labelled measurement of a line; the lines of `+CESQ` have none.
pub open spec fn labelled(t: Seq<char>, key: Seq<char>) -> Option<Measure> {
    if text::occurs(text::uppercase(t), key) && !"+CESQ"@.is_prefix_of(text::uppercase(t)) {
        match numeral_after(t, key) {
            Some(n) => Some(Measure::Numeral(n)),
            None => None,
        }
    } else {
        None
    }
}

/// What was known before, or else what is new.
pub open spec fn first_known<A>(before: Option<A>, new: Option<A>) -> Option<A> {
    if before is Some {
        before
    } else {
        new
    }
}

/// A signal with the indices of a line, or with its carrier.
pub open spec fn with_indices(s: SignalView<Measure>, t: Seq<char>) -> SignalView<Measure> {
    let u = text::uppercase(t);
    match text::after_prefix(u, "+CESQ:"@) {
        Some(rest) => if nums(rest).len() >= 6 {
            SignalView { rsrq: cesq_rsrq(nums(rest)[4]), rsrp: cesq_rsrp(nums(rest)[5]), ..s }
        } else {
            s
        },
        None => match text::after_prefix(u, "+CSQ:"@) {
            Some(rest) => SignalView { rssi: csq_rssi(nums(rest)[0]), ..s },
            None => match integer_after(t, "EARFCN"@) {
                Some(v) => SignalView { earfcn: Some((v % 0x1_0000_0000) as u32), ..s },
                None => s,
            },
        },
    }
}

/// A signal with the physical cell that a line names.
pub open spec fn with_cell(s: SignalView<Measure>, t: Seq<char>) -> SignalView<Measure> {
    if text::occurs(text::uppercase(t), "PCI"@) {
        match last_bracketed(t) {
            Some(v) => SignalView { pci: Some((v % 0x1_0000) as u16), ..s },
            None => s,
        }
    } else {
        s
    }
}

/// A signal with the labelled measurements of a line. The first one of a kind counts.
pub open spec fn with_labels(s: SignalView<Measure>, t: Seq<char>) -> SignalView<Measure> {
    SignalView {
        rsrp: first_known(s.rsrp, labelled(t, "RSRP"@)),
        rsrq: first_known(s.rsrq, labelled(t, "RSRQ"@)),
        sinr: first_known(s.sinr, labelled(t, "SINR"@)),
        rssi: first_known(s.rssi, labelled(t, "RSSI"@)),
        ..s
    }
}

/// What the lines of a reply say of the serving cell.
pub open spec fn signal_of(ls: Seq<Seq<char>>) -> SignalView<Measure>
    decreases ls.len(),
{
    if ls.len() == 0 {
        no_signal()
    } else {
        let t = text::trimmed(ls.last());
        with_labels(with_cell(with_indices(signal_of(ls.drop_last()), t), t), t)
    }
}

fn low_half(v: i64) -> (r: u16)
    ensures
        r == v as int % 0x1_0000,
{
    if v >= 0 {
        (v % 0x1_0000) as u16
    } else {
        let m: i64 = (-(v + 1)) % 0x1_0000;
        (0xffff - m) as u16
    }
}

fn low_word(v: i64) -> (r: u32)
    ensures
        r == v as int % 0x1_0000_0000,
{
    if v >= 0 {
        (v % 0x1_0000_0000) as u32
    } else {
        let m: i64 = (-(v + 1)) % 0x1_0000_0000;
        (0xffff_ffff - m) as u32
    }
}

fn add_indices(s: &mut Signal<Reading>, t: &[char])
    ensures
        final(s)@ == with_indices(old(s)@, t@),
{
    let upper = text::to_upper(t);
    let u = upper.as_slice();
    match text::strip_prefix(u, "+CESQ:") {
        Some(rest) => {
            let ns = split_nums(rest);
            if ns.len() >= 6 {
                s.rsrq = rsrq_of_cesq(ns[4]);
                s.rsrp = rsrp_of_cesq(ns[5]);
            }
        },
        None => match text::strip_prefix(u, "+CSQ:") {
            Some(rest) => {
                let ns = split_nums(rest);
                s.rssi = rssi_of_csq(ns[0]);
            },
            None => match first_number_after(t, "EARFCN") {
                Some(v) => {
                    s.earfcn = Some(low_word(v));
                },
                None => {},
            },
        },
    }
}

fn add_cell(s: &mut Signal<Reading>, t: &[char])
    ensures
        final(s)@ == with_cell(old(s)@, t@),
{
    let upper = text::to_upper(t);
    if text::contains(upper.as_slice(), "PCI") {
        if let Some(v) = last_parenthesised_number(t) {
            s.pci = Some(low_half(v));
        }
    }
}

fn label(t: &[char], key: &str) -> (r: Option<Reading>)
    ensures
        r.deep_view() == labelled(t@, key@),
{
    let upper = text::to_upper(t);
    if text::contains(upper.as_slice(), key) && !text::starts(upper.as_slice(), "+CESQ") {
        match number_text_after(t, key) {
            Some(n) => Some(Reading::Numeral(n)),
            None => None,
        }
    } else {
        None
    }
}

fn add_labels(s: &mut Signal<Reading>, t: &[char])
    ensures
        final(s)@ == with_labels(old(s)@, t@),
{
    if s.rsrp.is_none() {
        s.rsrp = label(t, "RSRP");
    }
    if s.rsrq.is_none() {
        s.rsrq = label(t, "RSRQ");
    }
    if s.sinr.is_none() {
        s.sinr = label(t, "SINR");
    }
    if s.rssi.is_none() {
        s.rssi = label(t, "RSSI");
    }
}

/// What a reply says of the serving cell: the indices of `+CESQ` and `+CSQ`, or lines with
/// labels.
pub fn parse_signal(body: &str) -> (r: Signal<Reading>)
    ensures
        r@ == signal_of(text::line_list(body@)),
{
    let cs = text::chars_of(body);
    let ls = text::lines(cs.as_slice());
    let ghost all = text::slices(ls@);
    let mut s: Signal<Reading> = Signal::default();
    let mut i: usize = 0;
    while i < ls.len()
        invariant
            all == text::slices(ls@),
            i <= ls.len(),
            s@ == signal_of(all.take(i as int)),
        decreases ls.len() - i,
    {
        let ghost next = all.take(i + 1);
        assert(next.drop_last() == all.take(i as int));
        assert(next.last() == ls@[i as int]@);
        let t = text::trim(ls[i]);
        add_indices(&mut s, t);
        add_cell(&mut s, t);
        add_labels(&mut s, t);
        i += 1;
    }
    assert(all.take(i as int) == all);
    s
}

/// The name between the first quotation marks of the first line with `+COPS:`.
pub open spec fn operator_in(body: Seq<char>) -> Option<Seq<char>> {
    match text::line_with(text::line_list(body), "+COPS:"@) {
        Some(line) => match text::halves(line, '"') {
            Some((_, rest)) => match text::halves(rest, '"') {
                Some((name, _)) => if text::trimmed(name).len() == 0 {
                    None
                } else {
                    Some(text::trimmed(name))
                },
                None => None,
            },
            None => None,
        },
        None => None,
    }
}

/// `+COPS: 0,0,"MegaFon",7` names `MegaFon`.
pub fn parse_operator(body: &str) -> (r: Option<String>)
    ensures
        r.deep_view() == operator_in(body@),
{
    let cs = text::chars_of(body);
    match text::find_line(cs.as_slice(), "+COPS:") {
        Some(line) => match text::split_once(line, '"') {
            Some((_, rest)) => match text::split_once(rest, '"') {
                Some((name, _)) => {
                    let name = text::trim(name);
                    if name.len() == 0 {
                        None
                    } else {
                        Some(text::string_of(name))
                    }
                },
                None => None,
            },
            None => None,
        },
        None => None,
    }
}

/// The state of registration that a line of `+CEREG` gives: 1 is home, 5 is roaming.
pub open spec fn registration(line: Seq<char>) -> Option<bool> {
    match text::after_prefix(text::uppercase(text::trimmed(line)), "+CEREG:"@) {
        Some(rest) => if nums(rest).len() >= 2 {
            Some(nums(rest)[1] == 1 || nums(rest)[1] == 5)
        } else {
            None
        },
        None => None,
    }
}

/// Whether the first line that gives a state of registration says that there is one.
pub open spec fn registered_in(ls: Seq<Seq<char>>) -> bool
    decreases ls.len(),
{
    if ls.len() == 0 {
        false
    } else {
        match registration(ls[0]) {
            Some(b) => b,
            None => registered_in(ls.skip(1)),
        }
    }
}

/// `+CEREG: 2,1` is a registration at home.
pub fn parse_registered(body: &str) -> (r: bool)
    ensures
        r == registered_in(text::line_list(body@)),
{
    let cs = text::chars_of(body);
    let ls = text::lines(cs.as_slice());
    let ghost all = text::slices(ls@);
    let mut i: usize = 0;
    assert(all.skip(0) == all);
    while i < ls.len()
        invariant
            all == text::slices(ls@),
            all == text::line_list(body@),
            i <= ls.len(),
            registered_in(all.skip(i as int)) == registered_in(all),
        decreases ls.len() - i,
    {
        assert(all.skip(i as int)[0] == ls@[i as int]@);
        assert(all.skip(i as int).skip(1) == all.skip(i + 1));
        let upper = text::to_upper(text::trim(ls[i]));
        if let Some(rest) = text::strip_prefix(upper.as_slice(), "+CEREG:") {
            let ns = split_nums(rest);
            if ns.len() >= 2 {
                return ns[1] == 1 || ns[1] == 5;
            }
        }
        i += 1;
    }
    false
}

// ---------------------------------------------------------------------------
// The cells around
// ---------------------------------------------------------------------------
/// A numeral as a measurement; nothing where it is none.
pub open spec fn measure_of(s: Seq<char>) -> Option<Measure> {
    if numbers::is_float(s) {
        Some(Measure::Numeral(s))
    } else {
        None
    }
}

/// The cell that a line describes: `$QCRSRP: <pci>,<earfcn>,<rsrp>[,<rsrq>]`.
pub open spec fn cell_in(line: Seq<char>) -> Option<Cell<Measure>> {
    let t = text::trimmed(line);
    let u = text::uppercase(t);
    if !"$QCRSRP"@.is_prefix_of(u) && !"+VZWRSRP"@.is_prefix_of(u) {
        None
    } else {
        match text::halves(t, ':') {
            None => None,
            Some((_, rest)) => {
                let ps = text::pieces(rest, ',');
                if ps.len() < 3 {
                    None
                } else {
                    match (
                        numbers::unsigned(text::trimmed(ps[0]), 10, 0xffff),
                        numbers::unsigned(text::trimmed(ps[1]), 10, 0xffff_ffff),
                    ) {
                        (Some(pci), Some(earfcn)) => Some(
                            Cell {
                                earfcn: earfcn as u32,
                                pci: pci as u16,
                                rsrp: measure_of(text::trimmed(ps[2])),
                                rsrq: if ps.len() > 3 {
                                    measure_of(text::trimmed(ps[3]))
                                } else {
                                    None
                                },
                            },
                        ),
                        _ => None,
                    }
                }
            },
        }
    }
}

/// The cells that some lines describe, in their order.
pub open spec fn cells_in(ls: Seq<Seq<char>>) -> Seq<Cell<Measure>>
    decreases ls.len(),
{
    if ls.len() == 0 {
        seq![]
    } else {
        match cell_in(ls.last()) {
            Some(c) => cells_in(ls.drop_last()).push(c),
            None => cells_in(ls.drop_last()),
        }
    }
}

fn reading_of(s: &[char]) -> (r: Option<Reading>)
    ensures
        r.deep_view() == measure_of(s@),
{
    if numbers::float(s) {
        Some(Reading::Numeral(text::string_of(s)))
    } else {
        None
    }
}

fn parse_cell(line: &[char]) -> (r: Option<Neighbor<Reading>>)
    ensures
        r.deep_view() == cell_in(line@),
{
    let t = text::trim(line);
    let upper = text::to_upper(t);
    if !text::starts(upper.as_slice(), "$QCRSRP") && !text::starts(
        upper.as_slice(),
        "+VZWRSRP",
    ) {
        return None;
    }
    let rest = match text::split_once(t, ':') {
        Some((_, r)) => r,
        None => return None,
    };
    let ps = text::split_char(rest, ',');
    let ghost all = text::slices(ps@);
    if ps.len() < 3 {
        return None;
    }
    assert(all[0] == ps@[0]@ && all[1] == ps@[1]@ && all[2] == ps@[2]@);
    let pci: u16 = match numbers::parse_u16(text::trim(ps[0])) {
        Some(v) => v,
        None => return None,
    };
    let earfcn: u32 = match numbers::parse_u32(text::trim(ps[1])) {
        Some(v) => v,
        None => return None,
    };
    let rsrp = reading_of(text::trim(ps[2]));
    let rsrq = if ps.len() > 3 {
        assert(all[3] == ps@[3]@);
        reading_of(text::trim(ps[3]))
    } else {
        None
    };
    Some(Neighbor { earfcn, pci, rsrp, rsrq })
}

/// The cells around, in the order in which the modem lists them.
pub fn list_neighbors(body: &str) -> (r: Vec<Neighbor<Reading>>)
    ensures
        r.deep_view() == cells_in(text::line_list(body@)),
{
    let cs = text::chars_of(body);
    let ls = text::lines(cs.as_slice());
    let ghost all = text::slices(ls@);
    let mut out: Vec<Neighbor<Reading>> = Vec::new();
    let mut i: usize = 0;
    assert(out.deep_view() == Seq::<Cell<Measure>>::empty());
    while i < ls.len()
        invariant
            all == text::slices(ls@),
            i <= ls.len(),
            out.deep_view() == cells_in(all.take(i as int)),
        decreases ls.len() - i,
    {
        let ghost next = all.take(i + 1);
        assert(next.drop_last() == all.take(i as int));
        assert(next.last() == ls@[i as int]@);
        let ghost before = out.deep_view();
        if let Some(c) = parse_cell(ls[i]) {
            out.push(c);
            assert(out.deep_view() == before.push(c.deep_view()));
        }
        i += 1;
    }
    assert(all.take(i as int) == all);
    out
}

// ---------------------------------------------------------------------------
// The best cell first
// ---------------------------------------------------------------------------
/// Whether the item `a` comes before the item `b`: its key is greater, or they are equal and it
/// comes first already.
pub open spec fn outranks(keys: Seq<i64>, a: int, b: int) -> bool {
    keys[a] > keys[b] || (keys[a] == keys[b] && a < b)
}

/// Whether `order` lists all items, the greatest key first and equal keys as they came.
pub open spec fn is_ranking(order: Seq<int>, keys: Seq<i64>) -> bool {
    &&& order.len() == keys.len()
    &&& forall|i: int| 0 <= i < order.len() ==> 0 <= #[trigger] order[i] < keys.len()
    &&& forall|i: int, j: int|
        0 <= i < j < order.len() ==> outranks(keys, #[trigger] order[i], #[trigger] order[j])
}

/// The items in a new order.
pub open spec fn arranged<A>(items: Seq<A>, order: Seq<int>) -> Seq<A> {
    Seq::new(order.len(), |i: int| items[order[i]])
}

pub open spec fn indices(v: Seq<usize>) -> Seq<int> {
    v.map_values(|i: usize| i as int)
}

fn ranking(keys: &Vec<i64>) -> (r: Vec<usize>)
    ensures
        is_ranking(indices(r@), keys@),
{
    let mut order: Vec<usize> = Vec::new();
    let mut n: usize = 0;
    while n < keys.len()
        invariant
            n <= keys.len(),
            order.len() == n,
            is_ranking(indices(order@), keys@.take(n as int)),
        decreases keys.len() - n,
    {
        let ghost part = keys@.take(n as int);
        let ghost before = indices(order@);
        let mut k: usize = 0;
        assert forall|j: int| 0 <= j < n implies (#[trigger] order@[j]) < n by {
            assert(before[j] == order@[j] as int);
        }
        while k < order.len() && keys[order[k]] >= keys[n]
            invariant
                n < keys.len(),
                order.len() == n,
                k <= n,
                part == keys@.take(n as int),
                before == indices(order@),
                is_ranking(before, part),
                forall|j: int| 0 <= j < n ==> (#[trigger] order@[j]) < n,
                forall|j: int| 0 <= j < k ==> keys@[#[trigger] before[j]] >= keys@[n as int],
            decreases order.len() - k,
        {
            assert(before[k as int] == order@[k as int] as int);
            k += 1;
        }
        assert(k < n ==> before[k as int] == order@[k as int] as int);
        order.insert(k, n);
        assert(indices(order@) == before.insert(k as int, n as int));
        n += 1;
        proof {
            lemma_insert(before, keys@.take(n as int), k as int);
        }
    }
    assert(keys@.take(n as int) == keys@);
    order
}

/// A new item goes in behind those that are as good and before those that are not.
proof fn lemma_insert(order: Seq<int>, keys: Seq<i64>, k: int)
    requires
        keys.len() > 0,
        is_ranking(order, keys.drop_last()),
        0 <= k <= order.len(),
        forall|j: int| 0 <= j < k ==> keys[#[trigger] order[j]] >= keys.last(),
        k < order.len() ==> keys[order[k]] < keys.last(),
    ensures
        is_ranking(order.insert(k, keys.len() - 1), keys),
{
    let n = keys.len() - 1;
    let new = order.insert(k, n);
    let part = keys.drop_last();
    assert forall|i: int| 0 <= i < new.len() implies 0 <= #[trigger] new[i] < keys.len() by {
        if i < k {
            assert(new[i] == order[i]);
        } else if i > k {
            assert(new[i] == order[i - 1]);
        }
    }
    assert forall|i: int, j: int| 0 <= i < j < new.len() implies outranks(
        keys,
        #[trigger] new[i],
        #[trigger] new[j],
    ) by {
        let a = if i < k {
            i
        } else {
            i - 1
        };
        let b = if j < k {
            j
        } else {
            j - 1
        };
        if i != k {
            assert(new[i] == order[a]);
            assert(part[order[a]] == keys[order[a]]);
        }
        if j != k {
            assert(new[j] == order[b]);
            assert(part[order[b]] == keys[order[b]]);
        }
        if i != k && j != k {
            assert(outranks(part, order[a], order[b]));
        } else if i == k {
            assert(part[order[k]] == keys[order[k]]);
            if b > k {
                assert(outranks(part, order[k], order[b]));
            }
        }
    }
}

/// The cells with the greatest key first; cells with equal keys stay in their order.
pub fn best_first(cells: &Vec<Neighbor<Reading>>, keys: &Vec<i64>) -> (r: Vec<Neighbor<Reading>>)
    requires
        cells.len() == keys.len(),
    ensures
        exists|order: Seq<int>| #[trigger]
            is_ranking(order, keys@) && r.deep_view() == arranged(cells.deep_view(), order),
{
    let order = ranking(keys);
    let ghost seq_order = indices(order@);
    let mut out: Vec<Neighbor<Reading>> = Vec::new();
    let mut i: usize = 0;
    while i < order.len()
        invariant
            cells.len() == keys.len(),
            seq_order == indices(order@),
            is_ranking(seq_order, keys@),
            i <= order.len(),
            out.len() == i,
            forall|j: int|
                0 <= j < i ==> (#[trigger] out@[j]).deep_view() == cells.deep_view()[seq_order[j]],
        decreases order.len() - i,
    {
        assert(seq_order[i as int] == order@[i as int] as int);
        out.push(cells[order[i]].clone());
        i += 1;
    }
    assert(out.deep_view() =~= arranged(cells.deep_view(), seq_order));
    out
}

/// The numeral that a cell is ranked by: its RSRP, and minus infinity where it has none.
pub open spec fn rank_numeral(c: Cell<Measure>) -> Seq<char> {
    match c.rsrp {
        Some(Measure::Numeral(t)) => t,
        _ => "-inf"@,
    }
}

/// Whether `key` may give `k` for the numeral `t`.
pub open spec fn gives<F: Fn(&str) -> i64>(key: F, t: Seq<char>, k: i64) -> bool {
    exists|s: &str| s@ == t && #[trigger] call_ensures(key, (s,), k)
}

/// Whether `keys` are what `key` gave for the numerals that the cells are ranked by.
pub open spec fn are_keys<F: Fn(&str) -> i64>(
    key: F,
    cells: Seq<Cell<Measure>>,
    keys: Seq<i64>,
) -> bool {
    &&& keys.len() == cells.len()
    &&& forall|i: int| 0 <= i < cells.len() ==> gives(key, rank_numeral(#[trigger] cells[i]), keys[i])
}

/// Whether `ranked` are the cells with the greatest key first, those with equal keys as they
/// came.
pub open spec fn is_ranked_by<F: Fn(&str) -> i64>(
    key: F,
    cells: Seq<Cell<Measure>>,
    ranked: Seq<Cell<Measure>>,
) -> bool {
    exists|keys: Seq<i64>, order: Seq<int>|
        are_keys(key, cells, keys) && #[trigger] is_ranking(order, keys) && ranked == arranged(
            cells,
            order,
        )
}

/// The cells around, the strongest one first. `key` gives an integer for the numeral of an RSRP,
/// a greater one for a greater number; a cell without an RSRP counts as minus infinity.
pub fn parse_neighbors<F: Fn(&str) -> i64>(body: &str, key: F) -> (r: Vec<Neighbor<Reading>>)
    requires
        forall|s: &str| #[trigger] call_requires(key, (s,)),
    ensures
        is_ranked_by(key, cells_in(text::line_list(body@)), r.deep_view()),
{
    let cells = list_neighbors(body);
    let ghost views = cells.deep_view();
    let mut keys: Vec<i64> = Vec::new();
    let mut i: usize = 0;
    while i < cells.len()
        invariant
            forall|s: &str| #[trigger] call_requires(key, (s,)),
            views == cells.deep_view(),
            i <= cells.len(),
            keys.len() == i,
            forall|j: int| 0 <= j < i ==> gives(key, rank_numeral(#[trigger] views[j]), keys@[j]),
        decreases cells.len() - i,
    {
        let numeral: &str = match &cells[i].rsrp {
            Some(Reading::Numeral(t)) => t.as_str(),
            _ => "-inf",
        };
        let k: i64 = key(numeral);
        assert(views[i as int] == cells@[i as int].deep_view());
        assert(numeral@ == rank_numeral(views[i as int]));
        assert(gives(key, rank_numeral(views[i as int]), k));
        keys.push(k);
        i += 1;
    }
    assert(are_keys(key, views, keys@));
    best_first(&cells, &keys)
}

// ---------------------------------------------------------------------------
// Laws
// ---------------------------------------------------------------------------
/// No item is lost and none comes twice when items are put in order.
pub proof fn theorem_ranking_is_a_permutation(order: Seq<int>, keys: Seq<i64>)
    requires
        is_ranking(order, keys),
    ensures
        order.no_duplicates(),
        forall|k: int| 0 <= k < keys.len() ==> #[trigger] order.contains(k),
{
    assert forall|i: int, j: int| 0 <= i < j < order.len() implies order[i] != order[j] by {
        assert(outranks(keys, order[i], order[j]));
    }
    let all = vstd::set_lib::set_int_range(0, keys.len() as int);
    vstd::set_lib::lemma_int_range(0, keys.len() as int);
    order.unique_seq_to_set();
    assert forall|k: int| order.to_set().contains(k) implies all.contains(k) by {
        let i = choose|i: int| 0 <= i < order.len() && order[i] == k;
        assert(order[i] == k);
    }
    vstd::set_lib::lemma_len_subset(order.to_set(), all);
    vstd::set_lib::lemma_subset_equality(order.to_set(), all);
    assert forall|k: int| 0 <= k < keys.len() implies #[trigger] order.contains(k) by {
        assert(all.contains(k));
        assert(order.to_set().contains(k));
    }
}

/// There is one order only that puts the greatest key first and keeps equal keys as they came.
pub proof fn theorem_ranking_is_unique(p: Seq<int>, q: Seq<int>, keys: Seq<i64>)
    requires
        is_ranking(p, keys),
        is_ranking(q, keys),
    ensures
        p == q,
{
    lemma_same_ranking(p, q, keys, keys.len() as int);
    assert(p =~= q);
}

proof fn lemma_same_ranking(p: Seq<int>, q: Seq<int>, keys: Seq<i64>, n: int)
    requires
        is_ranking(p, keys),
        is_ranking(q, keys),
        0 <= n <= keys.len(),
    ensures
        forall|i: int| 0 <= i < n ==> p[i] == q[i],
    decreases n,
{
    if n > 0 {
        let i = n - 1;
        lemma_same_ranking(p, q, keys, i);
        theorem_ranking_is_a_permutation(p, keys);
        theorem_ranking_is_a_permutation(q, keys);
        if p[i] != q[i] {
            assert(q.contains(p[i]));
            assert(p.contains(q[i]));
            let a = choose|a: int| 0 <= a < q.len() && q[a] == p[i];
            let b = choose|b: int| 0 <= b < p.len() && p[b] == q[i];
            assert(q[a] == p[i] && p[b] == q[i]);
            if a < i {
                assert(p[a] == q[a]);
            }
            if b < i {
                assert(p[b] == q[b]);
            }
            assert(outranks(keys, q[i], q[a]));
            assert(outranks(keys, p[i], p[b]));
        }
    }
}

} // verus!
