//! Intel XMM modems (Fibocom L850, L860 and their kin).
//!
//! They lock with the command `at@sic:freq_lock(…)` and not with files. The command wants the
//! number of the band, which follows from the carrier, and it only writes: what is locked has
//! to be remembered, see [`LockStore`].

use crate::at;
use crate::bands;
use crate::numbers;
use crate::signal;
use crate::signal::{Cell, Measure, Neighbor, Reading, Signal, SignalView};
use crate::signal_laws;
use crate::store;
use crate::store::{Change, FileChange};
use crate::text;
use vstd::prelude::*;
use vstd::slice::*;
use vstd::string::*;

verus! {

/// How `freq_lock` names LTE.
pub const RAT_LTE: u64 = 3;

/// The only SIM of a modem with one slot.
pub const SIM_ID: u64 = 0;

/// The command that locks a cell on a carrier, or takes the lock off.
pub open spec fn freq_lock_text(band_code: int, enable: bool, earfcn: int, pci: int) -> Seq<char> {
    "at@sic:freq_lock("@ + numbers::decimal(SIM_ID as nat) + ","@ + numbers::decimal(RAT_LTE as nat)
        + ","@ + numbers::decimal(band_code as nat) + (if enable {
        ",1,"@
    } else {
        ",0,"@
    }) + numbers::decimal(earfcn as nat) + ","@ + numbers::decimal(pci as nat) + ")"@
}

/// The error for a carrier outside of the bands.
pub open spec fn unknown_band(earfcn: int) -> Seq<char> {
    "не удалось определить LTE-диапазон для EARFCN "@ + numbers::decimal(earfcn as nat)
}

/// The command that locks or unlocks. It takes the SIM, the technology, the band, whether to
/// lock, the carrier and the cell.
pub fn freq_lock_cmd(earfcn: u32, pci: u16, enable: bool) -> (r: Result<String, String>)
    ensures
        match r {
            Ok(cmd) => bands::band_of(earfcn as int) matches Some(band) && cmd@ == freq_lock_text(
                100 + band,
                enable,
                earfcn as int,
                pci as int,
            ),
            Err(e) => bands::band_of(earfcn as int) is None && e@ == unknown_band(earfcn as int),
        },
{
    proof {
        bands::theorem_known_bands(earfcn as int);
    }
    let band: u16 = match bands::band_from_earfcn(earfcn) {
        Some(b) => b,
        None => {
            let mut e = text::chars_of("не удалось определить LTE-диапазон для EARFCN ");
            numbers::add_decimal(&mut e, earfcn as u64);
            return Err(text::string_of(e.as_slice()));
        },
    };
    let mut out = text::chars_of("at@sic:freq_lock(");
    numbers::add_decimal(&mut out, SIM_ID);
    text::add_str(&mut out, ",");
    numbers::add_decimal(&mut out, RAT_LTE);
    text::add_str(&mut out, ",");
    numbers::add_decimal(&mut out, bands::intel_band_code(band) as u64);
    if enable {
        text::add_str(&mut out, ",1,");
    } else {
        text::add_str(&mut out, ",0,");
    }
    numbers::add_decimal(&mut out, earfcn as u64);
    text::add_str(&mut out, ",");
    numbers::add_decimal(&mut out, pci as u64);
    text::add_str(&mut out, ")");
    Ok(text::string_of(out.as_slice()))
}

/// The commands that restart the radio. The router need not be restarted.
pub const RADIO_CYCLE: [&'static str; 2] = ["at+cfun=4", "at+cfun=15"];

// ---------------------------------------------------------------------------
// Fields
// ---------------------------------------------------------------------------
/// A field without white space and quotation marks around it.
pub open spec fn bare(raw: Seq<char>) -> Seq<char> {
    text::trimmed(text::unquoted(text::trimmed(raw)))
}

/// What stands after `0x`.
pub open spec fn after_hex_mark(t: Seq<char>) -> Option<Seq<char>> {
    match text::after_prefix(t, "0x"@) {
        Some(h) => Some(h),
        None => text::after_prefix(t, "0X"@),
    }
}

/// The number in a field, decimal or hexadecimal. Two numbers stand for no data.
pub open spec fn field_value(raw: Seq<char>) -> Option<u32> {
    let t = bare(raw);
    let v = match after_hex_mark(t) {
        Some(h) => numbers::unsigned(h, 16, 0xffff_ffff),
        None => numbers::unsigned(t, 10, 0xffff_ffff),
    };
    match v {
        Some(n) => if n == 0xffff_ffff || n == 0x7fff_ffff {
            None
        } else {
            Some(n as u32)
        },
        None => None,
    }
}

fn bare_slice<'a>(raw: &'a [char]) -> (r: &'a [char])
    ensures
        r@ == bare(raw@),
{
    text::trim(text::unquote(text::trim(raw)))
}

fn field_of(raw: &[char]) -> (r: Option<u32>)
    ensures
        r == field_value(raw@),
{
    let t = bare_slice(raw);
    let hex = match text::strip_prefix(t, "0x") {
        Some(h) => Some(h),
        None => text::strip_prefix(t, "0X"),
    };
    let v: Option<u64> = match hex {
        Some(h) => numbers::parse_unsigned(h, 16, 0xffff_ffff),
        None => numbers::parse_unsigned(t, 10, 0xffff_ffff),
    };
    match v {
        Some(n) => if n == 0xffff_ffff || n == 0x7fff_ffff {
            None
        } else {
            Some(n as u32)
        },
        None => None,
    }
}

/// A field of a reply: a decimal number, or a hexadecimal one such as `"0x0108"`.
pub fn field(raw: &str) -> (r: Option<u32>)
    ensures
        r == field_value(raw@),
{
    let cs = text::chars_of(raw);
    field_of(cs.as_slice())
}

/// The fields of a record, which ends where the final `OK` begins.
pub open spec fn record_fields(chunk: Seq<char>) -> Seq<Seq<char>> {
    let end = match text::occurrence(chunk, "\nOK"@) {
        Some(i) => i,
        None => chunk.len() as int,
    };
    let ps = text::pieces(chunk.take(end), ',');
    Seq::new(ps.len(), |i: int| bare(ps[i]))
}

/// The records with enough fields.
pub open spec fn full_records(chunks: Seq<Seq<char>>) -> Seq<Seq<Seq<char>>>
    decreases chunks.len(),
{
    if chunks.len() == 0 {
        seq![]
    } else {
        let before = full_records(chunks.drop_last());
        let fields = record_fields(chunks.last());
        if fields.len() >= 7 {
            before.push(fields)
        } else {
            before
        }
    }
}

/// The records `+XMCI: …` of a reply. They are told apart by that mark and not by lines, since
/// long records go on in the next line.
pub open spec fn records(body: Seq<char>) -> Seq<Seq<Seq<char>>> {
    full_records(text::sections(body, "+XMCI:"@).skip(1))
}

pub open spec fn fields_view(v: Seq<Vec<&[char]>>) -> Seq<Seq<Seq<char>>> {
    Seq::new(v.len(), |i: int| text::slices(v[i]@))
}

fn split_record<'a>(chunk: &'a [char]) -> (r: Vec<&'a [char]>)
    ensures
        text::slices(r@) == record_fields(chunk@),
{
    proof {
        text::lemma_occurrence(chunk@, "\nOK"@);
    }
    let end: usize = match text::find_text(chunk, "\nOK") {
        Some(i) => i,
        None => chunk.len(),
    };
    let inner = slice_subrange(chunk, 0, end);
    assert(inner@ == chunk@.take(end as int));
    let ps = text::split_char(inner, ',');
    let ghost all = text::slices(ps@);
    let mut out: Vec<&'a [char]> = Vec::new();
    let mut i: usize = 0;
    while i < ps.len()
        invariant
            all == text::slices(ps@),
            i <= ps.len(),
            out.len() == i,
            forall|j: int| 0 <= j < i ==> (#[trigger] out@[j])@ == bare(all[j]),
        decreases ps.len() - i,
    {
        assert(all[i as int] == ps@[i as int]@);
        out.push(bare_slice(ps[i]));
        i += 1;
    }
    assert(text::slices(out@) =~= record_fields(chunk@));
    out
}

fn xmci_records<'a>(body: &'a [char]) -> (r: Vec<Vec<&'a [char]>>)
    ensures
        fields_view(r@) == records(body@),
        forall|i: int| 0 <= i < r.len() ==> (#[trigger] r@[i]).len() >= 7,
{
    proof {
        reveal_strlit("+XMCI:");
    }
    let chunks = text::split_text(body, "+XMCI:");
    let ghost all = text::slices(chunks@);
    let ghost after = all.skip(1);
    let mut out: Vec<Vec<&'a [char]>> = Vec::new();
    let mut i: usize = 1;
    assert(fields_view(out@) == Seq::<Seq<Seq<char>>>::empty());
    while i < chunks.len()
        invariant
            all == text::slices(chunks@),
            after == all.skip(1),
            1 <= i <= chunks.len(),
            fields_view(out@) == full_records(after.take(i - 1)),
            forall|j: int| 0 <= j < out.len() ==> (#[trigger] out@[j]).len() >= 7,
        decreases chunks.len() - i,
    {
        let ghost before = fields_view(out@);
        let ghost next = after.take(i as int);
        assert(next.drop_last() == after.take(i - 1));
        assert(next.last() == chunks@[i as int]@);
        let fields = split_record(chunks[i]);
        assert(text::slices(fields@).len() == fields.len());
        if fields.len() >= 7 {
            out.push(fields);
            assert(fields_view(out@) == before.push(text::slices(fields@)));
        }
        i += 1;
    }
    assert(after.take(i - 1) == after);
    out
}

// ---------------------------------------------------------------------------
// Cells
// ---------------------------------------------------------------------------
/// Where the fields of `+XMCI: <TYPE>,<MCC>,<MNC>,<TAC>,<CI>,<PCI>,<DLUARFCN>,…` stand.
pub const F_TYPE: usize = 0;

pub const F_PCI: usize = 5;

pub const F_EARFCN: usize = 6;

pub const F_RSRP: usize = 9;

pub const F_RSRQ: usize = 10;

pub const F_RSSNR: usize = 11;

/// The type of the serving LTE cell.
pub const TYPE_SERVING: u32 = 4;

/// The type of an LTE cell around.
pub const TYPE_NEIGHBOR: u32 = 5;

/// The RSRP, in dBm, for an index on the scale.
pub open spec fn rsrp_level(v: Option<u32>) -> Option<Measure> {
    match v {
        Some(n) => if n > 140 {
            None
        } else {
            Some(Measure::Halves(2 * (n - 141)))
        },
        None => None,
    }
}

/// The RSRQ, in dB, for an index on the scale.
pub open spec fn rsrq_level(v: Option<u32>) -> Option<Measure> {
    match v {
        Some(n) => if n > 40 {
            None
        } else {
            Some(Measure::Halves(n - 40))
        },
        None => None,
    }
}

/// A number as it is.
pub open spec fn plain_level(v: Option<u32>) -> Option<Measure> {
    match v {
        Some(n) => Some(Measure::Halves(2 * n)),
        None => None,
    }
}

fn rsrp_dbm(v: Option<u32>) -> (r: Option<Reading>)
    ensures
        r.deep_view() == rsrp_level(v),
{
    match v {
        Some(n) => if n > 140 {
            None
        } else {
            Some(Reading::Scaled { base: -282, step: 2, index: n as i64 })
        },
        None => None,
    }
}

fn rsrq_db(v: Option<u32>) -> (r: Option<Reading>)
    ensures
        r.deep_view() == rsrq_level(v),
{
    match v {
        Some(n) => if n > 40 {
            None
        } else {
            Some(Reading::Scaled { base: -40, step: 1, index: n as i64 })
        },
        None => None,
    }
}

fn plain_reading(v: Option<u32>) -> (r: Option<Reading>)
    ensures
        r.deep_view() == plain_level(v),
{
    match v {
        Some(n) => Some(Reading::Scaled { base: 0, step: 2, index: n as i64 }),
        None => None,
    }
}

/// The number in the `k`th field of a record, if there is such a field and it holds one.
pub open spec fn number_at(rec: Seq<Seq<char>>, k: int) -> Option<u32> {
    if 0 <= k < rec.len() {
        field_value(rec[k])
    } else {
        None
    }
}

fn get_number(rec: &Vec<&[char]>, k: usize) -> (r: Option<u32>)
    ensures
        r == number_at(text::slices(rec@), k as int),
{
    if k < rec.len() {
        assert(text::slices(rec@)[k as int] == rec@[k as int]@);
        field_of(rec[k])
    } else {
        None
    }
}

/// A number of cells is taken to 16 bits.
pub open spec fn cell_id(v: Option<u32>) -> Option<u16> {
    match v {
        Some(n) => Some((n % 0x1_0000) as u16),
        None => None,
    }
}

/// The name of the band of a carrier.
pub open spec fn band_name(earfcn: Option<u32>) -> Option<Seq<char>> {
    match earfcn {
        Some(e) => match bands::band_of(e as int) {
            Some(b) => Some("B"@ + numbers::decimal(b as nat)),
            None => None,
        },
        None => None,
    }
}

/// What a record says of the serving cell. The RSSNR is on a scale of the modem that is not
/// documented, and is given as it is.
pub open spec fn serving_signal(rec: Seq<Seq<char>>) -> SignalView<Measure> {
    SignalView {
        earfcn: number_at(rec, F_EARFCN as int),
        pci: cell_id(number_at(rec, F_PCI as int)),
        rsrp: rsrp_level(number_at(rec, F_RSRP as int)),
        rsrq: rsrq_level(number_at(rec, F_RSRQ as int)),
        sinr: plain_level(number_at(rec, F_RSSNR as int)),
        band: band_name(number_at(rec, F_EARFCN as int)),
        ..signal::no_signal()
    }
}

/// What the first record of the serving type says.
pub open spec fn serving_in(recs: Seq<Seq<Seq<char>>>) -> Option<SignalView<Measure>>
    decreases recs.len(),
{
    if recs.len() == 0 {
        None
    } else if number_at(recs[0], F_TYPE as int) == Some(TYPE_SERVING) {
        Some(serving_signal(recs[0]))
    } else {
        serving_in(recs.skip(1))
    }
}

fn band_label(earfcn: Option<u32>) -> (r: Option<String>)
    ensures
        r.deep_view() == band_name(earfcn),
{
    match earfcn {
        Some(e) => match bands::band_from_earfcn(e) {
            Some(b) => {
                let mut out = text::chars_of("B");
                numbers::add_decimal(&mut out, b as u64);
                Some(text::string_of(out.as_slice()))
            },
            None => None,
        },
        None => None,
    }
}

fn cell_number(v: Option<u32>) -> (r: Option<u16>)
    ensures
        r == cell_id(v),
{
    match v {
        Some(n) => Some((n % 0x1_0000) as u16),
        None => None,
    }
}

/// The serving cell in a reply to `AT+XMCI=1`.
pub fn parse_serving(body: &str) -> (r: Option<Signal<Reading>>)
    ensures
        r.deep_view() == serving_in(records(body@)),
{
    let cs = text::chars_of(body);
    let recs = xmci_records(cs.as_slice());
    let ghost all = fields_view(recs@);
    let mut i: usize = 0;
    assert(all.skip(0) == all);
    while i < recs.len()
        invariant
            all == fields_view(recs@),
            all == records(body@),
            i <= recs.len(),
            serving_in(all.skip(i as int)) == serving_in(all),
        decreases recs.len() - i,
    {
        let rec = &recs[i];
        assert(all.skip(i as int)[0] == text::slices(rec@));
        assert(all.skip(i as int).skip(1) == all.skip(i + 1));
        if let Some(kind) = get_number(rec, F_TYPE) {
            if kind == TYPE_SERVING {
                let earfcn: Option<u32> = get_number(rec, F_EARFCN);
                return Some(
                    Signal {
                        rsrp: rsrp_dbm(get_number(rec, F_RSRP)),
                        rsrq: rsrq_db(get_number(rec, F_RSRQ)),
                        sinr: plain_reading(get_number(rec, F_RSSNR)),
                        rssi: None,
                        earfcn,
                        pci: cell_number(get_number(rec, F_PCI)),
                        band: band_label(earfcn),
                        operator: None,
                        registered: false,
                    },
                );
            }
        }
        i += 1;
    }
    None
}

/// The cell around that a record describes.
pub open spec fn neighbor_of(rec: Seq<Seq<char>>) -> Option<Cell<Measure>> {
    match (
        number_at(rec, F_TYPE as int),
        cell_id(number_at(rec, F_PCI as int)),
        number_at(rec, F_EARFCN as int),
    ) {
        (Some(kind), Some(pci), Some(earfcn)) => if kind == TYPE_NEIGHBOR {
            Some(
                Cell {
                    earfcn,
                    pci,
                    rsrp: rsrp_level(number_at(rec, F_RSRP as int)),
                    rsrq: rsrq_level(number_at(rec, F_RSRQ as int)),
                },
            )
        } else {
            None
        },
        _ => None,
    }
}

/// The cells around, in the order of the records.
pub open spec fn neighbors_in(recs: Seq<Seq<Seq<char>>>) -> Seq<Cell<Measure>>
    decreases recs.len(),
{
    if recs.len() == 0 {
        seq![]
    } else {
        match neighbor_of(recs.last()) {
            Some(c) => neighbors_in(recs.drop_last()).push(c),
            None => neighbors_in(recs.drop_last()),
        }
    }
}

/// How strong a cell is; one without an RSRP is the weakest.
pub open spec fn strength(c: Cell<Measure>) -> i64 {
    match c.rsrp {
        Some(Measure::Halves(h)) => h as i64,
        _ => i64::MIN,
    }
}

pub open spec fn strengths(cells: Seq<Cell<Measure>>) -> Seq<i64> {
    cells.map_values(|c: Cell<Measure>| strength(c))
}

fn parse_neighbor(rec: &Vec<&[char]>) -> (r: Option<(Neighbor<Reading>, i64)>)
    ensures
        match r {
            Some((n, key)) => neighbor_of(text::slices(rec@)) == Some(n.deep_view()) && key
                == strength(n.deep_view()),
            None => neighbor_of(text::slices(rec@)) is None,
        },
{
    let kind: u32 = match get_number(rec, F_TYPE) {
        Some(k) => k,
        None => return None,
    };
    if kind != TYPE_NEIGHBOR {
        return None;
    }
    let pci: u16 = match cell_number(get_number(rec, F_PCI)) {
        Some(p) => p,
        None => return None,
    };
    let earfcn: u32 = match get_number(rec, F_EARFCN) {
        Some(e) => e,
        None => return None,
    };
    let level: Option<u32> = get_number(rec, F_RSRP);
    let key: i64 = match level {
        Some(n) => if n > 140 {
            i64::MIN
        } else {
            2 * (n as i64) - 282
        },
        None => i64::MIN,
    };
    let n = Neighbor {
        earfcn,
        pci,
        rsrp: rsrp_dbm(level),
        rsrq: rsrq_db(get_number(rec, F_RSRQ)),
    };
    Some((n, key))
}

/// The cells around in the same reply, the strongest one first; cells without an RSRP come
/// last.
pub fn parse_neighbors(body: &str) -> (r: Vec<Neighbor<Reading>>)
    ensures
        ({
            let cells = neighbors_in(records(body@));
            exists|order: Seq<int>| #[trigger]
                signal::is_ranking(order, strengths(cells)) && r.deep_view() == signal::arranged(
                    cells,
                    order,
                )
        }),
{
    let cs = text::chars_of(body);
    let recs = xmci_records(cs.as_slice());
    let ghost all = fields_view(recs@);
    let mut cells: Vec<Neighbor<Reading>> = Vec::new();
    let mut keys: Vec<i64> = Vec::new();
    let mut i: usize = 0;
    assert(cells.deep_view() == Seq::<Cell<Measure>>::empty());
    while i < recs.len()
        invariant
            all == fields_view(recs@),
            i <= recs.len(),
            cells.deep_view() == neighbors_in(all.take(i as int)),
            cells.len() == keys.len(),
            keys@ == strengths(cells.deep_view()),
        decreases recs.len() - i,
    {
        let ghost before = cells.deep_view();
        let ghost next = all.take(i + 1);
        assert(next.drop_last() == all.take(i as int));
        assert(next.last() == text::slices(recs@[i as int]@));
        if let Some((n, key)) = parse_neighbor(&recs[i]) {
            cells.push(n);
            keys.push(key);
            assert(cells.deep_view() == before.push(n.deep_view()));
            assert(keys@ == strengths(cells.deep_view()));
        }
        i += 1;
    }
    assert(all.take(i as int) == all);
    signal::best_first(&cells, &keys)
}

/// A number as it is, where 255 stands for unknown.
pub open spec fn known_level(v: Option<u32>) -> Option<Measure> {
    if v == Some(255u32) {
        None
    } else {
        plain_level(v)
    }
}

fn known_reading(v: Option<u32>) -> (r: Option<Reading>)
    ensures
        r.deep_view() == known_level(v),
{
    match v {
        Some(255) => None,
        _ => plain_reading(v),
    }
}

/// What `+XCESQ: <n>,<rxlev>,<ber>,<rscp>,<ecno>,<rsrq>,<rsrp>,<sinr>,…` says. Numbers off their
/// scale are unknown, and so is 255.
pub open spec fn xcesq_signal(body: Seq<char>) -> Option<SignalView<Measure>> {
    match text::line_with(text::line_list(body), "+XCESQ:"@) {
        Some(line) => match text::halves(line, ':') {
            Some((_, rest)) => {
                let ps = text::pieces(rest, ',');
                if ps.len() < 7 {
                    None
                } else {
                    Some(
                        SignalView {
                            rsrq: rsrq_level(number_at(ps, 5)),
                            rsrp: rsrp_level(number_at(ps, 6)),
                            sinr: known_level(number_at(ps, 7)),
                            ..signal::no_signal()
                        },
                    )
                }
            },
            None => None,
        },
        None => None,
    }
}

pub fn parse_xcesq(body: &str) -> (r: Option<Signal<Reading>>)
    ensures
        r.deep_view() == xcesq_signal(body@),
{
    let cs = text::chars_of(body);
    let line = match text::find_line(cs.as_slice(), "+XCESQ:") {
        Some(l) => l,
        None => return None,
    };
    let rest = match text::split_once(line, ':') {
        Some((_, r)) => r,
        None => return None,
    };
    let ps = text::split_char(rest, ',');
    assert(text::slices(ps@).len() == ps.len());
    if ps.len() < 7 {
        return None;
    }
    Some(
        Signal {
            rsrp: rsrp_dbm(get_number(&ps, 6)),
            rsrq: rsrq_db(get_number(&ps, 5)),
            sinr: known_reading(get_number(&ps, 7)),
            rssi: None,
            earfcn: None,
            pci: None,
            band: None,
            operator: None,
            registered: false,
        },
    )
}

// ---------------------------------------------------------------------------
// Aggregation
// ---------------------------------------------------------------------------
/// The line that tells of the aggregation of carriers.
pub open spec fn xlec_line(body: Seq<char>) -> Option<Seq<char>> {
    match text::line_with(text::line_list(body), "+XLEC:"@) {
        Some(line) => Some(text::trimmed(line)),
        None => None,
    }
}

/// `+XLEC: …,BAND_LTE_3,…` as it came.
pub fn parse_xlec(body: &str) -> (r: Option<String>)
    ensures
        r.deep_view() == xlec_line(body@),
{
    let cs = text::chars_of(body);
    match text::find_line(cs.as_slice(), "+XLEC:") {
        Some(line) => Some(text::string_of(text::trim(line))),
        None => None,
    }
}

/// The carriers that are aggregated.
#[derive(Debug, Clone, PartialEq)]
pub struct Aggregation {
    /// How many there are.
    pub carriers: usize,
    /// How wide each one is, in tenths of a MHz.
    pub bandwidths: Vec<u32>,
    /// The bands that are named, such as `B3`.
    pub bands: Vec<String>,
    /// How wide they are together, in tenths of a MHz.
    pub total: u32,
}

/// An aggregation as a mathematical value.
pub struct Carriers {
    pub carriers: int,
    pub bandwidths: Seq<u32>,
    pub bands: Seq<Seq<char>>,
    pub total: int,
}

impl View for Aggregation {
    type V = Carriers;

    open spec fn view(&self) -> Carriers {
        Carriers {
            carriers: self.carriers as int,
            bandwidths: self.bandwidths@,
            bands: self.bands.deep_view(),
            total: self.total as int,
        }
    }
}

impl DeepView for Aggregation {
    type V = Carriers;

    open spec fn deep_view(&self) -> Carriers {
        self.view()
    }
}

/// The width of a carrier, in tenths of a MHz, by its code.
pub open spec fn width_of(code: int) -> Option<u32> {
    if code == 0 {
        Some(14)
    } else if code == 1 {
        Some(30)
    } else if code == 2 {
        Some(50)
    } else if code == 3 {
        Some(100)
    } else if code == 4 {
        Some(150)
    } else if code == 5 {
        Some(200)
    } else {
        None
    }
}

fn bandwidth(code: u32) -> (r: Option<u32>)
    ensures
        r == width_of(code as int),
        r is Some ==> r->0 <= 200,
{
    match code {
        0 => Some(14),
        1 => Some(30),
        2 => Some(50),
        3 => Some(100),
        4 => Some(150),
        5 => Some(200),
        _ => None,
    }
}

/// The width that a piece of the line gives.
pub open spec fn width_in(piece: Seq<char>) -> Option<u32> {
    match numbers::unsigned(text::trimmed(piece), 10, 0xffff_ffff) {
        Some(code) => width_of(code),
        None => None,
    }
}

/// The sum of some widths.
pub open spec fn sum_of(ws: Seq<u32>) -> int
    decreases ws.len(),
{
    if ws.len() == 0 {
        0
    } else {
        sum_of(ws.drop_last()) + ws.last()
    }
}

/// The bands that some pieces name.
pub open spec fn band_names(ps: Seq<Seq<char>>) -> Seq<Seq<char>>
    decreases ps.len(),
{
    if ps.len() == 0 {
        seq![]
    } else {
        let before = band_names(ps.drop_last());
        match text::after_prefix(text::trimmed(ps.last()), "BAND_LTE_"@) {
            Some(n) => before.push("B"@ + n),
            None => before,
        }
    }
}

/// Whether the pieces of the line make sense: from 1 to 8 carriers, each with a width.
pub open spec fn is_plausible(ps: Seq<Seq<char>>, n: int) -> bool {
    &&& 1 <= n <= 8
    &&& ps.len() >= 2 + n
    &&& forall|i: int| 2 <= i < 2 + n ==> width_in(#[trigger] ps[i]) is Some
}

/// What `+XLEC: <?>,<count>,<width 1>,…,<width N>,BAND_LTE_x,…` says. The rest of the line is
/// not documented; where the line does not make sense, nothing is said.
pub open spec fn aggregation_in(body: Seq<char>) -> Option<Carriers> {
    match xlec_line(body) {
        Some(line) => match text::halves(line, ':') {
            Some((_, rest)) => {
                let ps = text::pieces(rest, ',');
                if ps.len() < 2 {
                    None
                } else {
                    match numbers::unsigned(text::trimmed(ps[1]), 10, usize::MAX as int) {
                        Some(n) => if is_plausible(ps, n) {
                            let ws = Seq::new(n as nat, |i: int| width_in(ps[2 + i])->0);
                            Some(
                                Carriers {
                                    carriers: n,
                                    bandwidths: ws,
                                    bands: band_names(ps),
                                    total: sum_of(ws),
                                },
                            )
                        } else {
                            None
                        },
                        None => None,
                    }
                }
            },
            None => None,
        },
        None => None,
    }
}

fn parse_width(piece: &[char]) -> (r: Option<u32>)
    ensures
        r == width_in(piece@),
        r is Some ==> r->0 <= 200,
{
    match numbers::parse_u32(text::trim(piece)) {
        Some(code) => bandwidth(code),
        None => None,
    }
}

fn named_bands(ps: &Vec<&[char]>) -> (r: Vec<String>)
    ensures
        r.deep_view() == band_names(text::slices(ps@)),
{
    let ghost all = text::slices(ps@);
    let mut out: Vec<String> = Vec::new();
    let mut i: usize = 0;
    assert(out.deep_view() == Seq::<Seq<char>>::empty());
    while i < ps.len()
        invariant
            all == text::slices(ps@),
            i <= ps.len(),
            out.deep_view() == band_names(all.take(i as int)),
        decreases ps.len() - i,
    {
        let ghost before = out.deep_view();
        let ghost next = all.take(i + 1);
        assert(next.drop_last() == all.take(i as int));
        assert(next.last() == ps@[i as int]@);
        if let Some(n) = text::strip_prefix(text::trim(ps[i]), "BAND_LTE_") {
            let mut name = text::chars_of("B");
            text::add_chars(&mut name, n);
            let name = text::string_of(name.as_slice());
            out.push(name);
            assert(out.deep_view() == before.push(name@));
        }
        i += 1;
    }
    assert(all.take(i as int) == all);
    out
}

/// The aggregation that a reply tells of.
pub fn parse_aggregation(body: &str) -> (r: Option<Aggregation>)
    ensures
        r.deep_view() == aggregation_in(body@),
{
    let line = match parse_xlec(body) {
        Some(l) => l,
        None => return None,
    };
    let cs = text::chars_of(line.as_str());
    let rest = match text::split_once(cs.as_slice(), ':') {
        Some((_, r)) => r,
        None => return None,
    };
    let ps = text::split_char(rest, ',');
    let ghost all = text::slices(ps@);
    assert(all.len() == ps.len());
    if ps.len() < 2 {
        return None;
    }
    assert(all[1] == ps@[1]@);
    let n: u64 = match numbers::parse_unsigned(text::trim(ps[1]), 10, usize::MAX as u64) {
        Some(n) => n,
        None => return None,
    };
    if n < 1 || n > 8 || ps.len() < 2 + n as usize {
        return None;
    }
    let n: usize = n as usize;
    let mut bandwidths: Vec<u32> = Vec::new();
    let mut total: u32 = 0;
    let mut i: usize = 0;
    while i < n
        invariant
            all == text::slices(ps@),
            1 <= n <= 8,
            2 + n <= ps.len(),
            i <= n,
            bandwidths.len() == i,
            total <= 200 * i,
            total == sum_of(bandwidths@),
            forall|j: int| 2 <= j < 2 + i ==> width_in(#[trigger] all[j]) is Some,
            forall|j: int| 0 <= j < i ==> #[trigger] bandwidths@[j] == width_in(all[2 + j])->0,
            aggregation_in(body@) is Some ==> is_plausible(all, n as int),
        decreases n - i,
    {
        assert(all[2 + i] == ps@[2 + i]@);
        match parse_width(ps[2 + i]) {
            Some(w) => {
                let ghost before = bandwidths@;
                bandwidths.push(w);
                assert(bandwidths@.drop_last() == before);
                total = total + w;
            },
            None => return None,
        }
        i += 1;
    }
    assert(bandwidths@ =~= Seq::new(n as nat, |i: int| width_in(all[2 + i])->0));
    Some(Aggregation { carriers: n, bandwidths, bands: named_bands(&ps), total })
}

// ---------------------------------------------------------------------------
// What is locked
// ---------------------------------------------------------------------------
/// What was locked last. It is what this program did, and not what the modem says.
#[derive(Debug)]
pub struct LockStore {
    path: String,
}

impl View for LockStore {
    type V = Seq<char>;

    /// The path of the file.
    closed spec fn view(&self) -> Seq<char> {
        self.path@
    }
}

/// What is noted for a lock.
pub open spec fn state_text(earfcn: int, pci: int) -> Seq<char> {
    numbers::decimal(earfcn as nat) + " "@ + numbers::decimal(pci as nat) + "\n"@
}

/// The lock that a note tells of.
pub open spec fn state_of(t: Seq<char>) -> Option<(u32, u16)> {
    let ws = text::words(t);
    if ws.len() < 2 {
        None
    } else {
        match (
            numbers::unsigned(ws[0], 10, 0xffff_ffff),
            numbers::unsigned(ws[1], 10, 0xffff),
        ) {
            (Some(earfcn), Some(pci)) => Some((earfcn as u32, pci as u16)),
            _ => None,
        }
    }
}

/// Read a note.
pub fn parse_state(t: &str) -> (r: Option<(u32, u16)>)
    ensures
        r == state_of(t@),
{
    let cs = text::chars_of(t);
    let ws = text::split_words(cs.as_slice());
    let ghost all = text::slices(ws@);
    assert(all.len() == ws.len());
    if ws.len() < 2 {
        return None;
    }
    assert(all[0] == ws@[0]@ && all[1] == ws@[1]@);
    let earfcn: u32 = match numbers::parse_u32(ws[0]) {
        Some(v) => v,
        None => return None,
    };
    let pci: u16 = match numbers::parse_u16(ws[1]) {
        Some(v) => v,
        None => return None,
    };
    Some((earfcn, pci))
}

impl LockStore {
    pub fn new(path: &str) -> (r: LockStore)
        ensures
            r@ == path@,
    {
        LockStore { path: path.to_owned() }
    }

    pub fn path(&self) -> (r: &str)
        ensures
            r@ == self@,
    {
        self.path.as_str()
    }

    /// The lock that is noted, given what the file holds, if it could be read.
    pub fn load(&self, held: Option<&str>) -> (r: Option<(u32, u16)>)
        ensures
            r == (match at::opt_text(held) {
                Some(t) => state_of(t),
                None => None,
            }),
    {
        match held {
            Some(t) => parse_state(t),
            None => None,
        }
    }

    /// Note a lock.
    pub fn save(&self, earfcn: u32, pci: u16) -> (r: FileChange)
        ensures
            r@ == (Change::Write { path: self@, text: state_text(earfcn as int, pci as int) }),
    {
        let mut out: Vec<char> = Vec::new();
        numbers::add_decimal(&mut out, earfcn as u64);
        text::add_str(&mut out, " ");
        numbers::add_decimal(&mut out, pci as u64);
        text::add_str(&mut out, "\n");
        assert(out@ == state_text(earfcn as int, pci as int));
        FileChange::Write { path: self.path.clone(), text: text::string_of(out.as_slice()) }
    }

    /// Note that nothing is locked.
    pub fn clear(&self) -> (r: FileChange)
        ensures
            r@ == (Change::Remove { path: self@ }),
    {
        FileChange::Remove { path: self.path.clone() }
    }
}

// ---------------------------------------------------------------------------
// Laws
// ---------------------------------------------------------------------------
/// A lock that was noted is read back.
pub proof fn theorem_noted_lock_is_read_back(path: Seq<char>, earfcn: u32, pci: u16)
    ensures
        store::file_after(
            Change::Write { path, text: state_text(earfcn as int, pci as int) },
        ) matches Some(t) && state_of(t) == Some((earfcn, pci)),
{
    reveal_strlit(" ");
    reveal_strlit("\n");
    let e = numbers::decimal(earfcn as nat);
    let p = numbers::decimal(pci as nat);
    numbers::lemma_decimal(earfcn as nat);
    numbers::lemma_decimal(pci as nat);
    assert forall|i: int| 0 <= i < e.len() implies !text::is_white_space(#[trigger] e[i]) by {
        assert(text::is_digit(e[i]));
    }
    assert forall|i: int| 0 <= i < p.len() implies !text::is_white_space(#[trigger] p[i]) by {
        assert(text::is_digit(p[i]));
    }
    let t = state_text(earfcn as int, pci as int);
    let end = seq!['\n'];
    text::lemma_word(e, seq![' '] + (p + end));
    text::lemma_blank(' ', p + end);
    text::lemma_word(p, end);
    text::lemma_blank('\n', seq![]);
    assert(seq!['\n'] + Seq::<char>::empty() == end);
    assert(t == e + (seq![' '] + (p + end)));
    assert(text::words(t) == seq![e] + (seq![p] + Seq::<Seq<char>>::empty()));
    numbers::lemma_unsigned_of_decimal(earfcn as nat, 0xffff_ffff);
    numbers::lemma_unsigned_of_decimal(pci as nat, 0xffff);
}

/// The numbers that stand for no data are never taken for data.
pub proof fn theorem_no_data_is_no_number(raw: Seq<char>)
    ensures
        field_value(raw) != Some(0xffff_ffffu32),
        field_value(raw) != Some(0x7fff_ffffu32),
{
    let t = bare(raw);
    numbers::lemma_unsigned_range(t, 10, 0xffff_ffff);
    if after_hex_mark(t) is Some {
        numbers::lemma_unsigned_range(after_hex_mark(t)->0, 16, 0xffff_ffff);
    }
}

/// A number off its scale is unknown, and what is known lies on the scale: from -141 to -1 dBm,
/// and from -20 to 0 dB.
pub proof fn theorem_levels_lie_on_their_scales(v: Option<u32>)
    ensures
        rsrp_level(v) matches Some(m) ==> m matches Measure::Halves(h) && -282 <= h <= -2,
        rsrq_level(v) matches Some(m) ==> m matches Measure::Halves(h) && -40 <= h <= 0,
        v matches Some(n) && n > 140 ==> rsrp_level(v) is None,
        v matches Some(n) && n > 40 ==> rsrq_level(v) is None,
{
}

/// The serving cell is not listed among the cells around: its record adds none to them.
pub proof fn theorem_serving_cell_is_no_neighbor(recs: Seq<Seq<Seq<char>>>, rec: Seq<Seq<char>>)
    requires
        number_at(rec, F_TYPE as int) == Some(TYPE_SERVING),
    ensures
        neighbors_in(recs.push(rec)) == neighbors_in(recs),
{
    assert(recs.push(rec).drop_last() == recs);
}

proof fn lemma_bare_after_break(f: Seq<char>)
    ensures
        bare(seq!['\n'] + f) == bare(f),
{
    assert((seq!['\n'] + f).skip(1) == f);
}

proof fn lemma_pieces_after_break(s: Seq<char>)
    ensures
        ({
            let ps = text::pieces(s, ',');
            text::pieces(seq!['\n'] + s, ',') == seq![seq!['\n'] + ps[0]] + ps.skip(1)
        }),
        text::pieces(s, ',').len() > 0,
{
    let t = seq!['\n'] + s;
    assert(t.skip(1) == s);
    text::lemma_position(s, ',');
    let i = text::position(s, ',');
    assert(text::position(t, ',') == i + 1);
    if i < s.len() {
        let rest = text::pieces(s.skip(i + 1), ',');
        assert(t.take(i + 1) == seq!['\n'] + s.take(i));
        assert(t.skip(i + 2) == s.skip(i + 1));
        assert(text::pieces(s, ',') == seq![s.take(i)] + rest);
        assert(text::pieces(s, ',').skip(1) == rest);
    } else {
        assert(text::pieces(s, ',') == seq![s]);
        assert(text::pieces(s, ',').skip(1) == Seq::<Seq<char>>::empty());
        assert(text::pieces(t, ',') == seq![t]);
    }
}

/// A record that goes on in the next line after a comma has the same fields as one that does
/// not.
pub proof fn theorem_line_breaks_do_not_matter(a: Seq<char>, b: Seq<char>)
    requires
        !text::occurs(a + seq![','] + b, "\nOK"@),
        !text::occurs(a + seq![','] + (seq!['\n'] + b), "\nOK"@),
    ensures
        record_fields(a + seq![','] + (seq!['\n'] + b)) == record_fields(a + seq![','] + b),
{
    let whole = a + seq![','] + b;
    let broken = a + seq![','] + (seq!['\n'] + b);
    assert(whole.take(whole.len() as int) == whole);
    assert(broken.take(broken.len() as int) == broken);
    text::lemma_pieces_concat(a, ',', b);
    text::lemma_pieces_concat(a, ',', seq!['\n'] + b);
    lemma_pieces_after_break(b);
    let before = text::pieces(a, ',');
    let ps = text::pieces(b, ',');
    let qs = text::pieces(seq!['\n'] + b, ',');
    lemma_bare_after_break(ps[0]);
    assert(qs.len() == ps.len());
    assert forall|i: int| 0 <= i < before.len() + ps.len() implies bare((before + qs)[i]) == bare(
        (before + ps)[i],
    ) by {
        if i > before.len() {
            assert(qs[i - before.len()] == ps.skip(1)[i - before.len() - 1]);
        }
    }
    assert(record_fields(broken) =~= record_fields(whole));
}

proof fn lemma_levels(recs: Seq<Seq<Seq<char>>>)
    ensures
        forall|i: int|
            0 <= i < neighbors_in(recs).len() ==> {
                (#[trigger] neighbors_in(recs)[i]).rsrp matches Some(m) ==> (m matches Measure::Halves(
                    h,
                ) && -282 <= h <= 0)
            },
    decreases recs.len(),
{
    if recs.len() > 0 {
        lemma_levels(recs.drop_last());
        let before = neighbors_in(recs.drop_last());
        let all = neighbors_in(recs);
        assert forall|i: int| 0 <= i < all.len() implies {
            (#[trigger] all[i]).rsrp matches Some(m) ==> (m matches Measure::Halves(h) && -282 <= h
                <= 0)
        } by {
            if i < before.len() {
                assert(all[i] == before[i]);
            }
        }
    }
}

/// Of the cells around, none stands before a stronger one, and those without an RSRP come last.
pub proof fn theorem_strongest_neighbor_first(body: Seq<char>, order: Seq<int>)
    requires
        signal::is_ranking(order, strengths(neighbors_in(records(body)))),
    ensures
        ({
            let ranked = signal::arranged(neighbors_in(records(body)), order);
            forall|i: int, j: int|
                0 <= i < j < ranked.len() ==> !signal_laws::is_weaker(
                    (#[trigger] ranked[i]).rsrp,
                    (#[trigger] ranked[j]).rsrp,
                )
        }),
{
    let cells = neighbors_in(records(body));
    let keys = strengths(cells);
    lemma_levels(records(body));
    vstd::arithmetic::power::lemma_pow1(10);
    assert forall|a: int, b: int|
        #![trigger cells[a], cells[b]]
        0 <= a < cells.len() && 0 <= b < cells.len() && signal_laws::is_weaker(
            cells[a].rsrp,
            cells[b].rsrp,
        ) implies keys[a] < keys[b] by {}
    signal_laws::theorem_no_cell_before_a_stronger_one(cells, keys, order);
}

} // verus!
