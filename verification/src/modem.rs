//! The modem: locks kept in its files, measurements, cells around, bands.
//!
//! Firmwares differ in the AT commands they know, so the modem is probed at the start: every
//! candidate is sent, and the one that got a sensible reply is kept. Only what was confirmed is
//! offered.
//!
//! What a modem is told next depends on what it answered before. Each operation is therefore
//! asked again after every reply, with all replies so far, and says what comes next.

use crate::at;
use crate::at::{AtResponse, Reply};
use crate::numbers;
use crate::signal;
use crate::signal::{Cell, Measure, Neighbor, Reading, Sample, SampleView, Signal, SignalView};
use crate::text;
use std::collections::VecDeque;
use vstd::prelude::*;
use vstd::string::*;

verus! {

pub const EFS_EARFCN: &'static str = "/nv/item_files/modem/lte/rrc/csp/earfcn_lock";

pub const EFS_PCI: &'static str = "/nv/item_files/modem/lte/rrc/csp/pci_lock";

/// How many points of the graph are kept.
pub const HISTORY_CAP: usize = 720;

// ---------------------------------------------------------------------------
// Numbers in files
// ---------------------------------------------------------------------------
/// The two bytes of a number, the low one first.
pub open spec fn le16(v: int) -> Seq<char> {
    numbers::hex_pair(v % 256) + seq![','] + numbers::hex_pair(v / 256)
}

/// 2850 is written `22,0b`.
pub fn to_le16(v: u16) -> (r: String)
    ensures
        r@ == le16(v as int),
{
    let mut out: Vec<char> = Vec::new();
    numbers::add_hex_pair(&mut out, (v % 256) as u8);
    out.push(',');
    numbers::add_hex_pair(&mut out, (v / 256) as u8);
    assert(out@ == le16(v as int));
    text::string_of(out.as_slice())
}

/// The number that two bytes stand for. Spaces around them and upper case are allowed.
pub open spec fn le16_value(s: Seq<char>) -> Option<u16> {
    let ps = text::pieces(s, ',');
    if ps.len() != 2 {
        None
    } else {
        match (
            numbers::unsigned(text::trimmed(ps[0]), 16, 0xff),
            numbers::unsigned(text::trimmed(ps[1]), 16, 0xff),
        ) {
            (Some(lo), Some(hi)) => Some((hi * 256 + lo) as u16),
            _ => None,
        }
    }
}

fn le16_of(s: &[char]) -> (r: Option<u16>)
    ensures
        r == le16_value(s@),
{
    let ps = text::split_char(s, ',');
    let ghost all = text::slices(ps@);
    if ps.len() != 2 {
        return None;
    }
    assert(all[0] == ps@[0]@ && all[1] == ps@[1]@);
    let lo: u64 = match numbers::parse_unsigned(text::trim(ps[0]), 16, 0xff) {
        Some(v) => v,
        None => return None,
    };
    let hi: u64 = match numbers::parse_unsigned(text::trim(ps[1]), 16, 0xff) {
        Some(v) => v,
        None => return None,
    };
    Some((hi * 256 + lo) as u16)
}

/// `22,0b` stands for 2850.
pub fn from_le16(s: &str) -> (r: Option<u16>)
    ensures
        r == le16_value(s@),
{
    let cs = text::chars_of(s);
    le16_of(cs.as_slice())
}

/// The first line that shows a file.
pub open spec fn efs_line(ls: Seq<Seq<char>>) -> Option<Seq<char>>
    decreases ls.len(),
{
    if ls.len() == 0 {
        None
    } else if text::occurs(text::uppercase(ls[0]), "EFS:"@) {
        Some(ls[0])
    } else {
        efs_line(ls.skip(1))
    }
}

/// A text without its white space.
pub open spec fn without_blanks(s: Seq<char>) -> Seq<char>
    decreases s.len(),
{
    if s.len() == 0 {
        seq![]
    } else if text::is_white_space(s.last()) {
        without_blanks(s.drop_last())
    } else {
        without_blanks(s.drop_last()).push(s.last())
    }
}

/// Whether a text is one byte in hexadecimal: one digit or two.
pub open spec fn is_byte(p: Seq<char>) -> bool {
    1 <= p.len() <= 2 && forall|i: int| 0 <= i < p.len() ==> text::is_hex_digit(#[trigger] p[i])
}

/// Whether a text is a list of bytes with commas between them.
pub open spec fn is_byte_list(s: Seq<char>) -> bool {
    forall|i: int|
        0 <= i < text::pieces(s, ',').len() ==> is_byte(#[trigger] text::pieces(s, ',')[i])
}

/// What a line shows of a file: after the colon comes its path, and after a comma what it
/// holds. White space does not count, and neither does the case of letters.
pub open spec fn shown_data(line: Seq<char>) -> Option<Seq<char>> {
    match text::halves(line, ':') {
        Some((_, shown)) => match text::halves(shown, ',') {
            Some((_, data)) => Some(text::lowercase(without_blanks(data))),
            None => None,
        },
        None => None,
    }
}

/// What a reply shows of a file, be it bytes or not.
pub open spec fn efs_data(body: Seq<char>) -> Option<Seq<char>> {
    match efs_line(text::line_list(body)) {
        Some(line) => shown_data(line),
        None => None,
    }
}

/// The bytes that a reply shows of a file.
pub open spec fn efs_bytes(body: Seq<char>) -> Option<Seq<char>> {
    match efs_data(body) {
        Some(data) => if is_byte_list(data) {
            Some(data)
        } else {
            None
        },
        None => None,
    }
}

fn find_efs_line<'a>(body: &'a [char]) -> (r: Option<&'a [char]>)
    ensures
        match r {
            Some(l) => efs_line(text::line_list(body@)) == Some(l@),
            None => efs_line(text::line_list(body@)) is None,
        },
{
    let ls = text::lines(body);
    let ghost all = text::slices(ls@);
    let mut i: usize = 0;
    assert(all.skip(0) == all);
    while i < ls.len()
        invariant
            all == text::slices(ls@),
            all == text::line_list(body@),
            i <= ls.len(),
            efs_line(all.skip(i as int)) == efs_line(all),
        decreases ls.len() - i,
    {
        assert(all.skip(i as int)[0] == ls@[i as int]@);
        assert(all.skip(i as int).skip(1) == all.skip(i + 1));
        let upper = text::to_upper(ls[i]);
        if text::contains(upper.as_slice(), "EFS:") {
            return Some(ls[i]);
        }
        i += 1;
    }
    None
}

fn drop_blanks(s: &[char]) -> (r: Vec<char>)
    ensures
        r@ == without_blanks(s@),
{
    let mut out: Vec<char> = Vec::new();
    let mut i: usize = 0;
    while i < s.len()
        invariant
            i <= s.len(),
            out@ == without_blanks(s@.take(i as int)),
        decreases s.len() - i,
    {
        assert(s@.take(i + 1).drop_last() == s@.take(i as int));
        if !text::white_space(s[i]) {
            out.push(s[i]);
        }
        i += 1;
    }
    assert(s@.take(i as int) == s@);
    out
}

fn byte(p: &[char]) -> (r: bool)
    ensures
        r == is_byte(p@),
{
    match p.len() {
        1 => text::hex_digit(p[0]),
        2 => text::hex_digit(p[0]) && text::hex_digit(p[1]),
        _ => false,
    }
}

fn byte_list(s: &[char]) -> (r: bool)
    ensures
        r == is_byte_list(s@),
{
    let ps = text::split_char(s, ',');
    let ghost all = text::slices(ps@);
    let mut i: usize = 0;
    while i < ps.len()
        invariant
            all == text::slices(ps@),
            all == text::pieces(s@, ','),
            i <= ps.len(),
            forall|j: int| 0 <= j < i ==> is_byte(#[trigger] all[j]),
        decreases ps.len() - i,
    {
        assert(all[i as int] == ps@[i as int]@);
        if !byte(ps[i]) {
            return false;
        }
        i += 1;
    }
    true
}

fn read_efs_data(body: &str) -> (r: Option<Vec<char>>)
    ensures
        match r {
            Some(d) => efs_data(body@) == Some(d@),
            None => efs_data(body@) is None,
        },
{
    let cs = text::chars_of(body);
    let line = match find_efs_line(cs.as_slice()) {
        Some(l) => l,
        None => return None,
    };
    let shown = match text::split_once(line, ':') {
        Some((_, s)) => s,
        None => return None,
    };
    match text::split_once(shown, ',') {
        Some((_, data)) => {
            let cleaned = drop_blanks(data);
            Some(text::to_lower(cleaned.as_slice()))
        },
        None => None,
    }
}

/// The bytes in a line such as `^EFS: /nv/…/pci_lock, 22,0b,39,00`; nothing where there is no
/// such line or what it shows is not a list of bytes.
pub fn parse_efs_bytes(body: &str) -> (r: Option<String>)
    ensures
        r.deep_view() == efs_bytes(body@),
{
    match read_efs_data(body) {
        Some(data) => if byte_list(data.as_slice()) {
            Some(text::string_of(data.as_slice()))
        } else {
            None
        },
        None => None,
    }
}

// ---------------------------------------------------------------------------
// Locks
// ---------------------------------------------------------------------------
#[derive(Debug, Clone, PartialEq)]
pub struct LockState {
    /// The carrier in `earfcn_lock`.
    pub earfcn: Option<u16>,
    /// The carrier in `pci_lock`.
    pub pci_earfcn: Option<u16>,
    /// The cell in `pci_lock`.
    pub pci: Option<u16>,
    /// The bytes themselves.
    pub raw_earfcn: Option<String>,
    pub raw_pci: Option<String>,
}

/// A state of the locks as a mathematical value.
pub struct Locks {
    pub earfcn: Option<u16>,
    pub pci_earfcn: Option<u16>,
    pub pci: Option<u16>,
    pub raw_earfcn: Option<Seq<char>>,
    pub raw_pci: Option<Seq<char>>,
}

impl View for LockState {
    type V = Locks;

    open spec fn view(&self) -> Locks {
        Locks {
            earfcn: self.earfcn,
            pci_earfcn: self.pci_earfcn,
            pci: self.pci,
            raw_earfcn: self.raw_earfcn.deep_view(),
            raw_pci: self.raw_pci.deep_view(),
        }
    }
}

impl DeepView for LockState {
    type V = Locks;

    open spec fn deep_view(&self) -> Locks {
        self.view()
    }
}

/// No lock.
pub open spec fn unlocked() -> Locks {
    Locks { earfcn: None, pci_earfcn: None, pci: None, raw_earfcn: None, raw_pci: None }
}

impl Default for LockState {
    fn default() -> (r: LockState)
        ensures
            r@ == unlocked(),
    {
        LockState { earfcn: None, pci_earfcn: None, pci: None, raw_earfcn: None, raw_pci: None }
    }
}

/// Whether both locks are set: in the modem they get in each other's way.
pub open spec fn in_conflict(l: Locks) -> bool {
    l.earfcn is Some && l.pci is Some
}

impl LockState {
    pub fn has_conflict(&self) -> (r: bool)
        ensures
            r == in_conflict(self@),
    {
        self.earfcn.is_some() && self.pci.is_some()
    }
}

/// The locks that the replies to the two reads show.
pub open spec fn locks_shown(earfcn_body: Seq<char>, pci_body: Seq<char>) -> Locks {
    let e = efs_bytes(earfcn_body);
    let p = efs_bytes(pci_body);
    let ps = text::pieces(p->0, ',');
    let whole = p is Some && ps.len() == 4;
    Locks {
        earfcn: match e {
            Some(b) => le16_value(b),
            None => None,
        },
        raw_earfcn: e,
        pci_earfcn: if whole {
            le16_value(ps[0] + seq![','] + ps[1])
        } else {
            None
        },
        pci: if whole {
            le16_value(ps[2] + seq![','] + ps[3])
        } else {
            None
        },
        raw_pci: p,
    }
}

fn pair_value(lo: &[char], hi: &[char]) -> (r: Option<u16>)
    ensures
        r == le16_value(lo@ + seq![','] + hi@),
{
    let mut pair: Vec<char> = Vec::new();
    text::add_chars(&mut pair, lo);
    pair.push(',');
    text::add_chars(&mut pair, hi);
    assert(pair@ == lo@ + seq![','] + hi@);
    le16_of(pair.as_slice())
}

fn lock_state(earfcn_body: &str, pci_body: &str) -> (r: LockState)
    ensures
        r@ == locks_shown(earfcn_body@, pci_body@),
{
    let raw_earfcn = parse_efs_bytes(earfcn_body);
    let earfcn = match &raw_earfcn {
        Some(b) => from_le16(b.as_str()),
        None => None,
    };
    let raw_pci = parse_efs_bytes(pci_body);
    let mut pci_earfcn: Option<u16> = None;
    let mut pci: Option<u16> = None;
    if let Some(b) = &raw_pci {
        let cs = text::chars_of(b.as_str());
        let ps = text::split_char(cs.as_slice(), ',');
        let ghost all = text::slices(ps@);
        if ps.len() == 4 {
            assert(all[0] == ps@[0]@ && all[1] == ps@[1]@ && all[2] == ps@[2]@ && all[3]
                == ps@[3]@);
            pci_earfcn = pair_value(ps[0], ps[1]);
            pci = pair_value(ps[2], ps[3]);
        }
    }
    LockState { earfcn, pci_earfcn, pci, raw_earfcn, raw_pci }
}

// ---------------------------------------------------------------------------
// Steps
// ---------------------------------------------------------------------------
/// What an operation does next.
#[derive(Debug)]
pub enum Step<T> {
    /// Send a command.
    Send(String),
    /// Send a command that takes its time.
    SendSlow(String),
    /// Go over to the serial device, if there is one.
    Fallback,
    /// It has failed.
    Failed(String),
    /// It has succeeded.
    Done(T),
}

/// A step as a mathematical value.
pub enum Move<V> {
    Send(Seq<char>),
    SendSlow(Seq<char>),
    Fallback,
    Failed(Seq<char>),
    Done(V),
}

impl<T: DeepView> View for Step<T> {
    type V = Move<T::V>;

    open spec fn view(&self) -> Move<T::V> {
        match self {
            Step::Send(c) => Move::Send(c@),
            Step::SendSlow(c) => Move::SendSlow(c@),
            Step::Fallback => Move::Fallback,
            Step::Failed(e) => Move::Failed(e@),
            Step::Done(t) => Move::Done(t.deep_view()),
        }
    }
}

/// What has happened in an operation so far.
#[derive(Debug)]
pub struct Transcript {
    /// What came of each command that was sent.
    pub replies: Vec<Result<AtResponse, String>>,
    /// What came of each attempt to fall back.
    pub switches: Vec<bool>,
}

impl Transcript {
    /// Nothing has happened.
    pub fn new() -> (r: Transcript)
        ensures
            r.replies@.len() == 0,
            r.switches@.len() == 0,
    {
        Transcript { replies: Vec::new(), switches: Vec::new() }
    }
}

/// A reply, or why there is none.
pub type Answer = Result<Reply, Seq<char>>;

pub open spec fn answer(r: Result<AtResponse, String>) -> Answer {
    match r {
        Ok(a) => Ok(a@),
        Err(e) => Err(e@),
    }
}

impl Transcript {
    /// What came of the commands.
    pub open spec fn answers(self) -> Seq<Answer> {
        Seq::new(self.replies@.len(), |i: int| answer(self.replies@[i]))
    }
}

// ---------------------------------------------------------------------------
// Writing files
// ---------------------------------------------------------------------------
/// The command that shows a file.
pub open spec fn read_command(path: Seq<char>) -> Seq<char> {
    "at^efs=\""@ + path + "\""@
}

/// The command that writes bytes to a file; no bytes empty it.
pub open spec fn write_command(path: Seq<char>, bytes: Seq<char>) -> Seq<char> {
    if bytes.len() == 0 {
        "at^efs=\""@ + path + "\",0"@
    } else {
        "at^efs=\""@ + path + "\","@ + numbers::decimal(text::pieces(bytes, ',').len()) + ",\""@
            + bytes + "\""@
    }
}

fn read_cmd(path: &str) -> (r: String)
    ensures
        r@ == read_command(path@),
{
    let mut s = "at^efs=\"".to_owned();
    s.append(path);
    s.append("\"");
    s
}

fn write_cmd(path: &str, bytes: &str) -> (r: String)
    ensures
        r@ == write_command(path@, bytes@),
{
    let data = text::chars_of(bytes);
    let mut out = text::chars_of("at^efs=\"");
    text::add_str(&mut out, path);
    if data.len() == 0 {
        text::add_str(&mut out, "\",0");
    } else {
        let ps = text::split_char(data.as_slice(), ',');
        assert(text::slices(ps@).len() == ps@.len());
        text::add_str(&mut out, "\",");
        numbers::add_decimal(&mut out, ps.len() as u64);
        text::add_str(&mut out, ",\"");
        text::add_str(&mut out, bytes);
        text::add_str(&mut out, "\"");
    }
    text::string_of(out.as_slice())
}

/// How far an attempt to write a file has come: it has something to send, it broke off, or the
/// file was read back and it is as it should be or not.
pub enum Attempt {
    Ask(Seq<char>),
    Broken(Seq<char>),
    Checked(bool),
}

/// What a file holds, by the reply to a read: what is shown, even where that is no list of bytes,
/// and nothing where nothing is shown.
pub open spec fn file_shown(body: Seq<char>) -> Seq<char> {
    match efs_data(body) {
        Some(data) => data,
        None => seq![],
    }
}

/// An attempt writes, then reads back.
pub open spec fn attempt(path: Seq<char>, bytes: Seq<char>, rs: Seq<Answer>) -> Attempt {
    if rs.len() == 0 {
        Attempt::Ask(write_command(path, bytes))
    } else {
        match rs[0] {
            Err(e) => Attempt::Broken(e),
            Ok(_) => if rs.len() == 1 {
                Attempt::Ask(read_command(path))
            } else {
                match rs[1] {
                    Err(e) => Attempt::Broken(e),
                    Ok(r) => Attempt::Checked(file_shown(r.body) == bytes),
                }
            },
        }
    }
}

/// How far the writing of a file has come. Once written, it has taken the given numbers of
/// replies and of attempts to fall back.
pub enum Writing {
    Ask(Seq<char>),
    Fallback,
    Failed(Seq<char>),
    Written { replies: int, switches: int },
}

pub open spec fn mismatch(path: Seq<char>) -> Seq<char> {
    "не удалось записать "@ + path + ": в модеме оказалось не то, что ожидалось"@
}

/// A file is written and read back. If it is not as it should be, there is one more attempt
/// over the serial device: the command line of the router can spoil quotation marks.
pub open spec fn writing(
    path: Seq<char>,
    bytes: Seq<char>,
    rs: Seq<Answer>,
    sw: Seq<bool>,
) -> Writing {
    match attempt(path, bytes, rs) {
        Attempt::Ask(c) => Writing::Ask(c),
        Attempt::Broken(e) => Writing::Failed(e),
        Attempt::Checked(good) => if good {
            Writing::Written { replies: 2, switches: 0 }
        } else if sw.len() == 0 {
            Writing::Fallback
        } else if !sw[0] {
            Writing::Failed(mismatch(path))
        } else {
            match attempt(path, bytes, rs.skip(2)) {
                Attempt::Ask(c) => Writing::Ask(c),
                Attempt::Broken(e) => Writing::Failed(e),
                Attempt::Checked(again) => if again {
                    Writing::Written { replies: 4, switches: 1 }
                } else {
                    Writing::Failed(mismatch(path))
                },
            }
        },
    }
}

/// One file is written and then another.
pub open spec fn two_writes(
    first: (Seq<char>, Seq<char>),
    second: (Seq<char>, Seq<char>),
    rs: Seq<Answer>,
    sw: Seq<bool>,
) -> Move<()> {
    match writing(first.0, first.1, rs, sw) {
        Writing::Ask(c) => Move::Send(c),
        Writing::Fallback => Move::Fallback,
        Writing::Failed(e) => Move::Failed(e),
        Writing::Written { replies, switches } => {
            match writing(second.0, second.1, rs.skip(replies), sw.skip(switches)) {
                Writing::Ask(c) => Move::Send(c),
                Writing::Fallback => Move::Fallback,
                Writing::Failed(e) => Move::Failed(e),
                Writing::Written { .. } => Move::Done(()),
            }
        },
    }
}

/// How many replies two writes take once they are done.
pub open spec fn writes_taken(
    first: (Seq<char>, Seq<char>),
    second: (Seq<char>, Seq<char>),
    rs: Seq<Answer>,
    sw: Seq<bool>,
) -> int {
    match writing(first.0, first.1, rs, sw) {
        Writing::Written { replies, switches } => {
            match writing(second.0, second.1, rs.skip(replies), sw.skip(switches)) {
                Writing::Written { replies: more, .. } => replies + more,
                _ => 0,
            }
        },
        _ => 0,
    }
}

enum TryOut {
    Ask(String),
    Broken(String),
    Checked(bool),
}

impl View for TryOut {
    type V = Attempt;

    closed spec fn view(&self) -> Attempt {
        match self {
            TryOut::Ask(c) => Attempt::Ask(c@),
            TryOut::Broken(e) => Attempt::Broken(e@),
            TryOut::Checked(b) => Attempt::Checked(*b),
        }
    }
}

enum WriteOut {
    Ask(String),
    Fallback,
    Failed(String),
    Written { replies: usize, switches: usize },
}

impl View for WriteOut {
    type V = Writing;

    closed spec fn view(&self) -> Writing {
        match self {
            WriteOut::Ask(c) => Writing::Ask(c@),
            WriteOut::Fallback => Writing::Fallback,
            WriteOut::Failed(e) => Writing::Failed(e@),
            WriteOut::Written { replies, switches } => Writing::Written {
                replies: *replies as int,
                switches: *switches as int,
            },
        }
    }
}

/// Whether a file was read back as it should be.
fn verify_efs(r: &AtResponse, expected: &str) -> (same: bool)
    ensures
        same == (file_shown(r@.body) == expected@),
{
    let want = text::chars_of(expected);
    match read_efs_data(r.body.as_str()) {
        Some(got) => text::same(got.as_slice(), want.as_slice()),
        None => {
            assert(want@.len() == 0 ==> want@ == Seq::<char>::empty());
            want.len() == 0
        },
    }
}

/// The attempt that begins with the reply `at`.
fn attempt_at(path: &str, bytes: &str, log: &Transcript, at: usize) -> (r: TryOut)
    requires
        at <= log.replies.len(),
    ensures
        r@ == attempt(path@, bytes@, log.answers().skip(at as int)),
{
    let ghost rs = log.answers().skip(at as int);
    if log.replies.len() == at {
        return TryOut::Ask(write_cmd(path, bytes));
    }
    assert(rs[0] == answer(log.replies@[at as int]));
    if let Err(e) = &log.replies[at] {
        return TryOut::Broken(e.clone());
    }
    if log.replies.len() - at == 1 {
        return TryOut::Ask(read_cmd(path));
    }
    assert(rs[1] == answer(log.replies@[at + 1]));
    match &log.replies[at + 1] {
        Err(e) => TryOut::Broken(e.clone()),
        Ok(r) => TryOut::Checked(verify_efs(r, bytes)),
    }
}

fn mismatch_text(path: &str) -> (r: String)
    ensures
        r@ == mismatch(path@),
{
    let mut s = "не удалось записать ".to_owned();
    s.append(path);
    s.append(": в модеме оказалось не то, что ожидалось");
    s
}

/// The writing that begins with the reply `at` and the attempt to fall back `sw`.
fn write_efs(path: &str, bytes: &str, log: &Transcript, at: usize, sw: usize) -> (r: WriteOut)
    requires
        at <= log.replies.len(),
        sw <= log.switches.len(),
    ensures
        r@ == writing(
            path@,
            bytes@,
            log.answers().skip(at as int),
            log.switches@.skip(sw as int),
        ),
        r matches WriteOut::Written { replies, switches } ==> at + replies <= log.replies.len()
            && sw + switches <= log.switches.len(),
{
    let ghost rs = log.answers().skip(at as int);
    match attempt_at(path, bytes, log, at) {
        TryOut::Ask(c) => WriteOut::Ask(c),
        TryOut::Broken(e) => WriteOut::Failed(e),
        TryOut::Checked(good) => {
            if good {
                return WriteOut::Written { replies: 2, switches: 0 };
            }
            if log.switches.len() == sw {
                return WriteOut::Fallback;
            }
            if !log.switches[sw] {
                return WriteOut::Failed(mismatch_text(path));
            }
            assert(rs.skip(2) == log.answers().skip(at + 2));
            match attempt_at(path, bytes, log, at + 2) {
                TryOut::Ask(c) => WriteOut::Ask(c),
                TryOut::Broken(e) => WriteOut::Failed(e),
                TryOut::Checked(again) => if again {
                    WriteOut::Written { replies: 4, switches: 1 }
                } else {
                    WriteOut::Failed(mismatch_text(path))
                },
            }
        },
    }
}

/// Two writes, and how many replies they take once they are done.
fn write_two(
    path1: &str,
    bytes1: &str,
    path2: &str,
    bytes2: &str,
    log: &Transcript,
) -> (r: (Step<()>, usize))
    ensures
        r.0@ == two_writes((path1@, bytes1@), (path2@, bytes2@), log.answers(), log.switches@),
        r.1 == writes_taken((path1@, bytes1@), (path2@, bytes2@), log.answers(), log.switches@),
        r.1 <= log.replies.len(),
{
    assert(log.answers().skip(0) == log.answers());
    assert(log.switches@.skip(0) == log.switches@);
    match write_efs(path1, bytes1, log, 0, 0) {
        WriteOut::Ask(c) => (Step::Send(c), 0),
        WriteOut::Fallback => (Step::Fallback, 0),
        WriteOut::Failed(e) => (Step::Failed(e), 0),
        WriteOut::Written { replies, switches } => {
            match write_efs(path2, bytes2, log, replies, switches) {
                WriteOut::Ask(c) => (Step::Send(c), 0),
                WriteOut::Fallback => (Step::Fallback, 0),
                WriteOut::Failed(e) => (Step::Failed(e), 0),
                WriteOut::Written { replies: more, .. } => (Step::Done(()), replies + more),
            }
        },
    }
}

// ---------------------------------------------------------------------------
// What a modem can do
// ---------------------------------------------------------------------------
/// The commands that proved to work.
#[derive(Debug)]
pub struct Caps {
    /// The command that tells of the serving cell.
    pub serving: Option<String>,
    /// The command that lists the cells around.
    pub neighbors: Option<String>,
    /// The command that reads the bands.
    pub bands_query: Option<String>,
    /// How to set the bands; `{}` stands for the mask.
    pub bands_set: Option<String>,
    /// Whether files can be read and written. There are no locks without them.
    pub efs: bool,
}

/// Capabilities as a mathematical value.
pub struct CapsView {
    pub serving: Option<Seq<char>>,
    pub neighbors: Option<Seq<char>>,
    pub bands_query: Option<Seq<char>>,
    pub bands_set: Option<Seq<char>>,
    pub efs: bool,
}

impl View for Caps {
    type V = CapsView;

    open spec fn view(&self) -> CapsView {
        CapsView {
            serving: self.serving.deep_view(),
            neighbors: self.neighbors.deep_view(),
            bands_query: self.bands_query.deep_view(),
            bands_set: self.bands_set.deep_view(),
            efs: self.efs,
        }
    }
}

/// Nothing is known to work.
pub open spec fn no_caps() -> CapsView {
    CapsView { serving: None, neighbors: None, bands_query: None, bands_set: None, efs: false }
}

impl Default for Caps {
    fn default() -> (r: Caps)
        ensures
            r@ == no_caps(),
    {
        Caps { serving: None, neighbors: None, bands_query: None, bands_set: None, efs: false }
    }
}

impl Clone for Caps {
    fn clone(&self) -> (r: Caps)
        ensures
            r@ == self@,
    {
        Caps {
            serving: signal::copy_string(&self.serving),
            neighbors: signal::copy_string(&self.neighbors),
            bands_query: signal::copy_string(&self.bands_query),
            bands_set: signal::copy_string(&self.bands_set),
            efs: self.efs,
        }
    }
}

/// The commands that may tell of the serving cell, the best one first.
pub open spec fn serving_candidates() -> Seq<Seq<char>> {
    seq!["AT^DEBUG?"@, "AT+GTCCINFO?"@, "AT+CESQ"@, "AT+CSQ"@]
}

/// The commands that may list the cells around.
pub open spec fn neighbor_candidates() -> Seq<Seq<char>> {
    seq!["AT$QCRSRP?"@, "AT+VZWRSRP?"@, "AT+GTCCINFO?"@]
}

/// The commands that may read the bands.
pub open spec fn band_candidates() -> Seq<Seq<char>> {
    seq!["AT+GTACT?"@, "AT^BAND_PRI?"@, "AT^SYSCFGEX?"@]
}

/// How to set the bands where `query` reads them.
pub open spec fn band_template(query: Seq<char>) -> Option<Seq<char>> {
    if query == "AT+GTACT?"@ {
        Some("AT+GTACT=2,,,{}"@)
    } else if query == "AT^BAND_PRI?"@ {
        Some("AT^BAND_PRI={}"@)
    } else {
        None
    }
}

fn band_set_template(query: &str) -> (r: Option<String>)
    ensures
        r.deep_view() == band_template(query@),
{
    let q = text::chars_of(query);
    if text::reads(q.as_slice(), "AT+GTACT?") {
        Some("AT+GTACT=2,,,{}".to_owned())
    } else if text::reads(q.as_slice(), "AT^BAND_PRI?") {
        Some("AT^BAND_PRI={}".to_owned())
    } else {
        None
    }
}

/// Whether a reply shows that a command works: it succeeded and said something, and where cells
/// are wanted, it listed some.
pub open spec fn confirms(a: Answer, cells: bool) -> bool {
    match a {
        Ok(r) => r.ok && r.body.len() > 0 && (cells ==> signal::cells_in(
            text::line_list(r.body),
        ).len() > 0),
        Err(_) => false,
    }
}

fn confirmed(a: &Result<AtResponse, String>, cells: bool) -> (r: bool)
    ensures
        r == confirms(answer(*a), cells),
{
    match a {
        Ok(r) => {
            let body = text::chars_of(r.body.as_str());
            r.ok && body.len() > 0 && (!cells || signal::list_neighbors(r.body.as_str()).len() > 0)
        },
        Err(_) => false,
    }
}

/// How far the search for a working command has come.
pub enum Search {
    Ask(Seq<char>),
    Settled { found: Option<Seq<char>>, used: int },
}

/// The search among candidates, from the `i`th on: the first one that is confirmed is taken.
pub open spec fn search(cands: Seq<Seq<char>>, rs: Seq<Answer>, cells: bool, i: int) -> Search
    decreases cands.len() - i,
{
    if i >= cands.len() {
        Search::Settled { found: None, used: i }
    } else if i >= rs.len() {
        Search::Ask(cands[i])
    } else if confirms(rs[i], cells) {
        Search::Settled { found: Some(cands[i]), used: i + 1 }
    } else {
        search(cands, rs, cells, i + 1)
    }
}

enum SearchOut {
    Ask(String),
    Settled { found: Option<String>, used: usize },
}

impl View for SearchOut {
    type V = Search;

    closed spec fn view(&self) -> Search {
        match self {
            SearchOut::Ask(c) => Search::Ask(c@),
            SearchOut::Settled { found, used } => Search::Settled {
                found: found.deep_view(),
                used: *used as int,
            },
        }
    }
}

/// The search that begins with the reply `at`.
fn search_at(cands: &Vec<&str>, log: &Transcript, cells: bool, at: usize) -> (r: SearchOut)
    requires
        at <= log.replies.len(),
    ensures
        r@ == search(cands.deep_view(), log.answers().skip(at as int), cells, 0),
        r matches SearchOut::Settled { used, .. } ==> at + used <= log.replies.len(),
{
    let ghost rs = log.answers().skip(at as int);
    let ghost all = cands.deep_view();
    let mut i: usize = 0;
    while i < cands.len()
        invariant
            at <= log.replies.len(),
            rs == log.answers().skip(at as int),
            all == cands.deep_view(),
            i <= cands.len(),
            at + i <= log.replies.len(),
            search(all, rs, cells, 0) == search(all, rs, cells, i as int),
        decreases cands.len() - i,
    {
        assert(all[i as int] == cands@[i as int]@);
        if log.replies.len() - at == i {
            return SearchOut::Ask(cands[i].to_owned());
        }
        assert(rs[i as int] == answer(log.replies@[at + i]));
        if confirmed(&log.replies[at + i], cells) {
            return SearchOut::Settled { found: Some(cands[i].to_owned()), used: i + 1 };
        }
        i += 1;
    }
    SearchOut::Settled { found: None, used: i }
}

/// What a probe brought to light.
#[derive(Debug)]
pub struct Probed {
    /// How the modem names itself, if it answered.
    pub info: Option<String>,
    pub caps: Caps,
}

/// The outcome of a probe as a mathematical value.
pub struct ProbedView {
    pub info: Option<Seq<char>>,
    pub caps: CapsView,
}

impl DeepView for Probed {
    type V = ProbedView;

    open spec fn deep_view(&self) -> ProbedView {
        ProbedView { info: self.info.deep_view(), caps: self.caps@ }
    }
}

/// How the modem names itself, by the reply to `ATI`.
pub open spec fn info_of(a: Answer) -> Option<Seq<char>> {
    match a {
        Ok(r) => Some(r.body),
        Err(_) => None,
    }
}

/// Whether files can be read, by the reply to the read of one.
pub open spec fn efs_works(a: Answer) -> bool {
    match a {
        Ok(r) => r.ok || text::occurs(text::uppercase(r.body), "EFS:"@),
        Err(_) => false,
    }
}

/// The probe: the name of the modem, its files, and one search after another.
pub open spec fn probing(rs: Seq<Answer>) -> Move<ProbedView> {
    if rs.len() == 0 {
        Move::Send("ATI"@)
    } else if rs.len() == 1 {
        Move::Send(read_command(EFS_EARFCN@))
    } else {
        match search(serving_candidates(), rs.skip(2), false, 0) {
            Search::Ask(c) => Move::Send(c),
            Search::Settled { found: serving, used: a } => {
                match search(neighbor_candidates(), rs.skip(2 + a), true, 0) {
                    Search::Ask(c) => Move::Send(c),
                    Search::Settled { found: neighbors, used: b } => {
                        match search(band_candidates(), rs.skip(2 + a + b), false, 0) {
                            Search::Ask(c) => Move::Send(c),
                            Search::Settled { found: query, used: _ } => Move::Done(
                                ProbedView {
                                    info: info_of(rs[0]),
                                    caps: CapsView {
                                        serving,
                                        neighbors,
                                        bands_query: query,
                                        bands_set: match query {
                                            Some(q) => band_template(q),
                                            None => None,
                                        },
                                        efs: efs_works(rs[1]),
                                    },
                                },
                            ),
                        }
                    },
                }
            },
        }
    }
}

fn probe_info(a: &Result<AtResponse, String>) -> (r: Option<String>)
    ensures
        r.deep_view() == info_of(answer(*a)),
{
    match a {
        Ok(r) => Some(r.body.clone()),
        Err(_) => None,
    }
}

fn probe_efs(a: &Result<AtResponse, String>) -> (r: bool)
    ensures
        r == efs_works(answer(*a)),
{
    match a {
        Ok(r) => {
            let body = text::chars_of(r.body.as_str());
            let upper = text::to_upper(body.as_slice());
            r.ok || text::contains(upper.as_slice(), "EFS:")
        },
        Err(_) => false,
    }
}

// ---------------------------------------------------------------------------
// Operations
// ---------------------------------------------------------------------------
/// The locks are read from both files.
pub open spec fn lock_reading(rs: Seq<Answer>) -> Move<Locks> {
    if rs.len() == 0 {
        Move::Send(read_command(EFS_EARFCN@))
    } else {
        match rs[0] {
            Err(e) => Move::Failed(e),
            Ok(a) => if rs.len() == 1 {
                Move::Send(read_command(EFS_PCI@))
            } else {
                match rs[1] {
                    Err(e) => Move::Failed(e),
                    Ok(b) => Move::Done(locks_shown(a.body, b.body)),
                }
            },
        }
    }
}

/// The file that locks a carrier, and what it holds then.
pub open spec fn earfcn_file(earfcn: int) -> (Seq<char>, Seq<char>) {
    (EFS_EARFCN@, le16(earfcn))
}

/// The file that locks a cell, and what it holds then.
pub open spec fn pci_file(earfcn: int, pci: int) -> (Seq<char>, Seq<char>) {
    (EFS_PCI@, le16(earfcn) + seq![','] + le16(pci))
}

/// An empty file.
pub open spec fn empty_file(path: Seq<char>) -> (Seq<char>, Seq<char>) {
    (path, seq![])
}

/// A carrier is locked, and the lock to a cell is taken off.
pub open spec fn earfcn_locking(earfcn: int, rs: Seq<Answer>, sw: Seq<bool>) -> Move<()> {
    two_writes(earfcn_file(earfcn), empty_file(EFS_PCI@), rs, sw)
}

/// A cell is locked, and the lock to a carrier is taken off. There are 504 cells.
pub open spec fn pci_locking(earfcn: int, pci: int, rs: Seq<Answer>, sw: Seq<bool>) -> Move<()> {
    if pci > 503 {
        Move::Failed("PCI "@ + numbers::decimal(pci as nat) + " вне диапазона 0..503"@)
    } else {
        two_writes(pci_file(earfcn, pci), empty_file(EFS_EARFCN@), rs, sw)
    }
}

/// Both locks are taken off.
pub open spec fn unlocking(rs: Seq<Answer>, sw: Seq<bool>) -> Move<()> {
    two_writes(empty_file(EFS_EARFCN@), empty_file(EFS_PCI@), rs, sw)
}

/// The modem is restarted; whatever it replies, the restart is on its way.
pub open spec fn resetting(rs: Seq<Answer>) -> Move<()> {
    if rs.len() == 0 {
        Move::SendSlow("at+cfun=1,1"@)
    } else {
        match rs[0] {
            Ok(_) => Move::Done(()),
            Err(e) => Move::Failed(e),
        }
    }
}

/// A command of the user is sent as it is.
pub open spec fn sending(cmd: Seq<char>, rs: Seq<Answer>) -> Move<Reply> {
    if rs.len() == 0 {
        Move::SendSlow(cmd)
    } else {
        match rs[0] {
            Ok(r) => Move::Done(r),
            Err(e) => Move::Failed(e),
        }
    }
}

/// The command that asks for the metrics.
pub open spec fn serving_command(caps: CapsView) -> Seq<char> {
    match caps.serving {
        Some(c) => c,
        None => "AT+CESQ"@,
    }
}

/// The signal that three replies show: the metrics, the operator, the registration. A reply
/// that did not come leaves its part unknown.
pub open spec fn signal_shown(
    metrics: Answer,
    operator: Answer,
    registration: Answer,
) -> SignalView<Measure> {
    let s: SignalView<Measure> = match metrics {
        Ok(r) => signal::signal_of(text::line_list(r.body)),
        Err(_) => signal::no_signal(),
    };
    SignalView {
        operator: match operator {
            Ok(r) => signal::operator_in(r.body),
            Err(_) => s.operator,
        },
        registered: match registration {
            Ok(r) => signal::registered_in(text::line_list(r.body)),
            Err(_) => s.registered,
        },
        ..s
    }
}

/// The signal is polled with three commands.
pub open spec fn polling(caps: CapsView, rs: Seq<Answer>) -> Move<SignalView<Measure>> {
    if rs.len() == 0 {
        Move::Send(serving_command(caps))
    } else if rs.len() == 1 {
        Move::Send("AT+COPS?"@)
    } else if rs.len() == 2 {
        Move::Send("AT+CEREG?"@)
    } else {
        Move::Done(signal_shown(rs[0], rs[1], rs[2]))
    }
}

/// The cells around are listed. These are the cells as the modem gives them, not yet ranked.
pub open spec fn scanning(caps: CapsView, rs: Seq<Answer>) -> Move<Seq<Cell<Measure>>> {
    match caps.neighbors {
        None => Move::Failed("прошивка модема не отдаёт список соседних сот"@),
        Some(cmd) => if rs.len() == 0 {
            Move::SendSlow(cmd)
        } else {
            match rs[0] {
                Ok(r) => Move::Done(signal::cells_in(text::line_list(r.body))),
                Err(e) => Move::Failed(e),
            }
        },
    }
}

/// The bands are read.
pub open spec fn band_reading(caps: CapsView, rs: Seq<Answer>) -> Move<Seq<char>> {
    match caps.bands_query {
        None => Move::Failed("прошивка модема не поддерживает управление бэндами"@),
        Some(cmd) => if rs.len() == 0 {
            Move::Send(cmd)
        } else {
            match rs[0] {
                Ok(r) => Move::Done(r.body),
                Err(e) => Move::Failed(e),
            }
        },
    }
}

/// A mask of bands is a hexadecimal number.
pub open spec fn is_mask(s: Seq<char>) -> bool {
    s.len() > 0 && forall|i: int| 0 <= i < s.len() ==> text::is_hex_digit(#[trigger] s[i])
}

/// A template with the mask in every place that is kept for it.
pub open spec fn filled(template: Seq<char>, mask: Seq<char>) -> Seq<char> {
    text::joined(text::sections(template, "{}"@), mask)
}

/// The bands are set.
pub open spec fn band_setting(caps: CapsView, mask: Seq<char>, rs: Seq<Answer>) -> Move<()> {
    if !is_mask(mask) {
        Move::Failed("маска бэндов должна быть hex-числом"@)
    } else {
        match caps.bands_set {
            None => Move::Failed("прошивка модема не поддерживает запись бэндов"@),
            Some(template) => if rs.len() == 0 {
                Move::Send(filled(template, mask))
            } else {
                match rs[0] {
                    Ok(r) => match at::outcome_of(r) {
                        Ok(_) => Move::Done(()),
                        Err(e) => Move::Failed(e),
                    },
                    Err(e) => Move::Failed(e),
                }
            },
        }
    }
}

/// The history with one sample more: when it is full, the oldest one goes.
pub open spec fn recorded(h: Seq<SampleView<Measure>>, x: SampleView<Measure>) -> Seq<
    SampleView<Measure>,
> {
    if h.len() >= HISTORY_CAP {
        h.skip(1).push(x)
    } else {
        h.push(x)
    }
}

/// The sample that a signal gives at the second `ts`.
pub open spec fn sample_of(s: SignalView<Measure>, ts: int) -> SampleView<Measure> {
    SampleView { ts, rsrp: s.rsrp, rsrq: s.rsrq, sinr: s.sinr }
}

/// What is known of a modem.
#[derive(Debug)]
pub struct Modem {
    caps: Caps,
    history: VecDeque<Sample<Reading>>,
    last_signal: Signal<Reading>,
    info: String,
}

/// What is known of a modem, as a mathematical value.
pub struct Record {
    pub caps: CapsView,
    pub history: Seq<SampleView<Measure>>,
    pub last_signal: SignalView<Measure>,
    pub info: Seq<char>,
}

impl View for Modem {
    type V = Record;

    closed spec fn view(&self) -> Record {
        Record {
            caps: self.caps@,
            history: self.history.deep_view(),
            last_signal: self.last_signal@,
            info: self.info@,
        }
    }
}

impl DeepView for AtResponse {
    type V = Reply;

    open spec fn deep_view(&self) -> Reply {
        self.view()
    }
}

impl Modem {
    /// The history is bounded.
    pub open spec fn well_formed(self) -> bool {
        self@.history.len() <= HISTORY_CAP
    }

    /// Nothing is known.
    pub fn new() -> (r: Modem)
        ensures
            r.well_formed(),
            r@ == (Record {
                caps: no_caps(),
                history: seq![],
                last_signal: signal::no_signal(),
                info: seq![],
            }),
    {
        let none: Vec<char> = Vec::new();
        let r = Modem {
            caps: Caps::default(),
            history: VecDeque::new(),
            last_signal: Signal::default(),
            info: text::string_of(none.as_slice()),
        };
        assert(r@.history == Seq::<SampleView<Measure>>::empty());
        r
    }

    /// How the modem names itself.
    pub fn info(&self) -> (r: String)
        ensures
            r@ == self@.info,
    {
        self.info.clone()
    }

    pub fn caps(&self) -> (r: Caps)
        ensures
            r@ == self@.caps,
    {
        self.caps.clone()
    }

    pub fn last_signal(&self) -> (r: Signal<Reading>)
        ensures
            r@ == self@.last_signal,
    {
        self.last_signal.clone()
    }

    /// The samples, the oldest one first.
    pub fn history(&self) -> (r: Vec<Sample<Reading>>)
        ensures
            r.deep_view() == self@.history,
    {
        let mut out: Vec<Sample<Reading>> = Vec::new();
        let mut i: usize = 0;
        while i < self.history.len()
            invariant
                i <= self.history.len(),
                out.len() == i,
                forall|j: int|
                    0 <= j < i ==> (#[trigger] out@[j]).deep_view()
                        == self.history@[j].deep_view(),
            decreases self.history.len() - i,
        {
            out.push(self.history[i].clone());
            i += 1;
        }
        assert(out.deep_view() =~= self@.history);
        out
    }

    /// A command of the user.
    pub fn send_raw(cmd: &str, log: &Transcript) -> (r: Step<AtResponse>)
        ensures
            r@ == sending(cmd@, log.answers()),
    {
        if log.replies.len() == 0 {
            return Step::SendSlow(cmd.to_owned());
        }
        match &log.replies[0] {
            Ok(r) => Step::Done(copy_reply(r)),
            Err(e) => Step::Failed(e.clone()),
        }
    }

    /// Find out what the modem can do.
    pub fn probe(log: &Transcript) -> (r: Step<Probed>)
        ensures
            r@ == probing(log.answers()),
    {
        if log.replies.len() == 0 {
            return Step::Send("ATI".to_owned());
        }
        if log.replies.len() == 1 {
            return Step::Send(read_cmd(EFS_EARFCN));
        }
        let cands: Vec<&str> = vec!["AT^DEBUG?", "AT+GTCCINFO?", "AT+CESQ", "AT+CSQ"];
        assert(cands.deep_view() == serving_candidates());
        let (serving, a) = match search_at(&cands, log, false, 2) {
            SearchOut::Ask(c) => return Step::Send(c),
            SearchOut::Settled { found, used } => (found, used),
        };
        let cands: Vec<&str> = vec!["AT$QCRSRP?", "AT+VZWRSRP?", "AT+GTCCINFO?"];
        assert(cands.deep_view() == neighbor_candidates());
        let (neighbors, b) = match search_at(&cands, log, true, 2 + a) {
            SearchOut::Ask(c) => return Step::Send(c),
            SearchOut::Settled { found, used } => (found, used),
        };
        let cands: Vec<&str> = vec!["AT+GTACT?", "AT^BAND_PRI?", "AT^SYSCFGEX?"];
        assert(cands.deep_view() == band_candidates());
        let query = match search_at(&cands, log, false, 2 + a + b) {
            SearchOut::Ask(c) => return Step::Send(c),
            SearchOut::Settled { found, .. } => found,
        };
        let bands_set = match &query {
            Some(q) => band_set_template(q.as_str()),
            None => None,
        };
        let efs = probe_efs(&log.replies[1]);
        let caps = Caps { serving, neighbors, bands_query: query, bands_set, efs };
        Step::Done(Probed { info: probe_info(&log.replies[0]), caps })
    }

    /// Keep what a probe brought to light. A modem that did not name itself keeps its name.
    pub fn set_probed(&mut self, p: Probed)
        ensures
            final(self)@ == (Record {
                caps: p.caps@,
                info: match p.info {
                    Some(i) => i@,
                    None => old(self)@.info,
                },
                ..old(self)@
            }),
            old(self).well_formed() ==> final(self).well_formed(),
    {
        if let Some(i) = p.info {
            self.info = i;
        }
        self.caps = p.caps;
    }

    /// Read the locks.
    pub fn read_lock(log: &Transcript) -> (r: Step<LockState>)
        ensures
            r@ == lock_reading(log.answers()),
    {
        assert(log.answers().skip(0) == log.answers());
        Self::read_lock_after(log, 0)
    }

    /// The same, after `at` replies to something else.
    pub(crate) fn read_lock_after(log: &Transcript, at: usize) -> (r: Step<LockState>)
        requires
            at <= log.replies.len(),
        ensures
            r@ == lock_reading(log.answers().skip(at as int)),
    {
        let ghost rs = log.answers().skip(at as int);
        if log.replies.len() == at {
            return Step::Send(read_cmd(EFS_EARFCN));
        }
        assert(rs[0] == answer(log.replies@[at as int]));
        let e = match &log.replies[at] {
            Ok(r) => r,
            Err(e) => return Step::Failed(e.clone()),
        };
        if log.replies.len() - at == 1 {
            return Step::Send(read_cmd(EFS_PCI));
        }
        assert(rs[1] == answer(log.replies@[at + 1]));
        match &log.replies[at + 1] {
            Ok(p) => Step::Done(lock_state(e.body.as_str(), p.body.as_str())),
            Err(e) => Step::Failed(e.clone()),
        }
    }

    /// Lock a carrier.
    pub fn lock_earfcn(earfcn: u16, log: &Transcript) -> (r: Step<()>)
        ensures
            r@ == earfcn_locking(earfcn as int, log.answers(), log.switches@),
    {
        Self::lock_earfcn_counted(earfcn, log).0
    }

    /// The same, and how many replies it takes once it is done.
    pub(crate) fn lock_earfcn_counted(earfcn: u16, log: &Transcript) -> (r: (Step<()>, usize))
        ensures
            r.0@ == earfcn_locking(earfcn as int, log.answers(), log.switches@),
            r.1 == writes_taken(
                earfcn_file(earfcn as int),
                empty_file(EFS_PCI@),
                log.answers(),
                log.switches@,
            ),
            r.1 <= log.replies.len(),
    {
        let bytes = to_le16(earfcn);
        let none: Vec<char> = Vec::new();
        let empty = text::string_of(none.as_slice());
        write_two(EFS_EARFCN, bytes.as_str(), EFS_PCI, empty.as_str(), log)
    }

    /// Lock a cell.
    pub fn lock_pci(earfcn: u16, pci: u16, log: &Transcript) -> (r: Step<()>)
        ensures
            r@ == pci_locking(earfcn as int, pci as int, log.answers(), log.switches@),
    {
        Self::lock_pci_counted(earfcn, pci, log).0
    }

    /// The same, and how many replies it takes once it is done.
    pub(crate) fn lock_pci_counted(earfcn: u16, pci: u16, log: &Transcript) -> (r: (
        Step<()>,
        usize,
    ))
        ensures
            r.0@ == pci_locking(earfcn as int, pci as int, log.answers(), log.switches@),
            pci <= 503 ==> r.1 == writes_taken(
                pci_file(earfcn as int, pci as int),
                empty_file(EFS_EARFCN@),
                log.answers(),
                log.switches@,
            ),
            r.1 <= log.replies.len(),
    {
        if pci > 503 {
            let mut out = text::chars_of("PCI ");
            numbers::add_decimal(&mut out, pci as u64);
            text::add_str(&mut out, " вне диапазона 0..503");
            return (Step::Failed(text::string_of(out.as_slice())), 0);
        }
        let mut bytes = to_le16(earfcn);
        bytes.push(',');
        bytes.append(to_le16(pci).as_str());
        assert(bytes@ == le16(earfcn as int) + seq![','] + le16(pci as int));
        let none: Vec<char> = Vec::new();
        let empty = text::string_of(none.as_slice());
        write_two(EFS_PCI, bytes.as_str(), EFS_EARFCN, empty.as_str(), log)
    }

    /// Take both locks off.
    pub fn unlock(log: &Transcript) -> (r: Step<()>)
        ensures
            r@ == unlocking(log.answers(), log.switches@),
    {
        Self::unlock_counted(log).0
    }

    /// The same, and how many replies it takes once it is done.
    pub(crate) fn unlock_counted(log: &Transcript) -> (r: (Step<()>, usize))
        ensures
            r.0@ == unlocking(log.answers(), log.switches@),
            r.1 == writes_taken(
                empty_file(EFS_EARFCN@),
                empty_file(EFS_PCI@),
                log.answers(),
                log.switches@,
            ),
            r.1 <= log.replies.len(),
    {
        let none: Vec<char> = Vec::new();
        let empty = text::string_of(none.as_slice());
        write_two(EFS_EARFCN, empty.as_str(), EFS_PCI, empty.as_str(), log)
    }

    /// Restart the modem.
    pub fn reset_modem(log: &Transcript) -> (r: Step<()>)
        ensures
            r@ == resetting(log.answers()),
    {
        if log.replies.len() == 0 {
            return Step::SendSlow("at+cfun=1,1".to_owned());
        }
        match &log.replies[0] {
            Ok(_) => Step::Done(()),
            Err(e) => Step::Failed(e.clone()),
        }
    }

    /// Poll the signal.
    pub fn poll_signal(&self, log: &Transcript) -> (r: Step<Signal<Reading>>)
        ensures
            r@ == polling(self@.caps, log.answers()),
    {
        if log.replies.len() == 0 {
            return match &self.caps.serving {
                Some(c) => Step::Send(c.clone()),
                None => Step::Send("AT+CESQ".to_owned()),
            };
        }
        if log.replies.len() == 1 {
            return Step::Send("AT+COPS?".to_owned());
        }
        if log.replies.len() == 2 {
            return Step::Send("AT+CEREG?".to_owned());
        }
        let mut s: Signal<Reading> = match &log.replies[0] {
            Ok(r) => signal::parse_signal(r.body.as_str()),
            Err(_) => Signal::default(),
        };
        if let Ok(r) = &log.replies[1] {
            s.operator = signal::parse_operator(r.body.as_str());
        }
        if let Ok(r) = &log.replies[2] {
            s.registered = signal::parse_registered(r.body.as_str());
        }
        Step::Done(s)
    }

    /// Keep a signal that was polled at the second `ts`.
    pub fn record(&mut self, s: Signal<Reading>, ts: u64)
        ensures
            final(self)@ == (Record {
                last_signal: s@,
                history: recorded(old(self)@.history, sample_of(s@, ts as int)),
                ..old(self)@
            }),
            final(self)@.history.len() > 0,
            final(self)@.history.last().ts == ts,
            final(self)@.history.last().rsrp == s@.rsrp,
            final(self)@.history.last().rsrq == s@.rsrq,
            final(self)@.history.last().sinr == s@.sinr,
            old(self).well_formed() ==> final(self).well_formed(),
    {
        let ghost before = self.history.deep_view();
        let sample = Sample {
            ts,
            rsrp: signal::copy_option(&s.rsrp),
            rsrq: signal::copy_option(&s.rsrq),
            sinr: signal::copy_option(&s.sinr),
        };
        if self.history.len() >= HISTORY_CAP {
            let _ = self.history.pop_front();
            assert(self.history.deep_view() =~= before.skip(1));
        }
        let ghost kept = self.history.deep_view();
        self.history.push_back(sample);
        assert(self.history.deep_view() =~= kept.push(sample_of(s@, ts as int)));
        self.last_signal = s;
    }

    /// List the cells around, the strongest one first. `key` gives an integer for the numeral of
    /// an RSRP, a greater one for a greater number.
    pub fn scan_neighbors<F: Fn(&str) -> i64>(&self, log: &Transcript, key: F) -> (r: Step<
        Vec<Neighbor<Reading>>,
    >)
        requires
            forall|s: &str| #[trigger] call_requires(key, (s,)),
        ensures
            match scanning(self@.caps, log.answers()) {
                Move::Done(cells) => r@ is Done && signal::is_ranked_by(key, cells, r@->Done_0),
                m => r@ == m,
            },
    {
        let cmd = match &self.caps.neighbors {
            Some(c) => c,
            None => return Step::Failed("прошивка модема не отдаёт список соседних сот".to_owned()),
        };
        if log.replies.len() == 0 {
            return Step::SendSlow(cmd.clone());
        }
        match &log.replies[0] {
            Ok(r) => Step::Done(signal::parse_neighbors(r.body.as_str(), key)),
            Err(e) => Step::Failed(e.clone()),
        }
    }

    /// Read the bands.
    pub fn read_bands(&self, log: &Transcript) -> (r: Step<String>)
        ensures
            r@ == band_reading(self@.caps, log.answers()),
    {
        let cmd = match &self.caps.bands_query {
            Some(c) => c,
            None => return Step::Failed(
                "прошивка модема не поддерживает управление бэндами".to_owned(),
            ),
        };
        if log.replies.len() == 0 {
            return Step::Send(cmd.clone());
        }
        match &log.replies[0] {
            Ok(r) => Step::Done(r.body.clone()),
            Err(e) => Step::Failed(e.clone()),
        }
    }

    /// Set the bands.
    pub fn set_bands(&self, mask: &str, log: &Transcript) -> (r: Step<()>)
        ensures
            r@ == band_setting(self@.caps, mask@, log.answers()),
    {
        let m = text::chars_of(mask);
        if !mask_like(m.as_slice()) {
            return Step::Failed("маска бэндов должна быть hex-числом".to_owned());
        }
        let template = match &self.caps.bands_set {
            Some(t) => t,
            None => return Step::Failed(
                "прошивка модема не поддерживает запись бэндов".to_owned(),
            ),
        };
        if log.replies.len() == 0 {
            let t = text::chars_of(template.as_str());
            proof {
                reveal_strlit("{}");
            }
            let parts = text::split_text(t.as_slice(), "{}");
            let cmd = text::join(&parts, mask);
            return Step::Send(text::string_of(cmd.as_slice()));
        }
        match &log.replies[0] {
            Ok(r) => match r.require_ok() {
                Ok(()) => Step::Done(()),
                Err(e) => Step::Failed(e),
            },
            Err(e) => Step::Failed(e.clone()),
        }
    }
}

fn copy_reply(r: &AtResponse) -> (c: AtResponse)
    ensures
        c@ == r@,
{
    AtResponse {
        body: r.body.clone(),
        raw: r.raw.clone(),
        ok: r.ok,
        error: signal::copy_string(&r.error),
    }
}

fn mask_like(s: &[char]) -> (r: bool)
    ensures
        r == is_mask(s@),
{
    let mut i: usize = 0;
    while i < s.len()
        invariant
            i <= s.len(),
            forall|j: int| 0 <= j < i ==> text::is_hex_digit(#[trigger] s@[j]),
        decreases s.len() - i,
    {
        if !text::hex_digit(s[i]) {
            return false;
        }
        i += 1;
    }
    s.len() > 0
}

} // verus!
