//! SIMCom SIM79XX and Fibocom A7908E-M2.
//!
//! The firmware has no files to write and no public command that locks a cell. The command line
//! of the router can do it, and is told to here. The lock cannot be read back, so the last one
//! is noted.

use crate::at;
use crate::numbers;
use crate::store;
use crate::store::{Change, FileChange};
use crate::text;
use vstd::prelude::*;
use vstd::string::*;

verus! {

/// The command that locks a carrier, without the name of the interface before it.
pub fn lock_earfcn_cli(earfcn: u16) -> (r: String)
    ensures
        r@ == "mobile lte lock earfcn "@ + numbers::decimal(earfcn as nat),
{
    let mut out = text::chars_of("mobile lte lock earfcn ");
    numbers::add_decimal(&mut out, earfcn as u64);
    text::string_of(out.as_slice())
}

/// The command that locks a cell on a carrier.
pub fn lock_pci_cli(earfcn: u32, pci: u16) -> (r: String)
    ensures
        r@ == "mobile lte lock earfcn "@ + numbers::decimal(earfcn as nat) + " pci "@
            + numbers::decimal(pci as nat),
{
    let mut out = text::chars_of("mobile lte lock earfcn ");
    numbers::add_decimal(&mut out, earfcn as u64);
    text::add_str(&mut out, " pci ");
    numbers::add_decimal(&mut out, pci as u64);
    text::string_of(out.as_slice())
}

/// The command that takes the lock off.
pub fn unlock_cli() -> (r: &'static str)
    ensures
        r@ == "no mobile lte lock"@,
{
    "no mobile lte lock"
}

/// What was locked last. It is what this program did, and not what the modem says.
#[derive(Debug)]
pub struct LockStore {
    path: String,
}

impl View for LockStore {
    type V = Seq<char>;

    /// The path of the file.
    closed spec fn view(&self) -> Seq<char> {
        self.path@
    }
}

/// The path of a file in a directory.
pub open spec fn path_in(base: Seq<char>, name: Seq<char>) -> Seq<char> {
    if base.len() == 0 || base.last() == '/' {
        base + name
    } else {
        base + seq!['/'] + name
    }
}

/// What is noted for a lock: the carrier and the cell. A dash stands for a carrier that is
/// missing, so that the cell is not taken for it.
pub open spec fn note(earfcn: Option<int>, pci: Option<int>) -> Seq<char> {
    let carrier = match earfcn {
        Some(n) => numbers::decimal(n as nat),
        None => "-"@,
    };
    let cell = match pci {
        Some(n) => numbers::decimal(n as nat),
        None => seq![],
    };
    carrier + " "@ + cell + "\n"@
}

/// What becomes of the file when a lock is noted. Without a carrier and without a cell there is
/// none.
pub open spec fn noting(path: Seq<char>, earfcn: Option<int>, pci: Option<int>) -> Change {
    if earfcn is None && pci is None {
        Change::Remove { path }
    } else {
        Change::Write { path, text: note(earfcn, pci) }
    }
}

/// The lock that a note tells of.
pub open spec fn noted(t: Seq<char>) -> Option<(Option<int>, Option<int>)> {
    let ws = text::words(t);
    let earfcn = if ws.len() > 0 {
        numbers::unsigned(ws[0], 10, 0xffff_ffff)
    } else {
        None
    };
    let pci = if ws.len() > 1 {
        numbers::unsigned(ws[1], 10, 0xffff)
    } else {
        None
    };
    if earfcn is None && pci is None {
        None
    } else {
        Some((earfcn, pci))
    }
}

pub open spec fn opt_int_32(v: Option<u32>) -> Option<int> {
    match v {
        Some(n) => Some(n as int),
        None => None,
    }
}

pub open spec fn opt_int_16(v: Option<u16>) -> Option<int> {
    match v {
        Some(n) => Some(n as int),
        None => None,
    }
}

/// A lock as a mathematical value.
pub open spec fn lock_view(l: Option<(Option<u32>, Option<u16>)>) -> Option<
    (Option<int>, Option<int>),
> {
    match l {
        Some((e, p)) => Some((opt_int_32(e), opt_int_16(p))),
        None => None,
    }
}

fn parse_note(t: &str) -> (r: Option<(Option<u32>, Option<u16>)>)
    ensures
        lock_view(r) == noted(t@),
{
    let cs = text::chars_of(t);
    let ws = text::split_words(cs.as_slice());
    let ghost all = text::slices(ws@);
    assert(all.len() == ws.len());
    let mut earfcn: Option<u32> = None;
    let mut pci: Option<u16> = None;
    if ws.len() > 0 {
        assert(all[0] == ws@[0]@);
        earfcn = numbers::parse_u32(ws[0]);
    }
    if ws.len() > 1 {
        assert(all[1] == ws@[1]@);
        pci = numbers::parse_u16(ws[1]);
    }
    if earfcn.is_none() && pci.is_none() {
        None
    } else {
        Some((earfcn, pci))
    }
}

impl LockStore {
    /// The store in the directory `base`.
    pub fn new(base: &str) -> (r: LockStore)
        ensures
            r@ == path_in(base@, "simcom_lock.txt"@),
    {
        let cs = text::chars_of(base);
        let mut out = text::chars_of(base);
        if cs.len() > 0 && cs[cs.len() - 1] != '/' {
            out.push('/');
        }
        text::add_str(&mut out, "simcom_lock.txt");
        assert(out@ == path_in(base@, "simcom_lock.txt"@));
        LockStore { path: text::string_of(out.as_slice()) }
    }

    pub fn path(&self) -> (r: &str)
        ensures
            r@ == self@,
    {
        self.path.as_str()
    }

    /// Note a lock. The directory is made if it is not there.
    pub fn save(&self, earfcn: Option<u32>, pci: Option<u16>) -> (r: FileChange)
        ensures
            r@ == noting(self@, opt_int_32(earfcn), opt_int_16(pci)),
    {
        if earfcn.is_none() && pci.is_none() {
            return FileChange::Remove { path: self.path.clone() };
        }
        let mut out: Vec<char> = Vec::new();
        match earfcn {
            Some(e) => numbers::add_decimal(&mut out, e as u64),
            None => text::add_str(&mut out, "-"),
        }
        text::add_str(&mut out, " ");
        if let Some(p) = pci {
            numbers::add_decimal(&mut out, p as u64);
        }
        text::add_str(&mut out, "\n");
        assert(out@ == note(opt_int_32(earfcn), opt_int_16(pci)));
        FileChange::Write { path: self.path.clone(), text: text::string_of(out.as_slice()) }
    }

    /// The lock that is noted, given what the file holds, if it could be read. The carrier or
    /// the cell may be missing.
    pub fn load(&self, held: Option<&str>) -> (r: Option<(Option<u32>, Option<u16>)>)
        ensures
            lock_view(r) == (match at::opt_text(held) {
                Some(t) => noted(t),
                None => None,
            }),
    {
        match held {
            Some(t) => parse_note(t),
            None => None,
        }
    }

    /// Note that nothing is locked.
    pub fn clear(&self) -> (r: FileChange)
        ensures
            r@ == (Change::Remove { path: self@ }),
    {
        FileChange::Remove { path: self.path.clone() }
    }
}

// ---------------------------------------------------------------------------
// Laws
// ---------------------------------------------------------------------------
spec fn is_word(s: Seq<char>) -> bool {
    s.len() > 0 && forall|i: int| 0 <= i < s.len() ==> !text::is_white_space(#[trigger] s[i])
}

proof fn lemma_number_word(n: nat, max: int)
    requires
        n <= max,
    ensures
        is_word(numbers::decimal(n)),
        numbers::unsigned(numbers::decimal(n), 10, max) == Some(n as int),
{
    let d = numbers::decimal(n);
    numbers::lemma_decimal(n);
    assert forall|i: int| 0 <= i < d.len() implies !text::is_white_space(#[trigger] d[i]) by {
        assert(text::is_digit(d[i]));
    }
    numbers::lemma_unsigned_of_decimal(n, max);
}

/// A lock that was noted is read back, be it of a carrier, of a cell or of both, and so is that
/// there is none.
pub proof fn theorem_noted_lock_is_read_back(
    path: Seq<char>,
    earfcn: Option<u32>,
    pci: Option<u16>,
)
    ensures
        (match store::file_after(noting(path, opt_int_32(earfcn), opt_int_16(pci))) {
            Some(t) => noted(t),
            None => None,
        }) == (if earfcn is None && pci is None {
            None
        } else {
            Some((opt_int_32(earfcn), opt_int_16(pci)))
        }),
{
    reveal_strlit(" ");
    reveal_strlit("\n");
    reveal_strlit("-");
    let t = note(opt_int_32(earfcn), opt_int_16(pci));
    let end = seq!['\n'];
    let e = match earfcn {
        Some(n) => numbers::decimal(n as nat),
        None => "-"@,
    };
    match earfcn {
        Some(n) => lemma_number_word(n as nat, 0xffff_ffff),
        None => {
            assert(!text::is_digit('-'));
            assert(numbers::unsigned("-"@, 10, 0xffff_ffff) is None);
        },
    }
    text::lemma_blank('\n', seq![]);
    assert(end + Seq::<char>::empty() == end);
    match pci {
        Some(n) => {
            let p = numbers::decimal(n as nat);
            lemma_number_word(n as nat, 0xffff);
            text::lemma_word(p, end);
            text::lemma_blank(' ', p + end);
            text::lemma_word(e, seq![' '] + (p + end));
            assert(t == e + (seq![' '] + (p + end)));
            assert(text::words(t) == seq![e] + (seq![p] + Seq::<Seq<char>>::empty()));
        },
        None => {
            text::lemma_blank(' ', end);
            text::lemma_word(e, seq![' '] + end);
            assert(t == e + (seq![' '] + end));
            assert(text::words(t) == seq![e] + Seq::<Seq<char>>::empty());
        },
    }
}

/// The path of a file in a directory has one slash between them, whether the directory is written
/// with a slash at its end or not; in no directory it is the name alone.
pub proof fn theorem_paths(base: Seq<char>, name: Seq<char>)
    requires
        base.len() > 0,
        base.last() != '/',
    ensures
        path_in(base, name) == base + seq!['/'] + name,
        path_in(base.push('/'), name) == base + seq!['/'] + name,
        path_in(seq![], name) == name,
{
    assert(base.push('/') == base + seq!['/']);
    assert(Seq::<char>::empty() + name == name);
}

} // verus!
