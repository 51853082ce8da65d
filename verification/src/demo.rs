//! Made-up modems, to look at the interface without hardware.

use crate::numbers;
use crate::table::Table;
use crate::text;
use vstd::prelude::*;
use vstd::string::*;

verus! {

// ---------------------------------------------------------------------------
// A Qualcomm modem
// ---------------------------------------------------------------------------
/// What follows `at^efs=` in a command.
pub open spec fn efs_args(c: Seq<char>) -> Option<Seq<char>> {
    match text::after_prefix(c, "at^efs="@) {
        Some(r) => Some(r),
        None => text::after_prefix(c, "AT^EFS="@),
    }
}

/// The path that the arguments of `at^efs` name.
pub open spec fn efs_path(args: Seq<char>) -> Seq<char> {
    text::unquoted(text::pieces(args, ',')[0])
}

/// Arguments with nothing but a path ask for the contents.
pub open spec fn efs_reads(args: Seq<char>) -> bool {
    text::pieces(args, ',').len() == 1
}

/// The contents that the arguments of a write give; the length 0 stands for none.
pub open spec fn efs_value(args: Seq<char>) -> Seq<char> {
    if text::trimmed(text::pieces(args, ',')[1]) == "0"@ {
        seq![]
    } else {
        match text::halves(args, ',') {
            Some((_, r)) => match text::halves(r, ',') {
                Some((_, v)) => text::unquoted(text::trimmed(v)),
                None => seq![],
            },
            None => seq![],
        }
    }
}

/// The contents of a file; a file that is not there is empty.
pub open spec fn contents(files: Map<Seq<char>, Seq<char>>, path: Seq<char>) -> Seq<char> {
    if files.contains_key(path) {
        files[path]
    } else {
        seq![]
    }
}

/// The files after one command.
pub open spec fn files_after(
    files: Map<Seq<char>, Seq<char>>,
    cmd: Seq<char>,
) -> Map<Seq<char>, Seq<char>> {
    match efs_args(text::trimmed(cmd)) {
        Some(args) => if efs_reads(args) {
            files
        } else if efs_value(args).len() == 0 {
            files.remove(efs_path(args))
        } else {
            files.insert(efs_path(args), efs_value(args))
        },
        None => files,
    }
}

/// A number between -5 and 5 that changes from second to second.
pub open spec fn jitter(now: int) -> int {
    now % 11 - 5
}

/// Half of `n`, rounded towards zero.
pub open spec fn half(n: int) -> int {
    if n >= 0 {
        n / 2
    } else {
        -((-n) / 2)
    }
}

/// The metrics at the second `now`: the signal breathes a little.
pub open spec fn debug_text(now: int) -> Seq<char> {
    "EARFCN(DL/UL): 1575/19575\r\neNB ID(PCI): 25733-2(161)\r\nRSRP: "@ + numbers::int_text(
        -95 + jitter(now),
    ) + "\r\nRSRQ: -10\r\nSINR: "@ + numbers::int_text(12 + half(jitter(now))) + "\r\nOK\r\n"@
}

/// The reply to a command other than `at^efs`, given in upper case.
pub open spec fn fixed_reply(u: Seq<char>, now: int) -> Seq<char> {
    if u == "ATI"@ {
        "Foxconn\r\nT77W968\r\nRevision: DEMO.0.0\r\nOK\r\n"@
    } else if u == "ATE0"@ {
        "OK\r\n"@
    } else if u == "AT^DEBUG?"@ {
        debug_text(now)
    } else if u == "AT+COPS?"@ {
        "+COPS: 0,0,\"DemoNet\",7\r\nOK\r\n"@
    } else if u == "AT+CEREG?"@ {
        "+CEREG: 2,1\r\nOK\r\n"@
    } else if u == "AT$QCRSRP?"@ {
        "$QCRSRP: 161,1575,-95,-10\r\n$QCRSRP: 57,2850,-88,-9\r\n$QCRSRP: 304,1300,-104,-14\r\nOK\r\n"@
    } else if u == "AT+GTACT?"@ {
        "+GTACT: 2,,,8000084\r\nOK\r\n"@
    } else if u == "AT+CFUN=1,1"@ || "AT+GTACT="@.is_prefix_of(u) {
        "OK\r\n"@
    } else {
        "ERROR\r\n"@
    }
}

/// The reply to one command.
pub open spec fn reply_text(
    files: Map<Seq<char>, Seq<char>>,
    cmd: Seq<char>,
    now: int,
) -> Seq<char> {
    match efs_args(text::trimmed(cmd)) {
        Some(args) => if efs_reads(args) {
            "OK\r\n\r\n^EFS: "@ + efs_path(args) + ", "@ + contents(files, efs_path(args))
                + "\r\nOK\r\n"@
        } else {
            "OK\r\n"@
        },
        None => fixed_reply(text::uppercase(text::trimmed(cmd)), now),
    }
}

/// A modem that keeps its files in memory.
#[derive(Debug)]
pub struct DemoModem {
    files: Table,
}

impl View for DemoModem {
    type V = Map<Seq<char>, Seq<char>>;

    closed spec fn view(&self) -> Map<Seq<char>, Seq<char>> {
        self.files@
    }
}

fn debug_reply(now: u64) -> (r: String)
    ensures
        r@ == debug_text(now as int),
{
    let j: i64 = (now % 11) as i64 - 5;
    let h: i64 = if j >= 0 {
        j / 2
    } else {
        -((-j) / 2)
    };
    let mut out = text::chars_of(
        "EARFCN(DL/UL): 1575/19575\r\neNB ID(PCI): 25733-2(161)\r\nRSRP: ",
    );
    numbers::add_int(&mut out, -95 + j);
    text::add_str(&mut out, "\r\nRSRQ: -10\r\nSINR: ");
    numbers::add_int(&mut out, 12 + h);
    text::add_str(&mut out, "\r\nOK\r\n");
    text::string_of(out.as_slice())
}

fn fixed(u: &[char], now: u64) -> (r: String)
    ensures
        r@ == fixed_reply(u@, now as int),
{
    if text::reads(u, "ATI") {
        "Foxconn\r\nT77W968\r\nRevision: DEMO.0.0\r\nOK\r\n".to_owned()
    } else if text::reads(u, "ATE0") {
        "OK\r\n".to_owned()
    } else if text::reads(u, "AT^DEBUG?") {
        debug_reply(now)
    } else if text::reads(u, "AT+COPS?") {
        "+COPS: 0,0,\"DemoNet\",7\r\nOK\r\n".to_owned()
    } else if text::reads(u, "AT+CEREG?") {
        "+CEREG: 2,1\r\nOK\r\n".to_owned()
    } else if text::reads(u, "AT$QCRSRP?") {
        "$QCRSRP: 161,1575,-95,-10\r\n$QCRSRP: 57,2850,-88,-9\r\n$QCRSRP: 304,1300,-104,-14\r\nOK\r\n".to_owned()
    } else if text::reads(u, "AT+GTACT?") {
        "+GTACT: 2,,,8000084\r\nOK\r\n".to_owned()
    } else if text::reads(u, "AT+CFUN=1,1") || text::starts(u, "AT+GTACT=") {
        "OK\r\n".to_owned()
    } else {
        "ERROR\r\n".to_owned()
    }
}

impl DemoModem {
    /// A modem with no files.
    pub fn new() -> (r: DemoModem)
        ensures
            r@ == Map::<Seq<char>, Seq<char>>::empty(),
    {
        DemoModem { files: Table::new() }
    }

    /// Answer one command at the second `now`.
    pub fn send(&mut self, cmd: &str, now: u64) -> (r: String)
        ensures
            r@ == reply_text(old(self)@, cmd@, now as int),
            final(self)@ == files_after(old(self)@, cmd@),
    {
        let cs = text::chars_of(cmd);
        let c = text::trim(cs.as_slice());
        let stripped = match text::strip_prefix(c, "at^efs=") {
            Some(t) => Some(t),
            None => text::strip_prefix(c, "AT^EFS="),
        };
        let rest = match stripped {
            Some(t) => t,
            None => {
                let u = text::to_upper(c);
                return fixed(u.as_slice(), now);
            },
        };
        let args = text::split_char(rest, ',');
        assert(text::pieces(rest@, ',')[0] == args@[0]@);
        let path = text::string_of(text::unquote(args[0]));
        if args.len() == 1 {
            let mut out = "OK\r\n\r\n^EFS: ".to_owned();
            out.append(path.as_str());
            out.append(", ");
            match self.files.get(path.as_str()) {
                Some(v) => {
                    out.append(v);
                },
                None => {
                    out.append("");
                    proof {
                        reveal_strlit("");
                        assert(""@ == Seq::<char>::empty());
                    }
                },
            }
            out.append("\r\nOK\r\n");
            return out;
        }
        assert(text::pieces(rest@, ',')[1] == args@[1]@);
        let value = if text::reads(text::trim(args[1]), "0") {
            String::new()
        } else {
            match text::split_once(rest, ',') {
                Some((_, r)) => match text::split_once(r, ',') {
                    Some((_, v)) => text::string_of(text::unquote(text::trim(v))),
                    None => String::new(),
                },
                None => String::new(),
            }
        };
        assert(value@ == efs_value(rest@));
        if value.as_str().is_empty() {
            self.files.remove(path.as_str());
        } else {
            self.files.insert(path, value);
        }
        "OK\r\n".to_owned()
    }
}

// ---------------------------------------------------------------------------
// An Intel modem
// ---------------------------------------------------------------------------
/// The reply of the Intel modem to one command. What is specific to Qualcomm is honestly
/// answered as not supported.
pub open spec fn intel_reply(cmd: Seq<char>) -> Seq<char> {
    let u = text::uppercase(text::trimmed(cmd));
    if "AT@SIC:FREQ_LOCK"@.is_prefix_of(u) {
        "OK\n"@
    } else if u == "ATI"@ {
        "\".Built@Jun-17-2022:06:30:44\"\nOK\n"@
    } else if u == "ATE0"@ || u == "AT+CFUN=4"@ || u == "AT+CFUN=15"@ {
        "OK\n"@
    } else if u == "AT+XCESQ?"@ {
        "+XCESQ: 0,99,99,255,255,24,62,34,255,255,255,255\nOK\n"@
    } else if u == "AT+XMCI=1"@ {
        "+XMCI: 4,250,02,\"0x2608\",\"0x026D741E\",\"0x0108\",\"0x00000642\",\"0x00004C92\",\n             \"0xFFFFFFFF\",58,22,38,\"0x00000003\",\"0x00000000\"\n             +XMCI: 5,000,000,\"0xFFFE\",\"0xFFFFFFFF\",\"0x01B7\",\"0x00000BE8\",\"0xFFFFFFFF\",\n             \"0xFFFFFFFF\",51,14,255,\"0x7FFFFFFF\",\"0x00000000\"\n             +XMCI: 5,000,000,\"0xFFFE\",\"0xFFFFFFFF\",\"0x0108\",\"0x000005B2\",\"0xFFFFFFFF\",\n             \"0xFFFFFFFF\",59,23,255,\"0x7FFFFFFF\",\"0x00000000\"\nOK\n"@
    } else if u == "AT+XLEC?"@ {
        "+XLEC: 0,4,5,5,4,3,BAND_LTE_3,0,7,1,3\nOK\n"@
    } else if u == "AT+COPS?"@ {
        "+COPS: 0,0,\"MegaFon\",7\nOK\n"@
    } else if u == "AT+CEREG?"@ {
        "+CEREG: 2,1\nOK\n"@
    } else {
        "+CME ERROR: 4\n"@
    }
}

/// The lock command that is in force after one more command.
pub open spec fn lock_after(locked: Option<Seq<char>>, cmd: Seq<char>) -> Option<Seq<char>> {
    if "AT@SIC:FREQ_LOCK"@.is_prefix_of(text::uppercase(text::trimmed(cmd))) {
        Some(text::trimmed(cmd))
    } else {
        locked
    }
}

/// An Intel modem that remembers the last lock command.
#[derive(Debug)]
pub struct DemoIntel {
    locked: Option<String>,
}

impl View for DemoIntel {
    type V = Option<Seq<char>>;

    closed spec fn view(&self) -> Option<Seq<char>> {
        self.locked.deep_view()
    }
}

impl DemoIntel {
    /// A modem without a lock.
    pub fn new() -> (r: DemoIntel)
        ensures
            r@ == None::<Seq<char>>,
    {
        DemoIntel { locked: None }
    }

    /// Answer one command.
    pub fn send(&mut self, cmd: &str) -> (r: String)
        ensures
            r@ == intel_reply(cmd@),
            final(self)@ == lock_after(old(self)@, cmd@),
    {
        let cs = text::chars_of(cmd);
        let c = text::trim(cs.as_slice());
        let up = text::to_upper(c);
        let u = up.as_slice();
        if text::starts(u, "AT@SIC:FREQ_LOCK") {
            self.locked = Some(text::string_of(c));
            "OK\n".to_owned()
        } else if text::reads(u, "ATI") {
            "\".Built@Jun-17-2022:06:30:44\"\nOK\n".to_owned()
        } else if text::reads(u, "ATE0") || text::reads(u, "AT+CFUN=4") || text::reads(
            u,
            "AT+CFUN=15",
        ) {
            "OK\n".to_owned()
        } else if text::reads(u, "AT+XCESQ?") {
            "+XCESQ: 0,99,99,255,255,24,62,34,255,255,255,255\nOK\n".to_owned()
        } else if text::reads(u, "AT+XMCI=1") {
            "+XMCI: 4,250,02,\"0x2608\",\"0x026D741E\",\"0x0108\",\"0x00000642\",\"0x00004C92\",\n             \"0xFFFFFFFF\",58,22,38,\"0x00000003\",\"0x00000000\"\n             +XMCI: 5,000,000,\"0xFFFE\",\"0xFFFFFFFF\",\"0x01B7\",\"0x00000BE8\",\"0xFFFFFFFF\",\n             \"0xFFFFFFFF\",51,14,255,\"0x7FFFFFFF\",\"0x00000000\"\n             +XMCI: 5,000,000,\"0xFFFE\",\"0xFFFFFFFF\",\"0x0108\",\"0x000005B2\",\"0xFFFFFFFF\",\n             \"0xFFFFFFFF\",59,23,255,\"0x7FFFFFFF\",\"0x00000000\"\nOK\n".to_owned()
        } else if text::reads(u, "AT+XLEC?") {
            "+XLEC: 0,4,5,5,4,3,BAND_LTE_3,0,7,1,3\nOK\n".to_owned()
        } else if text::reads(u, "AT+COPS?") {
            "+COPS: 0,0,\"MegaFon\",7\nOK\n".to_owned()
        } else if text::reads(u, "AT+CEREG?") {
            "+CEREG: 2,1\nOK\n".to_owned()
        } else {
            "+CME ERROR: 4\n".to_owned()
        }
    }
}

// ---------------------------------------------------------------------------
// Both
// ---------------------------------------------------------------------------
/// The made-up modems as a mathematical value: the files of the one, and the last lock command of
/// the other.
pub struct DemoState {
    pub files: Map<Seq<char>, Seq<char>>,
    pub locked: Option<Seq<char>>,
}

/// The made-up modems. A process has one of each, and what was written to them stays until the
/// process ends.
#[derive(Debug)]
pub struct Demo {
    modem: DemoModem,
    intel: DemoIntel,
}

impl View for Demo {
    type V = DemoState;

    closed spec fn view(&self) -> DemoState {
        DemoState { files: self.modem@, locked: self.intel@ }
    }
}

impl Demo {
    /// Modems with no files and no lock.
    pub fn new() -> (r: Demo)
        ensures
            r@ == (DemoState { files: Map::empty(), locked: None }),
    {
        Demo { modem: DemoModem::new(), intel: DemoIntel::new() }
    }

    /// Answer one command at the second `now`.
    pub fn send(&mut self, cmd: &str, now: u64) -> (r: String)
        ensures
            r@ == reply_text(old(self)@.files, cmd@, now as int),
            final(self)@ == (DemoState { files: files_after(old(self)@.files, cmd@), ..old(self)@ }),
    {
        self.modem.send(cmd, now)
    }

    /// Answer one command as the Intel modem.
    pub fn send_intel(&mut self, cmd: &str) -> (r: String)
        ensures
            r@ == intel_reply(cmd@),
            final(self)@ == (DemoState { locked: lock_after(old(self)@.locked, cmd@), ..old(self)@ }),
    {
        self.intel.send(cmd)
    }
}

} // verus!
