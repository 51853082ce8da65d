use modemui::at::{parse_response, AtPort, AtResponse, Outbound, Transport};
use modemui::demo::Demo;
use modemui::modem::{
    from_le16, parse_efs_bytes, to_le16, LockState, Modem, Probed, Step, Transcript, EFS_EARFCN,
    EFS_PCI,
};
use modemui::signal::{
    parse_neighbors, parse_operator, parse_registered, parse_signal,
    signed_number_after, Neighbor, Reading, Sample, Signal,
};

/// The number that a measurement stands for.
fn value(r: &Option<Reading>) -> Option<f64> {
    match r {
        Some(Reading::Scaled { base, step, index }) => {
            Some(*base as f64 / 2.0 + *step as f64 / 2.0 * *index as f64)
        }
        Some(Reading::Numeral(t)) => t.parse().ok(),
        None => None,
    }
}

/// An integer that is ordered as the number is for which a numeral stands.
fn key(numeral: &str) -> i64 {
    let bits = (numeral.parse::<f64>().unwrap() + 0.0).to_bits() as i64;
    bits ^ (((bits >> 63) as u64) >> 1) as i64
}

/// A port and the made-up modems.
struct Bench {
    port: AtPort,
    demo: Demo,
}

impl Bench {
    fn new(transport: Transport) -> Bench {
        Bench { port: AtPort::new(transport), demo: Demo::new() }
    }
}

fn number_after(line: &str, label: &str) -> Option<f64> {
    signed_number_after(line, label).and_then(|t| t.parse().ok())
}

#[test]
fn le16_roundtrip() {
    for v in [0u16, 1, 57, 300, 1575, 2850, 3048, 65535] {
        assert_eq!(from_le16(&to_le16(v)), Some(v), "v={}", v);
    }
}

#[test]
fn le16_matches_forum_reference() {
    assert_eq!(to_le16(2850), "22,0b");
    assert_eq!(to_le16(57), "39,00");
}

#[test]
fn from_le16_accepts_upper_and_spaces() {
    assert_eq!(from_le16("22,0B"), Some(2850));
    assert_eq!(from_le16(" 22 , 0b "), Some(2850));
    assert_eq!(from_le16("22"), None);
    assert_eq!(from_le16("zz,0b"), None);
}

#[test]
fn parses_efs_line() {
    assert_eq!(
        parse_efs_bytes("^EFS: /nv/item_files/modem/lte/rrc/csp/pci_lock, 22,0b,39,00"),
        Some("22,0b,39,00".to_string())
    );
    assert_eq!(
        parse_efs_bytes("^EFS: /nv/x/earfcn_lock, 22,0B"),
        Some("22,0b".to_string())
    );
}

#[test]
fn parses_empty_and_garbage_efs() {
    assert_eq!(parse_efs_bytes("^EFS: /nv/x/earfcn_lock, "), None);
    assert_eq!(parse_efs_bytes("^EFS: /nv/x, zz,qq"), None);
    assert_eq!(parse_efs_bytes("OK"), None);
    assert_eq!(parse_efs_bytes(""), None);
}

#[test]
fn conflict_detected() {
    let st = LockState {
        earfcn: Some(2850),
        pci: Some(57),
        ..Default::default()
    };
    assert!(st.has_conflict());
    assert!(!LockState {
        earfcn: Some(2850),
        ..Default::default()
    }
    .has_conflict());
}

#[test]
fn parses_cesq() {
    let s = parse_signal("+CESQ: 99,99,255,255,17,45");
    assert_eq!(value(&s.rsrp), Some(-95.0));
    assert_eq!(value(&s.rsrq), Some(-11.5));
}

#[test]
fn cesq_255_means_unknown() {
    let s = parse_signal("+CESQ: 99,99,255,255,255,255");
    assert_eq!(value(&s.rsrp), None);
    assert_eq!(value(&s.rsrq), None);
}

#[test]
fn parses_debug_serving_cell() {
    let s = parse_signal("EARFCN(DL/UL): 1575/19575\neNB ID(PCI): 25733-2(161)");
    assert_eq!(s.earfcn, Some(1575));
    assert_eq!(s.pci, Some(161));
}

#[test]
fn parses_labelled_metrics() {
    let s = parse_signal("RSRP: -95\nRSRQ: -11\nSINR: 12.5");
    assert_eq!(value(&s.rsrp), Some(-95.0));
    assert_eq!(value(&s.rsrq), Some(-11.0));
    assert_eq!(value(&s.sinr), Some(12.5));
}

#[test]
fn signed_number_handles_separators_and_decimals() {
    assert_eq!(number_after("RSRP: -95 dBm", "RSRP"), Some(-95.0));
    assert_eq!(number_after("SINR: 12.5", "SINR"), Some(12.5));
    assert_eq!(number_after("RSRQ = +3", "RSRQ"), Some(3.0));
    // A dash between numbers is no sign.
    assert_eq!(number_after("ID: 25733-2", "ID"), Some(25733.0));
    // A full stop does not belong to the number.
    assert_eq!(number_after("RSRP: -95.", "RSRP"), Some(-95.0));
    assert_eq!(number_after("RSRP: n/a", "RSRP"), None);
    assert_eq!(number_after("нет ключа", "RSRP"), None);
}

#[test]
fn parses_operator() {
    assert_eq!(
        parse_operator("+COPS: 0,0,\"MegaFon\",7").as_deref(),
        Some("MegaFon")
    );
    assert_eq!(parse_operator("+COPS: 2"), None);
}

#[test]
fn parses_registration() {
    assert!(parse_registered("+CEREG: 2,1"));
    assert!(parse_registered("+CEREG: 0,5"));
    assert!(!parse_registered("+CEREG: 0,0"));
    assert!(!parse_registered("+CEREG: 2,2"));
    assert!(!parse_registered(""));
}

#[test]
fn parses_and_sorts_neighbors() {
    let body = "$QCRSRP: 161,1575,-95,-11\n$QCRSRP: 57,2850,-80,-9\n$QCRSRP: 22,1575,-110";
    let n = parse_neighbors(body, key);
    assert_eq!(n.len(), 3);
    // The strongest cell comes first.
    assert_eq!(n[0].pci, 57);
    assert_eq!(n[0].earfcn, 2850);
    assert_eq!(value(&n[0].rsrq), Some(-9.0));
    assert_eq!(n[2].pci, 22);
    assert_eq!(value(&n[2].rsrq), None);
}

#[test]
fn ignores_malformed_neighbor_lines() {
    let body = "$QCRSRP: abc,1575,-95\n$QCRSRP: 5\nOK\n+VZWRSRP: 7,1300,-88";
    let n = parse_neighbors(body, key);
    assert_eq!(n.len(), 1);
    assert_eq!(n[0].pci, 7);
}

#[test]
fn le16_refuses_more_than_bytes() {
    assert_eq!(from_le16("100,00"), None);
    assert_eq!(from_le16("00,100"), None);
    assert_eq!(from_le16("1,2"), Some(513));
    assert_eq!(from_le16("1,2,3"), None);
    assert_eq!(from_le16(","), None);
    assert_eq!(from_le16("+1,0"), Some(1));
}

#[test]
fn efs_bytes_in_odd_lines() {
    assert_eq!(
        parse_efs_bytes("x\n efs: p, A 1 ,\tb2\nEFS: q, 00"),
        Some("a1,b2".to_string())
    );
    assert_eq!(parse_efs_bytes("EFS: no comma"), None);
}

#[test]
fn what_is_no_list_of_bytes_is_not_shown() {
    assert_eq!(parse_efs_bytes("^EFS: /nv/x, ,"), None);
    assert_eq!(parse_efs_bytes("^EFS: /nv/x, ,,,"), None);
    assert_eq!(parse_efs_bytes("^EFS: /nv/x, 1,,2"), None);
    assert_eq!(parse_efs_bytes("^EFS: /nv/x, 01,"), None);
    assert_eq!(parse_efs_bytes("^EFS: /nv/x, 123"), None);
    assert_eq!(parse_efs_bytes("^EFS: /nv/x, 01,0g"), None);
    assert_eq!(parse_efs_bytes("^EFS: /nv/x, 1,F"), Some("1,f".to_string()));
}

#[test]
fn a_file_that_shows_anything_is_not_empty() {
    for shown in ["220b", "01,", ",", "zz"] {
        let body = format!("^EFS: x, {shown}");
        let mut l = log(vec![reply(""), reply(&body)], vec![]);
        assert!(matches!(Modem::unlock(&l), Step::Fallback));
        l.switches.push(false);
        assert!(matches!(Modem::unlock(&l), Step::Failed(_)));
        l.switches[0] = true;
        l.replies.push(reply(""));
        l.replies.push(reply(&body));
        assert!(matches!(Modem::unlock(&l), Step::Failed(_)));
    }
    // White space is nothing, and neither is a reply without such a line.
    for body in ["^EFS: x, \t", "nothing"] {
        let l = log(vec![reply(""), reply(body), reply(""), reply(body)], vec![]);
        assert!(matches!(Modem::unlock(&l), Step::Done(())));
    }
    // What is read back may differ in blanks and in case.
    let l = log(
        vec![reply(""), reply("^EFS: x, 22, 0B"), reply(""), reply("^EFS: x,")],
        vec![],
    );
    assert!(matches!(Modem::lock_earfcn(2850, &l), Step::Done(())));
}

#[test]
fn cells_are_ranked_by_their_exact_values() {
    let n = parse_neighbors(
        "$QCRSRP: 1,1,-95.5\n$QCRSRP: 2,1,\n$QCRSRP: 3,1,-95.25\n$QCRSRP: 4,1,-0100\n$QCRSRP: 5,1,+3\n$QCRSRP: 6,1,-95.50\n$QCRSRP: 7,1,-inf",
        key,
    );
    let order: Vec<u16> = n.iter().map(|c| c.pci).collect();
    // Cells that are level stay as they came; one without an RSRP is level with minus infinity.
    assert_eq!(order, vec![5, 3, 1, 6, 4, 2, 7]);
}

#[test]
fn clones_are_the_same() {
    let s = Sample {
        ts: 7,
        rsrp: Some(Reading::Numeral("-84.5".to_string())),
        rsrq: None,
        sinr: Some(Reading::Scaled { base: 0, step: 2, index: 9 }),
    };
    let c = s.clone();
    assert_eq!((c.ts, &c.rsrp, &c.rsrq, &c.sinr), (s.ts, &s.rsrp, &s.rsrq, &s.sinr));
    let s = Signal { operator: Some("o".to_string()), pci: Some(3), ..parse_signal("+CSQ: 31,99") };
    let c = s.clone();
    assert_eq!((&c.rssi, c.pci, &c.operator), (&s.rssi, Some(3), &s.operator));
    assert!(c.rsrp.is_none() && !c.registered);
}

#[test]
fn csq_gives_the_rssi() {
    let s = parse_signal("+CSQ: 31,99");
    assert_eq!(value(&s.rssi), Some(-51.0));
    assert!(parse_signal("+CSQ: 99,99").rssi.is_none());
    // What is not a number counts as -1.
    assert_eq!(value(&parse_signal("+CSQ: x").rssi), Some(-115.0));
}

#[test]
fn first_label_counts() {
    let s = parse_signal("rsrp -1 rsrp -2\nRSRP: -3\nRSSI=-70\n+CESQ: 1,2,3,4,5");
    assert_eq!(value(&s.rsrp), Some(-1.0));
    assert_eq!(value(&s.rssi), Some(-70.0));
    // Indices overwrite labels, but labels do not overwrite indices.
    let s = parse_signal("RSRP: -3\n+CESQ: 99,99,255,255,17,45\nRSRP: -4");
    assert_eq!(value(&s.rsrp), Some(-95.0));
}

#[test]
fn wide_numbers_are_taken_to_their_size() {
    let s = parse_signal("EARFCN: 4294967297\nPCI (65537)");
    assert_eq!((s.earfcn, s.pci), (Some(1), Some(1)));
    let s = parse_signal("PCI (-5)");
    assert_eq!(s.pci, Some(65531));
    let s = parse_signal("EARFCN: 99999999999999999999\nPCI (x)\nPCI (7");
    assert_eq!((s.earfcn, s.pci), (None, None));
}

#[test]
fn operators_without_a_name() {
    assert_eq!(parse_operator("+COPS: 0,0,\" \",7"), None);
    assert_eq!(parse_operator("+COPS: 0,0,\"Мега Фон"), None);
    assert_eq!(
        parse_operator("OK\nx+COPS: \" Мега Фон \"").as_deref(),
        Some("Мега Фон")
    );
}

#[test]
fn registration_skips_short_lines() {
    assert!(parse_registered(" +cereg: 1\n+CEREG: 0 , 5 "));
    assert!(!parse_registered("+CEREG: 0,0\n+CEREG: 0,1"));
}

#[test]
fn neighbors_in_odd_notation() {
    let n = parse_neighbors(
        "$qcrsrp: 1,10,weak\n$QCRSRP: 2,20,-9e1,inf\n$QCRSRP: 3,30,.5\n$QCRSRP: 4,40,+1.\n$QCRSRP: 5,50,-90\n$QCRSRP 6,60,1\n$QCRSRP: 70000,1,1",
        key,
    );
    let order: Vec<u16> = n.iter().map(|c| c.pci).collect();
    assert_eq!(order, vec![4, 3, 2, 5, 1]);
    assert_eq!(value(&n[2].rsrq), Some(f64::INFINITY));
    assert!(n[4].rsrp.is_none());
}

// ---------------------------------------------------------------------------
// Operations
// ---------------------------------------------------------------------------
/// Carry an operation out on a port with a made-up modem.
fn carry_out<T>(
    port: &mut Bench,
    op: impl Fn(&Transcript) -> Step<T>,
) -> (Result<T, String>, Vec<String>) {
    let mut log = Transcript::new();
    let mut sent: Vec<String> = Vec::new();
    loop {
        let (cmd, slow) = match op(&log) {
            Step::Send(c) => (c, false),
            Step::SendSlow(c) => (c, true),
            Step::Fallback => {
                log.switches.push(port.port.fallback_to_serial(None));
                continue;
            }
            Step::Failed(e) => return (Err(e), sent),
            Step::Done(t) => return (Ok(t), sent),
        };
        let out = if slow {
            port.port.send_slow(&mut port.demo, &cmd, 0)
        } else {
            port.port.send(&mut port.demo, &cmd, 0)
        };
        match out {
            Outbound::Answered(r) => log.replies.push(Ok(r)),
            other => panic!("not a made-up modem: {:?}", other),
        }
        sent.push(cmd);
    }
}

fn reply(body: &str) -> Result<AtResponse, String> {
    Ok(parse_response("", &format!("{}\r\nOK\r\n", body)))
}

fn log(replies: Vec<Result<AtResponse, String>>, switches: Vec<bool>) -> Transcript {
    Transcript { replies, switches }
}

fn sent<T>(s: Step<T>) -> String {
    match s {
        Step::Send(c) => c,
        _ => panic!("nothing to send"),
    }
}

#[test]
fn locks_on_the_demo_modem_are_read_back() {
    let mut port = Bench::new(Transport::Mock);
    let (done, cmds) = carry_out(&mut port, |l| Modem::lock_earfcn(2850, l));
    assert_eq!(done, Ok(()));
    assert_eq!(
        cmds,
        vec![
            format!("at^efs=\"{}\",2,\"22,0b\"", EFS_EARFCN),
            format!("at^efs=\"{}\"", EFS_EARFCN),
            format!("at^efs=\"{}\",0", EFS_PCI),
            format!("at^efs=\"{}\"", EFS_PCI),
        ]
    );
    let l = carry_out(&mut port, Modem::read_lock).0.unwrap();
    assert_eq!((l.earfcn, l.pci_earfcn, l.pci), (Some(2850), None, None));
    assert_eq!(l.raw_earfcn.as_deref(), Some("22,0b"));
    assert!(!l.has_conflict());

    let (done, cmds) = carry_out(&mut port, |l| Modem::lock_pci(1575, 161, l));
    assert_eq!(done, Ok(()));
    assert_eq!(cmds[0], format!("at^efs=\"{}\",4,\"27,06,a1,00\"", EFS_PCI));
    let l = carry_out(&mut port, Modem::read_lock).0.unwrap();
    assert_eq!((l.earfcn, l.pci_earfcn, l.pci), (None, Some(1575), Some(161)));
    assert!(!l.has_conflict());

    assert_eq!(carry_out(&mut port, Modem::unlock).0, Ok(()));
    assert_eq!(carry_out(&mut port, Modem::read_lock).0, Ok(LockState::default()));
}

#[test]
fn cells_out_of_range_are_refused() {
    let mut port = Bench::new(Transport::Mock);
    let (done, cmds) = carry_out(&mut port, |l| Modem::lock_pci(1575, 504, l));
    assert_eq!(done, Err("PCI 504 вне диапазона 0..503".to_string()));
    assert!(cmds.is_empty());
    assert_eq!(carry_out(&mut port, |l| Modem::lock_pci(1575, 503, l)).0, Ok(()));
}

#[test]
fn a_write_that_fails_is_tried_once_more() {
    let op = |r, s| Modem::unlock(&log(r, s));
    let shown = || reply("^EFS: x, 22,0b");
    let empty = || reply("^EFS: x,");
    assert_eq!(sent(op(vec![], vec![])), format!("at^efs=\"{}\",0", EFS_EARFCN));
    assert!(matches!(op(vec![reply(""), shown()], vec![]), Step::Fallback));
    let expected = format!(
        "не удалось записать {}: в модеме оказалось не то, что ожидалось",
        EFS_EARFCN
    );
    assert!(matches!(op(vec![reply(""), shown()], vec![false]), Step::Failed(e)
        if e == expected));
    assert_eq!(
        sent(op(vec![reply(""), shown()], vec![true])),
        format!("at^efs=\"{}\",0", EFS_EARFCN)
    );
    assert!(matches!(
        op(vec![reply(""), shown(), reply(""), shown()], vec![true]),
        Step::Failed(e) if e == expected));
    assert_eq!(
        sent(op(vec![reply(""), shown(), reply(""), empty()], vec![true])),
        format!("at^efs=\"{}\",0", EFS_PCI)
    );
    assert!(matches!(
        op(
            vec![reply(""), shown(), reply(""), empty(), reply(""), empty()],
            vec![true]
        ),
        Step::Done(())
    ));
    assert!(matches!(op(vec![Err("gone".to_string())], vec![]), Step::Failed(e)
        if e == "gone"));
    assert!(matches!(op(vec![reply(""), Err("gone".to_string())], vec![]), Step::Failed(e)
        if e == "gone"));
}

#[test]
fn reading_locks_fails_with_the_port() {
    assert!(matches!(
        Modem::read_lock(&log(vec![reply(""), Err("gone".to_string())], vec![])),
        Step::Failed(e) if e == "gone"));
    assert!(matches!(
        Modem::read_lock(&log(vec![Err("gone".to_string())], vec![])),
        Step::Failed(e) if e == "gone"));
    // Four bytes are a lock to a cell; anything else is shown as it is.
    let r = Modem::read_lock(&log(
        vec![reply("^EFS: x, 1"), reply("^EFS: x, 1,2,3")],
        vec![],
    ));
    match r {
        Step::Done(l) => {
            assert_eq!((l.earfcn, l.pci), (None, None));
            assert_eq!(l.raw_earfcn.as_deref(), Some("1"));
            assert_eq!(l.raw_pci.as_deref(), Some("1,2,3"));
        }
        other => panic!("{:?}", other),
    }
}

fn probed(port: &mut Bench) -> Probed {
    carry_out(port, Modem::probe).0.unwrap()
}

#[test]
fn demo_modem_is_probed() {
    let mut port = Bench::new(Transport::Mock);
    let (p, cmds) = carry_out(&mut port, Modem::probe);
    let p = p.unwrap();
    assert_eq!(p.info.as_deref(), Some("Foxconn\nT77W968\nRevision: DEMO.0.0"));
    assert!(p.caps.efs);
    assert_eq!(p.caps.serving.as_deref(), Some("AT^DEBUG?"));
    assert_eq!(p.caps.neighbors.as_deref(), Some("AT$QCRSRP?"));
    assert_eq!(p.caps.bands_query.as_deref(), Some("AT+GTACT?"));
    assert_eq!(p.caps.bands_set.as_deref(), Some("AT+GTACT=2,,,{}"));
    assert_eq!(cmds.len(), 5);
    // The made-up Intel modem knows none of these commands.
    let p = probed(&mut Bench::new(Transport::MockIntel));
    assert!(!p.caps.efs);
    assert!(p.caps.serving.is_none() && p.caps.neighbors.is_none());
    assert!(p.caps.bands_query.is_none() && p.caps.bands_set.is_none());
}

#[test]
fn later_candidates_are_probed() {
    let no = || Ok(parse_response("", "ERROR\r\n"));
    let replies = vec![
        Err("gone".to_string()),
        no(),
        no(),
        Ok(parse_response("", "OK\r\n")),
        reply("+CESQ: 1"),
        reply("nothing"),
        reply("+VZWRSRP: 7,1300,-88"),
        no(),
        reply("+BAND"),
    ];
    assert_eq!(
        sent(Modem::probe(&log(replies[..3].to_vec(), vec![]))),
        "AT+GTCCINFO?"
    );
    assert_eq!(
        sent(Modem::probe(&log(replies[..8].to_vec(), vec![]))),
        "AT^BAND_PRI?"
    );
    match Modem::probe(&log(replies, vec![])) {
        Step::Done(p) => {
            assert!(p.info.is_none() && !p.caps.efs);
            assert_eq!(p.caps.serving.as_deref(), Some("AT+CESQ"));
            assert_eq!(p.caps.neighbors.as_deref(), Some("AT+VZWRSRP?"));
            assert_eq!(p.caps.bands_query.as_deref(), Some("AT^BAND_PRI?"));
            assert_eq!(p.caps.bands_set.as_deref(), Some("AT^BAND_PRI={}"));
            let mut m = Modem::new();
            m.set_probed(p);
            assert_eq!(m.info(), "");
            assert_eq!(m.caps().serving.as_deref(), Some("AT+CESQ"));
        }
        other => panic!("{:?}", other),
    }
}

#[test]
fn signal_is_polled_and_kept() {
    let mut port = Bench::new(Transport::Mock);
    let mut m = Modem::new();
    assert!(m.last_signal().rsrp.is_none());
    m.set_probed(probed(&mut port));
    let (s, cmds) = carry_out(&mut port, |l| m.poll_signal(l));
    assert_eq!(cmds, vec!["AT^DEBUG?", "AT+COPS?", "AT+CEREG?"]);
    let s = s.unwrap();
    assert_eq!(value(&s.rsrp), Some(-100.0));
    assert_eq!(s.operator.as_deref(), Some("DemoNet"));
    assert!(s.registered);
    m.record(s, 77);
    assert_eq!(value(&m.last_signal().sinr), Some(10.0));
    let h = m.history();
    assert_eq!(h.len(), 1);
    assert_eq!(h[0].ts, 77);
    assert_eq!(value(&h[0].rsrq), Some(-10.0));
    // Without a command of its own, the modem is asked for AT+CESQ, and what fails is unknown.
    let m = Modem::new();
    assert_eq!(sent(m.poll_signal(&Transcript::new())), "AT+CESQ");
    let gone = || Err("gone".to_string());
    match m.poll_signal(&log(vec![gone(), gone(), gone()], vec![])) {
        Step::Done(s) => assert!(s.rsrp.is_none() && s.operator.is_none() && !s.registered),
        other => panic!("{:?}", other),
    }
}

#[test]
fn history_holds_the_latest_samples() {
    let mut m = Modem::new();
    for ts in 0..725 {
        m.record(parse_signal("RSRP: -95"), ts);
    }
    let h = m.history();
    assert_eq!(h.len(), 720);
    assert_eq!((h[0].ts, h[719].ts), (5, 724));
}

#[test]
fn cells_are_scanned() {
    let mut port = Bench::new(Transport::Mock);
    let mut m = Modem::new();
    assert_eq!(
        carry_out(&mut port, |l| m.scan_neighbors(l, key)).0.err().as_deref(),
        Some("прошивка модема не отдаёт список соседних сот")
    );
    m.set_probed(probed(&mut port));
    let cells = carry_out(&mut port, |l| m.scan_neighbors(l, key)).0.unwrap();
    // The strongest cell comes first, though the modem lists another one before it.
    let order: Vec<u16> = cells.iter().map(|c| c.pci).collect();
    assert_eq!(order, vec![57, 161, 304]);
    assert!(matches!(m.scan_neighbors(&Transcript::new(), key), Step::SendSlow(c)
        if c == "AT$QCRSRP?"));
    assert!(matches!(
        m.scan_neighbors(&log(vec![Err("gone".to_string())], vec![]), key),
        Step::Failed(e) if e == "gone"));
}

#[test]
fn bands_are_read_and_set() {
    let mut port = Bench::new(Transport::Mock);
    let mut m = Modem::new();
    assert_eq!(
        carry_out(&mut port, |l| m.read_bands(l)).0.err().as_deref(),
        Some("прошивка модема не поддерживает управление бэндами")
    );
    assert_eq!(
        carry_out(&mut port, |l| m.set_bands("ff", l)).0.err().as_deref(),
        Some("прошивка модема не поддерживает запись бэндов")
    );
    m.set_probed(probed(&mut port));
    assert_eq!(
        carry_out(&mut port, |l| m.read_bands(l)).0.as_deref(),
        Ok("+GTACT: 2,,,8000084")
    );
    let (done, cmds) = carry_out(&mut port, |l| m.set_bands("8000084", l));
    assert_eq!(done, Ok(()));
    assert_eq!(cmds, vec!["AT+GTACT=2,,,8000084"]);
    for bad in ["", "xyz", "0x1", "ff "] {
        assert_eq!(
            carry_out(&mut port, |l| m.set_bands(bad, l)).0.err().as_deref(),
            Some("маска бэндов должна быть hex-числом")
        );
    }
    assert!(matches!(
        m.set_bands("1", &log(vec![Ok(parse_response("", "ERROR"))], vec![])),
        Step::Failed(e) if e == "ERROR"));
    assert!(matches!(
        m.set_bands("1", &log(vec![Err("gone".to_string())], vec![])),
        Step::Failed(e) if e == "gone"));
    assert!(matches!(
        m.read_bands(&log(vec![Err("gone".to_string())], vec![])),
        Step::Failed(e) if e == "gone"));
}

#[test]
fn modem_is_restarted() {
    let mut port = Bench::new(Transport::Mock);
    let (done, cmds) = carry_out(&mut port, Modem::reset_modem);
    assert_eq!(done, Ok(()));
    assert_eq!(cmds, vec!["at+cfun=1,1"]);
    assert!(matches!(Modem::reset_modem(&Transcript::new()), Step::SendSlow(_)));
    assert!(matches!(
        Modem::reset_modem(&log(vec![Ok(parse_response("", "ERROR"))], vec![])),
        Step::Done(())
    ));
    assert!(matches!(
        Modem::reset_modem(&log(vec![Err("gone".to_string())], vec![])),
        Step::Failed(e) if e == "gone"));
}

#[test]
fn raw_commands_are_sent() {
    let mut port = Bench::new(Transport::Mock);
    let r = carry_out(&mut port, |l| Modem::send_raw("ati", l)).0.unwrap();
    assert!(r.ok);
    assert_eq!(r.body, "Foxconn\nT77W968\nRevision: DEMO.0.0");
    assert!(matches!(
        Modem::send_raw("ati", &log(vec![Err("gone".to_string())], vec![])),
        Step::Failed(e) if e == "gone"));
}
