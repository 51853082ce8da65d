use modemui::at::{
    detect, detect_ndmc, detect_serial, extract_iface_names, has_terminator, ndmc_call,
    ndmc_output, parse_response, probe_device, probe_iface, AtPort, Findings, Inquiry, Outbound, SerialReader, Transport,
};
use modemui::demo::{Demo, DemoIntel, DemoModem};

#[test]
fn parses_ok_with_body() {
    let r = parse_response(
        "at^efs=\"/nv/x\"",
        "at^efs=\"/nv/x\"\r\nOK\r\n\r\n^EFS: /nv/x, 22,0b\r\nOK\r\n",
    );
    assert!(r.ok);
    assert_eq!(r.body, "^EFS: /nv/x, 22,0b");
    assert!(r.error.is_none());
}

#[test]
fn parses_cme_error() {
    let r = parse_response("AT^DEBUG?", "AT^DEBUG?\r\n+CME ERROR: 4\r\n");
    assert!(!r.ok);
    assert_eq!(r.error.as_deref(), Some("+CME ERROR: 4"));
    assert!(r.body.is_empty());
}

#[test]
fn plain_error_is_reported() {
    let r = parse_response("ATX", "ERROR\r\n");
    assert!(!r.ok);
    assert!(r.require_ok().is_err());
}

#[test]
fn detects_terminators() {
    assert!(has_terminator("foo\r\nOK\r\n"));
    assert!(has_terminator("+CME ERROR: 100\r\n"));
    assert!(!has_terminator("^EFS: /nv/x, 22,0b\r\n"));
    // "OKAY" is no terminator.
    assert!(!has_terminator("OKAY\r\n"));
}

#[test]
fn picks_qmi_interface_first() {
    let text = "Interface: UsbLte0\n  state: up\nInterface: UsbQmi0\n  state: up\n";
    assert_eq!(extract_iface_names(text), vec!["UsbQmi0", "UsbLte0"]);
}

#[test]
fn ignores_non_modem_interfaces() {
    let text = "Bridge0 GigabitEthernet1 UsbQmi0 Wireguard0 UsbQmiFoo";
    assert_eq!(extract_iface_names(text), vec!["UsbQmi0"]);
}

#[test]
fn interfaces_are_listed_once_and_in_order() {
    assert_eq!(
        extract_iface_names("UsbModem1,UsbLte2 UsbLte1 UsbQmi3/UsbLte2;UsbQmi é UsbQmi10"),
        vec!["UsbQmi3", "UsbQmi10", "UsbLte2", "UsbLte1", "UsbModem1"]
    );
    assert!(extract_iface_names("").is_empty());
}

#[test]
fn replies_are_taken_apart() {
    let r = parse_response(" ati ", "ATI\r\n  Foxconn \r\n\r\nT77W968\rOK\r\nERROR\r\n+CMS ERROR: 1");
    assert!(r.ok);
    assert_eq!(r.body, "Foxconn\nT77W968");
    // The last error counts.
    assert_eq!(r.error.as_deref(), Some("+CMS ERROR: 1"));
    assert!(r.require_ok().is_ok());
    let r = parse_response("AT", "");
    assert_eq!(r.require_ok(), Err("модем не ответил OK".to_string()));
    let r = parse_response("AT", "+CME ERROR: 9");
    assert_eq!(r.require_ok(), Err("+CME ERROR: 9".to_string()));
    assert_eq!(r.raw, "+CME ERROR: 9");
}

#[test]
fn more_terminators() {
    assert!(has_terminator("x\nNO CARRIER"));
    assert!(has_terminator(" ERROR \n"));
    assert!(has_terminator("+CMS ERROR"));
    assert!(!has_terminator(""));
    assert!(!has_terminator("NOT OK"));
}

#[test]
fn transports_have_names() {
    assert_eq!(
        Transport::Ndmc { iface: "UsbQmi0".to_string() }.describe(),
        "ndmc:UsbQmi0"
    );
    assert_eq!(
        Transport::Serial { dev: "/dev/ttyACM0".to_string() }.describe(),
        "serial:/dev/ttyACM0"
    );
    assert_eq!(Transport::Mock.describe(), "demo qualcomm (модем не подключён)");
    assert_eq!(Transport::MockIntel.describe(), "demo intel (модем не подключён)");
}

#[test]
fn commands_go_out_over_the_transport() {
    let mut d = Demo::new();
    let mut p = AtPort::new(Transport::Ndmc { iface: "UsbQmi0".to_string() });
    assert!(matches!(p.send(&mut d, "ATI", 0), Outbound::Ndmc { call }
        if call == "interface UsbQmi0 tty send ATI"));
    assert_eq!(ndmc_call("A", "B"), "interface A tty send B");
    let mut p = AtPort::new(Transport::Serial { dev: "/dev/x".to_string() });
    assert!(matches!(p.send(&mut d, "ATI", 0), Outbound::Serial { dev, line, timeout }
        if dev == "/dev/x" && line == "ATI\r" && timeout == 5));
    assert!(matches!(p.send_slow(&mut d, "ATI", 0), Outbound::Serial { dev: _, line: _, timeout }
        if timeout == 30));
    let mut p = AtPort::new(Transport::MockIntel);
    assert!(matches!(p.send(&mut d, "AT^DEBUG?", 0), Outbound::Answered(r)
        if r.error.as_deref() == Some("+CME ERROR: 4")));
}

#[test]
fn ndmc_output_falls_back_on_the_error_output() {
    assert_eq!(ndmc_output(b"OK", b"bad"), "OK");
    assert_eq!(ndmc_output(b" \n", b"bad"), "bad");
    assert_eq!(ndmc_output(b"a\xff", b""), "a\u{fffd}");
}

#[test]
fn falls_back_to_a_serial_device_once() {
    let found = || Some(Transport::Serial { dev: "/dev/ttyUSB2".to_string() });
    let mut p = AtPort::new(Transport::Ndmc { iface: "UsbQmi0".to_string() });
    assert!(p.can_fall_back());
    assert!(!p.fallback_to_serial(None));
    assert_eq!(p.transport().describe(), "ndmc:UsbQmi0");
    assert!(p.fallback_to_serial(found()));
    assert_eq!(p.transport().describe(), "serial:/dev/ttyUSB2");
    assert!(!p.can_fall_back());
    assert!(!p.fallback_to_serial(found()));
}

#[test]
fn serial_reading_ends() {
    let mut r = SerialReader::new();
    assert!(!r.on_read(b"AT"));
    assert!(!r.on_read(b""));
    assert!(r.on_read(b"I\r\nOK\r\n"));
    assert_eq!(r.text(), "ATI\r\nOK\r\n");
    let mut r = SerialReader::new();
    assert!(!r.on_read(b"\r\n"));
    assert!(!r.on_read(b""));
    assert!(!r.on_read(b""));
    assert!(r.on_read(b""));
    let mut r = SerialReader::new();
    assert!(!r.on_read(b"x\xff"));
    assert!(!r.on_read(b""));
    assert!(r.on_read(b""));
    assert_eq!(r.text(), "x\u{fffd}");
}

#[test]
fn serial_devices_are_tried_in_turn() {
    let mut replies: Vec<Option<String>> = Vec::new();
    let mut tried: Vec<String> = Vec::new();
    while let Inquiry::TryDevice(d) = detect_serial(Some("/dev/mine"), &replies) {
        tried.push(d);
        replies.push(if tried.len() == 2 { Some("OKAY".to_string()) } else { None });
    }
    assert_eq!(
        tried,
        vec![
            "/dev/mine",
            "/dev/ttyACM0",
            "/dev/ttyACM1",
            "/dev/ttyACM2",
            "/dev/ttyACM3",
            "/dev/ttyUSB0",
            "/dev/ttyUSB1",
            "/dev/ttyUSB2",
            "/dev/ttyUSB3"
        ]
    );
    assert!(matches!(
        detect_serial(Some("/dev/mine"), &replies),
        Inquiry::Done(None)
    ));
    let replies = vec![None, Some("ATE0\r\nOK\r\n".to_string())];
    assert!(matches!(detect_serial(None, &replies), Inquiry::Done(Some(t))
        if t == Transport::Serial { dev: "/dev/ttyACM1".to_string() }));
}

#[test]
fn interfaces_are_tried_in_turn() {
    assert!(matches!(detect_ndmc(Some("UsbLte5"), &None, &vec![]), Inquiry::Done(Some(t))
        if t == Transport::Ndmc { iface: "UsbLte5".to_string() }));
    assert!(matches!(detect_ndmc(None, &None, &vec![]), Inquiry::ListInterfaces));
    assert!(matches!(detect_ndmc(None, &Some(None), &vec![]), Inquiry::Done(None)));
    let listing = Some(Some(b"UsbLte0 UsbQmi0".to_vec()));
    assert!(matches!(detect_ndmc(None, &listing, &vec![]), Inquiry::TryIface(i)
        if i == "UsbQmi0"));
    let replies = vec!["ERROR".to_string()];
    assert!(matches!(detect_ndmc(None, &listing, &replies), Inquiry::TryIface(i)
        if i == "UsbLte0"));
    let replies = vec!["ERROR".to_string(), "OK".to_string()];
    assert!(matches!(detect_ndmc(None, &listing, &replies), Inquiry::Done(Some(t))
        if t == Transport::Ndmc { iface: "UsbLte0".to_string() }));
}

#[test]
fn interfaces_come_before_devices() {
    let mut known = Findings::new();
    assert!(matches!(detect(None, None, &known), Inquiry::ListInterfaces));
    assert!(matches!(detect(Some("X"), Some("/dev/d"), &known), Inquiry::TryDevice(d)
        if d == "/dev/d"));
    known.listing = Some(None);
    assert!(matches!(detect(None, None, &known), Inquiry::TryDevice(d)
        if d == "/dev/ttyACM0"));
}

#[test]
fn demo_modem_keeps_files() {
    let mut m = DemoModem::new();
    assert_eq!(m.send("at^efs=\"/nv/x\"", 0), "OK\r\n\r\n^EFS: /nv/x, \r\nOK\r\n");
    assert_eq!(m.send("at^efs=\"/nv/x\",2,\"22,0b\"", 0), "OK\r\n");
    assert_eq!(m.send(" AT^EFS=\"/nv/x\" ", 0), "OK\r\n\r\n^EFS: /nv/x, 22,0b\r\nOK\r\n");
    assert_eq!(m.send("at^efs=\"/nv/x\", 0", 0), "OK\r\n");
    assert_eq!(m.send("at^efs=\"/nv/x\"", 0), "OK\r\n\r\n^EFS: /nv/x, \r\nOK\r\n");
}

#[test]
fn ports_share_the_made_up_modems() {
    let mut d = Demo::new();
    let mut one = AtPort::new(Transport::Mock);
    let mut other = AtPort::new(Transport::Mock);
    one.send(&mut d, "at^efs=\"/nv/x\",2,\"22,0b\"", 0);
    assert!(matches!(other.send(&mut d, "at^efs=\"/nv/x\"", 0), Outbound::Answered(r)
        if r.body == "^EFS: /nv/x, 22,0b"));
    // The Intel modem knows nothing of the files.
    let mut intel = AtPort::new(Transport::MockIntel);
    assert!(matches!(intel.send(&mut d, "at^efs=\"/nv/x\"", 0), Outbound::Answered(r)
        if !r.ok));
}

#[test]
fn modems_are_probed() {
    assert!(matches!(probe_device("/dev/x"), Outbound::Serial { dev, line, timeout }
        if dev == "/dev/x" && line == "ATE0\r" && timeout == 2));
    assert!(matches!(probe_iface("UsbQmi0"), Outbound::Ndmc { call }
        if call == "interface UsbQmi0 tty send ATE0"));
}

#[test]
fn demo_modem_breathes() {
    let mut m = DemoModem::new();
    assert_eq!(
        m.send("AT^DEBUG?", 0),
        "EARFCN(DL/UL): 1575/19575\r\neNB ID(PCI): 25733-2(161)\r\nRSRP: -100\r\nRSRQ: -10\r\nSINR: 10\r\nOK\r\n"
    );
    assert_eq!(
        m.send("at^debug?", 10),
        "EARFCN(DL/UL): 1575/19575\r\neNB ID(PCI): 25733-2(161)\r\nRSRP: -90\r\nRSRQ: -10\r\nSINR: 14\r\nOK\r\n"
    );
    assert_eq!(m.send("AT+GTACT=2,,,ff", 0), "OK\r\n");
    assert_eq!(m.send("AT+CFUN=1,1", 0), "OK\r\n");
    assert_eq!(m.send("AT+CFUN=1", 0), "ERROR\r\n");
}

#[test]
fn demo_intel_replies() {
    let mut m = DemoIntel::new();
    assert_eq!(m.send("at@sic:freq_lock(0,3,103,1,1602,264)"), "OK\n");
    assert_eq!(m.send("at+cfun=15"), "OK\n");
    assert_eq!(
        m.send("AT+XCESQ?"),
        "+XCESQ: 0,99,99,255,255,24,62,34,255,255,255,255\nOK\n"
    );
    let cells = m.send("AT+XMCI=1");
    assert_eq!(
        cells,
        "+XMCI: 4,250,02,\"0x2608\",\"0x026D741E\",\"0x0108\",\"0x00000642\",\"0x00004C92\",
             \"0xFFFFFFFF\",58,22,38,\"0x00000003\",\"0x00000000\"
             +XMCI: 5,000,000,\"0xFFFE\",\"0xFFFFFFFF\",\"0x01B7\",\"0x00000BE8\",\"0xFFFFFFFF\",
             \"0xFFFFFFFF\",51,14,255,\"0x7FFFFFFF\",\"0x00000000\"
             +XMCI: 5,000,000,\"0xFFFE\",\"0xFFFFFFFF\",\"0x0108\",\"0x000005B2\",\"0xFFFFFFFF\",
             \"0xFFFFFFFF\",59,23,255,\"0x7FFFFFFF\",\"0x00000000\"
OK
"
    );
    assert_eq!(m.send("AT^DEBUG?"), "+CME ERROR: 4\n");
}
