use modemui::api::{
    caps_json, err, history_response, lock_json, neighbors_json, ok, parse_u16, perform,
    route, scan_answer, scan_response, show, signal_json, Action, Job, Page,
};
use modemui::at::{parse_response, AtPort, Outbound, Transport};
use modemui::demo::Demo;
use modemui::http::{Request, Response};
use modemui::json::{Json, Number};
use modemui::modem::{Caps, LockState, Modem, Step, Transcript, EFS_EARFCN};
use modemui::signal::{Neighbor, Sample, Signal};
use modemui::table::Table;

/// A measured number in its notation.
fn number(f: f64) -> Number {
    if f.is_finite() {
        Number::Finite(format!("{}", f))
    } else {
        Number::NonFinite
    }
}

fn body(r: Response) -> String {
    String::from_utf8(r.body).unwrap()
}

fn request(method: &str, path: &str, body: &str) -> Request {
    Request {
        method: method.to_string(),
        path: path.to_string(),
        headers: Table::new(),
        body: body.to_string(),
    }
}

#[test]
fn parses_valid_numbers() {
    assert_eq!(parse_u16(Some("2850"), "EARFCN", 65535), Ok(2850));
    assert_eq!(parse_u16(Some(" 57 "), "PCI", 503), Ok(57));
    assert_eq!(parse_u16(Some("0"), "PCI", 503), Ok(0));
}

#[test]
fn rejects_bad_numbers() {
    assert!(parse_u16(None, "EARFCN", 65535).is_err());
    assert!(parse_u16(Some(""), "EARFCN", 65535).is_err());
    assert!(parse_u16(Some("abc"), "EARFCN", 65535).is_err());
    assert!(parse_u16(Some("-1"), "EARFCN", 65535).is_err());
    assert!(parse_u16(Some("504"), "PCI", 503).is_err());
    assert!(parse_u16(Some("65536"), "EARFCN", 65535).is_err());
}

#[test]
fn error_bodies_are_json() {
    let r = err(400, "плохо");
    assert_eq!(r.status, 400);
    assert_eq!(String::from_utf8(r.body).unwrap(), r#"{"error":"плохо"}"#);
}

#[test]
fn lock_state_serialises_nulls_when_unset() {
    let s = lock_json(&LockState::default()).to_string();
    assert!(s.contains(r#""earfcn":null"#));
    assert!(s.contains(r#""conflict":false"#));
}

#[test]
fn neighbors_serialise_in_order() {
    let list = vec![
        Neighbor {
            earfcn: 2850,
            pci: 57,
            rsrp: Some(number(-80.0)),
            rsrq: Some(number(-9.0)),
        },
        Neighbor {
            earfcn: 1575,
            pci: 161,
            rsrp: None,
            rsrq: None,
        },
    ];
    let s = neighbors_json(&list).to_string();
    assert!(s.starts_with(r#"[{"earfcn":2850,"pci":57,"rsrp":-80,"rsrq":-9}"#));
    assert!(s.contains(r#""rsrp":null"#));
}

#[test]
fn bad_numbers_are_explained() {
    assert_eq!(
        parse_u16(None, "EARFCN", 65535),
        Err("не указан EARFCN".to_string())
    );
    assert_eq!(
        parse_u16(Some(" x "), "PCI", 503),
        Err("PCI должен быть целым числом, получено «x»".to_string())
    );
    assert_eq!(
        parse_u16(Some("504"), "PCI", 503),
        Err("PCI 504 вне допустимого диапазона 0..503".to_string())
    );
    assert_eq!(parse_u16(Some("+503"), "PCI", 503), Ok(503));
    assert_eq!(
        parse_u16(Some("4294967296"), "PCI", 503),
        Err("PCI должен быть целым числом, получено «4294967296»".to_string())
    );
}

#[test]
fn values_are_written() {
    let l = LockState {
        earfcn: Some(2850),
        pci_earfcn: Some(1),
        pci: Some(57),
        raw_earfcn: Some("22,0b".to_string()),
        raw_pci: None,
    };
    assert_eq!(
        lock_json(&l).to_string(),
        r#"{"earfcn":2850,"pciEarfcn":1,"pci":57,"rawEarfcn":"22,0b","rawPci":null,"conflict":true}"#
    );
    let c = Caps {
        serving: Some("AT+CESQ".to_string()),
        bands_set: Some("x".to_string()),
        ..Default::default()
    };
    assert_eq!(
        caps_json(&c).to_string(),
        r#"{"efs":false,"serving":"AT+CESQ","neighbors":null,"bands":null,"bandsWritable":true}"#
    );
    let mut s: Signal<Number> = Signal::default();
    s.rsrp = Some(number(-95.5));
    s.rssi = Some(number(f64::NAN));
    s.earfcn = Some(4294967295);
    s.pci = Some(161);
    s.operator = Some("Мега".to_string());
    s.registered = true;
    assert_eq!(
        signal_json(&s).to_string(),
        r#"{"rsrp":-95.5,"rsrq":null,"sinr":null,"rssi":null,"earfcn":4294967295,"pci":161,"band":null,"operator":"Мега","registered":true}"#
    );
    let h = vec![Sample { ts: 7, rsrp: Some(number(-95.0)), rsrq: None, sinr: Some(number(1.5)) }];
    assert_eq!(
        body(history_response(&h)),
        r#"{"samples":[{"ts":7,"rsrp":-95,"rsrq":null,"sinr":1.5}]}"#
    );
    assert_eq!(body(scan_response(&[])), r#"{"neighbors":[]}"#);
    let cell = Neighbor { earfcn: 2850, pci: 57, rsrp: Some(number(-80.0)), rsrq: None };
    let r = scan_answer(&Ok(vec![cell]));
    assert_eq!(r.status, 200);
    assert_eq!(
        body(r),
        r#"{"neighbors":[{"earfcn":2850,"pci":57,"rsrp":-80,"rsrq":null}]}"#
    );
    let r = scan_answer(&Err("gone".to_string()));
    assert_eq!((r.status, body(r)), (400, r#"{"error":"gone"}"#.to_string()));
    let h: Vec<Sample<Number>> = vec![Sample { ts: u64::MAX, rsrp: None, rsrq: None, sinr: None }];
    assert!(body(history_response(&h)).contains(r#""ts":-1"#));
    let r = ok(&Json::Int(1));
    assert_eq!(r.status, 200);
    assert_eq!(r.content_type, "application/json; charset=utf-8");
}

fn answer(a: Action) -> (u16, String) {
    match a {
        Action::Answer(r) => (r.status, body(r)),
        other => panic!("not answered at once: {:?}", other),
    }
}

#[test]
fn requests_are_routed() {
    assert!(matches!(route(&request("GET", "/", "")), Action::Show(Page::Index)));
    assert!(matches!(route(&request("GET", "/app.js", "")), Action::Show(Page::Script)));
    assert!(matches!(route(&request("GET", "/style.css", "")), Action::Show(Page::Style)));
    assert!(matches!(route(&request("GET", "/api/status", "")), Action::Work(Job::Status)));
    assert!(matches!(route(&request("GET", "/api/history", "")), Action::History));
    assert!(matches!(route(&request("GET", "/api/bands", "")), Action::Work(Job::ReadBands)));
    assert!(matches!(
        route(&request("POST", "/api/lock/earfcn", "earfcn=2850")),
        Action::Work(Job::LockEarfcn(2850))
    ));
    assert!(matches!(
        route(&request("POST", "/api/lock/pci", "pci=+503&earfcn=1")),
        Action::Work(Job::LockPci(1, 503))
    ));
    assert!(matches!(route(&request("POST", "/api/unlock", "")), Action::Work(Job::Unlock)));
    assert!(matches!(route(&request("POST", "/api/reset", "")), Action::Work(Job::Reset)));
    assert!(matches!(route(&request("POST", "/api/scan", "")), Action::Scan));
    assert!(matches!(
        route(&request("POST", "/api/bands", "mask=+f")),
        Action::Work(Job::SetBands(m)) if m == " f"));
    assert!(matches!(
        route(&request("POST", "/api/at", "cmd=+ATI%0D+")),
        Action::Work(Job::RawAt(c)) if c == "ATI"));
}

#[test]
fn bad_requests_are_refused() {
    assert_eq!(
        answer(route(&request("GET", "/api/reset", ""))),
        (404, r#"{"error":"не найдено"}"#.to_string())
    );
    assert_eq!(answer(route(&request("POST", "/api/status", ""))).0, 404);
    assert_eq!(
        answer(route(&request("PUT", "/", ""))),
        (405, r#"{"error":"метод не поддерживается"}"#.to_string())
    );
    assert_eq!(
        answer(route(&request("POST", "/api/lock/earfcn", ""))),
        (400, r#"{"error":"не указан EARFCN"}"#.to_string())
    );
    assert_eq!(
        answer(route(&request("POST", "/api/lock/pci", "earfcn=1&pci=504"))),
        (400, r#"{"error":"PCI 504 вне допустимого диапазона 0..503"}"#.to_string())
    );
    assert_eq!(answer(route(&request("POST", "/api/lock/pci", "earfcn=x&pci=1"))).0, 400);
    assert_eq!(
        answer(route(&request("POST", "/api/bands", "mask="))),
        (400, r#"{"error":"не указана маска бэндов"}"#.to_string())
    );
    assert_eq!(
        answer(route(&request("POST", "/api/at", "cmd=+"))),
        (400, r#"{"error":"пустая команда"}"#.to_string())
    );
}

#[test]
fn requests_with_broken_escapes_are_answered() {
    match route(&request("POST", "/api/at", "cmd=%4é")) {
        Action::Work(Job::RawAt(c)) => assert_eq!(c, "%4é"),
        other => panic!("{other:?}"),
    }
    let (status, _) = answer(route(&request("POST", "/api/lock/earfcn", "earfcn=%aé")));
    assert_eq!(status, 400);
}

#[test]
fn locks_are_understood_however_they_are_encoded() {
    for body in ["earfcn=2850&pci=392", "%65arfcn=2%38%35%30&p%63%69=+3%392+"] {
        match route(&request("POST", "/api/lock/pci", body)) {
            Action::Work(Job::LockPci(earfcn, pci)) => assert_eq!((earfcn, pci), (2850, 392)),
            other => panic!("{other:?}"),
        }
    }
}

#[test]
fn pages_have_their_types() {
    assert_eq!(show(Page::Index, "x").content_type, "text/html; charset=utf-8");
    assert_eq!(
        show(Page::Script, "x").content_type,
        "application/javascript; charset=utf-8"
    );
    let r = show(Page::Style, "x");
    assert_eq!(r.content_type, "text/css; charset=utf-8");
    assert_eq!((r.status, body(r)), (200, "x".to_string()));
}

/// Work on a port with a made-up modem until there is an answer.
fn work(port: &mut AtPort, demo: &mut Demo, known: &Modem, job: Job) -> (u16, String) {
    let mut log = Transcript::new();
    loop {
        let cmd = match perform(&job, "here", known, &Signal::default(), &log) {
            Step::Send(c) => c,
            Step::SendSlow(c) => c,
            Step::Fallback => {
                log.switches.push(false);
                continue;
            }
            Step::Failed(e) => panic!("{}", e),
            Step::Done(r) => return (r.status, body(r)),
        };
        match port.send(demo, &cmd, 0) {
            Outbound::Answered(r) => log.replies.push(Ok(r)),
            other => panic!("{:?}", other),
        }
    }
}

#[test]
fn work_on_the_demo_modem_is_answered() {
    let mut port = AtPort::new(Transport::Mock);
    let mut demo = Demo::new();
    let mut known = Modem::new();
    assert_eq!(
        work(&mut port, &mut demo, &known, Job::ReadBands),
        (
            400,
            r#"{"error":"прошивка модема не поддерживает управление бэндами"}"#.to_string()
        )
    );
    let mut log = Transcript::new();
    loop {
        match Modem::probe(&log) {
            Step::Send(c) => match port.send(&mut demo, &c, 0) {
                Outbound::Answered(r) => log.replies.push(Ok(r)),
                other => panic!("{:?}", other),
            },
            Step::Done(p) => {
                known.set_probed(p);
                break;
            }
            other => panic!("{:?}", other),
        }
    }
    assert_eq!(
        work(&mut port, &mut demo, &known, Job::LockEarfcn(2850)),
        (
            200,
            r#"{"lock":{"earfcn":2850,"pciEarfcn":null,"pci":null,"rawEarfcn":"22,0b","rawPci":null,"conflict":false},"message":"Записано. Изменения вступят в силу после перезагрузки модема."}"#.to_string()
        )
    );
    assert_eq!(
        work(&mut port, &mut demo, &known, Job::LockPci(1575, 161)),
        (
            200,
            r#"{"lock":{"earfcn":null,"pciEarfcn":1575,"pci":161,"rawEarfcn":null,"rawPci":"27,06,a1,00","conflict":false},"message":"Записано. Изменения вступят в силу после перезагрузки модема."}"#.to_string()
        )
    );
    assert_eq!(
        work(&mut port, &mut demo, &known, Job::LockPci(1, 504)),
        (400, r#"{"error":"PCI 504 вне диапазона 0..503"}"#.to_string())
    );
    let (status, text) = work(&mut port, &mut demo, &known, Job::Status);
    assert_eq!(status, 200);
    assert!(text.starts_with(
        r#"{"transport":"here","info":"Foxconn\nT77W968\nRevision: DEMO.0.0","caps":{"efs":true,"#
    ));
    assert!(text.contains(r#""lock":{"earfcn":null,"pciEarfcn":1575,"pci":161"#));
    assert!(text.contains(r#""signal":{"rsrp":null"#));
    let (status, text) = work(&mut port, &mut demo, &known, Job::Unlock);
    assert_eq!(status, 200);
    assert!(text.starts_with(r#"{"lock":{"earfcn":null,"pciEarfcn":null,"pci":null"#));
    assert_eq!(
        work(&mut port, &mut demo, &known, Job::Reset).1,
        r#"{"message":"Модем перезагружается, связь восстановится через 30-60 с"}"#
    );
    assert_eq!(
        work(&mut port, &mut demo, &known, Job::ReadBands).1,
        r#"{"raw":"+GTACT: 2,,,8000084"}"#
    );
    assert_eq!(
        work(&mut port, &mut demo, &known, Job::SetBands("84".to_string())).1,
        r#"{"message":"Маска записана, требуется перезагрузка модема"}"#
    );
    assert_eq!(
        work(&mut port, &mut demo, &known, Job::SetBands("zz".to_string())),
        (400, r#"{"error":"маска бэндов должна быть hex-числом"}"#.to_string())
    );
    assert_eq!(
        work(&mut port, &mut demo, &known, Job::RawAt("AT+X".to_string())).1,
        r#"{"raw":"ERROR\r\n","body":"","ok":false,"error":"ERROR"}"#
    );
}

#[test]
fn status_does_without_the_locks() {
    let mut log = Transcript::new();
    log.replies.push(Err("gone".to_string()));
    match perform(&Job::Status, "t", &Modem::new(), &Signal::default(), &log) {
        Step::Done(r) => assert!(body(r).contains(r#""lock":{"earfcn":null"#)),
        other => panic!("{:?}", other),
    }
    match perform(&Job::Unlock, "t", &Modem::new(), &Signal::default(), &log) {
        Step::Done(r) => assert_eq!(body(r), r#"{"error":"gone"}"#),
        other => panic!("{:?}", other),
    }
    // A modem that does not keep what is written to it.
    let mut log = Transcript::new();
    log.replies.push(Ok(parse_response("", "OK")));
    log.replies.push(Ok(parse_response("", "^EFS: x, 01\r\nOK")));
    assert!(matches!(
        perform(&Job::Unlock, "t", &Modem::new(), &Signal::default(), &log),
        Step::Fallback
    ));
    log.switches.push(false);
    match perform(&Job::Unlock, "t", &Modem::new(), &Signal::default(), &log) {
        Step::Done(r) => {
            assert_eq!(r.status, 400);
            assert!(body(r).contains(EFS_EARFCN));
        }
        other => panic!("{:?}", other),
    }
}
