use modemui::cli::{parse_args, usage, Config, Invocation};

fn args(words: &[&str]) -> Vec<String> {
    words.iter().map(|w| w.to_string()).collect()
}

fn config(words: &[&str]) -> Config {
    match parse_args(&args(words)) {
        Ok(Invocation::Run(c)) => c,
        other => panic!("{:?}", other),
    }
}

#[test]
fn defaults() {
    let c = config(&[]);
    assert_eq!(c.listen, "0.0.0.0:1010");
    assert!(c.iface.is_none() && c.dev.is_none() && c.user.is_none() && c.pass.is_none());
    assert!(!c.demo);
    assert!(c.auth().is_none());
}

#[test]
fn options_are_read() {
    let c = config(&[
        "-l", "127.0.0.1:80", "-i", "UsbQmi0", "-d", "/dev/x", "-u", "me", "-p", "secret", "--demo",
    ]);
    assert_eq!(c.listen, "127.0.0.1:80");
    assert_eq!(c.iface.as_deref(), Some("UsbQmi0"));
    assert_eq!(c.dev.as_deref(), Some("/dev/x"));
    assert!(c.demo);
    assert_eq!(c.auth(), Some(("me".to_string(), "secret".to_string())));
    let c = config(&["--listen", "a", "--listen", "b", "--user", "--pass"]);
    assert_eq!(c.listen, "b");
    assert_eq!(c.user.as_deref(), Some("--pass"));
    assert!(c.auth().is_none());
}

#[test]
fn long_options_are_read() {
    let c = config(&["--iface", "i", "--dev", "d", "--pass", "p"]);
    assert_eq!(
        (c.iface.as_deref(), c.dev.as_deref(), c.pass.as_deref()),
        (Some("i"), Some("d"), Some("p"))
    );
}

#[test]
fn wrong_options_are_explained() {
    assert_eq!(
        parse_args(&args(&["-x"])).err().as_deref(),
        Some("неизвестный аргумент: -x")
    );
    for (short, long) in [
        ("-l", "--listen"),
        ("-i", "--iface"),
        ("-d", "--dev"),
        ("-u", "--user"),
        ("-p", "--pass"),
    ] {
        assert_eq!(
            parse_args(&args(&["--demo", short])).err(),
            Some(format!("{} требует значение", long))
        );
    }
}

#[test]
fn help_comes_first() {
    assert!(matches!(parse_args(&args(&["-h", "-x"])), Ok(Invocation::Help)));
    assert!(matches!(parse_args(&args(&["--help"])), Ok(Invocation::Help)));
    assert!(parse_args(&args(&["-x", "-h"])).is_err());
    assert_eq!(
        usage("1.2.3"),
        "modemui 1.2.3 - веб-интерфейс LTE-модема для Keenetic

Использование: modemui [флаги]

  -l, --listen <addr:port>  адрес прослушивания (по умолчанию 0.0.0.0:1010)
  -i, --iface <IF>          интерфейс ndmc (UsbQmi0/UsbLte0), иначе автоопределение
  -d, --dev <path>          AT-порт напрямую (/dev/ttyACM0), иначе автоопределение
  -u, --user <name>         логин Basic-аутентификации
  -p, --pass <pass>         пароль Basic-аутентификации
      --demo                фиктивный модем: посмотреть интерфейс без железа
  -h, --help                эта справка

Без -u/-p интерфейс доступен без пароля всем в локальной сети."
    );
}
