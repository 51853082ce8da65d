//! The command line of the program.

use crate::numbers;
use crate::text;
use vstd::prelude::*;
use vstd::string::*;

verus! {

pub const DEFAULT_PORT: u16 = 1010;

/// How often the metrics are polled, in seconds.
pub const POLL_INTERVAL: u64 = 5;

/// How the program is to run.
#[derive(Debug)]
pub struct Config {
    /// Where to listen.
    pub listen: String,
    /// The interface of the router to use.
    pub iface: Option<String>,
    /// The device to use.
    pub dev: Option<String>,
    pub user: Option<String>,
    pub pass: Option<String>,
    /// Whether to use a made-up modem.
    pub demo: bool,
}

/// A configuration as a mathematical value.
pub struct Settings {
    pub listen: Seq<char>,
    pub iface: Option<Seq<char>>,
    pub dev: Option<Seq<char>>,
    pub user: Option<Seq<char>>,
    pub pass: Option<Seq<char>>,
    pub demo: bool,
}

impl View for Config {
    type V = Settings;

    open spec fn view(&self) -> Settings {
        Settings {
            listen: self.listen@,
            iface: self.iface.deep_view(),
            dev: self.dev.deep_view(),
            user: self.user.deep_view(),
            pass: self.pass.deep_view(),
            demo: self.demo,
        }
    }
}

/// Without arguments, the program listens everywhere and looks for the modem by itself.
pub open spec fn default_settings() -> Settings {
    Settings {
        listen: "0.0.0.0:"@ + numbers::decimal(DEFAULT_PORT as nat),
        iface: None,
        dev: None,
        user: None,
        pass: None,
        demo: false,
    }
}

impl Default for Config {
    fn default() -> (r: Config)
        ensures
            r@ == default_settings(),
    {
        let mut listen = text::chars_of("0.0.0.0:");
        numbers::add_decimal(&mut listen, DEFAULT_PORT as u64);
        Config {
            listen: text::string_of(listen.as_slice()),
            iface: None,
            dev: None,
            user: None,
            pass: None,
            demo: false,
        }
    }
}

/// The credentials that are set: only a user and a password together count.
pub open spec fn credentials_set(s: Settings) -> Option<(Seq<char>, Seq<char>)> {
    match (s.user, s.pass) {
        (Some(u), Some(p)) => Some((u, p)),
        _ => None,
    }
}

impl Config {
    pub fn auth(&self) -> (r: Option<(String, String)>)
        ensures
            crate::http::auth_view(r) == credentials_set(self@),
    {
        match (&self.user, &self.pass) {
            (Some(u), Some(p)) => Some((u.clone(), p.clone())),
            _ => None,
        }
    }
}

/// What the command line asks for.
#[derive(Debug)]
pub enum Invocation {
    Run(Config),
    Help,
}

/// The outcome of reading the command line, as a mathematical value.
pub enum Asked {
    Run(Settings),
    Help,
    Wrong(Seq<char>),
}

pub open spec fn asked(r: Result<Invocation, String>) -> Asked {
    match r {
        Ok(Invocation::Run(c)) => Asked::Run(c@),
        Ok(Invocation::Help) => Asked::Help,
        Err(e) => Asked::Wrong(e@),
    }
}

/// The options that take a value.
#[derive(Debug, Clone, Copy, PartialEq, Eq, Structural)]
pub enum Key {
    Listen,
    Iface,
    Dev,
    User,
    Pass,
}

/// The option that an argument names, if it is one that takes a value.
pub open spec fn key_of(a: Seq<char>) -> Option<Key> {
    if a == "-l"@ || a == "--listen"@ {
        Some(Key::Listen)
    } else if a == "-i"@ || a == "--iface"@ {
        Some(Key::Iface)
    } else if a == "-d"@ || a == "--dev"@ {
        Some(Key::Dev)
    } else if a == "-u"@ || a == "--user"@ {
        Some(Key::User)
    } else if a == "-p"@ || a == "--pass"@ {
        Some(Key::Pass)
    } else {
        None
    }
}

pub open spec fn key_name(k: Key) -> Seq<char> {
    match k {
        Key::Listen => "--listen"@,
        Key::Iface => "--iface"@,
        Key::Dev => "--dev"@,
        Key::User => "--user"@,
        Key::Pass => "--pass"@,
    }
}

/// Settings with one option set.
pub open spec fn with_value(s: Settings, k: Key, v: Seq<char>) -> Settings {
    match k {
        Key::Listen => Settings { listen: v, ..s },
        Key::Iface => Settings { iface: Some(v), ..s },
        Key::Dev => Settings { dev: Some(v), ..s },
        Key::User => Settings { user: Some(v), ..s },
        Key::Pass => Settings { pass: Some(v), ..s },
    }
}

/// What some arguments ask for, after those before gave the settings `s`.
pub open spec fn reading(s: Settings, args: Seq<Seq<char>>) -> Asked
    decreases args.len(),
{
    if args.len() == 0 {
        Asked::Run(s)
    } else {
        match key_of(args[0]) {
            Some(k) => if args.len() == 1 {
                Asked::Wrong(key_name(k) + " требует значение"@)
            } else {
                reading(with_value(s, k, args[1]), args.skip(2))
            },
            None => if args[0] == "--demo"@ {
                reading(Settings { demo: true, ..s }, args.skip(1))
            } else if args[0] == "-h"@ || args[0] == "--help"@ {
                Asked::Help
            } else {
                Asked::Wrong("неизвестный аргумент: "@ + args[0])
            },
        }
    }
}

fn find_key(a: &[char]) -> (r: Option<Key>)
    ensures
        r == key_of(a@),
{
    if text::reads(a, "-l") || text::reads(a, "--listen") {
        Some(Key::Listen)
    } else if text::reads(a, "-i") || text::reads(a, "--iface") {
        Some(Key::Iface)
    } else if text::reads(a, "-d") || text::reads(a, "--dev") {
        Some(Key::Dev)
    } else if text::reads(a, "-u") || text::reads(a, "--user") {
        Some(Key::User)
    } else if text::reads(a, "-p") || text::reads(a, "--pass") {
        Some(Key::Pass)
    } else {
        None
    }
}

fn name_of(k: Key) -> (r: String)
    ensures
        r@ == key_name(k),
{
    match k {
        Key::Listen => "--listen".to_owned(),
        Key::Iface => "--iface".to_owned(),
        Key::Dev => "--dev".to_owned(),
        Key::User => "--user".to_owned(),
        Key::Pass => "--pass".to_owned(),
    }
}

fn set_value(c: &mut Config, k: Key, v: String)
    ensures
        final(c)@ == with_value(old(c)@, k, v@),
{
    match k {
        Key::Listen => {
            c.listen = v;
        },
        Key::Iface => {
            c.iface = Some(v);
        },
        Key::Dev => {
            c.dev = Some(v);
        },
        Key::User => {
            c.user = Some(v);
        },
        Key::Pass => {
            c.pass = Some(v);
        },
    }
}

/// Read the arguments of the program, without its name.
pub fn parse_args(args: &Vec<String>) -> (r: Result<Invocation, String>)
    ensures
        asked(r) == reading(default_settings(), args.deep_view()),
{
    let mut cfg = Config::default();
    let ghost all = args.deep_view();
    let mut i: usize = 0;
    assert(all.skip(0) == all);
    while i < args.len()
        invariant
            all == args.deep_view(),
            i <= args.len(),
            reading(cfg@, all.skip(i as int)) == reading(default_settings(), all),
        decreases args.len() - i,
    {
        let ghost rest = all.skip(i as int);
        assert(rest[0] == args@[i as int]@);
        assert(rest.skip(1) == all.skip(i + 1));
        let a = text::chars_of(args[i].as_str());
        match find_key(a.as_slice()) {
            Some(k) => {
                if args.len() - i == 1 {
                    let mut e = name_of(k);
                    e.append(" требует значение");
                    return Err(e);
                }
                assert(rest[1] == args@[i + 1]@);
                assert(rest.skip(2) == all.skip(i + 2));
                set_value(&mut cfg, k, args[i + 1].clone());
                i += 2;
            },
            None => {
                if text::reads(a.as_slice(), "--demo") {
                    cfg.demo = true;
                } else if text::reads(a.as_slice(), "-h") || text::reads(a.as_slice(), "--help") {
                    return Ok(Invocation::Help);
                } else {
                    let mut e = "неизвестный аргумент: ".to_owned();
                    e.append(args[i].as_str());
                    return Err(e);
                }
                i += 1;
            },
        }
    }
    Ok(Invocation::Run(cfg))
}

/// The help.
pub open spec fn usage_text(version: Seq<char>) -> Seq<char> {
    "modemui "@ + version
        + " - веб-интерфейс LTE-модема для Keenetic\n\nИспользование: modemui [флаги]\n\n  -l, --listen <addr:port>  адрес прослушивания (по умолчанию 0.0.0.0:"@
        + numbers::decimal(DEFAULT_PORT as nat)
        + ")\n  -i, --iface <IF>          интерфейс ndmc (UsbQmi0/UsbLte0), иначе автоопределение\n  -d, --dev <path>          AT-порт напрямую (/dev/ttyACM0), иначе автоопределение\n  -u, --user <name>         логин Basic-аутентификации\n  -p, --pass <pass>         пароль Basic-аутентификации\n      --demo                фиктивный модем: посмотреть интерфейс без железа\n  -h, --help                эта справка\n\nБез -u/-p интерфейс доступен без пароля всем в локальной сети."@
}

/// The help, for a version of the program.
pub fn usage(version: &str) -> (r: String)
    ensures
        r@ == usage_text(version@),
{
    let mut out = text::chars_of("modemui ");
    text::add_str(&mut out, version);
    text::add_str(
        &mut out,
        " - веб-интерфейс LTE-модема для Keenetic\n\nИспользование: modemui [флаги]\n\n  -l, --listen <addr:port>  адрес прослушивания (по умолчанию 0.0.0.0:",
    );
    numbers::add_decimal(&mut out, DEFAULT_PORT as u64);
    text::add_str(
        &mut out,
        ")\n  -i, --iface <IF>          интерфейс ndmc (UsbQmi0/UsbLte0), иначе автоопределение\n  -d, --dev <path>          AT-порт напрямую (/dev/ttyACM0), иначе автоопределение\n  -u, --user <name>         логин Basic-аутентификации\n  -p, --pass <pass>         пароль Basic-аутентификации\n      --demo                фиктивный модем: посмотреть интерфейс без железа\n  -h, --help                эта справка\n\nБез -u/-p интерфейс доступен без пароля всем в локальной сети.",
    );
    text::string_of(out.as_slice())
}

// ---------------------------------------------------------------------------
// Laws
// ---------------------------------------------------------------------------
/// A value that is given twice counts as it was given last.
pub proof fn theorem_last_value_counts(s: Settings, k: Key, first: Seq<char>, last: Seq<char>)
    ensures
        with_value(with_value(s, k, first), k, last) == with_value(s, k, last),
{
}

proof fn lemma_keys()
    ensures
        key_of("-l"@) == Some(Key::Listen),
        key_of("--listen"@) == Some(Key::Listen),
        key_of("-i"@) == Some(Key::Iface),
        key_of("--iface"@) == Some(Key::Iface),
        key_of("-d"@) == Some(Key::Dev),
        key_of("--dev"@) == Some(Key::Dev),
        key_of("-u"@) == Some(Key::User),
        key_of("--user"@) == Some(Key::User),
        key_of("-p"@) == Some(Key::Pass),
        key_of("--pass"@) == Some(Key::Pass),
        key_of("--demo"@) is None,
        key_of("-h"@) is None,
        key_of("--help"@) is None,
        "-h"@ != "--demo"@,
        "--help"@ != "--demo"@,
{
    reveal_strlit("-l");
    reveal_strlit("--listen");
    reveal_strlit("-i");
    reveal_strlit("--iface");
    reveal_strlit("-d");
    reveal_strlit("--dev");
    reveal_strlit("-u");
    reveal_strlit("--user");
    reveal_strlit("-p");
    reveal_strlit("--pass");
    reveal_strlit("--demo");
    reveal_strlit("-h");
    reveal_strlit("--help");
    assert("-l"@.len() == 2 && "-l"@[1] == 'l');
    assert("--listen"@.len() == 8 && "--listen"@[1] == '-');
    assert("-i"@.len() == 2 && "-i"@[1] == 'i');
    assert("--iface"@.len() == 7 && "--iface"@[1] == '-');
    assert("-d"@.len() == 2 && "-d"@[1] == 'd');
    assert("--dev"@.len() == 5 && "--dev"@[1] == '-');
    assert("-u"@.len() == 2 && "-u"@[1] == 'u');
    assert("--user"@.len() == 6 && "--user"@[1] == '-');
    assert("--user"@[2] == 'u' && "--user"@[5] == 'r');
    assert("-p"@.len() == 2 && "-p"@[1] == 'p');
    assert("--pass"@.len() == 6 && "--pass"@[1] == '-');
    assert("--pass"@[2] == 'p' && "--pass"@[5] == 's');
    assert("--demo"@.len() == 6 && "--demo"@[1] == '-');
    assert("--demo"@[2] == 'd' && "--demo"@[5] == 'o');
    assert("-h"@.len() == 2 && "-h"@[1] == 'h');
    assert("--help"@.len() == 6 && "--help"@[1] == '-');
    assert("--help"@[2] == 'h' && "--help"@[5] == 'p');
}

/// Each option, by its short and by its long name, sets what it is for to the argument after it,
/// and nothing else.
pub proof fn theorem_options(s: Settings, v: Seq<char>, rest: Seq<Seq<char>>)
    ensures
        reading(s, seq!["-l"@, v] + rest) == reading(Settings { listen: v, ..s }, rest),
        reading(s, seq!["--listen"@, v] + rest) == reading(Settings { listen: v, ..s }, rest),
        reading(s, seq!["-i"@, v] + rest) == reading(Settings { iface: Some(v), ..s }, rest),
        reading(s, seq!["--iface"@, v] + rest) == reading(Settings { iface: Some(v), ..s }, rest),
        reading(s, seq!["-d"@, v] + rest) == reading(Settings { dev: Some(v), ..s }, rest),
        reading(s, seq!["--dev"@, v] + rest) == reading(Settings { dev: Some(v), ..s }, rest),
        reading(s, seq!["-u"@, v] + rest) == reading(Settings { user: Some(v), ..s }, rest),
        reading(s, seq!["--user"@, v] + rest) == reading(Settings { user: Some(v), ..s }, rest),
        reading(s, seq!["-p"@, v] + rest) == reading(Settings { pass: Some(v), ..s }, rest),
        reading(s, seq!["--pass"@, v] + rest) == reading(Settings { pass: Some(v), ..s }, rest),
        reading(s, seq!["--demo"@] + rest) == reading(Settings { demo: true, ..s }, rest),
{
    lemma_keys();
    assert((seq!["-l"@, v] + rest).skip(2) == rest);
    assert((seq!["--listen"@, v] + rest).skip(2) == rest);
    assert((seq!["-i"@, v] + rest).skip(2) == rest);
    assert((seq!["--iface"@, v] + rest).skip(2) == rest);
    assert((seq!["-d"@, v] + rest).skip(2) == rest);
    assert((seq!["--dev"@, v] + rest).skip(2) == rest);
    assert((seq!["-u"@, v] + rest).skip(2) == rest);
    assert((seq!["--user"@, v] + rest).skip(2) == rest);
    assert((seq!["-p"@, v] + rest).skip(2) == rest);
    assert((seq!["--pass"@, v] + rest).skip(2) == rest);
    assert((seq!["--demo"@] + rest).skip(1) == rest);
}

/// An option without an argument after it is refused by its long name.
pub proof fn theorem_missing_values(s: Settings)
    ensures
        reading(s, seq!["-l"@]) == Asked::Wrong("--listen"@ + " требует значение"@),
        reading(s, seq!["--listen"@]) == Asked::Wrong("--listen"@ + " требует значение"@),
        reading(s, seq!["-i"@]) == Asked::Wrong("--iface"@ + " требует значение"@),
        reading(s, seq!["--iface"@]) == Asked::Wrong("--iface"@ + " требует значение"@),
        reading(s, seq!["-d"@]) == Asked::Wrong("--dev"@ + " требует значение"@),
        reading(s, seq!["--dev"@]) == Asked::Wrong("--dev"@ + " требует значение"@),
        reading(s, seq!["-u"@]) == Asked::Wrong("--user"@ + " требует значение"@),
        reading(s, seq!["--user"@]) == Asked::Wrong("--user"@ + " требует значение"@),
        reading(s, seq!["-p"@]) == Asked::Wrong("--pass"@ + " требует значение"@),
        reading(s, seq!["--pass"@]) == Asked::Wrong("--pass"@ + " требует значение"@),
{
    lemma_keys();
}

/// Without arguments left the program runs; the help ends the reading, whatever comes after it;
/// and an argument that is none of the options is refused by its name.
pub proof fn theorem_other_arguments(s: Settings, a: Seq<char>, rest: Seq<Seq<char>>)
    requires
        key_of(a) is None,
        a != "--demo"@,
        a != "-h"@,
        a != "--help"@,
    ensures
        reading(s, seq![]) == Asked::Run(s),
        reading(s, seq!["-h"@] + rest) == Asked::Help,
        reading(s, seq!["--help"@] + rest) == Asked::Help,
        reading(s, seq![a] + rest) == Asked::Wrong("неизвестный аргумент: "@ + a),
{
    lemma_keys();
}

/// Without arguments the program listens on port 1010 of every address, looks for the modem
/// itself, and asks nobody for a password.
pub proof fn theorem_defaults()
    ensures
        default_settings() == (Settings {
            listen: "0.0.0.0:1010"@,
            iface: None,
            dev: None,
            user: None,
            pass: None,
            demo: false,
        }),
{
    reveal_strlit("0.0.0.0:");
    reveal_strlit("0.0.0.0:1010");
    reveal_with_fuel(numbers::decimal, 5);
    assert("0.0.0.0:"@ + numbers::decimal(1010) == "0.0.0.0:1010"@);
}

/// A password is asked for exactly if both a user and a password are set, and then for these.
pub proof fn theorem_credentials_need_both(s: Settings, u: Seq<char>, p: Seq<char>)
    ensures
        credentials_set(Settings { user: Some(u), pass: Some(p), ..s }) == Some((u, p)),
        credentials_set(Settings { user: None, ..s }) is None,
        credentials_set(Settings { pass: None, ..s }) is None,
{
}

} // verus!
