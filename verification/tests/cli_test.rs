use tesseras_repl::cli::{
    bind_address, check_address, choose_editor, choose_step, parse_addr, parse_args, split_addr,
    ArgError, ArgStep, CliOpts, GivenOptions, ListenAddr, Listener, DEFAULT_PORT,
};

fn addr(s: &str, check: Result<(), String>) -> Result<ListenAddr, ArgError> {
    let (ip, port) = split_addr(s);
    parse_addr(&ip, &port, check)
}

fn listener(ip: &str, port: u16, ipv6_only: bool) -> Listener {
    Listener { ip: ip.into(), port, ipv6_only }
}

fn bad_ip() -> Result<(), String> {
    Err("invalid IP address syntax".into())
}

fn run(args: &[&str]) -> Result<ArgStep, ArgError> {
    let args: Vec<String> = args.iter().map(|a| a.to_string()).collect();
    parse_args(&args)
}

fn options(args: &[&str]) -> CliOpts {
    match run(args) {
        Ok(ArgStep::Run(o)) => o,
        other => panic!("{other:?}"),
    }
}

fn message(args: &[&str]) -> String {
    match run(args) {
        Ok(ArgStep::CheckAddress(a)) => match check_address(a, Ok(())) {
            Err(e) => e.message(),
            Ok(o) => panic!("{o:?}"),
        },
        Err(e) => e.message(),
        other => panic!("{other:?}"),
    }
}

#[test]
fn addr_ip_only() {
    let addr = addr("127.0.0.1", Ok(())).unwrap();
    assert_eq!(addr.ip, "127.0.0.1");
    assert_eq!(addr.port, 0);
}

#[test]
fn addr_with_port() {
    let addr = addr("127.0.0.1@8080", Ok(())).unwrap();
    assert_eq!(addr.ip, "127.0.0.1");
    assert_eq!(addr.port, 8080);
}

#[test]
fn addr_ipv6() {
    let addr = addr("::1@9000", Ok(())).unwrap();
    assert_eq!(addr.ip, "::1");
    assert_eq!(addr.port, 9000);
}

#[test]
fn addr_invalid_ip() {
    assert_eq!(split_addr("not-an-ip"), ("not-an-ip".into(), None));
    assert!(addr("not-an-ip", bad_ip()).is_err());
}

#[test]
fn addr_invalid_port() {
    assert!(addr("127.0.0.1@notaport", Ok(())).is_err());
}

#[test]
fn addr_errors_in_words() {
    assert_eq!(
        addr("x@y@8080", bad_ip()).unwrap_err().message(),
        "bad IP 'x@y': invalid IP address syntax"
    );
    assert_eq!(
        addr("::1@", Ok(())).unwrap_err().message(),
        "bad port '': cannot parse integer from empty string"
    );
    assert_eq!(
        addr("::1@65536", Ok(())).unwrap_err().message(),
        "bad port '65536': number too large to fit in target type"
    );
}

#[test]
fn no_options_listen_on_any_address() {
    let o = options(&[]);
    assert_eq!(
        o,
        CliOpts {
            bind_addr: None,
            port: DEFAULT_PORT,
            ipv4_only: false,
            ipv6_only: false,
            data_dir: None
        }
    );
    assert_eq!(bind_address(&o), listener("::", 4433, false));
}

#[test]
fn families_ports_and_directories() {
    let o = options(&["-4", "-p", "5000", "-D", "/tmp/x"]);
    assert_eq!(bind_address(&o), listener("0.0.0.0", 5000, false));
    assert_eq!(o.data_dir.as_deref(), Some("/tmp/x"));
    let o = options(&["-6", "--port=1", "--datadir", "d"]);
    assert_eq!(bind_address(&o), listener("::", 1, true));
    assert_eq!(o.data_dir.as_deref(), Some("d"));
}

#[test]
fn ipv6_alone_is_not_the_default() {
    assert_ne!(options(&["-6"]), options(&[]));
    assert_eq!(bind_address(&options(&["-6"])), listener("::", 4433, true));
    let step = run(&["-6", "-a", "::@5", "-D", "d"]);
    let Ok(ArgStep::CheckAddress(a)) = step else { panic!("{step:?}") };
    assert!(!a.port_given && a.port.is_none());
    assert_eq!(bind_address(&check_address(a, Ok(())).unwrap()), listener("::", 5, true));
}

#[test]
fn addresses_are_checked_outside() {
    let step = run(&["-4", "-a", "10.0.0.1@7", "-D", "d"]);
    let Ok(ArgStep::CheckAddress(a)) = step else { panic!("{step:?}") };
    assert_eq!(a.ip, "10.0.0.1");
    let o = check_address(a, Ok(())).unwrap();
    assert_eq!(
        o,
        CliOpts {
            bind_addr: Some(ListenAddr { ip: "10.0.0.1".into(), port: 7 }),
            port: DEFAULT_PORT,
            ipv4_only: true,
            ipv6_only: false,
            data_dir: Some("d".into())
        }
    );
    assert_eq!(bind_address(&o), listener("10.0.0.1", 7, false));
    let step = run(&["--address", "nowhere"]);
    let Ok(ArgStep::CheckAddress(a)) = step else { panic!("{step:?}") };
    assert_eq!(
        check_address(a, bad_ip()).unwrap_err().message(),
        "bad IP 'nowhere': invalid IP address syntax"
    );
}

#[test]
fn refused_command_lines() {
    assert_eq!(message(&["-4", "-6"]), "cannot use both -4 and -6");
    assert_eq!(message(&["-p", "x"]), "bad port 'x': invalid digit found in string");
    assert_eq!(
        message(&["-a", "::1", "-p", "1"]),
        "-a and -p are mutually exclusive (use -a ip@port)"
    );
    assert_eq!(
        message(&["-a", "::1", "-p", "x"]),
        "bad port 'x': invalid digit found in string"
    );
    assert_eq!(message(&["-x"]), "Unrecognized option: 'x'");
    assert_eq!(message(&["-a"]), "Argument to option 'a' missing");
    assert_eq!(message(&["-p", "1", "-p", "2"]), "Option 'port' given more than once");
}

#[test]
fn help_and_version_win() {
    let step = run(&["-4", "-6", "-v", "-h", "-p", "x"]);
    let Ok(ArgStep::ShowHelp(text)) = step else { panic!("{step:?}") };
    assert!(text.starts_with("Usage: tesseras-repl [options]\n\nOptions:\n"));
    assert!(text.contains("-4                  Only listen to IPv4 connections"));
    assert!(text.contains("-a, --address ADDR  Listen address ip[@port]"));
    assert!(text.contains("-p, --port PORT     Listen port (default: 4433)"));
    assert!(text.contains("-D, --datadir DIR   Data directory"));
    assert!(text.contains("-h, --help          Print help information and exit"));
    assert!(matches!(run(&["--version", "-4", "-6"]), Ok(ArgStep::ShowVersion)));
}

#[test]
fn given_options_decide_alone() {
    let g = GivenOptions {
        help: true,
        version: true,
        ipv4: true,
        ipv6: true,
        address: None,
        port: None,
        port_given: false,
        data_dir: None,
    };
    assert_eq!(choose_step(g, "text".into()), Ok(ArgStep::ShowHelp("text".into())));
}

#[test]
fn editors_in_turn() {
    assert_eq!(choose_editor(Some("a".into()), Some("b".into())), "a");
    assert_eq!(choose_editor(None, Some("b".into())), "b");
    assert_eq!(choose_editor(None, None), "vi");
}
