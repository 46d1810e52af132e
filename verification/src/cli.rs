//! The command line of the shell.

use crate::number::{
    decimal, lemma_decimal, number_up_to, numbers_read_back_with_sign_and_zeros, parse_number,
    write_number, written_numbers_read_back, NumberError,
};
use crate::protocol::result_of;
use crate::text::{
    contains_text, fill, lemma_find_last_char, rsplit_once, split_last, text_of, texts,
    texts_are_found_anywhere,
};
use crate::tokens::copy_name;
use vstd::prelude::*;
use vstd::string::*;

verus! {

/// Default listen port of the node.
pub const DEFAULT_PORT: u16 = 4433;

/// An address to listen on.
#[derive(Debug, PartialEq)]
pub struct ListenAddr<T = String> {
    pub ip: T,
    pub port: u16,
}

/// What the node listens on: an address, and whether IPv6 connections alone are taken there.
#[derive(Debug, PartialEq)]
pub struct Listener<T = String> {
    pub ip: T,
    pub port: u16,
    pub ipv6_only: bool,
}

/// How the shell is to run.
#[derive(Debug, PartialEq)]
pub struct CliOpts<T = String> {
    pub bind_addr: Option<ListenAddr<T>>,
    pub port: u16,
    pub ipv4_only: bool,
    pub ipv6_only: bool,
    pub data_dir: Option<T>,
}

/// The options that were given.
pub struct GivenOptions<T = String> {
    pub help: bool,
    pub version: bool,
    pub ipv4: bool,
    pub ipv6: bool,
    pub address: Option<T>,
    pub port: Option<T>,
    pub port_given: bool,
    pub data_dir: Option<T>,
}

/// A listen address that was given: its IP, whose form is still to be checked, the port behind
/// it, and what else the command line holds.
#[derive(Debug, PartialEq)]
pub struct AddressArgs<T = String> {
    pub ip: T,
    pub ip_port: Option<T>,
    pub port: Option<T>,
    pub port_given: bool,
    pub ipv4_only: bool,
    pub ipv6_only: bool,
    pub data_dir: Option<T>,
}

/// What the command line asks for.
#[derive(Debug, PartialEq)]
pub enum ArgStep<T = String> {
    /// Print this text and stop.
    ShowHelp(T),
    /// Print the version and stop.
    ShowVersion,
    /// Check the form of the IP, then go on with `check_address`.
    CheckAddress(AddressArgs<T>),
    /// Run with these options.
    Run(CliOpts<T>),
}

/// Why a command line is refused.
#[derive(Debug, PartialEq)]
pub enum ArgError<T = String> {
    /// The options are not used as declared.
    Usage(T),
    /// `-4` and `-6` are both given.
    BothFamilies,
    /// The IP has not the form of one.
    BadIp { ip: T, reason: T },
    /// The port is not a number up to 65535.
    BadPort { port: T, reason: NumberError },
    /// `-a` and `-p` are both given.
    AddressAndPort,
}

impl View for ListenAddr<String> {
    type V = ListenAddr<Seq<char>>;

    open spec fn view(&self) -> ListenAddr<Seq<char>> {
        ListenAddr { ip: self.ip@, port: self.port }
    }
}

impl View for Listener<String> {
    type V = Listener<Seq<char>>;

    open spec fn view(&self) -> Listener<Seq<char>> {
        Listener { ip: self.ip@, port: self.port, ipv6_only: self.ipv6_only }
    }
}

impl View for CliOpts<String> {
    type V = CliOpts<Seq<char>>;

    open spec fn view(&self) -> CliOpts<Seq<char>> {
        CliOpts {
            bind_addr: match self.bind_addr {
                Some(a) => Some(a@),
                None => None,
            },
            port: self.port,
            ipv4_only: self.ipv4_only,
            ipv6_only: self.ipv6_only,
            data_dir: text_of(self.data_dir),
        }
    }
}

impl View for GivenOptions<String> {
    type V = GivenOptions<Seq<char>>;

    open spec fn view(&self) -> GivenOptions<Seq<char>> {
        GivenOptions {
            help: self.help,
            version: self.version,
            ipv4: self.ipv4,
            ipv6: self.ipv6,
            address: text_of(self.address),
            port: text_of(self.port),
            port_given: self.port_given,
            data_dir: text_of(self.data_dir),
        }
    }
}

impl View for AddressArgs<String> {
    type V = AddressArgs<Seq<char>>;

    open spec fn view(&self) -> AddressArgs<Seq<char>> {
        AddressArgs {
            ip: self.ip@,
            ip_port: text_of(self.ip_port),
            port: text_of(self.port),
            port_given: self.port_given,
            ipv4_only: self.ipv4_only,
            ipv6_only: self.ipv6_only,
            data_dir: text_of(self.data_dir),
        }
    }
}

impl View for ArgStep<String> {
    type V = ArgStep<Seq<char>>;

    open spec fn view(&self) -> ArgStep<Seq<char>> {
        match *self {
            ArgStep::ShowHelp(t) => ArgStep::ShowHelp(t@),
            ArgStep::ShowVersion => ArgStep::ShowVersion,
            ArgStep::CheckAddress(a) => ArgStep::CheckAddress(a@),
            ArgStep::Run(o) => ArgStep::Run(o@),
        }
    }
}

impl View for ArgError<String> {
    type V = ArgError<Seq<char>>;

    open spec fn view(&self) -> ArgError<Seq<char>> {
        match *self {
            ArgError::Usage(t) => ArgError::Usage(t@),
            ArgError::BothFamilies => ArgError::BothFamilies,
            ArgError::BadIp { ip, reason } => ArgError::BadIp { ip: ip@, reason: reason@ },
            ArgError::BadPort { port, reason } => ArgError::BadPort { port: port@, reason },
            ArgError::AddressAndPort => ArgError::AddressAndPort,
        }
    }
}

// -- The declared options and what getopts makes of a command line ----------------------------

#[verifier::external_type_specification]
#[verifier::external_body]
pub struct ExOptions(getopts::Options);

#[verifier::external_type_specification]
#[verifier::external_body]
pub struct ExMatches(getopts::Matches);

/// The options that a `getopts::Options` declares, in order: short name, long name, description,
/// hint, and whether a value follows. Each may occur once and may be left out, and options and
/// free arguments may stand in any order: that is how `getopts::Options::new` starts out, and no
/// call made here changes it.
pub uninterp spec fn declared(o: getopts::Options) -> Seq<
    (Seq<char>, Seq<char>, Seq<char>, Seq<char>, bool),
>;

/// What a `getopts::Matches` holds of each option name: one item per occurrence, with the value
/// where one was given.
pub uninterp spec fn occurrences(m: getopts::Matches) -> Map<Seq<char>, Seq<Option<Seq<char>>>>;

/// What `getopts::Options::parse` makes of arguments under the given declarations: the
/// occurrences of each option, or the text of the failure.
pub uninterp spec fn parsed(
    options: Seq<(Seq<char>, Seq<char>, Seq<char>, Seq<char>, bool)>,
    args: Seq<Seq<char>>,
) -> Result<Map<Seq<char>, Seq<Option<Seq<char>>>>, Seq<char>>;

/// What `getopts::Options::usage` prints under the given declarations and headline.
pub uninterp spec fn usage(
    options: Seq<(Seq<char>, Seq<char>, Seq<char>, Seq<char>, bool)>,
    brief: Seq<char>,
) -> Seq<char>;

/// Names that `getopts` accepts: the short one a visible ASCII character or empty, the long one
/// of two characters or more or empty, and one of them not empty.
pub open spec fn names_fit(short: Seq<char>, long: Seq<char>) -> bool {
    &&& short.len() == 0 || short.len() == 1 && '!' as int <= short[0] as int <= '~' as int
    &&& long.len() != 1
    &&& short.len() + long.len() > 0
}

/// All declared options have names that fit.
pub open spec fn all_fit(
    options: Seq<(Seq<char>, Seq<char>, Seq<char>, Seq<char>, bool)>,
) -> bool {
    forall|i: int|
        0 <= i < options.len() ==> names_fit((#[trigger] options[i]).0, options[i].1)
}

/// No two declared options share a name.
pub open spec fn all_differ(
    options: Seq<(Seq<char>, Seq<char>, Seq<char>, Seq<char>, bool)>,
) -> bool {
    forall|i: int, j: int|
        0 <= i < j < options.len() ==> {
            &&& (#[trigger] options[i]).0.len() > 0 ==> options[i].0 != (#[trigger] options[j]).0
            &&& options[i].1.len() > 0 ==> options[i].1 != options[j].1
        }
}

/// The occurrences of an option hold values just when it is declared with one, and there is one
/// at most.
pub open spec fn fit_declaration(list: Seq<Option<Seq<char>>>, has_value: bool) -> bool {
    &&& list.len() <= 1
    &&& forall|k: int| 0 <= k < list.len() ==> (#[trigger] list[k] is Some) == has_value
}

/// Calls `getopts::Options::new`: no option is declared.
#[verifier::external_body]
fn new_options() -> (o: getopts::Options)
    ensures
        declared(o) == Seq::<(Seq<char>, Seq<char>, Seq<char>, Seq<char>, bool)>::empty(),
{
    getopts::Options::new()
}

/// Calls `getopts::Options::optflag`: one more option is declared, without a hint or a value. It
/// panics on names that do not fit.
#[verifier::external_body]
fn add_flag(o: &mut getopts::Options, short: &str, long: &str, desc: &str)
    requires
        names_fit(short@, long@),
    ensures
        declared(*final(o)) == declared(*old(o)).push((short@, long@, desc@, ""@, false)),
{
    o.optflag(short, long, desc);
}

/// Calls `getopts::Options::optopt`: one more option is declared, with a hint and a value. It
/// panics on names that do not fit.
#[verifier::external_body]
fn add_value(o: &mut getopts::Options, short: &str, long: &str, desc: &str, hint: &str)
    requires
        names_fit(short@, long@),
    ensures
        declared(*final(o)) == declared(*old(o)).push((short@, long@, desc@, hint@, true)),
{
    o.optopt(short, long, desc, hint);
}

/// Calls `getopts::Options::parse`: what comes back is what `parsed` says of the declarations
/// and the arguments, a failure by its text. A success knows every declared name; an option occurs
/// once at most, with a value just when it is declared with one. It panics on an option without a
/// name.
#[verifier::external_body]
fn parse_options(o: &getopts::Options, args: &[String]) -> (r: Result<getopts::Matches, String>)
    requires
        all_fit(declared(*o)),
        all_differ(declared(*o)),
    ensures
        match r {
            Ok(m) => parsed(declared(*o), texts(args@)) == Ok::<
                Map<Seq<char>, Seq<Option<Seq<char>>>>,
                Seq<char>,
            >(occurrences(m)),
            Err(e) => parsed(declared(*o), texts(args@)) == Err::<
                Map<Seq<char>, Seq<Option<Seq<char>>>>,
                Seq<char>,
            >(e@),
        },
        r matches Ok(m) ==> forall|i: int|
            #![trigger declared(*o)[i]]
            0 <= i < declared(*o).len() ==> {
                &&& declared(*o)[i].0.len() > 0 ==> occurrences(m).contains_key(declared(*o)[i].0)
                    && fit_declaration(occurrences(m)[declared(*o)[i].0], declared(*o)[i].4)
                &&& declared(*o)[i].1.len() > 0 ==> occurrences(m).contains_key(declared(*o)[i].1)
                    && fit_declaration(occurrences(m)[declared(*o)[i].1], declared(*o)[i].4)
            },
{
    match o.parse(args) {
        Ok(m) => Ok(m),
        Err(e) => Err(e.to_string()),
    }
}

/// Calls `getopts::Options::usage`: the text is `usage` of the declarations and the headline. It
/// panics on a short name that is no single ASCII character.
#[verifier::external_body]
fn usage_text(o: &getopts::Options, brief: &str) -> (r: String)
    requires
        all_fit(declared(*o)),
    ensures
        r@ == usage(declared(*o), brief@),
{
    o.usage(brief)
}

/// Calls `getopts::Matches::opt_present`: whether the option occurs. It panics on a name that was
/// not declared.
#[verifier::external_body]
fn is_given(m: &getopts::Matches, name: &str) -> (r: bool)
    requires
        occurrences(*m).contains_key(name@),
    ensures
        r == (occurrences(*m)[name@].len() > 0),
{
    m.opt_present(name)
}

/// Calls `getopts::Matches::opt_str`: the value of the first occurrence. It panics on a name that
/// was not declared.
#[verifier::external_body]
fn given_value(m: &getopts::Matches, name: &str) -> (r: Option<String>)
    requires
        occurrences(*m).contains_key(name@),
    ensures
        text_of(r) == (if occurrences(*m)[name@].len() > 0 {
            occurrences(*m)[name@][0]
        } else {
            None
        }),
{
    m.opt_str(name)
}

// ---------------------------------------------------------------------------------------------

/// The options of the shell.
pub open spec fn repl_options() -> Seq<(Seq<char>, Seq<char>, Seq<char>, Seq<char>, bool)> {
    seq![
        ("4"@, ""@, "Only listen to IPv4 connections"@, ""@, false),
        ("6"@, ""@, "Only listen to IPv6 connections"@, ""@, false),
        ("h"@, "help"@, "Print help information and exit"@, ""@, false),
        ("v"@, "version"@, "Print version and exit"@, ""@, false),
        ("a"@, "address"@, "Listen address ip[@port]"@, "ADDR"@, true),
        ("D"@, "datadir"@, "Data directory"@, "DIR"@, true),
        (
            "p"@,
            "port"@,
            "Listen port (default: "@ + decimal(DEFAULT_PORT as nat) + ")"@,
            "PORT"@,
            true,
        ),
    ]
}

/// The help text.
pub open spec fn help_text() -> Seq<char> {
    usage(repl_options(), "Usage: tesseras-repl [options]"@)
}

/// An option occurs.
pub open spec fn occurs(m: Map<Seq<char>, Seq<Option<Seq<char>>>>, name: Seq<char>) -> bool {
    m[name].len() > 0
}

/// The value of an option.
pub open spec fn value(m: Map<Seq<char>, Seq<Option<Seq<char>>>>, name: Seq<char>) -> Option<
    Seq<char>,
> {
    if m[name].len() > 0 {
        m[name][0]
    } else {
        None
    }
}

/// The options that were given, from their occurrences.
pub open spec fn given(m: Map<Seq<char>, Seq<Option<Seq<char>>>>) -> GivenOptions<Seq<char>> {
    GivenOptions {
        help: occurs(m, "h"@),
        version: occurs(m, "v"@),
        ipv4: occurs(m, "4"@),
        ipv6: occurs(m, "6"@),
        address: value(m, "a"@),
        port: value(m, "p"@),
        port_given: occurs(m, "p"@),
        data_dir: value(m, "D"@),
    }
}

/// The IP of a listen address, and the port behind its last `@`.
pub open spec fn address_parts(s: Seq<char>) -> (Seq<char>, Option<Seq<char>>) {
    match rsplit_once(s, '@') {
        Some((ip, port)) => (ip, Some(port)),
        None => (s, None),
    }
}

/// A port from its text.
pub open spec fn port_of(s: Seq<char>) -> Result<u16, ArgError<Seq<char>>> {
    match number_up_to(s, 65535) {
        Ok(n) => Ok(n as u16),
        Err(e) => Err(ArgError::BadPort { port: s, reason: e }),
    }
}

/// The listen address, once the form of its IP has been checked; without a port of its own it
/// has port 0.
pub open spec fn listen_addr(
    ip: Seq<char>,
    port: Option<Seq<char>>,
    check: Result<(), Seq<char>>,
) -> Result<ListenAddr<Seq<char>>, ArgError<Seq<char>>> {
    match check {
        Err(reason) => Err(ArgError::BadIp { ip, reason }),
        Ok(_) => match port {
            None => Ok(ListenAddr { ip, port: 0 }),
            Some(p) => match port_of(p) {
                Ok(n) => Ok(ListenAddr { ip, port: n }),
                Err(e) => Err(e),
            },
        },
    }
}

/// The listen port.
pub open spec fn port_or_default(port: Option<Seq<char>>) -> Result<u16, ArgError<Seq<char>>> {
    match port {
        Some(p) => port_of(p),
        None => Ok(DEFAULT_PORT),
    }
}

/// What the given options ask for.
pub open spec fn step_of(g: GivenOptions<Seq<char>>, help: Seq<char>) -> Result<
    ArgStep<Seq<char>>,
    ArgError<Seq<char>>,
> {
    if g.help {
        Ok(ArgStep::ShowHelp(help))
    } else if g.version {
        Ok(ArgStep::ShowVersion)
    } else if g.ipv4 && g.ipv6 {
        Err(ArgError::BothFamilies)
    } else {
        match g.address {
            Some(a) => Ok(
                ArgStep::CheckAddress(
                    AddressArgs {
                        ip: address_parts(a).0,
                        ip_port: address_parts(a).1,
                        port: g.port,
                        port_given: g.port_given,
                        ipv4_only: g.ipv4,
                        ipv6_only: g.ipv6,
                        data_dir: g.data_dir,
                    },
                ),
            ),
            None => match port_or_default(g.port) {
                Ok(port) => Ok(
                    ArgStep::Run(
                        CliOpts {
                            bind_addr: None,
                            port,
                            ipv4_only: g.ipv4,
                            ipv6_only: g.ipv6,
                            data_dir: g.data_dir,
                        },
                    ),
                ),
                Err(e) => Err(e),
            },
        }
    }
}

/// What a command line with a listen address asks for, once the form of the IP has been checked.
pub open spec fn opts_of(a: AddressArgs<Seq<char>>, check: Result<(), Seq<char>>) -> Result<
    CliOpts<Seq<char>>,
    ArgError<Seq<char>>,
> {
    match listen_addr(a.ip, a.ip_port, check) {
        Err(e) => Err(e),
        Ok(addr) => match port_or_default(a.port) {
            Err(e) => Err(e),
            Ok(port) => if a.port_given {
                Err(ArgError::AddressAndPort)
            } else {
                Ok(
                    CliOpts {
                        bind_addr: Some(addr),
                        port,
                        ipv4_only: a.ipv4_only,
                        ipv6_only: a.ipv6_only,
                        data_dir: a.data_dir,
                    },
                )
            },
        },
    }
}

impl ArgError<Seq<char>> {
    /// The error in words.
    pub open spec fn words(self) -> Seq<char> {
        match self {
            ArgError::Usage(t) => t,
            ArgError::BothFamilies => "cannot use both -4 and -6"@,
            ArgError::BadIp { ip, reason } => "bad IP '"@ + ip + "': "@ + reason,
            ArgError::BadPort { port, reason } => "bad port '"@ + port + "': "@ + reason.words(),
            ArgError::AddressAndPort => "-a and -p are mutually exclusive (use -a ip@port)"@,
        }
    }
}

impl ArgError<String> {
    /// The error in words.
    pub fn message(&self) -> (r: String)
        ensures
            r@ == self@.words(),
    {
        match self {
            ArgError::Usage(t) => t.as_str().to_owned(),
            ArgError::BothFamilies => "cannot use both -4 and -6".to_owned(),
            ArgError::BadIp { ip, reason } => {
                let mut r = "bad IP '".to_owned();
                r.append(ip.as_str());
                r.append("': ");
                r.append(reason.as_str());
                r
            },
            ArgError::BadPort { port, reason } => {
                let mut r = "bad port '".to_owned();
                r.append(port.as_str());
                r.append("': ");
                r.append(reason.message().as_str());
                r
            },
            ArgError::AddressAndPort => "-a and -p are mutually exclusive (use -a ip@port)".to_owned(),
        }
    }
}

/// The IP of a listen address, and the port behind its last `@`.
pub fn split_addr(s: &str) -> (r: (String, Option<String>))
    ensures
        (r.0@, text_of(r.1)) == address_parts(s@),
{
    match split_last(s, '@') {
        Some((ip, port)) => (ip.to_owned(), Some(port.to_owned())),
        None => (s.to_owned(), None),
    }
}

fn parse_port(s: &str) -> (r: Result<u16, ArgError>)
    ensures
        match r {
            Ok(p) => port_of(s@) == Ok::<u16, ArgError<Seq<char>>>(p),
            Err(e) => port_of(s@) == Err::<u16, ArgError<Seq<char>>>(e@),
        },
{
    match parse_number(s, 65535) {
        Ok(n) => Ok(n as u16),
        Err(e) => Err(ArgError::BadPort { port: s.to_owned(), reason: e }),
    }
}

/// The listen address from its parts and the outcome of checking the form of its IP.
pub fn parse_addr(ip: &str, port: &Option<String>, check: Result<(), String>) -> (r: Result<
    ListenAddr,
    ArgError,
>)
    ensures
        result_of(r) == listen_addr(
            ip@,
            text_of(*port),
            match check {
                Ok(_) => Ok(()),
                Err(e) => Err(e@),
            },
        ),
{
    match check {
        Err(reason) => Err(ArgError::BadIp { ip: ip.to_owned(), reason }),
        Ok(_) => match port {
            None => Ok(ListenAddr { ip: ip.to_owned(), port: 0 }),
            Some(p) => match parse_port(p.as_str()) {
                Ok(n) => Ok(ListenAddr { ip: ip.to_owned(), port: n }),
                Err(e) => Err(e),
            },
        },
    }
}

fn port_or(port: &Option<String>) -> (r: Result<u16, ArgError>)
    ensures
        match r {
            Ok(p) => port_or_default(text_of(*port)) == Ok::<u16, ArgError<Seq<char>>>(p),
            Err(e) => port_or_default(text_of(*port)) == Err::<u16, ArgError<Seq<char>>>(e@),
        },
{
    match port {
        Some(p) => parse_port(p.as_str()),
        None => Ok(DEFAULT_PORT),
    }
}

/// What the given options ask for; `help` is the help text.
pub fn choose_step(g: GivenOptions, help: String) -> (r: Result<ArgStep, ArgError>)
    ensures
        result_of(r) == step_of(g@, help@),
{
    if g.help {
        return Ok(ArgStep::ShowHelp(help));
    }
    if g.version {
        return Ok(ArgStep::ShowVersion);
    }
    if g.ipv4 && g.ipv6 {
        return Err(ArgError::BothFamilies);
    }
    match &g.address {
        Some(a) => {
            let (ip, ip_port) = split_addr(a.as_str());
            Ok(
                ArgStep::CheckAddress(
                    AddressArgs {
                        ip,
                        ip_port,
                        port: copy_name(&g.port),
                        port_given: g.port_given,
                        ipv4_only: g.ipv4,
                        ipv6_only: g.ipv6,
                        data_dir: copy_name(&g.data_dir),
                    },
                ),
            )
        },
        None => match port_or(&g.port) {
            Ok(port) => Ok(
                ArgStep::Run(
                    CliOpts {
                        bind_addr: None,
                        port,
                        ipv4_only: g.ipv4,
                        ipv6_only: g.ipv6,
                        data_dir: copy_name(&g.data_dir),
                    },
                ),
            ),
            Err(e) => Err(e),
        },
    }
}

/// What a command line with a listen address asks for; `check` is the outcome of checking the
/// form of its IP.
pub fn check_address(a: AddressArgs, check: Result<(), String>) -> (r: Result<CliOpts, ArgError>)
    ensures
        result_of(r) == opts_of(
            a@,
            match check {
                Ok(_) => Ok(()),
                Err(e) => Err(e@),
            },
        ),
{
    let addr = match parse_addr(a.ip.as_str(), &a.ip_port, check) {
        Ok(addr) => addr,
        Err(e) => {
            return Err(e);
        },
    };
    let port = match port_or(&a.port) {
        Ok(port) => port,
        Err(e) => {
            return Err(e);
        },
    };
    if a.port_given {
        return Err(ArgError::AddressAndPort);
    }
    Ok(
        CliOpts {
            bind_addr: Some(addr),
            port,
            ipv4_only: a.ipv4_only,
            ipv6_only: a.ipv6_only,
            data_dir: a.data_dir,
        },
    )
}

fn declare_options() -> (o: getopts::Options)
    ensures
        declared(o) == repl_options(),
        all_fit(declared(o)),
        all_differ(declared(o)),
{
    proof {
        reveal_strlit("4");
        reveal_strlit("6");
        reveal_strlit("h");
        reveal_strlit("v");
        reveal_strlit("a");
        reveal_strlit("D");
        reveal_strlit("p");
        reveal_strlit("");
        reveal_strlit("help");
        reveal_strlit("version");
        reveal_strlit("address");
        reveal_strlit("datadir");
        reveal_strlit("port");
    }
    let mut o = new_options();
    add_flag(&mut o, "4", "", "Only listen to IPv4 connections");
    add_flag(&mut o, "6", "", "Only listen to IPv6 connections");
    add_flag(&mut o, "h", "help", "Print help information and exit");
    add_flag(&mut o, "v", "version", "Print version and exit");
    add_value(&mut o, "a", "address", "Listen address ip[@port]", "ADDR");
    add_value(&mut o, "D", "datadir", "Data directory", "DIR");
    let mut desc = "Listen port (default: ".to_owned();
    desc.append(write_number(DEFAULT_PORT as u64).as_str());
    desc.append(")");
    add_value(&mut o, "p", "port", desc.as_str(), "PORT");
    assert(declared(o) =~= repl_options());
    proof {
        let d = declared(o);
        assert(d[0].0[0] == '4' && d[1].0[0] == '6' && d[2].0[0] == 'h' && d[3].0[0] == 'v');
        assert(d[4].0[0] == 'a' && d[5].0[0] == 'D' && d[6].0[0] == 'p');
        assert(d[0].1.len() == 0 && d[1].1.len() == 0);
        assert(d[2].1[0] == 'h' && d[3].1[0] == 'v' && d[4].1[0] == 'a' && d[5].1[0] == 'd');
        assert(d[6].1[0] == 'p');
    }
    o
}

/// What a command line asks for; `args` leaves out the program's name.
pub fn parse_args(args: &[String]) -> (r: Result<ArgStep, ArgError>)
    ensures
        match parsed(repl_options(), texts(args@)) {
            Ok(m) => result_of(r) == step_of(given(m), help_text()),
            Err(e) => result_of(r) == Err::<ArgStep<Seq<char>>, ArgError<Seq<char>>>(
                ArgError::Usage(e),
            ),
        },
        r matches Ok(ArgStep::CheckAddress(a)) ==> a.port_given == (a.port is Some),
{
    let o = declare_options();
    match parse_options(&o, args) {
        Err(e) => Err(ArgError::Usage(e)),
        Ok(m) => {
            proof {
                reveal_strlit("4");
                reveal_strlit("6");
                reveal_strlit("h");
                reveal_strlit("v");
                reveal_strlit("a");
                reveal_strlit("D");
                reveal_strlit("p");
                let d = declared(o);
                assert(d[0].0 == "4"@ && d[1].0 == "6"@ && d[2].0 == "h"@ && d[3].0 == "v"@);
                assert(d[4].0 == "a"@ && d[5].0 == "D"@ && d[6].0 == "p"@);
                assert(fit_declaration(occurrences(m)["p"@], true));
            }
            let g = GivenOptions {
                help: is_given(&m, "h"),
                version: is_given(&m, "v"),
                ipv4: is_given(&m, "4"),
                ipv6: is_given(&m, "6"),
                address: given_value(&m, "a"),
                port: given_value(&m, "p"),
                port_given: is_given(&m, "p"),
                data_dir: given_value(&m, "D"),
            };
            choose_step(g, usage_text(&o, "Usage: tesseras-repl [options]"))
        },
    }
}

/// What the node listens on: the given address, else any of one family with the port.
pub open spec fn bind_choice(o: CliOpts<Seq<char>>) -> Listener<Seq<char>> {
    match o.bind_addr {
        Some(a) => Listener { ip: a.ip, port: a.port, ipv6_only: o.ipv6_only },
        None => Listener {
            ip: if o.ipv4_only {
                "0.0.0.0"@
            } else {
                "::"@
            },
            port: o.port,
            ipv6_only: o.ipv6_only,
        },
    }
}

/// What the node listens on: the given address, else any of one family with the port.
pub fn bind_address(o: &CliOpts) -> (r: Listener)
    ensures
        r@ == bind_choice(o@),
{
    match &o.bind_addr {
        Some(a) => Listener {
            ip: a.ip.as_str().to_owned(),
            port: a.port,
            ipv6_only: o.ipv6_only,
        },
        None => Listener {
            ip: if o.ipv4_only {
                "0.0.0.0".to_owned()
            } else {
                "::".to_owned()
            },
            port: o.port,
            ipv6_only: o.ipv6_only,
        },
    }
}

/// The editor to run: the visual one, else the plain one, else `vi`.
pub open spec fn editor_of(visual: Option<Seq<char>>, editor: Option<Seq<char>>) -> Seq<char> {
    match (visual, editor) {
        (Some(v), _) => v,
        (None, Some(e)) => e,
        (None, None) => "vi"@,
    }
}

/// An editor that is set is run as it is set, the visual one before the other.
pub proof fn editors_are_run_as_they_are_set(v: Seq<char>, e: Seq<char>)
    ensures
        editor_of(Some(v), Some(e)) == v,
        editor_of(Some(v), None) == v,
        editor_of(None, Some(e)) == e,
        editor_of(None, None) == "vi"@,
{
}

/// The editor to run: the visual one, else the plain one, else `vi`.
pub fn choose_editor(visual: Option<String>, editor: Option<String>) -> (r: String)
    ensures
        r@ == editor_of(text_of(visual), text_of(editor)),
        r@ == (match (text_of(visual), text_of(editor)) {
            (Some(v), _) => v,
            (None, Some(e)) => e,
            (None, None) => "vi"@,
        }),
{
    match visual {
        Some(v) => v,
        None => match editor {
            Some(e) => e,
            None => "vi".to_owned(),
        },
    }
}

/// Help comes before the version, and both before anything that could be refused.
pub proof fn help_and_version_come_first(g: GivenOptions<Seq<char>>, help: Seq<char>)
    ensures
        g.help ==> step_of(g, help) == Ok::<ArgStep<Seq<char>>, ArgError<Seq<char>>>(
            ArgStep::ShowHelp(help),
        ),
        !g.help && g.version ==> step_of(g, help) == Ok::<
            ArgStep<Seq<char>>,
            ArgError<Seq<char>>,
        >(ArgStep::ShowVersion),
{
}

/// A command line that runs does not ask for both address families.
pub proof fn families_exclude_each_other(g: GivenOptions<Seq<char>>, help: Seq<char>)
    requires
        g.ipv4,
        g.ipv6,
    ensures
        !(step_of(g, help) matches Ok(ArgStep::Run(_))),
        !(step_of(g, help) matches Ok(ArgStep::CheckAddress(_))),
{
}

/// `-4` and `-6` reach the node: without an address the one listens on any IPv4 address, the other
/// on any IPv6 address and on IPv6 alone, and no option leaves both open.
pub proof fn families_are_kept(g: GivenOptions<Seq<char>>, help: Seq<char>, o: CliOpts<Seq<char>>)
    requires
        step_of(g, help) == Ok::<ArgStep<Seq<char>>, ArgError<Seq<char>>>(ArgStep::Run(o)),
    ensures
        bind_choice(o).ipv6_only == g.ipv6,
        bind_choice(o).ip == (if g.ipv4 {
            "0.0.0.0"@
        } else {
            "::"@
        }),
        !(g.ipv4 && g.ipv6),
{
}

/// With an address of its own, a command line keeps what it says of the families, too.
pub proof fn families_are_kept_with_an_address(
    g: GivenOptions<Seq<char>>,
    help: Seq<char>,
    a: AddressArgs<Seq<char>>,
    check: Result<(), Seq<char>>,
)
    requires
        step_of(g, help) == Ok::<ArgStep<Seq<char>>, ArgError<Seq<char>>>(ArgStep::CheckAddress(a)),
        opts_of(a, check) is Ok,
    ensures
        opts_of(a, check)->Ok_0.ipv4_only == g.ipv4,
        opts_of(a, check)->Ok_0.ipv6_only == g.ipv6,
        bind_choice(opts_of(a, check)->Ok_0).ipv6_only == g.ipv6,
{
}

/// A listen address and a port exclude each other, whatever they are.
pub proof fn address_and_port_exclude_each_other(
    a: AddressArgs<Seq<char>>,
    check: Result<(), Seq<char>>,
)
    requires
        a.port_given,
    ensures
        opts_of(a, check) is Err,
{
}

/// Without options the node listens on any address, on the default port.
pub proof fn the_default_is_any_address(help: Seq<char>)
    ensures
        ({
            let none = GivenOptions::<Seq<char>> {
                help: false,
                version: false,
                ipv4: false,
                ipv6: false,
                address: None,
                port: None,
                port_given: false,
                data_dir: None,
            };
            &&& step_of(none, help) matches Ok(ArgStep::Run(o))
            &&& bind_choice(o) == Listener { ip: "::"@, port: 4433, ipv6_only: false }
        }),
{
}

/// An IP and a port joined by `@` are the listen address that they were made of, and an IP alone
/// has port 0.
pub proof fn addresses_read_back(ip: Seq<char>, port: u16)
    ensures
        address_parts(ip.push('@') + decimal(port as nat)) == (ip, Some(decimal(port as nat))),
        listen_addr(ip, Some(decimal(port as nat)), Ok(())) == Ok::<
            ListenAddr<Seq<char>>,
            ArgError<Seq<char>>,
        >(ListenAddr { ip, port }),
        !ip.contains('@') ==> address_parts(ip) == (ip, None::<Seq<char>>),
        listen_addr(ip, None, Ok(())) == Ok::<ListenAddr<Seq<char>>, ArgError<Seq<char>>>(
            ListenAddr { ip, port: 0 },
        ),
{
    let p = decimal(port as nat);
    let s = ip.push('@') + p;
    lemma_decimal(port as nat);
    written_numbers_read_back(port as nat, 65535);
    assert forall|j: int| ip.len() < j < s.len() implies #[trigger] s[j] != '@' by {
        assert(s[j] == p[j - ip.len() - 1]);
    }
    lemma_find_last_char(s, '@', ip.len() as int);
    assert(s.take(ip.len() as int) =~= ip);
    assert(s.skip(ip.len() as int + 1) =~= p);
    if !ip.contains('@') {
        lemma_find_last_char(ip, '@', -1);
    }
}

/// Without an address, the port that is given is the one that the node listens on, and the data
/// directory is the one that is given; a port beyond 65535 is refused, with what was given.
pub proof fn ports_and_directories_are_kept(g: GivenOptions<Seq<char>>, help: Seq<char>, n: nat)
    requires
        !g.help,
        !g.version,
        !(g.ipv4 && g.ipv6),
        g.address is None,
    ensures
        g.port == Some(decimal(n)) && n <= 65535 ==> (step_of(g, help) matches Ok(ArgStep::Run(o))
            && bind_choice(o).port == n && o.data_dir == g.data_dir),
        g.port is None ==> (step_of(g, help) matches Ok(ArgStep::Run(o)) && bind_choice(o).port
            == 4433 && o.data_dir == g.data_dir),
        g.port == Some(decimal(n)) && n > 65535 ==> step_of(g, help) == Err::<
            ArgStep<Seq<char>>,
            ArgError<Seq<char>>,
        >(ArgError::BadPort { port: decimal(n), reason: NumberError::TooLarge }),
{
    numbers_read_back_with_sign_and_zeros(0, n, 65535);
    assert(fill('0', 0) + decimal(n) =~= decimal(n));
}

/// An address that is given is the one that the node listens on, with the port behind it, and the
/// data directory is the one that is given; an IP that does not pass the check is refused, and so is
/// a port of its own beside the address.
pub proof fn addresses_are_kept(
    g: GivenOptions<Seq<char>>,
    help: Seq<char>,
    ip: Seq<char>,
    port: u16,
    reason: Seq<char>,
)
    requires
        !g.help,
        !g.version,
        !(g.ipv4 && g.ipv6),
        !ip.contains('@'),
        g.port is Some ==> number_up_to(g.port->0, 65535) is Ok,
        ({
            ||| g.address == Some(ip.push('@') + decimal(port as nat))
            ||| g.address == Some(ip) && port == 0
        }),
    ensures
        step_of(g, help) matches Ok(ArgStep::CheckAddress(a)) && {
            &&& a.ip == ip
            &&& opts_of(a, Err(reason)) == Err::<CliOpts<Seq<char>>, ArgError<Seq<char>>>(
                ArgError::BadIp { ip, reason },
            )
            &&& g.port_given ==> opts_of(a, Ok(())) == Err::<
                CliOpts<Seq<char>>,
                ArgError<Seq<char>>,
            >(ArgError::AddressAndPort)
            &&& !g.port_given ==> {
                &&& opts_of(a, Ok(())) matches Ok(o)
                &&& bind_choice(o) == Listener { ip, port, ipv6_only: g.ipv6 }
                &&& o.data_dir == g.data_dir
            }
        },
{
    addresses_read_back(ip, port);
}

/// A refusal says what it refuses, and why.
pub proof fn refusals_say_what_is_wrong(what: Seq<char>, reason: Seq<char>, why: NumberError)
    ensures
        ArgError::Usage(reason).words() == reason,
        contains_text(ArgError::BadIp { ip: what, reason }.words(), what),
        reason.is_suffix_of(ArgError::BadIp { ip: what, reason }.words()),
        contains_text(ArgError::BadPort { port: what, reason: why }.words(), what),
        why.words().is_suffix_of(ArgError::BadPort { port: what, reason: why }.words()),
{
    let a = "bad IP '"@ + what + "': "@;
    let b = "bad port '"@ + what + "': "@;
    texts_are_found_anywhere(what, "bad IP '"@, what, "': "@ + reason);
    texts_are_found_anywhere(what, "bad port '"@, what, "': "@ + why.words());
    assert(a + reason =~= "bad IP '"@ + what + ("': "@ + reason));
    assert(b + why.words() =~= "bad port '"@ + what + ("': "@ + why.words()));
    assert((a + reason).subrange(a.len() as int, (a + reason).len() as int) =~= reason);
    assert((b + why.words()).subrange(b.len() as int, (b + why.words()).len() as int)
        =~= why.words());
}

} // verus!
