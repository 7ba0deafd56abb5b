//! The arguments of the benchmark client.

use vstd::prelude::*;
use vstd::string::*;
use vstd::utf8;
use crate::crypto::TlsProfile;
use crate::message::string_opt;
use crate::text;
use crate::text::{parse_number, str_eq};

verus! {

/// What is measured.
#[derive(Debug, Clone, Copy, PartialEq, Eq, Structural)]
pub enum Mode {
    /// Every client receives what it publishes.
    Loopback,
    /// Nobody receives what is published.
    Ingest,
}

/// The mode of a name.
pub open spec fn mode_of(name: Seq<char>) -> Option<Mode> {
    if name == "loopback"@ {
        Some(Mode::Loopback)
    } else if name == "ingest"@ {
        Some(Mode::Ingest)
    } else {
        None
    }
}

impl Mode {
    /// The mode of a name.
    pub fn parse(value: &str) -> (r: Result<Mode, ArgsFault>)
        ensures
            match mode_of(value@) {
                Some(mode) => r matches Ok(m) && m == mode,
                None => r matches Err(f) && f@ == FaultView::UnknownMode(value@),
            },
    {
        if str_eq(value, "loopback") {
            Ok(Mode::Loopback)
        } else if str_eq(value, "ingest") {
            Ok(Mode::Ingest)
        } else {
            Err(ArgsFault::UnknownMode(value.to_owned()))
        }
    }

    /// The name of the mode.
    pub fn as_str(self) -> (r: &'static str)
        ensures
            r@ == match self {
                Mode::Loopback => "loopback"@,
                Mode::Ingest => "ingest"@,
            },
    {
        match self {
            Mode::Loopback => "loopback",
            Mode::Ingest => "ingest",
        }
    }
}

/// The name of a mode stands for the mode.
pub proof fn law_mode_names_are_read_back(mode: Mode)
    ensures
        mode_of(
            match mode {
                Mode::Loopback => "loopback"@,
                Mode::Ingest => "ingest"@,
            },
        ) == Some(mode),
{
    reveal_strlit("loopback");
    reveal_strlit("ingest");
    assert("loopback"@.len() != "ingest"@.len());
}

/// Why arguments are refused.
#[derive(Debug)]
pub enum ArgsFault {
    /// The flag wants a value.
    MissingValue(String),
    /// The value of the flag is no number, or too large.
    BadNumber(String),
    /// There is no such mode.
    UnknownMode(String),
    /// There is no such profile.
    InvalidProfile(String),
    /// There is no such flag.
    UnknownArgument(String),
    /// There is nothing to do.
    NothingToDo,
    /// QoS 2 is not measured.
    UnsupportedQos,
    /// Topic aliases go with QoS 0 only.
    AliasNeedsQos0,
    /// Sending from a file goes with plain TCP, QoS 0 and no receiver only.
    SendfileForm,
}

/// Why arguments are refused, as the contracts see it.
#[verifier::ext_equal]
pub enum FaultView {
    /// The flag wants a value.
    MissingValue(Seq<char>),
    /// The value of the flag is no number, or too large.
    BadNumber(Seq<char>),
    /// There is no such mode.
    UnknownMode(Seq<char>),
    /// There is no such profile.
    InvalidProfile(Seq<char>),
    /// There is no such flag.
    UnknownArgument(Seq<char>),
    /// There is nothing to do.
    NothingToDo,
    /// QoS 2 is not measured.
    UnsupportedQos,
    /// Topic aliases go with QoS 0 only.
    AliasNeedsQos0,
    /// Sending from a file goes with plain TCP, QoS 0 and no receiver only.
    SendfileForm,
}

impl View for ArgsFault {
    type V = FaultView;

    open spec fn view(&self) -> FaultView {
        match *self {
            ArgsFault::MissingValue(t) => FaultView::MissingValue(t@),
            ArgsFault::BadNumber(t) => FaultView::BadNumber(t@),
            ArgsFault::UnknownMode(t) => FaultView::UnknownMode(t@),
            ArgsFault::InvalidProfile(t) => FaultView::InvalidProfile(t@),
            ArgsFault::UnknownArgument(t) => FaultView::UnknownArgument(t@),
            ArgsFault::NothingToDo => FaultView::NothingToDo,
            ArgsFault::UnsupportedQos => FaultView::UnsupportedQos,
            ArgsFault::AliasNeedsQos0 => FaultView::AliasNeedsQos0,
            ArgsFault::SendfileForm => FaultView::SendfileForm,
        }
    }
}

impl FaultView {
    /// The fault in words.
    pub open spec fn text(self) -> Seq<char> {
        match self {
            FaultView::MissingValue(t) => "missing value for "@ + t,
            FaultView::BadNumber(t) => "invalid number for "@ + t,
            FaultView::UnknownMode(t) => "unknown mode '"@ + t + "', expected loopback|ingest"@,
            FaultView::InvalidProfile(t) => "invalid TLS profile '"@ + t + "'"@,
            FaultView::UnknownArgument(t) => "unknown argument '"@ + t + "'"@,
            FaultView::NothingToDo => "clients, messages and window must be > 0"@,
            FaultView::UnsupportedQos => "native benchmark currently supports QoS 0 and 1"@,
            FaultView::AliasNeedsQos0 => "--topic-alias currently benchmarks QoS 0 only"@,
            FaultView::SendfileForm => "--sendfile requires plain-TCP --mode ingest --qos 0"@,
        }
    }
}

impl ArgsFault {
    /// The fault in words.
    pub fn message(&self) -> (r: String)
        ensures
            r@ == self@.text(),
    {
        match self {
            ArgsFault::MissingValue(t) => "missing value for ".to_owned().concat(t.as_str()),
            ArgsFault::BadNumber(t) => "invalid number for ".to_owned().concat(t.as_str()),
            ArgsFault::UnknownMode(t) => "unknown mode '".to_owned().concat(t.as_str()).concat(
                "', expected loopback|ingest",
            ),
            ArgsFault::InvalidProfile(t) => "invalid TLS profile '".to_owned().concat(
                t.as_str(),
            ).concat("'"),
            ArgsFault::UnknownArgument(t) => "unknown argument '".to_owned().concat(
                t.as_str(),
            ).concat("'"),
            ArgsFault::NothingToDo => "clients, messages and window must be > 0".to_owned(),
            ArgsFault::UnsupportedQos => {
                "native benchmark currently supports QoS 0 and 1".to_owned()
            },
            ArgsFault::AliasNeedsQos0 => "--topic-alias currently benchmarks QoS 0 only".to_owned(),
            ArgsFault::SendfileForm => {
                "--sendfile requires plain-TCP --mode ingest --qos 0".to_owned()
            },
        }
    }
}

/// The arguments.
#[derive(Debug)]
pub struct Args {
    /// The host of the broker.
    pub host: String,
    /// The port of the broker.
    pub port: u16,
    /// How many clients there are.
    pub clients: u64,
    /// How many messages each of them publishes.
    pub messages: u64,
    /// The length of a payload.
    pub payload_bytes: u64,
    /// The quality of service.
    pub qos: u8,
    /// How many messages are sent at a time.
    pub window: u64,
    /// What is measured.
    pub mode: Mode,
    /// Whether the clients use a topic alias.
    pub topic_alias: bool,
    /// The largest topic alias that the broker may use.
    pub accept_topic_alias: u16,
    /// Whether messages are sent from a file.
    pub sendfile: bool,
    /// The user name.
    pub username: String,
    /// The password.
    pub password: String,
    /// How long a step may take, in seconds.
    pub timeout_seconds: u64,
    /// Whether TLS is used.
    pub tls: bool,
    /// The file with the certificate to trust.
    pub ca: Option<String>,
    /// The name in the certificate of the broker.
    pub server_name: String,
    /// Which key exchanges are accepted.
    pub tls_profile: TlsProfile,
    /// The file for the report.
    pub json_out: Option<String>,
}

/// The arguments, as the contracts see them.
#[verifier::ext_equal]
pub struct ArgsView {
    /// The host of the broker.
    pub host: Seq<char>,
    /// The port of the broker.
    pub port: u16,
    /// How many clients there are.
    pub clients: u64,
    /// How many messages each of them publishes.
    pub messages: u64,
    /// The length of a payload.
    pub payload_bytes: u64,
    /// The quality of service.
    pub qos: u8,
    /// How many messages are sent at a time.
    pub window: u64,
    /// What is measured.
    pub mode: Mode,
    /// Whether the clients use a topic alias.
    pub topic_alias: bool,
    /// The largest topic alias that the broker may use.
    pub accept_topic_alias: u16,
    /// Whether messages are sent from a file.
    pub sendfile: bool,
    /// The user name.
    pub username: Seq<char>,
    /// The password.
    pub password: Seq<char>,
    /// How long a step may take, in seconds.
    pub timeout_seconds: u64,
    /// Whether TLS is used.
    pub tls: bool,
    /// The file with the certificate to trust.
    pub ca: Option<Seq<char>>,
    /// The name in the certificate of the broker.
    pub server_name: Seq<char>,
    /// Which key exchanges are accepted.
    pub tls_profile: TlsProfile,
    /// The file for the report.
    pub json_out: Option<Seq<char>>,
}

impl View for Args {
    type V = ArgsView;

    open spec fn view(&self) -> ArgsView {
        ArgsView {
            host: self.host@,
            port: self.port,
            clients: self.clients,
            messages: self.messages,
            payload_bytes: self.payload_bytes,
            qos: self.qos,
            window: self.window,
            mode: self.mode,
            topic_alias: self.topic_alias,
            accept_topic_alias: self.accept_topic_alias,
            sendfile: self.sendfile,
            username: self.username@,
            password: self.password@,
            timeout_seconds: self.timeout_seconds,
            tls: self.tls,
            ca: string_opt(self.ca),
            server_name: self.server_name@,
            tls_profile: self.tls_profile,
            json_out: string_opt(self.json_out),
        }
    }
}

/// A text, or another where there is none.
pub open spec fn text_or(value: Option<Seq<char>>, other: Seq<char>) -> Seq<char> {
    match value {
        Some(t) => t,
        None => other,
    }
}

/// The arguments that hold where nothing else is said.
pub open spec fn standard(username: Option<Seq<char>>, password: Option<Seq<char>>) -> ArgsView {
    ArgsView {
        host: "127.0.0.1"@,
        port: 1883,
        clients: 1,
        messages: 100_000,
        payload_bytes: 128,
        qos: 0,
        window: 1024,
        mode: Mode::Loopback,
        topic_alias: false,
        accept_topic_alias: 0,
        sendfile: false,
        username: text_or(username, "admin"@),
        password: text_or(password, "admin123"@),
        timeout_seconds: 60,
        tls: false,
        ca: None,
        server_name: "localhost"@,
        tls_profile: TlsProfile::Hybrid,
        json_out: None,
    }
}

/// The profile of a name.
pub open spec fn profile_named(name: Seq<char>) -> Option<TlsProfile> {
    if name == "hybrid"@ {
        Some(TlsProfile::Hybrid)
    } else if name == "pqc-strict"@ {
        Some(TlsProfile::PqcStrict)
    } else if name == "classical"@ {
        Some(TlsProfile::Classical)
    } else {
        None
    }
}

/// A value as a number of at most `max`.
pub open spec fn numeric(value: Seq<char>, max: u64) -> Option<u64> {
    text::number(utf8::encode_utf8(value), max)
}

impl ArgsView {
    /// The arguments with a flag that wants no value, if there is such a flag.
    pub open spec fn switched(self, flag: Seq<char>) -> Option<ArgsView> {
        if flag == "--topic-alias"@ {
            Some(ArgsView { topic_alias: true, ..self })
        } else if flag == "--sendfile"@ {
            Some(ArgsView { sendfile: true, ..self })
        } else if flag == "--tls"@ {
            Some(ArgsView { tls: true, ..self })
        } else {
            None
        }
    }

    /// The arguments with a flag of a number, if there is such a flag: its largest value, and how
    /// it is set.
    pub open spec fn numbered(self, flag: Seq<char>, value: Seq<char>) -> Option<
        Result<ArgsView, FaultView>,
    > {
        let bad = Err::<ArgsView, FaultView>(FaultView::BadNumber(flag));
        if flag == "--port"@ {
            Some(
                match numeric(value, 65535) {
                    Some(v) => Ok(ArgsView { port: v as u16, ..self }),
                    None => bad,
                },
            )
        } else if flag == "--clients"@ {
            Some(
                match numeric(value, u64::MAX) {
                    Some(v) => Ok(ArgsView { clients: v, ..self }),
                    None => bad,
                },
            )
        } else if flag == "--messages"@ {
            Some(
                match numeric(value, u64::MAX) {
                    Some(v) => Ok(ArgsView { messages: v, ..self }),
                    None => bad,
                },
            )
        } else if flag == "--payload"@ {
            Some(
                match numeric(value, u64::MAX) {
                    Some(v) => Ok(ArgsView { payload_bytes: v, ..self }),
                    None => bad,
                },
            )
        } else if flag == "--qos"@ {
            Some(
                match numeric(value, 255) {
                    Some(v) => Ok(ArgsView { qos: v as u8, ..self }),
                    None => bad,
                },
            )
        } else if flag == "--window"@ {
            Some(
                match numeric(value, u64::MAX) {
                    Some(v) => Ok(ArgsView { window: v, ..self }),
                    None => bad,
                },
            )
        } else if flag == "--accept-topic-alias"@ {
            Some(
                match numeric(value, 65535) {
                    Some(v) => Ok(ArgsView { accept_topic_alias: v as u16, ..self }),
                    None => bad,
                },
            )
        } else if flag == "--timeout"@ {
            Some(
                match numeric(value, u64::MAX) {
                    Some(v) => Ok(ArgsView { timeout_seconds: v, ..self }),
                    None => bad,
                },
            )
        } else {
            None
        }
    }

    /// The arguments with a flag of a text, if there is such a flag.
    pub open spec fn texted(self, flag: Seq<char>, value: Seq<char>) -> Option<
        Result<ArgsView, FaultView>,
    > {
        if flag == "--host"@ {
            Some(Ok(ArgsView { host: value, ..self }))
        } else if flag == "--mode"@ {
            Some(
                match mode_of(value) {
                    Some(mode) => Ok(ArgsView { mode, ..self }),
                    None => Err(FaultView::UnknownMode(value)),
                },
            )
        } else if flag == "--username"@ {
            Some(Ok(ArgsView { username: value, ..self }))
        } else if flag == "--password"@ {
            Some(Ok(ArgsView { password: value, ..self }))
        } else if flag == "--ca"@ {
            Some(Ok(ArgsView { ca: Some(value), ..self }))
        } else if flag == "--server-name"@ {
            Some(Ok(ArgsView { server_name: value, ..self }))
        } else if flag == "--tls-profile"@ {
            Some(
                match profile_named(value) {
                    Some(tls_profile) => Ok(ArgsView { tls_profile, ..self }),
                    None => Err(FaultView::InvalidProfile(value)),
                },
            )
        } else if flag == "--json-out"@ {
            Some(Ok(ArgsView { json_out: Some(value), ..self }))
        } else {
            None
        }
    }

    /// The arguments with a flag and a value, if there is such a flag.
    pub open spec fn valued(self, flag: Seq<char>, value: Seq<char>) -> Option<
        Result<ArgsView, FaultView>,
    > {
        match self.numbered(flag, value) {
            Some(r) => Some(r),
            None => self.texted(flag, value),
        }
    }
}

/// Whether a flag asks for help.
pub open spec fn asks_for_help(flag: Seq<char>) -> bool {
    flag == "-h"@ || flag == "--help"@
}

/// The arguments that a list says from a place on: nothing where help is asked for, else the
/// arguments and whether a port is given.
pub open spec fn parsed(raw: Seq<Seq<char>>, i: nat, a: ArgsView, port_given: bool) -> Result<
    Option<(ArgsView, bool)>,
    FaultView,
>
    decreases raw.len() - i,
{
    if i >= raw.len() {
        Ok(Some((a, port_given)))
    } else {
        let flag = raw[i as int];
        if asks_for_help(flag) {
            Ok(None)
        } else {
            match a.switched(flag) {
                Some(next) => parsed(raw, i + 1, next, port_given),
                None => if a.valued(flag, Seq::empty()) is None {
                    Err(FaultView::UnknownArgument(flag))
                } else if i + 1 >= raw.len() {
                    Err(FaultView::MissingValue(flag))
                } else {
                    match a.valued(flag, raw[(i + 1) as int])->0 {
                        Err(e) => Err(e),
                        Ok(next) => parsed(raw, i + 2, next, port_given || flag == "--port"@),
                    }
                },
            }
        }
    }
}

/// The arguments, if they go together, with what depends on others.
pub open spec fn settled(a: ArgsView, port_given: bool) -> Result<ArgsView, FaultView> {
    if a.clients == 0 || a.messages == 0 || a.window == 0 {
        Err(FaultView::NothingToDo)
    } else if a.qos > 1 {
        Err(FaultView::UnsupportedQos)
    } else if a.topic_alias && a.qos != 0 {
        Err(FaultView::AliasNeedsQos0)
    } else if a.sendfile && (a.mode != Mode::Ingest || a.qos != 0 || a.tls) {
        Err(FaultView::SendfileForm)
    } else {
        Ok(
            ArgsView {
                port: if a.tls && !port_given {
                    8883
                } else {
                    a.port
                },
                ca: if a.tls && a.ca is None {
                    Some("config/cert.pem"@)
                } else {
                    a.ca
                },
                ..a
            },
        )
    }
}

/// A list of arguments, as the contracts see it.
pub open spec fn raw_view(raw: Seq<String>) -> Seq<Seq<char>> {
    raw.map_values(|s: String| s@)
}

/// What the arguments ask for.
pub enum ParsedArgs {
    /// Help.
    Help,
    /// A run.
    Run(Args),
}

/// What a list of arguments asks for: nothing where that is help.
pub open spec fn asked(
    raw: Seq<Seq<char>>,
    username: Option<Seq<char>>,
    password: Option<Seq<char>>,
) -> Result<Option<ArgsView>, FaultView> {
    match parsed(raw, 0, standard(username, password), false) {
        Err(e) => Err(e),
        Ok(None) => Ok(None),
        Ok(Some((a, port_given))) => match settled(a, port_given) {
            Err(e) => Err(e),
            Ok(a) => Ok(Some(a)),
        },
    }
}

impl Args {
    /// The arguments that hold where nothing else is said.
    fn standard(username: Option<&str>, password: Option<&str>) -> (r: Args)
        ensures
            r@ == standard(
                crate::policy::setting_opt(username),
                crate::policy::setting_opt(password),
            ),
    {
        let r = Args {
            host: "127.0.0.1".to_owned(),
            port: 1883,
            clients: 1,
            messages: 100_000,
            payload_bytes: 128,
            qos: 0,
            window: 1024,
            mode: Mode::Loopback,
            topic_alias: false,
            accept_topic_alias: 0,
            sendfile: false,
            username: match username {
                Some(t) => t.to_owned(),
                None => "admin".to_owned(),
            },
            password: match password {
                Some(t) => t.to_owned(),
                None => "admin123".to_owned(),
            },
            timeout_seconds: 60,
            tls: false,
            ca: None,
            server_name: "localhost".to_owned(),
            tls_profile: TlsProfile::Hybrid,
            json_out: None,
        };
        r
    }

    /// Sets a flag that wants no value; false where there is no such flag.
    fn switch(&mut self, flag: &str) -> (found: bool)
        ensures
            match old(self)@.switched(flag@) {
                Some(next) => found && final(self)@ == next,
                None => !found && final(self)@ == old(self)@,
            },
    {
        if str_eq(flag, "--topic-alias") {
            self.topic_alias = true;
            true
        } else if str_eq(flag, "--sendfile") {
            self.sendfile = true;
            true
        } else if str_eq(flag, "--tls") {
            self.tls = true;
            true
        } else {
            false
        }
    }

    /// Sets a flag of a number.
    fn set_number(&mut self, flag: &str, value: &str) -> (r: Option<Result<(), ArgsFault>>)
        ensures
            match old(self)@.numbered(flag@, value@) {
                Some(Ok(next)) => r matches Some(Ok(_)) && final(self)@ == next,
                Some(Err(e)) => r matches Some(Err(f)) && f@ == e,
                None => r is None && final(self)@ == old(self)@,
            },
    {
        let max: u64 = if str_eq(flag, "--port") || str_eq(flag, "--accept-topic-alias") {
            65535
        } else if str_eq(flag, "--qos") {
            255
        } else if str_eq(flag, "--clients") || str_eq(flag, "--messages") || str_eq(
            flag,
            "--payload",
        ) || str_eq(flag, "--window") || str_eq(flag, "--timeout") {
            u64::MAX
        } else {
            return None;
        };
        proof {
            reveal_strlit("--port");
            reveal_strlit("--accept-topic-alias");
            reveal_strlit("--qos");
            reveal_strlit("--clients");
            reveal_strlit("--messages");
            reveal_strlit("--payload");
            reveal_strlit("--window");
            reveal_strlit("--timeout");
            assert("--port"@.len() == 6);
            assert("--qos"@.len() == 5);
            assert("--clients"@[2] == 'c');
            assert("--payload"@[2] == 'p');
            assert("--timeout"@[2] == 't');
            assert("--messages"@.len() == 10);
            assert("--window"@.len() == 8);
            assert("--accept-topic-alias"@.len() == 20);
        }
        let v: u64 = match parse_number(value, max) {
            Some(v) => v,
            None => {
                return Some(Err(ArgsFault::BadNumber(flag.to_owned())));
            },
        };
        if str_eq(flag, "--port") {
            self.port = v as u16;
        } else if str_eq(flag, "--clients") {
            self.clients = v;
        } else if str_eq(flag, "--messages") {
            self.messages = v;
        } else if str_eq(flag, "--payload") {
            self.payload_bytes = v;
        } else if str_eq(flag, "--qos") {
            self.qos = v as u8;
        } else if str_eq(flag, "--window") {
            self.window = v;
        } else if str_eq(flag, "--accept-topic-alias") {
            self.accept_topic_alias = v as u16;
        } else {
            self.timeout_seconds = v;
        }
        Some(Ok(()))
    }

    /// Sets a flag of a text.
    fn set_text(&mut self, flag: &str, value: &str) -> (r: Option<Result<(), ArgsFault>>)
        ensures
            match old(self)@.texted(flag@, value@) {
                Some(Ok(next)) => r matches Some(Ok(_)) && final(self)@ == next,
                Some(Err(e)) => r matches Some(Err(f)) && f@ == e,
                None => r is None && final(self)@ == old(self)@,
            },
    {
        if str_eq(flag, "--host") {
            self.host = value.to_owned();
        } else if str_eq(flag, "--mode") {
            match Mode::parse(value) {
                Ok(mode) => {
                    self.mode = mode;
                },
                Err(e) => {
                    return Some(Err(e));
                },
            }
        } else if str_eq(flag, "--username") {
            self.username = value.to_owned();
        } else if str_eq(flag, "--password") {
            self.password = value.to_owned();
        } else if str_eq(flag, "--ca") {
            self.ca = Some(value.to_owned());
        } else if str_eq(flag, "--server-name") {
            self.server_name = value.to_owned();
        } else if str_eq(flag, "--tls-profile") {
            if str_eq(value, "hybrid") {
                self.tls_profile = TlsProfile::Hybrid;
            } else if str_eq(value, "pqc-strict") {
                self.tls_profile = TlsProfile::PqcStrict;
            } else if str_eq(value, "classical") {
                self.tls_profile = TlsProfile::Classical;
            } else {
                return Some(Err(ArgsFault::InvalidProfile(value.to_owned())));
            }
        } else if str_eq(flag, "--json-out") {
            self.json_out = Some(value.to_owned());
        } else {
            return None;
        }
        Some(Ok(()))
    }
}

/// Whether a flag wants a value.
fn wants_value(flag: &str, args: &Args) -> (r: bool)
    ensures
        r == (args@.valued(flag@, Seq::empty()) is Some),
{
    str_eq(flag, "--port") || str_eq(flag, "--clients") || str_eq(flag, "--messages") || str_eq(
        flag,
        "--payload",
    ) || str_eq(flag, "--qos") || str_eq(flag, "--window") || str_eq(flag, "--accept-topic-alias")
        || str_eq(flag, "--timeout") || str_eq(flag, "--host") || str_eq(flag, "--mode") || str_eq(
        flag,
        "--username",
    ) || str_eq(flag, "--password") || str_eq(flag, "--ca") || str_eq(flag, "--server-name")
        || str_eq(flag, "--tls-profile") || str_eq(flag, "--json-out")
}

/// Reads the arguments; user name and password are those of the environment where it has them.
pub fn parse_args(raw: &Vec<String>, username: Option<&str>, password: Option<&str>) -> (r: Result<
    ParsedArgs,
    ArgsFault,
>)
    ensures
        match asked(
            raw_view(raw@),
            crate::policy::setting_opt(username),
            crate::policy::setting_opt(password),
        ) {
            Ok(None) => r matches Ok(ParsedArgs::Help),
            Ok(Some(a)) => r matches Ok(ParsedArgs::Run(args)) && args@ == a,
            Err(e) => r matches Err(f) && f@ == e,
        },
{
    let mut args = Args::standard(username, password);
    let mut port_given = false;
    let mut i: usize = 0;
    let total: usize = raw.len();
    let ghost all = raw_view(raw@);
    let ghost whole = parsed(all, 0, args@, false);
    while i < total
        invariant
            total == raw@.len(),
            i <= total,
            all == raw_view(raw@),
            whole == parsed(all, i as nat, args@, port_given),
            asked(
                all,
                crate::policy::setting_opt(username),
                crate::policy::setting_opt(password),
            ) == match whole {
                Err(e) => Err::<Option<ArgsView>, FaultView>(e),
                Ok(None) => Ok(None),
                Ok(Some((a, given))) => match settled(a, given) {
                    Err(e) => Err(e),
                    Ok(a) => Ok(Some(a)),
                },
            },
        decreases total - i,
    {
        let flag = raw[i].as_str();
        assert(all[i as int] == flag@);
        if str_eq(flag, "-h") || str_eq(flag, "--help") {
            return Ok(ParsedArgs::Help);
        }
        if args.switch(flag) {
            i = i + 1;
            continue ;
        }
        if !wants_value(flag, &args) {
            return Err(ArgsFault::UnknownArgument(flag.to_owned()));
        }
        if total - i < 2 {
            return Err(ArgsFault::MissingValue(flag.to_owned()));
        }
        let value = raw[i + 1].as_str();
        assert(all[i + 1] == value@);
        if str_eq(flag, "--port") {
            port_given = true;
        }
        match args.set_number(flag, value) {
            Some(Ok(_)) => {},
            Some(Err(e)) => {
                return Err(e);
            },
            None => match args.set_text(flag, value) {
                Some(Ok(_)) => {},
                Some(Err(e)) => {
                    return Err(e);
                },
                None => {},
            },
        }
        i = i + 2;
    }
    if args.clients == 0 || args.messages == 0 || args.window == 0 {
        return Err(ArgsFault::NothingToDo);
    }
    if args.qos > 1 {
        return Err(ArgsFault::UnsupportedQos);
    }
    if args.topic_alias && args.qos != 0 {
        return Err(ArgsFault::AliasNeedsQos0);
    }
    if args.sendfile {
        if args.mode != Mode::Ingest || args.qos != 0 || args.tls {
            return Err(ArgsFault::SendfileForm);
        }
    }
    if args.tls && !port_given {
        args.port = 8883;
    }
    if args.tls && args.ca.is_none() {
        args.ca = Some("config/cert.pem".to_owned());
    }
    Ok(ParsedArgs::Run(args))
}

} // verus!
