//! The configuration: defaults, then the file, then the arguments.

use vstd::prelude::*;

use crate::model;
use crate::text;

verus! {

/// What the configuration file may set.
#[derive(Debug)]
pub struct ConfigFile {
    pub host: Option<String>,
    pub port: Option<u16>,
    pub data_dir: Option<String>,
    pub log_level: Option<String>,
    pub default_password: Option<String>,
}

/// What the arguments may set.
#[derive(Debug)]
pub struct CliArgs {
    pub config: Option<String>,
    pub host: Option<String>,
    pub port: Option<u16>,
    pub data_dir: Option<String>,
    pub log_level: Option<String>,
    pub default_password: Option<String>,
    pub repl: bool,
    pub client: bool,
    pub user: Option<String>,
    pub password: Option<String>,
}

/// The configuration.
#[derive(Debug)]
pub struct Config {
    pub host: String,
    pub port: u16,
    pub data_dir: String,
    pub log_level: String,
    pub default_password: Option<String>,
}

/// What a `Config` stands for.
#[verifier::ext_equal]
pub struct ConfigV {
    pub host: Seq<char>,
    pub port: u16,
    pub data_dir: Seq<char>,
    pub log_level: Seq<char>,
    pub default_password: Option<Seq<char>>,
}

impl View for Config {
    type V = ConfigV;

    open spec fn view(&self) -> ConfigV {
        ConfigV {
            host: self.host@,
            port: self.port,
            data_dir: self.data_dir@,
            log_level: self.log_level@,
            default_password: model::view_opt(self.default_password),
        }
    }
}

impl Clone for Config {
    fn clone(&self) -> (r: Self)
        ensures
            r@ == self@,
    {
        Config {
            host: self.host.clone(),
            port: self.port,
            data_dir: self.data_dir.clone(),
            log_level: self.log_level.clone(),
            default_password: match &self.default_password {
                Some(p) => Some(p.clone()),
                None => None,
            },
        }
    }
}

/// The configuration where nothing is set.
pub open spec fn default_config() -> ConfigV {
    ConfigV {
        host: "127.0.0.1"@,
        port: 3307,
        data_dir: "data"@,
        log_level: "info"@,
        default_password: None,
    }
}

/// A text that is set, or else the one that was there.
pub open spec fn text_or(set: Option<String>, before: Seq<char>) -> Seq<char> {
    match set {
        Some(s) => s@,
        None => before,
    }
}

/// The configuration after some settings.
pub open spec fn with_settings(
    c: ConfigV,
    host: Option<String>,
    port: Option<u16>,
    data_dir: Option<String>,
    log_level: Option<String>,
    default_password: Option<String>,
) -> ConfigV {
    ConfigV {
        host: text_or(host, c.host),
        port: match port {
            Some(p) => p,
            None => c.port,
        },
        data_dir: text_or(data_dir, c.data_dir),
        log_level: text_or(log_level, c.log_level),
        default_password: match default_password {
            Some(p) => Some(p@),
            None => c.default_password,
        },
    }
}

pub open spec fn with_file(c: ConfigV, f: Option<ConfigFile>) -> ConfigV {
    match f {
        Some(f) => with_settings(
            c,
            f.host,
            f.port,
            f.data_dir,
            f.log_level,
            f.default_password,
        ),
        None => c,
    }
}

pub open spec fn with_args(c: ConfigV, a: CliArgs) -> ConfigV {
    with_settings(c, a.host, a.port, a.data_dir, a.log_level, a.default_password)
}

/// The client's user: the one that is given, or root.
pub open spec fn client_user(a: CliArgs) -> Seq<char> {
    text_or(a.user, "root"@)
}

fn choose_text(set: &Option<String>, before: String) -> (r: String)
    ensures
        r@ == text_or(*set, before@),
{
    match set {
        Some(s) => s.clone(),
        None => before,
    }
}

impl Config {
    /// The configuration where nothing is set.
    pub fn defaults() -> (r: Self)
        ensures
            r@ == default_config(),
    {
        Config {
            host: "127.0.0.1".to_string(),
            port: 3307,
            data_dir: "data".to_string(),
            log_level: "info".to_string(),
            default_password: None,
        }
    }

    fn set(
        self,
        host: &Option<String>,
        port: Option<u16>,
        data_dir: &Option<String>,
        log_level: &Option<String>,
        default_password: &Option<String>,
    ) -> (r: Self)
        ensures
            r@ == with_settings(
                self@,
                *host,
                port,
                *data_dir,
                *log_level,
                *default_password,
            ),
    {
        Config {
            host: choose_text(host, self.host),
            port: match port {
                Some(p) => p,
                None => self.port,
            },
            data_dir: choose_text(data_dir, self.data_dir),
            log_level: choose_text(log_level, self.log_level),
            default_password: match default_password {
                Some(p) => Some(p.clone()),
                None => self.default_password,
            },
        }
    }

    /// The configuration from the file, where there is one, and the arguments. What
    /// an argument sets overrides the file.
    pub fn merge(file: &Option<ConfigFile>, args: &CliArgs) -> (r: Self)
        ensures
            r@ == with_args(with_file(default_config(), *file), *args),
    {
        let mut config = Config::defaults();
        if let Some(f) = file {
            config = config.set(
                &f.host,
                f.port,
                &f.data_dir,
                &f.log_level,
                &f.default_password,
            );
        }
        config.set(
            &args.host,
            args.port,
            &args.data_dir,
            &args.log_level,
            &args.default_password,
        )
    }

    /// The address of the server: host and port with a colon between them.
    pub fn addr(&self) -> (r: String)
        ensures
            r@ == self@.host + ":"@ + text::nat_text(self@.port as nat),
    {
        let mut out = self.host.clone();
        out.append(":");
        text::push_u64(&mut out, self.port as u64);
        out
    }
}

impl CliArgs {
    /// The client's user: the one that is given, or root.
    pub fn client_user(&self) -> (r: String)
        ensures
            r@ == client_user(*self),
    {
        choose_text(&self.user, "root".to_string())
    }
}

/// Where nothing is set, the server listens on port 3307 of the machine itself, keeps its
/// data in `data`, logs at the level `info` and asks for no password.
pub proof fn nothing_set_gives_defaults(args: CliArgs)
    requires
        args.host is None,
        args.port is None,
        args.data_dir is None,
        args.log_level is None,
        args.default_password is None,
    ensures
        ({
            let c = with_args(with_file(default_config(), None), args);
            &&& c.host == "127.0.0.1"@
            &&& c.port == 3307
            &&& c.data_dir == "data"@
            &&& c.log_level == "info"@
            &&& c.default_password is None
        }),
{
}

/// Without a file the arguments override the defaults, and what they do not set stays.
pub proof fn arguments_alone_override_defaults(args: CliArgs)
    ensures
        ({
            let c = with_args(with_file(default_config(), None), args);
            &&& c.host == (match args.host {
                Some(s) => s@,
                None => "127.0.0.1"@,
            })
            &&& c.port == (match args.port {
                Some(p) => p,
                None => 3307,
            })
            &&& c.data_dir == (match args.data_dir {
                Some(s) => s@,
                None => "data"@,
            })
            &&& c.log_level == (match args.log_level {
                Some(s) => s@,
                None => "info"@,
            })
            &&& c.default_password == (match args.default_password {
                Some(s) => Some(s@),
                None => None,
            })
            &&& client_user(args) == (match args.user {
                Some(s) => s@,
                None => "root"@,
            })
        }),
{
}

/// Arguments override the file, and the file overrides the defaults.
pub proof fn arguments_override_file(file: ConfigFile, args: CliArgs)
    ensures
        ({
            let c = with_args(with_file(default_config(), Some(file)), args);
            &&& args.host is Some ==> c.host == args.host->0@
            &&& args.host is None && file.host is Some ==> c.host == file.host->0@
            &&& args.host is None && file.host is None ==> c.host == default_config().host
            &&& args.port is Some ==> c.port == args.port->0
            &&& args.port is None && file.port is Some ==> c.port == file.port->0
            &&& args.port is None && file.port is None ==> c.port == default_config().port
            &&& args.data_dir is Some ==> c.data_dir == args.data_dir->0@
            &&& args.data_dir is None && file.data_dir is Some ==> c.data_dir == file.data_dir->0@
            &&& args.log_level is Some ==> c.log_level == args.log_level->0@
            &&& args.log_level is None && file.log_level is Some ==> c.log_level
                == file.log_level->0@
            &&& args.default_password is Some ==> c.default_password == Some(
                args.default_password->0@,
            )
            &&& args.default_password is None && file.default_password is Some
                ==> c.default_password == Some(file.default_password->0@)
            &&& args.data_dir is None && file.data_dir is None ==> c.data_dir == "data"@
            &&& args.log_level is None && file.log_level is None ==> c.log_level == "info"@
            &&& args.default_password is None && file.default_password is None
                ==> c.default_password is None
        }),
{
}

} // verus!
