//! The server's configuration: what the YAML file gave, with defaults and
//! the environment's values applied on read.
use vstd::prelude::*;

use crate::error::Error;
use crate::sdk::{digit_end, num_value};

verus! {

/// How much the server logs.
#[derive(Clone, Copy, Debug, PartialEq, Eq, Structural)]
pub enum LogLevelFilter {
    Off,
    Error,
    Warn,
    Info,
    Debug,
    Trace,
}

pub open spec fn ascii_lower(c: char) -> char {
    if 'A' <= c && c <= 'Z' {
        (((c as u8) + 32) as u8) as char
    } else {
        c
    }
}

/// Equal letter for letter, ASCII case aside.
pub open spec fn eq_ignore_case(a: Seq<char>, b: Seq<char>) -> bool {
    a.len() == b.len() && forall|i: int| 0 <= i < a.len() ==> ascii_lower(a[i]) == ascii_lower(b[i])
}

/// The upper-case name of a level.
pub open spec fn level_name(l: LogLevelFilter) -> Seq<char> {
    match l {
        LogLevelFilter::Off => "OFF"@,
        LogLevelFilter::Error => "ERROR"@,
        LogLevelFilter::Warn => "WARN"@,
        LogLevelFilter::Info => "INFO"@,
        LogLevelFilter::Debug => "DEBUG"@,
        LogLevelFilter::Trace => "TRACE"@,
    }
}

/// The level a name stands for, in any case.
pub open spec fn level_of_name(s: Seq<char>) -> Option<LogLevelFilter> {
    if eq_ignore_case(s, "off"@) {
        Some(LogLevelFilter::Off)
    } else if eq_ignore_case(s, "error"@) {
        Some(LogLevelFilter::Error)
    } else if eq_ignore_case(s, "warn"@) {
        Some(LogLevelFilter::Warn)
    } else if eq_ignore_case(s, "info"@) {
        Some(LogLevelFilter::Info)
    } else if eq_ignore_case(s, "debug"@) {
        Some(LogLevelFilter::Debug)
    } else if eq_ignore_case(s, "trace"@) {
        Some(LogLevelFilter::Trace)
    } else {
        None
    }
}

fn lower_char(c: char) -> (r: char)
    ensures
        r == ascii_lower(c),
{
    if 'A' <= c && c <= 'Z' {
        ((c as u8) + 32) as char
    } else {
        c
    }
}

fn str_eq_ignore_case(a: &str, b: &str) -> (r: bool)
    ensures
        r == eq_ignore_case(a@, b@),
{
    let n = a.unicode_len();
    if n != b.unicode_len() {
        return false;
    }
    let mut i: usize = 0;
    while i < n
        invariant
            n == a@.len(),
            n == b@.len(),
            i <= n,
            forall|k: int| 0 <= k < i ==> ascii_lower(a@[k]) == ascii_lower(b@[k]),
        decreases n - i,
    {
        if lower_char(a.get_char(i)) != lower_char(b.get_char(i)) {
            return false;
        }
        i += 1;
    }
    true
}

impl LogLevelFilter {
    /// Parses a level name, in any case.
    pub fn parse(s: &str) -> (r: Option<LogLevelFilter>)
        ensures
            r == level_of_name(s@),
    {
        if str_eq_ignore_case(s, "off") {
            Some(LogLevelFilter::Off)
        } else if str_eq_ignore_case(s, "error") {
            Some(LogLevelFilter::Error)
        } else if str_eq_ignore_case(s, "warn") {
            Some(LogLevelFilter::Warn)
        } else if str_eq_ignore_case(s, "info") {
            Some(LogLevelFilter::Info)
        } else if str_eq_ignore_case(s, "debug") {
            Some(LogLevelFilter::Debug)
        } else if str_eq_ignore_case(s, "trace") {
            Some(LogLevelFilter::Trace)
        } else {
            None
        }
    }

    /// The upper-case name of the level.
    pub fn name(&self) -> (r: String)
        ensures
            r@ == level_name(*self),
    {
        match self {
            LogLevelFilter::Off => "OFF".to_owned(),
            LogLevelFilter::Error => "ERROR".to_owned(),
            LogLevelFilter::Warn => "WARN".to_owned(),
            LogLevelFilter::Info => "INFO".to_owned(),
            LogLevelFilter::Debug => "DEBUG".to_owned(),
            LogLevelFilter::Trace => "TRACE".to_owned(),
        }
    }
}

/// The `aws` section.
#[derive(Debug, Default)]
pub struct AwsConfig {
    pub access_key: Option<String>,
    pub secret_key: Option<String>,
    pub bucket_url: Option<String>,
    pub region: Option<String>,
}

/// The `server` section.
#[derive(Debug, Default)]
pub struct ServerConfig {
    pub host: Option<String>,
    pub port: Option<u16>,
    pub healthcheck_ttl: Option<u32>,
    pub sync_interval: Option<u32>,
    pub threads: Option<usize>,
}

/// The `log` section.
#[derive(Debug, Default)]
pub struct LogConfig {
    pub level: Option<String>,
    pub file: Option<String>,
}

/// Central config object with what the YAML config holds.
#[derive(Debug, Default)]
pub struct Config {
    pub aws: AwsConfig,
    pub server: ServerConfig,
    pub log: LogConfig,
    pub symbol_dir: Option<String>,
}

pub open spec fn opt_str(o: Option<String>) -> Option<Seq<char>> {
    match o {
        Some(s) => Some(s@),
        None => None,
    }
}

fn copy_opt(o: &Option<String>) -> (r: Option<String>)
    ensures
        opt_str(r) == opt_str(*o),
{
    match o {
        Some(s) => Some(s.as_str().to_owned()),
        None => None,
    }
}

fn as_opt_str(o: &Option<String>) -> (r: Option<&str>)
    ensures
        r.is_some() == o.is_some(),
        r.is_some() ==> r.unwrap()@ == o.unwrap()@,
{
    match o {
        Some(s) => Some(s.as_str()),
        None => None,
    }
}

/// Relies on `str::parse::<u16>`: a non-empty run of decimal digits parses
/// to its value exactly when that value fits in 16 bits.
#[verifier::external_body]
fn parse_u16(s: &str) -> (r: Option<u16>)
    ensures
        s@.len() > 0 && digit_end(s@, 0) == s@.len() ==> (r.is_some() <==> num_value(
            s@,
            0,
            s@.len() as int,
        ) <= u16::MAX) && (r.is_some() ==> r.unwrap() == num_value(s@, 0, s@.len() as int)),
{
    s.parse::<u16>().ok()
}

/// Two configs hold the same values.
pub open spec fn same_config(a: Config, b: Config) -> bool {
    &&& opt_str(a.aws.access_key) == opt_str(b.aws.access_key)
    &&& opt_str(a.aws.secret_key) == opt_str(b.aws.secret_key)
    &&& opt_str(a.aws.bucket_url) == opt_str(b.aws.bucket_url)
    &&& opt_str(a.aws.region) == opt_str(b.aws.region)
    &&& opt_str(a.server.host) == opt_str(b.server.host)
    &&& a.server.port == b.server.port
    &&& a.server.healthcheck_ttl == b.server.healthcheck_ttl
    &&& a.server.sync_interval == b.server.sync_interval
    &&& a.server.threads == b.server.threads
    &&& opt_str(a.log.level) == opt_str(b.log.level)
    &&& opt_str(a.log.file) == opt_str(b.log.file)
    &&& opt_str(a.symbol_dir) == opt_str(b.symbol_dir)
}

impl Config {
    /// A config with no keys set.
    pub fn empty() -> (r: Config)
        ensures
            r.aws.access_key.is_none() && r.aws.secret_key.is_none() && r.aws.bucket_url.is_none()
                && r.aws.region.is_none() && r.server.host.is_none() && r.server.port.is_none()
                && r.server.healthcheck_ttl.is_none() && r.server.sync_interval.is_none()
                && r.server.threads.is_none() && r.log.level.is_none() && r.log.file.is_none()
                && r.symbol_dir.is_none(),
    {
        Config {
            aws: AwsConfig { access_key: None, secret_key: None, bucket_url: None, region: None },
            server: ServerConfig {
                host: None,
                port: None,
                healthcheck_ttl: None,
                sync_interval: None,
                threads: None,
            },
            log: LogConfig { level: None, file: None },
            symbol_dir: None,
        }
    }

    /// A copy holding the same values.
    pub fn duplicate(&self) -> (r: Config)
        ensures
            same_config(r, *self),
    {
        Config {
            aws: AwsConfig {
                access_key: copy_opt(&self.aws.access_key),
                secret_key: copy_opt(&self.aws.secret_key),
                bucket_url: copy_opt(&self.aws.bucket_url),
                region: copy_opt(&self.aws.region),
            },
            server: ServerConfig {
                host: copy_opt(&self.server.host),
                port: self.server.port,
                healthcheck_ttl: self.server.healthcheck_ttl,
                sync_interval: self.server.sync_interval,
                threads: self.server.threads,
            },
            log: LogConfig { level: copy_opt(&self.log.level), file: copy_opt(&self.log.file) },
            symbol_dir: copy_opt(&self.symbol_dir),
        }
    }

    /// The AWS access key.
    pub fn get_aws_access_key(&self) -> (r: Option<&str>)
        ensures
            r.is_some() == self.aws.access_key.is_some(),
            r.is_some() ==> r.unwrap()@ == self.aws.access_key.unwrap()@,
    {
        as_opt_str(&self.aws.access_key)
    }

    /// The AWS secret key.
    pub fn get_aws_secret_key(&self) -> (r: Option<&str>)
        ensures
            r.is_some() == self.aws.secret_key.is_some(),
            r.is_some() ==> r.unwrap()@ == self.aws.secret_key.unwrap()@,
    {
        as_opt_str(&self.aws.secret_key)
    }

    /// Overrides the AWS bucket URL.
    pub fn set_aws_bucket_url(&mut self, value: &str)
        ensures
            opt_str(final(self).aws.bucket_url) == Some(value@),
            same_config(
                *final(self),
                Config {
                    aws: AwsConfig { bucket_url: final(self).aws.bucket_url, ..old(self).aws },
                    ..*old(self)
                },
            ),
    {
        self.aws.bucket_url = Some(value.to_owned());
    }

    /// Overrides the symbol dir.
    pub fn set_symbol_dir(&mut self, value: &str)
        ensures
            opt_str(final(self).symbol_dir) == Some(value@),
            same_config(*final(self), Config { symbol_dir: final(self).symbol_dir, ..*old(self) }),
    {
        self.symbol_dir = Some(value.to_owned());
    }

    /// The host to bind: the configured one, else the `IP` variable of the
    /// environment, else all interfaces inside docker, else localhost.
    pub fn get_server_host(&self, env_ip: Option<&str>, is_docker: bool) -> (r: String)
        ensures
            self.server.host.is_some() ==> r@ == self.server.host.unwrap()@,
            self.server.host.is_none() && env_ip.is_some() ==> r@ == env_ip.unwrap()@,
            self.server.host.is_none() && env_ip.is_none() && is_docker ==> r@ == "0.0.0.0"@,
            self.server.host.is_none() && env_ip.is_none() && !is_docker ==> r@ == "127.0.0.1"@,
    {
        match &self.server.host {
            Some(h) => h.as_str().to_owned(),
            None => match env_ip {
                Some(ip) => ip.to_owned(),
                None => if is_docker {
                    "0.0.0.0".to_owned()
                } else {
                    "127.0.0.1".to_owned()
                },
            },
        }
    }

    /// The port to bind: the configured one, else the `PORT` variable of
    /// the environment, else 3000.
    pub fn get_server_port(&self, env_port: Option<&str>) -> (r: Result<u16, Error>)
        ensures
            self.server.port.is_some() ==> r == Ok::<u16, Error>(self.server.port.unwrap()),
            self.server.port.is_none() && env_port.is_none() ==> r == Ok::<u16, Error>(3000),
            self.server.port.is_none() && env_port.is_some() ==> ({
                let s = env_port.unwrap()@;
                s.len() > 0 && digit_end(s, 0) == s.len() ==> (r.is_ok() <==> num_value(
                    s,
                    0,
                    s.len() as int,
                ) <= u16::MAX) && (r matches Ok(p) ==> p == num_value(s, 0, s.len() as int))
            }),
    {
        match self.server.port {
            Some(p) => Ok(p),
            None => match env_port {
                Some(s) => match parse_u16(s) {
                    Some(p) => Ok(p),
                    None => Err(
                        Error::BadConfigKey("server.port".to_owned(), "Invalid value for port".to_owned()),
                    ),
                },
                None => Ok(3000),
            },
        }
    }

    /// The bind target of the HTTP server.
    pub fn get_server_socket_addr(
        &self,
        env_ip: Option<&str>,
        env_port: Option<&str>,
        is_docker: bool,
    ) -> (r: Result<(String, u16), Error>)
        ensures
            r matches Ok((h, p)) ==> (self.server.host.is_some() ==> h@
                == self.server.host.unwrap()@) && (self.server.port.is_some() ==> p
                == self.server.port.unwrap()),
            self.server.port.is_some() || env_port.is_none() ==> r.is_ok(),
            r matches Ok((h, p)) ==> self.server.host.is_none() && env_ip.is_some() ==> h@
                == env_ip.unwrap()@,
            r matches Ok((h, p)) ==> self.server.port.is_none() && env_port.is_none() ==> p
                == 3000,
    {
        let host = self.get_server_host(env_ip, is_docker);
        let port = match self.get_server_port(env_port) {
            Ok(p) => p,
            Err(e) => {
                return Err(e);
            },
        };
        Ok((host, port))
    }

    /// The health check time-to-live in seconds, 60 unless configured.
    pub fn get_server_healthcheck_ttl(&self) -> (r: u32)
        ensures
            r == match self.server.healthcheck_ttl {
                Some(t) => t,
                None => 60,
            },
    {
        match self.server.healthcheck_ttl {
            Some(t) => t,
            None => 60,
        }
    }

    /// The sync interval in seconds, 60 unless configured; it has to be
    /// positive.
    pub fn get_server_sync_interval(&self) -> (r: Result<u32, Error>)
        ensures
            self.server.sync_interval == Some(0u32) <==> r.is_err(),
            r matches Ok(t) ==> t == match self.server.sync_interval {
                Some(t) => t,
                None => 60,
            },
    {
        let ttl = match self.server.sync_interval {
            Some(t) => t,
            None => 60,
        };
        if ttl == 0 {
            Err(
                Error::BadConfigKey(
                    "server.sync_interval".to_owned(),
                    "Sync interval has to be positive".to_owned(),
                ),
            )
        } else {
            Ok(ttl)
        }
    }

    /// The log level filter: the configured one, else `Info`.
    pub fn get_log_level_filter(&self) -> (r: Result<LogLevelFilter, Error>)
        ensures
            self.log.level.is_none() ==> r == Ok::<LogLevelFilter, Error>(LogLevelFilter::Info),
            self.log.level.is_some() ==> match level_of_name(self.log.level.unwrap()@) {
                Some(l) => r == Ok::<LogLevelFilter, Error>(l),
                None => match r {
                    Err(Error::BadConfigKey(k, m)) => k@ == "log.level"@ && m@ == "unknown log level"@,
                    _ => false,
                },
            },
    {
        match &self.log.level {
            Some(lvl) => match LogLevelFilter::parse(lvl.as_str()) {
                Some(l) => Ok(l),
                None => Err(
                    Error::BadConfigKey("log.level".to_owned(), "unknown log level".to_owned()),
                ),
            },
            None => Ok(LogLevelFilter::Info),
        }
    }

    /// Overrides the log level filter.
    pub fn set_log_level_filter(&mut self, value: LogLevelFilter)
        ensures
            opt_str(final(self).log.level) == Some(level_name(value)),
            same_config(
                *final(self),
                Config { log: LogConfig { level: final(self).log.level, ..old(self).log }, ..*old(self) },
            ),
    {
        self.log.level = Some(value.name());
    }

    /// The log file name, if one is configured.
    pub fn get_log_filename(&self) -> (r: Result<Option<&str>, Error>)
        ensures
            r matches Ok(o) && o.is_some() == self.log.file.is_some() && (o.is_some()
                ==> o.unwrap()@ == self.log.file.unwrap()@),
    {
        Ok(as_opt_str(&self.log.file))
    }
}

/// The HTTP API server's state: its configuration.
pub struct ApiServer {
    config: Config,
}

impl ApiServer {
    pub closed spec fn spec_config(&self) -> Config {
        self.config
    }

    /// A server for a configuration.
    pub fn new(config: &Config) -> (r: Result<ApiServer, Error>)
        ensures
            r matches Ok(s) && same_config(s.spec_config(), *config),
    {
        Ok(ApiServer { config: config.duplicate() })
    }

    /// The server's configuration.
    pub fn config(&self) -> (r: &Config)
        ensures
            *r == self.spec_config(),
    {
        &self.config
    }
}

} // verus!
