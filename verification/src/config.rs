use vstd::prelude::*;
use vstd::string::*;
use crate::number::{parse_unsigned, unsigned_value};

verus! {

/// Number of threads used when none is given.
pub const DEFAULT_THREADS: u32 = 1;

/// First port scanned when none is given.
pub const DEFAULT_START_PORT: u16 = 0;

/// Last port scanned when none is given: the largest port there is.
pub const DEFAULT_END_PORT: u16 = 65535;

/// Connection timeout in milliseconds used when none is given.
pub const DEFAULT_TIMEOUT: u64 = 250;

/// What is wrong with a rejected configuration.
#[derive(Clone, Copy, Debug, PartialEq, Eq, Structural)]
pub enum ConfigErrorKind {
    /// The host is empty.
    InvalidHost,
    /// A port is not a number between 0 and 65535.
    InvalidPort,
    /// The end port is smaller than the start port.
    InvalidRange,
    /// The thread count is not a number, or smaller than 1.
    InvalidThreadCount,
    /// The timeout is not a number, or smaller than 1.
    InvalidTimeout,
}

/// The mathematical value of a [`ConfigError`].
pub struct ConfigErrorView {
    pub kind: ConfigErrorKind,
    pub message: Seq<char>,
}

/// A fatal configuration error: its kind and a descriptive message.
#[derive(Debug)]
pub struct ConfigError {
    pub kind: ConfigErrorKind,
    pub message: String,
}

impl View for ConfigError {
    type V = ConfigErrorView;

    open spec fn view(&self) -> ConfigErrorView {
        ConfigErrorView { kind: self.kind, message: self.message@ }
    }
}

impl ConfigError {
    /// Initialize a new `ConfigError` of the given kind. The message must
    /// not be empty.
    pub fn new(kind: ConfigErrorKind, message: &str) -> (error: ConfigError)
        requires
            message@.len() > 0,
        ensures
            error@ == (ConfigErrorView { kind: kind, message: message@ }),
    {
        ConfigError { kind, message: String::from_str(message) }
    }
}

/// The validated parameters of one scan.
#[derive(Debug)]
pub struct Config {
    /// The host (or IP address) that needs to be scanned.
    pub host: String,
    /// The initial port that needs to be scanned.
    pub start_port: u16,
    /// The final port that needs to be scanned.
    pub end_port: u16,
    /// The amount of threads that need to be used to perform the scan.
    pub threads: u32,
    /// The connection timeout, in milliseconds, before a port is marked as closed.
    pub timeout: u64,
    /// Whether closed ports are left out of the results.
    pub no_closed: bool,
    /// Whether the results are sorted by port number.
    pub sort: bool,
    /// Whether results are displayed while the scan runs.
    pub interactive: bool,
}

/// The settings as they were entered, before any of them is parsed. A number
/// that was not entered is `None` and takes its default.
#[derive(Debug)]
pub struct RawArgs {
    pub host: String,
    pub threads: Option<String>,
    pub start_port: Option<String>,
    pub end_port: Option<String>,
    pub timeout: Option<String>,
    pub no_closed: bool,
    pub unsorted: bool,
    pub interactive: bool,
}

/// The error with which the port bounds, thread count and timeout are
/// rejected, if they are: the range is checked first, then the thread count,
/// then the timeout.
pub open spec fn validation_error(start_port: u16, end_port: u16, threads: u32, timeout: u64)
    -> Option<ConfigErrorView> {
    if end_port < start_port {
        Some(
            ConfigErrorView {
                kind: ConfigErrorKind::InvalidRange,
                message: "End port cannot be smaller than start port!"@,
            },
        )
    } else if threads < 1 {
        Some(
            ConfigErrorView {
                kind: ConfigErrorKind::InvalidThreadCount,
                message: "Threads cannot be smaller than 1!"@,
            },
        )
    } else if timeout < 1 {
        Some(
            ConfigErrorView {
                kind: ConfigErrorKind::InvalidTimeout,
                message: "Timeout cannot be smaller than 1!"@,
            },
        )
    } else {
        None
    }
}

/// The number that a setting stands for: its default where it was not
/// entered, else the unsigned decimal number that the text writes, if it
/// writes one that is at most `max`.
pub open spec fn setting_value(text: Option<String>, default: nat, max: nat) -> Option<nat> {
    match text {
        None => Some(default),
        Some(t) => unsigned_value(t@, max),
    }
}

impl RawArgs {
    /// The thread count that was entered, if it is a number.
    pub open spec fn threads_value(self) -> Option<nat> {
        setting_value(self.threads, DEFAULT_THREADS as nat, u32::MAX as nat)
    }

    /// The start port that was entered, if it is a port number.
    pub open spec fn start_port_value(self) -> Option<nat> {
        setting_value(self.start_port, DEFAULT_START_PORT as nat, u16::MAX as nat)
    }

    /// The end port that was entered, if it is a port number.
    pub open spec fn end_port_value(self) -> Option<nat> {
        setting_value(self.end_port, DEFAULT_END_PORT as nat, u16::MAX as nat)
    }

    /// The timeout that was entered, if it is a number.
    pub open spec fn timeout_value(self) -> Option<nat> {
        setting_value(self.timeout, DEFAULT_TIMEOUT as nat, u64::MAX as nat)
    }

    /// The error with which these settings are rejected, if they are. The
    /// host is checked first, then each number is parsed in the order thread
    /// count, start port, end port, timeout, then the numbers are validated.
    pub open spec fn error(self) -> Option<ConfigErrorView> {
        if self.host@.len() == 0 {
            Some(
                ConfigErrorView {
                    kind: ConfigErrorKind::InvalidHost,
                    message: "Host cannot be empty!"@,
                },
            )
        } else if self.threads_value() is None {
            Some(
                ConfigErrorView {
                    kind: ConfigErrorKind::InvalidThreadCount,
                    message: "Input is not a valid integer!"@,
                },
            )
        } else if self.start_port_value() is None {
            Some(
                ConfigErrorView {
                    kind: ConfigErrorKind::InvalidPort,
                    message: "Start port is not a valid port number!"@,
                },
            )
        } else if self.end_port_value() is None {
            Some(
                ConfigErrorView {
                    kind: ConfigErrorKind::InvalidPort,
                    message: "End port is not a valid port number!"@,
                },
            )
        } else if self.timeout_value() is None {
            Some(
                ConfigErrorView {
                    kind: ConfigErrorKind::InvalidTimeout,
                    message: "Timeout is not a valid integer!"@,
                },
            )
        } else {
            validation_error(
                self.start_port_value().unwrap() as u16,
                self.end_port_value().unwrap() as u16,
                self.threads_value().unwrap() as u32,
                self.timeout_value().unwrap() as u64,
            )
        }
    }

    /// The configuration that these settings describe where none of them is
    /// rejected. Results are sorted unless `unsorted` is set.
    pub open spec fn config(self) -> Config {
        Config {
            host: self.host,
            start_port: self.start_port_value().unwrap() as u16,
            end_port: self.end_port_value().unwrap() as u16,
            threads: self.threads_value().unwrap() as u32,
            timeout: self.timeout_value().unwrap() as u64,
            no_closed: self.no_closed,
            sort: !self.unsorted,
            interactive: self.interactive,
        }
    }
}

/// What an answer typed at a prompt stands for: an empty answer leaves the
/// setting unset, so that it takes its default; any other is the text to
/// parse.
pub fn answer(line: String) -> (text: Option<String>)
    ensures
        text == if line@.len() == 0 {
            None
        } else {
            Some(line)
        },
{
    if line.as_str().is_empty() {
        None
    } else {
        Some(line)
    }
}

/// Parses one setting, or takes its default where it was not entered.
fn read_setting(text: &Option<String>, default: u64, max: u64) -> (value: Option<u64>)
    requires
        default <= max,
    ensures
        match setting_value(*text, default as nat, max as nat) {
            Some(n) => value == Some(n as u64),
            None => value is None,
        },
{
    match text {
        None => Some(default),
        Some(t) => parse_unsigned(t.as_str(), max),
    }
}

impl Config {
    /// A configuration is valid when its range is not empty and its thread
    /// count and timeout are at least 1.
    pub open spec fn is_valid(&self) -> bool {
        &&& self.start_port <= self.end_port
        &&& self.threads >= 1
        &&& self.timeout >= 1
    }

    /// Number of ports in the range of a valid configuration.
    pub open spec fn total_ports(&self) -> int {
        self.end_port - self.start_port + 1
    }

    /// Whether the configuration is valid. One that [`Config::new`] made is.
    pub fn validate(&self) -> (valid: bool)
        ensures
            valid == self.is_valid(),
    {
        self.start_port <= self.end_port && self.threads >= 1 && self.timeout >= 1
    }

    /// Initialize a new `Config`, or reject the settings: an end port
    /// smaller than the start port, a thread count smaller than 1 or a
    /// timeout smaller than 1, checked in this order.
    pub fn new(
        host: String,
        start_port: u16,
        end_port: u16,
        threads: u32,
        timeout: u64,
        no_closed: bool,
        sort: bool,
        interactive: bool,
    ) -> (result: Result<Config, ConfigError>)
        ensures
            match result {
                Ok(config) => {
                    &&& validation_error(start_port, end_port, threads, timeout) is None
                    &&& config.is_valid()
                    &&& config == (Config {
                        host,
                        start_port,
                        end_port,
                        threads,
                        timeout,
                        no_closed,
                        sort,
                        interactive,
                    })
                },
                Err(error) => validation_error(start_port, end_port, threads, timeout) == Some(
                    error@,
                ),
            },
    {
        if end_port < start_port {
            proof {
                reveal_strlit("End port cannot be smaller than start port!");
            }
            return Err(
                ConfigError::new(
                    ConfigErrorKind::InvalidRange,
                    "End port cannot be smaller than start port!",
                ),
            );
        }
        if threads < 1 {
            proof {
                reveal_strlit("Threads cannot be smaller than 1!");
            }
            return Err(
                ConfigError::new(
                    ConfigErrorKind::InvalidThreadCount,
                    "Threads cannot be smaller than 1!",
                ),
            );
        }
        if timeout < 1 {
            proof {
                reveal_strlit("Timeout cannot be smaller than 1!");
            }
            return Err(
                ConfigError::new(
                    ConfigErrorKind::InvalidTimeout,
                    "Timeout cannot be smaller than 1!",
                ),
            );
        }
        Ok(Config { host, start_port, end_port, threads, timeout, no_closed, sort, interactive })
    }

    /// Builds the `Config` from the settings as they were entered: rejects
    /// an empty host, parses each number or takes its default, and validates
    /// the numbers as [`Config::new`] does.
    pub fn read_from_args(args: RawArgs) -> (result: Result<Config, ConfigError>)
        ensures
            match result {
                Ok(config) => args.error() is None && config.is_valid() && config == args.config(),
                Err(error) => args.error() == Some(error@),
            },
    {
        if args.host.as_str().is_empty() {
            proof {
                reveal_strlit("Host cannot be empty!");
            }
            return Err(ConfigError::new(ConfigErrorKind::InvalidHost, "Host cannot be empty!"));
        }
        let threads: u32 = match read_setting(&args.threads, DEFAULT_THREADS as u64, u32::MAX as u64) {
            Some(n) => n as u32,
            None => {
                proof {
                    reveal_strlit("Input is not a valid integer!");
                }
                return Err(
                    ConfigError::new(
                        ConfigErrorKind::InvalidThreadCount,
                        "Input is not a valid integer!",
                    ),
                );
            },
        };
        let start_port: u16 = match read_setting(
            &args.start_port,
            DEFAULT_START_PORT as u64,
            u16::MAX as u64,
        ) {
            Some(n) => n as u16,
            None => {
                proof {
                    reveal_strlit("Start port is not a valid port number!");
                }
                return Err(
                    ConfigError::new(
                        ConfigErrorKind::InvalidPort,
                        "Start port is not a valid port number!",
                    ),
                );
            },
        };
        let end_port: u16 = match read_setting(
            &args.end_port,
            DEFAULT_END_PORT as u64,
            u16::MAX as u64,
        ) {
            Some(n) => n as u16,
            None => {
                proof {
                    reveal_strlit("End port is not a valid port number!");
                }
                return Err(
                    ConfigError::new(
                        ConfigErrorKind::InvalidPort,
                        "End port is not a valid port number!",
                    ),
                );
            },
        };
        let timeout: u64 = match read_setting(&args.timeout, DEFAULT_TIMEOUT, u64::MAX) {
            Some(n) => n,
            None => {
                proof {
                    reveal_strlit("Timeout is not a valid integer!");
                }
                return Err(
                    ConfigError::new(
                        ConfigErrorKind::InvalidTimeout,
                        "Timeout is not a valid integer!",
                    ),
                );
            },
        };
        Config::new(
            args.host,
            start_port,
            end_port,
            threads,
            timeout,
            args.no_closed,
            !args.unsorted,
            args.interactive,
        )
    }
}

} // verus!
