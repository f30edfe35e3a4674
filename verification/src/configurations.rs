//! Process configuration as plain values. Reading configuration from
//! files or the environment belongs to the boundary; these types only
//! carry what it hands over, with the documented defaults.

use vstd::prelude::*;
use vstd::string::StringExecFns;

verus! {

/// Where the HTTP boundary should listen.
#[derive(Clone, Debug)]
pub struct ApplicationSettings {
    pub port: u16,
    pub host: String,
}

/// Where the backing store lives.
#[derive(Clone, Debug)]
pub struct DatabaseSettings {
    pub url: String,
}

/// Where and how verbosely to log.
#[derive(Clone, Debug)]
pub struct LogSettings {
    pub level: String,
    pub dir: String,
}

/// Everything the process needs to start.
#[derive(Clone, Debug)]
pub struct Settings {
    pub database: DatabaseSettings,
    pub application: ApplicationSettings,
    pub log: LogSettings,
}

impl Default for Settings {
    /// The settings used when nothing overrides them.
    fn default() -> (s: Settings)
        ensures
            s.application.host@ == "localhost"@,
            s.application.port == 12345,
            s.database.url@ == ".secret/secret.db"@,
            s.log.dir@ == ".secret/logs/"@,
            s.log.level@ == "info"@,
    {
        Settings {
            database: DatabaseSettings { url: String::from_str(".secret/secret.db") },
            application: ApplicationSettings {
                port: 12345,
                host: String::from_str("localhost"),
            },
            log: LogSettings {
                level: String::from_str("info"),
                dir: String::from_str(".secret/logs/"),
            },
        }
    }
}

/// The address a started application serves on.
pub struct ApplicationUrl(pub String);

} // verus!
