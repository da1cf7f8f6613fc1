//! Supervisor configuration. The surrounding binary gathers the raw
//! settings (from `RUSTYSD_`-prefixed environment variables); this module
//! turns them into the configuration the supervisor runs with, filling in
//! the documented defaults. The log directory, the notification-socket
//! directory and the unit directories are three independent settings.

use vstd::prelude::*;

verus! {

/// Where the log formatter persists its output.
pub struct LoggingConfig {
    pub log_dir: String,
}

/// The supervisor's own configuration.
pub struct Config {
    /// Directories searched for unit files.
    pub unit_dirs: Vec<String>,
    /// Directory holding the per-service notification sockets.
    pub notification_sockets_dir: String,
}

/// Build the configuration from the raw settings: `logging.dir` (default
/// `./logs`), `notifications.dir` (default `./notifications`) and
/// `unit.dirs` (default `./test_units`), each surfaced independently.
pub fn assemble_config(
    log_dir: Option<String>,
    notification_dir: Option<String>,
    unit_dirs: Option<String>,
) -> (r: (LoggingConfig, Config))
    ensures
        r.0.log_dir@ == (match log_dir {
            Some(d) => d@,
            None => "./logs"@,
        }),
        r.1.notification_sockets_dir@ == (match notification_dir {
            Some(d) => d@,
            None => "./notifications"@,
        }),
        r.1.unit_dirs@.len() == 1,
        r.1.unit_dirs@[0]@ == (match unit_dirs {
            Some(d) => d@,
            None => "./test_units"@,
        }),
{
    let log_dir = match log_dir {
        Some(d) => d,
        None => String::from_str("./logs"),
    };
    let notification_sockets_dir = match notification_dir {
        Some(d) => d,
        None => String::from_str("./notifications"),
    };
    let unit_dir = match unit_dirs {
        Some(d) => d,
        None => String::from_str("./test_units"),
    };
    let mut dirs: Vec<String> = Vec::new();
    dirs.push(unit_dir);
    (LoggingConfig { log_dir }, Config { unit_dirs: dirs, notification_sockets_dir })
}

} // verus!
