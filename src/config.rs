//! Where the store and its backup live, and the small settings read at
//! start-up.
use crate::path::{join_path, joined};
use vstd::prelude::*;
use vstd::string::StringExecFns;

verus! {

/// The store file, relative to the data directory.
pub const DB_FILE: &'static str = "fastjump/fastjump.db";

/// The backup file, relative to the data directory.
pub const BACKUP_FILE: &'static str = "fastjump/fastjump.db.bak";

/// Paths of the store file and of its backup.
pub struct Config {
    pub data_path: String,
    pub backup_path: String,
}

impl Config {
    /// The store and backup files under the data directory `data_home`.
    pub fn default(data_home: &String) -> (r: Config)
        ensures
            r.data_path@ == joined(data_home@, DB_FILE@),
            r.backup_path@ == joined(data_home@, BACKUP_FILE@),
    {
        let db = String::from_str(DB_FILE);
        let bak = String::from_str(BACKUP_FILE);
        Config { data_path: join_path(data_home, &db), backup_path: join_path(data_home, &bak) }
    }
}

/// How much the program logs.
#[derive(Debug, Clone, Copy, PartialEq, Eq, Structural)]
pub enum Verbosity {
    Off,
    Error,
    Warn,
    Info,
    Debug,
    Trace,
}

/// The level for a count of `-v` flags added to the base level.
pub fn into_level(verbose: u32) -> (r: Verbosity)
    ensures
        verbose == 0 ==> r == Verbosity::Off,
        verbose == 1 ==> r == Verbosity::Error,
        verbose == 2 ==> r == Verbosity::Warn,
        verbose == 3 ==> r == Verbosity::Info,
        verbose == 4 ==> r == Verbosity::Debug,
        verbose >= 5 ==> r == Verbosity::Trace,
{
    match verbose {
        0 => Verbosity::Off,
        1 => Verbosity::Error,
        2 => Verbosity::Warn,
        3 => Verbosity::Info,
        4 => Verbosity::Debug,
        _ => Verbosity::Trace,
    }
}

/// Whether a flag given some number of times is on.
pub fn toggle_bool(i: u64) -> (r: bool)
    ensures
        r == (i > 0),
{
    i > 0
}

/// Why the shell environment is not ready.
#[derive(Debug, Clone, Copy, PartialEq, Eq, Structural)]
pub enum EnvError {
    /// The shell startup file does not source the integration script.
    NotSourced,
}

/// Whether the value of the `FASTJUMP_SOURCED` variable says that the shell
/// integration was sourced: it must be set, and not to `0` or `false`.
pub open spec fn is_sourced_spec(value: &Option<String>) -> bool {
    match value {
        None => false,
        Some(v) => v@ != "0"@ && v@ != "false"@,
    }
}

/// Whether the value of the `FASTJUMP_SOURCED` variable says that the shell
/// integration was sourced.
pub fn is_sourced(value: &Option<String>) -> (r: bool)
    ensures
        r == is_sourced_spec(value),
{
    proof {
        reveal_strlit("0");
        reveal_strlit("false");
    }
    match value {
        None => false,
        Some(v) => {
            let zero = String::from_str("0");
            let no = String::from_str("false");
            !(*v == zero) && !(*v == no)
        },
    }
}

/// Checks that the shell integration was sourced, from the value of the
/// `FASTJUMP_SOURCED` variable.
pub fn environment_check(sourced: &Option<String>) -> (r: Result<(), EnvError>)
    ensures
        r is Ok <==> is_sourced_spec(sourced),
        r is Err ==> r == Err::<(), EnvError>(EnvError::NotSourced),
{
    if is_sourced(sourced) {
        Ok(())
    } else {
        Err(EnvError::NotSourced)
    }
}

} // verus!
