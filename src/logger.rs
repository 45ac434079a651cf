//! The text of log entries and where the log file lies; writing the file
//! is left to the caller.

use vstd::prelude::*;
use crate::text::{path_join, join_file_path};

verus! {

/// An append-only log in the file `app.log` of a directory.
pub struct Logger {
    log_file_path: String,
}

impl Logger {
    pub closed spec fn path(&self) -> Seq<char> {
        self.log_file_path@
    }

    /// The log kept in `directory_path`.
    pub fn new(directory_path: &str) -> (r: Logger)
        ensures
            r.path() == path_join(directory_path@, "app.log"@),
    {
        let log_file_path = join_file_path(directory_path, "app.log");
        Logger { log_file_path }
    }

    /// The entry for an informational message.
    pub fn info(&self, message: &str) -> (r: String)
        ensures
            r@ == "INFO: "@ + message@,
    {
        String::from_str("INFO: ").concat(message)
    }

    /// The entry for a warning.
    pub fn warn(&self, message: &str) -> (r: String)
        ensures
            r@ == "WARN: "@ + message@,
    {
        String::from_str("WARN: ").concat(message)
    }

    /// The entry for an error.
    pub fn error(&self, message: &str) -> (r: String)
        ensures
            r@ == "ERROR: "@ + message@,
    {
        String::from_str("ERROR: ").concat(message)
    }

    /// The entry for a debugging message.
    pub fn debug(&self, message: &str) -> (r: String)
        ensures
            r@ == "DEBUG: "@ + message@,
    {
        String::from_str("DEBUG: ").concat(message)
    }

    pub fn log_file_path(&self) -> (r: &str)
        ensures
            r@ == self.path(),
    {
        self.log_file_path.as_str()
    }

    pub fn get_log_file_path(&self) -> (r: &String)
        ensures
            r@ == self.path(),
    {
        &self.log_file_path
    }
}

/// The line that records `entry` at `timestamp`.
pub fn log_line(timestamp: &str, entry: &str) -> (r: String)
    ensures
        r@ == "["@ + timestamp@ + "] "@ + entry@ + "\n"@,
{
    String::from_str("[").concat(timestamp).concat("] ").concat(entry).concat("\n")
}

} // verus!
