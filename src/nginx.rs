//! Reloading the proxy: which process the reload signal goes to.

use crate::text::{decimal_in_range, parse_decimal, trim, trimmed};
use vstd::prelude::*;

verus! {

/// Why the proxy could not be reloaded.
#[derive(Debug, Clone, Copy, PartialEq, Eq, Structural)]
pub enum ReloadError {
    /// The pid file could not be read.
    PidUnreadable,
    /// The pid file does not hold a process id.
    InvalidPid,
    /// The signal could not be delivered.
    SignalFailed,
}

/// The process id that trimmed pid-file text gives: a decimal number from 1
/// to `i32::MAX`. Zero and negative numbers name process groups, not a process.
pub open spec fn spec_pid(t: Seq<char>) -> Result<i32, ReloadError> {
    match decimal_in_range(t, 1, i32::MAX as int) {
        Some(v) => Ok(v as i32),
        None => Err(ReloadError::InvalidPid),
    }
}

/// The process id written in `text`, which holds no surrounding whitespace.
pub fn pid_from_text(text: &str) -> (r: Result<i32, ReloadError>)
    ensures
        r == spec_pid(text@),
{
    match parse_decimal(text, 1, 0x7fff_ffff) {
        Some(v) => Ok(v as i32),
        None => Err(ReloadError::InvalidPid),
    }
}

/// The process id that the pid file's content gives, surrounding whitespace
/// aside.
pub fn get_nginx_pid(content: &str) -> (r: Result<i32, ReloadError>)
    ensures
        r == spec_pid(trimmed(content@)),
{
    pid_from_text(trim(content))
}

/// The process that a reload signals, from the pid file's content (`None`:
/// the file could not be read).
pub fn reload_nginx(pid_file: Option<&str>) -> (r: Result<i32, ReloadError>)
    ensures
        pid_file is None ==> r == Err::<i32, ReloadError>(ReloadError::PidUnreadable),
        pid_file matches Some(c) ==> r == spec_pid(trimmed(c@)),
{
    match pid_file {
        Some(content) => get_nginx_pid(content),
        None => Err(ReloadError::PidUnreadable),
    }
}

} // verus!
