//! The log that tells when a server started and why it stopped.

use vstd::prelude::*;
use crate::clock;
use crate::clock::Timestamp;
use crate::paths;
use crate::text;

verus! {

/// The size in bytes above which a log is set aside at the start.
pub const MAX_LOG_BYTES: u64 = 5242880;

/// The log file below the home directory: only where the tools have a directory there.
pub fn default_log_path_under(home: &str, artesian_home_is_dir: bool) -> (r: Option<String>)
    ensures
        text::text_opt(r) == (if artesian_home_is_dir {
            Some(
                paths::joined(
                    paths::joined(paths::joined(home@, ".artesian"@), "logs"@),
                    "mcp.log"@,
                ),
            )
        } else {
            None
        }),
{
    if artesian_home_is_dir {
        let base = paths::join(home, ".artesian");
        Some(paths::join(paths::join(base.as_str(), "logs").as_str(), "mcp.log"))
    } else {
        None
    }
}

/// Where a log is set aside when it is too large, from its size; a log that is not there is not.
pub fn rotate_if_oversized(path: &str, size: Option<u64>) -> (r: Option<String>)
    ensures
        text::text_opt(r) == (if size is Some && size->0 > MAX_LOG_BYTES {
            Some(path@ + ".1"@)
        } else {
            None
        }),
{
    match size {
        Some(size) => if size > MAX_LOG_BYTES {
            let mut out = path.to_owned();
            out.append(".1");
            Some(out)
        } else {
            None
        },
        None => None,
    }
}

/// The message for the start of a server.
pub fn startup_message(version: &str, pid: u32, config_path: Option<&str>) -> (r: String)
    ensures
        r@ == "startup version="@ + version@ + " pid="@ + text::decimal(pid as nat) + " config="@ + (
        match config_path {
            Some(path) => path@,
            None => "<none>"@,
        }),
{
    let mut out = "startup version=".to_owned();
    out.append(version);
    out.append(" pid=");
    let digits = text::decimal_u64(pid as u64);
    out.append(digits.as_str());
    out.append(" config=");
    match config_path {
        Some(path) => out.append(path),
        None => out.append("<none>"),
    }
    out
}

/// The message for a server whose client hung up.
pub fn shutdown_message() -> (r: &'static str)
    ensures
        r@ == "shutdown reason=stdin-eof"@,
{
    "shutdown reason=stdin-eof"
}

/// The message for a server whose connection failed.
pub fn transport_error_message(error: &str) -> (r: String)
    ensures
        r@ == "error transport/serve failed: "@ + error@,
{
    let mut out = "error transport/serve failed: ".to_owned();
    out.append(error);
    out
}

/// A line of the log: the time and the message.
pub open spec fn line_text(time: Seq<char>, message: Seq<char>) -> Seq<char> {
    time + " "@ + message + "\n"@
}

/// A line of the log, from the time as text.
pub fn log_line(time: &str, message: &str) -> (r: String)
    ensures
        r@ == line_text(time@, message@),
{
    let mut out = time.to_owned();
    out.append(" ");
    out.append(message);
    out.append("\n");
    out
}

/// A line of the log for a given time, when the time can be written.
pub fn line_at(time: Timestamp, message: &str) -> (r: Option<String>)
    ensures
        text::text_opt(r) == (match clock::rfc3339_text(time.secs, time.nanos) {
            Some(written) => Some(line_text(written, message@)),
            None => None,
        }),
{
    match clock::rfc3339(time) {
        Some(written) => Some(log_line(written.as_str(), message)),
        None => None,
    }
}

/// A line of the log for now: whatever the clock says, the message stands in it behind the time.
pub fn line_now(message: &str) -> (r: String)
    ensures
        exists|secs: i64, nanos: u32|
            (#[trigger] clock::rfc3339_text(secs, nanos)) is Some && r@ == line_text(
                clock::rfc3339_text(secs, nanos)->0,
                message@,
            ),
{
    let time = clock::now();
    match clock::rfc3339(time) {
        Some(written) => log_line(written.as_str(), message),
        None => String::new(),
    }
}

/// The log file that is used: the one that was asked for, else the default one.
pub fn choose_log_path(explicit: Option<String>, default_path: Option<String>) -> (r: Option<String>)
    ensures
        r == (if explicit is Some {
            explicit
        } else {
            default_path
        }),
{
    match explicit {
        Some(path) => Some(path),
        None => default_path,
    }
}

/// What is said when the log file cannot be opened.
pub fn open_warning(path: &str, error: &str) -> (r: String)
    ensures
        r@ == "warning: artesian-mcp could not open --log-file "@ + path@ + ": "@ + error@,
{
    let mut out = "warning: artesian-mcp could not open --log-file ".to_owned();
    out.append(path);
    out.append(": ");
    out.append(error);
    out
}

} // verus!
