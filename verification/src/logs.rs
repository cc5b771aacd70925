//! The logger: a console sink. Composing a log line is pure and done here;
//! stamping and printing it is the caller's side effect.

use vstd::prelude::*;

verus! {

/// A line-oriented console logger.
pub struct Logger;

impl Logger {
    /// A fresh logger.
    pub fn new() -> (r: Logger) {
        Logger
    }
}

/// The text of one log line: the timestamp, the severity label, a colon,
/// and the message.
pub fn log_line(timestamp: &str, level: &str, message: &str) -> (r: String)
    ensures
        r@ == timestamp@ + " "@ + level@ + ": "@ + message@,
{
    let mut s = String::from_str(timestamp);
    s.append(" ");
    s.append(level);
    s.append(": ");
    s.append(message);
    proof {
        assert(s@ =~= timestamp@ + " "@ + level@ + ": "@ + message@);
    }
    s
}

} // verus!
