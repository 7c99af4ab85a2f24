//! The shell's logger, which writes each record to the second serial port.

use vstd::prelude::*;
use vstd::string::StringExecFns;

use crate::log::LogLevel;
use crate::serial::{append_decimal, decimal, level_color, level_color_code};

verus! {

/// The shell's logger.
#[derive(Clone, Copy, Debug)]
pub struct SerialLogger;

impl SerialLogger {
    /// The line written for a record: the target dimmed in brackets, then the message in the
    /// level's color.
    pub open spec fn spec_line(level: LogLevel, target: Seq<char>, message: Seq<char>) -> Seq<char> {
        "\x1b[2m["@ + target + "] \x1b["@ + decimal(level_color(level) as nat) + "m"@ + message
            + "\x1b[0m\n"@
    }

    /// The line written for a record of `level` from `target` with `message`.
    pub fn line(&self, level: LogLevel, target: &str, message: &str) -> (r: String)
        ensures
            r@ == Self::spec_line(level, target@, message@),
    {
        let mut out = String::new();
        out.append("\x1b[2m[");
        out.append(target);
        out.append("] \x1b[");
        append_decimal(&mut out, level_color_code(level) as u64);
        out.append("m");
        out.append(message);
        out.append("\x1b[0m\n");
        proof {
            assert(out@ =~= Self::spec_line(level, target@, message@));
        }
        out
    }
}

} // verus!
