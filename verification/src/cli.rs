//! The command surface, as plain data: which subcommand was asked for and
//! with which switches. Argument parsing and help text are the (unverified)
//! binary's business; it converts its parsed arguments into these types.
use crate::duration::DurationExt;
use crate::duration::DurationMs;
use crate::duration::DAYS_PER_WEEK;
use crate::duration::MS_PER_DAY;
use vstd::prelude::*;

verus! {

/// A whole invocation: one optional subcommand.
pub struct Cli {
    pub command: Option<Commands>,
}

/// The subcommands: emit the shell hook, print usage statistics over an
/// optional time window, sync the log into the store, or clean the store
/// out.
pub enum Commands {
    Init { shell_type: String },
    Stats { daily: bool, weekly: bool, monthly: bool, all: bool },
    Sync,
    Clean { remove_all_entries: bool },
}

/// The time window a stats invocation asks for: one day, one week, four
/// weeks — the first switch set wins — or no window at all.
pub fn stats_window(daily: bool, weekly: bool, monthly: bool) -> (r: Option<DurationMs>)
    ensures
        daily ==> r == Some(DurationMs { ms: MS_PER_DAY }),
        (!daily && weekly) ==> r == Some(DurationMs { ms: (DAYS_PER_WEEK * MS_PER_DAY) as u64 }),
        (!daily && !weekly && monthly) ==> r == Some(
            DurationMs { ms: (4 * DAYS_PER_WEEK * MS_PER_DAY) as u64 },
        ),
        (!daily && !weekly && !monthly) ==> r is None,
{
    if daily {
        Some(<DurationMs as DurationExt>::from_days(1))
    } else if weekly {
        Some(<DurationMs as DurationExt>::from_weeks(1))
    } else if monthly {
        Some(<DurationMs as DurationExt>::from_weeks(4))
    } else {
        None
    }
}

} // verus!
