//! Builds a Markdown report of active drop campaigns: a "recent" view of
//! campaigns that started within the last week, grouped by calendar date and
//! game, and a full catalog grouped by game in case-insensitive name order.
use vstd::prelude::*;

pub mod model;
pub mod ordering;
pub mod phrase;
pub mod recent;
pub mod render;
pub mod text;

verus! {

/// Number of seconds in one UTC day.
pub const SECS_PER_DAY: i64 = 86400;

/// Length of the "recent" window, in days.
pub const WINDOW_DAYS: i64 = 7;

/// The Unix day number a timestamp (in seconds) falls on, by floor division,
/// which is how the UTC calendar date of a timestamp is determined.
pub open spec fn unix_day(secs: int) -> int {
    secs / (SECS_PER_DAY as int)
}

/// Whole days in a span of seconds, truncated toward zero.
pub open spec fn whole_days(diff: int) -> int {
    if diff >= 0 {
        diff / (SECS_PER_DAY as int)
    } else {
        -((-diff) / (SECS_PER_DAY as int))
    }
}

/// The instant that bounds the recent window: seven days before `now`.
pub open spec fn recent_cutoff(now: int) -> int {
    now - (WINDOW_DAYS as int) * (SECS_PER_DAY as int)
}

/// Timestamps the report accepts: comfortably inside the range that the
/// calendar library can represent (about 253,000 years either side of 1970).
pub open spec fn ts_ok(secs: int) -> bool {
    -8_000_000_000_000 <= secs <= 8_000_000_000_000
}

} // verus!
