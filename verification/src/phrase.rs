//! The human-readable "ends in" phrase attached to every rendered campaign.
use vstd::prelude::*;
use vstd::string::StringExecFns;

use crate::text::dec_str;
use crate::ts_ok;
use crate::whole_days;
use crate::SECS_PER_DAY;

verus! {

/// The wording for a non-negative number of whole days from now.
pub open spec fn days_from_now_spec(days: int) -> Seq<char> {
    if days == 0 {
        "today"@
    } else if days == 1 {
        "tomorrow"@
    } else {
        "in "@ + dec_str(days as nat) + " days"@
    }
}

/// The full phrase for a campaign's end: "already ended" once the whole-day
/// difference turns negative, otherwise "ends " followed by the day wording.
pub open spec fn ends_phrase(days: int) -> Seq<char> {
    if days < 0 {
        "already ended"@
    } else {
        "ends "@ + days_from_now_spec(days)
    }
}

/// Format a number of days from now - for today or future days only.
pub fn format_days_from_now(days: i64) -> (r: String)
    requires
        days >= 0,
    ensures
        r@ == days_from_now_spec(days as int),
{
    if days == 0 {
        String::from_str("today")
    } else if days == 1 {
        String::from_str("tomorrow")
    } else {
        let mut s = String::from_str("in ");
        let numeral = crate::text::u64_to_string(days as u64);
        s.append(numeral.as_str());
        s.append(" days");
        s
    }
}

/// The phrase for a campaign ending at `end`, seen from `now`: whole days are
/// counted by truncation, and a count that has turned negative reads
/// "already ended".
pub fn ends_in_days(end: i64, now: i64) -> (r: String)
    requires
        ts_ok(end as int),
        ts_ok(now as int),
    ensures
        r@ == ends_phrase(whole_days(end - now)),
{
    let diff = end - now;
    if diff >= 0 {
        let days_u = (diff as u64) / (SECS_PER_DAY as u64);
        let days = days_u as i64;
        proof {
            assert(days as int == whole_days(end - now));
        }
        let mut s = String::from_str("ends ");
        let tail = format_days_from_now(days);
        s.append(tail.as_str());
        s
    } else {
        let mag = (-diff) as u64;
        let days_u = mag / (SECS_PER_DAY as u64);
        if days_u == 0 {
            proof {
                assert(whole_days(end - now) == 0);
            }
            let mut s = String::from_str("ends ");
            let tail = format_days_from_now(0);
            s.append(tail.as_str());
            s
        } else {
            proof {
                assert(whole_days(end - now) < 0);
            }
            String::from_str("already ended")
        }
    }
}

/// The phrase follows the whole-day count exactly: negative counts read
/// "already ended", zero reads "ends today", one reads "ends tomorrow", and
/// two or more read "ends in <N> days" with the count's decimal numeral.
pub proof fn lemma_ends_phrase_cases(days: int)
    ensures
        days < 0 ==> ends_phrase(days) == "already ended"@,
        days == 0 ==> ends_phrase(days) == "ends today"@,
        days == 1 ==> ends_phrase(days) == "ends tomorrow"@,
        days >= 2 ==> ends_phrase(days) == "ends in "@ + dec_str(days as nat) + " days"@,
{
    reveal_strlit("already ended");
    reveal_strlit("ends ");
    reveal_strlit("today");
    reveal_strlit("tomorrow");
    reveal_strlit("in ");
    reveal_strlit(" days");
    reveal_strlit("ends today");
    reveal_strlit("ends tomorrow");
    reveal_strlit("ends in ");
    if days == 0 {
        assert(ends_phrase(days) =~= "ends today"@);
    }
    if days == 1 {
        assert(ends_phrase(days) =~= "ends tomorrow"@);
    }
    if days >= 2 {
        assert(ends_phrase(days) =~= "ends in "@ + dec_str(days as nat) + " days"@);
    }
}

} // verus!
