use vstd::prelude::*;

verus! {

/// Fixed offset of the schedule's local time zone east of UTC, in seconds
/// (UTC+9, the zone all weekly rules are written in).
pub const TZ_OFFSET_SECS: i64 = 32400;

/// Largest instant (seconds since the epoch) the scheduler stores.
pub const INSTANT_MAX: i64 = 999_999_999_999;

/// Smallest poll instant the evaluation accepts: a full week plus a day past
/// the epoch, so that the projected occurrence before it stays positive.
pub const NOW_MIN: i64 = 691_200;

/// Largest poll instant the evaluation accepts; leaves room above for the
/// follow-up instants that firing actions compute.
pub const NOW_MAX: i64 = 500_000_000_000;

/// Day of the week, with the same naming as the calendar rules use.
#[derive(Clone, Copy, PartialEq, Eq, Structural, Debug)]
pub enum Weekday {
    Mon,
    Tue,
    Wed,
    Thu,
    Fri,
    Sat,
    Sun,
}

impl Weekday {
    /// Index of the weekday counted from Monday, as an integer.
    pub open spec fn index(self) -> int {
        match self {
            Weekday::Mon => 0,
            Weekday::Tue => 1,
            Weekday::Wed => 2,
            Weekday::Thu => 3,
            Weekday::Fri => 4,
            Weekday::Sat => 5,
            Weekday::Sun => 6,
        }
    }

    /// Days elapsed since the most recent Monday.
    pub fn num_days_from_monday(&self) -> (d: u8)
        ensures
            d as int == self.index(),
    {
        match self {
            Weekday::Mon => 0,
            Weekday::Tue => 1,
            Weekday::Wed => 2,
            Weekday::Thu => 3,
            Weekday::Fri => 4,
            Weekday::Sat => 5,
            Weekday::Sun => 6,
        }
    }

    /// The weekday with the given index counted from Monday, if any.
    pub fn from_index(i: u8) -> (r: Option<Weekday>)
        ensures
            i < 7 <==> r is Some,
            r is Some ==> r.unwrap().index() == i as int,
    {
        match i {
            0 => Some(Weekday::Mon),
            1 => Some(Weekday::Tue),
            2 => Some(Weekday::Wed),
            3 => Some(Weekday::Thu),
            4 => Some(Weekday::Fri),
            5 => Some(Weekday::Sat),
            6 => Some(Weekday::Sun),
            _ => None,
        }
    }
}

/// The weekday with the given index counted from Monday.
pub open spec fn weekday_from_index(i: int) -> Weekday {
    if i == 0 {
        Weekday::Mon
    } else if i == 1 {
        Weekday::Tue
    } else if i == 2 {
        Weekday::Wed
    } else if i == 3 {
        Weekday::Thu
    } else if i == 4 {
        Weekday::Fri
    } else if i == 5 {
        Weekday::Sat
    } else {
        Weekday::Sun
    }
}

/// Civil day number of an instant (days since the epoch).
pub open spec fn day_of(t: int) -> int {
    t / 86400
}

/// Weekday index of a civil day number, Monday counted as 0.
/// Day 0 (1970-01-01) was a Thursday, index 3.
pub open spec fn weekday_index_of_day(day: int) -> int {
    (day + 3) % 7
}

/// How many days the target weekday index lies behind the given one,
/// walking backward at most six days (zero when they coincide).
pub open spec fn days_back(target: int, from: int) -> int {
    if target <= from {
        from - target
    } else {
        from + 7 - target
    }
}

/// The single candidate occurrence a weekly rule projects for a poll at
/// `now`: the most recent instant at or before `now` whose local calendar
/// day falls on the rule's weekday and whose local time of day is the
/// rule's. Walk back from `now`'s local day to the rule's weekday, place
/// the rule's time of day there, convert local to UTC, and step one week
/// further back when that instant still lies ahead of `now`.
pub open spec fn weekly_occurrence(w: Weekday, time: int, now: int) -> int {
    let day = day_of(now + 32400);
    let back = days_back(w.index(), weekday_index_of_day(day));
    let candidate = (day - back) * 86400 + time - 32400;
    if candidate <= now {
        candidate
    } else {
        candidate - 604800
    }
}

/// An instant lies on the weekly pattern: its local calendar day falls on
/// the pattern's weekday and its local time of day equals the pattern's.
pub open spec fn on_weekly_pattern(w: Weekday, time: int, u: int) -> bool {
    &&& weekday_index_of_day(day_of(u + 32400)) == w.index()
    &&& (u + 32400) % 86400 == time
}

/// The half-open window test every trigger uses: an occurrence at `dt` is
/// claimed by the poll window `(last, now]` exactly once.
pub open spec fn fires_in_window(dt: int, last: int, now: int) -> bool {
    last < dt <= now
}

/// The projected occurrence lies at or before `now`, less than one week
/// behind it.
pub proof fn lemma_weekly_occurrence_bounds(w: Weekday, time: int, now: int)
    requires
        NOW_MIN <= now,
        0 <= time < 86400,
    ensures
        now - 604800 < weekly_occurrence(w, time, now) <= now,
        0 < weekly_occurrence(w, time, now),
{
    let day = day_of(now + 32400);
    vstd::arithmetic::div_mod::lemma_fundamental_div_mod(now + 32400, 86400);
    vstd::arithmetic::div_mod::lemma_mod_bound(day + 3, 7);
}

/// Computes `weekly_occurrence` executably.
pub fn weekly_occurrence_at(w: Weekday, time: u32, now: i64) -> (r: i64)
    requires
        NOW_MIN <= now <= NOW_MAX,
        time < 86400,
    ensures
        r == weekly_occurrence(w, time as int, now as int),
        now - 604800 < r <= now,
        0 < r,
{
    let local = now + 32400;
    let day = local / 86400;
    let wd = (day + 3) % 7;
    let tw = w.num_days_from_monday() as i64;
    let back = if tw <= wd {
        wd - tw
    } else {
        wd + 7 - tw
    };
    let candidate = (day - back) * 86400 + time as i64 - 32400;
    proof {
        vstd::arithmetic::div_mod::lemma_fundamental_div_mod(local as int, 86400);
        vstd::arithmetic::div_mod::lemma_mod_bound(day as int + 3, 7);
    }
    if candidate <= now {
        candidate
    } else {
        candidate - 604800
    }
}

/// A projected occurrence lies on its weekly pattern.
pub proof fn lemma_weekly_occurrence_on_pattern(w: Weekday, time: int, now: int)
    requires
        NOW_MIN <= now,
        0 <= time < 86400,
    ensures
        on_weekly_pattern(w, time, weekly_occurrence(w, time, now)),
{
    let day = day_of(now + 32400);
    let wd = weekday_index_of_day(day);
    let back = days_back(w.index(), wd);
    let candidate = (day - back) * 86400 + time - 32400;
    let occ = weekly_occurrence(w, time, now);
    let d_occ = if candidate <= now {
        day - back
    } else {
        day - back - 7
    };
    vstd::arithmetic::div_mod::lemma_fundamental_div_mod(now + 32400, 86400);
    vstd::arithmetic::div_mod::lemma_mod_bound(day + 3, 7);
    assert(0 <= back <= 6);
    assert(occ + 32400 == d_occ * 86400 + time);
    vstd::arithmetic::div_mod::lemma_fundamental_div_mod_converse(
        occ + 32400,
        86400,
        d_occ,
        time,
    );
    assert(day_of(occ + 32400) == d_occ);
    assert((occ + 32400) % 86400 == time);
    // The projected day carries the target weekday index.
    assert(weekday_index_of_day(d_occ) == w.index()) by {
        vstd::arithmetic::div_mod::lemma_fundamental_div_mod(day + 3, 7);
        let q = (day + 3) / 7;
        let q_occ = if candidate <= now {
            if w.index() <= wd {
                q
            } else {
                q - 1
            }
        } else {
            if w.index() <= wd {
                q - 1
            } else {
                q - 2
            }
        };
        assert(d_occ + 3 == q_occ * 7 + w.index());
        vstd::arithmetic::div_mod::lemma_fundamental_div_mod_converse(
            d_occ + 3,
            7,
            q_occ,
            w.index(),
        );
    }
}

/// Exactly one instant on a weekly pattern lies in the week-long window
/// ending at `now`: any such instant is the projected occurrence.
pub proof fn lemma_weekly_occurrence_unique(w: Weekday, time: int, now: int, u: int)
    requires
        NOW_MIN <= now,
        0 <= time < 86400,
        on_weekly_pattern(w, time, u),
        now - 604800 < u <= now,
    ensures
        u == weekly_occurrence(w, time, now),
{
    let occ = weekly_occurrence(w, time, now);
    lemma_weekly_occurrence_on_pattern(w, time, now);
    lemma_weekly_occurrence_bounds(w, time, now);
    let du = day_of(u + 32400);
    let dc = day_of(occ + 32400);
    vstd::arithmetic::div_mod::lemma_fundamental_div_mod(u + 32400, 86400);
    vstd::arithmetic::div_mod::lemma_fundamental_div_mod(occ + 32400, 86400);
    // Both instants carry the pattern's time of day, so they differ by
    // whole days; both lie in a week-long window, so by fewer than seven.
    assert(u - occ == 86400 * (du - dc));
    assert(-7 < du - dc < 7) by (nonlinear_arith)
        requires
            u - occ == 86400 * (du - dc),
            -604800 < u - occ < 604800,
    ;
    // Two days fewer than seven apart with the same weekday index are equal.
    assert(du == dc) by {
        vstd::arithmetic::div_mod::lemma_fundamental_div_mod(du + 3, 7);
        vstd::arithmetic::div_mod::lemma_fundamental_div_mod(dc + 3, 7);
        let qu = (du + 3) / 7;
        let qc = (dc + 3) / 7;
        assert(du - dc == 7 * (qu - qc));
        assert(qu == qc) by (nonlinear_arith)
            requires
                du - dc == 7 * (qu - qc),
                -7 < du - dc < 7,
        ;
    }
}

/// Over contiguous, non-overlapping poll windows an occurrence is claimed
/// at most once: no instant satisfies the half-open window test twice.
pub proof fn lemma_fires_at_most_once(dt: int, last1: int, now1: int, last2: int, now2: int)
    requires
        now1 <= last2,
        fires_in_window(dt, last1, now1),
    ensures
        !fires_in_window(dt, last2, now2),
{
}

/// The projected occurrence is the most recent pattern instant at or
/// before `now`: no later one fits.
pub proof fn lemma_weekly_occurrence_most_recent(w: Weekday, time: int, now: int, u: int)
    requires
        NOW_MIN <= now,
        0 <= time < 86400,
        on_weekly_pattern(w, time, u),
        u <= now,
    ensures
        u <= weekly_occurrence(w, time, now),
{
    let occ = weekly_occurrence(w, time, now);
    lemma_weekly_occurrence_bounds(w, time, now);
    if u > occ {
        lemma_weekly_occurrence_unique(w, time, now, u);
    }
}

} // verus!
