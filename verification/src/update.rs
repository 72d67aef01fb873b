//! The steps of a database update from the NVD API: which pages to request, for which
//! windows of modification times, when to pause, and when to stop.
//!
//! The caller performs each action, reports how many CVEs the page held, and gets the next
//! action; a full fetch pages through everything, an incremental one walks windows of at
//! most 119 days from the last update to now.
use vstd::prelude::*;
use crate::cve::{MAX_UTC_SECS, MIN_UTC_SECS, stored_time, time_le, time_or_epoch, Timestamp};

verus! {

/// The span of one window of modification times: 119 days, in seconds.
pub const WINDOW_SECS: i64 = 10281600;

/// The pause before a request without an API key, in seconds.
pub const PAUSE_SECS: u64 = 6;

/// The number of CVEs asked for per page: 2,000 with an API key, 50 without.
pub open spec fn page_size(has_key: bool) -> i32 {
    if has_key {
        2000
    } else {
        50
    }
}

/// What the caller does next.
#[derive(Debug, Clone, Copy, PartialEq, Eq)]
pub enum UpdateAction {
    /// Request a page of CVEs, modified within `window` when there is one, after a pause of
    /// `PAUSE_SECS` when `pause_first` is set.
    Fetch { window: Option<(Timestamp, Timestamp)>, start_index: i32, per_page: i32, pause_first: bool },
    /// Stop after `total` CVEs; record the current time as the feed's last modification
    /// when `record_time` is set.
    Finish { total: usize, record_time: bool },
}

/// Where an update stands.
#[derive(Debug, Clone, Copy, PartialEq, Eq)]
pub struct UpdatePlan {
    pub has_key: bool,
    /// Whether the feed was updated before, so that only changes since then are fetched.
    pub incremental: bool,
    pub window_start: Timestamp,
    pub window_end: Timestamp,
    pub now: Timestamp,
    pub start_index: i32,
    pub total: usize,
}

/// The end of the window that starts at `start`: 119 days later, or `now` if that is earlier.
pub open spec fn window_end_for(start: Timestamp, now: Timestamp) -> Timestamp {
    let e = Timestamp { secs: (start.secs + WINDOW_SECS) as i64, nanos: start.nanos };
    if !time_le(e, now) {
        now
    } else {
        e
    }
}

/// Whether a plan's times leave room for one more window.
pub open spec fn plan_ok(p: UpdatePlan) -> bool {
    &&& p.now.secs <= i64::MAX - WINDOW_SECS
    &&& p.window_start.secs <= i64::MAX - WINDOW_SECS
    &&& 0 <= p.start_index
}

/// The request for the current page of a plan.
pub open spec fn fetch_action(p: UpdatePlan, pause_first: bool) -> UpdateAction {
    UpdateAction::Fetch {
        window: if p.incremental {
            Some((p.window_start, p.window_end))
        } else {
            None
        },
        start_index: p.start_index,
        per_page: page_size(p.has_key),
        pause_first,
    }
}

/// The plan at the start of an update; `last_modified` is when the feed was last updated,
/// in seconds, if it ever was.
pub open spec fn first_plan(has_key: bool, last_modified: Option<i64>, now: Timestamp) -> UpdatePlan {
    match last_modified {
        Some(secs) => UpdatePlan {
            has_key,
            incremental: true,
            window_start: stored_time(secs),
            window_end: window_end_for(stored_time(secs), now),
            now,
            start_index: 0,
            total: 0,
        },
        None => UpdatePlan {
            has_key,
            incremental: false,
            window_start: now,
            window_end: now,
            now,
            start_index: 0,
            total: 0,
        },
    }
}

/// Whether a step opens a new window: the page was the last of its window and the window
/// ended before now.
pub open spec fn opens_window(p: UpdatePlan, count: nat) -> bool {
    &&& !(count > 0 && count >= page_size(p.has_key))
    &&& p.incremental
    &&& !time_le(p.now, p.window_end)
}

/// The plan and the action after a page of `count` CVEs: the next page while pages come
/// full, then the next window, then the end.
pub open spec fn next_step(p: UpdatePlan, count: nat) -> (UpdatePlan, UpdateAction) {
    let per = page_size(p.has_key);
    let total = (p.total + count) as usize;
    if count > 0 && count >= per {
        let q = UpdatePlan {
            has_key: p.has_key,
            incremental: p.incremental,
            window_start: p.window_start,
            window_end: p.window_end,
            now: p.now,
            start_index: (p.start_index + per) as i32,
            total,
        };
        (q, fetch_action(q, !p.has_key))
    } else if opens_window(p, count) {
        let q = UpdatePlan {
            has_key: p.has_key,
            incremental: p.incremental,
            window_start: p.window_end,
            window_end: window_end_for(p.window_end, p.now),
            now: p.now,
            start_index: 0,
            total,
        };
        (q, fetch_action(q, !p.has_key))
    } else {
        let q = UpdatePlan {
            has_key: p.has_key,
            incremental: p.incremental,
            window_start: p.window_start,
            window_end: p.window_end,
            now: p.now,
            start_index: p.start_index,
            total,
        };
        (q, UpdateAction::Finish { total, record_time: total > 0 || !p.incremental })
    }
}

/// Whether a plan can take a page of `count` CVEs without its counters overflowing.
pub open spec fn takes(p: UpdatePlan, count: nat) -> bool {
    &&& p.total + count <= usize::MAX
    &&& count >= page_size(p.has_key) ==> p.start_index + page_size(p.has_key) <= i32::MAX
}

fn window_end_after(start: Timestamp, now: Timestamp) -> (e: Timestamp)
    requires
        start.secs <= i64::MAX - WINDOW_SECS,
    ensures
        e == window_end_for(start, now),
{
    let e = Timestamp { secs: start.secs + WINDOW_SECS, nanos: start.nanos };
    if !e.is_at_or_before(&now) {
        now
    } else {
        e
    }
}

impl UpdatePlan {
    /// The plan and first request of an update. `last_modified` is when the feed was last
    /// updated, in seconds, if it ever was; times out of chrono's range count as the epoch.
    pub fn begin(has_key: bool, last_modified: Option<i64>, now: Timestamp) -> (r: (UpdatePlan, UpdateAction))
        requires
            now.secs <= i64::MAX - WINDOW_SECS,
        ensures
            r.0 == first_plan(has_key, last_modified, now),
            r.1 == fetch_action(r.0, false),
            plan_ok(r.0),
            last_modified matches Some(t) ==> (MIN_UTC_SECS <= t <= MAX_UTC_SECS ==> r.0.window_start == (Timestamp { secs: t, nanos: 0 }) && r.0.window_end
                == window_end_for(Timestamp { secs: t, nanos: 0 }, now)),
    {
        let plan = match last_modified {
            Some(secs) => {
                let start = time_or_epoch(secs);
                UpdatePlan {
                    has_key,
                    incremental: true,
                    window_start: start,
                    window_end: window_end_after(start, now),
                    now,
                    start_index: 0,
                    total: 0,
                }
            },
            None => UpdatePlan {
                has_key,
                incremental: false,
                window_start: now,
                window_end: now,
                now,
                start_index: 0,
                total: 0,
            },
        };
        let action = plan.fetch(false);
        (plan, action)
    }

    /// The number of CVEs asked for per page.
    pub fn per_page(&self) -> (n: i32)
        ensures
            n == page_size(self.has_key),
    {
        if self.has_key {
            2000
        } else {
            50
        }
    }

    fn fetch(&self, pause_first: bool) -> (a: UpdateAction)
        ensures
            a == fetch_action(*self, pause_first),
    {
        UpdateAction::Fetch {
            window: if self.incremental {
                Some((self.window_start, self.window_end))
            } else {
                None
            },
            start_index: self.start_index,
            per_page: self.per_page(),
            pause_first,
        }
    }

    /// Whether this plan's times leave room for one more window.
    pub fn in_range(&self) -> (r: bool)
        ensures
            r == plan_ok(*self),
    {
        self.now.secs <= i64::MAX - WINDOW_SECS && self.window_start.secs <= i64::MAX - WINDOW_SECS
            && 0 <= self.start_index
    }

    /// Whether this plan can take a page of `count` CVEs without its counters overflowing.
    pub fn takes(&self, count: usize) -> (r: bool)
        ensures
            r == takes(*self, count as nat),
    {
        let per = self.per_page();
        if count > usize::MAX - self.total {
            return false;
        }
        if count >= per as usize && self.start_index > i32::MAX - per {
            return false;
        }
        true
    }

    /// Takes the number of CVEs in the page just fetched and gives the next action. A full
    /// page asks for the next one; a short or empty page ends its window, and the update
    /// ends with the last window, or at once for a full fetch.
    pub fn after_page(&mut self, count: usize) -> (a: UpdateAction)
        requires
            plan_ok(*old(self)),
            takes(*old(self), count as nat),
        ensures
            (*final(self), a) == next_step(*old(self), count as nat),
            plan_ok(*final(self)),
    {
        let per = self.per_page();
        self.total = self.total + count;
        if count > 0 && count >= per as usize {
            self.start_index = self.start_index + per;
            return self.fetch(!self.has_key);
        }
        if self.incremental && !self.now.is_at_or_before(&self.window_end) {
            self.window_start = self.window_end;
            self.window_end = window_end_after(self.window_start, self.now);
            self.start_index = 0;
            return self.fetch(!self.has_key);
        }
        UpdateAction::Finish { total: self.total, record_time: self.total > 0 || !self.incremental }
    }
}

/// A new window starts where the previous one ended, spans at most 119 days, ends no later
/// than now, and either reaches now or ends 119 days after the previous one.
pub proof fn law_windows_contiguous(p: UpdatePlan, count: nat)
    requires
        plan_ok(p),
        opens_window(p, count),
    ensures
        next_step(p, count).0.window_start == p.window_end,
        next_step(p, count).0.window_end.secs - next_step(p, count).0.window_start.secs <= WINDOW_SECS,
        time_le(next_step(p, count).0.window_end, p.now),
        next_step(p, count).0.window_end == p.now || next_step(p, count).0.window_end.secs
            == p.window_end.secs + WINDOW_SECS,
        next_step(p, count).0.start_index == 0,
{
}

/// The current time is recorded at the end exactly when CVEs were stored or the fetch was a
/// full one.
pub proof fn law_finish_records_time(p: UpdatePlan, count: nat)
    requires
        p.total + count <= usize::MAX,
        next_step(p, count).1 is Finish,
    ensures
        next_step(p, count).1 == (UpdateAction::Finish {
            total: (p.total + count) as usize,
            record_time: p.total + count > 0 || !p.incremental,
        }),
{
}

/// A full page moves to the next page of the same window, `per_page` further on.
pub proof fn law_full_page_advances(p: UpdatePlan, count: nat)
    requires
        takes(p, count),
        count > 0,
        count >= page_size(p.has_key),
    ensures
        next_step(p, count).1 == fetch_action(next_step(p, count).0, !p.has_key),
        next_step(p, count).0.start_index == p.start_index + page_size(p.has_key),
        next_step(p, count).0.window_start == p.window_start,
        next_step(p, count).0.window_end == p.window_end,
{
}

/// Without an API key every request after the first waits `PAUSE_SECS` first, keeping to
/// five requests per thirty seconds; with a key none waits.
pub proof fn law_requests_paced(p: UpdatePlan, count: nat)
    requires
        next_step(p, count).1 is Fetch,
    ensures
        next_step(p, count).1->pause_first == !p.has_key,
{
}

/// The first update of a feed fetches everything, with no window of modification times.
pub proof fn law_first_update_is_full(has_key: bool, now: Timestamp)
    ensures
        !first_plan(has_key, None, now).incremental,
        fetch_action(first_plan(has_key, None, now), false)->window is None,
{
}

} // verus!
