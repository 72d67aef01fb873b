use cvedb::cve::Timestamp;
use cvedb::update::{UpdateAction, UpdatePlan, PAUSE_SECS, WINDOW_SECS};

fn time_at(secs: i64) -> Timestamp {
    Timestamp { secs, nanos: 0 }
}

#[test]
fn full_fetch_pages_until_a_short_page() {
    let now = Timestamp { secs: 1_700_000_000, nanos: 42 };
    let (mut plan, first) = UpdatePlan::begin(true, None, now);
    assert_eq!(first, UpdateAction::Fetch { window: None, start_index: 0, per_page: 2000, pause_first: false });
    assert_eq!(
        plan.after_page(2000),
        UpdateAction::Fetch { window: None, start_index: 2000, per_page: 2000, pause_first: false }
    );
    assert_eq!(plan.after_page(5), UpdateAction::Finish { total: 2005, record_time: true });
}

#[test]
fn without_a_key_pages_are_small_and_paced() {
    let now = time_at(1_700_000_000);
    let (mut plan, first) = UpdatePlan::begin(false, None, now);
    assert_eq!(first, UpdateAction::Fetch { window: None, start_index: 0, per_page: 50, pause_first: false });
    assert_eq!(
        plan.after_page(50),
        UpdateAction::Fetch { window: None, start_index: 50, per_page: 50, pause_first: true }
    );
    assert_eq!(plan.after_page(0), UpdateAction::Finish { total: 50, record_time: true });
    assert_eq!(PAUSE_SECS, 6);
}

#[test]
fn empty_full_fetch_still_records_time() {
    let (mut plan, _) = UpdatePlan::begin(true, None, time_at(10));
    assert_eq!(plan.after_page(0), UpdateAction::Finish { total: 0, record_time: true });
}

#[test]
fn incremental_update_walks_windows_to_now() {
    assert_eq!(WINDOW_SECS, 119 * 86400);
    let start = 1_000_000_000;
    let now = Timestamp { secs: start + 2 * WINDOW_SECS + 500, nanos: 9 };
    let (mut plan, first) = UpdatePlan::begin(true, Some(start), now);
    let w1 = (time_at(start), time_at(start + WINDOW_SECS));
    assert_eq!(first, UpdateAction::Fetch { window: Some(w1), start_index: 0, per_page: 2000, pause_first: false });
    assert_eq!(
        plan.after_page(2000),
        UpdateAction::Fetch { window: Some(w1), start_index: 2000, per_page: 2000, pause_first: false }
    );
    let w2 = (time_at(start + WINDOW_SECS), time_at(start + 2 * WINDOW_SECS));
    assert_eq!(plan.after_page(3), UpdateAction::Fetch { window: Some(w2), start_index: 0, per_page: 2000, pause_first: false });
    let w3 = (time_at(start + 2 * WINDOW_SECS), now);
    assert_eq!(plan.after_page(0), UpdateAction::Fetch { window: Some(w3), start_index: 0, per_page: 2000, pause_first: false });
    assert_eq!(plan.after_page(1), UpdateAction::Finish { total: 2004, record_time: true });
}

#[test]
fn incremental_update_with_nothing_new_keeps_time() {
    let now = time_at(2_000_000);
    let (mut plan, first) = UpdatePlan::begin(false, Some(1_000_000), now);
    assert_eq!(
        first,
        UpdateAction::Fetch { window: Some((time_at(1_000_000), now)), start_index: 0, per_page: 50, pause_first: false }
    );
    assert_eq!(plan.after_page(0), UpdateAction::Finish { total: 0, record_time: false });
}

#[test]
fn windows_are_contiguous_and_bounded() {
    let start = 0;
    let now = time_at(5 * WINDOW_SECS + 17);
    let (mut plan, first) = UpdatePlan::begin(false, Some(start), now);
    let mut action = first;
    let mut previous_end: Option<Timestamp> = None;
    let mut windows = 0;
    loop {
        match action {
            UpdateAction::Fetch { window: Some((s, e)), pause_first, .. } => {
                if let Some(p) = previous_end {
                    assert_eq!(s, p);
                    assert!(pause_first);
                }
                assert!(e.secs - s.secs <= WINDOW_SECS);
                assert!(e.is_at_or_before(&now));
                previous_end = Some(e);
                windows += 1;
                assert!(plan.takes(1));
                action = plan.after_page(1);
            }
            UpdateAction::Finish { total, record_time } => {
                assert_eq!(total, windows);
                assert!(record_time);
                break;
            }
            other => panic!("unexpected action {:?}", other),
        }
    }
    assert_eq!(windows, 6);
    assert_eq!(previous_end, Some(now));
}

#[test]
fn unreadable_last_update_starts_at_the_epoch() {
    let now = time_at(100);
    let (_, first) = UpdatePlan::begin(true, Some(-9_000_000_000_000_000), now);
    assert_eq!(
        first,
        UpdateAction::Fetch { window: Some((time_at(0), now)), start_index: 0, per_page: 2000, pause_first: false }
    );
}

#[test]
fn counters_that_would_overflow_are_refused() {
    let (mut plan, _) = UpdatePlan::begin(true, None, time_at(1));
    assert!(plan.takes(usize::MAX));
    plan.total = 1;
    assert!(!plan.takes(usize::MAX));
    plan.total = 0;
    plan.start_index = i32::MAX - 1000;
    assert!(!plan.takes(2000));
    assert!(plan.takes(10));
    assert_eq!(plan.per_page(), 2000);
}

#[test]
fn first_window_starts_at_the_last_update() {
    let now = time_at(50_000_000);
    let (plan, _) = UpdatePlan::begin(true, Some(1_000), now);
    assert_eq!(plan.window_start, time_at(1_000));
    assert_eq!(plan.window_end, time_at(1_000 + WINDOW_SECS));
}

#[test]
fn last_update_out_of_range_starts_at_the_epoch() {
    let now = time_at(100);
    let (_, first) = UpdatePlan::begin(false, Some(i64::MAX), now);
    assert_eq!(
        first,
        UpdateAction::Fetch { window: Some((time_at(0), now)), start_index: 0, per_page: 50, pause_first: false }
    );
}
