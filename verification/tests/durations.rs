use termstat::cli::stats_window;
use termstat::duration::window_cutoff;
use termstat::duration::DurationExt;
use termstat::duration::DurationMs;
use termstat::duration::MS_PER_DAY;

#[test]
fn day_and_week_spans_in_milliseconds() {
    assert_eq!(<DurationMs as DurationExt>::from_days(1).ms, 86_400_000);
    assert_eq!(<DurationMs as DurationExt>::from_weeks(1).ms, 7 * 86_400_000);
    assert_eq!(<DurationMs as DurationExt>::from_weeks(4).ms, 28 * 86_400_000);
}

#[test]
fn cutoff_is_now_minus_window_clipped_at_epoch() {
    assert_eq!(window_cutoff(10_000, DurationMs { ms: 4_000 }), 6_000);
    assert_eq!(window_cutoff(1_000, DurationMs { ms: 5_000 }), 0);
}

#[test]
fn stats_window_picks_the_first_switch() {
    assert_eq!(stats_window(true, false, false), Some(DurationMs { ms: MS_PER_DAY }));
    assert_eq!(stats_window(false, true, false), Some(DurationMs { ms: 7 * MS_PER_DAY }));
    assert_eq!(stats_window(false, false, true), Some(DurationMs { ms: 28 * MS_PER_DAY }));
    assert_eq!(stats_window(false, false, false), None);
}
