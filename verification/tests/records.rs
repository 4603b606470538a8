use lss_collector::advice_run::{
    compute as advice_windows, covered_secs, growth, growth_users, kept_secs, prompt_max,
    ratio_from, targets, throttle, tier, window, window_stats, Firsts, GpuRead, GrowthSpans, Peaks,
    Span,
};
use lss_collector::cost_run::{
    by_day, chart_days, compute, cost_windows, daily_spend, day_before, month_bounds, month_day,
    month_start, readings, spending, watt_series_with_activity, week_start, year_start, Bill, EnergyRow,
    PowerSample, TokenPrices, CHART_DAYS,
};
use lss_collector::db::Incident;
use lss_collector::rollup::{backfill, Pipeline};

const DAY: i64 = 86_400;
const WEEK: i64 = 7 * DAY;
const T0: i64 = 1_800_000_000;

#[test]
fn the_gate_log_is_merged_per_ten_minutes() {
    let mut pipe: Pipeline<u32> = Pipeline::new();
    let mut stored = vec![];
    for k in 0..3 {
        if let Some(bucket) = pipe.push(T0 + k * 300, 24) {
            stored.push(bucket);
        }
    }
    assert_eq!(stored, vec![(T0, vec![24, 24])], "two samples in the closed bucket");
    let open = pipe.gate_open_bucket().unwrap();
    assert_eq!((open.0, open.1.clone()), (T0 + 600, vec![24]));
    // a clock that goes back opens the earlier bucket again
    assert_eq!(pipe.push(T0 + 5, 1), Some((T0 + 600, vec![24])));
    assert_eq!(pipe.gate_open_bucket().unwrap().0, T0);
    assert!(Pipeline::<u32>::new().gate_open_bucket().is_none());
}

/// The parts of a table that is built until `until`.
fn chunks_of(times: &[i64], until: i64) -> Vec<(i64, i64)> {
    let mut from = 0;
    let mut chunks = vec![];
    while let Some((a, b)) = backfill(times.iter().copied().find(|t| *t >= from), until) {
        chunks.push((a, b));
        from = b;
    }
    chunks
}

fn taken(times: &[i64], chunks: &[(i64, i64)]) -> usize {
    chunks.iter().map(|(a, b)| times.iter().filter(|t| a <= *t && *t < b).count()).sum()
}

#[test]
fn an_old_database_is_backfilled_without_overwriting_live_rows() {
    let times: Vec<i64> = (0..3 * 720).map(|k| T0 + k * 5).collect();
    let until = T0 + 3 * 3600;
    let chunks = chunks_of(&times, until);
    assert_eq!(taken(&times, &chunks), 3 * 720, "every sample once");
    assert_eq!(chunks, vec![(T0, T0 + 3_600), (T0 + 3_600, T0 + 7_200), (T0 + 7_200, until)]);
    // what is built already is not built again
    assert_eq!(backfill(times.iter().copied().find(|t| *t >= until), until), None);
}

#[test]
fn a_database_is_built_hour_by_hour_from_its_first_sample() {
    let times: Vec<i64> = (0..3 * 720).map(|k| T0 + k * 5 - 1_000).collect();
    let until = T0 + 3 * 3600;
    let chunks = chunks_of(&times, until);
    assert_eq!(taken(&times, &chunks), times.len());
    assert_eq!((chunks.len(), chunks[0]), (4, (T0 - 1_000, T0)));
    assert_eq!(backfill(Some(until), until), None);
    assert_eq!(backfill(None, until), None);
    assert_eq!(backfill(Some(-1), 5), Some((-1, 0)));
    assert_eq!(backfill(Some(i64::MAX - 1), i64::MAX), Some((i64::MAX - 1, i64::MAX)));
    assert_eq!(backfill(Some(i64::MIN), i64::MAX).map(|c| c.0), Some(i64::MIN));
}

#[test]
fn a_restart_replays_the_open_buckets_and_loses_nothing() {
    // ninety seconds of samples, then the collector dies
    let mut pipe: Pipeline<f64> = Pipeline::new();
    let stored: Vec<(i64, f64)> = (0..18).map(|k| (T0 + k * 5, 10.0)).collect();
    for (ts, v) in &stored {
        assert_eq!(pipe.push(*ts, *v), None);
    }
    drop(pipe);
    // the samples that are stored are taken again, and the rest of the bucket follows
    let mut pipe: Pipeline<f64> = Pipeline::new();
    for (ts, v) in stored {
        assert_eq!(pipe.push(ts, v), None);
    }
    for k in 18..120 {
        assert_eq!(pipe.push(T0 + k * 5, 30.0), None);
    }
    let (ts, values) = pipe.push(T0 + 600, 0.0).expect("the bucket is closed");
    assert_eq!((ts, values.len()), (T0, 120));
    assert_eq!(values.iter().filter(|v| **v == 10.0).count(), 18, "those from before the restart");
    assert_eq!(values[12..24].iter().sum::<f64>() / 12.0, 20.0, "six samples from before the restart, six after");
}

#[test]
fn a_sample_without_a_reading_is_left_out_of_the_power() {
    assert_eq!(readings(&vec![Some(1.5), None, Some(2.0)]), vec![1.5, 2.0]);
    let s = |ts, power: Vec<Option<f64>>, running| PowerSample { ts, power, running };
    let steps = watt_series_with_activity(&vec![
        s(1, vec![Some(250.0), Some(40.0)], Some(true)),
        s(2, vec![None], Some(true)),
        s(3, vec![Some(30.0)], Some(false)),
        s(4, vec![Some(30.0)], None),
        s(5, vec![], None),
    ]);
    let got: Vec<(i64, f64, bool)> = steps.iter().map(|w| (w.ts, w.power.iter().sum(), w.idle)).collect();
    assert_eq!(got, vec![(1, 290.0, false), (3, 30.0, true), (4, 30.0, true)], "an engine that does not answer does no work");
}

#[test]
fn nothing_stored_yet_is_none_not_zero() {
    let empty = Bill { kwh: 0.0, usd: 0.0, intervals_priced: 0, earliest_ts: None };
    let none = TokenPrices { generated: Some(1.0), prompt: Some(2.0), real_work: Some(3.0) };
    let c = compute(T0, empty, empty, empty, empty, none);
    assert_eq!((c.today_kwh, c.today_usd, c.last_24h_kwh, c.today_standby_usd), (None, None, None, None));
    assert_eq!((c.today_usd_per_million_generated_tokens, c.today_usd_per_million_real_work_tokens), (None, None));
    assert_eq!((c.today_covered_secs, c.last_24h_covered_secs), (None, None));
}

#[test]
fn standby_energy_is_excluded_from_the_real_work_headline() {
    let bill = |kwh: f64, usd: f64, n: u64, t: i64| Bill { kwh, usd, intervals_priced: n, earliest_ts: Some(t) };
    let per = TokenPrices { generated: Some(4.0), prompt: Some(0.4), real_work: Some(2.0) };
    let c = compute(T0, bill(2.0, 0.6, 9, T0 - 3600), bill(1.0, 0.3, 4, T0), bill(1.0, 0.3, 5, T0), bill(5.0, 1.5, 100, T0 + 50), per);
    assert_eq!((c.today_kwh, c.today_usd), (Some(2.0), Some(0.6)));
    assert_eq!((c.today_standby_kwh, c.today_standby_usd), (Some(1.0), Some(0.3)));
    assert_eq!(c.today_usd_per_million_real_work_tokens, Some(2.0));
    assert_eq!((c.today_usd_per_million_generated_tokens, c.today_usd_per_million_prompt_tokens), (Some(4.0), Some(0.4)));
    assert_eq!((c.last_24h_kwh, c.last_24h_usd), (Some(5.0), Some(1.5)));
    assert_eq!((c.today_covered_secs, c.last_24h_covered_secs), (Some(3600), Some(0)), "never the window's nominal length");
    // the work alone was not priced
    let idle = Bill { intervals_priced: 0, ..bill(0.0, 0.0, 0, T0) };
    assert_eq!(compute(T0, bill(2.0, 0.6, 9, T0), idle, bill(1.0, 0.3, 5, T0), idle, per).today_usd_per_million_real_work_tokens, None);
    assert_eq!(cost_windows(T0, T0 - 100), ((T0 - 100, T0 + 1), (T0 - DAY, T0 + 1)));
}

#[test]
fn live_and_today_come_from_the_stored_samples_at_a_flat_rate() {
    let midnight = 1_000_000;
    let at = |dt| PowerSample { ts: midnight + dt, power: vec![Some(1200.0)], running: Some(true) };
    let steps = watt_series_with_activity(&vec![at(0), at(25), at(50)]);
    // two priced intervals, both of them work
    let mut kwh = 0.0;
    for w in steps.windows(2) {
        assert!(!w[0].idle);
        kwh += (w[0].power[0] + w[1].power[0]) / 2.0 * (w[1].ts - w[0].ts) as f64 / 3_600_000.0;
    }
    let expect_kwh = 2.0 * (1200.0 * 25.0 / 3_600_000.0);
    assert!((kwh - expect_kwh).abs() < 1e-9, "{kwh}");
    let usd = kwh * 0.30;
    let all = Bill { kwh, usd, intervals_priced: 2, earliest_ts: Some(midnight) };
    let none = Bill { kwh: 0.0, usd: 0.0, intervals_priced: 0, earliest_ts: None };
    let per = TokenPrices { generated: Some(usd / 2.0), prompt: Some(usd / 0.5), real_work: Some(usd / 2.2) };
    let c = compute(midnight + 50, all, all, none, none, per);
    assert_eq!((c.today_kwh, c.today_usd), (Some(kwh), Some(usd)));
    assert!((c.today_usd_per_million_generated_tokens.unwrap() - (expect_kwh * 0.30 / 2_000_000.0 * 1_000_000.0)).abs() < 1e-6);
    assert!((c.today_usd_per_million_real_work_tokens.unwrap() - (expect_kwh * 0.30 / 2_200_000.0 * 1_000_000.0)).abs() < 1e-6);
    // every sample was working: nothing landed in standby
    assert_eq!((c.today_standby_kwh, c.today_standby_usd), (None, None));
}

#[test]
fn rolling_24h_prices_stored_rollup_buckets_not_raw_samples() {
    let now = 2_000_000;
    // 1 kWh an hour ago, half a kWh half an hour ago; today is empty
    let (today, last_24h) = cost_windows(now, now);
    let kwh: f64 = [(now - 3600, 1.0), (now - 1800, 0.5)].iter().filter(|b| last_24h.0 <= b.0 && b.0 < last_24h.1).map(|b| b.1).sum();
    assert_eq!(today, (now, now + 1));
    let none = Bill { kwh: 0.0, usd: 0.0, intervals_priced: 0, earliest_ts: None };
    let day = Bill { kwh, usd: kwh * 0.30, intervals_priced: 2, earliest_ts: Some(now - 3600) };
    let c = compute(now, none, none, none, day, TokenPrices { generated: None, prompt: None, real_work: None });
    assert_eq!((c.today_kwh, c.today_usd), (None, None));
    assert!((c.last_24h_kwh.unwrap() - 1.5).abs() < 1e-9);
    assert!((c.last_24h_usd.unwrap() - 1.5 * 0.30).abs() < 1e-9);
    assert_eq!(c.last_24h_covered_secs, Some(3600));
}

#[test]
fn energy_is_grouped_by_the_local_day() {
    let row = |ts: i64, day: i64| EnergyRow { ts, day, kwh: ts as f64 };
    let days = by_day(&vec![row(10, 0), row(110, 100), row(20, 0), row(250, 200), row(120, 100)]);
    let got: Vec<(i64, Vec<i64>)> = days.iter().map(|d| (d.day, d.rows.iter().map(|r| r.0).collect())).collect();
    assert_eq!(got, vec![(0, vec![10, 20]), (100, vec![110, 120]), (200, vec![250])]);
    assert!(by_day::<f64>(&vec![]).is_empty());
    assert_eq!((daily_spend(0), daily_spend(144)), (None, Some(86_400)), "an unpriced day is no day of no cost");
}

#[test]
fn year_to_date_reads_the_rollup_from_january_first_across_the_boundary() {
    let today = 400 * DAY;
    let chart_from = day_before(today, CHART_DAYS) - 43_200;
    assert_eq!(chart_from, today - 31 * DAY);
    // mid-year: the year's first day is earlier than the chart's
    assert_eq!(spending(chart_from, today - 200 * DAY), today - 200 * DAY);
    // early January: 31 days back reach into the year before
    assert_eq!(spending(chart_from, today - 3 * DAY), today - 31 * DAY);
    // the chart stays the last 31 days
    assert_eq!(chart_days(&vec![today - 40 * DAY, today - 31 * DAY, today], today - 31 * DAY), vec![today - 31 * DAY, today]);
}

/// New York in 2026: the clocks are put forward on March 8, at 1_772_953_200, and back on November 1, at
/// 1_793_512_800. The offset from UTC in hours.
fn new_york(ts: i64) -> i64 {
    if (1_772_953_200..1_793_512_800).contains(&ts) {
        -4
    } else {
        -5
    }
}

/// The local midnight at or before an instant.
fn midnight_of(ts: i64) -> i64 {
    let wall = ts + new_york(ts) * 3600;
    let day = wall - wall.rem_euclid(DAY);
    [-4, -5].iter().map(|o| day - o * 3600).find(|m| m + new_york(*m) * 3600 == day).unwrap()
}

/// The month of an instant of 2026, whose months start on these days of the year.
fn month_of(ts: i64) -> String {
    const FIRST: [i64; 12] = [0, 31, 59, 90, 120, 151, 181, 212, 243, 273, 304, 334];
    let day = (ts + new_york(ts) * 3600 - 1_767_225_600).div_euclid(DAY);
    if day >= 365 {
        return "2027-01".into();
    }
    format!("2026-{:02}", FIRST.iter().filter(|f| **f <= day).count())
}

/// Start, days and elapsed days of the month, and the week's start.
fn bounds(now: i64, day_of_month: &str, day_of_week: &str) -> (i64, Option<i64>, i64, i64) {
    let today = midnight_of(now);
    let (noon, elapsed) = month_start(today, day_of_month);
    let first = midnight_of(noon);
    let after: Vec<String> = (0..4).map(|i| month_of(month_day(first, i))).collect();
    (first, month_bounds(&month_of(first), &after), elapsed, midnight_of(week_start(today, day_of_week)))
}

#[test]
fn year_start_is_local_midnight_of_january_first() {
    // 2026 in UTC, asked an hour into it, in the middle and in its last second
    let jan1 = 1_767_225_600;
    for now in [jan1 + 3_600, 1_780_000_000, 1_798_761_599] {
        let today = now - now % DAY;
        let noon = year_start(today, &format!("{:03}", (today - jan1) / DAY + 1));
        assert_eq!((noon - noon % DAY, noon % DAY), (jan1, 43_200), "asked at {now}");
        assert!(noon - noon % DAY <= now);
    }
    // and in New York, on both sides of its changes of clocks
    for (now, day) in [(1_767_261_600, "001"), (1_780_000_000, "148"), (1_798_761_599, "365")] {
        assert_eq!(midnight_of(year_start(midnight_of(now), day)), 1_767_243_600, "asked at {now}");
    }
}

#[test]
fn months_and_weeks_start_at_local_midnight_across_a_change_of_clocks() {
    // Friday, March 20, at noon: the clocks were put forward on the 8th
    assert_eq!(bounds(1_774_022_400, "20", "5"), (1_772_341_200, Some(31), 20, 1_773_633_600));
    // Sunday, March 8, at noon, on the day itself: the week's Monday is still in winter time
    assert_eq!(bounds(1_772_985_600, "08", "7"), (1_772_341_200, Some(31), 8, 1_772_427_600));
    // Sunday, November 15, at noon: the month began in summer time and has thirty days
    assert_eq!(bounds(1_794_762_000, "15", "7"), (1_793_505_600, Some(30), 15, 1_794_200_400));
    // Wednesday, November 4, at noon
    assert_eq!(bounds(1_793_811_600, "04", "3"), (1_793_505_600, Some(30), 4, 1_793_595_600));
    // the day before November 2 is the 1st, which has 25 hours; 31 days before it is October 2
    let today = midnight_of(1_793_638_800);
    assert_eq!((midnight_of(day_before(today, 1)), today), (1_793_505_600, 1_793_595_600));
    assert_eq!(midnight_of(day_before(today, CHART_DAYS)), 1_790_913_600);
}

#[test]
fn the_calendar_counts_days_back_from_midnight() {
    let midnight = 1_000 * DAY;
    // noon of the Monday, of the year's first day, of the month's
    assert_eq!(week_start(midnight, "1"), midnight + 43_200);
    assert_eq!(week_start(midnight, "7"), midnight - 6 * DAY + 43_200);
    assert_eq!(week_start(midnight, "?"), midnight + 43_200);
    assert_eq!(year_start(midnight, "001"), midnight + 43_200);
    assert_eq!(year_start(midnight, "214"), midnight - 213 * DAY + 43_200);
    assert_eq!(month_start(midnight, "15"), (midnight - 14 * DAY + 43_200, 15));
    assert_eq!(month_start(midnight, ""), (midnight + 43_200, 1));
    assert_eq!(month_day(midnight, 0), midnight + 28 * DAY + 43_200);
    assert_eq!(month_day(midnight, 3), midnight + 31 * DAY + 43_200);
    let months = |v: &[&str]| v.iter().map(|s| s.to_string()).collect::<Vec<_>>();
    assert_eq!(month_bounds("2026-02", &months(&["2026-03"])), Some(28));
    assert_eq!(month_bounds("2026-09", &months(&["2026-09", "2026-09", "2026-10", "2026-10"])), Some(30));
    assert_eq!(month_bounds("2026-09", &months(&["2026-09"])), None);
}

#[test]
fn a_ratio_only_uses_the_span_both_metrics_cover() {
    let now = T0;
    let hours = |h: i64| now - h * 3600;
    let f = Firsts {
        tok_cached: Some(hours(5)),
        tok_prompt: Some(hours(19)),
        prefill: None,
        e2e: Some(hours(19)),
        energy: Some(hours(5)),
        tok_gen: Some(hours(19)),
        tok_evicted: Some(hours(2)),
    };
    let w = window_stats(now, DAY, hours(19), &f);
    assert_eq!(w.span, Span { from: now - DAY, to: now + 1, res: 60 });
    assert_eq!(w.covered_secs, 19 * 3600);
    assert_eq!((w.cache_from, w.energy_from, w.prefill_from), (Some(hours(5)), Some(hours(5)), None));
    assert_eq!(w.evicted_secs, Some(2 * 3600 + 1));
    assert_eq!(ratio_from(now - 3600, Some(hours(5)), Some(hours(19))), Some(now - 3600));
    assert_eq!(kept_secs(w.span, None), None);
    assert_eq!(kept_secs(w.span, Some(now + 50)), Some(0));
    assert_eq!(covered_secs(now, DAY, now - 7200), 7200);
    assert_eq!(covered_secs(now, DAY, 0), DAY);
    assert_eq!(covered_secs(now, DAY, now + 9), 0);
    assert_eq!((tier(DAY), tier(DAY + 1)), (60, 600));
    assert_eq!(window(now, WEEK).res, 600);
    let names: Vec<(String, i64, bool)> = advice_windows().into_iter().map(|w| (w.name, w.secs, w.shows_growth)).collect();
    assert_eq!(names, vec![("24h".into(), DAY, false), ("7d".into(), 7 * DAY, true), ("30d".into(), 30 * DAY, true)]);
}

#[test]
fn growth_counts_users_on_this_machine_and_says_so_when_the_gateway_is_too_old() {
    let p = |here, gate, running| Peaks { here, gate, running };
    let (now, prev, basis) = growth_users(p(Some(1.0), Some(2.0), Some(8.0)), p(Some(1.0), Some(2.0), None), true, 0.0);
    assert_eq!((now, prev), (1.0, 1.0), "only those on THIS machine");
    assert_eq!(basis, None, "this machine's own count needs no caveat");
    // one week cannot be split: the cross-machine count, SAID to be one
    let (now, prev, basis) = growth_users(p(Some(1.0), Some(2.0), None), p(None, Some(2.0), None), true, 0.0);
    assert_eq!((now, prev), (2.0, 2.0));
    assert!(basis.as_deref().expect("the old-gateway figure must carry its caveat").contains("gateway too old"));
    // no gateway at all: the running requests
    assert_eq!(growth_users(p(None, None, Some(8.0)), p(None, None, None), false, 0.0), (8.0, 0.0, None));
}

#[test]
fn window_numbers_come_from_the_rollups() {
    let first = 1_789_000_000 - 1_789_000_000 % 600;
    let now = first + 2 * 720 * 5;
    let all = Some(first);
    let f = Firsts { tok_cached: all, tok_prompt: all, prefill: all, e2e: all, energy: all, tok_gen: all, tok_evicted: None };
    let w = window_stats(now, DAY, first, &f);
    assert_eq!(w.covered_secs, 7200);
    assert_eq!(w.span, Span { from: now - DAY, to: now + 1, res: 60 });
    assert_eq!((w.cache_from, w.prefill_from, w.energy_from, w.evicted_secs), (all, all, all, None));
    // GPU0 is throttled all the time and left out, GPU1 for 12 of 120 minutes
    let gpus = vec![GpuRead { index: 0, thermal: Some(100.0), hw: None }, GpuRead { index: 1, thermal: Some(10.0), hw: None }];
    let thr: Vec<(u32, f64, bool)> = throttle(&gpus, &vec![0]).iter().map(|g| (g.index, g.thermal, g.excluded)).collect();
    assert_eq!(thr, vec![(0, 100.0, true), (1, 10.0, false)]);
}

#[test]
fn an_empty_database_says_nothing_and_growth_needs_an_earlier_week() {
    let first = 1_789_000_000 - 1_789_000_000 % 600;
    assert_eq!(advice_windows().len(), 3);
    assert_eq!(growth(first, first), None);
    let now = first + 7200;
    assert_eq!(growth(now, first), None, "two hours of data have no earlier week");
    // eight days later the two hours lie in the earlier week
    let g = growth(now + 8 * DAY, first).unwrap();
    assert!(g.prev_from <= first && now <= g.now_from && g.prev_secs > 0);
    let (peak, prev, basis) = growth_users(Peaks { here: None, gate: None, running: None }, Peaks { here: None, gate: None, running: Some(8.0) }, false, 0.0);
    assert_eq!((peak, prev, basis), (0.0, 8.0, None));
}

#[test]
fn growth_counts_two_whole_weeks_at_most() {
    assert_eq!(growth(T0, T0), None);
    assert_eq!(growth(T0, T0 - 7200), None, "two hours of data have no earlier week");
    assert_eq!(growth(T0, T0 - WEEK), None);
    assert_eq!(growth(T0, T0 - WEEK - 10), Some(GrowthSpans { prev_from: T0 - 2 * WEEK, now_from: T0 - WEEK, to: T0 + 1, prev_secs: 10, now_secs: WEEK }));
    assert_eq!(growth(T0, 0).map(|g| (g.prev_secs, g.now_secs)), Some((WEEK, WEEK)));
}

#[test]
fn uptime_counts_only_what_was_watched() {
    let row = |kind: &str, start: i64, end: Option<i64>| Incident { id: 0, start, end, kind: kind.into(), detail: String::new(), key: None };
    let rows = vec![
        row("serve_down", 50, Some(150)),
        row("serve_down", 10, Some(20)),
        row("gate_down", 120, Some(180)),
        row("serve_down", 950, None),
    ];
    assert_eq!(targets(&rows, "serve_down", 1_000, 900, 0), Some((100, 900)), "50 s of the first, 50 s of the open one");
    assert_eq!(targets(&rows, "serve_down", 1_000, 900, 960), Some((40, 40)));
    assert_eq!(targets(&rows, "serve_down", 1_000, 900, 1_000), None);
    assert_eq!(targets(&vec![], "serve_down", 1_000, 900, 0), Some((0, 900)));
}

#[test]
fn a_windows_own_figures() {
    let gpus = vec![
        GpuRead { index: 0, thermal: Some(1.0), hw: None },
        GpuRead { index: 1, thermal: None, hw: Some(0.5) },
        GpuRead { index: 2, thermal: Some(0.1), hw: Some(0.2) },
    ];
    let got: Vec<(u32, f64, Option<f64>, bool)> = throttle(&gpus, &vec![0]).iter().map(|g| (g.index, g.thermal, g.hw, g.excluded)).collect();
    assert_eq!(got, vec![(0, 1.0, None, true), (2, 0.1, Some(0.2), false)]);
    assert_eq!(prompt_max(Some(250_000.0), &vec![true], &vec![10.0]), (Some(250_000.0), false));
    assert_eq!(prompt_max(None, &vec![true, true, false], &vec![1_000.0, 10_000.0]), (Some(10_000.0), true));
    // the bucket beyond the last edge has none
    assert_eq!(prompt_max(None, &vec![true, true, true], &vec![1_000.0, 10_000.0]), (None, false));
    assert_eq!(prompt_max::<f64>(None, &vec![], &vec![]), (None, false));
}
