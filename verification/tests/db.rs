use lss_collector::db::{
    event_incident, gauge_window, incidents_since, invalidate_legacy_probes, is_impossible_bucket,
    merge_duplicate_xids, migrate, prune, prunes_incident, repair_burst_probes,
    repair_impossible_token_buckets, repair_probes_the_gauge_missed, spread_over, stale_duration,
    Bucket, Cached, Columns, Incident, Repaired, Retention, Spread, XidMerge,
};

/// A table of incidents, as the database keeps it.
struct Table {
    rows: Vec<Incident>,
}

impl Table {
    fn new() -> Table {
        Table { rows: vec![] }
    }

    fn put(&mut self, kind: &str, start: i64, end: Option<i64>, detail: &str, key: Option<String>) {
        let id = self.rows.len() as i64 + 1;
        self.rows.push(Incident { id, start, end, kind: kind.into(), detail: detail.into(), key });
    }

    fn event(&mut self, kind: &str, ts: i64, detail: &str, key: Option<&str>) -> bool {
        let key = key.map(String::from);
        let new = event_incident(&self.rows, kind, ts, detail, &key);
        if new {
            self.put(kind, ts, Some(ts), detail, key);
        }
        new
    }
}

#[test]
fn incident_open_close_and_idempotent_events() {
    let mut db = Table::new();
    db.put("serve_down", 100, None, "/v1/models: refused", None);
    assert_eq!(incidents_since(&db.rows, 0), vec![0]);
    db.rows[0].end = Some(400);
    assert_eq!(incidents_since(&db.rows, 0), vec![0]);
    assert!(db.event("xid", 77, "GPU3 Xid 8", None));
    assert!(!db.event("xid", 77, "GPU3 Xid 8", None), "same event is booked once");
    assert!(db.event("xid", 77, "GPU1 Xid 8", None));
    let all = incidents_since(&db.rows, 0);
    assert_eq!(all.len(), 3);
    assert_eq!(db.rows[all[0]].start, 100, "newest first");
    for k in 0..600 {
        db.put("xid", 1_000 + k, Some(1_000 + k), "x", None);
    }
    let shown = incidents_since(&db.rows, 0);
    assert_eq!((shown.len(), db.rows[shown[0]].start, db.rows[shown[499]].start), (500, 1_599, 1_100));
}

#[test]
fn an_xid_is_one_incident_however_its_description_is_worded() {
    let mut db = Table::new();
    let key = |gpu: &str, xid: u32, ts: i64| format!("{gpu}/{xid}/{ts}");
    assert!(db.event("xid", 1_789_321_416, "GPU1 Xid 154 (see NVIDIA Xid catalogue) GPU recovery action changed", Some(&key("GPU1", 154, 1_789_321_416))));
    // the same kernel line, re-read by a version that words the hint differently
    assert!(!db.event("xid", 1_789_321_416, "GPU1 Xid 154 (GPU recovery action changed (reset / reboot required)) GPU recovery action changed", Some(&key("GPU1", 154, 1_789_321_416))));
    // another GPU, another Xid number or another second IS another incident
    assert!(db.event("xid", 1_789_321_416, "GPU2 Xid 154 x", Some(&key("GPU2", 154, 1_789_321_416))));
    assert!(db.event("xid", 1_789_321_416, "GPU1 Xid 119 x", Some(&key("GPU1", 119, 1_789_321_416))));
    assert!(db.event("xid", 1_789_321_417, "GPU1 Xid 154 x", Some(&key("GPU1", 154, 1_789_321_417))));
    assert_eq!(incidents_since(&db.rows, 0).len(), 4);
}

#[test]
fn the_migration_merges_xids_that_were_booked_twice_under_two_wordings() {
    let k119 = "GPU1/119/1789321415".to_string();
    let k154 = "GPU1/154/1789321416".to_string();
    let k8 = "GPU1/8/1789679648".to_string();
    let rows = vec![(3, Some(k119.clone())), (4, Some(k154.clone())), (5, Some(k8.clone())), (7, Some(k154.clone())), (8, None)];
    let (ops, known) = merge_duplicate_xids(vec![], &rows);
    let shown: Vec<String> = ops
        .iter()
        .map(|o| match o {
            XidMerge::Leave => "leave".into(),
            XidMerge::Key(k) => format!("key {k}"),
            XidMerge::MergeInto(id, true) => format!("into {id}"),
            XidMerge::MergeInto(id, false) => format!("gone for {id}"),
            XidMerge::Replace(id, k) => format!("in place of {id}: {k}"),
        })
        .collect();
    assert_eq!(shown, vec![format!("key {k119}"), format!("key {k154}"), format!("key {k8}"), "into 4".into(), "leave".into()], "id 7 is merged into id 4; nothing else is touched");
    // run again, the rows have their keys: nothing is left to do
    assert_eq!(known.iter().map(|k| (k.id, k.key.as_str(), k.said)).collect::<Vec<_>>(), vec![(3, k119.as_str(), 3), (4, &k154, 7), (5, &k8, 5)]);
    let keyed = || vec![(3, k119.clone()), (4, k154.clone()), (5, k8.clone())];
    let (ops, known) = merge_duplicate_xids(keyed(), &vec![]);
    assert!(ops.is_empty() && known.len() == 3);
    // a row that is booked once more is merged into the one that has the key
    let (ops, _) = merge_duplicate_xids(keyed(), &vec![(9, Some(k154.clone()))]);
    assert!(matches!(ops[0], XidMerge::MergeInto(4, true)));
    // the row that has the key is the youngest: the oldest stays, with the wording of the youngest
    let (ops, known) = merge_duplicate_xids(vec![(9, k154.clone())], &vec![(2, Some(k154.clone())), (6, Some(k154.clone()))]);
    assert!(matches!(&ops[0], XidMerge::Replace(9, k) if *k == k154));
    assert!(matches!(ops[1], XidMerge::MergeInto(2, false)), "its wording is older");
    assert_eq!((known.len(), known[0].id, known[0].said), (1, 2, 9));
}

#[test]
fn seven_day_window_keeps_open_and_overlapping_incidents() {
    let mut db = Table::new();
    db.put("serve_down", 10, None, "still open", None);
    db.put("xid", 20, Some(20), "old", None);
    db.put("gate_down", 30, Some(1500), "ended inside", None);
    let kinds: Vec<&str> = incidents_since(&db.rows, 1000).iter().map(|i| db.rows[*i].kind.as_str()).collect();
    assert_eq!(kinds, vec!["gate_down", "serve_down"]);
}

#[test]
fn retention_is_per_tier_on_a_fake_clock() {
    const DAY: i64 = 86_400;
    let keep = Retention { raw: DAY, m1: 14 * DAY, m10: 90 * DAY };
    let now = 1_800_000_000 + 100 * DAY;
    let cuts = prune(now, keep);
    let left = |cut: i64| -> Vec<i64> { [0, 1, 2, 13, 15, 89, 91].into_iter().filter(|age| now - age * DAY - 60 >= cut).collect() };
    assert_eq!(left(cuts.samples), vec![0], "raw 5 s samples: 24 h");
    assert_eq!(left(cuts.minutes), vec![0, 1, 2, 13], "1-minute rollups: 14 days");
    assert_eq!(left(cuts.ten_minutes), vec![0, 1, 2, 13, 15, 89], "10-minute rollups: 90 days");
    assert_eq!(cuts.records, cuts.ten_minutes);
    assert_eq!((cuts.loadouts, cuts.bench_runs), (100, 500));
    assert!(!prunes_incident(None, cuts.records), "open incidents survive retention");
    assert!(prunes_incident(Some(cuts.records - 1), cuts.records));
    assert!(!prunes_incident(Some(cuts.records), cuts.records));
}

#[test]
fn alerts_probes_kv_and_retention() {
    let cuts = prune(1100 + 50, Retention { raw: 50, m1: 50, m10: 50 });
    let kept = |times: &[i64], cut: i64| times.iter().copied().filter(|t| *t >= cut).collect::<Vec<_>>();
    assert_eq!(kept(&[500, 5000], cuts.samples), vec![5000]);
    assert_eq!(kept(&[900, 1200], cuts.records), vec![1200], "one probe is left");
    assert!(kept(&[1000], cuts.records).is_empty(), "no alert is");
    let mut db = Table::new();
    db.put("serve_down", 1, None, "ancient but open", None);
    db.rows.retain(|i| !prunes_incident(i.end, cuts.records));
    assert_eq!(incidents_since(&db.rows, 0).len(), 1, "open incidents survive retention");
}

#[test]
fn a_database_from_before_http_status_is_migrated_and_its_rows_still_count() {
    let none = Columns { http_status: false, valid: false, unverified: false, dedupe_key: false };
    assert_eq!(
        migrate(none),
        vec![
            "ALTER TABLE probes ADD COLUMN http_status INTEGER;",
            "ALTER TABLE probes ADD COLUMN valid INTEGER NOT NULL DEFAULT 1; ALTER TABLE probes ADD COLUMN invalid_reason TEXT;",
            "ALTER TABLE probes ADD COLUMN unverified INTEGER NOT NULL DEFAULT 0;",
            "ALTER TABLE incidents ADD COLUMN dedupe_key TEXT;",
        ],
        "the rows that are there read as valid, and as proved"
    );
    // a database that lacks one of them is given that one
    let all = Columns { http_status: true, valid: true, unverified: true, dedupe_key: true };
    assert_eq!(migrate(Columns { http_status: false, ..all }), vec!["ALTER TABLE probes ADD COLUMN http_status INTEGER;"]);
    assert!(migrate(all).is_empty(), "idempotent");
}

#[test]
fn legacy_probes_are_judged_by_their_ttft_and_the_last_valid_reading_is_found() {
    // the rows of an old table: (ts, status, ttft in ms)
    let rows = [(100, "ok", Some(135.0)), (200, "ok", Some(133.0)), (300, "ok", Some(57_800.0)), (400, "ok", Some(1_444.0)), (500, "ok", Some(26_548.4)), (600, "skipped_busy", None), (700, "timeout", None)];
    let judge = |(ts, status, ttft): (i64, &str, Option<f64>)| (ts, invalidate_legacy_probes(true, status, ttft.is_some_and(|t| t > 3000.0)));
    let judged: Vec<(i64, Option<String>)> = rows.into_iter().map(judge).collect();
    let reason = |ts: i64| judged.iter().find(|p| p.0 == ts).unwrap().1.clone();
    assert_eq!(judged.iter().filter(|p| p.1.is_some()).count(), 4);
    assert_eq!(reason(300).as_deref(), Some("slow_ttft"));
    assert_eq!(reason(500).as_deref(), Some("slow_ttft"));
    assert_eq!(reason(600).as_deref(), Some("busy_before"));
    assert_eq!(reason(700).as_deref(), Some("timeout"));
    assert_eq!(reason(400), None, "1.4 s TTFT passes the 3 s test");
    assert_eq!(judged.iter().filter(|p| p.1.is_none()).map(|p| p.0).max(), Some(400));
    assert_eq!(invalidate_legacy_probes(false, "ok", true), None, "idempotent");
}

#[test]
fn a_counters_whole_life_booked_into_one_bucket_is_spread_back_and_real_traffic_is_untouched() {
    // twelve hours in which prompts were read while the cache counter was not recorded, then the
    // counter's whole life in one minute, with no prompt tokens of its own
    assert!(is_impossible_bucket(60, 772_018_048, 0));
    // real traffic: a busy minute next to its prompt tokens, and a cache hit one bucket early
    assert!(!is_impossible_bucket(60, 9_000_000, 9_100_000));
    assert!(!is_impossible_bucket(60, 250_000, 0));
    assert!(!is_impossible_bucket(60, 30_000_000, 0) && is_impossible_bucket(60, 30_000_001, 0));
    let spread = spread_over(772_018_048, &vec![250_000_000; 4]);
    assert_eq!(spread, Spread { part: 772_018_048, whole: 1_000_000_000, placed: 772_018_048 });
    assert_eq!(spread_over(772_018_048, &vec![1_000_000]), Spread { part: 1, whole: 1, placed: 1_000_000 });
    assert_eq!(spread_over(5, &vec![]), Spread { part: 0, whole: 1, placed: 0 });
    assert_eq!(spread_over(5, &vec![u64::MAX, u64::MAX]), Spread { part: 5, whole: 2 * u64::MAX as u128, placed: 5 });

    let put = |ts: i64, prompt: u64, cached: u64| Bucket { res: 60, ts, prompt, cached: Cached::Tokens(cached) };
    let mut rows: Vec<Bucket> = (0..4).map(|k| put(1_000 + k * 60, 250_000_000, 0)).collect();
    // another tier is untouched by it
    rows.push(Bucket { res: 600, ..put(1_200, 250_000_000, 0) });
    rows.extend([put(6_000, 0, 772_018_048), put(6_060, 9_100_000, 9_000_000), put(6_120, 0, 250_000)]);
    let (after, fixed) = repair_impossible_token_buckets(rows.clone());
    assert_eq!(fixed, vec![Repaired { res: 60, ts: 6_000, tokens: 772_018_048, placed: 772_018_048 }], "all of it found a home");
    // the total is what it was; no bucket is impossible any more; cached <= prompt everywhere
    let total = |rows: &[Bucket]| rows.iter().filter(|b| b.res == 60).map(tokens).sum::<f64>();
    assert!((total(&after) - (772_018_048.0 + 9_250_000.0)).abs() < 1.0);
    assert_eq!(after[5], put(6_000, 0, 0));
    let first = tokens(&after[0]);
    assert!((first - 193_004_512.0).abs() < 1.0 && first <= 250_000_000.0, "a quarter each, under that minute's prompt tokens: {first}");
    assert_eq!((&after[4], &after[6..]), (&rows[4], &rows[6..]));
    let (again, none) = repair_impossible_token_buckets(after.clone());
    assert!(none.is_empty() && again == after, "nothing left to repair: safe to run at every start");
    // more than the earlier prompts can hold: capped at them (cached is never more than read)
    let (after, fixed) = repair_impossible_token_buckets(vec![put(1_000, 1_000_000, 0), put(6_000, 0, 772_018_048)]);
    assert_eq!((fixed[0].placed, total(&after)), (1_000_000, 1_000_000.0));
    // nothing before it: the tokens have no place
    let (after, fixed) = repair_impossible_token_buckets(vec![put(6_000, 0, 772_018_048)]);
    assert_eq!((fixed[0].placed, total(&after)), (0, 0.0));
    // two in a row: the second may go to the place that the first has left
    let (after, fixed) = repair_impossible_token_buckets(vec![put(6_000, 1_000, 772_018_048), put(6_060, 0, 500_000_000)]);
    assert_eq!(fixed.iter().map(|r| (r.tokens, r.placed)).collect::<Vec<_>>(), vec![(772_018_048, 0), (500_000_000, 1_000)]);
    assert_eq!(after[0].cached, Cached::Share(1, 1));
}

/// The cached tokens of a bucket.
fn tokens(b: &Bucket) -> f64 {
    match b.cached {
        Cached::Tokens(n) => n as f64,
        Cached::Share(part, whole) => b.prompt as f64 * part as f64 / whole as f64,
    }
}

#[test]
fn stored_burst_readings_are_re_judged_and_the_loadout_figures_rebuilt() {
    // ten ordinary readings around 190 tok/s, and two over the ceiling
    let speeds = [188.0, 191.0, 185.0, 193.0, 190.0, 186.0, 192.0, 189.0, 187.0, 194.0, 5_596.3, 26_773.8];
    let over: Vec<bool> = speeds.iter().map(|v| *v > 1_000.0).collect();
    assert_eq!(repair_burst_probes(&over), vec![10, 11]);
    // what is left makes the loadout's figures: ten readings, the median and the best of them
    let mut left: Vec<f64> = (0..speeds.len()).filter(|i| !repair_burst_probes(&over).contains(i)).map(|i| speeds[i]).collect();
    left.sort_by(f64::total_cmp);
    assert_eq!((left.len(), (left[4] + left[5]) / 2.0, left[9]), (10, 189.5, 194.0));
    // running it again finds nothing: safe at every start
    assert!(repair_burst_probes(&left.iter().map(|v| *v > 1_000.0).collect()).is_empty());
    assert!(repair_burst_probes(&over[5..].to_vec()).is_empty(), "seven readings are too few to tell");
    assert_eq!(repair_burst_probes(&over[4..].to_vec()), vec![6, 7]);
}

#[test]
fn probes_the_old_idle_gate_missed_are_found_from_the_stored_samples() {
    let window = |ts: i64| gauge_window(ts, 1, 5);
    assert_eq!(window(1000), (994, 1007));
    assert_eq!(gauge_window(1000, 1, 0), (998, 1003));
    let found = |ts: i64, samples: &[(i64, u64)]| {
        let (from, to) = window(ts);
        let inside: Vec<Option<u64>> = samples.iter().filter(|s| from <= s.0 && s.0 <= to).map(|s| Some(s.1)).collect();
        repair_probes_the_gauge_missed(&inside, 128, 10, to - from)
    };
    // another client's 288 tokens landed entirely inside the probe's own window
    let d = found(1000, &[(998, 48_213), (1002, 48_213 + 288)]).unwrap();
    assert!(d.contains("grew by 288") && d.contains("160 more") && d.contains("128 tokens"), "{d}");
    // a clean reading: the counter grows by exactly the probe's own answer
    assert_eq!(found(2000, &[(1998, 90_000), (2002, 90_128)]), None);
    // nothing stored anywhere near this one: left alone, never guessed at
    assert_eq!(found(9000, &[]), None);
    // the contaminating sample sat right on the window's upper edge
    assert!(found(5000, &[(4998, 1_000), (5003, 1_300)]).unwrap().contains("grew by 300"));
    // before and after both landed a full poll away
    assert!(found(6000, &[(5995, 1_809_956), (6005, 1_809_956 + 567)]).unwrap().contains("grew by 567"));
    // a sample without a counter says nothing, a counter that began again says nothing
    assert_eq!(repair_probes_the_gauge_missed(&vec![Some(5), None], 128, 10, 5), None);
    assert_eq!(repair_probes_the_gauge_missed(&vec![Some(900), Some(5)], 1, 1, 5), None);
}

#[test]
fn a_run_that_was_never_closed_lasted_until_it_is() {
    assert_eq!((stale_duration(100, 160), stale_duration(160, 100)), (60, 0));
}
