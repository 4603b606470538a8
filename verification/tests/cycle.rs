use lss_collector::bench_run::GateUser;
use lss_collector::cycle::{
    backfill_from, baseline_source, disk_reading, first_seen, floor_to, gate_knows_since, is_due,
    last_bench_run, last_reading, later_of, not_reported, rest_ms, retention_of, spool_depth,
    unix_now, Cycle, DiskBlocks, DiskObs, RunRow, Share, Spool, Turn, WindowOp, DAY,
};

fn turn(now: i64) -> Turn {
    Turn {
        now,
        bench_active: false,
        bench_generation: 0,
        bench_profile: None,
        maintenance_active: false,
        maintenance_reason: String::new(),
        journal_ok: false,
        gate_started: None,
        has_probe_results: false,
        has_metrics: false,
        gate_knows_since: 0,
        flush_secs: 0,
    }
}

fn said(op: &Option<WindowOp>) -> String {
    match op {
        Some(WindowOp::Open(d)) => format!("open {d}"),
        Some(WindowOp::Close) => "close".into(),
        None => String::new(),
    }
}

#[test]
fn a_windows_incident_is_open_exactly_while_the_window_lasts() {
    let mut c = Cycle::new(1_000, 0);
    let mut ops = vec![];
    for (k, active) in [false, true, true, false, false, true].into_iter().enumerate() {
        let mut t = turn(1_000 + k as i64 * 5);
        t.bench_active = active;
        t.bench_profile = Some("quick".into());
        t.maintenance_active = !active;
        t.maintenance_reason = "a new card".into();
        let p = c.turn(&t);
        assert_eq!((c.bench_open, c.maintenance_open), (active, !active));
        ops.push((said(&p.bench), said(&p.maintenance)));
    }
    let open = "open lss bench quick running: the load is the benchmark's; queue and C1 alerts stand down".to_string();
    let planned = "open planned maintenance: a new card".to_string();
    let none = String::new();
    let close = "close".to_string();
    assert_eq!(
        ops,
        vec![
            (none.clone(), planned.clone()),
            (open.clone(), close.clone()),
            (none.clone(), none.clone()),
            (close.clone(), planned.clone()),
            (none.clone(), none),
            (open, close)
        ]
    );
}

#[test]
fn the_slower_jobs_keep_their_own_clocks() {
    let mut c = Cycle::new(100_000, 0);
    let mut t = turn(100_000);
    t.journal_ok = true;
    t.has_metrics = true;
    t.flush_secs = 300;
    t.gate_knows_since = 99_000;
    let p = c.turn(&t);
    assert!(!p.flush, "just started");
    assert!(p.mark_scan && p.save_ledger && p.prune && p.tokens && p.advice);
    assert_eq!(p.own_probes, Some((99_000, 99_000)));
    assert_eq!(p.user_log, Some((100_000 - DAY, 100_001)));
    t.now = 100_059;
    let p = c.turn(&t);
    assert!(!p.flush && !p.mark_scan && !p.save_ledger && !p.prune && !p.tokens && !p.advice);
    assert_eq!((p.own_probes, p.user_log), (None, None));
    t.now = 100_300;
    t.gate_knows_since = 0;
    let p = c.turn(&t);
    assert!(p.flush && p.mark_scan && p.save_ledger && !p.prune && p.tokens && p.advice);
    assert_eq!(p.own_probes, Some((96_700, 100_300 - DAY)));
    t.now = 103_600;
    t.flush_secs = 0;
    let p = c.turn(&t);
    assert!(!p.flush && p.prune);
    t.bench_generation = 3;
    assert!(c.turn(&t).reload_bench);
    assert!(!c.turn(&t).reload_bench);
}

#[test]
fn the_probes_share_is_counted_again_when_something_changed() {
    let mut c = Cycle::new(0, 0);
    let mut t = turn(0);
    t.gate_started = Some(500);
    assert_eq!(c.turn(&t).share, Share::CountSince(500));
    c.counted(7);
    assert_eq!(c.probe_share, Some((500, 7)));
    assert_eq!(c.turn(&t).share, Share::Keep);
    assert_eq!(c.probe_share, Some((500, 7)));
    t.has_probe_results = true;
    assert_eq!(c.turn(&t).share, Share::CountSince(500));
    t.has_probe_results = false;
    t.gate_started = None;
    assert_eq!(c.turn(&t).share, Share::Drop);
    assert_eq!(c.probe_share, None);
    assert_eq!(c.turn(&t).share, Share::Keep);
}

#[test]
fn the_engine_is_asked_for_its_slots_when_it_comes_up() {
    let mut c = Cycle::new(0, 0);
    assert!(!c.asks_slots(false, 0));
    assert!(c.asks_slots(true, 0) && !c.asks_slots(true, 8));
    c.saw_engine(true, Some(8));
    assert_eq!((c.slots, c.was_up), (8, true));
    assert!(!c.asks_slots(true, 0));
    c.saw_engine(false, None);
    assert!(c.asks_slots(true, 0), "it has just come up again");
    assert_eq!(c.slots, 8);
}

#[test]
fn the_start_reads_what_was_left() {
    let keep = retention_of(24, 14, 90);
    assert_eq!((keep.raw, keep.m1, keep.m10), (DAY, 14 * DAY, 90 * DAY));
    assert_eq!((floor_to(1_234, 600), floor_to(-1, 600), floor_to(600, 600)), (1_200, -600, 600));
    let now = 10_000_000;
    assert_eq!(backfill_from(None, None, now), now - 7 * DAY, "a first start reads seven days");
    assert_eq!(backfill_from(None, Some(now - 60), now), now - 60);
    assert_eq!(backfill_from(Some(now - 500), Some(now - 60), now), now - 500, "one that never finished");
    assert_eq!(backfill_from(Some(1), None, now), now - 7 * DAY);
    assert_eq!(first_seen(Some(5), Some(3), 9), (5, None));
    assert_eq!(first_seen(None, Some(3), 9), (3, Some(3)));
    assert_eq!(first_seen(None, None, 9), (9, Some(9)));
    let run = |status: &str, profile: &str| RunRow { status: status.into(), profile: profile.into() };
    assert_eq!(last_bench_run(&vec![run("running", "quick"), run("ok", "dry-run"), run("aborted", "full"), run("ok", "quick")]), Some(2));
    assert_eq!(last_bench_run(&vec![run("ok", "dry-run")]), None);
    assert!(is_due(60, 0, 60) && !is_due(59, 0, 60) && is_due(i64::MAX, i64::MIN, 60));
    assert_eq!((later_of(1, 2), later_of(2, 1)), (2, 2));
}

#[test]
fn the_clock_before_the_epoch_is_zero() {
    assert_eq!((unix_now(Some(1_800_000_000)), unix_now(None)), (1_800_000_000, 0));
}

#[test]
fn the_baseline_says_where_it_comes_from() {
    assert_eq!(baseline_source(true, true, 3, 12), "config");
    assert_eq!(baseline_source(false, true, 12, 12), "learned");
    assert_eq!(baseline_source(false, false, 3, 12), "learning 3/12");
}

#[test]
fn known_slots_are_reported_after_all() {
    let keys = vec!["slots".to_string(), "kv".to_string()];
    assert_eq!(not_reported(&keys, 8), vec!["kv".to_string()]);
    assert_eq!(not_reported(&keys, 0), keys);
}

#[test]
fn probes_count_from_when_the_gateway_knows_them() {
    let user = |lane: &str, user: &str, first_seen| GateUser { lane: lane.into(), user: user.into(), inflight: 0, first_seen };
    let users = vec![user("public", "127.0.0.1", 5), user("trusted", "10.0.0.1", 6), user("trusted", "127.0.0.1", 7)];
    assert_eq!(gate_knows_since(&users, &Some("127.0.0.1".into())), 7);
    assert_eq!(gate_knows_since(&users, &Some("::1".into())), 0);
    assert_eq!(gate_knows_since(&users, &None), 0);
    assert_eq!(last_reading(&vec![true, true, false]), Some(1));
    assert_eq!(last_reading(&vec![false]), None);
}

#[test]
fn the_disk_reading_is_this_boxs_real_filesystem_and_nothing_for_an_empty_or_missing_path() {
    let b = DiskBlocks { blocks: 1_000, available: 400, frag: 4_096 };
    let d = disk_reading("/", Some(b)).expect("/ is always readable");
    assert_eq!(d, DiskObs { total_bytes: 4_096_000, avail_bytes: 1_638_400 });
    assert!(d.total_bytes > 0 && d.avail_bytes <= d.total_bytes, "{d:?}");
    assert_eq!(disk_reading("", Some(b)), None, "an empty path = not watched");
    assert_eq!(disk_reading(" ", Some(b)), None);
    assert_eq!(disk_reading("/no/such/path/264", None), None, "unreadable = no reading (never a recovery)");
}

#[test]
fn a_spool_that_is_not_there_is_empty() {
    assert_eq!(spool_depth(&Spool::Entries(vec![true, false, true])), Some(2));
    assert_eq!(spool_depth(&Spool::Missing), Some(0));
    assert_eq!(spool_depth(&Spool::Unreadable), None);
}

#[test]
fn a_turn_that_took_too_long_does_not_rest() {
    assert_eq!(rest_ms(5, 1_200), Some(3_800));
    assert_eq!(rest_ms(5, 5_000), Some(0));
    assert_eq!(rest_ms(5, 5_001), None);
    assert_eq!(rest_ms(0, 400), Some(600));
}
