use lss_collector::loadouts::{
    accuracy_runs, effective_usd_per_kwh, last_at, newest_complete, past_shown, seen_as, BenchRow,
    Loadouts, SeenAs, ServeContainer, Switch,
};

fn seen(name: &str, started_at: i64, model: &str) -> SeenAs {
    SeenAs { name: name.into(), started_at, model: model.into() }
}

#[test]
fn a_configured_rates_table_suppresses_the_old_flat_figure_even_if_both_are_set() {
    assert_eq!(effective_usd_per_kwh(Some(0.30), true), None);
    assert_eq!(effective_usd_per_kwh(Some(0.30), false), Some(0.30));
    assert_eq!(effective_usd_per_kwh::<f64>(None, true), None);
    assert_eq!(effective_usd_per_kwh::<f64>(None, false), None);
}

#[test]
fn an_engine_that_is_not_a_container_gets_a_loadout_too() {
    let model = Some("glm".to_string());
    let running = Some(ServeContainer { name: "serve".into(), running: true, started_at: 500 });
    let s = seen_as(true, &model, "(none)", &running).unwrap();
    assert_eq!((s.name.as_str(), s.started_at, s.model.as_str()), ("serve", 500, "glm"));
    let s = seen_as(true, &model, "(none)", &None).unwrap();
    assert_eq!((s.name.as_str(), s.started_at, s.model.as_str()), ("", 0, "glm"));
    let stopped = Some(ServeContainer { name: "serve".into(), running: false, started_at: 500 });
    assert_eq!(seen_as(true, &model, "(none)", &stopped).unwrap().name, "");
    assert!(seen_as(false, &model, "(none)", &running).is_none());
    assert!(seen_as(true, &Some("(none)".into()), "(none)", &running).is_none());
    assert!(seen_as(true, &None, "(none)", &running).is_none());
}

#[test]
fn a_plain_process_loadout_created_after_prior_samples_exist_is_not_born_in_1970() {
    let mut l = Loadouts::new();
    let (switch, cold) = l.switch_to("a".into(), seen("", 0, "glm"), 10_000, None, 500);
    assert_eq!((switch, cold), (Switch::New(10_000), None));
    // seen down a moment ago: a plain process says no start to time it from
    let mut l = Loadouts::new();
    assert!(!l.on_sample(9_990, false, &None));
    assert_eq!(l.switch_to("a".into(), seen("", 0, "glm"), 10_000, None, 500).1, None);
    let mut l = Loadouts::new();
    let (switch, _) = l.switch_to("a".into(), seen("serve", 9_000, "glm"), 10_000, None, 500);
    assert_eq!(switch, Switch::New(9_000));
    // a start ahead of the clock is not believed
    let mut l = Loadouts::new();
    assert_eq!(l.switch_to("a".into(), seen("serve", 11_000, "glm"), 10_000, None, 500).0, Switch::New(10_000));
}

#[test]
fn a_new_loadout_starts_from_what_the_database_already_knows_about_that_run() {
    // twenty samples of the run are stored, and one of an older run
    let mut l = Loadouts::new();
    let run = Some(seen("serve", 4990, "glm"));
    assert!(l.on_sample(5100, true, &run));
    assert_eq!(l.switch_to("a".into(), seen("serve", 4990, "glm"), 5100, None, 20).0, Switch::New(4990));
    assert_eq!(l.current.as_ref().unwrap().first_seen, 4990, "first seen = when that container started, not when the collector was upgraded");
    // the stored samples since then, and nothing from before it
    let times: Vec<i64> = (0..20).map(|k| 5000 + k * 5).chain([4000]).collect();
    assert_eq!(times.iter().filter(|t| **t >= 4990).count(), 20);
}

#[test]
fn a_loadout_accumulates_across_restarts_and_a_changed_arg_is_a_new_one() {
    let mut l = Loadouts::new();
    let first = Some(seen("serve", 900, "glm"));
    assert!(l.on_sample(1_000, true, &first));
    assert_eq!(l.switch_to("a".into(), seen("serve", 900, "glm"), 1_000, None, 0).0, Switch::New(1_000));
    assert!(!l.on_sample(1_005, true, &first), "identified once");
    // down, then up again as another run of the same configuration
    assert!(!l.on_sample(2_000, false, &None));
    let again = Some(seen("serve", 1_990, "glm"));
    assert!(l.on_sample(2_030, true, &again));
    assert_eq!(l.switch_to("a".into(), seen("serve", 1_990, "glm"), 2_030, None, 0), (Switch::Restarted, Some(40)));
    assert_eq!(l.current.as_ref().unwrap().first_seen, 1_000);
    // a changed argument is another loadout; the first comes back as it was
    assert_eq!(l.switch_to("b".into(), seen("serve", 3_000, "glm"), 3_100, None, 0).0, Switch::New(3_100));
    assert_eq!(l.switch_to("a".into(), seen("serve", 4_000, "glm"), 4_100, Some(1_000), 0).0, Switch::Back(1_000));
    // the cold start is only told where the engine was seen down shortly before
    assert_eq!(l.switch_to("a".into(), seen("serve", 5_000, "glm"), 5_100, None, 0).1, None);
}

#[test]
fn a_loadout_is_saved_once_a_minute() {
    let mut l = Loadouts::new();
    assert!(!l.saves(1_000));
    l.switch_to("a".into(), seen("", 0, "m"), 1_000, None, 0);
    assert!(!l.saves(1_059));
    assert!(l.saves(1_060));
    assert!(!l.saves(1_061));
}

#[test]
fn bench_runs_attach_to_their_loadout_and_an_aborted_run_is_never_the_scorecard() {
    let row = |id: &str, profile: &str, status: &str, ended_at: i64, dataset: Option<&str>| BenchRow {
        loadout_id: id.into(),
        profile: profile.into(),
        status: status.into(),
        complete: status == "ok",
        ended_at,
        dataset: dataset.map(String::from),
    };
    let rows = vec![
        row("a", "quick", "running", 0, None),
        row("a", "quick", "aborted", 50, None),
        row("b", "quick", "ok", 45, None),
        row("a", "quick", "ok", 40, None),
        row("a", "quick", "ok", 30, None),
        row("a", "accuracy", "ok", 20, Some("gsm8k")),
        row("a", "accuracy", "ok", 10, Some("gsm8k")),
        row("a", "accuracy", "ok", 5, Some("mmlu")),
    ];
    assert_eq!(newest_complete(&rows, "a", "quick"), Some(3));
    assert_eq!(last_at(&rows, "a", "quick"), Some(50), "an aborted run was still the last one");
    assert_eq!(newest_complete(&rows, "c", "quick"), None);
    assert_eq!(last_at(&rows, "a", "full"), None);
    assert_eq!(accuracy_runs(&rows, "a"), vec![5, 7], "the newest of each dataset");
}

#[test]
fn the_current_loadout_is_not_among_the_past_ones() {
    let past = vec!["a".to_string(), "b".to_string(), "c".to_string()];
    assert_eq!(past_shown(&past, &Some("b".into())), vec![0, 2]);
    assert_eq!(past_shown(&past, &None), vec![0, 1, 2]);
}
