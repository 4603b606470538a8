use lss_collector::bench_run::{
    abandoned, asked_profile, asks_engine_directly, client_timed_out, compare_accuracy,
    compare_argv, compare_refusal, count_abandoned, harness_end, harness_path, held_pid, join_cells,
    last_line_or, lock_text, look_argv, must_stop, note_of, other_users_inflight, pid_alive,
    preflight, prune_raw, recover, request_start, run_dir, run_harness_path, run_verdict, settle,
    settle_ms, stop_at_once, take_lock, target_of, timed_out, BenchRequest, BenchStarted,
    BenchState, Cause, GateUser, IdleSeen, LockStep, LockTry, Measured, OwnLoad, Preflight, Profile,
    Returned, Seen, StartStep, StepEnd,
};
use lss_collector::bench_steps::{
    direct_note, fetch_remote, harness_not_started, reply_of, run_harness, run_token, settles_after,
    stop_of, Answer, Asking, Copied, Flight, FlightEvent, FlightStep, HarnessSeen, Heard, NoStart,
    Questions, Runner,
};
use lss_collector::cmd::CmdOutput;

fn strings(v: &[&str]) -> Vec<String> {
    v.iter().map(|s| s.to_string()).collect()
}

fn datasets() -> Vec<String> {
    strings(&["gsm8k", "mmlu"])
}

fn ask(profile: &str, force: bool) -> BenchRequest {
    BenchRequest { profile: profile.into(), dataset: String::new(), note: "test run".into(), force, under_load: false }
}

fn profile_of(name: &str) -> Option<Profile> {
    match name {
        "quick" => Some(Profile::Quick),
        "full" => Some(Profile::Full),
        "accuracy" => Some(Profile::Accuracy),
        "dry-run" => Some(Profile::DryRun),
        _ => None,
    }
}

fn idle() -> IdleSeen {
    IdleSeen { running: None, idle: Ok(()), serve_up: true, down_reason: None, model: Some("model-a".into()) }
}

fn seen(profile: &str, harness: Result<String, String>, harness_set: bool) -> Seen {
    Seen {
        profile: profile_of(profile),
        harness_set,
        harness: Some(harness),
        server: Some(idle()),
        lock: Some(Ok(())),
        record: Some(Ok(1)),
        released: false,
    }
}

fn answer(s: StartStep) -> (u16, BenchStarted) {
    match s {
        StartStep::Answer(code, b) => (code, b),
        _ => panic!("an answer"),
    }
}

fn start(profile: &str, s: &Seen) -> (u16, BenchStarted) {
    answer(request_start(&ask(profile, false), &datasets(), s))
}

fn ready(profile: &str) -> Seen {
    seen(profile, Ok("/h/llm_decode_bench.py".into()), true)
}

fn measured() -> Measured {
    Measured {
        nothing: false,
        help: "usage: --concurrency N".into(),
        dir: "/r/1-quick-model-a".into(),
        harness: "/h/llm_decode_bench.py".into(),
        python: "/usr/bin/python3".into(),
        timeout_secs: 1,
    }
}

#[test]
fn the_idle_gate_refuses_a_busy_or_recently_used_server() {
    let busy = |why: &str| {
        let mut s = ready("quick");
        s.server = Some(IdleSeen { idle: Err(why.into()), ..idle() });
        start("quick", &s)
    };
    let (code, no) = busy("the server is busy (2 running, 0 queued)");
    assert_eq!((code, no.ok, no.run_id), (409, false, None));
    assert!(no.message.contains("the server is busy (2 running"), "{}", no.message);
    assert!(busy("the engine generated 1240 token(s) in the last 5 min").1.message.contains("1240 token(s) in the last 5 min"));
    assert!(!busy("1 request in flight at the gateway").1.ok, "a request in flight at the gateway is not idle either");
    assert!(busy("not enough history").1.message.contains("not enough history"));
    // what is refused has not come to the lock
    let mut s = ready("quick");
    s.server = None;
    s.lock = None;
    s.record = None;
    assert!(matches!(request_start(&ask("quick", false), &datasets(), &s), StartStep::LookAtServer));
    // --force is not held to it, nor is --under-load: the server is taken for an idle one
    assert!(!ask("quick", false).forced() && ask("quick", true).forced());
    assert!(BenchRequest { under_load: true, ..ask("quick", false) }.forced());
    let (code, yes) = answer(request_start(&ask("quick", true), &datasets(), &ready("quick")));
    assert_eq!((code, yes.ok), (202, true));
    // a request that names no profile asks for the quick one
    assert_eq!((asked_profile("").as_str(), asked_profile("full").as_str()), ("quick", "full"));
    // but never on a serve that is down, and never with a profile or dataset it does not know
    let mut down = ready("quick");
    down.server = Some(IdleSeen { idle: Err("the serve is not up".into()), serve_up: false, down_reason: Some("the key was refused".into()), ..idle() });
    assert_eq!(start("quick", &down).1.message, "the serve is not up - the key was refused");
    assert_eq!(start("everything", &ready("everything")).0, 400);
    let own = BenchRequest { dataset: "my-own".into(), ..ask("accuracy", false) };
    let (code, no) = answer(request_start(&own, &datasets(), &ready("accuracy")));
    assert_eq!((code, no.message.as_str()), (400, "unknown dataset `my-own`: use gsm8k, mmlu"));
}

#[test]
fn a_start_finds_out_one_thing_after_the_other() {
    let req = ask("quick", false);
    let mut s = Seen { profile: Some(Profile::Quick), harness_set: true, harness: None, server: None, lock: None, record: None, released: false };
    assert!(matches!(request_start(&req, &datasets(), &s), StartStep::FindHarness));
    s.harness = Some(Ok("/h".into()));
    assert!(matches!(request_start(&req, &datasets(), &s), StartStep::LookAtServer));
    s.server = Some(idle());
    assert!(matches!(request_start(&req, &datasets(), &s), StartStep::TakeLock(Profile::Quick)));
    s.lock = Some(Ok(()));
    match request_start(&req, &datasets(), &s) {
        StartStep::Record(p, m) => assert_eq!((p, m.as_str()), (Profile::Quick, "model-a")),
        _ => panic!("the record"),
    }
    s.record = Some(Ok(7));
    let (code, yes) = answer(request_start(&req, &datasets(), &s));
    assert_eq!((code, yes.ok, yes.run_id), (202, true, Some(7)));
    assert_eq!(yes.message, "benchmark `quick` started on model-a (run 7). It stops by itself if anyone else uses the server.");
    // a run that is not recorded gives the lock back, and is refused then
    s.record = Some(Err("disk full".into()));
    assert!(matches!(request_start(&req, &datasets(), &s), StartStep::ReleaseLock));
    s.released = true;
    let (code, no) = answer(request_start(&req, &datasets(), &s));
    assert_eq!((code, no.message.as_str()), (500, "cannot record the run: disk full"));
    s.server = Some(IdleSeen { model: None, ..idle() });
    assert_eq!(answer(request_start(&req, &datasets(), &s)).1.message, "the serve has no model loaded: nothing to benchmark");
    let loaded = BenchRequest { under_load: true, ..ask("quick", false) };
    let (_, yes) = answer(request_start(&loaded, &datasets(), &ready("quick")));
    assert!(yes.under_load && yes.message.ends_with("and the scorecard records what that was."), "{}", yes.message);
}

#[test]
fn one_bench_at_a_time() {
    let mut s = ready("full");
    s.server = Some(IdleSeen { running: Some(Some("quick".into())), ..idle() });
    let (code, second) = answer(request_start(&ask("full", true), &datasets(), &s));
    assert_eq!((code, second.ok), (409, false));
    assert!(second.message.contains("already running (quick)"), "{}", second.message);

    // the lock FILE: another live process holds it -> refused; a dead one -> taken over, once
    let now = 1_000_000;
    let held = lock_text(4242, "full", now - 90);
    assert_eq!(held, "{\"pid\":4242,\"profile\":\"full\",\"started_at\":999910}\n");
    assert_eq!(held_pid(&Some(held.clone())), 4242);
    assert_eq!(held_pid(&Some("not json".into())), 0);
    assert_eq!(held_pid(&None), 0);
    match take_lock(0, &LockTry::Held(Some(held.clone()), true), now) {
        LockStep::Refused(m) => assert_eq!(m, "a benchmark is already running (full, started 90s ago, pid 4242): one at a time. `lss bench status` shows it, `lss bench cancel` stops it"),
        _ => panic!("refused"),
    }
    assert!(matches!(take_lock(0, &LockTry::Held(Some(held.clone()), false), now), LockStep::TakeOver));
    // a second dead one: its file goes too, and the request is refused
    match take_lock(1, &LockTry::Held(Some(held.clone()), false), now) {
        LockStep::GiveUp(m) => assert_eq!(m, "cannot take the bench lock"),
        _ => panic!("given up"),
    }
    assert!(matches!(take_lock(1, &LockTry::Held(Some(held), true), now), LockStep::Refused(_)));
    assert!(matches!(take_lock(0, &LockTry::Created, now), LockStep::Taken));
    match take_lock(0, &LockTry::Failed("/d/bench.lock".into(), "denied".into()), now) {
        LockStep::Refused(m) => assert_eq!(m, "cannot create the bench lock /d/bench.lock: denied"),
        _ => panic!("refused"),
    }
    let mut s = ready("quick");
    s.lock = Some(Err("a benchmark is already running (full)".into()));
    assert_eq!(start("quick", &s).0, 409);
    assert!(!pid_alive(0, true, false) && pid_alive(7, true, false) && pid_alive(7, false, true) && !pid_alive(7, false, false));
    assert!(recover(7, false, 9) && recover(9, true, 9) && !recover(7, true, 9));
}

#[test]
fn a_profile_has_a_hard_timeout() {
    assert!(matches!(stop_at_once(false, true), Some(StepEnd::Timeout)));
    let (status, why) = run_verdict(StepEnd::Timeout, Profile::Quick, &measured());
    assert_eq!(status, "timeout");
    assert!(why.as_deref().unwrap().starts_with("timeout after 1s (the `quick` profile's hard limit)"), "{why:?}");
}

#[test]
fn full_adds_the_needle_accuracy_stores_the_score_and_the_dry_run_sends_nothing() {
    assert!(start("full", &ready("full")).1.ok);
    let (status, why) = run_verdict(StepEnd::Done, Profile::Full, &measured());
    assert_eq!((status.as_str(), why), ("ok", None));

    // a gateway that refuses a prompt this large: the needle goes straight to the engine
    assert!(asks_engine_directly(413) && asks_engine_directly(429) && asks_engine_directly(400));
    assert!(!asks_engine_directly(200) && !asks_engine_directly(500) && !asks_engine_directly(0));

    assert!(start("accuracy", &ready("accuracy")).1.ok);
    let (status, _) = run_verdict(StepEnd::Done, Profile::Accuracy, &measured());
    assert_eq!(status, "ok");

    // a dry run asks for the harness's help and nothing else: it is no benchmark result
    assert!(start("dry-run", &ready("dry-run")).1.ok);
    let dry = Measured { nothing: true, ..measured() };
    assert_eq!(run_verdict(StepEnd::Done, Profile::DryRun, &dry).0, "ok");
    let mut state = BenchState::new();
    state.begin(Profile::DryRun, 100, 1);
    assert!(!state.end(Profile::DryRun, true), "a dry run is not a benchmark result");
    let r = Runner::new(Ok(()), "/r", 1);
    assert!(!r.asks_first(&vec![false]), "nothing is sent to the engine for a dry run");
    let helpless = Measured { help: "Traceback".into(), ..dry };
    let (status, why) = run_verdict(StepEnd::Done, Profile::DryRun, &helpless);
    assert_eq!(status, "failed");
    assert!(why.unwrap().contains("did not print the harness's usage"));
}

#[test]
fn a_missing_harness_is_a_clear_error_not_a_crash() {
    // no harness at all: quick / full fall back to the built-in mini bench; what only the harness can
    // do says so
    let none = || harness_path("", "", false);
    let (code, no) = start("accuracy", &seen("accuracy", none(), false));
    assert_eq!(code, 409);
    assert!(no.message.contains("not set up") && no.message.contains("[bench] harness"), "{}", no.message);
    let gone = harness_path("/nowhere/llm_decode_bench.py", "/nowhere/llm_decode_bench.py", false);
    assert!(start("quick", &seen("quick", gone, true)).1.message.contains("is not at /nowhere/llm_decode_bench.py"));
    // the interpreter is missing: the run is recorded as failed, with the reason
    assert!(start("quick", &ready("quick")).1.ok);
    let end = harness_not_started("/r", &NoStart::Program("/nowhere/python3 h.py".into(), "No such file or directory".into()));
    let (status, why) = run_verdict(end, Profile::Quick, &measured());
    assert_eq!(status, "failed");
    assert!(why.as_deref().unwrap().contains("cannot start `/nowhere/python3"), "{why:?}");
}

#[test]
fn without_a_harness_the_built_in_mini_bench_gives_a_scorecard() {
    let none = || harness_path(" ", "", false);
    let (code, started) = start("quick", &seen("quick", none(), false));
    assert!(code == 202 && started.ok, "{}", started.message);
    assert_eq!(start("full", &seen("full", none(), false)).0, 202);
    let target = target_of(false, "http://127.0.0.1:30000", "http://127.0.0.1:30000", None);
    assert!(target.starts_with("built-in mini bench (no external harness configured)"), "{target}");
    // with no gateway configured the target must NOT name a gateway port that does not exist, the
    // clauses must be separated, and the engine-direct route is stated
    assert!(!target.contains("trusted port ()"), "no empty gateway URL: {target}");
    assert!(!target.contains("the gateway's trusted port"), "no gateway, no gateway clause: {target}");
    assert!(target.contains("no gateway configured"), "{target}");
    assert!(target.contains(" \u{b7} "), "clauses are separated: {target}");
    // 8 at once, every one of them comes back
    let mut f = Flight::new(8);
    for k in 0..8 {
        let step = f.see(FlightEvent::Back(Returned { code: 200, gave_up: false, elapsed_ms: 900 }));
        assert_eq!(matches!(step, FlightStep::Over), k == 7);
    }
    assert_eq!(f.left_running(false, 600_000), 0);
    let (status, why) = run_verdict(StepEnd::Done, Profile::Quick, &measured());
    assert_eq!((status.as_str(), why), ("ok", None));
    // accuracy needs the harness's datasets: said plainly, nothing is sent
    let (code, refused) = start("accuracy", &seen("accuracy", none(), false));
    assert!(code == 409 && !refused.ok && refused.message.contains("harness"), "{}", refused.message);
}

#[test]
fn only_a_request_that_ran_out_its_client_timeout_counts_as_abandoned() {
    let timeout = 120_000;
    // ran out the clock: exactly at, just past, and inside the 1s tolerance below it
    for ms in [120_000, 120_300, 119_900, 119_200, 119_000] {
        assert!(timed_out(ms, timeout), "{ms}ms of a 120s timeout is the client giving up");
    }
    // came back early with no status: a connection error, not an abandoned request
    for ms in [2, 50, 3_000, 5_000, 60_000, 118_900] {
        assert!(!timed_out(ms, timeout), "{ms}ms of a 120s timeout is an early error, not an abandoned request");
    }
    // the tolerance is one second, not a fraction of the timeout: a short step still works
    assert!(timed_out(9_500, 10_000));
    assert!(!timed_out(10, 10_000));
}

#[test]
fn a_connection_dropped_just_before_the_timeout_is_not_an_abandoned_request() {
    // the far end closes 0.5 s before a 2 s timeout: inside the tolerance, not a timeout
    let gave_up = client_timed_out(&vec![Cause::Other, Cause::Other]);
    assert!(timed_out(1_500, 2_000) && !gave_up && !abandoned(0, gave_up, 1_500, 2_000));
    // the far end never answers: the client's own deadline fires, the request is abandoned
    let gave_up = client_timed_out(&vec![Cause::Other, Cause::TimedOut]);
    assert!(gave_up && abandoned(0, gave_up, 1_000, 1_000));
    // nothing listening: refused at once
    assert!(!client_timed_out(&vec![]) && !abandoned(0, false, 1, 2_000));
    // a real HTTP status is never abandoned, however long it took
    assert!(!abandoned(504, true, 2_000, 2_000));
    let rs = vec![
        Returned { code: 0, gave_up: true, elapsed_ms: 2_000 },
        Returned { code: 0, gave_up: false, elapsed_ms: 2_000 },
        Returned { code: 200, gave_up: true, elapsed_ms: 2_000 },
    ];
    assert_eq!(count_abandoned(&rs, 2_000), 1);
}

#[test]
fn a_request_abandoned_client_side_stays_the_benchs_until_the_engine_finishes_it() {
    let poll = 40;
    let t0 = 1_000;
    let mut own = OwnLoad::new(t0);
    // one sanity request in flight: the engine shows it, it is ours
    own.start(1);
    assert_eq!(own.count(t0, Some(1)), 1);
    // it times out CLIENT-side: the call returns status 0, but the engine is still running it
    own.finish(t0, poll, 1);
    let later = t0 + poll * 10; // well past the one-poll grace
    let n = own.count(later, Some(1));
    assert_eq!(n, 1, "the abandoned request is still the bench's");
    // the engine finishes it: the attribution clears
    assert_eq!(own.count(later, Some(0)), 0);
    // teeth: a real stranger arriving after that IS caught
    assert_eq!(own.count(later + poll, Some(1)), 0);
    // and an abandoned request never hides more than itself: one abandoned, two running = one stranger
    let mut own = OwnLoad::new(t0);
    own.start(1);
    own.finish(t0, poll, 1);
    assert_eq!(own.count(later, Some(2)), 1);
    // a response that races the next look is not a stranger's
    let mut own = OwnLoad::new(t0);
    own.start(3);
    own.finish(t0, poll, 0);
    assert_eq!((own.count(t0 + 39, Some(1)), own.count(t0 + 40, Some(1))), (1, 0));
    // for one poll and no longer
    assert_eq!(own.count(t0 + 60, None), 0);
    // an engine that does not say what it runs clears nothing
    let mut own = OwnLoad::new(t0);
    own.finish(t0, 0, 2);
    assert_eq!(own.count(later, None), 2);
}

#[test]
fn over_an_ssh_launcher_a_failed_ssh_is_never_read_as_a_missing_harness() {
    let launcher = strings(&["ssh", "box"]);
    assert_eq!(
        look_argv(&launcher, "'/h/x.py'"),
        strings(&["ssh", "box", "test", "-f", "'/h/x.py'", "&&", "echo", "lss-harness-found", "||", "echo", "lss-harness-missing"])
    );
    let out = |stdout: &str, stderr: &str, success: bool| Ok(CmdOutput { stdout: stdout.into(), stderr: stderr.into(), success });
    assert_eq!(run_harness_path(&launcher, "~/x.py", &out("lss-harness-found\n", "", true)), Ok("~/x.py".into()));
    let missing = run_harness_path(&launcher, "~/x.py", &out("lss-harness-missing\n", "", true)).unwrap_err();
    assert!(missing.contains("is not at ~/x.py on the remote side"), "{missing}");
    let failed = run_harness_path(&launcher, "~/x.py", &out("", "banner\nssh: connect: refused\n", false)).unwrap_err();
    assert_eq!(failed, "could not check the benchmark harness over the ssh launcher (ssh box): ssh: connect: refused");
    let silent = run_harness_path(&launcher, "~/x.py", &out("", "", false)).unwrap_err();
    assert!(silent.ends_with(": no answer"), "{silent}");
    let stuck = run_harness_path(&launcher, "~/x.py", &Err("ssh: timed out after 20s".into())).unwrap_err();
    assert_eq!(stuck, "could not check the benchmark harness over the ssh launcher: ssh: timed out after 20s");
    assert_eq!(last_line_or("", "nothing"), "nothing");
}

#[test]
fn over_an_ssh_launcher_two_collectors_as_one_remote_user_do_not_share_a_run_dir() {
    let a = run_token(Some([0, 1, 2, 0xab, 0xff, 5, 6, 7]), 0, 0, 0);
    assert_eq!(a, "000102abff050607");
    let b = run_token(Some([0, 1, 2, 0xab, 0xff, 5, 6, 8]), 0, 0, 0);
    assert_ne!(a, b);
    // without random bytes: the clock, the process and a counter
    assert_eq!(run_token(None, 0x1234, 0xabcd, 1), "0000abcd00001235");
    assert_eq!(run_dir(1, Profile::Quick, "model/a b"), "1-quick-model_a_b");
}

#[test]
fn a_keyed_engine_that_refuses_the_harness_fails_the_run_though_the_harness_exits_0() {
    let refused = |has_key| match harness_end(StepEnd::Done, None, false, Some("401 Unauthorized".into()), has_key) {
        StepEnd::Failed(m) => m,
        _ => panic!("failed"),
    };
    assert_eq!(refused(true), "the engine refused the harness (401 Unauthorized) - the [[engine]] api_key was refused: check it");
    assert_eq!(refused(false), "the engine refused the harness (401 Unauthorized) - this engine wants an API key: set api_key in its [[engine]] block (lss-collector setup)");
    assert!(matches!(harness_end(StepEnd::Done, None, true, Some("401".into()), true), StepEnd::Done));
    assert!(matches!(harness_end(StepEnd::Timeout, None, false, Some("401".into()), true), StepEnd::Timeout));
    match harness_end(StepEnd::Done, Some(Err("not copied".into())), false, None, true) {
        StepEnd::Failed(m) => assert_eq!(m, "not copied"),
        _ => panic!("failed"),
    }
}

#[test]
fn a_missing_or_wrong_key_is_stopped_by_the_preflight_before_the_harness_starts() {
    assert!(matches!(preflight(Some(401), Some("the key was refused".into())), Preflight::Refused(_)));
    // an engine that guards only inference: the page is open, the chat is asked too
    assert!(matches!(preflight(Some(200), None), Preflight::AskChat));
    // anything else is not a matter of the key
    assert!(matches!(preflight(Some(500), None), Preflight::Pass));
    assert!(matches!(preflight(None, None), Preflight::Pass));
    let r = Runner::new(Ok(()), "/r", 2);
    assert!(r.asks_first(&vec![false, true]));
}

#[test]
fn a_quick_run_wraps_the_harness_and_normalises_the_scorecard() {
    let (code, started) = start("quick", &ready("quick"));
    assert_eq!((code, started.ok, started.run_id), (202, true, Some(1)), "{}", started.message);
    let mut s = BenchState::new();
    s.answered(&started, Profile::Quick, 1_000, 3);
    assert!(s.active, "the bench window is open from the first moment");
    assert_eq!(run_dir(1, Profile::Quick, "model-a"), "1-quick-model-a");
    assert_eq!(note_of("test run"), "test run");
    let target = target_of(true, "http://127.0.0.1:30000", "http://127.0.0.1:30000", None);
    assert!(target.contains("engine direct"), "{target}");
    // three sanity checks, and each of them is the bench's own
    let mut q = Asking::new(Questions::Sanity, 3);
    let mut graded = 0;
    while q.next().is_some() {
        s.own_requests.push(1_000 + graded);
        assert_eq!(q.hear(Ok(200)), Heard::Counts);
        graded += 1;
    }
    assert_eq!(graded, 3);
    let (status, aborted) = run_verdict(StepEnd::Done, Profile::Quick, &measured());
    assert_eq!((status.as_str(), aborted), ("ok", None));
    // afterwards: idle, remembered, and the bench's own requests are known
    assert!(s.end(Profile::Quick, true), "a quick run is a benchmark result");
    assert_eq!((s.active, s.state.as_str(), s.own_requests.len()), (false, "idle", 3));
    assert_eq!(s.generation, 2, "bumped at the start and at the end");
}

#[test]
fn under_load_measures_with_the_traffic_on_the_box_and_records_what_it_was() {
    // a plain run is still refused, and the refusal names the way through it
    let mut busy = ready("quick");
    busy.server = Some(IdleSeen { idle: Err("the server is busy (2 running, 0 queued): --under-load measures with it".into()), ..idle() });
    let (code, no) = start("quick", &busy);
    assert_eq!((code, no.ok), (409, false));
    assert!(no.message.contains("--under-load"), "{}", no.message);
    // --force starts it, and somebody else's request kills it all the same
    let theirs = || Some("real traffic: 2 request(s) are not the bench (gateway user table)".to_string());
    assert!(ask("quick", true).forced());
    let end = must_stop(false, theirs()).expect("stopped");
    let (status, aborted) = run_verdict(end, Profile::Quick, &measured());
    assert_eq!(status, "aborted");
    assert!(aborted.as_deref().unwrap().contains("not the bench"), "{aborted:?}");
    // --under-load runs to the end with the same traffic on the box
    let loaded = BenchRequest { under_load: true, ..ask("quick", false) };
    assert!(loaded.forced(), "the server need not be idle");
    let (code, started) = answer(request_start(&loaded, &datasets(), &ready("quick")));
    assert_eq!((code, started.ok, started.under_load), (202, true, true), "{}", started.message);
    assert!(must_stop(true, theirs()).is_none(), "traffic arriving mid-run must not kill it");
    assert_eq!(run_verdict(StepEnd::Done, Profile::Quick, &measured()).0, "ok");
    // the refusal echoes what was understood
    let mut down = ready("quick");
    down.server = Some(IdleSeen { idle: Err("the serve is not up".into()), serve_up: false, ..idle() });
    let (code, no) = answer(request_start(&loaded, &datasets(), &down));
    assert_eq!((code, no.ok, no.under_load), (409, false, true), "{}", no.message);
    // cancelling still works under load
    let (_, aborted) = run_verdict(stop_at_once(true, false).unwrap(), Profile::Quick, &measured());
    assert_eq!(aborted.as_deref(), Some("cancelled by the operator"));
}

#[test]
fn real_traffic_aborts_the_run_and_kills_the_harness() {
    // a request shows up in the public lane while the harness runs: it is stopped at the next look
    let why = "real traffic: 1 request(s) came in through the gateway";
    let stop = must_stop(false, Some(why.into()));
    let end = run_harness(&HarnessSeen::Running, stop, "/r").expect("stopped, not waited for");
    let (status, aborted) = run_verdict(end, Profile::Quick, &measured());
    assert_eq!(status, "aborted");
    assert!(aborted.as_deref().unwrap().starts_with("aborted: real traffic: 1 request(s) came in through the gateway"), "{aborted:?}");
    // its own lss-bench traffic is not a reason to stop; a user that is not lss-bench is
    let user = |user: &str, inflight| GateUser { lane: "trusted".into(), user: user.into(), inflight, first_seen: 0 };
    assert_eq!(other_users_inflight(&vec![user("lss-bench", 8)], "lss-bench"), 0);
    assert_eq!(other_users_inflight(&vec![user("lss-bench", 8), user("acme", 1)], "lss-bench"), 1);
    // cancelled
    let mut s = BenchState::new();
    assert!(!s.request_cancel().1.ok, "nothing to cancel");
    s.answered(&start("quick", &ready("quick")).1, Profile::Quick, 100, 3);
    assert!(s.request_cancel().1.ok);
    let (_, aborted) = run_verdict(stop_at_once(s.cancel, false).unwrap(), Profile::Quick, &measured());
    assert_eq!(aborted.as_deref(), Some("cancelled by the operator"));
}

#[test]
fn an_engine_that_guards_only_inference_is_caught_by_the_preflight_chat() {
    // the list of models is open, only the chat wants the key
    assert!(matches!(preflight(Some(200), None), Preflight::AskChat));
    let refused = "HTTP 401 on /v1/chat/completions - this engine wants an API key and none is configured";
    match preflight(Some(401), Some(refused.into())) {
        Preflight::Refused(m) => assert_eq!(m, refused),
        _ => panic!("the chat is refused"),
    }
}

#[test]
fn over_an_ssh_launcher_the_results_come_back_to_the_run_directory() {
    for file in ["decode.json", "prefill.json"] {
        assert_eq!(fetch_remote(file, "/r/1-quick-model-a", &Copied::Done), (Ok(()), false), "copied, and the far side is left clean");
    }
    assert!(matches!(harness_end(StepEnd::Done, Some(Ok(())), false, None, false), StepEnd::Done));
    assert_eq!(run_verdict(StepEnd::Done, Profile::Quick, &measured()), ("ok".into(), None));
}

#[test]
fn over_an_ssh_launcher_a_tilde_harness_path_is_the_remote_users_home() {
    let launcher = strings(&["ssh", "gpu-box"]);
    let said = |text: &str| Ok(CmdOutput { stdout: text.into(), stderr: String::new(), success: true });
    // the path goes over as it is written: the far side's shell reads the tilde
    assert_eq!(run_harness_path(&launcher, "~/fake_harness.sh", &said("lss-harness-found\n")), Ok("~/fake_harness.sh".into()));
    // and one that is not there on the far side is a clear refusal
    let missing = run_harness_path(&launcher, "~/no-such-harness.py", &said("lss-harness-missing\n"));
    let (code, started) = start("quick", &seen("quick", missing, true));
    assert_ne!(code, 202, "{}", started.message);
    assert!(started.message.contains("~/no-such-harness.py") && started.message.contains("remote"), "{}", started.message);
}

#[test]
fn real_traffic_stops_a_step_unless_the_run_measures_with_it() {
    match must_stop(false, Some("2 requests are not the bench's".into())) {
        Some(StepEnd::Aborted(m)) => assert_eq!(m, "aborted: 2 requests are not the bench's"),
        _ => panic!("aborted"),
    }
    assert!(must_stop(true, Some("x".into())).is_none());
    assert!(must_stop(false, None).is_none());
    match stop_at_once(true, true) {
        Some(StepEnd::Aborted(m)) => assert_eq!(m, "cancelled by the operator"),
        _ => panic!("aborted"),
    }
    assert!(stop_at_once(false, false).is_none());
    assert!(settle(true, false, false) && settle(false, true, false) && settle(false, false, true) && !settle(false, false, false));
    assert_eq!((settle_ms(1_000), settle_ms(5_000)), (30_000, 60_000));
    let user = |lane: &str, user: &str, inflight| GateUser { lane: lane.into(), user: user.into(), inflight, first_seen: 0 };
    let users = vec![user("trusted", "lss-bench", 4), user("public", "lss-bench", 1), user("trusted", "10.0.0.7", 2)];
    assert_eq!(other_users_inflight(&users, "lss-bench"), 3);
}

#[test]
fn the_shared_state_follows_a_run() {
    let mut s = BenchState::new();
    assert_eq!((s.active, s.state.as_str()), (false, "idle"));
    let (code, no) = s.request_cancel();
    assert_eq!((code, no.ok, no.message.as_str()), (409, false, "no benchmark is running"));
    s.begin(Profile::Quick, 100, 3);
    assert_eq!((s.active, s.generation, s.profile.as_deref(), s.steps), (true, 1, Some("quick"), 3));
    s.at_step(0, "warm-up".into());
    assert_eq!((s.step.as_deref(), s.step_index), (Some("warm-up"), 1));
    s.own_requests = vec![10, 20, 30];
    s.forget_requests(20);
    assert_eq!(s.own_requests, vec![20, 30]);
    let (code, yes) = s.request_cancel();
    assert!(code == 202 && yes.ok && s.cancel);
    assert!(s.end(Profile::Quick, true));
    assert_eq!((s.active, s.cancel, s.generation, s.profile.is_none()), (false, false, 2, true));
}

#[test]
fn a_refused_request_leaves_the_state_as_it_was() {
    let answer = |ok| BenchStarted { ok, message: String::new(), run_id: None, under_load: false };
    let mut s = BenchState::default();
    s.answered(&answer(false), Profile::Quick, 100, 3);
    assert_eq!((s.active, s.generation, s.state.as_str(), s.started_at), (false, 0, "idle", None));
    s.answered(&answer(true), Profile::Quick, 100, 3);
    assert_eq!((s.active, s.generation, s.state.as_str(), s.started_at), (true, 1, "running", Some(100)));
}

#[test]
fn questions_are_put_one_after_the_other() {
    // every answer is graded
    let mut q = Asking::new(Questions::Sanity, 2);
    assert_eq!(q.next(), Some((0, false)));
    assert_eq!(q.hear(Ok(500)), Heard::Counts);
    assert_eq!(q.next(), Some((1, false)));
    assert_eq!(q.hear(Ok(200)), Heard::Counts);
    assert_eq!(q.next(), None);
    // only a text that came is looked through
    let mut q = Asking::new(Questions::Garble, 2);
    assert_eq!((q.hear(Ok(429)), q.hear(Ok(200)), q.next()), (Heard::Left, Heard::Counts, None));
    // what the gateway refuses is asked of the engine, once
    let mut q = Asking::new(Questions::Needle, 2);
    assert_eq!(q.hear(Ok(413)), Heard::AskAgain);
    assert_eq!(q.next(), Some((0, true)));
    assert_eq!(q.hear(Ok(413)), Heard::Counts);
    assert_eq!(q.next(), Some((1, false)));
    assert_eq!(q.hear(Ok(500)), Heard::Counts);
    assert_eq!(q.next(), None);
    // a step that is stopped asks nothing more
    let mut q = Asking::new(Questions::Needle, 2);
    assert_eq!((q.hear(Err(StepEnd::Timeout)), q.next()), (Heard::Stopped, None));
    assert!(matches!(q.stop, Some(StepEnd::Timeout)));
    assert_eq!(direct_note(true), " (the gateway refused a prompt this large; sent straight to the engine)");
    assert_eq!(direct_note(false), "");
    // the engine settles after a harness that was done and sent it something
    assert!(settles_after(&StepEnd::Done, false) && !settles_after(&StepEnd::Done, true) && !settles_after(&StepEnd::Timeout, false));
    assert!(stop_of(StepEnd::Done).is_none() && matches!(stop_of(StepEnd::Timeout), Some(StepEnd::Timeout)));
}

#[test]
fn a_run_goes_from_step_to_step_until_one_is_not_done() {
    let mut r = Runner::new(Ok(()), "/r", 2);
    assert_eq!(r.next(), Some(0));
    r.stepped(None);
    assert_eq!(r.next(), Some(1));
    r.stepped(None);
    assert_eq!(r.next(), None);
    let mut r = Runner::new(Ok(()), "/r", 2);
    assert_eq!(r.next(), Some(0));
    r.stepped(Some(StepEnd::Timeout));
    assert_eq!(r.next(), None);
    let mut r = Runner::new(Err("denied".into()), "/r", 2);
    assert!(!r.asks_first(&vec![true]));
    assert_eq!(r.next(), None);
    match r.end {
        StepEnd::Failed(m) => assert_eq!(m, "cannot create /r: denied"),
        _ => panic!("failed"),
    }
}

#[test]
fn requests_in_flight_are_waited_for_or_the_step_is_stopped() {
    let mut f = Flight::new(2);
    assert!(matches!(f.see(FlightEvent::Tick(None)), FlightStep::Wait));
    assert!(matches!(f.see(FlightEvent::Back(Returned { code: 0, gave_up: true, elapsed_ms: 600_000 })), FlightStep::Wait));
    assert!(matches!(f.see(FlightEvent::Tick(Some(StepEnd::Timeout))), FlightStep::Stopped(StepEnd::Timeout)));
    assert_eq!((f.left_running(true, 600_000), f.left_running(false, 600_000)), (0, 1));
    assert!(matches!(f.see(FlightEvent::Gone), FlightStep::Over));
    assert_eq!(reply_of(Answer::Served(503, "busy".into())), (503, "busy".into(), false));
    assert_eq!(reply_of(Answer::Broken("no \"route\"".into(), true)), (0, "{\"error\":\"no \\\"route\\\"\"}".into(), true));
}

#[test]
fn the_harness_ends_by_itself_or_is_stopped() {
    let text = |e: Option<StepEnd>| match e {
        Some(StepEnd::Failed(m)) => m,
        _ => panic!("failed"),
    };
    assert!(run_harness(&HarnessSeen::Running, None, "/r").is_none());
    assert!(matches!(run_harness(&HarnessSeen::Running, Some(StepEnd::Timeout), "/r"), Some(StepEnd::Timeout)));
    assert!(matches!(run_harness(&HarnessSeen::Succeeded, Some(StepEnd::Timeout), "/r"), Some(StepEnd::Done)));
    assert_eq!(text(run_harness(&HarnessSeen::Exited("exit status: 2".into()), None, "/r")), "the harness exited with exit status: 2: see harness.log in /r");
    assert_eq!(text(run_harness(&HarnessSeen::Lost("no child".into()), None, "/r")), "waiting for the harness: no child");
    assert_eq!(text(Some(harness_not_started("/r", &NoStart::Log("denied".into())))), "cannot write /r/harness.log: denied");
    assert_eq!(text(Some(harness_not_started("/r", &NoStart::LogTwice("denied".into())))), "harness.log: denied");
}

#[test]
fn a_result_that_is_not_copied_back_says_why() {
    let why = |c: &Copied| fetch_remote("decode.json", "/r", c);
    assert_eq!(why(&Copied::Done), (Ok(()), false));
    let text = |inner: &str| Err(format!("the harness ran over the ssh launcher, but its result decode.json could not be copied back: {inner} (see harness.log in /r)"));
    assert_eq!(why(&Copied::NoFile("/r/decode.json.part".into(), "denied".into())), (text("/r/decode.json.part: denied"), false));
    assert_eq!(why(&Copied::NoProgram("ssh".into(), "not found".into())), (text("cannot start `ssh`: not found"), false));
    assert_eq!(why(&Copied::Late), (text("the copy did not finish in 5 minutes"), true));
    assert_eq!(why(&Copied::Exited("exit status: 1".into())), (text("`cat` on the far side exited with exit status: 1"), true));
    assert_eq!(why(&Copied::Broken("gone".into())), (text("gone"), false));
}

#[test]
fn the_oldest_raw_directories_go_first() {
    let names = strings(&["3-quick-m", "10-full-m", "notes", "1-quick-m", "2-quick-m"]);
    let mut gone = prune_raw(&names, 2);
    gone.sort();
    assert_eq!(gone, vec![3, 4]);
    // at least one stays
    let mut gone = prune_raw(&names, 0);
    gone.sort();
    assert_eq!(gone, vec![0, 3, 4]);
    assert_eq!(prune_raw(&names, 9), Vec::<usize>::new());
}

#[test]
fn a_note_is_one_short_line() {
    assert_eq!(note_of("a\nb\u{7}c"), "abc");
    assert_eq!(note_of(&"x".repeat(500)).len(), 200);
}

#[test]
fn cells_of_one_matrix_are_joined_in_order() {
    assert_eq!(join_cells(&vec![(0, 4), (0, 1), (65_536, 1), (0, 4)]), vec![1, 0, 2]);
    assert_eq!(join_cells(&vec![]), Vec::<usize>::new());
}

#[test]
fn two_accuracy_results_are_compared_by_the_harness() {
    assert_eq!(
        compare_argv("/h.py", "/r/a.json", "/r/b.json", "/r/out.json"),
        strings(&["/h.py", "--compare-baseline", "/r/b.json", "--compare-candidate", "/r/a.json", "--display-mode", "plain", "--output", "/r/out.json"])
    );
    assert_eq!(compare_refusal(&Err("no harness".into()), "/r", true, true), Some((409, "{\"message\":\"no harness\",\"ok\":false,\"v\":1}\n".into())));
    assert_eq!(compare_refusal(&Ok("/h.py".into()), "/r", true, false), Some((400, "{\"message\":\"both files must be accuracy results under /r\",\"ok\":false,\"v\":1}\n".into())));
    assert_eq!(compare_refusal(&Ok("/h.py".into()), "/r", true, true), None);
    let out = |success| Ok(CmdOutput { stdout: "A is \"better\"\n".into(), stderr: "a\nbad file\n".into(), success });
    assert_eq!(
        compare_accuracy(&out(true), Some("{\"comparison\": {\"delta\": 0.5, \"b\": [1, 2]}}")),
        (200, "{\"comparison\":{\"b\":[1,2],\"delta\":0.5},\"ok\":true,\"text\":\"A is \\\"better\\\"\\n\",\"v\":1}\n".into())
    );
    assert!(compare_accuracy(&out(true), None).1.starts_with("{\"comparison\":null,"));
    assert_eq!(compare_accuracy(&out(false), None), (502, "{\"message\":\"the harness could not compare the two files: bad file\",\"ok\":false,\"v\":1}\n".into()));
    assert_eq!(compare_accuracy(&Err("timed out".into()), None).0, 502);
}
