use lss_collector::http::{
    bench_not_json, bench_post, dispatch, history_unreadable, is_history, maintenance_not_json,
    maintenance_post, nothing_to_stop, path_of, route, test_alert, BenchPost, Cache, Handler,
    MaintenancePost, Method, Pages, CACHE_MAX, CACHE_TTL_MS, TEST_ALERT_MAX_CHARS,
};

fn pages() -> Pages {
    Pages {
        status: "{\"v\":1}".into(),
        metrics: "llm_serve_up 1\n".into(),
        rules: String::new(),
        loadouts: "L".into(),
        tokens: "T".into(),
        advice: "A".into(),
        bench: "B".into(),
        last_sample_ts: 0,
    }
}

#[test]
fn routes() {
    let now = 1_800_000_000;
    let mut shared = pages();
    assert_eq!(route("/status", &shared, now, "1.0"), (200, "application/json".into(), "{\"v\":1}".into()));
    assert_eq!(route("/metrics?x=1", &shared, now, "1.0").2, "llm_serve_up 1\n");
    assert_eq!(route("/nope", &shared, now, "1.0").0, 404);
    shared.rules = "{\"v\":1,\"rules\":[]}".into();
    assert_eq!(route("/rules", &shared, now, "1.0"), (200, "application/json".into(), "{\"v\":1,\"rules\":[]}".into()));
    assert!(is_history("/series") && is_history("/hist") && is_history("/gateway") && !is_history("/status"));
    assert_eq!(route("/health", &shared, now, "1.0").0, 503, "no sample yet = not healthy");
    shared.last_sample_ts = now;
    let (code, _, body) = route("/health", &shared, now, "1.0");
    assert_eq!(code, 200);
    assert!(body.contains("\"ok\":true"));
    shared.last_sample_ts = now - 120;
    assert_eq!(route("/health", &shared, now, "1.0").0, 503, "stale poll loop = not healthy");
    assert_eq!(route("/health", &shared, now, "1.0").2, "{\"ok\":false,\"last_sample_age_s\":120,\"version\":\"1.0\"}\n");
    for (path, body) in [("/loadouts", "L"), ("/tokens", "T"), ("/advice", "A"), ("/bench", "B")] {
        assert_eq!(route(path, &shared, now, "1.0").2, body);
    }
    assert_eq!(route("/", &shared, now, "1.0").0, 200);
}

#[test]
fn test_alert_is_loopback_only_post_only_and_bounded() {
    let mut pending: Vec<String> = vec![];
    let rule = "test_alert";
    // the tailnet listener never accepts it, whoever asks; nor does a non-local peer
    assert_eq!(test_alert(false, true, true, "x", rule, &mut pending).0, 403);
    assert_eq!(test_alert(false, false, true, "x", rule, &mut pending).0, 403);
    assert_eq!(test_alert(true, false, true, "x", rule, &mut pending).0, 403);
    assert_eq!(test_alert(true, true, false, "x", rule, &mut pending).0, 405);
    assert_eq!(test_alert(true, true, true, "  \n ", rule, &mut pending).0, 400);
    assert!(pending.is_empty(), "nothing refused was queued");

    let (code, _, body) = test_alert(true, true, true, " pipeline\ncheck ", rule, &mut pending);
    assert_eq!(code, 202);
    assert!(body.contains("\"message\":\"[TEST] pipeline check\""), "{body}");
    assert_eq!(body, "{\"message\":\"[TEST] pipeline check\",\"queued\":true,\"rule\":\"test_alert\"}\n");
    assert_eq!(pending, vec!["pipeline check"], "control characters are flattened");
    let long = "y".repeat(1000);
    test_alert(true, true, true, &long, rule, &mut pending);
    assert_eq!(pending[1].chars().count(), TEST_ALERT_MAX_CHARS);
    for _ in 0..3 {
        assert_eq!(test_alert(true, true, true, "fill", rule, &mut pending).0, 202);
    }
    assert_eq!(test_alert(true, true, true, "one too many", rule, &mut pending).0, 429);
    assert_eq!(pending.len(), 5);
}

#[test]
fn maintenance_post_is_loopback_only_and_writes_through_to_shared_state() {
    let refused = |m: MaintenancePost| match m {
        MaintenancePost::Answer((code, body)) => (code, body),
        _ => panic!("refused"),
    };
    assert_eq!(refused(maintenance_post("/maintenance/start", false, true, "{\"reason\":\"x\"}")).0, 403);
    assert_eq!(refused(maintenance_post("/maintenance/start", true, false, "{\"reason\":\"x\"}")).0, 403);
    match maintenance_post("/maintenance/start", true, true, "{\"reason\":\"v5.2 swap\",\"minutes\":15}") {
        MaintenancePost::Start(body) => assert_eq!(body, "{\"reason\":\"v5.2 swap\",\"minutes\":15}"),
        _ => panic!("a start"),
    }
    // an empty body is an empty request
    match maintenance_post("/maintenance/start", true, true, "  ") {
        MaintenancePost::Start(body) => assert_eq!(body, "{}"),
        _ => panic!("a start"),
    }
    assert!(matches!(maintenance_post("/maintenance/stop", true, true, ""), MaintenancePost::Stop));
    // stopping again: not an error, just says so
    let (code, body) = nothing_to_stop();
    assert_eq!(code, 200);
    assert!(body.contains("\"ok\":false"), "{body}");
    assert_eq!(refused(maintenance_post("/maintenance/nope", true, true, "")).0, 404);
    let (code, body) = maintenance_not_json("expected value at line 1");
    assert!(code == 400 && body.contains("is not the JSON") && body.contains("expected value at line 1"), "{body}");
}

#[test]
fn a_benchmark_is_only_asked_for_on_the_box_itself() {
    let code = |b: BenchPost| match b {
        BenchPost::Answer((code, _)) => code,
        _ => panic!("refused"),
    };
    assert_eq!(code(bench_post("/bench", false, true, "{}")), 403);
    assert_eq!(code(bench_post("/bench/cancel", true, false, "")), 403);
    assert_eq!(code(bench_post("/bench/other", true, true, "")), 404);
    match bench_post("/bench", true, true, "") {
        BenchPost::Start(body) => assert_eq!(body, "{}"),
        _ => panic!("a start"),
    }
    assert!(matches!(bench_post("/bench/cancel", true, true, ""), BenchPost::Cancel));
    match bench_post("/bench/compare-accuracy", true, true, "{\"a\": \"/r/a.json\", \"b\": 7}") {
        BenchPost::Compare(a, b) => assert_eq!((a.as_str(), b.as_str()), ("/r/a.json", "")),
        _ => panic!("a comparison"),
    }
    let (status, body) = bench_not_json("expected `,`");
    assert!(status == 400 && body.contains("expected `,`"), "{body}");
}

#[test]
fn each_request_has_one_handler() {
    assert_eq!(dispatch(Method::Get, "/test-alert"), Handler::TestAlert);
    assert_eq!(dispatch(Method::Post, "/bench/cancel"), Handler::Bench);
    assert_eq!(dispatch(Method::Get, "/bench"), Handler::Page);
    assert_eq!(dispatch(Method::Post, "/maintenance/stop"), Handler::Maintenance);
    assert_eq!(dispatch(Method::Head, "/series"), Handler::History);
    assert_eq!(dispatch(Method::Get, "/status"), Handler::Page);
    assert_eq!(dispatch(Method::Post, "/status"), Handler::NotAllowed);
    assert_eq!(dispatch(Method::Other, "/series"), Handler::NotAllowed);
    assert_eq!(path_of("/series?metrics=x"), "/series");
    assert_eq!(path_of("/status"), "/status");
}

#[test]
fn an_answer_is_kept_for_two_seconds() {
    let mut c = Cache::new();
    assert_eq!(c.get("/series?a", 0), None);
    c.put("/series?a", 1_000, &(200, "one".into()));
    assert_eq!(c.get("/series?a", 1_000 + CACHE_TTL_MS - 1), Some((200, "one".into())));
    assert_eq!(c.get("/series?a", 1_000 + CACHE_TTL_MS), None);
    assert_eq!(c.get("/series?b", 1_000), None);
    c.put("/series?a", 4_000, &(200, "two".into()));
    assert_eq!(c.get("/series?a", 4_001), Some((200, "two".into())));
    // a full cache starts again
    for k in 0..CACHE_MAX {
        c.put(&format!("/series?{k}"), 5_000, &(200, "x".into()));
    }
    assert!(c.entries.len() <= CACHE_MAX);
    assert_eq!(c.get("/series?a", 5_000), None);
}

#[test]
fn a_database_that_cannot_be_read_says_so() {
    assert_eq!(history_unreadable("no \"file\""), (503, "{\"v\":1,\"error\":\"database not readable: no 'file'\"}\n".into()));
}

#[test]
fn every_control_character_is_escaped_in_a_message() {
    let (_, body) = bench_not_json("\"\\/\u{0}\u{7}\u{8}\t\n\u{b}\u{c}\r\u{1f} \u{7f}é\u{2028}");
    let said = "the request body is not the JSON `lss bench` sends: \\\"\\\\/\\u0000\\u0007\\b\\t\\n\\u000b\\f\\r\\u001f \u{7f}é\u{2028}";
    assert_eq!(body, format!("{{\"message\":\"{said}\",\"ok\":false,\"v\":1}}\n"));
}

#[test]
fn two_names_are_read_back_as_they_were_written() {
    match bench_post("/bench/compare-accuracy", true, true, "{\"a\":\"/x\\n\\u001f\\\"\",\"b\":\"\\\\é\"}\n") {
        BenchPost::Compare(a, b) => assert_eq!((a.as_str(), b.as_str()), ("/x\n\u{1f}\"", "\\é")),
        _ => panic!("not compared"),
    }
    // of two members of one name the last counts; what is no text is none
    match bench_post("/bench/compare-accuracy", true, true, "{\"a\":\"1\",\"a\":\"2\",\"b\":7}") {
        BenchPost::Compare(a, b) => assert_eq!((a.as_str(), b.as_str()), ("2", "")),
        _ => panic!("not compared"),
    }
}
