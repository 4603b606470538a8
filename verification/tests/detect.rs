use lss_collector::collect::Fetched;
use lss_collector::detect::{
    candidate_ports, fetcher, is_known_model, known_models, own_ports, pinned, port_band, rank,
    report, report_pinned, resolve, split_ports, waiting_bound, waiting_message, waiting_reply, EngineKind,
    Found, ResolveStep, WaitingBound, MAX_PORTS,
};

#[test]
fn the_port_band_is_empty_not_a_panic_when_the_ephemeral_range_starts_low() {
    assert_eq!(port_band(1024), None);
    assert_eq!(port_band(1), None);
    assert_eq!(port_band(0), None);
    assert_eq!(port_band(1025), Some((1024, 1025)), "one port is still a band");
    assert_eq!(port_band(5000), Some((1024, 5000)));
    assert_eq!(port_band(32768), Some((20_000, 30_000)), "Linux's default range");
    assert_eq!(port_band(49152), Some((20_000, 30_000)), "macOS / IANA default");
}

#[test]
fn a_gateway_in_front_of_a_known_engine_is_not_a_second_server() {
    let f = |kind, port: u16, model: &str| Found { kind, url: format!("http://127.0.0.1:{port}"), model: Some(model.into()) };
    let found = vec![f(EngineKind::OpenAi, 8096, "glm"), f(EngineKind::Sglang, 8090, "glm"), f(EngineKind::OpenAi, 1234, "other-model"), f(EngineKind::Ollama, 11434, "mistral:latest")];
    let ranked = rank(&found);
    assert_eq!(
        ranked.iter().map(|i| (found[*i].kind, found[*i].url.as_str())).collect::<Vec<_>>(),
        vec![(EngineKind::Ollama, "http://127.0.0.1:11434"), (EngineKind::Sglang, "http://127.0.0.1:8090"), (EngineKind::OpenAi, "http://127.0.0.1:1234")]
    );
    // an engine with nothing loaded (an idle Ollama) never outranks the one that is serving
    let mut idle = f(EngineKind::Ollama, 11435, "x");
    idle.model = None;
    let found = vec![idle, f(EngineKind::Sglang, 8090, "glm")];
    assert_eq!(found[rank(&found)[0]].kind, EngineKind::Sglang);
    // with nothing loaded on either, the plain answer is taken for the engine's own
    let none = |kind, url: &str| Found { kind, url: url.into(), model: None };
    assert_eq!(rank(&vec![none(EngineKind::OpenAi, "a"), none(EngineKind::Ollama, "b")]), vec![1]);
    // what is ranked stays as it is
    let ranked = vec![f(EngineKind::Sglang, 8090, "glm"), f(EngineKind::OpenAi, 1234, "other-model")];
    assert_eq!(rank(&ranked), vec![0, 1]);
}

#[test]
fn a_pinned_engine_is_never_scanned_for_and_our_own_port_is_never_knocked_on() {
    let url = |u: &str| u.to_string();
    assert_eq!(pinned(&Some((Some("ollama".into()), url("http://127.0.0.1:11434")))), Some((url("http://127.0.0.1:11434"), "ollama".into())));
    assert_eq!(pinned(&Some((None, url("http://127.0.0.1:9")))), Some((url("http://127.0.0.1:9"), "auto".into())), "a URL without a kind: recognised when it answers");
    assert_eq!(pinned(&None), None);
    let listen = vec!["127.0.0.1:8099".to_string(), "192.0.2.7:8100".to_string()];
    assert_eq!(own_ports(&listen), vec![8099, 8100]);
    assert!(!candidate_ports(&vec![8090, 8099], &vec![], &vec![], &vec![8099]).contains(&8099));
    let ports = candidate_ports(&vec![8090, 8099], &vec![8099, 22, 8090, 40000], &vec![9000, 8090], &vec![8099]);
    assert_eq!(ports, vec![8090, 9000, 40000]);
    // nothing is known to listen: the usual ports are all worth asking
    assert_eq!(candidate_ports(&vec![1, 2], &vec![], &vec![], &vec![2]), vec![1]);
    let many: Vec<u16> = (2000..2100).collect();
    assert_eq!(candidate_ports(&vec![], &many, &vec![], &vec![]).len(), MAX_PORTS);
}

fn engine(port: u16, model: &str) -> Found {
    Found { kind: EngineKind::Sglang, url: format!("http://127.0.0.1:{port}"), model: Some(model.into()) }
}

#[test]
fn a_secondary_port_serving_a_known_model_is_asked_nothing_beyond_the_one_cheap_question() {
    let found = vec![engine(8090, "glm-test")];
    assert_eq!(split_ports(&vec![5000, 8090], &vec![8090]), (vec![8090], vec![5000]));
    assert!(is_known_model(&Some("glm-test".into()), &known_models(&found)), "the proxy is asked nothing more");
    // and would be dropped, had it been asked
    let proxy = Found { kind: EngineKind::OpenAi, ..engine(5000, "glm-test") };
    assert_eq!(rank(&vec![engine(8090, "glm-test"), proxy]), vec![0]);
}

#[test]
fn a_secondary_port_serving_an_unmatched_model_still_gets_the_full_detection() {
    let found = vec![engine(8090, "glm-test")];
    assert!(!is_known_model(&Some("a-different-model".into()), &known_models(&found)));
    let mut both = rank(&vec![engine(8090, "glm-test"), engine(5000, "a-different-model")]);
    both.sort();
    assert_eq!(both, vec![0, 1]);
}

#[test]
fn while_waiting_for_an_engine_the_listen_address_says_so_and_is_released_after() {
    let reply = waiting_reply(&waiting_message(&[8000, 11434]));
    assert!(reply.starts_with("HTTP/1.1 503"), "{reply}");
    assert!(reply.contains("X-LSS-Waiting: engine"), "{reply}");
    assert!(reply.contains("has not found an LLM server") && reply.contains("[8000, 11434]"), "{reply}");
    // one is found: the address is given back before anything else is done
    assert_eq!(resolve(1, true), ResolveStep::Found { release: true });
    assert_eq!(resolve(1, false), ResolveStep::Found { release: false });
}

#[test]
fn an_address_the_waiter_cannot_take_is_reported_not_silently_skipped() {
    // asked for two, and one of them is somebody else's
    assert_eq!(waiting_bound(1, 2), WaitingBound::Partly);
    // asked for the taken one alone
    assert_eq!(waiting_bound(0, 1), WaitingBound::Nowhere);
    assert_eq!(waiting_bound(1, 1), WaitingBound::Everywhere);
}

#[test]
fn a_secondary_port_with_a_known_model_is_a_proxy() {
    let f = |kind, model: Option<&str>| Found { kind, url: "u".into(), model: model.map(String::from) };
    let known = known_models(&vec![f(EngineKind::Sglang, Some("glm")), f(EngineKind::OpenAi, Some("proxy")), f(EngineKind::Ollama, None)]);
    assert_eq!(known, vec!["glm".to_string()]);
    assert!(is_known_model(&Some("glm".into()), &known));
    assert!(!is_known_model(&Some("proxy".into()), &known));
    assert!(!is_known_model(&None, &known));
    assert_eq!(split_ports(&vec![8090, 5000, 11434], &vec![11434, 8090]), (vec![8090, 11434], vec![5000]));
}

#[test]
fn while_nothing_is_found_the_answer_says_so() {
    let m = waiting_message(&[8090, 11434]);
    assert_eq!(
        m,
        "lss-collector is running but has not found an LLM server on this machine yet (asked ports [8090, 11434]). Start your model server - the collector finds it by itself within 15 s - or pin it with [[engine]] in collector.toml (lss-collector --detect shows what it sees)."
    );
    assert_eq!(
        waiting_reply("h\u{e9}"),
        "HTTP/1.1 503 Service Unavailable\r\nContent-Type: text/plain; charset=utf-8\r\nX-LSS-Waiting: engine\r\nRetry-After: 15\r\nContent-Length: 3\r\nConnection: close\r\n\r\nh\u{e9}"
    );
    assert_eq!(waiting_bound(0, 2), WaitingBound::Nowhere);
    assert_eq!(waiting_bound(1, 2), WaitingBound::Partly);
    assert_eq!(waiting_bound(2, 2), WaitingBound::Everywhere);
    assert_eq!(resolve(0, false), ResolveStep::LookAgain { start: true });
    assert_eq!(resolve(0, true), ResolveStep::LookAgain { start: false });
    assert_eq!(resolve(1, true), ResolveStep::Found { release: true });
}

#[test]
fn the_report_says_which_server_is_watched() {
    assert_eq!(report("none\n", 0), ("none\n".into(), 1));
    assert_eq!(report("one\n", 1), ("one\n".into(), 0));
    let (text, code) = report("two\n", 2);
    assert!(text.starts_with("two\n\nThis collector watches the FIRST one.") && code == 0);
    assert_eq!(report_pinned("ollama", "http://x", Some("there\n")), ("The config pins the engine: ollama at http://x\nthere\n".into(), 0));
    let (text, code) = report_pinned("ollama", "http://x", None);
    assert!(text.contains("nothing lss recognises answers there") && code == 1);
}

#[test]
fn a_port_that_does_not_answer_says_why() {
    assert_eq!(fetcher(Fetched::Body("{}".into())), Ok("{}".into()));
    assert_eq!(fetcher(Fetched::Unread("not text".into())), Err("read: not text".into()));
    assert_eq!(fetcher(Fetched::Status(404)), Err("HTTP 404".into()));
    let long = "e".repeat(100);
    assert_eq!(fetcher(Fetched::Broken(long)), Err("e".repeat(80)));
}
