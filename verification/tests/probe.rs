use lss_collector::probe_run::{
    after_look, gate_admitted, load_after, probe_body, read_stream, run_probe, run_validated_probe,
    settled_load, turn, ProbeDecision, ProbeRecord, ProbeTurn, Sent, SseEvent, StreamRead, Timed,
    Verdict,
};

const NOTE: &str = "unverified";

fn stream(events: Vec<SseEvent<f64>>) -> StreamRead<f64> {
    read_stream(&events)
}

fn answered(burst: Option<&str>) -> ProbeRecord<f64> {
    let read = stream(vec![SseEvent::Token(0.1), SseEvent::Token(0.2), SseEvent::Usage(128), SseEvent::Done]);
    run_probe(1_000, Sent::Answered(200, read, Some(Timed { ttft_ms: 90.0, decode_tok_s: 190.0, tokens: 128, burst: burst.map(String::from) })))
}

#[test]
fn the_probe_is_tagged_on_the_wire_and_records_the_http_status() {
    assert_eq!(
        probe_body("model \"a\"", "count", 128, "lss-probe"),
        "{\"max_tokens\":128,\"messages\":[{\"content\":\"count\",\"role\":\"user\"}],\"model\":\"model \\\"a\\\"\",\"stream\":true,\"stream_options\":{\"include_usage\":true},\"temperature\":0,\"user\":\"lss-probe\"}"
    );
    let p: ProbeRecord<f64> = run_probe(1_000, Sent::Refused(429));
    assert_eq!((p.status.as_str(), p.http_status, p.detail.as_str(), p.valid), ("error", Some(429), "HTTP 429", false));
    assert_eq!(p.invalid_reason.as_deref(), Some("error"));
    assert_eq!(answered(None).http_status, Some(200));
}

#[test]
fn a_stream_is_read_to_its_end() {
    let r = stream(vec![SseEvent::Other, SseEvent::Token(1.0), SseEvent::Usage(5), SseEvent::Token(2.0), SseEvent::Usage(7), SseEvent::Done, SseEvent::Token(3.0)]);
    assert_eq!((r.chunks, r.usage, r.broke), (vec![1.0, 2.0], Some(7), None));
    let r = stream(vec![SseEvent::Token(1.0), SseEvent::Broke(true), SseEvent::Token(2.0)]);
    assert_eq!((r.chunks, r.usage, r.broke), (vec![1.0], None, Some(true)));
    // a stream that just ends is over too
    assert_eq!(stream(vec![SseEvent::Token(1.0)]).broke, None);
}

#[test]
fn a_probe_that_comes_to_nothing_says_why() {
    let late: ProbeRecord<f64> = run_probe(1, Sent::Unreachable("x".repeat(500), true));
    assert_eq!((late.status.as_str(), late.detail.len(), late.http_status), ("timeout", 120, None));
    let refused: ProbeRecord<f64> = run_probe(1, Sent::Unreachable("refused".into(), false));
    assert_eq!((refused.status.as_str(), refused.detail.as_str()), ("error", "refused"));
    let broke = run_probe(1, Sent::Answered(200, stream(vec![SseEvent::Broke(false)]), None));
    assert_eq!((broke.status.as_str(), broke.detail.as_str()), ("error", "stream broke"));
    let short = run_probe(1, Sent::Answered(200, stream(vec![SseEvent::Token(0.1), SseEvent::Done]), None));
    assert_eq!((short.status.as_str(), short.detail.as_str()), ("error", "stream too short to time (1 chunks)"));
}

#[test]
fn a_probe_that_ran_alone_is_stored_valid() {
    let p = run_validated_probe(answered(None), Verdict::RanAlone, NOTE);
    assert!(p.valid && !p.unverified);
    assert_eq!((p.status.as_str(), p.tokens, p.decode_tok_s, p.ttft_ms), ("ok", Some(128), Some(190.0), Some(90.0)));
}

#[test]
fn a_probe_whose_answer_arrived_in_one_burst_is_stored_invalid() {
    let p = answered(Some("buffered, not streamed"));
    assert_eq!((p.valid, p.invalid_reason.as_deref(), p.detail.as_str()), (false, Some("burst"), "buffered, not streamed"));
    assert!(!run_validated_probe(p, Verdict::RanAlone, NOTE).valid);
}

#[test]
fn with_no_gateway_the_engine_alone_decides() {
    assert_eq!(gate_admitted(false, Some((3, 4))), None);
    assert_eq!(gate_admitted(true, Some((3, 4))), Some(7));
    assert_eq!(gate_admitted(true, None), None);
    let p = run_validated_probe(answered(None), Verdict::CouldNotRuleOut("no gateway".into()), NOTE);
    assert!(p.valid && p.unverified);
    assert_eq!(p.detail, "unverified: no gateway");
}

#[test]
fn a_probe_that_shared_the_engine_is_stored_invalid() {
    let p = run_validated_probe(answered(None), Verdict::Contended("contended".into(), "1 other request".into()), NOTE);
    assert_eq!((p.valid, p.invalid_reason.as_deref(), p.detail.as_str()), (false, Some("contended"), "1 other request"));
    assert_eq!(p.decode_tok_s, Some(190.0), "what was measured stays");
    let failed = run_validated_probe(run_probe::<f64>(1, Sent::Refused(500)), Verdict::RanAlone, NOTE);
    assert_eq!((failed.valid, failed.invalid_reason.as_deref()), (false, Some("error")));
}

#[test]
fn a_probe_with_a_slow_first_token_is_stored_invalid() {
    let p = run_validated_probe(answered(None), Verdict::Contended("slow_ttft".into(), "the first token took 250 ms".into()), NOTE);
    assert_eq!((p.valid, p.invalid_reason.as_deref()), (false, Some("slow_ttft")));
    assert!(p.decode_tok_s.is_some(), "the number is kept for the record, it is just never used");
}

#[test]
fn a_request_invisible_to_running_but_not_to_the_token_counter_is_caught() {
    // nothing runs before and after, and the gateway let nobody else in
    assert_eq!(load_after(Some((0.0, 0.0, true))), (Some(0.0), Some(0.0), true));
    assert_eq!(gate_admitted(true, Some((60, 0))), Some(60));
    // the counter grew by 288 over the probe's own 64 tokens
    assert!(settled_load(Some(48_213), Some(48_213 + 288), 0));
    let p = run_validated_probe(answered(None), Verdict::Contended("contended".into(), "the counter grew by 288 token(s), the probe's own are 64".into()), NOTE);
    assert_eq!((p.status.as_str(), p.valid, p.invalid_reason.as_deref()), ("ok", false, Some("contended")));
    assert!(p.detail.contains("288"));
}

#[test]
fn the_after_read_waits_until_the_engine_has_counted_the_probes_own_request() {
    assert!(!settled_load(Some(10), Some(10), 0));
    assert!(settled_load(Some(10), Some(11), 0));
    assert!(settled_load(Some(10), Some(10), 2_000), "it is not waited for without end");
    assert!(settled_load(None, Some(1), 0) && settled_load(Some(1), None, 0));
    assert_eq!(load_after(Some((1.0, 0.0, true))), (Some(1.0), Some(0.0), true));
    assert_eq!(load_after(Some((1.0, 0.0, false))), (None, None, false));
    assert_eq!(load_after::<f64>(None), (None, None, true));
}

#[test]
fn a_probe_is_only_sent_to_an_idle_engine() {
    assert_eq!(turn(true, ProbeDecision::Run), ProbeTurn::Wait);
    assert_eq!(turn(false, ProbeDecision::Run), ProbeTurn::Look);
    assert_eq!(turn(false, ProbeDecision::SkipBusy), ProbeTurn::StoreBusy);
    for d in [ProbeDecision::NotDue, ProbeDecision::InFlight, ProbeDecision::SkipDown] {
        assert_eq!(turn(false, d), ProbeTurn::Wait);
    }
    assert_eq!(after_look(Some(true), true), ProbeTurn::StoreBusy);
    assert_eq!(after_look(Some(false), true), ProbeTurn::Send);
    assert_eq!(after_look(Some(false), false), ProbeTurn::Wait);
    assert_eq!(after_look(None, true), ProbeTurn::Wait);
}
